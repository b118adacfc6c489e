//! Grid-level laws: facts that relate parsing, rendering and the
//! transition, stated over the spec-level views and proved once for all
//! grids.

use vstd::prelude::*;

use crate::text::{cell_char, is_alive_char, lemma_lines_of_prepend, lines_of, parses, uniform_lines};
use crate::world::{WorldView, lemma_step_cell};
use crate::world_config::WorldConfig;

verus! {

/// The rendered text splits back into exactly one line per grid row, each
/// line being that row's characters.
pub proof fn lemma_render_lines(v: WorldView)
    ensures
        lines_of(v.render()).len() == v.height,
        forall|r: int| 0 <= r < v.height ==> #[trigger] lines_of(v.render())[r] == v.row_chars(r),
{
    lemma_render_from_lines(v, 0);
    assert forall|r: int| 0 <= r < v.height implies #[trigger] lines_of(v.render())[r]
        == v.row_chars(r) by {
        assert(lines_of(v.render_from(0))[r] == v.row_chars(0 + r));
    }
}

proof fn lemma_render_from_lines(v: WorldView, r: int)
    requires
        0 <= r <= v.height,
    ensures
        lines_of(v.render_from(r)) == Seq::new(
            (v.height - r) as nat,
            |k: int| v.row_chars(r + k),
        ),
    decreases v.height - r,
{
    let rhs = Seq::new((v.height - r) as nat, |k: int| v.row_chars(r + k));
    if r == v.height {
        assert(lines_of(v.render_from(r)) =~= rhs);
    } else {
        lemma_render_from_lines(v, r + 1);
        assert forall|i: int| 0 <= i < v.row_chars(r).len() implies v.row_chars(r)[i] != '\n' by {
            assert(v.row_chars(r)[i] == cell_char(v.cell(r, i)));
        }
        lemma_lines_of_prepend(v.row_chars(r), v.render_from(r + 1));
        assert(v.render_from(r) == v.row_chars(r) + seq!['\n'] + v.render_from(r + 1));
        let tail = Seq::new((v.height - r - 1) as nat, |k: int| v.row_chars(r + 1 + k));
        assert(lines_of(v.render_from(r)) == seq![v.row_chars(r)] + tail);
        assert forall|k: int| 0 <= k < rhs.len() implies (seq![v.row_chars(r)] + tail)[k]
            == rhs[k] by {
            if k > 0 {
                assert((seq![v.row_chars(r)] + tail)[k] == v.row_chars(r + 1 + (k - 1)));
                assert(r + 1 + (k - 1) == r + k);
            }
        }
        assert(lines_of(v.render_from(r)) =~= rhs);
    }
}

/// Round trip: a well-formed text, parsed into a config and loaded into a
/// grid, renders back to the very pattern it described — the same number
/// of rows of the same lengths, with `#` exactly where the text had a live
/// character (`#` or `1`) and `.` everywhere else.
pub proof fn lemma_parse_render_round_trip(t: Seq<char>, cfg: WorldConfig, v: WorldView)
    requires
        parses(t),
        cfg.wf(),
        cfg.decodes(t),
        v.width == cfg.width,
        v.height == cfg.height,
        v.cells == cfg.seed@,
    ensures
        lines_of(v.render()).len() == lines_of(t).len(),
        forall|r: int|
            0 <= r < lines_of(t).len() ==> (#[trigger] lines_of(v.render())[r]).len() == lines_of(
                t,
            )[r].len(),
        forall|r: int, c: int|
            0 <= r < lines_of(t).len() && 0 <= c < lines_of(t)[r].len() ==> lines_of(v.render())[r][c]
                == cell_char(is_alive_char(#[trigger] lines_of(t)[r][c])),
{
    let ls = lines_of(t);
    lemma_render_lines(v);
    assert(uniform_lines(ls));
    assert forall|r: int| 0 <= r < ls.len() implies (#[trigger] lines_of(v.render())[r]).len()
        == ls[r].len() by {
        assert(ls[r].len() == ls[0].len());
        assert(lines_of(v.render())[r] == v.row_chars(r));
    }
    assert forall|r: int, c: int|
        0 <= r < ls.len() && 0 <= c < ls[r].len() implies lines_of(v.render())[r][c] == cell_char(
        is_alive_char(#[trigger] ls[r][c]),
    ) by {
        assert(ls[r].len() == ls[0].len());
        assert(lines_of(v.render())[r] == v.row_chars(r));
        assert(v.row_chars(r)[c] == cell_char(v.cell(r, c)));
        assert(v.cell(r, c) == v.cells[r * v.width + c]);
        assert(cfg.seed@[r * cfg.width + c] == is_alive_char(ls[r][c]));
    }
}

/// The rendered text of a nonempty grid is itself well formed, and decodes
/// back to the very same cells: `#` reads as alive, `.` as dead.
pub proof fn lemma_render_reparses(v: WorldView)
    requires
        v.wf(),
        v.height >= 1,
    ensures
        parses(v.render()),
        lines_of(v.render()).len() == v.height,
        lines_of(v.render())[0].len() == v.width,
        forall|r: int, c: int|
            0 <= r < v.height && 0 <= c < v.width ==> is_alive_char(
                #[trigger] lines_of(v.render())[r][c],
            ) == v.cell(r, c),
{
    lemma_render_lines(v);
    assert forall|i: int| 0 <= i < lines_of(v.render()).len() implies (#[trigger] lines_of(
        v.render(),
    )[i]).len() == lines_of(v.render())[0].len() by {
        assert(lines_of(v.render())[i] == v.row_chars(i));
        assert(lines_of(v.render())[0] == v.row_chars(0));
    }
    assert forall|r: int, c: int|
        0 <= r < v.height && 0 <= c < v.width implies is_alive_char(
        #[trigger] lines_of(v.render())[r][c],
    ) == v.cell(r, c) by {
        assert(lines_of(v.render())[r] == v.row_chars(r));
        assert(v.row_chars(r)[c] == cell_char(v.cell(r, c)));
    }
}

/// One transition keeps the dimensions and the grid size, and advances the
/// generation counter by exactly one.
pub proof fn lemma_step_preserves_shape(v: WorldView)
    ensures
        v.step().width == v.width,
        v.step().height == v.height,
        v.step().cells.len() == v.cells.len(),
        v.step().generation == v.generation + 1,
        v.wf() ==> v.step().wf(),
{
}

/// The state after `n` transitions.
pub open spec fn step_n(v: WorldView, n: nat) -> WorldView
    decreases n,
{
    if n == 0 {
        v
    } else {
        step_n(v, (n - 1) as nat).step()
    }
}

/// Generation monotonicity: after `n` transitions the generation counter
/// equals the initial value plus `n`, and the dimensions are unchanged.
pub proof fn lemma_generation_counts_steps(v: WorldView, n: nat)
    ensures
        step_n(v, n).generation == v.generation + n,
        step_n(v, n).width == v.width,
        step_n(v, n).height == v.height,
        v.wf() ==> step_n(v, n).wf(),
    decreases n,
{
    if n > 0 {
        lemma_generation_counts_steps(v, (n - 1) as nat);
    }
}

/// Edge damping: a grid whose only live cell stands at `(r0, c0)` —
/// wherever that is, an edge or a corner included — is entirely dead after
/// one transition: the lone cell has no live neighbour and nothing has the
/// three needed for a birth.
pub proof fn lemma_lone_cell_dies(v: WorldView, r0: int, c0: int)
    requires
        v.wf(),
        v.in_bounds(r0, c0),
        v.cell(r0, c0),
        forall|r: int, c: int| #[trigger] v.cell(r, c) ==> r == r0 && c == c0,
    ensures
        forall|r: int, c: int| !(#[trigger] v.step().cell(r, c)),
{
    assert forall|r: int, c: int| !(#[trigger] v.step().cell(r, c)) by {
        if v.in_bounds(r, c) {
            lemma_step_cell(v, r, c);
            assert(v.live_neighbors(r, c) <= 1);
            if r == r0 && c == c0 {
                assert(v.live_neighbors(r, c) == 0);
            }
            assert(!v.next_cell(r, c));
        }
    }
}

/// Block stability: a two-by-two block of live cells whose members all
/// stand away from every edge is a still life — the grid is unchanged by
/// one transition.
pub proof fn lemma_block_still_life(v: WorldView, r0: int, c0: int)
    requires
        v.wf(),
        1 <= r0 && r0 + 1 <= v.height - 2,
        1 <= c0 && c0 + 1 <= v.width - 2,
        forall|r: int, c: int|
            v.in_bounds(r, c) ==> (#[trigger] v.cell(r, c) <==> (r0 <= r <= r0 + 1 && c0 <= c <= c0
                + 1)),
    ensures
        forall|r: int, c: int| #[trigger] v.step().cell(r, c) == v.cell(r, c),
{
    assert forall|r: int, c: int|
        #[trigger] v.cell(r, c) <==> (r0 <= r <= r0 + 1 && c0 <= c <= c0 + 1) by {
        if !v.in_bounds(r, c) {
        }
    }
    assert forall|r: int, c: int| #[trigger] v.step().cell(r, c) == v.cell(r, c) by {
        if v.in_bounds(r, c) {
            lemma_step_cell(v, r, c);
        }
    }
}

/// One transition turns a horizontal three-cell line centred at `(r, c)`,
/// away from every edge, into the vertical three-cell line with the same
/// centre.
pub proof fn lemma_blinker_flips(v: WorldView, r: int, c: int)
    requires
        v.wf(),
        1 <= r && r <= v.height - 2,
        1 <= c && c <= v.width - 2,
        forall|x: int, y: int|
            v.in_bounds(x, y) ==> (#[trigger] v.cell(x, y) <==> (x == r && c - 1 <= y <= c + 1)),
    ensures
        forall|x: int, y: int|
            #[trigger] v.step().cell(x, y) <==> (y == c && r - 1 <= x <= r + 1),
{
    assert forall|x: int, y: int| #[trigger] v.cell(x, y) <==> (x == r && c - 1 <= y <= c + 1) by {
        if !v.in_bounds(x, y) {
        }
    }
    assert forall|x: int, y: int|
        #[trigger] v.step().cell(x, y) <==> (y == c && r - 1 <= x <= r + 1) by {
        if v.in_bounds(x, y) {
            lemma_step_cell(v, x, y);
        }
    }
}

/// The vertical counterpart: one transition turns a vertical three-cell
/// line centred at `(r, c)`, away from every edge, back into the
/// horizontal one.
pub proof fn lemma_blinker_flops(v: WorldView, r: int, c: int)
    requires
        v.wf(),
        1 <= r && r <= v.height - 2,
        1 <= c && c <= v.width - 2,
        forall|x: int, y: int|
            v.in_bounds(x, y) ==> (#[trigger] v.cell(x, y) <==> (y == c && r - 1 <= x <= r + 1)),
    ensures
        forall|x: int, y: int|
            #[trigger] v.step().cell(x, y) <==> (x == r && c - 1 <= y <= c + 1),
{
    assert forall|x: int, y: int| #[trigger] v.cell(x, y) <==> (y == c && r - 1 <= x <= r + 1) by {
        if !v.in_bounds(x, y) {
        }
    }
    assert forall|x: int, y: int|
        #[trigger] v.step().cell(x, y) <==> (x == r && c - 1 <= y <= c + 1) by {
        if v.in_bounds(x, y) {
            lemma_step_cell(v, x, y);
        }
    }
}

/// Blinker oscillation: a horizontal three-cell line centred away from
/// every edge returns to itself after two transitions, having passed
/// through the vertical line in between.
pub proof fn lemma_blinker_period_two(v: WorldView, r: int, c: int)
    requires
        v.wf(),
        1 <= r && r <= v.height - 2,
        1 <= c && c <= v.width - 2,
        forall|x: int, y: int|
            v.in_bounds(x, y) ==> (#[trigger] v.cell(x, y) <==> (x == r && c - 1 <= y <= c + 1)),
    ensures
        forall|x: int, y: int| #[trigger] v.step().step().cell(x, y) == v.cell(x, y),
{
    lemma_blinker_flips(v, r, c);
    lemma_step_preserves_shape(v);
    lemma_blinker_flops(v.step(), r, c);
    assert forall|x: int, y: int| #[trigger] v.step().step().cell(x, y) == v.cell(x, y) by {
        if !v.in_bounds(x, y) {
        }
    }
}

} // verus!
