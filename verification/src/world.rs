//! The grid engine: current cell state, generation counter, the
//! per-generation transition, and rendering back to text.

use vstd::arithmetic::div_mod::{
    lemma_fundamental_div_mod, lemma_fundamental_div_mod_converse, lemma_mod_bound,
};
use vstd::prelude::*;
use vstd::string::StringExecFns;

use crate::WorldError;
use crate::text::cell_char;
use crate::world_config::WorldConfig;

verus! {

/// The mathematical state of a [`World`]: dimensions, row-major cell
/// values, and the generation counter.
#[verifier::ext_equal]
pub ghost struct WorldView {
    pub width: nat,
    pub height: nat,
    pub cells: Seq<bool>,
    pub generation: nat,
}

/// One where a live cell counts, zero otherwise.
pub open spec fn as_count(alive: bool) -> int {
    if alive {
        1
    } else {
        0
    }
}

impl WorldView {
    /// The grid holds exactly one cell per coordinate.
    pub open spec fn wf(self) -> bool {
        self.cells.len() == self.width * self.height
    }

    pub open spec fn in_bounds(self, r: int, c: int) -> bool {
        0 <= r < self.height && 0 <= c < self.width
    }

    /// The cell at `(r, c)`; every coordinate outside the grid reads as dead.
    pub open spec fn cell(self, r: int, c: int) -> bool {
        self.in_bounds(r, c) && self.cells[r * self.width + c]
    }

    /// How many of the eight immediate neighbours of `(r, c)` are alive.
    /// Coordinates beyond an edge contribute nothing: the grid does not wrap.
    pub open spec fn live_neighbors(self, r: int, c: int) -> int {
        as_count(self.cell(r - 1, c - 1)) + as_count(self.cell(r - 1, c)) + as_count(
            self.cell(r - 1, c + 1),
        ) + as_count(self.cell(r, c - 1)) + as_count(self.cell(r, c + 1)) + as_count(
            self.cell(r + 1, c - 1),
        ) + as_count(self.cell(r + 1, c)) + as_count(self.cell(r + 1, c + 1))
    }

    /// The standard rule: a live cell survives with two or three live
    /// neighbours; a dead cell is born with exactly three.
    pub open spec fn next_cell(self, r: int, c: int) -> bool {
        if self.cell(r, c) {
            self.live_neighbors(r, c) == 2 || self.live_neighbors(r, c) == 3
        } else {
            self.live_neighbors(r, c) == 3
        }
    }

    /// The state after one transition: every cell recomputed from the
    /// current grid, and the generation counter advanced by one.
    pub open spec fn step(self) -> WorldView {
        WorldView {
            cells: Seq::new(
                self.cells.len(),
                |i: int| self.next_cell(i / self.width as int, i % self.width as int),
            ),
            generation: self.generation + 1,
            ..self
        }
    }

    /// The state with the one cell at `(r, c)` replaced and nothing else
    /// touched.
    pub open spec fn set_cell(self, r: int, c: int, alive: bool) -> WorldView {
        WorldView { cells: self.cells.update(r * self.width + c, alive), ..self }
    }

    /// Row `r` rendered as characters, `#` for live and `.` for dead.
    pub open spec fn row_chars(self, r: int) -> Seq<char> {
        Seq::new(self.width, |c: int| cell_char(self.cell(r, c)))
    }

    /// The textual form of rows `r..height`, each terminated by a newline.
    pub open spec fn render_from(self, r: int) -> Seq<char>
        decreases self.height - r,
    {
        if r < 0 || r >= self.height {
            Seq::empty()
        } else {
            self.row_chars(r) + seq!['\n'] + self.render_from(r + 1)
        }
    }

    /// The textual form of the whole grid.
    pub open spec fn render(self) -> Seq<char> {
        self.render_from(0)
    }
}

/// A row-major flat index stays inside the grid.
pub proof fn lemma_grid_index(w: int, h: int, r: int, c: int)
    by (nonlinear_arith)
    requires
        0 <= r < h,
        0 <= c < w,
    ensures
        0 <= r * w + c < w * h,
{
}

/// What `step` puts at the flat index of an in-bounds coordinate.
pub proof fn lemma_step_cell(v: WorldView, r: int, c: int)
    requires
        v.wf(),
        v.in_bounds(r, c),
    ensures
        0 <= r * v.width + c < v.cells.len(),
        v.step().cells[r * v.width + c] == v.next_cell(r, c),
        v.step().cell(r, c) == v.next_cell(r, c),
{
    lemma_grid_index(v.width as int, v.height as int, r, c);
    lemma_fundamental_div_mod_converse(r * v.width + c, v.width as int, r, c);
}

/// A world owns its grid and generation counter; dimensions never change
/// after construction.
pub struct World {
    width: usize,
    height: usize,
    generation: usize,
    cells: Vec<bool>,
}

impl View for World {
    type V = WorldView;

    closed spec fn view(&self) -> WorldView {
        WorldView {
            width: self.width as nat,
            height: self.height as nat,
            cells: self.cells@,
            generation: self.generation as nat,
        }
    }
}

impl World {
    /// Takes ownership of a seed's dimensions and cells; the generation
    /// counter starts at zero.
    pub fn new(config: WorldConfig) -> (w: World)
        requires
            config.wf(),
        ensures
            w@.wf(),
            w@.width == config.width,
            w@.height == config.height,
            w@.cells == config.seed@,
            w@.generation == 0,
    {
        World { width: config.width, height: config.height, generation: 0, cells: config.seed }
    }

    pub fn width(&self) -> (w: usize)
        ensures
            w == self@.width,
    {
        self.width
    }

    pub fn height(&self) -> (h: usize)
        ensures
            h == self@.height,
    {
        self.height
    }

    pub fn generation(&self) -> (g: usize)
        ensures
            g == self@.generation,
    {
        self.generation
    }

    /// The cell at an in-bounds coordinate.
    fn cell_alive(&self, r: usize, c: usize) -> (b: bool)
        requires
            self@.wf(),
            r < self@.height,
            c < self@.width,
        ensures
            b == self@.cell(r as int, c as int),
    {
        let len = self.cells.len();
        proof {
            lemma_grid_index(self@.width as int, self@.height as int, r as int, c as int);
            assert(r * self.width + c < len);
        }
        self.cells[r * self.width + c]
    }

    /// Sets one cell, or reports `OutOfBounds` when the coordinate lies at
    /// or beyond either dimension. Nothing else changes; the generation
    /// counter does not advance.
    pub fn set(&mut self, x: usize, y: usize, alive: bool) -> (res: Result<(), WorldError>)
        requires
            old(self)@.wf(),
        ensures
            final(self)@.wf(),
            x < old(self)@.height && y < old(self)@.width ==> res is Ok && final(self)@ == old(
                self,
            )@.set_cell(x as int, y as int, alive),
            !(x < old(self)@.height && y < old(self)@.width) ==> res === Err(
                WorldError::OutOfBounds,
            ) && final(self)@ == old(self)@,
    {
        if x >= self.height || y >= self.width {
            return Err(WorldError::OutOfBounds);
        }
        let len = self.cells.len();
        proof {
            lemma_grid_index(self@.width as int, self@.height as int, x as int, y as int);
            assert(x * self.width + y < len);
        }
        let idx = x * self.width + y;
        self.cells.set(idx, alive);
        Ok(())
    }

    /// Counts the live cells among the eight neighbours of `(r, c)` in the
    /// current grid.
    fn live_neighbor_count(&self, r: usize, c: usize) -> (n: u8)
        requires
            self@.wf(),
            r < self@.height,
            c < self@.width,
        ensures
            n as int == self@.live_neighbors(r as int, c as int),
    {
        let ghost v = self@;
        let ghost ri = r as int;
        let ghost ci = c as int;
        let mut n: u8 = 0;
        if r > 0 && c > 0 && self.cell_alive(r - 1, c - 1) {
            n = n + 1;
        }
        assert(n as int == as_count(v.cell(ri - 1, ci - 1)));
        if r > 0 && self.cell_alive(r - 1, c) {
            n = n + 1;
        }
        assert(n as int == as_count(v.cell(ri - 1, ci - 1)) + as_count(v.cell(ri - 1, ci)));
        if r > 0 && c + 1 < self.width && self.cell_alive(r - 1, c + 1) {
            n = n + 1;
        }
        assert(n as int == as_count(v.cell(ri - 1, ci - 1)) + as_count(v.cell(ri - 1, ci))
            + as_count(v.cell(ri - 1, ci + 1)));
        if c > 0 && self.cell_alive(r, c - 1) {
            n = n + 1;
        }
        assert(n as int == as_count(v.cell(ri - 1, ci - 1)) + as_count(v.cell(ri - 1, ci))
            + as_count(v.cell(ri - 1, ci + 1)) + as_count(v.cell(ri, ci - 1)));
        if c + 1 < self.width && self.cell_alive(r, c + 1) {
            n = n + 1;
        }
        assert(n as int == as_count(v.cell(ri - 1, ci - 1)) + as_count(v.cell(ri - 1, ci))
            + as_count(v.cell(ri - 1, ci + 1)) + as_count(v.cell(ri, ci - 1)) + as_count(
            v.cell(ri, ci + 1),
        ));
        if r + 1 < self.height && c > 0 && self.cell_alive(r + 1, c - 1) {
            n = n + 1;
        }
        assert(n as int == as_count(v.cell(ri - 1, ci - 1)) + as_count(v.cell(ri - 1, ci))
            + as_count(v.cell(ri - 1, ci + 1)) + as_count(v.cell(ri, ci - 1)) + as_count(
            v.cell(ri, ci + 1),
        ) + as_count(v.cell(ri + 1, ci - 1)));
        if r + 1 < self.height && self.cell_alive(r + 1, c) {
            n = n + 1;
        }
        assert(n as int == as_count(v.cell(ri - 1, ci - 1)) + as_count(v.cell(ri - 1, ci))
            + as_count(v.cell(ri - 1, ci + 1)) + as_count(v.cell(ri, ci - 1)) + as_count(
            v.cell(ri, ci + 1),
        ) + as_count(v.cell(ri + 1, ci - 1)) + as_count(v.cell(ri + 1, ci)));
        if r + 1 < self.height && c + 1 < self.width && self.cell_alive(r + 1, c + 1) {
            n = n + 1;
        }
        assert(n as int == v.live_neighbors(ri, ci));
        n
    }

    /// Advances the grid one generation: every cell is recomputed from the
    /// pre-transition grid simultaneously, then the grid is replaced and
    /// the generation counter incremented by one.
    pub fn tick(&mut self)
        requires
            old(self)@.wf(),
            old(self)@.generation < usize::MAX,
        ensures
            final(self)@.wf(),
            final(self)@ == old(self)@.step(),
    {
        let ghost pre = self@;
        let w = self.width;
        let h = self.height;
        let mut next: Vec<bool> = Vec::new();
        let mut r: usize = 0;
        while r < h
            invariant
                *self == *old(self),
                pre == self@,
                pre.wf(),
                w == pre.width,
                h == pre.height,
                r <= h,
                next@.len() == r * w,
                forall|rr: int, cc: int|
                    0 <= rr < r && 0 <= cc < w ==> next@[rr * w + cc] == pre.next_cell(rr, cc),
            decreases h - r,
        {
            let mut c: usize = 0;
            while c < w
                invariant
                    *self == *old(self),
                    pre == self@,
                    pre.wf(),
                    w == pre.width,
                    h == pre.height,
                    r < h,
                    c <= w,
                    next@.len() == r * w + c,
                    forall|rr: int, cc: int|
                        0 <= rr < r && 0 <= cc < w ==> next@[rr * w + cc] == pre.next_cell(rr, cc),
                    forall|cc: int|
                        0 <= cc < c ==> next@[r * w + cc] == pre.next_cell(r as int, cc),
                decreases w - c,
            {
                let alive = self.cell_alive(r, c);
                let count = self.live_neighbor_count(r, c);
                let cell = if alive {
                    count == 2 || count == 3
                } else {
                    count == 3
                };
                proof {
                    lemma_grid_index(w as int, h as int, r as int, c as int);
                }
                next.push(cell);
                assert forall|rr: int, cc: int|
                    0 <= rr < r && 0 <= cc < w implies next@[rr * w + cc] == pre.next_cell(
                    rr,
                    cc,
                ) by {
                    lemma_grid_index(w as int, r as int, rr, cc);
                    assert(rr * w + cc < r * w + c) by (nonlinear_arith)
                        requires
                            rr * w + cc < w * r,
                            0 <= c,
                    ;
                }
                c = c + 1;
            }
            proof {
                assert((r + 1) * w == r * w + w) by (nonlinear_arith);
            }
            r = r + 1;
        }
        proof {
            assert(next@.len() == h * w);
            assert(pre.step().cells.len() == pre.cells.len());
            assert(pre.cells.len() == w * h);
            assert forall|i: int| 0 <= i < next@.len() implies next@[i] == pre.step().cells[i] by {
                let wi = w as int;
                assert(wi != 0) by (nonlinear_arith)
                    requires
                        0 <= i < h * wi,
                ;
                lemma_fundamental_div_mod(i, wi);
                lemma_mod_bound(i, wi);
                let rr = i / wi;
                let cc = i % wi;
                assert(0 <= rr < h) by (nonlinear_arith)
                    requires
                        i == wi * rr + cc,
                        0 <= cc < wi,
                        0 <= i < h * wi,
                ;
                assert(i == rr * wi + cc);
                assert(next@[rr * wi + cc] == pre.next_cell(rr, cc));
                assert(0 <= i < pre.cells.len()) by (nonlinear_arith)
                    requires
                        0 <= i < h * w,
                        pre.cells.len() == w * h,
                ;
                assert(pre.step().cells[i] == pre.next_cell(
                    i / (pre.width as int),
                    i % (pre.width as int),
                ));
            }
            assert(next@.len() == pre.step().cells.len()) by (nonlinear_arith)
                requires
                    next@.len() == h * w,
                    pre.step().cells.len() == w * h,
            ;
            assert(next@ =~= pre.step().cells);
        }
        self.cells = next;
        self.generation = self.generation + 1;
        assert(self@ =~= pre.step());
    }

    /// Renders the grid one line per row, live cells as `#`, dead cells as
    /// `.`, every line closed by a newline.
    pub fn to_string(&self) -> (s: String)
        requires
            self@.wf(),
        ensures
            s@ == self@.render(),
    {
        let mut s = String::new();
        let h = self.height;
        let w = self.width;
        proof {
            reveal_strlit("#");
            reveal_strlit(".");
            reveal_strlit("\n");
            assert(s@ + self@.render_from(0) =~= self@.render());
        }
        let mut r: usize = 0;
        while r < h
            invariant
                self@.wf(),
                w == self@.width,
                h == self@.height,
                r <= h,
                s@ + self@.render_from(r as int) == self@.render(),
                "#"@ =~= seq!['#'],
                "."@ =~= seq!['.'],
                "\n"@ =~= seq!['\n'],
            decreases h - r,
        {
            let ghost s0 = s@;
            let mut c: usize = 0;
            while c < w
                invariant
                    self@.wf(),
                    w == self@.width,
                    h == self@.height,
                    r < h,
                    c <= w,
                    s@ =~= s0 + self@.row_chars(r as int).subrange(0, c as int),
                    "#"@ =~= seq!['#'],
                    "."@ =~= seq!['.'],
                decreases w - c,
            {
                if self.cell_alive(r, c) {
                    s.append("#");
                } else {
                    s.append(".");
                }
                proof {
                    assert(s@ =~= s0 + self@.row_chars(r as int).subrange(0, c as int + 1));
                }
                c = c + 1;
            }
            s.append("\n");
            proof {
                assert(self@.row_chars(r as int).subrange(0, w as int) =~= self@.row_chars(
                    r as int,
                ));
                assert(s@ =~= s0 + (self@.row_chars(r as int) + seq!['\n']));
                assert(self@.render_from(r as int) == self@.row_chars(r as int) + seq!['\n']
                    + self@.render_from(r as int + 1));
                assert(s@ + self@.render_from(r as int + 1) =~= s0 + self@.render_from(r as int));
            }
            r = r + 1;
        }
        proof {
            assert(s@ + self@.render_from(h as int) =~= s@);
        }
        s
    }
}

} // verus!
