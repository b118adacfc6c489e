//! The seed of a simulation: dimensions plus initial cell values.

use vstd::prelude::*;
use vstd::string::StrSliceExecFns;

use crate::WorldError;
use crate::text::{is_alive_char, lemma_first_newline_at, lemma_lines_of_no_newline, lines_of, parses, uniform_lines};
use crate::world::lemma_grid_index;

verus! {

/// The dimensions and initial cell values of a grid, produced either by
/// parsing a textual description or by [`WorldConfig::zero`].
///
/// Cells are stored row-major: the cell at `(row, col)` is
/// `seed[row * width + col]`, with `row` in `[0, height)` and `col` in
/// `[0, width)`.
#[derive(Debug)]
pub struct WorldConfig {
    pub width: usize,
    pub height: usize,
    pub seed: Vec<bool>,
}

impl WorldConfig {
    /// A config is well formed when its seed holds exactly one cell per
    /// coordinate of its dimensions.
    pub open spec fn wf(&self) -> bool {
        self.seed@.len() == self.width * self.height
    }

    /// The text `t` decodes to exactly this config: one row per line, a cell
    /// live exactly where its character is `#` or `1`.
    pub open spec fn decodes(&self, t: Seq<char>) -> bool {
        let ls = lines_of(t);
        &&& self.height == ls.len()
        &&& self.width == ls[0].len()
        &&& forall|r: int, c: int|
            0 <= r < self.height && 0 <= c < self.width ==> self.seed@[r * self.width + c]
                == is_alive_char(#[trigger] ls[r][c])
    }

    /// Packs dimensions and cell values, which must already agree in size.
    pub fn new(width: usize, height: usize, seed: Vec<bool>) -> (c: WorldConfig)
        requires
            seed@.len() == width * height,
        ensures
            c.wf(),
            c.width == width,
            c.height == height,
            c.seed@ == seed@,
    {
        WorldConfig { width, height, seed }
    }

    /// A config of the given dimensions with every cell dead.
    pub fn zero(width: usize, height: usize) -> (c: WorldConfig)
        requires
            width * height <= usize::MAX,
        ensures
            c.wf(),
            c.width == width,
            c.height == height,
            forall|i: int| 0 <= i < c.seed@.len() ==> !c.seed@[i],
    {
        let total = width * height;
        let mut seed: Vec<bool> = Vec::new();
        let mut i: usize = 0;
        while i < total
            invariant
                i <= total,
                seed@.len() == i,
                forall|j: int| 0 <= j < seed@.len() ==> !seed@[j],
            decreases total - i,
        {
            seed.push(false);
            i = i + 1;
        }
        WorldConfig { width, height, seed }
    }
}

/// The rows named by `(start, end)` index pairs into `t`.
spec fn row_seqs(rows: Seq<(usize, usize)>, t: Seq<char>) -> Seq<Seq<char>> {
    Seq::new(rows.len(), |j: int| t.subrange(rows[j].0 as int, rows[j].1 as int))
}

impl WorldConfig {
    /// Parses a textual grid: one line per row, every row of the same
    /// length, `#` or `1` for a live cell and any other character for a
    /// dead one. A text with rows of differing lengths, or with no rows at
    /// all, is rejected as `MalformedGrid`.
    pub fn parse(text: &str) -> (res: Result<WorldConfig, WorldError>)
        ensures
            res is Ok <==> parses(text@),
            res matches Ok(cfg) ==> cfg.wf() && cfg.decodes(text@),
            res matches Err(e) ==> e == WorldError::MalformedGrid,
    {
        let ghost t = text@;
        let n = text.unicode_len();

        // Find the row boundaries: each row is text[start..end) with a
        // newline at `end`, or with `end == n` for an unterminated last row.
        let mut rows: Vec<(usize, usize)> = Vec::new();
        let mut start: usize = 0;
        let mut i: usize = 0;
        proof {
            assert(t.subrange(0, n as int) =~= t);
            assert(row_seqs(rows@, t) + lines_of(t) =~= lines_of(t));
        }
        while i < n
            invariant
                t == text@,
                n == t.len(),
                start <= i <= n,
                forall|k: int| start <= k < i ==> t[k] != '\n',
                forall|j: int|
                    0 <= j < rows@.len() ==> (#[trigger] rows@[j]).0 <= rows@[j].1 <= n,
                lines_of(t) == row_seqs(rows@, t) + lines_of(t.subrange(start as int, n as int)),
            decreases n - i,
        {
            let ch = text.get_char(i);
            if ch == '\n' {
                proof {
                    let s = t.subrange(start as int, n as int);
                    assert forall|k: int| 0 <= k < i - start implies s[k] != '\n' by {
                        assert(s[k] == t[start + k]);
                    }
                    assert(s[i - start] == t[i as int]);
                    lemma_first_newline_at(s, i - start);
                    assert(s.subrange(0, i - start) =~= t.subrange(start as int, i as int));
                    assert(s.subrange(i - start + 1, s.len() as int) =~= t.subrange(
                        i as int + 1,
                        n as int,
                    ));
                    assert(lines_of(s) == seq![t.subrange(start as int, i as int)] + lines_of(
                        t.subrange(i as int + 1, n as int),
                    ));
                    assert(row_seqs(rows@.push((start, i)), t) =~= row_seqs(rows@, t).push(
                        t.subrange(start as int, i as int),
                    ));
                    assert(row_seqs(rows@, t).push(t.subrange(start as int, i as int)) + lines_of(
                        t.subrange(i as int + 1, n as int),
                    ) =~= row_seqs(rows@, t) + lines_of(s));
                }
                rows.push((start, i));
                start = i + 1;
            }
            i = i + 1;
        }
        if start < n {
            proof {
                let s = t.subrange(start as int, n as int);
                assert forall|k: int| 0 <= k < s.len() implies s[k] != '\n' by {
                    assert(s[k] == t[start + k]);
                }
                lemma_lines_of_no_newline(s);
                assert(row_seqs(rows@.push((start, n)), t) =~= row_seqs(rows@, t).push(s));
                assert(row_seqs(rows@, t).push(s) =~= row_seqs(rows@, t) + lines_of(s));
            }
            rows.push((start, n));
        } else {
            proof {
                assert(t.subrange(start as int, n as int) =~= Seq::<char>::empty());
                assert(row_seqs(rows@, t) + lines_of(Seq::<char>::empty()) =~= row_seqs(rows@, t));
            }
        }
        assert(lines_of(t) == row_seqs(rows@, t));

        // A grid needs at least one row.
        if rows.len() == 0 {
            return Err(WorldError::MalformedGrid);
        }
        let height = rows.len();
        let first = rows[0];
        let width = first.1 - first.0;
        assert(lines_of(t)[0].len() == width);

        // Every row must have the common width.
        let mut j: usize = 1;
        while j < height
            invariant
                t == text@,
                n == t.len(),
                1 <= j <= height,
                height == rows@.len(),
                height == lines_of(t).len(),
                forall|k: int|
                    0 <= k < rows@.len() ==> (#[trigger] rows@[k]).0 <= rows@[k].1 <= n,
                lines_of(t) == row_seqs(rows@, t),
                forall|k: int| 0 <= k < j ==> (#[trigger] lines_of(t)[k]).len() == width,
            decreases height - j,
        {
            let row = rows[j];
            if row.1 - row.0 != width {
                assert(lines_of(t)[j as int].len() != lines_of(t)[0].len());
                return Err(WorldError::MalformedGrid);
            }
            j = j + 1;
        }
        assert(uniform_lines(lines_of(t)));

        // Decode the cells row by row.
        let mut seed: Vec<bool> = Vec::new();
        let mut r: usize = 0;
        while r < height
            invariant
                t == text@,
                n == t.len(),
                r <= height,
                height == rows@.len(),
                height == lines_of(t).len(),
                forall|k: int|
                    0 <= k < rows@.len() ==> (#[trigger] rows@[k]).0 <= rows@[k].1 <= n,
                lines_of(t) == row_seqs(rows@, t),
                forall|k: int|
                    0 <= k < height ==> (#[trigger] lines_of(t)[k]).len() == width,
                seed@.len() == r * width,
                forall|rr: int, cc: int|
                    0 <= rr < r && 0 <= cc < width ==> seed@[rr * width + cc] == is_alive_char(
                        #[trigger] lines_of(t)[rr][cc],
                    ),
            decreases height - r,
        {
            let row = rows[r];
            let mut c: usize = 0;
            while c < width
                invariant
                    t == text@,
                    n == t.len(),
                    r < height,
                    c <= width,
                    height == rows@.len(),
                    height == lines_of(t).len(),
                    row == rows@[r as int],
                    row.0 <= row.1 <= n,
                    lines_of(t) == row_seqs(rows@, t),
                    forall|k: int|
                        0 <= k < height ==> (#[trigger] lines_of(t)[k]).len() == width,
                    seed@.len() == r * width + c,
                    forall|rr: int, cc: int|
                        0 <= rr < r && 0 <= cc < width ==> seed@[rr * width + cc] == is_alive_char(
                            #[trigger] lines_of(t)[rr][cc],
                        ),
                    forall|cc: int|
                        0 <= cc < c ==> seed@[r * width + cc] == is_alive_char(
                            #[trigger] lines_of(t)[r as int][cc],
                        ),
                decreases width - c,
            {
                proof {
                    assert(lines_of(t)[r as int] == t.subrange(row.0 as int, row.1 as int));
                    assert(lines_of(t)[r as int].len() == width);
                    assert(row.0 + c < n);
                }
                let ch = text.get_char(row.0 + c);
                let alive = ch == '#' || ch == '1';
                proof {
                    assert(lines_of(t)[r as int][c as int] == t[row.0 + c]);
                    lemma_grid_index(width as int, height as int, r as int, c as int);
                }
                seed.push(alive);
                assert forall|rr: int, cc: int|
                    0 <= rr < r && 0 <= cc < width implies seed@[rr * width + cc] == is_alive_char(
                    lines_of(t)[rr][cc],
                ) by {
                    lemma_grid_index(width as int, r as int, rr, cc);
                    assert(rr * width + cc < r * width + c) by (nonlinear_arith)
                        requires
                            rr * width + cc < width * r,
                            0 <= c,
                    ;
                }
                c = c + 1;
            }
            proof {
                assert((r + 1) * width == r * width + width) by (nonlinear_arith);
            }
            r = r + 1;
        }
        proof {
            assert(seed@.len() == width * height) by (nonlinear_arith)
                requires
                    seed@.len() == height * width,
            ;
        }
        Ok(WorldConfig { width, height, seed })
    }
}

} // verus!
