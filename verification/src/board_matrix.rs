//! The 5x5 board of colored cells: bounds-checked single-cell access,
//! connected-region erasure, and a textual rendering.

use vstd::prelude::*;
use vstd::string::StringExecFns;

use crate::color::Color;
use crate::color::glyph_char;

verus! {

/// The 5x5 grid of colored cells. Cell `(x, y)` lives at position
/// `x * 5 + y` of the flat buffer; `x` is the outer (row) coordinate and
/// `y` the inner (column) coordinate, each ranging over `[0, 5)`.
pub struct BoardMatrix {
    cells: Vec<Color>,
}

impl View for BoardMatrix {
    type V = Seq<Color>;

    closed spec fn view(&self) -> Seq<Color> {
        self.cells@
    }
}

/// Position of cell `(x, y)` in the flat buffer.
pub open spec fn idx(x: int, y: int) -> int {
    x * 5 + y
}

/// Whether `(x, y)` lies on the board.
pub open spec fn in_bounds(x: int, y: int) -> bool {
    0 <= x < 5 && 0 <= y < 5
}

/// How many cells of `g` hold exactly the color `c`.
pub open spec fn count_of(g: Seq<Color>, c: Color) -> nat
    decreases g.len(),
{
    if g.len() == 0 {
        0
    } else {
        count_of(g.drop_last(), c) + if g.last() == c {
            1nat
        } else {
            0nat
        }
    }
}

/// Whether `(x1, y1)` and `(x2, y2)` are 4-connected neighbors: directly
/// above, below, left or right of one another (no diagonals).
pub open spec fn adj(x1: int, y1: int, x2: int, y2: int) -> bool {
    (x1 == x2 && (y2 == y1 + 1 || y2 == y1 - 1)) || (y1 == y2 && (x2 == x1 + 1 || x2 == x1 - 1))
}

/// Whether `p` is a path over the board `g` through cells of color `c`:
/// non-empty, every step in bounds and colored `c`, consecutive steps
/// 4-connected.
pub open spec fn path_ok(g: Seq<Color>, p: Seq<(int, int)>, c: Color) -> bool {
    &&& p.len() >= 1
    &&& forall|k: int|
        0 <= k < p.len() ==> in_bounds((#[trigger] p[k]).0, p[k].1) && g[idx(p[k].0, p[k].1)] == c
    &&& forall|k: int|
        0 <= k < p.len() - 1 ==> adj((#[trigger] p[k]).0, p[k].1, p[k + 1].0, p[k + 1].1)
}

/// Whether cell `(x1, y1)` is reachable from `(x0, y0)` on board `g`
/// through a chain of 4-connected cells that all hold the color `c`.
pub open spec fn connected(g: Seq<Color>, x0: int, y0: int, x1: int, y1: int, c: Color) -> bool {
    exists|p: Seq<(int, int)>|
        path_ok(g, p, c) && p.first() == (x0, y0) && p.last() == (x1, y1)
}

/// Whether `g1` differs from `g0` only in cells that held the color `c`
/// in `g0` and hold `_BLANK` in `g1`: an erasure changes nothing else.
pub open spec fn only_blanked(g0: Seq<Color>, g1: Seq<Color>, c: Color) -> bool {
    &&& g1.len() == g0.len()
    &&& forall|i: int|
        0 <= i < g0.len() ==> #[trigger] g1[i] == g0[i] || (g0[i] == c && g1[i] == Color::_BLANK)
}

/// Whether every cell changed between `g0` and `g1` was 4-connected, on
/// `g0`, to the starting cell `(x, y)` through cells of color `c`: an
/// erasure touches only the connected region of its starting cell.
pub open spec fn erased_cells_connected(
    g0: Seq<Color>,
    g1: Seq<Color>,
    x: int,
    y: int,
    c: Color,
) -> bool {
    forall|x2: int, y2: int|
        #![trigger g1[idx(x2, y2)]]
        in_bounds(x2, y2) && g1[idx(x2, y2)] != g0[idx(x2, y2)] ==> connected(g0, x, y, x2, y2, c)
}

/// Whether the changed region is closed off: no cell of `g1` that still
/// holds the color `c` is a 4-connected neighbor of a changed cell, so an
/// erasure leaves no matching cell bordering what it erased.
pub open spec fn region_closed(g0: Seq<Color>, g1: Seq<Color>, c: Color) -> bool {
    forall|x1: int, y1: int, x2: int, y2: int|
        in_bounds(x1, y1) && in_bounds(x2, y2) && #[trigger] adj(x1, y1, x2, y2) && g1[idx(
            x1,
            y1,
        )] != g0[idx(x1, y1)] ==> g1[idx(x2, y2)] != c
}

/// The border line of the rendering: `+`, five `-`, `+`, and a newline.
pub open spec fn border_chars() -> Seq<char> {
    seq!['+', '-', '-', '-', '-', '-', '+', '\n']
}

/// One rendered content line: `|`, the five glyphs of the fixed-`x` slice
/// (inner index `y` running from 0 to 4), `|`, and a newline.
pub open spec fn row_chars(g: Seq<Color>, x: int) -> Seq<char> {
    seq![
        '|',
        glyph_char(g[idx(x, 0)]),
        glyph_char(g[idx(x, 1)]),
        glyph_char(g[idx(x, 2)]),
        glyph_char(g[idx(x, 3)]),
        glyph_char(g[idx(x, 4)]),
        '|',
        '\n',
    ]
}

/// The full rendering: a border line, the five content lines iterated
/// row-major by the outer index `x`, and a closing border line.
pub open spec fn render_chars(g: Seq<Color>) -> Seq<char> {
    border_chars() + row_chars(g, 0) + row_chars(g, 1) + row_chars(g, 2) + row_chars(g, 3)
        + row_chars(g, 4) + border_chars()
}

/// The first `n` content lines of the rendering.
spec fn rows_up_to(g: Seq<Color>, n: int) -> Seq<char>
    decreases n,
{
    if n <= 0 {
        Seq::empty()
    } else {
        rows_up_to(g, n - 1) + row_chars(g, n - 1)
    }
}

/// The opening `|` and first `m` glyphs of the content line of slice `x`.
spec fn cols_up_to(g: Seq<Color>, x: int, m: int) -> Seq<char>
    decreases m,
{
    if m <= 0 {
        seq!['|']
    } else {
        cols_up_to(g, x, m - 1) + seq![glyph_char(g[idx(x, m - 1)])]
    }
}

/// A cell's flat position is within the buffer, and two distinct in-bounds
/// cells never share a flat position.
pub proof fn lemma_idx_bounds(x: int, y: int)
    requires
        in_bounds(x, y),
    ensures
        0 <= idx(x, y) < 25,
        forall|x2: int, y2: int|
            in_bounds(x2, y2) && #[trigger] idx(x2, y2) == idx(x, y) ==> x2 == x && y2 == y,
{
    assert forall|x2: int, y2: int|
        in_bounds(x2, y2) && #[trigger] idx(x2, y2) == idx(x, y) implies x2 == x && y2 == y by {
        assert(x2 == x && y2 == y) by (nonlinear_arith)
            requires
                in_bounds(x, y),
                in_bounds(x2, y2),
                idx(x2, y2) == idx(x, y),
        ;
    }
}

/// A board never holds more than `len` cells of any one color.
proof fn lemma_count_of_le_len(g: Seq<Color>, c: Color)
    ensures
        count_of(g, c) <= g.len(),
    decreases g.len(),
{
    if g.len() > 0 {
        lemma_count_of_le_len(g.drop_last(), c);
    }
}

/// Overwriting one cell adjusts the color count by exactly the departure
/// and arrival of the written color.
proof fn lemma_count_of_update(g: Seq<Color>, i: int, v: Color, c: Color)
    requires
        0 <= i < g.len(),
    ensures
        count_of(g.update(i, v), c) == count_of(g, c) - (if g[i] == c {
            1int
        } else {
            0int
        }) + (if v == c {
            1int
        } else {
            0int
        }),
    decreases g.len(),
{
    let gu = g.update(i, v);
    if i == g.len() - 1 {
        assert(gu.drop_last() =~= g.drop_last());
    } else {
        assert(gu.drop_last() =~= g.drop_last().update(i, v));
        lemma_count_of_update(g.drop_last(), i, v, c);
    }
}

/// A cell of color `c` is connected to itself.
proof fn lemma_connected_self(g: Seq<Color>, x: int, y: int, c: Color)
    requires
        in_bounds(x, y),
        g[idx(x, y)] == c,
    ensures
        connected(g, x, y, x, y, c),
{
    let p: Seq<(int, int)> = seq![(x, y)];
    assert(path_ok(g, p, c));
    assert(p.first() == (x, y) && p.last() == (x, y));
}

/// A connection can be extended backward by one 4-connected step through
/// a cell of the matching color.
proof fn lemma_connected_prepend(
    g: Seq<Color>,
    x0: int,
    y0: int,
    x1: int,
    y1: int,
    x2: int,
    y2: int,
    c: Color,
)
    requires
        in_bounds(x0, y0),
        g[idx(x0, y0)] == c,
        adj(x0, y0, x1, y1),
        connected(g, x1, y1, x2, y2, c),
    ensures
        connected(g, x0, y0, x2, y2, c),
{
    let p = choose|p: Seq<(int, int)>|
        path_ok(g, p, c) && p.first() == (x1, y1) && p.last() == (x2, y2);
    let q = seq![(x0, y0)] + p;
    assert forall|k: int| 0 <= k < q.len() implies in_bounds((#[trigger] q[k]).0, q[k].1) && g[idx(
        q[k].0,
        q[k].1,
    )] == c by {
        if k == 0 {
            assert(q[k] == (x0, y0));
        } else {
            assert(q[k] == p[k - 1]);
        }
    }
    assert forall|k: int| 0 <= k < q.len() - 1 implies adj(
        (#[trigger] q[k]).0,
        q[k].1,
        q[k + 1].0,
        q[k + 1].1,
    ) by {
        if k == 0 {
            assert(q[0] == (x0, y0) && q[1] == p[0]);
            assert(p[0] == (x1, y1));
        } else {
            assert(q[k] == p[k - 1] && q[k + 1] == p[k]);
        }
    }
    assert(path_ok(g, q, c));
    assert(q.first() == (x0, y0));
    assert(q.last() == p.last());
}

/// A connection on a partially erased board was already a connection on
/// the board it was erased from: erasing cells never creates paths.
proof fn lemma_connected_mono(
    g0: Seq<Color>,
    g1: Seq<Color>,
    x0: int,
    y0: int,
    x1: int,
    y1: int,
    c: Color,
)
    requires
        c != Color::_BLANK,
        g0.len() == 25,
        only_blanked(g0, g1, c),
        connected(g1, x0, y0, x1, y1, c),
    ensures
        connected(g0, x0, y0, x1, y1, c),
{
    let p = choose|p: Seq<(int, int)>|
        path_ok(g1, p, c) && p.first() == (x0, y0) && p.last() == (x1, y1);
    assert forall|k: int| 0 <= k < p.len() implies in_bounds((#[trigger] p[k]).0, p[k].1) && g0[idx(
        p[k].0,
        p[k].1,
    )] == c by {
        lemma_idx_bounds(p[k].0, p[k].1);
        assert(g1[idx(p[k].0, p[k].1)] == c);
    }
    assert(path_ok(g0, p, c));
}

/// Erasures compose: two successive erasures of the color `c` amount to
/// one erasure of `c`.
proof fn lemma_only_blanked_trans(ga: Seq<Color>, gb: Seq<Color>, gc: Seq<Color>, c: Color)
    requires
        only_blanked(ga, gb, c),
        only_blanked(gb, gc, c),
    ensures
        only_blanked(ga, gc, c),
{
    assert forall|i: int| 0 <= i < ga.len() implies #[trigger] gc[i] == ga[i] || (ga[i] == c
        && gc[i] == Color::_BLANK) by {
        assert(gb[i] == ga[i] || (ga[i] == c && gb[i] == Color::_BLANK));
    }
}

/// An erasure of `c` leaves a cell that did not hold `c` untouched.
proof fn lemma_only_blanked_keeps(ga: Seq<Color>, gb: Seq<Color>, c: Color, i: int)
    requires
        only_blanked(ga, gb, c),
        0 <= i < ga.len(),
        ga[i] != c,
    ensures
        gb[i] == ga[i],
{
    assert(gb[i] == ga[i] || (ga[i] == c && gb[i] == Color::_BLANK));
}

/// Walking a matching-colored path away from a changed cell only meets
/// changed cells: a closed-off erasure that blanked the path's first cell
/// blanked its last cell too.
proof fn lemma_path_changed(g0: Seq<Color>, g1: Seq<Color>, p: Seq<(int, int)>, c: Color)
    requires
        c != Color::_BLANK,
        g0.len() == 25,
        only_blanked(g0, g1, c),
        region_closed(g0, g1, c),
        path_ok(g0, p, c),
        g1[idx(p.first().0, p.first().1)] != g0[idx(p.first().0, p.first().1)],
    ensures
        g1[idx(p.last().0, p.last().1)] != g0[idx(p.last().0, p.last().1)],
    decreases p.len(),
{
    if p.len() == 1 {
        assert(p.last() == p.first());
    } else {
        let q = p.drop_last();
        assert(q.first() == p.first());
        assert forall|k: int| 0 <= k < q.len() implies in_bounds((#[trigger] q[k]).0, q[k].1)
            && g0[idx(q[k].0, q[k].1)] == c by {
            assert(q[k] == p[k]);
        }
        assert forall|k: int| 0 <= k < q.len() - 1 implies adj(
            (#[trigger] q[k]).0,
            q[k].1,
            q[k + 1].0,
            q[k + 1].1,
        ) by {
            assert(q[k] == p[k] && q[k + 1] == p[k + 1]);
        }
        assert(path_ok(g0, q, c));
        lemma_path_changed(g0, g1, q, c);
        let a = q.last();
        let b = p.last();
        assert(a == p[p.len() - 2] && b == p[p.len() - 1]);
        assert(adj(a.0, a.1, b.0, b.1));
        assert(g1[idx(b.0, b.1)] != c);
        lemma_idx_bounds(b.0, b.1);
        assert(g1[idx(b.0, b.1)] == g0[idx(b.0, b.1)] || (g0[idx(b.0, b.1)] == c && g1[idx(
            b.0,
            b.1,
        )] == Color::_BLANK));
    }
}

/// Erasure is complete: on a board that an erasure of `c` starting at a
/// matching cell `(x, y)` left behind — the start blanked, nothing but
/// `c`-cells blanked, and no matching cell left bordering a blanked one,
/// exactly what `erase_connected` ensures — every cell that was
/// 4-connected to `(x, y)` through cells of color `c` is blank. Together
/// with `erased_cells_connected`, the erased cells are exactly the
/// connected region of the starting cell.
pub proof fn lemma_erase_erases_region(g0: Seq<Color>, g1: Seq<Color>, x: int, y: int, c: Color)
    requires
        c != Color::_BLANK,
        g0.len() == 25,
        in_bounds(x, y),
        g0[idx(x, y)] == c,
        g1[idx(x, y)] == Color::_BLANK,
        only_blanked(g0, g1, c),
        region_closed(g0, g1, c),
    ensures
        forall|x2: int, y2: int|
            #[trigger] connected(g0, x, y, x2, y2, c) ==> g1[idx(x2, y2)] == Color::_BLANK,
{
    assert forall|x2: int, y2: int| #[trigger] connected(g0, x, y, x2, y2, c) implies g1[idx(
        x2,
        y2,
    )] == Color::_BLANK by {
        let p = choose|p: Seq<(int, int)>|
            path_ok(g0, p, c) && p.first() == (x, y) && p.last() == (x2, y2);
        lemma_idx_bounds(x, y);
        lemma_path_changed(g0, g1, p, c);
        lemma_idx_bounds(x2, y2);
        assert(g1[idx(x2, y2)] == g0[idx(x2, y2)] || (g0[idx(x2, y2)] == c && g1[idx(x2, y2)]
            == Color::_BLANK));
    }
}

/// One recursive step of the erase: if every cell changed so far is
/// connected to the start `(x, y)`, and a nested erase from the neighbor
/// `(nx, ny)` touched only cells connected to that neighbor, then every
/// cell changed after the nested erase is still connected to `(x, y)`.
proof fn lemma_erase_step(
    g0: Seq<Color>,
    gpre: Seq<Color>,
    gpost: Seq<Color>,
    x: int,
    y: int,
    nx: int,
    ny: int,
    c: Color,
)
    requires
        c != Color::_BLANK,
        g0.len() == 25,
        in_bounds(x, y),
        g0[idx(x, y)] == c,
        adj(x, y, nx, ny),
        only_blanked(g0, gpre, c),
        erased_cells_connected(g0, gpre, x, y, c),
        erased_cells_connected(gpre, gpost, nx, ny, c),
    ensures
        erased_cells_connected(g0, gpost, x, y, c),
{
    assert forall|x2: int, y2: int|
        in_bounds(x2, y2) && #[trigger] gpost[idx(x2, y2)] != g0[idx(x2, y2)] implies connected(
        g0,
        x,
        y,
        x2,
        y2,
        c,
    ) by {
        lemma_idx_bounds(x2, y2);
        if gpre[idx(x2, y2)] != g0[idx(x2, y2)] {
            assert(connected(g0, x, y, x2, y2, c));
        } else {
            assert(gpost[idx(x2, y2)] != gpre[idx(x2, y2)]);
            assert(connected(gpre, nx, ny, x2, y2, c));
            lemma_connected_mono(g0, gpre, nx, ny, x2, y2, c);
            lemma_connected_prepend(g0, x, y, nx, ny, x2, y2, c);
        }
    }
}

impl BoardMatrix {
    /// Well-formedness: the flat buffer holds exactly the 25 cells.
    pub open spec fn wf(&self) -> bool {
        self@.len() == 25
    }

    /// Generate a new, blank board.
    pub fn blank() -> (b: Self)
        ensures
            b.wf(),
            forall|i: int| 0 <= i < 25 ==> b@[i] == Color::_BLANK,
    {
        let mut cells: Vec<Color> = Vec::new();
        let mut n: usize = 0;
        while n < 25
            invariant
                n <= 25,
                cells@.len() == n,
                forall|i: int| 0 <= i < n ==> cells@[i] == Color::_BLANK,
            decreases 25 - n,
        {
            cells.push(Color::blank());
            n = n + 1;
        }
        Self { cells }
    }

    /// Generate a new, randomly colorized board: every cell holds one of
    /// the six playable colors, never `_BLANK`.
    pub fn new() -> (b: Self)
        ensures
            b.wf(),
            forall|i: int| 0 <= i < 25 ==> b@[i] != Color::_BLANK,
    {
        let mut cells: Vec<Color> = Vec::new();
        let mut n: usize = 0;
        while n < 25
            invariant
                n <= 25,
                cells@.len() == n,
                forall|i: int| 0 <= i < n ==> cells@[i] != Color::_BLANK,
            decreases 25 - n,
        {
            cells.push(Color::random());
            n = n + 1;
        }
        Self { cells }
    }

    /// Check whether given `x|y` are within board bounds.
    pub fn is_out_of_bounds(x: usize, y: usize) -> (oob: bool)
        ensures
            oob == !in_bounds(x as int, y as int),
    {
        x >= 5 || y >= 5
    }

    /// Set `x|y` contents to `c`. Out-of-range coordinates are a caller
    /// error and are excluded by the precondition.
    pub fn set(&mut self, x: usize, y: usize, c: &Color)
        requires
            old(self).wf(),
            in_bounds(x as int, y as int),
        ensures
            final(self).wf(),
            final(self)@ == old(self)@.update(idx(x as int, y as int), *c),
    {
        self.cells[x * 5 + y] = *c;
    }

    /// Get what's at `x|y`. Out-of-range coordinates are a caller error
    /// and are excluded by the precondition.
    pub fn at(&self, x: usize, y: usize) -> (c: Color)
        requires
            self.wf(),
            in_bounds(x as int, y as int),
        ensures
            c == self@[idx(x as int, y as int)],
    {
        self.cells[x * 5 + y]
    }

    /// Erase `x|y` and all connected pieces that match `c`, overwriting
    /// them to `_BLANK`, and return the count of erased pieces. An
    /// out-of-range starting coordinate is silently a no-op that counts 0;
    /// the recursion deliberately probes one step past each edge and
    /// relies on that. Erasing with the `_BLANK` target is excluded: a
    /// blanked blank cell would still match and the walk would never end.
    pub fn erase_connected(&mut self, x: usize, y: usize, c: &Color) -> (erased: usize)
        requires
            old(self).wf(),
            *c != Color::_BLANK,
        ensures
            final(self).wf(),
            only_blanked(old(self)@, final(self)@, *c),
            erased + count_of(final(self)@, *c) == count_of(old(self)@, *c),
            !(in_bounds(x as int, y as int) && old(self)@[idx(x as int, y as int)] == *c)
                ==> final(self)@ == old(self)@ && erased == 0,
            in_bounds(x as int, y as int) && old(self)@[idx(x as int, y as int)] == *c
                ==> final(self)@[idx(x as int, y as int)] == Color::_BLANK && erased >= 1,
            erased_cells_connected(old(self)@, final(self)@, x as int, y as int, *c),
            region_closed(old(self)@, final(self)@, *c),
        decreases count_of(old(self)@, *c),
    {
        if Self::is_out_of_bounds(x, y) {
            return 0;
        }
        proof {
            lemma_idx_bounds(x as int, y as int);
        }
        let cur = self.at(x, y);
        if cur != *c {
            return 0;
        }

        let ghost g0 = self@;
        proof {
            lemma_count_of_le_len(g0, *c);
            lemma_connected_self(g0, x as int, y as int, *c);
        }
        self.set(x, y, &Color::_BLANK);
        let ghost g1 = self@;
        proof {
            lemma_count_of_update(g0, idx(x as int, y as int), Color::_BLANK, *c);
            assert(only_blanked(g0, g1, *c));
            assert forall|x2: int, y2: int|
                in_bounds(x2, y2) && #[trigger] g1[idx(x2, y2)] != g0[idx(x2, y2)] implies connected(
                g0,
                x as int,
                y as int,
                x2,
                y2,
                *c,
            ) by {
                lemma_idx_bounds(x as int, y as int);
            }
        }
        let mut erased: usize = 1;

        if x > 0 {
            let e = self.erase_connected(x - 1, y, c);
            proof {
                lemma_erase_step(
                    g0,
                    g1,
                    self@,
                    x as int,
                    y as int,
                    x as int - 1,
                    y as int,
                    *c,
                );
            }
            erased = erased + e;
        }
        let ghost g2 = self@;
        proof {
            assert(g2[idx(x as int - 1, y as int)] != *c || x == 0);
        }

        if y > 0 {
            let e = self.erase_connected(x, y - 1, c);
            proof {
                lemma_erase_step(
                    g0,
                    g2,
                    self@,
                    x as int,
                    y as int,
                    x as int,
                    y as int - 1,
                    *c,
                );
            }
            erased = erased + e;
        }
        let ghost g3 = self@;
        proof {
            assert(g3[idx(x as int, y as int - 1)] != *c || y == 0);
        }

        let e = self.erase_connected(x + 1, y, c);
        proof {
            lemma_erase_step(g0, g3, self@, x as int, y as int, x as int + 1, y as int, *c);
        }
        erased = erased + e;
        let ghost g4 = self@;
        proof {
            assert(!in_bounds(x as int + 1, y as int) || g4[idx(x as int + 1, y as int)] != *c);
        }

        let e = self.erase_connected(x, y + 1, c);
        proof {
            lemma_erase_step(g0, g4, self@, x as int, y as int, x as int, y as int + 1, *c);
        }
        erased = erased + e;
        let ghost g5 = self@;
        proof {
            assert(!in_bounds(x as int, y as int + 1) || g5[idx(x as int, y as int + 1)] != *c);

            lemma_only_blanked_trans(g3, g4, g5, *c);
            lemma_only_blanked_trans(g2, g3, g5, *c);
            lemma_only_blanked_trans(g1, g2, g5, *c);
            lemma_only_blanked_trans(g0, g1, g5, *c);

            assert(g5[idx(x as int, y as int)] == Color::_BLANK) by {
                lemma_only_blanked_keeps(g1, g5, *c, idx(x as int, y as int));
            }

            assert forall|x1: int, y1: int, x2: int, y2: int|
                in_bounds(x1, y1) && in_bounds(x2, y2) && #[trigger] adj(x1, y1, x2, y2) && g5[idx(
                    x1,
                    y1,
                )] != g0[idx(x1, y1)] implies g5[idx(x2, y2)] != *c by {
                lemma_idx_bounds(x1, y1);
                lemma_idx_bounds(x2, y2);
                lemma_idx_bounds(x as int, y as int);
                if g1[idx(x1, y1)] != g0[idx(x1, y1)] {
                    // the starting cell itself was blanked first
                    assert(x1 == x as int && y1 == y as int);
                    if x2 == x as int - 1 && y2 == y as int {
                        lemma_only_blanked_keeps(g2, g5, *c, idx(x2, y2));
                    } else if x2 == x as int && y2 == y as int - 1 {
                        lemma_only_blanked_keeps(g3, g5, *c, idx(x2, y2));
                    } else if x2 == x as int + 1 && y2 == y as int {
                        lemma_only_blanked_keeps(g4, g5, *c, idx(x2, y2));
                    } else {
                        assert(x2 == x as int && y2 == y as int + 1);
                    }
                } else if g2[idx(x1, y1)] != g1[idx(x1, y1)] {
                    assert(g2[idx(x2, y2)] != *c);
                    lemma_only_blanked_keeps(g2, g5, *c, idx(x2, y2));
                } else if g3[idx(x1, y1)] != g2[idx(x1, y1)] {
                    assert(g3[idx(x2, y2)] != *c);
                    lemma_only_blanked_keeps(g3, g5, *c, idx(x2, y2));
                } else if g4[idx(x1, y1)] != g3[idx(x1, y1)] {
                    assert(g4[idx(x2, y2)] != *c);
                    lemma_only_blanked_keeps(g4, g5, *c, idx(x2, y2));
                } else {
                    assert(g5[idx(x1, y1)] != g4[idx(x1, y1)]);
                    assert(g5[idx(x2, y2)] != *c);
                }
            }
        }
        erased
    }

    /// ASCII-print the matrix: a bordered character grid, one glyph per
    /// cell, exactly as `render_chars` lays it out.
    pub fn render(&self) -> (s: String)
        requires
            self.wf(),
        ensures
            s@ == render_chars(self@),
    {
        let ghost g = self@;
        let mut s = String::new();
        s.append("+-----+\n");
        proof {
            reveal_strlit("+-----+\n");
            assert(s@ =~= border_chars() + rows_up_to(g, 0));
        }
        let mut x: usize = 0;
        while x < 5
            invariant
                self.wf(),
                self@ == g,
                x <= 5,
                s@ == border_chars() + rows_up_to(g, x as int),
            decreases 5 - x,
        {
            s.append("|");
            proof {
                reveal_strlit("|");
                assert(s@ =~= border_chars() + rows_up_to(g, x as int) + cols_up_to(
                    g,
                    x as int,
                    0,
                ));
            }
            let mut y: usize = 0;
            while y < 5
                invariant
                    self.wf(),
                    self@ == g,
                    x < 5,
                    y <= 5,
                    s@ == border_chars() + rows_up_to(g, x as int) + cols_up_to(
                        g,
                        x as int,
                        y as int,
                    ),
                decreases 5 - y,
            {
                let glyph = self.at(x, y).glyph();
                s.append(glyph);
                proof {
                    assert(s@ =~= border_chars() + rows_up_to(g, x as int) + cols_up_to(
                        g,
                        x as int,
                        y as int + 1,
                    ));
                }
                y = y + 1;
            }
            s.append("|\n");
            proof {
                reveal_strlit("|\n");
                let xi = x as int;
                assert(cols_up_to(g, xi, 1) =~= seq!['|', glyph_char(g[idx(xi, 0)])]);
                assert(cols_up_to(g, xi, 2) =~= seq![
                    '|',
                    glyph_char(g[idx(xi, 0)]),
                    glyph_char(g[idx(xi, 1)]),
                ]);
                assert(cols_up_to(g, xi, 3) =~= seq![
                    '|',
                    glyph_char(g[idx(xi, 0)]),
                    glyph_char(g[idx(xi, 1)]),
                    glyph_char(g[idx(xi, 2)]),
                ]);
                assert(cols_up_to(g, xi, 4) =~= seq![
                    '|',
                    glyph_char(g[idx(xi, 0)]),
                    glyph_char(g[idx(xi, 1)]),
                    glyph_char(g[idx(xi, 2)]),
                    glyph_char(g[idx(xi, 3)]),
                ]);
                assert(cols_up_to(g, xi, 5) + "|\n"@ =~= row_chars(g, xi));
                assert(s@ =~= border_chars() + rows_up_to(g, xi + 1));
            }
            x = x + 1;
        }
        s.append("+-----+\n");
        proof {
            reveal_strlit("+-----+\n");
            assert(rows_up_to(g, 1) =~= row_chars(g, 0));
            assert(rows_up_to(g, 2) =~= row_chars(g, 0) + row_chars(g, 1));
            assert(rows_up_to(g, 3) =~= row_chars(g, 0) + row_chars(g, 1) + row_chars(g, 2));
            assert(rows_up_to(g, 4) =~= row_chars(g, 0) + row_chars(g, 1) + row_chars(g, 2)
                + row_chars(g, 3));
            assert(rows_up_to(g, 5) =~= row_chars(g, 0) + row_chars(g, 1) + row_chars(g, 2)
                + row_chars(g, 3) + row_chars(g, 4));
            assert(s@ =~= render_chars(g));
        }
        s
    }
}

/// Setting a cell and reading back: after `set(x, y, c)` the cell `(x, y)`
/// reads back exactly `c`, and every other cell is unmodified. Stated over
/// the board model that `set` and `at` are specified with.
pub proof fn lemma_set_then_at(g: Seq<Color>, x: int, y: int, c: Color)
    requires
        g.len() == 25,
        in_bounds(x, y),
    ensures
        g.update(idx(x, y), c)[idx(x, y)] == c,
        forall|x2: int, y2: int|
            in_bounds(x2, y2) && (x2 != x || y2 != y) ==> g.update(idx(x, y), c)[idx(x2, y2)]
                == g[idx(x2, y2)],
{
    assert forall|x2: int, y2: int|
        in_bounds(x2, y2) && (x2 != x || y2 != y) implies g.update(idx(x, y), c)[idx(x2, y2)]
        == g[idx(x2, y2)] by {
        assert(idx(x2, y2) != idx(x, y)) by (nonlinear_arith)
            requires
                in_bounds(x, y),
                in_bounds(x2, y2),
                x2 != x || y2 != y,
        ;
    }
}

} // verus!
