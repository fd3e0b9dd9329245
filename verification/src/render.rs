//! The binning and rendering engine: an occupancy grid over two coordinate
//! streams, occupancy counts mapped onto a shaded glyph palette, and the
//! composition of the final text lines with centered labels.

use vstd::prelude::*;
use vstd::arithmetic::div_mod::{
    lemma_div_is_ordered, lemma_div_multiples_vanish, lemma_div_pos_is_pos,
};

use crate::attrs::{AttrsModel, XvgError};
use crate::data::Data;
use crate::text::{center, center_spec, lemma_counts_deep_view, truncate, truncate_spec};

verus! {

/// How occupancy counts are drawn.
#[derive(Debug, Clone, Copy, PartialEq, Eq, Structural)]
pub enum DrawingStyle {
    /// Draw using simple ASCII characters.
    Ascii,
    /// Draw using four box-drawing characters of varying shade.
    Block,
}

/// The nine-level ASCII shade ramp, sparse to dense.
pub open spec fn ascii_palette() -> Seq<char> {
    seq!['.', ':', '-', '=', '+', '*', '#', '%', '@']
}

/// The four-level block shade ramp, sparse to dense.
pub open spec fn block_palette() -> Seq<char> {
    seq!['░', '▒', '▓', '█']
}

/// The shade ramp of a drawing style.
pub open spec fn palette_of(style: DrawingStyle) -> Seq<char> {
    match style {
        DrawingStyle::Ascii => ascii_palette(),
        DrawingStyle::Block => block_palette(),
    }
}

/// The palette slot for an occupancy `v` within the occupied range
/// `[lo, hi]`, over a palette of `plen` glyphs: a linear map of `v - lo` onto
/// `0 ..= plen - 1`, with the divisor clamped to one when the range is empty.
pub open spec fn bin_index(plen: int, hi: int, lo: int, v: int) -> int {
    (plen - 1) * (v - lo) / (if hi - lo >= 1 {
        hi - lo
    } else {
        1
    })
}

/// The glyph for an occupancy count: a space for an empty cell, else the
/// palette glyph at the count's slot.
pub open spec fn glyph_spec(style: DrawingStyle, hi: int, lo: int, v: int) -> char {
    if v > 0 {
        palette_of(style)[bin_index(palette_of(style).len() as int, hi, lo, v)]
    } else {
        ' '
    }
}

/// The palette slot of an occupancy within the range is a palette index.
pub proof fn lemma_bin_index_range(plen: int, hi: int, lo: int, v: int)
    requires
        plen >= 1,
        lo <= v <= hi,
    ensures
        0 <= bin_index(plen, hi, lo, v) < plen,
{
    let d = if hi - lo >= 1 {
        hi - lo
    } else {
        1
    };
    let num = (plen - 1) * (v - lo);
    assert(num >= 0 && num <= (plen - 1) * d && (plen - 1) * d == d * (plen - 1))
        by (nonlinear_arith)
        requires
            num == (plen - 1) * (v - lo),
            d == (if hi - lo >= 1 {
                hi - lo
            } else {
                1
            }),
            plen >= 1,
            lo <= v <= hi,
    ;
    lemma_div_pos_is_pos(num, d);
    lemma_div_is_ordered(num, (plen - 1) * d, d);
    lemma_div_multiples_vanish(plen - 1, d);
}

/// Binning is monotonic: for a fixed range and palette size, a greater
/// occupancy never selects an earlier palette slot.
pub proof fn lemma_bin_index_monotonic(plen: int, hi: int, lo: int, v1: int, v2: int)
    requires
        plen >= 1,
        lo <= v1 <= v2,
    ensures
        bin_index(plen, hi, lo, v1) <= bin_index(plen, hi, lo, v2),
{
    let d = if hi - lo >= 1 {
        hi - lo
    } else {
        1
    };
    assert((plen - 1) * (v1 - lo) <= (plen - 1) * (v2 - lo)) by (nonlinear_arith)
        requires
            plen >= 1,
            v1 <= v2,
    ;
    lemma_div_is_ordered((plen - 1) * (v1 - lo), (plen - 1) * (v2 - lo), d);
}

impl Default for DrawingStyle {
    /// The block shade ramp is the default style.
    fn default() -> (r: Self)
        ensures
            r == DrawingStyle::Block,
    {
        DrawingStyle::Block
    }
}

pub open spec fn kw_ascii() -> Seq<char> {
    seq!['a', 's', 'c', 'i', 'i']
}

pub open spec fn kw_block() -> Seq<char> {
    seq!['b', 'l', 'o', 'c', 'k']
}

impl DrawingStyle {
    /// Select a drawing style by its name, `ascii` or `block`.
    pub fn try_from_name(name: &Vec<char>) -> (r: Result<DrawingStyle, XvgError>)
        ensures
            match r {
                Ok(s) => (name@ == kw_ascii() && s == DrawingStyle::Ascii) || (name@ == kw_block()
                    && s == DrawingStyle::Block),
                Err(e) => name@ != kw_ascii() && name@ != kw_block() && e
                    == XvgError::UnknownStyle,
            },
    {
        let is_ascii = name.len() == 5 && name[0] == 'a' && name[1] == 's' && name[2] == 'c'
            && name[3] == 'i' && name[4] == 'i';
        proof {
            if is_ascii {
                assert(name@ =~= kw_ascii());
            }
        }
        if is_ascii {
            return Ok(DrawingStyle::Ascii);
        }
        let is_block = name.len() == 5 && name[0] == 'b' && name[1] == 'l' && name[2] == 'o'
            && name[3] == 'c' && name[4] == 'k';
        proof {
            if is_block {
                assert(name@ =~= kw_block());
            }
        }
        if is_block {
            return Ok(DrawingStyle::Block);
        }
        Err(XvgError::UnknownStyle)
    }

    /// The glyph for an occupancy count `v`, where `hi` is the grid's highest
    /// occupancy and `lo` its lowest occupancy among occupied cells: a space
    /// for an empty cell, else the shade at the count's palette slot.
    pub fn draw(&self, hi: usize, lo: usize, v: usize) -> (c: char)
        requires
            lo <= hi,
            v <= hi,
            v > 0 ==> lo <= v,
            hi - lo <= usize::MAX / 8,
        ensures
            c == glyph_spec(*self, hi as int, lo as int, v as int),
    {
        if v == 0 {
            return ' ';
        }
        let diff = v - lo;
        let denom = if hi - lo >= 1 {
            hi - lo
        } else {
            1
        };
        match self {
            DrawingStyle::Ascii => {
                let idx = 8 * diff / denom;
                proof {
                    lemma_bin_index_range(9, hi as int, lo as int, v as int);
                    assert(idx == bin_index(9, hi as int, lo as int, v as int));
                }
                let c = if idx == 0 {
                    '.'
                } else if idx == 1 {
                    ':'
                } else if idx == 2 {
                    '-'
                } else if idx == 3 {
                    '='
                } else if idx == 4 {
                    '+'
                } else if idx == 5 {
                    '*'
                } else if idx == 6 {
                    '#'
                } else if idx == 7 {
                    '%'
                } else {
                    '@'
                };
                assert(c == ascii_palette()[idx as int]);
                c
            },
            DrawingStyle::Block => {
                let idx = 3 * diff / denom;
                proof {
                    lemma_bin_index_range(4, hi as int, lo as int, v as int);
                    assert(idx == bin_index(4, hi as int, lo as int, v as int));
                }
                let c = if idx == 0 {
                    '░'
                } else if idx == 1 {
                    '▒'
                } else if idx == 2 {
                    '▓'
                } else {
                    '█'
                };
                assert(c == block_palette()[idx as int]);
                c
            },
        }
    }
}


broadcast use lemma_counts_deep_view;

/// How many of the points fall on the cell `(y, x)`.
pub open spec fn count_of(pts: Seq<(usize, usize)>, y: int, x: int) -> nat
    decreases pts.len(),
{
    if pts.len() == 0 {
        0
    } else {
        count_of(pts.drop_last(), y, x) + if pts.last().0 == y && pts.last().1 == x {
            1nat
        } else {
            0nat
        }
    }
}

/// A cell never holds more points than there are.
pub proof fn lemma_count_le_len(pts: Seq<(usize, usize)>, y: int, x: int)
    ensures
        count_of(pts, y, x) <= pts.len(),
    decreases pts.len(),
{
    if pts.len() > 0 {
        lemma_count_le_len(pts.drop_last(), y, x);
    }
}

/// Fill an occupancy grid of `gh` rows and `gw` columns: each cell counts the
/// points that fall on it.
pub fn populate_grid(pts: &Vec<(usize, usize)>, gw: usize, gh: usize) -> (grid: Vec<Vec<usize>>)
    requires
        forall|i: int| 0 <= i < pts@.len() ==> (#[trigger] pts@[i]).0 < gh && pts@[i].1 < gw,
    ensures
        grid.deep_view().len() == gh,
        forall|y: int| 0 <= y < gh ==> (#[trigger] grid.deep_view()[y]).len() == gw,
        forall|y: int, x: int|
            0 <= y < gh && 0 <= x < gw ==> grid.deep_view()[y][x] == count_of(pts@, y, x),
{
    let mut grid: Vec<Vec<usize>> = Vec::new();
    let mut y: usize = 0;
    while y < gh
        invariant
            y <= gh,
            grid.deep_view().len() == y,
            forall|j: int| 0 <= j < y ==> (#[trigger] grid.deep_view()[j]).len() == gw,
            forall|j: int, x: int| 0 <= j < y && 0 <= x < gw ==> grid.deep_view()[j][x] == 0,
        decreases gh - y,
    {
        let mut row: Vec<usize> = Vec::new();
        let mut x: usize = 0;
        while x < gw
            invariant
                x <= gw,
                row@.len() == x,
                forall|k: int| 0 <= k < x ==> row@[k] == 0,
            decreases gw - x,
        {
            row.push(0);
            x += 1;
        }
        let ghost old_dv = grid.deep_view();
        grid.push(row);
        proof {
            assert(grid.deep_view() =~~= old_dv.push(row@));
        }
        y += 1;
    }
    let mut i: usize = 0;
    proof {
        assert(pts@.take(0) =~= Seq::<(usize, usize)>::empty());
    }
    while i < pts.len()
        invariant
            i <= pts@.len(),
            forall|t: int| 0 <= t < pts@.len() ==> (#[trigger] pts@[t]).0 < gh && pts@[t].1 < gw,
            grid.deep_view().len() == gh,
            forall|j: int| 0 <= j < gh ==> (#[trigger] grid.deep_view()[j]).len() == gw,
            forall|yy: int, xx: int|
                0 <= yy < gh && 0 <= xx < gw ==> grid.deep_view()[yy][xx] == count_of(
                    pts@.take(i as int),
                    yy,
                    xx,
                ),
        decreases pts@.len() - i,
    {
        let ghost pre = pts@.take(i as int);
        let ghost old_dv = grid.deep_view();
        proof {
            assert(pts@.take(i + 1).drop_last() =~= pre);
            assert(pts@.take(i + 1).last() == pts@[i as int]);
        }
        let p = pts[i];
        let py = p.0;
        let px = p.1;
        proof {
            lemma_count_le_len(pre, py as int, px as int);
            assert(old_dv[py as int][px as int] == count_of(pre, py as int, px as int));
        }
        let ghost old_g = grid@;
        let cur = grid[py][px];
        let row = &mut grid[py];
        row[px] = cur + 1;
        proof {
            assert(grid@ == old_g.update(py as int, grid@[py as int]));
            assert(grid@[py as int]@ == old_g[py as int]@.update(px as int, (cur + 1) as usize));
            assert forall|yy: int| 0 <= yy < gh implies (#[trigger] grid.deep_view()[yy]).len()
                == gw by {
                assert(grid.deep_view()[yy] == grid@[yy]@);
                if yy != py as int {
                    assert(grid@[yy] == old_g[yy]);
                    assert(old_dv[yy] == old_g[yy]@);
                }
            }
            assert forall|yy: int, xx: int| 0 <= yy < gh && 0 <= xx < gw implies grid.deep_view()[yy][xx]
                == count_of(pts@.take(i + 1), yy, xx) by {
                assert(pts@.take(i + 1).drop_last() =~= pts@.take(i as int));
                assert(pts@.take(i + 1).last() == pts@[i as int]);
                assert(count_of(pts@.take(i + 1), yy, xx) == count_of(pts@.take(i as int), yy, xx)
                    + if pts@[i as int].0 == yy && pts@[i as int].1 == xx {
                    1nat
                } else {
                    0nat
                });
                assert(old_dv[yy][xx] == count_of(pts@.take(i as int), yy, xx));
                assert(grid.deep_view()[yy] == grid@[yy]@);
                assert(old_dv[yy] == old_g[yy]@);
                if yy == py as int && xx == px as int {
                    assert(grid@[yy]@[xx] == cur + 1);
                } else {
                    if yy == py as int {
                        assert(grid@[yy]@[xx] == old_g[yy]@[xx]);
                    } else {
                        assert(grid@[yy] == old_g[yy]);
                    }
                    assert(grid.deep_view()[yy][xx] == old_dv[yy][xx]);
                }
            }
        }
        i += 1;
    }
    proof {
        assert(pts@.take(pts@.len() as int) =~= pts@);
    }
    grid
}

/// `hi` is the greatest occupancy anywhere on a `gh` by `gw` grid of the
/// points.
pub open spec fn is_hi_count(pts: Seq<(usize, usize)>, gw: int, gh: int, hi: nat) -> bool {
    &&& forall|y: int, x: int|
        0 <= y < gh && 0 <= x < gw ==> #[trigger] count_of(pts, y, x) <= hi
    &&& exists|y: int, x: int|
        0 <= y < gh && 0 <= x < gw && #[trigger] count_of(pts, y, x) == hi
}

/// `lo` is the least occupancy among the occupied cells of the grid, or `hi`
/// itself when no cell is occupied.
pub open spec fn is_lo_count(pts: Seq<(usize, usize)>, gw: int, gh: int, hi: nat, lo: nat) -> bool {
    &&& forall|y: int, x: int|
        0 <= y < gh && 0 <= x < gw && #[trigger] count_of(pts, y, x) > 0 ==> lo <= count_of(
            pts,
            y,
            x,
        )
    &&& {
        ||| exists|y: int, x: int|
            0 <= y < gh && 0 <= x < gw && #[trigger] count_of(pts, y, x) == lo && lo > 0
        ||| (lo == hi && forall|y: int, x: int|
            0 <= y < gh && 0 <= x < gw ==> #[trigger] count_of(pts, y, x) == 0)
    }
}

/// The occupancy bounds are unique: two pairs that both satisfy
/// [`is_hi_count`] and [`is_lo_count`] for the same points and grid are the
/// same pair. The characterization in [`graph`]'s contract therefore pins the
/// shading of every cell.
pub proof fn lemma_bounds_unique(
    pts: Seq<(usize, usize)>,
    gw: int,
    gh: int,
    hi1: nat,
    lo1: nat,
    hi2: nat,
    lo2: nat,
)
    requires
        is_hi_count(pts, gw, gh, hi1),
        is_lo_count(pts, gw, gh, hi1, lo1),
        is_hi_count(pts, gw, gh, hi2),
        is_lo_count(pts, gw, gh, hi2, lo2),
    ensures
        hi1 == hi2,
        lo1 == lo2,
{
    let (y1, x1) = choose|y: int, x: int|
        0 <= y < gh && 0 <= x < gw && #[trigger] count_of(pts, y, x) == hi1;
    let (y2, x2) = choose|y: int, x: int|
        0 <= y < gh && 0 <= x < gw && #[trigger] count_of(pts, y, x) == hi2;
    assert(hi1 <= hi2 && hi2 <= hi1);
    if exists|y: int, x: int|
        0 <= y < gh && 0 <= x < gw && #[trigger] count_of(pts, y, x) == lo1 && lo1 > 0 {
        let (ya, xa) = choose|y: int, x: int|
            0 <= y < gh && 0 <= x < gw && #[trigger] count_of(pts, y, x) == lo1 && lo1 > 0;
        assert(lo2 <= count_of(pts, ya, xa));
        if exists|y: int, x: int|
            0 <= y < gh && 0 <= x < gw && #[trigger] count_of(pts, y, x) == lo2 && lo2 > 0 {
            let (yb, xb) = choose|y: int, x: int|
                0 <= y < gh && 0 <= x < gw && #[trigger] count_of(pts, y, x) == lo2 && lo2 > 0;
            assert(lo1 <= count_of(pts, yb, xb));
        } else {
            assert(count_of(pts, ya, xa) == 0);
        }
    } else {
        assert(forall|y: int, x: int|
            0 <= y < gh && 0 <= x < gw ==> #[trigger] count_of(pts, y, x) == 0);
        assert(lo1 == hi1);
        if exists|y: int, x: int|
            0 <= y < gh && 0 <= x < gw && #[trigger] count_of(pts, y, x) == lo2 && lo2 > 0 {
            let (yb, xb) = choose|y: int, x: int|
                0 <= y < gh && 0 <= x < gw && #[trigger] count_of(pts, y, x) == lo2 && lo2 > 0;
            assert(count_of(pts, yb, xb) == 0);
        } else {
            assert(lo2 == hi2);
        }
    }
}

/// Scan the occupancy grid for its highest count and its lowest count among
/// occupied cells (falling back to the highest when nothing is occupied).
fn grid_bounds(
    grid: &Vec<Vec<usize>>,
    Ghost(pts): Ghost<Seq<(usize, usize)>>,
    gw: usize,
    gh: usize,
) -> (r: (usize, usize))
    requires
        gw > 0,
        gh > 0,
        grid.deep_view().len() == gh,
        forall|y: int| 0 <= y < gh ==> (#[trigger] grid.deep_view()[y]).len() == gw,
        forall|y: int, x: int|
            0 <= y < gh && 0 <= x < gw ==> grid.deep_view()[y][x] == count_of(pts, y, x),
    ensures
        is_hi_count(pts, gw as int, gh as int, r.0 as nat),
        is_lo_count(pts, gw as int, gh as int, r.0 as nat, r.1 as nat),
        r.1 <= r.0,
{
    let ghost g = grid.deep_view();
    let mut hi: usize = 0;
    let mut lo_opt: Option<usize> = None;
    let mut y: usize = 0;
    while y < gh
        invariant
            y <= gh,
            grid.deep_view() == g,
            g.len() == gh,
            forall|j: int| 0 <= j < gh ==> (#[trigger] g[j]).len() == gw,
            forall|yy: int, xx: int|
                0 <= yy < gh && 0 <= xx < gw ==> g[yy][xx] == count_of(pts, yy, xx),
            forall|yy: int, xx: int|
                0 <= yy < y && 0 <= xx < gw ==> #[trigger] count_of(pts, yy, xx) <= hi,
            hi == 0 || exists|yy: int, xx: int|
                0 <= yy < y && 0 <= xx < gw && #[trigger] count_of(pts, yy, xx) == hi,
            match lo_opt {
                None => forall|yy: int, xx: int|
                    0 <= yy < y && 0 <= xx < gw ==> #[trigger] count_of(pts, yy, xx) == 0,
                Some(l) => {
                    &&& l > 0
                    &&& exists|yy: int, xx: int|
                        0 <= yy < y && 0 <= xx < gw && #[trigger] count_of(pts, yy, xx) == l
                    &&& forall|yy: int, xx: int|
                        0 <= yy < y && 0 <= xx < gw && #[trigger] count_of(pts, yy, xx) > 0
                            ==> l <= count_of(pts, yy, xx)
                },
            },
            lo_opt matches Some(l) ==> l <= hi,
        decreases gh - y,
    {
        let rowr = &grid[y];
        let mut x: usize = 0;
        while x < gw
            invariant
                x <= gw,
                y < gh,
                grid.deep_view() == g,
                g.len() == gh,
                rowr@ == g[y as int],
                forall|j: int| 0 <= j < gh ==> (#[trigger] g[j]).len() == gw,
                forall|yy: int, xx: int|
                    0 <= yy < gh && 0 <= xx < gw ==> g[yy][xx] == count_of(pts, yy, xx),
                forall|yy: int, xx: int|
                    (0 <= yy < y && 0 <= xx < gw) || (yy == y && 0 <= xx < x) ==> #[trigger] count_of(
                        pts,
                        yy,
                        xx,
                    ) <= hi,
                hi == 0 || exists|yy: int, xx: int|
                    ((0 <= yy < y && 0 <= xx < gw) || (yy == y && 0 <= xx < x))
                        && #[trigger] count_of(pts, yy, xx) == hi,
                match lo_opt {
                    None => forall|yy: int, xx: int|
                        (0 <= yy < y && 0 <= xx < gw) || (yy == y && 0 <= xx < x)
                            ==> #[trigger] count_of(pts, yy, xx) == 0,
                    Some(l) => {
                        &&& l > 0
                        &&& exists|yy: int, xx: int|
                            ((0 <= yy < y && 0 <= xx < gw) || (yy == y && 0 <= xx < x))
                                && #[trigger] count_of(pts, yy, xx) == l
                        &&& forall|yy: int, xx: int|
                            ((0 <= yy < y && 0 <= xx < gw) || (yy == y && 0 <= xx < x))
                                && #[trigger] count_of(pts, yy, xx) > 0 ==> l <= count_of(
                                pts,
                                yy,
                                xx,
                            )
                    },
                },
                lo_opt matches Some(l) ==> l <= hi,
            decreases gw - x,
        {
            let c = rowr[x];
            assert(c == count_of(pts, y as int, x as int));
            if c > hi {
                hi = c;
            }
            if c > 0 {
                lo_opt = match lo_opt {
                    None => Some(c),
                    Some(l) => if c < l {
                        Some(c)
                    } else {
                        Some(l)
                    },
                };
            }
            x += 1;
        }
        y += 1;
    }
    let lo = match lo_opt {
        None => hi,
        Some(l) => l,
    };
    proof {
        if hi == 0 {
            assert(count_of(pts, 0, 0) == 0);
        }
        if lo_opt is None {
            assert(count_of(pts, 0, 0) == 0);
            assert(hi == 0);
        }
    }
    (hi, lo)
}

/// Pair two sample streams, stopping at the shorter one's end.
pub fn zip_pairs(xs: &Vec<u32>, ys: &Vec<u32>) -> (r: Vec<(u32, u32)>)
    ensures
        r@.len() == if xs@.len() <= ys@.len() {
            xs@.len()
        } else {
            ys@.len()
        },
        forall|i: int| 0 <= i < r@.len() ==> r@[i] == (xs@[i], ys@[i]),
{
    let n = if xs.len() <= ys.len() {
        xs.len()
    } else {
        ys.len()
    };
    let mut out: Vec<(u32, u32)> = Vec::new();
    let mut i: usize = 0;
    while i < n
        invariant
            i <= n,
            n <= xs@.len(),
            n <= ys@.len(),
            out@.len() == i,
            forall|j: int| 0 <= j < i ==> out@[j] == (xs@[j], ys@[j]),
        decreases n - i,
    {
        out.push((xs[i], ys[i]));
        i += 1;
    }
    out
}


/// One rendered grid row: the glyph of each cell's occupancy, rightmost cell
/// first — the horizontal mirroring that matches the x-axis orientation of
/// the populated grid.
pub open spec fn row_glyphs(
    style: DrawingStyle,
    hi: int,
    lo: int,
    pts: Seq<(usize, usize)>,
    gw: int,
    y: int,
) -> Seq<char> {
    Seq::new(
        if gw >= 0 {
            gw as nat
        } else {
            0
        },
        |x: int| glyph_spec(style, hi, lo, count_of(pts, y, gw - 1 - x) as int),
    )
}

/// A label's line: the label truncated and centered to width `w`; no line at
/// all when the label is absent.
pub open spec fn opt_label_line(l: Option<Seq<char>>, w: int) -> Seq<Seq<char>> {
    match l {
        Some(t) => seq![center_spec(truncate_spec(t, w), w)],
        None => Seq::empty(),
    }
}

/// The y-axis gutter: the y-axis label (or nothing) truncated and centered to
/// the graph height, one character per grid row.
pub open spec fn ylab_spec(attrs: AttrsModel, gh: int) -> Seq<char> {
    center_spec(
        match attrs.yaxis {
            Some(l) => truncate_spec(l, gh),
            None => Seq::empty(),
        },
        gh,
    )
}

/// The grid's text: one line per grid row — a character of the y-axis gutter,
/// a space, and the row's glyphs.
pub open spec fn grid_body(
    style: DrawingStyle,
    hi: int,
    lo: int,
    pts: Seq<(usize, usize)>,
    gw: int,
    gh: int,
    ylab: Seq<char>,
) -> Seq<Seq<char>> {
    Seq::new(
        if gh >= 0 {
            gh as nat
        } else {
            0
        },
        |y: int| seq![ylab[y], ' '] + row_glyphs(style, hi, lo, pts, gw, y),
    )
}

/// The graph's full text: an optional centered title line and subtitle line
/// (full width), the grid's lines, and an optional centered x-axis label line
/// (grid width).
pub open spec fn graph_lines_spec(
    attrs: AttrsModel,
    style: DrawingStyle,
    width: int,
    height: int,
    pts: Seq<(usize, usize)>,
    hi: int,
    lo: int,
) -> Seq<Seq<char>> {
    opt_label_line(attrs.title, width) + opt_label_line(attrs.subtitle, width) + grid_body(
        style,
        hi,
        lo,
        pts,
        width - 2,
        height - 3,
        ylab_spec(attrs, height - 3),
    ) + opt_label_line(attrs.xaxis, width - 2)
}

/// Render the graph of a dataset. Two character columns are reserved for the
/// y-axis gutter and three lines for the title, subtitle and x-axis label, so
/// the points — the dataset's first two columns, already mapped onto grid
/// cells by the caller — are binned into a `height - 3` by `width - 2`
/// occupancy grid. Each cell is shaded by its count within the occupied
/// range, rows are mirrored horizontally, and the grid is framed by the
/// dataset's centered labels.
pub fn graph(
    data: &Data,
    style: DrawingStyle,
    width: usize,
    height: usize,
    pts: &Vec<(usize, usize)>,
) -> (r: Vec<Vec<char>>)
    requires
        width > 2,
        height > 3,
        forall|i: int|
            0 <= i < pts@.len() ==> (#[trigger] pts@[i]).0 < height - 3 && pts@[i].1 < width - 2,
        pts@.len() <= usize::MAX / 8,
    ensures
        exists|hi: nat, lo: nat|
            #![auto]
            {
                &&& is_hi_count(pts@, width - 2, height - 3, hi)
                &&& is_lo_count(pts@, width - 2, height - 3, hi, lo)
                &&& r.deep_view() == graph_lines_spec(
                    data.attributes.model(),
                    style,
                    width as int,
                    height as int,
                    pts@,
                    hi as int,
                    lo as int,
                )
            },
{
    let ghost m = data.attributes.model();
    let gw = width - 2;
    let gh = height - 3;
    let grid = populate_grid(pts, gw, gh);
    let b = grid_bounds(&grid, Ghost(pts@), gw, gh);
    let hi = b.0;
    let lo = b.1;
    proof {
        let (wy, wx) = choose|wy: int, wx: int|
            0 <= wy < gh && 0 <= wx < gw && #[trigger] count_of(pts@, wy, wx) == hi;
        lemma_count_le_len(pts@, wy, wx);
        assert(hi <= pts@.len());
    }
    // The y-axis gutter, one character per grid row.
    let ylabel_src = match &data.attributes.yaxis {
        Some(a) => truncate(&a.label, gh),
        None => Vec::new(),
    };
    let ylab = center(&ylabel_src, gh);
    assert(ylab@ == ylab_spec(m, gh as int));
    assert(ylab@.len() == gh);
    let mut out: Vec<Vec<char>> = Vec::new();
    // The centered title and subtitle lines.
    match &data.attributes.title {
        Some(t) => {
            let ghost old_dv = out.deep_view();
            out.push(center(&truncate(t, width), width));
            proof {
                assert(out.deep_view() =~~= old_dv.push(
                    center_spec(truncate_spec(t@, width as int), width as int),
                ));
            }
        },
        None => {},
    }
    proof {
        assert(out.deep_view() =~~= opt_label_line(m.title, width as int));
    }
    match &data.attributes.subtitle {
        Some(t) => {
            let ghost old_dv = out.deep_view();
            out.push(center(&truncate(t, width), width));
            proof {
                assert(out.deep_view() =~~= old_dv.push(
                    center_spec(truncate_spec(t@, width as int), width as int),
                ));
            }
        },
        None => {},
    }
    let ghost head = opt_label_line(m.title, width as int) + opt_label_line(
        m.subtitle,
        width as int,
    );
    proof {
        assert(out.deep_view() =~~= head);
    }
    // The grid rows.
    let ghost body = grid_body(
        style,
        hi as int,
        lo as int,
        pts@,
        gw as int,
        gh as int,
        ylab_spec(m, gh as int),
    );
    let mut y: usize = 0;
    while y < gh
        invariant
            y <= gh,
            gw == width - 2,
            gh == height - 3,
            width > 2,
            height > 3,
            lo <= hi,
            hi <= pts@.len(),
            pts@.len() <= usize::MAX / 8,
            is_hi_count(pts@, gw as int, gh as int, hi as nat),
            is_lo_count(pts@, gw as int, gh as int, hi as nat, lo as nat),
            grid.deep_view().len() == gh,
            forall|j: int| 0 <= j < gh ==> (#[trigger] grid.deep_view()[j]).len() == gw,
            forall|yy: int, xx: int|
                0 <= yy < gh && 0 <= xx < gw ==> grid.deep_view()[yy][xx] == count_of(
                    pts@,
                    yy,
                    xx,
                ),
            ylab@ == ylab_spec(m, gh as int),
            ylab@.len() == gh,
            body == grid_body(
                style,
                hi as int,
                lo as int,
                pts@,
                gw as int,
                gh as int,
                ylab_spec(m, gh as int),
            ),
            out.deep_view() == head + body.take(y as int),
        decreases gh - y,
    {
        let mut line: Vec<char> = Vec::new();
        line.push(ylab[y]);
        line.push(' ');
        let rowr = &grid[y];
        let ghost glyphs = row_glyphs(style, hi as int, lo as int, pts@, gw as int, y as int);
        proof {
            assert(line@ =~= seq![ylab@[y as int], ' '] + glyphs.take(0));
        }
        let mut x: usize = 0;
        while x < gw
            invariant
                x <= gw,
                y < gh,
                gw == width - 2,
                gh == height - 3,
                lo <= hi,
                hi <= pts@.len(),
                pts@.len() <= usize::MAX / 8,
                is_hi_count(pts@, gw as int, gh as int, hi as nat),
                is_lo_count(pts@, gw as int, gh as int, hi as nat, lo as nat),
                grid.deep_view().len() == gh,
                forall|j: int| 0 <= j < gh ==> (#[trigger] grid.deep_view()[j]).len() == gw,
                forall|yy: int, xx: int|
                    0 <= yy < gh && 0 <= xx < gw ==> grid.deep_view()[yy][xx] == count_of(
                        pts@,
                        yy,
                        xx,
                    ),
                rowr@ == grid.deep_view()[y as int],
                ylab@.len() == gh,
                glyphs == row_glyphs(style, hi as int, lo as int, pts@, gw as int, y as int),
                line@ == seq![ylab@[y as int], ' '] + glyphs.take(x as int),
            decreases gw - x,
        {
            let v = rowr[gw - 1 - x];
            proof {
                assert(v == count_of(pts@, y as int, gw - 1 - x as int));
                assert(count_of(pts@, y as int, gw - 1 - x as int) <= hi as nat);
                lemma_count_le_len(pts@, y as int, gw - 1 - x as int);
            }
            let c = style.draw(hi, lo, v);
            proof {
                assert(glyphs[x as int] == c);
                assert(glyphs.take(x + 1) =~= glyphs.take(x as int).push(c));
            }
            line.push(c);
            x += 1;
        }
        proof {
            assert(glyphs.take(gw as int) =~= glyphs);
            assert(line@ == seq![ylab@[y as int], ' '] + glyphs);
            assert(body[y as int] == seq![ylab_spec(m, gh as int)[y as int], ' '] + glyphs);
            assert(line@ == body[y as int]);
        }
        let ghost old_dv = out.deep_view();
        out.push(line);
        proof {
            assert(out.deep_view() =~~= old_dv.push(body[y as int]));
            assert(body.take(y + 1) =~= body.take(y as int).push(body[y as int]));
            assert(out.deep_view() =~~= head + body.take(y + 1));
        }
        y += 1;
    }
    proof {
        assert(body.take(gh as int) =~= body);
    }
    // The centered x-axis label line.
    match &data.attributes.xaxis {
        Some(a) => {
            let ghost old_dv = out.deep_view();
            out.push(center(&truncate(&a.label, gw), gw));
            proof {
                assert(out.deep_view() =~~= old_dv.push(
                    center_spec(truncate_spec(a.label@, gw as int), gw as int),
                ));
            }
        },
        None => {},
    }
    proof {
        assert(out.deep_view() =~~= graph_lines_spec(
            m,
            style,
            width as int,
            height as int,
            pts@,
            hi as int,
            lo as int,
        ));
        assert(is_hi_count(pts@, width - 2, height - 3, hi as nat));
        assert(is_lo_count(pts@, width - 2, height - 3, hi as nat, lo as nat));
    }
    out
}

} // verus!
