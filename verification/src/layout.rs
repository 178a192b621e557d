//! Badness-minimizing distribution of fixed-size boxes over lines.
//!
//! A line's badness is the cube of its unused width, or effectively infinite
//! when its content overflows the maximum width; the total badness of a
//! partition is the badness of its first line plus the badness of the best
//! partition of the remainder. Breakpoints are chosen by a suffix-memoized
//! dynamic program; when several breakpoints reach the minimum, the first
//! one is kept.

use crate::text::{chars_of, chars_to_string, is_space, spec_is_space};
use vstd::prelude::*;

verus! {

broadcast use vstd::string::group_string_axioms;

/// A box to be placed: a width and a height, in character cells.
pub struct VisualBox {
    pub width: u16,
    pub height: u16,
}

impl VisualBox {
    pub fn new(width: u16, height: u16) -> (r: Self)
        ensures
            r.width == width,
            r.height == height,
    {
        VisualBox { width, height }
    }
}

/// The widths of a run of boxes.
pub open spec fn widths_of(bs: Seq<VisualBox>) -> Seq<u16> {
    bs.map_values(|b: VisualBox| b.width)
}

/// The heights of a run of boxes.
pub open spec fn heights_of(bs: Seq<VisualBox>) -> Seq<u16> {
    bs.map_values(|b: VisualBox| b.height)
}

/// Total width of the boxes in positions `i .. j`.
pub open spec fn seg_width(ws: Seq<u16>, i: int, j: int) -> int
    decreases j - i,
{
    if i < j {
        seg_width(ws, i, j - 1) + ws[j - 1]
    } else {
        0
    }
}

/// Total height of the boxes in positions `i .. j`.
pub open spec fn seg_height(hs: Seq<u16>, i: int, j: int) -> int
    decreases j - i,
{
    if i < j {
        seg_height(hs, i, j - 1) + hs[j - 1]
    } else {
        0
    }
}

/// Height of a line: the tallest box on it (0 for an empty range).
pub open spec fn line_height(hs: Seq<u16>, i: int, j: int) -> int
    decreases j - i,
{
    if i < j {
        let rest = line_height(hs, i, j - 1);
        if hs[j - 1] >= rest {
            hs[j - 1] as int
        } else {
            rest
        }
    } else {
        0
    }
}

/// The badness that stands for an overflowing line.
pub open spec fn max_badness() -> int {
    0xffff_ffff_ffff_ffff
}

/// Badness of placing boxes `i .. j` on one line of width `max`.
pub open spec fn line_badness(ws: Seq<u16>, max: u16, i: int, j: int) -> int {
    let total = seg_width(ws, i, j);
    if total > max {
        max_badness()
    } else {
        (max - total) * (max - total) * (max - total)
    }
}

/// Addition capped at the overflow badness.
pub open spec fn sat_add64(a: int, b: int) -> int {
    if a + b > max_badness() {
        max_badness()
    } else {
        a + b
    }
}

/// Minimal total badness of breaking the suffix that starts at `start`.
pub open spec fn best_badness(ws: Seq<u16>, max: u16, start: int) -> int
    decreases ws.len() - start, 1int, 0int,
    when 0 <= start <= ws.len()
{
    if start == ws.len() {
        0
    } else {
        scan_min(ws, max, start, ws.len() as int)
    }
}

/// Minimal total badness when the first line ends at one of
/// `start+1 ..= m`.
pub open spec fn scan_min(ws: Seq<u16>, max: u16, start: int, m: int) -> int
    decreases ws.len() - start, 0int, m,
    when 0 <= start < m <= ws.len()
{
    let c = sat_add64(line_badness(ws, max, start, m), best_badness(ws, max, m));
    if m == start + 1 {
        c
    } else {
        let prev = scan_min(ws, max, start, m - 1);
        if prev <= c {
            prev
        } else {
            c
        }
    }
}

/// The first breakpoint in `start+1 ..= m` whose total badness is minimal.
pub open spec fn scan_break(ws: Seq<u16>, max: u16, start: int, m: int) -> int
    decreases ws.len() - start, 0int, m,
    when 0 <= start < m <= ws.len()
{
    if m == start + 1 {
        m
    } else {
        let c = sat_add64(line_badness(ws, max, start, m), best_badness(ws, max, m));
        let prev = scan_min(ws, max, start, m - 1);
        if prev <= c {
            scan_break(ws, max, start, m - 1)
        } else {
            m
        }
    }
}

/// The breakpoint chosen for the suffix that starts at `start`.
pub open spec fn best_break(ws: Seq<u16>, max: u16, start: int) -> int {
    scan_break(ws, max, start, ws.len() as int)
}

/// The chain of chosen breakpoints from `head` to the end.
pub open spec fn spec_splits(ws: Seq<u16>, max: u16, head: int) -> Seq<usize>
    decreases ws.len() - head,
    when 0 <= head <= ws.len() <= usize::MAX
{
    if head >= ws.len() {
        Seq::empty()
    } else {
        let b = best_break(ws, max, head);
        if head < b <= ws.len() {
            seq![b as usize] + spec_splits(ws, max, b)
        } else {
            Seq::empty()
        }
    }
}

/// Badness values stay between 0 and the overflow badness.
proof fn lemma_scan_min_bounds(ws: Seq<u16>, max: u16, start: int, m: int)
    requires
        0 <= start < m <= ws.len(),
    ensures
        0 <= scan_min(ws, max, start, m) <= max_badness(),
    decreases ws.len() - start, 0int, m,
{
    assert(line_badness(ws, max, start, m) >= 0) by {
        let total = seg_width(ws, start, m);
        if total <= max {
            let d = max - total;
            assert(d >= 0);
            assert(d * d * d >= 0) by (nonlinear_arith)
                requires
                    d >= 0,
            ;
        }
    }
    if m < ws.len() {
        lemma_scan_min_bounds(ws, max, m, ws.len() as int);
        assert(best_badness(ws, max, m) == scan_min(ws, max, m, ws.len() as int));
    } else {
        assert(best_badness(ws, max, m) == 0);
    }
    if m > start + 1 {
        lemma_scan_min_bounds(ws, max, start, m - 1);
    }
}

/// The best badness of a suffix stays between 0 and the overflow badness.
proof fn lemma_best_bounds(ws: Seq<u16>, max: u16, start: int)
    requires
        0 <= start <= ws.len(),
    ensures
        0 <= best_badness(ws, max, start) <= max_badness(),
{
    if start < ws.len() {
        lemma_scan_min_bounds(ws, max, start, ws.len() as int);
    }
}

/// The chosen breakpoint lies strictly after `start`, at `m` or before.
proof fn lemma_scan_break_range(ws: Seq<u16>, max: u16, start: int, m: int)
    requires
        0 <= start < m <= ws.len(),
    ensures
        start < scan_break(ws, max, start, m) <= m,
    decreases m - start,
{
    if m > start + 1 {
        lemma_scan_break_range(ws, max, start, m - 1);
    }
}

/// The chosen breakpoint attains the minimal badness.
proof fn lemma_scan_achieves(ws: Seq<u16>, max: u16, start: int, m: int)
    requires
        0 <= start < m <= ws.len(),
    ensures
        ({
            let b = scan_break(ws, max, start, m);
            sat_add64(line_badness(ws, max, start, b), best_badness(ws, max, b)) == scan_min(
                ws,
                max,
                start,
                m,
            )
        }),
    decreases m - start,
{
    if m > start + 1 {
        lemma_scan_achieves(ws, max, start, m - 1);
    }
}

/// When every breakpoint is equally hopeless, the first one is chosen.
proof fn lemma_scan_all_max(ws: Seq<u16>, max: u16, start: int, m: int)
    requires
        0 <= start < m <= ws.len(),
        scan_min(ws, max, start, m) == max_badness(),
    ensures
        scan_break(ws, max, start, m) == start + 1,
    decreases m - start,
{
    if m > start + 1 {
        lemma_scan_min_bounds(ws, max, start, m - 1);
        lemma_scan_all_max(ws, max, start, m - 1);
    }
}

/// With every box narrower than the line, every chosen line fits.
proof fn lemma_line_fits(ws: Seq<u16>, max: u16, start: int)
    requires
        0 <= start < ws.len(),
        forall|i: int| 0 <= i < ws.len() ==> #[trigger] ws[i] <= max,
    ensures
        seg_width(ws, start, best_break(ws, max, start)) <= max,
{
    let n = ws.len() as int;
    let b = best_break(ws, max, start);
    lemma_scan_break_range(ws, max, start, n);
    lemma_scan_achieves(ws, max, start, n);
    lemma_scan_min_bounds(ws, max, start, n);
    let mn = scan_min(ws, max, start, n);
    if mn == max_badness() {
        lemma_scan_all_max(ws, max, start, n);
        assert(b == start + 1);
        assert(seg_width(ws, start, start) == 0);
        assert(seg_width(ws, start, start + 1) == ws[start]);
    } else {
        lemma_best_bounds(ws, max, b);
        assert(best_badness(ws, max, b) >= 0);
        assert(line_badness(ws, max, start, b) < max_badness());
        let total = seg_width(ws, start, b);
        if total > max {
            assert(line_badness(ws, max, start, b) == max_badness());
            assert(false);
        }
    }
}

/// The start of line `i` in a breakpoint chain that begins at `head`.
pub open spec fn split_start(sp: Seq<usize>, head: int, i: int) -> int {
    if i == 0 {
        head
    } else {
        sp[i - 1] as int
    }
}

/// Structural shape of a breakpoint chain: boundaries increase and the
/// last one is the box count.
pub open spec fn splits_shape(ws: Seq<u16>, head: int, sp: Seq<usize>) -> bool {
    &&& (head < ws.len() ==> sp.len() > 0)
    &&& (sp.len() > 0 ==> sp[sp.len() - 1] == ws.len())
    &&& forall|i: int|
        0 <= i < sp.len() ==> split_start(sp, head, i) < #[trigger] sp[i] <= ws.len()
}

/// Structural soundness of a breakpoint chain: its shape holds and every
/// chosen line fits.
pub open spec fn splits_ok(ws: Seq<u16>, max: u16, head: int, sp: Seq<usize>) -> bool {
    &&& splits_shape(ws, head, sp)
    &&& forall|i: int|
        0 <= i < sp.len() ==> seg_width(ws, split_start(sp, head, i), #[trigger] sp[i] as int)
            <= max
}

/// The chosen breakpoint chain always has a sound shape.
proof fn lemma_splits_shape(ws: Seq<u16>, max: u16, head: int)
    requires
        0 <= head <= ws.len() <= usize::MAX,
    ensures
        splits_shape(ws, head, spec_splits(ws, max, head)),
    decreases ws.len() - head,
{
    if head < ws.len() {
        let b = best_break(ws, max, head);
        lemma_scan_break_range(ws, max, head, ws.len() as int);
        lemma_splits_shape(ws, max, b);
        let sp = spec_splits(ws, max, head);
        let sp2 = spec_splits(ws, max, b);
        assert(sp == seq![b as usize] + sp2);
        if b == ws.len() {
            assert(sp2 == Seq::<usize>::empty());
            assert(sp.len() == 1);
            assert(sp[0] == b as usize);
        }
        assert forall|i: int| 0 <= i < sp.len() implies split_start(sp, head, i) < #[trigger] sp[i]
            <= ws.len() by {
            if i == 0 {
                assert(sp[0] == b as usize);
            } else {
                assert(sp[i] == sp2[i - 1]);
                if i == 1 {
                    assert(sp[0] == b as usize);
                } else {
                    assert(sp[i - 1] == sp2[i - 2]);
                }
            }
        }
    }
}

/// The chosen breakpoint chain is structurally sound when every box fits the
/// line width on its own.
proof fn lemma_splits_props(ws: Seq<u16>, max: u16, head: int)
    requires
        0 <= head <= ws.len() <= usize::MAX,
        forall|i: int| 0 <= i < ws.len() ==> #[trigger] ws[i] <= max,
    ensures
        splits_ok(ws, max, head, spec_splits(ws, max, head)),
    decreases ws.len() - head,
{
    if head < ws.len() {
        let b = best_break(ws, max, head);
        lemma_scan_break_range(ws, max, head, ws.len() as int);
        lemma_line_fits(ws, max, head);
        lemma_splits_props(ws, max, b);
        let sp = spec_splits(ws, max, head);
        let sp2 = spec_splits(ws, max, b);
        assert(sp == seq![b as usize] + sp2);
        if b == ws.len() {
            assert(sp2 == Seq::<usize>::empty());
            assert(sp.len() == 1);
            assert(sp[0] == b as usize);
        }
        assert forall|i: int| 0 <= i < sp.len() implies split_start(sp, head, i) < #[trigger] sp[i]
            <= ws.len() && seg_width(ws, split_start(sp, head, i), sp[i] as int) <= max by {
            if i == 0 {
                assert(sp[0] == b as usize);
            } else {
                assert(sp[i] == sp2[i - 1]);
                if i == 1 {
                    assert(sp[0] == b as usize);
                    assert(split_start(sp, head, 1) == b);
                    assert(split_start(sp2, b, 0) == b);
                } else {
                    assert(sp[i - 1] == sp2[i - 2]);
                    assert(split_start(sp, head, i) == split_start(sp2, b, i - 1));
                }
            }
        }
    }
}

/// Computes the chain of breakpoints that partitions `elements` into lines
/// of minimal total badness for width `max_width`.
pub fn get_splits(max_width: u16, elements: &[VisualBox]) -> (r: Vec<usize>)
    requires
        elements@.len() < usize::MAX,
    ensures
        r@ == spec_splits(widths_of(elements@), max_width, 0),
{
    let n = elements.len();
    let mut ws: Vec<u16> = Vec::new();
    let mut i: usize = 0;
    while i < n
        invariant
            n == elements@.len(),
            0 <= i <= n,
            ws@.len() == i,
            forall|j: int| 0 <= j < i ==> ws@[j] == elements@[j].width,
        decreases n - i,
    {
        ws.push(elements[i].width);
        i += 1;
    }
    proof {
        assert(ws@ =~= widths_of(elements@));
    }
    let mut best: Vec<u64> = vec![0u64; n];
    let mut brk: Vec<usize> = vec![0usize; n];
    let mut s: usize = n;
    while s > 0
        invariant
            n == ws@.len(),
            n < usize::MAX,
            ws@ == widths_of(elements@),
            best@.len() == n,
            brk@.len() == n,
            0 <= s <= n,
            forall|m: int| s <= m < n ==> #[trigger] best@[m] == best_badness(ws@, max_width, m),
            forall|m: int| s <= m < n ==> #[trigger] brk@[m] == best_break(ws@, max_width, m),
        decreases s,
    {
        s = s - 1;
        let start = s;
        let mut total: u64 = 0;
        let mut run_min: u64 = 0;
        let mut run_brk: usize = start + 1;
        let mut k: usize = start + 1;
        while k <= n
            invariant
                n == ws@.len(),
                n < usize::MAX,
                best@.len() == n,
                0 <= start < k <= n + 1,
                forall|m: int|
                    start < m < n ==> #[trigger] best@[m] == best_badness(ws@, max_width, m),
                ({
                    let seg = seg_width(ws@, start as int, k - 1);
                    if seg > u64::MAX {
                        total == u64::MAX
                    } else {
                        total == seg
                    }
                }),
                k > start + 1 ==> run_min == scan_min(ws@, max_width, start as int, k - 1),
                k > start + 1 ==> run_brk == scan_break(ws@, max_width, start as int, k - 1),
                k > start + 1 ==> start < run_brk <= n,
            decreases n + 1 - k,
        {
            let w = ws[k - 1] as u64;
            total = if total > u64::MAX - w {
                u64::MAX
            } else {
                total + w
            };
            proof {
                assert(seg_width(ws@, start as int, k as int) == seg_width(
                    ws@,
                    start as int,
                    k - 1,
                ) + ws@[k - 1]);
                lemma_seg_width_nonneg(ws@, start as int, k - 1);
            }
            let line_b: u64 = if total > max_width as u64 {
                u64::MAX
            } else {
                let d = (max_width as u64) - total;
                proof {
                    assert(d * d <= 0xffff * 0xffff) by (nonlinear_arith)
                        requires
                            0 <= d <= 0xffff,
                    ;
                    assert((d * d) * d <= 0xffff_ffff * 0xffff) by (nonlinear_arith)
                        requires
                            0 <= d <= 0xffff,
                            d * d <= 0xffff_ffff,
                    ;
                }
                (d * d) * d
            };
            proof {
                assert(line_b == line_badness(ws@, max_width, start as int, k as int)) by {
                    let seg = seg_width(ws@, start as int, k as int);
                    if seg > u64::MAX {
                        assert(total == u64::MAX);
                        assert(seg > max_width);
                    }
                }
            }
            let suffix: u64 = if k == n {
                0
            } else {
                best[k]
            };
            proof {
                assert(suffix == best_badness(ws@, max_width, k as int));
            }
            let c: u64 = if line_b > u64::MAX - suffix {
                u64::MAX
            } else {
                line_b + suffix
            };
            proof {
                assert(c == sat_add64(
                    line_badness(ws@, max_width, start as int, k as int),
                    best_badness(ws@, max_width, k as int),
                ));
            }
            if k == start + 1 {
                run_min = c;
                run_brk = k;
            } else if c < run_min {
                run_min = c;
                run_brk = k;
            }
            k += 1;
        }
        let run_min_final = run_min;
        let run_brk_final = run_brk;
        best[start] = run_min_final;
        brk[start] = run_brk_final;
        proof {
            assert(best@[start as int] == best_badness(ws@, max_width, start as int));
            assert(brk@[start as int] == best_break(ws@, max_width, start as int));
        }
    }
    let mut splits: Vec<usize> = Vec::new();
    let mut head: usize = 0;
    while head < n
        invariant
            n == ws@.len(),
            ws@ == widths_of(elements@),
            brk@.len() == n,
            0 <= head <= n,
            forall|m: int| 0 <= m < n ==> #[trigger] brk@[m] == best_break(ws@, max_width, m),
            splits@ + spec_splits(ws@, max_width, head as int) == spec_splits(ws@, max_width, 0),
        decreases n - head,
    {
        let b = brk[head];
        proof {
            lemma_scan_break_range(ws@, max_width, head as int, n as int);
            assert(spec_splits(ws@, max_width, head as int) == seq![b] + spec_splits(
                ws@,
                max_width,
                b as int,
            ));
        }
        splits.push(b);
        proof {
            assert(splits@ + spec_splits(ws@, max_width, b as int) =~= spec_splits(
                ws@,
                max_width,
                0,
            ));
        }
        head = b;
    }
    proof {
        assert(splits@ =~= spec_splits(ws@, max_width, 0));
    }
    splits
}

/// The extra gap spread after each box of the line `a .. b`: an even share
/// of the leftover width, at most 2 cells.
pub open spec fn line_gap(ws: Seq<u16>, max: u16, a: int, b: int) -> int {
    let free = (max - seg_width(ws, a, b)) / (b - a);
    if free < 2 {
        free
    } else {
        2
    }
}

/// The horizontal position of box `j` on the line `a .. b`: the widths
/// before it plus one gap for each box before it.
pub open spec fn box_x(ws: Seq<u16>, max: u16, a: int, b: int, j: int) -> int {
    seg_width(ws, a, j) + (j - a) * line_gap(ws, max, a, b)
}

/// The placements of lines `i ..` of the breakpoint chain `sp`, where line
/// `i` starts at box `a` and vertical offset `y`.
pub open spec fn spec_positions(
    ws: Seq<u16>,
    hs: Seq<u16>,
    max: u16,
    sp: Seq<usize>,
    i: int,
    a: int,
    y: int,
) -> Seq<(u16, u16)>
    decreases sp.len() - i,
{
    if 0 <= i < sp.len() {
        let b = sp[i] as int;
        Seq::new(
            (if a <= b {
                b - a
            } else {
                0
            }) as nat,
            |j: int| ((box_x(ws, max, a, b, a + j)) as u16, y as u16),
        ) + spec_positions(ws, hs, max, sp, i + 1, b, y + line_height(hs, a, b))
    } else {
        Seq::empty()
    }
}

/// A box's span on its line stays within the line width.
proof fn lemma_box_x_bound(ws: Seq<u16>, max: u16, a: int, b: int, k: int)
    requires
        0 <= a <= k < b <= ws.len(),
        seg_width(ws, a, b) <= max,
    ensures
        0 <= box_x(ws, max, a, b, k),
        box_x(ws, max, a, b, k) + ws[k] <= max,
{
    let content = seg_width(ws, a, b);
    let count = b - a;
    let gap = line_gap(ws, max, a, b);
    assert((max - content) / count >= 0) by (nonlinear_arith)
        requires
            max - content >= 0,
            count >= 1,
    ;
    assert(0 <= gap <= (max - content) / count);
    lemma_gap_bound(ws, max, a, b, gap);
    assert(seg_width(ws, a, k + 1) == seg_width(ws, a, k) + ws[k]);
    lemma_seg_width_mono(ws, a, k + 1, b);
    assert((k - a) * gap <= (b - 1 - a) * gap) by (nonlinear_arith)
        requires
            k - a <= b - 1 - a,
            gap >= 0,
    ;
    assert((k - a) * gap >= 0) by (nonlinear_arith)
        requires
            k - a >= 0,
            gap >= 0,
    ;
    lemma_seg_width_nonneg(ws, a, k);
}

/// Every placement of lines `i ..` keeps each box's span within the width,
/// whatever the heights and the vertical offset.
proof fn lemma_positions_bound(
    ws: Seq<u16>,
    hs: Seq<u16>,
    max: u16,
    sp: Seq<usize>,
    i: int,
    a: int,
    y: int,
)
    requires
        splits_ok(ws, max, 0, sp),
        0 <= i <= sp.len(),
        a == split_start(sp, 0, i),
        0 <= a <= ws.len(),
        i == sp.len() ==> a == ws.len(),
    ensures
        spec_positions(ws, hs, max, sp, i, a, y).len() == ws.len() - a,
        forall|j: int|
            0 <= j < ws.len() - a ==> (#[trigger] spec_positions(ws, hs, max, sp, i, a, y)[j]).0
                + ws[a + j] <= max,
    decreases sp.len() - i,
{
    let ps = spec_positions(ws, hs, max, sp, i, a, y);
    if i < sp.len() {
        let b = sp[i] as int;
        assert(a < b <= ws.len());
        assert(seg_width(ws, a, b) <= max);
        let y2 = y + line_height(hs, a, b);
        lemma_positions_bound(ws, hs, max, sp, i + 1, b, y2);
        let block = Seq::new(
            (b - a) as nat,
            |j: int| ((box_x(ws, max, a, b, a + j)) as u16, y as u16),
        );
        assert(ps == block + spec_positions(ws, hs, max, sp, i + 1, b, y2));
        assert forall|j: int| 0 <= j < ws.len() - a implies (#[trigger] ps[j]).0 + ws[a + j]
            <= max by {
            if j < b - a {
                lemma_box_x_bound(ws, max, a, b, a + j);
                assert(ps[j] == block[j]);
                assert(box_x(ws, max, a, b, a + j) <= max);
            } else {
                assert(ps[j] == spec_positions(ws, hs, max, sp, i + 1, b, y2)[j - (b - a)]);
            }
        }
    } else {
        assert(ps == Seq::<(u16, u16)>::empty());
    }
}

/// Distribution width bound: with every box no wider than the line, no
/// placed box's span exceeds the line width — whatever the boxes' heights
/// may be.
pub proof fn lemma_distribution_width_bound(ws: Seq<u16>, hs: Seq<u16>, max: u16)
    requires
        ws.len() <= usize::MAX,
        forall|i: int| 0 <= i < ws.len() ==> #[trigger] ws[i] <= max,
    ensures
        ({
            let ps = spec_positions(ws, hs, max, spec_splits(ws, max, 0), 0, 0, 0);
            &&& ps.len() == ws.len()
            &&& forall|i: int| 0 <= i < ps.len() ==> (#[trigger] ps[i]).0 + ws[i] <= max
        }),
{
    lemma_splits_props(ws, max, 0);
    let sp = spec_splits(ws, max, 0);
    if sp.len() == 0 {
        assert(ws.len() == 0);
    } else {
        assert(sp[sp.len() - 1] == ws.len());
    }
    lemma_positions_bound(ws, hs, max, sp, 0, 0, 0);
}

/// What `distribute` guarantees of its placements: every box's horizontal
/// span stays within the line width.
pub open spec fn placed_ok(positions: Seq<(u16, u16)>, bs: Seq<VisualBox>, max: u16) -> bool {
    &&& positions.len() == bs.len()
    &&& forall|i: int|
        0 <= i < positions.len() ==> (#[trigger] positions[i]).0 + bs[i].width <= max
}

/// Places the boxes `a .. b` on one line at vertical offset `y`, spreading
/// them with at most 2 extra cells of gap each; returns the line's height.
fn place_line(
    elements: &[VisualBox],
    a: usize,
    b: usize,
    max_width: u16,
    y: u16,
    out: &mut Vec<(u16, u16)>,
) -> (line_h: u16)
    requires
        a < b <= elements@.len(),
        seg_width(widths_of(elements@), a as int, b as int) <= max_width,
        old(out)@.len() == a,
    ensures
        line_h == line_height(heights_of(elements@), a as int, b as int),
        final(out)@.len() == b,
        forall|j: int| 0 <= j < a ==> final(out)@[j] == old(out)@[j],
        forall|j: int|
            a <= j < b ==> (#[trigger] final(out)@[j]).0 + elements@[j].width <= max_width,
        forall|j: int|
            a <= j < b ==> #[trigger] final(out)@[j] == ((box_x(
                widths_of(elements@),
                max_width,
                a as int,
                b as int,
                j,
            )) as u16, y),
{
    let ghost ws = widths_of(elements@);
    let ghost hs = heights_of(elements@);
    let n = elements.len();
    let count = (b - a) as u64;
    // content width of this line, bounded by max_width
    let mut content: u64 = 0;
    let mut j: usize = a;
    while j < b
        invariant
            n == elements@.len(),
            ws == widths_of(elements@),
            a <= j <= b <= n,
            content == seg_width(ws, a as int, j as int),
            seg_width(ws, a as int, b as int) <= max_width,
        decreases b - j,
    {
        proof {
            lemma_seg_width_mono(ws, a as int, j + 1, b as int);
            lemma_seg_width_nonneg(ws, a as int, j as int);
        }
        content = content + (elements[j].width as u64);
        j += 1;
    }
    // tallest box on the line
    let mut line_h: u16 = 0;
    let mut j2: usize = a;
    while j2 < b
        invariant
            n == elements@.len(),
            hs == heights_of(elements@),
            a <= j2 <= b <= n,
            line_h == line_height(hs, a as int, j2 as int),
        decreases b - j2,
    {
        if elements[j2].height > line_h {
            line_h = elements[j2].height;
        } else {
        }
        j2 += 1;
    }
    let whitespace = ((max_width as u64) - content) / count;
    let gap: u64 = if whitespace < 2 {
        whitespace
    } else {
        2
    };
    proof {
        assert(gap == line_gap(ws, max_width, a as int, b as int));
        lemma_gap_bound(ws, max_width, a as int, b as int, gap as int);
        assert(seg_width(ws, a as int, a as int) == 0);
        assert((a - a) * gap == 0) by (nonlinear_arith);
    }
    // positions within the line
    let mut filled: u64 = 0;
    let mut j3: usize = a;
    while j3 < b
        invariant
            n == elements@.len(),
            ws == widths_of(elements@),
            a <= j3 <= b <= n,
            a < b,
            out@.len() == j3,
            filled == seg_width(ws, a as int, j3 as int) + (j3 - a) * gap,
            filled + seg_width(ws, j3 as int, b as int) + (b - 1 - j3) * gap <= max_width,
            0 <= gap <= 2,
            gap == line_gap(ws, max_width, a as int, b as int),
            forall|j4: int| 0 <= j4 < a ==> out@[j4] == old(out)@[j4],
            forall|j4: int|
                a <= j4 < j3 ==> (#[trigger] out@[j4]).0 + elements@[j4].width <= max_width,
            forall|j4: int|
                a <= j4 < j3 ==> #[trigger] out@[j4] == ((box_x(
                    ws,
                    max_width,
                    a as int,
                    b as int,
                    j4,
                )) as u16, y),
        decreases b - j3,
    {
        proof {
            lemma_seg_width_unfold_front(ws, j3 as int, b as int);
        }
        assert(filled + elements@[j3 as int].width <= max_width) by {
            lemma_seg_width_nonneg(ws, j3 + 1, b as int);
        }
        out.push((filled as u16, y));
        filled = filled + (elements[j3].width as u64) + gap;
        proof {
            assert(seg_width(ws, a as int, j3 + 1) == seg_width(ws, a as int, j3 as int)
                + ws[j3 as int]);
            let cnt = j3 - a;
            assert((cnt + 1) * gap == cnt * gap + gap) by (nonlinear_arith);
            let rem = b - 1 - j3;
            assert(rem * gap == (rem - 1) * gap + gap) by (nonlinear_arith);
            lemma_seg_width_unfold_front(ws, j3 as int, b as int);
        }
        j3 += 1;
    }
    line_h
}

/// Places each box at a position (relative to `(0, 0)`) so that lines
/// minimize badness; boxes on a line are spread with at most 2 extra cells
/// of gap each, and lines stack by their tallest box.
#[verifier::rlimit(100)]
pub fn distribute(max_width: u16, elements: &[VisualBox]) -> (r: Vec<(u16, u16)>)
    requires
        elements@.len() < usize::MAX,
        forall|i: int| 0 <= i < elements@.len() ==> (#[trigger] elements@[i]).width <= max_width,
        seg_height(heights_of(elements@), 0, elements@.len() as int) <= u16::MAX,
    ensures
        placed_ok(r@, elements@, max_width),
        r@.len() == elements@.len(),
        r@ == spec_positions(
            widths_of(elements@),
            heights_of(elements@),
            max_width,
            spec_splits(widths_of(elements@), max_width, 0),
            0,
            0,
            0,
        ),
        forall|i: int, j: int|
            0 <= i < j < r@.len() ==> (#[trigger] r@[i]).1 <= (#[trigger] r@[j]).1,
{
    let ghost ws = widths_of(elements@);
    let ghost hs = heights_of(elements@);
    let n = elements.len();
    let splits = get_splits(max_width, elements);
    proof {
        lemma_splits_props(ws, max_width, 0);
    }
    let ghost sp = splits@;
    let mut out: Vec<(u16, u16)> = Vec::new();
    let mut y: u16 = 0;
    let mut a: usize = 0;
    let mut i: usize = 0;
    while i < splits.len()
        invariant
            n == elements@.len(),
            ws == widths_of(elements@),
            hs == heights_of(elements@),
            splits_ok(ws, max_width, 0, splits@),
            sp == splits@,
            sp == spec_splits(ws, max_width, 0),
            0 <= i <= splits@.len(),
            a == split_start(splits@, 0, i as int),
            a <= n,
            out@.len() == a,
            out@ + spec_positions(ws, hs, max_width, sp, i as int, a as int, y as int)
                == spec_positions(ws, hs, max_width, sp, 0, 0, 0),
            forall|j: int|
                0 <= j < out@.len() ==> (#[trigger] out@[j]).0 + elements@[j].width <= max_width,
            forall|j1: int, j2: int|
                0 <= j1 < j2 < out@.len() ==> (#[trigger] out@[j1]).1 <= (#[trigger] out@[j2]).1,
            forall|j: int| 0 <= j < out@.len() ==> (#[trigger] out@[j]).1 <= y,
            y + seg_height(hs, a as int, n as int) <= u16::MAX,
        decreases splits@.len() - i,
    {
        let b = splits[i];
        assert(a < b <= n);
        assert(seg_width(ws, a as int, b as int) <= max_width);
        proof {
            lemma_line_height_le_seg(hs, a as int, b as int);
            lemma_seg_height_concat(hs, a as int, b as int, n as int);
            lemma_seg_height_nonneg(hs, b as int, n as int);
        }
        let ghost out_pre = out@;
        let line_h = place_line(elements, a, b, max_width, y, &mut out);
        proof {
            assert(out@ =~= out_pre + Seq::new(
                (b - a) as nat,
                |j: int| ((box_x(ws, max_width, a as int, b as int, a + j)) as u16, y),
            ));
            assert(spec_positions(ws, hs, max_width, sp, i as int, a as int, y as int)
                == Seq::new(
                (b - a) as nat,
                |j: int| ((box_x(ws, max_width, a as int, b as int, a + j)) as u16, y as u16),
            ) + spec_positions(
                ws,
                hs,
                max_width,
                sp,
                i + 1,
                b as int,
                y + line_height(hs, a as int, b as int),
            ));
            assert(out@ + spec_positions(
                ws,
                hs,
                max_width,
                sp,
                i + 1,
                b as int,
                y + line_height(hs, a as int, b as int),
            ) =~= spec_positions(ws, hs, max_width, sp, 0, 0, 0));
        }
        y = y + line_h;
        a = b;
        i += 1;
    }
    proof {
        if splits@.len() == 0 {
            assert(n == 0);
        } else {
            assert(i == splits@.len());
            assert(a == splits@[splits@.len() - 1]);
        }
        assert(spec_positions(ws, hs, max_width, sp, splits@.len() as int, a as int, y as int)
            == Seq::<(u16, u16)>::empty());
        assert(out@ =~= out@ + Seq::<(u16, u16)>::empty());
    }
    out
}

/// A segment's width never shrinks as the segment grows to the right.
proof fn lemma_seg_width_mono(ws: Seq<u16>, a: int, j: int, b: int)
    requires
        a <= j <= b <= ws.len(),
    ensures
        seg_width(ws, a, j) <= seg_width(ws, a, b),
    decreases b - j,
{
    if j < b {
        lemma_seg_width_mono(ws, a, j + 1, b);
    }
}

/// Segment widths are nonnegative.
proof fn lemma_seg_width_nonneg(ws: Seq<u16>, a: int, b: int)
    requires
        a <= b,
    ensures
        seg_width(ws, a, b) >= 0,
    decreases b - a,
{
    if a < b {
        lemma_seg_width_nonneg(ws, a, b - 1);
    }
}

/// A segment splits into its first box and the rest.
proof fn lemma_seg_width_unfold_front(ws: Seq<u16>, a: int, b: int)
    requires
        a < b <= ws.len(),
    ensures
        seg_width(ws, a, b) == ws[a] + seg_width(ws, a + 1, b),
    decreases b - a,
{
    if a + 1 < b {
        lemma_seg_width_unfold_front(ws, a, b - 1);
        assert(seg_width(ws, a, b) == seg_width(ws, a, b - 1) + ws[b - 1]);
        assert(seg_width(ws, a + 1, b) == seg_width(ws, a + 1, b - 1) + ws[b - 1]);
    } else {
        assert(seg_width(ws, a, a) == 0);
        assert(seg_width(ws, a, b) == seg_width(ws, a, a) + ws[a]);
        assert(seg_width(ws, a + 1, b) == 0);
    }
}

/// The gap per box leaves the whole line within bounds: content plus one gap
/// for each box but the last stays within `max`, even with the next box's
/// width counted.
proof fn lemma_gap_bound(ws: Seq<u16>, max: u16, a: int, b: int, gap: int)
    requires
        0 <= a < b <= ws.len(),
        seg_width(ws, a, b) <= max,
        0 <= gap,
        gap <= (max - seg_width(ws, a, b)) / (b - a),
    ensures
        seg_width(ws, a, b) + (b - 1 - a) * gap <= max,
{
    let content = seg_width(ws, a, b);
    let count = b - a;
    assert(count * ((max - content) / count) <= max - content) by (nonlinear_arith)
        requires
            count >= 1,
            max - content >= 0,
    ;
    assert(count * gap <= count * ((max - content) / count)) by (nonlinear_arith)
        requires
            count >= 1,
            0 <= gap <= (max - content) / count,
    ;
    assert((count - 1) * gap <= count * gap) by (nonlinear_arith)
        requires
            count >= 1,
            gap >= 0,
    ;
}

/// A line is no taller than the summed heights of its boxes.
proof fn lemma_line_height_le_seg(hs: Seq<u16>, a: int, b: int)
    requires
        a <= b,
    ensures
        line_height(hs, a, b) <= seg_height(hs, a, b),
        line_height(hs, a, b) >= 0,
    decreases b - a,
{
    if a < b {
        lemma_line_height_le_seg(hs, a, b - 1);
    }
}

/// Summed heights are additive over adjacent segments.
proof fn lemma_seg_height_concat(hs: Seq<u16>, a: int, b: int, c: int)
    requires
        a <= b <= c <= hs.len(),
    ensures
        seg_height(hs, a, c) == seg_height(hs, a, b) + seg_height(hs, b, c),
    decreases c - b,
{
    if b < c {
        lemma_seg_height_concat(hs, a, b, c - 1);
    }
}

/// Summed heights are nonnegative.
proof fn lemma_seg_height_nonneg(hs: Seq<u16>, a: int, b: int)
    requires
        a <= b,
    ensures
        seg_height(hs, a, b) >= 0,
    decreases b - a,
{
    if a < b {
        lemma_seg_height_nonneg(hs, a, b - 1);
    }
}

/// Index of the first newline in `s`, or -1 if there is none.
pub open spec fn find_nl(s: Seq<char>) -> int
    decreases s.len(),
{
    if s.len() == 0 {
        -1
    } else if s[0] == '\n' {
        0
    } else {
        let r = find_nl(s.drop_first());
        if r < 0 {
            -1
        } else {
            r + 1
        }
    }
}

/// Index of the first white-space character in `s`, or -1 if there is none.
pub open spec fn find_sp(s: Seq<char>) -> int
    decreases s.len(),
{
    if s.len() == 0 {
        -1
    } else if spec_is_space(s[0]) {
        0
    } else {
        let r = find_sp(s.drop_first());
        if r < 0 {
            -1
        } else {
            r + 1
        }
    }
}

/// The paragraphs of a text: the pieces between newlines, which they do
/// not contain.
pub open spec fn spec_paragraphs(text: Seq<char>) -> Seq<Seq<char>>
    decreases text.len(),
{
    let i = find_nl(text);
    if 0 <= i < text.len() {
        seq![text.take(i)] + spec_paragraphs(text.skip(i + 1))
    } else {
        seq![text]
    }
}

/// The words of a paragraph: split after each white-space character, so
/// every word but possibly the last ends in the space that ended it.
pub open spec fn spec_words(par: Seq<char>) -> Seq<Seq<char>>
    decreases par.len(),
{
    if par.len() == 0 {
        Seq::empty()
    } else {
        let i = find_sp(par);
        if 0 <= i < par.len() {
            seq![par.take(i + 1)] + spec_words(par.skip(i + 1))
        } else {
            seq![par]
        }
    }
}

/// The box a word occupies: one cell per character, one line tall.
pub open spec fn word_box(w: Seq<char>) -> VisualBox {
    VisualBox { width: w.len() as u16, height: 1 }
}

/// The concatenation of words `a .. b`.
pub open spec fn concat_words(ws: Seq<Seq<char>>, a: int, b: int) -> Seq<char>
    decreases b - a,
{
    if a < b {
        concat_words(ws, a, b - 1) + ws[b - 1]
    } else {
        Seq::empty()
    }
}

/// The hard-wrapped rendering of lines `i ..` of a paragraph's words,
/// each line followed by a newline.
pub open spec fn lines_of(ws: Seq<Seq<char>>, sp: Seq<usize>, i: int) -> Seq<char>
    decreases sp.len() - i,
{
    if 0 <= i < sp.len() {
        concat_words(ws, split_start(sp, 0, i), sp[i] as int) + seq!['\n'] + lines_of(
            ws,
            sp,
            i + 1,
        )
    } else {
        Seq::empty()
    }
}

/// The chosen line breaks for a paragraph.
pub open spec fn par_splits(par: Seq<char>, max: u16) -> Seq<usize> {
    spec_splits(widths_of(spec_words(par).map_values(|w: Seq<char>| word_box(w))), max, 0)
}

/// The hard-wrapped rendering of one paragraph.
pub open spec fn render_par(par: Seq<char>, max: u16) -> Seq<char> {
    lines_of(spec_words(par), par_splits(par, max), 0)
}

/// The hard-wrapped rendering of paragraphs `i ..` of a text.
pub open spec fn render_text(ps: Seq<Seq<char>>, max: u16, i: int) -> Seq<char>
    decreases ps.len() - i,
{
    if 0 <= i < ps.len() {
        render_par(ps[i], max) + render_text(ps, max, i + 1)
    } else {
        Seq::empty()
    }
}

/// The number of hard-wrapped lines of paragraphs `i ..` of a text.
pub open spec fn count_lines(ps: Seq<Seq<char>>, max: u16, i: int) -> int
    decreases ps.len() - i,
{
    if 0 <= i < ps.len() {
        par_splits(ps[i], max).len() + count_lines(ps, max, i + 1)
    } else {
        0
    }
}

/// A front scan that saw no newline before `i` pins down `find_nl`.
proof fn lemma_find_nl_at(s: Seq<char>, i: int)
    requires
        0 <= i <= s.len(),
        forall|j: int| 0 <= j < i ==> s[j] != '\n',
        i < s.len() ==> s[i] == '\n',
    ensures
        find_nl(s) == if i < s.len() {
            i
        } else {
            -1
        },
    decreases s.len(),
{
    if s.len() == 0 {
    } else if s[0] == '\n' {
        assert(i == 0);
    } else {
        let s2 = s.drop_first();
        assert forall|j: int| 0 <= j < i - 1 implies s2[j] != '\n' by {
            assert(s2[j] == s[j + 1]);
        }
        if i - 1 < s2.len() && i >= 1 {
            assert(s2[i - 1] == s[i]);
        }
        lemma_find_nl_at(s2, if i >= 1 {
            i - 1
        } else {
            0
        });
    }
}

/// A front scan that saw no white space before `i` pins down `find_sp`.
proof fn lemma_find_sp_at(s: Seq<char>, i: int)
    requires
        0 <= i <= s.len(),
        forall|j: int| 0 <= j < i ==> !spec_is_space(#[trigger] s[j]),
        i < s.len() ==> spec_is_space(s[i]),
    ensures
        find_sp(s) == if i < s.len() {
            i
        } else {
            -1
        },
    decreases s.len(),
{
    if s.len() == 0 {
    } else if spec_is_space(s[0]) {
        assert(i == 0);
    } else {
        let s2 = s.drop_first();
        assert forall|j: int| 0 <= j < i - 1 implies !spec_is_space(#[trigger] s2[j]) by {
            assert(s2[j] == s[j + 1]);
        }
        if i - 1 < s2.len() && i >= 1 {
            assert(s2[i - 1] == s[i]);
        }
        lemma_find_sp_at(s2, if i >= 1 {
            i - 1
        } else {
            0
        });
    }
}

/// Splits a text buffer at newlines.
fn split_paragraphs(cv: &Vec<char>) -> (r: Vec<Vec<char>>)
    ensures
        r@.map_values(|v: Vec<char>| v@) == spec_paragraphs(cv@),
{
    let n = cv.len();
    let mut out: Vec<Vec<char>> = Vec::new();
    let mut start: usize = 0;
    proof {
        assert(cv@.skip(0) =~= cv@);
    }
    loop
        invariant_except_break
            out@.map_values(|v: Vec<char>| v@) + spec_paragraphs(cv@.skip(start as int))
                == spec_paragraphs(cv@),
        invariant
            0 <= start <= n,
            n == cv@.len(),
        ensures
            out@.map_values(|v: Vec<char>| v@) == spec_paragraphs(cv@),
        decreases n - start,
    {
        let ghost rest = cv@.skip(start as int);
        // scan for the next newline
        let mut j: usize = start;
        while j < n && cv[j] != '\n'
            invariant
                start <= j <= n,
                n == cv@.len(),
                forall|k: int| start <= k < j ==> cv@[k] != '\n',
            decreases n - j,
        {
            j += 1;
        }
        proof {
            assert forall|k: int| 0 <= k < j - start implies rest[k] != '\n' by {
                assert(rest[k] == cv@[k + start]);
            }
            if j < n {
                assert(rest[j - start] == cv@[j as int]);
            }
            lemma_find_nl_at(rest, j - start);
        }
        // copy the paragraph
        let mut par: Vec<char> = Vec::new();
        let mut k: usize = start;
        while k < j
            invariant
                start <= k <= j <= n,
                n == cv@.len(),
                par@ == cv@.subrange(start as int, k as int),
            decreases j - k,
        {
            par.push(cv[k]);
            proof {
                assert(par@ =~= cv@.subrange(start as int, k + 1));
            }
            k += 1;
        }
        proof {
            assert(par@ =~= rest.take(j - start));
        }
        let ghost out_pre = out@;
        out.push(par);
        proof {
            assert(out@.map_values(|v: Vec<char>| v@) =~= out_pre.map_values(|v: Vec<char>| v@)
                + seq![rest.take(j - start)]);
        }
        if j == n {
            proof {
                assert(spec_paragraphs(rest) == seq![rest]);
                assert(rest.take(j - start) =~= rest);
            }
            break ;
        }
        proof {
            assert(spec_paragraphs(rest) == seq![rest.take(j - start)] + spec_paragraphs(
                rest.skip(j - start + 1),
            ));
            assert(rest.skip(j - start + 1) =~= cv@.skip(j + 1));
        }
        start = j + 1;
    }
    out
}

/// Splits a paragraph after each white-space character.
fn split_words(par: &Vec<char>) -> (r: Vec<Vec<char>>)
    ensures
        r@.map_values(|v: Vec<char>| v@) == spec_words(par@),
        forall|i: int| 0 <= i < r@.len() ==> (#[trigger] r@[i])@.len() > 0,
{
    let n = par.len();
    let mut out: Vec<Vec<char>> = Vec::new();
    let mut start: usize = 0;
    proof {
        assert(par@.skip(0) =~= par@);
    }
    while start < n
        invariant
            0 <= start <= n,
            n == par@.len(),
            out@.map_values(|v: Vec<char>| v@) + spec_words(par@.skip(start as int)) == spec_words(
                par@,
            ),
            forall|i: int| 0 <= i < out@.len() ==> (#[trigger] out@[i])@.len() > 0,
        decreases n - start,
    {
        let ghost rest = par@.skip(start as int);
        // scan for the next white-space character
        let mut j: usize = start;
        while j < n && !is_space(par[j])
            invariant
                start <= j <= n,
                n == par@.len(),
                forall|k: int| start <= k < j ==> !spec_is_space(#[trigger] par@[k]),
            decreases n - j,
        {
            j += 1;
        }
        proof {
            assert forall|k: int| 0 <= k < j - start implies !spec_is_space(
                #[trigger] rest[k],
            ) by {
                assert(rest[k] == par@[k + start]);
            }
            if j < n {
                assert(rest[j - start] == par@[j as int]);
            }
            lemma_find_sp_at(rest, j - start);
        }
        let end = if j < n {
            j + 1
        } else {
            n
        };
        // copy the word
        let mut word: Vec<char> = Vec::new();
        let mut k: usize = start;
        while k < end
            invariant
                start <= k <= end <= n,
                n == par@.len(),
                word@ == par@.subrange(start as int, k as int),
            decreases end - k,
        {
            word.push(par[k]);
            proof {
                assert(word@ =~= par@.subrange(start as int, k + 1));
            }
            k += 1;
        }
        let ghost out_pre = out@;
        out.push(word);
        proof {
            assert(rest.len() > 0);
            if j < n {
                assert(spec_words(rest) == seq![rest.take(j - start + 1)] + spec_words(
                    rest.skip(j - start + 1),
                ));
                assert(par@.subrange(start as int, end as int) =~= rest.take(j - start + 1));
                assert(rest.skip(j - start + 1) =~= par@.skip(end as int));
            } else {
                assert(spec_words(rest) == seq![rest]);
                assert(par@.subrange(start as int, end as int) =~= rest);
                assert(par@.skip(end as int) =~= Seq::<char>::empty());
                assert(spec_words(par@.skip(end as int)) == Seq::<Seq<char>>::empty());
            }
            assert(out@.map_values(|v: Vec<char>| v@) =~= out_pre.map_values(
                |v: Vec<char>| v@,
            ) + seq![par@.subrange(start as int, end as int)]);
        }
        start = end;
    }
    proof {
        assert(par@.skip(n as int) =~= Seq::<char>::empty());
        assert(spec_words(par@.skip(n as int)) == Seq::<Seq<char>>::empty());
        assert(out@.map_values(|v: Vec<char>| v@) =~= spec_words(par@));
    }
    out
}

/// Writes the hard-wrapped lines of one paragraph's words to `out`, one
/// newline after each, and counts them.
fn render_lines(words: &Vec<Vec<char>>, splits: &Vec<usize>, out: &mut Vec<char>, count: usize) -> (rc: usize)
    requires
        forall|i: int|
            0 <= i < splits@.len() ==> split_start(splits@, 0, i) < #[trigger] splits@[i]
                <= words@.len(),
        count <= old(out)@.len(),
    ensures
        final(out)@ == old(out)@ + lines_of(words@.map_values(|v: Vec<char>| v@), splits@, 0),
        rc == count + splits@.len(),
        rc <= final(out)@.len(),
{
    let ghost wsv = words@.map_values(|v: Vec<char>| v@);
    let ghost sp = splits@;
    let nw = words.len();
    let ns = splits.len();
    let mut cnt = count;
    let mut li: usize = 0;
    let mut a: usize = 0;
    while li < ns
        invariant
            nw == words@.len(),
            ns == splits@.len(),
            wsv == words@.map_values(|v: Vec<char>| v@),
            sp == splits@,
            forall|i: int|
                0 <= i < sp.len() ==> split_start(sp, 0, i) < #[trigger] sp[i] <= nw,
            0 <= li <= ns,
            a == split_start(sp, 0, li as int),
            a <= nw,
            out@ + lines_of(wsv, sp, li as int) == old(out)@ + lines_of(wsv, sp, 0),
            cnt == count + li,
            cnt <= out@.len(),
        decreases ns - li,
    {
        let b = splits[li];
        assert(a < b <= nw);
        let ghost out_line_start = out@;
        let mut k: usize = a;
        while k < b
            invariant
                nw == words@.len(),
                a <= k <= b <= nw,
                wsv == words@.map_values(|v: Vec<char>| v@),
                out@ == out_line_start + concat_words(wsv, a as int, k as int),
            decreases b - k,
        {
            let word = &words[k];
            let wl = word.len();
            let mut c: usize = 0;
            while c < wl
                invariant
                    wl == word@.len(),
                    word == words@[k as int],
                    a <= k < b <= nw,
                    nw == words@.len(),
                    wsv == words@.map_values(|v: Vec<char>| v@),
                    0 <= c <= wl,
                    out@ == out_line_start + concat_words(wsv, a as int, k as int)
                        + word@.take(c as int),
                decreases wl - c,
            {
                out.push(word[c]);
                proof {
                    assert(out@ =~= out_line_start + concat_words(wsv, a as int, k as int)
                        + word@.take(c + 1));
                }
                c += 1;
            }
            proof {
                assert(word@.take(wl as int) =~= word@);
                assert(wsv[k as int] == word@);
                assert(concat_words(wsv, a as int, k + 1) == concat_words(wsv, a as int, k as int)
                    + wsv[k as int]);
                assert(out@ =~= out_line_start + concat_words(wsv, a as int, k + 1));
            }
            k += 1;
        }
        proof {
            lemma_concat_words_len(wsv, a as int, b as int);
        }
        out.push('\n');
        let ol = out.len();
        assert(cnt < ol);
        cnt = cnt + 1;
        proof {
            assert(out@ =~= out_line_start + (concat_words(wsv, a as int, b as int)
                + seq!['\n']));
            assert(lines_of(wsv, sp, li as int) == concat_words(
                wsv,
                split_start(sp, 0, li as int),
                sp[li as int] as int,
            ) + seq!['\n'] + lines_of(wsv, sp, li + 1));
        }
        a = b;
        li += 1;
    }
    proof {
        assert(lines_of(wsv, sp, ns as int) == Seq::<char>::empty());
        assert(out@ + Seq::<char>::empty() =~= out@);
    }
    cnt
}

/// Concatenated words have nonnegative length.
proof fn lemma_concat_words_len(ws: Seq<Seq<char>>, a: int, b: int)
    requires
        a <= b,
    ensures
        concat_words(ws, a, b).len() >= 0,
    decreases b - a,
{
    if a < b {
        lemma_concat_words_len(ws, a, b - 1);
    }
}

/// Applies the line distributor to running text: each paragraph's words are
/// broken into minimal-badness lines, every line is ended with a newline,
/// and the number of lines is reported alongside the wrapped text.
pub fn distribute_text(text: &str, max_width: u16) -> (r: (String, usize))
    requires
        text@.len() < usize::MAX,
    ensures
        r.0@ == render_text(spec_paragraphs(text@), max_width, 0),
        r.1 == count_lines(spec_paragraphs(text@), max_width, 0),
{
    let cv = chars_of(text);
    let pars = split_paragraphs(&cv);
    let ghost ps = spec_paragraphs(text@);
    let mut out: Vec<char> = Vec::new();
    let mut count: usize = 0;
    let np = pars.len();
    let mut p: usize = 0;
    while p < np
        invariant
            np == pars@.len(),
            pars@.map_values(|v: Vec<char>| v@) == ps,
            ps == spec_paragraphs(text@),
            text@.len() < usize::MAX,
            0 <= p <= np,
            out@ + render_text(ps, max_width, p as int) == render_text(ps, max_width, 0),
            count + count_lines(ps, max_width, p as int) == count_lines(ps, max_width, 0),
            count <= out@.len(),
        decreases np - p,
    {
        let ghost par = ps[p as int];
        let words = split_words(&pars[p]);
        proof {
            assert(pars@[p as int]@ == par);
        }
        let nw = words.len();
        let mut boxes: Vec<VisualBox> = Vec::new();
        let mut w: usize = 0;
        while w < nw
            invariant
                nw == words@.len(),
                0 <= w <= nw,
                boxes@.len() == w,
                forall|i: int|
                    0 <= i < w ==> #[trigger] boxes@[i] == word_box(words@[i]@),
            decreases nw - w,
        {
            let bw = #[verifier::truncate] (words[w].len() as u16);
            boxes.push(VisualBox::new(bw, 1));
            w += 1;
        }
        proof {
            assert(boxes@ =~= words@.map_values(|v: Vec<char>| v@).map_values(
                |wd: Seq<char>| word_box(wd),
            ));
        }
        // words are nonempty, so there are fewer of them than the text is long
        proof {
            lemma_words_bound(words@.map_values(|v: Vec<char>| v@), par);
            lemma_pars_bound(text@);
            assert((#[trigger] spec_paragraphs(text@)[p as int]).len() <= text@.len());
            assert(par.len() <= text@.len());
        }
        let splits = get_splits(max_width, boxes.as_slice());
        let ghost sp = par_splits(par, max_width);
        proof {
            assert(splits@ == sp);
            lemma_splits_shape(
                widths_of(spec_words(par).map_values(|wd: Seq<char>| word_box(wd))),
                max_width,
                0,
            );
        }
        proof {
            assert(widths_of(spec_words(par).map_values(|wd: Seq<char>| word_box(wd))).len()
                == words@.len());
        }
        let new_count = render_lines(&words, &splits, &mut out, count);
        count = new_count;
        proof {
            assert(render_text(ps, max_width, p as int) == render_par(par, max_width)
                + render_text(ps, max_width, p + 1));
        }
        p += 1;
    }
    proof {
        assert(render_text(ps, max_width, np as int) == Seq::<char>::empty());
        assert(out@ + Seq::<char>::empty() =~= out@);
        assert(count_lines(ps, max_width, np as int) == 0);
    }
    let s = chars_to_string(&out);
    (s, count)
}

/// Every paragraph fits in the text it came from.
proof fn lemma_pars_bound(text: Seq<char>)
    ensures
        forall|i: int|
            0 <= i < spec_paragraphs(text).len() ==> (#[trigger] spec_paragraphs(text)[i]).len()
                <= text.len(),
    decreases text.len(),
{
    let i = find_nl(text);
    if 0 <= i < text.len() {
        lemma_pars_bound(text.skip(i + 1));
        let ps = spec_paragraphs(text);
        let rest = spec_paragraphs(text.skip(i + 1));
        assert forall|j: int| 0 <= j < ps.len() implies (#[trigger] ps[j]).len()
            <= text.len() by {
            if j == 0 {
                assert(ps[0] == text.take(i));
            } else {
                assert(ps[j] == rest[j - 1]);
            }
        }
    }
}

/// A paragraph has at least as many characters as words, since every word
/// holds at least one.
proof fn lemma_words_bound(ws: Seq<Seq<char>>, par: Seq<char>)
    requires
        ws == spec_words(par),
    ensures
        ws.len() <= par.len(),
    decreases par.len(),
{
    if par.len() == 0 {
    } else {
        let i = find_sp(par);
        if 0 <= i < par.len() {
            lemma_words_bound(spec_words(par.skip(i + 1)), par.skip(i + 1));
        }
    }
}

} // verus!
