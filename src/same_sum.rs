use vstd::prelude::*;

use crate::suffix::{IterExt, SliceIter};

verus! {

/// The window size used by `all_same_sum_tuples`.
pub const WIN_SIZE: usize = 5;

/// A contiguous range of the input: `len` elements from index `start` on.
#[derive(Clone, Copy, Debug, PartialEq, Eq, Structural)]
pub struct Span {
    pub start: usize,
    pub len: usize,
}

impl Span {
    /// The elements of `data` that the span covers, borrowed from it.
    pub fn slice_of<'a>(&self, data: &'a [u32]) -> (r: &'a [u32])
        requires
            self.start + self.len <= data@.len(),
        ensures
            r@ == data@.subrange(self.start as int, self.start + self.len),
    {
        let n = data.len();
        assert(self.start + self.len <= n);
        vstd::slice::slice_subrange(data, self.start, self.start + self.len)
    }
}

/// A window of the input together with the candidate chosen for it.
#[derive(Clone, Copy, Debug, PartialEq, Eq, Structural)]
pub struct SumMatch {
    pub window: Span,
    pub candidate: Span,
}

/// Sum of the elements of `d` at indices `a` up to, not including, `b`.
pub open spec fn range_sum(d: Seq<u32>, a: int, b: int) -> int
    decreases b - a,
{
    if b <= a {
        0
    } else {
        range_sum(d, a, b - 1) + d[b - 1] as int
    }
}

/// The `len` elements from `j` on lie at or after `lo`, within `d`, and sum to `t`.
pub open spec fn is_candidate(d: Seq<u32>, lo: int, t: int, j: int, len: int) -> bool {
    &&& lo <= j
    &&& 1 <= len
    &&& j + len <= d.len()
    &&& range_sum(d, j, j + len) == t
}

/// Range `(j, len)` is preferred to `(j2, len2)` or equal to it: it is longer, or as long
/// and starts no earlier.
pub open spec fn ranks_above(j: int, len: int, j2: int, len2: int) -> bool {
    len2 < len || (len2 == len && j2 <= j)
}

/// `(j, len)` is the candidate preferred over every other one.
pub open spec fn is_best_candidate(d: Seq<u32>, lo: int, t: int, j: int, len: int) -> bool {
    &&& is_candidate(d, lo, t, j, len)
    &&& forall|j2: int, len2: int|
        #[trigger] is_candidate(d, lo, t, j2, len2) ==> ranks_above(j, len, j2, len2)
}

/// Sum of the window of `w` elements that starts at `s`.
pub open spec fn window_sum(d: Seq<u32>, s: int, w: int) -> int {
    range_sum(d, s, s + w)
}

/// Some range after the window at `s` sums to the window's sum.
pub open spec fn has_candidate(d: Seq<u32>, s: int, w: int) -> bool {
    exists|j: int, len: int| #[trigger] is_candidate(d, s + w, window_sum(d, s, w), j, len)
}

/// The preferred candidate of the window at `s`.
pub open spec fn best_of(d: Seq<u32>, s: int, w: int) -> Span {
    choose|c: Span|
        is_best_candidate(d, s + w, window_sum(d, s, w), c.start as int, c.len as int)
}

/// The matches of the windows that start before `s`, in order of their start.
pub open spec fn matches_before(d: Seq<u32>, w: int, s: int) -> Seq<SumMatch>
    decreases s,
{
    if s <= 0 {
        seq![]
    } else {
        let prev = matches_before(d, w, s - 1);
        if has_candidate(d, s - 1, w) {
            prev.push(
                SumMatch {
                    window: Span { start: (s - 1) as usize, len: w as usize },
                    candidate: best_of(d, s - 1, w),
                },
            )
        } else {
            prev
        }
    }
}

/// Every window of `w` elements of `d` that has a candidate, in order of its start, with
/// its preferred candidate. A window size of zero yields nothing.
pub open spec fn same_sum_spec(d: Seq<u32>, w: int) -> Seq<SumMatch> {
    if w <= 0 || w > d.len() {
        seq![]
    } else {
        matches_before(d, w, d.len() - w + 1)
    }
}

/// Extending a range never lowers its sum.
pub proof fn lemma_range_sum_monotone(d: Seq<u32>, a: int, b: int, c: int)
    requires
        a <= b <= c,
    ensures
        range_sum(d, a, b) <= range_sum(d, a, c),
    decreases c - b,
{
    if b < c {
        lemma_range_sum_monotone(d, a, b, c - 1);
    }
}

/// A range of one element sums to that element.
pub proof fn lemma_range_sum_single(d: Seq<u32>, a: int)
    ensures
        range_sum(d, a, a + 1) == d[a] as int,
{
    assert(range_sum(d, a, a) == 0);
}

/// A range sums to at most its length times the largest `u32`.
pub proof fn lemma_range_sum_bound(d: Seq<u32>, a: int, b: int)
    requires
        a <= b,
    ensures
        0 <= range_sum(d, a, b) <= (b - a) * 0xFFFF_FFFF,
    decreases b - a,
{
    if a < b {
        lemma_range_sum_bound(d, a, b - 1);
        assert((b - 1 - a) * 0xFFFF_FFFF + 0xFFFF_FFFF == (b - a) * 0xFFFF_FFFF) by (nonlinear_arith);
    }
}

/// Two preferred candidates of one window are the same range.
pub proof fn lemma_best_unique(d: Seq<u32>, lo: int, t: int, j1: int, len1: int, j2: int, len2: int)
    requires
        is_best_candidate(d, lo, t, j1, len1),
        is_best_candidate(d, lo, t, j2, len2),
    ensures
        j1 == j2,
        len1 == len2,
{
    assert(is_candidate(d, lo, t, j2, len2));
    assert(is_candidate(d, lo, t, j1, len1));
}

/// Sum of the elements from `s` up to, not including, `end`.
fn window_total(data: &[u32], s: usize, end: usize) -> (r: u128)
    requires
        s <= end <= data@.len(),
    ensures
        r as int == range_sum(data@, s as int, end as int),
        r as int <= (end - s) * 0xFFFF_FFFF,
{
    let mut acc: u128 = 0;
    let mut i: usize = s;
    while i < end
        invariant
            s <= i <= end <= data@.len(),
            acc as int == range_sum(data@, s as int, i as int),
        decreases end - i,
    {
        proof {
            lemma_range_sum_bound(data@, s as int, i as int);
            assert((i - s) * 0xFFFF_FFFF + 0xFFFF_FFFF <= 0x1_0000_0000_0000_0000 * 0x1_0000_0000)
                by (nonlinear_arith)
                requires
                    i - s < 0x1_0000_0000_0000_0000,
            ;
        }
        acc = acc + data[i] as u128;
        i = i + 1;
    }
    proof {
        lemma_range_sum_bound(data@, s as int, end as int);
    }
    acc
}

/// The longest range that starts at `j`, stays within `d` and sums to at most `t`: its
/// length and sum, where `d[j] <= t`.
fn longest_within(data: &[u32], j: usize, first: u32, rest: SliceIter<'_, u32>, t: u128) -> (r: (
    usize,
    u128,
))
    requires
        j < data@.len(),
        first == data@[j as int],
        first as int <= t,
        t <= 0x1_0000_0000_0000_0000 * 0x1_0000_0000,
        rest.wf(),
        rest.origin() == data@,
        rest.index() == j + 1,
    ensures
        1 <= r.0,
        j + r.0 <= data@.len(),
        r.1 as int == range_sum(data@, j as int, j + r.0),
        r.1 <= t,
        j + r.0 == data@.len() || range_sum(data@, j as int, j + r.0 + 1) > t,
{
    let mut rest = rest;
    let mut acc: u128 = first as u128;
    let mut len: usize = 1;
    let mut stop = false;
    let n = data.len();
    proof {
        lemma_range_sum_single(data@, j as int);
    }
    while !stop
        invariant
            n == data@.len(),
            rest.wf(),
            rest.origin() == data@,
            1 <= len,
            j + len <= data@.len(),
            !stop ==> rest.index() == j + len,
            acc as int == range_sum(data@, j as int, j + len),
            acc <= t,
            t <= 0x1_0000_0000_0000_0000 * 0x1_0000_0000,
            stop ==> (j + len == data@.len() || range_sum(data@, j as int, j + len + 1) > t),
        decreases data@.len() - (j + len) + if stop { 0int } else { 1int },
    {
        match rest.next() {
            None => {
                stop = true;
            },
            Some(y) => {
                if acc + y as u128 > t {
                    stop = true;
                } else {
                    acc = acc + y as u128;
                    len = len + 1;
                }
            },
        }
    }
    (len, acc)
}

/// The preferred candidate among the ranges that start at or after `lo` and sum to `t`:
/// the longest, and of the longest the last.
fn best_candidate(data: &[u32], lo: usize, t: u128) -> (r: Option<Span>)
    requires
        lo <= data@.len(),
        t <= 0x1_0000_0000_0000_0000 * 0x1_0000_0000,
    ensures
        r matches Some(c) ==> is_best_candidate(data@, lo as int, t as int, c.start as int, c.len as int),
        r is None ==> forall|j: int, len: int| !#[trigger] is_candidate(data@, lo as int, t as int, j, len),
{
    let mut pairs = SliceIter::starting_at(data, lo).with_iter();
    let mut best: Option<Span> = None;
    let ghost d = data@;
    let ghost tt = t as int;
    while pairs.position() < data.len()
        invariant
            pairs.source().wf(),
            pairs.source().origin() == d,
            lo <= pairs.source().index(),
            d == data@,
            tt == t as int,
            t <= 0x1_0000_0000_0000_0000 * 0x1_0000_0000,
            best matches Some(c) ==> {
                &&& is_candidate(d, lo as int, tt, c.start as int, c.len as int)
                &&& forall|j2: int, len2: int|
                    j2 < pairs.source().index() && #[trigger] is_candidate(d, lo as int, tt, j2, len2)
                        ==> ranks_above(c.start as int, c.len as int, j2, len2)
            },
            best is None ==> forall|j2: int, len2: int|
                j2 < pairs.source().index() ==> !#[trigger] is_candidate(d, lo as int, tt, j2, len2),
        decreases d.len() - pairs.source().index(),
    {
        let j = pairs.position();
        match pairs.next() {
            None => {},
            Some((x, rest)) => {
                if x as u128 <= t {
                    let (len, acc) = longest_within(data, j, x, rest, t);
                    proof {
                        assert forall|len2: int| #[trigger] is_candidate(d, lo as int, tt, j as int, len2)
                            implies len2 <= len && acc == t by {
                            if len2 > len {
                                lemma_range_sum_monotone(d, j as int, j + len + 1, j + len2);
                            } else {
                                lemma_range_sum_monotone(d, j as int, j + len2, j + len);
                            }
                        }
                    }
                    if acc == t {
                        let replace = match best {
                            None => true,
                            Some(c) => len >= c.len,
                        };
                        if replace {
                            best = Some(Span { start: j, len });
                        }
                    }
                } else {
                    proof {
                        assert forall|len2: int|
                            !#[trigger] is_candidate(d, lo as int, tt, j as int, len2) by {
                            if 1 <= len2 && j + len2 <= d.len() {
                                lemma_range_sum_single(d, j as int);
                                lemma_range_sum_monotone(d, j as int, j + 1, j + len2);
                            }
                        }
                    }
                }
            },
        }
    }
    best
}

/// For every window of `w` elements, in order of its start, the window paired with its
/// preferred candidate: the longest range after the window that sums to the window's sum,
/// and of the longest the last. Windows without a candidate are left out; a window size
/// of zero gives nothing.
pub fn same_sum_tuples(data: &[u32], w: usize) -> (r: Vec<SumMatch>)
    ensures
        r@ == same_sum_spec(data@, w as int),
{
    let mut out: Vec<SumMatch> = Vec::new();
    let n = data.len();
    if w == 0 || w > n {
        return out;
    }
    let mut s: usize = 0;
    while s <= n - w
        invariant
            n == data@.len(),
            1 <= w <= n,
            s <= n - w + 1,
            out@ == matches_before(data@, w as int, s as int),
        decreases n - w + 1 - s,
    {
        let t = window_total(data, s, s + w);
        proof {
            assert(w * 0xFFFF_FFFF <= 0x1_0000_0000_0000_0000 * 0x1_0000_0000) by (nonlinear_arith)
                requires
                    w < 0x1_0000_0000_0000_0000,
            ;
        }
        let found = best_candidate(data, s + w, t);
        proof {
            let d = data@;
            let tt = window_sum(d, s as int, w as int);
            assert(t as int == tt);
            match found {
                Some(c) => {
                    assert(is_candidate(d, s + w, tt, c.start as int, c.len as int));
                    assert(has_candidate(d, s as int, w as int));
                    let b = best_of(d, s as int, w as int);
                    assert(is_best_candidate(d, s + w, tt, b.start as int, b.len as int));
                    lemma_best_unique(d, s + w, tt, c.start as int, c.len as int, b.start as int, b.len as int);
                    assert(b == c);
                },
                None => {
                    assert(!has_candidate(d, s as int, w as int));
                },
            }
        }
        match found {
            Some(c) => {
                out.push(SumMatch { window: Span { start: s, len: w }, candidate: c });
            },
            None => {},
        }
        s = s + 1;
    }
    out
}

/// `same_sum_tuples` with windows of `WIN_SIZE` elements.
pub fn all_same_sum_tuples(data: &[u32]) -> (r: Vec<SumMatch>)
    ensures
        r@ == same_sum_spec(data@, WIN_SIZE as int),
{
    same_sum_tuples(data, WIN_SIZE)
}

/// A number that orders ranges as `ranks_above` does, for ranges within `d`.
pub open spec fn rank_key(d: Seq<u32>, j: int, len: int) -> int {
    len * (d.len() + 1) + j
}

proof fn lemma_rank_key(d: Seq<u32>, j: int, len: int, j2: int, len2: int)
    requires
        0 <= j <= d.len(),
        0 <= j2 <= d.len(),
        rank_key(d, j2, len2) <= rank_key(d, j, len),
    ensures
        ranks_above(j, len, j2, len2),
{
    let m = d.len() + 1;
    if len2 > len {
        assert(len2 * m >= (len + 1) * m) by (nonlinear_arith)
            requires
                len2 >= len + 1,
                m > 0,
        ;
        assert((len + 1) * m == len * m + m) by (nonlinear_arith);
    } else if len2 == len {
    }
}

proof fn lemma_best_exists_from(d: Seq<u32>, lo: int, t: int, k: int)
    requires
        0 <= lo,
        exists|j: int, len: int| #[trigger] is_candidate(d, lo, t, j, len) && rank_key(d, j, len) >= k,
    ensures
        exists|j: int, len: int| #[trigger] is_best_candidate(d, lo, t, j, len),
    decreases (d.len() + 1) * (d.len() + 1) - k,
{
    let (j, len) = choose|j: int, len: int| #[trigger] is_candidate(d, lo, t, j, len) && rank_key(d, j, len) >= k;
    let m = d.len() + 1;
    assert(len * m + j < m * m) by (nonlinear_arith)
        requires
            len <= m - 1,
            0 <= j < m - 1,
            m >= 1,
    ;
    if exists|j2: int, len2: int| #[trigger] is_candidate(d, lo, t, j2, len2) && rank_key(d, j2, len2) >= k + 1 {
        lemma_best_exists_from(d, lo, t, k + 1);
    } else {
        assert forall|j2: int, len2: int| #[trigger] is_candidate(d, lo, t, j2, len2) implies ranks_above(j, len, j2, len2) by {
            lemma_rank_key(d, j, len, j2, len2);
        }
        assert(is_best_candidate(d, lo, t, j, len));
    }
}

/// Where a window has a candidate, `best_of` is its preferred candidate.
pub proof fn lemma_best_of(d: Seq<u32>, s: int, w: int)
    requires
        d.len() <= usize::MAX,
        0 <= s,
        0 <= w,
        has_candidate(d, s, w),
    ensures
        is_best_candidate(d, s + w, window_sum(d, s, w), best_of(d, s, w).start as int, best_of(d, s, w).len as int),
{
    let t = window_sum(d, s, w);
    let (j0, len0) = choose|j: int, len: int| #[trigger] is_candidate(d, s + w, t, j, len);
    lemma_best_exists_from(d, s + w, t, rank_key(d, j0, len0));
    let (j, len) = choose|j: int, len: int| #[trigger] is_best_candidate(d, s + w, t, j, len);
    let c = Span { start: j as usize, len: len as usize };
    assert(is_best_candidate(d, s + w, t, c.start as int, c.len as int));
}

/// `m` pairs a window of `w` elements of `d` with that window's preferred candidate.
pub open spec fn is_match_of(d: Seq<u32>, w: int, m: SumMatch) -> bool {
    &&& m.window.len == w
    &&& m.window.start + w <= d.len()
    &&& is_best_candidate(
        d,
        m.window.start + w,
        window_sum(d, m.window.start as int, w),
        m.candidate.start as int,
        m.candidate.len as int,
    )
}

proof fn lemma_matches_before(d: Seq<u32>, w: int, s: int)
    requires
        d.len() <= usize::MAX,
        0 <= w,
        s + w <= d.len() + 1,
    ensures
        forall|i: int| 0 <= i < matches_before(d, w, s).len() ==> {
            &&& #[trigger] matches_before(d, w, s)[i].window.start < s
            &&& is_match_of(d, w, matches_before(d, w, s)[i])
        },
        forall|i: int, k: int| 0 <= i < k < matches_before(d, w, s).len() ==>
            #[trigger] matches_before(d, w, s)[i].window.start < #[trigger] matches_before(d, w, s)[k].window.start,
    decreases s,
{
    if s > 0 {
        lemma_matches_before(d, w, s - 1);
        let prev = matches_before(d, w, s - 1);
        let cur = matches_before(d, w, s);
        if has_candidate(d, s - 1, w) {
            lemma_best_of(d, s - 1, w);
            let m = SumMatch {
                window: Span { start: (s - 1) as usize, len: w as usize },
                candidate: best_of(d, s - 1, w),
            };
            assert(cur == prev.push(m));
            assert(is_match_of(d, w, m));
            assert forall|i: int| 0 <= i < cur.len() implies {
                &&& #[trigger] cur[i].window.start < s
                &&& is_match_of(d, w, cur[i])
            } by {
                if i < prev.len() {
                    assert(cur[i] == prev[i]);
                }
            }
            assert forall|i: int, k: int| 0 <= i < k < cur.len() implies
                #[trigger] cur[i].window.start < #[trigger] cur[k].window.start by {
                assert(cur[i] == prev[i]);
                if k < prev.len() {
                    assert(cur[k] == prev[k]);
                }
            }
        }
    }
}

/// Two runs on the same input and window size give the same result.
pub proof fn lemma_same_sum_deterministic(d: Seq<u32>, w: int, r1: Seq<SumMatch>, r2: Seq<SumMatch>)
    requires
        r1 == same_sum_spec(d, w),
        r2 == same_sum_spec(d, w),
    ensures
        r1 == r2,
{
}

/// The matches come in strictly ascending order of their window's start.
pub proof fn lemma_same_sum_ordered(d: Seq<u32>, w: int, i: int, k: int)
    requires
        d.len() <= usize::MAX,
        0 <= i < k < same_sum_spec(d, w).len(),
    ensures
        same_sum_spec(d, w)[i].window.start < same_sum_spec(d, w)[k].window.start,
{
    if 0 < w <= d.len() {
        lemma_matches_before(d, w, d.len() - w + 1);
    }
}

/// Each reported candidate lies after its window, within the input, and sums to
/// exactly the window's sum.
pub proof fn lemma_same_sum_exact(d: Seq<u32>, w: int, i: int)
    requires
        d.len() <= usize::MAX,
        0 <= i < same_sum_spec(d, w).len(),
    ensures
        ({
            let m = same_sum_spec(d, w)[i];
            &&& m.window.len == w
            &&& m.window.start + w <= m.candidate.start
            &&& 1 <= m.candidate.len
            &&& m.candidate.start + m.candidate.len <= d.len()
            &&& range_sum(d, m.candidate.start as int, m.candidate.start + m.candidate.len)
                == range_sum(d, m.window.start as int, m.window.start + w)
        }),
{
    if 0 < w <= d.len() {
        lemma_matches_before(d, w, d.len() - w + 1);
        let m = same_sum_spec(d, w)[i];
        assert(is_match_of(d, w, m));
    }
}

/// An input no longer than one window gives no match.
pub proof fn lemma_same_sum_short_input(d: Seq<u32>, w: int)
    requires
        d.len() <= w,
    ensures
        same_sum_spec(d, w).len() == 0,
{
    if 0 < w && w == d.len() {
        assert(!has_candidate(d, 0, w));
        assert(matches_before(d, w, 0).len() == 0);
    }
}

/// Of two candidates of one window that are equally long, the later one is reported.
pub proof fn lemma_same_sum_later_wins_tie(d: Seq<u32>, w: int, i: int, j2: int)
    requires
        d.len() <= usize::MAX,
        0 <= i < same_sum_spec(d, w).len(),
        ({
            let m = same_sum_spec(d, w)[i];
            is_candidate(d, m.window.start + w, window_sum(d, m.window.start as int, w), j2, m.candidate.len as int)
        }),
    ensures
        j2 <= same_sum_spec(d, w)[i].candidate.start,
{
    if 0 < w <= d.len() {
        lemma_matches_before(d, w, d.len() - w + 1);
        let m = same_sum_spec(d, w)[i];
        assert(is_match_of(d, w, m));
    }
}

/// No candidate of a window is longer than the one reported for it.
pub proof fn lemma_same_sum_longest_wins(d: Seq<u32>, w: int, i: int, j2: int, len2: int)
    requires
        d.len() <= usize::MAX,
        0 <= i < same_sum_spec(d, w).len(),
        ({
            let m = same_sum_spec(d, w)[i];
            is_candidate(d, m.window.start + w, window_sum(d, m.window.start as int, w), j2, len2)
        }),
    ensures
        len2 <= same_sum_spec(d, w)[i].candidate.len,
{
    if 0 < w <= d.len() {
        lemma_matches_before(d, w, d.len() - w + 1);
        let m = same_sum_spec(d, w)[i];
        assert(is_match_of(d, w, m));
    }
}

proof fn lemma_matches_before_complete(d: Seq<u32>, w: int, s: int, q: int)
    requires
        d.len() <= usize::MAX,
        0 <= w,
        s + w <= d.len() + 1,
        0 <= q < s,
        has_candidate(d, q, w),
    ensures
        exists|i: int| 0 <= i < matches_before(d, w, s).len() && #[trigger] matches_before(d, w, s)[i].window.start == q,
    decreases s,
{
    let prev = matches_before(d, w, s - 1);
    let cur = matches_before(d, w, s);
    if q < s - 1 {
        lemma_matches_before_complete(d, w, s - 1, q);
        let i = choose|i: int| 0 <= i < prev.len() && #[trigger] prev[i].window.start == q;
        assert(cur[i] == prev[i]);
        assert(0 <= i < cur.len() && cur[i].window.start == q);
    } else {
        assert(cur.len() == prev.len() + 1);
        assert(cur[prev.len() as int].window.start == q);
    }
}

/// Every window that has a candidate is reported.
pub proof fn lemma_same_sum_complete(d: Seq<u32>, w: int, q: int)
    requires
        d.len() <= usize::MAX,
        0 < w,
        0 <= q,
        q + w <= d.len(),
        has_candidate(d, q, w),
    ensures
        exists|i: int| 0 <= i < same_sum_spec(d, w).len() && #[trigger] same_sum_spec(d, w)[i].window.start == q,
{
    lemma_matches_before_complete(d, w, d.len() - w + 1, q);
    assert(same_sum_spec(d, w) == matches_before(d, w, d.len() - w + 1));
}

} // verus!
