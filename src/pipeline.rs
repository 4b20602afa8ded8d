//! Cutting input into lines and sorting them stably in human-numeric order.

use vstd::prelude::*;

use core::cmp::Ordering;

use crate::args::Mode;
use crate::humnum::{compare_lines, humnum_order, lemma_antisymmetric};
use vstd::slice::slice_subrange;

verus! {

pub const NEWLINE: u8 = 10;

/// `ranges` cut `buf` into lines the way splitting after every `\n` does:
/// non-empty, consecutive, covering `buf` from start to end, each running up
/// to and including its first `\n`; only the last may lack one.
pub open spec fn is_line_split(buf: Seq<u8>, ranges: Seq<(usize, usize)>) -> bool {
    &&& (buf.len() == 0 <==> ranges.len() == 0)
    &&& ranges.len() > 0 ==> ranges[0].0 == 0 && ranges.last().1 == buf.len()
    &&& forall|i: int| 0 <= i < ranges.len() ==> #[trigger] ranges[i].0 < ranges[i].1 <= buf.len()
    &&& forall|i: int|
        0 <= i < ranges.len() - 1 ==> #[trigger] ranges[i].1 == ranges[i + 1].0 && buf[ranges[i].1
            - 1] == NEWLINE
    &&& forall|i: int, k: int|
        #![trigger ranges[i], buf[k]]
        0 <= i < ranges.len() && ranges[i].0 <= k < ranges[i].1 - 1 ==> buf[k] != NEWLINE
}

/// Every range lies within `buf`.
pub open spec fn ranges_within(buf: Seq<u8>, ranges: Seq<(usize, usize)>) -> bool {
    forall|i: int| 0 <= i < ranges.len() ==> #[trigger] ranges[i].0 <= ranges[i].1 <= buf.len()
}

/// The bytes of `buf` that `r` marks.
pub open spec fn line_at(buf: Seq<u8>, r: (usize, usize)) -> Seq<u8> {
    buf.subrange(r.0 as int, r.1 as int)
}

/// How line `x` of `ranges` compares with line `y`.
#[verifier::opaque]
pub open spec fn line_cmp(
    buf: Seq<u8>,
    ranges: Seq<(usize, usize)>,
    x: usize,
    y: usize,
    mode: Mode,
) -> Ordering {
    humnum_order(line_at(buf, ranges[x as int]), line_at(buf, ranges[y as int]), mode)
}

/// `order` lists every index below `n` exactly once.
pub open spec fn is_permutation(order: Seq<usize>, n: nat) -> bool {
    &&& order.len() == n
    &&& forall|i: int| 0 <= i < order.len() ==> #[trigger] order[i] < n
    &&& forall|i: int, j: int|
        0 <= i < order.len() && 0 <= j < order.len() && i != j ==> #[trigger] order[i]
            != #[trigger] order[j]
}

/// No line in `order` is directly followed by one that compares below it.
pub open spec fn is_sorted_by(
    buf: Seq<u8>,
    ranges: Seq<(usize, usize)>,
    order: Seq<usize>,
    mode: Mode,
) -> bool {
    forall|i: int|
        0 <= i < order.len() - 1 ==> #[trigger] line_cmp(buf, ranges, order[i], order[i + 1], mode)
            != Ordering::Greater
}

/// Lines that compare equal keep the order they had in `ranges`.
pub open spec fn is_stable(
    buf: Seq<u8>,
    ranges: Seq<(usize, usize)>,
    order: Seq<usize>,
    mode: Mode,
) -> bool {
    forall|i: int, j: int|
        0 <= i < j < order.len() && line_cmp(buf, ranges, #[trigger] order[i], #[trigger] order[j], mode)
            == Ordering::Equal ==> order[i] < order[j]
}

/// Splits `buf` after every `\n`, each line keeping its terminator; the last
/// line keeps whatever bytes remain.
pub fn split_lines(buf: &[u8]) -> (r: Vec<(usize, usize)>)
    ensures
        is_line_split(buf@, r@),
{
    let mut r: Vec<(usize, usize)> = Vec::new();
    let n = buf.len();
    let mut start: usize = 0;
    let mut i: usize = 0;
    while i < n
        invariant
            n == buf@.len(),
            start <= i <= n,
            r@.len() == 0 ==> start == 0,
            r@.len() > 0 ==> r@[0].0 == 0 && r@.last().1 == start,
            forall|j: int| 0 <= j < r@.len() ==> #[trigger] r@[j].0 < r@[j].1 <= start,
            forall|j: int|
                0 <= j < r@.len() - 1 ==> #[trigger] r@[j].1 == r@[j + 1].0,
            forall|j: int| 0 <= j < r@.len() ==> buf@[#[trigger] r@[j].1 - 1] == NEWLINE,
            forall|j: int, k: int|
                #![trigger r@[j], buf@[k]]
                0 <= j < r@.len() && r@[j].0 <= k < r@[j].1 - 1 ==> buf@[k] != NEWLINE,
            forall|k: int| start <= k < i ==> #[trigger] buf@[k] != NEWLINE,
        decreases n - i,
    {
        if buf[i] == NEWLINE {
            r.push((start, i + 1));
            start = i + 1;
        }
        i += 1;
    }
    if start < n {
        r.push((start, n));
    }
    r
}

fn line_slice<'a>(buf: &'a [u8], r: (usize, usize)) -> (out: &'a [u8])
    requires
        r.0 <= r.1 <= buf@.len(),
    ensures
        out@ == line_at(buf@, r),
{
    slice_subrange(buf, r.0, r.1)
}

proof fn lemma_insert_permutation(order: Seq<usize>, p: int, k: usize)
    requires
        0 <= p <= order.len(),
        is_permutation(order, k as nat),
    ensures
        is_permutation(order.insert(p, k), (k + 1) as nat),
{
    let s = order.insert(p, k);
    assert forall|i: int| 0 <= i < s.len() implies #[trigger] s[i] < k + 1 by {
        if i < p {
            assert(s[i] == order[i]);
        } else if i > p {
            assert(s[i] == order[i - 1]);
        }
    }
    assert forall|i: int, j: int|
        0 <= i < s.len() && 0 <= j < s.len() && i != j implies #[trigger] s[i] != #[trigger] s[j] by {
        let oi = if i < p { i } else { i - 1 };
        let oj = if j < p { j } else { j - 1 };
        if i != p {
            assert(s[i] == order[oi]);
        }
        if j != p {
            assert(s[j] == order[oj]);
        }
    }
}

/// Where line `k` compared below every line of `order` from `p` on, and not
/// below the one before `p`, putting it at `p` keeps `order` sorted.
proof fn lemma_insert_sorted(
    buf: Seq<u8>,
    ranges: Seq<(usize, usize)>,
    order: Seq<usize>,
    p: int,
    k: usize,
    mode: Mode,
)
    requires
        0 <= p <= order.len(),
        is_sorted_by(buf, ranges, order, mode),
        forall|q: int| p <= q < order.len() ==> line_cmp(buf, ranges, k, #[trigger] order[q], mode)
            == Ordering::Less,
        p == 0 || line_cmp(buf, ranges, order[p - 1], k, mode) != Ordering::Greater,
    ensures
        is_sorted_by(buf, ranges, order.insert(p, k), mode),
{
    let s = order.insert(p, k);
    assert forall|i: int| 0 <= i < s.len() - 1 implies #[trigger] line_cmp(buf, ranges, s[i], s[i + 1], mode)
        != Ordering::Greater by {
        if i + 1 < p {
            assert(s[i] == order[i] && s[i + 1] == order[i + 1]);
            assert(line_cmp(buf, ranges, order[i], order[i + 1], mode) != Ordering::Greater);
        } else if i + 1 == p {
            assert(s[i] == order[p - 1] && s[i + 1] == k);
        } else if i == p {
            assert(s[i] == k && s[i + 1] == order[p]);
        } else {
            assert(s[i] == order[i - 1] && s[i + 1] == order[i]);
            let h = i - 1;
            assert(line_cmp(buf, ranges, order[h], order[h + 1], mode) != Ordering::Greater);
        }
    }
}

/// Putting line `k`, later than every line of `order`, at `p`, where it
/// compares below every line from `p` on, keeps `order` stable.
proof fn lemma_insert_stable(
    buf: Seq<u8>,
    ranges: Seq<(usize, usize)>,
    order: Seq<usize>,
    p: int,
    k: usize,
    mode: Mode,
)
    requires
        0 <= p <= order.len(),
        forall|i: int| 0 <= i < order.len() ==> #[trigger] order[i] < k,
        is_stable(buf, ranges, order, mode),
        forall|q: int| p <= q < order.len() ==> line_cmp(buf, ranges, k, #[trigger] order[q], mode)
            == Ordering::Less,
    ensures
        is_stable(buf, ranges, order.insert(p, k), mode),
{
    let s = order.insert(p, k);
    assert forall|i: int, j: int|
        0 <= i < j < s.len() && line_cmp(buf, ranges, #[trigger] s[i], #[trigger] s[j], mode)
            == Ordering::Equal implies s[i] < s[j] by {
        if i != p && j != p {
            let oi = if i < p { i } else { i - 1 };
            let oj = if j < p { j } else { j - 1 };
            assert(s[i] == order[oi] && s[j] == order[oj]);
        } else if i == p {
            assert(s[j] == order[j - 1]);
        } else {
            assert(s[i] == order[i]);
        }
    }
}

proof fn lemma_flip_greater(
    buf: Seq<u8>,
    ranges: Seq<(usize, usize)>,
    order: Seq<usize>,
    p: int,
    k: usize,
    mode: Mode,
)
    requires
        forall|q: int| p <= q < order.len() ==> line_cmp(buf, ranges, #[trigger] order[q], k, mode)
            == Ordering::Greater,
    ensures
        forall|q: int| p <= q < order.len() ==> line_cmp(buf, ranges, k, #[trigger] order[q], mode)
            == Ordering::Less,
{
    reveal(line_cmp);
    assert forall|q: int| p <= q < order.len() implies line_cmp(buf, ranges, k, #[trigger] order[q], mode)
        == Ordering::Less by {
        lemma_antisymmetric(line_at(buf, ranges[order[q] as int]), line_at(buf, ranges[k as int]), mode);
    }
}

/// Sorts the lines that `ranges` marks in `buf` into human-numeric order
/// under `mode`, by insertion, and returns their indices in sorted order.
/// The sort is stable: lines that compare equal keep their input order.
pub fn sort_ranges(buf: &[u8], ranges: &Vec<(usize, usize)>, mode: Mode) -> (order: Vec<usize>)
    requires
        ranges_within(buf@, ranges@),
    ensures
        is_permutation(order@, ranges@.len()),
        is_sorted_by(buf@, ranges@, order@, mode),
        is_stable(buf@, ranges@, order@, mode),
{
    let mut order: Vec<usize> = Vec::new();
    let n = ranges.len();
    let mut k: usize = 0;
    while k < n
        invariant
            k <= n,
            n == ranges@.len(),
            ranges_within(buf@, ranges@),
            is_permutation(order@, k as nat),
            is_sorted_by(buf@, ranges@, order@, mode),
            is_stable(buf@, ranges@, order@, mode),
        decreases n - k,
    {
        let line = line_slice(buf, ranges[k]);
        let mut p = order.len();
        loop
            invariant
                k < n,
                n == ranges@.len(),
                ranges_within(buf@, ranges@),
                is_permutation(order@, k as nat),
                line@ == line_at(buf@, ranges@[k as int]),
                p <= order@.len(),
                forall|q: int|
                    p <= q < order@.len() ==> line_cmp(buf@, ranges@, #[trigger] order@[q], k, mode)
                        == Ordering::Greater,
            ensures
                p <= order@.len(),
                forall|q: int|
                    p <= q < order@.len() ==> line_cmp(buf@, ranges@, #[trigger] order@[q], k, mode)
                        == Ordering::Greater,
                p == 0 || line_cmp(buf@, ranges@, order@[p - 1], k, mode) != Ordering::Greater,
            decreases p,
        {
            if p == 0 {
                break;
            }
            let j = order[p - 1];
            let c = compare_lines(line_slice(buf, ranges[j]), line, mode);
            proof {
                reveal(line_cmp);
            }
            match c {
                Ordering::Greater => {
                    p -= 1;
                },
                _ => {
                    break;
                },
            }
        }
        proof {
            lemma_flip_greater(buf@, ranges@, order@, p as int, k, mode);
            lemma_insert_permutation(order@, p as int, k);
            lemma_insert_sorted(buf@, ranges@, order@, p as int, k, mode);
            lemma_insert_stable(buf@, ranges@, order@, p as int, k, mode);
        }
        order.insert(p, k);
        k += 1;
    }
    order
}

/// The ranges of `ranges`, in the arrangement that `order` gives them.
pub open spec fn arranged(ranges: Seq<(usize, usize)>, order: Seq<usize>) -> Seq<(usize, usize)> {
    Seq::new(order.len(), |i: int| ranges[order[i] as int])
}

/// Cuts `buf` into lines and sorts them stably into human-numeric order under
/// `mode`; returns where each line lies in `buf`, in sorted order.
pub fn humnum_sort(buf: &[u8], mode: Mode) -> (sorted: Vec<(usize, usize)>)
    ensures
        exists|ranges: Seq<(usize, usize)>, order: Seq<usize>|
            {
                &&& is_line_split(buf@, ranges)
                &&& is_permutation(order, ranges.len())
                &&& is_sorted_by(buf@, ranges, order, mode)
                &&& is_stable(buf@, ranges, order, mode)
                &&& sorted@ == arranged(ranges, order)
            },
{
    let ranges = split_lines(buf);
    let order = sort_ranges(buf, &ranges, mode);
    let mut sorted: Vec<(usize, usize)> = Vec::new();
    let mut i: usize = 0;
    while i < order.len()
        invariant
            i <= order@.len(),
            is_permutation(order@, ranges@.len()),
            sorted@ == arranged(ranges@, order@.take(i as int)),
        decreases order@.len() - i,
    {
        sorted.push(ranges[order[i]]);
        i += 1;
        proof {
            assert(sorted@ =~= arranged(ranges@, order@.take(i as int)));
        }
    }
    proof {
        assert(order@.take(i as int) =~= order@);
    }
    sorted
}

} // verus!
