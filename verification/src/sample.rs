//! Diagnostic views over a read-back series: the head, the 50 entries from
//! the midpoint, and the tail in reverse-storage order.

use vstd::prelude::*;

verus! {

/// The first `n` elements of `s`, or all of them when there are fewer.
pub open spec fn up_to<A>(s: Seq<A>, n: int) -> Seq<A> {
    if s.len() <= n {
        s
    } else {
        s.take(n)
    }
}

/// The three diagnostic slices of a series.
pub struct SampleViews {
    pub first: Vec<(u32, u32)>,
    pub middle: Vec<(u32, u32)>,
    pub last_rev: Vec<(u32, u32)>,
}

/// Copies up to `count` elements of `entries` starting at `start`.
fn copy_slice(entries: &Vec<(u32, u32)>, start: usize, count: usize) -> (out: Vec<(u32, u32)>)
    requires
        start <= entries@.len(),
    ensures
        out@ == up_to(entries@.skip(start as int), count as int),
{
    let n: usize = entries.len();
    let end: usize = if n - start <= count {
        n
    } else {
        start + count
    };
    let mut out: Vec<(u32, u32)> = Vec::new();
    let mut i: usize = start;
    while i < end
        invariant
            start <= i <= end <= n,
            n == entries@.len(),
            end - start <= count,
            (end == n) || (end - start == count),
            out@ =~= entries@.subrange(start as int, i as int),
        decreases end - i,
    {
        out.push(entries[i]);
        i = i + 1;
    }
    proof {
        assert(entries@.subrange(start as int, end as int) =~= up_to(
            entries@.skip(start as int),
            count as int,
        ));
    }
    out
}

/// Copies up to `count` elements of `entries` from the end, last first.
fn copy_rev(entries: &Vec<(u32, u32)>, count: usize) -> (out: Vec<(u32, u32)>)
    ensures
        out@ == up_to(entries@.reverse(), count as int),
{
    let n: usize = entries.len();
    let m: usize = if n <= count {
        n
    } else {
        count
    };
    let mut out: Vec<(u32, u32)> = Vec::new();
    let mut i: usize = 0;
    while i < m
        invariant
            0 <= i <= m <= n,
            n == entries@.len(),
            (m == n) || (m == count),
            out@ =~= entries@.reverse().take(i as int),
        decreases m - i,
    {
        out.push(entries[n - 1 - i]);
        proof {
            assert(entries@.reverse()[i as int] == entries@[n - 1 - i]);
            assert(out@ =~= entries@.reverse().take(i + 1));
        }
        i = i + 1;
    }
    proof {
        assert(entries@.reverse().take(m as int) =~= up_to(entries@.reverse(), count as int));
    }
    out
}

/// The three slices used for manual verification: the first 50 entries, the
/// 50 entries starting at the midpoint index, and the last 50 entries in
/// reverse order. A series shorter than a slice yields what is there.
pub fn sample_views(entries: &Vec<(u32, u32)>) -> (r: SampleViews)
    ensures
        r.first@ == up_to(entries@, 50),
        r.middle@ == up_to(entries@.skip(entries@.len() as int / 2), 50),
        r.last_rev@ == up_to(entries@.reverse(), 50),
{
    let n: usize = entries.len();
    let first = copy_slice(entries, 0, 50);
    proof {
        assert(entries@.skip(0) =~= entries@);
    }
    let middle = copy_slice(entries, n / 2, 50);
    let last_rev = copy_rev(entries, 50);
    SampleViews { first, middle, last_rev }
}

} // verus!
