//! Splitting work into contiguous ranges.

use vstd::arithmetic::div_mod::lemma_fundamental_div_mod_converse;
use vstd::prelude::*;

verus! {

/// How many ranges of at most `size` cover `0..len`: `len / size`, rounded up.
pub open spec fn range_count(len: nat, size: nat) -> nat {
    ((len + size - 1) / (size as int)) as nat
}

/// The first index past the `c`-th range.
pub open spec fn range_end(len: nat, size: nat, c: int) -> int {
    if (c + 1) * size <= len {
        (c + 1) * size
    } else {
        len as int
    }
}

/// Whether `ranges` are the ranges of `0..len`, in order: all of `size` but for
/// the last, which may be shorter.
pub open spec fn splits(ranges: Seq<(usize, usize)>, len: nat, size: nat) -> bool {
    &&& ranges.len() == range_count(len, size)
    &&& forall|c: int|
        0 <= c < ranges.len() ==> {
            &&& (#[trigger] ranges[c]).0 == c * size
            &&& ranges[c].1 == range_end(len, size, c)
        }
}

/// The number of workers for `len` items on a machine that runs `parallelism`
/// threads at once: no more than there are items, and at least one.
pub open spec fn workers_for(parallelism: nat, len: nat) -> nat {
    let capped = if parallelism < len {
        parallelism
    } else {
        len
    };
    if capped > 1 {
        capped
    } else {
        1
    }
}

/// How many items each worker gets: `len` over the workers, rounded up.
pub open spec fn worker_share(len: nat, parallelism: nat) -> nat {
    range_count(len, workers_for(parallelism, len))
}

/// Whether `ranges` hand `0..len` out to the workers of a machine that runs
/// `parallelism` threads at once; there are none where there is no item.
pub open spec fn shared_out(ranges: Seq<(usize, usize)>, len: nat, parallelism: nat) -> bool {
    if len == 0 {
        ranges.len() == 0
    } else {
        splits(ranges, len, worker_share(len, parallelism))
    }
}

proof fn lemma_range_count(len: nat, size: nat, c: nat)
    requires
        size > 0,
        len <= c * size,
        c > 0 ==> (c - 1) * size < len,
        c == 0 ==> len == 0,
    ensures
        range_count(len, size) == c,
{
    let x = len + size - 1;
    if c == 0 {
        lemma_fundamental_div_mod_converse(x, size as int, 0, x);
    } else {
        let r = x - c * size;
        assert(c * size == (c - 1) * size + size) by (nonlinear_arith);
        assert(x == size * c + r) by (nonlinear_arith)
            requires
                r == x - c * size,
        ;
        lemma_fundamental_div_mod_converse(x, size as int, c as int, r);
    }
}

proof fn lemma_range_count_bounds(len: nat, size: nat)
    requires
        size > 0,
    ensures
        len <= range_count(len, size) * size,
        len > 0 ==> (range_count(len, size) - 1) * size < len,
        len > 0 ==> range_count(len, size) > 0,
        len == 0 ==> range_count(len, size) == 0,
        size <= len ==> range_count(len, size) <= len,
{
    let x = len + size - 1;
    let q = x / (size as int);
    let r = x % (size as int);
    vstd::arithmetic::div_mod::lemma_fundamental_div_mod(x, size as int);
    vstd::arithmetic::div_mod::lemma_div_pos_is_pos(x, size as int);
    assert(0 <= r < size);
    assert((q - 1) * size == q * size - size && size * q == q * size) by (nonlinear_arith);
    if len > 0 && q <= 0 {
        assert(q * size <= 0) by (nonlinear_arith)
            requires
                q <= 0,
        ;
    }
    if len == 0 && q > 0 {
        assert(q * size >= size) by (nonlinear_arith)
            requires
                q > 0,
                size > 0,
        ;
    }
    if size <= len && q > len {
        assert(q * size >= (len + 1) * size) by (nonlinear_arith)
            requires
                q >= len + 1,
        ;
        assert((len + 1) * size >= len + size) by (nonlinear_arith)
            requires
                size > 0,
        ;
    }
}

/// Only nothing has no range.
pub proof fn lemma_no_range(len: nat, size: nat)
    requires
        size > 0,
    ensures
        range_count(len, size) == 0 <==> len == 0,
{
    lemma_range_count_bounds(len, size);
}

/// Every range starts within `0..len`.
pub proof fn lemma_range_start(len: nat, size: nat, c: int)
    requires
        size > 0,
        0 <= c < range_count(len, size),
    ensures
        0 <= c * size < len,
{
    lemma_range_count_bounds(len, size);
    let n = range_count(len, size);
    assert(c * size <= (n - 1) * size) by (nonlinear_arith)
        requires
            c <= n - 1,
    ;
    assert(0 <= c * size) by (nonlinear_arith)
        requires
            0 <= c,
    ;
}

/// The ranges cover `0..len` without gap or overlap: they are not empty, the
/// first starts at 0, each starts where the one before it ends, and the last
/// ends at `len`.
pub proof fn law_ranges_partition(ranges: Seq<(usize, usize)>, len: nat, size: nat)
    requires
        size > 0,
        splits(ranges, len, size),
    ensures
        ranges.len() == 0 <==> len == 0,
        forall|c: int|
            0 <= c < ranges.len() ==> (#[trigger] ranges[c]).0 < ranges[c].1 && ranges[c].1 - ranges[c].0 <= size,
        ranges.len() > 0 ==> ranges[0].0 == 0 && ranges.last().1 == len,
        forall|c: int| 0 <= c < ranges.len() - 1 ==> (#[trigger] ranges[c]).1 == ranges[c + 1].0,
{
    lemma_range_count_bounds(len, size);
    let n = range_count(len, size);
    assert forall|c: int| 0 <= c < ranges.len() implies (#[trigger] ranges[c]).0 < ranges[c].1 && ranges[c].1
        - ranges[c].0 <= size by {
        assert(c * size <= (n - 1) * size) by (nonlinear_arith)
            requires
                c <= n - 1,
        ;
        assert((c + 1) * size == c * size + size) by (nonlinear_arith);
    }
    assert forall|c: int| 0 <= c < ranges.len() - 1 implies (#[trigger] ranges[c]).1 == ranges[c + 1].0 by {
        assert((c + 1) * size <= (n - 1) * size) by (nonlinear_arith)
            requires
                c + 1 <= n - 1,
        ;
    }
    if ranges.len() > 0 {
        assert(0 * size == 0) by (nonlinear_arith);
    }
}

/// The workers' ranges cover `0..len` without gap or overlap, and there are no
/// more of them than `parallelism` allows, or one.
pub proof fn law_shares_partition(ranges: Seq<(usize, usize)>, len: nat, parallelism: nat)
    requires
        shared_out(ranges, len, parallelism),
    ensures
        ranges.len() == 0 <==> len == 0,
        forall|c: int| 0 <= c < ranges.len() ==> (#[trigger] ranges[c]).0 < ranges[c].1,
        ranges.len() > 0 ==> ranges[0].0 == 0 && ranges.last().1 == len,
        forall|c: int| 0 <= c < ranges.len() - 1 ==> (#[trigger] ranges[c]).1 == ranges[c + 1].0,
        ranges.len() <= workers_for(parallelism, len),
{
    if len > 0 {
        let workers = workers_for(parallelism, len);
        let size = worker_share(len, parallelism);
        lemma_range_count_bounds(len, workers);
        law_ranges_partition(ranges, len, size);
        lemma_range_count_bounds(len, size);
        let n = range_count(len, size);
        if n > workers {
            assert((n - 1) * size >= workers * size) by (nonlinear_arith)
                requires
                    n - 1 >= workers,
            ;
            assert(workers * size == size * workers) by (nonlinear_arith);
        }
    }
}

/// There are as many workers as threads run at once, but no more than items, and
/// at least one; and all have equally many items, the least that leaves none over,
/// but for the last, which has the rest.
///
/// Gives how many items a worker has.
pub proof fn law_shares_are_even(ranges: Seq<(usize, usize)>, len: nat, parallelism: nat) -> (share: nat)
    requires
        shared_out(ranges, len, parallelism),
        len > 0,
    ensures
        1 <= workers_for(parallelism, len) <= len,
        1 <= parallelism <= len ==> workers_for(parallelism, len) == parallelism,
        parallelism > len ==> workers_for(parallelism, len) == len,
        parallelism == 0 ==> workers_for(parallelism, len) == 1,
        share > 0,
        len <= share * workers_for(parallelism, len),
        (share - 1) * workers_for(parallelism, len) < len,
        forall|c: int| 0 <= c < ranges.len() - 1 ==> (#[trigger] ranges[c]).1 - ranges[c].0 == share,
        ranges.len() > 0,
        0 < ranges.last().1 - ranges.last().0 <= share,
{
    let workers = workers_for(parallelism, len);
    let share = worker_share(len, parallelism);
    lemma_range_count_bounds(len, workers);
    law_ranges_partition(ranges, len, share);
    lemma_range_count_bounds(len, share);
    let n = range_count(len, share);
    assert forall|c: int| 0 <= c < ranges.len() - 1 implies (#[trigger] ranges[c]).1 - ranges[c].0 == share by {
        assert((c + 1) * share <= (n - 1) * share) by (nonlinear_arith)
            requires
                c + 1 <= n - 1,
        ;
        assert((c + 1) * share == c * share + share) by (nonlinear_arith);
    }
    assert(ranges[ranges.len() - 1].0 < ranges[ranges.len() - 1].1);
    share
}

/// The number of workers for `len` items on a machine that runs `parallelism`
/// threads at once.
pub fn worker_count(parallelism: usize, len: usize) -> (r: usize)
    ensures
        r == workers_for(parallelism as nat, len as nat),
        1 <= r,
{
    let capped: usize = if parallelism < len {
        parallelism
    } else {
        len
    };
    if capped > 1 {
        capped
    } else {
        1
    }
}

/// The ranges of `0..len`, all of `size` but for the last.
pub fn chunk_ranges(len: usize, size: usize) -> (r: Vec<(usize, usize)>)
    requires
        size > 0,
    ensures
        splits(r@, len as nat, size as nat),
{
    let mut ranges: Vec<(usize, usize)> = Vec::new();
    let mut start: usize = 0;
    assert(0 * size == 0) by (nonlinear_arith);
    while start < len
        invariant
            size > 0,
            start <= len,
            start < len ==> start == ranges@.len() * size,
            start == len ==> len <= ranges@.len() * size,
            start == len && ranges@.len() > 0 ==> (ranges@.len() - 1) * size < len,
            start == len && ranges@.len() == 0 ==> len == 0,
            forall|c: int|
                0 <= c < ranges@.len() ==> {
                    &&& (#[trigger] ranges@[c]).0 == c * size
                    &&& ranges@[c].1 == range_end(len as nat, size as nat, c)
                },
        decreases len - start,
    {
        let ghost n = ranges@.len() as int;
        proof {
            assert((n + 1) * size == n * size + size) by (nonlinear_arith);
        }
        let end: usize = if len - start <= size {
            len
        } else {
            start + size
        };
        ranges.push((start, end));
        start = end;
    }
    proof {
        lemma_range_count(len as nat, size as nat, ranges@.len() as nat);
    }
    ranges
}

/// The ranges in which `len` items are handed out to the workers of a machine
/// that runs `parallelism` threads at once.
pub fn worker_ranges(len: usize, parallelism: usize) -> (r: Vec<(usize, usize)>)
    ensures
        shared_out(r@, len as nat, parallelism as nat),
{
    if len == 0 {
        return Vec::new();
    }
    let workers: usize = worker_count(parallelism, len);
    let share: usize = (len - 1) / workers + 1;
    proof {
        let q = (len - 1) / (workers as int);
        vstd::arithmetic::div_mod::lemma_fundamental_div_mod(len - 1, workers as int);
        assert((q + 1) * workers == workers * q + workers) by (nonlinear_arith);
        assert(q * workers == workers * q) by (nonlinear_arith);
        lemma_range_count(len as nat, workers as nat, (q + 1) as nat);
    }
    chunk_ranges(len, share)
}

} // verus!
