//! The work of one worker: the patch files of its buckets, taken from the
//! back.

use vstd::prelude::*;
use crate::region::{
    file_at, grouped, is_place, lemma_one_bucket_each, lemma_slice_bounds,
    lemma_slices_partition, slice_at, slice_count, worker_slices, RegionBucket,
};

verus! {

/// The files of the buckets from place `start` up to place `end`, bucket
/// after bucket.
pub open spec fn files_of(bs: Seq<RegionBucket>, start: int, end: int) -> Seq<usize>
    decreases end - start,
{
    if end <= start {
        Seq::empty()
    } else {
        files_of(bs, start, end - 1) + bs[end - 1].files@
    }
}

/// The files of two runs of buckets that lie end to end are those of the
/// run that spans both.
pub proof fn lemma_files_join(bs: Seq<RegionBucket>, start: int, mid: int, end: int)
    requires
        start <= mid <= end,
    ensures
        files_of(bs, start, mid) + files_of(bs, mid, end) == files_of(bs, start, end),
    decreases end - mid,
{
    if mid == end {
        assert(files_of(bs, start, mid) + files_of(bs, mid, end) =~= files_of(bs, start, end));
    } else {
        lemma_files_join(bs, start, mid, end - 1);
        assert(files_of(bs, start, mid) + (files_of(bs, mid, end - 1) + bs[end - 1].files@)
            =~= (files_of(bs, start, mid) + files_of(bs, mid, end - 1)) + bs[end - 1].files@);
    }
}

/// A run of buckets holds a file exactly where one of its buckets does.
pub proof fn lemma_files_of_holds(bs: Seq<RegionBucket>, start: int, end: int, f: usize)
    requires
        0 <= start <= end <= bs.len(),
    ensures
        files_of(bs, start, end).contains(f) <==> exists|b: int, k: int|
            start <= b < end && is_place(bs, b, k) && #[trigger] file_at(bs, b, k) == f,
    decreases end - start,
{
    if start < end {
        lemma_files_of_holds(bs, start, end - 1, f);
        let head = files_of(bs, start, end - 1);
        let tail = bs[end - 1].files@;
        let all = files_of(bs, start, end);
        assert(all == head + tail);
        if all.contains(f) {
            let i = choose|i: int| 0 <= i < all.len() && all[i] == f;
            if i < head.len() {
                assert(head[i] == f);
                assert(head.contains(f));
            } else {
                assert(tail[i - head.len()] == f);
                assert(is_place(bs, end - 1, i - head.len()));
                assert(file_at(bs, end - 1, i - head.len()) == f);
            }
        }
        if exists|b: int, k: int|
            start <= b < end && is_place(bs, b, k) && #[trigger] file_at(bs, b, k) == f {
            let (b, k) = choose|b: int, k: int|
                start <= b < end && is_place(bs, b, k) && #[trigger] file_at(bs, b, k) == f;
            if b < end - 1 {
                assert(head.contains(f));
                let i = choose|i: int| 0 <= i < head.len() && head[i] == f;
                assert(all[i] == f);
            } else {
                assert(all[head.len() + k] == f);
            }
        }
    }
}

/// Every file with coordinates goes to exactly one worker.
pub proof fn lemma_one_worker_each(
    bs: Seq<RegionBucket>,
    coords: Seq<Option<(i32, i32)>>,
    n: int,
    workers: int,
    i: usize,
)
    requires
        grouped(bs, coords, n),
        workers >= 1,
        0 <= i < n,
        coords[i as int] is Some,
    ensures
        exists|k: int|
            0 <= k < slice_count(bs.len() as int, workers) && #[trigger] files_of(
                bs,
                slice_at(bs.len() as int, workers, k).0,
                slice_at(bs.len() as int, workers, k).1,
            ).contains(i),
        forall|j: int, k: int|
            0 <= j < slice_count(bs.len() as int, workers) && 0 <= k < slice_count(
                bs.len() as int,
                workers,
            ) && (#[trigger] files_of(
                bs,
                slice_at(bs.len() as int, workers, j).0,
                slice_at(bs.len() as int, workers, j).1,
            )).contains(i) && (#[trigger] files_of(
                bs,
                slice_at(bs.len() as int, workers, k).0,
                slice_at(bs.len() as int, workers, k).1,
            )).contains(i) ==> j == k,
{
    let len = bs.len() as int;
    let count = slice_count(len, workers);
    lemma_one_bucket_each(bs, coords, n, i as int);
    let (b, p) = choose|b: int, p: int| is_place(bs, b, p) && #[trigger] file_at(bs, b, p) == i;
    lemma_slices_partition(len, workers, b);
    lemma_slice_bounds(len, workers);
    let w = choose|k: int|
        0 <= k < count && (#[trigger] slice_at(len, workers, k)).0 <= b < slice_at(
            len,
            workers,
            k,
        ).1;
    lemma_files_of_holds(bs, slice_at(len, workers, w).0, slice_at(len, workers, w).1, i);
    assert(files_of(bs, slice_at(len, workers, w).0, slice_at(len, workers, w).1).contains(i));
    assert forall|j: int, k: int|
        0 <= j < count && 0 <= k < count && (#[trigger] files_of(
            bs,
            slice_at(len, workers, j).0,
            slice_at(len, workers, j).1,
        )).contains(i) && (#[trigger] files_of(
            bs,
            slice_at(len, workers, k).0,
            slice_at(len, workers, k).1,
        )).contains(i) implies j == k by {
        lemma_files_of_holds(bs, slice_at(len, workers, j).0, slice_at(len, workers, j).1, i);
        lemma_files_of_holds(bs, slice_at(len, workers, k).0, slice_at(len, workers, k).1, i);
        let (bj, pj) = choose|b: int, p: int|
            slice_at(len, workers, j).0 <= b < slice_at(len, workers, j).1 && is_place(bs, b, p)
                && #[trigger] file_at(bs, b, p) == i;
        let (bk, pk) = choose|b: int, p: int|
            slice_at(len, workers, k).0 <= b < slice_at(len, workers, k).1 && is_place(bs, b, p)
                && #[trigger] file_at(bs, b, p) == i;
        assert(bj == b && bk == b);
    }
}

/// The files that one worker has still to patch.
#[derive(Debug, Clone)]
pub struct WorkHandler {
    payload: Vec<usize>,
}

impl View for WorkHandler {
    type V = Seq<usize>;

    closed spec fn view(&self) -> Seq<usize> {
        self.payload@
    }
}

impl WorkHandler {
    /// A worker with the files `payload` to patch.
    pub fn new(payload: Vec<usize>) -> (w: Self)
        ensures
            w@ == payload@,
    {
        WorkHandler { payload }
    }

    /// Takes the last file that is left, if any is.
    pub fn next(&mut self) -> (r: Option<usize>)
        ensures
            match r {
                Some(file) => old(self)@.len() > 0 && file == old(self)@.last() && final(self)@
                    == old(self)@.drop_last(),
                None => old(self)@.len() == 0 && final(self)@ == old(self)@,
            },
    {
        self.payload.pop()
    }

    /// How many files are left.
    pub fn len(&self) -> (n: usize)
        ensures
            n == self@.len(),
    {
        self.payload.len()
    }

    /// A worker with the files of the buckets from place `start` up to
    /// place `end`.
    pub fn for_buckets(buckets: &Vec<RegionBucket>, start: usize, end: usize) -> (w: Self)
        requires
            start <= end <= buckets@.len(),
        ensures
            w@ == files_of(buckets@, start as int, end as int),
    {
        let mut payload: Vec<usize> = Vec::new();
        let mut b: usize = start;
        while b < end
            invariant
                start <= b <= end <= buckets@.len(),
                payload@ == files_of(buckets@, start as int, b as int),
            decreases end - b,
        {
            let files = &buckets[b].files;
            let ghost before = payload@;
            let mut k: usize = 0;
            while k < files.len()
                invariant
                    k <= files@.len(),
                    payload@ == before + files@.subrange(0, k as int),
                decreases files@.len() - k,
            {
                payload.push(files[k]);
                assert(files@.subrange(0, k + 1) =~= files@.subrange(0, k as int).push(
                    files@[k as int],
                ));
                assert(payload@ =~= before + files@.subrange(0, k + 1));
                k = k + 1;
            }
            assert(files@.subrange(0, files@.len() as int) =~= files@);
            b = b + 1;
        }
        WorkHandler { payload }
    }
}

/// Deals the buckets out to `workers` workers: each gets the files of a run
/// of whole buckets, the runs lying end to end.
pub fn assign(buckets: &Vec<RegionBucket>, workers: usize) -> (r: Vec<WorkHandler>)
    requires
        workers >= 1,
    ensures
        r@.len() == slice_count(buckets@.len() as int, workers as int),
        forall|k: int|
            0 <= k < r@.len() ==> (#[trigger] r@[k])@ == files_of(
                buckets@,
                slice_at(buckets@.len() as int, workers as int, k).0,
                slice_at(buckets@.len() as int, workers as int, k).1,
            ),
{
    let slices = worker_slices(buckets.len(), workers);
    let mut r: Vec<WorkHandler> = Vec::new();
    let mut k: usize = 0;
    while k < slices.len()
        invariant
            k <= slices@.len(),
            r@.len() == k,
            slices@.len() == slice_count(buckets@.len() as int, workers as int),
            forall|j: int|
                0 <= j < slices@.len() ==> (#[trigger] slices@[j]).0 as int == slice_at(
                    buckets@.len() as int,
                    workers as int,
                    j,
                ).0 && slices@[j].1 as int == slice_at(buckets@.len() as int, workers as int, j).1,
            forall|j: int|
                0 <= j < slices@.len() ==> (#[trigger] slices@[j]).0 <= slices@[j].1
                    <= buckets@.len(),
            forall|j: int|
                0 <= j < r@.len() ==> (#[trigger] r@[j])@ == files_of(
                    buckets@,
                    slice_at(buckets@.len() as int, workers as int, j).0,
                    slice_at(buckets@.len() as int, workers as int, j).1,
                ),
        decreases slices@.len() - k,
    {
        let (start, end) = slices[k];
        let w = WorkHandler::for_buckets(buckets, start, end);
        r.push(w);
        k = k + 1;
    }
    r
}

} // verus!
