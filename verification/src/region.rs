//! Patch files grouped by the region they fall in, and the groups dealt out
//! to workers so that no region is shared.

use vstd::prelude::*;
use vstd::string::StringSliceAdditionalSpecFns;
use crate::names::{fname_xz, fname_xz_spec};

verus! {

/// The region coordinate of a chunk coordinate: the floor of a thirty-second
/// of it.
pub open spec fn region_of(c: i32) -> int {
    c as int / 32
}

/// The region coordinate of a chunk coordinate.
pub fn region_coord(c: i32) -> (r: i32)
    ensures
        r == region_of(c),
{
    if c >= 0 {
        c / 32
    } else {
        -((-(c + 1)) / 32) - 1
    }
}

/// The patch files of one region, as indices into the list they were
/// found in.
#[derive(Debug, Clone)]
pub struct RegionBucket {
    pub region_x: i32,
    pub region_z: i32,
    pub files: Vec<usize>,
}

/// Whether region (`ax`, `az`) comes before region (`bx`, `bz`).
pub open spec fn region_before(ax: int, az: int, bx: int, bz: int) -> bool {
    ax < bx || (ax == bx && az < bz)
}

/// The file at place `k` of bucket `b`.
pub open spec fn file_at(bs: Seq<RegionBucket>, b: int, k: int) -> usize {
    bs[b].files@[k]
}

/// Whether (`b`, `k`) is a place in the buckets.
pub open spec fn is_place(bs: Seq<RegionBucket>, b: int, k: int) -> bool {
    0 <= b < bs.len() && 0 <= k < bs[b].files@.len()
}

/// Whether some bucket holds file `i`.
pub open spec fn holds_file(bs: Seq<RegionBucket>, i: int) -> bool {
    exists|b: int, k: int| is_place(bs, b, k) && #[trigger] file_at(bs, b, k) == i
}

/// Whether `bs` groups the first `n` of the files with coordinates `coords`
/// by region: the buckets in ascending order of region, none empty; in each
/// the files of that region in the order they were found; and no file with
/// coordinates left out.
pub open spec fn grouped(bs: Seq<RegionBucket>, coords: Seq<Option<(i32, i32)>>, n: int) -> bool {
    &&& forall|a: int, b: int|
        0 <= a < b < bs.len() ==> region_before(
            (#[trigger] bs[a]).region_x as int,
            bs[a].region_z as int,
            (#[trigger] bs[b]).region_x as int,
            bs[b].region_z as int,
        )
    &&& forall|b: int| 0 <= b < bs.len() ==> (#[trigger] bs[b]).files@.len() > 0
    &&& forall|b: int, k: int|
        is_place(bs, b, k) ==> {
            let i = #[trigger] file_at(bs, b, k);
            &&& 0 <= i < n
            &&& coords[i as int] matches Some((x, z))
            &&& region_of(x) == bs[b].region_x
            &&& region_of(z) == bs[b].region_z
        }
    &&& forall|b: int, j: int, k: int|
        is_place(bs, b, j) && is_place(bs, b, k) && j < k ==> (#[trigger] file_at(bs, b, j)) < (
        #[trigger] file_at(bs, b, k))
    &&& forall|i: int| 0 <= i < n && (#[trigger] coords[i]) is Some ==> holds_file(bs, i)
}

/// Every file with coordinates is in exactly one bucket, once: two places
/// that hold the same file are the same place.
pub proof fn lemma_one_bucket_each(
    bs: Seq<RegionBucket>,
    coords: Seq<Option<(i32, i32)>>,
    n: int,
    i: int,
)
    requires
        grouped(bs, coords, n),
        0 <= i < n,
        coords[i] is Some,
    ensures
        holds_file(bs, i),
        forall|b1: int, k1: int, b2: int, k2: int|
            is_place(bs, b1, k1) && is_place(bs, b2, k2) && #[trigger] file_at(bs, b1, k1) == i
                && #[trigger] file_at(bs, b2, k2) == i ==> b1 == b2 && k1 == k2,
{
    assert forall|b1: int, k1: int, b2: int, k2: int|
        is_place(bs, b1, k1) && is_place(bs, b2, k2) && #[trigger] file_at(bs, b1, k1) == i
            && #[trigger] file_at(bs, b2, k2) == i implies b1 == b2 && k1 == k2 by {
        if b1 < b2 {
            assert(region_before(
                bs[b1].region_x as int,
                bs[b1].region_z as int,
                bs[b2].region_x as int,
                bs[b2].region_z as int,
            ));
        } else if b2 < b1 {
            assert(region_before(
                bs[b2].region_x as int,
                bs[b2].region_z as int,
                bs[b1].region_x as int,
                bs[b1].region_z as int,
            ));
        }
    }
}

/// Where region (`rx`, `rz`) stands, or would stand, among the buckets.
fn bucket_place(bs: &Vec<RegionBucket>, rx: i32, rz: i32) -> (p: usize)
    requires
        forall|a: int, b: int|
            0 <= a < b < bs@.len() ==> region_before(
                (#[trigger] bs@[a]).region_x as int,
                bs@[a].region_z as int,
                (#[trigger] bs@[b]).region_x as int,
                bs@[b].region_z as int,
            ),
    ensures
        p <= bs@.len(),
        forall|a: int|
            0 <= a < p ==> region_before(
                (#[trigger] bs@[a]).region_x as int,
                bs@[a].region_z as int,
                rx as int,
                rz as int,
            ),
        forall|a: int|
            p <= a < bs@.len() ==> !region_before(
                (#[trigger] bs@[a]).region_x as int,
                bs@[a].region_z as int,
                rx as int,
                rz as int,
            ),
{
    let mut p: usize = 0;
    while p < bs.len()
        invariant
            p <= bs@.len(),
            forall|a: int|
                0 <= a < p ==> region_before(
                    (#[trigger] bs@[a]).region_x as int,
                    bs@[a].region_z as int,
                    rx as int,
                    rz as int,
                ),
            forall|a: int, b: int|
                0 <= a < b < bs@.len() ==> region_before(
                    (#[trigger] bs@[a]).region_x as int,
                    bs@[a].region_z as int,
                    (#[trigger] bs@[b]).region_x as int,
                    bs@[b].region_z as int,
                ),
        decreases bs@.len() - p,
    {
        let b = &bs[p];
        if b.region_x < rx || (b.region_x == rx && b.region_z < rz) {
            p = p + 1;
        } else {
            assert forall|a: int| p <= a < bs@.len() implies !region_before(
                (#[trigger] bs@[a]).region_x as int,
                bs@[a].region_z as int,
                rx as int,
                rz as int,
            ) by {
                if a > p {
                    assert(region_before(
                        bs@[p as int].region_x as int,
                        bs@[p as int].region_z as int,
                        bs@[a].region_x as int,
                        bs@[a].region_z as int,
                    ));
                }
            }
            return p;
        }
    }
    p
}

/// Groups files by the region that their chunk coordinates fall in. A file
/// without coordinates is left out.
pub fn bucket_by_region(coords: &Vec<Option<(i32, i32)>>) -> (bs: Vec<RegionBucket>)
    ensures
        grouped(bs@, coords@, coords@.len() as int),
{
    let mut bs: Vec<RegionBucket> = Vec::new();
    let mut i: usize = 0;
    while i < coords.len()
        invariant
            i <= coords@.len(),
            grouped(bs@, coords@, i as int),
        decreases coords@.len() - i,
    {
        match coords[i] {
            None => {},
            Some((x, z)) => {
                let rx = region_coord(x);
                let rz = region_coord(z);
                let p = bucket_place(&bs, rx, rz);
                let ghost old_bs = bs@;
                if p < bs.len() && bs[p].region_x == rx && bs[p].region_z == rz {
                    let mut bucket = bs.remove(p);
                    let ghost old_files = bucket.files@;
                    bucket.files.push(i);
                    bs.insert(p, bucket);
                    proof {
                        let new_bs = bs@;
                        assert(new_bs.len() == old_bs.len());
                        assert forall|b: int| 0 <= b < new_bs.len() implies (#[trigger] new_bs[b]).region_x
                            == old_bs[b].region_x && new_bs[b].region_z == old_bs[b].region_z
                            && new_bs[b].files@ == (if b == p {
                            old_files.push(i)
                        } else {
                            old_bs[b].files@
                        }) by {}
                        assert forall|b: int, k: int| is_place(new_bs, b, k) implies ({
                            let f = #[trigger] file_at(new_bs, b, k);
                            &&& 0 <= f < i + 1
                            &&& coords@[f as int] matches Some((x, z))
                            &&& region_of(x) == new_bs[b].region_x
                            &&& region_of(z) == new_bs[b].region_z
                        }) by {
                            if b == p && k == old_files.len() {
                            } else {
                                assert(is_place(old_bs, b, k));
                                assert(file_at(old_bs, b, k) == file_at(new_bs, b, k));
                            }
                        }
                        assert forall|b: int, j: int, k: int|
                            is_place(new_bs, b, j) && is_place(new_bs, b, k) && j < k implies (
                        #[trigger] file_at(new_bs, b, j)) < (#[trigger] file_at(new_bs, b, k)) by {
                            assert(is_place(old_bs, b, j));
                            assert(file_at(old_bs, b, j) == file_at(new_bs, b, j));
                            if b == p && k == old_files.len() {
                            } else {
                                assert(is_place(old_bs, b, k));
                                assert(file_at(old_bs, b, k) == file_at(new_bs, b, k));
                            }
                        }
                        assert forall|f: int| 0 <= f < i + 1 && (#[trigger] coords@[f]) is Some implies holds_file(
                            new_bs,
                            f,
                        ) by {
                            if f == i {
                                assert(is_place(new_bs, p as int, old_files.len() as int));
                                assert(file_at(new_bs, p as int, old_files.len() as int) == i);
                            } else {
                                assert(holds_file(old_bs, f));
                                let (b, k) = choose|b: int, k: int|
                                    is_place(old_bs, b, k) && #[trigger] file_at(old_bs, b, k) == f;
                                assert(is_place(new_bs, b, k));
                                assert(file_at(new_bs, b, k) == f);
                            }
                        }
                    }
                } else {
                    let mut files: Vec<usize> = Vec::new();
                    files.push(i);
                    bs.insert(p, RegionBucket { region_x: rx, region_z: rz, files });
                    proof {
                        let new_bs = bs@;
                        assert(new_bs.len() == old_bs.len() + 1);
                        assert forall|b: int| 0 <= b < new_bs.len() implies (#[trigger] new_bs[b]) == (if b
                            < p {
                            old_bs[b]
                        } else if b == p {
                            new_bs[p as int]
                        } else {
                            old_bs[b - 1]
                        }) by {}
                        assert(new_bs[p as int].files@ =~= seq![i]);
                        assert forall|a: int, b: int| 0 <= a < b < new_bs.len() implies region_before(
                            (#[trigger] new_bs[a]).region_x as int,
                            new_bs[a].region_z as int,
                            (#[trigger] new_bs[b]).region_x as int,
                            new_bs[b].region_z as int,
                        ) by {
                            let oa = if a < p { a } else { a - 1 };
                            let ob = if b < p { b } else { b - 1 };
                            if a != p && b != p {
                                assert(region_before(
                                    old_bs[oa].region_x as int,
                                    old_bs[oa].region_z as int,
                                    old_bs[ob].region_x as int,
                                    old_bs[ob].region_z as int,
                                ));
                            } else if a == p {
                                assert(!region_before(
                                    old_bs[ob].region_x as int,
                                    old_bs[ob].region_z as int,
                                    rx as int,
                                    rz as int,
                                ));
                                if ob == p {
                                }
                            } else {
                                assert(region_before(
                                    old_bs[oa].region_x as int,
                                    old_bs[oa].region_z as int,
                                    rx as int,
                                    rz as int,
                                ));
                            }
                        }
                        assert forall|b: int, k: int| is_place(new_bs, b, k) implies ({
                            let f = #[trigger] file_at(new_bs, b, k);
                            &&& 0 <= f < i + 1
                            &&& coords@[f as int] matches Some((x, z))
                            &&& region_of(x) == new_bs[b].region_x
                            &&& region_of(z) == new_bs[b].region_z
                        }) by {
                            if b != p {
                                let ob = if b < p { b } else { b - 1 };
                                assert(is_place(old_bs, ob, k));
                                assert(file_at(old_bs, ob, k) == file_at(new_bs, b, k));
                            }
                        }
                        assert forall|b: int, j: int, k: int|
                            is_place(new_bs, b, j) && is_place(new_bs, b, k) && j < k implies (
                        #[trigger] file_at(new_bs, b, j)) < (#[trigger] file_at(new_bs, b, k)) by {
                            if b != p {
                                let ob = if b < p { b } else { b - 1 };
                                assert(is_place(old_bs, ob, j));
                                assert(is_place(old_bs, ob, k));
                                assert(file_at(old_bs, ob, j) == file_at(new_bs, b, j));
                                assert(file_at(old_bs, ob, k) == file_at(new_bs, b, k));
                            }
                        }
                        assert forall|f: int| 0 <= f < i + 1 && (#[trigger] coords@[f]) is Some implies holds_file(
                            new_bs,
                            f,
                        ) by {
                            if f == i {
                                assert(is_place(new_bs, p as int, 0));
                                assert(file_at(new_bs, p as int, 0) == i);
                            } else {
                                assert(holds_file(old_bs, f));
                                let (b, k) = choose|b: int, k: int|
                                    is_place(old_bs, b, k) && #[trigger] file_at(old_bs, b, k) == f;
                                let nb = if b < p { b } else { b + 1 };
                                assert(is_place(new_bs, nb, k));
                                assert(file_at(new_bs, nb, k) == f);
                            }
                        }
                    }
                }
            },
        }
        i = i + 1;
    }
    bs
}

/// The coordinates that each of `names` carries, if any.
pub open spec fn coords_of(names: Seq<&str>) -> Seq<Option<(i32, i32)>> {
    names.map_values(|s: &str| fname_xz_spec(s.spec_bytes()))
}

/// Groups patch files, given by their names without extension, by the
/// region that the coordinates in their names fall in. A name that carries
/// no coordinates is left out.
pub fn get_chunks_fmap(names: &Vec<&str>) -> (bs: Vec<RegionBucket>)
    ensures
        grouped(bs@, coords_of(names@), names@.len() as int),
{
    let mut coords: Vec<Option<(i32, i32)>> = Vec::new();
    let mut i: usize = 0;
    while i < names.len()
        invariant
            i <= names@.len(),
            coords@ == coords_of(names@).subrange(0, i as int),
        decreases names@.len() - i,
    {
        let c = fname_xz(names[i]);
        coords.push(c);
        assert(coords@ =~= coords_of(names@).subrange(0, i + 1));
        i = i + 1;
    }
    assert(coords@ =~= coords_of(names@));
    bucket_by_region(&coords)
}

/// How many workers the buckets are dealt out to: all of them, or one
/// where there is nothing to deal out.
pub open spec fn slice_count(buckets: int, workers: int) -> int {
    if buckets == 0 {
        1
    } else {
        workers
    }
}

/// The buckets of worker `k`, as a range of places: the same whole share
/// for each worker, the last taking what is left over as well.
pub open spec fn slice_at(buckets: int, workers: int, k: int) -> (int, int) {
    let share = buckets / workers;
    if k == slice_count(buckets, workers) - 1 {
        (k * share, buckets)
    } else {
        (k * share, (k + 1) * share)
    }
}

/// Deals `buckets` buckets out to `workers` workers, each getting a run of
/// whole buckets next to the run before it.
pub fn worker_slices(buckets: usize, workers: usize) -> (r: Vec<(usize, usize)>)
    requires
        workers >= 1,
    ensures
        r@.len() == slice_count(buckets as int, workers as int),
        forall|k: int|
            0 <= k < r@.len() ==> (#[trigger] r@[k]).0 as int == slice_at(
                buckets as int,
                workers as int,
                k,
            ).0 && r@[k].1 as int == slice_at(buckets as int, workers as int, k).1,
        forall|k: int| 0 <= k < r@.len() ==> (#[trigger] r@[k]).0 <= r@[k].1 <= buckets,
{
    let share = buckets / workers;
    let mut r: Vec<(usize, usize)> = Vec::new();
    let mut start: usize = 0;
    if buckets > 0 {
        let mut k: usize = 0;
        assert(share * workers <= buckets) by (nonlinear_arith)
            requires
                share == buckets / workers,
                workers >= 1,
        ;
        while k < workers - 1
            invariant
                workers >= 1,
                buckets > 0,
                k <= workers - 1,
                share == buckets / workers,
                share * workers <= buckets,
                start == k * share,
                r@.len() == k,
                forall|j: int|
                    0 <= j < r@.len() ==> (#[trigger] r@[j]).0 as int == slice_at(
                        buckets as int,
                        workers as int,
                        j,
                    ).0 && r@[j].1 as int == slice_at(buckets as int, workers as int, j).1,
                forall|j: int| 0 <= j < r@.len() ==> (#[trigger] r@[j]).0 <= r@[j].1 <= buckets,
            decreases workers - 1 - k,
        {
            assert((k + 1) * share == k * share + share && (k + 1) * share <= share * workers)
                by (nonlinear_arith)
                requires
                    k + 1 <= workers,
                    share >= 0,
            ;
            r.push((start, start + share));
            start = start + share;
            k = k + 1;
        }
    }
    assert(start == (slice_count(buckets as int, workers as int) - 1) * share) by (nonlinear_arith)
        requires
            buckets == 0 ==> start == 0,
            buckets > 0 ==> start == (workers - 1) * share,
            slice_count(buckets as int, workers as int) == (if buckets == 0 {
                1
            } else {
                workers as int
            }),
    ;
    assert(start <= buckets) by (nonlinear_arith)
        requires
            buckets == 0 ==> start == 0,
            buckets > 0 ==> start == (workers - 1) * share && share * workers <= buckets,
            share >= 0,
            workers >= 1,
    ;
    r.push((start, buckets));
    r
}

/// More shares are no less than fewer.
proof fn lemma_shares_grow(j: int, k: int, share: int)
    requires
        j <= k,
        share >= 0,
    ensures
        j * share <= k * share,
{
    assert(j * share <= k * share) by (nonlinear_arith)
        requires
            j <= k,
            share >= 0,
    ;
}

/// Every run dealt out lies within the buckets.
pub proof fn lemma_slice_bounds(buckets: int, workers: int)
    requires
        workers >= 1,
        buckets >= 0,
    ensures
        forall|k: int|
            0 <= k < slice_count(buckets, workers) ==> 0 <= (#[trigger] slice_at(
                buckets,
                workers,
                k,
            )).0 <= slice_at(buckets, workers, k).1 <= buckets,
{
    let share = buckets / workers;
    assert(share * workers <= buckets && share >= 0) by (nonlinear_arith)
        requires
            share == buckets / workers,
            workers >= 1,
            buckets >= 0,
    ;
    assert forall|k: int| 0 <= k < slice_count(buckets, workers) implies 0 <= (#[trigger] slice_at(
        buckets,
        workers,
        k,
    )).0 <= slice_at(buckets, workers, k).1 <= buckets by {
        lemma_shares_grow(0, k, share);
        lemma_shares_grow(k, k + 1, share);
        lemma_shares_grow(k, workers, share);
        lemma_shares_grow(k + 1, workers, share);
        assert(workers * share == share * workers) by (nonlinear_arith);
        assert(0 * share == 0);
    }
}

/// The runs dealt out to the workers lie end to end from the first bucket
/// to the last, so every bucket is in the run of exactly one worker, whole.
pub proof fn lemma_slices_partition(buckets: int, workers: int, b: int)
    requires
        workers >= 1,
        0 <= b < buckets,
    ensures
        slice_at(buckets, workers, 0).0 == 0,
        slice_at(buckets, workers, slice_count(buckets, workers) - 1).1 == buckets,
        forall|k: int|
            0 <= k < slice_count(buckets, workers) - 1 ==> (#[trigger] slice_at(
                buckets,
                workers,
                k,
            )).1 == slice_at(buckets, workers, k + 1).0,
        forall|k: int|
            0 <= k < slice_count(buckets, workers) ==> (#[trigger] slice_at(buckets, workers, k)).0
                <= slice_at(buckets, workers, k).1,
        exists|k: int|
            0 <= k < slice_count(buckets, workers) && (#[trigger] slice_at(buckets, workers, k)).0
                <= b < slice_at(buckets, workers, k).1,
        forall|j: int, k: int|
            0 <= j < slice_count(buckets, workers) && 0 <= k < slice_count(buckets, workers)
                && (#[trigger] slice_at(buckets, workers, j)).0 <= b < slice_at(
                buckets,
                workers,
                j,
            ).1 && (#[trigger] slice_at(buckets, workers, k)).0 <= b < slice_at(
                buckets,
                workers,
                k,
            ).1 ==> j == k,
{
    let share = buckets / workers;
    let n = slice_count(buckets, workers);
    assert(share * workers <= buckets && share >= 0) by (nonlinear_arith)
        requires
            share == buckets / workers,
            workers >= 1,
            buckets >= 0,
    ;
    assert forall|k: int| 0 <= k < n implies (#[trigger] slice_at(buckets, workers, k)).0
        <= slice_at(buckets, workers, k).1 by {
        lemma_shares_grow(k, k + 1, share);
        lemma_shares_grow(k, workers, share);
        assert(workers * share == share * workers) by (nonlinear_arith);
    }
    let last = n - 1;
    let w = if share > 0 && b / share < last {
        b / share
    } else {
        last
    };
    assert(slice_at(buckets, workers, w).0 <= b < slice_at(buckets, workers, w).1) by {
        if share > 0 && b / share < last {
            assert((b / share) * share <= b < (b / share + 1) * share) by (nonlinear_arith)
                requires
                    share > 0,
                    b >= 0,
            ;
        } else if share > 0 {
            assert(last * share <= b) by (nonlinear_arith)
                requires
                    share > 0,
                    b >= 0,
                    b / share >= last,
                    last >= 0,
            ;
        } else {
            assert(last * share == 0) by (nonlinear_arith)
                requires
                    share == 0,
            ;
        }
    }
    assert forall|j: int, k: int|
        0 <= j < n && 0 <= k < n && (#[trigger] slice_at(buckets, workers, j)).0 <= b < slice_at(
            buckets,
            workers,
            j,
        ).1 && (#[trigger] slice_at(buckets, workers, k)).0 <= b < slice_at(
            buckets,
            workers,
            k,
        ).1 implies j == k by {
        if j < k {
            lemma_shares_grow(j + 1, k, share);
        } else if k < j {
            lemma_shares_grow(k + 1, j, share);
        }
    }
    assert(0 * share == 0);
}

} // verus!
