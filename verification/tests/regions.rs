use dump_to_map::ingest::{on_message, Inbound, Step};
use dump_to_map::names::{find_sep, fname_xz, parse_i32, region_file_name, RegionFile};
use dump_to_map::work::{assign, WorkHandler};
use dump_to_map::region::{
    bucket_by_region, get_chunks_fmap, region_coord, worker_slices, RegionBucket,
};

fn keys(buckets: &[RegionBucket]) -> Vec<(i32, i32)> {
    buckets.iter().map(|b| (b.region_x, b.region_z)).collect()
}

#[test]
fn numbers_in_decimal() {
    assert_eq!(parse_i32(b"0"), Some(0));
    assert_eq!(parse_i32(b"70"), Some(70));
    assert_eq!(parse_i32(b"-12"), Some(-12));
    assert_eq!(parse_i32(b"+12"), Some(12));
    assert_eq!(parse_i32(b"007"), Some(7));
    assert_eq!(parse_i32(b"2147483647"), Some(i32::MAX));
    assert_eq!(parse_i32(b"-2147483648"), Some(i32::MIN));
    assert_eq!(parse_i32(b"-0"), Some(0));
}

#[test]
fn what_is_no_number() {
    assert_eq!(parse_i32(b""), None);
    assert_eq!(parse_i32(b"-"), None);
    assert_eq!(parse_i32(b"+"), None);
    assert_eq!(parse_i32(b"1a"), None);
    assert_eq!(parse_i32(b" 1"), None);
    assert_eq!(parse_i32(b"--1"), None);
    assert_eq!(parse_i32(b"1.5"), None);
    assert_eq!(parse_i32(b"2147483648"), None);
    assert_eq!(parse_i32(b"-2147483649"), None);
    assert_eq!(parse_i32(b"99999999999999999999999"), None);
}

#[test]
fn numbers_agree_with_std() {
    for s in ["5", "-5", "+5", "", "x", "12345678901", "000000000000001", "-2147483648"] {
        assert_eq!(parse_i32(s.as_bytes()), s.parse::<i32>().ok());
    }
}

#[test]
fn separators() {
    assert_eq!(find_sep(b"5_70", 0, b'_'), 1);
    assert_eq!(find_sep(b"5_70", 2, b'_'), 4);
    assert_eq!(find_sep(b"_", 0, b'_'), 0);
    assert_eq!(find_sep(b"", 0, b'_'), 0);
}

#[test]
fn patch_file_names() {
    assert_eq!(fname_xz("5_70"), Some((5, 70)));
    assert_eq!(fname_xz("-33_0"), Some((-33, 0)));
    assert_eq!(fname_xz("1_2_3"), Some((1, 2)));
    assert_eq!(fname_xz("1_2_x"), Some((1, 2)));
    assert_eq!(fname_xz("570"), None);
    assert_eq!(fname_xz(""), None);
    assert_eq!(fname_xz("_"), None);
    assert_eq!(fname_xz("5_"), None);
    assert_eq!(fname_xz("_70"), None);
    assert_eq!(fname_xz("a_70"), None);
    assert_eq!(fname_xz("5_b"), None);
    assert_eq!(fname_xz("5__70"), None);
}

#[test]
fn region_file_names() {
    assert_eq!(RegionFile::new("r.1.2"), Some(RegionFile { x: 1, z: 2 }));
    assert_eq!(RegionFile::new("r.-1.-20"), Some(RegionFile { x: -1, z: -20 }));
    assert_eq!(RegionFile::new("anything.3.4.more"), Some(RegionFile { x: 3, z: 4 }));
    assert_eq!(RegionFile::new("r.1"), None);
    assert_eq!(RegionFile::new("r"), None);
    assert_eq!(RegionFile::new(""), None);
    assert_eq!(RegionFile::new("r.x.2"), None);
    assert_eq!(RegionFile::new("r.1.z"), None);
    assert_eq!(RegionFile::new("1.2"), None);
}

#[test]
fn region_chunk_coordinates() {
    let region = RegionFile { x: 1, z: -1 };
    assert!(region.in_world());
    let chunks = region.chunks();
    assert_eq!(chunks.len(), 1024);
    assert_eq!(chunks[0], (32, -32));
    assert_eq!(chunks[1], (32, -31));
    assert_eq!(chunks[32], (33, -32));
    assert_eq!(chunks[1023], (63, -1));
    assert!(!RegionFile { x: 0x40_0000, z: 0 }.in_world());
    assert!(RegionFile { x: -0x40_0000, z: 0x3f_ffff }.in_world());
}

#[test]
fn region_of_a_chunk_is_the_floor() {
    assert_eq!(region_coord(0), 0);
    assert_eq!(region_coord(31), 0);
    assert_eq!(region_coord(32), 1);
    assert_eq!(region_coord(70), 2);
    assert_eq!(region_coord(-1), -1);
    assert_eq!(region_coord(-32), -1);
    assert_eq!(region_coord(-33), -2);
    assert_eq!(region_coord(i32::MIN), -67108864);
    assert_eq!(region_coord(i32::MAX), 67108863);
}

#[test]
fn files_grouped_by_region() {
    let names = vec!["5_70", "40_70", "6_71", "notes", "-1_0", "5_5", "0_31", "x_1"];
    let buckets = get_chunks_fmap(&names);
    assert_eq!(keys(&buckets), vec![(-1, 0), (0, 0), (0, 2), (1, 2)]);
    assert_eq!(buckets[0].files, vec![4]);
    assert_eq!(buckets[1].files, vec![5, 6]);
    assert_eq!(buckets[2].files, vec![0, 2]);
    assert_eq!(buckets[3].files, vec![1]);
}

#[test]
fn every_file_is_in_one_bucket() {
    let mut owned = Vec::new();
    for x in -40..40 {
        for z in [-65, -1, 0, 33] {
            owned.push(format!("{}_{}", x * 3, z + x));
        }
    }
    let names: Vec<&str> = owned.iter().map(|s| s.as_str()).collect();
    let buckets = get_chunks_fmap(&names);
    let mut seen = vec![0; names.len()];
    for b in &buckets {
        assert!(!b.files.is_empty());
        for i in &b.files {
            seen[*i] += 1;
            let (x, z) = fname_xz(names[*i]).unwrap();
            assert_eq!((x.div_euclid(32), z.div_euclid(32)), (b.region_x, b.region_z));
        }
    }
    assert!(seen.iter().all(|n| *n == 1));
    let k = keys(&buckets);
    assert!(k.windows(2).all(|w| w[0] < w[1]));
}

#[test]
fn no_files_no_buckets() {
    assert_eq!(get_chunks_fmap(&vec![]).len(), 0);
    assert_eq!(bucket_by_region(&vec![None, None]).len(), 0);
    let buckets = bucket_by_region(&vec![None, Some((0, 0)), Some((1, 1))]);
    assert_eq!(buckets.len(), 1);
    assert_eq!(buckets[0].files, vec![1, 2]);
}

#[test]
fn slices_for_sixteen_workers() {
    let slices = worker_slices(35, 16);
    assert_eq!(slices.len(), 16);
    for k in 0..15 {
        assert_eq!(slices[k], (2 * k, 2 * k + 2));
    }
    assert_eq!(slices[15], (30, 35));
}

#[test]
fn slices_when_buckets_are_few() {
    let slices = worker_slices(3, 16);
    assert_eq!(slices.len(), 16);
    for k in 0..15 {
        assert_eq!(slices[k], (0, 0));
    }
    assert_eq!(slices[15], (0, 3));
    assert_eq!(worker_slices(0, 16), vec![(0, 0)]);
    assert_eq!(worker_slices(0, 1), vec![(0, 0)]);
    assert_eq!(worker_slices(7, 1), vec![(0, 7)]);
    assert_eq!(worker_slices(4, 2), vec![(0, 2), (2, 4)]);
    assert_eq!(worker_slices(5, 2), vec![(0, 2), (2, 5)]);
}

#[test]
fn slices_cover_every_bucket_once() {
    for workers in 1..20usize {
        for buckets in 0..70usize {
            let slices = worker_slices(buckets, workers);
            let mut next = 0;
            for (start, end) in slices {
                assert_eq!(start, next);
                assert!(start <= end);
                next = end;
            }
            assert_eq!(next, buckets);
        }
    }
}

#[test]
fn malformed_message_keeps_the_connection() {
    assert_eq!(on_message(Inbound::Malformed), Step::Skip);
    assert_eq!(on_message(Inbound::Packet), Step::Apply);
}

#[test]
fn close_and_failure_end_the_connection() {
    assert_eq!(on_message(Inbound::Control), Step::Close);
    assert_eq!(on_message(Inbound::Failure), Step::Close);
}

#[test]
fn worker_takes_files_from_the_back() {
    let mut w = WorkHandler::new(vec![4, 9, 2]);
    assert_eq!(w.len(), 3);
    assert_eq!(w.next(), Some(2));
    assert_eq!(w.next(), Some(9));
    assert_eq!(w.next(), Some(4));
    assert_eq!(w.next(), None);
    assert_eq!(w.next(), None);
    assert_eq!(w.len(), 0);
}

#[test]
fn worker_gets_the_files_of_its_buckets() {
    let names = vec!["5_70", "40_70", "6_71", "notes", "-1_0", "5_5", "0_31"];
    let buckets = get_chunks_fmap(&names);
    let mut w = WorkHandler::for_buckets(&buckets, 1, 3);
    let mut files = Vec::new();
    while let Some(f) = w.next() {
        files.push(f);
    }
    assert_eq!(files, vec![2, 0, 6, 5]);
    assert_eq!(WorkHandler::for_buckets(&buckets, 2, 2).len(), 0);
    assert_eq!(WorkHandler::for_buckets(&buckets, 0, 4).len(), 6);
}

#[test]
fn no_region_is_shared_between_workers() {
    let mut owned = Vec::new();
    for x in 0..50 {
        for z in 0..3 {
            owned.push(format!("{}_{}", x * 32 - 800, z * 40));
            owned.push(format!("{}_{}", x * 32 - 799, z * 40 + 1));
        }
    }
    let names: Vec<&str> = owned.iter().map(|s| s.as_str()).collect();
    let buckets = get_chunks_fmap(&names);
    assert_eq!(buckets.len(), 150);
    for workers in [1usize, 2, 7, 16, 200] {
        let handlers = assign(&buckets, workers);
        assert_eq!(handlers.len(), workers);
        let mut owner = vec![usize::MAX; names.len()];
        for (k, mut h) in handlers.into_iter().enumerate() {
            while let Some(f) = h.next() {
                assert_eq!(owner[f], usize::MAX);
                owner[f] = k;
            }
        }
        for b in &buckets {
            let first = owner[b.files[0]];
            assert!(first < workers);
            assert!(b.files.iter().all(|f| owner[*f] == first));
        }
    }
    let none = assign(&Vec::new(), 16);
    assert_eq!(none.len(), 1);
    assert_eq!(none[0].len(), 0);
}

#[test]
fn region_file_is_named_by_its_coordinates() {
    assert_eq!(region_file_name(0, 0), b"r.0.0.mca".to_vec());
    assert_eq!(region_file_name(1, -2), b"r.1.-2.mca".to_vec());
    assert_eq!(region_file_name(-10, 305), b"r.-10.305.mca".to_vec());
    assert_eq!(
        region_file_name(i32::MIN, i32::MAX),
        b"r.-2147483648.2147483647.mca".to_vec()
    );
}

#[test]
fn region_file_name_reads_back() {
    for (x, z) in [(0, 0), (7, -7), (-1, 99), (100, 1000), (i32::MIN, i32::MAX), (-58594, 58593)] {
        let name = String::from_utf8(region_file_name(x, z)).unwrap();
        assert_eq!(name, format!("r.{}.{}.mca", x, z));
        let stem = &name[..name.len() - 4];
        assert_eq!(RegionFile::new(stem), Some(RegionFile { x, z }));
    }
}
