use smug::proc_maps::Maps;
use smug::remote::IoVec;

fn catalog(text: &[u8]) -> Maps {
    let m = Maps::all_regions(text);
    assert!(m.is_sorted());
    m
}

fn flat(batches: &Vec<Vec<IoVec>>) -> Vec<(u64, u64)> {
    let mut out = Vec::new();
    for b in batches {
        for iv in b {
            out.push((iv.base, iv.base + iv.len as u64));
        }
    }
    out
}

#[test]
fn planner_reconstructs_regions() {
    let m = catalog(b"1000-2000 rw-p 0 0 0\n3000-3800 rw-p 0 0 0\n4000-4004 rw-p 0 0 0\n");
    let batches = m.chunks(0, u64::MAX, 0x10000, 8);
    // one batch holds everything within budget
    assert_eq!(batches.len(), 1);
    assert_eq!(
        flat(&batches),
        vec![(0x1000, 0x2000), (0x3000, 0x3800), (0x4000, 0x4004)]
    );
}

#[test]
fn planner_splits_large_regions() {
    let m = catalog(b"1000-2000 rw-p 0 0 0\n");
    let batches = m.chunks(0, u64::MAX, 0x400, 8);
    // a 4 KiB region under a 1 KiB budget: four single-request batches
    assert_eq!(batches.len(), 4);
    for b in &batches {
        assert_eq!(b.len(), 1);
        assert_eq!(b[0].len, 0x400);
    }
    // concatenated back together, the requests cover the region with
    // no gap and no overlap
    let f = flat(&batches);
    assert_eq!(f.first().unwrap().0, 0x1000);
    assert_eq!(f.last().unwrap().1, 0x2000);
    for w in f.windows(2) {
        assert_eq!(w[0].1, w[1].0);
    }
}

#[test]
fn planner_honours_request_count() {
    let m = catalog(
        b"1000-1001 rw-p 0 0 0\n2000-2001 rw-p 0 0 0\n3000-3001 rw-p 0 0 0\n4000-4001 rw-p 0 0 0\n",
    );
    let batches = m.chunks(0, u64::MAX, 0x10000, 3);
    assert_eq!(batches.len(), 2);
    assert_eq!(batches[0].len(), 3);
    assert_eq!(batches[1].len(), 1);
}

#[test]
fn planner_honours_byte_budget() {
    let m = catalog(b"1000-1400 rw-p 0 0 0\n2000-2400 rw-p 0 0 0\n");
    let batches = m.chunks(0, u64::MAX, 0x600, 8);
    // the second region does not fit the first batch's remaining budget
    assert_eq!(batches.len(), 2);
    assert_eq!(batches[0].len(), 2);
    assert_eq!(batches[0][0].len, 0x400);
    assert_eq!(batches[0][1].len, 0x200);
    assert_eq!(batches[1].len(), 1);
    assert_eq!(batches[1][0].base, 0x2200);
    for b in &batches {
        let total: usize = b.iter().map(|iv| iv.len).sum();
        assert!(total <= 0x600);
    }
}

#[test]
fn planner_clips_to_range() {
    let m = catalog(b"1000-2000 rw-p 0 0 0\n3000-4000 rw-p 0 0 0\n");
    let batches = m.chunks(0x1800, 0x3400, 0x10000, 8);
    assert_eq!(flat(&batches), vec![(0x1800, 0x2000), (0x3000, 0x3400)]);
    // a range that misses every region plans nothing
    let empty = m.chunks(0x5000, 0x6000, 0x10000, 8);
    assert!(empty.is_empty());
}

#[test]
fn io_vec_construction() {
    let iv = IoVec::new(0x1234, 16);
    assert_eq!(iv.base, 0x1234);
    assert_eq!(iv.len, 16);
}
