use smug::remote::{BatchRead, IoVec, read_many_from};

fn requests(lens: &[usize]) -> Vec<IoVec> {
    let mut base = 0x1000u64;
    let mut out = Vec::new();
    for &l in lens {
        out.push(IoVec::new(base, l));
        base += l as u64;
    }
    out
}

fn memory(lens: &[usize]) -> Vec<Vec<u8>> {
    let mut out = Vec::new();
    let mut fill = 1u8;
    for &l in lens {
        out.push(vec![fill; l]);
        fill = fill.wrapping_add(1);
    }
    out
}

fn run(lens: &[usize], valid: &[bool]) {
    let reqs = requests(lens);
    let mem = memory(lens);
    let got = read_many_from(reqs, &valid.to_vec(), &mem);
    assert_eq!(got.len(), lens.len());
    for i in 0..lens.len() {
        if valid[i] {
            assert_eq!(got[i].as_deref(), Some(mem[i].as_slice()));
        } else {
            assert!(got[i].is_none());
        }
    }
}

#[test]
fn all_requests_valid() {
    run(&[4, 2, 8], &[true, true, true]);
}

#[test]
fn first_request_invalid() {
    run(&[4, 2, 8], &[false, true, true]);
}

#[test]
fn middle_request_invalid() {
    run(&[4, 2, 8], &[true, false, true]);
}

#[test]
fn last_request_invalid() {
    run(&[4, 2, 8], &[true, true, false]);
}

#[test]
fn all_requests_invalid() {
    run(&[4, 2, 8], &[false, false, false]);
}

#[test]
fn alternating_invalid() {
    run(&[1, 3, 2, 5, 4], &[true, false, true, false, true]);
}

#[test]
fn single_request() {
    run(&[16], &[true]);
    run(&[16], &[false]);
}

#[test]
fn machine_step_by_step() {
    // drive the protocol by hand: three requests of 4, 2 and 3 bytes;
    // the first call reads the first request and part of the second,
    // so the second fails and the next call covers only the third
    let mut m = BatchRead::new(requests(&[4, 2, 3]));
    assert_eq!(m.pending(), Some(0));
    m.apply_bytes(&[9, 9, 9, 9, 7]);
    assert_eq!(m.pending(), Some(2));
    m.apply_bytes(&[1, 2, 3]);
    assert_eq!(m.pending(), None);
    let r = m.into_results();
    assert_eq!(r[0].as_deref(), Some([9, 9, 9, 9].as_slice()));
    assert!(r[1].is_none());
    assert_eq!(r[2].as_deref(), Some([1, 2, 3].as_slice()));
}

#[test]
fn machine_boundary_read_fails_next() {
    // a call that stops exactly at a request boundary decides the
    // request after the boundary as unreadable
    let mut m = BatchRead::new(requests(&[2, 2, 2]));
    m.apply_bytes(&[5, 5]);
    assert_eq!(m.pending(), Some(2));
    m.apply_bytes(&[6, 6]);
    let r = m.into_results();
    assert_eq!(r[0].as_deref(), Some([5, 5].as_slice()));
    assert!(r[1].is_none());
    assert_eq!(r[2].as_deref(), Some([6, 6].as_slice()));
}

#[test]
fn machine_outright_failure() {
    let mut m = BatchRead::new(requests(&[2, 2]));
    m.apply_failure();
    assert_eq!(m.pending(), Some(1));
    m.apply_bytes(&[8, 8]);
    let r = m.into_results();
    assert!(r[0].is_none());
    assert_eq!(r[1].as_deref(), Some([8, 8].as_slice()));
}
