use smug::constraint::Constraint;
use smug::scanner::{diff, rescan_eval, scan_chunk, Scanner};
use smug::value::Value;
use smug::Pid;

#[test]
fn diff_reports_additions_only() {
    // the newer of the two sets adds 25 and 40 and drops 20
    let older = vec![10u64, 20, 30];
    let newer = vec![10u64, 25, 30, 40];
    assert_eq!(diff(&older, &newer), vec![25, 40]);
}

#[test]
fn diff_edges() {
    assert_eq!(diff(&vec![], &vec![1, 2]), vec![1, 2]);
    assert_eq!(diff(&vec![1, 2], &vec![]), Vec::<u64>::new());
    assert_eq!(diff(&vec![1, 2], &vec![1, 2]), Vec::<u64>::new());
    assert_eq!(diff(&vec![5], &vec![1, 9]), vec![1, 9]);
}

#[test]
fn history_appends_and_indexes() {
    let mut s = Scanner::new(Pid(42));
    assert_eq!(s.pid(), Pid(42));
    assert!(s.entry(0).is_none());
    s.commit(vec![1, 2, 3]);
    s.commit(Vec::new());  // an empty scan still appends
    s.commit(vec![7]);
    assert_eq!(s.results.len(), 3);
    // index 0 names the most recent entry
    assert_eq!(s.entry(0).unwrap(), &vec![7]);
    // from 1 on, entries count from the oldest
    assert_eq!(s.entry(1).unwrap(), &vec![1, 2, 3]);
    assert_eq!(s.entry(2).unwrap(), &Vec::<u64>::new());
    assert_eq!(s.entry(3).unwrap(), &vec![7]);
    // an index past the history is silently empty, not an error
    assert!(s.entry(4).is_none());
}

#[test]
fn scan_finds_matching_candidates() {
    // u16 candidates at 0x1000: 5, 7, 5, 9
    let mem: Vec<u8> = vec![5, 0, 7, 0, 5, 0, 9, 0];
    let kind = Value::U16(0);
    let cs = vec![Constraint::from_str_value(b"=5", kind).unwrap()];
    assert_eq!(scan_chunk(0x1000, &mem, kind, &cs), vec![0x1000, 0x1004]);
}

#[test]
fn scan_ignores_trailing_remainder() {
    // nine bytes of u32 candidates: two full chunks, one byte left over
    let mem: Vec<u8> = vec![1, 0, 0, 0, 1, 0, 0, 0, 1];
    let kind = Value::U32(0);
    let cs = vec![Constraint::from_str_value(b"=1", kind).unwrap()];
    assert_eq!(scan_chunk(0, &mem, kind, &cs), vec![0, 4]);
}

#[test]
fn scan_with_conjunction() {
    let mem: Vec<u8> = vec![5, 15, 25, 35];
    let kind = Value::U8(0);
    let cs = vec![
        Constraint::from_str_value(b">10", kind).unwrap(),
        Constraint::from_str_value(b"<30", kind).unwrap(),
    ];
    assert_eq!(scan_chunk(0x40, &mem, kind, &cs), vec![0x41, 0x42]);
}

#[test]
fn rescan_only_narrows() {
    let entry = vec![0x100u64, 0x200, 0x300];
    let kind = Value::U8(0);
    // address 0x200 is no longer readable; 0x300 no longer matches
    let reads = vec![Some(vec![9u8]), None, Some(vec![1u8])];
    let cs = vec![Constraint::from_str_value(b"=9", kind).unwrap()];
    let kept = rescan_eval(&entry, &reads, kind, &cs, None);
    assert_eq!(kept, vec![0x100]);
    // every surviving address came from the chosen entry
    assert!(kept.iter().all(|a| entry.contains(a)));
}

#[test]
fn rescan_with_prior_values() {
    let entry = vec![0x10u64, 0x20];
    let kind = Value::U32(0);
    let reads = vec![Some(vec![105, 0, 0, 0]), Some(vec![106, 0, 0, 0])];
    let prevs = vec![Value::U32(100), Value::U32(100)];
    let cs = vec![Constraint::from_str_value(b"+5", kind).unwrap()];
    assert_eq!(rescan_eval(&entry, &reads, kind, &cs, Some(&prevs)), vec![0x10]);
}

#[test]
fn rescan_may_empty_the_set() {
    let entry = vec![0x10u64];
    let kind = Value::U8(0);
    let reads = vec![None];
    let cs: Vec<Constraint> = Vec::new();
    assert_eq!(rescan_eval(&entry, &reads, kind, &cs, None), Vec::<u64>::new());
}
