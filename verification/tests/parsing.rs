use smug::num::{parse_u64, parse_u64_dec, parse_u64_hex, parse_i64};
use smug::proc_maps::{Maps, Permissions, Region, RegionFilter};
use smug::{Error, Pid};

#[test]
fn decimal_literals() {
    assert_eq!(parse_u64_dec(b"0"), Ok(0));
    assert_eq!(parse_u64_dec(b"42"), Ok(42));
    assert_eq!(parse_u64_dec(b"18446744073709551615"), Ok(u64::MAX));
    assert_eq!(parse_u64_dec(b"18446744073709551616"), Err(Error::ParseUnsigned));
    assert_eq!(parse_u64_dec(b""), Err(Error::ParseUnsigned));
    assert_eq!(parse_u64_dec(b"12a"), Err(Error::ParseUnsigned));
}

#[test]
fn hex_literals() {
    assert_eq!(parse_u64_hex(b"ff"), Ok(255));
    assert_eq!(parse_u64_hex(b"FF"), Ok(255));
    assert_eq!(parse_u64_hex(b"DeadBeef"), Ok(0xdead_beef));
    assert_eq!(parse_u64_hex(b"g1"), Err(Error::ParseUnsigned));
    assert_eq!(parse_u64(b"0x10"), Ok(16));
    assert_eq!(parse_u64(b"0X10"), Ok(16));
    assert_eq!(parse_u64(b"10"), Ok(10));
    assert_eq!(parse_u64(b"0x"), Err(Error::ParseUnsigned));
}

#[test]
fn signed_literals() {
    assert_eq!(parse_i64(b"-1"), Ok(-1));
    assert_eq!(parse_i64(b"-0x10"), Ok(-16));
    assert_eq!(parse_i64(b"9223372036854775807"), Ok(i64::MAX));
    assert_eq!(parse_i64(b"-9223372036854775808"), Ok(i64::MIN));
    assert_eq!(parse_i64(b"-9223372036854775809"), Err(Error::ParseSigned));
    assert_eq!(parse_i64(b"9223372036854775808"), Err(Error::ParseSigned));
}

#[test]
fn pid_parsing() {
    assert_eq!(Pid::parse(b"123"), Ok(Pid(123)));
    assert_eq!(Pid::parse(b"0"), Err(Error::ZeroPid));
    assert_eq!(Pid::parse(b"abc"), Err(Error::PidNotInt));
    assert!(Pid::new(7).is_some());
    assert!(Pid::new(0).is_none());
}

#[test]
fn permission_field() {
    let p = Permissions::from_str(b"rw-p").unwrap();
    assert!(p.read && p.write && !p.execute && !p.shared);
    let q = Permissions::from_str(b"r-xs").unwrap();
    assert!(q.read && !q.write && q.execute && q.shared);
    assert!(Permissions::from_str(b"rw").is_none());
}

#[test]
fn region_line_parsing() {
    let line = b"7f1200000000-7f1200021000 rw-p 00000000 00:00 1234 /usr/lib/libm.so";
    let r = Region::from_line(line).unwrap();
    assert_eq!(r.start, 0x7f12_0000_0000);
    assert_eq!(r.end, 0x7f12_0002_1000);
    assert!(r.perms.read && r.perms.write && !r.perms.execute);
    assert_eq!(r.path.as_deref(), Some(b"/usr/lib/libm.so".as_slice()));
}

#[test]
fn region_line_without_path() {
    let r = Region::from_line(b"1000-2000 r--p 00000000 00:00 0").unwrap();
    assert_eq!(r.start, 0x1000);
    assert_eq!(r.end, 0x2000);
    assert!(r.path.is_none());
}

#[test]
fn region_line_with_spaced_path() {
    let r = Region::from_line(b"1000-2000 r--p 0 0 0 /tmp/a b").unwrap();
    assert_eq!(r.path.as_deref(), Some(b"/tmp/a b".as_slice()));
}

#[test]
fn region_line_rejects_bad_input() {
    assert!(Region::from_line(b"").is_none());
    assert!(Region::from_line(b"nonsense").is_none());
    // an empty range names no region
    assert!(Region::from_line(b"1000-1000 rw-p 0 0 0").is_none());
    // a reversed range names no region
    assert!(Region::from_line(b"2000-1000 rw-p 0 0 0").is_none());
    assert!(Region::from_line(b"10zz-2000 rw-p 0 0 0").is_none());
}

#[test]
fn interesting_classification() {
    let plain = Region::from_line(b"1000-2000 rw-p 0 0 0").unwrap();
    assert!(plain.is_interesting());
    let vdso = Region::from_line(b"1000-2000 r-xp 0 0 0 [vdso]").unwrap();
    assert!(!vdso.is_interesting());
    let vvar = Region::from_line(b"1000-2000 r--p 0 0 0 [vvar_vclock]").unwrap();
    assert!(!vvar.is_interesting());
    let dev = Region::from_line(b"1000-2000 rw-p 0 0 0 /dev/dri/card0").unwrap();
    assert!(!dev.is_interesting());
    let deleted = Region::from_line(b"1000-2000 rw-p 0 0 0 /usr/lib/x.so (deleted)").unwrap();
    assert!(!deleted.is_interesting());
    let memfd = Region::from_line(b"1000-2000 rw-p 0 0 0 memfd:jit (deleted)").unwrap();
    assert!(!memfd.is_interesting());
    let unreadable = Region::from_line(b"1000-2000 ---p 0 0 0").unwrap();
    assert!(!unreadable.is_interesting());
    let stack = Region::from_line(b"1000-2000 rw-p 0 0 0 [stack]").unwrap();
    assert!(stack.is_interesting());
}

#[test]
fn file_backed_classification() {
    let lib = Region::from_line(b"1000-2000 r-xp 0 0 0 /usr/lib/libm.so").unwrap();
    assert!(lib.is_likely_file_backed());
    let stack = Region::from_line(b"1000-2000 rw-p 0 0 0 [stack]").unwrap();
    assert!(!stack.is_likely_file_backed());
    let anon = Region::from_line(b"1000-2000 rw-p 0 0 0").unwrap();
    assert!(!anon.is_likely_file_backed());
    let tmp = Region::from_line(b"1000-2000 rw-p 0 0 0 /tmp/scratch").unwrap();
    assert!(!tmp.is_likely_file_backed());
    let shm = Region::from_line(b"1000-2000 rw-p 0 0 0 /dev/shm/seg").unwrap();
    assert!(!shm.is_likely_file_backed());
}

const MAP_TEXT: &[u8] = b"1000-2000 r--p 0 0 0\n\
3000-4000 rw-p 0 0 0\n\
5000-6000 rw-p 0 0 0 [vdso]\n\
7000-8000 ---p 0 0 0\n\
junk line\n\
9000-a000 rwxp 0 0 0 /usr/bin/app\n";

#[test]
fn map_filters() {
    assert_eq!(Maps::all_regions(MAP_TEXT).0.len(), 5);
    assert_eq!(Maps::r_regions(MAP_TEXT).0.len(), 4);
    assert_eq!(Maps::rw_regions(MAP_TEXT).0.len(), 3);
    // interesting: read-write and not a pseudo mapping
    let int = Maps::interesting_regions(MAP_TEXT);
    assert_eq!(int.0.len(), 2);
    assert_eq!(int.0[0].start, 0x3000);
    assert_eq!(int.0[1].start, 0x9000);
    let ri = Maps::regions(MAP_TEXT, RegionFilter::InterestingReadable);
    assert_eq!(ri.0.len(), 3);
}

#[test]
fn map_sorted_check() {
    assert!(Maps::all_regions(MAP_TEXT).is_sorted());
    let overlapping = Maps::all_regions(b"1000-3000 r--p 0 0 0\n2000-4000 r--p 0 0 0\n");
    assert!(!overlapping.is_sorted());
}

#[test]
fn region_lookup_matches_linear_scan() {
    let m = Maps::all_regions(b"1000-2000 r--p 0 0 0\n3000-4000 rw-p 0 0 0\n4000-5000 rw-p 0 0 0\n");
    assert!(m.is_sorted());
    // the lookup agrees with a straight linear sweep on every probe
    for addr in [0u64, 0xfff, 0x1000, 0x1fff, 0x2000, 0x2fff, 0x3000, 0x4000, 0x4fff, 0x5000, u64::MAX] {
        let linear = m.0.iter().find(|r| r.start <= addr && addr < r.end);
        let found = smug::proc_maps::get_addr_region(&m.0, addr);
        match (linear, found) {
            (Some(a), Some(b)) => {
                assert_eq!(a.start, b.start);
                assert_eq!(a.end, b.end);
            },
            (None, None) => {},
            _ => panic!("lookup disagrees with the linear sweep at 0x{addr:x}"),
        }
    }
}
