use nitrousoxide::syms::{
    exec_maps_named, has_prefix, nm_output_is_complete, parse_hex, parse_nm_output, select_object_files, MapRange,
};

fn hex(s: &str) -> Option<u64> {
    let v = s.as_bytes().to_vec();
    parse_hex(&v, 0, v.len())
}

fn names(out: &str) -> Vec<(String, u64)> {
    let v = out.as_bytes().to_vec();
    assert!(nm_output_is_complete(&v));
    parse_nm_output(&v)
        .into_iter()
        .map(|(n, a)| (String::from_utf8(n).unwrap(), a))
        .collect()
}

#[test]
fn nm_output_symbols() {
    let out = "0000000000001139 T main\n                 U printf@GLIBC_2.2.5\n0000000000004010 B __bss_start\n";
    assert_eq!(
        names(out),
        vec![("main".to_string(), 0x1139), ("__bss_start".to_string(), 0x4010)]
    );
}

#[test]
fn nm_output_crlf_and_last_line() {
    let out = "00000000000000ff t a b\r\n0000000000000010 T last";
    assert_eq!(names(out), vec![("a b".to_string(), 0xff), ("last".to_string(), 0x10)]);
}

#[test]
fn nm_output_bare_cr_is_kept_in_last_line() {
    let out = "10 T x\r";
    assert_eq!(names(out), vec![("x\r".to_string(), 0x10)]);
}

#[test]
fn nm_output_empty() {
    assert_eq!(names(""), vec![]);
}

#[test]
fn nm_output_line_without_name() {
    let v = "0000000000001139 T main\n\n".as_bytes().to_vec();
    assert!(!nm_output_is_complete(&v));
    let v = "0000000000001139 main\n".as_bytes().to_vec();
    assert!(!nm_output_is_complete(&v));
}

#[test]
fn hex_fields() {
    assert_eq!(hex("1f"), Some(31));
    assert_eq!(hex("+1F"), Some(31));
    assert_eq!(hex("+"), None);
    assert_eq!(hex(""), None);
    assert_eq!(hex("-1"), None);
    assert_eq!(hex("1g"), None);
    assert_eq!(hex("ffffffffffffffff"), Some(u64::MAX));
    assert_eq!(hex("0000ffffffffffffffff"), Some(u64::MAX));
    assert_eq!(hex("10000000000000000"), None);
    assert_eq!(hex("10000000000000000g"), None);
    assert_eq!(hex(" 1"), None);
}

fn map(flags: &str, file: Option<&str>) -> MapRange {
    MapRange { flags: flags.as_bytes().to_vec(), filename: file.map(|f| f.as_bytes().to_vec()) }
}

#[test]
fn object_files_of_maps() {
    let maps = vec![
        map("r--p", Some("/home/u/prog")),
        map("r-xp", Some("/home/u/prog")),
        map("rw-p", None),
        map("r-xp", Some("/lib/x86_64-linux-gnu/libc.so.6")),
        map("r-xp", Some("/usr/lib/x86_64-linux-gnu/libm.so.6")),
        map("r-xp", Some("/usr/lib/x86_64-linux-gnu-extra/libz.so")),
        map("r-xp", Some("[vdso]")),
        map("r-xp", Some("/opt/lib/libjit.so")),
    ];
    let got: Vec<String> = select_object_files(&maps)
        .into_iter()
        .map(|f| String::from_utf8(f).unwrap())
        .collect();
    assert_eq!(
        got,
        vec![
            "/home/u/prog".to_string(),
            "/usr/lib/x86_64-linux-gnu-extra/libz.so".to_string(),
            "/opt/lib/libjit.so".to_string(),
        ]
    );
}

#[test]
fn executable_maps_need_files() {
    assert!(exec_maps_named(&vec![map("rw-p", None), map("r-xp", Some("/a"))]));
    assert!(!exec_maps_named(&vec![map("r-xp", None)]));
    assert!(exec_maps_named(&vec![]));
}

#[test]
fn byte_prefixes() {
    assert!(has_prefix(&b"/usr/lib".to_vec(), b"/usr"));
    assert!(has_prefix(&b"/usr".to_vec(), b""));
    assert!(!has_prefix(&b"/us".to_vec(), b"/usr"));
    assert!(!has_prefix(&b"/opt".to_vec(), b"/usr"));
}
