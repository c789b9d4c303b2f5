use jstack_flame::process::{parse_process_list, parse_u32};

#[test]
fn parse_u32_accepts_plain_digits() {
    assert_eq!(parse_u32("0"), Some(0));
    assert_eq!(parse_u32("12345"), Some(12345));
    assert_eq!(parse_u32("4294967295"), Some(u32::MAX));
}

#[test]
fn parse_u32_rejects_non_numbers_and_overflow() {
    assert_eq!(parse_u32(""), None);
    assert_eq!(parse_u32("12a"), None);
    assert_eq!(parse_u32("-5"), None);
    assert_eq!(parse_u32("4294967296"), None);
}

#[test]
fn process_list_takes_two_token_lines() {
    let out = "1234 com.example.Main\n77 org.demo.App\n";
    let v = parse_process_list(out).unwrap();
    assert_eq!(v.len(), 2);
    assert_eq!(v[0].pid, 1234);
    assert_eq!(v[0].name, "com.example.Main");
    assert_eq!(v[1].pid, 77);
    assert_eq!(v[1].name, "org.demo.App");
}

#[test]
fn process_list_skips_lines_of_other_shapes() {
    let out = "9 a b c\nonly-one-token\n\n42 kept.App\n";
    let v = parse_process_list(out).unwrap();
    assert_eq!(v.len(), 1);
    assert_eq!(v[0].pid, 42);
    assert_eq!(v[0].name, "kept.App");
}

#[test]
fn process_list_fails_on_bad_pid() {
    let out = "1234 fine.App\nnope com.example.Main\n";
    let e = parse_process_list(out).unwrap_err();
    assert_eq!(e, "Failed to parse PID");
}
