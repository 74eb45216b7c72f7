use linux_disk_prune::path::FsPath;
use linux_disk_prune::util::{euid, fmt_count, fmt_size, is_root, parse_size, real_user_home, running_kernel, shq, strip_ansi, tilde};

#[test]
fn sizes() {
    assert_eq!(parse_size("500M").unwrap(), 500 << 20);
    assert_eq!(parse_size("1GiB").unwrap(), 1 << 30);
    assert_eq!(parse_size("4096").unwrap(), 4096);
    assert!(parse_size("5X").is_err());
}

#[test]
fn quoting() {
    assert_eq!(shq("/var/log"), "/var/log");
    assert_eq!(shq("a b"), "'a b'");
    assert_eq!(shq("it's"), r"'it'\''s'");
}

#[test]
fn counts() {
    assert_eq!(fmt_count(1234567), "1,234,567");
    assert_eq!(fmt_count(12), "12");
}

#[test]
fn sizes_with_fractions_units_and_spaces() {
    assert_eq!(parse_size("1.5G"), Ok(3 << 29));
    assert_eq!(parse_size(" 200 mib "), Ok(200 << 20));
    assert_eq!(parse_size("2TB"), Ok(2 << 40));
    assert_eq!(parse_size(".5k"), Ok(512));
    assert_eq!(parse_size("7."), Ok(7));
    assert_eq!(parse_size("0.1"), Ok(0));
    // 0.1 has no finite binary form: 0.1 * 2^20 is 104857.6.
    assert_eq!(parse_size("0.1M"), Ok(104857));
    assert_eq!(parse_size("18446744073709551615"), Ok(u64::MAX));
}

#[test]
fn sizes_that_are_refused_say_why() {
    assert_eq!(parse_size("abc"), Err("invalid size: abc".to_string()));
    assert_eq!(parse_size(""), Err("invalid size: ".to_string()));
    assert_eq!(parse_size("1.2.3M"), Err("invalid size: 1.2.3M".to_string()));
    assert_eq!(parse_size("5\"X"), Err("unknown size unit in \"5\\\"X\" (use K, M, G or T)".to_string()));
    assert_eq!(parse_size("99999999999T"), Err("size too large: 99999999999T".to_string()));
}

#[test]
fn sizes_are_shown_in_binary_units() {
    assert_eq!(fmt_size(0), "0 B");
    assert_eq!(fmt_size(1 << 20), "1.0 MiB");
    assert_eq!(fmt_size(3 << 29), "1.5 GiB");
}

#[test]
fn colour_sequences_are_stripped() {
    assert_eq!(strip_ansi("\x1b[31mred\x1b[0m text"), "red text");
    assert_eq!(strip_ansi("plain"), "plain");
    assert_eq!(strip_ansi("cut \x1b[3"), "cut ");
    assert_eq!(strip_ansi("lone \x1b x"), "lone \x1b x");
}

#[test]
fn empty_and_unsafe_words_are_quoted() {
    assert_eq!(shq(""), "''");
    assert_eq!(shq("a;b"), "'a;b'");
    assert_eq!(shq("ü"), "'ü'");
    assert_eq!(shq("k=v@h:%,+_-./"), "k=v@h:%,+_-./");
}

#[test]
fn home_is_shown_as_a_tilde() {
    let home = FsPath::new("/home/u");
    assert_eq!(tilde(&FsPath::new("/home/u"), &home), "~");
    assert_eq!(tilde(&FsPath::new("/home/u/x/y"), &home), "~/x/y");
    assert_eq!(tilde(&FsPath::new("/home/user2"), &home), "/home/user2");
    assert_eq!(tilde(&FsPath::from_bytes(b"/tmp/caf\xe9".to_vec()), &home), "/tmp/caf\u{FFFD}");
}

const STATUS: &str = "Name:\tx\nUid:\t1000\t1001\t1000\t1000\nGid:\t5\t5\t5\t5\n";

#[test]
fn effective_user_and_home() {
    assert_eq!(euid(Some(STATUS)), 1001);
    assert_eq!(euid(Some("Name:\tx\n")), u32::MAX);
    assert_eq!(euid(None), u32::MAX);
    assert!(is_root(Some("Uid:\t1000\t0\t0\t0\n")) && !is_root(Some(STATUS)));

    let passwd = "root:x:0:0::/root:/bin/sh\nshort:x:1\nann:x:1000:1000:Ann:/data/ann:/bin/sh\n";
    let home = || Some(FsPath::new("/env/home"));
    assert!(real_user_home(true, Some("ann"), Some(passwd), home()).is("/data/ann"));
    assert!(real_user_home(true, Some("short"), Some(passwd), home()).is("/env/home"));
    assert!(real_user_home(false, Some("ann"), Some(passwd), home()).is("/env/home"));
    assert!(real_user_home(true, None, None, None).is("/root"));
    assert_eq!(running_kernel(Some(" 6.8.0-100-generic\n")), "6.8.0-100-generic");
    assert_eq!(running_kernel(None), "");
}
