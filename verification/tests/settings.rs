//! Settings, arguments, log levels, text and number encodings.
use neuralfs::args::{cache_budget, flag_value, mode_of, Mode};
use neuralfs::codec::{u32_from_le, u32_le, u64_be, u64_from_le, u64_le};
use neuralfs::config::{Config, DEFAULT_LAMBDA};
use neuralfs::fs::{id_key, split};
use neuralfs::inode::Inode;
use neuralfs::logging::{level_from_str, LevelFilter};
use neuralfs::sorted::SortedMap;
use neuralfs::text::{
    contains, decimal, join, pad, parse_u64, parse_usize, signed_decimal, split_fields, to_hex, to_lower, trim,
};

fn args(v: &[&str]) -> Vec<String> {
    v.iter().map(|s| s.to_string()).collect()
}

#[test]
fn a_new_configuration_has_the_defaults() {
    let c = Config::initial(Some("/home/me".into()));
    assert_eq!(c.root_dirs, vec!["/home/me".to_string()]);
    assert_eq!(c.lambda, DEFAULT_LAMBDA);
    assert_eq!(f64::from_bits(DEFAULT_LAMBDA), 0.1);
    assert_eq!(c.retrain_threshold, 500);
    assert_eq!(c.max_results, 10);
    assert_eq!(c.log_level, "info");
    assert_eq!(Config::initial(None).root_dirs, vec!["C:/".to_string()]);
}

#[test]
fn settings_are_read_back_as_they_were_set() {
    let mut c = Config::initial(None);
    let lambda: Result<u64, String> = Ok(0.25f64.to_bits());
    c.set("lambda", "0.25", lambda.clone()).unwrap();
    assert_eq!(c.lambda, 0.25f64.to_bits());
    assert_eq!(c.get("lambda", "0.25").unwrap(), "0.25");
    c.set("retrain_threshold", "12", lambda.clone()).unwrap();
    assert_eq!(c.get("retrain_threshold", "").unwrap(), "12");
    c.set("max_results", "+3", lambda.clone()).unwrap();
    assert_eq!(c.get("max_results", "").unwrap(), "3");
    c.set("log_level", "debug", lambda.clone()).unwrap();
    assert_eq!(c.get("log_level", "").unwrap(), "debug");
    c.set("root_dirs", "/a;/b;", lambda).unwrap();
    assert_eq!(c.root_dirs, args(&["/a", "/b", ""]));
    assert_eq!(c.get("root_dirs", "").unwrap(), "/a;/b;");
    assert!(c.get("colour", "").is_none());
}

#[test]
fn a_refused_setting_changes_nothing() {
    let mut c = Config::initial(None);
    let bad = "invalid float literal".to_string();
    assert_eq!(c.set("lambda", "x", Err(bad.clone())), Err(bad));
    assert_eq!(
        c.set("max_results", "x", Ok(0)),
        Err("invalid digit found in string".to_string())
    );
    assert_eq!(
        c.set("retrain_threshold", "", Ok(0)),
        Err("cannot parse integer from empty string".to_string())
    );
    assert_eq!(
        c.set("colour", "red", Ok(0)),
        Err("unknown config key: colour".to_string())
    );
    assert_eq!(c.lambda, DEFAULT_LAMBDA);
    assert_eq!(c.max_results, 10);
}

#[test]
fn a_root_is_added_once() {
    let mut c = Config::initial(Some("/home".into()));
    assert!(c.add_root("/data"));
    assert!(!c.add_root("/data"));
    assert_eq!(c.root_dirs, args(&["/home", "/data"]));
}

#[test]
fn log_levels_are_named() {
    assert_eq!(level_from_str("TRACE"), LevelFilter::Trace);
    assert_eq!(level_from_str("debug"), LevelFilter::Debug);
    assert_eq!(level_from_str("Warn"), LevelFilter::Warn);
    assert_eq!(level_from_str("error"), LevelFilter::Error);
    assert_eq!(level_from_str("info"), LevelFilter::Info);
    assert_eq!(level_from_str("loud"), LevelFilter::Info);
}

#[test]
fn flags_take_the_next_argument() {
    let a = args(&["neuralfs", "--mount", "/mnt", "--backing"]);
    assert_eq!(flag_value(&a, "--mount").unwrap(), "/mnt");
    assert!(flag_value(&a, "--backing").is_none());
    assert!(flag_value(&a, "--cache-mb").is_none());
}

#[test]
fn arguments_select_the_mode() {
    assert!(matches!(mode_of(&args(&["n"])), Mode::Serve));
    assert!(matches!(mode_of(&args(&["n", "--install"])), Mode::Install));
    assert!(matches!(
        mode_of(&args(&["n", "--uninstall"])),
        Mode::Uninstall
    ));
    assert!(matches!(mode_of(&args(&["n", "--version"])), Mode::Version));
    match mode_of(&args(&["n", "--mount", "/mnt"])) {
        Mode::Mount { mountpoint } => assert_eq!(mountpoint, "/mnt"),
        _ => panic!("a mount was asked for"),
    }
    // Installing comes before mounting.
    assert!(matches!(
        mode_of(&args(&["n", "--mount", "/mnt", "--install"])),
        Mode::Install
    ));
}

#[test]
fn the_cache_budget_is_given_in_mebibytes() {
    assert_eq!(cache_budget(None), Some(1024 * 1024 * 1024));
    assert_eq!(cache_budget(Some("64".into())), Some(64 * 1024 * 1024));
    assert_eq!(cache_budget(Some("many".into())), Some(1024 * 1024 * 1024));
}

#[test]
fn numbers_are_little_and_big_endian() {
    assert_eq!(u32_le(0x0102_0304), [4, 3, 2, 1]);
    assert_eq!(u32_from_le(&[4, 3, 2, 1]), 0x0102_0304);
    assert_eq!(u64_le(1), [1, 0, 0, 0, 0, 0, 0, 0]);
    assert_eq!(u64_from_le(&u64_le(u64::MAX - 5)), u64::MAX - 5);
    assert_eq!(u64_be(0x0a0b), [0, 0, 0, 0, 0, 0, 0x0a, 0x0b]);
    assert_eq!(id_key(258), [0, 0, 0, 0, 0, 0, 1, 2]);
}

#[test]
fn paths_are_split_at_slashes() {
    assert_eq!(split("/a//b/c/"), args(&["a", "b", "c"]));
    assert_eq!(split("a"), args(&["a"]));
    assert_eq!(split("//"), Vec::<String>::new());
}

#[test]
fn texts_are_cut_and_joined() {
    assert_eq!(split_fields("a;;b", ';'), args(&["a", "", "b"]));
    assert_eq!(split_fields("", ';'), args(&[""]));
    assert_eq!(join(&args(&["a", "", "b"]), ';'), "a;;b");
    assert_eq!(join(&vec![], ';'), "");
    assert_eq!(trim(" \t a b \n"), "a b");
    assert_eq!(to_lower("ÄbC"), "äbc");
    assert!(contains("haystack", "st"));
    assert!(contains("x", ""));
    assert!(!contains("haystack", "ts"));
    assert_eq!(pad("ab", 4), "ab  ");
    assert_eq!(pad("abcde", 4), "abcde");
    assert_eq!(decimal(0), "0");
    assert_eq!(decimal(u64::MAX), "18446744073709551615");
    assert_eq!(signed_decimal(i64::MIN), "-9223372036854775808");
    assert_eq!(to_hex(&[0, 255, 16]), "00ff10");
}

#[test]
fn numbers_are_parsed() {
    assert_eq!(parse_usize("0042"), Ok(42));
    assert_eq!(parse_usize("+7"), Ok(7));
    assert!(parse_usize("-1").is_err());
    assert!(parse_usize("4 2").is_err());
    assert!(parse_usize("99999999999999999999999").is_err());
    assert_eq!(parse_u64("18446744073709551615"), Some(u64::MAX));
    assert_eq!(parse_u64("18446744073709551616"), None);
    assert_eq!(parse_u64("+0"), Some(0));
    assert_eq!(parse_u64("+"), None);
    assert_eq!(parse_u64(""), None);
    assert_eq!(parse_u64("1x"), None);
}

#[test]
fn inodes_say_what_they_are() {
    let f = Inode::File {
        size: 0,
        blocks: vec![],
        inline: vec![],
        mtime: 0,
        mode: 0o644,
    };
    let d = Inode::Dir {
        entries: SortedMap::new(),
        mtime: 0,
    };
    assert_eq!((f.is_dir(), f.kind()), (false, "file"));
    assert_eq!((d.is_dir(), d.kind()), (true, "dir"));
}

#[test]
fn a_sorted_map_keeps_its_keys_in_order() {
    let mut m: SortedMap<u64, u64> = SortedMap::new();
    // Ascending, descending and scattered keys keep the tree balanced.
    for i in 0..500u64 {
        m.insert(i * 7919 % 1009, i);
    }
    assert_eq!(m.len(), 500);
    for i in 1..m.len() {
        assert!(m.entry(i - 1).0 < m.entry(i).0);
    }
    assert_eq!(m.get(&(3 * 7919 % 1009)), Some(&3));
    assert_eq!(m.remove(&(3 * 7919 % 1009)), Some(3));
    assert_eq!(m.remove(&(3 * 7919 % 1009)), None);
    assert_eq!(m.len(), 499);
    assert!(!m.contains_key(&(3 * 7919 % 1009)));
}
