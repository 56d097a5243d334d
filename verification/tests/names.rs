use ffs::config::Config;
use ffs::names::{element_name, element_width, is_dot_name, is_representable};
use ffs::value::{has_final_newline, kind, render, size, Value};
use ffs::fs::FileKind;
use std::time::SystemTime;

fn config(munge: Vec<(char, char)>) -> Config {
    Config {
        uid: 0,
        gid: 0,
        timestamp: SystemTime::UNIX_EPOCH,
        filemode: 0o644,
        dirmode: 0o755,
        add_newlines: true,
        pad_element_names: true,
        munge,
    }
}

#[test]
fn width_is_that_of_the_largest_index() {
    assert_eq!(element_width(0), 0);
    assert_eq!(element_width(1), 0);
    assert_eq!(element_width(2), 1);
    assert_eq!(element_width(3), 1);
    assert_eq!(element_width(10), 1);
    assert_eq!(element_width(11), 2);
    assert_eq!(element_width(100), 2);
    assert_eq!(element_width(101), 3);
    assert_eq!(element_width(1000), 3);
    assert_eq!(element_width(1001), 4);
    assert_eq!(element_width(usize::MAX), usize::MAX.to_string().len());
}

#[test]
fn element_names_without_padding() {
    assert_eq!(element_name(false, 0, 1), "0");
    assert_eq!(element_name(false, 7, 1000), "7");
    assert_eq!(element_name(false, 10, 1000), "10");
    assert_eq!(element_name(false, 12345, 100000), "12345");
    assert_eq!(element_name(false, usize::MAX, 0), usize::MAX.to_string());
}

#[test]
fn element_names_with_padding() {
    assert_eq!(element_name(true, 0, 1), "0");
    assert_eq!(element_name(true, 0, 3), "0");
    assert_eq!(element_name(true, 9, 10), "9");
    assert_eq!(element_name(true, 0, 11), "00");
    assert_eq!(element_name(true, 10, 11), "10");
    assert_eq!(element_name(true, 7, 1000), "007");
    assert_eq!(element_name(true, 42, 1001), "0042");
    // an index past the count is not cut
    assert_eq!(element_name(true, 123, 5), "123");
}

#[test]
fn representable_names() {
    assert!(is_representable("a"));
    assert!(is_representable("."));
    assert!(is_representable("a b"));
    assert!(is_representable("é"));
    assert!(!is_representable(""));
    assert!(!is_representable("a/b"));
    assert!(!is_representable("/"));
}

#[test]
fn dot_names() {
    assert!(is_dot_name(&".".to_string()));
    assert!(is_dot_name(&"..".to_string()));
    assert!(!is_dot_name(&"...".to_string()));
    assert!(!is_dot_name(&"".to_string()));
    assert!(!is_dot_name(&"a".to_string()));
}

#[test]
fn normalize_replaces_characters() {
    let c = config(vec![(' ', '_'), ('.', '-'), (' ', '+')]);
    assert_eq!(c.normalize_name("a b"), "a_b");
    assert_eq!(c.normalize_name("a.b c"), "a-b_c");
    assert_eq!(c.normalize_name("plain"), "plain");
}

#[test]
fn normalize_never_lets_a_slash_through() {
    let c = config(vec![(':', '/')]);
    assert_eq!(c.normalize_name("a/b"), "a_b");
    assert_eq!(c.normalize_name("a:b"), "a_b");
}

#[test]
fn normalize_makes_empty_and_dots_legal() {
    let c = config(Vec::new());
    assert_eq!(c.normalize_name(""), "_");
    assert_eq!(c.normalize_name("."), "_.");
    assert_eq!(c.normalize_name(".."), "_..");
    assert_eq!(c.normalize_name("..."), "...");
    let dots = config(vec![('x', '.')]);
    assert_eq!(dots.normalize_name("x"), "_.");
    assert_eq!(dots.normalize_name("xx"), "_..");
}

#[test]
fn kinds_of_values() {
    assert_eq!(kind(&Value::Null), FileKind::RegularFile);
    assert_eq!(kind(&Value::Bool(false)), FileKind::RegularFile);
    assert_eq!(kind(&Value::Number("1".to_string())), FileKind::RegularFile);
    assert_eq!(kind(&Value::String(String::new())), FileKind::RegularFile);
    assert_eq!(kind(&Value::Array(Vec::new())), FileKind::Directory);
    assert_eq!(kind(&Value::Object(Vec::new())), FileKind::Directory);
}

#[test]
fn size_counts_nodes() {
    assert_eq!(size(&Value::Null), Some(1));
    assert_eq!(size(&Value::Array(Vec::new())), Some(1));
    let v = Value::Object(vec![
        ("a".to_string(), Value::Array(vec![Value::Null, Value::Bool(true)])),
        ("b".to_string(), Value::Object(vec![("c".to_string(), Value::Null)])),
    ]);
    assert_eq!(size(&v), Some(6));
}

#[test]
fn final_newlines() {
    assert!(has_final_newline("a\n"));
    assert!(has_final_newline("\n"));
    assert!(!has_final_newline(""));
    assert!(!has_final_newline("a\nb"));
    assert!(!has_final_newline("é"));
}

#[test]
fn render_with_newlines() {
    assert_eq!(render(&Value::Null, true), b"\n");
    assert_eq!(render(&Value::Bool(true), true), b"true\n");
    assert_eq!(render(&Value::Bool(false), true), b"false\n");
    assert_eq!(render(&Value::Number("-1.5e3".to_string()), true), b"-1.5e3\n");
    assert_eq!(render(&Value::String("hi".to_string()), true), b"hi\n");
    assert_eq!(render(&Value::String("hi\n".to_string()), true), b"hi\n");
    assert_eq!(render(&Value::String(String::new()), true), b"\n");
    assert_eq!(render(&Value::String("é".to_string()), true), "é\n".as_bytes());
}

#[test]
fn render_without_newlines() {
    assert_eq!(render(&Value::Null, false), b"");
    assert_eq!(render(&Value::Bool(true), false), b"true");
    assert_eq!(render(&Value::Bool(false), false), b"false");
    assert_eq!(render(&Value::Number("12".to_string()), false), b"12");
    assert_eq!(render(&Value::String("hi".to_string()), false), b"hi");
    assert_eq!(render(&Value::String("hi\n".to_string()), false), b"hi\n");
}
