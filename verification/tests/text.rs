//! File names, truncation, and names of processes.

use macswapi::names::{
    cstr_buf, name_by_path, name_by_request, name_of_path, pid_name, NameStep,
};
use macswapi::text::{basename, truncate};

#[test]
fn test_basename() {
    assert_eq!(basename("/usr/bin/node"), "node");
    assert_eq!(basename("node"), "node");
    assert_eq!(basename("/usr/bin/"), "/usr/bin/"); // trailing slash → whole
    assert_eq!(basename(""), "");
}

#[test]
fn test_truncate() {
    assert_eq!(truncate("abcdef", 0), "");
    assert_eq!(truncate("abcdef", 1), "…");
    assert_eq!(truncate("abcdef", 4), "abc…");
    assert_eq!(truncate("abc", 4), "abc");
}

#[test]
fn characters_count_not_bytes() {
    assert_eq!(truncate("äöüß", 4), "äöüß");
    assert_eq!(truncate("äöüßé", 4), "äöü…");
    assert_eq!(basename("/Programme/Übung/日本"), "日本");
    assert_eq!(basename("/"), "/");
    assert_eq!(basename("a//b"), "b");
    assert_eq!(truncate("", 0), "");
    assert_eq!(truncate("", 3), "");
}

#[test]
fn file_name_of_a_file_name_is_itself() {
    for path in ["/usr/bin/node", "node", "/usr/bin/", "", "/", "a/b/", "x/y"] {
        assert_eq!(basename(basename(path)), basename(path));
    }
}

#[test]
fn strings_end_at_the_first_zero() {
    assert_eq!(cstr_buf(b"node\0junk\0"), "node");
    assert_eq!(cstr_buf(b"node"), "node");
    assert_eq!(cstr_buf(b"\0node"), "");
    assert_eq!(cstr_buf(b""), "");
    assert_eq!(cstr_buf("grün\0".as_bytes()), "grün");
}

#[test]
fn invalid_bytes_are_replaced() {
    assert_eq!(cstr_buf(b"a\xffb\0"), "a\u{FFFD}b");
    assert_eq!(cstr_buf(b"\xe2\x82\0"), "\u{FFFD}");
    assert!(!cstr_buf(b"a\xc0\x80b\0").contains('\0'));
}

#[test]
fn processes_are_named_by_their_path() {
    assert_eq!(name_by_path(13, b"/usr/bin/node\0\0\0"), Some("node".to_string()));
    assert_eq!(name_by_path(8, b"/usr/bin/node\0\0\0"), Some("bin".to_string()));
    assert_eq!(name_by_path(5, b"/bin/\0"), Some("/bin/".to_string()));
    assert_eq!(name_by_path(0, b"/usr/bin/node"), None);
    assert_eq!(name_by_path(-1, b"/usr/bin/node"), None);
    assert_eq!(name_by_path(14, b"/usr/bin/node"), None);
    assert_eq!(name_by_path(4, b"\0usr"), None);
    assert_eq!(name_of_path(""), None);
    assert_eq!(name_of_path("/a/b"), Some("b".to_string()));
}

#[test]
fn processes_without_a_path_are_named_by_request() {
    assert_eq!(name_by_request(7, 6, b"kernel\0"), "kernel");
    assert_eq!(name_by_request(7, 7, b"ker/nel\0"), "ker/nel");
    assert_eq!(name_by_request(7, 0, b"kernel"), "pid 7");
    assert_eq!(name_by_request(-7, -1, b"kernel"), "pid -7");
    assert_eq!(name_by_request(7, 9, b"kernel"), "pid 7");
    assert_eq!(name_by_request(0, 3, b"\0\0\0"), "pid 0");
    assert_eq!(pid_name(i32::MIN), "pid -2147483648");
    assert_eq!(pid_name(i32::MAX), "pid 2147483647");
}

#[test]
fn names_are_found_in_two_steps() {
    let done = |name: &str| NameStep::Done { name: name.to_string() };
    assert_eq!(NameStep::AskPath.next(7, 4, b"/bin/sh\0"), done("bin"));
    let step = NameStep::AskPath.next(7, 0, b"/bin/sh\0");
    assert_eq!(step, NameStep::AskName);
    assert_eq!(step.next(7, 2, b"/s\0"), done("/s"));
    assert_eq!(NameStep::AskName.next(7, -1, b"/s\0"), done("pid 7"));
    assert_eq!(done("x").next(7, 2, b"/s\0"), done("x"));
}
