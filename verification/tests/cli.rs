use wpic::cli::{
    can_read_offset, default_dcim, detect_offset, list_header, list_line, media_dirs,
    opens_library, orient_line, parse_args, remark, username, Mount, Remark,
};
use wpic::files::{lower_ext, FileItem};
use wpic::grouping::finish;
use wpic::order::TextMap;

fn args(v: &[&str]) -> Vec<String> {
    v.iter().map(|s| s.to_string()).collect()
}

#[test]
fn options_are_told_from_paths() {
    let a = parse_args(&args(&["--list", "/c/DCIM", "-x", "b"]));
    assert!(a.list_only && !a.force_library && !a.orient);
    assert_eq!(a.paths, vec!["/c/DCIM", "b"]);
    assert!(parse_args(&args(&["-l"])).force_library);
    assert!(parse_args(&args(&["--library"])).force_library);
    assert!(parse_args(&args(&["--orient"])).orient);
    assert_eq!(parse_args(&args(&["", "-"])).paths, vec![""]);
}

#[test]
fn users_have_names() {
    assert_eq!(username(Some("u"), Some("l"), Some("/home/h")), "u");
    assert_eq!(username(None, Some("l"), Some("/home/h")), "l");
    assert_eq!(username(Some(""), Some("l"), Some("/home/h")), "h");
    assert_eq!(username(None, None, Some("/")), "root");
    assert_eq!(username(None, None, None), "root");
}

#[test]
fn the_first_card_is_taken() {
    assert_eq!(media_dirs("me"), vec!["/run/media/me", "/media/me"]);
    let m = |p: &str, d: bool| Mount { path: p.to_string(), has_dcim: d };
    let v = vec![m("/run/media/me/USB", false), m("/run/media/me/A", true), m("/media/me/B", true)];
    assert_eq!(default_dcim(&v, "me"), "/run/media/me/A/DCIM");
    assert_eq!(default_dcim(&Vec::new(), "me"), "/run/media/me/NO_CARD/DCIM");
}

#[test]
fn clocks_tell_their_offset() {
    assert_eq!(detect_offset("+0200\n"), 7200);
    assert_eq!(detect_offset("-0330\n"), -12600);
    assert_eq!(detect_offset("+0000"), 0);
    assert_eq!(detect_offset("00530"), 19800);
    assert_eq!(detect_offset("+02:00"), 0);
    assert_eq!(detect_offset("+02x0"), 0);
    assert_eq!(detect_offset(""), 0);
    assert_eq!(detect_offset("+éab"), 0);
    assert_eq!(detect_offset("++1-2"), 3480);
    assert!(can_read_offset("+0200") && can_read_offset("+éab") && can_read_offset("é"));
    assert!(!can_read_offset("éabc") && !can_read_offset("abéc"));
}

#[test]
fn the_library_is_opened_without_a_card() {
    assert!(opens_library(true, true, 5));
    assert!(opens_library(false, false, 0));
    assert!(opens_library(false, true, 0));
    assert!(!opens_library(false, true, 1));
}

#[test]
fn remarks_name_the_place() {
    assert_eq!(remark(Remark::Card, "/c"), "Scanning card /c …");
    assert_eq!(
        remark(Remark::EmptyCard, "/c"),
        "Card has no images — opening ~/Pictures library instead."
    );
    assert_eq!(remark(Remark::NoCard, "/c"), "No card at /c — opening ~/Pictures library instead.");
    assert_eq!(remark(Remark::Library, "/p"), "Scanning library /p …");
    assert_eq!(remark(Remark::EmptyLibrary, "/p"), "No photo folders found under /p.");
    assert_eq!(orient_line(6, "a.jpg"), "6\ta.jpg");
}

#[test]
fn occasions_are_listed() {
    assert_eq!(list_header(true, 2, "/p", 5), "2 folders under /p:\n");
    assert_eq!(list_header(false, 2, "/p", 5), "2 clusters (5h gap):\n");
    let item = |p: &str, size: u64| FileItem {
        path: p.to_string(),
        mtime: 0,
        ext: lower_ext(p),
        size,
    };
    let mut c = finish(
        vec![item("a.jpg", 2048), item("m.mov", 0)],
        "/p",
        &Vec::new(),
        0,
        0,
        TextMap::new(),
    );
    assert_eq!(
        list_line(1, &c, 0),
        "  1. 1970-01-01 00:00-00:00    1 pics  1 mov    2.0 KiB  [new]      1970-01-01"
    );
    c.suggested = true;
    c.target = "1970-01-01 Day".to_string();
    c.ratings.insert("a".to_string(), 1);
    c.removed = 3;
    assert_eq!(
        list_line(12, &c, 0),
        " 12. 1970-01-01 00:00-00:00    1 pics  1 mov    2.0 KiB  [existing] 1970-01-01 Day  ★1  ✗3"
    );
}
