use wpic::files::{
    by_time, count_removed, entry_with_ext, file_item, is_jpg, is_media, is_movie, is_nef,
    item_with_ext, lower_ext, read_item, FileItem, Stat,
};

fn item(path: &str, mtime: i64) -> FileItem {
    FileItem { path: path.to_string(), mtime, ext: lower_ext(path), size: 1 }
}

#[test]
fn extensions_tell_the_kind() {
    for e in ["jpg", "jpeg", "nef", "mov", "mp4", "raw"] {
        assert!(is_media(e));
    }
    for e in ["", "JPG", "png", "xmp", "jp"] {
        assert!(!is_media(e));
    }
    assert!(is_jpg("jpeg") && !is_jpg("nef"));
    assert!(is_nef("nef") && !is_nef("jpg"));
    assert!(is_movie("mp4") && !is_movie("raw"));
    assert!(item("a.jpg", 0).is_photo() && item("a.NEF", 0).is_photo());
    assert!(!item("a.raw", 0).is_photo() && item("a.MOV", 0).is_movie());
}

#[test]
fn extensions_are_in_lower_case() {
    assert_eq!(lower_ext("/c/DSC_1.NEF"), "nef");
    assert_eq!(lower_ext("/c/a.JpEg"), "jpeg");
    assert_eq!(lower_ext("/c/noext"), "");
    assert_eq!(lower_ext("/c/a.ÄB"), "äb");
}

#[test]
fn entries_that_are_media_files_are_read() {
    let st = Stat { since_epoch: Some(77), size: 9 };
    let f = read_item("/c/A.JPG".to_string(), true, Some(st)).unwrap();
    assert_eq!((f.path.as_str(), f.mtime, f.ext.as_str(), f.size), ("/c/A.JPG", 77, "jpg", 9));
    assert!(read_item("/c/A.JPG".to_string(), false, Some(st)).is_none());
    assert!(read_item("/c/A.TXT".to_string(), true, Some(st)).is_none());
    assert!(read_item("/c/A.JPG".to_string(), true, None).is_none());
    let early = Stat { since_epoch: None, size: 0 };
    assert_eq!(read_item("/c/a.nef".to_string(), true, Some(early)).unwrap().mtime, 0);
    assert_eq!(file_item("/c/a.txt".to_string(), Some(st)).unwrap().ext, "txt");
    assert!(file_item("/c/a.txt".to_string(), None).is_none());
    assert!(item_with_ext("p".to_string(), "e".to_string(), None).is_none());
    assert!(entry_with_ext("p".to_string(), "png".to_string(), true, Some(st)).is_none());
    assert_eq!(entry_with_ext("p".to_string(), "raw".to_string(), true, Some(st)).unwrap().size, 9);
}

#[test]
fn files_are_sorted_by_time_and_ties_stay() {
    let v = by_time(vec![item("b", 5), item("x", 9), item("a", 5), item("y", 1)]);
    let names: Vec<&str> = v.iter().map(|f| f.path.as_str()).collect();
    assert_eq!(names, vec!["y", "b", "a", "x"]);
}

#[test]
fn removed_shots_are_counted_by_their_jpegs() {
    let v = vec![item("a.jpg", 0), item("a.nef", 0), item("b.nef", 0), item("c.JPEG", 0)];
    assert_eq!(count_removed(&v), 2);
    assert_eq!(count_removed(&Vec::new()), 0);
}

#[test]
fn copies_say_the_same() {
    let f = item("/x/a.jpg", 3).copy();
    assert_eq!((f.path.as_str(), f.mtime, f.ext.as_str(), f.size), ("/x/a.jpg", 3, "jpg", 1));
    assert_eq!(f.stem(), "a");
}
