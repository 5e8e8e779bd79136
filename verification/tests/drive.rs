use wpic::drive::{
    apply_drive_listing, check_drive, listing_args, percent_text, rclone_list_dirs, rclone_upload, upload_args, upload_list, upload_list_path, Reply, UploadEnd,
};
use wpic::files::FileItem;
use wpic::grouping::library_cluster;
use wpic::occasion::Cluster;
use wpic::order::TextMap;

fn folder(name: &str) -> Cluster {
    let f = FileItem { path: "/p/x/a.jpg".to_string(), mtime: 0, ext: "jpg".to_string(), size: 0 };
    library_cluster(&format!("/p/{}", name), vec![f], 0, TextMap::new()).unwrap()
}

#[test]
fn culled_shots_are_never_uploaded() {
    let a = upload_args("/p/A", "r:x/A", None);
    assert_eq!(
        a,
        vec![
            "copy", "/p/A", "r:x/A", "--exclude", ".removed/**", "--transfers=4", "--checkers=8",
            "--stats=1s", "--stats-one-line", "--stats-log-level", "NOTICE",
        ]
    );
    let b = upload_args("/p/A", "r:x/A", Some("/tmp/l"));
    assert_eq!(b[..11], a[..]);
    assert_eq!(b[11..], ["--files-from".to_string(), "/tmp/l".to_string()]);
}

#[test]
fn names_to_upload_stand_one_on_a_line() {
    assert_eq!(upload_list(&vec!["a.jpg".to_string(), "b.nef".to_string()]), "a.jpg\nb.nef");
    assert_eq!(upload_list_path("/tmp", 42, 0), "/tmp/wpic-upload-42-0.txt");
    assert_eq!(upload_list_path("/tmp", 42, 1), "/tmp/wpic-upload-42-1.txt");
    assert_eq!(listing_args("r:x"), vec!["lsf", "--dirs-only", "r:x"]);
}

fn ran(success: bool, out: &str, err: &str) -> Reply {
    Reply::Ran { success, stdout: out.to_string(), stderr: err.to_string() }
}

#[test]
fn listings_name_folders() {
    let m = rclone_list_dirs(&ran(true, "B/\nA b/\r\nA b/\nC//\n", "")).ok().unwrap();
    assert_eq!(m.keys(), vec!["A b", "B", "C"]);
    let none = rclone_list_dirs(&ran(false, "X/\n", "ERROR: directory not found")).ok().unwrap();
    assert_eq!(none.len(), 0);
    let bad = rclone_list_dirs(&ran(false, "", "  offline \n")).err().unwrap();
    assert_eq!(bad, "offline");
    let not = rclone_list_dirs(&Reply::NotRun("no such file".to_string())).err().unwrap();
    assert_eq!(not, "rclone not runnable: no such file");
}

#[test]
fn occasions_on_the_drive_are_noted() {
    let mut cs = vec![folder("A"), folder("B "), folder("C")];
    let mut listed: TextMap<()> = TextMap::new();
    listed.insert("A".to_string(), ());
    listed.insert("B".to_string(), ());
    assert_eq!(apply_drive_listing(&mut cs, &listed), 2);
    let on: Vec<Option<bool>> = cs.iter().map(|c| c.on_drive).collect();
    assert_eq!(on, vec![Some(true), Some(true), Some(false)]);
    assert_eq!(
        check_drive(&mut cs, Ok(listed), "r:x"),
        "Drive: 2 of 3 occasions present under r:x"
    );
    assert_eq!(check_drive(&mut cs, Err("e".to_string()), "r:x"), "Drive check failed: e");
    assert_eq!(cs[2].on_drive, Some(false));
}

#[test]
fn percentages_are_found() {
    let t = |s: &str| percent_text(s);
    assert_eq!(t("1.2 MiB / 3 MiB, 40%, 1 MiB/s"), Some("40".to_string()));
    assert_eq!(t("12.5% 13%"), Some("12.5".to_string()));
    assert_eq!(t("x%"), Some(String::new()));
    assert_eq!(t("none"), None);
    assert_eq!(t("ü7%"), Some("7".to_string()));
}

#[test]
fn an_upload_is_done_where_rclone_succeeds() {
    let exited = |success: bool, status: &str| UploadEnd::Exited { success, status: status.to_string() };
    assert_eq!(rclone_upload(exited(true, "exit status: 0")), None);
    assert_eq!(
        rclone_upload(exited(false, "exit status: 3")),
        Some("rclone exited with exit status: 3".to_string())
    );
    assert_eq!(
        rclone_upload(UploadEnd::NotRun("no such file".to_string())),
        Some("rclone not runnable (no such file)".to_string())
    );
    assert_eq!(rclone_upload(UploadEnd::NotListed("full".to_string())), Some("full".to_string()));
    assert_eq!(rclone_upload(UploadEnd::NotWaited("gone".to_string())), Some("gone".to_string()));
}
