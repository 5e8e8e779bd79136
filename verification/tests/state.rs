use wpic::area::{centered, fits_screen, popup_rows, screen_rows, Area};
use wpic::files::{lower_ext, FileItem};
use wpic::grouping::finish;
use wpic::occasion::{Cluster, UploadMode};
use wpic::order::TextMap;
use wpic::progress::Progress;
use wpic::screen::{
    can_draw, can_sample, can_show, confirm_popup, detail, detail_title, done_popup, edit_popup,
    gauge_label, header, list_title, popup_size, popup_title, row, shown_total, stage_line, ui,
    Color, Span,
};
use wpic::state::{cycle_upload, App, Command, Key, Mode, Renaming};

fn item(path: &str, mtime: i64, size: u64) -> FileItem {
    FileItem { path: path.to_string(), mtime, ext: lower_ext(path), size }
}

fn occasion(target: &str) -> Cluster {
    let files = vec![
        item("/p/X/a.nef", 0, 1000),
        item("/p/X/a.jpg", 0, 24),
        item("/p/X/m.mov", 3600, 1024),
    ];
    let mut c = finish(files, "/p", &Vec::new(), 0, 0, TextMap::new());
    c.target = target.to_string();
    c.dir = format!("/p/{}", target);
    c
}

fn app(library: bool) -> App {
    App::new(
        "/p".to_string(),
        "r:d".to_string(),
        vec![occasion("2024-01-01 One"), occasion("2024-01-02 "), occasion("Three")],
        library,
    )
}

fn press(a: &mut App, k: Key) -> Command {
    a.on_key(k, false)
}

fn texts(v: &[Span]) -> String {
    v.iter().map(|s| s.text.as_str()).collect()
}

#[test]
fn the_selection_stays_within_the_occasions() {
    let mut a = app(false);
    for expected in [1, 2, 2, 2] {
        press(&mut a, Key::Down);
        assert_eq!(a.sel(), expected);
    }
    for expected in [1, 0, 0] {
        press(&mut a, Key::Char('k'));
        assert_eq!(a.sel(), expected);
    }
    press(&mut a, Key::Char('j'));
    press(&mut a, Key::Up);
    assert_eq!(a.sel(), 0);
    a.select(Some(2));
    assert_eq!(a.sel(), 2);
    a.select(Some(9));
    assert_eq!(a.sel(), 2);
    a.select(None);
    assert_eq!(a.sel(), 0);
    let mut none = App::new(String::new(), String::new(), Vec::new(), true);
    press(&mut none, Key::Down);
    assert_eq!(none.selected, Some(0));
}

#[test]
fn keys_ask_for_work() {
    let mut a = app(false);
    assert_eq!(press(&mut a, Key::Enter), Command::Review { only_rated: false });
    assert_eq!(press(&mut a, Key::Char('v')), Command::Review { only_rated: false });
    assert_eq!(press(&mut a, Key::Char('f')), Command::Review { only_rated: true });
    assert_eq!(press(&mut a, Key::Char('s')), Command::Starred);
    assert_eq!(press(&mut a, Key::Char('S')), Command::Starred);
    assert_eq!(press(&mut a, Key::Char('m')), Command::Movies);
    assert_eq!(press(&mut a, Key::Char('w')), Command::Wcut);
    assert_eq!(press(&mut a, Key::Char('C')), Command::CheckDrive);
    assert_eq!(press(&mut a, Key::Char('R')), Command::ViewRemoved);
    assert_eq!(press(&mut a, Key::Char('T')), Command::Trash);
    assert_eq!(press(&mut a, Key::Char('q')), Command::Quit);
    assert_eq!(press(&mut a, Key::Char('c')), Command::Stay);
    assert_eq!(a.on_key(Key::Char('c'), true), Command::Quit);
    assert_eq!(press(&mut a, Key::Other), Command::Stay);
}

#[test]
fn the_bar_stays_between_one_and_five() {
    let mut a = app(false);
    press(&mut a, Key::Char('['));
    assert_eq!(a.min_rating, 1);
    for _ in 0..9 {
        press(&mut a, Key::Char(']'));
    }
    assert_eq!(a.min_rating, 5);
    press(&mut a, Key::Char('3'));
    assert_eq!(a.min_rating, 3);
    press(&mut a, Key::Char('['));
    assert_eq!(a.min_rating, 2);
    for (k, n) in [('1', 1u8), ('2', 2), ('4', 4), ('5', 5)] {
        press(&mut a, Key::Char(k));
        assert_eq!(a.min_rating, n);
    }
}

#[test]
fn uploads_go_round() {
    let mut a = app(false);
    let mut seen: Vec<UploadMode> = Vec::new();
    for _ in 0..3 {
        press(&mut a, Key::Char('u'));
        seen.push(a.clusters[0].up);
    }
    assert_eq!(seen, vec![UploadMode::All, UploadMode::Photos, UploadMode::No]);
    a.clusters[0].ratings.insert("a".to_string(), 1);
    for _ in 0..3 {
        press(&mut a, Key::Char('u'));
    }
    assert_eq!(a.clusters[0].up, UploadMode::Rated);
    assert_eq!(cycle_upload(UploadMode::Rated, true), UploadMode::No);
    assert_eq!(a.clusters[1].up, UploadMode::No);
}

#[test]
fn a_card_can_be_copied_or_left_alone() {
    let mut a = app(false);
    press(&mut a, Key::Char('a'));
    press(&mut a, Key::Char('d'));
    assert!(!a.do_move && a.clusters[0].skip);
    press(&mut a, Key::Char('d'));
    assert!(!a.clusters[0].skip);
    let mut l = app(true);
    press(&mut l, Key::Char('a'));
    press(&mut l, Key::Char('d'));
    assert!(l.do_move && !l.clusters[0].skip);
}

#[test]
fn names_are_edited() {
    let mut a = app(false);
    a.clusters[0].suggested = true;
    a.clusters[0].skip = true;
    press(&mut a, Key::Char('r'));
    assert!(a.mode == Mode::Edit);
    assert_eq!(a.edit_buf, "2024-01-01 One");
    press(&mut a, Key::Backspace);
    press(&mut a, Key::Char('ü'));
    assert_eq!(a.edit_buf, "2024-01-01 Onü");
    press(&mut a, Key::Enter);
    assert_eq!(a.clusters[0].target, "2024-01-01 Onü");
    assert!(!a.clusters[0].suggested && !a.clusters[0].skip && a.mode == Mode::Browse);
    press(&mut a, Key::Char('e'));
    press(&mut a, Key::Char('q'));
    press(&mut a, Key::Esc);
    assert_eq!(a.clusters[0].target, "2024-01-01 Onü");
    a.edit_buf = String::new();
    a.mode = Mode::Edit;
    press(&mut a, Key::Backspace);
    assert_eq!(a.edit_buf, "");
}

#[test]
fn work_has_to_be_confirmed() {
    let mut a = app(false);
    assert_eq!((a.assigned_count(), a.upload_count()), (2, 0));
    press(&mut a, Key::Char('x'));
    assert!(a.mode == Mode::Confirm);
    press(&mut a, Key::Char('n'));
    assert!(a.mode == Mode::Browse);
    press(&mut a, Key::Char('x'));
    assert_eq!(press(&mut a, Key::Char('y')), Command::Execute);
    let w = a.start_execute().unwrap();
    assert!(a.mode == Mode::Running);
    assert_eq!(w.jobs.len(), 2);
    assert_eq!(w.progress.total, 6);
    assert_eq!(press(&mut a, Key::Char('q')), Command::Stay);
    assert_eq!(a.poll_millis(), 80);
    a.finished(vec!["done".to_string()]);
    assert!(a.mode == Mode::Done);
    assert_eq!(a.poll_millis(), 200);
    assert_eq!(press(&mut a, Key::Char('y')), Command::Stay);
    assert_eq!(press(&mut a, Key::Esc), Command::Quit);
    let mut l = app(true);
    press(&mut l, Key::Char('x'));
    assert!(l.mode == Mode::Browse);
}

#[test]
fn folders_of_the_library_are_renamed() {
    let mut a = app(true);
    press(&mut a, Key::Char('r'));
    a.edit_buf = "  2024-01-01 New ".to_string();
    assert_eq!(press(&mut a, Key::Enter), Command::Rename);
    assert_eq!(
        a.rename_folder(),
        Some(("/p/2024-01-01 One".to_string(), "/p/2024-01-01 New".to_string()))
    );
    a.end_rename(Renaming::Taken);
    assert_eq!(a.status, "rename skipped: '2024-01-01 New' already exists");
    a.end_rename(Renaming::Failed);
    assert_eq!(a.status, "rename failed");
    assert_eq!(a.clusters[0].target, "2024-01-01 One");
    a.end_rename(Renaming::Renamed);
    assert_eq!(a.status, "renamed → 2024-01-01 New");
    assert_eq!(a.clusters[0].target, "2024-01-01 New");
    assert_eq!(a.clusters[0].dir, "/p/2024-01-01 New");
    assert_eq!(a.clusters[0].files[1].path, "/p/2024-01-01 New/a.jpg");
    assert_eq!(a.clusters[2].target, "Three");
}

#[test]
fn some_names_are_refused() {
    let mut a = app(true);
    a.edit_buf = "2024-01-01 One ".to_string();
    assert_eq!(a.rename_folder(), None);
    a.edit_buf = "  ".to_string();
    assert_eq!(a.rename_folder(), None);
    assert_eq!(a.status, "");
    a.edit_buf = "a/b".to_string();
    assert_eq!(a.rename_folder(), None);
    assert_eq!(a.status, "rename: name can't contain '/'");
}

#[test]
fn notices_come_and_go() {
    let mut a = app(false);
    a.begin_review(true);
    assert_eq!(
        a.notice.as_deref(),
        Some("Generating shots rated ≥1 and launching imv…\nIn imv: 1-5 = rate (0 clears) · Delete = cull · u = undo last cull · arrows = navigate · q = back.")
    );
    a.conclude("ok".to_string());
    assert!(a.notice.is_none());
    assert_eq!(a.status, "ok");
    a.begin_review(false);
    assert!(a.notice.as_deref().unwrap().starts_with("Generating previews and launching imv…\n"));
    a.begin_starred();
    assert_eq!(
        a.notice.as_deref(),
        Some("Generating starred shots (rated 1-5) and launching imv…\nIn imv: 1-5 = rate (0 clears) · Delete = cull · u = undo last cull · arrows · q = back.")
    );
    assert!(!a.begin_view_removed(false));
    assert_eq!(a.status, "Nothing removed for this occasion.");
    assert!(a.begin_view_removed(true));
    assert_eq!(
        a.notice.as_deref(),
        Some("Opening removed shots in imv…\nEnter = restore current shot · q = close.")
    );
    a.begin_check();
    assert_eq!(a.notice.as_deref(), Some("Checking r:d on Drive…"));
}

#[test]
fn movies_are_played_and_cut() {
    let mut a = app(false);
    assert_eq!(a.begin_movies(), Some(vec!["/p/X/m.mov".to_string()]));
    assert_eq!(
        a.notice.as_deref(),
        Some("Playing 1 movie(s) in mpv…  (< > = prev/next clip · q = back)")
    );
    a.end_movies(1);
    assert_eq!((a.status.as_str(), a.notice.is_none()), ("Viewed 1 movie(s).", true));
    assert_eq!(a.begin_wcut(), Some("/p/2024-01-01 One".to_string()));
    a.end_wcut("/d", None);
    assert_eq!(a.status, "wcut finished in /d");
    a.end_wcut("/d", Some("no"));
    assert_eq!(a.status, "Failed to launch wcut: no");
    a.clusters[0].files.pop();
    assert_eq!(a.begin_movies(), None);
    assert_eq!(a.status, "No movies in this occasion.");
    assert_eq!(a.begin_wcut(), None);
    assert_eq!(a.status, "No movies to cut in this occasion.");
}

#[test]
fn the_drive_is_checked() {
    let mut a = app(false);
    let mut m: TextMap<()> = TextMap::new();
    m.insert("Three".to_string(), ());
    a.drive_checked(&Err("offline".to_string()));
    assert!(a.drive_applied && a.clusters[2].on_drive.is_none());
    a.end_check(Ok(m));
    assert_eq!(a.status, "Drive: 1 of 3 occasions present under r:d");
    assert_eq!(a.clusters[2].on_drive, Some(true));
    a.end_check(Err("x".to_string()));
    assert_eq!(a.status, "Drive check failed: x");
    let mut n: TextMap<()> = TextMap::new();
    n.insert("2024-01-02".to_string(), ());
    a.drive_checked(&Ok(n));
    assert_eq!(a.clusters[1].on_drive, Some(true));
    assert_eq!(a.clusters[2].on_drive, Some(false));
}

#[test]
fn the_header_tells_the_mode() {
    let a = app(false);
    assert_eq!(texts(&header(&a, 9)), " wpic   3 clusters · 9 files · ★≥1 ([ ]) · action=MOVE  ->  /p");
    let l = app(true);
    assert_eq!(texts(&header(&l, 9)), " wpic   3 folders · 9 files · ★≥1 ([ ]) · LIBRARY  /p  (↥ r:d)");
    let mut c = app(false);
    c.do_move = false;
    let h = header(&c, 9);
    assert_eq!((h[5].text.as_str(), h[5].style.fg, h[5].style.bold), ("COPY", Some(Color::Green), true));
}

#[test]
fn a_row_tells_of_an_occasion() {
    let mut c = occasion("2024-01-01 One");
    assert_eq!(
        texts(&row(&c, false, 1, 0)),
        "  ->    1p  1m   2.0 KiB 1970-01-01  00:00-01:00  2024-01-01 One"
    );
    c.ratings.insert("a".to_string(), 3);
    c.up = UploadMode::Rated;
    c.removed = 2;
    c.suggested = true;
    c.on_drive = Some(true);
    let r = row(&c, false, 1, 0);
    assert_eq!(
        texts(&r),
        "  +>    1p  1m   2.0 KiB 1970-01-01  00:00-01:00  2024-01-01 One  ★1  ↥ ★1 pics  ✗2"
    );
    assert_eq!(r[5].style.fg, Some(Color::Green));
    assert_eq!(r[0].style.fg, Some(Color::Blue));
    c.skip = true;
    c.up = UploadMode::All;
    assert!(texts(&row(&c, false, 4, 0)).ends_with("(won't move)  ↥ all  ✗2"));
    assert!(texts(&row(&c, false, 4, 0)).starts_with(" STAY "));
    assert!(texts(&row(&c, true, 4, 0)).starts_with(" ···· "));
    c.skip = false;
    c.target = "2024-01-01 ".to_string();
    c.up = UploadMode::Photos;
    c.files.pop();
    let u = row(&c, false, 1, 0);
    assert!(texts(&u).starts_with(" ????   1p      "));
    assert!(texts(&u).contains("  ↥ pics"));
}

#[test]
fn the_detail_names_the_first_files() {
    let c = occasion("x");
    assert_eq!(
        detail(Some(&c), 0),
        vec![
            "span: 1970-01-01 00:00 → 01:00    types: 1 jpg, 1 mov, 1 nef",
            "files: a.nef, a.jpg, m.mov"
        ]
    );
    assert_eq!(detail(None, 0), vec!["no files"]);
    let files: Vec<FileItem> = (0..8).map(|n| item(&format!("/p/{}.jpg", n), 0, 0)).collect();
    let d = finish(files, "/p", &Vec::new(), 0, 0, TextMap::new());
    assert_eq!(detail(Some(&d), 0)[1], "files: 0.jpg, 1.jpg, 2.jpg, 3.jpg, 4.jpg, 5.jpg  …(+2)");
    assert!(can_sample(&d.files) && can_show(&d, 0));
    assert!(!can_sample(&vec![item("/", 0, 0)]));
    let mut late = occasion("x");
    late.end = i64::MAX;
    assert!(!can_show(&late, 1));
    assert_eq!(detail_title(""), " detail ");
    assert_eq!(detail_title("ok"), " detail · ok ");
    assert!(list_title(true).contains("r rename") && list_title(false).contains("d don't-move"));
}

#[test]
fn popups_ask_and_tell() {
    let e = edit_popup("abc");
    assert_eq!(texts(&e[2]), "abc_");
    assert_eq!(e.len(), 3);
    let mut a = app(false);
    a.clusters[0].up = UploadMode::All;
    let lines: Vec<String> = confirm_popup(&a).iter().map(|l| texts(l)).collect();
    assert_eq!(
        lines,
        vec![
            " About to MOVE 6 files into 2 folders.",
            "",
            " 1 unnamed cluster(s) left in place.",
            " Then upload 1 folder(s) to r:d.",
            " MOVE deletes originals from the SD card.",
            "",
            "  y = confirm    n/Esc = cancel"
        ]
    );
    a.library = true;
    let lines: Vec<String> = confirm_popup(&a).iter().map(|l| texts(l)).collect();
    assert_eq!(
        lines,
        vec![
            " About to upload 1 folder(s) to r:d.",
            "",
            " Files stay in ~/Pictures; nothing is moved or deleted.",
            "",
            "  y = confirm    n/Esc = cancel"
        ]
    );
    let d: Vec<String> =
        done_popup(&vec!["one".to_string()]).iter().map(|l| texts(l)).collect();
    assert_eq!(d, vec!["one", "", " press q to quit "]);
    assert_eq!(popup_size(Mode::Edit), Some((70, 7)));
    assert_eq!(popup_size(Mode::Confirm), Some((66, 12)));
    assert_eq!(popup_size(Mode::Running), Some((72, 8)));
    assert_eq!(popup_size(Mode::Done), Some((76, 16)));
    assert_eq!(popup_size(Mode::Browse), None);
    assert_eq!(popup_title(Mode::Running), " working… ");
}

#[test]
fn the_gauge_tells_how_far_the_work_is() {
    let mut p = Progress::fresh(3, 1);
    p.done = 2;
    p.errors = 1;
    assert_eq!(stage_line(&p), "Moving files — 2 of 3");
    assert_eq!(gauge_label(&p, "67"), "2/3  67%  (1 err)");
    let e = Progress::fresh(0, 0);
    assert_eq!(shown_total(&e), 1);
    assert_eq!(stage_line(&e), "Uploading to Drive — 0 of 1");
}

#[test]
fn the_screen_is_put_together() {
    let mut a = app(false);
    a.mode = Mode::Edit;
    a.edit_buf = "n".to_string();
    assert!(can_draw(&a, 0));
    let s = ui(&a, 0);
    assert_eq!(s.rows.len(), 3);
    assert_eq!(texts(&s.popup[2]), "n_");
    assert_eq!(s.detail.len(), 2);
    assert_eq!(s.detail_title, " detail ");
    assert!(texts(&s.header).contains("9 files"));
    a.mode = Mode::Browse;
    assert!(ui(&a, 0).popup.is_empty());
    a.clusters[1].start = i64::MAX;
    assert!(!can_draw(&a, 1));
}

#[test]
fn the_screen_has_three_parts() {
    let a = Area { x: 2, y: 1, width: 80, height: 40 };
    let (h, l, d) = screen_rows(a);
    assert_eq!(h, Area { x: 2, y: 1, width: 80, height: 3 });
    assert_eq!(l, Area { x: 2, y: 4, width: 80, height: 30 });
    assert_eq!(d, Area { x: 2, y: 34, width: 80, height: 7 });
    for height in 15..200u16 {
        let (h, l, d) = screen_rows(Area { x: 0, y: 0, width: 10, height });
        assert_eq!((h.y, h.height), (0, 3));
        assert_eq!((l.y, l.height), (3, height - 10));
        assert_eq!((d.y, d.height), (height - 7, 7));
    }
    let (h, _, _) = screen_rows(Area { x: 0, y: 0, width: 10, height: 4 });
    assert_eq!((h.x, h.width), (0, 10));
}

#[test]
fn a_popup_has_three_lines() {
    for height in 6..60u16 {
        let (g, s, c) = popup_rows(Area { x: 5, y: 7, width: 72, height });
        assert_eq!(g, Area { x: 6, y: 8, width: 70, height: 1 });
        assert_eq!(s, Area { x: 6, y: 9, width: 70, height: 1 });
        assert_eq!(c, Area { x: 6, y: 10, width: 70, height: 2 });
    }
    let (g, _, _) = popup_rows(Area { x: 5, y: 7, width: 1, height: 8 });
    assert_eq!((g.x, g.width), (0, 0));
}

#[test]
fn popups_stand_in_the_middle() {
    let a = Area { x: 10, y: 4, width: 100, height: 30 };
    assert_eq!(centered(a, 70, 7), Area { x: 25, y: 15, width: 70, height: 7 });
    let small = Area { x: 1, y: 1, width: 20, height: 5 };
    assert_eq!(centered(small, 70, 7), small);
    let edge = Area { x: 65000, y: 65000, width: 535, height: 535 };
    assert!(fits_screen(edge));
    assert_eq!(centered(edge, 535, 535), edge);
    assert!(!fits_screen(Area { x: 65000, y: 0, width: 536, height: 1 }));
}
