use wpic::files::{lower_ext, FileItem};
use wpic::grouping::finish;
use wpic::occasion::Cluster;
use wpic::order::TextMap;
use wpic::review::{
    apply_restore, apply_review, conclude_restore, conclude_review, files_of, helper_script,
    read_rates, read_stems, removed_folder, removed_sources, restore_args, restore_script,
    review_args, review_sources, stale_views, Changes,
};
use wpic::session::{
    Restore, RestoreAction, RestoreEvent, RestorePhase, Review, ReviewAction, ReviewEvent,
    ReviewPhase, Trash, TrashAction, TrashEvent, TrashPhase,
};

fn item(path: &str, mtime: i64) -> FileItem {
    FileItem { path: path.to_string(), mtime, ext: lower_ext(path), size: 1 }
}

fn occasion(rates: &[(&str, u8)]) -> Cluster {
    let mut ratings: TextMap<u8> = TextMap::new();
    for (s, r) in rates {
        ratings.insert(s.to_string(), *r);
    }
    let files = vec![
        item("/p/A/a.nef", 1),
        item("/p/A/a.jpg", 1),
        item("/p/A/b.jpg", 2),
        item("/p/A/m.mov", 3),
        item("/p/A/c.jpg", 4),
    ];
    finish(files, "/p", &Vec::new(), 0, 0, ratings)
}

fn set(v: &[&str]) -> TextMap<()> {
    let mut m: TextMap<()> = TextMap::new();
    for s in v {
        m.insert(s.to_string(), ());
    }
    m
}

fn rates(v: &[(&str, u8)]) -> TextMap<u8> {
    let mut m: TextMap<u8> = TextMap::new();
    for (s, r) in v {
        m.insert(s.to_string(), *r);
    }
    m
}

fn paths(c: &Cluster) -> Vec<&str> {
    c.files.iter().map(|f| f.path.as_str()).collect()
}

#[test]
fn stems_are_read_from_lines() {
    let m = read_stems(Some("/v/a.jpg\n  /v/b.c.jpg \n\n/\n/v/a.nef\n"));
    assert_eq!(m.keys(), vec!["a", "b.c"]);
    assert_eq!(read_stems(None).len(), 0);
}

#[test]
fn rates_are_read_from_lines() {
    let m = read_rates(Some("3\t/v/a.jpg\nx\t/v/b.jpg\n 9 \t /v/c.jpg \n5\n300\t/v/d.jpg\n0\t/v/a.jpg\n2\t\n1\t/v/t\tab.jpg\n"));
    assert_eq!(m.keys(), vec!["a", "c", "t\tab"]);
    assert_eq!(m.get("a"), Some(&0));
    assert_eq!(m.get("c"), Some(&5));
    assert_eq!(read_rates(None).len(), 0);
}

#[test]
fn a_review_culls_then_rates() {
    let mut c = occasion(&[("a", 1), ("b", 4), ("c", 2)]);
    let ch = apply_review(&mut c, &set(&["b"]), &rates(&[("a", 5), ("b", 3), ("c", 0), ("x", 4)]));
    assert_eq!(paths(&c), vec!["/p/A/a.nef", "/p/A/a.jpg", "/p/A/m.mov", "/p/A/c.jpg"]);
    assert_eq!(c.ratings.keys(), vec!["a"]);
    assert_eq!(c.ratings.get("a"), Some(&5));
    assert_eq!((ch.culled, ch.rated), (1, 3));
    let side: Vec<(&str, u8)> = ch.sidecars.iter().map(|(p, r)| (p.as_str(), *r)).collect();
    assert_eq!(side, vec![("/p/A/a.nef", 5), ("/p/A/a.jpg", 5), ("/p/A/c.jpg", 0)]);
}

#[test]
fn culling_everything_leaves_the_occasion_alone() {
    let mut c = occasion(&[]);
    let ch = apply_review(&mut c, &set(&["a", "b", "c", "m"]), &rates(&[]));
    assert!(c.files.is_empty() && c.skip);
    assert_eq!((c.start, c.end, ch.culled), (1, 4, 4));
}

#[test]
fn a_review_without_notes_changes_nothing() {
    let mut c = occasion(&[("a", 2), ("b", 3)]);
    c.start = 77;
    let ch = apply_review(&mut c, &set(&[]), &rates(&[]));
    assert_eq!(c.files.len(), 5);
    assert_eq!(c.start, 77);
    assert_eq!(c.ratings.keys(), vec!["a", "b"]);
    assert_eq!(conclude_review(&mut c, &ch, 0, 0, 1), "Review done — no changes.");
}

#[test]
fn what_a_review_came_to_is_told() {
    let mut c = occasion(&[("a", 2), ("b", 3)]);
    let ch = |culled: usize, rated: usize| Changes { sidecars: Vec::new(), culled, rated };
    assert_eq!(
        conclude_review(&mut c, &ch(2, 0), 3, 7, 3),
        "culled 2 (3 files → .removed) · ★≥3 now 1"
    );
    assert_eq!(c.removed, 7);
    assert_eq!(conclude_review(&mut c, &ch(0, 4), 0, 0, 1), "rated 4 (XMP written) · ★≥1 now 2");
    assert_eq!(
        conclude_review(&mut c, &ch(1, 1), 1, 0, 5),
        "culled 1 (1 files → .removed), rated 1 (XMP written) · ★≥5 now 0"
    );
}

#[test]
fn there_may_be_nothing_to_review() {
    let c = occasion(&[("a", 2)]);
    assert_eq!(review_sources(&c, false, 3).unwrap().len(), 3);
    assert_eq!(review_sources(&c, true, 2).unwrap(), vec!["/p/A/a.jpg"]);
    assert_eq!(review_sources(&c, true, 3).unwrap_err(), "No shots rated ≥3 in this occasion yet.");
    let m = finish(vec![item("/p/m.mov", 0)], "/p", &Vec::new(), 0, 0, TextMap::new());
    assert_eq!(review_sources(&m, false, 1).unwrap_err(), "No photos to view here (movies only).");
}

#[test]
fn files_of_shots_are_found() {
    let c = occasion(&[]);
    assert_eq!(files_of(&c.files, &set(&["a", "m"])), vec!["/p/A/a.nef", "/p/A/a.jpg", "/p/A/m.mov"]);
    assert_eq!(stale_views(&set(&["b", "a"]), "/v"), vec!["/v/a.jpg", "/v/b.jpg"]);
    assert_eq!(removed_folder("/p/A"), "/p/A/.removed");
}

#[test]
fn the_viewer_is_told_its_keys() {
    let a = review_args("/t/h.sh", &vec!["/v/a.jpg".to_string()]);
    assert_eq!(a.len(), 17);
    assert_eq!(a[0], "-c");
    assert_eq!(a[1], "bind 0 exec sh '/t/h.sh' rate 0 \"$imv_current_file\"");
    assert_eq!(a[11], "bind 5 exec sh '/t/h.sh' rate 5 \"$imv_current_file\"");
    assert_eq!(
        a[13],
        "bind <Delete> exec sh '/t/h.sh' cull \"$imv_current_file\" \"$imv_current_index\" \"$imv_file_count\""
    );
    assert_eq!(a[15], "bind u exec sh '/t/h.sh' undo");
    assert_eq!(a[16], "/v/a.jpg");
    let r = restore_args("/t/r.sh", &vec!["x".to_string(), "y".to_string()]);
    assert_eq!(
        r,
        vec![
            "-c",
            "bind <Return> exec sh '/t/r.sh' restore \"$imv_current_file\" \"$imv_current_index\" \"$imv_file_count\"",
            "x",
            "y"
        ]
    );
}

#[test]
fn the_viewer_runs_scripts() {
    let expected = "#!/bin/sh\n\
        CULL='/t/c'\n\
        RATES='/t/r'\n\
        case \"$1\" in\n\
        rate) printf '%s\\t%s\\n' \"$2\" \"$3\" >> \"$RATES\"; imv-msg \"$imv_pid\" next 2>/dev/null ;;\n\
        cull)\n\
        \tprintf '%s\\n' \"$2\" >> \"$CULL\"\n\
        \tidx=\"$3\"; cnt=\"$4\"\n\
        \timv-msg \"$imv_pid\" close 2>/dev/null\n\
        \tnew=$((cnt-1)); [ \"$idx\" -gt \"$new\" ] && idx=\"$new\"\n\
        \t[ \"$idx\" -ge 1 ] && imv-msg \"$imv_pid\" goto \"$idx\" 2>/dev/null ;;\n\
        undo) last=$(tail -n1 \"$CULL\" 2>/dev/null); [ -n \"$last\" ] && sed -i '$ d' \"$CULL\" && imv-msg \"$imv_pid\" open \"$last\" 2>/dev/null ;;\n\
        esac\n";
    assert_eq!(helper_script("/t/c", "/t/r"), expected);
    let restore = "#!/bin/sh\n\
        RESTORE='/t/x'\n\
        printf '%s\\n' \"$2\" >> \"$RESTORE\"\n\
        idx=\"$3\"; cnt=\"$4\"\n\
        imv-msg \"$imv_pid\" close 2>/dev/null\n\
        new=$((cnt-1)); [ \"$idx\" -gt \"$new\" ] && idx=\"$new\"\n\
        [ \"$idx\" -ge 1 ] && imv-msg \"$imv_pid\" goto \"$idx\" 2>/dev/null\n";
    assert_eq!(restore_script("/t/x"), restore);
}

#[test]
fn restored_files_are_back_in_order() {
    let mut c = occasion(&[]);
    c.skip = true;
    apply_restore(&mut c, vec![item("/p/A/z.jpg", 0), item("/p/A/y.jpg", 9)], 2);
    assert_eq!(paths(&c)[0], "/p/A/z.jpg");
    assert_eq!(paths(&c)[6], "/p/A/y.jpg");
    assert_eq!((c.start, c.end, c.skip), (0, 9, false));
    assert_eq!(conclude_restore(&mut c, 2, 5, 1), "Restored 2 shot(s) from .removed.");
    assert_eq!(c.removed, 1);
    c.skip = true;
    apply_restore(&mut c, Vec::new(), 0);
    assert!(c.skip);
    assert_eq!(conclude_restore(&mut c, 0, 5, 5), "5 shot(s) in .removed (none restored).");
}

#[test]
fn there_may_be_nothing_to_restore() {
    assert_eq!(removed_sources(&Vec::new()).unwrap_err(), "Nothing in .removed for this occasion.");
    assert_eq!(
        removed_sources(&vec![item("m.mov", 0), item("n.mov", 0)]).unwrap_err(),
        "2 removed file(s) but no photos to preview."
    );
    assert_eq!(removed_sources(&vec![item("a.nef", 0)]).unwrap(), vec!["a.nef"]);
}

fn trash(c: &mut Cluster, there: bool, worked: bool) -> String {
    let mut t = Trash::new();
    assert!(t.accepts(&TrashEvent::Begin) && !t.accepts(&TrashEvent::Ran(true)));
    match t.trash_removed(c, TrashEvent::Begin) {
        TrashAction::Probe(p) => assert_eq!(p, "/p/A/.removed"),
        a => panic!("{:?}", a),
    }
    assert!(t.accepts(&TrashEvent::Found(there)));
    match t.trash_removed(c, TrashEvent::Found(there)) {
        TrashAction::Trash(args) => assert_eq!(args, vec!["trash", "/p/A/.removed"]),
        TrashAction::Say(text) => {
            assert!(t.phase == TrashPhase::Over);
            return text;
        }
        a => panic!("{:?}", a),
    }
    assert!(t.accepts(&TrashEvent::Ran(worked)));
    match t.trash_removed(c, TrashEvent::Ran(worked)) {
        TrashAction::Say(text) => text,
        a => panic!("{:?}", a),
    }
}

#[test]
fn removed_shots_go_to_the_trash() {
    let mut c = occasion(&[]);
    c.removed = 4;
    assert_eq!(trash(&mut c, false, false), "Nothing removed for this occasion.");
    assert_eq!(trash(&mut c, true, false), "Failed to trash .removed.");
    assert_eq!(c.removed, 4);
    assert_eq!(trash(&mut c, true, true), "Trashed .removed (4 shots) to system trash.");
    assert_eq!(c.removed, 0);
}

fn go(r: &mut Review, c: &mut Cluster, e: ReviewEvent) -> ReviewAction {
    assert!(r.accepts(&e));
    r.review_cluster(c, e)
}

#[test]
fn a_review_goes_step_by_step() {
    let mut c = occasion(&[("b", 3)]);
    let mut r = Review::new(false, 2, "/v".to_string());
    assert!(!r.accepts(&ReviewEvent::Viewed(true)));
    assert!(matches!(go(&mut r, &mut c, ReviewEvent::Begin), ReviewAction::Prepare(v) if v.len() == 3));
    let views = vec!["/v/a.jpg".to_string()];
    assert!(matches!(go(&mut r, &mut c, ReviewEvent::Prepared(views)), ReviewAction::Launch(_)));
    assert!(matches!(go(&mut r, &mut c, ReviewEvent::Viewed(true)), ReviewAction::ReadNotes));
    let notes = ReviewEvent::Noted {
        cull: Some("/p/A/a.jpg\n".to_string()),
        rates: Some("4\t/p/A/c.jpg\n".to_string()),
    };
    match go(&mut r, &mut c, notes) {
        ReviewAction::Apply { cull, stale, sidecars } => {
            assert_eq!(cull, vec!["/p/A/a.nef", "/p/A/a.jpg"]);
            assert_eq!(stale, vec!["/v/a.jpg"]);
            assert_eq!(sidecars, vec![("/p/A/c.jpg".to_string(), 4)]);
        }
        a => panic!("{:?}", a),
    }
    assert_eq!(paths(&c), vec!["/p/A/b.jpg", "/p/A/m.mov", "/p/A/c.jpg"]);
    match go(&mut r, &mut c, ReviewEvent::Applied { trashed: 2, removed: 1 }) {
        ReviewAction::Say(t) => assert_eq!(
            t,
            "culled 1 (2 files → .removed), rated 1 (XMP written) · ★≥2 now 2"
        ),
        a => panic!("{:?}", a),
    }
    assert_eq!(c.removed, 1);
    assert!(r.phase == ReviewPhase::Over);
}

#[test]
fn a_review_can_end_early() {
    let mut c = occasion(&[]);
    let mut none = Review::new(true, 4, "/v".to_string());
    assert!(matches!(go(&mut none, &mut c, ReviewEvent::Begin),
        ReviewAction::Say(t) if t == "No shots rated ≥4 in this occasion yet."));
    let mut blank = Review::new(false, 4, "/v".to_string());
    go(&mut blank, &mut c, ReviewEvent::Begin);
    assert!(matches!(go(&mut blank, &mut c, ReviewEvent::Prepared(Vec::new())),
        ReviewAction::Say(t) if t == "Could not prepare images for viewing."));
    let mut broken = Review::new(false, 4, "/v".to_string());
    go(&mut broken, &mut c, ReviewEvent::Begin);
    go(&mut broken, &mut c, ReviewEvent::Prepared(vec!["x".to_string()]));
    assert!(matches!(go(&mut broken, &mut c, ReviewEvent::Viewed(false)),
        ReviewAction::Say(t) if t == "Failed to launch imv."));
    assert_eq!(c.files.len(), 5);
}

fn back(r: &mut Restore, c: &mut Cluster, e: RestoreEvent) -> RestoreAction {
    assert!(r.accepts(&e));
    r.view_removed(c, e)
}

#[test]
fn removed_shots_are_restored_step_by_step() {
    let mut c = occasion(&[]);
    let mut r = Restore::new(vec![item("/p/A/.removed/x.nef", 0), item("/p/A/.removed/y.jpg", 0)]);
    assert!(matches!(back(&mut r, &mut c, RestoreEvent::Begin), RestoreAction::Prepare(v) if v.len() == 2));
    assert!(matches!(back(&mut r, &mut c, RestoreEvent::Prepared(vec!["v".to_string()])), RestoreAction::Launch(_)));
    assert!(matches!(back(&mut r, &mut c, RestoreEvent::Viewed(true)), RestoreAction::ReadNotes));
    match back(&mut r, &mut c, RestoreEvent::Noted(Some("/v/x.jpg\n".to_string()))) {
        RestoreAction::Restore(v) => assert_eq!(v, vec!["/p/A/.removed/x.nef"]),
        a => panic!("{:?}", a),
    }
    let e = RestoreEvent::Restored { items: vec![item("/p/A/x.nef", 0)], restored: 1, removed: 1 };
    assert!(matches!(back(&mut r, &mut c, e),
        RestoreAction::Say(t) if t == "Restored 1 shot(s) from .removed."));
    assert_eq!(c.files.len(), 6);
    assert_eq!(c.removed, 1);
    assert!(r.phase == RestorePhase::Over);
}

#[test]
fn a_look_at_removed_shots_can_end_early() {
    let mut c = occasion(&[]);
    let mut r = Restore::new(Vec::new());
    assert!(matches!(back(&mut r, &mut c, RestoreEvent::Begin),
        RestoreAction::Say(t) if t == "Nothing in .removed for this occasion."));
    let mut q = Restore::new(vec![item("x.jpg", 0)]);
    back(&mut q, &mut c, RestoreEvent::Begin);
    assert!(matches!(back(&mut q, &mut c, RestoreEvent::Prepared(Vec::new())),
        RestoreAction::Say(t) if t == "Could not prepare removed images."));
    let mut s = Restore::new(vec![item("x.jpg", 0)]);
    back(&mut s, &mut c, RestoreEvent::Begin);
    back(&mut s, &mut c, RestoreEvent::Prepared(vec!["x".to_string()]));
    assert!(matches!(back(&mut s, &mut c, RestoreEvent::Viewed(false)),
        RestoreAction::Say(t) if t == "Failed to launch imv."));
}
