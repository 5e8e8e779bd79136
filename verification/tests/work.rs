use wpic::files::{lower_ext, FileItem};
use wpic::grouping::finish;
use wpic::occasion::{Cluster, UploadMode};
use wpic::order::TextMap;
use wpic::plan::{
    assigned_count, assigned_file_count, count_files, is_assigned, is_marked, job_for, jobs_for,
    unnamed_count, upload_count, Job,
};
use wpic::progress::Progress;
use wpic::worker::{Action, Event, Phase, Worker};

fn item(path: &str) -> FileItem {
    FileItem { path: path.to_string(), mtime: 0, ext: lower_ext(path), size: 1 }
}

fn occasion(target: &str, files: &[&str], up: UploadMode) -> Cluster {
    let mut c = finish(
        files.iter().map(|f| item(f)).collect(),
        "/pics",
        &Vec::new(),
        0,
        0,
        TextMap::new(),
    );
    c.target = target.to_string();
    c.up = up;
    c
}

fn job(dir: &str, srcs: &[&str], upload: bool, files: Option<Vec<String>>) -> Job {
    Job {
        dir: format!("/pics/{}", dir),
        label: dir.to_string(),
        srcs: srcs.iter().map(|s| s.to_string()).collect(),
        upload,
        upload_files: files,
    }
}

fn sample() -> Vec<Cluster> {
    let mut skipped = occasion("2024-01-01 Skip", &["/c/s.jpg"], UploadMode::All);
    skipped.skip = true;
    let mut rated = occasion("2024-01-04 Rated  ", &["/c/a.nef", "/c/a.jpg", "/c/b.jpg"], UploadMode::Rated);
    rated.ratings.insert("a".to_string(), 3);
    vec![
        skipped,
        occasion("2024-01-02 ", &["/c/u.jpg"], UploadMode::All),
        occasion("2024-01-03 Plain", &["/c/p.jpg", "/c/p.mov"], UploadMode::No),
        rated,
        occasion("2024-01-05 Photos", &["/c/q.jpg", "/c/q.mov"], UploadMode::Photos),
        occasion("2024-01-06 All", &["/c/z.jpg"], UploadMode::All),
    ]
}

#[test]
fn only_named_occasions_are_worked_on() {
    let cs = sample();
    assert!(!is_assigned(&cs[0]) && !is_assigned(&cs[1]) && is_assigned(&cs[2]));
    assert!(!is_marked(&cs[0]) && !is_marked(&cs[1]) && !is_marked(&cs[2]) && is_marked(&cs[3]));
    assert_eq!(assigned_count(&cs), 4);
    assert_eq!(upload_count(&cs), 3);
    assert_eq!(unnamed_count(&cs), 1);
    assert_eq!(count_files(&cs), Some(10));
    assert_eq!(assigned_file_count(&cs), 8);
}

#[test]
fn a_card_is_moved_and_uploaded() {
    let jobs = jobs_for(&sample(), "/pics", false, 3);
    let labels: Vec<&str> = jobs.iter().map(|j| j.label.as_str()).collect();
    assert_eq!(
        labels,
        vec!["2024-01-03 Plain", "2024-01-04 Rated", "2024-01-05 Photos", "2024-01-06 All"]
    );
    assert_eq!(jobs[0].srcs, vec!["/c/p.jpg", "/c/p.mov"]);
    assert!(!jobs[0].upload && jobs[0].upload_files.is_none());
    assert_eq!(jobs[1].dir, "/pics/2024-01-04 Rated");
    assert!(jobs[1].upload);
    assert_eq!(jobs[1].upload_files, Some(vec!["a.nef".to_string(), "a.jpg".to_string()]));
    assert_eq!(jobs[2].upload_files, Some(vec!["q.jpg".to_string()]));
    assert!(jobs[3].upload && jobs[3].upload_files.is_none());
}

#[test]
fn the_library_moves_nothing() {
    let jobs = jobs_for(&sample(), "/pics", true, 4);
    assert_eq!(jobs.len(), 3);
    assert!(jobs.iter().all(|j| j.srcs.is_empty() && j.upload));
    assert_eq!(jobs[0].upload_files, Some(Vec::new()));
    assert_eq!(job_for(&sample()[5], "/pics", true, 1).dir, "/pics/2024-01-06 All");
}

#[test]
fn progress_begins_with_its_first_stage() {
    let p = Progress::fresh(0, 4);
    assert_eq!((p.stage.as_str(), p.total), ("Uploading to Drive", 4));
    let mut q = Progress::fresh(3, 4);
    assert_eq!((q.stage.as_str(), q.total), ("Moving files", 3));
    q.done = 2;
    q.frac = 9;
    q.errors = 1;
    q.set_stage("Next", 7);
    assert_eq!((q.stage.as_str(), q.total, q.done, q.frac, q.errors), ("Next", 7, 0, 0, 1));
    q.note_line("  50% done \n", Some(5000));
    assert_eq!((q.current.as_str(), q.frac), ("50% done", 5000));
    q.note_line("no number", None);
    assert_eq!((q.current.as_str(), q.frac), ("no number", 5000));
    q.note_line("too much", Some(10001));
    assert_eq!(q.frac, 10000);
    q.push_log("x".to_string());
    assert_eq!(q.log, vec!["x"]);
}

fn go(w: &mut Worker, e: Event) -> Action {
    assert!(w.accepts(&e));
    w.step(e)
}

#[test]
fn files_go_to_free_places() {
    let jobs = vec![job("A", &["/c/a.jpg", "/c/b.jpg"], true, None)];
    let mut w = Worker::new(jobs, true, "r:p".to_string()).unwrap();
    assert!(!w.accepts(&Event::Probed(false)));
    match go(&mut w, Event::Begin) {
        Action::MakeDir(d) => assert_eq!(d, "/pics/A"),
        a => panic!("{:?}", a),
    }
    match go(&mut w, Event::Made(None)) {
        Action::Probe(p) => assert_eq!(p, "/pics/A/a.jpg"),
        a => panic!("{:?}", a),
    }
    assert_eq!(w.progress.current, "a.jpg → A");
    match go(&mut w, Event::Probed(true)) {
        Action::Probe(p) => assert_eq!(p, "/pics/A/a_1.jpg"),
        a => panic!("{:?}", a),
    }
    match go(&mut w, Event::Probed(true)) {
        Action::Probe(p) => assert_eq!(p, "/pics/A/a_2.jpg"),
        a => panic!("{:?}", a),
    }
    match go(&mut w, Event::Probed(false)) {
        Action::Transfer { src, dst, do_move } => {
            assert_eq!((src.as_str(), dst.as_str(), do_move), ("/c/a.jpg", "/pics/A/a_2.jpg", true))
        }
        a => panic!("{:?}", a),
    }
    match go(&mut w, Event::Transferred(None)) {
        Action::Probe(p) => assert_eq!(p, "/pics/A/b.jpg"),
        a => panic!("{:?}", a),
    }
    go(&mut w, Event::Probed(false));
    match go(&mut w, Event::Transferred(Some("disk full".to_string()))) {
        Action::Upload { dir, dest, files, at } => {
            assert_eq!(at, 0);
            assert_eq!((dir.as_str(), dest.as_str()), ("/pics/A", "r:p/A"));
            assert!(files.is_none());
        }
        a => panic!("{:?}", a),
    }
    assert_eq!(w.progress.current, "rclone → r:p/A");
    assert_eq!(
        w.progress.log,
        vec!["ERR /c/b.jpg: disk full", "A  ->  2 files", "Moved 1 files, 1 errors."]
    );
    assert_eq!((w.progress.stage.as_str(), w.progress.total, w.progress.done), ("Uploading to Drive", 1, 0));
    assert!(matches!(go(&mut w, Event::Uploaded(None)), Action::Finish));
    assert!(w.progress.finished && w.phase == Phase::Over);
    assert_eq!(w.progress.log[3], "uploaded  A");
    assert_eq!(w.progress.log[4], "Uploaded 1 folder(s) to r:p.");
    assert_eq!((w.progress.done, w.progress.errors), (1, 1));
}

#[test]
fn a_folder_that_cannot_be_made_is_not_uploaded() {
    let jobs = vec![
        job("A", &["/c/a.jpg", "/c/b.jpg"], true, None),
        job("B", &["/c/c.jpg"], false, None),
    ];
    let mut w = Worker::new(jobs, false, "r:".to_string()).unwrap();
    go(&mut w, Event::Begin);
    match go(&mut w, Event::Made(Some("no".to_string()))) {
        Action::MakeDir(d) => assert_eq!(d, "/pics/B"),
        a => panic!("{:?}", a),
    }
    assert_eq!(w.progress.errors, 2);
    go(&mut w, Event::Made(None));
    match go(&mut w, Event::Probed(false)) {
        Action::Transfer { do_move, .. } => assert!(!do_move),
        a => panic!("{:?}", a),
    }
    assert!(matches!(go(&mut w, Event::Transferred(None)), Action::Finish));
    assert_eq!(
        w.progress.log,
        vec!["ERR mkdir /pics/A: no", "B  ->  1 files", "Copied 1 files, 2 errors."]
    );
    assert!(w.uploads.is_empty());
}

#[test]
fn the_library_only_uploads() {
    let jobs = vec![
        job("A", &[], true, Some(vec!["a.jpg".to_string(), "b.jpg".to_string()])),
        job("B", &[], true, None),
    ];
    let mut w = Worker::new(jobs, true, "r:".to_string()).unwrap();
    assert_eq!((w.progress.stage.as_str(), w.progress.total), ("Uploading to Drive", 2));
    match go(&mut w, Event::Begin) {
        Action::Upload { dest, files, .. } => {
            assert_eq!(dest, "r:/A");
            assert_eq!(files, Some(vec!["a.jpg".to_string(), "b.jpg".to_string()]));
        }
        a => panic!("{:?}", a),
    }
    assert_eq!(w.progress.current, "rclone → r:/A (2 rated files)");
    w.progress.frac = 100;
    go(&mut w, Event::Uploaded(Some("offline".to_string())));
    assert_eq!(w.progress.frac, 0);
    go(&mut w, Event::Uploaded(None));
    assert_eq!(
        w.progress.log,
        vec!["UPLOAD ERR A: offline", "uploaded  B", "Uploaded 2 folder(s) to r:."]
    );
    assert!(!w.accepts(&Event::Begin));
}

#[test]
fn only_the_first_failures_are_told() {
    let names: Vec<String> = (0..20).map(|n| format!("/c/f{}.jpg", n)).collect();
    let srcs: Vec<&str> = names.iter().map(|s| s.as_str()).collect();
    let mut w = Worker::new(vec![job("A", &srcs, false, None)], true, "r:".to_string()).unwrap();
    go(&mut w, Event::Begin);
    go(&mut w, Event::Made(None));
    for _ in 0..20 {
        go(&mut w, Event::Probed(false));
        go(&mut w, Event::Transferred(Some("e".to_string())));
    }
    assert_eq!(w.progress.log.len(), 10);
    assert_eq!(w.progress.log[7], "ERR /c/f7.jpg: e");
    assert_eq!(w.progress.log[9], "Moved 0 files, 20 errors.");
}

#[test]
fn files_without_names_are_refused() {
    assert!(Worker::new(vec![job("A", &["/"], false, None)], true, "r:".to_string()).is_none());
    let mut w = Worker::new(Vec::new(), true, "r:".to_string()).unwrap();
    assert!(matches!(go(&mut w, Event::Begin), Action::Finish));
    assert!(w.progress.log.is_empty());
}

#[test]
fn the_work_comes_to_its_end_whatever_happens() {
    let jobs = vec![
        job("A", &["/c/a.jpg", "/c/b.jpg"], true, None),
        job("B", &[], true, Some(vec!["x.jpg".to_string()])),
        job("C", &["/c/c.jpg"], false, None),
    ];
    let mut w = Worker::new(jobs, false, "r:p".to_string()).unwrap();
    let bad = || Some("no".to_string());
    let mut e = Event::Begin;
    let mut steps: usize = 0;
    let mut numbers: Vec<usize> = Vec::new();
    loop {
        let a = go(&mut w, e);
        w.note_line("  1% \n", Some(100));
        steps += 1;
        e = match a {
            Action::MakeDir(d) => Event::Made(if d == "/pics/C" { bad() } else { None }),
            Action::Probe(p) => Event::Probed(p == "/pics/A/a.jpg"),
            Action::Transfer { src, .. } => Event::Transferred(if src == "/c/b.jpg" { bad() } else { None }),
            Action::Upload { at, .. } => {
                numbers.push(at);
                Event::Uploaded(bad())
            }
            Action::Finish => break,
        };
    }
    // Begin, two folders, three places for two files, two transfers, two uploads.
    assert_eq!(steps, 10);
    assert_eq!(numbers, vec![0, 1]);
    assert!(w.progress.finished && w.phase == Phase::Over);
    assert_eq!(
        w.progress.log,
        vec![
            "ERR /c/b.jpg: no",
            "A  ->  2 files",
            "ERR mkdir /pics/C: no",
            "Copied 1 files, 2 errors.",
            "UPLOAD ERR A: no",
            "UPLOAD ERR B: no",
            "Uploaded 2 folder(s) to r:p.",
        ]
    );
    assert_eq!((w.progress.done, w.progress.errors), (0, 4));
    assert!(!w.accepts(&Event::Begin));
}

#[test]
fn only_plain_names_are_listed_for_upload() {
    let c = occasion("2024-01-07 Deep", &["/c/DCIM/100/x.jpg", "/c/DCIM/100/x.mov", "y.NEF"], UploadMode::Photos);
    assert_eq!(
        job_for(&c, "/pics", false, 1).upload_files,
        Some(vec!["x.jpg".to_string(), "y.NEF".to_string()])
    );
}
