use wpic::files::{lower_ext, FileItem};
use wpic::grouping::{cluster, dir_of, finish, library_cluster, load_ratings};
use wpic::occasion::{
    newest_first, pick_viewables, time_of_first, time_of_last, Cluster, UploadMode,
};
use wpic::order::TextMap;
use wpic::xmp::new_sidecar;

fn item(path: &str, mtime: i64, size: u64) -> FileItem {
    FileItem { path: path.to_string(), mtime, ext: lower_ext(path), size }
}

fn occasion(files: Vec<FileItem>, rates: &[(&str, u8)]) -> Cluster {
    let mut ratings: TextMap<u8> = TextMap::new();
    for (s, r) in rates {
        ratings.insert(s.to_string(), *r);
    }
    finish(files, "/pics", &Vec::new(), 0, 0, ratings)
}

fn sample() -> Cluster {
    occasion(
        vec![
            item("/c/B.NEF", 10, 100),
            item("/c/B.JPG", 10, 10),
            item("/c/A.nef", 20, 200),
            item("/c/M2.MOV", 30, 5),
            item("/c/M1.mp4", 40, 6),
            item("/c/R.raw", 50, 7),
        ],
        &[("A", 4), ("B", 2)],
    )
}

fn hour(h: i64) -> i64 {
    h * 3600
}

#[test]
fn shots_are_counted_once() {
    let c = sample();
    assert_eq!(c.pic_count(), 2);
    assert_eq!(c.movie_count(), 2);
    assert_eq!(c.total_size(), 328);
    assert!(c.size_fits());
    assert_eq!(c.ext_summary(), "1 jpg, 1 mov, 1 mp4, 2 nef, 1 raw");
    let m = c.count_by_ext();
    assert_eq!(m.get("nef"), Some(&2));
    assert_eq!(m.len(), 5);
    assert_eq!(c.date_str(0), "1970-01-01");
}

#[test]
fn sizes_that_cannot_be_held_are_noticed() {
    let c = occasion(vec![item("/a.jpg", 0, u64::MAX), item("/b.jpg", 0, 1)], &[]);
    assert!(!c.size_fits());
}

#[test]
fn movies_are_sorted_by_path() {
    assert_eq!(sample().movies(), vec!["/c/M1.mp4", "/c/M2.MOV"]);
}

#[test]
fn a_jpeg_is_shown_before_a_nef() {
    let c = sample();
    assert_eq!(c.viewable_sources(0), vec!["/c/A.nef", "/c/B.JPG"]);
    assert_eq!(c.viewable_sources(3), vec!["/c/A.nef"]);
    assert_eq!(c.viewable_sources(5), Vec::<String>::new());
    let v = vec![item("/x/a.nef", 0, 0), item("/y/a.jpg", 0, 0), item("/z/a.jpeg", 0, 0)];
    assert_eq!(pick_viewables(&v), vec!["/z/a.jpeg"]);
    assert_eq!(pick_viewables(&v).len(), 1);
}

#[test]
fn ratings_belong_to_shots() {
    let c = sample();
    assert_eq!(c.rating_of(&c.files[0]), 2);
    assert_eq!(c.rating_of(&c.files[1]), 2);
    assert_eq!(c.rating_of(&c.files[3]), 0);
    assert_eq!(c.rated_count(1), 2);
    assert_eq!(c.rated_count(3), 1);
    assert_eq!(c.rated_count(5), 0);
    assert_eq!(c.photo_filenames(), vec!["B.NEF", "B.JPG", "A.nef"]);
    assert_eq!(c.rated_filenames(3), vec!["A.nef"]);
    assert_eq!(c.rated_filenames(0), vec!["B.NEF", "B.JPG", "A.nef"]);
}

#[test]
fn ratings_without_files_are_forgotten() {
    let mut c = sample();
    c.ratings.insert("gone".to_string(), 5);
    c.prune_ratings();
    assert_eq!(c.ratings.keys(), vec!["A", "B"]);
}

#[test]
fn dropped_shots_take_all_their_files_along() {
    let mut c = sample();
    let mut gone: TextMap<()> = TextMap::new();
    gone.insert("B".to_string(), ());
    c.remove_stems(&gone);
    let left: Vec<&str> = c.files.iter().map(|f| f.path.as_str()).collect();
    assert_eq!(left, vec!["/c/A.nef", "/c/M2.MOV", "/c/M1.mp4", "/c/R.raw"]);
    assert_eq!((c.start, c.end, c.skip), (20, 50, false));
    for s in ["A", "M1", "M2", "R"] {
        gone.insert(s.to_string(), ());
    }
    c.remove_stems(&gone);
    assert!(c.files.is_empty());
    assert_eq!((c.start, c.end, c.skip), (20, 50, true));
}

#[test]
fn a_gap_begins_a_new_group() {
    let files = vec![
        item("a", 0, 0),
        item("b", hour(5), 0),
        item("c", hour(10) + 1, 0),
        item("d", hour(10) + 1, 0),
        item("e", hour(20), 0),
    ];
    let groups = cluster(files, 5);
    let names: Vec<Vec<&str>> =
        groups.iter().map(|g| g.iter().map(|f| f.path.as_str()).collect()).collect();
    assert_eq!(names, vec![vec!["a", "b"], vec!["c", "d"], vec!["e"]]);
    assert!(cluster(Vec::new(), 5).is_empty());
}

#[test]
fn extreme_times_do_not_overflow() {
    let files = vec![item("a", i64::MIN, 0), item("b", i64::MAX, 0)];
    assert_eq!(cluster(files, i64::MAX).len(), 1);
    let files = vec![item("a", i64::MIN, 0), item("b", i64::MAX, 0)];
    assert_eq!(cluster(files, 1).len(), 2);
}

#[test]
fn the_two_images_of_a_shot_stay_together() {
    let files = vec![item("x.nef", 100, 0), item("y.nef", 7300, 0), item("y.jpg", 7300, 0)];
    let groups = cluster(files, 1);
    assert_eq!(groups.len(), 2);
    assert_eq!(groups[1].len(), 2);
}

#[test]
fn a_folder_of_the_same_day_is_suggested() {
    let day = 1_700_000_000;
    let found = vec![
        "2023-11-13 Other".to_string(),
        "2023-11-14".to_string(),
        "2023-11-14 Party".to_string(),
        "2023-11-14 Second".to_string(),
    ];
    let c = finish(vec![item("/c/r/a.jpg", day, 1)], "/pics", &found, 0, 3, TextMap::new());
    assert_eq!(c.target, "2023-11-14 Party");
    assert!(c.suggested && !c.skip);
    assert_eq!((c.start, c.end, c.removed), (day, day, 3));
    assert_eq!(c.dir, "/c/r");
    assert!(c.up == UploadMode::No && c.on_drive.is_none());
    let n = finish(vec![item("a.jpg", day, 1)], "/pics", &Vec::new(), 0, 0, TextMap::new());
    assert_eq!(n.target, "2023-11-14 ");
    assert!(!n.suggested);
    assert_eq!(n.dir, "");
    let e = finish(Vec::new(), "/pics", &Vec::new(), 0, 0, TextMap::new());
    assert_eq!((e.target.as_str(), e.dir.as_str()), ("1970-01-01 ", "/pics"));
}

#[test]
fn files_live_in_the_folder_of_the_first() {
    assert_eq!(dir_of(&vec![item("/p/q/a.jpg", 0, 0)], "/pics"), "/p/q");
    assert_eq!(dir_of(&Vec::new(), "/pics"), "/pics");
    assert_eq!(dir_of(&vec![item("/", 0, 0)], "/pics"), "/pics");
}

#[test]
fn sidecars_give_ratings_and_the_later_counts() {
    let files = vec![item("a.nef", 0, 0), item("a.jpg", 0, 0), item("b.jpg", 0, 0), item("m.mov", 0, 0)];
    let sides = vec![Some(new_sidecar(2)), Some(new_sidecar(4)), None, Some(new_sidecar(5))];
    let m = load_ratings(&files, &sides);
    assert_eq!(m.keys(), vec!["a"]);
    assert_eq!(m.get("a"), Some(&4));
}

#[test]
fn a_folder_of_the_library_is_an_occasion() {
    let c = library_cluster(
        "/pics/2024 Trip",
        vec![item("/pics/2024 Trip/a.jpg", 7, 0), item("/pics/2024 Trip/b.jpg", 9, 0)],
        2,
        TextMap::new(),
    )
    .unwrap();
    assert_eq!((c.target.as_str(), c.dir.as_str()), ("2024 Trip", "/pics/2024 Trip"));
    assert_eq!((c.start, c.end, c.removed), (7, 9, 2));
    assert!(c.suggested);
    assert!(library_cluster("/pics/x", Vec::new(), 0, TextMap::new()).is_none());
}

#[test]
fn the_newest_folder_comes_first() {
    let mk = |n: &str| library_cluster(n, vec![item("a.jpg", 0, 0)], 0, TextMap::new()).unwrap();
    let v = newest_first(vec![mk("/p/2023 a"), mk("/p/2024 b"), mk("/p/2022 c"), mk("/p/Z")]);
    let names: Vec<&str> = v.iter().map(|c| c.target.as_str()).collect();
    assert_eq!(names, vec!["Z", "2024 b", "2023 a", "2022 c"]);
}

#[test]
fn times_of_files() {
    let v = vec![item("a", 3, 0), item("b", 8, 0)];
    assert_eq!((time_of_first(&v, 1), time_of_last(&v, 1)), (3, 8));
    assert_eq!((time_of_first(&Vec::new(), 1), time_of_last(&Vec::new(), 2)), (1, 2));
}

#[test]
fn a_higher_bar_leaves_out_shots_and_nothing_else() {
    let c = occasion(
        vec![
            item("/c/A.jpg", 1, 1),
            item("/c/B.nef", 2, 1),
            item("/c/B.jpg", 2, 1),
            item("/c/C.nef", 3, 1),
            item("/c/D.jpg", 4, 1),
        ],
        &[("A", 1), ("B", 3), ("C", 5)],
    );
    assert_eq!(c.viewable_sources(0), vec!["/c/A.jpg", "/c/B.jpg", "/c/C.nef", "/c/D.jpg"]);
    assert_eq!(c.viewable_sources(1), vec!["/c/A.jpg", "/c/B.jpg", "/c/C.nef"]);
    assert_eq!(c.viewable_sources(3), vec!["/c/B.jpg", "/c/C.nef"]);
    assert_eq!(c.viewable_sources(4), vec!["/c/C.nef"]);
}
