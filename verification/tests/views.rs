use wpic::views::{
    chunk_size, correct_orientation, existing_views, extract_nef_view, generate_views,
    missing_views, nef_path, pick_preview, preview_args, rotation, show, turn_args, vips_args,
    Preview,
};

fn preview(name: &str, size: u64) -> Preview {
    Preview { name: name.to_string(), path: format!("/v/{}", name), size }
}

fn strings(v: &[&str]) -> Vec<String> {
    v.iter().map(|s| s.to_string()).collect()
}

#[test]
fn upright_jpegs_are_shown_as_they_are() {
    let v = show("/p/a.jpg", 1, "/v");
    assert_eq!((v.display.as_str(), v.made, v.nef), ("/p/a.jpg", false, false));
    let r = show("/p/a.jpg", 6, "/v");
    assert_eq!((r.display.as_str(), r.original.as_str(), r.made), ("/v/a.jpg", "/p/a.jpg", true));
    let n = show("/p/b.NeF", 1, "/v");
    assert_eq!((n.display.as_str(), n.made, n.nef), ("/v/b.jpg", true, true));
    assert!(nef_path("x.nef") && nef_path("x.NEF") && !nef_path("x.nefx") && !nef_path("nef"));
}

#[test]
fn missing_copies_are_made() {
    let views = generate_views(&strings(&["/p/a.jpg", "/p/b.jpg", "/p/c.nef"]), &vec![1, 8, 1], "/v");
    assert_eq!(views.len(), 3);
    assert_eq!(missing_views(&views, &vec![true, true, false]), vec![2]);
    assert_eq!(missing_views(&views, &vec![false, false, false]), vec![1, 2]);
    assert_eq!(existing_views(&views, &vec![true, false, true]), strings(&["/p/a.jpg", "/v/c.jpg"]));
    assert_eq!(existing_views(&views, &vec![false, false, false]), Vec::<String>::new());
}

#[test]
fn four_threads_share_the_work() {
    assert_eq!(chunk_size(0), 1);
    assert_eq!(chunk_size(1), 1);
    assert_eq!(chunk_size(4), 1);
    assert_eq!(chunk_size(5), 2);
    assert_eq!(chunk_size(usize::MAX), usize::MAX / 4 + 1);
    for n in 1..200usize {
        assert_eq!(chunk_size(n), ((n + 3) / 4).max(1));
    }
}

#[test]
fn turns_are_told_by_the_orientation() {
    assert_eq!(rotation(3), Some("180"));
    assert_eq!(rotation(6), Some("90"));
    assert_eq!(rotation(8), Some("270"));
    for o in [0u8, 1, 2, 4, 5, 7, 9] {
        assert_eq!(rotation(o), None);
    }
    assert_eq!(
        turn_args(6, "/v/a.jpg", "/p/a.jpg"),
        Some(strings(&["-copy", "none", "-trim", "-rotate", "90", "-outfile", "/v/a.jpg", "/p/a.jpg"]))
    );
    assert_eq!(turn_args(2, "d", "s"), None);
    assert_eq!(
        vips_args("/p/a.jpg", "/w/b.jpg"),
        strings(&["/p/a.jpg", "--size", "12000x12000", "-o", "/w/b.jpg[Q=92]"])
    );
    for o in [2u8, 4, 5, 7] {
        let u = correct_orientation("/p/a.jpg", "/w/b.jpg", o);
        assert!(u.turn.is_none());
        assert_eq!(u.fallback, vips_args("/p/a.jpg", "/w/b.jpg"));
    }
    assert!(correct_orientation("/p/a.jpg", "/v/a.jpg", 3).turn.is_some());
}

#[test]
fn the_largest_preview_is_used() {
    let found = vec![
        preview("b-preview9.jpg", 99),
        preview("a-preview1.jpg", 5),
        preview("a-preview2.jpg", 8),
        preview("a-preview3.jpg", 8),
        preview("a-preview4.tif", 50),
        preview("a.jpg", 70),
    ];
    let (best, rest) = pick_preview(&found, "a");
    assert_eq!(best, Some("/v/a-preview2.jpg".to_string()));
    assert_eq!(rest, strings(&["/v/a-preview1.jpg", "/v/a-preview3.jpg"]));
    let (none, nothing) = pick_preview(&found, "zz");
    assert!(none.is_none() && nothing.is_empty());
    let v = extract_nef_view(&found, "/p/a.nef", "/v/a.jpg", 8);
    assert_eq!(v.preview, best);
    assert_eq!(v.discard, rest);
    assert_eq!(v.turn, turn_args(8, "/v/a.jpg", "/v/a-preview2.jpg"));
    assert!(extract_nef_view(&found, "/p/a.nef", "/v/a.jpg", 1).turn.is_none());
    assert!(extract_nef_view(&found, "/p/q.nef", "/v/q.jpg", 8).preview.is_none());
    assert_eq!(preview_args("/v", "/p/a.nef"), strings(&["-ep", "-l", "/v", "/p/a.nef"]));
}
