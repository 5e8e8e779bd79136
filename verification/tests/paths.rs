use std::path::{Path, PathBuf};
use wpic::order::{rank, Rank, TextMap};
use wpic::paths::{
    destination, expand_tilde, extension, file_name, file_stem, join_path, name_extension,
    name_stem, parent, path_less, sidecar_path, stem_of,
};
use wpic::sorting::sort;

fn samples() -> Vec<&'static str> {
    vec![
        "", "/", ".", "..", "a", "a/", "a//", "a/.", "a/./", "a/..", "/a", "/a/b.jpg", "a/b.c.d",
        ".hidden", "a/.hidden", "a/.hidden.x", "b.", "a/b.", "a/b./", "//", "/.", "/..", "./a",
        "../a", "a/../b", "a//b", "a/./b", "..a", "a/...", "...", "/run/media/me/CARD/DCIM/",
        "DSC_0001.NEF", "x y.JPG", "ü.jpg", "a/b/", "/a/", "./.", "a/b/.", ".//.", "/./a",
    ]
}

#[test]
fn paths_come_apart_as_std_takes_them_apart() {
    for s in samples() {
        let p = Path::new(s);
        let name = p.file_name().map(|n| n.to_str().unwrap().to_string());
        let stem = p.file_stem().map(|n| n.to_str().unwrap().to_string());
        let ext = p.extension().map(|n| n.to_str().unwrap().to_string());
        assert_eq!(file_name(s), name, "{:?}", s);
        assert_eq!(file_stem(s), stem, "{:?}", s);
        assert_eq!(extension(s), ext, "{:?}", s);
        assert_eq!(
            parent(s),
            p.parent().map(|d| d.to_str().unwrap().to_string()),
            "{:?}",
            s
        );
        assert_eq!(stem_of(s), stem.unwrap_or_default(), "{:?}", s);
    }
}

#[test]
fn paths_are_joined_as_std_joins_them() {
    for a in samples() {
        for b in samples() {
            let expected = Path::new(a).join(b);
            assert_eq!(join_path(a, b), expected.to_str().unwrap(), "{:?} {:?}", a, b);
        }
    }
}

#[test]
fn paths_are_ordered_as_std_orders_them() {
    for a in samples() {
        for b in samples() {
            assert_eq!(path_less(a, b), Path::new(a) < Path::new(b), "{:?} {:?}", a, b);
        }
    }
}

#[test]
fn strings_are_sorted_as_paths() {
    let mut v: Vec<PathBuf> = samples().iter().map(PathBuf::from).collect();
    v.sort();
    let expected: Vec<String> = v.iter().map(|p| p.to_str().unwrap().to_string()).collect();
    let mine = sort(samples().iter().map(|s| s.to_string()).collect());
    assert_eq!(mine, expected);
}

#[test]
fn names_have_stems_and_extensions() {
    assert_eq!(name_stem("a.b.c"), "a.b");
    assert_eq!(name_stem(".b"), ".b");
    assert_eq!(name_extension("a.b.c"), Some("c".to_string()));
    assert_eq!(name_extension("a."), Some(String::new()));
    assert_eq!(name_extension("a"), None);
}

#[test]
fn taken_names_get_numbers() {
    assert_eq!(destination("/p", "a.jpg", 0), "/p/a.jpg");
    assert_eq!(destination("/p", "a.jpg", 1), "/p/a_1.jpg");
    assert_eq!(destination("/p", "a.jpg", 12), "/p/a_12.jpg");
    assert_eq!(destination("/p", "a", 2), "/p/a_2.");
}

#[test]
fn numbered_names_are_all_different() {
    let mut seen: Vec<String> = Vec::new();
    for n in 0..40 {
        let d = destination("d", "a_1.jpg", n);
        assert!(!seen.contains(&d) || n == 0);
        seen.push(d);
    }
}

#[test]
fn a_sidecar_keeps_the_whole_name() {
    assert_eq!(sidecar_path("/p/IMG.NEF"), "/p/IMG.NEF.xmp");
}

#[test]
fn a_tilde_stands_for_the_home_directory() {
    assert_eq!(expand_tilde("~/Pictures", "/home/me"), "/home/me/Pictures");
    assert_eq!(expand_tilde("~", "/home/me"), "/home/me");
    assert_eq!(expand_tilde("~x", "/home/me"), "~x");
    assert_eq!(expand_tilde("~//x", "/home/me"), "/x");
}

#[test]
fn a_name_in_a_directory_is_found_again() {
    assert_eq!(file_name(&join_path("/a/b", "c.jpg")), Some("c.jpg".to_string()));
    assert_eq!(parent(&join_path("/a/b", "c.jpg")), Some("/a/b".to_string()));
    assert_eq!(parent(&join_path("/", "c")), Some("/".to_string()));
}

#[test]
fn texts_are_ordered_by_their_bytes() {
    assert_eq!(rank("a", "b"), Rank::Before);
    assert_eq!(rank("a", "a"), Rank::Same);
    assert_eq!(rank("ab", "a"), Rank::After);
    assert_eq!(rank("Z", "a"), Rank::Before);
    assert_eq!(rank("é", "z"), Rank::After);
}

#[test]
fn text_maps_keep_their_keys_in_order() {
    let mut m: TextMap<u8> = TextMap::new();
    assert_eq!(m.len(), 0);
    m.insert("b".to_string(), 1);
    m.insert("a".to_string(), 2);
    m.insert("c".to_string(), 3);
    m.insert("a".to_string(), 4);
    assert_eq!(m.len(), 3);
    assert_eq!(m.get("a"), Some(&4));
    assert_eq!(m.get("x"), None);
    assert_eq!(m.keys(), vec!["a", "b", "c"]);
    m.remove("b");
    m.remove("nothing");
    assert!(!m.contains("b") && m.contains("c"));
    assert_eq!(m.keys(), vec!["a", "c"]);
}
