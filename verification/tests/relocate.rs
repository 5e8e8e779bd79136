use std::collections::BTreeMap;

use wpic::relocate::{Carry, Move, Outcome, Relocation};

fn run(c: &mut Carry, o: Outcome) -> Move {
    assert!(c.accepts(&o));
    c.step(o)
}

fn go(r: &mut Relocation, o: Outcome) -> Move {
    assert!(r.has_name() && r.accepts(&o));
    r.step(o)
}

#[test]
fn a_moved_file_is_renamed() {
    let mut c = Carry::new("a".to_string(), "b".to_string(), true);
    assert!(matches!(run(&mut c, Outcome::Begin), Move::Rename { from, to } if from == "a" && to == "b"));
    assert!(matches!(run(&mut c, Outcome::Worked), Move::Done(p) if p == "b"));
    assert!(!c.accepts(&Outcome::Worked));
}

#[test]
fn a_file_that_cannot_be_renamed_is_copied_and_removed() {
    let mut c = Carry::new("a".to_string(), "b".to_string(), true);
    run(&mut c, Outcome::Begin);
    assert!(matches!(run(&mut c, Outcome::Broke("x".to_string())), Move::Copy { .. }));
    assert!(matches!(run(&mut c, Outcome::Worked), Move::Remove(p) if p == "a"));
    assert!(matches!(run(&mut c, Outcome::Worked), Move::Done(_)));
    let mut d = Carry::new("a".to_string(), "b".to_string(), true);
    run(&mut d, Outcome::Begin);
    run(&mut d, Outcome::Broke("x".to_string()));
    assert!(matches!(run(&mut d, Outcome::Broke("full".to_string())), Move::Failed(e) if e == "full"));
}

#[test]
fn a_copied_file_stays() {
    let mut c = Carry::new("a".to_string(), "b".to_string(), false);
    assert!(!c.accepts(&Outcome::Found(true)));
    assert!(matches!(run(&mut c, Outcome::Begin), Move::Copy { .. }));
    assert!(matches!(run(&mut c, Outcome::Worked), Move::Done(_)));
}

#[test]
fn a_culled_file_takes_its_sidecar_along() {
    let mut r = Relocation::move_to_removed("/p/A/x.jpg".to_string());
    assert!(matches!(go(&mut r, Outcome::Begin), Move::MakeDir(d) if d == "/p/A/.removed"));
    assert!(matches!(go(&mut r, Outcome::Worked), Move::Probe(p) if p == "/p/A/x.jpg.xmp"));
    assert!(matches!(go(&mut r, Outcome::Found(true)), Move::Probe(p) if p == "/p/A/.removed/x.jpg"));
    assert!(matches!(go(&mut r, Outcome::Found(true)), Move::Probe(p) if p == "/p/A/.removed/x_1.jpg"));
    assert!(matches!(go(&mut r, Outcome::Found(false)), Move::Probe(p) if p == "/p/A/.removed/x_1.jpg.xmp"));
    assert!(matches!(
        go(&mut r, Outcome::Found(false)),
        Move::Sidecar { from, to } if from == "/p/A/x.jpg.xmp" && to == "/p/A/.removed/x_1.jpg.xmp"
    ));
    assert!(matches!(
        go(&mut r, Outcome::Broke("ignored".to_string())),
        Move::Rename { from, to } if from == "/p/A/x.jpg" && to == "/p/A/.removed/x_1.jpg"
    ));
    assert!(matches!(go(&mut r, Outcome::Worked), Move::Done(p) if p == "/p/A/.removed/x_1.jpg"));
}

/// What fails on the way of a file.
#[derive(Clone, Copy, PartialEq)]
enum Trouble {
    Nothing,
    Sidecar,
    Renames,
    All,
}

/// Takes the file to its place among `files`, each a path and what it holds.
fn relocate(
    files: &mut BTreeMap<String, String>,
    mut r: Relocation,
    trouble: Trouble,
) -> Option<String> {
    let bad = || Outcome::Broke("no".to_string());
    let mut o = Outcome::Begin;
    loop {
        o = match go(&mut r, o) {
            Move::MakeDir(_) => Outcome::Worked,
            Move::Probe(p) => Outcome::Found(files.contains_key(&p)),
            Move::Sidecar { .. } if trouble == Trouble::Sidecar => bad(),
            Move::Rename { .. } if trouble == Trouble::Renames || trouble == Trouble::All => bad(),
            Move::Sidecar { from, to } | Move::Rename { from, to } => {
                let t = files.remove(&from).unwrap();
                assert!(files.insert(to, t).is_none());
                Outcome::Worked
            }
            Move::Copy { .. } if trouble == Trouble::All => bad(),
            Move::Copy { from, to } => {
                let t = files[&from].clone();
                assert!(files.insert(to, t).is_none());
                Outcome::Worked
            }
            Move::Remove(p) => {
                files.remove(&p).unwrap();
                Outcome::Worked
            }
            Move::Done(p) => return Some(p),
            Move::Failed(_) => return None,
        };
    }
}

fn cull(files: &mut BTreeMap<String, String>, path: &str, trouble: Trouble) -> Option<String> {
    relocate(files, Relocation::move_to_removed(path.to_string()), trouble)
}

fn restore(files: &mut BTreeMap<String, String>, path: &str, trouble: Trouble) -> Option<String> {
    relocate(files, Relocation::restore_one(path.to_string(), "/p"), trouble)
}

fn stored(v: &[(&str, &str)]) -> BTreeMap<String, String> {
    v.iter().map(|(p, t)| (p.to_string(), t.to_string())).collect()
}

#[test]
fn nothing_removed_earlier_is_lost() {
    let mut files = stored(&[
        ("/p/I.NEF", "n2"),
        ("/p/I.NEF.xmp", "x2"),
        ("/p/.removed/I.NEF", "n1"),
        ("/p/.removed/I.NEF.xmp", "x1"),
    ]);
    let put = cull(&mut files, "/p/I.NEF", Trouble::Nothing).unwrap();
    assert_eq!(put, "/p/.removed/I_1.NEF");
    assert_eq!(
        files,
        stored(&[
            ("/p/.removed/I.NEF", "n1"),
            ("/p/.removed/I.NEF.xmp", "x1"),
            ("/p/.removed/I_1.NEF", "n2"),
            ("/p/.removed/I_1.NEF.xmp", "x2"),
        ])
    );
    files.insert("/p/I_1.NEF".to_string(), "n3".to_string());
    let back = restore(&mut files, &put, Trouble::Nothing).unwrap();
    assert_eq!(back, "/p/I_1_1.NEF");
    assert_eq!(files["/p/I_1_1.NEF"], "n2");
    assert_eq!(files["/p/I_1_1.NEF.xmp"], "x2");
    assert_eq!(files["/p/I_1.NEF"], "n3");
}

#[test]
fn a_place_beside_another_sidecar_is_taken_for_a_sidecar() {
    let mut files =
        stored(&[("/p/I.NEF", "n"), ("/p/I.NEF.xmp", "x"), ("/p/.removed/I.NEF.xmp", "old")]);
    assert_eq!(cull(&mut files, "/p/I.NEF", Trouble::Nothing).unwrap(), "/p/.removed/I_1.NEF");
    assert_eq!(files["/p/.removed/I.NEF.xmp"], "old");
    assert_eq!(files["/p/.removed/I_1.NEF.xmp"], "x");
}

#[test]
fn a_file_without_a_sidecar_keeps_a_free_name() {
    let mut files = stored(&[("/p/I.NEF", "n"), ("/p/.removed/I.NEF.xmp", "old")]);
    assert_eq!(cull(&mut files, "/p/I.NEF", Trouble::Nothing).unwrap(), "/p/.removed/I.NEF");
    assert_eq!(files, stored(&[("/p/.removed/I.NEF", "n"), ("/p/.removed/I.NEF.xmp", "old")]));
}

#[test]
fn restoring_undoes_culling_however_the_steps_go() {
    let before = stored(&[("/p/I.NEF", "n"), ("/p/I.NEF.xmp", "x"), ("/p/J.NEF", "m")]);
    let bare = stored(&[("/p/I.NEF", "n"), ("/p/J.NEF", "m")]);
    for start in [before, bare] {
        for there in [Trouble::Nothing, Trouble::Sidecar, Trouble::Renames] {
            for back in [Trouble::Nothing, Trouble::Renames] {
                let mut files = start.clone();
                assert_eq!(cull(&mut files, "/p/I.NEF", there).unwrap(), "/p/.removed/I.NEF");
                assert!(!files.contains_key("/p/I.NEF"));
                assert_eq!(restore(&mut files, "/p/.removed/I.NEF", back).unwrap(), "/p/I.NEF");
                assert_eq!(files, start);
            }
        }
    }
}

#[test]
fn a_second_try_brings_a_file_and_its_sidecar_together() {
    let mut files = stored(&[("/p/I.NEF", "n"), ("/p/I.NEF.xmp", "x")]);
    assert!(cull(&mut files, "/p/I.NEF", Trouble::All).is_none());
    assert_eq!(files, stored(&[("/p/I.NEF", "n"), ("/p/.removed/I.NEF.xmp", "x")]));
    assert_eq!(cull(&mut files, "/p/I.NEF", Trouble::Nothing).unwrap(), "/p/.removed/I.NEF");
    assert_eq!(files, stored(&[("/p/.removed/I.NEF", "n"), ("/p/.removed/I.NEF.xmp", "x")]));
}

#[test]
fn a_folder_that_cannot_be_made_ends_it() {
    let mut r = Relocation::move_to_removed("x.jpg".to_string());
    assert!(matches!(go(&mut r, Outcome::Begin), Move::MakeDir(d) if d == ".removed"));
    assert!(matches!(go(&mut r, Outcome::Broke("ro".to_string())), Move::Failed(e) if e == "ro"));
    assert!(!r.accepts(&Outcome::Worked));
}

#[test]
fn a_restored_file_goes_back_where_it_was() {
    let mut r = Relocation::restore_one("/p/A/.removed/x.jpg".to_string(), "/p/A");
    assert!(matches!(go(&mut r, Outcome::Begin), Move::Probe(p) if p == "/p/A/.removed/x.jpg.xmp"));
    assert!(matches!(go(&mut r, Outcome::Found(false)), Move::Probe(p) if p == "/p/A/x.jpg"));
    assert!(matches!(go(&mut r, Outcome::Found(false)), Move::Rename { .. }));
    assert!(matches!(go(&mut r, Outcome::Broke("x".to_string())), Move::Copy { .. }));
    assert!(matches!(go(&mut r, Outcome::Worked), Move::Remove(p) if p == "/p/A/.removed/x.jpg"));
    assert!(matches!(go(&mut r, Outcome::Worked), Move::Done(p) if p == "/p/A/x.jpg"));
}
