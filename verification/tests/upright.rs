use wpic::upright::{MakeAction, MakeEvent, MakePhase, Making};
use wpic::views::Preview;

fn go(m: &mut Making, e: MakeEvent) -> MakeAction {
    assert!(m.accepts(&e));
    m.step(e)
}

fn making(original: &str, nef: bool, orientation: u8) -> Making {
    Making::new(original.to_string(), "/v/x.jpg".to_string(), nef, orientation)
}

fn preview(name: &str, size: u64) -> Preview {
    Preview { name: name.to_string(), path: format!("/v/{}", name), size }
}

fn found() -> Vec<Preview> {
    vec![preview("x-preview1.jpg", 10), preview("x-preview2.jpg", 90), preview("y-preview9.jpg", 99)]
}

#[test]
fn a_jpeg_is_turned_without_loss() {
    let mut m = making("/c/x.jpg", false, 6);
    assert!(!m.accepts(&MakeEvent::Ran(true)));
    match go(&mut m, MakeEvent::Begin) {
        MakeAction::Turn(args) => assert_eq!(
            args,
            vec!["-copy", "none", "-trim", "-rotate", "90", "-outfile", "/v/x.jpg", "/c/x.jpg"]
        ),
        a => panic!("{:?}", a),
    }
    assert!(matches!(go(&mut m, MakeEvent::Ran(true)), MakeAction::Finish));
    assert!(m.phase == MakePhase::Over && !m.accepts(&MakeEvent::Ran(true)));
}

#[test]
fn a_jpeg_that_cannot_be_turned_goes_to_vips() {
    let args = vec!["/c/x.jpg", "--size", "12000x12000", "-o", "/v/x.jpg[Q=92]"];
    let mut m = making("/c/x.jpg", false, 3);
    go(&mut m, MakeEvent::Begin);
    assert!(matches!(go(&mut m, MakeEvent::Ran(false)), MakeAction::Thumbnail(a) if a == args));
    assert!(matches!(go(&mut m, MakeEvent::Ran(false)), MakeAction::Finish));
    let mut flipped = making("/c/x.jpg", false, 2);
    assert!(matches!(go(&mut flipped, MakeEvent::Begin), MakeAction::Thumbnail(a) if a == args));
}

#[test]
fn the_largest_preview_of_a_nef_is_turned() {
    let mut m = making("/c/x.NEF", true, 8);
    assert!(matches!(
        go(&mut m, MakeEvent::Begin),
        MakeAction::Extract(a) if a == vec!["-ep", "-l", "/v", "/c/x.NEF"]
    ));
    assert!(matches!(go(&mut m, MakeEvent::Ran(false)), MakeAction::List(d) if d == "/v"));
    assert!(!m.accepts(&MakeEvent::Ran(true)));
    assert!(matches!(
        go(&mut m, MakeEvent::Listed(found())),
        MakeAction::Discard(d) if d == vec!["/v/x-preview1.jpg"]
    ));
    match go(&mut m, MakeEvent::Ran(true)) {
        MakeAction::Turn(args) => assert_eq!(
            args,
            vec!["-copy", "none", "-trim", "-rotate", "270", "-outfile", "/v/x.jpg", "/v/x-preview2.jpg"]
        ),
        a => panic!("{:?}", a),
    }
    assert!(matches!(go(&mut m, MakeEvent::Ran(true)), MakeAction::Remove(p) if p == "/v/x-preview2.jpg"));
    assert!(matches!(go(&mut m, MakeEvent::Ran(true)), MakeAction::Finish));
}

#[test]
fn a_preview_that_is_not_turned_becomes_the_copy() {
    let mut m = making("/c/x.nef", true, 8);
    go(&mut m, MakeEvent::Begin);
    go(&mut m, MakeEvent::Ran(true));
    go(&mut m, MakeEvent::Listed(found()));
    go(&mut m, MakeEvent::Ran(true));
    assert!(matches!(
        go(&mut m, MakeEvent::Ran(false)),
        MakeAction::Rename { from, to } if from == "/v/x-preview2.jpg" && to == "/v/x.jpg"
    ));
    let mut upright = making("/c/x.nef", true, 1);
    go(&mut upright, MakeEvent::Begin);
    go(&mut upright, MakeEvent::Ran(true));
    go(&mut upright, MakeEvent::Listed(found()));
    assert!(matches!(go(&mut upright, MakeEvent::Ran(true)), MakeAction::Rename { .. }));
}

#[test]
fn a_nef_without_previews_has_no_copy() {
    let mut m = making("/c/x.nef", true, 1);
    go(&mut m, MakeEvent::Begin);
    go(&mut m, MakeEvent::Ran(true));
    assert!(matches!(go(&mut m, MakeEvent::Listed(Vec::new())), MakeAction::Discard(d) if d.is_empty()));
    assert!(matches!(go(&mut m, MakeEvent::Ran(true)), MakeAction::Finish));
}
