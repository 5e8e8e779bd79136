//! The making of an upright copy of an image, step by step: what to do next, given how the last
//! step went.
use crate::paths::{file_stem_of, is_name, is_tidy, joined, lemma_joined, parent, parent_of};
use crate::text::{copy_list, copy_of, opt_list, strs};
use crate::views::{
    correct_orientation, extract_nef_view, is_preview, largest, lemma_largest, others,
    preview_args, turn_command, vips_args, vips_command, Preview,
};
use vstd::prelude::*;

verus! {

/// What to do next.
#[derive(Debug)]
pub enum MakeAction {
    /// Run exiv2, which puts the previews of a NEF image into the folder of the copies.
    Extract(Vec<String>),
    /// List this folder.
    List(String),
    /// Remove these previews.
    Discard(Vec<String>),
    /// Run jpegtran, and see whether the copy is there.
    Turn(Vec<String>),
    /// Run vipsthumbnail.
    Thumbnail(Vec<String>),
    /// Remove the preview that the copy was made of.
    Remove(String),
    /// Rename the preview: it becomes the copy.
    Rename { from: String, to: String },
    /// It is over.
    Finish,
}

/// How the last step went.
#[derive(Debug)]
pub enum MakeEvent {
    /// There is no last step yet.
    Begin,
    /// It was done, and whether it worked.
    Ran(bool),
    /// The folder holds these files.
    Listed(Vec<Preview>),
}

/// Where the making of a copy stands.
#[derive(Clone, Copy, PartialEq, Eq, Structural, Debug)]
pub enum MakePhase {
    Start,
    Extracting,
    Listing,
    Discarding,
    Turning,
    Ending,
    Over,
}

/// The making of an upright copy.
#[derive(Debug)]
pub struct Making {
    /// The image.
    pub original: String,
    /// Where the copy goes.
    pub display: String,
    /// Whether the image is a NEF image.
    pub nef: bool,
    /// The orientation of the image.
    pub orientation: u8,
    /// The preview of a NEF image that the copy is made of, once it is found.
    pub preview: Option<String>,
    /// What jpegtran is asked in order to turn the preview.
    pub turn: Option<Vec<String>>,
    pub phase: MakePhase,
}

/// Whether previews are being dealt with.
pub open spec fn with_previews(p: MakePhase) -> bool {
    p == MakePhase::Extracting || p == MakePhase::Listing || p == MakePhase::Discarding
}

/// What holds of the making of a copy at all times: only a NEF image has previews, it has a
/// name, and only a preview that was found is turned.
pub open spec fn makes(m: Making) -> bool {
    &&& with_previews(m.phase) ==> m.nef
    &&& m.nef ==> file_stem_of(m.original@) is Some
    &&& m.nef && m.phase == MakePhase::Turning ==> m.preview is Some
}

/// Whether `e` can be how the last step of `m` went.
pub open spec fn make_answers(m: Making, e: MakeEvent) -> bool {
    match m.phase {
        MakePhase::Start => e is Begin,
        MakePhase::Listing => e is Listed,
        MakePhase::Over => false,
        _ => e is Ran,
    }
}

/// The folder that the copy goes to.
pub open spec fn copy_folder(display: Seq<char>) -> Seq<char> {
    match parent_of(display) {
        Some(d) => d,
        None => "."@,
    }
}

/// Whether `a` asks jpegtran `t`.
pub open spec fn turns(a: MakeAction, t: Seq<Seq<char>>) -> bool {
    a is Turn && strs(a->Turn_0@) == t
}

/// Whether `a` asks vipsthumbnail for a copy.
pub open spec fn shrinks(a: MakeAction, m: Making) -> bool {
    a is Thumbnail && strs(a->Thumbnail_0@) == vips_command(m.original@, m.display@)
}

/// The state and the action that follow from `m` when its last step went as `e` says. A JPEG
/// image is turned without loss where that can be done, else vipsthumbnail makes the copy. Of a
/// NEF image the previews are extracted; the largest one is turned, or becomes the copy as it is.
pub open spec fn make_step(m: Making, e: MakeEvent, n: Making, a: MakeAction) -> bool {
    match (m.phase, e) {
        (MakePhase::Start, MakeEvent::Begin) => if m.nef {
            &&& n == (Making { phase: MakePhase::Extracting, ..m })
            &&& a is Extract
            &&& strs(a->Extract_0@) == seq!["-ep"@, "-l"@, copy_folder(m.display@), m.original@]
        } else {
            match turn_command(m.orientation, m.display@, m.original@) {
                Some(t) => n == (Making { phase: MakePhase::Turning, ..m }) && turns(a, t),
                None => n == (Making { phase: MakePhase::Ending, ..m }) && shrinks(a, m),
            }
        },
        (MakePhase::Extracting, MakeEvent::Ran(_)) => {
            &&& n == (Making { phase: MakePhase::Listing, ..m })
            &&& a is List
            &&& a->List_0@ == copy_folder(m.display@)
        },
        (MakePhase::Listing, MakeEvent::Listed(found)) => {
            let stem = file_stem_of(m.original@)->0;
            &&& n == (Making {
                preview: n.preview,
                turn: n.turn,
                phase: MakePhase::Discarding,
                ..m
            })
            &&& a is Discard
            &&& match largest(found@, stem) {
                Some(b) => {
                    &&& n.preview is Some
                    &&& n.preview->0@ == found@[b].path@
                    &&& strs(a->Discard_0@) == others(found@, stem, b)
                    &&& opt_list(n.turn) == turn_command(
                        m.orientation,
                        m.display@,
                        found@[b].path@,
                    )
                },
                None => n.preview is None && n.turn is None && a->Discard_0@.len() == 0,
            }
        },
        (MakePhase::Discarding, MakeEvent::Ran(_)) => match m.preview {
            Some(p) => match opt_list(m.turn) {
                Some(t) => n == (Making { phase: MakePhase::Turning, ..m }) && turns(a, t),
                None => n == (Making { phase: MakePhase::Ending, ..m }) && a == (
                MakeAction::Rename { from: p, to: m.display }),
            },
            None => n == (Making { phase: MakePhase::Over, ..m }) && a == MakeAction::Finish,
        },
        (MakePhase::Turning, MakeEvent::Ran(worked)) => if m.nef {
            &&& n == (Making { phase: MakePhase::Ending, ..m })
            &&& a == if worked {
                MakeAction::Remove(m.preview->0)
            } else {
                MakeAction::Rename { from: m.preview->0, to: m.display }
            }
        } else if worked {
            n == (Making { phase: MakePhase::Over, ..m }) && a == MakeAction::Finish
        } else {
            n == (Making { phase: MakePhase::Ending, ..m }) && shrinks(a, m)
        },
        (MakePhase::Ending, MakeEvent::Ran(_)) => n == (Making { phase: MakePhase::Over, ..m }) && a
            == MakeAction::Finish,
        _ => false,
    }
}

impl Making {
    /// The making of an upright copy at `display` that has not begun.
    pub fn new(original: String, display: String, nef: bool, orientation: u8) -> (m: Making)
        requires
            nef ==> file_stem_of(original@) is Some,
        ensures
            m == (Making {
                original,
                display,
                nef,
                orientation,
                preview: None,
                turn: None,
                phase: MakePhase::Start,
            }),
            makes(m),
    {
        Making {
            original,
            display,
            nef,
            orientation,
            preview: None,
            turn: None,
            phase: MakePhase::Start,
        }
    }

    /// Whether `e` can be how the last step went.
    pub fn accepts(&self, e: &MakeEvent) -> (r: bool)
        ensures
            r == make_answers(*self, *e),
    {
        match (self.phase, e) {
            (MakePhase::Start, MakeEvent::Begin) => true,
            (MakePhase::Start, _) => false,
            (MakePhase::Listing, MakeEvent::Listed(_)) => true,
            (MakePhase::Listing, _) => false,
            (MakePhase::Over, _) => false,
            (_, MakeEvent::Ran(_)) => true,
            _ => false,
        }
    }

    /// The folder that the copy goes to.
    fn folder(&self) -> (d: String)
        ensures
            d@ == copy_folder(self.display@),
    {
        match parent(self.display.as_str()) {
            Some(d) => d,
            None => copy_of("."),
        }
    }

    /// Takes note of how the last step went, and says what to do next.
    pub fn step(&mut self, e: MakeEvent) -> (a: MakeAction)
        requires
            makes(*old(self)),
            make_answers(*old(self), e),
        ensures
            make_step(*old(self), e, *final(self), a),
            makes(*final(self)),
    {
        match (self.phase, e) {
            (MakePhase::Start, _) => {
                if self.nef {
                    let args = preview_args(self.folder().as_str(), self.original.as_str());
                    self.phase = MakePhase::Extracting;
                    return MakeAction::Extract(args);
                }
                let u = correct_orientation(
                    self.original.as_str(),
                    self.display.as_str(),
                    self.orientation,
                );
                match u.turn {
                    Some(t) => {
                        self.phase = MakePhase::Turning;
                        MakeAction::Turn(t)
                    },
                    None => {
                        self.phase = MakePhase::Ending;
                        MakeAction::Thumbnail(u.fallback)
                    },
                }
            },
            (MakePhase::Extracting, _) => {
                self.phase = MakePhase::Listing;
                MakeAction::List(self.folder())
            },
            (MakePhase::Listing, MakeEvent::Listed(found)) => {
                let v = extract_nef_view(
                    &found,
                    self.original.as_str(),
                    self.display.as_str(),
                    self.orientation,
                );
                self.preview = v.preview;
                self.turn = v.turn;
                self.phase = MakePhase::Discarding;
                MakeAction::Discard(v.discard)
            },
            (MakePhase::Discarding, _) => match &self.preview {
                Some(p) => match &self.turn {
                    Some(t) => {
                        let args = copy_list(t);
                        self.phase = MakePhase::Turning;
                        MakeAction::Turn(args)
                    },
                    None => {
                        let from = p.clone();
                        self.phase = MakePhase::Ending;
                        MakeAction::Rename { from, to: self.display.clone() }
                    },
                },
                None => {
                    self.phase = MakePhase::Over;
                    MakeAction::Finish
                },
            },
            (MakePhase::Turning, MakeEvent::Ran(worked)) => {
                if self.nef {
                    let p = match &self.preview {
                        Some(p) => p.clone(),
                        None => String::new(),
                    };
                    self.phase = MakePhase::Ending;
                    if worked {
                        MakeAction::Remove(p)
                    } else {
                        MakeAction::Rename { from: p, to: self.display.clone() }
                    }
                } else if worked {
                    self.phase = MakePhase::Over;
                    MakeAction::Finish
                } else {
                    self.phase = MakePhase::Ending;
                    MakeAction::Thumbnail(
                        vips_args(self.original.as_str(), self.display.as_str()),
                    )
                }
            },
            _ => {
                self.phase = MakePhase::Over;
                MakeAction::Finish
            },
        }
    }
}

/// How many steps are left at most in each phase.
pub open spec fn steps_left(p: MakePhase) -> int {
    match p {
        MakePhase::Start => 6,
        MakePhase::Extracting => 5,
        MakePhase::Listing => 4,
        MakePhase::Discarding => 3,
        MakePhase::Turning => 2,
        MakePhase::Ending => 1,
        MakePhase::Over => 0,
    }
}

/// However a step goes, what is to be done next can be answered, only the end cannot, and every
/// step brings the end nearer.
pub proof fn lemma_making_goes_on(m: Making, e: MakeEvent, n: Making, a: MakeAction, next: MakeEvent)
    requires
        make_answers(m, e),
        make_step(m, e, n, a),
    ensures
        make_answers(n, next) == match a {
            MakeAction::List(_) => next is Listed,
            MakeAction::Finish => false,
            _ => next is Ran,
        },
        0 <= steps_left(n.phase) < steps_left(m.phase),
{
}

/// Whatever makes the copy of a JPEG image, jpegtran or vipsthumbnail, is asked to write it where
/// the copy goes.
pub proof fn lemma_copy_at_its_place(m: Making, e: MakeEvent, n: Making, a: MakeAction)
    requires
        make_answers(m, e),
        make_step(m, e, n, a),
        !m.nef,
        !with_previews(m.phase),
    ensures
        match a {
            MakeAction::Turn(_) => turn_command(m.orientation, m.display@, m.original@) == Some(
                strs(a->Turn_0@),
            ),
            MakeAction::Thumbnail(_) => strs(a->Thumbnail_0@) == vips_command(
                m.original@,
                m.display@,
            ),
            MakeAction::Finish => true,
            _ => false,
        },
{
}

/// The preview that is used is only removed once a turned copy of it is there; where there is
/// none, the preview itself becomes the copy.
pub proof fn lemma_preview_not_lost(m: Making, e: MakeEvent, n: Making, a: MakeAction)
    requires
        makes(m),
        make_answers(m, e),
        make_step(m, e, n, a),
    ensures
        match a {
            MakeAction::Remove(p) => {
                &&& m.phase == MakePhase::Turning
                &&& e == MakeEvent::Ran(true)
                &&& m.preview == Some(p)
            },
            MakeAction::Rename { from, to } => m.preview == Some(from) && to == m.display,
            _ => true,
        },
        m.phase == MakePhase::Turning && m.nef && e == MakeEvent::Ran(false) ==> a is Rename,
{
}

/// The view of a NEF image is made from the largest of its previews: that one is turned into its
/// place where the orientation asks for it, and put there as it is where it does not. The other
/// previews are thrown away.
pub proof fn lemma_largest_preview_shown(
    m: Making,
    e: MakeEvent,
    n: Making,
    a: MakeAction,
    w: bool,
    o: Making,
    b: MakeAction,
    k: int,
)
    requires
        m.phase == MakePhase::Listing,
        e is Listed,
        make_step(m, e, n, a),
        make_step(n, MakeEvent::Ran(w), o, b),
        0 <= k < e->Listed_0@.len(),
        is_preview(e->Listed_0@[k], file_stem_of(m.original@)->0),
        forall|j: int|
            0 <= j < e->Listed_0@.len() && j != k && is_preview(
                #[trigger] e->Listed_0@[j],
                file_stem_of(m.original@)->0,
            ) ==> e->Listed_0@[j].size < e->Listed_0@[k].size,
    ensures
        ({
            let p = e->Listed_0@[k].path@;
            let turned = m.orientation == 3 || m.orientation == 6 || m.orientation == 8;
            &&& turned ==> {
                &&& b is Turn
                &&& strs(b->Turn_0@).last() == p
                &&& strs(b->Turn_0@)[strs(b->Turn_0@).len() - 2] == m.display@
            }
            &&& !turned ==> b is Rename && b->from@ == p && b->to == m.display
            &&& forall|q: Seq<char>|
                #![trigger strs(a->Discard_0@).contains(q)]
                strs(a->Discard_0@).contains(q) <==> exists|j: int|
                    {
                        &&& 0 <= j < e->Listed_0@.len() && j != k
                        &&& is_preview(
                            #[trigger] e->Listed_0@[j],
                            file_stem_of(m.original@)->0,
                        )
                        &&& e->Listed_0@[j].path@ == q
                    }
        }),
{
    let found = e->Listed_0@;
    let stem = file_stem_of(m.original@)->0;
    lemma_largest(found, stem);
    let c = largest(found, stem)->0;
    assert(c == k) by {
        if c != k {
            assert(found[c].size < found[k].size);
            assert(found[k].size <= found[c].size);
        }
    }
    let l = others(found, stem, k);
    assert forall|q: Seq<char>| #![trigger l.contains(q)] l.contains(q) <==> exists|j: int|
        {
            &&& 0 <= j < found.len() && j != k
            &&& is_preview(#[trigger] found[j], stem)
            &&& found[j].path@ == q
        } by {
        lemma_other_previews(found, stem, k, q);
    }
}

proof fn lemma_other_previews(found: Seq<Preview>, stem: Seq<char>, best: int, q: Seq<char>)
    ensures
        others(found, stem, best).contains(q) <==> exists|j: int|
            {
                &&& 0 <= j < found.len() && j != best
                &&& is_preview(#[trigger] found[j], stem)
                &&& found[j].path@ == q
            },
    decreases found.len(),
{
    let l = others(found, stem, best);
    if found.len() > 0 {
        let f = found.drop_last();
        let n = f.len() as int;
        let m = others(f, stem, best);
        lemma_other_previews(f, stem, best, q);
        assert forall|j: int| 0 <= j < n implies #[trigger] found[j] == f[j] by {}
        if l.contains(q) {
            let i = choose|i: int| 0 <= i < l.len() && l[i] == q;
            if i < m.len() {
                assert(m[i] == q);
                let j = choose|j: int|
                    {
                        &&& 0 <= j < f.len() && j != best
                        &&& is_preview(#[trigger] f[j], stem)
                        &&& f[j].path@ == q
                    };
                assert(found[j].path@ == q);
            } else {
                assert(found[n].path@ == q);
            }
        }
        if exists|j: int|
            {
                &&& 0 <= j < found.len() && j != best
                &&& is_preview(#[trigger] found[j], stem)
                &&& found[j].path@ == q
            } {
            let j = choose|j: int|
                {
                    &&& 0 <= j < found.len() && j != best
                    &&& is_preview(#[trigger] found[j], stem)
                    &&& found[j].path@ == q
                };
            if j < n {
                assert(f[j] == found[j]);
                assert(m.contains(q));
                let i = choose|i: int| 0 <= i < m.len() && m[i] == q;
                assert(l[i] == q);
            } else {
                assert(l[m.len() as int] == q);
            }
        }
    }
}

/// The previews of a NEF image are looked for just where they are put: in the folder of the view
/// that is made.
pub proof fn lemma_previews_beside_view(
    m: Making,
    n: Making,
    a: MakeAction,
    w: bool,
    o: Making,
    b: MakeAction,
    d: Seq<char>,
    name: Seq<char>,
)
    requires
        m.phase == MakePhase::Start,
        m.nef,
        make_step(m, MakeEvent::Begin, n, a),
        make_step(n, MakeEvent::Ran(w), o, b),
        is_name(name),
        is_tidy(d),
        m.display@ == joined(d, name),
    ensures
        a is Extract,
        strs(a->Extract_0@).len() == 4,
        strs(a->Extract_0@)[2] == d,
        strs(a->Extract_0@)[3] == m.original@,
        b is List,
        b->List_0@ == d,
{
    lemma_joined(d, name);
}

/// An image that is no NEF is turned where its orientation asks for it, and made anew where it
/// does not, or where turning failed; the preview that a NEF image was turned from is removed.
pub proof fn lemma_made_somehow(m: Making, e: MakeEvent, n: Making, a: MakeAction)
    requires
        makes(m),
        make_answers(m, e),
        make_step(m, e, n, a),
    ensures
        m.phase == MakePhase::Start && !m.nef ==> if m.orientation == 3 || m.orientation == 6
            || m.orientation == 8 {
            a is Turn
        } else {
            a is Thumbnail
        },
        m.phase == MakePhase::Start && m.nef ==> a is Extract,
        m.phase == MakePhase::Turning && !m.nef ==> if e == MakeEvent::Ran(true) {
            a is Finish
        } else {
            a is Thumbnail
        },
        m.phase == MakePhase::Turning && m.nef && e == MakeEvent::Ran(true) ==> m.preview is Some
            && a == MakeAction::Remove(m.preview->0),
        m.phase == MakePhase::Ending ==> a is Finish,
        n.original == m.original,
        n.display == m.display,
        n.nef == m.nef,
        n.orientation == m.orientation,
{
}

} // verus!
