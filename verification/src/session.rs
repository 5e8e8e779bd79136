//! A review, a look at removed shots, and their way to the trash, step by step: what to do next,
//! given how the last step went.
use crate::files::{is_photo_ext, photo, shot, FileItem};
use crate::number::{dec, decimal};
use crate::occasion::{
    lemma_one_view_per_shot, lemma_picked, lemma_shot_with_photo, lemma_spared, lemma_viewable,
    lemma_views_in_order, photo_shots, rated, rated_shots, rating, shots, spared, viewable,
    viewables, Cluster,
};
use crate::order::{in_order, lemma_order_of};
use crate::paths::{joined, stem};
use crate::plan::paths_of;
use crate::review::{
    apply_restore, apply_review, conclude_restore, conclude_review, counting, files_of, got_back,
    lemma_got_back, no_removed_text, noted_rates, noted_stems, nothing_text, paths_in, read_rates,
    read_stems, removed_folder, removed_sources, restored_text, review_sources, review_text,
    reviewed, sidecar_writes, stale_views, stem_set, writes, Changes,
};
use crate::sorting::lemma_filter_push;
use crate::text::{copy_of, lines, opt_string, push_copy, strs};
use vstd::prelude::*;

verus! {

/// What to do next in a review.
#[derive(Debug)]
pub enum ReviewAction {
    /// Prepare images for the viewer.
    Prepare(Vec<String>),
    /// Show these images in the viewer, with the keys of a review.
    Launch(Vec<String>),
    /// Read what the viewer noted.
    ReadNotes,
    /// Put the culled files away, remove the stale copies, give the photos their ratings, and
    /// count the removed shots, in this order.
    Apply { cull: Vec<String>, stale: Vec<String>, sidecars: Vec<(String, u8)> },
    /// It is over; tell this.
    Say(String),
}

/// How the last step of a review went.
#[derive(Debug)]
pub enum ReviewEvent {
    /// There is no last step yet.
    Begin,
    /// These images can be shown.
    Prepared(Vec<String>),
    /// Whether the viewer could be started; it was closed again.
    Viewed(bool),
    /// What the viewer noted, where that could be read.
    Noted { cull: Option<String>, rates: Option<String> },
    /// So many files were put away, and so many shots are in the `.removed` folder now.
    Applied { trashed: usize, removed: usize },
}

/// Where a review stands.
#[derive(Clone, Copy, PartialEq, Eq, Structural, Debug)]
pub enum ReviewPhase {
    Start,
    Preparing,
    Viewing,
    Noting,
    Applying { culled: usize, rated: usize },
    Over,
}

/// A review of an occasion.
#[derive(Debug)]
pub struct Review {
    /// Whether only shots rated `min` or more are shown.
    pub only_rated: bool,
    pub min: u8,
    /// Where upright copies are kept.
    pub cache: String,
    pub phase: ReviewPhase,
}

/// Whether `e` can be how the last step of a review went.
pub open spec fn review_answers(p: ReviewPhase, e: ReviewEvent) -> bool {
    match p {
        ReviewPhase::Start => e is Begin,
        ReviewPhase::Preparing => e is Prepared,
        ReviewPhase::Viewing => e is Viewed,
        ReviewPhase::Noting => e is Noted,
        ReviewPhase::Applying { .. } => e is Applied,
        ReviewPhase::Over => false,
    }
}

/// The images that are to be reviewed.
pub open spec fn to_review(r: Review, c: Cluster) -> Seq<Seq<char>> {
    viewables(
        c.files@.filter(
            rated(
                c.ratings@,
                if r.only_rated {
                    r.min
                } else {
                    0
                },
            ),
        ),
    )
}

/// Whether `a` ends a review with the text `t`.
pub open spec fn says(a: ReviewAction, t: Seq<char>) -> bool {
    a is Say && a->Say_0@ == t
}

/// The state, the occasion and the action that follow in a review of `c` from the event `e`.
pub open spec fn review_step(
    r: Review,
    c: Cluster,
    e: ReviewEvent,
    s: Review,
    d: Cluster,
    a: ReviewAction,
) -> bool {
    &&& s == (Review { phase: s.phase, ..r })
    &&& match (r.phase, e) {
        (ReviewPhase::Start, ReviewEvent::Begin) => d == c && if to_review(r, c).len() > 0 {
            &&& s.phase == ReviewPhase::Preparing
            &&& a is Prepare
            &&& strs(a->Prepare_0@) == to_review(r, c)
        } else {
            s.phase == ReviewPhase::Over && says(a, nothing_text(r.only_rated, r.min))
        },
        (ReviewPhase::Preparing, ReviewEvent::Prepared(views)) => d == c && if views@.len() > 0 {
            s.phase == ReviewPhase::Viewing && a == ReviewAction::Launch(views)
        } else {
            s.phase == ReviewPhase::Over && says(a, "Could not prepare images for viewing."@)
        },
        (ReviewPhase::Viewing, ReviewEvent::Viewed(started)) => d == c && if started {
            s.phase == ReviewPhase::Noting && a == ReviewAction::ReadNotes
        } else {
            s.phase == ReviewPhase::Over && says(a, "Failed to launch imv."@)
        },
        (ReviewPhase::Noting, ReviewEvent::Noted { cull, rates }) => {
            let gone = noted_stems(opt_string(cull));
            let given = noted_rates(opt_string(rates));
            let kept = counting(given, gone);
            &&& reviewed(c, gone, given, d)
            &&& s.phase is Applying
            &&& s.phase->culled == gone.len()
            &&& s.phase->rated == kept.dom().len()
            &&& a is Apply
            &&& strs(a->cull@) == paths_in(c.files@, gone)
            &&& strs(a->stale@) == in_order(gone).map_values(
                |x: Seq<char>| joined(r.cache@, x + ".jpg"@),
            )
            &&& writes(a->sidecars@) == sidecar_writes(d.files@, kept)
        },
        (
            ReviewPhase::Applying { culled, rated },
            ReviewEvent::Applied { trashed, removed },
        ) => {
            &&& d == (Cluster { removed, ..c })
            &&& s.phase == ReviewPhase::Over
            &&& says(
                a,
                review_text(
                    culled as nat,
                    trashed as nat,
                    rated as nat,
                    r.min,
                    rated_shots(c.ratings@, r.min).len(),
                ),
            )
        },
        _ => false,
    }
}

impl Review {
    /// A review of an occasion that has not begun.
    pub fn new(only_rated: bool, min: u8, cache: String) -> (r: Review)
        ensures
            r == (Review { only_rated, min, cache, phase: ReviewPhase::Start }),
    {
        Review { only_rated, min, cache, phase: ReviewPhase::Start }
    }

    /// Whether `e` can be how the last step went.
    pub fn accepts(&self, e: &ReviewEvent) -> (b: bool)
        ensures
            b == review_answers(self.phase, *e),
    {
        match (self.phase, e) {
            (ReviewPhase::Start, ReviewEvent::Begin) => true,
            (ReviewPhase::Preparing, ReviewEvent::Prepared(_)) => true,
            (ReviewPhase::Viewing, ReviewEvent::Viewed(_)) => true,
            (ReviewPhase::Noting, ReviewEvent::Noted { .. }) => true,
            (ReviewPhase::Applying { .. }, ReviewEvent::Applied { .. }) => true,
            _ => false,
        }
    }

    /// Takes note of how the last step of the review of `c` went, and says what to do next.
    pub fn review_cluster(&mut self, c: &mut Cluster, e: ReviewEvent) -> (a: ReviewAction)
        requires
            review_answers(old(self).phase, e),
        ensures
            review_step(*old(self), *old(c), e, *final(self), *final(c), a),
    {
        match (self.phase, e) {
            (ReviewPhase::Start, ReviewEvent::Begin) => match review_sources(
                c,
                self.only_rated,
                self.min,
            ) {
                Ok(v) => {
                    self.phase = ReviewPhase::Preparing;
                    ReviewAction::Prepare(v)
                },
                Err(t) => {
                    self.phase = ReviewPhase::Over;
                    ReviewAction::Say(t)
                },
            },
            (ReviewPhase::Preparing, ReviewEvent::Prepared(views)) => {
                if views.len() > 0 {
                    self.phase = ReviewPhase::Viewing;
                    ReviewAction::Launch(views)
                } else {
                    self.phase = ReviewPhase::Over;
                    ReviewAction::Say(copy_of("Could not prepare images for viewing."))
                }
            },
            (ReviewPhase::Viewing, ReviewEvent::Viewed(started)) => {
                if started {
                    self.phase = ReviewPhase::Noting;
                    ReviewAction::ReadNotes
                } else {
                    self.phase = ReviewPhase::Over;
                    ReviewAction::Say(copy_of("Failed to launch imv."))
                }
            },
            (ReviewPhase::Noting, ReviewEvent::Noted { cull, rates }) => {
                let gone = match &cull {
                    Some(t) => read_stems(Some(t.as_str())),
                    None => read_stems(None),
                };
                let given = match &rates {
                    Some(t) => read_rates(Some(t.as_str())),
                    None => read_rates(None),
                };
                let files = files_of(&c.files, &gone);
                let stale = stale_views(&gone, self.cache.as_str());
                let changes = apply_review(c, &gone, &given);
                self.phase = ReviewPhase::Applying {
                    culled: changes.culled,
                    rated: changes.rated,
                };
                ReviewAction::Apply { cull: files, stale, sidecars: changes.sidecars }
            },
            (
                ReviewPhase::Applying { culled, rated },
                ReviewEvent::Applied { trashed, removed },
            ) => {
                let changes = Changes { sidecars: Vec::new(), culled, rated };
                let t = conclude_review(c, &changes, trashed, removed, self.min);
                self.phase = ReviewPhase::Over;
                ReviewAction::Say(t)
            },
            _ => ReviewAction::ReadNotes,
        }
    }
}

/// What to do next in a look at removed shots.
#[derive(Debug)]
pub enum RestoreAction {
    /// Prepare images for the viewer.
    Prepare(Vec<String>),
    /// Show these images in the viewer, with the key that restores.
    Launch(Vec<String>),
    /// Read what the viewer noted.
    ReadNotes,
    /// Bring these files back to the folder of the occasion, and count the removed shots.
    Restore(Vec<String>),
    /// It is over; tell this.
    Say(String),
}

/// How the last step of a look at removed shots went.
#[derive(Debug)]
pub enum RestoreEvent {
    /// There is no last step yet.
    Begin,
    /// These images can be shown.
    Prepared(Vec<String>),
    /// Whether the viewer could be started; it was closed again.
    Viewed(bool),
    /// What the viewer noted, where that could be read.
    Noted(Option<String>),
    /// So many files were brought back, of which these could be read, and so many shots are in
    /// the `.removed` folder now.
    Restored { items: Vec<FileItem>, restored: usize, removed: usize },
}

/// Where a look at removed shots stands.
#[derive(Clone, Copy, PartialEq, Eq, Structural, Debug)]
pub enum RestorePhase {
    Start,
    Preparing { shown: usize },
    Viewing { shown: usize },
    Noting { shown: usize },
    Restoring { shown: usize },
    Over,
}

/// A look at the removed shots of an occasion.
#[derive(Debug)]
pub struct Restore {
    /// The files in the `.removed` folder.
    pub removed: Vec<FileItem>,
    pub phase: RestorePhase,
}

/// Whether `e` can be how the last step of a look at removed shots went.
pub open spec fn restore_answers(p: RestorePhase, e: RestoreEvent) -> bool {
    match (p, e) {
        (RestorePhase::Start, RestoreEvent::Begin) => true,
        (RestorePhase::Preparing { .. }, RestoreEvent::Prepared(_)) => true,
        (RestorePhase::Viewing { .. }, RestoreEvent::Viewed(_)) => true,
        (RestorePhase::Noting { .. }, RestoreEvent::Noted(_)) => true,
        (RestorePhase::Restoring { .. }, RestoreEvent::Restored { items, restored, .. }) => items@.len()
            <= restored,
        _ => false,
    }
}

/// Whether `a` ends a look at removed shots with the text `t`.
pub open spec fn tells(a: RestoreAction, t: Seq<char>) -> bool {
    a is Say && a->Say_0@ == t
}

/// The state, the occasion and the action that follow in a look at the removed shots of `c`
/// from the event `e`.
pub open spec fn restore_step(
    r: Restore,
    c: Cluster,
    e: RestoreEvent,
    s: Restore,
    d: Cluster,
    a: RestoreAction,
) -> bool {
    &&& s == (Restore { phase: s.phase, ..r })
    &&& match (r.phase, e) {
        (RestorePhase::Start, RestoreEvent::Begin) => {
            let views = viewables(r.removed@);
            d == c && if views.len() > 0 {
                &&& s.phase is Preparing
                &&& s.phase->Preparing_shown == views.len()
                &&& a is Prepare
                &&& strs(a->Prepare_0@) == views
            } else {
                &&& s.phase == RestorePhase::Over
                &&& tells(a, no_removed_text(r.removed@.len()))
            }
        },
        (RestorePhase::Preparing { shown }, RestoreEvent::Prepared(views)) => d == c
            && if views@.len() > 0 {
            s.phase == (RestorePhase::Viewing { shown }) && a == RestoreAction::Launch(views)
        } else {
            s.phase == RestorePhase::Over && tells(a, "Could not prepare removed images."@)
        },
        (RestorePhase::Viewing { shown }, RestoreEvent::Viewed(started)) => d == c && if started {
            s.phase == (RestorePhase::Noting { shown }) && a == RestoreAction::ReadNotes
        } else {
            s.phase == RestorePhase::Over && tells(a, "Failed to launch imv."@)
        },
        (RestorePhase::Noting { shown }, RestoreEvent::Noted(text)) => {
            &&& d == c
            &&& s.phase == (RestorePhase::Restoring { shown })
            &&& a is Restore
            &&& strs(a->Restore_0@) == paths_in(r.removed@, noted_stems(opt_string(text)))
        },
        (
            RestorePhase::Restoring { shown },
            RestoreEvent::Restored { items, restored, removed },
        ) => {
            &&& got_back(c, items@, restored as nat, (Cluster { removed: c.removed, ..d }))
            &&& d.removed == removed
            &&& s.phase == RestorePhase::Over
            &&& tells(a, restored_text(restored as nat, shown as nat))
        },
        _ => false,
    }
}

impl Restore {
    /// A look at the removed files `removed` that has not begun.
    pub fn new(removed: Vec<FileItem>) -> (r: Restore)
        ensures
            r == (Restore { removed, phase: RestorePhase::Start }),
    {
        Restore { removed, phase: RestorePhase::Start }
    }

    /// Whether `e` can be how the last step went.
    pub fn accepts(&self, e: &RestoreEvent) -> (b: bool)
        ensures
            b == restore_answers(self.phase, *e),
    {
        match (self.phase, e) {
            (RestorePhase::Start, RestoreEvent::Begin) => true,
            (RestorePhase::Preparing { .. }, RestoreEvent::Prepared(_)) => true,
            (RestorePhase::Viewing { .. }, RestoreEvent::Viewed(_)) => true,
            (RestorePhase::Noting { .. }, RestoreEvent::Noted(_)) => true,
            (
                RestorePhase::Restoring { .. },
                RestoreEvent::Restored { items, restored, .. },
            ) => items.len() <= *restored,
            _ => false,
        }
    }

    /// Takes note of how the last step of the look at the removed shots of `c` went, and says
    /// what to do next.
    pub fn view_removed(&mut self, c: &mut Cluster, e: RestoreEvent) -> (a: RestoreAction)
        requires
            restore_answers(old(self).phase, e),
        ensures
            restore_step(*old(self), *old(c), e, *final(self), *final(c), a),
    {
        match (self.phase, e) {
            (RestorePhase::Start, RestoreEvent::Begin) => match removed_sources(&self.removed) {
                Ok(v) => {
                    assert(strs(v@).len() == v@.len());
                    self.phase = RestorePhase::Preparing { shown: v.len() };
                    RestoreAction::Prepare(v)
                },
                Err(t) => {
                    self.phase = RestorePhase::Over;
                    RestoreAction::Say(t)
                },
            },
            (RestorePhase::Preparing { shown }, RestoreEvent::Prepared(views)) => {
                if views.len() > 0 {
                    self.phase = RestorePhase::Viewing { shown };
                    RestoreAction::Launch(views)
                } else {
                    self.phase = RestorePhase::Over;
                    RestoreAction::Say(copy_of("Could not prepare removed images."))
                }
            },
            (RestorePhase::Viewing { shown }, RestoreEvent::Viewed(started)) => {
                if started {
                    self.phase = RestorePhase::Noting { shown };
                    RestoreAction::ReadNotes
                } else {
                    self.phase = RestorePhase::Over;
                    RestoreAction::Say(copy_of("Failed to launch imv."))
                }
            },
            (RestorePhase::Noting { shown }, RestoreEvent::Noted(text)) => {
                let wanted = match &text {
                    Some(t) => read_stems(Some(t.as_str())),
                    None => read_stems(None),
                };
                self.phase = RestorePhase::Restoring { shown };
                RestoreAction::Restore(files_of(&self.removed, &wanted))
            },
            (
                RestorePhase::Restoring { shown },
                RestoreEvent::Restored { items, restored, removed },
            ) => {
                apply_restore(c, items, restored);
                let t = conclude_restore(c, restored, shown, removed);
                self.phase = RestorePhase::Over;
                RestoreAction::Say(t)
            },
            _ => RestoreAction::ReadNotes,
        }
    }
}

/// However a step of a review goes, what is to be done next can be answered, and only the end
/// cannot.
pub proof fn lemma_review_goes_on(
    r: Review,
    c: Cluster,
    e: ReviewEvent,
    s: Review,
    d: Cluster,
    a: ReviewAction,
    next: ReviewEvent,
)
    requires
        review_answers(r.phase, e),
        review_step(r, c, e, s, d, a),
    ensures
        review_answers(s.phase, next) == match a {
            ReviewAction::Prepare(_) => next is Prepared,
            ReviewAction::Launch(_) => next is Viewed,
            ReviewAction::ReadNotes => next is Noted,
            ReviewAction::Apply { .. } => next is Applied,
            ReviewAction::Say(_) => false,
        },
{
}

/// Until the notes of the viewer are read, a review changes nothing, and no file is put away.
pub proof fn lemma_review_needs_notes(
    r: Review,
    c: Cluster,
    e: ReviewEvent,
    s: Review,
    d: Cluster,
    a: ReviewAction,
)
    requires
        review_answers(r.phase, e),
        review_step(r, c, e, s, d, a),
    ensures
        !(e is Noted) && !(e is Applied) ==> d == c,
        a is Apply ==> e is Noted,
{
}

/// However a step of a look at removed shots goes, what is to be done next can be answered, and
/// only the end cannot; of the files that came back at most all can be read.
pub proof fn lemma_restore_goes_on(
    r: Restore,
    c: Cluster,
    e: RestoreEvent,
    s: Restore,
    d: Cluster,
    a: RestoreAction,
    next: RestoreEvent,
)
    requires
        restore_answers(r.phase, e),
        restore_step(r, c, e, s, d, a),
    ensures
        restore_answers(s.phase, next) == match a {
            RestoreAction::Prepare(_) => next is Prepared,
            RestoreAction::Launch(_) => next is Viewed,
            RestoreAction::ReadNotes => next is Noted,
            RestoreAction::Restore(_) => next is Restored && next->items@.len() <= next->restored,
            RestoreAction::Say(_) => false,
        },
{
}

/// What to do next when removed shots go to the trash.
#[derive(Debug)]
pub enum TrashAction {
    /// See whether there is something at this place.
    Probe(String),
    /// Run gio, which sends a folder to the trash of the system.
    Trash(Vec<String>),
    /// It is over; tell this.
    Say(String),
}

/// How the last step went.
#[derive(Debug)]
pub enum TrashEvent {
    /// There is no last step yet.
    Begin,
    /// Whether there is something at the place.
    Found(bool),
    /// Whether gio could be run and succeeded.
    Ran(bool),
}

/// Where the trashing of removed shots stands.
#[derive(Clone, Copy, PartialEq, Eq, Structural, Debug)]
pub enum TrashPhase {
    Start,
    Seeking,
    Trashing,
    Over,
}

/// The trashing of the removed shots of an occasion.
#[derive(Debug)]
pub struct Trash {
    pub phase: TrashPhase,
}

/// Whether `e` can be how the last step of the trashing of removed shots went.
pub open spec fn trash_answers(p: TrashPhase, e: TrashEvent) -> bool {
    match p {
        TrashPhase::Start => e is Begin,
        TrashPhase::Seeking => e is Found,
        TrashPhase::Trashing => e is Ran,
        TrashPhase::Over => false,
    }
}

/// Whether `a` ends the trashing of removed shots with the text `t`.
pub open spec fn ends(a: TrashAction, t: Seq<char>) -> bool {
    a is Say && a->Say_0@ == t
}

/// The state, the occasion and the action that follow when the removed shots of `c` go to the
/// trash. Where that fails they stay where they are.
pub open spec fn trash_step(
    r: Trash,
    c: Cluster,
    e: TrashEvent,
    s: Trash,
    d: Cluster,
    a: TrashAction,
) -> bool {
    let dir = joined(c.dir@, ".removed"@);
    match (r.phase, e) {
        (TrashPhase::Start, TrashEvent::Begin) => {
            &&& d == c
            &&& s.phase == TrashPhase::Seeking
            &&& a is Probe
            &&& a->Probe_0@ == dir
        },
        (TrashPhase::Seeking, TrashEvent::Found(there)) => d == c && if there {
            &&& s.phase == TrashPhase::Trashing
            &&& a is Trash
            &&& strs(a->Trash_0@) == seq!["trash"@, dir]
        } else {
            s.phase == TrashPhase::Over && ends(a, "Nothing removed for this occasion."@)
        },
        (TrashPhase::Trashing, TrashEvent::Ran(worked)) => s.phase == TrashPhase::Over
            && if worked {
            &&& d == (Cluster { removed: 0, ..c })
            &&& ends(
                a,
                "Trashed .removed ("@ + dec(c.removed as nat) + " shots) to system trash."@,
            )
        } else {
            d == c && ends(a, "Failed to trash .removed."@)
        },
        _ => false,
    }
}

impl Trash {
    /// The trashing of removed shots that has not begun.
    pub fn new() -> (r: Trash)
        ensures
            r == (Trash { phase: TrashPhase::Start }),
    {
        Trash { phase: TrashPhase::Start }
    }

    /// Whether `e` can be how the last step went.
    pub fn accepts(&self, e: &TrashEvent) -> (b: bool)
        ensures
            b == trash_answers(self.phase, *e),
    {
        match (self.phase, e) {
            (TrashPhase::Start, TrashEvent::Begin) => true,
            (TrashPhase::Seeking, TrashEvent::Found(_)) => true,
            (TrashPhase::Trashing, TrashEvent::Ran(_)) => true,
            _ => false,
        }
    }

    /// Takes note of how the last step went, and says what to do next.
    pub fn trash_removed(&mut self, c: &mut Cluster, e: TrashEvent) -> (a: TrashAction)
        requires
            trash_answers(old(self).phase, e),
        ensures
            trash_step(*old(self), *old(c), e, *final(self), *final(c), a),
    {
        match (self.phase, e) {
            (TrashPhase::Start, _) => {
                self.phase = TrashPhase::Seeking;
                TrashAction::Probe(removed_folder(c.dir.as_str()))
            },
            (TrashPhase::Seeking, TrashEvent::Found(there)) => {
                if !there {
                    self.phase = TrashPhase::Over;
                    return TrashAction::Say(copy_of("Nothing removed for this occasion."));
                }
                self.phase = TrashPhase::Trashing;
                let mut args: Vec<String> = Vec::new();
                push_copy(&mut args, "trash");
                push_copy(&mut args, removed_folder(c.dir.as_str()).as_str());
                assert(strs(args@) == seq!["trash"@, joined(c.dir@, ".removed"@)]);
                TrashAction::Trash(args)
            },
            (_, TrashEvent::Ran(true)) => {
                self.phase = TrashPhase::Over;
                let mut t = copy_of("Trashed .removed (");
                t.append(decimal(c.removed as u64).as_str());
                t.append(" shots) to system trash.");
                c.removed = 0;
                TrashAction::Say(t)
            },
            _ => {
                self.phase = TrashPhase::Over;
                TrashAction::Say(copy_of("Failed to trash .removed."))
            },
        }
    }
}

/// Removed shots only count as gone once they are in the trash of the system: until then, and
/// where that fails, the occasion stays as it is.
pub proof fn lemma_trash_recoverable(
    r: Trash,
    c: Cluster,
    e: TrashEvent,
    s: Trash,
    d: Cluster,
    a: TrashAction,
)
    requires
        trash_answers(r.phase, e),
        trash_step(r, c, e, s, d, a),
    ensures
        e != TrashEvent::Ran(true) ==> d == c,
        e == TrashEvent::Ran(false) ==> ends(a, "Failed to trash .removed."@),
{
}

/// However a step goes, what is to be done next can be answered, and only the end cannot.
pub proof fn lemma_trash_goes_on(
    r: Trash,
    c: Cluster,
    e: TrashEvent,
    s: Trash,
    d: Cluster,
    a: TrashAction,
    next: TrashEvent,
)
    requires
        trash_answers(r.phase, e),
        trash_step(r, c, e, s, d, a),
    ensures
        trash_answers(s.phase, next) == match a {
            TrashAction::Probe(_) => next is Found,
            TrashAction::Trash(_) => next is Ran,
            TrashAction::Say(_) => false,
        },
{
}

proof fn lemma_parted(files: Seq<FileItem>, gone: Set<Seq<char>>)
    ensures
        paths_in(files, gone).to_multiset().add(paths_of(files.filter(spared(gone))).to_multiset())
            == paths_of(files).to_multiset(),
    decreases files.len(),
{
    broadcast use vstd::seq_lib::group_to_multiset_ensures;

    reveal(Seq::filter);
    let cull = |f: FileItem| gone.contains(shot(f));
    let path = |f: FileItem| f.path@;
    if files.len() == 0 {
        assert(paths_in(files, gone) == Seq::<Seq<char>>::empty());
        assert(paths_of(files.filter(spared(gone))) == Seq::<Seq<char>>::empty());
        assert(paths_of(files) == Seq::<Seq<char>>::empty());
        assert(paths_of(files).to_multiset().add(paths_of(files).to_multiset())
            =~= paths_of(files).to_multiset());
    } else {
        let front = files.drop_last();
        let f = files.last();
        lemma_parted(front, gone);
        lemma_filter_push(front, f, cull);
        lemma_filter_push(front, f, spared(gone));
        assert(front.push(f) == files);
        let a = front.filter(cull);
        let b = front.filter(spared(gone));
        assert(paths_of(files) == paths_of(front).push(f.path@));
        if gone.contains(shot(f)) {
            assert(a.push(f).map_values(path) == a.map_values(path).push(f.path@));
        } else {
            assert(paths_of(b.push(f)) == paths_of(b).push(f.path@));
        }
        assert(paths_in(files, gone).to_multiset().add(
            paths_of(files.filter(spared(gone))).to_multiset(),
        ) =~= paths_of(files).to_multiset());
    }
}

proof fn lemma_stems_finite(ls: Seq<Seq<char>>)
    ensures
        stem_set(ls).finite(),
    decreases ls.len(),
{
    if ls.len() > 0 {
        lemma_stems_finite(ls.drop_last());
    }
}

/// Whether `p` is a photo of the occasion `c`, and `x` the rating of its shot, 0 where that has
/// none.
pub open spec fn is_rating_of(c: Cluster, p: Seq<char>, x: u8) -> bool {
    exists|i: int|
        {
            &&& 0 <= i < c.files@.len()
            &&& #[trigger] is_photo_ext(c.files@[i].ext@)
            &&& c.files@[i].path@ == p
            &&& x == rating(c.ratings@, stem(p))
        }
}

/// What becomes of the notes of a review: the files that are taken away and those that stay are
/// together the files of the occasion, each once. A photo of a shot that was rated, and that
/// stays, gets the rating that the shot now has, 0 where it has none, into its sidecar, and no
/// other file gets one. The views of the culled shots go out of date. What is told counts the
/// shots that were noted to be culled, and of the others those that were rated.
pub proof fn lemma_notes_applied(
    r: Review,
    c: Cluster,
    e: ReviewEvent,
    s: Review,
    d: Cluster,
    a: ReviewAction,
)
    requires
        review_step(r, c, e, s, d, a),
        r.phase == ReviewPhase::Noting,
        e is Noted,
    ensures
        strs(a->cull@).to_multiset().add(paths_of(d.files@).to_multiset()) == paths_of(
            c.files@,
        ).to_multiset(),
        forall|k: int|
            0 <= k < a->sidecars@.len() ==> is_rating_of(
                d,
                (#[trigger] a->sidecars@[k]).0@,
                a->sidecars@[k].1,
            ),
        forall|i: int|
            0 <= i < d.files@.len() && is_photo_ext((#[trigger] d.files@[i]).ext@) && noted_rates(
                opt_string(e->rates),
            ).contains_key(stem(d.files@[i].path@)) ==> writes(a->sidecars@).contains(
                (d.files@[i].path@, rating(d.ratings@, stem(d.files@[i].path@))),
            ),
        s.phase is Applying,
        s.phase->culled == noted_stems(opt_string(e->cull)).len(),
        s.phase->rated == noted_rates(opt_string(e->rates)).dom().difference(
            noted_stems(opt_string(e->cull)),
        ).len(),
        a->stale@.len() == noted_stems(opt_string(e->cull)).len(),
        forall|x: Seq<char>| #[trigger]
            noted_stems(opt_string(e->cull)).contains(x) ==> strs(a->stale@).contains(
                joined(r.cache@, x + ".jpg"@),
            ),
{
    let gone = noted_stems(opt_string(e->cull));
    let given = noted_rates(opt_string(e->rates));
    let kept = counting(given, gone);
    match opt_string(e->cull) {
        Some(t) => lemma_stems_finite(lines(t)),
        None => {},
    }
    lemma_order_of(gone);
    let ks = in_order(gone);
    assert forall|x: Seq<char>| #[trigger] gone.contains(x) implies strs(a->stale@).contains(
        joined(r.cache@, x + ".jpg"@),
    ) by {
        assert(ks.to_set().contains(x));
        let k = choose|k: int| 0 <= k < ks.len() && ks[k] == x;
        assert(strs(a->stale@)[k] == joined(r.cache@, x + ".jpg"@));
    }
    assert(strs(a->stale@).len() == a->stale@.len());
    assert(kept.dom() =~= given.dom().difference(gone));
    lemma_parted(c.files@, gone);
    if gone.len() == 0 {
        assert(gone =~= Set::<Seq<char>>::empty());
        lemma_all_spared(c.files@, gone);
    }
    assert(paths_of(d.files@) == paths_of(c.files@.filter(spared(gone))));
    let w = writes(a->sidecars@);
    lemma_spared(c.files@, gone);
    assert forall|i: int| 0 <= i < d.files@.len() && kept.contains_key(
        stem((#[trigger] d.files@[i]).path@),
    ) implies kept[stem(d.files@[i].path@)] == rating(d.ratings@, stem(d.files@[i].path@)) by {
        let f = d.files@[i];
        let l = d.files@.map_values(|f: FileItem| shot(f));
        assert(l[i] == shot(f));
        assert(shots(d.files@).contains(shot(f)));
    }
    assert forall|k: int| 0 <= k < a->sidecars@.len() implies is_rating_of(
        d,
        (#[trigger] a->sidecars@[k]).0@,
        a->sidecars@[k].1,
    ) by {
        assert(w[k] == (a->sidecars@[k].0@, a->sidecars@[k].1));
        let i = lemma_written_from(d.files@, kept, k);
        assert(is_photo_ext(d.files@[i].ext@));
    }
    assert forall|i: int|
        0 <= i < d.files@.len() && is_photo_ext((#[trigger] d.files@[i]).ext@)
            && given.contains_key(stem(d.files@[i].path@)) implies w.contains(
        (d.files@[i].path@, rating(d.ratings@, stem(d.files@[i].path@))),
    ) by {
        let f = d.files@[i];
        assert(d.files@.contains(f));
        assert(!gone.contains(shot(f)));
        assert(kept.contains_key(shot(f)));
        lemma_written(d.files@, kept, i);
    }
}

proof fn lemma_all_spared(files: Seq<FileItem>, gone: Set<Seq<char>>)
    requires
        gone =~= Set::<Seq<char>>::empty(),
    ensures
        files.filter(spared(gone)) == files,
    decreases files.len(),
{
    reveal(Seq::filter);
    if files.len() > 0 {
        lemma_all_spared(files.drop_last(), gone);
        assert(files.drop_last().push(files.last()) == files);
    }
}

proof fn lemma_written_from(files: Seq<FileItem>, rates: Map<Seq<char>, u8>, k: int) -> (i: int)
    requires
        0 <= k < sidecar_writes(files, rates).len(),
    ensures
        0 <= i < files.len(),
        is_photo_ext(files[i].ext@),
        rates.contains_key(stem(files[i].path@)),
        sidecar_writes(files, rates)[k] == (files[i].path@, rates[stem(files[i].path@)]),
    decreases files.len(),
{
    let front = files.drop_last();
    if k < sidecar_writes(front, rates).len() {
        let i = lemma_written_from(front, rates, k);
        assert(front[i] == files[i]);
        i
    } else {
        files.len() - 1
    }
}

proof fn lemma_written(files: Seq<FileItem>, rates: Map<Seq<char>, u8>, i: int)
    requires
        0 <= i < files.len(),
        is_photo_ext(files[i].ext@),
        rates.contains_key(stem(files[i].path@)),
    ensures
        sidecar_writes(files, rates).contains((files[i].path@, rates[stem(files[i].path@)])),
    decreases files.len(),
{
    let front = files.drop_last();
    let x = (files[i].path@, rates[stem(files[i].path@)]);
    let w = sidecar_writes(files, rates);
    let b = sidecar_writes(front, rates);
    if i < front.len() {
        assert(front[i] == files[i]);
        lemma_written(front, rates, i);
        let k = choose|k: int| 0 <= k < b.len() && b[k] == x;
        assert(w[k] == x);
    } else {
        assert(w[b.len() as int] == x);
    }
}

/// What a review shows are photos of the occasion, one for each shot that has any; with only the
/// rated ones wanted, just of the shots that reach the bar, each once.
pub proof fn lemma_reviews_what_is_wanted(r: Review, c: Cluster, k: int)
    requires
        0 <= k < to_review(r, c).len(),
    ensures
        exists|i: int|
            {
                &&& 0 <= i < c.files@.len()
                &&& (#[trigger] c.files@[i]).path@ == to_review(r, c)[k]
                &&& is_photo_ext(c.files@[i].ext@)
                &&& r.only_rated ==> r.min == 0 || (c.ratings@.contains_key(
                    stem(c.files@[i].path@),
                ) && c.ratings@[stem(c.files@[i].path@)] >= r.min)
            },
{
    let min: u8 = if r.only_rated {
        r.min
    } else {
        0
    };
    let l = c.files@.filter(rated(c.ratings@, min));
    lemma_views_in_order(l);
    let ks = in_order(photo_shots(l));
    let s = ks[k];
    assert(ks.to_set().contains(s));
    lemma_viewable(l, s);
    let j = choose|j: int|
        {
            &&& 0 <= j < l.len()
            &&& (#[trigger] l[j]).path@ == viewable(l, s)->0
            &&& shot(l[j]) == s
            &&& photo(l[j])
        };
    assert(l.contains(l[j]));
    lemma_picked(c.files@, c.ratings@, min, l[j], s);
    let i = choose|i: int| 0 <= i < c.files@.len() && c.files@[i] == l[j];
    assert(c.files@[i].path@ == to_review(r, c)[k]);
}

/// Every shot of the occasion that has a photo is shown, and with only the rated ones wanted
/// every one that reaches the bar.
pub proof fn lemma_reviews_all_wanted(r: Review, c: Cluster, i: int)
    requires
        0 <= i < c.files@.len(),
        is_photo_ext(c.files@[i].ext@),
        r.only_rated ==> r.min == 0 || (c.ratings@.contains_key(stem(c.files@[i].path@))
            && c.ratings@[stem(c.files@[i].path@)] >= r.min),
    ensures
        exists|k: int|
            0 <= k < to_review(r, c).len() && stem(#[trigger] to_review(r, c)[k]) == stem(
                c.files@[i].path@,
            ),
{
    let min: u8 = if r.only_rated {
        r.min
    } else {
        0
    };
    let f = c.files@[i];
    let s = stem(f.path@);
    let l = c.files@.filter(rated(c.ratings@, min));
    lemma_picked(c.files@, c.ratings@, min, f, s);
    assert(c.files@.contains(f));
    let j = choose|j: int| 0 <= j < l.len() && l[j] == f;
    lemma_shot_with_photo(l, s);
    assert(stem(l[j].path@) == s);
    assert(photo_shots(l).contains(s));
    lemma_views_in_order(l);
    let ks = in_order(photo_shots(l));
    assert(ks.to_set().contains(s));
    let k = choose|k: int| 0 <= k < ks.len() && ks[k] == s;
    lemma_viewable(l, s);
    assert(stem(to_review(r, c)[k]) == s);
}

/// What is restored are the files of the removed shots that were noted, all of them and no
/// others.
pub proof fn lemma_restores_noted(
    r: Restore,
    c: Cluster,
    e: RestoreEvent,
    s: Restore,
    d: Cluster,
    a: RestoreAction,
    p: Seq<char>,
)
    requires
        restore_step(r, c, e, s, d, a),
        r.phase is Noting,
        e is Noted,
    ensures
        a is Restore,
        strs(a->Restore_0@).contains(p) <==> exists|i: int|
            {
                &&& 0 <= i < r.removed@.len()
                &&& (#[trigger] r.removed@[i]).path@ == p
                &&& noted_stems(opt_string(e->Noted_0)).contains(stem(p))
            },
{
    let gone = noted_stems(opt_string(e->Noted_0));
    let keep = |f: FileItem| gone.contains(shot(f));
    let all = r.removed@;
    let l = all.filter(keep);
    let out = paths_in(all, gone);
    if out.contains(p) {
        let k = choose|k: int| 0 <= k < out.len() && out[k] == p;
        assert(l.contains(l[k]));
        all.lemma_filter_contains_rev(keep, l[k]);
        all.lemma_filter_pred(keep, k);
        let i = choose|i: int| 0 <= i < all.len() && all[i] == l[k];
        assert(all[i].path@ == p);
    }
    if exists|i: int|
        {
            &&& 0 <= i < all.len()
            &&& (#[trigger] all[i]).path@ == p
            &&& gone.contains(stem(p))
        } {
        let i = choose|i: int|
            {
                &&& 0 <= i < all.len()
                &&& (#[trigger] all[i]).path@ == p
                &&& gone.contains(stem(p))
            };
        all.lemma_filter_contains(keep, i);
        let k = choose|k: int| 0 <= k < l.len() && l[k] == all[i];
        assert(out[k] == p);
    }
}

/// What can be shown is shown, all of it, once the viewer is ready for it; and when the changes
/// of a review were made, the occasion is as it was but for the number of removed shots, which
/// is the one that was counted.
pub proof fn lemma_review_steps(
    r: Review,
    c: Cluster,
    e: ReviewEvent,
    s: Review,
    d: Cluster,
    a: ReviewAction,
)
    requires
        review_answers(r.phase, e),
        review_step(r, c, e, s, d, a),
    ensures
        match e {
            ReviewEvent::Begin => a is Say <==> to_review(r, c).len() == 0,
            ReviewEvent::Prepared(views) => (a is Say <==> views@.len() == 0) && (a is Launch
                ==> a->Launch_0 == views),
            ReviewEvent::Viewed(started) => a is ReadNotes <==> started,
            ReviewEvent::Noted { .. } => a is Apply,
            ReviewEvent::Applied { removed, .. } => a is Say && d.removed == removed && (Cluster {
                removed: c.removed,
                ..d
            }) == c,
        },
        s.only_rated == r.only_rated,
        s.min == r.min,
        s.cache == r.cache,
{
}

/// A look at removed shots shows all that can be shown; what comes back from it leaves the
/// number of removed shots that was counted.
pub proof fn lemma_restore_steps(
    r: Restore,
    c: Cluster,
    e: RestoreEvent,
    s: Restore,
    d: Cluster,
    a: RestoreAction,
)
    requires
        restore_answers(r.phase, e),
        restore_step(r, c, e, s, d, a),
    ensures
        match e {
            RestoreEvent::Begin => d == c && (a is Say <==> photo_shots(r.removed@).len() == 0) && (
            a is Prepare ==> strs(a->Prepare_0@) == viewables(r.removed@)),
            RestoreEvent::Prepared(views) => d == c && (a is Say <==> views@.len() == 0) && (
            a is Launch ==> a->Launch_0 == views),
            RestoreEvent::Viewed(started) => d == c && (a is ReadNotes <==> started),
            RestoreEvent::Noted(_) => d == c && a is Restore,
            RestoreEvent::Restored { items, restored, removed } => a is Say && d.removed == removed
                && (restored == 0 ==> (Cluster { removed: c.removed, ..d }) == c) && (restored > 0
                ==> d.files@.to_multiset() == c.files@.to_multiset().add(items@.to_multiset())),
        },
        s.removed == r.removed,
{
    match e {
        RestoreEvent::Begin => {
            lemma_one_view_per_shot(r.removed@);
        },
        RestoreEvent::Restored { items, restored, removed } => {
            if restored > 0 {
                lemma_got_back(c, items@, restored as nat, (Cluster { removed: c.removed, ..d }));
            }
        },
        _ => {},
    }
}

/// The folder of removed shots of the occasion, and nothing else, goes to the trash, and only
/// where it is there; then the occasion has no removed shots any more, and is else what it was.
pub proof fn lemma_trash_steps(
    r: Trash,
    c: Cluster,
    e: TrashEvent,
    s: Trash,
    d: Cluster,
    a: TrashAction,
)
    requires
        trash_answers(r.phase, e),
        trash_step(r, c, e, s, d, a),
    ensures
        a is Trash <==> e == TrashEvent::Found(true),
        a is Trash ==> strs(a->Trash_0@).last() == joined(c.dir@, ".removed"@)
            && strs(a->Trash_0@).len() == 2,
        a is Probe ==> a->Probe_0@ == joined(c.dir@, ".removed"@),
        e == TrashEvent::Ran(true) ==> d.removed == 0 && (Cluster { removed: c.removed, ..d }) == c,
{
}

} // verus!
