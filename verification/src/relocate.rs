//! Taking a file from one place to another, step by step: what to do next, given how the last
//! step went.
use crate::number::dec;
use crate::paths::{
    destination, file_name, file_name_of, is_name, is_tidy, join_path, joined, lemma_joined,
    lemma_numbered, numbered, parent, parent_of, sidecar, sidecar_path,
};
use crate::text::copy_of;
use vstd::prelude::*;

verus! {

/// What to do next.
#[derive(Debug)]
pub enum Move {
    /// Make this folder and those above it.
    MakeDir(String),
    /// See whether there is something at this place.
    Probe(String),
    /// Rename a sidecar; whether that works makes no difference.
    Sidecar { from: String, to: String },
    /// Rename a file.
    Rename { from: String, to: String },
    /// Copy a file.
    Copy { from: String, to: String },
    /// Remove a file.
    Remove(String),
    /// The file is at this place.
    Done(String),
    /// It failed, and why.
    Failed(String),
}

/// How the last step went.
#[derive(Debug)]
pub enum Outcome {
    /// There is no last step yet.
    Begin,
    /// It worked.
    Worked,
    /// It did not work, and why.
    Broke(String),
    /// Whether there is something at the place.
    Found(bool),
}

/// What there is to do next.
pub enum Mv {
    MakeDir(Seq<char>),
    Probe(Seq<char>),
    Sidecar { from: Seq<char>, to: Seq<char> },
    Rename { from: Seq<char>, to: Seq<char> },
    Copy { from: Seq<char>, to: Seq<char> },
    Remove(Seq<char>),
    Done(Seq<char>),
    Failed(Seq<char>),
}

/// How the last step went.
pub enum Oc {
    Begin,
    Worked,
    Broke(Seq<char>),
    Found(bool),
}

impl View for Move {
    type V = Mv;

    open spec fn view(&self) -> Mv {
        match *self {
            Move::MakeDir(d) => Mv::MakeDir(d@),
            Move::Probe(p) => Mv::Probe(p@),
            Move::Sidecar { from, to } => Mv::Sidecar { from: from@, to: to@ },
            Move::Rename { from, to } => Mv::Rename { from: from@, to: to@ },
            Move::Copy { from, to } => Mv::Copy { from: from@, to: to@ },
            Move::Remove(p) => Mv::Remove(p@),
            Move::Done(p) => Mv::Done(p@),
            Move::Failed(e) => Mv::Failed(e@),
        }
    }
}

impl View for Outcome {
    type V = Oc;

    open spec fn view(&self) -> Oc {
        match *self {
            Outcome::Begin => Oc::Begin,
            Outcome::Worked => Oc::Worked,
            Outcome::Broke(e) => Oc::Broke(e@),
            Outcome::Found(b) => Oc::Found(b),
        }
    }
}

/// Where the carrying of a file stands.
#[derive(Clone, Copy, PartialEq, Eq, Structural, Debug)]
pub enum CarryPhase {
    Start,
    Renaming,
    Copying,
    Removing,
    Over,
}

/// A file on its way to a free place.
#[derive(Debug)]
pub struct Carry {
    pub src: String,
    pub dst: String,
    /// Whether the file is moved, not copied.
    pub do_move: bool,
    pub phase: CarryPhase,
}

/// The way of a file.
pub struct Way {
    pub src: Seq<char>,
    pub dst: Seq<char>,
    pub do_move: bool,
    pub phase: CarryPhase,
}

impl View for Carry {
    type V = Way;

    open spec fn view(&self) -> Way {
        Way { src: self.src@, dst: self.dst@, do_move: self.do_move, phase: self.phase }
    }
}

/// Whether `o` can be how the last step of `w` went.
pub open spec fn carry_answers(w: Way, o: Oc) -> bool {
    match w.phase {
        CarryPhase::Start => o is Begin,
        CarryPhase::Over => false,
        _ => o is Worked || o is Broke,
    }
}

/// The way of a file after a step, and what to do next. A file that is moved is renamed; where
/// that does not work it is copied, and removed once it is copied.
pub open spec fn carry_step(w: Way, o: Oc) -> (Way, Mv) {
    let copying = (
        Way { phase: CarryPhase::Copying, ..w },
        Mv::Copy { from: w.src, to: w.dst },
    );
    let done = (Way { phase: CarryPhase::Over, ..w }, Mv::Done(w.dst));
    match (w.phase, o) {
        (CarryPhase::Start, _) => if w.do_move {
            (
                Way { phase: CarryPhase::Renaming, ..w },
                Mv::Rename { from: w.src, to: w.dst },
            )
        } else {
            copying
        },
        (CarryPhase::Renaming, Oc::Worked) => done,
        (CarryPhase::Renaming, _) => copying,
        (CarryPhase::Copying, Oc::Worked) => if w.do_move {
            (Way { phase: CarryPhase::Removing, ..w }, Mv::Remove(w.src))
        } else {
            done
        },
        (CarryPhase::Removing, Oc::Worked) => done,
        (_, Oc::Broke(e)) => (Way { phase: CarryPhase::Over, ..w }, Mv::Failed(e)),
        _ => (w, Mv::Done(w.dst)),
    }
}

impl Carry {
    /// A file that is to go from `src` to `dst`.
    pub fn new(src: String, dst: String, do_move: bool) -> (c: Carry)
        ensures
            c@ == (Way { src: src@, dst: dst@, do_move, phase: CarryPhase::Start }),
    {
        Carry { src, dst, do_move, phase: CarryPhase::Start }
    }

    /// Whether `o` can be how the last step went.
    pub fn accepts(&self, o: &Outcome) -> (r: bool)
        ensures
            r == carry_answers(self@, o@),
    {
        match (self.phase, o) {
            (CarryPhase::Start, Outcome::Begin) => true,
            (CarryPhase::Start, _) => false,
            (CarryPhase::Over, _) => false,
            (_, Outcome::Worked) => true,
            (_, Outcome::Broke(_)) => true,
            _ => false,
        }
    }

    fn copying(&mut self) -> (m: Move)
        ensures
            final(self)@ == (Way { phase: CarryPhase::Copying, ..old(self)@ }),
            m@ == (Mv::Copy { from: old(self)@.src, to: old(self)@.dst }),
    {
        self.phase = CarryPhase::Copying;
        Move::Copy { from: self.src.clone(), to: self.dst.clone() }
    }

    fn done(&mut self) -> (m: Move)
        ensures
            final(self)@ == (Way { phase: CarryPhase::Over, ..old(self)@ }),
            m@ == Mv::Done(old(self)@.dst),
    {
        self.phase = CarryPhase::Over;
        Move::Done(self.dst.clone())
    }

    /// Takes note of how the last step went, and says what to do next.
    pub fn step(&mut self, o: Outcome) -> (m: Move)
        requires
            carry_answers(old(self)@, o@),
        ensures
            (final(self)@, m@) == carry_step(old(self)@, o@),
    {
        match (self.phase, o) {
            (CarryPhase::Start, _) => {
                if self.do_move {
                    self.phase = CarryPhase::Renaming;
                    Move::Rename { from: self.src.clone(), to: self.dst.clone() }
                } else {
                    self.copying()
                }
            },
            (CarryPhase::Renaming, Outcome::Worked) => self.done(),
            (CarryPhase::Renaming, _) => self.copying(),
            (CarryPhase::Copying, Outcome::Worked) => {
                if self.do_move {
                    self.phase = CarryPhase::Removing;
                    Move::Remove(self.src.clone())
                } else {
                    self.done()
                }
            },
            (CarryPhase::Removing, Outcome::Worked) => self.done(),
            (_, Outcome::Broke(e)) => {
                self.phase = CarryPhase::Over;
                Move::Failed(e)
            },
            _ => Move::Done(self.dst.clone()),
        }
    }
}

/// Nothing but the file itself is ever removed, only where files are moved, and only after a
/// copy of it was made. Where files are copied, nothing is renamed either.
pub proof fn lemma_removed_only_when_copied(w: Way, o: Oc)
    requires
        carry_answers(w, o),
    ensures
        match carry_step(w, o).1 {
            Mv::Remove(p) => {
                &&& p == w.src
                &&& w.do_move
                &&& w.phase == CarryPhase::Copying
                &&& o is Worked
            },
            Mv::Rename { from, to } => w.do_move && from == w.src && to == w.dst,
            _ => true,
        },
{
}

/// Where the relocation of a file stands.
#[derive(Clone, Copy, PartialEq, Eq, Structural, Debug)]
pub enum RelocatePhase {
    Start,
    /// The folder is being made.
    Making,
    /// The sidecar of the file is being looked for.
    Seeking,
    /// A place is being looked for; `tries` places were taken, and `side` says whether the file
    /// has a sidecar.
    Probing { tries: u64, side: bool },
    /// The place for the sidecar beside a free place is being looked at.
    Checking { tries: u64 },
    /// The sidecar is being moved.
    Trailing { tries: u64 },
    /// The file is being carried to its place.
    Carrying { tries: u64, phase: CarryPhase },
}

/// A file that goes to another folder, and its sidecar with it.
#[derive(Debug)]
pub struct Relocation {
    pub path: String,
    /// The folder.
    pub dir: String,
    /// Whether the folder is made first.
    pub make: bool,
    pub phase: RelocatePhase,
}

/// The way of a file to another folder.
pub struct Route {
    pub path: Seq<char>,
    pub dir: Seq<char>,
    pub make: bool,
    pub phase: RelocatePhase,
}

impl View for Relocation {
    type V = Route;

    open spec fn view(&self) -> Route {
        Route { path: self.path@, dir: self.dir@, make: self.make, phase: self.phase }
    }
}

/// The place of the file after so many places were taken.
pub open spec fn spot(r: Route, tries: nat) -> Seq<char> {
    joined(r.dir, numbered(file_name_of(r.path)->0, tries))
}

/// Whether `o` can be how the last step of `r` went.
pub open spec fn route_answers(r: Route, o: Oc) -> bool {
    match r.phase {
        RelocatePhase::Start => o is Begin,
        RelocatePhase::Making => o is Worked || o is Broke,
        RelocatePhase::Seeking => o is Found,
        RelocatePhase::Probing { tries, .. } => match o {
            Oc::Found(taken) => taken ==> tries < u64::MAX,
            _ => false,
        },
        RelocatePhase::Checking { tries } => match o {
            Oc::Found(taken) => taken ==> tries < u64::MAX,
            _ => false,
        },
        RelocatePhase::Trailing { .. } => o is Worked || o is Broke,
        RelocatePhase::Carrying { phase, .. } => phase != CarryPhase::Start && phase
            != CarryPhase::Over && (o is Worked || o is Broke),
    }
}

/// The search for the sidecar of the file.
pub open spec fn seek_sidecar(r: Route) -> (Route, Mv) {
    (Route { phase: RelocatePhase::Seeking, ..r }, Mv::Probe(sidecar(r.path)))
}

/// The search for a place, once so many places were taken.
pub open spec fn seek_place(r: Route, tries: nat, side: bool) -> (Route, Mv) {
    (
        Route { phase: RelocatePhase::Probing { tries: tries as u64, side }, ..r },
        Mv::Probe(spot(r, tries)),
    )
}

/// The carrying of the file itself.
pub open spec fn carry_on(r: Route, tries: u64, phase: CarryPhase, o: Oc) -> (Route, Mv) {
    let w = Way { src: r.path, dst: spot(r, tries as nat), do_move: true, phase };
    let (v, m) = carry_step(w, o);
    (Route { phase: RelocatePhase::Carrying { tries, phase: v.phase }, ..r }, m)
}

/// The way of a file after a step, and what to do next. Where the file has no sidecar, it goes to
/// the first place that is free. Where it has one, the place beside that has to be free as well:
/// the sidecar goes there first, so it stays the sidecar of the file.
pub open spec fn route_step(r: Route, o: Oc) -> (Route, Mv) {
    match (r.phase, o) {
        (RelocatePhase::Start, _) => if r.make {
            (Route { phase: RelocatePhase::Making, ..r }, Mv::MakeDir(r.dir))
        } else {
            seek_sidecar(r)
        },
        (RelocatePhase::Making, Oc::Broke(e)) => (
            Route {
                phase: RelocatePhase::Carrying { tries: 0, phase: CarryPhase::Over },
                ..r
            },
            Mv::Failed(e),
        ),
        (RelocatePhase::Making, _) => seek_sidecar(r),
        (RelocatePhase::Seeking, Oc::Found(there)) => seek_place(r, 0, there),
        (RelocatePhase::Probing { tries, side }, Oc::Found(taken)) => if taken {
            seek_place(r, (tries + 1) as nat, side)
        } else if side {
            (
                Route { phase: RelocatePhase::Checking { tries }, ..r },
                Mv::Probe(sidecar(spot(r, tries as nat))),
            )
        } else {
            carry_on(r, tries, CarryPhase::Start, Oc::Begin)
        },
        (RelocatePhase::Checking { tries }, Oc::Found(taken)) => if taken {
            seek_place(r, (tries + 1) as nat, true)
        } else {
            (
                Route { phase: RelocatePhase::Trailing { tries }, ..r },
                Mv::Sidecar { from: sidecar(r.path), to: sidecar(spot(r, tries as nat)) },
            )
        },
        (RelocatePhase::Trailing { tries }, _) => carry_on(
            r,
            tries,
            CarryPhase::Start,
            Oc::Begin,
        ),
        (RelocatePhase::Carrying { tries, phase }, _) => carry_on(r, tries, phase, o),
        _ => (r, Mv::Failed(seq![])),
    }
}

/// Where a culled file goes: the `.removed` folder beside it.
pub open spec fn removed_dir(path: Seq<char>) -> Seq<char> {
    joined(
        match parent_of(path) {
            Some(d) => d,
            None => "."@,
        },
        ".removed"@,
    )
}

impl Relocation {
    /// A culled file that is to go to the `.removed` folder beside it.
    pub fn move_to_removed(path: String) -> (r: Relocation)
        ensures
            r@ == (Route {
                path: path@,
                dir: removed_dir(path@),
                make: true,
                phase: RelocatePhase::Start,
            }),
    {
        let dir = match parent(path.as_str()) {
            Some(d) => join_path(d.as_str(), ".removed"),
            None => join_path(".", ".removed"),
        };
        Relocation { path, dir, make: true, phase: RelocatePhase::Start }
    }

    /// A file that is to go back to the folder `occ`.
    pub fn restore_one(path: String, occ: &str) -> (r: Relocation)
        ensures
            r@ == (Route { path: path@, dir: occ@, make: false, phase: RelocatePhase::Start }),
    {
        Relocation { path, dir: copy_of(occ), make: false, phase: RelocatePhase::Start }
    }

    /// Whether the file has a name.
    pub fn has_name(&self) -> (r: bool)
        ensures
            r == (file_name_of(self@.path) is Some),
    {
        match file_name(self.path.as_str()) {
            Some(_) => true,
            None => false,
        }
    }

    /// Whether `o` can be how the last step went.
    pub fn accepts(&self, o: &Outcome) -> (r: bool)
        ensures
            r == route_answers(self@, o@),
    {
        match (self.phase, o) {
            (RelocatePhase::Start, Outcome::Begin) => true,
            (RelocatePhase::Making, Outcome::Worked) => true,
            (RelocatePhase::Making, Outcome::Broke(_)) => true,
            (RelocatePhase::Seeking, Outcome::Found(_)) => true,
            (RelocatePhase::Probing { tries, .. }, Outcome::Found(taken)) => !*taken || tries
                < u64::MAX,
            (RelocatePhase::Checking { tries }, Outcome::Found(taken)) => !*taken || tries
                < u64::MAX,
            (RelocatePhase::Trailing { .. }, Outcome::Worked) => true,
            (RelocatePhase::Trailing { .. }, Outcome::Broke(_)) => true,
            (RelocatePhase::Carrying { phase, .. }, Outcome::Worked) => phase != CarryPhase::Start
                && phase != CarryPhase::Over,
            (RelocatePhase::Carrying { phase, .. }, Outcome::Broke(_)) => phase != CarryPhase::Start
                && phase != CarryPhase::Over,
            _ => false,
        }
    }

    /// The place of the file after so many places were taken.
    fn spot(&self, tries: u64) -> (p: String)
        requires
            file_name_of(self@.path) is Some,
        ensures
            p@ == spot(self@, tries as nat),
    {
        let name = match file_name(self.path.as_str()) {
            Some(n) => n,
            None => String::new(),
        };
        destination(self.dir.as_str(), name.as_str(), tries)
    }

    fn seek_sidecar(&mut self) -> (m: Move)
        ensures
            (final(self)@, m@) == seek_sidecar(old(self)@),
    {
        self.phase = RelocatePhase::Seeking;
        Move::Probe(sidecar_path(self.path.as_str()))
    }

    fn seek_place(&mut self, tries: u64, side: bool) -> (m: Move)
        requires
            file_name_of(old(self)@.path) is Some,
        ensures
            (final(self)@, m@) == seek_place(old(self)@, tries as nat, side),
    {
        let p = self.spot(tries);
        self.phase = RelocatePhase::Probing { tries, side };
        Move::Probe(p)
    }

    fn carry_on(&mut self, tries: u64, phase: CarryPhase, o: Outcome) -> (m: Move)
        requires
            file_name_of(old(self)@.path) is Some,
            phase == CarryPhase::Start && o is Begin || phase != CarryPhase::Start && phase
                != CarryPhase::Over && (o is Worked || o is Broke),
        ensures
            (final(self)@, m@) == carry_on(old(self)@, tries, phase, o@),
    {
        let mut c = Carry {
            src: self.path.clone(),
            dst: self.spot(tries),
            do_move: true,
            phase,
        };
        let m = c.step(o);
        self.phase = RelocatePhase::Carrying { tries, phase: c.phase };
        m
    }

    /// Takes note of how the last step went, and says what to do next.
    pub fn step(&mut self, o: Outcome) -> (m: Move)
        requires
            file_name_of(old(self)@.path) is Some,
            route_answers(old(self)@, o@),
        ensures
            (final(self)@, m@) == route_step(old(self)@, o@),
            final(self)@.path == old(self)@.path,
    {
        match (self.phase, o) {
            (RelocatePhase::Start, _) => {
                if self.make {
                    self.phase = RelocatePhase::Making;
                    Move::MakeDir(self.dir.clone())
                } else {
                    self.seek_sidecar()
                }
            },
            (RelocatePhase::Making, Outcome::Broke(e)) => {
                self.phase = RelocatePhase::Carrying { tries: 0, phase: CarryPhase::Over };
                Move::Failed(e)
            },
            (RelocatePhase::Making, _) => self.seek_sidecar(),
            (RelocatePhase::Seeking, Outcome::Found(there)) => self.seek_place(0, there),
            (RelocatePhase::Probing { tries, side }, Outcome::Found(taken)) => {
                if taken {
                    self.seek_place(tries + 1, side)
                } else if side {
                    let beside = sidecar_path(self.spot(tries).as_str());
                    self.phase = RelocatePhase::Checking { tries };
                    Move::Probe(beside)
                } else {
                    self.carry_on(tries, CarryPhase::Start, Outcome::Begin)
                }
            },
            (RelocatePhase::Checking { tries }, Outcome::Found(taken)) => {
                if taken {
                    self.seek_place(tries + 1, true)
                } else {
                    let to = sidecar_path(self.spot(tries).as_str());
                    self.phase = RelocatePhase::Trailing { tries };
                    Move::Sidecar { from: sidecar_path(self.path.as_str()), to }
                }
            },
            (RelocatePhase::Trailing { tries }, _) => self.carry_on(
                tries,
                CarryPhase::Start,
                Outcome::Begin,
            ),
            (RelocatePhase::Carrying { tries, phase }, out) => self.carry_on(tries, phase, out),
            _ => {
                let e = String::new();
                assert(e@ == Seq::<char>::empty());
                Move::Failed(e)
            },
        }
    }
}

/// The file only ever goes to the place whose number the search ended with, its sidecar only
/// beside that place, and the file is only removed once it was copied there. The search only
/// ends with a place that was looked at and found free; where the file has a sidecar, the place
/// beside it was looked at next and found free as well.
pub proof fn lemma_route_is_safe(r: Route, o: Oc)
    requires
        route_answers(r, o),
    ensures
        match route_step(r, o).1 {
            Mv::Sidecar { from, to } => {
                &&& from == sidecar(r.path)
                &&& o == Oc::Found(false)
                &&& exists|n: u64|
                    to == sidecar(spot(r, n as nat)) && r.phase == (RelocatePhase::Checking {
                        tries: n,
                    }) && route_step(r, o).0.phase == (RelocatePhase::Trailing { tries: n })
            },
            Mv::Rename { from, to } => from == r.path && exists|n: u64| to == spot(r, n as nat)
                && (r.phase == (RelocatePhase::Trailing { tries: n }) || r.phase == (
            RelocatePhase::Probing { tries: n, side: false }) && o == Oc::Found(false)),
            Mv::Copy { from, to } => from == r.path && exists|n: u64| to == spot(r, n as nat)
                && r.phase == (RelocatePhase::Carrying { tries: n, phase: CarryPhase::Renaming }),
            Mv::Remove(p) => p == r.path && o is Worked && exists|n: u64|
                r.phase == (RelocatePhase::Carrying { tries: n, phase: CarryPhase::Copying }),
            _ => true,
        },
        match route_step(r, o).0.phase {
            RelocatePhase::Probing { tries, .. } => route_step(r, o).1 == Mv::Probe(
                spot(r, tries as nat),
            ),
            RelocatePhase::Checking { tries } => {
                &&& r.phase == (RelocatePhase::Probing { tries, side: true })
                &&& o == Oc::Found(false)
                &&& route_step(r, o).1 == Mv::Probe(sidecar(spot(r, tries as nat)))
            },
            _ => true,
        },
{
}

/// However a step goes, the way goes on: what is to be done next can be answered, and only the
/// end cannot. A place can be found taken so often as can be counted.
pub proof fn lemma_way_goes_on(r: Route, o: Oc, err: Seq<char>, taken: bool)
    requires
        route_answers(r, o),
    ensures
        ({
            let (s, m) = route_step(r, o);
            match m {
                Mv::Probe(_) => match s.phase {
                    RelocatePhase::Probing { tries, .. } => (taken ==> tries < u64::MAX)
                        ==> route_answers(s, Oc::Found(taken)),
                    RelocatePhase::Checking { tries } => (taken ==> tries < u64::MAX)
                        ==> route_answers(s, Oc::Found(taken)),
                    _ => route_answers(s, Oc::Found(taken)),
                },
                Mv::Done(_) => true,
                Mv::Failed(_) => true,
                _ => route_answers(s, Oc::Worked) && route_answers(s, Oc::Broke(err)),
            }
        }),
{
}

/// What is done with a file whose place is being looked at, where that place is free and every
/// step works.
pub open spec fn last_leg(r: Route) -> Seq<Mv> {
    let (a, next) = route_step(r, Oc::Found(false));
    if r.phase->side {
        let (b, trail) = route_step(a, Oc::Found(false));
        let (c, rename) = route_step(b, Oc::Worked);
        seq![next, trail, rename, route_step(c, Oc::Worked).1]
    } else {
        seq![next, route_step(a, Oc::Worked).1]
    }
}

/// However many places were taken, the sidecar of a file, where it has one, goes beside the file
/// and stays its sidecar.
pub proof fn lemma_last_leg(r: Route, n: u64, side: bool)
    requires
        r.phase == (RelocatePhase::Probing { tries: n, side }),
    ensures
        ({
            let put = spot(r, n as nat);
            last_leg(r) == (if side {
                seq![
                    Mv::Probe(sidecar(put)),
                    Mv::Sidecar { from: sidecar(r.path), to: sidecar(put) },
                ]
            } else {
                seq![]
            }) + seq![Mv::Rename { from: r.path, to: put }, Mv::Done(put)]
        }),
{
}

/// What is done with a file on its way where its own name is free and every step works; `side`
/// says whether the file has a sidecar.
pub open spec fn free_way(r: Route, side: bool) -> Seq<Mv> {
    let (a, first) = route_step(r, Oc::Begin);
    let (b, seek) = if r.make {
        route_step(a, Oc::Worked)
    } else {
        (a, first)
    };
    let (c, look) = route_step(b, Oc::Found(side));
    (if r.make {
        seq![first]
    } else {
        seq![]
    }) + seq![seek, look] + last_leg(c)
}

/// Where its own name is free and every step works, the file keeps its name in the other folder,
/// and its sidecar, where it has one, goes along and stays its sidecar.
pub proof fn lemma_free_way(from: Seq<char>, name: Seq<char>, dir: Seq<char>, make: bool, side: bool)
    requires
        is_name(name),
    ensures
        ({
            let path = joined(from, name);
            let put = joined(dir, name);
            let r = Route { path, dir, make, phase: RelocatePhase::Start };
            free_way(r, side) == (if make {
                seq![Mv::MakeDir(dir)]
            } else {
                seq![]
            }) + seq![Mv::Probe(sidecar(path)), Mv::Probe(put)] + (if side {
                seq![
                    Mv::Probe(sidecar(put)),
                    Mv::Sidecar { from: sidecar(path), to: sidecar(put) },
                ]
            } else {
                seq![]
            }) + seq![Mv::Rename { from: path, to: put }, Mv::Done(put)]
        }),
{
    lemma_joined(from, name);
    let r = Route {
        path: joined(from, name),
        dir,
        make,
        phase: RelocatePhase::Probing { tries: 0, side },
    };
    lemma_last_leg(r, 0, side);
}

/// The files there are, and what they hold.
pub type Disk = Map<Seq<char>, Seq<u8>>;

/// The files after `from` was renamed to `to`.
pub open spec fn renamed(disk: Disk, from: Seq<char>, to: Seq<char>) -> Disk {
    disk.remove(from).insert(to, disk[from])
}

/// The files after a step went as `o` says. A step that did not work changes nothing that counts:
/// a copy that did not work ends the way of the file, whatever it left behind.
pub open spec fn effect(disk: Disk, m: Option<Mv>, o: Oc) -> Disk {
    match (m, o) {
        (Some(Mv::Sidecar { from, to }), Oc::Worked) => renamed(disk, from, to),
        (Some(Mv::Rename { from, to }), Oc::Worked) => renamed(disk, from, to),
        (Some(Mv::Copy { from, to }), Oc::Worked) => disk.insert(to, disk[from]),
        (Some(Mv::Remove(p)), Oc::Worked) => disk.remove(p),
        _ => disk,
    }
}

/// A file on its way, what is being done with it, and the files there are.
pub struct Scene {
    pub r: Route,
    pub m: Option<Mv>,
    pub disk: Disk,
}

/// A file before it goes on its way.
pub open spec fn opening(r: Route, disk: Disk) -> Scene {
    Scene { r, m: None, disk }
}

/// Whether the step of `s` can go as `o` says: what is looked for is found just where it is.
pub open spec fn possible(s: Scene, o: Oc) -> bool {
    route_answers(s.r, o) && match s.m {
        Some(Mv::Probe(p)) => o == Oc::Found(s.disk.dom().contains(p)),
        _ => true,
    }
}

/// What follows when the step of `s` goes as `o` says.
pub open spec fn onward(s: Scene, o: Oc) -> Scene {
    let (r, m) = route_step(s.r, o);
    Scene { r, m: Some(m), disk: effect(s.disk, s.m, o) }
}

/// What follows when the steps go as `os` says, one after the other.
pub open spec fn played(s: Scene, os: Seq<Oc>) -> Scene
    decreases os.len(),
{
    if os.len() == 0 {
        s
    } else {
        onward(played(s, os.drop_last()), os.last())
    }
}

/// Whether the steps can go as `os` says.
pub open spec fn faithful(s: Scene, os: Seq<Oc>) -> bool
    decreases os.len(),
{
    os.len() > 0 ==> faithful(s, os.drop_last()) && possible(played(s, os.drop_last()), os.last())
}

/// Whether a sidecar was to be moved and could not be.
pub open spec fn sidecar_stayed(s: Scene, os: Seq<Oc>) -> bool
    decreases os.len(),
{
    os.len() > 0 && (sidecar_stayed(s, os.drop_last()) || match played(s, os.drop_last()).m {
        Some(Mv::Sidecar { .. }) => os.last() is Broke,
        _ => false,
    })
}

/// Whether the file has a sidecar.
pub open spec fn has_sidecar(disk: Disk, r: Route) -> bool {
    disk.dom().contains(sidecar(r.path))
}

/// Whether the file cannot go to the place `k`: there is something, or the file has a sidecar
/// and there is something beside that place.
pub open spec fn taken(disk: Disk, r: Route, k: nat) -> bool {
    disk.dom().contains(spot(r, k)) || has_sidecar(disk, r) && disk.dom().contains(
        sidecar(spot(r, k)),
    )
}

/// Whether `n` is the first place that the file can go to.
pub open spec fn first_free(disk: Disk, r: Route, n: nat) -> bool {
    !taken(disk, r, n) && forall|k: nat| k < n ==> #[trigger] taken(disk, r, k)
}

/// The files after the sidecar went beside the place `n`, where it was `moved`.
pub open spec fn trailed(disk: Disk, r: Route, n: nat, moved: bool) -> Disk {
    if moved {
        renamed(disk, sidecar(r.path), sidecar(spot(r, n)))
    } else {
        disk
    }
}

/// The files after the file went to the place `n`, and its sidecar beside it, where it was
/// `moved`.
pub open spec fn arrived(disk: Disk, r: Route, n: nat, moved: bool) -> Disk {
    renamed(trailed(disk, r, n, moved), r.path, spot(r, n))
}

/// What holds on the way of a file from `r` among the files `disk`; `stayed` says whether its
/// sidecar could not be moved.
spec fn on_its_way(disk: Disk, r: Route, s: Scene, stayed: bool) -> bool {
    &&& s.r == (Route { phase: s.r.phase, ..r })
    &&& match s.r.phase {
        RelocatePhase::Start => s.m is None && s.disk == disk && !stayed,
        RelocatePhase::Making => s.m is Some && s.m->0 is MakeDir && s.disk == disk && !stayed,
        RelocatePhase::Seeking => {
            &&& s.m == Some(Mv::Probe(sidecar(r.path)))
            &&& s.disk == disk
            &&& !stayed
        },
        RelocatePhase::Probing { tries, side } => {
            &&& s.m == Some(Mv::Probe(spot(r, tries as nat)))
            &&& s.disk == disk
            &&& !stayed
            &&& side == has_sidecar(disk, r)
            &&& forall|k: nat| k < tries ==> #[trigger] taken(disk, r, k)
        },
        RelocatePhase::Checking { tries } => {
            &&& s.m == Some(Mv::Probe(sidecar(spot(r, tries as nat))))
            &&& s.disk == disk
            &&& !stayed
            &&& has_sidecar(disk, r)
            &&& !disk.dom().contains(spot(r, tries as nat))
            &&& forall|k: nat| k < tries ==> #[trigger] taken(disk, r, k)
        },
        RelocatePhase::Trailing { tries } => {
            &&& s.m == Some(
                Mv::Sidecar { from: sidecar(r.path), to: sidecar(spot(r, tries as nat)) },
            )
            &&& s.disk == disk
            &&& !stayed
            &&& has_sidecar(disk, r)
            &&& first_free(disk, r, tries as nat)
        },
        RelocatePhase::Carrying { tries, phase } => {
            let put = spot(r, tries as nat);
            let base = trailed(disk, r, tries as nat, has_sidecar(disk, r) && !stayed);
            s.m is Some && (s.m->0 is Failed && phase == CarryPhase::Over || {
                &&& first_free(disk, r, tries as nat)
                &&& match phase {
                    CarryPhase::Start => false,
                    CarryPhase::Renaming => s.m == Some(Mv::Rename { from: r.path, to: put })
                        && s.disk == base,
                    CarryPhase::Copying => s.m == Some(Mv::Copy { from: r.path, to: put })
                        && s.disk == base,
                    CarryPhase::Removing => s.m == Some(Mv::Remove(r.path)) && s.disk
                        == base.insert(put, base[r.path]),
                    CarryPhase::Over => s.m == Some(Mv::Done(put)) && s.disk == renamed(
                        base,
                        r.path,
                        put,
                    ),
                }
            })
        },
    }
}

proof fn lemma_onward(disk: Disk, r: Route, s: Scene, stayed: bool, o: Oc)
    requires
        disk.dom().contains(r.path),
        on_its_way(disk, r, s, stayed),
        possible(s, o),
    ensures
        on_its_way(
            disk,
            r,
            onward(s, o),
            stayed || match s.m {
                Some(Mv::Sidecar { .. }) => o is Broke,
                _ => false,
            },
        ),
{
    reveal_strlit(".xmp");
    match s.r.phase {
        RelocatePhase::Probing { tries, side } => {
            let n = tries as nat;
            if o == Oc::Found(true) {
                assert(taken(disk, r, n));
                assert forall|k: nat| k < n + 1 implies #[trigger] taken(disk, r, k) by {
                    if k < n {
                        assert(k < tries);
                    }
                }
            } else if !side {
                assert(first_free(disk, r, n));
            }
        },
        RelocatePhase::Checking { tries } => {
            let n = tries as nat;
            if o == Oc::Found(true) {
                assert(taken(disk, r, n));
                assert forall|k: nat| k < n + 1 implies #[trigger] taken(disk, r, k) by {
                    if k < n {
                        assert(k < tries);
                    }
                }
            } else {
                assert(first_free(disk, r, n));
            }
        },
        RelocatePhase::Carrying { tries, phase } => {
            let n = tries as nat;
            let put = spot(r, n);
            let base = trailed(disk, r, n, has_sidecar(disk, r) && !stayed);
            assert(put != r.path);
            assert(base.insert(put, base[r.path]).remove(r.path) =~= renamed(base, r.path, put));
        },
        _ => {},
    }
}

proof fn lemma_played(disk: Disk, r: Route, os: Seq<Oc>)
    requires
        r.phase == RelocatePhase::Start,
        disk.dom().contains(r.path),
        faithful(opening(r, disk), os),
    ensures
        on_its_way(
            disk,
            r,
            played(opening(r, disk), os),
            sidecar_stayed(opening(r, disk), os),
        ),
    decreases os.len(),
{
    let s = opening(r, disk);
    if os.len() > 0 {
        let front = os.drop_last();
        lemma_played(disk, r, front);
        lemma_onward(disk, r, played(s, front), sidecar_stayed(s, front), os.last());
    }
}

/// However the steps go, a file that arrived is at the first place that it can go to, holds what
/// it held, and is gone from where it was. Its sidecar, where it has one, is beside it, unless it
/// could not be moved: then it is where it was. All other files are as they were.
pub proof fn lemma_arrived(disk: Disk, r: Route, os: Seq<Oc>)
    requires
        r.phase == RelocatePhase::Start,
        disk.dom().contains(r.path),
        faithful(opening(r, disk), os),
        played(opening(r, disk), os).m is Some,
        played(opening(r, disk), os).m->0 is Done,
    ensures
        exists|n: nat|
            {
                &&& #[trigger] first_free(disk, r, n)
                &&& played(opening(r, disk), os).m == Some(Mv::Done(spot(r, n)))
                &&& played(opening(r, disk), os).disk == arrived(
                    disk,
                    r,
                    n,
                    has_sidecar(disk, r) && !sidecar_stayed(opening(r, disk), os),
                )
            },
{
    lemma_played(disk, r, os);
    let s = played(opening(r, disk), os);
    assert(s.r.phase is Carrying);
    assert(first_free(disk, r, s.r.phase->Carrying_tries as nat));
}

/// A culled file can be had back: where its name is free in the `.removed` folder, it keeps it
/// there, and from there it goes back to where it was. However the steps of both ways go, as long
/// as both ways end well, all files are as they were before, but for a sidecar that went along
/// and could not be moved back: it is where the file was put away.
pub proof fn lemma_cull_and_restore(
    disk: Disk,
    dir: Seq<char>,
    name: Seq<char>,
    os: Seq<Oc>,
    ps: Seq<Oc>,
)
    requires
        is_name(name),
        disk.dom().contains(joined(dir, name)),
        ({
            let path = joined(dir, name);
            let rem = removed_dir(path);
            let put = joined(rem, name);
            let culled = opening(
                Route { path, dir: rem, make: true, phase: RelocatePhase::Start },
                disk,
            );
            let gone = played(culled, os);
            let back = opening(
                Route { path: put, dir, make: false, phase: RelocatePhase::Start },
                gone.disk,
            );
            &&& !disk.dom().contains(put)
            &&& !disk.dom().contains(sidecar(put))
            &&& faithful(culled, os)
            &&& gone.m is Some && gone.m->0 is Done
            &&& faithful(back, ps)
            &&& played(back, ps).m is Some && played(back, ps).m->0 is Done
        }),
    ensures
        ({
            let path = joined(dir, name);
            let rem = removed_dir(path);
            let put = joined(rem, name);
            let culled = opening(
                Route { path, dir: rem, make: true, phase: RelocatePhase::Start },
                disk,
            );
            let gone = played(culled, os);
            let back = opening(
                Route { path: put, dir, make: false, phase: RelocatePhase::Start },
                gone.disk,
            );
            &&& gone.m == Some(Mv::Done(put))
            &&& played(back, ps).m == Some(Mv::Done(path))
            &&& played(back, ps).disk == if disk.dom().contains(sidecar(path)) && !sidecar_stayed(
                culled,
                os,
            ) && sidecar_stayed(back, ps) {
                renamed(disk, sidecar(path), sidecar(put))
            } else {
                disk
            }
        }),
{
    reveal_strlit(".xmp");
    let path = joined(dir, name);
    let rem = removed_dir(path);
    let put = joined(rem, name);
    let r = Route { path, dir: rem, make: true, phase: RelocatePhase::Start };
    lemma_joined(dir, name);
    lemma_joined(rem, name);
    lemma_arrived(disk, r, os);
    let gone = played(opening(r, disk), os);
    let moved = has_sidecar(disk, r) && !sidecar_stayed(opening(r, disk), os);
    let n = choose|n: nat|
        {
            &&& #[trigger] first_free(disk, r, n)
            &&& gone.m == Some(Mv::Done(spot(r, n)))
            &&& gone.disk == arrived(disk, r, n, moved)
        };
    assert(spot(r, 0) == put);
    assert(!taken(disk, r, 0));
    assert(n == 0);
    let b = Route { path: put, dir, make: false, phase: RelocatePhase::Start };
    lemma_arrived(gone.disk, b, ps);
    let all = played(opening(b, gone.disk), ps);
    let again = has_sidecar(gone.disk, b) && !sidecar_stayed(opening(b, gone.disk), ps);
    let m = choose|m: nat|
        {
            &&& #[trigger] first_free(gone.disk, b, m)
            &&& all.m == Some(Mv::Done(spot(b, m)))
            &&& all.disk == arrived(gone.disk, b, m, again)
        };
    assert(spot(b, 0) == path);
    assert(has_sidecar(gone.disk, b) == moved);
    assert(!taken(gone.disk, b, 0));
    assert(m == 0);
    if moved && !again {
        assert(all.disk =~= renamed(disk, sidecar(path), sidecar(put)));
    } else {
        assert(all.disk =~= disk);
    }
}

/// A file on its way, what is to be done next with it, and the disk.
pub struct Trip {
    pub w: Way,
    pub m: Option<Mv>,
    pub disk: Disk,
}

/// The trip `t` after its last move came out as `o`.
pub open spec fn trip_on(t: Trip, o: Oc) -> Trip {
    let (w, m) = carry_step(t.w, o);
    Trip { w, m: Some(m), disk: effect(t.disk, t.m, o) }
}

/// The trip `t` after its moves came out as `os`.
pub open spec fn trip_played(t: Trip, os: Seq<Oc>) -> Trip
    decreases os.len(),
{
    if os.len() == 0 {
        t
    } else {
        trip_on(trip_played(t, os.drop_last()), os.last())
    }
}

/// Whether the moves of the trip `t` can come out as `os`.
pub open spec fn trip_possible(t: Trip, os: Seq<Oc>) -> bool
    decreases os.len(),
{
    os.len() == 0 || (trip_possible(t, os.drop_last()) && carry_answers(
        trip_played(t, os.drop_last()).w,
        os.last(),
    ))
}

/// Where a trip stands: what is on the disk at each of its phases.
spec fn on_the_way(w: Way, disk: Disk, t: Trip) -> bool {
    let copied = disk.insert(w.dst, disk[w.src]);
    &&& t.w == (Way { phase: t.w.phase, ..w })
    &&& match t.w.phase {
        CarryPhase::Start => t.disk == disk && t.m is None,
        CarryPhase::Renaming => t.disk == disk && t.m == Some(
            Mv::Rename { from: w.src, to: w.dst },
        ) && w.do_move,
        CarryPhase::Copying => t.disk == disk && t.m == Some(Mv::Copy { from: w.src, to: w.dst }),
        CarryPhase::Removing => t.disk == copied && t.m == Some(Mv::Remove(w.src)) && w.do_move,
        CarryPhase::Over => t.m is Some && match t.m->0 {
            Mv::Done(p) => p == w.dst && t.disk == if w.do_move {
                disk.remove(w.src).insert(w.dst, disk[w.src])
            } else {
                copied
            },
            Mv::Failed(_) => t.disk == disk || t.disk == copied,
            _ => false,
        },
    }
}

proof fn lemma_on_the_way(w: Way, disk: Disk, os: Seq<Oc>)
    requires
        w.phase == CarryPhase::Start,
        w.src != w.dst,
        trip_possible(Trip { w, m: None, disk }, os),
    ensures
        on_the_way(w, disk, trip_played(Trip { w, m: None, disk }, os)),
    decreases os.len(),
{
    let s = Trip { w, m: None, disk };
    if os.len() > 0 {
        lemma_on_the_way(w, disk, os.drop_last());
        let t = trip_played(s, os.drop_last());
        let u = trip_on(t, os.last());
        let copied = disk.insert(w.dst, disk[w.src]);
        assert(copied.remove(w.src) =~= disk.remove(w.src).insert(w.dst, disk[w.src]));
        assert(on_the_way(w, disk, u));
    }
}

/// A file that is moved or copied to a free place is there in the end, with what it held; moved
/// it is no longer where it was, copied it is. Nothing else on the disk changes. Where it fails,
/// the file is still where it was.
pub proof fn lemma_carried(w: Way, disk: Disk, os: Seq<Oc>)
    requires
        w.phase == CarryPhase::Start,
        w.src != w.dst,
        disk.dom().contains(w.src),
        !disk.dom().contains(w.dst),
        trip_possible(Trip { w, m: None, disk }, os),
    ensures
        ({
            let t = trip_played(Trip { w, m: None, disk }, os);
            match t.m {
                Some(Mv::Done(p)) => {
                    &&& p == w.dst
                    &&& t.disk.dom().contains(w.dst) && t.disk[w.dst] == disk[w.src]
                    &&& t.disk.dom().contains(w.src) == !w.do_move
                    &&& t.disk.remove(w.dst).remove(w.src) == disk.remove(w.src)
                    &&& !w.do_move ==> t.disk[w.src] == disk[w.src]
                },
                Some(Mv::Failed(_)) => {
                    &&& t.disk.dom().contains(w.src) && t.disk[w.src] == disk[w.src]
                    &&& t.disk.remove(w.dst) == disk
                },
                _ => t.disk.dom().contains(w.src) && t.disk[w.src] == disk[w.src],
            }
        }),
{
    lemma_on_the_way(w, disk, os);
    let t = trip_played(Trip { w, m: None, disk }, os);
    let copied = disk.insert(w.dst, disk[w.src]);
    assert(copied.remove(w.dst) =~= disk);
    assert(disk.remove(w.dst) =~= disk);
    match t.m {
        Some(Mv::Done(p)) => {
            assert(t.disk.remove(w.dst).remove(w.src) =~= disk.remove(w.src));
        },
        _ => {},
    }
}

/// The folder of removed shots stands in the folder of the shot.
pub proof fn lemma_removed_beside(d: Seq<char>, n: Seq<char>)
    requires
        is_name(n),
        is_tidy(d),
    ensures
        removed_dir(joined(d, n)) == joined(d, ".removed"@),
{
    lemma_joined(d, n);
}

/// The places tried for a file `stem.ext` on its way are in the folder it goes to: its own name
/// first, then the stem with an underscore and each number from 1 on.
pub proof fn lemma_spots(d: Seq<char>, a: Seq<char>, b: Seq<char>, r: Route, n: nat)
    requires
        a.len() > 0,
        !b.contains('.'),
        is_name(a + "."@ + b),
        r.path == joined(d, a + "."@ + b),
        n > 0,
    ensures
        spot(r, 0) == joined(r.dir, a + "."@ + b),
        spot(r, n) == joined(r.dir, a + "_"@ + dec(n) + "."@ + b),
{
    lemma_joined(d, a + "."@ + b);
    lemma_numbered(a, b, n);
}

/// However a move comes out, the way goes on: it can be answered by success and by failure, until
/// the file has arrived or it is told why not.
pub proof fn lemma_carry_goes_on(w: Way, o: Oc, err: Seq<char>)
    requires
        carry_answers(w, o),
    ensures
        ({
            let (v, m) = carry_step(w, o);
            &&& carry_answers(v, Oc::Worked) <==> !(m is Done) && !(m is Failed)
            &&& carry_answers(v, Oc::Broke(err)) <==> !(m is Done) && !(m is Failed)
            &&& v == (Way { phase: v.phase, ..w })
        }),
        carry_answers(Way { phase: CarryPhase::Start, ..w }, Oc::Begin),
{
}

} // verus!
