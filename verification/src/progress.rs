//! How far the work has come, as it is shown.
use crate::text::{copy_of, strs, trim, trim_str};
use vstd::prelude::*;

verus! {

/// How far the work has come.
#[derive(Debug)]
pub struct Progress {
    /// What is being done.
    pub stage: String,
    /// The units of the stage.
    pub total: usize,
    /// The units of the stage that are done.
    pub done: usize,
    /// How much of the current unit is done, in hundredths of a percent: 10000 at most.
    pub frac: u64,
    /// What went wrong so far, in all stages.
    pub errors: usize,
    /// Whether all work is over.
    pub finished: bool,
    /// What is being worked on.
    pub current: String,
    /// What there is to tell.
    pub log: Vec<String>,
}

/// What a progress says.
#[verifier::ext_equal]
pub struct Standing {
    pub stage: Seq<char>,
    pub total: nat,
    pub done: nat,
    pub frac: nat,
    pub errors: nat,
    pub finished: bool,
    pub current: Seq<char>,
    pub log: Seq<Seq<char>>,
}

impl View for Progress {
    type V = Standing;

    open spec fn view(&self) -> Standing {
        Standing {
            stage: self.stage@,
            total: self.total as nat,
            done: self.done as nat,
            frac: self.frac as nat,
            errors: self.errors as nat,
            finished: self.finished,
            current: self.current@,
            log: strs(self.log@),
        }
    }
}

/// The standing `p` at the start of a stage.
pub open spec fn at_stage(p: Standing, name: Seq<char>, total: nat) -> Standing {
    Standing { stage: name, total, done: 0, frac: 0, ..p }
}

/// The standing `p` with one more line to tell.
pub open spec fn logged(p: Standing, line: Seq<char>) -> Standing {
    Standing { log: p.log.push(line), ..p }
}

/// Whether no more than all of the current unit is done.
pub open spec fn within(p: Standing) -> bool {
    p.frac <= 10000
}

/// The standing `p` after a line that an upload printed; `frac` is how much is done, in
/// hundredths of a percent, where the line tells it. More than all counts as all.
pub open spec fn noted(p: Standing, line: Seq<char>, frac: Option<u64>) -> Standing {
    Standing {
        current: trim(line),
        frac: match frac {
            Some(n) => if n <= 10000 {
                n as nat
            } else {
                10000
            },
            None => p.frac,
        },
        ..p
    }
}

/// The standing before any work. Without files to move the uploads come first.
pub open spec fn fresh(moves: nat, jobs: nat) -> Standing {
    Standing {
        stage: if moves == 0 {
            "Uploading to Drive"@
        } else {
            "Moving files"@
        },
        total: if moves == 0 {
            jobs
        } else {
            moves
        },
        done: 0,
        frac: 0,
        errors: 0,
        finished: false,
        current: seq![],
        log: seq![],
    }
}

impl Progress {
    /// The progress before any work.
    pub fn fresh(moves: usize, jobs: usize) -> (p: Progress)
        ensures
            p@ == fresh(moves as nat, jobs as nat),
            within(p@),
    {
        let p = Progress {
            stage: if moves == 0 {
                copy_of("Uploading to Drive")
            } else {
                copy_of("Moving files")
            },
            total: if moves == 0 {
                jobs
            } else {
                moves
            },
            done: 0,
            frac: 0,
            errors: 0,
            finished: false,
            current: String::new(),
            log: Vec::new(),
        };
        assert(p.current@ == Seq::<char>::empty());
        assert(strs(p.log@) == Seq::<Seq<char>>::empty());
        p
    }

    /// Begins a stage.
    pub fn set_stage(&mut self, name: &str, total: usize)
        ensures
            final(self)@ == at_stage(old(self)@, name@, total as nat),
            within(final(self)@),
    {
        self.stage = copy_of(name);
        self.total = total;
        self.done = 0;
        self.frac = 0;
    }

    /// Adds a line to tell.
    pub fn push_log(&mut self, line: String)
        ensures
            final(self)@ == logged(old(self)@, line@),
            within(old(self)@) ==> within(final(self)@),
    {
        let ghost before = self.log@;
        self.log.push(line);
        assert(strs(self.log@) == strs(before).push(line@));
    }

    /// Takes note of a line that an upload printed: the line is shown, and where it tells how
    /// much is done, in hundredths of a percent, that is too.
    pub fn note_line(&mut self, line: &str, frac: Option<u64>)
        ensures
            final(self)@ == noted(old(self)@, line@, frac),
            within(old(self)@) ==> within(final(self)@),
    {
        if let Some(n) = frac {
            self.frac = if n <= 10000 {
                n
            } else {
                10000
            };
        }
        self.current = trim_str(line);
    }
}

/// A line that an upload prints changes what is shown of it and how far it is said to be, never
/// above the whole, and nothing that was counted or told.
pub proof fn lemma_line_noted(p: Standing, line: Seq<char>, n: u64)
    ensures
        noted(p, line, Some(n)).frac == if n >= 10000 {
            10000
        } else {
            n as nat
        },
        noted(p, line, None).frac == p.frac,
        noted(p, line, Some(n)).current == trim(line),
        noted(p, line, None).current == trim(line),
        noted(p, line, Some(n)) == (Standing {
            frac: noted(p, line, Some(n)).frac,
            current: trim(line),
            ..p
        }),
{
}

} // verus!
