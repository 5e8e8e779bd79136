//! The work on the folders, step by step: what to do next, given how the last step went.
use crate::number::{dec, decimal};
use crate::occasion::Cluster;
use crate::paths::{destination, file_name, file_name_of, joined, numbered};
use crate::plan::{
    assigned_files, lemma_plan_complete, lemma_plan_moves, makes_work, moves, plan, tasks, Job,
    Task,
};
use crate::progress::{at_stage, fresh, logged, noted, within, Progress, Standing};
use crate::sorting::lemma_filter_push;
use crate::text::{copy_list, copy_of, opt_list, opt_string};
use vstd::prelude::*;

verus! {

/// What to do next.
#[derive(Debug)]
pub enum Action {
    /// Make this folder and those above it.
    MakeDir(String),
    /// See whether there is something at this place.
    Probe(String),
    /// Move or copy a file.
    Transfer { src: String, dst: String, do_move: bool },
    /// Upload a folder, or only the files with the given names; `at` is the number of the upload.
    Upload { dir: String, dest: String, files: Option<Vec<String>>, at: usize },
    /// All is done.
    Finish,
}

/// How the last step went.
#[derive(Debug)]
pub enum Event {
    /// There is no last step yet.
    Begin,
    /// The folder was made, or why not.
    Made(Option<String>),
    /// Whether there is something at the place.
    Probed(bool),
    /// The file was moved or copied, or why not.
    Transferred(Option<String>),
    /// The folder was uploaded, or why not.
    Uploaded(Option<String>),
}

/// Where the work stands.
#[derive(Clone, Copy, PartialEq, Eq, Structural, Debug)]
pub enum Phase {
    /// Nothing was done yet.
    Start,
    /// The folder of a job is being made.
    Making { job: usize },
    /// A place for a file of a job is being looked for; `tries` places were taken.
    Probing { job: usize, src: usize, tries: u64 },
    /// A file of a job is being moved or copied.
    Sending { job: usize, src: usize },
    /// The folder of the job at this place in the list of uploads is being uploaded.
    Uploading { at: usize },
    /// All is done.
    Over,
}

/// The work on the folders.
pub struct Worker {
    pub jobs: Vec<Job>,
    /// Whether files are moved, not copied.
    pub do_move: bool,
    /// The destination of uploads.
    pub dest: String,
    pub progress: Progress,
    /// The jobs whose folders are to be uploaded.
    pub uploads: Vec<usize>,
    pub phase: Phase,
}

/// What there is to do next.
pub enum Act {
    MakeDir(Seq<char>),
    Probe(Seq<char>),
    Transfer { src: Seq<char>, dst: Seq<char>, do_move: bool },
    Upload { dir: Seq<char>, dest: Seq<char>, files: Option<Seq<Seq<char>>>, at: usize },
    Finish,
}

impl View for Action {
    type V = Act;

    open spec fn view(&self) -> Act {
        match *self {
            Action::MakeDir(d) => Act::MakeDir(d@),
            Action::Probe(p) => Act::Probe(p@),
            Action::Transfer { src, dst, do_move } => Act::Transfer {
                src: src@,
                dst: dst@,
                do_move,
            },
            Action::Upload { dir, dest, files, at } => Act::Upload {
                dir: dir@,
                dest: dest@,
                files: opt_list(files),
                at,
            },
            Action::Finish => Act::Finish,
        }
    }
}

/// The state of the work.
#[verifier::ext_equal]
pub struct Work {
    pub jobs: Seq<Task>,
    pub do_move: bool,
    pub dest: Seq<char>,
    pub p: Standing,
    pub uploads: Seq<usize>,
    pub phase: Phase,
}

impl View for Worker {
    type V = Work;

    open spec fn view(&self) -> Work {
        Work {
            jobs: tasks(self.jobs@),
            do_move: self.do_move,
            dest: self.dest@,
            p: self.progress@,
            uploads: self.uploads@,
            phase: self.phase,
        }
    }
}

/// The work `w` with all done.
pub open spec fn over(w: Work) -> (Work, Act) {
    (Work { p: Standing { finished: true, ..w.p }, phase: Phase::Over, ..w }, Act::Finish)
}

/// What an upload is called: the folder, and how many files of it where not all are meant.
pub open spec fn what(t: Task) -> Seq<char> {
    match t.upload_files {
        Some(l) => t.label + " ("@ + dec(l.len()) + " rated files)"@,
        None => t.label,
    }
}

/// The upload of the folder at `at` in the list of uploads, or the end of all work.
pub open spec fn enter_upload(w: Work, at: int) -> (Work, Act) {
    if at < w.uploads.len() {
        let t = w.jobs[w.uploads[at] as int];
        (
            Work {
                p: Standing { current: "rclone → "@ + w.dest + "/"@ + what(t), ..w.p },
                phase: Phase::Uploading { at: at as usize },
                ..w
            },
            Act::Upload {
                dir: t.dir,
                dest: w.dest + "/"@ + t.label,
                files: t.upload_files,
                at: at as usize,
            },
        )
    } else {
        over(
            Work {
                p: logged(
                    w.p,
                    "Uploaded "@ + dec(w.uploads.len()) + " folder(s) to "@ + w.dest + "."@,
                ),
                ..w
            },
        )
    }
}

/// What the moves came to.
pub open spec fn moves_text(do_move: bool, done: nat, errors: nat) -> Seq<char> {
    (if do_move {
        "Moved "@
    } else {
        "Copied "@
    }) + dec(done) + " files, "@ + dec(errors) + " errors."@
}

/// The end of the moves, and the first upload where there is one.
pub open spec fn enter_uploads(w: Work) -> (Work, Act) {
    let v = if moves(w.jobs) > 0 {
        Work { p: logged(w.p, moves_text(w.do_move, w.p.done, w.p.errors)), ..w }
    } else {
        w
    };
    if v.uploads.len() > 0 {
        enter_upload(
            Work { p: at_stage(v.p, "Uploading to Drive"@, v.uploads.len()), ..v },
            0,
        )
    } else {
        over(v)
    }
}

/// The work on the job `j`, or the end of the moves.
pub open spec fn enter_job(w: Work, j: int) -> (Work, Act)
    decreases w.jobs.len() - j, 1int,
{
    if j < w.jobs.len() {
        if w.jobs[j].srcs.len() > 0 {
            (
                Work { phase: Phase::Making { job: j as usize }, ..w },
                Act::MakeDir(w.jobs[j].dir),
            )
        } else {
            leave_job(w, j)
        }
    } else {
        enter_uploads(w)
    }
}

/// The work once the files of the job `j` are done: that is told where there were any, and the
/// folder is among the uploads where it is to be.
pub open spec fn job_done(w: Work, j: int) -> Work {
    let t = w.jobs[j];
    let p = if t.srcs.len() > 0 {
        logged(w.p, t.label + "  ->  "@ + dec(t.srcs.len()) + " files"@)
    } else {
        w.p
    };
    let uploads = if t.upload {
        w.uploads.push(j as usize)
    } else {
        w.uploads
    };
    Work { p, uploads, ..w }
}

/// What follows when the files of the job `j` are done.
pub open spec fn leave_job(w: Work, j: int) -> (Work, Act)
    decreases w.jobs.len() - j, 0int,
    when j < w.jobs.len()
{
    enter_job(job_done(w, j), j + 1)
}

/// The name of a file of a job.
pub open spec fn src_name(t: Task, i: int) -> Seq<char> {
    file_name_of(t.srcs[i])->0
}

/// The place for a file of a job after so many places were taken.
pub open spec fn place(t: Task, i: int, tries: nat) -> Seq<char> {
    joined(t.dir, numbered(src_name(t, i), tries))
}

/// The work on the file `i` of the job `j`, or what follows when all its files are done.
pub open spec fn enter_src(w: Work, j: int, i: int) -> (Work, Act) {
    let t = w.jobs[j];
    if i < t.srcs.len() {
        (
            Work {
                p: Standing { current: src_name(t, i) + " → "@ + t.label, ..w.p },
                phase: Phase::Probing { job: j as usize, src: i as usize, tries: 0 },
                ..w
            },
            Act::Probe(place(t, i, 0)),
        )
    } else {
        leave_job(w, j)
    }
}

/// The standing `p` after a step that went well.
pub open spec fn succeeded(p: Standing) -> Standing {
    Standing { done: p.done + 1, ..p }
}

/// The standing `p` after `n` failures.
pub open spec fn failed(p: Standing, n: nat) -> Standing {
    Standing { errors: p.errors + n, ..p }
}

/// How the last step went.
pub enum Ev {
    Begin,
    Made(Option<Seq<char>>),
    Probed(bool),
    Transferred(Option<Seq<char>>),
    Uploaded(Option<Seq<char>>),
}

impl View for Event {
    type V = Ev;

    open spec fn view(&self) -> Ev {
        match *self {
            Event::Begin => Ev::Begin,
            Event::Made(e) => Ev::Made(opt_string(e)),
            Event::Probed(b) => Ev::Probed(b),
            Event::Transferred(e) => Ev::Transferred(opt_string(e)),
            Event::Uploaded(e) => Ev::Uploaded(opt_string(e)),
        }
    }
}

/// Whether `e` can be how the last step of `w` went.
pub open spec fn answers(w: Work, e: Ev) -> bool {
    match (w.phase, e) {
        (Phase::Start, Ev::Begin) => true,
        (Phase::Making { .. }, Ev::Made(_)) => true,
        (Phase::Probing { tries, .. }, Ev::Probed(taken)) => taken ==> tries < u64::MAX,
        (Phase::Sending { .. }, Ev::Transferred(_)) => true,
        (Phase::Uploading { .. }, Ev::Uploaded(_)) => true,
        _ => false,
    }
}

/// The work once the folder of the job `j` could not be made: its files count as failed.
pub open spec fn job_unmade(w: Work, j: int, e: Seq<char>) -> Work {
    let t = w.jobs[j];
    Work {
        p: logged(failed(w.p, t.srcs.len()), "ERR mkdir "@ + t.dir + ": "@ + e),
        ..w
    }
}

/// The work after the folder of the job `j` was made, or could not be: then it is not uploaded.
pub open spec fn after_making(w: Work, j: int, err: Option<Seq<char>>) -> (Work, Act) {
    match err {
        None => enter_src(w, j, 0),
        Some(e) => enter_job(job_unmade(w, j, e), j + 1),
    }
}

/// The work after a place was looked at: a free place is taken, else the next one is tried.
pub open spec fn after_probing(w: Work, j: int, i: int, tries: nat, taken: bool) -> (Work, Act) {
    let t = w.jobs[j];
    if taken {
        (
            Work {
                phase: Phase::Probing {
                    job: j as usize,
                    src: i as usize,
                    tries: (tries + 1) as u64,
                },
                ..w
            },
            Act::Probe(place(t, i, tries + 1)),
        )
    } else {
        (
            Work { phase: Phase::Sending { job: j as usize, src: i as usize }, ..w },
            Act::Transfer { src: t.srcs[i], dst: place(t, i, tries), do_move: w.do_move },
        )
    }
}

/// The work once the file `i` of the job `j` was moved or copied, or could not be. Only the
/// first failures are told.
pub open spec fn file_sent(w: Work, j: int, i: int, err: Option<Seq<char>>) -> Work {
    let p = match err {
        None => succeeded(w.p),
        Some(e) => if w.p.log.len() < 8 {
            logged(failed(w.p, 1), "ERR "@ + w.jobs[j].srcs[i] + ": "@ + e)
        } else {
            failed(w.p, 1)
        },
    };
    Work { p, ..w }
}

/// The work after the file `i` of the job `j` was moved or copied, or could not be.
pub open spec fn after_sending(w: Work, j: int, i: int, err: Option<Seq<char>>) -> (Work, Act) {
    enter_src(file_sent(w, j, i, err), j, i + 1)
}

/// The work once the upload at `at` is over.
pub open spec fn folder_sent(w: Work, at: int, err: Option<Seq<char>>) -> Work {
    let t = w.jobs[w.uploads[at] as int];
    let p = match err {
        None => logged(succeeded(w.p), "uploaded  "@ + what(t)),
        Some(e) => logged(failed(w.p, 1), "UPLOAD ERR "@ + t.label + ": "@ + e),
    };
    Work { p: Standing { frac: 0, ..p }, ..w }
}

/// The work after the upload at `at`.
pub open spec fn after_upload(w: Work, at: int, err: Option<Seq<char>>) -> (Work, Act) {
    enter_upload(folder_sent(w, at, err), at + 1)
}

/// The work after its last step went as `e` says, and what to do next.
pub open spec fn step(w: Work, e: Ev) -> (Work, Act) {
    match (w.phase, e) {
        (Phase::Start, Ev::Begin) => enter_job(w, 0),
        (Phase::Making { job }, Ev::Made(err)) => after_making(w, job as int, err),
        (Phase::Probing { job, src, tries }, Ev::Probed(taken)) => after_probing(
            w,
            job as int,
            src as int,
            tries as nat,
            taken,
        ),
        (Phase::Sending { job, src }, Ev::Transferred(err)) => after_sending(
            w,
            job as int,
            src as int,
            err,
        ),
        (Phase::Uploading { at }, Ev::Uploaded(err)) => after_upload(w, at as int, err),
        _ => (w, Act::Finish),
    }
}

/// Whether the uploads are those of jobs before `j` that are to be uploaded, in order.
pub open spec fn picked(jobs: Seq<Task>, uploads: Seq<usize>, j: int) -> bool {
    &&& uploads.len() <= j <= jobs.len()
    &&& forall|k: int| 0 <= k < uploads.len() ==> (#[trigger] uploads[k]) < j && jobs[uploads[k] as int].upload
    &&& forall|k: int, l: int|
        0 <= k < l < uploads.len() ==> #[trigger] uploads[k] < #[trigger] uploads[l]
}

/// Whether the numbers of files and folders can be counted, and all files have names.
pub open spec fn feasible(jobs: Seq<Task>) -> bool {
    &&& moves(jobs) + jobs.len() <= usize::MAX
    &&& forall|j: int, i: int|
        #![trigger jobs[j].srcs[i]]
        0 <= j < jobs.len() && 0 <= i < jobs[j].srcs.len() ==> file_name_of(jobs[j].srcs[i]) is Some
}

/// Whether all files of the jobs before `j` and `i` more were counted, as done or as failed.
pub open spec fn counted(w: Work, j: int, i: int) -> bool {
    w.p.done + w.p.errors == moves(w.jobs.take(j)) + i
}

/// Whether it was told what the moves came to, where there were any: each file that was to move
/// counts, as done or as failed.
pub open spec fn told(w: Work) -> bool {
    moves(w.jobs) > 0 ==> exists|d: nat, f: nat|
        d + f == moves(w.jobs) && w.p.log.contains(#[trigger] moves_text(w.do_move, d, f))
}

/// What holds of the work at all times.
pub open spec fn wf(w: Work) -> bool {
    &&& feasible(w.jobs)
    &&& within(w.p)
    &&& match w.phase {
        Phase::Start => w.p.done == 0 && w.p.errors == 0 && w.uploads.len() == 0,
        Phase::Making { job } => {
            &&& 0 <= job < w.jobs.len()
            &&& w.jobs[job as int].srcs.len() > 0
            &&& picked(w.jobs, w.uploads, job as int)
            &&& counted(w, job as int, 0)
        },
        Phase::Probing { job, src, .. } => {
            &&& 0 <= job < w.jobs.len()
            &&& 0 <= src < w.jobs[job as int].srcs.len()
            &&& picked(w.jobs, w.uploads, job as int)
            &&& counted(w, job as int, src as int)
        },
        Phase::Sending { job, src } => {
            &&& 0 <= job < w.jobs.len()
            &&& 0 <= src < w.jobs[job as int].srcs.len()
            &&& picked(w.jobs, w.uploads, job as int)
            &&& counted(w, job as int, src as int)
        },
        Phase::Uploading { at } => {
            &&& 0 <= at < w.uploads.len()
            &&& picked(w.jobs, w.uploads, w.jobs.len() as int)
            &&& w.p.done <= at
            &&& w.p.errors <= moves(w.jobs) + at
            &&& told(w)
        },
        Phase::Over => told(w),
    }
}

proof fn lemma_told_on(w: Work, v: Work)
    requires
        told(w),
        v.jobs == w.jobs,
        v.do_move == w.do_move,
        w.p.log.is_prefix_of(v.p.log),
    ensures
        told(v),
{
    if moves(w.jobs) > 0 {
        let (d, f) = choose|d: nat, f: nat|
            d + f == moves(w.jobs) && w.p.log.contains(#[trigger] moves_text(w.do_move, d, f));
        let m = moves_text(w.do_move, d, f);
        let k = choose|k: int| 0 <= k < w.p.log.len() && w.p.log[k] == m;
        assert(v.p.log[k] == m);
    }
}

proof fn lemma_enter_upload(w: Work, at: int)
    requires
        told(w),
    ensures
        told(enter_upload(w, at).0),
{
    lemma_told_on(w, enter_upload(w, at).0);
}

proof fn lemma_enter_uploads(w: Work)
    requires
        w.p.done + w.p.errors == moves(w.jobs),
    ensures
        told(enter_uploads(w).0),
{
    let v = if moves(w.jobs) > 0 {
        Work { p: logged(w.p, moves_text(w.do_move, w.p.done, w.p.errors)), ..w }
    } else {
        w
    };
    if moves(w.jobs) > 0 {
        let m = moves_text(w.do_move, w.p.done, w.p.errors);
        assert(v.p.log[w.p.log.len() as int] == m);
        assert(v.p.log.contains(m));
    }
    assert(told(v));
    lemma_told_on(v, enter_uploads(w).0);
}

proof fn lemma_moves_prefix(ts: Seq<Task>, j: int)
    requires
        0 <= j <= ts.len(),
    ensures
        moves(ts.take(j)) <= moves(ts),
        j < ts.len() ==> moves(ts.take(j + 1)) == moves(ts.take(j)) + ts[j].srcs.len(),
    decreases ts.len() - j,
{
    if j < ts.len() {
        lemma_moves_prefix(ts, j + 1);
        assert(ts.take(j + 1).drop_last() == ts.take(j));
    } else {
        assert(ts.take(j) == ts);
    }
}

proof fn lemma_moves_zero(ts: Seq<Task>)
    ensures
        moves(ts) == 0 <==> forall|j: int| 0 <= j < ts.len() ==> (#[trigger] ts[j]).srcs.len() == 0,
    decreases ts.len(),
{
    if ts.len() > 0 {
        let f = ts.drop_last();
        lemma_moves_zero(f);
        if moves(ts) == 0 {
            assert forall|j: int| 0 <= j < ts.len() implies (#[trigger] ts[j]).srcs.len() == 0 by {
                if j < f.len() {
                    assert(ts[j] == f[j]);
                }
            }
        }
        if forall|j: int| 0 <= j < ts.len() ==> (#[trigger] ts[j]).srcs.len() == 0 {
            assert forall|j: int| 0 <= j < f.len() implies (#[trigger] f[j]).srcs.len() == 0 by {
                assert(f[j] == ts[j]);
            }
            assert(ts[ts.len() - 1].srcs.len() == 0);
        }
    }
}

/// What an upload is called.
fn what_text(j: &Job) -> (s: String)
    ensures
        s@ == what(j@),
{
    match &j.upload_files {
        Some(l) => {
            let mut s = j.label.clone();
            s.append(" (");
            s.append(decimal(l.len() as u64).as_str());
            s.append(" rated files)");
            s
        },
        None => j.label.clone(),
    }
}

/// The work on `jobs` before any of it is done.
pub open spec fn begun(jobs: Seq<Task>, do_move: bool, dest: Seq<char>) -> Work {
    Work {
        jobs,
        do_move,
        dest,
        p: fresh(moves(jobs), jobs.len()),
        uploads: seq![],
        phase: Phase::Start,
    }
}

/// How many files `jobs` move, where they and the folders can be counted and all have names.
fn total_moves(jobs: &Vec<Job>) -> (r: Option<usize>)
    ensures
        match r {
            Some(n) => feasible(tasks(jobs@)) && n == moves(tasks(jobs@)),
            None => !feasible(tasks(jobs@)),
        },
{
    let ghost ts = tasks(jobs@);
    let mut n: usize = 0;
    assert(ts.take(0) == Seq::<Task>::empty());
    for j in 0..jobs.len()
        invariant
            ts == tasks(jobs@),
            n == moves(ts.take(j as int)),
            forall|k: int, i: int|
                #![trigger ts[k].srcs[i]]
                0 <= k < j && 0 <= i < ts[k].srcs.len() ==> file_name_of(ts[k].srcs[i]) is Some,
    {
        let srcs = &jobs[j].srcs;
        proof {
            lemma_moves_prefix(ts, j as int);
            lemma_moves_prefix(ts, j + 1);
            assert(ts[j as int] == jobs@[j as int]@);
        }
        match n.checked_add(srcs.len()) {
            Some(m) => {
                n = m;
            },
            None => {
                return None;
            },
        }
        for i in 0..srcs.len()
            invariant
                ts == tasks(jobs@),
                j < jobs.len(),
                srcs == &jobs[j as int].srcs,
                ts[j as int] == jobs@[j as int]@,
                forall|k: int|
                    0 <= k < i ==> file_name_of(#[trigger] ts[j as int].srcs[k]) is Some,
        {
            assert(ts[j as int].srcs[i as int] == srcs@[i as int]@);
            match file_name(srcs[i].as_str()) {
                Some(_) => {},
                None => {
                    return None;
                },
            }
        }
    }
    assert(ts.take(ts.len() as int) == ts);
    match n.checked_add(jobs.len()) {
        Some(_) => Some(n),
        None => None,
    }
}

impl Worker {
    /// The work on `jobs`, nothing of it done; none where the files cannot be counted, or one
    /// has no name.
    pub fn new(jobs: Vec<Job>, do_move: bool, dest: String) -> (r: Option<Worker>)
        ensures
            match r {
                Some(w) => {
                    &&& feasible(tasks(jobs@))
                    &&& w@ == begun(tasks(jobs@), do_move, dest@)
                    &&& wf(w@)
                },
                None => !feasible(tasks(jobs@)),
            },
    {
        match total_moves(&jobs) {
            Some(total) => {
                let progress = Progress::fresh(total, jobs.len());
                let w = Worker {
                    jobs,
                    do_move,
                    dest,
                    progress,
                    uploads: Vec::new(),
                    phase: Phase::Start,
                };
                assert(w@ =~= begun(tasks(jobs@), do_move, dest@));
                Some(w)
            },
            None => None,
        }
    }

    /// Ends all work.
    fn over(&mut self) -> (a: Action)
        requires
            feasible(old(self)@.jobs),
            within(old(self)@.p),
            told(old(self)@),
        ensures
            (final(self)@, a@) == over(old(self)@),
            wf(final(self)@),
    {
        proof {
            lemma_told_on(self@, over(self@).0);
        }
        self.progress.finished = true;
        self.phase = Phase::Over;
        Action::Finish
    }

    /// Goes on to the upload at `at`.
    fn enter_upload(&mut self, at: usize) -> (a: Action)
        requires
            feasible(old(self)@.jobs),
            within(old(self)@.p),
            at <= old(self)@.uploads.len(),
            picked(old(self)@.jobs, old(self)@.uploads, old(self)@.jobs.len() as int),
            old(self)@.p.done <= at,
            old(self)@.p.errors <= moves(old(self)@.jobs) + at,
            told(old(self)@),
        ensures
            (final(self)@, a@) == enter_upload(old(self)@, at as int),
            wf(final(self)@),
    {
        let ghost was = self@;
        proof {
            lemma_enter_upload(was, at as int);
        }
        if at < self.uploads.len() {
            let k: usize = self.uploads[at];
            assert(was.jobs[k as int] == self.jobs@[k as int]@);
            let what = what_text(&self.jobs[k]);
            let mut cur = copy_of("rclone → ");
            cur.append(self.dest.as_str());
            cur.append("/");
            cur.append(what.as_str());
            let mut dest = self.dest.clone();
            dest.append("/");
            dest.append(self.jobs[k].label.as_str());
            let files = match &self.jobs[k].upload_files {
                Some(l) => Some(copy_list(l)),
                None => None,
            };
            let dir = self.jobs[k].dir.clone();
            self.progress.current = cur;
            self.phase = Phase::Uploading { at };
            Action::Upload { dir, dest, files, at }
        } else {
            let mut s = copy_of("Uploaded ");
            s.append(decimal(self.uploads.len() as u64).as_str());
            s.append(" folder(s) to ");
            s.append(self.dest.as_str());
            s.append(".");
            self.progress.push_log(s);
            proof {
                lemma_told_on(was, self@);
            }
            self.over()
        }
    }

    /// Whether any file was to be moved.
    fn any_move(&self) -> (r: bool)
        ensures
            r == (moves(self@.jobs) > 0),
    {
        proof {
            lemma_moves_zero(self@.jobs);
        }
        for j in 0..self.jobs.len()
            invariant
                moves(self@.jobs) == 0 <==> forall|j: int|
                    0 <= j < self@.jobs.len() ==> (#[trigger] self@.jobs[j]).srcs.len() == 0,
                forall|k: int| 0 <= k < j ==> (#[trigger] self@.jobs[k]).srcs.len() == 0,
        {
            assert(self@.jobs[j as int] == self.jobs@[j as int]@);
            if self.jobs[j].srcs.len() > 0 {
                return true;
            }
        }
        false
    }

    /// Ends the moves and goes on to the uploads.
    fn enter_uploads(&mut self) -> (a: Action)
        requires
            feasible(old(self)@.jobs),
            within(old(self)@.p),
            picked(old(self)@.jobs, old(self)@.uploads, old(self)@.jobs.len() as int),
            counted(old(self)@, old(self)@.jobs.len() as int, 0),
        ensures
            (final(self)@, a@) == enter_uploads(old(self)@),
            wf(final(self)@),
    {
        let ghost was = self@;
        assert(was.jobs.take(was.jobs.len() as int) == was.jobs);
        proof {
            lemma_enter_uploads(was);
        }
        if self.any_move() {
            let mut s = if self.do_move {
                copy_of("Moved ")
            } else {
                copy_of("Copied ")
            };
            s.append(decimal(self.progress.done as u64).as_str());
            s.append(" files, ");
            s.append(decimal(self.progress.errors as u64).as_str());
            s.append(" errors.");
            self.progress.push_log(s);
            proof {
                assert(s@ == moves_text(was.do_move, was.p.done, was.p.errors));
                assert(self@.p.log[was.p.log.len() as int] == s@);
                assert(self@.p.log.contains(s@));
            }
        }
        assert(told(self@));
        let ghost after = self@;
        if self.uploads.len() > 0 {
            let n: usize = self.uploads.len();
            self.progress.set_stage("Uploading to Drive", n);
            proof {
                lemma_told_on(after, self@);
            }
            self.enter_upload(0)
        } else {
            self.over()
        }
    }

    /// Goes on to the job `from`.
    fn enter_job(&mut self, from: usize) -> (a: Action)
        requires
            feasible(old(self)@.jobs),
            within(old(self)@.p),
            picked(old(self)@.jobs, old(self)@.uploads, from as int),
            counted(old(self)@, from as int, 0),
        ensures
            (final(self)@, a@) == enter_job(old(self)@, from as int),
            wf(final(self)@),
    {
        let ghost was = self@;
        let mut j: usize = from;
        while j < self.jobs.len() && self.jobs[j].srcs.len() == 0
            invariant
                self@.jobs == was.jobs,
                self@.jobs.len() == self.jobs@.len(),
                feasible(self@.jobs),
                within(self@.p),
                picked(self@.jobs, self@.uploads, j as int),
                counted(self@, j as int, 0),
                enter_job(self@, j as int) == enter_job(was, from as int),
            decreases self.jobs.len() - j,
        {
            let ghost before = self@;
            proof {
                assert(before.jobs[j as int] == self.jobs@[j as int]@);
                lemma_moves_prefix(before.jobs, j as int);
            }
            if self.jobs[j].upload {
                self.uploads.push(j);
            }
            assert(self@ =~= (Work {
                uploads: if before.jobs[j as int].upload {
                    before.uploads.push(j)
                } else {
                    before.uploads
                },
                ..before
            }));
            j += 1;
        }
        if j < self.jobs.len() {
            assert(self@.jobs[j as int] == self.jobs@[j as int]@);
            self.phase = Phase::Making { job: j };
            Action::MakeDir(self.jobs[j].dir.clone())
        } else {
            self.enter_uploads()
        }
    }

    /// Goes on when the files of the job `j` are done.
    fn leave_job(&mut self, j: usize) -> (a: Action)
        requires
            feasible(old(self)@.jobs),
            within(old(self)@.p),
            j < old(self)@.jobs.len(),
            picked(old(self)@.jobs, old(self)@.uploads, j as int),
            counted(old(self)@, j as int, old(self)@.jobs[j as int].srcs.len() as int),
        ensures
            (final(self)@, a@) == leave_job(old(self)@, j as int),
            wf(final(self)@),
    {
        let ghost was = self@;
        proof {
            assert(was.jobs[j as int] == self.jobs@[j as int]@);
            lemma_moves_prefix(was.jobs, j as int);
        }
        if self.jobs[j].srcs.len() > 0 {
            let mut s = self.jobs[j].label.clone();
            s.append("  ->  ");
            s.append(decimal(self.jobs[j].srcs.len() as u64).as_str());
            s.append(" files");
            self.progress.push_log(s);
        }
        if self.jobs[j].upload {
            self.uploads.push(j);
        }
        self.enter_job(j + 1)
    }

    /// Goes on to the file `i` of the job `j`.
    fn enter_src(&mut self, j: usize, i: usize) -> (a: Action)
        requires
            feasible(old(self)@.jobs),
            within(old(self)@.p),
            j < old(self)@.jobs.len(),
            i <= old(self)@.jobs[j as int].srcs.len(),
            picked(old(self)@.jobs, old(self)@.uploads, j as int),
            counted(old(self)@, j as int, i as int),
        ensures
            (final(self)@, a@) == enter_src(old(self)@, j as int, i as int),
            wf(final(self)@),
    {
        let ghost was = self@;
        assert(was.jobs[j as int] == self.jobs@[j as int]@);
        if i < self.jobs[j].srcs.len() {
            assert(was.jobs[j as int].srcs[i as int] == self.jobs@[j as int].srcs@[i as int]@);
            let name = match file_name(self.jobs[j].srcs[i].as_str()) {
                Some(n) => n,
                None => String::new(),
            };
            let mut cur = name.clone();
            cur.append(" → ");
            cur.append(self.jobs[j].label.as_str());
            let dst = destination(self.jobs[j].dir.as_str(), name.as_str(), 0);
            self.progress.current = cur;
            self.phase = Phase::Probing { job: j, src: i, tries: 0 };
            Action::Probe(dst)
        } else {
            self.leave_job(j)
        }
    }

    /// Whether `e` can be how the last step went.
    pub fn accepts(&self, e: &Event) -> (r: bool)
        ensures
            r == answers(self@, e@),
    {
        match (&self.phase, e) {
            (Phase::Start, Event::Begin) => true,
            (Phase::Making { .. }, Event::Made(_)) => true,
            (Phase::Probing { tries, .. }, Event::Probed(taken)) => !*taken || *tries < u64::MAX,
            (Phase::Sending { .. }, Event::Transferred(_)) => true,
            (Phase::Uploading { .. }, Event::Uploaded(_)) => true,
            _ => false,
        }
    }

    /// Takes note of a line that an upload printed while it goes on.
    pub fn note_line(&mut self, line: &str, frac: Option<u64>)
        requires
            wf(old(self)@),
        ensures
            final(self)@ == (Work { p: noted(old(self)@.p, line@, frac), ..old(self)@ }),
            wf(final(self)@),
    {
        let ghost was = self@;
        self.progress.note_line(line, frac);
        proof {
            if told(was) {
                lemma_told_on(was, self@);
            }
        }
    }

    /// Takes note of how the last step went, and says what to do next.
    pub fn step(&mut self, e: Event) -> (a: Action)
        requires
            wf(old(self)@),
            answers(old(self)@, e@),
        ensures
            (final(self)@, a@) == step(old(self)@, e@),
            wf(final(self)@),
    {
        let ghost was = self@;
        match (self.phase, e) {
            (Phase::Start, Event::Begin) => {
                assert(was.jobs.take(0) == Seq::<Task>::empty());
                self.enter_job(0)
            },
            (Phase::Making { job }, Event::Made(err)) => {
                assert(was.jobs[job as int] == self.jobs@[job as int]@);
                proof {
                    lemma_moves_prefix(was.jobs, job as int);
                    lemma_moves_prefix(was.jobs, job + 1);
                }
                match err {
                    None => self.enter_src(job, 0),
                    Some(t) => {
                        let mut s = copy_of("ERR mkdir ");
                        s.append(self.jobs[job].dir.as_str());
                        s.append(": ");
                        s.append(t.as_str());
                        let n: usize = self.jobs[job].srcs.len();
                        self.progress.errors = self.progress.errors + n;
                        self.progress.push_log(s);
                        self.enter_job(job + 1)
                    },
                }
            },
            (Phase::Probing { job, src, tries }, Event::Probed(taken)) => {
                assert(was.jobs[job as int] == self.jobs@[job as int]@);
                assert(was.jobs[job as int].srcs[src as int]
                    == self.jobs@[job as int].srcs@[src as int]@);
                let name = match file_name(self.jobs[job].srcs[src].as_str()) {
                    Some(n) => n,
                    None => String::new(),
                };
                if taken {
                    let dst = destination(self.jobs[job].dir.as_str(), name.as_str(), tries + 1);
                    self.phase = Phase::Probing { job, src, tries: tries + 1 };
                    Action::Probe(dst)
                } else {
                    let dst = destination(self.jobs[job].dir.as_str(), name.as_str(), tries);
                    self.phase = Phase::Sending { job, src };
                    Action::Transfer {
                        src: self.jobs[job].srcs[src].clone(),
                        dst,
                        do_move: self.do_move,
                    }
                }
            },
            (Phase::Sending { job, src }, Event::Transferred(err)) => {
                assert(was.jobs[job as int] == self.jobs@[job as int]@);
                assert(was.jobs[job as int].srcs[src as int]
                    == self.jobs@[job as int].srcs@[src as int]@);
                proof {
                    lemma_moves_prefix(was.jobs, job as int);
                    lemma_moves_prefix(was.jobs, job + 1);
                }
                match err {
                    None => {
                        self.progress.done = self.progress.done + 1;
                    },
                    Some(t) => {
                        self.progress.errors = self.progress.errors + 1;
                        if self.progress.log.len() < 8 {
                            let mut s = copy_of("ERR ");
                            s.append(self.jobs[job].srcs[src].as_str());
                            s.append(": ");
                            s.append(t.as_str());
                            self.progress.push_log(s);
                        }
                    },
                }
                self.enter_src(job, src + 1)
            },
            (Phase::Uploading { at }, Event::Uploaded(err)) => {
                let k: usize = self.uploads[at];
                assert(was.jobs[k as int] == self.jobs@[k as int]@);
                match err {
                    None => {
                        let mut s = copy_of("uploaded  ");
                        s.append(what_text(&self.jobs[k]).as_str());
                        self.progress.done = self.progress.done + 1;
                        self.progress.push_log(s);
                    },
                    Some(t) => {
                        let mut s = copy_of("UPLOAD ERR ");
                        s.append(self.jobs[k].label.as_str());
                        s.append(": ");
                        s.append(t.as_str());
                        self.progress.errors = self.progress.errors + 1;
                        self.progress.push_log(s);
                    },
                }
                self.progress.frac = 0;
                proof {
                    lemma_told_on(was, self@);
                }
                self.enter_upload(at + 1)
            },
            _ => Action::Finish,
        }
    }
}

/// The first job whose files are not all done.
pub open spec fn reached(w: Work) -> int {
    match w.phase {
        Phase::Start => 0,
        Phase::Making { job } => job as int,
        Phase::Probing { job, .. } => job as int,
        Phase::Sending { job, .. } => job as int,
        Phase::Uploading { .. } => w.jobs.len() as int,
        Phase::Over => w.jobs.len() as int,
    }
}

/// The upload of the folder at `at` in the list of uploads.
pub open spec fn uploading(w: Work, at: int) -> Act {
    let t = w.jobs[w.uploads[at] as int];
    Act::Upload {
        dir: t.dir,
        dest: w.dest + "/"@ + t.label,
        files: t.upload_files,
        at: at as usize,
    }
}

/// Whether what is to be done is what the phase says.
spec fn consistent(w: Work, a: Act) -> bool {
    match w.phase {
        Phase::Start => false,
        Phase::Making { .. } => a is MakeDir,
        Phase::Probing { job, src, tries } => a == Act::Probe(
            place(w.jobs[job as int], src as int, tries as nat),
        ),
        Phase::Sending { .. } => a is Transfer,
        Phase::Uploading { at } => at < w.uploads.len() && a == uploading(w, at as int),
        Phase::Over => a is Finish && w.p.finished,
    }
}

proof fn lemma_enter_job(w: Work, j: int)
    requires
        feasible(w.jobs),
        0 <= j <= w.jobs.len(),
    ensures
        ({
            let (v, a) = enter_job(w, j);
            &&& consistent(v, a)
            &&& !(a is Transfer)
            &&& v.jobs == w.jobs
            &&& v.do_move == w.do_move
            &&& v.dest == w.dest
            &&& reached(v) >= j
            &&& w.uploads.is_prefix_of(v.uploads)
            &&& forall|k: int| w.uploads.len() <= k < v.uploads.len() ==> #[trigger] v.uploads[k] >= j
            &&& v.phase is Uploading ==> v.phase->at == 0
        }),
    decreases w.jobs.len() - j,
{
    if j < w.jobs.len() && w.jobs[j].srcs.len() == 0 {
        lemma_leave_job(w, j);
    }
}

proof fn lemma_leave_job(w: Work, j: int)
    requires
        feasible(w.jobs),
        0 <= j < w.jobs.len(),
    ensures
        ({
            let (v, a) = leave_job(w, j);
            &&& consistent(v, a)
            &&& !(a is Transfer)
            &&& v.jobs == w.jobs
            &&& v.do_move == w.do_move
            &&& v.dest == w.dest
            &&& reached(v) >= j
            &&& w.uploads.is_prefix_of(v.uploads)
            &&& forall|k: int| w.uploads.len() <= k < v.uploads.len() ==> #[trigger] v.uploads[k] >= j
            &&& v.phase is Uploading ==> v.phase->at == 0
        }),
    decreases w.jobs.len() - j, 0int,
{
    let u = job_done(w, j);
    lemma_enter_job(u, j + 1);
    let v = leave_job(w, j).0;
    assert(v == enter_job(u, j + 1).0);
    assert forall|k: int| w.uploads.len() <= k < v.uploads.len() implies #[trigger] v.uploads[k] >= j by {
        if k < u.uploads.len() {
            assert(v.uploads[k] == u.uploads[k]);
        }
    }
}

proof fn lemma_step(w: Work, e: Ev)
    requires
        wf(w),
        answers(w, e),
    ensures
        ({
            let (v, a) = step(w, e);
            &&& consistent(v, a)
            &&& a is Transfer ==> e == Ev::Probed(false)
            &&& v.jobs == w.jobs
            &&& v.do_move == w.do_move
            &&& v.dest == w.dest
            &&& reached(v) >= reached(w)
            &&& w.uploads.is_prefix_of(v.uploads)
            &&& forall|k: int|
                w.uploads.len() <= k < v.uploads.len() ==> #[trigger] v.uploads[k] >= reached(w)
            &&& v.phase is Uploading ==> match w.phase {
                Phase::Uploading { at } => v.phase->at == at + 1,
                _ => v.phase->at == 0,
            }
        }),
{
    match (w.phase, e) {
        (Phase::Start, Ev::Begin) => {
            lemma_enter_job(w, 0);
        },
        (Phase::Making { job }, Ev::Made(err)) => {
            if let Some(x) = err {
                lemma_enter_job(job_unmade(w, job as int, x), job + 1);
            }
        },
        (Phase::Sending { job, src }, Ev::Transferred(err)) => {
            let j = job as int;
            let i = src as int;
            lemma_moves_prefix(w.jobs, j);
            lemma_moves_prefix(w.jobs, j + 1);
            if i + 1 == w.jobs[j].srcs.len() {
                lemma_leave_job(file_sent(w, j, i, err), j);
            }
        },
        _ => {},
    }
}

/// What the work is stays as it is: the jobs, whether files are moved or copied, and where
/// uploads go.
pub proof fn lemma_step_keeps(w: Work, e: Ev)
    requires
        wf(w),
        answers(w, e),
    ensures
        step(w, e).0.jobs == w.jobs,
        step(w, e).0.do_move == w.do_move,
        step(w, e).0.dest == w.dest,
{
    lemma_step(w, e);
}

/// A file only ever goes to a place that was looked at just before and found free: the last
/// action was to look at that very place, and nothing was there.
pub proof fn lemma_only_free_places(w: Work, first: Ev, second: Ev)
    requires
        wf(w),
        answers(w, first),
        answers(step(w, first).0, second),
    ensures
        match step(step(w, first).0, second).1 {
            Act::Transfer { dst, do_move, .. } => {
                &&& second == Ev::Probed(false)
                &&& step(w, first).1 == Act::Probe(dst)
                &&& do_move == w.do_move
            },
            _ => true,
        },
{
    lemma_step(w, first);
    lemma_wf_kept(w, first);
    lemma_step(step(w, first).0, second);
}

proof fn lemma_wf_enter_job(w: Work, j: int)
    requires
        feasible(w.jobs),
        within(w.p),
        picked(w.jobs, w.uploads, j),
        counted(w, j, 0),
    ensures
        wf(enter_job(w, j).0),
    decreases w.jobs.len() - j,
{
    if j < w.jobs.len() {
        if w.jobs[j].srcs.len() == 0 {
            lemma_wf_leave_job(w, j);
        }
    } else {
        assert(w.jobs.take(j) == w.jobs);
        lemma_enter_uploads(w);
    }
}

proof fn lemma_wf_leave_job(w: Work, j: int)
    requires
        feasible(w.jobs),
        within(w.p),
        0 <= j < w.jobs.len(),
        picked(w.jobs, w.uploads, j),
        counted(w, j, w.jobs[j].srcs.len() as int),
    ensures
        wf(leave_job(w, j).0),
    decreases w.jobs.len() - j, 0int,
{
    lemma_moves_prefix(w.jobs, j);
    lemma_wf_enter_job(job_done(w, j), j + 1);
}

/// What holds of the work holds after every step. So of the files before the one that is being
/// worked on each was counted once, as done or as failed.
pub proof fn lemma_wf_kept(w: Work, e: Ev)
    requires
        wf(w),
        answers(w, e),
    ensures
        wf(step(w, e).0),
{
    match (w.phase, e) {
        (Phase::Start, Ev::Begin) => {
            assert(w.jobs.take(0) == Seq::<Task>::empty());
            lemma_wf_enter_job(w, 0);
        },
        (Phase::Making { job }, Ev::Made(err)) => {
            lemma_moves_prefix(w.jobs, job as int);
            if let Some(x) = err {
                lemma_wf_enter_job(job_unmade(w, job as int, x), job + 1);
            }
        },
        (Phase::Sending { job, src }, Ev::Transferred(err)) => {
            let j = job as int;
            let i = src as int;
            lemma_moves_prefix(w.jobs, j);
            lemma_moves_prefix(w.jobs, j + 1);
            if i + 1 == w.jobs[j].srcs.len() {
                lemma_wf_leave_job(file_sent(w, j, i, err), j);
            }
        },
        (Phase::Uploading { at }, Ev::Uploaded(err)) => {
            let u = folder_sent(w, at as int, err);
            lemma_told_on(w, u);
            lemma_enter_upload(u, at + 1);
        },
        _ => {},
    }
}

/// A folder that could not be made is not uploaded.
pub proof fn lemma_unmade_not_uploaded(w: Work, err: Seq<char>)
    requires
        wf(w),
        w.phase is Making,
    ensures
        !step(w, Ev::Made(Some(err))).0.uploads.contains(w.phase->Making_job),
{
    let job = w.phase->Making_job;
    let u = job_unmade(w, job as int, err);
    lemma_enter_job(u, job + 1);
    let v = enter_job(u, job + 1).0;
    assert forall|k: int| 0 <= k < v.uploads.len() implies v.uploads[k] != job by {
        if k < w.uploads.len() {
            assert(v.uploads[k] == w.uploads[k]);
        }
    }
}

/// Whether the folder of a job that was left behind is uploaded does not change any more.
pub proof fn lemma_uploads_settled(w: Work, e: Ev, j: usize)
    requires
        wf(w),
        answers(w, e),
        j < reached(w),
    ensures
        step(w, e).0.uploads.contains(j) == w.uploads.contains(j),
        j < reached(step(w, e).0),
{
    lemma_step(w, e);
    let v = step(w, e).0;
    if w.uploads.contains(j) {
        let k = choose|k: int| 0 <= k < w.uploads.len() && w.uploads[k] == j;
        assert(v.uploads[k] == j);
    }
    if v.uploads.contains(j) {
        let k = choose|k: int| 0 <= k < v.uploads.len() && v.uploads[k] == j;
        if k < w.uploads.len() {
            assert(w.uploads[k] == j);
        }
    }
}

/// Only folders that are to be uploaded are, each to the folder of its name at the destination,
/// and with the files that were chosen.
pub proof fn lemma_uploads_as_planned(w: Work, e: Ev)
    requires
        wf(w),
        answers(w, e),
    ensures
        match step(w, e).1 {
            Act::Upload { dir, dest, files, .. } => exists|j: int|
                {
                    &&& 0 <= j < w.jobs.len()
                    &&& (#[trigger] w.jobs[j]).upload
                    &&& dir == w.jobs[j].dir
                    &&& dest == w.dest + "/"@ + w.jobs[j].label
                    &&& files == w.jobs[j].upload_files
                },
            _ => true,
        },
{
    lemma_step(w, e);
    lemma_wf_kept(w, e);
    let (v, a) = step(w, e);
    if a is Upload {
        let at = v.phase->Uploading_at as int;
        let j = v.uploads[at] as int;
        assert(w.jobs[j].upload);
    }
}

/// The uploads are numbered one after the other from 0, so no two have the same number.
pub proof fn lemma_uploads_numbered(w: Work, e: Ev)
    requires
        wf(w),
        answers(w, e),
    ensures
        match step(w, e).1 {
            Act::Upload { at, .. } => {
                &&& step(w, e).0.phase == (Phase::Uploading { at })
                &&& match w.phase {
                    Phase::Uploading { at: before } => at == before + 1,
                    _ => at == 0,
                }
            },
            _ => true,
        },
{
    lemma_step(w, e);
}

/// However a step goes, the work goes on: what is to be done next can be answered, and only the
/// end cannot. A place can be found taken so often as can be counted.
pub proof fn lemma_goes_on(w: Work, e: Ev, err: Option<Seq<char>>, taken: bool)
    requires
        wf(w),
        answers(w, e),
    ensures
        ({
            let (v, a) = step(w, e);
            match a {
                Act::MakeDir(_) => answers(v, Ev::Made(err)),
                Act::Probe(_) => v.phase is Probing && ((taken ==> v.phase->tries < u64::MAX)
                    ==> answers(v, Ev::Probed(taken))),
                Act::Transfer { .. } => answers(v, Ev::Transferred(err)),
                Act::Upload { .. } => answers(v, Ev::Uploaded(err)),
                Act::Finish => v.phase == Phase::Over && v.p.finished,
            }
        }),
{
    lemma_step(w, e);
}

/// How many steps the jobs from `j` on take at most before the uploads, but for places that are
/// taken.
pub open spec fn ahead(jobs: Seq<Task>, j: int) -> nat
    decreases jobs.len() - j,
{
    if j < jobs.len() {
        2 + 2 * jobs[j].srcs.len() + ahead(jobs, j + 1)
    } else {
        0
    }
}

/// How many steps are left at most, but for places that are taken.
pub open spec fn left(w: Work) -> int {
    let n = w.jobs.len() as int;
    match w.phase {
        Phase::Start => ahead(w.jobs, 0) + n + 2,
        Phase::Making { job } => ahead(w.jobs, job as int) + n + 1,
        Phase::Probing { job, src, .. } => ahead(w.jobs, job as int) + n - 2 * src,
        Phase::Sending { job, src } => ahead(w.jobs, job as int) + n - 1 - 2 * src,
        Phase::Uploading { at } => n - at,
        Phase::Over => 0,
    }
}

proof fn lemma_left_enter_job(w: Work, j: int)
    requires
        feasible(w.jobs),
        0 <= j <= w.jobs.len(),
    ensures
        0 <= left(enter_job(w, j).0) <= ahead(w.jobs, j) + w.jobs.len() + 1,
    decreases w.jobs.len() - j,
{
    if j < w.jobs.len() && w.jobs[j].srcs.len() == 0 {
        lemma_left_leave_job(w, j);
    }
}

proof fn lemma_left_leave_job(w: Work, j: int)
    requires
        feasible(w.jobs),
        0 <= j < w.jobs.len(),
    ensures
        0 <= left(leave_job(w, j).0) <= ahead(w.jobs, j + 1) + w.jobs.len() + 1,
    decreases w.jobs.len() - j, 0int,
{
    lemma_left_enter_job(job_done(w, j), j + 1);
}

/// The work comes to its end: every step brings it nearer, but for a place that is found taken.
pub proof fn lemma_work_ends(w: Work, e: Ev)
    requires
        wf(w),
        answers(w, e),
    ensures
        e == Ev::Probed(true) ==> left(step(w, e).0) == left(w),
        e != Ev::Probed(true) ==> 0 <= left(step(w, e).0) < left(w),
{
    match (w.phase, e) {
        (Phase::Start, Ev::Begin) => {
            lemma_left_enter_job(w, 0);
        },
        (Phase::Making { job }, Ev::Made(err)) => {
            if let Some(x) = err {
                lemma_left_enter_job(job_unmade(w, job as int, x), job + 1);
            }
        },
        (Phase::Sending { job, src }, Ev::Transferred(err)) => {
            let j = job as int;
            let i = src as int;
            lemma_moves_prefix(w.jobs, j);
            lemma_moves_prefix(w.jobs, j + 1);
            if i + 1 == w.jobs[j].srcs.len() {
                lemma_left_leave_job(file_sent(w, j, i, err), j);
            }
        },
        _ => {},
    }
}

/// When the moves are over, the numbers that are told add up to the files that were to move.
pub proof fn lemma_moves_add_up(w: Work)
    requires
        wf(w),
        w.phase is Uploading || w.phase is Over,
        moves(w.jobs) > 0,
    ensures
        exists|d: nat, f: nat|
            d + f == moves(w.jobs) && w.p.log.contains(#[trigger] moves_text(w.do_move, d, f)),
{
}

/// What is asked for is what the plan says of the job and the file that are worked on: to make
/// the folder of a job with files, to look for a place in that folder under the file's own name
/// or that name numbered, and to send just that file to the place that was looked at. The
/// numbers are tried one after the other.
pub proof fn lemma_asks_as_planned(w: Work, e: Ev)
    requires
        wf(w),
        answers(w, e),
    ensures
        match (step(w, e).1, step(w, e).0.phase) {
            (Act::MakeDir(d), Phase::Making { job }) => {
                &&& job < w.jobs.len()
                &&& w.jobs[job as int].srcs.len() > 0
                &&& d == w.jobs[job as int].dir
            },
            (Act::Probe(p), Phase::Probing { job, src, tries }) => {
                &&& job < w.jobs.len() && src < w.jobs[job as int].srcs.len()
                &&& p == joined(
                    w.jobs[job as int].dir,
                    numbered(file_name_of(w.jobs[job as int].srcs[src as int])->0, tries as nat),
                )
                &&& match w.phase {
                    Phase::Making { job: j } => j == job && src == 0 && tries == 0,
                    Phase::Probing { job: j, src: i, tries: m } => j == job && i == src && tries == m
                        + 1 && e == Ev::Probed(true),
                    Phase::Sending { job: j, src: i } => j == job && src == i + 1 && tries == 0,
                    _ => false,
                }
            },
            (Act::Transfer { src: from, dst, do_move }, Phase::Sending { job, src }) => {
                &&& job < w.jobs.len() && src < w.jobs[job as int].srcs.len()
                &&& e == Ev::Probed(false)
                &&& from == w.jobs[job as int].srcs[src as int]
                &&& do_move == w.do_move
                &&& match w.phase {
                    Phase::Probing { job: j, src: i, tries } => {
                        &&& j == job && i == src
                        &&& dst == joined(
                            w.jobs[job as int].dir,
                            numbered(
                                file_name_of(w.jobs[job as int].srcs[src as int])->0,
                                tries as nat,
                            ),
                        )
                    },
                    _ => false,
                }
            },
            (Act::Upload { .. }, Phase::Uploading { .. }) => true,
            (Act::Finish, Phase::Over) => true,
            _ => false,
        },
{
    lemma_step(w, e);
    lemma_wf_kept(w, e);
    match (w.phase, e) {
        (Phase::Start, Ev::Begin) => {
            lemma_made_of(w, 0);
        },
        (Phase::Making { job }, Ev::Made(err)) => {
            if let Some(x) = err {
                lemma_made_of(job_unmade(w, job as int, x), job + 1);
            }
        },
        (Phase::Sending { job, src }, Ev::Transferred(err)) => {
            let j = job as int;
            let u = file_sent(w, j, src as int, err);
            lemma_moves_prefix(w.jobs, j);
            lemma_moves_prefix(w.jobs, j + 1);
            if src + 1 == w.jobs[j].srcs.len() {
                lemma_made_of(job_done(u, j), j + 1);
            }
        },
        _ => {},
    }
}

/// Entering a job asks for its folder, for an upload, or for nothing more.
proof fn lemma_made_of(w: Work, j: int)
    requires
        feasible(w.jobs),
        0 <= j <= w.jobs.len(),
    ensures
        ({
            let (v, a) = enter_job(w, j);
            &&& !(a is Probe) && !(a is Transfer)
            &&& a is MakeDir ==> {
                &&& v.phase is Making
                &&& v.phase->Making_job < w.jobs.len()
                &&& w.jobs[v.phase->Making_job as int].srcs.len() > 0
                &&& a->MakeDir_0 == w.jobs[v.phase->Making_job as int].dir
            }
        }),
    decreases w.jobs.len() - j,
{
    if j < w.jobs.len() && w.jobs[j].srcs.len() == 0 {
        let u = job_done(w, j);
        lemma_made_of(u, j + 1);
        assert(leave_job(w, j) == enter_job(u, j + 1));
    }
}

/// When the last file of a job that is to be uploaded is done, however it went, the job is among
/// the uploads.
pub proof fn lemma_done_job_is_uploaded(w: Work, err: Option<Seq<char>>)
    requires
        wf(w),
        w.phase is Sending,
        w.phase->Sending_src + 1 == w.jobs[w.phase->Sending_job as int].srcs.len(),
        w.jobs[w.phase->Sending_job as int].upload,
    ensures
        step(w, Ev::Transferred(err)).0.uploads.contains(w.phase->Sending_job),
{
    let job = w.phase->Sending_job;
    let j = job as int;
    let u = file_sent(w, j, w.phase->Sending_src as int, err);
    let d = job_done(u, j);
    lemma_enter_job(d, j + 1);
    let v = step(w, Ev::Transferred(err)).0;
    assert(v == enter_job(d, j + 1).0);
    let k = w.uploads.len() as int;
    assert(d.uploads[k] == job);
    assert(v.uploads[k] == job);
}

/// The work `w` after its steps went as `es` say.
pub open spec fn played(w: Work, es: Seq<Ev>) -> Work
    decreases es.len(),
{
    if es.len() == 0 {
        w
    } else {
        step(played(w, es.drop_last()), es.last()).0
    }
}

/// What was asked for while the steps of `w` went as `es` say.
pub open spec fn asked(w: Work, es: Seq<Ev>) -> Seq<Act>
    decreases es.len(),
{
    if es.len() == 0 {
        seq![]
    } else {
        asked(w, es.drop_last()).push(step(played(w, es.drop_last()), es.last()).1)
    }
}

/// Whether the steps of `w` can go as `es` say.
pub open spec fn plausible(w: Work, es: Seq<Ev>) -> bool
    decreases es.len(),
{
    es.len() == 0 || (plausible(w, es.drop_last()) && answers(played(w, es.drop_last()), es.last()))
}

/// The jobs whose folders could not be made.
pub open spec fn unmade(w: Work, es: Seq<Ev>) -> Set<int>
    decreases es.len(),
{
    if es.len() == 0 {
        Set::empty()
    } else {
        let before = unmade(w, es.drop_last());
        match (played(w, es.drop_last()).phase, es.last()) {
            (Phase::Making { job }, Ev::Made(Some(_))) => before.insert(job as int),
            _ => before,
        }
    }
}

/// How many files were moved or copied.
pub open spec fn files_done(es: Seq<Ev>) -> nat {
    es.filter(|e: Ev| e == Ev::Transferred(None)).len()
}

/// How many folders were uploaded.
pub open spec fn folders_done(es: Seq<Ev>) -> nat {
    es.filter(|e: Ev| e == Ev::Uploaded(None)).len()
}

/// The files that were asked to be moved or copied, in that order.
pub open spec fn sources(acts: Seq<Act>) -> Seq<Seq<char>>
    decreases acts.len(),
{
    if acts.len() == 0 {
        seq![]
    } else {
        match acts.last() {
            Act::Transfer { src, .. } => sources(acts.drop_last()).push(src),
            _ => sources(acts.drop_last()),
        }
    }
}

/// The uploads that were asked for, in that order.
pub open spec fn uploads_asked(acts: Seq<Act>) -> Seq<Act> {
    acts.filter(|a: Act| a is Upload)
}

/// The files of the jobs before `j` whose folders are not among `bad`, one job after the other.
pub open spec fn files_of(jobs: Seq<Task>, bad: Set<int>, j: int) -> Seq<Seq<char>>
    decreases j,
{
    if j <= 0 {
        seq![]
    } else {
        files_of(jobs, bad, j - 1) + (if bad.contains(j - 1) {
            seq![]
        } else {
            jobs[j - 1].srcs
        })
    }
}

/// The jobs before `j` that are to be uploaded and whose folders are not among `bad`.
pub open spec fn uploads_of(jobs: Seq<Task>, bad: Set<int>, j: int) -> Seq<int>
    decreases j,
{
    if j <= 0 {
        seq![]
    } else if jobs[j - 1].upload && !bad.contains(j - 1) {
        uploads_of(jobs, bad, j - 1).push(j - 1)
    } else {
        uploads_of(jobs, bad, j - 1)
    }
}

/// Whether `bad` holds only jobs before `j`.
spec fn below(bad: Set<int>, j: int) -> bool {
    forall|k: int| bad.contains(k) ==> k < j
}

/// Whether `u` are just the jobs `l`.
spec fn same_jobs(u: Seq<usize>, l: Seq<int>) -> bool {
    u.len() == l.len() && forall|k: int| 0 <= k < u.len() ==> #[trigger] u[k] == l[k]
}

proof fn lemma_uploads_of(jobs: Seq<Task>, bad: Set<int>, more: int, j: int)
    requires
        j <= more,
    ensures
        files_of(jobs, bad.insert(more), j) == files_of(jobs, bad, j),
        uploads_of(jobs, bad.insert(more), j) == uploads_of(jobs, bad, j),
    decreases j,
{
    if j > 0 {
        lemma_uploads_of(jobs, bad, more, j - 1);
    }
}

proof fn lemma_uploads_enter(w: Work, bad: Set<int>, j: int)
    requires
        feasible(w.jobs),
        0 <= j <= w.jobs.len(),
        below(bad, j),
        same_jobs(w.uploads, uploads_of(w.jobs, bad, j)),
    ensures
        ({
            let (v, a) = enter_job(w, j);
            let r = reached(v);
            &&& j <= r <= w.jobs.len()
            &&& v.jobs == w.jobs && v.dest == w.dest && v.do_move == w.do_move
            &&& same_jobs(v.uploads, uploads_of(w.jobs, bad, r))
            &&& files_of(w.jobs, bad, r) == files_of(w.jobs, bad, j)
            &&& moves(w.jobs.take(r)) == moves(w.jobs.take(j))
            &&& match v.phase {
                Phase::Making { .. } => {
                    &&& !(a is Transfer) && !(a is Upload)
                    &&& v.p.done == w.p.done && v.p.errors == w.p.errors
                },
                Phase::Uploading { at } => {
                    &&& at == 0 && a is Upload && a == uploading(v, 0)
                    &&& v.p.done == 0 && v.p.errors == w.p.errors
                    &&& v.uploads.len() > 0
                    &&& moves(w.jobs) > 0 ==> v.p.log.contains(
                        moves_text(w.do_move, w.p.done, w.p.errors),
                    )
                },
                Phase::Over => {
                    &&& !(a is Transfer) && !(a is Upload)
                    &&& v.p.done == w.p.done && v.p.errors == w.p.errors
                    &&& v.uploads.len() == 0
                    &&& moves(w.jobs) > 0 ==> v.p.log.contains(
                        moves_text(w.do_move, w.p.done, w.p.errors),
                    )
                },
                _ => false,
            }
        }),
    decreases w.jobs.len() - j,
{
    let (v, a) = enter_job(w, j);
    if j < w.jobs.len() {
        lemma_moves_prefix(w.jobs, j);
        if w.jobs[j].srcs.len() == 0 {
            let u = job_done(w, j);
            assert(!bad.contains(j));
            assert(files_of(w.jobs, bad, j + 1) == files_of(w.jobs, bad, j) + w.jobs[j].srcs);
            assert(files_of(w.jobs, bad, j + 1) == files_of(w.jobs, bad, j));
            lemma_uploads_enter(u, bad, j + 1);
            assert(leave_job(w, j) == enter_job(u, j + 1));
        }
    } else {
        let m = moves_text(w.do_move, w.p.done, w.p.errors);
        if moves(w.jobs) > 0 {
            let l = w.p.log.push(m);
            assert(l[w.p.log.len() as int] == m);
            assert(v.p.log[w.p.log.len() as int] == m);
        }
    }
}

/// How far the run has come, and what was asked for so far.
spec fn on_course(w: Work, es: Seq<Ev>) -> bool {
    let v = played(w, es);
    let bad = unmade(w, es);
    let got = sources(asked(w, es));
    let ups = uploads_asked(asked(w, es));
    let n = w.jobs.len() as int;
    &&& wf(v)
    &&& v.jobs == w.jobs && v.dest == w.dest && v.do_move == w.do_move
    &&& below(bad, reached(v))
    &&& same_jobs(v.uploads, uploads_of(w.jobs, bad, reached(v)))
    &&& match v.phase {
        Phase::Start => {
            &&& got == files_of(w.jobs, bad, 0)
            &&& ups.len() == 0
            &&& v.p.done == files_done(es) && v.p.errors == 0
            &&& folders_done(es) == 0
        },
        Phase::Making { job } => {
            &&& got == files_of(w.jobs, bad, job as int)
            &&& ups.len() == 0
            &&& v.p.done == files_done(es)
            &&& folders_done(es) == 0
        },
        Phase::Probing { job, src, .. } => {
            &&& got == files_of(w.jobs, bad, job as int) + w.jobs[job as int].srcs.take(src as int)
            &&& ups.len() == 0
            &&& v.p.done == files_done(es)
            &&& folders_done(es) == 0
        },
        Phase::Sending { job, src } => {
            &&& got == files_of(w.jobs, bad, job as int) + w.jobs[job as int].srcs.take(src + 1)
            &&& ups.len() == 0
            &&& v.p.done == files_done(es)
            &&& folders_done(es) == 0
        },
        Phase::Uploading { at } => {
            &&& got == files_of(w.jobs, bad, n)
            &&& ups.len() == at + 1
            &&& forall|k: int| 0 <= k <= at ==> #[trigger] ups[k] == uploading(v, k)
            &&& v.p.done == folders_done(es)
            &&& v.p.errors + files_done(es) + folders_done(es) == moves(w.jobs) + at
            &&& moves(w.jobs) > 0 ==> v.p.log.contains(
                moves_text(
                    w.do_move,
                    files_done(es),
                    (moves(w.jobs) - files_done(es)) as nat,
                ),
            )
        },
        Phase::Over => {
            &&& got == files_of(w.jobs, bad, n)
            &&& ups.len() == v.uploads.len()
            &&& forall|k: int| 0 <= k < ups.len() ==> #[trigger] ups[k] == uploading(v, k)
            &&& v.p.done == if ups.len() > 0 {
                folders_done(es)
            } else {
                files_done(es)
            }
            &&& v.p.errors + files_done(es) + folders_done(es) == moves(w.jobs) + ups.len()
            &&& moves(w.jobs) > 0 ==> v.p.log.contains(
                moves_text(
                    w.do_move,
                    files_done(es),
                    (moves(w.jobs) - files_done(es)) as nat,
                ),
            )
        },
    }
}

proof fn lemma_counts(es: Seq<Ev>, e: Ev)
    ensures
        files_done(es.push(e)) == files_done(es) + if e == Ev::Transferred(None) {
            1nat
        } else {
            0
        },
        folders_done(es.push(e)) == folders_done(es) + if e == Ev::Uploaded(None) {
            1nat
        } else {
            0
        },
{
    lemma_filter_push(es, e, |e: Ev| e == Ev::Transferred(None));
    lemma_filter_push(es, e, |e: Ev| e == Ev::Uploaded(None));
}

#[verifier::spinoff_prover]
proof fn lemma_course_start(w: Work, es: Seq<Ev>, e: Ev)
    requires
        on_course(w, es),
        answers(played(w, es), e),
        played(w, es).phase is Start,
    ensures
        on_course(w, es.push(e)),
{
    let fs = es.push(e);
    assert(fs.drop_last() == es);
    let u = played(w, es);
    let (v, a) = step(u, e);
    let bad = unmade(w, es);
    let acts = asked(w, es);
    assert(asked(w, fs) == acts.push(a));
    assert(acts.push(a).drop_last() == acts);
    lemma_filter_push(acts, a, |a: Act| a is Upload);
    lemma_counts(es, e);
    lemma_wf_kept(u, e);
    lemma_step(u, e);
    let n = w.jobs.len() as int;
    assert(w.jobs.take(n) == w.jobs);
    assert(w.jobs.take(0) == Seq::<Task>::empty());
    lemma_uploads_enter(u, bad, 0);
}

#[verifier::spinoff_prover]
proof fn lemma_course_making(w: Work, es: Seq<Ev>, e: Ev)
    requires
        on_course(w, es),
        answers(played(w, es), e),
        played(w, es).phase is Making,
    ensures
        on_course(w, es.push(e)),
{
    let fs = es.push(e);
    assert(fs.drop_last() == es);
    let u = played(w, es);
    let (v, a) = step(u, e);
    let bad = unmade(w, es);
    let acts = asked(w, es);
    assert(asked(w, fs) == acts.push(a));
    assert(acts.push(a).drop_last() == acts);
    lemma_filter_push(acts, a, |a: Act| a is Upload);
    lemma_counts(es, e);
    lemma_wf_kept(u, e);
    lemma_step(u, e);
    let n = w.jobs.len() as int;
    assert(w.jobs.take(n) == w.jobs);
    let j = u.phase->Making_job as int;
    lemma_moves_prefix(w.jobs, j);
    match e {
        Ev::Made(Some(x)) => {
            let worse = bad.insert(j);
            lemma_uploads_of(w.jobs, bad, j, j);
            assert(files_of(w.jobs, worse, j + 1) == files_of(w.jobs, bad, j));
            lemma_uploads_enter(job_unmade(u, j, x), worse, j + 1);
        },
        _ => {
            assert(w.jobs[j].srcs.take(0) == Seq::<Seq<char>>::empty());
            assert(files_of(w.jobs, bad, j) + w.jobs[j].srcs.take(0) == files_of(w.jobs, bad, j));
        },
    }
}

#[verifier::spinoff_prover]
proof fn lemma_course_probing(w: Work, es: Seq<Ev>, e: Ev)
    requires
        on_course(w, es),
        answers(played(w, es), e),
        played(w, es).phase is Probing,
    ensures
        on_course(w, es.push(e)),
{
    let fs = es.push(e);
    assert(fs.drop_last() == es);
    let u = played(w, es);
    let (v, a) = step(u, e);
    let bad = unmade(w, es);
    let acts = asked(w, es);
    assert(asked(w, fs) == acts.push(a));
    assert(acts.push(a).drop_last() == acts);
    lemma_filter_push(acts, a, |a: Act| a is Upload);
    lemma_counts(es, e);
    lemma_wf_kept(u, e);
    lemma_step(u, e);
    let j = u.phase->Probing_job as int;
    let i = u.phase->Probing_src as int;
    if e == Ev::Probed(false) {
        let srcs = w.jobs[j].srcs;
        assert(srcs.take(i).push(srcs[i]) == srcs.take(i + 1));
        assert(files_of(w.jobs, bad, j) + srcs.take(i + 1) == (files_of(w.jobs, bad, j) + srcs.take(
            i,
        )).push(srcs[i]));
    }
}

#[verifier::spinoff_prover]
proof fn lemma_course_sending(w: Work, es: Seq<Ev>, e: Ev)
    requires
        on_course(w, es),
        answers(played(w, es), e),
        played(w, es).phase is Sending,
    ensures
        on_course(w, es.push(e)),
{
    let fs = es.push(e);
    assert(fs.drop_last() == es);
    let u = played(w, es);
    let (v, a) = step(u, e);
    let bad = unmade(w, es);
    let acts = asked(w, es);
    assert(asked(w, fs) == acts.push(a));
    assert(acts.push(a).drop_last() == acts);
    lemma_filter_push(acts, a, |a: Act| a is Upload);
    lemma_counts(es, e);
    lemma_wf_kept(u, e);
    lemma_step(u, e);
    let n = w.jobs.len() as int;
    assert(w.jobs.take(n) == w.jobs);
    let j = u.phase->Sending_job as int;
    let i = u.phase->Sending_src as int;
    let err = e->Transferred_0;
    lemma_moves_prefix(w.jobs, j);
    lemma_moves_prefix(w.jobs, j + 1);
    if i + 1 == w.jobs[j].srcs.len() {
        let d = job_done(file_sent(u, j, i, err), j);
        assert(w.jobs[j].srcs.take(i + 1) == w.jobs[j].srcs);
        assert(!bad.contains(j));
        assert(files_of(w.jobs, bad, j + 1) == files_of(w.jobs, bad, j) + w.jobs[j].srcs);
        lemma_uploads_enter(d, bad, j + 1);
        assert(step(u, e) == enter_job(d, j + 1));
    }
}

#[verifier::spinoff_prover]
proof fn lemma_course_uploading(w: Work, es: Seq<Ev>, e: Ev)
    requires
        on_course(w, es),
        answers(played(w, es), e),
        played(w, es).phase is Uploading,
    ensures
        on_course(w, es.push(e)),
{
    let fs = es.push(e);
    assert(fs.drop_last() == es);
    let u = played(w, es);
    let (v, a) = step(u, e);
    let bad = unmade(w, es);
    let acts = asked(w, es);
    assert(asked(w, fs) == acts.push(a));
    assert(acts.push(a).drop_last() == acts);
    lemma_filter_push(acts, a, |a: Act| a is Upload);
    lemma_counts(es, e);
    lemma_wf_kept(u, e);
    lemma_step(u, e);
    let at = u.phase->Uploading_at;
    lemma_moves_told(u, e, files_done(es));
    let was = uploads_asked(acts);
    let now = uploads_asked(acts.push(a));
    if at + 1 < u.uploads.len() {
        assert(a == uploading(v, at + 1));
        assert(now == was.push(a));
    } else {
        assert(now == was);
    }
}

proof fn lemma_on_course_step(w: Work, es: Seq<Ev>, e: Ev)
    requires
        on_course(w, es),
        answers(played(w, es), e),
    ensures
        on_course(w, es.push(e)),
{
    match played(w, es).phase {
        Phase::Start => lemma_course_start(w, es, e),
        Phase::Making { .. } => lemma_course_making(w, es, e),
        Phase::Probing { .. } => lemma_course_probing(w, es, e),
        Phase::Sending { .. } => lemma_course_sending(w, es, e),
        Phase::Uploading { .. } => lemma_course_uploading(w, es, e),
        Phase::Over => {},
    }
}

proof fn lemma_moves_told(w: Work, e: Ev, d: nat)
    requires
        wf(w),
        w.phase is Uploading,
        answers(w, e),
    ensures
        ({
            let m = moves_text(w.do_move, d, (moves(w.jobs) - d) as nat);
            w.p.log.contains(m) ==> step(w, e).0.p.log.contains(m)
        }),
{
    let m = moves_text(w.do_move, d, (moves(w.jobs) - d) as nat);
    let v = step(w, e).0;
    if w.p.log.contains(m) {
        let k = choose|k: int| 0 <= k < w.p.log.len() && w.p.log[k] == m;
        assert(w.p.log.is_prefix_of(v.p.log));
        assert(v.p.log[k] == m);
    }
}

proof fn lemma_on_course(w: Work, es: Seq<Ev>)
    requires
        wf(w),
        w.phase is Start,
        plausible(w, es),
    ensures
        on_course(w, es),
    decreases es.len(),
{
    reveal(Seq::filter);
    if es.len() > 0 {
        lemma_on_course(w, es.drop_last());
        lemma_on_course_step(w, es.drop_last(), es.last());
        assert(es.drop_last().push(es.last()) == es);
    }
}

/// Over a whole run each file of each job whose folder could be made is asked to be moved or
/// copied once, in the order of the plan, and no other; and the folders that are uploaded are
/// those of the jobs that are to be, but for those that could not be made, each with its own
/// folder, name and files. What is told of the moves and of failures is what came of them.
pub proof fn lemma_whole_run(jobs: Seq<Task>, do_move: bool, dest: Seq<char>, es: Seq<Ev>)
    requires
        feasible(jobs),
        plausible(begun(jobs, do_move, dest), es),
        played(begun(jobs, do_move, dest), es).phase == Phase::Over,
    ensures
        ({
            let w = begun(jobs, do_move, dest);
            let bad = unmade(w, es);
            let n = jobs.len() as int;
            let ups = uploads_asked(asked(w, es));
            let l = uploads_of(jobs, bad, n);
            let end = played(w, es).p;
            &&& sources(asked(w, es)) == files_of(jobs, bad, n)
            &&& ups.len() == l.len()
            &&& forall|k: int|
                0 <= k < ups.len() ==> #[trigger] ups[k] == (Act::Upload {
                    dir: jobs[l[k]].dir,
                    dest: dest + "/"@ + jobs[l[k]].label,
                    files: jobs[l[k]].upload_files,
                    at: k as usize,
                })
            &&& end.errors == moves(jobs) - files_done(es) + l.len() - folders_done(es)
            &&& moves(jobs) > 0 ==> end.log.contains(
                moves_text(do_move, files_done(es), (moves(jobs) - files_done(es)) as nat),
            )
            &&& end.finished
        }),
{
    let w = begun(jobs, do_move, dest);
    lemma_on_course(w, es);
    let v = played(w, es);
    let bad = unmade(w, es);
    let ups = uploads_asked(asked(w, es));
    let l = uploads_of(jobs, bad, jobs.len() as int);
    assert forall|k: int| 0 <= k < ups.len() implies #[trigger] ups[k] == (Act::Upload {
        dir: jobs[l[k]].dir,
        dest: dest + "/"@ + jobs[l[k]].label,
        files: jobs[l[k]].upload_files,
        at: k as usize,
    }) by {
        assert(ups[k] == uploading(v, k));
        assert(v.uploads[k] == l[k]);
    }
    assert(es.len() > 0);
    lemma_on_course(w, es.drop_last());
    lemma_step(played(w, es.drop_last()), es.last());
}

/// Whether the whole that progress is shown against is that of the stage: the files that are to
/// move, or where there are none the jobs, and then the folders that are uploaded.
pub open spec fn measured(w: Work) -> bool {
    match w.phase {
        Phase::Uploading { .. } => w.p.total == w.uploads.len() && w.p.stage
            == "Uploading to Drive"@,
        Phase::Over => true,
        _ => if moves(w.jobs) > 0 {
            w.p.total == moves(w.jobs) && w.p.stage == "Moving files"@
        } else {
            w.p.total == w.jobs.len() && w.p.stage == "Uploading to Drive"@
        },
    }
}

proof fn lemma_measured_enter(w: Work, j: int)
    requires
        feasible(w.jobs),
        0 <= j <= w.jobs.len(),
    ensures
        ({
            let v = enter_job(w, j).0;
            match v.phase {
                Phase::Making { .. } => v.p.total == w.p.total && v.p.stage == w.p.stage,
                Phase::Uploading { .. } => v.p.total == v.uploads.len() && v.p.stage
                    == "Uploading to Drive"@,
                Phase::Over => true,
                _ => false,
            }
        }),
    decreases w.jobs.len() - j,
{
    if j < w.jobs.len() && w.jobs[j].srcs.len() == 0 {
        let u = job_done(w, j);
        lemma_measured_enter(u, j + 1);
        assert(leave_job(w, j) == enter_job(u, j + 1));
    }
}

/// At all times of a run, progress is shown against the whole of its stage.
pub proof fn lemma_run_measured(jobs: Seq<Task>, do_move: bool, dest: Seq<char>, es: Seq<Ev>)
    requires
        feasible(jobs),
        plausible(begun(jobs, do_move, dest), es),
    ensures
        measured(played(begun(jobs, do_move, dest), es)),
        played(begun(jobs, do_move, dest), es).jobs == jobs,
    decreases es.len(),
{
    let b = begun(jobs, do_move, dest);
    if es.len() > 0 {
        let front = es.drop_last();
        let e = es.last();
        let w = played(b, front);
        lemma_run_measured(jobs, do_move, dest, front);
        lemma_on_course(b, front);
        lemma_step(w, e);
        lemma_wf_kept(w, e);
        match (w.phase, e) {
            (Phase::Start, Ev::Begin) => {
                lemma_measured_enter(w, 0);
            },
            (Phase::Making { job }, Ev::Made(err)) => {
                if let Some(x) = err {
                    lemma_measured_enter(job_unmade(w, job as int, x), job + 1);
                }
            },
            (Phase::Sending { job, src }, Ev::Transferred(err)) => {
                let j = job as int;
                let i = src as int;
                lemma_moves_prefix(w.jobs, j);
                lemma_moves_prefix(w.jobs, j + 1);
                if i + 1 == w.jobs[j].srcs.len() {
                    lemma_measured_enter(job_done(file_sent(w, j, i, err), j), j + 1);
                }
            },
            _ => {},
        }
    }
}

/// What is shown as worked on names the file and the folder that it goes to, or the folder that
/// is uploaded and where to.
pub proof fn lemma_shows_what_is_done(w: Work, e: Ev)
    requires
        wf(w),
        answers(w, e),
    ensures
        ({
            let (v, a) = step(w, e);
            match (a, v.phase) {
                (Act::Probe(_), Phase::Probing { job, src, tries }) => tries == 0
                    ==> file_name_of(w.jobs[job as int].srcs[src as int])->0.is_prefix_of(
                    v.p.current,
                ) && w.jobs[job as int].label.is_suffix_of(v.p.current),
                (Act::Upload { dest, .. }, Phase::Uploading { at }) => {
                    let t = w.jobs[v.uploads[at as int] as int];
                    &&& t.upload_files is None ==> dest.is_suffix_of(v.p.current)
                    &&& t.upload_files is Some ==> (dest + " ("@ + dec(t.upload_files->0.len())
                        + " rated files)"@).is_suffix_of(v.p.current)
                },
                _ => true,
            }
        }),
{
    lemma_step(w, e);
    lemma_asks_as_planned(w, e);
    lemma_wf_kept(w, e);
    let (v, a) = step(w, e);
    match (w.phase, e) {
        (Phase::Start, Ev::Begin) => {
            lemma_shown_enter(w, 0);
        },
        (Phase::Making { job }, Ev::Made(err)) => {
            let j = job as int;
            match err {
                None => {
                    lemma_ends_of(src_name(w.jobs[j], 0), " → "@, w.jobs[j].label);
                    assert(v.p.current == src_name(w.jobs[j], 0) + " → "@ + w.jobs[j].label);
                    assert(v.phase == Phase::Probing { job, src: 0, tries: 0 });
                },
                Some(x) => {
                    lemma_shown_enter(job_unmade(w, j, x), j + 1);
                    lemma_made_of(job_unmade(w, j, x), j + 1);
                },
            }
        },
        (Phase::Sending { job, src }, Ev::Transferred(err)) => {
            let j = job as int;
            let i = src as int;
            lemma_moves_prefix(w.jobs, j);
            lemma_moves_prefix(w.jobs, j + 1);
            if i + 1 == w.jobs[j].srcs.len() {
                lemma_shown_enter(job_done(file_sent(w, j, i, err), j), j + 1);
            } else {
                lemma_ends_of(src_name(w.jobs[j], i + 1), " → "@, w.jobs[j].label);
                assert(v.p.current == src_name(w.jobs[j], i + 1) + " → "@ + w.jobs[j].label);
                assert(v.phase == Phase::Probing { job, src: (src + 1) as usize, tries: 0 });
            }
        },
        (Phase::Uploading { at }, Ev::Uploaded(err)) => {
            if at + 1 < w.uploads.len() {
                lemma_upload_shown(w.dest, w.jobs[w.uploads[at + 1] as int]);
            }
        },
        (Phase::Probing { tries, .. }, Ev::Probed(taken)) => {
            if taken {
                assert(v.phase is Probing && v.phase->tries == tries + 1);
            }
        },
        _ => {},
    }
}

proof fn lemma_ends_of(a: Seq<char>, b: Seq<char>, c: Seq<char>)
    ensures
        a.is_prefix_of(a + b + c),
        c.is_suffix_of(a + b + c),
{
}

proof fn lemma_upload_shown(dest: Seq<char>, t: Task)
    ensures
        ({
            let s = "rclone → "@ + dest + "/"@ + what(t);
            let d = dest + "/"@ + t.label;
            &&& t.upload_files is None ==> d.is_suffix_of(s)
            &&& t.upload_files is Some ==> (d + " ("@ + dec(t.upload_files->0.len())
                + " rated files)"@).is_suffix_of(s)
        }),
{
    let s = "rclone → "@ + dest + "/"@ + what(t);
    let d = dest + "/"@ + t.label;
    match t.upload_files {
        Some(l) => {
            let x = d + " ("@ + dec(l.len()) + " rated files)"@;
            assert(s == "rclone → "@ + x);
        },
        None => {
            assert(s == "rclone → "@ + d);
        },
    }
}

proof fn lemma_shown_enter(w: Work, j: int)
    requires
        feasible(w.jobs),
        0 <= j <= w.jobs.len(),
    ensures
        ({
            let (v, a) = enter_job(w, j);
            v.phase is Uploading ==> {
                let t = v.jobs[v.uploads[0] as int];
                v.p.current == "rclone → "@ + w.dest + "/"@ + what(t)
            }
        }),
        ({
            let v = enter_job(w, j).0;
            v.phase is Uploading ==> {
                let t = w.jobs[v.uploads[0] as int];
                let d = w.dest + "/"@ + t.label;
                &&& t.upload_files is None ==> d.is_suffix_of(v.p.current)
                &&& t.upload_files is Some ==> (d + " ("@ + dec(t.upload_files->0.len())
                    + " rated files)"@).is_suffix_of(v.p.current)
            }
        }),
    decreases w.jobs.len() - j,
{
    if j < w.jobs.len() {
        if w.jobs[j].srcs.len() == 0 {
            let u = job_done(w, j);
            lemma_shown_enter(u, j + 1);
            assert(leave_job(w, j) == enter_job(u, j + 1));
        }
    } else {
        let v = enter_job(w, j).0;
        if v.phase is Uploading {
            lemma_upload_shown(w.dest, w.jobs[v.uploads[0] as int]);
        }
    }
}

/// What is told is told in lines behind those told before. A folder that could not be made is
/// told with what went wrong, and so is a file that could not be sent while fewer than eight
/// lines were told, and every upload, behind which nothing of the next is done yet; nothing else
/// is told between the files of a job.
pub proof fn lemma_lines_told(w: Work, e: Ev)
    requires
        wf(w),
        answers(w, e),
    ensures
        ({
            let n = w.p.log.len() as int;
            let l = step(w, e).0.p.log;
            &&& w.p.log.is_prefix_of(l)
            &&& match (w.phase, e) {
                (Phase::Making { job }, Ev::Made(Some(x))) => l.len() > n && l[n] == "ERR mkdir "@
                    + w.jobs[job as int].dir + ": "@ + x,
                (Phase::Making { .. }, Ev::Made(None)) => l == w.p.log,
                (Phase::Probing { .. }, _) => l == w.p.log,
                (Phase::Sending { job, src }, Ev::Transferred(err)) => {
                    let t = w.jobs[job as int];
                    let told = err is Some && n < 8;
                    &&& told ==> l.len() > n && l[n] == "ERR "@ + t.srcs[src as int] + ": "@
                        + err->0
                    &&& src + 1 < t.srcs.len() ==> l.len() == if told {
                        n + 1
                    } else {
                        n
                    }
                    &&& src + 1 == t.srcs.len() ==> {
                        let k = if told {
                            n + 1
                        } else {
                            n
                        };
                        l.len() > k && l[k] == t.label + "  ->  "@ + dec(t.srcs.len()) + " files"@
                    }
                },
                (Phase::Uploading { at }, Ev::Uploaded(err)) => {
                    let t = w.jobs[w.uploads[at as int] as int];
                    &&& l.len() > n
                    &&& match err {
                        Some(x) => l[n] == "UPLOAD ERR "@ + t.label + ": "@ + x,
                        None => ("uploaded  "@ + t.label).is_prefix_of(l[n]),
                    }
                    &&& step(w, e).0.p.frac == 0
                    &&& at + 1 < w.uploads.len() ==> l.len() == n + 1
                    &&& at + 1 == w.uploads.len() ==> l.len() == n + 2 && l[n + 1] == "Uploaded "@
                        + dec(w.uploads.len()) + " folder(s) to "@ + w.dest + "."@
                },
                _ => true,
            }
        }),
{
    match (w.phase, e) {
        (Phase::Start, Ev::Begin) => {
            lemma_log_enter(w, 0);
        },
        (Phase::Making { job }, Ev::Made(err)) => {
            if let Some(x) = err {
                let u = job_unmade(w, job as int, x);
                lemma_log_enter(u, job + 1);
                lemma_prefix_on(w.p.log, u.p.log, step(w, e).0.p.log);
            }
        },
        (Phase::Sending { job, src }, Ev::Transferred(err)) => {
            let j = job as int;
            let i = src as int;
            lemma_moves_prefix(w.jobs, j);
            lemma_moves_prefix(w.jobs, j + 1);
            if i + 1 == w.jobs[j].srcs.len() {
                let d = job_done(file_sent(w, j, i, err), j);
                lemma_log_enter(d, j + 1);
                assert(step(w, e) == enter_job(d, j + 1));
                lemma_prefix_on(w.p.log, d.p.log, step(w, e).0.p.log);
            }
        },
        (Phase::Uploading { at }, Ev::Uploaded(err)) => {
            let t = w.jobs[w.uploads[at as int] as int];
            if err is None {
                let s = "uploaded  "@ + t.label;
                match t.upload_files {
                    Some(l) => {
                        let more = " ("@ + dec(l.len()) + " rated files)"@;
                        assert("uploaded  "@ + what(t) == s + more);
                    },
                    None => {},
                }
                assert(s.is_prefix_of("uploaded  "@ + what(t)));
            }
        },
        _ => {},
    }
}

proof fn lemma_prefix_on(a: Seq<Seq<char>>, b: Seq<Seq<char>>, c: Seq<Seq<char>>)
    requires
        a.is_prefix_of(b),
        b.is_prefix_of(c),
    ensures
        a.is_prefix_of(c),
        b.len() <= c.len(),
        forall|i: int| 0 <= i < b.len() ==> #[trigger] c[i] == b[i],
{
    assert forall|i: int| 0 <= i < b.len() implies #[trigger] c[i] == b[i] by {
        assert(c.subrange(0, b.len() as int)[i] == c[i]);
    }
    assert forall|i: int| 0 <= i < a.len() implies #[trigger] b[i] == a[i] by {
        assert(b.subrange(0, a.len() as int)[i] == b[i]);
    }
    assert(c.subrange(0, a.len() as int) =~= a);
}

proof fn lemma_log_enter(w: Work, j: int)
    requires
        feasible(w.jobs),
        0 <= j <= w.jobs.len(),
    ensures
        w.p.log.is_prefix_of(enter_job(w, j).0.p.log),
    decreases w.jobs.len() - j,
{
    if j < w.jobs.len() && w.jobs[j].srcs.len() == 0 {
        let u = job_done(w, j);
        lemma_log_enter(u, j + 1);
        assert(leave_job(w, j) == enter_job(u, j + 1));
        lemma_prefix_on(w.p.log, u.p.log, enter_job(u, j + 1).0.p.log);
    }
}

/// All work that is planned can be begun, where each file of the occasions has a name and the
/// files and occasions can be counted.
pub proof fn lemma_plan_can_begin(cs: Seq<Cluster>, pictures: Seq<char>, library: bool, min: u8)
    requires
        assigned_files(cs) + cs.len() <= usize::MAX,
        forall|i: int, j: int|
            #![trigger cs[i].files@[j]]
            0 <= i < cs.len() && 0 <= j < cs[i].files@.len() ==> file_name_of(
                cs[i].files@[j].path@,
            ) is Some,
    ensures
        feasible(plan(cs, pictures, library, min)),
{
    let p = plan(cs, pictures, library, min);
    let keep = |c: Cluster| makes_work(c, library);
    let l = cs.filter(keep);
    lemma_plan_complete(cs, pictures, library, min);
    lemma_plan_moves(cs, pictures, library, min);
    cs.lemma_filter_len(keep);
    assert forall|j: int, i: int|
        #![trigger p[j].srcs[i]]
        0 <= j < p.len() && 0 <= i < p[j].srcs.len() implies file_name_of(p[j].srcs[i]) is Some by {
        assert(p[j].srcs[i] == l[j].files@[i].path@);
        assert(l.contains(l[j]));
        cs.lemma_filter_contains_rev(keep, l[j]);
        let k = choose|k: int| 0 <= k < cs.len() && cs[k] == l[j];
        assert(cs[k].files@[i] == l[j].files@[i]);
    }
}

} // verus!
