//! What is to be done for the occasions: the folders to fill and to upload.
use crate::files::{photo, shot, FileItem};
use crate::naming::{is_named, named};
use crate::occasion::{lemma_names, names, rated_photo, rating, Cluster, UploadMode};
use crate::paths::{file_name_of, is_name, join_path, joined, lemma_file_name};
use crate::sorting::lemma_filter_push;
use crate::text::{opt_list, strs, trim_end, trim_end_str};
use vstd::prelude::*;

verus! {

/// The work for one folder.
#[derive(Debug)]
pub struct Job {
    /// The folder.
    pub dir: String,
    /// The name of the folder.
    pub label: String,
    /// The files to put into it.
    pub srcs: Vec<String>,
    /// Whether to upload it.
    pub upload: bool,
    /// The names of the files to upload; none for the whole folder.
    pub upload_files: Option<Vec<String>>,
}

/// What a job says.
pub struct Task {
    pub dir: Seq<char>,
    pub label: Seq<char>,
    pub srcs: Seq<Seq<char>>,
    pub upload: bool,
    pub upload_files: Option<Seq<Seq<char>>>,
}

impl View for Job {
    type V = Task;

    open spec fn view(&self) -> Task {
        Task {
            dir: self.dir@,
            label: self.label@,
            srcs: strs(self.srcs@),
            upload: self.upload,
            upload_files: opt_list(self.upload_files),
        }
    }
}

/// What each of the jobs says.
pub open spec fn tasks(v: Seq<Job>) -> Seq<Task> {
    v.map_values(|j: Job| j@)
}

/// Whether the occasion is to be worked on: it is not left alone and has a name.
pub open spec fn assigned(c: Cluster) -> bool {
    !c.skip && is_named(c.target@)
}

/// Whether the occasion is to be uploaded.
pub open spec fn marked(c: Cluster) -> bool {
    c.up != UploadMode::No && assigned(c)
}

/// The names of the files of `c` to upload where not all are; `min` is the least rating.
pub open spec fn upload_names(c: Cluster, min: u8) -> Option<Seq<Seq<char>>> {
    match c.up {
        UploadMode::No => None,
        UploadMode::All => None,
        UploadMode::Photos => Some(names(c.files@.filter(|f: FileItem| photo(f)))),
        UploadMode::Rated => Some(names(c.files@.filter(rated_photo(c.ratings@, min)))),
    }
}

/// The paths of `files`.
pub open spec fn paths_of(files: Seq<FileItem>) -> Seq<Seq<char>> {
    files.map_values(|f: FileItem| f.path@)
}

/// The work for an occasion that is assigned: its folder in the library gets its files, none
/// where it is in the library already.
pub open spec fn task_for(c: Cluster, pictures: Seq<char>, library: bool, min: u8) -> Task {
    Task {
        dir: joined(pictures, trim_end(c.target@)),
        label: trim_end(c.target@),
        srcs: if library {
            seq![]
        } else {
            paths_of(c.files@)
        },
        upload: c.up != UploadMode::No,
        upload_files: upload_names(c, min),
    }
}

/// The work for all occasions in their order. Those that are not assigned make none, and in
/// the library neither do those that are not to be uploaded.
pub open spec fn plan(
    cs: Seq<Cluster>,
    pictures: Seq<char>,
    library: bool,
    min: u8,
) -> Seq<Task>
    decreases cs.len(),
{
    if cs.len() == 0 {
        seq![]
    } else {
        let before = plan(cs.drop_last(), pictures, library, min);
        let c = cs.last();
        if assigned(c) && (!library || marked(c)) {
            before.push(task_for(c, pictures, library, min))
        } else {
            before
        }
    }
}

/// How many files `ts` move.
pub open spec fn moves(ts: Seq<Task>) -> nat
    decreases ts.len(),
{
    if ts.len() == 0 {
        0
    } else {
        moves(ts.drop_last()) + ts.last().srcs.len()
    }
}

/// How many files the occasions have together.
pub open spec fn file_count(cs: Seq<Cluster>) -> nat
    decreases cs.len(),
{
    if cs.len() == 0 {
        0
    } else {
        file_count(cs.drop_last()) + cs.last().files@.len()
    }
}

/// Whether the occasion is to be worked on.
pub fn is_assigned(c: &Cluster) -> (r: bool)
    ensures
        r == assigned(*c),
{
    !c.skip && named(c.target.as_str())
}

/// Whether the occasion is to be uploaded.
pub fn is_marked(c: &Cluster) -> (r: bool)
    ensures
        r == marked(*c),
{
    c.up != UploadMode::No && is_assigned(c)
}

/// The names of the files to upload where not all are.
fn names_to_upload(c: &Cluster, min: u8) -> (r: Option<Vec<String>>)
    ensures
        opt_list(r) == upload_names(*c, min),
{
    match c.up {
        UploadMode::No => None,
        UploadMode::All => None,
        UploadMode::Photos => Some(c.photo_filenames()),
        UploadMode::Rated => Some(c.rated_filenames(min)),
    }
}

/// Copies of the paths of `files`.
fn copy_paths(files: &Vec<FileItem>) -> (r: Vec<String>)
    ensures
        strs(r@) == paths_of(files@),
{
    let mut r: Vec<String> = Vec::new();
    for i in 0..files.len()
        invariant
            strs(r@) == paths_of(files@).take(i as int),
    {
        let ghost before = r@;
        r.push(files[i].path.clone());
        assert(strs(r@) == strs(before).push(files@[i as int].path@));
    }
    r
}

/// The work for an occasion that is assigned.
pub fn job_for(c: &Cluster, pictures: &str, library: bool, min: u8) -> (j: Job)
    ensures
        j@ == task_for(*c, pictures@, library, min),
{
    let label = trim_end_str(c.target.as_str());
    let srcs: Vec<String> = if library {
        let none: Vec<String> = Vec::new();
        assert(strs(none@) == Seq::<Seq<char>>::empty());
        none
    } else {
        copy_paths(&c.files)
    };
    Job {
        dir: join_path(pictures, label.as_str()),
        label,
        srcs,
        upload: c.up != UploadMode::No,
        upload_files: names_to_upload(c, min),
    }
}

/// The work for all occasions.
pub fn jobs_for(cs: &Vec<Cluster>, pictures: &str, library: bool, min: u8) -> (r: Vec<Job>)
    ensures
        tasks(r@) == plan(cs@, pictures@, library, min),
{
    let mut r: Vec<Job> = Vec::new();
    assert(tasks(r@) == Seq::<Task>::empty());
    for i in 0..cs.len()
        invariant
            tasks(r@) == plan(cs@.take(i as int), pictures@, library, min),
    {
        let c = &cs[i];
        let ghost before = r@;
        proof {
            assert(cs@.take(i + 1).drop_last() == cs@.take(i as int));
            assert(cs@.take(i + 1).last() == *c);
        }
        if is_assigned(c) && (!library || is_marked(c)) {
            let j = job_for(c, pictures, library, min);
            r.push(j);
            assert(tasks(r@) == tasks(before).push(j@));
        }
    }
    assert(cs@.take(cs.len() as int) == cs@);
    r
}

/// How many of the occasions are to be worked on.
pub fn assigned_count(cs: &Vec<Cluster>) -> (n: usize)
    ensures
        n == cs@.filter(|c: Cluster| assigned(c)).len(),
{
    let ghost keep = |c: Cluster| assigned(c);
    let mut n: usize = 0;
    proof {
        reveal(Seq::filter);
    }
    for i in 0..cs.len()
        invariant
            n <= i,
            keep == (|c: Cluster| assigned(c)),
            n == cs@.take(i as int).filter(keep).len(),
    {
        proof {
            lemma_filter_push(cs@.take(i as int), cs@[i as int], keep);
            assert(cs@.take(i + 1) == cs@.take(i as int).push(cs@[i as int]));
        }
        if is_assigned(&cs[i]) {
            n += 1;
        }
    }
    assert(cs@.take(cs.len() as int) == cs@);
    n
}

/// How many of the occasions are to be uploaded.
pub fn upload_count(cs: &Vec<Cluster>) -> (n: usize)
    ensures
        n == cs@.filter(|c: Cluster| marked(c)).len(),
{
    let ghost keep = |c: Cluster| marked(c);
    let mut n: usize = 0;
    proof {
        reveal(Seq::filter);
    }
    for i in 0..cs.len()
        invariant
            n <= i,
            keep == (|c: Cluster| marked(c)),
            n == cs@.take(i as int).filter(keep).len(),
    {
        proof {
            lemma_filter_push(cs@.take(i as int), cs@[i as int], keep);
            assert(cs@.take(i + 1) == cs@.take(i as int).push(cs@[i as int]));
        }
        if is_marked(&cs[i]) {
            n += 1;
        }
    }
    assert(cs@.take(cs.len() as int) == cs@);
    n
}

/// How many of the occasions have no name but are not left alone.
pub fn unnamed_count(cs: &Vec<Cluster>) -> (n: usize)
    ensures
        n == cs@.filter(|c: Cluster| !c.skip && !is_named(c.target@)).len(),
{
    let ghost keep = |c: Cluster| !c.skip && !is_named(c.target@);
    let mut n: usize = 0;
    proof {
        reveal(Seq::filter);
    }
    for i in 0..cs.len()
        invariant
            n <= i,
            keep == (|c: Cluster| !c.skip && !is_named(c.target@)),
            n == cs@.take(i as int).filter(keep).len(),
    {
        proof {
            lemma_filter_push(cs@.take(i as int), cs@[i as int], keep);
            assert(cs@.take(i + 1) == cs@.take(i as int).push(cs@[i as int]));
        }
        if !cs[i].skip && !named(cs[i].target.as_str()) {
            n += 1;
        }
    }
    assert(cs@.take(cs.len() as int) == cs@);
    n
}

proof fn lemma_file_count_prefix(cs: Seq<Cluster>, i: int)
    requires
        0 <= i <= cs.len(),
    ensures
        file_count(cs.take(i)) <= file_count(cs),
    decreases cs.len() - i,
{
    if i < cs.len() {
        lemma_file_count_prefix(cs, i + 1);
        assert(cs.take(i + 1).drop_last() == cs.take(i));
    } else {
        assert(cs.take(i) == cs);
    }
}

/// How many files the occasions have together, where the number can be held.
pub fn count_files(cs: &Vec<Cluster>) -> (r: Option<usize>)
    ensures
        match r {
            Some(n) => n == file_count(cs@),
            None => file_count(cs@) > usize::MAX,
        },
{
    let mut n: usize = 0;
    for i in 0..cs.len()
        invariant
            n == file_count(cs@.take(i as int)),
    {
        proof {
            assert(cs@.take(i + 1).drop_last() == cs@.take(i as int));
            lemma_file_count_prefix(cs@, i + 1);
        }
        match n.checked_add(cs[i].files.len()) {
            Some(m) => {
                n = m;
            },
            None => {
                return None;
            },
        }
    }
    assert(cs@.take(cs.len() as int) == cs@);
    Some(n)
}

/// The files that assigned occasions have together.
pub open spec fn assigned_files(cs: Seq<Cluster>) -> nat {
    file_count(cs.filter(|c: Cluster| assigned(c)))
}

proof fn lemma_assigned_files(cs: Seq<Cluster>)
    ensures
        assigned_files(cs) <= file_count(cs),
    decreases cs.len(),
{
    let keep = |c: Cluster| assigned(c);
    reveal(Seq::filter);
    if cs.len() > 0 {
        lemma_assigned_files(cs.drop_last());
        if assigned(cs.last()) {
            assert(cs.drop_last().filter(keep).push(cs.last()).drop_last()
                == cs.drop_last().filter(keep));
        }
    }
}

/// How many files the assigned occasions have together.
pub fn assigned_file_count(cs: &Vec<Cluster>) -> (n: usize)
    requires
        file_count(cs@) <= usize::MAX,
    ensures
        n == assigned_files(cs@),
{
    let ghost keep = |c: Cluster| assigned(c);
    let mut n: usize = 0;
    proof {
        reveal(Seq::filter);
    }
    for i in 0..cs.len()
        invariant
            keep == (|c: Cluster| assigned(c)),
            file_count(cs@) <= usize::MAX,
            n == assigned_files(cs@.take(i as int)),
    {
        proof {
            let had = cs@.take(i as int);
            lemma_filter_push(had, cs@[i as int], keep);
            assert(cs@.take(i + 1) == had.push(cs@[i as int]));
            lemma_assigned_files(cs@.take(i + 1));
            lemma_file_count_prefix(cs@, i + 1);
            if assigned(cs@[i as int]) {
                assert(had.filter(keep).push(cs@[i as int]).drop_last() == had.filter(keep));
            }
        }
        if is_assigned(&cs[i]) {
            n += cs[i].files.len();
        }
    }
    assert(cs@.take(cs.len() as int) == cs@);
    n
}

/// The plan moves just the files of the occasions that are assigned, and none in the library.
pub proof fn lemma_plan_moves(cs: Seq<Cluster>, pictures: Seq<char>, library: bool, min: u8)
    ensures
        moves(plan(cs, pictures, library, min)) == if library {
            0
        } else {
            assigned_files(cs)
        },
    decreases cs.len(),
{
    let keep = |c: Cluster| assigned(c);
    reveal(Seq::filter);
    if cs.len() > 0 {
        let front = cs.drop_last();
        let c = cs.last();
        lemma_plan_moves(front, pictures, library, min);
        let p = plan(front, pictures, library, min);
        assert(p.push(task_for(c, pictures, library, min)).drop_last() == p);
        assert(front.filter(keep).push(c).drop_last() == front.filter(keep));
    }
}

/// The plan has one task for each assigned occasion; in the library one for each that is to be
/// uploaded.
pub proof fn lemma_plan_len(cs: Seq<Cluster>, pictures: Seq<char>, library: bool, min: u8)
    ensures
        plan(cs, pictures, library, min).len() == if library {
            cs.filter(|c: Cluster| marked(c)).len()
        } else {
            cs.filter(|c: Cluster| assigned(c)).len()
        },
    decreases cs.len(),
{
    reveal(Seq::filter);
    if cs.len() > 0 {
        lemma_plan_len(cs.drop_last(), pictures, library, min);
    }
}

/// Every task of the plan is that of an assigned occasion; in the library every task uploads
/// and moves nothing.
pub proof fn lemma_plan_tasks(cs: Seq<Cluster>, pictures: Seq<char>, library: bool, min: u8, k: int)
    requires
        0 <= k < plan(cs, pictures, library, min).len(),
    ensures
        ({
            let t = plan(cs, pictures, library, min)[k];
            &&& exists|i: int|
                0 <= i < cs.len() && assigned(#[trigger] cs[i]) && t == task_for(
                    cs[i],
                    pictures,
                    library,
                    min,
                )
            &&& library ==> t.upload && t.srcs.len() == 0
        }),
    decreases cs.len(),
{
    let front = cs.drop_last();
    let p = plan(front, pictures, library, min);
    let c = cs.last();
    if k < p.len() {
        lemma_plan_tasks(front, pictures, library, min, k);
        let i = choose|i: int|
            0 <= i < front.len() && assigned(#[trigger] front[i]) && p[k] == task_for(
                front[i],
                pictures,
                library,
                min,
            );
        assert(cs[i] == front[i]);
    } else {
        assert(cs[cs.len() - 1] == c);
    }
}

/// What is uploaded of an occasion where not all is: with `Photos` just the names of its
/// photos, with `Rated` just those of photos whose shot has the least rating.
pub proof fn lemma_upload_names(c: Cluster, min: u8, n: Seq<char>)
    ensures
        c.up == UploadMode::Photos ==> (upload_names(c, min)->0.contains(n) <==> exists|i: int|
            {
                &&& 0 <= i < c.files@.len()
                &&& photo(#[trigger] c.files@[i])
                &&& file_name_of(c.files@[i].path@) == Some(n)
            }),
        c.up == UploadMode::Rated ==> (upload_names(c, min)->0.contains(n) <==> exists|i: int|
            {
                &&& 0 <= i < c.files@.len()
                &&& photo(#[trigger] c.files@[i])
                &&& rating(c.ratings@, shot(c.files@[i])) >= min
                &&& file_name_of(c.files@[i].path@) == Some(n)
            }),
{
    if c.up == UploadMode::Photos {
        lemma_picked_names(c.files@, |f: FileItem| photo(f), n);
    }
    if c.up == UploadMode::Rated {
        lemma_picked_names(c.files@, rated_photo(c.ratings@, min), n);
    }
}

/// The names of the files to upload are plain names: they stand for files in the folder itself,
/// none for one in a folder within it, such as `.removed`.
pub proof fn lemma_upload_names_plain(c: Cluster, min: u8, n: Seq<char>)
    requires
        upload_names(c, min) is Some,
        upload_names(c, min)->0.contains(n),
    ensures
        is_name(n),
{
    lemma_upload_names(c, min, n);
    let i = choose|i: int|
        {
            &&& 0 <= i < c.files@.len()
            &&& photo(#[trigger] c.files@[i])
            &&& file_name_of(c.files@[i].path@) == Some(n)
        };
    lemma_file_name(c.files@[i].path@);
}

proof fn lemma_picked_names(files: Seq<FileItem>, keep: spec_fn(FileItem) -> bool, n: Seq<char>)
    ensures
        names(files.filter(keep)).contains(n) <==> exists|i: int|
            {
                &&& 0 <= i < files.len()
                &&& keep(#[trigger] files[i])
                &&& file_name_of(files[i].path@) == Some(n)
            },
{
    let p = files.filter(keep);
    lemma_names(p, n);
    if names(p).contains(n) {
        let i = choose|i: int| 0 <= i < p.len() && file_name_of((#[trigger] p[i]).path@) == Some(n);
        assert(p.contains(p[i]));
        files.lemma_filter_contains_rev(keep, p[i]);
        files.lemma_filter_pred(keep, i);
        let k = choose|k: int| 0 <= k < files.len() && files[k] == p[i];
        assert(keep(files[k]));
    }
    if exists|i: int|
        {
            &&& 0 <= i < files.len()
            &&& keep(#[trigger] files[i])
            &&& file_name_of(files[i].path@) == Some(n)
        } {
        let i = choose|i: int|
            {
                &&& 0 <= i < files.len()
                &&& keep(#[trigger] files[i])
                &&& file_name_of(files[i].path@) == Some(n)
            };
        files.lemma_filter_contains(keep, i);
        let k = choose|k: int| 0 <= k < p.len() && p[k] == files[i];
        assert(file_name_of(p[k].path@) == Some(n));
    }
}

/// Whether the occasion makes work: it is not left alone, has a name, and in the library is to
/// be uploaded.
pub open spec fn makes_work(c: Cluster, library: bool) -> bool {
    !c.skip && is_named(c.target@) && (library ==> c.up != UploadMode::No)
}

/// The occasions that make work, one task each and in their order: into the folder of the
/// occasion's name go all its files, each from its own path, none in the library; it is uploaded
/// just where the occasion says so, whole where all of it is to be.
pub proof fn lemma_plan_complete(cs: Seq<Cluster>, pictures: Seq<char>, library: bool, min: u8)
    ensures
        ({
            let p = plan(cs, pictures, library, min);
            let l = cs.filter(|c: Cluster| makes_work(c, library));
            &&& p.len() == l.len()
            &&& forall|k: int|
                #![trigger p[k]]
                0 <= k < l.len() ==> {
                    &&& p[k].label == trim_end(l[k].target@)
                    &&& p[k].dir == joined(pictures, trim_end(l[k].target@))
                    &&& p[k].srcs.len() == if library {
                        0
                    } else {
                        l[k].files@.len()
                    }
                    &&& forall|i: int|
                        0 <= i < p[k].srcs.len() ==> #[trigger] p[k].srcs[i] == l[k].files@[i].path@
                    &&& p[k].upload == (l[k].up != UploadMode::No)
                    &&& p[k].upload_files is None <==> (l[k].up == UploadMode::No || l[k].up
                        == UploadMode::All)
                    &&& p[k].upload_files == upload_names(l[k], min)
                }
        }),
    decreases cs.len(),
{
    let keep = |c: Cluster| makes_work(c, library);
    reveal(Seq::filter);
    if cs.len() > 0 {
        let front = cs.drop_last();
        let c = cs.last();
        lemma_plan_complete(front, pictures, library, min);
        let q = plan(front, pictures, library, min);
        let p = plan(cs, pictures, library, min);
        let m = front.filter(keep);
        lemma_filter_push(front, c, keep);
        assert(front.push(c) == cs);
        if makes_work(c, library) {
            assert(p == q.push(task_for(c, pictures, library, min)));
            assert forall|k: int| 0 <= k < q.len() implies #[trigger] p[k] == q[k] by {}
        } else {
            assert(p == q);
        }
    }
}

/// The files of occasions add up.
pub proof fn lemma_file_count_adds(a: Seq<Cluster>, b: Seq<Cluster>, c: Cluster)
    ensures
        file_count(a + b) == file_count(a) + file_count(b),
        file_count(seq![c]) == c.files@.len(),
    decreases b.len(),
{
    let none = Seq::<Cluster>::empty();
    assert(seq![c].drop_last() == none);
    assert(file_count(none) == 0);
    if b.len() == 0 {
        assert(a + b == a);
    } else {
        lemma_file_count_adds(a, b.drop_last(), c);
        assert((a + b).drop_last() == a + b.drop_last());
    }
}

/// As many tasks upload as there are occasions that are to be uploaded.
pub proof fn lemma_plan_uploads(cs: Seq<Cluster>, pictures: Seq<char>, library: bool, min: u8)
    ensures
        plan(cs, pictures, library, min).filter(|t: Task| t.upload).len() == cs.filter(
            |c: Cluster| marked(c),
        ).len(),
    decreases cs.len(),
{
    reveal(Seq::filter);
    if cs.len() > 0 {
        let front = cs.drop_last();
        let c = cs.last();
        lemma_plan_uploads(front, pictures, library, min);
        let p = plan(front, pictures, library, min);
        lemma_filter_push(
            p,
            task_for(c, pictures, library, min),
            |t: Task| t.upload,
        );
        lemma_filter_push(front, c, |c: Cluster| marked(c));
        assert(front.push(c) == cs);
    }
}

} // verus!
