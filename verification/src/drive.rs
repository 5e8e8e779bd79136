//! What rclone is asked, and what its answers say.
use crate::number::{dec, decimal, digit_char, is_digit, lemma_dec_injective, lemma_dec_reads_back};
use crate::occasion::Cluster;
use crate::order::TextMap;
use crate::paths::{join_path, joined};
use crate::sorting::lemma_filter_push;
use crate::text::{
    chars_of, contains_str, copy_of, find_char, has_text, index_of_char, join, join_strings,
    lemma_index_of_char, lemma_lines_put, lemma_text_within, lines, lines_of, opt_str, opt_string,
    push_copy, string_of, strs, trim, trim_end, trim_end_char, trim_end_of, trim_end_str, trim_str,
};
use vstd::prelude::*;
use vstd::slice::slice_subrange;

verus! {

/// What rclone is asked in order to upload `dir` to `dest`; `list` is a file with the names of
/// the files to upload, where not all are. Culled shots are never uploaded.
pub open spec fn upload_command(
    dir: Seq<char>,
    dest: Seq<char>,
    list: Option<Seq<char>>,
) -> Seq<Seq<char>> {
    let all = seq![
        "copy"@,
        dir,
        dest,
        "--exclude"@,
        ".removed/**"@,
        "--transfers=4"@,
        "--checkers=8"@,
        "--stats=1s"@,
        "--stats-one-line"@,
        "--stats-log-level"@,
        "NOTICE"@,
    ];
    match list {
        Some(l) => all + seq!["--files-from"@, l],
        None => all,
    }
}

/// What rclone is asked in order to upload `dir` to `dest`.
pub fn upload_args(dir: &str, dest: &str, list: Option<&str>) -> (r: Vec<String>)
    ensures
        strs(r@) == upload_command(dir@, dest@, opt_str(list)),
{
    let mut r: Vec<String> = Vec::new();
    push_copy(&mut r, "copy");
    push_copy(&mut r, dir);
    push_copy(&mut r, dest);
    push_copy(&mut r, "--exclude");
    push_copy(&mut r, ".removed/**");
    push_copy(&mut r, "--transfers=4");
    push_copy(&mut r, "--checkers=8");
    push_copy(&mut r, "--stats=1s");
    push_copy(&mut r, "--stats-one-line");
    push_copy(&mut r, "--stats-log-level");
    push_copy(&mut r, "NOTICE");
    assert(strs(r@) == upload_command(dir@, dest@, None));
    match list {
        Some(l) => {
            push_copy(&mut r, "--files-from");
            push_copy(&mut r, l);
        },
        None => {},
    }
    r
}

/// Every upload leaves out what is in the `.removed` folder.
pub proof fn lemma_removed_never_uploaded(
    dir: Seq<char>,
    dest: Seq<char>,
    list: Option<Seq<char>>,
)
    ensures
        exists|i: int|
            {
                &&& 0 <= i < upload_command(dir, dest, list).len() - 1
                &&& #[trigger] upload_command(dir, dest, list)[i] == "--exclude"@
                &&& upload_command(dir, dest, list)[i + 1] == ".removed/**"@
            },
{
    let c = upload_command(dir, dest, list);
    assert(c[3] == "--exclude"@);
    assert(c[4] == ".removed/**"@);
}

/// The text of the file with the names of the files to upload.
pub fn upload_list(names: &Vec<String>) -> (r: String)
    ensures
        r@ == join(strs(names@), "\n"@),
{
    join_strings(names, "\n")
}

/// The name of the list of the files to upload, for the upload `at` of the process `pid`.
pub open spec fn list_name(pid: nat, at: nat) -> Seq<char> {
    "wpic-upload-"@ + dec(pid) + "-"@ + dec(at) + ".txt"@
}

/// Where the names of the files to upload are written, for the upload `at` of the process `pid`.
pub fn upload_list_path(tmp: &str, pid: u32, at: usize) -> (r: String)
    ensures
        r@ == joined(tmp@, list_name(pid as nat, at as nat)),
{
    let mut n = copy_of("wpic-upload-");
    n.append(decimal(pid as u64).as_str());
    n.append("-");
    n.append(decimal(at as u64).as_str());
    n.append(".txt");
    join_path(tmp, n.as_str())
}

/// Different uploads of one process have different lists, so they do not get into each other's
/// way.
pub proof fn lemma_lists_differ(tmp: Seq<char>, pid: nat, a: nat, b: nat)
    requires
        a != b,
    ensures
        joined(tmp, list_name(pid, a)) != joined(tmp, list_name(pid, b)),
{
    reveal_strlit("wpic-upload-");
    let front = "wpic-upload-"@ + dec(pid) + "-"@;
    let end = ".txt"@;
    let x = list_name(pid, a);
    let y = list_name(pid, b);
    assert(x == front + dec(a) + end);
    assert(y == front + dec(b) + end);
    assert(x[0] == 'w' && y[0] == 'w');
    let p = joined(tmp, x);
    let q = joined(tmp, y);
    let e = if tmp.len() == 0 || tmp.last() == '/' {
        tmp
    } else {
        tmp.push('/')
    };
    assert(p == e + x);
    assert(q == e + y);
    if p == q {
        assert(x == p.skip(e.len() as int));
        assert(y == q.skip(e.len() as int));
        assert(x == y);
        assert(dec(a) == x.subrange(front.len() as int, x.len() - end.len()));
        assert(dec(b) == y.subrange(front.len() as int, y.len() - end.len()));
        lemma_dec_injective(a, b);
    }
}

/// How an upload ended.
pub enum UploadEnd {
    /// The list of the files could not be written, and why.
    NotListed(String),
    /// rclone could not be run, and why.
    NotRun(String),
    /// It could not be waited for, and why.
    NotWaited(String),
    /// rclone ended; whether it succeeded, and its status in words.
    Exited { success: bool, status: String },
}

/// What went wrong with an upload: nothing just where rclone ran to its end and succeeded.
pub open spec fn upload_failure(end: UploadEnd) -> Option<Seq<char>> {
    match end {
        UploadEnd::NotListed(e) => Some(e@),
        UploadEnd::NotRun(e) => Some("rclone not runnable ("@ + e@ + ")"@),
        UploadEnd::NotWaited(e) => Some(e@),
        UploadEnd::Exited { success, status } => if success {
            None
        } else {
            Some("rclone exited with "@ + status@)
        },
    }
}

/// What went wrong with an upload, where something did.
pub fn rclone_upload(end: UploadEnd) -> (r: Option<String>)
    ensures
        opt_string(r) == upload_failure(end),
{
    match end {
        UploadEnd::NotListed(e) => Some(e),
        UploadEnd::NotRun(e) => {
            let mut t = copy_of("rclone not runnable (");
            t.append(e.as_str());
            t.append(")");
            Some(t)
        },
        UploadEnd::NotWaited(e) => Some(e),
        UploadEnd::Exited { success, status } => {
            if success {
                None
            } else {
                let mut t = copy_of("rclone exited with ");
                t.append(status.as_str());
                Some(t)
            }
        },
    }
}

/// What rclone is asked in order to list the folders at `dest`.
pub fn listing_args(dest: &str) -> (r: Vec<String>)
    ensures
        strs(r@) == seq!["lsf"@, "--dirs-only"@, dest@],
{
    let mut r: Vec<String> = Vec::new();
    push_copy(&mut r, "lsf");
    push_copy(&mut r, "--dirs-only");
    push_copy(&mut r, dest);
    r
}

/// The folders that a listing names, one on each line with a slash behind it.
pub open spec fn listed_dirs(text: Seq<char>) -> Set<Seq<char>> {
    lines(text).map_values(|l: Seq<char>| trim_end_of(l, '/')).to_set()
}

/// How a request for a listing went.
pub enum Reply {
    /// rclone could not be run, and why.
    NotRun(String),
    /// rclone ran; whether it succeeded, and what it printed.
    Ran { success: bool, stdout: String, stderr: String },
}

/// The folders that rclone listed. A destination that does not exist has none; any other
/// failure is told.
pub fn rclone_list_dirs(reply: &Reply) -> (r: Result<TextMap<()>, String>)
    ensures
        match *reply {
            Reply::NotRun(e) => r matches Err(t) && t@ == "rclone not runnable: "@ + e@,
            Reply::Ran { success, stdout, stderr } => if success {
                r matches Ok(m) && m@.dom() == listed_dirs(stdout@)
            } else if has_text(stderr@, "directory not found"@) {
                r matches Ok(m) && m@.dom() == Set::<Seq<char>>::empty()
            } else {
                r matches Err(t) && t@ == trim(stderr@)
            },
        },
{
    match reply {
        Reply::NotRun(e) => {
            let mut t = copy_of("rclone not runnable: ");
            t.append(e.as_str());
            Err(t)
        },
        Reply::Ran { success, stdout, stderr } => {
            if !*success {
                if contains_str(stderr.as_str(), "directory not found") {
                    let m: TextMap<()> = TextMap::new();
                    assert(m@.dom() == Set::<Seq<char>>::empty());
                    return Ok(m);
                }
                return Err(trim_str(stderr.as_str()));
            }
            let ls = lines_of(stdout.as_str());
            let ghost all = lines(stdout@);
            let ghost name = |l: Seq<char>| trim_end_of(l, '/');
            let mut m: TextMap<()> = TextMap::new();
            assert(all.take(0).map_values(name).to_set() == Set::<Seq<char>>::empty());
            for i in 0..ls.len()
                invariant
                    all == strs(ls@),
                    name == (|l: Seq<char>| trim_end_of(l, '/')),
                    m@.dom() == all.take(i as int).map_values(name).to_set(),
            {
                proof {
                    let a = all.take(i as int).map_values(name);
                    let b = all.take(i + 1).map_values(name);
                    assert(b == a.push(name(all[i as int])));
                    assert forall|s: Seq<char>| b.to_set().contains(s) == a.to_set().insert(
                        name(all[i as int]),
                    ).contains(s) by {
                        if a.contains(s) {
                            let j = choose|j: int| 0 <= j < a.len() && a[j] == s;
                            assert(b[j] == s);
                        }
                        if b.contains(s) {
                            let j = choose|j: int| 0 <= j < b.len() && b[j] == s;
                            if j < a.len() {
                                assert(a[j] == s);
                            }
                        }
                        assert(b[a.len() as int] == name(all[i as int]));
                    }
                    assert(b.to_set() == a.to_set().insert(name(all[i as int])));
                }
                m.insert(trim_end_char(ls[i].as_str(), '/'), ());
            }
            assert(all.take(all.len() as int) == all);
            Ok(m)
        },
    }
}

/// Whether the folder of `c` is among `listed`.
pub open spec fn present(c: Cluster, listed: Set<Seq<char>>) -> bool {
    listed.contains(trim_end(c.target@))
}

/// The occasion `c` once it is known what is on the Drive.
pub open spec fn checked(c: Cluster, listed: Set<Seq<char>>) -> Cluster {
    Cluster { on_drive: Some(present(c, listed)), ..c }
}

/// Notes of each occasion whether its folder is among `listed`; returns how many are.
pub fn apply_drive_listing(cs: &mut Vec<Cluster>, listed: &TextMap<()>) -> (n: usize)
    ensures
        final(cs)@ == old(cs)@.map_values(|c: Cluster| checked(c, listed@.dom())),
        n == old(cs)@.filter(|c: Cluster| present(c, listed@.dom())).len(),
{
    let ghost was = cs@;
    let ghost dirs = listed@.dom();
    let ghost keep = |c: Cluster| present(c, dirs);
    let mut n: usize = 0;
    let mut i: usize = 0;
    proof {
        reveal(Seq::filter);
    }
    while i < cs.len()
        invariant
            i <= cs.len(),
            cs@.len() == was.len(),
            dirs == listed@.dom(),
            keep == (|c: Cluster| present(c, dirs)),
            forall|k: int| 0 <= k < i ==> #[trigger] cs@[k] == checked(was[k], dirs),
            forall|k: int| i <= k < was.len() ==> #[trigger] cs@[k] == was[k],
            n <= i,
            n == was.take(i as int).filter(keep).len(),
        decreases cs.len() - i,
    {
        proof {
            lemma_filter_push(was.take(i as int), was[i as int], keep);
            assert(was.take(i + 1) == was.take(i as int).push(was[i as int]));
        }
        let there: bool = listed.contains(trim_end_str(cs[i].target.as_str()).as_str());
        cs[i].on_drive = Some(there);
        if there {
            n += 1;
        }
        i += 1;
    }
    proof {
        assert(was.take(was.len() as int) == was);
        assert(cs@ == was.map_values(|c: Cluster| checked(c, dirs)));
    }
    n
}

/// What is told of a check of the Drive.
pub open spec fn check_text(found: Result<nat, Seq<char>>, count: nat, dest: Seq<char>) -> Seq<char> {
    match found {
        Ok(n) => "Drive: "@ + dec(n) + " of "@ + dec(count) + " occasions present under "@ + dest,
        Err(e) => "Drive check failed: "@ + e,
    }
}

/// Notes what a listing of the Drive says of each occasion, and tells what came out.
pub fn check_drive(cs: &mut Vec<Cluster>, listing: Result<TextMap<()>, String>, dest: &str) -> (r:
    String)
    ensures
        match listing {
            Ok(m) => {
                &&& final(cs)@ == old(cs)@.map_values(|c: Cluster| checked(c, m@.dom()))
                &&& r@ == check_text(
                    Ok(old(cs)@.filter(|c: Cluster| present(c, m@.dom())).len()),
                    old(cs)@.len(),
                    dest@,
                )
            },
            Err(e) => {
                &&& final(cs)@ == old(cs)@
                &&& r@ == check_text(Err(e@), old(cs)@.len(), dest@)
            },
        },
{
    match listing {
        Ok(m) => {
            let n: usize = apply_drive_listing(cs, &m);
            let mut s = copy_of("Drive: ");
            s.append(decimal(n as u64).as_str());
            s.append(" of ");
            s.append(decimal(cs.len() as u64).as_str());
            s.append(" occasions present under ");
            s.append(dest);
            s
        },
        Err(e) => {
            let mut s = copy_of("Drive check failed: ");
            s.append(e.as_str());
            s
        },
    }
}

/// Whether `c` can stand in a number with a fraction.
pub open spec fn in_number(c: char) -> bool {
    is_digit(c) || c == '.'
}

/// The digits and dots at the end of `s`.
pub open spec fn number_end(s: Seq<char>) -> Seq<char>
    decreases s.len(),
{
    if s.len() > 0 && in_number(s.last()) {
        number_end(s.drop_last()).push(s.last())
    } else {
        seq![]
    }
}

/// What stands before the first percent sign of a line: digits and dots, perhaps none.
pub open spec fn percent_of(line: Seq<char>) -> Option<Seq<char>> {
    let k = index_of_char(line, '%');
    if k < line.len() {
        Some(number_end(line.take(k)))
    } else {
        None
    }
}

/// What stands before the first percent sign of a line that an upload printed.
pub fn percent_text(line: &str) -> (r: Option<String>)
    ensures
        match r {
            Some(t) => percent_of(line@) == Some(t@),
            None => percent_of(line@) is None,
        },
{
    let v = chars_of(line);
    let k: usize = find_char(v.as_slice(), '%');
    if k == v.len() {
        return None;
    }
    let ghost s = line@.take(k as int);
    let mut i: usize = k;
    assert(s.take(k as int) == s);
    assert(s.skip(k as int) == Seq::<char>::empty());
    assert(number_end(s) + s.skip(k as int) == number_end(s));
    while i > 0 && (digit_char(v[i - 1]) || v[i - 1] == '.')
        invariant
            i <= k,
            k < v.len(),
            v@ == line@,
            s == line@.take(k as int),
            number_end(s) == number_end(s.take(i as int)) + s.skip(i as int),
        decreases i,
    {
        proof {
            let t = s.take(i as int);
            assert(t.drop_last() == s.take(i - 1));
            assert(t.last() == v@[i - 1]);
            assert(number_end(t) == number_end(s.take(i - 1)).push(t.last()));
            assert(number_end(s.take(i - 1)).push(t.last()) + s.skip(i as int) == number_end(
                s.take(i - 1),
            ) + s.skip(i - 1));
        }
        i -= 1;
    }
    let r = string_of(slice_subrange(v.as_slice(), i, k));
    proof {
        assert(number_end(s.take(i as int)) == Seq::<char>::empty());
        assert(r@ == s.skip(i as int));
        assert(number_end(s) == r@);
    }
    Some(r)
}

/// What is uploaded is the folder, to its destination: the command copies the one to the other,
/// and only what a list names where there is one.
pub proof fn lemma_copies_folder(dir: Seq<char>, dest: Seq<char>, list: Option<Seq<char>>)
    ensures
        ({
            let c = upload_command(dir, dest, list);
            &&& c.len() >= 3
            &&& c[0] == "copy"@ && c[1] == dir && c[2] == dest
            &&& match list {
                Some(l) => c[c.len() - 2] == "--files-from"@ && c.last() == l && c.drop_last().drop_last()
                    == upload_command(dir, dest, None),
                None => forall|i: int| 3 <= i < c.len() ==> #[trigger] c[i] != "--files-from"@,
            }
        }),
{
    reveal_strlit("--files-from");
    reveal_strlit("--exclude");
    reveal_strlit(".removed/**");
    reveal_strlit("--transfers=4");
    reveal_strlit("--checkers=8");
    reveal_strlit("--stats=1s");
    reveal_strlit("--stats-one-line");
    reveal_strlit("--stats-log-level");
    reveal_strlit("NOTICE");
    let f = "--files-from"@;
    assert(f.len() == 12 && f[2] == 'f');
    assert("--exclude"@.len() == 9 && ".removed/**"@.len() == 11 && "--transfers=4"@.len() == 13
        && "--checkers=8"@.len() == 12 && "--checkers=8"@[2] == 'c' && "--stats=1s"@.len() == 10
        && "--stats-one-line"@.len() == 16 && "--stats-log-level"@.len() == 17 && "NOTICE"@.len()
        == 6);
    let all = upload_command(dir, dest, None);
    if let Some(l) = list {
        assert(upload_command(dir, dest, list).drop_last().drop_last() == all);
    }
}

proof fn lemma_list_lines(names: Seq<Seq<char>>)
    requires
        names.len() > 0,
        forall|i: int|
            0 <= i < names.len() ==> !(#[trigger] names[i]).contains('\n') && (names[i].len() > 0
                ==> names[i].last() != '\r'),
    ensures
        lines(join(names, "\n"@).push('\n')) == names,
        names.last().len() > 0 ==> lines(join(names, "\n"@)) == names,
    decreases names.len(),
{
    reveal_strlit("\n");
    let none = Seq::<char>::empty();
    let f = names.drop_last();
    let l = names[names.len() - 1];
    assert(!l.contains('\n') && (l.len() > 0 ==> l.last() != '\r'));
    if f.len() == 0 {
        lemma_lines_put(none, l);
        assert(join(names, "\n"@) == l);
        assert(none + l.push('\n') == l.push('\n'));
        assert(none + l == l);
        assert(lines(none) == Seq::<Seq<char>>::empty());
        assert(lines(none).push(l) == names);
    } else {
        assert forall|i: int| 0 <= i < f.len() implies !(#[trigger] f[i]).contains('\n') && (
        f[i].len() > 0 ==> f[i].last() != '\r') by {
            assert(f[i] == names[i]);
        }
        lemma_list_lines(f);
        let t = join(f, "\n"@).push('\n');
        lemma_lines_put(t, l);
        assert(join(names, "\n"@) == t + l);
        assert(join(names, "\n"@).push('\n') == t + l.push('\n'));
        assert(f.push(l) == names);
    }
}

/// The list that an upload is given has just the names of the files on its lines, in their
/// order.
pub proof fn lemma_list_read_back(names: Seq<Seq<char>>)
    requires
        names.len() > 0,
        forall|i: int|
            0 <= i < names.len() ==> (#[trigger] names[i]).len() > 0 && !names[i].contains('\n')
                && names[i].last() != '\r',
    ensures
        lines(join(names, "\n"@)) == names,
{
    lemma_list_lines(names);
}

/// A folder that the listing names on a line, with a separator behind it, is listed, and besides
/// it those of the other lines.
pub proof fn lemma_listed(t: Seq<char>, name: Seq<char>)
    requires
        t.len() == 0 || t.last() == '\n',
        name.len() > 0,
        name.last() != '/',
        name.last() != '\r',
        !name.contains('\n'),
    ensures
        listed_dirs(t + name + "/"@ + "\n"@) == listed_dirs(t).insert(name),
        listed_dirs(t + name + "\n"@) == listed_dirs(t).insert(name),
        listed_dirs(Seq::<char>::empty()) == Set::<Seq<char>>::empty(),
{
    reveal_strlit("/");
    reveal_strlit("\n");
    let l = name.push('/');
    assert forall|i: int| 0 <= i < l.len() implies l[i] != '\n' by {
        if i < name.len() {
            assert(name.contains(name[i]));
        }
    }
    lemma_lines_put(t, l);
    lemma_lines_put(t, name);
    assert(t + name + "/"@ + "\n"@ == t + l.push('\n'));
    assert(t + name + "\n"@ == t + name.push('\n'));
    assert(l.drop_last() == name);
    reveal_with_fuel(trim_end_of, 3);
    assert(trim_end_of(l, '/') == name);
    assert(trim_end_of(name, '/') == name);
    let cut = |l: Seq<char>| trim_end_of(l, '/');
    lemma_mapped_set(lines(t), l, cut);
    lemma_mapped_set(lines(t), name, cut);
    let none = Seq::<char>::empty();
    assert(lines(none).map_values(cut) == Seq::<Seq<char>>::empty());
    assert(listed_dirs(none) == Set::<Seq<char>>::empty());
}

proof fn lemma_mapped_set(s: Seq<Seq<char>>, x: Seq<char>, f: spec_fn(Seq<char>) -> Seq<char>)
    ensures
        s.push(x).map_values(f).to_set() == s.map_values(f).to_set().insert(f(x)),
{
    let a = s.map_values(f);
    let b = s.push(x).map_values(f);
    assert(b == a.push(f(x)));
    assert forall|y: Seq<char>| b.to_set().contains(y) == a.to_set().insert(f(x)).contains(y) by {
        if b.contains(y) {
            let k = choose|k: int| 0 <= k < b.len() && b[k] == y;
            if k < a.len() {
                assert(a[k] == y);
            }
        }
        if a.contains(y) {
            let k = choose|k: int| 0 <= k < a.len() && a[k] == y;
            assert(b[k] == y);
        }
        if y == f(x) {
            assert(b[a.len() as int] == y);
        }
    }
    assert(b.to_set() =~= a.to_set().insert(f(x)));
}

/// A check of the drive changes nothing of an occasion but whether it is there, and it is just
/// where a folder of its name, without blanks at the end, is listed.
pub proof fn lemma_check_only_notes(c: Cluster, listed: Set<Seq<char>>)
    ensures
        checked(c, listed).on_drive == Some(listed.contains(trim_end(c.target@))),
        (Cluster { on_drive: c.on_drive, ..checked(c, listed) }) == c,
{
}

proof fn lemma_number_end(a: Seq<char>, num: Seq<char>)
    requires
        a.len() == 0 || !('0' <= a.last() <= '9' || a.last() == '.'),
        forall|i: int| 0 <= i < num.len() ==> '0' <= (#[trigger] num[i]) <= '9' || num[i] == '.',
    ensures
        number_end(a + num) == num,
    decreases num.len(),
{
    if num.len() == 0 {
        assert(a + num == a);
        assert(number_end(a) == num);
    } else {
        let f = num.drop_last();
        assert((a + num).drop_last() == a + f);
        assert((a + num).last() == num[num.len() - 1]);
        assert forall|i: int| 0 <= i < f.len() implies '0' <= (#[trigger] f[i]) <= '9' || f[i]
            == '.' by {
            assert(f[i] == num[i]);
        }
        lemma_number_end(a, f);
        assert(f.push(num.last()) == num);
    }
}

/// How far an upload has come is the number just before the first percent sign of what it
/// prints; without that sign there is none.
pub proof fn lemma_percent(a: Seq<char>, num: Seq<char>, rest: Seq<char>)
    requires
        !a.contains('%'),
        a.len() == 0 || !('0' <= a.last() <= '9' || a.last() == '.'),
        forall|i: int| 0 <= i < num.len() ==> '0' <= (#[trigger] num[i]) <= '9' || num[i] == '.',
    ensures
        percent_of(a + num + "%"@ + rest) == Some(num),
        percent_of(a) is None,
{
    reveal_strlit("%");
    let s = a + num + "%"@ + rest;
    let n = (a.len() + num.len()) as int;
    lemma_index_of_char(s, '%');
    lemma_index_of_char(a, '%');
    let k = index_of_char(s, '%');
    assert(s[n] == '%');
    assert(k == n) by {
        if k < a.len() {
            assert(a.contains(a[k]));
        } else if k < n {
            assert(s[k] == num[k - a.len()]);
        }
    }
    assert(s.take(n) == a + num);
    lemma_number_end(a, num);
    let j = index_of_char(a, '%');
    if j < a.len() {
        assert(a.contains(a[j]));
    }
}

/// An upload went well just where rclone ran to its end and said so; else what went wrong is
/// told, with the words that there are for it.
pub proof fn lemma_failure_told(end: UploadEnd)
    ensures
        upload_failure(end) is None <==> (end is Exited && end->success),
        match end {
            UploadEnd::NotListed(e) => has_text(upload_failure(end)->0, e@),
            UploadEnd::NotRun(e) => has_text(upload_failure(end)->0, e@),
            UploadEnd::NotWaited(e) => has_text(upload_failure(end)->0, e@),
            UploadEnd::Exited { success, status } => !success ==> has_text(
                upload_failure(end)->0,
                status@,
            ),
        },
{
    let none = Seq::<char>::empty();
    match end {
        UploadEnd::NotListed(e) => lemma_text_within(none, e@, none, e@),
        UploadEnd::NotRun(e) => lemma_text_within(
            "rclone not runnable ("@,
            e@,
            ")"@,
            upload_failure(end)->0,
        ),
        UploadEnd::NotWaited(e) => lemma_text_within(none, e@, none, e@),
        UploadEnd::Exited { success, status } => {
            if !success {
                lemma_text_within("rclone exited with "@, status@, none, upload_failure(end)->0);
            }
        },
    }
}

/// What is told of a check names how many occasions are there, of how many, and where; or what
/// went wrong.
pub proof fn lemma_check_told(n: nat, count: nat, dest: Seq<char>, e: Seq<char>)
    ensures
        has_text(check_text(Ok(n), count, dest), dec(n) + " of "@ + dec(count)),
        has_text(check_text(Ok(n), count, dest), dest),
        has_text(check_text(Err(e), count, dest), e),
{
    let none = Seq::<char>::empty();
    let t = check_text(Ok(n), count, dest);
    let end = " occasions present under "@;
    lemma_text_within("Drive: "@, dec(n) + " of "@ + dec(count), end + dest, t);
    lemma_text_within("Drive: "@ + dec(n) + " of "@ + dec(count) + end, dest, none, t);
    lemma_text_within("Drive check failed: "@, e, none, check_text(Err(e), count, dest));
}

/// Different processes have different lists too.
pub proof fn lemma_lists_of_processes_differ(tmp: Seq<char>, p: nat, q: nat, a: nat, b: nat)
    requires
        p != q,
    ensures
        joined(tmp, list_name(p, a)) != joined(tmp, list_name(q, b)),
{
    reveal_strlit("wpic-upload-");
    reveal_strlit("-");
    let front = "wpic-upload-"@;
    let x = list_name(p, a);
    let y = list_name(q, b);
    let u = dec(p) + "-"@ + dec(a) + ".txt"@;
    let v = dec(q) + "-"@ + dec(b) + ".txt"@;
    assert(x == front + u);
    assert(y == front + v);
    assert(x[0] == 'w' && y[0] == 'w');
    let e = if tmp.len() == 0 || tmp.last() == '/' {
        tmp
    } else {
        tmp.push('/')
    };
    assert(joined(tmp, x) == e + x);
    assert(joined(tmp, y) == e + y);
    if joined(tmp, x) == joined(tmp, y) {
        let n = (e.len() + front.len()) as int;
        assert(u == joined(tmp, x).skip(n));
        assert(v == joined(tmp, y).skip(n));
        assert(u == v);
        lemma_up_to_hyphen(p, "-"@ + dec(a) + ".txt"@, u);
        lemma_up_to_hyphen(q, "-"@ + dec(b) + ".txt"@, v);
        lemma_dec_injective(p, q);
    }
}

proof fn lemma_up_to_hyphen(n: nat, rest: Seq<char>, s: Seq<char>)
    requires
        rest.len() > 0,
        rest[0] == '-',
        s =~= dec(n) + rest,
    ensures
        dec(n) == s.take(index_of_char(s, '-')),
{
    lemma_dec_reads_back(n);
    lemma_index_of_char(s, '-');
    let k = index_of_char(s, '-');
    let d = dec(n);
    assert(s[d.len() as int] == '-');
    if k < d.len() {
        assert(is_digit(d[k]));
    }
    assert(s.take(k) == d);
}

} // verus!
