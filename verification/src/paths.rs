//! Paths as text, taken apart and put together as the file system of Unix does it.
use crate::number::{dec, lemma_dec_injective, push_dec};
use crate::order::{lemma_text_total, lemma_text_transitive, rank, text_before, Rank};
use crate::sorting::Sorts;
use crate::text::{
    chars_of, copy_of, find_char, index_of_char, lemma_index_of_char, same, same_chars,
    starts_with, string_of,
};
use vstd::prelude::*;
use vstd::slice::slice_subrange;

verus! {

/// Where `c` last stands in `s`; -1 where it does not.
pub open spec fn last_index_of_char(s: Seq<char>, c: char) -> int
    decreases s.len(),
{
    if s.len() == 0 {
        -1
    } else if s.last() == c {
        s.len() - 1
    } else {
        last_index_of_char(s.drop_last(), c)
    }
}

/// `p` without the separators and the steps to the same directory (`/.`) at its end; a
/// separator that is all of `p` stays.
pub open spec fn without_tail(p: Seq<char>) -> Seq<char>
    decreases p.len(),
{
    if p.len() > 1 && (p.last() == '/' || (p.last() == '.' && p[p.len() - 2] == '/')) {
        without_tail(p.drop_last())
    } else {
        p
    }
}

/// The last name in the path `p`, if it ends in one.
pub open spec fn file_name_of(p: Seq<char>) -> Option<Seq<char>> {
    let b = without_tail(p);
    let n = b.skip(last_index_of_char(b, '/') + 1);
    if n.len() == 0 || n == "."@ || n == ".."@ {
        None
    } else {
        Some(n)
    }
}

/// The name `n` without its extension: what stands before its last dot, unless that is nothing.
pub open spec fn stem_of_name(n: Seq<char>) -> Seq<char> {
    let k = last_index_of_char(n, '.');
    if k > 0 {
        n.take(k)
    } else {
        n
    }
}

/// What stands behind the last dot of the name `n`, if something stands before it.
pub open spec fn ext_of_name(n: Seq<char>) -> Option<Seq<char>> {
    let k = last_index_of_char(n, '.');
    if k > 0 {
        Some(n.skip(k + 1))
    } else {
        None
    }
}

/// The last name in the path `p` without its extension.
pub open spec fn file_stem_of(p: Seq<char>) -> Option<Seq<char>> {
    match file_name_of(p) {
        Some(n) => Some(stem_of_name(n)),
        None => None,
    }
}

/// The extension of the last name in the path `p`.
pub open spec fn extension_of(p: Seq<char>) -> Option<Seq<char>> {
    match file_name_of(p) {
        Some(n) => ext_of_name(n),
        None => None,
    }
}

/// The stem that a shot is known by: that of its path, or nothing.
pub open spec fn stem(p: Seq<char>) -> Seq<char> {
    match file_stem_of(p) {
        Some(s) => s,
        None => seq![],
    }
}

/// The path that `p` stands in, if there is one.
pub open spec fn parent_of(p: Seq<char>) -> Option<Seq<char>> {
    let b = without_tail(p);
    if b.len() == 0 || b == "/"@ {
        None
    } else {
        Some(without_tail(b.take(last_index_of_char(b, '/') + 1)))
    }
}

/// The path `b` taken from the directory `a`; an absolute `b` stands for itself.
pub open spec fn joined(a: Seq<char>, b: Seq<char>) -> Seq<char> {
    if b.len() > 0 && b[0] == '/' {
        b
    } else if a.len() == 0 || a.last() == '/' {
        a + b
    } else {
        a.push('/') + b
    }
}

/// The sidecar of the image `p`: `IMG.NEF` has `IMG.NEF.xmp`.
pub open spec fn sidecar(p: Seq<char>) -> Seq<char> {
    p + ".xmp"@
}

/// The name tried for a file called `name` where `n` earlier tries were taken: its own name
/// first, then one with a number behind its stem.
pub open spec fn numbered(name: Seq<char>, n: nat) -> Seq<char> {
    if n == 0 {
        name
    } else {
        let ext = match ext_of_name(name) {
            Some(e) => e,
            None => seq![],
        };
        stem_of_name(name) + "_"@ + dec(n) + "."@ + ext
    }
}

/// One step of a path.
pub enum Part {
    Root,
    Here,
    Up,
    Name(Seq<char>),
}

/// The step that stands between two separators, if there is one; `first` where it begins a
/// relative path.
pub open spec fn piece_part(piece: Seq<char>, first: bool) -> Seq<Part> {
    if piece.len() == 0 {
        seq![]
    } else if piece == "."@ {
        if first {
            seq![Part::Here]
        } else {
            seq![]
        }
    } else if piece == ".."@ {
        seq![Part::Up]
    } else {
        seq![Part::Name(piece)]
    }
}

/// The steps of the relative path `s`.
pub open spec fn body_parts(s: Seq<char>, first: bool) -> Seq<Part>
    decreases s.len(),
{
    let k = index_of_char(s, '/');
    if 0 <= k < s.len() {
        piece_part(s.take(k), first) + body_parts(s.skip(k + 1), false)
    } else {
        piece_part(s, first)
    }
}

/// The steps of the path `p`.
pub open spec fn parts(p: Seq<char>) -> Seq<Part> {
    if p.len() > 0 && p[0] == '/' {
        seq![Part::Root] + body_parts(p.skip(1), false)
    } else {
        body_parts(p, true)
    }
}

/// The place of a kind of step among the others.
pub open spec fn part_kind(a: Part) -> int {
    match a {
        Part::Root => 0,
        Part::Here => 1,
        Part::Up => 2,
        Part::Name(_) => 3,
    }
}

/// Whether the step `a` comes before the step `b`.
pub open spec fn part_before(a: Part, b: Part) -> bool {
    match (a, b) {
        (Part::Name(x), Part::Name(y)) => text_before(x, y),
        _ => part_kind(a) < part_kind(b),
    }
}

/// Whether the steps `a` come before the steps `b`.
pub open spec fn parts_before(a: Seq<Part>, b: Seq<Part>) -> bool
    decreases a.len(),
{
    if b.len() == 0 {
        false
    } else if a.len() == 0 {
        true
    } else if a[0] != b[0] {
        part_before(a[0], b[0])
    } else {
        parts_before(a.drop_first(), b.drop_first())
    }
}

/// Whether the path `a` comes before the path `b`: step by step.
pub open spec fn path_before(a: Seq<char>, b: Seq<char>) -> bool {
    parts_before(parts(a), parts(b))
}

proof fn lemma_parts_total(a: Seq<Part>, b: Seq<Part>)
    ensures
        a == b || parts_before(a, b) || parts_before(b, a),
        !(parts_before(a, b) && parts_before(b, a)),
        a == b ==> !parts_before(a, b),
    decreases a.len(),
{
    if a.len() > 0 && b.len() > 0 {
        match (a[0], b[0]) {
            (Part::Name(x), Part::Name(y)) => {
                lemma_text_total(x, y);
            },
            _ => {},
        }
        if a[0] == b[0] {
            lemma_parts_total(a.drop_first(), b.drop_first());
            if a.drop_first() == b.drop_first() {
                assert(a == seq![a[0]] + a.drop_first());
                assert(b == seq![b[0]] + b.drop_first());
            }
        }
    } else if a.len() == 0 && b.len() == 0 {
        assert(a == b);
    }
}

proof fn lemma_parts_transitive(a: Seq<Part>, b: Seq<Part>, c: Seq<Part>)
    requires
        parts_before(a, b),
        parts_before(b, c),
    ensures
        parts_before(a, c),
    decreases a.len(),
{
    if a.len() > 0 {
        if a[0] == b[0] && b[0] == c[0] {
            lemma_parts_transitive(a.drop_first(), b.drop_first(), c.drop_first());
        } else {
            match (a[0], b[0], c[0]) {
                (Part::Name(x), Part::Name(y), Part::Name(z)) => {
                    lemma_text_total(x, y);
                    lemma_text_total(y, z);
                    lemma_text_total(x, z);
                    if text_before(x, y) && text_before(y, z) {
                        lemma_text_transitive(x, y, z);
                    }
                },
                _ => {},
            }
        }
    }
}

/// Where `c` last stands in `v`, one further; 0 where it does not.
fn after_last(v: &[char], c: char) -> (k: usize)
    ensures
        k == last_index_of_char(v@, c) + 1,
        k <= v@.len(),
{
    let mut k: usize = v.len();
    assert(v@.take(k as int) == v@);
    while k > 0 && v[k - 1] != c
        invariant
            k <= v.len(),
            last_index_of_char(v@, c) == last_index_of_char(v@.take(k as int), c),
        decreases k,
    {
        assert(v@.take(k as int).drop_last() == v@.take(k - 1));
        k -= 1;
    }
    k
}

/// Takes the separators and the steps to the same directory off the end of `v`.
fn strip_tail(v: &[char]) -> (r: &[char])
    ensures
        r@ == without_tail(v@),
{
    let mut n: usize = v.len();
    assert(v@.take(n as int) == v@);
    while n > 1 && (v[n - 1] == '/' || (v[n - 1] == '.' && v[n - 2] == '/'))
        invariant
            n <= v.len(),
            without_tail(v@) == without_tail(v@.take(n as int)),
        decreases n,
    {
        assert(v@.take(n as int).drop_last() == v@.take(n - 1));
        n -= 1;
    }
    slice_subrange(v, 0, n)
}

/// The last name in the path `p`.
pub fn file_name(p: &str) -> (r: Option<String>)
    ensures
        match r {
            Some(n) => file_name_of(p@) == Some(n@),
            None => file_name_of(p@) is None,
        },
{
    let v = chars_of(p);
    let b = strip_tail(v.as_slice());
    let k: usize = after_last(b, '/');
    let n = slice_subrange(b, k, b.len());
    let one = chars_of(".");
    let two = chars_of("..");
    assert(b@.skip(k as int) == n@);
    if n.len() == 0 || same_chars(n, one.as_slice()) || same_chars(n, two.as_slice()) {
        None
    } else {
        Some(string_of(n))
    }
}

/// The name `n` without its extension.
pub fn name_stem(n: &str) -> (r: String)
    ensures
        r@ == stem_of_name(n@),
{
    let v = chars_of(n);
    let k: usize = after_last(v.as_slice(), '.');
    if k > 1 {
        string_of(slice_subrange(v.as_slice(), 0, k - 1))
    } else {
        copy_of(n)
    }
}

/// The extension of the name `n`.
pub fn name_extension(n: &str) -> (r: Option<String>)
    ensures
        match r {
            Some(e) => ext_of_name(n@) == Some(e@),
            None => ext_of_name(n@) is None,
        },
{
    let v = chars_of(n);
    let k: usize = after_last(v.as_slice(), '.');
    if k > 1 {
        Some(string_of(slice_subrange(v.as_slice(), k, v.len())))
    } else {
        None
    }
}

/// The last name in the path `p` without its extension.
pub fn file_stem(p: &str) -> (r: Option<String>)
    ensures
        match r {
            Some(s) => file_stem_of(p@) == Some(s@),
            None => file_stem_of(p@) is None,
        },
{
    match file_name(p) {
        Some(n) => Some(name_stem(n.as_str())),
        None => None,
    }
}

/// The extension of the last name in the path `p`.
pub fn extension(p: &str) -> (r: Option<String>)
    ensures
        match r {
            Some(e) => extension_of(p@) == Some(e@),
            None => extension_of(p@) is None,
        },
{
    match file_name(p) {
        Some(n) => name_extension(n.as_str()),
        None => None,
    }
}

/// The stem that the shot at `p` is known by.
pub fn stem_of(p: &str) -> (s: String)
    ensures
        s@ == stem(p@),
{
    match file_stem(p) {
        Some(s) => s,
        None => {
            let s = String::new();
            assert(s@ == Seq::<char>::empty());
            s
        },
    }
}

/// The path that `p` stands in.
pub fn parent(p: &str) -> (r: Option<String>)
    ensures
        match r {
            Some(d) => parent_of(p@) == Some(d@),
            None => parent_of(p@) is None,
        },
{
    let v = chars_of(p);
    let b = strip_tail(v.as_slice());
    let sep = chars_of("/");
    if b.len() == 0 || same_chars(b, sep.as_slice()) {
        return None;
    }
    let k: usize = after_last(b, '/');
    let q = slice_subrange(b, 0, k);
    assert(q@ == b@.take(k as int));
    Some(string_of(strip_tail(q)))
}

/// The path `b` taken from the directory `a`.
pub fn join_path(a: &str, b: &str) -> (r: String)
    ensures
        r@ == joined(a@, b@),
{
    let x = chars_of(a);
    let y = chars_of(b);
    if y.len() > 0 && y[0] == '/' {
        return copy_of(b);
    }
    let mut r = copy_of(a);
    if x.len() > 0 && x[x.len() - 1] != '/' {
        r.push('/');
    }
    r.append(b);
    r
}

/// The sidecar of the image `img`.
pub fn sidecar_path(img: &str) -> (r: String)
    ensures
        r@ == sidecar(img@),
{
    let mut r = copy_of(img);
    r.append(".xmp");
    r
}

/// Where a file called `name` goes in `dir` when the places tried before, `n` of them, were
/// taken.
pub fn destination(dir: &str, name: &str, n: u64) -> (r: String)
    ensures
        r@ == joined(dir@, numbered(name@, n as nat)),
{
    if n == 0 {
        return join_path(dir, name);
    }
    let mut t = name_stem(name);
    t.append("_");
    push_dec(&mut t, n);
    t.append(".");
    match name_extension(name) {
        Some(e) => {
            t.append(e.as_str());
        },
        None => {
            assert(t@ == t@ + Seq::<char>::empty());
        },
    }
    join_path(dir, t.as_str())
}

/// The numbered names tried for one file are all different.
pub proof fn lemma_numbered_distinct(name: Seq<char>, m: nat, n: nat)
    requires
        m > 0,
        n > 0,
        m != n,
    ensures
        numbered(name, m) != numbered(name, n),
{
    let a = stem_of_name(name) + "_"@;
    let ext = match ext_of_name(name) {
        Some(e) => e,
        None => seq![],
    };
    let z = "."@ + ext;
    let x = numbered(name, m);
    let y = numbered(name, n);
    assert(x == a + dec(m) + z);
    assert(y == a + dec(n) + z);
    if x == y {
        assert(dec(m) == x.subrange(a.len() as int, x.len() - z.len()));
        assert(dec(n) == y.subrange(a.len() as int, y.len() - z.len()));
        lemma_dec_injective(m, n);
    }
}

/// One step of a path.
pub enum Step {
    Root,
    Here,
    Up,
    Name(String),
}

/// What a step stands for.
pub open spec fn step_part(s: Step) -> Part {
    match s {
        Step::Root => Part::Root,
        Step::Here => Part::Here,
        Step::Up => Part::Up,
        Step::Name(n) => Part::Name(n@),
    }
}

/// What the steps stand for.
pub open spec fn step_parts(v: Seq<Step>) -> Seq<Part> {
    v.map_values(|s: Step| step_part(s))
}

/// Adds the step that `piece` makes.
fn push_piece(v: &mut Vec<Step>, piece: &[char], first: bool)
    ensures
        step_parts(final(v)@) == step_parts(old(v)@) + piece_part(piece@, first),
{
    let one = chars_of(".");
    let two = chars_of("..");
    let ghost was = v@;
    if piece.len() == 0 {
        assert(step_parts(v@) == step_parts(was) + piece_part(piece@, first));
    } else if same_chars(piece, one.as_slice()) {
        if first {
            v.push(Step::Here);
            assert(step_parts(v@) == step_parts(was) + seq![Part::Here]);
        } else {
            assert(step_parts(v@) == step_parts(was) + piece_part(piece@, first));
        }
    } else if same_chars(piece, two.as_slice()) {
        v.push(Step::Up);
        assert(step_parts(v@) == step_parts(was) + seq![Part::Up]);
    } else {
        v.push(Step::Name(string_of(piece)));
        assert(step_parts(v@) == step_parts(was) + seq![Part::Name(piece@)]);
    }
}

/// The steps of the path `p`.
fn steps_of(p: &str) -> (v: Vec<Step>)
    ensures
        step_parts(v@) == parts(p@),
{
    let c = chars_of(p);
    let mut v: Vec<Step> = Vec::new();
    let mut rest: &[char] = c.as_slice();
    let mut first: bool = true;
    let mut open: bool = true;
    if c.len() > 0 && c[0] == '/' {
        v.push(Step::Root);
        rest = slice_subrange(rest, 1, rest.len());
        first = false;
        assert(rest@ == p@.skip(1));
        assert(step_parts(v@) == seq![Part::Root]);
    } else {
        assert(step_parts(v@) + body_parts(p@, true) == body_parts(p@, true));
    }
    while open
        invariant
            parts(p@) == step_parts(v@) + (if open { body_parts(rest@, first) } else { seq![] }),
        decreases rest.len(), open as int,
    {
        let k: usize = find_char(rest, '/');
        let ghost whole = rest@;
        let ghost was = v@;
        if k < rest.len() {
            push_piece(&mut v, slice_subrange(rest, 0, k), first);
            rest = slice_subrange(rest, k + 1, rest.len());
            assert(rest@ == whole.skip(k + 1));
            assert(whole.subrange(0, k as int) == whole.take(k as int));
            assert(parts(p@) == step_parts(v@) + body_parts(rest@, false));
            first = false;
        } else {
            push_piece(&mut v, rest, first);
            open = false;
            assert(parts(p@) == step_parts(v@) + Seq::<Part>::empty());
        }
    }
    v
}

/// Orders two steps.
fn rank_steps(a: &Step, b: &Step) -> (r: Rank)
    ensures
        r == Rank::Same <==> step_part(*a) == step_part(*b),
        r == Rank::Before ==> part_before(step_part(*a), step_part(*b)),
        r == Rank::After ==> part_before(step_part(*b), step_part(*a)),
{
    match (a, b) {
        (Step::Name(x), Step::Name(y)) => rank(x.as_str(), y.as_str()),
        (Step::Root, Step::Root) => Rank::Same,
        (Step::Here, Step::Here) => Rank::Same,
        (Step::Up, Step::Up) => Rank::Same,
        (Step::Root, _) => Rank::Before,
        (_, Step::Root) => Rank::After,
        (Step::Here, _) => Rank::Before,
        (_, Step::Here) => Rank::After,
        (Step::Up, _) => Rank::Before,
        (_, Step::Up) => Rank::After,
    }
}

/// Whether the path `a` comes before the path `b`.
pub fn path_less(a: &str, b: &str) -> (r: bool)
    ensures
        r == path_before(a@, b@),
{
    let x = steps_of(a);
    let y = steps_of(b);
    let ghost u = parts(a@);
    let ghost w = parts(b@);
    let mut i: usize = 0;
    proof {
        assert(u.skip(0) == u);
        assert(w.skip(0) == w);
        lemma_parts_total(u, w);
    }
    while i < x.len() && i < y.len()
        invariant
            i <= x.len(),
            i <= y.len(),
            u == step_parts(x@),
            w == step_parts(y@),
            u == parts(a@),
            w == parts(b@),
            !(parts_before(u, w) && parts_before(w, u)),
            parts_before(u, w) == parts_before(u.skip(i as int), w.skip(i as int)),
            parts_before(w, u) == parts_before(w.skip(i as int), u.skip(i as int)),
        decreases x.len() - i,
    {
        assert(u.skip(i as int)[0] == step_part(x@[i as int]));
        assert(w.skip(i as int)[0] == step_part(y@[i as int]));
        match rank_steps(&x[i], &y[i]) {
            Rank::Before => {
                return true;
            },
            Rank::After => {
                return false;
            },
            Rank::Same => {},
        }
        assert(u.skip(i as int).drop_first() == u.skip(i + 1));
        assert(w.skip(i as int).drop_first() == w.skip(i + 1));
        i += 1;
    }
    i < y.len()
}

/// Strings are sorted as the paths they are.
impl Sorts for String {
    open spec fn precedes(self, other: Self) -> bool {
        path_before(self@, other@)
    }

    proof fn lemma_one_way(a: Self, b: Self) {
        lemma_parts_total(parts(a@), parts(b@));
    }

    proof fn lemma_chain(a: Self, b: Self, c: Self) {
        let x = parts(a@);
        let y = parts(b@);
        let z = parts(c@);
        lemma_parts_total(x, y);
        lemma_parts_total(y, z);
        lemma_parts_total(x, z);
        if parts_before(x, y) && parts_before(y, z) {
            lemma_parts_transitive(x, y, z);
        }
    }

    fn before(&self, other: &Self) -> (r: bool) {
        path_less(self.as_str(), other.as_str())
    }
}

/// The text `s` of a path, in which a leading `~` stands for the home directory.
pub open spec fn tilde_expanded(s: Seq<char>, home: Seq<char>) -> Seq<char> {
    if "~/"@.is_prefix_of(s) {
        joined(home, s.skip(2))
    } else if s == "~"@ {
        home
    } else {
        s
    }
}

/// Replaces a leading `~` of the path `s` by the home directory.
pub fn expand_tilde(s: &str, home: &str) -> (r: String)
    ensures
        r@ == tilde_expanded(s@, home@),
{
    if starts_with(s, "~/") {
        proof {
            reveal_strlit("~/");
        }
        let v = chars_of(s);
        let rest = string_of(slice_subrange(v.as_slice(), 2, v.len()));
        assert(rest@ == s@.skip(2));
        join_path(home, rest.as_str())
    } else if same(s, "~") {
        copy_of(home)
    } else {
        copy_of(s)
    }
}

/// Whether `n` can be the name of a file: some text without a separator that is no step to the
/// same or the upper directory.
pub open spec fn is_name(n: Seq<char>) -> bool {
    n.len() > 0 && !n.contains('/') && n != "."@ && n != ".."@
}

/// Whether the path `d` of a directory ends in no separator or step to the same directory.
pub open spec fn is_tidy(d: Seq<char>) -> bool {
    d.len() > 0 && without_tail(d) == d
}

proof fn lemma_last_index(d: Seq<char>, n: Seq<char>)
    requires
        !n.contains('/'),
        d.len() == 0 || d.last() == '/',
    ensures
        last_index_of_char(d + n, '/') == d.len() - 1,
    decreases n.len(),
{
    let p = d + n;
    if n.len() == 0 {
        assert(p == d);
    } else {
        assert(n.contains(n[n.len() - 1]));
        assert(p.last() == n.last());
        assert(p.drop_last() == d + n.drop_last());
        assert forall|i: int| 0 <= i < n.len() - 1 implies n.drop_last()[i] != '/' by {
            assert(n.contains(n[i]));
        }
        lemma_last_index(d, n.drop_last());
    }
}

proof fn lemma_behind_last(s: Seq<char>, c: char)
    ensures
        -1 <= last_index_of_char(s, c) < s.len(),
        !s.skip(last_index_of_char(s, c) + 1).contains(c),
    decreases s.len(),
{
    if s.len() > 0 && s.last() != c {
        let f = s.drop_last();
        lemma_behind_last(f, c);
        let k = last_index_of_char(f, c) + 1;
        assert forall|i: int| 0 <= i < s.len() - k implies s.skip(k)[i] != c by {
            if i < f.len() - k {
                assert(f.skip(k).contains(f.skip(k)[i]));
            }
        }
    }
}

/// The last name in a path can be the name of a file.
pub proof fn lemma_file_name(p: Seq<char>)
    ensures
        match file_name_of(p) {
            Some(n) => is_name(n),
            None => true,
        },
{
    lemma_behind_last(without_tail(p), '/');
}

/// The sidecar of a file called `n` stands beside it, and its name is `n` with `.xmp` behind it.
pub proof fn lemma_sidecar_beside(d: Seq<char>, n: Seq<char>)
    requires
        is_name(n),
    ensures
        is_name(n + ".xmp"@),
        sidecar(joined(d, n)) == joined(d, n + ".xmp"@),
        file_name_of(sidecar(joined(d, n))) == Some(n + ".xmp"@),
{
    reveal_strlit(".xmp");
    reveal_strlit(".");
    reveal_strlit("..");
    let x = n + ".xmp"@;
    assert forall|i: int| 0 <= i < x.len() implies x[i] != '/' by {
        if i < n.len() {
            assert(n.contains(n[i]));
        }
    }
    assert(x.len() > 2);
    assert("."@.len() == 1 && ".."@.len() == 2);
    assert(sidecar(joined(d, n)) == joined(d, x));
    lemma_joined(d, x);
}

/// A file called `n` in the directory `d` has the name `n`, and where `d` is tidy it stands in
/// `d`.
pub proof fn lemma_joined(d: Seq<char>, n: Seq<char>)
    requires
        is_name(n),
    ensures
        file_name_of(joined(d, n)) == Some(n),
        is_tidy(d) ==> parent_of(joined(d, n)) == Some(d),
{
    reveal_strlit(".");
    assert(n.contains(n[0]));
    assert(n.contains(n[n.len() - 1]));
    let p = joined(d, n);
    let e = if d.len() == 0 || d.last() == '/' {
        d
    } else {
        d.push('/')
    };
    assert(p == e + n);
    assert(p.last() == n.last());
    if p.len() > 1 && n.last() == '.' && p[p.len() - 2] == '/' {
        if n.len() > 1 {
            assert(n.contains(n[n.len() - 2]));
        } else {
            assert(n == "."@);
        }
    }
    assert(without_tail(p) == p);
    lemma_last_index(e, n);
    assert(p.skip(e.len() as int) == n);
    if is_tidy(d) {
        assert(p.take(e.len() as int) == e);
        reveal_strlit("/");
        assert(p != "/"@) by {
            if p == "/"@ {
                assert(p.last() == '/');
            }
        }
        if d.last() == '/' {
            assert(e == d);
        } else {
            assert(e.drop_last() == d);
            assert(without_tail(e) == without_tail(d));
        }
    }
}

proof fn lemma_last_dot(a: Seq<char>, b: Seq<char>)
    requires
        !b.contains('.'),
    ensures
        last_index_of_char(a.push('.') + b, '.') == a.len(),
        last_index_of_char(b, '.') == -1,
    decreases b.len(),
{
    let s = a.push('.') + b;
    if b.len() == 0 {
        assert(s.last() == '.');
    } else {
        let f = b.drop_last();
        assert(b.contains(b[b.len() - 1]));
        assert forall|i: int| 0 <= i < f.len() implies f[i] != '.' by {
            assert(b.contains(b[i]));
        }
        assert(s.last() == b.last());
        assert(s.drop_last() == a.push('.') + f);
        lemma_last_dot(a, f);
    }
}

/// A name is its stem, a dot and its extension, which holds no dot; a name whose only dot is its
/// first character, or that has none, is its own stem.
pub proof fn lemma_stem_and_extension(a: Seq<char>, b: Seq<char>)
    requires
        !b.contains('.'),
    ensures
        a.len() > 0 ==> {
            &&& stem_of_name(a + "."@ + b) == a
            &&& ext_of_name(a + "."@ + b) == Some(b)
        },
        stem_of_name("."@ + b) == "."@ + b,
        ext_of_name("."@ + b) is None,
        stem_of_name(b) == b,
        ext_of_name(b) is None,
{
    reveal_strlit(".");
    let s = a + "."@ + b;
    let none = Seq::<char>::empty();
    lemma_last_dot(a, b);
    lemma_last_dot(none, b);
    assert(s == a.push('.') + b);
    assert("."@ + b == none.push('.') + b);
    assert(s.take(a.len() as int) == a);
    assert(s.skip(a.len() as int + 1) == b);
}

/// The file `stem.ext` in the directory `d` has the stem and the extension that it is called by.
pub proof fn lemma_path_stem(d: Seq<char>, a: Seq<char>, b: Seq<char>)
    requires
        a.len() > 0,
        !b.contains('.'),
        is_name(a + "."@ + b),
    ensures
        file_stem_of(joined(d, a + "."@ + b)) == Some(a),
        extension_of(joined(d, a + "."@ + b)) == Some(b),
        stem(joined(d, a + "."@ + b)) == a,
{
    lemma_joined(d, a + "."@ + b);
    lemma_stem_and_extension(a, b);
}

/// The names tried for `stem.ext` are itself, then the stem with an underscore and the number,
/// and the same extension.
pub proof fn lemma_numbered(a: Seq<char>, b: Seq<char>, n: nat)
    requires
        a.len() > 0,
        !b.contains('.'),
        n > 0,
    ensures
        numbered(a + "."@ + b, 0) == a + "."@ + b,
        numbered(a + "."@ + b, n) == a + "_"@ + dec(n) + "."@ + b,
        numbered(b, n) == b + "_"@ + dec(n) + "."@,
        numbered("."@ + b, n) == "."@ + b + "_"@ + dec(n) + "."@,
{
    lemma_stem_and_extension(a, b);
    let h = "."@ + b;
    assert(h + "_"@ + dec(n) + "."@ + Seq::<char>::empty() == h + "_"@ + dec(n) + "."@);
    assert(b + "_"@ + dec(n) + "."@ + Seq::<char>::empty() == b + "_"@ + dec(n) + "."@);
}

/// A path taken from a directory begins with it, and a separator stands between the two; an
/// absolute one stands for itself.
pub proof fn lemma_join_shape(a: Seq<char>, b: Seq<char>)
    ensures
        b.len() > 0 && b[0] == '/' ==> joined(a, b) == b,
        !(b.len() > 0 && b[0] == '/') && a.len() > 0 && a.last() != '/' ==> joined(a, b) == a
            + "/"@ + b,
        !(b.len() > 0 && b[0] == '/') && a.len() > 0 && a.last() == '/' ==> joined(a, b) == a + b,
        !(b.len() > 0 && b[0] == '/') && a.len() == 0 ==> joined(a, b) == b,
{
    reveal_strlit("/");
    assert(a.push('/') + b == a + "/"@ + b);
}

/// Only a `~` alone or before a separator at the start of a path stands for the home directory.
pub proof fn lemma_home(home: Seq<char>, rest: Seq<char>)
    ensures
        tilde_expanded(seq!['~'], home) == home,
        tilde_expanded(seq!['~', '/'] + rest, home) == joined(home, rest),
        rest.len() == 0 || rest[0] != '~' ==> tilde_expanded(rest, home) == rest,
        rest.len() > 0 && rest[0] != '/' ==> tilde_expanded(seq!['~'] + rest, home) == seq!['~']
            + rest,
{
    reveal_strlit("~/");
    reveal_strlit("~");
    let t = seq!['~', '/'] + rest;
    let u = seq!['~'] + rest;
    assert("~"@ == seq!['~']);
    assert("~/"@ == seq!['~', '/']);
    assert(t.take(2) == "~/"@);
    assert("~/"@.is_prefix_of(t));
    assert(t.skip(2) == rest);
    if rest.len() > 0 && rest[0] != '/' {
        assert(u[1] == rest[0]);
        assert("~/"@[1] == '/');
    }
}

proof fn lemma_body_parts(s: Seq<char>, n: Seq<char>, first: bool)
    requires
        s.len() == 0 || s.last() == '/',
        !n.contains('/'),
    ensures
        body_parts(s + n, first) == body_parts(s, first) + piece_part(n, first && s.len() == 0),
    decreases s.len(),
{
    lemma_index_of_char(s, '/');
    lemma_index_of_char(n, '/');
    lemma_index_of_char(s + n, '/');
    if s.len() == 0 {
        assert(s + n == n);
        let k = index_of_char(n, '/');
        if k < n.len() {
            assert(n.contains(n[k]));
        }
        assert(body_parts(s, first) == Seq::<Part>::empty());
    } else {
        let k = index_of_char(s, '/');
        let t = s + n;
        assert(k < s.len()) by {
            if k == s.len() {
                assert(s[s.len() - 1] != '/');
            }
        }
        assert(index_of_char(t, '/') == k) by {
            let j = index_of_char(t, '/');
            assert(t[k] == '/');
            if j < k {
                assert(t[j] == s[j]);
            }
        }
        assert(t.take(k) == s.take(k));
        let u = s.skip(k + 1);
        assert(t.skip(k + 1) == u + n);
        lemma_body_parts(u, n, false);
        let h = piece_part(s.take(k), first);
        assert(h + (body_parts(u, false) + piece_part(n, false)) == h + body_parts(u, false)
            + piece_part(n, false));
    }
}

/// Behind the steps to a directory, the one to a file in it is its name.
pub proof fn lemma_parts_joined(d: Seq<char>, n: Seq<char>)
    requires
        is_name(n),
    ensures
        parts(joined(d, n)) == parts(d).push(Part::Name(n)),
{
    assert(n.contains(n[0]));
    let p = joined(d, n);
    let e = if d.len() == 0 || d.last() == '/' {
        d
    } else {
        d.push('/')
    };
    assert(p == e + n);
    assert(piece_part(n, true) == seq![Part::Name(n)]);
    assert(piece_part(n, false) == seq![Part::Name(n)]);
    if d.len() == 0 {
        assert(p == n);
        lemma_body_parts(d, n, true);
        assert(parts(d) == Seq::<Part>::empty());
        assert(parts(p) == parts(d).push(Part::Name(n)));
    } else if d[0] == '/' {
        let f = e.skip(1);
        assert(p.skip(1) == f + n);
        lemma_body_parts(f, n, false);
        if d.last() != '/' {
            lemma_body_end(d.skip(1), false);
            assert(f == d.skip(1).push('/'));
        }
        assert(seq![Part::Root] + (body_parts(f, false) + seq![Part::Name(n)]) == (seq![Part::Root]
            + body_parts(f, false)).push(Part::Name(n)));
    } else {
        lemma_body_parts(e, n, true);
        lemma_body_end(d, true);
        assert(body_parts(e, true) + seq![Part::Name(n)] == body_parts(e, true).push(
            Part::Name(n),
        ));
    }
}

proof fn lemma_body_end(s: Seq<char>, first: bool)
    requires
        s.len() > 0,
    ensures
        body_parts(s.push('/'), first) == body_parts(s, first),
    decreases s.len(),
{
    let t = s.push('/');
    let k = index_of_char(s, '/');
    lemma_index_of_char(s, '/');
    lemma_index_of_char(t, '/');
    let j = index_of_char(t, '/');
    assert(t[s.len() as int] == '/');
    assert(j == k) by {
        if j < k {
            assert(t[j] == s[j]);
        }
        if k < j {
            assert(t[k] == '/');
        }
    }
    assert(t.take(k) == s.take(k));
    let none = Seq::<char>::empty();
    assert(body_parts(none, false) == Seq::<Part>::empty());
    if k < s.len() {
        let u = s.skip(k + 1);
        assert(t.skip(k + 1) == u.push('/'));
        if u.len() > 0 {
            lemma_body_end(u, false);
        } else {
            assert(u == none);
            assert(u.push('/') == seq!['/']);
            let w = seq!['/'];
            assert(index_of_char(w, '/') == 0);
            assert(w.take(0) == none);
            assert(w.skip(1) == none);
            assert(piece_part(none, false) == Seq::<Part>::empty());
            assert(body_parts(w, false) == Seq::<Part>::empty());
        }
    } else {
        assert(s.take(k) == s);
        assert(t.skip(k + 1) == none);
        assert(body_parts(t, first) == piece_part(s, first) + body_parts(none, false));
        assert(body_parts(t, first) == piece_part(s, first));
    }
}

proof fn lemma_parts_behind(h: Seq<Part>, a: Part, b: Part)
    requires
        part_before(a, b),
        a != b,
    ensures
        parts_before(h.push(a), h.push(b)),
        parts_before(h, h.push(a)),
    decreases h.len(),
{
    let x = h.push(a);
    let y = h.push(b);
    if h.len() > 0 {
        let f = h.drop_first();
        lemma_parts_behind(f, a, b);
        assert(x.drop_first() == f.push(a));
        assert(y.drop_first() == f.push(b));
    }
}

/// The files of a directory come in the order of their names, and behind the directory.
pub proof fn lemma_order_in_directory(d: Seq<char>, a: Seq<char>, b: Seq<char>)
    requires
        is_name(a),
        is_name(b),
        text_before(a, b),
    ensures
        path_before(joined(d, a), joined(d, b)),
        path_before(d, joined(d, a)),
        !path_before(joined(d, b), joined(d, a)),
{
    lemma_parts_joined(d, a);
    lemma_parts_joined(d, b);
    lemma_text_total(a, b);
    lemma_parts_behind(parts(d), Part::Name(a), Part::Name(b));
    lemma_parts_total(parts(joined(d, a)), parts(joined(d, b)));
}

/// Separators and steps to the same directory at the end of a path change neither the name at
/// its end nor where that stands; a step up and the root are no name.
pub proof fn lemma_trailing(p: Seq<char>)
    requires
        p.len() > 0,
    ensures
        file_name_of(p.push('/')) == file_name_of(p),
        parent_of(p.push('/')) == parent_of(p),
        file_name_of(p.push('/').push('.')) == file_name_of(p),
        parent_of(p.push('/').push('.')) == parent_of(p),
        file_name_of(p + "/.."@) is None,
        file_name_of("/"@) is None,
        parent_of("/"@) is None,
{
    reveal_strlit("/");
    reveal_strlit(".");
    reveal_strlit("..");
    reveal_strlit("/..");
    let a = p.push('/');
    let b = a.push('.');
    assert(a.drop_last() == p);
    assert(b.drop_last() == a);
    assert(without_tail(a) == without_tail(p));
    assert(without_tail(b) == without_tail(a));
    let c = p + "/.."@;
    let up = seq!['.', '.'];
    assert(c == a + up);
    assert(c.last() == '.' && c[c.len() - 2] == '.');
    assert(without_tail(c) == c);
    lemma_last_index(a, up);
    assert(c.skip(a.len() as int) == ".."@);
    let r = "/"@;
    assert(last_index_of_char(r, '/') == 0);
    assert(r.skip(1).len() == 0);
}

/// A name alone stands in no directory that is named.
pub proof fn lemma_bare_name(n: Seq<char>)
    requires
        is_name(n),
    ensures
        file_name_of(n) == Some(n),
        parent_of(n) == Some(Seq::<char>::empty()),
{
    let none = Seq::<char>::empty();
    lemma_joined(none, n);
    assert(n.contains(n[0]));
    assert(joined(none, n) == n);
    reveal_strlit(".");
    reveal_strlit("/");
    assert(n.contains(n[n.len() - 1]));
    assert(n != "/"@) by {
        if n == "/"@ {
            assert(n[0] == '/');
        }
    }
    if n.len() > 1 {
        assert(n.contains(n[n.len() - 2]));
    }
    assert(without_tail(n) == n);
    lemma_last_index(none, n);
    assert(none + n == n);
    assert(n.take(0) == none);
}

/// A step up behind a path is one more step, one to the same directory and a separator are none,
/// unless they are all of the path.
pub proof fn lemma_steps(d: Seq<char>)
    requires
        d.len() > 0,
    ensures
        d.last() != '/' ==> parts(d.push('/')) == parts(d),
        d.last() == '/' ==> parts(d + "."@) == parts(d),
        d.last() == '/' ==> parts(d + ".."@) == parts(d).push(Part::Up),
        parts("."@) == seq![Part::Here],
        parts(".."@) == seq![Part::Up],
        parts("/"@) == seq![Part::Root],
{
    reveal_strlit(".");
    reveal_strlit("..");
    reveal_strlit("/");
    let none = Seq::<char>::empty();
    let one = "."@;
    let two = ".."@;
    assert(one.len() == 1 && two.len() == 2);
    assert(!one.contains('/') && !two.contains('/'));
    lemma_body_parts(none, one, true);
    lemma_body_parts(none, two, true);
    assert(none + one == one && none + two == two);
    assert(body_parts(none, true) == Seq::<Part>::empty());
    assert(body_parts(none, false) == Seq::<Part>::empty());
    assert(parts(one) == seq![Part::Here]);
    assert(parts(two) == seq![Part::Up]);
    assert("/"@.skip(1) == none);
    assert(parts("/"@) == seq![Part::Root]);
    if d[0] == '/' {
        let f = d.skip(1);
        if d.last() != '/' {
            lemma_body_end(f, false);
            assert(d.push('/').skip(1) == f.push('/'));
        } else {
            lemma_body_parts(f, one, false);
            lemma_body_parts(f, two, false);
            assert((d + one).skip(1) == f + one);
            assert((d + two).skip(1) == f + two);
            assert(body_parts(f, false) + Seq::<Part>::empty() == body_parts(f, false));
            assert(seq![Part::Root] + (body_parts(f, false) + seq![Part::Up]) == (seq![Part::Root]
                + body_parts(f, false)).push(Part::Up));
        }
    } else {
        if d.last() != '/' {
            lemma_body_end(d, true);
        } else {
            lemma_body_parts(d, one, true);
            lemma_body_parts(d, two, true);
            assert(body_parts(d, true) + Seq::<Part>::empty() == body_parts(d, true));
            assert(body_parts(d, true) + seq![Part::Up] == body_parts(d, true).push(Part::Up));
        }
    }
}

/// An absolute path comes before a relative one, and in a directory a step up before all names.
pub proof fn lemma_kinds_of_steps(a: Seq<char>, b: Seq<char>, h: Seq<Part>, n: Seq<char>)
    requires
        is_name(b),
    ensures
        path_before(seq!['/'] + a, b),
        path_before("."@, b),
        path_before(".."@, b),
        path_before("."@, ".."@),
        parts_before(h.push(Part::Up), h.push(Part::Name(n))),
{
    lemma_steps(seq!['/']);
    lemma_bare_parts(b);
    let x = parts(seq!['/'] + a);
    assert(x[0] == Part::Root);
    lemma_parts_behind(h, Part::Up, Part::Name(n));
}

proof fn lemma_bare_parts(n: Seq<char>)
    requires
        is_name(n),
    ensures
        parts(n) == seq![Part::Name(n)],
{
    let none = Seq::<char>::empty();
    lemma_parts_joined(none, n);
    assert(n.contains(n[0]));
    assert(joined(none, n) == n);
    assert(parts(none) == Seq::<Part>::empty());
    assert(parts(none).push(Part::Name(n)) == seq![Part::Name(n)]);
}

} // verus!
