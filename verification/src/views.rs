//! What the viewer shows: originals that are upright, and upright copies of the others.
use crate::files::{ascii_lower, lower};
use crate::number::dec;
use crate::paths::{
    extension, extension_of, file_stem, file_stem_of, is_name, join_path, joined, lemma_path_stem,
};
use crate::sorting::lemma_filter_push;
use crate::text::{chars_of, copy_of, ends_with, opt_list, push_copy, starts_with, strs};
use vstd::prelude::*;

verus! {

/// The ASCII character `c` in lower case.
fn lower_char(c: char) -> (r: char)
    ensures
        r == crate::files::lower(c),
{
    if 'A' <= c && c <= 'Z' {
        (c as u8 + 32) as char
    } else {
        c
    }
}

/// Whether the path `p` is that of a NEF image, in any case.
pub open spec fn is_nef_path(p: Seq<char>) -> bool {
    match extension_of(p) {
        Some(e) => ascii_lower(e) == seq!['n', 'e', 'f'],
        None => false,
    }
}

/// Whether `path` is that of a NEF image.
pub fn nef_path(path: &str) -> (r: bool)
    ensures
        r == is_nef_path(path@),
{
    match extension(path) {
        Some(e) => {
            let v = chars_of(e.as_str());
            let ghost l = ascii_lower(e@);
            assert(l.len() == v@.len());
            if v.len() != 3 {
                assert(l.len() != seq!['n', 'e', 'f'].len());
                return false;
            }
            let r = lower_char(v[0]) == 'n' && lower_char(v[1]) == 'e' && lower_char(v[2]) == 'f';
            proof {
                assert(l[0] == crate::files::lower(e@[0]));
                assert(l[1] == crate::files::lower(e@[1]));
                assert(l[2] == crate::files::lower(e@[2]));
                if r {
                    assert(l == seq!['n', 'e', 'f']);
                }
            }
            r
        },
        None => false,
    }
}

/// An image, and what is shown of it.
#[derive(Debug)]
pub struct Shown {
    /// What is shown.
    pub display: String,
    /// The image.
    pub original: String,
    /// Whether what is shown is a copy that has to be made.
    pub made: bool,
    /// Whether the image is a NEF image.
    pub nef: bool,
}

/// Whether the image at `p` with the given orientation is shown as it is.
pub open spec fn shown_as_is(p: Seq<char>, orientation: u8) -> bool {
    !is_nef_path(p) && orientation <= 1
}

/// Where the upright copy of the image at `p` is kept.
pub open spec fn copy_place(p: Seq<char>, cache: Seq<char>) -> Seq<char> {
    joined(cache, file_stem_of(p)->0 + ".jpg"@)
}

/// Whether `v` is how the image at `p` with the given orientation is shown.
pub open spec fn shows(v: Shown, p: Seq<char>, orientation: u8, cache: Seq<char>) -> bool {
    &&& v.original@ == p
    &&& v.nef == is_nef_path(p)
    &&& v.made == !shown_as_is(p, orientation)
    &&& v.display@ == if shown_as_is(p, orientation) {
        p
    } else {
        copy_place(p, cache)
    }
}

/// How the image at `path` is shown, where it has a name or needs none.
pub fn show(path: &str, orientation: u8, cache: &str) -> (v: Shown)
    requires
        shown_as_is(path@, orientation) || file_stem_of(path@) is Some,
    ensures
        shows(v, path@, orientation, cache@),
{
    let nef: bool = nef_path(path);
    if !nef && orientation <= 1 {
        return Shown { display: copy_of(path), original: copy_of(path), made: false, nef };
    }
    let mut name = match file_stem(path) {
        Some(s) => s,
        None => String::new(),
    };
    name.append(".jpg");
    Shown {
        display: join_path(cache, name.as_str()),
        original: copy_of(path),
        made: true,
        nef,
    }
}

/// Whether all paths have a name.
pub open spec fn all_named(ps: Seq<Seq<char>>) -> bool {
    forall|i: int| 0 <= i < ps.len() ==> file_stem_of(#[trigger] ps[i]) is Some
}

/// How the images at `sources` are shown, given the orientation of each.
pub fn generate_views(sources: &Vec<String>, orientations: &Vec<u8>, cache: &str) -> (r: Vec<Shown>)
    requires
        orientations@.len() == sources@.len(),
        all_named(strs(sources@)),
    ensures
        r@.len() == sources@.len(),
        forall|i: int|
            0 <= i < sources@.len() ==> shows(
                #[trigger] r@[i],
                sources@[i]@,
                orientations@[i],
                cache@,
            ),
{
    let mut r: Vec<Shown> = Vec::new();
    for i in 0..sources.len()
        invariant
            orientations@.len() == sources@.len(),
            all_named(strs(sources@)),
            r@.len() == i,
            forall|k: int|
                0 <= k < i ==> shows(#[trigger] r@[k], sources@[k]@, orientations@[k], cache@),
    {
        assert(strs(sources@)[i as int] == sources@[i as int]@);
        r.push(show(sources[i].as_str(), orientations[i], cache));
    }
    r
}

/// Which of the copies have to be made: those that are not there, by what is shown of each.
pub open spec fn missing(views: Seq<Shown>, there: Seq<bool>) -> Seq<int>
    decreases views.len(),
{
    if views.len() == 0 {
        seq![]
    } else {
        let k = views.len() - 1;
        let before = missing(views.drop_last(), there);
        if views[k].made && !there[k] {
            before.push(k)
        } else {
            before
        }
    }
}

/// Which of the copies have to be made; `there` says of each view whether it exists.
pub fn missing_views(views: &Vec<Shown>, there: &Vec<bool>) -> (r: Vec<usize>)
    requires
        there@.len() == views@.len(),
    ensures
        r@.map_values(|k: usize| k as int) == missing(views@, there@),
{
    let mut r: Vec<usize> = Vec::new();
    assert(r@.map_values(|k: usize| k as int) == Seq::<int>::empty());
    for i in 0..views.len()
        invariant
            there@.len() == views@.len(),
            r@.map_values(|k: usize| k as int) == missing(views@.take(i as int), there@),
    {
        let ghost before = r@;
        assert(views@.take(i + 1).drop_last() == views@.take(i as int));
        assert(views@.take(i + 1)[i as int] == views@[i as int]);
        if views[i].made && !there[i] {
            r.push(i);
            assert(r@.map_values(|k: usize| k as int) == before.map_values(
                |k: usize| k as int,
            ).push(i as int));
        }
    }
    assert(views@.take(views.len() as int) == views@);
    r
}

/// How many of `n` copies each of four threads makes.
pub open spec fn share(n: nat) -> nat {
    if n == 0 {
        1
    } else {
        (n + 3) / 4
    }
}

/// How many of `n` copies each of four threads makes.
pub fn chunk_size(n: usize) -> (r: usize)
    ensures
        r == share(n as nat),
        r >= 1,
        n <= 4 * r,
{
    if n == 0 {
        return 1;
    }
    (n - 1) / 4 + 1
}

/// What is shown of the views that exist, one after the other.
pub open spec fn displays(views: Seq<Shown>, there: Seq<bool>) -> Seq<Seq<char>>
    decreases views.len(),
{
    if views.len() == 0 {
        seq![]
    } else {
        let k = views.len() - 1;
        let before = displays(views.drop_last(), there);
        if there[k] {
            before.push(views[k].display@)
        } else {
            before
        }
    }
}

/// What is shown of the views that exist.
pub fn existing_views(views: &Vec<Shown>, there: &Vec<bool>) -> (r: Vec<String>)
    requires
        there@.len() == views@.len(),
    ensures
        strs(r@) == displays(views@, there@),
{
    let mut r: Vec<String> = Vec::new();
    assert(strs(r@) == Seq::<Seq<char>>::empty());
    for i in 0..views.len()
        invariant
            there@.len() == views@.len(),
            strs(r@) == displays(views@.take(i as int), there@),
    {
        let ghost before = r@;
        assert(views@.take(i + 1).drop_last() == views@.take(i as int));
        assert(views@.take(i + 1)[i as int] == views@[i as int]);
        if there[i] {
            r.push(views[i].display.clone());
            assert(strs(r@) == strs(before).push(views@[i as int].display@));
        }
    }
    assert(views@.take(views.len() as int) == views@);
    r
}

/// By how many degrees an image with the given orientation is turned without loss.
pub open spec fn degrees(orientation: u8) -> Option<Seq<char>> {
    if orientation == 3 {
        Some("180"@)
    } else if orientation == 6 {
        Some("90"@)
    } else if orientation == 8 {
        Some("270"@)
    } else {
        None
    }
}

/// By how many degrees an image with the given orientation is turned without loss.
pub fn rotation(orientation: u8) -> (r: Option<&'static str>)
    ensures
        match r {
            Some(d) => degrees(orientation) == Some(d@),
            None => degrees(orientation) is None,
        },
{
    match orientation {
        3 => Some("180"),
        6 => Some("90"),
        8 => Some("270"),
        _ => None,
    }
}

/// What jpegtran is asked in order to turn `src` by `deg` degrees into `dst`.
pub open spec fn jpegtran_command(deg: Seq<char>, dst: Seq<char>, src: Seq<char>) -> Seq<Seq<char>> {
    seq!["-copy"@, "none"@, "-trim"@, "-rotate"@, deg, "-outfile"@, dst, src]
}

/// What jpegtran is asked in order to turn `src` upright into `dst`, where it can do so.
pub open spec fn turn_command(orientation: u8, dst: Seq<char>, src: Seq<char>) -> Option<
    Seq<Seq<char>>,
> {
    match degrees(orientation) {
        Some(d) => Some(jpegtran_command(d, dst, src)),
        None => None,
    }
}

/// What jpegtran is asked in order to turn `src` upright into `dst`, where it can do so.
pub fn turn_args(orientation: u8, dst: &str, src: &str) -> (r: Option<Vec<String>>)
    ensures
        opt_list(r) == turn_command(orientation, dst@, src@),
{
    match rotation(orientation) {
        Some(deg) => {
            let mut r: Vec<String> = Vec::new();
            push_copy(&mut r, "-copy");
            push_copy(&mut r, "none");
            push_copy(&mut r, "-trim");
            push_copy(&mut r, "-rotate");
            push_copy(&mut r, deg);
            push_copy(&mut r, "-outfile");
            push_copy(&mut r, dst);
            push_copy(&mut r, src);
            assert(strs(r@) == jpegtran_command(deg@, dst@, src@));
            Some(r)
        },
        None => None,
    }
}

/// What vipsthumbnail is asked in order to make an upright copy of `src` at `dst`.
pub open spec fn vips_command(src: Seq<char>, dst: Seq<char>) -> Seq<Seq<char>> {
    seq![src, "--size"@, "12000x12000"@, "-o"@, dst + "[Q=92]"@]
}

/// What vipsthumbnail is asked in order to make an upright copy of `src` at `dst`.
pub fn vips_args(src: &str, dst: &str) -> (r: Vec<String>)
    ensures
        strs(r@) == vips_command(src@, dst@),
{
    let mut out = copy_of(dst);
    out.append("[Q=92]");
    let mut r: Vec<String> = Vec::new();
    push_copy(&mut r, src);
    push_copy(&mut r, "--size");
    push_copy(&mut r, "12000x12000");
    push_copy(&mut r, "-o");
    push_copy(&mut r, out.as_str());
    r
}

/// What exiv2 is asked in order to put the previews of `nef` into the folder `dir`.
pub fn preview_args(dir: &str, nef: &str) -> (r: Vec<String>)
    ensures
        strs(r@) == seq!["-ep"@, "-l"@, dir@, nef@],
{
    let mut r: Vec<String> = Vec::new();
    push_copy(&mut r, "-ep");
    push_copy(&mut r, "-l");
    push_copy(&mut r, dir);
    push_copy(&mut r, nef);
    r
}

/// How an upright copy of a JPEG image is made.
#[derive(Debug)]
pub struct Upright {
    /// What jpegtran is asked first, where it can turn the image.
    pub turn: Option<Vec<String>>,
    /// What vipsthumbnail is asked where that was not tried or did not work.
    pub fallback: Vec<String>,
}

/// How an upright copy of `src` is made at `dst`.
pub fn correct_orientation(src: &str, dst: &str, orientation: u8) -> (u: Upright)
    ensures
        opt_list(u.turn) == turn_command(orientation, dst@, src@),
        strs(u.fallback@) == vips_command(src@, dst@),
{
    Upright { turn: turn_args(orientation, dst, src), fallback: vips_args(src, dst) }
}

/// A file in the folder of the upright copies.
#[derive(Debug)]
pub struct Preview {
    /// Its name.
    pub name: String,
    /// Where it is.
    pub path: String,
    /// How many bytes it has.
    pub size: u64,
}

/// Whether the file is a preview of the NEF image with the given stem.
pub open spec fn is_preview(p: Preview, stem: Seq<char>) -> bool {
    (stem + "-preview"@).is_prefix_of(p.name@) && ".jpg"@.is_suffix_of(p.name@)
}

/// The largest preview of the NEF image with the given stem, the first where several are as
/// large, by its place in `found`.
pub open spec fn largest(found: Seq<Preview>, stem: Seq<char>) -> Option<int>
    decreases found.len(),
{
    if found.len() == 0 {
        None
    } else {
        let k = found.len() - 1;
        let before = largest(found.drop_last(), stem);
        if !is_preview(found[k], stem) {
            before
        } else {
            match before {
                Some(b) => if found[k].size > found[b].size {
                    Some(k)
                } else {
                    before
                },
                None => Some(k),
            }
        }
    }
}

/// The largest preview and no other is as large before it.
pub proof fn lemma_largest(found: Seq<Preview>, stem: Seq<char>)
    ensures
        match largest(found, stem) {
            Some(b) => {
                &&& 0 <= b < found.len()
                &&& is_preview(found[b], stem)
                &&& forall|i: int|
                    0 <= i < found.len() && is_preview(#[trigger] found[i], stem) ==> found[i].size
                        <= found[b].size
                &&& forall|i: int|
                    0 <= i < b && is_preview(#[trigger] found[i], stem) ==> found[i].size
                        < found[b].size
            },
            None => forall|i: int| 0 <= i < found.len() ==> !is_preview(#[trigger] found[i], stem),
        },
    decreases found.len(),
{
    if found.len() > 0 {
        let front = found.drop_last();
        lemma_largest(front, stem);
        assert forall|i: int| 0 <= i < front.len() implies front[i] == found[i] by {}
    }
}

/// The previews of the NEF image with the given stem that are not the one at `best`.
pub open spec fn others(found: Seq<Preview>, stem: Seq<char>, best: int) -> Seq<Seq<char>>
    decreases found.len(),
{
    if found.len() == 0 {
        seq![]
    } else {
        let k = found.len() - 1;
        let before = others(found.drop_last(), stem, best);
        if is_preview(found[k], stem) && k != best {
            before.push(found[k].path@)
        } else {
            before
        }
    }
}

/// The path of the largest preview of the NEF image with the given stem, where there is one,
/// and the paths of the others, which are to be removed.
pub fn pick_preview(found: &Vec<Preview>, stem: &str) -> (r: (Option<String>, Vec<String>))
    ensures
        match largest(found@, stem@) {
            Some(b) => {
                &&& r.0 is Some
                &&& r.0->0@ == found@[b].path@
                &&& strs(r.1@) == others(found@, stem@, b)
            },
            None => r.0 is None && r.1@.len() == 0,
        },
{
    let mut prefix = copy_of(stem);
    prefix.append("-preview");
    let mut best: Option<usize> = None;
    for i in 0..found.len()
        invariant
            prefix@ == stem@ + "-preview"@,
            match best {
                Some(b) => b < i && largest(found@.take(i as int), stem@) == Some(b as int),
                None => largest(found@.take(i as int), stem@) is None,
            },
    {
        proof {
            assert(found@.take(i + 1).drop_last() == found@.take(i as int));
        }
        if starts_with(found[i].name.as_str(), prefix.as_str()) && ends_with(
            found[i].name.as_str(),
            ".jpg",
        ) {
            match best {
                Some(b) => {
                    if found[i].size > found[b].size {
                        best = Some(i);
                    }
                },
                None => {
                    best = Some(i);
                },
            }
        }
    }
    assert(found@.take(found.len() as int) == found@);
    let mut rest: Vec<String> = Vec::new();
    match best {
        Some(b) => {
            assert(strs(rest@) == Seq::<Seq<char>>::empty());
            for i in 0..found.len()
                invariant
                    prefix@ == stem@ + "-preview"@,
                    strs(rest@) == others(found@.take(i as int), stem@, b as int),
            {
                let ghost before = rest@;
                assert(found@.take(i + 1).drop_last() == found@.take(i as int));
                if starts_with(found[i].name.as_str(), prefix.as_str()) && ends_with(
                    found[i].name.as_str(),
                    ".jpg",
                ) && i != b {
                    rest.push(found[i].path.clone());
                    assert(strs(rest@) == strs(before).push(found@[i as int].path@));
                }
            }
            (Some(found[b].path.clone()), rest)
        },
        None => (None, rest),
    }
}

/// How the upright copy of a NEF image is made of its previews.
#[derive(Debug)]
pub struct NefView {
    /// The previews to remove.
    pub discard: Vec<String>,
    /// The preview to use, where there is one.
    pub preview: Option<String>,
    /// What jpegtran is asked in order to turn it. Where that works the preview is removed;
    /// where it does not, or nothing is asked, the preview itself becomes the copy.
    pub turn: Option<Vec<String>>,
}

/// How the upright copy of the image `nef` is made at `dst`, where the folder of the copies
/// holds the files `found`: of the largest preview.
pub fn extract_nef_view(found: &Vec<Preview>, nef: &str, dst: &str, orientation: u8) -> (v: NefView)
    requires
        file_stem_of(nef@) is Some,
    ensures
        ({
            let stem = file_stem_of(nef@)->0;
            match largest(found@, stem) {
                Some(b) => {
                    &&& v.preview is Some
                    &&& v.preview->0@ == found@[b].path@
                    &&& strs(v.discard@) == others(found@, stem, b)
                    &&& opt_list(v.turn) == turn_command(orientation, dst@, found@[b].path@)
                },
                None => v.preview is None && v.discard@.len() == 0 && v.turn is None,
            }
        }),
{
    let stem = match file_stem(nef) {
        Some(s) => s,
        None => String::new(),
    };
    let (preview, discard) = pick_preview(found, stem.as_str());
    let turn = match &preview {
        Some(p) => turn_args(orientation, dst, p.as_str()),
        None => None,
    };
    NefView { discard, preview, turn }
}

/// Whether a file is shown by a preview of its own goes by its extension, which is `nef` in
/// letters of either case.
pub proof fn lemma_nef_in_any_case(d: Seq<char>, a: Seq<char>, e: Seq<char>)
    requires
        a.len() > 0,
        !e.contains('.'),
        is_name(a + "."@ + e),
    ensures
        is_nef_path(joined(d, a + "."@ + e)) <==> {
            &&& e.len() == 3
            &&& e[0] == 'n' || e[0] == 'N'
            &&& e[1] == 'e' || e[1] == 'E'
            &&& e[2] == 'f' || e[2] == 'F'
        },
{
    lemma_path_stem(d, a, e);
    let l = ascii_lower(e);
    assert(l.len() == e.len());
    if e.len() == 3 {
        assert(l[0] == lower(e[0]) && l[1] == lower(e[1]) && l[2] == lower(e[2]));
        if l == seq!['n', 'e', 'f'] {
            assert(l[0] == 'n' && l[1] == 'e' && l[2] == 'f');
        } else {
            assert(!(l[0] == 'n' && l[1] == 'e' && l[2] == 'f')) by {
                if l[0] == 'n' && l[1] == 'e' && l[2] == 'f' {
                    assert(l == seq!['n', 'e', 'f']);
                }
            }
        }
        lemma_lower_is(e[0], 'n', 'N');
        lemma_lower_is(e[1], 'e', 'E');
        lemma_lower_is(e[2], 'f', 'F');
    }
}

proof fn lemma_lower_is(c: char, small: char, large: char)
    requires
        'a' <= small <= 'z',
        large as u32 + 32 == small as u32,
    ensures
        lower(c) == small <==> c == small || c == large,
{
    if 'A' <= c <= 'Z' {
        assert(lower(c) as u32 == c as u32 + 32);
    }
}

/// An image that needs no turning is shown itself; any other, and every NEF image, by a JPEG
/// image of its stem in the cache.
pub proof fn lemma_where_shown(v: Shown, d: Seq<char>, a: Seq<char>, b: Seq<char>, o: u8, cache: Seq<char>)
    requires
        a.len() > 0,
        !b.contains('.'),
        is_name(a + "."@ + b),
        shows(v, joined(d, a + "."@ + b), o, cache),
    ensures
        v.original@ == joined(d, a + "."@ + b),
        v.made ==> v.display@ == joined(cache, a + ".jpg"@),
        !v.made ==> v.display@ == v.original@,
        v.made <==> v.nef || o > 1,
{
    lemma_path_stem(d, a, b);
}

/// The numbers from 0 on below `n`.
pub open spec fn counting(n: nat) -> Seq<int> {
    Seq::new(n, |k: int| k)
}

/// The views that are missing are just those that are to be made and are not there, in their
/// order.
pub proof fn lemma_missing(views: Seq<Shown>, there: Seq<bool>)
    ensures
        missing(views, there) == counting(views.len()).filter(
            |k: int| views[k].made && !there[k],
        ),
        forall|k: int|
            #![trigger missing(views, there).contains(k)]
            missing(views, there).contains(k) <==> 0 <= k < views.len() && views[k].made && !there[k],
    decreases views.len(),
{
    reveal(Seq::filter);
    let keep = |k: int| views[k].made && !there[k];
    if views.len() > 0 {
        let f = views.drop_last();
        let n = f.len() as int;
        lemma_missing(f, there);
        let had = |k: int| f[k].made && !there[k];
        assert(counting(views.len()) == counting(f.len()).push(n));
        lemma_filter_push(counting(f.len()), n, keep);
        lemma_filter_alike(counting(f.len()), had, keep);
        let m = missing(f, there);
        let a = missing(views, there);
        assert forall|k: int|
            #![trigger a.contains(k)]
            a.contains(k) <==> 0 <= k < views.len() && views[k].made && !there[k] by {
            if a.contains(k) {
                let i = choose|i: int| 0 <= i < a.len() && a[i] == k;
                if i < m.len() {
                    assert(m[i] == k);
                    assert(m.contains(k));
                    assert(f[k] == views[k]);
                }
            }
            if 0 <= k < views.len() && views[k].made && !there[k] {
                if k < n {
                    assert(f[k] == views[k]);
                    assert(m.contains(k));
                    let i = choose|i: int| 0 <= i < m.len() && m[i] == k;
                    assert(a[i] == k);
                } else {
                    assert(a[m.len() as int] == k);
                }
            }
        }
    }
}

proof fn lemma_filter_alike(s: Seq<int>, f: spec_fn(int) -> bool, g: spec_fn(int) -> bool)
    requires
        forall|i: int| 0 <= i < s.len() ==> f(#[trigger] s[i]) == g(s[i]),
    ensures
        s.filter(f) == s.filter(g),
    decreases s.len(),
{
    reveal(Seq::filter);
    if s.len() > 0 {
        let t = s.drop_last();
        assert forall|i: int| 0 <= i < t.len() implies f(#[trigger] t[i]) == g(t[i]) by {
            assert(t[i] == s[i]);
        }
        lemma_filter_alike(t, f, g);
        assert(s[s.len() - 1] == s.last());
    }
}

/// What is shown are just the views that are there, in their order.
pub proof fn lemma_displays(views: Seq<Shown>, there: Seq<bool>)
    ensures
        displays(views, there) == counting(views.len()).filter(|k: int| there[k]).map_values(
            |k: int| views[k].display@,
        ),
    decreases views.len(),
{
    reveal(Seq::filter);
    let keep = |k: int| there[k];
    let show = |k: int| views[k].display@;
    if views.len() > 0 {
        let f = views.drop_last();
        let n = f.len() as int;
        lemma_displays(f, there);
        let had = |k: int| f[k].display@;
        assert(counting(views.len()) == counting(f.len()).push(n));
        lemma_filter_push(counting(f.len()), n, keep);
        let l = counting(f.len()).filter(keep);
        assert(l.map_values(had) == l.map_values(show)) by {
            assert forall|i: int| 0 <= i < l.len() implies had(#[trigger] l[i]) == show(l[i]) by {
                assert(l.contains(l[i]));
                counting(f.len()).lemma_filter_contains_rev(keep, l[i]);
                assert(f[l[i]] == views[l[i]]);
            }
        }
        assert(l.push(n).map_values(show) == l.map_values(show).push(show(n)));
    } else {
        assert(displays(views, there) == counting(0).filter(keep).map_values(show));
    }
}

/// The views are made in at most four shares of the same size, the last of which may be smaller.
pub proof fn lemma_four_shares(n: nat)
    ensures
        4 * share(n) >= n,
        n > 0 ==> 4 * (share(n) - 1) < n,
        share(n) >= 1,
{
}

/// The other previews are those of the image that were not picked, each once and in their order.
pub proof fn lemma_others(found: Seq<Preview>, stem: Seq<char>, best: int)
    ensures
        others(found, stem, best) == counting(found.len()).filter(
            |k: int| is_preview(found[k], stem) && k != best,
        ).map_values(|k: int| found[k].path@),
    decreases found.len(),
{
    reveal(Seq::filter);
    let keep = |k: int| is_preview(found[k], stem) && k != best;
    let show = |k: int| found[k].path@;
    if found.len() > 0 {
        let f = found.drop_last();
        let n = f.len() as int;
        lemma_others(f, stem, best);
        let picks = |k: int| is_preview(f[k], stem) && k != best;
        let had = |k: int| f[k].path@;
        assert(counting(found.len()) == counting(f.len()).push(n));
        lemma_filter_push(counting(f.len()), n, keep);
        lemma_filter_alike(counting(f.len()), picks, keep);
        let l = counting(f.len()).filter(keep);
        assert(l.map_values(had) == l.map_values(show)) by {
            assert forall|i: int| 0 <= i < l.len() implies had(#[trigger] l[i]) == show(l[i]) by {
                assert(l.contains(l[i]));
                counting(f.len()).lemma_filter_contains_rev(keep, l[i]);
                assert(f[l[i]] == found[l[i]]);
            }
        }
        assert(l.push(n).map_values(show) == l.map_values(show).push(show(n)));
    } else {
        assert(others(found, stem, best) == counting(0).filter(keep).map_values(show));
    }
}

/// A preview of the image with the stem `stem` is called by that stem, `-preview`, and something
/// that ends in `.jpg`, and nothing else is one.
pub proof fn lemma_preview_name(p: Preview, stem: Seq<char>)
    ensures
        is_preview(p, stem) <==> exists|mid: Seq<char>|
            p.name@ == #[trigger] (stem + "-preview"@ + mid) + ".jpg"@,
{
    reveal_strlit("-preview");
    reveal_strlit(".jpg");
    let n = p.name@;
    let head = stem + "-preview"@;
    let end = ".jpg"@;
    assert(head.last() == 'w');
    if is_preview(p, stem) {
        assert forall|i: int| 0 <= i < head.len() implies n[i] == head[i] by {}
        assert forall|i: int| 0 <= i < 4 implies n[n.len() - 4 + i] == end[i] by {
            assert(n.subrange(n.len() - 4, n.len() as int)[i] == end[i]);
        }
        let k = head.len() - 1;
        assert(n[k] == 'w');
        assert(n[n.len() - 4] == end[0] && n[n.len() - 3] == end[1] && n[n.len() - 2] == end[2] && n[
            n.len() - 1] == end[3]);
        assert(n.len() >= head.len() + 4);
        let mid = n.subrange(head.len() as int, n.len() - 4);
        assert(n == (stem + "-preview"@ + mid) + ".jpg"@);
    }
    if exists|mid: Seq<char>| n == #[trigger] (stem + "-preview"@ + mid) + ".jpg"@ {
        let mid = choose|mid: Seq<char>| n == #[trigger] (stem + "-preview"@ + mid) + ".jpg"@;
        assert(head.is_prefix_of(n));
        assert(end.is_suffix_of(n));
    }
}

/// An image that was taken turned is turned back by so many quarters as its orientation stands
/// for, and no other orientation is turned; the command writes to its place what it turns.
pub proof fn lemma_turned_back(orientation: u8, dst: Seq<char>, src: Seq<char>)
    ensures
        degrees(6) == Some(dec(90)),
        degrees(3) == Some(dec(2 * 90)),
        degrees(8) == Some(dec(3 * 90)),
        orientation != 3 && orientation != 6 && orientation != 8 ==> turn_command(
            orientation,
            dst,
            src,
        ) is None,
        turn_command(orientation, dst, src) is Some ==> ({
            let c = turn_command(orientation, dst, src)->0;
            &&& c.len() >= 4
            &&& c.last() == src
            &&& c[c.len() - 2] == dst
            &&& c[c.len() - 3] == "-outfile"@
            &&& c[c.len() - 4] == degrees(orientation)->0
        }),
{
    reveal_strlit("90");
    reveal_strlit("180");
    reveal_strlit("270");
    reveal_with_fuel(dec, 4);
    assert(dec(90) == "90"@);
    assert(dec(180) == "180"@);
    assert(dec(270) == "270"@);
}

/// The command that makes an upright copy reads the image and writes to its place.
pub proof fn lemma_copy_command(src: Seq<char>, dst: Seq<char>)
    ensures
        vips_command(src, dst)[0] == src,
        vips_command(src, dst)[vips_command(src, dst).len() - 2] == "-o"@,
        dst.is_prefix_of(vips_command(src, dst).last()),
{
    assert(dst.is_prefix_of(dst + "[Q=92]"@));
}

} // verus!
