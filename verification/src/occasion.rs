//! Occasions: the files of one, what is known of them, and what follows from that.
use crate::calendar::{date_text, fmt_date, time_fits};
use crate::files::{count_of, is_jpg, is_jpg_ext, is_nef, movie, photo, shot, FileItem};
use crate::number::{dec, decimal};
use crate::order::{
    in_order, lemma_ascending_no_duplicates, lemma_order_of, lemma_order_of_part, lemma_text_total,
    lemma_text_transitive, rank, text_before, Rank, TextMap,
};
use crate::paths::{file_name, file_name_of, path_before, stem};
use crate::sorting::{lemma_filter_push, lemma_sorted, sort, sorted, Sorts};
use crate::text::{has_text, join, join_strings, lemma_join_has, strs};
use vstd::prelude::*;

verus! {

/// What to upload of an occasion.
#[derive(Clone, Copy, PartialEq, Eq, Structural, Debug)]
pub enum UploadMode {
    /// Nothing.
    No,
    /// The whole folder, photos and movies.
    All,
    /// The photos, not the movies.
    Photos,
    /// The photos that are rated high enough.
    Rated,
}

/// An occasion.
pub struct Cluster {
    pub files: Vec<FileItem>,
    /// The time of the first file.
    pub start: i64,
    /// The time of the last file.
    pub end: i64,
    /// The name of its folder in the library.
    pub target: String,
    /// Whether that folder exists already.
    pub suggested: bool,
    /// Whether the occasion is left alone.
    pub skip: bool,
    pub up: UploadMode,
    /// The rating of a shot, 1 to 5, under its stem.
    pub ratings: TextMap<u8>,
    /// The folder that the files live in; it holds the `.removed` folder.
    pub dir: String,
    /// The number of shots in the `.removed` folder.
    pub removed: usize,
    /// Whether the folder is on the Drive, where that is known.
    pub on_drive: Option<bool>,
}

/// The shots that `files` belong to.
pub open spec fn shots(files: Seq<FileItem>) -> Set<Seq<char>> {
    files.map_values(|f: FileItem| shot(f)).to_set()
}

/// The shots of which there is a photo among `files`.
pub open spec fn photo_shots(files: Seq<FileItem>) -> Set<Seq<char>> {
    shots(files.filter(|f: FileItem| photo(f)))
}

/// The rating of the shot `s`; 0 where it has none.
pub open spec fn rating(ratings: Map<Seq<char>, u8>, s: Seq<char>) -> u8 {
    if ratings.dom().contains(s) {
        ratings[s]
    } else {
        0
    }
}

/// Picks the files of shots rated `min` or more; all files where `min` is 0.
pub open spec fn rated(ratings: Map<Seq<char>, u8>, min: u8) -> spec_fn(FileItem) -> bool {
    |f: FileItem| min == 0 || rating(ratings, shot(f)) >= min
}

/// Picks the photos of shots rated `min` or more.
pub open spec fn rated_photo(ratings: Map<Seq<char>, u8>, min: u8) -> spec_fn(FileItem) -> bool {
    |f: FileItem| photo(f) && rating(ratings, shot(f)) >= min
}

/// The shots rated `min` or more.
pub open spec fn rated_shots(ratings: Map<Seq<char>, u8>, min: u8) -> Set<Seq<char>> {
    ratings.dom().filter(|s: Seq<char>| ratings[s] >= min)
}

/// How many bytes `files` have together.
pub open spec fn total(files: Seq<FileItem>) -> nat
    decreases files.len(),
{
    if files.len() == 0 {
        0
    } else {
        total(files.drop_last()) + files.last().size as nat
    }
}

/// The extensions of `files`.
pub open spec fn exts(files: Seq<FileItem>) -> Set<Seq<char>> {
    files.map_values(|f: FileItem| f.ext@).to_set()
}

/// Picks the files with the extension `ext`.
pub open spec fn has_ext(ext: Seq<char>) -> spec_fn(FileItem) -> bool {
    |f: FileItem| f.ext@ == ext
}

/// How many of `files` have the extension `ext`.
pub open spec fn ext_count(files: Seq<FileItem>, ext: Seq<char>) -> nat {
    count_of(files, has_ext(ext))
}

/// The extensions of `files` in order, each behind the number of its files.
pub open spec fn ext_text(files: Seq<FileItem>) -> Seq<char> {
    join(
        in_order(exts(files)).map_values(|e: Seq<char>| dec(ext_count(files, e)) + " "@ + e),
        ", "@,
    )
}

/// The names of `files`; a path without a name has none.
pub open spec fn names(files: Seq<FileItem>) -> Seq<Seq<char>>
    decreases files.len(),
{
    if files.len() == 0 {
        seq![]
    } else {
        match file_name_of(files.last().path@) {
            Some(n) => names(files.drop_last()).push(n),
            None => names(files.drop_last()),
        }
    }
}

/// The path of the last of `files` that belongs to the shot `s` and that `keep` picks.
pub open spec fn last_of(
    files: Seq<FileItem>,
    s: Seq<char>,
    keep: spec_fn(FileItem) -> bool,
) -> Option<Seq<char>>
    decreases files.len(),
{
    if files.len() == 0 {
        None
    } else if shot(files.last()) == s && keep(files.last()) {
        Some(files.last().path@)
    } else {
        last_of(files.drop_last(), s, keep)
    }
}

/// What shows the shot `s`: its JPEG image, else its NEF image.
pub open spec fn viewable(files: Seq<FileItem>, s: Seq<char>) -> Option<Seq<char>> {
    match last_of(files, s, |f: FileItem| is_jpg_ext(f.ext@)) {
        Some(p) => Some(p),
        None => last_of(files, s, |f: FileItem| f.ext@ == "nef"@),
    }
}

/// What shows the shots of `files`, one path for each, in the order of the stems.
pub open spec fn viewables(files: Seq<FileItem>) -> Seq<Seq<char>> {
    in_order(photo_shots(files)).map_values(|s: Seq<char>| viewable(files, s)->0)
}

proof fn lemma_shots_push(files: Seq<FileItem>, f: FileItem)
    ensures
        shots(files.push(f)) == shots(files).insert(shot(f)),
        shots(files).finite(),
{
    let a = files.map_values(|f: FileItem| shot(f));
    let b = files.push(f).map_values(|f: FileItem| shot(f));
    vstd::seq_lib::seq_to_set_is_finite(a);
    assert(b == a.push(shot(f)));
    assert forall|s: Seq<char>| b.to_set().contains(s) == a.to_set().insert(shot(f)).contains(s) by {
        if a.contains(s) {
            let i = choose|i: int| 0 <= i < a.len() && a[i] == s;
            assert(b[i] == s);
        }
        if b.contains(s) {
            let i = choose|i: int| 0 <= i < b.len() && b[i] == s;
            if i < a.len() {
                assert(a[i] == s);
            }
        }
        assert(b[a.len() as int] == shot(f));
    }
}

/// The shots with a photo, after one more file.
pub proof fn lemma_photo_shots_push(files: Seq<FileItem>, f: FileItem)
    ensures
        photo_shots(files.push(f)) == if photo(f) {
            photo_shots(files).insert(shot(f))
        } else {
            photo_shots(files)
        },
        photo_shots(files).finite(),
{
    let keep = |f: FileItem| photo(f);
    lemma_filter_push(files, f, keep);
    lemma_shots_push(files.filter(keep), f);
}

proof fn lemma_none()
    ensures
        shots(Seq::empty()) == Set::<Seq<char>>::empty(),
        photo_shots(Seq::empty()) == Set::<Seq<char>>::empty(),
        exts(Seq::empty()) == Set::<Seq<char>>::empty(),
{
    reveal(Seq::filter);
    let none = Seq::<FileItem>::empty();
    assert(none.filter(|f: FileItem| photo(f)) == none);
    assert(none.map_values(|f: FileItem| shot(f)) == Seq::<Seq<char>>::empty());
    assert(none.map_values(|f: FileItem| f.ext@) == Seq::<Seq<char>>::empty());
}

proof fn lemma_exts_push(files: Seq<FileItem>, f: FileItem)
    ensures
        exts(files.push(f)) == exts(files).insert(f.ext@),
{
    let a = files.map_values(|f: FileItem| f.ext@);
    let b = files.push(f).map_values(|f: FileItem| f.ext@);
    assert(b == a.push(f.ext@));
    assert forall|s: Seq<char>| b.to_set().contains(s) == a.to_set().insert(f.ext@).contains(s) by {
        if a.contains(s) {
            let i = choose|i: int| 0 <= i < a.len() && a[i] == s;
            assert(b[i] == s);
        }
        if b.contains(s) {
            let i = choose|i: int| 0 <= i < b.len() && b[i] == s;
            if i < a.len() {
                assert(a[i] == s);
            }
        }
        assert(b[a.len() as int] == f.ext@);
    }
}

/// One path for each shot among `files` of which there is a photo: its JPEG image, else its NEF
/// image, in the order of the stems.
#[verifier::rlimit(30)]
pub fn pick_viewables(files: &Vec<FileItem>) -> (r: Vec<String>)
    ensures
        strs(r@) == viewables(files@),
{
    let ghost jpg_keep = |f: FileItem| is_jpg_ext(f.ext@);
    let ghost nef_keep = |f: FileItem| f.ext@ == "nef"@;
    let mut jpgs: TextMap<String> = TextMap::new();
    let mut nefs: TextMap<String> = TextMap::new();
    let mut found: TextMap<()> = TextMap::new();
    proof {
        lemma_none();
        assert(files@.take(0) == Seq::<FileItem>::empty());
    }
    for i in 0..files.len()
        invariant
            jpg_keep == (|f: FileItem| is_jpg_ext(f.ext@)),
            nef_keep == (|f: FileItem| f.ext@ == "nef"@),
            found@.dom() == photo_shots(files@.take(i as int)),
            forall|s: Seq<char>| #[trigger]
                jpgs@.dom().contains(s) <==> last_of(files@.take(i as int), s, jpg_keep) is Some,
            forall|s: Seq<char>| #[trigger]
                jpgs@.dom().contains(s) ==> last_of(files@.take(i as int), s, jpg_keep) == Some(
                    jpgs@[s]@,
                ),
            forall|s: Seq<char>| #[trigger]
                nefs@.dom().contains(s) <==> last_of(files@.take(i as int), s, nef_keep) is Some,
            forall|s: Seq<char>| #[trigger]
                nefs@.dom().contains(s) ==> last_of(files@.take(i as int), s, nef_keep) == Some(
                    nefs@[s]@,
                ),
            forall|s: Seq<char>|
                found@.dom().contains(s) ==> #[trigger] jpgs@.dom().contains(s)
                    || #[trigger] nefs@.dom().contains(s),
    {
        let f = &files[i];
        proof {
            assert(files@.take(i + 1) == files@.take(i as int).push(files@[i as int]));
            assert(files@.take(i + 1).drop_last() == files@.take(i as int));
            lemma_photo_shots_push(files@.take(i as int), files@[i as int]);
        }
        if is_jpg(f.ext.as_str()) {
            proof {
                reveal_strlit("jpg");
                reveal_strlit("jpeg");
                reveal_strlit("nef");
                assert("nef"@[0] == 'n' && "jpg"@[0] == 'j' && "jpeg"@[0] == 'j');
            }
            jpgs.insert(f.stem(), f.path.clone());
            found.insert(f.stem(), ());
        } else if is_nef(f.ext.as_str()) {
            nefs.insert(f.stem(), f.path.clone());
            found.insert(f.stem(), ());
        }
    }
    assert(files@.take(files.len() as int) == files@);
    let ks = found.keys();
    let ghost order = in_order(photo_shots(files@));
    let mut r: Vec<String> = Vec::new();
    for i in 0..ks.len()
        invariant
            strs(ks@) == order,
            order == in_order(photo_shots(files@)),
            strs(ks@).to_set() == found@.dom(),
            jpg_keep == (|f: FileItem| is_jpg_ext(f.ext@)),
            nef_keep == (|f: FileItem| f.ext@ == "nef"@),
            forall|s: Seq<char>| #[trigger]
                jpgs@.dom().contains(s) <==> last_of(files@, s, jpg_keep) is Some,
            forall|s: Seq<char>| #[trigger]
                jpgs@.dom().contains(s) ==> last_of(files@, s, jpg_keep) == Some(jpgs@[s]@),
            forall|s: Seq<char>| #[trigger]
                nefs@.dom().contains(s) <==> last_of(files@, s, nef_keep) is Some,
            forall|s: Seq<char>| #[trigger]
                nefs@.dom().contains(s) ==> last_of(files@, s, nef_keep) == Some(nefs@[s]@),
            forall|s: Seq<char>|
                found@.dom().contains(s) ==> #[trigger] jpgs@.dom().contains(s)
                    || #[trigger] nefs@.dom().contains(s),
            strs(r@) == order.take(i as int).map_values(|s: Seq<char>| viewable(files@, s)->0),
    {
        let k = ks[i].as_str();
        let ghost before = r@;
        proof {
            assert(strs(ks@)[i as int] == k@);
            assert(strs(ks@).contains(k@));
            assert(found@.dom().contains(k@));
            assert(jpgs@.dom().contains(k@) || nefs@.dom().contains(k@));
        }
        match jpgs.get(k) {
            Some(p) => {
                r.push(p.clone());
            },
            None => match nefs.get(k) {
                Some(p) => {
                    r.push(p.clone());
                },
                None => {},
            },
        }
        proof {
            let view = |s: Seq<char>| viewable(files@, s)->0;
            assert(r@.last()@ == view(k@));
            assert(strs(r@) == strs(before).push(r@.last()@));
            assert(order.take(i + 1) == order.take(i as int).push(k@));
            assert(order.take(i + 1).map_values(view) == order.take(i as int).map_values(view).push(
                view(k@),
            ));
        }
    }
    assert(order.take(order.len() as int) == order);
    r
}

proof fn lemma_total_push(files: Seq<FileItem>, f: FileItem)
    ensures
        total(files.push(f)) == total(files) + f.size as nat,
{
    assert(files.push(f).drop_last() == files);
}

proof fn lemma_total_prefix(files: Seq<FileItem>, i: int)
    requires
        0 <= i <= files.len(),
    ensures
        total(files.take(i)) <= total(files),
    decreases files.len() - i,
{
    if i < files.len() {
        lemma_total_prefix(files, i + 1);
        assert(files.take(i + 1) == files.take(i).push(files[i]));
        lemma_total_push(files.take(i), files[i]);
    } else {
        assert(files.take(i) == files);
    }
}

/// How many of the keys `ks` have a rating of `min` or more.
proof fn lemma_rated_keys(ks: Seq<Seq<char>>, ratings: Map<Seq<char>, u8>, min: u8)
    requires
        ks.no_duplicates(),
        ks.to_set() == ratings.dom(),
    ensures
        ks.filter(|s: Seq<char>| ratings[s] >= min).len() == rated_shots(ratings, min).len(),
        rated_shots(ratings, min).finite(),
{
    let keep = |s: Seq<char>| ratings[s] >= min;
    let picked = ks.filter(keep);
    assert(picked.no_duplicates()) by {
        lemma_filter_no_duplicates(ks, keep);
    }
    assert forall|s: Seq<char>| picked.to_set().contains(s) == rated_shots(ratings, min).contains(s) by {
        if picked.contains(s) {
            let i = choose|i: int| 0 <= i < picked.len() && picked[i] == s;
            assert(keep(picked[i]));
            ks.lemma_filter_contains_rev(keep, s);
            assert(ks.to_set().contains(s));
        }
        if rated_shots(ratings, min).contains(s) {
            assert(ks.to_set().contains(s));
            let i = choose|i: int| 0 <= i < ks.len() && ks[i] == s;
            assert(keep(ks[i]));
            assert(picked.contains(ks[i]));
        }
    }
    assert(picked.to_set() == rated_shots(ratings, min));
    picked.unique_seq_to_set();
    vstd::seq_lib::seq_to_set_is_finite(picked);
}

proof fn lemma_filter_no_duplicates<T>(s: Seq<T>, keep: spec_fn(T) -> bool)
    requires
        s.no_duplicates(),
    ensures
        s.filter(keep).no_duplicates(),
    decreases s.len(),
{
    reveal(Seq::filter);
    if s.len() > 0 {
        let d = s.drop_last();
        assert(d.no_duplicates());
        lemma_filter_no_duplicates(d, keep);
        lemma_filter_push(d, s.last(), keep);
        assert(s == d.push(s.last()));
        assert forall|i: int| 0 <= i < d.filter(keep).len() implies d.filter(keep)[i] != s.last() by {
            assert(d.filter(keep).contains(d.filter(keep)[i]));
            d.lemma_filter_contains_rev(keep, d.filter(keep)[i]);
            let j = choose|j: int| 0 <= j < d.len() && d[j] == d.filter(keep)[i];
            assert(s[j] == d[j]);
        }
    }
}

impl Cluster {
    /// How many files there are of each extension.
    pub fn count_by_ext(&self) -> (m: TextMap<usize>)
        ensures
            m@.dom() == exts(self.files@),
            forall|e: Seq<char>|
                #![trigger m@[e]]
                m@.dom().contains(e) ==> m@[e] == ext_count(self.files@, e),
    {
        let files = &self.files;
        let mut m: TextMap<usize> = TextMap::new();
        proof {
            lemma_none();
            assert(files@.take(0) == Seq::<FileItem>::empty());
        }
        for i in 0..files.len()
            invariant
                m@.dom() == exts(files@.take(i as int)),
                forall|e: Seq<char>|
                    #![trigger m@[e]]
                    m@.dom().contains(e) ==> m@[e] == ext_count(files@.take(i as int), e),
        {
            let e = files[i].ext.as_str();
            let ghost had = files@.take(i as int);
            let ghost f = files@[i as int];
            proof {
                assert(files@.take(i + 1) == had.push(f));
                lemma_exts_push(had, f);
                if !exts(had).contains(e@) {
                    lemma_ext_count_absent(had, e@);
                }
                assert forall|x: Seq<char>| #[trigger] ext_count(had.push(f), x) == ext_count(had, x)
                    + if f.ext@ == x {
                    1nat
                } else {
                    0nat
                } by {
                    lemma_filter_push(had, f, has_ext(x));
                }
                lemma_count_bound(had, has_ext(e@));
            }
            let n: usize = match m.get(e) {
                Some(n) => *n,
                None => 0,
            };
            assert(n == ext_count(had, e@));
            m.insert(files[i].ext.clone(), n + 1);
        }
        assert(files@.take(files.len() as int) == files@);
        m
    }

    /// The rating of the shot that `f` belongs to; 0 where it has none.
    pub fn rating_of(&self, f: &FileItem) -> (r: u8)
        ensures
            r == rating(self.ratings@, shot(*f)),
    {
        match self.ratings.get(f.stem().as_str()) {
            Some(r) => *r,
            None => 0,
        }
    }

    /// How many bytes the files have together.
    pub fn total_size(&self) -> (n: u64)
        requires
            total(self.files@) <= u64::MAX,
        ensures
            n == total(self.files@),
    {
        let mut n: u64 = 0;
        for i in 0..self.files.len()
            invariant
                n == total(self.files@.take(i as int)),
                total(self.files@) <= u64::MAX,
        {
            proof {
                assert(self.files@.take(i + 1) == self.files@.take(i as int).push(
                    self.files@[i as int],
                ));
                lemma_total_push(self.files@.take(i as int), self.files@[i as int]);
                lemma_total_prefix(self.files@, i + 1);
            }
            n += self.files[i].size;
        }
        assert(self.files@.take(self.files.len() as int) == self.files@);
        n
    }

    /// Whether the number of bytes of all files together can be counted.
    pub fn size_fits(&self) -> (r: bool)
        ensures
            r == (total(self.files@) <= u64::MAX),
    {
        let mut n: u64 = 0;
        for i in 0..self.files.len()
            invariant
                n == total(self.files@.take(i as int)),
        {
            proof {
                assert(self.files@.take(i + 1) == self.files@.take(i as int).push(
                    self.files@[i as int],
                ));
                lemma_total_push(self.files@.take(i as int), self.files@[i as int]);
                lemma_total_prefix(self.files@, i + 1);
            }
            match n.checked_add(self.files[i].size) {
                Some(m) => {
                    n = m;
                },
                None => {
                    return false;
                },
            }
        }
        assert(self.files@.take(self.files.len() as int) == self.files@);
        true
    }

    /// The number of shots of which there is a photo.
    pub fn pic_count(&self) -> (n: usize)
        ensures
            n == photo_shots(self.files@).len(),
    {
        let files = &self.files;
        let mut found: TextMap<()> = TextMap::new();
        proof {
            lemma_none();
            assert(files@.take(0) == Seq::<FileItem>::empty());
        }
        for i in 0..files.len()
            invariant
                found@.dom() == photo_shots(files@.take(i as int)),
        {
            proof {
                assert(files@.take(i + 1) == files@.take(i as int).push(files@[i as int]));
                lemma_photo_shots_push(files@.take(i as int), files@[i as int]);
            }
            if files[i].is_photo() {
                found.insert(files[i].stem(), ());
            }
        }
        assert(files@.take(files.len() as int) == files@);
        found.len()
    }

    /// The number of movies.
    pub fn movie_count(&self) -> (n: usize)
        ensures
            n == count_of(self.files@, |f: FileItem| movie(f)),
    {
        let files = &self.files;
        let ghost keep = |f: FileItem| movie(f);
        let mut n: usize = 0;
        proof {
            reveal(Seq::filter);
        }
        for i in 0..files.len()
            invariant
                n <= i,
                keep == (|f: FileItem| movie(f)),
                n == count_of(files@.take(i as int), keep),
        {
            proof {
                lemma_filter_push(files@.take(i as int), files@[i as int], keep);
                assert(files@.take(i + 1) == files@.take(i as int).push(files@[i as int]));
            }
            if files[i].is_movie() {
                n += 1;
            }
        }
        assert(files@.take(files.len() as int) == files@);
        n
    }

    /// The paths of the movies, sorted.
    pub fn movies(&self) -> (r: Vec<String>)
        ensures
            r@ == sorted(movie_paths(self.files@)),
    {
        let files = &self.files;
        let mut v: Vec<String> = Vec::new();
        proof {
            reveal(Seq::filter);
            assert(v@ == movie_paths(files@.take(0)));
        }
        for i in 0..files.len()
            invariant
                v@ == movie_paths(files@.take(i as int)),
        {
            proof {
                let had = files@.take(i as int);
                let f = files@[i as int];
                lemma_filter_push(had, f, |f: FileItem| movie(f));
                assert(files@.take(i + 1) == had.push(f));
                if movie(f) {
                    assert(movie_paths(had.push(f)) == movie_paths(had).push(f.path));
                }
            }
            if files[i].is_movie() {
                v.push(files[i].path.clone());
            }
        }
        assert(files@.take(files.len() as int) == files@);
        sort(v)
    }

    /// What shows the shots: one path for each; where `min` is not 0, for each rated `min` or
    /// more.
    pub fn viewable_sources(&self, min: u8) -> (r: Vec<String>)
        ensures
            strs(r@) == viewables(self.files@.filter(rated(self.ratings@, min))),
    {
        let files = &self.files;
        let ghost keep = rated(self.ratings@, min);
        let mut kept: Vec<FileItem> = Vec::new();
        proof {
            reveal(Seq::filter);
        }
        for i in 0..files.len()
            invariant
                keep == rated(self.ratings@, min),
                files == &self.files,
                kept@ == files@.take(i as int).filter(keep),
        {
            proof {
                lemma_filter_push(files@.take(i as int), files@[i as int], keep);
                assert(files@.take(i + 1) == files@.take(i as int).push(files@[i as int]));
            }
            if min == 0 || self.rating_of(&files[i]) >= min {
                kept.push(files[i].copy());
            }
        }
        assert(files@.take(files.len() as int) == files@);
        pick_viewables(&kept)
    }

    /// The number of shots rated `min` or more.
    pub fn rated_count(&self, min: u8) -> (n: usize)
        ensures
            n == rated_shots(self.ratings@, min).len(),
    {
        let ks = self.ratings.keys();
        let ghost all = strs(ks@);
        let ghost keep = |s: Seq<char>| self.ratings@[s] >= min;
        let mut n: usize = 0;
        proof {
            reveal(Seq::filter);
        }
        for i in 0..ks.len()
            invariant
                n <= i,
                all == strs(ks@),
                all.to_set() == self.ratings@.dom(),
                keep == (|s: Seq<char>| self.ratings@[s] >= min),
                n == all.take(i as int).filter(keep).len(),
        {
            proof {
                lemma_filter_push(all.take(i as int), all[i as int], keep);
                assert(all.take(i + 1) == all.take(i as int).push(all[i as int]));
                assert(all.contains(all[i as int]));
                assert(self.ratings@.dom().contains(all[i as int]));
            }
            match self.ratings.get(ks[i].as_str()) {
                Some(r) => {
                    if *r >= min {
                        n += 1;
                    }
                },
                None => {},
            }
        }
        proof {
            assert(all.take(all.len() as int) == all);
            lemma_ascending_no_duplicates(all);
            lemma_rated_keys(all, self.ratings@, min);
        }
        n
    }

    /// The names of the photos.
    pub fn photo_filenames(&self) -> (r: Vec<String>)
        ensures
            strs(r@) == names(self.files@.filter(|f: FileItem| photo(f))),
    {
        let files = &self.files;
        let ghost keep = |f: FileItem| photo(f);
        let mut r: Vec<String> = Vec::new();
        proof {
            reveal(Seq::filter);
        }
        for i in 0..files.len()
            invariant
                keep == (|f: FileItem| photo(f)),
                strs(r@) == names(files@.take(i as int).filter(keep)),
        {
            let ghost f = files@[i as int];
            proof {
                lemma_filter_push(files@.take(i as int), f, keep);
                assert(files@.take(i + 1) == files@.take(i as int).push(f));
            }
            if files[i].is_photo() {
                push_name(&mut r, &files[i], Ghost(files@.take(i as int).filter(keep)));
            }
        }
        assert(files@.take(files.len() as int) == files@);
        r
    }

    /// The names of the photos of shots rated `min` or more.
    pub fn rated_filenames(&self, min: u8) -> (r: Vec<String>)
        ensures
            strs(r@) == names(self.files@.filter(rated_photo(self.ratings@, min))),
    {
        let files = &self.files;
        let ghost keep = rated_photo(self.ratings@, min);
        let mut r: Vec<String> = Vec::new();
        proof {
            reveal(Seq::filter);
        }
        for i in 0..files.len()
            invariant
                keep == rated_photo(self.ratings@, min),
                files == &self.files,
                strs(r@) == names(files@.take(i as int).filter(keep)),
        {
            let ghost f = files@[i as int];
            proof {
                lemma_filter_push(files@.take(i as int), f, keep);
                assert(files@.take(i + 1) == files@.take(i as int).push(f));
            }
            if files[i].is_photo() && self.rating_of(&files[i]) >= min {
                push_name(&mut r, &files[i], Ghost(files@.take(i as int).filter(keep)));
            }
        }
        assert(files@.take(files.len() as int) == files@);
        r
    }

    /// The extensions, each behind the number of its files.
    pub fn ext_summary(&self) -> (s: String)
        ensures
            s@ == ext_text(self.files@),
    {
        let m = self.count_by_ext();
        let ks = m.keys();
        let ghost order = in_order(exts(self.files@));
        let ghost line = |e: Seq<char>| dec(ext_count(self.files@, e)) + " "@ + e;
        let mut parts: Vec<String> = Vec::new();
        for i in 0..ks.len()
            invariant
                strs(ks@) == order,
                strs(ks@).to_set() == m@.dom(),
                line == (|e: Seq<char>| dec(ext_count(self.files@, e)) + " "@ + e),
                forall|e: Seq<char>|
                    #![trigger m@[e]]
                    m@.dom().contains(e) ==> m@[e] == ext_count(self.files@, e),
                strs(parts@) == order.take(i as int).map_values(line),
        {
            let k = ks[i].as_str();
            let ghost before = parts@;
            proof {
                assert(strs(ks@)[i as int] == k@);
                assert(strs(ks@).contains(k@));
                assert(m@.dom().contains(k@));
            }
            let n: usize = match m.get(k) {
                Some(n) => *n,
                None => 0,
            };
            let mut t = decimal(n as u64);
            t.append(" ");
            t.append(k);
            parts.push(t);
            proof {
                assert(t@ == line(k@));
                assert(strs(parts@) == strs(before).push(t@));
                assert(order.take(i + 1) == order.take(i as int).push(k@));
                assert(order.take(i + 1).map_values(line) == order.take(i as int).map_values(
                    line,
                ).push(line(k@)));
            }
        }
        assert(order.take(order.len() as int) == order);
        join_strings(&parts, ", ")
    }

    /// The date of the first file where clocks are `offset` seconds ahead.
    pub fn date_str(&self, offset: i64) -> (s: String)
        requires
            time_fits(self.start, offset),
        ensures
            s@ == date_text(self.start as int, offset as int),
    {
        fmt_date(self.start, offset)
    }
}

/// The paths of the movies among `files`.
pub open spec fn movie_paths(files: Seq<FileItem>) -> Seq<String> {
    files.filter(|f: FileItem| movie(f)).map_values(|f: FileItem| f.path)
}

proof fn lemma_count_bound(files: Seq<FileItem>, keep: spec_fn(FileItem) -> bool)
    ensures
        count_of(files, keep) <= files.len(),
{
    files.lemma_filter_len(keep);
}

proof fn lemma_ext_count_absent(files: Seq<FileItem>, e: Seq<char>)
    requires
        !exts(files).contains(e),
    ensures
        ext_count(files, e) == 0,
{
    let keep = has_ext(e);
    let picked = files.filter(keep);
    if picked.len() > 0 {
        assert(keep(picked[0]));
        assert(picked.contains(picked[0]));
        files.lemma_filter_contains_rev(keep, picked[0]);
        let i = choose|i: int| 0 <= i < files.len() && files[i] == picked[0];
        let a = files.map_values(|f: FileItem| f.ext@);
        assert(a[i] == e);
        assert(a.contains(e));
        assert(exts(files).contains(e));
    }
}

/// Adds the name of `f` to the names `r` of the files `had`.
fn push_name(r: &mut Vec<String>, f: &FileItem, had: Ghost<Seq<FileItem>>)
    requires
        strs(old(r)@) == names(had@),
    ensures
        strs(final(r)@) == names(had@.push(*f)),
{
    let ghost before = r@;
    proof {
        let all = had@;
        assert(all.push(*f).drop_last() == all);
    }
    match file_name(f.path.as_str()) {
        Some(n) => {
            r.push(n);
            assert(strs(r@) == strs(before).push(n@));
        },
        None => {},
    }
}

/// Picks the files of shots that are not among `gone`.
pub open spec fn spared(gone: Set<Seq<char>>) -> spec_fn(FileItem) -> bool {
    |f: FileItem| !gone.contains(shot(f))
}

/// The time of the first of `files`; `other` where there is none.
pub open spec fn first_time(files: Seq<FileItem>, other: i64) -> i64 {
    if files.len() > 0 {
        files[0].mtime
    } else {
        other
    }
}

/// The time of the last of `files`; `other` where there is none.
pub open spec fn last_time(files: Seq<FileItem>, other: i64) -> i64 {
    if files.len() > 0 {
        files.last().mtime
    } else {
        other
    }
}

/// The time of the first of `files`.
pub fn time_of_first(files: &Vec<FileItem>, other: i64) -> (t: i64)
    ensures
        t == first_time(files@, other),
{
    if files.len() > 0 {
        files[0].mtime
    } else {
        other
    }
}

/// The time of the last of `files`.
pub fn time_of_last(files: &Vec<FileItem>, other: i64) -> (t: i64)
    ensures
        t == last_time(files@, other),
{
    if files.len() > 0 {
        files[files.len() - 1].mtime
    } else {
        other
    }
}

impl Cluster {
    /// Forgets the ratings of shots that have no file any more.
    pub fn prune_ratings(&mut self)
        ensures
            final(self).ratings@ == old(self).ratings@.restrict(shots(old(self).files@)),
            *final(self) == (Cluster { ratings: final(self).ratings, ..*old(self) }),
    {
        let files = &self.files;
        let mut present: TextMap<()> = TextMap::new();
        proof {
            lemma_none();
            assert(files@.take(0) == Seq::<FileItem>::empty());
        }
        for i in 0..files.len()
            invariant
                present@.dom() == shots(files@.take(i as int)),
        {
            proof {
                assert(files@.take(i + 1) == files@.take(i as int).push(files@[i as int]));
                lemma_shots_push(files@.take(i as int), files@[i as int]);
            }
            present.insert(files[i].stem(), ());
        }
        assert(files@.take(files.len() as int) == files@);
        let ks = self.ratings.keys();
        let ghost all = strs(ks@);
        let ghost was = self.ratings@;
        let mut kept: TextMap<u8> = TextMap::new();
        for i in 0..ks.len()
            invariant
                all == strs(ks@),
                was == self.ratings@,
                all.to_set() == was.dom(),
                forall|s: Seq<char>| #[trigger]
                    kept@.dom().contains(s) <==> all.take(i as int).contains(s)
                        && present@.dom().contains(s),
                forall|s: Seq<char>| #[trigger] kept@.dom().contains(s) ==> kept@[s] == was[s],
        {
            let k = ks[i].as_str();
            proof {
                assert(all[i as int] == k@);
                assert(all.contains(k@));
                assert(was.dom().contains(k@));
                let t = all.take(i as int);
                assert(all.take(i + 1) == t.push(k@));
                assert forall|s: Seq<char>| #[trigger]
                    all.take(i + 1).contains(s) == (t.contains(s) || s == k@) by {
                    if t.contains(s) {
                        let j = choose|j: int| 0 <= j < t.len() && t[j] == s;
                        assert(t.push(k@)[j] == s);
                    }
                    if t.push(k@).contains(s) {
                        let j = choose|j: int| 0 <= j < t.len() + 1 && t.push(k@)[j] == s;
                        if j < t.len() {
                            assert(t[j] == s);
                        }
                    }
                    assert(t.push(k@)[t.len() as int] == k@);
                }
            }
            if present.contains(k) {
                match self.ratings.get(k) {
                    Some(r) => {
                        kept.insert(ks[i].clone(), *r);
                    },
                    None => {},
                }
            }
        }
        proof {
            assert(all.take(all.len() as int) == all);
            assert forall|s: Seq<char>| kept@.dom().contains(s) == was.restrict(
                shots(self.files@),
            ).dom().contains(s) by {
                assert(all.contains(s) == all.to_set().contains(s));
            }
            assert(kept@ == was.restrict(shots(self.files@)));
        }
        self.ratings = kept;
    }

    /// Drops the files of the shots in `gone`. The times follow the files that are left, and
    /// an occasion without files is left alone.
    pub fn remove_stems(&mut self, gone: &TextMap<()>)
        ensures
            final(self).files@ == old(self).files@.filter(spared(gone@.dom())),
            *final(self) == (Cluster {
                files: final(self).files,
                start: first_time(final(self).files@, old(self).start),
                end: last_time(final(self).files@, old(self).end),
                skip: old(self).skip || final(self).files@.len() == 0,
                ..*old(self)
            }),
    {
        let ghost all = self.files@;
        let ghost keep = spared(gone@.dom());
        let mut had: Vec<FileItem> = Vec::new();
        std::mem::swap(&mut had, &mut self.files);
        let mut kept: Vec<FileItem> = Vec::new();
        proof {
            reveal(Seq::filter);
        }
        for f in it: had
            invariant
                it.seq() == all,
                keep == spared(gone@.dom()),
                kept@ == all.take(it.index() as int).filter(keep),
        {
            proof {
                let k = it.index() as int;
                lemma_filter_push(all.take(k), all[k], keep);
                assert(all.take(k + 1) == all.take(k).push(all[k]));
            }
            if !gone.contains(f.stem().as_str()) {
                kept.push(f);
            }
        }
        assert(all.take(all.len() as int) == all);
        self.start = time_of_first(&kept, self.start);
        self.end = time_of_last(&kept, self.end);
        if kept.len() == 0 {
            self.skip = true;
        }
        self.files = kept;
    }
}

/// Occasions are sorted by the name of their folder, the last one first.
impl Sorts for Cluster {
    open spec fn precedes(self, other: Self) -> bool {
        text_before(other.target@, self.target@)
    }

    proof fn lemma_one_way(a: Self, b: Self) {
        lemma_text_total(a.target@, b.target@);
    }

    proof fn lemma_chain(a: Self, b: Self, c: Self) {
        lemma_text_total(a.target@, b.target@);
        lemma_text_total(b.target@, c.target@);
        lemma_text_total(a.target@, c.target@);
        if text_before(c.target@, b.target@) && text_before(b.target@, a.target@) {
            lemma_text_transitive(c.target@, b.target@, a.target@);
        }
    }

    fn before(&self, other: &Self) -> (r: bool) {
        match rank(other.target.as_str(), self.target.as_str()) {
            Rank::Before => true,
            _ => {
                proof {
                    lemma_text_total(other.target@, self.target@);
                }
                false
            },
        }
    }
}

/// The occasions of the library, the newest date first.
pub fn newest_first(found: Vec<Cluster>) -> (r: Vec<Cluster>)
    ensures
        r@ == sorted(found@),
{
    sort(found)
}

/// A second photo of a shot does not make one more picture.
pub proof fn lemma_pair_counts_once(files: Seq<FileItem>, f: FileItem)
    requires
        photo_shots(files).contains(shot(f)),
    ensures
        photo_shots(files.push(f)).len() == photo_shots(files).len(),
{
    lemma_photo_shots_push(files, f);
    assert(photo_shots(files).insert(shot(f)) == photo_shots(files));
}

proof fn lemma_photo_shots_finite(files: Seq<FileItem>)
    ensures
        photo_shots(files).finite(),
{
    vstd::seq_lib::seq_to_set_is_finite(
        files.filter(|f: FileItem| photo(f)).map_values(|f: FileItem| shot(f)),
    );
}

/// Each shot with a photo is shown once.
pub proof fn lemma_one_view_per_shot(files: Seq<FileItem>)
    ensures
        viewables(files).len() == photo_shots(files).len(),
{
    lemma_photo_shots_finite(files);
    lemma_order_of(photo_shots(files));
}

proof fn lemma_last_of(files: Seq<FileItem>, s: Seq<char>, keep: spec_fn(FileItem) -> bool)
    ensures
        match last_of(files, s, keep) {
            Some(p) => exists|i: int|
                0 <= i < files.len() && (#[trigger] files[i]).path@ == p && shot(files[i]) == s
                    && keep(files[i]),
            None => forall|i: int|
                0 <= i < files.len() && shot(files[i]) == s ==> !keep(#[trigger] files[i]),
        },
    decreases files.len(),
{
    if files.len() > 0 {
        let front = files.drop_last();
        if shot(files.last()) == s && keep(files.last()) {
            assert(files[files.len() - 1] == files.last());
        } else {
            lemma_last_of(front, s, keep);
            match last_of(front, s, keep) {
                Some(p) => {
                    let i = choose|i: int|
                        0 <= i < front.len() && (#[trigger] front[i]).path@ == p && shot(front[i])
                            == s && keep(front[i]);
                    assert(files[i] == front[i]);
                },
                None => {
                    assert forall|i: int| 0 <= i < files.len() && shot(files[i]) == s implies !keep(
                        #[trigger] files[i],
                    ) by {
                        if i < front.len() {
                            assert(files[i] == front[i]);
                        }
                    }
                },
            }
        }
    }
}

/// What shows a shot with a photo is one of its photos, and its JPEG image where it has one.
pub proof fn lemma_viewable(files: Seq<FileItem>, s: Seq<char>)
    requires
        photo_shots(files).contains(s),
    ensures
        viewable(files, s) is Some,
        exists|i: int|
            {
                &&& 0 <= i < files.len()
                &&& (#[trigger] files[i]).path@ == viewable(files, s)->0
                &&& shot(files[i]) == s
                &&& photo(files[i])
                &&& is_jpg_ext(files[i].ext@) || forall|j: int|
                    0 <= j < files.len() && shot(files[j]) == s ==> !is_jpg_ext(
                        (#[trigger] files[j]).ext@,
                    )
            },
{
    let jpg = |f: FileItem| is_jpg_ext(f.ext@);
    let nef = |f: FileItem| f.ext@ == "nef"@;
    let keep = |f: FileItem| photo(f);
    lemma_last_of(files, s, jpg);
    lemma_last_of(files, s, nef);
    let a = files.filter(keep).map_values(|f: FileItem| shot(f));
    assert(a.contains(s));
    let i = choose|i: int| 0 <= i < a.len() && a[i] == s;
    let f = files.filter(keep)[i];
    assert(files.filter(keep).contains(f));
    files.lemma_filter_contains_rev(keep, f);
    let k = choose|k: int| 0 <= k < files.len() && files[k] == f;
    assert(keep(files.filter(keep)[i]));
    assert(shot(files[k]) == s && photo(files[k]));
    if last_of(files, s, jpg) is None {
        assert(!jpg(files[k]));
        assert(nef(files[k]));
        assert forall|j: int| 0 <= j < files.len() && shot(files[j]) == s implies !is_jpg_ext(
            (#[trigger] files[j]).ext@,
        ) by {
            assert(!jpg(files[j]));
        }
    }
}

/// Culling leaves no file of a culled shot, and of the other files all, in their order.
pub proof fn lemma_spared(files: Seq<FileItem>, gone: Set<Seq<char>>)
    ensures
        ({
            let left = files.filter(spared(gone));
            &&& shots(left) == shots(files).difference(gone)
            &&& forall|f: FileItem|
                #![trigger left.contains(f)]
                left.contains(f) <==> files.contains(f) && !gone.contains(shot(f))
        }),
{
    let keep = spared(gone);
    let left = files.filter(keep);
    assert forall|f: FileItem|
        #![trigger left.contains(f)]
        left.contains(f) <==> files.contains(f) && !gone.contains(shot(f)) by {
        if left.contains(f) {
            files.lemma_filter_contains_rev(keep, f);
            let i = choose|i: int| 0 <= i < left.len() && left[i] == f;
            files.lemma_filter_pred(keep, i);
            assert(keep(f));
        }
        if files.contains(f) && !gone.contains(shot(f)) {
            let i = choose|i: int| 0 <= i < files.len() && files[i] == f;
            assert(keep(files[i]));
            files.lemma_filter_contains(keep, i);
        }
    }
    let a = left.map_values(|f: FileItem| shot(f));
    let b = files.map_values(|f: FileItem| shot(f));
    assert forall|s: Seq<char>| a.to_set().contains(s) == (b.to_set().contains(s) && !gone.contains(
        s,
    )) by {
        if a.contains(s) {
            let i = choose|i: int| 0 <= i < a.len() && a[i] == s;
            assert(left.contains(left[i]));
            let j = choose|j: int| 0 <= j < files.len() && files[j] == left[i];
            assert(b[j] == s);
        }
        if b.contains(s) && !gone.contains(s) {
            let j = choose|j: int| 0 <= j < b.len() && b[j] == s;
            assert(files.contains(files[j]));
            assert(left.contains(files[j]));
            let i = choose|i: int| 0 <= i < left.len() && left[i] == files[j];
            assert(a[i] == s);
        }
    }
    assert(shots(left) == shots(files).difference(gone));
}

/// Picks the shots rated `min` or more; all shots where `min` is 0.
pub open spec fn reaches(ratings: Map<Seq<char>, u8>, min: u8) -> spec_fn(Seq<char>) -> bool {
    |s: Seq<char>| min == 0 || rating(ratings, s) >= min
}

proof fn lemma_rated_photo_shots(files: Seq<FileItem>, ratings: Map<Seq<char>, u8>, min: u8)
    ensures
        photo_shots(files.filter(rated(ratings, min))) == photo_shots(files).filter(
            reaches(ratings, min),
        ),
    decreases files.len(),
{
    let keep = rated(ratings, min);
    let bar = reaches(ratings, min);
    if files.len() == 0 {
        reveal(Seq::filter);
        lemma_none();
        assert(files == Seq::<FileItem>::empty());
        assert(Set::<Seq<char>>::empty().filter(bar) == Set::<Seq<char>>::empty());
    } else {
        let d = files.drop_last();
        let f = files.last();
        lemma_rated_photo_shots(d, ratings, min);
        assert(files == d.push(f));
        lemma_filter_push(d, f, keep);
        lemma_photo_shots_push(d, f);
        lemma_photo_shots_push(d.filter(keep), f);
        assert(photo_shots(files.filter(keep)) == photo_shots(files).filter(bar));
    }
}

proof fn lemma_rated_last_of(
    files: Seq<FileItem>,
    ratings: Map<Seq<char>, u8>,
    min: u8,
    s: Seq<char>,
    keep: spec_fn(FileItem) -> bool,
)
    requires
        reaches(ratings, min)(s),
    ensures
        last_of(files.filter(rated(ratings, min)), s, keep) == last_of(files, s, keep),
    decreases files.len(),
{
    let pick = rated(ratings, min);
    if files.len() == 0 {
        reveal(Seq::filter);
        assert(files.filter(pick) == files);
    } else {
        let d = files.drop_last();
        let f = files.last();
        lemma_rated_last_of(d, ratings, min, s, keep);
        assert(files == d.push(f));
        lemma_filter_push(d, f, pick);
        if pick(f) {
            assert(d.filter(pick).push(f).drop_last() == d.filter(pick));
        }
    }
}

/// A higher bar leaves out shots and changes nothing else: what is shown above it are the paths
/// shown above the lower bar, each for the same shot and in the same order, of just the shots
/// that reach the higher bar.
pub proof fn lemma_higher_bar(files: Seq<FileItem>, ratings: Map<Seq<char>, u8>, low: u8, high: u8)
    requires
        low <= high,
    ensures
        ({
            let a = files.filter(rated(ratings, low));
            let b = files.filter(rated(ratings, high));
            let left = in_order(photo_shots(a)).filter(reaches(ratings, high));
            &&& in_order(photo_shots(b)) == left
            &&& viewables(b) == left.map_values(|s: Seq<char>| viewable(a, s)->0)
        }),
{
    let a = files.filter(rated(ratings, low));
    let b = files.filter(rated(ratings, high));
    let bar = reaches(ratings, high);
    lemma_rated_photo_shots(files, ratings, low);
    lemma_rated_photo_shots(files, ratings, high);
    assert(photo_shots(b) == photo_shots(a).filter(bar));
    lemma_photo_shots_finite(a);
    lemma_order_of_part(photo_shots(a), bar);
    let all = in_order(photo_shots(a));
    let left = all.filter(bar);
    assert forall|i: int| 0 <= i < left.len() implies viewable(a, left[i]) == viewable(b, left[i]) by {
        all.lemma_filter_pred(bar, i);
        let s = left[i];
        let jpg = |f: FileItem| is_jpg_ext(f.ext@);
        let nef = |f: FileItem| f.ext@ == "nef"@;
        lemma_rated_last_of(files, ratings, low, s, jpg);
        lemma_rated_last_of(files, ratings, low, s, nef);
        lemma_rated_last_of(files, ratings, high, s, jpg);
        lemma_rated_last_of(files, ratings, high, s, nef);
    }
    assert(viewables(b) == left.map_values(|s: Seq<char>| viewable(a, s)->0));
}

/// The names are those of the files.
pub proof fn lemma_names(files: Seq<FileItem>, n: Seq<char>)
    ensures
        names(files).contains(n) <==> exists|i: int|
            0 <= i < files.len() && file_name_of((#[trigger] files[i]).path@) == Some(n),
    decreases files.len(),
{
    if files.len() > 0 {
        let front = files.drop_last();
        let k = files.len() - 1;
        let b = names(front);
        let a = names(files);
        lemma_names(front, n);
        if a.contains(n) {
            let j = choose|j: int| 0 <= j < a.len() && a[j] == n;
            if j < b.len() {
                assert(b[j] == n);
                let i = choose|i: int|
                    0 <= i < front.len() && file_name_of((#[trigger] front[i]).path@) == Some(n);
                assert(files[i] == front[i]);
            } else {
                assert(files[k] == files.last());
            }
        }
        if exists|i: int|
            0 <= i < files.len() && file_name_of((#[trigger] files[i]).path@) == Some(n) {
            let i = choose|i: int|
                0 <= i < files.len() && file_name_of((#[trigger] files[i]).path@) == Some(n);
            if i < k {
                assert(front[i] == files[i]);
                let j = choose|j: int| 0 <= j < b.len() && b[j] == n;
                assert(a[j] == n);
            } else {
                assert(a[b.len() as int] == n);
            }
        }
    }
}

/// The bytes of files add up: those of two lists are those of the one and of the other, and a
/// file alone has its own.
pub proof fn lemma_total_adds(a: Seq<FileItem>, b: Seq<FileItem>, f: FileItem)
    ensures
        total(a + b) == total(a) + total(b),
        total(seq![f]) == f.size,
        total(Seq::<FileItem>::empty()) == 0,
    decreases b.len(),
{
    let none = Seq::<FileItem>::empty();
    assert(seq![f].drop_last() == none);
    assert(total(none) == 0);
    if b.len() == 0 {
        assert(a + b == a);
    } else {
        lemma_total_adds(a, b.drop_last(), f);
        assert((a + b).drop_last() == a + b.drop_last());
    }
}

/// A shot has a photo just where one of the files is a JPEG or NEF image of it.
pub proof fn lemma_shot_with_photo(files: Seq<FileItem>, s: Seq<char>)
    ensures
        photo_shots(files).contains(s) <==> exists|i: int|
            {
                &&& 0 <= i < files.len()
                &&& stem((#[trigger] files[i]).path@) == s
                &&& files[i].ext@ == "jpg"@ || files[i].ext@ == "jpeg"@ || files[i].ext@ == "nef"@
            },
    decreases files.len(),
{
    reveal(Seq::filter);
    if files.len() > 0 {
        let front = files.drop_last();
        let f = files.last();
        lemma_shot_with_photo(front, s);
        lemma_photo_shots_push(front, f);
        assert(front.push(f) == files);
        assert(files[files.len() - 1] == f);
        assert forall|i: int| 0 <= i < front.len() implies #[trigger] files[i] == front[i] by {}
    } else {
        let none = files.filter(|f: FileItem| photo(f)).map_values(|f: FileItem| shot(f));
        assert(none.len() == 0);
    }
}

/// The extensions of files are those that some file has.
pub proof fn lemma_exts(files: Seq<FileItem>, e: Seq<char>)
    ensures
        exts(files).contains(e) <==> exists|i: int|
            0 <= i < files.len() && (#[trigger] files[i]).ext@ == e,
        exts(files).finite(),
{
    let l = files.map_values(|f: FileItem| f.ext@);
    vstd::seq_lib::seq_to_set_is_finite(l);
    if l.contains(e) {
        let i = choose|i: int| 0 <= i < l.len() && l[i] == e;
        assert(files[i].ext@ == e);
    }
    if exists|i: int| 0 <= i < files.len() && (#[trigger] files[i]).ext@ == e {
        let i = choose|i: int| 0 <= i < files.len() && (#[trigger] files[i]).ext@ == e;
        assert(l[i] == e);
    }
}

/// One more file counts for its own extension, and for no other.
pub proof fn lemma_ext_counts(files: Seq<FileItem>, f: FileItem, e: Seq<char>)
    ensures
        ext_count(files.push(f), e) == ext_count(files, e) + if f.ext@ == e {
            1nat
        } else {
            0
        },
        ext_count(Seq::<FileItem>::empty(), e) == 0,
        count_of(files.push(f), |f: FileItem| movie(f)) == count_of(files, |f: FileItem| movie(f))
            + if f.ext@ == "mov"@ || f.ext@ == "mp4"@ {
            1nat
        } else {
            0
        },
{
    lemma_filter_push(files, f, has_ext(e));
    lemma_filter_push(files, f, |f: FileItem| movie(f));
    reveal(Seq::filter);
}

/// The names of two lists of files are those of the one and then those of the other, and a file
/// alone has the last name of its path.
pub proof fn lemma_names_add(a: Seq<FileItem>, b: Seq<FileItem>, f: FileItem)
    ensures
        names(a + b) == names(a) + names(b),
        file_name_of(f.path@) is Some ==> names(seq![f]) == seq![file_name_of(f.path@)->0],
    decreases b.len(),
{
    let none = Seq::<FileItem>::empty();
    assert(seq![f].drop_last() == none);
    assert(names(none) == Seq::<Seq<char>>::empty());
    assert(names(none).push(file_name_of(f.path@)->0) == seq![file_name_of(f.path@)->0]);
    if b.len() == 0 {
        assert(a + b == a);
        assert(names(a) + names(b) == names(a));
    } else {
        lemma_names_add(a, b.drop_last(), f);
        assert((a + b).drop_last() == a + b.drop_last());
        if let Some(n) = file_name_of(b.last().path@) {
            assert((names(a) + names(b.drop_last())).push(n) == names(a) + names(b.drop_last()).push(
                n,
            ));
        }
    }
}

/// Of several JPEG images of a shot the last one shows it; of several NEF images, where there is
/// no JPEG image, the last one too.
pub proof fn lemma_last_one_shows(files: Seq<FileItem>, s: Seq<char>, i: int)
    requires
        0 <= i < files.len(),
        stem(files[i].path@) == s,
        forall|j: int| i < j < files.len() && stem(files[j].path@) == s ==> (#[trigger] files[j]).ext@
            != "jpg"@ && files[j].ext@ != "jpeg"@,
        files[i].ext@ == "jpg"@ || files[i].ext@ == "jpeg"@ || (files[i].ext@ == "nef"@ && forall|
            j: int,
        |
            0 <= j < files.len() && stem(files[j].path@) == s ==> (#[trigger] files[j]).ext@ != "jpg"@
                && files[j].ext@ != "jpeg"@ && (j > i ==> files[j].ext@ != "nef"@)),
    ensures
        viewable(files, s) == Some(files[i].path@),
{
    let jpg = |f: FileItem| is_jpg_ext(f.ext@);
    let nef = |f: FileItem| f.ext@ == "nef"@;
    if is_jpg_ext(files[i].ext@) {
        lemma_last_of_at(files, s, jpg, i);
    } else {
        assert forall|j: int| 0 <= j < files.len() implies !(shot(#[trigger] files[j]) == s && jpg(
            files[j],
        )) by {}
        lemma_last_of_none(files, s, jpg);
        lemma_last_of_at(files, s, nef, i);
    }
}

proof fn lemma_last_of_at(files: Seq<FileItem>, s: Seq<char>, keep: spec_fn(FileItem) -> bool, i: int)
    requires
        0 <= i < files.len(),
        shot(files[i]) == s,
        keep(files[i]),
        forall|j: int| i < j < files.len() ==> !(shot(#[trigger] files[j]) == s && keep(files[j])),
    ensures
        last_of(files, s, keep) == Some(files[i].path@),
    decreases files.len(),
{
    if i < files.len() - 1 {
        let f = files.drop_last();
        assert forall|j: int| i < j < f.len() implies !(shot(#[trigger] f[j]) == s && keep(f[j])) by {
            assert(f[j] == files[j]);
        }
        lemma_last_of_at(f, s, keep, i);
        assert(files[files.len() - 1] == files.last());
    }
}

proof fn lemma_last_of_none(files: Seq<FileItem>, s: Seq<char>, keep: spec_fn(FileItem) -> bool)
    requires
        forall|j: int| 0 <= j < files.len() ==> !(shot(#[trigger] files[j]) == s && keep(files[j])),
    ensures
        last_of(files, s, keep) is None,
    decreases files.len(),
{
    if files.len() > 0 {
        let f = files.drop_last();
        assert forall|j: int| 0 <= j < f.len() implies !(shot(#[trigger] f[j]) == s && keep(f[j])) by {
            assert(f[j] == files[j]);
        }
        lemma_last_of_none(f, s, keep);
        assert(files[files.len() - 1] == files.last());
    }
}

/// What is shown of an occasion is, shot by shot in the order of their stems, what shows them.
pub proof fn lemma_views_in_order(files: Seq<FileItem>)
    ensures
        ({
            let ks = in_order(photo_shots(files));
            let v = viewables(files);
            &&& v.len() == ks.len()
            &&& ks.to_set() == photo_shots(files)
            &&& forall|i: int, j: int| 0 <= i < j < ks.len() ==> text_before(
                #[trigger] ks[i],
                #[trigger] ks[j],
            )
            &&& forall|i: int| 0 <= i < v.len() ==> viewable(files, ks[i]) == Some(#[trigger] v[i])
        }),
{
    lemma_photo_shots_finite(files);
    lemma_order_of(photo_shots(files));
    let ks = in_order(photo_shots(files));
    assert forall|i: int| 0 <= i < ks.len() implies viewable(files, ks[i]) == Some(
        #[trigger] viewables(files)[i],
    ) by {
        assert(ks.to_set().contains(ks[i]));
        lemma_viewable(files, ks[i]);
    }
}

/// The movies of an occasion are just its files with a movie's extension, in the order of their
/// paths.
pub proof fn lemma_movies(files: Seq<FileItem>)
    ensures
        ({
            let m = sorted(movie_paths(files));
            &&& m.to_multiset() == movie_paths(files).to_multiset()
            &&& m.len() == count_of(files, |f: FileItem| movie(f))
            &&& forall|i: int, j: int| 0 <= i < j < m.len() ==> !path_before(
                (#[trigger] m[j])@,
                (#[trigger] m[i])@,
            )
            &&& forall|p: String|
                #![trigger movie_paths(files).contains(p)]
                movie_paths(files).contains(p) <==> exists|i: int|
                    {
                        &&& 0 <= i < files.len()
                        &&& (#[trigger] files[i]).path == p
                        &&& files[i].ext@ == "mov"@ || files[i].ext@ == "mp4"@
                    }
        }),
{
    lemma_sorted(movie_paths(files));
    let m = sorted(movie_paths(files));
    assert forall|i: int, j: int| 0 <= i < j < m.len() implies !path_before(
        (#[trigger] m[j])@,
        (#[trigger] m[i])@,
    ) by {
        assert(!String::precedes(m[j], m[i]));
    }
    let keep = |f: FileItem| movie(f);
    let l = files.filter(keep);
    assert forall|p: String|
        #![trigger movie_paths(files).contains(p)]
        movie_paths(files).contains(p) <==> exists|i: int|
            {
                &&& 0 <= i < files.len()
                &&& (#[trigger] files[i]).path == p
                &&& files[i].ext@ == "mov"@ || files[i].ext@ == "mp4"@
            } by {
        if movie_paths(files).contains(p) {
            let k = choose|k: int| 0 <= k < l.len() && movie_paths(files)[k] == p;
            assert(l.contains(l[k]));
            files.lemma_filter_contains_rev(keep, l[k]);
            files.lemma_filter_pred(keep, k);
            let i = choose|i: int| 0 <= i < files.len() && files[i] == l[k];
            assert(files[i].path == p);
        }
        if exists|i: int|
            {
                &&& 0 <= i < files.len()
                &&& (#[trigger] files[i]).path == p
                &&& files[i].ext@ == "mov"@ || files[i].ext@ == "mp4"@
            } {
            let i = choose|i: int|
                {
                    &&& 0 <= i < files.len()
                    &&& (#[trigger] files[i]).path == p
                    &&& files[i].ext@ == "mov"@ || files[i].ext@ == "mp4"@
                };
            files.lemma_filter_contains(keep, i);
            let k = choose|k: int| 0 <= k < l.len() && l[k] == files[i];
            assert(movie_paths(files)[k] == p);
        }
    }
}

/// The occasions of the library come with the last name first, and all of them stay.
pub proof fn lemma_newest_first(cs: Seq<Cluster>)
    ensures
        forall|i: int, j: int|
            0 <= i < j < cs.len() ==> !text_before(
                (#[trigger] sorted(cs)[i]).target@,
                (#[trigger] sorted(cs)[j]).target@,
            ),
        sorted(cs).to_multiset() == cs.to_multiset(),
        sorted(cs).len() == cs.len(),
{
    lemma_sorted(cs);
    assert forall|i: int, j: int| 0 <= i < j < cs.len() implies !text_before(
        (#[trigger] sorted(cs)[i]).target@,
        (#[trigger] sorted(cs)[j]).target@,
    ) by {
        assert(!Cluster::precedes(sorted(cs)[j], sorted(cs)[i]));
    }
}

/// A shot is picked where the bar is 0, or where it has a rating that reaches the bar; its
/// photos are picked so too, and a shot counts as rated just where it has such a rating.
pub proof fn lemma_picked(
    files: Seq<FileItem>,
    ratings: Map<Seq<char>, u8>,
    min: u8,
    f: FileItem,
    s: Seq<char>,
)
    ensures
        files.filter(rated(ratings, min)).contains(f) <==> files.contains(f) && (min == 0 || (
        ratings.contains_key(stem(f.path@)) && ratings[stem(f.path@)] >= min)),
        min > 0 ==> (files.filter(rated_photo(ratings, min)).contains(f) <==> files.contains(f)
            && ratings.contains_key(stem(f.path@)) && ratings[stem(f.path@)] >= min && (f.ext@
            == "jpg"@ || f.ext@ == "jpeg"@ || f.ext@ == "nef"@)),
        rated_shots(ratings, min).contains(s) <==> ratings.contains_key(s) && ratings[s] >= min,
        files.filter(rated(ratings, 0)) == files,
{
    lemma_filter_has(files, rated(ratings, min), f);
    lemma_filter_has(files, rated_photo(ratings, min), f);
    lemma_filter_all(files, rated(ratings, 0));
}

proof fn lemma_filter_has(files: Seq<FileItem>, keep: spec_fn(FileItem) -> bool, f: FileItem)
    ensures
        files.filter(keep).contains(f) <==> files.contains(f) && keep(f),
{
    let l = files.filter(keep);
    if l.contains(f) {
        files.lemma_filter_contains_rev(keep, f);
        let k = choose|k: int| 0 <= k < l.len() && l[k] == f;
        files.lemma_filter_pred(keep, k);
    }
    if files.contains(f) && keep(f) {
        let k = choose|k: int| 0 <= k < files.len() && files[k] == f;
        files.lemma_filter_contains(keep, k);
    }
}

proof fn lemma_filter_all(files: Seq<FileItem>, keep: spec_fn(FileItem) -> bool)
    requires
        forall|f: FileItem| #[trigger] keep(f),
    ensures
        files.filter(keep) == files,
    decreases files.len(),
{
    reveal(Seq::filter);
    if files.len() > 0 {
        lemma_filter_all(files.drop_last(), keep);
        assert(keep(files.last()));
        assert(files.drop_last().push(files.last()) == files);
    }
}

/// The summary of the extensions names each that there is behind the number of its files.
pub proof fn lemma_ext_summary(files: Seq<FileItem>, i: int)
    requires
        0 <= i < files.len(),
    ensures
        has_text(ext_text(files), dec(ext_count(files, files[i].ext@)) + " "@ + files[i].ext@),
{
    let e = files[i].ext@;
    lemma_exts(files, e);
    lemma_order_of(exts(files));
    let ks = in_order(exts(files));
    assert(ks.to_set().contains(e));
    let k = choose|k: int| 0 <= k < ks.len() && ks[k] == e;
    let parts = ks.map_values(|e: Seq<char>| dec(ext_count(files, e)) + " "@ + e);
    lemma_join_has(parts, ", "@, k);
    assert(parts[k] == dec(ext_count(files, e)) + " "@ + e);
}

} // verus!
