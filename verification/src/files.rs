//! Media files, and what their extensions say.
use crate::paths::{
    extension, extension_of, is_name, joined, lemma_joined, lemma_path_stem,
    lemma_stem_and_extension, stem, stem_of,
};
use crate::sorting::{
    lemma_filter_push, lemma_sorted, lemma_sorted_keeps_ties, sort, sorted, Sorts,
};
use crate::text::same;
use vstd::prelude::*;
use vstd::utf8::is_ascii_chars;

verus! {

/// What `str::to_lowercase` makes of `s`.
pub uninterp spec fn lowercase(s: Seq<char>) -> Seq<char>;

/// The ASCII character `c` in lower case.
pub open spec fn lower(c: char) -> char {
    if 'A' <= c <= 'Z' {
        (c as u8 + 32) as char
    } else {
        c
    }
}

/// `s` with its ASCII characters in lower case.
pub open spec fn ascii_lower(s: Seq<char>) -> Seq<char> {
    s.map_values(|c: char| lower(c))
}

/// `str::to_lowercase`: the result depends on `s` alone, and of ASCII text it changes the
/// letters from `A` to `Z` and nothing else. Beyond ASCII it goes by Unicode's tables, of which
/// nothing is claimed.
#[verifier::external_body]
fn to_lower(s: &str) -> (r: String)
    ensures
        r@ == lowercase(s@),
        is_ascii_chars(s@) ==> r@ == ascii_lower(s@),
{
    s.to_lowercase()
}

/// Whether `ext` is that of a JPEG image.
pub open spec fn is_jpg_ext(ext: Seq<char>) -> bool {
    ext == "jpg"@ || ext == "jpeg"@
}

/// Whether `ext` is that of a photo.
pub open spec fn is_photo_ext(ext: Seq<char>) -> bool {
    is_jpg_ext(ext) || ext == "nef"@
}

/// Whether `ext` is that of a movie.
pub open spec fn is_movie_ext(ext: Seq<char>) -> bool {
    ext == "mov"@ || ext == "mp4"@
}

/// Whether `ext` is that of a file that belongs to an occasion.
pub open spec fn is_media_ext(ext: Seq<char>) -> bool {
    is_photo_ext(ext) || is_movie_ext(ext) || ext == "raw"@
}

/// Whether `ext` is that of a JPEG image.
pub fn is_jpg(ext: &str) -> (r: bool)
    ensures
        r == is_jpg_ext(ext@),
{
    same(ext, "jpg") || same(ext, "jpeg")
}

/// Whether `ext` is that of a NEF image.
pub fn is_nef(ext: &str) -> (r: bool)
    ensures
        r == (ext@ == "nef"@),
{
    same(ext, "nef")
}

/// Whether `ext` is that of a movie.
pub fn is_movie(ext: &str) -> (r: bool)
    ensures
        r == is_movie_ext(ext@),
{
    same(ext, "mov") || same(ext, "mp4")
}

/// Whether `ext` is that of a file that belongs to an occasion.
pub fn is_media(ext: &str) -> (r: bool)
    ensures
        r == is_media_ext(ext@),
{
    is_jpg(ext) || is_nef(ext) || is_movie(ext) || same(ext, "raw")
}

/// A media file.
#[derive(Debug)]
pub struct FileItem {
    /// Where it is.
    pub path: String,
    /// When it was last modified, in Unix seconds.
    pub mtime: i64,
    /// Its extension, in lower case and without the dot.
    pub ext: String,
    /// How many bytes it has.
    pub size: u64,
}

/// The shot that a file belongs to.
pub open spec fn shot(f: FileItem) -> Seq<char> {
    stem(f.path@)
}

/// Whether a file is a photo.
pub open spec fn photo(f: FileItem) -> bool {
    is_photo_ext(f.ext@)
}

/// Whether a file is a movie.
pub open spec fn movie(f: FileItem) -> bool {
    is_movie_ext(f.ext@)
}

/// Files are sorted by the time of their last modification.
impl Sorts for FileItem {
    open spec fn precedes(self, other: Self) -> bool {
        self.mtime < other.mtime
    }

    proof fn lemma_one_way(a: Self, b: Self) {
    }

    proof fn lemma_chain(a: Self, b: Self, c: Self) {
    }

    fn before(&self, other: &Self) -> (r: bool) {
        self.mtime < other.mtime
    }
}

impl FileItem {
    /// A copy of the file's description.
    pub fn copy(&self) -> (r: FileItem)
        ensures
            r == *self,
    {
        FileItem {
            path: self.path.clone(),
            mtime: self.mtime,
            ext: self.ext.clone(),
            size: self.size,
        }
    }

    /// The shot that the file belongs to.
    pub fn stem(&self) -> (s: String)
        ensures
            s@ == shot(*self),
    {
        stem_of(self.path.as_str())
    }

    /// Whether the file is a photo.
    pub fn is_photo(&self) -> (r: bool)
        ensures
            r == photo(*self),
    {
        is_jpg(self.ext.as_str()) || is_nef(self.ext.as_str())
    }

    /// Whether the file is a movie.
    pub fn is_movie(&self) -> (r: bool)
        ensures
            r == movie(*self),
    {
        is_movie(self.ext.as_str())
    }
}

/// What the file system says of a file.
#[derive(Clone, Copy, Debug)]
pub struct Stat {
    /// The seconds from the Unix epoch to the last modification; none where it lies before.
    pub since_epoch: Option<u64>,
    /// The number of bytes.
    pub size: u64,
}

/// The Unix time of the last modification; what lies before the epoch counts as the epoch.
pub open spec fn mtime_of(st: Stat) -> i64 {
    match st.since_epoch {
        Some(s) => s as i64,
        None => 0,
    }
}

/// The extension of the path `p`, nothing where there is none.
pub open spec fn ext_or_empty(p: Seq<char>) -> Seq<char> {
    match extension_of(p) {
        Some(e) => e,
        None => seq![],
    }
}

/// The extension of `path` in lower case.
pub fn lower_ext(path: &str) -> (r: String)
    ensures
        r@ == lowercase(ext_or_empty(path@)),
        is_ascii_chars(ext_or_empty(path@)) ==> r@ == ascii_lower(ext_or_empty(path@)),
{
    match extension(path) {
        Some(e) => to_lower(e.as_str()),
        None => {
            let s = String::new();
            assert(s@ == Seq::<char>::empty());
            to_lower(s.as_str())
        },
    }
}

/// Whether the file `f` is the one at `path` with the extension `ext`, of which the file system
/// says `st`.
pub open spec fn describes(f: FileItem, path: Seq<char>, ext: Seq<char>, st: Stat) -> bool {
    f.path@ == path && f.ext@ == ext && f.mtime == mtime_of(st) && f.size == st.size
}

/// The file at `path` with the extension `ext`, where the file system could say something of it.
pub fn item_with_ext(path: String, ext: String, stat: Option<Stat>) -> (r: Option<FileItem>)
    ensures
        match r {
            Some(f) => stat is Some && describes(f, path@, ext@, stat->0),
            None => stat is None,
        },
{
    match stat {
        Some(st) => {
            let mtime: i64 = match st.since_epoch {
                Some(s) => s as i64,
                None => 0,
            };
            Some(FileItem { path, mtime, ext, size: st.size })
        },
        None => None,
    }
}

/// The file at `path`, where the file system could say something of it.
pub fn file_item(path: String, stat: Option<Stat>) -> (r: Option<FileItem>)
    ensures
        match r {
            Some(f) => stat is Some && describes(
                f,
                path@,
                lowercase(ext_or_empty(path@)),
                stat->0,
            ),
            None => stat is None,
        },
        is_ascii_chars(ext_or_empty(path@)) ==> lowercase(ext_or_empty(path@)) == ascii_lower(
            ext_or_empty(path@),
        ),
{
    let ext = lower_ext(path.as_str());
    item_with_ext(path, ext, stat)
}

/// The directory entry at `path` with the extension `ext`, where it is a media file.
pub fn entry_with_ext(path: String, ext: String, is_file: bool, stat: Option<Stat>) -> (r: Option<
    FileItem,
>)
    ensures
        match r {
            Some(f) => is_file && is_media_ext(ext@) && stat is Some && describes(
                f,
                path@,
                ext@,
                stat->0,
            ),
            None => !is_file || !is_media_ext(ext@) || stat is None,
        },
{
    if !is_file || !is_media(ext.as_str()) {
        return None;
    }
    item_with_ext(path, ext, stat)
}

/// The directory entry at `path`, where it is a media file.
pub fn read_item(path: String, is_file: bool, stat: Option<Stat>) -> (r: Option<FileItem>)
    ensures
        ({
            let ext = lowercase(ext_or_empty(path@));
            match r {
                Some(f) => is_file && is_media_ext(ext) && stat is Some && describes(
                    f,
                    path@,
                    ext,
                    stat->0,
                ),
                None => !is_file || !is_media_ext(ext) || stat is None,
            }
        }),
        is_ascii_chars(ext_or_empty(path@)) ==> lowercase(ext_or_empty(path@)) == ascii_lower(
            ext_or_empty(path@),
        ),
{
    let ext = lower_ext(path.as_str());
    entry_with_ext(path, ext, is_file, stat)
}

/// The files found in a directory, oldest first; files of one time stay in the order in which
/// they were found.
pub fn by_time(found: Vec<FileItem>) -> (r: Vec<FileItem>)
    ensures
        r@ == sorted(found@),
{
    sort(found)
}

/// How many of `files` `keep` picks.
pub open spec fn count_of(files: Seq<FileItem>, keep: spec_fn(FileItem) -> bool) -> nat {
    files.filter(keep).len()
}

/// The number of removed shots among the files of a `.removed` folder: its JPEG images.
pub fn count_removed(files: &Vec<FileItem>) -> (n: usize)
    ensures
        n == count_of(files@, |f: FileItem| is_jpg_ext(f.ext@)),
{
    let ghost keep = |f: FileItem| is_jpg_ext(f.ext@);
    let mut n: usize = 0;
    proof {
        reveal(Seq::filter);
    }
    for i in 0..files.len()
        invariant
            n <= i,
            keep == (|f: FileItem| is_jpg_ext(f.ext@)),
            n == count_of(files@.take(i as int), keep),
    {
        proof {
            lemma_filter_push(files@.take(i as int), files@[i as int], keep);
            assert(files@.take(i + 1) == files@.take(i as int).push(files@[i as int]));
        }
        if is_jpg(files[i].ext.as_str()) {
            n += 1;
        }
    }
    assert(files@.take(files.len() as int) == files@);
    n
}

/// Sorted by time, no file stands behind a younger one, nothing is added or dropped, and the
/// files of one time `t` stay in their order.
pub proof fn lemma_by_time(files: Seq<FileItem>, t: i64)
    ensures
        forall|i: int, j: int|
            0 <= i < j < files.len() ==> (#[trigger] sorted(files)[i]).mtime <= (
            #[trigger] sorted(files)[j]).mtime,
        sorted(files).to_multiset() == files.to_multiset(),
        sorted(files).len() == files.len(),
        sorted(files).filter(|f: FileItem| f.mtime == t) == files.filter(
            |f: FileItem| f.mtime == t,
        ),
{
    lemma_sorted(files);
    assert forall|i: int, j: int| 0 <= i < j < files.len() implies (#[trigger] sorted(files)[i]).mtime
        <= (#[trigger] sorted(files)[j]).mtime by {
        assert(!FileItem::precedes(sorted(files)[j], sorted(files)[i]));
    }
    lemma_sorted_keeps_ties(files, |f: FileItem| f.mtime == t);
}

/// The files of an occasion are those with one of six extensions, of which three are those of
/// photos and two those of movies.
pub proof fn lemma_kinds(e: Seq<char>)
    ensures
        is_media_ext(e) <==> seq!["jpg"@, "jpeg"@, "nef"@, "mov"@, "mp4"@, "raw"@].contains(e),
        is_photo_ext(e) <==> seq!["jpg"@, "jpeg"@, "nef"@].contains(e),
        is_movie_ext(e) <==> seq!["mov"@, "mp4"@].contains(e),
        !(is_photo_ext(e) && is_movie_ext(e)),
{
    reveal_strlit("jpg");
    reveal_strlit("jpeg");
    reveal_strlit("nef");
    reveal_strlit("mov");
    reveal_strlit("mp4");
    let a = seq!["jpg"@, "jpeg"@, "nef"@, "mov"@, "mp4"@, "raw"@];
    let p = seq!["jpg"@, "jpeg"@, "nef"@];
    let m = seq!["mov"@, "mp4"@];
    assert(a[0] == "jpg"@ && a[1] == "jpeg"@ && a[2] == "nef"@ && a[3] == "mov"@ && a[4] == "mp4"@
        && a[5] == "raw"@);
    assert(p[0] == "jpg"@ && p[1] == "jpeg"@ && p[2] == "nef"@);
    assert(m[0] == "mov"@ && m[1] == "mp4"@);
    assert("jpg"@[0] == 'j' && "jpeg"@[0] == 'j' && "nef"@[0] == 'n' && "mov"@[0] == 'm'
        && "mp4"@[0] == 'm');
}

/// A time from the epoch on is kept as it is, and one before counts as the epoch.
pub proof fn lemma_times(st: Stat)
    ensures
        match st.since_epoch {
            Some(s) => s <= i64::MAX ==> mtime_of(st) == s,
            None => mtime_of(st) == 0,
        },
{
}

/// One more file counts among the removed shots just where it is a JPEG image.
pub proof fn lemma_removed_counts(files: Seq<FileItem>, f: FileItem)
    ensures
        count_of(files.push(f), |f: FileItem| is_jpg_ext(f.ext@)) == count_of(
            files,
            |f: FileItem| is_jpg_ext(f.ext@),
        ) + if f.ext@ == "jpg"@ || f.ext@ == "jpeg"@ {
            1nat
        } else {
            0
        },
{
    lemma_filter_push(files, f, |f: FileItem| is_jpg_ext(f.ext@));
}

/// Capital letters from A to Z become small ones, 32 places on, and all else stays, place by
/// place.
pub proof fn lemma_lowered(s: Seq<char>, i: int)
    requires
        0 <= i < s.len(),
    ensures
        ascii_lower(s).len() == s.len(),
        65 <= s[i] as u32 <= 90 ==> ascii_lower(s)[i] as u32 == s[i] as u32 + 32,
        !(65 <= s[i] as u32 <= 90) ==> ascii_lower(s)[i] == s[i],
{
}

/// A file is described by its path, its extension, and what the file system says of it: its
/// size, and its time where that lies in range.
pub proof fn lemma_described(f: FileItem, path: Seq<char>, ext: Seq<char>, st: Stat)
    requires
        describes(f, path, ext, st),
    ensures
        f.path@ == path,
        f.ext@ == ext,
        f.size == st.size,
        st.since_epoch is Some && st.since_epoch->0 <= i64::MAX ==> f.mtime == st.since_epoch->0,
        st.since_epoch is None ==> f.mtime == 0,
{
}

/// The extension that a file goes by is what stands behind the last dot of its name, and nothing
/// where there is no dot but at its start.
pub proof fn lemma_extension(d: Seq<char>, a: Seq<char>, b: Seq<char>)
    requires
        !b.contains('.'),
    ensures
        a.len() > 0 && is_name(a + "."@ + b) ==> ext_or_empty(joined(d, a + "."@ + b)) == b,
        is_name(b) ==> ext_or_empty(joined(d, b)).len() == 0,
        is_name("."@ + b) ==> ext_or_empty(joined(d, "."@ + b)).len() == 0,
{
    lemma_stem_and_extension(a, b);
    if a.len() > 0 && is_name(a + "."@ + b) {
        lemma_path_stem(d, a, b);
    }
    if is_name(b) {
        lemma_joined(d, b);
    }
    if is_name("."@ + b) {
        lemma_joined(d, "."@ + b);
    }
}

} // verus!
