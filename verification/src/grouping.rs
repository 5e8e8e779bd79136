//! How files become occasions: by the gaps between their times, or by the folder they lie in.
use crate::calendar::{date_of_day, date_text, fmt_date, lemma_date_shape, time_fits};
use crate::files::{photo, shot, FileItem};
use crate::naming::{is_named, lemma_date_alone_is_no_name};
use crate::occasion::{first_time, last_time, time_of_first, time_of_last, Cluster, UploadMode};
use crate::order::TextMap;
use crate::paths::{
    file_name, file_name_of, is_name, is_tidy, joined, lemma_joined, parent, parent_of,
};
use crate::sorting::in_rank;
use crate::text::{copy_of, opt_string, starts_with, strs};
use crate::xmp::{lemma_sidecar_reads_back, rating_in, read_xmp_rating, sidecar_text};
use vstd::prelude::*;
use vstd::utf8::encode_utf8;

verus! {

/// `files` in groups: a file that is more than `gap` seconds younger than the one before it
/// begins a new group.
pub open spec fn groups(files: Seq<FileItem>, gap: int) -> Seq<Seq<FileItem>>
    decreases files.len(),
{
    if files.len() == 0 {
        seq![]
    } else {
        let g = groups(files.drop_last(), gap);
        let f = files.last();
        if files.len() > 1 && f.mtime - files[files.len() - 2].mtime <= gap {
            g.update(g.len() - 1, g.last().push(f))
        } else {
            g.push(seq![f])
        }
    }
}

/// What each of the vectors holds.
pub open spec fn contents(v: Seq<Vec<FileItem>>) -> Seq<Seq<FileItem>> {
    v.map_values(|x: Vec<FileItem>| x@)
}

/// Whether `gs` divides a sequence where, and only where, two neighbours are more than `gap`
/// seconds apart.
pub open spec fn divided(gs: Seq<Seq<FileItem>>, gap: int) -> bool {
    &&& forall|g: int| 0 <= g < gs.len() ==> (#[trigger] gs[g]).len() > 0
    &&& forall|g: int, i: int|
        #![trigger gs[g][i]]
        0 <= g < gs.len() && 0 < i < gs[g].len() ==> gs[g][i].mtime - gs[g][i - 1].mtime <= gap
    &&& forall|g: int|
        #![trigger gs[g].first()]
        0 < g < gs.len() ==> gs[g].first().mtime - gs[g - 1].last().mtime > gap
}

proof fn lemma_flatten_last(gs: Seq<Seq<FileItem>>)
    requires
        gs.len() > 0,
    ensures
        gs.flatten() == gs.drop_last().flatten() + gs.last(),
{
    gs.lemma_flatten_and_flatten_alt_are_equivalent();
    gs.drop_last().lemma_flatten_and_flatten_alt_are_equivalent();
}

proof fn lemma_divided_grow(g: Seq<Seq<FileItem>>, f: FileItem, gap: int)
    requires
        divided(g, gap),
        g.len() > 0,
        f.mtime - g.last().last().mtime <= gap,
    ensures
        divided(g.update(g.len() - 1, g.last().push(f)), gap),
{
    let gs = g.update(g.len() - 1, g.last().push(f));
    assert(g[g.len() - 1].len() > 0);
    assert forall|k: int, i: int|
        #![trigger gs[k][i]]
        0 <= k < gs.len() && 0 < i < gs[k].len() implies gs[k][i].mtime - gs[k][i - 1].mtime <= gap by {
        if k == gs.len() - 1 && i == gs[k].len() - 1 {
            assert(gs[k][i - 1] == g.last().last());
        } else {
            assert(gs[k][i] == g[k][i] && gs[k][i - 1] == g[k][i - 1]);
        }
    }
    assert forall|k: int|
        #![trigger gs[k].first()]
        0 < k < gs.len() implies gs[k].first().mtime - gs[k - 1].last().mtime > gap by {
        assert(gs[k].first() == g[k].first());
        assert(gs[k - 1] == g[k - 1]);
    }
}

proof fn lemma_divided_begin(g: Seq<Seq<FileItem>>, f: FileItem, gap: int)
    requires
        divided(g, gap),
        g.len() > 0 ==> f.mtime - g.last().last().mtime > gap,
    ensures
        divided(g.push(seq![f]), gap),
{
    let gs = g.push(seq![f]);
    assert forall|k: int, i: int|
        #![trigger gs[k][i]]
        0 <= k < gs.len() && 0 < i < gs[k].len() implies gs[k][i].mtime - gs[k][i - 1].mtime <= gap by {
        assert(k < g.len());
        assert(gs[k][i] == g[k][i] && gs[k][i - 1] == g[k][i - 1]);
    }
    assert forall|k: int|
        #![trigger gs[k].first()]
        0 < k < gs.len() implies gs[k].first().mtime - gs[k - 1].last().mtime > gap by {
        if k < g.len() {
            assert(gs[k].first() == g[k].first());
            assert(gs[k - 1] == g[k - 1]);
        } else {
            assert(gs[k - 1] == g.last());
        }
    }
}

/// The groups hold all files in their order, and are divided where, and only where, two
/// neighbours are more than `gap` seconds apart.
pub proof fn lemma_groups(files: Seq<FileItem>, gap: int)
    ensures
        groups(files, gap).flatten() == files,
        divided(groups(files, gap), gap),
        files.len() > 0 ==> groups(files, gap).len() > 0 && groups(files, gap).last().last()
            == files.last(),
    decreases files.len(),
{
    let gs = groups(files, gap);
    if files.len() == 0 {
        assert(gs == Seq::<Seq<FileItem>>::empty());
        assert(gs.flatten() == files);
    } else {
        let g = groups(files.drop_last(), gap);
        let f = files.last();
        lemma_groups(files.drop_last(), gap);
        assert(files == files.drop_last().push(f));
        lemma_flatten_last(gs);
        if files.len() > 1 {
            assert(files.drop_last().last() == files[files.len() - 2]);
        } else {
            assert(files.drop_last() == Seq::<FileItem>::empty());
        }
        if files.len() > 1 && f.mtime - files[files.len() - 2].mtime <= gap {
            lemma_flatten_last(g);
            assert(gs.drop_last() == g.drop_last());
            assert(gs.last() == g.last().push(f));
            lemma_divided_grow(g, f, gap);
        } else {
            assert(gs.drop_last() == g);
            lemma_divided_begin(g, f, gap);
        }
    }
}

/// There is no other way to divide `files` at the gaps.
pub proof fn lemma_groups_unique(gs: Seq<Seq<FileItem>>, files: Seq<FileItem>, gap: int)
    requires
        gs.flatten() == files,
        divided(gs, gap),
    ensures
        gs == groups(files, gap),
    decreases files.len(),
{
    if gs.len() == 0 {
        assert(files == Seq::<FileItem>::empty());
        assert(gs == groups(files, gap));
    } else {
        lemma_flatten_last(gs);
        let last = gs.last();
        let f = last.last();
        assert(last.len() > 0);
        assert(files.last() == f);
        if last.len() > 1 {
            let hs = gs.update(gs.len() - 1, last.drop_last());
            lemma_flatten_last(hs);
            assert(hs.drop_last() == gs.drop_last());
            assert(hs.flatten() == files.drop_last());
            assert(divided(hs, gap)) by {
                assert forall|k: int, i: int|
                    #![trigger hs[k][i]]
                    0 <= k < hs.len() && 0 < i < hs[k].len() implies hs[k][i].mtime
                    - hs[k][i - 1].mtime <= gap by {
                    assert(hs[k][i] == gs[k][i] && hs[k][i - 1] == gs[k][i - 1]);
                }
                assert forall|k: int|
                    #![trigger hs[k].first()]
                    0 < k < hs.len() implies hs[k].first().mtime - hs[k - 1].last().mtime > gap by {
                    assert(hs[k].first() == gs[k].first());
                    assert(hs[k - 1] == gs[k - 1]);
                }
            }
            lemma_groups_unique(hs, files.drop_last(), gap);
            assert(last == last.drop_last().push(f));
            assert(gs[gs.len() - 1][last.len() - 1].mtime - gs[gs.len() - 1][last.len() - 2].mtime
                <= gap);
            assert(files[files.len() - 2] == last[last.len() - 2]);
            assert(gs == hs.update(hs.len() - 1, hs.last().push(f)));
        } else {
            let hs = gs.drop_last();
            assert(last == seq![f]);
            assert(hs.flatten() == files.drop_last());
            assert(divided(hs, gap)) by {
                assert forall|k: int, i: int|
                    #![trigger hs[k][i]]
                    0 <= k < hs.len() && 0 < i < hs[k].len() implies hs[k][i].mtime
                    - hs[k][i - 1].mtime <= gap by {
                    assert(hs[k][i] == gs[k][i] && hs[k][i - 1] == gs[k][i - 1]);
                }
                assert forall|k: int|
                    #![trigger hs[k].first()]
                    0 < k < hs.len() implies hs[k].first().mtime - hs[k - 1].last().mtime > gap by {
                    assert(hs[k].first() == gs[k].first());
                    assert(hs[k - 1] == gs[k - 1]);
                }
            }
            lemma_groups_unique(hs, files.drop_last(), gap);
            if hs.len() > 0 {
                lemma_flatten_last(hs);
                assert(gs[gs.len() - 1].first().mtime - gs[gs.len() - 2].last().mtime > gap);
                assert(gs[gs.len() - 2] == hs.last());
                assert(hs.last().len() > 0);
                assert(files[files.len() - 2] == hs.last().last());
            } else {
                assert(hs.flatten() == Seq::<FileItem>::empty());
            }
            assert(gs == hs.push(seq![f]));
        }
    }
}

/// Files sorted by time that land in different groups are more than the gap apart.
pub proof fn lemma_groups_apart(files: Seq<FileItem>, gap: int, g: int, h: int, i: int, j: int)
    requires
        in_rank(files),
        gap >= 0,
        0 <= g < h < groups(files, gap).len(),
        0 <= i < groups(files, gap)[g].len(),
        0 <= j < groups(files, gap)[h].len(),
    ensures
        groups(files, gap)[h][j].mtime - groups(files, gap)[g][i].mtime > gap,
    decreases files.len(),
{
    let front = files.drop_last();
    let p = groups(front, gap);
    let gs = groups(files, gap);
    let f = files.last();
    assert(in_rank(front));
    lemma_groups(front, gap);
    if files.len() > 1 {
        let w = files[files.len() - 2];
        assert(front.last() == w);
        assert(!crate::sorting::Sorts::precedes(files[files.len() - 1], files[files.len() - 2]));
        if f.mtime - w.mtime <= gap {
            if h == gs.len() - 1 && j == gs[h].len() - 1 {
                lemma_groups_apart(front, gap, g, h, i, p[h].len() - 1);
            } else {
                lemma_groups_apart(front, gap, g, h, i, j);
            }
        } else if h == p.len() {
            lemma_last_is_youngest(front, gap, g, i);
        } else {
            lemma_groups_apart(front, gap, g, h, i, j);
        }
    } else {
        assert(front == Seq::<FileItem>::empty());
        assert(p.len() == 0);
    }
}

/// Two files of one time, such as the two images of one shot, always land in the same group.
pub proof fn lemma_pairs_together(files: Seq<FileItem>, gap: int, g: int, h: int, i: int, j: int)
    requires
        in_rank(files),
        gap >= 0,
        0 <= g < groups(files, gap).len(),
        0 <= h < groups(files, gap).len(),
        0 <= i < groups(files, gap)[g].len(),
        0 <= j < groups(files, gap)[h].len(),
        groups(files, gap)[g][i].mtime == groups(files, gap)[h][j].mtime,
    ensures
        g == h,
{
    if g < h {
        lemma_groups_apart(files, gap, g, h, i, j);
    } else if h < g {
        lemma_groups_apart(files, gap, h, g, j, i);
    }
}

proof fn lemma_last_is_youngest(files: Seq<FileItem>, gap: int, g: int, i: int)
    requires
        in_rank(files),
        gap >= 0,
        0 <= g < groups(files, gap).len(),
        0 <= i < groups(files, gap)[g].len(),
    ensures
        files.len() > 0,
        groups(files, gap)[g][i].mtime <= files.last().mtime,
    decreases files.len(),
{
    if files.len() > 0 {
        let front = files.drop_last();
        let p = groups(front, gap);
        let gs = groups(files, gap);
        assert(in_rank(front));
        lemma_groups(front, gap);
        if files.len() > 1 {
            let w = files[files.len() - 2];
            assert(front.last() == w);
            assert(!crate::sorting::Sorts::precedes(files[files.len() - 1], files[files.len() - 2]));
            if files.last().mtime - w.mtime <= gap {
                if !(g == gs.len() - 1 && i == gs[g].len() - 1) {
                    lemma_last_is_youngest(front, gap, g, i);
                }
            } else if g < p.len() {
                lemma_last_is_youngest(front, gap, g, i);
            }
        } else {
            assert(front == Seq::<FileItem>::empty());
        }
    }
}

/// Divides `files`: one that is more than `gap_hours` hours younger than the one before it
/// begins a new group.
pub fn cluster(files: Vec<FileItem>, gap_hours: i64) -> (r: Vec<Vec<FileItem>>)
    ensures
        contents(r@) == groups(files@, gap_hours * 3600),
{
    let ghost all = files@;
    let ghost secs = gap_hours * 3600;
    let gap: i128 = gap_hours as i128 * 3600;
    let mut r: Vec<Vec<FileItem>> = Vec::new();
    let mut cur: Vec<FileItem> = Vec::new();
    let mut last: i64 = 0;
    for f in it: files
        invariant
            it.seq() == all,
            gap == secs,
            it.index() == 0 ==> cur@.len() == 0 && r@.len() == 0,
            it.index() > 0 ==> cur@.len() > 0 && last == all[it.index() - 1].mtime && groups(
                all.take(it.index() as int),
                secs,
            ) == contents(r@).push(cur@),
    {
        let ghost k = it.index() as int;
        let ghost before = r@;
        let ghost group = cur@;
        proof {
            assert(all.take(k + 1).drop_last() == all.take(k));
            assert(all.take(k + 1).last() == f);
            if k > 0 {
                assert(all.take(k + 1)[k - 1] == all[k - 1]);
            } else {
                assert(groups(all.take(k), secs) == Seq::<Seq<FileItem>>::empty());
            }
        }
        let begins: bool = cur.len() > 0 && f.mtime as i128 - last as i128 > gap;
        if begins {
            let mut done: Vec<FileItem> = Vec::new();
            std::mem::swap(&mut done, &mut cur);
            r.push(done);
            assert(contents(r@) == contents(before).push(group));
        }
        last = f.mtime;
        cur.push(f);
        proof {
            if begins {
                assert(cur@ == seq![f]);
            } else if k > 0 {
                let g = contents(before).push(group);
                assert(g.update(g.len() - 1, g.last().push(f)) == contents(r@).push(cur@));
            } else {
                assert(contents(r@) == Seq::<Seq<FileItem>>::empty());
                assert(cur@ == seq![f]);
            }
        }
    }
    assert(all.take(all.len() as int) == all);
    let ghost before = r@;
    if cur.len() > 0 {
        r.push(cur);
        assert(contents(r@) == contents(before).push(cur@));
    } else {
        assert(contents(r@) == groups(all, secs));
    }
    r
}

/// Whether the folder `name` is of the day `date` and says more than that.
pub open spec fn same_day(name: Seq<char>, date: Seq<char>) -> bool {
    date.is_prefix_of(name) && name.len() > date.len()
}

/// The first of the folders `found` that is of the day `date`.
pub open spec fn suggestion(found: Seq<Seq<char>>, date: Seq<char>) -> Option<Seq<char>>
    decreases found.len(),
{
    if found.len() == 0 {
        None
    } else if same_day(found[0], date) {
        Some(found[0])
    } else {
        suggestion(found.drop_first(), date)
    }
}

/// The folder that `files` live in: that of the first one; `pictures` where there is none.
pub open spec fn folder_of(files: Seq<FileItem>, pictures: Seq<char>) -> Seq<char> {
    if files.len() == 0 {
        pictures
    } else {
        match parent_of(files[0].path@) {
            Some(d) => d,
            None => pictures,
        }
    }
}

/// The ratings that the sidecars of `files` hold; `sidecars` gives the text of each file's
/// sidecar, where it has one. Of two files of one shot the later one counts.
pub open spec fn ratings_in(
    files: Seq<FileItem>,
    sidecars: Seq<Option<Seq<char>>>,
) -> Map<Seq<char>, u8>
    decreases files.len(),
{
    if files.len() == 0 {
        Map::empty()
    } else {
        let m = ratings_in(files.drop_last(), sidecars);
        let f = files.last();
        match sidecars[files.len() - 1] {
            Some(t) => match rating_in(encode_utf8(t)) {
                Some(r) => if photo(f) {
                    m.insert(shot(f), r)
                } else {
                    m
                },
                None => m,
            },
            None => m,
        }
    }
}

/// What each of the optional strings holds.
pub open spec fn opt_strs(v: Seq<Option<String>>) -> Seq<Option<Seq<char>>> {
    v.map_values(|x: Option<String>| opt_string(x))
}

/// The folder that `files` live in.
pub fn dir_of(files: &Vec<FileItem>, pictures: &str) -> (r: String)
    ensures
        r@ == folder_of(files@, pictures@),
{
    if files.len() == 0 {
        return copy_of(pictures);
    }
    match parent(files[0].path.as_str()) {
        Some(d) => d,
        None => copy_of(pictures),
    }
}

/// The ratings that the sidecars of `files` hold.
pub fn load_ratings(files: &Vec<FileItem>, sidecars: &Vec<Option<String>>) -> (m: TextMap<u8>)
    requires
        sidecars@.len() == files@.len(),
    ensures
        m@ == ratings_in(files@, opt_strs(sidecars@)),
{
    let mut m: TextMap<u8> = TextMap::new();
    let ghost texts = opt_strs(sidecars@);
    for i in 0..files.len()
        invariant
            texts == opt_strs(sidecars@),
            sidecars@.len() == files@.len(),
            m@ == ratings_in(files@.take(i as int), texts),
    {
        proof {
            assert(files@.take(i + 1).drop_last() == files@.take(i as int));
            assert(files@.take(i + 1).last() == files@[i as int]);
        }
        if files[i].is_photo() {
            match &sidecars[i] {
                Some(t) => match read_xmp_rating(t.as_str()) {
                    Some(r) => {
                        m.insert(files[i].stem(), r);
                    },
                    None => {},
                },
                None => {},
            }
        }
    }
    assert(files@.take(files.len() as int) == files@);
    m
}

/// The first of the folders `found` that is of the day `date`.
fn suggest(found: &Vec<String>, date: &str) -> (r: Option<String>)
    ensures
        match r {
            Some(s) => suggestion(strs(found@), date@) == Some(s@),
            None => suggestion(strs(found@), date@) is None,
        },
{
    let ghost all = strs(found@);
    let mut i: usize = 0;
    assert(all.skip(0) == all);
    while i < found.len()
        invariant
            i <= found.len(),
            all == strs(found@),
            suggestion(all, date@) == suggestion(all.skip(i as int), date@),
        decreases found.len() - i,
    {
        let name = found[i].as_str();
        assert(all.skip(i as int)[0] == name@);
        assert(all.skip(i as int).drop_first() == all.skip(i + 1));
        if starts_with(name, date) && name.unicode_len() > date.unicode_len() {
            return Some(found[i].clone());
        }
        i += 1;
    }
    None
}

/// The occasion that the files of one group make. `found` are the folders in the library: one
/// of the same day is suggested, else the name is the date with room behind it. `removed` is
/// the number of shots in its `.removed` folder, and `ratings` what the sidecars hold.
pub fn finish(
    files: Vec<FileItem>,
    pictures: &str,
    found: &Vec<String>,
    offset: i64,
    removed: usize,
    ratings: TextMap<u8>,
) -> (c: Cluster)
    requires
        time_fits(first_time(files@, 0), offset),
    ensures
        c.files == files,
        c.start == first_time(files@, 0),
        c.end == last_time(files@, 0),
        ({
            let date = date_text(c.start as int, offset as int);
            match suggestion(strs(found@), date) {
                Some(s) => c.target@ == s && c.suggested,
                None => c.target@ == date + " "@ && !c.suggested,
            }
        }),
        !c.skip,
        c.up == UploadMode::No,
        c.ratings == ratings,
        c.dir@ == folder_of(files@, pictures@),
        c.removed == removed,
        c.on_drive is None,
{
    let start: i64 = time_of_first(&files, 0);
    let end: i64 = time_of_last(&files, 0);
    let date = fmt_date(start, offset);
    let (target, suggested) = match suggest(found, date.as_str()) {
        Some(s) => (s, true),
        None => {
            let mut t = date;
            t.append(" ");
            (t, false)
        },
    };
    let dir = dir_of(&files, pictures);
    Cluster {
        files,
        start,
        end,
        target,
        suggested,
        skip: false,
        up: UploadMode::No,
        ratings,
        dir,
        removed,
        on_drive: None,
    }
}

/// The occasion that a folder of the library makes, where it holds files: it has the name of
/// the folder.
pub fn library_cluster(
    dir: &str,
    files: Vec<FileItem>,
    removed: usize,
    ratings: TextMap<u8>,
) -> (r: Option<Cluster>)
    requires
        file_name_of(dir@) is Some,
    ensures
        match r {
            Some(c) => {
                &&& files@.len() > 0
                &&& c.files == files
                &&& c.start == files@.first().mtime
                &&& c.end == files@.last().mtime
                &&& c.target@ == file_name_of(dir@)->0
                &&& c.suggested
                &&& !c.skip
                &&& c.up == UploadMode::No
                &&& c.ratings == ratings
                &&& c.dir@ == dir@
                &&& c.removed == removed
                &&& c.on_drive is None
            },
            None => files@.len() == 0,
        },
{
    if files.len() == 0 {
        return None;
    }
    let target = match file_name(dir) {
        Some(n) => n,
        None => String::new(),
    };
    let start: i64 = time_of_first(&files, 0);
    let end: i64 = time_of_last(&files, 0);
    Some(
        Cluster {
            files,
            start,
            end,
            target,
            suggested: true,
            skip: false,
            up: UploadMode::No,
            ratings,
            dir: copy_of(dir),
            removed,
            on_drive: None,
        },
    )
}

/// A folder that is suggested is one of those found, is of the day, and no folder found before
/// it is.
pub proof fn lemma_suggestion(found: Seq<Seq<char>>, date: Seq<char>)
    ensures
        match suggestion(found, date) {
            Some(s) => exists|i: int|
                {
                    &&& 0 <= i < found.len()
                    &&& #[trigger] found[i] == s
                    &&& same_day(s, date)
                    &&& forall|j: int| 0 <= j < i ==> !same_day(#[trigger] found[j], date)
                },
            None => forall|j: int| 0 <= j < found.len() ==> !same_day(#[trigger] found[j], date),
        },
    decreases found.len(),
{
    if found.len() > 0 {
        if same_day(found[0], date) {
            assert(found[0] == suggestion(found, date)->0);
        } else {
            let rest = found.drop_first();
            lemma_suggestion(rest, date);
            match suggestion(rest, date) {
                Some(s) => {
                    let i = choose|i: int|
                        {
                            &&& 0 <= i < rest.len()
                            &&& #[trigger] rest[i] == s
                            &&& same_day(s, date)
                            &&& forall|j: int| 0 <= j < i ==> !same_day(#[trigger] rest[j], date)
                        };
                    assert(found[i + 1] == s);
                    assert forall|j: int| 0 <= j < i + 1 implies !same_day(#[trigger] found[j], date) by {
                        if j > 0 {
                            assert(found[j] == rest[j - 1]);
                        }
                    }
                },
                None => {
                    assert forall|j: int| 0 <= j < found.len() implies !same_day(
                        #[trigger] found[j],
                        date,
                    ) by {
                        if j > 0 {
                            assert(found[j] == rest[j - 1]);
                        }
                    }
                },
            }
        }
    }
}

/// A rating that is written into a new sidecar of a photo is read from it again.
pub proof fn lemma_rating_survives(
    files: Seq<FileItem>,
    sidecars: Seq<Option<Seq<char>>>,
    f: FileItem,
    r: u8,
)
    requires
        sidecars.len() == files.len(),
        photo(f),
        1 <= r <= 5,
    ensures
        ({
            let m = ratings_in(files.push(f), sidecars.push(Some(sidecar_text(r as nat))));
            m.dom().contains(shot(f)) && m[shot(f)] == r
        }),
{
    lemma_sidecar_reads_back(r);
    assert(files.push(f).drop_last() == files);
}

/// All ratings that sidecars hold are between 1 and 5.
pub proof fn lemma_ratings_in_range(files: Seq<FileItem>, sidecars: Seq<Option<Seq<char>>>)
    ensures
        forall|s: Seq<char>| #[trigger]
            ratings_in(files, sidecars).dom().contains(s) ==> 1 <= ratings_in(files, sidecars)[s]
                <= 5,
    decreases files.len(),
{
    if files.len() > 0 {
        lemma_ratings_in_range(files.drop_last(), sidecars);
        let m = ratings_in(files.drop_last(), sidecars);
        let n = ratings_in(files, sidecars);
        assert forall|s: Seq<char>| #[trigger] n.dom().contains(s) implies 1 <= n[s] <= 5 by {
            if !(1 <= n[s] <= 5) {
                assert(m.dom().contains(s));
            }
        }
    }
}

/// A new occasion of which no folder is suggested has no name yet, as long as years have four
/// digits: nothing is done with it until it gets one.
pub proof fn lemma_new_occasion_unnamed(start: i64, offset: i64)
    requires
        ({
            let (y, m, d) = date_of_day((start + offset) / 86400);
            0 <= y <= 9999
        }),
    ensures
        !is_named(date_text(start as int, offset as int) + " "@),
{
    let date = date_text(start as int, offset as int);
    lemma_date_shape(start as int, offset as int);
    lemma_date_alone_is_no_name(date);
    reveal_strlit(" ");
    assert(date + " "@ == date.push(' '));
}

/// A folder that is suggested for an occasion is one of those found; it begins with the whole
/// date of the occasion, character by character, and goes on behind it. No folder before it is
/// of that form, and where any is, one is suggested.
pub proof fn lemma_suggestion_begins_with_date(found: Seq<Seq<char>>, date: Seq<char>)
    ensures
        match suggestion(found, date) {
            Some(s) => {
                &&& s.len() > date.len()
                &&& s.take(date.len() as int) == date
                &&& exists|i: int|
                    {
                        &&& 0 <= i < found.len()
                        &&& #[trigger] found[i] == s
                        &&& forall|j: int|
                            0 <= j < i ==> !((#[trigger] found[j]).len() > date.len() && found[j].take(
                                date.len() as int,
                            ) == date)
                    }
            },
            None => forall|j: int|
                0 <= j < found.len() ==> !((#[trigger] found[j]).len() > date.len() && found[j].take(
                    date.len() as int,
                ) == date),
        },
        (exists|j: int|
            0 <= j < found.len() && (#[trigger] found[j]).len() > date.len() && found[j].take(
                date.len() as int,
            ) == date) ==> suggestion(found, date) is Some,
{
    lemma_suggestion(found, date);
    let n = date.len() as int;
    assert forall|s: Seq<char>| #[trigger]
        same_day(s, date) <==> (s.len() > date.len() && s.take(n) == date) by {
        if s.len() > date.len() {
            if s.take(n) == date {
                assert forall|i: int| 0 <= i < n implies date[i] == s[i] by {
                    assert(s.take(n)[i] == s[i]);
                }
            }
            if date.is_prefix_of(s) {
                assert(s.take(n) == date);
            }
        }
    }
    match suggestion(found, date) {
        Some(s) => {
            let i = choose|i: int|
                {
                    &&& 0 <= i < found.len()
                    &&& #[trigger] found[i] == s
                    &&& same_day(s, date)
                    &&& forall|j: int| 0 <= j < i ==> !same_day(#[trigger] found[j], date)
                };
            assert forall|j: int| 0 <= j < i implies !((#[trigger] found[j]).len() > date.len()
                && found[j].take(n) == date) by {
                assert(!same_day(found[j], date));
            }
        },
        None => {
            assert forall|j: int| 0 <= j < found.len() implies !((#[trigger] found[j]).len()
                > date.len() && found[j].take(n) == date) by {
                assert(!same_day(found[j], date));
            }
        },
    }
}

/// Whether the file `i` is a photo of the shot `s` whose sidecar holds the rating `r`.
pub open spec fn rates(
    files: Seq<FileItem>,
    sidecars: Seq<Option<Seq<char>>>,
    i: int,
    s: Seq<char>,
    r: u8,
) -> bool {
    &&& 0 <= i < files.len()
    &&& photo(files[i])
    &&& shot(files[i]) == s
    &&& sidecars[i] is Some
    &&& rating_in(encode_utf8(sidecars[i]->0)) == Some(r)
}

/// A shot has a rating just where the sidecar of one of its photos holds one, and it is that of
/// the last photo whose sidecar does.
pub proof fn lemma_ratings_found(
    files: Seq<FileItem>,
    sidecars: Seq<Option<Seq<char>>>,
    s: Seq<char>,
)
    ensures
        ratings_in(files, sidecars).contains_key(s) <==> exists|i: int, r: u8|
            rates(files, sidecars, i, s, r),
        ratings_in(files, sidecars).contains_key(s) ==> exists|i: int|
            {
                &&& #[trigger] rates(files, sidecars, i, s, ratings_in(files, sidecars)[s])
                &&& forall|j: int, r: u8| i < j ==> !rates(files, sidecars, j, s, r)
            },
    decreases files.len(),
{
    let m = ratings_in(files, sidecars);
    if files.len() > 0 {
        let front = files.drop_last();
        let n = front.len() as int;
        let f = files.last();
        lemma_ratings_found(front, sidecars, s);
        assert forall|i: int, r: u8| i < n implies rates(front, sidecars, i, s, r) == rates(
            files,
            sidecars,
            i,
            s,
            r,
        ) by {
            if 0 <= i < n {
                assert(front[i] == files[i]);
            }
        }
        assert(files[n] == f);
        let said = match sidecars[n] {
            Some(t) => rating_in(encode_utf8(t)),
            None => None,
        };
        if photo(f) && shot(f) == s && said is Some {
            assert(rates(files, sidecars, n, s, said->0));
            assert(m[s] == said->0);
            assert forall|j: int, r: u8| n < j implies !rates(files, sidecars, j, s, r) by {}
        } else {
            assert forall|r: u8| !rates(files, sidecars, n, s, r) by {}
            assert(m.contains_key(s) == ratings_in(front, sidecars).contains_key(s));
            if m.contains_key(s) {
                assert(m[s] == ratings_in(front, sidecars)[s]);
                let i = choose|i: int|
                    {
                        &&& #[trigger] rates(front, sidecars, i, s, ratings_in(front, sidecars)[s])
                        &&& forall|j: int, r: u8| i < j ==> !rates(front, sidecars, j, s, r)
                    };
                assert(rates(files, sidecars, i, s, m[s]));
                assert forall|j: int, r: u8| i < j implies !rates(files, sidecars, j, s, r) by {
                    if j < n {
                        assert(!rates(front, sidecars, j, s, r));
                    }
                }
            } else if exists|i: int, r: u8| rates(files, sidecars, i, s, r) {
                let (i, r) = choose|i: int, r: u8| rates(files, sidecars, i, s, r);
                assert(i < n);
                assert(rates(front, sidecars, i, s, r));
            }
        }
    }
}

/// The folder of an occasion of the library is the one that its first file lies in.
pub proof fn lemma_folder_of_first(
    files: Seq<FileItem>,
    pictures: Seq<char>,
    d: Seq<char>,
    n: Seq<char>,
)
    requires
        files.len() > 0,
        is_name(n),
        is_tidy(d),
        files[0].path@ == joined(d, n),
    ensures
        folder_of(files, pictures) == d,
{
    lemma_joined(d, n);
}

} // verus!
