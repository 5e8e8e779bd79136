//! The review of an occasion in the viewer: what the viewer is told, what it notes, and what
//! follows from that for the occasion.
use crate::files::{lemma_by_time, photo, shot, FileItem};
use crate::number::{
    dec, decimal, is_digit, lemma_dec_reads_back, lemma_signed_number, parse_u8, u8_text,
};
use crate::occasion::{
    first_time, last_time, lemma_spared, pick_viewables, rated, rated_shots, shots, spared,
    time_of_first, time_of_last, viewables, Cluster,
};
use crate::order::{in_order, TextMap};
use crate::paths::{file_stem, file_stem_of, join_path, joined, stem};
use crate::sorting::{lemma_filter_push, sort, sorted};
use crate::text::{
    copy_of, fill, has_text, index_of_char, is_space, join, join_strings, lemma_has_text,
    lemma_index_of_char, lemma_join_has, lemma_text_within, lemma_lines_put, lemma_trim_tight,
    lines, lines_of, opt_str, push_copy, split_once_at, strs, trim, trim_str,
};
use vstd::prelude::*;

verus! {

/// The stems of the paths on the lines `ls`.
pub open spec fn stem_set(ls: Seq<Seq<char>>) -> Set<Seq<char>>
    decreases ls.len(),
{
    if ls.len() == 0 {
        Set::empty()
    } else {
        match file_stem_of(trim(ls.last())) {
            Some(s) => stem_set(ls.drop_last()).insert(s),
            None => stem_set(ls.drop_last()),
        }
    }
}

/// The stems of the paths on the lines of a file; none where there is no file.
pub open spec fn noted_stems(text: Option<Seq<char>>) -> Set<Seq<char>> {
    match text {
        Some(t) => stem_set(lines(t)),
        None => Set::empty(),
    }
}

/// The rating and the stem that the line `l` gives: a rating, a tab and a path. A rating above
/// 5 counts as 5.
pub open spec fn rate_on(l: Seq<char>) -> Option<(Seq<char>, u8)> {
    let k = index_of_char(l, '\t');
    if k < l.len() {
        match (u8_text(trim(l.take(k))), file_stem_of(trim(l.skip(k + 1)))) {
            (Some(r), Some(s)) => Some(
                (
                    s,
                    if r > 5 {
                        5
                    } else {
                        r
                    },
                ),
            ),
            _ => None,
        }
    } else {
        None
    }
}

/// The ratings on the lines `ls`; of two for one stem the later one counts.
pub open spec fn rate_map(ls: Seq<Seq<char>>) -> Map<Seq<char>, u8>
    decreases ls.len(),
{
    if ls.len() == 0 {
        Map::empty()
    } else {
        match rate_on(ls.last()) {
            Some((s, r)) => rate_map(ls.drop_last()).insert(s, r),
            None => rate_map(ls.drop_last()),
        }
    }
}

/// The ratings on the lines of a file; none where there is no file.
pub open spec fn noted_rates(text: Option<Seq<char>>) -> Map<Seq<char>, u8> {
    match text {
        Some(t) => rate_map(lines(t)),
        None => Map::empty(),
    }
}

/// The stems of the paths that the viewer noted.
pub fn read_stems(text: Option<&str>) -> (m: TextMap<()>)
    ensures
        m@.dom() == noted_stems(opt_str(text)),
{
    let mut m: TextMap<()> = TextMap::new();
    assert(m@.dom() == Set::<Seq<char>>::empty());
    match text {
        Some(t) => {
            let ls = lines_of(t);
            let ghost all = lines(t@);
            for i in 0..ls.len()
                invariant
                    all == strs(ls@),
                    m@.dom() == stem_set(all.take(i as int)),
            {
                assert(all.take(i + 1).drop_last() == all.take(i as int));
                assert(all.take(i + 1).last() == ls@[i as int]@);
                match file_stem(trim_str(ls[i].as_str()).as_str()) {
                    Some(s) => {
                        m.insert(s, ());
                    },
                    None => {},
                }
            }
            assert(all.take(all.len() as int) == all);
        },
        None => {},
    }
    m
}

/// The ratings that the viewer noted.
pub fn read_rates(text: Option<&str>) -> (m: TextMap<u8>)
    ensures
        m@ == noted_rates(opt_str(text)),
{
    let mut m: TextMap<u8> = TextMap::new();
    match text {
        Some(t) => {
            let ls = lines_of(t);
            let ghost all = lines(t@);
            for i in 0..ls.len()
                invariant
                    all == strs(ls@),
                    m@ == rate_map(all.take(i as int)),
            {
                assert(all.take(i + 1).drop_last() == all.take(i as int));
                assert(all.take(i + 1).last() == ls@[i as int]@);
                match split_once_at(ls[i].as_str(), '\t') {
                    Some((r, p)) => match parse_u8(trim_str(r.as_str()).as_str()) {
                        Some(n) => match file_stem(trim_str(p.as_str()).as_str()) {
                            Some(s) => {
                                let r: u8 = if n > 5 {
                                    5
                                } else {
                                    n
                                };
                                m.insert(s, r);
                            },
                            None => {},
                        },
                        None => {},
                    },
                    None => {},
                }
            }
            assert(all.take(all.len() as int) == all);
        },
        None => {},
    }
    m
}

/// All ratings that are noted are 5 at most.
pub proof fn lemma_rates_at_most_five(ls: Seq<Seq<char>>)
    ensures
        forall|s: Seq<char>| #[trigger] rate_map(ls).dom().contains(s) ==> rate_map(ls)[s] <= 5,
    decreases ls.len(),
{
    if ls.len() > 0 {
        let front = rate_map(ls.drop_last());
        lemma_rates_at_most_five(ls.drop_last());
        assert forall|s: Seq<char>| #[trigger] rate_map(ls).dom().contains(s) implies rate_map(ls)[s]
            <= 5 by {
            if rate_map(ls)[s] > 5 {
                assert(front.dom().contains(s));
            }
        }
    }
}

/// Of two ratings of one shot the later one counts.
pub proof fn lemma_last_rate_counts(ls: Seq<Seq<char>>, line: Seq<char>)
    requires
        rate_on(line) is Some,
    ensures
        ({
            let (shot, rate) = rate_on(line)->0;
            rate_map(ls.push(line)) == rate_map(ls).insert(shot, rate)
        }),
{
    assert(ls.push(line).drop_last() == ls);
}

/// The script that the viewer runs: it notes ratings and culls in two files.
pub open spec fn helper_text(cull: Seq<char>, rates: Seq<char>) -> Seq<char> {
    "#!/bin/sh\nCULL='"@ + cull + "'\nRATES='"@ + rates
        + "'\ncase \"$1\" in\nrate) printf '%s\\t%s\\n' \"$2\" \"$3\" >> \"$RATES\"; imv-msg \"$imv_pid\" next 2>/dev/null ;;\ncull)\n\tprintf '%s\\n' \"$2\" >> \"$CULL\"\n\tidx=\"$3\"; cnt=\"$4\"\n\timv-msg \"$imv_pid\" close 2>/dev/null\n\tnew=$((cnt-1)); [ \"$idx\" -gt \"$new\" ] && idx=\"$new\"\n\t[ \"$idx\" -ge 1 ] && imv-msg \"$imv_pid\" goto \"$idx\" 2>/dev/null ;;\nundo) last=$(tail -n1 \"$CULL\" 2>/dev/null); [ -n \"$last\" ] && sed -i '$ d' \"$CULL\" && imv-msg \"$imv_pid\" open \"$last\" 2>/dev/null ;;\nesac\n"@
}

/// The script that the viewer runs in a review.
pub fn helper_script(cull: &str, rates: &str) -> (s: String)
    ensures
        s@ == helper_text(cull@, rates@),
{
    let mut s = copy_of("#!/bin/sh\nCULL='");
    s.append(cull);
    s.append("'\nRATES='");
    s.append(rates);
    s.append("'\ncase \"$1\" in\nrate) printf '%s\\t%s\\n' \"$2\" \"$3\" >> \"$RATES\"; imv-msg \"$imv_pid\" next 2>/dev/null ;;\ncull)\n\tprintf '%s\\n' \"$2\" >> \"$CULL\"\n\tidx=\"$3\"; cnt=\"$4\"\n\timv-msg \"$imv_pid\" close 2>/dev/null\n\tnew=$((cnt-1)); [ \"$idx\" -gt \"$new\" ] && idx=\"$new\"\n\t[ \"$idx\" -ge 1 ] && imv-msg \"$imv_pid\" goto \"$idx\" 2>/dev/null ;;\nundo) last=$(tail -n1 \"$CULL\" 2>/dev/null); [ -n \"$last\" ] && sed -i '$ d' \"$CULL\" && imv-msg \"$imv_pid\" open \"$last\" 2>/dev/null ;;\nesac\n");
    s
}

/// The script that the viewer runs over removed shots: it notes what to restore.
pub open spec fn restore_text(restore: Seq<char>) -> Seq<char> {
    "#!/bin/sh\nRESTORE='"@ + restore
        + "'\nprintf '%s\\n' \"$2\" >> \"$RESTORE\"\nidx=\"$3\"; cnt=\"$4\"\nimv-msg \"$imv_pid\" close 2>/dev/null\nnew=$((cnt-1)); [ \"$idx\" -gt \"$new\" ] && idx=\"$new\"\n[ \"$idx\" -ge 1 ] && imv-msg \"$imv_pid\" goto \"$idx\" 2>/dev/null\n"@
}

/// The script that the viewer runs over removed shots.
pub fn restore_script(restore: &str) -> (s: String)
    ensures
        s@ == restore_text(restore@),
{
    let mut s = copy_of("#!/bin/sh\nRESTORE='");
    s.append(restore);
    s.append("'\nprintf '%s\\n' \"$2\" >> \"$RESTORE\"\nidx=\"$3\"; cnt=\"$4\"\nimv-msg \"$imv_pid\" close 2>/dev/null\nnew=$((cnt-1)); [ \"$idx\" -gt \"$new\" ] && idx=\"$new\"\n[ \"$idx\" -ge 1 ] && imv-msg \"$imv_pid\" goto \"$idx\" 2>/dev/null\n");
    s
}

/// The key of the viewer that rates the current image `n`; the script is at `helper`.
pub open spec fn rate_bind(helper: Seq<char>, n: nat) -> Seq<char> {
    "bind "@ + dec(n) + " exec sh '"@ + helper + "' rate "@ + dec(n) + " \"$imv_current_file\""@
}

/// The key of the viewer that culls the current image.
pub open spec fn cull_bind(helper: Seq<char>) -> Seq<char> {
    "bind <Delete> exec sh '"@ + helper
        + "' cull \"$imv_current_file\" \"$imv_current_index\" \"$imv_file_count\""@
}

/// The key of the viewer that takes back the last cull.
pub open spec fn undo_bind(helper: Seq<char>) -> Seq<char> {
    "bind u exec sh '"@ + helper + "' undo"@
}

/// The key of the viewer that restores the current image.
pub open spec fn restore_bind(helper: Seq<char>) -> Seq<char> {
    "bind <Return> exec sh '"@ + helper
        + "' restore \"$imv_current_file\" \"$imv_current_index\" \"$imv_file_count\""@
}

/// The commands for the viewer, each behind a flag of its own.
pub open spec fn flagged(binds: Seq<Seq<char>>) -> Seq<Seq<char>>
    decreases binds.len(),
{
    if binds.len() == 0 {
        seq![]
    } else {
        flagged(binds.drop_last()) + seq!["-c"@, binds.last()]
    }
}

/// The keys of the viewer in a review.
pub open spec fn review_binds(helper: Seq<char>) -> Seq<Seq<char>> {
    Seq::new(6, |n: int| rate_bind(helper, n as nat)) + seq![cull_bind(helper), undo_bind(helper)]
}

/// Adds the flag and the command for one key.
fn push_bind(v: &mut Vec<String>, bind: &str, had: Ghost<Seq<Seq<char>>>)
    requires
        strs(old(v)@) == flagged(had@),
    ensures
        strs(final(v)@) == flagged(had@.push(bind@)),
{
    push_copy(v, "-c");
    push_copy(v, bind);
    proof {
        let all = had@;
        assert(all.push(bind@).drop_last() == all);
        assert(strs(v@) == flagged(all) + seq!["-c"@, bind@]);
    }
}

/// Adds the paths of the images to show.
fn push_views(v: &mut Vec<String>, views: &Vec<String>)
    ensures
        strs(final(v)@) == strs(old(v)@) + strs(views@),
{
    let ghost was = strs(v@);
    let ghost all = strs(views@);
    assert(was + all.take(0) == was);
    for i in 0..views.len()
        invariant
            all == strs(views@),
            strs(v@) == was + all.take(i as int),
    {
        push_copy(v, views[i].as_str());
        assert(all.take(i + 1) == all.take(i as int).push(all[i as int]));
    }
    assert(all.take(all.len() as int) == all);
}

/// What the viewer is asked in a review: the keys 0 to 5 rate, Delete culls, u takes back the
/// last cull.
pub fn review_args(helper: &str, views: &Vec<String>) -> (r: Vec<String>)
    ensures
        strs(r@) == flagged(review_binds(helper@)) + strs(views@),
{
    let mut r: Vec<String> = Vec::new();
    let ghost binds = Seq::<Seq<char>>::empty();
    assert(strs(r@) == Seq::<Seq<char>>::empty());
    let mut n: u64 = 0;
    while n <= 5
        invariant
            n <= 6,
            binds == Seq::new(n as nat, |k: int| rate_bind(helper@, k as nat)),
            strs(r@) == flagged(binds),
        decreases 6 - n,
    {
        let mut b = copy_of("bind ");
        b.append(decimal(n).as_str());
        b.append(" exec sh '");
        b.append(helper);
        b.append("' rate ");
        b.append(decimal(n).as_str());
        b.append(" \"$imv_current_file\"");
        push_bind(&mut r, b.as_str(), Ghost(binds));
        proof {
            binds = binds.push(b@);
        }
        n += 1;
    }
    let mut c = copy_of("bind <Delete> exec sh '");
    c.append(helper);
    c.append("' cull \"$imv_current_file\" \"$imv_current_index\" \"$imv_file_count\"");
    push_bind(&mut r, c.as_str(), Ghost(binds));
    proof {
        binds = binds.push(c@);
    }
    let mut u = copy_of("bind u exec sh '");
    u.append(helper);
    u.append("' undo");
    push_bind(&mut r, u.as_str(), Ghost(binds));
    assert(binds.push(u@) == review_binds(helper@));
    push_views(&mut r, views);
    r
}

/// What the viewer is asked over removed shots: Return restores.
pub fn restore_args(helper: &str, views: &Vec<String>) -> (r: Vec<String>)
    ensures
        strs(r@) == seq!["-c"@, restore_bind(helper@)] + strs(views@),
{
    let mut b = copy_of("bind <Return> exec sh '");
    b.append(helper);
    b.append("' restore \"$imv_current_file\" \"$imv_current_index\" \"$imv_file_count\"");
    let mut r: Vec<String> = Vec::new();
    push_copy(&mut r, "-c");
    push_copy(&mut r, b.as_str());
    push_views(&mut r, views);
    r
}

/// The paths of the files of the shots in `wanted`, in their order.
pub open spec fn paths_in(files: Seq<FileItem>, wanted: Set<Seq<char>>) -> Seq<Seq<char>> {
    files.filter(|f: FileItem| wanted.contains(shot(f))).map_values(|f: FileItem| f.path@)
}

/// The paths of the files of the shots in `wanted`.
pub fn files_of(files: &Vec<FileItem>, wanted: &TextMap<()>) -> (r: Vec<String>)
    ensures
        strs(r@) == paths_in(files@, wanted@.dom()),
{
    let ghost keep = |f: FileItem| wanted@.dom().contains(shot(f));
    let mut r: Vec<String> = Vec::new();
    proof {
        reveal(Seq::filter);
        assert(strs(r@) == paths_in(files@.take(0), wanted@.dom()));
    }
    for i in 0..files.len()
        invariant
            keep == (|f: FileItem| wanted@.dom().contains(shot(f))),
            strs(r@) == files@.take(i as int).filter(keep).map_values(|f: FileItem| f.path@),
    {
        let ghost had = files@.take(i as int);
        let ghost f = files@[i as int];
        proof {
            lemma_filter_push(had, f, keep);
            assert(files@.take(i + 1) == had.push(f));
            if keep(f) {
                assert(had.filter(keep).push(f).map_values(|f: FileItem| f.path@) == had.filter(
                    keep,
                ).map_values(|f: FileItem| f.path@).push(f.path@));
            }
        }
        if wanted.contains(files[i].stem().as_str()) {
            push_copy(&mut r, files[i].path.as_str());
        }
    }
    assert(files@.take(files.len() as int) == files@);
    r
}

/// Where the upright copies of the culled shots are kept.
pub fn stale_views(gone: &TextMap<()>, cache: &str) -> (r: Vec<String>)
    ensures
        strs(r@) == in_order(gone@.dom()).map_values(
            |s: Seq<char>| joined(cache@, s + ".jpg"@),
        ),
{
    let ks = gone.keys();
    let ghost order = in_order(gone@.dom());
    let ghost at = |s: Seq<char>| joined(cache@, s + ".jpg"@);
    let mut r: Vec<String> = Vec::new();
    for i in 0..ks.len()
        invariant
            strs(ks@) == order,
            at == (|s: Seq<char>| joined(cache@, s + ".jpg"@)),
            strs(r@) == order.take(i as int).map_values(at),
    {
        let mut n = ks[i].clone();
        n.append(".jpg");
        let p = join_path(cache, n.as_str());
        push_copy(&mut r, p.as_str());
        proof {
            assert(order[i as int] == ks@[i as int]@);
            assert(order.take(i + 1).map_values(at) == order.take(i as int).map_values(at).push(
                at(order[i as int]),
            ));
        }
    }
    assert(order.take(order.len() as int) == order);
    r
}

/// The ratings `had` after the new ratings `rates`: a rating of 0 takes the old one away.
pub open spec fn rerated(had: Map<Seq<char>, u8>, rates: Map<Seq<char>, u8>) -> Map<
    Seq<char>,
    u8,
> {
    Map::new(
        |s: Seq<char>|
            if rates.dom().contains(s) {
                rates[s] > 0
            } else {
                had.dom().contains(s)
            },
        |s: Seq<char>|
            if rates.dom().contains(s) {
                rates[s]
            } else {
                had[s]
            },
    )
}

/// The new ratings that count: not those of culled shots.
pub open spec fn counting(rates: Map<Seq<char>, u8>, gone: Set<Seq<char>>) -> Map<Seq<char>, u8> {
    rates.remove_keys(gone)
}

/// The photos whose sidecars get a new rating, and the rating, in the order of the files.
pub open spec fn sidecar_writes(
    files: Seq<FileItem>,
    rates: Map<Seq<char>, u8>,
) -> Seq<(Seq<char>, u8)>
    decreases files.len(),
{
    if files.len() == 0 {
        seq![]
    } else {
        let before = sidecar_writes(files.drop_last(), rates);
        let f = files.last();
        if photo(f) && rates.dom().contains(shot(f)) {
            before.push((f.path@, rates[shot(f)]))
        } else {
            before
        }
    }
}

/// What each of the writes says.
pub open spec fn writes(v: Seq<(String, u8)>) -> Seq<(Seq<char>, u8)> {
    v.map_values(|x: (String, u8)| (x.0@, x.1))
}

/// The files left after the shots in `gone` were culled.
pub open spec fn left(files: Seq<FileItem>, gone: Set<Seq<char>>) -> Seq<FileItem> {
    if gone.len() == 0 {
        files
    } else {
        files.filter(spared(gone))
    }
}

/// What a review changed.
pub struct Changes {
    /// The photos whose sidecars get a new rating, and the rating.
    pub sidecars: Vec<(String, u8)>,
    /// How many shots were culled.
    pub culled: usize,
    /// How many shots were rated.
    pub rated: usize,
}

/// Whether `d` is the occasion `c` after a review in which the shots in `gone` were culled and
/// the ratings `rates` were given: the culled shots are dropped, then the others get their new
/// ratings, and ratings of shots without files are forgotten.
pub open spec fn reviewed(
    c: Cluster,
    gone: Set<Seq<char>>,
    rates: Map<Seq<char>, u8>,
    d: Cluster,
) -> bool {
    &&& d.files@ == left(c.files@, gone)
    &&& d.ratings@ == rerated(c.ratings@, counting(rates, gone)).restrict(shots(d.files@))
    &&& d == (Cluster {
        files: d.files,
        ratings: d.ratings,
        start: if gone.len() == 0 {
            c.start
        } else {
            first_time(d.files@, c.start)
        },
        end: if gone.len() == 0 {
            c.end
        } else {
            last_time(d.files@, c.end)
        },
        skip: c.skip || gone.len() > 0 && d.files@.len() == 0,
        ..c
    })
}

/// Applies what the viewer noted to the occasion.
#[verifier::rlimit(30)]
pub fn apply_review(c: &mut Cluster, gone: &TextMap<()>, rates: &TextMap<u8>) -> (r: Changes)
    ensures
        reviewed(*old(c), gone@.dom(), rates@, *final(c)),
        writes(r.sidecars@) == sidecar_writes(
            final(c).files@,
            counting(rates@, gone@.dom()),
        ),
        r.culled == gone@.dom().len(),
        r.rated == counting(rates@, gone@.dom()).dom().len(),
{
    let ghost had = c.ratings@;
    let ghost count = counting(rates@, gone@.dom());
    let culled: usize = gone.len();
    if culled > 0 {
        c.remove_stems(gone);
    }
    let ghost files = c.files@;
    let ghost mid = *c;
    let ks = rates.keys();
    let ghost all = strs(ks@);
    let mut kept: TextMap<u8> = TextMap::new();
    for i in 0..ks.len()
        invariant
            all == strs(ks@),
            all.to_set() == rates@.dom(),
            forall|s: Seq<char>| #[trigger]
                kept@.dom().contains(s) <==> all.take(i as int).contains(s)
                    && !gone@.dom().contains(s),
            forall|s: Seq<char>| #[trigger] kept@.dom().contains(s) ==> kept@[s] == rates@[s],
            c.files@ == files,
            forall|s: Seq<char>| #[trigger]
                c.ratings@.dom().contains(s) <==> if kept@.dom().contains(s) {
                    kept@[s] > 0
                } else {
                    had.dom().contains(s)
                },
            forall|s: Seq<char>| #[trigger]
                c.ratings@.dom().contains(s) ==> c.ratings@[s] == if kept@.dom().contains(s) {
                    kept@[s]
                } else {
                    had[s]
                },
            *c == (Cluster { ratings: c.ratings, ..mid }),
    {
        let k = ks[i].as_str();
        proof {
            assert(all[i as int] == k@);
            assert(all.contains(k@));
            assert(rates@.dom().contains(k@));
            let t = all.take(i as int);
            assert(all.take(i + 1) == t.push(k@));
            assert forall|s: Seq<char>| #[trigger]
                all.take(i + 1).contains(s) == (t.contains(s) || s == k@) by {
                if t.contains(s) {
                    let j = choose|j: int| 0 <= j < t.len() && t[j] == s;
                    assert(t.push(k@)[j] == s);
                }
                if t.push(k@).contains(s) {
                    let j = choose|j: int| 0 <= j < t.len() + 1 && t.push(k@)[j] == s;
                    if j < t.len() {
                        assert(t[j] == s);
                    }
                }
                assert(t.push(k@)[t.len() as int] == k@);
            }
        }
        if !gone.contains(k) {
            match rates.get(k) {
                Some(r) => {
                    let n: u8 = *r;
                    kept.insert(ks[i].clone(), n);
                    if n > 0 {
                        c.ratings.insert(ks[i].clone(), n);
                    } else {
                        c.ratings.remove(k);
                    }
                },
                None => {},
            }
        }
    }
    proof {
        assert(all.take(all.len() as int) == all);
        assert forall|s: Seq<char>| kept@.dom().contains(s) == count.dom().contains(s) by {
            assert(all.contains(s) == all.to_set().contains(s));
        }
        assert(kept@ == count);
        assert(c.ratings@ == rerated(had, count));
    }
    let ghost after = *c;
    let mut sidecars: Vec<(String, u8)> = Vec::new();
    assert(writes(sidecars@) == Seq::<(Seq<char>, u8)>::empty());
    for i in 0..c.files.len()
        invariant
            *c == after,
            c.files@ == files,
            kept@ == count,
            writes(sidecars@) == sidecar_writes(files.take(i as int), count),
    {
        let f = &c.files[i];
        let ghost before = sidecars@;
        proof {
            assert(files.take(i + 1).drop_last() == files.take(i as int));
            assert(files.take(i + 1).last() == *f);
        }
        if f.is_photo() {
            match kept.get(f.stem().as_str()) {
                Some(r) => {
                    sidecars.push((f.path.clone(), *r));
                    assert(writes(sidecars@) == writes(before).push((f.path@, *r)));
                },
                None => {},
            }
        }
    }
    assert(files.take(files.len() as int) == files);
    let rated: usize = kept.len();
    c.prune_ratings();
    Changes { sidecars, culled, rated }
}

/// What a review comes to: the ratings that are left are of shots with files, so never of a
/// culled one; a shot with files that was rated has its new rating, and none where that is 0;
/// the others keep theirs.
pub proof fn lemma_review(
    files: Seq<FileItem>,
    had: Map<Seq<char>, u8>,
    rates: Map<Seq<char>, u8>,
    gone: Set<Seq<char>>,
)
    requires
        gone.finite(),
    ensures
        ({
            let f = left(files, gone);
            let r = rerated(had, counting(rates, gone)).restrict(shots(f));
            &&& shots(f) == shots(files).difference(gone)
            &&& forall|s: Seq<char>| #[trigger]
                r.dom().contains(s) ==> shots(files).contains(s) && !gone.contains(s)
            &&& forall|s: Seq<char>|
                shots(files).contains(s) && !gone.contains(s) && rates.dom().contains(s) ==> (
                #[trigger] r.dom().contains(s) == (rates[s] > 0)) && (rates[s] > 0 ==> r[s]
                    == rates[s])
            &&& forall|s: Seq<char>|
                shots(files).contains(s) && !gone.contains(s) && !rates.dom().contains(s) ==> (
                #[trigger] r.dom().contains(s) == had.dom().contains(s)) && (had.dom().contains(s)
                    ==> r[s] == had[s])
        }),
{
    lemma_spared(files, gone);
    if gone.len() == 0 {
        assert(gone == Set::<Seq<char>>::empty());
        assert(shots(files).difference(gone) == shots(files));
    }
}

/// Ratings stay between 1 and 5.
pub proof fn lemma_ratings_stay_in_range(
    had: Map<Seq<char>, u8>,
    text: Option<Seq<char>>,
    gone: Set<Seq<char>>,
    present: Set<Seq<char>>,
)
    requires
        forall|s: Seq<char>| #[trigger] had.dom().contains(s) ==> 1 <= had[s] <= 5,
    ensures
        ({
            let r = rerated(had, counting(noted_rates(text), gone)).restrict(present);
            forall|s: Seq<char>| #[trigger] r.dom().contains(s) ==> 1 <= r[s] <= 5
        }),
{
    if let Some(t) = text {
        lemma_rates_at_most_five(lines(t));
    }
    let rates = counting(noted_rates(text), gone);
    let r = rerated(had, rates).restrict(present);
    assert forall|s: Seq<char>| #[trigger] r.dom().contains(s) implies 1 <= r[s] <= 5 by {
        if rates.dom().contains(s) {
            assert(noted_rates(text).dom().contains(s));
        } else {
            assert(had.dom().contains(s));
        }
    }
}

/// What is told where there is nothing to review.
pub open spec fn nothing_text(only_rated: bool, min: u8) -> Seq<char> {
    if only_rated {
        "No shots rated ≥"@ + dec(min as nat) + " in this occasion yet."@
    } else {
        "No photos to view here (movies only)."@
    }
}

/// The images to review, or what is told where there is none; `only_rated` asks for those rated
/// `min` or more.
pub fn review_sources(c: &Cluster, only_rated: bool, min: u8) -> (r: Result<Vec<String>, String>)
    ensures
        ({
            let least: u8 = if only_rated {
                min
            } else {
                0
            };
            let views = viewables(c.files@.filter(rated(c.ratings@, least)));
            match r {
                Ok(v) => views.len() > 0 && strs(v@) == views,
                Err(e) => views.len() == 0 && e@ == nothing_text(only_rated, min),
            }
        }),
{
    let least: u8 = if only_rated {
        min
    } else {
        0
    };
    let v = c.viewable_sources(least);
    assert(strs(v@).len() == v@.len());
    if v.len() > 0 {
        return Ok(v);
    }
    if only_rated {
        let mut s = copy_of("No shots rated ≥");
        s.append(decimal(min as u64).as_str());
        s.append(" in this occasion yet.");
        Err(s)
    } else {
        Err(copy_of("No photos to view here (movies only)."))
    }
}

/// What is told of the culls of a review.
pub open spec fn culled_text(culled: nat, trashed: nat) -> Seq<Seq<char>> {
    if culled > 0 {
        seq!["culled "@ + dec(culled) + " ("@ + dec(trashed) + " files → .removed)"@]
    } else {
        seq![]
    }
}

/// What is told of the ratings of a review.
pub open spec fn rated_text(rated: nat) -> Seq<Seq<char>> {
    if rated > 0 {
        seq!["rated "@ + dec(rated) + " (XMP written)"@]
    } else {
        seq![]
    }
}

/// What is told of a review: how many shots were culled, how many files of them were put away,
/// how many shots were rated, and how many now have a rating of `min` or more.
pub open spec fn review_text(
    culled: nat,
    trashed: nat,
    rated: nat,
    min: u8,
    now: nat,
) -> Seq<char> {
    let parts = culled_text(culled, trashed) + rated_text(rated);
    if parts.len() == 0 {
        "Review done — no changes."@
    } else {
        join(parts, ", "@) + " · ★≥"@ + dec(min as nat) + " now "@ + dec(now)
    }
}

/// Ends a review: `trashed` files were put away, and `removed` shots are in the `.removed`
/// folder now.
pub fn conclude_review(
    c: &mut Cluster,
    changes: &Changes,
    trashed: usize,
    removed: usize,
    min: u8,
) -> (s: String)
    ensures
        *final(c) == (Cluster { removed, ..*old(c) }),
        s@ == review_text(
            changes.culled as nat,
            trashed as nat,
            changes.rated as nat,
            min,
            rated_shots(old(c).ratings@, min).len(),
        ),
{
    c.removed = removed;
    let mut parts: Vec<String> = Vec::new();
    if changes.culled > 0 {
        let mut t = copy_of("culled ");
        t.append(decimal(changes.culled as u64).as_str());
        t.append(" (");
        t.append(decimal(trashed as u64).as_str());
        t.append(" files → .removed)");
        push_copy(&mut parts, t.as_str());
    }
    assert(strs(parts@) == culled_text(changes.culled as nat, trashed as nat));
    if changes.rated > 0 {
        let mut t = copy_of("rated ");
        t.append(decimal(changes.rated as u64).as_str());
        t.append(" (XMP written)");
        push_copy(&mut parts, t.as_str());
    }
    assert(strs(parts@) == culled_text(changes.culled as nat, trashed as nat) + rated_text(
        changes.rated as nat,
    ));
    assert(strs(parts@).len() == parts@.len());
    if parts.len() == 0 {
        return copy_of("Review done — no changes.");
    }
    let mut s = join_strings(&parts, ", ");
    s.append(" · ★≥");
    s.append(decimal(min as u64).as_str());
    s.append(" now ");
    s.append(decimal(c.rated_count(min) as u64).as_str());
    s
}

/// What is told where there are no images of removed shots; `n` files are in the `.removed`
/// folder.
pub open spec fn no_removed_text(n: nat) -> Seq<char> {
    if n == 0 {
        "Nothing in .removed for this occasion."@
    } else {
        dec(n) + " removed file(s) but no photos to preview."@
    }
}

/// The images of the removed shots, or what is told where there is none; `removed` are the
/// files in the `.removed` folder.
pub fn removed_sources(removed: &Vec<FileItem>) -> (r: Result<Vec<String>, String>)
    ensures
        match r {
            Ok(v) => viewables(removed@).len() > 0 && strs(v@) == viewables(removed@),
            Err(e) => viewables(removed@).len() == 0 && e@ == no_removed_text(removed@.len()),
        },
{
    let v = pick_viewables(removed);
    assert(strs(v@).len() == v@.len());
    if v.len() > 0 {
        return Ok(v);
    }
    if removed.len() == 0 {
        return Err(copy_of("Nothing in .removed for this occasion."));
    }
    let mut s = decimal(removed.len() as u64);
    s.append(" removed file(s) but no photos to preview.");
    Err(s)
}

/// Whether `d` is the occasion `c` after `restored` files went back to its folder, of which
/// `items` could be read. An occasion that got files back is not left alone.
pub open spec fn got_back(c: Cluster, items: Seq<FileItem>, restored: nat, d: Cluster) -> bool {
    if restored == 0 {
        d == c
    } else {
        &&& d.files@ == sorted(c.files@ + items)
        &&& d == (Cluster {
            files: d.files,
            start: first_time(d.files@, c.start),
            end: last_time(d.files@, c.end),
            skip: false,
            ..c
        })
    }
}

/// Puts restored files back into the occasion.
pub fn apply_restore(c: &mut Cluster, items: Vec<FileItem>, restored: usize)
    requires
        items@.len() <= restored,
    ensures
        got_back(*old(c), items@, restored as nat, *final(c)),
{
    if restored == 0 {
        return ;
    }
    let ghost was = c.files@;
    let ghost more = items@;
    let mut files: Vec<FileItem> = Vec::new();
    std::mem::swap(&mut files, &mut c.files);
    assert(was + more.take(0) == was);
    for f in it: items
        invariant
            it.seq() == more,
            files@ == was + more.take(it.index() as int),
    {
        files.push(f);
        assert(was + more.take(it.index() + 1) == (was + more.take(it.index() as int)).push(f));
    }
    assert(more.take(more.len() as int) == more);
    let files = sort(files);
    c.start = time_of_first(&files, c.start);
    c.end = time_of_last(&files, c.end);
    c.skip = false;
    c.files = files;
}

/// What is told of restoring removed shots.
pub open spec fn restored_text(restored: nat, shown: nat) -> Seq<char> {
    if restored > 0 {
        "Restored "@ + dec(restored) + " shot(s) from .removed."@
    } else {
        dec(shown) + " shot(s) in .removed (none restored)."@
    }
}

/// Ends a look at removed shots: `restored` files went back, `shown` shots were shown, and
/// `removed` shots are in the `.removed` folder now.
pub fn conclude_restore(c: &mut Cluster, restored: usize, shown: usize, removed: usize) -> (s:
    String)
    ensures
        *final(c) == (Cluster { removed, ..*old(c) }),
        s@ == restored_text(restored as nat, shown as nat),
{
    c.removed = removed;
    if restored > 0 {
        let mut s = copy_of("Restored ");
        s.append(decimal(restored as u64).as_str());
        s.append(" shot(s) from .removed.");
        s
    } else {
        let mut s = decimal(shown as u64);
        s.append(" shot(s) in .removed (none restored).");
        s
    }
}

/// The `.removed` folder of the folder `dir`.
pub fn removed_folder(dir: &str) -> (r: String)
    ensures
        r@ == joined(dir@, ".removed"@),
{
    join_path(dir, ".removed")
}

/// Restoring brings back no more and no less than the restored files, and all files stay in
/// the order of their times.
pub proof fn lemma_restore(files: Seq<FileItem>, items: Seq<FileItem>)
    ensures
        sorted(files + items).to_multiset() == files.to_multiset().add(items.to_multiset()),
        forall|i: int, j: int|
            0 <= i < j < sorted(files + items).len() ==> (#[trigger] sorted(files + items)[i]).mtime
                <= (#[trigger] sorted(files + items)[j]).mtime,
{
    lemma_by_time(files + items, 0);
    vstd::seq_lib::lemma_multiset_commutative(files, items);
}

/// What the viewer notes is read back: behind other lines, the line with the number `n`, a tab
/// and a path gives the stem of that path the rating `n`, or 5 where `n` is above that, and
/// leaves the other ratings as they are.
pub proof fn lemma_rating_read_back(t: Seq<char>, n: nat, p: Seq<char>, s: Seq<char>)
    requires
        t.len() == 0 || t.last() == '\n',
        n <= u8::MAX,
        p.len() > 0,
        !is_space(p[0]),
        !is_space(p.last()),
        !p.contains('\n'),
        file_stem_of(p) == Some(s),
    ensures
        rate_on(dec(n) + "\t"@ + p) == Some(
            (
                s,
                if n <= 5 {
                    n as u8
                } else {
                    5
                },
            ),
        ),
        noted_rates(Some(t + dec(n) + "\t"@ + p + "\n"@)) == noted_rates(Some(t)).insert(
            s,
            if n <= 5 {
                n as u8
            } else {
                5
            },
        ),
{
    reveal_strlit("\t");
    reveal_strlit("\n");
    let d = dec(n);
    let l = d + "\t"@ + p;
    lemma_dec_reads_back(n);
    lemma_signed_number(n, 0);
    assert(fill('0', 0) + d == d);
    assert(is_digit(d[0]));
    assert(is_digit(d[d.len() - 1]));
    lemma_index_of_char(l, '\t');
    let k = index_of_char(l, '\t');
    assert(l[d.len() as int] == '\t');
    assert(k == d.len()) by {
        if k < d.len() {
            assert(is_digit(d[k]));
        }
    }
    assert(l.take(k) == d);
    assert(l.skip(k + 1) == p);
    lemma_trim_tight(d);
    lemma_trim_tight(p);
    assert forall|i: int| 0 <= i < l.len() implies l[i] != '\n' by {
        if i < d.len() {
            assert(is_digit(d[i]));
        } else if i > d.len() {
            assert(p.contains(p[i - d.len() - 1]));
        }
    }
    assert(l.last() == p.last());
    lemma_lines_put(t, l);
    assert(t + dec(n) + "\t"@ + p + "\n"@ == t + l.push('\n'));
    let ls = lines(t).push(l);
    assert(ls.drop_last() == lines(t));
}

/// A line with a path notes the stem of the path, and those noted before stay noted.
pub proof fn lemma_stem_read_back(t: Seq<char>, p: Seq<char>, s: Seq<char>)
    requires
        t.len() == 0 || t.last() == '\n',
        p.len() > 0,
        !is_space(p[0]),
        !is_space(p.last()),
        !p.contains('\n'),
        file_stem_of(p) == Some(s),
    ensures
        noted_stems(Some(t + p + "\n"@)) == noted_stems(Some(t)).insert(s),
{
    reveal_strlit("\n");
    lemma_trim_tight(p);
    lemma_lines_put(t, p);
    assert(t + p + "\n"@ == t + p.push('\n'));
    assert(lines(t).push(p).drop_last() == lines(t));
}

/// The files of the wanted shots are just those whose stem is wanted, in their order.
pub proof fn lemma_paths_in(files: Seq<FileItem>, more: Seq<FileItem>, wanted: Set<Seq<char>>, f: FileItem)
    ensures
        paths_in(files + more, wanted) == paths_in(files, wanted) + paths_in(more, wanted),
        paths_in(seq![f], wanted) == if wanted.contains(stem(f.path@)) {
            seq![f.path@]
        } else {
            seq![]
        },
    decreases more.len(),
{
    let keep = |f: FileItem| wanted.contains(shot(f));
    let path = |f: FileItem| f.path@;
    let none = Seq::<FileItem>::empty();
    reveal(Seq::filter);
    lemma_filter_push(none, f, keep);
    assert(none.push(f) == seq![f]);
    assert(none.filter(keep) == none);
    assert(none.push(f).map_values(path) == seq![f.path@]);
    assert(none.map_values(path) == Seq::<Seq<char>>::empty());
    if more.len() == 0 {
        assert(files + more == files);
        assert(more.filter(keep) == none);
        assert(paths_in(files, wanted) + paths_in(more, wanted) == paths_in(files, wanted));
    } else {
        let front = more.drop_last();
        let l = more.last();
        lemma_paths_in(files, front, wanted, f);
        assert((files + front).push(l) == files + more);
        assert(front.push(l) == more);
        lemma_filter_push(files + front, l, keep);
        lemma_filter_push(front, l, keep);
        let a = (files + front).filter(keep);
        let b = front.filter(keep);
        if keep(l) {
            assert(a.push(l).map_values(path) == a.map_values(path).push(l.path@));
            assert(b.push(l).map_values(path) == b.map_values(path).push(l.path@));
            assert(paths_in(files, wanted) + b.map_values(path).push(l.path@) == (paths_in(
                files,
                wanted,
            ) + b.map_values(path)).push(l.path@));
        }
    }
}

/// A rating is written for just the photos of the shots that got one, for each the rating of its
/// shot, in their order.
pub proof fn lemma_sidecar_writes(
    files: Seq<FileItem>,
    more: Seq<FileItem>,
    rates: Map<Seq<char>, u8>,
    f: FileItem,
)
    ensures
        sidecar_writes(files + more, rates) == sidecar_writes(files, rates) + sidecar_writes(
            more,
            rates,
        ),
        sidecar_writes(seq![f], rates) == if (f.ext@ == "jpg"@ || f.ext@ == "jpeg"@ || f.ext@
            == "nef"@) && rates.contains_key(stem(f.path@)) {
            seq![(f.path@, rates[stem(f.path@)])]
        } else {
            seq![]
        },
    decreases more.len(),
{
    let none = Seq::<FileItem>::empty();
    assert(seq![f].drop_last() == none);
    assert(sidecar_writes(none, rates) == Seq::<(Seq<char>, u8)>::empty());
    assert(sidecar_writes(none, rates).push((f.path@, rates[shot(f)])) == seq![
        (f.path@, rates[shot(f)]),
    ]);
    if more.len() == 0 {
        assert(files + more == files);
        assert(sidecar_writes(files, rates) + sidecar_writes(more, rates) == sidecar_writes(
            files,
            rates,
        ));
    } else {
        let front = more.drop_last();
        let l = more.last();
        lemma_sidecar_writes(files, front, rates, f);
        assert((files + more).drop_last() == files + front);
        let x = (l.path@, rates[shot(l)]);
        assert((sidecar_writes(files, rates) + sidecar_writes(front, rates)).push(x)
            == sidecar_writes(files, rates) + sidecar_writes(front, rates).push(x));
    }
}

/// A reviewed occasion holds the files of the shots that were not culled, and no others; it
/// begins and ends with the first and the last of them, is left alone where none is left, and
/// is else what it was. Where nothing was culled all its files and times stay.
pub proof fn lemma_reviewed_occasion(
    c: Cluster,
    gone: Set<Seq<char>>,
    rates: Map<Seq<char>, u8>,
    d: Cluster,
)
    requires
        reviewed(c, gone, rates, d),
        gone.finite(),
    ensures
        forall|f: FileItem|
            #![trigger d.files@.contains(f)]
            d.files@.contains(f) <==> c.files@.contains(f) && !gone.contains(stem(f.path@)),
        d.files@.len() > 0 && !(gone =~= Set::empty()) ==> d.start == d.files@[0].mtime && d.end
            == d.files@.last().mtime,
        gone =~= Set::<Seq<char>>::empty() ==> d.files@ == c.files@ && d.start == c.start && d.end
            == c.end && d.skip == c.skip,
        c.skip ==> d.skip,
        !c.skip && d.files@.len() > 0 ==> !d.skip,
        d.target == c.target,
        d.suggested == c.suggested,
        d.up == c.up,
        d.dir == c.dir,
        d.removed == c.removed,
        d.on_drive == c.on_drive,
{
    lemma_spared(c.files@, gone);
    if gone.len() == 0 {
        assert(gone =~= Set::<Seq<char>>::empty());
    }
}

/// An occasion that gets shots back has its files and theirs, begins and ends with the first and
/// the last of them, is not left alone any more, and is else what it was.
pub proof fn lemma_got_back(c: Cluster, items: Seq<FileItem>, restored: nat, d: Cluster)
    requires
        got_back(c, items, restored, d),
        restored > 0,
    ensures
        d.files@.to_multiset() == c.files@.to_multiset().add(items.to_multiset()),
        d.files@.len() == c.files@.len() + items.len(),
        d.files@.len() > 0 ==> d.start == d.files@[0].mtime && d.end == d.files@.last().mtime,
        !d.skip,
        d.ratings == c.ratings,
        d.target == c.target,
        d.suggested == c.suggested,
        d.up == c.up,
        d.dir == c.dir,
        d.removed == c.removed,
        d.on_drive == c.on_drive,
{
    lemma_restore(c.files@, items);
    lemma_by_time(c.files@ + items, 0);
}

/// Each key is handed to the viewer behind a flag of its own, in their order.
pub proof fn lemma_flagged(binds: Seq<Seq<char>>, i: int)
    requires
        0 <= i < binds.len(),
    ensures
        flagged(binds).len() == 2 * binds.len(),
        flagged(binds)[2 * i] == "-c"@,
        flagged(binds)[2 * i + 1] == binds[i],
    decreases binds.len(),
{
    let f = binds.drop_last();
    if f.len() > 0 {
        lemma_flagged(
            f,
            if i < f.len() {
                i
            } else {
                0
            },
        );
    } else {
        assert(flagged(f).len() == 0);
    }
    assert(flagged(binds) == flagged(f) + seq!["-c"@, binds.last()]);
}

proof fn lemma_told_in(s: Seq<char>, t: Seq<char>, u: Seq<char>)
    requires
        has_text(s, t),
        has_text(t, u),
    ensures
        has_text(s, u),
{
    lemma_has_text(s, t);
    lemma_has_text(t, u);
    let (a, b) = choose|a: Seq<char>, b: Seq<char>| s == #[trigger] (a + t + b);
    let (c, d) = choose|c: Seq<char>, d: Seq<char>| t == #[trigger] (c + u + d);
    lemma_text_within(a + c, u, d + b, s);
}

proof fn lemma_culled_told(culled: nat, trashed: nat)
    ensures
        ({
            let x = "culled "@ + dec(culled) + " ("@ + dec(trashed) + " files → .removed)"@;
            has_text(x, "culled "@ + dec(culled)) && has_text(x, dec(trashed) + " files"@)
        }),
{
    reveal_strlit(" files → .removed)");
    reveal_strlit(" files");
    let none = Seq::<char>::empty();
    let f = " files → .removed)"@;
    let x = "culled "@ + dec(culled) + " ("@ + dec(trashed) + f;
    assert(f == " files"@ + f.skip(6));
    lemma_text_within(none, "culled "@ + dec(culled), " ("@ + dec(trashed) + f, x);
    lemma_text_within("culled "@ + dec(culled) + " ("@, dec(trashed) + " files"@, f.skip(6), x);
}

/// What is told of a review names the culled shots, the files that were put away, and the rated
/// shots, where there were any, and how many shots now reach the bar; else that nothing changed.
#[verifier::spinoff_prover]
pub proof fn lemma_review_told(culled: nat, trashed: nat, rated: nat, min: u8, now: nat)
    ensures
        ({
            let t = review_text(culled, trashed, rated, min, now);
            &&& culled > 0 ==> has_text(t, "culled "@ + dec(culled)) && has_text(
                t,
                dec(trashed) + " files"@,
            )
            &&& rated > 0 ==> has_text(t, "rated "@ + dec(rated))
            &&& culled > 0 || rated > 0 ==> has_text(t, dec(min as nat) + " now "@ + dec(now))
            &&& culled == 0 && rated == 0 ==> t == "Review done — no changes."@
        }),
{
    let t = review_text(culled, trashed, rated, min, now);
    let parts = culled_text(culled, trashed) + rated_text(rated);
    let none = Seq::<char>::empty();
    if parts.len() > 0 {
        let j = join(parts, ", "@);
        let end = " · ★≥"@ + dec(min as nat) + " now "@ + dec(now);
        lemma_text_within(none, j, end, t);
        lemma_text_within(j + " · ★≥"@, dec(min as nat) + " now "@ + dec(now), none, t);
        if culled > 0 {
            let x = "culled "@ + dec(culled) + " ("@ + dec(trashed) + " files → .removed)"@;
            assert(parts[0] == x);
            lemma_join_has(parts, ", "@, 0);
            lemma_told_in(t, j, x);
            lemma_culled_told(culled, trashed);
            lemma_told_in(t, x, "culled "@ + dec(culled));
            lemma_told_in(t, x, dec(trashed) + " files"@);
        }
        if rated > 0 {
            let x = "rated "@ + dec(rated) + " (XMP written)"@;
            let k = parts.len() - 1;
            assert(parts[k] == x);
            lemma_join_has(parts, ", "@, k);
            lemma_told_in(t, j, x);
            lemma_text_within(none, "rated "@ + dec(rated), " (XMP written)"@, x);
            lemma_told_in(t, x, "rated "@ + dec(rated));
        }
    }
}

/// The keys from 0 to 5 rate what is shown by just that number, with the helper; the helper
/// notes culled shots in the one file and ratings in the other.
pub proof fn lemma_keys_and_notes(helper: Seq<char>, n: nat, cull: Seq<char>, rates: Seq<char>)
    requires
        n <= 5,
    ensures
        review_binds(helper).len() == 8,
        ("bind "@ + dec(n) + " "@).is_prefix_of(review_binds(helper)[n as int]),
        has_text(review_binds(helper)[n as int], "' rate "@ + dec(n) + " "@),
        has_text(review_binds(helper)[n as int], "sh '"@ + helper + "'"@),
        has_text(helper_text(cull, rates), "CULL='"@ + cull + "'"@),
        has_text(helper_text(cull, rates), "RATES='"@ + rates + "'"@),
{
    reveal_strlit(" exec sh '");
    reveal_strlit("sh '");
    reveal_strlit("' rate ");
    reveal_strlit("'");
    reveal_strlit(" ");
    reveal_strlit(" \"$imv_current_file\"");
    let none = Seq::<char>::empty();
    let b = review_binds(helper)[n as int];
    let d = dec(n);
    let x = " exec sh '"@;
    let y = "' rate "@;
    let z = " \"$imv_current_file\""@;
    assert(b == "bind "@ + d + x + helper + y + d + z);
    assert(x == " "@ + x.skip(1));
    assert(x == x.take(6) + "sh '"@);
    assert(y == "'"@ + y.skip(1));
    assert(z == " "@ + z.skip(1));
    let h = "bind "@ + d + " "@;
    assert(b == h + (x.skip(1) + helper + y + d + z));
    lemma_text_within("bind "@ + d + x + helper, y + d + " "@, z.skip(1), b);
    lemma_text_within("bind "@ + d + x.take(6), "sh '"@ + helper + "'"@, y.skip(1) + d + z, b);
    lemma_helper_files(cull, rates);
}

proof fn lemma_helper_files(cull: Seq<char>, rates: Seq<char>)
    ensures
        has_text(helper_text(cull, rates), "CULL='"@ + cull + "'"@),
        has_text(helper_text(cull, rates), "RATES='"@ + rates + "'"@),
{
    reveal_strlit("#!/bin/sh\nCULL='");
    reveal_strlit("CULL='");
    reveal_strlit("'\nRATES='");
    reveal_strlit("RATES='");
    reveal_strlit("'");
    let t = helper_text(cull, rates);
    let a = "#!/bin/sh\nCULL='"@;
    let b = "'\nRATES='"@;
    let c = t.skip((a.len() + cull.len() + b.len() + rates.len()) as int);
    assert(t == a + cull + b + rates + c);
    assert(a == a.take(10) + "CULL='"@);
    assert(b == "'"@ + b.skip(1));
    assert(b == b.take(2) + "RATES='"@);
    assert(c.len() > 0 && c[0] == '\'') by {
        reveal_strlit(
            "'\ncase \"$1\" in\nrate) printf '%s\\t%s\\n' \"$2\" \"$3\" >> \"$RATES\"; imv-msg \"$imv_pid\" next 2>/dev/null ;;\ncull)\n\tprintf '%s\\n' \"$2\" >> \"$CULL\"\n\tidx=\"$3\"; cnt=\"$4\"\n\timv-msg \"$imv_pid\" close 2>/dev/null\n\tnew=$((cnt-1)); [ \"$idx\" -gt \"$new\" ] && idx=\"$new\"\n\t[ \"$idx\" -ge 1 ] && imv-msg \"$imv_pid\" goto \"$idx\" 2>/dev/null ;;\nundo) last=$(tail -n1 \"$CULL\" 2>/dev/null); [ -n \"$last\" ] && sed -i '$ d' \"$CULL\" && imv-msg \"$imv_pid\" open \"$last\" 2>/dev/null ;;\nesac\n",
        );
    }
    assert(c == "'"@ + c.skip(1));
    lemma_text_within(a.take(10), "CULL='"@ + cull + "'"@, b.skip(1) + rates + c, t);
    lemma_text_within(a + cull + b.take(2), "RATES='"@ + rates + "'"@, c.skip(1), t);
}

/// What is told of a look at removed shots names how many came back, or how many there are; and
/// where nothing can be shown, how many files there are.
pub proof fn lemma_restore_told(restored: nat, shown: nat, files: nat, min: u8)
    ensures
        restored > 0 ==> has_text(restored_text(restored, shown), "Restored "@ + dec(restored)),
        restored == 0 ==> has_text(restored_text(restored, shown), dec(shown) + " shot(s)"@),
        files > 0 ==> has_text(no_removed_text(files), dec(files) + " removed file(s)"@),
        has_text(nothing_text(true, min), "≥"@ + dec(min as nat)),
{
    let none = Seq::<char>::empty();
    reveal_strlit(" shot(s) in .removed (none restored).");
    reveal_strlit(" shot(s)");
    reveal_strlit(" removed file(s) but no photos to preview.");
    reveal_strlit(" removed file(s)");
    reveal_strlit("No shots rated ≥");
    reveal_strlit("≥");
    let a = " shot(s) in .removed (none restored)."@;
    let b = " removed file(s) but no photos to preview."@;
    let c = "No shots rated ≥"@;
    if restored > 0 {
        lemma_text_within(
            none,
            "Restored "@ + dec(restored),
            " shot(s) from .removed."@,
            restored_text(restored, shown),
        );
    } else {
        assert(a == " shot(s)"@ + a.skip(8));
        lemma_text_within(none, dec(shown) + " shot(s)"@, a.skip(8), restored_text(restored, shown));
    }
    if files > 0 {
        assert(b == " removed file(s)"@ + b.skip(16));
        lemma_text_within(none, dec(files) + " removed file(s)"@, b.skip(16), no_removed_text(files));
    }
    assert(c == c.take(15) + "≥"@);
    lemma_text_within(
        c.take(15),
        "≥"@ + dec(min as nat),
        " in this occasion yet."@,
        nothing_text(true, min),
    );
}

/// All keys of a review, and the one that brings a shot back, run the helper; that one's helper
/// notes in the file that it is given.
pub proof fn lemma_keys_run_helper(helper: Seq<char>, file: Seq<char>)
    ensures
        has_text(cull_bind(helper), helper),
        has_text(undo_bind(helper), helper),
        has_text(restore_bind(helper), helper),
        has_text(restore_text(file), file),
        review_binds(helper)[6] == cull_bind(helper),
        review_binds(helper)[7] == undo_bind(helper),
{
    let a = cull_bind(helper);
    let c = restore_bind(helper);
    let t = restore_text(file);
    let x = "bind <Delete> exec sh '"@;
    let y = "bind <Return> exec sh '"@;
    let z = "#!/bin/sh\nRESTORE='"@;
    lemma_text_within(x, helper, a.skip((x.len() + helper.len()) as int), a);
    lemma_text_within("bind u exec sh '"@, helper, "' undo"@, undo_bind(helper));
    lemma_text_within(y, helper, c.skip((y.len() + helper.len()) as int), c);
    lemma_text_within(z, file, t.skip((z.len() + file.len()) as int), t);
}

} // verus!
