//! The command line, the surroundings of the program, and the listing of occasions.
use crate::calendar::{date_text, fmt_time, time_text, two_digits};
use crate::files::{count_of, movie, FileItem};
use crate::number::{
    all_digits, dec, decimal, digits_value, human_size, i64_text, is_digit, parse_i64, size_text,
};
use crate::occasion::{photo_shots, rated_shots, total, Cluster};
use crate::paths::{file_name, file_name_of, is_name, join_path, joined, lemma_joined};
use crate::screen::showable;
use crate::text::{
    chars_of, copy_of, fill, has_text, lemma_has_text, lemma_text_within, opt_str, pad_left,
    pad_right, padded_left, padded_right, push_copy, same, starts_with, string_of, strs, trim,
    trim_end, trim_end_str, trim_str,
};
use vstd::prelude::*;
use vstd::slice::slice_subrange;
use vstd::utf8::{encode_utf8, is_ascii_chars, is_char_boundary};

verus! {

/// What the command line asks for.
#[derive(Debug)]
pub struct Args {
    /// Whether the occasions are only listed.
    pub list_only: bool,
    /// Whether the library is opened whatever there is.
    pub force_library: bool,
    /// Whether only the orientation of images is printed.
    pub orient: bool,
    /// What is not an option: paths.
    pub paths: Vec<String>,
}

/// Whether `s` stands among `args`.
pub open spec fn given(args: Seq<Seq<char>>, s: Seq<char>) -> bool {
    exists|i: int| 0 <= i < args.len() && #[trigger] args[i] == s
}

/// The arguments that are not options.
pub open spec fn operands(args: Seq<Seq<char>>) -> Seq<Seq<char>>
    decreases args.len(),
{
    if args.len() == 0 {
        seq![]
    } else if "-"@.is_prefix_of(args.last()) {
        operands(args.drop_last())
    } else {
        operands(args.drop_last()).push(args.last())
    }
}

/// What the arguments `args` ask for.
pub fn parse_args(args: &Vec<String>) -> (r: Args)
    ensures
        r.list_only == given(strs(args@), "--list"@),
        r.force_library == (given(strs(args@), "--library"@) || given(strs(args@), "-l"@)),
        r.orient == given(strs(args@), "--orient"@),
        strs(r.paths@) == operands(strs(args@)),
{
    let ghost all = strs(args@);
    let mut list: bool = false;
    let mut library: bool = false;
    let mut short: bool = false;
    let mut orient: bool = false;
    let mut paths: Vec<String> = Vec::new();
    assert(strs(paths@) == Seq::<Seq<char>>::empty());
    for i in 0..args.len()
        invariant
            all == strs(args@),
            list == given(all.take(i as int), "--list"@),
            library == given(all.take(i as int), "--library"@),
            short == given(all.take(i as int), "-l"@),
            orient == given(all.take(i as int), "--orient"@),
            strs(paths@) == operands(all.take(i as int)),
    {
        let a = args[i].as_str();
        proof {
            assert(all[i as int] == a@);
            assert(all.take(i + 1) == all.take(i as int).push(a@));
            assert(all.take(i + 1).drop_last() == all.take(i as int));
            lemma_given_push(all.take(i as int), a@, "--list"@);
            lemma_given_push(all.take(i as int), a@, "--library"@);
            lemma_given_push(all.take(i as int), a@, "-l"@);
            lemma_given_push(all.take(i as int), a@, "--orient"@);
        }
        if same(a, "--list") {
            list = true;
        }
        if same(a, "--library") {
            library = true;
        }
        if same(a, "-l") {
            short = true;
        }
        if same(a, "--orient") {
            orient = true;
        }
        if !starts_with(a, "-") {
            push_copy(&mut paths, a);
        }
    }
    assert(all.take(all.len() as int) == all);
    Args { list_only: list, force_library: library || short, orient, paths }
}

proof fn lemma_given_push(args: Seq<Seq<char>>, a: Seq<char>, s: Seq<char>)
    ensures
        given(args.push(a), s) == (given(args, s) || a == s),
{
    let r = args.push(a);
    if given(args, s) {
        let i = choose|i: int| 0 <= i < args.len() && #[trigger] args[i] == s;
        assert(r[i] == s);
    }
    if given(r, s) {
        let i = choose|i: int| 0 <= i < r.len() && #[trigger] r[i] == s;
        if i < args.len() {
            assert(args[i] == s);
        }
    }
    assert(r[args.len() as int] == a);
}

/// The name of the user: `USER`, or `LOGNAME` where that is not set; where it is empty or not
/// set, the last name in `HOME`; else root.
pub open spec fn user_of(
    user: Option<Seq<char>>,
    logname: Option<Seq<char>>,
    home: Option<Seq<char>>,
) -> Seq<char> {
    let named = match user {
        Some(u) => Some(u),
        None => logname,
    };
    let own = match home {
        Some(h) => match file_name_of(h) {
            Some(n) => n,
            None => "root"@,
        },
        None => "root"@,
    };
    match named {
        Some(u) => if u.len() > 0 {
            u
        } else {
            own
        },
        None => own,
    }
}

/// The name of the user.
pub fn username(user: Option<&str>, logname: Option<&str>, home: Option<&str>) -> (r: String)
    ensures
        r@ == user_of(opt_str(user), opt_str(logname), opt_str(home)),
{
    let named = match user {
        Some(u) => Some(u),
        None => logname,
    };
    if let Some(u) = named {
        if !u.is_empty() {
            return copy_of(u);
        }
    }
    match home {
        Some(h) => match file_name(h) {
            Some(n) => n,
            None => copy_of("root"),
        },
        None => copy_of("root"),
    }
}

/// The folders in which media of the user are mounted.
pub fn media_dirs(user: &str) -> (r: Vec<String>)
    ensures
        strs(r@) == seq!["/run/media/"@ + user@, "/media/"@ + user@],
{
    let mut a = copy_of("/run/media/");
    a.append(user);
    let mut b = copy_of("/media/");
    b.append(user);
    let mut r: Vec<String> = Vec::new();
    push_copy(&mut r, a.as_str());
    push_copy(&mut r, b.as_str());
    r
}

/// A place where there may be a camera card.
#[derive(Debug)]
pub struct Mount {
    /// What is mounted.
    pub path: String,
    /// Whether it has a folder `DCIM`.
    pub has_dcim: bool,
}

/// The folder `DCIM` of the first place that has one; a path of nothing where none has.
pub open spec fn card_of(mounts: Seq<Mount>, user: Seq<char>) -> Seq<char>
    decreases mounts.len(),
{
    if mounts.len() == 0 {
        "/run/media/"@ + user + "/NO_CARD/DCIM"@
    } else if mounts[0].has_dcim {
        joined(mounts[0].path@, "DCIM"@)
    } else {
        card_of(mounts.drop_first(), user)
    }
}

/// The folder `DCIM` of a place.
pub fn dcim_in(path: &str) -> (r: String)
    ensures
        r@ == joined(path@, "DCIM"@),
{
    join_path(path, "DCIM")
}

/// The folder `DCIM` of the first place that has one.
pub fn default_dcim(mounts: &Vec<Mount>, user: &str) -> (r: String)
    ensures
        r@ == card_of(mounts@, user@),
{
    let mut i: usize = 0;
    assert(mounts@.skip(0) == mounts@);
    while i < mounts.len()
        invariant
            i <= mounts.len(),
            card_of(mounts@, user@) == card_of(mounts@.skip(i as int), user@),
        decreases mounts.len() - i,
    {
        assert(mounts@.skip(i as int).drop_first() == mounts@.skip(i + 1));
        assert(mounts@.skip(i as int)[0] == mounts@[i as int]);
        if mounts[i].has_dcim {
            return dcim_in(mounts[i].path.as_str());
        }
        i += 1;
    }
    let mut s = copy_of("/run/media/");
    s.append(user);
    s.append("/NO_CARD/DCIM");
    s
}

/// Whether a text of five bytes can be taken apart behind its first and its third byte.
pub open spec fn divisible(t: Seq<char>) -> bool {
    encode_utf8(t).len() == 5 ==> is_char_boundary(encode_utf8(t), 1) && is_char_boundary(
        encode_utf8(t),
        3,
    )
}

/// By how many seconds clocks are ahead where the offset is written `t`: a sign, two digits for
/// the hours and two for the minutes; 0 where it is not written so.
pub open spec fn offset_of(t: Seq<char>) -> int {
    if t.len() == 5 && is_ascii_chars(t) {
        match (i64_text(t.subrange(1, 3)), i64_text(t.subrange(3, 5))) {
            (Some(h), Some(m)) => if t[0] == '-' {
                -(h * 3600 + m * 60)
            } else {
                h * 3600 + m * 60
            },
            _ => 0,
        }
    } else {
        0
    }
}

/// Whether the answer of `date` can be taken apart.
pub fn can_read_offset(text: &str) -> (r: bool)
    ensures
        r == divisible(trim(text@)),
{
    let t = trim_str(text);
    let s = t.as_str();
    let b = s.as_bytes();
    b.len() != 5 || (s.is_char_boundary(1) && s.is_char_boundary(3))
}

proof fn lemma_two_chars(s: Seq<char>, v: i64)
    requires
        s.len() == 2,
        i64_text(s) == Some(v),
    ensures
        -9 <= v <= 99,
{
    reveal_with_fuel(crate::number::digits_value, 3);
}

proof fn lemma_char_from_zero(c: char)
    ensures
        '\0' <= c,
{
}

/// By how many seconds local clocks are ahead, by the answer of `date +%z`.
pub fn detect_offset(text: &str) -> (r: i64)
    requires
        divisible(trim(text@)),
    ensures
        r == offset_of(trim(text@)),
{
    let t = trim_str(text);
    let v = chars_of(t.as_str());
    if v.len() != 5 {
        return 0;
    }
    let mut i: usize = 0;
    while i < 5
        invariant
            i <= 5,
            v@.len() == 5,
            v@ == trim(text@),
            forall|k: int| 0 <= k < i ==> '\0' <= #[trigger] v@[k] <= '\u{7f}',
        decreases 5 - i,
    {
        if v[i] > '\u{7f}' {
            assert(!is_ascii_chars(v@));
            return 0;
        }
        proof {
            lemma_char_from_zero(v@[i as int]);
        }
        i += 1;
    }
    assert(is_ascii_chars(v@));
    let h = parse_i64(string_of(slice_subrange(v.as_slice(), 1, 3)).as_str());
    let m = parse_i64(string_of(slice_subrange(v.as_slice(), 3, 5)).as_str());
    match (h, m) {
        (Some(h), Some(m)) => {
            proof {
                lemma_two_chars(v@.subrange(1, 3), h);
                lemma_two_chars(v@.subrange(3, 5), m);
            }
            let n: i64 = h * 3600 + m * 60;
            if v[0] == '-' {
                -n
            } else {
                n
            }
        },
        _ => 0,
    }
}

/// Whether the library is opened: where that is asked for, and where there is no card or no
/// file on it.
pub fn opens_library(force: bool, card_there: bool, card_files: usize) -> (r: bool)
    ensures
        r == (force || !card_there || card_files == 0),
{
    force || !card_there || card_files == 0
}

/// What the program says at its start.
#[derive(Clone, Copy, PartialEq, Eq, Structural, Debug)]
pub enum Remark {
    /// A card is being read.
    Card,
    /// There is nothing on the card.
    EmptyCard,
    /// There is no card.
    NoCard,
    /// The library is being read.
    Library,
    /// There is nothing in the library.
    EmptyLibrary,
}

/// What the program says at its start of the card or the library at `path`.
pub open spec fn remark_text(r: Remark, path: Seq<char>) -> Seq<char> {
    match r {
        Remark::Card => "Scanning card "@ + path + " …"@,
        Remark::EmptyCard => "Card has no images — opening ~/Pictures library instead."@,
        Remark::NoCard => "No card at "@ + path + " — opening ~/Pictures library instead."@,
        Remark::Library => "Scanning library "@ + path + " …"@,
        Remark::EmptyLibrary => "No photo folders found under "@ + path + "."@,
    }
}

/// What the program says at its start.
pub fn remark(r: Remark, path: &str) -> (s: String)
    ensures
        s@ == remark_text(r, path@),
{
    match r {
        Remark::Card => {
            let mut s = copy_of("Scanning card ");
            s.append(path);
            s.append(" …");
            s
        },
        Remark::EmptyCard => copy_of("Card has no images — opening ~/Pictures library instead."),
        Remark::NoCard => {
            let mut s = copy_of("No card at ");
            s.append(path);
            s.append(" — opening ~/Pictures library instead.");
            s
        },
        Remark::Library => {
            let mut s = copy_of("Scanning library ");
            s.append(path);
            s.append(" …");
            s
        },
        Remark::EmptyLibrary => {
            let mut s = copy_of("No photo folders found under ");
            s.append(path);
            s.append(".");
            s
        },
    }
}

/// The line that tells the orientation of the image at `path`.
pub fn orient_line(orientation: u8, path: &str) -> (s: String)
    ensures
        s@ == dec(orientation as nat) + "\t"@ + path@,
{
    let mut s = decimal(orientation as u64);
    s.append("\t");
    s.append(path);
    s
}

/// The line in front of the listing of `n` occasions.
pub fn list_header(library: bool, n: usize, pictures: &str, gap_hours: i64) -> (s: String)
    requires
        gap_hours >= 0,
    ensures
        s@ == if library {
            dec(n as nat) + " folders under "@ + pictures@ + ":\n"@
        } else {
            dec(n as nat) + " clusters ("@ + dec(gap_hours as nat) + "h gap):\n"@
        },
{
    let mut s = decimal(n as u64);
    if library {
        s.append(" folders under ");
        s.append(pictures);
        s.append(":\n");
    } else {
        s.append(" clusters (");
        s.append(decimal(gap_hours as u64).as_str());
        s.append("h gap):\n");
    }
    s
}

/// The line of the occasion `c`, the `k`-th one, in the listing.
pub open spec fn list_text(k: nat, c: Cluster, offset: i64) -> Seq<char> {
    let stars = rated_shots(c.ratings@, 1).len();
    pad_left(dec(k), 3) + ". "@ + date_text(c.start as int, offset as int) + " "@ + time_text(
        c.start as int,
        offset as int,
    ) + "-"@ + time_text(c.end as int, offset as int) + "  "@ + pad_left(
        dec(photo_shots(c.files@).len()),
        3,
    ) + " pics "@ + pad_left(dec(count_of(c.files@, |f: FileItem| movie(f))), 2) + " mov  "@
        + pad_left(size_text(total(c.files@)), 9) + "  "@ + pad_right(
        if c.suggested {
            "[existing]"@
        } else {
            "[new]"@
        },
        10,
    ) + " "@ + trim_end(c.target@) + (if stars > 0 {
        "  ★"@ + dec(stars)
    } else {
        ""@
    }) + (if c.removed > 0 {
        "  ✗"@ + dec(c.removed as nat)
    } else {
        ""@
    })
}

/// The line of the occasion `c`, the `k`-th one, in the listing.
pub fn list_line(k: usize, c: &Cluster, offset: i64) -> (s: String)
    requires
        showable(*c, offset),
    ensures
        s@ == list_text(k as nat, *c, offset),
{
    let mut s = padded_left(decimal(k as u64).as_str(), 3);
    s.append(". ");
    s.append(c.date_str(offset).as_str());
    s.append(" ");
    s.append(fmt_time(c.start, offset).as_str());
    s.append("-");
    s.append(fmt_time(c.end, offset).as_str());
    s.append("  ");
    s.append(padded_left(decimal(c.pic_count() as u64).as_str(), 3).as_str());
    s.append(" pics ");
    s.append(padded_left(decimal(c.movie_count() as u64).as_str(), 2).as_str());
    s.append(" mov  ");
    s.append(padded_left(human_size(c.total_size()).as_str(), 9).as_str());
    s.append("  ");
    s.append(
        padded_right(
            if c.suggested {
                "[existing]"
            } else {
                "[new]"
            },
            10,
        ).as_str(),
    );
    s.append(" ");
    s.append(trim_end_str(c.target.as_str()).as_str());
    let stars: usize = c.rated_count(1);
    if stars > 0 {
        let mut t = copy_of("  ★");
        t.append(decimal(stars as u64).as_str());
        s.append(t.as_str());
    } else {
        s.append("");
    }
    if c.removed > 0 {
        let mut t = copy_of("  ✗");
        t.append(decimal(c.removed as u64).as_str());
        s.append(t.as_str());
    } else {
        s.append("");
    }
    s
}

/// The operands are the arguments that do not begin with a minus sign, in their order.
pub proof fn lemma_operands(args: Seq<Seq<char>>)
    ensures
        operands(args) == args.filter(|a: Seq<char>| a.len() == 0 || a[0] != '-'),
    decreases args.len(),
{
    reveal_strlit("-");
    reveal(Seq::filter);
    let keep = |a: Seq<char>| a.len() == 0 || a[0] != '-';
    if args.len() > 0 {
        let l = args.last();
        lemma_operands(args.drop_last());
        assert(keep(l) == !"-"@.is_prefix_of(l)) by {
            if l.len() > 0 && l[0] == '-' {
                assert("-"@ == l.take(1));
            }
            if "-"@.is_prefix_of(l) {
                assert("-"@[0] == '-');
                assert(l[0] == '-');
            }
        }
    }
}

/// The card is the first of the mounted media that has a folder of pictures; where none has,
/// there is none.
pub proof fn lemma_first_card(mounts: Seq<Mount>, user: Seq<char>, i: int)
    requires
        forall|j: int| 0 <= j < i && j < mounts.len() ==> !(#[trigger] mounts[j]).has_dcim,
        0 <= i <= mounts.len(),
        i < mounts.len() ==> mounts[i].has_dcim,
    ensures
        card_of(mounts, user) == if i < mounts.len() {
            joined(mounts[i].path@, "DCIM"@)
        } else {
            "/run/media/"@ + user + "/NO_CARD/DCIM"@
        },
    decreases mounts.len(),
{
    if mounts.len() > 0 && i > 0 {
        let rest = mounts.drop_first();
        assert(!mounts[0].has_dcim);
        assert forall|j: int| 0 <= j < i - 1 && j < rest.len() implies !(#[trigger] rest[j]).has_dcim by {
            assert(rest[j] == mounts[j + 1]);
        }
        lemma_first_card(rest, user, i - 1);
    }
}

/// The offset of the clock is read as a sign, two digits of hours and two of minutes; what has
/// another length is no offset.
pub proof fn lemma_offset_read(h: int, m: int, t: Seq<char>)
    requires
        0 <= h <= 99,
        0 <= m <= 99,
    ensures
        offset_of(seq!['+'] + two_digits(h) + two_digits(m)) == 3600 * h + 60 * m,
        offset_of(seq!['-'] + two_digits(h) + two_digits(m)) == -(3600 * h + 60 * m),
        t.len() != 5 ==> offset_of(t) == 0,
{
    let a = two_digits(h);
    let b = two_digits(m);
    lemma_two_digits_read(h);
    lemma_two_digits_read(m);
    let p = seq!['+'] + a + b;
    let n = seq!['-'] + a + b;
    assert(p.subrange(1, 3) == a && p.subrange(3, 5) == b);
    assert(n.subrange(1, 3) == a && n.subrange(3, 5) == b);
    assert forall|i: int| 0 <= i < 5 implies '\0' <= #[trigger] p[i] <= '\u{7f}' && '\0' <= n[i]
        <= '\u{7f}' by {
        if i == 1 || i == 2 {
            assert(p[i] == a[i - 1] && n[i] == a[i - 1]);
        }
        if i >= 3 {
            assert(p[i] == b[i - 3] && n[i] == b[i - 3]);
        }
    }
    assert forall|i: int| 0 <= i < 5 implies '\0' <= #[trigger] n[i] <= '\u{7f}' by {
        assert('\0' <= p[i]);
    }
    assert(is_ascii_chars(p));
    assert(is_ascii_chars(n));
}

proof fn lemma_two_digits_read(n: int)
    requires
        0 <= n <= 99,
    ensures
        i64_text(two_digits(n)) == Some(n as i64),
        is_digit(two_digits(n)[0]),
        is_digit(two_digits(n)[1]),
{
    let s = two_digits(n);
    reveal_with_fuel(digits_value, 4);
    assert(s.drop_last() == seq![s[0]]);
    assert(s.drop_last().drop_last() == Seq::<char>::empty());
    assert(digits_value(s) == (s[0] as nat - '0' as nat) * 10 + (s[1] as nat - '0' as nat));
    assert(all_digits(s));
}

/// The user is the one that the environment names, and where it names none, or an empty one, the
/// home directory is called by the name; without that it is root.
pub proof fn lemma_user(user: Seq<char>, logname: Option<Seq<char>>, d: Seq<char>, n: Seq<char>)
    requires
        is_name(n),
    ensures
        user.len() > 0 ==> user_of(Some(user), logname, Some(joined(d, n))) == user && user_of(
            None,
            Some(user),
            Some(joined(d, n)),
        ) == user,
        user_of(None, None, Some(joined(d, n))) == n,
        user_of(Some(Seq::<char>::empty()), logname, Some(joined(d, n))) == n,
        user_of(None, None, None) == "root"@,
{
    lemma_joined(d, n);
}

/// A line of the list tells of an occasion its number, its date and times, how many pictures and
/// movies it has, its size and its name.
pub proof fn lemma_list_tells(k: nat, c: Cluster, offset: i64)
    ensures
        ({
            let t = list_text(k, c, offset);
            &&& has_text(t, dec(k) + ". "@ + date_text(c.start as int, offset as int))
            &&& has_text(
                t,
                time_text(c.start as int, offset as int) + "-"@ + time_text(
                    c.end as int,
                    offset as int,
                ),
            )
            &&& has_text(t, dec(photo_shots(c.files@).len()) + " pics "@)
            &&& has_text(t, dec(count_of(c.files@, |f: FileItem| movie(f))) + " mov  "@)
            &&& has_text(t, size_text(total(c.files@)) + "  "@)
            &&& has_text(t, trim_end(c.target@))
        }),
{
    let a = date_text(c.start as int, offset as int);
    let b = time_text(c.start as int, offset as int);
    let e = time_text(c.end as int, offset as int);
    let pics = dec(photo_shots(c.files@).len());
    let movs = dec(count_of(c.files@, |f: FileItem| movie(f)));
    let size = size_text(total(c.files@));
    let kind = pad_right(
        if c.suggested {
            "[existing]"@
        } else {
            "[new]"@
        },
        10,
    );
    let stars = rated_shots(c.ratings@, 1).len();
    let x = if stars > 0 {
        "  ★"@ + dec(stars)
    } else {
        ""@
    };
    let y = if c.removed > 0 {
        "  ✗"@ + dec(c.removed as nat)
    } else {
        ""@
    };
    let none = Seq::<char>::empty();
    let name = trim_end(c.target@);
    let p1 = pad_left(dec(k), 3) + ". "@ + a;
    let p2 = p1 + " "@ + b + "-"@ + e;
    let p3 = p2 + "  "@ + pad_left(pics, 3) + " pics "@;
    let p4 = p3 + pad_left(movs, 2) + " mov  "@;
    let p5 = p4 + pad_left(size, 9) + "  "@;
    let p6 = p5 + kind + " "@ + name;
    let t = list_text(k, c, offset);
    assert(t == p6 + x + y);
    let u1 = dec(k) + ". "@ + a;
    lemma_triple(fill(' ', 3 - dec(k).len()), dec(k), ". "@, a);
    lemma_triple(p1 + " "@, b, "-"@, e);
    lemma_pair(p2 + "  "@, fill(' ', 3 - pics.len()), pics, " pics "@);
    lemma_pair(p3, fill(' ', 2 - movs.len()), movs, " mov  "@);
    lemma_pair(p4, fill(' ', 9 - size.len()), size, "  "@);
    lemma_text_within(p5 + kind + " "@, name, none, p6);
    let u2 = b + "-"@ + e;
    lemma_grow(p1, " "@, u1);
    lemma_grow(p1 + " "@, b, u1);
    lemma_grow(p1 + " "@ + b, "-"@, u1);
    lemma_grow(p1 + " "@ + b + "-"@, e, u1);
    lemma_grow_three(p2, "  "@, pad_left(pics, 3), " pics "@, u1);
    lemma_grow_three(p2, "  "@, pad_left(pics, 3), " pics "@, u2);
    lemma_told_on(p3, pad_left(movs, 2), " mov  "@, u1, u2, pics + " pics "@);
    lemma_told_on(p4, pad_left(size, 9), "  "@, u1, u2, pics + " pics "@);
    let u4 = movs + " mov  "@;
    lemma_told_on(p4, pad_left(size, 9), "  "@, u4, u4, u4);
    let u5 = size + "  "@;
    lemma_grow_three(p5, kind, " "@, name, u1);
    lemma_grow_three(p5, kind, " "@, name, u2);
    lemma_grow_three(p5, kind, " "@, name, pics + " pics "@);
    lemma_grow_three(p5, kind, " "@, name, u4);
    lemma_grow_three(p5, kind, " "@, name, u5);
    lemma_told_on(p6, x, y, u1, u2, pics + " pics "@);
    lemma_told_on(p6, x, y, u4, u5, name);
}

proof fn lemma_pair(q: Seq<char>, f: Seq<char>, a: Seq<char>, b: Seq<char>)
    ensures
        has_text(q + (f + a) + b, a + b),
{
    let none = Seq::<char>::empty();
    lemma_text_within(q + f, a + b, none, q + (f + a) + b);
}

proof fn lemma_triple(q: Seq<char>, a: Seq<char>, b: Seq<char>, c: Seq<char>)
    ensures
        has_text(q + a + b + c, a + b + c),
{
    let none = Seq::<char>::empty();
    lemma_text_within(q, a + b + c, none, q + a + b + c);
}

proof fn lemma_grow(s: Seq<char>, more: Seq<char>, p: Seq<char>)
    requires
        has_text(s, p),
    ensures
        has_text(s + more, p),
{
    lemma_has_text(s, p);
    let (a, b) = choose|a: Seq<char>, b: Seq<char>| s == #[trigger] (a + p + b);
    lemma_text_within(a, p, b + more, s + more);
}

proof fn lemma_grow_three(s: Seq<char>, x: Seq<char>, y: Seq<char>, z: Seq<char>, p: Seq<char>)
    requires
        has_text(s, p),
    ensures
        has_text(s + x + y + z, p),
{
    lemma_grow(s, x, p);
    lemma_grow(s + x, y, p);
    lemma_grow(s + x + y, z, p);
}

proof fn lemma_told_on(
    s: Seq<char>,
    x: Seq<char>,
    y: Seq<char>,
    p: Seq<char>,
    q: Seq<char>,
    r: Seq<char>,
)
    requires
        has_text(s, p),
        has_text(s, q),
        has_text(s, r),
    ensures
        has_text(s + x + y, p),
        has_text(s + x + y, q),
        has_text(s + x + y, r),
{
    lemma_grow(s, x, p);
    lemma_grow(s + x, y, p);
    lemma_grow(s, x, q);
    lemma_grow(s + x, y, q);
    lemma_grow(s, x, r);
    lemma_grow(s + x, y, r);
}

/// A remark on a place names it.
pub proof fn lemma_remark_names_place(r: Remark, path: Seq<char>)
    ensures
        r != Remark::EmptyCard ==> has_text(remark_text(r, path), path),
{
    match r {
        Remark::Card => lemma_text_within("Scanning card "@, path, " …"@, remark_text(r, path)),
        Remark::EmptyCard => {},
        Remark::NoCard => lemma_text_within(
            "No card at "@,
            path,
            " — opening ~/Pictures library instead."@,
            remark_text(r, path),
        ),
        Remark::Library => lemma_text_within("Scanning library "@, path, " …"@, remark_text(r, path)),
        Remark::EmptyLibrary => lemma_text_within(
            "No photo folders found under "@,
            path,
            "."@,
            remark_text(r, path),
        ),
    }
}

} // verus!
