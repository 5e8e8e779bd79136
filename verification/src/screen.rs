//! What the screen says: texts and their colours.
use crate::calendar::{date_text, fmt_time, time_fits, time_text};
use crate::files::{count_of, movie, FileItem};
use crate::naming::{is_named, named};
use crate::number::{dec, decimal, human_size, lemma_dec_reads_back, size_text};
use crate::occasion::{ext_text, photo_shots, rated_shots, total, Cluster, UploadMode};
use crate::paths::{file_name, file_name_of};
use crate::plan::{
    assigned, assigned_file_count, assigned_files, count_files, file_count, lemma_plan_len,
    lemma_plan_moves, lemma_plan_uploads, marked, moves, plan, unnamed_count, Task,
};
use crate::progress::Progress;
use crate::state::{has_selected, sel, selected, App, Mode};
use crate::text::{
    copy_of, fill, has_text, join, join_strings, lemma_text_within, pad_left, pad_right,
    padded_left, padded_right, push_copy, strs, trim_end, trim_end_str,
};
use vstd::prelude::*;

verus! {

/// A colour.
#[derive(Clone, Copy, PartialEq, Eq, Structural, Debug)]
pub enum Color {
    Black,
    Red,
    Green,
    Yellow,
    Blue,
    Magenta,
    Cyan,
    DarkGray,
}

/// How a text looks.
#[derive(Clone, Copy, PartialEq, Eq, Structural, Debug)]
pub struct Style {
    pub fg: Option<Color>,
    pub bg: Option<Color>,
    pub bold: bool,
}

/// A text and how it looks.
#[derive(Debug)]
pub struct Span {
    pub text: String,
    pub style: Style,
}

/// What a span says.
pub struct Ink {
    pub text: Seq<char>,
    pub style: Style,
}

impl View for Span {
    type V = Ink;

    open spec fn view(&self) -> Ink {
        Ink { text: self.text@, style: self.style }
    }
}

/// What each of the spans says.
pub open spec fn inks(v: Seq<Span>) -> Seq<Ink> {
    v.map_values(|s: Span| s@)
}

/// What each span of each line says.
pub open spec fn ink_lines(v: Seq<Vec<Span>>) -> Seq<Seq<Ink>> {
    v.map_values(|l: Vec<Span>| inks(l@))
}

/// The plain look.
pub open spec fn plain() -> Style {
    Style { fg: None, bg: None, bold: false }
}

/// The look of a colour.
pub open spec fn tinted(c: Color) -> Style {
    Style { fg: Some(c), bg: None, bold: false }
}

/// The look `s` in bold.
pub open spec fn bold(s: Style) -> Style {
    Style { bold: true, ..s }
}

/// A text in a plain look.
pub open spec fn raw(t: Seq<char>) -> Ink {
    Ink { text: t, style: plain() }
}

/// A text in a colour.
pub open spec fn ink(t: Seq<char>, c: Color) -> Ink {
    Ink { text: t, style: tinted(c) }
}

/// A text in a colour and bold.
pub open spec fn bold_ink(t: Seq<char>, c: Color) -> Ink {
    Ink { text: t, style: bold(tinted(c)) }
}

/// The look of a colour, perhaps bold.
fn look(c: Color, strong: bool) -> (s: Style)
    ensures
        s == if strong {
            bold(tinted(c))
        } else {
            tinted(c)
        },
{
    Style { fg: Some(c), bg: None, bold: strong }
}

/// Adds a span.
fn add_span(v: &mut Vec<Span>, text: String, style: Style)
    ensures
        inks(final(v)@) == inks(old(v)@).push(Ink { text: text@, style }),
{
    push_span(v, Span { text, style });
}

/// Adds a span.
fn push_span(v: &mut Vec<Span>, s: Span)
    ensures
        inks(final(v)@) == inks(old(v)@).push(s@),
{
    let ghost before = v@;
    v.push(s);
    assert(inks(v@) == inks(before).push(s@));
}

/// A span in a plain look.
fn raw_span(text: &str) -> (s: Span)
    ensures
        s@ == raw(text@),
{
    Span { text: copy_of(text), style: Style { fg: None, bg: None, bold: false } }
}

/// Adds a span in a plain look.
fn add_raw(v: &mut Vec<Span>, text: String)
    ensures
        inks(final(v)@) == inks(old(v)@).push(raw(text@)),
{
    add_span(v, text, Style { fg: None, bg: None, bold: false });
}

/// The header.
pub open spec fn header_inks(a: App) -> Seq<Ink> {
    let unit = if a.library {
        "folders"@
    } else {
        "clusters"@
    };
    let head = seq![
        Ink {
            text: " wpic "@,
            style: Style { fg: Some(Color::Black), bg: Some(Color::Cyan), bold: true },
        },
        raw(
            "  "@ + dec(a.clusters@.len()) + " "@ + unit + " · "@ + dec(file_count(a.clusters@))
                + " files · "@,
        ),
        ink("★≥"@ + dec(a.min_rating as nat) + " "@, Color::Yellow),
        raw("([ ]) · "@),
    ];
    if a.library {
        head + seq![
            bold_ink("LIBRARY"@, Color::Cyan),
            raw("  "@ + a.pictures@ + "  (↥ "@ + a.dest@ + ")"@),
        ]
    } else {
        head + seq![
            raw("action="@),
            if a.do_move {
                bold_ink("MOVE"@, Color::Red)
            } else {
                bold_ink("COPY"@, Color::Green)
            },
            raw("  ->  "@ + a.pictures@),
        ]
    }
}

/// The header; `files` is the number of all files.
pub fn header(a: &App, files: usize) -> (r: Vec<Span>)
    requires
        files == file_count(a.clusters@),
    ensures
        inks(r@) == header_inks(*a),
{
    let mut r: Vec<Span> = Vec::new();
    assert(inks(r@) == Seq::<Ink>::empty());
    add_span(
        &mut r,
        copy_of(" wpic "),
        Style { fg: Some(Color::Black), bg: Some(Color::Cyan), bold: true },
    );
    let mut t = copy_of("  ");
    t.append(decimal(a.clusters.len() as u64).as_str());
    t.append(" ");
    t.append(
        if a.library {
            "folders"
        } else {
            "clusters"
        },
    );
    t.append(" · ");
    t.append(decimal(files as u64).as_str());
    t.append(" files · ");
    add_raw(&mut r, t);
    let mut s = copy_of("★≥");
    s.append(decimal(a.min_rating as u64).as_str());
    s.append(" ");
    add_span(&mut r, s, look(Color::Yellow, false));
    add_raw(&mut r, copy_of("([ ]) · "));
    if a.library {
        add_span(&mut r, copy_of("LIBRARY"), look(Color::Cyan, true));
        let mut p = copy_of("  ");
        p.append(a.pictures.as_str());
        p.append("  (↥ ");
        p.append(a.dest.as_str());
        p.append(")");
        add_raw(&mut r, p);
    } else {
        add_raw(&mut r, copy_of("action="));
        if a.do_move {
            add_span(&mut r, copy_of("MOVE"), look(Color::Red, true));
        } else {
            add_span(&mut r, copy_of("COPY"), look(Color::Green, true));
        }
        let mut p = copy_of("  ->  ");
        p.append(a.pictures.as_str());
        add_raw(&mut r, p);
    }
    assert(inks(r@) == header_inks(*a));
    r
}

/// Whether what is shown of an occasion can be computed: its times and its size.
pub open spec fn showable(c: Cluster, offset: i64) -> bool {
    &&& time_fits(c.start, offset)
    &&& time_fits(c.end, offset)
    &&& total(c.files@) <= u64::MAX
}

/// Whether what is shown of an occasion can be computed.
pub fn can_show(c: &Cluster, offset: i64) -> (r: bool)
    ensures
        r == showable(*c, offset),
{
    let a: i128 = c.start as i128 + offset as i128;
    let b: i128 = c.end as i128 + offset as i128;
    i64::MIN as i128 <= a && a <= i64::MAX as i128 && i64::MIN as i128 <= b && b <= i64::MAX as i128
        && c.size_fits()
}

/// The mark in front of an occasion, and its look.
pub open spec fn mark_of(c: Cluster, library: bool) -> Ink {
    if c.skip {
        ink(
            if library {
                "····"@
            } else {
                "STAY"@
            },
            Color::DarkGray,
        )
    } else if !is_named(c.target@) {
        bold_ink("????"@, Color::Yellow)
    } else if c.suggested {
        ink(" +> "@, Color::Blue)
    } else {
        ink(" -> "@, Color::Green)
    }
}

/// The name that is shown of an occasion.
pub open spec fn shown_name(c: Cluster, library: bool) -> Seq<char> {
    if c.skip {
        if library {
            "(empty)"@
        } else {
            "(won't move)"@
        }
    } else {
        trim_end(c.target@)
    }
}

/// The look of the name of an occasion: green once its folder is known to be on the Drive.
pub open spec fn name_style(c: Cluster, library: bool) -> Style {
    if c.on_drive == Some(true) && !c.skip {
        bold(tinted(Color::Green))
    } else {
        bold(mark_of(c, library).style)
    }
}

/// The day and the times of an occasion.
pub open spec fn span_text(c: Cluster, offset: i64) -> Seq<char> {
    date_text(c.start as int, offset as int) + "  "@ + time_text(c.start as int, offset as int)
        + "-"@ + time_text(c.end as int, offset as int)
}

/// The number of rated shots of an occasion, where there are any.
pub open spec fn star_ink(n: nat) -> Ink {
    if n > 0 {
        ink("  ★"@ + dec(n), Color::Yellow)
    } else {
        raw(""@)
    }
}

/// What is uploaded of an occasion with `n` rated shots.
pub open spec fn up_ink(up: UploadMode, n: nat) -> Ink {
    match up {
        UploadMode::No => raw(""@),
        UploadMode::All => ink("  ↥ all"@, Color::Cyan),
        UploadMode::Photos => ink("  ↥ pics"@, Color::Cyan),
        UploadMode::Rated => ink("  ↥ ★"@ + dec(n) + " pics"@, Color::Cyan),
    }
}

/// The number of removed shots of an occasion, where there are any.
pub open spec fn removed_ink(n: nat) -> Ink {
    if n > 0 {
        ink("  ✗"@ + dec(n), Color::Red)
    } else {
        raw(""@)
    }
}

/// The number of movies of an occasion, where there are any.
pub open spec fn movies_ink(n: nat) -> Ink {
    if n > 0 {
        ink(pad_left(dec(n), 2) + "m "@, Color::Yellow)
    } else {
        raw("    "@)
    }
}

/// The line of an occasion in the list.
pub open spec fn row_inks(c: Cluster, library: bool, min: u8, offset: i64) -> Seq<Ink> {
    let mark = mark_of(c, library);
    let stars = rated_shots(c.ratings@, min).len();
    seq![
        Ink { text: " "@ + mark.text + " "@, style: mark.style },
        ink(pad_left(dec(photo_shots(c.files@).len()), 3) + "p "@, Color::Magenta),
        movies_ink(count_of(c.files@, |f: FileItem| movie(f))),
        ink(pad_left(size_text(total(c.files@)), 9) + " "@, Color::Blue),
        raw(pad_right(span_text(c, offset), 24) + " "@),
        Ink { text: shown_name(c, library), style: name_style(c, library) },
        star_ink(stars),
        up_ink(c.up, stars),
        removed_ink(c.removed as nat),
    ]
}

/// The mark in front of an occasion.
fn mark(c: &Cluster, library: bool) -> (s: Span)
    ensures
        s@ == mark_of(*c, library),
{
    if c.skip {
        Span {
            text: if library {
                copy_of("····")
            } else {
                copy_of("STAY")
            },
            style: look(Color::DarkGray, false),
        }
    } else if !named(c.target.as_str()) {
        Span { text: copy_of("????"), style: look(Color::Yellow, true) }
    } else if c.suggested {
        Span { text: copy_of(" +> "), style: look(Color::Blue, false) }
    } else {
        Span { text: copy_of(" -> "), style: look(Color::Green, false) }
    }
}

/// The day and the times of an occasion.
fn span_of(c: &Cluster, offset: i64) -> (s: String)
    requires
        showable(*c, offset),
    ensures
        s@ == span_text(*c, offset),
{
    let mut s = c.date_str(offset);
    s.append("  ");
    s.append(fmt_time(c.start, offset).as_str());
    s.append("-");
    s.append(fmt_time(c.end, offset).as_str());
    s
}

/// `n` at the right end of a column of `w` characters.
fn column(n: usize, w: usize) -> (s: String)
    ensures
        s@ == pad_left(dec(n as nat), w as int),
{
    padded_left(decimal(n as u64).as_str(), w)
}

/// The number of movies of an occasion.
fn movies_span(n: usize) -> (s: Span)
    ensures
        s@ == movies_ink(n as nat),
{
    if n > 0 {
        let mut t = column(n, 2);
        t.append("m ");
        Span { text: t, style: look(Color::Yellow, false) }
    } else {
        raw_span("    ")
    }
}

/// The name that is shown of an occasion, and its look; `m` is its mark.
fn name_span(c: &Cluster, library: bool, m: &Span) -> (s: Span)
    requires
        m@ == mark_of(*c, library),
    ensures
        s@ == (Ink { text: shown_name(*c, library), style: name_style(*c, library) }),
{
    let text = if c.skip {
        if library {
            copy_of("(empty)")
        } else {
            copy_of("(won't move)")
        }
    } else {
        trim_end_str(c.target.as_str())
    };
    let style = if c.on_drive == Some(true) && !c.skip {
        look(Color::Green, true)
    } else {
        Style { fg: m.style.fg, bg: m.style.bg, bold: true }
    };
    Span { text, style }
}

/// The number of rated shots of an occasion.
fn star_span(n: usize) -> (s: Span)
    ensures
        s@ == star_ink(n as nat),
{
    if n > 0 {
        let mut t = copy_of("  ★");
        t.append(decimal(n as u64).as_str());
        Span { text: t, style: look(Color::Yellow, false) }
    } else {
        raw_span("")
    }
}

/// What is uploaded of an occasion with `n` rated shots.
fn up_span(up: UploadMode, n: usize) -> (s: Span)
    ensures
        s@ == up_ink(up, n as nat),
{
    match up {
        UploadMode::No => raw_span(""),
        UploadMode::All => Span { text: copy_of("  ↥ all"), style: look(Color::Cyan, false) },
        UploadMode::Photos => Span { text: copy_of("  ↥ pics"), style: look(Color::Cyan, false) },
        UploadMode::Rated => {
            let mut t = copy_of("  ↥ ★");
            t.append(decimal(n as u64).as_str());
            t.append(" pics");
            Span { text: t, style: look(Color::Cyan, false) }
        },
    }
}

/// The number of removed shots of an occasion.
fn removed_span(n: usize) -> (s: Span)
    ensures
        s@ == removed_ink(n as nat),
{
    if n > 0 {
        let mut t = copy_of("  ✗");
        t.append(decimal(n as u64).as_str());
        Span { text: t, style: look(Color::Red, false) }
    } else {
        raw_span("")
    }
}

/// The line of an occasion in the list.
pub fn row(c: &Cluster, library: bool, min: u8, offset: i64) -> (r: Vec<Span>)
    requires
        showable(*c, offset),
    ensures
        inks(r@) == row_inks(*c, library, min, offset),
{
    let m = mark(c, library);
    let stars: usize = c.rated_count(min);
    let mut t = copy_of(" ");
    t.append(m.text.as_str());
    t.append(" ");
    let mut p = column(c.pic_count(), 3);
    p.append("p ");
    let mut z = padded_left(human_size(c.total_size()).as_str(), 9);
    z.append(" ");
    let mut d = padded_right(span_of(c, offset).as_str(), 24);
    d.append(" ");
    let mut r: Vec<Span> = Vec::new();
    assert(inks(r@) == Seq::<Ink>::empty());
    add_span(&mut r, t, m.style);
    add_span(&mut r, p, look(Color::Magenta, false));
    push_span(&mut r, movies_span(c.movie_count()));
    add_span(&mut r, z, look(Color::Blue, false));
    add_raw(&mut r, d);
    push_span(&mut r, name_span(c, library, &m));
    push_span(&mut r, star_span(stars));
    push_span(&mut r, up_span(c.up, stars));
    push_span(&mut r, removed_span(c.removed));
    assert(inks(r@) == row_inks(*c, library, min, offset));
    r
}

/// The title of the list: the keys.
pub open spec fn title_text(library: bool) -> Seq<char> {
    if library {
        " ~/Pictures · ↵ cull · s starred · f rated≥bar(1-5) · m movies · w wcut · R removed · T trash✗ · u upload · C drive · r rename · x · q "@
    } else {
        " occasions · ↵ cull · s starred · f rated≥bar(1-5) · m movies · w wcut · R removed · u upload · C drive · r name · d don't-move · a · x "@
    }
}

/// The title of the list: the keys.
pub fn list_title(library: bool) -> (s: &'static str)
    ensures
        s@ == title_text(library),
{
    if library {
        " ~/Pictures · ↵ cull · s starred · f rated≥bar(1-5) · m movies · w wcut · R removed · T trash✗ · u upload · C drive · r rename · x · q "
    } else {
        " occasions · ↵ cull · s starred · f rated≥bar(1-5) · m movies · w wcut · R removed · u upload · C drive · r name · d don't-move · a · x "
    }
}

/// The first six of `files`.
pub open spec fn first_six(files: Seq<FileItem>) -> Seq<FileItem> {
    files.take(
        if files.len() < 6 {
            files.len() as int
        } else {
            6
        },
    )
}

/// The names of the first six files.
pub open spec fn sample_names(files: Seq<FileItem>) -> Seq<Seq<char>> {
    first_six(files).map_values(|f: FileItem| file_name_of(f.path@)->0)
}

/// Whether the first six files have names.
pub open spec fn has_samples(files: Seq<FileItem>) -> bool {
    forall|i: int|
        0 <= i < first_six(files).len() ==> file_name_of((#[trigger] files[i]).path@) is Some
}

/// Whether the first six files have names.
pub fn can_sample(files: &Vec<FileItem>) -> (r: bool)
    ensures
        r == has_samples(files@),
{
    let n: usize = if files.len() < 6 {
        files.len()
    } else {
        6
    };
    for i in 0..n
        invariant
            n == first_six(files@).len(),
            n <= files.len(),
            forall|k: int| 0 <= k < i ==> file_name_of((#[trigger] files@[k]).path@) is Some,
    {
        match file_name(files[i].path.as_str()) {
            Some(_) => {},
            None => {
                return false;
            },
        }
    }
    true
}

/// What the detail says of an occasion: its times and the kinds of its files, and the names of
/// the first ones.
pub open spec fn detail_of(c: Cluster, offset: i64) -> Seq<Seq<char>> {
    seq![
        "span: "@ + date_text(c.start as int, offset as int) + " "@ + time_text(
            c.start as int,
            offset as int,
        ) + " → "@ + time_text(c.end as int, offset as int) + "    types: "@ + ext_text(c.files@),
        "files: "@ + join(sample_names(c.files@), ", "@) + if c.files@.len() > 6 {
            "  …(+"@ + dec((c.files@.len() - 6) as nat) + ")"@
        } else {
            ""@
        },
    ]
}

/// The names of the first six files.
fn samples(files: &Vec<FileItem>) -> (r: Vec<String>)
    requires
        has_samples(files@),
    ensures
        strs(r@) == sample_names(files@),
{
    let n: usize = if files.len() < 6 {
        files.len()
    } else {
        6
    };
    let ghost name = |f: FileItem| file_name_of(f.path@)->0;
    let mut r: Vec<String> = Vec::new();
    for i in 0..n
        invariant
            n == first_six(files@).len(),
            n <= files.len(),
            has_samples(files@),
            name == (|f: FileItem| file_name_of(f.path@)->0),
            strs(r@) == files@.take(i as int).map_values(name),
    {
        match file_name(files[i].path.as_str()) {
            Some(n) => {
                push_copy(&mut r, n.as_str());
            },
            None => {},
        }
        proof {
            assert(files@.take(i + 1).map_values(name) == files@.take(i as int).map_values(
                name,
            ).push(name(files@[i as int])));
        }
    }
    r
}

/// What the detail says of the selected occasion.
pub fn detail(c: Option<&Cluster>, offset: i64) -> (r: Vec<String>)
    requires
        c is Some ==> showable(*c->0, offset) && has_samples(c->0.files@),
    ensures
        strs(r@) == match c {
            Some(x) => detail_of(*x, offset),
            None => seq!["no files"@],
        },
{
    let mut r: Vec<String> = Vec::new();
    assert(strs(r@) == Seq::<Seq<char>>::empty());
    match c {
        Some(c) => {
            let mut a = copy_of("span: ");
            a.append(c.date_str(offset).as_str());
            a.append(" ");
            a.append(fmt_time(c.start, offset).as_str());
            a.append(" → ");
            a.append(fmt_time(c.end, offset).as_str());
            a.append("    types: ");
            a.append(c.ext_summary().as_str());
            push_copy(&mut r, a.as_str());
            let mut b = copy_of("files: ");
            b.append(join_strings(&samples(&c.files), ", ").as_str());
            if c.files.len() > 6 {
                let mut m = copy_of("  …(+");
                m.append(decimal((c.files.len() - 6) as u64).as_str());
                m.append(")");
                b.append(m.as_str());
            } else {
                b.append("");
            }
            push_copy(&mut r, b.as_str());
            assert(strs(r@) == detail_of(*c, offset));
        },
        None => {
            push_copy(&mut r, "no files");
        },
    }
    r
}

/// The title of the detail: what the last action came to, where there was one.
pub open spec fn detail_title_text(status: Seq<char>) -> Seq<char> {
    if status.len() == 0 {
        " detail "@
    } else {
        " detail · "@ + status + " "@
    }
}

/// The title of the detail.
pub fn detail_title(status: &str) -> (s: String)
    ensures
        s@ == detail_title_text(status@),
{
    if status.is_empty() {
        copy_of(" detail ")
    } else {
        let mut s = copy_of(" detail · ");
        s.append(status);
        s.append(" ");
        s
    }
}

/// A line of one span.
fn add_line(v: &mut Vec<Vec<Span>>, text: String, style: Style)
    ensures
        ink_lines(final(v)@) == ink_lines(old(v)@).push(seq![Ink { text: text@, style }]),
{
    let ghost before = v@;
    let mut l: Vec<Span> = Vec::new();
    assert(inks(l@) == Seq::<Ink>::empty());
    add_span(&mut l, text, style);
    v.push(l);
    assert(inks(l@) == seq![Ink { text: text@, style }]);
    assert(ink_lines(v@) == ink_lines(before).push(inks(l@)));
}

/// The line of a text in a plain look.
pub open spec fn raw_line(t: Seq<char>) -> Seq<Ink> {
    seq![raw(t)]
}

/// The popup in which a name is edited.
pub open spec fn edit_lines(buf: Seq<char>) -> Seq<Seq<Ink>> {
    seq![
        raw_line("Target folder name under ~/Pictures (Enter=save, Esc=cancel):"@),
        raw_line(""@),
        seq![bold_ink(buf + "_"@, Color::Yellow)],
    ]
}

/// The popup in which a name is edited.
pub fn edit_popup(buf: &str) -> (r: Vec<Vec<Span>>)
    ensures
        ink_lines(r@) == edit_lines(buf@),
{
    let none = Style { fg: None, bg: None, bold: false };
    let mut r: Vec<Vec<Span>> = Vec::new();
    assert(ink_lines(r@) == Seq::<Seq<Ink>>::empty());
    add_line(
        &mut r,
        copy_of("Target folder name under ~/Pictures (Enter=save, Esc=cancel):"),
        none,
    );
    add_line(&mut r, copy_of(""), none);
    let mut t = copy_of(buf);
    t.append("_");
    add_line(&mut r, t, look(Color::Yellow, true));
    r
}

/// A text in bold.
pub open spec fn strong(t: Seq<char>) -> Ink {
    Ink { text: t, style: bold(plain()) }
}

/// What the popup asks before the work in the library.
pub open spec fn confirm_library(up: nat, dest: Seq<char>) -> Seq<Seq<Ink>> {
    seq![
        seq![strong(" About to upload "@ + dec(up) + " folder(s) to "@ + dest + "."@)],
        raw_line(""@),
        seq![ink(" Files stay in ~/Pictures; nothing is moved or deleted."@, Color::Green)],
    ]
}

/// What the popup asks before the work on a card: `n` files go into `groups` folders, `unnamed`
/// occasions have no name, and `up` folders are uploaded.
pub open spec fn confirm_card(
    do_move: bool,
    n: nat,
    groups: nat,
    unnamed: nat,
    up: nat,
    dest: Seq<char>,
) -> Seq<Seq<Ink>> {
    let verb = if do_move {
        "MOVE"@
    } else {
        "COPY"@
    };
    seq![
        seq![
            strong(
                " About to "@ + verb + " "@ + dec(n) + " files into "@ + dec(groups) + " folders."@,
            ),
        ],
        raw_line(""@),
    ] + (if unnamed > 0 {
        seq![seq![ink(" "@ + dec(unnamed) + " unnamed cluster(s) left in place."@, Color::Yellow)]]
    } else {
        seq![]
    }) + (if up > 0 {
        seq![seq![ink(" Then upload "@ + dec(up) + " folder(s) to "@ + dest + "."@, Color::Cyan)]]
    } else {
        seq![]
    }) + (if do_move {
        seq![seq![ink(" MOVE deletes originals from the SD card."@, Color::Red)]]
    } else {
        seq![]
    })
}

/// What the popup asks before the work.
pub open spec fn confirm_of(a: App) -> Seq<Seq<Ink>> {
    let up = a.clusters@.filter(|c: Cluster| marked(c)).len();
    (if a.library {
        confirm_library(up, a.dest@)
    } else {
        confirm_card(
            a.do_move,
            assigned_files(a.clusters@),
            a.clusters@.filter(|c: Cluster| assigned(c)).len(),
            a.clusters@.filter(|c: Cluster| !c.skip && !is_named(c.target@)).len(),
            up,
            a.dest@,
        )
    }) + seq![raw_line(""@), raw_line("  y = confirm    n/Esc = cancel"@)]
}

/// The popup that asks before the work.
pub fn confirm_popup(a: &App) -> (r: Vec<Vec<Span>>)
    requires
        file_count(a.clusters@) <= usize::MAX,
    ensures
        ink_lines(r@) == confirm_of(*a),
{
    let none = Style { fg: None, bg: None, bold: false };
    let thick = Style { fg: None, bg: None, bold: true };
    let up: usize = a.upload_count();
    let mut r: Vec<Vec<Span>> = Vec::new();
    assert(ink_lines(r@) == Seq::<Seq<Ink>>::empty());
    if a.library {
        let mut t = copy_of(" About to upload ");
        t.append(decimal(up as u64).as_str());
        t.append(" folder(s) to ");
        t.append(a.dest.as_str());
        t.append(".");
        add_line(&mut r, t, thick);
        add_line(&mut r, copy_of(""), none);
        add_line(
            &mut r,
            copy_of(" Files stay in ~/Pictures; nothing is moved or deleted."),
            look(Color::Green, false),
        );
        assert(ink_lines(r@) == confirm_library(up as nat, a.dest@));
    } else {
        let n: usize = assigned_file_count(&a.clusters);
        let groups: usize = a.assigned_count();
        let unnamed: usize = unnamed_count(&a.clusters);
        let mut t = copy_of(" About to ");
        t.append(
            if a.do_move {
                "MOVE"
            } else {
                "COPY"
            },
        );
        t.append(" ");
        t.append(decimal(n as u64).as_str());
        t.append(" files into ");
        t.append(decimal(groups as u64).as_str());
        t.append(" folders.");
        add_line(&mut r, t, thick);
        add_line(&mut r, copy_of(""), none);
        if unnamed > 0 {
            let mut t = copy_of(" ");
            t.append(decimal(unnamed as u64).as_str());
            t.append(" unnamed cluster(s) left in place.");
            add_line(&mut r, t, look(Color::Yellow, false));
        }
        if up > 0 {
            let mut t = copy_of(" Then upload ");
            t.append(decimal(up as u64).as_str());
            t.append(" folder(s) to ");
            t.append(a.dest.as_str());
            t.append(".");
            add_line(&mut r, t, look(Color::Cyan, false));
        }
        if a.do_move {
            add_line(
                &mut r,
                copy_of(" MOVE deletes originals from the SD card."),
                look(Color::Red, false),
            );
        }
        assert(ink_lines(r@) == confirm_card(
            a.do_move,
            n as nat,
            groups as nat,
            unnamed as nat,
            up as nat,
            a.dest@,
        ));
    }
    add_line(&mut r, copy_of(""), none);
    add_line(&mut r, copy_of("  y = confirm    n/Esc = cancel"), none);
    assert(ink_lines(r@) == confirm_of(*a));
    r
}

/// The popup that tells what the work came to.
pub open spec fn done_lines(log: Seq<Seq<char>>) -> Seq<Seq<Ink>> {
    log.map_values(|l: Seq<char>| raw_line(l)) + seq![
        raw_line(""@),
        seq![ink(" press q to quit "@, Color::Cyan)],
    ]
}

/// The popup that tells what the work came to.
pub fn done_popup(log: &Vec<String>) -> (r: Vec<Vec<Span>>)
    ensures
        ink_lines(r@) == done_lines(strs(log@)),
{
    let none = Style { fg: None, bg: None, bold: false };
    let ghost all = strs(log@);
    let ghost line = |l: Seq<char>| raw_line(l);
    let mut r: Vec<Vec<Span>> = Vec::new();
    assert(ink_lines(r@) == Seq::<Seq<Ink>>::empty());
    for i in 0..log.len()
        invariant
            none == plain(),
            all == strs(log@),
            line == (|l: Seq<char>| raw_line(l)),
            ink_lines(r@) == all.take(i as int).map_values(line),
    {
        add_line(&mut r, log[i].clone(), none);
        assert(all.take(i + 1).map_values(line) == all.take(i as int).map_values(line).push(
            line(all[i as int]),
        ));
    }
    assert(all.take(all.len() as int) == all);
    add_line(&mut r, copy_of(""), none);
    add_line(&mut r, copy_of(" press q to quit "), look(Color::Cyan, false));
    r
}

/// The units of the current stage, at least one.
pub fn shown_total(p: &Progress) -> (n: usize)
    ensures
        n == if p.total == 0 {
            1
        } else {
            p.total
        },
{
    if p.total == 0 {
        1
    } else {
        p.total
    }
}

/// The stage of the work, and how much of it is done.
pub fn stage_line(p: &Progress) -> (s: String)
    ensures
        s@ == p.stage@ + " — "@ + dec(p.done as nat) + " of "@ + dec(
            if p.total == 0 {
                1
            } else {
                p.total as nat
            },
        ),
{
    let mut s = p.stage.clone();
    s.append(" — ");
    s.append(decimal(p.done as u64).as_str());
    s.append(" of ");
    s.append(decimal(shown_total(p) as u64).as_str());
    s
}

/// What stands on the gauge: how much is done, how many percent that is, and how much failed.
pub fn gauge_label(p: &Progress, percent: &str) -> (s: String)
    ensures
        s@ == dec(p.done as nat) + "/"@ + dec(
            if p.total == 0 {
                1
            } else {
                p.total as nat
            },
        ) + "  "@ + percent@ + "%  ("@ + dec(p.errors as nat) + " err)"@,
{
    let mut s = decimal(p.done as u64);
    s.append("/");
    s.append(decimal(shown_total(p) as u64).as_str());
    s.append("  ");
    s.append(percent);
    s.append("%  (");
    s.append(decimal(p.errors as u64).as_str());
    s.append(" err)");
    s
}

/// How wide and how high the popup of a mode is, where it has one.
pub fn popup_size(mode: Mode) -> (r: Option<(u16, u16)>)
    ensures
        r == match mode {
            Mode::Browse => None::<(u16, u16)>,
            Mode::Edit => Some((70u16, 7u16)),
            Mode::Confirm => Some((66u16, 12u16)),
            Mode::Running => Some((72u16, 8u16)),
            Mode::Done => Some((76u16, 16u16)),
        },
{
    match mode {
        Mode::Browse => None,
        Mode::Edit => Some((70, 7)),
        Mode::Confirm => Some((66, 12)),
        Mode::Running => Some((72, 8)),
        Mode::Done => Some((76, 16)),
    }
}

/// The title of the popup of a mode.
pub fn popup_title(mode: Mode) -> (s: &'static str)
    ensures
        s@ == match mode {
            Mode::Browse => ""@,
            Mode::Edit => " edit name "@,
            Mode::Confirm => " confirm "@,
            Mode::Running => " working… "@,
            Mode::Done => " result "@,
        },
{
    match mode {
        Mode::Browse => "",
        Mode::Edit => " edit name ",
        Mode::Confirm => " confirm ",
        Mode::Running => " working… ",
        Mode::Done => " result ",
    }
}

/// Whether what the screen says can be computed: the number of files, what is shown of each
/// occasion, and the names of the first files of the selected one.
pub open spec fn drawable(a: App, offset: i64) -> bool {
    &&& file_count(a.clusters@) <= usize::MAX
    &&& forall|i: int| 0 <= i < a.clusters@.len() ==> showable(#[trigger] a.clusters@[i], offset)
    &&& has_selected(a) ==> has_samples(selected(a).files@)
}

/// Whether what the screen says can be computed.
pub fn can_draw(a: &App, offset: i64) -> (r: bool)
    ensures
        r == drawable(*a, offset),
{
    match count_files(&a.clusters) {
        Some(_) => {},
        None => {
            return false;
        },
    }
    for i in 0..a.clusters.len()
        invariant
            forall|k: int| 0 <= k < i ==> showable(#[trigger] a.clusters@[k], offset),
    {
        if !can_show(&a.clusters[i], offset) {
            return false;
        }
    }
    let i: usize = a.sel();
    i >= a.clusters.len() || can_sample(&a.clusters[i].files)
}

/// What the screen says.
pub struct Screen {
    pub header: Vec<Span>,
    /// The lines of the list, one for each occasion.
    pub rows: Vec<Vec<Span>>,
    pub list_title: &'static str,
    /// The detail of the selected occasion.
    pub detail: Vec<String>,
    pub detail_title: String,
    /// The lines of the popup, where it has any.
    pub popup: Vec<Vec<Span>>,
}

/// What the detail says.
pub open spec fn detail_lines(a: App, offset: i64) -> Seq<Seq<char>> {
    if has_selected(a) {
        detail_of(selected(a), offset)
    } else {
        seq!["no files"@]
    }
}

/// The lines of the popup; while the work runs it has a gauge instead.
pub open spec fn popup_lines(a: App) -> Seq<Seq<Ink>> {
    match a.mode {
        Mode::Edit => edit_lines(a.edit_buf@),
        Mode::Confirm => confirm_of(a),
        Mode::Done => done_lines(strs(a.log@)),
        Mode::Browse => seq![],
        Mode::Running => seq![],
    }
}

/// What the screen says.
pub fn ui(a: &App, offset: i64) -> (s: Screen)
    requires
        drawable(*a, offset),
    ensures
        inks(s.header@) == header_inks(*a),
        s.rows@.len() == a.clusters@.len(),
        forall|i: int|
            0 <= i < a.clusters@.len() ==> inks((#[trigger] s.rows@[i])@) == row_inks(
                a.clusters@[i],
                a.library,
                a.min_rating,
                offset,
            ),
        s.list_title@ == title_text(a.library),
        strs(s.detail@) == detail_lines(*a, offset),
        s.detail_title@ == detail_title_text(a.status@),
        ink_lines(s.popup@) == popup_lines(*a),
{
    let files: usize = match count_files(&a.clusters) {
        Some(n) => n,
        None => 0,
    };
    let mut rows: Vec<Vec<Span>> = Vec::new();
    for i in 0..a.clusters.len()
        invariant
            drawable(*a, offset),
            rows@.len() == i,
            forall|k: int|
                0 <= k < i ==> inks((#[trigger] rows@[k])@) == row_inks(
                    a.clusters@[k],
                    a.library,
                    a.min_rating,
                    offset,
                ),
    {
        rows.push(row(&a.clusters[i], a.library, a.min_rating, offset));
    }
    let i: usize = a.sel();
    let detail = if i < a.clusters.len() {
        detail(Some(&a.clusters[i]), offset)
    } else {
        detail(None, offset)
    };
    let popup: Vec<Vec<Span>> = match a.mode {
        Mode::Edit => edit_popup(a.edit_buf.as_str()),
        Mode::Confirm => confirm_popup(a),
        Mode::Done => done_popup(&a.log),
        _ => Vec::new(),
    };
    assert(ink_lines(popup@) =~= popup_lines(*a));
    Screen {
        header: header(a, files),
        rows,
        list_title: list_title(a.library),
        detail,
        detail_title: detail_title(a.status.as_str()),
        popup,
    }
}

/// A folder that is known to be on the Drive shows its name in green.
pub proof fn lemma_on_drive_is_green(c: Cluster, library: bool)
    requires
        c.on_drive == Some(true),
        !c.skip,
    ensures
        name_style(c, library).fg == Some(Color::Green),
        shown_name(c, library) == trim_end(c.target@),
{
}

/// What the program asks to confirm is what it then does: it names as many files and folders as
/// the plan has, and as many uploads where there are any.
#[verifier::spinoff_prover]
pub proof fn lemma_confirms_plan(a: App)
    ensures
        ({
            let p = plan(a.clusters@, a.pictures@, a.library, a.min_rating);
            let ups = p.filter(|t: Task| t.upload).len();
            let l = confirm_of(a);
            &&& l.len() >= 3 && l[0].len() == 1
            &&& a.library ==> l[0][0].text == " About to upload "@ + dec(p.len()) + " folder(s) to "@
                + a.dest@ + "."@
            &&& !a.library ==> l[0][0].text == " About to "@ + (if a.do_move {
                "MOVE"@
            } else {
                "COPY"@
            }) + " "@ + dec(moves(p)) + " files into "@ + dec(p.len()) + " folders."@
            &&& !a.library && ups > 0 ==> exists|i: int|
                {
                    &&& 0 < i < l.len()
                    &&& (#[trigger] l[i]).len() == 1
                    &&& l[i][0].text == " Then upload "@ + dec(ups) + " folder(s) to "@ + a.dest@
                        + "."@
                }
        }),
{
    let p = plan(a.clusters@, a.pictures@, a.library, a.min_rating);
    lemma_plan_len(a.clusters@, a.pictures@, a.library, a.min_rating);
    lemma_plan_moves(a.clusters@, a.pictures@, a.library, a.min_rating);
    lemma_plan_uploads(a.clusters@, a.pictures@, a.library, a.min_rating);
    let ups = p.filter(|t: Task| t.upload).len();
    let up = a.clusters@.filter(|c: Cluster| marked(c)).len();
    let unnamed = a.clusters@.filter(|c: Cluster| !c.skip && !is_named(c.target@)).len();
    let n = assigned_files(a.clusters@);
    let groups = a.clusters@.filter(|c: Cluster| assigned(c)).len();
    let end = seq![raw_line(""@), raw_line("  y = confirm    n/Esc = cancel"@)];
    let l = confirm_of(a);
    assert(ups == up);
    if a.library {
        let h = confirm_library(up, a.dest@);
        assert(l == h + end);
        assert(l[0] == h[0]);
        assert(up == p.len());
    } else {
        let h = confirm_card(a.do_move, n, groups, unnamed, up, a.dest@);
        assert(l == h + end);
        lemma_card_question(a.do_move, n, groups, unnamed, up, a.dest@);
        assert(l[0] == h[0]);
        if up > 0 {
            let i: int = if unnamed > 0 {
                3
            } else {
                2
            };
            assert(l[i] == h[i]);
        }
    }
}

proof fn lemma_card_question(
    do_move: bool,
    n: nat,
    groups: nat,
    unnamed: nat,
    up: nat,
    dest: Seq<char>,
)
    ensures
        ({
            let h = confirm_card(do_move, n, groups, unnamed, up, dest);
            let i: int = if unnamed > 0 {
                3
            } else {
                2
            };
            &&& h.len() >= 2 && h[0].len() == 1
            &&& h[0][0].text == " About to "@ + (if do_move {
                "MOVE"@
            } else {
                "COPY"@
            }) + " "@ + dec(n) + " files into "@ + dec(groups) + " folders."@
            &&& up > 0 ==> h.len() > i && h[i].len() == 1 && h[i][0].text == " Then upload "@ + dec(
                up,
            ) + " folder(s) to "@ + dest + "."@
        }),
{
    let h = confirm_card(do_move, n, groups, unnamed, up, dest);
    if up > 0 {
        let t = " Then upload "@ + dec(up) + " folder(s) to "@ + dest + "."@;
        let i: int = if unnamed > 0 {
            3
        } else {
            2
        };
        assert(h[i] == seq![ink(t, Color::Cyan)]);
    }
}

/// The detail of an occasion names its first six files, and how many more there are.
pub proof fn lemma_detail_names(c: Cluster, offset: i64, i: int)
    requires
        has_samples(c.files@),
    ensures
        sample_names(c.files@).len() == if c.files@.len() <= 6 {
            c.files@.len()
        } else {
            6
        },
        0 <= i < sample_names(c.files@).len() ==> file_name_of(c.files@[i].path@) == Some(
            sample_names(c.files@)[i],
        ),
        c.files@.len() <= 6 ==> detail_of(c, offset)[1] == "files: "@ + join(
            sample_names(c.files@),
            ", "@,
        ),
        c.files@.len() > 6 ==> detail_of(c, offset)[1] == "files: "@ + join(
            sample_names(c.files@),
            ", "@,
        ) + ("  …(+"@ + dec((c.files@.len() - 6) as nat) + ")"@),
{
    reveal_strlit("");
    let s = "files: "@ + join(sample_names(c.files@), ", "@);
    assert(s + ""@ == s);
}

/// The row of an occasion tells its numbers: behind blanks those of its pictures and its movies,
/// its size, the shots that reach the bar, and the removed ones; of what there is none, nothing
/// is told. It shows the occasion's name, unless the occasion is left alone.
pub proof fn lemma_row_tells(c: Cluster, library: bool, min: u8, offset: i64)
    ensures
        ({
            let r = row_inks(c, library, min, offset);
            let stars = rated_shots(c.ratings@, min).len();
            let movies = count_of(c.files@, |f: FileItem| movie(f));
            &&& r.len() == 9
            &&& has_text(r[1].text, dec(photo_shots(c.files@).len()) + "p"@)
            &&& movies > 0 <==> r[2].text != "    "@
            &&& movies > 0 ==> has_text(r[2].text, dec(movies) + "m"@)
            &&& has_text(r[3].text, size_text(total(c.files@)))
            &&& has_text(r[4].text, span_text(c, offset))
            &&& !c.skip ==> r[5].text == trim_end(c.target@)
            &&& stars > 0 ==> has_text(r[6].text, "★"@ + dec(stars))
            &&& stars == 0 ==> r[6].text.len() == 0
            &&& c.removed > 0 ==> has_text(r[8].text, "✗"@ + dec(c.removed as nat))
            &&& c.removed == 0 ==> r[8].text.len() == 0
            &&& r[7].text.len() == 0 <==> c.up == UploadMode::No
        }),
{
    reveal_strlit("");
    reveal_strlit(" ");
    reveal_strlit("p ");
    reveal_strlit("p");
    reveal_strlit("m ");
    reveal_strlit("m");
    reveal_strlit("    ");
    reveal_strlit("  ★");
    reveal_strlit("★");
    reveal_strlit("  ✗");
    reveal_strlit("✗");
    reveal_strlit("  ↥ all");
    reveal_strlit("  ↥ pics");
    reveal_strlit("  ↥ ★");
    let r = row_inks(c, library, min, offset);
    let stars = rated_shots(c.ratings@, min).len();
    let movies = count_of(c.files@, |f: FileItem| movie(f));
    let pics = dec(photo_shots(c.files@).len());
    let two = seq![' ', ' '];
    assert("p "@ == "p"@ + seq![' ']);
    assert("m "@ == "m"@ + seq![' ']);
    assert("  ★"@ == two + "★"@);
    assert("  ✗"@ == two + "✗"@);
    let none = Seq::<char>::empty();
    let f1 = fill(' ', 3 - pics.len());
    lemma_text_within(f1, pics + "p"@, seq![' '], r[1].text);
    if movies > 0 {
        let d = dec(movies);
        lemma_dec_reads_back(movies);
        let f2 = fill(' ', 2 - d.len());
        lemma_text_within(f2, d + "m"@, seq![' '], r[2].text);
        let m = r[2].text;
        assert(m[m.len() - 2] == 'm');
    }
    let size = size_text(total(c.files@));
    lemma_text_within(fill(' ', 9 - size.len()), size, " "@, r[3].text);
    let span = span_text(c, offset);
    lemma_text_within(none, span, fill(' ', 24 - span.len()) + " "@, r[4].text);
    if stars > 0 {
        lemma_text_within(two, "★"@ + dec(stars), none, r[6].text);
    }
    if c.removed > 0 {
        lemma_text_within(two, "✗"@ + dec(c.removed as nat), none, r[8].text);
    }
}

/// The header tells how many occasions and files there are, the bar, and where things go: in the
/// library where it is and where uploads go, else what is done with the files of the card.
pub proof fn lemma_header_tells(a: App)
    ensures
        ({
            let h = header_inks(a);
            &&& h.len() >= 6
            &&& has_text(h[1].text, dec(a.clusters@.len()) + " "@)
            &&& has_text(h[1].text, dec(file_count(a.clusters@)) + " files"@)
            &&& has_text(h[2].text, "≥"@ + dec(a.min_rating as nat))
            &&& has_text(h.last().text, a.pictures@)
            &&& a.library ==> has_text(h.last().text, a.dest@)
            &&& !a.library ==> h[5].text == if a.do_move {
                "MOVE"@
            } else {
                "COPY"@
            }
        }),
{
    reveal_strlit(" files · ");
    reveal_strlit(" files");
    reveal_strlit("★≥");
    reveal_strlit("≥");
    let h = header_inks(a);
    let unit = if a.library {
        "folders"@
    } else {
        "clusters"@
    };
    let n = dec(a.clusters@.len());
    let f = dec(file_count(a.clusters@));
    let end = " files · "@;
    let none = Seq::<char>::empty();
    assert(end == " files"@ + end.skip(6));
    let t = h[1].text;
    assert(t == "  "@ + n + " "@ + unit + " · "@ + f + end);
    lemma_text_within("  "@, n + " "@, unit + " · "@ + f + end, t);
    lemma_text_within("  "@ + n + " "@ + unit + " · "@, f + " files"@, end.skip(6), t);
    let s = "★≥"@;
    assert(s == s.take(1) + "≥"@);
    lemma_text_within(s.take(1), "≥"@ + dec(a.min_rating as nat), " "@, h[2].text);
    if a.library {
        let l = h.last().text;
        assert(l == "  "@ + a.pictures@ + "  (↥ "@ + a.dest@ + ")"@);
        lemma_text_within("  "@, a.pictures@, "  (↥ "@ + a.dest@ + ")"@, l);
        lemma_text_within("  "@ + a.pictures@ + "  (↥ "@, a.dest@, ")"@, l);
    } else {
        lemma_text_within("  ->  "@, a.pictures@, none, h.last().text);
    }
}

/// Where the rated shots of an occasion are uploaded, its row tells how many reach the bar.
pub proof fn lemma_row_tells_upload(c: Cluster, library: bool, min: u8, offset: i64)
    requires
        c.up == UploadMode::Rated,
    ensures
        has_text(
            row_inks(c, library, min, offset)[7].text,
            dec(rated_shots(c.ratings@, min).len()) + " pics"@,
        ),
{
    let d = dec(rated_shots(c.ratings@, min).len());
    let none = Seq::<char>::empty();
    lemma_text_within("  ↥ ★"@, d + " pics"@, none, row_inks(c, library, min, offset)[7].text);
}

/// An occasion that is left alone, one without a name, one whose folder was found, and one with a
/// new name are marked each in a way of its own.
pub proof fn lemma_marks_differ(c: Cluster, d: Cluster, library: bool)
    ensures
        c.skip != d.skip ==> mark_of(c, library).text != mark_of(d, library).text,
        !c.skip && !d.skip && is_named(c.target@) != is_named(d.target@) ==> mark_of(
            c,
            library,
        ).text != mark_of(d, library).text,
        !c.skip && !d.skip && is_named(c.target@) && is_named(d.target@) && c.suggested
            != d.suggested ==> mark_of(c, library).text != mark_of(d, library).text,
{
    reveal_strlit("····");
    reveal_strlit("STAY");
    reveal_strlit("????");
    reveal_strlit(" +> ");
    reveal_strlit(" -> ");
    assert("····"@[0] == '·' && "STAY"@[0] == 'S' && "????"@[0] == '?');
    assert(" +> "@[0] == ' ' && " -> "@[0] == ' ');
    assert(" +> "@[1] == '+' && " -> "@[1] == '-');
}

/// The time of an occasion is told by the date that it begins on and by the times of day of its
/// first and its last file, in its row and in its detail.
pub proof fn lemma_times_told(c: Cluster, offset: i64)
    ensures
        ({
            let a = date_text(c.start as int, offset as int);
            let b = time_text(c.start as int, offset as int);
            let e = time_text(c.end as int, offset as int);
            &&& span_text(c, offset) == a + "  "@ + b + "-"@ + e
            &&& has_text(detail_of(c, offset)[0], a + " "@ + b + " → "@ + e)
            &&& has_text(detail_of(c, offset)[0], ext_text(c.files@))
        }),
{
    let a = date_text(c.start as int, offset as int);
    let b = time_text(c.start as int, offset as int);
    let e = time_text(c.end as int, offset as int);
    let t = detail_of(c, offset)[0];
    let x = ext_text(c.files@);
    let none = Seq::<char>::empty();
    assert(t == "span: "@ + a + " "@ + b + " → "@ + e + "    types: "@ + x);
    lemma_text_within("span: "@, a + " "@ + b + " → "@ + e, "    types: "@ + x, t);
    lemma_text_within("span: "@ + a + " "@ + b + " → "@ + e + "    types: "@, x, none, t);
}

/// What the work came to is shown line by line, all of it, and then how to quit.
pub proof fn lemma_result_shown(log: Seq<Seq<char>>, i: int)
    requires
        0 <= i < log.len(),
    ensures
        done_lines(log).len() > log.len(),
        done_lines(log)[i].len() == 1,
        done_lines(log)[i][0].text == log[i],
{
}

/// Where occasions without a name stay where they are, the question says how many.
pub proof fn lemma_confirms_unnamed(a: App)
    ensures
        ({
            let n = a.clusters@.filter(|c: Cluster| !c.skip && !is_named(c.target@)).len();
            let l = confirm_of(a);
            !a.library && n > 0 ==> l.len() > 2 && l[2].len() == 1 && l[2][0].text == " "@ + dec(n)
                + " unnamed cluster(s) left in place."@
        }),
{
    let n = a.clusters@.filter(|c: Cluster| !c.skip && !is_named(c.target@)).len();
    if !a.library && n > 0 {
        let t = " "@ + dec(n) + " unnamed cluster(s) left in place."@;
        assert(confirm_of(a)[2] == seq![ink(t, Color::Yellow)]);
    }
}

/// What the last action came to is told whole, and a name that is edited is shown whole, with a
/// mark behind it.
pub proof fn lemma_texts_shown_whole(status: Seq<char>, buf: Seq<char>)
    ensures
        status.len() > 0 ==> has_text(detail_title_text(status), status),
        edit_lines(buf).last().len() == 1,
        edit_lines(buf).last()[0].text == buf + "_"@,
{
    lemma_text_within(" detail · "@, status, " "@, " detail · "@ + status + " "@);
}

/// In front of the occasions stands what the mode asks for: the name that is edited, the
/// question, or what the work came to; the detail is that of the selected occasion.
pub proof fn lemma_shown_in_front(a: App, offset: i64)
    ensures
        a.mode == Mode::Edit ==> popup_lines(a).last()[0].text == a.edit_buf@ + "_"@,
        a.mode == Mode::Confirm ==> popup_lines(a) == confirm_of(a),
        a.mode == Mode::Done ==> popup_lines(a).len() > a.log@.len() && forall|i: int|
            0 <= i < a.log@.len() ==> (#[trigger] popup_lines(a)[i])[0].text == a.log@[i]@,
        a.mode == Mode::Browse || a.mode == Mode::Running ==> popup_lines(a).len() == 0,
        sel(a) < a.clusters@.len() ==> detail_lines(a, offset) == detail_of(
            a.clusters@[sel(a)],
            offset,
        ),
        sel(a) >= a.clusters@.len() ==> detail_lines(a, offset) == seq!["no files"@],
{
}

/// An occasion can be shown where its bytes and its times can be counted, however many files it
/// has; all can be drawn where each can be shown and the first files of the selected one have
/// names.
pub proof fn lemma_can_be_shown(a: App, c: Cluster, offset: i64)
    ensures
        total(c.files@) <= u64::MAX && -0x4000000000000000 <= c.start <= 0x3fffffffffffffff
            && -0x4000000000000000 <= c.end <= 0x3fffffffffffffff && -0x4000000000000000 <= offset
            <= 0x3fffffffffffffff ==> showable(c, offset),
        file_count(a.clusters@) <= usize::MAX && (forall|i: int|
            0 <= i < a.clusters@.len() ==> showable(#[trigger] a.clusters@[i], offset)) && (forall|
            i: int,
            j: int,
        |
            0 <= i < a.clusters@.len() && 0 <= j < a.clusters@[i].files@.len() ==> file_name_of(
                (#[trigger] a.clusters@[i].files@[j]).path@,
            ) is Some) ==> drawable(a, offset),
{
}

} // verus!
