//! The settings, and where they and other files of the program are kept.
use crate::number::{
    dec, i64_text, int_text, is_digit, lemma_dec_reads_back, lemma_signed_number, parse_i64,
};
use crate::paths::{expand_tilde, join_path, joined, lemma_join_shape, tilde_expanded};
use crate::text::{
    chars_of, copy_of, fill, index_of_char, is_space, lemma_lines_put, lines, lines_of, opt_str,
    same, space, split_once_at, starts_with, string_of, strip_cr, strs, trim, trim_end, trim_start,
    trim_str,
};
use vstd::prelude::*;
use vstd::slice::slice_subrange;

verus! {

/// A new occasion begins when shots are more than this many hours apart.
pub const DEFAULT_GAP_HOURS: i64 = 5;

/// The settings.
#[derive(Debug)]
pub struct Config {
    /// The rclone remote and the base path of uploads.
    pub rclone_dest: String,
    /// A new occasion begins when shots are more than this many hours apart.
    pub gap_hours: i64,
    /// The library, where occasions are sorted to.
    pub pictures: String,
}

/// What the settings hold.
#[verifier::ext_equal]
pub struct Settings {
    pub rclone_dest: Seq<char>,
    pub gap_hours: i64,
    pub pictures: Seq<char>,
}

impl View for Config {
    type V = Settings;

    open spec fn view(&self) -> Settings {
        Settings {
            rclone_dest: self.rclone_dest@,
            gap_hours: self.gap_hours,
            pictures: self.pictures@,
        }
    }
}

/// The settings where the file says nothing.
pub open spec fn defaults(home: Seq<char>) -> Settings {
    Settings {
        rclone_dest: "gdrive:Pictures"@,
        gap_hours: DEFAULT_GAP_HOURS,
        pictures: joined(home, "Pictures"@),
    }
}

/// The settings `c` with `key` set to `value`; an unknown key, an empty text and a number of
/// hours that is none or not above zero change nothing.
pub open spec fn with_setting(
    c: Settings,
    key: Seq<char>,
    value: Seq<char>,
    home: Seq<char>,
) -> Settings {
    if key == "rclone_dest"@ && value.len() > 0 {
        Settings { rclone_dest: value, ..c }
    } else if key == "gap_hours"@ {
        match i64_text(value) {
            Some(n) => if n > 0 {
                Settings { gap_hours: n, ..c }
            } else {
                c
            },
            None => c,
        }
    } else if key == "pictures"@ && value.len() > 0 {
        Settings { pictures: tilde_expanded(value, home), ..c }
    } else {
        c
    }
}

/// Where a comment begins in `s`, from `i` on: at a `#` behind white space; the length of `s`
/// where there is none.
pub open spec fn comment_from(s: Seq<char>, i: nat) -> nat
    decreases if i < s.len() { s.len() - i } else { 0 },
{
    if i >= s.len() {
        s.len()
    } else if i > 0 && s[i as int] == '#' && is_space(s[i - 1]) {
        i
    } else {
        comment_from(s, i + 1)
    }
}

/// `s` without a comment at its end.
pub open spec fn uncommented(s: Seq<char>) -> Seq<char> {
    s.take(comment_from(s, 0) as int)
}

/// The settings `c` after one line of the file: `key = value`, perhaps with a comment behind
/// it, or a comment or nothing.
pub open spec fn after_line(c: Settings, line: Seq<char>, home: Seq<char>) -> Settings {
    let t = trim(line);
    let k = index_of_char(t, '=');
    if t.len() == 0 || t[0] == '#' || k == t.len() {
        c
    } else {
        with_setting(c, trim(t.take(k)), trim(uncommented(t.skip(k + 1))), home)
    }
}

/// The settings `c` after the lines of the file, one after the other.
pub open spec fn after_lines(c: Settings, ls: Seq<Seq<char>>, home: Seq<char>) -> Settings
    decreases ls.len(),
{
    if ls.len() == 0 {
        c
    } else {
        after_line(after_lines(c, ls.drop_last(), home), ls.last(), home)
    }
}

/// The settings that the file `text` makes, where there is one, and the destination that the
/// environment may override.
pub open spec fn loaded(
    text: Option<Seq<char>>,
    home: Seq<char>,
    dest: Option<Seq<char>>,
) -> Settings {
    let c = match text {
        Some(t) => after_lines(defaults(home), lines(t), home),
        None => defaults(home),
    };
    match dest {
        Some(d) => if d.len() > 0 {
            Settings { rclone_dest: d, ..c }
        } else {
            c
        },
        None => c,
    }
}

/// The file that is written where there is none.
pub open spec fn template() -> Seq<char> {
    "# wpic config\n"@ + "\n"@
        + "# Google Drive upload destination (an rclone remote + base path).\n"@
        + "# Each occasion uploads to <rclone_dest>/<occasion name>.\n"@
        + "rclone_dest = gdrive:Pictures\n"@ + "\n"@
        + "# Start a new occasion when consecutive shots are more than this\n"@
        + "# many hours apart.\n"@ + "gap_hours = 5\n"@ + "\n"@
        + "# Where sorted occasions live (card mode) and are managed (library mode).\n"@
        + "pictures = ~/Pictures\n"@
}

/// Takes a comment off the end of `s`.
fn strip_comment(s: &str) -> (r: String)
    ensures
        r@ == uncommented(s@),
{
    let v = chars_of(s);
    let mut i: usize = 0;
    while i < v.len() && !(i > 0 && v[i] == '#' && space(v[i - 1]))
        invariant
            i <= v.len(),
            comment_from(v@, 0) == comment_from(v@, i as nat),
        decreases v.len() - i,
    {
        i += 1;
    }
    string_of(slice_subrange(v.as_slice(), 0, i))
}

impl Config {
    /// Changes the settings as one line of the file says.
    fn apply_line(&mut self, line: &str, home: &str)
        ensures
            final(self)@ == after_line(old(self)@, line@, home@),
    {
        let t = trim_str(line);
        if t.as_str().is_empty() {
            return ;
        }
        proof {
            reveal_strlit("#");
        }
        if starts_with(t.as_str(), "#") {
            assert("#"@[0] == t@[0]);
            return ;
        }
        proof {
            if t@[0] == '#' {
                assert("#"@.is_prefix_of(t@));
            }
        }
        match split_once_at(t.as_str(), '=') {
            Some((k, v)) => {
                let k = trim_str(k.as_str());
                let v = trim_str(strip_comment(v.as_str()).as_str());
                if same(k.as_str(), "rclone_dest") && !v.as_str().is_empty() {
                    self.rclone_dest = v;
                } else if same(k.as_str(), "gap_hours") {
                    if let Some(n) = parse_i64(v.as_str()) {
                        if n > 0 {
                            self.gap_hours = n;
                        }
                    }
                } else if same(k.as_str(), "pictures") && !v.as_str().is_empty() {
                    self.pictures = expand_tilde(v.as_str(), home);
                }
                proof {
                    reveal_strlit("rclone_dest");
                    reveal_strlit("gap_hours");
                    reveal_strlit("pictures");
                    assert("rclone_dest"@.len() == 11);
                    assert("gap_hours"@.len() == 9);
                    assert("pictures"@.len() == 8);
                }
            },
            None => {},
        }
    }

    /// The settings that the file `text` makes, where there is one, for the home directory
    /// `home`; `dest`, where it is set and not empty, overrides the destination of uploads.
    pub fn load(text: Option<&str>, home: &str, dest: Option<&str>) -> (c: Config)
        ensures
            c@ == loaded(opt_str(text), home@, opt_str(dest)),
    {
        let mut c = Config {
            rclone_dest: copy_of("gdrive:Pictures"),
            gap_hours: DEFAULT_GAP_HOURS,
            pictures: join_path(home, "Pictures"),
        };
        assert(c@ == defaults(home@));
        match text {
            Some(t) => {
                let ls = lines_of(t);
                let ghost all = lines(t@);
                for i in 0..ls.len()
                    invariant
                        all == strs(ls@),
                        c@ == after_lines(defaults(home@), all.take(i as int), home@),
                {
                    c.apply_line(ls[i].as_str(), home);
                    assert(all.take(i + 1).drop_last() == all.take(i as int));
                    assert(all.take(i + 1).last() == ls@[i as int]@);
                }
                assert(all.take(all.len() as int) == all);
            },
            None => {},
        }
        match dest {
            Some(d) => {
                if !d.is_empty() {
                    c.rclone_dest = copy_of(d);
                }
            },
            None => {},
        }
        c
    }

    /// The file that is written where there is none.
    pub fn template_text() -> (s: String)
        ensures
            s@ == template(),
    {
        let mut s = copy_of("# wpic config\n");
        s.append("\n");
        s.append("# Google Drive upload destination (an rclone remote + base path).\n");
        s.append("# Each occasion uploads to <rclone_dest>/<occasion name>.\n");
        s.append("rclone_dest = gdrive:Pictures\n");
        s.append("\n");
        s.append("# Start a new occasion when consecutive shots are more than this\n");
        s.append("# many hours apart.\n");
        s.append("gap_hours = 5\n");
        s.append("\n");
        s.append("# Where sorted occasions live (card mode) and are managed (library mode).\n");
        s.append("pictures = ~/Pictures\n");
        s
    }
}

/// The home directory that the variable `HOME` names.
pub fn home_dir(var: Option<&str>) -> (r: String)
    ensures
        r@ == match var {
            Some(v) => v@,
            None => "/root"@,
        },
{
    match var {
        Some(v) => copy_of(v),
        None => copy_of("/root"),
    }
}

/// Where the settings are kept: under `XDG_CONFIG_HOME`, or under `.config` in the home
/// directory.
pub fn config_path(xdg: Option<&str>, home: &str) -> (r: String)
    ensures
        r@ == joined(
            match xdg {
                Some(x) => x@,
                None => joined(home@, ".config"@),
            },
            "wpic/config"@,
        ),
{
    let base = match xdg {
        Some(x) => copy_of(x),
        None => join_path(home, ".config"),
    };
    join_path(base.as_str(), "wpic/config")
}

/// Where upright copies of images are kept: under `XDG_CACHE_HOME`, or under `.cache` in the
/// home directory.
pub fn view_cache_dir(xdg: Option<&str>, home: Option<&str>) -> (r: String)
    ensures
        r@ == joined(
            match xdg {
                Some(x) => x@,
                None => joined(
                    match home {
                        Some(h) => h@,
                        None => "/tmp"@,
                    },
                    ".cache"@,
                ),
            },
            "wpic/views"@,
        ),
{
    let base = match xdg {
        Some(x) => copy_of(x),
        None => match home {
            Some(h) => join_path(h, ".cache"),
            None => join_path("/tmp", ".cache"),
        },
    };
    join_path(base.as_str(), "wpic/views")
}

/// Where the viewer notes the shots to cull.
pub fn cull_file(tmp: &str) -> (r: String)
    ensures
        r@ == joined(tmp@, "wpic-cull.txt"@),
{
    join_path(tmp, "wpic-cull.txt")
}

/// Where the viewer notes the ratings.
pub fn rates_file(tmp: &str) -> (r: String)
    ensures
        r@ == joined(tmp@, "wpic-rates.txt"@),
{
    join_path(tmp, "wpic-rates.txt")
}

/// Where the viewer notes the shots to restore.
pub fn restore_file(tmp: &str) -> (r: String)
    ensures
        r@ == joined(tmp@, "wpic-restore.txt"@),
{
    join_path(tmp, "wpic-restore.txt")
}

proof fn lemma_index_past(a: Seq<char>, b: Seq<char>, c: char)
    requires
        !a.contains(c),
        b.len() > 0,
        b[0] == c,
    ensures
        index_of_char(a + b, c) == a.len(),
    decreases a.len(),
{
    let s = a + b;
    if a.len() == 0 {
        assert(s == b);
    } else {
        assert(a.contains(a[0]));
        assert(s.drop_first() == a.drop_first() + b);
        assert forall|i: int| 0 <= i < a.len() - 1 implies a.drop_first()[i] != c by {
            assert(a.contains(a[i + 1]));
        }
        lemma_index_past(a.drop_first(), b, c);
    }
}

proof fn lemma_lines_split(a: Seq<char>, rest: Seq<char>)
    requires
        !a.contains('\n'),
        a.len() > 0 ==> a.last() != '\r',
    ensures
        lines(a.push('\n') + rest) == seq![a] + lines(rest),
{
    let s = a.push('\n') + rest;
    assert(s == a + (seq!['\n'] + rest));
    lemma_index_past(a, seq!['\n'] + rest, '\n');
    assert(s.take(a.len() as int) == a);
    assert(s.skip(a.len() as int + 1) == rest);
}

proof fn lemma_trim_keeps(s: Seq<char>)
    requires
        s.len() > 0,
        !is_space(s[0]),
    ensures
        trim_start(s) == s,
        trim_end(s).len() > 0,
        trim_end(s)[0] == s[0],
        !is_space(s.last()) ==> trim_end(s) == s,
    decreases s.len(),
{
    if is_space(s.last()) {
        assert(s.len() > 1);
        lemma_trim_keeps(s.drop_last());
    }
}

/// A line that begins with `#` says nothing.
pub proof fn lemma_comment_line(c: Settings, line: Seq<char>, home: Seq<char>)
    requires
        line.len() > 0,
        line[0] == '#',
    ensures
        after_line(c, line, home) == c,
{
    lemma_trim_keeps(line);
}

/// Whether `s` is a text of some length with no white space at either end.
pub open spec fn is_word(s: Seq<char>) -> bool {
    s.len() > 0 && !is_space(s[0]) && !is_space(s.last())
}

/// Whether `s` is all white space, or empty.
pub open spec fn is_blank(s: Seq<char>) -> bool {
    forall|i: int| 0 <= i < s.len() ==> is_space(#[trigger] s[i])
}

/// Whether `s` is a value: some text with no white space at either end, in which no `#` stands at
/// the start or behind white space.
pub open spec fn is_value(s: Seq<char>) -> bool {
    is_word(s) && forall|i: int|
        0 <= i < s.len() && #[trigger] s[i] == '#' ==> i > 0 && !is_space(s[i - 1])
}

proof fn lemma_trim_start_blank(b: Seq<char>, s: Seq<char>)
    requires
        is_blank(b),
    ensures
        trim_start(b + s) == trim_start(s),
    decreases b.len(),
{
    if b.len() > 0 {
        assert((b + s)[0] == b[0]);
        assert((b + s).drop_first() == b.drop_first() + s);
        lemma_trim_start_blank(b.drop_first(), s);
    } else {
        assert(b + s == s);
    }
}

proof fn lemma_trim_end_blank(s: Seq<char>, b: Seq<char>)
    requires
        is_blank(b),
    ensures
        trim_end(s + b) == trim_end(s),
    decreases b.len(),
{
    if b.len() > 0 {
        assert((s + b).last() == b[b.len() - 1]);
        assert((s + b).drop_last() == s + b.drop_last());
        lemma_trim_end_blank(s, b.drop_last());
    } else {
        assert(s + b == s);
    }
}

proof fn lemma_trim_word(before: Seq<char>, word: Seq<char>, behind: Seq<char>)
    requires
        is_blank(before),
        is_word(word),
        is_blank(behind),
    ensures
        trim(before + word + behind) == word,
{
    let w = word + behind;
    assert(before + word + behind == before + w);
    lemma_trim_start_blank(before, w);
    assert(w[0] == word[0]);
    assert(trim_start(w) == w);
    lemma_trim_end_blank(word, behind);
    lemma_trim_keeps(word);
}

proof fn lemma_trim_end_reaches(s: Seq<char>, k: int)
    requires
        0 <= k < s.len(),
        !is_space(s[k]),
    ensures
        k < trim_end(s).len() <= s.len(),
        trim_end(s) == s.take(trim_end(s).len() as int),
    decreases s.len(),
{
    if is_space(s.last()) {
        lemma_trim_end_reaches(s.drop_last(), k);
        let n = trim_end(s.drop_last()).len() as int;
        assert(s.drop_last().take(n) == s.take(n));
    } else {
        assert(s.take(s.len() as int) == s);
    }
}

/// Whether a comment begins at `j` in `s`.
spec fn begins_comment(s: Seq<char>, j: int) -> bool {
    j > 0 && s[j] == '#' && is_space(s[j - 1])
}

proof fn lemma_comment_at(s: Seq<char>, i: nat, k: nat)
    requires
        i <= k <= s.len(),
        k < s.len() ==> begins_comment(s, k as int),
        forall|j: int| 0 <= j < k ==> !begins_comment(s, j),
    ensures
        comment_from(s, i) == k,
    decreases k - i,
{
    if i < k {
        assert(!begins_comment(s, i as int));
        lemma_comment_at(s, i + 1, k);
    }
}

/// What stands behind `=` gives the value, where the value is followed by white space and then
/// by nothing or by a comment.
proof fn lemma_value(b: Seq<char>, value: Seq<char>, gap: Seq<char>, rest: Seq<char>)
    requires
        is_blank(b),
        is_value(value),
        is_blank(gap),
        rest.len() > 0 ==> gap.len() > 0 && rest[0] == '#',
    ensures
        trim(uncommented(b + value + gap + rest)) == value,
{
    let front = b + value + gap;
    let tail = front + rest;
    let n = front.len();
    assert forall|j: int| 0 <= j < n implies !begins_comment(tail, j) by {
        if j < b.len() {
            assert(is_space(b[j]));
        } else if j < b.len() + value.len() {
            let i = j - b.len();
            assert(tail[j] == value[i]);
            if value[i] == '#' {
                assert(tail[j - 1] == value[i - 1]);
            }
        } else {
            assert(is_space(gap[j - b.len() - value.len()]));
        }
    }
    if rest.len() > 0 {
        assert(tail[n - 1] == gap[gap.len() - 1]);
        assert(tail[n as int] == '#');
    }
    lemma_comment_at(tail, 0, n);
    assert(uncommented(tail) == front);
    lemma_trim_word(b, value, gap);
}

/// What a line says in which `=` stands between a key and its value.
proof fn lemma_split_line(
    c: Settings,
    key: Seq<char>,
    a: Seq<char>,
    tail: Seq<char>,
    home: Seq<char>,
)
    requires
        is_word(key),
        key[0] != '#',
        !key.contains('='),
        is_blank(a),
        trim(key + a + seq!['='] + tail) == key + a + seq!['='] + tail,
    ensures
        after_line(c, key + a + seq!['='] + tail, home) == with_setting(
            c,
            key,
            trim(uncommented(tail)),
            home,
        ),
{
    let line = key + a + seq!['='] + tail;
    let head = key + a;
    assert(line == head + (seq!['='] + tail));
    assert(line[0] == key[0]);
    assert forall|i: int| 0 <= i < head.len() implies head[i] != '=' by {
        if i < key.len() {
            assert(key.contains(key[i]));
        } else {
            assert(is_space(a[i - key.len()]));
        }
    }
    lemma_index_past(head, seq!['='] + tail, '=');
    let k = head.len() as int;
    assert(line.take(k) == head);
    assert(line.skip(k + 1) == tail);
    let none = Seq::<char>::empty();
    lemma_trim_word(none, key, a);
    assert(none + key + a == head);
}

/// A line with `key`, `=` and `value` sets `key` to `value`; white space may stand around `=` and
/// behind the value.
pub proof fn lemma_setting_line(
    c: Settings,
    key: Seq<char>,
    a: Seq<char>,
    b: Seq<char>,
    value: Seq<char>,
    gap: Seq<char>,
    home: Seq<char>,
)
    requires
        is_word(key),
        key[0] != '#',
        !key.contains('='),
        is_blank(a),
        is_blank(b),
        is_value(value),
        is_blank(gap),
    ensures
        after_line(c, key + a + seq!['='] + b + value + gap, home) == with_setting(
            c,
            key,
            value,
            home,
        ),
{
    let line = key + a + seq!['='] + b + value + gap;
    let none = Seq::<char>::empty();
    let word = key + a + seq!['='] + b + value;
    assert(word[0] == key[0] && word.last() == value.last());
    lemma_trim_word(none, word, gap);
    assert(none + word + gap == line);
    lemma_trim_word(none, word, none);
    assert(none + word + none == word);
    assert(word == key + a + seq!['='] + (b + value));
    lemma_split_line(c, key, a, b + value, home);
    lemma_value(b, value, none, none);
    assert(b + value + none + none == b + value);
}

/// A comment behind `key`, `=` and `value` makes no difference, however much white space stands
/// before it.
pub proof fn lemma_comment_behind_value(
    c: Settings,
    key: Seq<char>,
    a: Seq<char>,
    b: Seq<char>,
    value: Seq<char>,
    gap: Seq<char>,
    comment: Seq<char>,
    home: Seq<char>,
)
    requires
        is_word(key),
        key[0] != '#',
        !key.contains('='),
        is_blank(a),
        is_blank(b),
        is_value(value),
        is_blank(gap),
        gap.len() > 0,
    ensures
        after_line(c, key + a + seq!['='] + b + value + gap + seq!['#'] + comment, home)
            == with_setting(c, key, value, home),
{
    let front = key + a + seq!['='] + b + value + gap;
    let line = front + seq!['#'] + comment;
    let h = front.len() as int;
    assert(line[h] == '#');
    assert(line[0] == key[0]);
    assert(trim_start(line) == line);
    lemma_trim_end_reaches(line, h);
    let t = trim(line);
    let rest = t.skip(h);
    assert(t == front + rest);
    assert(rest[0] == '#');
    assert(t[0] == key[0]);
    assert(trim(t) == t) by {
        lemma_trimmed_end(line);
        lemma_trim_keeps(t);
    }
    assert(t == key + a + seq!['='] + (b + value + gap + rest));
    lemma_split_line(c, key, a, b + value + gap + rest, home);
    lemma_value(b, value, gap, rest);
}

proof fn lemma_trimmed_end(s: Seq<char>)
    ensures
        trim_end(s).len() > 0 ==> !is_space(trim_end(s).last()),
    decreases s.len(),
{
    if s.len() > 0 && is_space(s.last()) {
        lemma_trimmed_end(s.drop_last());
    }
}

/// The line `key = value`.
proof fn lemma_plain_line(c: Settings, key: Seq<char>, value: Seq<char>, home: Seq<char>)
    requires
        is_word(key),
        is_word(value),
        key[0] != '#',
        !key.contains('='),
        !value.contains('#'),
    ensures
        after_line(c, key + seq![' ', '=', ' '] + value, home) == with_setting(c, key, value, home),
{
    let none = Seq::<char>::empty();
    assert forall|i: int| 0 <= i < value.len() implies value[i] != '#' by {
        assert(value.contains(value[i]));
    }
    lemma_setting_line(c, key, seq![' '], seq![' '], value, none, home);
    assert(key + seq![' ', '=', ' '] + value == key + seq![' '] + seq!['='] + seq![' '] + value
        + none);
}

/// Whatever the file says, the gap between occasions is above zero and the destination of
/// uploads is not empty.
pub proof fn lemma_loaded_usable(text: Option<Seq<char>>, home: Seq<char>, dest: Option<Seq<char>>)
    ensures
        loaded(text, home, dest).gap_hours > 0,
        loaded(text, home, dest).rclone_dest.len() > 0,
{
    reveal_strlit("gdrive:Pictures");
    if let Some(t) = text {
        lemma_lines_usable(lines(t), home);
    }
}

proof fn lemma_lines_usable(ls: Seq<Seq<char>>, home: Seq<char>)
    ensures
        after_lines(defaults(home), ls, home).gap_hours > 0,
        after_lines(defaults(home), ls, home).rclone_dest.len() > 0,
    decreases ls.len(),
{
    reveal_strlit("gdrive:Pictures");
    if ls.len() > 0 {
        lemma_lines_usable(ls.drop_last(), home);
    }
}

/// Whether `c` does not stand in `s` before `n`.
spec fn lacks(s: Seq<char>, c: char, n: nat) -> bool
    decreases n,
{
    n == 0 || (s[n - 1] != c && lacks(s, c, (n - 1) as nat))
}

proof fn lemma_lacks(s: Seq<char>, c: char, n: nat)
    requires
        lacks(s, c, n),
    ensures
        forall|i: int| 0 <= i < n ==> s[i] != c,
    decreases n,
{
    if n > 0 {
        lemma_lacks(s, c, (n - 1) as nat);
    }
}

proof fn lemma_keys()
    ensures
        is_word("rclone_dest"@) && "rclone_dest"@[0] != '#' && !"rclone_dest"@.contains('='),
        is_word("gap_hours"@) && "gap_hours"@[0] != '#' && !"gap_hours"@.contains('='),
        is_word("pictures"@) && "pictures"@[0] != '#' && !"pictures"@.contains('='),
        "rclone_dest"@ != "gap_hours"@,
        "rclone_dest"@ != "pictures"@,
        "gap_hours"@ != "pictures"@,
{
    reveal_strlit("rclone_dest");
    reveal_strlit("gap_hours");
    reveal_strlit("pictures");
    reveal_with_fuel(lacks, 12);
    assert("rclone_dest"@.len() == 11 && "gap_hours"@.len() == 9 && "pictures"@.len() == 8);
    lemma_lacks("rclone_dest"@, '=', 11);
    lemma_lacks("gap_hours"@, '=', 9);
    lemma_lacks("pictures"@, '=', 8);
}

/// What a line sets counts over all that the lines before it said.
pub proof fn lemma_later_line_counts(
    c: Settings,
    ls: Seq<Seq<char>>,
    value: Seq<char>,
    home: Seq<char>,
)
    requires
        is_word(value),
        !value.contains('#'),
    ensures
        after_lines(c, ls.push("rclone_dest"@ + seq![' ', '=', ' '] + value), home).rclone_dest
            == value,
        after_lines(c, ls.push("pictures"@ + seq![' ', '=', ' '] + value), home).pictures
            == tilde_expanded(value, home),
        match i64_text(value) {
            Some(n) => n > 0 ==> after_lines(
                c,
                ls.push("gap_hours"@ + seq![' ', '=', ' '] + value),
                home,
            ).gap_hours == n,
            None => true,
        },
{
    lemma_keys();
    let before = after_lines(c, ls, home);
    lemma_plain_line(before, "rclone_dest"@, value, home);
    lemma_plain_line(before, "pictures"@, value, home);
    lemma_plain_line(before, "gap_hours"@, value, home);
    assert(ls.push("rclone_dest"@ + seq![' ', '=', ' '] + value).drop_last() == ls);
    assert(ls.push("pictures"@ + seq![' ', '=', ' '] + value).drop_last() == ls);
    assert(ls.push("gap_hours"@ + seq![' ', '=', ' '] + value).drop_last() == ls);
}

proof fn lemma_index_within(s: Seq<char>, rest: Seq<char>, c: char)
    requires
        s.contains(c),
    ensures
        0 <= index_of_char(s, c) < s.len(),
        index_of_char(s + rest, c) == index_of_char(s, c),
    decreases s.len(),
{
    if s[0] != c {
        let i = choose|i: int| 0 <= i < s.len() && s[i] == c;
        assert(s.drop_first()[i - 1] == c);
        assert((s + rest).drop_first() == s.drop_first() + rest);
        lemma_index_within(s.drop_first(), rest, c);
    }
}

proof fn lemma_lines_append(t: Seq<char>, line: Seq<char>)
    requires
        t.len() == 0 || t.last() == '\n',
        line.len() > 0,
        line.last() == '\n',
        lacks(line, '\n', (line.len() - 1) as nat),
        line.len() > 1 ==> line[line.len() - 2] != '\r',
    ensures
        lines(t + line) == lines(t).push(line.drop_last()),
    decreases t.len(),
{
    let empty = Seq::<char>::empty();
    if t.len() == 0 {
        lemma_lacks(line, '\n', (line.len() - 1) as nat);
        lemma_lines_split(line.drop_last(), empty);
        assert(line.drop_last().push('\n') + empty == line);
        assert(t + line == line);
        assert(lines(t) == Seq::<Seq<char>>::empty());
        assert(lines(empty) == Seq::<Seq<char>>::empty());
        assert(lines(t + line) == lines(t).push(line.drop_last()));
    } else {
        let k = index_of_char(t, '\n');
        let s = t + line;
        assert(t.contains(t[t.len() - 1]));
        lemma_index_within(t, line, '\n');
        assert(s.take(k) == t.take(k));
        assert(s.skip(k + 1) == t.skip(k + 1) + line);
        let head = seq![strip_cr(t.take(k))];
        lemma_lines_append(t.skip(k + 1), line);
        assert(head + lines(t.skip(k + 1)).push(line.drop_last()) == (head + lines(t.skip(k + 1))).push(
            line.drop_last(),
        ));
    }
}

proof fn lemma_after_append(c: Settings, t: Seq<char>, line: Seq<char>, home: Seq<char>)
    requires
        t.len() == 0 || t.last() == '\n',
        line.len() > 0,
        line.last() == '\n',
        lacks(line, '\n', (line.len() - 1) as nat),
        line.len() > 1 ==> line[line.len() - 2] != '\r',
    ensures
        after_lines(c, lines(t + line), home) == after_line(
            after_lines(c, lines(t), home),
            line.drop_last(),
            home,
        ),
        (t + line).last() == '\n',
{
    lemma_lines_append(t, line);
    assert(lines(t).push(line.drop_last()).drop_last() == lines(t));
}

/// A line of the template that says nothing: empty, or a comment.
proof fn lemma_silent(c: Settings, t: Seq<char>, line: Seq<char>, home: Seq<char>)
    requires
        t.len() == 0 || t.last() == '\n',
        line.len() > 0,
        line.last() == '\n',
        lacks(line, '\n', (line.len() - 1) as nat),
        line.len() > 1 ==> line[0] == '#' && line[line.len() - 2] != '\r',
    ensures
        after_lines(c, lines(t + line), home) == after_lines(c, lines(t), home),
        (t + line).last() == '\n',
{
    lemma_after_append(c, t, line, home);
    if line.len() > 1 {
        lemma_comment_line(after_lines(c, lines(t), home), line.drop_last(), home);
    } else {
        assert(line.drop_last() == Seq::<char>::empty());
    }
}

/// The file that is written where there is none says just what holds without a file.
pub proof fn lemma_template_says_defaults(home: Seq<char>)
    ensures
        loaded(Some(template()), home, None) == defaults(home),
{
    let c = defaults(home);
    reveal_with_fuel(lacks, 76);
    reveal_strlit("# wpic config\n");
    reveal_strlit("\n");
    reveal_strlit("# Google Drive upload destination (an rclone remote + base path).\n");
    reveal_strlit("# Each occasion uploads to <rclone_dest>/<occasion name>.\n");
    reveal_strlit("# Start a new occasion when consecutive shots are more than this\n");
    reveal_strlit("# many hours apart.\n");
    reveal_strlit("# Where sorted occasions live (card mode) and are managed (library mode).\n");
    let t0 = Seq::<char>::empty();
    let t1 = "# wpic config\n"@;
    assert(t0 + t1 == t1);
    lemma_silent(c, t0, "# wpic config\n"@, home);
    let t2 = t1 + "\n"@;
    lemma_silent(c, t1, "\n"@, home);
    let t3 = t2 + "# Google Drive upload destination (an rclone remote + base path).\n"@;
    lemma_silent(
        c,
        t2,
        "# Google Drive upload destination (an rclone remote + base path).\n"@,
        home,
    );
    let t4 = t3 + "# Each occasion uploads to <rclone_dest>/<occasion name>.\n"@;
    lemma_silent(c, t3, "# Each occasion uploads to <rclone_dest>/<occasion name>.\n"@, home);
    let t5 = t4 + "rclone_dest = gdrive:Pictures\n"@;
    lemma_dest_line(c, home);
    lemma_after_append(c, t4, "rclone_dest = gdrive:Pictures\n"@, home);
    let t6 = t5 + "\n"@;
    lemma_silent(c, t5, "\n"@, home);
    let t7 = t6 + "# Start a new occasion when consecutive shots are more than this\n"@;
    lemma_silent(
        c,
        t6,
        "# Start a new occasion when consecutive shots are more than this\n"@,
        home,
    );
    let t8 = t7 + "# many hours apart.\n"@;
    lemma_silent(c, t7, "# many hours apart.\n"@, home);
    let t9 = t8 + "gap_hours = 5\n"@;
    lemma_gap_line(c, home);
    lemma_after_append(c, t8, "gap_hours = 5\n"@, home);
    let t10 = t9 + "\n"@;
    lemma_silent(c, t9, "\n"@, home);
    let t11 = t10
        + "# Where sorted occasions live (card mode) and are managed (library mode).\n"@;
    lemma_silent(
        c,
        t10,
        "# Where sorted occasions live (card mode) and are managed (library mode).\n"@,
        home,
    );
    lemma_pictures_line(c, home);
    lemma_after_append(c, t11, "pictures = ~/Pictures\n"@, home);
}

proof fn lemma_dest_line(c: Settings, home: Seq<char>)
    requires
        c == defaults(home),
    ensures
        ({
            let line = "rclone_dest = gdrive:Pictures\n"@;
            &&& line.len() > 1
            &&& line.last() == '\n'
            &&& lacks(line, '\n', (line.len() - 1) as nat)
            &&& line[line.len() - 2] != '\r'
            &&& after_line(c, line.drop_last(), home) == c
        }),
{
    let line = "rclone_dest = gdrive:Pictures\n"@;
    reveal_strlit("rclone_dest = gdrive:Pictures\n");
    reveal_strlit("rclone_dest");
    reveal_strlit("gdrive:Pictures");
    reveal_with_fuel(lacks, 30);
    assert(line.len() == 30);
    assert("gdrive:Pictures"@.len() == 15);
    lemma_keys();
    lemma_lacks("gdrive:Pictures"@, '#', 15);
    lemma_plain_line(c, "rclone_dest"@, "gdrive:Pictures"@, home);
    assert(line.drop_last() == "rclone_dest"@ + seq![' ', '=', ' '] + "gdrive:Pictures"@);
}

proof fn lemma_gap_line(c: Settings, home: Seq<char>)
    requires
        c == defaults(home),
    ensures
        ({
            let line = "gap_hours = 5\n"@;
            &&& line.len() > 1
            &&& line.last() == '\n'
            &&& lacks(line, '\n', (line.len() - 1) as nat)
            &&& line[line.len() - 2] != '\r'
            &&& after_line(c, line.drop_last(), home) == c
        }),
{
    let line = "gap_hours = 5\n"@;
    reveal_strlit("gap_hours = 5\n");
    reveal_strlit("gap_hours");
    reveal_with_fuel(lacks, 14);
    assert(line.len() == 14);
    lemma_keys();
    lemma_plain_line(c, "gap_hours"@, seq!['5'], home);
    assert(line.drop_last() == "gap_hours"@ + seq![' ', '=', ' '] + seq!['5']);
    lemma_dec_reads_back(5);
    assert(dec(5) == seq!['5']);
    assert(i64_text(seq!['5']) == Some(5i64));
}

proof fn lemma_pictures_line(c: Settings, home: Seq<char>)
    requires
        c == defaults(home),
    ensures
        ({
            let line = "pictures = ~/Pictures\n"@;
            &&& line.len() > 1
            &&& line.last() == '\n'
            &&& lacks(line, '\n', (line.len() - 1) as nat)
            &&& line[line.len() - 2] != '\r'
            &&& after_line(c, line.drop_last(), home) == c
        }),
{
    let line = "pictures = ~/Pictures\n"@;
    reveal_strlit("pictures = ~/Pictures\n");
    reveal_strlit("pictures");
    reveal_strlit("Pictures");
    reveal_strlit("~/");
    let value = "~/"@ + "Pictures"@;
    reveal_with_fuel(lacks, 22);
    assert(line.len() == 22);
    assert(value.len() == 10);
    lemma_keys();
    lemma_lacks(value, '#', 10);
    lemma_plain_line(c, "pictures"@, value, home);
    assert(line.drop_last() == "pictures"@ + seq![' ', '=', ' '] + value);
    assert("~/"@.is_prefix_of(value));
    assert(value.skip(2) == "Pictures"@);
}

/// The settings once the line `key = value` stands behind the text `t`.
proof fn lemma_line_put(t: Seq<char>, key: Seq<char>, value: Seq<char>, home: Seq<char>)
    requires
        t.len() == 0 || t.last() == '\n',
        is_word(key),
        key[0] != '#',
        !key.contains('='),
        !key.contains('\n'),
        is_value(value),
        !value.contains('\n'),
    ensures
        loaded(Some(t + key + " = "@ + value + "\n"@), home, None) == with_setting(
            loaded(Some(t), home, None),
            key,
            value,
            home,
        ),
{
    reveal_strlit(" = ");
    reveal_strlit("\n");
    let none = Seq::<char>::empty();
    let l = key + " = "@ + value;
    assert(" = "@ == seq![' ', '=', ' ']);
    assert(l == key + seq![' '] + seq!['='] + seq![' '] + value + none);
    assert forall|i: int| 0 <= i < l.len() implies l[i] != '\n' by {
        if i < key.len() {
            assert(key.contains(key[i]));
        } else if i >= key.len() + 3 {
            assert(value.contains(value[i - key.len() - 3]));
        }
    }
    assert(l.last() == value.last());
    lemma_lines_put(t, l);
    assert(t + key + " = "@ + value + "\n"@ == t + l.push('\n'));
    assert(lines(t).push(l).drop_last() == lines(t));
    let c = loaded(Some(t), home, None);
    lemma_setting_line(c, key, seq![' '], seq![' '], value, none, home);
}

/// What a line of the file sets is set just so, and nothing else changes, whatever stands before
/// it: the destination as it is written, the library with the home directory put in, and the
/// hours where they are a number above zero.
pub proof fn lemma_settings_written(t: Seq<char>, value: Seq<char>, n: nat, home: Seq<char>)
    requires
        t.len() == 0 || t.last() == '\n',
        is_value(value),
        !value.contains('\n'),
        n <= i64::MAX,
    ensures
        ({
            let c = loaded(Some(t), home, None);
            &&& loaded(Some(t + "rclone_dest"@ + " = "@ + value + "\n"@), home, None) == (Settings {
                rclone_dest: value,
                ..c
            })
            &&& loaded(Some(t + "pictures"@ + " = "@ + value + "\n"@), home, None) == (Settings {
                pictures: tilde_expanded(value, home),
                ..c
            })
            &&& loaded(Some(t + "gap_hours"@ + " = "@ + dec(n) + "\n"@), home, None) == if n > 0 {
                Settings { gap_hours: n as i64, ..c }
            } else {
                c
            }
            &&& loaded(Some(t + "gap_hours"@ + " = "@ + (seq!['-'] + dec(n)) + "\n"@), home, None)
                == c
            &&& int_text(value) is None ==> loaded(
                Some(t + "gap_hours"@ + " = "@ + value + "\n"@),
                home,
                None,
            ) == c
        }),
{
    lemma_keys();
    lemma_keys_on_one_line();
    lemma_line_put(t, "rclone_dest"@, value, home);
    lemma_line_put(t, "pictures"@, value, home);
    lemma_line_put(t, "gap_hours"@, value, home);
    let d = dec(n);
    lemma_dec_reads_back(n);
    lemma_signed_number(n, 0);
    assert(fill('0', 0) + d == d);
    assert(is_digit(d[0]));
    assert(is_digit(d[d.len() - 1]));
    assert forall|i: int| 0 <= i < d.len() implies d[i] != '\n' && d[i] != '#' by {
        assert(is_digit(d[i]));
    }
    lemma_line_put(t, "gap_hours"@, d, home);
    let m = seq!['-'] + d;
    assert forall|i: int| 0 <= i < m.len() implies m[i] != '\n' && m[i] != '#' by {
        if i > 0 {
            assert(m[i] == d[i - 1]);
        }
    }
    assert(m.last() == d.last());
    lemma_line_put(t, "gap_hours"@, m, home);
}

proof fn lemma_keys_on_one_line()
    ensures
        !"rclone_dest"@.contains('\n'),
        !"gap_hours"@.contains('\n'),
        !"pictures"@.contains('\n'),
{
    reveal_strlit("rclone_dest");
    reveal_strlit("gap_hours");
    reveal_strlit("pictures");
    reveal_with_fuel(lacks, 12);
    assert("rclone_dest"@.len() == 11 && "gap_hours"@.len() == 9 && "pictures"@.len() == 8);
    lemma_lacks("rclone_dest"@, '\n', 11);
    lemma_lacks("gap_hours"@, '\n', 9);
    lemma_lacks("pictures"@, '\n', 8);
}

/// A line with another key sets nothing.
pub proof fn lemma_other_key(t: Seq<char>, key: Seq<char>, value: Seq<char>, home: Seq<char>)
    requires
        t.len() == 0 || t.last() == '\n',
        is_word(key),
        key[0] != '#',
        !key.contains('='),
        !key.contains('\n'),
        is_value(value),
        !value.contains('\n'),
        key != "rclone_dest"@,
        key != "gap_hours"@,
        key != "pictures"@,
    ensures
        loaded(Some(t + key + " = "@ + value + "\n"@), home, None) == loaded(Some(t), home, None),
{
    lemma_line_put(t, key, value, home);
}

/// A destination that the environment gives counts over the file, and changes nothing else; an
/// empty one does not count. Without a file the settings are the ones that the program has.
pub proof fn lemma_environment_counts(t: Option<Seq<char>>, home: Seq<char>, dest: Seq<char>)
    ensures
        dest.len() > 0 ==> loaded(t, home, Some(dest)) == (Settings {
            rclone_dest: dest,
            ..loaded(t, home, None)
        }),
        dest.len() == 0 ==> loaded(t, home, Some(dest)) == loaded(t, home, None),
        loaded(None, home, None).gap_hours == 5,
        loaded(None, home, None).rclone_dest == "gdrive:Pictures"@,
        home.len() > 0 && home.last() != '/' ==> loaded(None, home, None).pictures == home + "/"@
            + "Pictures"@,
        loaded(Some(Seq::<char>::empty()), home, None) == loaded(None, home, None),
{
    reveal_strlit("Pictures");
    lemma_join_shape(home, "Pictures"@);
    assert(lines(Seq::<char>::empty()) == Seq::<Seq<char>>::empty());
}

} // verus!
