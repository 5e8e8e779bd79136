//! Text as sequences of characters: trimming, lines, searching, joining, padding.
use vstd::prelude::*;
use vstd::slice::slice_subrange;

verus! {

/// `String::push` appends one character.
pub assume_specification[ String::push ](s: &mut String, ch: char)
    ensures
        final(s)@ == old(s)@.push(ch),
;

/// `String::pop` removes the last character, if there is one, and returns it.
pub assume_specification[ String::pop ](s: &mut String) -> (r: Option<char>)
    ensures
        old(s)@.len() == 0 ==> r is None && final(s)@ == old(s)@,
        old(s)@.len() > 0 ==> r == Some(old(s)@.last()) && final(s)@ == old(s)@.drop_last(),
;

/// What each string of `v` holds.
pub open spec fn strs(v: Seq<String>) -> Seq<Seq<char>> {
    v.map_values(|s: String| s@)
}

/// The white space characters of Unicode.
pub open spec fn is_space(c: char) -> bool {
    ||| '\u{9}' <= c <= '\u{d}'
    ||| c == ' '
    ||| c == '\u{85}'
    ||| c == '\u{a0}'
    ||| c == '\u{1680}'
    ||| '\u{2000}' <= c <= '\u{200a}'
    ||| c == '\u{2028}'
    ||| c == '\u{2029}'
    ||| c == '\u{202f}'
    ||| c == '\u{205f}'
    ||| c == '\u{3000}'
}

/// `s` without the white space at its start.
pub open spec fn trim_start(s: Seq<char>) -> Seq<char>
    decreases s.len(),
{
    if s.len() > 0 && is_space(s[0]) {
        trim_start(s.drop_first())
    } else {
        s
    }
}

/// `s` without the white space at its end.
pub open spec fn trim_end(s: Seq<char>) -> Seq<char>
    decreases s.len(),
{
    if s.len() > 0 && is_space(s.last()) {
        trim_end(s.drop_last())
    } else {
        s
    }
}

/// `s` without the white space at either end.
pub open spec fn trim(s: Seq<char>) -> Seq<char> {
    trim_end(trim_start(s))
}

/// `s` without any `c` at its end.
pub open spec fn trim_end_of(s: Seq<char>, c: char) -> Seq<char>
    decreases s.len(),
{
    if s.len() > 0 && s.last() == c {
        trim_end_of(s.drop_last(), c)
    } else {
        s
    }
}

/// Where `c` first occurs in `s`; the length of `s` where it does not.
pub open spec fn index_of_char(s: Seq<char>, c: char) -> int
    decreases s.len(),
{
    if s.len() == 0 || s[0] == c {
        0
    } else {
        1 + index_of_char(s.drop_first(), c)
    }
}

/// `s` without one carriage return at its end.
pub open spec fn strip_cr(s: Seq<char>) -> Seq<char> {
    if s.len() > 0 && s.last() == '\r' {
        s.drop_last()
    } else {
        s
    }
}

/// The lines of `s`: each ends at a line feed, which may follow a carriage return;
/// what follows the last line feed is a line too, unless it is empty.
pub open spec fn lines(s: Seq<char>) -> Seq<Seq<char>>
    decreases s.len(),
{
    let k = index_of_char(s, '\n');
    if s.len() == 0 {
        seq![]
    } else if 0 <= k < s.len() {
        seq![strip_cr(s.take(k))] + lines(s.skip(k + 1))
    } else {
        seq![s]
    }
}

/// Whether `p` stands in `s` at `i`.
pub open spec fn occurs_at(s: Seq<char>, p: Seq<char>, i: int) -> bool {
    0 <= i && i + p.len() <= s.len() && s.subrange(i, i + p.len()) == p
}

/// Whether `p` stands anywhere in `s`.
pub open spec fn has_text(s: Seq<char>, p: Seq<char>) -> bool {
    exists|i: int| occurs_at(s, p, i)
}

/// The `parts` one after the other, with `sep` between them.
pub open spec fn join(parts: Seq<Seq<char>>, sep: Seq<char>) -> Seq<char>
    decreases parts.len(),
{
    if parts.len() == 0 {
        seq![]
    } else if parts.len() == 1 {
        parts[0]
    } else {
        join(parts.drop_last(), sep) + sep + parts.last()
    }
}

/// `n` times `c`.
pub open spec fn fill(c: char, n: int) -> Seq<char> {
    Seq::new(if n > 0 { n as nat } else { 0 }, |i: int| c)
}

/// `s` moved to the right end of a column of `w` characters.
pub open spec fn pad_left(s: Seq<char>, w: int) -> Seq<char> {
    fill(' ', w - s.len()) + s
}

/// `s` at the left end of a column of `w` characters.
pub open spec fn pad_right(s: Seq<char>, w: int) -> Seq<char> {
    s + fill(' ', w - s.len())
}

/// The characters of `s`, one by one.
pub fn chars_of(s: &str) -> (v: Vec<char>)
    ensures
        v@ == s@,
{
    let mut v: Vec<char> = Vec::new();
    for c in it: s.chars()
        invariant
            v@ == s@.take(it.index() as int),
            it.seq() == s@,
    {
        v.push(c);
    }
    v
}

/// The string made of `v`.
pub fn string_of(v: &[char]) -> (s: String)
    ensures
        s@ == v@,
{
    let mut s: String = String::new();
    for i in 0..v.len()
        invariant
            s@ == v@.take(i as int),
    {
        s.push(v[i]);
    }
    s
}

/// Whether `c` is white space.
pub fn space(c: char) -> (b: bool)
    ensures
        b == is_space(c),
{
    ('\u{9}' <= c && c <= '\u{d}') || c == ' ' || c == '\u{85}' || c == '\u{a0}' || c == '\u{1680}'
        || ('\u{2000}' <= c && c <= '\u{200a}') || c == '\u{2028}' || c == '\u{2029}'
        || c == '\u{202f}' || c == '\u{205f}' || c == '\u{3000}'
}

/// Trims the white space at the start of `v`.
pub fn trim_start_chars(v: &[char]) -> (r: &[char])
    ensures
        r@ == trim_start(v@),
{
    let mut i: usize = 0;
    assert(v@.skip(0) == v@);
    while i < v.len() && space(v[i])
        invariant
            i <= v.len(),
            trim_start(v@) == trim_start(v@.skip(i as int)),
        decreases v.len() - i,
    {
        assert(v@.skip(i as int).drop_first() == v@.skip(i + 1));
        i += 1;
    }
    slice_subrange(v, i, v.len())
}

/// Trims the white space at the end of `v`.
pub fn trim_end_chars(v: &[char]) -> (r: &[char])
    ensures
        r@ == trim_end(v@),
{
    let mut n: usize = v.len();
    assert(v@.take(n as int) == v@);
    while n > 0 && space(v[n - 1])
        invariant
            n <= v.len(),
            trim_end(v@) == trim_end(v@.take(n as int)),
        decreases n,
    {
        assert(v@.take(n as int).drop_last() == v@.take(n - 1));
        n -= 1;
    }
    slice_subrange(v, 0, n)
}

/// Trims the white space at both ends of `s`.
pub fn trim_str(s: &str) -> (r: String)
    ensures
        r@ == trim(s@),
{
    let v = chars_of(s);
    string_of(trim_end_chars(trim_start_chars(v.as_slice())))
}

/// Trims the white space at the end of `s`.
pub fn trim_end_str(s: &str) -> (r: String)
    ensures
        r@ == trim_end(s@),
{
    let v = chars_of(s);
    string_of(trim_end_chars(v.as_slice()))
}

/// Trims every `c` at the end of `s`.
pub fn trim_end_char(s: &str, c: char) -> (r: String)
    ensures
        r@ == trim_end_of(s@, c),
{
    let v = chars_of(s);
    let mut n: usize = v.len();
    assert(v@.take(n as int) == v@);
    while n > 0 && v[n - 1] == c
        invariant
            n <= v.len(),
            trim_end_of(v@, c) == trim_end_of(v@.take(n as int), c),
        decreases n,
    {
        assert(v@.take(n as int).drop_last() == v@.take(n - 1));
        n -= 1;
    }
    string_of(slice_subrange(v.as_slice(), 0, n))
}

/// Before the first place where `c` stands there is no other.
pub proof fn lemma_index_of_char(s: Seq<char>, c: char)
    ensures
        0 <= index_of_char(s, c) <= s.len(),
        index_of_char(s, c) < s.len() ==> s[index_of_char(s, c)] == c,
        forall|i: int| 0 <= i < index_of_char(s, c) ==> s[i] != c,
    decreases s.len(),
{
    if s.len() > 0 && s[0] != c {
        lemma_index_of_char(s.drop_first(), c);
        assert forall|i: int| 0 <= i < index_of_char(s, c) implies s[i] != c by {
            if i > 0 {
                assert(s[i] == s.drop_first()[i - 1]);
            }
        }
    }
}

/// Where `c` first stands in `v`; the length of `v` where it does not.
pub fn find_char(v: &[char], c: char) -> (k: usize)
    ensures
        k == index_of_char(v@, c),
        k <= v@.len(),
        k < v@.len() ==> v@[k as int] == c,
        forall|i: int| 0 <= i < k ==> v@[i] != c,
{
    let mut k: usize = 0;
    assert(v@.skip(0) == v@);
    while k < v.len() && v[k] != c
        invariant
            k <= v.len(),
            index_of_char(v@, c) == k + index_of_char(v@.skip(k as int), c),
        decreases v.len() - k,
    {
        assert(v@.skip(k as int).drop_first() == v@.skip(k + 1));
        k += 1;
    }
    proof {
        lemma_index_of_char(v@, c);
    }
    k
}

/// The lines of `s`.
pub fn lines_of(s: &str) -> (r: Vec<String>)
    ensures
        strs(r@) == lines(s@),
{
    let v = chars_of(s);
    let mut rest: &[char] = v.as_slice();
    let mut r: Vec<String> = Vec::new();
    while rest.len() > 0
        invariant
            lines(s@) == strs(r@) + lines(rest@),
        decreases rest.len(),
    {
        let k: usize = find_char(rest, '\n');
        let ghost before = r@;
        let ghost whole = rest@;
        if k < rest.len() {
            let n: usize = if k > 0 && rest[k - 1] == '\r' { k - 1 } else { k };
            let line = string_of(slice_subrange(rest, 0, n));
            assert(line@ == strip_cr(rest@.take(k as int)));
            r.push(line);
            rest = slice_subrange(rest, k + 1, rest.len());
            assert(rest@ == whole.skip(k + 1));
            assert(strs(r@) == strs(before) + seq![line@]);
        } else {
            let line = string_of(rest);
            r.push(line);
            rest = slice_subrange(rest, rest.len(), rest.len());
            assert(strs(r@) == strs(before) + seq![line@]);
            assert(lines(whole) == seq![whole]);
        }
    }
    r
}

/// Splits `s` around the first `c`.
pub fn split_once_at(s: &str, c: char) -> (r: Option<(String, String)>)
    ensures
        match r {
            Some((a, b)) => {
                &&& index_of_char(s@, c) < s@.len()
                &&& a@ == s@.take(index_of_char(s@, c))
                &&& b@ == s@.skip(index_of_char(s@, c) + 1)
            },
            None => index_of_char(s@, c) == s@.len(),
        },
{
    let v = chars_of(s);
    let k: usize = find_char(v.as_slice(), c);
    if k < v.len() {
        Some((
            string_of(slice_subrange(v.as_slice(), 0, k)),
            string_of(slice_subrange(v.as_slice(), k + 1, v.len())),
        ))
    } else {
        None
    }
}

/// Whether the two sequences hold the same characters.
pub fn same_chars(a: &[char], b: &[char]) -> (r: bool)
    ensures
        r == (a@ == b@),
{
    if a.len() != b.len() {
        return false;
    }
    let mut i: usize = 0;
    while i < a.len()
        invariant
            i <= a.len(),
            a.len() == b.len(),
            forall|j: int| 0 <= j < i ==> a@[j] == b@[j],
        decreases a.len() - i,
    {
        if a[i] != b[i] {
            return false;
        }
        i += 1;
    }
    assert(a@ == b@);
    true
}

/// Whether `p` stands in `v` at `i`.
pub fn occurs(v: &[char], p: &[char], i: usize) -> (r: bool)
    ensures
        r == occurs_at(v@, p@, i as int),
{
    if i > v.len() || p.len() > v.len() - i {
        return false;
    }
    same_chars(slice_subrange(v, i, i + p.len()), p)
}

/// Whether `s` begins with `p`.
pub fn starts_with(s: &str, p: &str) -> (r: bool)
    ensures
        r == p@.is_prefix_of(s@),
{
    let v = chars_of(s);
    let q = chars_of(p);
    let r = occurs(v.as_slice(), q.as_slice(), 0);
    proof {
        if r {
            assert(s@.subrange(0, p@.len() as int) == p@);
        }
    }
    r
}

/// Whether `s` ends with `p`.
pub fn ends_with(s: &str, p: &str) -> (r: bool)
    ensures
        r == p@.is_suffix_of(s@),
{
    let v = chars_of(s);
    let q = chars_of(p);
    if q.len() > v.len() {
        return false;
    }
    occurs(v.as_slice(), q.as_slice(), v.len() - q.len())
}

/// Whether `p` stands anywhere in `s`.
pub fn contains_str(s: &str, p: &str) -> (r: bool)
    ensures
        r == has_text(s@, p@),
{
    let v = chars_of(s);
    let q = chars_of(p);
    let mut i: usize = 0;
    loop
        invariant
            i <= v.len(),
            v@ == s@,
            q@ == p@,
            forall|j: int| 0 <= j < i ==> !occurs_at(s@, p@, j),
        decreases v.len() - i,
    {
        if occurs(v.as_slice(), q.as_slice(), i) {
            assert(occurs_at(s@, p@, i as int));
            return true;
        }
        if i == v.len() {
            assert forall|j: int| !occurs_at(s@, p@, j) by {
                if j > i {
                    assert(j + p@.len() > s@.len());
                }
            }
            return false;
        }
        i += 1;
    }
}

/// Whether `c` stands anywhere in `s`.
pub fn contains_char(s: &str, c: char) -> (r: bool)
    ensures
        r == s@.contains(c),
{
    let v = chars_of(s);
    let k: usize = find_char(v.as_slice(), c);
    proof {
        if k < v.len() {
            assert(s@[k as int] == c);
        }
    }
    k < v.len()
}

/// Whether the two strings hold the same text.
pub fn same(a: &str, b: &str) -> (r: bool)
    ensures
        r == (a@ == b@),
{
    let x = a.as_bytes();
    let y = b.as_bytes();
    if x.len() != y.len() {
        return false;
    }
    let mut i: usize = 0;
    while i < x.len()
        invariant
            i <= x.len(),
            x.len() == y.len(),
            x@ == vstd::utf8::encode_utf8(a@),
            y@ == vstd::utf8::encode_utf8(b@),
            forall|j: int| 0 <= j < i ==> x@[j] == y@[j],
        decreases x.len() - i,
    {
        if x[i] != y[i] {
            return false;
        }
        i += 1;
    }
    proof {
        assert(x@ == y@);
        vstd::utf8::encode_utf8_decode_utf8(a@);
        vstd::utf8::encode_utf8_decode_utf8(b@);
    }
    true
}

/// A copy of `s`.
pub fn copy_of(s: &str) -> (r: String)
    ensures
        r@ == s@,
{
    s.to_owned()
}

/// The `parts` with `sep` between them.
pub fn join_strings(parts: &Vec<String>, sep: &str) -> (r: String)
    ensures
        r@ == join(strs(parts@), sep@),
{
    let mut r: String = String::new();
    let ghost all = strs(parts@);
    for i in 0..parts.len()
        invariant
            all == strs(parts@),
            r@ == join(all.take(i as int), sep@),
    {
        let ghost before = r@;
        if i > 0 {
            r.append(sep);
        }
        r.append(parts[i].as_str());
        assert(all.take(i + 1).drop_last() == all.take(i as int));
        assert(all.take(i + 1).last() == parts@[i as int]@);
        if i == 0 {
            assert(before == Seq::<char>::empty());
        }
    }
    assert(all.take(all.len() as int) == all);
    r
}

/// `n` times `c` after `s`.
pub fn push_fill(s: &mut String, c: char, n: usize)
    ensures
        final(s)@ == old(s)@ + fill(c, n as int),
{
    let mut i: usize = 0;
    while i < n
        invariant
            i <= n,
            s@ == old(s)@ + fill(c, i as int),
        decreases n - i,
    {
        s.push(c);
        i += 1;
    }
}

/// `s` at the right end of a column of `w` characters.
pub fn padded_left(s: &str, w: usize) -> (r: String)
    ensures
        r@ == pad_left(s@, w as int),
{
    let n: usize = s.unicode_len();
    let mut r: String = String::new();
    if n < w {
        push_fill(&mut r, ' ', w - n);
    }
    r.append(s);
    r
}

/// `s` at the left end of a column of `w` characters.
pub fn padded_right(s: &str, w: usize) -> (r: String)
    ensures
        r@ == pad_right(s@, w as int),
{
    let n: usize = s.unicode_len();
    let mut r: String = String::new();
    r.append(s);
    if n < w {
        push_fill(&mut r, ' ', w - n);
    }
    r
}

/// What an optional text holds.
pub open spec fn opt_str(s: Option<&str>) -> Option<Seq<char>> {
    match s {
        Some(t) => Some(t@),
        None => None,
    }
}

/// What an optional string holds.
pub open spec fn opt_string(s: Option<String>) -> Option<Seq<char>> {
    match s {
        Some(t) => Some(t@),
        None => None,
    }
}

/// What an optional list of strings holds.
pub open spec fn opt_list(v: Option<Vec<String>>) -> Option<Seq<Seq<char>>> {
    match v {
        Some(l) => Some(strs(l@)),
        None => None,
    }
}

/// Adds a copy of `s` to `v`.
pub fn push_copy(v: &mut Vec<String>, s: &str)
    ensures
        strs(final(v)@) == strs(old(v)@).push(s@),
{
    let ghost before = v@;
    let c = copy_of(s);
    v.push(c);
    assert(strs(v@) == strs(before).push(c@));
}

/// A copy of a list of strings.
pub fn copy_list(v: &Vec<String>) -> (r: Vec<String>)
    ensures
        strs(r@) == strs(v@),
{
    let mut r: Vec<String> = Vec::new();
    for i in 0..v.len()
        invariant
            strs(r@) == strs(v@).take(i as int),
    {
        push_copy(&mut r, v[i].as_str());
    }
    r
}

/// Among the ASCII characters just the blank and the characters from tab to carriage return are
/// white space.
pub proof fn lemma_ascii_space(c: char)
    requires
        c as u32 <= 127,
    ensures
        is_space(c) <==> (c as u32 == 32 || 9 <= c as u32 <= 13),
{
}

/// Whether `s` is nothing but white space.
pub open spec fn all_space(s: Seq<char>) -> bool {
    forall|i: int| 0 <= i < s.len() ==> is_space(#[trigger] s[i])
}

proof fn lemma_trim_start_parts(s: Seq<char>) -> (a: Seq<char>)
    ensures
        s == a + trim_start(s),
        all_space(a),
        trim_start(s).len() > 0 ==> !is_space(trim_start(s)[0]),
    decreases s.len(),
{
    if s.len() > 0 && is_space(s[0]) {
        let b = lemma_trim_start_parts(s.drop_first());
        let a = seq![s[0]] + b;
        assert(s == seq![s[0]] + s.drop_first());
        assert(seq![s[0]] + (b + trim_start(s)) == a + trim_start(s));
        a
    } else {
        assert(s == Seq::<char>::empty() + s);
        seq![]
    }
}

proof fn lemma_trim_end_parts(s: Seq<char>) -> (b: Seq<char>)
    ensures
        s == trim_end(s) + b,
        all_space(b),
        trim_end(s).len() > 0 ==> !is_space(trim_end(s).last()) && trim_end(s)[0] == s[0],
    decreases s.len(),
{
    if s.len() > 0 && is_space(s.last()) {
        let c = lemma_trim_end_parts(s.drop_last());
        let b = c.push(s.last());
        assert(s == s.drop_last().push(s.last()));
        assert((trim_end(s) + c).push(s.last()) == trim_end(s) + b);
        b
    } else {
        assert(s == s + Seq::<char>::empty());
        seq![]
    }
}

/// Trimming takes white space from both ends, all of it, and nothing else.
pub proof fn lemma_trimmed(s: Seq<char>) -> (ends: (Seq<char>, Seq<char>))
    ensures
        s == ends.0 + trim(s) + ends.1,
        all_space(ends.0),
        all_space(ends.1),
        trim(s).len() > 0 ==> !is_space(trim(s)[0]) && !is_space(trim(s).last()),
{
    let a = lemma_trim_start_parts(s);
    let b = lemma_trim_end_parts(trim_start(s));
    assert(s == a + trim(s) + b);
    (a, b)
}

/// Text that begins and ends with something else than white space stays as it is when trimmed.
pub proof fn lemma_trim_tight(s: Seq<char>)
    requires
        s.len() > 0 ==> !is_space(s[0]) && !is_space(s.last()),
    ensures
        trim(s) == s,
{
}

/// What stands before a character that is taken off the end stays, but for more of that
/// character.
pub proof fn lemma_trim_end_of(s: Seq<char>, c: char)
    ensures
        ({
            let r = trim_end_of(s, c);
            &&& r.len() <= s.len()
            &&& r == s.take(r.len() as int)
            &&& r.len() > 0 ==> r.last() != c
            &&& forall|i: int| r.len() <= i < s.len() ==> s[i] == c
        }),
    decreases s.len(),
{
    if s.len() > 0 && s.last() == c {
        let f = s.drop_last();
        lemma_trim_end_of(f, c);
        let r = trim_end_of(s, c);
        assert(r == s.take(r.len() as int));
        assert forall|i: int| r.len() <= i < s.len() implies s[i] == c by {
            if i < f.len() {
                assert(f[i] == c);
            }
        }
    } else {
        assert(s == s.take(s.len() as int));
    }
}

/// A text holds another just where it is that other text with something before and behind it.
pub proof fn lemma_has_text(s: Seq<char>, p: Seq<char>)
    ensures
        has_text(s, p) <==> exists|a: Seq<char>, b: Seq<char>| s == #[trigger] (a + p + b),
{
    if has_text(s, p) {
        let i = choose|i: int| occurs_at(s, p, i);
        assert(s == s.take(i) + p + s.skip(i + p.len()));
    }
    if exists|a: Seq<char>, b: Seq<char>| s == #[trigger] (a + p + b) {
        let (a, b) = choose|a: Seq<char>, b: Seq<char>| s == #[trigger] (a + p + b);
        assert(s.subrange(a.len() as int, (a.len() + p.len()) as int) == p);
        assert(occurs_at(s, p, a.len() as int));
    }
}

/// What stands between two other parts of a text stands in it.
pub proof fn lemma_text_within(a: Seq<char>, p: Seq<char>, b: Seq<char>, s: Seq<char>)
    requires
        s =~= a + p + b,
    ensures
        has_text(s, p),
{
    lemma_has_text(s, p);
    assert(s == a + p + b);
}

proof fn lemma_first_at(a: Seq<char>, c: char, b: Seq<char>)
    requires
        !a.contains(c),
    ensures
        index_of_char(a.push(c) + b, c) == a.len(),
{
    let s = a.push(c) + b;
    lemma_index_of_char(s, c);
    let k = index_of_char(s, c);
    assert(s[a.len() as int] == c);
    if k < a.len() {
        assert(a.contains(a[k]));
    }
}

/// A line that is put behind text that ends with a line feed, or behind none, is one more line,
/// whether it ends with a line feed, with a carriage return and a line feed, or with neither.
pub proof fn lemma_lines_put(t: Seq<char>, line: Seq<char>)
    requires
        t.len() == 0 || t.last() == '\n',
        !line.contains('\n'),
    ensures
        line.len() == 0 || line.last() != '\r' ==> lines(t + line.push('\n')) == lines(t).push(
            line,
        ),
        lines(t + line.push('\r').push('\n')) == lines(t).push(line),
        line.len() > 0 ==> lines(t + line) == lines(t).push(line),
    decreases t.len(),
{
    let none = Seq::<char>::empty();
    let one = line.push('\n');
    let cr = line.push('\r');
    let two = cr.push('\n');
    if t.len() == 0 {
        assert(t + one == one + none);
        assert(t + two == two + none);
        assert(t + line == line);
        lemma_first_at(line, '\n', none);
        assert(!cr.contains('\n')) by {
            assert forall|i: int| 0 <= i < cr.len() implies cr[i] != '\n' by {
                if i < line.len() {
                    assert(line.contains(line[i]));
                }
            }
        }
        lemma_first_at(cr, '\n', none);
        lemma_index_of_char(line, '\n');
        assert(index_of_char(line, '\n') == line.len()) by {
            let k = index_of_char(line, '\n');
            if k < line.len() {
                assert(line.contains(line[k]));
            }
        }
        assert((one + none).take(line.len() as int) == line);
        assert((one + none).skip(line.len() as int + 1) == none);
        assert((two + none).take(cr.len() as int) == cr);
        assert((two + none).skip(cr.len() as int + 1) == none);
        assert(cr.drop_last() == line);
        assert(lines(none) == Seq::<Seq<char>>::empty());
        assert(lines(t) == Seq::<Seq<char>>::empty());
        assert(seq![line] + lines(none) == lines(t).push(line));
    } else {
        let k = index_of_char(t, '\n');
        lemma_index_of_char(t, '\n');
        assert(k < t.len());
        let u = t.skip(k + 1);
        let h = t.take(k);
        assert(!h.contains('\n'));
        assert(t == h.push('\n') + u);
        lemma_lines_put(u, line);
        assert forall|x: Seq<char>|
            #![trigger (t + x)]
            lines(t + x) == seq![strip_cr(h)] + lines(u + x) by {
            assert(t + x == h.push('\n') + (u + x));
            lemma_first_at(h, '\n', u + x);
            assert((t + x).take(k) == h);
            assert((t + x).skip(k + 1) == u + x);
        }
        assert(seq![strip_cr(h)] + lines(u).push(line) == (seq![strip_cr(h)] + lines(u)).push(line));
        assert(lines(t) == seq![strip_cr(h)] + lines(u));
    }
}

/// Joining is putting one after the other: two joined lists with the separator between them are
/// the joined whole.
pub proof fn lemma_join(a: Seq<Seq<char>>, b: Seq<Seq<char>>, sep: Seq<char>)
    requires
        a.len() > 0,
        b.len() > 0,
    ensures
        join(a + b, sep) == join(a, sep) + sep + join(b, sep),
        a.len() == 1 ==> join(a, sep) == a[0],
        join(Seq::<Seq<char>>::empty(), sep).len() == 0,
    decreases b.len(),
{
    let c = a + b;
    let f = b.drop_last();
    assert(c.drop_last() == a + f);
    assert(c.last() == b.last());
    if b.len() == 1 {
        assert(a + f == a);
    } else {
        lemma_join(a, f, sep);
        assert(join(a, sep) + sep + join(f, sep) + sep + b.last() == join(a, sep) + sep + (join(
            f,
            sep,
        ) + sep + b.last()));
    }
}

/// A padded text is as wide as its column, or as itself where it is wider; the text stands at
/// its end and the rest is blanks.
pub proof fn lemma_padded(s: Seq<char>, w: int)
    ensures
        ({
            let l = pad_left(s, w);
            let r = pad_right(s, w);
            let n = if w > s.len() {
                w
            } else {
                s.len() as int
            };
            &&& l.len() == n && l.skip(n - s.len()) == s
            &&& r.len() == n && r.take(s.len() as int) == s
            &&& forall|i: int| 0 <= i < n - s.len() ==> l[i] == ' ' && #[trigger] r[s.len() as int + i] == ' '
        }),
{
    let l = pad_left(s, w);
    let r = pad_right(s, w);
    assert(l.skip(l.len() - s.len()) == s);
    assert(r.take(s.len() as int) == s);
}

/// Each part of a joined list stands in it.
pub proof fn lemma_join_has(parts: Seq<Seq<char>>, sep: Seq<char>, i: int)
    requires
        0 <= i < parts.len(),
    ensures
        has_text(join(parts, sep), parts[i]),
{
    let none = Seq::<char>::empty();
    let s = join(parts, sep);
    let p = parts[i];
    let a = parts.take(i);
    let b = parts.skip(i + 1);
    assert(seq![p].len() == 1);
    let front = if i > 0 {
        join(a, sep) + sep
    } else {
        none
    };
    let back = if b.len() > 0 {
        sep + join(b, sep)
    } else {
        none
    };
    let head = a + seq![p];
    assert(parts == head + b);
    assert(join(seq![p], sep) == p);
    if i > 0 {
        lemma_join(a, seq![p], sep);
    } else {
        assert(head == seq![p]);
        assert(none + p == p);
    }
    assert(join(head, sep) == front + p);
    if b.len() > 0 {
        lemma_join(head, b, sep);
    } else {
        assert(parts == head);
    }
    assert(s == front + p + back);
    lemma_has_text(s, p);
}

/// The code points of the characters that are white space.
pub open spec fn space_points() -> Seq<u32> {
    seq![
        9u32, 10, 11, 12, 13, 32, 133, 160, 5760, 8192, 8193, 8194, 8195, 8196, 8197, 8198, 8199,
        8200, 8201, 8202, 8232, 8233, 8239, 8287, 12288,
    ]
}

/// White space are the 25 characters that Unicode says, and no others.
pub proof fn lemma_space_points(c: char)
    ensures
        is_space(c) <==> space_points().contains(c as u32),
{
    let l = space_points();
    let n = c as u32;
    assert(l.len() == 25);
    if is_space(c) {
        if 9 <= n <= 13 {
            assert(l[n - 9] == n);
        } else if 8192 <= n <= 8202 {
            assert(l[n - 8192 + 9] == n);
        } else {
            assert(l[5] == 32 && l[6] == 133 && l[7] == 160 && l[8] == 5760 && l[20] == 8232 && l[21]
                == 8233 && l[22] == 8239 && l[23] == 8287 && l[24] == 12288);
        }
    }
}

} // verus!
