//! Folder names of occasions: a date, a blank, and what the occasion was.
use crate::text::{copy_of, is_space, lemma_trimmed, trim, trim_str};
use vstd::prelude::*;
use vstd::utf8::{
    decode_utf8, encode_utf8, encode_utf8_decode_utf8, encode_utf8_valid_utf8, is_ascii_chars,
    is_ascii_chars_encode_utf8, is_char_boundary, is_char_boundary_iff_not_is_continuation_byte,
    is_continuation_byte, length_of_first_scalar, pop_first_scalar, valid_utf8,
};

verus! {

/// The part of a folder name behind a date of ten bytes and a blank; all of it where there is
/// no blank in that place.
pub open spec fn desc_of(target: Seq<char>) -> Seq<char> {
    let b = encode_utf8(target);
    if b.len() >= 11 && b[10] == 0x20 {
        decode_utf8(b.skip(11))
    } else {
        target
    }
}

/// Whether a folder name says more than a date.
pub open spec fn is_named(target: Seq<char>) -> bool {
    trim(desc_of(target)).len() > 0
}

proof fn lemma_boundary_after(b: Seq<u8>, i: int)
    requires
        valid_utf8(b),
        0 <= i < b.len(),
        b[i] < 0x80,
    ensures
        is_char_boundary(b, i + 1),
    decreases b.len(),
{
    let x = b[i];
    assert(!is_continuation_byte(x)) by (bit_vector)
        requires
            x < 0x80u8,
    ;
    is_char_boundary_iff_not_is_continuation_byte(b, i);
    let n = length_of_first_scalar(b);
    let rest = pop_first_scalar(b);
    reveal_with_fuel(is_char_boundary, 3);
    if i == 0 {
        assert(n == 1);
    } else {
        assert(is_char_boundary(rest, i - n));
        assert(n <= i);
        assert(rest[i - n] == b[i]);
        lemma_boundary_after(rest, i - n);
    }
}

/// The part of a folder name behind the date.
pub fn desc_part(target: &str) -> (r: String)
    ensures
        r@ == desc_of(target@),
{
    let b = target.as_bytes();
    if b.len() >= 11 && b[10] == 0x20 {
        proof {
            encode_utf8_valid_utf8(target@);
            lemma_boundary_after(encode_utf8(target@), 10);
        }
        let (_, rest) = target.split_at(11);
        proof {
            encode_utf8_decode_utf8(rest@);
            assert(encode_utf8(rest@) == encode_utf8(target@).skip(11));
        }
        copy_of(rest)
    } else {
        copy_of(target)
    }
}

/// Whether a folder name says more than a date.
pub fn named(target: &str) -> (r: bool)
    ensures
        r == is_named(target@),
{
    !trim_str(desc_part(target).as_str()).as_str().is_empty()
}

proof fn lemma_encode_ascii_prefix(a: Seq<char>, d: Seq<char>)
    requires
        is_ascii_chars(a),
    ensures
        encode_utf8(a + d) == encode_utf8(a) + encode_utf8(d),
    decreases a.len(),
{
    if a.len() == 0 {
        assert(a + d == d);
        assert(encode_utf8(a) + encode_utf8(d) == encode_utf8(d));
    } else {
        assert((a + d).drop_first() == a.drop_first() + d);
        lemma_encode_ascii_prefix(a.drop_first(), d);
    }
}

/// Behind a date of ten ASCII characters and a blank stands the description, whatever it is.
pub proof fn lemma_desc_of_dated(date: Seq<char>, desc: Seq<char>)
    requires
        is_ascii_chars(date),
        date.len() == 10,
    ensures
        desc_of(date.push(' ') + desc) == desc,
{
    let head = date.push(' ');
    assert(is_ascii_chars(head)) by {
        assert forall|i: int| 0 <= i < head.len() implies '\0' <= #[trigger] head[i] <= '\u{7f}' by {
            if i < 10 {
                assert(head[i] == date[i]);
            }
        }
    }
    lemma_encode_ascii_prefix(head, desc);
    is_ascii_chars_encode_utf8(head);
    let b = encode_utf8(head + desc);
    assert(head[10] == ' ');
    assert(b[10] == encode_utf8(head)[10]);
    assert(b.skip(11) == encode_utf8(desc));
    encode_utf8_decode_utf8(desc);
}

/// A date of ten ASCII characters with a blank behind it is no name yet.
pub proof fn lemma_date_alone_is_no_name(date: Seq<char>)
    requires
        is_ascii_chars(date),
        date.len() == 10,
    ensures
        !is_named(date.push(' ')),
{
    lemma_desc_of_dated(date, seq![]);
    assert(date.push(' ') + Seq::<char>::empty() == date.push(' '));
}

proof fn lemma_said(s: Seq<char>)
    ensures
        trim(s).len() > 0 <==> exists|i: int| 0 <= i < s.len() && !is_space(#[trigger] s[i]),
{
    let (a, b) = lemma_trimmed(s);
    let t = trim(s);
    if t.len() > 0 {
        assert(s[a.len() as int] == t[0]);
    } else {
        assert forall|i: int| 0 <= i < s.len() implies is_space(#[trigger] s[i]) by {
            if i < a.len() {
                assert(s[i] == a[i]);
            } else {
                assert(s[i] == b[i - a.len()]);
            }
        }
    }
}

/// A folder name with a date of ten ASCII characters and a blank in front is a name just where
/// something else than white space stands behind.
pub proof fn lemma_dated_name(date: Seq<char>, desc: Seq<char>)
    requires
        is_ascii_chars(date),
        date.len() == 10,
    ensures
        is_named(date.push(' ') + desc) <==> exists|i: int|
            0 <= i < desc.len() && !is_space(#[trigger] desc[i]),
{
    lemma_desc_of_dated(date, desc);
    lemma_said(desc);
}

/// An ASCII folder name without a blank behind ten characters is its own description, and a name
/// just where it holds something else than white space.
pub proof fn lemma_undated_name(target: Seq<char>)
    requires
        is_ascii_chars(target),
        target.len() <= 10 || target[10] != ' ',
    ensures
        desc_of(target) == target,
        is_named(target) <==> exists|i: int|
            0 <= i < target.len() && !is_space(#[trigger] target[i]),
{
    is_ascii_chars_encode_utf8(target);
    if target.len() > 10 {
        let c = target[10];
        assert(encode_utf8(target)[10] == c as u8);
        assert('\0' <= c <= '\u{7f}');
    }
    lemma_said(target);
}

} // verus!
