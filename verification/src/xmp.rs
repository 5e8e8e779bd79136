//! Ratings in XMP sidecars, as darktable keeps them.
use crate::number::{dec, push_dec};
use vstd::prelude::*;
use vstd::slice::slice_subrange;
use vstd::utf8::{encode_utf8, is_ascii_chars};

verus! {

/// The bytes of `xmp:Rating`.
pub open spec fn tag() -> Seq<u8> {
    seq![0x78u8, 0x6d, 0x70, 0x3a, 0x52, 0x61, 0x74, 0x69, 0x6e, 0x67]
}

/// Whether `xmp:Rating` stands in `b` at `p`.
pub open spec fn tag_at(b: Seq<u8>, p: int) -> bool {
    0 <= p && p + 10 <= b.len() && b.subrange(p, p + 10) == tag()
}

/// Whether `xmp:Rating` stands in `b` at `p`, and nowhere before.
pub open spec fn first_tag(b: Seq<u8>, p: int) -> bool {
    tag_at(b, p) && forall|q: int| 0 <= q < p ==> !tag_at(b, q)
}

/// Whether the byte `x` is a digit.
pub open spec fn byte_digit(x: u8) -> bool {
    0x30 <= x <= 0x39
}

/// Whether a number may begin with the byte `x`.
pub open spec fn begins_number(x: u8) -> bool {
    byte_digit(x) || x == 0x2d
}

/// Whether a number begins in `a` at `i`, and none before.
pub open spec fn first_number(a: Seq<u8>, i: int) -> bool {
    0 <= i < a.len() && begins_number(a[i]) && forall|j: int| 0 <= j < i ==> !begins_number(a[j])
}

/// The value of the digits that `a` begins with.
pub open spec fn leading_value(a: Seq<u8>, acc: nat) -> nat
    decreases a.len(),
{
    if a.len() > 0 && byte_digit(a[0]) {
        leading_value(a.drop_first(), acc * 10 + (a[0] - 0x30) as nat)
    } else {
        acc
    }
}

/// The rating in what follows `xmp:Rating`: the number that begins within 16 bytes, where it is
/// 1 to 5.
pub open spec fn rating_after(a: Seq<u8>) -> Option<u8> {
    if exists|i: int| first_number(a, i) && i < 16 {
        let i = choose|i: int| first_number(a, i) && i < 16;
        let v = leading_value(a.skip(i), 0);
        if byte_digit(a[i]) && 1 <= v <= 5 {
            Some(v as u8)
        } else {
            None
        }
    } else {
        None
    }
}

/// The rating in the sidecar `b`: that of the first `xmp:Rating`, as an attribute or as an
/// element. A rejected (negative) or zero rating is none.
pub open spec fn rating_in(b: Seq<u8>) -> Option<u8> {
    if exists|p: int| first_tag(b, p) {
        let p = choose|p: int| first_tag(b, p);
        rating_after(b.skip(p + 10))
    } else {
        None
    }
}

/// The sidecar that is written for a new rating `r`.
pub open spec fn sidecar_text(r: nat) -> Seq<char> {
    "<?xpacket begin=\"\" id=\"W5M0MpCehiHzreSzNTczkc9d\"?>\n"@
        + "<x:xmpmeta xmlns:x=\"adobe:ns:meta/\">\n"@
        + " <rdf:RDF xmlns:rdf=\"http://www.w3.org/1999/02/22-rdf-syntax-ns#\">\n"@
        + "  <rdf:Description rdf:about=\"\" xmlns:xmp=\"http://ns.adobe.com/xap/1.0/\">\n"@
        + "   <xmp:Rating>"@ + dec(r)
        + "</xmp:Rating>\n  </rdf:Description>\n </rdf:RDF>\n</x:xmpmeta>\n<?xpacket end=\"w\"?>\n"@
}

/// The rating in the sidecar `text`.
pub fn read_xmp_rating(text: &str) -> (r: Option<u8>)
    ensures
        r == rating_in(encode_utf8(text@)),
{
    let b = text.as_bytes();
    let mut p: usize = 0;
    while p < b.len() && b.len() - p >= 10
        invariant
            p <= b.len(),
            b@ == encode_utf8(text@),
            forall|q: int| 0 <= q < p ==> !tag_at(b@, q),
        decreases b.len() - p,
    {
        if b[p] == 0x78 && b[p + 1] == 0x6d && b[p + 2] == 0x70 && b[p + 3] == 0x3a && b[p + 4]
            == 0x52 && b[p + 5] == 0x61 && b[p + 6] == 0x74 && b[p + 7] == 0x69 && b[p + 8] == 0x6e
            && b[p + 9] == 0x67 {
            let after = slice_subrange(b, p + 10, b.len());
            proof {
                assert(b@.subrange(p as int, p + 10) == tag());
                assert(first_tag(b@, p as int));
                let q = choose|q: int| first_tag(b@, q);
                assert(q == p);
                assert(after@ == b@.skip(p + 10));
            }
            return number_after(after);
        }
        proof {
            if tag_at(b@, p as int) {
                let t = b@.subrange(p as int, p + 10);
                assert(forall|i: int| 0 <= i < 10 ==> t[i] == b@[p + i]);
                assert(t[0] == b@[p as int] && t[1] == b@[p + 1] && t[2] == b@[p + 2] && t[3]
                    == b@[p + 3] && t[4] == b@[p + 4] && t[5] == b@[p + 5] && t[6] == b@[p + 6]
                    && t[7] == b@[p + 7] && t[8] == b@[p + 8] && t[9] == b@[p + 9]);
            }
        }
        p += 1;
    }
    assert forall|q: int| !first_tag(b@, q) by {
        if q >= p {
            assert(q + 10 > b@.len());
        }
    }
    None
}

proof fn lemma_leading_value_grows(a: Seq<u8>, acc: nat)
    ensures
        leading_value(a, acc) >= acc,
    decreases a.len(),
{
    if a.len() > 0 && byte_digit(a[0]) {
        lemma_leading_value_grows(a.drop_first(), acc * 10 + (a[0] - 0x30) as nat);
    }
}

/// The rating in what follows `xmp:Rating`.
fn number_after(a: &[u8]) -> (r: Option<u8>)
    ensures
        r == rating_after(a@),
{
    let lim: usize = if a.len() < 16 { a.len() } else { 16 };
    let mut i: usize = 0;
    while i < lim && !((0x30 <= a[i] && a[i] <= 0x39) || a[i] == 0x2d)
        invariant
            i <= lim <= a.len(),
            forall|j: int| 0 <= j < i ==> !begins_number(a@[j]),
        decreases lim - i,
    {
        i += 1;
    }
    if i >= lim {
        assert forall|k: int| !(first_number(a@, k) && k < 16) by {}
        return None;
    }
    proof {
        assert(first_number(a@, i as int) && i < 16);
        let k = choose|k: int| first_number(a@, k) && k < 16;
        assert(k == i);
    }
    if a[i] == 0x2d {
        return None;
    }
    let ghost x = leading_value(a@.skip(i as int), 0);
    assert(rating_after(a@) == if 1 <= x <= 5 { Some(x as u8) } else { None });
    let mut v: u8 = 0;
    let mut j: usize = i;
    while j < a.len() && 0x30 <= a[j] && a[j] <= 0x39
        invariant
            i <= j <= a.len(),
            v <= 5,
            x == leading_value(a@.skip(j as int), v as nat),
            rating_after(a@) == if 1 <= x <= 5 { Some(x as u8) } else { None },
        ensures
            x == v,
            v <= 5,
        decreases a.len() - j,
    {
        let n: u8 = v * 10 + (a[j] - 0x30);
        assert(a@.skip(j as int).drop_first() == a@.skip(j + 1));
        if n > 5 {
            proof {
                lemma_leading_value_grows(a@.skip(j + 1), n as nat);
            }
            return None;
        }
        v = n;
        j += 1;
    }
    if v >= 1 {
        Some(v)
    } else {
        None
    }
}

/// The sidecar for a new rating `rating`.
pub fn new_sidecar(rating: u8) -> (s: String)
    ensures
        s@ == sidecar_text(rating as nat),
{
    let mut s: String = String::new();
    s.append("<?xpacket begin=\"\" id=\"W5M0MpCehiHzreSzNTczkc9d\"?>\n");
    assert(s@ == "<?xpacket begin=\"\" id=\"W5M0MpCehiHzreSzNTczkc9d\"?>\n"@);
    s.append("<x:xmpmeta xmlns:x=\"adobe:ns:meta/\">\n");
    s.append(" <rdf:RDF xmlns:rdf=\"http://www.w3.org/1999/02/22-rdf-syntax-ns#\">\n");
    s.append("  <rdf:Description rdf:about=\"\" xmlns:xmp=\"http://ns.adobe.com/xap/1.0/\">\n");
    s.append("   <xmp:Rating>");
    push_dec(&mut s, rating as u64);
    s.append(
        "</xmp:Rating>\n  </rdf:Description>\n </rdf:RDF>\n</x:xmpmeta>\n<?xpacket end=\"w\"?>\n",
    );
    s
}

/// How a rating gets into a sidecar.
pub enum RatingWrite {
    /// The existing sidecar is changed by exiv2, which is handed this command.
    Change(String),
    /// A new sidecar with this text is written.
    Create(String),
    /// Nothing is written: no sidecar, no rating.
    Leave,
}

/// How the rating `rating` gets into the sidecar of an image, which may exist.
pub fn write_rating_xmp(exists: bool, rating: u8) -> (w: RatingWrite)
    ensures
        match w {
            RatingWrite::Change(cmd) => exists && cmd@ == "set Xmp.xmp.Rating "@ + dec(
                rating as nat,
            ),
            RatingWrite::Create(text) => !exists && rating > 0 && text@ == sidecar_text(
                rating as nat,
            ),
            RatingWrite::Leave => !exists && rating == 0,
        },
{
    if exists {
        let mut cmd: String = String::new();
        cmd.append("set Xmp.xmp.Rating ");
        assert(cmd@ == "set Xmp.xmp.Rating "@);
        push_dec(&mut cmd, rating as u64);
        RatingWrite::Change(cmd)
    } else if rating > 0 {
        RatingWrite::Create(new_sidecar(rating))
    } else {
        RatingWrite::Leave
    }
}

/// Whether the first `n` characters of `s` are ASCII, and none of them but the one at `except`
/// is an `R`.
spec fn plain(s: Seq<char>, n: int, except: int) -> bool
    decreases n,
{
    n <= 0 || (s[n - 1] <= '\u{7f}' && (s[n - 1] != 'R' || n - 1 == except) && plain(
        s,
        n - 1,
        except,
    ))
}

proof fn lemma_plain(s: Seq<char>, n: int, except: int)
    requires
        plain(s, n, except),
    ensures
        forall|i: int|
            0 <= i < n ==> #[trigger] s[i] <= '\u{7f}' && (s[i] == 'R' ==> i == except),
    decreases n,
{
    if n > 0 {
        lemma_plain(s, n - 1, except);
    }
}

proof fn lemma_head_plain()
    ensures
        ({
            let a1 = "<?xpacket begin=\"\" id=\"W5M0MpCehiHzreSzNTczkc9d\"?>\n"@;
            let a2 = "<x:xmpmeta xmlns:x=\"adobe:ns:meta/\">\n"@;
            &&& plain(a1, a1.len() as int, -1)
            &&& plain(a2, a2.len() as int, -1)
        }),
{
    reveal_strlit("<?xpacket begin=\"\" id=\"W5M0MpCehiHzreSzNTczkc9d\"?>\n");
    reveal_strlit("<x:xmpmeta xmlns:x=\"adobe:ns:meta/\">\n");
    reveal_with_fuel(plain, 60);
}

proof fn lemma_rdf_plain()
    ensures
        ({
            let a3 = " <rdf:RDF xmlns:rdf=\"http://www.w3.org/1999/02/22-rdf-syntax-ns#\">\n"@;
            &&& plain(a3, a3.len() as int, 6)
            &&& a3.len() > 8
            &&& a3[7] == 'D'
        }),
{
    reveal_strlit(" <rdf:RDF xmlns:rdf=\"http://www.w3.org/1999/02/22-rdf-syntax-ns#\">\n");
    reveal_with_fuel(plain, 80);
}

proof fn lemma_description_plain()
    ensures
        ({
            let a4 =
                "  <rdf:Description rdf:about=\"\" xmlns:xmp=\"http://ns.adobe.com/xap/1.0/\">\n"@;
            plain(a4, a4.len() as int, -1)
        }),
{
    reveal_strlit(
        "  <rdf:Description rdf:about=\"\" xmlns:xmp=\"http://ns.adobe.com/xap/1.0/\">\n",
    );
    reveal_with_fuel(plain, 90);
}

proof fn lemma_tail_plain()
    ensures
        ({
            let z =
                "</xmp:Rating>\n  </rdf:Description>\n </rdf:RDF>\n</x:xmpmeta>\n<?xpacket end=\"w\"?>\n"@;
            &&& z.len() > 0
            &&& z[0] == '<'
            &&& is_ascii_chars(z)
        }),
{
    let z =
        "</xmp:Rating>\n  </rdf:Description>\n </rdf:RDF>\n</x:xmpmeta>\n<?xpacket end=\"w\"?>\n"@;
    reveal_strlit(
        "</xmp:Rating>\n  </rdf:Description>\n </rdf:RDF>\n</x:xmpmeta>\n<?xpacket end=\"w\"?>\n",
    );
    reveal_with_fuel(ascii_up_to, 100);
    assert(ascii_up_to(z, z.len() as int));
    lemma_ascii_up_to(z, z.len() as int);
}

spec fn ascii_up_to(s: Seq<char>, n: int) -> bool
    decreases n,
{
    n <= 0 || (s[n - 1] <= '\u{7f}' && ascii_up_to(s, n - 1))
}

proof fn lemma_ascii_up_to(s: Seq<char>, n: int)
    requires
        ascii_up_to(s, n),
    ensures
        forall|i: int| 0 <= i < n ==> '\0' <= #[trigger] s[i] <= '\u{7f}',
    decreases n,
{
    if n > 0 {
        lemma_ascii_up_to(s, n - 1);
        lemma_char_from_zero(s[n - 1]);
    }
}

proof fn lemma_char_from_zero(c: char)
    ensures
        '\0' <= c,
{
}

/// A rating that is written into a new sidecar is read back from it.
pub proof fn lemma_sidecar_reads_back(r: u8)
    requires
        1 <= r <= 5,
    ensures
        rating_in(encode_utf8(sidecar_text(r as nat))) == Some(r),
{
    let a1 = "<?xpacket begin=\"\" id=\"W5M0MpCehiHzreSzNTczkc9d\"?>\n"@;
    let a2 = "<x:xmpmeta xmlns:x=\"adobe:ns:meta/\">\n"@;
    let a3 = " <rdf:RDF xmlns:rdf=\"http://www.w3.org/1999/02/22-rdf-syntax-ns#\">\n"@;
    let a4 = "  <rdf:Description rdf:about=\"\" xmlns:xmp=\"http://ns.adobe.com/xap/1.0/\">\n"@;
    let a5 = "   <xmp:Rating>"@;
    let z =
        "</xmp:Rating>\n  </rdf:Description>\n </rdf:RDF>\n</x:xmpmeta>\n<?xpacket end=\"w\"?>\n"@;
    let head = a1 + a2 + a3 + a4;
    let n = head.len() as int;
    let rdf: int = (a1.len() + a2.len() + 6) as int;
    let text = sidecar_text(r as nat);
    let d = dec(r as nat);
    assert(d == seq![crate::number::digit(r as nat)]);
    assert(text == head + a5 + d + z);
    lemma_head_plain();
    lemma_rdf_plain();
    lemma_description_plain();
    lemma_tail_plain();
    lemma_plain(a1, a1.len() as int, -1);
    lemma_plain(a2, a2.len() as int, -1);
    lemma_plain(a3, a3.len() as int, 6);
    lemma_plain(a4, a4.len() as int, -1);
    reveal_strlit("   <xmp:Rating>");
    assert forall|i: int| 0 <= i < n implies #[trigger] head[i] <= '\u{7f}' && (head[i] == 'R'
        ==> i == rdf) by {
        if i < a1.len() {
            assert(head[i] == a1[i]);
        } else if i < a1.len() + a2.len() {
            assert(head[i] == a2[i - a1.len()]);
        } else if i < a1.len() + a2.len() + a3.len() {
            assert(head[i] == a3[i - a1.len() - a2.len()]);
        } else {
            assert(head[i] == a4[i - a1.len() - a2.len() - a3.len()]);
        }
    }
    assert(head[rdf + 1] == 'D') by {
        assert(head[rdf + 1] == a3[7]);
    }
    assert(is_ascii_chars(text)) by {
        assert forall|i: int| 0 <= i < text.len() implies '\0' <= #[trigger] text[i]
            <= '\u{7f}' by {
            lemma_char_from_zero(text[i]);
            if i < n {
                assert(text[i] == head[i]);
            } else if i < n + 15 {
                assert(text[i] == a5[i - n]);
            } else if i == n + 15 {
                assert(text[i] == d[0]);
            } else {
                assert(text[i] == z[i - n - 16]);
            }
        }
    }
    vstd::utf8::is_ascii_chars_encode_utf8(text);
    let b = encode_utf8(text);
    assert(forall|i: int| 0 <= i < text.len() ==> b[i] == #[trigger] text[i] as u8);
    let p = n + 4;
    assert(forall|i: int| 0 <= i < 15 ==> text[n + i] == #[trigger] a5[i]);
    assert(text[n + 4] == a5[4] && text[n + 5] == a5[5] && text[n + 6] == a5[6] && text[n + 7]
        == a5[7] && text[n + 8] == a5[8] && text[n + 9] == a5[9] && text[n + 10] == a5[10] && text[n
        + 11] == a5[11] && text[n + 12] == a5[12] && text[n + 13] == a5[13] && text[n + 14]
        == a5[14]);
    assert(b.subrange(p, p + 10) == tag());
    assert(first_tag(b, p)) by {
        assert forall|q: int| 0 <= q < p implies !tag_at(b, q) by {
            if tag_at(b, q) {
                let t = b.subrange(q, q + 10);
                assert(t[4] == b[q + 4] && t[5] == b[q + 5]);
                assert(text[q + 4] as u8 == 0x52);
                assert(text[q + 4] == 'R');
                if q + 4 < n {
                    assert(head[q + 4] == 'R');
                    assert(text[q + 5] == head[q + 5] || q + 5 == n);
                    assert(text[q + 5] as u8 == 0x61);
                } else {
                    assert(text[q + 4] == a5[q + 4 - n]);
                }
            }
        }
    }
    let c = choose|c: int| first_tag(b, c);
    assert(c == p);
    let after = b.skip(p + 10);
    assert(after[0] == 0x3e) by {
        assert(text[n + 14] == a5[14]);
    }
    assert(text[n + 15] == d[0]);
    assert(text[n + 16] == z[0]);
    assert(after[1] == 0x30 + r);
    assert(after[2] == 0x3c);
    assert(first_number(after, 1));
    let i = choose|i: int| first_number(after, i) && i < 16;
    assert(i == 1);
    let s = after.skip(1);
    assert(s[0] == after[1] && s.drop_first()[0] == after[2]);
    reveal_with_fuel(leading_value, 3);
    assert(leading_value(s, 0) == r);
}

proof fn lemma_tag_text()
    ensures
        encode_utf8("xmp:Rating"@) == tag(),
{
    reveal_strlit("xmp:Rating");
    let s = "xmp:Rating"@;
    assert(s.len() == 10);
    assert(is_ascii_chars(s));
    vstd::utf8::is_ascii_chars_encode_utf8(s);
    let b = encode_utf8(s);
    assert(b[0] == s[0] as u8 && b[1] == s[1] as u8 && b[2] == s[2] as u8 && b[3] == s[3] as u8 && b[4]
        == s[4] as u8 && b[5] == s[5] as u8 && b[6] == s[6] as u8 && b[7] == s[7] as u8 && b[8]
        == s[8] as u8 && b[9] == s[9] as u8);
    assert(b == tag());
}

/// Whether the text `xmp:Rating` begins in `b` nowhere before `n`.
pub open spec fn no_tag_before(b: Seq<u8>, n: int) -> bool {
    forall|q: int|
        0 <= q < n && q + 10 <= b.len() ==> #[trigger] b.subrange(q, q + 10) != encode_utf8(
            "xmp:Rating"@,
        )
}

/// Whether no byte of `gap` is a digit or a minus sign.
pub open spec fn no_number_in(gap: Seq<u8>) -> bool {
    forall|i: int|
        0 <= i < gap.len() ==> !(48 <= (#[trigger] gap[i]) <= 57) && gap[i] != 45
}

/// The rating of a sidecar is the number behind its first `xmp:Rating`, with at most 15 other
/// characters between the two, such as `="` or `>`: one digit from 1 to 5. Any other digit, a
/// number of two digits, and a negative one are no rating.
pub proof fn lemma_rating_found(pre: Seq<u8>, gap: Seq<u8>, v: u8, rest: Seq<u8>)
    requires
        no_number_in(gap),
        gap.len() <= 15,
        v <= 9,
        rest.len() == 0 || !(48 <= rest[0] <= 57),
        no_tag_before(
            pre + encode_utf8("xmp:Rating"@) + gap + seq![(48 + v) as u8] + rest,
            pre.len() as int,
        ),
    ensures
        rating_in(pre + encode_utf8("xmp:Rating"@) + gap + seq![(48 + v) as u8] + rest) == if 1 <= v
            <= 5 {
            Some(v)
        } else {
            None
        },
{
    let b = pre + encode_utf8("xmp:Rating"@) + gap + seq![(48 + v) as u8] + rest;
    let tail = gap + seq![(48 + v) as u8] + rest;
    lemma_tag_text();
    assert(b == pre + encode_utf8("xmp:Rating"@) + tail);
    lemma_tag_found(pre, tail);
    let i = gap.len() as int;
    assert(tail[i] == 48 + v);
    assert forall|j: int| 0 <= j < i implies !begins_number(tail[j]) by {
        assert(tail[j] == gap[j]);
    }
    assert(first_number(tail, i));
    let c = choose|c: int| first_number(tail, c) && c < 16;
    assert(c == i);
    let s = tail.skip(i);
    assert(s == seq![(48 + v) as u8] + rest);
    assert(s.drop_first() == rest);
    reveal_with_fuel(leading_value, 3);
    assert(leading_value(s, 0) == v);
}

proof fn lemma_tag_found(pre: Seq<u8>, tail: Seq<u8>)
    requires
        no_tag_before(pre + encode_utf8("xmp:Rating"@) + tail, pre.len() as int),
    ensures
        rating_in(pre + encode_utf8("xmp:Rating"@) + tail) == rating_after(tail),
{
    let b = pre + encode_utf8("xmp:Rating"@) + tail;
    lemma_tag_text();
    let p = pre.len() as int;
    assert(b.subrange(p, p + 10) == tag());
    assert(first_tag(b, p));
    let c = choose|c: int| first_tag(b, c);
    assert(c == p);
    assert(b.skip(p + 10) == tail);
}

/// A number of more than one digit that begins with none but 0, and a negative one, are no
/// rating; neither is one that stands too far behind `xmp:Rating`.
pub proof fn lemma_rating_refused(pre: Seq<u8>, gap: Seq<u8>, rest: Seq<u8>)
    requires
        no_number_in(gap),
        no_tag_before(pre + encode_utf8("xmp:Rating"@) + (gap + rest), pre.len() as int),
        gap.len() >= 16 || rest.len() == 0 || rest[0] == 45 || (rest.len() >= 2 && 49 <= rest[0]
            <= 57 && 48 <= rest[1] <= 57),
    ensures
        rating_in(pre + encode_utf8("xmp:Rating"@) + (gap + rest)) is None,
{
    let tail = gap + rest;
    lemma_tag_found(pre, tail);
    let i = gap.len() as int;
    assert forall|j: int| 0 <= j < i implies !begins_number(tail[j]) by {
        assert(tail[j] == gap[j]);
    }
    if rest.len() > 0 {
        assert(tail[i] == rest[0]);
    }
    if exists|c: int| first_number(tail, c) && c < 16 {
        let c = choose|c: int| first_number(tail, c) && c < 16;
        assert(c >= i);
        assert(c == i) by {
            if c > i {
                assert(begins_number(tail[i]));
            }
        }
        let s = tail.skip(c);
        assert(s == rest);
        if rest[0] != 45 {
            reveal_with_fuel(leading_value, 3);
            let n = ((rest[0] - 0x30) * 10 + (rest[1] - 0x30)) as nat;
            let u = s.drop_first().drop_first();
            assert(s.drop_first()[0] == rest[1]);
            assert(leading_value(s, 0) == leading_value(u, n));
            lemma_leading_value_grows(u, n);
        }
    }
}

/// A sidecar without `xmp:Rating` has no rating.
pub proof fn lemma_no_rating(b: Seq<u8>)
    requires
        no_tag_before(b, b.len() as int),
    ensures
        rating_in(b) is None,
{
    lemma_tag_text();
    assert forall|p: int| !first_tag(b, p) by {
        if tag_at(b, p) {
            assert(b.subrange(p, p + 10) != encode_utf8("xmp:Rating"@));
        }
    }
}

} // verus!
