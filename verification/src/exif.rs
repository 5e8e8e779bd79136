//! The orientation that a camera notes in its JPEG and TIFF (NEF) files.
use vstd::prelude::*;
use vstd::slice::slice_subrange;

verus! {

/// The 16 bit number at `o`, low byte first where `le`; 0 where it does not lie in `t`.
pub open spec fn word(t: Seq<u8>, o: int, le: bool) -> int {
    if o < 0 || o + 2 > t.len() {
        0
    } else if le {
        t[o] + 256 * t[o + 1]
    } else {
        256 * t[o] + t[o + 1]
    }
}

/// The 32 bit number at `o`, low byte first where `le`; 0 where it does not lie in `t`.
pub open spec fn long(t: Seq<u8>, o: int, le: bool) -> int {
    if o < 0 || o + 4 > t.len() {
        0
    } else if le {
        word(t, o, le) + 65536 * word(t, o + 2, le)
    } else {
        65536 * word(t, o, le) + word(t, o + 2, le)
    }
}

/// Whether `t` begins with the two bytes `a` and `b`.
pub open spec fn begins(t: Seq<u8>, a: u8, b: u8) -> bool {
    t.len() >= 2 && t[0] == a && t[1] == b
}

/// Whether `t` begins as a TIFF with the low byte first: `II`.
pub open spec fn is_intel(t: Seq<u8>) -> bool {
    begins(t, 0x49, 0x49)
}

/// Whether `t` begins as a TIFF with the high byte first: `MM`.
pub open spec fn is_motorola(t: Seq<u8>) -> bool {
    begins(t, 0x4d, 0x4d)
}

/// Where the entry `k` of the first directory of the TIFF `t` begins.
pub open spec fn entry_at(t: Seq<u8>, k: int) -> int {
    long(t, 4, is_intel(t)) + 2 + k * 12
}

/// How many entries the first directory of the TIFF `t` claims to have.
pub open spec fn entry_count(t: Seq<u8>) -> int {
    word(t, long(t, 4, is_intel(t)), is_intel(t))
}

/// Whether the entry `k` lies in `t` and notes an orientation.
pub open spec fn notes_orientation(t: Seq<u8>, k: int) -> bool {
    let e = entry_at(t, k);
    &&& 0 <= k < entry_count(t)
    &&& e + 12 <= t.len()
    &&& word(t, e, is_intel(t)) == 0x0112
    &&& 1 <= word(t, e + 8, is_intel(t)) <= 8
}

/// Whether the entry `k` is the first that notes an orientation.
pub open spec fn first_note(t: Seq<u8>, k: int) -> bool {
    notes_orientation(t, k) && forall|j: int| 0 <= j < k ==> !notes_orientation(t, j)
}

/// The orientation that the TIFF `t` notes first in its first directory.
pub open spec fn tiff_orientation_of(t: Seq<u8>) -> Option<int> {
    if t.len() >= 8 && (is_intel(t) || is_motorola(t)) && exists|k: int| first_note(t, k) {
        Some(word(t, entry_at(t, choose|k: int| first_note(t, k)) + 8, is_intel(t)))
    } else {
        None
    }
}

/// The orientation of the JPEG `d`, whose segments are looked through from `i` on up to the
/// picture data: that of the first Exif segment that notes one, else 1.
pub open spec fn segments_orientation(d: Seq<u8>, i: int) -> int
    decreases (if i < d.len() { d.len() - i } else { 0 }),
{
    if i < 0 || i + 4 > d.len() || d[i] != 0xff || d[i + 1] == 0xda {
        1
    } else {
        let s = i + 4;
        let tiff = if d[i + 1] == 0xe1 && d.len() >= s + 6 && is_exif(d, s) {
            tiff_orientation_of(d.skip(s + 6))
        } else {
            None
        };
        match tiff {
            Some(o) => o,
            None => segments_orientation(d, i + 2 + word(d, i + 2, false)),
        }
    }
}

/// Whether `Exif` stands in `d` at `s`.
pub open spec fn is_exif(d: Seq<u8>, s: int) -> bool {
    d[s] == 0x45 && d[s + 1] == 0x78 && d[s + 2] == 0x69 && d[s + 3] == 0x66
}

/// The orientation, 1 to 8, of the image file that begins with `d`; 1 where none is noted.
pub open spec fn orientation_of(d: Seq<u8>) -> int {
    if is_intel(d) || is_motorola(d) {
        match tiff_orientation_of(d) {
            Some(o) => o,
            None => 1,
        }
    } else if begins(d, 0xff, 0xd8) {
        segments_orientation(d, 2)
    } else {
        1
    }
}

fn word_at(t: &[u8], o: u64, le: bool) -> (r: u16)
    ensures
        r == word(t@, o as int, le),
{
    let n: u64 = t.len() as u64;
    if o >= n || n - o < 2 {
        return 0;
    }
    let i: usize = o as usize;
    if le {
        t[i] as u16 + 256 * (t[i + 1] as u16)
    } else {
        256 * (t[i] as u16) + t[i + 1] as u16
    }
}

fn long_at(t: &[u8], o: u64, le: bool) -> (r: u32)
    ensures
        r == long(t@, o as int, le),
{
    let n: u64 = t.len() as u64;
    if o >= n || n - o < 4 {
        return 0;
    }
    let a: u32 = word_at(t, o, le) as u32;
    let b: u32 = word_at(t, o + 2, le) as u32;
    if le {
        a + 65536 * b
    } else {
        65536 * a + b
    }
}

/// The orientation that the TIFF `t` notes.
pub fn tiff_orientation(t: &[u8]) -> (r: Option<u8>)
    ensures
        match r {
            Some(o) => tiff_orientation_of(t@) == Some(o as int) && 1 <= o <= 8,
            None => tiff_orientation_of(t@) is None,
        },
{
    if t.len() < 8 {
        return None;
    }
    let le: bool = t[0] == 0x49 && t[1] == 0x49;
    if !le && !(t[0] == 0x4d && t[1] == 0x4d) {
        return None;
    }
    let ifd: u64 = long_at(t, 4, le) as u64;
    let n: u64 = word_at(t, ifd, le) as u64;
    let mut k: u64 = 0;
    while k < n
        invariant
            k <= n <= 65535,
            ifd <= 0xffff_ffff,
            t@.len() >= 8,
            le == is_intel(t@),
            is_intel(t@) || is_motorola(t@),
            ifd == long(t@, 4, le),
            n == entry_count(t@),
            forall|j: int| 0 <= j < k ==> !notes_orientation(t@, j),
        decreases n - k,
    {
        let e: u64 = ifd + 2 + k * 12;
        assert(e == entry_at(t@, k as int));
        if e + 12 > t.len() as u64 {
            assert forall|j: int| !first_note(t@, j) by {
                if j >= k {
                    assert(entry_at(t@, j) >= e);
                }
            }
            return None;
        }
        if word_at(t, e, le) == 0x0112 {
            let v: u16 = word_at(t, e + 8, le);
            if 1 <= v && v <= 8 {
                proof {
                    assert(first_note(t@, k as int));
                    let c = choose|c: int| first_note(t@, c);
                    assert(c == k);
                }
                return Some(v as u8);
            }
        }
        k += 1;
    }
    assert forall|j: int| !first_note(t@, j) by {}
    None
}

proof fn lemma_orientation_range(d: Seq<u8>, i: int)
    ensures
        1 <= segments_orientation(d, i) <= 8,
        tiff_orientation_of(d) matches Some(o) ==> 1 <= o <= 8,
    decreases (if i < d.len() { d.len() - i } else { 0 }),
{
    if tiff_orientation_of(d) is Some {
        let k = choose|k: int| first_note(d, k);
        assert(notes_orientation(d, k));
    }
    if !(i < 0 || i + 4 > d.len() || d[i] != 0xff || d[i + 1] == 0xda) {
        let s = i + 4;
        if d.len() >= s + 6 {
            let t = d.skip(s + 6);
            if tiff_orientation_of(t) is Some {
                let k = choose|k: int| first_note(t, k);
                assert(notes_orientation(t, k));
            }
        }
        lemma_orientation_range(d, i + 2 + word(d, i + 2, false));
    }
}

/// An orientation is always one of the eight.
pub proof fn lemma_orientation_is_one_of_eight(d: Seq<u8>)
    ensures
        1 <= orientation_of(d) <= 8,
{
    lemma_orientation_range(d, 2);
}

/// The orientation of the image file that begins with `d`.
pub fn media_orientation(d: &[u8]) -> (r: u8)
    ensures
        r == orientation_of(d@),
{
    if d.len() >= 2 && ((d[0] == 0x49 && d[1] == 0x49) || (d[0] == 0x4d && d[1] == 0x4d)) {
        return match tiff_orientation(d) {
            Some(o) => o,
            None => 1,
        };
    }
    if d.len() < 4 || d[0] != 0xff || d[1] != 0xd8 {
        return 1;
    }
    let mut i: usize = 2;
    while i <= d.len() && d.len() - i >= 4 && d[i] == 0xff
        invariant
            orientation_of(d@) == segments_orientation(d@, i as int),
        decreases d.len() - i,
    {
        let marker: u8 = d[i + 1];
        if marker == 0xda {
            return 1;
        }
        let len: usize = word_at(d, (i + 2) as u64, false) as usize;
        if marker == 0xe1 {
            let s: usize = i + 4;
            if d.len() - s >= 6 && d[s] == 0x45 && d[s + 1] == 0x78 && d[s + 2] == 0x69 && d[s + 3]
                == 0x66 {
                let t = slice_subrange(d, s + 6, d.len());
                assert(t@ == d@.skip(s + 6));
                if let Some(o) = tiff_orientation(t) {
                    return o;
                }
            }
        }
        assert(orientation_of(d@) == segments_orientation(d@, i + 2 + len));
        if len > d.len() - i - 2 {
            return 1;
        }
        i = i + 2 + len;
    }
    1
}

/// The number `v` in two bytes, low byte first where `le`.
pub open spec fn two_bytes(v: int, le: bool) -> Seq<u8> {
    let low = (v % 256) as u8;
    let high = (v / 256) as u8;
    if le {
        seq![low, high]
    } else {
        seq![high, low]
    }
}

/// The number `v` in four bytes, low byte first where `le`.
pub open spec fn four_bytes(v: int, le: bool) -> Seq<u8> {
    if le {
        two_bytes(v % 65536, le) + two_bytes(v / 65536, le)
    } else {
        two_bytes(v / 65536, le) + two_bytes(v % 65536, le)
    }
}

/// A TIFF: the mark of its byte order, two bytes, the place of its first directory, `gap` bytes
/// up to there, the number of entries that it claims, entries one after the other, and what
/// follows.
pub open spec fn tiff_bytes(
    le: bool,
    magic: Seq<u8>,
    gap: Seq<u8>,
    count: int,
    entries: Seq<Seq<u8>>,
    tail: Seq<u8>,
) -> Seq<u8> {
    (if le {
        seq![0x49u8, 0x49]
    } else {
        seq![0x4du8, 0x4d]
    }) + magic + four_bytes(8 + gap.len() as int, le) + gap + two_bytes(count, le)
        + entries.flatten() + tail
}

/// Whether the parts of a TIFF have the sizes they must have: entries of 12 bytes, and no more
/// of them than are claimed.
pub open spec fn is_tiff_layout(magic: Seq<u8>, gap: Seq<u8>, count: int, entries: Seq<Seq<u8>>) -> bool {
    &&& magic.len() == 2
    &&& 8 + gap.len() <= u32::MAX
    &&& entries.len() <= count <= 65535
    &&& forall|j: int| 0 <= j < entries.len() ==> (#[trigger] entries[j]).len() == 12
}

/// Whether a directory entry has the tag of the orientation and the value `v`.
pub open spec fn entry_says(entry: Seq<u8>, le: bool, v: int) -> bool {
    &&& entry.subrange(0, 2) == two_bytes(0x0112, le)
    &&& entry.subrange(8, 10) == two_bytes(v, le)
}

proof fn lemma_flat(entries: Seq<Seq<u8>>, i: int, b: int)
    requires
        forall|j: int| 0 <= j < entries.len() ==> (#[trigger] entries[j]).len() == 12,
        0 <= i < entries.len(),
        0 <= b < 12,
    ensures
        entries.flatten().len() == 12 * entries.len(),
        entries.flatten()[12 * i + b] == entries[i][b],
    decreases entries.len(),
{
    let front = entries.drop_last();
    entries.lemma_flatten_and_flatten_alt_are_equivalent();
    front.lemma_flatten_and_flatten_alt_are_equivalent();
    assert(entries.flatten() == front.flatten() + entries.last());
    if front.len() > 0 {
        let k = if i < front.len() {
            i
        } else {
            0
        };
        lemma_flat(front, k, b);
        if i < front.len() {
            assert(front[i] == entries[i]);
        }
    } else {
        assert(front.flatten() == Seq::<u8>::empty());
    }
}

proof fn lemma_flat_len(entries: Seq<Seq<u8>>)
    requires
        forall|j: int| 0 <= j < entries.len() ==> (#[trigger] entries[j]).len() == 12,
    ensures
        entries.flatten().len() == 12 * entries.len(),
{
    if entries.len() > 0 {
        lemma_flat(entries, 0, 0);
    } else {
        assert(entries.flatten() == Seq::<u8>::empty());
    }
}

proof fn lemma_two_bytes(t: Seq<u8>, o: int, le: bool, v: int)
    requires
        0 <= v < 65536,
        0 <= o,
        o + 2 <= t.len(),
    ensures
        word(t, o, le) == v <==> t.subrange(o, o + 2) == two_bytes(v, le),
{
    let b = two_bytes(v, le);
    let s = t.subrange(o, o + 2);
    assert(s[0] == t[o] && s[1] == t[o + 1]);
    assert(b[0] + 256 * b[1] == v || b[1] + 256 * b[0] == v);
    if word(t, o, le) == v {
        assert(s == b);
    }
}

/// What is read of the head of a TIFF.
proof fn lemma_tiff_head(
    le: bool,
    magic: Seq<u8>,
    gap: Seq<u8>,
    count: int,
    entries: Seq<Seq<u8>>,
    tail: Seq<u8>,
)
    requires
        is_tiff_layout(magic, gap, count, entries),
    ensures
        ({
            let t = tiff_bytes(le, magic, gap, count, entries, tail);
            &&& t.len() == 10 + gap.len() + entries.flatten().len() + tail.len()
            &&& is_intel(t) == le
            &&& is_motorola(t) == !le
            &&& long(t, 4, le) == 8 + gap.len()
            &&& entry_count(t) == count
            &&& t.skip(10 + gap.len() as int) == entries.flatten() + tail
        }),
{
    let t = tiff_bytes(le, magic, gap, count, entries, tail);
    let at = 8 + gap.len() as int;
    let n = count;
    let high = at / 65536;
    let low = at % 65536;
    assert(t[0] == if le { 0x49u8 } else { 0x4du8 });
    assert(t[1] == t[0]);
    assert(t.subrange(4, 8) == four_bytes(at, le));
    assert(t.subrange(4, 6) == four_bytes(at, le).subrange(0, 2));
    assert(t.subrange(6, 8) == four_bytes(at, le).subrange(2, 4));
    if le {
        assert(four_bytes(at, le).subrange(0, 2) == two_bytes(low, le));
        assert(four_bytes(at, le).subrange(2, 4) == two_bytes(high, le));
        lemma_two_bytes(t, 4, le, low);
        lemma_two_bytes(t, 6, le, high);
    } else {
        assert(four_bytes(at, le).subrange(0, 2) == two_bytes(high, le));
        assert(four_bytes(at, le).subrange(2, 4) == two_bytes(low, le));
        lemma_two_bytes(t, 4, le, high);
        lemma_two_bytes(t, 6, le, low);
    }
    assert(t.subrange(at, at + 2) == two_bytes(n, le));
    lemma_two_bytes(t, at, le, n);
}

/// What is read of an entry of a TIFF.
proof fn lemma_tiff_entry(
    le: bool,
    magic: Seq<u8>,
    gap: Seq<u8>,
    count: int,
    entries: Seq<Seq<u8>>,
    tail: Seq<u8>,
    k: int,
)
    requires
        is_tiff_layout(magic, gap, count, entries),
        0 <= k < entries.len(),
    ensures
        ({
            let t = tiff_bytes(le, magic, gap, count, entries, tail);
            let e = entry_at(t, k);
            &&& 0 <= e
            &&& e + 12 <= t.len()
            &&& t.subrange(e, e + 2) == entries[k].subrange(0, 2)
            &&& t.subrange(e + 8, e + 10) == entries[k].subrange(8, 10)
        }),
{
    let t = tiff_bytes(le, magic, gap, count, entries, tail);
    lemma_tiff_head(le, magic, gap, count, entries, tail);
    let e = entry_at(t, k);
    let from = 10 + gap.len() as int;
    let s = t.skip(from);
    let flat = entries.flatten();
    lemma_flat(entries, k, 0);
    lemma_flat(entries, k, 1);
    lemma_flat(entries, k, 8);
    lemma_flat(entries, k, 9);
    assert(e == from + 12 * k);
    assert(s == flat + tail);
    assert(entries[k].len() == 12);
    assert(t[e] == s[12 * k] && t[e + 1] == s[12 * k + 1]);
    assert(t[e + 8] == s[12 * k + 8] && t[e + 9] == s[12 * k + 9]);
    assert(t.subrange(e, e + 2) =~= entries[k].subrange(0, 2));
    assert(t.subrange(e + 8, e + 10) =~= entries[k].subrange(8, 10));
}

/// The orientation of a TIFF is the value of the first entry of its first directory that has
/// the tag of the orientation and a value from 1 to 8, at whatever place among the entries it
/// stands, and also where the directory is cut off behind it.
pub proof fn lemma_tiff_orientation(
    le: bool,
    magic: Seq<u8>,
    gap: Seq<u8>,
    count: int,
    entries: Seq<Seq<u8>>,
    tail: Seq<u8>,
    k: int,
    v: int,
)
    requires
        is_tiff_layout(magic, gap, count, entries),
        0 <= k < entries.len(),
        1 <= v <= 8,
        entry_says(entries[k], le, v),
        forall|j: int, w: int|
            0 <= j < k && 1 <= w <= 8 ==> !#[trigger] entry_says(entries[j], le, w),
    ensures
        tiff_orientation_of(tiff_bytes(le, magic, gap, count, entries, tail)) == Some(v),
        orientation_of(tiff_bytes(le, magic, gap, count, entries, tail)) == v,
{
    let t = tiff_bytes(le, magic, gap, count, entries, tail);
    lemma_tiff_head(le, magic, gap, count, entries, tail);
    lemma_tiff_entry(le, magic, gap, count, entries, tail, k);
    let e = entry_at(t, k);
    assert(entries[k].len() == 12);
    lemma_two_bytes(t, e, le, 0x0112);
    lemma_two_bytes(t, e + 8, le, v);
    assert(notes_orientation(t, k));
    assert forall|j: int| 0 <= j < k implies !notes_orientation(t, j) by {
        let f = entry_at(t, j);
        lemma_tiff_entry(le, magic, gap, count, entries, tail, j);
        if notes_orientation(t, j) {
            let w = word(t, f + 8, le);
            lemma_two_bytes(t, f, le, 0x0112);
            lemma_two_bytes(t, f + 8, le, w);
            assert(entry_says(entries[j], le, w));
        }
    }
    assert(first_note(t, k));
    let c = choose|c: int| first_note(t, c);
    assert(c == k);
}

/// A TIFF none of whose entries has the tag of the orientation and a value from 1 to 8 notes
/// none, and counts as upright; one that is cut off has only the entries before that.
pub proof fn lemma_tiff_without_orientation(
    le: bool,
    magic: Seq<u8>,
    gap: Seq<u8>,
    count: int,
    entries: Seq<Seq<u8>>,
    tail: Seq<u8>,
)
    requires
        is_tiff_layout(magic, gap, count, entries),
        count == entries.len() || tail.len() < 12,
        forall|j: int, w: int|
            0 <= j < entries.len() && 1 <= w <= 8 ==> !#[trigger] entry_says(entries[j], le, w),
    ensures
        tiff_orientation_of(tiff_bytes(le, magic, gap, count, entries, tail)) is None,
        orientation_of(tiff_bytes(le, magic, gap, count, entries, tail)) == 1,
{
    let t = tiff_bytes(le, magic, gap, count, entries, tail);
    lemma_tiff_head(le, magic, gap, count, entries, tail);
    assert forall|j: int| !first_note(t, j) by {
        if notes_orientation(t, j) {
            let f = entry_at(t, j);
            lemma_flat_len(entries);
            assert(j < entries.len());
            lemma_tiff_entry(le, magic, gap, count, entries, tail, j);
            let w = word(t, f + 8, le);
            lemma_two_bytes(t, f, le, 0x0112);
            lemma_two_bytes(t, f + 8, le, w);
            assert(entry_says(entries[j], le, w));
        }
    }
}

/// A segment of a JPEG: its marker, its length, which counts itself, and its body.
pub open spec fn segment_bytes(marker: u8, body: Seq<u8>) -> Seq<u8> {
    seq![0xffu8, marker] + two_bytes(body.len() as int + 2, false) + body
}

/// The segments `segs` one after the other.
pub open spec fn segments_bytes(segs: Seq<(u8, Seq<u8>)>) -> Seq<u8>
    decreases segs.len(),
{
    if segs.len() == 0 {
        seq![]
    } else {
        segment_bytes(segs[0].0, segs[0].1) + segments_bytes(segs.drop_first())
    }
}

/// The bytes of `Exif`.
pub open spec fn exif_mark() -> Seq<u8> {
    seq![0x45u8, 0x78, 0x69, 0x66]
}

/// Whether a segment stands before the picture data, fits its length, and is no Exif segment
/// with a TIFF in it.
pub open spec fn is_other_segment(marker: u8, body: Seq<u8>) -> bool {
    &&& marker != 0xda
    &&& body.len() + 2 <= 65535
    &&& marker == 0xe1 ==> body.len() >= 4 && (body.take(4) != exif_mark() || body.len() >= 8
        && body.subrange(6, 8) != seq![0x49u8, 0x49] && body.subrange(6, 8) != seq![0x4du8, 0x4d])
}

proof fn lemma_skip_segments(d: Seq<u8>, i: int, segs: Seq<(u8, Seq<u8>)>, rest: Seq<u8>)
    requires
        0 <= i <= d.len(),
        d.skip(i) == segments_bytes(segs) + rest,
        forall|j: int|
            0 <= j < segs.len() ==> is_other_segment((#[trigger] segs[j]).0, segs[j].1),
    ensures
        segments_orientation(d, i) == segments_orientation(
            d,
            i + segments_bytes(segs).len() as int,
        ),
    decreases segs.len(),
{
    if segs.len() > 0 {
        let (marker, body) = segs[0];
        assert(is_other_segment(segs[0].0, segs[0].1));
        let one = segment_bytes(marker, body);
        let more = segments_bytes(segs.drop_first());
        let s = d.skip(i);
        assert(s == one + more + rest);
        assert(one.len() == 4 + body.len());
        assert(s.len() >= one.len());
        assert(s[0] == d[i] && s[1] == d[i + 1]);
        assert(one[0] == 0xff && one[1] == marker);
        assert(s.subrange(2, 4) == two_bytes(body.len() as int + 2, false));
        assert(d.subrange(i + 2, i + 4) == s.subrange(2, 4));
        lemma_two_bytes(d, i + 2, false, body.len() as int + 2);
        let next = i + 4 + body.len();
        assert(next == i + one.len());
        if marker == 0xe1 && d.len() >= i + 10 {
            let b = body.take(4);
            assert(b[0] == d[i + 4] && b[1] == d[i + 5] && b[2] == d[i + 6] && b[3] == d[i + 7]) by {
                assert(s[4] == body[0] && s[5] == body[1] && s[6] == body[2] && s[7] == body[3]);
            }
            if is_exif(d, i + 4) {
                assert(b == exif_mark());
                let u = d.skip(i + 10);
                let c = body.subrange(6, 8);
                assert(s[10] == body[6] && s[11] == body[7]);
                assert(u[0] == s[10] && u[1] == s[11]);
                assert(c[0] == u[0] && c[1] == u[1]);
                if is_intel(u) {
                    assert(c == seq![0x49u8, 0x49]);
                }
                if is_motorola(u) {
                    assert(c == seq![0x4du8, 0x4d]);
                }
                assert(tiff_orientation_of(u) is None);
            }
        }
        assert(segments_orientation(d, i) == segments_orientation(d, next));
        assert(s.skip(one.len() as int) == more + rest);
        assert(d.skip(next) == s.skip(one.len() as int));
        assert forall|j: int| 0 <= j < segs.drop_first().len() implies is_other_segment(
            (#[trigger] segs.drop_first()[j]).0,
            segs.drop_first()[j].1,
        ) by {
            assert(is_other_segment(segs[j + 1].0, segs[j + 1].1));
        }
        lemma_skip_segments(d, next, segs.drop_first(), rest);
    }
}

#[verifier::spinoff_prover]
proof fn lemma_exif_segment(d: Seq<u8>, i: int, pad: Seq<u8>, t: Seq<u8>, rest: Seq<u8>, v: int)
    requires
        0 <= i <= d.len(),
        pad.len() == 2,
        d.skip(i) == segment_bytes(0xe1, exif_mark() + pad + t) + rest,
        tiff_orientation_of(t + rest) == Some(v),
    ensures
        segments_orientation(d, i) == v,
{
    let body = exif_mark() + pad + t;
    let one = segment_bytes(0xe1, body);
    let s = d.skip(i);
    assert(one.len() == 4 + body.len());
    assert(s.len() >= 10);
    assert(one[4] == body[0] && one[5] == body[1] && one[6] == body[2] && one[7] == body[3]);
    assert(s[0] == d[i] && s[1] == d[i + 1]);
    assert(s[4] == d[i + 4] && s[5] == d[i + 5] && s[6] == d[i + 6] && s[7] == d[i + 7]);
    assert(is_exif(d, i + 4));
    assert(body.skip(6) == t);
    assert(one.skip(10) == body.skip(6));
    assert(s.skip(10) == one.skip(10) + rest);
    assert(d.skip(i + 10) == s.skip(10));
}

/// The orientation of a JPEG is that of the TIFF in its first Exif segment, however many other
/// segments stand before it.
pub proof fn lemma_jpeg_orientation(
    segs: Seq<(u8, Seq<u8>)>,
    pad: Seq<u8>,
    le: bool,
    magic: Seq<u8>,
    gap: Seq<u8>,
    count: int,
    entries: Seq<Seq<u8>>,
    tail: Seq<u8>,
    rest: Seq<u8>,
    k: int,
    v: int,
)
    requires
        forall|j: int|
            0 <= j < segs.len() ==> is_other_segment((#[trigger] segs[j]).0, segs[j].1),
        pad.len() == 2,
        is_tiff_layout(magic, gap, count, entries),
        0 <= k < entries.len(),
        1 <= v <= 8,
        entry_says(entries[k], le, v),
        forall|j: int, w: int|
            0 <= j < k && 1 <= w <= 8 ==> !#[trigger] entry_says(entries[j], le, w),
    ensures
        orientation_of(
            seq![0xffu8, 0xd8] + segments_bytes(segs) + segment_bytes(
                0xe1,
                exif_mark() + pad + tiff_bytes(le, magic, gap, count, entries, tail),
            ) + rest,
        ) == v,
{
    let t = tiff_bytes(le, magic, gap, count, entries, tail);
    let body = exif_mark() + pad + t;
    let one = segment_bytes(0xe1, body);
    let start = seq![0xffu8, 0xd8];
    let d = start + segments_bytes(segs) + one + rest;
    let i = 2 + segments_bytes(segs).len() as int;
    assert(d[0] == 0xff && d[1] == 0xd8);
    assert(d.skip(2) == segments_bytes(segs) + (one + rest));
    lemma_skip_segments(d, 2, segs, one + rest);
    assert(d.skip(i) == one + rest);
    assert(t + rest == tiff_bytes(le, magic, gap, count, entries, tail + rest));
    lemma_tiff_orientation(le, magic, gap, count, entries, tail + rest, k, v);
    lemma_exif_segment(d, i, pad, t, rest, v);
}

/// A JPEG without an Exif segment before its picture data counts as upright, whatever follows.
pub proof fn lemma_jpeg_without_exif(segs: Seq<(u8, Seq<u8>)>, rest: Seq<u8>)
    requires
        forall|j: int|
            0 <= j < segs.len() ==> is_other_segment((#[trigger] segs[j]).0, segs[j].1),
    ensures
        orientation_of(seq![0xffu8, 0xd8] + segments_bytes(segs) + seq![0xffu8, 0xda] + rest) == 1,
{
    let d = seq![0xffu8, 0xd8] + segments_bytes(segs) + seq![0xffu8, 0xda] + rest;
    let i = 2 + segments_bytes(segs).len() as int;
    assert(d[0] == 0xff && d[1] == 0xd8);
    assert(d.skip(2) == segments_bytes(segs) + (seq![0xffu8, 0xda] + rest));
    lemma_skip_segments(d, 2, segs, seq![0xffu8, 0xda] + rest);
    assert(d[i] == 0xff && d[i + 1] == 0xda);
}

} // verus!
