//! The order of text, and maps kept in that order.
use crate::text::strs;
use crate::sorting::lemma_filter_push;
use vstd::prelude::*;
use vstd::utf8::encode_utf8;

verus! {

/// Whether `a` comes before `b`: byte by byte, a prefix first.
pub open spec fn bytes_before(a: Seq<u8>, b: Seq<u8>) -> bool
    decreases a.len(),
{
    if b.len() == 0 {
        false
    } else if a.len() == 0 {
        true
    } else if a[0] != b[0] {
        a[0] < b[0]
    } else {
        bytes_before(a.drop_first(), b.drop_first())
    }
}

/// Whether the text `a` comes before the text `b`, by the bytes of their UTF-8 form.
pub open spec fn text_before(a: Seq<char>, b: Seq<char>) -> bool {
    bytes_before(encode_utf8(a), encode_utf8(b))
}

/// Whether each text of `ks` comes before all that follow it.
pub open spec fn ascending(ks: Seq<Seq<char>>) -> bool {
    forall|i: int, j: int| 0 <= i < j < ks.len() ==> text_before(#[trigger] ks[i], #[trigger] ks[j])
}

/// The texts of `dom`, each once, in order.
pub open spec fn in_order(dom: Set<Seq<char>>) -> Seq<Seq<char>> {
    choose|ks: Seq<Seq<char>>| ascending(ks) && ks.to_set() == dom
}

/// How two texts are ordered.
#[derive(Clone, Copy, PartialEq, Eq, Structural, Debug)]
pub enum Rank {
    Before,
    Same,
    After,
}

proof fn lemma_bytes_total(a: Seq<u8>, b: Seq<u8>)
    ensures
        a == b || bytes_before(a, b) || bytes_before(b, a),
        !(bytes_before(a, b) && bytes_before(b, a)),
        a == b ==> !bytes_before(a, b),
    decreases a.len(),
{
    if a.len() > 0 && b.len() > 0 && a[0] == b[0] {
        lemma_bytes_total(a.drop_first(), b.drop_first());
        if a.drop_first() == b.drop_first() {
            assert(a == seq![a[0]] + a.drop_first());
            assert(b == seq![b[0]] + b.drop_first());
        }
    } else if a.len() == 0 && b.len() == 0 {
        assert(a == b);
    }
}

proof fn lemma_bytes_transitive(a: Seq<u8>, b: Seq<u8>, c: Seq<u8>)
    requires
        bytes_before(a, b),
        bytes_before(b, c),
    ensures
        bytes_before(a, c),
    decreases a.len(),
{
    if a.len() > 0 && a[0] == b[0] && b[0] == c[0] {
        lemma_bytes_transitive(a.drop_first(), b.drop_first(), c.drop_first());
    }
}

/// Of two texts exactly one of three holds: they are the same, or the first comes before the
/// second, or the second before the first.
pub proof fn lemma_text_total(a: Seq<char>, b: Seq<char>)
    ensures
        a == b || text_before(a, b) || text_before(b, a),
        !(text_before(a, b) && text_before(b, a)),
        a == b ==> !text_before(a, b),
{
    lemma_bytes_total(encode_utf8(a), encode_utf8(b));
    vstd::utf8::encode_utf8_decode_utf8(a);
    vstd::utf8::encode_utf8_decode_utf8(b);
}

/// What comes before a text comes before all that follow that text.
pub proof fn lemma_text_transitive(a: Seq<char>, b: Seq<char>, c: Seq<char>)
    requires
        text_before(a, b),
        text_before(b, c),
    ensures
        text_before(a, c),
{
    lemma_bytes_transitive(encode_utf8(a), encode_utf8(b), encode_utf8(c));
}

/// Texts in ascending order are all different.
pub proof fn lemma_ascending_no_duplicates(ks: Seq<Seq<char>>)
    requires
        ascending(ks),
    ensures
        ks.no_duplicates(),
        ks.to_set().len() == ks.len(),
        ks.to_set().finite(),
{
    assert forall|i: int, j: int| 0 <= i < ks.len() && 0 <= j < ks.len() && i != j implies ks[i]
        != ks[j] by {
        lemma_text_total(ks[i], ks[j]);
        if i < j {
            assert(text_before(ks[i], ks[j]));
        } else {
            assert(text_before(ks[j], ks[i]));
        }
    }
    ks.unique_seq_to_set();
    vstd::seq_lib::seq_to_set_is_finite(ks);
}

/// Two ascending sequences of the same texts are the same sequence.
pub proof fn lemma_ascending_unique(a: Seq<Seq<char>>, b: Seq<Seq<char>>)
    requires
        ascending(a),
        ascending(b),
        a.to_set() == b.to_set(),
    ensures
        a == b,
    decreases a.len(),
{
    lemma_ascending_no_duplicates(a);
    lemma_ascending_no_duplicates(b);
    if a.len() > 0 {
        let x = a.last();
        let y = b.last();
        assert(a.contains(a[a.len() - 1]));
        assert(b.contains(b[b.len() - 1]));
        assert(b.to_set().contains(x));
        assert(a.to_set().contains(y));
        let i = choose|i: int| 0 <= i < b.len() && b[i] == x;
        let j = choose|j: int| 0 <= j < a.len() && a[j] == y;
        if x != y {
            assert(text_before(b[i], b[b.len() - 1]));
            assert(text_before(a[j], a[a.len() - 1]));
            lemma_text_total(x, y);
        }
        assert(ascending(a.drop_last()));
        assert(ascending(b.drop_last()));
        assert forall|k: Seq<char>| a.drop_last().to_set().contains(k)
            == b.drop_last().to_set().contains(k) by {
            assert(a.drop_last().contains(k) == (a.contains(k) && k != x)) by {
                if a.contains(k) && k != x {
                    let m = choose|m: int| 0 <= m < a.len() && a[m] == k;
                    assert(a.drop_last()[m] == k);
                }
                if a.drop_last().contains(k) {
                    let m = choose|m: int| 0 <= m < a.len() - 1 && a.drop_last()[m] == k;
                    assert(a[m] == k);
                }
            }
            assert(b.drop_last().contains(k) == (b.contains(k) && k != x)) by {
                if b.contains(k) && k != x {
                    let m = choose|m: int| 0 <= m < b.len() && b[m] == k;
                    assert(b.drop_last()[m] == k);
                }
                if b.drop_last().contains(k) {
                    let m = choose|m: int| 0 <= m < b.len() - 1 && b.drop_last()[m] == k;
                    assert(b[m] == k);
                }
            }
            assert(a.to_set().contains(k) == b.to_set().contains(k));
            assert(a.to_set().contains(k) == a.contains(k));
            assert(b.to_set().contains(k) == b.contains(k));
            assert(a.drop_last().to_set().contains(k) == a.drop_last().contains(k));
            assert(b.drop_last().to_set().contains(k) == b.drop_last().contains(k));
        }
        assert(a.drop_last().to_set() == b.drop_last().to_set());
        lemma_ascending_unique(a.drop_last(), b.drop_last());
        assert(a == a.drop_last().push(x));
        assert(b == b.drop_last().push(y));
    } else {
        if b.len() > 0 {
            assert(b.contains(b[0]));
            assert(b.to_set().contains(b[0]));
        }
        assert(a == b);
    }
}

/// An ascending sequence is the texts of its set in order.
pub proof fn lemma_in_order(ks: Seq<Seq<char>>)
    requires
        ascending(ks),
    ensures
        in_order(ks.to_set()) == ks,
{
    lemma_ascending_unique(in_order(ks.to_set()), ks);
}

proof fn lemma_place(ks: Seq<Seq<char>>, a: Seq<char>) -> (r: Seq<Seq<char>>)
    requires
        ascending(ks),
        !ks.contains(a),
    ensures
        ascending(r),
        forall|x: Seq<char>| #[trigger] r.contains(x) <==> x == a || ks.contains(x),
    decreases ks.len(),
{
    if ks.len() == 0 || text_before(ks.last(), a) {
        let r = ks.push(a);
        assert forall|i: int, j: int| 0 <= i < j < r.len() implies text_before(
            #[trigger] r[i],
            #[trigger] r[j],
        ) by {
            if j == ks.len() {
                if i < ks.len() - 1 {
                    assert(text_before(ks[i], ks[ks.len() - 1]));
                    lemma_text_transitive(ks[i], ks.last(), a);
                }
            } else {
                assert(text_before(ks[i], ks[j]));
            }
        }
        lemma_pushed(ks, a);
        r
    } else {
        let front = ks.drop_last();
        let last = ks.last();
        assert(ks.contains(ks[ks.len() - 1]));
        lemma_text_total(a, last);
        assert forall|x: Seq<char>| front.contains(x) implies ks.contains(x) by {
            let i = choose|i: int| 0 <= i < front.len() && front[i] == x;
            assert(ks[i] == x);
        }
        assert forall|i: int, j: int| 0 <= i < j < front.len() implies text_before(
            #[trigger] front[i],
            #[trigger] front[j],
        ) by {
            assert(text_before(ks[i], ks[j]));
        }
        let q = lemma_place(front, a);
        let r = q.push(last);
        assert forall|i: int, j: int| 0 <= i < j < r.len() implies text_before(
            #[trigger] r[i],
            #[trigger] r[j],
        ) by {
            if j == q.len() {
                assert(q.contains(q[i]));
                if q[i] != a {
                    let k = choose|k: int| 0 <= k < front.len() && front[k] == q[i];
                    assert(text_before(ks[k], ks[ks.len() - 1]));
                }
            } else {
                assert(text_before(q[i], q[j]));
            }
        }
        lemma_pushed(q, last);
        lemma_pushed(front, last);
        assert(ks == front.push(last));
        r
    }
}

proof fn lemma_pushed(ks: Seq<Seq<char>>, a: Seq<char>)
    ensures
        forall|x: Seq<char>| #[trigger] ks.push(a).contains(x) <==> x == a || ks.contains(x),
{
    let r = ks.push(a);
    assert(r[ks.len() as int] == a);
    assert forall|x: Seq<char>| ks.contains(x) implies r.contains(x) by {
        let i = choose|i: int| 0 <= i < ks.len() && ks[i] == x;
        assert(r[i] == x);
    }
    assert forall|x: Seq<char>| r.contains(x) && x != a implies ks.contains(x) by {
        let i = choose|i: int| 0 <= i < r.len() && r[i] == x;
        assert(ks[i] == x);
    }
}

proof fn lemma_some_order(dom: Set<Seq<char>>) -> (ks: Seq<Seq<char>>)
    requires
        dom.finite(),
    ensures
        ascending(ks),
        ks.to_set() == dom,
    decreases dom.len(),
{
    if dom.len() == 0 {
        let ks = Seq::<Seq<char>>::empty();
        assert(ks.to_set() == dom);
        ks
    } else {
        let a = dom.choose();
        let rest = lemma_some_order(dom.remove(a));
        assert(!rest.contains(a)) by {
            if rest.contains(a) {
                assert(rest.to_set().contains(a));
            }
        }
        let ks = lemma_place(rest, a);
        assert forall|x: Seq<char>| ks.to_set().contains(x) == dom.contains(x) by {
            assert(rest.to_set().contains(x) == rest.contains(x));
        }
        assert(ks.to_set() == dom);
        ks
    }
}

/// A finite set of texts has its texts in order, each once.
pub proof fn lemma_order_of(dom: Set<Seq<char>>)
    requires
        dom.finite(),
    ensures
        ascending(in_order(dom)),
        in_order(dom).to_set() == dom,
        in_order(dom).len() == dom.len(),
{
    let ks = lemma_some_order(dom);
    assert(ascending(in_order(dom)) && in_order(dom).to_set() == dom);
    lemma_ascending_no_duplicates(in_order(dom));
}

proof fn lemma_ascending_filter(ks: Seq<Seq<char>>, keep: spec_fn(Seq<char>) -> bool)
    requires
        ascending(ks),
    ensures
        ascending(ks.filter(keep)),
    decreases ks.len(),
{
    reveal(Seq::filter);
    if ks.len() > 0 {
        let d = ks.drop_last();
        let x = ks.last();
        assert(ascending(d));
        lemma_ascending_filter(d, keep);
        lemma_filter_push(d, x, keep);
        assert(ks == d.push(x));
        let f = d.filter(keep);
        assert forall|i: int| 0 <= i < f.len() implies text_before(#[trigger] f[i], x) by {
            assert(f.contains(f[i]));
            d.lemma_filter_contains_rev(keep, f[i]);
            let j = choose|j: int| 0 <= j < d.len() && d[j] == f[i];
            assert(text_before(ks[j], ks[ks.len() - 1]));
        }
    }
}

/// The texts of a part of a set stand in the order in which they stand among all.
pub proof fn lemma_order_of_part(dom: Set<Seq<char>>, keep: spec_fn(Seq<char>) -> bool)
    requires
        dom.finite(),
    ensures
        in_order(dom.filter(keep)) == in_order(dom).filter(keep),
{
    lemma_order_of(dom);
    let ks = in_order(dom);
    let f = ks.filter(keep);
    lemma_ascending_filter(ks, keep);
    assert forall|s: Seq<char>| f.to_set().contains(s) == dom.filter(keep).contains(s) by {
        assert(ks.to_set().contains(s) == dom.contains(s));
        if f.contains(s) {
            ks.lemma_filter_contains_rev(keep, s);
            let i = choose|i: int| 0 <= i < f.len() && f[i] == s;
            ks.lemma_filter_pred(keep, i);
        }
        if ks.contains(s) && keep(s) {
            let i = choose|i: int| 0 <= i < ks.len() && ks[i] == s;
            ks.lemma_filter_contains(keep, i);
        }
    }
    assert(f.to_set() == dom.filter(keep));
    lemma_in_order(f);
}

/// Orders two texts.
pub fn rank(a: &str, b: &str) -> (r: Rank)
    ensures
        r == Rank::Before <==> text_before(a@, b@),
        r == Rank::Same <==> a@ == b@,
        r == Rank::After <==> text_before(b@, a@),
{
    let x = a.as_bytes();
    let y = b.as_bytes();
    let mut i: usize = 0;
    proof {
        assert(x@.skip(0) == x@);
        assert(y@.skip(0) == y@);
        lemma_text_total(a@, b@);
    }
    while i < x.len() && i < y.len()
        invariant
            i <= x.len(),
            i <= y.len(),
            x@ == encode_utf8(a@),
            y@ == encode_utf8(b@),
            a@ == b@ || text_before(a@, b@) || text_before(b@, a@),
            !(text_before(a@, b@) && text_before(b@, a@)),
            a@ == b@ ==> !text_before(a@, b@),
            bytes_before(x@, y@) == bytes_before(x@.skip(i as int), y@.skip(i as int)),
            bytes_before(y@, x@) == bytes_before(y@.skip(i as int), x@.skip(i as int)),
        decreases x.len() - i,
    {
        if x[i] < y[i] {
            return Rank::Before;
        }
        if x[i] > y[i] {
            return Rank::After;
        }
        assert(x@.skip(i as int).drop_first() == x@.skip(i + 1));
        assert(y@.skip(i as int).drop_first() == y@.skip(i + 1));
        i += 1;
    }
    if i < y.len() {
        Rank::Before
    } else if i < x.len() {
        Rank::After
    } else {
        Rank::Same
    }
}

/// The texts that the entries stand under.
pub open spec fn entry_keys<V>(e: Seq<(String, V)>) -> Seq<Seq<char>> {
    e.map_values(|x: (String, V)| x.0@)
}

/// A map from text to values, kept in the order of the text.
#[derive(Debug)]
pub struct TextMap<V> {
    entries: Vec<(String, V)>,
}

impl<V> View for TextMap<V> {
    type V = Map<Seq<char>, V>;

    closed spec fn view(&self) -> Map<Seq<char>, V> {
        let e = self.entries@;
        Map::new(
            |k: Seq<char>| entry_keys(e).contains(k),
            |k: Seq<char>| e[entry_keys(e).index_of(k)].1,
        )
    }
}

impl<V> TextMap<V> {
    #[verifier::type_invariant]
    spec fn ordered(self) -> bool {
        ascending(entry_keys(self.entries@))
    }

    proof fn lemma_at(self, i: int)
        requires
            self.ordered(),
            0 <= i < self.entries@.len(),
        ensures
            self@.dom().contains(self.entries@[i].0@),
            self@[self.entries@[i].0@] == self.entries@[i].1,
    {
        let ks = entry_keys(self.entries@);
        lemma_ascending_no_duplicates(ks);
        assert(ks[i] == self.entries@[i].0@);
        assert(ks.contains(ks[i]));
        let j = ks.index_of(ks[i]);
        assert(ks[j] == ks[i]);
    }

    /// A map with nothing in it.
    pub fn new() -> (m: Self)
        ensures
            m@ == Map::<Seq<char>, V>::empty(),
    {
        let m = TextMap { entries: Vec::new() };
        assert(m@ == Map::<Seq<char>, V>::empty());
        m
    }

    /// How many texts the map holds.
    pub fn len(&self) -> (n: usize)
        ensures
            n == self@.dom().len(),
            self@.dom().finite(),
    {
        proof {
            use_type_invariant(self);
            let ks = entry_keys(self.entries@);
            lemma_ascending_no_duplicates(ks);
            assert(self@.dom() == ks.to_set());
        }
        self.entries.len()
    }

    /// Where `key` stands among the entries, or where it would.
    fn find(&self, key: &str) -> (r: (usize, bool))
        ensures
            r.0 <= self.entries@.len(),
            r.1 ==> r.0 < self.entries@.len() && self.entries@[r.0 as int].0@ == key@,
            r.1 == self@.dom().contains(key@),
            forall|i: int|
                0 <= i < r.0 ==> text_before((#[trigger] self.entries@[i]).0@, key@),
            !r.1 ==> forall|i: int|
                r.0 <= i < self.entries@.len() ==> text_before(
                    key@,
                    (#[trigger] self.entries@[i]).0@,
                ),
    {
        proof {
            use_type_invariant(self);
        }
        let mut lo: usize = 0;
        let mut hi: usize = self.entries.len();
        let ghost ks = entry_keys(self.entries@);
        while lo < hi
            invariant
                lo <= hi <= self.entries@.len(),
                ks == entry_keys(self.entries@),
                self.ordered(),
                forall|i: int| 0 <= i < lo ==> text_before((#[trigger] self.entries@[i]).0@, key@),
                forall|i: int|
                    hi <= i < self.entries@.len() ==> text_before(
                        key@,
                        (#[trigger] self.entries@[i]).0@,
                    ),
            decreases hi - lo,
        {
            let mid: usize = lo + (hi - lo) / 2;
            match rank(self.entries[mid].0.as_str(), key) {
                Rank::Same => {
                    proof {
                        self.lemma_at(mid as int);
                        assert forall|i: int| 0 <= i < mid implies text_before(
                            (#[trigger] self.entries@[i]).0@,
                            key@,
                        ) by {
                            assert(text_before(ks[i], ks[mid as int]));
                        }
                    }
                    return (mid, true);
                },
                Rank::Before => {
                    proof {
                        assert forall|i: int| 0 <= i < mid + 1 implies text_before(
                            (#[trigger] self.entries@[i]).0@,
                            key@,
                        ) by {
                            if i < mid {
                                assert(text_before(ks[i], ks[mid as int]));
                                lemma_text_transitive(ks[i], ks[mid as int], key@);
                            }
                        }
                    }
                    lo = mid + 1;
                },
                Rank::After => {
                    proof {
                        assert forall|i: int| mid <= i < self.entries@.len() implies text_before(
                            key@,
                            (#[trigger] self.entries@[i]).0@,
                        ) by {
                            if i > mid {
                                assert(text_before(ks[mid as int], ks[i]));
                                lemma_text_transitive(key@, ks[mid as int], ks[i]);
                            }
                        }
                    }
                    hi = mid;
                },
            }
        }
        proof {
            if self@.dom().contains(key@) {
                let i = ks.index_of(key@);
                assert(ks.contains(key@));
                assert(self.entries@[i].0@ == key@);
                lemma_text_total(key@, key@);
            }
        }
        (lo, false)
    }

    /// The value under `key`.
    pub fn get(&self, key: &str) -> (r: Option<&V>)
        ensures
            r == if self@.dom().contains(key@) {
                Some(&self@[key@])
            } else {
                None
            },
    {
        let (i, found) = self.find(key);
        if found {
            proof {
                use_type_invariant(self);
                self.lemma_at(i as int);
            }
            Some(&self.entries[i].1)
        } else {
            None
        }
    }

    /// Whether the map holds `key`.
    pub fn contains(&self, key: &str) -> (b: bool)
        ensures
            b == self@.dom().contains(key@),
    {
        self.find(key).1
    }

    /// Puts `value` under `key`, in place of what stood there.
    pub fn insert(&mut self, key: String, value: V)
        ensures
            final(self)@ == old(self)@.insert(key@, value),
    {
        let (i, found) = self.find(key.as_str());
        proof {
            use_type_invariant(&*self);
        }
        let ghost before = *self;
        let ghost ks = entry_keys(self.entries@);
        let mut e: Vec<(String, V)> = Vec::new();
        std::mem::swap(&mut e, &mut self.entries);
        if found {
            let ghost k = key;
            e.set(i, (key, value));
            proof {
                assert(entry_keys(e@) == ks);
                let after = TextMap { entries: e };
                assert(after@.dom() == before@.dom().insert(k@)) by {
                    assert(ks.contains(k@)) by {
                        assert(ks[i as int] == k@);
                    }
                }
                lemma_ascending_no_duplicates(ks);
                assert forall|q: Seq<char>| #[trigger] after@.dom().contains(q) implies after@[q]
                    == before@.insert(k@, value)[q] by {
                    let j = ks.index_of(q);
                    assert(ks[j] == q);
                    if q == k@ {
                        assert(ks[i as int] == q);
                        assert(i == j);
                    } else {
                        assert(j != i);
                    }
                }
                assert(after@ == before@.insert(k@, value));
            }
        } else {
            let ghost k = key;
            e.insert(i, (key, value));
            proof {
                let ks2 = entry_keys(e@);
                assert(ks2 == ks.insert(i as int, k@));
                assert(ascending(ks2)) by {
                    assert forall|a: int, b: int| 0 <= a < b < ks2.len() implies text_before(
                        #[trigger] ks2[a],
                        #[trigger] ks2[b],
                    ) by {
                        if a < i && b > i {
                            assert(text_before(ks[a], ks[b - 1]));
                        } else if a > i {
                            assert(text_before(ks[a - 1], ks[b - 1]));
                        } else if b < i {
                            assert(text_before(ks[a], ks[b]));
                        } else if a == i {
                            assert(text_before(k@, before.entries@[b - 1].0@));
                        } else {
                            assert(text_before(before.entries@[a].0@, k@));
                        }
                    }
                }
                let after = TextMap { entries: e };
                lemma_ascending_no_duplicates(ks2);
                assert forall|q: Seq<char>| after@.dom().contains(q) == before@.insert(
                    k@,
                    value,
                ).dom().contains(q) by {
                    if ks.contains(q) {
                        let j = ks.index_of(q);
                        assert(ks[j] == q);
                        assert(ks2[if j < i { j } else { j + 1 }] == q);
                    }
                    if q == k@ {
                        assert(ks2[i as int] == q);
                    }
                    if ks2.contains(q) && q != k@ {
                        let j = ks2.index_of(q);
                        assert(ks2[j] == q);
                        assert(ks[if j < i { j } else { j - 1 }] == q);
                    }
                }
                assert forall|q: Seq<char>| #[trigger] after@.dom().contains(q) implies after@[q]
                    == before@.insert(k@, value)[q] by {
                    let j = ks2.index_of(q);
                    assert(ks2[j] == q);
                    after.lemma_at(j);
                    if q == k@ {
                        assert(ks2[i as int] == q);
                    } else {
                        let m = if j < i { j } else { j - 1 };
                        assert(ks[m] == q);
                        before.lemma_at(m);
                    }
                }
                assert(after@ == before@.insert(k@, value));
            }
        }
        self.entries = e;
    }

    /// Takes `key` and its value out.
    pub fn remove(&mut self, key: &str)
        ensures
            final(self)@ == old(self)@.remove(key@),
    {
        let (i, found) = self.find(key);
        if !found {
            assert(self@ == self@.remove(key@));
            return ;
        }
        proof {
            use_type_invariant(&*self);
        }
        let ghost before = *self;
        let ghost ks = entry_keys(self.entries@);
        let mut e: Vec<(String, V)> = Vec::new();
        std::mem::swap(&mut e, &mut self.entries);
        let _gone = e.remove(i);
        proof {
            let ks2 = entry_keys(e@);
            assert(ks2 == ks.remove(i as int));
            assert(ascending(ks2)) by {
                assert forall|a: int, b: int| 0 <= a < b < ks2.len() implies text_before(
                    #[trigger] ks2[a],
                    #[trigger] ks2[b],
                ) by {
                    let a1 = if a < i { a } else { a + 1 };
                    let b1 = if b < i { b } else { b + 1 };
                    assert(text_before(ks[a1], ks[b1]));
                }
            }
            let after = TextMap { entries: e };
            lemma_ascending_no_duplicates(ks);
            lemma_ascending_no_duplicates(ks2);
            assert forall|q: Seq<char>| after@.dom().contains(q) == before@.remove(
                key@,
            ).dom().contains(q) by {
                if ks.contains(q) && q != key@ {
                    let j = ks.index_of(q);
                    assert(ks[j] == q);
                    assert(ks2[if j < i { j } else { j - 1 }] == q);
                }
                if ks2.contains(q) {
                    let j = ks2.index_of(q);
                    assert(ks2[j] == q);
                    let m = if j < i { j } else { j + 1 };
                    assert(ks[m] == q);
                    assert(ks[i as int] == key@);
                }
            }
            assert forall|q: Seq<char>| #[trigger] after@.dom().contains(q) implies after@[q]
                == before@.remove(key@)[q] by {
                let j = ks2.index_of(q);
                assert(ks2[j] == q);
                after.lemma_at(j);
                let m = if j < i { j } else { j + 1 };
                assert(ks[m] == q);
                before.lemma_at(m);
            }
            assert(after@ == before@.remove(key@));
        }
        self.entries = e;
    }

    /// The texts in order.
    pub fn keys(&self) -> (r: Vec<String>)
        ensures
            strs(r@) == in_order(self@.dom()),
            ascending(strs(r@)),
            strs(r@).to_set() == self@.dom(),
    {
        proof {
            use_type_invariant(self);
        }
        let mut r: Vec<String> = Vec::new();
        for i in 0..self.entries.len()
            invariant
                strs(r@) == entry_keys(self.entries@).take(i as int),
        {
            let ghost was = r@;
            r.push(self.entries[i].0.clone());
            assert(strs(r@) == strs(was).push(self.entries@[i as int].0@));
        }
        proof {
            let ks = entry_keys(self.entries@);
            assert(ks.take(ks.len() as int) == ks);
            lemma_in_order(ks);
            assert(ks.to_set() == self@.dom());
        }
        r
    }
}

proof fn lemma_bytes_behind(h: Seq<u8>, x: Seq<u8>, y: Seq<u8>)
    ensures
        bytes_before(h + x, h + y) == bytes_before(x, y),
    decreases h.len(),
{
    if h.len() == 0 {
        assert(h + x == x);
        assert(h + y == y);
    } else {
        lemma_bytes_behind(h.drop_first(), x, y);
        assert((h + x).drop_first() == h.drop_first() + x);
        assert((h + y).drop_first() == h.drop_first() + y);
    }
}

/// The first byte in which two texts differ says which comes first, and a text comes before all
/// that go on behind it.
pub proof fn lemma_text_order(s: Seq<char>, t: Seq<char>, same: Seq<u8>, x: Seq<u8>, y: Seq<u8>)
    requires
        encode_utf8(s) == same + x,
        encode_utf8(t) == same + y,
        x.len() == 0 && y.len() > 0 || x.len() > 0 && y.len() > 0 && x[0] < y[0],
    ensures
        text_before(s, t),
        !text_before(t, s),
{
    lemma_bytes_behind(same, x, y);
    lemma_bytes_behind(same, y, x);
}

} // verus!
