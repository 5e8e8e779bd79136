//! Sorting that keeps the order of what ranks alike.
use vstd::prelude::*;

verus! {

/// What can be sorted.
pub trait Sorts: Sized {
    /// Whether `self` has to stand before `other`.
    spec fn precedes(self, other: Self) -> bool;

    /// What precedes something is not preceded by it.
    proof fn lemma_one_way(a: Self, b: Self)
        requires
            Self::precedes(a, b),
        ensures
            !Self::precedes(b, a),
    ;

    /// What is not preceded by `b` is not preceded by what `b` does not stand after.
    proof fn lemma_chain(a: Self, b: Self, c: Self)
        requires
            !Self::precedes(b, a),
            !Self::precedes(c, b),
        ensures
            !Self::precedes(c, a),
    ;

    /// Whether `self` has to stand before `other`.
    fn before(&self, other: &Self) -> (r: bool)
        ensures
            r == Self::precedes(*self, *other),
    ;
}

/// `x` put into `s` behind all that it does not have to precede.
pub open spec fn put<T: Sorts>(s: Seq<T>, x: T) -> Seq<T>
    decreases s.len(),
{
    if s.len() > 0 && T::precedes(x, s.last()) {
        put(s.drop_last(), x).push(s.last())
    } else {
        s.push(x)
    }
}

/// `s` sorted; what ranks alike stays in its order.
pub open spec fn sorted<T: Sorts>(s: Seq<T>) -> Seq<T>
    decreases s.len(),
{
    if s.len() == 0 {
        s
    } else {
        put(sorted(s.drop_last()), s.last())
    }
}

/// Whether nothing in `s` stands behind what it has to precede.
pub open spec fn in_rank<T: Sorts>(s: Seq<T>) -> bool {
    forall|i: int, j: int| 0 <= i < j < s.len() ==> !T::precedes(#[trigger] s[j], #[trigger] s[i])
}

proof fn lemma_put_members<T: Sorts>(s: Seq<T>, x: T)
    ensures
        put(s, x).to_multiset() == s.push(x).to_multiset(),
        put(s, x).len() == s.len() + 1,
        forall|i: int|
            0 <= i <= s.len() ==> #[trigger] put(s, x)[i] == x || s.contains(put(s, x)[i]),
    decreases s.len(),
{
    broadcast use vstd::seq_lib::group_to_multiset_ensures;

    if s.len() > 0 && T::precedes(x, s.last()) {
        let r = put(s.drop_last(), x);
        lemma_put_members(s.drop_last(), x);
        assert(s == s.drop_last().push(s.last()));
        assert forall|i: int| 0 <= i <= s.len() implies #[trigger] put(s, x)[i] == x || s.contains(
            put(s, x)[i],
        ) by {
            if i < s.len() {
                assert(put(s, x)[i] == r[i]);
                if s.drop_last().contains(r[i]) {
                    let j = choose|j: int| 0 <= j < s.len() - 1 && s.drop_last()[j] == r[i];
                    assert(s[j] == r[i]);
                }
            } else {
                assert(s[s.len() - 1] == put(s, x)[i]);
            }
        }
    } else {
        assert forall|i: int| 0 <= i <= s.len() implies #[trigger] put(s, x)[i] == x || s.contains(
            put(s, x)[i],
        ) by {
            if i < s.len() {
                assert(s[i] == put(s, x)[i]);
            }
        }
    }
}

proof fn lemma_put_in_rank<T: Sorts>(s: Seq<T>, x: T)
    requires
        in_rank(s),
    ensures
        in_rank(put(s, x)),
    decreases s.len(),
{
    let p = put(s, x);
    lemma_put_members(s, x);
    if s.len() > 0 && T::precedes(x, s.last()) {
        let q = put(s.drop_last(), x);
        lemma_put_in_rank(s.drop_last(), x);
        lemma_put_members(s.drop_last(), x);
        assert forall|i: int, j: int| 0 <= i < j < p.len() implies !T::precedes(
            #[trigger] p[j],
            #[trigger] p[i],
        ) by {
            if j == p.len() - 1 {
                assert(p[i] == q[i]);
                if q[i] == x {
                    T::lemma_one_way(x, s.last());
                } else {
                    let k = choose|k: int| 0 <= k < s.len() - 1 && s.drop_last()[k] == q[i];
                    assert(s[k] == q[i]);
                    assert(!T::precedes(s[s.len() - 1], s[k]));
                }
            } else {
                assert(p[i] == q[i] && p[j] == q[j]);
            }
        }
    } else {
        assert forall|i: int, j: int| 0 <= i < j < p.len() implies !T::precedes(
            #[trigger] p[j],
            #[trigger] p[i],
        ) by {
            if j == s.len() {
                if i < s.len() - 1 {
                    assert(!T::precedes(s[s.len() - 1], s[i]));
                    T::lemma_chain(s[i], s.last(), x);
                }
            } else {
                assert(p[i] == s[i] && p[j] == s[j]);
            }
        }
    }
}

/// Sorting leaves nothing behind what it has to precede, and neither adds nor drops anything.
pub proof fn lemma_sorted<T: Sorts>(s: Seq<T>)
    ensures
        in_rank(sorted(s)),
        sorted(s).to_multiset() == s.to_multiset(),
        sorted(s).len() == s.len(),
    decreases s.len(),
{
    broadcast use vstd::seq_lib::group_to_multiset_ensures;

    if s.len() > 0 {
        lemma_sorted(s.drop_last());
        lemma_put_in_rank(sorted(s.drop_last()), s.last());
        lemma_put_members(sorted(s.drop_last()), s.last());
        assert(s == s.drop_last().push(s.last()));
    }
}

/// Picking from a sequence with one more item.
pub proof fn lemma_filter_push<T>(s: Seq<T>, x: T, keep: spec_fn(T) -> bool)
    ensures
        s.push(x).filter(keep) == if keep(x) {
            s.filter(keep).push(x)
        } else {
            s.filter(keep)
        },
{
    reveal(Seq::filter);
    assert(s.push(x).drop_last() == s);
}

proof fn lemma_put_among_ties<T: Sorts>(s: Seq<T>, x: T, keep: spec_fn(T) -> bool)
    requires
        forall|a: T, b: T|
            #![trigger keep(a), keep(b)]
            keep(a) && keep(b) ==> !T::precedes(a, b),
    ensures
        put(s, x).filter(keep) == s.push(x).filter(keep),
    decreases s.len(),
{
    if s.len() > 0 && T::precedes(x, s.last()) {
        let r = put(s.drop_last(), x);
        lemma_put_among_ties(s.drop_last(), x, keep);
        lemma_filter_push(r, s.last(), keep);
        lemma_filter_push(s.drop_last(), x, keep);
        lemma_filter_push(s, x, keep);
        lemma_filter_push(s.drop_last(), s.last(), keep);
        assert(s == s.drop_last().push(s.last()));
        assert(!(keep(x) && keep(s.last())));
    }
}

/// Sorting keeps the order of items that rank alike: of those that `keep` picks, no one of
/// which has to precede another, the sequence is the same before and after.
pub proof fn lemma_sorted_keeps_ties<T: Sorts>(s: Seq<T>, keep: spec_fn(T) -> bool)
    requires
        forall|a: T, b: T|
            #![trigger keep(a), keep(b)]
            keep(a) && keep(b) ==> !T::precedes(a, b),
    ensures
        sorted(s).filter(keep) == s.filter(keep),
    decreases s.len(),
{
    if s.len() > 0 {
        lemma_sorted_keeps_ties(s.drop_last(), keep);
        lemma_put_among_ties(sorted(s.drop_last()), s.last(), keep);
        lemma_filter_push(sorted(s.drop_last()), s.last(), keep);
        lemma_filter_push(s.drop_last(), s.last(), keep);
        assert(s == s.drop_last().push(s.last()));
    }
}

proof fn lemma_put_at<T: Sorts>(s: Seq<T>, x: T, p: int)
    requires
        0 <= p <= s.len(),
        forall|i: int| p <= i < s.len() ==> T::precedes(x, #[trigger] s[i]),
        p > 0 ==> !T::precedes(x, s[p - 1]),
    ensures
        put(s, x) == s.insert(p, x),
    decreases s.len(),
{
    if p < s.len() {
        assert(T::precedes(x, s[s.len() - 1]));
        lemma_put_at(s.drop_last(), x, p);
        assert(s.insert(p, x) == s.drop_last().insert(p, x).push(s.last()));
    } else {
        assert(s.insert(p, x) == s.push(x));
    }
}

/// Sorts `v`.
pub fn sort<T: Sorts>(v: Vec<T>) -> (r: Vec<T>)
    ensures
        r@ == sorted(v@),
{
    let ghost all = v@;
    let mut r: Vec<T> = Vec::new();
    for x in it: v
        invariant
            it.seq() == all,
            r@ == sorted(all.take(it.index() as int)),
    {
        let mut p: usize = r.len();
        while p > 0 && x.before(&r[p - 1])
            invariant
                p <= r.len(),
                forall|i: int| p <= i < r.len() ==> T::precedes(x, #[trigger] r@[i]),
            decreases p,
        {
            p -= 1;
        }
        proof {
            let k = it.index() as int;
            lemma_put_at(r@, x, p as int);
            assert(all.take(k + 1).drop_last() == all.take(k));
            assert(all.take(k + 1).last() == x);
        }
        r.insert(p, x);
    }
    assert(all.take(all.len() as int) == all);
    r
}

} // verus!
