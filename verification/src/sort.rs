//! Sorting by merging, which keeps values of the same rank in the order they
//! came in.

use vstd::prelude::*;

verus! {

/// Values that have a rank among each other; different values may have the same.
pub trait Ranked: View + Sized {
    /// Whether a value that says `a` ranks before one that says `b`.
    spec fn ranks_before(a: Self::V, b: Self::V) -> bool;

    /// No value ranks before itself, and the ranks form one line.
    proof fn one_line(a: Self::V, b: Self::V, c: Self::V)
        ensures
            !Self::ranks_before(a, a),
            Self::ranks_before(a, b) ==> !Self::ranks_before(b, a),
            Self::ranks_before(a, b) ==> Self::ranks_before(a, c) || Self::ranks_before(c, b),
    ;

    /// Whether this value ranks before `other`.
    fn precedes(&self, other: &Self) -> (r: bool)
        ensures
            r == Self::ranks_before(self@, other@),
    ;
}

/// Whether two values have the same rank.
pub open spec fn tied<T: Ranked>(a: T::V, b: T::V) -> bool {
    !T::ranks_before(a, b) && !T::ranks_before(b, a)
}

/// Whether no value ranks before an earlier one.
pub open spec fn in_order<T: Ranked>(s: Seq<T::V>) -> bool {
    forall|i: int, j: int|
        #![trigger s[i], s[j]]
        0 <= i < j < s.len() ==> !T::ranks_before(s[j], s[i])
}

/// The values of `s` that have the rank of `x`, as they follow each other in it.
pub open spec fn ties<T: Ranked>(s: Seq<T::V>, x: T::V) -> Seq<T::V>
    decreases s.len(),
{
    if s.len() == 0 {
        Seq::empty()
    } else if tied::<T>(s.last(), x) {
        ties::<T>(s.drop_last(), x).push(s.last())
    } else {
        ties::<T>(s.drop_last(), x)
    }
}

/// Whether `r` is `s` sorted: in order, with the same values of each rank in
/// the order they have in `s`.
pub open spec fn sorted_from<T: Ranked>(r: Seq<T::V>, s: Seq<T::V>) -> bool {
    &&& in_order::<T>(r)
    &&& forall|x: T::V| #[trigger] ties::<T>(r, x) == ties::<T>(s, x)
}

/// Each value by what it says.
pub open spec fn value_views<T: View>(s: Seq<T>) -> Seq<T::V> {
    Seq::new(s.len(), |i: int| s[i]@)
}

proof fn lemma_ties_joined<T: Ranked>(s: Seq<T::V>, t: Seq<T::V>, x: T::V)
    ensures
        ties::<T>(s + t, x) == ties::<T>(s, x) + ties::<T>(t, x),
    decreases t.len(),
{
    if t.len() == 0 {
        assert(s + t =~= s);
        assert(ties::<T>(s, x) + ties::<T>(t, x) =~= ties::<T>(s, x));
    } else {
        assert((s + t).drop_last() =~= s + t.drop_last());
        assert((s + t).last() == t.last());
        lemma_ties_joined::<T>(s, t.drop_last(), x);
        assert(ties::<T>(s + t, x) =~= ties::<T>(s, x) + ties::<T>(t, x));
    }
}

proof fn lemma_ties_none<T: Ranked>(s: Seq<T::V>, x: T::V)
    requires
        forall|i: int| 0 <= i < s.len() ==> !tied::<T>(#[trigger] s[i], x),
    ensures
        ties::<T>(s, x) == Seq::<T::V>::empty(),
    decreases s.len(),
{
    if s.len() > 0 {
        assert(!tied::<T>(s[s.len() - 1], x));
        assert forall|i: int| 0 <= i < s.drop_last().len() implies !tied::<T>(#[trigger] s.drop_last()[i], x) by {
            assert(s.drop_last()[i] == s[i]);
        }
        lemma_ties_none::<T>(s.drop_last(), x);
    }
}

/// A value has the rank of those that are tied with one of its rank.
proof fn lemma_tied<T: Ranked>(a: T::V, b: T::V, x: T::V)
    requires
        tied::<T>(a, x),
        tied::<T>(b, x),
    ensures
        tied::<T>(a, b),
        tied::<T>(b, a),
{
    T::one_line(a, b, x);
    T::one_line(b, a, x);
}

/// There are values of a rank where there is one that has it.
pub proof fn lemma_some_tie<T: Ranked>(s: Seq<T::V>, x: T::V)
    ensures
        ties::<T>(s, x).len() > 0 <==> exists|k: int| 0 <= k < s.len() && tied::<T>(#[trigger] s[k], x),
    decreases s.len(),
{
    if s.len() > 0 {
        let t = s.drop_last();
        let n = s.len() - 1;
        lemma_some_tie::<T>(t, x);
        if tied::<T>(s.last(), x) {
            assert(tied::<T>(s[n], x));
        } else if ties::<T>(t, x).len() > 0 {
            let k = choose|k: int| 0 <= k < t.len() && tied::<T>(#[trigger] t[k], x);
            assert(tied::<T>(s[k], x));
        } else if exists|k: int| 0 <= k < s.len() && tied::<T>(#[trigger] s[k], x) {
            let k = choose|k: int| 0 <= k < s.len() && tied::<T>(#[trigger] s[k], x);
            assert(tied::<T>(t[k], x));
        }
    }
}

/// The first of the values of a rank is the first value that has it.
pub proof fn lemma_first_tie<T: Ranked>(s: Seq<T::V>, x: T::V, k: int)
    requires
        0 <= k < s.len(),
        tied::<T>(s[k], x),
        forall|m: int| 0 <= m < k ==> !tied::<T>(#[trigger] s[m], x),
    ensures
        ties::<T>(s, x).len() > 0,
        ties::<T>(s, x)[0] == s[k],
{
    let front = s.take(k);
    let rest = s.skip(k + 1);
    assert(s =~= front + seq![s[k]] + rest);
    assert forall|m: int| 0 <= m < front.len() implies !tied::<T>(#[trigger] front[m], x) by {
        assert(front[m] == s[m]);
    }
    lemma_ties_none::<T>(front, x);
    lemma_ties_one::<T>(s[k], x);
    lemma_ties_joined::<T>(front, seq![s[k]], x);
    lemma_ties_joined::<T>(front + seq![s[k]], rest, x);
}

proof fn lemma_ties_one<T: Ranked>(e: T::V, x: T::V)
    ensures
        ties::<T>(seq![e], x) == if tied::<T>(e, x) {
            seq![e]
        } else {
            Seq::empty()
        },
{
    let one = seq![e];
    assert(one.last() == e);
    assert(one.drop_last().len() == 0);
    assert(ties::<T>(one.drop_last(), x) =~= Seq::<T::V>::empty());
    assert(Seq::<T::V>::empty().push(e) =~= seq![e]);
}

/// One step of a merge: the last value of the first run goes to the front of
/// what is merged, where it ranks behind all of the second run.
proof fn lemma_take_first<T: Ranked>(a: Seq<T::V>, b: Seq<T::V>, tail: Seq<T::V>, x: T::V)
    requires
        a.len() > 0,
        in_order::<T>(b),
        b.len() > 0 ==> T::ranks_before(b.last(), a.last()),
    ensures
        ties::<T>(a.drop_last(), x) + ties::<T>(b, x) + ties::<T>(seq![a.last()] + tail, x) == ties::<T>(a, x)
            + ties::<T>(b, x) + ties::<T>(tail, x),
{
    let e = a.last();
    lemma_ties_joined::<T>(seq![e], tail, x);
    lemma_ties_joined::<T>(a.drop_last(), seq![e], x);
    assert(a =~= a.drop_last() + seq![e]);
    lemma_ties_one::<T>(e, x);
    if tied::<T>(e, x) {
        assert forall|i: int| 0 <= i < b.len() implies !tied::<T>(#[trigger] b[i], x) by {
            let l = b.last();
            assert(b[b.len() - 1] == l);
            assert(!T::ranks_before(l, b[i])) by {
                T::one_line(l, l, l);
            }
            T::one_line(l, e, b[i]);
            assert(T::ranks_before(b[i], e));
            if tied::<T>(b[i], x) {
                lemma_tied::<T>(b[i], e, x);
            }
        }
        lemma_ties_none::<T>(b, x);
        assert(ties::<T>(a.drop_last(), x) + Seq::<T::V>::empty() =~= ties::<T>(a.drop_last(), x));
        assert(ties::<T>(a, x) + Seq::<T::V>::empty() =~= ties::<T>(a, x));
        assert(ties::<T>(a.drop_last(), x) + (seq![e] + ties::<T>(tail, x)) =~= ties::<T>(a.drop_last(), x).push(e)
            + ties::<T>(tail, x));
    } else {
        assert(Seq::<T::V>::empty() + ties::<T>(tail, x) =~= ties::<T>(tail, x));
    }
}

/// The other step: the last value of the second run goes there.
proof fn lemma_take_second<T: Ranked>(a: Seq<T::V>, b: Seq<T::V>, tail: Seq<T::V>, x: T::V)
    requires
        b.len() > 0,
    ensures
        ties::<T>(a, x) + ties::<T>(b.drop_last(), x) + ties::<T>(seq![b.last()] + tail, x) == ties::<T>(a, x)
            + ties::<T>(b, x) + ties::<T>(tail, x),
{
    let e = b.last();
    lemma_ties_joined::<T>(seq![e], tail, x);
    lemma_ties_one::<T>(e, x);
    if tied::<T>(e, x) {
        assert(ties::<T>(a, x) + ties::<T>(b.drop_last(), x) + (seq![e] + ties::<T>(tail, x)) =~= ties::<T>(a, x)
            + ties::<T>(b.drop_last(), x).push(e) + ties::<T>(tail, x));
    } else {
        assert(Seq::<T::V>::empty() + ties::<T>(tail, x) =~= ties::<T>(tail, x));
    }
}

/// Whether no value of `tail` ranks before one of `s`.
spec fn none_before<T: Ranked>(tail: Seq<T::V>, s: Seq<T::V>) -> bool {
    forall|i: int, j: int|
        #![trigger tail[i], s[j]]
        0 <= i < tail.len() && 0 <= j < s.len() ==> !T::ranks_before(tail[i], s[j])
}

/// What a value at the front of what is merged keeps.
proof fn lemma_front<T: Ranked>(e: T::V, tail: Seq<T::V>, s: Seq<T::V>)
    requires
        in_order::<T>(tail),
        forall|i: int| 0 <= i < tail.len() ==> !T::ranks_before(#[trigger] tail[i], e),
        forall|j: int| 0 <= j < s.len() ==> !T::ranks_before(e, #[trigger] s[j]),
        none_before::<T>(tail, s),
    ensures
        in_order::<T>(seq![e] + tail),
        none_before::<T>(seq![e] + tail, s),
{
    let all = seq![e] + tail;
    assert forall|i: int, j: int| #![trigger all[i], all[j]] 0 <= i < j < all.len() implies !T::ranks_before(
        all[j],
        all[i],
    ) by {
        assert(all[j] == tail[j - 1]);
        if i > 0 {
            assert(all[i] == tail[i - 1]);
        }
    }
    assert forall|i: int, j: int| #![trigger all[i], s[j]]
        0 <= i < all.len() && 0 <= j < s.len() implies !T::ranks_before(all[i], s[j]) by {
        if i > 0 {
            assert(all[i] == tail[i - 1]);
        }
    }
}

/// What holds all through a merge of `a0` and `b0`: `a` and `b` are left of
/// them, and `tail` is merged.
spec fn merging<T: Ranked>(a0: Seq<T::V>, b0: Seq<T::V>, a: Seq<T::V>, b: Seq<T::V>, tail: Seq<T::V>) -> bool {
    &&& in_order::<T>(a)
    &&& in_order::<T>(b)
    &&& in_order::<T>(tail)
    &&& none_before::<T>(tail, a)
    &&& none_before::<T>(tail, b)
    &&& forall|x: T::V|
        #![trigger ties::<T>(tail, x)]
        ties::<T>(a, x) + ties::<T>(b, x) + ties::<T>(tail, x) == ties::<T>(a0, x) + ties::<T>(b0, x)
}

proof fn lemma_step_first<T: Ranked>(a0: Seq<T::V>, b0: Seq<T::V>, a: Seq<T::V>, b: Seq<T::V>, tail: Seq<T::V>)
    requires
        merging::<T>(a0, b0, a, b, tail),
        a.len() > 0,
        b.len() > 0 ==> T::ranks_before(b.last(), a.last()),
    ensures
        merging::<T>(a0, b0, a.drop_last(), b, seq![a.last()] + tail),
{
    let e = a.last();
    let rest = a.drop_last();
    let all = seq![e] + tail;
    assert(a[a.len() - 1] == e);
    assert forall|i: int| 0 <= i < tail.len() implies !T::ranks_before(#[trigger] tail[i], e) by {}
    assert forall|j: int| 0 <= j < rest.len() implies !T::ranks_before(e, #[trigger] rest[j]) by {
        assert(rest[j] == a[j]);
    }
    assert forall|j: int| 0 <= j < b.len() implies !T::ranks_before(e, #[trigger] b[j]) by {
        let l = b.last();
        assert(b[b.len() - 1] == l);
        T::one_line(l, e, b[j]);
        T::one_line(b[j], e, l);
        if j < b.len() - 1 {
            assert(!T::ranks_before(l, b[j]));
        } else {
            T::one_line(l, l, l);
        }
    }
    assert(none_before::<T>(tail, rest)) by {
        assert forall|i: int, j: int| #![trigger tail[i], rest[j]]
            0 <= i < tail.len() && 0 <= j < rest.len() implies !T::ranks_before(tail[i], rest[j]) by {
            assert(rest[j] == a[j]);
        }
    }
    lemma_front::<T>(e, tail, rest);
    lemma_front::<T>(e, tail, b);
    assert forall|x: T::V| #![trigger ties::<T>(all, x)]
        ties::<T>(rest, x) + ties::<T>(b, x) + ties::<T>(all, x) == ties::<T>(a0, x) + ties::<T>(b0, x) by {
        lemma_take_first::<T>(a, b, tail, x);
        assert(ties::<T>(a, x) + ties::<T>(b, x) + ties::<T>(tail, x) == ties::<T>(a0, x) + ties::<T>(b0, x));
    }
    assert(in_order::<T>(rest)) by {
        assert forall|i: int, j: int| #![trigger rest[i], rest[j]] 0 <= i < j < rest.len() implies !T::ranks_before(
            rest[j],
            rest[i],
        ) by {
            assert(rest[i] == a[i] && rest[j] == a[j]);
        }
    }
}

proof fn lemma_step_second<T: Ranked>(a0: Seq<T::V>, b0: Seq<T::V>, a: Seq<T::V>, b: Seq<T::V>, tail: Seq<T::V>)
    requires
        merging::<T>(a0, b0, a, b, tail),
        b.len() > 0,
        a.len() > 0 ==> !T::ranks_before(b.last(), a.last()),
    ensures
        merging::<T>(a0, b0, a, b.drop_last(), seq![b.last()] + tail),
{
    let e = b.last();
    let rest = b.drop_last();
    let all = seq![e] + tail;
    assert(b[b.len() - 1] == e);
    assert forall|i: int| 0 <= i < tail.len() implies !T::ranks_before(#[trigger] tail[i], e) by {}
    assert forall|j: int| 0 <= j < rest.len() implies !T::ranks_before(e, #[trigger] rest[j]) by {
        assert(rest[j] == b[j]);
    }
    assert forall|j: int| 0 <= j < a.len() implies !T::ranks_before(e, #[trigger] a[j]) by {
        let l = a.last();
        assert(a[a.len() - 1] == l);
        T::one_line(e, a[j], l);
        if j < a.len() - 1 {
            assert(!T::ranks_before(l, a[j]));
        }
    }
    assert(none_before::<T>(tail, rest)) by {
        assert forall|i: int, j: int| #![trigger tail[i], rest[j]]
            0 <= i < tail.len() && 0 <= j < rest.len() implies !T::ranks_before(tail[i], rest[j]) by {
            assert(rest[j] == b[j]);
        }
    }
    lemma_front::<T>(e, tail, rest);
    lemma_front::<T>(e, tail, a);
    assert forall|x: T::V| #![trigger ties::<T>(all, x)]
        ties::<T>(a, x) + ties::<T>(rest, x) + ties::<T>(all, x) == ties::<T>(a0, x) + ties::<T>(b0, x) by {
        lemma_take_second::<T>(a, b, tail, x);
        assert(ties::<T>(a, x) + ties::<T>(b, x) + ties::<T>(tail, x) == ties::<T>(a0, x) + ties::<T>(b0, x));
    }
    assert(in_order::<T>(rest)) by {
        assert forall|i: int, j: int| #![trigger rest[i], rest[j]] 0 <= i < j < rest.len() implies !T::ranks_before(
            rest[j],
            rest[i],
        ) by {
            assert(rest[i] == b[i] && rest[j] == b[j]);
        }
    }
}

/// Turns a list round.
fn turned<T: View>(from: Vec<T>) -> (r: Vec<T>)
    ensures
        value_views(r@) == value_views(from@).reverse(),
        r@.len() == from@.len(),
{
    let mut from = from;
    let ghost all = from@;
    let mut r: Vec<T> = Vec::new();
    while from.len() > 0
        invariant
            from@.len() + r@.len() == all.len(),
            from@ == all.take(from@.len() as int),
            forall|i: int| 0 <= i < r@.len() ==> #[trigger] r@[i] == all[all.len() - 1 - i],
        decreases from@.len(),
    {
        if let Some(e) = from.pop() {
            r.push(e);
        }
        assert(from@ =~= all.take(from@.len() as int));
    }
    assert(value_views(r@) =~= value_views(all).reverse());
    r
}

/// Merges two sorted runs; of values of the same rank those of the first run
/// come first.
fn merge<T: Ranked>(first: Vec<T>, second: Vec<T>) -> (r: Vec<T>)
    requires
        in_order::<T>(value_views(first@)),
        in_order::<T>(value_views(second@)),
    ensures
        r@.len() == first@.len() + second@.len(),
        in_order::<T>(value_views(r@)),
        forall|x: T::V|
            #![trigger ties::<T>(value_views(r@), x)]
            ties::<T>(value_views(r@), x) == ties::<T>(value_views(first@), x) + ties::<T>(value_views(second@), x),
{
    let mut a = first;
    let mut b = second;
    let ghost a0 = value_views(a@);
    let ghost b0 = value_views(b@);
    let mut back: Vec<T> = Vec::new();
    let ghost mut tail: Seq<T::V> = Seq::empty();
    assert(merging::<T>(a0, b0, a0, b0, tail)) by {
        assert forall|x: T::V| #![trigger ties::<T>(tail, x)]
            ties::<T>(a0, x) + ties::<T>(b0, x) + ties::<T>(tail, x) == ties::<T>(a0, x) + ties::<T>(b0, x) by {
            assert(ties::<T>(a0, x) + ties::<T>(b0, x) + Seq::<T::V>::empty() =~= ties::<T>(a0, x) + ties::<T>(
                b0,
                x,
            ));
        }
    }
    assert(tail =~= value_views(back@).reverse());
    while a.len() > 0 || b.len() > 0
        invariant
            merging::<T>(a0, b0, value_views(a@), value_views(b@), tail),
            tail == value_views(back@).reverse(),
            back@.len() + a@.len() + b@.len() == first@.len() + second@.len(),
        decreases a@.len() + b@.len(),
    {
        let ghost av = value_views(a@);
        let ghost bv = value_views(b@);
        let ghost back_before = value_views(back@);
        let from_first = if b.len() == 0 {
            true
        } else if a.len() == 0 {
            false
        } else {
            b[b.len() - 1].precedes(&a[a.len() - 1])
        };
        if from_first {
            if let Some(e) = a.pop() {
                proof {
                    assert(e@ == av.last());
                    lemma_step_first::<T>(a0, b0, av, bv, tail);
                    tail = seq![e@] + tail;
                    assert(value_views(a@) =~= av.drop_last());
                }
                back.push(e);
                assert(value_views(back@) =~= back_before.push(e@));
                assert(tail =~= value_views(back@).reverse());
            }
        } else {
            if let Some(e) = b.pop() {
                proof {
                    assert(e@ == bv.last());
                    lemma_step_second::<T>(a0, b0, av, bv, tail);
                    tail = seq![e@] + tail;
                    assert(value_views(b@) =~= bv.drop_last());
                }
                back.push(e);
                assert(value_views(back@) =~= back_before.push(e@));
                assert(tail =~= value_views(back@).reverse());
            }
        }
    }
    let r = turned(back);
    proof {
        assert forall|x: T::V| #![trigger ties::<T>(value_views(r@), x)]
            ties::<T>(value_views(r@), x) == ties::<T>(a0, x) + ties::<T>(b0, x) by {
            assert(value_views(a@) =~= Seq::<T::V>::empty());
            assert(value_views(b@) =~= Seq::<T::V>::empty());
            assert(ties::<T>(tail, x) =~= Seq::<T::V>::empty() + Seq::<T::V>::empty() + ties::<T>(tail, x));
        }
    }
    r
}

/// Sorts values by their ranks; those of the same rank stay in the order they
/// came in.
pub fn sort<T: Ranked>(values: Vec<T>) -> (r: Vec<T>)
    ensures
        sorted_from::<T>(value_views(r@), value_views(values@)),
        r@.len() == values@.len(),
    decreases values@.len(),
{
    if values.len() < 2 {
        return values;
    }
    let mut first = values;
    let ghost all = value_views(first@);
    let half: usize = first.len() / 2;
    let second = first.split_off(half);
    let ghost u = value_views(first@);
    let ghost v = value_views(second@);
    assert(u =~= all.take(half as int));
    assert(v =~= all.skip(half as int));
    assert(all =~= u + v);
    let a = sort(first);
    let b = sort(second);
    let r = merge(a, b);
    proof {
        assert forall|x: T::V| #[trigger] ties::<T>(value_views(r@), x) == ties::<T>(all, x) by {
            lemma_ties_joined::<T>(u, v, x);
            assert(ties::<T>(value_views(a@), x) == ties::<T>(u, x));
            assert(ties::<T>(value_views(b@), x) == ties::<T>(v, x));
        }
    }
    r
}

proof fn lemma_same_ties<T: Ranked>(r: Seq<T::V>, t: Seq<T::V>)
    requires
        in_order::<T>(r),
        in_order::<T>(t),
        forall|x: T::V| #[trigger] ties::<T>(r, x) == ties::<T>(t, x),
    ensures
        r == t,
    decreases r.len(),
{
    if r.len() == 0 {
        if t.len() > 0 {
            T::one_line(t[0], t[0], t[0]);
            assert(tied::<T>(t[0], t[0]));
            lemma_some_tie::<T>(t, t[0]);
            assert(ties::<T>(r, t[0]).len() == 0);
        }
        assert(r =~= t);
    } else {
        let e = r.last();
        T::one_line(e, e, e);
        assert(r[r.len() - 1] == e);
        assert(tied::<T>(r[r.len() - 1], e));
        lemma_some_tie::<T>(r, e);
        lemma_some_tie::<T>(t, e);
        assert(ties::<T>(r, e) == ties::<T>(t, e));
        let f = t.last();
        let p = choose|p: int| 0 <= p < t.len() && tied::<T>(#[trigger] t[p], e);
        T::one_line(f, f, f);
        assert(t[t.len() - 1] == f);
        assert(tied::<T>(t[t.len() - 1], f));
        lemma_some_tie::<T>(t, f);
        lemma_some_tie::<T>(r, f);
        assert(ties::<T>(r, f) == ties::<T>(t, f));
        let q = choose|q: int| 0 <= q < r.len() && tied::<T>(#[trigger] r[q], f);
        assert(!T::ranks_before(e, r[q]));
        assert(!T::ranks_before(f, t[p]));
        T::one_line(e, f, r[q]);
        T::one_line(f, e, t[p]);
        assert(tied::<T>(f, e));
        assert(ties::<T>(r, e).last() == e);
        assert(ties::<T>(t, e).last() == f);
        let r1 = r.drop_last();
        let t1 = t.drop_last();
        assert forall|x: T::V| #[trigger] ties::<T>(r1, x) == ties::<T>(t1, x) by {
            assert(ties::<T>(r, x) == ties::<T>(t, x));
            if tied::<T>(e, x) {
                assert(ties::<T>(r, x).drop_last() =~= ties::<T>(r1, x));
                assert(ties::<T>(t, x).drop_last() =~= ties::<T>(t1, x));
            }
        }
        assert forall|i: int, j: int| #![trigger r1[i], r1[j]] 0 <= i < j < r1.len() implies !T::ranks_before(
            r1[j],
            r1[i],
        ) by {
            assert(r1[i] == r[i] && r1[j] == r[j]);
        }
        assert forall|i: int, j: int| #![trigger t1[i], t1[j]] 0 <= i < j < t1.len() implies !T::ranks_before(
            t1[j],
            t1[i],
        ) by {
            assert(t1[i] == t[i] && t1[j] == t[j]);
        }
        lemma_same_ties::<T>(r1, t1);
        assert(r =~= r1.push(e));
        assert(t =~= t1.push(f));
    }
}

/// Sorting has one outcome.
pub proof fn sorting_has_one_outcome<T: Ranked>(s: Seq<T::V>, r: Seq<T::V>, t: Seq<T::V>)
    requires
        sorted_from::<T>(r, s),
        sorted_from::<T>(t, s),
    ensures
        r == t,
{
    assert forall|x: T::V| #[trigger] ties::<T>(r, x) == ties::<T>(t, x) by {
        assert(ties::<T>(t, x) == ties::<T>(s, x));
    }
    lemma_same_ties::<T>(r, t);
}

proof fn lemma_ties_contain<T: Ranked>(s: Seq<T::V>, x: T::V)
    ensures
        forall|i: int|
            0 <= i < ties::<T>(s, x).len() ==> s.contains(#[trigger] ties::<T>(s, x)[i]) && tied::<T>(
                ties::<T>(s, x)[i],
                x,
            ),
        forall|k: int| 0 <= k < s.len() && tied::<T>(#[trigger] s[k], x) ==> ties::<T>(s, x).contains(s[k]),
    decreases s.len(),
{
    if s.len() > 0 {
        let t = s.drop_last();
        let before = ties::<T>(t, x);
        let all = ties::<T>(s, x);
        lemma_ties_contain::<T>(t, x);
        assert forall|i: int| 0 <= i < all.len() implies s.contains(#[trigger] all[i]) && tied::<T>(all[i], x) by {
            if i < before.len() {
                assert(all[i] == before[i]);
                let k = t.index_of(all[i]);
                assert(s[k] == all[i]);
            } else {
                assert(s[s.len() - 1] == all[i]);
            }
        }
        assert forall|k: int| 0 <= k < s.len() && tied::<T>(#[trigger] s[k], x) implies all.contains(s[k]) by {
            if k < t.len() {
                assert(t[k] == s[k]);
                let i = before.index_of(s[k]);
                assert(all[i] == s[k]);
            } else {
                assert(all[all.len() - 1] == s[k]);
            }
        }
    }
}

/// Where no two values have the same rank, the order in which they arrive does
/// not matter to the outcome.
pub proof fn order_of_arrival_does_not_matter<T: Ranked>(
    s: Seq<T::V>,
    u: Seq<T::V>,
    r: Seq<T::V>,
    t: Seq<T::V>,
)
    requires
        forall|x: T::V| s.contains(x) <==> u.contains(x),
        forall|x: T::V| (#[trigger] ties::<T>(s, x)).len() <= 1,
        forall|x: T::V| (#[trigger] ties::<T>(u, x)).len() <= 1,
        sorted_from::<T>(r, s),
        sorted_from::<T>(t, u),
    ensures
        r == t,
{
    assert forall|x: T::V| #[trigger] ties::<T>(t, x) == ties::<T>(s, x) by {
        assert(ties::<T>(t, x) == ties::<T>(u, x));
        let a = ties::<T>(s, x);
        let b = ties::<T>(u, x);
        assert(a.len() <= 1 && b.len() <= 1);
        lemma_ties_contain::<T>(s, x);
        lemma_ties_contain::<T>(u, x);
        if a.len() > 0 {
            assert(s.contains(a[0]));
            let k = u.index_of(a[0]);
            assert(tied::<T>(u[k], x));
            assert(b.contains(u[k]));
        }
        if b.len() > 0 {
            assert(u.contains(b[0]));
            let k = s.index_of(b[0]);
            assert(tied::<T>(s[k], x));
            assert(a.contains(s[k]));
        }
        assert(a =~= b);
    }
    sorting_has_one_outcome::<T>(s, r, t);
}

/// What is sorted holds as often as before each of its values, none of them
/// ranks before an earlier one, and those of one rank follow each other as they
/// did.
pub proof fn sorting_keeps_every_value<T: Ranked>(r: Seq<T::V>, s: Seq<T::V>, x: T::V)
    requires
        sorted_from::<T>(r, s),
    ensures
        r.filter(|y: T::V| y == x) == s.filter(|y: T::V| y == x),
        r.filter(|y: T::V| !T::ranks_before(x, y) && !T::ranks_before(y, x)) == s.filter(
            |y: T::V| !T::ranks_before(x, y) && !T::ranks_before(y, x),
        ),
        forall|i: int, j: int| #![trigger r[i], r[j]] 0 <= i < j < r.len() ==> !T::ranks_before(r[j], r[i]),
{
    T::one_line(x, x, x);
    lemma_ties_filter::<T>(r, x);
    lemma_ties_filter::<T>(s, x);
    assert(ties::<T>(r, x) == ties::<T>(s, x));
}

proof fn lemma_ties_filter<T: Ranked>(s: Seq<T::V>, x: T::V)
    ensures
        s.filter(|y: T::V| !T::ranks_before(x, y) && !T::ranks_before(y, x)) == ties::<T>(s, x),
        s.filter(|y: T::V| y == x) == ties::<T>(s, x).filter(|y: T::V| y == x),
    decreases s.len(),
{
    T::one_line(x, x, x);
    reveal(Seq::filter);
    if s.len() > 0 {
        lemma_ties_filter::<T>(s.drop_last(), x);
        let t = ties::<T>(s.drop_last(), x);
        assert(t.push(s.last()).drop_last() =~= t);
    }
}

/// Values are seen by what they say.
pub proof fn views_are_the_values<T: View>(s: Seq<T>)
    ensures
        value_views(s).len() == s.len(),
        forall|i: int| 0 <= i < s.len() ==> #[trigger] value_views(s)[i] == s[i]@,
{
}

} // verus!
