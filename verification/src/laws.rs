//! What holds of the container whatever is done with it, stated over the
//! model and proved.

use crate::model::{
    admits, backward_run, distinct_keys, forward_run, has_key, keeps, lemma_position_unique,
    mixed_run, moved_front, position, pushed, removed, run, spares, step, value_of, without_last,
    Op,
};
use vstd::prelude::*;
use vstd::seq_lib::lemma_multiset_commutative;

verus! {

/// A key that `s` does not carry has no position in it.
proof fn lemma_absent<T>(s: Seq<(usize, T)>, key: usize)
    requires
        !has_key(s, key),
    ensures
        forall|i: int| 0 <= i < s.len() ==> (#[trigger] s[i]).0 != key,
{
}

/// Pushing keeps the keys distinct, puts the new pair in front, and leaves
/// every other key with its value.
pub proof fn lemma_push<T>(s: Seq<(usize, T)>, key: usize, value: T, other: usize)
    requires
        distinct_keys(s),
        !has_key(s, key),
    ensures
        distinct_keys(pushed(s, key, value)),
        pushed(s, key, value).first() == (key, value),
        value_of(pushed(s, key, value), key) == Some(value),
        other != key ==> value_of(pushed(s, key, value), other) == value_of(s, other),
{
    let t = pushed(s, key, value);
    lemma_absent(s, key);
    assert forall|i: int, j: int| 0 <= i < t.len() && 0 <= j < t.len() && i != j implies (
    #[trigger] t[i]).0 != (#[trigger] t[j]).0 by {
        if i > 0 {
            assert(t[i] == s[i - 1]);
        }
        if j > 0 {
            assert(t[j] == s[j - 1]);
        }
    }
    lemma_position_unique(t, 0);
    if other != key {
        if has_key(s, other) {
            let p = position(s, other);
            assert(t[p + 1] == s[p]);
            lemma_position_unique(t, p + 1);
        } else {
            lemma_absent(s, other);
            if has_key(t, other) {
                let q = position(t, other);
                assert(t[q] == s[q - 1]);
            }
        }
    }
}

/// Removing a key keeps the keys distinct, takes that key out for good, and
/// leaves every other key with its value. Removing it once more changes
/// nothing, and neither does moving it to the front.
pub proof fn lemma_remove<T>(s: Seq<(usize, T)>, key: usize, other: usize)
    requires
        distinct_keys(s),
    ensures
        distinct_keys(removed(s, key)),
        !has_key(removed(s, key), key),
        value_of(removed(s, key), key) is None,
        removed(removed(s, key), key) == removed(s, key),
        moved_front(removed(s, key), key) == removed(s, key),
        has_key(s, key) ==> removed(s, key).len() == s.len() - 1,
        other != key ==> value_of(removed(s, key), other) == value_of(s, other),
{
    let t = removed(s, key);
    if has_key(s, key) {
        let p = position(s, key);
        assert forall|i: int| 0 <= i < t.len() implies #[trigger] t[i] == s[if i < p {
            i
        } else {
            i + 1
        }] by {}
        assert forall|i: int, j: int| 0 <= i < t.len() && 0 <= j < t.len() && i != j implies (
        #[trigger] t[i]).0 != (#[trigger] t[j]).0 by {
            assert(t[i] == s[if i < p { i } else { i + 1 }]);
            assert(t[j] == s[if j < p { j } else { j + 1 }]);
        }
        if has_key(t, key) {
            let q = position(t, key);
            assert(t[q] == s[if q < p { q } else { q + 1 }]);
        }
        if other != key {
            if has_key(s, other) {
                let o = position(s, other);
                let i = if o < p { o } else { o - 1 };
                assert(t[i] == s[o]);
                lemma_position_unique(t, i);
            } else {
                lemma_absent(s, other);
                if has_key(t, other) {
                    let q = position(t, other);
                    assert(t[q] == s[if q < p { q } else { q + 1 }]);
                }
            }
        }
    }
}

/// Moving a key to the front keeps the keys distinct and every key with its
/// value. The pair moved comes first and the other pairs keep their order:
/// what follows the front is the sequence without that key. Moving the
/// front changes nothing, so moving a key twice is moving it once.
pub proof fn lemma_move_front<T>(s: Seq<(usize, T)>, key: usize, other: usize)
    requires
        distinct_keys(s),
    ensures
        distinct_keys(moved_front(s, key)),
        moved_front(s, key).len() == s.len(),
        value_of(moved_front(s, key), other) == value_of(s, other),
        has_key(s, key) ==> moved_front(s, key).first() == s[position(s, key)] && moved_front(
            s,
            key,
        ).drop_first() == removed(s, key),
        has_key(s, key) && position(s, key) == 0 ==> moved_front(s, key) == s,
        moved_front(moved_front(s, key), key) == moved_front(s, key),
{
    let t = moved_front(s, key);
    if has_key(s, key) {
        let p = position(s, key);
        let from = |i: int| if i == 0 { p } else if i <= p { i - 1 } else { i };
        assert forall|i: int| 0 <= i < t.len() implies #[trigger] t[i] == s[from(i)] by {}
        assert forall|i: int, j: int| 0 <= i < t.len() && 0 <= j < t.len() && i != j implies (
        #[trigger] t[i]).0 != (#[trigger] t[j]).0 by {
            assert(t[i] == s[from(i)]);
            assert(t[j] == s[from(j)]);
        }
        assert(t.drop_first() =~= s.remove(p));
        if p == 0 {
            assert(t =~= s);
        }
        assert(t[0] == s[p]);
        lemma_position_unique(t, 0);
        assert(moved_front(t, key) =~= t);
        if has_key(s, other) {
            let o = position(s, other);
            let i = if o == p { 0 } else if o < p { o + 1 } else { o };
            assert(t[i] == s[from(i)]);
            lemma_position_unique(t, i);
        } else {
            lemma_absent(s, other);
            if has_key(t, other) {
                let q = position(t, other);
                assert(t[q] == s[from(q)]);
            }
        }
    }
}

/// Removing the last pair keeps the keys distinct and leaves every key but
/// that of the last pair with its value.
pub proof fn lemma_remove_last<T>(s: Seq<(usize, T)>, other: usize)
    requires
        distinct_keys(s),
    ensures
        distinct_keys(without_last(s)),
        s.len() > 0 ==> without_last(s) == removed(s, s.last().0),
        s.len() > 0 && other != s.last().0 ==> value_of(without_last(s), other) == value_of(
            s,
            other,
        ),
{
    if s.len() > 0 {
        lemma_position_unique(s, s.len() - 1);
        assert(s.remove(s.len() - 1) =~= s.drop_last());
        lemma_remove(s, s.last().0, other);
    }
}

/// Clearing leaves what a new container is: no pair, nothing for
/// `remove_last` to take, and room for a push as in a new container.
pub proof fn lemma_clear<T>(s: Seq<(usize, T)>, key: usize, value: T)
    ensures
        step(s, Op::Clear) == Seq::<(usize, T)>::empty(),
        step(s, Op::Clear).len() == 0,
        without_last(step(s, Op::Clear)) == step(s, Op::Clear),
        admits(step(s, Op::Clear), Op::Push(key, value)),
        pushed(step(s, Op::Clear), key, value) == seq![(key, value)],
        value_of(pushed(step(s, Op::Clear), key, value), key) == Some(value),
{
    let t = pushed(Seq::<(usize, T)>::empty(), key, value);
    assert(t =~= seq![(key, value)]);
    assert(distinct_keys(t));
    lemma_position_unique(t, 0);
}

/// Key stability: whatever operations follow, in whatever order, a key
/// keeps the value it has until an operation takes that key out. The
/// operations may push, move any key to the front (this one too), and
/// remove other keys.
pub proof fn lemma_key_stability<T>(s: Seq<(usize, T)>, ops: Seq<Op<T>>, key: usize)
    requires
        distinct_keys(s),
        has_key(s, key),
        keeps(s, ops, key),
    ensures
        distinct_keys(run(s, ops)),
        has_key(run(s, ops), key),
        value_of(run(s, ops), key) == value_of(s, key),
    decreases ops.len(),
{
    if ops.len() > 0 {
        let op = ops.first();
        let t = step(s, op);
        assert(admits(s, op) && spares(s, op, key));
        match op {
            Op::Push(k, v) => {
                lemma_push(s, k, v, key);
            },
            Op::Remove(k) => {
                lemma_remove(s, k, key);
            },
            Op::MoveFront(k) => {
                lemma_move_front(s, k, key);
            },
            Op::RemoveLast => {
                lemma_remove_last(s, key);
            },
            Op::Clear => {},
        }
        assert(value_of(t, key) == value_of(s, key));
        lemma_key_stability(t, ops.drop_first(), key);
    }
}

/// Length consistency: a cursor advanced from the front until nothing
/// remains hands out every pair, in order; advanced from the back, every
/// pair in reverse order. Either way it hands out as many pairs as the
/// container holds.
pub proof fn lemma_full_runs<T>(s: Seq<(usize, T)>)
    ensures
        forward_run(s) == s,
        backward_run(s) == s.reverse(),
        forward_run(s).len() == s.len(),
        backward_run(s).len() == s.len(),
    decreases s.len(),
{
    if s.len() > 0 {
        lemma_full_runs(s.drop_first());
        lemma_full_runs(s.drop_last());
        assert(seq![s.first()] + s.drop_first() =~= s);
        assert(seq![s.last()] + s.drop_last().reverse() =~= s.reverse());
    } else {
        assert(s =~= Seq::empty());
        assert(s.reverse() =~= Seq::empty());
    }
}

/// Every step of a cursor hands out one pair and leaves one pair less, as
/// long as a pair remains; from then on it hands out nothing.
pub proof fn lemma_mixed_run_len<T>(s: Seq<(usize, T)>, from_front: Seq<bool>)
    ensures
        mixed_run(s, from_front).len() == (if from_front.len() <= s.len() {
            from_front.len()
        } else {
            s.len()
        }),
    decreases from_front.len(),
{
    if from_front.len() > 0 && s.len() > 0 {
        if from_front.first() {
            lemma_mixed_run_len(s.drop_first(), from_front.drop_first());
        } else {
            lemma_mixed_run_len(s.drop_last(), from_front.drop_first());
        }
    }
}

/// Bidirectional exactness: a cursor advanced at least as often as the
/// container has pairs, from the front and from the back in any
/// interleaving, hands out exactly the pairs of the container, each as
/// often as the container holds it: none twice, none left out.
pub proof fn lemma_mixed_run_exact<T>(s: Seq<(usize, T)>, from_front: Seq<bool>)
    requires
        from_front.len() >= s.len(),
    ensures
        mixed_run(s, from_front).len() == s.len(),
        mixed_run(s, from_front).to_multiset() == s.to_multiset(),
    decreases from_front.len(),
{
    lemma_mixed_run_len(s, from_front);
    if s.len() == 0 {
        assert(s =~= Seq::empty());
    } else {
        let rest_steps = from_front.drop_first();
        if from_front.first() {
            let rest = s.drop_first();
            lemma_mixed_run_exact(rest, rest_steps);
            lemma_multiset_commutative(seq![s.first()], mixed_run(rest, rest_steps));
            lemma_multiset_commutative(seq![s.first()], rest);
            assert(seq![s.first()] + rest =~= s);
        } else {
            let rest = s.drop_last();
            lemma_mixed_run_exact(rest, rest_steps);
            lemma_multiset_commutative(seq![s.last()], mixed_run(rest, rest_steps));
            lemma_multiset_commutative(rest, seq![s.last()]);
            assert(rest + seq![s.last()] =~= s);
            assert(seq![s.last()].to_multiset().add(rest.to_multiset()) =~= rest.to_multiset().add(
                seq![s.last()].to_multiset(),
            ));
        }
    }
}

} // verus!
