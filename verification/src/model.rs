//! The mathematical model of the container: a sequence of `(key, value)` pairs
//! in front-to-back order, and what each operation does to such a sequence.

use vstd::prelude::*;

verus! {

/// True if some pair of `s` carries `key`.
pub open spec fn has_key<T>(s: Seq<(usize, T)>, key: usize) -> bool {
    exists|i: int| 0 <= i < s.len() && (#[trigger] s[i]).0 == key
}

/// A position at which `s` carries `key`; the only one where the keys of `s`
/// are distinct. Meaningful only if `has_key(s, key)`.
pub open spec fn position<T>(s: Seq<(usize, T)>, key: usize) -> int {
    choose|i: int| 0 <= i < s.len() && (#[trigger] s[i]).0 == key
}

/// No key occurs twice in `s`.
pub open spec fn distinct_keys<T>(s: Seq<(usize, T)>) -> bool {
    forall|i: int, j: int|
        0 <= i < s.len() && 0 <= j < s.len() && i != j ==> (#[trigger] s[i]).0 != (#[trigger] s[j]).0
}

/// The value that `s` holds under `key`, if any.
pub open spec fn value_of<T>(s: Seq<(usize, T)>, key: usize) -> Option<T> {
    if has_key(s, key) {
        Some(s[position(s, key)].1)
    } else {
        None
    }
}

/// `s` with the pair `(key, value)` placed in front.
pub open spec fn pushed<T>(s: Seq<(usize, T)>, key: usize, value: T) -> Seq<(usize, T)> {
    seq![(key, value)] + s
}

/// `s` without the pair that carries `key`; `s` itself if there is none.
pub open spec fn removed<T>(s: Seq<(usize, T)>, key: usize) -> Seq<(usize, T)> {
    if has_key(s, key) {
        s.remove(position(s, key))
    } else {
        s
    }
}

/// `s` with the pair that carries `key` taken out and placed in front; `s`
/// itself if there is none.
pub open spec fn moved_front<T>(s: Seq<(usize, T)>, key: usize) -> Seq<(usize, T)> {
    if has_key(s, key) {
        seq![s[position(s, key)]] + s.remove(position(s, key))
    } else {
        s
    }
}

/// `s` without its last pair; `s` itself if it is empty.
pub open spec fn without_last<T>(s: Seq<(usize, T)>) -> Seq<(usize, T)> {
    if s.len() > 0 {
        s.drop_last()
    } else {
        s
    }
}

/// `s` with the value under `key` replaced by `value`; `s` itself if it does
/// not carry `key`.
pub open spec fn replaced<T>(s: Seq<(usize, T)>, key: usize, value: T) -> Seq<(usize, T)> {
    if has_key(s, key) {
        s.update(position(s, key), (key, value))
    } else {
        s
    }
}

/// One operation on a container, as a value. A push names the key that the
/// slot table gave it.
pub enum Op<T> {
    Push(usize, T),
    Remove(usize),
    MoveFront(usize),
    RemoveLast,
    Clear,
}

/// What `op` makes of `s`.
pub open spec fn step<T>(s: Seq<(usize, T)>, op: Op<T>) -> Seq<(usize, T)> {
    match op {
        Op::Push(key, value) => pushed(s, key, value),
        Op::Remove(key) => removed(s, key),
        Op::MoveFront(key) => moved_front(s, key),
        Op::RemoveLast => without_last(s),
        Op::Clear => Seq::empty(),
    }
}

/// `op` can happen to `s`: a push brings a key that `s` does not carry.
pub open spec fn admits<T>(s: Seq<(usize, T)>, op: Op<T>) -> bool {
    op matches Op::Push(key, _) ==> !has_key(s, key)
}

/// `op` does not take the pair under `key` out of `s`.
pub open spec fn spares<T>(s: Seq<(usize, T)>, op: Op<T>, key: usize) -> bool {
    match op {
        Op::Push(_, _) => true,
        Op::Remove(other) => other != key,
        Op::MoveFront(_) => true,
        Op::RemoveLast => s.len() > 0 && s.last().0 != key,
        Op::Clear => false,
    }
}

/// What the operations `ops`, one after the other, make of `s`.
pub open spec fn run<T>(s: Seq<(usize, T)>, ops: Seq<Op<T>>) -> Seq<(usize, T)>
    decreases ops.len(),
{
    if ops.len() == 0 {
        s
    } else {
        run(step(s, ops.first()), ops.drop_first())
    }
}

/// Every operation of `ops` can happen when its turn comes, and none takes
/// the pair under `key` out.
pub open spec fn keeps<T>(s: Seq<(usize, T)>, ops: Seq<Op<T>>, key: usize) -> bool
    decreases ops.len(),
{
    ops.len() > 0 ==> admits(s, ops.first()) && spares(s, ops.first(), key) && keeps(
        step(s, ops.first()),
        ops.drop_first(),
        key,
    )
}

/// The pairs that a cursor over `s` hands out when it is advanced from the
/// front until nothing remains.
pub open spec fn forward_run<T>(s: Seq<(usize, T)>) -> Seq<(usize, T)>
    decreases s.len(),
{
    if s.len() == 0 {
        Seq::empty()
    } else {
        seq![s.first()] + forward_run(s.drop_first())
    }
}

/// The pairs that a cursor over `s` hands out when it is advanced from the
/// back until nothing remains.
pub open spec fn backward_run<T>(s: Seq<(usize, T)>) -> Seq<(usize, T)>
    decreases s.len(),
{
    if s.len() == 0 {
        Seq::empty()
    } else {
        seq![s.last()] + backward_run(s.drop_last())
    }
}

/// The pairs that a cursor over `s` hands out when it is advanced once for
/// each entry of `from_front`: from the front where the entry is true, from
/// the back where it is false. Once nothing remains, a step hands out
/// nothing.
pub open spec fn mixed_run<T>(s: Seq<(usize, T)>, from_front: Seq<bool>) -> Seq<(usize, T)>
    decreases from_front.len(),
{
    if from_front.len() == 0 || s.len() == 0 {
        Seq::empty()
    } else if from_front.first() {
        seq![s.first()] + mixed_run(s.drop_first(), from_front.drop_first())
    } else {
        seq![s.last()] + mixed_run(s.drop_last(), from_front.drop_first())
    }
}

/// Where the keys are distinct, the position of a key is the one place that
/// carries it.
pub proof fn lemma_position_unique<T>(s: Seq<(usize, T)>, i: int)
    requires
        distinct_keys(s),
        0 <= i < s.len(),
    ensures
        has_key(s, s[i].0),
        position(s, s[i].0) == i,
{
    let p = position(s, s[i].0);
    assert(0 <= p < s.len() && s[p].0 == s[i].0);
}

} // verus!
