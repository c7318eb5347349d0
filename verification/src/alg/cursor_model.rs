//! The cursor as a mathematical state machine, and what its runs guarantee.
//!
//! The cursor behaves like a shuffle of an array that holds every value of
//! the range, except that the array is never built: a table records only the
//! slots whose content differs from their index. Drawing slot `r` gives out
//! what the slot holds and moves the content of the first slot of the window
//! into slot `r`; then the window shrinks from the front.

use vstd::prelude::*;

verus! {

/// The state of a cursor.
pub struct CursorState {
    /// First position of the window of positions still to be consumed.
    pub lower: int,
    /// Last position of the window.
    pub upper: int,
    /// How many values have been given out.
    pub generated: nat,
    /// Content of the slots that were touched by a draw.
    pub redirect: Map<u64, u64>,
}

/// A fresh cursor over `lo..=hi`.
pub open spec fn initial(lo: u64, hi: u64) -> CursorState {
    CursorState { lower: lo as int, upper: hi as int, generated: 0, redirect: Map::empty() }
}

/// Nothing is left to give out.
pub open spec fn exhausted(st: CursorState) -> bool {
    st.lower > st.upper
}

/// What `slot` holds: its recorded content, or its own index while untouched.
pub open spec fn occupant(redirect: Map<u64, u64>, slot: u64) -> u64 {
    if redirect.contains_key(slot) {
        redirect[slot]
    } else {
        slot
    }
}

/// What a draw of slot `draw` gives out.
pub open spec fn emitted(st: CursorState, draw: u64) -> Option<u64> {
    if exhausted(st) {
        None
    } else {
        Some(occupant(st.redirect, draw))
    }
}

/// The state after a draw of slot `draw`. An exhausted cursor stays as it is.
pub open spec fn advance(st: CursorState, draw: u64) -> CursorState {
    if exhausted(st) {
        st
    } else {
        CursorState {
            lower: st.lower + 1,
            upper: st.upper,
            generated: st.generated + 1,
            redirect: st.redirect.insert(draw, occupant(st.redirect, st.lower as u64)),
        }
    }
}

/// The state after the draws `draws`, made in order.
pub open spec fn replay(st: CursorState, draws: Seq<u64>) -> CursorState
    decreases draws.len(),
{
    if draws.len() == 0 {
        st
    } else {
        advance(replay(st, draws.drop_last()), draws.last())
    }
}

/// What the draws `draws`, made in order, give out one by one.
pub open spec fn outputs(st: CursorState, draws: Seq<u64>) -> Seq<Option<u64>> {
    Seq::new(draws.len(), |i: int| emitted(replay(st, draws.take(i)), draws[i]))
}

/// The values that the draws `draws` give out.
pub open spec fn given_out(st: CursorState, draws: Seq<u64>) -> Set<u64> {
    Set::new(|x: u64| exists|i: int| 0 <= i < draws.len() && outputs(st, draws)[i] == Some(x))
}

/// The table describes a shuffle of `lo..=hi` of which the values `seen` have
/// been given out: the slots of the window hold, each a different one, exactly
/// the values of the range that are not in `seen`.
pub open spec fn consistent(st: CursorState, lo: int, hi: int, seen: Set<u64>) -> bool {
    &&& 0 <= lo <= st.lower <= hi + 1
    &&& st.upper == hi <= u64::MAX
    &&& st.generated == st.lower - lo
    &&& forall|p: u64|
        st.lower <= p <= hi ==> lo <= #[trigger] occupant(st.redirect, p) <= hi && !seen.contains(
            occupant(st.redirect, p),
        )
    &&& forall|p: u64, q: u64|
        st.lower <= p <= hi && st.lower <= q <= hi && p != q ==> #[trigger] occupant(
            st.redirect,
            p,
        ) != #[trigger] occupant(st.redirect, q)
    &&& forall|x: u64|
        lo <= x <= hi && !(#[trigger] seen.contains(x)) ==> exists|p: u64|
            st.lower <= p <= hi && #[trigger] occupant(st.redirect, p) == x
    &&& forall|x: u64| #[trigger] seen.contains(x) ==> lo <= x <= hi
}

/// A fresh cursor is consistent, with nothing given out.
pub proof fn lemma_initial_consistent(lo: u64, hi: u64)
    requires
        lo <= hi,
    ensures
        consistent(initial(lo, hi), lo as int, hi as int, Set::empty()),
{
    let st = initial(lo, hi);
    let seen = Set::<u64>::empty();
    assert forall|x: u64| lo <= x <= hi && !(#[trigger] seen.contains(x)) implies exists|p: u64|
        st.lower <= p <= hi && #[trigger] occupant(st.redirect, p) == x by {
        assert(occupant(st.redirect, x) == x);
    }
}

/// A draw inside the window gives out a value of the range that was not given
/// out before, and leaves the cursor consistent.
pub proof fn lemma_advance_consistent(
    st: CursorState,
    lo: int,
    hi: int,
    seen: Set<u64>,
    draw: u64,
)
    requires
        consistent(st, lo, hi, seen),
        st.lower <= draw <= st.upper,
    ensures
        emitted(st, draw) == Some(occupant(st.redirect, draw)),
        lo <= occupant(st.redirect, draw) <= hi,
        !seen.contains(occupant(st.redirect, draw)),
        consistent(advance(st, draw), lo, hi, seen.insert(occupant(st.redirect, draw))),
{
    let v = occupant(st.redirect, draw);
    let first = st.lower as u64;
    let moved = occupant(st.redirect, first);
    let next = advance(st, draw);
    let seen2 = seen.insert(v);
    assert(next.redirect == st.redirect.insert(draw, moved));
    assert forall|p: u64| next.lower <= p <= hi implies lo <= #[trigger] occupant(
        next.redirect,
        p,
    ) <= hi && !seen2.contains(occupant(next.redirect, p)) by {
        if p == draw {
            assert(occupant(next.redirect, p) == moved);
            assert(occupant(st.redirect, first) != occupant(st.redirect, draw));
        } else {
            assert(occupant(next.redirect, p) == occupant(st.redirect, p));
            assert(occupant(st.redirect, p) != occupant(st.redirect, draw));
        }
    }
    assert forall|p: u64, q: u64|
        next.lower <= p <= hi && next.lower <= q <= hi && p != q implies #[trigger] occupant(
        next.redirect,
        p,
    ) != #[trigger] occupant(next.redirect, q) by {
        let op = if p == draw {
            first
        } else {
            p
        };
        let oq = if q == draw {
            first
        } else {
            q
        };
        assert(occupant(next.redirect, p) == occupant(st.redirect, op));
        assert(occupant(next.redirect, q) == occupant(st.redirect, oq));
        assert(op != oq);
    }
    assert forall|x: u64| lo <= x <= hi && !(#[trigger] seen2.contains(x)) implies exists|p: u64|
        next.lower <= p <= hi && #[trigger] occupant(next.redirect, p) == x by {
        assert(!seen.contains(x));
        let p = choose|p: u64| st.lower <= p <= hi && #[trigger] occupant(st.redirect, p) == x;
        assert(p != draw);
        if p == first {
            assert(occupant(next.redirect, draw) == x);
        } else {
            assert(occupant(next.redirect, p) == x);
        }
    }
}

/// Exhaustion is final: an exhausted cursor gives out nothing and does not
/// change, whatever is drawn.
pub proof fn lemma_exhausted_stays(st: CursorState, draw: u64)
    requires
        exhausted(st),
    ensures
        emitted(st, draw).is_none(),
        advance(st, draw) == st,
        exhausted(advance(st, draw)),
{
}

/// How many values `lo..=hi` holds.
pub open spec fn range_size(lo: u64, hi: u64) -> nat {
    if lo <= hi {
        (hi - lo + 1) as nat
    } else {
        0
    }
}

/// Whatever is drawn, a cursor gives out a value at each of its first
/// `range_size` draws and at no later one; the window's front and the count of
/// values given out move on by one with each of them.
pub proof fn lemma_sequence_length(lo: u64, hi: u64, draws: Seq<u64>)
    ensures
        replay(initial(lo, hi), draws).upper == hi,
        replay(initial(lo, hi), draws).generated == if draws.len() <= range_size(lo, hi) {
            draws.len()
        } else {
            range_size(lo, hi)
        },
        replay(initial(lo, hi), draws).lower == lo + replay(initial(lo, hi), draws).generated,
        forall|i: int|
            0 <= i < draws.len() ==> ((#[trigger] outputs(initial(lo, hi), draws)[i]).is_some()
                <==> i < range_size(lo, hi)),
    decreases draws.len(),
{
    let st0 = initial(lo, hi);
    if draws.len() > 0 {
        lemma_sequence_length(lo, hi, draws.drop_last());
    }
    assert forall|i: int| 0 <= i < draws.len() implies ((#[trigger] outputs(
        st0,
        draws,
    )[i]).is_some() <==> i < range_size(lo, hi)) by {
        lemma_sequence_length(lo, hi, draws.take(i));
    }
}

/// Once the window is empty, every value of the range has been given out.
pub proof fn lemma_exhausted_complete(st: CursorState, lo: int, hi: int, seen: Set<u64>)
    requires
        consistent(st, lo, hi, seen),
        exhausted(st),
    ensures
        forall|x: u64| lo <= x <= hi <==> seen.contains(x),
{
}

/// Replaying two runs in a row is replaying their concatenation.
pub proof fn lemma_replay_concat(st: CursorState, first: Seq<u64>, second: Seq<u64>)
    ensures
        replay(st, first + second) == replay(replay(st, first), second),
    decreases second.len(),
{
    if second.len() == 0 {
        assert(first + second == first);
    } else {
        lemma_replay_concat(st, first, second.drop_last());
        assert((first + second).drop_last() == first + second.drop_last());
    }
}

/// Only slots that were drawn are recorded in the table.
pub proof fn lemma_replay_keys(lo: u64, hi: u64, draws: Seq<u64>)
    ensures
        forall|slot: u64| #[trigger]
            replay(initial(lo, hi), draws).redirect.contains_key(slot) ==> draws.contains(slot),
    decreases draws.len(),
{
    if draws.len() > 0 {
        let front = draws.drop_last();
        lemma_replay_keys(lo, hi, front);
        assert forall|slot: u64| #[trigger]
            replay(initial(lo, hi), draws).redirect.contains_key(slot) implies draws.contains(
            slot,
        ) by {
            if slot == draws.last() {
                assert(draws[draws.len() - 1] == slot);
            } else {
                assert(replay(initial(lo, hi), front).redirect.contains_key(slot));
                assert(front.contains(slot));
                let i = choose|i: int| 0 <= i < front.len() && front[i] == slot;
                assert(draws[i] == slot);
            }
        }
    }
}

/// Every draw lies in the window as it stands when the draw is made, for a
/// cursor that has already given out `offset` values of `lo..=hi`.
pub open spec fn in_window(lo: int, hi: int, offset: int, draws: Seq<u64>) -> bool {
    forall|i: int| 0 <= i < draws.len() ==> lo + offset + i <= #[trigger] draws[i] <= hi
}

/// A run of draws inside the window keeps the cursor consistent and gives out
/// a different value of the range each time.
pub proof fn lemma_run(lo: u64, hi: u64, draws: Seq<u64>)
    requires
        lo <= hi,
        draws.len() <= hi - lo + 1,
        in_window(lo as int, hi as int, 0, draws),
    ensures
        consistent(
            replay(initial(lo, hi), draws),
            lo as int,
            hi as int,
            given_out(initial(lo, hi), draws),
        ),
        replay(initial(lo, hi), draws).lower == lo + draws.len(),
        forall|i: int|
            0 <= i < draws.len() ==> (#[trigger] outputs(initial(lo, hi), draws)[i]).is_some(),
        forall|i: int, j: int|
            0 <= i < j < draws.len() ==> outputs(initial(lo, hi), draws)[i] != outputs(
                initial(lo, hi),
                draws,
            )[j],
    decreases draws.len(),
{
    let st0 = initial(lo, hi);
    if draws.len() == 0 {
        lemma_initial_consistent(lo, hi);
        assert(given_out(st0, draws) =~= Set::empty());
    } else {
        let front = draws.drop_last();
        let last = draws.last();
        let n = front.len() as int;
        assert forall|i: int| 0 <= i < front.len() implies lo + 0 + i <= #[trigger] front[i]
            <= hi by {
            assert(front[i] == draws[i]);
        }
        lemma_run(lo, hi, front);
        let st = replay(st0, front);
        let seen = given_out(st0, front);
        assert(lo + 0 + n <= draws[n] <= hi);
        lemma_advance_consistent(st, lo as int, hi as int, seen, last);
        let v = occupant(st.redirect, last);
        assert(draws.take(n) == front);
        assert forall|i: int| 0 <= i < n implies outputs(st0, draws)[i] == outputs(
            st0,
            front,
        )[i] by {
            assert(draws.take(i) == front.take(i));
        }
        assert(outputs(st0, draws)[n] == Some(v));
        assert(given_out(st0, draws) =~= seen.insert(v)) by {
            assert forall|x: u64| given_out(st0, draws).contains(x) <==> seen.insert(v).contains(
                x,
            ) by {
                if given_out(st0, draws).contains(x) {
                    let i = choose|i: int|
                        0 <= i < draws.len() && outputs(st0, draws)[i] == Some(x);
                    if i < n {
                        assert(outputs(st0, front)[i] == Some(x));
                    }
                }
                if seen.contains(x) {
                    let i = choose|i: int|
                        0 <= i < front.len() && outputs(st0, front)[i] == Some(x);
                    assert(outputs(st0, draws)[i] == Some(x));
                }
                if x == v {
                    assert(outputs(st0, draws)[n] == Some(x));
                }
            }
        }
        assert forall|i: int, j: int| 0 <= i < j < draws.len() implies outputs(st0, draws)[i]
            != outputs(st0, draws)[j] by {
            if j == n {
                if outputs(st0, draws)[i] == Some(v) {
                    assert(outputs(st0, front)[i] == Some(v));
                    assert(seen.contains(v));
                }
            }
        }
    }
}

/// Drawing as many times as the range has values, each time inside the
/// window, gives out a permutation of the range: every output is a value of
/// the range, no two outputs are equal, and no value is left out. Every draw
/// after that gives out nothing.
pub proof fn lemma_full_run_is_permutation(lo: u64, hi: u64, draws: Seq<u64>)
    requires
        lo <= hi,
        draws.len() == hi - lo + 1,
        in_window(lo as int, hi as int, 0, draws),
    ensures
        forall|i: int|
            0 <= i < draws.len() ==> {
                &&& (#[trigger] outputs(initial(lo, hi), draws)[i]).is_some()
                &&& lo <= outputs(initial(lo, hi), draws)[i].unwrap() <= hi
            },
        forall|i: int, j: int|
            0 <= i < j < draws.len() ==> outputs(initial(lo, hi), draws)[i] != outputs(
                initial(lo, hi),
                draws,
            )[j],
        forall|x: u64|
            lo <= x <= hi ==> #[trigger] given_out(initial(lo, hi), draws).contains(x),
        exhausted(replay(initial(lo, hi), draws)),
        forall|draw: u64| emitted(replay(initial(lo, hi), draws), draw).is_none(),
{
    let st0 = initial(lo, hi);
    lemma_run(lo, hi, draws);
    let st = replay(st0, draws);
    let seen = given_out(st0, draws);
    lemma_exhausted_complete(st, lo as int, hi as int, seen);
    assert forall|i: int| 0 <= i < draws.len() implies lo <= (#[trigger] outputs(
        st0,
        draws,
    )[i]).unwrap() <= hi by {
        let x = outputs(st0, draws)[i].unwrap();
        assert(outputs(st0, draws)[i] == Some(x));
        assert(seen.contains(x));
    }
}

/// A cursor that starts by replaying earlier values `pre` gives those out
/// first, in order, provided they are all different and each lies in the
/// window when its turn comes. The draws that follow never repeat one of
/// them, and a full run of draws inside the window gives out every other
/// value of the range exactly once.
pub proof fn lemma_preexisting_consumed_first(lo: u64, hi: u64, pre: Seq<u64>, draws: Seq<u64>)
    requires
        lo <= hi,
        pre.len() + draws.len() == hi - lo + 1,
        pre.no_duplicates(),
        in_window(lo as int, hi as int, 0, pre),
        in_window(lo as int, hi as int, pre.len() as int, draws),
    ensures
        outputs(initial(lo, hi), pre) == pre.map_values(|v: u64| Some(v)),
        forall|i: int|
            0 <= i < draws.len() ==> {
                &&& (#[trigger] outputs(replay(initial(lo, hi), pre), draws)[i]).is_some()
                &&& lo <= outputs(replay(initial(lo, hi), pre), draws)[i].unwrap() <= hi
                &&& !pre.contains(outputs(replay(initial(lo, hi), pre), draws)[i].unwrap())
            },
        forall|i: int, j: int|
            0 <= i < j < draws.len() ==> outputs(replay(initial(lo, hi), pre), draws)[i]
                != outputs(replay(initial(lo, hi), pre), draws)[j],
        forall|x: u64|
            lo <= x <= hi && !pre.contains(x) ==> #[trigger] given_out(
                replay(initial(lo, hi), pre),
                draws,
            ).contains(x),
        exhausted(replay(replay(initial(lo, hi), pre), draws)),
{
    let st0 = initial(lo, hi);
    let st1 = replay(st0, pre);
    let all = pre + draws;
    let np = pre.len() as int;
    assert forall|i: int| 0 <= i < all.len() implies lo + 0 + i <= #[trigger] all[i] <= hi by {
        if i < np {
            assert(all[i] == pre[i]);
        } else {
            assert(all[i] == draws[i - np]);
        }
    }
    lemma_full_run_is_permutation(lo, hi, all);
    lemma_replay_concat(st0, pre, draws);
    // the outputs of the whole run are those of the replay, then those of the draws
    assert forall|i: int| 0 <= i < np implies outputs(st0, all)[i] == outputs(st0, pre)[i] by {
        assert(all.take(i) == pre.take(i));
    }
    assert forall|i: int| 0 <= i < draws.len() implies outputs(st0, all)[np + i] == outputs(
        st1,
        draws,
    )[i] by {
        assert(all.take(np + i) == pre + draws.take(i));
        lemma_replay_concat(st0, pre, draws.take(i));
    }
    // a replayed value finds its slot untouched
    assert forall|i: int| 0 <= i < np implies outputs(st0, pre)[i] == Some(pre[i]) by {
        lemma_replay_keys(lo, hi, pre.take(i));
        let st = replay(st0, pre.take(i));
        if st.redirect.contains_key(pre[i]) {
            assert(pre.take(i).contains(pre[i]));
            let j = choose|j: int| 0 <= j < pre.take(i).len() && pre.take(i)[j] == pre[i];
            assert(pre[j] == pre[i]);
        }
        assert(outputs(st0, all)[i].is_some());
    }
    assert(outputs(st0, pre) =~= pre.map_values(|v: u64| Some(v)));
    assert forall|i: int| 0 <= i < draws.len() implies {
        &&& (#[trigger] outputs(st1, draws)[i]).is_some()
        &&& lo <= outputs(st1, draws)[i].unwrap() <= hi
        &&& !pre.contains(outputs(st1, draws)[i].unwrap())
    } by {
        assert(outputs(st0, all)[np + i].is_some());
        let x = outputs(st1, draws)[i].unwrap();
        if pre.contains(x) {
            let j = choose|j: int| 0 <= j < pre.len() && pre[j] == x;
            assert(outputs(st0, all)[j] == Some(x));
            assert(outputs(st0, all)[j] != outputs(st0, all)[np + i]);
        }
    }
    assert forall|i: int, j: int| 0 <= i < j < draws.len() implies outputs(st1, draws)[i]
        != outputs(st1, draws)[j] by {
        assert(outputs(st0, all)[np + i] != outputs(st0, all)[np + j]);
    }
    assert forall|x: u64| lo <= x <= hi && !pre.contains(x) implies #[trigger] given_out(
        st1,
        draws,
    ).contains(x) by {
        assert(given_out(st0, all).contains(x));
        let i = choose|i: int| 0 <= i < all.len() && outputs(st0, all)[i] == Some(x);
        if i < np {
            assert(pre[i] == x);
        } else {
            assert(outputs(st1, draws)[i - np] == Some(x));
        }
    }
}

/// Over a range of one value, a draw of that value gives it out, and whatever
/// is drawn afterwards gives out nothing.
pub proof fn lemma_single_value(v: u64, first: u64, second: u64)
    ensures
        emitted(initial(v, v), v) == Some(v),
        emitted(advance(initial(v, v), first), second).is_none(),
{
}

} // verus!
