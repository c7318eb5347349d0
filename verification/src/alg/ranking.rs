//! Lexicographic ranks of combinations: what the rank of a combination is, and
//! why the indexer's arithmetic computes it.
//!
//! A combination of `k` out of `n` is written as its positions in increasing
//! order, each between 1 and `n`. Combinations are ordered by comparing these
//! sequences element by element; the first one has rank 1.
//!
//! The rank is defined by counting the combinations that come before. That
//! this is the place in lexicographic order is shown by the lemmas on it:
//! ranks lie between 1 and the number of combinations, every such number is
//! the rank of a combination, and an earlier combination has a smaller rank.

use crate::alg::binomial::{binomial, lemma_binomial_above, lemma_pascal};
use vstd::prelude::*;
use vstd::relations::{sorted_by, total_ordering};
use vstd::seq_lib::lemma_sorted_unique;

verus! {

/// `s` lists `k` positions out of `1..=n` in strictly increasing order.
pub open spec fn is_combination(s: Seq<u8>, n: nat, k: nat) -> bool {
    &&& s.len() == k
    &&& forall|i: int| 0 <= i < s.len() ==> 1 <= #[trigger] s[i] <= n
    &&& forall|i: int, j: int| 0 <= i < j < s.len() ==> s[i] < s[j]
}

/// `s` lists `k` different positions out of `1..=n` in any order.
pub open spec fn is_selection(s: Seq<u8>, n: nat, k: nat) -> bool {
    &&& s.len() == k
    &&& s.no_duplicates()
    &&& forall|i: int| 0 <= i < s.len() ==> 1 <= #[trigger] s[i] <= n
}

/// The positions of `s` in increasing order.
pub open spec fn ascending(s: Seq<u8>) -> Seq<u8> {
    s.sort_by(|a: u8, b: u8| a <= b)
}

/// `s` comes before `t` in lexicographic order: at the first index where they
/// differ, `s` holds the smaller position.
pub open spec fn lex_less(s: Seq<u8>, t: Seq<u8>) -> bool {
    exists|i: int|
        0 <= i < s.len() && i < t.len() && s[i] < t[i] && s.subrange(0, i) == t.subrange(0, i)
}

/// The position chosen just before index `i`, or 0 at the start.
pub open spec fn before(s: Seq<u8>, i: int) -> nat {
    if i <= 0 {
        0
    } else {
        s[i - 1] as nat
    }
}

/// The number of ways to put one of the positions `from..to` next and to
/// choose `m` further positions beyond it:
/// the sum of `binomial(n - c, m)` over `from <= c < to`.
pub open spec fn skipped(n: nat, m: nat, from: nat, to: nat) -> nat
    decreases to,
{
    if from >= to {
        0
    } else {
        skipped(n, m, from, (to - 1) as nat) + binomial((n - (to - 1)) as nat, m)
    }
}

/// The number of `k`-combinations that come before `s` because they hold a
/// smaller position at one of the first `upto` indices and agree with `s`
/// before it.
pub open spec fn preceding(s: Seq<u8>, n: nat, k: nat, upto: nat) -> nat
    decreases upto,
{
    if upto == 0 {
        0
    } else {
        let i = upto - 1;
        preceding(s, n, k, i as nat) + skipped(
            n,
            (k - 1 - i) as nat,
            before(s, i) + 1,
            s[i] as nat,
        )
    }
}

/// The 1-based lexicographic rank of the combination `s` among all
/// combinations of `s.len()` out of `n`.
pub open spec fn lex_rank(s: Seq<u8>, n: nat) -> nat {
    1 + preceding(s, n, s.len(), s.len())
}

/// `preceding` reads only the first `upto` positions.
pub proof fn lemma_preceding_prefix(s: Seq<u8>, t: Seq<u8>, n: nat, k: nat, upto: nat)
    requires
        upto <= s.len(),
        upto <= t.len(),
        s.subrange(0, upto as int) == t.subrange(0, upto as int),
    ensures
        preceding(s, n, k, upto) == preceding(t, n, k, upto),
    decreases upto,
{
    if upto > 0 {
        let i = upto - 1;
        assert(s.subrange(0, i) == s.subrange(0, upto as int).subrange(0, i));
        assert(t.subrange(0, i) == t.subrange(0, upto as int).subrange(0, i));
        lemma_preceding_prefix(s, t, n, k, i as nat);
        assert(s[i] == s.subrange(0, upto as int)[i]);
        assert(t[i] == t.subrange(0, upto as int)[i]);
        if i > 0 {
            assert(s[i - 1] == s.subrange(0, upto as int)[i - 1]);
            assert(t[i - 1] == t.subrange(0, upto as int)[i - 1]);
        }
    }
}

/// Skipping more positions skips more combinations.
pub proof fn lemma_skipped_grows(n: nat, m: nat, from: nat, to: nat, further: nat)
    requires
        to <= further,
    ensures
        skipped(n, m, from, to) <= skipped(n, m, from, further),
    decreases further,
{
    if to < further {
        lemma_skipped_grows(n, m, from, to, (further - 1) as nat);
    }
}

/// The combinations of `m + 1` positions beyond `from - 1` split by their
/// smallest position: those that start below `to`, and those that start at
/// `to` or later.
pub proof fn lemma_skipped_total(n: nat, m: nat, from: nat, to: nat)
    requires
        1 <= from <= to <= n + 1,
    ensures
        skipped(n, m, from, to) + binomial((n + 1 - to) as nat, m + 1) == binomial(
            (n + 1 - from) as nat,
            m + 1,
        ),
    decreases to,
{
    if from < to {
        lemma_skipped_total(n, m, from, (to - 1) as nat);
        lemma_pascal((n + 2 - to) as nat, m + 1);
    }
}

/// What skipping from just after `low` up to (not including) `pos` amounts
/// to, in closed form.
pub proof fn lemma_skipped_closed(n: nat, m: nat, low: nat, pos: nat)
    requires
        low < pos <= n,
    ensures
        skipped(n, m, low + 1, pos) + binomial((n - pos) as nat, m + 1) + binomial(
            (n - pos) as nat,
            m,
        ) == binomial((n - low) as nat, m + 1),
{
    lemma_skipped_total(n, m, low + 1, pos);
    lemma_pascal((n + 1 - pos) as nat, m + 1);
}

/// However a combination continues after its first `idx` positions, the
/// combinations that precede it on account of the later positions are fewer
/// than the ways to continue.
pub proof fn lemma_tail_bound(s: Seq<u8>, n: nat, k: nat, idx: nat)
    requires
        is_combination(s, n, k),
        idx <= k,
    ensures
        preceding(s, n, k, idx) <= preceding(s, n, k, k),
        preceding(s, n, k, k) - preceding(s, n, k, idx) + 1 <= binomial(
            (n - before(s, idx as int)) as nat,
            (k - idx) as nat,
        ),
    decreases k - idx,
{
    if idx < k {
        lemma_tail_bound(s, n, k, idx + 1);
        let low = before(s, idx as int);
        let pos = s[idx as int] as nat;
        let m = (k - 1 - idx) as nat;
        assert(low < pos) by {
            if idx > 0 {
                assert(s[idx - 1] < s[idx as int]);
            }
        }
        assert(preceding(s, n, k, idx + 1) == preceding(s, n, k, idx) + skipped(
            n,
            m,
            low + 1,
            pos,
        ));
        assert(before(s, idx as int + 1) == pos);
        lemma_skipped_closed(n, m, low, pos);
    }
}

/// A rank lies between 1 and the number of combinations.
pub proof fn lemma_rank_in_range(s: Seq<u8>, n: nat, k: nat)
    requires
        is_combination(s, n, k),
    ensures
        1 <= lex_rank(s, n) <= binomial(n, k),
{
    lemma_tail_bound(s, n, k, 0);
}

/// Ranks follow the lexicographic order: an earlier combination has a smaller
/// rank.
pub proof fn lemma_rank_monotone(s: Seq<u8>, t: Seq<u8>, n: nat, k: nat)
    requires
        is_combination(s, n, k),
        is_combination(t, n, k),
        lex_less(s, t),
    ensures
        lex_rank(s, n) < lex_rank(t, n),
{
    let i = choose|i: int|
        0 <= i < s.len() && i < t.len() && s[i] < t[i] && s.subrange(0, i) == t.subrange(0, i);
    let m = (k - 1 - i) as nat;
    let low = before(s, i);
    assert(before(t, i) == low) by {
        if i > 0 {
            assert(s[i - 1] == s.subrange(0, i)[i - 1]);
            assert(t[i - 1] == t.subrange(0, i)[i - 1]);
        }
    }
    assert(low < s[i]) by {
        if i > 0 {
            assert(s[i - 1] < s[i]);
        }
    }
    lemma_preceding_prefix(s, t, n, k, i as nat);
    // what precedes s on account of positions after i is less than the block
    // of combinations that share s's first i + 1 positions
    lemma_tail_bound(s, n, k, (i + 1) as nat);
    assert(before(s, i + 1) == s[i]);
    assert(preceding(s, n, k, (i + 1) as nat) == preceding(s, n, k, i as nat) + skipped(
        n,
        m,
        low + 1,
        s[i] as nat,
    ));
    // that whole block is skipped on the way to t's position at i
    lemma_skipped_grows(n, m, low + 1, (s[i] + 1) as nat, t[i] as nat);
    assert(skipped(n, m, low + 1, (s[i] + 1) as nat) == skipped(n, m, low + 1, s[i] as nat)
        + binomial((n - s[i]) as nat, m));
    assert(preceding(t, n, k, (i + 1) as nat) == preceding(t, n, k, i as nat) + skipped(
        n,
        m,
        low + 1,
        t[i] as nat,
    ));
    lemma_tail_bound(t, n, k, (i + 1) as nat);
}

/// Two combinations of the same size differ at a first index, and are ordered
/// by it.
pub proof fn lemma_lex_total(s: Seq<u8>, t: Seq<u8>)
    requires
        s.len() == t.len(),
        s != t,
    ensures
        lex_less(s, t) || lex_less(t, s),
    decreases s.len(),
{
    if s.len() == 0 {
        assert(s =~= t);
    } else if s.subrange(0, s.len() - 1) == t.subrange(0, s.len() - 1) {
        let i = s.len() - 1;
        if s[i] == t[i] {
            assert forall|j: int| 0 <= j < s.len() implies s[j] == t[j] by {
                if j < i {
                    assert(s[j] == s.subrange(0, i)[j]);
                    assert(t[j] == t.subrange(0, i)[j]);
                }
            }
            assert(s =~= t);
        }
    } else {
        let sp = s.subrange(0, s.len() - 1);
        let tp = t.subrange(0, s.len() - 1);
        lemma_lex_total(sp, tp);
        if lex_less(sp, tp) {
            let i = choose|i: int|
                0 <= i < sp.len() && i < tp.len() && sp[i] < tp[i] && sp.subrange(0, i)
                    == tp.subrange(0, i);
            assert(sp.subrange(0, i) == s.subrange(0, i));
            assert(tp.subrange(0, i) == t.subrange(0, i));
            assert(sp[i] == s[i] && tp[i] == t[i]);
        } else {
            let i = choose|i: int|
                0 <= i < tp.len() && i < sp.len() && tp[i] < sp[i] && tp.subrange(0, i)
                    == sp.subrange(0, i);
            assert(sp.subrange(0, i) == s.subrange(0, i));
            assert(tp.subrange(0, i) == t.subrange(0, i));
            assert(sp[i] == s[i] && tp[i] == t[i]);
        }
    }
}

/// Different combinations have different ranks.
pub proof fn lemma_rank_injective(s: Seq<u8>, t: Seq<u8>, n: nat, k: nat)
    requires
        is_combination(s, n, k),
        is_combination(t, n, k),
        lex_rank(s, n) == lex_rank(t, n),
    ensures
        s == t,
{
    if s != t {
        lemma_lex_total(s, t);
        if lex_less(s, t) {
            lemma_rank_monotone(s, t, n, k);
        } else {
            lemma_rank_monotone(t, s, n, k);
        }
    }
}

/// Among the positions after `low`, the one at which the running count of
/// skipped combinations first reaches `budget`.
proof fn lemma_position_for(n: nat, m: nat, low: nat, budget: nat, from: nat) -> (pos: nat)
    requires
        low < from <= n + 1,
        skipped(n, m, low + 1, from) < budget <= binomial((n - low) as nat, m + 1),
    ensures
        low < pos <= n,
        skipped(n, m, low + 1, pos) < budget <= skipped(n, m, low + 1, pos + 1),
    decreases n + 1 - from,
{
    if from == n + 1 {
        lemma_skipped_total(n, m, low + 1, n + 1);
        lemma_binomial_above(0, m + 1);
        from
    } else if budget <= skipped(n, m, low + 1, from + 1) {
        from
    } else {
        lemma_position_for(n, m, low, budget, from + 1)
    }
}

/// A combination can be continued so as to fall on any place among the
/// combinations that share its first positions: for each `budget` up to the
/// number of ways to continue `prefix`, there is a combination that starts
/// with `prefix` and is preceded, on account of its later positions, by
/// `budget - 1` others.
proof fn lemma_continue(prefix: Seq<u8>, n: nat, k: nat, budget: nat) -> (s: Seq<u8>)
    requires
        n <= u8::MAX,
        prefix.len() <= k,
        is_combination(prefix, n, prefix.len()),
        1 <= budget <= binomial(
            (n - before(prefix, prefix.len() as int)) as nat,
            (k - prefix.len()) as nat,
        ),
    ensures
        is_combination(s, n, k),
        s.subrange(0, prefix.len() as int) == prefix,
        preceding(s, n, k, k) == preceding(s, n, k, prefix.len()) + budget - 1,
    decreases k - prefix.len(),
{
    let idx = prefix.len();
    if idx == k {
        assert(prefix.subrange(0, idx as int) == prefix);
        prefix
    } else {
        let low = before(prefix, idx as int);
        let m = (k - 1 - idx) as nat;
        assert(low < n) by {
            if low >= n {
                lemma_binomial_above(0, m + 1);
            }
        }
        let pos = lemma_position_for(n, m, low, budget, low + 1);
        lemma_skipped_closed(n, m, low, pos);
        let longer = prefix.push(pos as u8);
        assert(is_combination(longer, n, idx + 1)) by {
            assert forall|i: int, j: int| 0 <= i < j < longer.len() implies longer[i]
                < longer[j] by {
                if j == idx {
                    if i < idx - 1 {
                        assert(prefix[i] < prefix[idx - 1]);
                    }
                } else {
                    assert(prefix[i] < prefix[j]);
                }
            }
        }
        let rest = (budget - skipped(n, m, low + 1, pos)) as nat;
        assert(before(longer, idx as int + 1) == pos);
        let s = lemma_continue(longer, n, k, rest);
        assert(s.subrange(0, idx as int) == prefix) by {
            assert(s.subrange(0, idx as int) == s.subrange(0, idx as int + 1).subrange(
                0,
                idx as int,
            ));
            assert(longer.subrange(0, idx as int) == prefix);
        }
        assert(s[idx as int] == pos) by {
            assert(s.subrange(0, idx as int + 1)[idx as int] == longer[idx as int]);
        }
        assert(before(s, idx as int) == low) by {
            if idx > 0 {
                assert(s.subrange(0, idx as int)[idx - 1] == prefix[idx - 1]);
            }
        }
        assert(preceding(s, n, k, idx + 1) == preceding(s, n, k, idx) + skipped(
            n,
            m,
            low + 1,
            pos,
        ));
        s
    }
}

/// Every rank from 1 to the number of combinations is the rank of a
/// combination.
pub proof fn lemma_rank_onto(n: nat, k: nat, rank: nat) -> (s: Seq<u8>)
    requires
        n <= u8::MAX,
        1 <= rank <= binomial(n, k),
    ensures
        is_combination(s, n, k),
        lex_rank(s, n) == rank,
{
    lemma_continue(Seq::<u8>::empty(), n, k, rank)
}

/// The `i`-th position of a combination is at least `i + 1`.
pub proof fn lemma_position_floor(s: Seq<u8>, n: nat, k: nat, i: int)
    requires
        is_combination(s, n, k),
        0 <= i < k,
    ensures
        s[i] >= i + 1,
    decreases i,
{
    if i > 0 {
        lemma_position_floor(s, n, k, i - 1);
        assert(s[i - 1] < s[i]);
    }
}

/// A rearrangement of `s` that is in non-decreasing order is `ascending(s)`.
pub proof fn lemma_ascending_unique(s: Seq<u8>, t: Seq<u8>)
    requires
        t.to_multiset() == s.to_multiset(),
        forall|i: int, j: int| 0 <= i < j < t.len() ==> t[i] <= t[j],
    ensures
        t == ascending(s),
{
    let leq = |a: u8, b: u8| a <= b;
    assert(total_ordering(leq));
    s.lemma_sort_by_ensures(leq);
    assert(sorted_by(t, leq));
    lemma_sorted_unique(t, ascending(s), leq);
}

/// Putting a selection in increasing order gives a combination.
pub proof fn lemma_ascending_combination(s: Seq<u8>, n: nat, k: nat)
    requires
        is_selection(s, n, k),
    ensures
        is_combination(ascending(s), n, k),
{
    let leq = |a: u8, b: u8| a <= b;
    let t = ascending(s);
    assert(total_ordering(leq));
    s.lemma_sort_by_ensures(leq);
    s.to_multiset_ensures();
    t.to_multiset_ensures();
    s.lemma_multiset_has_no_duplicates();
    t.lemma_multiset_has_no_duplicates_conv();
    assert forall|i: int| 0 <= i < t.len() implies 1 <= #[trigger] t[i] <= n by {
        assert(t.contains(t[i]));
        assert(s.contains(t[i]));
        let j = choose|j: int| 0 <= j < s.len() && s[j] == t[i];
        assert(1 <= s[j] <= n);
    }
    assert forall|i: int, j: int| 0 <= i < j < t.len() implies t[i] < t[j] by {
        assert(leq(t[i], t[j]));
    }
}

/// Round trip: a combination that has the rank `rank`, as the one that
/// unranking `rank` gives, is a selection whose increasing order is itself, so
/// ranking it gives `rank` back.
pub proof fn lemma_round_trip(c: Seq<u8>, n: nat, k: nat, rank: nat)
    requires
        is_combination(c, n, k),
        lex_rank(c, n) == rank,
    ensures
        is_selection(c, n, k),
        ascending(c) == c,
        lex_rank(ascending(c), n) == rank,
        1 <= rank <= binomial(n, k),
{
    assert(c.no_duplicates()) by {
        assert forall|i: int, j: int| 0 <= i < c.len() && 0 <= j < c.len() && i != j implies c[i]
            != c[j] by {
            if i < j {
                assert(c[i] < c[j]);
            } else {
                assert(c[j] < c[i]);
            }
        }
    }
    assert forall|i: int, j: int| 0 <= i < j < c.len() implies c[i] <= c[j] by {
        assert(c[i] < c[j]);
    }
    lemma_ascending_unique(c, c);
    lemma_rank_in_range(c, n, k);
}

} // verus!
