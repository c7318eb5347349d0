//! The combinatorial indexer: exact binomial coefficients with a cache, and
//! conversion between a combination and its lexicographic rank.

use crate::alg::bignum;
use crate::alg::bignum::{digits, digits_value, normal, value};
use crate::alg::binomial;
use crate::alg::binomial::{
    binomial, lemma_binomial_above, lemma_binomial_full, lemma_binomial_positive,
    lemma_binomial_shrinks, lemma_factorial_quotient, lemma_pascal,
};
use crate::alg::ranking::{
    ascending, before, is_combination, is_selection, lemma_ascending_combination,
    lemma_ascending_unique, lemma_position_floor, lemma_preceding_prefix, lemma_rank_in_range,
    lemma_skipped_closed, lex_rank, preceding, skipped,
};
use num_bigint::BigUint;
use vstd::arithmetic::mul::lemma_mul_is_commutative;
use vstd::prelude::*;
use vstd::seq_lib::to_multiset_update;

verus! {

/// Number of cache slots: one for every pair of bytes.
pub const CACHE_SIZE: usize = 65536;

/// The cache slot of the pair `(n, k)`.
pub open spec fn key_of(n: u8, k: u8) -> int {
    n as int * 256 + k as int
}

/// Exact factorials of small numbers.
pub trait CombinatoricsOps {
    fn factorial(&self) -> BigUint;
}

impl CombinatoricsOps for u8 {
    /// `self!` as a big integer.
    fn factorial(&self) -> (r: BigUint)
        ensures
            value(r) == binomial::factorial(*self as nat),
            normal(digits(r)),
    {
        let n: u8 = *self;
        let mut result = bignum::one();
        proof {
            assert(digits_value(digits(result).drop_first()) == 0);
            assert(value(result) == 1);
        }
        if n == 0 {
            return result;
        }
        let mut idx: u8 = 0;
        while idx < n
            invariant
                idx <= n,
                value(result) == binomial::factorial(idx as nat),
                normal(digits(result)),
            decreases n - idx,
        {
            idx = idx + 1;
            let ghost before = value(result);
            bignum::multiply_by_u8(&mut result, idx);
            proof {
                lemma_mul_is_commutative(before as int, idx as int);
            }
        }
        result
    }
}

/// Rearranges the positions into non-decreasing order, by insertion.
fn sort_ascending(v: &mut Vec<u8>)
    ensures
        final(v)@.to_multiset() == old(v)@.to_multiset(),
        forall|i: int, j: int| 0 <= i < j < final(v)@.len() ==> final(v)@[i] <= final(v)@[j],
{
    broadcast use vstd::multiset::group_multiset_axioms;

    let n = v.len();
    let mut i: usize = 1;
    while i < n
        invariant
            v@.len() == n,
            1 <= i,
            v@.to_multiset() == old(v)@.to_multiset(),
            forall|a: int, b: int| 0 <= a < b < i && b < n ==> v@[a] <= v@[b],
        decreases n - i,
    {
        // sink the element at `i` to its place among the ones before it
        let mut j: usize = i;
        while j > 0 && v[j - 1] > v[j]
            invariant
                v@.len() == n,
                j <= i < n,
                v@.to_multiset() == old(v)@.to_multiset(),
                forall|a: int, b: int| 0 <= a < b <= i && a != j && b != j ==> v@[a] <= v@[b],
                forall|b: int| j < b <= i ==> v@[j as int] <= v@[b],
            decreases j,
        {
            let ghost before_swap = v@;
            let smaller = v[j];
            let larger = v[j - 1];
            v.set(j - 1, smaller);
            v.set(j, larger);
            proof {
                let half = before_swap.update(j - 1, smaller);
                let all = before_swap.to_multiset();
                assert(v@ == half.update(j as int, larger));
                assert(half[j as int] == smaller);
                before_swap.to_multiset_ensures();
                assert(before_swap.contains(larger));
                to_multiset_update(before_swap, j - 1, smaller);
                to_multiset_update(half, j as int, larger);
                assert(half.to_multiset() == all.insert(smaller).remove(larger));
                assert(v@.to_multiset() == all.insert(smaller).remove(larger).insert(
                    larger,
                ).remove(smaller));
                assert(v@.to_multiset() =~= all);
            }
            j = j - 1;
        }
        i = i + 1;
    }
}

/// Memoising calculator of binomial coefficients.
pub struct Combinations {
    cache: Vec<u64>,
}

impl View for Combinations {
    type V = Map<(u8, u8), u64>;

    /// The cached coefficients: a pair is present once its slot is non-zero.
    closed spec fn view(&self) -> Map<(u8, u8), u64> {
        Map::new(
            |p: (u8, u8)|
                0 <= key_of(p.0, p.1) < self.cache@.len() && self.cache@[key_of(p.0, p.1)] != 0,
            |p: (u8, u8)| self.cache@[key_of(p.0, p.1)],
        )
    }
}

impl Combinations {
    /// Every slot exists, and every cached value is the coefficient of its
    /// pair.
    pub closed spec fn wf(&self) -> bool {
        &&& self.cache@.len() == CACHE_SIZE
        &&& forall|n: u8, k: u8|
            self.cache@[#[trigger] key_of(n, k)] != 0 ==> self.cache@[key_of(n, k)] == binomial(
                n as nat,
                k as nat,
            )
    }

    /// Cached values are never zero and always correct.
    pub proof fn lemma_cache_sound(&self, n: u8, k: u8)
        requires
            self.wf(),
            self@.contains_key((n, k)),
        ensures
            self@[(n, k)] == binomial(n as nat, k as nat),
            self@[(n, k)] != 0,
    {
    }

    /// An indexer with nothing cached.
    pub fn new() -> (r: Self)
        ensures
            r.wf(),
            r@ == Map::<(u8, u8), u64>::empty(),
    {
        let r = Self { cache: vec![0u64; CACHE_SIZE] };
        assert(r@ =~= Map::<(u8, u8), u64>::empty());
        r
    }

    /// The cache slot of `(n, k)`: `n` in the high byte, `k` in the low byte.
    pub fn key(n: u8, k: u8) -> (r: usize)
        ensures
            r == key_of(n, k),
            r < CACHE_SIZE,
    {
        let n16: u16 = n as u16;
        let k16: u16 = k as u16;
        let key: u16 = (n16 << 8) | k16;
        assert(key == n16 * 256 + k16) by (bit_vector)
            requires
                n16 < 256,
                k16 < 256,
                key == (n16 << 8) | k16,
        ;
        key as usize
    }

    /// The cached coefficient of `(n, k)`, if there is one.
    pub fn lookup(&self, n: u8, k: u8) -> (r: Option<u64>)
        requires
            self.wf(),
            n != 0,
        ensures
            r == if self@.contains_key((n, k)) {
                Some(self@[(n, k)])
            } else {
                None
            },
            r matches Some(c) ==> c == binomial(n as nat, k as nat),
    {
        let key = Self::key(n, k);
        if self.cache[key] == 0 {
            None
        } else {
            Some(self.cache[key])
        }
    }

    /// `C(n, k)` as a big integer, by cancelling factorials.
    fn exact(n: u8, k: u8) -> (r: BigUint)
        requires
            k <= n,
        ensures
            value(r) == binomial(n as nat, k as nat),
            normal(digits(r)),
    {
        let numerator = n.factorial();
        let denominator = bignum::multiply(k.factorial(), (n - k).factorial());
        proof {
            lemma_factorial_quotient(n as nat, k as nat);
        }
        bignum::divide(numerator, denominator)
    }

    /// Records `combs` as the coefficient of `(n, k)`.
    fn store(&mut self, n: u8, k: u8, combs: u64)
        requires
            old(self).wf(),
            combs == binomial(n as nat, k as nat),
            combs != 0,
        ensures
            final(self).wf(),
            final(self)@ == old(self)@.insert((n, k), combs),
    {
        let key = Self::key(n, k);
        self.cache.set(key, combs);
        proof {
            assert forall|n2: u8, k2: u8|
                self.cache@[#[trigger] key_of(n2, k2)] != 0 implies self.cache@[key_of(n2, k2)]
                == binomial(n2 as nat, k2 as nat) by {
                if key_of(n2, k2) == key_of(n, k) {
                    assert(n2 == n && k2 == k);
                }
            }
            assert(self@ =~= old(self)@.insert((n, k), combs)) by {
                assert forall|p: (u8, u8)| self@.contains_key(p) <==> old(self)@.insert(
                    (n, k),
                    combs,
                ).contains_key(p) by {
                    if key_of(p.0, p.1) == key_of(n, k) {
                        assert(p.0 == n && p.1 == k);
                    }
                }
            }
        }
    }

    /// The number of ways to choose `k` out of `n`.
    ///
    /// The count is computed exactly and must fit 64 bits. Counts of pairs
    /// with `k < n` are cached.
    pub fn combinations(&mut self, n: u8, k: u8) -> (combs: u64)
        requires
            old(self).wf(),
            binomial(n as nat, k as nat) <= u64::MAX,
        ensures
            final(self).wf(),
            combs == binomial(n as nat, k as nat),
            n == k ==> combs == 1,
            n < k ==> combs == 0,
            final(self)@ == if k < n {
                old(self)@.insert((n, k), combs)
            } else {
                old(self)@
            },
    {
        proof {
            lemma_binomial_full(n as nat);
            if n < k {
                lemma_binomial_above(n as nat, k as nat);
            }
        }
        if n == k {
            return 1;
        }
        if n < k {
            return 0;
        }
        if let Some(cached) = self.lookup(n, k) {
            assert(self@ =~= self@.insert((n, k), cached));
            return cached;
        }
        let combs = Self::exact(n, k);
        let digits = bignum::to_u64_digits(&combs);
        proof {
            lemma_binomial_positive(n as nat, k as nat);
            bignum::lemma_single_digit(digits@);
        }
        assert(digits.len() == 1);
        let combs = digits[0];
        self.store(n, k, combs);
        combs
    }

    /// The number of ways to choose `k` out of `n`, or `None` where that
    /// number does not fit 64 bits.
    pub fn checked_combinations(&mut self, n: u8, k: u8) -> (r: Option<u64>)
        requires
            old(self).wf(),
        ensures
            final(self).wf(),
            binomial(n as nat, k as nat) <= u64::MAX ==> r == Some(
                binomial(n as nat, k as nat) as u64,
            ),
            binomial(n as nat, k as nat) > u64::MAX ==> r.is_none(),
            final(self)@ == if k < n && r.is_some() {
                old(self)@.insert((n, k), r.unwrap())
            } else {
                old(self)@
            },
    {
        proof {
            lemma_binomial_full(n as nat);
            if n < k {
                lemma_binomial_above(n as nat, k as nat);
            }
        }
        if n == k {
            return Some(1);
        }
        if n < k {
            return Some(0);
        }
        if let Some(cached) = self.lookup(n, k) {
            assert(self@ =~= self@.insert((n, k), cached));
            return Some(cached);
        }
        let combs = Self::exact(n, k);
        let digits = bignum::to_u64_digits(&combs);
        proof {
            lemma_binomial_positive(n as nat, k as nat);
            bignum::lemma_single_digit(digits@);
        }
        if digits.len() != 1 {
            return None;
        }
        let combs = digits[0];
        self.store(n, k, combs);
        Some(combs)
    }

    /// The combination of `draw_sz` out of `pool_sz` positions that has the
    /// lexicographic rank `rank`, as its positions in increasing order.
    ///
    /// Ranks start at 1. The result is empty where no combination has the
    /// rank: for rank 0, and for a rank above the number of combinations. An
    /// empty result for a rank other than that of the empty combination
    /// signals a rank out of range.
    pub fn unrank(&mut self, rank: u64, pool_sz: u8, draw_sz: u8) -> (c: Vec<u8>)
        requires
            old(self).wf(),
            binomial(pool_sz as nat, draw_sz as nat) <= u64::MAX,
        ensures
            final(self).wf(),
            old(self)@.submap_of(final(self)@),
            1 <= rank <= binomial(pool_sz as nat, draw_sz as nat) ==> {
                &&& is_combination(c@, pool_sz as nat, draw_sz as nat)
                &&& lex_rank(c@, pool_sz as nat) == rank
            },
            !(1 <= rank <= binomial(pool_sz as nat, draw_sz as nat)) ==> c@ == Seq::<u8>::empty(),
    {
        let ghost n = pool_sz as nat;
        let ghost k = draw_sz as nat;
        let ghost total = binomial(n, k);
        let mut c: Vec<u8> = Vec::new();
        if rank == 0 {
            return c;
        }
        let mut r = rank;
        let mut j: u8 = 0;
        let mut s: u8 = 0;
        while s < draw_sz
            invariant
                self.wf(),
                old(self)@.submap_of(self@),
                n == pool_sz,
                k == draw_sz,
                total == binomial(n, k),
                total <= u64::MAX,
                s <= draw_sz,
                c@.len() == s,
                j == before(c@, s as int),
                s <= j <= pool_sz,
                forall|i: int| 0 <= i < c@.len() ==> 1 <= #[trigger] c@[i] <= n,
                forall|i: int, i2: int| 0 <= i < i2 < c@.len() ==> c@[i] < c@[i2],
                r + preceding(c@, n, k, s as nat) == rank,
                r >= 1,
                rank <= total ==> r <= binomial((n - j) as nat, (k - s) as nat),
                rank > total ==> s == 0,
            decreases draw_sz - s,
        {
            // the next position would lie beyond the pool
            if pool_sz <= j {
                proof {
                    if rank <= total {
                        lemma_binomial_above(0, (k - s) as nat);
                    }
                }
                return Vec::new();
            }
            let ghost idx = s as nat;
            let ghost r0 = r;
            let ghost c0 = c@;
            let mut cs: u8 = j + 1;
            s = s + 1;
            let ghost m = (k - s) as nat;
            loop
                invariant
                    self.wf(),
                    old(self)@.submap_of(self@),
                    n == pool_sz,
                    k == draw_sz,
                    total == binomial(n, k),
                    total <= u64::MAX,
                    1 <= s <= draw_sz,
                    m == k - s,
                    s - 1 <= j < cs <= pool_sz,
                    r + skipped(n, m, j as nat + 1, cs as nat) == r0,
                    r >= 1,
                    rank <= total ==> r <= binomial((n + 1 - cs) as nat, m + 1),
                    rank > total ==> r > binomial((n + 1 - cs) as nat, m + 1),
                ensures
                    self.wf(),
                    old(self)@.submap_of(self@),
                    j < cs <= pool_sz,
                    r + skipped(n, m, j as nat + 1, cs as nat) == r0,
                    r >= 1,
                    rank <= total,
                    r <= binomial((n - cs) as nat, m),
                decreases pool_sz - cs,
            {
                proof {
                    lemma_binomial_shrinks(n, k, cs as nat, s as nat);
                    lemma_pascal((n + 1 - cs) as nat, m + 1);
                }
                let ghost cache = self@;
                // how many combinations continue with `cs` at this place
                let block = self.combinations(pool_sz - cs, draw_sz - s);
                proof {
                    if cache.contains_key((((pool_sz - cs) as u8), ((draw_sz - s) as u8))) {
                        assert(self@ =~= cache);
                    }
                }
                if r <= block {
                    break ;
                }
                r = r - block;
                if cs == pool_sz {
                    proof {
                        lemma_binomial_above(0, m + 1);
                    }
                    return Vec::new();
                }
                cs = cs + 1;
            }
            c.push(cs);
            proof {
                assert(c@.subrange(0, idx as int) == c0.subrange(0, idx as int));
                lemma_preceding_prefix(c@, c0, n, k, idx);
                assert(before(c@, idx as int) == j) by {
                    if idx > 0 {
                        assert(c@[idx - 1] == c0[idx - 1]);
                    }
                }
                assert(c@[idx as int] == cs);
                assert(preceding(c@, n, k, s as nat) == preceding(c@, n, k, idx) + skipped(
                    n,
                    (k - 1 - idx) as nat,
                    before(c@, idx as int) + 1,
                    c@[idx as int] as nat,
                ));
            }
            j = cs;
        }
        proof {
            if rank <= total {
                assert(binomial((n - j) as nat, 0) == 1);
            } else {
                assert(c@ =~= Seq::<u8>::empty());
            }
        }
        c
    }

    /// The lexicographic rank of the combination whose positions
    /// `combination` lists in any order. The smallest rank is 1.
    pub fn rank(&mut self, combination: &Vec<u8>, pool_sz: u8, draw_sz: u8) -> (result: u64)
        requires
            old(self).wf(),
            binomial(pool_sz as nat, draw_sz as nat) <= u64::MAX,
            is_selection(combination@, pool_sz as nat, draw_sz as nat),
        ensures
            final(self).wf(),
            old(self)@.submap_of(final(self)@),
            is_combination(ascending(combination@), pool_sz as nat, draw_sz as nat),
            result == lex_rank(ascending(combination@), pool_sz as nat),
            1 <= result <= binomial(pool_sz as nat, draw_sz as nat),
    {
        let ghost n = pool_sz as nat;
        let ghost total = binomial(pool_sz as nat, draw_sz as nat);
        let ghost t = ascending(combination@);
        let k: u8 = draw_sz;
        let mut result = self.combinations(pool_sz, draw_sz);
        let mut sorted = combination.clone();
        assert(sorted@ =~= combination@);
        sort_ascending(&mut sorted);
        proof {
            lemma_ascending_unique(combination@, sorted@);
            lemma_ascending_combination(combination@, n, k as nat);
            lemma_rank_in_range(t, n, k as nat);
        }
        let mut i: usize = 0;
        while i < sorted.len()
            invariant
                self.wf(),
                old(self)@.submap_of(self@),
                n == pool_sz,
                k == draw_sz,
                total == binomial(n, k as nat),
                total <= u64::MAX,
                sorted@ == t,
                is_combination(t, n, k as nat),
                i <= k,
                result == preceding(t, n, k as nat, i as nat) + binomial(
                    (n - before(t, i as int)) as nat,
                    (k - i) as nat,
                ),
            decreases sorted.len() - i,
        {
            proof {
                lemma_position_floor(t, n, k as nat, i as int);
                lemma_binomial_shrinks(n, k as nat, t[i as int] as nat, i as nat);
                assert(before(t, i as int) < t[i as int]) by {
                    if i > 0 {
                        assert(t[i - 1] < t[i as int]);
                    }
                }
                lemma_skipped_closed(
                    n,
                    (k - 1 - i) as nat,
                    before(t, i as int),
                    t[i as int] as nat,
                );
            }
            let ghost cache = self@;
            let position = sorted[i];
            let block = self.combinations(pool_sz - position, k - (i as u8));
            proof {
                if cache.contains_key((((pool_sz - position) as u8), ((k - (i as u8)) as u8))) {
                    assert(self@ =~= cache);
                }
            }
            result = result - block;
            i = i + 1;
        }
        result
    }
}

} // verus!
