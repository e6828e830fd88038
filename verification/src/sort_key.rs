//! Fee-rate sort keys for transaction-pool entries.
//!
//! A key carries a transaction's own fee and weight and the aggregated fee
//! and weight of its ancestor bundle. The effective pair is whichever of the
//! two has the lower fee rate, so a cheap ancestor bundle dominates
//! scheduling; keys order by effective fee rate ascending, with ties broken
//! by ancestor weight and ancestor fee.

use vstd::prelude::*;

verus! {

/// Sort key: own fee and weight, and the ancestor bundle's fee and weight.
#[derive(Clone, Copy, Debug, PartialEq, Eq, Structural)]
pub struct AncestorsScoreSortKey {
    pub fee: u64,
    pub weight: u64,
    pub ancestors_fee: u64,
    pub ancestors_weight: u64,
}

/// The product of two 64-bit values fits in 128 bits.
proof fn lemma_u64_mul_fits(a: u64, b: u64)
    ensures
        (a as int) * (b as int) <= u128::MAX,
{
    assert((a as int) * (b as int) <= (u64::MAX as int) * (u64::MAX as int)) by (nonlinear_arith)
        requires
            a <= u64::MAX && b <= u64::MAX,
    ;
}

impl AncestorsScoreSortKey {
    /// The effective (fee, weight) pair: the transaction's own pair when its
    /// fee rate is strictly lower than the ancestor bundle's, else the
    /// bundle's pair. Rates compare by cross-multiplication, so a zero
    /// weight never divides.
    pub open spec fn min_fee_and_weight_spec(self) -> (u64, u64) {
        if (self.fee as int) * (self.ancestors_weight as int) < (self.ancestors_fee as int) * (
        self.weight as int) {
            (self.fee, self.weight)
        } else {
            (self.ancestors_fee, self.ancestors_weight)
        }
    }

    /// Compare the key's own fee rate with its ancestors' and return the
    /// lower pair.
    pub fn min_fee_and_weight(&self) -> (r: (u64, u64))
        ensures
            r == self.min_fee_and_weight_spec(),
    {
        proof {
            lemma_u64_mul_fits(self.fee, self.ancestors_weight);
            lemma_u64_mul_fits(self.ancestors_fee, self.weight);
        }
        let tx_weight = (self.fee as u128) * (self.ancestors_weight as u128);
        let ancestors_weight = (self.ancestors_fee as u128) * (self.weight as u128);
        if tx_weight < ancestors_weight {
            (self.fee, self.weight)
        } else {
            (self.ancestors_fee, self.ancestors_weight)
        }
    }
}

/// Strict order on keys: lower effective fee rate first (by
/// cross-multiplication), then lower ancestor weight, then lower ancestor
/// fee.
pub open spec fn key_lt(a: AncestorsScoreSortKey, b: AncestorsScoreSortKey) -> bool {
    let fa = a.min_fee_and_weight_spec().0;
    let wa = a.min_fee_and_weight_spec().1;
    let fb = b.min_fee_and_weight_spec().0;
    let wb = b.min_fee_and_weight_spec().1;
    if (fa as int) * (wb as int) != (fb as int) * (wa as int) {
        (fa as int) * (wb as int) < (fb as int) * (wa as int)
    } else if a.ancestors_weight != b.ancestors_weight {
        a.ancestors_weight < b.ancestors_weight
    } else {
        a.ancestors_fee < b.ancestors_fee
    }
}

/// Non-strict order: `a` does not come strictly after `b`.
pub open spec fn key_le(a: AncestorsScoreSortKey, b: AncestorsScoreSortKey) -> bool {
    !key_lt(b, a)
}

/// Sort-key order law: if `a`'s effective pair cross-multiplies strictly
/// lower against `b`'s, then `a` compares strictly less than `b`.
pub proof fn lemma_sort_key_order(a: AncestorsScoreSortKey, b: AncestorsScoreSortKey)
    requires
        (a.min_fee_and_weight_spec().0 as int) * (b.min_fee_and_weight_spec().1 as int) < (
        b.min_fee_and_weight_spec().0 as int) * (a.min_fee_and_weight_spec().1 as int),
    ensures
        key_lt(a, b),
{
}

/// The strict order is asymmetric.
pub proof fn lemma_key_lt_asym(a: AncestorsScoreSortKey, b: AncestorsScoreSortKey)
    requires
        key_lt(a, b),
    ensures
        !key_lt(b, a),
{
}

/// The order is total: any two keys compare one way or the other.
pub proof fn lemma_key_le_total(a: AncestorsScoreSortKey, b: AncestorsScoreSortKey)
    ensures
        key_le(a, b) || key_le(b, a),
{
}

/// Whether every adjacent pair of `s` is in order.
pub open spec fn sorted_by_key(s: Seq<AncestorsScoreSortKey>) -> bool {
    forall|i: int| 0 <= i < s.len() - 1 ==> key_le(#[trigger] s[i], s[i + 1])
}

/// Compare two keys.
pub fn key_lt_exec(a: &AncestorsScoreSortKey, b: &AncestorsScoreSortKey) -> (r: bool)
    ensures
        r == key_lt(*a, *b),
{
    let (fa, wa) = a.min_fee_and_weight();
    let (fb, wb) = b.min_fee_and_weight();
    proof {
        lemma_u64_mul_fits(fa, wb);
        lemma_u64_mul_fits(fb, wa);
    }
    let left = (fa as u128) * (wb as u128);
    let right = (fb as u128) * (wa as u128);
    if left != right {
        left < right
    } else if a.ancestors_weight != b.ancestors_weight {
        a.ancestors_weight < b.ancestors_weight
    } else {
        a.ancestors_fee < b.ancestors_fee
    }
}

/// Inserting anywhere adds one occurrence to the multiset.
proof fn lemma_to_multiset_insert(s: Seq<AncestorsScoreSortKey>, p: int, x: AncestorsScoreSortKey)
    requires
        0 <= p <= s.len(),
    ensures
        s.insert(p, x).to_multiset() =~= s.to_multiset().insert(x),
{
    broadcast use vstd::seq_lib::group_to_multiset_ensures;

    let t = s.insert(p, x);
    assert(t.len() == s.len() + 1);
    assert(t[p] == x);
    assert(t.remove(p) =~= s);
    assert(s.to_multiset() =~= t.to_multiset().remove(x));
    assert(t.contains(x));
    assert(t.to_multiset().count(x) > 0);
    assert forall|e: AncestorsScoreSortKey|
        t.to_multiset().count(e) == #[trigger] s.to_multiset().insert(x).count(e) by {
        if e == x {
            assert(s.to_multiset().count(x) == t.to_multiset().count(x) - 1);
        } else {
            assert(s.to_multiset().count(e) == t.to_multiset().count(e));
        }
    }
}

/// Stable sort of the keys, ascending: the result holds the same keys and
/// every adjacent pair is in order.
pub fn sort_keys(keys: &Vec<AncestorsScoreSortKey>) -> (r: Vec<AncestorsScoreSortKey>)
    ensures
        r@.len() == keys@.len(),
        r@.to_multiset() == keys@.to_multiset(),
        sorted_by_key(r@),
{
    let mut out: Vec<AncestorsScoreSortKey> = Vec::new();
    let mut i: usize = 0;
    proof {
        broadcast use vstd::seq_lib::group_to_multiset_ensures;

        assert(out@.to_multiset() =~= keys@.subrange(0, 0).to_multiset()) by {
            assert(keys@.subrange(0, 0) =~= Seq::<AncestorsScoreSortKey>::empty());
            assert(out@ =~= Seq::<AncestorsScoreSortKey>::empty());
        }
    }
    while i < keys.len()
        invariant
            0 <= i <= keys@.len(),
            out@.len() == i,
            sorted_by_key(out@),
            out@.to_multiset() == keys@.subrange(0, i as int).to_multiset(),
        decreases keys@.len() - i,
    {
        let x = keys[i];
        let mut p = out.len();
        while p > 0 && key_lt_exec(&x, &out[p - 1])
            invariant
                0 <= p <= out@.len(),
                p < out@.len() ==> key_lt(x, out@[p as int]),
            decreases p,
        {
            p -= 1;
        }
        let ghost opre = out@;
        out.insert(p, x);
        proof {
            broadcast use vstd::seq_lib::group_to_multiset_ensures;

            assert(out@ == opre.insert(p as int, x));
            lemma_to_multiset_insert(opre, p as int, x);
            assert(keys@.subrange(0, i + 1) =~= keys@.subrange(0, i as int).push(keys@[i as int]));
            assert(keys@.subrange(0, i + 1).to_multiset() =~= keys@.subrange(
                0,
                i as int,
            ).to_multiset().insert(x));
            assert forall|j: int| 0 <= j < out@.len() - 1 implies key_le(
                #[trigger] out@[j],
                out@[j + 1],
            ) by {
                if j + 1 < p {
                    assert(out@[j] == opre[j] && out@[j + 1] == opre[j + 1]);
                } else if j + 1 == p {
                    assert(out@[j] == opre[j] && out@[j + 1] == x);
                    assert(!key_lt(x, opre[j]));
                } else if j == p {
                    assert(out@[j] == x && out@[j + 1] == opre[j]);
                    assert(key_lt(x, opre[p as int]));
                    lemma_key_lt_asym(x, opre[p as int]);
                } else {
                    assert(out@[j] == opre[j - 1] && out@[j + 1] == opre[j]);
                }
            }
        }
        i += 1;
    }
    proof {
        assert(keys@.subrange(0, i as int) =~= keys@);
    }
    out
}

} // verus!
