//! Proportional splitting of a payment among basis-point weights.

use vstd::prelude::*;

verus! {

/// `x / d` rounded toward zero, as Rust's integer division does.
pub open spec fn trunc_div(x: int, d: int) -> int {
    if x >= 0 {
        x / d
    } else {
        -((-x) / d)
    }
}

/// The part of `amount` owed to a holder of `weight` out of `total`:
/// `amount * weight / total`, truncated toward zero.
pub open spec fn share_of(amount: int, weight: int, total: int) -> int {
    trunc_div(amount * weight, total)
}

/// One payment out of a split: `amount` goes to the stake at `index`.
#[derive(Clone, Copy, Debug, PartialEq, Eq)]
pub struct Payout {
    pub index: u32,
    pub amount: i128,
}

/// The sum of a list of weights.
pub open spec fn weight_sum(w: Seq<u32>) -> int
    decreases w.len(),
{
    if w.len() == 0 {
        0
    } else {
        weight_sum(w.drop_last()) + w.last()
    }
}

/// The sum of the amounts of a list of payouts.
pub open spec fn payout_total(p: Seq<Payout>) -> int
    decreases p.len(),
{
    if p.len() == 0 {
        0
    } else {
        payout_total(p.drop_last()) + p.last().amount
    }
}

/// One payout per weight, in order, of that weight's share of `amount` out of
/// `total`; a share that is not positive is left out.
pub open spec fn proportional_payouts(amount: int, w: Seq<u32>, total: int) -> Seq<Payout>
    decreases w.len(),
{
    if w.len() == 0 {
        Seq::empty()
    } else {
        let prev = proportional_payouts(amount, w.drop_last(), total);
        let sh = share_of(amount, w.last() as int, total);
        if sh > 0 {
            prev.push(Payout { index: (w.len() - 1) as u32, amount: sh as i128 })
        } else {
            prev
        }
    }
}

/// The whole split of `amount` among weights `w`: the proportional payouts,
/// then whatever rounding left over, if positive, to the stake at index 0.
pub open spec fn payout_plan(amount: int, w: Seq<u32>) -> Seq<Payout> {
    let p = proportional_payouts(amount, w, weight_sum(w));
    let left = amount - payout_total(p);
    if left > 0 {
        p.push(Payout { index: 0, amount: left as i128 })
    } else {
        p
    }
}

/// Splits off the share of `total` that `shares` out of `total_shares` earn,
/// rounding toward zero. The product is never formed, so no amount overflows.
pub fn split_amount(total: i128, shares: u32, total_shares: u32) -> (r: i128)
    requires
        0 < total_shares,
        shares <= total_shares,
    ensures
        r == share_of(total as int, shares as int, total_shares as int),
{
    let t = total_shares as i128;
    let s = shares as i128;
    let q: i128 = total / t;
    proof {
        assert(total >= 0 ==> q == (total as int) / (t as int));
        assert(total < 0 ==> q == -((-(total as int)) / (t as int)));
        lemma_trunc_div_bounds(total as int, t as int);
        lemma_mul_bound(q as int, s as int, total as int, t as int);
        assert(i128::MIN <= q * t <= i128::MAX);
    }
    let qs: i128 = q * s;
    let rem: i128 = total - q * t;
    proof {
        lemma_small_mul(rem as int, s as int, t as int);
    }
    let rs: i128 = rem * s;
    let part: i128 = rs / t;
    proof {
        assert(rs >= 0 ==> part == (rs as int) / (t as int));
        assert(rs < 0 ==> part == -((-(rs as int)) / (t as int)));
        lemma_split_parts(total as int, s as int, t as int, q as int, rem as int);
        lemma_share_bounds(total as int, s as int, t as int);
    }
    qs + part
}

/// Sums the weights, or `None` where the sum does not fit in a `u32`.
pub fn total_shares(weights: &Vec<u32>) -> (r: Option<u32>)
    ensures
        weight_sum(weights@) <= u32::MAX ==> (r matches Some(t) && t == weight_sum(weights@)),
        weight_sum(weights@) > u32::MAX ==> r is None,
{
    let mut total: u32 = 0;
    let mut i: usize = 0;
    while i < weights.len()
        invariant
            0 <= i <= weights@.len(),
            total as int == weight_sum(weights@.subrange(0, i as int)),
        decreases weights@.len() - i,
    {
        proof {
            assert(weights@.subrange(0, i + 1).drop_last() =~= weights@.subrange(0, i as int));
        }
        match total.checked_add(weights[i]) {
            Some(t) => {
                total = t;
            },
            None => {
                proof {
                    lemma_weight_sum_prefix(weights@, i + 1);
                }
                return None;
            },
        }
        i = i + 1;
    }
    proof {
        assert(weights@.subrange(0, i as int) =~= weights@);
    }
    Some(total)
}

/// Splits `amount` among `weights`: each positive share
/// `amount * weight / total`, rounded toward zero, in index order, and then
/// the remainder, if positive, to index 0. For a non-negative amount the
/// payouts add up to the amount exactly.
pub fn plan_payout(amount: i128, weights: &Vec<u32>) -> (r: Vec<Payout>)
    requires
        weights@.len() >= 1,
        weights@.len() <= u32::MAX,
        0 < weight_sum(weights@) <= u32::MAX,
    ensures
        r@ == payout_plan(amount as int, weights@),
{
    let ghost w = weights@;
    let total = match total_shares(weights) {
        Some(t) => t,
        // the weights fit in a `u32` by the precondition
        None => {
            return Vec::new();
        },
    };
    let mut out: Vec<Payout> = Vec::new();
    let mut leftover: i128 = amount;
    let mut i: usize = 0;
    while i < weights.len()
        invariant
            w == weights@,
            0 <= i <= w.len(),
            w.len() <= u32::MAX,
            total as int == weight_sum(w),
            0 < total,
            out@ == proportional_payouts(amount as int, w.subrange(0, i as int), total as int),
            leftover as int == amount - payout_total(out@),
            amount >= 0 ==> 0 <= leftover <= amount,
            amount < 0 ==> leftover == amount,
        decreases w.len() - i,
    {
        proof {
            assert(w.subrange(0, i + 1).drop_last() =~= w.subrange(0, i as int));
            lemma_weight_sum_prefix(w, i + 1);
            lemma_proportional_bound(amount as int, w.subrange(0, i + 1), total as int);
        }
        let s = weights[i];
        let sh = split_amount(amount, s, total);
        if sh > 0 {
            let ghost before = out@;
            out.push(Payout { index: i as u32, amount: sh });
            proof {
                assert(out@.drop_last() =~= before);
            }
            leftover = leftover - sh;
        }
        i = i + 1;
    }
    proof {
        assert(w.subrange(0, i as int) =~= w);
    }
    if leftover > 0 {
        let ghost before = out@;
        out.push(Payout { index: 0, amount: leftover });
        proof {
            assert(out@.drop_last() =~= before);
        }
    }
    out
}

/// A prefix of the weights sums to no more than all of them, and the last
/// weight of the prefix is no more than the whole sum.
proof fn lemma_weight_sum_prefix(w: Seq<u32>, i: int)
    requires
        0 < i <= w.len(),
    ensures
        weight_sum(w.subrange(0, i)) <= weight_sum(w),
        w[i - 1] <= weight_sum(w.subrange(0, i)),
        weight_sum(w.subrange(0, i)) == weight_sum(w.subrange(0, i - 1)) + w[i - 1],
    decreases w.len(),
{
    assert(w.subrange(0, i).drop_last() =~= w.subrange(0, i - 1));
    lemma_weight_sum_nonneg(w.subrange(0, i - 1));
    if i < w.len() {
        lemma_weight_sum_prefix(w.drop_last(), i);
        assert(w.drop_last().subrange(0, i) =~= w.subrange(0, i));
        assert(w.drop_last().subrange(0, i - 1) =~= w.subrange(0, i - 1));
    } else {
        assert(w.subrange(0, i) =~= w);
    }
}

proof fn lemma_weight_sum_nonneg(w: Seq<u32>)
    ensures
        weight_sum(w) >= 0,
    decreases w.len(),
{
    if w.len() > 0 {
        lemma_weight_sum_nonneg(w.drop_last());
    }
}

/// The proportional payouts of a non-negative amount are non-negative and,
/// scaled by the total, no more than the amount scaled by the weights they
/// cover. A negative amount has none.
proof fn lemma_proportional_bound(amount: int, w: Seq<u32>, total: int)
    requires
        total > 0,
        weight_sum(w) <= total,
        i128::MIN <= amount <= i128::MAX,
    ensures
        amount >= 0 ==> 0 <= payout_total(proportional_payouts(amount, w, total)),
        amount >= 0 ==> payout_total(proportional_payouts(amount, w, total)) * total
            <= amount * weight_sum(w),
        amount >= 0 ==> payout_total(proportional_payouts(amount, w, total)) <= amount,
        amount < 0 ==> proportional_payouts(amount, w, total).len() == 0,
    decreases w.len(),
{
    if w.len() > 0 {
        let v = w.drop_last();
        lemma_weight_sum_nonneg(v);
        lemma_proportional_bound(amount, v, total);
        let prev = proportional_payouts(amount, v, total);
        let s = w.last() as int;
        lemma_share_bounds(amount, s, total);
        let sh = share_of(amount, s, total);
        if sh > 0 {
            let p = prev.push(Payout { index: (w.len() - 1) as u32, amount: sh as i128 });
            assert(p.drop_last() =~= prev);
            assert(sh <= amount);
            assert((sh as i128) as int == sh);
            assert(payout_total(p) == payout_total(prev) + sh);
        }
        if amount >= 0 {
            let pt = payout_total(proportional_payouts(amount, w, total));
            let pv = payout_total(prev);
            assert(pt * total <= amount * weight_sum(w)) by (nonlinear_arith)
                requires
                    pt == pv || pt == pv + sh,
                    sh >= 0,
                    pv * total <= amount * weight_sum(v),
                    sh * total <= amount * s,
                    weight_sum(w) == weight_sum(v) + s,
                    amount >= 0,
                    s >= 0,
                    total > 0,
            ;
            assert(pt <= amount) by (nonlinear_arith)
                requires
                    pt * total <= amount * weight_sum(w),
                    weight_sum(w) <= total,
                    amount >= 0,
                    total > 0,
            ;
        }
    } else {
        if amount >= 0 {
            assert(0 * total == 0);
        }
    }
}

/// Conservation: for a non-negative amount the payouts of a split add up to
/// the amount exactly; a negative amount pays nothing.
pub proof fn lemma_plan_conserves(amount: int, w: Seq<u32>)
    requires
        0 < weight_sum(w),
        i128::MIN <= amount <= i128::MAX,
    ensures
        amount >= 0 ==> payout_total(payout_plan(amount, w)) == amount,
        amount < 0 ==> payout_plan(amount, w).len() == 0,
{
    let total = weight_sum(w);
    lemma_proportional_bound(amount, w, total);
    let p = proportional_payouts(amount, w, total);
    let left = amount - payout_total(p);
    if left > 0 {
        let q = p.push(Payout { index: 0, amount: left as i128 });
        assert(q.drop_last() =~= p);
    }
    if amount < 0 {
        assert(p =~= Seq::<Payout>::empty());
    }
}

/// Every payout of the proportional pass is positive, and goes to an index
/// whose weight is positive.
proof fn lemma_proportional_targets(amount: int, w: Seq<u32>, total: int)
    requires
        total > 0,
        weight_sum(w) <= total,
        i128::MIN <= amount <= i128::MAX,
        w.len() <= u32::MAX + 1,
    ensures
        forall|k: int|
            0 <= k < proportional_payouts(amount, w, total).len() ==> {
                let p = #[trigger] proportional_payouts(amount, w, total)[k];
                &&& p.amount > 0
                &&& p.index < w.len()
                &&& w[p.index as int] > 0
            },
    decreases w.len(),
{
    if w.len() > 0 {
        let v = w.drop_last();
        lemma_weight_sum_nonneg(v);
        lemma_proportional_targets(amount, v, total);
        let s = w.last() as int;
        lemma_share_bounds(amount, s, total);
        let sh = share_of(amount, s, total);
        if sh > 0 {
            assert((sh as i128) as int == sh);
            assert(s != 0) by {
                if s == 0 {
                    assert(amount * s == 0) by (nonlinear_arith)
                        requires s == 0;
                    vstd::arithmetic::div_mod::lemma_fundamental_div_mod_converse(0, total, 0, 0);
                }
            }
        }
        let prev = proportional_payouts(amount, v, total);
        assert forall|k: int| 0 <= k < prev.len() implies w[(#[trigger] prev[k]).index as int] > 0 by {
            assert(w[prev[k].index as int] == v[prev[k].index as int]);
        }
    }
}

/// No transfer of nothing: every payout of a split is positive, and a stake
/// of weight zero receives nothing but, at index 0, the remainder.
pub proof fn lemma_plan_skips_zero_weights(amount: int, w: Seq<u32>)
    requires
        0 < weight_sum(w),
        w.len() <= u32::MAX,
        i128::MIN <= amount <= i128::MAX,
    ensures
        forall|k: int|
            0 <= k < payout_plan(amount, w).len() ==> (#[trigger] payout_plan(amount, w)[k]).amount > 0,
        forall|k: int|
            0 <= k < payout_plan(amount, w).len() ==> (#[trigger] payout_plan(amount, w)[k]).index
                < w.len(),
        forall|k: int|
            0 <= k < payout_plan(amount, w).len() && w[(#[trigger] payout_plan(amount, w)[k]).index as int] == 0
                ==> payout_plan(amount, w)[k].index == 0,
{
    let total = weight_sum(w);
    lemma_proportional_targets(amount, w, total);
    lemma_proportional_bound(amount, w, total);
    let p = proportional_payouts(amount, w, total);
    let left = amount - payout_total(p);
    if left > 0 {
        assert(amount >= 0);
        assert((left as i128) as int == left);
        assert(w.len() > 0) by {
            if w.len() == 0 {
                assert(weight_sum(w) == 0);
            }
        }
    }
}

/// A single stake of the whole weight receives the whole of a positive
/// amount, in one payout and with nothing left over.
pub proof fn lemma_single_stake_takes_all(amount: int)
    requires
        0 < amount <= i128::MAX,
    ensures
        payout_plan(amount, seq![10000u32]) == seq![Payout { index: 0, amount: amount as i128 }],
{
    let w = seq![10000u32];
    let e = Seq::<u32>::empty();
    assert(w.drop_last() =~= e);
    assert(w.len() == 1 && w.last() == 10000u32);
    assert(weight_sum(e) == 0);
    assert(weight_sum(w) == weight_sum(e) + 10000);
    assert(proportional_payouts(amount, e, 10000) == Seq::<Payout>::empty());
    let x = amount * 10000;
    vstd::arithmetic::div_mod::lemma_fundamental_div_mod_converse(x, 10000, amount, 0);
    assert(share_of(amount, 10000, 10000) == amount);
    let p = proportional_payouts(amount, w, 10000);
    assert(p =~= Seq::<Payout>::empty().push(Payout { index: 0, amount: amount as i128 }));
    assert(p =~= seq![Payout { index: 0, amount: amount as i128 }]);
    assert(p.drop_last() =~= Seq::<Payout>::empty());
    assert(payout_total(Seq::<Payout>::empty()) == 0);
    assert(p.last().amount == amount as i128);
    assert(payout_total(p) == amount);
}

/// Euclidean division facts for a positive divisor.
proof fn lemma_div_facts(x: int, d: int)
    requires
        d > 0,
    ensures
        x == (x / d) * d + x % d,
        0 <= x % d < d,
        x >= 0 ==> x / d >= 0,
{
    vstd::arithmetic::div_mod::lemma_fundamental_div_mod(x, d);
    vstd::arithmetic::div_mod::lemma_mod_bound(x, d);
    assert(d * (x / d) == (x / d) * d) by (nonlinear_arith);
    if x >= 0 {
        vstd::arithmetic::div_mod::lemma_div_pos_is_pos(x, d);
    }
}

/// The truncated quotient `q` of `a` by `t`, and the remainder `a - q * t`,
/// which has the sign of `a` and lies strictly within `t` of zero.
proof fn lemma_trunc_div_bounds(a: int, t: int)
    requires
        t > 0,
    ensures
        a >= 0 ==> 0 <= trunc_div(a, t) && trunc_div(a, t) * t <= a && a - trunc_div(a, t) * t < t,
        a < 0 ==> trunc_div(a, t) <= 0 && a <= trunc_div(a, t) * t && -t < a - trunc_div(a, t) * t,
{
    if a >= 0 {
        lemma_div_facts(a, t);
    } else {
        lemma_div_facts(-a, t);
        let q = (-a) / t;
        assert(trunc_div(a, t) * t == -(q * t)) by (nonlinear_arith)
            requires trunc_div(a, t) == -q;
    }
}

proof fn lemma_mul_bound(q: int, s: int, a: int, t: int)
    requires
        0 <= s <= t,
        a >= 0 ==> 0 <= q && q * t <= a,
        a < 0 ==> q <= 0 && a <= q * t,
        i128::MIN <= a <= i128::MAX,
    ensures
        i128::MIN <= q * s <= i128::MAX,
{
    if a >= 0 {
        assert(0 <= q * s <= q * t) by (nonlinear_arith)
            requires 0 <= q, 0 <= s, s <= t;
    } else {
        assert(q * t <= q * s <= 0) by (nonlinear_arith)
            requires q <= 0, 0 <= s, s <= t;
    }
}

proof fn lemma_small_mul(rem: int, s: int, t: int)
    requires
        -t < rem < t,
        0 <= s <= t,
        t <= u32::MAX,
    ensures
        i128::MIN <= rem * s <= i128::MAX,
{
    assert(-(t * t) <= rem * s <= t * t) by (nonlinear_arith)
        requires -t < rem < t, 0 <= s <= t;
    assert(t * t <= 0x1_0000_0000 * 0x1_0000_0000) by (nonlinear_arith)
        requires 0 <= t <= u32::MAX;
}

/// A share lies between zero and the amount, and times the total it is at
/// most the amount times the weight.
pub proof fn lemma_share_bounds(a: int, s: int, t: int)
    requires
        t > 0,
        0 <= s <= t,
    ensures
        a >= 0 ==> 0 <= share_of(a, s, t) <= a,
        a >= 0 ==> share_of(a, s, t) * t <= a * s,
        a < 0 ==> a <= share_of(a, s, t) <= 0,
{
    if a >= 0 {
        let x = a * s;
        assert(0 <= x <= a * t) by (nonlinear_arith)
            requires a >= 0, 0 <= s <= t, x == a * s;
        lemma_div_facts(x, t);
        let q = x / t;
        assert(q * t <= x);
        assert(q <= a) by (nonlinear_arith)
            requires q * t <= a * t, t > 0;
    } else {
        let x = -(a * s);
        assert(0 <= x <= -a * t) by (nonlinear_arith)
            requires a < 0, 0 <= s <= t, x == -(a * s);
        lemma_div_facts(x, t);
        let q = x / t;
        assert(q <= -a) by (nonlinear_arith)
            requires q * t <= -a * t, t > 0;
        if a * s >= 0 {
            assert(a * s == 0);
            vstd::arithmetic::div_mod::lemma_fundamental_div_mod_converse(0, t, 0, 0);
        }
    }
}

/// Splitting `a` into `q * t + rem` splits its share the same way.
proof fn lemma_split_parts(a: int, s: int, t: int, q: int, rem: int)
    requires
        t > 0,
        0 <= s,
        rem == a - q * t,
        a >= 0 ==> 0 <= rem < t,
        a < 0 ==> -t < rem <= 0,
    ensures
        q * s + trunc_div(rem * s, t) == trunc_div(a * s, t),
{
    assert(a * s == (q * s) * t + rem * s) by (nonlinear_arith)
        requires rem == a - q * t;
    if a >= 0 {
        assert(rem * s >= 0) by (nonlinear_arith)
            requires rem >= 0, s >= 0;
        assert(a * s >= 0) by (nonlinear_arith)
            requires a >= 0, s >= 0;
        let x = rem * s;
        lemma_div_facts(x, t);
        assert(a * s == (q * s + x / t) * t + x % t) by (nonlinear_arith)
            requires a * s == (q * s) * t + x, x == (x / t) * t + x % t;
        vstd::arithmetic::div_mod::lemma_fundamental_div_mod_converse(a * s, t, q * s + x / t, x % t);
    } else {
        assert(rem * s <= 0) by (nonlinear_arith)
            requires rem <= 0, s >= 0;
        assert(a * s <= 0) by (nonlinear_arith)
            requires a < 0, s >= 0;
        let x = -(rem * s);
        lemma_div_facts(x, t);
        assert(-(a * s) == (-(q * s) + x / t) * t + x % t) by (nonlinear_arith)
            requires a * s == (q * s) * t - x, x == (x / t) * t + x % t;
        vstd::arithmetic::div_mod::lemma_fundamental_div_mod_converse(-(a * s), t, -(q * s) + x / t, x % t);
        if rem * s == 0 {
            assert(0int / t == 0) by {
                vstd::arithmetic::div_mod::lemma_fundamental_div_mod_converse(0, t, 0, 0);
            }
        }
        if a * s == 0 {
            assert(0int / t == 0) by {
                vstd::arithmetic::div_mod::lemma_fundamental_div_mod_converse(0, t, 0, 0);
            }
        }
    }
}

} // verus!
