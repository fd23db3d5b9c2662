use vstd::prelude::*;

verus! {

/// An account identifier.
pub type Account = [u8; 20];

/// A purchased interval of time units `[start_block, end_block)` at a fixed price per unit.
#[derive(Clone, Copy, Debug)]
pub struct Subscription {
    pub account: Account,
    pub start_block: i128,
    pub end_block: i128,
    pub price_per_block: i128,
}

/// A non-empty interval at non-negative times with a positive price.
pub open spec fn valid_sub(s: Subscription) -> bool {
    0 <= s.start_block < s.end_block && s.price_per_block > 0
}

pub open spec fn all_valid(subs: Seq<Subscription>) -> bool {
    forall|i: int| 0 <= i < subs.len() ==> valid_sub(#[trigger] subs[i])
}

/// How many units of `s` lie before time `t`.
pub open spec fn overlap(s: Subscription, t: int) -> int {
    if t <= s.start_block {
        0
    } else if t >= s.end_block {
        s.end_block - s.start_block
    } else {
        t - s.start_block
    }
}

/// The fee owed for all units of all subscriptions that lie before time `t`.
pub open spec fn accrued(subs: Seq<Subscription>, t: int) -> int
    decreases subs.len(),
{
    if subs.len() == 0 {
        0
    } else {
        accrued(subs.drop_last(), t) + subs.last().price_per_block * overlap(subs.last(), t)
    }
}

/// The aggregate rate at time unit `t`: the sum of the prices of the subscriptions active then.
pub open spec fn rate_at(subs: Seq<Subscription>, t: int) -> int
    decreases subs.len(),
{
    if subs.len() == 0 {
        0
    } else {
        rate_at(subs.drop_last(), t) + if subs.last().start_block <= t < subs.last().end_block {
            subs.last().price_per_block as int
        } else {
            0
        }
    }
}

/// The net change of the aggregate rate at time `k`: `+price` for each interval starting there,
/// `-price` for each ending there.
pub open spec fn boundary_delta(subs: Seq<Subscription>, k: int) -> int
    decreases subs.len(),
{
    if subs.len() == 0 {
        0
    } else {
        boundary_delta(subs.drop_last(), k) + (if subs.last().start_block == k {
            subs.last().price_per_block as int
        } else {
            0
        }) - (if subs.last().end_block == k {
            subs.last().price_per_block as int
        } else {
            0
        })
    }
}

/// The price of every unit of every subscription.
pub open spec fn total_cost(subs: Seq<Subscription>) -> int
    decreases subs.len(),
{
    if subs.len() == 0 {
        0
    } else {
        total_cost(subs.drop_last()) + subs.last().price_per_block * (subs.last().end_block
            - subs.last().start_block)
    }
}

/// The sum of the aggregate rates over the time units `[0, t)`.
pub open spec fn rate_sum(subs: Seq<Subscription>, t: nat) -> int
    decreases t,
{
    if t == 0 {
        0
    } else {
        rate_sum(subs, (t - 1) as nat) + rate_at(subs, t - 1)
    }
}

/// Whether `s` starts or ends at time `k`.
pub open spec fn bounds_at(s: Subscription, k: int) -> bool {
    s.start_block == k || s.end_block == k
}

/// Whether some interval starts or ends at time `k`.
pub open spec fn is_boundary(subs: Seq<Subscription>, k: int) -> bool {
    exists|i: int| 0 <= i < subs.len() && #[trigger] bounds_at(subs[i], k)
}

pub(crate) proof fn lemma_push(subs: Seq<Subscription>, x: Subscription)
    ensures
        subs.push(x).drop_last() == subs,
        subs.push(x).last() == x,
        all_valid(subs.push(x)) == (all_valid(subs) && valid_sub(x)),
{
    assert(subs.push(x).drop_last() =~= subs);
    if all_valid(subs) && valid_sub(x) {
        assert forall|i: int| 0 <= i < subs.push(x).len() implies valid_sub(
            #[trigger] subs.push(x)[i],
        ) by {
            if i < subs.len() {
                assert(subs.push(x)[i] == subs[i]);
            }
        }
    }
    if all_valid(subs.push(x)) {
        assert(valid_sub(subs.push(x)[subs.len() as int]));
        assert forall|i: int| 0 <= i < subs.len() implies valid_sub(#[trigger] subs[i]) by {
            assert(subs.push(x)[i] == subs[i]);
        }
    }
}

proof fn lemma_drop_last(subs: Seq<Subscription>)
    requires
        subs.len() > 0,
        all_valid(subs),
    ensures
        all_valid(subs.drop_last()),
        valid_sub(subs.last()),
{
    assert(subs =~= subs.drop_last().push(subs.last()));
    lemma_push(subs.drop_last(), subs.last());
}

/// Between two times with no interval boundary strictly between them, the fee grows at the
/// aggregate rate of the earlier time, and at the later time that rate changes by the
/// boundary delta there.
pub(crate) proof fn lemma_advance(subs: Seq<Subscription>, from: int, to: int)
    requires
        all_valid(subs),
        from <= to,
        forall|k: int| from < k < to ==> !is_boundary(subs, k),
    ensures
        accrued(subs, to) == accrued(subs, from) + rate_at(subs, from) * (to - from),
        from < to ==> rate_at(subs, to) == rate_at(subs, from) + boundary_delta(subs, to),
    decreases subs.len(),
{
    if subs.len() > 0 {
        let rest = subs.drop_last();
        let x = subs.last();
        lemma_drop_last(subs);
        assert forall|k: int| from < k < to implies !is_boundary(rest, k) by {
            if is_boundary(rest, k) {
                let i = choose|i: int| 0 <= i < rest.len() && #[trigger] bounds_at(rest[i], k);
                assert(subs[i] == rest[i]);
                assert(bounds_at(subs[i], k));
                assert(is_boundary(subs, k));
            }
        }
        lemma_advance(rest, from, to);
        assert(!(from < x.start_block < to) && !(from < x.end_block < to)) by {
            let n = subs.len() - 1;
            assert(subs[n] == x);
            if from < x.start_block < to {
                assert(bounds_at(subs[n], x.start_block as int));
                assert(is_boundary(subs, x.start_block as int));
            }
            if from < x.end_block < to {
                assert(bounds_at(subs[n], x.end_block as int));
                assert(is_boundary(subs, x.end_block as int));
            }
        }
        let ind: int = if x.start_block <= from < x.end_block {
            x.price_per_block as int
        } else {
            0
        };
        let d = to - from;
        let p = x.price_per_block as int;
        assert(p * overlap(x, to) == p * overlap(x, from) + ind * d) by {
            if x.start_block <= from < x.end_block {
                assert(overlap(x, to) == overlap(x, from) + d);
                assert(p * (overlap(x, from) + d) == p * overlap(x, from) + p * d)
                    by (nonlinear_arith);
            } else {
                assert(overlap(x, to) == overlap(x, from));
            }
        }
        let r0 = rate_at(rest, from);
        assert((r0 + ind) * d == r0 * d + ind * d) by (nonlinear_arith);
    }
}

/// Bounds of the accrued fee and of the aggregate rate by the total price.
pub(crate) proof fn lemma_bounds(subs: Seq<Subscription>, t: int, k: int)
    requires
        all_valid(subs),
    ensures
        0 <= accrued(subs, t) <= total_cost(subs),
        0 <= rate_at(subs, t) <= total_cost(subs),
        -total_cost(subs) <= boundary_delta(subs, k) <= total_cost(subs),
        0 <= total_cost(subs),
    decreases subs.len(),
{
    if subs.len() > 0 {
        let rest = subs.drop_last();
        let x = subs.last();
        lemma_drop_last(subs);
        lemma_bounds(rest, t, k);
        let p = x.price_per_block as int;
        let ov = overlap(x, t);
        let len = x.end_block - x.start_block;
        assert(0 <= p * ov <= p * len) by (nonlinear_arith)
            requires
                p > 0,
                0 <= ov <= len,
        ;
        assert(p <= p * len) by (nonlinear_arith)
            requires
                p > 0,
                len >= 1,
        ;
    }
}

/// An appended interval that starts after `t` adds nothing to the fee or rate at `t`, and
/// changes the boundary deltas at its two ends alone.
pub(crate) proof fn lemma_push_future(subs: Seq<Subscription>, x: Subscription, t: int, k: int)
    requires
        t < x.start_block < x.end_block,
    ensures
        accrued(subs.push(x), t) == accrued(subs, t),
        rate_at(subs.push(x), t) == rate_at(subs, t),
        boundary_delta(subs.push(x), k) == boundary_delta(subs, k) + (if x.start_block == k {
            x.price_per_block as int
        } else {
            0
        }) - (if x.end_block == k {
            x.price_per_block as int
        } else {
            0
        }),
        total_cost(subs.push(x)) == total_cost(subs) + x.price_per_block * (x.end_block
            - x.start_block),
        forall|b: int| #[trigger]
            is_boundary(subs.push(x), b) == (is_boundary(subs, b) || b == x.start_block || b
                == x.end_block),
{
    assert(subs.push(x).drop_last() =~= subs);
    let n = subs.len() as int;
    assert forall|b: int| #[trigger]
        is_boundary(subs.push(x), b) == (is_boundary(subs, b) || b == x.start_block || b
            == x.end_block) by {
        if is_boundary(subs, b) {
            let i = choose|i: int| 0 <= i < subs.len() && #[trigger] bounds_at(subs[i], b);
            assert(subs.push(x)[i] == subs[i]);
            assert(bounds_at(subs.push(x)[i], b));
        }
        if b == x.start_block || b == x.end_block {
            assert(subs.push(x)[n] == x);
            assert(bounds_at(subs.push(x)[n], b));
        }
        if is_boundary(subs.push(x), b) {
            let i = choose|i: int| 0 <= i < subs.push(x).len() && #[trigger] bounds_at(subs.push(x)[i], b);
            if i < n {
                assert(subs.push(x)[i] == subs[i]);
                assert(bounds_at(subs[i], b));
            }
        }
    }
}

/// Where no interval starts or ends at `k`, the rate does not change there.
pub(crate) proof fn lemma_no_boundary(subs: Seq<Subscription>, k: int)
    requires
        !is_boundary(subs, k),
    ensures
        boundary_delta(subs, k) == 0,
    decreases subs.len(),
{
    if subs.len() > 0 {
        let rest = subs.drop_last();
        assert(!is_boundary(rest, k)) by {
            if is_boundary(rest, k) {
                let i = choose|i: int| 0 <= i < rest.len() && #[trigger] bounds_at(rest[i], k);
                assert(subs[i] == rest[i]);
                assert(bounds_at(subs[i], k));
            }
        }
        assert(subs[subs.len() - 1] == subs.last());
        if subs.last().start_block == k || subs.last().end_block == k {
            assert(bounds_at(subs[subs.len() - 1], k));
            assert(is_boundary(subs, k));
        }
        lemma_no_boundary(rest, k);
    }
}

/// The fee owed before time `t` is the sum, over every time unit before `t`, of the aggregate
/// rate at that unit: each stretch of constant rate contributes its length times that rate.
pub proof fn lemma_accrued_is_rate_sum(subs: Seq<Subscription>, t: nat)
    requires
        all_valid(subs),
    ensures
        accrued(subs, t as int) == rate_sum(subs, t),
    decreases t,
{
    if t == 0 {
        lemma_accrued_at_zero(subs);
    } else {
        let u = (t - 1) as nat;
        lemma_accrued_is_rate_sum(subs, u);
        lemma_advance(subs, u as int, t as int);
        assert(t - u == 1);
        assert(rate_at(subs, u as int) * 1 == rate_at(subs, u as int));
    }
}

proof fn lemma_accrued_at_zero(subs: Seq<Subscription>)
    requires
        all_valid(subs),
    ensures
        accrued(subs, 0) == 0,
    decreases subs.len(),
{
    if subs.len() > 0 {
        lemma_drop_last(subs);
        lemma_accrued_at_zero(subs.drop_last());
        assert(subs.last().price_per_block * 0 == 0);
    }
}

} // verus!
