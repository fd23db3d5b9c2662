use vstd::prelude::*;

use crate::accrual::{
    accrued, all_valid, boundary_delta, is_boundary, lemma_accrued_is_rate_sum, lemma_advance,
    lemma_bounds, lemma_no_boundary, lemma_push, lemma_push_future, overlap, rate_at, rate_sum,
    total_cost, valid_sub, Account, Subscription,
};
use crate::collector::Collector;
use crate::timeline::{
    delta_at, has_key, lemma_delta_at_drop_first, lemma_delta_at_index,
    strictly_sorted, SkipList,
};

verus! {

/// The most timeline entries one settlement sweep folds; the rest wait for the next sweep.
pub const MAX_CHANGES_PER_COLLECT: usize = 64;

/// Why an operation was refused. A refused operation changes nothing.
#[derive(Clone, Copy, Debug, PartialEq, Eq, Structural)]
pub enum BillingError {
    /// The new time is not after the current time.
    NonMonotonicTime,
    /// The amount does not buy a single time unit at the current price.
    SubMinimumPurchase,
    /// No positive price per unit has been set.
    InvalidPrice,
    /// A balance or a time would leave the range of `i128`.
    ArithmeticOverflow,
}

/// Whether `s` belongs to the account with bytes `a`.
pub open spec fn owned_by(s: Subscription, a: Seq<u8>) -> bool {
    s.account@ == a
}

/// The end of the most recent interval of account `a`, or 0 when it has none.
pub open spec fn last_end(subs: Seq<Subscription>, a: Seq<u8>) -> int
    decreases subs.len(),
{
    if subs.len() == 0 {
        0
    } else if owned_by(subs.last(), a) {
        subs.last().end_block as int
    } else {
        last_end(subs.drop_last(), a)
    }
}

/// Whether account `a` holds an interval that covers time `t`.
pub open spec fn active_at(subs: Seq<Subscription>, a: Seq<u8>, t: int) -> bool {
    exists|i: int|
        0 <= i < subs.len() && owned_by(#[trigger] subs[i], a) && subs[i].start_block <= t
            < subs[i].end_block
}

/// Within one account, each interval ends no later than any later one starts.
pub open spec fn accounts_ordered(subs: Seq<Subscription>) -> bool {
    forall|i: int, j: int|
        0 <= i < j < subs.len() && #[trigger] subs[i].account@ == #[trigger] subs[j].account@
            ==> subs[i].end_block <= subs[j].start_block
}

/// The subscription engine: purchases, activity queries and settlement.
pub struct SubscriptionManager {
    collector: Collector,
    price_per_block: i128,
    current_block: i128,
    changes: SkipList,
    subscriptions: Vec<Subscription>,
}

impl SubscriptionManager {
    /// Every interval purchased so far, in purchase order.
    pub closed spec fn history(&self) -> Seq<Subscription> {
        self.subscriptions@
    }

    /// The current time.
    pub closed spec fn now(&self) -> int {
        self.current_block as int
    }

    /// The price per time unit that new purchases pay.
    pub closed spec fn price(&self) -> int {
        self.price_per_block as int
    }

    /// The time up to which fees have been settled.
    pub closed spec fn settled(&self) -> int {
        self.collector.last_collected_block as int
    }

    /// The aggregate rate in force since the settled time.
    pub closed spec fn rate(&self) -> int {
        self.collector.current_fee as int
    }

    /// Funds paid in and not yet earned.
    pub closed spec fn pooled(&self) -> int {
        self.collector.balance as int
    }

    /// Funds earned by the service.
    pub closed spec fn service(&self) -> int {
        self.collector.service_balance as int
    }

    /// The rate changes not yet folded into the rate, in time order.
    pub closed spec fn timeline(&self) -> Seq<(i128, i128)> {
        self.changes@
    }

    /// How many whole time units `amount` pays for at the current price.
    pub open spec fn units_for(&self, amount: int) -> int {
        amount / self.price()
    }

    pub open spec fn total_funds(&self) -> int {
        self.pooled() + self.service()
    }

    /// Where the next interval of account `a` starts: after the current time and after the
    /// account's last interval.
    pub open spec fn next_start(&self, a: Seq<u8>) -> int {
        let le = last_end(self.history(), a);
        if le > self.now() + 1 {
            le
        } else {
            self.now() + 1
        }
    }

    pub closed spec fn wf(&self) -> bool {
        let subs = self.subscriptions@;
        let c = self.collector;
        let es = self.changes@;
        let l = c.last_collected_block as int;
        &&& self.changes.wf()
        &&& 0 <= l <= self.current_block
        &&& all_valid(subs)
        &&& accounts_ordered(subs)
        &&& c.service_balance == accrued(subs, l)
        &&& total_cost(subs) - accrued(subs, l) <= c.balance
        &&& c.balance + c.service_balance <= i128::MAX
        &&& c.current_fee == rate_at(subs, l)
        &&& forall|j: int| 0 <= j < es.len() ==> es[j].0 > l && is_boundary(subs, es[j].0 as int)
        &&& forall|k: int| k > l ==> #[trigger] delta_at(es, k) == boundary_delta(subs, k)
        &&& forall|k: int| k > l && #[trigger] is_boundary(subs, k) ==> has_key(es, k)
    }

    /// What a well-formed state holds: the service has earned exactly the fee of every unit
    /// before the settled time, the pooled funds cover every unit not yet earned, and the
    /// unfolded timeline holds exactly the interval boundaries after the settled time, in order,
    /// each with its net rate change.
    pub proof fn lemma_state_model(&self)
        requires
            self.wf(),
        ensures
            self.service() == accrued(self.history(), self.settled()),
            self.rate() == rate_at(self.history(), self.settled()),
            0 <= self.settled() <= self.now(),
            self.pooled() >= total_cost(self.history()) - accrued(self.history(), self.settled()),
            self.pooled() >= 0,
            self.service() >= 0,
            all_valid(self.history()),
            accounts_ordered(self.history()),
            strictly_sorted(self.timeline()),
            forall|j: int|
                0 <= j < self.timeline().len() ==> self.timeline()[j].0 > self.settled()
                    && is_boundary(self.history(), self.timeline()[j].0 as int),
            forall|k: int|
                k > self.settled() ==> #[trigger] delta_at(self.timeline(), k) == boundary_delta(
                    self.history(),
                    k,
                ),
            forall|k: int|
                k > self.settled() && #[trigger] is_boundary(self.history(), k) ==> has_key(
                    self.timeline(),
                    k,
                ),
    {
        lemma_bounds(self.history(), self.settled(), 0);
    }

    /// Settling is independent of how often it happens: two well-formed states with the same
    /// purchases, settled through the same time, have earned the same.
    pub proof fn lemma_settlement_granularity(a: &Self, b: &Self)
        requires
            a.wf(),
            b.wf(),
            a.history() == b.history(),
            a.settled() == b.settled(),
        ensures
            a.service() == b.service(),
    {
        a.lemma_state_model();
        b.lemma_state_model();
    }

    /// The earned funds are the sum, over each time unit before the settled time, of the
    /// aggregate rate of the intervals active in it; so each stretch of constant aggregate rate
    /// contributes its length times that rate.
    pub proof fn lemma_service_is_rate_sum(&self)
        requires
            self.wf(),
        ensures
            self.service() == rate_sum(self.history(), self.settled() as nat),
    {
        self.lemma_state_model();
        lemma_accrued_is_rate_sum(self.history(), self.settled() as nat);
    }

    /// With a single interval, settled at or after its end, the service has earned exactly its
    /// number of units times its price.
    pub proof fn lemma_single_subscription_settles_in_full(&self)
        requires
            self.wf(),
            self.history().len() == 1,
            self.settled() >= self.history()[0].end_block,
        ensures
            self.service() == self.history()[0].price_per_block * (self.history()[0].end_block
                - self.history()[0].start_block),
    {
        self.lemma_state_model();
        let subs = self.history();
        let l = self.settled();
        assert(subs.drop_last() =~= Seq::<Subscription>::empty());
        assert(subs.last() == subs[0]);
        assert(accrued(subs.drop_last(), l) == 0);
        assert(overlap(subs[0], l) == subs[0].end_block - subs[0].start_block);
        assert(accrued(subs, l) == accrued(subs.drop_last(), l) + subs.last().price_per_block
            * overlap(subs.last(), l));
    }

    pub fn new() -> (r: Self)
        ensures
            r.wf(),
            r.history() == Seq::<Subscription>::empty(),
            r.now() == 0,
            r.price() == 0,
            r.settled() == 0,
            r.pooled() == 0,
            r.service() == 0,
    {
        let r = SubscriptionManager {
            collector: Collector::new(),
            price_per_block: 0,
            current_block: 0,
            changes: SkipList::new(),
            subscriptions: Vec::new(),
        };
        proof {
            assert forall|k: int| k > 0 && #[trigger] is_boundary(r.subscriptions@, k) implies has_key(
                r.changes@,
                k,
            ) by {}
        }
        r
    }

    /// Moves the current time forward to `block`.
    pub fn set_current_block(&mut self, block: i128) -> (r: Result<(), BillingError>)
        requires
            old(self).wf(),
        ensures
            final(self).wf(),
            r is Err <==> block <= old(self).now(),
            r is Err ==> r == Err::<(), BillingError>(BillingError::NonMonotonicTime),
            r is Err ==> *final(self) == *old(self),
            r is Ok ==> final(self).now() == block,
            final(self).history() == old(self).history(),
            final(self).price() == old(self).price(),
            final(self).settled() == old(self).settled(),
            final(self).rate() == old(self).rate(),
            final(self).pooled() == old(self).pooled(),
            final(self).service() == old(self).service(),
            final(self).timeline() == old(self).timeline(),
    {
        if block <= self.current_block {
            return Err(BillingError::NonMonotonicTime);
        }
        self.current_block = block;
        Ok(())
    }

    pub fn current_block(&self) -> (r: i128)
        ensures
            r == self.now(),
    {
        self.current_block
    }

    /// Funds paid in and not yet earned.
    pub fn pooled_balance(&self) -> (r: i128)
        ensures
            r == self.pooled(),
    {
        self.collector.balance
    }

    /// Funds earned by the service.
    pub fn service_balance(&self) -> (r: i128)
        ensures
            r == self.service(),
    {
        self.collector.service_balance
    }

    /// The time up to which fees have been settled.
    pub fn last_collected_block(&self) -> (r: i128)
        ensures
            r == self.settled(),
    {
        self.collector.last_collected_block
    }

    /// Sets the price per time unit of future purchases; intervals already bought keep theirs.
    /// Whether the caller may do so is decided by the caller's environment.
    pub fn set_price_per_block(&mut self, price: i128)
        requires
            old(self).wf(),
        ensures
            final(self).wf(),
            final(self).price() == price,
            final(self).history() == old(self).history(),
            final(self).now() == old(self).now(),
            final(self).settled() == old(self).settled(),
            final(self).rate() == old(self).rate(),
            final(self).pooled() == old(self).pooled(),
            final(self).service() == old(self).service(),
            final(self).timeline() == old(self).timeline(),
    {
        self.price_per_block = price;
    }

    /// Whether `account` holds an interval that covers the current time.
    pub fn is_active(&self, account: Account) -> (r: bool)
        requires
            self.wf(),
        ensures
            r == active_at(self.history(), account@, self.now()),
    {
        let ghost subs = self.subscriptions@;
        let ghost t = self.current_block as int;
        let mut i: usize = self.subscriptions.len();
        while i > 0
            invariant
                i <= subs.len(),
                subs == self.subscriptions@,
                t == self.current_block,
                accounts_ordered(subs),
                forall|j: int|
                    i <= j < subs.len() && owned_by(#[trigger] subs[j], account@) ==> subs[j].start_block
                        > t,
            decreases i,
        {
            i = i - 1;
            let s = self.subscriptions[i];
            if same_account(&s.account, &account) && s.start_block <= self.current_block {
                let active = s.end_block > self.current_block;
                proof {
                    if active {
                        assert(owned_by(subs[i as int], account@));
                    } else {
                        assert forall|j: int|
                            0 <= j < subs.len() && owned_by(#[trigger] subs[j], account@) implies !(
                            subs[j].start_block <= t < subs[j].end_block) by {
                            if j < i {
                                assert(subs[j].account@ == subs[i as int].account@);
                            }
                        }
                    }
                }
                return active;
            }
        }
        false
    }

    /// Settles accrued fees: folds the due timeline entries (those not after the current time),
    /// at most `MAX_CHANGES_PER_COLLECT` of them, in time order, each after settling the time
    /// before it at the rate then in force; when none stays due, settles up to the current time.
    /// Returns whether fees are now settled through the current time.
    pub fn collect(&mut self) -> (r: bool)
        requires
            old(self).wf(),
        ensures
            final(self).wf(),
            final(self).history() == old(self).history(),
            final(self).now() == old(self).now(),
            final(self).price() == old(self).price(),
            final(self).total_funds() == old(self).total_funds(),
            old(self).settled() <= final(self).settled() <= final(self).now(),
            final(self).service() == accrued(final(self).history(), final(self).settled()),
            final(self).timeline().len() <= old(self).timeline().len(),
            old(self).timeline().len() - final(self).timeline().len() <= MAX_CHANGES_PER_COLLECT,
            final(self).timeline() == old(self).timeline().subrange(
                old(self).timeline().len() - final(self).timeline().len(),
                old(self).timeline().len() as int,
            ),
            forall|j: int|
                0 <= j < old(self).timeline().len() - final(self).timeline().len()
                    ==> old(self).timeline()[j].0 <= final(self).settled(),
            r == (final(self).timeline().len() == 0 || final(self).timeline()[0].0
                > final(self).now()),
            r ==> final(self).settled() == final(self).now(),
            !r ==> old(self).timeline().len() - final(self).timeline().len()
                == MAX_CHANGES_PER_COLLECT,
            !r ==> final(self).settled() == old(self).timeline()[MAX_CHANGES_PER_COLLECT - 1].0,
    {
        let ghost subs = self.subscriptions@;
        let ghost es = self.changes@;
        let ghost total0 = self.collector.balance + self.collector.service_balance;
        let ghost l0 = self.collector.last_collected_block as int;
        let now = self.current_block;
        proof {
            self.lemma_state_model();
            assert(es.subrange(0, es.len() as int) =~= es);
        }
        let n = self.changes.len();
        let mut c = self.collector;
        let mut i: usize = 0;
        let mut done = false;
        while !done && i < n && i < MAX_CHANGES_PER_COLLECT
            invariant
                self.wf(),
                self.subscriptions@ == subs,
                self.changes@ == es,
                self.current_block == now,
                n == es.len(),
                total0 == self.collector.balance + self.collector.service_balance,
                l0 == self.collector.last_collected_block,
                0 <= i <= n,
                i <= MAX_CHANGES_PER_COLLECT,
                l0 <= c.last_collected_block <= now,
                forall|j: int| 0 <= j < i ==> es[j].0 <= c.last_collected_block,
                i > 0 ==> c.last_collected_block == es[i - 1].0,
                forall|j: int| i <= j < n ==> es[j].0 > c.last_collected_block,
                done ==> i < n && es[i as int].0 > now,
                c.service_balance == accrued(subs, c.last_collected_block as int),
                c.current_fee == rate_at(subs, c.last_collected_block as int),
                c.balance + c.service_balance == total0,
                total_cost(subs) - accrued(subs, c.last_collected_block as int) <= c.balance,
                forall|k: int|
                    k > c.last_collected_block ==> #[trigger] delta_at(es.subrange(i as int, n as int), k)
                        == boundary_delta(subs, k),
                forall|k: int|
                    k > c.last_collected_block && #[trigger] is_boundary(subs, k) ==> has_key(
                        es.subrange(i as int, n as int),
                        k,
                    ),
            decreases n - i + (if done {
                0int
            } else {
                1int
            }),
        {
            let (t, d) = self.changes.entry(i);
            if t > now {
                done = true;
            } else {
                let ghost l = c.last_collected_block as int;
                proof {
                    lemma_sweep_step(subs, es, i as int, l);
                    lemma_bounds(subs, t as int, t as int);
                    lemma_bounds(subs, l, 0);
                    let rate = c.current_fee as int;
                    assert(rate * (t - l) >= 0) by (nonlinear_arith)
                        requires
                            rate >= 0,
                            t - l > 0,
                    ;
                }
                c.collect_one(t);
                c.apply_delta(d);
                i = i + 1;
            }
        }
        proof {
            assert(self.changes@.subrange(i as int, n as int) == es.subrange(i as int, n as int));
        }
        self.collector = c;
        self.changes.truncate_front(i);
        let complete = self.changes.len() == 0 || self.changes.entry(0).0 > now;
        if complete {
            let ghost l = c.last_collected_block as int;
            proof {
                lemma_sweep_finish(subs, self.changes@, l, now as int);
                lemma_bounds(subs, now as int, now as int);
                lemma_bounds(subs, l, 0);
                let rate = c.current_fee as int;
                assert(rate * (now - l) >= 0) by (nonlinear_arith)
                    requires
                        rate >= 0,
                        now - l >= 0,
                ;
            }
            self.collector.collect_one(now);
        }
        complete
    }

    /// The end of the most recent interval of `account`, or 0 when it has none.
    fn last_end_of(&self, account: &Account) -> (r: i128)
        requires
            self.wf(),
        ensures
            r == last_end(self.history(), account@),
    {
        let ghost subs = self.subscriptions@;
        let mut i: usize = self.subscriptions.len();
        proof {
            assert(subs.subrange(0, i as int) =~= subs);
        }
        while i > 0
            invariant
                i <= subs.len(),
                subs == self.subscriptions@,
                last_end(subs.subrange(0, i as int), account@) == last_end(subs, account@),
            decreases i,
        {
            let s = self.subscriptions[i - 1];
            proof {
                let pre = subs.subrange(0, i as int);
                assert(pre.last() == s);
                assert(pre.drop_last() =~= subs.subrange(0, i - 1));
            }
            if same_account(&s.account, account) {
                return s.end_block;
            }
            i = i - 1;
        }
        0
    }

    /// Buys as many whole time units as `amount` pays for at the current price. They start
    /// after the current time and after the account's last interval. The whole amount joins the
    /// pooled funds.
    pub fn top_off(&mut self, account: Account, amount: i128) -> (r: Result<(), BillingError>)
        requires
            old(self).wf(),
        ensures
            final(self).wf(),
            old(self).price() <= 0 ==> r == Err::<(), BillingError>(BillingError::InvalidPrice),
            old(self).price() > 0 && amount < old(self).price() ==> r == Err::<(), BillingError>(
                BillingError::SubMinimumPurchase,
            ),
            old(self).price() > 0 && amount >= old(self).price() && (old(self).total_funds()
                + amount > i128::MAX || old(self).next_start(account@) + old(self).units_for(amount as int)
                > i128::MAX) ==> r == Err::<(), BillingError>(BillingError::ArithmeticOverflow),
            r is Ok <==> (old(self).price() > 0 && amount >= old(self).price() && old(
                self,
            ).total_funds() + amount <= i128::MAX && old(self).next_start(account@) + old(self).units_for(amount as int) <= i128::MAX),
            r is Err ==> *final(self) == *old(self),
            r is Ok ==> final(self).history() == old(self).history().push(
                (Subscription {
                    account,
                    start_block: old(self).next_start(account@) as i128,
                    end_block: (old(self).next_start(account@) + old(self).units_for(amount as int)) as i128,
                    price_per_block: old(self).price() as i128,
                }),
            ),
            r is Ok ==> final(self).pooled() == old(self).pooled() + amount,
            final(self).service() == old(self).service(),
            final(self).now() == old(self).now(),
            final(self).price() == old(self).price(),
            final(self).settled() == old(self).settled(),
            final(self).rate() == old(self).rate(),
    {
        let price = self.price_per_block;
        if price <= 0 {
            return Err(BillingError::InvalidPrice);
        }
        if amount < price {
            return Err(BillingError::SubMinimumPurchase);
        }
        proof {
            self.lemma_state_model();
            lemma_last_end_nonneg(self.subscriptions@, account@);
        }
        let units = amount / price;
        let total = self.collector.balance + self.collector.service_balance;
        if total > i128::MAX - amount {
            return Err(BillingError::ArithmeticOverflow);
        }
        let last = self.last_end_of(&account);
        if self.current_block == i128::MAX {
            return Err(BillingError::ArithmeticOverflow);
        }
        let after_now = self.current_block + 1;
        let start = if last > after_now {
            last
        } else {
            after_now
        };
        if start > i128::MAX - units {
            return Err(BillingError::ArithmeticOverflow);
        }
        let end = start + units;
        let sub = Subscription { account, start_block: start, end_block: end, price_per_block: price };
        let ghost subs0 = self.subscriptions@;
        let ghost subs1 = subs0.push(sub);
        let ghost es0 = self.changes@;
        let ghost l = self.collector.last_collected_block as int;
        proof {
            assert(price * units <= amount) by (nonlinear_arith)
                requires
                    price > 0,
                    amount >= price,
                    units == amount / price,
            ;
            assert(units >= 1) by (nonlinear_arith)
                requires
                    price > 0,
                    amount >= price,
                    units == amount / price,
            ;
            lemma_push(subs0, sub);
            lemma_push_future(subs0, sub, l, start as int);
            lemma_push_future(subs0, sub, l, end as int);
            lemma_bounds(subs1, l, start as int);
            lemma_bounds(subs1, l, end as int);
        }
        self.collector.balance = self.collector.balance + amount;
        self.subscriptions.push(sub);
        self.changes.accumulate(start, price);
        let ghost es1 = self.changes@;
        self.changes.accumulate(end, -price);
        proof {
            let es2 = self.changes@;
            assert forall|k: int| k > l implies #[trigger] delta_at(es2, k) == boundary_delta(subs1, k) by {
                lemma_push_future(subs0, sub, l, k);
            }
            assert forall|k: int| k > l && #[trigger] is_boundary(subs1, k) implies has_key(es2, k) by {
                lemma_push_future(subs0, sub, l, k);
            }
            assert forall|j: int| 0 <= j < es2.len() implies es2[j].0 > l && is_boundary(
                subs1,
                es2[j].0 as int,
            ) by {
                let k = es2[j].0 as int;
                assert(has_key(es2, k));
                lemma_push_future(subs0, sub, l, k);
                if has_key(es0, k) {
                    let j0 = choose|j0: int| 0 <= j0 < es0.len() && es0[j0].0 == k;
                }
            }
            assert(accounts_ordered(subs1)) by {
                assert forall|i: int, j: int|
                    0 <= i < j < subs1.len() && #[trigger] subs1[i].account@ == #[trigger] subs1[j].account@
                        implies subs1[i].end_block <= subs1[j].start_block by {
                    assert(subs1[i] == subs0[i]);
                    if j < subs0.len() {
                        assert(subs1[j] == subs0[j]);
                    } else {
                        lemma_last_end_bound(subs0, account@, i);
                    }
                }
            }
        }
        Ok(())
    }
}

/// Folding entry `i`, the earliest unfolded one, moves the settled time from `l` to its time:
/// the fee grows at the old rate, the rate changes by the entry's delta, and the entries after
/// it still describe every boundary after its time.
proof fn lemma_sweep_step(subs: Seq<Subscription>, es: Seq<(i128, i128)>, i: int, l: int)
    requires
        strictly_sorted(es),
        all_valid(subs),
        0 <= i < es.len(),
        l < es[i].0,
        forall|k: int| k > l ==> #[trigger] delta_at(es.subrange(i, es.len() as int), k)
            == boundary_delta(subs, k),
        forall|k: int|
            k > l && #[trigger] is_boundary(subs, k) ==> has_key(es.subrange(i, es.len() as int), k),
    ensures
        accrued(subs, es[i].0 as int) == accrued(subs, l) + rate_at(subs, l) * (es[i].0 - l),
        rate_at(subs, es[i].0 as int) == rate_at(subs, l) + es[i].1,
        forall|k: int| k > es[i].0 ==> #[trigger] delta_at(es.subrange(i + 1, es.len() as int), k)
            == boundary_delta(subs, k),
        forall|k: int|
            k > es[i].0 && #[trigger] is_boundary(subs, k) ==> has_key(
                es.subrange(i + 1, es.len() as int),
                k,
            ),
        forall|j: int| i + 1 <= j < es.len() ==> es[j].0 > es[i].0,
{
    let n = es.len() as int;
    let t = es[i].0 as int;
    let suf = es.subrange(i, n);
    let next = es.subrange(i + 1, n);
    assert(suf[0] == es[i]);
    assert forall|k: int| l < k < t implies !is_boundary(subs, k) by {
        if is_boundary(subs, k) {
            assert(has_key(suf, k));
            let j = choose|j: int| 0 <= j < suf.len() && suf[j].0 == k;
            assert(suf[j] == es[i + j]);
            if j > 0 {
                assert(es[i].0 < es[i + j].0);
            }
        }
    }
    lemma_advance(subs, l, t);
    assert(strictly_sorted(suf)) by {
        assert forall|a: int, b: int| 0 <= a < b < suf.len() implies suf[a].0 < suf[b].0 by {
            assert(suf[a] == es[i + a] && suf[b] == es[i + b]);
        }
    }
    lemma_delta_at_index(suf, 0);
    assert(suf.subrange(1, suf.len() as int) =~= next);
    assert forall|k: int| k > t implies #[trigger] delta_at(next, k) == boundary_delta(subs, k) by {
        lemma_delta_at_drop_first(suf, k);
    }
    assert forall|k: int| k > t && #[trigger] is_boundary(subs, k) implies has_key(next, k) by {
        lemma_delta_at_drop_first(suf, k);
    }
}

/// When no unfolded entry is due, nothing starts or ends between the settled time `l` and
/// `now`: the fee grows at the rate in force, which stays as it is.
proof fn lemma_sweep_finish(subs: Seq<Subscription>, suf: Seq<(i128, i128)>, l: int, now: int)
    requires
        strictly_sorted(suf),
        all_valid(subs),
        l <= now,
        suf.len() == 0 || suf[0].0 > now,
        forall|k: int| k > l ==> #[trigger] delta_at(suf, k) == boundary_delta(subs, k),
        forall|k: int| k > l && #[trigger] is_boundary(subs, k) ==> has_key(suf, k),
    ensures
        accrued(subs, now) == accrued(subs, l) + rate_at(subs, l) * (now - l),
        rate_at(subs, now) == rate_at(subs, l),
        forall|j: int| 0 <= j < suf.len() ==> suf[j].0 > now,
{
    assert forall|j: int| 0 <= j < suf.len() implies suf[j].0 > now by {
        if j > 0 {
            assert(suf[0].0 < suf[j].0);
        }
    }
    assert forall|k: int| l < k <= now implies !is_boundary(subs, k) by {
        if is_boundary(subs, k) {
            assert(has_key(suf, k));
            let j = choose|j: int| 0 <= j < suf.len() && suf[j].0 == k;
        }
    }
    lemma_advance(subs, l, now);
    if l < now {
        lemma_no_boundary(subs, now);
    }
}

/// An account with a single interval `[start, end)` is inactive before `start`, active at
/// every time in it, and inactive from `end` on.
pub proof fn lemma_single_interval_activity(subs: Seq<Subscription>, a: Seq<u8>, t: int)
    requires
        subs.len() == 1,
        owned_by(subs[0], a),
    ensures
        active_at(subs, a, t) == (subs[0].start_block <= t < subs[0].end_block),
{
    if subs[0].start_block <= t < subs[0].end_block {
        assert(owned_by(subs[0], a));
    }
}

/// Every interval of account `a` ends no later than the account's last end.
proof fn lemma_last_end_bound(subs: Seq<Subscription>, a: Seq<u8>, i: int)
    requires
        all_valid(subs),
        accounts_ordered(subs),
        0 <= i < subs.len(),
        owned_by(subs[i], a),
    ensures
        subs[i].end_block <= last_end(subs, a),
    decreases subs.len(),
{
    let n = subs.len() - 1;
    assert(subs.last() == subs[n]);
    if owned_by(subs.last(), a) {
        if i < n {
            assert(subs[i].account@ == subs[n].account@);
            assert(valid_sub(subs[n]));
        }
    } else {
        let rest = subs.drop_last();
        assert(rest[i] == subs[i]);
        assert(all_valid(rest)) by {
            assert forall|j: int| 0 <= j < rest.len() implies valid_sub(#[trigger] rest[j]) by {
                assert(rest[j] == subs[j]);
            }
        }
        assert(accounts_ordered(rest)) by {
            assert forall|j: int, m: int|
                0 <= j < m < rest.len() && #[trigger] rest[j].account@ == #[trigger] rest[m].account@
                    implies rest[j].end_block <= rest[m].start_block by {
                assert(rest[j] == subs[j] && rest[m] == subs[m]);
            }
        }
        lemma_last_end_bound(rest, a, i);
    }
}

proof fn lemma_last_end_nonneg(subs: Seq<Subscription>, a: Seq<u8>)
    requires
        all_valid(subs),
    ensures
        last_end(subs, a) >= 0,
    decreases subs.len(),
{
    if subs.len() > 0 {
        let rest = subs.drop_last();
        assert(subs.last() == subs[subs.len() - 1]);
        assert(all_valid(rest)) by {
            assert forall|j: int| 0 <= j < rest.len() implies valid_sub(#[trigger] rest[j]) by {
                assert(rest[j] == subs[j]);
            }
        }
        lemma_last_end_nonneg(rest, a);
    }
}

/// Whether two accounts are the same, byte by byte.
fn same_account(a: &Account, b: &Account) -> (r: bool)
    ensures
        r == (a@ == b@),
{
    let mut i: usize = 0;
    while i < 20
        invariant
            i <= 20,
            a@.len() == 20,
            b@.len() == 20,
            forall|j: int| 0 <= j < i ==> a@[j] == b@[j],
        decreases 20 - i,
    {
        if a[i] != b[i] {
            return false;
        }
        i = i + 1;
    }
    assert(a@ =~= b@);
    true
}

} // verus!
