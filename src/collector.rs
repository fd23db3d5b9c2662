use vstd::prelude::*;

verus! {

/// The settlement state: the last settled time, the aggregate rate in force since then, the
/// pooled funds not yet earned, and the funds already earned by the service.
///
/// A settlement never takes more than the pooled funds hold: `collect_one` requires it, and the
/// subscription manager proves that its pooled funds always cover every unit not yet earned, so
/// the pooled balance never goes negative.
#[derive(Clone, Copy, Debug)]
pub struct Collector {
    pub last_collected_block: i128,
    pub current_fee: i128,
    pub balance: i128,
    pub service_balance: i128,
}

impl Collector {
    pub fn new() -> (r: Self)
        ensures
            r.last_collected_block == 0,
            r.current_fee == 0,
            r.balance == 0,
            r.service_balance == 0,
    {
        Collector { last_collected_block: 0, current_fee: 0, balance: 0, service_balance: 0 }
    }

    /// Settles the time elapsed up to `block` at the current rate: the fee moves from the pooled
    /// balance to the service balance.
    pub fn collect_one(&mut self, block: i128)
        requires
            old(self).last_collected_block <= block,
            block - old(self).last_collected_block <= i128::MAX,
            0 <= old(self).current_fee * (block - old(self).last_collected_block)
                <= old(self).balance,
            old(self).balance + old(self).service_balance <= i128::MAX,
        ensures
            final(self).last_collected_block == block,
            final(self).current_fee == old(self).current_fee,
            final(self).balance == old(self).balance - old(self).current_fee * (block - old(
                self,
            ).last_collected_block),
            final(self).service_balance == old(self).service_balance + old(self).current_fee * (
            block - old(self).last_collected_block),
    {
        let num_blocks = block - self.last_collected_block;
        let fee = self.current_fee * num_blocks;
        self.balance = self.balance - fee;
        self.service_balance = self.service_balance + fee;
        self.last_collected_block = block;
    }

    /// Applies a rate change; the time before it must have been settled at the old rate.
    pub fn apply_delta(&mut self, delta: i128)
        requires
            i128::MIN <= old(self).current_fee + delta <= i128::MAX,
        ensures
            final(self).current_fee == old(self).current_fee + delta,
            final(self).last_collected_block == old(self).last_collected_block,
            final(self).balance == old(self).balance,
            final(self).service_balance == old(self).service_balance,
    {
        self.current_fee = self.current_fee + delta;
    }
}

} // verus!
