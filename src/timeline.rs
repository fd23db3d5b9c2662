use vstd::prelude::*;

verus! {

/// Keys strictly increase along the sequence, so each time value appears at most once.
pub open spec fn strictly_sorted(es: Seq<(i128, i128)>) -> bool {
    forall|i: int, j: int| 0 <= i < j < es.len() ==> es[i].0 < es[j].0
}

/// Whether some entry is keyed by time `k`.
pub open spec fn has_key(es: Seq<(i128, i128)>, k: int) -> bool {
    exists|j: int| 0 <= j < es.len() && es[j].0 == k
}

/// The signed rate change scheduled at time `k`: the sum of the deltas of all entries keyed by `k`
/// (zero when there is none).
pub open spec fn delta_at(es: Seq<(i128, i128)>, k: int) -> int
    decreases es.len(),
{
    if es.len() == 0 {
        0
    } else {
        (if es.last().0 == k {
            es.last().1 as int
        } else {
            0
        }) + delta_at(es.drop_last(), k)
    }
}

proof fn lemma_delta_at_concat(a: Seq<(i128, i128)>, b: Seq<(i128, i128)>, k: int)
    ensures
        delta_at(a + b, k) == delta_at(a, k) + delta_at(b, k),
    decreases b.len(),
{
    if b.len() == 0 {
        assert(a + b =~= a);
    } else {
        assert((a + b).drop_last() =~= a + b.drop_last());
        lemma_delta_at_concat(a, b.drop_last(), k);
    }
}

proof fn lemma_delta_at_single(e: (i128, i128), k: int)
    ensures
        delta_at(seq![e], k) == if e.0 == k {
            e.1 as int
        } else {
            0
        },
{
    assert(seq![e].drop_last() =~= Seq::<(i128, i128)>::empty());
    assert(seq![e].last() == e);
    assert(delta_at(Seq::<(i128, i128)>::empty(), k) == 0);
}

proof fn lemma_delta_at_absent(es: Seq<(i128, i128)>, k: int)
    requires
        !has_key(es, k),
    ensures
        delta_at(es, k) == 0,
    decreases es.len(),
{
    if es.len() > 0 {
        assert(es.last() == es[es.len() - 1]);
        assert(!has_key(es.drop_last(), k)) by {
            if has_key(es.drop_last(), k) {
                let j = choose|j: int| 0 <= j < es.drop_last().len() && es.drop_last()[j].0 == k;
                assert(es[j].0 == k);
            }
        }
        lemma_delta_at_absent(es.drop_last(), k);
    }
}

/// In a strictly sorted sequence the delta at the key of entry `i` is that entry's own delta.
pub proof fn lemma_delta_at_index(es: Seq<(i128, i128)>, i: int)
    requires
        strictly_sorted(es),
        0 <= i < es.len(),
    ensures
        delta_at(es, es[i].0 as int) == es[i].1,
{
    let k = es[i].0 as int;
    let a = es.subrange(0, i);
    let b = es.subrange(i + 1, es.len() as int);
    assert(es =~= a + seq![es[i]] + b);
    assert(!has_key(a, k)) by {
        if has_key(a, k) {
            let j = choose|j: int| 0 <= j < a.len() && a[j].0 == k;
            assert(es[j].0 == k);
        }
    }
    assert(!has_key(b, k)) by {
        if has_key(b, k) {
            let j = choose|j: int| 0 <= j < b.len() && b[j].0 == k;
            assert(es[i + 1 + j].0 == k);
        }
    }
    lemma_delta_at_absent(a, k);
    lemma_delta_at_absent(b, k);
    lemma_delta_at_concat(a + seq![es[i]], b, k);
    lemma_delta_at_concat(a, seq![es[i]], k);
    lemma_delta_at_single(es[i], k);
}

/// Dropping the first entry leaves the deltas at every other time unchanged.
pub proof fn lemma_delta_at_drop_first(es: Seq<(i128, i128)>, k: int)
    requires
        es.len() > 0,
        es[0].0 != k,
    ensures
        delta_at(es.subrange(1, es.len() as int), k) == delta_at(es, k),
        has_key(es.subrange(1, es.len() as int), k) == has_key(es, k),
{
    let rest = es.subrange(1, es.len() as int);
    assert(es =~= seq![es[0]] + rest);
    lemma_delta_at_concat(seq![es[0]], rest, k);
    lemma_delta_at_single(es[0], k);
    if has_key(es, k) {
        let j = choose|j: int| 0 <= j < es.len() && es[j].0 == k;
        assert(rest[j - 1].0 == k);
    }
    if has_key(rest, k) {
        let j = choose|j: int| 0 <= j < rest.len() && rest[j].0 == k;
        assert(es[j + 1].0 == k);
    }
}

/// Changing the delta of entry `i` changes the delta at its key alone.
proof fn lemma_delta_at_update(es: Seq<(i128, i128)>, i: int, x: i128, k: int)
    requires
        strictly_sorted(es),
        0 <= i < es.len(),
    ensures
        strictly_sorted(es.update(i, (es[i].0, x))),
        delta_at(es.update(i, (es[i].0, x)), k) == if k == es[i].0 {
            x as int
        } else {
            delta_at(es, k)
        },
        has_key(es.update(i, (es[i].0, x)), k) == has_key(es, k),
{
    let u = es.update(i, (es[i].0, x));
    let a = es.subrange(0, i);
    let b = es.subrange(i + 1, es.len() as int);
    assert(es =~= a + seq![es[i]] + b);
    assert(u =~= a + seq![(es[i].0, x)] + b);
    lemma_delta_at_concat(a + seq![es[i]], b, k);
    lemma_delta_at_concat(a, seq![es[i]], k);
    lemma_delta_at_concat(a + seq![(es[i].0, x)], b, k);
    lemma_delta_at_concat(a, seq![(es[i].0, x)], k);
    lemma_delta_at_single(es[i], k);
    lemma_delta_at_single((es[i].0, x), k);
    if k == es[i].0 {
        lemma_delta_at_index(es, i);
        lemma_delta_at_index(u, i);
    }
    if has_key(es, k) {
        let j = choose|j: int| 0 <= j < es.len() && es[j].0 == k;
        assert(u[j].0 == k);
    }
    if has_key(u, k) {
        let j = choose|j: int| 0 <= j < u.len() && u[j].0 == k;
        assert(es[j].0 == k);
    }
}

/// Inserting a zero entry for a new key at its sorted position keeps the order and changes
/// no delta.
proof fn lemma_insert_zero(before: Seq<(i128, i128)>, i: int, k: i128)
    requires
        strictly_sorted(before),
        0 <= i <= before.len(),
        forall|j: int| 0 <= j < i ==> before[j].0 < k,
        forall|j: int| i <= j < before.len() ==> before[j].0 > k,
    ensures
        strictly_sorted(before.insert(i, (k, 0i128))),
        before.insert(i, (k, 0i128))[i].0 == k,
        delta_at(before.insert(i, (k, 0i128)), k as int) == 0,
        forall|k2: int| #[trigger]
            delta_at(before.insert(i, (k, 0i128)), k2) == delta_at(before, k2),
        forall|k2: int| #[trigger]
            has_key(before.insert(i, (k, 0i128)), k2) == (has_key(before, k2) || k2 == k),
{
    let u = before.insert(i, (k, 0i128));
    let a = before.subrange(0, i);
    let b = before.subrange(i, before.len() as int);
    assert(before =~= a + b);
    assert(u =~= a + seq![(k, 0i128)] + b);
    assert forall|k2: int| delta_at(u, k2) == delta_at(before, k2) by {
        lemma_delta_at_concat(a + seq![(k, 0i128)], b, k2);
        lemma_delta_at_concat(a, seq![(k, 0i128)], k2);
        lemma_delta_at_concat(a, b, k2);
        lemma_delta_at_single((k, 0i128), k2);
    }
    assert forall|k2: int| has_key(u, k2) == (has_key(before, k2) || k2 == k) by {
        if has_key(before, k2) {
            let j = choose|j: int| 0 <= j < before.len() && before[j].0 == k2;
            if j < i {
                assert(u[j].0 == k2);
            } else {
                assert(u[j + 1].0 == k2);
            }
        }
        if k2 == k {
            assert(u[i].0 == k2);
        }
        if has_key(u, k2) && k2 != k {
            let j = choose|j: int| 0 <= j < u.len() && u[j].0 == k2;
            if j < i {
                assert(before[j].0 == k2);
            } else {
                assert(before[j - 1].0 == k2);
            }
        }
    }
    assert(!has_key(before, k as int)) by {
        if has_key(before, k as int) {
            let j = choose|j: int| 0 <= j < before.len() && before[j].0 == k;
        }
    }
    lemma_delta_at_absent(before, k as int);
}

/// An ordered list of signed rate changes, at most one per time value.
#[derive(Clone, Debug)]
pub struct SkipList {
    keys: Vec<i128>,
    values: Vec<i128>,
}

/// Pairs the key column with the delta column.
spec fn zip_columns(keys: Seq<i128>, values: Seq<i128>) -> Seq<(i128, i128)> {
    Seq::new(keys.len(), |j: int| (keys[j], values[j]))
}

impl View for SkipList {
    type V = Seq<(i128, i128)>;

    closed spec fn view(&self) -> Seq<(i128, i128)> {
        zip_columns(self.keys@, self.values@)
    }
}

impl SkipList {
    /// The two columns have the same length.
    pub closed spec fn columns_match(&self) -> bool {
        self.keys@.len() == self.values@.len()
    }

    pub open spec fn wf(&self) -> bool {
        self.columns_match() && strictly_sorted(self@)
    }

    pub fn new() -> (r: Self)
        ensures
            r.wf(),
            r@ == Seq::<(i128, i128)>::empty(),
    {
        let r = SkipList { keys: Vec::new(), values: Vec::new() };
        assert(r@ =~= Seq::<(i128, i128)>::empty());
        r
    }

    pub fn len(&self) -> (r: usize)
        requires
            self.wf(),
        ensures
            r == self@.len(),
    {
        self.keys.len()
    }

    /// The entry at position `i` in time order.
    pub fn entry(&self, i: usize) -> (r: (i128, i128))
        requires
            self.wf(),
            i < self@.len(),
        ensures
            r == self@[i as int],
    {
        (self.keys[i], self.values[i])
    }

    /// Drops the first `index` entries.
    pub fn truncate_front(&mut self, index: usize)
        requires
            old(self).wf(),
            index <= old(self)@.len(),
        ensures
            final(self).wf(),
            final(self)@ == old(self)@.subrange(index as int, old(self)@.len() as int),
    {
        let ghost before = self@;
        let keys = self.keys.split_off(index);
        let values = self.values.split_off(index);
        self.keys = keys;
        self.values = values;
        assert(self@ =~= before.subrange(index as int, before.len() as int));
    }

    /// All entries in time order.
    pub fn iter(&self) -> (r: Vec<(i128, i128)>)
        requires
            self.wf(),
        ensures
            r@ == self@,
    {
        let mut r: Vec<(i128, i128)> = Vec::new();
        let mut i: usize = 0;
        while i < self.keys.len()
            invariant
                self.wf(),
                i <= self@.len(),
                r@ =~= self@.subrange(0, i as int),
            decreases self@.len() - i,
        {
            r.push((self.keys[i], self.values[i]));
            i = i + 1;
        }
        assert(r@ =~= self@);
        r
    }

    /// The position of the first key not below `k`.
    fn lower_bound(&self, k: i128) -> (r: usize)
        requires
            self.wf(),
        ensures
            r <= self@.len(),
            forall|j: int| 0 <= j < r ==> self@[j].0 < k,
            forall|j: int| r <= j < self@.len() ==> self@[j].0 >= k,
    {
        let mut lo: usize = 0;
        let mut hi: usize = self.keys.len();
        while lo < hi
            invariant
                self.wf(),
                lo <= hi <= self@.len(),
                forall|j: int| 0 <= j < lo ==> self@[j].0 < k,
                forall|j: int| hi <= j < self@.len() ==> self@[j].0 >= k,
            decreases hi - lo,
        {
            let mid = lo + (hi - lo) / 2;
            assert(self@[mid as int].0 == self.keys@[mid as int]);
            if self.keys[mid] < k {
                lo = mid + 1;
            } else {
                hi = mid;
            }
        }
        lo
    }

    /// A mutable reference to the delta at time `k`, creating a zero entry there first when
    /// there is none, so that repeated changes at one time merge into one entry.
    pub fn get_or_insert_mut(&mut self, k: i128) -> (r: &mut i128)
        requires
            old(self).wf(),
        ensures
            *r == delta_at(old(self)@, k as int),
            final(self).wf(),
            delta_at(final(self)@, k as int) == *final(r),
            forall|k2: int| k2 != k ==> delta_at(#[trigger] final(self)@, k2) == delta_at(old(self)@, k2),
            forall|k2: int| has_key(#[trigger] final(self)@, k2) == (has_key(old(self)@, k2) || k2 == k),
    {
        let ghost before = self@;
        let i = self.lower_bound(k);
        if i == self.keys.len() || self.keys[i] != k {
            proof {
                assert(!has_key(before, k as int)) by {
                    if has_key(before, k as int) {
                        let j = choose|j: int| 0 <= j < before.len() && before[j].0 == k;
                        assert(i <= j);
                        assert(before[i as int].0 == self.keys@[i as int]);
                    }
                }
                lemma_delta_at_absent(before, k as int);
            }
            self.values.insert(i, 0);
            self.keys.insert(i, k);
            proof {
                assert(self@ =~= before.insert(i as int, (k, 0i128)));
                lemma_insert_zero(before, i as int, k);
            }
        } else {
            proof {
                assert(before[i as int].0 == self.keys@[i as int]);
                assert(has_key(before, k as int));
                lemma_delta_at_index(before, i as int);
            }
        }
        let ghost mid = self@;
        let ghost keys = self.keys@;
        let ghost values = self.values@;
        proof {
            assert forall|x: i128| #[trigger] zip_columns(keys, values.update(i as int, x)) == mid.update(
                i as int,
                (k, x),
            ) by {
                assert(zip_columns(keys, values.update(i as int, x)) =~= mid.update(i as int, (k, x)));
            }
            assert forall|x: i128, k2: int|
                #![trigger delta_at(mid.update(i as int, (k, x)), k2)]
                delta_at(mid.update(i as int, (k, x)), k2) == (if k2 == k {
                    x as int
                } else {
                    delta_at(mid, k2)
                }) by {
                lemma_delta_at_update(mid, i as int, x, k2);
            }
            assert forall|x: i128, k2: int| #[trigger]
                has_key(mid.update(i as int, (k, x)), k2) == has_key(mid, k2) by {
                lemma_delta_at_update(mid, i as int, x, k2);
            }
            assert forall|x: i128| #[trigger] strictly_sorted(mid.update(i as int, (k, x))) by {
                lemma_delta_at_update(mid, i as int, x, 0);
            }
        }
        &mut self.values[i]
    }

    /// Adds `amount` to the delta at time `k`, creating the entry when there is none.
    pub fn accumulate(&mut self, k: i128, amount: i128)
        requires
            old(self).wf(),
            i128::MIN <= delta_at(old(self)@, k as int) + amount <= i128::MAX,
        ensures
            accumulated(old(self)@, final(self)@, k as int, amount as int),
            final(self).wf(),
    {
        let r = self.get_or_insert_mut(k);
        *r = *r + amount;
    }
}

/// `after` is `before` with `amount` added to the delta at time `k` and every other time left
/// as it was; `k` is a key of `after`.
pub open spec fn accumulated(
    before: Seq<(i128, i128)>,
    after: Seq<(i128, i128)>,
    k: int,
    amount: int,
) -> bool {
    &&& delta_at(after, k) == delta_at(before, k) + amount
    &&& forall|k2: int| k2 != k ==> #[trigger] delta_at(after, k2) == delta_at(before, k2)
    &&& forall|k2: int| #[trigger] has_key(after, k2) == (has_key(before, k2) || k2 == k)
}

/// Two changes at the same time merge into one entry that holds their sum.
pub proof fn lemma_accumulate_merges(
    s0: Seq<(i128, i128)>,
    s1: Seq<(i128, i128)>,
    s2: Seq<(i128, i128)>,
    k: int,
    a: int,
    b: int,
)
    requires
        strictly_sorted(s2),
        accumulated(s0, s1, k, a),
        accumulated(s1, s2, k, b),
    ensures
        delta_at(s2, k) == delta_at(s0, k) + a + b,
        forall|k2: int| k2 != k ==> #[trigger] delta_at(s2, k2) == delta_at(s0, k2),
        exists|i: int| 0 <= i < s2.len() && s2[i].0 == k,
        forall|i: int, j: int|
            0 <= i < s2.len() && 0 <= j < s2.len() && s2[i].0 == k && s2[j].0 == k ==> i == j,
{
    assert(has_key(s2, k));
    assert forall|k2: int| k2 != k implies #[trigger] delta_at(s2, k2) == delta_at(s0, k2) by {
        assert(delta_at(s1, k2) == delta_at(s0, k2));
    }
}

} // verus!
