//! A count of each kind of item held: the shape of both the village storage
//! and the bag the player carries.

use vstd::prelude::*;
use super::item::{Item, ITEM_KINDS, item_rank, item_at, lemma_rank_item_at};

verus! {

/// How many of each item are held. An item may be present with a count of
/// zero, or absent; both read as zero.
#[derive(Debug)]
pub struct ItemCounts {
    slots: Vec<Option<u32>>,
}

/// The sum of the counts held in the first `n` slots.
pub open spec fn slot_sum(s: Seq<Option<u32>>, n: int) -> int
    decreases n,
{
    if n <= 0 {
        0
    } else {
        slot_sum(s, n - 1) + match s[n - 1] {
            Some(v) => v as int,
            None => 0,
        }
    }
}

/// The count a slot holds, zero when empty.
pub open spec fn slot_value(o: Option<u32>) -> int {
    match o {
        Some(v) => v as int,
        None => 0,
    }
}

proof fn lemma_slot_sum_update(s: Seq<Option<u32>>, k: int, o: Option<u32>, n: int)
    requires
        0 <= k < s.len(),
        0 <= n <= s.len(),
    ensures
        slot_sum(s.update(k, o), n) == slot_sum(s, n) + if k < n {
            slot_value(o) - slot_value(s[k])
        } else {
            0
        },
    decreases n,
{
    if n > 0 {
        lemma_slot_sum_update(s, k, o, n - 1);
    }
}

proof fn lemma_slot_sum_bounds(s: Seq<Option<u32>>, n: int)
    requires
        0 <= n <= s.len(),
    ensures
        0 <= slot_sum(s, n) <= n * (u32::MAX as int),
    decreases n,
{
    if n > 0 {
        lemma_slot_sum_bounds(s, n - 1);
    }
}

proof fn lemma_slot_sum_one(s: Seq<Option<u32>>, k: int, n: int)
    requires
        0 <= k < n <= s.len(),
    ensures
        slot_value(s[k]) <= slot_sum(s, n),
    decreases n,
{
    lemma_slot_sum_bounds(s, n - 1);
    if k < n - 1 {
        lemma_slot_sum_one(s, k, n - 1);
    }
}

proof fn lemma_slot_sum_empty(s: Seq<Option<u32>>, n: int)
    requires
        0 <= n <= s.len(),
        forall|i: int| 0 <= i < n ==> s[i] is None,
    ensures
        slot_sum(s, n) == 0,
    decreases n,
{
    if n > 0 {
        lemma_slot_sum_empty(s, n - 1);
    }
}

impl View for ItemCounts {
    type V = Map<Item, u32>;

    closed spec fn view(&self) -> Map<Item, u32> {
        Map::new(
            |i: Item| self.slots@[item_rank(i) as int] is Some,
            |i: Item| self.slots@[item_rank(i) as int].unwrap(),
        )
    }
}

/// The sum of the counts of the first `n` kinds of item in `m`.
pub open spec fn total_upto(m: Map<Item, u32>, n: int) -> int
    decreases n,
{
    if n <= 0 {
        0
    } else {
        total_upto(m, n - 1) + count_in(m, item_at(n - 1))
    }
}

/// The sum of every count in `m`.
pub open spec fn view_total(m: Map<Item, u32>) -> int {
    total_upto(m, ITEM_KINDS as int)
}

proof fn lemma_total_insert(m: Map<Item, u32>, item: Item, q: u32, n: int)
    requires
        0 <= n <= ITEM_KINDS,
    ensures
        total_upto(m.insert(item, q), n) == total_upto(m, n) + if item_rank(item) < n { q - count_in(m, item) } else { 0 },
    decreases n,
{
    if n > 0 {
        lemma_total_insert(m, item, q, n - 1);
        lemma_rank_item_at();
        if item_at(n - 1) == item {
            assert(item_rank(item) == n - 1);
        } else {
            assert(item_rank(item) != n - 1);
        }
    }
}

proof fn lemma_total_remove(m: Map<Item, u32>, item: Item, n: int)
    requires
        0 <= n <= ITEM_KINDS,
    ensures
        total_upto(m.remove(item), n) == total_upto(m, n) - if item_rank(item) < n { count_in(m, item) as int } else { 0 },
    decreases n,
{
    if n > 0 {
        lemma_total_remove(m, item, n - 1);
        lemma_rank_item_at();
        if item_at(n - 1) == item {
            assert(item_rank(item) == n - 1);
        } else {
            assert(item_rank(item) != n - 1);
        }
    }
}

proof fn lemma_total_bounds(m: Map<Item, u32>, n: int)
    requires
        0 <= n <= ITEM_KINDS,
    ensures
        0 <= total_upto(m, n) <= n * (u32::MAX as int),
    decreases n,
{
    if n > 0 {
        lemma_total_bounds(m, n - 1);
    }
}

proof fn lemma_total_one(m: Map<Item, u32>, item: Item, n: int)
    requires
        0 <= item_rank(item) < n <= ITEM_KINDS,
    ensures
        count_in(m, item) <= total_upto(m, n),
    decreases n,
{
    lemma_total_bounds(m, n - 1);
    lemma_rank_item_at();
    if item_rank(item) < n - 1 {
        lemma_total_one(m, item, n - 1);
    } else {
        assert(item_at(n - 1) == item);
    }
}

proof fn lemma_total_empty(n: int)
    requires
        0 <= n <= ITEM_KINDS,
    ensures
        total_upto(Map::<Item, u32>::empty(), n) == 0,
    decreases n,
{
    if n > 0 {
        lemma_total_empty(n - 1);
    }
}

/// The count of `item` in `m`, zero when absent.
pub open spec fn count_in(m: Map<Item, u32>, item: Item) -> nat {
    if m.contains_key(item) {
        m[item] as nat
    } else {
        0
    }
}

/// `m` with `amount` more of `item`.
pub open spec fn add_map(m: Map<Item, u32>, item: Item, amount: u32) -> Map<Item, u32> {
    m.insert(item, (count_in(m, item) + amount) as u32)
}

/// `m` with `amount` of `item` removed, the entry dropped once it reaches
/// zero; unchanged when `item` is absent.
pub open spec fn spend_map(m: Map<Item, u32>, item: Item, amount: u32) -> Map<Item, u32> {
    if !m.contains_key(item) {
        m
    } else if m[item] == amount {
        m.remove(item)
    } else {
        m.insert(item, (m[item] - amount) as u32)
    }
}

/// Adding `amount` of an item adds `amount` to the total.
pub proof fn lemma_total_add(m: Map<Item, u32>, item: Item, amount: u32)
    requires
        count_in(m, item) + amount <= u32::MAX,
    ensures
        view_total(add_map(m, item, amount)) == view_total(m) + amount,
{
    lemma_rank_item_at();
    lemma_total_insert(m, item, (count_in(m, item) + amount) as u32, ITEM_KINDS as int);
}

/// No item is held more often than all items together.
pub proof fn lemma_count_le_total(m: Map<Item, u32>, item: Item)
    ensures
        count_in(m, item) <= view_total(m),
{
    lemma_rank_item_at();
    lemma_total_one(m, item, ITEM_KINDS as int);
}

/// The map a list of `(item, count)` pairs describes, a later pair for an
/// item replacing an earlier one.
pub open spec fn pairs_map(pairs: Seq<(Item, u32)>) -> Map<Item, u32>
    decreases pairs.len(),
{
    if pairs.len() == 0 {
        Map::empty()
    } else {
        pairs_map(pairs.drop_last()).insert(pairs.last().0, pairs.last().1)
    }
}

/// `pairs` lists exactly the entries of `m`, each item once.
pub open spec fn lists_entries(pairs: Seq<(Item, u32)>, m: Map<Item, u32>) -> bool {
    &&& forall|k: int| 0 <= k < pairs.len() ==> m.contains_key(#[trigger] pairs[k].0) && m[pairs[k].0] == pairs[k].1
    &&& forall|i: Item| #[trigger] m.contains_key(i) ==> exists|k: int| 0 <= k < pairs.len() && pairs[k].0 == i
    &&& forall|a: int, b: int| 0 <= a < b < pairs.len() ==> (#[trigger] pairs[a]).0 != (#[trigger] pairs[b]).0
}

/// A list of a map's entries, each item once, describes that map.
pub proof fn lemma_listed_entries_map(pairs: Seq<(Item, u32)>, m: Map<Item, u32>)
    requires
        lists_entries(pairs, m),
    ensures
        pairs_map(pairs) == m,
    decreases pairs.len(),
{
    if pairs.len() == 0 {
        assert(m =~= Map::<Item, u32>::empty()) by {
            assert forall|i: Item| !m.contains_key(i) by {
                if m.contains_key(i) {
                    let k = choose|k: int| 0 <= k < pairs.len() && pairs[k].0 == i;
                }
            }
        }
    } else {
        let last = pairs.last();
        let rest = pairs.drop_last();
        let m2 = m.remove(last.0);
        assert(lists_entries(rest, m2)) by {
            assert forall|k: int| 0 <= k < rest.len() implies m2.contains_key(#[trigger] rest[k].0) && m2[rest[k].0] == rest[k].1 by {
                assert(pairs[k] == rest[k]);
                assert(pairs[k].0 != pairs[pairs.len() - 1].0);
            }
            assert forall|i: Item| #[trigger] m2.contains_key(i) implies exists|k: int| 0 <= k < rest.len() && rest[k].0 == i by {
                let k = choose|k: int| 0 <= k < pairs.len() && pairs[k].0 == i;
                assert(k != pairs.len() - 1);
                assert(rest[k] == pairs[k]);
            }
            assert forall|a: int, b: int| 0 <= a < b < rest.len() implies (#[trigger] rest[a]).0 != (#[trigger] rest[b]).0 by {
                assert(rest[a] == pairs[a] && rest[b] == pairs[b]);
            }
        }
        lemma_listed_entries_map(rest, m2);
        assert(pairs[pairs.len() - 1] == last);
        assert(pairs_map(pairs) =~= m);
    }
}

impl ItemCounts {
    #[verifier::type_invariant]
    closed spec fn well_formed(self) -> bool {
        self.slots@.len() == ITEM_KINDS
    }

    /// The count of `item`, zero when absent.
    pub open spec fn count_of(&self, item: Item) -> nat {
        count_in(self@, item)
    }

    /// The sum of every count held.
    pub open spec fn spec_total(&self) -> int {
        view_total(self@)
    }

    proof fn lemma_slots_total(&self, n: int)
        requires
            self.slots@.len() == ITEM_KINDS,
            0 <= n <= ITEM_KINDS,
        ensures
            slot_sum(self.slots@, n) == total_upto(self@, n),
        decreases n,
    {
        if n > 0 {
            self.lemma_slots_total(n - 1);
            lemma_rank_item_at();
            assert(item_rank(item_at(n - 1)) == n - 1);
        }
    }

    /// One item's count never exceeds the total.
    pub fn check_count_le_total(&self, item: Item)
        ensures
            self.count_of(item) <= self.spec_total(),
            self.spec_total() <= ITEM_KINDS * (u32::MAX as int),
    {
        proof {
            lemma_rank_item_at();
            lemma_total_one(self@, item, ITEM_KINDS as int);
            lemma_total_bounds(self@, ITEM_KINDS as int);
        }
    }

    /// Nothing held.
    pub fn new() -> (r: ItemCounts)
        ensures
            r@ == Map::<Item, u32>::empty(),
            r.spec_total() == 0,
    {
        let mut slots: Vec<Option<u32>> = Vec::new();
        let mut k: usize = 0;
        while k < ITEM_KINDS
            invariant
                k <= ITEM_KINDS,
                slots@.len() == k,
                forall|j: int| 0 <= j < k ==> slots@[j] is None,
            decreases ITEM_KINDS - k,
        {
            slots.push(None);
            k = k + 1;
        }
        let r = ItemCounts { slots };
        proof {
            lemma_rank_item_at();
        }
        assert(r@ =~= Map::<Item, u32>::empty());
        proof {
            lemma_total_empty(ITEM_KINDS as int);
        }
        r
    }

    /// A map from a list of `(item, count)` pairs; a later pair for the same
    /// item replaces an earlier one.
    pub fn from_pairs(pairs: &Vec<(Item, u32)>) -> (r: ItemCounts)
        ensures
            r@ == pairs_map(pairs@),
    {
        let mut r = ItemCounts::new();
        let mut k: usize = 0;
        while k < pairs.len()
            invariant
                k <= pairs@.len(),
                r@ == pairs_map(pairs@.take(k as int)),
            decreases pairs.len() - k,
        {
            let (item, v) = pairs[k];
            r.insert(item, v);
            assert(pairs@.take(k + 1).drop_last() =~= pairs@.take(k as int));
            k = k + 1;
        }
        assert(pairs@.take(pairs@.len() as int) =~= pairs@);
        r
    }

    /// The count of `item`, if it is present.
    pub fn get(&self, item: &Item) -> (r: Option<&u32>)
        ensures
            match r {
                Some(v) => self@.contains_key(*item) && *v == self@[*item],
                None => !self@.contains_key(*item),
            },
    {
        proof {
            use_type_invariant(self);
            lemma_rank_item_at();
        }
        let k = item.rank() as usize;
        match &self.slots[k] {
            Some(v) => Some(v),
            None => None,
        }
    }

    /// The count of `item`, zero when absent.
    pub fn count(&self, item: Item) -> (r: u32)
        ensures
            r == self.count_of(item),
    {
        proof {
            use_type_invariant(self);
            lemma_rank_item_at();
        }
        let k = item.rank() as usize;
        match self.slots[k] {
            Some(v) => v,
            None => 0,
        }
    }

    /// Sets the count of `item`, returning its previous count if present.
    pub fn insert(&mut self, item: Item, quantity: u32) -> (r: Option<u32>)
        ensures
            final(self)@ == old(self)@.insert(item, quantity),
            r == (if old(self)@.contains_key(item) { Some(old(self)@[item]) } else { None }),
            final(self).spec_total() == old(self).spec_total() - old(self).count_of(item) + quantity,
    {
        proof {
            use_type_invariant(&*self);
            lemma_rank_item_at();
        }
        let k = item.rank() as usize;
        let prev = self.slots[k];
        let ghost before = self.slots@;
        let mut slots = crate::seqs::copy_vec(&self.slots);
        slots.set(k, Some(quantity));
        self.slots = slots;
        proof {
            lemma_item_rank_all();
        }
        assert(self@ =~= old(self)@.insert(item, quantity));
        proof {
            lemma_total_insert(old(self)@, item, quantity, ITEM_KINDS as int);
        }
        prev
    }

    /// Removes `item`, returning its count if it was present.
    pub fn remove(&mut self, item: &Item) -> (r: Option<u32>)
        ensures
            final(self)@ == old(self)@.remove(*item),
            r == (if old(self)@.contains_key(*item) { Some(old(self)@[*item]) } else { None }),
            final(self).spec_total() == old(self).spec_total() - old(self).count_of(*item),
    {
        proof {
            use_type_invariant(&*self);
            lemma_rank_item_at();
        }
        let k = item.rank() as usize;
        let prev = self.slots[k];
        let ghost before = self.slots@;
        let mut slots = crate::seqs::copy_vec(&self.slots);
        slots.set(k, None);
        self.slots = slots;
        proof {
            lemma_item_rank_all();
        }
        assert(self@ =~= old(self)@.remove(*item));
        proof {
            lemma_total_remove(old(self)@, *item, ITEM_KINDS as int);
        }
        prev
    }

    /// Adds `amount` to the count of `item`, creating the entry if needed.
    pub fn add(&mut self, item: Item, amount: u32)
        requires
            old(self).count_of(item) + amount <= u32::MAX,
        ensures
            final(self)@ == add_map(old(self)@, item, amount),
            final(self).spec_total() == old(self).spec_total() + amount,
    {
        let c = self.count(item);
        self.insert(item, c + amount);
    }

    /// Removes `amount` of `item`, dropping the entry once it reaches zero.
    /// Does nothing when `item` is absent.
    pub fn spend(&mut self, item: Item, amount: u32)
        requires
            old(self)@.contains_key(item) ==> amount <= old(self)@[item],
        ensures
            final(self)@ == spend_map(old(self)@, item, amount),
            final(self).spec_total() == old(self).spec_total() - if old(self)@.contains_key(item) { amount as int } else { 0 },
    {
        match self.get(&item) {
            Some(remaining) => {
                let left = *remaining - amount;
                if left == 0 {
                    self.remove(&item);
                } else {
                    self.insert(item, left);
                }
            },
            None => {},
        }
    }

    /// Whether nothing is present (not even a zero count).
    pub fn is_empty(&self) -> (r: bool)
        ensures
            r == (self@.dom() =~= Set::<Item>::empty()),
    {
        proof {
            use_type_invariant(self);
            lemma_rank_item_at();
        }
        let mut k: usize = 0;
        while k < ITEM_KINDS
            invariant
                k <= ITEM_KINDS,
                self.slots@.len() == ITEM_KINDS,
                forall|j: int| 0 <= j < k ==> self.slots@[j] is None,
            decreases ITEM_KINDS - k,
        {
            if self.slots[k].is_some() {
                assert(self@.contains_key(item_at(k as int)));
                return false;
            }
            k = k + 1;
        }
        assert(self@.dom() =~= Set::<Item>::empty());
        true
    }

    /// The present entries, in item order.
    pub fn entries(&self) -> (r: Vec<(Item, u32)>)
        ensures
            forall|k: int| 0 <= k < r@.len() ==> self@.contains_key(#[trigger] r@[k].0) && self@[r@[k].0] == r@[k].1,
            forall|i: Item| #[trigger] self@.contains_key(i) ==> exists|k: int| 0 <= k < r@.len() && r@[k].0 == i,
            forall|a: int, b: int| 0 <= a < b < r@.len() ==> item_rank(#[trigger] r@[a].0) < item_rank(#[trigger] r@[b].0),
    {
        proof {
            use_type_invariant(self);
            lemma_rank_item_at();
        }
        let mut r: Vec<(Item, u32)> = Vec::new();
        let mut k: usize = 0;
        while k < ITEM_KINDS
            invariant
                k <= ITEM_KINDS,
                self.slots@.len() == ITEM_KINDS,
                forall|i: Item| #[trigger] item_at(item_rank(i) as int) == i,
                forall|r: int| 0 <= r < ITEM_KINDS ==> #[trigger] item_rank(item_at(r)) == r,
                forall|j: int| 0 <= j < r@.len() ==> self@.contains_key(#[trigger] r@[j].0) && self@[r@[j].0] == r@[j].1 && item_rank(r@[j].0) < k,
                forall|i: Item| #[trigger] self@.contains_key(i) && item_rank(i) < k ==> exists|j: int| 0 <= j < r@.len() && r@[j].0 == i,
                forall|a: int, b: int| 0 <= a < b < r@.len() ==> item_rank(#[trigger] r@[a].0) < item_rank(#[trigger] r@[b].0),
            decreases ITEM_KINDS - k,
        {
            let ghost prev = r@;
            match self.slots[k] {
                Some(v) => {
                    let item = Item::from_rank(k);
                    r.push((item, v));
                    assert(r@[r@.len() - 1].0 == item);
                },
                None => {},
            }
            assert forall|i: Item| #[trigger] self@.contains_key(i) && item_rank(i) < k + 1
                implies exists|j: int| 0 <= j < r@.len() && r@[j].0 == i by {
                if item_rank(i) == k {
                    assert(item_at(k as int) == i);
                    assert(r@[r@.len() - 1].0 == i);
                } else {
                    let j = choose|j: int| 0 <= j < prev.len() && prev[j].0 == i;
                    assert(r@[j] == prev[j]);
                }
            }
            k = k + 1;
        }
        r
    }

    /// The sum of every count held.
    pub fn total(&self) -> (r: u64)
        ensures
            r == self.spec_total(),
    {
        proof {
            use_type_invariant(self);
            self.lemma_slots_total(ITEM_KINDS as int);
        }
        let mut sum: u64 = 0;
        let mut k: usize = 0;
        while k < ITEM_KINDS
            invariant
                k <= ITEM_KINDS,
                self.slots@.len() == ITEM_KINDS,
                sum == slot_sum(self.slots@, k as int),
            decreases ITEM_KINDS - k,
        {
            proof {
                lemma_slot_sum_bounds(self.slots@, k as int + 1);
            }
            match self.slots[k] {
                Some(v) => {
                    sum = sum + v as u64;
                },
                None => {},
            }
            k = k + 1;
        }
        sum
    }

    /// A copy with the same counts.
    pub fn copy(&self) -> (r: ItemCounts)
        ensures
            r@ == self@,
            r.spec_total() == self.spec_total(),
    {
        proof {
            use_type_invariant(self);
        }
        ItemCounts { slots: crate::seqs::copy_vec(&self.slots) }
    }
}

proof fn lemma_item_rank_all()
    ensures
        forall|a: Item, b: Item| item_rank(a) == item_rank(b) ==> a == b,
{
    lemma_rank_item_at();
}

impl Default for ItemCounts {
    fn default() -> (r: ItemCounts)
        ensures
            r@ == Map::<Item, u32>::empty(),
    {
        ItemCounts::new()
    }
}

} // verus!
