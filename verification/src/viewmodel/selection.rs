//! A multiset of items picked for an experiment: each item with how many
//! are picked, in the order first picked.

use vstd::prelude::*;
use crate::game::Item;

verus! {

/// Items picked for an experiment, each with a positive count.
#[derive(Debug)]
pub struct ItemSelection {
    picked: Vec<(Item, u32)>,
}

/// No item occurs twice in `s`.
pub open spec fn distinct_entries(s: Seq<(Item, u32)>) -> bool {
    forall|a: int, b: int| 0 <= a < b < s.len() ==> (#[trigger] s[a]).0 != (#[trigger] s[b]).0
}

/// No item occurs twice in `s` and every count is positive: what a
/// selection always holds.
pub open spec fn sound_picks(s: Seq<(Item, u32)>) -> bool {
    &&& distinct_entries(s)
    &&& forall|k: int| 0 <= k < s.len() ==> (#[trigger] s[k]).1 > 0
}

/// How many of `item` `s` holds: its entry's count, zero when absent.
pub open spec fn picked_of(s: Seq<(Item, u32)>, item: Item) -> u32
    decreases s.len(),
{
    if s.len() == 0 {
        0
    } else if s[0].0 == item {
        s[0].1
    } else {
        picked_of(s.drop_first(), item)
    }
}

/// How many of `item` the stock `inv` holds: its first entry's count, zero
/// when absent.
pub open spec fn stock_of(inv: Seq<(Item, u32)>, item: Item) -> u32 {
    picked_of(inv, item)
}

/// The entries of `s` cut down to what `inv` holds, emptied ones dropped.
pub open spec fn clamped(s: Seq<(Item, u32)>, inv: Seq<(Item, u32)>) -> Seq<(Item, u32)>
    decreases s.len(),
{
    if s.len() == 0 {
        seq![]
    } else {
        let rest = clamped(s.drop_last(), inv);
        let (item, q) = s.last();
        let owned = stock_of(inv, item);
        let kept = if q < owned { q } else { owned };
        if kept > 0 { rest.push((item, kept)) } else { rest }
    }
}

proof fn lemma_picked_at(s: Seq<(Item, u32)>, k: int)
    requires
        distinct_entries(s),
        0 <= k < s.len(),
    ensures
        picked_of(s, s[k].0) == s[k].1,
    decreases k,
{
    if k > 0 {
        assert(s[0].0 != s[k].0);
        assert(distinct_entries(s.drop_first()));
        assert(s.drop_first()[k - 1] == s[k]);
        lemma_picked_at(s.drop_first(), k - 1);
    }
}

proof fn lemma_picked_absent(s: Seq<(Item, u32)>, item: Item)
    requires
        forall|k: int| 0 <= k < s.len() ==> (#[trigger] s[k]).0 != item,
    ensures
        picked_of(s, item) == 0,
    decreases s.len(),
{
    if s.len() > 0 {
        assert(s[0].0 != item);
        assert forall|k: int| 0 <= k < s.drop_first().len() implies (#[trigger] s.drop_first()[k]).0 != item by {
            assert(s.drop_first()[k] == s[k + 1]);
        }
        lemma_picked_absent(s.drop_first(), item);
    }
}

proof fn lemma_picked_first(s: Seq<(Item, u32)>, k: int)
    requires
        0 <= k < s.len(),
        forall|j: int| 0 <= j < k ==> (#[trigger] s[j]).0 != s[k].0,
    ensures
        picked_of(s, s[k].0) == s[k].1,
    decreases k,
{
    if k > 0 {
        assert(s[0].0 != s[k].0);
        assert forall|j: int| 0 <= j < k - 1 implies (#[trigger] s.drop_first()[j]).0 != s.drop_first()[k - 1].0 by {
            assert(s.drop_first()[j] == s[j + 1]);
        }
        lemma_picked_first(s.drop_first(), k - 1);
    }
}

fn find_entry(s: &[(Item, u32)], item: Item) -> (r: Option<usize>)
    ensures
        match r {
            Some(k) => k < s@.len() && s@[k as int].0 == item && forall|j: int| 0 <= j < k ==> (#[trigger] s@[j]).0 != item,
            None => forall|j: int| 0 <= j < s@.len() ==> (#[trigger] s@[j]).0 != item,
        },
{
    let mut i: usize = 0;
    while i < s.len()
        invariant
            i <= s@.len(),
            forall|j: int| 0 <= j < i ==> (#[trigger] s@[j]).0 != item,
        decreases s.len() - i,
    {
        if s[i].0 == item {
            return Some(i);
        }
        i = i + 1;
    }
    None
}

fn first_count(s: &[(Item, u32)], item: Item) -> (r: u32)
    ensures
        r == picked_of(s@, item),
{
    match find_entry(s, item) {
        Some(k) => {
            proof {
                lemma_picked_first(s@, k as int);
            }
            s[k].1
        },
        None => {
            proof {
                lemma_picked_absent(s@, item);
            }
            0
        },
    }
}

impl View for ItemSelection {
    type V = Seq<(Item, u32)>;

    closed spec fn view(&self) -> Seq<(Item, u32)> {
        self.picked@
    }
}

impl ItemSelection {
    #[verifier::type_invariant]
    closed spec fn well_formed(self) -> bool {
        &&& distinct_entries(self.picked@)
        &&& forall|k: int| 0 <= k < self.picked@.len() ==> (#[trigger] self.picked@[k]).1 > 0
    }

    /// Nothing picked.
    pub fn new() -> (r: ItemSelection)
        ensures
            r@ == Seq::<(Item, u32)>::empty(),
            sound_picks(r@),
    {
        ItemSelection { picked: Vec::new() }
    }

    /// The picked items with their counts, in the order first picked.
    pub fn items(&self) -> (r: &[(Item, u32)])
        ensures
            r@ == self@,
            sound_picks(r@),
    {
        proof {
            use_type_invariant(self);
        }
        self.picked.as_slice()
    }

    /// Whether nothing is picked.
    pub fn is_empty(&self) -> (r: bool)
        ensures
            r == (self@.len() == 0),
    {
        self.picked.len() == 0
    }

    /// How many of `item` are picked.
    pub fn quantity(&self, item: Item) -> (r: u32)
        ensures
            r == picked_of(self@, item),
    {
        first_count(self.picked.as_slice(), item)
    }

    /// Picks one more `item`, unless as many as are `owned` are already
    /// picked.
    pub fn add(&mut self, item: Item, owned: u32)
        ensures
            picked_of(old(self)@, item) >= owned ==> final(self)@ == old(self)@,
            picked_of(old(self)@, item) < owned ==> match find_index(old(self)@, item) {
                Some(k) => final(self)@ == old(self)@.update(k, (item, (old(self)@[k].1 + 1) as u32)),
                None => final(self)@ == old(self)@.push((item, 1u32)),
            },
            picked_of(final(self)@, item) == if picked_of(old(self)@, item) < owned {
                picked_of(old(self)@, item) + 1
            } else {
                picked_of(old(self)@, item) as int
            },
            sound_picks(old(self)@),
            sound_picks(final(self)@),
    {
        proof {
            use_type_invariant(&*self);
        }
        let have = self.quantity(item);
        if have >= owned {
            return;
        }
        let ghost before = self.picked@;
        let mut next = crate::seqs::copy_vec(&self.picked);
        match find_entry(self.picked.as_slice(), item) {
            Some(k) => {
                proof {
                    lemma_picked_at(before, k as int);
                    lemma_find_index(before, item, k as int);
                }
                next.set(k, (item, self.picked[k].1 + 1));
                proof {
                    assert(distinct_entries(next@)) by {
                        assert forall|a: int, b: int| 0 <= a < b < next@.len() implies (#[trigger] next@[a]).0 != (#[trigger] next@[b]).0 by {
                            assert(next@[a].0 == before[a].0);
                            assert(next@[b].0 == before[b].0);
                        }
                    }
                    lemma_picked_at(next@, k as int);
                }
                self.picked = next;
            },
            None => {
                proof {
                    lemma_find_index_none(before, item);
                }
                next.push((item, 1));
                proof {
                    assert(next@[before.len() as int] == (item, 1u32));
                    assert forall|a: int, b: int| 0 <= a < b < next@.len() implies (#[trigger] next@[a]).0 != (#[trigger] next@[b]).0 by {
                        assert(next@[a] == before[a]);
                        if b < before.len() {
                            assert(next@[b] == before[b]);
                        }
                    }
                    assert forall|k: int| 0 <= k < next@.len() implies (#[trigger] next@[k]).1 > 0 by {
                        if k < before.len() {
                            assert(next@[k] == before[k]);
                        }
                    }
                    lemma_picked_at(next@, before.len() as int);
                    lemma_picked_absent(before, item);
                }
                self.picked = next;
            },
        }
        proof {
            use_type_invariant(&*self);
        }
    }

    /// Takes one unit off the entry at `index`, dropping the entry once it
    /// reaches zero. Returns whether an entry was dropped; an index past the
    /// end changes nothing.
    pub fn decrement_at(&mut self, index: usize) -> (r: bool)
        ensures
            index >= old(self)@.len() ==> final(self)@ == old(self)@ && !r,
            index < old(self)@.len() ==> {
                let q = old(self)@[index as int].1;
                &&& r == (q == 1)
                &&& final(self)@ == if q == 1 {
                    old(self)@.remove(index as int)
                } else {
                    old(self)@.update(index as int, (old(self)@[index as int].0, (q - 1) as u32))
                }
            },
            sound_picks(old(self)@),
            sound_picks(final(self)@),
    {
        proof {
            use_type_invariant(&*self);
        }
        if index >= self.picked.len() {
            return false;
        }
        let (item, q) = self.picked[index];
        let ghost before = self.picked@;
        let mut next = crate::seqs::copy_vec(&self.picked);
        if q - 1 == 0 {
            next.remove(index);
            proof {
                assert forall|a: int, b: int| 0 <= a < b < next@.len() implies (#[trigger] next@[a]).0 != (#[trigger] next@[b]).0 by {
                    let a0 = if a < index { a } else { a + 1 };
                    let b0 = if b < index { b } else { b + 1 };
                    assert(next@[a] == before[a0]);
                    assert(next@[b] == before[b0]);
                }
                assert forall|k: int| 0 <= k < next@.len() implies (#[trigger] next@[k]).1 > 0 by {
                    if k < index {
                        assert(next@[k] == before[k]);
                    } else {
                        assert(next@[k] == before[k + 1]);
                    }
                }
            }
            self.picked = next;
            proof {
                use_type_invariant(&*self);
            }
            true
        } else {
            next.set(index, (item, q - 1));
            proof {
                assert forall|a: int, b: int| 0 <= a < b < next@.len() implies (#[trigger] next@[a]).0 != (#[trigger] next@[b]).0 by {
                    assert(next@[a].0 == before[a].0);
                    assert(next@[b].0 == before[b].0);
                }
            }
            self.picked = next;
            proof {
                use_type_invariant(&*self);
            }
            false
        }
    }

    /// Cuts each picked count down to what `inventory` holds, dropping
    /// entries the inventory no longer covers at all.
    pub fn clamp_to(&mut self, inventory: &[(Item, u32)])
        ensures
            final(self)@ == clamped(old(self)@, inventory@),
            sound_picks(old(self)@),
            sound_picks(final(self)@),
    {
        proof {
            use_type_invariant(&*self);
        }
        let mut next: Vec<(Item, u32)> = Vec::new();
        let mut i: usize = 0;
        while i < self.picked.len()
            invariant
                i <= self.picked@.len(),
                distinct_entries(self.picked@),
                next@ == clamped(self.picked@.subrange(0, i as int), inventory@),
                distinct_entries(next@),
                forall|k: int| 0 <= k < next@.len() ==> (#[trigger] next@[k]).1 > 0,
                forall|k: int| 0 <= k < next@.len() ==> exists|j: int| 0 <= j < i && self.picked@[j].0 == (#[trigger] next@[k]).0,
            decreases self.picked.len() - i,
        {
            let (item, q) = self.picked[i];
            let owned = first_count(inventory, item);
            let kept = if q < owned { q } else { owned };
            proof {
                assert(self.picked@.subrange(0, i as int + 1).drop_last() =~= self.picked@.subrange(0, i as int));
            }
            if kept > 0 {
                proof {
                    assert forall|k: int| 0 <= k < next@.len() implies (#[trigger] next@[k]).0 != item by {
                        let j = choose|j: int| 0 <= j < i && self.picked@[j].0 == next@[k].0;
                        assert(self.picked@[j].0 != self.picked@[i as int].0);
                    }
                }
                next.push((item, kept));
                proof {
                    assert forall|k: int| 0 <= k < next@.len() implies exists|j: int| 0 <= j < i + 1 && self.picked@[j].0 == (#[trigger] next@[k]).0 by {
                        if k == next@.len() - 1 {
                            assert(self.picked@[i as int].0 == next@[k].0);
                        } else {
                            let j = choose|j: int| 0 <= j < i && self.picked@[j].0 == next@[k].0;
                        }
                    }
                }
            }
            i = i + 1;
        }
        assert(self.picked@.subrange(0, self.picked@.len() as int) =~= self.picked@);
        self.picked = next;
        proof {
            use_type_invariant(&*self);
        }
    }

    /// The inventory less what is picked: each entry's count minus the
    /// picked count, floored at zero.
    pub fn available(&self, inventory: &[(Item, u32)]) -> (r: Vec<(Item, u32)>)
        ensures
            r@.len() == inventory@.len(),
            forall|k: int| 0 <= k < r@.len() ==> (#[trigger] r@[k]).0 == inventory@[k].0
                && r@[k].1 == if inventory@[k].1 >= picked_of(self@, inventory@[k].0) {
                    (inventory@[k].1 - picked_of(self@, inventory@[k].0)) as u32
                } else {
                    0u32
                },
    {
        let mut r: Vec<(Item, u32)> = Vec::new();
        let mut i: usize = 0;
        while i < inventory.len()
            invariant
                i <= inventory@.len(),
                r@.len() == i,
                forall|k: int| 0 <= k < i ==> (#[trigger] r@[k]).0 == inventory@[k].0
                    && r@[k].1 == if inventory@[k].1 >= picked_of(self@, inventory@[k].0) {
                        (inventory@[k].1 - picked_of(self@, inventory@[k].0)) as u32
                    } else {
                        0u32
                    },
            decreases inventory.len() - i,
        {
            let (item, owned) = inventory[i];
            let q = self.quantity(item);
            let left = if owned >= q { owned - q } else { 0 };
            r.push((item, left));
            i = i + 1;
        }
        r
    }

    /// Hands out the picks, leaving nothing picked.
    pub fn take(&mut self) -> (r: Vec<(Item, u32)>)
        ensures
            r@ == old(self)@,
            final(self)@ == Seq::<(Item, u32)>::empty(),
            sound_picks(r@),
    {
        proof {
            use_type_invariant(&*self);
        }
        let out = crate::seqs::copy_vec(&self.picked);
        self.picked = Vec::new();
        out
    }
}

/// The position of `item` in `s`, if present.
pub open spec fn find_index(s: Seq<(Item, u32)>, item: Item) -> Option<int> {
    if exists|k: int| 0 <= k < s.len() && s[k].0 == item {
        Some(choose|k: int| 0 <= k < s.len() && s[k].0 == item)
    } else {
        None
    }
}

proof fn lemma_find_index(s: Seq<(Item, u32)>, item: Item, k: int)
    requires
        distinct_entries(s),
        0 <= k < s.len(),
        s[k].0 == item,
    ensures
        find_index(s, item) == Some(k),
{
    let c = choose|c: int| 0 <= c < s.len() && s[c].0 == item;
    if c != k {
        if c < k {
            assert(s[c].0 != s[k].0);
        } else {
            assert(s[k].0 != s[c].0);
        }
    }
}

proof fn lemma_find_index_none(s: Seq<(Item, u32)>, item: Item)
    requires
        forall|j: int| 0 <= j < s.len() ==> (#[trigger] s[j]).0 != item,
    ensures
        find_index(s, item) == None::<int>,
{
}

impl Default for ItemSelection {
    fn default() -> (r: ItemSelection)
        ensures
            r@ == Seq::<(Item, u32)>::empty(),
            sound_picks(r@),
    {
        ItemSelection::new()
    }
}

} // verus!
