//! Item lists for display: what storage holds, and storage and bag
//! together, in item order.

use vstd::prelude::*;
use crate::game::{Item, Player, ItemCounts};
use crate::game::item::{item_at, ITEM_KINDS};
use crate::game::counts::count_in;

verus! {

/// The entries with a positive count among the first `k` kinds of item in
/// `m`, in item order.
pub open spec fn listing(m: Map<Item, u32>, k: int) -> Seq<(Item, u32)>
    decreases k,
{
    if k <= 0 {
        seq![]
    } else {
        let rest = listing(m, k - 1);
        let it = item_at(k - 1);
        if count_in(m, it) > 0 { rest.push((it, count_in(m, it) as u32)) } else { rest }
    }
}

/// Every entry with a positive count in `m`, in item order.
pub open spec fn sorted_listing(m: Map<Item, u32>) -> Seq<(Item, u32)> {
    listing(m, ITEM_KINDS as int)
}

/// The entries with a positive combined count in `a` and `b` among the
/// first `k` kinds of item, in item order.
pub open spec fn combined_listing(a: Map<Item, u32>, b: Map<Item, u32>, k: int) -> Seq<(Item, u32)>
    decreases k,
{
    if k <= 0 {
        seq![]
    } else {
        let rest = combined_listing(a, b, k - 1);
        let it = item_at(k - 1);
        let n = count_in(a, it) + count_in(b, it);
        if n > 0 { rest.push((it, n as u32)) } else { rest }
    }
}

/// The counts of `c` with a positive count, in item order.
pub fn listing_of(c: &ItemCounts) -> (r: Vec<(Item, u32)>)
    ensures
        r@ == sorted_listing(c@),
{
    let mut r: Vec<(Item, u32)> = Vec::new();
    let mut k: usize = 0;
    while k < ITEM_KINDS
        invariant
            k <= ITEM_KINDS,
            r@ == listing(c@, k as int),
        decreases ITEM_KINDS - k,
    {
        let it = Item::from_rank(k);
        let n = c.count(it);
        if n > 0 {
            r.push((it, n));
        }
        k = k + 1;
    }
    r
}

/// Storage entries with a positive count, in item order.
pub fn sorted(player: &Player) -> (r: Vec<(Item, u32)>)
    ensures
        r@ == sorted_listing(player.inventory@),
{
    listing_of(&player.inventory)
}

/// Storage and bag counts added together, entries with a positive total,
/// in item order.
pub fn combined_sorted(player: &Player) -> (r: Vec<(Item, u32)>)
    requires
        forall|i: Item| #[trigger] player.inventory.count_of(i) + player.bag.count_of(i) <= u32::MAX,
    ensures
        r@ == combined_listing(player.inventory@, player.bag@, ITEM_KINDS as int),
{
    let mut r: Vec<(Item, u32)> = Vec::new();
    let mut k: usize = 0;
    while k < ITEM_KINDS
        invariant
            k <= ITEM_KINDS,
            forall|i: Item| #[trigger] player.inventory.count_of(i) + player.bag.count_of(i) <= u32::MAX,
            r@ == combined_listing(player.inventory@, player.bag@, k as int),
        decreases ITEM_KINDS - k,
    {
        let it = Item::from_rank(k);
        proof {
            assert(player.inventory.count_of(it) + player.bag.count_of(it) <= u32::MAX);
        }
        let n = player.inventory.count(it) + player.bag.count(it);
        if n > 0 {
            r.push((it, n));
        }
        k = k + 1;
    }
    r
}

} // verus!
