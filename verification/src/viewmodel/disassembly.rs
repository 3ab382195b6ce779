//! The Disassemble panel: what in storage can be taken apart.

use vstd::prelude::*;
use crate::game::{Item, Player, disassembly_for};
use crate::game::recipe::{recipe_book, takes_apart};
use super::inventory::{sorted, sorted_listing};

verus! {

/// Whether some recipe of the book takes `item` apart.
pub open spec fn can_take_apart(item: Item) -> bool {
    exists|i: int| 0 <= i < recipe_book().len() && takes_apart(#[trigger] recipe_book()[i], item)
}

/// The items of `s` that some recipe takes apart, in order.
pub open spec fn apart_items(s: Seq<(Item, u32)>) -> Seq<Item>
    decreases s.len(),
{
    if s.len() == 0 {
        seq![]
    } else if can_take_apart(s.last().0) {
        apart_items(s.drop_last()).push(s.last().0)
    } else {
        apart_items(s.drop_last())
    }
}

/// The stored items that can be taken apart, in item order.
pub fn options(player: &Player) -> (r: Vec<Item>)
    ensures
        r@ == apart_items(sorted_listing(player.inventory@)),
{
    let listed = sorted(player);
    let mut r: Vec<Item> = Vec::new();
    let mut i: usize = 0;
    while i < listed.len()
        invariant
            i <= listed@.len(),
            r@ == apart_items(listed@.subrange(0, i as int)),
        decreases listed.len() - i,
    {
        let item = listed[i].0;
        proof {
            assert(listed@.subrange(0, i as int + 1).drop_last() =~= listed@.subrange(0, i as int));
        }
        match disassembly_for(item) {
            Some(_) => {
                r.push(item);
            },
            None => {},
        }
        i = i + 1;
    }
    assert(listed@.subrange(0, listed@.len() as int) =~= listed@);
    r
}

} // verus!
