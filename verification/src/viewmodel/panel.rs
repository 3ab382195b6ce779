//! The panels of the front end and which are reachable.

use vstd::prelude::*;
use crate::game::Unlocked;

verus! {

/// One panel of the front end.
#[derive(Clone, Copy, Debug, PartialEq, Eq, Structural)]
pub enum Panel {
    Quests,
    WorldMap,
    Items,
    Experiment,
    Craft,
    Disassemble,
}

/// The panel at position `i` of the panel order.
pub open spec fn panel_at(i: int) -> Panel {
    if i == 0 {
        Panel::Quests
    } else if i == 1 {
        Panel::WorldMap
    } else if i == 2 {
        Panel::Items
    } else if i == 3 {
        Panel::Experiment
    } else if i == 4 {
        Panel::Craft
    } else {
        Panel::Disassemble
    }
}

/// The position of `p` in the panel order.
pub open spec fn panel_index(p: Panel) -> int {
    match p {
        Panel::Quests => 0,
        Panel::WorldMap => 1,
        Panel::Items => 2,
        Panel::Experiment => 3,
        Panel::Craft => 4,
        Panel::Disassemble => 5,
    }
}

/// The feature a panel needs unlocked, if any.
pub open spec fn unlock_of(p: Panel) -> Option<Unlocked> {
    match p {
        Panel::Quests => None,
        Panel::WorldMap => Some(Unlocked::WorldMap),
        Panel::Items => Some(Unlocked::Items),
        Panel::Experiment => Some(Unlocked::Experiment),
        Panel::Craft => Some(Unlocked::Craft),
        Panel::Disassemble => Some(Unlocked::Disassemble),
    }
}

/// Whether `p` shows given the unlocked features `u`.
pub open spec fn shows(p: Panel, u: Seq<Unlocked>) -> bool {
    match unlock_of(p) {
        None => true,
        Some(f) => u.contains(f),
    }
}

/// Stepping by `offset` from position `cur`, at most `fuel` more times: the
/// first panel that shows, or the starting panel when the walk gets back to
/// `start`.
pub open spec fn walk(start: int, cur: int, offset: int, u: Seq<Unlocked>, fuel: nat) -> Panel
    decreases fuel,
{
    let next = (cur + offset) % 6;
    if fuel == 0 || shows(panel_at(next), u) || next == start {
        panel_at(next)
    } else {
        walk(start, next, offset, u, (fuel - 1) as nat)
    }
}

/// The next panel that shows after `p`, wrapping around; `p` itself when no
/// other shows.
pub open spec fn next_panel(p: Panel, u: Seq<Unlocked>) -> Panel {
    walk(panel_index(p), panel_index(p), 1, u, 5)
}

/// The previous panel that shows before `p`, wrapping around.
pub open spec fn prev_panel(p: Panel, u: Seq<Unlocked>) -> Panel {
    walk(panel_index(p), panel_index(p), 5, u, 5)
}

/// Moving to the next panel and back, or back and forth, returns to a
/// panel that shows.
pub proof fn lemma_next_prev_inverse(p: Panel, u: Seq<Unlocked>)
    requires
        shows(p, u),
    ensures
        prev_panel(next_panel(p, u), u) == p,
        next_panel(prev_panel(p, u), u) == p,
{
    lemma_next_closed(p, u);
    lemma_prev_closed(p, u);
    let n = next_panel(p, u);
    let q = prev_panel(p, u);
    lemma_next_closed(q, u);
    lemma_prev_closed(n, u);
    let v0 = shows(panel_at(0), u);
    let v1 = shows(panel_at(1), u);
    let v2 = shows(panel_at(2), u);
    let v3 = shows(panel_at(3), u);
    let v4 = shows(panel_at(4), u);
    let v5 = shows(panel_at(5), u);
    assert(v0);
    match p {
        Panel::Quests => {
            assert(n == if v1 { panel_at(1) } else if v2 { panel_at(2) } else if v3 { panel_at(3) } else if v4 { panel_at(4) } else if v5 { panel_at(5) } else { p });
            assert(q == if v5 { panel_at(5) } else if v4 { panel_at(4) } else if v3 { panel_at(3) } else if v2 { panel_at(2) } else if v1 { panel_at(1) } else { p });
        },
        Panel::WorldMap => {
            assert(n == if v2 { panel_at(2) } else if v3 { panel_at(3) } else if v4 { panel_at(4) } else if v5 { panel_at(5) } else { panel_at(0) });
            assert(q == panel_at(0));
        },
        Panel::Items => {
            assert(n == if v3 { panel_at(3) } else if v4 { panel_at(4) } else if v5 { panel_at(5) } else { panel_at(0) });
            assert(q == if v1 { panel_at(1) } else { panel_at(0) });
        },
        Panel::Experiment => {
            assert(n == if v4 { panel_at(4) } else if v5 { panel_at(5) } else { panel_at(0) });
            assert(q == if v2 { panel_at(2) } else if v1 { panel_at(1) } else { panel_at(0) });
        },
        Panel::Craft => {
            assert(n == if v5 { panel_at(5) } else { panel_at(0) });
            assert(q == if v3 { panel_at(3) } else if v2 { panel_at(2) } else if v1 { panel_at(1) } else { panel_at(0) });
        },
        Panel::Disassemble => {
            assert(n == panel_at(0));
            assert(q == if v4 { panel_at(4) } else if v3 { panel_at(3) } else if v2 { panel_at(2) } else if v1 { panel_at(1) } else { panel_at(0) });
        },
    }
}

/// The panel at position `i` when it shows, else `otherwise`.
pub open spec fn pick(i: int, u: Seq<Unlocked>, otherwise: Panel) -> Panel {
    if shows(panel_at(i), u) { panel_at(i) } else { otherwise }
}

proof fn lemma_next_closed(p: Panel, u: Seq<Unlocked>)
    ensures
        next_panel(p, u) == {
            let i = panel_index(p);
            pick((i + 1) % 6, u, pick((i + 2) % 6, u, pick((i + 3) % 6, u, pick((i + 4) % 6, u, pick((i + 5) % 6, u, p)))))
        },
{
    reveal_with_fuel(walk, 6);
}

proof fn lemma_prev_closed(p: Panel, u: Seq<Unlocked>)
    ensures
        prev_panel(p, u) == {
            let i = panel_index(p);
            pick((i + 5) % 6, u, pick((i + 4) % 6, u, pick((i + 3) % 6, u, pick((i + 2) % 6, u, pick((i + 1) % 6, u, p)))))
        },
{
    reveal_with_fuel(walk, 6);
}

/// The panel every session starts on.
pub open spec fn first_panel() -> Panel {
    Panel::Quests
}

impl Panel {
    /// Every panel, in order.
    pub const ALL: [Panel; 6] = [
        Panel::Quests,
        Panel::WorldMap,
        Panel::Items,
        Panel::Experiment,
        Panel::Craft,
        Panel::Disassemble,
    ];

    fn index(self) -> (r: usize)
        ensures
            r as int == panel_index(self),
    {
        match self {
            Panel::Quests => 0,
            Panel::WorldMap => 1,
            Panel::Items => 2,
            Panel::Experiment => 3,
            Panel::Craft => 4,
            Panel::Disassemble => 5,
        }
    }

    fn at(i: usize) -> (r: Panel)
        requires
            i < 6,
        ensures
            r == panel_at(i as int),
    {
        if i == 0 {
            Panel::Quests
        } else if i == 1 {
            Panel::WorldMap
        } else if i == 2 {
            Panel::Items
        } else if i == 3 {
            Panel::Experiment
        } else if i == 4 {
            Panel::Craft
        } else {
            Panel::Disassemble
        }
    }

    /// The feature this panel needs unlocked, if any.
    pub fn required_unlock(self) -> (r: Option<Unlocked>)
        ensures
            r == unlock_of(self),
    {
        match self {
            Panel::Quests => None,
            Panel::WorldMap => Some(Unlocked::WorldMap),
            Panel::Items => Some(Unlocked::Items),
            Panel::Experiment => Some(Unlocked::Experiment),
            Panel::Craft => Some(Unlocked::Craft),
            Panel::Disassemble => Some(Unlocked::Disassemble),
        }
    }

    /// Whether this panel shows given the unlocked features.
    pub fn is_visible(self, unlocked: &[Unlocked]) -> (r: bool)
        ensures
            r == shows(self, unlocked@),
    {
        match self.required_unlock() {
            None => true,
            Some(f) => {
                let mut i: usize = 0;
                while i < unlocked.len()
                    invariant
                        i <= unlocked@.len(),
                        unlock_of(self) == Some(f),
                        forall|j: int| 0 <= j < i ==> unlocked@[j] != f,
                    decreases unlocked.len() - i,
                {
                    if unlocked[i] == f {
                        assert(unlocked@[i as int] == f);
                        return true;
                    }
                    i = i + 1;
                }
                false
            },
        }
    }

    /// The panels that show, in order.
    pub fn visible(unlocked: &[Unlocked]) -> (r: Vec<Panel>)
        ensures
            r@ == Seq::new(6, |i: int| panel_at(i)).filter(|p: Panel| shows(p, unlocked@)),
    {
        let ghost all = Seq::new(6, |i: int| panel_at(i));
        let mut r: Vec<Panel> = Vec::new();
        let mut i: usize = 0;
        while i < 6
            invariant
                i <= 6,
                all == Seq::new(6, |i: int| panel_at(i)),
                r@ == all.subrange(0, i as int).filter(|p: Panel| shows(p, unlocked@)),
            decreases 6 - i,
        {
            let p = Panel::at(i);
            proof {
                assert(all.subrange(0, i as int + 1).drop_last() =~= all.subrange(0, i as int));
                reveal_with_fuel(Seq::filter, 1);
            }
            if p.is_visible(unlocked) {
                r.push(p);
            }
            i = i + 1;
        }
        assert(all.subrange(0, 6) =~= all);
        r
    }

    /// The next panel that shows, wrapping around.
    pub fn next(self, unlocked: &[Unlocked]) -> (r: Panel)
        ensures
            r == next_panel(self, unlocked@),
    {
        self.cycle(1, unlocked)
    }

    /// The previous panel that shows, wrapping around.
    pub fn prev(self, unlocked: &[Unlocked]) -> (r: Panel)
        ensures
            r == prev_panel(self, unlocked@),
    {
        self.cycle(5, unlocked)
    }

    /// Steps by `offset` through the panel order until a panel that shows,
    /// or back at this one.
    pub fn cycle(self, offset: usize, unlocked: &[Unlocked]) -> (r: Panel)
        requires
            offset < 6,
        ensures
            r == walk(panel_index(self), panel_index(self), offset as int, unlocked@, 5),
    {
        let start = self.index();
        let mut index = start;
        let mut fuel: usize = 5;
        loop
            invariant
                start == panel_index(self),
                index < 6,
                offset < 6,
                fuel <= 5,
                walk(start as int, start as int, offset as int, unlocked@, 5)
                    == walk(start as int, index as int, offset as int, unlocked@, fuel as nat),
            decreases fuel,
        {
            index = (index + offset) % 6;
            let candidate = Panel::at(index);
            if fuel == 0 || candidate.is_visible(unlocked) || index == start {
                return candidate;
            }
            fuel = fuel - 1;
        }
    }
}

impl Default for Panel {
    fn default() -> (r: Panel)
        ensures
            r == first_panel(),
    {
        Panel::Quests
    }
}

} // verus!
