//! The six terrain kinds the generator knows, and their save-file letters.

use vstd::prelude::*;
use vstd::string::*;
use crate::text::{ascii_lower, trim, trim_start, trim_end, white_space, trim_bounds, lower_range_eq};

verus! {

#[derive(Clone, Copy, Debug, PartialEq, Eq, Structural, Hash)]
pub enum Terrain {
    Meadow,
    Forest,
    Cave,
    Ruins,
    Village,
    Deadland,
}

/// The save-file letter of a terrain.
pub open spec fn terrain_letter(t: Terrain) -> char {
    match t {
        Terrain::Meadow => 'M',
        Terrain::Forest => 'F',
        Terrain::Cave => 'C',
        Terrain::Ruins => 'R',
        Terrain::Village => 'V',
        Terrain::Deadland => '.',
    }
}

/// The display name of a terrain.
pub open spec fn terrain_label(t: Terrain) -> Seq<char> {
    match t {
        Terrain::Meadow => "Meadow"@,
        Terrain::Forest => "Forest"@,
        Terrain::Cave => "Cave"@,
        Terrain::Ruins => "Ruins"@,
        Terrain::Village => "Village"@,
        Terrain::Deadland => "Deadland"@,
    }
}

/// The terrain a name spells, ignoring surrounding white space and ASCII
/// case.
pub open spec fn terrain_named(v: Seq<char>) -> Option<Terrain> {
    let t = trim(v).map_values(|c: char| ascii_lower(c));
    if t == "meadow"@ {
        Some(Terrain::Meadow)
    } else if t == "forest"@ {
        Some(Terrain::Forest)
    } else if t == "cave"@ {
        Some(Terrain::Cave)
    } else if t == "ruins"@ {
        Some(Terrain::Ruins)
    } else if t == "village"@ {
        Some(Terrain::Village)
    } else if t == "deadland"@ {
        Some(Terrain::Deadland)
    } else {
        None
    }
}

/// Parsing a terrain's display name gives the terrain back.
pub proof fn lemma_terrain_name_round_trip(t: Terrain)
    ensures
        terrain_named(terrain_label(t)) == Some(t),
{
    reveal_strlit("Meadow");
    reveal_strlit("Forest");
    reveal_strlit("Cave");
    reveal_strlit("Ruins");
    reveal_strlit("Village");
    reveal_strlit("Deadland");
    reveal_strlit("meadow");
    reveal_strlit("forest");
    reveal_strlit("cave");
    reveal_strlit("ruins");
    reveal_strlit("village");
    reveal_strlit("deadland");
    let v = terrain_label(t);
    assert(!white_space(v[0]));
    assert(trim_start(v) == v);
    assert(!white_space(v.last()));
    assert(trim_end(v) == v);
    let low = v.map_values(|c: char| ascii_lower(c));
    let m = "meadow"@;
    let f = "forest"@;
    let c = "cave"@;
    let r = "ruins"@;
    let vi = "village"@;
    match t {
        Terrain::Meadow => assert(low =~= m),
        Terrain::Forest => {
            assert(low =~= f);
            assert(f[0] != m[0]);
        },
        Terrain::Cave => {
            assert(low =~= c);
            assert(c.len() != m.len() && c.len() != f.len());
        },
        Terrain::Ruins => {
            assert(low =~= r);
            assert(r.len() != m.len() && r.len() != f.len() && r.len() != c.len());
        },
        Terrain::Village => {
            assert(low =~= vi);
            assert(vi.len() != m.len() && vi.len() != f.len() && vi.len() != c.len() && vi.len() != r.len());
        },
        Terrain::Deadland => {
            assert(low =~= "deadland"@);
            assert("deadland"@.len() != m.len() && "deadland"@.len() != f.len() && "deadland"@.len() != c.len()
                && "deadland"@.len() != r.len() && "deadland"@.len() != vi.len());
        },
    }
}

/// Terrains that form clusters.
pub open spec fn clustering(t: Terrain) -> bool {
    t == Terrain::Meadow || t == Terrain::Forest || t == Terrain::Deadland
}

/// Terrains that are only ever scattered.
pub open spec fn scattered(t: Terrain) -> bool {
    t == Terrain::Cave || t == Terrain::Ruins
}

impl Terrain {
    /// The single-character code this terrain is written as in a save file.
    pub fn code(self) -> (r: char)
        ensures
            r == terrain_letter(self),
    {
        match self {
            Terrain::Meadow => 'M',
            Terrain::Forest => 'F',
            Terrain::Cave => 'C',
            Terrain::Ruins => 'R',
            Terrain::Village => 'V',
            Terrain::Deadland => '.',
        }
    }

    /// Parses a terrain name, ignoring surrounding white space and ASCII case
    /// (`"forest"`, `" Forest "`, ...).
    pub fn parse_name(name: &str) -> (r: Option<Terrain>)
        ensures
            r == terrain_named(name@),
    {
        let (a, b) = trim_bounds(name);
        if lower_range_eq(name, a, b, "meadow") {
            Some(Terrain::Meadow)
        } else if lower_range_eq(name, a, b, "forest") {
            Some(Terrain::Forest)
        } else if lower_range_eq(name, a, b, "cave") {
            Some(Terrain::Cave)
        } else if lower_range_eq(name, a, b, "ruins") {
            Some(Terrain::Ruins)
        } else if lower_range_eq(name, a, b, "village") {
            Some(Terrain::Village)
        } else if lower_range_eq(name, a, b, "deadland") {
            Some(Terrain::Deadland)
        } else {
            None
        }
    }

    /// The display name, e.g. `"Forest"`.
    pub fn name(self) -> (r: &'static str)
        ensures
            r@ == terrain_label(self),
    {
        match self {
            Terrain::Meadow => "Meadow",
            Terrain::Forest => "Forest",
            Terrain::Cave => "Cave",
            Terrain::Ruins => "Ruins",
            Terrain::Village => "Village",
            Terrain::Deadland => "Deadland",
        }
    }

    /// The display name as an owned string.
    pub fn to_string(&self) -> (r: String)
        ensures
            r@ == terrain_label(*self),
    {
        String::from_str(self.name())
    }

    /// Terrains that form clusters: everything the affinity mechanic applies to.
    pub fn is_clustering(self) -> (r: bool)
        ensures
            r == clustering(self),
    {
        match self {
            Terrain::Meadow | Terrain::Forest | Terrain::Deadland => true,
            _ => false,
        }
    }

    /// Terrains that are only ever scattered, never clustered.
    pub fn is_scatter(self) -> (r: bool)
        ensures
            r == scattered(self),
    {
        match self {
            Terrain::Cave | Terrain::Ruins => true,
            _ => false,
        }
    }
}

} // verus!
