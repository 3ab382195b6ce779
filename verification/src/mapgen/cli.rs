//! The generator's command-line pieces that are plain logic: reading a
//! `NAME=COUNT` scatter request, telling which game level a map size
//! belongs to, and writing the minimal save file that wraps a grid.

use vstd::prelude::*;
use vstd::string::*;
use super::terrain::{Terrain, terrain_named};
use crate::text::{trim, trim_bounds};
use crate::save::texts;
use crate::viewmodel::events::{decimal, push_decimal};

verus! {

/// Whether `c` is an ASCII decimal digit.
pub open spec fn is_digit(c: char) -> bool {
    '0' <= c && c <= '9'
}

/// The value of a string of decimal digits.
pub open spec fn digits_value(d: Seq<char>) -> int
    decreases d.len(),
{
    if d.len() == 0 {
        0
    } else {
        digits_value(d.drop_last()) * 10 + (d.last() as int - '0' as int)
    }
}

/// Every character of `d` is a decimal digit.
pub open spec fn all_digits(d: Seq<char>) -> bool {
    forall|i: int| 0 <= i < d.len() ==> is_digit(#[trigger] d[i])
}

/// The digits of an unsigned number's text: without its leading `+`, if
/// it has one.
pub open spec fn unsigned_digits(v: Seq<char>) -> Seq<char> {
    if v.len() > 0 && v[0] == '+' { v.drop_first() } else { v }
}

/// The `u32` a text spells, as Rust reads one: an optional `+`, then one or
/// more decimal digits, with a value that fits in 32 bits.
pub open spec fn u32_text(v: Seq<char>) -> Option<u32> {
    let d = unsigned_digits(v);
    if d.len() > 0 && all_digits(d) && digits_value(d) <= u32::MAX {
        Some(digits_value(d) as u32)
    } else {
        None
    }
}

proof fn lemma_digits_grow(d: Seq<char>, k: int)
    requires
        0 <= k <= d.len(),
        forall|i: int| 0 <= i < d.len() ==> is_digit(#[trigger] d[i]),
    ensures
        digits_value(d.take(k)) <= digits_value(d),
        0 <= digits_value(d.take(k)),
    decreases d.len() - k,
{
    if k < d.len() {
        assert(d.take(k + 1).drop_last() =~= d.take(k));
        assert(is_digit(d[k]));
        lemma_digits_grow(d, k + 1);
        assert(d.take(k + 1).last() == d[k]);
    } else {
        assert(d.take(k) =~= d);
        lemma_digits_nonneg(d);
    }
}

proof fn lemma_digits_nonneg(d: Seq<char>)
    requires
        forall|i: int| 0 <= i < d.len() ==> is_digit(#[trigger] d[i]),
    ensures
        0 <= digits_value(d),
    decreases d.len(),
{
    if d.len() > 0 {
        assert forall|i: int| 0 <= i < d.drop_last().len() implies is_digit(#[trigger] d.drop_last()[i]) by {
            assert(d.drop_last()[i] == d[i]);
        }
        lemma_digits_nonneg(d.drop_last());
        assert(is_digit(d[d.len() - 1]));
    }
}

/// Reads the characters of `s` in `[start, end)` as a `u32`, as Rust's
/// `str::parse::<u32>` does: an optional `+`, then decimal digits whose
/// value fits.
pub fn parse_u32_range(s: &str, start: usize, end: usize) -> (r: Option<u32>)
    requires
        start <= end <= s@.len(),
    ensures
        r == u32_text(s@.subrange(start as int, end as int)),
{
    let ghost v = s@.subrange(start as int, end as int);
    let mut i = start;
    if i < end && s.get_char(i) == '+' {
        i = i + 1;
    }
    let ghost d = unsigned_digits(v);
    assert(d =~= s@.subrange(i as int, end as int));
    if i == end {
        return None;
    }
    let first = i;
    let mut acc: u64 = 0;
    while i < end
        invariant
            start <= first <= i <= end <= s@.len(),
            v == s@.subrange(start as int, end as int),
            d == unsigned_digits(v),
            d == s@.subrange(first as int, end as int),
            forall|j: int| 0 <= j < i - first ==> is_digit(#[trigger] d[j]),
            acc == digits_value(d.take(i - first)),
            acc <= u32::MAX,
        decreases end - i,
    {
        let c = s.get_char(i);
        if c < '0' || c > '9' {
            assert(!is_digit(d[i - first]));
            assert(!all_digits(d));
            return None;
        }
        let dv = (c as u32 - '0' as u32) as u64;
        assert(d.take(i - first + 1).drop_last() =~= d.take(i - first));
        assert(d.take(i - first + 1).last() == c);
        let next = acc * 10 + dv;
        if next > 0xFFFF_FFFF {
            proof {
                let ghost k = i - first + 1;
                if all_digits(d) {
                    lemma_digits_grow(d, k);
                }
            }
            return None;
        }
        acc = next;
        i = i + 1;
    }
    assert(d.take(d.len() as int) =~= d);
    Some(acc as u32)
}

/// Why a `NAME=COUNT` request was refused.
#[derive(Debug)]
pub enum SpecError {
    /// There is no `=`.
    MissingSeparator,
    /// The part before the first `=` names no terrain.
    UnknownTerrain(String),
    /// The part after the first `=` is not a count.
    InvalidCount(String),
}

/// A [`SpecError`] with its text as characters.
pub enum SpecErrorView {
    MissingSeparator,
    UnknownTerrain(Seq<char>),
    InvalidCount(Seq<char>),
}

impl View for SpecError {
    type V = SpecErrorView;

    open spec fn view(&self) -> SpecErrorView {
        match self {
            SpecError::MissingSeparator => SpecErrorView::MissingSeparator,
            SpecError::UnknownTerrain(s) => SpecErrorView::UnknownTerrain(s@),
            SpecError::InvalidCount(s) => SpecErrorView::InvalidCount(s@),
        }
    }
}

/// The index of the first `=` in `v`, or its length if it has none.
pub open spec fn equals_at(v: Seq<char>) -> int
    decreases v.len(),
{
    if v.len() == 0 {
        0
    } else if v[0] == '=' {
        0
    } else {
        1 + equals_at(v.drop_first())
    }
}

/// What a `NAME=COUNT` scatter request reads as: split at the first `=`,
/// the name must name a terrain and the count, trimmed, must be a `u32`.
pub open spec fn scatter_request(v: Seq<char>) -> Result<(Terrain, u32), SpecErrorView> {
    let k = equals_at(v);
    if k >= v.len() {
        Err(SpecErrorView::MissingSeparator)
    } else {
        let name = v.take(k);
        let value = v.skip(k + 1);
        match terrain_named(name) {
            None => Err(SpecErrorView::UnknownTerrain(name)),
            Some(t) => match u32_text(trim(value)) {
                None => Err(SpecErrorView::InvalidCount(value)),
                Some(n) => Ok((t, n)),
            },
        }
    }
}

proof fn lemma_equals_at(v: Seq<char>, k: int)
    requires
        0 <= k <= v.len(),
        forall|i: int| 0 <= i < k ==> #[trigger] v[i] != '=',
        k == v.len() || v[k] == '=',
    ensures
        equals_at(v) == k,
    decreases k,
{
    if k > 0 {
        assert forall|i: int| 0 <= i < k - 1 implies #[trigger] v.drop_first()[i] != '=' by {
            assert(v.drop_first()[i] == v[i + 1]);
        }
        if k < v.len() {
            assert(v.drop_first()[k - 1] == v[k]);
        }
        lemma_equals_at(v.drop_first(), k - 1);
    }
}

/// Parses a scatter request such as `Cave=6`: a terrain name (any case,
/// surrounding white space ignored), `=`, and a tile count.
pub fn parse_scatter(spec: &str) -> (r: Result<(Terrain, u32), SpecError>)
    ensures
        match r {
            Ok(x) => scatter_request(spec@) == Ok::<(Terrain, u32), SpecErrorView>(x),
            Err(e) => scatter_request(spec@) == Err::<(Terrain, u32), SpecErrorView>(e@),
        },
{
    let n = spec.unicode_len();
    let mut k: usize = 0;
    while k < n
        invariant
            n == spec@.len(),
            k <= n,
            forall|i: int| 0 <= i < k ==> #[trigger] spec@[i] != '=',
        ensures
            k <= n,
            forall|i: int| 0 <= i < k ==> #[trigger] spec@[i] != '=',
            k == n || spec@[k as int] == '=',
        decreases n - k,
    {
        if spec.get_char(k) == '=' {
            break;
        }
        k = k + 1;
    }
    proof {
        lemma_equals_at(spec@, k as int);
    }
    if k == n {
        return Err(SpecError::MissingSeparator);
    }
    let name = spec.substring_char(0, k);
    let value = spec.substring_char(k + 1, n);
    assert(name@ =~= spec@.take(k as int));
    assert(value@ =~= spec@.skip(k + 1));
    match Terrain::parse_name(name) {
        None => Err(SpecError::UnknownTerrain(String::from_str(name))),
        Some(t) => {
            let (a, b) = trim_bounds(value);
            match parse_u32_range(value, a, b) {
                None => Err(SpecError::InvalidCount(String::from_str(value))),
                Some(count) => Ok((t, count)),
            }
        },
    }
}

/// The game level a map of edge `size` belongs to, if it is a game map
/// size: `size = 21 + 2 * level`.
pub fn game_level(size: usize) -> (r: Option<usize>)
    ensures
        r == (if size >= 21 && (size - 21) % 2 == 0 { Some(((size - 21) / 2) as usize) } else { None::<usize> }),
{
    if size >= 21 && (size - 21) % 2 == 0 {
        Some((size - 21) / 2)
    } else {
        None
    }
}

/// The rows, each in double quotes, separated by commas.
pub open spec fn quoted_list(rows: Seq<Seq<char>>) -> Seq<char>
    decreases rows.len(),
{
    if rows.len() == 0 {
        Seq::empty()
    } else if rows.len() == 1 {
        seq!['"'] + rows[0] + seq!['"']
    } else {
        quoted_list(rows.drop_last()) + seq![','] + seq!['"'] + rows.last() + seq!['"']
    }
}

/// A minimal save file the game loads: a player at the origin with nothing,
/// at `level`, on a map whose terrain rows are `rows`, with no events.
pub open spec fn save_json_text(level: nat, rows: Seq<Seq<char>>) -> Seq<char> {
    "{\"player\":{\"level\":"@ + decimal(level)
        + ",\"coordinates\":[0,0],\"inventory\":{},\"recipes\":[]},\"map\":{\"terrain\":["@
        + quoted_list(rows) + "]},\"events\":[]}"@
}

/// Writes the minimal save file wrapping a generated grid: the other player
/// fields are left to their defaults when loaded. The rows hold only
/// terrain letters and `.`, so nothing needs escaping.
pub fn save_json(level: usize, rows: &Vec<String>) -> (r: String)
    ensures
        r@ == save_json_text(level as nat, texts(rows@)),
{
    proof {
        reveal_strlit("\"");
        reveal_strlit(",\"");
    }
    let mut s = String::from_str("{\"player\":{\"level\":");
    push_decimal(&mut s, level as u64);
    s.append(",\"coordinates\":[0,0],\"inventory\":{},\"recipes\":[]},\"map\":{\"terrain\":[");
    let ghost head = s@;
    let mut i: usize = 0;
    while i < rows.len()
        invariant
            i <= rows@.len(),
            s@ == head + quoted_list(texts(rows@).take(i as int)),
        decreases rows.len() - i,
    {
        proof {
            reveal_strlit("\"");
            reveal_strlit(",\"");
        }
        let ghost t = texts(rows@).take(i as int + 1);
        assert(t.drop_last() =~= texts(rows@).take(i as int));
        assert(t.last() == rows@[i as int]@);
        if i == 0 {
            s.append("\"");
        } else {
            s.append(",\"");
        }
        s.append(rows[i].as_str());
        s.append("\"");
        if i == 0 {
            assert(t.len() == 1 && t[0] == rows@[0]@);
            assert(s@ =~= head + quoted_list(t));
        } else {
            assert(s@ =~= head + quoted_list(t));
        }
        i = i + 1;
    }
    assert(texts(rows@).take(rows@.len() as int) =~= texts(rows@));
    s.append("]},\"events\":[]}");
    s
}

} // verus!
