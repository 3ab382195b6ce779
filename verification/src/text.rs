//! Small verified helpers on text.

use vstd::prelude::*;
use vstd::string::*;

verus! {

/// Whether two strings hold the same characters.
pub fn str_eq(a: &str, b: &str) -> (r: bool)
    ensures
        r == (a@ == b@),
{
    let n = a.unicode_len();
    let m = b.unicode_len();
    if n != m {
        return false;
    }
    let mut i: usize = 0;
    while i < n
        invariant
            n == a@.len(),
            m == b@.len(),
            n == m,
            i <= n,
            forall|j: int| 0 <= j < i ==> a@[j] == b@[j],
        decreases n - i,
    {
        if a.get_char(i) != b.get_char(i) {
            return false;
        }
        i = i + 1;
    }
    assert(a@ =~= b@);
    true
}

/// The ASCII lower-case form of `c`; other characters unchanged.
pub open spec fn ascii_lower(c: char) -> char {
    if 'A' <= c && c <= 'Z' {
        ((c as u32) + 32) as char
    } else {
        c
    }
}

/// The ASCII lower-case form of `c`; other characters unchanged.
pub fn to_ascii_lower(c: char) -> (r: char)
    ensures
        r == ascii_lower(c),
{
    if 'A' <= c && c <= 'Z' {
        let b = (c as u8) + 32;
        assert(b as u32 == (c as u32) + 32);
        b as char
    } else {
        c
    }
}

/// Whether `c` has the Unicode White_Space property.
pub open spec fn white_space(c: char) -> bool {
    let u = c as u32;
    (0x09 <= u && u <= 0x0D) || u == 0x20 || u == 0x85 || u == 0xA0 || u == 0x1680
        || (0x2000 <= u && u <= 0x200A) || u == 0x2028 || u == 0x2029 || u == 0x202F
        || u == 0x205F || u == 0x3000
}

/// Whether `c` is white space: it has the Unicode White_Space property.
fn is_whitespace(c: char) -> (r: bool)
    ensures
        r == white_space(c),
{
    let u = c as u32;
    (0x09 <= u && u <= 0x0D) || u == 0x20 || u == 0x85 || u == 0xA0 || u == 0x1680
        || (0x2000 <= u && u <= 0x200A) || u == 0x2028 || u == 0x2029 || u == 0x202F
        || u == 0x205F || u == 0x3000
}

/// `v` without its leading white space.
pub open spec fn trim_start(v: Seq<char>) -> Seq<char>
    decreases v.len(),
{
    if v.len() > 0 && white_space(v[0]) {
        trim_start(v.drop_first())
    } else {
        v
    }
}

/// `v` without its trailing white space.
pub open spec fn trim_end(v: Seq<char>) -> Seq<char>
    decreases v.len(),
{
    if v.len() > 0 && white_space(v.last()) {
        trim_end(v.drop_last())
    } else {
        v
    }
}

/// `v` without leading and trailing white space.
pub open spec fn trim(v: Seq<char>) -> Seq<char> {
    trim_end(trim_start(v))
}

proof fn lemma_trim_start_at(v: Seq<char>, a: int)
    requires
        0 <= a <= v.len(),
        forall|i: int| 0 <= i < a ==> white_space(#[trigger] v[i]),
        a == v.len() || !white_space(v[a]),
    ensures
        trim_start(v) == v.subrange(a, v.len() as int),
    decreases a,
{
    if a > 0 {
        assert forall|i: int| 0 <= i < a - 1 implies white_space(#[trigger] v.drop_first()[i]) by {
            assert(v.drop_first()[i] == v[i + 1]);
        }
        if a < v.len() {
            assert(v.drop_first()[a - 1] == v[a]);
        }
        lemma_trim_start_at(v.drop_first(), a - 1);
        assert(v.drop_first().subrange(a - 1, v.drop_first().len() as int) =~= v.subrange(a, v.len() as int));
    } else {
        assert(v.subrange(0, v.len() as int) =~= v);
    }
}

proof fn lemma_trim_end_at(v: Seq<char>, b: int)
    requires
        0 <= b <= v.len(),
        forall|i: int| b <= i < v.len() ==> white_space(#[trigger] v[i]),
        b == 0 || !white_space(v[b - 1]),
    ensures
        trim_end(v) == v.subrange(0, b),
    decreases v.len() - b,
{
    if b < v.len() {
        assert forall|i: int| b <= i < v.drop_last().len() implies white_space(#[trigger] v.drop_last()[i]) by {
            assert(v.drop_last()[i] == v[i]);
        }
        if b > 0 {
            assert(v.drop_last()[b - 1] == v[b - 1]);
        }
        assert(white_space(v[v.len() - 1]));
        lemma_trim_end_at(v.drop_last(), b);
        assert(v.drop_last().subrange(0, b) =~= v.subrange(0, b));
    } else {
        assert(v.subrange(0, b) =~= v);
    }
}

/// The character range `[start, end)` of `s` that remains once leading and
/// trailing white space are trimmed.
pub fn trim_bounds(s: &str) -> (r: (usize, usize))
    ensures
        r.0 <= r.1 <= s@.len(),
        trim(s@) == s@.subrange(r.0 as int, r.1 as int),
{
    let n = s.unicode_len();
    let mut a: usize = 0;
    while a < n
        invariant
            n == s@.len(),
            a <= n,
            forall|i: int| 0 <= i < a ==> white_space(#[trigger] s@[i]),
        ensures
            a <= n,
            forall|i: int| 0 <= i < a ==> white_space(#[trigger] s@[i]),
            a == n || !white_space(s@[a as int]),
        decreases n - a,
    {
        if !is_whitespace(s.get_char(a)) {
            break;
        }
        a = a + 1;
    }
    let mut b: usize = n;
    while b > a
        invariant
            n == s@.len(),
            a <= b <= n,
            forall|i: int| b <= i < n ==> white_space(#[trigger] s@[i]),
        ensures
            a <= b <= n,
            forall|i: int| b <= i < n ==> white_space(#[trigger] s@[i]),
            b == a || !white_space(s@[b - 1]),
        decreases b - a,
    {
        if !is_whitespace(s.get_char(b - 1)) {
            break;
        }
        b = b - 1;
    }
    proof {
        lemma_trim_start_at(s@, a as int);
        let t = s@.subrange(a as int, n as int);
        assert forall|i: int| b - a <= i < t.len() implies white_space(#[trigger] t[i]) by {
            assert(t[i] == s@[a + i]);
        }
        if b > a {
            assert(t[b - a - 1] == s@[b - 1]);
        }
        lemma_trim_end_at(t, b - a);
        assert(t.subrange(0, b - a) =~= s@.subrange(a as int, b as int));
    }
    (a, b)
}

/// Whether the characters of `s` in `[start, end)`, in ASCII lower case,
/// spell `target`.
pub fn lower_range_eq(s: &str, start: usize, end: usize, target: &str) -> (r: bool)
    requires
        start <= end <= s@.len(),
    ensures
        r == (s@.subrange(start as int, end as int).map_values(|c: char| ascii_lower(c)) == target@),
{
    let ghost t = s@.subrange(start as int, end as int).map_values(|c: char| ascii_lower(c));
    let m = target.unicode_len();
    if end - start != m {
        assert(t.len() != target@.len());
        return false;
    }
    let mut i: usize = 0;
    while i < m
        invariant
            m == target@.len(),
            end - start == m,
            start <= end <= s@.len(),
            t == s@.subrange(start as int, end as int).map_values(|c: char| ascii_lower(c)),
            i <= m,
            forall|j: int| 0 <= j < i ==> t[j] == target@[j],
        decreases m - i,
    {
        let c = to_ascii_lower(s.get_char(start + i));
        if c != target.get_char(i) {
            assert(t[i as int] != target@[i as int]);
            return false;
        }
        i = i + 1;
    }
    assert(t =~= target@);
    true
}

} // verus!
