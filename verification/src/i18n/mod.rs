//! The player-facing language: which one to use, chosen once at startup
//! from the `--lang` flag or the locale environment.

use vstd::prelude::*;
use vstd::string::*;
use crate::text::ascii_lower;

verus! {

/// The player-facing language, detected once at startup and then passed
/// down as a plain value.
#[derive(Clone, Copy, Debug, PartialEq, Eq, Structural)]
pub enum Language {
    English,
    Polish,
}

/// The two-letter code of a language.
pub open spec fn language_code(l: Language) -> Seq<char> {
    match l {
        Language::English => "en"@,
        Language::Polish => "pl"@,
    }
}

impl Language {
    /// The language's two-letter code: `"en"` or `"pl"`.
    pub fn code(self) -> (r: &'static str)
        ensures
            r@ == language_code(self),
    {
        match self {
            Language::English => "en",
            Language::Polish => "pl",
        }
    }
}

impl Default for Language {
    /// English, the fallback language.
    fn default() -> (r: Language)
        ensures
            r == Language::English,
    {
        Language::English
    }
}

/// Whether `c` ends the language part of a locale string.
pub open spec fn is_locale_sep(c: char) -> bool {
    c == '_' || c == '-' || c == '.'
}

/// The language part of a locale string: everything before the first `_`,
/// `-` or `.`.
pub open spec fn lang_subtag(v: Seq<char>) -> Seq<char>
    decreases v.len(),
{
    if v.len() == 0 {
        v
    } else if is_locale_sep(v[0]) {
        Seq::empty()
    } else {
        seq![v[0]] + lang_subtag(v.drop_first())
    }
}

/// The language a locale string names: its language part, in ASCII lower
/// case, is `en` or `pl`.
pub open spec fn locale_language(v: Seq<char>) -> Option<Language> {
    let t = lang_subtag(v).map_values(|c: char| ascii_lower(c));
    if t == "en"@ {
        Some(Language::English)
    } else if t == "pl"@ {
        Some(Language::Polish)
    } else {
        None
    }
}

proof fn lemma_subtag_is_prefix(v: Seq<char>, n: int)
    requires
        0 <= n <= v.len(),
        forall|i: int| 0 <= i < n ==> !is_locale_sep(#[trigger] v[i]),
        n == v.len() || is_locale_sep(v[n]),
    ensures
        lang_subtag(v) == v.take(n),
    decreases v.len(),
{
    if v.len() > 0 && n > 0 {
        assert forall|i: int| 0 <= i < n - 1 implies !is_locale_sep(#[trigger] v.drop_first()[i]) by {
            assert(v.drop_first()[i] == v[i + 1]);
        }
        if n < v.len() {
            assert(v.drop_first()[n - 1] == v[n]);
        }
        lemma_subtag_is_prefix(v.drop_first(), n - 1);
        assert(seq![v[0]] + v.drop_first().take(n - 1) =~= v.take(n));
    } else if v.len() > 0 {
        assert(v.take(0) =~= Seq::<char>::empty());
    }
}

proof fn lemma_lower_is(c: char, lower: char, upper: char)
    requires
        'a' <= lower <= 'z',
        upper as u32 + 32 == lower as u32,
    ensures
        ascii_lower(c) == lower <==> (c == lower || c == upper),
{
}

/// The language a locale string such as `"pl_PL.UTF-8"` names, from the
/// part before its first `_`, `-` or `.`, ignoring ASCII case.
pub fn parse_locale(value: &str) -> (r: Option<Language>)
    ensures
        r == locale_language(value@),
{
    let len = value.unicode_len();
    let mut n: usize = 0;
    while n < len
        invariant
            len == value@.len(),
            n <= len,
            forall|i: int| 0 <= i < n ==> !is_locale_sep(#[trigger] value@[i]),
        ensures
            n <= len,
            forall|i: int| 0 <= i < n ==> !is_locale_sep(#[trigger] value@[i]),
            n == len || is_locale_sep(value@[n as int]),
        decreases len - n,
    {
        let c = value.get_char(n);
        if c == '_' || c == '-' || c == '.' {
            break;
        }
        n = n + 1;
    }
    proof {
        lemma_subtag_is_prefix(value@, n as int);
        reveal_strlit("en");
        reveal_strlit("pl");
    }
    let ghost t = value@.take(n as int).map_values(|c: char| ascii_lower(c));
    if n != 2 {
        assert(t.len() != 2);
        assert(t != "en"@ && t != "pl"@);
        return None;
    }
    let c0 = value.get_char(0);
    let c1 = value.get_char(1);
    proof {
        lemma_lower_is(c0, 'e', 'E');
        lemma_lower_is(c1, 'n', 'N');
        lemma_lower_is(c0, 'p', 'P');
        lemma_lower_is(c1, 'l', 'L');
    }
    assert(t[0] == ascii_lower(c0) && t[1] == ascii_lower(c1));
    if (c0 == 'e' || c0 == 'E') && (c1 == 'n' || c1 == 'N') {
        assert(t =~= "en"@);
        Some(Language::English)
    } else if (c0 == 'p' || c0 == 'P') && (c1 == 'l' || c1 == 'L') {
        assert(t =~= "pl"@);
        Some(Language::Polish)
    } else {
        assert(t != "en"@) by {
            if t == "en"@ {
                assert(t[0] == 'e' && t[1] == 'n');
            }
        }
        assert(t != "pl"@) by {
            if t == "pl"@ {
                assert(t[0] == 'p' && t[1] == 'l');
            }
        }
        None
    }
}

/// The language a locale variable's value names, if it is set and names
/// one.
pub open spec fn env_language(value: Option<String>) -> Option<Language> {
    match value {
        Some(s) => locale_language(s@),
        None => None,
    }
}

/// The `--lang` flag's text, if it is given.
pub open spec fn flag_text(cli_lang: Option<&str>) -> Option<Seq<char>> {
    match cli_lang {
        Some(v) => Some(v@),
        None => None,
    }
}

/// The language the `--lang` flag names, if it is given and names one.
pub open spec fn cli_language(cli_lang: Option<Seq<char>>) -> Option<Language> {
    match cli_lang {
        Some(v) => locale_language(v),
        None => None,
    }
}

/// The startup language: the `--lang` flag's if it names one; else the
/// first of `$LC_ALL`, `$LC_MESSAGES` and `$LANG` that names one; else
/// English.
pub open spec fn detected(cli_lang: Option<Seq<char>>, lc_all: Option<String>, lc_messages: Option<String>, lang: Option<String>) -> Language {
    let from_cli = cli_language(cli_lang);
    if from_cli is Some {
        from_cli.unwrap()
    } else if env_language(lc_all) is Some {
        env_language(lc_all).unwrap()
    } else if env_language(lc_messages) is Some {
        env_language(lc_messages).unwrap()
    } else if env_language(lang) is Some {
        env_language(lang).unwrap()
    } else {
        Language::English
    }
}

/// The language a locale variable names, skipping an empty value and the
/// `C` and `POSIX` locales.
fn env_value_language(value: &Option<String>) -> (r: Option<Language>)
    ensures
        r == env_language(*value),
{
    match value {
        Some(v) => {
            let s = v.as_str();
            proof {
                reveal_strlit("C");
                reveal_strlit("POSIX");
                reveal_strlit("en");
                reveal_strlit("pl");
            }
            if s.unicode_len() == 0 || crate::text::str_eq(s, "C") || crate::text::str_eq(s, "POSIX") {
                proof {
                    lemma_no_language_in_short_or_long(s@);
                }
                None
            } else {
                parse_locale(s)
            }
        },
        None => None,
    }
}

proof fn lemma_no_language_in_short_or_long(v: Seq<char>)
    requires
        v.len() == 0 || v == "C"@ || v == "POSIX"@,
    ensures
        locale_language(v) is None,
{
    reveal_strlit("C");
    reveal_strlit("POSIX");
    reveal_strlit("en");
    reveal_strlit("pl");
    let n: int = if v.len() == 0 { 0 } else if v.len() == 1 { 1 } else { 5 };
    assert forall|i: int| 0 <= i < n implies !is_locale_sep(#[trigger] v[i]) by {}
    lemma_subtag_is_prefix(v, n);
    let t = lang_subtag(v).map_values(|c: char| ascii_lower(c));
    assert(t.len() == n);
    assert("en"@.len() == 2 && "pl"@.len() == 2);
    assert(t != "en"@ && t != "pl"@);
}

/// Detects the startup language from the `--lang` flag (`cli_lang`) and the
/// locale environment, read through `env`: the flag wins if it names a
/// language, then `$LC_ALL`, `$LC_MESSAGES` and `$LANG` in that order
/// (skipping unset, empty, `C` and `POSIX`), then English.
pub fn detect(cli_lang: Option<&str>, env: impl Fn(&str) -> Option<String>) -> (r: Language)
    requires
        forall|k: &str| call_requires(env, (k,)),
    ensures
        exists|a: Option<String>, b: Option<String>, c: Option<String>| #![trigger detected(flag_text(cli_lang), a, b, c)] {
            &&& cli_language(flag_text(cli_lang)) is None ==> call_ensures(env, ("LC_ALL",), a)
            &&& cli_language(flag_text(cli_lang)) is None && env_language(a) is None
                ==> call_ensures(env, ("LC_MESSAGES",), b)
            &&& cli_language(flag_text(cli_lang)) is None && env_language(a) is None && env_language(b) is None
                ==> call_ensures(env, ("LANG",), c)
            &&& r == detected(flag_text(cli_lang), a, b, c)
        },
{
    let ghost cli = flag_text(cli_lang);
    let from_cli = match cli_lang {
        Some(v) => parse_locale(v),
        None => None,
    };
    assert(from_cli == cli_language(cli));
    if let Some(l) = from_cli {
        assert(l == detected(cli, None, None, None));
        return l;
    }
    let lc_all = env("LC_ALL");
    if let Some(l) = env_value_language(&lc_all) {
        assert(l == detected(cli, lc_all, None, None));
        return l;
    }
    let lc_messages = env("LC_MESSAGES");
    if let Some(l) = env_value_language(&lc_messages) {
        assert(l == detected(cli, lc_all, lc_messages, None));
        return l;
    }
    let lang = env("LANG");
    let r = match env_value_language(&lang) {
        Some(l) => l,
        None => Language::English,
    };
    assert(r == detected(cli, lc_all, lc_messages, lang));
    r
}

} // verus!
