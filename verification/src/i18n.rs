//! The user-interface language: Japanese or English, chosen by the setting or,
//! for `System`, by the operating system's language tag.

use vstd::prelude::*;
use crate::text::{ascii_lower_seq, ascii_lower_char, chars_of};

verus! {

/// The language actually shown.
#[derive(Debug, Clone, Copy, PartialEq, Eq, Structural)]
pub enum Language {
    Ja,
    En,
}

/// The language setting.
#[derive(Debug, Clone, Copy, PartialEq, Eq, Structural)]
pub enum LanguagePreference {
    System,
    Ja,
    En,
}

impl Default for LanguagePreference {
    fn default() -> (r: LanguagePreference)
        ensures
            r == LanguagePreference::System,
    {
        LanguagePreference::System
    }
}

/// The language used when the system's language is none of the supported
/// ones: English, which more readers outside the supported languages can read.
pub const FALLBACK_LANGUAGE: Language = Language::En;

/// The text of a language tag before its first `-` or `_`.
pub open spec fn before_subtag_separator(tag: Seq<char>) -> Seq<char>
    decreases tag.len(),
{
    if tag.len() == 0 || tag[0] == '-' || tag[0] == '_' {
        Seq::empty()
    } else {
        seq![tag[0]] + before_subtag_separator(tag.drop_first())
    }
}

/// The primary subtag of a BCP 47 language tag, in lower case.
pub open spec fn primary_subtag_of(tag: Seq<char>) -> Seq<char> {
    ascii_lower_seq(before_subtag_separator(tag))
}

/// The language to show for a setting and the system's language tag. Only
/// the primary subtag counts: `ja-JP`, `ja_JP`, `JA` and `ja` are all
/// Japanese. An empty tag (the system language could not be read) falls back.
pub open spec fn resolved_language(preference: LanguagePreference, tag: Seq<char>) -> Language {
    match preference {
        LanguagePreference::Ja => Language::Ja,
        LanguagePreference::En => Language::En,
        LanguagePreference::System => if primary_subtag_of(tag) == seq!['j', 'a'] {
            Language::Ja
        } else if primary_subtag_of(tag) == seq!['e', 'n'] {
            Language::En
        } else {
            FALLBACK_LANGUAGE
        },
    }
}

/// The primary subtag of a language tag, in lower case.
fn primary_subtag(language_tag: &str) -> (r: Vec<char>)
    ensures
        r@ == primary_subtag_of(language_tag@),
{
    let chars = chars_of(language_tag);
    let mut out: Vec<char> = Vec::new();
    let mut k: usize = 0;
    assert(chars@.skip(0) =~= chars@);
    while k < chars.len() && chars[k] != '-' && chars[k] != '_'
        invariant
            k <= chars.len(),
            chars@ == language_tag@,
            primary_subtag_of(language_tag@) == out@ + ascii_lower_seq(before_subtag_separator(chars@.skip(k as int))),
        decreases chars.len() - k,
    {
        let ghost rest = chars@.skip(k as int);
        assert(rest.drop_first() =~= chars@.skip(k + 1));
        assert(rest[0] == chars@[k as int]);
        assert(ascii_lower_seq(seq![rest[0]] + before_subtag_separator(rest.drop_first())) =~= seq![
            crate::text::ascii_lower(rest[0]),
        ] + ascii_lower_seq(before_subtag_separator(rest.drop_first())));
        out.push(ascii_lower_char(chars[k]));
        assert(out@ + ascii_lower_seq(before_subtag_separator(chars@.skip(k + 1))) =~= out@.drop_last() + (seq![
            crate::text::ascii_lower(rest[0]),
        ] + ascii_lower_seq(before_subtag_separator(rest.drop_first()))));
        k = k + 1;
    }
    proof {
        let rest = chars@.skip(k as int);
        if k < chars.len() {
            assert(rest[0] == chars@[k as int]);
        }
        assert(before_subtag_separator(rest) =~= Seq::<char>::empty());
        assert(ascii_lower_seq(Seq::<char>::empty()) =~= Seq::<char>::empty());
        assert(out@ + Seq::<char>::empty() =~= out@);
    }
    out
}

/// Decides the language to show from the setting and the system's BCP 47
/// language tag (`ja-JP`, `en-US`, ...; empty when it could not be read).
pub fn resolve_language(preference: LanguagePreference, os_language_tag: &str) -> (r: Language)
    ensures
        r == resolved_language(preference, os_language_tag@),
{
    match preference {
        LanguagePreference::Ja => Language::Ja,
        LanguagePreference::En => Language::En,
        LanguagePreference::System => {
            let subtag = primary_subtag(os_language_tag);
            if subtag.len() == 2 && subtag[0] == 'j' && subtag[1] == 'a' {
                assert(subtag@ =~= seq!['j', 'a']);
                Language::Ja
            } else if subtag.len() == 2 && subtag[0] == 'e' && subtag[1] == 'n' {
                assert(subtag@ =~= seq!['e', 'n']);
                assert(subtag@ != seq!['j', 'a']);
                Language::En
            } else {
                assert(subtag@ != seq!['j', 'a']) by {
                    if subtag@ == seq!['j', 'a'] {
                        assert(subtag@[0] == 'j' && subtag@[1] == 'a');
                    }
                }
                assert(subtag@ != seq!['e', 'n']) by {
                    if subtag@ == seq!['e', 'n'] {
                        assert(subtag@[0] == 'e' && subtag@[1] == 'n');
                    }
                }
                FALLBACK_LANGUAGE
            }
        },
    }
}

} // verus!
