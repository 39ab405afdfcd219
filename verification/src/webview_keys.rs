//! Routing of key presses received while the web view has focus.
//!
//! The web view takes key presses in another process and never hands them to
//! the host window's accelerators, so menu accelerators and access keys are
//! matched here and sent to the same handling as a menu selection.

use vstd::prelude::*;
use crate::menu::{MenuCommand, accelerator_table, accelerators, implemented, is_implemented};
use crate::text::chars_of;

verus! {

/// A key press and the state of the modifier keys.
#[derive(Debug, Clone, Copy, PartialEq, Eq, Structural)]
pub struct KeyPress {
    /// Received as a system key press (with `Alt`).
    pub system: bool,
    pub virtual_key: u16,
    pub ctrl: bool,
    pub shift: bool,
    pub alt: bool,
}

/// Where a key press goes.
#[derive(Debug, Clone, Copy, PartialEq, Eq, Structural)]
pub enum KeyRoute {
    /// The same handling as selecting the menu item.
    Command(MenuCommand),
    /// An access key for the menu bar; the lower-case character.
    MenuAccessKey(u16),
    /// Left to the page.
    Page,
}

/// Modifiers and virtual key of a key combination.
#[derive(Debug, Clone, Copy, PartialEq, Eq, Structural)]
pub struct Chord {
    pub ctrl: bool,
    pub shift: bool,
    pub alt: bool,
    pub virtual_key: u16,
}

impl Chord {
    /// The combination of a key press.
    pub fn of(key: KeyPress) -> (r: Chord)
        ensures
            r == chord_of(key),
    {
        Chord { ctrl: key.ctrl, shift: key.shift, alt: key.alt, virtual_key: key.virtual_key }
    }
}

pub open spec fn chord_of(key: KeyPress) -> Chord {
    Chord { ctrl: key.ctrl, shift: key.shift, alt: key.alt, virtual_key: key.virtual_key }
}

/// Index of the last `c`, or -1.
pub open spec fn last_index(s: Seq<char>, c: char) -> int
    decreases s.len(),
{
    if s.len() == 0 {
        -1
    } else if s.last() == c {
        s.len() - 1
    } else {
        last_index(s.drop_last(), c)
    }
}

/// Whether every `+`-separated non-empty modifier name is known, and the
/// chord's modifiers after them.
pub open spec fn modifiers_of(names: Seq<Seq<char>>) -> Option<(bool, bool, bool)>
    decreases names.len(),
{
    if names.len() == 0 {
        Some((false, false, false))
    } else {
        match modifiers_of(names.drop_last()) {
            None => None,
            Some((c, s, a)) => {
                let n = names.last();
                if n.len() == 0 {
                    Some((c, s, a))
                } else if n == "Ctrl"@ {
                    Some((true, s, a))
                } else if n == "Shift"@ {
                    Some((c, true, a))
                } else if n == "Alt"@ {
                    Some((c, s, true))
                } else {
                    None
                }
            },
        }
    }
}

/// Whether all characters are ASCII digits.
pub open spec fn all_digits(s: Seq<char>) -> bool {
    forall|k: int| 0 <= k < s.len() ==> '0' <= #[trigger] s[k] && s[k] <= '9'
}

/// The decimal value of ASCII digits.
pub open spec fn decimal_value(s: Seq<char>) -> nat
    decreases s.len(),
{
    if s.len() == 0 {
        0
    } else {
        decimal_value(s.drop_last()) * 10 + (s.last() as nat - '0' as nat) as nat
    }
}

/// The virtual key of a key name: an upper-case letter or a digit, `F1` to
/// `F24`, `Equal` or `Minus`, as the native accelerator table registers them.
pub open spec fn key_code(key: Seq<char>) -> Option<u16> {
    if key.len() == 1 && (('A' <= key[0] && key[0] <= 'Z') || ('0' <= key[0] && key[0] <= '9')) {
        Some(key[0] as u16)
    } else if key.len() >= 2 && key[0] == 'F' && all_digits(key.drop_first()) && 1 <= decimal_value(key.drop_first())
        <= 24 {
        Some((0x6f + decimal_value(key.drop_first())) as u16)
    } else if key == "Equal"@ {
        Some(0xbb)
    } else if key == "Minus"@ {
        Some(0xbd)
    } else {
        None
    }
}

/// The chord an accelerator notation denotes: modifiers before the last
/// `+`, the key after it; `None` for notation outside the names used here.
pub open spec fn chord_of_notation(a: Seq<char>) -> Option<Chord> {
    let at = last_index(a, '+');
    let (modifiers, key) = if at < 0 {
        (Seq::<char>::empty(), a)
    } else {
        (a.take(at), a.skip(at + 1))
    };
    match modifiers_of(crate::path_guard::split_on(modifiers, '+')) {
        None => None,
        Some((c, s, al)) => match key_code(key) {
            None => None,
            Some(v) => Some(Chord { ctrl: c, shift: s, alt: al, virtual_key: v }),
        },
    }
}

/// The chords of the accelerator table, in its order: `Ctrl` with `O`, `W`,
/// `B`, `Equal`, `Minus` and `0`, and `F5` alone.
pub open spec fn accelerator_chords() -> Seq<Chord> {
    seq![
        Chord { ctrl: true, shift: false, alt: false, virtual_key: 0x4f },
        Chord { ctrl: true, shift: false, alt: false, virtual_key: 0x57 },
        Chord { ctrl: true, shift: false, alt: false, virtual_key: 0x42 },
        Chord { ctrl: false, shift: false, alt: false, virtual_key: 0x74 },
        Chord { ctrl: true, shift: false, alt: false, virtual_key: 0xbb },
        Chord { ctrl: true, shift: false, alt: false, virtual_key: 0xbd },
        Chord { ctrl: true, shift: false, alt: false, virtual_key: 0x30 },
    ]
}

proof fn lemma_split_without_separator(s: Seq<char>, sep: char)
    requires
        !s.contains(sep),
    ensures
        crate::path_guard::split_on(s, sep) == seq![s],
    decreases s.len(),
{
    if s.len() > 0 {
        assert(!s.drop_last().contains(sep)) by {
            if s.drop_last().contains(sep) {
                let k = choose|k: int| 0 <= k < s.drop_last().len() && s.drop_last()[k] == sep;
                assert(s[k] == sep);
            }
        }
        lemma_split_without_separator(s.drop_last(), sep);
        assert(s.last() != sep) by {
            assert(s[s.len() - 1] == s.last());
        }
        assert(s.drop_last().push(s.last()) =~= s);
        let prev = seq![s.drop_last()];
        assert(prev.last() == s.drop_last());
        assert(prev.update(prev.len() - 1, prev.last().push(s.last())) =~= seq![s]);
    } else {
        assert(s =~= Seq::<char>::empty());
    }
}

proof fn lemma_no_separator_index(s: Seq<char>, c: char)
    requires
        !s.contains(c),
    ensures
        last_index(s, c) == -1,
{
    lemma_last_index(s, c);
    if last_index(s, c) >= 0 {
        assert(s[last_index(s, c)] == c);
    }
}

/// A notation `Ctrl+key`, with a key name holding no `+`.
proof fn lemma_ctrl_notation(key: Seq<char>)
    requires
        !key.contains('+'),
    ensures
        chord_of_notation(seq!['C', 't', 'r', 'l', '+'] + key) == match key_code(key) {
            Some(v) => Some(Chord { ctrl: true, shift: false, alt: false, virtual_key: v }),
            None => None,
        },
{
    let ctrl = seq!['C', 't', 'r', 'l'];
    let a = seq!['C', 't', 'r', 'l', '+'] + key;
    lemma_last_index(a, '+');
    let at = last_index(a, '+');
    assert(a[4] == '+');
    if at > 4 {
        assert(key[at - 5] == a[at]);
    }
    assert(at == 4);
    assert(a.take(4) =~= ctrl);
    assert(a.skip(5) =~= key);
    assert(!ctrl.contains('+')) by {
        if ctrl.contains('+') {
            let k = choose|k: int| 0 <= k < ctrl.len() && ctrl[k] == '+';
        }
    }
    lemma_split_without_separator(ctrl, '+');
    reveal_strlit("Ctrl");
    assert(ctrl =~= "Ctrl"@);
    let names = seq![ctrl];
    assert(names.drop_last() =~= Seq::<Seq<char>>::empty());
    assert(names.last() == "Ctrl"@);
    assert(modifiers_of(names.drop_last()) == Some((false, false, false)));
    assert(modifiers_of(names) == Some((true, false, false)));
    assert(crate::path_guard::split_on(a.take(at), '+') == names);
}

/// Every accelerator of the menu table parses, to the chord its notation
/// names: the matching of key presses covers the whole table.
pub proof fn every_accelerator_parses()
    ensures
        forall|k: int| 0 <= k < 7 ==> chord_of_notation(#[trigger] accelerator_table()[k].1) == Some(accelerator_chords()[k]),
{
    reveal_strlit("Ctrl+O");
    reveal_strlit("Ctrl+W");
    reveal_strlit("Ctrl+B");
    reveal_strlit("F5");
    reveal_strlit("Ctrl+Equal");
    reveal_strlit("Ctrl+Minus");
    reveal_strlit("Ctrl+0");
    reveal_strlit("Equal");
    reveal_strlit("Minus");
    let prefix = seq!['C', 't', 'r', 'l', '+'];
    let keys = seq![seq!['O'], seq!['W'], seq!['B'], seq!['E', 'q', 'u', 'a', 'l'], seq!['M', 'i', 'n', 'u', 's'], seq!['0']];
    assert forall|j: int| 0 <= j < keys.len() implies !(#[trigger] keys[j]).contains('+') by {
        if keys[j].contains('+') {
            let k = choose|k: int| 0 <= k < keys[j].len() && keys[j][k] == '+';
        }
    }
    lemma_ctrl_notation(keys[0]);
    lemma_ctrl_notation(keys[1]);
    lemma_ctrl_notation(keys[2]);
    lemma_ctrl_notation(keys[3]);
    lemma_ctrl_notation(keys[4]);
    lemma_ctrl_notation(keys[5]);
    assert("Ctrl+O"@ =~= prefix + keys[0]);
    assert("Ctrl+W"@ =~= prefix + keys[1]);
    assert("Ctrl+B"@ =~= prefix + keys[2]);
    assert("Ctrl+Equal"@ =~= prefix + keys[3]);
    assert("Ctrl+Minus"@ =~= prefix + keys[4]);
    assert("Ctrl+0"@ =~= prefix + keys[5]);
    assert(keys[3] =~= "Equal"@);
    assert(keys[4] =~= "Minus"@);
    let f5 = "F5"@;
    assert(!f5.contains('+')) by {
        if f5.contains('+') {
            let k = choose|k: int| 0 <= k < f5.len() && f5[k] == '+';
        }
    }
    lemma_no_separator_index(f5, '+');
    lemma_split_without_separator(Seq::<char>::empty(), '+');
    assert(seq![Seq::<char>::empty()].drop_last() =~= Seq::<Seq<char>>::empty());
    let digits = f5.drop_first();
    assert(digits =~= seq!['5']);
    assert(digits.drop_last() =~= Seq::<char>::empty());
    assert(decimal_value(digits.drop_last()) == 0);
    assert(decimal_value(digits) == decimal_value(digits.drop_last()) * 10 + ('5' as nat - '0' as nat));
    assert(decimal_value(digits) == 5);
    assert(all_digits(digits));
    assert(key_code(f5) == Some(0x74u16));
    let no_names = seq![Seq::<char>::empty()];
    assert(crate::path_guard::split_on(Seq::<char>::empty(), '+') == no_names);
    assert(no_names.drop_last() =~= Seq::<Seq<char>>::empty());
    assert(modifiers_of(no_names.drop_last()) == Some((false, false, false)));
    assert(no_names.last().len() == 0);
    assert(modifiers_of(no_names) == Some((false, false, false)));
    assert(last_index(f5, '+') == -1);
    let t = accelerator_table();
    let c = accelerator_chords();
    assert(chord_of_notation(t[0].1) == Some(c[0]));
    assert(chord_of_notation(t[1].1) == Some(c[1]));
    assert(chord_of_notation(t[2].1) == Some(c[2]));
    assert(chord_of_notation(t[3].1) == Some(c[3]));
    assert(chord_of_notation(t[4].1) == Some(c[4]));
    assert(chord_of_notation(t[5].1) == Some(c[5]));
    assert(chord_of_notation(t[6].1) == Some(c[6]));
}

proof fn lemma_last_index(s: Seq<char>, c: char)
    ensures
        -1 <= last_index(s, c) < s.len(),
        last_index(s, c) >= 0 ==> s[last_index(s, c)] == c,
        forall|k: int| last_index(s, c) < k < s.len() ==> s[k] != c,
    decreases s.len(),
{
    if s.len() > 0 && s.last() != c {
        lemma_last_index(s.drop_last(), c);
        assert forall|k: int| last_index(s, c) < k < s.len() implies s[k] != c by {
            if k < s.len() - 1 {
                assert(s[k] == s.drop_last()[k]);
            }
        }
    }
}

/// Converts accelerator notation to a key combination.
///
/// Only the key names used by the accelerators are known (letters, digits,
/// `F1` to `F24`, `Equal`, `Minus`); other notation gives `None`.
pub fn parse(accelerator: &str) -> (r: Option<Chord>)
    ensures
        r == chord_of_notation(accelerator@),
{
    let a = chars_of(accelerator);
    let mut at: usize = a.len();
    assert(a@.take(a.len() as int) =~= a@);
    while at > 0 && a[at - 1] != '+'
        invariant
            at <= a.len(),
            a@ == accelerator@,
            last_index(a@, '+') == last_index(a@.take(at as int), '+'),
        decreases at,
    {
        assert(a@.take(at as int).drop_last() =~= a@.take(at - 1));
        at = at - 1;
    }
    proof {
        if at > 0 {
            assert(a@.take(at as int).last() == a@[at - 1]);
        } else {
            assert(a@.take(0).len() == 0);
        }
    }
    let mut modifiers: Vec<char> = Vec::new();
    let mut key: Vec<char> = Vec::new();
    let mut k: usize = 0;
    let split: usize = if at == 0 { 0 } else { at - 1 };
    while k < a.len()
        invariant
            k <= a.len(),
            split <= a.len(),
            at == 0 ==> split == 0,
            at > 0 ==> split == at - 1,
            modifiers@ == a@.take(if k < split { k as int } else { split as int }),
            at > 0 ==> key@ == (if k <= at { Seq::<char>::empty() } else { a@.subrange(at as int, k as int) }),
            at == 0 ==> key@ == a@.take(k as int),
        decreases a.len() - k,
    {
        if at > 0 && k < split {
            modifiers.push(a[k]);
            assert(a@.take(k + 1) =~= a@.take(k as int).push(a@[k as int]));
        } else if at == 0 || k >= at {
            key.push(a[k]);
            proof {
                if at == 0 {
                    assert(a@.take(k + 1) =~= a@.take(k as int).push(a@[k as int]));
                } else if k == at {
                    assert(a@.subrange(at as int, k + 1) =~= seq![a@[k as int]]);
                } else {
                    assert(a@.subrange(at as int, k + 1) =~= a@.subrange(at as int, k as int).push(a@[k as int]));
                }
            }
        }
        k = k + 1;
    }
    proof {
        if at > 0 {
            assert(last_index(a@, '+') == at - 1);
            assert(modifiers@ == a@.take(split as int));
            assert(a@.take(split as int) =~= a@.take(last_index(a@, '+')));
            if k <= at {
                assert(a@.subrange(at as int, a.len() as int) =~= Seq::<char>::empty());
            }
            assert(key@ == a@.subrange(at as int, a.len() as int));
            assert(a@.subrange(at as int, a.len() as int) =~= a@.skip(last_index(a@, '+') + 1));
        } else {
            assert(a@.take(a.len() as int) =~= a@);
            assert(last_index(a@, '+') == -1);
            assert(modifiers@ =~= Seq::<char>::empty());
            assert(key@ == a@);
        }
    }
    // Modifiers.
    let names = crate::path_guard::split_chars(&modifiers, '+');
    let ghost ns = names@.map_values(|x: Vec<char>| x@);
    assert(chord_of_notation(accelerator@) == match modifiers_of(ns) {
        None => None,
        Some((c, s, al)) => match key_code(key@) {
            None => None,
            Some(v) => Some(Chord { ctrl: c, shift: s, alt: al, virtual_key: v }),
        },
    });
    let mut ctrl = false;
    let mut shift = false;
    let mut alt = false;
    let mut i: usize = 0;
    while i < names.len()
        invariant
            i <= names.len(),
            ns == names@.map_values(|x: Vec<char>| x@),
            modifiers_of(ns.take(i as int)) == Some((ctrl, shift, alt)),
            chord_of_notation(accelerator@) == match modifiers_of(ns) {
                None => None,
                Some((c, s, al)) => match key_code(key@) {
                    None => None,
                    Some(v) => Some(Chord { ctrl: c, shift: s, alt: al, virtual_key: v }),
                },
            },
        decreases names.len() - i,
    {
        let n = &names[i];
        assert(ns.take(i + 1).drop_last() =~= ns.take(i as int));
        assert(ns.take(i + 1).last() == n@);
        proof {
            reveal_strlit("Ctrl");
            reveal_strlit("Shift");
            reveal_strlit("Alt");
        }
        if n.len() == 0 {
        } else if n.len() == 4 && n[0] == 'C' && n[1] == 't' && n[2] == 'r' && n[3] == 'l' {
            assert(n@ =~= "Ctrl"@);
            ctrl = true;
        } else if n.len() == 5 && n[0] == 'S' && n[1] == 'h' && n[2] == 'i' && n[3] == 'f' && n[4] == 't' {
            assert(n@ =~= "Shift"@);
            assert(n@ != "Ctrl"@);
            shift = true;
        } else if n.len() == 3 && n[0] == 'A' && n[1] == 'l' && n[2] == 't' {
            assert(n@ =~= "Alt"@);
            assert(n@ != "Ctrl"@ && n@ != "Shift"@);
            alt = true;
        } else {
            proof {
                if n@ == "Ctrl"@ {
                    assert(n@[0] == 'C' && n@[1] == 't' && n@[2] == 'r' && n@[3] == 'l');
                }
                if n@ == "Shift"@ {
                    assert(n@[0] == 'S' && n@[1] == 'h' && n@[2] == 'i' && n@[3] == 'f' && n@[4] == 't');
                }
                if n@ == "Alt"@ {
                    assert(n@[0] == 'A' && n@[1] == 'l' && n@[2] == 't');
                }
                assert(modifiers_of(ns.take(i + 1)) is None);
                lemma_modifiers_none(ns, i + 1);
            }
            return None;
        }
        i = i + 1;
    }
    assert(ns.take(i as int) =~= ns);
    let code = match key_code_of(&key) {
        Some(c) => c,
        None => {
            return None;
        },
    };
    Some(Chord { ctrl, shift, alt, virtual_key: code })
}

/// Once a modifier name is unknown, the whole notation is refused.
proof fn lemma_modifiers_none(ns: Seq<Seq<char>>, k: int)
    requires
        0 <= k <= ns.len(),
        modifiers_of(ns.take(k)) is None,
    ensures
        modifiers_of(ns) is None,
    decreases ns.len() - k,
{
    if k < ns.len() {
        assert(ns.take(k + 1).drop_last() =~= ns.take(k));
        lemma_modifiers_none(ns, k + 1);
    } else {
        assert(ns.take(k) =~= ns);
    }
}

/// `key_code` on characters.
fn key_code_of(key: &Vec<char>) -> (r: Option<u16>)
    ensures
        r == key_code(key@),
{
    proof {
        reveal_strlit("Equal");
        reveal_strlit("Minus");
    }
    if key.len() == 1 && (('A' <= key[0] && key[0] <= 'Z') || ('0' <= key[0] && key[0] <= '9')) {
        let c = key[0];
        return Some(c as u16);
    }
    if key.len() >= 2 && key[0] == 'F' {
        let ghost digits = key@.drop_first();
        proof {
            assert(key@ != "Equal"@) by {
                if key@ == "Equal"@ {
                    assert(key@[0] == 'E');
                }
            }
            assert(key@ != "Minus"@) by {
                if key@ == "Minus"@ {
                    assert(key@[0] == 'M');
                }
            }
        }
        let mut value: u32 = 0;
        let mut k: usize = 1;
        while k < key.len()
            invariant
                1 <= k <= key.len(),
                key.len() >= 2,
                key@[0] == 'F',
                key@ != "Equal"@,
                key@ != "Minus"@,
                digits == key@.drop_first(),
                all_digits(digits.take(k - 1)),
                decimal_value(digits.take(k - 1)) == value,
                value <= 24,
            decreases key.len() - k,
        {
            let c = key[k];
            if !('0' <= c && c <= '9') {
                proof {
                    assert(digits[k - 1] == c);
                    assert(!all_digits(digits));
                }
                return None;
            }
            let d: u32 = (c as u32) - ('0' as u32);
            proof {
                assert(digits.take(k as int).drop_last() =~= digits.take(k - 1));
                assert(digits.take(k as int).last() == c);
                assert forall|m: int| 0 <= m < digits.take(k as int).len() implies '0' <= #[trigger] digits.take(
                    k as int,
                )[m] && digits.take(k as int)[m] <= '9' by {
                    if m < k - 1 {
                        assert(digits.take(k as int)[m] == digits.take(k - 1)[m]);
                    }
                }
            }
            let next = value * 10 + d;
            if next > 24 {
                proof {
                    lemma_decimal_value_grows(digits, k as int);
                }
                return None;
            }
            value = next;
            k = k + 1;
        }
        assert(digits.take(k - 1) =~= digits);
        if value < 1 {
            return None;
        }
        proof {
            assert(key@ != "Equal"@) by {
                if key@ == "Equal"@ {
                    assert(key@[0] == 'E');
                }
            }
            assert(key@ != "Minus"@) by {
                if key@ == "Minus"@ {
                    assert(key@[0] == 'M');
                }
            }
        }
        return Some((0x6f + value) as u16);
    }
    if key.len() == 5 && key[0] == 'E' && key[1] == 'q' && key[2] == 'u' && key[3] == 'a' && key[4] == 'l' {
        assert(key@ =~= "Equal"@);
        return Some(0xbb);
    }
    if key.len() == 5 && key[0] == 'M' && key[1] == 'i' && key[2] == 'n' && key[3] == 'u' && key[4] == 's' {
        assert(key@ =~= "Minus"@);
        assert(key@ != "Equal"@);
        return Some(0xbd);
    }
    proof {
        if key@ == "Equal"@ {
            assert(key@[0] == 'E' && key@[1] == 'q' && key@[2] == 'u' && key@[3] == 'a' && key@[4] == 'l');
        }
        if key@ == "Minus"@ {
            assert(key@[0] == 'M' && key@[1] == 'i' && key@[2] == 'n' && key@[3] == 'u' && key@[4] == 's');
        }
    }
    None
}

/// Once a prefix of digits is above 24, the whole number is too.
proof fn lemma_decimal_value_grows(digits: Seq<char>, k: int)
    requires
        1 <= k <= digits.len(),
        all_digits(digits.take(k)),
        decimal_value(digits.take(k)) > 24,
    ensures
        !(all_digits(digits) && 1 <= decimal_value(digits) <= 24),
    decreases digits.len() - k,
{
    if k < digits.len() {
        if all_digits(digits) {
            let t = digits.take(k + 1);
            assert(t.drop_last() =~= digits.take(k));
            assert(t.last() == digits[k]);
            assert('0' <= digits[k] && digits[k] <= '9');
            assert forall|m: int| 0 <= m < t.len() implies '0' <= #[trigger] t[m] && t[m] <= '9' by {
                assert(t[m] == digits[m]);
            }
            lemma_decimal_value_grows(digits, k + 1);
        }
    } else {
        assert(digits.take(k) =~= digits);
    }
}

/// The first accelerator assignment of an implemented command whose
/// notation denotes `chord`.
pub open spec fn matching_command(chord: Chord, from: int) -> Option<MenuCommand>
    decreases 7 - from,
{
    if from >= 7 || from < 0 {
        None
    } else {
        let (c, a) = accelerator_table()[from];
        if is_implemented(c) && chord_of_notation(a) == Some(chord) {
            Some(c)
        } else {
            matching_command(chord, from + 1)
        }
    }
}

/// Whether a virtual key is a digit or an upper-case letter.
pub open spec fn is_alphanumeric_key(vk: u16) -> bool {
    (0x30 <= vk && vk <= 0x39) || (0x41 <= vk && vk <= 0x5a)
}

/// Where a key press goes: an implemented command's accelerator (modifiers
/// matching exactly) runs the command; `Alt` with a letter or digit (without
/// `Ctrl`) opens the menu by access key; anything else stays with the page.
pub open spec fn routed(key: KeyPress) -> KeyRoute {
    match matching_command(chord_of(key), 0) {
        Some(c) => KeyRoute::Command(c),
        None => if key.system && key.alt && !key.ctrl && is_alphanumeric_key(key.virtual_key) {
            KeyRoute::MenuAccessKey(if 0x41 <= key.virtual_key { (key.virtual_key + 32) as u16 } else { key.virtual_key })
        } else {
            KeyRoute::Page
        },
    }
}

/// Decides where a key press goes. Only accelerators of commands on the
/// menu are taken; others are not registered natively either.
pub fn route(key: KeyPress) -> (r: KeyRoute)
    ensures
        r == routed(key),
{
    let table = accelerators();
    let on_menu = implemented();
    let chord = Chord::of(key);
    let mut k: usize = 0;
    while k < 7
        invariant
            k <= 7,
            chord == chord_of(key),
            forall|j: int| 0 <= j < 7 ==> (#[trigger] table@[j]).0 == accelerator_table()[j].0 && table@[j].1@
                == accelerator_table()[j].1,
            forall|c: MenuCommand| is_implemented(c) <==> on_menu@.contains(c),
            matching_command(chord, 0) == matching_command(chord, k as int),
        decreases 7 - k,
    {
        let (command, notation) = table[k];
        assert(command == accelerator_table()[k as int].0 && notation@ == accelerator_table()[k as int].1);
        let listed = command == on_menu[0] || command == on_menu[1];
        proof {
            assert(on_menu@.contains(command) <==> (command == on_menu@[0] || command == on_menu@[1])) by {
                if on_menu@.contains(command) {
                    let m = choose|m: int| 0 <= m < on_menu@.len() && on_menu@[m] == command;
                }
            }
        }
        if listed && parse(notation) == Some(chord) {
            return KeyRoute::Command(command);
        }
        k = k + 1;
    }
    let vk = key.virtual_key;
    if key.system && key.alt && !key.ctrl && ((0x30 <= vk && vk <= 0x39) || (0x41 <= vk && vk <= 0x5a)) {
        return KeyRoute::MenuAccessKey(if 0x41 <= vk { vk + 32 } else { vk });
    }
    KeyRoute::Page
}

/// A key press routed to a command always routes to a command on the menu.
pub proof fn routed_commands_are_on_the_menu(key: KeyPress)
    ensures
        routed(key) matches KeyRoute::Command(c) ==> is_implemented(c),
{
    lemma_matching_command(chord_of(key), 0);
}

proof fn lemma_matching_command(chord: Chord, from: int)
    ensures
        matching_command(chord, from) matches Some(c) ==> is_implemented(c),
    decreases 7 - from,
{
    if 0 <= from < 7 {
        lemma_matching_command(chord, from + 1);
    }
}

/// A key press runs a command exactly when it is the accelerator of a
/// command on the menu, modifiers matching exactly; of the table that is
/// `Ctrl+O` for opening a folder alone. Otherwise `Alt` with a letter or a
/// digit (and no `Ctrl`) goes to the menu bar as its lower-case access key,
/// and everything else stays with the page.
pub proof fn routing_follows_the_menu_accelerators(key: KeyPress)
    ensures
        (routed(key) is Command) <==> exists|k: int|
            0 <= k < 7 && is_implemented(#[trigger] accelerator_table()[k].0) && chord_of_notation(accelerator_table()[k].1)
                == Some(chord_of(key)),
        routed(key) == KeyRoute::Command(MenuCommand::OpenFolder) <==> (key.ctrl && !key.shift && !key.alt
            && key.virtual_key == 0x4f),
        routed(key) is Command ==> routed(key) == KeyRoute::Command(MenuCommand::OpenFolder),
        !(routed(key) is Command) ==> (routed(key) is MenuAccessKey <==> key.system && key.alt && !key.ctrl
            && is_alphanumeric_key(key.virtual_key)),
        routed(key) matches KeyRoute::MenuAccessKey(c) ==> c == (if 0x41 <= key.virtual_key {
            (key.virtual_key + 32) as u16
        } else {
            key.virtual_key
        }),
{
    every_accelerator_parses();
    let t = accelerator_table();
    let chord = chord_of(key);
    assert(chord_of_notation(t[0].1) == Some(accelerator_chords()[0]));
    assert(is_implemented(t[0].0));
    assert(forall|k: int| 1 <= k < 7 ==> !is_implemented(#[trigger] t[k].0)) by {
        assert(!is_implemented(t[1].0));
        assert(!is_implemented(t[2].0));
        assert(!is_implemented(t[3].0));
        assert(!is_implemented(t[4].0));
        assert(!is_implemented(t[5].0));
        assert(!is_implemented(t[6].0));
    }
    assert(matching_command(chord, 7) is None);
    assert(matching_command(chord, 6) is None);
    assert(matching_command(chord, 5) is None);
    assert(matching_command(chord, 4) is None);
    assert(matching_command(chord, 3) is None);
    assert(matching_command(chord, 2) is None);
    assert(matching_command(chord, 1) is None);
    if chord == accelerator_chords()[0] {
        assert(matching_command(chord, 0) == Some(MenuCommand::OpenFolder));
    } else {
        assert(matching_command(chord, 0) is None);
    }
    if exists|k: int|
        0 <= k < 7 && is_implemented(#[trigger] accelerator_table()[k].0) && chord_of_notation(accelerator_table()[k].1)
            == Some(chord) {
        let k = choose|k: int|
            0 <= k < 7 && is_implemented(#[trigger] accelerator_table()[k].0) && chord_of_notation(accelerator_table()[k].1)
                == Some(chord);
        assert(k == 0);
    }
    if routed(key) is Command {
        assert(is_implemented(accelerator_table()[0].0));
    }
}

} // verus!
