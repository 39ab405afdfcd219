//! Natural ordering of names, used to sort the tree.
//!
//! Runs of ASCII digits compare as numbers: by their value, compared by digit
//! count once leading zeros are dropped (so any length works), and among equal
//! values the run with more leading zeros comes first. Other characters
//! compare one at a time by their lower-case mapping in code point order. A
//! digit run is taken only when both names continue with a digit. When
//! everything compares equal, the names themselves decide in code point order,
//! which makes the comparison a total order.

use std::cmp::Ordering;
use vstd::prelude::*;
use crate::text::{ascii_lower, chars_of, is_ascii_text, is_digit};

verus! {

/// Three-way comparison result used by the rules below.
#[derive(Debug, Clone, Copy, PartialEq, Eq, Structural)]
pub enum Order {
    Less,
    Equal,
    Greater,
}

/// The opposite result.
pub open spec fn flip(o: Order) -> Order {
    match o {
        Order::Less => Order::Greater,
        Order::Equal => Order::Equal,
        Order::Greater => Order::Less,
    }
}

/// The lower-case mapping of a character, as `char::to_lowercase` yields it.
pub uninterp spec fn lowercase_of(c: char) -> Seq<char>;

/// Lower-case mapping of one character.
///
/// Trusted: calls `char::to_lowercase` and collects what it yields. The
/// contract names the result; for an ASCII character it is its ASCII
/// lower-case letter, or the character itself when it has no case.
#[verifier::external_body]
fn lowercase(c: char) -> (r: Vec<char>)
    ensures
        r@ == lowercase_of(c),
        c <= '\x7f' ==> r@ == seq![crate::text::ascii_lower(c)],
{
    c.to_lowercase().collect()
}

/// Lexicographic order of character sequences by code point.
pub open spec fn lex(a: Seq<char>, b: Seq<char>) -> Order
    decreases a.len(),
{
    if a.len() == 0 {
        if b.len() == 0 {
            Order::Equal
        } else {
            Order::Less
        }
    } else if b.len() == 0 {
        Order::Greater
    } else if a[0] < b[0] {
        Order::Less
    } else if b[0] < a[0] {
        Order::Greater
    } else {
        lex(a.drop_first(), b.drop_first())
    }
}

/// Number of leading ASCII digits.
pub open spec fn leading_digits(s: Seq<char>) -> nat
    decreases s.len(),
{
    if s.len() > 0 && is_digit(s[0]) {
        1 + leading_digits(s.drop_first())
    } else {
        0
    }
}

/// Number of leading `'0'` characters.
pub open spec fn leading_zeros(s: Seq<char>) -> nat
    decreases s.len(),
{
    if s.len() > 0 && s[0] == '0' {
        1 + leading_zeros(s.drop_first())
    } else {
        0
    }
}

pub proof fn lemma_leading_runs(s: Seq<char>)
    ensures
        leading_digits(s) <= s.len(),
        leading_zeros(s) <= s.len(),
        forall|k: int| 0 <= k < leading_digits(s) ==> is_digit(#[trigger] s[k]),
        forall|k: int| 0 <= k < leading_zeros(s) ==> #[trigger] s[k] == '0',
        leading_digits(s) < s.len() ==> !is_digit(s[leading_digits(s) as int]),
        leading_zeros(s) < s.len() ==> s[leading_zeros(s) as int] != '0',
    decreases s.len(),
{
    if s.len() > 0 {
        let t = s.drop_first();
        lemma_leading_runs(t);
        assert forall|k: int| 0 <= k < leading_digits(s) implies is_digit(#[trigger] s[k]) by {
            if k > 0 {
                assert(s[k] == t[k - 1]);
            }
        }
        assert forall|k: int| 0 <= k < leading_zeros(s) implies #[trigger] s[k] == '0' by {
            if k > 0 {
                assert(s[k] == t[k - 1]);
            }
        }
        if leading_digits(s) > 0 && leading_digits(s) < s.len() {
            assert(s[leading_digits(s) as int] == t[leading_digits(t) as int]);
        }
        if leading_zeros(s) > 0 && leading_zeros(s) < s.len() {
            assert(s[leading_zeros(s) as int] == t[leading_zeros(t) as int]);
        }
    }
}

/// Order of two digit runs: by value (digit count without leading zeros,
/// then digits), then the run with more leading zeros first.
pub open spec fn digits_order(l: Seq<char>, r: Seq<char>) -> Order {
    let lv = l.skip(leading_zeros(l) as int);
    let rv = r.skip(leading_zeros(r) as int);
    if lv.len() < rv.len() {
        Order::Less
    } else if rv.len() < lv.len() {
        Order::Greater
    } else {
        match lex(lv, rv) {
            Order::Equal => if r.len() < l.len() {
                Order::Less
            } else if l.len() < r.len() {
                Order::Greater
            } else {
                Order::Equal
            },
            o => o,
        }
    }
}

/// The natural order of two names, before the final tie-break, with `fold`
/// giving the text each character compares by.
pub open spec fn natural_order_by(fold: spec_fn(char) -> Seq<char>, a: Seq<char>, b: Seq<char>) -> Order
    decreases a.len() + b.len(),
{
    if a.len() > 0 && b.len() > 0 && is_digit(a[0]) && is_digit(b[0]) {
        proof {
            lemma_leading_runs(a);
            lemma_leading_runs(b);
        }
        let la = leading_digits(a) as int;
        let lb = leading_digits(b) as int;
        match digits_order(a.take(la), b.take(lb)) {
            Order::Equal => natural_order_by(fold, a.skip(la), b.skip(lb)),
            o => o,
        }
    } else if a.len() == 0 {
        if b.len() == 0 {
            Order::Equal
        } else {
            Order::Less
        }
    } else if b.len() == 0 {
        Order::Greater
    } else {
        match lex(fold(a[0]), fold(b[0])) {
            Order::Equal => natural_order_by(fold, a.drop_first(), b.drop_first()),
            o => o,
        }
    }
}

/// The natural order, then code point order.
pub open spec fn natural_rank_by(fold: spec_fn(char) -> Seq<char>, a: Seq<char>, b: Seq<char>) -> Order {
    match natural_order_by(fold, a, b) {
        Order::Equal => lex(a, b),
        o => o,
    }
}

/// Characters compare by their lower-case mapping.
pub open spec fn unicode_fold() -> spec_fn(char) -> Seq<char> {
    |c: char| lowercase_of(c)
}

/// Characters compare by their ASCII lower case.
pub open spec fn ascii_fold() -> spec_fn(char) -> Seq<char> {
    |c: char| seq![ascii_lower(c)]
}

/// The natural order of two names, before the final tie-break.
pub open spec fn natural_order(a: Seq<char>, b: Seq<char>) -> Order {
    natural_order_by(unicode_fold(), a, b)
}

/// The total order on names: the natural order, then code point order.
pub open spec fn natural_rank(a: Seq<char>, b: Seq<char>) -> Order {
    natural_rank_by(unicode_fold(), a, b)
}

/// The total order on names made of ASCII characters, where the lower-case
/// mapping is ASCII lower-casing.
pub open spec fn natural_rank_ascii(a: Seq<char>, b: Seq<char>) -> Order {
    natural_rank_by(ascii_fold(), a, b)
}

/// The standard library's ordering for a result.
pub open spec fn ordering_of(o: Order) -> Ordering {
    match o {
        Order::Less => Ordering::Less,
        Order::Equal => Ordering::Equal,
        Order::Greater => Ordering::Greater,
    }
}

proof fn lemma_lex(a: Seq<char>, b: Seq<char>)
    ensures
        lex(b, a) == flip(lex(a, b)),
        lex(a, b) == Order::Equal <==> a == b,
    decreases a.len(),
{
    if a.len() > 0 && b.len() > 0 {
        lemma_lex(a.drop_first(), b.drop_first());
        if a[0] == b[0] && a.drop_first() == b.drop_first() {
            assert(a =~= seq![a[0]] + a.drop_first());
            assert(b =~= seq![b[0]] + b.drop_first());
        }
    } else if a.len() == 0 && b.len() == 0 {
        assert(a =~= b);
    }
}

proof fn lemma_digits_order(l: Seq<char>, r: Seq<char>)
    ensures
        digits_order(r, l) == flip(digits_order(l, r)),
{
    lemma_lex(l.skip(leading_zeros(l) as int), r.skip(leading_zeros(r) as int));
}

proof fn lemma_natural_order_flip(fold: spec_fn(char) -> Seq<char>, a: Seq<char>, b: Seq<char>)
    ensures
        natural_order_by(fold, b, a) == flip(natural_order_by(fold, a, b)),
    decreases a.len() + b.len(),
{
    if a.len() > 0 && b.len() > 0 && is_digit(a[0]) && is_digit(b[0]) {
        lemma_leading_runs(a);
        lemma_leading_runs(b);
        let la = leading_digits(a) as int;
        let lb = leading_digits(b) as int;
        lemma_digits_order(a.take(la), b.take(lb));
        lemma_natural_order_flip(fold, a.skip(la), b.skip(lb));
    } else if a.len() > 0 && b.len() > 0 {
        lemma_lex(fold(a[0]), fold(b[0]));
        lemma_natural_order_flip(fold, a.drop_first(), b.drop_first());
    }
}

proof fn lemma_rank_flip(fold: spec_fn(char) -> Seq<char>, a: Seq<char>, b: Seq<char>)
    ensures
        natural_rank_by(fold, b, a) == flip(natural_rank_by(fold, a, b)),
{
    lemma_natural_order_flip(fold, a, b);
    lemma_lex(a, b);
}

/// Swapping the names reverses their order.
pub proof fn natural_rank_is_antisymmetric(a: Seq<char>, b: Seq<char>)
    ensures
        natural_rank(b, a) == flip(natural_rank(a, b)),
{
    lemma_rank_flip(unicode_fold(), a, b);
}

proof fn lemma_natural_order_refl(fold: spec_fn(char) -> Seq<char>, a: Seq<char>)
    ensures
        natural_order_by(fold, a, a) == Order::Equal,
    decreases a.len(),
{
    if a.len() > 0 && is_digit(a[0]) {
        lemma_leading_runs(a);
        let la = leading_digits(a) as int;
        let t = a.take(la);
        lemma_lex(t.skip(leading_zeros(t) as int), t.skip(leading_zeros(t) as int));
        lemma_natural_order_refl(fold, a.skip(la));
    } else if a.len() > 0 {
        lemma_lex(fold(a[0]), fold(a[0]));
        lemma_natural_order_refl(fold, a.drop_first());
    }
}

proof fn lemma_rank_equal(fold: spec_fn(char) -> Seq<char>, a: Seq<char>, b: Seq<char>)
    ensures
        natural_rank_by(fold, a, b) == Order::Equal <==> a == b,
{
    lemma_lex(a, b);
    if a == b {
        lemma_natural_order_refl(fold, a);
    }
}

/// Only equal names compare equal: the order on names is total.
pub proof fn natural_rank_is_equal_only_for_equal_names(a: Seq<char>, b: Seq<char>)
    ensures
        natural_rank(a, b) == Order::Equal <==> a == b,
{
    lemma_rank_equal(unicode_fold(), a, b);
}

// ---------------------------------------------------------------------------
// Transitivity.

/// Whether `fold` keeps `c` on its side of the ASCII digits: a digit maps to
/// itself, any other character to a text that does not begin with a digit.
pub open spec fn maps_apart_by(fold: spec_fn(char) -> Seq<char>, c: char) -> bool {
    if is_digit(c) {
        fold(c) == seq![c]
    } else {
        let l = fold(c);
        l.len() == 0 || !is_digit(l[0])
    }
}

/// Whether the lower-case mapping keeps `c` on its side of the ASCII digits.
/// Unicode's case mappings do so for every character.
pub open spec fn maps_apart_from_digits(c: char) -> bool {
    maps_apart_by(unicode_fold(), c)
}

/// Whether every character of a name maps apart from the digits.
pub open spec fn case_mapping_keeps_digits(s: Seq<char>) -> bool {
    forall|k: int| 0 <= k < s.len() ==> maps_apart_from_digits(#[trigger] s[k])
}

/// Whether every character of a name maps apart from the digits under `fold`.
pub open spec fn keeps_digits_by(fold: spec_fn(char) -> Seq<char>, s: Seq<char>) -> bool {
    forall|k: int| 0 <= k < s.len() ==> maps_apart_by(fold, #[trigger] s[k])
}

proof fn lemma_keeps_digits_skip(fold: spec_fn(char) -> Seq<char>, s: Seq<char>, n: int)
    requires
        keeps_digits_by(fold, s),
        0 <= n <= s.len(),
    ensures
        keeps_digits_by(fold, s.skip(n)),
{
    assert forall|k: int| 0 <= k < s.skip(n).len() implies maps_apart_by(fold, #[trigger] s.skip(n)[k]) by {
        assert(s.skip(n)[k] == s[k + n]);
    }
}

/// ASCII lower-casing keeps every character on its side of the digits.
proof fn lemma_ascii_keeps_digits(s: Seq<char>)
    ensures
        keeps_digits_by(ascii_fold(), s),
{
    assert forall|k: int| 0 <= k < s.len() implies maps_apart_by(ascii_fold(), #[trigger] s[k]) by {
        let c = s[k];
        if is_digit(c) {
            assert(ascii_fold()(c) =~= seq![c]);
        } else {
            assert(ascii_fold()(c)[0] == ascii_lower(c));
        }
    }
}

proof fn lemma_lex_trans(a: Seq<char>, b: Seq<char>, c: Seq<char>)
    ensures
        lex(a, b) == Order::Less && lex(b, c) == Order::Less ==> lex(a, c) == Order::Less,
    decreases a.len(),
{
    if a.len() > 0 && b.len() > 0 && c.len() > 0 {
        lemma_lex_trans(a.drop_first(), b.drop_first(), c.drop_first());
    }
}

/// Where a character that is not a digit falls against every digit.
pub open spec fn digit_side(fold: spec_fn(char) -> Seq<char>, x: char) -> Order {
    let l = fold(x);
    if l.len() == 0 || '0' > l[0] {
        Order::Greater
    } else {
        Order::Less
    }
}

proof fn lemma_digit_side(fold: spec_fn(char) -> Seq<char>, d: char, x: char)
    requires
        is_digit(d),
        !is_digit(x),
        maps_apart_by(fold, d),
        maps_apart_by(fold, x),
    ensures
        lex(fold(d), fold(x)) == digit_side(fold, x),
        lex(fold(x), fold(d)) == flip(digit_side(fold, x)),
{
    let l = fold(x);
    assert(fold(d) =~= seq![d]);
    if l.len() > 0 {
        assert(seq![d].drop_first() =~= Seq::<char>::empty());
    }
    lemma_lex(fold(d), l);
}

proof fn lemma_digits_order_equal(l: Seq<char>, r: Seq<char>)
    ensures
        digits_order(l, r) == Order::Equal <==> l == r,
{
    lemma_leading_runs(l);
    lemma_leading_runs(r);
    let zl = leading_zeros(l) as int;
    let zr = leading_zeros(r) as int;
    lemma_lex(l.skip(zl), r.skip(zr));
    if digits_order(l, r) == Order::Equal {
        assert(zl == zr);
        assert(l.take(zl) =~= r.take(zr));
        assert(l =~= l.take(zl) + l.skip(zl));
        assert(r =~= r.take(zr) + r.skip(zr));
    }
}

proof fn lemma_digits_order_trans(a: Seq<char>, b: Seq<char>, c: Seq<char>)
    ensures
        digits_order(a, b) == Order::Less && digits_order(b, c) == Order::Less ==> digits_order(a, c) == Order::Less,
{
    let va = a.skip(leading_zeros(a) as int);
    let vb = b.skip(leading_zeros(b) as int);
    let vc = c.skip(leading_zeros(c) as int);
    lemma_lex(va, vb);
    lemma_lex(vb, vc);
    lemma_lex(va, vc);
    lemma_lex_trans(va, vb, vc);
}

proof fn lemma_natural_order_trans(fold: spec_fn(char) -> Seq<char>, a: Seq<char>, b: Seq<char>, c: Seq<char>)
    requires
        keeps_digits_by(fold, a),
        keeps_digits_by(fold, b),
        keeps_digits_by(fold, c),
    ensures
        natural_order_by(fold, a, b) == Order::Less && natural_order_by(fold, b, c) != Order::Greater
            ==> natural_order_by(fold, a, c) == Order::Less,
        natural_order_by(fold, a, b) != Order::Greater && natural_order_by(fold, b, c) == Order::Less
            ==> natural_order_by(fold, a, c) == Order::Less,
        natural_order_by(fold, a, b) == Order::Equal && natural_order_by(fold, b, c) == Order::Equal
            ==> natural_order_by(fold, a, c) == Order::Equal,
    decreases a.len(),
{
    if a.len() == 0 || b.len() == 0 || c.len() == 0 {
        return;
    }
    assert(maps_apart_by(fold, a[0]));
    assert(maps_apart_by(fold, b[0]));
    assert(maps_apart_by(fold, c[0]));
    let da = is_digit(a[0]);
    let db = is_digit(b[0]);
    let dc = is_digit(c[0]);
    if da && db && dc {
        lemma_leading_runs(a);
        lemma_leading_runs(b);
        lemma_leading_runs(c);
        let ra = a.take(leading_digits(a) as int);
        let rb = b.take(leading_digits(b) as int);
        let rc = c.take(leading_digits(c) as int);
        lemma_digits_order_equal(ra, rb);
        lemma_digits_order_equal(rb, rc);
        lemma_digits_order_equal(ra, rc);
        lemma_digits_order_trans(ra, rb, rc);
        lemma_digits_order(ra, rb);
        lemma_digits_order(rb, rc);
        lemma_digits_order(ra, rc);
        if ra == rb {
            assert(leading_digits(a) == leading_digits(b));
        }
        if rb == rc {
            assert(leading_digits(b) == leading_digits(c));
        }
        if ra == rb && rb == rc {
            lemma_keeps_digits_skip(fold, a, leading_digits(a) as int);
            lemma_keeps_digits_skip(fold, b, leading_digits(b) as int);
            lemma_keeps_digits_skip(fold, c, leading_digits(c) as int);
            lemma_natural_order_trans(
                fold,
                a.skip(leading_digits(a) as int),
                b.skip(leading_digits(b) as int),
                c.skip(leading_digits(c) as int),
            );
        }
    } else {
        let la = fold(a[0]);
        let lb = fold(b[0]);
        let lc = fold(c[0]);
        lemma_lex(la, lb);
        lemma_lex(lb, lc);
        lemma_lex(la, lc);
        lemma_lex_trans(la, lb, lc);
        if da && !db {
            lemma_digit_side(fold, a[0], b[0]);
        }
        if db && !da {
            lemma_digit_side(fold, b[0], a[0]);
        }
        if db && !dc {
            lemma_digit_side(fold, b[0], c[0]);
        }
        if dc && !db {
            lemma_digit_side(fold, c[0], b[0]);
        }
        if da && !dc {
            lemma_digit_side(fold, a[0], c[0]);
        }
        if dc && !da {
            lemma_digit_side(fold, c[0], a[0]);
        }
        if !da && !db && !dc {
            lemma_keeps_digits_skip(fold, a, 1);
            lemma_keeps_digits_skip(fold, b, 1);
            lemma_keeps_digits_skip(fold, c, 1);
            lemma_natural_order_trans(fold, a.drop_first(), b.drop_first(), c.drop_first());
        }
    }
}

/// The order on names is transitive, for names whose characters' lower-case
/// mappings keep to their side of the ASCII digits (as Unicode's do).
pub proof fn natural_rank_is_transitive(a: Seq<char>, b: Seq<char>, c: Seq<char>)
    requires
        case_mapping_keeps_digits(a),
        case_mapping_keeps_digits(b),
        case_mapping_keeps_digits(c),
        natural_rank(a, b) == Order::Less,
        natural_rank(b, c) == Order::Less,
    ensures
        natural_rank(a, c) == Order::Less,
{
    assert(keeps_digits_by(unicode_fold(), a));
    assert(keeps_digits_by(unicode_fold(), b));
    assert(keeps_digits_by(unicode_fold(), c));
    lemma_natural_order_trans(unicode_fold(), a, b, c);
    lemma_lex_trans(a, b, c);
}

/// On ASCII names the order is a total order: swapping the names reverses
/// it, only equal names compare equal, and it is transitive.
pub proof fn natural_rank_ascii_is_a_total_order(a: Seq<char>, b: Seq<char>, c: Seq<char>)
    ensures
        natural_rank_ascii(b, a) == flip(natural_rank_ascii(a, b)),
        natural_rank_ascii(a, b) == Order::Equal <==> a == b,
        natural_rank_ascii(a, b) == Order::Less && natural_rank_ascii(b, c) == Order::Less
            ==> natural_rank_ascii(a, c) == Order::Less,
{
    lemma_rank_flip(ascii_fold(), a, b);
    lemma_rank_equal(ascii_fold(), a, b);
    lemma_ascii_keeps_digits(a);
    lemma_ascii_keeps_digits(b);
    lemma_ascii_keeps_digits(c);
    lemma_natural_order_trans(ascii_fold(), a, b, c);
    lemma_lex_trans(a, b, c);
}

/// `lex` of two index ranges.
fn lex_ranges(x: &Vec<char>, xl: usize, xh: usize, y: &Vec<char>, yl: usize, yh: usize) -> (r: Order)
    requires
        xl <= xh <= x.len(),
        yl <= yh <= y.len(),
    ensures
        r == lex(x@.subrange(xl as int, xh as int), y@.subrange(yl as int, yh as int)),
{
    let ghost a = x@.subrange(xl as int, xh as int);
    let ghost b = y@.subrange(yl as int, yh as int);
    let mut k: usize = 0;
    assert(a.skip(0) =~= a && b.skip(0) =~= b);
    while k < xh - xl && k < yh - yl
        invariant
            xl <= xh <= x.len(),
            yl <= yh <= y.len(),
            a == x@.subrange(xl as int, xh as int),
            b == y@.subrange(yl as int, yh as int),
            k <= a.len(),
            k <= b.len(),
            lex(a, b) == lex(a.skip(k as int), b.skip(k as int)),
        decreases xh - xl - k,
    {
        let c = x[xl + k];
        let d = y[yl + k];
        proof {
            assert(a.skip(k as int)[0] == c);
            assert(b.skip(k as int)[0] == d);
            assert(a.skip(k as int).drop_first() =~= a.skip(k + 1));
            assert(b.skip(k as int).drop_first() =~= b.skip(k + 1));
        }
        if c < d {
            return Order::Less;
        }
        if d < c {
            return Order::Greater;
        }
        k = k + 1;
    }
    if k < xh - xl {
        Order::Greater
    } else if k < yh - yl {
        Order::Less
    } else {
        Order::Equal
    }
}

/// End of the run of ASCII digits (or, with `zeros`, of `'0'`) starting at
/// `from` and ending no later than `to`.
fn run_end(x: &Vec<char>, from: usize, to: usize, zeros: bool) -> (r: usize)
    requires
        from <= to <= x.len(),
    ensures
        from <= r <= to,
        zeros ==> r - from == leading_zeros(x@.subrange(from as int, to as int)),
        !zeros ==> r - from == leading_digits(x@.subrange(from as int, to as int)),
{
    let ghost s = x@.subrange(from as int, to as int);
    let mut e: usize = from;
    assert(s.skip(0) =~= s);
    while e < to && ((zeros && x[e] == '0') || (!zeros && '0' <= x[e] && x[e] <= '9'))
        invariant
            from <= e <= to <= x.len(),
            s == x@.subrange(from as int, to as int),
            zeros ==> leading_zeros(s) == (e - from) + leading_zeros(s.skip(e - from)),
            !zeros ==> leading_digits(s) == (e - from) + leading_digits(s.skip(e - from)),
        decreases to - e,
    {
        proof {
            assert(s.skip(e - from)[0] == x[e as int]);
            assert(s.skip(e - from).drop_first() =~= s.skip(e + 1 - from));
        }
        e = e + 1;
    }
    proof {
        if e < to {
            assert(s.skip(e - from)[0] == x[e as int]);
        }
    }
    e
}

/// `digits_order` of two index ranges holding digit runs.
fn compare_digits(x: &Vec<char>, xl: usize, xh: usize, y: &Vec<char>, yl: usize, yh: usize) -> (r: Order)
    requires
        xl <= xh <= x.len(),
        yl <= yh <= y.len(),
    ensures
        r == digits_order(x@.subrange(xl as int, xh as int), y@.subrange(yl as int, yh as int)),
{
    let ghost l = x@.subrange(xl as int, xh as int);
    let ghost rr = y@.subrange(yl as int, yh as int);
    let xv = run_end(x, xl, xh, true);
    let yv = run_end(y, yl, yh, true);
    proof {
        assert(l.skip(xv - xl) =~= x@.subrange(xv as int, xh as int));
        assert(rr.skip(yv - yl) =~= y@.subrange(yv as int, yh as int));
    }
    if xh - xv < yh - yv {
        Order::Less
    } else if yh - yv < xh - xv {
        Order::Greater
    } else {
        match lex_ranges(x, xv, xh, y, yv, yh) {
            Order::Equal => if yh - yl < xh - xl {
                Order::Less
            } else if xh - xl < yh - yl {
                Order::Greater
            } else {
                Order::Equal
            },
            o => o,
        }
    }
}

/// `natural_order` of two character vectors.
fn natural_order_of(x: &Vec<char>, y: &Vec<char>) -> (r: Order)
    ensures
        r == natural_order(x@, y@),
        is_ascii_text(x@) && is_ascii_text(y@) ==> r == natural_order_by(ascii_fold(), x@, y@),
{
    let mut i: usize = 0;
    let mut j: usize = 0;
    assert(x@.skip(0) =~= x@ && y@.skip(0) =~= y@);
    loop
        invariant
            i <= x.len(),
            j <= y.len(),
            natural_order(x@, y@) == natural_order(x@.skip(i as int), y@.skip(j as int)),
            is_ascii_text(x@) && is_ascii_text(y@) ==> natural_order_by(ascii_fold(), x@, y@) == natural_order_by(
                ascii_fold(),
                x@.skip(i as int),
                y@.skip(j as int),
            ),
        decreases x.len() - i + y.len() - j,
    {
        let ghost a = x@.skip(i as int);
        let ghost b = y@.skip(j as int);
        if i < x.len() && j < y.len() && '0' <= x[i] && x[i] <= '9' && '0' <= y[j] && y[j] <= '9' {
            let xe = run_end(x, i, x.len(), false);
            let ye = run_end(y, j, y.len(), false);
            proof {
                assert(x@.subrange(i as int, x.len() as int) =~= a);
                assert(y@.subrange(j as int, y.len() as int) =~= b);
                assert(a.take(xe - i) =~= x@.subrange(i as int, xe as int));
                assert(b.take(ye - j) =~= y@.subrange(j as int, ye as int));
                assert(a.skip(xe - i) =~= x@.skip(xe as int));
                assert(b.skip(ye - j) =~= y@.skip(ye as int));
                assert(a[0] == x[i as int] && b[0] == y[j as int]);
            }
            match compare_digits(x, i, xe, y, j, ye) {
                Order::Equal => {
                    i = xe;
                    j = ye;
                },
                o => {
                    return o;
                },
            }
        } else if i == x.len() {
            if j == y.len() {
                return Order::Equal;
            }
            return Order::Less;
        } else if j == y.len() {
            return Order::Greater;
        } else {
            let lx = lowercase(x[i]);
            let ly = lowercase(y[j]);
            proof {
                if is_ascii_text(x@) && is_ascii_text(y@) {
                    assert(x@[i as int] <= '\x7f');
                    assert(y@[j as int] <= '\x7f');
                }
                assert(a[0] == x[i as int] && b[0] == y[j as int]);
                assert(a.drop_first() =~= x@.skip(i + 1));
                assert(b.drop_first() =~= y@.skip(j + 1));
                assert(lx@.subrange(0, lx.len() as int) =~= lx@);
                assert(ly@.subrange(0, ly.len() as int) =~= ly@);
            }
            match lex_ranges(&lx, 0, lx.len(), &ly, 0, ly.len()) {
                Order::Equal => {
                    i = i + 1;
                    j = j + 1;
                },
                o => {
                    return o;
                },
            }
        }
    }
}

/// The total order on names, on character vectors.
pub(crate) fn natural_rank_of(x: &Vec<char>, y: &Vec<char>) -> (r: Order)
    ensures
        r == natural_rank(x@, y@),
        is_ascii_text(x@) && is_ascii_text(y@) ==> r == natural_rank_ascii(x@, y@),
{
    match natural_order_of(x, y) {
        Order::Equal => {
            assert(x@.subrange(0, x.len() as int) =~= x@);
            assert(y@.subrange(0, y.len() as int) =~= y@);
            lex_ranges(x, 0, x.len(), y, 0, y.len())
        },
        o => o,
    }
}

/// Compares two names in natural order.
///
/// Digit runs compare as numbers, other characters by their lower-case
/// mapping; names that compare equal in that order are decided by code point
/// order, so only equal names compare `Equal`.
pub fn natural_cmp(a: &str, b: &str) -> (r: Ordering)
    ensures
        r == ordering_of(natural_rank(a@, b@)),
        is_ascii_text(a@) && is_ascii_text(b@) ==> r == ordering_of(natural_rank_ascii(a@, b@)),
{
    let x = chars_of(a);
    let y = chars_of(b);
    match natural_rank_of(&x, &y) {
        Order::Less => Ordering::Less,
        Order::Equal => Ordering::Equal,
        Order::Greater => Ordering::Greater,
    }
}

} // verus!
