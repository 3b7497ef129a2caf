//! The character-level pieces of the record format: quoted, escaped string
//! literals and canonical decimal numbers, each with a parser that consumes
//! exactly the characters of one encoded value.
//!
//! The two directions are tied together by completeness lemmas (the parser
//! accepts every encoding and returns the encoded value) and soundness
//! lemmas (whatever the parser accepts is the encoding of what it returns).

use vstd::prelude::*;

verus! {

/// Whether `c` is a decimal digit.
pub open spec fn is_digit(c: char) -> bool {
    ('0' as u32) <= (c as u32) && (c as u32) <= ('9' as u32)
}

/// The numeric value of a digit character.
pub open spec fn digit_val(c: char) -> int {
    (c as u32) as int - ('0' as u32) as int
}

/// The digit character for a value in `0 ..= 9`.
pub open spec fn digit_char(d: int) -> char {
    if d == 0 {
        '0'
    } else if d == 1 {
        '1'
    } else if d == 2 {
        '2'
    } else if d == 3 {
        '3'
    } else if d == 4 {
        '4'
    } else if d == 5 {
        '5'
    } else if d == 6 {
        '6'
    } else if d == 7 {
        '7'
    } else if d == 8 {
        '8'
    } else {
        '9'
    }
}

pub proof fn lemma_digit_char_val(d: int)
    requires
        0 <= d <= 9,
    ensures
        digit_val(digit_char(d)) == d,
        is_digit(digit_char(d)),
{
}

pub proof fn lemma_digit_val_char(c: char)
    requires
        is_digit(c),
    ensures
        digit_char(digit_val(c)) == c,
        0 <= digit_val(c) <= 9,
{
}

/// How one character is written inside a quoted literal: quotes and
/// backslashes are escaped with a backslash, every other character stands
/// for itself.
pub open spec fn esc_char(c: char) -> Seq<char> {
    if c == '"' || c == '\\' {
        seq!['\\', c]
    } else {
        seq![c]
    }
}

/// The escaped body of a quoted literal.
pub open spec fn esc(s: Seq<char>) -> Seq<char>
    decreases s.len(),
{
    if s.len() == 0 {
        Seq::empty()
    } else {
        esc_char(s[0]) + esc(s.drop_first())
    }
}

/// A quoted literal: `"` body `"`.
pub open spec fn quoted(s: Seq<char>) -> Seq<char> {
    seq!['"'] + esc(s) + seq!['"']
}

pub proof fn lemma_esc_concat(a: Seq<char>, b: Seq<char>)
    ensures
        esc(a + b) == esc(a) + esc(b),
    decreases a.len(),
{
    if a.len() == 0 {
        assert(a + b =~= b);
        assert(esc(a) + esc(b) =~= esc(b));
    } else {
        assert((a + b).drop_first() =~= a.drop_first() + b);
        assert((a + b).len() > 0);
        lemma_esc_concat(a.drop_first(), b);
        assert(esc_char(a[0]) + (esc(a.drop_first()) + esc(b)) =~= (esc_char(a[0]) + esc(
            a.drop_first(),
        )) + esc(b));
        assert((a + b)[0] == a[0]);
    }
}

/// Parses the body of a quoted literal, starting just after the opening
/// quote; the count consumed includes the closing quote.
pub open spec fn parse_str_body(s: Seq<char>) -> Option<(Seq<char>, int)>
    decreases s.len(),
{
    if s.len() == 0 {
        None
    } else if s[0] == '"' {
        Some((Seq::empty(), 1))
    } else if s[0] == '\\' {
        if s.len() >= 2 && (s[1] == '"' || s[1] == '\\') {
            match parse_str_body(s.skip(2)) {
                Some((c, n)) => Some((seq![s[1]] + c, n + 2)),
                None => None,
            }
        } else {
            None
        }
    } else {
        match parse_str_body(s.skip(1)) {
            Some((c, n)) => Some((seq![s[0]] + c, n + 1)),
            None => None,
        }
    }
}

/// The literal parser accepts every escaped body and returns the original
/// characters.
pub proof fn lemma_parse_str_body_complete(s: Seq<char>, rest: Seq<char>)
    ensures
        parse_str_body(esc(s) + seq!['"'] + rest) == Some((s, esc(s).len() + 1 as int)),
    decreases s.len(),
{
    let t = esc(s) + seq!['"'] + rest;
    if s.len() == 0 {
        assert(t[0] == '"');
        assert(s =~= Seq::<char>::empty());
    } else {
        let c = s[0];
        let s2 = s.drop_first();
        lemma_parse_str_body_complete(s2, rest);
        assert(esc(s) == esc_char(c) + esc(s2));
        if c == '"' || c == '\\' {
            assert(t[0] == '\\');
            assert(t[1] == c);
            assert(t.len() >= 2);
            assert(t.skip(2) =~= esc(s2) + seq!['"'] + rest);
            assert(seq![t[1]] + s2 =~= s);
        } else {
            assert(t[0] == c);
            assert(t.skip(1) =~= esc(s2) + seq!['"'] + rest);
            assert(seq![t[0]] + s2 =~= s);
        }
    }
}

/// Whatever the literal parser accepts is exactly the escaped body of what
/// it returns, closing quote included.
pub proof fn lemma_parse_str_body_sound(t: Seq<char>)
    ensures
        match parse_str_body(t) {
            Some((c, n)) => 1 <= n <= t.len() && t.take(n) == esc(c) + seq!['"'],
            None => true,
        },
    decreases t.len(),
{
    if t.len() == 0 {
    } else if t[0] == '"' {
        assert(t.take(1) =~= esc(Seq::<char>::empty()) + seq!['"']);
    } else if t[0] == '\\' {
        if t.len() >= 2 && (t[1] == '"' || t[1] == '\\') {
            lemma_parse_str_body_sound(t.skip(2));
            match parse_str_body(t.skip(2)) {
                Some((c2, n2)) => {
                    let c = seq![t[1]] + c2;
                    assert(esc_char(t[1]) == seq!['\\', t[1]]);
                    assert(esc(c) == esc_char(t[1]) + esc(c2)) by {
                        assert(c.len() > 0);
                        assert(c[0] == t[1]);
                        assert(c.drop_first() =~= c2);
                    }
                    assert(t.take(n2 + 2) =~= seq![t[0], t[1]] + t.skip(2).take(n2));
                    assert(t.take(n2 + 2) =~= esc(c) + seq!['"']);
                },
                None => {},
            }
        }
    } else {
        lemma_parse_str_body_sound(t.skip(1));
        match parse_str_body(t.skip(1)) {
            Some((c2, n2)) => {
                let c = seq![t[0]] + c2;
                assert(esc_char(t[0]) == seq![t[0]]);
                assert(esc(c) == esc_char(t[0]) + esc(c2)) by {
                    assert(c.len() > 0);
                    assert(c[0] == t[0]);
                    assert(c.drop_first() =~= c2);
                }
                assert(t.take(n2 + 1) =~= seq![t[0]] + t.skip(1).take(n2));
                assert(t.take(n2 + 1) =~= esc(c) + seq!['"']);
            },
            None => {},
        }
    }
}

/// The canonical decimal spelling of `n`, without leading zeros.
pub open spec fn dec_rep(n: nat) -> Seq<char>
    decreases n,
{
    if n < 10 {
        seq![digit_char(n as int)]
    } else {
        dec_rep(n / 10).push(digit_char((n % 10) as int))
    }
}

/// The value of a run of digit characters.
pub open spec fn val(s: Seq<char>) -> int
    decreases s.len(),
{
    if s.len() == 0 {
        0
    } else {
        val(s.drop_last()) * 10 + digit_val(s.last())
    }
}

/// The length of the longest digit run at the front of `s`.
pub open spec fn digits_len(s: Seq<char>) -> int
    decreases s.len(),
{
    if s.len() > 0 && is_digit(s[0]) {
        1 + digits_len(s.drop_first())
    } else {
        0
    }
}

pub proof fn lemma_dec_rep_props(n: nat)
    ensures
        dec_rep(n).len() >= 1,
        forall|i: int| 0 <= i < dec_rep(n).len() ==> is_digit(#[trigger] dec_rep(n)[i]),
        (dec_rep(n)[0] == '0') == (n == 0),
    decreases n,
{
    if n < 10 {
        lemma_digit_char_val(n as int);
    } else {
        lemma_dec_rep_props(n / 10);
        lemma_digit_char_val((n % 10) as int);
        let d = dec_rep(n / 10);
        assert(forall|i: int|
            0 <= i < dec_rep(n).len() ==> is_digit(#[trigger] dec_rep(n)[i])) by {
            assert(forall|i: int| 0 <= i < d.len() ==> dec_rep(n)[i] == #[trigger] d[i]);
            assert(dec_rep(n)[d.len() as int] == digit_char((n % 10) as int));
        }
        assert(dec_rep(n)[0] == d[0]);
        assert(n / 10 >= 1);
    }
}

pub proof fn lemma_val_dec_rep(n: nat)
    ensures
        val(dec_rep(n)) == n,
    decreases n,
{
    if n < 10 {
        lemma_digit_char_val(n as int);
        let s = dec_rep(n);
        assert(val(Seq::<char>::empty()) == 0);
        assert(s.drop_last() =~= Seq::<char>::empty());
        assert(s.last() == digit_char(n as int));
    } else {
        lemma_val_dec_rep(n / 10);
        lemma_digit_char_val((n % 10) as int);
        let s = dec_rep(n);
        assert(s.drop_last() =~= dec_rep(n / 10));
        assert(s.last() == digit_char((n % 10) as int));
        assert((n / 10) * 10 + n % 10 == n);
    }
}

pub proof fn lemma_val_bounds(ds: Seq<char>)
    requires
        forall|i: int| 0 <= i < ds.len() ==> is_digit(#[trigger] ds[i]),
    ensures
        val(ds) >= 0,
        ds.len() >= 1 && ds[0] != '0' ==> val(ds) >= 1,
    decreases ds.len(),
{
    if ds.len() == 0 {
    } else {
        let front = ds.drop_last();
        assert(forall|i: int| 0 <= i < front.len() ==> is_digit(#[trigger] front[i])) by {
            assert(forall|i: int| 0 <= i < front.len() ==> front[i] == #[trigger] ds[i]);
        }
        lemma_val_bounds(front);
        lemma_digit_val_char(ds.last());
        if ds.len() >= 2 {
            assert(front[0] == ds[0]);
        } else {
            if ds[0] != '0' {
                assert(ds.last() == ds[0]);
                assert(digit_val(ds[0]) >= 1);
            }
        }
    }
}

/// A canonical digit run is the decimal spelling of its value.
pub proof fn lemma_dec_rep_canon(ds: Seq<char>)
    requires
        ds.len() >= 1,
        forall|i: int| 0 <= i < ds.len() ==> is_digit(#[trigger] ds[i]),
        ds[0] != '0' || ds.len() == 1,
    ensures
        val(ds) >= 0,
        dec_rep(val(ds) as nat) == ds,
    decreases ds.len(),
{
    lemma_val_bounds(ds);
    if ds.len() == 1 {
        lemma_digit_val_char(ds[0]);
        assert(ds.last() == ds[0]);
        assert(val(Seq::<char>::empty()) == 0);
        assert(ds.drop_last() =~= Seq::<char>::empty());
        assert(val(ds) == digit_val(ds[0]));
        assert(dec_rep(val(ds) as nat) =~= ds);
    } else {
        let front = ds.drop_last();
        assert(forall|i: int| 0 <= i < front.len() ==> is_digit(#[trigger] front[i])) by {
            assert(forall|i: int| 0 <= i < front.len() ==> front[i] == #[trigger] ds[i]);
        }
        assert(front[0] == ds[0]);
        lemma_dec_rep_canon(front);
        lemma_val_bounds(front);
        lemma_digit_val_char(ds.last());
        let v = val(ds);
        assert(v == val(front) * 10 + digit_val(ds.last()));
        assert(val(front) >= 1);
        assert(v >= 10);
        assert(v / 10 == val(front) && v % 10 == digit_val(ds.last())) by {
            lemma_div_mod_digit(val(front), digit_val(ds.last()));
        }
        assert(dec_rep(v as nat) == dec_rep(val(front) as nat).push(digit_char(v % 10)));
        assert(dec_rep(v as nat) =~= ds);
    }
}

proof fn lemma_div_mod_digit(q: int, r: int)
    requires
        q >= 0,
        0 <= r <= 9,
    ensures
        (q * 10 + r) / 10 == q,
        (q * 10 + r) % 10 == r,
{
    assert((q * 10 + r) / 10 == q && (q * 10 + r) % 10 == r) by (nonlinear_arith)
        requires
            q >= 0,
            0 <= r <= 9,
    ;
}

/// Extending a digit run never lowers its value.
pub proof fn lemma_val_take_monotone(ds: Seq<char>, k: int)
    requires
        forall|i: int| 0 <= i < ds.len() ==> is_digit(#[trigger] ds[i]),
        0 <= k <= ds.len(),
    ensures
        val(ds) >= val(ds.take(k)),
    decreases ds.len() - k,
{
    assert(forall|j: int, m: int|
        0 <= m <= ds.len() && 0 <= j < m ==> is_digit(#[trigger] ds.take(m)[j]));
    if k == ds.len() {
        assert(ds.take(k) =~= ds);
    } else {
        lemma_val_take_monotone(ds, k + 1);
        let a = ds.take(k + 1);
        assert(a.drop_last() =~= ds.take(k));
        assert(a.last() == ds[k]);
        lemma_digit_val_char(ds[k]);
        lemma_val_bounds(ds.take(k));
        assert(val(a) == val(ds.take(k)) * 10 + digit_val(ds[k]));
        assert(val(a) >= val(ds.take(k)));
    }
}

pub proof fn lemma_digits_len_chars(t: Seq<char>)
    ensures
        0 <= digits_len(t) <= t.len(),
        forall|i: int| 0 <= i < digits_len(t) ==> is_digit(#[trigger] t[i]),
        digits_len(t) < t.len() ==> !is_digit(t[digits_len(t)]),
    decreases t.len(),
{
    if t.len() > 0 && is_digit(t[0]) {
        lemma_digits_len_chars(t.drop_first());
        let r = t.drop_first();
        let l = digits_len(t);
        assert(l == 1 + digits_len(r));
        assert forall|i: int| 0 <= i < l implies is_digit(#[trigger] t[i]) by {
            if i >= 1 {
                assert(t[i] == r[i - 1]);
                assert(is_digit(r[i - 1]));
            }
        }
        if l < t.len() {
            assert(t[l] == r[l - 1]);
            assert(!is_digit(r[digits_len(r)]));
        }
    }
}

/// A run of digits followed by a non-digit has exactly that digit length.
pub proof fn lemma_digits_len_concat(a: Seq<char>, rest: Seq<char>)
    requires
        forall|i: int| 0 <= i < a.len() ==> is_digit(#[trigger] a[i]),
        rest.len() == 0 || !is_digit(rest[0]),
    ensures
        digits_len(a + rest) == a.len(),
    decreases a.len(),
{
    if a.len() == 0 {
        assert(a + rest =~= rest);
    } else {
        assert((a + rest).drop_first() =~= a.drop_first() + rest);
        assert(forall|i: int| 0 <= i < a.len() - 1 ==> a.drop_first()[i] == #[trigger] a[i + 1]);
        lemma_digits_len_concat(a.drop_first(), rest);
        assert((a + rest)[0] == a[0]);
    }
}

/// Parses a canonical decimal number that fits in a `u128`.
pub open spec fn parse_nat(s: Seq<char>) -> Option<(u128, int)> {
    let l = digits_len(s);
    if l == 0 {
        None
    } else if s[0] == '0' && l > 1 {
        None
    } else if val(s.take(l)) > u128::MAX {
        None
    } else {
        Some((val(s.take(l)) as u128, l))
    }
}

/// The number parser accepts every canonical spelling when no digit
/// follows it.
pub proof fn lemma_parse_nat_complete(n: u128, rest: Seq<char>)
    requires
        rest.len() == 0 || !is_digit(rest[0]),
    ensures
        parse_nat(dec_rep(n as nat) + rest) == Some((n, dec_rep(n as nat).len() as int)),
{
    let d = dec_rep(n as nat);
    let t = d + rest;
    lemma_dec_rep_props(n as nat);
    lemma_digits_len_concat(d, rest);
    assert(digits_len(t) == d.len());
    assert(t.take(d.len() as int) =~= d);
    lemma_val_dec_rep(n as nat);
    assert(t[0] == d[0]);
    if t[0] == '0' {
        assert(n == 0);
        assert(d.len() == 1);
    }
}

/// Whatever the number parser accepts is the canonical spelling of the
/// value it returns, and it stops only at a non-digit.
pub proof fn lemma_parse_nat_sound(t: Seq<char>)
    ensures
        match parse_nat(t) {
            Some((v, l)) => {
                &&& 1 <= l <= t.len()
                &&& t.take(l) == dec_rep(v as nat)
                &&& l == t.len() || !is_digit(t[l])
            },
            None => true,
        },
{
    lemma_digits_len_chars(t);
    let l = digits_len(t);
    match parse_nat(t) {
        Some((v, _)) => {
            let ds = t.take(l);
            assert(forall|i: int| 0 <= i < ds.len() ==> is_digit(#[trigger] ds[i])) by {
                assert(forall|i: int| 0 <= i < ds.len() ==> ds[i] == #[trigger] t[i]);
            }
            assert(ds[0] == t[0]);
            lemma_dec_rep_canon(ds);
        },
        None => {},
    }
}

} // verus!
