//! Executable encoders and decoders for the record format.  Every function
//! is verified against the specification functions of `codec` and `record`:
//! encoders produce exactly the specified characters, decoders return
//! exactly what the specification parser returns.

use vstd::prelude::*;
use crate::command::{CommandModel, DbCommand, DbModel, KvsCommand};
use crate::record::{
    enc_command, enc_db, enc_items, enc_rec, error_tag, get_result_tag, get_tag, items_to_command,
    items_to_db, lemma_parse_item_sound, parse_body, parse_command, parse_db, parse_item,
    parse_items_ne, parse_rec, rm_result_tag, rm_tag, set_result_tag, set_tag, JItem,
};
use crate::text::{chars_eq, chars_into_string, string_to_chars};
use crate::codec::{
    dec_rep, digit_char, digit_val, digits_len, esc, esc_char, is_digit, lemma_digits_len_chars,
    lemma_esc_concat, lemma_val_take_monotone, parse_nat, parse_str_body, quoted, val,
};

verus! {

/// Executable digit test, mirroring `is_digit`.
pub(crate) fn is_digit_exec(c: char) -> (r: bool)
    ensures
        r == is_digit(c),
{
    let u = c as u32;
    48 <= u && u <= 57
}

/// The numeric value of a digit character.
pub(crate) fn digit_value(c: char) -> (d: u128)
    requires
        is_digit(c),
    ensures
        d as int == digit_val(c),
        d <= 9,
{
    ((c as u32) - 48) as u128
}

/// The digit character for a value in `0 ..= 9`.
pub(crate) fn digit_to_char(d: u128) -> (c: char)
    requires
        d <= 9,
    ensures
        c == digit_char(d as int),
{
    if d == 0 {
        '0'
    } else if d == 1 {
        '1'
    } else if d == 2 {
        '2'
    } else if d == 3 {
        '3'
    } else if d == 4 {
        '4'
    } else if d == 5 {
        '5'
    } else if d == 6 {
        '6'
    } else if d == 7 {
        '7'
    } else if d == 8 {
        '8'
    } else {
        '9'
    }
}

/// Appends the escaped body of `src` to `out`.
pub(crate) fn push_esc(out: &mut Vec<char>, src: &Vec<char>)
    ensures
        final(out)@ == old(out)@ + esc(src@),
{
    let mut i: usize = 0;
    while i < src.len()
        invariant
            0 <= i <= src@.len(),
            out@ == old(out)@ + esc(src@.take(i as int)),
        decreases src@.len() - i,
    {
        let c = src[i];
        if c == '"' || c == '\\' {
            out.push('\\');
            out.push(c);
        } else {
            out.push(c);
        }
        proof {
            assert(src@.take(i + 1) =~= src@.take(i as int) + seq![src@[i as int]]);
            lemma_esc_concat(src@.take(i as int), seq![src@[i as int]]);
            assert(esc(seq![c]) == esc_char(c)) by {
                assert(seq![c].drop_first() =~= Seq::<char>::empty());
                assert(esc(Seq::<char>::empty()) == Seq::<char>::empty());
                assert(esc_char(c) + Seq::<char>::empty() =~= esc_char(c));
            }
            if c == '"' || c == '\\' {
                assert(out@ =~= old(out)@ + esc(src@.take(i as int)) + seq!['\\', c]);
                assert(out@ =~= old(out)@ + esc(src@.take(i + 1)));
            } else {
                assert(out@ =~= old(out)@ + esc(src@.take(i + 1)));
            }
        }
        i = i + 1;
    }
    proof {
        assert(src@.take(src@.len() as int) =~= src@);
    }
}

/// Appends the quoted literal for `src` to `out`.
pub(crate) fn push_quoted(out: &mut Vec<char>, src: &Vec<char>)
    ensures
        final(out)@ == old(out)@ + quoted(src@),
{
    out.push('"');
    push_esc(out, src);
    out.push('"');
    proof {
        assert(out@ =~= old(out)@ + quoted(src@));
    }
}

/// Appends the canonical decimal spelling of `n` to `out`.
pub(crate) fn push_dec(out: &mut Vec<char>, n: u128)
    ensures
        final(out)@ == old(out)@ + dec_rep(n as nat),
    decreases n,
{
    if n < 10 {
        let c = digit_to_char(n);
        out.push(c);
        proof {
            assert(dec_rep(n as nat) =~= seq![digit_char(n as int)]);
            assert(out@ =~= old(out)@ + dec_rep(n as nat));
        }
    } else {
        push_dec(out, n / 10);
        let c = digit_to_char(n % 10);
        out.push(c);
        proof {
            assert(dec_rep(n as nat) == dec_rep((n / 10) as nat).push(digit_char((n % 10) as int)));
            assert(out@ =~= old(out)@ + dec_rep(n as nat));
        }
    }
}

/// Decodes a quoted literal's body starting at `start` (just past the
/// opening quote), mirroring `parse_str_body`.
pub(crate) fn parse_str_body_exec(s: &Vec<char>, start: usize) -> (r: Option<(Vec<char>, usize)>)
    requires
        start <= s@.len(),
    ensures
        match r {
            Some((c, n)) => {
                &&& parse_str_body(s@.skip(start as int)) == Some((c@, n as int))
                &&& 1 <= n
                &&& start + n <= s@.len()
            },
            None => parse_str_body(s@.skip(start as int)) is None,
        },
{
    let mut i: usize = start;
    let mut acc: Vec<char> = Vec::new();
    loop
        invariant
            start <= i <= s@.len(),
            match parse_str_body(s@.skip(i as int)) {
                Some((c, n)) => parse_str_body(s@.skip(start as int)) == Some(
                    (acc@ + c, i - start + n),
                ),
                None => parse_str_body(s@.skip(start as int)) is None,
            },
        decreases s@.len() - i,
    {
        let ghost a = s@.skip(i as int);
        if i >= s.len() {
            proof {
                assert(a.len() == 0);
            }
            return None;
        }
        proof {
            assert(a[0] == s@[i as int]);
        }
        let c = s[i];
        if c == '"' {
            proof {
                assert(parse_str_body(a) == Some((Seq::<char>::empty(), 1int)));
                assert(acc@ + Seq::<char>::empty() =~= acc@);
            }
            return Some((acc, i + 1 - start));
        }
        if c == '\\' {
            if i + 1 >= s.len() {
                proof {
                    assert(a.len() == 1);
                    assert(parse_str_body(a) is None);
                }
                return None;
            }
            proof {
                assert(a[1] == s@[i + 1]);
            }
            let d = s[i + 1];
            if d == '"' || d == '\\' {
                let ghost acc0 = acc@;
                acc.push(d);
                proof {
                    let b = s@.skip(i + 2);
                    assert(a.skip(2) =~= b);
                    assert(a.len() >= 2);
                    match parse_str_body(b) {
                        Some((c2, n2)) => {
                            assert(parse_str_body(a) == Some((seq![a[1]] + c2, n2 + 2)));
                            assert(acc0 + (seq![d] + c2) =~= acc@ + c2);
                        },
                        None => {
                            assert(parse_str_body(a) is None);
                        },
                    }
                }
                i = i + 2;
            } else {
                proof {
                    assert(parse_str_body(a) is None);
                }
                return None;
            }
        } else {
            let ghost acc0 = acc@;
            acc.push(c);
            proof {
                let b = s@.skip(i + 1);
                assert(a.skip(1) =~= b);
                match parse_str_body(b) {
                    Some((c2, n2)) => {
                        assert(parse_str_body(a) == Some((seq![a[0]] + c2, n2 + 1)));
                        assert(acc0 + (seq![c] + c2) =~= acc@ + c2);
                    },
                    None => {
                        assert(parse_str_body(a) is None);
                    },
                }
            }
            i = i + 1;
        }
    }
}

proof fn lemma_mul10(v: int, d: int, m: int)
    requires
        v >= 0,
        0 <= d <= 9,
        9 <= m,
    ensures
        (v > (m - d) / 10) <==> (v * 10 + d > m),
{
    let q = (m - d) / 10;
    let r = (m - d) % 10;
    vstd::arithmetic::div_mod::lemma_fundamental_div_mod(m - d, 10);
    vstd::arithmetic::div_mod::lemma_mod_bound(m - d, 10);
    assert(m - d == q * 10 + r && 0 <= r < 10);
    if v > q {
        assert(v * 10 >= q * 10 + 10) by (nonlinear_arith)
            requires
                v > q,
        ;
    }
    if v <= q {
        assert(v * 10 <= q * 10) by (nonlinear_arith)
            requires
                0 <= v <= q,
        ;
    }
}

/// Decodes a canonical decimal number starting at `start`, mirroring
/// `parse_nat`.
pub(crate) fn parse_nat_exec(s: &Vec<char>, start: usize) -> (r: Option<(u128, usize)>)
    requires
        start <= s@.len(),
    ensures
        match r {
            Some((v, l)) => {
                &&& parse_nat(s@.skip(start as int)) == Some((v, l as int))
                &&& 1 <= l
                &&& start + l <= s@.len()
            },
            None => parse_nat(s@.skip(start as int)) is None,
        },
{
    let ghost t = s@.skip(start as int);
    proof {
        lemma_digits_len_chars(t);
    }
    if start >= s.len() {
        proof {
            assert(digits_len(t) == 0);
        }
        return None;
    }
    proof {
        assert(t[0] == s@[start as int]);
    }
    let c0 = s[start];
    if !is_digit_exec(c0) {
        proof {
            assert(digits_len(t) == 0);
        }
        return None;
    }
    if c0 == '0' {
        if start + 1 < s.len() && is_digit_exec(s[start + 1]) {
            proof {
                let r = t.drop_first();
                assert(r[0] == t[1]);
                assert(t[1] == s@[start + 1]);
                assert(digits_len(t) == 1 + digits_len(r));
                lemma_digits_len_chars(r);
                assert(digits_len(r) >= 1);
            }
            return None;
        } else {
            proof {
                let r = t.drop_first();
                if r.len() > 0 {
                    assert(r[0] == t[1]);
                    assert(t[1] == s@[start + 1]);
                    assert(!is_digit(r[0]));
                }
                assert(digits_len(r) == 0);
                assert(digits_len(t) == 1);
                assert(t.take(1) =~= seq![t[0]]);
                assert(val(seq![t[0]]) == 0) by {
                    assert(val(Seq::<char>::empty()) == 0);
                    assert(seq![t[0]].drop_last() =~= Seq::<char>::empty());
                    assert(seq![t[0]].last() == '0');
                }
            }
            return Some((0, 1));
        }
    }
    let mut v: u128 = digit_value(c0);
    let mut i: usize = start + 1;
    proof {
        assert(t.take(1) =~= seq![t[0]]);
        assert(val(seq![t[0]]) == digit_val(t[0])) by {
            assert(val(Seq::<char>::empty()) == 0);
            assert(seq![t[0]].drop_last() =~= Seq::<char>::empty());
            assert(seq![t[0]].last() == t[0]);
        }
        assert(t.drop_first() =~= s@.skip(start + 1));
        assert(digits_len(t) == 1 + digits_len(s@.skip(start + 1)));
    }
    loop
        invariant
            start < i <= s@.len(),
            t == s@.skip(start as int),
            t[0] == s@[start as int],
            s@[start as int] != '0',
            is_digit(s@[start as int]),
            forall|k: int| start <= k < i ==> is_digit(#[trigger] s@[k]),
            digits_len(t) == (i - start) + digits_len(s@.skip(i as int)),
            v as int == val(t.take(i - start)),
        decreases s@.len() - i,
    {
        proof {
            lemma_digits_len_chars(s@.skip(i as int));
            assert(forall|k: int|
                0 <= k < t.len() ==> t[k] == #[trigger] s@[k + start]);
        }
        if i >= s.len() || !is_digit_exec(s[i]) {
            proof {
                if i < s.len() {
                    assert(s@.skip(i as int)[0] == s@[i as int]);
                }
                assert(digits_len(s@.skip(i as int)) == 0);
                assert(digits_len(t) == i - start);
            }
            return Some((v, i - start));
        }
        let d = digit_value(s[i]);
        proof {
            assert(s@.skip(i as int)[0] == s@[i as int]);
            assert(digits_len(s@.skip(i as int)) == 1 + digits_len(s@.skip(i + 1))) by {
                assert(s@.skip(i as int).drop_first() =~= s@.skip(i + 1));
            }
            assert(t.take(i + 1 - start) =~= t.take(i - start).push(s@[i as int]));
            assert(val(t.take(i + 1 - start)) == v as int * 10 + d as int) by {
                assert(t.take(i + 1 - start).drop_last() =~= t.take(i - start));
                assert(t.take(i + 1 - start).last() == s@[i as int]);
            }
        }
        if v > (u128::MAX - d) / 10 {
            proof {
                lemma_mul10(v as int, d as int, u128::MAX as int);
                lemma_digits_len_chars(t);
                let l = digits_len(t);
                assert(l >= i + 1 - start);
                let ds = t.take(l);
                assert(forall|k: int| 0 <= k < ds.len() ==> is_digit(#[trigger] ds[k])) by {
                    assert(forall|k: int| 0 <= k < ds.len() ==> ds[k] == #[trigger] t[k]);
                }
                lemma_val_take_monotone(ds, i + 1 - start);
                assert(ds.take(i + 1 - start) =~= t.take(i + 1 - start));
                assert(val(t.take(l)) > u128::MAX);
                assert(t[0] != '0');
            }
            return None;
        }
        proof {
            lemma_mul10(v as int, d as int, u128::MAX as int);
        }
        v = v * 10 + d;
        i = i + 1;
    }
}

/// An executable record item.
pub enum ItemBuf {
    S(Vec<char>),
    N(u128),
}

impl View for ItemBuf {
    type V = JItem;

    open spec fn view(&self) -> JItem {
        match self {
            ItemBuf::S(v) => JItem::S(v@),
            ItemBuf::N(n) => JItem::N(*n),
        }
    }
}

/// The items carried by a vector of executable items.
pub open spec fn items_view(s: Seq<ItemBuf>) -> Seq<JItem> {
    s.map_values(|b: ItemBuf| b@)
}

/// Decodes one record item starting at `start`, mirroring `parse_item`.
pub(crate) fn parse_item_exec(s: &Vec<char>, start: usize) -> (r: Option<(ItemBuf, usize)>)
    requires
        start <= s@.len(),
    ensures
        match r {
            Some((it, n)) => {
                &&& parse_item(s@.skip(start as int)) == Some((it@, n as int))
                &&& 1 <= n
                &&& start + n <= s@.len()
            },
            None => parse_item(s@.skip(start as int)) is None,
        },
{
    let ghost t = s@.skip(start as int);
    if start >= s.len() {
        return None;
    }
    proof {
        assert(t[0] == s@[start as int]);
    }
    let c = s[start];
    if c == '"' {
        proof {
            assert(t.drop_first() =~= s@.skip(start + 1));
        }
        match parse_str_body_exec(s, start + 1) {
            Some((body, n)) => Some((ItemBuf::S(body), n + 1)),
            None => None,
        }
    } else if is_digit_exec(c) {
        match parse_nat_exec(s, start) {
            Some((v, l)) => Some((ItemBuf::N(v), l)),
            None => None,
        }
    } else {
        None
    }
}

/// Decodes a record body starting at `start` (just past the `[`), mirroring
/// `parse_body`.
pub(crate) fn parse_items_exec(s: &Vec<char>, start: usize) -> (r: Option<(Vec<ItemBuf>, usize)>)
    requires
        start <= s@.len(),
    ensures
        match r {
            Some((its, m)) => {
                &&& parse_body(s@.skip(start as int)) == Some((items_view(its@), m as int))
                &&& 1 <= m
                &&& start + m <= s@.len()
            },
            None => parse_body(s@.skip(start as int)) is None,
        },
{
    let ghost t0 = s@.skip(start as int);
    if start >= s.len() {
        return None;
    }
    proof {
        assert(t0[0] == s@[start as int]);
    }
    if s[start] == ']' {
        let its: Vec<ItemBuf> = Vec::new();
        proof {
            assert(items_view(its@) =~= Seq::<JItem>::empty());
        }
        return Some((its, 1));
    }
    let mut acc: Vec<ItemBuf> = Vec::new();
    let mut i: usize = start;
    loop
        invariant
            start <= i <= s@.len(),
            start < s@.len(),
            s@[start as int] != ']',
            match parse_items_ne(s@.skip(i as int)) {
                Some((its, m)) => parse_items_ne(s@.skip(start as int)) == Some(
                    (items_view(acc@) + its, i - start + m),
                ),
                None => parse_items_ne(s@.skip(start as int)) is None,
            },
        decreases s@.len() - i,
    {
        let ghost a = s@.skip(i as int);
        let ghost whole = s@.skip(start as int);
        proof {
            assert(whole[0] == s@[start as int]);
            assert(parse_body(whole) == parse_items_ne(whole));
        }
        match parse_item_exec(s, i) {
            None => {
                proof {
                    assert(parse_items_ne(a) is None);
                }
                return None;
            },
            Some((it, n)) => {
                let slen = s.len();
                proof {
                    assert(i + n <= slen);
                }
                let j = i + n;
                if j >= s.len() {
                    proof {
                        assert(parse_items_ne(a) is None);
                    }
                    return None;
                }
                proof {
                    assert(a[n as int] == s@[j as int]);
                }
                let c = s[j];
                let ghost acc0 = acc@;
                if c == ']' {
                    acc.push(it);
                    proof {
                        assert(parse_items_ne(a) == Some((seq![it@], n + 1 as int)));
                        assert(items_view(acc0) + seq![it@] =~= items_view(acc@));
                    }
                    return Some((acc, j + 1 - start));
                } else if c == ',' {
                    acc.push(it);
                    proof {
                        let b = s@.skip(j + 1);
                        assert(a.skip(n + 1) =~= b);
                        match parse_items_ne(b) {
                            Some((its2, m2)) => {
                                assert(parse_items_ne(a) == Some((seq![it@] + its2, n + 1 + m2)));
                                assert(items_view(acc0) + (seq![it@] + its2) =~= items_view(acc@)
                                    + its2);
                            },
                            None => {
                                assert(parse_items_ne(a) is None);
                            },
                        }
                    }
                    i = j + 1;
                } else {
                    proof {
                        assert(parse_items_ne(a) is None);
                    }
                    return None;
                }
            },
        }
    }
}

/// Decodes one whole record starting at `start`, mirroring `parse_rec`.
pub(crate) fn decode_rec_at(s: &Vec<char>, start: usize) -> (r: Option<
    (Vec<char>, Vec<ItemBuf>, usize),
>)
    requires
        start <= s@.len(),
    ensures
        match r {
            Some((tag, its, n)) => {
                &&& parse_rec(s@.skip(start as int)) == Some((tag@, items_view(its@), n as int))
                &&& 1 <= n
                &&& start + n <= s@.len()
            },
            None => parse_rec(s@.skip(start as int)) is None,
        },
{
    let ghost t = s@.skip(start as int);
    if s.len() - start < 2 {
        return None;
    }
    proof {
        assert(t[0] == s@[start as int]);
        assert(t[1] == s@[start + 1]);
    }
    if !(s[start] == '{' && s[start + 1] == '"') {
        return None;
    }
    proof {
        assert(t.skip(2) =~= s@.skip(start + 2));
    }
    match parse_str_body_exec(s, start + 2) {
        None => None,
        Some((tag, n)) => {
            let slen = s.len();
            proof {
                assert(start + 2 + n <= slen);
            }
            let i = start + 2 + n;
            if s.len() - i < 2 {
                return None;
            }
            proof {
                assert(t[2 + n as int] == s@[i as int]);
                assert(t[2 + n + 1] == s@[i + 1]);
            }
            if !(s[i] == ':' && s[i + 1] == '[') {
                return None;
            }
            proof {
                assert(t.skip(2 + n + 2) =~= s@.skip(i + 2));
            }
            match parse_items_exec(s, i + 2) {
                None => None,
                Some((its, m)) => {
                    let j = i + 2 + m;
                    if j >= s.len() {
                        return None;
                    }
                    proof {
                        assert(t[(j - start) as int] == s@[j as int]);
                    }
                    if s[j] != '}' {
                        return None;
                    }
                    Some((tag, its, j + 1 - start))
                },
            }
        },
    }
}

/// Decodes one log record starting at `start`, mirroring `parse_command`.
pub(crate) fn decode_command_at(s: &Vec<char>, start: usize) -> (r: Option<(KvsCommand, usize)>)
    requires
        start <= s@.len(),
    ensures
        match r {
            Some((c, n)) => {
                &&& parse_command(s@.skip(start as int)) == Some((c@, n as int))
                &&& 1 <= n
                &&& start + n <= s@.len()
            },
            None => parse_command(s@.skip(start as int)) is None,
        },
{
    match decode_rec_at(s, start) {
        None => None,
        Some((tag, mut its, n)) => {
            let ghost tg = tag@;
            let ghost itemseq = items_view(its@);
            let set_pat: Vec<char> = vec!['S', 'e', 't'];
            let rm_pat: Vec<char> = vec!['R', 'm'];
            proof {
                assert(set_pat@ =~= set_tag());
                assert(rm_pat@ =~= rm_tag());
            }
            if chars_eq(&tag, &set_pat) && its.len() == 3 {
                let i2 = its.pop().unwrap();
                let i1 = its.pop().unwrap();
                let i0 = its.pop().unwrap();
                proof {
                    assert(itemseq.len() == 3);
                    assert(itemseq[0] == i0@ && itemseq[1] == i1@ && itemseq[2] == i2@);
                }
                match (i0, i1, i2) {
                    (ItemBuf::S(k), ItemBuf::S(v), ItemBuf::N(ts)) => {
                        proof {
                            assert(itemseq =~= seq![JItem::S(k@), JItem::S(v@), JItem::N(ts)]);
                        }
                        let ks = chars_into_string(&k);
                        let vs = chars_into_string(&v);
                        Some((KvsCommand::SetCmd(ks, vs, ts), n))
                    },
                    _ => {
                        proof {
                            assert(items_to_command(tg, itemseq) is None);
                        }
                        None
                    },
                }
            } else if chars_eq(&tag, &rm_pat) && its.len() == 2 {
                let i1 = its.pop().unwrap();
                let i0 = its.pop().unwrap();
                proof {
                    assert(itemseq.len() == 2);
                    assert(itemseq[0] == i0@ && itemseq[1] == i1@);
                    assert(rm_tag() != set_tag());
                }
                match (i0, i1) {
                    (ItemBuf::S(k), ItemBuf::N(ts)) => {
                        proof {
                            assert(itemseq =~= seq![JItem::S(k@), JItem::N(ts)]);
                        }
                        let ks = chars_into_string(&k);
                        Some((KvsCommand::Rm(ks, ts), n))
                    },
                    _ => {
                        proof {
                            assert(items_to_command(tg, itemseq) is None);
                        }
                        None
                    },
                }
            } else {
                proof {
                    assert(items_to_command(tg, itemseq) is None);
                }
                None
            }
        },
    }
}

/// Appends `{`, the quoted tag and `:[` to `out`.
fn push_tag_open(out: &mut Vec<char>, tag: &Vec<char>)
    ensures
        final(out)@ == old(out)@ + seq!['{'] + quoted(tag@) + seq![':', '['],
{
    out.push('{');
    push_quoted(out, tag);
    out.push(':');
    out.push('[');
    proof {
        assert(out@ =~= old(out)@ + seq!['{'] + quoted(tag@) + seq![':', '[']);
    }
}

/// Encodes one log record as characters.
pub(crate) fn encode_command_chars(c: &KvsCommand) -> (r: Vec<char>)
    ensures
        r@ == enc_command(c@),
{
    let mut out: Vec<char> = Vec::new();
    match c {
        KvsCommand::SetCmd(k, v, ts) => {
            let tag: Vec<char> = vec!['S', 'e', 't'];
            push_tag_open(&mut out, &tag);
            let kc = string_to_chars(k.as_str());
            push_quoted(&mut out, &kc);
            out.push(',');
            let vc = string_to_chars(v.as_str());
            push_quoted(&mut out, &vc);
            out.push(',');
            push_dec(&mut out, *ts);
            out.push(']');
            out.push('}');
            proof {
                assert(tag@ =~= set_tag());
                let items = seq![JItem::S(k@), JItem::S(v@), JItem::N(*ts)];
                let two = seq![JItem::S(v@), JItem::N(*ts)];
                let one = seq![JItem::N(*ts)];
                assert(enc_items(one) == dec_rep(*ts as nat));
                assert(two.drop_first() =~= one);
                assert(enc_items(two) == quoted(v@) + seq![','] + enc_items(one));
                assert(items.drop_first() =~= two);
                assert(enc_items(items) == quoted(k@) + seq![','] + enc_items(two));
                assert(out@ =~= enc_rec(set_tag(), items));
            }
        },
        KvsCommand::Rm(k, ts) => {
            let tag: Vec<char> = vec!['R', 'm'];
            push_tag_open(&mut out, &tag);
            let kc = string_to_chars(k.as_str());
            push_quoted(&mut out, &kc);
            out.push(',');
            push_dec(&mut out, *ts);
            out.push(']');
            out.push('}');
            proof {
                assert(tag@ =~= rm_tag());
                let items = seq![JItem::S(k@), JItem::N(*ts)];
                let one = seq![JItem::N(*ts)];
                assert(enc_items(one) == dec_rep(*ts as nat));
                assert(items.drop_first() =~= one);
                assert(enc_items(items) == quoted(k@) + seq![','] + enc_items(one));
                assert(out@ =~= enc_rec(rm_tag(), items));
            }
        },
    }
    out
}

/// Encodes one log record.
pub fn encode_command(c: &KvsCommand) -> (r: String)
    ensures
        r@ == enc_command(c@),
{
    let chars = encode_command_chars(c);
    chars_into_string(&chars)
}

/// Decodes one log record from the front of `s`, returning the record and
/// the count of characters it occupies.
pub fn decode_command(s: &String) -> (r: Option<(KvsCommand, usize)>)
    ensures
        match r {
            Some((c, n)) => parse_command(s@) == Some((c@, n as int)) && n <= s@.len(),
            None => parse_command(s@) is None,
        },
{
    let chars = string_to_chars(s.as_str());
    proof {
        assert(chars@.skip(0) =~= chars@);
    }
    decode_command_at(&chars, 0)
}

/// Pops the single item of a one-item body if it is a string.
fn pop_str(its: &mut Vec<ItemBuf>) -> (r: Option<String>)
    requires
        old(its)@.len() == 1,
    ensures
        match r {
            Some(x) => old(its)@[0]@ == JItem::S(x@),
            None => !(old(its)@[0]@ is S),
        },
{
    match its.pop() {
        Some(ItemBuf::S(v)) => Some(chars_into_string(&v)),
        _ => None,
    }
}

/// Decodes one wire record starting at `start`, mirroring `parse_db`.
pub(crate) fn decode_db_at(s: &Vec<char>, start: usize) -> (r: Option<(DbCommand, usize)>)
    requires
        start <= s@.len(),
    ensures
        match r {
            Some((d, n)) => {
                &&& parse_db(s@.skip(start as int)) == Some((d@, n as int))
                &&& 1 <= n
                &&& start + n <= s@.len()
            },
            None => parse_db(s@.skip(start as int)) is None,
        },
{
    match decode_rec_at(s, start) {
        None => None,
        Some((tag, mut its, n)) => {
            let ghost tg = tag@;
            let ghost itemseq = items_view(its@);
            let set_pat: Vec<char> = vec!['S', 'e', 't'];
            let get_pat: Vec<char> = vec!['G', 'e', 't'];
            let rm_pat: Vec<char> = vec!['R', 'm'];
            let set_res_pat: Vec<char> = vec!['S', 'e', 't', 'R', 'e', 's', 'u', 'l', 't'];
            let get_res_pat: Vec<char> = vec!['G', 'e', 't', 'R', 'e', 's', 'u', 'l', 't'];
            let rm_res_pat: Vec<char> = vec!['R', 'm', 'R', 'e', 's', 'u', 'l', 't'];
            let error_pat: Vec<char> = vec!['E', 'r', 'r', 'o', 'r'];
            proof {
                assert(set_pat@ =~= set_tag());
                assert(get_pat@ =~= get_tag());
                assert(rm_pat@ =~= rm_tag());
                assert(set_res_pat@ =~= set_result_tag());
                assert(get_res_pat@ =~= get_result_tag());
                assert(rm_res_pat@ =~= rm_result_tag());
                assert(error_pat@ =~= error_tag());
                assert(get_tag() != set_tag()) by {
                    assert(get_tag()[0] == 'G' && set_tag()[0] == 'S');
                }
                assert(get_result_tag() != set_result_tag()) by {
                    assert(get_result_tag()[0] == 'G' && set_result_tag()[0] == 'S');
                }
            }
            if chars_eq(&tag, &set_pat) && its.len() == 2 {
                let i1 = its.pop().unwrap();
                let i0 = its.pop().unwrap();
                proof {
                    assert(itemseq.len() == 2);
                    assert(itemseq[0] == i0@ && itemseq[1] == i1@);
                }
                match (i0, i1) {
                    (ItemBuf::S(k), ItemBuf::S(v)) => {
                        proof {
                            assert(itemseq =~= seq![JItem::S(k@), JItem::S(v@)]);
                        }
                        Some((DbCommand::SetCmd(chars_into_string(&k), chars_into_string(&v)), n))
                    },
                    _ => {
                        proof {
                            assert(items_to_db(tg, itemseq) is None);
                        }
                        None
                    },
                }
            } else if chars_eq(&tag, &get_pat) && its.len() == 1 {
                match pop_str(&mut its) {
                    Some(x) => {
                        proof {
                            assert(itemseq =~= seq![JItem::S(x@)]);
                        }
                        Some((DbCommand::Get(x), n))
                    },
                    None => {
                        proof {
                            assert(items_to_db(tg, itemseq) is None);
                        }
                        None
                    },
                }
            } else if chars_eq(&tag, &rm_pat) && its.len() == 1 {
                match pop_str(&mut its) {
                    Some(x) => {
                        proof {
                            assert(itemseq =~= seq![JItem::S(x@)]);
                        }
                        Some((DbCommand::Rm(x), n))
                    },
                    None => {
                        proof {
                            assert(items_to_db(tg, itemseq) is None);
                        }
                        None
                    },
                }
            } else if chars_eq(&tag, &set_res_pat) && its.len() == 1 {
                match pop_str(&mut its) {
                    Some(x) => {
                        proof {
                            assert(itemseq =~= seq![JItem::S(x@)]);
                        }
                        Some((DbCommand::SetResult(x), n))
                    },
                    None => {
                        proof {
                            assert(items_to_db(tg, itemseq) is None);
                        }
                        None
                    },
                }
            } else if chars_eq(&tag, &get_res_pat) && its.len() == 1 {
                match pop_str(&mut its) {
                    Some(x) => {
                        proof {
                            assert(itemseq =~= seq![JItem::S(x@)]);
                        }
                        Some((DbCommand::GetResult(x), n))
                    },
                    None => {
                        proof {
                            assert(items_to_db(tg, itemseq) is None);
                        }
                        None
                    },
                }
            } else if chars_eq(&tag, &rm_res_pat) && its.len() == 0 {
                proof {
                    assert(itemseq =~= Seq::<JItem>::empty());
                }
                Some((DbCommand::RmResult, n))
            } else if chars_eq(&tag, &error_pat) && its.len() == 1 {
                match pop_str(&mut its) {
                    Some(x) => {
                        proof {
                            assert(itemseq =~= seq![JItem::S(x@)]);
                        }
                        Some((DbCommand::Error(x), n))
                    },
                    None => {
                        proof {
                            assert(items_to_db(tg, itemseq) is None);
                        }
                        None
                    },
                }
            } else {
                proof {
                    assert(items_to_db(tg, itemseq) is None);
                }
                None
            }
        },
    }
}

/// Encodes one wire record as characters.
pub(crate) fn encode_db_chars(d: &DbCommand) -> (r: Vec<char>)
    ensures
        r@ == enc_db(d@),
{
    let mut out: Vec<char> = Vec::new();
    match d {
        DbCommand::SetCmd(k, v) => {
            let tag: Vec<char> = vec!['S', 'e', 't'];
            push_tag_open(&mut out, &tag);
            let kc = string_to_chars(k.as_str());
            push_quoted(&mut out, &kc);
            out.push(',');
            let vc = string_to_chars(v.as_str());
            push_quoted(&mut out, &vc);
            out.push(']');
            out.push('}');
            proof {
                assert(tag@ =~= set_tag());
                let items = seq![JItem::S(k@), JItem::S(v@)];
                let one = seq![JItem::S(v@)];
                assert(enc_items(one) == quoted(v@));
                assert(items.drop_first() =~= one);
                assert(enc_items(items) == quoted(k@) + seq![','] + enc_items(one));
                assert(out@ =~= enc_rec(set_tag(), items));
            }
        },
        DbCommand::Get(k) => {
            let tag: Vec<char> = vec!['G', 'e', 't'];
            push_one_str(&mut out, &tag, k);
            proof {
                assert(tag@ =~= get_tag());
            }
        },
        DbCommand::Rm(k) => {
            let tag: Vec<char> = vec!['R', 'm'];
            push_one_str(&mut out, &tag, k);
            proof {
                assert(tag@ =~= rm_tag());
            }
        },
        DbCommand::SetResult(k) => {
            let tag: Vec<char> = vec!['S', 'e', 't', 'R', 'e', 's', 'u', 'l', 't'];
            push_one_str(&mut out, &tag, k);
            proof {
                assert(tag@ =~= set_result_tag());
            }
        },
        DbCommand::GetResult(v) => {
            let tag: Vec<char> = vec!['G', 'e', 't', 'R', 'e', 's', 'u', 'l', 't'];
            push_one_str(&mut out, &tag, v);
            proof {
                assert(tag@ =~= get_result_tag());
            }
        },
        DbCommand::RmResult => {
            let tag: Vec<char> = vec!['R', 'm', 'R', 'e', 's', 'u', 'l', 't'];
            push_tag_open(&mut out, &tag);
            out.push(']');
            out.push('}');
            proof {
                assert(tag@ =~= rm_result_tag());
                assert(enc_items(Seq::<JItem>::empty()) == Seq::<char>::empty());
                assert(out@ =~= enc_rec(rm_result_tag(), Seq::<JItem>::empty()));
            }
        },
        DbCommand::Error(m) => {
            let tag: Vec<char> = vec!['E', 'r', 'r', 'o', 'r'];
            push_one_str(&mut out, &tag, m);
            proof {
                assert(tag@ =~= error_tag());
            }
        },
    }
    out
}

/// Appends a whole one-string-item record to `out`.
fn push_one_str(out: &mut Vec<char>, tag: &Vec<char>, x: &String)
    ensures
        final(out)@ == old(out)@ + enc_rec(tag@, seq![JItem::S(x@)]),
{
    push_tag_open(out, tag);
    let xc = string_to_chars(x.as_str());
    push_quoted(out, &xc);
    out.push(']');
    out.push('}');
    proof {
        assert(enc_items(seq![JItem::S(x@)]) == quoted(x@));
        assert(out@ =~= old(out)@ + enc_rec(tag@, seq![JItem::S(x@)]));
    }
}

/// Encodes one wire record.
pub fn encode_db_command(d: &DbCommand) -> (r: String)
    ensures
        r@ == enc_db(d@),
{
    let chars = encode_db_chars(d);
    chars_into_string(&chars)
}

/// Decodes one wire record from the front of `s`, returning the record and
/// the count of characters it occupies.
pub fn decode_db_command(s: &String) -> (r: Option<(DbCommand, usize)>)
    ensures
        match r {
            Some((d, n)) => parse_db(s@) == Some((d@, n as int)) && n <= s@.len(),
            None => parse_db(s@) is None,
        },
{
    let chars = string_to_chars(s.as_str());
    proof {
        assert(chars@.skip(0) =~= chars@);
    }
    decode_db_at(&chars, 0)
}

} // verus!
