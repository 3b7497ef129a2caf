//! The record format shared by the log and the wire: a record is
//! `{"Tag":[item,item,...]}` where each item is a quoted literal or a
//! decimal number.  One record is self-delimiting, so records can be
//! concatenated without separators and decoded in a stream.

use vstd::prelude::*;
use crate::codec::{
    dec_rep, esc, is_digit, lemma_dec_rep_props, lemma_parse_nat_complete, lemma_parse_nat_sound,
    lemma_parse_str_body_complete, lemma_parse_str_body_sound, parse_nat, parse_str_body, quoted,
};
use crate::command::{CommandModel, DbModel};

verus! {

/// One item of a record body: a string or a number.
pub enum JItem {
    S(Seq<char>),
    N(u128),
}

/// How one item is written.
pub open spec fn enc_item(it: JItem) -> Seq<char> {
    match it {
        JItem::S(s) => quoted(s),
        JItem::N(n) => dec_rep(n as nat),
    }
}

/// Items joined with commas.
pub open spec fn enc_items(items: Seq<JItem>) -> Seq<char>
    decreases items.len(),
{
    if items.len() == 0 {
        Seq::empty()
    } else if items.len() == 1 {
        enc_item(items[0])
    } else {
        enc_item(items[0]) + seq![','] + enc_items(items.drop_first())
    }
}

/// A whole record: `{` tag literal `:[` items `]}`.
pub open spec fn enc_rec(tag: Seq<char>, items: Seq<JItem>) -> Seq<char> {
    seq!['{'] + quoted(tag) + seq![':', '['] + enc_items(items) + seq![']', '}']
}

/// Parses one item.
pub open spec fn parse_item(s: Seq<char>) -> Option<(JItem, int)> {
    if s.len() == 0 {
        None
    } else if s[0] == '"' {
        match parse_str_body(s.drop_first()) {
            Some((c, n)) => Some((JItem::S(c), n + 1)),
            None => None,
        }
    } else if is_digit(s[0]) {
        match parse_nat(s) {
            Some((v, l)) => Some((JItem::N(v), l)),
            None => None,
        }
    } else {
        None
    }
}

/// Parses `item (, item)* ]`, starting after the `[`; the count consumed
/// includes the closing bracket.
pub open spec fn parse_items_ne(s: Seq<char>) -> Option<(Seq<JItem>, int)>
    decreases s.len(),
{
    match parse_item(s) {
        None => None,
        Some((it, n)) => {
            if n < 1 || n >= s.len() {
                None
            } else if s[n] == ']' {
                Some((seq![it], n + 1))
            } else if s[n] == ',' {
                match parse_items_ne(s.skip(n + 1)) {
                    None => None,
                    Some((its, m)) => Some((seq![it] + its, n + 1 + m)),
                }
            } else {
                None
            }
        },
    }
}

/// Parses a possibly empty record body, starting after the `[`.
pub open spec fn parse_body(s: Seq<char>) -> Option<(Seq<JItem>, int)> {
    if s.len() == 0 {
        None
    } else if s[0] == ']' {
        Some((Seq::empty(), 1))
    } else {
        parse_items_ne(s)
    }
}

/// Parses one whole record at the front of `s`.
pub open spec fn parse_rec(s: Seq<char>) -> Option<(Seq<char>, Seq<JItem>, int)> {
    if s.len() < 2 || s[0] != '{' || s[1] != '"' {
        None
    } else {
        match parse_str_body(s.skip(2)) {
            None => None,
            Some((tag, n)) => {
                let i = 2 + n;
                if i + 1 >= s.len() || s[i] != ':' || s[i + 1] != '[' {
                    None
                } else {
                    match parse_body(s.skip(i + 2)) {
                        None => None,
                        Some((items, m)) => {
                            let j = i + 2 + m;
                            if j >= s.len() || s[j] != '}' {
                                None
                            } else {
                                Some((tag, items, j + 1))
                            }
                        },
                    }
                }
            },
        }
    }
}

pub proof fn lemma_enc_item_first(it: JItem)
    ensures
        enc_item(it).len() >= 1,
        enc_item(it)[0] == '"' || is_digit(enc_item(it)[0]),
        enc_item(it)[0] != ']',
        enc_item(it)[0] != ',',
{
    match it {
        JItem::S(s) => {
            assert(enc_item(it)[0] == '"');
        },
        JItem::N(n) => {
            lemma_dec_rep_props(n as nat);
            assert(is_digit(enc_item(it)[0]));
        },
    }
}

/// The item parser accepts every encoded item when a `,` or `]` follows.
pub proof fn lemma_parse_item_complete(it: JItem, rest: Seq<char>)
    requires
        rest.len() >= 1,
        rest[0] == ',' || rest[0] == ']',
    ensures
        parse_item(enc_item(it) + rest) == Some((it, enc_item(it).len() as int)),
{
    let t = enc_item(it) + rest;
    lemma_enc_item_first(it);
    assert(t[0] == enc_item(it)[0]);
    match it {
        JItem::S(s) => {
            assert(t.drop_first() =~= esc(s) + seq!['"'] + rest);
            lemma_parse_str_body_complete(s, rest);
            assert(quoted(s).len() == esc(s).len() + 2);
        },
        JItem::N(n) => {
            assert(!is_digit(rest[0]));
            lemma_parse_nat_complete(n, rest);
            assert(t =~= dec_rep(n as nat) + rest);
            lemma_dec_rep_props(n as nat);
            assert(t[0] != '"');
        },
    }
}

/// Whatever the item parser accepts is the encoding of the item returned.
pub proof fn lemma_parse_item_sound(t: Seq<char>)
    ensures
        match parse_item(t) {
            Some((it, n)) => 1 <= n <= t.len() && t.take(n) == enc_item(it),
            None => true,
        },
{
    if t.len() == 0 {
    } else if t[0] == '"' {
        lemma_parse_str_body_sound(t.drop_first());
        match parse_str_body(t.drop_first()) {
            Some((c, n)) => {
                assert(t.drop_first().take(n) =~= t.take(n + 1).drop_first());
                assert(t.take(n + 1) =~= seq![t[0]] + t.drop_first().take(n));
                assert(t.take(n + 1) =~= quoted(c));
            },
            None => {},
        }
    } else if is_digit(t[0]) {
        lemma_parse_nat_sound(t);
    }
}

/// The list parser accepts every encoded non-empty item list up to and
/// including the closing bracket.
pub proof fn lemma_parse_items_ne_complete(items: Seq<JItem>, rest: Seq<char>)
    requires
        items.len() >= 1,
    ensures
        parse_items_ne(enc_items(items) + seq![']'] + rest) == Some(
            (items, enc_items(items).len() + 1 as int),
        ),
    decreases items.len(),
{
    let t = enc_items(items) + seq![']'] + rest;
    let i0 = items[0];
    if items.len() == 1 {
        assert(enc_items(items) == enc_item(i0));
        assert(t =~= enc_item(i0) + (seq![']'] + rest));
        lemma_parse_item_complete(i0, seq![']'] + rest);
        let n = enc_item(i0).len() as int;
        lemma_enc_item_first(i0);
        assert(t[n] == ']');
        assert(n < t.len());
        assert(seq![i0] =~= items);
    } else {
        let items2 = items.drop_first();
        assert(enc_items(items) == enc_item(i0) + seq![','] + enc_items(items2));
        let follow = seq![','] + enc_items(items2) + seq![']'] + rest;
        assert(t =~= enc_item(i0) + follow);
        lemma_parse_item_complete(i0, follow);
        let n = enc_item(i0).len() as int;
        assert(t[n] == follow[0]);
        assert(t[n] == ',');
        assert(n < t.len());
        assert(t.skip(n + 1) =~= enc_items(items2) + seq![']'] + rest);
        lemma_parse_items_ne_complete(items2, rest);
        assert(seq![i0] + items2 =~= items);
    }
}

/// Whatever the list parser accepts is the encoding of the items returned,
/// closing bracket included.
pub proof fn lemma_parse_items_ne_sound(t: Seq<char>)
    ensures
        match parse_items_ne(t) {
            Some((items, m)) => {
                &&& items.len() >= 1
                &&& 1 <= m <= t.len()
                &&& t.take(m) == enc_items(items) + seq![']']
            },
            None => true,
        },
    decreases t.len(),
{
    lemma_parse_item_sound(t);
    match parse_item(t) {
        None => {},
        Some((it, n)) => {
            if n < 1 || n >= t.len() {
            } else if t[n] == ']' {
                assert(t.take(n + 1) =~= t.take(n) + seq![t[n]]);
                assert(enc_items(seq![it]) == enc_item(it)) by {
                    assert(seq![it].len() == 1);
                    assert(seq![it][0] == it);
                }
                assert(t.take(n + 1) =~= enc_items(seq![it]) + seq![']']);
            } else if t[n] == ',' {
                lemma_parse_items_ne_sound(t.skip(n + 1));
                match parse_items_ne(t.skip(n + 1)) {
                    None => {},
                    Some((its, m)) => {
                        let all = seq![it] + its;
                        assert(all.len() >= 2);
                        assert(all[0] == it);
                        assert(all.drop_first() =~= its);
                        assert(enc_items(all) == enc_item(it) + seq![','] + enc_items(its));
                        assert(t.take(n + 1 + m) =~= t.take(n) + seq![t[n]] + t.skip(n + 1).take(
                            m,
                        ));
                        assert(t.take(n + 1 + m) =~= enc_items(all) + seq![']']);
                    },
                }
            }
        },
    }
}

/// The body parser accepts every encoded body, empty or not.
pub proof fn lemma_parse_body_complete(items: Seq<JItem>, rest: Seq<char>)
    ensures
        parse_body(enc_items(items) + seq![']'] + rest) == Some(
            (items, enc_items(items).len() + 1 as int),
        ),
{
    let t = enc_items(items) + seq![']'] + rest;
    if items.len() == 0 {
        assert(t[0] == ']');
        assert(items =~= Seq::<JItem>::empty());
    } else {
        lemma_enc_item_first(items[0]);
        assert(enc_items(items)[0] == enc_item(items[0])[0]);
        assert(t[0] == enc_items(items)[0]);
        assert(t[0] != ']');
        lemma_parse_items_ne_complete(items, rest);
    }
}

/// Whatever the body parser accepts is the encoding of the items returned.
pub proof fn lemma_parse_body_sound(t: Seq<char>)
    ensures
        match parse_body(t) {
            Some((items, m)) => {
                &&& 1 <= m <= t.len()
                &&& t.take(m) == enc_items(items) + seq![']']
            },
            None => true,
        },
{
    if t.len() == 0 {
    } else if t[0] == ']' {
        assert(t.take(1) =~= enc_items(Seq::<JItem>::empty()) + seq![']']);
    } else {
        lemma_parse_items_ne_sound(t);
    }
}

/// The record parser accepts every encoded record, whatever follows it.
pub proof fn lemma_parse_rec_complete(tag: Seq<char>, items: Seq<JItem>, rest: Seq<char>)
    ensures
        parse_rec(enc_rec(tag, items) + rest) == Some(
            (tag, items, enc_rec(tag, items).len() as int),
        ),
{
    let t = enc_rec(tag, items) + rest;
    assert(t.len() >= enc_rec(tag, items).len());
    assert(enc_rec(tag, items).len() == 5 + quoted(tag).len() + enc_items(items).len());
    assert(t[0] == '{');
    assert(t[1] == quoted(tag)[0]);
    assert(t[1] == '"');
    let tail1 = seq![':', '['] + enc_items(items) + seq![']', '}'] + rest;
    assert(t.skip(2) =~= esc(tag) + seq!['"'] + tail1);
    lemma_parse_str_body_complete(tag, tail1);
    let n = esc(tag).len() + 1 as int;
    let i = 2 + n;
    assert(t[i] == tail1[0]);
    assert(t[i + 1] == tail1[1]);
    assert(i + 1 < t.len());
    let tail2 = seq!['}'] + rest;
    assert(t.skip(i + 2) =~= enc_items(items) + seq![']'] + tail2);
    lemma_parse_body_complete(items, tail2);
    let m = enc_items(items).len() + 1 as int;
    let j = i + 2 + m;
    assert(t[j] == tail2[0]);
    assert(j < t.len());
    assert(j + 1 == enc_rec(tag, items).len());
}

/// Whatever the record parser accepts is the encoding of the tag and items
/// returned.
pub proof fn lemma_parse_rec_sound(t: Seq<char>)
    ensures
        match parse_rec(t) {
            Some((tag, items, n)) => 1 <= n <= t.len() && t.take(n) == enc_rec(tag, items),
            None => true,
        },
{
    if t.len() < 2 || t[0] != '{' || t[1] != '"' {
    } else {
        lemma_parse_str_body_sound(t.skip(2));
        match parse_str_body(t.skip(2)) {
            None => {},
            Some((tag, n)) => {
                let i = 2 + n;
                if i + 1 >= t.len() || t[i] != ':' || t[i + 1] != '[' {
                } else {
                    lemma_parse_body_sound(t.skip(i + 2));
                    match parse_body(t.skip(i + 2)) {
                        None => {},
                        Some((items, m)) => {
                            let j = i + 2 + m;
                            if j >= t.len() || t[j] != '}' {
                            } else {
                                assert(t.skip(2).take(n) == esc(tag) + seq!['"']);
                                assert(t.skip(i + 2).take(m) == enc_items(items) + seq![']']);
                                assert(t.take(j + 1) =~= seq![t[0], t[1]] + t.skip(2).take(n)
                                    + seq![t[i], t[i + 1]] + t.skip(i + 2).take(m) + seq![t[j]]);
                                assert(t.take(j + 1) =~= enc_rec(tag, items));
                            }
                        },
                    }
                }
            },
        }
    }
}

/// The tag of an assignment record.
pub open spec fn set_tag() -> Seq<char> {
    seq!['S', 'e', 't']
}

/// The tag of a tombstone record.
pub open spec fn rm_tag() -> Seq<char> {
    seq!['R', 'm']
}

/// How one log record is written.
pub open spec fn enc_command(c: CommandModel) -> Seq<char> {
    match c {
        CommandModel::SetCmd { key, value, ts } => enc_rec(
            set_tag(),
            seq![JItem::S(key), JItem::S(value), JItem::N(ts)],
        ),
        CommandModel::Rm { key, ts } => enc_rec(rm_tag(), seq![JItem::S(key), JItem::N(ts)]),
    }
}

/// Which log record a tag and an item list stand for, if any.
pub open spec fn items_to_command(tag: Seq<char>, items: Seq<JItem>) -> Option<CommandModel> {
    if tag == set_tag() && items.len() == 3 {
        match (items[0], items[1], items[2]) {
            (JItem::S(key), JItem::S(value), JItem::N(ts)) => Some(
                CommandModel::SetCmd { key, value, ts },
            ),
            _ => None,
        }
    } else if tag == rm_tag() && items.len() == 2 {
        match (items[0], items[1]) {
            (JItem::S(key), JItem::N(ts)) => Some(CommandModel::Rm { key, ts }),
            _ => None,
        }
    } else {
        None
    }
}

/// Parses one log record at the front of `s`.
pub open spec fn parse_command(s: Seq<char>) -> Option<(CommandModel, int)> {
    match parse_rec(s) {
        None => None,
        Some((tag, items, n)) => match items_to_command(tag, items) {
            None => None,
            Some(c) => Some((c, n)),
        },
    }
}

/// Round trip for log records: the parser accepts every encoded record and
/// returns exactly the record and its length, whatever follows it.
pub proof fn lemma_parse_command_complete(c: CommandModel, rest: Seq<char>)
    ensures
        parse_command(enc_command(c) + rest) == Some((c, enc_command(c).len() as int)),
{
    match c {
        CommandModel::SetCmd { key, value, ts } => {
            let items = seq![JItem::S(key), JItem::S(value), JItem::N(ts)];
            lemma_parse_rec_complete(set_tag(), items, rest);
        },
        CommandModel::Rm { key, ts } => {
            let items = seq![JItem::S(key), JItem::N(ts)];
            lemma_parse_rec_complete(rm_tag(), items, rest);
            assert(rm_tag() != set_tag());
        },
    }
}

/// Whatever the log-record parser accepts is the encoding of the record it
/// returns.
pub proof fn lemma_parse_command_sound(t: Seq<char>)
    ensures
        match parse_command(t) {
            Some((c, n)) => 1 <= n <= t.len() && t.take(n) == enc_command(c),
            None => true,
        },
{
    lemma_parse_rec_sound(t);
    match parse_rec(t) {
        None => {},
        Some((tag, items, n)) => {
            match items_to_command(tag, items) {
                None => {},
                Some(c) => {
                    match c {
                        CommandModel::SetCmd { key, value, ts } => {
                            assert(items =~= seq![JItem::S(key), JItem::S(value), JItem::N(ts)]);
                        },
                        CommandModel::Rm { key, ts } => {
                            assert(items =~= seq![JItem::S(key), JItem::N(ts)]);
                        },
                    }
                },
            }
        },
    }
}

/// The characters of a whole log segment: records encoded back to back,
/// without separators.
pub open spec fn concat_enc(cmds: Seq<CommandModel>) -> Seq<char>
    decreases cmds.len(),
{
    if cmds.len() == 0 {
        Seq::empty()
    } else {
        enc_command(cmds[0]) + concat_enc(cmds.drop_first())
    }
}

/// The offset of record `j` within its segment.
pub open spec fn off_of(cmds: Seq<CommandModel>, j: int) -> int {
    concat_enc(cmds.take(j)).len() as int
}

/// Parses a whole segment as a sequence of records.
pub open spec fn parse_log(s: Seq<char>) -> Option<Seq<CommandModel>>
    decreases s.len(),
{
    if s.len() == 0 {
        Some(Seq::empty())
    } else {
        match parse_command(s) {
            None => None,
            Some((c, n)) => {
                if n < 1 || n > s.len() {
                    None
                } else {
                    match parse_log(s.skip(n)) {
                        None => None,
                        Some(cs) => Some(seq![c] + cs),
                    }
                }
            },
        }
    }
}

pub proof fn lemma_enc_command_len(c: CommandModel)
    ensures
        enc_command(c).len() >= 5,
{
}

pub proof fn lemma_concat_enc_push(cmds: Seq<CommandModel>, c: CommandModel)
    ensures
        concat_enc(cmds.push(c)) == concat_enc(cmds) + enc_command(c),
    decreases cmds.len(),
{
    if cmds.len() == 0 {
        assert(cmds.push(c).drop_first() =~= Seq::<CommandModel>::empty());
        assert(cmds.push(c)[0] == c);
        assert(concat_enc(Seq::<CommandModel>::empty()) == Seq::<char>::empty());
        assert(concat_enc(cmds.push(c)) =~= enc_command(c));
        assert(concat_enc(cmds) + enc_command(c) =~= enc_command(c));
    } else {
        assert(cmds.push(c).drop_first() =~= cmds.drop_first().push(c));
        lemma_concat_enc_push(cmds.drop_first(), c);
        assert(cmds.push(c)[0] == cmds[0]);
        assert(enc_command(cmds[0]) + (concat_enc(cmds.drop_first()) + enc_command(c)) =~= (
        enc_command(cmds[0]) + concat_enc(cmds.drop_first())) + enc_command(c));
    }
}

/// The suffix of a segment starting at record `j` is that record's encoding
/// followed by the remaining records.
pub proof fn lemma_concat_enc_skip_at(cmds: Seq<CommandModel>, j: int)
    requires
        0 <= j < cmds.len(),
    ensures
        0 <= off_of(cmds, j),
        off_of(cmds, j) + enc_command(cmds[j]).len() <= concat_enc(cmds).len(),
        concat_enc(cmds).skip(off_of(cmds, j)) == enc_command(cmds[j]) + concat_enc(
            cmds.skip(j + 1),
        ),
    decreases j,
{
    if j == 0 {
        assert(cmds.take(0) =~= Seq::<CommandModel>::empty());
        assert(off_of(cmds, 0) == 0);
        assert(cmds.skip(1) =~= cmds.drop_first());
        assert(concat_enc(cmds).skip(0) =~= concat_enc(cmds));
    } else {
        let rest = cmds.drop_first();
        lemma_concat_enc_skip_at(rest, j - 1);
        assert(cmds.take(j)[0] == cmds[0]);
        assert(cmds.take(j).drop_first() =~= rest.take(j - 1));
        assert(concat_enc(cmds.take(j)) == enc_command(cmds[0]) + concat_enc(rest.take(j - 1)));
        assert(off_of(cmds, j) == enc_command(cmds[0]).len() + off_of(rest, j - 1));
        assert(rest[j - 1] == cmds[j]);
        assert(rest.skip(j) =~= cmds.skip(j + 1));
        assert(concat_enc(cmds).skip(off_of(cmds, j)) =~= concat_enc(rest).skip(
            off_of(rest, j - 1),
        ));
    }
}

/// The segment parser accepts every concatenation of encoded records.
pub proof fn lemma_parse_log_complete(cmds: Seq<CommandModel>)
    ensures
        parse_log(concat_enc(cmds)) == Some(cmds),
    decreases cmds.len(),
{
    if cmds.len() == 0 {
        assert(cmds =~= Seq::<CommandModel>::empty());
    } else {
        let c0 = cmds[0];
        let rest = cmds.drop_first();
        let t = concat_enc(cmds);
        assert(t =~= enc_command(c0) + concat_enc(rest));
        lemma_parse_command_complete(c0, concat_enc(rest));
        lemma_enc_command_len(c0);
        let n = enc_command(c0).len() as int;
        assert(t.skip(n) =~= concat_enc(rest));
        lemma_parse_log_complete(rest);
        assert(seq![c0] + rest =~= cmds);
    }
}

/// A segment that begins with encoded records and then stops decoding does
/// not parse as a whole.
pub proof fn lemma_parse_log_stuck(cmds: Seq<CommandModel>, t: Seq<char>)
    requires
        t.len() > 0,
        parse_command(t) is None,
    ensures
        parse_log(concat_enc(cmds) + t) is None,
    decreases cmds.len(),
{
    if cmds.len() == 0 {
        assert(concat_enc(cmds) + t =~= t);
    } else {
        let c0 = cmds[0];
        let rest = cmds.drop_first();
        let u = concat_enc(cmds) + t;
        assert(u =~= enc_command(c0) + (concat_enc(rest) + t));
        lemma_parse_command_complete(c0, concat_enc(rest) + t);
        lemma_enc_command_len(c0);
        let n = enc_command(c0).len() as int;
        assert(u.skip(n) =~= concat_enc(rest) + t);
        lemma_parse_log_stuck(rest, t);
    }
}

/// The tag of a lookup request.
pub open spec fn get_tag() -> Seq<char> {
    seq!['G', 'e', 't']
}

/// The tag of a successful-set response.
pub open spec fn set_result_tag() -> Seq<char> {
    seq!['S', 'e', 't', 'R', 'e', 's', 'u', 'l', 't']
}

/// The tag of a successful-get response.
pub open spec fn get_result_tag() -> Seq<char> {
    seq!['G', 'e', 't', 'R', 'e', 's', 'u', 'l', 't']
}

/// The tag of a successful-remove response.
pub open spec fn rm_result_tag() -> Seq<char> {
    seq!['R', 'm', 'R', 'e', 's', 'u', 'l', 't']
}

/// The tag of an error response.
pub open spec fn error_tag() -> Seq<char> {
    seq!['E', 'r', 'r', 'o', 'r']
}

/// How one wire record is written.
pub open spec fn enc_db(d: DbModel) -> Seq<char> {
    match d {
        DbModel::SetCmd { key, value } => enc_rec(set_tag(), seq![JItem::S(key), JItem::S(value)]),
        DbModel::Get { key } => enc_rec(get_tag(), seq![JItem::S(key)]),
        DbModel::Rm { key } => enc_rec(rm_tag(), seq![JItem::S(key)]),
        DbModel::SetResult { key } => enc_rec(set_result_tag(), seq![JItem::S(key)]),
        DbModel::GetResult { value } => enc_rec(get_result_tag(), seq![JItem::S(value)]),
        DbModel::RmResult => enc_rec(rm_result_tag(), Seq::empty()),
        DbModel::Error { message } => enc_rec(error_tag(), seq![JItem::S(message)]),
    }
}

/// Which wire record a tag and an item list stand for, if any.
pub open spec fn items_to_db(tag: Seq<char>, items: Seq<JItem>) -> Option<DbModel> {
    if tag == set_tag() && items.len() == 2 {
        match (items[0], items[1]) {
            (JItem::S(key), JItem::S(value)) => Some(DbModel::SetCmd { key, value }),
            _ => None,
        }
    } else if tag == get_tag() && items.len() == 1 {
        match items[0] {
            JItem::S(key) => Some(DbModel::Get { key }),
            _ => None,
        }
    } else if tag == rm_tag() && items.len() == 1 {
        match items[0] {
            JItem::S(key) => Some(DbModel::Rm { key }),
            _ => None,
        }
    } else if tag == set_result_tag() && items.len() == 1 {
        match items[0] {
            JItem::S(key) => Some(DbModel::SetResult { key }),
            _ => None,
        }
    } else if tag == get_result_tag() && items.len() == 1 {
        match items[0] {
            JItem::S(value) => Some(DbModel::GetResult { value }),
            _ => None,
        }
    } else if tag == rm_result_tag() && items.len() == 0 {
        Some(DbModel::RmResult)
    } else if tag == error_tag() && items.len() == 1 {
        match items[0] {
            JItem::S(message) => Some(DbModel::Error { message }),
            _ => None,
        }
    } else {
        None
    }
}

/// Parses one wire record at the front of `s`.
pub open spec fn parse_db(s: Seq<char>) -> Option<(DbModel, int)> {
    match parse_rec(s) {
        None => None,
        Some((tag, items, n)) => match items_to_db(tag, items) {
            None => None,
            Some(d) => Some((d, n)),
        },
    }
}

/// Round trip for wire records.
#[verifier::rlimit(100)]
#[verifier::spinoff_prover]
pub proof fn lemma_parse_db_complete(d: DbModel, rest: Seq<char>)
    ensures
        parse_db(enc_db(d) + rest) == Some((d, enc_db(d).len() as int)),
{
    assert(get_tag() != set_tag()) by {
        assert(get_tag()[0] == 'G' && set_tag()[0] == 'S');
    }
    assert(get_result_tag() != set_result_tag()) by {
        assert(get_result_tag()[0] == 'G' && set_result_tag()[0] == 'S');
    }
    match d {
        DbModel::SetCmd { key, value } => {
            lemma_parse_rec_complete(set_tag(), seq![JItem::S(key), JItem::S(value)], rest);
        },
        DbModel::Get { key } => {
            lemma_parse_rec_complete(get_tag(), seq![JItem::S(key)], rest);
        },
        DbModel::Rm { key } => {
            lemma_parse_rec_complete(rm_tag(), seq![JItem::S(key)], rest);
        },
        DbModel::SetResult { key } => {
            lemma_parse_rec_complete(set_result_tag(), seq![JItem::S(key)], rest);
        },
        DbModel::GetResult { value } => {
            lemma_parse_rec_complete(get_result_tag(), seq![JItem::S(value)], rest);
        },
        DbModel::RmResult => {
            lemma_parse_rec_complete(rm_result_tag(), Seq::empty(), rest);
        },
        DbModel::Error { message } => {
            lemma_parse_rec_complete(error_tag(), seq![JItem::S(message)], rest);
        },
    }
}

/// Whatever the wire-record parser accepts is the encoding of the record it
/// returns.
pub proof fn lemma_parse_db_sound(t: Seq<char>)
    ensures
        match parse_db(t) {
            Some((d, n)) => 1 <= n <= t.len() && t.take(n) == enc_db(d),
            None => true,
        },
{
    lemma_parse_rec_sound(t);
    match parse_rec(t) {
        None => {},
        Some((tag, items, n)) => {
            match items_to_db(tag, items) {
                None => {},
                Some(d) => {
                    match d {
                        DbModel::SetCmd { key, value } => {
                            assert(items =~= seq![JItem::S(key), JItem::S(value)]);
                        },
                        DbModel::Get { key } => {
                            assert(items =~= seq![JItem::S(key)]);
                        },
                        DbModel::Rm { key } => {
                            assert(items =~= seq![JItem::S(key)]);
                        },
                        DbModel::SetResult { key } => {
                            assert(items =~= seq![JItem::S(key)]);
                        },
                        DbModel::GetResult { value } => {
                            assert(items =~= seq![JItem::S(value)]);
                        },
                        DbModel::RmResult => {
                            assert(items =~= Seq::<JItem>::empty());
                        },
                        DbModel::Error { message } => {
                            assert(items =~= seq![JItem::S(message)]);
                        },
                    }
                },
            }
        },
    }
}

} // verus!
