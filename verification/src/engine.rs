//! The narrow engine capability the server is written against, and the
//! engine lock-in rule: the first start records the engine's name in a
//! sidecar, and a later start with a different engine must be rejected
//! before any connection is served.

use vstd::prelude::*;
use crate::store::KvStore;
use crate::text::{chars_into_string, push_all, string_to_chars};
use crate::KvsError;

verus! {

/// What a storage engine offers: exactly `set`, `get` and `remove`.
///
/// `inv` is the engine's internal invariant and `ready` says whether one
/// more mutation may be recorded; the contracts of the operations
/// themselves live on each implementor.
pub trait KvsEngine {
    spec fn inv(&self) -> bool;

    spec fn ready(&self) -> bool;

    fn set(&mut self, key: String, value: String) -> (r: Result<(), KvsError>)
        requires
            old(self).inv(),
            old(self).ready(),
        ensures
            final(self).inv(),
    ;

    fn get(&mut self, key: String) -> (r: Result<Option<String>, KvsError>)
        requires
            old(self).inv(),
        ensures
            final(self).inv(),
    ;

    fn remove(&mut self, key: String) -> (r: Result<(), KvsError>)
        requires
            old(self).inv(),
            old(self).ready(),
        ensures
            final(self).inv(),
    ;
}

impl KvsEngine for KvStore {
    open spec fn inv(&self) -> bool {
        self.wf()
    }

    open spec fn ready(&self) -> bool {
        self.clock() < u128::MAX
    }

    fn set(&mut self, key: String, value: String) -> (r: Result<(), KvsError>) {
        KvStore::set(self, key, value)
    }

    fn get(&mut self, key: String) -> (r: Result<Option<String>, KvsError>) {
        KvStore::get(self, key)
    }

    fn remove(&mut self, key: String) -> (r: Result<(), KvsError>) {
        KvStore::remove(self, key)
    }
}

/// What the server does about the engine sidecar before serving.
pub enum EngineDecision {
    /// The sidecar already records this engine: serve.
    Proceed,
    /// No engine is recorded yet: write this sidecar text, then serve.
    WriteSidecar(String),
    /// The sidecar records another engine: exit without serving.
    Reject,
}

/// The length of the first line of `t`.
pub open spec fn line_len(t: Seq<char>) -> int
    decreases t.len(),
{
    if t.len() == 0 {
        0
    } else if t[0] == '\n' {
        0
    } else {
        1 + line_len(t.drop_first())
    }
}

/// The position of the first `=` in `l`, or `l`'s length when it has none.
pub open spec fn eq_pos(l: Seq<char>) -> int
    decreases l.len(),
{
    if l.len() == 0 {
        0
    } else if l[0] == '=' {
        0
    } else {
        1 + eq_pos(l.drop_first())
    }
}

pub proof fn lemma_line_len_chars(t: Seq<char>)
    ensures
        0 <= line_len(t) <= t.len(),
        forall|i: int| 0 <= i < line_len(t) ==> #[trigger] t[i] != '\n',
        line_len(t) < t.len() ==> t[line_len(t)] == '\n',
    decreases t.len(),
{
    if t.len() > 0 && t[0] != '\n' {
        lemma_line_len_chars(t.drop_first());
        let r = t.drop_first();
        let l = line_len(t);
        assert(l == 1 + line_len(r));
        assert forall|i: int| 0 <= i < l implies #[trigger] t[i] != '\n' by {
            if i >= 1 {
                assert(t[i] == r[i - 1]);
            }
        }
        if l < t.len() {
            assert(t[l] == r[l - 1]);
        }
    }
}

pub proof fn lemma_eq_pos_chars(l: Seq<char>)
    ensures
        0 <= eq_pos(l) <= l.len(),
        forall|i: int| 0 <= i < eq_pos(l) ==> #[trigger] l[i] != '=',
        eq_pos(l) < l.len() ==> l[eq_pos(l)] == '=',
    decreases l.len(),
{
    if l.len() > 0 && l[0] != '=' {
        lemma_eq_pos_chars(l.drop_first());
        let r = l.drop_first();
        let p = eq_pos(l);
        assert(p == 1 + eq_pos(r));
        assert forall|i: int| 0 <= i < p implies #[trigger] l[i] != '=' by {
            if i >= 1 {
                assert(l[i] == r[i - 1]);
            }
        }
        if p < l.len() {
            assert(l[p] == r[p - 1]);
        }
    }
}

/// Whether a sidecar line records the engine choice.
pub open spec fn is_engine_line(l: Seq<char>) -> bool {
    l.len() >= 6 && l.take(6) == seq!['e', 'n', 'g', 'i', 'n', 'e']
}

/// The first line of the sidecar that starts with `engine`, if any.
pub open spec fn first_engine_line(t: Seq<char>) -> Option<Seq<char>>
    decreases t.len(),
{
    let l = line_len(t);
    if 0 <= l <= t.len() {
        if is_engine_line(t.take(l)) {
            Some(t.take(l))
        } else if l >= t.len() {
            None
        } else {
            first_engine_line(t.skip(l + 1))
        }
    } else {
        None
    }
}

/// What stands after the first `=` of the line, or nothing.
pub open spec fn eq_value(l: Seq<char>) -> Option<Seq<char>> {
    if eq_pos(l) < l.len() {
        Some(l.skip(eq_pos(l) + 1))
    } else {
        None
    }
}

/// The sidecar text recording an engine choice.
pub open spec fn sidecar_text(engine: Seq<char>) -> Seq<char> {
    seq!['e', 'n', 'g', 'i', 'n', 'e', '='] + engine + seq!['\n']
}

/// Scans to the end of the line that starts at `start`.
fn scan_line_len(s: &Vec<char>, start: usize) -> (l: usize)
    requires
        start <= s@.len(),
    ensures
        l as int == line_len(s@.skip(start as int)),
        start + l <= s@.len(),
{
    let mut e: usize = start;
    loop
        invariant
            start <= e <= s@.len(),
            line_len(s@.skip(start as int)) == (e - start) + line_len(s@.skip(e as int)),
            forall|t: int| start <= t < e ==> #[trigger] s@[t] != '\n',
        decreases s@.len() - e,
    {
        if e >= s.len() {
            proof {
                assert(s@.skip(e as int).len() == 0);
            }
            return e - start;
        }
        proof {
            assert(s@.skip(e as int)[0] == s@[e as int]);
        }
        if s[e] == '\n' {
            return e - start;
        }
        proof {
            assert(s@.skip(e as int).drop_first() =~= s@.skip(e + 1));
        }
        e = e + 1;
    }
}

/// Scans for the first `=` between `start` and `stop`.
fn scan_eq_pos(s: &Vec<char>, start: usize, stop: usize) -> (p: usize)
    requires
        start <= stop <= s@.len(),
    ensures
        p as int == eq_pos(s@.subrange(start as int, stop as int)),
        start + p <= stop,
{
    let ghost line = s@.subrange(start as int, stop as int);
    proof {
        assert(line.skip(0) =~= line);
    }
    let mut e: usize = start;
    loop
        invariant
            start <= e <= stop <= s@.len(),
            line == s@.subrange(start as int, stop as int),
            eq_pos(line) == (e - start) + eq_pos(line.skip(e - start)),
            forall|t: int| start <= t < e ==> #[trigger] s@[t] != '=',
        decreases stop - e,
    {
        if e >= stop {
            proof {
                assert(line.skip(e - start).len() == 0);
            }
            return e - start;
        }
        proof {
            assert(line.skip(e - start)[0] == s@[e as int]);
        }
        if s[e] == '=' {
            return e - start;
        }
        proof {
            assert(line.skip(e - start).drop_first() =~= line.skip(e + 1 - start));
        }
        e = e + 1;
    }
}

/// Whether `s` holds exactly `other`'s characters between `a` and `b`.
fn range_eq(s: &Vec<char>, a: usize, b: usize, other: &Vec<char>) -> (r: bool)
    requires
        a <= b <= s@.len(),
    ensures
        r == (s@.subrange(a as int, b as int) == other@),
{
    if b - a != other.len() {
        proof {
            assert(s@.subrange(a as int, b as int).len() != other@.len());
        }
        return false;
    }
    let mut t: usize = 0;
    while t < other.len()
        invariant
            a <= b <= s@.len(),
            b - a == other@.len(),
            t <= other@.len(),
            forall|u: int| 0 <= u < t ==> s@[a + u] == #[trigger] other@[u],
        decreases other@.len() - t,
    {
        if s[a + t] != other[t] {
            proof {
                assert(s@.subrange(a as int, b as int)[t as int] == s@[a + t]);
            }
            return false;
        }
        t = t + 1;
    }
    proof {
        assert(s@.subrange(a as int, b as int) =~= other@);
    }
    true
}

/// Builds the `WriteSidecar` decision for a requested engine.
fn make_sidecar(requested: &String) -> (r: EngineDecision)
    ensures
        r matches EngineDecision::WriteSidecar(c) && c@ == sidecar_text(requested@),
{
    let mut out: Vec<char> = vec!['e', 'n', 'g', 'i', 'n', 'e', '='];
    let rc = string_to_chars(requested.as_str());
    push_all(&mut out, &rc);
    out.push('\n');
    proof {
        assert(out@ =~= sidecar_text(requested@));
    }
    EngineDecision::WriteSidecar(chars_into_string(&out))
}

/// The engine lock-in rule, applied before the server accepts anything.
///
/// With no sidecar, or one without an `engine` line, the decision is to
/// record the requested engine.  An `engine` line with `=` locks the
/// store: the request must match what stands after the `=`.  An `engine`
/// line without `=` decides nothing and the server proceeds.
pub fn engine_lockin(existing: Option<&String>, requested: &String) -> (r: EngineDecision)
    ensures
        match existing {
            Some(text) => match first_engine_line(text@) {
                Some(line) => match eq_value(line) {
                    Some(val) => (val == requested@ ==> r is Proceed) && (val != requested@
                        ==> r is Reject),
                    None => r is Proceed,
                },
                None => r matches EngineDecision::WriteSidecar(c) && c@ == sidecar_text(
                    requested@,
                ),
            },
            None => r matches EngineDecision::WriteSidecar(c) && c@ == sidecar_text(requested@),
        },
{
    match existing {
        None => make_sidecar(requested),
        Some(text) => lockin_scan(text, requested),
    }
}

/// Scans an existing sidecar's text for the engine line and decides.
fn lockin_scan(text: &String, requested: &String) -> (r: EngineDecision)
    ensures
        match first_engine_line(text@) {
            Some(line) => match eq_value(line) {
                Some(val) => (val == requested@ ==> r is Proceed) && (val != requested@
                    ==> r is Reject),
                None => r is Proceed,
            },
            None => r matches EngineDecision::WriteSidecar(c) && c@ == sidecar_text(requested@),
        },
{
    {
        {
            let tc = string_to_chars(text.as_str());
            let pat: Vec<char> = vec!['e', 'n', 'g', 'i', 'n', 'e'];
            let rc = string_to_chars(requested.as_str());
            let mut pos: usize = 0;
            proof {
                assert(tc@.skip(0) =~= tc@);
            }
            loop
                invariant
                    pos <= tc@.len(),
                    tc@ == text@,
                    rc@ == requested@,
                    pat@ =~= seq!['e', 'n', 'g', 'i', 'n', 'e'],
                    first_engine_line(text@) == first_engine_line(tc@.skip(pos as int)),
                decreases tc@.len() - pos,
            {
                let ghost rem = tc@.skip(pos as int);
                let l = scan_line_len(&tc, pos);
                let tlen = tc.len();
                proof {
                    assert(pos + l <= tlen);
                }
                let e = pos + l;
                let ghost line = rem.take(l as int);
                proof {
                    lemma_line_len_chars(rem);
                    assert(line =~= tc@.subrange(pos as int, e as int));
                }
                let engine_line = if l >= 6 {
                    range_eq(&tc, pos, pos + 6, &pat)
                } else {
                    false
                };
                proof {
                    if l >= 6 {
                        assert(tc@.subrange(pos as int, pos + 6) =~= line.take(6));
                    }
                    assert(engine_line == is_engine_line(line));
                }
                if engine_line {
                    proof {
                        assert(first_engine_line(rem) == Some(line));
                    }
                    let q = scan_eq_pos(&tc, pos, e);
                    proof {
                        lemma_eq_pos_chars(line);
                    }
                    if q < l {
                        proof {
                            assert(line.skip(q + 1) =~= tc@.subrange(pos + q + 1, e as int));
                            assert(eq_value(line) == Some(line.skip(q + 1)));
                        }
                        if range_eq(&tc, pos + q + 1, e, &rc) {
                            return EngineDecision::Proceed;
                        } else {
                            return EngineDecision::Reject;
                        }
                    } else {
                        proof {
                            assert(eq_value(line) is None);
                            assert(first_engine_line(text@) == Some(line));
                        }
                        return EngineDecision::Proceed;
                    }
                } else {
                    if e >= tc.len() {
                        proof {
                            assert(first_engine_line(rem) is None);
                            assert(first_engine_line(text@) is None);
                        }
                        return make_sidecar(requested);
                    }
                    proof {
                        assert(rem.skip(l + 1) =~= tc@.skip(e + 1));
                        assert(first_engine_line(rem) == first_engine_line(tc@.skip(e + 1)));
                    }
                    pos = e + 1;
                }
            }
        }
    }
}

} // verus!
