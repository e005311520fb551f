//! The store codec: a deterministic, human-editable textual encoding of the
//! tracked set, with a decoder proved to accept exactly the encodings.
//!
//! The format is a single map literal: `{}` for the empty set, else
//! `{"path":(secs,nanos),...}` with backslash-escaped quotes and backslashes
//! inside paths and canonical decimal numerals.

use vstd::prelude::*;

use crate::error::DecodeError;
use crate::stamp::NANOS_PER_SEC;
use crate::stamp::Stamp;
use crate::store::Database;
use crate::store::Entry;
use crate::store::unique_paths;
use crate::store::wf_model;
use crate::text::chars_to_string;
use crate::text::dec_rep;
use crate::text::escape_seq;
use crate::text::lemma_parse_num_roundtrip;
use crate::text::lemma_parse_num_sound;
use crate::text::lemma_parse_str_roundtrip;
use crate::text::lemma_parse_str_sound;
use crate::text::parse_num;
use crate::text::parse_str_body;
use crate::text::push_char;
use crate::text::push_escaped;
use crate::text::push_u64;
use crate::text::str_eq;
use crate::text::str_to_chars;
use crate::text::take_num;
use crate::text::take_str_body;

verus! {

// ---------------------------------------------------------------------------
// The encoding, as a specification
// ---------------------------------------------------------------------------

/// The encoding of one entry: `"path":(secs,nanos)`.
pub open spec fn enc_entry(e: (Seq<char>, Stamp)) -> Seq<char> {
    seq!['"'] + escape_seq(e.0) + seq!['"', ':', '('] + dec_rep(e.1.secs as nat) + seq![',']
        + dec_rep(e.1.nanos as nat) + seq![')']
}

/// The comma-separated encodings of a sequence of entries.
pub open spec fn enc_entries(m: Seq<(Seq<char>, Stamp)>) -> Seq<char>
    decreases m.len(),
{
    if m.len() == 0 {
        Seq::empty()
    } else if m.len() == 1 {
        enc_entry(m[0])
    } else {
        enc_entry(m[0]) + seq![','] + enc_entries(m.drop_first())
    }
}

/// The full store text: the entry list between braces.
pub open spec fn spec_encode(m: Seq<(Seq<char>, Stamp)>) -> Seq<char> {
    seq!['{'] + enc_entries(m) + seq!['}']
}

// ---------------------------------------------------------------------------
// The grammar, as a specification
// ---------------------------------------------------------------------------

/// Parses one entry at the head of `s`.
pub open spec fn parse_entry(s: Seq<char>) -> Option<((Seq<char>, Stamp), Seq<char>)> {
    if s.len() >= 1 && s[0] == '"' {
        match parse_str_body(s.drop_first()) {
            Some((p, r1)) => if r1.len() >= 2 && r1[0] == ':' && r1[1] == '(' {
                match parse_num(r1.subrange(2, r1.len() as int)) {
                    Some((secs, r2)) => if r2.len() >= 1 && r2[0] == ',' {
                        match parse_num(r2.drop_first()) {
                            Some((nanos, r3)) => if r3.len() >= 1 && r3[0] == ')' && secs
                                <= u64::MAX && nanos < NANOS_PER_SEC {
                                Some(
                                    (
                                        (p, Stamp { secs: secs as u64, nanos: nanos as u32 }),
                                        r3.drop_first(),
                                    ),
                                )
                            } else {
                                None
                            },
                            None => None,
                        }
                    } else {
                        None
                    },
                    None => None,
                }
            } else {
                None
            },
            None => None,
        }
    } else {
        None
    }
}

/// Parses a nonempty comma-separated entry list at the head of `s`.
pub open spec fn parse_entry_list(s: Seq<char>) -> Option<
    (Seq<(Seq<char>, Stamp)>, Seq<char>),
>
    decreases s.len(),
{
    match parse_entry(s) {
        Some((e, r)) => if r.len() >= 1 && r[0] == ',' {
            if r.len() <= s.len() {
                match parse_entry_list(r.drop_first()) {
                    Some((es, r2)) => Some((seq![e] + es, r2)),
                    None => None,
                }
            } else {
                None
            }
        } else {
            Some((seq![e], r))
        },
        None => None,
    }
}

/// Parses a whole store text by the grammar alone, without the
/// distinct-paths condition.
pub open spec fn spec_parse(s: Seq<char>) -> Option<Seq<(Seq<char>, Stamp)>> {
    if s.len() >= 2 && s[0] == '{' {
        let t = s.drop_first();
        if t.len() == 1 && t[0] == '}' {
            Some(Seq::empty())
        } else {
            match parse_entry_list(t) {
                Some((es, r)) => if r.len() == 1 && r[0] == '}' {
                    Some(es)
                } else {
                    None
                },
                None => None,
            }
        }
    } else {
        None
    }
}

/// What `decode` accepts: the grammar, plus no path occurring twice.
pub open spec fn spec_decode(s: Seq<char>) -> Option<Seq<(Seq<char>, Stamp)>> {
    match spec_parse(s) {
        Some(es) => if unique_paths(es) {
            Some(es)
        } else {
            None
        },
        None => None,
    }
}

// ---------------------------------------------------------------------------
// Soundness: a parse splits the input into an encoding and the rest
// ---------------------------------------------------------------------------

proof fn lemma_parse_entry_sound(s: Seq<char>)
    requires
        parse_entry(s) is Some,
    ensures
        s == enc_entry(parse_entry(s)->Some_0.0) + parse_entry(s)->Some_0.1,
        parse_entry(s)->Some_0.0.1.wf(),
        parse_entry(s)->Some_0.1.len() < s.len(),
{
    let (e, rest) = parse_entry(s)->Some_0;
    let p = e.0;
    let t = s.drop_first();
    let (p0, r1) = parse_str_body(t)->Some_0;
    lemma_parse_str_sound(t);
    assert(t == escape_seq(p0) + seq!['"'] + r1);
    let r1b = r1.subrange(2, r1.len() as int);
    let (secs, r2) = parse_num(r1b)->Some_0;
    lemma_parse_num_sound(r1b);
    assert(r1b == dec_rep(secs) + r2);
    let r2b = r2.drop_first();
    let (nanos, r3) = parse_num(r2b)->Some_0;
    lemma_parse_num_sound(r2b);
    assert(r2b == dec_rep(nanos) + r3);
    assert(p == p0);
    assert(e.1 == (Stamp { secs: secs as u64, nanos: nanos as u32 }));
    assert(e.1.secs as nat == secs);
    assert(e.1.nanos as nat == nanos);
    assert(rest == r3.drop_first());
    assert(r1 =~= seq![':', '('] + r1b);
    assert(r2 =~= seq![','] + r2b);
    assert(r3 =~= seq![')'] + rest);
    assert(s =~= seq!['"'] + t);
    assert(s =~= seq!['"'] + (escape_seq(p0) + seq!['"'] + (seq![':', '('] + (dec_rep(secs) + (
    seq![','] + (dec_rep(nanos) + (seq![')'] + rest)))))));
    assert(enc_entry(e) + rest =~= seq!['"'] + (escape_seq(p0) + seq!['"'] + (seq![':', '('] + (
    dec_rep(secs) + (seq![','] + (dec_rep(nanos) + (seq![')'] + rest)))))));
    assert(e.1.wf());
}

proof fn lemma_parse_list_sound(s: Seq<char>)
    requires
        parse_entry_list(s) is Some,
    ensures
        s == enc_entries(parse_entry_list(s)->Some_0.0) + parse_entry_list(s)->Some_0.1,
        parse_entry_list(s)->Some_0.0.len() >= 1,
        forall|i: int|
            0 <= i < parse_entry_list(s)->Some_0.0.len() ==> (#[trigger] parse_entry_list(
                s,
            )->Some_0.0[i]).1.wf(),
    decreases s.len(),
{
    let (es, rest) = parse_entry_list(s)->Some_0;
    let (e, r) = parse_entry(s)->Some_0;
    lemma_parse_entry_sound(s);
    if r.len() >= 1 && r[0] == ',' {
        let rb = r.drop_first();
        lemma_parse_list_sound(rb);
        let (es2, r2) = parse_entry_list(rb)->Some_0;
        assert(es == seq![e] + es2);
        assert(rest == r2);
        assert(rb == enc_entries(es2) + r2);
        assert(es.len() >= 2);
        assert(es[0] == e);
        assert(es.drop_first() =~= es2);
        assert(enc_entries(es) == enc_entry(e) + seq![','] + enc_entries(es2));
        assert(r =~= seq![','] + rb);
        assert(s == enc_entry(e) + r);
        assert(enc_entry(e) + (seq![','] + (enc_entries(es2) + r2)) =~= (enc_entry(e) + seq![',']
            + enc_entries(es2)) + r2);
        assert(s == enc_entries(es) + rest);
        assert(forall|i: int| 0 <= i < es.len() ==> (#[trigger] es[i]).1.wf()) by {
            assert(forall|i: int| 1 <= i < es.len() ==> (#[trigger] es[i]) == es2[i - 1]);
        }
    } else {
        assert(es == seq![e]);
        assert(rest == r);
        assert(es.len() == 1);
        assert(es[0] == e);
        assert(enc_entries(es) == enc_entry(e));
        assert(forall|i: int| 0 <= i < es.len() ==> (#[trigger] es[i]).1.wf());
    }
}

/// A decoded text is the encoding of the decoded model, and that model is
/// well formed.
pub proof fn lemma_decode_sound(s: Seq<char>)
    requires
        spec_decode(s) is Some,
    ensures
        wf_model(spec_decode(s)->Some_0),
        spec_encode(spec_decode(s)->Some_0) == s,
{
    let es = spec_decode(s)->Some_0;
    let t = s.drop_first();
    if t.len() == 1 && t[0] == '}' {
        assert(es == Seq::<(Seq<char>, Stamp)>::empty());
        assert(enc_entries(es) == Seq::<char>::empty());
        assert(spec_encode(es) =~= s);
        assert(wf_model(es));
    } else {
        let (es0, r) = parse_entry_list(t)->Some_0;
        lemma_parse_list_sound(t);
        assert(es == es0);
        assert(r.len() == 1 && r[0] == '}');
        assert(r =~= seq!['}']);
        assert(t == enc_entries(es) + r);
        assert(s =~= seq!['{'] + t);
        assert(seq!['{'] + (enc_entries(es) + seq!['}']) =~= seq!['{'] + enc_entries(es) + seq![
            '}',
        ]);
        assert(spec_encode(es) == s);
        assert(wf_model(es));
    }
}

// ---------------------------------------------------------------------------
// Completeness: every encoding of a well-formed model decodes to it
// ---------------------------------------------------------------------------

proof fn lemma_enc_entry_head(e: (Seq<char>, Stamp))
    ensures
        enc_entry(e).len() >= 7,
        enc_entry(e)[0] == '"',
{
    assert(enc_entry(e)[0] == '"');
}

proof fn lemma_parse_entry_complete(e: (Seq<char>, Stamp), rest: Seq<char>)
    requires
        e.1.wf(),
    ensures
        parse_entry(enc_entry(e) + rest) == Some((e, rest)),
{
    let s = enc_entry(e) + rest;
    let secs = e.1.secs as nat;
    let nanos = e.1.nanos as nat;
    let tail1 = seq![':', '('] + dec_rep(secs) + seq![','] + dec_rep(nanos) + seq![')'] + rest;
    assert(s[0] == '"');
    assert(s.len() >= 1);
    assert(s.drop_first() =~= escape_seq(e.0) + seq!['"'] + tail1);
    lemma_parse_str_roundtrip(e.0, tail1);
    let r1 = tail1;
    assert(parse_str_body(s.drop_first()) == Some((e.0, r1)));
    assert(r1.len() >= 2 && r1[0] == ':' && r1[1] == '(');
    let tail2 = seq![','] + dec_rep(nanos) + seq![')'] + rest;
    assert(r1.subrange(2, r1.len() as int) =~= dec_rep(secs) + tail2);
    crate::text::lemma_dec_rep_digits(secs);
    crate::text::lemma_dec_rep_digits(nanos);
    lemma_parse_num_roundtrip(secs, tail2);
    assert(parse_num(r1.subrange(2, r1.len() as int)) == Some((secs, tail2)));
    assert(tail2.len() >= 1 && tail2[0] == ',');
    let tail3 = seq![')'] + rest;
    assert(tail2.drop_first() =~= dec_rep(nanos) + tail3);
    lemma_parse_num_roundtrip(nanos, tail3);
    assert(parse_num(tail2.drop_first()) == Some((nanos, tail3)));
    assert(tail3.len() >= 1 && tail3[0] == ')');
    assert(secs <= u64::MAX && nanos < NANOS_PER_SEC);
    assert(tail3.drop_first() =~= rest);
    assert((Stamp { secs: secs as u64, nanos: nanos as u32 }) == e.1);
}

proof fn lemma_parse_list_complete(m: Seq<(Seq<char>, Stamp)>, rest: Seq<char>)
    requires
        m.len() >= 1,
        forall|i: int| 0 <= i < m.len() ==> (#[trigger] m[i]).1.wf(),
        rest.len() == 0 || rest[0] != ',',
    ensures
        parse_entry_list(enc_entries(m) + rest) == Some((m, rest)),
    decreases m.len(),
{
    let s = enc_entries(m) + rest;
    if m.len() == 1 {
        assert(enc_entries(m) == enc_entry(m[0]));
        lemma_parse_entry_complete(m[0], rest);
        assert(parse_entry(s) == Some((m[0], rest)));
        assert(!(rest.len() >= 1 && rest[0] == ','));
        assert(seq![m[0]] =~= m);
    } else {
        let m2 = m.drop_first();
        let mid = seq![','] + enc_entries(m2) + rest;
        assert(enc_entries(m) == enc_entry(m[0]) + seq![','] + enc_entries(m2));
        assert(s =~= enc_entry(m[0]) + mid);
        lemma_parse_entry_complete(m[0], mid);
        assert(parse_entry(s) == Some((m[0], mid)));
        assert(mid.len() >= 1 && mid[0] == ',');
        lemma_enc_entry_head(m[0]);
        assert(mid.len() <= s.len());
        assert(mid.drop_first() =~= enc_entries(m2) + rest);
        assert(forall|i: int| 0 <= i < m2.len() ==> (#[trigger] m2[i]) == m[i + 1]);
        lemma_parse_list_complete(m2, rest);
        assert(parse_entry_list(mid.drop_first()) == Some((m2, rest)));
        assert(seq![m[0]] + m2 =~= m);
    }
}

/// Decoding inverts encoding: the round trip gives the model back.
pub proof fn lemma_round_trip(m: Seq<(Seq<char>, Stamp)>)
    requires
        wf_model(m),
    ensures
        spec_decode(spec_encode(m)) == Some(m),
{
    let s = spec_encode(m);
    assert(s[0] == '{');
    let t = s.drop_first();
    assert(t =~= enc_entries(m) + seq!['}']);
    if m.len() == 0 {
        assert(enc_entries(m) == Seq::<char>::empty());
        assert(t =~= seq!['}']);
        assert(s.len() == 2);
        assert(spec_parse(s) == Some(Seq::<(Seq<char>, Stamp)>::empty()));
        assert(unique_paths(Seq::<(Seq<char>, Stamp)>::empty()));
        assert(m =~= Seq::<(Seq<char>, Stamp)>::empty());
    } else {
        lemma_enc_entry_head(m[0]);
        assert(enc_entries(m).len() >= 7) by {
            if m.len() == 1 {
                assert(enc_entries(m) == enc_entry(m[0]));
            } else {
                assert(enc_entries(m) == enc_entry(m[0]) + seq![','] + enc_entries(
                    m.drop_first(),
                ));
            }
        }
        assert(s.len() >= 2);
        assert(t.len() >= 8);
        assert(!(t.len() == 1 && t[0] == '}'));
        lemma_parse_list_complete(m, seq!['}']);
        assert(parse_entry_list(t) == Some((m, seq!['}'])));
        assert(spec_parse(s) == Some(m));
    }
}

/// A text that `decode` rejects is the encoding of no well-formed model.
pub proof fn lemma_decode_none_no_encoding(s: Seq<char>)
    requires
        spec_decode(s) is None,
    ensures
        forall|m: Seq<(Seq<char>, Stamp)>| wf_model(m) ==> spec_encode(m) != s,
{
    assert forall|m: Seq<(Seq<char>, Stamp)>| wf_model(m) implies spec_encode(m) != s by {
        if spec_encode(m) == s {
            lemma_round_trip(m);
            assert(false);
        }
    }
}

// ---------------------------------------------------------------------------
// Executable codec
// ---------------------------------------------------------------------------

/// Appends the encoding of one entry.
fn encode_entry(e: &Entry, out: &mut String)
    ensures
        final(out)@ == old(out)@ + enc_entry(e@),
{
    push_char(out, '"');
    push_escaped(out, e.path.as_str());
    push_char(out, '"');
    push_char(out, ':');
    push_char(out, '(');
    push_u64(out, e.first_seen.secs);
    push_char(out, ',');
    let nanos64: u64 = e.first_seen.nanos as u64;
    push_u64(out, nanos64);
    push_char(out, ')');
    proof {
        assert(nanos64 as nat == e.first_seen.nanos as nat);
        assert(out@ =~= old(out)@ + enc_entry(e@));
    }
}

/// Appends the encodings of the entries from index `k` on, comma-separated.
fn encode_entries(data: &Vec<Entry>, k: usize, out: &mut String)
    requires
        k <= data.len(),
    ensures
        final(out)@ == old(out)@ + enc_entries(
            data@.map_values(|e: Entry| e@).subrange(k as int, data@.len() as int),
        ),
    decreases data.len() - k,
{
    let ghost m = data@.map_values(|e: Entry| e@);
    let ghost suf = m.subrange(k as int, m.len() as int);
    if k == data.len() {
        proof {
            assert(suf.len() == 0);
            assert(out@ + Seq::<char>::empty() =~= out@);
        }
        return ;
    }
    assert(suf[0] == m[k as int]);
    encode_entry(&data[k], out);
    if k + 1 < data.len() {
        push_char(out, ',');
        encode_entries(data, k + 1, out);
        proof {
            assert(suf.drop_first() =~= m.subrange(k + 1 as int, m.len() as int));
            assert(suf.len() >= 2);
            assert(enc_entries(suf) == enc_entry(suf[0]) + seq![','] + enc_entries(
                suf.drop_first(),
            ));
            assert(((old(out)@ + enc_entry(m[k as int])).push(',')) =~= old(out)@ + (enc_entry(
                m[k as int],
            ) + seq![',']));
            assert(old(out)@ + (enc_entry(m[k as int]) + seq![',']) + enc_entries(
                suf.drop_first(),
            ) =~= old(out)@ + enc_entries(suf));
        }
    } else {
        proof {
            assert(suf.len() == 1);
            assert(enc_entries(suf) == enc_entry(suf[0]));
        }
    }
}

/// Encodes the database as its store text. The result is exactly the
/// deterministic encoding of the database's model.
pub fn encode(db: &Database) -> (r: String)
    ensures
        r@ == spec_encode(db@),
{
    let mut out = String::new();
    push_char(&mut out, '{');
    proof {
        assert(out@ =~= seq!['{']);
        assert(db@.subrange(0, db@.len() as int) =~= db@);
        assert(db.data@.map_values(|e: Entry| e@) == db@);
    }
    encode_entries(&db.data, 0, &mut out);
    push_char(&mut out, '}');
    proof {
        assert((seq!['{'] + enc_entries(db@)).push('}') =~= seq!['{'] + enc_entries(db@) + seq![
            '}',
        ]);
    }
    out
}

/// Parses one entry at index `i`.
fn take_entry(v: &Vec<char>, i: usize) -> (r: Option<(Entry, usize)>)
    requires
        i <= v.len(),
    ensures
        match r {
            Some(pair) => {
                &&& i < pair.1 <= v@.len()
                &&& parse_entry(v@.subrange(i as int, v@.len() as int)) == Some(
                    (pair.0@, v@.subrange(pair.1 as int, v@.len() as int)),
                )
            },
            None => parse_entry(v@.subrange(i as int, v@.len() as int)) is None,
        },
{
    let ghost s = v@.subrange(i as int, v@.len() as int);
    if i == v.len() || v[i] != '"' {
        return None;
    }
    assert(s[0] == '"');
    assert(s.drop_first() =~= v@.subrange(i + 1 as int, v@.len() as int));
    let (pchars, j1) = match take_str_body(v, i + 1) {
        Some(x) => x,
        None => {
            return None;
        },
    };
    if j1 >= v.len() || j1 + 1 >= v.len() || v[j1] != ':' || v[j1 + 1] != '(' {
        proof {
            let r1 = v@.subrange(j1 as int, v@.len() as int);
            if r1.len() >= 2 {
                assert(r1[0] == v@[j1 as int] && r1[1] == v@[j1 + 1]);
            }
        }
        return None;
    }
    proof {
        let r1 = v@.subrange(j1 as int, v@.len() as int);
        assert(r1.len() >= 2 && r1[0] == ':' && r1[1] == '(');
        assert(r1.subrange(2, r1.len() as int) =~= v@.subrange(j1 + 2 as int, v@.len() as int));
    }
    let (secs, j2) = match take_num(v, j1 + 2) {
        Some(x) => x,
        None => {
            return None;
        },
    };
    if j2 == v.len() || v[j2] != ',' {
        proof {
            let r2 = v@.subrange(j2 as int, v@.len() as int);
            if r2.len() >= 1 {
                assert(r2[0] == v@[j2 as int]);
            }
        }
        return None;
    }
    proof {
        let r2 = v@.subrange(j2 as int, v@.len() as int);
        assert(r2.len() >= 1 && r2[0] == ',');
        assert(r2.drop_first() =~= v@.subrange(j2 + 1 as int, v@.len() as int));
    }
    let (nanos, j3) = match take_num(v, j2 + 1) {
        Some(x) => x,
        None => {
            return None;
        },
    };
    if j3 == v.len() || v[j3] != ')' || nanos >= 1000000000 {
        proof {
            let r3 = v@.subrange(j3 as int, v@.len() as int);
            if r3.len() >= 1 {
                assert(r3[0] == v@[j3 as int]);
            }
        }
        return None;
    }
    proof {
        let r3 = v@.subrange(j3 as int, v@.len() as int);
        assert(r3.len() >= 1 && r3[0] == ')');
        assert(r3.drop_first() =~= v@.subrange(j3 + 1 as int, v@.len() as int));
    }
    let path = chars_to_string(&pchars);
    let e = Entry { path, first_seen: Stamp { secs, nanos: nanos as u32 } };
    assert(e@ == (pchars@, Stamp { secs, nanos: nanos as u32 }));
    Some((e, j3 + 1))
}

/// Parses a nonempty entry list at index `i`.
fn take_entry_list(v: &Vec<char>, i: usize) -> (r: Option<(Vec<Entry>, usize)>)
    requires
        i <= v.len(),
    ensures
        match r {
            Some(pair) => {
                &&& i < pair.1 <= v@.len()
                &&& parse_entry_list(v@.subrange(i as int, v@.len() as int)) == Some(
                    (
                        pair.0@.map_values(|e: Entry| e@),
                        v@.subrange(pair.1 as int, v@.len() as int),
                    ),
                )
            },
            None => parse_entry_list(v@.subrange(i as int, v@.len() as int)) is None,
        },
    decreases v.len() - i,
{
    let ghost s = v@.subrange(i as int, v@.len() as int);
    let (e, j) = match take_entry(v, i) {
        Some(x) => x,
        None => {
            return None;
        },
    };
    let ghost r = v@.subrange(j as int, v@.len() as int);
    assert(r.len() <= s.len());
    if j < v.len() && v[j] == ',' {
        assert(r.len() >= 1 && r[0] == ',');
        assert(r.drop_first() =~= v@.subrange(j + 1 as int, v@.len() as int));
        match take_entry_list(v, j + 1) {
            Some((mut es, j2)) => {
                let ghost pre = es@.map_values(|e2: Entry| e2@);
                es.insert(0, e);
                proof {
                    assert(es@.map_values(|e2: Entry| e2@) =~= seq![e@] + pre);
                }
                Some((es, j2))
            },
            None => None,
        }
    } else {
        proof {
            if r.len() >= 1 {
                assert(r[0] == v@[j as int]);
            }
            assert(!(r.len() >= 1 && r[0] == ','));
        }
        let mut es: Vec<Entry> = Vec::new();
        es.push(e);
        proof {
            assert(es@.map_values(|e2: Entry| e2@) =~= seq![e@]);
        }
        Some((es, j))
    }
}

/// Whether no two entries carry the same path.
fn check_unique(es: &Vec<Entry>) -> (r: bool)
    ensures
        r == unique_paths(es@.map_values(|e: Entry| e@)),
{
    let ghost m = es@.map_values(|e: Entry| e@);
    let mut i: usize = 1;
    while i < es.len()
        invariant
            1 <= i || es.len() == 0,
            i <= es.len() || es.len() == 0,
            m == es@.map_values(|e: Entry| e@),
            m.len() == es@.len(),
            forall|a: int, b: int|
                0 <= a < b < i && b < m.len() ==> (#[trigger] m[a]).0 != (#[trigger] m[b]).0,
        decreases es.len() - i,
    {
        let mut k: usize = 0;
        while k < i
            invariant
                k <= i < es.len(),
                m == es@.map_values(|e: Entry| e@),
                m.len() == es@.len(),
                forall|a: int| 0 <= a < k ==> (#[trigger] m[a]).0 != m[i as int].0,
            decreases i - k,
        {
            if str_eq(es[k].path.as_str(), es[i].path.as_str()) {
                assert(m[k as int].0 == m[i as int].0);
                assert(!unique_paths(m));
                return false;
            }
            k = k + 1;
        }
        i = i + 1;
    }
    proof {
        assert forall|a: int, b: int|
            0 <= a < m.len() && 0 <= b < m.len() && a != b implies (#[trigger] m[a]).0 != (
        #[trigger] m[b]).0 by {
            if a < b {
                assert(m[a].0 != m[b].0);
            } else {
                assert(m[b].0 != m[a].0);
            }
        }
    }
    true
}

/// The open transition applied to the store file's contents: no file at
/// all yields the empty set; a present file must decode, and a decode
/// failure is surfaced, never passed off as an empty store.
pub fn open_from(contents: Option<&str>) -> (r: Result<Database, DecodeError>)
    ensures
        match contents {
            None => r is Ok && r->Ok_0@ == Seq::<(Seq<char>, Stamp)>::empty() && r->Ok_0.wf(),
            Some(s) => match r {
                Ok(db) => db.wf() && spec_decode(s@) == Some(db@) && spec_encode(db@) == s@,
                Err(_) => spec_decode(s@) is None,
            },
        },
{
    match contents {
        None => Ok(Database::new()),
        Some(s) => decode(s),
    }
}

/// Law: pruning then persisting does not reintroduce a pruned path. The
/// pruned model is well formed, its encoding decodes back to it, and a path
/// whose existence flag was cleared is absent from it.
pub proof fn lemma_prune_persist(m: Seq<(Seq<char>, Stamp)>, keep: Seq<bool>, i: int)
    requires
        wf_model(m),
        keep.len() == m.len(),
        0 <= i < m.len(),
        !keep[i],
    ensures
        wf_model(crate::store::mask_filter(m, keep)),
        spec_decode(spec_encode(crate::store::mask_filter(m, keep))) == Some(
            crate::store::mask_filter(m, keep),
        ),
        !crate::store::has_path(crate::store::mask_filter(m, keep), m[i].0),
{
    crate::store::lemma_mask_filter_wf(m, keep);
    lemma_round_trip(crate::store::mask_filter(m, keep));
    crate::store::lemma_mask_filter_drops(m, keep, i);
}

/// Law: clearing everything, saving, and opening again yields the empty
/// set, whatever was tracked before: the empty model's encoding decodes to
/// the empty model.
pub proof fn lemma_clear_save_open_empty()
    ensures
        spec_decode(spec_encode(Seq::<(Seq<char>, Stamp)>::empty())) == Some(
            Seq::<(Seq<char>, Stamp)>::empty(),
        ),
{
    lemma_round_trip(Seq::<(Seq<char>, Stamp)>::empty());
}

/// Decodes a store text. Succeeds exactly on texts that the grammar accepts
/// and that name no path twice — that is, exactly on the encodings of
/// well-formed models (`lemma_decode_sound`, `lemma_round_trip`).
pub fn decode(s: &str) -> (r: Result<Database, DecodeError>)
    ensures
        match r {
            Ok(db) => {
                &&& db.wf()
                &&& spec_decode(s@) == Some(db@)
                &&& spec_encode(db@) == s@
            },
            Err(e) => {
                &&& spec_decode(s@) is None
                &&& (e == DecodeError::DuplicatePath <==> (spec_parse(s@) is Some
                    && !unique_paths(spec_parse(s@)->Some_0)))
            },
        },
{
    let v = str_to_chars(s);
    if v.len() < 2 || v[0] != '{' {
        return Err(DecodeError::Malformed);
    }
    let ghost t = s@.drop_first();
    assert(t =~= v@.subrange(1, v@.len() as int));
    if v.len() == 2 && v[1] == '}' {
        assert(t.len() == 1 && t[0] == '}');
        let db = Database::new();
        proof {
            assert(spec_parse(s@) == Some(db@));
            assert(unique_paths(db@));
        }
        return Ok(db);
    }
    assert(!(t.len() == 1 && t[0] == '}')) by {
        if t.len() == 1 {
            assert(t[0] == v@[1]);
        }
    }
    match take_entry_list(&v, 1) {
        Some((es, j)) => {
            if j == v.len() - 1 && v[j] == '}' {
                let ghost r = v@.subrange(j as int, v@.len() as int);
                assert(r.len() == 1 && r[0] == '}');
                assert(spec_parse(s@) == Some(es@.map_values(|e: Entry| e@)));
                if check_unique(&es) {
                    let db = Database { data: es };
                    proof {
                        assert(db@ == es@.map_values(|e: Entry| e@));
                        assert(spec_decode(s@) == Some(db@));
                        lemma_decode_sound(s@);
                    }
                    Ok(db)
                } else {
                    Err(DecodeError::DuplicatePath)
                }
            } else {
                proof {
                    let r = v@.subrange(j as int, v@.len() as int);
                    if r.len() >= 1 {
                        assert(r[0] == v@[j as int]);
                    }
                    assert(!(r.len() == 1 && r[0] == '}'));
                }
                Err(DecodeError::Malformed)
            }
        },
        None => Err(DecodeError::Malformed),
    }
}

} // verus!
