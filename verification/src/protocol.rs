//! The message format shared by editors and the instance bus.
//!
//! A message is a few words separated by white space. Values travel as the
//! text of a number; this module carries that text without looking into it.
use vstd::prelude::*;
use vstd::string::*;

use crate::text;
use crate::text::{parse_number, push_decimal, split_words};

verus! {

/// What an editor posts to ask for the diagnostics counters.
pub const DIAG_QUERY: &'static str = "skuiz_diag";

/// Whether a text is a single word.
pub open spec fn is_word(s: Seq<char>) -> bool {
    s.len() > 0 && forall|i: int| 0 <= i < s.len() ==> !text::is_space(#[trigger] s[i])
}

/// Words separated by single spaces.
pub open spec fn joined(ws: Seq<Seq<char>>) -> Seq<char>
    decreases ws.len(),
{
    if ws.len() == 0 {
        Seq::empty()
    } else if ws.len() == 1 {
        ws[0]
    } else {
        joined(ws.drop_last()) + seq![' '] + ws.last()
    }
}

proof fn lemma_words_of_word(w: Seq<char>)
    requires
        is_word(w),
    ensures
        text::words(w) == seq![w],
{
    text::lemma_leading_space(w);
    assert(!text::is_space(w[0]));
    assert(text::leading_space(w) == 0);
    assert(w.skip(0) =~= w);
    text::lemma_leading_word(w);
    let n = text::leading_word(w);
    if n < w.len() {
        assert(text::is_space(w[n]));
    }
    assert(w.take(n) =~= w);
    assert(w.skip(n) =~= Seq::empty());
    assert(text::leading_space(Seq::<char>::empty()) == 0);
    assert(text::words(Seq::<char>::empty()) =~= Seq::empty());
    assert(text::words(w) =~= seq![w]);
}

proof fn lemma_space_prefix(a: Seq<char>, b: Seq<char>)
    requires
        text::leading_space(a) < a.len(),
    ensures
        text::leading_space(a + b) == text::leading_space(a),
    decreases a.len(),
{
    assert((a + b)[0] == a[0]);
    if text::is_space(a[0]) {
        lemma_space_prefix(a.drop_first(), b);
        assert((a + b).drop_first() =~= a.drop_first() + b);
    }
}

proof fn lemma_space_whole(a: Seq<char>, b: Seq<char>)
    requires
        text::leading_space(a) == a.len(),
    ensures
        text::leading_space(a + b) == a.len() + text::leading_space(b),
    decreases a.len(),
{
    if a.len() > 0 {
        assert((a + b)[0] == a[0]);
        text::lemma_leading_space(a.drop_first());
        lemma_space_whole(a.drop_first(), b);
        assert((a + b).drop_first() =~= a.drop_first() + b);
    } else {
        assert(a + b =~= b);
    }
}

proof fn lemma_word_prefix(a: Seq<char>, b: Seq<char>)
    requires
        b.len() > 0,
        text::is_space(b[0]),
    ensures
        text::leading_word(a + b) == text::leading_word(a),
    decreases a.len(),
{
    if a.len() > 0 {
        assert((a + b)[0] == a[0]);
        if !text::is_space(a[0]) {
            lemma_word_prefix(a.drop_first(), b);
            assert((a + b).drop_first() =~= a.drop_first() + b);
        }
    } else {
        assert(a + b =~= b);
    }
}

proof fn lemma_words_append(a: Seq<char>, w: Seq<char>)
    requires
        is_word(w),
    ensures
        text::words(a + seq![' '] + w) == text::words(a).push(w),
    decreases a.len(),
{
    let b = seq![' '] + w;
    let s = a + seq![' '] + w;
    assert(s =~= a + b);
    text::lemma_leading_space(a);
    let k = text::leading_space(a);
    if k == a.len() {
        lemma_space_whole(a, b);
        assert(b[0] == ' ');
        assert(b.drop_first() =~= w);
        assert(!text::is_space(w[0]));
        assert(text::leading_space(w) == 0);
        assert(text::leading_space(b) == 1);
        assert(s.skip(a.len() as int + 1) =~= w);
        assert(w.skip(0) =~= w);
        lemma_words_of_word(w);
        assert(a.skip(k) =~= Seq::empty());
        assert(text::words(a) =~= Seq::empty());
        assert(text::words(s) == text::words(w)) by {
            let t = s.skip(text::leading_space(s));
            assert(t == w);
        }
        assert(seq![w] =~= Seq::empty().push(w));
    } else {
        lemma_space_prefix(a, b);
        let t = a.skip(k);
        assert(s.skip(k) =~= t + b);
        text::lemma_leading_word(t);
        let n = text::leading_word(t);
        assert(t[0] == a[k]);
        assert(n > 0);
        lemma_word_prefix(t, b);
        assert((t + b).take(n) =~= t.take(n));
        assert((t + b).skip(n) =~= t.skip(n) + seq![' '] + w);
        lemma_words_append(t.skip(n), w);
        assert(text::words(s) =~= seq![t.take(n)] + text::words(t.skip(n)).push(w));
        assert(text::words(a) == seq![t.take(n)] + text::words(t.skip(n)));
        assert(text::words(s) =~= text::words(a).push(w));
    }
}

/// Words that were joined come apart again.
pub proof fn law_joined_words_come_apart(ws: Seq<Seq<char>>)
    requires
        forall|i: int| 0 <= i < ws.len() ==> is_word(#[trigger] ws[i]),
    ensures
        text::words(joined(ws)) == ws,
    decreases ws.len(),
{
    if ws.len() == 0 {
        assert(text::leading_space(Seq::<char>::empty()) == 0);
        assert(text::words(Seq::<char>::empty()) =~= ws);
    } else if ws.len() == 1 {
        lemma_words_of_word(ws[0]);
        assert(seq![ws[0]] =~= ws);
    } else {
        let rest = ws.drop_last();
        assert forall|i: int| 0 <= i < rest.len() implies is_word(#[trigger] rest[i]) by {
            assert(rest[i] == ws[i]);
        }
        law_joined_words_come_apart(rest);
        lemma_words_append(joined(rest), ws.last());
        assert(rest.push(ws.last()) =~= ws);
    }
}

/// One parameter in a state answer: its id, its value and the value's
/// version.
#[derive(Clone, Copy, PartialEq, Eq, Debug)]
pub struct SyncEntry<V> {
    /// The parameter.
    pub id: u32,
    /// The value its version refers to.
    pub value: V,
    /// The version's sequence number.
    pub seq: u64,
    /// The version's origin.
    pub origin: u64,
}

/// A message on the bus.
#[derive(Debug)]
pub enum Frame<V> {
    /// A parameter changed. Old senders give no version.
    SetParam {
        /// The parameter.
        id: u32,
        /// Its new value.
        value: V,
        /// The change's version.
        version: Option<(u64, u64)>,
    },
    /// Someone asks for shared state.
    SyncRequest {
        /// Who asks.
        origin: u64,
    },
    /// Someone answers with shared state.
    SyncState(Vec<SyncEntry<V>>),
}

/// The words of a parameter change without a version.
pub open spec fn set_param_words(id: u32, value: Seq<char>) -> Seq<Seq<char>> {
    seq!["set_param"@, text::decimal(id as nat), value]
}

/// The words of a versioned parameter change.
pub open spec fn versioned_words(id: u32, value: Seq<char>, seq: u64, origin: u64) -> Seq<
    Seq<char>,
> {
    seq![
        "set_param"@,
        text::decimal(id as nat),
        value,
        text::decimal(seq as nat),
        text::decimal(origin as nat),
    ]
}

/// The words of a request for shared state.
pub open spec fn sync_request_words(origin: u64) -> Seq<Seq<char>> {
    seq!["sync_request"@, text::decimal(origin as nat)]
}

/// The four words of one entry of a state answer.
pub open spec fn entry_words(e: SyncEntry<String>) -> Seq<Seq<char>> {
    seq![
        text::decimal(e.id as nat),
        e.value@,
        text::decimal(e.seq as nat),
        text::decimal(e.origin as nat),
    ]
}

/// The words of a state answer.
pub open spec fn sync_state_words(entries: Seq<SyncEntry<String>>) -> Seq<Seq<char>>
    decreases entries.len(),
{
    if entries.len() == 0 {
        seq!["sync_state"@]
    } else {
        sync_state_words(entries.drop_last()) + entry_words(entries.last())
    }
}

fn decimal_text(n: u64) -> (r: String)
    ensures
        r@ == text::decimal(n as nat),
{
    let mut out = String::new();
    push_decimal(&mut out, n);
    proof {
        assert(out@ =~= text::decimal(n as nat));
    }
    out
}

fn push_word(out: &mut String, word: &str, Ghost(ws): Ghost<Seq<Seq<char>>>)
    requires
        ws.len() > 0,
        old(out)@ == joined(ws),
    ensures
        final(out)@ == joined(ws.push(word@)),
{
    proof {
        reveal_strlit(" ");
        assert(ws.push(word@).drop_last() =~= ws);
        assert(" "@ =~= seq![' ']);
    }
    out.append(" ");
    out.append(word);
}

/// A parameter change: `set_param <id> <value>`.
pub fn set_param(id: u32, value: &str) -> (r: String)
    ensures
        r@ == joined(set_param_words(id, value@)),
{
    let mut out = String::from_str("set_param");
    let ghost w1 = seq!["set_param"@];
    push_word(&mut out, decimal_text(id as u64).as_str(), Ghost(w1));
    let ghost w2 = w1.push(text::decimal(id as nat));
    push_word(&mut out, value, Ghost(w2));
    proof {
        assert(w2.push(value@) =~= set_param_words(id, value@));
    }
    out
}

/// A versioned parameter change: `set_param <id> <value> <seq> <origin>`.
pub fn set_param_versioned(id: u32, value: &str, seq: u64, origin: u64) -> (r: String)
    ensures
        r@ == joined(versioned_words(id, value@, seq, origin)),
{
    let mut out = set_param(id, value);
    let ghost w3 = set_param_words(id, value@);
    push_word(&mut out, decimal_text(seq).as_str(), Ghost(w3));
    let ghost w4 = w3.push(text::decimal(seq as nat));
    push_word(&mut out, decimal_text(origin).as_str(), Ghost(w4));
    proof {
        assert(w4.push(text::decimal(origin as nat)) =~= versioned_words(
            id,
            value@,
            seq,
            origin,
        ));
    }
    out
}

/// A request for shared state: `sync_request <origin>`.
pub fn sync_request(origin: u64) -> (r: String)
    ensures
        r@ == joined(sync_request_words(origin)),
{
    let mut out = String::from_str("sync_request");
    let ghost w1 = seq!["sync_request"@];
    push_word(&mut out, decimal_text(origin).as_str(), Ghost(w1));
    proof {
        assert(w1.push(text::decimal(origin as nat)) =~= sync_request_words(origin));
    }
    out
}

/// A state answer: `sync_state`, then `<id> <value> <seq> <origin>` for each
/// entry.
pub fn sync_state(entries: &Vec<SyncEntry<String>>) -> (r: String)
    ensures
        r@ == joined(sync_state_words(entries@)),
{
    let mut out = String::from_str("sync_state");
    let mut i: usize = 0;
    proof {
        assert(entries@.take(0) =~= Seq::empty());
    }
    while i < entries.len()
        invariant
            i <= entries.len(),
            out@ == joined(sync_state_words(entries@.take(i as int))),
            sync_state_words(entries@.take(i as int)).len() > 0,
        decreases entries.len() - i,
    {
        let e = &entries[i];
        let ghost w0 = sync_state_words(entries@.take(i as int));
        push_word(&mut out, decimal_text(e.id as u64).as_str(), Ghost(w0));
        let ghost w1 = w0.push(text::decimal(e.id as nat));
        push_word(&mut out, e.value.as_str(), Ghost(w1));
        let ghost w2 = w1.push(e.value@);
        push_word(&mut out, decimal_text(e.seq).as_str(), Ghost(w2));
        let ghost w3 = w2.push(text::decimal(e.seq as nat));
        push_word(&mut out, decimal_text(e.origin).as_str(), Ghost(w3));
        proof {
            assert(entries@.take(i + 1).drop_last() =~= entries@.take(i as int));
            assert(w3.push(text::decimal(e.origin as nat)) =~= w0 + entry_words(*e));
        }
        i += 1;
    }
    proof {
        assert(entries@.take(i as int) =~= entries@);
    }
    out
}

/// The script an editor page gets for a parameter's value; pages implement
/// `window.skuizOnParam(id, value)`.
pub fn on_param_js(id: u32, value: &str) -> (r: String)
    ensures
        r@ == "window.skuizOnParam && window.skuizOnParam("@ + text::decimal(id as nat) + ", "@
            + value@ + ")"@,
{
    let mut out = String::from_str("window.skuizOnParam && window.skuizOnParam(");
    push_decimal(&mut out, id as u64);
    out.append(", ");
    out.append(value);
    out.append(")");
    out
}

/// What words say if they are a parameter change without a version.
pub open spec fn read_set_param(ws: Seq<Seq<char>>) -> Option<(u32, Seq<char>)> {
    if ws.len() == 3 && ws[0] == "set_param"@ && text::number(ws[1], u32::MAX as int) is Some {
        Some((text::number(ws[1], u32::MAX as int)->0 as u32, ws[2]))
    } else {
        None
    }
}

/// What words say if they are a parameter change, versioned or not.
pub open spec fn read_versioned(ws: Seq<Seq<char>>) -> Option<
    (u32, Seq<char>, Option<(u64, u64)>),
> {
    if ws.len() == 3 {
        match read_set_param(ws) {
            Some((id, value)) => Some((id, value, None)),
            None => None,
        }
    } else if ws.len() == 5 && read_set_param(ws.take(3)) is Some && text::number(
        ws[3],
        u64::MAX as int,
    ) is Some && text::number(ws[4], u64::MAX as int) is Some {
        let (id, value) = read_set_param(ws.take(3))->0;
        Some(
            (
                id,
                value,
                Some(
                    (
                        text::number(ws[3], u64::MAX as int)->0 as u64,
                        text::number(ws[4], u64::MAX as int)->0 as u64,
                    ),
                ),
            ),
        )
    } else {
        None
    }
}

/// What words say if they are a request for shared state.
pub open spec fn read_sync_request(ws: Seq<Seq<char>>) -> Option<u64> {
    if ws.len() == 2 && ws[0] == "sync_request"@ && text::number(ws[1], u64::MAX as int) is Some {
        Some(text::number(ws[1], u64::MAX as int)->0 as u64)
    } else {
        None
    }
}

/// One entry of a state answer, its value as text.
pub open spec fn read_entry(ws: Seq<Seq<char>>) -> Option<(u32, Seq<char>, u64, u64)> {
    if text::number(ws[0], u32::MAX as int) is Some && text::number(ws[2], u64::MAX as int) is Some
        && text::number(ws[3], u64::MAX as int) is Some {
        Some(
            (
                text::number(ws[0], u32::MAX as int)->0 as u32,
                ws[1],
                text::number(ws[2], u64::MAX as int)->0 as u64,
                text::number(ws[3], u64::MAX as int)->0 as u64,
            ),
        )
    } else {
        None
    }
}

/// Entries of a state answer from groups of four words.
pub open spec fn read_entries(ws: Seq<Seq<char>>) -> Option<Seq<(u32, Seq<char>, u64, u64)>>
    decreases ws.len(),
{
    if ws.len() == 0 {
        Some(Seq::empty())
    } else if ws.len() < 4 {
        None
    } else {
        match (read_entries(ws.take(ws.len() - 4)), read_entry(ws.skip(ws.len() - 4))) {
            (Some(front), Some(last)) => Some(front.push(last)),
            _ => None,
        }
    }
}

/// What words say if they are a state answer.
pub open spec fn read_sync_state(ws: Seq<Seq<char>>) -> Option<
    Seq<(u32, Seq<char>, u64, u64)>,
> {
    if ws.len() > 0 && ws[0] == "sync_state"@ {
        read_entries(ws.skip(1))
    } else {
        None
    }
}

/// An entry with its value as text.
pub open spec fn entry_view(e: SyncEntry<String>) -> (u32, Seq<char>, u64, u64) {
    (e.id, e.value@, e.seq, e.origin)
}

/// Entries with their values as text.
pub open spec fn entry_views(es: Seq<SyncEntry<String>>) -> Seq<(u32, Seq<char>, u64, u64)> {
    Seq::new(es.len(), |i: int| entry_view(es[i]))
}

fn word_is(word: &String, literal: &str) -> (r: bool)
    ensures
        r == (word@ == literal@),
{
    *word == String::from_str(literal)
}

/// Read a parameter change without a version. Anything else is `None`.
pub fn parse_set_param(msg: &str) -> (r: Option<(u32, String)>)
    ensures
        match r {
            Some((id, value)) => read_set_param(text::words(msg@)) == Some((id, value@)),
            None => read_set_param(text::words(msg@)) is None,
        },
{
    let ws = split_words(msg);
    proof {
        assert(text::views(ws@).len() == ws@.len());
    }
    if ws.len() != 3 {
        return None;
    }
    proof {
        assert(text::views(ws@)[0] == ws@[0]@);
        assert(text::views(ws@)[1] == ws@[1]@);
        assert(text::views(ws@)[2] == ws@[2]@);
    }
    if !word_is(&ws[0], "set_param") {
        return None;
    }
    match parse_number(ws[1].as_str(), u32::MAX as u64) {
        Some(id) => Some((id as u32, ws[2].clone())),
        None => None,
    }
}

/// Read a parameter change, versioned or not.
pub fn parse_set_param_versioned(msg: &str) -> (r: Option<(u32, String, Option<(u64, u64)>)>)
    ensures
        match r {
            Some((id, value, version)) => read_versioned(text::words(msg@)) == Some(
                (id, value@, version),
            ),
            None => read_versioned(text::words(msg@)) is None,
        },
{
    let ws = split_words(msg);
    let ghost v = text::words(msg@);
    proof {
        assert(text::views(ws@).len() == ws@.len());
    }
    if ws.len() != 3 && ws.len() != 5 {
        return None;
    }
    proof {
        assert(v[0] == ws@[0]@);
        assert(v[1] == ws@[1]@);
        assert(v[2] == ws@[2]@);
    }
    if !word_is(&ws[0], "set_param") {
        return None;
    }
    match parse_number(ws[1].as_str(), u32::MAX as u64) {
        None => None,
        Some(id) => {
            if ws.len() == 3 {
                return Some((id as u32, ws[2].clone(), None));
            }
            proof {
                assert(v[3] == ws@[3]@);
                assert(v[4] == ws@[4]@);
                assert(read_set_param(v.take(3)) == Some((id as u32, v[2])));
            }
            match (
                parse_number(ws[3].as_str(), u64::MAX),
                parse_number(ws[4].as_str(), u64::MAX),
            ) {
                (Some(seq), Some(origin)) => {
                    Some((id as u32, ws[2].clone(), Some((seq, origin))))
                },
                _ => None,
            }
        },
    }
}

/// Read a request for shared state.
pub fn parse_sync_request(msg: &str) -> (r: Option<u64>)
    ensures
        r == read_sync_request(text::words(msg@)),
{
    let ws = split_words(msg);
    proof {
        assert(text::views(ws@).len() == ws@.len());
    }
    if ws.len() != 2 {
        return None;
    }
    proof {
        assert(text::views(ws@)[0] == ws@[0]@);
        assert(text::views(ws@)[1] == ws@[1]@);
    }
    if !word_is(&ws[0], "sync_request") {
        return None;
    }
    parse_number(ws[1].as_str(), u64::MAX)
}

/// Read a state answer.
pub fn parse_sync_state(msg: &str) -> (r: Option<Vec<SyncEntry<String>>>)
    ensures
        match r {
            Some(entries) => read_sync_state(text::words(msg@)) == Some(entry_views(entries@)),
            None => read_sync_state(text::words(msg@)) is None,
        },
{
    let ws = split_words(msg);
    let ghost v = text::words(msg@);
    proof {
        assert(text::views(ws@).len() == ws@.len());
    }
    if ws.len() == 0 {
        return None;
    }
    proof {
        assert(v[0] == ws@[0]@);
    }
    if !word_is(&ws[0], "sync_state") {
        return None;
    }
    let ghost body = v.skip(1);
    let n: usize = ws.len() - 1;
    if n % 4 != 0 {
        proof {
            lemma_ragged_entries(body);
        }
        return None;
    }
    let mut entries: Vec<SyncEntry<String>> = Vec::new();
    let mut at: usize = 0;
    proof {
        assert(body.take(0) =~= Seq::empty());
        assert(entry_views(entries@) =~= Seq::empty());
    }
    while at < n
        invariant
            text::views(ws@) == v,
            v == text::words(msg@),
            v[0] == "sync_state"@,
            ws@.len() == n + 1,
            n % 4 == 0,
            at % 4 == 0,
            at <= n,
            body == v.skip(1),
            body.len() == n,
            read_entries(body.take(at as int)) == Some(entry_views(entries@)),
        decreases n - at,
    {
        let ghost group = body.take(at + 4);
        proof {
            assert(group.take(group.len() - 4) =~= body.take(at as int));
            let last = group.skip(group.len() - 4);
            assert(v[at + 1] == ws@[at + 1]@);
            assert(v[at + 2] == ws@[at + 2]@);
            assert(v[at + 3] == ws@[at + 3]@);
            assert(v[at + 4] == ws@[at + 4]@);
            assert(last[0] == v[at + 1]);
            assert(last[1] == v[at + 2]);
            assert(last[2] == v[at + 3]);
            assert(last[3] == v[at + 4]);
        }
        match (
            parse_number(ws[at + 1].as_str(), u32::MAX as u64),
            parse_number(ws[at + 3].as_str(), u64::MAX),
            parse_number(ws[at + 4].as_str(), u64::MAX),
        ) {
            (Some(id), Some(seq), Some(origin)) => {
                let ghost before = entry_views(entries@);
                entries.push(
                    SyncEntry { id: id as u32, value: ws[at + 2].clone(), seq, origin },
                );
                proof {
                    assert(entry_views(entries@) =~= before.push(
                        (id as u32, v[at + 2], seq, origin),
                    ));
                }
            },
            _ => {
                proof {
                    lemma_bad_entry(body, at + 4);
                }
                return None;
            },
        }
        at += 4;
    }
    proof {
        assert(body.take(at as int) =~= body);
    }
    Some(entries)
}

proof fn lemma_ragged_entries(ws: Seq<Seq<char>>)
    requires
        ws.len() % 4 != 0,
    ensures
        read_entries(ws) is None,
    decreases ws.len(),
{
    if ws.len() >= 4 {
        lemma_ragged_entries(ws.take(ws.len() - 4));
    }
}

proof fn lemma_bad_entry(ws: Seq<Seq<char>>, n: int)
    requires
        0 <= n <= ws.len(),
        (ws.len() - n) % 4 == 0,
        read_entries(ws.take(n)) is None,
    ensures
        read_entries(ws) is None,
    decreases ws.len(),
{
    if n < ws.len() {
        let front = ws.take(ws.len() - 4);
        assert(front.take(n) =~= ws.take(n));
        lemma_bad_entry(front, n);
    } else {
        assert(ws.take(n) =~= ws);
    }
}

proof fn lemma_literal_words()
    ensures
        is_word("set_param"@),
        is_word("sync_request"@),
        is_word("sync_state"@),
        "set_param"@ != "sync_request"@,
        "set_param"@ != "sync_state"@,
        "sync_request"@ != "sync_state"@,
{
    reveal_strlit("set_param");
    reveal_strlit("sync_request");
    reveal_strlit("sync_state");
    assert("set_param"@.len() == 9);
    assert("sync_request"@.len() == 12);
    assert("sync_state"@.len() == 10);
}

/// A parameter change is read back as it was written, and as nothing else.
pub proof fn law_a_change_reads_back(id: u32, value: Seq<char>)
    requires
        is_word(value),
    ensures
        read_set_param(text::words(joined(set_param_words(id, value)))) == Some((id, value)),
        read_versioned(text::words(joined(set_param_words(id, value)))) == Some(
            (id, value, None::<(u64, u64)>),
        ),
        read_sync_request(text::words(joined(set_param_words(id, value)))) is None,
        read_sync_state(text::words(joined(set_param_words(id, value)))) is None,
{
    lemma_literal_words();
    text::law_numbers_read_back(id as u64, u32::MAX as u64);
    law_joined_words_come_apart(set_param_words(id, value));
}

/// A versioned parameter change is read back as it was written, and as
/// nothing else; in particular not as one without a version.
pub proof fn law_a_versioned_change_reads_back(id: u32, value: Seq<char>, seq: u64, origin: u64)
    requires
        is_word(value),
    ensures
        read_versioned(text::words(joined(versioned_words(id, value, seq, origin)))) == Some(
            (id, value, Some((seq, origin))),
        ),
        read_set_param(text::words(joined(versioned_words(id, value, seq, origin)))) is None,
        read_sync_request(text::words(joined(versioned_words(id, value, seq, origin)))) is None,
        read_sync_state(text::words(joined(versioned_words(id, value, seq, origin)))) is None,
{
    lemma_literal_words();
    text::law_numbers_read_back(id as u64, u32::MAX as u64);
    text::law_numbers_read_back(seq, u64::MAX);
    text::law_numbers_read_back(origin, u64::MAX);
    let ws = versioned_words(id, value, seq, origin);
    law_joined_words_come_apart(ws);
    assert(read_set_param(ws.take(3)) == Some((id, value)));
}

/// A request for shared state is read back as it was written, and as nothing
/// else.
pub proof fn law_a_request_reads_back(origin: u64)
    ensures
        read_sync_request(text::words(joined(sync_request_words(origin)))) == Some(origin),
        read_versioned(text::words(joined(sync_request_words(origin)))) is None,
        read_sync_state(text::words(joined(sync_request_words(origin)))) is None,
{
    lemma_literal_words();
    text::law_numbers_read_back(origin, u64::MAX);
    law_joined_words_come_apart(sync_request_words(origin));
}

proof fn lemma_state_words(entries: Seq<SyncEntry<String>>)
    requires
        forall|i: int| 0 <= i < entries.len() ==> is_word((#[trigger] entries[i]).value@),
    ensures
        sync_state_words(entries).len() == 1 + 4 * entries.len(),
        sync_state_words(entries)[0] == "sync_state"@,
        forall|i: int|
            0 <= i < sync_state_words(entries).len() ==> is_word(
                #[trigger] sync_state_words(entries)[i],
            ),
        read_entries(sync_state_words(entries).skip(1)) == Some(entry_views(entries)),
    decreases entries.len(),
{
    lemma_literal_words();
    let ws = sync_state_words(entries);
    if entries.len() == 0 {
        assert(ws.skip(1) =~= Seq::empty());
        assert(entry_views(entries) =~= Seq::empty());
    } else {
        let front = entries.drop_last();
        let e = entries.last();
        assert forall|i: int| 0 <= i < front.len() implies is_word(
            (#[trigger] front[i]).value@,
        ) by {
            assert(front[i] == entries[i]);
        }
        lemma_state_words(front);
        assert(e == entries[entries.len() - 1]);
        text::law_numbers_read_back(e.id as u64, u32::MAX as u64);
        text::law_numbers_read_back(e.seq, u64::MAX);
        text::law_numbers_read_back(e.origin, u64::MAX);
        let fw = sync_state_words(front);
        assert(ws == fw + entry_words(e));
        assert forall|i: int| 0 <= i < ws.len() implies is_word(#[trigger] ws[i]) by {
            if i < fw.len() {
                assert(is_word(fw[i]));
            } else {
                assert(ws[i] == entry_words(e)[i - fw.len()]);
            }
        }
        let body = ws.skip(1);
        assert(body.take(body.len() - 4) =~= fw.skip(1));
        assert(body.skip(body.len() - 4) =~= entry_words(e));
        assert(read_entry(entry_words(e)) == Some(entry_view(e)));
        assert(entry_views(front).push(entry_view(e)) =~= entry_views(entries));
    }
}

/// A state answer is read back as it was written, and as nothing else.
pub proof fn law_an_answer_reads_back(entries: Seq<SyncEntry<String>>)
    requires
        forall|i: int| 0 <= i < entries.len() ==> is_word((#[trigger] entries[i]).value@),
    ensures
        read_sync_state(text::words(joined(sync_state_words(entries)))) == Some(
            entry_views(entries),
        ),
        read_versioned(text::words(joined(sync_state_words(entries)))) is None,
        read_sync_request(text::words(joined(sync_state_words(entries)))) is None,
{
    lemma_literal_words();
    lemma_state_words(entries);
    law_joined_words_come_apart(sync_state_words(entries));
    let ws = sync_state_words(entries);
    if ws.len() == 5 {
        assert(ws.take(3)[0] == ws[0]);
    }
}

/// Words are joined by single spaces, in their order, with nothing before the
/// first and nothing after the last.
pub proof fn law_words_are_joined_by_single_spaces(ws: Seq<Seq<char>>, w: Seq<char>)
    ensures
        joined(Seq::empty()) == Seq::<char>::empty(),
        joined(seq![w]) == w,
        ws.len() > 0 ==> joined(ws.push(w)) == joined(ws) + seq![' '] + w,
{
    if ws.len() > 0 {
        assert(ws.push(w).drop_last() =~= ws);
    }
}

/// Every frame starts with the word that names its kind, and its fields follow
/// in their order, numbers in decimal and values as they are.
pub proof fn law_frames_list_their_fields(id: u32, value: Seq<char>, seq: u64, origin: u64)
    ensures
        set_param_words(id, value).len() == 3,
        set_param_words(id, value)[0] == "set_param"@,
        set_param_words(id, value)[1] == text::decimal(id as nat),
        set_param_words(id, value)[2] == value,
        versioned_words(id, value, seq, origin).len() == 5,
        versioned_words(id, value, seq, origin).take(3) == set_param_words(id, value),
        versioned_words(id, value, seq, origin)[3] == text::decimal(seq as nat),
        versioned_words(id, value, seq, origin)[4] == text::decimal(origin as nat),
        sync_request_words(origin).len() == 2,
        sync_request_words(origin)[0] == "sync_request"@,
        sync_request_words(origin)[1] == text::decimal(origin as nat),
{
    assert(versioned_words(id, value, seq, origin).take(3) =~= set_param_words(id, value));
}

/// An answer lists four words for each entry, in the order of the entries: the
/// parameter, its value, and the two numbers of its version.
pub proof fn law_answers_list_four_words_an_entry(entries: Seq<SyncEntry<String>>, k: int)
    ensures
        sync_state_words(entries).len() == 1 + 4 * entries.len(),
        sync_state_words(entries)[0] == "sync_state"@,
        0 <= k < entries.len() ==> sync_state_words(entries)[1 + 4 * k] == text::decimal(
            entries[k].id as nat,
        ) && sync_state_words(entries)[2 + 4 * k] == entries[k].value@ && sync_state_words(
            entries,
        )[3 + 4 * k] == text::decimal(entries[k].seq as nat) && sync_state_words(entries)[4 + 4 * k]
            == text::decimal(entries[k].origin as nat),
    decreases entries.len(),
{
    if entries.len() > 0 {
        let rest = entries.drop_last();
        law_answers_list_four_words_an_entry(rest, k);
        if k < rest.len() {
            assert(0 <= k ==> rest[k] == entries[k]);
        }
    }
}

/// A change without a version is read from exactly three words: the name, a
/// number that fits, and the value as it stands.
pub proof fn law_which_words_are_a_change(ws: Seq<Seq<char>>, id: u32, value: Seq<char>)
    ensures
        read_set_param(ws) == Some((id, value)) <==> ws.len() == 3 && ws[0] == "set_param"@
            && text::number(ws[1], 4294967295) == Some(id as int) && ws[2] == value,
        read_set_param(ws) is None <==> ws.len() != 3 || ws[0] != "set_param"@ || text::number(
            ws[1],
            4294967295,
        ) is None,
{
    lemma_number_in_range(ws[1], 4294967295);
}

/// A change is read from three words, without a version, or from five, the last
/// two of which are the version; from no other number of words.
pub proof fn law_which_words_are_a_versioned_change(
    ws: Seq<Seq<char>>,
    id: u32,
    value: Seq<char>,
    seq: u64,
    origin: u64,
)
    ensures
        read_versioned(ws) == Some((id, value, None::<(u64, u64)>)) <==> ws.len() == 3 && ws[0]
            == "set_param"@ && text::number(ws[1], 4294967295) == Some(id as int) && ws[2] == value,
        read_versioned(ws) == Some((id, value, Some((seq, origin)))) <==> ws.len() == 5 && ws[0]
            == "set_param"@ && text::number(ws[1], 4294967295) == Some(id as int) && ws[2] == value
            && text::number(ws[3], 18446744073709551615) == Some(seq as int) && text::number(
            ws[4],
            18446744073709551615,
        ) == Some(origin as int),
        read_versioned(ws) is None <==> !(ws.len() == 3 || ws.len() == 5) || ws[0] != "set_param"@
            || text::number(ws[1], 4294967295) is None || (ws.len() == 5 && (text::number(
            ws[3],
            18446744073709551615,
        ) is None || text::number(ws[4], 18446744073709551615) is None)),
{
    lemma_number_in_range(ws[1], 4294967295);
    if ws.len() == 5 {
        lemma_number_in_range(ws[3], 18446744073709551615);
        lemma_number_in_range(ws[4], 18446744073709551615);
        assert(ws.take(3)[0] == ws[0] && ws.take(3)[1] == ws[1] && ws.take(3)[2] == ws[2]);
    }
}

/// A request is read from exactly two words: the name, and the sender's origin.
pub proof fn law_which_words_are_a_request(ws: Seq<Seq<char>>, origin: u64)
    ensures
        read_sync_request(ws) == Some(origin) <==> ws.len() == 2 && ws[0] == "sync_request"@
            && text::number(ws[1], 18446744073709551615) == Some(origin as int),
        read_sync_request(ws) is None <==> ws.len() != 2 || ws[0] != "sync_request"@ || text::number(
            ws[1],
            18446744073709551615,
        ) is None,
{
    lemma_number_in_range(ws[1], 18446744073709551615);
}

/// An answer is read from its name and four words an entry, each entry from its
/// own four; it is none if words are missing or a number does not read.
pub proof fn law_which_words_are_an_answer(
    ws: Seq<Seq<char>>,
    entries: Seq<(u32, Seq<char>, u64, u64)>,
)
    ensures
        read_sync_state(ws) == Some(entries) <==> ws.len() == 1 + 4 * entries.len() && ws[0]
            == "sync_state"@ && (forall|k: int|
            0 <= k < entries.len() ==> text::number(ws[1 + 4 * k], 4294967295) == Some(
                (#[trigger] entries[k]).0 as int,
            ) && ws[2 + 4 * k] == entries[k].1 && text::number(
                ws[3 + 4 * k],
                18446744073709551615,
            ) == Some(entries[k].2 as int) && text::number(ws[4 + 4 * k], 18446744073709551615)
                == Some(entries[k].3 as int)),
{
    if ws.len() > 0 {
        let rest = ws.skip(1);
        lemma_read_entries(rest, entries);
        assert forall|k: int| 0 <= k < rest.len() implies #[trigger] rest[k] == ws[k + 1] by {}
    }
}

proof fn lemma_read_entries(ws: Seq<Seq<char>>, entries: Seq<(u32, Seq<char>, u64, u64)>)
    ensures
        read_entries(ws) == Some(entries) <==> ws.len() == 4 * entries.len() && (forall|k: int|
            0 <= k < entries.len() ==> text::number(ws[4 * k], 4294967295) == Some(
                (#[trigger] entries[k]).0 as int,
            ) && ws[4 * k + 1] == entries[k].1 && text::number(
                ws[4 * k + 2],
                18446744073709551615,
            ) == Some(entries[k].2 as int) && text::number(ws[4 * k + 3], 18446744073709551615)
                == Some(entries[k].3 as int)),
    decreases ws.len(),
{
    if ws.len() == 0 {
        if entries.len() == 0 {
            assert(entries =~= Seq::empty());
        }
    } else if ws.len() >= 4 {
        let n = ws.len() - 4;
        let head = ws.take(n);
        let tail = ws.skip(n);
        lemma_number_in_range(tail[0], 4294967295);
        lemma_number_in_range(tail[2], 18446744073709551615);
        lemma_number_in_range(tail[3], 18446744073709551615);
        assert(tail[0] == ws[n] && tail[1] == ws[n + 1] && tail[2] == ws[n + 2] && tail[3] == ws[n
            + 3]);
        if entries.len() > 0 {
            let front = entries.drop_last();
            let m = front.len() as int;
            lemma_read_entries(head, front);
            assert(entries =~= front.push(entries.last()));
            assert(entries[m] == entries.last());
            assert forall|k: int| 0 <= k < m implies #[trigger] entries[k] == front[k] by {}
            assert forall|k: int| 0 <= k < n implies #[trigger] head[k] == ws[k] by {}
            if read_entries(ws) == Some(entries) {
                let got = read_entries(head)->0;
                assert(got.push(read_entry(tail)->0) == entries);
                assert(got =~= front);
                assert forall|k: int| 0 <= k < entries.len() implies text::number(
                    ws[4 * k],
                    4294967295,
                ) == Some((#[trigger] entries[k]).0 as int) && ws[4 * k + 1] == entries[k].1
                    && text::number(ws[4 * k + 2], 18446744073709551615) == Some(
                    entries[k].2 as int,
                ) && text::number(ws[4 * k + 3], 18446744073709551615) == Some(
                    entries[k].3 as int,
                ) by {
                    if k < m {
                        assert(entries[k] == front[k]);
                        assert(head[4 * k] == ws[4 * k]);
                    }
                }
            }
            if ws.len() == 4 * entries.len() && (forall|k: int|
                0 <= k < entries.len() ==> text::number(ws[4 * k], 4294967295) == Some(
                    (#[trigger] entries[k]).0 as int,
                ) && ws[4 * k + 1] == entries[k].1 && text::number(
                    ws[4 * k + 2],
                    18446744073709551615,
                ) == Some(entries[k].2 as int) && text::number(
                    ws[4 * k + 3],
                    18446744073709551615,
                ) == Some(entries[k].3 as int)) {
                assert forall|k: int| 0 <= k < front.len() implies text::number(
                    head[4 * k],
                    4294967295,
                ) == Some((#[trigger] front[k]).0 as int) && head[4 * k + 1] == front[k].1
                    && text::number(head[4 * k + 2], 18446744073709551615) == Some(
                    front[k].2 as int,
                ) && text::number(head[4 * k + 3], 18446744073709551615) == Some(
                    front[k].3 as int,
                ) by {
                    assert(entries[k] == front[k]);
                }
                assert(read_entries(head) == Some(front));
                assert(entries[m] == (read_entry(tail)->0));
            }
        }
    }
}

proof fn lemma_number_in_range(s: Seq<char>, max: int)
    requires
        0 <= max,
    ensures
        text::number(s, max) matches Some(n) ==> 0 <= n <= max,
{
    text::law_numbers_are_read_in_decimal(s, '0', max);
}

} // verus!
