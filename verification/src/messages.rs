//! From raw bus bytes and editor posts to what they ask for, and back.
//!
//! Values are read from and written to text outside this library; here they
//! pass through as text, and meet their numbers in order.
use vstd::prelude::*;
use vstd::string::*;
use vstd::utf8::*;

use crate::diag::DiagCounters;
use crate::protocol;
use crate::protocol::{
    parse_set_param, parse_set_param_versioned, parse_sync_request, parse_sync_state,
    set_param_versioned, sync_request, sync_state, Frame, SyncEntry, DIAG_QUERY,
};
use crate::text;
use crate::text::push_decimal;

verus! {

/// What the bus tells an instance when the cross-process link is up.
pub const LINK_UP_FRAME: &'static str = "skuiz_link_up";

/// What came in over the bus.
#[derive(Debug)]
pub enum Incoming {
    /// The cross-process link is up: ask for shared state.
    LinkUp,
    /// A message, its values still as text.
    Message(Frame<String>),
    /// Nothing this library understands.
    Junk,
}

/// What a message says, its values as text.
pub ghost enum Said {
    /// A parameter changed.
    SetParam { id: u32, value: Seq<char>, version: Option<(u64, u64)> },
    /// A request for shared state.
    SyncRequest { origin: u64 },
    /// An answer with shared state.
    SyncState(Seq<(u32, Seq<char>, u64, u64)>),
}

/// What words say: a change, else a request, else an answer.
pub open spec fn said(ws: Seq<Seq<char>>) -> Option<Said> {
    match protocol::read_versioned(ws) {
        Some((id, value, version)) => Some(Said::SetParam { id, value, version }),
        None => match protocol::read_sync_request(ws) {
            Some(origin) => Some(Said::SyncRequest { origin }),
            None => match protocol::read_sync_state(ws) {
                Some(entries) => Some(Said::SyncState(entries)),
                None => None,
            },
        },
    }
}

/// What a frame with text values says.
pub open spec fn frame_says(frame: Frame<String>) -> Said {
    match frame {
        Frame::SetParam { id, value, version } => Said::SetParam { id, value: value@, version },
        Frame::SyncRequest { origin } => Said::SyncRequest { origin },
        Frame::SyncState(entries) => Said::SyncState(protocol::entry_views(entries@)),
    }
}

/// Read a message.
pub fn read_message(msg: &str) -> (r: Option<Frame<String>>)
    ensures
        match r {
            Some(frame) => said(text::words(msg@)) == Some(frame_says(frame)),
            None => said(text::words(msg@)) is None,
        },
{
    if let Some((id, value, version)) = parse_set_param_versioned(msg) {
        return Some(Frame::SetParam { id, value, version });
    }
    if let Some(origin) = parse_sync_request(msg) {
        return Some(Frame::SyncRequest { origin });
    }
    match parse_sync_state(msg) {
        Some(entries) => Some(Frame::SyncState(entries)),
        None => None,
    }
}

/// The words of a message.
pub open spec fn message_words(frame: Frame<String>) -> Seq<Seq<char>> {
    match frame {
        Frame::SetParam { id, value, version } => match version {
            Some((seq, origin)) => protocol::versioned_words(id, value@, seq, origin),
            None => protocol::set_param_words(id, value@),
        },
        Frame::SyncRequest { origin } => protocol::sync_request_words(origin),
        Frame::SyncState(entries) => protocol::sync_state_words(entries@),
    }
}

/// Write a message.
pub fn write_message(frame: &Frame<String>) -> (r: String)
    ensures
        r@ == protocol::joined(message_words(*frame)),
{
    match frame {
        Frame::SetParam { id, value, version } => match version {
            Some((seq, origin)) => set_param_versioned(*id, value.as_str(), *seq, *origin),
            None => protocol::set_param(*id, value.as_str()),
        },
        Frame::SyncRequest { origin } => sync_request(*origin),
        Frame::SyncState(entries) => sync_state(entries),
    }
}

/// Whether every value of a frame is a single word.
pub open spec fn values_are_words(frame: Frame<String>) -> bool {
    match frame {
        Frame::SetParam { id, value, version } => protocol::is_word(value@),
        Frame::SyncRequest { origin } => true,
        Frame::SyncState(entries) => forall|i: int|
            0 <= i < entries@.len() ==> protocol::is_word((#[trigger] entries@[i]).value@),
    }
}

/// A message is read back as it was written.
pub proof fn law_messages_read_back(frame: Frame<String>)
    requires
        values_are_words(frame),
    ensures
        said(text::words(protocol::joined(message_words(frame)))) == Some(frame_says(frame)),
{
    match frame {
        Frame::SetParam { id, value, version } => match version {
            Some((seq, origin)) => {
                protocol::law_a_versioned_change_reads_back(id, value@, seq, origin);
            },
            None => {
                protocol::law_a_change_reads_back(id, value@);
            },
        },
        Frame::SyncRequest { origin } => {
            protocol::law_a_request_reads_back(origin);
        },
        Frame::SyncState(entries) => {
            protocol::law_an_answer_reads_back(entries@);
        },
    }
}

/// `str::from_utf8` of the standard library: gives the text that the bytes
/// are the UTF-8 encoding of, and nothing if they are not valid UTF-8.
#[verifier::external_body]
fn from_utf8(bytes: &[u8]) -> (r: Option<&str>)
    ensures
        match r {
            Some(s) => s.spec_bytes() == bytes@,
            None => !valid_utf8(bytes@),
        },
{
    std::str::from_utf8(bytes).ok()
}

/// Take raw bytes from the bus. Bytes that are not UTF-8 are junk.
pub fn incoming(bytes: &[u8]) -> (r: Incoming)
    ensures
        match r {
            Incoming::LinkUp => bytes@ == LINK_UP_FRAME.spec_bytes(),
            Incoming::Message(frame) => valid_utf8(bytes@) && decode_utf8(bytes@)
                != LINK_UP_FRAME@ && said(text::words(decode_utf8(bytes@))) == Some(
                frame_says(frame),
            ),
            Incoming::Junk => valid_utf8(bytes@) ==> decode_utf8(bytes@) != LINK_UP_FRAME@
                && said(text::words(decode_utf8(bytes@))) is None,
        },
{
    match from_utf8(bytes) {
        None => Incoming::Junk,
        Some(msg) => {
            proof {
                encode_utf8_valid_utf8(msg@);
                encode_utf8_decode_utf8(msg@);
            }
            if String::from_str(msg) == String::from_str(LINK_UP_FRAME) {
                return Incoming::LinkUp;
            }
            match read_message(msg) {
                Some(frame) => Incoming::Message(frame),
                None => Incoming::Junk,
            }
        },
    }
}

/// The value texts of a frame, in order.
pub open spec fn texts(frame: Frame<String>) -> Seq<Seq<char>> {
    match frame {
        Frame::SetParam { id, value, version } => seq![value@],
        Frame::SyncRequest { origin } => Seq::empty(),
        Frame::SyncState(entries) => Seq::new(entries@.len(), |i: int| entries@[i].value@),
    }
}

/// The value texts of a frame, in order.
pub fn value_texts(frame: &Frame<String>) -> (r: Vec<String>)
    ensures
        text::views(r@) == texts(*frame),
{
    let mut out: Vec<String> = Vec::new();
    match frame {
        Frame::SetParam { id, value, version } => {
            out.push(value.clone());
        },
        Frame::SyncRequest { origin } => {},
        Frame::SyncState(entries) => {
            let mut i: usize = 0;
            while i < entries.len()
                invariant
                    i <= entries@.len(),
                    out@.len() == i,
                    forall|k: int| 0 <= k < i ==> (#[trigger] out@[k])@ == entries@[k].value@,
                decreases entries.len() - i,
            {
                out.push(entries[i].value.clone());
                i += 1;
            }
        },
    }
    proof {
        assert(text::views(out@) =~= texts(*frame));
    }
    out
}

/// A frame is the same message with these values in place of its texts.
pub open spec fn same_with_values(
    frame: Frame<String>,
    values: Seq<Option<u64>>,
    read: Frame<u64>,
) -> bool {
    match (frame, read) {
        (
            Frame::SetParam { id, value, version },
            Frame::SetParam { id: id2, value: value2, version: version2 },
        ) => id == id2 && version == version2 && values[0] == Some(value2),
        (Frame::SyncRequest { origin }, Frame::SyncRequest { origin: origin2 }) => origin
            == origin2,
        (Frame::SyncState(a), Frame::SyncState(b)) => a@.len() == b@.len() && forall|i: int|
            0 <= i < a@.len() ==> (#[trigger] b@[i]).id == a@[i].id && b@[i].seq == a@[i].seq
                && b@[i].origin == a@[i].origin && values[i] == Some(b@[i].value),
        _ => false,
    }
}

/// Put the numbers that the value texts stand for in their places. A text
/// that is no number makes the whole message junk.
pub fn with_values(frame: &Frame<String>, values: &Vec<Option<u64>>) -> (r: Option<Frame<u64>>)
    requires
        values@.len() == texts(*frame).len(),
    ensures
        match r {
            Some(read) => same_with_values(*frame, values@, read),
            None => exists|i: int| 0 <= i < values@.len() && (#[trigger] values@[i]) is None,
        },
        r is Some <==> forall|i: int| 0 <= i < values@.len() ==> (#[trigger] values@[i]) is Some,
{
    match frame {
        Frame::SetParam { id, value, version } => match values[0] {
            Some(v) => Some(Frame::SetParam { id: *id, value: v, version: *version }),
            None => None,
        },
        Frame::SyncRequest { origin } => Some(Frame::SyncRequest { origin: *origin }),
        Frame::SyncState(entries) => {
            let mut out: Vec<SyncEntry<u64>> = Vec::new();
            let mut i: usize = 0;
            while i < entries.len()
                invariant
                    values@.len() == entries@.len(),
                    i <= entries@.len(),
                    out@.len() == i,
                    forall|k: int| 0 <= k < i ==> (#[trigger] values@[k]) is Some,
                    forall|k: int|
                        0 <= k < i ==> (#[trigger] out@[k]).id == entries@[k].id && out@[k].seq
                            == entries@[k].seq && out@[k].origin == entries@[k].origin && values@[k]
                            == Some(out@[k].value),
                decreases entries.len() - i,
            {
                match values[i] {
                    Some(v) => {
                        out.push(
                            SyncEntry {
                                id: entries[i].id,
                                value: v,
                                seq: entries[i].seq,
                                origin: entries[i].origin,
                            },
                        );
                    },
                    None => {
                        return None;
                    },
                }
                i += 1;
            }
            Some(Frame::SyncState(out))
        },
    }
}

/// The values of a frame, in order.
pub open spec fn numbers(frame: Frame<u64>) -> Seq<u64> {
    match frame {
        Frame::SetParam { id, value, version } => seq![value],
        Frame::SyncRequest { origin } => Seq::empty(),
        Frame::SyncState(entries) => Seq::new(entries@.len(), |i: int| entries@[i].value),
    }
}

/// The values of a frame, in order.
pub fn values(frame: &Frame<u64>) -> (r: Vec<u64>)
    ensures
        r@ == numbers(*frame),
{
    let mut out: Vec<u64> = Vec::new();
    match frame {
        Frame::SetParam { id, value, version } => {
            out.push(*value);
        },
        Frame::SyncRequest { origin } => {},
        Frame::SyncState(entries) => {
            let mut i: usize = 0;
            while i < entries.len()
                invariant
                    i <= entries@.len(),
                    out@.len() == i,
                    forall|k: int| 0 <= k < i ==> (#[trigger] out@[k]) == entries@[k].value,
                decreases entries.len() - i,
            {
                out.push(entries[i].value);
                i += 1;
            }
        },
    }
    proof {
        assert(out@ =~= numbers(*frame));
    }
    out
}

/// A frame is the same message with these texts in place of its values.
pub open spec fn same_with_texts(
    frame: Frame<u64>,
    shown: Seq<Seq<char>>,
    written: Frame<String>,
) -> bool {
    match (frame, written) {
        (
            Frame::SetParam { id, value, version },
            Frame::SetParam { id: id2, value: value2, version: version2 },
        ) => id == id2 && version == version2 && value2@ == shown[0],
        (Frame::SyncRequest { origin }, Frame::SyncRequest { origin: origin2 }) => origin
            == origin2,
        (Frame::SyncState(a), Frame::SyncState(b)) => a@.len() == b@.len() && forall|i: int|
            0 <= i < a@.len() ==> (#[trigger] b@[i]).id == a@[i].id && b@[i].seq == a@[i].seq
                && b@[i].origin == a@[i].origin && b@[i].value@ == shown[i],
        _ => false,
    }
}

/// Put the texts of the values in their places.
pub fn with_texts(frame: &Frame<u64>, shown: &Vec<String>) -> (r: Frame<String>)
    requires
        shown@.len() == numbers(*frame).len(),
    ensures
        same_with_texts(*frame, text::views(shown@), r),
{
    match frame {
        Frame::SetParam { id, value, version } => Frame::SetParam {
            id: *id,
            value: shown[0].clone(),
            version: *version,
        },
        Frame::SyncRequest { origin } => Frame::SyncRequest { origin: *origin },
        Frame::SyncState(entries) => {
            let mut out: Vec<SyncEntry<String>> = Vec::new();
            let mut i: usize = 0;
            while i < entries.len()
                invariant
                    shown@.len() == entries@.len(),
                    i <= entries@.len(),
                    out@.len() == i,
                    forall|k: int|
                        0 <= k < i ==> (#[trigger] out@[k]).id == entries@[k].id && out@[k].seq
                            == entries@[k].seq && out@[k].origin == entries@[k].origin
                            && out@[k].value@ == shown@[k]@,
                decreases entries.len() - i,
            {
                out.push(
                    SyncEntry {
                        id: entries[i].id,
                        value: shown[i].clone(),
                        seq: entries[i].seq,
                        origin: entries[i].origin,
                    },
                );
                i += 1;
            }
            Frame::SyncState(out)
        },
    }
}

/// What an editor posted.
#[derive(Debug)]
pub enum EditorPost {
    /// It wants the diagnostics counters.
    Diagnostics,
    /// It moved a parameter; the value is still text.
    SetParam {
        /// The parameter.
        id: u32,
        /// The value's text.
        value: String,
    },
    /// Nothing this library understands.
    Junk,
}

/// Read what an editor posted.
pub fn read_post(msg: &str) -> (r: EditorPost)
    ensures
        match r {
            EditorPost::Diagnostics => msg@ == DIAG_QUERY@,
            EditorPost::SetParam { id, value } => msg@ != DIAG_QUERY@ && protocol::read_set_param(
                text::words(msg@),
            ) == Some((id, value@)),
            EditorPost::Junk => msg@ != DIAG_QUERY@ && protocol::read_set_param(
                text::words(msg@),
            ) is None,
        },
{
    if String::from_str(msg) == String::from_str(DIAG_QUERY) {
        return EditorPost::Diagnostics;
    }
    match parse_set_param(msg) {
        Some((id, value)) => EditorPost::SetParam { id, value },
        None => EditorPost::Junk,
    }
}

/// One counter as a member of an object literal.
pub open spec fn member(name: Seq<char>, count: u64) -> Seq<char> {
    "\""@ + name + "\": "@ + text::decimal(count as nat)
}

/// The script an editor page gets for the diagnostics counters; pages
/// implement `window.skuizOnDiag(counters)`.
pub open spec fn diag_js(diag: DiagCounters) -> Seq<char> {
    "window.skuizOnDiag && window.skuizOnDiag({"@ + member(
        "param_events_dropped"@,
        diag.param_events_dropped,
    ) + ", "@ + member("midi_events_dropped"@, diag.midi_events_dropped) + ", "@ + member(
        "commands_dropped"@,
        diag.commands_dropped,
    ) + ", "@ + member("bus_frames_dropped"@, diag.bus_frames_dropped) + ", "@ + member(
        "mirror_retries"@,
        diag.mirror_retries,
    ) + ", "@ + member("state_responses_dropped"@, diag.state_responses_dropped) + "})"@
}

fn push_member(out: &mut String, name: &str, count: u64)
    ensures
        final(out)@ == old(out)@ + member(name@, count),
{
    out.append("\"");
    out.append(name);
    out.append("\": ");
    push_decimal(out, count);
    proof {
        assert(out@ =~= old(out)@ + member(name@, count));
    }
}

/// The script an editor page gets for the diagnostics counters.
pub fn on_diag_js(diag: &DiagCounters) -> (r: String)
    ensures
        r@ == diag_js(*diag),
{
    let mut out = String::from_str("window.skuizOnDiag && window.skuizOnDiag({");
    push_member(&mut out, "param_events_dropped", diag.param_events_dropped);
    out.append(", ");
    push_member(&mut out, "midi_events_dropped", diag.midi_events_dropped);
    out.append(", ");
    push_member(&mut out, "commands_dropped", diag.commands_dropped);
    out.append(", ");
    push_member(&mut out, "bus_frames_dropped", diag.bus_frames_dropped);
    out.append(", ");
    push_member(&mut out, "mirror_retries", diag.mirror_retries);
    out.append(", ");
    push_member(&mut out, "state_responses_dropped", diag.state_responses_dropped);
    out.append("})");
    out
}

/// Putting numbers in place of texts is faithful, position by position: the
/// message is of the same kind, each entry keeps its parameter and version,
/// and each value is the number given for it.
pub proof fn law_numbers_go_to_their_places(
    frame: Frame<String>,
    values: Seq<Option<u64>>,
    read: Frame<u64>,
)
    requires
        same_with_values(frame, values, read),
    ensures
        match read {
            Frame::SetParam { id, value, version } => {
                &&& frame is SetParam
                &&& id == frame->id
                &&& version == frame->version
                &&& Some(value) == values[0]
            },
            Frame::SyncRequest { origin } => frame is SyncRequest && origin == frame->origin,
            Frame::SyncState(entries) => {
                &&& frame is SyncState
                &&& entries@.len() == (frame->SyncState_0)@.len()
                &&& forall|i: int|
                    0 <= i < entries@.len() ==> {
                        &&& (#[trigger] entries@[i]).id == (frame->SyncState_0)@[i].id
                        &&& entries@[i].seq == (frame->SyncState_0)@[i].seq
                        &&& entries@[i].origin == (frame->SyncState_0)@[i].origin
                        &&& Some(entries@[i].value) == values[i]
                    }
            },
        },
{
}

/// Putting texts in place of numbers is faithful in the same way.
pub proof fn law_texts_go_to_their_places(
    frame: Frame<u64>,
    shown: Seq<Seq<char>>,
    written: Frame<String>,
)
    requires
        same_with_texts(frame, shown, written),
    ensures
        match written {
            Frame::SetParam { id, value, version } => {
                &&& frame is SetParam
                &&& id == frame->id
                &&& version == frame->version
                &&& value@ == shown[0]
            },
            Frame::SyncRequest { origin } => frame is SyncRequest && origin == frame->origin,
            Frame::SyncState(entries) => {
                &&& frame is SyncState
                &&& entries@.len() == (frame->SyncState_0)@.len()
                &&& forall|i: int|
                    0 <= i < entries@.len() ==> {
                        &&& (#[trigger] entries@[i]).id == (frame->SyncState_0)@[i].id
                        &&& entries@[i].seq == (frame->SyncState_0)@[i].seq
                        &&& entries@[i].origin == (frame->SyncState_0)@[i].origin
                        &&& entries@[i].value@ == shown[i]
                    }
            },
        },
{
}

/// The texts and the numbers of a message are those of its values, one for
/// each, in order.
pub proof fn law_values_are_listed_in_order(
    frame: Frame<String>,
    read: Frame<u64>,
)
    ensures
        frame is SetParam ==> texts(frame) == seq![(frame->value)@],
        frame is SyncRequest ==> texts(frame).len() == 0,
        frame is SyncState ==> texts(frame).len() == (frame->SyncState_0)@.len() && forall|i: int|
            0 <= i < texts(frame).len() ==> #[trigger] texts(frame)[i] == (
            frame->SyncState_0)@[i].value@,
        read is SetParam ==> numbers(read) == seq![read->value],
        read is SyncRequest ==> numbers(read).len() == 0,
        read is SyncState ==> numbers(read).len() == (read->SyncState_0)@.len() && forall|i: int|
            0 <= i < numbers(read).len() ==> #[trigger] numbers(read)[i] == (
            read->SyncState_0)@[i].value,
{
}

/// The numbers of the message that results are exactly the numbers given, and
/// putting the texts back gives what was said to begin with.
pub proof fn law_numbers_and_texts_change_places(
    frame: Frame<String>,
    values: Seq<Option<u64>>,
    read: Frame<u64>,
    written: Frame<String>,
)
    requires
        values.len() == texts(frame).len(),
        same_with_values(frame, values, read),
        same_with_texts(read, texts(frame), written),
    ensures
        numbers(read).len() == values.len(),
        forall|i: int| 0 <= i < values.len() ==> values[i] == Some(#[trigger] numbers(read)[i]),
        texts(written) == texts(frame),
        frame_says(written) == frame_says(frame),
{
    match (frame, read, written) {
        (Frame::SyncState(a), Frame::SyncState(b), Frame::SyncState(c)) => {
            assert forall|i: int| 0 <= i < a@.len() implies c@[i].id == a@[i].id && c@[i].seq
                == a@[i].seq && c@[i].origin == a@[i].origin && (#[trigger] c@[i]).value@
                == a@[i].value@ by {
                assert(b@[i].id == a@[i].id);
            }
            assert forall|i: int| 0 <= i < values.len() implies values[i] == Some(
                #[trigger] numbers(read)[i],
            ) by {
                assert(b@[i].id == a@[i].id);
            }
            assert(protocol::entry_views(c@) =~= protocol::entry_views(a@));
            assert(texts(written) =~= texts(frame));
        },
        _ => {
            assert(texts(written) =~= texts(frame));
        },
    }
}

/// What a message says is what its fields hold.
pub proof fn law_messages_say_what_they_hold(frame: Frame<String>)
    ensures
        match frame_says(frame) {
            Said::SetParam { id, value, version } => frame is SetParam && id == frame->id && value
                == (frame->value)@ && version == frame->version,
            Said::SyncRequest { origin } => frame is SyncRequest && origin == frame->origin,
            Said::SyncState(entries) => frame is SyncState && entries.len() == (
            frame->SyncState_0)@.len() && forall|i: int|
                0 <= i < entries.len() ==> (#[trigger] entries[i]) == (
                    (frame->SyncState_0)@[i].id,
                    (frame->SyncState_0)@[i].value@,
                    (frame->SyncState_0)@[i].seq,
                    (frame->SyncState_0)@[i].origin,
                ),
        },
{
}

/// The diagnostics call names every counter once, with its own count in
/// decimal.
pub proof fn law_diagnostics_name_every_counter(diag: DiagCounters)
    ensures
        diag_js(diag) == "window.skuizOnDiag && window.skuizOnDiag({"@ + (
        "\""@ + "param_events_dropped"@ + "\": "@ + text::decimal(diag.param_events_dropped as nat))
            + ", "@ + ("\""@ + "midi_events_dropped"@ + "\": "@ + text::decimal(
            diag.midi_events_dropped as nat,
        )) + ", "@ + ("\""@ + "commands_dropped"@ + "\": "@ + text::decimal(
            diag.commands_dropped as nat,
        )) + ", "@ + ("\""@ + "bus_frames_dropped"@ + "\": "@ + text::decimal(
            diag.bus_frames_dropped as nat,
        )) + ", "@ + ("\""@ + "mirror_retries"@ + "\": "@ + text::decimal(
            diag.mirror_retries as nat,
        )) + ", "@ + ("\""@ + "state_responses_dropped"@ + "\": "@ + text::decimal(
            diag.state_responses_dropped as nat,
        )) + "})"@,
{
}

/// A message is what its words read as: a change before a request before an
/// answer, each with its fields as they were read, and nothing where none of
/// the three reads.
pub proof fn law_words_say_what_they_read_as(ws: Seq<Seq<char>>)
    ensures
        protocol::read_versioned(ws) matches Some((id, value, version)) ==> said(ws) == Some(
            Said::SetParam { id, value, version },
        ),
        protocol::read_versioned(ws) is None ==> (
        protocol::read_sync_request(ws) matches Some(origin) ==> said(ws) == Some(
            Said::SyncRequest { origin },
        )),
        protocol::read_versioned(ws) is None && protocol::read_sync_request(ws) is None ==> (
        protocol::read_sync_state(ws) matches Some(entries) ==> said(ws) == Some(
            Said::SyncState(entries),
        )),
        said(ws) is None <==> protocol::read_versioned(ws) is None && protocol::read_sync_request(
            ws,
        ) is None && protocol::read_sync_state(ws) is None,
{
}

/// A message is written as the words of its kind, with its own fields.
pub proof fn law_messages_are_written_by_kind(
    id: u32,
    value: String,
    seq: u64,
    origin: u64,
    entries: Vec<SyncEntry<String>>,
)
    ensures
        message_words((Frame::SetParam { id, value, version: None })) == protocol::set_param_words(
            id,
            value@,
        ),
        message_words((Frame::SetParam { id, value, version: Some((seq, origin)) }))
            == protocol::versioned_words(id, value@, seq, origin),
        message_words((Frame::SyncRequest { origin })) == protocol::sync_request_words(origin),
        message_words(Frame::SyncState(entries)) == protocol::sync_state_words(entries@),
{
}

} // verus!
