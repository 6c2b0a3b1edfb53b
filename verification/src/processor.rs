//! What a plugin implements, and the standard way to save and restore its
//! parameter values.
use vstd::prelude::*;
use vstd::slice::slice_subrange;
use vstd::bytes;

use crate::bus::AudioBusSpec;
use crate::params;
use crate::params::{find_param, ParamDef, PluginInfo};

verus! {

/// The trait a plugin implements. Its spec functions name what the plugin's
/// own code does; the rest of the library is proved for every plugin,
/// whatever they are. Their default bodies are never relied upon: they are
/// there so that a plugin written in plain Rust need not give any.
pub trait Processor: Sized {
    /// The parameters the plugin declares.
    closed spec fn declared() -> Seq<ParamDef> {
        arbitrary()
    }

    /// The buses the plugin declares.
    closed spec fn buses() -> Seq<AudioBusSpec> {
        arbitrary()
    }

    /// The value a parameter has.
    closed spec fn value(&self, id: u32) -> u64 {
        arbitrary()
    }

    /// Whether setting a parameter can lead from one state to the other.
    closed spec fn sets(before: Self, id: u32, value: u64, after: Self) -> bool {
        true
    }

    /// Whether a reset can lead from one state to the other.
    closed spec fn resets(before: Self, after: Self) -> bool {
        true
    }

    /// The delay between input and output.
    closed spec fn delay(&self) -> u32 {
        arbitrary()
    }

    /// Whether saving this state can give these bytes.
    closed spec fn saves(&self, data: Seq<u8>) -> bool {
        true
    }

    /// Whether loading these bytes can lead from one state to the other with
    /// this answer.
    closed spec fn loads(before: Self, data: Seq<u8>, ok: bool, after: Self) -> bool {
        true
    }

    /// Static identity and metadata.
    fn info() -> PluginInfo;

    /// Every parameter the plugin exposes, in display order. The list is
    /// fixed.
    fn params() -> (r: &'static [ParamDef])
        ensures
            r@ == Self::declared(),
    ;

    /// The audio buses the plugin exposes. The list is fixed.
    fn audio_buses() -> (r: Vec<AudioBusSpec>)
        ensures
            r@ == Self::buses(),
    ;

    /// Whether the plugin generates MIDI. Hosts are shown a note output only
    /// if it does.
    fn emits_midi() -> (r: bool)
        default_ensures
            !r,
    {
        false
    }

    /// The page of the plugin's editor; without one there is no editor.
    fn editor_html() -> (r: Option<&'static str>)
        default_ensures
            r is None,
    {
        None
    }

    /// Width and height of the editor.
    fn editor_size() -> (r: (u32, u32))
        default_ensures
            r == (400u32, 300u32),
    {
        (400, 300)
    }

    /// Apply a parameter change. Implementations clamp or round as they see
    /// fit.
    fn set_param(&mut self, id: u32, value: u64)
        ensures
            Self::sets(*old(self), id, value, *final(self)),
    ;

    /// Read a parameter back.
    fn get_param(&self, id: u32) -> (value: u64)
        ensures
            value == self.value(id),
    ;

    /// Forget audio history, keep parameters.
    fn reset(&mut self)
        ensures
            Self::resets(*old(self), *final(self)),
    ;

    /// Delay between input and output, in frames.
    fn latency(&self) -> (r: u32)
        ensures
            r == self.delay(),
    ;

    /// Serialize state for the host's project.
    fn save_state(&self) -> (data: Vec<u8>)
        ensures
            self.saves(data@),
    ;

    /// Restore saved state; `false` if the bytes are not in the expected
    /// format.
    fn load_state(&mut self, data: &Vec<u8>) -> (ok: bool)
        ensures
            Self::loads(*old(self), data@, ok, *final(self)),
    ;
}

/// Bytes one saved parameter takes.
pub const ENTRY_BYTES: usize = 12;

/// One saved parameter: its id, then its value, little-endian.
pub open spec fn entry_bytes(id: u32, value: u64) -> Seq<u8> {
    bytes::spec_u32_to_le_bytes(id) + bytes::spec_u64_to_le_bytes(value)
}

/// Saved parameters, one after the other.
pub open spec fn state_bytes(entries: Seq<(u32, u64)>) -> Seq<u8>
    decreases entries.len(),
{
    if entries.len() == 0 {
        Seq::empty()
    } else {
        state_bytes(entries.drop_last()) + entry_bytes(entries.last().0, entries.last().1)
    }
}

/// The saved parameter at position `i`.
pub open spec fn entry_at(data: Seq<u8>, i: int) -> (u32, u64) {
    (
        bytes::spec_u32_from_le_bytes(data.subrange(12 * i, 12 * i + 4)),
        bytes::spec_u64_from_le_bytes(data.subrange(12 * i + 4, 12 * i + 12)),
    )
}

/// The parameters that saved bytes hold.
pub open spec fn state_entries(data: Seq<u8>) -> Seq<(u32, u64)> {
    Seq::new((data.len() / 12) as nat, |i: int| entry_at(data, i))
}

/// Whether bytes are a whole, non-zero number of saved parameters.
pub open spec fn is_state(data: Seq<u8>) -> bool {
    data.len() > 0 && data.len() % 12 == 0
}

/// Every declared parameter's value.
pub open spec fn all_values<P: Processor>(p: P) -> Seq<(u32, u64)> {
    Seq::new(P::declared().len(), |i: int| (P::declared()[i].id, p.value(P::declared()[i].id)))
}

/// One entry lands: a declared id is set, any other is skipped.
pub open spec fn entry_lands<P: Processor>(before: P, entry: (u32, u64), after: P) -> bool {
    if params::declares(P::declared(), entry.0) {
        P::sets(before, entry.0, entry.1, after)
    } else {
        before == after
    }
}

/// Entries land in order.
pub open spec fn entries_land<P: Processor>(before: P, entries: Seq<(u32, u64)>, after: P) -> bool
    decreases entries.len(),
{
    if entries.len() == 0 {
        before == after
    } else {
        exists|mid: P|
            entries_land(before, entries.drop_last(), mid) && #[trigger] entry_lands(
                mid,
                entries.last(),
                after,
            )
    }
}

/// Read every declared parameter.
pub fn snapshot_params<P: Processor>(p: &P) -> (r: Vec<(u32, u64)>)
    ensures
        r@ == all_values(*p),
{
    let defs = P::params();
    let mut out: Vec<(u32, u64)> = Vec::with_capacity(defs.len());
    let mut i: usize = 0;
    while i < defs.len()
        invariant
            defs@ == P::declared(),
            i <= defs.len(),
            out@ == all_values(*p).take(i as int),
        decreases defs.len() - i,
    {
        let id: u32 = defs[i].id;
        out.push((id, p.get_param(id)));
        i += 1;
    }
    proof {
        assert(all_values(*p).take(i as int) =~= all_values(*p));
    }
    out
}

/// Serialize parameter values.
pub fn encode_state(entries: &Vec<(u32, u64)>) -> (data: Vec<u8>)
    ensures
        data@ == state_bytes(entries@),
{
    let mut data: Vec<u8> = Vec::new();
    let mut i: usize = 0;
    while i < entries.len()
        invariant
            i <= entries.len(),
            data@ == state_bytes(entries@.take(i as int)),
        decreases entries.len() - i,
    {
        proof {
            assert(entries@.take(i + 1).drop_last() =~= entries@.take(i as int));
        }
        let mut id: Vec<u8> = bytes::u32_to_le_bytes(entries[i].0);
        let mut value: Vec<u8> = bytes::u64_to_le_bytes(entries[i].1);
        let ghost before = data@;
        data.append(&mut id);
        data.append(&mut value);
        proof {
            assert(data@ =~= before + entry_bytes(entries@[i as int].0, entries@[i as int].1));
        }
        i += 1;
    }
    proof {
        assert(entries@.take(i as int) =~= entries@);
    }
    data
}

/// The standard way to save: every declared parameter's value.
pub fn default_save_state<P: Processor>(p: &P) -> (data: Vec<u8>)
    ensures
        data@ == state_bytes(all_values(*p)),
{
    encode_state(&snapshot_params(p))
}

/// The standard way to restore: set every declared parameter that the bytes
/// name, in order. Bytes that are not a whole, non-zero number of entries are
/// refused and change nothing.
pub fn default_load_state<P: Processor>(p: &mut P, data: &Vec<u8>) -> (ok: bool)
    ensures
        ok == is_state(data@),
        ok ==> entries_land(*old(p), state_entries(data@), *final(p)),
        !ok ==> *final(p) == *old(p),
{
    if data.len() == 0 || data.len() % ENTRY_BYTES != 0 {
        return false;
    }
    let defs = P::params();
    let n: usize = data.len() / ENTRY_BYTES;
    let mut i: usize = 0;
    while i < n
        invariant
            defs@ == P::declared(),
            n == data@.len() / 12,
            12 * n == data@.len(),
            data@.len() <= usize::MAX,
            i <= n,
            entries_land(*old(p), state_entries(data@).take(i as int), *p),
        decreases n - i,
    {
        let at: usize = i * ENTRY_BYTES;
        let id: u32 = bytes::u32_from_le_bytes(slice_subrange(data.as_slice(), at, at + 4));
        let value: u64 = bytes::u64_from_le_bytes(
            slice_subrange(data.as_slice(), at + 4, at + 12),
        );
        let ghost mid = *p;
        if find_param(defs, id).is_some() {
            p.set_param(id, value);
        }
        proof {
            let so_far = state_entries(data@).take(i + 1);
            assert(so_far.drop_last() =~= state_entries(data@).take(i as int));
            assert(so_far.last() == (id, value));
            assert(entry_lands(mid, so_far.last(), *p));
        }
        i += 1;
    }
    proof {
        assert(state_entries(data@).take(i as int) =~= state_entries(data@));
    }
    true
}

proof fn lemma_state_bytes_len(entries: Seq<(u32, u64)>)
    ensures
        state_bytes(entries).len() == 12 * entries.len(),
    decreases entries.len(),
{
    bytes::lemma_auto_spec_u32_to_from_le_bytes();
    bytes::lemma_auto_spec_u64_to_from_le_bytes();
    if entries.len() > 0 {
        lemma_state_bytes_len(entries.drop_last());
    }
}

proof fn lemma_entry_in_state(entries: Seq<(u32, u64)>, i: int)
    requires
        0 <= i < entries.len(),
    ensures
        state_bytes(entries).subrange(12 * i, 12 * i + 12) == entry_bytes(
            entries[i].0,
            entries[i].1,
        ),
    decreases entries.len(),
{
    bytes::lemma_auto_spec_u32_to_from_le_bytes();
    bytes::lemma_auto_spec_u64_to_from_le_bytes();
    lemma_state_bytes_len(entries);
    lemma_state_bytes_len(entries.drop_last());
    if i < entries.len() - 1 {
        lemma_entry_in_state(entries.drop_last(), i);
        assert(state_bytes(entries).subrange(12 * i, 12 * i + 12) =~= state_bytes(
            entries.drop_last(),
        ).subrange(12 * i, 12 * i + 12));
    } else {
        assert(state_bytes(entries).subrange(12 * i, 12 * i + 12) =~= entry_bytes(
            entries[i].0,
            entries[i].1,
        ));
    }
}

/// Reading back serialized parameter values gives the same values, and bytes
/// that were written are always accepted unless there was nothing to write.
pub proof fn law_state_reads_back(entries: Seq<(u32, u64)>)
    ensures
        state_entries(state_bytes(entries)) == entries,
        is_state(state_bytes(entries)) <==> entries.len() > 0,
{
    bytes::lemma_auto_spec_u32_to_from_le_bytes();
    bytes::lemma_auto_spec_u64_to_from_le_bytes();
    lemma_state_bytes_len(entries);
    let data = state_bytes(entries);
    assert forall|i: int| 0 <= i < entries.len() implies #[trigger] entry_at(data, i)
        == entries[i] by {
        lemma_entry_in_state(entries, i);
        let whole = data.subrange(12 * i, 12 * i + 12);
        assert(whole.subrange(0, 4) =~= data.subrange(12 * i, 12 * i + 4));
        assert(whole.subrange(4, 12) =~= data.subrange(12 * i + 4, 12 * i + 12));
        assert(whole.subrange(0, 4) =~= bytes::spec_u32_to_le_bytes(entries[i].0));
        assert(whole.subrange(4, 12) =~= bytes::spec_u64_to_le_bytes(entries[i].1));
    }
    assert(state_entries(data) =~= entries);
}

/// Whether setting a parameter to its value in `source` leaves it there, and
/// setting any other declared parameter to its own leaves this one alone.
pub open spec fn comes_back<P: Processor>(source: P, id: u32) -> bool {
    &&& forall|before: P, after: P| #[trigger]
        P::sets(before, id, source.value(id), after) ==> after.value(id) == source.value(id)
    &&& forall|before: P, other: u32, after: P| #[trigger]
        P::sets(before, other, source.value(other), after) && other != id && params::declares(
            P::declared(),
            other,
        ) ==> after.value(id) == before.value(id)
}

proof fn lemma_landed_value<P: Processor>(source: P, before: P, n: int, after: P, id: u32)
    requires
        0 <= n <= P::declared().len(),
        comes_back(source, id),
        entries_land(before, all_values(source).take(n), after),
        exists|i: int| 0 <= i < n && (#[trigger] P::declared()[i]).id == id,
    ensures
        after.value(id) == source.value(id),
    decreases n,
{
    let entries = all_values(source).take(n);
    let d = P::declared()[n - 1];
    let mid = choose|mid: P|
        entries_land(before, entries.drop_last(), mid) && #[trigger] entry_lands(
            mid,
            entries.last(),
            after,
        );
    assert(entries.drop_last() =~= all_values(source).take(n - 1));
    assert(entries.last() == (d.id, source.value(d.id)));
    assert(params::declares(P::declared(), d.id));
    assert(P::sets(mid, d.id, source.value(d.id), after));
    if d.id != id {
        let i = choose|i: int| 0 <= i < n && (#[trigger] P::declared()[i]).id == id;
        assert(i < n - 1);
        lemma_landed_value(source, before, n - 1, mid, id);
    }
}

/// Restoring what one instance saved gives another instance the same value of
/// a declared parameter, provided the plugin keeps that value when it is set
/// to it and no other restored parameter disturbs it.
pub proof fn law_restored_values_are_the_saved_ones<P: Processor>(
    source: P,
    before: P,
    after: P,
    id: u32,
)
    requires
        params::declares(P::declared(), id),
        comes_back(source, id),
        entries_land(before, state_entries(state_bytes(all_values(source))), after),
    ensures
        after.value(id) == source.value(id),
{
    law_state_reads_back(all_values(source));
    let n = P::declared().len() as int;
    assert(all_values(source).take(n) =~= all_values(source));
    lemma_landed_value(source, before, n, after, id);
}

/// Where that holds of every declared parameter, the restored values are
/// altogether the saved ones.
pub proof fn law_a_restored_state_is_the_saved_one<P: Processor>(source: P, before: P, after: P)
    requires
        forall|i: int|
            0 <= i < P::declared().len() ==> comes_back(source, (#[trigger] P::declared()[i]).id),
        entries_land(before, state_entries(state_bytes(all_values(source))), after),
    ensures
        all_values(after) == all_values(source),
{
    assert forall|i: int| 0 <= i < P::declared().len() implies #[trigger] all_values(after)[i]
        == all_values(source)[i] by {
        assert(params::declares(P::declared(), P::declared()[i].id));
        law_restored_values_are_the_saved_ones(source, before, after, P::declared()[i].id);
    }
    assert(all_values(after) =~= all_values(source));
}

/// Saved state holds every parameter in turn, in twelve bytes: four for its id
/// and eight for its value, each with the lowest byte first.
pub proof fn law_state_is_written_entry_by_entry(
    front: Seq<(u32, u64)>,
    back: Seq<(u32, u64)>,
    id: u32,
    value: u64,
)
    ensures
        state_bytes(Seq::empty()) == Seq::<u8>::empty(),
        state_bytes(seq![(id, value)]) == bytes::spec_u32_to_le_bytes(id)
            + bytes::spec_u64_to_le_bytes(value),
        state_bytes(seq![(id, value)]).len() == 12,
        state_bytes(front + back) == state_bytes(front) + state_bytes(back),
    decreases back.len(),
{
    bytes::lemma_auto_spec_u32_to_from_le_bytes();
    bytes::lemma_auto_spec_u64_to_from_le_bytes();
    assert(state_bytes(Seq::empty()) =~= Seq::<u8>::empty());
    let one = seq![(id, value)];
    assert(one.drop_last() =~= Seq::<(u32, u64)>::empty());
    assert(one.last() == (id, value));
    assert(state_bytes(one) =~= bytes::spec_u32_to_le_bytes(id) + bytes::spec_u64_to_le_bytes(
        value,
    ));
    if back.len() == 0 {
        assert(front + back =~= front);
        assert(state_bytes(front + back) =~= state_bytes(front) + state_bytes(back));
    } else {
        law_state_is_written_entry_by_entry(front, back.drop_last(), id, value);
        assert((front + back).drop_last() =~= front + back.drop_last());
        assert((front + back).last() == back.last());
        assert(state_bytes(front + back) =~= state_bytes(front) + state_bytes(back));
    }
}

/// Saved state is read as it is written: a parameter for each twelve bytes,
/// the id in the first four of them and the value in the other eight. Bytes are
/// state exactly if they are some number of such entries, and not none.
pub proof fn law_state_is_read_entry_by_entry(data: Seq<u8>, i: int)
    ensures
        state_entries(data).len() == data.len() / 12,
        0 <= i < data.len() / 12 ==> state_entries(data)[i].0 == bytes::spec_u32_from_le_bytes(
            data.subrange(12 * i, 12 * i + 4),
        ) && state_entries(data)[i].1 == bytes::spec_u64_from_le_bytes(
            data.subrange(12 * i + 4, 12 * i + 12),
        ),
        is_state(data) <==> data.len() >= 12 && data.len() % 12 == 0,
{
}

/// What is saved is the value of every declared parameter, in the order of
/// their declaration.
pub proof fn law_every_declared_value_is_saved<P: Processor>(p: P, i: int)
    ensures
        all_values(p).len() == P::declared().len(),
        0 <= i < P::declared().len() ==> all_values(p)[i].0 == P::declared()[i].id
            && all_values(p)[i].1 == p.value(P::declared()[i].id),
{
}

/// Loading sets every entry in turn: the processor passes through one state
/// after each. The entry of a declared parameter sets exactly that parameter to
/// exactly its value, whatever it is, and any other entry changes nothing.
pub proof fn law_every_entry_is_loaded<P: Processor>(
    before: P,
    entries: Seq<(u32, u64)>,
    after: P,
) -> (run: Seq<P>)
    requires
        entries_land(before, entries, after),
    ensures
        run.len() == entries.len() + 1,
        run[0] == before,
        run[entries.len() as int] == after,
        forall|k: int|
            0 <= k < entries.len() && (exists|d: int|
                0 <= d < P::declared().len() && (#[trigger] P::declared()[d]).id == entries[k].0)
                ==> P::sets(run[k], (#[trigger] entries[k]).0, entries[k].1, run[k + 1]),
        forall|k: int|
            0 <= k < entries.len() && !params::declares(P::declared(), (#[trigger] entries[k]).0)
                ==> run[k + 1] == run[k],
    decreases entries.len(),
{
    if entries.len() == 0 {
        seq![before]
    } else {
        let rest = entries.drop_last();
        let mid = choose|mid: P|
            entries_land(before, rest, mid) && #[trigger] entry_lands(mid, entries.last(), after);
        let front = law_every_entry_is_loaded(before, rest, mid);
        let run = front.push(after);
        let n = rest.len() as int;
        assert(run[n] == mid && run[n + 1] == after && entries[n] == entries.last());
        assert forall|k: int|
            0 <= k < entries.len() && (exists|d: int|
                0 <= d < P::declared().len() && (#[trigger] P::declared()[d]).id
                    == entries[k].0) implies P::sets(
            run[k],
            (#[trigger] entries[k]).0,
            entries[k].1,
            run[k + 1],
        ) by {
            if k < n {
                assert(rest[k] == entries[k]);
                assert(run[k] == front[k] && run[k + 1] == front[k + 1]);
            } else {
                assert(params::declares(P::declared(), entries[k].0));
            }
        }
        assert forall|k: int|
            0 <= k < entries.len() && !params::declares(
                P::declared(),
                (#[trigger] entries[k]).0,
            ) implies run[k + 1] == run[k] by {
            if k < n {
                assert(rest[k] == entries[k]);
                assert(run[k] == front[k] && run[k + 1] == front[k + 1]);
            }
        }
        run
    }
}

} // verus!
