//! Last-writer-wins bookkeeping for shared parameters.
//!
//! Every bus frame that carries a parameter change is versioned with a
//! Lamport clock and the sender's origin. A value is applied only when its
//! version is newer than the last one seen for that parameter, so a dropped,
//! duplicated, delayed or reordered frame can delay convergence but never
//! prevent it.
use std::collections::{HashMap, HashSet};
use vstd::prelude::*;

verus! {

broadcast use vstd::std_specs::hash::group_hash_axioms;

/// A version: a sequence number and the origin that stamped it.
pub type Version = (u64, u64);

/// Whether version `a` is newer than `b`: by sequence number, ties broken by
/// origin.
pub open spec fn newer(a: Version, b: Version) -> bool {
    a.0 > b.0 || (a.0 == b.0 && a.1 > b.1)
}

/// What a tracker knows.
pub ghost struct Book {
    /// The tracker's own origin.
    pub origin: u64,
    /// The Lamport clock.
    pub clock: u64,
    /// The last winning version of each parameter.
    pub versions: Map<u32, Version>,
    /// The parameters that nothing without a version rewrote for good since
    /// their version was recorded: no project load and no change by the host.
    pub fresh: Set<u32>,
    /// The parameters whose value a frame without a version displaced since
    /// their version was recorded.
    pub displaced: Set<u32>,
}

impl Book {
    /// Whether an incoming version wins: it is newer than the known one, or it
    /// is the known one and brings back a value that was displaced.
    pub open spec fn wins(self, id: u32, version: Version) -> bool {
        self.versions.contains_key(id) ==> newer(version, self.versions[id]) || (version
            == self.versions[id] && self.displaced.contains(id))
    }

    /// A winning version is recorded and the clock catches up with it.
    pub open spec fn recorded(self, id: u32, version: Version) -> Book {
        Book {
            origin: self.origin,
            clock: if version.0 > self.clock {
                version.0
            } else {
                self.clock
            },
            versions: self.versions.insert(id, version),
            fresh: self.fresh.insert(id),
            displaced: self.displaced.remove(id),
        }
    }

    /// A frame without a version is applied: the known version stays, but its
    /// value is displaced.
    pub open spec fn overridden(self, id: u32) -> Book {
        if self.versions.contains_key(id) {
            Book { displaced: self.displaced.insert(id), ..self }
        } else {
            self
        }
    }

    /// A frame is offered: a version that does not win leaves no mark.
    pub open spec fn offered(self, id: u32, version: Option<Version>) -> Book {
        match version {
            Some(v) => if self.wins(id, v) {
                self.recorded(id, v)
            } else {
                self
            },
            None => self.overridden(id),
        }
    }

    /// The version the next local change gets.
    pub open spec fn next_version(self) -> Version {
        (
            if self.clock == u64::MAX {
                0
            } else {
                (self.clock + 1) as u64
            },
            self.origin,
        )
    }

    /// A local change is stamped.
    pub open spec fn stamped(self, id: u32) -> Book {
        Book {
            origin: self.origin,
            clock: self.next_version().0,
            versions: self.versions.insert(id, self.next_version()),
            fresh: self.fresh.insert(id),
            displaced: self.displaced.remove(id),
        }
    }

    /// A project load rewrote every value without a version.
    pub open spec fn reloaded(self) -> Book {
        Book { fresh: Set::empty(), displaced: Set::empty(), ..self }
    }

    /// The host rewrote one value without a version.
    pub open spec fn rewritten(self, id: u32) -> Book {
        Book { fresh: self.fresh.remove(id), displaced: self.displaced.remove(id), ..self }
    }

    /// The last winning version of a parameter.
    pub open spec fn known(self, id: u32) -> Option<Version> {
        if self.versions.contains_key(id) {
            Some(self.versions[id])
        } else {
            None
        }
    }

    /// The version that may be advertised for a parameter.
    pub open spec fn advertised(self, id: u32) -> Option<Version> {
        if self.fresh.contains(id) && !self.displaced.contains(id) {
            self.known(id)
        } else {
            None
        }
    }

    /// The clock has caught up with every version seen.
    pub open spec fn clocked(self) -> bool {
        forall|id: u32| #[trigger]
            self.versions.contains_key(id) ==> self.versions[id].0 <= self.clock
    }
}

/// The origin of the `serial`-th tracker of a process.
pub open spec fn origin_of(process: u32, serial: u64) -> u64 {
    ((process as u64) << 32) | serial
}

/// Per-parameter versions plus this instance's identity.
#[derive(Debug)]
pub struct Lww {
    origin: u64,
    clock: u64,
    versions: HashMap<u32, (u64, u64)>,
    fresh: HashSet<u32>,
    displaced: HashSet<u32>,
}

impl View for Lww {
    type V = Book;

    closed spec fn view(&self) -> Book {
        Book {
            origin: self.origin,
            clock: self.clock,
            versions: self.versions@,
            fresh: self.fresh@,
            displaced: self.displaced@,
        }
    }
}

fn is_newer(a: (u64, u64), b: (u64, u64)) -> (r: bool)
    ensures
        r == newer(a, b),
{
    a.0 > b.0 || (a.0 == b.0 && a.1 > b.1)
}

impl Lww {
    /// A tracker whose origin mixes a process id with a serial number that is
    /// unique within the process.
    pub fn new(process: u32, serial: u64) -> (r: Self)
        ensures
            r@ == (Book {
                origin: origin_of(process, serial),
                clock: 0,
                versions: Map::empty(),
                fresh: Set::empty(),
                displaced: Set::empty(),
            }),
    {
        Lww {
            origin: ((process as u64) << 32) | serial,
            clock: 0,
            versions: HashMap::new(),
            fresh: HashSet::new(),
            displaced: HashSet::new(),
        }
    }

    /// This instance's origin.
    pub fn origin(&self) -> (r: u64)
        ensures
            r == self@.origin,
    {
        self.origin
    }

    /// Whether an incoming version wins over what was last seen for `id`.
    pub fn wins(&self, id: u32, version: (u64, u64)) -> (r: bool)
        ensures
            r == self@.wins(id, version),
    {
        match self.versions.get(&id) {
            Some(known) => is_newer(version, *known) || (version.0 == known.0 && version.1
                == known.1 && self.displaced.contains(&id)),
            None => true,
        }
    }

    /// Record a winning version.
    pub fn record(&mut self, id: u32, version: (u64, u64))
        ensures
            final(self)@ == old(self)@.recorded(id, version),
    {
        self.versions.insert(id, version);
        self.fresh.insert(id);
        self.displaced.remove(&id);
        if version.0 > self.clock {
            self.clock = version.0;
        }
    }

    /// Stamp a local change with a fresh version and record it.
    pub fn stamp(&mut self, id: u32) -> (r: (u64, u64))
        ensures
            r == old(self)@.next_version(),
            final(self)@ == old(self)@.stamped(id),
    {
        self.clock = self.clock.wrapping_add(1);
        let version: (u64, u64) = (self.clock, self.origin);
        self.versions.insert(id, version);
        self.fresh.insert(id);
        self.displaced.remove(&id);
        version
    }

    /// A frame without a version was applied: the version on record stays, and
    /// may come again to bring its value back.
    pub fn displace(&mut self, id: u32)
        ensures
            final(self)@ == old(self)@.overridden(id),
    {
        if self.versions.contains_key(&id) {
            self.displaced.insert(id);
        }
    }

    /// The host rewrote a value without a version: it is not advertised until
    /// a shared change lands, but old frames still lose.
    pub fn on_rewrite(&mut self, id: u32)
        ensures
            final(self)@ == old(self)@.rewritten(id),
    {
        self.fresh.remove(&id);
        self.displaced.remove(&id);
    }

    /// Whether an incoming version wins; if so, it is recorded. A frame
    /// without a version always applies and never touches the version on
    /// record.
    pub fn accept(&mut self, id: u32, version: Option<(u64, u64)>) -> (r: bool)
        ensures
            r == (match version {
                Some(v) => old(self)@.wins(id, v),
                None => true,
            }),
            final(self)@ == old(self)@.offered(id, version),
    {
        match version {
            None => {
                self.displace(id);
                true
            },
            Some(v) => {
                if self.wins(id, v) {
                    self.record(id, v);
                    true
                } else {
                    false
                }
            },
        }
    }

    /// Like [`Lww::accept`], but the version is recorded only if `apply`
    /// reports that the change landed. A version that does not win never runs
    /// `apply`.
    pub fn accept_with(
        &mut self,
        id: u32,
        version: Option<(u64, u64)>,
        apply: impl FnOnce() -> bool,
    ) -> (r: bool)
        requires
            match version {
                Some(v) => old(self)@.wins(id, v) ==> call_requires(apply, ()),
                None => call_requires(apply, ()),
            },
        ensures
            match version {
                Some(v) => if old(self)@.wins(id, v) {
                    call_ensures(apply, (), r) && final(self)@ == (if r {
                        old(self)@.recorded(id, v)
                    } else {
                        old(self)@
                    })
                } else {
                    !r && final(self)@ == old(self)@
                },
                None => call_ensures(apply, (), r) && final(self)@ == (if r {
                    old(self)@.overridden(id)
                } else {
                    old(self)@
                }),
            },
    {
        match version {
            None => {
                if !apply() {
                    return false;
                }
                self.displace(id);
                true
            },
            Some(v) => {
                if !self.wins(id, v) {
                    return false;
                }
                if !apply() {
                    return false;
                }
                self.record(id, v);
                true
            },
        }
    }

    /// Apply a local change and, only if it landed, stamp it. `None` means it
    /// went nowhere and nothing is to be broadcast.
    pub fn stamp_with(&mut self, id: u32, apply: impl FnOnce() -> bool) -> (r: Option<(u64, u64)>)
        requires
            call_requires(apply, ()),
        ensures
            call_ensures(apply, (), r is Some),
            r matches Some(v) ==> v == old(self)@.next_version() && final(self)@ == old(
                self,
            )@.stamped(id),
            r is None ==> final(self)@ == old(self)@,
    {
        if !apply() {
            return None;
        }
        Some(self.stamp(id))
    }

    /// A project load rewrote every parameter without a version: nothing may
    /// be advertised until a shared change lands, but old frames still lose.
    pub fn on_state_load(&mut self)
        ensures
            final(self)@ == old(self)@.reloaded(),
    {
        self.fresh.clear();
        self.displaced.clear();
    }

    /// The version that may be advertised for `id`.
    pub fn advertised_version(&self, id: u32) -> (r: Option<(u64, u64)>)
        ensures
            r == self@.advertised(id),
    {
        if self.fresh.contains(&id) && !self.displaced.contains(&id) {
            self.known_version(id)
        } else {
            None
        }
    }

    /// The last winning version of `id`, advertised or not.
    pub fn known_version(&self, id: u32) -> (r: Option<(u64, u64)>)
        ensures
            r == self@.known(id),
    {
        match self.versions.get(&id) {
            Some(version) => Some(*version),
            None => None,
        }
    }
}

/// Trackers of one process with different serial numbers, and trackers of
/// different processes, have different origins.
pub proof fn law_origins_are_unique(p: u32, s: u64, q: u32, t: u64)
    requires
        s <= u32::MAX,
        t <= u32::MAX,
    ensures
        origin_of(p, s) == origin_of(q, t) ==> p == q && s == t,
{
    assert(((p as u64) << 32) | s == ((q as u64) << 32) | t ==> p == q && s == t) by (bit_vector)
        requires
            s <= 0xffff_ffff,
            t <= 0xffff_ffff,
    ;
}

/// Once a version has won, the same version and every older one lose.
pub proof fn law_stale_and_duplicate_versions_lose(
    book: Book,
    id: u32,
    version: Version,
    other: Version,
)
    requires
        book.wins(id, version),
        !newer(other, version),
    ensures
        !book.recorded(id, version).wins(id, other),
        book.recorded(id, version).offered(id, Some(other)) == book.recorded(id, version),
{
}

/// Of two different versions exactly one is newer, and being newer carries
/// over: every set of versions has one winner.
pub proof fn law_versions_are_totally_ordered(a: Version, b: Version, c: Version)
    ensures
        !newer(a, a),
        a != b ==> (newer(a, b) <==> !newer(b, a)),
        newer(a, b) && newer(b, c) ==> newer(a, c),
{
}

/// A local change always beats everything seen so far, for every parameter,
/// as long as the clock can still advance; and its own stamp does not win
/// again when it comes back.
pub proof fn law_local_changes_beat_everything_seen(book: Book, id: u32, other: u32)
    requires
        book.clocked(),
        book.clock < u64::MAX,
    ensures
        book.wins(id, book.next_version()),
        book.versions.contains_key(other) ==> newer(book.next_version(), book.versions[other]),
        book.stamped(id).known(id) == Some(book.next_version()),
        !book.stamped(id).wins(id, book.next_version()),
        book.stamped(id).clocked(),
{
    let after = book.stamped(id);
    assert forall|k: u32| #[trigger] after.versions.contains_key(k) implies after.versions[k].0
        <= after.clock by {
        if k != id {
            assert(book.versions.contains_key(k));
        }
    }
}

/// Whatever is offered or loaded, the clock stays caught up.
pub proof fn law_the_clock_stays_caught_up(book: Book, id: u32, version: Option<Version>)
    requires
        book.clocked(),
    ensures
        book.offered(id, version).clocked(),
        book.reloaded().clocked(),
{
    let after = book.offered(id, version);
    assert forall|k: u32| #[trigger] after.versions.contains_key(k) implies after.versions[k].0
        <= after.clock by {
        if k != id {
            assert(book.versions.contains_key(k));
        } else if after.versions == book.versions {
            assert(book.versions.contains_key(k));
        }
    }
}

/// A frame without a version never touches the version on record: that
/// version stays known, stale ones still lose and newer ones still win. It is
/// no longer advertised, though, since its value is not the one in force.
pub proof fn law_unversioned_frames_keep_the_record(book: Book, id: u32, version: Version)
    ensures
        book.offered(id, None).known(id) == book.known(id),
        book.offered(id, None).clock == book.clock,
        book.known(id) != Some(version) ==> book.offered(id, None).wins(id, version) == book.wins(
            id,
            version,
        ),
        book.offered(id, None).advertised(id) is None,
        book.known(id) is None ==> book.offered(id, None) == book,
{
}

/// A frame without a version never displaces known state for good: the version
/// on record wins when it comes again, as the next answer to a request brings
/// it, is advertised again, and then loses as any duplicate does.
pub proof fn law_the_known_version_heals_a_displaced_value(book: Book, id: u32, version: Version)
    requires
        book.known(id) == Some(version),
    ensures
        book.offered(id, None).wins(id, version),
        book.offered(id, None).offered(id, Some(version)).known(id) == Some(version),
        book.offered(id, None).offered(id, Some(version)).advertised(id) == Some(version),
        !book.offered(id, None).offered(id, Some(version)).wins(id, version),
{
}

/// A project load silences every advertisement and keeps the memory of what
/// won: the versions on record lose, displaced or not, and nothing changes
/// about which others win. The next winning version is advertised again.
pub proof fn law_a_load_silences_but_remembers(book: Book, id: u32, version: Version)
    ensures
        book.reloaded().advertised(id) is None,
        book.reloaded().known(id) == book.known(id),
        book.known(id) != Some(version) ==> book.reloaded().wins(id, version) == book.wins(
            id,
            version,
        ),
        book.known(id) == Some(version) ==> !book.reloaded().wins(id, version),
        book.reloaded().recorded(id, version).advertised(id) == Some(version),
        book.reloaded().stamped(id).advertised(id) == Some(book.next_version()),
{
}

/// Frames are offered one after the other.
pub open spec fn offered_all(book: Book, frames: Seq<(u32, Version)>) -> Book
    decreases frames.len(),
{
    if frames.len() == 0 {
        book
    } else {
        offered_all(book, frames.drop_last()).offered(frames.last().0, Some(frames.last().1))
    }
}

/// Whether a version is the book's own or one of the frames' for a parameter.
pub open spec fn was_seen(
    book: Book,
    frames: Seq<(u32, Version)>,
    id: u32,
    version: Version,
) -> bool {
    book.known(id) == Some(version) || frames.contains((id, version))
}

/// After any frames, the version of each parameter is the newest one seen.
pub proof fn law_the_newest_version_stands(
    book: Book,
    frames: Seq<(u32, Version)>,
    id: u32,
    version: Version,
)
    ensures
        offered_all(book, frames).known(id) matches Some(v) ==> was_seen(book, frames, id, v),
        was_seen(book, frames, id, version) ==> (offered_all(book, frames).known(id) matches Some(
            v,
        ) && !newer(version, v)),
    decreases frames.len(),
{
    if frames.len() > 0 {
        let rest = frames.drop_last();
        let before = offered_all(book, rest);
        let last = frames.last();
        law_the_newest_version_stands(book, rest, id, version);
        assert(frames[frames.len() - 1] == last);
        assert forall|v: Version| rest.contains((id, v)) implies frames.contains((id, v)) by {
            let i = choose|i: int| 0 <= i < rest.len() && rest[i] == (id, v);
            assert(frames[i] == (id, v));
        }
        if frames.contains((id, version)) && !rest.contains((id, version)) {
            let i = choose|i: int| 0 <= i < frames.len() && frames[i] == (id, version);
            if i < rest.len() {
                assert(rest[i] == (id, version));
            }
            assert(last == (id, version));
        }
        if last.0 == id {
            assert(frames.contains((id, last.1)));
        }
    }
}

/// Two trackers that knew the same version of a parameter, or none, agree on
/// it again once they have been offered the same frames, in whatever order
/// and with whatever repetitions.
pub proof fn law_the_same_frames_lead_to_the_same_version(
    a: Book,
    b: Book,
    xs: Seq<(u32, Version)>,
    ys: Seq<(u32, Version)>,
    id: u32,
)
    requires
        a.known(id) == b.known(id),
        forall|f: (u32, Version)| #[trigger] xs.contains(f) <==> ys.contains(f),
    ensures
        offered_all(a, xs).known(id) == offered_all(b, ys).known(id),
{
    let va = offered_all(a, xs).known(id);
    let vb = offered_all(b, ys).known(id);
    let any: Version = (0, 0);
    law_the_newest_version_stands(a, xs, id, any);
    law_the_newest_version_stands(b, ys, id, any);
    if let Some(v) = va {
        assert(was_seen(a, xs, id, v));
        assert(xs.contains((id, v)) <==> ys.contains((id, v)));
        assert(was_seen(b, ys, id, v));
        law_the_newest_version_stands(b, ys, id, v);
    }
    if let Some(v) = vb {
        assert(was_seen(b, ys, id, v));
        assert(xs.contains((id, v)) <==> ys.contains((id, v)));
        assert(was_seen(a, xs, id, v));
        law_the_newest_version_stands(a, xs, id, v);
    }
}

/// A tracker together with the values in force.
pub ghost struct Replica {
    /// The tracker.
    pub book: Book,
    /// The value of each parameter.
    pub values: Map<u32, u64>,
}

/// A change is received: parameter, version and value. Only a winning version
/// changes anything.
pub open spec fn received(r: Replica, change: (u32, Version, u64)) -> Replica {
    if r.book.wins(change.0, change.1) {
        Replica {
            book: r.book.recorded(change.0, change.1),
            values: r.values.insert(change.0, change.2),
        }
    } else {
        r
    }
}

/// What a replica holds of one parameter.
pub ghost struct Holding {
    /// The last winning version.
    pub known: Option<Version>,
    /// Whether its value was displaced.
    pub displaced: bool,
    /// The value.
    pub value: u64,
}

impl Holding {
    /// Whether a version wins.
    pub open spec fn wins(self, version: Version) -> bool {
        self.known matches Some(v) ==> newer(version, v) || (version == v && self.displaced)
    }

    /// A change is received.
    pub open spec fn received(self, change: (Version, u64)) -> Holding {
        if self.wins(change.0) {
            Holding { known: Some(change.0), displaced: false, value: change.1 }
        } else {
            self
        }
    }

    /// The value is the one that the version names.
    pub open spec fn is_named(self, named: spec_fn(Version) -> u64) -> bool {
        self.known matches Some(v) ==> !self.displaced && self.value == named(v)
    }
}

/// What a replica holds of a parameter.
pub open spec fn held(r: Replica, id: u32) -> Holding {
    Holding {
        known: r.book.known(id),
        displaced: r.book.displaced.contains(id),
        value: r.values[id],
    }
}

/// Receiving a change concerns its own parameter and no other.
pub proof fn law_changes_concern_one_parameter(r: Replica, change: (u32, Version, u64), id: u32)
    ensures
        held(received(r, change), id) == (if change.0 == id {
            held(r, id).received((change.1, change.2))
        } else {
            held(r, id)
        }),
{
}

/// Changes of one parameter are received one after the other.
pub open spec fn received_all(h: Holding, changes: Seq<(Version, u64)>) -> Holding
    decreases changes.len(),
{
    if changes.len() == 0 {
        h
    } else {
        received_all(h, changes.drop_last()).received(changes.last())
    }
}

/// Every change carries the value that its version names.
pub open spec fn carry_named_values(
    changes: Seq<(Version, u64)>,
    named: spec_fn(Version) -> u64,
) -> bool {
    forall|i: int| 0 <= i < changes.len() ==> (#[trigger] changes[i]).1 == named(changes[i].0)
}

/// Whether some change has this version.
pub open spec fn has_version(changes: Seq<(Version, u64)>, version: Version) -> bool {
    exists|i: int| 0 <= i < changes.len() && (#[trigger] changes[i]).0 == version
}

/// After any changes a replica knows the newest version of those it knew and
/// those it received, and holds the value that it names.
pub proof fn law_the_newest_value_stands(
    h: Holding,
    changes: Seq<(Version, u64)>,
    named: spec_fn(Version) -> u64,
    version: Version,
)
    requires
        h.is_named(named),
        carry_named_values(changes, named),
    ensures
        received_all(h, changes).is_named(named),
        received_all(h, changes).known matches Some(v) ==> h.known == Some(v) || has_version(
            changes,
            v,
        ),
        h.known == Some(version) || has_version(changes, version) ==> (received_all(
            h,
            changes,
        ).known matches Some(v) && !newer(version, v)),
    decreases changes.len(),
{
    if changes.len() > 0 {
        let rest = changes.drop_last();
        let last = changes.last();
        assert(last == changes[changes.len() - 1]);
        assert forall|i: int| 0 <= i < rest.len() implies (#[trigger] rest[i]).1 == named(
            rest[i].0,
        ) by {
            assert(rest[i] == changes[i]);
        }
        law_the_newest_value_stands(h, rest, named, version);
        assert forall|v: Version| has_version(rest, v) implies has_version(changes, v) by {
            let i = choose|i: int| 0 <= i < rest.len() && (#[trigger] rest[i]).0 == v;
            assert(changes[i].0 == v);
        }
        if has_version(changes, version) && !has_version(rest, version) {
            let i = choose|i: int| 0 <= i < changes.len() && (#[trigger] changes[i]).0 == version;
            if i < rest.len() {
                assert(rest[i].0 == version);
            }
            assert(last.0 == version);
        }
        assert(has_version(changes, last.0));
    }
}

/// Replicas converge: where each version names one value, two replicas that
/// agreed on a parameter's version agree on its value again once both have
/// received the same changes, in whatever order and however often.
pub proof fn law_replicas_converge(
    a: Holding,
    b: Holding,
    xs: Seq<(Version, u64)>,
    ys: Seq<(Version, u64)>,
    named: spec_fn(Version) -> u64,
)
    requires
        a.is_named(named),
        b.is_named(named),
        a.known == b.known,
        carry_named_values(xs, named),
        carry_named_values(ys, named),
        forall|v: Version| #[trigger] has_version(xs, v) <==> has_version(ys, v),
    ensures
        received_all(a, xs).known == received_all(b, ys).known,
        received_all(a, xs).known is Some ==> received_all(a, xs).value == received_all(
            b,
            ys,
        ).value,
{
    let any: Version = (0, 0);
    law_the_newest_value_stands(a, xs, named, any);
    law_the_newest_value_stands(b, ys, named, any);
    if let Some(v) = received_all(a, xs).known {
        assert(has_version(xs, v) <==> has_version(ys, v));
        law_the_newest_value_stands(b, ys, named, v);
    }
    if let Some(v) = received_all(b, ys).known {
        assert(has_version(xs, v) <==> has_version(ys, v));
        law_the_newest_value_stands(a, xs, named, v);
    }
}

/// Versions compare as numbers do: the sequence counts first, and the origin
/// breaks a tie.
pub proof fn law_versions_compare_as_numbers(a: Version, b: Version)
    ensures
        newer(a, b) <==> a.0 * 0x1_0000_0000_0000_0000 + a.1 > b.0 * 0x1_0000_0000_0000_0000 + b.1,
{
}

/// A version wins against nothing, against a lower one, and, where the value
/// was displaced, against itself; it never wins against a higher one.
pub proof fn law_who_wins(book: Book, id: u32, version: Version)
    ensures
        !book.versions.contains_key(id) ==> book.wins(id, version),
        book.versions.contains_key(id) && version.0 > book.versions[id].0 ==> book.wins(id, version),
        book.versions.contains_key(id) && version.0 < book.versions[id].0 ==> !book.wins(
            id,
            version,
        ),
        book.versions.contains_key(id) && version.0 == book.versions[id].0 && version.1
            > book.versions[id].1 ==> book.wins(id, version),
        book.versions.contains_key(id) && version.0 == book.versions[id].0 && version.1
            < book.versions[id].1 ==> !book.wins(id, version),
        book.versions.contains_key(id) && version == book.versions[id] ==> (book.wins(id, version)
            <==> book.displaced.contains(id)),
{
}

/// Recording a version makes it the parameter's known and advertised one, moves
/// the clock up to it and never back, and touches no other parameter.
pub proof fn law_recording_concerns_one_parameter(
    book: Book,
    id: u32,
    version: Version,
    other: u32,
)
    ensures
        ({
            let after = book.recorded(id, version);
            &&& after.versions.contains_key(id) && after.versions[id] == version
            &&& after.fresh.contains(id) && !after.displaced.contains(id)
            &&& after.known(id) == Some(version) && after.advertised(id) == Some(version)
            &&& after.clock >= book.clock && after.clock >= version.0
            &&& after.clock == book.clock || after.clock == version.0
            &&& after.origin == book.origin
            &&& other != id ==> after.versions.contains_key(other) == book.versions.contains_key(
                other,
            ) && after.versions[other] == book.versions[other] && after.fresh.contains(other)
                == book.fresh.contains(other) && after.displaced.contains(other)
                == book.displaced.contains(other)
        }),
{
}

/// A stamp is one step past the clock and carries the instance's own origin;
/// it becomes the parameter's known and advertised version, and no other
/// parameter is touched.
pub proof fn law_stamping_concerns_one_parameter(book: Book, id: u32, other: u32)
    ensures
        ({
            let after = book.stamped(id);
            let stamp = book.next_version();
            &&& book.clock < u64::MAX ==> stamp.0 == book.clock + 1
            &&& book.clock == u64::MAX ==> stamp.0 == 0
            &&& stamp.1 == book.origin
            &&& after.versions.contains_key(id) && after.versions[id] == stamp
            &&& after.fresh.contains(id) && !after.displaced.contains(id)
            &&& after.clock == stamp.0 && after.origin == book.origin
            &&& other != id ==> after.versions.contains_key(other) == book.versions.contains_key(
                other,
            ) && after.versions[other] == book.versions[other] && after.fresh.contains(other)
                == book.fresh.contains(other) && after.displaced.contains(other)
                == book.displaced.contains(other)
        }),
{
}

/// A change without a version displaces a versioned value and nothing else; a
/// change with one is recorded exactly if it wins.
pub proof fn law_offers_are_recorded_or_displace(
    book: Book,
    id: u32,
    version: Version,
    other: u32,
)
    ensures
        book.wins(id, version) ==> book.offered(id, Some(version)) == book.recorded(id, version),
        !book.wins(id, version) ==> book.offered(id, Some(version)) == book,
        book.offered(id, None) == book.overridden(id),
        book.overridden(id).versions == book.versions,
        book.overridden(id).fresh == book.fresh,
        book.overridden(id).clock == book.clock,
        book.overridden(id).origin == book.origin,
        book.overridden(id).displaced.contains(other) <==> book.displaced.contains(other) || (other
            == id && book.versions.contains_key(id)),
{
}

/// A load leaves nothing advertised and nothing displaced, a rewrite does so
/// for one parameter; neither forgets a version or moves the clock.
pub proof fn law_loads_and_rewrites_keep_the_versions(book: Book, id: u32, other: u32)
    ensures
        book.reloaded().versions == book.versions,
        book.reloaded().clock == book.clock,
        book.reloaded().origin == book.origin,
        !book.reloaded().fresh.contains(other),
        !book.reloaded().displaced.contains(other),
        book.rewritten(id).versions == book.versions,
        book.rewritten(id).clock == book.clock,
        book.rewritten(id).origin == book.origin,
        book.rewritten(id).fresh.contains(other) <==> book.fresh.contains(other) && other != id,
        book.rewritten(id).displaced.contains(other) <==> book.displaced.contains(other) && other
            != id,
{
}

/// The known version is the recorded one, and it is advertised exactly if it is
/// fresh and not displaced.
pub proof fn law_what_is_known_and_advertised(book: Book, id: u32, version: Version)
    ensures
        book.known(id) == Some(version) <==> book.versions.contains_key(id) && book.versions[id]
            == version,
        book.known(id) is None <==> !book.versions.contains_key(id),
        book.advertised(id) == Some(version) <==> book.fresh.contains(id)
            && !book.displaced.contains(id) && book.versions.contains_key(id) && book.versions[id]
            == version,
        book.advertised(id) is None <==> !book.fresh.contains(id) || book.displaced.contains(id)
            || !book.versions.contains_key(id),
{
}

/// An origin holds the process in its upper half and the serial number in its
/// lower half.
pub proof fn law_origins_hold_process_and_serial(process: u32, serial: u64)
    requires
        serial <= u32::MAX,
    ensures
        origin_of(process, serial) == process * 0x1_0000_0000 + serial,
{
    let high = process as u64;
    assert((high << 32) | serial == high * 0x1_0000_0000 + serial) by (bit_vector)
        requires
            high <= 0xffff_ffffu64,
            serial <= 0xffff_ffffu64,
    ;
}

/// A serial number past the lower half spills into the upper one, bit by bit,
/// and the lower half is the serial number's own.
pub proof fn law_origins_join_their_bits(process: u32, serial: u64)
    ensures
        origin_of(process, serial) & 0xffff_ffff == serial & 0xffff_ffff,
        origin_of(process, serial) >> 32 == (process as u64) | (serial >> 32),
{
    let high = process as u64;
    assert(((high << 32) | serial) & 0xffff_ffff == serial & 0xffff_ffff && ((high << 32) | serial)
        >> 32 == high | (serial >> 32)) by (bit_vector)
        requires
            high <= 0xffff_ffffu64,
    ;
}

} // verus!
