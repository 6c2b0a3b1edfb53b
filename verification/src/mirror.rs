//! A mirror of every parameter value, so that readers never touch the
//! processor.
use vstd::prelude::*;

use crate::params::ParamDef;

verus! {

/// Where the first entry with this id is.
pub open spec fn entry_index(entries: Seq<(u32, u64)>, id: u32) -> Option<int>
    decreases entries.len(),
{
    if entries.len() == 0 {
        None
    } else if entry_index(entries.drop_last(), id) is Some {
        entry_index(entries.drop_last(), id)
    } else if entries.last().0 == id {
        Some(entries.len() - 1)
    } else {
        None
    }
}

/// The entries after one value was published; an unknown id changes nothing.
pub open spec fn published(entries: Seq<(u32, u64)>, id: u32, value: u64) -> Seq<(u32, u64)> {
    match entry_index(entries, id) {
        Some(i) => entries.update(i, (id, value)),
        None => entries,
    }
}

/// The entries after a batch was published, in order.
pub open spec fn published_all(entries: Seq<(u32, u64)>, changes: Seq<(u32, u64)>) -> Seq<
    (u32, u64),
>
    decreases changes.len(),
{
    if changes.len() == 0 {
        entries
    } else {
        let last = changes.last();
        published(published_all(entries, changes.drop_last()), last.0, last.1)
    }
}

/// The ids of the entries.
pub open spec fn entry_ids(entries: Seq<(u32, u64)>) -> Seq<u32> {
    Seq::new(entries.len(), |i: int| entries[i].0)
}

/// The first position that holds the id, if any does.
pub proof fn lemma_entry_index(entries: Seq<(u32, u64)>, id: u32)
    ensures
        match entry_index(entries, id) {
            Some(i) => 0 <= i < entries.len() && entries[i].0 == id && forall|j: int|
                0 <= j < i ==> (#[trigger] entries[j]).0 != id,
            None => forall|j: int| 0 <= j < entries.len() ==> (#[trigger] entries[j]).0 != id,
        },
    decreases entries.len(),
{
    if entries.len() > 0 {
        let rest = entries.drop_last();
        lemma_entry_index(rest, id);
        match entry_index(rest, id) {
            Some(i) => {
                assert(entries[i] == rest[i]);
                assert forall|j: int| 0 <= j < i implies (#[trigger] entries[j]).0 != id by {
                    assert(rest[j].0 != id);
                }
            },
            None => {
                assert forall|j: int| 0 <= j < rest.len() implies (#[trigger] entries[j]).0
                    != id by {
                    assert(rest[j].0 != id);
                }
            },
        }
    }
}

/// Publishing changes no id and no position.
pub proof fn lemma_published_ids(entries: Seq<(u32, u64)>, id: u32, value: u64)
    ensures
        published(entries, id, value).len() == entries.len(),
        entry_ids(published(entries, id, value)) == entry_ids(entries),
{
    lemma_entry_index(entries, id);
    assert(entry_ids(published(entries, id, value)) =~= entry_ids(entries));
}

/// The same ids give the same positions.
pub proof fn lemma_index_by_ids(a: Seq<(u32, u64)>, b: Seq<(u32, u64)>, id: u32)
    requires
        entry_ids(a) == entry_ids(b),
    ensures
        entry_index(a, id) == entry_index(b, id),
    decreases a.len(),
{
    assert(a.len() == entry_ids(a).len());
    assert(b.len() == entry_ids(b).len());
    if a.len() > 0 {
        let n = a.len() - 1;
        assert(entry_ids(a)[n] == a[n].0);
        assert(entry_ids(b)[n] == b[n].0);
        assert(entry_ids(a.drop_last()) =~= entry_ids(a).drop_last());
        assert(entry_ids(b.drop_last()) =~= entry_ids(b).drop_last());
        lemma_index_by_ids(a.drop_last(), b.drop_last(), id);
    }
}

/// What reading one id gives.
pub open spec fn entry_value(entries: Seq<(u32, u64)>, id: u32) -> Option<u64> {
    match entry_index(entries, id) {
        Some(i) => Some(entries[i].1),
        None => None,
    }
}

/// A read gives back what was last published under that id, and publishing
/// leaves every other id's value alone.
pub proof fn law_read_gives_back_the_published_value(
    entries: Seq<(u32, u64)>,
    id: u32,
    value: u64,
    other: u32,
)
    ensures
        entry_value(entries, id) is Some ==> entry_value(published(entries, id, value), id)
            == Some(value),
        entry_value(entries, id) is None ==> published(entries, id, value) == entries,
        other != id ==> entry_value(published(entries, id, value), other) == entry_value(
            entries,
            other,
        ),
{
    lemma_published_ids(entries, id, value);
    lemma_index_by_ids(published(entries, id, value), entries, id);
    lemma_index_by_ids(published(entries, id, value), entries, other);
    lemma_entry_index(entries, id);
    lemma_entry_index(entries, other);
}

/// What a reader does after copying the values out from under a publisher.
#[derive(Clone, Copy, PartialEq, Eq, Structural, Debug)]
pub enum SnapshotVerdict {
    /// No publish raced: the copy is consistent.
    Consistent,
    /// A publish raced: copy again.
    Retry,
    /// The publisher is dead rather than slow: take the torn copy.
    GiveUp,
}

/// How often a racing snapshot is retried.
pub const SNAPSHOT_RETRIES: u32 = 1_000_000;

/// Judge a copy taken between reading the generation as `before` and as
/// `after`, once `retries` copies have failed already. The generation is odd
/// while a publish is in flight.
pub fn judge_snapshot(before: u64, after: u64, retries: u32) -> (r: SnapshotVerdict)
    ensures
        r == (if before % 2 == 0 && before == after {
            SnapshotVerdict::Consistent
        } else if retries >= SNAPSHOT_RETRIES {
            SnapshotVerdict::GiveUp
        } else {
            SnapshotVerdict::Retry
        }),
{
    if before % 2 == 0 && before == after {
        SnapshotVerdict::Consistent
    } else if retries >= SNAPSHOT_RETRIES {
        SnapshotVerdict::GiveUp
    } else {
        SnapshotVerdict::Retry
    }
}

/// What a reader could see at one moment.
pub ghost struct Moment {
    /// The generation.
    pub generation: nat,
    /// The entries.
    pub entries: Seq<(u32, u64)>,
}

/// One step of the publisher: a publish begins, stores, or ends. Entries
/// change only while one is in flight.
pub open spec fn publisher_step(a: Moment, b: Moment) -> bool {
    ||| a == b
    ||| b.generation == a.generation + 1 && b.entries == a.entries
    ||| a.generation % 2 == 1 && b.generation == a.generation && b.entries.len() == a.entries.len()
}

/// A run of the publisher.
pub open spec fn publisher_run(history: Seq<Moment>) -> bool {
    forall|i: int| 0 <= i < history.len() - 1 ==> publisher_step(#[trigger] history[i], history[i + 1])
}

proof fn lemma_generations_rise(history: Seq<Moment>, i: int, j: int)
    requires
        publisher_run(history),
        0 <= i <= j < history.len(),
    ensures
        history[i].generation <= history[j].generation,
        history[i].generation % 2 == 0 && history[i].generation == history[j].generation
            ==> history[i].entries == history[j].entries,
    decreases j - i,
{
    if i < j {
        lemma_generations_rise(history, i, j - 1);
        assert(publisher_step(history[j - 1], history[j]));
    }
}

/// A copy that is judged consistent is untorn: whenever its values were read
/// between the two readings of the generation, and whatever the publisher did
/// meanwhile, it is what the mirror held at one moment.
pub proof fn law_consistent_snapshots_are_untorn(
    history: Seq<Moment>,
    from: int,
    to: int,
    read_at: Seq<int>,
    copy: Seq<(u32, u64)>,
)
    requires
        publisher_run(history),
        0 <= from <= to < history.len(),
        history[from].generation % 2 == 0,
        history[from].generation == history[to].generation,
        copy.len() == history[from].entries.len(),
        read_at.len() == copy.len(),
        forall|k: int|
            0 <= k < copy.len() ==> from <= #[trigger] read_at[k] <= to && copy[k]
                == history[read_at[k]].entries[k],
    ensures
        copy == history[from].entries,
{
    assert forall|k: int| 0 <= k < copy.len() implies copy[k] == history[from].entries[k] by {
        lemma_generations_rise(history, from, read_at[k]);
        lemma_generations_rise(history, read_at[k], to);
    }
    assert(copy =~= history[from].entries);
}

/// A mirror of every declared parameter's value.
#[derive(Debug)]
pub struct ParamMirror {
    entries: Vec<(u32, u64)>,
    generation: u64,
}

impl View for ParamMirror {
    type V = Seq<(u32, u64)>;

    closed spec fn view(&self) -> Seq<(u32, u64)> {
        self.entries@
    }
}

impl ParamMirror {
    /// How often the mirror was published to, counted in twos and wrapping.
    pub closed spec fn generation(&self) -> u64 {
        self.generation
    }

    /// No publish is in flight.
    pub closed spec fn wf(&self) -> bool {
        self.generation % 2 == 0
    }

    /// One slot per declared parameter, each starting at `initial(id)`.
    pub fn new(defs: &[ParamDef], initial: impl Fn(u32) -> u64) -> (r: Self)
        requires
            forall|i: int| 0 <= i < defs@.len() ==> call_requires(initial, (#[trigger] defs@[i].id,)),
        ensures
            r.wf(),
            r@.len() == defs@.len(),
            forall|i: int|
                0 <= i < defs@.len() ==> (#[trigger] r@[i]).0 == defs@[i].id && call_ensures(
                    initial,
                    (defs@[i].id,),
                    r@[i].1,
                ),
    {
        let mut entries: Vec<(u32, u64)> = Vec::with_capacity(defs.len());
        let mut i: usize = 0;
        while i < defs.len()
            invariant
                i <= defs.len(),
                entries@.len() == i,
                forall|k: int|
                    0 <= k < defs@.len() ==> call_requires(initial, (#[trigger] defs@[k].id,)),
                forall|k: int|
                    0 <= k < i ==> (#[trigger] entries@[k]).0 == defs@[k].id && call_ensures(
                        initial,
                        (defs@[k].id,),
                        entries@[k].1,
                    ),
            decreases defs.len() - i,
        {
            let id: u32 = defs[i].id;
            let value: u64 = initial(id);
            entries.push((id, value));
            i += 1;
        }
        ParamMirror { entries, generation: 0 }
    }

    fn index_of(&self, id: u32) -> (r: Option<usize>)
        ensures
            match r {
                Some(i) => entry_index(self@, id) == Some(i as int) && i < self.entries@.len(),
                None => entry_index(self@, id) is None,
            },
    {
        proof {
            lemma_entry_index(self.entries@, id);
        }
        let mut i: usize = 0;
        while i < self.entries.len()
            invariant
                i <= self.entries.len(),
                forall|j: int| 0 <= j < i ==> (#[trigger] self.entries@[j]).0 != id,
                match entry_index(self.entries@, id) {
                    Some(k) => 0 <= k < self.entries@.len() && self.entries@[k].0 == id && forall|
                        j: int,
                    |
                        0 <= j < k ==> (#[trigger] self.entries@[j]).0 != id,
                    None => forall|j: int|
                        0 <= j < self.entries@.len() ==> (#[trigger] self.entries@[j]).0 != id,
                },
            decreases self.entries.len() - i,
        {
            if self.entries[i].0 == id {
                return Some(i);
            }
            i += 1;
        }
        None
    }

    fn store(&mut self, id: u32, value: u64)
        ensures
            final(self)@ == published(old(self)@, id, value),
            final(self).generation == old(self).generation,
    {
        if let Some(i) = self.index_of(id) {
            self.entries[i] = (id, value);
        }
    }

    /// Publish one value. An unknown id is ignored.
    pub fn publish(&mut self, id: u32, value: u64)
        requires
            old(self).wf(),
        ensures
            final(self).wf(),
            final(self)@ == published(old(self)@, id, value),
            final(self).generation() != old(self).generation(),
    {
        self.generation = self.generation.wrapping_add(2);
        self.store(id, value);
    }

    /// Publish a batch under one generation, in order.
    pub fn publish_all(&mut self, changes: &[(u32, u64)])
        requires
            old(self).wf(),
        ensures
            final(self).wf(),
            final(self)@ == published_all(old(self)@, changes@),
            final(self).generation() != old(self).generation(),
    {
        self.generation = self.generation.wrapping_add(2);
        let mut i: usize = 0;
        while i < changes.len()
            invariant
                i <= changes.len(),
                self.wf(),
                self.generation != old(self).generation,
                self@ == published_all(old(self)@, changes@.take(i as int)),
            decreases changes.len() - i,
        {
            proof {
                assert(changes@.take(i + 1).drop_last() =~= changes@.take(i as int));
            }
            self.store(changes[i].0, changes[i].1);
            i += 1;
        }
        proof {
            assert(changes@.take(i as int) =~= changes@);
        }
    }

    /// Read one value. Unknown ids give `None`.
    pub fn get(&self, id: u32) -> (r: Option<u64>)
        ensures
            r == entry_value(self@, id),
    {
        match self.index_of(id) {
            Some(i) => Some(self.entries[i].1),
            None => None,
        }
    }

    /// Every id with its value.
    pub fn snapshot(&self) -> (r: Vec<(u32, u64)>)
        ensures
            r@ == self@,
    {
        let mut out: Vec<(u32, u64)> = Vec::with_capacity(self.entries.len());
        let mut i: usize = 0;
        while i < self.entries.len()
            invariant
                i <= self.entries.len(),
                out@ == self.entries@.take(i as int),
            decreases self.entries.len() - i,
        {
            out.push(self.entries[i]);
            i += 1;
        }
        proof {
            assert(self.entries@.take(i as int) =~= self.entries@);
        }
        out
    }
}

/// Publishing puts the value into the first entry of that parameter, whatever
/// the value is, and leaves every other entry alone.
pub proof fn law_publishing_changes_one_entry(
    entries: Seq<(u32, u64)>,
    id: u32,
    value: u64,
    i: int,
)
    requires
        0 <= i < entries.len(),
    ensures
        published(entries, id, value).len() == entries.len(),
        entries[i].0 == id && (forall|j: int| 0 <= j < i ==> (#[trigger] entries[j]).0 != id)
            ==> published(entries, id, value)[i] == (id, value),
        entries[i].0 != id || (exists|j: int| 0 <= j < i && (#[trigger] entries[j]).0 == id)
            ==> published(entries, id, value)[i] == entries[i],
{
    lemma_entry_index(entries, id);
}

/// Reading finds the first entry of a parameter, and only a parameter without
/// an entry reads as nothing.
pub proof fn law_reading_finds_the_first_entry(entries: Seq<(u32, u64)>, id: u32, i: int)
    ensures
        0 <= i < entries.len() && entries[i].0 == id && (forall|j: int|
            0 <= j < i ==> (#[trigger] entries[j]).0 != id) ==> entry_value(entries, id) == Some(
            entries[i].1,
        ),
        entry_value(entries, id) is None <==> (forall|j: int|
            0 <= j < entries.len() ==> (#[trigger] entries[j]).0 != id),
{
    lemma_entry_index(entries, id);
}

/// After many changes at once, the first entry of a parameter holds the last
/// value that it was given, and an entry that none of them is for is as it
/// was.
pub proof fn law_the_last_of_many_changes_stands(
    entries: Seq<(u32, u64)>,
    changes: Seq<(u32, u64)>,
    i: int,
)
    requires
        0 <= i < entries.len(),
    ensures
        published_all(entries, changes).len() == entries.len(),
        published_all(entries, changes)[i].0 == entries[i].0,
        (forall|k: int| 0 <= k < changes.len() ==> (#[trigger] changes[k]).0 != entries[i].0)
            ==> published_all(entries, changes)[i] == entries[i],
        (exists|j: int| 0 <= j < i && (#[trigger] entries[j]).0 == entries[i].0)
            ==> published_all(entries, changes)[i] == entries[i],
        forall|k: int|
            #![trigger changes[k]]
            0 <= k < changes.len() && changes[k].0 == entries[i].0 && (forall|m: int|
                k < m < changes.len() ==> (#[trigger] changes[m]).0 != entries[i].0) && (forall|
                j: int,
            |
                0 <= j < i ==> (#[trigger] entries[j]).0 != entries[i].0) ==> published_all(
                entries,
                changes,
            )[i].1 == changes[k].1,
    decreases changes.len(),
{
    if changes.len() > 0 {
        let rest = changes.drop_last();
        let last = changes.last();
        let mid = published_all(entries, rest);
        law_the_last_of_many_changes_stands(entries, rest, i);
        assert forall|j: int| 0 <= j < entries.len() implies (#[trigger] mid[j]).0
            == entries[j].0 by {
            law_the_last_of_many_changes_stands(entries, rest, j);
        }
        law_publishing_changes_one_entry(mid, last.0, last.1, i);
        assert forall|k: int| 0 <= k < rest.len() implies (#[trigger] rest[k]) == changes[k] by {}
        if exists|j: int| 0 <= j < i && (#[trigger] entries[j]).0 == entries[i].0 {
            let j = choose|j: int| 0 <= j < i && (#[trigger] entries[j]).0 == entries[i].0;
            assert(mid[j].0 == entries[i].0);
        }
        assert forall|k: int|
            #![trigger changes[k]]
            0 <= k < changes.len() && changes[k].0 == entries[i].0 && (forall|m: int|
                k < m < changes.len() ==> (#[trigger] changes[m]).0 != entries[i].0) && (forall|
                j: int,
            |
                0 <= j < i ==> (#[trigger] entries[j]).0
                    != entries[i].0) implies published_all(entries, changes)[i].1
            == changes[k].1 by {
            if k < rest.len() {
                assert(changes[changes.len() - 1].0 != entries[i].0);
                assert(rest[k].0 == entries[i].0);
                assert forall|m: int| k < m < rest.len() implies (#[trigger] rest[m]).0
                    != entries[i].0 by {
                    assert(changes[m].0 != entries[i].0);
                }
            } else {
                assert(changes[k] == last);
                assert forall|j: int| 0 <= j < i implies (#[trigger] mid[j]).0 != last.0 by {
                    assert(entries[j].0 != entries[i].0);
                }
            }
        }
        if forall|k: int| 0 <= k < changes.len() ==> (#[trigger] changes[k]).0 != entries[i].0 {
            assert(changes[changes.len() - 1].0 != entries[i].0);
            assert forall|k: int| 0 <= k < rest.len() implies (#[trigger] rest[k]).0
                != entries[i].0 by {
                assert(changes[k].0 != entries[i].0);
            }
        }
    }
}

} // verus!
