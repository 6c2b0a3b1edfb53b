//! Parameter declarations.
//!
//! Parameter values travel as the 64 bits of a double, so every value,
//! including the ones arithmetic would disturb, survives unchanged.
use vstd::prelude::*;

verus! {

/// Static metadata identifying a plugin to hosts.
#[derive(Clone, Copy, Debug)]
pub struct PluginInfo {
    /// Reverse-DNS unique id. Hosts key saved projects on it and instances
    /// find each other on the bus by it, so it never changes.
    pub id: &'static str,
    /// Display name.
    pub name: &'static str,
    /// Vendor or author name.
    pub vendor: &'static str,
    /// Version string.
    pub version: &'static str,
    /// One-line description.
    pub description: &'static str,
}

/// A single automatable parameter. With a non-empty `choices` list it is a
/// discrete one: its values are indices into the list.
#[derive(Clone, Copy, Debug)]
pub struct ParamDef {
    /// Stable id, also the key in saved state and bus messages.
    pub id: u32,
    /// Display name.
    pub name: &'static str,
    /// Lowest value of a continuous range, as bits.
    pub min: u64,
    /// Highest value of a continuous range, as bits.
    pub max: u64,
    /// Default value, as bits; an index for a discrete parameter.
    pub default: u64,
    /// Labels of a discrete parameter, empty for a continuous one.
    pub choices: &'static [&'static str],
    /// Whether instances share the value over the bus.
    pub shared: bool,
}

/// One end of a parameter's range.
#[derive(Clone, Copy, PartialEq, Eq, Structural, Debug)]
pub enum Bound {
    /// The bits of a declared value.
    Value(u64),
    /// An index into the labels.
    Index(usize),
}

impl ParamDef {
    /// Lowest legal value: index 0 for a discrete parameter.
    pub fn low(&self) -> (r: Bound)
        ensures
            r == (if self.choices@.len() == 0 {
                Bound::Value(self.min)
            } else {
                Bound::Index(0)
            }),
    {
        if self.choices.len() == 0 {
            Bound::Value(self.min)
        } else {
            Bound::Index(0)
        }
    }

    /// Highest legal value: the last index for a discrete parameter.
    pub fn high(&self) -> (r: Bound)
        ensures
            r == (if self.choices@.len() == 0 {
                Bound::Value(self.max)
            } else {
                Bound::Index((self.choices@.len() - 1) as usize)
            }),
    {
        if self.choices.len() == 0 {
            Bound::Value(self.max)
        } else {
            Bound::Index(self.choices.len() - 1)
        }
    }

    /// The label of a value that rounds to `index`. Anything out of range has
    /// no label, rather than the nearest one.
    pub fn label(&self, index: i64) -> (r: Option<&'static str>)
        ensures
            r == (if 0 <= index < self.choices@.len() {
                Some(self.choices@[index as int])
            } else {
                None
            }),
    {
        if index < 0 {
            return None;
        }
        if (index as u64) < self.choices.len() as u64 {
            Some(self.choices[index as usize])
        } else {
            None
        }
    }
}

/// The position of the first declaration with this id.
pub open spec fn param_index(defs: Seq<ParamDef>, id: u32) -> Option<int>
    decreases defs.len(),
{
    if defs.len() == 0 {
        None
    } else if param_index(defs.drop_last(), id) is Some {
        param_index(defs.drop_last(), id)
    } else if defs.last().id == id {
        Some(defs.len() - 1)
    } else {
        None
    }
}

/// Whether some declaration has this id.
pub open spec fn declares(defs: Seq<ParamDef>, id: u32) -> bool {
    exists|i: int| 0 <= i < defs.len() && (#[trigger] defs[i]).id == id
}

/// Whether some declaration has this id and is shared.
pub open spec fn shares(defs: Seq<ParamDef>, id: u32) -> bool {
    exists|i: int| 0 <= i < defs.len() && (#[trigger] defs[i]).id == id && defs[i].shared
}

/// An id has a position exactly when it is declared, the position holds it,
/// and no earlier one does.
pub proof fn lemma_param_index(defs: Seq<ParamDef>, id: u32)
    ensures
        param_index(defs, id) is Some <==> declares(defs, id),
        param_index(defs, id) matches Some(i) ==> 0 <= i < defs.len() && defs[i].id == id
            && forall|j: int| 0 <= j < i ==> (#[trigger] defs[j]).id != id,
    decreases defs.len(),
{
    if defs.len() > 0 {
        let rest = defs.drop_last();
        lemma_param_index(rest, id);
        if declares(defs, id) {
            let i = choose|i: int| 0 <= i < defs.len() && (#[trigger] defs[i]).id == id;
            if i < rest.len() {
                assert(rest[i].id == id);
            }
        }
        if let Some(i) = param_index(rest, id) {
            assert(defs[i] == rest[i]);
            assert forall|j: int| 0 <= j < i implies (#[trigger] defs[j]).id != id by {
                assert(rest[j].id != id);
            }
        } else {
            assert forall|j: int| 0 <= j < rest.len() implies (#[trigger] defs[j]).id != id by {
                assert(rest[j] == defs[j]);
            }
            if defs.last().id == id {
                assert(defs[defs.len() - 1].id == id);
            }
        }
    }
}

/// The position of the first declaration with this id.
pub fn find_param(defs: &[ParamDef], id: u32) -> (r: Option<usize>)
    ensures
        match r {
            Some(i) => param_index(defs@, id) == Some(i as int) && i < defs@.len() && defs@[i as int].id
                == id,
            None => param_index(defs@, id) is None,
        },
        r is Some <==> declares(defs@, id),
{
    proof {
        lemma_param_index(defs@, id);
    }
    let mut i: usize = 0;
    while i < defs.len()
        invariant
            i <= defs.len(),
            forall|j: int| 0 <= j < i ==> (#[trigger] defs@[j]).id != id,
            param_index(defs@, id) is Some <==> declares(defs@, id),
            param_index(defs@, id) matches Some(k) ==> 0 <= k < defs@.len() && defs@[k].id == id
                && forall|j: int| 0 <= j < k ==> (#[trigger] defs@[j]).id != id,
        decreases defs.len() - i,
    {
        if defs[i].id == id {
            return Some(i);
        }
        i += 1;
    }
    None
}

/// Whether a parameter's value travels over the bus: it is declared, and
/// declared shared.
pub fn syncs_over_bus(defs: &[ParamDef], id: u32) -> (r: bool)
    ensures
        r == shares(defs@, id),
{
    let mut i: usize = 0;
    while i < defs.len()
        invariant
            i <= defs.len(),
            forall|j: int| 0 <= j < i ==> !((#[trigger] defs@[j]).id == id && defs@[j].shared),
        decreases defs.len() - i,
    {
        if defs[i].id == id && defs[i].shared {
            return true;
        }
        i += 1;
    }
    false
}

/// A parameter is found at its first declaration, and only a parameter that
/// is not declared is not found.
pub proof fn law_parameters_are_found_where_first_declared(
    defs: Seq<ParamDef>,
    id: u32,
    i: int,
)
    ensures
        0 <= i < defs.len() && defs[i].id == id && (forall|j: int|
            0 <= j < i ==> (#[trigger] defs[j]).id != id) ==> param_index(defs, id) == Some(i),
        param_index(defs, id) is None <==> (forall|j: int|
            0 <= j < defs.len() ==> (#[trigger] defs[j]).id != id),
        0 <= i < defs.len() ==> declares(defs, defs[i].id),
        0 <= i < defs.len() && defs[i].shared ==> shares(defs, defs[i].id),
        declares(defs, id) <==> param_index(defs, id) is Some,
        shares(defs, id) ==> declares(defs, id),
        (forall|j: int| 0 <= j < defs.len() ==> !((#[trigger] defs[j]).id == id && defs[j].shared))
            ==> !shares(defs, id),
{
    lemma_param_index(defs, id);
    if 0 <= i < defs.len() {
        assert(defs[i].id == defs[i].id);
    }
}

} // verus!
