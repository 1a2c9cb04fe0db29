//! Reversible state: every value that the search must restore on backtrack lives
//! here, in a store kept by `search_trail`.
use vstd::prelude::*;
use search_trail::{BoolManager, OptionBoolManager, SaveAndRestore, UsizeManager};

verus! {

/// A value held in the store.
#[derive(Clone, Copy, PartialEq, Eq, Debug)]
pub enum Slot {
    Usize(usize),
    Bool(bool),
    OptionBool(Option<bool>),
}

/// Handle of a reversible `usize`: its position in the store.
#[derive(Clone, Copy, PartialEq, Eq, Debug)]
pub struct UsizeId(pub usize);

/// Handle of a reversible `bool`: its position in the store.
#[derive(Clone, Copy, PartialEq, Eq, Debug)]
pub struct BoolId(pub usize);

/// Handle of a reversible `Option<bool>`: its position in the store.
#[derive(Clone, Copy, PartialEq, Eq, Debug)]
pub struct OptionBoolId(pub usize);

#[verifier::external_type_specification]
#[verifier::external_body]
pub struct ExStateManager(search_trail::StateManager);

#[verifier::external_type_specification]
#[verifier::external_body]
pub struct ExReversibleUsize(search_trail::ReversibleUsize);

#[verifier::external_type_specification]
#[verifier::external_body]
pub struct ExReversibleBool(search_trail::ReversibleBool);

#[verifier::external_type_specification]
#[verifier::external_body]
pub struct ExReversibleOptionBool(search_trail::ReversibleOptionBool);

/// The handle that `search_trail` gave for one managed value.
enum Handle {
    Usize(search_trail::ReversibleUsize),
    Bool(search_trail::ReversibleBool),
    OptionBool(search_trail::ReversibleOptionBool),
}

/// The store of reversible values. It holds a `search_trail::StateManager`
/// and, for each value it manages, the handle that manager gave out, so that
/// values are found again by their position. The handles of `search_trail` keep
/// their index private, which is why the store is opaque to the verifier and
/// described through `managed_values` and `saved_states`.
#[verifier::external_body]
pub struct Trail {
    manager: search_trail::StateManager,
    handles: std::vec::Vec<Handle>,
}

/// The values that the store holds, by position.
pub uninterp spec fn managed_values(s: Trail) -> Seq<Slot>;

/// The values at each `save_state` not yet undone, oldest first.
pub uninterp spec fn saved_states(s: Trail) -> Seq<Seq<Slot>>;

/// Same position and same kind of value.
pub open spec fn same_kind(a: Slot, b: Slot) -> bool {
    match (a, b) {
        (Slot::Usize(_), Slot::Usize(_)) => true,
        (Slot::Bool(_), Slot::Bool(_)) => true,
        (Slot::OptionBool(_), Slot::OptionBool(_)) => true,
        _ => false,
    }
}

impl Trail {
    pub open spec fn values(&self) -> Seq<Slot> {
        managed_values(*self)
    }

    pub open spec fn saved(&self) -> Seq<Seq<Slot>> {
        saved_states(*self)
    }

    pub open spec fn is_usize(&self, id: UsizeId) -> bool {
        id.0 < self.values().len() && self.values()[id.0 as int] is Usize
    }

    pub open spec fn is_bool(&self, id: BoolId) -> bool {
        id.0 < self.values().len() && self.values()[id.0 as int] is Bool
    }

    pub open spec fn is_option_bool(&self, id: OptionBoolId) -> bool {
        id.0 < self.values().len() && self.values()[id.0 as int] is OptionBool
    }

    pub open spec fn usize_at(&self, id: UsizeId) -> usize {
        self.values()[id.0 as int]->Usize_0
    }

    pub open spec fn bool_at(&self, id: BoolId) -> bool {
        self.values()[id.0 as int]->Bool_0
    }

    pub open spec fn option_bool_at(&self, id: OptionBoolId) -> Option<bool> {
        self.values()[id.0 as int]->OptionBool_0
    }

    /// `self` is `before` with its values saved.
    pub open spec fn saved_from(&self, before: Trail) -> bool {
        &&& self.values() == before.values()
        &&& self.saved() == before.saved().push(before.values())
    }

    /// `self` is what restoring `before` may give: the last saved state is
    /// dropped, every value that existed at that save gets back what it held,
    /// and the values managed since keep their kind.
    pub open spec fn restored_from(&self, before: Trail) -> bool {
        &&& self.saved() == before.saved().drop_last()
        &&& self.values().len() == before.values().len()
        &&& forall|i: int| 0 <= i < before.saved().last().len()
            ==> #[trigger] self.values()[i] == before.saved().last()[i]
        &&& forall|i: int| 0 <= i < before.values().len()
            ==> same_kind(#[trigger] self.values()[i], before.values()[i])
    }

    /// An empty store (`search_trail::StateManager::default`).
    #[verifier::external_body]
    pub fn new() -> (s: Trail)
        ensures
            managed_values(s) == Seq::<Slot>::empty(),
            saved_states(s) == Seq::<Seq<Slot>>::empty(),
    {
        Trail { manager: search_trail::StateManager::default(), handles: std::vec::Vec::new() }
    }

    /// Manages a new `usize` (`UsizeManager::manage_usize`): it is appended.
    #[verifier::external_body]
    pub fn manage_usize(&mut self, value: usize) -> (id: UsizeId)
        ensures
            id.0 == old(self).values().len(),
            final(self).values() == old(self).values().push(Slot::Usize(value)),
            final(self).saved() == old(self).saved(),
    {
        let id = self.handles.len();
        self.handles.push(Handle::Usize(self.manager.manage_usize(value)));
        UsizeId(id)
    }

    /// Reads a `usize` (`UsizeManager::get_usize`).
    #[verifier::external_body]
    pub fn get_usize(&self, id: UsizeId) -> (value: usize)
        requires
            self.is_usize(id),
        ensures
            value == self.usize_at(id),
    {
        match self.handles[id.0] {
            Handle::Usize(h) => self.manager.get_usize(h),
            _ => 0,
        }
    }

    /// Writes a `usize` (`UsizeManager::set_usize`), which returns the new value.
    #[verifier::external_body]
    pub fn set_usize(&mut self, id: UsizeId, value: usize) -> (r: usize)
        requires
            old(self).is_usize(id),
        ensures
            r == value,
            final(self).values() == old(self).values().update(id.0 as int, Slot::Usize(value)),
            final(self).saved() == old(self).saved(),
    {
        match self.handles[id.0] {
            Handle::Usize(h) => self.manager.set_usize(h, value),
            _ => value,
        }
    }

    /// Manages a new `bool` (`BoolManager::manage_bool`): it is appended.
    #[verifier::external_body]
    pub fn manage_bool(&mut self, value: bool) -> (id: BoolId)
        ensures
            id.0 == old(self).values().len(),
            final(self).values() == old(self).values().push(Slot::Bool(value)),
            final(self).saved() == old(self).saved(),
    {
        let id = self.handles.len();
        self.handles.push(Handle::Bool(self.manager.manage_bool(value)));
        BoolId(id)
    }

    /// Reads a `bool` (`BoolManager::get_bool`).
    #[verifier::external_body]
    pub fn get_bool(&self, id: BoolId) -> (value: bool)
        requires
            self.is_bool(id),
        ensures
            value == self.bool_at(id),
    {
        match self.handles[id.0] {
            Handle::Bool(h) => self.manager.get_bool(h),
            _ => false,
        }
    }

    /// Writes a `bool` (`BoolManager::set_bool`), which returns the new value.
    #[verifier::external_body]
    pub fn set_bool(&mut self, id: BoolId, value: bool) -> (r: bool)
        requires
            old(self).is_bool(id),
        ensures
            r == value,
            final(self).values() == old(self).values().update(id.0 as int, Slot::Bool(value)),
            final(self).saved() == old(self).saved(),
    {
        match self.handles[id.0] {
            Handle::Bool(h) => self.manager.set_bool(h, value),
            _ => value,
        }
    }

    /// Manages a new `Option<bool>` (`OptionBoolManager::manage_option_bool`): it is appended.
    #[verifier::external_body]
    pub fn manage_option_bool(&mut self, value: Option<bool>) -> (id: OptionBoolId)
        ensures
            id.0 == old(self).values().len(),
            final(self).values() == old(self).values().push(Slot::OptionBool(value)),
            final(self).saved() == old(self).saved(),
    {
        let id = self.handles.len();
        self.handles.push(Handle::OptionBool(self.manager.manage_option_bool(value)));
        OptionBoolId(id)
    }

    /// Reads an `Option<bool>` (`OptionBoolManager::get_option_bool`).
    #[verifier::external_body]
    pub fn get_option_bool(&self, id: OptionBoolId) -> (value: Option<bool>)
        requires
            self.is_option_bool(id),
        ensures
            value == self.option_bool_at(id),
    {
        match self.handles[id.0] {
            Handle::OptionBool(h) => self.manager.get_option_bool(h),
            _ => None,
        }
    }

    /// Sets an `Option<bool>` to `Some(value)` (`OptionBoolManager::set_option_bool`),
    /// which returns `value`.
    #[verifier::external_body]
    pub fn set_option_bool(&mut self, id: OptionBoolId, value: bool) -> (r: bool)
        requires
            old(self).is_option_bool(id),
        ensures
            r == value,
            final(self).values() == old(self).values().update(id.0 as int, Slot::OptionBool(Some(value))),
            final(self).saved() == old(self).saved(),
    {
        match self.handles[id.0] {
            Handle::OptionBool(h) => self.manager.set_option_bool(h, value),
            _ => value,
        }
    }

    /// Saves the current values (`SaveAndRestore::save_state`).
    #[verifier::external_body]
    pub fn save_state(&mut self)
        ensures
            final(self).saved_from(*old(self)),
    {
        self.manager.save_state()
    }

    /// Undoes the last `save_state` (`SaveAndRestore::restore_state`): every value
    /// that existed at that save gets back the value it had then; the values
    /// managed since keep their kind, and what they hold is left unsaid, as the
    /// trail of `search_trail` may give them any of their earlier values.
    #[verifier::external_body]
    pub fn restore_state(&mut self)
        requires
            old(self).saved().len() > 0,
        ensures
            final(self).restored_from(*old(self)),
    {
        self.manager.restore_state()
    }
}

/// A restore undoes what was done to the values since the save it matches: when
/// nothing in between saved or restored, every value that existed at the save
/// holds again what it held then, and the saved states are those from before.
pub proof fn law_restore_undoes_save(s0: Trail, s1: Trail, s2: Trail, s3: Trail)
    requires
        s1.saved_from(s0),
        s2.saved() == s1.saved(),
        s2.values().len() >= s1.values().len(),
        s3.restored_from(s2),
    ensures
        s3.saved() == s0.saved(),
        s3.values().len() == s2.values().len(),
        forall|i: int| 0 <= i < s0.values().len() ==> #[trigger] s3.values()[i] == s0.values()[i],
{
    assert(s2.saved().last() == s0.values());
    assert(s3.saved() =~= s0.saved());
}

} // verus!
