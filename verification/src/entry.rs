//! Entries tracked by [`VecProgress`](crate::progress::VecProgress).

use vstd::prelude::*;
use crate::node_id::NodeId;
use crate::display_id::DisplayId;
use crate::encoding::{append_decimal, dec_text};

verus! {

/// An entry of a progress tracker: a node ID, an ordered progress value,
/// and whatever else the application keeps beside them.
pub trait VecProgressEntry: Sized {
    /// The node ID type.
    type Id: NodeId;

    /// The node ID of this entry, by its view.
    spec fn entry_id(&self) -> <Self::Id as View>::V;

    /// The progress value of this entry.
    spec fn entry_progress(&self) -> u64;

    /// This entry with its progress set to `p` and everything else kept.
    spec fn with_progress(&self, p: u64) -> Self;

    /// Setting the progress keeps the ID, and setting it to the current one
    /// keeps the entry.
    proof fn lemma_with_progress(&self, p: u64)
        ensures
            self.with_progress(p).entry_id() == self.entry_id(),
            self.with_progress(p).entry_progress() == p,
            self.with_progress(self.entry_progress()) == *self,
    ;

    /// Returns the node ID.
    fn id(&self) -> (r: &Self::Id)
        ensures
            r@ == self.entry_id(),
    ;

    /// Returns the progress value.
    fn progress(&self) -> (r: &u64)
        ensures
            *r == self.entry_progress(),
    ;

    /// Returns the progress value for update; the ID stays as it is.
    fn progress_mut(&mut self) -> (r: &mut u64)
        ensures
            *r == old(self).entry_progress(),
            *final(self) == old(self).with_progress(*final(r)),
    ;
}

/// An entry that also holds application-owned data.
pub trait VecProgressEntryData: VecProgressEntry {
    /// The application-owned data.
    type Data;

    /// The data of this entry.
    spec fn entry_data(&self) -> Self::Data;

    /// Returns the data.
    fn data(&self) -> (r: &Self::Data)
        ensures
            *r == self.entry_data(),
    ;

    /// Returns the data for update; the ID and the progress stay as they
    /// are.
    fn data_mut(&mut self) -> (r: &mut Self::Data)
        ensures
            *r == old(self).entry_data(),
            final(self).entry_data() == *final(r),
            final(self).entry_id() == old(self).entry_id(),
            final(self).entry_progress() == old(self).entry_progress(),
    ;
}

/// An ID and its associated value.
#[derive(Clone, Debug, PartialEq, Eq)]
pub struct IdVal<ID, Val> {
    /// Node ID.
    pub id: ID,
    /// Associated progress value.
    pub val: Val,
}

impl<ID, Val> IdVal<ID, Val> {
    /// Creates an [`IdVal`] with the given ID and value.
    pub fn new(id: ID, val: Val) -> (r: Self)
        ensures
            r.id == id,
            r.val == val,
    {
        IdVal { id, val }
    }
}

impl<ID> IdVal<ID, u64> {
    /// Creates an [`IdVal`] with the given ID and the default value `0`.
    pub fn new_default(id: ID) -> (r: Self)
        ensures
            r.id == id,
            r.val == 0,
    {
        Self::new(id, 0)
    }
}

impl<ID: NodeId> VecProgressEntry for IdVal<ID, u64> {
    type Id = ID;

    open spec fn entry_id(&self) -> ID::V {
        self.id@
    }

    open spec fn entry_progress(&self) -> u64 {
        self.val
    }

    open spec fn with_progress(&self, p: u64) -> Self {
        IdVal { id: self.id, val: p }
    }

    proof fn lemma_with_progress(&self, p: u64) {
    }

    fn id(&self) -> (r: &ID) {
        &self.id
    }

    fn progress(&self) -> (r: &u64) {
        &self.val
    }

    fn progress_mut(&mut self) -> (r: &mut u64) {
        &mut self.val
    }
}

/// The text of an ID and its value: the ID's text, `": "`, then the value
/// in decimal.
pub open spec fn id_val_text<ID: DisplayId>(id: ID::V, val: u64) -> Seq<char> {
    ID::text_of(id) + ": "@ + dec_text(val as nat)
}

impl<ID: DisplayId> IdVal<ID, u64> {
    /// The text form `"<id>: <val>"`.
    pub fn display(&self) -> (r: String)
        ensures
            r@ == id_val_text::<ID>(self.id@, self.val),
    {
        let mut out = String::new();
        self.id.append_text(&mut out);
        out.append(": ");
        append_decimal(&mut out, self.val);
        assert(out@ =~= id_val_text::<ID>(self.id@, self.val));
        out
    }
}

/// A pair of a node ID and its progress value.
impl VecProgressEntry for (u64, u64) {
    type Id = u64;

    open spec fn entry_id(&self) -> u64 {
        self.0
    }

    open spec fn entry_progress(&self) -> u64 {
        self.1
    }

    open spec fn with_progress(&self, p: u64) -> Self {
        (self.0, p)
    }

    proof fn lemma_with_progress(&self, p: u64) {
    }

    fn id(&self) -> (r: &u64) {
        &self.0
    }

    fn progress(&self) -> (r: &u64) {
        &self.1
    }

    fn progress_mut(&mut self) -> (r: &mut u64) {
        &mut self.1
    }
}

/// A node ID, its progress value and application data.
impl<D> VecProgressEntry for (u64, u64, D) {
    type Id = u64;

    open spec fn entry_id(&self) -> u64 {
        self.0
    }

    open spec fn entry_progress(&self) -> u64 {
        self.1
    }

    open spec fn with_progress(&self, p: u64) -> Self {
        (self.0, p, self.2)
    }

    proof fn lemma_with_progress(&self, p: u64) {
    }

    fn id(&self) -> (r: &u64) {
        &self.0
    }

    fn progress(&self) -> (r: &u64) {
        &self.1
    }

    fn progress_mut(&mut self) -> (r: &mut u64) {
        &mut self.1
    }
}

/// The third element is the application data.
impl<D> VecProgressEntryData for (u64, u64, D) {
    type Data = D;

    open spec fn entry_data(&self) -> D {
        self.2
    }

    fn data(&self) -> (r: &D) {
        &self.2
    }

    fn data_mut(&mut self) -> (r: &mut D) {
        &mut self.2
    }
}

} // verus!
