use vstd::prelude::*;

verus! {

/// What a contact entry is to the proofs: its mobile and its work number.
pub type EntryModel = (Seq<char>, Seq<char>);

/// One record of the phone book: a name and its entry.
pub type RecordModel = (Seq<char>, EntryModel);

/// What an optional entry is to the proofs.
pub open spec fn entry_opt(o: Option<PhoneEntry>) -> Option<EntryModel> {
    match o {
        Some(e) => Some(e@),
        None => None,
    }
}

/// What a list of records is to the proofs, in its order.
pub open spec fn records_model(v: Seq<(String, PhoneEntry)>) -> Seq<RecordModel> {
    v.map_values(|r: (String, PhoneEntry)| r@)
}

/// The two numbers stored for one name. Fields hold arbitrary text.
#[derive(Debug, PartialEq, Eq)]
pub struct PhoneEntry {
    pub mobile: String,
    pub work: String,
}

impl View for PhoneEntry {
    type V = EntryModel;

    open spec fn view(&self) -> EntryModel {
        (self.mobile@, self.work@)
    }
}

impl PhoneEntry {
    pub fn new(mobile: String, work: String) -> (r: PhoneEntry)
        ensures
            r@ == (mobile@, work@),
    {
        PhoneEntry { mobile, work }
    }

    /// A copy of the entry with the same text in both fields.
    pub fn duplicate(&self) -> (r: PhoneEntry)
        ensures
            r@ == self@,
    {
        PhoneEntry { mobile: self.mobile.clone(), work: self.work.clone() }
    }
}

impl Clone for PhoneEntry {
    fn clone(&self) -> (r: PhoneEntry)
        ensures
            r@ == self@,
    {
        self.duplicate()
    }
}

/// The ways a store operation can fail.
#[derive(Debug, Clone, Copy, PartialEq, Eq, Structural)]
pub enum StoreError {
    /// The backing file or database could not be opened or created.
    StorageUnavailable,
    /// A stored line is not of the form `name: mobile: work`, or is not text.
    MalformedRecord,
    /// Reading or writing failed after the store was opened.
    StorageIoFailure,
}

} // verus!
