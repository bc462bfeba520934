use vstd::prelude::*;

verus! {

/// A decoded header record: a name and the length of the payload that
/// belongs to it. It lives only while an archive is being decoded.
#[derive(Clone, PartialEq, Eq)]
pub(crate) struct TaraHeaderEntry {
    pub name: String,
    pub length: usize,
}

impl View for TaraHeaderEntry {
    type V = (Seq<char>, nat);

    open(crate) spec fn view(&self) -> (Seq<char>, nat) {
        (self.name@, self.length as nat)
    }
}

impl TaraHeaderEntry {
    /// Creates a header record with `name` and `length`.
    pub fn new(name: String, length: usize) -> (r: Self)
        ensures
            r@ == (name@, length as nat),
    {
        Self { name, length }
    }
}

/// One named byte payload of an archive.
#[derive(Clone, Debug, PartialEq, Eq)]
pub struct TaraEntry {
    pub name: String,
    pub data: Vec<u8>,
}

impl View for TaraEntry {
    /// The name's characters and the payload's bytes.
    type V = (Seq<char>, Seq<u8>);

    open spec fn view(&self) -> (Seq<char>, Seq<u8>) {
        (self.name@, self.data@)
    }
}

impl TaraEntry {
    /// Creates an entry with `name` and `data`; neither is validated.
    pub fn new(name: String, data: Vec<u8>) -> (r: Self)
        ensures
            r@ == (name@, data@),
    {
        Self { name, data }
    }
}

} // verus!
