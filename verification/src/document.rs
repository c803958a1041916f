use vstd::prelude::*;

verus! {

/// The key under which a document is stored.
#[derive(Debug, Clone, Copy, PartialEq, Eq, Hash, Structural)]
pub struct DocumentId(pub u64);

impl DocumentId {
    /// The number this id stands for.
    pub fn value(&self) -> (v: u64)
        ensures
            v == self.0,
    {
        self.0
    }
}

/// A stored document: an id and its text.
#[derive(Debug, Clone)]
pub struct Document {
    id: DocumentId,
    pub content: String,
}

impl Document {
    /// The id of this document.
    pub closed spec fn spec_id(&self) -> DocumentId {
        self.id
    }

    /// The text of this document.
    pub closed spec fn spec_content(&self) -> Seq<char> {
        self.content@
    }

    pub fn new(id: DocumentId, content: String) -> (d: Self)
        ensures
            d.spec_id() == id,
            d.spec_content() == content@,
    {
        Document { id, content }
    }

    pub fn id(&self) -> (i: DocumentId)
        ensures
            i == self.spec_id(),
    {
        self.id
    }

    /// The text of this document, for code outside this module.
    pub fn content(&self) -> (c: &String)
        ensures
            c@ == self.spec_content(),
    {
        &self.content
    }
}

} // verus!
