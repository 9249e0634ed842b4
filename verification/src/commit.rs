use vstd::prelude::*;

verus! {

/// One commit of the backend's history: its hash and its full message.
#[derive(Debug)]
pub struct Commit {
    hash: String,
    message: String,
}

impl Commit {
    pub closed spec fn spec_hash(&self) -> Seq<char> {
        self.hash@
    }

    pub closed spec fn spec_message(&self) -> Seq<char> {
        self.message@
    }

    pub fn new(hash: &str, message: &str) -> (r: Self)
        ensures
            r.spec_hash() == hash@,
            r.spec_message() == message@,
    {
        Self { hash: hash.to_owned(), message: message.to_owned() }
    }

    pub fn get_hash(&self) -> (r: &String)
        ensures
            r@ == self.spec_hash(),
    {
        &self.hash
    }

    pub fn get_message(&self) -> (r: &String)
        ensures
            r@ == self.spec_message(),
    {
        &self.message
    }
}

impl Clone for Commit {
    fn clone(&self) -> (r: Self)
        ensures
            r.spec_hash() == self.spec_hash(),
            r.spec_message() == self.spec_message(),
    {
        Commit { hash: self.hash.clone(), message: self.message.clone() }
    }
}

/// Two commits are the same commit when their hashes agree; the message is
/// carried content, not identity.
impl PartialEq for Commit {
    fn eq(&self, other: &Self) -> (r: bool) {
        self.hash == other.hash
    }
}

impl vstd::std_specs::cmp::PartialEqSpecImpl for Commit {
    open spec fn obeys_eq_spec() -> bool {
        true
    }

    open spec fn eq_spec(&self, other: &Self) -> bool {
        self.spec_hash() == other.spec_hash()
    }
}

} // verus!
