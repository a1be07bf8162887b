use vstd::prelude::*;

verus! {

/// The minting policy a registry was created with: keys are either assigned
/// from a monotone counter, or supplied by the caller as a content hash.
#[derive(Clone, Copy, PartialEq, Eq, Structural, Debug)]
pub enum Mode {
    Sequential,
    Hash,
}

/// The recoverable failures a registry operation can report.
#[derive(Clone, Copy, PartialEq, Eq, Structural, Debug)]
pub enum Error {
    /// The operation referenced a key absent from the record store.
    NotFound,
    /// The caller tried to transfer a record they do not own.
    NotOwner,
    /// A hash-mode mint collided with an existing key.
    AlreadyExists,
}

/// An opaque, externally verified principal naming a caller or owner.
#[derive(Debug)]
pub struct Identity {
    pub text: String,
}

impl View for Identity {
    type V = Seq<char>;

    open spec fn view(&self) -> Seq<char> {
        self.text@
    }
}

impl Identity {
    pub fn new(text: String) -> (r: Identity)
        ensures
            r@ == text@,
    {
        Identity { text }
    }

    /// Whether two identities name the same principal.
    pub fn same_as(&self, other: &Identity) -> (r: bool)
        ensures
            r == (self@ == other@),
    {
        self.text == other.text
    }
}

impl Clone for Identity {
    fn clone(&self) -> (r: Identity)
        ensures
            r@ == self@,
    {
        Identity { text: self.text.clone() }
    }
}

/// The unique identifier of a record: a system-assigned sequence number or a
/// caller-supplied hash string, depending on the registry's mode.
#[derive(Debug)]
pub enum Key {
    Id(u64),
    Hash(String),
}

/// The mathematical value of a `Key`.
#[verifier::ext_equal]
pub enum KeyV {
    Id(u64),
    Hash(Seq<char>),
}

impl View for Key {
    type V = KeyV;

    open spec fn view(&self) -> KeyV {
        match self {
            Key::Id(n) => KeyV::Id(*n),
            Key::Hash(s) => KeyV::Hash(s@),
        }
    }
}

impl Key {
    /// Whether two keys identify the same record.
    pub fn same_as(&self, other: &Key) -> (r: bool)
        ensures
            r == (self@ == other@),
    {
        match (self, other) {
            (Key::Id(a), Key::Id(b)) => *a == *b,
            (Key::Hash(a), Key::Hash(b)) => *a == *b,
            _ => false,
        }
    }
}

impl Clone for Key {
    fn clone(&self) -> (r: Key)
        ensures
            r@ == self@,
    {
        match self {
            Key::Id(n) => Key::Id(*n),
            Key::Hash(s) => Key::Hash(s.clone()),
        }
    }
}

/// The mathematical value of a metadata list: key/value pairs of character
/// sequences.
pub open spec fn meta_view(m: Seq<(String, String)>) -> Seq<(Seq<char>, Seq<char>)> {
    m.map_values(|p: (String, String)| (p.0@, p.1@))
}

/// Whether the metadata keys are pairwise distinct, as a map demands.
pub open spec fn meta_keys_unique(m: Seq<(Seq<char>, Seq<char>)>) -> bool {
    forall|i: int, j: int| 0 <= i < j < m.len() ==> m[i].0 != m[j].0
}

/// A single registered asset: descriptive fields, free-form metadata, and a
/// current owner. Immutable except for `owner`.
pub struct Record {
    pub key: Key,
    pub name: String,
    pub description: String,
    pub image_ref: String,
    pub owner: Identity,
    pub metadata: Vec<(String, String)>,
}

/// The mathematical value of a `Record`.
#[verifier::ext_equal]
pub struct RecordV {
    pub key: KeyV,
    pub name: Seq<char>,
    pub description: Seq<char>,
    pub image_ref: Seq<char>,
    pub owner: Seq<char>,
    pub metadata: Seq<(Seq<char>, Seq<char>)>,
}

impl View for Record {
    type V = RecordV;

    open spec fn view(&self) -> RecordV {
        RecordV {
            key: self.key@,
            name: self.name@,
            description: self.description@,
            image_ref: self.image_ref@,
            owner: self.owner@,
            metadata: meta_view(self.metadata@),
        }
    }
}

/// Copies a metadata list pair by pair.
fn clone_meta(m: &Vec<(String, String)>) -> (r: Vec<(String, String)>)
    ensures
        meta_view(r@) == meta_view(m@),
{
    let mut r: Vec<(String, String)> = Vec::new();
    let mut i: usize = 0;
    while i < m.len()
        invariant
            i <= m@.len(),
            r@.len() == i,
            forall|j: int|
                0 <= j < i ==> r@[j].0@ == m@[j].0@ && r@[j].1@ == m@[j].1@,
        decreases m@.len() - i,
    {
        let pair = (m[i].0.clone(), m[i].1.clone());
        r.push(pair);
        i = i + 1;
    }
    proof {
        assert(meta_view(r@) =~= meta_view(m@));
    }
    r
}

impl Clone for Record {
    fn clone(&self) -> (r: Record)
        ensures
            r@ == self@,
    {
        Record {
            key: self.key.clone(),
            name: self.name.clone(),
            description: self.description.clone(),
            image_ref: self.image_ref.clone(),
            owner: self.owner.clone(),
            metadata: clone_meta(&self.metadata),
        }
    }
}

} // verus!
