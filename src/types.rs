use vstd::prelude::*;

verus! {

/// The two-valued attribute of a kitty, derived from its identifier.
#[derive(Clone, Copy, Debug, PartialEq, Eq, Structural)]
pub enum Gender {
    Male,
    Female,
}

/// The attribute that an identifier determines: identifiers of even length
/// give `Male`, those of odd length `Female`.
pub open spec fn gender_of(dna: Seq<u8>) -> Gender {
    if dna.len() % 2 == 0 {
        Gender::Male
    } else {
        Gender::Female
    }
}

/// The values of a list of identifiers.
pub open spec fn ids_view(v: &Vec<Vec<u8>>) -> Seq<Seq<u8>> {
    v@.map_values(|x: Vec<u8>| x@)
}

/// A copy of an identifier.
pub(crate) fn copy_bytes(v: &Vec<u8>) -> (r: Vec<u8>)
    ensures
        r@ == v@,
{
    let r = v.clone();
    proof {
        assert(r@ =~= v@);
    }
    r
}

/// Whether two identifiers are equal.
pub(crate) fn same_bytes(a: &Vec<u8>, b: &Vec<u8>) -> (r: bool)
    ensures
        r == (a@ == b@),
{
    if a.len() != b.len() {
        return false;
    }
    let mut i: usize = 0;
    while i < a.len()
        invariant
            i <= a@.len(),
            a@.len() == b@.len(),
            forall|j: int| 0 <= j < i ==> a@[j] == b@[j],
        decreases a.len() - i,
    {
        if a[i] != b[i] {
            return false;
        }
        i = i + 1;
    }
    proof {
        assert(a@ =~= b@);
    }
    true
}

/// One minted asset.
#[derive(Clone, Debug)]
pub struct Kitty {
    pub dna: Vec<u8>,
    pub owner: u64,
    pub price: u32,
    pub gender: Gender,
}

/// The mathematical value of a [`Kitty`].
pub ghost struct KittyModel {
    pub dna: Seq<u8>,
    pub owner: u64,
    pub price: u32,
    pub gender: Gender,
}

impl View for Kitty {
    type V = KittyModel;

    open spec fn view(&self) -> KittyModel {
        KittyModel { dna: self.dna@, owner: self.owner, price: self.price, gender: self.gender }
    }
}

impl Kitty {
    /// Derives the attribute of an identifier from its length alone.
    pub fn gender(dna: Vec<u8>) -> (g: Gender)
        ensures
            g == gender_of(dna@),
    {
        if dna.len() % 2 == 0 {
            Gender::Male
        } else {
            Gender::Female
        }
    }

    /// A copy of this record with the same value.
    pub fn duplicate(&self) -> (r: Kitty)
        ensures
            r@ == self@,
    {
        Kitty { dna: copy_bytes(&self.dna), owner: self.owner, price: self.price, gender: self.gender }
    }
}

/// A fact emitted by a successful transition.
#[derive(Clone, Debug)]
pub enum Event {
    /// `CreatedNew(owner, dna)`: a kitty was minted for `owner`.
    CreatedNew(u64, Vec<u8>),
    /// `Transferred(from, to, dna)`: a kitty changed owner.
    Transferred(u64, u64, Vec<u8>),
}

/// The mathematical value of an [`Event`].
pub ghost enum EventModel {
    CreatedNew(u64, Seq<u8>),
    Transferred(u64, u64, Seq<u8>),
}

impl View for Event {
    type V = EventModel;

    open spec fn view(&self) -> EventModel {
        match self {
            Event::CreatedNew(o, d) => EventModel::CreatedNew(*o, d@),
            Event::Transferred(f, t, d) => EventModel::Transferred(*f, *t, d@),
        }
    }
}

/// Why a transition was rejected.
#[derive(Clone, Copy, Debug, PartialEq, Eq, Structural)]
pub enum Error {
    /// No kitty has the given identifier.
    NotFound,
    /// The caller does not own the kitty.
    NotOwner,
    /// The owner's holdings are at the configured maximum.
    MaxKitty,
    /// A kitty with the freshly drawn identifier already exists.
    DuplicateKitty,
}

} // verus!
