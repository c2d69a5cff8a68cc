use vstd::prelude::*;

use frame_support::traits::ConstU32;
use frame_support::BoundedVec;

use crate::bounded::{
    bounded_get, bounded_items, bounded_len, bounded_new, bounded_remove, bounded_try_push, MAX_KITTY,
};
use crate::codec::{encode_u64, encoded_u64};
use crate::types::{copy_bytes, gender_of, ids_view, same_bytes, Error, Event, EventModel, Kitty, KittyModel};

verus! {

/// What the host supplies to the pallet: the randomness beacon.
pub trait Config {
    /// A value drawn for `subject`; it becomes the identifier of a new kitty.
    fn random(&self, subject: &Vec<u8>) -> Vec<u8>;
}

/// The holdings of an owner, in order of acquisition.
struct Holding {
    owner: u64,
    dnas: BoundedVec<Vec<u8>, ConstU32<MAX_KITTY>>,
}

/// The mathematical value of a [`Pallet`].
pub ghost struct PalletModel {
    /// The entity store, keyed by identifier.
    pub kitties: Map<Seq<u8>, KittyModel>,
    /// The ownership index: the owners that have a record, with their holdings.
    pub owners: Map<u64, Seq<Seq<u8>>>,
    /// The facts emitted so far, oldest first.
    pub events: Seq<EventModel>,
    /// The number of successful mints.
    pub total_kitties: u64,
    /// The counter that feeds the randomness beacon.
    pub nonce: u64,
}

/// The holdings of `o` in an ownership index: empty where `o` has no record.
pub open spec fn holdings_in(owners: Map<u64, Seq<Seq<u8>>>, o: u64) -> Seq<Seq<u8>> {
    if owners.contains_key(o) {
        owners[o]
    } else {
        seq![]
    }
}

/// `s` without the first occurrence of `d`.
pub open spec fn remove_id(s: Seq<Seq<u8>>, d: Seq<u8>) -> Seq<Seq<u8>> {
    if s.contains(d) {
        s.remove(s.index_of(d))
    } else {
        s
    }
}

/// The nonce that follows `n`: one more, wrapping to zero after the largest.
pub open spec fn next_nonce(n: u64) -> u64 {
    if n == u64::MAX {
        0
    } else {
        (n + 1) as u64
    }
}

impl PalletModel {
    /// A registry with no kitties, no records and no facts, at the given
    /// nonce.
    pub open spec fn fresh(nonce: u64) -> PalletModel {
        PalletModel {
            kitties: Map::empty(),
            owners: Map::empty(),
            events: seq![],
            total_kitties: 0,
            nonce,
        }
    }

    /// The state after one identifier request: the nonce moves on.
    pub open spec fn advanced(self) -> PalletModel {
        PalletModel {
            kitties: self.kitties,
            owners: self.owners,
            events: self.events,
            total_kitties: self.total_kitties,
            nonce: next_nonce(self.nonce),
        }
    }

    /// The record of the kitty `d`, if there is one.
    pub open spec fn entity_of(self, d: Seq<u8>) -> Option<KittyModel> {
        if self.kitties.contains_key(d) {
            Some(self.kitties[d])
        } else {
            None
        }
    }

    /// The identifiers that `o` holds, in order of acquisition.
    pub open spec fn holdings_of(self, o: u64) -> Seq<Seq<u8>> {
        holdings_in(self.owners, o)
    }

    /// The store and the index agree: no owner holds an identifier twice or
    /// more than the maximum, an owner holds exactly the kitties whose record
    /// names it, and each record carries its own identifier, the attribute
    /// derived from it, and a zero price.
    pub open spec fn consistent(self) -> bool {
        &&& forall|o: u64| #[trigger] self.holdings_of(o).no_duplicates()
        &&& forall|o: u64| #[trigger] self.holdings_of(o).len() <= MAX_KITTY
        &&& forall|o: u64, d: Seq<u8>| #[trigger]
            self.holdings_of(o).contains(d) <==> (self.kitties.contains_key(d)
                && self.kitties[d].owner == o)
        &&& forall|d: Seq<u8>| #[trigger]
            self.kitties.contains_key(d) ==> {
                &&& self.kitties[d].dna == d
                &&& self.kitties[d].gender == gender_of(d)
                &&& self.kitties[d].price == 0
            }
    }

    /// The state after `owner` mints the kitty `d`.
    pub open spec fn minted(self, owner: u64, d: Seq<u8>) -> PalletModel {
        PalletModel {
            kitties: self.kitties.insert(
                d,
                KittyModel { dna: d, owner, price: 0, gender: gender_of(d) },
            ),
            owners: self.owners.insert(owner, self.holdings_of(owner).push(d)),
            events: self.events.push(EventModel::CreatedNew(owner, d)),
            total_kitties: (self.total_kitties + 1) as u64,
            nonce: self.nonce,
        }
    }

    /// The state after the kitty `d` passes from `from` to `to`.
    pub open spec fn transferred(self, from: u64, to: u64, d: Seq<u8>) -> PalletModel {
        let removed = self.owners.insert(from, remove_id(self.holdings_of(from), d));
        let k = self.kitties[d];
        PalletModel {
            kitties: self.kitties.insert(
                d,
                KittyModel { dna: k.dna, owner: to, price: k.price, gender: k.gender },
            ),
            owners: removed.insert(to, holdings_in(removed, to).push(d)),
            events: self.events.push(EventModel::Transferred(from, to, d)),
            total_kitties: self.total_kitties,
            nonce: self.nonce,
        }
    }
}

/// The registry: entity store, ownership index, emitted facts and counters.
pub struct Pallet {
    kitties: Vec<Kitty>,
    holdings: Vec<Holding>,
    events: Vec<Event>,
    total_kitties: u64,
    nonce: u64,
}

/// Some record in `s` has the identifier `d`.
spec fn has_kitty(s: Seq<Kitty>, d: Seq<u8>) -> bool {
    exists|i: int| 0 <= i < s.len() && #[trigger] s[i].dna@ == d
}

/// The entity store that a list of records stands for.
spec fn kitty_map(s: Seq<Kitty>) -> Map<Seq<u8>, KittyModel> {
    Map::new(
        |d: Seq<u8>| has_kitty(s, d),
        |d: Seq<u8>| s[choose|i: int| 0 <= i < s.len() && #[trigger] s[i].dna@ == d]@,
    )
}

/// No two records in `s` share an identifier.
spec fn kitties_unique(s: Seq<Kitty>) -> bool {
    forall|i: int, j: int|
        #![trigger s[i], s[j]]
        0 <= i < s.len() && 0 <= j < s.len() && i != j ==> s[i].dna@ != s[j].dna@
}

/// Some entry in `s` belongs to `o`.
spec fn has_owner(s: Seq<Holding>, o: u64) -> bool {
    exists|i: int| 0 <= i < s.len() && #[trigger] s[i].owner == o
}

/// The ownership index that a list of entries stands for.
spec fn owner_map(s: Seq<Holding>) -> Map<u64, Seq<Seq<u8>>> {
    Map::new(
        |o: u64| has_owner(s, o),
        |o: u64| bounded_items(s[choose|i: int| 0 <= i < s.len() && #[trigger] s[i].owner == o].dnas),
    )
}

/// No two entries in `s` belong to the same owner.
spec fn owners_unique(s: Seq<Holding>) -> bool {
    forall|i: int, j: int|
        #![trigger s[i], s[j]]
        0 <= i < s.len() && 0 <= j < s.len() && i != j ==> s[i].owner != s[j].owner
}

/// With unique identifiers, the record at `i` is the one the store maps its
/// identifier to.
proof fn lemma_kitty_at(s: Seq<Kitty>, i: int)
    requires
        kitties_unique(s),
        0 <= i < s.len(),
    ensures
        kitty_map(s).contains_key(s[i].dna@),
        kitty_map(s)[s[i].dna@] == s[i]@,
{
    let d = s[i].dna@;
    assert(has_kitty(s, d));
    let j = choose|j: int| 0 <= j < s.len() && #[trigger] s[j].dna@ == d;
    assert(s[i] == s[j] || i == j);
}

/// Appending a record with a new identifier adds it to the store.
proof fn lemma_kitty_push(s: Seq<Kitty>, k: Kitty)
    requires
        kitties_unique(s),
        !kitty_map(s).contains_key(k.dna@),
    ensures
        kitties_unique(s.push(k)),
        kitty_map(s.push(k)) == kitty_map(s).insert(k.dna@, k@),
{
    let t = s.push(k);
    assert forall|i: int| 0 <= i < s.len() implies t[i].dna@ != k.dna@ by {
        assert(t[i] == s[i]);
        if s[i].dna@ == k.dna@ {
            assert(has_kitty(s, k.dna@));
        }
    }
    assert(kitties_unique(t)) by {
        assert forall|i: int, j: int|
            0 <= i < t.len() && 0 <= j < t.len() && i != j implies t[i].dna@ != t[j].dna@ by {
            if i < s.len() && j < s.len() {
                assert(t[i] == s[i] && t[j] == s[j]);
            }
        }
    }
    assert forall|d: Seq<u8>| has_kitty(t, d) == (has_kitty(s, d) || d == k.dna@) by {
        if has_kitty(s, d) {
            let i = choose|i: int| 0 <= i < s.len() && #[trigger] s[i].dna@ == d;
            assert(t[i] == s[i]);
        }
        if d == k.dna@ {
            assert(t[s.len() as int] == k);
        }
        if has_kitty(t, d) {
            let i = choose|i: int| 0 <= i < t.len() && #[trigger] t[i].dna@ == d;
            if i < s.len() {
                assert(t[i] == s[i]);
            }
        }
    }
    assert forall|d: Seq<u8>| #[trigger] kitty_map(t).contains_key(d) implies kitty_map(t)[d]
        == kitty_map(s).insert(k.dna@, k@)[d] by {
        let i = choose|i: int| 0 <= i < t.len() && #[trigger] t[i].dna@ == d;
        lemma_kitty_at(t, i);
        if i < s.len() {
            assert(t[i] == s[i]);
            lemma_kitty_at(s, i);
        } else {
            assert(t[i] == k);
        }
    }
    assert(kitty_map(t) =~= kitty_map(s).insert(k.dna@, k@));
}

/// Replacing a record by one with the same identifier overwrites it in the
/// store.
proof fn lemma_kitty_update(s: Seq<Kitty>, i: int, k: Kitty)
    requires
        kitties_unique(s),
        0 <= i < s.len(),
        k.dna@ == s[i].dna@,
    ensures
        kitties_unique(s.update(i, k)),
        kitty_map(s.update(i, k)) == kitty_map(s).insert(k.dna@, k@),
{
    let t = s.update(i, k);
    assert forall|j: int| 0 <= j < s.len() implies #[trigger] t[j].dna@ == s[j].dna@ by {
        if j != i {
            assert(t[j] == s[j]);
        }
    }
    assert(kitties_unique(t)) by {
        assert forall|a: int, b: int|
            0 <= a < t.len() && 0 <= b < t.len() && a != b implies t[a].dna@ != t[b].dna@ by {
            assert(t[a].dna@ == s[a].dna@ && t[b].dna@ == s[b].dna@);
            assert(s[a] == s[a] && s[b] == s[b]);
        }
    }
    assert forall|d: Seq<u8>| has_kitty(t, d) == has_kitty(s, d) by {
        if has_kitty(s, d) {
            let j = choose|j: int| 0 <= j < s.len() && #[trigger] s[j].dna@ == d;
            assert(t[j].dna@ == s[j].dna@);
        }
        if has_kitty(t, d) {
            let j = choose|j: int| 0 <= j < t.len() && #[trigger] t[j].dna@ == d;
            assert(t[j].dna@ == s[j].dna@);
        }
    }
    assert forall|d: Seq<u8>| #[trigger] kitty_map(t).contains_key(d) implies kitty_map(t)[d]
        == kitty_map(s).insert(k.dna@, k@)[d] by {
        let j = choose|j: int| 0 <= j < t.len() && #[trigger] t[j].dna@ == d;
        lemma_kitty_at(t, j);
        if j != i {
            assert(t[j] == s[j]);
            lemma_kitty_at(s, j);
        }
    }
    assert(kitty_map(t) =~= kitty_map(s).insert(k.dna@, k@));
}

/// With unique owners, the entry at `i` is the one the index maps its owner
/// to.
proof fn lemma_owner_at(s: Seq<Holding>, i: int)
    requires
        owners_unique(s),
        0 <= i < s.len(),
    ensures
        owner_map(s).contains_key(s[i].owner),
        owner_map(s)[s[i].owner] == bounded_items(s[i].dnas),
{
    let o = s[i].owner;
    assert(has_owner(s, o));
    let j = choose|j: int| 0 <= j < s.len() && #[trigger] s[j].owner == o;
    assert(s[i] == s[j] || i == j);
}

/// Appending an entry for a new owner adds it to the index.
proof fn lemma_owner_push(s: Seq<Holding>, h: Holding)
    requires
        owners_unique(s),
        !owner_map(s).contains_key(h.owner),
    ensures
        owners_unique(s.push(h)),
        owner_map(s.push(h)) == owner_map(s).insert(h.owner, bounded_items(h.dnas)),
{
    let t = s.push(h);
    assert forall|i: int| 0 <= i < s.len() implies t[i].owner != h.owner by {
        assert(t[i] == s[i]);
        if s[i].owner == h.owner {
            assert(has_owner(s, h.owner));
        }
    }
    assert(owners_unique(t)) by {
        assert forall|i: int, j: int|
            0 <= i < t.len() && 0 <= j < t.len() && i != j implies t[i].owner != t[j].owner by {
            if i < s.len() && j < s.len() {
                assert(t[i] == s[i] && t[j] == s[j]);
            }
        }
    }
    assert forall|o: u64| has_owner(t, o) == (has_owner(s, o) || o == h.owner) by {
        if has_owner(s, o) {
            let i = choose|i: int| 0 <= i < s.len() && #[trigger] s[i].owner == o;
            assert(t[i] == s[i]);
        }
        if o == h.owner {
            assert(t[s.len() as int] == h);
        }
        if has_owner(t, o) {
            let i = choose|i: int| 0 <= i < t.len() && #[trigger] t[i].owner == o;
            if i < s.len() {
                assert(t[i] == s[i]);
            }
        }
    }
    assert forall|o: u64| #[trigger] owner_map(t).contains_key(o) implies owner_map(t)[o]
        == owner_map(s).insert(h.owner, bounded_items(h.dnas))[o] by {
        let i = choose|i: int| 0 <= i < t.len() && #[trigger] t[i].owner == o;
        lemma_owner_at(t, i);
        if i < s.len() {
            assert(t[i] == s[i]);
            lemma_owner_at(s, i);
        } else {
            assert(t[i] == h);
        }
    }
    assert(owner_map(t) =~= owner_map(s).insert(h.owner, bounded_items(h.dnas)));
}

/// Replacing an entry by one for the same owner overwrites it in the index.
proof fn lemma_owner_update(s: Seq<Holding>, i: int, h: Holding)
    requires
        owners_unique(s),
        0 <= i < s.len(),
        h.owner == s[i].owner,
    ensures
        owners_unique(s.update(i, h)),
        owner_map(s.update(i, h)) == owner_map(s).insert(h.owner, bounded_items(h.dnas)),
{
    let t = s.update(i, h);
    assert forall|j: int| 0 <= j < s.len() implies #[trigger] t[j].owner == s[j].owner by {
        if j != i {
            assert(t[j] == s[j]);
        }
    }
    assert(owners_unique(t)) by {
        assert forall|a: int, b: int|
            0 <= a < t.len() && 0 <= b < t.len() && a != b implies t[a].owner != t[b].owner by {
            assert(t[a].owner == s[a].owner && t[b].owner == s[b].owner);
            assert(s[a] == s[a] && s[b] == s[b]);
        }
    }
    assert forall|o: u64| has_owner(t, o) == has_owner(s, o) by {
        if has_owner(s, o) {
            let j = choose|j: int| 0 <= j < s.len() && #[trigger] s[j].owner == o;
            assert(t[j].owner == s[j].owner);
        }
        if has_owner(t, o) {
            let j = choose|j: int| 0 <= j < t.len() && #[trigger] t[j].owner == o;
            assert(t[j].owner == s[j].owner);
        }
    }
    assert forall|o: u64| #[trigger] owner_map(t).contains_key(o) implies owner_map(t)[o]
        == owner_map(s).insert(h.owner, bounded_items(h.dnas))[o] by {
        let j = choose|j: int| 0 <= j < t.len() && #[trigger] t[j].owner == o;
        lemma_owner_at(t, j);
        if j != i {
            assert(t[j] == s[j]);
            lemma_owner_at(s, j);
        }
    }
    assert(owner_map(t) =~= owner_map(s).insert(h.owner, bounded_items(h.dnas)));
}

/// Minting an unused identifier for an owner below the maximum keeps the
/// model consistent.
proof fn lemma_minted_consistent(p: PalletModel, owner: u64, d: Seq<u8>)
    requires
        p.consistent(),
        !p.kitties.contains_key(d),
        p.holdings_of(owner).len() < MAX_KITTY,
    ensures
        p.minted(owner, d).consistent(),
{
    let q = p.minted(owner, d);
    assert(!p.holdings_of(owner).contains(d));
    assert forall|o: u64| #[trigger] q.holdings_of(o).len() <= MAX_KITTY by {
        assert(p.holdings_of(o).len() <= MAX_KITTY);
    }
    assert forall|d2: Seq<u8>| #[trigger] q.kitties.contains_key(d2) implies {
        &&& q.kitties[d2].dna == d2
        &&& q.kitties[d2].gender == gender_of(d2)
        &&& q.kitties[d2].price == 0
    } by {
        if d2 != d {
            assert(p.kitties.contains_key(d2));
        }
    }
    assert forall|o: u64| #[trigger] q.holdings_of(o).no_duplicates() by {
        assert(p.holdings_of(o).no_duplicates());
        if o == owner {
            let s = p.holdings_of(owner);
            assert forall|i: int, j: int|
                0 <= i < s.len() + 1 && 0 <= j < s.len() + 1 && i != j implies s.push(d)[i]
                != s.push(d)[j] by {
                if i < s.len() && j < s.len() {
                } else if i < s.len() {
                    assert(s.contains(s[i]));
                } else {
                    assert(s.contains(s[j]));
                }
            }
        }
    }
    assert forall|o: u64, x: Seq<u8>| #[trigger]
        q.holdings_of(o).contains(x) <==> (q.kitties.contains_key(x) && q.kitties[x].owner == o) by {
        assert(p.holdings_of(o).contains(x) <==> (p.kitties.contains_key(x) && p.kitties[x].owner
            == o));
        if o == owner {
            let s = p.holdings_of(owner);
            if s.push(d).contains(x) {
                let i = choose|i: int| 0 <= i < s.len() + 1 && s.push(d)[i] == x;
                if i < s.len() {
                    assert(s.contains(x));
                }
            }
            if s.contains(x) {
                let i = choose|i: int| 0 <= i < s.len() && s[i] == x;
                assert(s.push(d)[i] == x);
            }
            if x == d {
                assert(s.push(d)[s.len() as int] == x);
            }
        }
    }
}

/// Removing position `i` of a list without repeats removes exactly the item
/// there, which is its first occurrence.
proof fn lemma_remove_at(s: Seq<Seq<u8>>, i: int)
    requires
        s.no_duplicates(),
        0 <= i < s.len(),
    ensures
        s.remove(i).no_duplicates(),
        s.remove(i).len() == s.len() - 1,
        forall|x: Seq<u8>| #[trigger] s.remove(i).contains(x) <==> (s.contains(x) && x != s[i]),
        remove_id(s, s[i]) == s.remove(i),
{
    let t = s.remove(i);
    assert forall|a: int| 0 <= a < t.len() implies #[trigger] t[a] == if a < i {
        s[a]
    } else {
        s[a + 1]
    } by {}
    assert forall|x: Seq<u8>| #[trigger] t.contains(x) <==> (s.contains(x) && x != s[i]) by {
        if t.contains(x) {
            let a = choose|a: int| 0 <= a < t.len() && t[a] == x;
            if a < i {
                assert(s[a] == x);
            } else {
                assert(s[a + 1] == x);
            }
        }
        if s.contains(x) && x != s[i] {
            let a = choose|a: int| 0 <= a < s.len() && s[a] == x;
            if a < i {
                assert(t[a] == x);
            } else {
                assert(t[a - 1] == x);
            }
        }
    }
    assert(s.contains(s[i]));
    let c = s.index_of(s[i]);
    assert(s[c] == s[i]);
}

/// Passing a kitty from its owner to a receiver below the maximum keeps the
/// model consistent.
proof fn lemma_transferred_consistent(p: PalletModel, from: u64, to: u64, d: Seq<u8>)
    requires
        p.consistent(),
        p.kitties.contains_key(d),
        p.kitties[d].owner == from,
        p.holdings_of(to).len() < MAX_KITTY,
    ensures
        p.transferred(from, to, d).consistent(),
{
    let q = p.transferred(from, to, d);
    let s = p.holdings_of(from);
    assert(s.contains(d));
    assert(s.no_duplicates());
    let i = choose|i: int| 0 <= i < s.len() && s[i] == d;
    lemma_remove_at(s, i);
    let s2 = s.remove(i);
    let removed = p.owners.insert(from, s2);
    let t0 = holdings_in(removed, to);
    assert(!t0.contains(d) && t0.no_duplicates() && t0.len() < MAX_KITTY
        && forall|x: Seq<u8>| x != d ==> (#[trigger] t0.contains(x) <==> p.kitties.contains_key(x)
        && p.kitties[x].owner == to)) by {
        if to != from {
            assert(t0 == p.holdings_of(to));
            assert(p.holdings_of(to).no_duplicates());
            assert(p.holdings_of(to).contains(d) <==> (p.kitties.contains_key(d)
                && p.kitties[d].owner == to));
            assert forall|x: Seq<u8>| x != d implies (#[trigger] t0.contains(x) <==> p.kitties.contains_key(x)
                && p.kitties[x].owner == to) by {
                assert(p.holdings_of(to).contains(x) <==> (p.kitties.contains_key(x)
                    && p.kitties[x].owner == to));
            }
        } else {
            assert(t0 == s2);
            assert forall|x: Seq<u8>| x != d implies (#[trigger] t0.contains(x) <==> p.kitties.contains_key(x)
                && p.kitties[x].owner == to) by {
                assert(s.contains(x) <==> (p.kitties.contains_key(x) && p.kitties[x].owner == from));
            }
        }
    }
    let t1 = t0.push(d);
    assert forall|x: Seq<u8>| #[trigger] t1.contains(x) <==> (t0.contains(x) || x == d) by {
        if t1.contains(x) {
            let a = choose|a: int| 0 <= a < t1.len() && t1[a] == x;
            if a < t0.len() {
                assert(t0[a] == x);
            }
        }
        if t0.contains(x) {
            let a = choose|a: int| 0 <= a < t0.len() && t0[a] == x;
            assert(t1[a] == x);
        }
        if x == d {
            assert(t1[t0.len() as int] == x);
        }
    }
    assert(t1.no_duplicates()) by {
        assert forall|a: int, b: int|
            0 <= a < t1.len() && 0 <= b < t1.len() && a != b implies t1[a] != t1[b] by {
            if a < t0.len() && b < t0.len() {
            } else if a < t0.len() {
                assert(t0.contains(t0[a]));
            } else {
                assert(t0.contains(t0[b]));
            }
        }
    }
    assert forall|o: u64| #[trigger] q.holdings_of(o).len() <= MAX_KITTY by {
        assert(p.holdings_of(o).len() <= MAX_KITTY);
    }
    assert forall|o: u64| #[trigger] q.holdings_of(o).no_duplicates() by {
        assert(p.holdings_of(o).no_duplicates());
    }
    assert forall|x: Seq<u8>| #[trigger] q.kitties.contains_key(x) implies {
        &&& q.kitties[x].dna == x
        &&& q.kitties[x].gender == gender_of(x)
        &&& q.kitties[x].price == 0
    } by {
        assert(p.kitties.contains_key(x));
    }
    assert forall|o: u64, x: Seq<u8>| #[trigger]
        q.holdings_of(o).contains(x) <==> (q.kitties.contains_key(x) && q.kitties[x].owner == o) by {
        assert(p.holdings_of(o).contains(x) <==> (p.kitties.contains_key(x) && p.kitties[x].owner
            == o));
        assert(p.holdings_of(o).contains(d) <==> (p.kitties.contains_key(d) && p.kitties[d].owner
            == o));
        if o == to {
            assert(q.holdings_of(o) == t1);
        } else if o == from {
            assert(q.holdings_of(o) == s2);
            assert(s.contains(x) <==> (p.kitties.contains_key(x) && p.kitties[x].owner == from));
        } else {
            assert(q.holdings_of(o) == p.holdings_of(o));
        }
    }
}

/// The position of the first occurrence of `d` in `v`.
fn find_id(v: &BoundedVec<Vec<u8>, ConstU32<MAX_KITTY>>, d: &Vec<u8>) -> (r: Option<usize>)
    ensures
        match r {
            Some(i) => i < bounded_items(*v).len() && bounded_items(*v)[i as int] == d@,
            None => !bounded_items(*v).contains(d@),
        },
{
    let n = bounded_len(v);
    let mut i: usize = 0;
    while i < n
        invariant
            i <= n,
            n == bounded_items(*v).len(),
            forall|j: int| 0 <= j < i ==> #[trigger] bounded_items(*v)[j] != d@,
        decreases n - i,
    {
        if same_bytes(bounded_get(v, i), d) {
            return Some(i);
        }
        i = i + 1;
    }
    None
}

/// The identifiers of a bounded list, as a plain list.
fn bounded_to_vec(v: &BoundedVec<Vec<u8>, ConstU32<MAX_KITTY>>) -> (r: Vec<Vec<u8>>)
    ensures
        ids_view(&r) == bounded_items(*v),
{
    let n = bounded_len(v);
    let mut r: Vec<Vec<u8>> = Vec::new();
    let mut i: usize = 0;
    while i < n
        invariant
            i <= n,
            n == bounded_items(*v).len(),
            ids_view(&r) == bounded_items(*v).take(i as int),
        decreases n - i,
    {
        let x = copy_bytes(bounded_get(v, i));
        proof {
            assert(bounded_items(*v).take(i + 1) =~= bounded_items(*v).take(i as int).push(x@));
            assert(ids_view(&r).push(x@) =~= r@.push(x).map_values(|y: Vec<u8>| y@));
        }
        r.push(x);
        i = i + 1;
    }
    proof {
        assert(bounded_items(*v).take(n as int) =~= bounded_items(*v));
    }
    r
}

impl View for Pallet {
    type V = PalletModel;

    closed spec fn view(&self) -> PalletModel {
        PalletModel {
            kitties: kitty_map(self.kitties@),
            owners: owner_map(self.holdings@),
            events: self.events@.map_values(|e: Event| e@),
            total_kitties: self.total_kitties,
            nonce: self.nonce,
        }
    }
}

impl Pallet {
    /// The pallet is well formed: its model is consistent.
    pub closed spec fn wf(&self) -> bool {
        &&& kitties_unique(self.kitties@)
        &&& owners_unique(self.holdings@)
        &&& self@.consistent()
    }

    /// An empty registry.
    pub fn new() -> (r: Pallet)
        ensures
            r.wf(),
            r@ == PalletModel::fresh(0),
    {
        let r = Pallet {
            kitties: Vec::new(),
            holdings: Vec::new(),
            events: Vec::new(),
            total_kitties: 0,
            nonce: 0,
        };
        proof {
            assert(r@.kitties =~= Map::<Seq<u8>, KittyModel>::empty());
            assert(r@.owners =~= Map::<u64, Seq<Seq<u8>>>::empty());
            assert(r@.events =~= Seq::<EventModel>::empty());
            assert(r@ == PalletModel::fresh(0));
        }
        r
    }

    /// The position of the kitty `d` in the store.
    fn find_kitty(&self, d: &Vec<u8>) -> (r: Option<usize>)
        requires
            self.wf(),
        ensures
            match r {
                Some(i) => i < self.kitties@.len() && self.kitties@[i as int].dna@ == d@,
                None => !self@.kitties.contains_key(d@),
            },
    {
        let mut i: usize = 0;
        while i < self.kitties.len()
            invariant
                i <= self.kitties@.len(),
                forall|j: int| 0 <= j < i ==> #[trigger] self.kitties@[j].dna@ != d@,
            decreases self.kitties.len() - i,
        {
            if same_bytes(&self.kitties[i].dna, d) {
                return Some(i);
            }
            i = i + 1;
        }
        None
    }

    /// The position of the record of `o` in the index.
    fn find_owner(&self, o: u64) -> (r: Option<usize>)
        requires
            self.wf(),
        ensures
            match r {
                Some(i) => i < self.holdings@.len() && self.holdings@[i as int].owner == o,
                None => !self@.owners.contains_key(o),
            },
    {
        let mut i: usize = 0;
        while i < self.holdings.len()
            invariant
                i <= self.holdings@.len(),
                forall|j: int| 0 <= j < i ==> #[trigger] self.holdings@[j].owner != o,
            decreases self.holdings.len() - i,
        {
            if self.holdings[i].owner == o {
                return Some(i);
            }
            i = i + 1;
        }
        None
    }

    /// A registry with no kitties yet that resumes from the given nonce.
    pub fn with_nonce(nonce: u64) -> (r: Pallet)
        ensures
            r.wf(),
            r@ == PalletModel::fresh(nonce),
    {
        let mut r = Pallet::new();
        r.nonce = nonce;
        proof {
            assert forall|o: u64| #[trigger] r@.holdings_of(o) == Seq::<Seq<u8>>::empty() by {}
        }
        r
    }

    /// The record of the kitty `dna`, if there is one.
    pub fn kitty_info(&self, dna: &Vec<u8>) -> (r: Option<Kitty>)
        requires
            self.wf(),
        ensures
            r is Some <==> self@.entity_of(dna@) is Some,
            r matches Some(k) ==> self@.entity_of(dna@) == Some(k@),
    {
        match self.find_kitty(dna) {
            Some(i) => {
                proof {
                    lemma_kitty_at(self.kitties@, i as int);
                }
                Some(self.kitties[i].duplicate())
            },
            None => None,
        }
    }

    /// The record of `owner` in the ownership index: `None` where `owner` has
    /// never held a kitty.
    pub fn kitty_owner(&self, owner: u64) -> (r: Option<Vec<Vec<u8>>>)
        requires
            self.wf(),
        ensures
            r is Some <==> self@.owners.contains_key(owner),
            r matches Some(v) ==> ids_view(&v) == self@.holdings_of(owner),
    {
        match self.find_owner(owner) {
            Some(i) => {
                proof {
                    lemma_owner_at(self.holdings@, i as int);
                }
                Some(bounded_to_vec(&self.holdings[i].dnas))
            },
            None => None,
        }
    }

    /// The identifiers that `owner` holds, in order of acquisition; empty
    /// where `owner` has never held a kitty.
    pub fn holdings_of(&self, owner: u64) -> (r: Vec<Vec<u8>>)
        requires
            self.wf(),
        ensures
            ids_view(&r) == self@.holdings_of(owner),
    {
        match self.kitty_owner(owner) {
            Some(v) => v,
            None => {
                let v: Vec<Vec<u8>> = Vec::new();
                proof {
                    assert(ids_view(&v) =~= seq![]);
                }
                v
            },
        }
    }

    /// Mints the kitty `dna` for `owner`.
    ///
    /// Fails with `MaxKitty` where `owner` already holds the maximum, else
    /// with `DuplicateKitty` where a kitty `dna` exists; a failure changes
    /// nothing. Otherwise the record and the index entry are written together,
    /// the mint counter goes up by one and `CreatedNew` is emitted.
    pub fn create_kitty_with_dna(&mut self, owner: u64, dna: Vec<u8>) -> (r: Result<Vec<u8>, Error>)
        requires
            old(self).wf(),
            old(self)@.total_kitties < u64::MAX,
        ensures
            final(self).wf(),
            old(self)@.holdings_of(owner).len() >= MAX_KITTY ==> (r matches Err(
                Error::MaxKitty,
            )),
            old(self)@.holdings_of(owner).len() < MAX_KITTY && old(self)@.kitties.contains_key(
                dna@,
            ) ==> (r matches Err(Error::DuplicateKitty)),
            old(self)@.holdings_of(owner).len() < MAX_KITTY && !old(
                self,
            )@.kitties.contains_key(dna@) ==> (r matches Ok(id) && id@ == dna@),
            r is Ok ==> final(self)@ == old(self)@.minted(owner, dna@),
            r is Err ==> final(self)@ == old(self)@,
            r matches Ok(id) ==> (final(self)@.entity_of(id@) matches Some(k) && k.owner == owner)
                && final(self)@.holdings_of(owner).contains(id@),
            forall|x: Seq<u8>| #[trigger]
                old(self)@.kitties.contains_key(x) ==> final(self)@.kitties.contains_key(x)
                    && final(self)@.kitties[x] == old(self)@.kitties[x],
    {
        let oi = self.find_owner(owner);
        match oi {
            Some(i) => {
                proof {
                    lemma_owner_at(self.holdings@, i as int);
                }
                if bounded_len(&self.holdings[i].dnas) >= MAX_KITTY as usize {
                    return Err(Error::MaxKitty);
                }
            },
            None => {},
        }
        if self.find_kitty(&dna).is_some() {
            return Err(Error::DuplicateKitty);
        }
        let ghost p = self@;
        let ghost ks = self.kitties@;
        let ghost hs = self.holdings@;
        let ghost es = self.events@;
        let kitty = Kitty {
            dna: copy_bytes(&dna),
            owner,
            price: 0,
            gender: Kitty::gender(copy_bytes(&dna)),
        };
        self.total_kitties = self.total_kitties + 1;
        self.kitties.push(kitty);
        proof {
            lemma_kitty_push(ks, kitty);
        }
        let id = copy_bytes(&dna);
        match oi {
            Some(i) => {
                let mut h = self.holdings.remove(i);
                proof {
                    lemma_owner_at(hs, i as int);
                }
                let _ = bounded_try_push(&mut h.dnas, id);
                proof {
                    lemma_owner_update(hs, i as int, h);
                }
                self.holdings.insert(i, h);
                proof {
                    assert(self.holdings@ =~= hs.update(i as int, h));
                }
            },
            None => {
                let mut ids = bounded_new();
                let _ = bounded_try_push(&mut ids, id);
                let h = Holding { owner, dnas: ids };
                proof {
                    assert(bounded_items(h.dnas) =~= seq![].push(dna@));
                    lemma_owner_push(hs, h);
                }
                self.holdings.push(h);
            },
        }
        let ev = Event::CreatedNew(owner, copy_bytes(&dna));
        self.events.push(ev);
        proof {
            assert(self.events@.map_values(|e: Event| e@) =~= es.map_values(|e: Event| e@).push(
                ev@,
            ));
            assert(self@.owners =~= p.minted(owner, dna@).owners);
            assert(self@ == p.minted(owner, dna@));
            lemma_minted_consistent(p, owner, dna@);
            let hs2 = p.holdings_of(owner).push(dna@);
            assert(hs2[hs2.len() - 1] == dna@);
        }
        Ok(dna)
    }

    /// Takes the next identifier request: returns the encoded nonce and moves
    /// the nonce on, wrapping after the largest value.
    fn get_and_increment_nonce(&mut self) -> (r: Vec<u8>)
        requires
            old(self).wf(),
        ensures
            final(self).wf(),
            r@ == encoded_u64(old(self)@.nonce),
            final(self)@ == old(self)@.advanced(),
    {
        let ghost p = self@;
        let nonce = self.nonce;
        self.nonce = nonce.wrapping_add(1);
        proof {
            assert(self@ == p.advanced());
            assert forall|o: u64| #[trigger] self@.holdings_of(o) == p.holdings_of(o) by {}
        }
        encode_u64(nonce)
    }

    /// Draws a fresh identifier from the beacon for the current nonce.
    fn random_hash<T: Config>(&mut self, config: &T) -> (r: Vec<u8>)
        requires
            old(self).wf(),
        ensures
            final(self).wf(),
            final(self)@ == old(self)@.advanced(),
    {
        let subject = self.get_and_increment_nonce();
        config.random(&subject)
    }

    /// Mints a kitty for `owner` under an identifier drawn from `config`'s
    /// beacon for the current nonce.
    ///
    /// The nonce moves on whatever the outcome. Fails with `MaxKitty` exactly
    /// where `owner` already holds the maximum, and with `DuplicateKitty`
    /// where the drawn identifier is taken, which needs some kitty to exist;
    /// a failure changes nothing else.
    /// On success the new kitty belongs to `owner` and ends its holdings.
    pub fn create_kitty<T: Config>(&mut self, config: &T, owner: u64) -> (r: Result<Vec<u8>, Error>)
        requires
            old(self).wf(),
            old(self)@.total_kitties < u64::MAX,
        ensures
            final(self).wf(),
            (r matches Err(Error::MaxKitty)) <==> old(self)@.holdings_of(owner).len() >= MAX_KITTY,
            r matches Err(e) ==> e == Error::MaxKitty || e == Error::DuplicateKitty,
            (r matches Err(Error::DuplicateKitty)) ==> exists|d: Seq<u8>| #[trigger]
                old(self)@.kitties.contains_key(d),
            r matches Ok(id) ==> final(self)@.kitties[id@].gender == gender_of(id@),
            r is Err ==> final(self)@ == old(self)@.advanced(),
            r matches Ok(id) ==> !old(self)@.kitties.contains_key(id@) && final(self)@ == old(
                self,
            )@.advanced().minted(owner, id@),
            r matches Ok(id) ==> (final(self)@.entity_of(id@) matches Some(k) && k.owner == owner)
                && final(self)@.holdings_of(owner).contains(id@),
    {
        let dna = self.random_hash(config);
        self.create_kitty_with_dna(owner, dna)
    }

    /// Passes the kitty `dna` from `sender` to `receiver`.
    ///
    /// Fails with `NotFound` where no kitty `dna` exists, with `NotOwner`
    /// where `sender` does not own it, and with `MaxKitty` where `receiver`
    /// already holds the maximum; a failure changes nothing. Otherwise the
    /// record, both index entries and the emitted facts change together.
    pub fn transfer(&mut self, sender: u64, receiver: u64, dna: &Vec<u8>) -> (r: Result<(), Error>)
        requires
            old(self).wf(),
        ensures
            final(self).wf(),
            !old(self)@.kitties.contains_key(dna@) ==> (r matches Err(Error::NotFound)),
            old(self)@.kitties.contains_key(dna@) && old(self)@.kitties[dna@].owner != sender
                ==> (r matches Err(Error::NotOwner)),
            old(self)@.kitties.contains_key(dna@) && old(self)@.kitties[dna@].owner == sender
                && old(self)@.holdings_of(receiver).len() >= MAX_KITTY ==> (r matches Err(
                Error::MaxKitty,
            )),
            old(self)@.kitties.contains_key(dna@) && old(self)@.kitties[dna@].owner == sender
                && old(self)@.holdings_of(receiver).len() < MAX_KITTY ==> r is Ok,
            r is Ok ==> final(self)@ == old(self)@.transferred(sender, receiver, dna@),
            r is Err ==> final(self)@ == old(self)@,
            forall|x: Seq<u8>| #[trigger]
                old(self)@.kitties.contains_key(x) ==> final(self)@.kitties.contains_key(x)
                    && final(self)@.kitties[x].dna == old(self)@.kitties[x].dna
                    && final(self)@.kitties[x].gender == old(self)@.kitties[x].gender
                    && final(self)@.kitties[x].price == old(self)@.kitties[x].price,
    {
        let ki = match self.find_kitty(dna) {
            Some(i) => i,
            None => {
                return Err(Error::NotFound);
            },
        };
        proof {
            lemma_kitty_at(self.kitties@, ki as int);
        }
        if self.kitties[ki].owner != sender {
            return Err(Error::NotOwner);
        }
        let ri = self.find_owner(receiver);
        match ri {
            Some(j) => {
                proof {
                    lemma_owner_at(self.holdings@, j as int);
                }
                if bounded_len(&self.holdings[j].dnas) >= MAX_KITTY as usize {
                    return Err(Error::MaxKitty);
                }
            },
            None => {},
        }
        let ghost p = self@;
        let ghost ks = self.kitties@;
        let ghost hs = self.holdings@;
        let ghost es = self.events@;
        proof {
            assert(p.holdings_of(sender).contains(dna@));
            assert(p.holdings_of(sender).no_duplicates());
        }
        let si = match self.find_owner(sender) {
            Some(i) => i,
            None => {
                proof {
                    assert(false);
                }
                return Err(Error::NotFound);
            },
        };
        proof {
            lemma_owner_at(hs, si as int);
        }
        let mut k = self.kitties[ki].duplicate();
        k.owner = receiver;
        proof {
            lemma_kitty_update(ks, ki as int, k);
        }
        self.kitties.set(ki, k);
        let mut hsender = self.holdings.remove(si);
        let pos = match find_id(&hsender.dnas, dna) {
            Some(i) => i,
            None => {
                proof {
                    assert(false);
                }
                return Err(Error::NotFound);
            },
        };
        let ghost sv = bounded_items(hsender.dnas);
        proof {
            lemma_remove_at(sv, pos as int);
        }
        let _ = bounded_remove(&mut hsender.dnas, pos);
        proof {
            lemma_owner_update(hs, si as int, hsender);
        }
        self.holdings.insert(si, hsender);
        proof {
            assert(self.holdings@ =~= hs.update(si as int, hsender));
        }
        let ghost hs1 = self.holdings@;
        let ghost removed = p.owners.insert(sender, remove_id(p.holdings_of(sender), dna@));
        proof {
            assert(owner_map(hs1) == removed);
        }
        let id = copy_bytes(dna);
        match ri {
            Some(j) => {
                proof {
                    lemma_owner_at(hs1, j as int);
                }
                let mut hreceiver = self.holdings.remove(j);
                let _ = bounded_try_push(&mut hreceiver.dnas, id);
                proof {
                    lemma_owner_update(hs1, j as int, hreceiver);
                }
                self.holdings.insert(j, hreceiver);
                proof {
                    assert(self.holdings@ =~= hs1.update(j as int, hreceiver));
                }
            },
            None => {
                let mut rids = bounded_new();
                let _ = bounded_try_push(&mut rids, id);
                let hreceiver = Holding { owner: receiver, dnas: rids };
                proof {
                    assert(bounded_items(hreceiver.dnas) =~= seq![].push(dna@));
                    assert(removed.contains_key(sender));
                    lemma_owner_push(hs1, hreceiver);
                }
                self.holdings.push(hreceiver);
            },
        }
        let ev = Event::Transferred(sender, receiver, copy_bytes(dna));
        self.events.push(ev);
        proof {
            assert(self.events@.map_values(|e: Event| e@) =~= es.map_values(|e: Event| e@).push(
                ev@,
            ));
            let q = p.transferred(sender, receiver, dna@);
            assert(self@.owners =~= q.owners);
            assert(k@ == q.kitties[dna@]);
            assert(self@.kitties =~= q.kitties);
            assert(self@ == q);
            lemma_transferred_consistent(p, sender, receiver, dna@);
        }
        Ok(())
    }

    /// Every well-formed pallet, and so every state that its operations
    /// reach from [`Pallet::new`], keeps its store and index in agreement: no
    /// owner's holdings repeat an identifier or exceed the maximum, an
    /// identifier is in an owner's holdings exactly when its record names
    /// that owner, and each record keeps the attribute derived from its
    /// identifier.
    pub proof fn lemma_consistent(&self)
        requires
            self.wf(),
        ensures
            self@.consistent(),
    {
    }

    /// The number of successful mints.
    pub fn total_kitties(&self) -> (r: u64)
        ensures
            r == self@.total_kitties,
    {
        self.total_kitties
    }

    /// The counter that feeds the randomness beacon.
    pub fn nonce(&self) -> (r: u64)
        ensures
            r == self@.nonce,
    {
        self.nonce
    }

    /// The facts emitted so far, oldest first.
    pub fn events(&self) -> (r: &Vec<Event>)
        ensures
            r@.map_values(|e: Event| e@) == self@.events,
    {
        &self.events
    }
}

} // verus!
