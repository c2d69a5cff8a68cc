use pallet_kitties::{encode_u64, Config, Error, Event, Gender, Kitty, Pallet, MAX_KITTY};

/// A beacon that hands back the subject, padded with zeros to 32 bytes.
struct TestRandomness;

impl Config for TestRandomness {
    fn random(&self, subject: &Vec<u8>) -> Vec<u8> {
        let mut v = subject.clone();
        v.resize(32, 0);
        v
    }
}

/// A beacon that always hands back the same value.
struct FixedRandomness;

impl Config for FixedRandomness {
    fn random(&self, _subject: &Vec<u8>) -> Vec<u8> {
        vec![7; 32]
    }
}

fn new_pallet() -> Pallet {
    Pallet::new()
}

fn fill(p: &mut Pallet, owner: u64, n: u32) -> Vec<Vec<u8>> {
    let mut ids = Vec::new();
    for _ in 0..n {
        ids.push(p.create_kitty(&TestRandomness, owner).unwrap());
    }
    ids
}

#[test]
fn correct_create_kitty() {
    let mut p = new_pallet();
    assert!(p.create_kitty(&TestRandomness, 1).is_ok());
    assert_eq!(p.kitty_owner(1).unwrap().len(), 1);
}

#[test]
fn correct_transfer_kitty() {
    let mut p = new_pallet();
    assert!(p.create_kitty(&TestRandomness, 1).is_ok());
    let dna_kitties = p.kitty_owner(1u64).unwrap();
    let dna = dna_kitties.first().unwrap();
    assert!(p.transfer(1, 2u64, dna).is_ok());
}

#[test]
fn mint_records_owner_and_holdings() {
    let mut p = new_pallet();
    let id = p.create_kitty(&TestRandomness, 1).unwrap();
    let k = p.kitty_info(&id).unwrap();
    assert_eq!(k.owner, 1);
    assert_eq!(k.price, 0);
    assert_eq!(k.dna, id);
    assert_eq!(k.gender, Gender::Male);
    assert_eq!(p.holdings_of(1), vec![id.clone()]);
    assert_eq!(p.total_kitties(), 1);
    assert_eq!(p.nonce(), 1);
    assert!(matches!(&p.events()[0], Event::CreatedNew(1, d) if *d == id));
}

#[test]
fn identifier_comes_from_encoded_nonce() {
    let mut p = new_pallet();
    let first = p.create_kitty(&TestRandomness, 1).unwrap();
    let second = p.create_kitty(&TestRandomness, 1).unwrap();
    let mut expected_first = vec![0u8; 32];
    let mut expected_second = vec![0u8; 32];
    expected_second[0] = 1;
    assert_eq!(first, expected_first);
    assert_eq!(second, expected_second);
    expected_first[0] = 9;
    assert_ne!(first, expected_first);
    assert_eq!(p.holdings_of(1), vec![first, second]);
}

#[test]
fn transfer_moves_kitty() {
    let mut p = new_pallet();
    let id = p.create_kitty(&TestRandomness, 1).unwrap();
    assert_eq!(p.transfer(1, 2, &id), Ok(()));
    assert!(p.holdings_of(1).is_empty());
    assert_eq!(p.holdings_of(2).len(), 1);
    assert_eq!(p.kitty_info(&id).unwrap().owner, 2);
    assert_eq!(p.kitty_owner(1), Some(vec![]));
    assert_eq!(p.total_kitties(), 1);
    assert!(matches!(&p.events()[1], Event::Transferred(1, 2, d) if *d == id));
}

#[test]
fn mint_at_capacity_fails() {
    let mut p = new_pallet();
    assert_eq!(MAX_KITTY, 5);
    let ids = fill(&mut p, 1, MAX_KITTY);
    assert_eq!(p.create_kitty(&TestRandomness, 1), Err(Error::MaxKitty));
    assert_eq!(p.holdings_of(1), ids);
    assert_eq!(p.total_kitties(), 5);
    assert_eq!(p.nonce(), 6);
    assert_eq!(p.events().len(), 5);
    assert!(p.create_kitty(&TestRandomness, 2).is_ok());
}

#[test]
fn mint_of_taken_identifier_fails() {
    let mut p = new_pallet();
    let id = p.create_kitty(&FixedRandomness, 1).unwrap();
    assert_eq!(p.create_kitty(&FixedRandomness, 2), Err(Error::DuplicateKitty));
    assert_eq!(p.kitty_info(&id).unwrap().owner, 1);
    assert!(p.holdings_of(2).is_empty());
    assert_eq!(p.total_kitties(), 1);
    assert_eq!(p.nonce(), 2);
}

#[test]
fn create_kitty_with_dna_is_exact() {
    let mut p = new_pallet();
    assert_eq!(p.create_kitty_with_dna(3, vec![1, 2, 3]), Ok(vec![1, 2, 3]));
    assert_eq!(p.kitty_info(&vec![1, 2, 3]).unwrap().gender, Gender::Female);
    assert_eq!(p.create_kitty_with_dna(4, vec![1, 2, 3]), Err(Error::DuplicateKitty));
    assert_eq!(p.nonce(), 0);
}

#[test]
fn transfer_of_unknown_kitty_fails() {
    let mut p = new_pallet();
    p.create_kitty(&TestRandomness, 1).unwrap();
    assert_eq!(p.transfer(1, 2, &vec![9; 32]), Err(Error::NotFound));
    assert_eq!(p.holdings_of(1).len(), 1);
}

#[test]
fn transfer_by_non_owner_fails() {
    let mut p = new_pallet();
    let id = p.create_kitty(&TestRandomness, 1).unwrap();
    assert_eq!(p.transfer(3, 2, &id), Err(Error::NotOwner));
    assert_eq!(p.kitty_info(&id).unwrap().owner, 1);
    assert_eq!(p.holdings_of(1), vec![id]);
    assert!(p.holdings_of(2).is_empty());
    assert_eq!(p.kitty_owner(2), None);
    assert_eq!(p.events().len(), 1);
}

#[test]
fn transfer_to_full_receiver_fails() {
    let mut p = new_pallet();
    let a = p.create_kitty(&TestRandomness, 1).unwrap();
    let b = fill(&mut p, 2, MAX_KITTY);
    assert_eq!(p.transfer(1, 2, &a), Err(Error::MaxKitty));
    assert_eq!(p.holdings_of(1), vec![a.clone()]);
    assert_eq!(p.holdings_of(2), b);
    assert_eq!(p.kitty_info(&a).unwrap().owner, 1);
}

#[test]
fn transfer_to_self_at_capacity_fails() {
    let mut p = new_pallet();
    let ids = fill(&mut p, 1, MAX_KITTY);
    assert_eq!(p.transfer(1, 1, &ids[0]), Err(Error::MaxKitty));
    assert_eq!(p.holdings_of(1), ids);
}

#[test]
fn transfer_to_self_moves_to_end() {
    let mut p = new_pallet();
    let a = p.create_kitty(&TestRandomness, 1).unwrap();
    let b = p.create_kitty(&TestRandomness, 1).unwrap();
    assert_eq!(p.transfer(1, 1, &a), Ok(()));
    assert_eq!(p.holdings_of(1), vec![b, a.clone()]);
    assert_eq!(p.kitty_info(&a).unwrap().owner, 1);
}

#[test]
fn transfer_keeps_attribute() {
    let mut p = new_pallet();
    p.create_kitty_with_dna(1, vec![5, 6, 7]).unwrap();
    let before = p.kitty_info(&vec![5, 6, 7]).unwrap();
    p.transfer(1, 2, &vec![5, 6, 7]).unwrap();
    let after = p.kitty_info(&vec![5, 6, 7]).unwrap();
    assert_eq!(before.gender, after.gender);
    assert_eq!(after.gender, Kitty::gender(vec![5, 6, 7]));
    assert_eq!(before.dna, after.dna);
    assert_eq!(before.price, after.price);
}

#[test]
fn holdings_stay_unique_and_consistent() {
    let mut p = new_pallet();
    let a = p.create_kitty(&TestRandomness, 1).unwrap();
    let b = p.create_kitty(&TestRandomness, 1).unwrap();
    let c = p.create_kitty(&TestRandomness, 2).unwrap();
    p.transfer(1, 2, &a).unwrap();
    p.transfer(2, 1, &c).unwrap();
    assert_eq!(p.holdings_of(1), vec![b.clone(), c.clone()]);
    assert_eq!(p.holdings_of(2), vec![a.clone()]);
    for id in [&a, &b, &c] {
        let owner = p.kitty_info(id).unwrap().owner;
        assert!(p.holdings_of(owner).contains(id));
        let other = if owner == 1 { 2 } else { 1 };
        assert!(!p.holdings_of(other).contains(id));
    }
}

#[test]
fn gender_follows_length() {
    assert_eq!(Kitty::gender(vec![]), Gender::Male);
    assert_eq!(Kitty::gender(vec![0; 32]), Gender::Male);
    assert_eq!(Kitty::gender(vec![1, 2, 3]), Gender::Female);
    assert_eq!(Kitty::gender(vec![4]), Gender::Female);
}

#[test]
fn nonce_is_little_endian() {
    assert_eq!(encode_u64(0), vec![0; 8]);
    assert_eq!(encode_u64(1), vec![1, 0, 0, 0, 0, 0, 0, 0]);
    assert_eq!(encode_u64(0x0102), vec![2, 1, 0, 0, 0, 0, 0, 0]);
    assert_eq!(encode_u64(u64::MAX), vec![255; 8]);
}

#[test]
fn nonce_wraps_around() {
    let mut p = Pallet::with_nonce(u64::MAX);
    let id = p.create_kitty(&TestRandomness, 1).unwrap();
    assert_eq!(p.nonce(), 0);
    let mut expected = vec![255u8; 8];
    expected.resize(32, 0);
    assert_eq!(id, expected);
    let next = p.create_kitty(&TestRandomness, 1).unwrap();
    assert_eq!(next, vec![0u8; 32]);
    assert_eq!(p.nonce(), 1);
}

#[test]
fn fresh_pallet_is_empty() {
    let p = new_pallet();
    assert_eq!(p.total_kitties(), 0);
    assert_eq!(p.nonce(), 0);
    assert!(p.holdings_of(1).is_empty());
    assert_eq!(p.kitty_owner(1), None);
    assert!(p.kitty_info(&vec![0; 32]).is_none());
    assert!(p.events().is_empty());
}
