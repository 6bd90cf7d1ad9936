use near_escrow::{
    ARBITRARY_SIGN_COST, Contract, Offer, OfferError, OfferState, PUBLIC_METHOD_SELECTOR,
    SIGNER_ACCOUNT_ID, SIGN_GAS_TGAS, SellerLock, SignPolicy, contains_str, is_public_payload,
    reverse_digest, signing_payload,
};

const SELLER: &str = "seller.testnet";
const BUYER: &str = "buyer.testnet";
const OWNER: &str = "escrow.testnet";
const EMPTY_KECCAK: &str = "c5d2460186f7233c927e7db2dcc703c0e500b653ca82273b7bfad8045d85a470";

fn s(text: &str) -> String {
    text.to_string()
}

fn reversed_hex(digest_hex: &str) -> Vec<u8> {
    let mut bytes = hex::decode(digest_hex).unwrap();
    bytes.reverse();
    bytes
}

fn contract_with_offer(address: &str, amount: u128) -> Contract {
    let mut c = Contract::new(s(OWNER));
    assert_eq!(c.create_offer(s(address), amount, s(SELLER)), Ok(()));
    c
}

fn state_of(c: &Contract, address: &str) -> OfferState {
    c.offer(&s(address)).unwrap().state
}

#[test]
fn scenario_create_fund_withdraw_twice() {
    let mut c = contract_with_offer("0xabc", 5);
    let req = c.sign(s(""), s("ethereum-1"), 0, s("0xabc"), 5, s(BUYER)).unwrap();
    assert_eq!(req.payload, reversed_hex(EMPTY_KECCAK));
    assert_eq!(req.path, "ethereum-1");
    assert_eq!(req.key_version, 0);
    let offer = c.offer(&s("0xabc")).unwrap();
    assert!(offer.buyer_deposited());
    assert!(offer.withdraw_available());
    let t = c.withdrawBySeller(s("0xabc")).unwrap();
    assert_eq!(t.receiver, SELLER);
    assert_eq!(t.amount, 5);
    assert!(!c.is_seller_locked(&s(SELLER)));
    assert_eq!(state_of(&c, "0xabc"), OfferState::Withdrawn);
    assert!(matches!(c.withdrawBySeller(s("0xabc")), Err(OfferError::NotAvailable)));
}

#[test]
fn create_offer_records_open_offer_and_lock() {
    let c = contract_with_offer("0xabc", 7);
    let o = c.offer(&s("0xabc")).unwrap();
    assert_eq!(o.derived_address, "0xabc");
    assert_eq!(o.seller, SELLER);
    assert_eq!(o.expected_amount, 7);
    assert_eq!(o.state, OfferState::Open);
    assert!(!o.buyer_deposited());
    assert!(!o.withdraw_available());
    assert!(c.is_seller_locked(&s(SELLER)));
    assert!(!c.is_seller_locked(&s(BUYER)));
    assert!(c.offer(&s("0xdef")).is_none());
}

#[test]
fn seller_cannot_hold_two_offers_until_withdrawal() {
    let mut c = contract_with_offer("0xabc", 5);
    assert_eq!(c.create_offer(s("0xdef"), 3, s(SELLER)), Err(OfferError::SellerHasOffer));
    assert!(c.offer(&s("0xdef")).is_none());
    c.sign(s("00"), s("p"), 0, s("0xabc"), 5, s(BUYER)).unwrap();
    assert_eq!(c.create_offer(s("0xdef"), 3, s(SELLER)), Err(OfferError::SellerHasOffer));
    c.withdrawBySeller(s("0xabc")).unwrap();
    assert_eq!(c.create_offer(s("0xdef"), 3, s(SELLER)), Ok(()));
    assert!(c.is_seller_locked(&s(SELLER)));
}

#[test]
fn address_in_use_is_refused() {
    let mut c = contract_with_offer("0xabc", 5);
    assert_eq!(c.create_offer(s("0xabc"), 9, s(BUYER)), Err(OfferError::AddressInUse));
    assert!(!c.is_seller_locked(&s(BUYER)));
    assert_eq!(c.offer(&s("0xabc")).unwrap().expected_amount, 5);
    c.sign(s("00"), s("p"), 0, s("0xabc"), 5, s(BUYER)).unwrap();
    c.withdrawBySeller(s("0xabc")).unwrap();
    assert_eq!(c.create_offer(s("0xabc"), 9, s(BUYER)), Err(OfferError::AddressInUse));
}

#[test]
fn short_deposit_is_refused() {
    let mut c = contract_with_offer("0xabc", 5);
    let r = c.sign(s("00"), s("p"), 0, s("0xabc"), 4, s(BUYER));
    assert!(matches!(r, Err(OfferError::InsufficientDeposit)));
    assert_eq!(state_of(&c, "0xabc"), OfferState::Open);
    assert!(!c.offer(&s("0xabc")).unwrap().buyer_deposited());
}

#[test]
fn larger_deposit_is_accepted() {
    let mut c = contract_with_offer("0xabc", 5);
    assert!(c.sign(s("00"), s("p"), 0, s("0xabc"), 6, s(BUYER)).is_ok());
    assert_eq!(state_of(&c, "0xabc"), OfferState::Funded);
}

#[test]
fn signing_twice_keeps_the_offer_funded() {
    let mut c = contract_with_offer("0xabc", 5);
    let first = c.sign(s("0102"), s("p"), 1, s("0xabc"), 5, s(BUYER)).unwrap();
    let second = c.sign(s("0102"), s("p"), 1, s("0xabc"), 5, s(BUYER)).unwrap();
    assert_eq!(first.payload, second.payload);
    assert_eq!(state_of(&c, "0xabc"), OfferState::Funded);
    assert!(c.is_seller_locked(&s(SELLER)));
    assert_eq!(c.create_offer(s("0xabc"), 5, s(BUYER)), Err(OfferError::AddressInUse));
    let t = c.withdrawBySeller(s("0xabc")).unwrap();
    assert_eq!(t.amount, 5);
    assert!(matches!(c.withdrawBySeller(s("0xabc")), Err(OfferError::NotAvailable)));
}

#[test]
fn withdraw_before_deposit_is_refused() {
    let mut c = contract_with_offer("0xabc", 5);
    assert!(matches!(c.withdrawBySeller(s("0xabc")), Err(OfferError::NotDeposited)));
    assert_eq!(state_of(&c, "0xabc"), OfferState::Open);
    assert!(c.is_seller_locked(&s(SELLER)));
}

#[test]
fn unknown_address_is_refused() {
    let mut c = contract_with_offer("0xabc", 5);
    let r = c.sign(s("00"), s("p"), 0, s("0xdef"), 5, s(BUYER));
    assert!(matches!(r, Err(OfferError::AddressNotRegistered)));
    assert!(matches!(c.withdrawBySeller(s("0xdef")), Err(OfferError::AddressNotRegistered)));
}

#[test]
fn bad_hex_payload_is_refused_without_funding() {
    let mut c = contract_with_offer("0xabc", 5);
    let odd = c.sign(s("abc"), s("p"), 0, s("0xabc"), 5, s(BUYER));
    assert!(matches!(odd, Err(OfferError::InvalidPayload)));
    let bad = c.sign(s("zz"), s("p"), 0, s("0xabc"), 5, s(BUYER));
    assert!(matches!(bad, Err(OfferError::InvalidPayload)));
    assert_eq!(state_of(&c, "0xabc"), OfferState::Open);
}

#[test]
fn empty_payload_signs_reversed_empty_digest() {
    assert_eq!(signing_payload("").unwrap(), reversed_hex(EMPTY_KECCAK));
}

#[test]
fn known_payload_signs_reversed_digest() {
    let text = hex::encode("The phrase that will be hashed");
    let expected =
        reversed_hex("b244af9dd4aada2eda59130bbcff112f29b427d924b654aaeb5a0384fa9afed4");
    assert_eq!(signing_payload(&text).unwrap(), expected);
    assert_eq!(signing_payload(&text.to_uppercase()).unwrap(), expected);
}

#[test]
fn payload_text_that_is_not_hex_is_rejected() {
    assert!(signing_payload("0").is_none());
    assert!(signing_payload("0g").is_none());
    assert!(signing_payload("é0").is_none());
}

#[test]
fn reverse_digest_reverses() {
    assert_eq!(reverse_digest(&vec![1, 2, 3, 4]), vec![4, 3, 2, 1]);
    assert_eq!(reverse_digest(&vec![]), Vec::<u8>::new());
}

#[test]
fn substring_search() {
    assert!(contains_str("abcdef", "cde"));
    assert!(contains_str("abc", ""));
    assert!(contains_str("abc", "abc"));
    assert!(!contains_str("abc", "abcd"));
    assert!(!contains_str("abcabd", "abe"));
}

#[test]
fn public_payload_names_the_selector() {
    let payload = format!("f8{}00", PUBLIC_METHOD_SELECTOR);
    assert!(is_public_payload(&payload));
    assert!(!is_public_payload("f86c808504a817c800"));
}

#[test]
fn default_policy_lets_any_payload_through() {
    let p = SignPolicy::default();
    assert!(!p.owner_only_arbitrary);
    assert_eq!(p.arbitrary_min_deposit, ARBITRARY_SIGN_COST);
    let c = Contract::new(s(OWNER));
    assert_eq!(c.policy(), p);
    assert_eq!(c.owner(), OWNER);
    let mut c = contract_with_offer("0xabc", 5);
    assert!(c.sign(s("00"), s("p"), 0, s("0xabc"), 5, s(BUYER)).is_ok());
}

#[test]
fn restricted_policy_keeps_arbitrary_payloads_for_owner() {
    let policy = SignPolicy { owner_only_arbitrary: true, arbitrary_min_deposit: 3 };
    let mut c = Contract::with_policy(s(OWNER), policy);
    assert_eq!(c.create_offer(s("0xabc"), 1, s(SELLER)), Ok(()));
    let r = c.sign(s("00"), s("p"), 0, s("0xabc"), 5, s(BUYER));
    assert!(matches!(r, Err(OfferError::OwnerOnly)));
    let r = c.sign(s("00"), s("p"), 0, s("0xabc"), 2, s(OWNER));
    assert!(matches!(r, Err(OfferError::BelowArbitraryCost)));
    assert_eq!(state_of(&c, "0xabc"), OfferState::Open);
    let public = format!("{}", PUBLIC_METHOD_SELECTOR);
    assert!(c.sign(public, s("p"), 0, s("0xabc"), 1, s(BUYER)).is_ok());
    assert!(c.sign(s("00"), s("p"), 0, s("0xabc"), 3, s(OWNER)).is_ok());
}

#[test]
fn signer_settings() {
    assert_eq!(SIGNER_ACCOUNT_ID, "v5.multichain-mpc-dev.testnet");
    assert_eq!(SIGN_GAS_TGAS, 250);
}

fn stored_offer(address: &str, seller: &str, amount: u128, state: OfferState) -> Offer {
    Offer { derived_address: s(address), seller: s(seller), expected_amount: amount, state }
}

fn stored_lock(seller: &str, address: &str) -> SellerLock {
    SellerLock { seller: s(seller), derived_address: s(address) }
}

#[test]
fn parts_round_trip() {
    let mut c = contract_with_offer("0xabc", 5);
    c.sign(s("00"), s("p"), 0, s("0xabc"), 5, s(BUYER)).unwrap();
    let (offers, locks, owner, policy) = c.into_parts();
    assert_eq!(offers.len(), 1);
    assert_eq!(offers[0].state, OfferState::Funded);
    assert_eq!(locks.len(), 1);
    assert_eq!(locks[0].seller, SELLER);
    assert_eq!(locks[0].derived_address, "0xabc");
    let mut back = Contract::from_parts(owner, policy, offers, locks).unwrap();
    assert_eq!(back.owner(), OWNER);
    assert!(back.is_seller_locked(&s(SELLER)));
    assert_eq!(back.withdrawBySeller(s("0xabc")).unwrap().amount, 5);
}

#[test]
fn parts_that_disagree_are_rejected() {
    let p = SignPolicy::default();
    let twice = vec![
        stored_offer("0xabc", SELLER, 5, OfferState::Open),
        stored_offer("0xabc", BUYER, 6, OfferState::Open),
    ];
    assert!(Contract::from_parts(s(OWNER), p, twice, vec![]).is_none());
    let one = || vec![stored_offer("0xabc", SELLER, 5, OfferState::Open)];
    let missing = vec![stored_lock(SELLER, "0xdef")];
    assert!(Contract::from_parts(s(OWNER), p, one(), missing).is_none());
    let foreign = vec![stored_lock(BUYER, "0xabc")];
    assert!(Contract::from_parts(s(OWNER), p, one(), foreign).is_none());
    let doubled = vec![stored_lock(SELLER, "0xabc"), stored_lock(SELLER, "0xabc")];
    assert!(Contract::from_parts(s(OWNER), p, one(), doubled).is_none());
    let good = vec![stored_lock(SELLER, "0xabc")];
    assert!(Contract::from_parts(s(OWNER), p, one(), good).is_some());
}

#[test]
fn only_owner_sets_policy() {
    let mut c = contract_with_offer("0xabc", 5);
    let strict = SignPolicy { owner_only_arbitrary: true, arbitrary_min_deposit: 2 };
    assert_eq!(c.set_policy(strict, s(SELLER)), Err(OfferError::OwnerOnly));
    assert_eq!(c.policy(), SignPolicy::default());
    assert_eq!(c.set_policy(strict, s(OWNER)), Ok(()));
    assert_eq!(c.policy(), strict);
    let r = c.sign(s("00"), s("p"), 0, s("0xabc"), 5, s(BUYER));
    assert!(matches!(r, Err(OfferError::OwnerOnly)));
}

#[test]
fn withdrawn_offer_cannot_be_funded_again() {
    let mut c = contract_with_offer("0xd1", 5);
    c.sign(s("00"), s("p"), 0, s("0xd1"), 5, s(BUYER)).unwrap();
    assert_eq!(c.withdrawBySeller(s("0xd1")).unwrap().amount, 5);
    assert_eq!(c.create_offer(s("0xd2"), 3, s(SELLER)), Ok(()));
    assert!(c.is_seller_locked(&s(SELLER)));
    let again = c.sign(s("00"), s("p"), 0, s("0xd1"), 5, s(BUYER));
    assert!(matches!(again, Err(OfferError::AddressNotRegistered)));
    assert_eq!(state_of(&c, "0xd1"), OfferState::Withdrawn);
    assert!(matches!(c.withdrawBySeller(s("0xd1")), Err(OfferError::NotAvailable)));
    assert!(c.is_seller_locked(&s(SELLER)));
    assert_eq!(state_of(&c, "0xd2"), OfferState::Open);
    assert_eq!(c.create_offer(s("0xd3"), 1, s(SELLER)), Err(OfferError::SellerHasOffer));
}

#[test]
fn funding_keeps_seller_locked() {
    let mut c = contract_with_offer("0xabc", 5);
    c.sign(s("00"), s("p"), 0, s("0xabc"), 5, s(BUYER)).unwrap();
    c.sign(s("0a0b"), s("q"), 2, s("0xabc"), 9, s(OWNER)).unwrap();
    assert!(c.is_seller_locked(&s(SELLER)));
    assert_eq!(c.create_offer(s("0xdef"), 3, s(SELLER)), Err(OfferError::SellerHasOffer));
    assert!(c.offer(&s("0xdef")).is_none());
}

#[test]
fn parts_must_lock_active_offers() {
    let p = SignPolicy::default();
    let open = vec![stored_offer("0xabc", SELLER, 5, OfferState::Open)];
    assert!(Contract::from_parts(s(OWNER), p, open, vec![]).is_none());
    let done = || vec![stored_offer("0xabc", SELLER, 5, OfferState::Withdrawn)];
    assert!(Contract::from_parts(s(OWNER), p, done(), vec![]).is_some());
    let stale = vec![stored_lock(SELLER, "0xabc")];
    assert!(Contract::from_parts(s(OWNER), p, done(), stale).is_none());
}
