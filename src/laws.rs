use vstd::prelude::*;
use crate::contract::{ContractView, create_offer_step, sign_step, withdraw_step};
use crate::offer::{OfferError, OfferState};
use crate::payload::{hex_bytes, is_hex_text, keccak256_of, signing_payload_of};

verus! {

/// Once a seller has created an offer, a further offer by the same seller is
/// refused, whatever its address and amount.
pub proof fn seller_exclusivity(
    pre: ContractView,
    address: Seq<char>,
    amount: u128,
    seller: Seq<char>,
    other_address: Seq<char>,
    other_amount: u128,
)
    requires
        create_offer_step(pre, address, amount, seller).0 is Ok,
    ensures
        create_offer_step(pre, address, amount, seller).1.locks.contains_key(seller),
        create_offer_step(
            create_offer_step(pre, address, amount, seller).1,
            other_address,
            other_amount,
            seller,
        ).0 == Err::<(), OfferError>(OfferError::SellerHasOffer),
{
}

/// A locked seller cannot create another offer, and nothing changes.
pub proof fn locked_seller_cannot_create(
    pre: ContractView,
    seller: Seq<char>,
    address: Seq<char>,
    amount: u128,
)
    requires
        pre.locks.contains_key(seller),
    ensures
        create_offer_step(pre, address, amount, seller) == (
            Err::<(), OfferError>(OfferError::SellerHasOffer),
            pre,
        ),
{
}

/// A seller's lock outlives every operation but the withdrawal of the very
/// offer that the lock names.
pub proof fn seller_lock_held_until_withdrawal(
    pre: ContractView,
    seller: Seq<char>,
    address: Seq<char>,
    amount: u128,
    caller: Seq<char>,
    payload: Seq<char>,
    attached: u128,
)
    requires
        pre.locks_consistent(),
        pre.locks.contains_key(seller),
    ensures
        create_offer_step(pre, address, amount, caller).1.locks.contains_key(seller),
        create_offer_step(pre, address, amount, caller).1.locks[seller] == pre.locks[seller],
        sign_step(pre, payload, address, attached, caller).1.locks == pre.locks,
        withdraw_step(pre, address).1.locks.contains_key(seller) || (withdraw_step(
            pre,
            address,
        ).0 is Ok && pre.locks[seller] == address),
{
    if !pre.locks.contains_key(caller) && !pre.offers.contains_key(address) {
        assert(pre.offers.contains_key(pre.locks[seller]));
    }
    if pre.offers.contains_key(address) && pre.offers[address].state == OfferState::Funded {
        let owner = pre.offers[address].seller;
        assert(pre.locks[owner] == address);
    }
}

/// Withdrawing a funded offer releases its seller, who may then create an
/// offer at any free address.
pub proof fn withdrawal_releases_seller(
    pre: ContractView,
    address: Seq<char>,
    new_address: Seq<char>,
    new_amount: u128,
)
    requires
        pre.locks_consistent(),
        withdraw_step(pre, address).0 is Ok,
        !pre.offers.contains_key(new_address),
    ensures
        !withdraw_step(pre, address).1.locks.contains_key(pre.offers[address].seller),
        create_offer_step(
            withdraw_step(pre, address).1,
            new_address,
            new_amount,
            pre.offers[address].seller,
        ).0 is Ok,
        create_offer_step(
            withdraw_step(pre, address).1,
            new_address,
            new_amount,
            pre.offers[address].seller,
        ).1.locks[pre.offers[address].seller] == new_address,
{
}

/// Once an address carries an offer, every later offer at that address is
/// refused, and no operation frees the address again.
pub proof fn address_exclusivity(
    pre: ContractView,
    address: Seq<char>,
    amount: u128,
    caller: Seq<char>,
    payload: Seq<char>,
    attached: u128,
)
    requires
        pre.offers.contains_key(address),
    ensures
        create_offer_step(pre, address, amount, caller).0 is Err,
        create_offer_step(pre, address, amount, caller).1 == pre,
        forall|other: Seq<char>, a: u128, c: Seq<char>|
            #[trigger] create_offer_step(pre, other, a, c).1.offers.contains_key(address),
        forall|other: Seq<char>|
            #[trigger] sign_step(pre, payload, other, attached, caller).1.offers.contains_key(
                address,
            ),
        forall|other: Seq<char>| #[trigger] withdraw_step(pre, other).1.offers.contains_key(address),
{
}

/// A deposit below the offer's amount is always refused and changes nothing
/// (for an open or funded offer, as an insufficient deposit);
/// a signature is only granted on a deposit that covers the amount.
pub proof fn deposit_gate(
    pre: ContractView,
    payload: Seq<char>,
    address: Seq<char>,
    attached: u128,
    caller: Seq<char>,
)
    requires
        pre.offers.contains_key(address),
    ensures
        attached < pre.offers[address].expected_amount ==> sign_step(
            pre,
            payload,
            address,
            attached,
            caller,
        ).0 is Err && sign_step(pre, payload, address, attached, caller).1 == pre,
        attached < pre.offers[address].expected_amount && pre.offers[address].is_active()
            ==> sign_step(pre, payload, address, attached, caller).0 == Err::<Seq<u8>, OfferError>(
            OfferError::InsufficientDeposit,
        ),
        sign_step(pre, payload, address, attached, caller).0 is Ok ==> attached
            >= pre.offers[address].expected_amount && sign_step(
            pre,
            payload,
            address,
            attached,
            caller,
        ).1.offers[address].buyer_deposited(),
{
}

/// Signing again for a funded offer leaves the escrow as it was: no second
/// lock, no second offer. Under the default policy a later signing request
/// for the offer, with any caller, valid payload and sufficient deposit,
/// succeeds and changes nothing.
pub proof fn funding_idempotent(
    pre: ContractView,
    payload: Seq<char>,
    address: Seq<char>,
    attached: u128,
    caller: Seq<char>,
    later_payload: Seq<char>,
    later_attached: u128,
    later_caller: Seq<char>,
)
    requires
        sign_step(pre, payload, address, attached, caller).0 is Ok,
    ensures
        pre.offers[address].state == OfferState::Funded ==> sign_step(
            pre,
            payload,
            address,
            attached,
            caller,
        ).1 == pre,
        sign_step(sign_step(pre, payload, address, attached, caller).1, payload, address, attached, caller)
            == (sign_step(pre, payload, address, attached, caller).0, sign_step(
            pre,
            payload,
            address,
            attached,
            caller,
        ).1),
        !pre.policy.owner_only_arbitrary && later_attached >= pre.offers[address].expected_amount
            && is_hex_text(later_payload) ==> sign_step(
            sign_step(pre, payload, address, attached, caller).1,
            later_payload,
            address,
            later_attached,
            later_caller,
        ) == (
            Ok::<Seq<u8>, OfferError>(signing_payload_of(later_payload)),
            sign_step(pre, payload, address, attached, caller).1,
        ),
{
    let post = sign_step(pre, payload, address, attached, caller).1;
    assert(post.offers.insert(address, post.offers[address].with_state(OfferState::Funded))
        =~= post.offers);
    if pre.offers[address].state == OfferState::Funded {
        assert(pre.offers[address].with_state(OfferState::Funded) == pre.offers[address]);
        assert(post.offers =~= pre.offers);
    }
}

/// Under the default policy, a sufficient deposit on an open or funded offer
/// gets valid hex text signed as the Keccak-256 digest of its bytes, byte
/// order reversed.
pub proof fn signed_payload_is_reversed_digest(
    pre: ContractView,
    payload: Seq<char>,
    address: Seq<char>,
    attached: u128,
    caller: Seq<char>,
)
    requires
        pre.offers.contains_key(address),
        pre.offers[address].is_active(),
        attached >= pre.offers[address].expected_amount,
        !pre.policy.owner_only_arbitrary,
        is_hex_text(payload),
    ensures
        sign_step(pre, payload, address, attached, caller).0 == Ok::<Seq<u8>, OfferError>(
            signing_payload_of(payload),
        ),
        signing_payload_of(payload).len() == keccak256_of(hex_bytes(payload)).len(),
        forall|i: int|
            0 <= i < signing_payload_of(payload).len() ==> #[trigger] signing_payload_of(payload)[i]
                == keccak256_of(hex_bytes(payload))[keccak256_of(hex_bytes(payload)).len() - 1 - i],
{
}

/// A withdrawal succeeds exactly on a funded offer, and a second one for the
/// same offer is refused as no longer available.
pub proof fn withdraw_one_shot(pre: ContractView, address: Seq<char>)
    ensures
        withdraw_step(pre, address).0 is Ok <==> pre.offers.contains_key(address)
            && pre.offers[address].withdraw_available(),
        withdraw_step(pre, address).0 is Ok ==> withdraw_step(
            withdraw_step(pre, address).1,
            address,
        ) == (
            Err::<(Seq<char>, u128), OfferError>(OfferError::NotAvailable),
            withdraw_step(pre, address).1,
        ),
{
}

/// A withdrawal from an offer whose buyer has not deposited is refused and
/// changes nothing.
pub proof fn withdraw_needs_deposit(pre: ContractView, address: Seq<char>)
    requires
        pre.offers.contains_key(address),
        !pre.offers[address].buyer_deposited(),
    ensures
        withdraw_step(pre, address).0 is Err,
        withdraw_step(pre, address).1 == pre,
{
}

/// Every operation keeps the locks in agreement with the open and funded
/// offers.
pub proof fn operations_keep_locks_consistent(
    pre: ContractView,
    address: Seq<char>,
    amount: u128,
    caller: Seq<char>,
    payload: Seq<char>,
    attached: u128,
)
    requires
        pre.locks_consistent(),
    ensures
        create_offer_step(pre, address, amount, caller).1.locks_consistent(),
        sign_step(pre, payload, address, attached, caller).1.locks_consistent(),
        withdraw_step(pre, address).1.locks_consistent(),
{
    if create_offer_step(pre, address, amount, caller).0 is Ok {
        let c = create_offer_step(pre, address, amount, caller).1;
        assert forall|s: Seq<char>| #[trigger] c.locks.contains_key(s) implies {
            &&& c.offers.contains_key(c.locks[s])
            &&& c.offers[c.locks[s]].seller == s
            &&& c.offers[c.locks[s]].is_active()
        } by {
            if s != caller {
                assert(pre.offers.contains_key(pre.locks[s]));
            }
        }
        assert forall|a: Seq<char>| #[trigger]
            c.offers.contains_key(a) && c.offers[a].is_active() implies {
            &&& c.locks.contains_key(c.offers[a].seller)
            &&& c.locks[c.offers[a].seller] == a
        } by {
            if a != address {
                assert(pre.offers.contains_key(a) && pre.offers[a].is_active());
                assert(pre.locks.contains_key(pre.offers[a].seller));
            }
        }
    }
    if sign_step(pre, payload, address, attached, caller).0 is Ok {
        let g = sign_step(pre, payload, address, attached, caller).1;
        assert forall|s: Seq<char>| #[trigger] g.locks.contains_key(s) implies {
            &&& g.offers.contains_key(g.locks[s])
            &&& g.offers[g.locks[s]].seller == s
            &&& g.offers[g.locks[s]].is_active()
        } by {
            assert(pre.offers.contains_key(pre.locks[s]));
        }
        assert forall|a: Seq<char>| #[trigger]
            g.offers.contains_key(a) && g.offers[a].is_active() implies {
            &&& g.locks.contains_key(g.offers[a].seller)
            &&& g.locks[g.offers[a].seller] == a
        } by {
            assert(pre.offers.contains_key(a) && pre.offers[a].is_active());
        }
    }
    if withdraw_step(pre, address).0 is Ok {
        let w = withdraw_step(pre, address).1;
        let owner = pre.offers[address].seller;
        assert(pre.locks[owner] == address);
        assert forall|s: Seq<char>| #[trigger] w.locks.contains_key(s) implies {
            &&& w.offers.contains_key(w.locks[s])
            &&& w.offers[w.locks[s]].seller == s
            &&& w.offers[w.locks[s]].is_active()
        } by {
            assert(pre.locks.contains_key(s));
            assert(pre.offers.contains_key(pre.locks[s]));
        }
        assert forall|a: Seq<char>| #[trigger]
            w.offers.contains_key(a) && w.offers[a].is_active() implies {
            &&& w.locks.contains_key(w.offers[a].seller)
            &&& w.locks[w.offers[a].seller] == a
        } by {
            assert(pre.offers.contains_key(a) && pre.offers[a].is_active());
        }
    }
}

} // verus!
