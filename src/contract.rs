use vstd::prelude::*;
use crate::laws::operations_keep_locks_consistent;
use crate::offer::{Offer, OfferError, OfferState, OfferView, SellerLock};
use crate::payload::{
    is_hex_text, is_public_payload, is_public_text, signing_payload, signing_payload_of,
};

verus! {

/// The account of the threshold signer that signing requests go to.
pub const SIGNER_ACCOUNT_ID: &'static str = "v5.multichain-mpc-dev.testnet";

/// The gas, in teragas, attached to each signing request.
pub const SIGN_GAS_TGAS: u64 = 250;

/// The deposit that the restricted policy asks for to sign an arbitrary payload.
pub const ARBITRARY_SIGN_COST: u128 = 1;

/// Who may have a payload signed that does not name the public method.
#[derive(Clone, Copy, Debug, PartialEq, Eq, Structural)]
pub struct SignPolicy {
    /// Only the owner may sign an arbitrary payload, with at least
    /// `arbitrary_min_deposit` attached.
    pub owner_only_arbitrary: bool,
    pub arbitrary_min_deposit: u128,
}

impl Default for SignPolicy {
    /// The restriction is off: any funded payload is signed.
    fn default() -> (r: SignPolicy)
        ensures
            !r.owner_only_arbitrary,
            r.arbitrary_min_deposit == ARBITRARY_SIGN_COST,
    {
        SignPolicy { owner_only_arbitrary: false, arbitrary_min_deposit: ARBITRARY_SIGN_COST }
    }
}

/// A request for the threshold signer: a 32-byte payload, a derivation path
/// and a key version.
pub struct SignRequest {
    pub payload: Vec<u8>,
    pub path: String,
    pub key_version: u32,
}

/// A transfer of the native currency to an account.
pub struct Transfer {
    pub receiver: String,
    pub amount: u128,
}

/// Offers by derived address, as listed.
pub open spec fn offer_table(offers: Seq<Offer>) -> Map<Seq<char>, OfferView>
    decreases offers.len(),
{
    if offers.len() == 0 {
        Map::empty()
    } else {
        offer_table(offers.drop_last()).insert(offers.last().derived_address@, offers.last()@)
    }
}

/// Seller locks by seller, as listed.
pub open spec fn lock_table(locks: Seq<SellerLock>) -> Map<Seq<char>, Seq<char>>
    decreases locks.len(),
{
    if locks.len() == 0 {
        Map::empty()
    } else {
        lock_table(locks.drop_last()).insert(locks.last().seller@, locks.last().derived_address@)
    }
}

/// No two offers share a derived address.
pub open spec fn distinct_addresses(offers: Seq<Offer>) -> bool {
    forall|i: int, j: int|
        0 <= i < j < offers.len() ==> #[trigger] offers[i].derived_address@
            != #[trigger] offers[j].derived_address@
}

/// No two locks share a seller.
pub open spec fn distinct_sellers(locks: Seq<SellerLock>) -> bool {
    forall|i: int, j: int|
        0 <= i < j < locks.len() ==> #[trigger] locks[i].seller@ != #[trigger] locks[j].seller@
}

/// Each listed lock names an open or funded offer of its own seller.
pub open spec fn locks_name_offers(offers: Seq<Offer>, locks: Seq<SellerLock>) -> bool {
    forall|i: int|
        0 <= i < locks.len() ==> {
            &&& offer_table(offers).contains_key(#[trigger] locks[i].derived_address@)
            &&& offer_table(offers)[locks[i].derived_address@].seller == locks[i].seller@
            &&& offer_table(offers)[locks[i].derived_address@].is_active()
        }
}

/// The seller of each listed open or funded offer is locked to its address.
pub open spec fn active_offers_locked(offers: Seq<Offer>, locks: Seq<SellerLock>) -> bool {
    forall|j: int|
        0 <= j < offers.len() && offers[j]@.is_active() ==> {
            &&& lock_table(locks).contains_key(#[trigger] offers[j].seller@)
            &&& lock_table(locks)[offers[j].seller@] == offers[j].derived_address@
        }
}

/// Stored offers and locks that make up an escrow: addresses and sellers
/// are distinct, and the locks agree with the open and funded offers.
pub open spec fn valid_parts(offers: Seq<Offer>, locks: Seq<SellerLock>) -> bool {
    &&& distinct_addresses(offers)
    &&& distinct_sellers(locks)
    &&& locks_agree(offer_table(offers), lock_table(locks))
}

proof fn lemma_offer_table(offers: Seq<Offer>)
    requires
        distinct_addresses(offers),
    ensures
        forall|i: int|
            0 <= i < offers.len() ==> {
                &&& offer_table(offers).contains_key(#[trigger] offers[i].derived_address@)
                &&& offer_table(offers)[offers[i].derived_address@] == offers[i]@
            },
        forall|k: Seq<char>|
            #[trigger] offer_table(offers).contains_key(k) ==> exists|i: int|
                0 <= i < offers.len() && #[trigger] offers[i].derived_address@ == k,
    decreases offers.len(),
{
    if offers.len() > 0 {
        let front = offers.drop_last();
        assert forall|i: int, j: int|
            0 <= i < j < front.len() implies #[trigger] front[i].derived_address@
            != #[trigger] front[j].derived_address@ by {
            assert(front[i] == offers[i] && front[j] == offers[j]);
        }
        lemma_offer_table(front);
        assert forall|i: int| 0 <= i < offers.len() implies {
            &&& offer_table(offers).contains_key(#[trigger] offers[i].derived_address@)
            &&& offer_table(offers)[offers[i].derived_address@] == offers[i]@
        } by {
            if i < offers.len() - 1 {
                assert(front[i] == offers[i]);
                assert(offers[i].derived_address@ != offers[offers.len() - 1].derived_address@);
            }
        }
        assert forall|k: Seq<char>| #[trigger]
            offer_table(offers).contains_key(k) implies exists|i: int|
            0 <= i < offers.len() && #[trigger] offers[i].derived_address@ == k by {
            if k != offers.last().derived_address@ {
                assert(offer_table(front).contains_key(k));
                let i = choose|i: int|
                    0 <= i < front.len() && #[trigger] front[i].derived_address@ == k;
                assert(offers[i] == front[i]);
            } else {
                assert(offers[offers.len() - 1].derived_address@ == k);
            }
        }
    }
}

proof fn lemma_lock_table(locks: Seq<SellerLock>)
    requires
        distinct_sellers(locks),
    ensures
        forall|i: int|
            0 <= i < locks.len() ==> {
                &&& lock_table(locks).contains_key(#[trigger] locks[i].seller@)
                &&& lock_table(locks)[locks[i].seller@] == locks[i].derived_address@
            },
        forall|k: Seq<char>|
            #[trigger] lock_table(locks).contains_key(k) ==> exists|i: int|
                0 <= i < locks.len() && #[trigger] locks[i].seller@ == k,
    decreases locks.len(),
{
    if locks.len() > 0 {
        let front = locks.drop_last();
        assert forall|i: int, j: int|
            0 <= i < j < front.len() implies #[trigger] front[i].seller@
            != #[trigger] front[j].seller@ by {
            assert(front[i] == locks[i] && front[j] == locks[j]);
        }
        lemma_lock_table(front);
        assert forall|i: int| 0 <= i < locks.len() implies {
            &&& lock_table(locks).contains_key(#[trigger] locks[i].seller@)
            &&& lock_table(locks)[locks[i].seller@] == locks[i].derived_address@
        } by {
            if i < locks.len() - 1 {
                assert(front[i] == locks[i]);
                assert(locks[i].seller@ != locks[locks.len() - 1].seller@);
            }
        }
        assert forall|k: Seq<char>| #[trigger]
            lock_table(locks).contains_key(k) implies exists|i: int|
            0 <= i < locks.len() && #[trigger] locks[i].seller@ == k by {
            if k != locks.last().seller@ {
                assert(lock_table(front).contains_key(k));
                let i = choose|i: int| 0 <= i < front.len() && #[trigger] front[i].seller@ == k;
                assert(locks[i] == front[i]);
            } else {
                assert(locks[locks.len() - 1].seller@ == k);
            }
        }
    }
}

proof fn lemma_parts_agree(offers: Seq<Offer>, locks: Seq<SellerLock>)
    requires
        distinct_addresses(offers),
        distinct_sellers(locks),
    ensures
        locks_agree(offer_table(offers), lock_table(locks)) == (locks_name_offers(offers, locks)
            && active_offers_locked(offers, locks)),
{
    lemma_offer_table(offers);
    lemma_lock_table(locks);
    let ot = offer_table(offers);
    let lt = lock_table(locks);
    if locks_agree(ot, lt) {
        assert forall|i: int| 0 <= i < locks.len() implies {
            &&& ot.contains_key(#[trigger] locks[i].derived_address@)
            &&& ot[locks[i].derived_address@].seller == locks[i].seller@
            &&& ot[locks[i].derived_address@].is_active()
        } by {
            assert(lt.contains_key(locks[i].seller@));
        }
        assert forall|j: int| 0 <= j < offers.len() && offers[j]@.is_active() implies {
            &&& lt.contains_key(#[trigger] offers[j].seller@)
            &&& lt[offers[j].seller@] == offers[j].derived_address@
        } by {
            assert(ot.contains_key(offers[j].derived_address@));
        }
    }
    if locks_name_offers(offers, locks) && active_offers_locked(offers, locks) {
        assert forall|s: Seq<char>| #[trigger] lt.contains_key(s) implies {
            &&& ot.contains_key(lt[s])
            &&& ot[lt[s]].seller == s
            &&& ot[lt[s]].is_active()
        } by {
            let i = choose|i: int| 0 <= i < locks.len() && #[trigger] locks[i].seller@ == s;
            assert(lt[s] == locks[i].derived_address@);
        }
        assert forall|a: Seq<char>| #[trigger] ot.contains_key(a) && ot[a].is_active() implies {
            &&& lt.contains_key(ot[a].seller)
            &&& lt[ot[a].seller] == a
        } by {
            let j = choose|j: int| 0 <= j < offers.len() && #[trigger] offers[j].derived_address@ == a;
            assert(ot[a] == offers[j]@);
        }
    }
}

fn addresses_distinct(offers: &Vec<Offer>) -> (r: bool)
    ensures
        r == distinct_addresses(offers@),
{
    let mut j: usize = 0;
    while j < offers.len()
        invariant
            j <= offers@.len(),
            forall|a: int, b: int|
                0 <= a < b < j ==> #[trigger] offers@[a].derived_address@
                    != #[trigger] offers@[b].derived_address@,
        decreases offers@.len() - j,
    {
        let mut i: usize = 0;
        while i < j
            invariant
                j < offers@.len(),
                i <= j,
                forall|a: int, b: int|
                    0 <= a < b < j ==> #[trigger] offers@[a].derived_address@
                        != #[trigger] offers@[b].derived_address@,
                forall|a: int|
                    0 <= a < i ==> offers@[a].derived_address@ != offers@[j as int].derived_address@,
            decreases j - i,
        {
            if offers[i].derived_address == offers[j].derived_address {
                assert(offers@[i as int].derived_address@ == offers@[j as int].derived_address@);
                return false;
            }
            i = i + 1;
        }
        j = j + 1;
    }
    true
}

fn sellers_distinct(locks: &Vec<SellerLock>) -> (r: bool)
    ensures
        r == distinct_sellers(locks@),
{
    let mut j: usize = 0;
    while j < locks.len()
        invariant
            j <= locks@.len(),
            forall|a: int, b: int|
                0 <= a < b < j ==> #[trigger] locks@[a].seller@ != #[trigger] locks@[b].seller@,
        decreases locks@.len() - j,
    {
        let mut i: usize = 0;
        while i < j
            invariant
                j < locks@.len(),
                i <= j,
                forall|a: int, b: int|
                    0 <= a < b < j ==> #[trigger] locks@[a].seller@ != #[trigger] locks@[b].seller@,
                forall|a: int| 0 <= a < i ==> locks@[a].seller@ != locks@[j as int].seller@,
            decreases j - i,
        {
            if locks[i].seller == locks[j].seller {
                assert(locks@[i as int].seller@ == locks@[j as int].seller@);
                return false;
            }
            i = i + 1;
        }
        j = j + 1;
    }
    true
}

fn position_of(offers: &Vec<Offer>, address: &String) -> (r: Option<usize>)
    ensures
        match r {
            Some(j) => j < offers@.len() && offers@[j as int].derived_address@ == address@,
            None => forall|b: int|
                0 <= b < offers@.len() ==> #[trigger] offers@[b].derived_address@ != address@,
        },
{
    let mut j: usize = 0;
    while j < offers.len()
        invariant
            j <= offers@.len(),
            forall|b: int| 0 <= b < j ==> #[trigger] offers@[b].derived_address@ != address@,
        decreases offers@.len() - j,
    {
        if offers[j].derived_address == *address {
            return Some(j);
        }
        j = j + 1;
    }
    None
}

fn locks_name_their_offers(offers: &Vec<Offer>, locks: &Vec<SellerLock>) -> (r: bool)
    requires
        distinct_addresses(offers@),
    ensures
        r == locks_name_offers(offers@, locks@),
{
    proof {
        lemma_offer_table(offers@);
    }
    let mut i: usize = 0;
    while i < locks.len()
        invariant
            distinct_addresses(offers@),
            i <= locks@.len(),
            forall|a: int|
                0 <= a < offers@.len() ==> {
                    &&& offer_table(offers@).contains_key(#[trigger] offers@[a].derived_address@)
                    &&& offer_table(offers@)[offers@[a].derived_address@] == offers@[a]@
                },
            forall|k: Seq<char>|
                #[trigger] offer_table(offers@).contains_key(k) ==> exists|a: int|
                    0 <= a < offers@.len() && #[trigger] offers@[a].derived_address@ == k,
            forall|a: int|
                0 <= a < i ==> {
                    &&& offer_table(offers@).contains_key(#[trigger] locks@[a].derived_address@)
                    &&& offer_table(offers@)[locks@[a].derived_address@].seller == locks@[a].seller@
                    &&& offer_table(offers@)[locks@[a].derived_address@].is_active()
                },
        decreases locks@.len() - i,
    {
        match position_of(offers, &locks[i].derived_address) {
            None => {
                assert(!offer_table(offers@).contains_key(locks@[i as int].derived_address@));
                return false;
            },
            Some(j) => {
                assert(offer_table(offers@)[offers@[j as int].derived_address@]
                    == offers@[j as int]@);
                if offers[j].seller != locks[i].seller || offers[j].state == OfferState::Withdrawn {
                    return false;
                }
            },
        }
        i = i + 1;
    }
    true
}

fn lock_position(locks: &Vec<SellerLock>, seller: &String) -> (r: Option<usize>)
    ensures
        match r {
            Some(k) => k < locks@.len() && locks@[k as int].seller@ == seller@,
            None => forall|b: int| 0 <= b < locks@.len() ==> #[trigger] locks@[b].seller@ != seller@,
        },
{
    let mut k: usize = 0;
    while k < locks.len()
        invariant
            k <= locks@.len(),
            forall|b: int| 0 <= b < k ==> #[trigger] locks@[b].seller@ != seller@,
        decreases locks@.len() - k,
    {
        if locks[k].seller == *seller {
            return Some(k);
        }
        k = k + 1;
    }
    None
}

fn active_offers_are_locked(offers: &Vec<Offer>, locks: &Vec<SellerLock>) -> (r: bool)
    requires
        distinct_sellers(locks@),
    ensures
        r == active_offers_locked(offers@, locks@),
{
    proof {
        lemma_lock_table(locks@);
    }
    let mut j: usize = 0;
    while j < offers.len()
        invariant
            distinct_sellers(locks@),
            j <= offers@.len(),
            forall|a: int|
                0 <= a < locks@.len() ==> {
                    &&& lock_table(locks@).contains_key(#[trigger] locks@[a].seller@)
                    &&& lock_table(locks@)[locks@[a].seller@] == locks@[a].derived_address@
                },
            forall|k: Seq<char>|
                #[trigger] lock_table(locks@).contains_key(k) ==> exists|a: int|
                    0 <= a < locks@.len() && #[trigger] locks@[a].seller@ == k,
            forall|b: int|
                0 <= b < j && offers@[b]@.is_active() ==> {
                    &&& lock_table(locks@).contains_key(#[trigger] offers@[b].seller@)
                    &&& lock_table(locks@)[offers@[b].seller@] == offers@[b].derived_address@
                },
        decreases offers@.len() - j,
    {
        if offers[j].state != OfferState::Withdrawn {
            match lock_position(locks, &offers[j].seller) {
                None => {
                    assert(!lock_table(locks@).contains_key(offers@[j as int].seller@));
                    return false;
                },
                Some(k) => {
                    assert(lock_table(locks@)[locks@[k as int].seller@]
                        == locks@[k as int].derived_address@);
                    if locks[k].derived_address != offers[j].derived_address {
                        return false;
                    }
                },
            }
        }
        j = j + 1;
    }
    true
}

/// Every lock names an open or funded offer of its own seller, and the seller
/// of every open or funded offer is locked to its address.
pub open spec fn locks_agree(
    offers: Map<Seq<char>, OfferView>,
    locks: Map<Seq<char>, Seq<char>>,
) -> bool {
    &&& forall|s: Seq<char>|
        #[trigger] locks.contains_key(s) ==> {
            &&& offers.contains_key(locks[s])
            &&& offers[locks[s]].seller == s
            &&& offers[locks[s]].is_active()
        }
    &&& forall|a: Seq<char>|
        #[trigger] offers.contains_key(a) && offers[a].is_active() ==> {
            &&& locks.contains_key(offers[a].seller)
            &&& locks[offers[a].seller] == a
        }
}

/// The escrow as a whole: offers by derived address, and for each locked
/// seller the address of the offer that locked them.
pub struct ContractView {
    pub offers: Map<Seq<char>, OfferView>,
    pub locks: Map<Seq<char>, Seq<char>>,
    pub owner: Seq<char>,
    pub policy: SignPolicy,
}

impl ContractView {
    /// The locked sellers are exactly the sellers of open or funded offers,
    /// each locked to the address of that offer.
    pub open spec fn locks_consistent(self) -> bool {
        locks_agree(self.offers, self.locks)
    }

    pub open spec fn with_offers(self, offers: Map<Seq<char>, OfferView>) -> ContractView {
        ContractView { offers, locks: self.locks, owner: self.owner, policy: self.policy }
    }

    pub open spec fn with_locks(self, locks: Map<Seq<char>, Seq<char>>) -> ContractView {
        ContractView { offers: self.offers, locks, owner: self.owner, policy: self.policy }
    }
}

/// The outcome of `create_offer`.
pub open spec fn create_offer_step(
    pre: ContractView,
    address: Seq<char>,
    amount: u128,
    caller: Seq<char>,
) -> (Result<(), OfferError>, ContractView) {
    if pre.locks.contains_key(caller) {
        (Err(OfferError::SellerHasOffer), pre)
    } else if pre.offers.contains_key(address) {
        (Err(OfferError::AddressInUse), pre)
    } else {
        let offer = OfferView { seller: caller, expected_amount: amount, state: OfferState::Open };
        (
            Ok(()),
            pre.with_offers(pre.offers.insert(address, offer)).with_locks(
                pre.locks.insert(caller, address),
            ),
        )
    }
}

/// The policy turns the payload away from this caller or deposit, or lets it
/// through with `None`.
pub open spec fn policy_refusal(
    pre: ContractView,
    payload: Seq<char>,
    attached: u128,
    caller: Seq<char>,
) -> Option<OfferError> {
    if !pre.policy.owner_only_arbitrary || is_public_text(payload) {
        None
    } else if caller != pre.owner {
        Some(OfferError::OwnerOnly)
    } else if attached < pre.policy.arbitrary_min_deposit {
        Some(OfferError::BelowArbitraryCost)
    } else {
        None
    }
}

/// The outcome of `sign`: the payload to sign, or why not.
pub open spec fn sign_step(
    pre: ContractView,
    payload: Seq<char>,
    address: Seq<char>,
    attached: u128,
    caller: Seq<char>,
) -> (Result<Seq<u8>, OfferError>, ContractView) {
    if !pre.offers.contains_key(address) || !pre.offers[address].is_active() {
        (Err(OfferError::AddressNotRegistered), pre)
    } else if attached < pre.offers[address].expected_amount {
        (Err(OfferError::InsufficientDeposit), pre)
    } else if policy_refusal(pre, payload, attached, caller) is Some {
        (Err(policy_refusal(pre, payload, attached, caller)->Some_0), pre)
    } else if !is_hex_text(payload) {
        (Err(OfferError::InvalidPayload), pre)
    } else {
        (
            Ok(signing_payload_of(payload)),
            pre.with_offers(
                pre.offers.insert(address, pre.offers[address].with_state(OfferState::Funded)),
            ),
        )
    }
}

/// The outcome of `withdrawBySeller`: the seller and the amount paid out, or
/// why not.
pub open spec fn withdraw_step(pre: ContractView, address: Seq<char>) -> (
    Result<(Seq<char>, u128), OfferError>,
    ContractView,
) {
    if !pre.offers.contains_key(address) {
        (Err(OfferError::AddressNotRegistered), pre)
    } else {
        let offer = pre.offers[address];
        match offer.state {
            OfferState::Open => (Err(OfferError::NotDeposited), pre),
            OfferState::Withdrawn => (Err(OfferError::NotAvailable), pre),
            OfferState::Funded => (
                Ok((offer.seller, offer.expected_amount)),
                pre.with_offers(
                    pre.offers.insert(address, offer.with_state(OfferState::Withdrawn)),
                ).with_locks(pre.locks.remove(offer.seller)),
            ),
        }
    }
}

/// The escrow: offers keyed by derived address, and the index of locked
/// sellers.
pub struct Contract {
    offers: Vec<Offer>,
    locks: Vec<SellerLock>,
    owner: String,
    policy: SignPolicy,
    offer_map: Ghost<Map<Seq<char>, OfferView>>,
    lock_map: Ghost<Map<Seq<char>, Seq<char>>>,
}

impl View for Contract {
    type V = ContractView;

    closed spec fn view(&self) -> ContractView {
        ContractView {
            offers: self.offer_map@,
            locks: self.lock_map@,
            owner: self.owner@,
            policy: self.policy,
        }
    }
}

impl Contract {
    /// The stored vectors hold exactly the offers and locks of the view, and
    /// the locks agree with the offers.
    pub closed spec fn wf(&self) -> bool {
        &&& self.stored()
        &&& self@.locks_consistent()
    }

    /// The stored vectors hold exactly the offers and locks of the view, one
    /// entry per key.
    closed spec fn stored(&self) -> bool {
        &&& forall|i: int, j: int|
            0 <= i < self.offers@.len() && 0 <= j < self.offers@.len() && i != j
                ==> #[trigger] self.offers@[i].derived_address@
                != #[trigger] self.offers@[j].derived_address@
        &&& forall|i: int|
            0 <= i < self.offers@.len() ==> {
                &&& self.offer_map@.contains_key(#[trigger] self.offers@[i].derived_address@)
                &&& self.offer_map@[self.offers@[i].derived_address@] == self.offers@[i]@
            }
        &&& forall|k: Seq<char>|
            #[trigger] self.offer_map@.contains_key(k) ==> exists|i: int|
                0 <= i < self.offers@.len() && #[trigger] self.offers@[i].derived_address@ == k
        &&& forall|i: int, j: int|
            0 <= i < self.locks@.len() && 0 <= j < self.locks@.len() && i != j
                ==> #[trigger] self.locks@[i].seller@ != #[trigger] self.locks@[j].seller@
        &&& forall|i: int|
            0 <= i < self.locks@.len() ==> {
                &&& self.lock_map@.contains_key(#[trigger] self.locks@[i].seller@)
                &&& self.lock_map@[self.locks@[i].seller@] == self.locks@[i].derived_address@
            }
        &&& forall|k: Seq<char>|
            #[trigger] self.lock_map@.contains_key(k) ==> exists|i: int|
                0 <= i < self.locks@.len() && #[trigger] self.locks@[i].seller@ == k
    }

    /// An empty escrow owned by `owner`, with the given signing policy.
    pub fn with_policy(owner: String, policy: SignPolicy) -> (r: Contract)
        ensures
            r.wf(),
            r@.offers.is_empty(),
            r@.locks.is_empty(),
            r@.owner == owner@,
            r@.policy == policy,
    {
        let r = Contract {
            offers: Vec::new(),
            locks: Vec::new(),
            owner,
            policy,
            offer_map: Ghost(Map::empty()),
            lock_map: Ghost(Map::empty()),
        };
        assert(r@.offers =~= Map::empty());
        r
    }

    /// An empty escrow owned by `owner`, with the default signing policy.
    pub fn new(owner: String) -> (r: Contract)
        ensures
            r.wf(),
            r@.offers.is_empty(),
            r@.locks.is_empty(),
            r@.owner == owner@,
            !r@.policy.owner_only_arbitrary,
            r@.policy.arbitrary_min_deposit == ARBITRARY_SIGN_COST,
    {
        Contract::with_policy(owner, SignPolicy::default())
    }

    fn find_offer(&self, address: &String) -> (r: Option<usize>)
        requires
            self.stored(),
        ensures
            match r {
                Some(i) => i < self.offers@.len() && self.offers@[i as int].derived_address@
                    == address@ && self@.offers.contains_key(address@) && self@.offers[address@]
                    == self.offers@[i as int]@,
                None => !self@.offers.contains_key(address@),
            },
    {
        position_of(&self.offers, address)
    }

    fn find_lock(&self, seller: &String) -> (r: Option<usize>)
        requires
            self.stored(),
        ensures
            match r {
                Some(i) => i < self.locks@.len() && self.locks@[i as int].seller@ == seller@
                    && self@.locks.contains_key(seller@),
                None => !self@.locks.contains_key(seller@),
            },
    {
        let mut i: usize = 0;
        while i < self.locks.len()
            invariant
                self.stored(),
                i <= self.locks@.len(),
                forall|k: int| 0 <= k < i ==> self.locks@[k].seller@ != seller@,
            decreases self.locks@.len() - i,
        {
            if self.locks[i].seller == *seller {
                return Some(i);
            }
            i = i + 1;
        }
        None
    }
    /// Records a new open offer at `derived_address` for `caller`, and locks
    /// `caller`. Refused when `caller` already holds a lock or the address is
    /// in use.
    pub fn create_offer(
        &mut self,
        derived_address: String,
        expected_amount: u128,
        caller: String,
    ) -> (r: Result<(), OfferError>)
        requires
            old(self).wf(),
        ensures
            final(self).wf(),
            (r, final(self)@) == create_offer_step(
                old(self)@,
                derived_address@,
                expected_amount,
                caller@,
            ),
    {
        if self.find_lock(&caller).is_some() {
            return Err(OfferError::SellerHasOffer);
        }
        if self.find_offer(&derived_address).is_some() {
            return Err(OfferError::AddressInUse);
        }
        let ghost pre = self@;
        let ghost old_offers = self.offers@;
        let ghost old_locks = self.locks@;
        let ghost a = derived_address@;
        let ghost c = caller@;
        let offer = Offer {
            derived_address: derived_address.clone(),
            seller: caller.clone(),
            expected_amount,
            state: OfferState::Open,
        };
        let ghost ov = offer@;
        let lock = SellerLock { seller: caller, derived_address };
        self.offers.push(offer);
        self.locks.push(lock);
        self.offer_map = Ghost(self.offer_map@.insert(a, ov));
        self.lock_map = Ghost(self.lock_map@.insert(c, a));
        proof {
            assert forall|k: Seq<char>| #[trigger]
                self.offer_map@.contains_key(k) implies exists|i: int|
                0 <= i < self.offers@.len() && #[trigger] self.offers@[i].derived_address@ == k by {
                if k == a {
                    assert(self.offers@[old_offers.len() as int].derived_address@ == k);
                } else {
                    assert(pre.offers.contains_key(k));
                    let i = choose|i: int|
                        0 <= i < old_offers.len() && #[trigger] old_offers[i].derived_address@ == k;
                    assert(self.offers@[i] == old_offers[i]);
                }
            }
            assert forall|k: Seq<char>| #[trigger]
                self.lock_map@.contains_key(k) implies exists|i: int|
                0 <= i < self.locks@.len() && #[trigger] self.locks@[i].seller@ == k by {
                if k == c {
                    assert(self.locks@[old_locks.len() as int].seller@ == k);
                } else {
                    assert(pre.locks.contains_key(k));
                    let i = choose|i: int|
                        0 <= i < old_locks.len() && #[trigger] old_locks[i].seller@ == k;
                    assert(self.locks@[i] == old_locks[i]);
                }
            }
            assert forall|i: int|
                0 <= i < self.offers@.len() implies #[trigger] self.offers@[i].derived_address@
                != a || i == old_offers.len() by {
                if i < old_offers.len() {
                    assert(self.offers@[i] == old_offers[i]);
                    assert(pre.offers.contains_key(old_offers[i].derived_address@));
                }
            }
            assert forall|i: int|
                0 <= i < self.locks@.len() implies #[trigger] self.locks@[i].seller@ != c || i
                == old_locks.len() by {
                if i < old_locks.len() {
                    assert(self.locks@[i] == old_locks[i]);
                    assert(pre.locks.contains_key(old_locks[i].seller@));
                }
            }
            operations_keep_locks_consistent(pre, a, expected_amount, c, c, 0);
        }
        Ok(())
    }
    /// Moves the offer at index `i` to `state`.
    fn set_offer_state(&mut self, i: usize, state: OfferState)
        requires
            old(self).stored(),
            i < old(self).offers@.len(),
        ensures
            final(self).stored(),
            final(self)@ == old(self)@.with_offers(
                old(self)@.offers.insert(
                    old(self).offers@[i as int].derived_address@,
                    old(self)@.offers[old(self).offers@[i as int].derived_address@].with_state(
                        state,
                    ),
                ),
            ),
    {
        let ghost old_offers = self.offers@;
        let ghost a = old_offers[i as int].derived_address@;
        let updated = self.offers[i].with_state(state);
        let ghost nv = updated@;
        self.offers.set(i, updated);
        self.offer_map = Ghost(self.offer_map@.insert(a, nv));
        proof {
            assert forall|k: Seq<char>| #[trigger]
                self.offer_map@.contains_key(k) implies exists|j: int|
                0 <= j < self.offers@.len() && #[trigger] self.offers@[j].derived_address@ == k by {
                if k == a {
                    assert(self.offers@[i as int].derived_address@ == k);
                } else {
                    let j = choose|j: int|
                        0 <= j < old_offers.len() && #[trigger] old_offers[j].derived_address@ == k;
                    assert(self.offers@[j] == old_offers[j]);
                }
            }
            assert forall|j: int|
                0 <= j < self.offers@.len() && j != i implies #[trigger] self.offers@[j]
                == old_offers[j] && old_offers[j].derived_address@ != a by {}
        }
    }

    /// Drops the lock of `seller`, if there is one.
    fn release_lock(&mut self, seller: &String)
        requires
            old(self).stored(),
        ensures
            final(self).stored(),
            final(self)@ == old(self)@.with_locks(old(self)@.locks.remove(seller@)),
    {
        match self.find_lock(seller) {
            None => {
                assert(self.lock_map@.remove(seller@) =~= self.lock_map@);
            },
            Some(i) => {
                let ghost old_locks = self.locks@;
                let ghost pre = self@;
                self.locks.remove(i);
                self.lock_map = Ghost(self.lock_map@.remove(seller@));
                proof {
                    assert forall|j: int|
                        0 <= j < self.locks@.len() implies #[trigger] self.locks@[j] == (if j
                        < i {
                        old_locks[j]
                    } else {
                        old_locks[j + 1]
                    }) by {}
                    assert forall|k: Seq<char>| #[trigger]
                        self.lock_map@.contains_key(k) implies exists|j: int|
                        0 <= j < self.locks@.len() && #[trigger] self.locks@[j].seller@ == k by {
                        let j = choose|j: int|
                            0 <= j < old_locks.len() && #[trigger] old_locks[j].seller@ == k;
                        assert(j != i);
                        if j < i {
                            assert(self.locks@[j].seller@ == k);
                        } else {
                            assert(self.locks@[j - 1].seller@ == k);
                        }
                    }
                    assert forall|j1: int, j2: int|
                        0 <= j1 < self.locks@.len() && 0 <= j2 < self.locks@.len() && j1
                            != j2 implies #[trigger] self.locks@[j1].seller@
                        != #[trigger] self.locks@[j2].seller@ by {
                        let o1 = if j1 < i { j1 } else { j1 + 1 };
                        let o2 = if j2 < i { j2 } else { j2 + 1 };
                        assert(old_locks[o1].seller@ != old_locks[o2].seller@);
                    }
                    assert forall|j: int| 0 <= j < self.locks@.len() implies {
                        &&& self.lock_map@.contains_key(#[trigger] self.locks@[j].seller@)
                        &&& self.lock_map@[self.locks@[j].seller@] == self.locks@[j].derived_address@
                    } by {
                        let o = if j < i { j } else { j + 1 };
                        assert(old_locks[o].seller@ != old_locks[i as int].seller@);
                    }
                }
            },
        }
    }

    /// Hands the deposit of a funded offer to its seller: the offer becomes
    /// withdrawn and the seller's lock is dropped. Refused for an unknown
    /// address, an offer not funded yet, and one already withdrawn.
    #[allow(non_snake_case)]
    pub fn withdrawBySeller(&mut self, derived_address: String) -> (r: Result<Transfer, OfferError>)
        requires
            old(self).wf(),
        ensures
            final(self).wf(),
            final(self)@ == withdraw_step(old(self)@, derived_address@).1,
            match r {
                Ok(t) => withdraw_step(old(self)@, derived_address@).0 == Ok::<
                    (Seq<char>, u128),
                    OfferError,
                >((t.receiver@, t.amount)),
                Err(e) => withdraw_step(old(self)@, derived_address@).0 == Err::<
                    (Seq<char>, u128),
                    OfferError,
                >(e),
            },
    {
        let i = match self.find_offer(&derived_address) {
            None => return Err(OfferError::AddressNotRegistered),
            Some(i) => i,
        };
        match self.offers[i].state {
            OfferState::Open => return Err(OfferError::NotDeposited),
            OfferState::Withdrawn => return Err(OfferError::NotAvailable),
            OfferState::Funded => {},
        }
        let receiver = self.offers[i].seller.clone();
        let amount = self.offers[i].expected_amount;
        let ghost pre = self@;
        self.set_offer_state(i, OfferState::Withdrawn);
        self.release_lock(&receiver);
        proof {
            assert(self@.offers == pre.offers.insert(
                derived_address@,
                pre.offers[derived_address@].with_state(OfferState::Withdrawn),
            ));
            operations_keep_locks_consistent(pre, derived_address@, 0, receiver@, receiver@, 0);
        }
        Ok(Transfer { receiver, amount })
    }

    /// Funds the offer at `derived_address` with the `attached` deposit of
    /// `caller` and prepares the request for the threshold signer: the
    /// Keccak-256 digest of the hex-decoded payload, reversed. Refused for an
    /// unknown address or an offer already withdrawn, a deposit below the
    /// offer's amount, a payload that the policy keeps from `caller`, and text
    /// that is not hex; a refusal changes nothing. Signing again for a funded
    /// offer leaves it as it is. The deposit is counted in the unit of the
    /// offer's amount.
    pub fn sign(
        &mut self,
        rlp_payload: String,
        path: String,
        key_version: u32,
        derived_address: String,
        attached: u128,
        caller: String,
    ) -> (r: Result<SignRequest, OfferError>)
        requires
            old(self).wf(),
        ensures
            final(self).wf(),
            final(self)@ == sign_step(
                old(self)@,
                rlp_payload@,
                derived_address@,
                attached,
                caller@,
            ).1,
            match r {
                Ok(req) => {
                    &&& sign_step(
                        old(self)@,
                        rlp_payload@,
                        derived_address@,
                        attached,
                        caller@,
                    ).0 == Ok::<Seq<u8>, OfferError>(req.payload@)
                    &&& req.payload@.len() == 32
                    &&& req.path == path
                    &&& req.key_version == key_version
                },
                Err(e) => sign_step(
                    old(self)@,
                    rlp_payload@,
                    derived_address@,
                    attached,
                    caller@,
                ).0 == Err::<Seq<u8>, OfferError>(e),
            },
    {
        let i = match self.find_offer(&derived_address) {
            None => return Err(OfferError::AddressNotRegistered),
            Some(i) => i,
        };
        if self.offers[i].state == OfferState::Withdrawn {
            return Err(OfferError::AddressNotRegistered);
        }
        if attached < self.offers[i].expected_amount {
            return Err(OfferError::InsufficientDeposit);
        }
        if self.policy.owner_only_arbitrary && !is_public_payload(rlp_payload.as_str()) {
            if caller != self.owner {
                return Err(OfferError::OwnerOnly);
            }
            if attached < self.policy.arbitrary_min_deposit {
                return Err(OfferError::BelowArbitraryCost);
            }
        }
        let payload = match signing_payload(rlp_payload.as_str()) {
            None => return Err(OfferError::InvalidPayload),
            Some(p) => p,
        };
        let ghost pre = self@;
        self.set_offer_state(i, OfferState::Funded);
        proof {
            operations_keep_locks_consistent(pre, derived_address@, 0, caller@, rlp_payload@, attached);
        }
        Ok(SignRequest { payload, path, key_version })
    }
    /// The offer at `derived_address`, if one was created.
    pub fn offer(&self, derived_address: &String) -> (r: Option<Offer>)
        requires
            self.wf(),
        ensures
            r is Some <==> self@.offers.contains_key(derived_address@),
            r matches Some(o) ==> o@ == self@.offers[derived_address@] && o.derived_address@
                == derived_address@,
    {
        match self.find_offer(derived_address) {
            None => None,
            Some(i) => Some(self.offers[i].with_state(self.offers[i].state)),
        }
    }

    /// Whether `seller` holds a lock.
    pub fn is_seller_locked(&self, seller: &String) -> (r: bool)
        requires
            self.wf(),
        ensures
            r == self@.locks.contains_key(seller@),
    {
        self.find_lock(seller).is_some()
    }

    /// The account that owns the escrow.
    pub fn owner(&self) -> (r: &String)
        ensures
            r@ == self@.owner,
    {
        &self.owner
    }

    /// The signing policy in force.
    pub fn policy(&self) -> (r: SignPolicy)
        ensures
            r == self@.policy,
    {
        self.policy
    }
    /// Rebuilds an escrow from stored offers and locks; `None` when they do not
    /// make up one (see `valid_parts`).
    pub fn from_parts(
        owner: String,
        policy: SignPolicy,
        offers: Vec<Offer>,
        locks: Vec<SellerLock>,
    ) -> (r: Option<Contract>)
        ensures
            r is Some <==> valid_parts(offers@, locks@),
            r matches Some(c) ==> c.wf() && c@ == (ContractView {
                offers: offer_table(offers@),
                locks: lock_table(locks@),
                owner: owner@,
                policy,
            }),
    {
        if !addresses_distinct(&offers) || !sellers_distinct(&locks) {
            return None;
        }
        proof {
            lemma_parts_agree(offers@, locks@);
        }
        if !locks_name_their_offers(&offers, &locks) || !active_offers_are_locked(&offers, &locks) {
            return None;
        }
        proof {
            lemma_offer_table(offers@);
            lemma_lock_table(locks@);
        }
        let ghost offer_map = offer_table(offers@);
        let ghost lock_map = lock_table(locks@);
        let c = Contract {
            offers,
            locks,
            owner,
            policy,
            offer_map: Ghost(offer_map),
            lock_map: Ghost(lock_map),
        };
        proof {
            assert forall|i: int, j: int|
                0 <= i < c.offers@.len() && 0 <= j < c.offers@.len() && i
                    != j implies #[trigger] c.offers@[i].derived_address@
                != #[trigger] c.offers@[j].derived_address@ by {
                if i < j {
                    assert(c.offers@[i].derived_address@ != c.offers@[j].derived_address@);
                } else {
                    assert(c.offers@[j].derived_address@ != c.offers@[i].derived_address@);
                }
            }
            assert forall|i: int, j: int|
                0 <= i < c.locks@.len() && 0 <= j < c.locks@.len() && i
                    != j implies #[trigger] c.locks@[i].seller@ != #[trigger] c.locks@[j].seller@ by {
                if i < j {
                    assert(c.locks@[i].seller@ != c.locks@[j].seller@);
                } else {
                    assert(c.locks@[j].seller@ != c.locks@[i].seller@);
                }
            }
            assert(c@.locks_consistent());
            assert(forall|k: Seq<char>|
                #[trigger] c.offer_map@.contains_key(k) ==> exists|i: int|
                    0 <= i < c.offers@.len() && #[trigger] c.offers@[i].derived_address@ == k);
            assert forall|k: Seq<char>| #[trigger]
                c.lock_map@.contains_key(k) implies exists|i: int|
                0 <= i < c.locks@.len() && #[trigger] c.locks@[i].seller@ == k by {
                assert(lock_table(locks@).contains_key(k));
                let i = choose|i: int| 0 <= i < locks@.len() && #[trigger] locks@[i].seller@ == k;
                assert(c.locks@[i].seller@ == k);
            }
            assert(c.wf());
        }
        Some(c)
    }

    /// The stored offers and locks, with the owner and the policy.
    pub fn into_parts(self) -> (r: (Vec<Offer>, Vec<SellerLock>, String, SignPolicy))
        requires
            self.wf(),
        ensures
            valid_parts(r.0@, r.1@),
            offer_table(r.0@) == self@.offers,
            lock_table(r.1@) == self@.locks,
            r.2@ == self@.owner,
            r.3 == self@.policy,
    {
        proof {
            assert forall|i: int, j: int|
                0 <= i < j < self.offers@.len() implies #[trigger] self.offers@[i].derived_address@
                != #[trigger] self.offers@[j].derived_address@ by {}
            assert forall|i: int, j: int|
                0 <= i < j < self.locks@.len() implies #[trigger] self.locks@[i].seller@
                != #[trigger] self.locks@[j].seller@ by {}
            lemma_offer_table(self.offers@);
            lemma_lock_table(self.locks@);
            assert forall|k: Seq<char>| #[trigger] offer_table(self.offers@).contains_key(k)
                == self.offer_map@.contains_key(k) by {
                if self.offer_map@.contains_key(k) {
                    let i = choose|i: int|
                        0 <= i < self.offers@.len() && #[trigger] self.offers@[i].derived_address@ == k;
                }
            }
            assert(offer_table(self.offers@) =~= self.offer_map@);
            assert forall|k: Seq<char>| #[trigger] lock_table(self.locks@).contains_key(k)
                == self.lock_map@.contains_key(k) by {
                if self.lock_map@.contains_key(k) {
                    let i = choose|i: int|
                        0 <= i < self.locks@.len() && #[trigger] self.locks@[i].seller@ == k;
                }
            }
            assert(lock_table(self.locks@) =~= self.lock_map@);
            assert forall|i: int| 0 <= i < self.locks@.len() implies {
                &&& offer_table(self.offers@).contains_key(#[trigger] self.locks@[i].derived_address@)
                &&& offer_table(self.offers@)[self.locks@[i].derived_address@].seller
                    == self.locks@[i].seller@
            } by {
                assert(self@.locks.contains_key(self.locks@[i].seller@));
            }
        }
        (self.offers, self.locks, self.owner, self.policy)
    }
    /// Replaces the signing policy; only the owner may.
    pub fn set_policy(&mut self, policy: SignPolicy, caller: String) -> (r: Result<(), OfferError>)
        requires
            old(self).wf(),
        ensures
            final(self).wf(),
            caller@ == old(self)@.owner ==> r is Ok && final(self)@ == (ContractView {
                policy,
                ..old(self)@
            }),
            caller@ != old(self)@.owner ==> r == Err::<(), OfferError>(OfferError::OwnerOnly)
                && final(self)@ == old(self)@,
    {
        if caller != self.owner {
            return Err(OfferError::OwnerOnly);
        }
        self.policy = policy;
        Ok(())
    }
}

} // verus!
