//! The gateway.
//!
//! The boundary where external identifiers become dense `u32` indices, and the **only** place a
//! contract description exists.
//!
//! **Contract identity is byte equality** over the full description, the event date and the
//! resolution source. There is no fuzzy matching and no canonicalisation: near-identical wording
//! produces different contracts, because the wording *is* the product. No hash is used, anywhere:
//! a collision would let a trade formed on one contract resolve under another's outcome.

use crate::account::AccountIdx;
use crate::arrays::{array_from, array_from_holds, array_is};
use crate::command::{Command, LegSpec};
use crate::config::MAX_LEGS;
use crate::contract::ContractIdx;
use crate::types::{Price, Side, Size, Ts};
use vstd::prelude::*;
use vstd::slice::slice_to_vec;

verus! {

/// A contract as a participant describes it. **Never crosses into the core.**
#[derive(Clone, Debug, PartialEq, Eq, PartialOrd, Ord)]
pub struct ContractRef {
    /// The full wording. This *is* the identity.
    pub description: Vec<u8>,
    /// When the event settles.
    pub event_date: Ts,
    /// Where the outcome comes from: the same wording resolved by two different sources is two
    /// different products.
    pub resolution_source: Vec<u8>,
}

/// What a contract is identified by.
pub struct Terms {
    /// The full wording.
    pub description: Seq<u8>,
    /// When the event settles.
    pub event_date: Ts,
    /// Where the outcome comes from.
    pub resolution_source: Seq<u8>,
}

impl View for ContractRef {
    type V = Terms;

    open spec fn view(&self) -> Terms {
        Terms {
            description: self.description@,
            event_date: self.event_date,
            resolution_source: self.resolution_source@,
        }
    }
}

fn same_bytes(a: &[u8], b: &[u8]) -> (r: bool)
    ensures
        r == (a@ == b@),
{
    if a.len() != b.len() {
        return false;
    }
    let n: usize = a.len();
    let mut k: usize = 0;
    while k < n
        invariant
            k <= n == a@.len() == b@.len(),
            forall|j: int| 0 <= j < k ==> a@[j] == b@[j],
        decreases n - k,
    {
        if a[k] != b[k] {
            return false;
        }
        k += 1;
    }
    proof {
        assert(a@ =~= b@);
    }
    true
}

impl ContractRef {
    fn same_as(&self, other: &ContractRef) -> (r: bool)
        ensures
            r == (self@ == other@),
    {
        same_bytes(self.description.as_slice(), other.description.as_slice()) && self.event_date
            == other.event_date && same_bytes(
            self.resolution_source.as_slice(),
            other.resolution_source.as_slice(),
        )
    }

    fn copied(&self) -> (r: ContractRef)
        ensures
            r@ == self@,
    {
        ContractRef {
            description: slice_to_vec(self.description.as_slice()),
            event_date: self.event_date,
            resolution_source: slice_to_vec(self.resolution_source.as_slice()),
        }
    }
}

/// The append-only description store.
///
/// Read by the publisher, which resolves a `ContractIdx` back to the verbatim wording when it
/// fans a request out to makers.
#[derive(Debug)]
pub struct ContractRegistry {
    by_index: Vec<ContractRef>,
}

impl Default for ContractRegistry {
    fn default() -> (r: Self)
        ensures
            r@ == Seq::<Terms>::empty(),
    {
        let r = ContractRegistry { by_index: Vec::new() };
        proof {
            assert(r@ =~= Seq::<Terms>::empty());
        }
        r
    }
}

impl ContractRegistry {
    /// The contracts, by index.
    pub closed spec fn view(&self) -> Seq<Terms> {
        self.by_index@.map_values(|reference: ContractRef| reference@)
    }

    /// The description behind an index, for republishing verbatim.
    pub fn describe(&self, contract: ContractIdx) -> (r: Option<&ContractRef>)
        ensures
            match r {
                Some(reference) => contract.0 < self@.len() && reference@
                    == self@[contract.0 as int],
                None => contract.0 >= self@.len(),
            },
    {
        if (contract.0 as usize) < self.by_index.len() {
            Some(&self.by_index[contract.0 as usize])
        } else {
            None
        }
    }

    /// How many contracts have been assigned an index.
    pub fn len(&self) -> (r: usize)
        ensures
            r == self@.len(),
    {
        self.by_index.len()
    }

    /// Whether nothing has been registered.
    pub fn is_empty(&self) -> (r: bool)
        ensures
            r == (self@.len() == 0),
    {
        self.by_index.len() == 0
    }

    /// The index of a contract, if it has one.
    fn find(&self, reference: &ContractRef) -> (r: Option<usize>)
        requires
            self@.no_duplicates(),
        ensures
            match r {
                Some(index) => index < self@.len() && self@[index as int] == reference@,
                None => !self@.contains(reference@),
            },
    {
        let mut k: usize = 0;
        while k < self.by_index.len()
            invariant
                k <= self.by_index@.len(),
                forall|j: int| 0 <= j < k ==> #[trigger] self@[j] != reference@,
            decreases self.by_index@.len() - k,
        {
            if self.by_index[k].same_as(reference) {
                return Some(k);
            }
            k += 1;
        }
        None
    }
}

/// Why the gateway could not admit something.
#[derive(Clone, Copy, Debug, PartialEq, Eq, Structural)]
pub enum GatewayError {
    /// No index left in the configured contract table.
    ContractTableFull,
    /// No index left in the configured account table.
    AccountTableFull,
    /// More legs than storage allows.
    TooManyLegs,
    /// The registry is shared and cannot be reached.
    RegistryUnavailable,
}

/// What a gateway holds.
#[verifier::ext_equal]
pub struct GatewayView {
    /// The account keys, by index.
    pub accounts: Seq<Seq<u8>>,
    /// The contracts, by index.
    pub contracts: Seq<Terms>,
    /// How many accounts fit.
    pub max_accounts: u32,
    /// How many contracts fit.
    pub max_contracts: u32,
}

impl GatewayView {
    /// Every key and every contract has one index, and no more are given out than fit.
    pub open spec fn wf(self) -> bool {
        &&& self.accounts.no_duplicates()
        &&& self.contracts.no_duplicates()
        &&& self.accounts.len() <= self.max_accounts
        &&& self.contracts.len() <= self.max_contracts
    }

    /// The index of an account key, assigned on first sight, or the refusal.
    pub open spec fn account_index(self, key: Seq<u8>) -> Result<AccountIdx, GatewayError> {
        if self.accounts.contains(key) {
            Ok(AccountIdx(self.accounts.index_of(key) as u32))
        } else if self.accounts.len() >= self.max_accounts {
            Err(GatewayError::AccountTableFull)
        } else {
            Ok(AccountIdx(self.accounts.len() as u32))
        }
    }

    /// After an account key is looked up.
    pub open spec fn with_account(self, key: Seq<u8>) -> Self {
        if self.accounts.contains(key) || self.accounts.len() >= self.max_accounts {
            self
        } else {
            GatewayView { accounts: self.accounts.push(key), ..self }
        }
    }

    /// The index of a contract, assigned on first sight, or the refusal.
    pub open spec fn contract_index(self, terms: Terms) -> Result<ContractIdx, GatewayError> {
        if self.contracts.contains(terms) {
            Ok(ContractIdx(self.contracts.index_of(terms) as u32))
        } else if self.contracts.len() >= self.max_contracts {
            Err(GatewayError::ContractTableFull)
        } else {
            Ok(ContractIdx(self.contracts.len() as u32))
        }
    }

    /// What the core is told when a contract is looked up: of a new one its index and date, of a
    /// known one nothing.
    pub open spec fn registration(self, terms: Terms) -> Option<Command> {
        if self.contracts.contains(terms) {
            None
        } else {
            Some(
                Command::RegisterContract {
                    contract: ContractIdx(self.contracts.len() as u32),
                    event_date: terms.event_date,
                },
            )
        }
    }

    /// After a contract is looked up.
    pub open spec fn with_contract(self, terms: Terms) -> Self {
        if self.contracts.contains(terms) || self.contracts.len() >= self.max_contracts {
            self
        } else {
            GatewayView { contracts: self.contracts.push(terms), ..self }
        }
    }

    /// After the contracts of the first `n` legs are looked up, stopping at a full table.
    pub open spec fn with_legs(self, legs: Seq<(ContractRef, Side, Size, Price)>, n: nat) -> Self
        decreases n,
    {
        if n == 0 {
            self
        } else {
            self.with_legs(legs, (n - 1) as nat).with_contract(legs[n - 1].0@)
        }
    }

    /// Whether the contract of leg `k` finds a place.
    pub open spec fn leg_fits(self, legs: Seq<(ContractRef, Side, Size, Price)>, k: int) -> bool {
        self.with_legs(legs, k as nat).contract_index(legs[k].0@) is Ok
    }

    /// Whether the contracts of the first `n` legs all find a place.
    pub open spec fn legs_fit(self, legs: Seq<(ContractRef, Side, Size, Price)>, n: nat) -> bool {
        forall|k: int| 0 <= k < n ==> #[trigger] self.leg_fits(legs, k)
    }

    /// What the core is told of the contracts of the first `n` legs.
    pub open spec fn registrations(
        self,
        legs: Seq<(ContractRef, Side, Size, Price)>,
        n: nat,
    ) -> Seq<Command>
        decreases n,
    {
        if n == 0 {
            Seq::empty()
        } else {
            let before = self.registrations(legs, (n - 1) as nat);
            match self.with_legs(legs, (n - 1) as nat).registration(legs[n - 1].0@) {
                Some(command) => before.push(command),
                None => before,
            }
        }
    }

    /// Leg `k` with its contract's index in place of its wording.
    pub open spec fn leg_terms(self, legs: Seq<(ContractRef, Side, Size, Price)>, k: int) -> LegSpec {
        LegSpec {
            contract: self.with_legs(legs, k as nat).contract_index(legs[k].0@)->Ok_0,
            side: legs[k].1,
            size: legs[k].2,
            limit: legs[k].3,
        }
    }

    /// The request the core is sent.
    pub open spec fn request(
        self,
        requester: AccountIdx,
        deadline: Ts,
        legs: Seq<(ContractRef, Side, Size, Price)>,
    ) -> Command {
        Command::SubmitRequest {
            requester,
            deadline,
            legs: array_from(
                Seq::new(
                    MAX_LEGS as nat,
                    |k: int|
                        if k < legs.len() {
                            self.leg_terms(legs, k)
                        } else {
                            LegSpec::blank()
                        },
                ),
            ),
            n_legs: legs.len() as u8,
        }
    }
}

/// **Identity is byte equality**: two contracts get the same index exactly when their wording,
/// date and source are the same, and an index once given is never given to another.
pub proof fn identical_wording_is_one_contract(gateway: GatewayView, a: Terms, b: Terms)
    requires
        gateway.wf(),
        gateway.contract_index(a) is Ok,
        gateway.with_contract(a).contract_index(b) is Ok,
    ensures
        gateway.with_contract(a).wf(),
        gateway.contract_index(a) == gateway.with_contract(a).contract_index(b) <==> a == b,
        gateway.with_contract(a).registration(a) is None,
        gateway.with_contract(a).contract_index(a) == gateway.contract_index(a),
{
    let after = gateway.with_contract(a);
    let i = gateway.contract_index(a)->Ok_0.0 as int;
    if gateway.contracts.contains(a) {
        assert(after.contracts[i] == a);
    } else {
        assert(after.contracts[gateway.contracts.len() as int] == a);
    }
    assert(after.contracts[i] == a);
    assert(after.contracts.contains(a));
    let j = after.contract_index(b)->Ok_0.0 as int;
    if after.contracts.contains(b) {
        assert(after.contracts[j] == b);
    }
}

/// Everything `before` has an index for, `after` has under the same index.
pub open spec fn extends(before: GatewayView, after: GatewayView) -> bool {
    &&& before.accounts.len() <= after.accounts.len()
    &&& before.contracts.len() <= after.contracts.len()
    &&& forall|i: int|
        0 <= i < before.accounts.len() ==> #[trigger] after.accounts[i] == before.accounts[i]
    &&& forall|i: int|
        0 <= i < before.contracts.len() ==> #[trigger] after.contracts[i] == before.contracts[i]
    &&& after.max_accounts == before.max_accounts
    &&& after.max_contracts == before.max_contracts
}

/// **An account's index is the place its key is kept at**: a key that is known keeps its index, one
/// that is not gets the next, and nobody else's moves. It is refused only where it is not known and
/// the table is full.
pub proof fn an_accounts_index_is_its_place(gateway: GatewayView, key: Seq<u8>)
    requires
        gateway.wf(),
    ensures
        ({
            let after = gateway.with_account(key);
            let index = gateway.account_index(key);
            let known = exists|i: int|
                0 <= i < gateway.accounts.len() && #[trigger] gateway.accounts[i] == key;
            &&& after.wf()
            &&& extends(gateway, after)
            &&& after.contracts == gateway.contracts
            &&& known ==> index is Ok && after == gateway
            &&& !known && gateway.accounts.len() < gateway.max_accounts ==> {
                &&& index is Ok
                &&& index->Ok_0.0 == gateway.accounts.len()
                &&& after.accounts.len() == gateway.accounts.len() + 1
            }
            &&& !known && gateway.accounts.len() >= gateway.max_accounts ==> {
                &&& index == Err::<AccountIdx, GatewayError>(GatewayError::AccountTableFull)
                &&& after == gateway
            }
            &&& index is Ok ==> index->Ok_0.0 < after.accounts.len()
                && after.accounts[index->Ok_0.0 as int] == key
        }),
{
    if exists|i: int| 0 <= i < gateway.accounts.len() && #[trigger] gateway.accounts[i] == key {
        assert(gateway.accounts.contains(key));
    }
}

/// **A contract's index is the place its wording is kept at**: one that is known keeps its index
/// and is not announced; one that is not gets the next and is announced with its own date.
pub proof fn a_contracts_index_is_its_place(gateway: GatewayView, terms: Terms)
    requires
        gateway.wf(),
    ensures
        ({
            let after = gateway.with_contract(terms);
            let index = gateway.contract_index(terms);
            let known = exists|i: int|
                0 <= i < gateway.contracts.len() && #[trigger] gateway.contracts[i] == terms;
            &&& after.wf()
            &&& extends(gateway, after)
            &&& after.accounts == gateway.accounts
            &&& known ==> index is Ok && after == gateway && gateway.registration(terms) is None
            &&& !known && gateway.contracts.len() < gateway.max_contracts ==> {
                &&& index is Ok
                &&& index->Ok_0.0 == gateway.contracts.len()
                &&& after.contracts.len() == gateway.contracts.len() + 1
                &&& gateway.registration(terms) == Some(
                    Command::RegisterContract {
                        contract: index->Ok_0,
                        event_date: terms.event_date,
                    },
                )
            }
            &&& !known && gateway.contracts.len() >= gateway.max_contracts ==> {
                &&& index == Err::<ContractIdx, GatewayError>(GatewayError::ContractTableFull)
                &&& after == gateway
            }
            &&& index is Ok ==> index->Ok_0.0 < after.contracts.len()
                && after.contracts[index->Ok_0.0 as int] == terms
        }),
{
    if exists|i: int|
        0 <= i < gateway.contracts.len() && #[trigger] gateway.contracts[i] == terms {
        assert(gateway.contracts.contains(terms));
    }
}

/// Leg `k` of `spec` is what the caller gave for it, its wording found under the leg's index.
pub open spec fn carries(
    after: GatewayView,
    legs: Seq<(ContractRef, Side, Size, Price)>,
    spec_leg: LegSpec,
    k: int,
) -> bool {
    &&& spec_leg.side == legs[k].1
    &&& spec_leg.size == legs[k].2
    &&& spec_leg.limit == legs[k].3
    &&& spec_leg.contract.0 < after.contracts.len()
    &&& after.contracts[spec_leg.contract.0 as int] == legs[k].0@
}

/// **A request carries exactly the terms it was given**: as many legs, the deadline, and of every
/// leg its side, its size and its limit, whichever side it is; the requester and every contract
/// stand under indices behind which their own key and wording are found. Every contract that was
/// not known before is announced once, in the order of the indices, with its own date, and no
/// other.
pub proof fn a_request_carries_the_terms_it_was_given(
    gateway: GatewayView,
    key: Seq<u8>,
    deadline: Ts,
    legs: Seq<(ContractRef, Side, Size, Price)>,
)
    requires
        gateway.wf(),
        legs.len() <= MAX_LEGS,
        gateway.account_index(key) is Ok,
        gateway.with_account(key).legs_fit(legs, legs.len()),
    ensures
        ({
            let known = gateway.with_account(key);
            let after = known.with_legs(legs, legs.len());
            let told = known.registrations(legs, legs.len());
            &&& extends(gateway, after)
            &&& match known.request(gateway.account_index(key)->Ok_0, deadline, legs) {
                Command::SubmitRequest { requester, deadline: by, legs: terms, n_legs } => {
                    &&& by == deadline
                    &&& n_legs == legs.len()
                    &&& requester.0 < after.accounts.len()
                    &&& after.accounts[requester.0 as int] == key
                    &&& forall|k: int|
                        0 <= k < legs.len() ==> carries(after, legs, #[trigger] terms@[k], k)
                },
                _ => false,
            }
            &&& told.len() == after.contracts.len() - gateway.contracts.len()
            &&& forall|j: int|
                0 <= j < told.len() ==> #[trigger] told[j] == (Command::RegisterContract {
                    contract: ContractIdx((gateway.contracts.len() + j) as u32),
                    event_date: after.contracts[gateway.contracts.len() + j].event_date,
                })
        }),
{
    broadcast use array_from_holds;

    let known = gateway.with_account(key);
    an_accounts_index_is_its_place(gateway, key);
    legs_find_their_places(known, legs, legs.len());
    let account = gateway.account_index(key)->Ok_0;
    let after = known.with_legs(legs, legs.len());
    match known.request(account, deadline, legs) {
        Command::SubmitRequest { requester, deadline: by, legs: terms, n_legs } => {
            assert forall|k: int| 0 <= k < legs.len() implies carries(
                after,
                legs,
                #[trigger] terms@[k],
                k,
            ) by {
                assert(terms@[k] == known.leg_terms(legs, k));
                assert(carries(after, legs, known.leg_terms(legs, k), k));
            }
        },
        _ => {},
    }
}

proof fn legs_find_their_places(
    known: GatewayView,
    legs: Seq<(ContractRef, Side, Size, Price)>,
    n: nat,
)
    requires
        known.wf(),
        n <= legs.len(),
        known.legs_fit(legs, n),
    ensures
        ({
            let after = known.with_legs(legs, n);
            let told = known.registrations(legs, n);
            &&& after.wf()
            &&& extends(known, after)
            &&& after.accounts == known.accounts
            &&& forall|k: int|
                0 <= k < n ==> carries(after, legs, #[trigger] known.leg_terms(legs, k), k)
            &&& told.len() == after.contracts.len() - known.contracts.len()
            &&& forall|j: int|
                0 <= j < told.len() ==> #[trigger] told[j] == (Command::RegisterContract {
                    contract: ContractIdx((known.contracts.len() + j) as u32),
                    event_date: after.contracts[known.contracts.len() + j].event_date,
                })
        }),
    decreases n,
{
    if n > 0 {
        let m = (n - 1) as nat;
        assert forall|k: int| 0 <= k < m implies #[trigger] known.leg_fits(legs, k) by {}
        legs_find_their_places(known, legs, m);
        let before = known.with_legs(legs, m);
        let terms = legs[m as int].0@;
        assert(known.leg_fits(legs, m as int));
        a_contracts_index_is_its_place(before, terms);
        let after = known.with_legs(legs, n);
        assert forall|k: int| 0 <= k < n implies carries(
            after,
            legs,
            #[trigger] known.leg_terms(legs, k),
            k,
        ) by {
            if k < m {
                assert(carries(before, legs, known.leg_terms(legs, k), k));
            }
        }
        let earlier = known.registrations(legs, m);
        let told = known.registrations(legs, n);
        assert forall|j: int| 0 <= j < told.len() implies #[trigger] told[j] == (
        Command::RegisterContract {
            contract: ContractIdx((known.contracts.len() + j) as u32),
            event_date: after.contracts[known.contracts.len() + j].event_date,
        }) by {
            if j < earlier.len() {
                assert(told[j] == earlier[j]);
                let at = known.contracts.len() + j;
                assert(after.contracts[at] == before.contracts[at]);
            }
        }
    }
}

/// External ids in, dense indices and commands out.
#[derive(Debug)]
pub struct Gateway {
    accounts: Vec<Vec<u8>>,
    registry: ContractRegistry,
    max_accounts: u32,
    max_contracts: u32,
}

impl Gateway {
    /// What the gateway holds.
    pub closed spec fn view(&self) -> GatewayView {
        GatewayView {
            accounts: self.accounts@.map_values(|key: Vec<u8>| key@),
            contracts: self.registry@,
            max_accounts: self.max_accounts,
            max_contracts: self.max_contracts,
        }
    }

    /// Whether the gateway is sound; see [`GatewayView::wf`].
    pub open spec fn wf(&self) -> bool {
        self@.wf()
    }

    /// A gateway that may assign up to the engine's configured capacities.
    pub fn new(max_accounts: u32, max_contracts: u32) -> (r: Self)
        ensures
            r.wf(),
            r@ == (GatewayView {
                accounts: Seq::empty(),
                contracts: Seq::empty(),
                max_accounts,
                max_contracts,
            }),
    {
        let r = Gateway {
            accounts: Vec::new(),
            registry: ContractRegistry::default(),
            max_accounts,
            max_contracts,
        };
        proof {
            assert(r@.accounts =~= Seq::<Seq<u8>>::empty());
        }
        r
    }

    /// The description store, for the publisher.
    pub fn registry(&self) -> (r: &ContractRegistry)
        ensures
            r@ == self@.contracts,
    {
        &self.registry
    }

    /// The dense index for an account key, assigning one on first sight.
    pub fn account(&mut self, key: &[u8]) -> (r: Result<AccountIdx, GatewayError>)
        requires
            old(self).wf(),
        ensures
            final(self).wf(),
            r == old(self)@.account_index(key@),
            final(self)@ == old(self)@.with_account(key@),
    {
        let ghost before = self@;
        let mut k: usize = 0;
        while k < self.accounts.len()
            invariant
                k <= self.accounts@.len(),
                self@ == before,
                before.wf(),
                forall|j: int| 0 <= j < k ==> #[trigger] before.accounts[j] != key@,
            decreases self.accounts@.len() - k,
        {
            if same_bytes(self.accounts[k].as_slice(), key) {
                proof {
                    assert(before.accounts[k as int] == key@);
                    assert(before.accounts.index_of(key@) == k);
                }
                return Ok(AccountIdx(k as u32));
            }
            k += 1;
        }
        let next: u32 = self.accounts.len() as u32;
        if next >= self.max_accounts {
            return Err(GatewayError::AccountTableFull);
        }
        self.accounts.push(slice_to_vec(key));
        proof {
            assert(self@.accounts =~= before.accounts.push(key@));
        }
        Ok(AccountIdx(next))
    }

    /// The dense index for a contract, assigning one on first sight, plus the command that tells
    /// the core about it: `None` when the contract was already known.
    pub fn contract(&mut self, reference: &ContractRef) -> (r: Result<
        (ContractIdx, Option<Command>),
        GatewayError,
    >)
        requires
            old(self).wf(),
        ensures
            final(self).wf(),
            final(self)@ == old(self)@.with_contract(reference@),
            r == (match old(self)@.contract_index(reference@) {
                Ok(index) => Ok::<(ContractIdx, Option<Command>), GatewayError>(
                    (index, old(self)@.registration(reference@)),
                ),
                Err(error) => Err(error),
            }),
    {
        let ghost before = self@;
        match self.registry.find(reference) {
            Some(index) => {
                proof {
                    assert(before.contracts[index as int] == reference@);
                    assert(before.contracts.index_of(reference@) == index);
                }
                return Ok((ContractIdx(index as u32), None));
            },
            None => {},
        }
        let next: u32 = self.registry.len() as u32;
        if next >= self.max_contracts {
            return Err(GatewayError::ContractTableFull);
        }
        self.registry.by_index.push(reference.copied());
        proof {
            assert(self@.contracts =~= before.contracts.push(reference@));
        }
        Ok(
            (
                ContractIdx(next),
                Some(
                    Command::RegisterContract {
                        contract: ContractIdx(next),
                        event_date: reference.event_date,
                    },
                ),
            ),
        )
    }

    /// Build a `SubmitRequest` from external terms.
    ///
    /// Every description is resolved to an index here, so no byte of wording reaches the core.
    /// The returned commands must be submitted in order: the registrations first, then the
    /// request that references them.
    pub fn submit_request(
        &mut self,
        requester: &[u8],
        deadline: Ts,
        legs: &[(ContractRef, Side, Size, Price)],
    ) -> (r: Result<(Vec<Command>, Command), GatewayError>)
        requires
            old(self).wf(),
        ensures
            final(self).wf(),
            if legs@.len() > MAX_LEGS {
                r == Err::<(Vec<Command>, Command), GatewayError>(GatewayError::TooManyLegs)
                    && final(self)@ == old(self)@
            } else {
                let known = old(self)@.with_account(requester@);
                match old(self)@.account_index(requester@) {
                    Err(error) => r == Err::<(Vec<Command>, Command), GatewayError>(error)
                        && final(self)@ == old(self)@,
                    Ok(account) => {
                        &&& final(self)@ == known.with_legs(legs@, legs@.len())
                        &&& if known.legs_fit(legs@, legs@.len()) {
                            &&& r is Ok
                            &&& r->Ok_0.0@ == known.registrations(legs@, legs@.len())
                            &&& r->Ok_0.1 == known.request(account, deadline, legs@)
                        } else {
                            r == Err::<(Vec<Command>, Command), GatewayError>(
                                GatewayError::ContractTableFull,
                            )
                        }
                    },
                }
            },
            r is Ok ==> match r->Ok_0.1 {
                Command::SubmitRequest { requester: account, deadline: by, legs: terms, n_legs } => {
                    &&& by == deadline
                    &&& n_legs == legs@.len()
                    &&& final(self)@.accounts[account.0 as int] == requester@
                    &&& forall|k: int|
                        0 <= k < legs@.len() ==> {
                            let leg = #[trigger] terms@[k];
                            &&& leg.side == legs@[k].1
                            &&& leg.size == legs@[k].2
                            &&& leg.limit == legs@[k].3
                            &&& final(self)@.contracts[leg.contract.0 as int] == legs@[k].0@
                        }
                },
                _ => false,
            },
    {
        if legs.len() > MAX_LEGS {
            return Err(GatewayError::TooManyLegs);
        }
        let account = match self.account(requester) {
            Ok(account) => account,
            Err(error) => {
                return Err(error);
            },
        };
        let ghost known = self@;
        let mut registrations: Vec<Command> = Vec::new();
        let mut specs: [LegSpec; MAX_LEGS] = [LegSpec::default();MAX_LEGS];
        let n: usize = legs.len();
        let mut k: usize = 0;
        while k < n
            invariant
                k <= n == legs@.len(),
                n <= MAX_LEGS,
                known == old(self)@.with_account(requester@),
                old(self)@.account_index(requester@) == Ok::<AccountIdx, GatewayError>(account),
                self.wf(),
                self@ == known.with_legs(legs@, k as nat),
                registrations@ == known.registrations(legs@, k as nat),
                known.legs_fit(legs@, k as nat),
                specs@.len() == MAX_LEGS,
                forall|j: int| 0 <= j < k ==> #[trigger] specs@[j] == known.leg_terms(legs@, j),
                forall|j: int| k <= j < MAX_LEGS ==> #[trigger] specs@[j] == LegSpec::blank(),
            decreases n - k,
        {
            let ghost here = self@;
            let ghost told = registrations@;
            let ghost written = specs@;
            let (contract, registration) = match self.contract(&legs[k].0) {
                Ok(found) => found,
                Err(_) => {
                    proof {
                        assert(!known.leg_fits(legs@, k as int));
                        full_table_stays(known, legs@, k as nat, n as nat);
                    }
                    return Err(GatewayError::ContractTableFull);
                },
            };
            let terms = LegSpec {
                contract,
                side: legs[k].1,
                size: legs[k].2,
                limit: legs[k].3,
            };
            specs[k] = terms;
            proof {
                assert(known.leg_fits(legs@, k as int));
                assert(terms == known.leg_terms(legs@, k as int));
                assert(specs@ == written.update(k as int, terms));
                assert(self@ == known.with_legs(legs@, (k + 1) as nat));
            }
            match registration {
                Some(command) => {
                    registrations.push(command);
                },
                None => {},
            }
            proof {
                assert(registrations@ == known.registrations(legs@, (k + 1) as nat));
            }
            k += 1;
        }
        proof {
            array_is(specs);
            assert(specs@ =~= Seq::new(
                MAX_LEGS as nat,
                |k: int|
                    if k < legs@.len() {
                        known.leg_terms(legs@, k)
                    } else {
                        LegSpec::blank()
                    },
            ));
            an_accounts_index_is_its_place(old(self)@, requester@);
            legs_find_their_places(known, legs@, n as nat);
            assert forall|j: int| 0 <= j < legs@.len() implies carries(
                self@,
                legs@,
                #[trigger] specs@[j],
                j,
            ) by {
                assert(specs@[j] == known.leg_terms(legs@, j));
            }
        }
        Ok(
            (
                registrations,
                Command::SubmitRequest {
                    requester: account,
                    deadline,
                    legs: specs,
                    n_legs: n as u8,
                },
            ),
        )
    }
}

/// Once a table is full, looking further legs up assigns nothing.
proof fn full_table_stays(
    gateway: GatewayView,
    legs: Seq<(ContractRef, Side, Size, Price)>,
    k: nat,
    n: nat,
)
    requires
        k <= n,
        gateway.with_legs(legs, k).contracts.len() >= gateway.with_legs(legs, k).max_contracts,
    ensures
        gateway.with_legs(legs, n) == gateway.with_legs(legs, k),
    decreases n,
{
    if k < n {
        full_table_stays(gateway, legs, k, (n - 1) as nat);
    }
}

/// **A request is submitted with the terms it was asked with**, every leg of it with its own side,
/// size and limit.
pub proof fn a_request_is_submitted_as_asked(
    requester: &[u8],
    deadline: Ts,
    legs: &[(ContractRef, Side, Size, Price)],
    told: Vec<Command>,
    command: Command,
)
    ensures
        forall|gateway: &mut Gateway| #[trigger]
            call_ensures(
                Gateway::submit_request,
                (gateway, requester, deadline, legs),
                Ok::<(Vec<Command>, Command), GatewayError>((told, command)),
            ) ==> match command {
                Command::SubmitRequest { requester: account, deadline: by, legs: terms, n_legs } => {
                    &&& by == deadline
                    &&& n_legs == legs@.len()
                    &&& final(gateway)@.accounts[account.0 as int] == requester@
                    &&& forall|k: int|
                        0 <= k < legs@.len() ==> {
                            let leg = #[trigger] terms@[k];
                            &&& leg.side == legs@[k].1
                            &&& leg.size == legs@[k].2
                            &&& leg.limit == legs@[k].3
                            &&& final(gateway)@.contracts[leg.contract.0 as int] == legs@[k].0@
                        }
                },
                _ => false,
            },
{
}

/// **Two contracts are the same only where they are worded alike, dated alike and resolved alike**:
/// asked for one after the other they get one index exactly then. The second is announced exactly
/// where it was not known, with its own date.
pub proof fn contracts_are_told_apart_by_every_part(
    a: &ContractRef,
    b: &ContractRef,
    first: (ContractIdx, Option<Command>),
    second: (ContractIdx, Option<Command>),
)
    ensures
        forall|asking: &mut Gateway, again: &mut Gateway|
            {
                &&& #[trigger] call_ensures(
                    Gateway::contract,
                    (asking, a),
                    Ok::<(ContractIdx, Option<Command>), GatewayError>(first),
                )
                &&& #[trigger] call_ensures(
                    Gateway::contract,
                    (again, b),
                    Ok::<(ContractIdx, Option<Command>), GatewayError>(second),
                )
                &&& (*again)@ == final(asking)@
                &&& (*asking).wf()
                &&& (*again).wf()
            } ==> {
                &&& first.0 == second.0 <==> {
                    &&& a.description@ == b.description@
                    &&& a.event_date == b.event_date
                    &&& a.resolution_source@ == b.resolution_source@
                }
                &&& first.0 == second.0 ==> second.1 is None
                &&& second.1 is Some ==> second.1->0 == (Command::RegisterContract {
                    contract: second.0,
                    event_date: b.event_date,
                })
            },
{
    assert forall|asking: &mut Gateway, again: &mut Gateway|
        {
            &&& #[trigger] call_ensures(
                Gateway::contract,
                (asking, a),
                Ok::<(ContractIdx, Option<Command>), GatewayError>(first),
            )
            &&& #[trigger] call_ensures(
                Gateway::contract,
                (again, b),
                Ok::<(ContractIdx, Option<Command>), GatewayError>(second),
            )
            &&& (*again)@ == final(asking)@
            &&& (*asking).wf()
            &&& (*again).wf()
        } implies {
        &&& first.0 == second.0 <==> {
            &&& a.description@ == b.description@
            &&& a.event_date == b.event_date
            &&& a.resolution_source@ == b.resolution_source@
        }
        &&& first.0 == second.0 ==> second.1 is None
        &&& second.1 is Some ==> second.1->0 == (Command::RegisterContract {
            contract: second.0,
            event_date: b.event_date,
        })
    } by {
        a_contracts_index_is_its_place((*asking)@, a@);
        a_contracts_index_is_its_place((*again)@, b@);
        let after = final(asking)@;
        let last = final(again)@;
        assert(after.contracts[first.0.0 as int] == a@);
        assert(last.contracts[first.0.0 as int] == a@);
        assert(last.contracts[second.0.0 as int] == b@);
        if a@ == b@ {
            assert(after.contracts.contains(b@));
        }
    }
}

} // verus!
