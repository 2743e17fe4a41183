//! State model: an immutable point-in-time view of mock network/ledger
//! state — ledger metadata, accounts and contracts with persistent storage —
//! together with the error type shared by the whole library.
//!
//! Snapshots are value types: every "update" returns a new snapshot and
//! leaves the original untouched, so earlier snapshots stay valid baselines.

use vstd::prelude::*;

use crate::text::{id_ok, lex_lt, text_ok, id_ok_str, str_eq, str_lt, text_ok_str};
use crate::text::lemma_lex_lt_irreflexive;
use crate::sorted::{insert_by, key_views, lemma_insert_by_at, lemma_insert_by_sorted};

verus! {

/// Key function for storage entries, for the sorted-sequence machinery.
pub open spec fn entry_key() -> spec_fn(EntryModel) -> Seq<char> {
    |e: EntryModel| e.key
}

/// Key function for accounts.
pub open spec fn acct_key() -> spec_fn(AccountModel) -> Seq<char> {
    |a: AccountModel| a.id
}

/// Key function for contracts.
pub open spec fn contract_key() -> spec_fn(ContractModel) -> Seq<char> {
    |c: ContractModel| c.id
}

/// Views of a vector of accounts.
pub open spec fn account_views(v: Seq<AccountState>) -> Seq<AccountModel> {
    v.map_values(|a: AccountState| a@)
}

/// Views of a vector of contracts.
pub open spec fn contract_views(v: Seq<ContractState>) -> Seq<ContractModel> {
    v.map_values(|c: ContractState| c@)
}

/// Views of a vector of storage entries.
pub open spec fn entry_views(v: Seq<StorageEntry>) -> Seq<EntryModel> {
    v.map_values(|e: StorageEntry| e@)
}

/// Error type for every fallible operation of this library.
#[derive(Debug, PartialEq, Eq)]
pub enum SimulatorError {
    /// Malformed snapshot input; `position` is a character offset into the
    /// source text.
    ParseError { position: usize, reason: String },
    /// Structurally parseable but semantically inconsistent input.
    ValidationError { field: String, reason: String },
    /// An unknown account, contract, or snapshot-name reference.
    NotFound { what: String },
    /// The operation would violate a state invariant.
    InvalidState { reason: String },
    /// A mutation was attempted on a finalized trace.
    AlreadyFinalized,
}

/// Durability class of one storage entry.
#[derive(Clone, Copy, Debug, PartialEq, Eq, Structural)]
pub enum Durability {
    Temporary,
    Persistent,
}

/// Ledger-level metadata of a snapshot.
#[derive(Debug)]
pub struct LedgerMetadata {
    pub sequence: u64,
    pub passphrase: String,
    pub protocol: u64,
    pub timestamp: u64,
}

/// One account: identifier, native balance, per-account sequence number,
/// opaque signer metadata, and the ids of contracts it has deployed.
#[derive(Debug)]
pub struct AccountState {
    pub id: String,
    pub balance: u64,
    pub seq_num: u64,
    pub signers: String,
    pub deployed: Vec<String>,
}

/// One persistent storage entry of a contract.
#[derive(Debug)]
pub struct StorageEntry {
    pub key: String,
    pub value: String,
    pub durability: Durability,
    /// Last ledger sequence number at which the entry is still live.
    pub live_until: u64,
}

/// One contract: identifier, opaque code reference, and its storage entries,
/// kept sorted by key.
#[derive(Debug)]
pub struct ContractState {
    pub id: String,
    pub code: String,
    pub storage: Vec<StorageEntry>,
}

/// Root aggregate: metadata plus the account and contract mappings, each
/// kept sorted by identifier.
#[derive(Debug)]
pub struct NetworkSnapshot {
    pub metadata: LedgerMetadata,
    pub accounts: Vec<AccountState>,
    pub contracts: Vec<ContractState>,
}

// ---------------------------------------------------------------------------
// Mathematical models
// ---------------------------------------------------------------------------

pub struct MetaModel {
    pub sequence: u64,
    pub passphrase: Seq<char>,
    pub protocol: u64,
    pub timestamp: u64,
}

pub struct AccountModel {
    pub id: Seq<char>,
    pub balance: u64,
    pub seq_num: u64,
    pub signers: Seq<char>,
    pub deployed: Seq<Seq<char>>,
}

pub struct EntryModel {
    pub key: Seq<char>,
    pub value: Seq<char>,
    pub durability: Durability,
    pub live_until: u64,
}

pub struct ContractModel {
    pub id: Seq<char>,
    pub code: Seq<char>,
    pub storage: Seq<EntryModel>,
}

pub struct SnapshotModel {
    pub metadata: MetaModel,
    pub accounts: Seq<AccountModel>,
    pub contracts: Seq<ContractModel>,
}

impl View for LedgerMetadata {
    type V = MetaModel;

    open spec fn view(&self) -> MetaModel {
        MetaModel {
            sequence: self.sequence,
            passphrase: self.passphrase@,
            protocol: self.protocol,
            timestamp: self.timestamp,
        }
    }
}

impl View for AccountState {
    type V = AccountModel;

    open spec fn view(&self) -> AccountModel {
        AccountModel {
            id: self.id@,
            balance: self.balance,
            seq_num: self.seq_num,
            signers: self.signers@,
            deployed: key_views(self.deployed@),
        }
    }
}

impl View for StorageEntry {
    type V = EntryModel;

    open spec fn view(&self) -> EntryModel {
        EntryModel {
            key: self.key@,
            value: self.value@,
            durability: self.durability,
            live_until: self.live_until,
        }
    }
}

impl View for ContractState {
    type V = ContractModel;

    open spec fn view(&self) -> ContractModel {
        ContractModel {
            id: self.id@,
            code: self.code@,
            storage: entry_views(self.storage@),
        }
    }
}

impl View for NetworkSnapshot {
    type V = SnapshotModel;

    open spec fn view(&self) -> SnapshotModel {
        SnapshotModel {
            metadata: self.metadata@,
            accounts: account_views(self.accounts@),
            contracts: contract_views(self.contracts@),
        }
    }
}

// ---------------------------------------------------------------------------
// Well-formedness
// ---------------------------------------------------------------------------

impl MetaModel {
    pub open spec fn wf(self) -> bool {
        text_ok(self.passphrase)
    }
}

impl AccountModel {
    pub open spec fn wf(self) -> bool {
        &&& id_ok(self.id)
        &&& text_ok(self.signers)
        &&& forall|i: int| 0 <= i < self.deployed.len() ==> id_ok(#[trigger] self.deployed[i])
    }
}

impl EntryModel {
    pub open spec fn wf(self) -> bool {
        &&& id_ok(self.key)
        &&& text_ok(self.value)
    }
}

impl ContractModel {
    pub open spec fn wf(self) -> bool {
        &&& id_ok(self.id)
        &&& text_ok(self.code)
        &&& storage_sorted(self.storage)
        &&& forall|i: int| 0 <= i < self.storage.len() ==> (#[trigger] self.storage[i]).wf()
    }
}

/// Storage entries strictly sorted by key (hence keys unique).
pub open spec fn storage_sorted(s: Seq<EntryModel>) -> bool {
    forall|i: int, j: int| 0 <= i < j < s.len() ==> lex_lt(s[i].key, s[j].key)
}

/// Accounts strictly sorted by id (hence ids unique).
pub open spec fn accounts_sorted(s: Seq<AccountModel>) -> bool {
    forall|i: int, j: int| 0 <= i < j < s.len() ==> lex_lt(s[i].id, s[j].id)
}

/// Contracts strictly sorted by id (hence ids unique).
pub open spec fn contracts_sorted(s: Seq<ContractModel>) -> bool {
    forall|i: int, j: int| 0 <= i < j < s.len() ==> lex_lt(s[i].id, s[j].id)
}

pub open spec fn has_account(s: Seq<AccountModel>, id: Seq<char>) -> bool {
    exists|i: int| 0 <= i < s.len() && (#[trigger] s[i]).id == id
}

pub open spec fn account_of(s: Seq<AccountModel>, id: Seq<char>) -> AccountModel {
    s[choose|i: int| 0 <= i < s.len() && (#[trigger] s[i]).id == id]
}

pub open spec fn has_contract(s: Seq<ContractModel>, id: Seq<char>) -> bool {
    exists|i: int| 0 <= i < s.len() && (#[trigger] s[i]).id == id
}

pub open spec fn contract_of(s: Seq<ContractModel>, id: Seq<char>) -> ContractModel {
    s[choose|i: int| 0 <= i < s.len() && (#[trigger] s[i]).id == id]
}

/// Storage lookup by key over a contract's entries.
pub open spec fn has_entry(s: Seq<EntryModel>, key: Seq<char>) -> bool {
    exists|i: int| 0 <= i < s.len() && (#[trigger] s[i]).key == key
}

pub open spec fn entry_of(s: Seq<EntryModel>, key: Seq<char>) -> EntryModel {
    s[choose|i: int| 0 <= i < s.len() && (#[trigger] s[i]).key == key]
}

impl SnapshotModel {
    /// Every deployed-contract reference of every account resolves to a
    /// declared contract.
    pub open spec fn refs_ok(self) -> bool {
        forall|i: int, j: int|
            0 <= i < self.accounts.len() && 0 <= j < self.accounts[i].deployed.len()
                ==> has_contract(self.contracts, #[trigger] self.accounts[i].deployed[j])
    }

    pub open spec fn wf(self) -> bool {
        &&& self.metadata.wf()
        &&& accounts_sorted(self.accounts)
        &&& forall|i: int| 0 <= i < self.accounts.len() ==> (#[trigger] self.accounts[i]).wf()
        &&& contracts_sorted(self.contracts)
        &&& forall|i: int| 0 <= i < self.contracts.len() ==> (#[trigger] self.contracts[i]).wf()
        &&& self.refs_ok()
    }
}

/// In a strictly sorted account sequence, an id occurs at most once.
pub proof fn lemma_accounts_unique(s: Seq<AccountModel>, i: int, j: int)
    requires
        accounts_sorted(s),
        0 <= i < s.len(),
        0 <= j < s.len(),
        s[i].id == s[j].id,
    ensures
        i == j,
{
    if i < j || j < i {
        lemma_lex_lt_irreflexive(s[i].id);
    }
}

/// In a strictly sorted contract sequence, an id occurs at most once.
pub proof fn lemma_contracts_unique(s: Seq<ContractModel>, i: int, j: int)
    requires
        contracts_sorted(s),
        0 <= i < s.len(),
        0 <= j < s.len(),
        s[i].id == s[j].id,
    ensures
        i == j,
{
    if i < j || j < i {
        lemma_lex_lt_irreflexive(s[i].id);
    }
}

/// In a strictly sorted storage sequence, a key occurs at most once.
pub proof fn lemma_entries_unique(s: Seq<EntryModel>, i: int, j: int)
    requires
        storage_sorted(s),
        0 <= i < s.len(),
        0 <= j < s.len(),
        s[i].key == s[j].key,
    ensures
        i == j,
{
    if i < j || j < i {
        lemma_lex_lt_irreflexive(s[i].key);
    }
}

// ---------------------------------------------------------------------------
// Clone
// ---------------------------------------------------------------------------

impl Clone for LedgerMetadata {
    fn clone(&self) -> (res: Self)
        ensures
            res == *self,
    {
        LedgerMetadata {
            sequence: self.sequence,
            passphrase: self.passphrase.clone(),
            protocol: self.protocol,
            timestamp: self.timestamp,
        }
    }
}

impl Clone for AccountState {
    fn clone(&self) -> (res: Self)
        ensures
            res@ == self@,
    {
        let deployed = self.deployed.clone();
        proof {
            assert forall|k: int| 0 <= k < self.deployed@.len() implies deployed@[k]
                == self.deployed@[k] by {
                assert(vstd::pervasive::cloned::<String>(self.deployed@[k], deployed@[k]));
            }
            assert(deployed@ =~= self.deployed@);
        }
        AccountState {
            id: self.id.clone(),
            balance: self.balance,
            seq_num: self.seq_num,
            signers: self.signers.clone(),
            deployed,
        }
    }
}

impl Clone for StorageEntry {
    fn clone(&self) -> (res: Self)
        ensures
            res == *self,
    {
        StorageEntry {
            key: self.key.clone(),
            value: self.value.clone(),
            durability: self.durability,
            live_until: self.live_until,
        }
    }
}

impl Clone for ContractState {
    fn clone(&self) -> (res: Self)
        ensures
            res@ == self@,
    {
        let storage = self.storage.clone();
        proof {
            assert forall|k: int| 0 <= k < self.storage@.len() implies storage@[k]
                == self.storage@[k] by {
                assert(vstd::pervasive::cloned::<StorageEntry>(self.storage@[k], storage@[k]));
            }
            assert(storage@ =~= self.storage@);
        }
        ContractState { id: self.id.clone(), code: self.code.clone(), storage }
    }
}

impl Clone for NetworkSnapshot {
    fn clone(&self) -> (res: Self)
        ensures
            res@ == self@,
    {
        let accounts = self.accounts.clone();
        let contracts = self.contracts.clone();
        proof {
            assert forall|k: int| 0 <= k < self.accounts@.len() implies accounts@[k]@
                == self.accounts@[k]@ by {
                assert(vstd::pervasive::cloned::<AccountState>(self.accounts@[k], accounts@[k]));
            }
            assert forall|k: int| 0 <= k < self.contracts@.len() implies contracts@[k]@
                == self.contracts@[k]@ by {
                assert(vstd::pervasive::cloned::<ContractState>(
                    self.contracts@[k],
                    contracts@[k],
                ));
            }
        }
        let res = NetworkSnapshot { metadata: self.metadata.clone(), accounts, contracts };
        proof {
            assert(res@.accounts =~= self@.accounts);
            assert(res@.contracts =~= self@.contracts);
        }
        res
    }
}

// ---------------------------------------------------------------------------
// Lookups
// ---------------------------------------------------------------------------

impl NetworkSnapshot {
    pub open spec fn wf(&self) -> bool {
        self@.wf()
    }

    /// Looks an account up by id. No side effects.
    pub fn get_account(&self, id: &str) -> (r: Option<&AccountState>)
        requires
            self.wf(),
        ensures
            match r {
                Some(a) => has_account(self@.accounts, id@) && a@ == account_of(
                    self@.accounts,
                    id@,
                ),
                None => !has_account(self@.accounts, id@),
            },
    {
        let n = self.accounts.len();
        let mut i: usize = 0;
        while i < n
            invariant
                self.wf(),
                n == self.accounts.len(),
                i <= n,
                forall|k: int| 0 <= k < i ==> self@.accounts[k].id != id@,
            decreases n - i,
        {
            if str_eq(self.accounts[i].id.as_str(), id) {
                proof {
                    assert(self@.accounts[i as int] == self.accounts@[i as int]@);
                    assert(has_account(self@.accounts, id@)) by {
                        assert(self@.accounts[i as int].id == id@);
                    }
                    let w = choose|w: int|
                        0 <= w < self@.accounts.len() && (#[trigger] self@.accounts[w]).id == id@;
                    lemma_accounts_unique(self@.accounts, i as int, w);
                }
                return Some(&self.accounts[i]);
            }
            i += 1;
        }
        None
    }

    /// Looks a contract up by id. No side effects.
    pub fn get_contract(&self, id: &str) -> (r: Option<&ContractState>)
        requires
            self.wf(),
        ensures
            match r {
                Some(c) => has_contract(self@.contracts, id@) && c@ == contract_of(
                    self@.contracts,
                    id@,
                ),
                None => !has_contract(self@.contracts, id@),
            },
    {
        let n = self.contracts.len();
        let mut i: usize = 0;
        while i < n
            invariant
                self.wf(),
                n == self.contracts.len(),
                i <= n,
                forall|k: int| 0 <= k < i ==> self@.contracts[k].id != id@,
            decreases n - i,
        {
            if str_eq(self.contracts[i].id.as_str(), id) {
                proof {
                    assert(self@.contracts[i as int] == self.contracts@[i as int]@);
                    assert(has_contract(self@.contracts, id@)) by {
                        assert(self@.contracts[i as int].id == id@);
                    }
                    let w = choose|w: int|
                        0 <= w < self@.contracts.len() && (#[trigger] self@.contracts[w]).id
                            == id@;
                    lemma_contracts_unique(self@.contracts, i as int, w);
                }
                return Some(&self.contracts[i]);
            }
            i += 1;
        }
        None
    }

    /// Index of the account with the given id, if any.
    fn find_account(&self, id: &str) -> (r: Option<usize>)
        requires
            self.wf(),
        ensures
            match r {
                Some(i) => i < self@.accounts.len() && self@.accounts[i as int].id == id@,
                None => !has_account(self@.accounts, id@),
            },
    {
        let n = self.accounts.len();
        let mut i: usize = 0;
        while i < n
            invariant
                n == self.accounts.len(),
                i <= n,
                forall|k: int| 0 <= k < i ==> self@.accounts[k].id != id@,
            decreases n - i,
        {
            if str_eq(self.accounts[i].id.as_str(), id) {
                proof {
                    assert(self@.accounts[i as int] == self.accounts@[i as int]@);
                }
                return Some(i);
            }
            i += 1;
        }
        None
    }

    /// Index of the contract with the given id, if any.
    fn find_contract(&self, id: &str) -> (r: Option<usize>)
        requires
            self.wf(),
        ensures
            match r {
                Some(i) => i < self@.contracts.len() && self@.contracts[i as int].id == id@,
                None => !has_contract(self@.contracts, id@),
            },
    {
        let n = self.contracts.len();
        let mut i: usize = 0;
        while i < n
            invariant
                n == self.contracts.len(),
                i <= n,
                forall|k: int| 0 <= k < i ==> self@.contracts[k].id != id@,
            decreases n - i,
        {
            if str_eq(self.contracts[i].id.as_str(), id) {
                proof {
                    assert(self@.contracts[i as int] == self.contracts@[i as int]@);
                }
                return Some(i);
            }
            i += 1;
        }
        None
    }
}

// ---------------------------------------------------------------------------
// Derived snapshots
// ---------------------------------------------------------------------------

/// Description of a single-account transformation: each `Some` field is
/// replaced, each `None` field kept.
#[derive(Debug)]
pub struct AccountUpdate {
    /// New balance; a negative value is rejected with `InvalidState`.
    pub balance: Option<i64>,
    pub seq_num: Option<u64>,
    pub signers: Option<String>,
}

pub struct UpdateModel {
    pub balance: Option<i64>,
    pub seq_num: Option<u64>,
    pub signers: Option<Seq<char>>,
}

impl View for AccountUpdate {
    type V = UpdateModel;

    open spec fn view(&self) -> UpdateModel {
        UpdateModel {
            balance: self.balance,
            seq_num: self.seq_num,
            signers: match self.signers {
                Option::Some(s) => Option::Some(s@),
                Option::None => Option::None,
            },
        }
    }
}

/// The account that results from applying an update.
pub open spec fn apply_update(a: AccountModel, u: UpdateModel) -> AccountModel {
    AccountModel {
        id: a.id,
        balance: match u.balance {
            Option::Some(b) => b as u64,
            Option::None => a.balance,
        },
        seq_num: match u.seq_num {
            Option::Some(n) => n,
            Option::None => a.seq_num,
        },
        signers: match u.signers {
            Option::Some(s) => s,
            Option::None => a.signers,
        },
        deployed: a.deployed,
    }
}

/// The account sequence after updating the account with the given id.
pub open spec fn updated_accounts(
    s: Seq<AccountModel>,
    id: Seq<char>,
    u: UpdateModel,
) -> Seq<AccountModel> {
    Seq::new(
        s.len(),
        |i: int|
            if s[i].id == id {
                apply_update(s[i], u)
            } else {
                s[i]
            },
    )
}

/// The contract sequence after writing one storage entry to the contract
/// with the given id.
pub open spec fn written_contracts(
    s: Seq<ContractModel>,
    cid: Seq<char>,
    e: EntryModel,
) -> Seq<ContractModel> {
    Seq::new(
        s.len(),
        |i: int|
            if s[i].id == cid {
                ContractModel {
                    id: s[i].id,
                    code: s[i].code,
                    storage: insert_by(s[i].storage, e, entry_key()),
                }
            } else {
                s[i]
            },
    )
}

impl ContractState {
    /// This contract with one storage entry written (inserted, or replaced
    /// when the key already exists), storage kept sorted by key. The
    /// original is untouched.
    pub(crate) fn with_write(&self, entry: StorageEntry) -> (r: ContractState)
        requires
            self@.wf(),
            entry@.wf(),
        ensures
            r@.id == self@.id,
            r@.code == self@.code,
            r@.storage == insert_by(self@.storage, entry@, entry_key()),
            r@.wf(),
    {
        let ghost e = entry@;
        let ghost olds = self@.storage;
        let m = self.storage.len();
        let mut storage: Vec<StorageEntry> = Vec::new();
        let mut j: usize = 0;
        loop
            invariant
                self@.wf(),
                e == entry@,
                e.wf(),
                olds == self@.storage,
                m == self.storage.len(),
                j <= m,
                storage@.len() == j,
                forall|k: int| 0 <= k < j ==> storage@[k]@ == olds[k],
                forall|k: int| 0 <= k < j ==> lex_lt((#[trigger] olds[k]).key, e.key),
            ensures
                self@.wf(),
                e == entry@,
                olds == self@.storage,
                m == self.storage.len(),
                j <= m,
                storage@.len() == j,
                forall|k: int| 0 <= k < j ==> storage@[k]@ == olds[k],
                forall|k: int| 0 <= k < j ==> lex_lt((#[trigger] olds[k]).key, e.key),
                j < m ==> !lex_lt(olds[j as int].key, e.key),
            decreases m - j,
        {
            if j >= m {
                break;
            }
            proof {
                assert(self@.storage[j as int] == self.storage@[j as int]@);
            }
            if !str_lt(self.storage[j].key.as_str(), entry.key.as_str()) {
                break;
            }
            storage.push(self.storage[j].clone());
            j += 1;
        }
        let ghost p = j as int;
        let replaced = j < m && str_eq(self.storage[j].key.as_str(), entry.key.as_str());
        proof {
            if j < m {
                assert(self@.storage[j as int] == self.storage@[j as int]@);
            }
        }
        storage.push(entry);
        let mut q: usize = if replaced {
            j + 1
        } else {
            j
        };
        let ghost q0 = q as int;
        while q < m
            invariant
                self@.wf(),
                olds == self@.storage,
                m == self.storage.len(),
                0 <= p <= q0 <= q <= m,
                storage@.len() == p + 1 + (q - q0),
                forall|k: int| 0 <= k < p ==> storage@[k]@ == olds[k],
                storage@[p]@ == e,
                forall|k: int|
                    p < k < storage@.len() ==> #[trigger] storage@[k]@ == olds[q0 + (k - p - 1)],
            decreases m - q,
        {
            proof {
                assert(self@.storage[q as int] == self.storage@[q as int]@);
            }
            let item = self.storage[q].clone();
            proof {
                assert(item@ == olds[q as int]);
            }
            let ghost pre = storage@;
            storage.push(item);
            proof {
                let v = storage@.last();
                assert(storage@ == pre.push(v));
                assert(v@ == olds[q as int]);
                assert(p < pre.len());
                assert(pre.push(v)[p] == pre[p]);
                assert forall|k: int| 0 <= k < pre.len() implies #[trigger] storage@[k] == pre[k]
                    by {
                    assert(pre.push(v)[k] == pre[k]);
                }
            }
            q += 1;
        }
        proof {
            lemma_insert_by_at(olds, e, entry_key(), p);
            let ins = insert_by(olds, e, entry_key());
            assert(storage@.map_values(|x: StorageEntry| x@) =~= ins);
            lemma_insert_by_sorted(olds, e, entry_key());
            assert forall|k: int| 0 <= k < ins.len() implies (#[trigger] ins[k]).wf() by {
                if k < p {
                    assert(ins[k] == olds[k]);
                } else if k == p {
                    assert(ins[k] == e);
                } else {
                    assert(ins[k] == olds[q0 + (k - p - 1)]);
                }
            }
        }
        let r = ContractState { id: self.id.clone(), code: self.code.clone(), storage };
        proof {
            assert(r@.storage == insert_by(self@.storage, entry@, entry_key()));
        }
        r
    }
}

impl NetworkSnapshot {
    /// A new snapshot with one account's state transformed; the original is
    /// untouched. Fails with `NotFound` when the account does not exist,
    /// and with `InvalidState` when the update would set a negative balance
    /// or signer data that cannot be represented.
    pub fn with_account_update(&self, id: &str, update: &AccountUpdate) -> (r: Result<
        NetworkSnapshot,
        SimulatorError,
    >)
        requires
            self.wf(),
        ensures
            match r {
                Ok(s2) => {
                    &&& has_account(self@.accounts, id@)
                    &&& (update@.balance matches Option::Some(b) ==> b >= 0)
                    &&& (update@.signers matches Option::Some(sg) ==> text_ok(sg))
                    &&& s2@.metadata == self@.metadata
                    &&& s2@.contracts == self@.contracts
                    &&& s2@.accounts == updated_accounts(self@.accounts, id@, update@)
                    &&& s2.wf()
                },
                Err(e) => {
                    &&& (e is NotFound <==> !has_account(self@.accounts, id@))
                    &&& (e is InvalidState <==> (has_account(self@.accounts, id@) && !(
                    (update@.balance matches Option::Some(b) ==> b >= 0) && (
                    update@.signers matches Option::Some(sg) ==> text_ok(sg)))))
                    &&& (e is NotFound || e is InvalidState)
                },
            },
    {
        let idx = match self.find_account(id) {
            Some(i) => i,
            None => {
                return Err(
                    SimulatorError::NotFound { what: id.to_owned() },
                );
            },
        };
        if let Some(b) = update.balance {
            if b < 0 {
                return Err(
                    SimulatorError::InvalidState {
                        reason: "balance would be negative".to_owned(),
                    },
                );
            }
        }
        if let Some(sg) = &update.signers {
            if !text_ok_str(sg.as_str()) {
                return Err(
                    SimulatorError::InvalidState {
                        reason: "signer data is not representable".to_owned(),
                    },
                );
            }
        }
        let ghost target = updated_accounts(self@.accounts, id@, update@);
        let n = self.accounts.len();
        let mut accounts: Vec<AccountState> = Vec::new();
        let mut i: usize = 0;
        while i < n
            invariant
                self.wf(),
                target == updated_accounts(self@.accounts, id@, update@),
                (update@.balance matches Option::Some(b) ==> b >= 0),
                idx < n,
                self@.accounts[idx as int].id == id@,
                n == self.accounts.len(),
                i <= n,
                accounts@.len() == i,
                forall|k: int| 0 <= k < i ==> accounts@[k]@ == target[k],
            decreases n - i,
        {
            proof {
                assert(self@.accounts[i as int] == self.accounts@[i as int]@);
                if i != idx {
                    if self@.accounts[i as int].id == id@ {
                        lemma_accounts_unique(self@.accounts, i as int, idx as int);
                    }
                }
            }
            if i == idx {
                let mut na = self.accounts[i].clone();
                if let Some(b) = update.balance {
                    na.balance = b as u64;
                }
                if let Some(sn) = update.seq_num {
                    na.seq_num = sn;
                }
                if let Some(sg) = &update.signers {
                    na.signers = sg.clone();
                }
                proof {
                    assert(na@ == apply_update(self@.accounts[i as int], update@));
                }
                accounts.push(na);
            } else {
                accounts.push(self.accounts[i].clone());
            }
            i += 1;
        }
        let contracts = self.contracts.clone();
        proof {
            assert forall|k: int| 0 <= k < self.contracts@.len() implies contracts@[k]@
                == self.contracts@[k]@ by {
                assert(vstd::pervasive::cloned::<ContractState>(
                    self.contracts@[k],
                    contracts@[k],
                ));
            }
        }
        let s2 = NetworkSnapshot { metadata: self.metadata.clone(), accounts, contracts };
        proof {
            assert(s2@.accounts =~= target);
            assert(s2@.contracts =~= self@.contracts);
            assert(has_account(self@.accounts, id@)) by {
                assert(self@.accounts[idx as int].id == id@);
            }
            assert(s2.wf()) by {
                assert(forall|k: int|
                    0 <= k < target.len() ==> (#[trigger] target[k]).id == self@.accounts[k].id);
                assert forall|k: int| 0 <= k < target.len() implies (#[trigger] target[k]).wf() by {
                    assert(self@.accounts[k].wf());
                }
                assert forall|a: int, j: int|
                    0 <= a < s2@.accounts.len() && 0 <= j < s2@.accounts[a].deployed.len()
                    implies has_contract(
                    s2@.contracts,
                    #[trigger] s2@.accounts[a].deployed[j],
                ) by {
                    assert(s2@.accounts[a].deployed == self@.accounts[a].deployed);
                    assert(has_contract(self@.contracts, self@.accounts[a].deployed[j]));
                }
            }
        }
        Ok(s2)
    }

    /// A new snapshot with one storage entry written to a contract; the
    /// original is untouched. Fails with `NotFound` when the contract does
    /// not exist, and with `InvalidState` when the key or value cannot be
    /// represented.
    pub fn with_contract_storage_write(
        &self,
        contract_id: &str,
        key: &str,
        value: &str,
        durability: Durability,
        live_until: u64,
    ) -> (r: Result<NetworkSnapshot, SimulatorError>)
        requires
            self.wf(),
        ensures
            match r {
                Ok(s2) => {
                    &&& has_contract(self@.contracts, contract_id@)
                    &&& id_ok(key@)
                    &&& text_ok(value@)
                    &&& s2@.metadata == self@.metadata
                    &&& s2@.accounts == self@.accounts
                    &&& s2@.contracts == written_contracts(
                        self@.contracts,
                        contract_id@,
                        EntryModel { key: key@, value: value@, durability, live_until },
                    )
                    &&& s2.wf()
                },
                Err(e) => {
                    &&& (e is InvalidState <==> !(id_ok(key@) && text_ok(value@)))
                    &&& (e is NotFound <==> (id_ok(key@) && text_ok(value@) && !has_contract(
                        self@.contracts,
                        contract_id@,
                    )))
                    &&& (e is NotFound || e is InvalidState)
                },
            },
    {
        if !id_ok_str(key) || !text_ok_str(value) {
            return Err(
                SimulatorError::InvalidState {
                    reason: "storage key or value is not representable".to_owned(),
                },
            );
        }
        let idx = match self.find_contract(contract_id) {
            Some(i) => i,
            None => {
                return Err(
                    SimulatorError::NotFound { what: contract_id.to_owned() },
                );
            },
        };
        let entry = StorageEntry {
            key: key.to_owned(),
            value: value.to_owned(),
            durability,
            live_until,
        };
        let ghost e = entry@;
        let ghost target = written_contracts(self@.contracts, contract_id@, e);
        let n = self.contracts.len();
        let mut contracts: Vec<ContractState> = Vec::new();
        let mut i: usize = 0;
        while i < n
            invariant
                self.wf(),
                e == (EntryModel { key: key@, value: value@, durability, live_until }),
                e.wf(),
                entry@ == e,
                target == written_contracts(self@.contracts, contract_id@, e),
                idx < n,
                self@.contracts[idx as int].id == contract_id@,
                n == self.contracts.len(),
                i <= n,
                contracts@.len() == i,
                forall|k: int| 0 <= k < i ==> contracts@[k]@ == target[k],
                forall|k: int| 0 <= k < i ==> (#[trigger] contracts@[k]@).wf(),
            decreases n - i,
        {
            proof {
                assert(self@.contracts[i as int] == self.contracts@[i as int]@);
                assert(self@.contracts[i as int].wf());
                if i != idx {
                    if self@.contracts[i as int].id == contract_id@ {
                        lemma_contracts_unique(self@.contracts, i as int, idx as int);
                    }
                }
            }
            if i == idx {
                contracts.push(self.contracts[i].with_write(entry.clone()));
            } else {
                contracts.push(self.contracts[i].clone());
            }
            i += 1;
        }
        let accounts = self.accounts.clone();
        proof {
            assert forall|k: int| 0 <= k < self.accounts@.len() implies accounts@[k]@
                == self.accounts@[k]@ by {
                assert(vstd::pervasive::cloned::<AccountState>(self.accounts@[k], accounts@[k]));
            }
        }
        let s2 = NetworkSnapshot { metadata: self.metadata.clone(), accounts, contracts };
        proof {
            assert(s2@.contracts =~= target);
            assert(s2@.accounts =~= self@.accounts);
            assert(has_contract(self@.contracts, contract_id@)) by {
                assert(self@.contracts[idx as int].id == contract_id@);
            }
            assert(s2.wf()) by {
                assert(forall|k: int|
                    0 <= k < target.len() ==> (#[trigger] target[k]).id == self@.contracts[k].id);
                assert forall|k: int| 0 <= k < target.len() implies (#[trigger] target[k]).wf()
                    by {
                    assert(contracts@[k]@ == target[k]);
                    assert(contracts@[k]@.wf());
                }
                assert forall|a: int, j: int|
                    0 <= a < s2@.accounts.len() && 0 <= j < s2@.accounts[a].deployed.len()
                    implies has_contract(
                    s2@.contracts,
                    #[trigger] s2@.accounts[a].deployed[j],
                ) by {
                    assert(has_contract(self@.contracts, self@.accounts[a].deployed[j]));
                    let w = choose|w: int|
                        0 <= w < self@.contracts.len() && (#[trigger] self@.contracts[w]).id
                            == self@.accounts[a].deployed[j];
                    assert(target[w].id == self@.accounts[a].deployed[j]);
                }
            }
        }
        Ok(s2)
    }
}

} // verus!
