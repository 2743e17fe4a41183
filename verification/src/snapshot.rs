//! Snapshot manager: a named, session-local working set of snapshots, and
//! the structured diff of two snapshots. The diff is keyed by the union of
//! the ids on both sides and is emitted in ascending id order, so its output
//! is reproducible whatever order the snapshots were built in.

use vstd::prelude::*;

use crate::sorted::{
    sorted_by, has_key_by, key_views, ident_key, insert_key, lemma_keyed_push_step,
    lemma_keyed_skip_step, lemma_sorted_unique_by,
};
use crate::state::{
    AccountModel, AccountState, ContractModel, ContractState, Durability, EntryModel,
    NetworkSnapshot, SimulatorError, SnapshotModel, StorageEntry, account_of, contract_of, has_account,
    has_contract, lemma_entries_unique,
};
use crate::text::{lex_lt, lemma_lex_lt_transitive, str_eq};

verus! {

/// Classification of one id or storage key in a diff. `Unchanged` entries
/// are never emitted; the variant exists for callers that classify ids
/// themselves.
#[derive(Clone, Copy, Debug, PartialEq, Eq, Structural)]
pub enum DiffKind {
    Added,
    Removed,
    Modified,
    Unchanged,
}

/// Field-level changes of one account.
#[derive(Debug)]
pub struct AccountDiff {
    pub id: String,
    pub kind: DiffKind,
    /// Balance after minus balance before; an absent side counts as 0.
    pub balance_delta: i128,
    /// Sequence number after minus before; an absent side counts as 0.
    pub seq_delta: i128,
    pub signers_changed: bool,
    pub deployed_changed: bool,
}

pub struct AccountDiffModel {
    pub id: Seq<char>,
    pub kind: DiffKind,
    pub balance_delta: int,
    pub seq_delta: int,
    pub signers_changed: bool,
    pub deployed_changed: bool,
}

impl View for AccountDiff {
    type V = AccountDiffModel;

    open spec fn view(&self) -> AccountDiffModel {
        AccountDiffModel {
            id: self.id@,
            kind: self.kind,
            balance_delta: self.balance_delta as int,
            seq_delta: self.seq_delta as int,
            signers_changed: self.signers_changed,
            deployed_changed: self.deployed_changed,
        }
    }
}

/// Change of one storage slot of a contract present on both sides.
#[derive(Debug)]
pub struct StorageSlotDiff {
    pub key: String,
    pub kind: DiffKind,
    pub old_value: Option<String>,
    pub new_value: Option<String>,
}

pub struct SlotDiffModel {
    pub key: Seq<char>,
    pub kind: DiffKind,
    pub old_value: Option<Seq<char>>,
    pub new_value: Option<Seq<char>>,
}

impl View for StorageSlotDiff {
    type V = SlotDiffModel;

    open spec fn view(&self) -> SlotDiffModel {
        SlotDiffModel {
            key: self.key@,
            kind: self.kind,
            old_value: crate::trace::opt_view(self.old_value),
            new_value: crate::trace::opt_view(self.new_value),
        }
    }
}

/// Changes of one contract: code-reference change and a storage-slot-level
/// diff. For an `Added` or `Removed` contract the slot list is empty — the
/// classification already covers the whole contract.
#[derive(Debug)]
pub struct ContractDiff {
    pub id: String,
    pub kind: DiffKind,
    pub code_changed: bool,
    pub storage: Vec<StorageSlotDiff>,
}

pub struct ContractDiffModel {
    pub id: Seq<char>,
    pub kind: DiffKind,
    pub code_changed: bool,
    pub storage: Seq<SlotDiffModel>,
}

/// Views of a vector of slot diffs.
pub open spec fn slot_views(v: Seq<StorageSlotDiff>) -> Seq<SlotDiffModel> {
    v.map_values(|x: StorageSlotDiff| x@)
}

impl View for ContractDiff {
    type V = ContractDiffModel;

    open spec fn view(&self) -> ContractDiffModel {
        ContractDiffModel {
            id: self.id@,
            kind: self.kind,
            code_changed: self.code_changed,
            storage: slot_views(self.storage@),
        }
    }
}

/// The diff of two snapshots: every changed account and contract, in
/// ascending id order. Unchanged ids are omitted.
#[derive(Debug)]
pub struct SnapshotDiff {
    pub accounts: Vec<AccountDiff>,
    pub contracts: Vec<ContractDiff>,
}

pub struct DiffModel {
    pub accounts: Seq<AccountDiffModel>,
    pub contracts: Seq<ContractDiffModel>,
}

/// Views of a vector of account diffs.
pub open spec fn acct_diff_views(v: Seq<AccountDiff>) -> Seq<AccountDiffModel> {
    v.map_values(|x: AccountDiff| x@)
}

/// Views of a vector of contract diffs.
pub open spec fn contract_diff_views(v: Seq<ContractDiff>) -> Seq<ContractDiffModel> {
    v.map_values(|x: ContractDiff| x@)
}

impl View for SnapshotDiff {
    type V = DiffModel;

    open spec fn view(&self) -> DiffModel {
        DiffModel {
            accounts: acct_diff_views(self.accounts@),
            contracts: contract_diff_views(self.contracts@),
        }
    }
}

pub open spec fn acct_diff_key() -> spec_fn(AccountDiffModel) -> Seq<char> {
    |d: AccountDiffModel| d.id
}

pub open spec fn contract_diff_key() -> spec_fn(ContractDiffModel) -> Seq<char> {
    |d: ContractDiffModel| d.id
}

pub open spec fn slot_diff_key() -> spec_fn(SlotDiffModel) -> Seq<char> {
    |d: SlotDiffModel| d.key
}

// ---------------------------------------------------------------------------
// What a correct diff is
// ---------------------------------------------------------------------------

/// An account id differs between the two sides.
pub open spec fn acct_changed(a: Seq<AccountModel>, b: Seq<AccountModel>, id: Seq<char>) -> bool {
    let ha = has_account(a, id);
    let hb = has_account(b, id);
    ha != hb || (ha && hb && account_of(a, id) != account_of(b, id))
}

/// One emitted account diff entry is correct for the pair `(a, b)`.
pub open spec fn acct_diff_ok(
    a: Seq<AccountModel>,
    b: Seq<AccountModel>,
    d: AccountDiffModel,
) -> bool {
    let ha = has_account(a, d.id);
    let hb = has_account(b, d.id);
    &&& acct_changed(a, b, d.id)
    &&& if ha && !hb {
        let x = account_of(a, d.id);
        d.kind == DiffKind::Removed && d.balance_delta == -(x.balance as int) && d.seq_delta == -(
        x.seq_num as int) && !d.signers_changed && !d.deployed_changed
    } else if !ha && hb {
        let y = account_of(b, d.id);
        d.kind == DiffKind::Added && d.balance_delta == y.balance as int && d.seq_delta
            == y.seq_num as int && !d.signers_changed && !d.deployed_changed
    } else {
        let x = account_of(a, d.id);
        let y = account_of(b, d.id);
        d.kind == DiffKind::Modified && d.balance_delta == y.balance - x.balance && d.seq_delta
            == y.seq_num - x.seq_num && d.signers_changed == (x.signers != y.signers)
            && d.deployed_changed == (x.deployed != y.deployed)
    }
}

/// A storage entry still counts at the given ledger sequence: persistent, or
/// not yet past its expiration ledger.
pub open spec fn entry_live(e: EntryModel, seq: u64) -> bool {
    e.durability == Durability::Persistent || e.live_until >= seq
}

pub open spec fn live_has_entry(s: Seq<EntryModel>, k: Seq<char>, seq: u64) -> bool {
    exists|i: int| 0 <= i < s.len() && (#[trigger] s[i]).key == k && entry_live(s[i], seq)
}

pub open spec fn live_entry_of(s: Seq<EntryModel>, k: Seq<char>, seq: u64) -> EntryModel {
    s[choose|i: int| 0 <= i < s.len() && (#[trigger] s[i]).key == k && entry_live(s[i], seq)]
}

/// A storage key differs between two contracts, judging each side by its own
/// snapshot's ledger sequence and comparing stored values.
pub open spec fn slot_changed(
    ca: ContractModel,
    seqa: u64,
    cb: ContractModel,
    seqb: u64,
    k: Seq<char>,
) -> bool {
    let ha = live_has_entry(ca.storage, k, seqa);
    let hb = live_has_entry(cb.storage, k, seqb);
    ha != hb || (ha && hb && live_entry_of(ca.storage, k, seqa).value != live_entry_of(
        cb.storage,
        k,
        seqb,
    ).value)
}

/// One emitted storage slot diff entry is correct.
pub open spec fn slot_diff_ok(
    ca: ContractModel,
    seqa: u64,
    cb: ContractModel,
    seqb: u64,
    d: SlotDiffModel,
) -> bool {
    let ha = live_has_entry(ca.storage, d.key, seqa);
    let hb = live_has_entry(cb.storage, d.key, seqb);
    &&& slot_changed(ca, seqa, cb, seqb, d.key)
    &&& if ha && !hb {
        d.kind == DiffKind::Removed && d.old_value == Option::Some(
            live_entry_of(ca.storage, d.key, seqa).value,
        ) && d.new_value is None
    } else if !ha && hb {
        d.kind == DiffKind::Added && d.old_value is None && d.new_value == Option::Some(
            live_entry_of(cb.storage, d.key, seqb).value,
        )
    } else {
        d.kind == DiffKind::Modified && d.old_value == Option::Some(
            live_entry_of(ca.storage, d.key, seqa).value,
        ) && d.new_value == Option::Some(live_entry_of(cb.storage, d.key, seqb).value)
    }
}

/// A contract id differs between the two sides.
pub open spec fn contract_changed(
    a: Seq<ContractModel>,
    b: Seq<ContractModel>,
    id: Seq<char>,
    seqa: u64,
    seqb: u64,
) -> bool {
    let ha = has_contract(a, id);
    let hb = has_contract(b, id);
    ha != hb || (ha && hb && {
        let ca = contract_of(a, id);
        let cb = contract_of(b, id);
        ca.code != cb.code || exists|k: Seq<char>| #[trigger] slot_changed(ca, seqa, cb, seqb, k)
    })
}

/// One emitted contract diff entry is correct.
pub open spec fn contract_diff_ok(
    a: Seq<ContractModel>,
    b: Seq<ContractModel>,
    seqa: u64,
    seqb: u64,
    d: ContractDiffModel,
) -> bool {
    let ha = has_contract(a, d.id);
    let hb = has_contract(b, d.id);
    &&& contract_changed(a, b, d.id, seqa, seqb)
    &&& if ha && !hb {
        d.kind == DiffKind::Removed && !d.code_changed && d.storage.len() == 0
    } else if !ha && hb {
        d.kind == DiffKind::Added && !d.code_changed && d.storage.len() == 0
    } else {
        let ca = contract_of(a, d.id);
        let cb = contract_of(b, d.id);
        &&& d.kind == DiffKind::Modified
        &&& d.code_changed == (ca.code != cb.code)
        &&& sorted_by(d.storage, slot_diff_key())
        &&& forall|k: Seq<char>| #[trigger] has_key_by(d.storage, k, slot_diff_key())
            <==> slot_changed(ca, seqa, cb, seqb, k)
        &&& forall|i: int|
            0 <= i < d.storage.len() ==> slot_diff_ok(ca, seqa, cb, seqb, #[trigger] d.storage[i])
    }
}

/// Full functional characterization of the diff of two snapshots.
pub open spec fn diff_correct(a: SnapshotModel, b: SnapshotModel, d: DiffModel) -> bool {
    &&& sorted_by(d.accounts, acct_diff_key())
    &&& forall|id: Seq<char>| #[trigger] has_key_by(d.accounts, id, acct_diff_key())
        <==> acct_changed(a.accounts, b.accounts, id)
    &&& forall|i: int|
        0 <= i < d.accounts.len() ==> acct_diff_ok(a.accounts, b.accounts, #[trigger] d.accounts[i])
    &&& sorted_by(d.contracts, contract_diff_key())
    &&& forall|id: Seq<char>| #[trigger] has_key_by(d.contracts, id, contract_diff_key())
        <==> contract_changed(
            a.contracts,
            b.contracts,
            id,
            a.metadata.sequence,
            b.metadata.sequence,
        )
    &&& forall|i: int|
        0 <= i < d.contracts.len() ==> contract_diff_ok(
            a.contracts,
            b.contracts,
            a.metadata.sequence,
            b.metadata.sequence,
            #[trigger] d.contracts[i],
        )
}

// ---------------------------------------------------------------------------
// Computing the diff
// ---------------------------------------------------------------------------

/// Equality of two deployed-contract id lists, by contents.
fn deployed_eq(x: &Vec<String>, y: &Vec<String>) -> (r: bool)
    ensures
        r == (key_views(x@) == key_views(y@)),
{
    let n = x.len();
    if n != y.len() {
        proof {
            assert(key_views(x@).len() != key_views(y@).len());
        }
        return false;
    }
    let mut i: usize = 0;
    while i < n
        invariant
            n == x@.len(),
            n == y@.len(),
            i <= n,
            forall|w: int| 0 <= w < i ==> #[trigger] key_views(x@)[w] == key_views(y@)[w],
        decreases n - i,
    {
        if !str_eq(x[i].as_str(), y[i].as_str()) {
            proof {
                assert(key_views(x@)[i as int] != key_views(y@)[i as int]);
            }
            return false;
        }
        proof {
            assert(key_views(x@)[i as int] == x@[i as int]@);
            assert(key_views(y@)[i as int] == y@[i as int]@);
        }
        i += 1;
    }
    proof {
        assert(key_views(x@) =~= key_views(y@));
    }
    true
}

/// Sorted union of the account ids of two snapshots.
fn collect_account_ids(a: &NetworkSnapshot, b: &NetworkSnapshot) -> (ids: Vec<String>)
    requires
        a.wf(),
        b.wf(),
    ensures
        sorted_by(key_views(ids@), ident_key()),
        forall|k: Seq<char>| #[trigger] has_key_by(key_views(ids@), k, ident_key()) <==> (
        has_account(a@.accounts, k) || has_account(b@.accounts, k)),
{
    let mut ids: Vec<String> = Vec::new();
    proof {
        assert(key_views(ids@) =~= Seq::<Seq<char>>::empty());
    }
    let na = a.accounts.len();
    let mut i: usize = 0;
    while i < na
        invariant
            a.wf(),
            na == a@.accounts.len(),
            i <= na,
            sorted_by(key_views(ids@), ident_key()),
            forall|k: Seq<char>| #[trigger] has_key_by(key_views(ids@), k, ident_key()) <==> (
            exists|u: int| 0 <= u < i && (#[trigger] a@.accounts[u]).id == k),
        decreases na - i,
    {
        proof {
            assert(a@.accounts[i as int] == a.accounts@[i as int]@);
        }
        insert_key(&mut ids, a.accounts[i].id.as_str());
        proof {
            let ghost id0 = a@.accounts[i as int].id;
            assert forall|k: Seq<char>| #[trigger] has_key_by(key_views(ids@), k, ident_key())
                <==> (exists|u: int| 0 <= u < i + 1 && (#[trigger] a@.accounts[u]).id == k) by {
                if has_key_by(key_views(ids@), k, ident_key()) {
                    if k == id0 {
                        assert(a@.accounts[i as int].id == k);
                    } else {
                        let u = choose|u: int|
                            0 <= u < i && (#[trigger] a@.accounts[u]).id == k;
                    }
                }
                if (exists|u: int| 0 <= u < i + 1 && (#[trigger] a@.accounts[u]).id == k) {
                    let u = choose|u: int| 0 <= u < i + 1 && (#[trigger] a@.accounts[u]).id == k;
                }
            }
        }
        i += 1;
    }
    let nb = b.accounts.len();
    let mut j: usize = 0;
    while j < nb
        invariant
            b.wf(),
            nb == b@.accounts.len(),
            j <= nb,
            sorted_by(key_views(ids@), ident_key()),
            forall|k: Seq<char>| #[trigger] has_key_by(key_views(ids@), k, ident_key()) <==> (
            has_account(a@.accounts, k) || (exists|u: int|
                0 <= u < j && (#[trigger] b@.accounts[u]).id == k)),
        decreases nb - j,
    {
        proof {
            assert(b@.accounts[j as int] == b.accounts@[j as int]@);
        }
        insert_key(&mut ids, b.accounts[j].id.as_str());
        proof {
            let ghost id0 = b@.accounts[j as int].id;
            assert forall|k: Seq<char>| #[trigger] has_key_by(key_views(ids@), k, ident_key())
                <==> (has_account(a@.accounts, k) || (exists|u: int|
                0 <= u < j + 1 && (#[trigger] b@.accounts[u]).id == k)) by {
                if has_key_by(key_views(ids@), k, ident_key()) {
                    if k == id0 {
                        assert(b@.accounts[j as int].id == k);
                    } else if !has_account(a@.accounts, k) {
                        let u = choose|u: int|
                            0 <= u < j && (#[trigger] b@.accounts[u]).id == k;
                    }
                }
                if !has_account(a@.accounts, k) && (exists|u: int|
                    0 <= u < j + 1 && (#[trigger] b@.accounts[u]).id == k) {
                    let u = choose|u: int| 0 <= u < j + 1 && (#[trigger] b@.accounts[u]).id == k;
                }
            }
        }
        j += 1;
    }
    ids
}

/// The account part of the diff.
fn diff_accounts(a: &NetworkSnapshot, b: &NetworkSnapshot) -> (out: Vec<AccountDiff>)
    requires
        a.wf(),
        b.wf(),
    ensures
        sorted_by(acct_diff_views(out@), acct_diff_key()),
        forall|id: Seq<char>| #[trigger] has_key_by(acct_diff_views(out@), id, acct_diff_key())
            <==> acct_changed(a@.accounts, b@.accounts, id),
        forall|w: int|
            0 <= w < acct_diff_views(out@).len() ==> acct_diff_ok(
                a@.accounts,
                b@.accounts,
                #[trigger] acct_diff_views(out@)[w],
            ),
{
    let ghost ga = a@.accounts;
    let ghost gb = b@.accounts;
    let ghost cond = |k: Seq<char>| acct_changed(ga, gb, k);
    let ghost kf = acct_diff_key();
    let ids = collect_account_ids(a, b);
    let ghost ids_v = key_views(ids@);
    let n = ids.len();
    let mut out: Vec<AccountDiff> = Vec::new();
    proof {
        assert(acct_diff_views(out@) =~= Seq::<AccountDiffModel>::empty());
    }
    let mut t: usize = 0;
    while t < n
        invariant
            a.wf(),
            b.wf(),
            ga == a@.accounts,
            gb == b@.accounts,
            forall|k: Seq<char>| #[trigger] cond(k) == acct_changed(ga, gb, k),
            ids_v == key_views(ids@),
            n == ids_v.len(),
            n == ids@.len(),
            sorted_by(ids_v, ident_key()),
            forall|k: Seq<char>| #[trigger] has_key_by(ids_v, k, ident_key()) <==> (has_account(
                ga,
                k,
            ) || has_account(gb, k)),
            t <= n,
            kf == acct_diff_key(),
            sorted_by(acct_diff_views(out@), kf),
            forall|w: int|
                0 <= w < acct_diff_views(out@).len() && t < n ==> lex_lt(
                    kf(#[trigger] acct_diff_views(out@)[w]),
                    ids_v[t as int],
                ),
            forall|k: Seq<char>| #[trigger] has_key_by(acct_diff_views(out@), k, kf) <==> (
            exists|v: int| 0 <= v < t && (#[trigger] ids_v[v]) == k && cond(k)),
            forall|w: int|
                0 <= w < acct_diff_views(out@).len() ==> acct_diff_ok(
                    ga,
                    gb,
                    #[trigger] acct_diff_views(out@)[w],
                ),
        decreases n - t,
    {
        proof {
            assert(ids_v[t as int] == ids@[t as int]@);
        }
        let idc = ids[t].clone();
        let oa = a.get_account(idc.as_str());
        let ob = b.get_account(idc.as_str());
        let mut entry: Option<AccountDiff> = None;
        match (oa, ob) {
            (Some(x), None) => {
                entry = Some(
                    AccountDiff {
                        id: idc,
                        kind: DiffKind::Removed,
                        balance_delta: -(x.balance as i128),
                        seq_delta: -(x.seq_num as i128),
                        signers_changed: false,
                        deployed_changed: false,
                    },
                );
            },
            (None, Some(y)) => {
                entry = Some(
                    AccountDiff {
                        id: idc,
                        kind: DiffKind::Added,
                        balance_delta: y.balance as i128,
                        seq_delta: y.seq_num as i128,
                        signers_changed: false,
                        deployed_changed: false,
                    },
                );
            },
            (Some(x), Some(y)) => {
                let bd = y.balance as i128 - x.balance as i128;
                let sd = y.seq_num as i128 - x.seq_num as i128;
                let sgc = !str_eq(x.signers.as_str(), y.signers.as_str());
                let dpc = !deployed_eq(&x.deployed, &y.deployed);
                if bd != 0 || sd != 0 || sgc || dpc {
                    entry = Some(
                        AccountDiff {
                            id: idc,
                            kind: DiffKind::Modified,
                            balance_delta: bd,
                            seq_delta: sd,
                            signers_changed: sgc,
                            deployed_changed: dpc,
                        },
                    );
                } else {
                    proof {
                        assert(x@ == y@);
                    }
                }
            },
            (None, None) => {},
        }
        match entry {
            Some(d) => {
                let ghost dv = d@;
                let ghost prev = out@;
                out.push(d);
                proof {
                    assert(acct_diff_views(out@) =~= acct_diff_views(prev).push(dv));
                    assert(cond(ids_v[t as int]));
                    assert(acct_diff_ok(ga, gb, dv));
                    assert(kf(dv) == dv.id);
                    lemma_keyed_push_step(acct_diff_views(prev), dv, kf, ids_v, t as int, cond);
                    assert forall|w: int|
                        0 <= w < acct_diff_views(out@).len() && t + 1 < n implies lex_lt(
                        kf(#[trigger] acct_diff_views(out@)[w]),
                        ids_v[t + 1],
                    ) by {
                        assert(lex_lt(ids_v[t as int], ids_v[t + 1]));
                        assert(acct_diff_views(out@)[w] == acct_diff_views(prev).push(dv)[w]);
                        if lex_lt(kf(acct_diff_views(out@)[w]), ids_v[t as int]) {
                            lemma_lex_lt_transitive(
                                kf(acct_diff_views(out@)[w]),
                                ids_v[t as int],
                                ids_v[t + 1],
                            );
                        }
                    }
                }
            },
            None => {
                proof {
                    assert(!cond(ids_v[t as int]));
                    lemma_keyed_skip_step(acct_diff_views(out@), kf, ids_v, t as int, cond);
                    assert forall|w: int|
                        0 <= w < acct_diff_views(out@).len() && t + 1 < n implies lex_lt(
                        kf(#[trigger] acct_diff_views(out@)[w]),
                        ids_v[t + 1],
                    ) by {
                        assert(lex_lt(ids_v[t as int], ids_v[t + 1]));
                        lemma_lex_lt_transitive(
                            kf(acct_diff_views(out@)[w]),
                            ids_v[t as int],
                            ids_v[t + 1],
                        );
                    }
                }
            },
        }
        t += 1;
    }
    proof {
        assert forall|id: Seq<char>| #[trigger] has_key_by(
            acct_diff_views(out@),
            id,
            acct_diff_key(),
        ) <==> acct_changed(ga, gb, id) by {
            if has_key_by(acct_diff_views(out@), id, acct_diff_key()) {
                let v = choose|v: int| 0 <= v < n && (#[trigger] ids_v[v]) == id && cond(id);
            }
            if acct_changed(ga, gb, id) {
                assert(has_account(ga, id) || has_account(gb, id));
                assert(has_key_by(ids_v, id, ident_key()));
                let v = choose|v: int| 0 <= v < ids_v.len() && (#[trigger] ids_v[v]) == id;
                assert(0 <= v < n && ids_v[v] == id && cond(id));
            }
        }
    }
    out
}

/// Whether a storage entry is live at the given ledger sequence.
fn entry_live_at(e: &StorageEntry, seq: u64) -> (r: bool)
    ensures
        r == entry_live(e@, seq),
{
    match e.durability {
        Durability::Persistent => true,
        Durability::Temporary => e.live_until >= seq,
    }
}

/// Live storage entry of a contract under a key, if any.
fn storage_get_live<'a>(c: &'a ContractState, k: &str, seq: u64) -> (r: Option<&'a StorageEntry>)
    requires
        c@.wf(),
    ensures
        match r {
            Some(e) => live_has_entry(c@.storage, k@, seq) && e@ == live_entry_of(
                c@.storage,
                k@,
                seq,
            ),
            None => !live_has_entry(c@.storage, k@, seq),
        },
{
    let n = c.storage.len();
    let mut i: usize = 0;
    while i < n
        invariant
            c@.wf(),
            n == c@.storage.len(),
            i <= n,
            forall|w: int|
                0 <= w < i ==> !((#[trigger] c@.storage[w]).key == k@ && entry_live(
                    c@.storage[w],
                    seq,
                )),
        decreases n - i,
    {
        proof {
            assert(c@.storage[i as int] == c.storage@[i as int]@);
        }
        if str_eq(c.storage[i].key.as_str(), k) && entry_live_at(&c.storage[i], seq) {
            proof {
                assert(live_has_entry(c@.storage, k@, seq)) by {
                    assert(c@.storage[i as int].key == k@ && entry_live(
                        c@.storage[i as int],
                        seq,
                    ));
                }
                let w = choose|w: int|
                    0 <= w < c@.storage.len() && (#[trigger] c@.storage[w]).key == k@
                        && entry_live(c@.storage[w], seq);
                lemma_entries_unique(c@.storage, i as int, w);
            }
            return Some(&c.storage[i]);
        }
        i += 1;
    }
    None
}

/// Sorted union of the live storage keys of two contracts.
fn collect_live_keys(ca: &ContractState, seqa: u64, cb: &ContractState, seqb: u64) -> (keys: Vec<
    String,
>)
    requires
        ca@.wf(),
        cb@.wf(),
    ensures
        sorted_by(key_views(keys@), ident_key()),
        forall|k: Seq<char>| #[trigger] has_key_by(key_views(keys@), k, ident_key()) <==> (
        live_has_entry(ca@.storage, k, seqa) || live_has_entry(cb@.storage, k, seqb)),
{
    let mut keys: Vec<String> = Vec::new();
    proof {
        assert(key_views(keys@) =~= Seq::<Seq<char>>::empty());
    }
    let na = ca.storage.len();
    let mut i: usize = 0;
    while i < na
        invariant
            ca@.wf(),
            na == ca@.storage.len(),
            i <= na,
            sorted_by(key_views(keys@), ident_key()),
            forall|k: Seq<char>| #[trigger] has_key_by(key_views(keys@), k, ident_key()) <==> (
            exists|u: int|
                0 <= u < i && (#[trigger] ca@.storage[u]).key == k && entry_live(
                    ca@.storage[u],
                    seqa,
                )),
        decreases na - i,
    {
        proof {
            assert(ca@.storage[i as int] == ca.storage@[i as int]@);
        }
        if entry_live_at(&ca.storage[i], seqa) {
            insert_key(&mut keys, ca.storage[i].key.as_str());
            proof {
                let ghost k0 = ca@.storage[i as int].key;
                assert forall|k: Seq<char>| #[trigger] has_key_by(
                    key_views(keys@),
                    k,
                    ident_key(),
                ) <==> (exists|u: int|
                    0 <= u < i + 1 && (#[trigger] ca@.storage[u]).key == k && entry_live(
                        ca@.storage[u],
                        seqa,
                    )) by {
                    if has_key_by(key_views(keys@), k, ident_key()) {
                        if k == k0 {
                            assert(ca@.storage[i as int].key == k && entry_live(
                                ca@.storage[i as int],
                                seqa,
                            ));
                        } else {
                            let u = choose|u: int|
                                0 <= u < i && (#[trigger] ca@.storage[u]).key == k && entry_live(
                                    ca@.storage[u],
                                    seqa,
                                );
                        }
                    }
                    if (exists|u: int|
                        0 <= u < i + 1 && (#[trigger] ca@.storage[u]).key == k && entry_live(
                            ca@.storage[u],
                            seqa,
                        )) {
                        let u = choose|u: int|
                            0 <= u < i + 1 && (#[trigger] ca@.storage[u]).key == k && entry_live(
                                ca@.storage[u],
                                seqa,
                            );
                    }
                }
            }
        } else {
            proof {
                assert forall|k: Seq<char>| #[trigger] has_key_by(
                    key_views(keys@),
                    k,
                    ident_key(),
                ) <==> (exists|u: int|
                    0 <= u < i + 1 && (#[trigger] ca@.storage[u]).key == k && entry_live(
                        ca@.storage[u],
                        seqa,
                    )) by {
                    if (exists|u: int|
                        0 <= u < i + 1 && (#[trigger] ca@.storage[u]).key == k && entry_live(
                            ca@.storage[u],
                            seqa,
                        )) {
                        let u = choose|u: int|
                            0 <= u < i + 1 && (#[trigger] ca@.storage[u]).key == k && entry_live(
                                ca@.storage[u],
                                seqa,
                            );
                        assert(u != i);
                    }
                }
            }
        }
        i += 1;
    }
    let nb = cb.storage.len();
    let mut j: usize = 0;
    while j < nb
        invariant
            cb@.wf(),
            nb == cb@.storage.len(),
            j <= nb,
            sorted_by(key_views(keys@), ident_key()),
            forall|k: Seq<char>| #[trigger] has_key_by(key_views(keys@), k, ident_key()) <==> (
            live_has_entry(ca@.storage, k, seqa) || (exists|u: int|
                0 <= u < j && (#[trigger] cb@.storage[u]).key == k && entry_live(
                    cb@.storage[u],
                    seqb,
                ))),
        decreases nb - j,
    {
        proof {
            assert(cb@.storage[j as int] == cb.storage@[j as int]@);
        }
        if entry_live_at(&cb.storage[j], seqb) {
            insert_key(&mut keys, cb.storage[j].key.as_str());
            proof {
                let ghost k0 = cb@.storage[j as int].key;
                assert forall|k: Seq<char>| #[trigger] has_key_by(
                    key_views(keys@),
                    k,
                    ident_key(),
                ) <==> (live_has_entry(ca@.storage, k, seqa) || (exists|u: int|
                    0 <= u < j + 1 && (#[trigger] cb@.storage[u]).key == k && entry_live(
                        cb@.storage[u],
                        seqb,
                    ))) by {
                    if has_key_by(key_views(keys@), k, ident_key()) {
                        if k == k0 {
                            assert(cb@.storage[j as int].key == k && entry_live(
                                cb@.storage[j as int],
                                seqb,
                            ));
                        } else if !live_has_entry(ca@.storage, k, seqa) {
                            let u = choose|u: int|
                                0 <= u < j && (#[trigger] cb@.storage[u]).key == k && entry_live(
                                    cb@.storage[u],
                                    seqb,
                                );
                        }
                    }
                    if !live_has_entry(ca@.storage, k, seqa) && (exists|u: int|
                        0 <= u < j + 1 && (#[trigger] cb@.storage[u]).key == k && entry_live(
                            cb@.storage[u],
                            seqb,
                        )) {
                        let u = choose|u: int|
                            0 <= u < j + 1 && (#[trigger] cb@.storage[u]).key == k && entry_live(
                                cb@.storage[u],
                                seqb,
                            );
                    }
                }
            }
        } else {
            proof {
                assert forall|k: Seq<char>| #[trigger] has_key_by(
                    key_views(keys@),
                    k,
                    ident_key(),
                ) <==> (live_has_entry(ca@.storage, k, seqa) || (exists|u: int|
                    0 <= u < j + 1 && (#[trigger] cb@.storage[u]).key == k && entry_live(
                        cb@.storage[u],
                        seqb,
                    ))) by {
                    if !live_has_entry(ca@.storage, k, seqa) && (exists|u: int|
                        0 <= u < j + 1 && (#[trigger] cb@.storage[u]).key == k && entry_live(
                            cb@.storage[u],
                            seqb,
                        )) {
                        let u = choose|u: int|
                            0 <= u < j + 1 && (#[trigger] cb@.storage[u]).key == k && entry_live(
                                cb@.storage[u],
                                seqb,
                            );
                        assert(u != j);
                    }
                }
            }
        }
        j += 1;
    }
    keys
}

/// The storage slot diff of two contracts present on both sides.
fn diff_storage(ca: &ContractState, seqa: u64, cb: &ContractState, seqb: u64) -> (out: Vec<
    StorageSlotDiff,
>)
    requires
        ca@.wf(),
        cb@.wf(),
    ensures
        sorted_by(slot_views(out@), slot_diff_key()),
        forall|k: Seq<char>| #[trigger] has_key_by(slot_views(out@), k, slot_diff_key())
            <==> slot_changed(ca@, seqa, cb@, seqb, k),
        forall|w: int|
            0 <= w < slot_views(out@).len() ==> slot_diff_ok(
                ca@,
                seqa,
                cb@,
                seqb,
                #[trigger] slot_views(out@)[w],
            ),
{
    let ghost gca = ca@;
    let ghost gcb = cb@;
    let ghost cond = |k: Seq<char>| slot_changed(gca, seqa, gcb, seqb, k);
    let ghost kf = slot_diff_key();
    let keys = collect_live_keys(ca, seqa, cb, seqb);
    let ghost keys_v = key_views(keys@);
    let n = keys.len();
    let mut out: Vec<StorageSlotDiff> = Vec::new();
    proof {
        assert(slot_views(out@) =~= Seq::<SlotDiffModel>::empty());
    }
    let mut t: usize = 0;
    while t < n
        invariant
            ca@.wf(),
            cb@.wf(),
            gca == ca@,
            gcb == cb@,
            forall|k: Seq<char>| #[trigger] cond(k) == slot_changed(gca, seqa, gcb, seqb, k),
            keys_v == key_views(keys@),
            n == keys_v.len(),
            n == keys@.len(),
            sorted_by(keys_v, ident_key()),
            forall|k: Seq<char>| #[trigger] has_key_by(keys_v, k, ident_key()) <==> (
            live_has_entry(gca.storage, k, seqa) || live_has_entry(gcb.storage, k, seqb)),
            t <= n,
            kf == slot_diff_key(),
            sorted_by(slot_views(out@), kf),
            forall|w: int|
                0 <= w < slot_views(out@).len() && t < n ==> lex_lt(
                    kf(#[trigger] slot_views(out@)[w]),
                    keys_v[t as int],
                ),
            forall|k: Seq<char>| #[trigger] has_key_by(slot_views(out@), k, kf) <==> (
            exists|v: int| 0 <= v < t && (#[trigger] keys_v[v]) == k && cond(k)),
            forall|w: int|
                0 <= w < slot_views(out@).len() ==> slot_diff_ok(
                    gca,
                    seqa,
                    gcb,
                    seqb,
                    #[trigger] slot_views(out@)[w],
                ),
        decreases n - t,
    {
        proof {
            assert(keys_v[t as int] == keys@[t as int]@);
        }
        let kc = keys[t].clone();
        let ea = storage_get_live(ca, kc.as_str(), seqa);
        let eb = storage_get_live(cb, kc.as_str(), seqb);
        let mut entry: Option<StorageSlotDiff> = None;
        match (ea, eb) {
            (Some(x), None) => {
                entry = Some(
                    StorageSlotDiff {
                        key: kc,
                        kind: DiffKind::Removed,
                        old_value: Some(x.value.clone()),
                        new_value: None,
                    },
                );
            },
            (None, Some(y)) => {
                entry = Some(
                    StorageSlotDiff {
                        key: kc,
                        kind: DiffKind::Added,
                        old_value: None,
                        new_value: Some(y.value.clone()),
                    },
                );
            },
            (Some(x), Some(y)) => {
                if !str_eq(x.value.as_str(), y.value.as_str()) {
                    entry = Some(
                        StorageSlotDiff {
                            key: kc,
                            kind: DiffKind::Modified,
                            old_value: Some(x.value.clone()),
                            new_value: Some(y.value.clone()),
                        },
                    );
                }
            },
            (None, None) => {},
        }
        match entry {
            Some(d) => {
                let ghost dv = d@;
                let ghost prev = out@;
                out.push(d);
                proof {
                    assert(slot_views(out@) =~= slot_views(prev).push(dv));
                    assert(cond(keys_v[t as int]));
                    assert(slot_diff_ok(gca, seqa, gcb, seqb, dv));
                    assert(kf(dv) == dv.key);
                    lemma_keyed_push_step(slot_views(prev), dv, kf, keys_v, t as int, cond);
                    assert forall|w: int|
                        0 <= w < slot_views(out@).len() && t + 1 < n implies lex_lt(
                        kf(#[trigger] slot_views(out@)[w]),
                        keys_v[t + 1],
                    ) by {
                        assert(lex_lt(keys_v[t as int], keys_v[t + 1]));
                        assert(slot_views(out@)[w] == slot_views(prev).push(dv)[w]);
                        if lex_lt(kf(slot_views(out@)[w]), keys_v[t as int]) {
                            lemma_lex_lt_transitive(
                                kf(slot_views(out@)[w]),
                                keys_v[t as int],
                                keys_v[t + 1],
                            );
                        }
                    }
                }
            },
            None => {
                proof {
                    assert(!cond(keys_v[t as int]));
                    lemma_keyed_skip_step(slot_views(out@), kf, keys_v, t as int, cond);
                    assert forall|w: int|
                        0 <= w < slot_views(out@).len() && t + 1 < n implies lex_lt(
                        kf(#[trigger] slot_views(out@)[w]),
                        keys_v[t + 1],
                    ) by {
                        assert(lex_lt(keys_v[t as int], keys_v[t + 1]));
                        lemma_lex_lt_transitive(
                            kf(slot_views(out@)[w]),
                            keys_v[t as int],
                            keys_v[t + 1],
                        );
                    }
                }
            },
        }
        t += 1;
    }
    proof {
        assert forall|k: Seq<char>| #[trigger] has_key_by(slot_views(out@), k, slot_diff_key())
            <==> slot_changed(gca, seqa, gcb, seqb, k) by {
            if has_key_by(slot_views(out@), k, slot_diff_key()) {
                let v = choose|v: int| 0 <= v < n && (#[trigger] keys_v[v]) == k && cond(k);
            }
            if slot_changed(gca, seqa, gcb, seqb, k) {
                assert(live_has_entry(gca.storage, k, seqa) || live_has_entry(
                    gcb.storage,
                    k,
                    seqb,
                ));
                assert(has_key_by(keys_v, k, ident_key()));
                let v = choose|v: int| 0 <= v < keys_v.len() && (#[trigger] keys_v[v]) == k;
                assert(0 <= v < n && keys_v[v] == k && cond(k));
            }
        }
    }
    out
}

/// Sorted union of the contract ids of two snapshots.
fn collect_contract_ids(a: &NetworkSnapshot, b: &NetworkSnapshot) -> (ids: Vec<String>)
    requires
        a.wf(),
        b.wf(),
    ensures
        sorted_by(key_views(ids@), ident_key()),
        forall|k: Seq<char>| #[trigger] has_key_by(key_views(ids@), k, ident_key()) <==> (
        has_contract(a@.contracts, k) || has_contract(b@.contracts, k)),
{
    let mut ids: Vec<String> = Vec::new();
    proof {
        assert(key_views(ids@) =~= Seq::<Seq<char>>::empty());
    }
    let na = a.contracts.len();
    let mut i: usize = 0;
    while i < na
        invariant
            a.wf(),
            na == a@.contracts.len(),
            i <= na,
            sorted_by(key_views(ids@), ident_key()),
            forall|k: Seq<char>| #[trigger] has_key_by(key_views(ids@), k, ident_key()) <==> (
            exists|u: int| 0 <= u < i && (#[trigger] a@.contracts[u]).id == k),
        decreases na - i,
    {
        proof {
            assert(a@.contracts[i as int] == a.contracts@[i as int]@);
        }
        insert_key(&mut ids, a.contracts[i].id.as_str());
        proof {
            let ghost id0 = a@.contracts[i as int].id;
            assert forall|k: Seq<char>| #[trigger] has_key_by(key_views(ids@), k, ident_key())
                <==> (exists|u: int| 0 <= u < i + 1 && (#[trigger] a@.contracts[u]).id == k) by {
                if has_key_by(key_views(ids@), k, ident_key()) {
                    if k == id0 {
                        assert(a@.contracts[i as int].id == k);
                    } else {
                        let u = choose|u: int|
                            0 <= u < i && (#[trigger] a@.contracts[u]).id == k;
                    }
                }
                if (exists|u: int| 0 <= u < i + 1 && (#[trigger] a@.contracts[u]).id == k) {
                    let u = choose|u: int|
                        0 <= u < i + 1 && (#[trigger] a@.contracts[u]).id == k;
                }
            }
        }
        i += 1;
    }
    let nb = b.contracts.len();
    let mut j: usize = 0;
    while j < nb
        invariant
            b.wf(),
            nb == b@.contracts.len(),
            j <= nb,
            sorted_by(key_views(ids@), ident_key()),
            forall|k: Seq<char>| #[trigger] has_key_by(key_views(ids@), k, ident_key()) <==> (
            has_contract(a@.contracts, k) || (exists|u: int|
                0 <= u < j && (#[trigger] b@.contracts[u]).id == k)),
        decreases nb - j,
    {
        proof {
            assert(b@.contracts[j as int] == b.contracts@[j as int]@);
        }
        insert_key(&mut ids, b.contracts[j].id.as_str());
        proof {
            let ghost id0 = b@.contracts[j as int].id;
            assert forall|k: Seq<char>| #[trigger] has_key_by(key_views(ids@), k, ident_key())
                <==> (has_contract(a@.contracts, k) || (exists|u: int|
                0 <= u < j + 1 && (#[trigger] b@.contracts[u]).id == k)) by {
                if has_key_by(key_views(ids@), k, ident_key()) {
                    if k == id0 {
                        assert(b@.contracts[j as int].id == k);
                    } else if !has_contract(a@.contracts, k) {
                        let u = choose|u: int|
                            0 <= u < j && (#[trigger] b@.contracts[u]).id == k;
                    }
                }
                if !has_contract(a@.contracts, k) && (exists|u: int|
                    0 <= u < j + 1 && (#[trigger] b@.contracts[u]).id == k) {
                    let u = choose|u: int|
                        0 <= u < j + 1 && (#[trigger] b@.contracts[u]).id == k;
                }
            }
        }
        j += 1;
    }
    ids
}

/// The contract part of the diff.
fn diff_contracts(a: &NetworkSnapshot, b: &NetworkSnapshot) -> (out: Vec<ContractDiff>)
    requires
        a.wf(),
        b.wf(),
    ensures
        sorted_by(contract_diff_views(out@), contract_diff_key()),
        forall|id: Seq<char>| #[trigger] has_key_by(
            contract_diff_views(out@),
            id,
            contract_diff_key(),
        ) <==> contract_changed(
            a@.contracts,
            b@.contracts,
            id,
            a@.metadata.sequence,
            b@.metadata.sequence,
        ),
        forall|w: int|
            0 <= w < contract_diff_views(out@).len() ==> contract_diff_ok(
                a@.contracts,
                b@.contracts,
                a@.metadata.sequence,
                b@.metadata.sequence,
                #[trigger] contract_diff_views(out@)[w],
            ),
{
    let ghost ga = a@.contracts;
    let ghost gb = b@.contracts;
    let seqa = a.metadata.sequence;
    let seqb = b.metadata.sequence;
    let ghost cond = |k: Seq<char>| contract_changed(ga, gb, k, seqa, seqb);
    let ghost kf = contract_diff_key();
    let ids = collect_contract_ids(a, b);
    let ghost ids_v = key_views(ids@);
    let n = ids.len();
    let mut out: Vec<ContractDiff> = Vec::new();
    proof {
        assert(contract_diff_views(out@) =~= Seq::<ContractDiffModel>::empty());
    }
    let mut t: usize = 0;
    while t < n
        invariant
            a.wf(),
            b.wf(),
            ga == a@.contracts,
            gb == b@.contracts,
            seqa == a@.metadata.sequence,
            seqb == b@.metadata.sequence,
            forall|k: Seq<char>| #[trigger] cond(k) == contract_changed(ga, gb, k, seqa, seqb),
            ids_v == key_views(ids@),
            n == ids_v.len(),
            n == ids@.len(),
            sorted_by(ids_v, ident_key()),
            forall|k: Seq<char>| #[trigger] has_key_by(ids_v, k, ident_key()) <==> (has_contract(
                ga,
                k,
            ) || has_contract(gb, k)),
            t <= n,
            kf == contract_diff_key(),
            sorted_by(contract_diff_views(out@), kf),
            forall|w: int|
                0 <= w < contract_diff_views(out@).len() && t < n ==> lex_lt(
                    kf(#[trigger] contract_diff_views(out@)[w]),
                    ids_v[t as int],
                ),
            forall|k: Seq<char>| #[trigger] has_key_by(contract_diff_views(out@), k, kf) <==> (
            exists|v: int| 0 <= v < t && (#[trigger] ids_v[v]) == k && cond(k)),
            forall|w: int|
                0 <= w < contract_diff_views(out@).len() ==> contract_diff_ok(
                    ga,
                    gb,
                    seqa,
                    seqb,
                    #[trigger] contract_diff_views(out@)[w],
                ),
        decreases n - t,
    {
        proof {
            assert(ids_v[t as int] == ids@[t as int]@);
        }
        let idc = ids[t].clone();
        let oa = a.get_contract(idc.as_str());
        let ob = b.get_contract(idc.as_str());
        let mut entry: Option<ContractDiff> = None;
        match (oa, ob) {
            (Some(_x), None) => {
                let d = ContractDiff {
                    id: idc,
                    kind: DiffKind::Removed,
                    code_changed: false,
                    storage: Vec::new(),
                };
                proof {
                    assert(slot_views(d.storage@) =~= Seq::<SlotDiffModel>::empty());
                }
                entry = Some(d);
            },
            (None, Some(_y)) => {
                let d = ContractDiff {
                    id: idc,
                    kind: DiffKind::Added,
                    code_changed: false,
                    storage: Vec::new(),
                };
                proof {
                    assert(slot_views(d.storage@) =~= Seq::<SlotDiffModel>::empty());
                }
                entry = Some(d);
            },
            (Some(x), Some(y)) => {
                let code_changed = !str_eq(x.code.as_str(), y.code.as_str());
                let slots = diff_storage(x, seqa, y, seqb);
                if code_changed || slots.len() > 0 {
                    proof {
                        if slots@.len() > 0 {
                            assert(slot_changed(x@, seqa, y@, seqb, slot_views(slots@)[0].key))
                                by {
                                assert(slot_diff_ok(x@, seqa, y@, seqb, slot_views(slots@)[0]));
                            }
                        }
                    }
                    entry = Some(
                        ContractDiff {
                            id: idc,
                            kind: DiffKind::Modified,
                            code_changed,
                            storage: slots,
                        },
                    );
                } else {
                    proof {
                        assert(x@.code == y@.code);
                        assert forall|k: Seq<char>| !(#[trigger] slot_changed(
                            x@,
                            seqa,
                            y@,
                            seqb,
                            k,
                        )) by {
                            if slot_changed(x@, seqa, y@, seqb, k) {
                                assert(has_key_by(slot_views(slots@), k, slot_diff_key()));
                                let w = choose|w: int|
                                    0 <= w < slot_views(slots@).len() && (#[trigger] slot_views(
                                        slots@,
                                    )[w]).key == k;
                            }
                        }
                    }
                }
            },
            (None, None) => {},
        }
        match entry {
            Some(d) => {
                let ghost dv = d@;
                let ghost prev = out@;
                out.push(d);
                proof {
                    assert(contract_diff_views(out@) =~= contract_diff_views(prev).push(dv));
                    assert(cond(ids_v[t as int]));
                    assert(contract_diff_ok(ga, gb, seqa, seqb, dv));
                    assert(kf(dv) == dv.id);
                    lemma_keyed_push_step(contract_diff_views(prev), dv, kf, ids_v, t as int, cond);
                    assert forall|w: int|
                        0 <= w < contract_diff_views(out@).len() && t + 1 < n implies lex_lt(
                        kf(#[trigger] contract_diff_views(out@)[w]),
                        ids_v[t + 1],
                    ) by {
                        assert(lex_lt(ids_v[t as int], ids_v[t + 1]));
                        assert(contract_diff_views(out@)[w] == contract_diff_views(prev).push(
                            dv,
                        )[w]);
                        if lex_lt(kf(contract_diff_views(out@)[w]), ids_v[t as int]) {
                            lemma_lex_lt_transitive(
                                kf(contract_diff_views(out@)[w]),
                                ids_v[t as int],
                                ids_v[t + 1],
                            );
                        }
                    }
                }
            },
            None => {
                proof {
                    assert(!cond(ids_v[t as int]));
                    lemma_keyed_skip_step(contract_diff_views(out@), kf, ids_v, t as int, cond);
                    assert forall|w: int|
                        0 <= w < contract_diff_views(out@).len() && t + 1 < n implies lex_lt(
                        kf(#[trigger] contract_diff_views(out@)[w]),
                        ids_v[t + 1],
                    ) by {
                        assert(lex_lt(ids_v[t as int], ids_v[t + 1]));
                        lemma_lex_lt_transitive(
                            kf(contract_diff_views(out@)[w]),
                            ids_v[t as int],
                            ids_v[t + 1],
                        );
                    }
                }
            },
        }
        t += 1;
    }
    proof {
        assert forall|id: Seq<char>| #[trigger] has_key_by(
            contract_diff_views(out@),
            id,
            contract_diff_key(),
        ) <==> contract_changed(ga, gb, id, seqa, seqb) by {
            if has_key_by(contract_diff_views(out@), id, contract_diff_key()) {
                let v = choose|v: int| 0 <= v < n && (#[trigger] ids_v[v]) == id && cond(id);
            }
            if contract_changed(ga, gb, id, seqa, seqb) {
                assert(has_contract(ga, id) || has_contract(gb, id));
                assert(has_key_by(ids_v, id, ident_key()));
                let v = choose|v: int| 0 <= v < ids_v.len() && (#[trigger] ids_v[v]) == id;
                assert(0 <= v < n && ids_v[v] == id && cond(id));
            }
        }
    }
    out
}

/// The diff of two snapshots, accounts and contracts keyed by the union of
/// the ids on both sides, in ascending id order.
pub fn diff_snapshots(before: &NetworkSnapshot, after: &NetworkSnapshot) -> (d: SnapshotDiff)
    requires
        before.wf(),
        after.wf(),
    ensures
        diff_correct(before@, after@, d@),
{
    SnapshotDiff {
        accounts: diff_accounts(before, after),
        contracts: diff_contracts(before, after),
    }
}

// ---------------------------------------------------------------------------
// Laws of the diff
// ---------------------------------------------------------------------------

/// How one side's account entry mirrors the other side's for the swapped
/// snapshot pair: deltas negated, flags kept, Added and Removed exchanged.
pub open spec fn acct_diff_swapped(x: AccountDiffModel, y: AccountDiffModel) -> bool {
    &&& y.balance_delta == -x.balance_delta
    &&& y.seq_delta == -x.seq_delta
    &&& y.signers_changed == x.signers_changed
    &&& y.deployed_changed == x.deployed_changed
    &&& (x.kind == DiffKind::Added <==> y.kind == DiffKind::Removed)
    &&& (x.kind == DiffKind::Removed <==> y.kind == DiffKind::Added)
    &&& (x.kind == DiffKind::Modified <==> y.kind == DiffKind::Modified)
}

/// The contract counterpart of `acct_diff_swapped`: kinds exchanged, the
/// code flag kept, and the changed storage keys the same on both sides.
pub open spec fn contract_diff_swapped(x: ContractDiffModel, y: ContractDiffModel) -> bool {
    &&& y.code_changed == x.code_changed
    &&& (x.kind == DiffKind::Added <==> y.kind == DiffKind::Removed)
    &&& (x.kind == DiffKind::Removed <==> y.kind == DiffKind::Added)
    &&& (x.kind == DiffKind::Modified <==> y.kind == DiffKind::Modified)
    &&& forall|k: Seq<char>| #[trigger] has_key_by(x.storage, k, slot_diff_key()) <==> has_key_by(
        y.storage,
        k,
        slot_diff_key(),
    )
}

/// Law: the diff of a snapshot against itself reports nothing at all.
pub proof fn lemma_diff_self_empty(a: SnapshotModel, d: DiffModel)
    requires
        diff_correct(a, a, d),
    ensures
        d.accounts.len() == 0,
        d.contracts.len() == 0,
{
    if d.accounts.len() > 0 {
        let id = d.accounts[0].id;
        assert(has_key_by(d.accounts, id, acct_diff_key())) by {
            assert(acct_diff_key()(d.accounts[0]) == id);
        }
        assert(acct_changed(a.accounts, a.accounts, id));
        assert(false);
    }
    if d.contracts.len() > 0 {
        let id = d.contracts[0].id;
        assert(has_key_by(d.contracts, id, contract_diff_key())) by {
            assert(contract_diff_key()(d.contracts[0]) == id);
        }
        assert(contract_changed(
            a.contracts,
            a.contracts,
            id,
            a.metadata.sequence,
            a.metadata.sequence,
        ));
        assert(false) by {
            if has_contract(a.contracts, id) {
                let c = contract_of(a.contracts, id);
                let seq0 = a.metadata.sequence;
                assert forall|k: Seq<char>| !(#[trigger] slot_changed(c, seq0, c, seq0, k)) by {}
            }
        }
    }
}

/// Law: `diff(a, b)` and `diff(b, a)` report the same set of changed ids,
/// with Added and Removed exchanged, deltas negated and the Modified field
/// pairs swapped.
pub proof fn lemma_diff_symmetry(a: SnapshotModel, b: SnapshotModel, dab: DiffModel, dba: DiffModel)
    requires
        diff_correct(a, b, dab),
        diff_correct(b, a, dba),
    ensures
        forall|id: Seq<char>| #[trigger] has_key_by(dab.accounts, id, acct_diff_key())
            <==> has_key_by(dba.accounts, id, acct_diff_key()),
        forall|i: int, j: int|
            0 <= i < dab.accounts.len() && 0 <= j < dba.accounts.len() && (
            #[trigger] dab.accounts[i]).id == (#[trigger] dba.accounts[j]).id
                ==> acct_diff_swapped(dab.accounts[i], dba.accounts[j]),
        forall|id: Seq<char>| #[trigger] has_key_by(dab.contracts, id, contract_diff_key())
            <==> has_key_by(dba.contracts, id, contract_diff_key()),
        forall|i: int, j: int|
            0 <= i < dab.contracts.len() && 0 <= j < dba.contracts.len() && (
            #[trigger] dab.contracts[i]).id == (#[trigger] dba.contracts[j]).id
                ==> contract_diff_swapped(dab.contracts[i], dba.contracts[j]),
{
    assert forall|id: Seq<char>| #[trigger] has_key_by(dab.accounts, id, acct_diff_key())
        <==> has_key_by(dba.accounts, id, acct_diff_key()) by {
        assert(acct_changed(a.accounts, b.accounts, id) == acct_changed(b.accounts, a.accounts, id));
    }
    assert forall|i: int, j: int|
        0 <= i < dab.accounts.len() && 0 <= j < dba.accounts.len() && (#[trigger] dab.accounts[i]).id
            == (#[trigger] dba.accounts[j]).id implies acct_diff_swapped(
        dab.accounts[i],
        dba.accounts[j],
    ) by {
        assert(acct_diff_ok(a.accounts, b.accounts, dab.accounts[i]));
        assert(acct_diff_ok(b.accounts, a.accounts, dba.accounts[j]));
    }
    assert forall|id: Seq<char>| #[trigger] has_key_by(dab.contracts, id, contract_diff_key())
        <==> has_key_by(dba.contracts, id, contract_diff_key()) by {
        let seqa = a.metadata.sequence;
        let seqb = b.metadata.sequence;
        assert(contract_changed(a.contracts, b.contracts, id, seqa, seqb) == contract_changed(
            b.contracts,
            a.contracts,
            id,
            seqb,
            seqa,
        )) by {
            if has_contract(a.contracts, id) && has_contract(b.contracts, id) {
                let ca = contract_of(a.contracts, id);
                let cb = contract_of(b.contracts, id);
                assert forall|k: Seq<char>| #[trigger] slot_changed(ca, seqa, cb, seqb, k)
                    == slot_changed(cb, seqb, ca, seqa, k) by {}
                if (exists|k: Seq<char>| #[trigger] slot_changed(ca, seqa, cb, seqb, k)) {
                    let k = choose|k: Seq<char>| #[trigger] slot_changed(ca, seqa, cb, seqb, k);
                    assert(slot_changed(cb, seqb, ca, seqa, k));
                }
                if (exists|k: Seq<char>| #[trigger] slot_changed(cb, seqb, ca, seqa, k)) {
                    let k = choose|k: Seq<char>| #[trigger] slot_changed(cb, seqb, ca, seqa, k);
                    assert(slot_changed(ca, seqa, cb, seqb, k));
                }
            }
        }
    }
    assert forall|i: int, j: int|
        0 <= i < dab.contracts.len() && 0 <= j < dba.contracts.len() && (
        #[trigger] dab.contracts[i]).id == (#[trigger] dba.contracts[j]).id
        implies contract_diff_swapped(dab.contracts[i], dba.contracts[j]) by {
        let seqa = a.metadata.sequence;
        let seqb = b.metadata.sequence;
        let x = dab.contracts[i];
        let y = dba.contracts[j];
        assert(contract_diff_ok(a.contracts, b.contracts, seqa, seqb, x));
        assert(contract_diff_ok(b.contracts, a.contracts, seqb, seqa, y));
        assert forall|k: Seq<char>| #[trigger] has_key_by(x.storage, k, slot_diff_key())
            <==> has_key_by(y.storage, k, slot_diff_key()) by {
            if has_contract(a.contracts, x.id) && has_contract(b.contracts, x.id) {
                let ca = contract_of(a.contracts, x.id);
                let cb = contract_of(b.contracts, x.id);
                assert(slot_changed(ca, seqa, cb, seqb, k) == slot_changed(cb, seqb, ca, seqa, k));
            }
        }
    }
}

/// Law: the diff of two snapshots is uniquely determined by the pair, so
/// diff output — and any serialization of it — is reproducible.
pub proof fn lemma_diff_deterministic(
    a: SnapshotModel,
    b: SnapshotModel,
    d1: DiffModel,
    d2: DiffModel,
)
    requires
        diff_correct(a, b, d1),
        diff_correct(a, b, d2),
    ensures
        d1.accounts == d2.accounts,
        d1.contracts == d2.contracts,
{
    assert forall|i: int, j: int|
        0 <= i < d1.accounts.len() && 0 <= j < d2.accounts.len() && acct_diff_key()(
            #[trigger] d1.accounts[i],
        ) == acct_diff_key()(#[trigger] d2.accounts[j]) implies d1.accounts[i] == d2.accounts[j]
        by {
        assert(acct_diff_ok(a.accounts, b.accounts, d1.accounts[i]));
        assert(acct_diff_ok(a.accounts, b.accounts, d2.accounts[j]));
    }
    lemma_sorted_unique_by(d1.accounts, d2.accounts, acct_diff_key());
    assert forall|i: int, j: int|
        0 <= i < d1.contracts.len() && 0 <= j < d2.contracts.len() && contract_diff_key()(
            #[trigger] d1.contracts[i],
        ) == contract_diff_key()(#[trigger] d2.contracts[j]) implies d1.contracts[i]
        == d2.contracts[j] by {
        let seqa = a.metadata.sequence;
        let seqb = b.metadata.sequence;
        let x = d1.contracts[i];
        let y = d2.contracts[j];
        assert(contract_diff_ok(a.contracts, b.contracts, seqa, seqb, x));
        assert(contract_diff_ok(a.contracts, b.contracts, seqa, seqb, y));
        assert(x.id == y.id);
        if has_contract(a.contracts, x.id) && has_contract(b.contracts, x.id) {
            let ca = contract_of(a.contracts, x.id);
            let cb = contract_of(b.contracts, x.id);
            assert forall|w1: int, w2: int|
                0 <= w1 < x.storage.len() && 0 <= w2 < y.storage.len() && slot_diff_key()(
                    #[trigger] x.storage[w1],
                ) == slot_diff_key()(#[trigger] y.storage[w2]) implies x.storage[w1]
                == y.storage[w2] by {
                assert(slot_diff_ok(ca, seqa, cb, seqb, x.storage[w1]));
                assert(slot_diff_ok(ca, seqa, cb, seqb, y.storage[w2]));
            }
            lemma_sorted_unique_by(x.storage, y.storage, slot_diff_key());
        } else {
            assert(x.storage =~= y.storage);
        }
    }
    lemma_sorted_unique_by(d1.contracts, d2.contracts, contract_diff_key());
}

// ---------------------------------------------------------------------------
// The manager
// ---------------------------------------------------------------------------

#[derive(Debug)]
struct NamedSnapshot {
    name: String,
    snapshot: NetworkSnapshot,
}

pub struct NamedModel {
    pub name: Seq<char>,
    pub snapshot: SnapshotModel,
}

impl View for NamedSnapshot {
    type V = NamedModel;

    closed spec fn view(&self) -> NamedModel {
        NamedModel { name: self.name@, snapshot: self.snapshot@ }
    }
}

/// A named working set of snapshots for one debugging session. Naming is
/// session-local bookkeeping, not persisted identity. One manager is owned
/// by its session and passed explicitly, so sessions cannot interfere.
#[derive(Debug)]
pub struct SnapshotManager {
    entries: Vec<NamedSnapshot>,
}

impl View for SnapshotManager {
    type V = Seq<NamedModel>;

    closed spec fn view(&self) -> Seq<NamedModel> {
        self.entries@.map_values(|e: NamedSnapshot| e@)
    }
}

pub open spec fn has_snap(m: Seq<NamedModel>, name: Seq<char>) -> bool {
    exists|i: int| 0 <= i < m.len() && (#[trigger] m[i]).name == name
}

pub open spec fn snap_of(m: Seq<NamedModel>, name: Seq<char>) -> SnapshotModel {
    m[choose|i: int| 0 <= i < m.len() && (#[trigger] m[i]).name == name].snapshot
}

impl SnapshotManager {
    /// Names are unique and every held snapshot is well-formed.
    pub open spec fn wf(&self) -> bool {
        &&& forall|i: int, j: int|
            0 <= i < j < self@.len() ==> (#[trigger] self@[i]).name != (#[trigger] self@[j]).name
        &&& forall|i: int| 0 <= i < self@.len() ==> (#[trigger] self@[i]).snapshot.wf()
    }

    pub fn new() -> (m: SnapshotManager)
        ensures
            m@ == Seq::<NamedModel>::empty(),
            m.wf(),
    {
        let m = SnapshotManager { entries: Vec::new() };
        proof {
            assert(m@ =~= Seq::<NamedModel>::empty());
        }
        m
    }

    /// Registers a snapshot under a name, replacing any previous snapshot of
    /// that name.
    pub fn register(&mut self, name: &str, snapshot: NetworkSnapshot)
        requires
            old(self).wf(),
            snapshot.wf(),
        ensures
            final(self).wf(),
            has_snap(final(self)@, name@),
            snap_of(final(self)@, name@) == snapshot@,
            forall|k: Seq<char>|
                k != name@ ==> (#[trigger] has_snap(final(self)@, k)) == has_snap(old(self)@, k),
            forall|k: Seq<char>|
                k != name@ && has_snap(old(self)@, k) ==> #[trigger] snap_of(final(self)@, k)
                    == snap_of(old(self)@, k),
    {
        let ghost pre = self@;
        let ghost sv = snapshot@;
        proof {
            assert(sv.wf());
        }
        let n = self.entries.len();
        let mut i: usize = 0;
        while i < n
            invariant
                pre == old(self)@,
                pre == self@,
                sv == snapshot@,
                sv.wf(),
                self.wf(),
                n == self@.len(),
                i <= n,
                forall|w: int| 0 <= w < i ==> (#[trigger] self@[w]).name != name@,
            decreases n - i,
        {
            proof {
                assert(self@[i as int] == self.entries@[i as int]@);
            }
            if str_eq(self.entries[i].name.as_str(), name) {
                let item = NamedSnapshot { name: name.to_owned(), snapshot };
                let ghost iv = item@;
                proof {
                    assert(iv.name == name@ && iv.snapshot == sv);
                    assert(pre[i as int].name == name@);
                }
                self.entries.set(i, item);
                proof {
                    assert forall|w: int| 0 <= w < self@.len() implies #[trigger] self@[w] == (
                        if w == i as int {
                            iv
                        } else {
                            pre[w]
                        }) by {
                        assert(self@[w] == self.entries@[w]@);
                    }
                    assert(has_snap(self@, name@)) by {
                        assert(self@[i as int].name == name@);
                    }
                    let w0 = choose|w: int|
                        0 <= w < self@.len() && (#[trigger] self@[w]).name == name@;
                    assert(w0 == i as int) by {
                        if w0 != i as int {
                            assert(pre[w0].name == name@);
                            assert(pre[i as int].name == name@);
                        }
                    }
                    assert forall|w1: int, w2: int| 0 <= w1 < w2 < self@.len() implies (
                    #[trigger] self@[w1]).name != (#[trigger] self@[w2]).name by {
                        if w1 == i as int {
                            assert(pre[w2].name != pre[i as int].name);
                        } else if w2 == i as int {
                            assert(pre[w1].name != pre[i as int].name);
                        }
                    }
                    assert forall|w: int| 0 <= w < self@.len() implies (
                    #[trigger] self@[w]).snapshot.wf() by {
                        if w != i as int {
                            assert(self@[w] == pre[w]);
                        }
                    }
                    assert forall|k: Seq<char>| k != name@ implies (#[trigger] has_snap(self@, k))
                        == has_snap(pre, k) by {
                        if has_snap(self@, k) {
                            let w = choose|w: int|
                                0 <= w < self@.len() && (#[trigger] self@[w]).name == k;
                            assert(pre[w].name == k);
                        }
                        if has_snap(pre, k) {
                            let w = choose|w: int|
                                0 <= w < pre.len() && (#[trigger] pre[w]).name == k;
                            assert(w != i as int);
                            assert(self@[w].name == k);
                        }
                    }
                    assert forall|k: Seq<char>| k != name@ && has_snap(pre, k) implies #[trigger]
                        snap_of(self@, k) == snap_of(pre, k) by {
                        assert(has_snap(self@, k));
                        let w1 = choose|w1: int|
                            0 <= w1 < self@.len() && (#[trigger] self@[w1]).name == k;
                        let w2 = choose|w2: int|
                            0 <= w2 < pre.len() && (#[trigger] pre[w2]).name == k;
                        assert(w1 != i as int);
                        assert(pre[w1].name == k);
                        if w1 != w2 {
                            assert(pre[w1].name != pre[w2].name);
                        }
                    }
                }
                return ;
            }
            i += 1;
        }
        let item = NamedSnapshot { name: name.to_owned(), snapshot };
        let ghost iv = item@;
        proof {
            assert(iv.name == name@ && iv.snapshot == sv);
        }
        self.entries.push(item);
        proof {
            assert forall|w: int| 0 <= w < self@.len() implies #[trigger] self@[w] == (
                if w == pre.len() {
                    iv
                } else {
                    pre[w]
                }) by {
                assert(self@[w] == self.entries@[w]@);
            }
            assert(has_snap(self@, name@)) by {
                assert(self@[pre.len() as int].name == name@);
            }
            let w0 = choose|w: int| 0 <= w < self@.len() && (#[trigger] self@[w]).name == name@;
            assert(w0 == pre.len()) by {
                if w0 != pre.len() {
                    assert(pre[w0].name == name@);
                }
            }
            assert forall|w1: int, w2: int| 0 <= w1 < w2 < self@.len() implies (
            #[trigger] self@[w1]).name != (#[trigger] self@[w2]).name by {
                if w2 == pre.len() {
                    assert(pre[w1].name != name@);
                }
            }
            assert forall|w: int| 0 <= w < self@.len() implies (
            #[trigger] self@[w]).snapshot.wf() by {
                if w < pre.len() {
                    assert(self@[w] == pre[w]);
                }
            }
            assert forall|k: Seq<char>| k != name@ implies (#[trigger] has_snap(self@, k))
                == has_snap(pre, k) by {
                if has_snap(self@, k) {
                    let w = choose|w: int| 0 <= w < self@.len() && (#[trigger] self@[w]).name == k;
                    assert(w < pre.len());
                    assert(pre[w].name == k);
                }
                if has_snap(pre, k) {
                    let w = choose|w: int| 0 <= w < pre.len() && (#[trigger] pre[w]).name == k;
                    assert(self@[w].name == k);
                }
            }
            assert forall|k: Seq<char>| k != name@ && has_snap(pre, k) implies #[trigger] snap_of(
                self@,
                k,
            ) == snap_of(pre, k) by {
                assert(has_snap(self@, k));
                let w1 = choose|w1: int| 0 <= w1 < self@.len() && (#[trigger] self@[w1]).name == k;
                let w2 = choose|w2: int| 0 <= w2 < pre.len() && (#[trigger] pre[w2]).name == k;
                assert(w1 < pre.len());
                assert(pre[w1].name == k);
                if w1 != w2 {
                    assert(pre[w1].name != pre[w2].name);
                }
            }
        }
    }

    /// Looks a registered snapshot up by name.
    pub fn get(&self, name: &str) -> (r: Option<&NetworkSnapshot>)
        requires
            self.wf(),
        ensures
            match r {
                Some(s) => has_snap(self@, name@) && s@ == snap_of(self@, name@) && s.wf(),
                None => !has_snap(self@, name@),
            },
    {
        let n = self.entries.len();
        let mut i: usize = 0;
        while i < n
            invariant
                self.wf(),
                n == self@.len(),
                i <= n,
                forall|w: int| 0 <= w < i ==> (#[trigger] self@[w]).name != name@,
            decreases n - i,
        {
            proof {
                assert(self@[i as int] == self.entries@[i as int]@);
            }
            if str_eq(self.entries[i].name.as_str(), name) {
                proof {
                    assert(has_snap(self@, name@)) by {
                        assert(self@[i as int].name == name@);
                    }
                    let w = choose|w: int|
                        0 <= w < self@.len() && (#[trigger] self@[w]).name == name@;
                    if w != i as int {
                        assert(self@[w].name != self@[i as int].name);
                    }
                }
                return Some(&self.entries[i].snapshot);
            }
            i += 1;
        }
        None
    }

    /// Computes the diff between two registered snapshots, `before_name`
    /// naming the baseline. Fails with `NotFound` when either name is
    /// unregistered.
    pub fn diff(&self, before_name: &str, after_name: &str) -> (r: Result<
        SnapshotDiff,
        SimulatorError,
    >)
        requires
            self.wf(),
        ensures
            match r {
                Ok(d) => has_snap(self@, before_name@) && has_snap(self@, after_name@)
                    && diff_correct(
                    snap_of(self@, before_name@),
                    snap_of(self@, after_name@),
                    d@,
                ),
                Err(e) => {
                    &&& !(has_snap(self@, before_name@) && has_snap(self@, after_name@))
                    &&& (e matches SimulatorError::NotFound { what } && what@ == (
                    if !has_snap(self@, before_name@) {
                        before_name@
                    } else {
                        after_name@
                    }))
                },
            },
    {
        let before = match self.get(before_name) {
            Some(s) => s,
            None => {
                return Err(SimulatorError::NotFound { what: before_name.to_owned() });
            },
        };
        let after = match self.get(after_name) {
            Some(s) => s,
            None => {
                return Err(SimulatorError::NotFound { what: after_name.to_owned() });
            },
        };
        Ok(diff_snapshots(before, after))
    }
}

impl SnapshotManager {
    /// Serializes a named snapshot to its durable textual form, which
    /// `SnapshotLoader::load` reads back. Fails with `NotFound` for an
    /// unregistered name.
    pub fn save(&self, name: &str) -> (r: Result<String, SimulatorError>)
        requires
            self.wf(),
        ensures
            match r {
                Ok(out) => has_snap(self@, name@) && out@ == crate::loader::render_snapshot_model(
                    snap_of(self@, name@),
                ),
                Err(e) => !has_snap(self@, name@) && (e matches SimulatorError::NotFound { what }
                    && what@ == name@),
            },
    {
        match self.get(name) {
            Some(s) => Ok(crate::loader::render_snapshot(s)),
            None => Err(SimulatorError::NotFound { what: name.to_owned() }),
        }
    }
}

} // verus!
