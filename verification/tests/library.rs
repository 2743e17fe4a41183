use ledger_debugger::engine::CompareEngine;
use ledger_debugger::formatter::Formatter;
use ledger_debugger::loader::SnapshotLoader;
use ledger_debugger::snapshot::{DiffKind, SnapshotManager};
use ledger_debugger::state::{
    AccountState, AccountUpdate, ContractState, Durability, LedgerMetadata, NetworkSnapshot,
    SimulatorError, StorageEntry,
};
use ledger_debugger::trace::{Event, ExecutionTrace, Outcome};

fn meta(sequence: u64) -> LedgerMetadata {
    LedgerMetadata {
        sequence,
        passphrase: "Test Network".to_string(),
        protocol: 21,
        timestamp: 1700000000,
    }
}

fn account(id: &str, balance: u64) -> AccountState {
    AccountState {
        id: id.to_string(),
        balance,
        seq_num: 1,
        signers: "ed25519:abc".to_string(),
        deployed: Vec::new(),
    }
}

fn snapshot_one_account(balance: u64) -> NetworkSnapshot {
    NetworkSnapshot {
        metadata: meta(100),
        accounts: vec![account("acct1", balance)],
        contracts: Vec::new(),
    }
}

#[test]
fn account_update_modifies_balance() {
    let a = snapshot_one_account(1000);
    let update = AccountUpdate { balance: Some(1500), seq_num: None, signers: None };
    let b = a.with_account_update("acct1", &update).expect("update should succeed");
    assert_eq!(a.accounts[0].balance, 1000);
    assert_eq!(b.accounts[0].balance, 1500);
}

#[test]
fn diff_reports_single_modified_account() {
    // Snapshot A holds acct1 with balance 1000; B derives it to 1500.
    let a = snapshot_one_account(1000);
    let update = AccountUpdate { balance: Some(1500), seq_num: None, signers: None };
    let b = a.with_account_update("acct1", &update).expect("update should succeed");
    let d = ledger_debugger::snapshot::diff_snapshots(&a, &b);
    assert_eq!(d.accounts.len(), 1);
    assert_eq!(d.accounts[0].id, "acct1");
    assert_eq!(d.accounts[0].kind, DiffKind::Modified);
    assert_eq!(d.accounts[0].balance_delta, 500);
    assert_eq!(d.accounts[0].seq_delta, 0);
    assert!(!d.accounts[0].signers_changed);
    assert_eq!(d.contracts.len(), 0);
}

#[test]
fn diff_of_snapshot_with_itself_is_empty() {
    let a = snapshot_one_account(1000);
    let d = ledger_debugger::snapshot::diff_snapshots(&a, &a);
    assert_eq!(d.accounts.len(), 0);
    assert_eq!(d.contracts.len(), 0);
}

#[test]
fn diff_symmetry_swaps_added_and_removed() {
    let a = snapshot_one_account(1000);
    let empty = NetworkSnapshot {
        metadata: meta(100),
        accounts: Vec::new(),
        contracts: Vec::new(),
    };
    let d_ab = ledger_debugger::snapshot::diff_snapshots(&a, &empty);
    let d_ba = ledger_debugger::snapshot::diff_snapshots(&empty, &a);
    assert_eq!(d_ab.accounts.len(), 1);
    assert_eq!(d_ba.accounts.len(), 1);
    assert_eq!(d_ab.accounts[0].kind, DiffKind::Removed);
    assert_eq!(d_ba.accounts[0].kind, DiffKind::Added);
    assert_eq!(d_ab.accounts[0].balance_delta, -1000);
    assert_eq!(d_ba.accounts[0].balance_delta, 1000);
}

#[test]
fn diff_twice_is_byte_identical() {
    let a = snapshot_one_account(1000);
    let update = AccountUpdate { balance: Some(7), seq_num: Some(9), signers: None };
    let b = a.with_account_update("acct1", &update).expect("update should succeed");
    let d1 = ledger_debugger::snapshot::diff_snapshots(&a, &b);
    let d2 = ledger_debugger::snapshot::diff_snapshots(&a, &b);
    assert_eq!(format!("{:?}", d1), format!("{:?}", d2));
}

#[test]
fn update_of_unknown_account_is_not_found() {
    let a = snapshot_one_account(1000);
    let update = AccountUpdate { balance: Some(1), seq_num: None, signers: None };
    let e = a.with_account_update("missing", &update).unwrap_err();
    assert!(matches!(e, SimulatorError::NotFound { .. }));
}

#[test]
fn negative_balance_is_invalid_state() {
    let a = snapshot_one_account(1000);
    let update = AccountUpdate { balance: Some(-5), seq_num: None, signers: None };
    let e = a.with_account_update("acct1", &update).unwrap_err();
    assert!(matches!(e, SimulatorError::InvalidState { .. }));
}

#[test]
fn storage_write_creates_and_replaces_entries() {
    let a = NetworkSnapshot {
        metadata: meta(100),
        accounts: Vec::new(),
        contracts: vec![ContractState {
            id: "C1".to_string(),
            code: "deadbeef".to_string(),
            storage: Vec::new(),
        }],
    };
    let b = a
        .with_contract_storage_write("C1", "counter", "1", Durability::Persistent, 0)
        .expect("write should succeed");
    let c = b
        .with_contract_storage_write("C1", "counter", "2", Durability::Persistent, 0)
        .expect("write should succeed");
    assert_eq!(a.contracts[0].storage.len(), 0);
    assert_eq!(b.contracts[0].storage.len(), 1);
    assert_eq!(b.contracts[0].storage[0].value, "1");
    assert_eq!(c.contracts[0].storage.len(), 1);
    assert_eq!(c.contracts[0].storage[0].value, "2");
    let e = a
        .with_contract_storage_write("C9", "k", "v", Durability::Temporary, 0)
        .unwrap_err();
    assert!(matches!(e, SimulatorError::NotFound { .. }));
}

#[test]
fn lookups_find_registered_state() {
    let a = snapshot_one_account(42);
    assert_eq!(a.get_account("acct1").unwrap().balance, 42);
    assert!(a.get_account("other").is_none());
    assert!(a.get_contract("C1").is_none());
}

fn rich_snapshot() -> NetworkSnapshot {
    let contract = ContractState {
        id: "C1".to_string(),
        code: "hash:77aa".to_string(),
        storage: vec![
            StorageEntry {
                key: "alpha".to_string(),
                value: "1".to_string(),
                durability: Durability::Persistent,
                live_until: 0,
            },
            StorageEntry {
                key: "beta".to_string(),
                value: "two".to_string(),
                durability: Durability::Temporary,
                live_until: 500,
            },
        ],
    };
    let mut acct = account("acct1", 1000);
    acct.deployed = vec!["C1".to_string()];
    NetworkSnapshot {
        metadata: meta(100),
        accounts: vec![acct, account("acct2", 77)],
        contracts: vec![contract],
    }
}

#[test]
fn save_and_load_round_trip() {
    // P-round-trip on a concrete snapshot: load(save(s)) equals s
    // structurally, and re-saving gives the same bytes.
    let s = rich_snapshot();
    let mut mgr = SnapshotManager::new();
    mgr.register("base", s);
    let text = mgr.save("base").expect("save should succeed");
    let loaded = SnapshotLoader::load(&text).expect("load should succeed");
    let text2 = ledger_debugger::loader::render_snapshot(&loaded.snapshot);
    assert_eq!(text, text2);
    let s2 = loaded.snapshot;
    assert_eq!(s2.accounts.len(), 2);
    assert_eq!(s2.accounts[0].id, "acct1");
    assert_eq!(s2.accounts[0].balance, 1000);
    assert_eq!(s2.accounts[0].deployed, vec!["C1".to_string()]);
    assert_eq!(s2.contracts.len(), 1);
    assert_eq!(s2.contracts[0].storage.len(), 2);
    assert_eq!(s2.contracts[0].storage[1].key, "beta");
    assert_eq!(s2.contracts[0].storage[1].durability, Durability::Temporary);
    assert_eq!(s2.metadata.sequence, 100);
    assert_eq!(s2.metadata.passphrase, "Test Network");
}

#[test]
fn load_accepts_unordered_and_unknown_fields() {
    let text = r#"{ "accounts": [ {"balance": 5, "id": "a1", "extra": {"x": [1, 2]},
        "seq_num": 3, "signers": "", "deployed": [] } ],
        "contracts": [], "future": true,
        "metadata": {"timestamp": 9, "sequence": 1, "passphrase": "p", "protocol": 2} }"#;
    let loaded = SnapshotLoader::load(text).expect("load should succeed");
    assert_eq!(loaded.snapshot.accounts[0].id, "a1");
    assert_eq!(loaded.snapshot.accounts[0].balance, 5);
    assert_eq!(loaded.snapshot.metadata.timestamp, 9);
}

#[test]
fn load_sorts_unsorted_input() {
    let text = r#"{"metadata":{"sequence":1,"passphrase":"p","protocol":2,"timestamp":3},
        "accounts":[{"id":"b","balance":2,"seq_num":0,"signers":"","deployed":[]},
                    {"id":"a","balance":1,"seq_num":0,"signers":"","deployed":[]}],
        "contracts":[]}"#;
    let loaded = SnapshotLoader::load(text).expect("load should succeed");
    assert_eq!(loaded.snapshot.accounts[0].id, "a");
    assert_eq!(loaded.snapshot.accounts[1].id, "b");
}

#[test]
fn dangling_deployed_reference_is_rejected() {
    // An account lists C2 as deployed but the contracts section lacks it.
    let text = r#"{"metadata":{"sequence":1,"passphrase":"p","protocol":2,"timestamp":3},
        "accounts":[{"id":"a1","balance":1,"seq_num":0,"signers":"","deployed":["C2"]}],
        "contracts":[]}"#;
    let e = SnapshotLoader::load(text).unwrap_err();
    assert_eq!(
        e,
        SimulatorError::ValidationError {
            field: "contracts".to_string(),
            reason: "dangling reference: C2".to_string(),
        }
    );
}

#[test]
fn duplicate_account_id_is_rejected() {
    let text = r#"{"metadata":{"sequence":1,"passphrase":"p","protocol":2,"timestamp":3},
        "accounts":[{"id":"a","balance":1,"seq_num":0,"signers":"","deployed":[]},
                    {"id":"a","balance":2,"seq_num":0,"signers":"","deployed":[]}],
        "contracts":[]}"#;
    let e = SnapshotLoader::load(text).unwrap_err();
    assert!(matches!(e, SimulatorError::ValidationError { .. }));
}

#[test]
fn malformed_document_is_a_parse_error() {
    let e = SnapshotLoader::load("{\"metadata\":").unwrap_err();
    assert!(matches!(e, SimulatorError::ParseError { .. }));
    let e2 = SnapshotLoader::load("{}").unwrap_err();
    assert!(matches!(e2, SimulatorError::ParseError { .. }));
}

#[test]
fn manager_lookup_and_missing_names() {
    let mut mgr = SnapshotManager::new();
    mgr.register("a", snapshot_one_account(1));
    assert!(mgr.get("a").is_some());
    assert!(mgr.get("b").is_none());
    let e = mgr.diff("a", "b").unwrap_err();
    assert_eq!(e, SimulatorError::NotFound { what: "b".to_string() });
    let e2 = mgr.save("missing").unwrap_err();
    assert_eq!(e2, SimulatorError::NotFound { what: "missing".to_string() });
}

#[test]
fn manager_register_replaces_by_name() {
    let mut mgr = SnapshotManager::new();
    mgr.register("work", snapshot_one_account(1));
    mgr.register("work", snapshot_one_account(2));
    assert_eq!(mgr.get("work").unwrap().accounts[0].balance, 2);
}

#[test]
fn manager_diff_uses_registered_snapshots() {
    let mut mgr = SnapshotManager::new();
    let a = snapshot_one_account(1000);
    let update = AccountUpdate { balance: Some(1500), seq_num: None, signers: None };
    let b = a.with_account_update("acct1", &update).unwrap();
    mgr.register("before", a);
    mgr.register("after", b);
    let d = mgr.diff("before", "after").expect("diff should succeed");
    assert_eq!(d.accounts.len(), 1);
    assert_eq!(d.accounts[0].balance_delta, 500);
}

fn write_event(key: &str, old: &str, new: &str) -> Event {
    Event::StorageWrite {
        key: key.to_string(),
        old_value: Some(old.to_string()),
        new_value: new.to_string(),
    }
}

fn transfer_trace(written: &str) -> ExecutionTrace {
    let mut t = ExecutionTrace::new("inv1".to_string(), "base".to_string());
    t.record_event(Event::FunctionEntry { name: "transfer".to_string(), args: None })
        .unwrap();
    t.record_event(write_event("K", "0", written)).unwrap();
    t.record_event(Event::FunctionExit { name: "transfer".to_string(), return_value: None })
        .unwrap();
    t.finalize(Outcome::Success("ok".to_string())).unwrap();
    t
}

#[test]
fn trace_is_immutable_after_finalize() {
    // After finalize, record_event fails with AlreadyFinalized and the
    // event count stays put.
    let mut t = transfer_trace("100");
    let before = t.events_len();
    let e = t
        .record_event(Event::DiagnosticEvent {
            topic: "late".to_string(),
            payload: "x".to_string(),
        })
        .unwrap_err();
    assert_eq!(e, SimulatorError::AlreadyFinalized);
    assert_eq!(t.events_len(), before);
    let e2 = t.finalize(Outcome::Failure("again".to_string())).unwrap_err();
    assert_eq!(e2, SimulatorError::AlreadyFinalized);
}

#[test]
fn comparison_reports_value_mismatch_and_divergence() {
    // T1 writes K := 100, T2 writes K := 50; outcomes match, divergence at
    // event index 1, one storage mismatch for K.
    let t1 = transfer_trace("100");
    let t2 = transfer_trace("50");
    let r = CompareEngine::compare(&t1, &t2);
    assert!(r.outcome_match);
    assert_eq!(r.divergence, Some(1));
    assert_eq!(r.value_mismatches.len(), 1);
    assert_eq!(r.value_mismatches[0].key, "K");
    assert_eq!(r.value_mismatches[0].before, Some("100".to_string()));
    assert_eq!(r.value_mismatches[0].after, Some("50".to_string()));
    assert_eq!(r.keys_only_before.len(), 0);
    assert_eq!(r.keys_only_after.len(), 0);
    assert_eq!(r.trailing_before, 2);
    assert_eq!(r.trailing_after, 2);
}

#[test]
fn comparison_of_equal_traces_is_clean() {
    let t1 = transfer_trace("100");
    let t2 = transfer_trace("100");
    let r = CompareEngine::compare(&t1, &t2);
    assert!(r.outcome_match);
    assert_eq!(r.divergence, None);
    assert_eq!(r.value_mismatches.len(), 0);
    assert_eq!(r.trailing_before, 0);
    assert_eq!(r.trailing_after, 0);
}

#[test]
fn comparison_handles_unequal_lengths_and_outcomes() {
    let t1 = transfer_trace("100");
    let mut t2 = ExecutionTrace::new("inv2".to_string(), "base".to_string());
    t2.record_event(Event::FunctionEntry { name: "transfer".to_string(), args: None })
        .unwrap();
    t2.finalize(Outcome::Failure("trapped".to_string())).unwrap();
    let r = CompareEngine::compare(&t1, &t2);
    assert!(!r.outcome_match);
    assert_eq!(r.divergence, None);
    assert_eq!(r.trailing_before, 2);
    assert_eq!(r.trailing_after, 0);
    assert_eq!(r.keys_only_before, vec!["K".to_string()]);
}

#[test]
fn comparison_aggregates_resource_deltas() {
    let mut t1 = ExecutionTrace::new("i1".to_string(), "s".to_string());
    t1.record_event(Event::ResourceSample {
        cpu_used: 100,
        cpu_limit: 1000,
        memory_used: 64,
        memory_limit: 512,
    })
    .unwrap();
    t1.finalize(Outcome::Success("".to_string())).unwrap();
    let mut t2 = ExecutionTrace::new("i2".to_string(), "s".to_string());
    t2.record_event(Event::ResourceSample {
        cpu_used: 150,
        cpu_limit: 1000,
        memory_used: 32,
        memory_limit: 512,
    })
    .unwrap();
    t2.finalize(Outcome::Success("".to_string())).unwrap();
    let r = CompareEngine::compare(&t1, &t2);
    assert_eq!(r.cpu_delta, 50);
    assert_eq!(r.mem_delta, -32);
}

#[test]
fn expired_temporary_entries_stay_out_of_diffs() {
    // An entry expired on its own side is invisible to the diff.
    let live = NetworkSnapshot {
        metadata: meta(100),
        accounts: Vec::new(),
        contracts: vec![ContractState {
            id: "C1".to_string(),
            code: "x".to_string(),
            storage: vec![StorageEntry {
                key: "tmp".to_string(),
                value: "1".to_string(),
                durability: Durability::Temporary,
                live_until: 150,
            }],
        }],
    };
    let expired = NetworkSnapshot {
        metadata: meta(200),
        accounts: Vec::new(),
        contracts: vec![ContractState {
            id: "C1".to_string(),
            code: "x".to_string(),
            storage: vec![StorageEntry {
                key: "tmp".to_string(),
                value: "1".to_string(),
                durability: Durability::Temporary,
                live_until: 150,
            }],
        }],
    };
    let d = ledger_debugger::snapshot::diff_snapshots(&live, &expired);
    assert_eq!(d.contracts.len(), 1);
    assert_eq!(d.contracts[0].kind, DiffKind::Modified);
    assert_eq!(d.contracts[0].storage.len(), 1);
    assert_eq!(d.contracts[0].storage[0].kind, DiffKind::Removed);
}

#[test]
fn formatter_formats_plain_text() {
    assert_eq!(Formatter::format_value("XLM"), "XLM");
    assert_eq!(Formatter::format_storage_entry("counter", "7"), "counter = 7");
    assert_eq!(
        Formatter::format_function_call("transfer", Some("a, b, 10")),
        "transfer(a, b, 10)"
    );
    assert_eq!(Formatter::format_function_call("init", None), "init()");
}

#[test]
fn formatter_formats_budget_with_percentages() {
    assert_eq!(
        Formatter::format_budget(250, 1000, 64, 512),
        "CPU: 250/1000 (25.0%) | Memory: 64/512 bytes (12.5%)"
    );
    assert_eq!(
        Formatter::format_budget(1, 0, 0, 0),
        "CPU: 1/0 (0.0%) | Memory: 0/0 bytes (0.0%)"
    );
}

#[test]
fn formatter_messages_embed_the_text() {
    assert!(Formatter::info("loading snapshot").contains("loading snapshot"));
    assert!(Formatter::success("done").contains("done"));
    assert!(Formatter::warning("careful").contains("careful"));
    assert!(Formatter::error("boom").contains("boom"));
}

#[test]
fn unknown_durability_is_rejected() {
    let text = r#"{"metadata":{"sequence":1,"passphrase":"p","protocol":2,"timestamp":3},
        "accounts":[],
        "contracts":[{"id":"C1","code":"x","storage":[
            {"key":"k","value":"v","durability":"eternal","live_until":0}]}]}"#;
    let e = SnapshotLoader::load(text).unwrap_err();
    assert!(matches!(e, SimulatorError::ParseError { .. }));
}

#[test]
fn duplicate_storage_key_is_rejected() {
    let text = r#"{"metadata":{"sequence":1,"passphrase":"p","protocol":2,"timestamp":3},
        "accounts":[],
        "contracts":[{"id":"C1","code":"x","storage":[
            {"key":"k","value":"1","durability":"persistent","live_until":0},
            {"key":"k","value":"2","durability":"persistent","live_until":0}]}]}"#;
    let e = SnapshotLoader::load(text).unwrap_err();
    assert!(matches!(e, SimulatorError::ValidationError { .. }));
}

#[test]
fn oversized_number_is_a_parse_error() {
    let text = r#"{"metadata":{"sequence":99999999999999999999999,"passphrase":"p",
        "protocol":2,"timestamp":3},"accounts":[],"contracts":[]}"#;
    let e = SnapshotLoader::load(text).unwrap_err();
    assert!(matches!(e, SimulatorError::ParseError { .. }));
}

#[test]
fn empty_snapshot_round_trips() {
    let s = NetworkSnapshot {
        metadata: meta(0),
        accounts: Vec::new(),
        contracts: Vec::new(),
    };
    let text = ledger_debugger::loader::render_snapshot(&s);
    let loaded = SnapshotLoader::load(&text).expect("load should succeed");
    assert_eq!(loaded.snapshot.accounts.len(), 0);
    assert_eq!(loaded.snapshot.contracts.len(), 0);
    assert_eq!(ledger_debugger::loader::render_snapshot(&loaded.snapshot), text);
}

#[test]
fn diff_output_is_sorted_by_id() {
    let many = NetworkSnapshot {
        metadata: meta(1),
        accounts: vec![account("alpha", 1), account("mid", 2), account("zeta", 3)],
        contracts: Vec::new(),
    };
    let empty = NetworkSnapshot {
        metadata: meta(1),
        accounts: Vec::new(),
        contracts: Vec::new(),
    };
    let d = ledger_debugger::snapshot::diff_snapshots(&empty, &many);
    let ids: Vec<&str> = d.accounts.iter().map(|a| a.id.as_str()).collect();
    assert_eq!(ids, vec!["alpha", "mid", "zeta"]);
    assert!(d.accounts.iter().all(|a| a.kind == DiffKind::Added));
}

#[test]
fn format_budget_handles_extremes() {
    assert_eq!(
        Formatter::format_budget(u64::MAX, 1, 0, 1),
        format!(
            "CPU: {}/1 ({}.{}%) | Memory: 0/1 bytes (0.0%)",
            u64::MAX,
            u64::MAX as u128 * 100,
            0
        )
    );
    assert_eq!(
        Formatter::format_budget(1, 3, 2, 3),
        "CPU: 1/3 (33.3%) | Memory: 2/3 bytes (66.6%)"
    );
}

#[test]
fn assemble_returns_valid_parts_exactly() {
    let s = rich_snapshot();
    let rebuilt = ledger_debugger::loader::assemble(s.metadata, s.accounts, s.contracts)
        .expect("valid parts assemble");
    assert_eq!(format!("{:?}", rebuilt), format!("{:?}", rich_snapshot()));
}

#[test]
fn check_deployed_refs_names_the_missing_id() {
    let mut acct = account("acct1", 1);
    acct.deployed = vec!["C9".to_string()];
    let contracts = vec![ContractState {
        id: "C1".to_string(),
        code: "x".to_string(),
        storage: Vec::new(),
    }];
    let e = ledger_debugger::loader::check_deployed_refs(&vec![acct], &contracts).unwrap_err();
    assert_eq!(
        e,
        SimulatorError::ValidationError {
            field: "contracts".to_string(),
            reason: "dangling reference: C9".to_string(),
        }
    );
    let mut resolved = account("acct1", 1);
    resolved.deployed = vec!["C1".to_string()];
    assert!(ledger_debugger::loader::check_deployed_refs(&vec![resolved], &contracts).is_ok());
}

#[test]
fn colored_messages_are_verbatim_or_wrapped() {
    let r = Formatter::info("hello");
    assert!(
        r == "hello"
            || (r.starts_with('\u{1b}') && r.ends_with("\u{1b}[0m") && r.contains("hello"))
    );
    let r2 = Formatter::error("boom");
    assert!(
        r2 == "boom" || (r2.starts_with('\u{1b}') && r2.ends_with("\u{1b}[0m") && r2.contains("boom"))
    );
}
