//! Snapshot loader and saver: a snapshot is persisted as a JSON document
//! with top-level `metadata`, `accounts` and `contracts` fields. The saver
//! emits a canonical form (entries sorted, no extra whitespace); the loader
//! accepts fields in any order, skips unknown fields, and validates what it
//! read — unique ids, unique storage keys, resolvable deployed-contract
//! references — before handing a snapshot out. No partially built snapshot
//! is ever returned.

use vstd::prelude::*;

use crate::sorted::{sorted_by, has_key_by, insert_by, lemma_insert_by_at, lemma_insert_by_sorted};
use crate::state::{
    AccountModel, AccountState, ContractModel, ContractState, Durability, EntryModel,
    LedgerMetadata, NetworkSnapshot, SimulatorError, SnapshotModel, StorageEntry,
    account_views, acct_key, contract_key, contract_views, entry_key, has_contract,
};
use crate::text::{char_ok, id_ok, id_ok_str, lex_lt, str_eq, str_lt, text_ok};

verus! {

// ---------------------------------------------------------------------------
// Decimal digits
// ---------------------------------------------------------------------------

pub open spec fn digit_char(d: int) -> char {
    if d == 0 {
        '0'
    } else if d == 1 {
        '1'
    } else if d == 2 {
        '2'
    } else if d == 3 {
        '3'
    } else if d == 4 {
        '4'
    } else if d == 5 {
        '5'
    } else if d == 6 {
        '6'
    } else if d == 7 {
        '7'
    } else if d == 8 {
        '8'
    } else {
        '9'
    }
}

/// The decimal rendering of a non-negative integer, most significant digit
/// first.
pub open spec fn dec_digits(n: int) -> Seq<char>
    decreases n,
{
    if n < 10 {
        seq![digit_char(n)]
    } else {
        dec_digits(n / 10) + seq![digit_char(n % 10)]
    }
}

/// The numeric value of a digit character, 10 for a non-digit.
pub open spec fn digit_val(c: char) -> int {
    if c == '0' {
        0
    } else if c == '1' {
        1
    } else if c == '2' {
        2
    } else if c == '3' {
        3
    } else if c == '4' {
        4
    } else if c == '5' {
        5
    } else if c == '6' {
        6
    } else if c == '7' {
        7
    } else if c == '8' {
        8
    } else if c == '9' {
        9
    } else {
        10
    }
}

/// The value of a digit string, most significant digit first.
pub open spec fn digits_val(s: Seq<char>) -> int
    decreases s.len(),
{
    if s.len() == 0 {
        0
    } else {
        digits_val(s.drop_last()) * 10 + digit_val(s.last())
    }
}

/// Reading a rendered number back gives the number: the decimal rendering
/// and decimal evaluation are mutually inverse on non-negative integers.
pub proof fn lemma_decimal_round_trip(n: int)
    requires
        n >= 0,
    ensures
        digits_val(dec_digits(n)) == n,
        forall|i: int| 0 <= i < dec_digits(n).len() ==> digit_val(#[trigger] dec_digits(n)[i]) < 10,
        dec_digits(n).len() > 0,
    decreases n,
{
    if n < 10 {
        let s = dec_digits(n);
        assert(s == seq![digit_char(n)]);
        assert(s.drop_last() =~= Seq::<char>::empty());
        assert(s.last() == digit_char(n));
        lemma_digit_val_char(n);
        assert(digits_val(s) == digits_val(s.drop_last()) * 10 + digit_val(s.last()));
    } else {
        lemma_decimal_round_trip(n / 10);
        let s = dec_digits(n);
        assert(s == dec_digits(n / 10) + seq![digit_char(n % 10)]);
        assert(s.drop_last() =~= dec_digits(n / 10));
        assert(s.last() == digit_char(n % 10));
        lemma_digit_val_char(n % 10);
        assert forall|i: int| 0 <= i < s.len() implies digit_val(#[trigger] s[i]) < 10 by {
            if i < dec_digits(n / 10).len() {
                assert(s[i] == dec_digits(n / 10)[i]);
            } else {
                assert(s[i] == digit_char(n % 10));
            }
        }
    }
}

/// The digit characters evaluate to their digits.
proof fn lemma_digit_val_char(d: int)
    requires
        0 <= d < 10,
    ensures
        digit_val(digit_char(d)) == d,
        digit_val(digit_char(d)) < 10,
{
}

pub(crate) fn digit_to_char(d: u64) -> (c: char)
    requires
        d < 10,
    ensures
        c == digit_char(d as int),
{
    match d {
        0 => '0',
        1 => '1',
        2 => '2',
        3 => '3',
        4 => '4',
        5 => '5',
        6 => '6',
        7 => '7',
        8 => '8',
        _ => '9',
    }
}

/// Relies on `String::push`: appends exactly one character.
#[verifier::external_body]
pub(crate) fn push_char(out: &mut String, c: char)
    ensures
        final(out)@ == old(out)@.push(c),
{
    out.push(c);
}

pub(crate) fn append_u64(out: &mut String, n: u64)
    ensures
        final(out)@ == old(out)@ + dec_digits(n as int),
    decreases n,
{
    if n >= 10 {
        append_u64(out, n / 10);
        push_char(out, digit_to_char(n % 10));
        proof {
            assert(final(out)@ =~= old(out)@ + dec_digits(n as int));
        }
    } else {
        push_char(out, digit_to_char(n));
        proof {
            assert(final(out)@ =~= old(out)@ + dec_digits(n as int));
        }
    }
}

// ---------------------------------------------------------------------------
// Rendering
// ---------------------------------------------------------------------------

pub open spec fn render_string(s: Seq<char>) -> Seq<char> {
    seq!['"'] + s + seq!['"']
}

pub open spec fn render_ids(ds: Seq<Seq<char>>) -> Seq<char>
    decreases ds.len(),
{
    if ds.len() == 0 {
        Seq::<char>::empty()
    } else if ds.len() == 1 {
        render_string(ds[0])
    } else {
        render_ids(ds.drop_last()) + seq![','] + render_string(ds.last())
    }
}

pub open spec fn render_entry(e: EntryModel) -> Seq<char> {
    "{\"key\":"@ + render_string(e.key) + ",\"value\":"@ + render_string(e.value)
        + ",\"durability\":"@ + (if e.durability == Durability::Temporary {
        "\"temporary\""@
    } else {
        "\"persistent\""@
    }) + ",\"live_until\":"@ + dec_digits(e.live_until as int) + "}"@
}

pub open spec fn render_entries(s: Seq<EntryModel>) -> Seq<char>
    decreases s.len(),
{
    if s.len() == 0 {
        Seq::<char>::empty()
    } else if s.len() == 1 {
        render_entry(s[0])
    } else {
        render_entries(s.drop_last()) + seq![','] + render_entry(s.last())
    }
}

pub open spec fn render_account(a: AccountModel) -> Seq<char> {
    "{\"id\":"@ + render_string(a.id) + ",\"balance\":"@ + dec_digits(a.balance as int)
        + ",\"seq_num\":"@ + dec_digits(a.seq_num as int) + ",\"signers\":"@ + render_string(
        a.signers,
    ) + ",\"deployed\":["@ + render_ids(a.deployed) + "]}"@
}

pub open spec fn render_accounts(s: Seq<AccountModel>) -> Seq<char>
    decreases s.len(),
{
    if s.len() == 0 {
        Seq::<char>::empty()
    } else if s.len() == 1 {
        render_account(s[0])
    } else {
        render_accounts(s.drop_last()) + seq![','] + render_account(s.last())
    }
}

pub open spec fn render_contract(c: ContractModel) -> Seq<char> {
    "{\"id\":"@ + render_string(c.id) + ",\"code\":"@ + render_string(c.code) + ",\"storage\":["@
        + render_entries(c.storage) + "]}"@
}

pub open spec fn render_contracts(s: Seq<ContractModel>) -> Seq<char>
    decreases s.len(),
{
    if s.len() == 0 {
        Seq::<char>::empty()
    } else if s.len() == 1 {
        render_contract(s[0])
    } else {
        render_contracts(s.drop_last()) + seq![','] + render_contract(s.last())
    }
}

/// The canonical persisted text of a snapshot.
pub open spec fn render_snapshot_model(s: SnapshotModel) -> Seq<char> {
    "{\"metadata\":{\"sequence\":"@ + dec_digits(s.metadata.sequence as int) + ",\"passphrase\":"@
        + render_string(s.metadata.passphrase) + ",\"protocol\":"@ + dec_digits(
        s.metadata.protocol as int,
    ) + ",\"timestamp\":"@ + dec_digits(s.metadata.timestamp as int) + "},\"accounts\":["@
        + render_accounts(s.accounts) + "],\"contracts\":["@ + render_contracts(s.contracts)
        + "]}"@
}

fn append_quoted(out: &mut String, s: &str)
    ensures
        final(out)@ == old(out)@ + render_string(s@),
{
    push_char(out, '"');
    out.append(s);
    push_char(out, '"');
    proof {
        assert(final(out)@ =~= old(out)@ + render_string(s@));
    }
}

fn append_ids(out: &mut String, ds: &Vec<String>)
    ensures
        final(out)@ == old(out)@ + render_ids(crate::sorted::key_views(ds@)),
{
    let ghost base = out@;
    let ghost kv = crate::sorted::key_views(ds@);
    let n = ds.len();
    let mut i: usize = 0;
    proof {
        assert(kv.subrange(0, 0) =~= Seq::<Seq<char>>::empty());
    }
    while i < n
        invariant
            kv == crate::sorted::key_views(ds@),
            n == ds@.len(),
            i <= n,
            out@ == base + render_ids(kv.subrange(0, i as int)),
        decreases n - i,
    {
        if i > 0 {
            push_char(out, ',');
        }
        append_quoted(out, ds[i].as_str());
        proof {
            let pre = kv.subrange(0, i as int);
            let post = kv.subrange(0, i + 1);
            assert(post.drop_last() =~= pre);
            assert(post.last() == kv[i as int]);
            assert(kv[i as int] == ds@[i as int]@);
            if i == 0 {
                assert(render_ids(post) == render_string(kv[0]));
                assert(out@ =~= base + render_ids(post));
            } else {
                assert(render_ids(post) == render_ids(pre) + seq![','] + render_string(
                    kv[i as int],
                ));
                assert(out@ =~= base + render_ids(post));
            }
        }
        i += 1;
    }
    proof {
        assert(kv.subrange(0, n as int) =~= kv);
    }
}

fn append_entry(out: &mut String, e: &StorageEntry)
    ensures
        final(out)@ == old(out)@ + render_entry(e@),
{
    out.append("{\"key\":");
    append_quoted(out, e.key.as_str());
    out.append(",\"value\":");
    append_quoted(out, e.value.as_str());
    out.append(",\"durability\":");
    match e.durability {
        Durability::Temporary => out.append("\"temporary\""),
        Durability::Persistent => out.append("\"persistent\""),
    }
    out.append(",\"live_until\":");
    append_u64(out, e.live_until);
    out.append("}");
    proof {
        assert(final(out)@ =~= old(out)@ + render_entry(e@));
    }
}

fn append_account(out: &mut String, a: &AccountState)
    ensures
        final(out)@ == old(out)@ + render_account(a@),
{
    out.append("{\"id\":");
    append_quoted(out, a.id.as_str());
    out.append(",\"balance\":");
    append_u64(out, a.balance);
    out.append(",\"seq_num\":");
    append_u64(out, a.seq_num);
    out.append(",\"signers\":");
    append_quoted(out, a.signers.as_str());
    out.append(",\"deployed\":[");
    append_ids(out, &a.deployed);
    out.append("]}");
    proof {
        assert(final(out)@ =~= old(out)@ + render_account(a@));
    }
}

fn append_contract(out: &mut String, c: &ContractState)
    ensures
        final(out)@ == old(out)@ + render_contract(c@),
{
    out.append("{\"id\":");
    append_quoted(out, c.id.as_str());
    out.append(",\"code\":");
    append_quoted(out, c.code.as_str());
    out.append(",\"storage\":[");
    let ghost base = out@;
    let ghost ev = crate::state::entry_views(c.storage@);
    let n = c.storage.len();
    let mut i: usize = 0;
    proof {
        assert(ev.subrange(0, 0) =~= Seq::<EntryModel>::empty());
    }
    while i < n
        invariant
            ev == crate::state::entry_views(c.storage@),
            n == c.storage@.len(),
            i <= n,
            out@ == base + render_entries(ev.subrange(0, i as int)),
        decreases n - i,
    {
        if i > 0 {
            push_char(out, ',');
        }
        append_entry(out, &c.storage[i]);
        proof {
            let pre = ev.subrange(0, i as int);
            let post = ev.subrange(0, i + 1);
            assert(post.drop_last() =~= pre);
            assert(post.last() == ev[i as int]);
            assert(ev[i as int] == c.storage@[i as int]@);
            if i == 0 {
                assert(render_entries(post) == render_entry(ev[0]));
            } else {
                assert(render_entries(post) == render_entries(pre) + seq![','] + render_entry(
                    ev[i as int],
                ));
            }
            assert(out@ =~= base + render_entries(post));
        }
        i += 1;
    }
    proof {
        assert(ev.subrange(0, n as int) =~= ev);
    }
    out.append("]}");
    proof {
        assert(final(out)@ =~= old(out)@ + render_contract(c@));
    }
}

/// Serializes a snapshot to its canonical persisted text.
pub fn render_snapshot(s: &NetworkSnapshot) -> (out: String)
    ensures
        out@ == render_snapshot_model(s@),
{
    let mut out = String::new();
    out.append("{\"metadata\":{\"sequence\":");
    append_u64(&mut out, s.metadata.sequence);
    out.append(",\"passphrase\":");
    append_quoted(&mut out, s.metadata.passphrase.as_str());
    out.append(",\"protocol\":");
    append_u64(&mut out, s.metadata.protocol);
    out.append(",\"timestamp\":");
    append_u64(&mut out, s.metadata.timestamp);
    out.append("},\"accounts\":[");
    let ghost base_a = out@;
    let ghost av = account_views(s.accounts@);
    let na = s.accounts.len();
    let mut i: usize = 0;
    proof {
        assert(av.subrange(0, 0) =~= Seq::<AccountModel>::empty());
    }
    while i < na
        invariant
            av == account_views(s.accounts@),
            na == s.accounts@.len(),
            i <= na,
            out@ == base_a + render_accounts(av.subrange(0, i as int)),
        decreases na - i,
    {
        if i > 0 {
            push_char(&mut out, ',');
        }
        append_account(&mut out, &s.accounts[i]);
        proof {
            let pre = av.subrange(0, i as int);
            let post = av.subrange(0, i + 1);
            assert(post.drop_last() =~= pre);
            assert(post.last() == av[i as int]);
            assert(av[i as int] == s.accounts@[i as int]@);
            if i == 0 {
                assert(render_accounts(post) == render_account(av[0]));
            } else {
                assert(render_accounts(post) == render_accounts(pre) + seq![','] + render_account(
                    av[i as int],
                ));
            }
            assert(out@ =~= base_a + render_accounts(post));
        }
        i += 1;
    }
    proof {
        assert(av.subrange(0, na as int) =~= av);
    }
    out.append("],\"contracts\":[");
    let ghost base_c = out@;
    let ghost cv = contract_views(s.contracts@);
    let nc = s.contracts.len();
    let mut j: usize = 0;
    proof {
        assert(cv.subrange(0, 0) =~= Seq::<ContractModel>::empty());
    }
    while j < nc
        invariant
            cv == contract_views(s.contracts@),
            nc == s.contracts@.len(),
            j <= nc,
            out@ == base_c + render_contracts(cv.subrange(0, j as int)),
        decreases nc - j,
    {
        if j > 0 {
            push_char(&mut out, ',');
        }
        append_contract(&mut out, &s.contracts[j]);
        proof {
            let pre = cv.subrange(0, j as int);
            let post = cv.subrange(0, j + 1);
            assert(post.drop_last() =~= pre);
            assert(post.last() == cv[j as int]);
            assert(cv[j as int] == s.contracts@[j as int]@);
            if j == 0 {
                assert(render_contracts(post) == render_contract(cv[0]));
            } else {
                assert(render_contracts(post) == render_contracts(pre) + seq![',']
                    + render_contract(cv[j as int]));
            }
            assert(out@ =~= base_c + render_contracts(post));
        }
        j += 1;
    }
    proof {
        assert(cv.subrange(0, nc as int) =~= cv);
    }
    out.append("]}");
    proof {
        assert(out@ =~= render_snapshot_model(s@));
    }
    out
}

// ---------------------------------------------------------------------------
// Parsing
// ---------------------------------------------------------------------------

fn chars_of(s: &str) -> (v: Vec<char>)
    ensures
        v@ == s@,
{
    let n = s.unicode_len();
    let mut v: Vec<char> = Vec::new();
    let mut i: usize = 0;
    while i < n
        invariant
            n == s@.len(),
            i <= n,
            v@ == s@.subrange(0, i as int),
        decreases n - i,
    {
        v.push(s.get_char(i));
        proof {
            assert(v@ =~= s@.subrange(0, i + 1));
        }
        i += 1;
    }
    proof {
        assert(s@.subrange(0, n as int) =~= s@);
    }
    v
}

fn parse_err(position: usize, reason: &str) -> (e: SimulatorError)
    ensures
        e matches SimulatorError::ParseError { position: p, reason: r } && p == position && r@
            == reason@,
{
    SimulatorError::ParseError { position, reason: reason.to_owned() }
}

fn skip_ws(v: &Vec<char>, i: usize) -> (j: usize)
    requires
        i <= v@.len(),
    ensures
        i <= j <= v@.len(),
{
    let n = v.len();
    let mut j = i;
    while j < n
        invariant
            i <= j <= n,
            n == v@.len(),
        decreases n - j,
    {
        let c = v[j];
        if c == ' ' || c == '\n' || c == '\t' || c == '\r' {
            j += 1;
        } else {
            return j;
        }
    }
    j
}

fn expect_ch(v: &Vec<char>, i: usize, c: char) -> (r: Result<usize, SimulatorError>)
    requires
        i <= v@.len(),
    ensures
        r matches Ok(j) ==> i < j <= v@.len(),
        r matches Err(e) ==> e is ParseError,
{
    let n = v.len();
    let j = skip_ws(v, i);
    if j < n && v[j] == c {
        Ok(j + 1)
    } else {
        Err(parse_err(j, "unexpected character"))
    }
}

fn char_digit(c: char) -> (r: Option<u64>)
    ensures
        match r {
            Some(d) => d < 10,
            None => true,
        },
{
    match c {
        '0' => Some(0),
        '1' => Some(1),
        '2' => Some(2),
        '3' => Some(3),
        '4' => Some(4),
        '5' => Some(5),
        '6' => Some(6),
        '7' => Some(7),
        '8' => Some(8),
        '9' => Some(9),
        _ => None,
    }
}

fn parse_string_at(v: &Vec<char>, i: usize) -> (r: Result<(usize, String), SimulatorError>)
    requires
        i <= v@.len(),
    ensures
        r matches Ok(p) ==> i < p.0 <= v@.len() && text_ok(p.1@),
        r matches Err(e) ==> e is ParseError,
{
    let n = v.len();
    let j = skip_ws(v, i);
    if j >= n || v[j] != '"' {
        return Err(parse_err(j, "expected a string"));
    }
    let mut k = j + 1;
    let mut out = String::new();
    loop
        invariant
            n == v@.len(),
            j + 1 <= k <= n,
            text_ok(out@),
        ensures
            j + 1 <= k < n,
            text_ok(out@),
        decreases n - k,
    {
        if k >= n {
            return Err(parse_err(k, "unterminated string"));
        }
        let c = v[k];
        if c == '"' {
            break;
        }
        if !crate::text::char_ok_at(c) {
            return Err(parse_err(k, "unsupported character in string"));
        }
        let ghost pre = out@;
        push_char(&mut out, c);
        proof {
            assert forall|w: int| 0 <= w < out@.len() implies char_ok(#[trigger] out@[w]) by {
                if w < pre.len() {
                    assert(out@[w] == pre[w]);
                } else {
                    assert(out@[w] == c);
                }
            }
        }
        k += 1;
    }
    Ok((k + 1, out))
}

fn parse_u64_at(v: &Vec<char>, i: usize) -> (r: Result<(usize, u64), SimulatorError>)
    requires
        i <= v@.len(),
    ensures
        r matches Ok(p) ==> i < p.0 <= v@.len(),
        r matches Err(e) ==> e is ParseError,
{
    let n = v.len();
    let j = skip_ws(v, i);
    if j >= n {
        return Err(parse_err(j, "expected a number"));
    }
    let mut acc: u64 = match char_digit(v[j]) {
        Some(d) => d,
        None => {
            return Err(parse_err(j, "expected a number"));
        },
    };
    let mut k = j + 1;
    while k < n
        invariant
            n == v@.len(),
            i <= j < k <= n,
        decreases n - k,
    {
        let d = match char_digit(v[k]) {
            Some(d) => d,
            None => {
                return Ok((k, acc));
            },
        };
        if acc > (u64::MAX - d) / 10 {
            return Err(parse_err(k, "number too large"));
        }
        acc = acc * 10 + d;
        k += 1;
    }
    Ok((k, acc))
}

/// Skips one value of any shape: string, number, object, array, or a bare
/// word such as `true` or `null`.
fn skip_value(v: &Vec<char>, i: usize) -> (r: Result<usize, SimulatorError>)
    requires
        i <= v@.len(),
    ensures
        r matches Ok(j) ==> i < j <= v@.len(),
        r matches Err(e) ==> e is ParseError,
    decreases v@.len() - i,
{
    let n = v.len();
    let j = skip_ws(v, i);
    if j >= n {
        return Err(parse_err(j, "expected a value"));
    }
    let c = v[j];
    if c == '"' {
        let (j2, _s) = match parse_string_at(v, j) {
            Ok(tmp) => tmp,
            Err(e) => {
                return Err(e);
            },
        };
        return Ok(j2);
    }
    if c == '{' || c == '[' {
        let close = if c == '{' {
            '}'
        } else {
            ']'
        };
        let mut k = j + 1;
        loop
            invariant
                n == v@.len(),
                i <= j < k <= n,
            ensures
                j < k <= n,
            decreases n - k,
        {
            let k2 = skip_ws(v, k);
            if k2 >= n {
                return Err(parse_err(k2, "unterminated value"));
            }
            if v[k2] == close {
                k = k2 + 1;
                break;
            }
            if v[k2] == ',' || v[k2] == ':' {
                k = k2 + 1;
                continue;
            }
            k = match skip_value(v, k2) {
            Ok(tmp) => tmp,
            Err(e) => {
                return Err(e);
            },
        };
        }
        return Ok(k);
    }
    // a number or a bare word: take characters up to a delimiter
    let mut k = j;
    while k < n
        invariant
            n == v@.len(),
            j <= k <= n,
        decreases n - k,
    {
        let c2 = v[k];
        if c2 == ',' || c2 == '}' || c2 == ']' || c2 == ' ' || c2 == '\n' || c2 == '\t' || c2
            == '\r' {
            break;
        }
        k += 1;
    }
    if k == j {
        return Err(parse_err(j, "expected a value"));
    }
    Ok(k)
}

/// Parses one `"key":` pair opener; hands back the key.
fn parse_key(v: &Vec<char>, i: usize) -> (r: Result<(usize, String), SimulatorError>)
    requires
        i <= v@.len(),
    ensures
        r matches Ok(p) ==> i < p.0 <= v@.len(),
        r matches Err(e) ==> e is ParseError,
{
    let (j, key) = match parse_string_at(v, i) {
            Ok(tmp) => tmp,
            Err(e) => {
                return Err(e);
            },
        };
    let j2 = match expect_ch(v, j, ':') {
            Ok(tmp) => tmp,
            Err(e) => {
                return Err(e);
            },
        };
    Ok((j2, key))
}

/// Ends one object member: consumes `,` and reports `false`, or `}` and
/// reports `true`.
fn member_end(v: &Vec<char>, i: usize) -> (r: Result<(usize, bool), SimulatorError>)
    requires
        i <= v@.len(),
    ensures
        r matches Ok(p) ==> i < p.0 <= v@.len(),
        r matches Err(e) ==> e is ParseError,
{
    let n = v.len();
    let j = skip_ws(v, i);
    if j < n && v[j] == ',' {
        Ok((j + 1, false))
    } else if j < n && v[j] == '}' {
        Ok((j + 1, true))
    } else {
        Err(parse_err(j, "expected a comma or a closing brace"))
    }
}

fn parse_metadata(v: &Vec<char>, i: usize) -> (r: Result<(usize, LedgerMetadata), SimulatorError>)
    requires
        i <= v@.len(),
    ensures
        r matches Ok(p) ==> i < p.0 <= v@.len() && text_ok(p.1.passphrase@),
        r matches Err(e) ==> e is ParseError,
{
    let n = v.len();
    let mut j = match expect_ch(v, i, '{') {
            Ok(tmp) => tmp,
            Err(e) => {
                return Err(e);
            },
        };
    let mut sequence: Option<u64> = None;
    let mut passphrase: Option<String> = None;
    let mut protocol: Option<u64> = None;
    let mut timestamp: Option<u64> = None;
    loop
        invariant
            n == v@.len(),
            i < j <= n,
            passphrase matches Some(p) ==> text_ok(p@),
        ensures
            i < j <= n,
            passphrase matches Some(p) ==> text_ok(p@),
        decreases n - j,
    {
        let j2 = skip_ws(v, j);
        if j2 < n && v[j2] == '}' {
            j = j2 + 1;
            break;
        }
        let (j3, key) = match parse_key(v, j2) {
            Ok(tmp) => tmp,
            Err(e) => {
                return Err(e);
            },
        };
        if str_eq(key.as_str(), "sequence") {
            let (j4, val) = match parse_u64_at(v, j3) {
            Ok(tmp) => tmp,
            Err(e) => {
                return Err(e);
            },
        };
            sequence = Some(val);
            j = j4;
        } else if str_eq(key.as_str(), "passphrase") {
            let (j4, val) = match parse_string_at(v, j3) {
            Ok(tmp) => tmp,
            Err(e) => {
                return Err(e);
            },
        };
            passphrase = Some(val);
            j = j4;
        } else if str_eq(key.as_str(), "protocol") {
            let (j4, val) = match parse_u64_at(v, j3) {
            Ok(tmp) => tmp,
            Err(e) => {
                return Err(e);
            },
        };
            protocol = Some(val);
            j = j4;
        } else if str_eq(key.as_str(), "timestamp") {
            let (j4, val) = match parse_u64_at(v, j3) {
            Ok(tmp) => tmp,
            Err(e) => {
                return Err(e);
            },
        };
            timestamp = Some(val);
            j = j4;
        } else {
            j = match skip_value(v, j3) {
            Ok(tmp) => tmp,
            Err(e) => {
                return Err(e);
            },
        };
        }
        let (j5, done) = match member_end(v, j) {
            Ok(tmp) => tmp,
            Err(e) => {
                return Err(e);
            },
        };
        j = j5;
        if done {
            break;
        }
    }
    match (sequence, passphrase, protocol, timestamp) {
        (Some(sequence), Some(passphrase), Some(protocol), Some(timestamp)) => Ok(
            (j, LedgerMetadata { sequence, passphrase, protocol, timestamp }),
        ),
        _ => Err(parse_err(j, "missing metadata field")),
    }
}

fn parse_string_array(v: &Vec<char>, i: usize) -> (r: Result<(usize, Vec<String>), SimulatorError>)
    requires
        i <= v@.len(),
    ensures
        r matches Ok(p) ==> i < p.0 <= v@.len(),
        r matches Err(e) ==> e is ParseError,
{
    let n = v.len();
    let mut j = match expect_ch(v, i, '[') {
            Ok(tmp) => tmp,
            Err(e) => {
                return Err(e);
            },
        };
    let mut out: Vec<String> = Vec::new();
    let j2 = skip_ws(v, j);
    if j2 < n && v[j2] == ']' {
        return Ok((j2 + 1, out));
    }
    loop
        invariant
            n == v@.len(),
            i < j <= n,
        ensures
            i < j <= n,
        decreases n - j,
    {
        let (j3, s) = match parse_string_at(v, j) {
            Ok(tmp) => tmp,
            Err(e) => {
                return Err(e);
            },
        };
        out.push(s);
        let j4 = skip_ws(v, j3);
        if j4 < n && v[j4] == ',' {
            j = j4 + 1;
        } else if j4 < n && v[j4] == ']' {
            j = j4 + 1;
            break;
        } else {
            return Err(parse_err(j4, "expected a comma or a closing bracket"));
        }
    }
    Ok((j, out))
}

fn parse_account(v: &Vec<char>, i: usize) -> (r: Result<(usize, AccountState), SimulatorError>)
    requires
        i <= v@.len(),
    ensures
        r matches Ok(p) ==> i < p.0 <= v@.len(),
        r matches Err(e) ==> e is ParseError,
{
    let n = v.len();
    let mut j = match expect_ch(v, i, '{') {
            Ok(tmp) => tmp,
            Err(e) => {
                return Err(e);
            },
        };
    let mut id: Option<String> = None;
    let mut balance: Option<u64> = None;
    let mut seq_num: Option<u64> = None;
    let mut signers: Option<String> = None;
    let mut deployed: Option<Vec<String>> = None;
    loop
        invariant
            n == v@.len(),
            i < j <= n,
        ensures
            i < j <= n,
        decreases n - j,
    {
        let j2 = skip_ws(v, j);
        if j2 < n && v[j2] == '}' {
            j = j2 + 1;
            break;
        }
        let (j3, key) = match parse_key(v, j2) {
            Ok(tmp) => tmp,
            Err(e) => {
                return Err(e);
            },
        };
        if str_eq(key.as_str(), "id") {
            let (j4, val) = match parse_string_at(v, j3) {
            Ok(tmp) => tmp,
            Err(e) => {
                return Err(e);
            },
        };
            id = Some(val);
            j = j4;
        } else if str_eq(key.as_str(), "balance") {
            let (j4, val) = match parse_u64_at(v, j3) {
            Ok(tmp) => tmp,
            Err(e) => {
                return Err(e);
            },
        };
            balance = Some(val);
            j = j4;
        } else if str_eq(key.as_str(), "seq_num") {
            let (j4, val) = match parse_u64_at(v, j3) {
            Ok(tmp) => tmp,
            Err(e) => {
                return Err(e);
            },
        };
            seq_num = Some(val);
            j = j4;
        } else if str_eq(key.as_str(), "signers") {
            let (j4, val) = match parse_string_at(v, j3) {
            Ok(tmp) => tmp,
            Err(e) => {
                return Err(e);
            },
        };
            signers = Some(val);
            j = j4;
        } else if str_eq(key.as_str(), "deployed") {
            let (j4, val) = match parse_string_array(v, j3) {
            Ok(tmp) => tmp,
            Err(e) => {
                return Err(e);
            },
        };
            deployed = Some(val);
            j = j4;
        } else {
            j = match skip_value(v, j3) {
            Ok(tmp) => tmp,
            Err(e) => {
                return Err(e);
            },
        };
        }
        let (j5, done) = match member_end(v, j) {
            Ok(tmp) => tmp,
            Err(e) => {
                return Err(e);
            },
        };
        j = j5;
        if done {
            break;
        }
    }
    match (id, balance, seq_num, signers, deployed) {
        (Some(id), Some(balance), Some(seq_num), Some(signers), Some(deployed)) => Ok(
            (j, AccountState { id, balance, seq_num, signers, deployed }),
        ),
        _ => Err(parse_err(j, "missing account field")),
    }
}

fn parse_entry(v: &Vec<char>, i: usize) -> (r: Result<(usize, StorageEntry), SimulatorError>)
    requires
        i <= v@.len(),
    ensures
        r matches Ok(p) ==> i < p.0 <= v@.len(),
        r matches Err(e) ==> e is ParseError,
{
    let n = v.len();
    let mut j = match expect_ch(v, i, '{') {
            Ok(tmp) => tmp,
            Err(e) => {
                return Err(e);
            },
        };
    let mut key_f: Option<String> = None;
    let mut value: Option<String> = None;
    let mut durability: Option<Durability> = None;
    let mut live_until: Option<u64> = None;
    loop
        invariant
            n == v@.len(),
            i < j <= n,
        ensures
            i < j <= n,
        decreases n - j,
    {
        let j2 = skip_ws(v, j);
        if j2 < n && v[j2] == '}' {
            j = j2 + 1;
            break;
        }
        let (j3, key) = match parse_key(v, j2) {
            Ok(tmp) => tmp,
            Err(e) => {
                return Err(e);
            },
        };
        if str_eq(key.as_str(), "key") {
            let (j4, val) = match parse_string_at(v, j3) {
            Ok(tmp) => tmp,
            Err(e) => {
                return Err(e);
            },
        };
            key_f = Some(val);
            j = j4;
        } else if str_eq(key.as_str(), "value") {
            let (j4, val) = match parse_string_at(v, j3) {
            Ok(tmp) => tmp,
            Err(e) => {
                return Err(e);
            },
        };
            value = Some(val);
            j = j4;
        } else if str_eq(key.as_str(), "durability") {
            let (j4, val) = match parse_string_at(v, j3) {
            Ok(tmp) => tmp,
            Err(e) => {
                return Err(e);
            },
        };
            if str_eq(val.as_str(), "temporary") {
                durability = Some(Durability::Temporary);
            } else if str_eq(val.as_str(), "persistent") {
                durability = Some(Durability::Persistent);
            } else {
                return Err(parse_err(j3, "unknown durability class"));
            }
            j = j4;
        } else if str_eq(key.as_str(), "live_until") {
            let (j4, val) = match parse_u64_at(v, j3) {
            Ok(tmp) => tmp,
            Err(e) => {
                return Err(e);
            },
        };
            live_until = Some(val);
            j = j4;
        } else {
            j = match skip_value(v, j3) {
            Ok(tmp) => tmp,
            Err(e) => {
                return Err(e);
            },
        };
        }
        let (j5, done) = match member_end(v, j) {
            Ok(tmp) => tmp,
            Err(e) => {
                return Err(e);
            },
        };
        j = j5;
        if done {
            break;
        }
    }
    match (key_f, value, durability, live_until) {
        (Some(key), Some(value), Some(durability), Some(live_until)) => Ok(
            (j, StorageEntry { key, value, durability, live_until }),
        ),
        _ => Err(parse_err(j, "missing storage entry field")),
    }
}

fn parse_entry_array(v: &Vec<char>, i: usize) -> (r: Result<
    (usize, Vec<StorageEntry>),
    SimulatorError,
>)
    requires
        i <= v@.len(),
    ensures
        r matches Ok(p) ==> i < p.0 <= v@.len(),
        r matches Err(e) ==> e is ParseError,
{
    let n = v.len();
    let mut j = match expect_ch(v, i, '[') {
            Ok(tmp) => tmp,
            Err(e) => {
                return Err(e);
            },
        };
    let mut out: Vec<StorageEntry> = Vec::new();
    let j2 = skip_ws(v, j);
    if j2 < n && v[j2] == ']' {
        return Ok((j2 + 1, out));
    }
    loop
        invariant
            n == v@.len(),
            i < j <= n,
        ensures
            i < j <= n,
        decreases n - j,
    {
        let (j3, e) = match parse_entry(v, j) {
            Ok(tmp) => tmp,
            Err(e) => {
                return Err(e);
            },
        };
        out.push(e);
        let j4 = skip_ws(v, j3);
        if j4 < n && v[j4] == ',' {
            j = j4 + 1;
        } else if j4 < n && v[j4] == ']' {
            j = j4 + 1;
            break;
        } else {
            return Err(parse_err(j4, "expected a comma or a closing bracket"));
        }
    }
    Ok((j, out))
}

fn parse_contract(v: &Vec<char>, i: usize) -> (r: Result<(usize, ContractState), SimulatorError>)
    requires
        i <= v@.len(),
    ensures
        r matches Ok(p) ==> i < p.0 <= v@.len(),
        r matches Err(e) ==> e is ParseError,
{
    let n = v.len();
    let mut j = match expect_ch(v, i, '{') {
            Ok(tmp) => tmp,
            Err(e) => {
                return Err(e);
            },
        };
    let mut id: Option<String> = None;
    let mut code: Option<String> = None;
    let mut storage: Option<Vec<StorageEntry>> = None;
    loop
        invariant
            n == v@.len(),
            i < j <= n,
        ensures
            i < j <= n,
        decreases n - j,
    {
        let j2 = skip_ws(v, j);
        if j2 < n && v[j2] == '}' {
            j = j2 + 1;
            break;
        }
        let (j3, key) = match parse_key(v, j2) {
            Ok(tmp) => tmp,
            Err(e) => {
                return Err(e);
            },
        };
        if str_eq(key.as_str(), "id") {
            let (j4, val) = match parse_string_at(v, j3) {
            Ok(tmp) => tmp,
            Err(e) => {
                return Err(e);
            },
        };
            id = Some(val);
            j = j4;
        } else if str_eq(key.as_str(), "code") {
            let (j4, val) = match parse_string_at(v, j3) {
            Ok(tmp) => tmp,
            Err(e) => {
                return Err(e);
            },
        };
            code = Some(val);
            j = j4;
        } else if str_eq(key.as_str(), "storage") {
            let (j4, val) = match parse_entry_array(v, j3) {
            Ok(tmp) => tmp,
            Err(e) => {
                return Err(e);
            },
        };
            storage = Some(val);
            j = j4;
        } else {
            j = match skip_value(v, j3) {
            Ok(tmp) => tmp,
            Err(e) => {
                return Err(e);
            },
        };
        }
        let (j5, done) = match member_end(v, j) {
            Ok(tmp) => tmp,
            Err(e) => {
                return Err(e);
            },
        };
        j = j5;
        if done {
            break;
        }
    }
    match (id, code, storage) {
        (Some(id), Some(code), Some(storage)) => Ok((j, ContractState { id, code, storage })),
        _ => Err(parse_err(j, "missing contract field")),
    }
}

fn parse_account_array(v: &Vec<char>, i: usize) -> (r: Result<
    (usize, Vec<AccountState>),
    SimulatorError,
>)
    requires
        i <= v@.len(),
    ensures
        r matches Ok(p) ==> i < p.0 <= v@.len(),
        r matches Err(e) ==> e is ParseError,
{
    let n = v.len();
    let mut j = match expect_ch(v, i, '[') {
            Ok(tmp) => tmp,
            Err(e) => {
                return Err(e);
            },
        };
    let mut out: Vec<AccountState> = Vec::new();
    let j2 = skip_ws(v, j);
    if j2 < n && v[j2] == ']' {
        return Ok((j2 + 1, out));
    }
    loop
        invariant
            n == v@.len(),
            i < j <= n,
        ensures
            i < j <= n,
        decreases n - j,
    {
        let (j3, a) = match parse_account(v, j) {
            Ok(tmp) => tmp,
            Err(e) => {
                return Err(e);
            },
        };
        out.push(a);
        let j4 = skip_ws(v, j3);
        if j4 < n && v[j4] == ',' {
            j = j4 + 1;
        } else if j4 < n && v[j4] == ']' {
            j = j4 + 1;
            break;
        } else {
            return Err(parse_err(j4, "expected a comma or a closing bracket"));
        }
    }
    Ok((j, out))
}

// ---------------------------------------------------------------------------
// Assembly and validation
// ---------------------------------------------------------------------------

/// Whether an account id is already present.
fn account_vec_has(v: &Vec<AccountState>, id: &str) -> (r: bool)
    ensures
        r == has_key_by(account_views(v@), id@, acct_key()),
{
    let n = v.len();
    let mut i: usize = 0;
    while i < n
        invariant
            n == v@.len(),
            i <= n,
            forall|w: int| 0 <= w < i ==> (#[trigger] account_views(v@)[w]).id != id@,
        decreases n - i,
    {
        proof {
            assert(account_views(v@)[i as int] == v@[i as int]@);
        }
        if str_eq(v[i].id.as_str(), id) {
            proof {
                assert(acct_key()(account_views(v@)[i as int]) == id@);
            }
            return true;
        }
        i += 1;
    }
    proof {
        if has_key_by(account_views(v@), id@, acct_key()) {
            let w = choose|w: int|
                0 <= w < account_views(v@).len() && acct_key()(
                    #[trigger] account_views(v@)[w],
                ) == id@;
        }
    }
    false
}

/// Whether a contract id is already present.
fn contract_vec_has(v: &Vec<ContractState>, id: &str) -> (r: bool)
    ensures
        r == has_key_by(contract_views(v@), id@, contract_key()),
{
    let n = v.len();
    let mut i: usize = 0;
    while i < n
        invariant
            n == v@.len(),
            i <= n,
            forall|w: int| 0 <= w < i ==> (#[trigger] contract_views(v@)[w]).id != id@,
        decreases n - i,
    {
        proof {
            assert(contract_views(v@)[i as int] == v@[i as int]@);
        }
        if str_eq(v[i].id.as_str(), id) {
            proof {
                assert(contract_key()(contract_views(v@)[i as int]) == id@);
            }
            return true;
        }
        i += 1;
    }
    proof {
        if has_key_by(contract_views(v@), id@, contract_key()) {
            let w = choose|w: int|
                0 <= w < contract_views(v@).len() && contract_key()(
                    #[trigger] contract_views(v@)[w],
                ) == id@;
        }
    }
    false
}

/// Inserts an account into an id-sorted account vector.
fn insert_account(v: &Vec<AccountState>, a: AccountState) -> (r: Vec<AccountState>)
    requires
        sorted_by(account_views(v@), acct_key()),
        a@.wf(),
    ensures
        account_views(r@) == insert_by(account_views(v@), a@, acct_key()),
        sorted_by(account_views(r@), acct_key()),
        forall|w: int|
            0 <= w < account_views(r@).len() ==> (#[trigger] account_views(r@)[w]).wf() || (
            exists|u: int|
                0 <= u < account_views(v@).len() && account_views(r@)[w] == account_views(
                    v@,
                )[u]),
{
    let ghost e = a@;
    let ghost olds = account_views(v@);
    let m = v.len();
    let mut out: Vec<AccountState> = Vec::new();
    let mut j: usize = 0;
    loop
        invariant
            e == a@,
            e.wf(),
            olds == account_views(v@),
            sorted_by(olds, acct_key()),
            m == v@.len(),
            j <= m,
            out@.len() == j,
            forall|k: int| 0 <= k < j ==> out@[k]@ == olds[k],
            forall|k: int| 0 <= k < j ==> lex_lt((#[trigger] olds[k]).id, e.id),
        ensures
            e == a@,
            olds == account_views(v@),
            m == v@.len(),
            j <= m,
            out@.len() == j,
            forall|k: int| 0 <= k < j ==> out@[k]@ == olds[k],
            forall|k: int| 0 <= k < j ==> lex_lt((#[trigger] olds[k]).id, e.id),
            j < m ==> !lex_lt(olds[j as int].id, e.id),
        decreases m - j,
    {
        if j >= m {
            break;
        }
        proof {
            assert(olds[j as int] == v@[j as int]@);
        }
        if !str_lt(v[j].id.as_str(), a.id.as_str()) {
            break;
        }
        out.push(v[j].clone());
        j += 1;
    }
    let ghost p = j as int;
    let replaced = j < m && str_eq(v[j].id.as_str(), a.id.as_str());
    proof {
        if j < m {
            assert(olds[j as int] == v@[j as int]@);
        }
    }
    out.push(a);
    let mut q: usize = if replaced {
        j + 1
    } else {
        j
    };
    let ghost q0 = q as int;
    while q < m
        invariant
            olds == account_views(v@),
            m == v@.len(),
            0 <= p <= q0 <= q <= m,
            out@.len() == p + 1 + (q - q0),
            forall|k: int| 0 <= k < p ==> out@[k]@ == olds[k],
            out@[p]@ == e,
            forall|k: int|
                p < k < out@.len() ==> #[trigger] out@[k]@ == olds[q0 + (k - p - 1)],
        decreases m - q,
    {
        proof {
            assert(olds[q as int] == v@[q as int]@);
        }
        let item = v[q].clone();
        proof {
            assert(item@ == olds[q as int]);
        }
        let ghost pre = out@;
        out.push(item);
        proof {
            let x = out@.last();
            assert(out@ == pre.push(x));
            assert(x@ == olds[q as int]);
            assert(pre.push(x)[p] == pre[p]);
            assert forall|k: int| 0 <= k < pre.len() implies #[trigger] out@[k] == pre[k] by {
                assert(pre.push(x)[k] == pre[k]);
            }
        }
        q += 1;
    }
    proof {
        lemma_insert_by_at(olds, e, acct_key(), p);
        lemma_insert_by_sorted(olds, e, acct_key());
        assert(account_views(out@) =~= insert_by(olds, e, acct_key()));
        assert forall|w: int| 0 <= w < account_views(out@).len() implies (
        #[trigger] account_views(out@)[w]).wf() || (exists|u: int|
            0 <= u < olds.len() && account_views(out@)[w] == olds[u]) by {
            let ins = insert_by(olds, e, acct_key());
            if w < p {
                assert(ins[w] == olds[w]);
            } else if w == p {
                assert(ins[w] == e);
            } else {
                assert(ins[w] == olds[q0 + (w - p - 1)]);
            }
        }
    }
    out
}

/// Inserts a contract into an id-sorted contract vector.
fn insert_contract(v: &Vec<ContractState>, c: ContractState) -> (r: Vec<ContractState>)
    requires
        sorted_by(contract_views(v@), contract_key()),
        c@.wf(),
    ensures
        contract_views(r@) == insert_by(contract_views(v@), c@, contract_key()),
        sorted_by(contract_views(r@), contract_key()),
        forall|w: int|
            0 <= w < contract_views(r@).len() ==> (#[trigger] contract_views(r@)[w]).wf() || (
            exists|u: int|
                0 <= u < contract_views(v@).len() && contract_views(r@)[w] == contract_views(
                    v@,
                )[u]),
{
    let ghost e = c@;
    let ghost olds = contract_views(v@);
    let m = v.len();
    let mut out: Vec<ContractState> = Vec::new();
    let mut j: usize = 0;
    loop
        invariant
            e == c@,
            e.wf(),
            olds == contract_views(v@),
            sorted_by(olds, contract_key()),
            m == v@.len(),
            j <= m,
            out@.len() == j,
            forall|k: int| 0 <= k < j ==> out@[k]@ == olds[k],
            forall|k: int| 0 <= k < j ==> lex_lt((#[trigger] olds[k]).id, e.id),
        ensures
            e == c@,
            olds == contract_views(v@),
            m == v@.len(),
            j <= m,
            out@.len() == j,
            forall|k: int| 0 <= k < j ==> out@[k]@ == olds[k],
            forall|k: int| 0 <= k < j ==> lex_lt((#[trigger] olds[k]).id, e.id),
            j < m ==> !lex_lt(olds[j as int].id, e.id),
        decreases m - j,
    {
        if j >= m {
            break;
        }
        proof {
            assert(olds[j as int] == v@[j as int]@);
        }
        if !str_lt(v[j].id.as_str(), c.id.as_str()) {
            break;
        }
        out.push(v[j].clone());
        j += 1;
    }
    let ghost p = j as int;
    let replaced = j < m && str_eq(v[j].id.as_str(), c.id.as_str());
    proof {
        if j < m {
            assert(olds[j as int] == v@[j as int]@);
        }
    }
    out.push(c);
    let mut q: usize = if replaced {
        j + 1
    } else {
        j
    };
    let ghost q0 = q as int;
    while q < m
        invariant
            olds == contract_views(v@),
            m == v@.len(),
            0 <= p <= q0 <= q <= m,
            out@.len() == p + 1 + (q - q0),
            forall|k: int| 0 <= k < p ==> out@[k]@ == olds[k],
            out@[p]@ == e,
            forall|k: int|
                p < k < out@.len() ==> #[trigger] out@[k]@ == olds[q0 + (k - p - 1)],
        decreases m - q,
    {
        proof {
            assert(olds[q as int] == v@[q as int]@);
        }
        let item = v[q].clone();
        proof {
            assert(item@ == olds[q as int]);
        }
        let ghost pre = out@;
        out.push(item);
        proof {
            let x = out@.last();
            assert(out@ == pre.push(x));
            assert(x@ == olds[q as int]);
            assert(pre.push(x)[p] == pre[p]);
            assert forall|k: int| 0 <= k < pre.len() implies #[trigger] out@[k] == pre[k] by {
                assert(pre.push(x)[k] == pre[k]);
            }
        }
        q += 1;
    }
    proof {
        lemma_insert_by_at(olds, e, contract_key(), p);
        lemma_insert_by_sorted(olds, e, contract_key());
        assert(contract_views(out@) =~= insert_by(olds, e, contract_key()));
        assert forall|w: int| 0 <= w < contract_views(out@).len() implies (
        #[trigger] contract_views(out@)[w]).wf() || (exists|u: int|
            0 <= u < olds.len() && contract_views(out@)[w] == olds[u]) by {
            let ins = insert_by(olds, e, contract_key());
            if w < p {
                assert(ins[w] == olds[w]);
            } else if w == p {
                assert(ins[w] == e);
            } else {
                assert(ins[w] == olds[q0 + (w - p - 1)]);
            }
        }
    }
    out
}

fn parse_contract_array(v: &Vec<char>, i: usize) -> (r: Result<
    (usize, Vec<ContractState>),
    SimulatorError,
>)
    requires
        i <= v@.len(),
    ensures
        r matches Ok(p) ==> i < p.0 <= v@.len(),
        r matches Err(e) ==> e is ParseError,
{
    let n = v.len();
    let mut j = match expect_ch(v, i, '[') {
            Ok(tmp) => tmp,
            Err(e) => {
                return Err(e);
            },
        };
    let mut out: Vec<ContractState> = Vec::new();
    let j2 = skip_ws(v, j);
    if j2 < n && v[j2] == ']' {
        return Ok((j2 + 1, out));
    }
    loop
        invariant
            n == v@.len(),
            i < j <= n,
        ensures
            i < j <= n,
        decreases n - j,
    {
        let (j3, c) = match parse_contract(v, j) {
            Ok(tmp) => tmp,
            Err(e) => {
                return Err(e);
            },
        };
        out.push(c);
        let j4 = skip_ws(v, j3);
        if j4 < n && v[j4] == ',' {
            j = j4 + 1;
        } else if j4 < n && v[j4] == ']' {
            j = j4 + 1;
            break;
        } else {
            return Err(parse_err(j4, "expected a comma or a closing bracket"));
        }
    }
    Ok((j, out))
}

fn validation_err(field: &str, reason: String) -> (e: SimulatorError)
    ensures
        e matches SimulatorError::ValidationError { field: f, reason: r } && f@ == field@ && r@
            == reason@,
{
    SimulatorError::ValidationError { field: field.to_owned(), reason }
}

fn dangling_reason(id: &str) -> (r: String)
    ensures
        r@ == "dangling reference: "@ + id@,
{
    let mut r = "dangling reference: ".to_owned();
    r.append(id);
    r
}

/// Membership by id and membership by key function coincide for contracts.
proof fn lemma_contract_membership(s: Seq<ContractModel>, id: Seq<char>)
    ensures
        has_contract(s, id) == has_key_by(s, id, contract_key()),
{
    if has_contract(s, id) {
        let w = choose|w: int| 0 <= w < s.len() && (#[trigger] s[w]).id == id;
        assert(contract_key()(s[w]) == id);
        assert(has_key_by(s, id, contract_key()));
    }
    if has_key_by(s, id, contract_key()) {
        let w = choose|w: int| 0 <= w < s.len() && contract_key()(#[trigger] s[w]) == id;
        assert(s[w].id == id);
    }
}

/// Some deployed-contract reference of some account fails to resolve.
pub open spec fn has_dangling_ref(
    accounts: Seq<AccountModel>,
    contracts: Seq<ContractModel>,
) -> bool {
    exists|x: int, y: int|
        0 <= x < accounts.len() && 0 <= y < accounts[x].deployed.len() && !has_contract(
            contracts,
            #[trigger] accounts[x].deployed[y],
        )
}

/// The exact error owed for a dangling reference: `ValidationError` with
/// field `contracts` and a reason naming an actually-dangling referenced id.
pub open spec fn dangling_error(
    accounts: Seq<AccountModel>,
    contracts: Seq<ContractModel>,
    e: SimulatorError,
) -> bool {
    exists|x: int, y: int|
        0 <= x < accounts.len() && 0 <= y < accounts[x].deployed.len() && !has_contract(
            contracts,
            #[trigger] accounts[x].deployed[y],
        ) && (e matches SimulatorError::ValidationError { field, reason } && field@ == "contracts"@
            && reason@ == "dangling reference: "@ + accounts[x].deployed[y])
}

/// Checks every deployed-contract reference of every account against the
/// declared contracts: succeeds exactly when all of them resolve, and
/// otherwise fails with `ValidationError` in field `contracts` whose reason
/// names a dangling referenced id.
pub fn check_deployed_refs(accounts: &Vec<AccountState>, contracts: &Vec<ContractState>) -> (r:
    Result<(), SimulatorError>)
    ensures
        r is Ok <==> !has_dangling_ref(account_views(accounts@), contract_views(contracts@)),
        r matches Err(e) ==> e is ValidationError && dangling_error(
            account_views(accounts@),
            contract_views(contracts@),
            e,
        ),
{
    let na2 = accounts.len();
    let mut xi: usize = 0;
    while xi < na2
        invariant
            na2 == accounts@.len(),
            xi <= na2,
            forall|x: int, y: int|
                0 <= x < xi && 0 <= y < account_views(accounts@)[x].deployed.len()
                    ==> has_contract(
                    contract_views(contracts@),
                    #[trigger] account_views(accounts@)[x].deployed[y],
                ),
        decreases na2 - xi,
    {
        let nd2 = accounts[xi].deployed.len();
        let mut yi: usize = 0;
        while yi < nd2
            invariant
                na2 == accounts@.len(),
                xi < na2,
                nd2 == account_views(accounts@)[xi as int].deployed.len(),
                nd2 == accounts@[xi as int].deployed@.len(),
                yi <= nd2,
                forall|y: int|
                    0 <= y < yi ==> has_contract(
                        contract_views(contracts@),
                        #[trigger] account_views(accounts@)[xi as int].deployed[y],
                    ),
            decreases nd2 - yi,
        {
            proof {
                assert(account_views(accounts@)[xi as int] == accounts@[xi as int]@);
                assert(account_views(accounts@)[xi as int].deployed[yi as int] == accounts@[
                    xi as int].deployed@[yi as int]@);
            }
            let ghost rid = account_views(accounts@)[xi as int].deployed[yi as int];
            proof {
                lemma_contract_membership(contract_views(contracts@), rid);
            }
            if !contract_vec_has(contracts, accounts[xi].deployed[yi].as_str()) {
                let e = validation_err(
                    "contracts",
                    dangling_reason(accounts[xi].deployed[yi].as_str()),
                );
                proof {
                    assert(dangling_error(
                        account_views(accounts@),
                        contract_views(contracts@),
                        e,
                    )) by {
                        assert(0 <= xi < account_views(accounts@).len() && 0 <= yi
                            < account_views(accounts@)[xi as int].deployed.len() && !has_contract(
                            contract_views(contracts@),
                            account_views(accounts@)[xi as int].deployed[yi as int],
                        ) && (e matches SimulatorError::ValidationError { field, reason }
                            && field@ == "contracts"@ && reason@ == "dangling reference: "@
                            + account_views(accounts@)[xi as int].deployed[yi as int]));
                    }
                    assert(has_dangling_ref(account_views(accounts@), contract_views(contracts@)));
                }
                return Err(e);
            }
            yi += 1;
        }
        xi += 1;
    }
    proof {
        assert(!has_dangling_ref(account_views(accounts@), contract_views(contracts@))) by {
            if has_dangling_ref(account_views(accounts@), contract_views(contracts@)) {
                let (x, y) = choose|x: int, y: int|
                    0 <= x < account_views(accounts@).len() && 0 <= y < account_views(
                        accounts@,
                    )[x].deployed.len() && !has_contract(
                        contract_views(contracts@),
                        #[trigger] account_views(accounts@)[x].deployed[y],
                    );
            }
        }
    }
    Ok(())
}

/// Builds a validated snapshot out of parsed parts: ids well-formed and
/// unique, storage keys unique within a contract, every deployed-contract
/// reference resolvable. No partial snapshot is returned. On parts that
/// already form a well-formed snapshot model, the result is exactly that
/// model.
pub fn assemble(
    metadata: LedgerMetadata,
    raw_accounts: Vec<AccountState>,
    raw_contracts: Vec<ContractState>,
) -> (r: Result<NetworkSnapshot, SimulatorError>)
    ensures
        r matches Ok(s) ==> s.wf(),
        r matches Err(e) ==> e is ValidationError,
        (SnapshotModel {
            metadata: metadata@,
            accounts: account_views(raw_accounts@),
            contracts: contract_views(raw_contracts@),
        }).wf() ==> (r matches Ok(s) && s@ == (SnapshotModel {
            metadata: metadata@,
            accounts: account_views(raw_accounts@),
            contracts: contract_views(raw_contracts@),
        })),
{
    let ghost model = SnapshotModel {
        metadata: metadata@,
        accounts: account_views(raw_accounts@),
        contracts: contract_views(raw_contracts@),
    };
    if !crate::text::text_ok_str(metadata.passphrase.as_str()) {
        return Err(validation_err("metadata", "passphrase is not representable".to_owned()));
    }
    let mut contracts: Vec<ContractState> = Vec::new();
    proof {
        assert(contract_views(contracts@) =~= Seq::<ContractModel>::empty());
        if model.wf() {
            assert(contract_views(contracts@) =~= model.contracts.subrange(0, 0));
        }
    }
    let nc = raw_contracts.len();
    let mut ci: usize = 0;
    while ci < nc
        invariant
            model == (SnapshotModel {
                metadata: metadata@,
                accounts: account_views(raw_accounts@),
                contracts: contract_views(raw_contracts@),
            }),
            nc == raw_contracts@.len(),
            ci <= nc,
            sorted_by(contract_views(contracts@), contract_key()),
            forall|w: int|
                0 <= w < contract_views(contracts@).len() ==> (#[trigger] contract_views(
                    contracts@,
                )[w]).wf(),
            model.wf() ==> contract_views(contracts@) == model.contracts.subrange(0, ci as int),
        decreases nc - ci,
    {
        proof {
            assert(contract_views(raw_contracts@)[ci as int] == raw_contracts@[ci as int]@);
        }
        let ghost rcm = model.contracts[ci as int];
        if !id_ok_str(raw_contracts[ci].id.as_str()) {
            proof {
                if model.wf() {
                    assert(rcm.wf());
                }
            }
            return Err(validation_err("contracts", "invalid contract id".to_owned()));
        }
        if !crate::text::text_ok_str(raw_contracts[ci].code.as_str()) {
            proof {
                if model.wf() {
                    assert(rcm.wf());
                }
            }
            return Err(validation_err("contracts", "invalid contract code".to_owned()));
        }
        if contract_vec_has(&contracts, raw_contracts[ci].id.as_str()) {
            proof {
                if model.wf() {
                    let u = choose|u: int|
                        0 <= u < contract_views(contracts@).len() && contract_key()(
                            #[trigger] contract_views(contracts@)[u],
                        ) == rcm.id;
                    assert(model.contracts[u].id == rcm.id);
                    assert(lex_lt(model.contracts[u].id, model.contracts[ci as int].id));
                    crate::text::lemma_lex_lt_irreflexive(rcm.id);
                }
            }
            return Err(validation_err("contracts", "duplicate contract id".to_owned()));
        }
        let mut c = ContractState {
            id: raw_contracts[ci].id.clone(),
            code: raw_contracts[ci].code.clone(),
            storage: Vec::new(),
        };
        proof {
            assert(crate::state::entry_views(c.storage@) =~= Seq::<EntryModel>::empty());
            assert(c@.wf());
            if model.wf() {
                assert(c@.id == rcm.id && c@.code == rcm.code);
                assert(c@.storage =~= rcm.storage.subrange(0, 0));
            }
        }
        let ns = raw_contracts[ci].storage.len();
        let mut si: usize = 0;
        while si < ns
            invariant
                model == (SnapshotModel {
                    metadata: metadata@,
                    accounts: account_views(raw_accounts@),
                    contracts: contract_views(raw_contracts@),
                }),
                nc == raw_contracts@.len(),
                ci < nc,
                rcm == model.contracts[ci as int],
                ns == raw_contracts@[ci as int].storage@.len(),
                si <= ns,
                c@.wf(),
                model.wf() ==> (c@.id == rcm.id && c@.code == rcm.code && c@.storage
                    == rcm.storage.subrange(0, si as int)),
            decreases ns - si,
        {
            proof {
                assert(contract_views(raw_contracts@)[ci as int] == raw_contracts@[ci as int]@);
                assert(rcm.storage == crate::state::entry_views(
                    raw_contracts@[ci as int].storage@,
                ));
                assert(rcm.storage[si as int] == raw_contracts@[ci as int].storage@[si as int]@);
            }
            if !id_ok_str(raw_contracts[ci].storage[si].key.as_str()) {
                proof {
                    if model.wf() {
                        assert(rcm.storage[si as int].wf());
                    }
                }
                return Err(validation_err("storage", "invalid storage key".to_owned()));
            }
            if !crate::text::text_ok_str(raw_contracts[ci].storage[si].value.as_str()) {
                proof {
                    if model.wf() {
                        assert(rcm.storage[si as int].wf());
                    }
                }
                return Err(validation_err("storage", "invalid storage value".to_owned()));
            }
            let entry = raw_contracts[ci].storage[si].clone();
            proof {
                assert(entry@.wf());
            }
            let ghost com = c@;
            let ghost ev = entry@;
            let old_len = c.storage.len();
            let c2 = c.with_write(entry);
            proof {
                lemma_insert_by_sorted(com.storage, ev, entry_key());
                if model.wf() {
                    assert(ev == rcm.storage[si as int]);
                    assert forall|w: int| 0 <= w < com.storage.len() implies lex_lt(
                        entry_key()(#[trigger] com.storage[w]),
                        entry_key()(ev),
                    ) by {
                        assert(com.storage[w] == rcm.storage[w]);
                        assert(lex_lt(rcm.storage[w].key, rcm.storage[si as int].key));
                    }
                    assert(!has_key_by(com.storage, entry_key()(ev), entry_key())) by {
                        if has_key_by(com.storage, entry_key()(ev), entry_key()) {
                            let u = choose|u: int|
                                0 <= u < com.storage.len() && entry_key()(
                                    #[trigger] com.storage[u],
                                ) == entry_key()(ev);
                            crate::text::lemma_lex_lt_irreflexive(ev.key);
                        }
                    }
                    lemma_insert_by_at(com.storage, ev, entry_key(), com.storage.len() as int);
                    assert(c2@.storage =~= rcm.storage.subrange(0, si + 1));
                }
            }
            if c2.storage.len() == old_len {
                proof {
                    if model.wf() {
                        assert(c2@.storage.len() == si + 1);
                    }
                }
                return Err(validation_err("storage", "duplicate storage key".to_owned()));
            }
            c = c2;
            si += 1;
        }
        proof {
            if model.wf() {
                assert(c@.storage == rcm.storage.subrange(0, ns as int));
                assert(rcm.storage.subrange(0, ns as int) =~= rcm.storage);
                assert(c@ == rcm);
            }
        }
        let ghost pre_cv = contract_views(contracts@);
        let ghost cm = c@;
        contracts = insert_contract(&contracts, c);
        proof {
            assert forall|w: int| 0 <= w < contract_views(contracts@).len() implies (
            #[trigger] contract_views(contracts@)[w]).wf() by {
                if !contract_views(contracts@)[w].wf() {
                    let u = choose|u: int|
                        0 <= u < pre_cv.len() && contract_views(contracts@)[w] == pre_cv[u];
                    assert(pre_cv[u].wf());
                }
            }
            if model.wf() {
                assert forall|w: int| 0 <= w < pre_cv.len() implies lex_lt(
                    contract_key()(#[trigger] pre_cv[w]),
                    contract_key()(cm),
                ) by {
                    assert(pre_cv[w] == model.contracts[w]);
                    assert(lex_lt(model.contracts[w].id, model.contracts[ci as int].id));
                }
                lemma_insert_by_at(pre_cv, cm, contract_key(), pre_cv.len() as int);
                assert(contract_views(contracts@) =~= model.contracts.subrange(0, ci + 1));
            }
        }
        ci += 1;
    }
    proof {
        if model.wf() {
            assert(model.contracts.subrange(0, nc as int) =~= model.contracts);
        }
    }
    let mut accounts: Vec<AccountState> = Vec::new();
    proof {
        assert(account_views(accounts@) =~= Seq::<AccountModel>::empty());
        if model.wf() {
            assert(account_views(accounts@) =~= model.accounts.subrange(0, 0));
        }
    }
    let na = raw_accounts.len();
    let mut ai: usize = 0;
    while ai < na
        invariant
            model == (SnapshotModel {
                metadata: metadata@,
                accounts: account_views(raw_accounts@),
                contracts: contract_views(raw_contracts@),
            }),
            na == raw_accounts@.len(),
            ai <= na,
            sorted_by(account_views(accounts@), acct_key()),
            forall|w: int|
                0 <= w < account_views(accounts@).len() ==> (#[trigger] account_views(
                    accounts@,
                )[w]).wf(),
            model.wf() ==> account_views(accounts@) == model.accounts.subrange(0, ai as int),
        decreases na - ai,
    {
        proof {
            assert(account_views(raw_accounts@)[ai as int] == raw_accounts@[ai as int]@);
        }
        let ghost ram = model.accounts[ai as int];
        if !id_ok_str(raw_accounts[ai].id.as_str()) {
            proof {
                if model.wf() {
                    assert(ram.wf());
                }
            }
            return Err(validation_err("accounts", "invalid account id".to_owned()));
        }
        if !crate::text::text_ok_str(raw_accounts[ai].signers.as_str()) {
            proof {
                if model.wf() {
                    assert(ram.wf());
                }
            }
            return Err(validation_err("accounts", "invalid signer data".to_owned()));
        }
        let nd = raw_accounts[ai].deployed.len();
        let mut di: usize = 0;
        while di < nd
            invariant
                model == (SnapshotModel {
                    metadata: metadata@,
                    accounts: account_views(raw_accounts@),
                    contracts: contract_views(raw_contracts@),
                }),
                na == raw_accounts@.len(),
                ai < na,
                ram == model.accounts[ai as int],
                nd == raw_accounts@[ai as int].deployed@.len(),
                di <= nd,
                forall|y: int|
                    0 <= y < di ==> id_ok(#[trigger] raw_accounts@[ai as int].deployed@[y]@),
            decreases nd - di,
        {
            proof {
                assert(account_views(raw_accounts@)[ai as int] == raw_accounts@[ai as int]@);
                assert(ram.deployed == crate::sorted::key_views(
                    raw_accounts@[ai as int].deployed@,
                ));
                assert(ram.deployed[di as int] == raw_accounts@[ai as int].deployed@[di as int]@);
            }
            if !id_ok_str(raw_accounts[ai].deployed[di].as_str()) {
                proof {
                    if model.wf() {
                        assert(ram.wf());
                        assert(id_ok(ram.deployed[di as int]));
                    }
                }
                return Err(
                    validation_err("accounts", "invalid deployed contract id".to_owned()),
                );
            }
            di += 1;
        }
        if account_vec_has(&accounts, raw_accounts[ai].id.as_str()) {
            proof {
                if model.wf() {
                    let u = choose|u: int|
                        0 <= u < account_views(accounts@).len() && acct_key()(
                            #[trigger] account_views(accounts@)[u],
                        ) == ram.id;
                    assert(model.accounts[u].id == ram.id);
                    assert(lex_lt(model.accounts[u].id, model.accounts[ai as int].id));
                    crate::text::lemma_lex_lt_irreflexive(ram.id);
                }
            }
            return Err(validation_err("accounts", "duplicate account id".to_owned()));
        }
        let a = raw_accounts[ai].clone();
        proof {
            assert(a@.wf()) by {
                assert forall|y: int| 0 <= y < a@.deployed.len() implies id_ok(
                    #[trigger] a@.deployed[y],
                ) by {
                    assert(a@.deployed[y] == raw_accounts@[ai as int].deployed@[y]@);
                }
            }
        }
        let ghost pre_av = account_views(accounts@);
        let ghost am = a@;
        accounts = insert_account(&accounts, a);
        proof {
            assert forall|w: int| 0 <= w < account_views(accounts@).len() implies (
            #[trigger] account_views(accounts@)[w]).wf() by {
                if !account_views(accounts@)[w].wf() {
                    let u = choose|u: int|
                        0 <= u < pre_av.len() && account_views(accounts@)[w] == pre_av[u];
                    assert(pre_av[u].wf());
                }
            }
            if model.wf() {
                assert(am == ram);
                assert forall|w: int| 0 <= w < pre_av.len() implies lex_lt(
                    acct_key()(#[trigger] pre_av[w]),
                    acct_key()(am),
                ) by {
                    assert(pre_av[w] == model.accounts[w]);
                    assert(lex_lt(model.accounts[w].id, model.accounts[ai as int].id));
                }
                lemma_insert_by_at(pre_av, am, acct_key(), pre_av.len() as int);
                assert(account_views(accounts@) =~= model.accounts.subrange(0, ai + 1));
            }
        }
        ai += 1;
    }
    proof {
        if model.wf() {
            assert(model.accounts.subrange(0, na as int) =~= model.accounts);
        }
    }
    // every deployed reference must resolve
    match check_deployed_refs(&accounts, &contracts) {
        Ok(_) => {},
        Err(e) => {
            proof {
                if model.wf() {
                    assert(has_dangling_ref(
                        account_views(accounts@),
                        contract_views(contracts@),
                    ));
                    let (x, y) = choose|x: int, y: int|
                        0 <= x < account_views(accounts@).len() && 0 <= y < account_views(
                            accounts@,
                        )[x].deployed.len() && !has_contract(
                            contract_views(contracts@),
                            #[trigger] account_views(accounts@)[x].deployed[y],
                        );
                    assert(has_contract(model.contracts, model.accounts[x].deployed[y]));
                }
            }
            return Err(e);
        },
    }
    let s = NetworkSnapshot { metadata, accounts, contracts };
    proof {
        assert(s.wf()) by {
            assert(s@.accounts == account_views(s.accounts@));
            assert(s@.contracts == contract_views(s.contracts@));
            assert forall|x: int, y: int|
                0 <= x < s@.accounts.len() && 0 <= y < s@.accounts[x].deployed.len()
                implies has_contract(s@.contracts, #[trigger] s@.accounts[x].deployed[y]) by {
                if !has_contract(s@.contracts, s@.accounts[x].deployed[y]) {
                    assert(has_dangling_ref(
                        account_views(s.accounts@),
                        contract_views(s.contracts@),
                    ));
                }
            }
        }
        if model.wf() {
            assert(s@ == model);
        }
    }
    Ok(s)
}

/// The result of loading one snapshot document.
#[derive(Debug)]
pub struct LoadedSnapshot {
    pub snapshot: NetworkSnapshot,
}

/// Parses and validates snapshot documents.
pub struct SnapshotLoader;

impl SnapshotLoader {
    /// Loads a snapshot from its textual form. The document's fields may
    /// come in any order and unknown fields are ignored; missing required
    /// fields give `ParseError`, and inconsistent content — duplicate ids,
    /// duplicate storage keys, a deployed-contract reference that resolves
    /// to nothing — gives `ValidationError` naming the field at fault.
    pub fn load(source: &str) -> (r: Result<LoadedSnapshot, SimulatorError>)
        ensures
            r matches Ok(ls) ==> ls.snapshot.wf(),
            r matches Err(e) ==> (e is ParseError || e is ValidationError),
    {
        let v = chars_of(source);
        let n = v.len();
        let mut j = match expect_ch(&v, 0, '{') {
            Ok(tmp) => tmp,
            Err(e) => {
                return Err(e);
            },
        };
        let mut metadata: Option<LedgerMetadata> = None;
        let mut raw_accounts: Option<Vec<AccountState>> = None;
        let mut raw_contracts: Option<Vec<ContractState>> = None;
        loop
            invariant
                n == v@.len(),
                0 < j <= n,
            ensures
                0 < j <= n,
            decreases n - j,
        {
            let j2 = skip_ws(&v, j);
            if j2 < n && v[j2] == '}' {
                j = j2 + 1;
                break;
            }
            let (j3, key) = match parse_key(&v, j2) {
            Ok(tmp) => tmp,
            Err(e) => {
                return Err(e);
            },
        };
            if str_eq(key.as_str(), "metadata") {
                let (j4, val) = match parse_metadata(&v, j3) {
            Ok(tmp) => tmp,
            Err(e) => {
                return Err(e);
            },
        };
                metadata = Some(val);
                j = j4;
            } else if str_eq(key.as_str(), "accounts") {
                let (j4, val) = match parse_account_array(&v, j3) {
            Ok(tmp) => tmp,
            Err(e) => {
                return Err(e);
            },
        };
                raw_accounts = Some(val);
                j = j4;
            } else if str_eq(key.as_str(), "contracts") {
                let (j4, val) = match parse_contract_array(&v, j3) {
            Ok(tmp) => tmp,
            Err(e) => {
                return Err(e);
            },
        };
                raw_contracts = Some(val);
                j = j4;
            } else {
                j = match skip_value(&v, j3) {
            Ok(tmp) => tmp,
            Err(e) => {
                return Err(e);
            },
        };
            }
            let (j5, done) = match member_end(&v, j) {
            Ok(tmp) => tmp,
            Err(e) => {
                return Err(e);
            },
        };
            j = j5;
            if done {
                break;
            }
        }
        let j6 = skip_ws(&v, j);
        if j6 != n {
            return Err(parse_err(j6, "trailing characters after document"));
        }
        match (metadata, raw_accounts, raw_contracts) {
            (Some(metadata), Some(raw_accounts), Some(raw_contracts)) => {
                let snapshot = match assemble(metadata, raw_accounts, raw_contracts) {
                    Ok(tmp) => tmp,
                    Err(e) => {
                        return Err(e);
                    },
                };
                Ok(LoadedSnapshot { snapshot })
            },
            _ => Err(parse_err(j, "missing top-level field")),
        }
    }
}

} // verus!
