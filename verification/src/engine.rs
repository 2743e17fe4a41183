//! Comparison engine: computes a `ComparisonReport` from two finalized
//! execution traces. Two passes are made on purpose: a lock-step walk of the
//! event sequences finds the first control-flow divergence, and an
//! independent storage-key-set comparison catches state differences even
//! when the sequences align.

use vstd::prelude::*;

use crate::sorted::{sorted_by, has_key_by, key_views, ident_key, insert_key, contains_key};
use crate::text::{lex_lt, str_eq, str_lt};
use crate::trace::{Event, EventModel, ExecutionTrace, Outcome, OutcomeModel, TraceModel, opt_view};

verus! {

/// The storage key an event touches, if it is a storage access.
pub open spec fn event_key(e: EventModel) -> Option<Seq<char>> {
    match e {
        EventModel::StorageRead { key, .. } => Option::Some(key),
        EventModel::StorageWrite { key, .. } => Option::Some(key),
        _ => Option::None,
    }
}

/// Whether any event of the trace reads or writes the key.
pub open spec fn touches(t: Seq<EventModel>, k: Seq<char>) -> bool {
    exists|i: int| 0 <= i < t.len() && event_key(#[trigger] t[i]) == Option::Some(k)
}

/// The value a key holds after the trace ran: the value of the last storage
/// access of that key (the written value for a write, the observed value for
/// a read; `None` for a read of an absent entry or an untouched key).
pub open spec fn resulting_value(t: Seq<EventModel>, k: Seq<char>) -> Option<Seq<char>>
    decreases t.len(),
{
    if t.len() == 0 {
        Option::None
    } else if event_key(t.last()) == Option::Some(k) {
        match t.last() {
            EventModel::StorageWrite { new_value, .. } => Option::Some(new_value),
            EventModel::StorageRead { value, .. } => value,
            _ => Option::None,
        }
    } else {
        resulting_value(t.drop_last(), k)
    }
}

/// CPU used according to the last resource sample (0 when none was taken).
pub open spec fn trace_cpu(t: Seq<EventModel>) -> u64
    decreases t.len(),
{
    if t.len() == 0 {
        0
    } else {
        match t.last() {
            EventModel::ResourceSample { cpu_used, .. } => cpu_used,
            _ => trace_cpu(t.drop_last()),
        }
    }
}

/// Memory used according to the last resource sample (0 when none was taken).
pub open spec fn trace_mem(t: Seq<EventModel>) -> u64
    decreases t.len(),
{
    if t.len() == 0 {
        0
    } else {
        match t.last() {
            EventModel::ResourceSample { memory_used, .. } => memory_used,
            _ => trace_mem(t.drop_last()),
        }
    }
}

pub open spec fn events_equal_upto(a: Seq<EventModel>, b: Seq<EventModel>, n: int) -> bool {
    forall|i: int| 0 <= i < n ==> a[i] == b[i]
}

pub open spec fn spec_min(a: int, b: int) -> int {
    if a < b {
        a
    } else {
        b
    }
}

/// Views of a vector of storage mismatches.
pub open spec fn mismatch_views(v: Seq<StorageMismatch>) -> Seq<MismatchModel> {
    v.map_values(|x: StorageMismatch| x@)
}

/// Key function for storage mismatches.
pub open spec fn mismatch_key() -> spec_fn(MismatchModel) -> Seq<char> {
    |m: MismatchModel| m.key
}

/// One key whose resulting values differ between the two traces.
#[derive(Debug)]
pub struct StorageMismatch {
    pub key: String,
    pub before: Option<String>,
    pub after: Option<String>,
}

pub struct MismatchModel {
    pub key: Seq<char>,
    pub before: Option<Seq<char>>,
    pub after: Option<Seq<char>>,
}

impl View for StorageMismatch {
    type V = MismatchModel;

    open spec fn view(&self) -> MismatchModel {
        MismatchModel { key: self.key@, before: opt_view(self.before), after: opt_view(self.after) }
    }
}

/// Summary of the divergence between two traces; `before` is the baseline,
/// `after` the trace compared against it.
#[derive(Debug)]
pub struct ComparisonReport {
    /// Whether the two outcomes are equal.
    pub outcome_match: bool,
    /// CPU delta, after minus before.
    pub cpu_delta: i128,
    /// Memory delta, after minus before.
    pub mem_delta: i128,
    /// First index at which the event sequences differ, if they do.
    pub divergence: Option<usize>,
    /// Events of the baseline past the last paired index.
    pub trailing_before: usize,
    /// Events of the other trace past the last paired index.
    pub trailing_after: usize,
    /// Storage keys touched only by the baseline, sorted.
    pub keys_only_before: Vec<String>,
    /// Storage keys touched only by the other trace, sorted.
    pub keys_only_after: Vec<String>,
    /// Keys touched by both whose resulting values differ, sorted by key.
    pub value_mismatches: Vec<StorageMismatch>,
}

pub struct ReportModel {
    pub outcome_match: bool,
    pub cpu_delta: int,
    pub mem_delta: int,
    pub divergence: Option<usize>,
    pub trailing_before: usize,
    pub trailing_after: usize,
    pub keys_only_before: Seq<Seq<char>>,
    pub keys_only_after: Seq<Seq<char>>,
    pub value_mismatches: Seq<MismatchModel>,
}

impl View for ComparisonReport {
    type V = ReportModel;

    open spec fn view(&self) -> ReportModel {
        ReportModel {
            outcome_match: self.outcome_match,
            cpu_delta: self.cpu_delta as int,
            mem_delta: self.mem_delta as int,
            divergence: self.divergence,
            trailing_before: self.trailing_before,
            trailing_after: self.trailing_after,
            keys_only_before: key_views(self.keys_only_before@),
            keys_only_after: key_views(self.keys_only_after@),
            value_mismatches: mismatch_views(self.value_mismatches@),
        }
    }
}

/// Number of event indices that are paired between the two traces: up to the
/// divergence point, or up to the shorter length when no pair differs.
pub open spec fn paired_len(a: TraceModel, b: TraceModel, d: Option<usize>) -> int {
    match d {
        Option::Some(i) => i as int,
        Option::None => spec_min(a.events.len() as int, b.events.len() as int),
    }
}

/// Full functional characterization of a comparison report for the trace
/// pair `(a, b)`, `a` being the baseline.
pub open spec fn report_matches(a: TraceModel, b: TraceModel, r: ReportModel) -> bool {
    let m = spec_min(a.events.len() as int, b.events.len() as int);
    &&& r.outcome_match == (a.outcome == b.outcome)
    &&& r.cpu_delta == trace_cpu(b.events) - trace_cpu(a.events)
    &&& r.mem_delta == trace_mem(b.events) - trace_mem(a.events)
    &&& match r.divergence {
        Option::Some(i) => i < m && a.events[i as int] != b.events[i as int]
            && events_equal_upto(a.events, b.events, i as int),
        Option::None => events_equal_upto(a.events, b.events, m),
    }
    &&& r.trailing_before == a.events.len() - paired_len(a, b, r.divergence)
    &&& r.trailing_after == b.events.len() - paired_len(a, b, r.divergence)
    &&& sorted_by(r.keys_only_before, ident_key())
    &&& forall|k: Seq<char>| #[trigger] has_key_by(r.keys_only_before, k, ident_key()) <==> (
    touches(a.events, k) && !touches(b.events, k))
    &&& sorted_by(r.keys_only_after, ident_key())
    &&& forall|k: Seq<char>| #[trigger] has_key_by(r.keys_only_after, k, ident_key()) <==> (
    touches(b.events, k) && !touches(a.events, k))
    &&& sorted_by(r.value_mismatches, mismatch_key())
    &&& forall|k: Seq<char>| #[trigger] has_key_by(r.value_mismatches, k, mismatch_key()) <==> (
    touches(a.events, k) && touches(b.events, k) && resulting_value(a.events, k)
        != resulting_value(b.events, k))
    &&& forall|i: int|
        0 <= i < r.value_mismatches.len() ==> (#[trigger] r.value_mismatches[i]).before
            == resulting_value(a.events, r.value_mismatches[i].key)
            && r.value_mismatches[i].after == resulting_value(b.events, r.value_mismatches[i].key)
}

// ---------------------------------------------------------------------------
// Executable helpers
// ---------------------------------------------------------------------------

/// Equality of two optional strings, by contents.
fn opt_str_eq(a: &Option<String>, b: &Option<String>) -> (r: bool)
    ensures
        r == (opt_view(*a) == opt_view(*b)),
{
    match (a, b) {
        (Some(x), Some(y)) => str_eq(x.as_str(), y.as_str()),
        (None, None) => true,
        _ => false,
    }
}

/// Equality of two events, by contents.
pub fn event_eq(a: &Event, b: &Event) -> (r: bool)
    ensures
        r == (a@ == b@),
{
    match (a, b) {
        (
            Event::FunctionEntry { name: n1, args: a1 },
            Event::FunctionEntry { name: n2, args: a2 },
        ) => str_eq(n1.as_str(), n2.as_str()) && opt_str_eq(a1, a2),
        (
            Event::FunctionExit { name: n1, return_value: r1 },
            Event::FunctionExit { name: n2, return_value: r2 },
        ) => str_eq(n1.as_str(), n2.as_str()) && opt_str_eq(r1, r2),
        (
            Event::StorageRead { key: k1, value: v1 },
            Event::StorageRead { key: k2, value: v2 },
        ) => str_eq(k1.as_str(), k2.as_str()) && opt_str_eq(v1, v2),
        (
            Event::StorageWrite { key: k1, old_value: o1, new_value: v1 },
            Event::StorageWrite { key: k2, old_value: o2, new_value: v2 },
        ) => str_eq(k1.as_str(), k2.as_str()) && opt_str_eq(o1, o2) && str_eq(
            v1.as_str(),
            v2.as_str(),
        ),
        (
            Event::ResourceSample { cpu_used: c1, cpu_limit: cl1, memory_used: m1, memory_limit: ml1 },
            Event::ResourceSample { cpu_used: c2, cpu_limit: cl2, memory_used: m2, memory_limit: ml2 },
        ) => c1 == c2 && cl1 == cl2 && m1 == m2 && ml1 == ml2,
        (
            Event::DiagnosticEvent { topic: t1, payload: p1 },
            Event::DiagnosticEvent { topic: t2, payload: p2 },
        ) => str_eq(t1.as_str(), t2.as_str()) && str_eq(p1.as_str(), p2.as_str()),
        _ => false,
    }
}

/// Equality of two optional outcomes, by contents.
fn outcome_opt_eq(a: &Option<Outcome>, b: &Option<Outcome>) -> (r: bool)
    ensures
        r == ((match a {
            Option::Some(x) => Option::Some(x@),
            Option::None => Option::None::<OutcomeModel>,
        }) == (match b {
            Option::Some(y) => Option::Some(y@),
            Option::None => Option::None::<OutcomeModel>,
        })),
{
    match (a, b) {
        (Some(Outcome::Success(x)), Some(Outcome::Success(y))) => str_eq(x.as_str(), y.as_str()),
        (Some(Outcome::Failure(x)), Some(Outcome::Failure(y))) => str_eq(x.as_str(), y.as_str()),
        (None, None) => true,
        _ => false,
    }
}

/// The storage key of an event, if it is a storage access.
fn exec_event_key<'a>(e: &'a Event) -> (r: Option<&'a String>)
    ensures
        match r {
            Option::Some(k) => event_key(e@) == Option::Some(k@),
            Option::None => event_key(e@) is None,
        },
{
    match e {
        Event::StorageRead { key, .. } => Some(key),
        Event::StorageWrite { key, .. } => Some(key),
        _ => None,
    }
}

/// Last resource sample of the trace, as (cpu, memory); (0, 0) without one.
fn resources_of(t: &ExecutionTrace) -> (r: (u64, u64))
    ensures
        r.0 == trace_cpu(t@.events),
        r.1 == trace_mem(t@.events),
{
    let n = t.events_len();
    let mut cpu: u64 = 0;
    let mut mem: u64 = 0;
    let mut i: usize = 0;
    while i < n
        invariant
            n == t@.events.len(),
            i <= n,
            cpu == trace_cpu(t@.events.subrange(0, i as int)),
            mem == trace_mem(t@.events.subrange(0, i as int)),
        decreases n - i,
    {
        proof {
            let pre = t@.events.subrange(0, i as int);
            let post = t@.events.subrange(0, i + 1);
            assert(post.drop_last() =~= pre);
            assert(post.last() == t@.events[i as int]);
        }
        match t.event_at(i) {
            Event::ResourceSample { cpu_used, memory_used, .. } => {
                cpu = *cpu_used;
                mem = *memory_used;
            },
            _ => {},
        }
        i += 1;
    }
    proof {
        assert(t@.events.subrange(0, n as int) =~= t@.events);
    }
    (cpu, mem)
}

/// All distinct storage keys the trace touches, sorted.
fn touched_keys(t: &ExecutionTrace) -> (keys: Vec<String>)
    ensures
        sorted_by(key_views(keys@), ident_key()),
        forall|k: Seq<char>| #[trigger] has_key_by(
            key_views(keys@),
            k,
            ident_key(),
        ) <==> touches(t@.events, k),
{
    let n = t.events_len();
    let mut keys: Vec<String> = Vec::new();
    proof {
        assert(key_views(keys@) =~= Seq::<Seq<char>>::empty());
    }
    let mut i: usize = 0;
    while i < n
        invariant
            n == t@.events.len(),
            i <= n,
            sorted_by(key_views(keys@), ident_key()),
            forall|k: Seq<char>| #[trigger] has_key_by(
                key_views(keys@),
                k,
                ident_key(),
            ) <==> touches(t@.events.subrange(0, i as int), k),
        decreases n - i,
    {
        let ghost pre = t@.events.subrange(0, i as int);
        let ghost post = t@.events.subrange(0, i + 1);
        proof {
            assert(post.drop_last() =~= pre);
            assert(post.last() == t@.events[i as int]);
            assert(forall|w: int| 0 <= w < pre.len() ==> post[w] == pre[w]);
        }
        match exec_event_key(t.event_at(i)) {
            Some(key) => {
                let ks = key.clone();
                insert_key(&mut keys, ks.as_str());
                proof {
                    assert forall|k: Seq<char>| #[trigger] has_key_by(
                        key_views(keys@),
                        k,
                        ident_key(),
                    ) implies touches(post, k) by {
                        if k == ks@ {
                            assert(event_key(post[i as int]) == Option::Some(k));
                        } else {
                            let w = choose|w: int|
                                0 <= w < pre.len() && event_key(#[trigger] pre[w])
                                    == Option::Some(k);
                            assert(event_key(post[w]) == Option::Some(k));
                        }
                    }
                    assert forall|k: Seq<char>| touches(post, k) implies #[trigger] has_key_by(
                        key_views(keys@),
                        k,
                        ident_key(),
                    ) by {
                        let w = choose|w: int|
                            0 <= w < post.len() && event_key(#[trigger] post[w]) == Option::Some(
                                k,
                            );
                        if w < i {
                            assert(event_key(pre[w]) == Option::Some(k));
                        } else {
                            assert(k == ks@);
                        }
                    }
                }
            },
            None => {
                proof {
                    assert forall|k: Seq<char>| touches(post, k) == touches(pre, k) by {
                        if touches(post, k) {
                            let w = choose|w: int|
                                0 <= w < post.len() && event_key(#[trigger] post[w])
                                    == Option::Some(k);
                            assert(w < i);
                            assert(event_key(pre[w]) == Option::Some(k));
                        }
                        if touches(pre, k) {
                            let w = choose|w: int|
                                0 <= w < pre.len() && event_key(#[trigger] pre[w])
                                    == Option::Some(k);
                            assert(event_key(post[w]) == Option::Some(k));
                        }
                    }
                }
            },
        }
        i += 1;
    }
    proof {
        assert(t@.events.subrange(0, n as int) =~= t@.events);
    }
    keys
}

/// The resulting value of a key in a trace: value of its last storage access.
fn resulting_value_of(t: &ExecutionTrace, k: &str) -> (r: Option<String>)
    ensures
        opt_view(r) == resulting_value(t@.events, k@),
{
    let n = t.events_len();
    let mut i: usize = n;
    proof {
        assert(t@.events.subrange(0, n as int) =~= t@.events);
    }
    while i > 0
        invariant
            n == t@.events.len(),
            i <= n,
            resulting_value(t@.events, k@) == resulting_value(
                t@.events.subrange(0, i as int),
                k@,
            ),
        decreases i,
    {
        i -= 1;
        let ghost cur = t@.events.subrange(0, i + 1);
        proof {
            assert(cur.last() == t@.events[i as int]);
            assert(cur.drop_last() =~= t@.events.subrange(0, i as int));
        }
        match t.event_at(i) {
            Event::StorageRead { key, value } => {
                if str_eq(key.as_str(), k) {
                    return match value {
                        Some(v) => Some(v.clone()),
                        None => None,
                    };
                }
            },
            Event::StorageWrite { key, new_value, .. } => {
                if str_eq(key.as_str(), k) {
                    return Some(new_value.clone());
                }
            },
            _ => {},
        }
    }
    proof {
        assert(t@.events.subrange(0, 0) =~= Seq::<EventModel>::empty());
    }
    None
}


/// The resulting value of a key is decided by its last storage access.
proof fn lemma_resulting_at(t: Seq<EventModel>, key: Seq<char>, k: int)
    requires
        0 <= k < t.len(),
        event_key(t[k]) == Option::Some(key),
        forall|i: int| k < i < t.len() ==> event_key(#[trigger] t[i]) != Option::Some(key),
    ensures
        resulting_value(t, key) == (match t[k] {
            EventModel::StorageWrite { new_value, .. } => Option::Some(new_value),
            EventModel::StorageRead { value, .. } => value,
            _ => Option::None,
        }),
    decreases t.len(),
{
    if k == t.len() - 1 {
        assert(t.last() == t[k]);
    } else {
        assert(event_key(t.last()) != Option::Some(key));
        assert(t.drop_last()[k] == t[k]);
        assert(forall|i: int|
            k < i < t.drop_last().len() ==> #[trigger] t.drop_last()[i] == t[i]);
        lemma_resulting_at(t.drop_last(), key, k);
    }
}

/// Law: two finalized traces identical except for one storage write whose
/// written value differs — with no later access of that key on either side
/// — are reported with the divergence point at that write's index and a
/// value mismatch for that key; a differing outcome is always reported as a
/// mismatch.
pub proof fn lemma_divergence_detection(
    a: TraceModel,
    b: TraceModel,
    r: ReportModel,
    k: usize,
    key: Seq<char>,
    old_value: Option<Seq<char>>,
    val_a: Seq<char>,
    val_b: Seq<char>,
)
    requires
        report_matches(a, b, r),
        a.events.len() == b.events.len(),
        k < a.events.len(),
        forall|i: int| 0 <= i < a.events.len() && i != k ==> a.events[i] == b.events[i],
        a.events[k as int] == (EventModel::StorageWrite {
            key,
            old_value,
            new_value: val_a,
        }),
        b.events[k as int] == (EventModel::StorageWrite {
            key,
            old_value,
            new_value: val_b,
        }),
        val_a != val_b,
        forall|i: int|
            k < i < a.events.len() ==> event_key(#[trigger] a.events[i]) != Option::Some(key),
    ensures
        r.divergence == Option::Some(k),
        has_key_by(r.value_mismatches, key, mismatch_key()),
        a.outcome != b.outcome ==> !r.outcome_match,
{
    let m = spec_min(a.events.len() as int, b.events.len() as int);
    assert(a.events[k as int] != b.events[k as int]);
    match r.divergence {
        Option::Some(d) => {
            if (d as int) < k as int {
                assert(a.events[d as int] == b.events[d as int]);
            } else if (d as int) > k as int {
                assert(a.events[k as int] == b.events[k as int]);
            }
            assert(d == k);
        },
        Option::None => {
            assert(a.events[k as int] == b.events[k as int]);
        },
    }
    assert(touches(a.events, key)) by {
        assert(event_key(a.events[k as int]) == Option::Some(key));
    }
    assert(touches(b.events, key)) by {
        assert(event_key(b.events[k as int]) == Option::Some(key));
    }
    assert(forall|i: int|
        k < i < b.events.len() ==> event_key(#[trigger] b.events[i]) != Option::Some(key));
    lemma_resulting_at(a.events, key, k as int);
    lemma_resulting_at(b.events, key, k as int);
    assert(resulting_value(a.events, key) == Option::Some(val_a));
    assert(resulting_value(b.events, key) == Option::Some(val_b));
}

/// The comparison engine: pure functions from two finalized traces to a
/// report of their divergence.
pub struct CompareEngine;

impl CompareEngine {
    /// Compares `after` against the baseline `before`.
    pub fn compare(before: &ExecutionTrace, after: &ExecutionTrace) -> (r: ComparisonReport)
        requires
            before@.finalized,
            after@.finalized,
        ensures
            report_matches(before@, after@, r@),
    {
        let outcome_match = outcome_opt_eq(before.outcome(), after.outcome());
        let (cpu_b, mem_b) = resources_of(before);
        let (cpu_a, mem_a) = resources_of(after);
        let cpu_delta = cpu_a as i128 - cpu_b as i128;
        let mem_delta = mem_a as i128 - mem_b as i128;

        let nb = before.events_len();
        let na = after.events_len();
        let m = if nb < na {
            nb
        } else {
            na
        };
        let mut divergence: Option<usize> = None;
        let mut i: usize = 0;
        loop
            invariant_except_break
                divergence is None,
            invariant
                nb == before@.events.len(),
                na == after@.events.len(),
                m == spec_min(nb as int, na as int),
                i <= m,
                events_equal_upto(before@.events, after@.events, i as int),
            ensures
                nb == before@.events.len(),
                na == after@.events.len(),
                m == spec_min(nb as int, na as int),
                match divergence {
                    Option::Some(d) => d < m && before@.events[d as int] != after@.events[d as int]
                        && events_equal_upto(before@.events, after@.events, d as int),
                    Option::None => events_equal_upto(
                        before@.events,
                        after@.events,
                        spec_min(nb as int, na as int),
                    ),
                },
            decreases m - i,
        {
            if i >= m {
                break;
            }
            if !event_eq(before.event_at(i), after.event_at(i)) {
                divergence = Some(i);
                break;
            }
            i += 1;
        }
        let paired = match divergence {
            Some(d) => d,
            None => m,
        };
        let trailing_before = nb - paired;
        let trailing_after = na - paired;

        let keys_b = touched_keys(before);
        let keys_a = touched_keys(after);

        let mut keys_only_before: Vec<String> = Vec::new();
        let ghost kb = key_views(keys_b@);
        let ghost ka = key_views(keys_a@);
        let mut j: usize = 0;
        while j < keys_b.len()
            invariant
                kb == key_views(keys_b@),
                ka == key_views(keys_a@),
                sorted_by(kb, ident_key()),
                forall|k: Seq<char>| #[trigger] has_key_by(kb, k, ident_key()) <==> touches(
                    before@.events,
                    k,
                ),
                forall|k: Seq<char>| #[trigger] has_key_by(ka, k, ident_key()) <==> touches(
                    after@.events,
                    k,
                ),
                j <= kb.len(),
                forall|w: int| 0 <= w < keys_only_before@.len() ==> exists|v: int|
                    0 <= v < j && #[trigger] keys_only_before@[w]@ == kb[v],
                sorted_by(key_views(keys_only_before@), ident_key()),
                forall|k: Seq<char>| #[trigger] has_key_by(
                    key_views(keys_only_before@),
                    k,
                    ident_key(),
                ) <==> (exists|v: int| 0 <= v < j && #[trigger] kb[v] == k && !has_key_by(
                    ka,
                    k,
                    ident_key(),
                )),
            decreases keys_b.len() - j,
        {
            proof {
                assert(kb[j as int] == keys_b@[j as int]@);
            }
            if !contains_key(&keys_a, keys_b[j].as_str()) {
                let ghost pre = keys_only_before@;
                keys_only_before.push(keys_b[j].clone());
                proof {
                    let v = keys_only_before@.last();
                    assert(keys_only_before@ == pre.push(v));
                    assert(v@ == kb[j as int]);
                    assert forall|w: int| 0 <= w < pre.len() implies #[trigger] keys_only_before@[w]
                        == pre[w] by {
                        assert(pre.push(v)[w] == pre[w]);
                    }
                    assert forall|w1: int, w2: int|
                        0 <= w1 < w2 < keys_only_before@.len() implies lex_lt(
                        key_views(keys_only_before@)[w1],
                        key_views(keys_only_before@)[w2],
                    ) by {
                        assert(key_views(keys_only_before@)[w1] == keys_only_before@[w1]@);
                        assert(key_views(keys_only_before@)[w2] == keys_only_before@[w2]@);
                        if w2 == keys_only_before@.len() - 1 {
                            assert(keys_only_before@[w1] == pre[w1]);
                            assert(keys_only_before@[w2] == v);
                            let u = choose|u: int|
                                0 <= u < j && #[trigger] pre[w1]@ == kb[u];
                            assert(lex_lt(kb[u], kb[j as int]));
                        } else {
                            assert(keys_only_before@[w1] == pre[w1]);
                            assert(keys_only_before@[w2] == pre[w2]);
                            assert(key_views(pre)[w1] == pre[w1]@);
                            assert(key_views(pre)[w2] == pre[w2]@);
                            assert(lex_lt(key_views(pre)[w1], key_views(pre)[w2]));
                        }
                    }
                    assert forall|k: Seq<char>| #[trigger] has_key_by(
                        key_views(keys_only_before@),
                        k,
                        ident_key(),
                    ) implies (exists|v2: int|
                        0 <= v2 < j + 1 && #[trigger] kb[v2] == k && !has_key_by(
                            ka,
                            k,
                            ident_key(),
                        )) by {
                        let w = choose|w: int|
                            0 <= w < keys_only_before@.len()
                                && (#[trigger] key_views(keys_only_before@)[w])
                                == k;
                        if w < pre.len() {
                            assert(has_key_by(key_views(pre), k, ident_key()))
                                by {
                                assert(key_views(pre)[w] == k);
                            }
                        } else {
                            assert(kb[j as int] == k);
                        }
                    }
                    assert forall|k: Seq<char>|
                        (exists|v2: int|
                            0 <= v2 < j + 1 && #[trigger] kb[v2] == k && !has_key_by(
                                ka,
                                k,
                                ident_key(),
                            )) implies #[trigger] has_key_by(
                        key_views(keys_only_before@),
                        k,
                        ident_key(),
                    ) by {
                        let v2 = choose|v2: int|
                            0 <= v2 < j + 1 && #[trigger] kb[v2] == k && !has_key_by(
                                ka,
                                k,
                                ident_key(),
                            );
                        if v2 < j {
                            assert(has_key_by(key_views(pre), k, ident_key()));
                            let w = choose|w: int|
                                0 <= w < pre.len() && (#[trigger] key_views(pre)[w]) == k;
                            assert(key_views(keys_only_before@)[w] == k);
                        } else {
                            assert(key_views(keys_only_before@)[
                                keys_only_before@.len() - 1] == k);
                        }
                    }
                }
            } else {
                proof {
                    assert forall|k: Seq<char>| #[trigger] has_key_by(
                        key_views(keys_only_before@),
                        k,
                        ident_key(),
                    ) <==> (exists|v2: int|
                        0 <= v2 < j + 1 && #[trigger] kb[v2] == k && !has_key_by(
                            ka,
                            k,
                            ident_key(),
                        )) by {
                        if (exists|v2: int|
                            0 <= v2 < j + 1 && #[trigger] kb[v2] == k && !has_key_by(
                                ka,
                                k,
                                ident_key(),
                            )) {
                            let v2 = choose|v2: int|
                                0 <= v2 < j + 1 && #[trigger] kb[v2] == k && !has_key_by(
                                    ka,
                                    k,
                                    ident_key(),
                                );
                            assert(v2 != j);
                        }
                    }
                }
            }
            j += 1;
        }

        let mut keys_only_after: Vec<String> = Vec::new();
        let mut j2: usize = 0;
        while j2 < keys_a.len()
            invariant
                kb == key_views(keys_b@),
                ka == key_views(keys_a@),
                sorted_by(ka, ident_key()),
                forall|k: Seq<char>| #[trigger] has_key_by(kb, k, ident_key()) <==> touches(
                    before@.events,
                    k,
                ),
                forall|k: Seq<char>| #[trigger] has_key_by(ka, k, ident_key()) <==> touches(
                    after@.events,
                    k,
                ),
                j2 <= ka.len(),
                forall|w: int| 0 <= w < keys_only_after@.len() ==> exists|v: int|
                    0 <= v < j2 && #[trigger] keys_only_after@[w]@ == ka[v],
                sorted_by(key_views(keys_only_after@), ident_key()),
                forall|k: Seq<char>| #[trigger] has_key_by(
                    key_views(keys_only_after@),
                    k,
                    ident_key(),
                ) <==> (exists|v: int| 0 <= v < j2 && #[trigger] ka[v] == k && !has_key_by(
                    kb,
                    k,
                    ident_key(),
                )),
            decreases keys_a.len() - j2,
        {
            proof {
                assert(ka[j2 as int] == keys_a@[j2 as int]@);
            }
            if !contains_key(&keys_b, keys_a[j2].as_str()) {
                let ghost pre = keys_only_after@;
                keys_only_after.push(keys_a[j2].clone());
                proof {
                    let v = keys_only_after@.last();
                    assert(keys_only_after@ == pre.push(v));
                    assert(v@ == ka[j2 as int]);
                    assert forall|w: int| 0 <= w < pre.len() implies #[trigger] keys_only_after@[w]
                        == pre[w] by {
                        assert(pre.push(v)[w] == pre[w]);
                    }
                    assert forall|w1: int, w2: int|
                        0 <= w1 < w2 < keys_only_after@.len() implies lex_lt(
                        key_views(keys_only_after@)[w1],
                        key_views(keys_only_after@)[w2],
                    ) by {
                        assert(key_views(keys_only_after@)[w1] == keys_only_after@[w1]@);
                        assert(key_views(keys_only_after@)[w2] == keys_only_after@[w2]@);
                        if w2 == keys_only_after@.len() - 1 {
                            assert(keys_only_after@[w1] == pre[w1]);
                            assert(keys_only_after@[w2] == v);
                            let u = choose|u: int|
                                0 <= u < j2 && #[trigger] pre[w1]@ == ka[u];
                            assert(lex_lt(ka[u], ka[j2 as int]));
                        } else {
                            assert(keys_only_after@[w1] == pre[w1]);
                            assert(keys_only_after@[w2] == pre[w2]);
                            assert(key_views(pre)[w1] == pre[w1]@);
                            assert(key_views(pre)[w2] == pre[w2]@);
                            assert(lex_lt(key_views(pre)[w1], key_views(pre)[w2]));
                        }
                    }
                    assert forall|k: Seq<char>| #[trigger] has_key_by(
                        key_views(keys_only_after@),
                        k,
                        ident_key(),
                    ) implies (exists|v2: int|
                        0 <= v2 < j2 + 1 && #[trigger] ka[v2] == k && !has_key_by(
                            kb,
                            k,
                            ident_key(),
                        )) by {
                        let w = choose|w: int|
                            0 <= w < keys_only_after@.len()
                                && (#[trigger] key_views(keys_only_after@)[w])
                                == k;
                        if w < pre.len() {
                            assert(has_key_by(key_views(pre), k, ident_key()))
                                by {
                                assert(key_views(pre)[w] == k);
                            }
                        } else {
                            assert(ka[j2 as int] == k);
                        }
                    }
                    assert forall|k: Seq<char>|
                        (exists|v2: int|
                            0 <= v2 < j2 + 1 && #[trigger] ka[v2] == k && !has_key_by(
                                kb,
                                k,
                                ident_key(),
                            )) implies #[trigger] has_key_by(
                        key_views(keys_only_after@),
                        k,
                        ident_key(),
                    ) by {
                        let v2 = choose|v2: int|
                            0 <= v2 < j2 + 1 && #[trigger] ka[v2] == k && !has_key_by(
                                kb,
                                k,
                                ident_key(),
                            );
                        if v2 < j2 {
                            assert(has_key_by(key_views(pre), k, ident_key()));
                            let w = choose|w: int|
                                0 <= w < pre.len() && (#[trigger] key_views(pre)[w]) == k;
                            assert(key_views(keys_only_after@)[w] == k);
                        } else {
                            assert(key_views(keys_only_after@)[
                                keys_only_after@.len() - 1] == k);
                        }
                    }
                }
            } else {
                proof {
                    assert forall|k: Seq<char>| #[trigger] has_key_by(
                        key_views(keys_only_after@),
                        k,
                        ident_key(),
                    ) <==> (exists|v2: int|
                        0 <= v2 < j2 + 1 && #[trigger] ka[v2] == k && !has_key_by(
                            kb,
                            k,
                            ident_key(),
                        )) by {
                        if (exists|v2: int|
                            0 <= v2 < j2 + 1 && #[trigger] ka[v2] == k && !has_key_by(
                                kb,
                                k,
                                ident_key(),
                            )) {
                            let v2 = choose|v2: int|
                                0 <= v2 < j2 + 1 && #[trigger] ka[v2] == k && !has_key_by(
                                    kb,
                                    k,
                                    ident_key(),
                                );
                            assert(v2 != j2);
                        }
                    }
                }
            }
            j2 += 1;
        }

        let mut value_mismatches: Vec<StorageMismatch> = Vec::new();
        let mut j3: usize = 0;
        while j3 < keys_b.len()
            invariant
                kb == key_views(keys_b@),
                ka == key_views(keys_a@),
                sorted_by(kb, ident_key()),
                forall|k: Seq<char>| #[trigger] has_key_by(kb, k, ident_key()) <==> touches(
                    before@.events,
                    k,
                ),
                forall|k: Seq<char>| #[trigger] has_key_by(ka, k, ident_key()) <==> touches(
                    after@.events,
                    k,
                ),
                j3 <= kb.len(),
                forall|w: int| 0 <= w < value_mismatches@.len() ==> exists|v: int|
                    0 <= v < j3 && (#[trigger] value_mismatches@[w]@).key == kb[v],
                sorted_by(
                    mismatch_views(value_mismatches@),
                    mismatch_key(),
                ),
                forall|k: Seq<char>| #[trigger] has_key_by(
                    mismatch_views(value_mismatches@),
                    k,
                    mismatch_key(),
                ) <==> (exists|v: int| 0 <= v < j3 && #[trigger] kb[v] == k && has_key_by(
                    ka,
                    k,
                    ident_key(),
                ) && resulting_value(before@.events, k) != resulting_value(after@.events, k)),
                forall|w: int|
                    0 <= w < value_mismatches@.len() ==> (#[trigger] value_mismatches@[w]@).before
                        == resulting_value(before@.events, value_mismatches@[w]@.key)
                        && value_mismatches@[w]@.after == resulting_value(
                        after@.events,
                        value_mismatches@[w]@.key,
                    ),
            decreases keys_b.len() - j3,
        {
            proof {
                assert(kb[j3 as int] == keys_b@[j3 as int]@);
            }
            let kstr = keys_b[j3].as_str();
            let mut pushed = false;
            if contains_key(&keys_a, kstr) {
                let rb = resulting_value_of(before, kstr);
                let ra = resulting_value_of(after, kstr);
                if !opt_str_eq(&rb, &ra) {
                    let ghost pre = value_mismatches@;
                    value_mismatches.push(
                        StorageMismatch { key: keys_b[j3].clone(), before: rb, after: ra },
                    );
                    pushed = true;
                    proof {
                        let v = value_mismatches@.last();
                        assert(value_mismatches@ == pre.push(v));
                        assert(v@.key == kb[j3 as int]);
                        assert forall|w: int| 0 <= w < pre.len() implies #[trigger]
                            value_mismatches@[w] == pre[w] by {
                            assert(pre.push(v)[w] == pre[w]);
                        }
                        assert forall|w1: int, w2: int|
                            0 <= w1 < w2 < value_mismatches@.len() implies lex_lt(
                            mismatch_views(value_mismatches@)[w1].key,
                            mismatch_views(value_mismatches@)[w2].key,
                        ) by {
                            assert(mismatch_views(value_mismatches@)[w1]
                                == value_mismatches@[w1]@);
                            assert(mismatch_views(value_mismatches@)[w2]
                                == value_mismatches@[w2]@);
                            if w2 == value_mismatches@.len() - 1 {
                                assert(value_mismatches@[w1] == pre[w1]);
                                assert(value_mismatches@[w2] == v);
                                let u = choose|u: int|
                                    0 <= u < j3 && (#[trigger] pre[w1]@).key == kb[u];
                                assert(lex_lt(kb[u], kb[j3 as int]));
                            } else {
                                assert(value_mismatches@[w1] == pre[w1]);
                                assert(value_mismatches@[w2] == pre[w2]);
                                assert(mismatch_views(pre)[w1] == pre[w1]@);
                                assert(mismatch_views(pre)[w2] == pre[w2]@);
                                assert(lex_lt(mismatch_views(pre)[w1].key,
                                    mismatch_views(pre)[w2].key));
                            }
                        }
                        assert forall|k: Seq<char>| #[trigger] has_key_by(
                            mismatch_views(value_mismatches@),
                            k,
                            mismatch_key(),
                        ) implies (exists|v2: int|
                            0 <= v2 < j3 + 1 && #[trigger] kb[v2] == k && has_key_by(
                                ka,
                                k,
                                ident_key(),
                            ) && resulting_value(before@.events, k) != resulting_value(
                                after@.events,
                                k,
                            )) by {
                            let w = choose|w: int|
                                0 <= w < value_mismatches@.len()
                                    && (#[trigger] mismatch_views(value_mismatches@)[w]).key == k;
                            if w < pre.len() {
                                assert(has_key_by(
                                    mismatch_views(pre),
                                    k,
                                    mismatch_key(),
                                )) by {
                                    assert(mismatch_views(pre)[w].key == k);
                                }
                            } else {
                                assert(kb[j3 as int] == k);
                            }
                        }
                        assert forall|k: Seq<char>|
                            (exists|v2: int|
                                0 <= v2 < j3 + 1 && #[trigger] kb[v2] == k && has_key_by(
                                    ka,
                                    k,
                                    ident_key(),
                                ) && resulting_value(before@.events, k) != resulting_value(
                                    after@.events,
                                    k,
                                )) implies #[trigger] has_key_by(
                            mismatch_views(value_mismatches@),
                            k,
                            mismatch_key(),
                        ) by {
                            let v2 = choose|v2: int|
                                0 <= v2 < j3 + 1 && #[trigger] kb[v2] == k && has_key_by(
                                    ka,
                                    k,
                                    ident_key(),
                                ) && resulting_value(before@.events, k) != resulting_value(
                                    after@.events,
                                    k,
                                );
                            if v2 < j3 {
                                assert(has_key_by(
                                    mismatch_views(pre),
                                    k,
                                    mismatch_key(),
                                ));
                                let w = choose|w: int|
                                    0 <= w < pre.len() && (#[trigger] mismatch_views(pre)[w]).key == k;
                                assert(mismatch_views(value_mismatches@)[
                                    w].key == k);
                            } else {
                                assert(mismatch_views(value_mismatches@)[
                                    value_mismatches@.len() - 1].key == k);
                            }
                        }
                    }
                }
            }
            proof {
                if !pushed {
                    assert forall|k: Seq<char>| #[trigger] has_key_by(
                        mismatch_views(value_mismatches@),
                        k,
                        mismatch_key(),
                    ) <==> (exists|v2: int|
                        0 <= v2 < j3 + 1 && #[trigger] kb[v2] == k && has_key_by(
                            ka,
                            k,
                            ident_key(),
                        ) && resulting_value(before@.events, k) != resulting_value(
                            after@.events,
                            k,
                        )) by {
                        if (exists|v2: int|
                            0 <= v2 < j3 + 1 && #[trigger] kb[v2] == k && has_key_by(
                                ka,
                                k,
                                ident_key(),
                            ) && resulting_value(before@.events, k) != resulting_value(
                                after@.events,
                                k,
                            )) {
                            let v2 = choose|v2: int|
                                0 <= v2 < j3 + 1 && #[trigger] kb[v2] == k && has_key_by(
                                    ka,
                                    k,
                                    ident_key(),
                                ) && resulting_value(before@.events, k) != resulting_value(
                                    after@.events,
                                    k,
                                );
                            assert(v2 != j3);
                        }
                    }
                }
            }
            j3 += 1;
        }

        let ghost kob = key_views(keys_only_before@);
        let ghost koa = key_views(keys_only_after@);
        let ghost vmm = mismatch_views(value_mismatches@);
        let r = ComparisonReport {
            outcome_match,
            cpu_delta,
            mem_delta,
            divergence,
            trailing_before,
            trailing_after,
            keys_only_before,
            keys_only_after,
            value_mismatches,
        };
        proof {
            assert(r@.keys_only_before == kob);
            assert(r@.keys_only_after == koa);
            assert(r@.value_mismatches == vmm);
            assert(j == kb.len());
            assert(j2 == ka.len());
            assert(j3 == kb.len());
            assert forall|k: Seq<char>| #[trigger] has_key_by(
                kob,
                k,
                ident_key(),
            ) <==> (touches(before@.events, k) && !touches(after@.events, k)) by {
                if has_key_by(kob, k, ident_key()) {
                    let v = choose|v: int|
                        0 <= v < j && #[trigger] kb[v] == k && !has_key_by(ka, k, ident_key());
                    assert(has_key_by(kb, k, ident_key())) by {
                        assert(kb[v] == k);
                    }
                }
                if touches(before@.events, k) && !touches(after@.events, k) {
                    assert(has_key_by(kb, k, ident_key()));
                    let v = choose|v: int| 0 <= v < kb.len() && #[trigger] kb[v] == k;
                    assert(exists|v2: int|
                        0 <= v2 < j && #[trigger] kb[v2] == k && !has_key_by(
                            ka,
                            k,
                            ident_key(),
                        )) by {
                        assert(0 <= v < j && kb[v] == k && !has_key_by(ka, k, ident_key()));
                    }
                }
            }
            assert forall|k: Seq<char>| #[trigger] has_key_by(
                koa,
                k,
                ident_key(),
            ) <==> (touches(after@.events, k) && !touches(before@.events, k)) by {
                if has_key_by(koa, k, ident_key()) {
                    let v = choose|v: int|
                        0 <= v < j2 && #[trigger] ka[v] == k && !has_key_by(kb, k, ident_key());
                    assert(has_key_by(ka, k, ident_key())) by {
                        assert(ka[v] == k);
                    }
                }
                if touches(after@.events, k) && !touches(before@.events, k) {
                    assert(has_key_by(ka, k, ident_key()));
                    let v = choose|v: int| 0 <= v < ka.len() && #[trigger] ka[v] == k;
                    assert(exists|v2: int|
                        0 <= v2 < j2 && #[trigger] ka[v2] == k && !has_key_by(
                            kb,
                            k,
                            ident_key(),
                        )) by {
                        assert(0 <= v < j2 && ka[v] == k && !has_key_by(kb, k, ident_key()));
                    }
                }
            }
            assert forall|k: Seq<char>| #[trigger] has_key_by(
                vmm,
                k,
                mismatch_key(),
            ) <==> (touches(before@.events, k) && touches(after@.events, k) && resulting_value(
                before@.events,
                k,
            ) != resulting_value(after@.events, k)) by {
                if has_key_by(vmm, k, mismatch_key()) {
                    let v = choose|v: int|
                        0 <= v < j3 && #[trigger] kb[v] == k && has_key_by(
                            ka,
                            k,
                            ident_key(),
                        ) && resulting_value(before@.events, k) != resulting_value(
                            after@.events,
                            k,
                        );
                    assert(has_key_by(kb, k, ident_key())) by {
                        assert(kb[v] == k);
                    }
                }
                if touches(before@.events, k) && touches(after@.events, k) && resulting_value(
                    before@.events,
                    k,
                ) != resulting_value(after@.events, k) {
                    assert(has_key_by(kb, k, ident_key()));
                    let v = choose|v: int| 0 <= v < kb.len() && #[trigger] kb[v] == k;
                    assert(exists|v2: int|
                        0 <= v2 < j3 && #[trigger] kb[v2] == k && has_key_by(
                            ka,
                            k,
                            ident_key(),
                        ) && resulting_value(before@.events, k) != resulting_value(
                            after@.events,
                            k,
                        )) by {
                        assert(0 <= v < j3 && kb[v] == k && has_key_by(ka, k, ident_key()));
                    }
                }
            }
        }
        r
    }
}

} // verus!
