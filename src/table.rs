use vstd::prelude::*;

use crate::clock::now_seconds;
use crate::fingerprint::Fingerprint;

verus! {

/// Age in seconds past which a sweep evicts a record.
pub const RETENTION_SECONDS: i64 = 30;

/// What the table keeps about one distinct fingerprint.
#[derive(PartialEq, Eq, Structural, Clone, Copy, Debug)]
pub struct Record {
    /// Time of the first observation, in seconds.
    pub first_seen: i64,
    /// Number of observations after the first one.
    pub repeat_count: u64,
    /// Protocol flags of the first observation.
    pub flags: u8,
}

/// One row of the table.
#[derive(PartialEq, Eq, Structural, Clone, Copy, Debug)]
pub struct Entry {
    pub key: Fingerprint,
    pub record: Record,
}

/// Rows hold pairwise distinct fingerprints.
pub open spec fn keys_unique(s: Seq<Entry>) -> bool {
    forall|i: int, j: int|
        0 <= i < s.len() && 0 <= j < s.len() && i != j ==> #[trigger] s[i].key != #[trigger] s[j].key
}

/// Some row holds `k`.
pub open spec fn has_key(s: Seq<Entry>, k: Fingerprint) -> bool {
    exists|i: int| 0 <= i < s.len() && #[trigger] s[i].key == k
}

/// The mapping from fingerprint to record that a sequence of rows stands for.
pub open spec fn table_map(s: Seq<Entry>) -> Map<Fingerprint, Record> {
    Map::new(
        |k: Fingerprint| has_key(s, k),
        |k: Fingerprint| s[choose|i: int| 0 <= i < s.len() && #[trigger] s[i].key == k].record,
    )
}

/// A fresh record, as the first observation creates it.
pub open spec fn fresh_record(flags: u8, now: i64) -> Record {
    Record { first_seen: now, repeat_count: 0, flags }
}

/// The record after one more observation: only the count moves, and it
/// stops at the largest value it can hold.
pub open spec fn bumped(r: Record) -> Record {
    Record {
        repeat_count: if r.repeat_count < u64::MAX {
            (r.repeat_count + 1) as u64
        } else {
            r.repeat_count
        },
        ..r
    }
}

/// The table after observing `k` with `flags` at time `now`.
pub open spec fn observe_spec(m: Map<Fingerprint, Record>, k: Fingerprint, flags: u8, now: i64) -> Map<
    Fingerprint,
    Record,
> {
    if m.contains_key(k) {
        m.insert(k, bumped(m[k]))
    } else {
        m.insert(k, fresh_record(flags, now))
    }
}

/// A record is past the retention window when its age exceeds `threshold`.
pub open spec fn is_aged(r: Record, now: i64, threshold: i64) -> bool {
    now as int - r.first_seen as int > threshold as int
}

/// The rows that a sweep reports: those repeated at least twice.
pub open spec fn is_reported() -> spec_fn(Entry) -> bool {
    |e: Entry| e.record.repeat_count >= 2
}

/// The rows that a sweep keeps: those still inside the retention window.
pub open spec fn is_kept(now: i64, threshold: i64) -> spec_fn(Entry) -> bool {
    |e: Entry| !is_aged(e.record, now, threshold)
}

/// The table after a sweep at time `now`.
pub open spec fn sweep_spec(m: Map<Fingerprint, Record>, now: i64, threshold: i64) -> Map<
    Fingerprint,
    Record,
> {
    Map::new(|k: Fingerprint| m.contains_key(k) && !is_aged(m[k], now, threshold), |k: Fingerprint| m[k])
}

/// The records that a sweep of `m` reports.
pub open spec fn report_spec(m: Map<Fingerprint, Record>) -> Map<Fingerprint, Record> {
    Map::new(|k: Fingerprint| m.contains_key(k) && m[k].repeat_count >= 2, |k: Fingerprint| m[k])
}

proof fn lemma_map_at(s: Seq<Entry>, i: int)
    requires
        keys_unique(s),
        0 <= i < s.len(),
    ensures
        table_map(s).contains_key(s[i].key),
        table_map(s)[s[i].key] == s[i].record,
{
    let k = s[i].key;
    assert(has_key(s, k));
    let j = choose|j: int| 0 <= j < s.len() && #[trigger] s[j].key == k;
    assert(j == i);
}

proof fn lemma_map_update(s: Seq<Entry>, i: int, r: Record)
    requires
        keys_unique(s),
        0 <= i < s.len(),
    ensures
        keys_unique(s.update(i, Entry { key: s[i].key, record: r })),
        table_map(s.update(i, Entry { key: s[i].key, record: r })) == table_map(s).insert(
            s[i].key,
            r,
        ),
{
    let k = s[i].key;
    let t = s.update(i, Entry { key: k, record: r });
    assert(keys_unique(t)) by {
        assert forall|a: int, b: int|
            0 <= a < t.len() && 0 <= b < t.len() && a != b implies #[trigger] t[a].key
            != #[trigger] t[b].key by {
            assert(t[a].key == s[a].key);
            assert(t[b].key == s[b].key);
        }
    }
    let m = table_map(s).insert(k, r);
    assert forall|q: Fingerprint| #[trigger] table_map(t).contains_key(q) <==> m.contains_key(q) by {
        if has_key(s, q) {
            let j = choose|j: int| 0 <= j < s.len() && #[trigger] s[j].key == q;
            assert(t[j].key == q);
        }
        if has_key(t, q) {
            let j = choose|j: int| 0 <= j < t.len() && #[trigger] t[j].key == q;
            assert(s[j].key == q);
        }
    }
    assert forall|q: Fingerprint| #[trigger] table_map(t).contains_key(q) implies table_map(t)[q]
        == m[q] by {
        let j = choose|j: int| 0 <= j < t.len() && #[trigger] t[j].key == q;
        lemma_map_at(t, j);
        if j != i {
            lemma_map_at(s, j);
        }
    }
    assert(table_map(t) =~= m);
}

proof fn lemma_map_push(s: Seq<Entry>, e: Entry)
    requires
        keys_unique(s),
        !has_key(s, e.key),
    ensures
        keys_unique(s.push(e)),
        table_map(s.push(e)) == table_map(s).insert(e.key, e.record),
{
    let t = s.push(e);
    assert(keys_unique(t)) by {
        assert forall|a: int, b: int|
            0 <= a < t.len() && 0 <= b < t.len() && a != b implies #[trigger] t[a].key
            != #[trigger] t[b].key by {
            if a < s.len() {
                assert(t[a] == s[a]);
            }
            if b < s.len() {
                assert(t[b] == s[b]);
            }
        }
    }
    let m = table_map(s).insert(e.key, e.record);
    assert forall|q: Fingerprint| #[trigger] table_map(t).contains_key(q) <==> m.contains_key(q) by {
        if has_key(s, q) {
            let j = choose|j: int| 0 <= j < s.len() && #[trigger] s[j].key == q;
            assert(t[j].key == q);
        }
        if q == e.key {
            assert(t[s.len() as int].key == q);
        }
    }
    assert forall|q: Fingerprint| #[trigger] table_map(t).contains_key(q) implies table_map(t)[q]
        == m[q] by {
        let j = choose|j: int| 0 <= j < t.len() && #[trigger] t[j].key == q;
        lemma_map_at(t, j);
        if j < s.len() {
            assert(t[j] == s[j]);
            lemma_map_at(s, j);
        }
    }
    assert(table_map(t) =~= m);
}

proof fn lemma_map_len(s: Seq<Entry>)
    requires
        keys_unique(s),
    ensures
        table_map(s).dom().finite(),
        table_map(s).len() == s.len(),
    decreases s.len(),
{
    if s.len() == 0 {
        assert(table_map(s) =~= Map::<Fingerprint, Record>::empty());
    } else {
        let d = s.drop_last();
        let e = s.last();
        assert(s == d.push(e));
        assert(keys_unique(d)) by {
            assert forall|a: int, b: int|
                0 <= a < d.len() && 0 <= b < d.len() && a != b implies #[trigger] d[a].key
                != #[trigger] d[b].key by {
                assert(d[a] == s[a] && d[b] == s[b]);
            }
        }
        assert(!has_key(d, e.key)) by {
            if has_key(d, e.key) {
                let j = choose|j: int| 0 <= j < d.len() && #[trigger] d[j].key == e.key;
                assert(s[j].key == s[s.len() - 1].key);
            }
        }
        lemma_map_len(d);
        lemma_map_push(d, e);
    }
}

/// The rows of `m` whose row satisfies `p`.
pub open spec fn restrict_rows(m: Map<Fingerprint, Record>, p: spec_fn(Entry) -> bool) -> Map<
    Fingerprint,
    Record,
> {
    Map::new(
        |k: Fingerprint| m.contains_key(k) && p(Entry { key: k, record: m[k] }),
        |k: Fingerprint| m[k],
    )
}

proof fn lemma_map_filter(s: Seq<Entry>, p: spec_fn(Entry) -> bool)
    requires
        keys_unique(s),
    ensures
        keys_unique(s.filter(p)),
        table_map(s.filter(p)) == restrict_rows(table_map(s), p),
    decreases s.len(),
{
    if s.len() == 0 {
        reveal(Seq::filter);
        assert(table_map(s.filter(p)) =~= restrict_rows(table_map(s), p));
    } else {
        let d = s.drop_last();
        let e = s.last();
        assert(s == d.push(e));
        assert(keys_unique(d)) by {
            assert forall|a: int, b: int|
                0 <= a < d.len() && 0 <= b < d.len() && a != b implies #[trigger] d[a].key
                != #[trigger] d[b].key by {
                assert(d[a] == s[a] && d[b] == s[b]);
            }
        }
        assert(!has_key(d, e.key)) by {
            if has_key(d, e.key) {
                let j = choose|j: int| 0 <= j < d.len() && #[trigger] d[j].key == e.key;
                assert(s[j].key == s[s.len() - 1].key);
            }
        }
        lemma_map_filter(d, p);
        lemma_map_push(d, e);
        d.lemma_filter_push(e, p);
        let fd = d.filter(p);
        let target = restrict_rows(table_map(s), p);
        if p(e) {
            assert(!has_key(fd, e.key)) by {
                if has_key(fd, e.key) {
                    assert(table_map(fd).contains_key(e.key));
                }
            }
            lemma_map_push(fd, e);
            assert(table_map(s.filter(p)) =~= target);
        } else {
            assert(table_map(s.filter(p)) =~= target);
        }
    }
}

/// The table after observing `k` once for each (flags, time) pair of `obs`,
/// in order.
pub open spec fn observe_many(m: Map<Fingerprint, Record>, k: Fingerprint, obs: Seq<(u8, i64)>) -> Map<
    Fingerprint,
    Record,
>
    decreases obs.len(),
{
    if obs.len() == 0 {
        m
    } else {
        observe_spec(observe_many(m, k, obs.drop_last()), k, obs.last().0, obs.last().1)
    }
}

/// Observing a fingerprint that the table does not hold N times in a row
/// leaves a record with repeat count N - 1 whose time and flags are those of
/// the first observation; the rest of the table is untouched.
pub proof fn lemma_repeat_count(m: Map<Fingerprint, Record>, k: Fingerprint, obs: Seq<(u8, i64)>)
    requires
        !m.contains_key(k),
        obs.len() >= 1,
        obs.len() - 1 <= u64::MAX,
    ensures
        observe_many(m, k, obs).contains_key(k),
        observe_many(m, k, obs)[k] == (Record {
            first_seen: obs[0].1,
            repeat_count: (obs.len() - 1) as u64,
            flags: obs[0].0,
        }),
        observe_many(m, k, obs).remove(k) == m,
    decreases obs.len(),
{
    let d = obs.drop_last();
    if obs.len() == 1 {
        assert(observe_many(m, k, d) == m);
        assert(obs.last() == obs[0]);
        assert(m.insert(k, fresh_record(obs[0].0, obs[0].1)).remove(k) =~= m);
    } else {
        lemma_repeat_count(m, k, d);
        assert(d[0] == obs[0]);
        let before = observe_many(m, k, d);
        assert(before.insert(k, bumped(before[k])).remove(k) =~= before.remove(k));
    }
}

/// Observations of two fingerprints that differ in any component make two
/// separate records, each created by its own observation.
pub proof fn lemma_distinct_records(
    m: Map<Fingerprint, Record>,
    k1: Fingerprint,
    f1: u8,
    t1: i64,
    k2: Fingerprint,
    f2: u8,
    t2: i64,
)
    requires
        !m.contains_key(k1),
        !m.contains_key(k2),
        k1.destination != k2.destination || k1.port != k2.port || k1.seq != k2.seq || k1.ack
            != k2.ack || k1.payload_size != k2.payload_size,
    ensures
        observe_spec(observe_spec(m, k1, f1, t1), k2, f2, t2)[k1] == fresh_record(f1, t1),
        observe_spec(observe_spec(m, k1, f1, t1), k2, f2, t2)[k2] == fresh_record(f2, t2),
        observe_spec(observe_spec(m, k1, f1, t1), k2, f2, t2).dom() == m.dom().insert(k1).insert(
            k2,
        ),
{
    assert(observe_spec(observe_spec(m, k1, f1, t1), k2, f2, t2).dom() =~= m.dom().insert(
        k1,
    ).insert(k2));
}

/// A sweep keeps, unchanged, every record whose age is within the threshold,
/// and removes every record older than it, whatever its repeat count.
pub proof fn lemma_sweep_retention(m: Map<Fingerprint, Record>, now: i64, threshold: i64, k: Fingerprint)
    requires
        m.contains_key(k),
    ensures
        now - m[k].first_seen <= threshold ==> sweep_spec(m, now, threshold).contains_key(k)
            && sweep_spec(m, now, threshold)[k] == m[k],
        now - m[k].first_seen > threshold ==> !sweep_spec(m, now, threshold).contains_key(k),
{
}

/// A sweep reports exactly the records with repeat count at least two that
/// the table held when it began, each once and as it was; whether a record
/// is reported does not depend on whether the same sweep evicts it.
pub proof fn lemma_sweep_report(
    rows: Seq<Entry>,
    report: Seq<Entry>,
    now: i64,
    threshold: i64,
    k: Fingerprint,
)
    requires
        keys_unique(rows),
        keys_unique(report),
        table_map(report) == report_spec(table_map(rows)),
    ensures
        has_key(report, k) <==> (table_map(rows).contains_key(k) && table_map(rows)[k].repeat_count
            >= 2),
        has_key(report, k) ==> table_map(report)[k] == table_map(rows)[k],
        forall|i: int, j: int|
            0 <= i < report.len() && 0 <= j < report.len() && #[trigger] report[i].key
                == #[trigger] report[j].key ==> i == j,
        has_key(report, k) && is_aged(table_map(rows)[k], now, threshold) ==> !sweep_spec(
            table_map(rows),
            now,
            threshold,
        ).contains_key(k),
{
    assert(table_map(report).contains_key(k) == has_key(report, k));
}

/// Observing one fingerprint never changes the presence or the record of
/// any other fingerprint.
pub proof fn lemma_observe_other_keys(
    m: Map<Fingerprint, Record>,
    k: Fingerprint,
    flags: u8,
    now: i64,
    j: Fingerprint,
)
    requires
        j != k,
    ensures
        observe_spec(m, k, flags, now).contains_key(j) == m.contains_key(j),
        m.contains_key(j) ==> observe_spec(m, k, flags, now)[j] == m[j],
{
}

/// An observation keeps one record per fingerprint and grows the table by
/// one exactly when the fingerprint was not held.
pub proof fn lemma_observe_size(m: Map<Fingerprint, Record>, k: Fingerprint, flags: u8, now: i64)
    requires
        m.dom().finite(),
    ensures
        observe_spec(m, k, flags, now).dom().finite(),
        observe_spec(m, k, flags, now).contains_key(k),
        observe_spec(m, k, flags, now).len() == m.len() + (if m.contains_key(k) {
            0int
        } else {
            1int
        }),
{
}

/// A sweep at a time when no record is past the threshold changes nothing:
/// under sweeps that evict nothing, no record is lost.
pub proof fn lemma_sweep_nothing_aged(m: Map<Fingerprint, Record>, now: i64, threshold: i64)
    requires
        forall|k: Fingerprint| #[trigger] m.contains_key(k) ==> !is_aged(m[k], now, threshold),
    ensures
        sweep_spec(m, now, threshold) == m,
{
    assert(sweep_spec(m, now, threshold) =~= m);
}

/// The table after each (fingerprint, flags, time) observation of `obs`, in
/// order.
pub open spec fn observe_all(m: Map<Fingerprint, Record>, obs: Seq<(Fingerprint, u8, i64)>) -> Map<
    Fingerprint,
    Record,
>
    decreases obs.len(),
{
    if obs.len() == 0 {
        m
    } else {
        let o = obs.last();
        observe_spec(observe_all(m, obs.drop_last()), o.0, o.1, o.2)
    }
}

/// Whether an observation is of fingerprint `k`.
pub open spec fn is_of(k: Fingerprint) -> spec_fn((Fingerprint, u8, i64)) -> bool {
    |o: (Fingerprint, u8, i64)| o.0 == k
}

/// Records are independent: after any run of observations, the record of
/// `k` is what the observations of `k` alone would have made of it.
pub proof fn lemma_records_independent(
    m: Map<Fingerprint, Record>,
    obs: Seq<(Fingerprint, u8, i64)>,
    k: Fingerprint,
)
    ensures
        observe_all(m, obs).contains_key(k) == observe_all(m, obs.filter(is_of(k))).contains_key(k),
        observe_all(m, obs).contains_key(k) ==> observe_all(m, obs)[k] == observe_all(
            m,
            obs.filter(is_of(k)),
        )[k],
    decreases obs.len(),
{
    if obs.len() == 0 {
        reveal(Seq::filter);
    } else {
        let d = obs.drop_last();
        let o = obs.last();
        assert(obs == d.push(o));
        lemma_records_independent(m, d, k);
        d.lemma_filter_push(o, is_of(k));
        if o.0 == k {
            let f = d.filter(is_of(k));
            assert(f.push(o).drop_last() == f);
            assert(f.push(o).last() == o);
        }
    }
}

/// One operation on the table: `(true, _, _, now)` is a sweep at `now`,
/// `(false, k, flags, now)` an observation of `k` with `flags` at `now`.
pub type Op = (bool, Fingerprint, u8, i64);

/// The table after each operation of `ops`, in order, sweeping with
/// `threshold`.
pub open spec fn run_ops(m: Map<Fingerprint, Record>, ops: Seq<Op>, threshold: i64) -> Map<
    Fingerprint,
    Record,
>
    decreases ops.len(),
{
    if ops.len() == 0 {
        m
    } else {
        let o = ops.last();
        let before = run_ops(m, ops.drop_last(), threshold);
        if o.0 {
            sweep_spec(before, o.3, threshold)
        } else {
            observe_spec(before, o.1, o.2, o.3)
        }
    }
}

/// The observations among `ops`, in order.
pub open spec fn observations(ops: Seq<Op>) -> Seq<(Fingerprint, u8, i64)>
    decreases ops.len(),
{
    if ops.len() == 0 {
        Seq::empty()
    } else {
        let o = ops.last();
        if o.0 {
            observations(ops.drop_last())
        } else {
            observations(ops.drop_last()).push((o.1, o.2, o.3))
        }
    }
}

/// Observations interleaved with sweeps lose nothing: as long as no sweep
/// finds a record past the threshold, the table is what the observations
/// alone make of it.
pub proof fn lemma_sweeps_lose_nothing(m: Map<Fingerprint, Record>, ops: Seq<Op>, threshold: i64)
    requires
        forall|i: int, k: Fingerprint|
            0 <= i < ops.len() && ops[i].0 && #[trigger] run_ops(m, ops.take(i), threshold).contains_key(k)
                ==> !is_aged(run_ops(m, ops.take(i), threshold)[k], ops[i].3, threshold),
    ensures
        run_ops(m, ops, threshold) == observe_all(m, observations(ops)),
    decreases ops.len(),
{
    if ops.len() > 0 {
        let d = ops.drop_last();
        let o = ops.last();
        assert forall|i: int, k: Fingerprint|
            0 <= i < d.len() && d[i].0 && #[trigger] run_ops(m, d.take(i), threshold).contains_key(k)
                implies !is_aged(run_ops(m, d.take(i), threshold)[k], d[i].3, threshold) by {
            assert(d.take(i) == ops.take(i));
            assert(d[i] == ops[i]);
        }
        lemma_sweeps_lose_nothing(m, d, threshold);
        if o.0 {
            let n = (ops.len() - 1) as int;
            assert(ops.take(n) == d);
            lemma_sweep_nothing_aged(run_ops(m, d, threshold), o.3, threshold);
        } else {
            let x = (o.1, o.2, o.3);
            assert(observations(d).push(x).drop_last() == observations(d));
            assert(observations(d).push(x).last() == x);
        }
    }
}

/// The table of observed segments: one record per distinct fingerprint.
/// Rows are kept in a vector and searched in order, so each operation takes
/// time linear in the number of rows held.
pub struct DedupTable {
    entries: Vec<Entry>,
}

impl View for DedupTable {
    type V = Map<Fingerprint, Record>;

    closed spec fn view(&self) -> Map<Fingerprint, Record> {
        table_map(self.entries@)
    }
}

impl DedupTable {
    /// The rows in the order in which they are stored.
    pub closed spec fn rows(&self) -> Seq<Entry> {
        self.entries@
    }

    /// No two rows share a fingerprint.
    pub closed spec fn wf(&self) -> bool {
        keys_unique(self.entries@)
    }

    /// An empty table.
    pub fn new() -> (r: DedupTable)
        ensures
            r.wf(),
            r@ == Map::<Fingerprint, Record>::empty(),
    {
        let r = DedupTable { entries: Vec::new() };
        assert(r@ =~= Map::<Fingerprint, Record>::empty());
        r
    }
    /// The table's view is a finite map.
    pub proof fn lemma_view_finite(&self)
        requires
            self.wf(),
        ensures
            self@.dom().finite(),
    {
        lemma_map_len(self.entries@);
    }

    /// Number of distinct fingerprints held.
    pub fn len(&self) -> (r: usize)
        requires
            self.wf(),
        ensures
            r == self@.len(),
            self@.dom().finite(),
    {
        proof {
            lemma_map_len(self.entries@);
        }
        self.entries.len()
    }

    /// Position of the row holding `k`, if any.
    fn find(&self, k: &Fingerprint) -> (r: Option<usize>)
        requires
            self.wf(),
        ensures
            r is None <==> !self@.contains_key(*k),
            r is Some ==> r->0 < self.entries@.len() && self.entries@[r->0 as int].key == *k,
    {
        let mut i: usize = 0;
        while i < self.entries.len()
            invariant
                i <= self.entries@.len(),
                forall|j: int| 0 <= j < i ==> #[trigger] self.entries@[j].key != *k,
            decreases self.entries@.len() - i,
        {
            if self.entries[i].key == *k {
                return Some(i);
            }
            i = i + 1;
        }
        None
    }

    /// The record held for `k`, if any.
    pub fn get(&self, k: &Fingerprint) -> (r: Option<Record>)
        requires
            self.wf(),
        ensures
            r == (if self@.contains_key(*k) {
                Some(self@[*k])
            } else {
                None::<Record>
            }),
    {
        match self.find(k) {
            Some(i) => {
                proof {
                    lemma_map_at(self.entries@, i as int);
                }
                Some(self.entries[i].record)
            },
            None => None,
        }
    }

    /// Records one observation of `k` at time `now`: a fingerprint not yet
    /// held gets a fresh record with the given flags; a held one has its
    /// repeat count raised by one, its first time and flags kept.
    pub fn observe_at(&mut self, k: Fingerprint, flags: u8, now: i64)
        requires
            old(self).wf(),
        ensures
            final(self).wf(),
            final(self)@ == observe_spec(old(self)@, k, flags, now),
    {
        match self.find(&k) {
            Some(i) => {
                let old_record = self.entries[i].record;
                let count = if old_record.repeat_count < u64::MAX {
                    old_record.repeat_count + 1
                } else {
                    old_record.repeat_count
                };
                let record = Record { repeat_count: count, ..old_record };
                proof {
                    lemma_map_at(self.entries@, i as int);
                    lemma_map_update(self.entries@, i as int, record);
                }
                self.entries.set(i, Entry { key: k, record });
            },
            None => {
                let e = Entry { key: k, record: Record { first_seen: now, repeat_count: 0, flags } };
                proof {
                    lemma_map_push(self.entries@, e);
                }
                self.entries.push(e);
            },
        }
    }
    /// One pass over the table at time `now`. Returns every row whose repeat
    /// count is at least two, in storage order, and then removes every row
    /// older than `threshold`, reported or not.
    pub fn sweep_at(&mut self, now: i64, threshold: i64) -> (report: Vec<Entry>)
        requires
            old(self).wf(),
        ensures
            final(self).wf(),
            final(self)@ == sweep_spec(old(self)@, now, threshold),
            final(self).rows() == old(self).rows().filter(is_kept(now, threshold)),
            report@ == old(self).rows().filter(is_reported()),
            keys_unique(report@),
            table_map(report@) == report_spec(old(self)@),
    {
        let mut report: Vec<Entry> = Vec::new();
        let mut kept: Vec<Entry> = Vec::new();
        let ghost rows = self.entries@;
        let mut i: usize = 0;
        proof {
            reveal(Seq::filter);
            assert(rows.take(0) =~= Seq::<Entry>::empty());
        }
        while i < self.entries.len()
            invariant
                self.entries@ == rows,
                i <= rows.len(),
                report@ == rows.take(i as int).filter(is_reported()),
                kept@ == rows.take(i as int).filter(is_kept(now, threshold)),
            decreases rows.len() - i,
        {
            let e = self.entries[i];
            proof {
                assert(rows.take(i + 1) =~= rows.take(i as int).push(e));
                rows.take(i as int).lemma_filter_push(e, is_reported());
                rows.take(i as int).lemma_filter_push(e, is_kept(now, threshold));
            }
            if e.record.repeat_count >= 2 {
                report.push(e);
            }
            if !((now as i128) - (e.record.first_seen as i128) > threshold as i128) {
                kept.push(e);
            }
            i = i + 1;
        }
        proof {
            assert(rows.take(rows.len() as int) =~= rows);
            lemma_map_filter(rows, is_reported());
            lemma_map_filter(rows, is_kept(now, threshold));
            assert(report_spec(table_map(rows)) =~= restrict_rows(table_map(rows), is_reported()));
            assert(sweep_spec(table_map(rows), now, threshold) =~= restrict_rows(
                table_map(rows),
                is_kept(now, threshold),
            ));
        }
        self.entries = kept;
        report
    }
    /// Records one observation of `k` at the current time; see `observe_at`.
    /// A held fingerprint is updated the same way whatever the time.
    pub fn observe(&mut self, k: Fingerprint, flags: u8)
        requires
            old(self).wf(),
        ensures
            final(self).wf(),
            old(self)@.contains_key(k) ==> final(self)@ == old(self)@.insert(k, bumped(old(self)@[k])),
            exists|t: i64| final(self)@ == #[trigger] observe_spec(old(self)@, k, flags, t),
    {
        let now = now_seconds();
        self.observe_at(k, flags, now);
    }

    /// Sweeps the table at the current time with the retention window
    /// `RETENTION_SECONDS`; see `sweep_at`. What is reported does not depend
    /// on the time.
    pub fn sweep(&mut self) -> (report: Vec<Entry>)
        requires
            old(self).wf(),
        ensures
            final(self).wf(),
            exists|t: i64| final(self)@ == #[trigger] sweep_spec(old(self)@, t, RETENTION_SECONDS),
            report@ == old(self).rows().filter(is_reported()),
            keys_unique(report@),
            table_map(report@) == report_spec(old(self)@),
    {
        let now = now_seconds();
        self.sweep_at(now, RETENTION_SECONDS)
    }
}

} // verus!
