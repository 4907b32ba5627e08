//! The synchronization pipeline: drives a parsed record sequence through a
//! store write operation, one record at a time and in order, counting
//! successes and failures, and never aborting on a failed write.

use vstd::prelude::*;
use vstd::pervasive::VecAdditionalExecFns;

use crate::table::{field_views, rec_views, Record, RecordV};

verus! {

/// How many of the outcomes are successes.
pub open spec fn count_true(s: Seq<bool>) -> nat
    decreases s.len(),
{
    if s.len() == 0 {
        0nat
    } else {
        (if s[0] {
            1nat
        } else {
            0nat
        }) + count_true(s.drop_first())
    }
}

pub proof fn lemma_count_true_le_len(s: Seq<bool>)
    ensures
        count_true(s) <= s.len(),
    decreases s.len(),
{
    if s.len() > 0 {
        lemma_count_true_le_len(s.drop_first());
    }
}

pub proof fn lemma_count_true_push(s: Seq<bool>, b: bool)
    ensures
        count_true(s.push(b)) == count_true(s) + (if b {
            1nat
        } else {
            0nat
        }),
    decreases s.len(),
{
    if s.len() == 0 {
        assert(s.push(b)[0] == b);
        assert(s.push(b).drop_first() =~= Seq::<bool>::empty());
        assert(count_true(s.push(b).drop_first()) == 0);
        assert(count_true(s) == 0);
    } else {
        assert(s.push(b)[0] == s[0]);
        assert(s.push(b).drop_first() =~= s.drop_first().push(b));
        lemma_count_true_push(s.drop_first(), b);
        assert(count_true(s.push(b)) == (if s[0] {
            1nat
        } else {
            0nat
        }) + count_true(s.drop_first().push(b)));
    }
}

pub proof fn lemma_count_all_true(s: Seq<bool>)
    requires
        forall|k: int| 0 <= k < s.len() ==> s[k],
    ensures
        count_true(s) == s.len(),
    decreases s.len(),
{
    if s.len() > 0 {
        lemma_count_all_true(s.drop_first());
    }
}

/// If exactly one outcome is a failure, the successes number one fewer than
/// the outcomes: the summary then reports Written = N - 1 and Failed = 1.
pub proof fn lemma_single_failure(outcomes: Seq<bool>, i: int)
    requires
        0 <= i < outcomes.len(),
        !outcomes[i],
        forall|k: int| 0 <= k < outcomes.len() && k != i ==> outcomes[k],
    ensures
        count_true(outcomes) == outcomes.len() - 1,
    decreases outcomes.len(),
{
    if i == 0 {
        lemma_count_all_true(outcomes.drop_first());
    } else {
        lemma_single_failure(outcomes.drop_first(), i - 1);
    }
}

/// The counts a finished run reports: how many records were written and how
/// many failed.
#[derive(Clone, Copy, Debug, PartialEq, Eq, Structural)]
pub struct SyncSummary {
    pub written: usize,
    pub failed: usize,
}

/// The pipeline's accumulator. One outcome is recorded per record, in
/// sequence order: a success increments Written, a failure increments Failed,
/// and a failure never aborts the run.
pub struct SyncPipeline {
    written: usize,
    failed: usize,
    outcomes: Ghost<Seq<bool>>,
}

impl SyncPipeline {
    /// The per-record outcomes recorded so far, in order; true is a success.
    pub closed spec fn outcomes(self) -> Seq<bool> {
        self.outcomes@
    }

    /// The counters agree with the recorded outcomes.
    pub closed spec fn well_formed(self) -> bool {
        self.written == count_true(self.outcomes@) && self.failed == self.outcomes@.len()
            - count_true(self.outcomes@)
    }

    /// A fresh accumulator with no outcome recorded.
    pub fn new() -> (p: Self)
        ensures
            p.well_formed(),
            p.outcomes() == Seq::<bool>::empty(),
    {
        SyncPipeline { written: 0, failed: 0, outcomes: Ghost(Seq::empty()) }
    }

    /// Records the outcome of one record's write.
    pub fn record_outcome(&mut self, ok: bool)
        requires
            old(self).well_formed(),
            old(self).outcomes().len() < usize::MAX,
        ensures
            final(self).well_formed(),
            final(self).outcomes() == old(self).outcomes().push(ok),
    {
        let ghost prev = self.outcomes@;
        proof {
            lemma_count_true_le_len(prev);
            lemma_count_true_push(prev, ok);
        }
        if ok {
            self.written = self.written + 1;
        } else {
            self.failed = self.failed + 1;
        }
        self.outcomes = Ghost(prev.push(ok));
    }

    /// The finished run's report: Written is the number of successes, Failed
    /// the number of failures, and together they cover every outcome.
    pub fn summary(&self) -> (s: SyncSummary)
        requires
            self.well_formed(),
        ensures
            s.written == count_true(self.outcomes()),
            s.failed == self.outcomes().len() - count_true(self.outcomes()),
    {
        SyncSummary { written: self.written, failed: self.failed }
    }
}

/// A store state: each key maps to the full field/value sequence last written
/// under it.
pub type StoreView = Map<Seq<char>, Seq<(Seq<char>, Seq<char>)>>;

/// The store state after writing each record in order: every write replaces
/// all fields under the record's key, so for a duplicated key the last record
/// in the sequence wins.
pub open spec fn apply_records(m: StoreView, recs: Seq<RecordV>) -> StoreView
    decreases recs.len(),
{
    if recs.len() == 0 {
        m
    } else {
        apply_records(m.insert(recs[0].key, recs[0].fields), recs.drop_first())
    }
}

pub proof fn lemma_apply_push(m: StoreView, recs: Seq<RecordV>, r: RecordV)
    ensures
        apply_records(m, recs.push(r)) == apply_records(m, recs).insert(r.key, r.fields),
    decreases recs.len(),
{
    if recs.len() == 0 {
        assert(recs.push(r)[0] == r);
        assert(recs.push(r).drop_first() =~= Seq::<RecordV>::empty());
        assert(apply_records(m.insert(r.key, r.fields), recs.push(r).drop_first()) == m.insert(
            r.key,
            r.fields,
        ));
        assert(apply_records(m, recs) == m);
    } else {
        assert(recs.push(r)[0] == recs[0]);
        assert(recs.push(r).drop_first() =~= recs.drop_first().push(r));
        lemma_apply_push(m.insert(recs[0].key, recs[0].fields), recs.drop_first(), r);
        assert(apply_records(m, recs.push(r)) == apply_records(
            m.insert(recs[0].key, recs[0].fields),
            recs.drop_first().push(r),
        ));
        assert(apply_records(m, recs) == apply_records(
            m.insert(recs[0].key, recs[0].fields),
            recs.drop_first(),
        ));
    }
}

/// A run only overwrites the keys it writes: the store after a run is the
/// prior store overlaid with what the run writes into an empty store.
pub proof fn lemma_apply_as_union(m: StoreView, recs: Seq<RecordV>)
    ensures
        apply_records(m, recs) == m.union_prefer_right(
            apply_records(Map::<Seq<char>, Seq<(Seq<char>, Seq<char>)>>::empty(), recs),
        ),
    decreases recs.len(),
{
    let empty = Map::<Seq<char>, Seq<(Seq<char>, Seq<char>)>>::empty();
    if recs.len() == 0 {
        assert(m.union_prefer_right(empty) =~= m);
    } else {
        let k = recs[0].key;
        let v = recs[0].fields;
        lemma_apply_as_union(m.insert(k, v), recs.drop_first());
        lemma_apply_as_union(empty.insert(k, v), recs.drop_first());
        let w = apply_records(empty, recs.drop_first());
        assert(m.insert(k, v).union_prefer_right(w) =~= m.union_prefer_right(
            empty.insert(k, v).union_prefer_right(w),
        ));
    }
}

/// Idempotence: running the same record sequence once more against the store
/// a run produced changes nothing.
pub proof fn lemma_apply_records_idempotent(m: StoreView, recs: Seq<RecordV>)
    ensures
        apply_records(apply_records(m, recs), recs) == apply_records(m, recs),
{
    let empty = Map::<Seq<char>, Seq<(Seq<char>, Seq<char>)>>::empty();
    lemma_apply_as_union(m, recs);
    lemma_apply_as_union(apply_records(m, recs), recs);
    let w = apply_records(empty, recs);
    assert(m.union_prefer_right(w).union_prefer_right(w) =~= m.union_prefer_right(w));
}

/// The keys of a record sequence, in order.
pub open spec fn rec_keys(recs: Seq<RecordV>) -> Seq<Seq<char>> {
    recs.map_values(|r: RecordV| r.key)
}

proof fn lemma_apply_fresh(m: StoreView, recs: Seq<RecordV>)
    requires
        rec_keys(recs).no_duplicates(),
        m.dom().finite(),
        forall|i: int| 0 <= i < recs.len() ==> !m.dom().contains((#[trigger] recs[i]).key),
    ensures
        apply_records(m, recs).dom() == m.dom() + rec_keys(recs).to_set(),
        apply_records(m, recs).dom().finite(),
        apply_records(m, recs).dom().len() == m.dom().len() + recs.len(),
        forall|i: int|
            0 <= i < recs.len() ==> apply_records(m, recs)[(#[trigger] recs[i]).key]
                == recs[i].fields,
        forall|k: Seq<char>|
            m.dom().contains(k) && !rec_keys(recs).to_set().contains(k) ==> apply_records(m, recs)[
                k
            ] == m[k],
    decreases recs.len(),
{
    if recs.len() == 0 {
        assert(m.dom() + rec_keys(recs).to_set() =~= m.dom());
    } else {
        let k0 = recs[0].key;
        let v0 = recs[0].fields;
        let m1 = m.insert(k0, v0);
        let rest = recs.drop_first();
        assert(rec_keys(rest) =~= rec_keys(recs).drop_first());
        assert(rec_keys(recs)[0] == k0);
        assert forall|i: int| 0 <= i < rest.len() implies !m1.dom().contains(
            (#[trigger] rest[i]).key,
        ) by {
            assert(rest[i] == recs[i + 1]);
            assert(rec_keys(recs)[i + 1] == recs[i + 1].key);
            assert(recs[i + 1].key != k0);
            assert(!m.dom().contains(recs[i + 1].key));
        }
        lemma_apply_fresh(m1, rest);
        assert(!rec_keys(rest).to_set().contains(k0)) by {
            if rec_keys(rest).to_set().contains(k0) {
                let j = choose|j: int| 0 <= j < rec_keys(rest).len() && rec_keys(rest)[j] == k0;
                assert(rec_keys(recs)[j + 1] == k0);
            }
        }
        assert(m1.dom() =~= m.dom().insert(k0));
        assert(m1.dom() + rec_keys(rest).to_set() =~= m.dom() + rec_keys(recs).to_set()) by {
            let ka = rec_keys(recs);
            let kb = rec_keys(rest);
            assert forall|k: Seq<char>| ka.to_set().contains(k) implies (k == k0
                || kb.to_set().contains(k)) by {
                let j = choose|j: int| 0 <= j < ka.len() && ka[j] == k;
                if j > 0 {
                    assert(kb[j - 1] == k);
                }
            }
            assert forall|k: Seq<char>| kb.to_set().contains(k) implies ka.to_set().contains(
                k,
            ) by {
                let j = choose|j: int| 0 <= j < kb.len() && kb[j] == k;
                assert(ka[j + 1] == k);
            }
            assert(ka.to_set().contains(k0)) by {
                assert(ka[0] == k0);
            }
        }
        assert(!m.dom().contains(k0));
        vstd::set::axiom_set_insert_len(m.dom(), k0);
        assert(apply_records(m, recs) == apply_records(m1, rest));
        assert forall|i: int| 0 <= i < recs.len() implies apply_records(m, recs)[(
        #[trigger] recs[i]).key] == recs[i].fields by {
            if i == 0 {
                assert(!rec_keys(rest).to_set().contains(k0));
                assert(apply_records(m1, rest)[k0] == m1[k0]);
            } else {
                assert(rest[i - 1] == recs[i]);
                assert(apply_records(m1, rest)[(rest[i - 1]).key] == rest[i - 1].fields);
            }
        }
        assert forall|k: Seq<char>|
            m.dom().contains(k) && !rec_keys(recs).to_set().contains(k) implies apply_records(
            m,
            recs,
        )[k] == m[k] by {
            assert(rec_keys(recs)[0] == k0);
            assert(rec_keys(recs).to_set().contains(k0));
            assert(k != k0);
            assert(!rec_keys(rest).to_set().contains(k)) by {
                if rec_keys(rest).to_set().contains(k) {
                    let j = choose|j: int|
                        0 <= j < rec_keys(rest).len() && rec_keys(rest)[j] == k;
                    assert(rec_keys(recs)[j + 1] == k);
                }
            }
            assert(m1.dom().contains(k));
            assert(apply_records(m1, rest)[k] == m1[k]);
            assert(m1[k] == m[k]);
        }
    }
}

/// Round trip for unique keys: a run of N records against an empty store
/// leaves exactly N keys, each record's key holding that record's fields.
pub proof fn lemma_unique_keys_store(recs: Seq<RecordV>)
    requires
        rec_keys(recs).no_duplicates(),
    ensures
        apply_records(Map::<Seq<char>, Seq<(Seq<char>, Seq<char>)>>::empty(), recs).dom()
            == rec_keys(recs).to_set(),
        apply_records(Map::<Seq<char>, Seq<(Seq<char>, Seq<char>)>>::empty(), recs).dom().finite(),
        apply_records(Map::<Seq<char>, Seq<(Seq<char>, Seq<char>)>>::empty(), recs).dom().len()
            == recs.len(),
        forall|i: int|
            0 <= i < recs.len() ==> apply_records(
                Map::<Seq<char>, Seq<(Seq<char>, Seq<char>)>>::empty(),
                recs,
            )[(#[trigger] recs[i]).key] == recs[i].fields,
{
    let empty = Map::<Seq<char>, Seq<(Seq<char>, Seq<char>)>>::empty();
    lemma_apply_fresh(empty, recs);
    assert(empty.dom() + rec_keys(recs).to_set() =~= rec_keys(recs).to_set());
}

/// An in-memory store: a store double that the pipeline can be run against.
/// Each key holds the full field/value sequence last written under it.
pub struct MemStore {
    entries: Vec<(String, Vec<(String, String)>)>,
}

/// The views of the store's entries.
pub open spec fn entry_views(es: Seq<(String, Vec<(String, String)>)>) -> Seq<
    (Seq<char>, Seq<(Seq<char>, Seq<char>)>),
> {
    es.map_values(|e: (String, Vec<(String, String)>)| (e.0@, field_views(e.1@)))
}

/// The keys of the viewed entries, in order.
pub open spec fn view_keys(es: Seq<(Seq<char>, Seq<(Seq<char>, Seq<char>)>)>) -> Seq<Seq<char>> {
    es.map_values(|e: (Seq<char>, Seq<(Seq<char>, Seq<char>)>)| e.0)
}

/// The map an entry sequence denotes.
pub open spec fn map_of(es: Seq<(Seq<char>, Seq<(Seq<char>, Seq<char>)>)>) -> StoreView
    decreases es.len(),
{
    if es.len() == 0 {
        Map::<Seq<char>, Seq<(Seq<char>, Seq<char>)>>::empty()
    } else {
        map_of(es.drop_last()).insert(es.last().0, es.last().1)
    }
}

proof fn lemma_map_of_props(es: Seq<(Seq<char>, Seq<(Seq<char>, Seq<char>)>)>)
    requires
        view_keys(es).no_duplicates(),
    ensures
        map_of(es).dom() == view_keys(es).to_set(),
        map_of(es).dom().finite(),
        map_of(es).dom().len() == es.len(),
        forall|i: int| 0 <= i < es.len() ==> map_of(es)[(#[trigger] es[i]).0] == es[i].1,
    decreases es.len(),
{
    if es.len() == 0 {
        assert(map_of(es).dom() =~= view_keys(es).to_set());
    } else {
        let prefix = es.drop_last();
        assert(view_keys(prefix) =~= view_keys(es).drop_last());
        lemma_map_of_props(prefix);
        let lk = es.last().0;
        assert(!view_keys(prefix).to_set().contains(lk)) by {
            if view_keys(prefix).to_set().contains(lk) {
                let j = choose|j: int|
                    0 <= j < view_keys(prefix).len() && view_keys(prefix)[j] == lk;
                assert(view_keys(es)[j] == lk);
                assert(view_keys(es)[es.len() - 1] == lk);
            }
        }
        assert(map_of(es).dom() =~= view_keys(es).to_set()) by {
            assert(view_keys(es).to_set() =~= view_keys(prefix).to_set().insert(lk)) by {
                assert(forall|k: Seq<char>|
                    view_keys(prefix).to_set().contains(k) ==> view_keys(es).to_set().contains(k))
                    by {
                    assert(forall|j: int|
                        0 <= j < view_keys(prefix).len() ==> view_keys(es)[j] == #[trigger]
                        view_keys(prefix)[j]);
                }
                assert(view_keys(es).to_set().contains(lk)) by {
                    assert(view_keys(es)[es.len() - 1] == lk);
                }
                assert(forall|k: Seq<char>|
                    view_keys(es).to_set().contains(k) && k != lk ==> view_keys(
                        prefix,
                    ).to_set().contains(k)) by {
                    assert(forall|j: int|
                        0 <= j < es.len() - 1 ==> #[trigger] view_keys(es)[j] == view_keys(
                            prefix,
                        )[j]);
                }
            }
        }
        vstd::set::axiom_set_insert_len(map_of(prefix).dom(), lk);
        assert(forall|i: int|
            0 <= i < es.len() - 1 ==> (#[trigger] es[i]).0 == view_keys(prefix)[i] && es[i]
                == prefix[i]);
        assert(forall|i: int|
            0 <= i < es.len() - 1 ==> (#[trigger] es[i]).0 != lk && map_of(es)[es[i].0] == map_of(
                prefix,
            )[es[i].0]);
    }
}

proof fn lemma_map_of_update(
    es: Seq<(Seq<char>, Seq<(Seq<char>, Seq<char>)>)>,
    i: int,
    v: Seq<(Seq<char>, Seq<char>)>,
)
    requires
        0 <= i < es.len(),
        view_keys(es).no_duplicates(),
    ensures
        map_of(es.update(i, (es[i].0, v))) == map_of(es).insert(es[i].0, v),
    decreases es.len(),
{
    let k = es[i].0;
    let up = es.update(i, (k, v));
    if i == es.len() - 1 {
        assert(up.drop_last() =~= es.drop_last());
        assert(up.last() == (k, v));
        assert(map_of(es.drop_last()).insert(k, v) =~= map_of(es.drop_last()).insert(
            k,
            es.last().1,
        ).insert(k, v));
    } else {
        let lk = es.last().0;
        let lv = es.last().1;
        assert(view_keys(es.drop_last()) =~= view_keys(es).drop_last());
        assert(up.drop_last() =~= es.drop_last().update(i, (k, v)));
        assert(es.drop_last()[i] == es[i]);
        lemma_map_of_update(es.drop_last(), i, v);
        assert(up.last() == es.last());
        assert(k != lk) by {
            assert(view_keys(es)[i] == k);
            assert(view_keys(es)[es.len() - 1] == lk);
        }
        assert(map_of(es.drop_last()).insert(k, v).insert(lk, lv) =~= map_of(
            es.drop_last(),
        ).insert(lk, lv).insert(k, v));
    }
}

/// Copies a field/value sequence.
fn clone_fields(fields: &Vec<(String, String)>) -> (r: Vec<(String, String)>)
    ensures
        field_views(r@) == field_views(fields@),
{
    let mut r: Vec<(String, String)> = Vec::new();
    let mut i: usize = 0;
    while i < fields.len()
        invariant
            0 <= i <= fields@.len(),
            r@.len() == i,
            forall|k: int|
                0 <= k < i ==> (#[trigger] r@[k]).0@ == fields@[k].0@ && r@[k].1@
                    == fields@[k].1@,
        decreases fields@.len() - i,
    {
        let f = fields[i].0.clone();
        let v = fields[i].1.clone();
        r.push((f, v));
        i = i + 1;
    }
    proof {
        assert(field_views(r@) =~= field_views(fields@));
    }
    r
}

impl View for MemStore {
    type V = StoreView;

    closed spec fn view(&self) -> StoreView {
        map_of(entry_views(self.entries@))
    }
}

impl MemStore {
    /// The store's keys are pairwise distinct.
    pub closed spec fn inv(self) -> bool {
        view_keys(entry_views(self.entries@)).no_duplicates()
    }

    /// An empty store.
    pub fn new() -> (s: Self)
        ensures
            s.inv(),
            s@ == Map::<Seq<char>, Seq<(Seq<char>, Seq<char>)>>::empty(),
    {
        let s = MemStore { entries: Vec::new() };
        proof {
            assert(entry_views(s.entries@) =~= Seq::<
                (Seq<char>, Seq<(Seq<char>, Seq<char>)>),
            >::empty());
        }
        s
    }

    /// Persists the field/value pairs under the key, replacing all fields
    /// previously stored under it. Writing to this store always succeeds.
    pub fn write(&mut self, key: &String, fields: &Vec<(String, String)>)
        requires
            old(self).inv(),
        ensures
            final(self).inv(),
            final(self)@ == old(self)@.insert(key@, field_views(fields@)),
    {
        let ghost es0 = entry_views(self.entries@);
        let n = self.entries.len();
        let mut i: usize = 0;
        while i < n
            invariant
                0 <= i <= n,
                n == self.entries@.len(),
                self == old(self),
                forall|k: int| 0 <= k < i ==> (#[trigger] entry_views(self.entries@)[k]).0 != key@,
            decreases n - i,
        {
            if self.entries[i].0.eq(key) {
                let new_fields = clone_fields(fields);
                let new_key = key.clone();
                proof {
                    assert(entry_views(self.entries@)[i as int].0 == key@);
                    lemma_map_of_update(es0, i as int, field_views(fields@));
                }
                self.entries.set(i, (new_key, new_fields));
                proof {
                    assert(entry_views(self.entries@) =~= es0.update(
                        i as int,
                        (key@, field_views(fields@)),
                    ));
                    assert(view_keys(entry_views(self.entries@)) =~= view_keys(es0));
                }
                return ;
            }
            i = i + 1;
        }
        let new_key = key.clone();
        let new_fields = clone_fields(fields);
        self.entries.push((new_key, new_fields));
        proof {
            assert(entry_views(self.entries@) =~= es0.push((key@, field_views(fields@))));
            assert(entry_views(self.entries@).drop_last() =~= es0);
            assert(view_keys(entry_views(self.entries@)).drop_last() =~= view_keys(es0));
            assert(view_keys(entry_views(self.entries@)).no_duplicates()) by {
                let ks = view_keys(entry_views(self.entries@));
                assert(forall|k: int| 0 <= k < es0.len() ==> #[trigger] ks[k] == view_keys(es0)[k]);
                assert(ks[ks.len() - 1] == key@);
                assert(forall|k: int| 0 <= k < es0.len() ==> #[trigger] view_keys(es0)[k] != key@)
                    by {
                    assert(forall|k: int|
                        0 <= k < es0.len() ==> #[trigger] view_keys(es0)[k] == es0[k].0);
                }
            }
        }
    }

    /// How many keys the store holds.
    pub fn len(&self) -> (n: usize)
        requires
            self.inv(),
        ensures
            n == self@.dom().len(),
            self@.dom().finite(),
    {
        proof {
            lemma_map_of_props(entry_views(self.entries@));
        }
        self.entries.len()
    }

    /// The fields stored under the key, if the key is present.
    pub fn get(&self, key: &String) -> (r: Option<&Vec<(String, String)>>)
        requires
            self.inv(),
        ensures
            match r {
                Some(fs) => self@.dom().contains(key@) && self@[key@] == field_views(fs@),
                None => !self@.dom().contains(key@),
            },
    {
        proof {
            lemma_map_of_props(entry_views(self.entries@));
        }
        let ghost es = entry_views(self.entries@);
        let n = self.entries.len();
        let mut i: usize = 0;
        while i < n
            invariant
                0 <= i <= n,
                n == self.entries@.len(),
                forall|k: int| 0 <= k < i ==> (#[trigger] es[k]).0 != key@,
                es == entry_views(self.entries@),
            decreases n - i,
        {
            if self.entries[i].0.eq(key) {
                proof {
                    assert(es[i as int].0 == key@);
                    assert(view_keys(es)[i as int] == key@);
                    assert(view_keys(es).to_set().contains(key@));
                }
                return Some(&self.entries[i].1);
            }
            i = i + 1;
        }
        proof {
            assert(!view_keys(es).to_set().contains(key@)) by {
                if view_keys(es).to_set().contains(key@) {
                    let j = choose|j: int|
                        0 <= j < view_keys(es).len() && view_keys(es)[j] == key@;
                    assert(es[j].0 == key@);
                }
            }
        }
        None
    }
}

/// Runs the pipeline against the in-memory store: every record is written in
/// sequence order, every write succeeds, and the store ends in exactly the
/// state [`apply_records`] describes — so re-running the same records leaves
/// it unchanged, by [`lemma_apply_records_idempotent`].
pub fn sync_records(records: &Vec<Record>, store: &mut MemStore) -> (s: SyncSummary)
    requires
        old(store).inv(),
        records@.len() < usize::MAX,
    ensures
        final(store).inv(),
        final(store)@ == apply_records(old(store)@, rec_views(records@)),
        s.written == records@.len(),
        s.failed == 0,
{
    let ghost m0 = store@;
    let mut p = SyncPipeline::new();
    let mut i: usize = 0;
    while i < records.len()
        invariant
            0 <= i <= records@.len(),
            records@.len() < usize::MAX,
            store.inv(),
            store@ == apply_records(m0, rec_views(records@).take(i as int)),
            p.well_formed(),
            p.outcomes().len() == i,
            forall|k: int| 0 <= k < i ==> p.outcomes()[k],
        decreases records@.len() - i,
    {
        let rec = &records[i];
        store.write(&rec.key, &rec.fields);
        p.record_outcome(true);
        proof {
            lemma_apply_push(m0, rec_views(records@).take(i as int), records@[i as int]@);
            assert(rec_views(records@).take(i as int).push(records@[i as int]@) =~= rec_views(
                records@,
            ).take(i as int + 1));
        }
        i = i + 1;
    }
    proof {
        assert(rec_views(records@).take(records@.len() as int) =~= rec_views(records@));
        lemma_count_all_true(p.outcomes());
    }
    p.summary()
}

} // verus!
