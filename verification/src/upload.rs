//! The pairing of the two halves of an upload. The bytes of an artifact and
//! its metadata arrive apart, in either order, under the same storage key.
//! The first to arrive waits; the second makes the pair, and the artifact is
//! finalized: promoted in the store, then entered into the index.

use crate::error::Error;
use crate::keyed::{
    distinct_keys, key_index, lemma_key_index, lemma_key_index_is, lemma_key_index_of_entry,
};
use crate::models::{DbPath, DbPathView};
use crate::text::{chars_of, same};
use vstd::prelude::*;

verus! {

/// One half of an upload, as a value.
pub enum UploadView {
    Nar,
    NarInfo(DbPathView),
}

/// One half of an upload that waits for the other: the bytes, which are in
/// the staging area of the store, or the metadata.
#[derive(Debug)]
pub enum IncompleteUpload {
    Nar,
    NarInfo(DbPath),
}

impl View for IncompleteUpload {
    type V = UploadView;

    open spec fn view(&self) -> UploadView {
        match self {
            IncompleteUpload::Nar => UploadView::Nar,
            IncompleteUpload::NarInfo(info) => UploadView::NarInfo(info@),
        }
    }
}

/// What the arrival of `part` under `key` makes of the waiting halves, and
/// the metadata of the artifact that it completes, if it completes one.
///
/// Where the other kind of half waits under the key, that half leaves and
/// the pair is complete. Otherwise the part waits under the key, in the
/// place of a half of its own kind that waited there.
pub open spec fn arrive(
    table: Map<Seq<char>, UploadView>,
    key: Seq<char>,
    part: UploadView,
) -> (Map<Seq<char>, UploadView>, Option<DbPathView>) {
    if !table.contains_key(key) {
        (table.insert(key, part), None)
    } else {
        match (part, table[key]) {
            (UploadView::Nar, UploadView::NarInfo(info)) => (table.remove(key), Some(info)),
            (UploadView::NarInfo(info), UploadView::Nar) => (table.remove(key), Some(info)),
            _ => (table.insert(key, part), None),
        }
    }
}

/// The table that the entries make.
pub open spec fn table_of(entries: Seq<(Seq<char>, UploadView)>) -> Map<Seq<char>, UploadView> {
    Map::new(
        |key: Seq<char>| key_index(entries, key) < entries.len(),
        |key: Seq<char>| entries[key_index(entries, key) as int].1,
    )
}

/// One more entry under a new key is one more key in the table.
proof fn lemma_table_push(entries: Seq<(Seq<char>, UploadView)>, key: Seq<char>, part: UploadView)
    requires
        distinct_keys(entries),
        key_index(entries, key) >= entries.len(),
    ensures
        distinct_keys(entries.push((key, part))),
        table_of(entries.push((key, part))) == table_of(entries).insert(key, part),
{
    let after = entries.push((key, part));
    lemma_key_index(entries, key);
    assert(distinct_keys(after)) by {
        assert forall|i: int, j: int| 0 <= i < j < after.len() implies (#[trigger] after[i]).0 != (
        #[trigger] after[j]).0 by {
            assert(after[i] == entries[i]);
            if j < entries.len() {
                assert(after[j] == entries[j]);
            }
        }
    }
    assert forall|k: Seq<char>| #[trigger]
        table_of(after).contains_key(k) == table_of(entries).insert(key, part).contains_key(
            k,
        ) && (table_of(after).contains_key(k) ==> table_of(after)[k] == table_of(entries).insert(
            key,
            part,
        )[k]) by {
        lemma_key_index(entries, k);
        let s = key_index(entries, k) as int;
        if k == key {
            assert forall|j: int| 0 <= j < entries.len() implies (#[trigger] after[j]).0 != k by {
                assert(after[j] == entries[j]);
            }
            lemma_key_index_is(after, k, entries.len() as int);
        } else if s < entries.len() {
            assert forall|j: int| 0 <= j < s implies (#[trigger] after[j]).0 != k by {
                assert(after[j] == entries[j]);
            }
            assert(after[s] == entries[s]);
            lemma_key_index_is(after, k, s);
        } else {
            assert forall|j: int| 0 <= j < after.len() implies (#[trigger] after[j]).0 != k by {
                if j < entries.len() {
                    assert(after[j] == entries[j]);
                }
            }
            lemma_key_index_is(after, k, after.len() as int);
        }
    }
    assert(table_of(after) =~= table_of(entries).insert(key, part));
}

/// Another half in the place of the one under a key is another value under
/// that key in the table.
proof fn lemma_table_update(entries: Seq<(Seq<char>, UploadView)>, i: int, part: UploadView)
    requires
        distinct_keys(entries),
        0 <= i < entries.len(),
    ensures
        distinct_keys(entries.update(i, (entries[i].0, part))),
        table_of(entries.update(i, (entries[i].0, part))) == table_of(entries).insert(
            entries[i].0,
            part,
        ),
{
    let key = entries[i].0;
    let after = entries.update(i, (key, part));
    assert(distinct_keys(after)) by {
        assert forall|a: int, b: int| 0 <= a < b < after.len() implies (#[trigger] after[a]).0 != (
        #[trigger] after[b]).0 by {
            assert(after[a].0 == entries[a].0 && after[b].0 == entries[b].0);
        }
    }
    assert forall|k: Seq<char>| #[trigger]
        table_of(after).contains_key(k) == table_of(entries).insert(key, part).contains_key(
            k,
        ) && (table_of(after).contains_key(k) ==> table_of(after)[k] == table_of(entries).insert(
            key,
            part,
        )[k]) by {
        lemma_key_index(entries, k);
        let s = key_index(entries, k) as int;
        assert forall|j: int| 0 <= j < s && j < after.len() implies (#[trigger] after[j]).0
            != k by {
            assert(after[j].0 == entries[j].0);
        }
        if s < entries.len() {
            assert(after[s].0 == entries[s].0);
            lemma_key_index_is(after, k, s);
            if k == key {
                lemma_key_index_of_entry(entries, i);
            } else {
                assert(s != i);
                assert(after[s] == entries[s]);
            }
        } else {
            lemma_key_index_is(after, k, after.len() as int);
        }
    }
    assert(table_of(after) =~= table_of(entries).insert(key, part));
}

/// Without the entry under a key, the table is without that key.
proof fn lemma_table_remove(entries: Seq<(Seq<char>, UploadView)>, i: int)
    requires
        distinct_keys(entries),
        0 <= i < entries.len(),
    ensures
        distinct_keys(entries.remove(i)),
        table_of(entries.remove(i)) == table_of(entries).remove(entries[i].0),
{
    let key = entries[i].0;
    let after = entries.remove(i);
    assert(distinct_keys(after)) by {
        assert forall|a: int, b: int| 0 <= a < b < after.len() implies (#[trigger] after[a]).0 != (
        #[trigger] after[b]).0 by {
            let x = if a < i {
                a
            } else {
                a + 1
            };
            let y = if b < i {
                b
            } else {
                b + 1
            };
            assert(after[a] == entries[x] && after[b] == entries[y]);
        }
    }
    assert forall|k: Seq<char>| #[trigger]
        table_of(after).contains_key(k) == table_of(entries).remove(key).contains_key(k) && (
        table_of(after).contains_key(k) ==> table_of(after)[k] == table_of(entries).remove(
            key,
        )[k]) by {
        lemma_key_index(entries, k);
        let s = key_index(entries, k) as int;
        if k == key {
            lemma_key_index_of_entry(entries, i);
            assert forall|j: int| 0 <= j < after.len() implies (#[trigger] after[j]).0 != k by {
                let x = if j < i {
                    j
                } else {
                    j + 1
                };
                assert(after[j] == entries[x]);
            }
            lemma_key_index_is(after, k, after.len() as int);
        } else if s < entries.len() {
            assert(s != i);
            let t = if s < i {
                s
            } else {
                s - 1
            };
            assert forall|j: int| 0 <= j < t implies (#[trigger] after[j]).0 != k by {
                let x = if j < i {
                    j
                } else {
                    j + 1
                };
                assert(after[j] == entries[x]);
            }
            assert(after[t] == entries[s]);
            lemma_key_index_is(after, k, t);
        } else {
            assert forall|j: int| 0 <= j < after.len() implies (#[trigger] after[j]).0 != k by {
                let x = if j < i {
                    j
                } else {
                    j + 1
                };
                assert(after[j] == entries[x]);
            }
            lemma_key_index_is(after, k, after.len() as int);
        }
    }
    assert(table_of(after) =~= table_of(entries).remove(key));
}

/// The halves that wait for their other halves, each under its storage key.
#[derive(Debug)]
pub struct PendingUploads {
    entries: Vec<(Vec<char>, IncompleteUpload)>,
}

impl PendingUploads {
    /// The entries as values.
    closed spec fn entries_view(&self) -> Seq<(Seq<char>, UploadView)> {
        Seq::new(self.entries@.len(), |i: int| (self.entries@[i].0@, self.entries@[i].1@))
    }

    #[verifier::type_invariant]
    spec fn sound(self) -> bool {
        distinct_keys(self.entries_view())
    }
}

impl View for PendingUploads {
    type V = Map<Seq<char>, UploadView>;

    closed spec fn view(&self) -> Map<Seq<char>, UploadView> {
        table_of(self.entries_view())
    }
}

/// The entries of a vector as values.
spec fn views(entries: Vec<(Vec<char>, IncompleteUpload)>) -> Seq<(Seq<char>, UploadView)> {
    Seq::new(entries@.len(), |i: int| (entries@[i].0@, entries@[i].1@))
}

impl PendingUploads {
    /// Nothing waits.
    pub fn new() -> (r: PendingUploads)
        ensures
            r@ == Map::<Seq<char>, UploadView>::empty(),
    {
        let r = PendingUploads { entries: Vec::new() };
        assert(r.entries_view() =~= Seq::<(Seq<char>, UploadView)>::empty());
        assert(r@ =~= Map::<Seq<char>, UploadView>::empty());
        r
    }

    /// The number of halves that wait.
    pub fn len(&self) -> (n: usize)
        ensures
            n == self@.dom().len(),
            self@.dom().finite(),
    {
        proof {
            use_type_invariant(self);
            lemma_table_size(self.entries_view());
        }
        self.entries.len()
    }

    /// Whether a half waits under `key`, and whether it is the metadata.
    pub fn waiting(&self, key: &str) -> (r: Option<bool>)
        ensures
            match r {
                Some(metadata) => self@.contains_key(key@) && metadata == (self@[key@]
                    is NarInfo),
                None => !self@.contains_key(key@),
            },
    {
        let chars = chars_of(key);
        let i = self.position(chars.as_slice());
        if i < self.entries.len() {
            match &self.entries[i].1 {
                IncompleteUpload::Nar => Some(false),
                IncompleteUpload::NarInfo(_) => Some(true),
            }
        } else {
            None
        }
    }

    /// The position of the entry under `key`, or the number of entries.
    fn position(&self, key: &[char]) -> (i: usize)
        ensures
            i == key_index(self.entries_view(), key@),
            i <= self.entries@.len(),
    {
        let mut i: usize = 0;
        while i < self.entries.len() && !same(self.entries[i].0.as_slice(), key)
            invariant
                i <= self.entries@.len(),
                forall|j: int| 0 <= j < i ==> (#[trigger] self.entries_view()[j]).0 != key@,
            decreases self.entries@.len() - i,
        {
            i += 1;
        }
        proof {
            lemma_key_index_is(self.entries_view(), key@, i as int);
        }
        i
    }

    /// Takes in a half that arrived under `key`. Where it completes a pair,
    /// the metadata of the artifact is handed out, and the artifact is to be
    /// finalized; otherwise the half waits.
    pub fn add_incomplete(&mut self, key: &str, part: IncompleteUpload) -> (r: Option<DbPath>)
        ensures
            final(self)@ == arrive(old(self)@, key@, part@).0,
            match r {
                Some(info) => arrive(old(self)@, key@, part@).1 == Some(info@),
                None => arrive(old(self)@, key@, part@).1 is None,
            },
    {
        proof {
            use_type_invariant(&*self);
        }
        let chars = chars_of(key);
        let i = self.position(chars.as_slice());
        let ghost before = self.entries_view();
        let ghost arrived = part@;
        let mut entries: Vec<(Vec<char>, IncompleteUpload)> = Vec::new();
        core::mem::swap(&mut self.entries, &mut entries);
        assert(views(entries) =~= before);
        if i >= entries.len() {
            entries.push((chars, part));
            proof {
                lemma_table_push(before, key@, arrived);
                assert(views(entries) =~= before.push((key@, arrived)));
            }
            self.entries = entries;
            assert(self.entries_view() =~= before.push((key@, arrived)));
            return None;
        }
        proof {
            lemma_key_index(before, key@);
        }
        let opposite = match (&part, &entries[i].1) {
            (IncompleteUpload::Nar, IncompleteUpload::NarInfo(_)) => true,
            (IncompleteUpload::NarInfo(_), IncompleteUpload::Nar) => true,
            _ => false,
        };
        if !opposite {
            entries[i] = (chars, part);
            proof {
                lemma_table_update(before, i as int, arrived);
                assert(views(entries) =~= before.update(i as int, (key@, arrived)));
            }
            self.entries = entries;
            assert(self.entries_view() =~= before.update(i as int, (key@, arrived)));
            return None;
        }
        let waited = entries.remove(i);
        proof {
            lemma_table_remove(before, i as int);
            assert(views(entries) =~= before.remove(i as int));
            assert(waited.1@ == before[i as int].1);
        }
        self.entries = entries;
        assert(self.entries_view() =~= before.remove(i as int));
        match (part, waited.1) {
            (IncompleteUpload::NarInfo(info), _) => Some(info),
            (_, IncompleteUpload::NarInfo(info)) => Some(info),
            _ => None,
        }
    }
}

/// A table of entries with distinct keys has as many keys as entries.
proof fn lemma_table_size(entries: Seq<(Seq<char>, UploadView)>)
    requires
        distinct_keys(entries),
    ensures
        table_of(entries).dom().finite(),
        table_of(entries).dom().len() == entries.len(),
    decreases entries.len(),
{
    if entries.len() == 0 {
        assert(table_of(entries).dom() =~= Set::<Seq<char>>::empty());
    } else {
        let last = entries.len() - 1;
        let front = entries.remove(last);
        lemma_table_remove(entries, last);
        lemma_table_size(front);
        lemma_key_index_of_entry(entries, last);
        assert(table_of(entries).dom() =~= table_of(front).dom().insert(entries[last].0));
        assert(!table_of(front).dom().contains(entries[last].0));
    }
}

/// The finalizing of an artifact, as a value.
pub enum FinalizeView {
    Promote { key: Seq<char>, record: DbPathView },
    Insert { record: DbPathView },
    Done,
    Failed(Error),
}

/// The finalizing of an artifact whose halves have met. Each state names
/// what is to be done next: the staged bytes are to be promoted under the
/// key, then the record is to be entered into the index. Whoever does the
/// work hands back how it went, and gets the next state.
#[derive(Debug)]
pub enum Finalize {
    /// The staged object under `key` is to be promoted.
    Promote { key: String, record: DbPath },
    /// The record is to be entered into the index.
    Insert { record: DbPath },
    /// The artifact is published.
    Done,
    /// A step failed, and nothing more is to be done.
    Failed(Error),
}

impl View for Finalize {
    type V = FinalizeView;

    open spec fn view(&self) -> FinalizeView {
        match self {
            Finalize::Promote { key, record } => FinalizeView::Promote {
                key: key@,
                record: record@,
            },
            Finalize::Insert { record } => FinalizeView::Insert { record: record@ },
            Finalize::Done => FinalizeView::Done,
            Finalize::Failed(e) => FinalizeView::Failed(*e),
        }
    }
}

/// The state after a step that went as `outcome` says. A promotion that went
/// well is followed by the entry into the index, and that by the end; a step
/// that failed ends the finalizing with its error. Nothing follows the end.
pub open spec fn after(state: FinalizeView, outcome: Result<(), Error>) -> FinalizeView {
    match state {
        FinalizeView::Promote { key, record } => match outcome {
            Ok(_) => FinalizeView::Insert { record },
            Err(e) => FinalizeView::Failed(e),
        },
        FinalizeView::Insert { record } => match outcome {
            Ok(_) => FinalizeView::Done,
            Err(e) => FinalizeView::Failed(e),
        },
        FinalizeView::Done => FinalizeView::Done,
        FinalizeView::Failed(e) => FinalizeView::Failed(e),
    }
}

impl Finalize {
    /// The finalizing of the artifact under `key` with the record `record`:
    /// it begins with the promotion.
    pub fn start(key: &str, record: DbPath) -> (r: Finalize)
        ensures
            r@ == (FinalizeView::Promote { key: key@, record: record@ }),
    {
        Finalize::Promote { key: String::from_str(key), record }
    }

    /// The state after the step that this state names went as `outcome`
    /// says.
    pub fn step(self, outcome: Result<(), Error>) -> (r: Finalize)
        ensures
            r@ == after(self@, outcome),
    {
        match self {
            Finalize::Promote { key, record } => match outcome {
                Ok(_) => Finalize::Insert { record },
                Err(e) => Finalize::Failed(e),
            },
            Finalize::Insert { record } => match outcome {
                Ok(_) => Finalize::Done,
                Err(e) => Finalize::Failed(e),
            },
            Finalize::Done => Finalize::Done,
            Finalize::Failed(e) => Finalize::Failed(e),
        }
    }
}

/// A record is entered into the index only after its artifact was promoted:
/// the state that asks for the entry follows none but a promotion that went
/// well, and holds the record of that promotion.
pub proof fn lemma_insert_follows_promotion(state: FinalizeView, outcome: Result<(), Error>)
    requires
        after(state, outcome) is Insert,
    ensures
        state is Promote,
        outcome is Ok,
        after(state, outcome)->Insert_record == state->Promote_record,
{
}

/// A finalizing in which both steps go well promotes once, enters the record
/// once, and is done.
pub proof fn lemma_finalize_once(key: Seq<char>, record: DbPathView)
    ensures
        ({
            let first = FinalizeView::Promote { key, record };
            let second = after(first, Ok(()));
            let third = after(second, Ok(()));
            &&& second == (FinalizeView::Insert { record })
            &&& third == FinalizeView::Done
            &&& after(third, Ok(())) == FinalizeView::Done
        }),
{
}

/// What a sequence of arrivals makes of the waiting halves, and the
/// artifacts that it completes, in their order, each with its key.
pub open spec fn run(table: Map<Seq<char>, UploadView>, arrivals: Seq<(Seq<char>, UploadView)>) -> (
    Map<Seq<char>, UploadView>,
    Seq<(Seq<char>, DbPathView)>,
)
    decreases arrivals.len(),
{
    if arrivals.len() == 0 {
        (table, Seq::empty())
    } else {
        let before = run(table, arrivals.drop_last());
        let last = arrivals.last();
        let step = arrive(before.0, last.0, last.1);
        (
            step.0,
            match step.1 {
                Some(info) => before.1.push((last.0, info)),
                None => before.1,
            },
        )
    }
}

/// How many of the completed artifacts are under `key`.
pub open spec fn completed(done: Seq<(Seq<char>, DbPathView)>, key: Seq<char>) -> nat
    decreases done.len(),
{
    if done.len() == 0 {
        0
    } else {
        completed(done.drop_last(), key) + if done.last().0 == key {
            1nat
        } else {
            0nat
        }
    }
}

/// Whether none of the arrivals is under `key`.
pub open spec fn none_under(arrivals: Seq<(Seq<char>, UploadView)>, key: Seq<char>) -> bool {
    forall|i: int| 0 <= i < arrivals.len() ==> (#[trigger] arrivals[i]).0 != key
}

/// Whether two halves are of different kinds.
pub open spec fn opposite(a: UploadView, b: UploadView) -> bool {
    (a is Nar && b is NarInfo) || (a is NarInfo && b is Nar)
}

/// The metadata of a pair of halves of different kinds.
pub open spec fn metadata_of_pair(a: UploadView, b: UploadView) -> DbPathView {
    match a {
        UploadView::NarInfo(info) => info,
        UploadView::Nar => b->NarInfo_0,
    }
}

/// What waits under one key does not change with an arrival under another.
pub proof fn lemma_arrive_frame(
    table: Map<Seq<char>, UploadView>,
    key: Seq<char>,
    part: UploadView,
    other: Seq<char>,
)
    requires
        other != key,
    ensures
        arrive(table, key, part).0.contains_key(other) == table.contains_key(other),
        table.contains_key(other) ==> arrive(table, key, part).0[other] == table[other],
{
}

/// The completed artifacts of arrivals after arrivals.
proof fn lemma_completed_concat(
    a: Seq<(Seq<char>, DbPathView)>,
    b: Seq<(Seq<char>, DbPathView)>,
    key: Seq<char>,
)
    ensures
        completed(a + b, key) == completed(a, key) + completed(b, key),
    decreases b.len(),
{
    if b.len() == 0 {
        assert(a + b =~= a);
    } else {
        lemma_completed_concat(a, b.drop_last(), key);
        assert((a + b).drop_last() =~= a + b.drop_last());
        assert((a + b).last() == b.last());
    }
}

/// Arrivals after arrivals go on from where the first left the table, and
/// complete what the first completed and then what they complete.
pub proof fn lemma_run_concat(
    table: Map<Seq<char>, UploadView>,
    a: Seq<(Seq<char>, UploadView)>,
    b: Seq<(Seq<char>, UploadView)>,
)
    ensures
        run(table, a + b).0 == run(run(table, a).0, b).0,
        run(table, a + b).1 == run(table, a).1 + run(run(table, a).0, b).1,
    decreases b.len(),
{
    if b.len() == 0 {
        assert(a + b =~= a);
        assert(run(table, a).1 + Seq::<(Seq<char>, DbPathView)>::empty() =~= run(table, a).1);
    } else {
        lemma_run_concat(table, a, b.drop_last());
        assert((a + b).drop_last() =~= a + b.drop_last());
        assert((a + b).last() == b.last());
        let mid = run(table, a);
        let rest = run(mid.0, b.drop_last());
        let step = arrive(rest.0, b.last().0, b.last().1);
        if let Some(info) = step.1 {
            assert((mid.1 + rest.1).push((b.last().0, info)) =~= mid.1 + rest.1.push(
                (b.last().0, info),
            ));
        }
    }
}

/// Arrivals under other keys leave what waits under a key as it is, and
/// complete no artifact under it.
pub proof fn lemma_run_frame(
    table: Map<Seq<char>, UploadView>,
    arrivals: Seq<(Seq<char>, UploadView)>,
    key: Seq<char>,
)
    requires
        none_under(arrivals, key),
    ensures
        run(table, arrivals).0.contains_key(key) == table.contains_key(key),
        table.contains_key(key) ==> run(table, arrivals).0[key] == table[key],
        completed(run(table, arrivals).1, key) == 0,
    decreases arrivals.len(),
{
    if arrivals.len() > 0 {
        let front = arrivals.drop_last();
        assert(none_under(front, key)) by {
            assert forall|i: int| 0 <= i < front.len() implies (#[trigger] front[i]).0 != key by {
                assert(front[i] == arrivals[i]);
            }
        }
        lemma_run_frame(table, front, key);
        let last = arrivals.last();
        assert(last == arrivals[arrivals.len() - 1]);
        let before = run(table, front);
        lemma_arrive_frame(before.0, last.0, last.1, key);
        let step = arrive(before.0, last.0, last.1);
        if let Some(info) = step.1 {
            assert(before.1.push((last.0, info)).drop_last() =~= before.1);
        }
    }
}

/// One arrival.
proof fn lemma_run_one(table: Map<Seq<char>, UploadView>, key: Seq<char>, part: UploadView)
    ensures
        run(table, seq![(key, part)]).0 == arrive(table, key, part).0,
        run(table, seq![(key, part)]).1 == match arrive(table, key, part).1 {
            Some(info) => seq![(key, info)],
            None => Seq::empty(),
        },
{
    let one = seq![(key, part)];
    assert(one.drop_last() =~= Seq::<(Seq<char>, UploadView)>::empty());
    assert(run(table, one.drop_last()).1 =~= Seq::<(Seq<char>, DbPathView)>::empty());
    if let Some(info) = arrive(table, key, part).1 {
        assert(Seq::<(Seq<char>, DbPathView)>::empty().push((key, info)) =~= seq![(key, info)]);
    }
}

/// The two halves of an artifact, arriving in either order among any
/// arrivals under other keys, complete the artifact exactly once, with the
/// metadata that arrived, and leave nothing waiting under its key.
pub proof fn lemma_pair_completes_once(
    table: Map<Seq<char>, UploadView>,
    key: Seq<char>,
    first: UploadView,
    second: UploadView,
    before: Seq<(Seq<char>, UploadView)>,
    between: Seq<(Seq<char>, UploadView)>,
    behind: Seq<(Seq<char>, UploadView)>,
)
    requires
        !table.contains_key(key),
        opposite(first, second),
        none_under(before, key),
        none_under(between, key),
        none_under(behind, key),
    ensures
        ({
            let arrivals = before + seq![(key, first)] + between + seq![(key, second)] + behind;
            let end = run(table, arrivals);
            &&& !end.0.contains_key(key)
            &&& completed(end.1, key) == 1
            &&& exists|i: int|
                0 <= i < end.1.len() && end.1[i] == (key, metadata_of_pair(first, second))
        }),
{
    let a1 = before;
    let a2 = seq![(key, first)];
    let a3 = between;
    let a4 = seq![(key, second)];
    let a5 = behind;
    let r1 = run(table, a1);
    let r2 = run(r1.0, a2);
    let r3 = run(r2.0, a3);
    let r4 = run(r3.0, a4);
    let r5 = run(r4.0, a5);
    lemma_run_frame(table, a1, key);
    lemma_run_one(r1.0, key, first);
    assert(r2.0.contains_key(key) && r2.0[key] == first);
    assert(r2.1 =~= Seq::<(Seq<char>, DbPathView)>::empty());
    lemma_run_frame(r2.0, a3, key);
    lemma_run_one(r3.0, key, second);
    let info = metadata_of_pair(first, second);
    assert(r4.1 == seq![(key, info)]);
    assert(!r4.0.contains_key(key));
    lemma_run_frame(r4.0, a5, key);
    lemma_run_concat(table, a1, a2);
    lemma_run_concat(table, a1 + a2, a3);
    lemma_run_concat(table, a1 + a2 + a3, a4);
    lemma_run_concat(table, a1 + a2 + a3 + a4, a5);
    let end = run(table, a1 + a2 + a3 + a4 + a5);
    assert(end.1 == r1.1 + r2.1 + r3.1 + r4.1 + r5.1);
    lemma_completed_concat(r1.1, r2.1, key);
    lemma_completed_concat(r1.1 + r2.1, r3.1, key);
    lemma_completed_concat(r1.1 + r2.1 + r3.1, r4.1, key);
    lemma_completed_concat(r1.1 + r2.1 + r3.1 + r4.1, r5.1, key);
    assert(completed(r2.1, key) == 0);
    assert(completed(r4.1, key) == 1) by {
        assert(r4.1.drop_last() =~= Seq::<(Seq<char>, DbPathView)>::empty());
        assert(completed(r4.1.drop_last(), key) == 0);
    }
    let at = (r1.1 + r2.1 + r3.1).len() as int;
    assert(end.1[at] == r4.1[0]);
}

/// A half that arrives again before its other half takes the place of the
/// one that waited: one half waits, and the artifact is completed with the
/// metadata that came last.
pub proof fn lemma_last_metadata_wins(
    table: Map<Seq<char>, UploadView>,
    key: Seq<char>,
    early: DbPathView,
    late: DbPathView,
)
    requires
        !table.contains_key(key),
    ensures
        ({
            let once = arrive(table, key, UploadView::NarInfo(early));
            let twice = arrive(once.0, key, UploadView::NarInfo(late));
            let paired = arrive(twice.0, key, UploadView::Nar);
            &&& once.1 is None
            &&& twice.1 is None
            &&& twice.0 == table.insert(key, UploadView::NarInfo(late))
            &&& paired.1 == Some(late)
            &&& paired.0 == table
        }),
{
    let once = arrive(table, key, UploadView::NarInfo(early));
    let twice = arrive(once.0, key, UploadView::NarInfo(late));
    let paired = arrive(twice.0, key, UploadView::Nar);
    assert(twice.0 =~= table.insert(key, UploadView::NarInfo(late)));
    assert(paired.0 =~= table);
}

/// How many of the arrivals are under `key` and bring the metadata, or the
/// bytes where `metadata` is false.
pub open spec fn arrived(
    arrivals: Seq<(Seq<char>, UploadView)>,
    key: Seq<char>,
    metadata: bool,
) -> nat
    decreases arrivals.len(),
{
    if arrivals.len() == 0 {
        0
    } else {
        arrived(arrivals.drop_last(), key, metadata) + if arrivals.last().0 == key && (
        arrivals.last().1 is NarInfo) == metadata {
            1nat
        } else {
            0nat
        }
    }
}

/// What holds between the arrivals under a key, the artifacts completed
/// under it, and what waits under it, after any arrivals into a table in
/// which nothing waited under the key.
pub open spec fn paired(
    end: (Map<Seq<char>, UploadView>, Seq<(Seq<char>, DbPathView)>),
    key: Seq<char>,
    bytes: nat,
    metadata: nat,
) -> bool {
    let done = completed(end.1, key);
    if !end.0.contains_key(key) {
        done <= bytes && done <= metadata && (done >= 1 || (bytes == 0 && metadata == 0))
    } else if end.0[key] is Nar {
        done + 1 <= bytes && done <= metadata && (done >= 1 || metadata == 0)
    } else {
        done <= bytes && done + 1 <= metadata && (done >= 1 || bytes == 0)
    }
}

/// Every completed artifact has used up one arrival of each kind, and a half
/// that waits has used up one of its kind: no half is counted twice.
proof fn lemma_paired(
    table: Map<Seq<char>, UploadView>,
    arrivals: Seq<(Seq<char>, UploadView)>,
    key: Seq<char>,
)
    requires
        !table.contains_key(key),
    ensures
        paired(
            run(table, arrivals),
            key,
            arrived(arrivals, key, false),
            arrived(arrivals, key, true),
        ),
    decreases arrivals.len(),
{
    if arrivals.len() > 0 {
        let front = arrivals.drop_last();
        let last = arrivals.last();
        lemma_paired(table, front, key);
        let before = run(table, front);
        let step = arrive(before.0, last.0, last.1);
        if let Some(info) = step.1 {
            assert(before.1.push((last.0, info)).drop_last() =~= before.1);
        }
        if last.0 != key {
            lemma_arrive_frame(before.0, last.0, last.1, key);
        }
    }
}

/// However the bytes and the metadata of a key arrive, among whatever else
/// arrives: no more artifacts are completed under the key than bytes came,
/// nor than metadata came, and at least one is where both came. So where
/// one of the two came once, exactly one artifact is completed.
pub proof fn lemma_pairs_under_one_key(
    table: Map<Seq<char>, UploadView>,
    arrivals: Seq<(Seq<char>, UploadView)>,
    key: Seq<char>,
)
    requires
        !table.contains_key(key),
    ensures
        ({
            let done = completed(run(table, arrivals).1, key);
            let bytes = arrived(arrivals, key, false);
            let metadata = arrived(arrivals, key, true);
            &&& done <= bytes
            &&& done <= metadata
            &&& bytes >= 1 && metadata >= 1 ==> done >= 1
            &&& (bytes == 1 || metadata == 1) && bytes >= 1 && metadata >= 1 ==> done == 1
        }),
{
    lemma_paired(table, arrivals, key);
}

} // verus!
