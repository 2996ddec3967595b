//! The store: an in-memory mapping from string keys to string values, bound
//! to the path of its snapshot file.
//!
//! The mapping is held as a vector of entries with pairwise distinct keys;
//! its meaning is the [`map_of`] those entries. Opening a store turns the
//! outcome of reading the snapshot file into either a store or an error:
//! a missing file is a normal, empty start, while any other read failure and
//! any malformed snapshot surface to the caller. Saving renders the whole
//! mapping through [`crate::codec`]; writing the rendered snapshot to the
//! path is the caller's step.

use crate::codec::{
    decode, encode, lemma_decode_of_encode, spec_decode, spec_encode, view_of_entries, SpecEntry,
};
use vstd::prelude::*;

verus! {

/// The mapping a run of entries stands for: later entries win.
pub open spec fn map_of(es: Seq<SpecEntry>) -> Map<Seq<char>, Seq<char>>
    decreases es.len(),
{
    if es.len() == 0 {
        Map::empty()
    } else {
        map_of(es.drop_last()).insert(es.last().0, es.last().1)
    }
}

/// No two entries share a key.
pub open spec fn distinct_keys(es: Seq<SpecEntry>) -> bool {
    forall|i: int, j: int| #![auto] 0 <= i < j < es.len() ==> es[i].0 != es[j].0
}

/// Distinctness of keys carries over to all but the last entry.
proof fn lemma_distinct_drop_last(es: Seq<SpecEntry>)
    requires
        distinct_keys(es),
        es.len() > 0,
    ensures
        distinct_keys(es.drop_last()),
{
    assert forall|i: int, j: int| #![auto]
        0 <= i < j < es.drop_last().len() implies es.drop_last()[i].0 != es.drop_last()[j].0 by {
        assert(es.drop_last()[i] == es[i]);
        assert(es.drop_last()[j] == es[j]);
    }
}

/// With distinct keys, every entry is in the mapping with its own value.
pub proof fn lemma_map_of_index(es: Seq<SpecEntry>, i: int)
    requires
        distinct_keys(es),
        0 <= i < es.len(),
    ensures
        map_of(es).contains_key(es[i].0),
        map_of(es)[es[i].0] == es[i].1,
    decreases es.len(),
{
    if i == es.len() - 1 {
        assert(es.last() == es[i]);
    } else {
        lemma_distinct_drop_last(es);
        lemma_map_of_index(es.drop_last(), i);
        assert(es.drop_last()[i] == es[i]);
        assert(es[i].0 != es[es.len() - 1].0);
        assert(es.last() == es[es.len() - 1]);
    }
}

/// A key held by no entry is not in the mapping.
pub proof fn lemma_map_of_absent(es: Seq<SpecEntry>, k: Seq<char>)
    requires
        forall|i: int| #![auto] 0 <= i < es.len() ==> es[i].0 != k,
    ensures
        !map_of(es).contains_key(k),
    decreases es.len(),
{
    if es.len() > 0 {
        assert forall|i: int| #![auto] 0 <= i < es.drop_last().len()
            implies es.drop_last()[i].0 != k by {
            assert(es.drop_last()[i] == es[i]);
        }
        lemma_map_of_absent(es.drop_last(), k);
        assert(es.last() == es[es.len() - 1]);
        assert(es.last().0 != k);
    }
}

/// A key in the mapping is held by some entry.
pub proof fn lemma_map_of_contains_exists(es: Seq<SpecEntry>, k: Seq<char>)
    requires
        map_of(es).contains_key(k),
    ensures
        exists|i: int| 0 <= i < es.len() && #[trigger] es[i].0 == k,
    decreases es.len(),
{
    if es.len() == 0 {
    } else if es.last().0 == k {
        assert(es[es.len() - 1].0 == k);
    } else {
        lemma_map_of_contains_exists(es.drop_last(), k);
        let w = choose|i: int| 0 <= i < es.drop_last().len() && #[trigger] es.drop_last()[i].0 == k;
        assert(es[w].0 == k);
    }
}

/// Replacing the value of the entry that holds a key updates the mapping at
/// that key and nothing else.
proof fn lemma_map_of_update(es: Seq<SpecEntry>, i: int, v: Seq<char>)
    requires
        distinct_keys(es),
        0 <= i < es.len(),
    ensures
        map_of(es.update(i, (es[i].0, v))) == map_of(es).insert(es[i].0, v),
    decreases es.len(),
{
    let e = (es[i].0, v);
    if i == es.len() - 1 {
        assert(es.update(i, e).drop_last() =~= es.drop_last());
        assert(es.update(i, e).last() == e);
        assert(map_of(es.drop_last()).insert(es[i].0, v)
            =~= map_of(es.drop_last()).insert(es.last().0, es.last().1).insert(es[i].0, v));
        assert(es.last() == es[i]);
    } else {
        lemma_distinct_drop_last(es);
        assert(es.drop_last()[i] == es[i]);
        lemma_map_of_update(es.drop_last(), i, v);
        assert(es.update(i, e).drop_last() =~= es.drop_last().update(i, e));
        assert(es.update(i, e).last() == es.last());
        assert(es[i].0 != es[es.len() - 1].0);
        assert(es.last() == es[es.len() - 1]);
        assert(map_of(es.drop_last()).insert(es[i].0, v).insert(es.last().0, es.last().1)
            =~= map_of(es.drop_last()).insert(es.last().0, es.last().1).insert(es[i].0, v));
    }
}

/// What the caller saw when it tried to read the snapshot file.
#[derive(Debug)]
pub enum ReadOutcome {
    /// No file exists at the path.
    Missing,
    /// The file could not be read for a reason other than absence; the
    /// message says why.
    Failed(String),
    /// The file was read whole; its text.
    Content(String),
}

/// Why opening a store failed.
#[derive(Debug)]
pub enum OpenError {
    /// Reading the snapshot file failed for a reason other than absence.
    Io(String),
    /// The file was read but does not hold a well-formed snapshot.
    Decode,
}

/// A key-value store bound to the data file it is saved to.
#[derive(Debug)]
pub struct Store {
    path: String,
    entries: Vec<(String, String)>,
}

impl View for Store {
    type V = Map<Seq<char>, Seq<char>>;

    /// The mapping the store currently holds.
    closed spec fn view(&self) -> Map<Seq<char>, Seq<char>> {
        map_of(view_of_entries(self.entries@))
    }
}

impl Store {
    /// The entries the store holds, in their stored order.
    pub closed spec fn entries_view(&self) -> Seq<SpecEntry> {
        view_of_entries(self.entries@)
    }

    /// The path of the snapshot file the store is bound to.
    pub closed spec fn path_view(&self) -> Seq<char> {
        self.path@
    }

    #[verifier::type_invariant]
    spec fn wf(&self) -> bool {
        distinct_keys(view_of_entries(self.entries@))
    }

    /// An empty store bound to `path`. No file is touched; the first save
    /// creates one.
    pub fn new(path: String) -> (s: Store)
        ensures
            s@ == Map::<Seq<char>, Seq<char>>::empty(),
            s.entries_view() == Seq::<SpecEntry>::empty(),
            s.path_view() == path@,
    {
        let s = Store { path, entries: Vec::new() };
        proof {
            assert(view_of_entries(s.entries@) =~= Seq::<SpecEntry>::empty());
        }
        s
    }

    /// Returns the current value bound to `key`, or nothing if the key is
    /// absent. Absence is not an error, and nothing is mutated.
    pub fn get(&self, key: &str) -> (r: Option<&String>)
        ensures
            (match r {
                Some(v) => self@.contains_key(key@) && v@ == self@[key@],
                None => !self@.contains_key(key@),
            }),
    {
        proof {
            use_type_invariant(self);
        }
        let owned: String = key.to_owned();
        match find(&self.entries, &owned) {
            Some(i) => {
                proof {
                    lemma_map_of_index(self.entries_view(), i as int);
                }
                Some(&self.entries[i].1)
            },
            None => {
                proof {
                    lemma_map_of_absent(self.entries_view(), key@);
                }
                None
            },
        }
    }
    /// Binds `key` to `value`, inserting or overwriting, and returns the
    /// value `key` held before, if any. Only the in-memory mapping changes;
    /// persisting it is a separate save.
    pub fn insert(&mut self, key: String, value: String) -> (prev: Option<String>)
        ensures
            final(self)@ == old(self)@.insert(key@, value@),
            final(self).path_view() == old(self).path_view(),
            (match prev {
                Some(p) => old(self)@.contains_key(key@) && p@ == old(self)@[key@],
                None => !old(self)@.contains_key(key@),
            }),
    {
        proof {
            use_type_invariant(&*self);
        }
        let ghost es0 = view_of_entries(self.entries@);
        let ghost k = key@;
        let ghost v = value@;
        let found = find(&self.entries, &key);
        let mut entries: Vec<(String, String)> = Vec::new();
        core::mem::swap(&mut entries, &mut self.entries);
        let prev: Option<String> = match found {
            Some(i) => {
                let p = entries[i].1.clone();
                proof {
                    lemma_map_of_index(es0, i as int);
                }
                entries[i] = (key, value);
                proof {
                    let es1 = view_of_entries(entries@);
                    assert(es1 =~= es0.update(i as int, (k, v)));
                    assert((k, v) == (es0[i as int].0, v));
                    lemma_map_of_update(es0, i as int, v);
                    assert forall|a: int, b: int| #![auto] 0 <= a < b < es1.len()
                        implies es1[a].0 != es1[b].0 by {
                        assert(es1[a].0 == es0[a].0);
                        assert(es1[b].0 == es0[b].0);
                    }
                }
                Some(p)
            },
            None => {
                entries.push((key, value));
                proof {
                    let es1 = view_of_entries(entries@);
                    assert(es1 =~= es0.push((k, v)));
                    assert(es1.drop_last() =~= es0);
                    assert(es1.last() == (k, v));
                    assert forall|a: int, b: int| #![auto] 0 <= a < b < es1.len()
                        implies es1[a].0 != es1[b].0 by {
                        if b < es1.len() - 1 {
                            assert(es1[a].0 == es0[a].0);
                            assert(es1[b].0 == es0[b].0);
                        } else {
                            assert(es1[a].0 == es0[a].0);
                            assert(es1[b] == (k, v));
                        }
                    }
                    lemma_map_of_absent(es0, k);
                }
                None
            },
        };
        core::mem::swap(&mut entries, &mut self.entries);
        prev
    }

    /// Renders what a sync writes to the path: the whole current mapping as
    /// one snapshot, decoding to exactly the store's entries. Performing the
    /// write, whole and overwriting, is the caller's step; until one
    /// succeeds, the in-memory mapping is ahead of the file.
    pub fn sync(&self) -> (r: String)
        ensures
            r@ == spec_encode(self.entries_view()),
            spec_decode(r@) == Some(self.entries_view()),
            distinct_keys(self.entries_view()),
            self@ == map_of(self.entries_view()),
    {
        proof {
            use_type_invariant(self);
            lemma_decode_of_encode(self.entries_view());
        }
        encode(&self.entries)
    }

    /// Opens the store bound to `path`, given what reading the file at that
    /// path yielded: a missing file is a normal empty start; any other read
    /// failure, and any text that is not a snapshot of distinct keys, is an
    /// error and no store.
    pub fn open(path: String, outcome: ReadOutcome) -> (r: Result<Store, OpenError>)
        ensures
            (match r {
                Ok(st) => st.path_view() == path@ && (match outcome {
                    ReadOutcome::Missing => st@ == Map::<Seq<char>, Seq<char>>::empty()
                        && st.entries_view() == Seq::<SpecEntry>::empty(),
                    ReadOutcome::Failed(m) => false,
                    ReadOutcome::Content(s) => spec_decode(s@) == Some(st.entries_view())
                        && distinct_keys(st.entries_view()) && st@ == map_of(st.entries_view()),
                }),
                Err(e) => (match outcome {
                    ReadOutcome::Missing => false,
                    ReadOutcome::Failed(m) => e == OpenError::Io(m),
                    ReadOutcome::Content(s) => e == OpenError::Decode && (spec_decode(s@)
                        matches Some(es) ==> !distinct_keys(es)),
                }),
            }),
    {
        match outcome {
            ReadOutcome::Missing => Ok(Store::new(path)),
            ReadOutcome::Failed(m) => Err(OpenError::Io(m)),
            ReadOutcome::Content(s) => match decode(s.as_str()) {
                None => Err(OpenError::Decode),
                Some(entries) => {
                    if keys_distinct(&entries) {
                        Ok(Store { path, entries })
                    } else {
                        Err(OpenError::Decode)
                    }
                },
            },
        }
    }

    /// All entries, in their stored order: every pair the mapping holds, and
    /// nothing else. A fresh call walks the same entries again; the order is
    /// an artifact of insertion, not a promise.
    pub fn entries(&self) -> (r: &Vec<(String, String)>)
        ensures
            view_of_entries(r@) == self.entries_view(),
            forall|i: int| #![auto] 0 <= i < r@.len() ==> self@.contains_key(r@[i].0@)
                && self@[r@[i].0@] == r@[i].1@,
            forall|k: Seq<char>| #[trigger] self@.contains_key(k) ==> exists|i: int|
                0 <= i < r@.len() && #[trigger] r@[i].0@ == k,
    {
        proof {
            use_type_invariant(self);
            let es = self.entries_view();
            assert forall|i: int| #![auto] 0 <= i < self.entries@.len()
                implies self@.contains_key(self.entries@[i].0@)
                && self@[self.entries@[i].0@] == self.entries@[i].1@ by {
                lemma_map_of_index(es, i);
                assert(es[i] == (self.entries@[i].0@, self.entries@[i].1@));
            }
            assert forall|k: Seq<char>| #[trigger] self@.contains_key(k) implies exists|i: int|
                0 <= i < self.entries@.len() && #[trigger] self.entries@[i].0@ == k by {
                lemma_map_of_contains_exists(es, k);
                let w = choose|i: int| 0 <= i < es.len() && #[trigger] es[i].0 == k;
                assert(self.entries@[w].0@ == k);
            }
        }
        &self.entries
    }

    /// How many keys the store holds.
    pub fn len(&self) -> (n: usize)
        ensures
            n == self.entries_view().len(),
            n == 0 <==> self@ =~= Map::<Seq<char>, Seq<char>>::empty(),
    {
        proof {
            use_type_invariant(self);
            if self.entries@.len() > 0 {
                lemma_map_of_index(self.entries_view(), 0);
            }
        }
        self.entries.len()
    }

    /// Whether the store holds no keys at all.
    pub fn is_empty(&self) -> (r: bool)
        ensures
            r <==> self@ =~= Map::<Seq<char>, Seq<char>>::empty(),
            r == (self.entries_view().len() == 0),
    {
        proof {
            use_type_invariant(self);
            if self.entries@.len() > 0 {
                lemma_map_of_index(self.entries_view(), 0);
            }
        }
        self.entries.is_empty()
    }

    /// The path of the snapshot file the store is bound to.
    pub fn path(&self) -> (r: &String)
        ensures
            r@ == self.path_view(),
    {
        &self.path
    }
}

/// Whether no two entries share a key.
fn keys_distinct(entries: &Vec<(String, String)>) -> (r: bool)
    ensures
        r == distinct_keys(view_of_entries(entries@)),
{
    let ghost es = view_of_entries(entries@);
    let n = entries.len();
    let mut i: usize = 0;
    while i < n
        invariant
            es == view_of_entries(entries@),
            n == entries@.len(),
            i <= n,
            forall|a: int, b: int| #![auto] 0 <= a < b < es.len() && a < i ==> es[a].0 != es[b].0,
        decreases n - i,
    {
        let mut j: usize = i + 1;
        while j < n
            invariant
                es == view_of_entries(entries@),
                n == entries@.len(),
                i < n,
                i < j <= n,
                forall|b: int| #![auto] i < b < j ==> es[i as int].0 != es[b].0,
            decreases n - j,
        {
            if entries[i].0 == entries[j].0 {
                proof {
                    assert(es[i as int].0 == es[j as int].0);
                }
                return false;
            }
            j = j + 1;
        }
        i = i + 1;
    }
    true
}

/// Law: after binding `k` to `v`, a read of `k` yields exactly `v`.
pub proof fn lemma_set_then_get(m: Map<Seq<char>, Seq<char>>, k: Seq<char>, v: Seq<char>)
    ensures
        m.insert(k, v).contains_key(k),
        m.insert(k, v)[k] == v,
{
}

/// Law: of two writes to one key the last wins, and no other key is
/// affected by either.
pub proof fn lemma_last_write_wins(
    m: Map<Seq<char>, Seq<char>>,
    k: Seq<char>,
    v1: Seq<char>,
    v2: Seq<char>,
)
    ensures
        m.insert(k, v1).insert(k, v2) == m.insert(k, v2),
        forall|k2: Seq<char>| k2 != k ==> (#[trigger] m.insert(k, v2).contains_key(k2)
            <==> m.contains_key(k2)),
        forall|k2: Seq<char>| k2 != k && m.contains_key(k2) ==> #[trigger] m.insert(k, v2)[k2]
            == m[k2],
{
    assert(m.insert(k, v1).insert(k, v2) =~= m.insert(k, v2));
}

/// Law: a key never bound reads as absent in a fresh store's mapping.
pub proof fn lemma_absent_in_empty(k: Seq<char>)
    ensures
        !Map::<Seq<char>, Seq<char>>::empty().contains_key(k),
{
}

/// Law: a save writes a snapshot that is a function of the entries alone, so
/// two saves with no mutation between them write identical snapshots, whose
/// decoded content is the unchanged entry run.
pub proof fn lemma_save_idempotent(es: Seq<SpecEntry>, s1: Seq<char>, s2: Seq<char>)
    requires
        s1 == spec_encode(es),
        s2 == spec_encode(es),
    ensures
        s1 == s2,
        spec_decode(s1) == Some(es),
{
    lemma_decode_of_encode(es);
}

/// The index of the entry holding `key`, if one does.
fn find(entries: &Vec<(String, String)>, key: &String) -> (r: Option<usize>)
    ensures
        (match r {
            Some(i) => i < entries@.len() && view_of_entries(entries@)[i as int].0 == key@,
            None => forall|j: int| #![auto]
                0 <= j < entries@.len() ==> view_of_entries(entries@)[j].0 != key@,
        }),
{
    let n = entries.len();
    let mut i: usize = 0;
    while i < n
        invariant
            n == entries@.len(),
            i <= n,
            forall|j: int| #![auto] 0 <= j < i ==> view_of_entries(entries@)[j].0 != key@,
        decreases n - i,
    {
        if entries[i].0 == *key {
            return Some(i);
        }
        i = i + 1;
    }
    None
}

} // verus!
