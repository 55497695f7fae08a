//! Scoring-side logic: the per-process table the scorer caches baselines
//! and thresholds in, and the checks a scoring request must pass before
//! its drift score is computed.

use vstd::prelude::*;

verus! {

/// Anything the scorer can fail with on a per-request basis
#[derive(Debug, Clone, PartialEq, Eq)]
pub enum ScoringError {
    /// No baseline has been cached for the requested process key
    BaselineNotCached(String),
    /// Observation feature dimension does not match the cached baseline
    DimensionMismatch {
        /// Process key being scored
        process_key: String,
        /// Feature count of the supplied observation
        got: usize,
        /// Feature count the cached baseline was fitted on
        expected: usize,
    },
    /// Observation contains NaN or infinity
    NonFiniteObservation(String),
    /// Estimator was constructed with an out-of-range parameter
    InvalidParameter(String),
}

/// The shape of a cached baseline: its declared dimension and the lengths
/// of its mean and standard-deviation vectors
#[derive(Debug, Clone, Copy, PartialEq, Eq, Structural)]
pub struct BaselineShape {
    /// Declared number of features
    pub feature_dim: usize,
    /// Length of the per-feature mean vector
    pub mean_len: usize,
    /// Length of the per-feature standard-deviation vector
    pub std_len: usize,
}

/// Decide whether an observation of `observation_len` values, all finite
/// or not, may be scored against the baseline cached for `process_key`.
/// In order: no cached baseline gives `BaselineNotCached`; a baseline
/// whose mean or std length differs from its dimension gives
/// `DimensionMismatch` with the mean length as `got` (a corrupt cache
/// fails closed); an observation of the wrong length gives
/// `DimensionMismatch` with its length as `got`; a non-finite value gives
/// `NonFiniteObservation`.
pub fn check_scoring_request(process_key: &str, cached: Option<BaselineShape>, observation_len: usize, all_finite: bool) -> (r: Result<(), ScoringError>)
    ensures
        match cached {
            None => r matches Err(ScoringError::BaselineNotCached(k)) && k@ == process_key@,
            Some(b) => if b.mean_len != b.feature_dim || b.std_len != b.feature_dim {
                r matches Err(ScoringError::DimensionMismatch { process_key: k, got, expected })
                    && k@ == process_key@ && got == b.mean_len && expected == b.feature_dim
            } else if observation_len != b.feature_dim {
                r matches Err(ScoringError::DimensionMismatch { process_key: k, got, expected })
                    && k@ == process_key@ && got == observation_len && expected == b.feature_dim
            } else if !all_finite {
                r matches Err(ScoringError::NonFiniteObservation(k)) && k@ == process_key@
            } else {
                r is Ok
            },
        },
{
    match cached {
        None => Err(ScoringError::BaselineNotCached(process_key.to_owned())),
        Some(b) => {
            if b.mean_len != b.feature_dim || b.std_len != b.feature_dim {
                Err(
                    ScoringError::DimensionMismatch {
                        process_key: process_key.to_owned(),
                        got: b.mean_len,
                        expected: b.feature_dim,
                    },
                )
            } else if observation_len != b.feature_dim {
                Err(
                    ScoringError::DimensionMismatch {
                        process_key: process_key.to_owned(),
                        got: observation_len,
                        expected: b.feature_dim,
                    },
                )
            } else if !all_finite {
                Err(ScoringError::NonFiniteObservation(process_key.to_owned()))
            } else {
                Ok(())
            }
        },
    }
}

/// A table from process key to a value, each key held at most once
pub struct ProcessTable<V> {
    entries: Vec<(String, V)>,
}

impl<V> ProcessTable<V> {
    /// The keys, in insertion order
    pub closed spec fn keys(&self) -> Seq<Seq<char>> {
        self.entries@.map_values(|e: (String, V)| e.0@)
    }

    /// The table as a map from key to value
    pub closed spec fn view(&self) -> Map<Seq<char>, V> {
        Map::new(
            |k: Seq<char>| self.keys().contains(k),
            |k: Seq<char>| self.entries@[self.keys().index_of(k)].1,
        )
    }

    /// No key is held twice
    pub closed spec fn wf(&self) -> bool {
        self.keys().no_duplicates()
    }

    proof fn lemma_lookup(&self, i: int)
        requires
            self.wf(),
            0 <= i < self.entries@.len(),
        ensures
            self.view().dom().contains(self.entries@[i].0@),
            self.view()[self.entries@[i].0@] == self.entries@[i].1,
    {
        let k = self.entries@[i].0@;
        assert(self.keys()[i] == k);
        assert(self.keys().contains(k));
        self.keys().index_of_first_ensures(k);
        let j = self.keys().index_of(k);
        assert(self.keys()[j] == k);
    }

    /// An empty table
    pub fn new() -> (t: ProcessTable<V>)
        ensures
            t.wf(),
            t.view() == Map::<Seq<char>, V>::empty(),
    {
        let t = ProcessTable { entries: Vec::new() };
        assert(t.view() =~= Map::<Seq<char>, V>::empty());
        t
    }

    fn find(&self, key: &String) -> (r: Option<usize>)
        requires
            self.wf(),
        ensures
            r is None <==> !self.view().dom().contains(key@),
            r matches Some(i) ==> i < self.entries@.len() && self.entries@[i as int].0@ == key@,
    {
        let mut i: usize = 0;
        while i < self.entries.len()
            invariant
                i <= self.entries@.len(),
                forall|j: int| 0 <= j < i ==> self.entries@[j].0@ != key@,
            decreases self.entries@.len() - i,
        {
            if self.entries[i].0 == *key {
                assert(self.keys()[i as int] == key@);
                return Some(i);
            }
            i = i + 1;
        }
        assert(!self.keys().contains(key@)) by {
            assert forall|j: int| 0 <= j < self.keys().len() implies self.keys()[j] != key@ by {
                assert(self.keys()[j] == self.entries@[j].0@);
            }
        }
        None
    }

    /// The value held for `key`, if any
    pub fn get(&self, key: &str) -> (r: Option<&V>)
        requires
            self.wf(),
        ensures
            r is None <==> !self.view().dom().contains(key@),
            r matches Some(v) ==> *v == self.view()[key@],
    {
        let k = key.to_owned();
        match self.find(&k) {
            Some(i) => {
                proof {
                    self.lemma_lookup(i as int);
                }
                Some(&self.entries[i].1)
            },
            None => None,
        }
    }

    /// Hold `value` for `key`, replacing any value it held
    pub fn insert(&mut self, key: String, value: V)
        requires
            old(self).wf(),
        ensures
            final(self).wf(),
            final(self).view() == old(self).view().insert(key@, value),
    {
        let ghost old_view = self.view();
        let ghost old_keys = self.keys();
        match self.find(&key) {
            Some(i) => {
                let ghost k = key@;
                self.entries.set(i, (key, value));
                proof {
                    assert(self.keys() =~= old_keys.update(i as int, k));
                    assert(old_keys[i as int] == k);
                    assert(self.keys() =~= old_keys);
                    assert forall|k2: Seq<char>| #[trigger] self.view().dom().contains(k2) == old_view.insert(k, value).dom().contains(k2) by {}
                    assert forall|k2: Seq<char>| self.view().dom().contains(k2) implies #[trigger] self.view()[k2] == old_view.insert(k, value)[k2] by {
                        let j = self.keys().index_of(k2);
                        self.keys().index_of_first_ensures(k2);
                        if k2 == k {
                            assert(j == i) by {
                                assert(self.keys()[j] == k && self.keys()[i as int] == k);
                            }
                        } else {
                            assert(j != i);
                        }
                    }
                    assert(self.view() =~= old_view.insert(k, value));
                }
            },
            None => {
                let ghost k = key@;
                self.entries.push((key, value));
                proof {
                    assert(self.keys() =~= old_keys.push(k));
                    assert(self.keys().no_duplicates()) by {
                        assert forall|a: int, b: int| 0 <= a < self.keys().len() && 0 <= b < self.keys().len() && a != b implies self.keys()[a] != self.keys()[b] by {
                            if a == old_keys.len() as int {
                                assert(!old_keys.contains(k));
                            } else if b == old_keys.len() as int {
                                assert(!old_keys.contains(k));
                            }
                        }
                    }
                    assert forall|k2: Seq<char>| #[trigger] self.view().dom().contains(k2) == old_view.insert(k, value).dom().contains(k2) by {
                        if old_keys.contains(k2) {
                            let j = choose|j: int| 0 <= j < old_keys.len() && old_keys[j] == k2;
                            assert(self.keys()[j] == k2);
                        }
                        if self.keys().contains(k2) && k2 != k {
                            let j = choose|j: int| 0 <= j < self.keys().len() && self.keys()[j] == k2;
                            assert(j < old_keys.len());
                            assert(old_keys[j] == k2);
                        }
                        assert(self.keys()[old_keys.len() as int] == k);
                    }
                    assert forall|k2: Seq<char>| self.view().dom().contains(k2) implies #[trigger] self.view()[k2] == old_view.insert(k, value)[k2] by {
                        let j = self.keys().index_of(k2);
                        self.keys().index_of_first_ensures(k2);
                        if k2 == k {
                            assert(self.keys()[old_keys.len() as int] == k);
                            assert(j == old_keys.len());
                        } else {
                            assert(j < old_keys.len());
                            old_keys.index_of_first_ensures(k2);
                            assert(old_keys[j] == k2);
                            assert(old_keys.index_of(k2) == j) by {
                                let j0 = old_keys.index_of(k2);
                                assert(self.keys()[j0] == k2);
                            }
                        }
                    }
                    assert(self.view() =~= old_view.insert(k, value));
                }
            },
        }
    }

    /// Stop holding anything for `key`
    pub fn remove(&mut self, key: &str)
        requires
            old(self).wf(),
        ensures
            final(self).wf(),
            final(self).view() == old(self).view().remove(key@),
    {
        let k = key.to_owned();
        let ghost old_view = self.view();
        let ghost old_keys = self.keys();
        match self.find(&k) {
            Some(i) => {
                let _ = self.entries.remove(i);
                proof {
                    let ks = self.keys();
                    assert(ks =~= old_keys.remove(i as int));
                    assert(old_keys[i as int] == k@);
                    assert(ks.no_duplicates()) by {
                        assert forall|a: int, b: int| 0 <= a < ks.len() && 0 <= b < ks.len() && a != b implies ks[a] != ks[b] by {
                            let a0 = if a < i { a } else { a + 1 };
                            let b0 = if b < i { b } else { b + 1 };
                            assert(ks[a] == old_keys[a0] && ks[b] == old_keys[b0]);
                        }
                    }
                    assert forall|k2: Seq<char>| #[trigger] self.view().dom().contains(k2) == old_view.remove(k@).dom().contains(k2) by {
                        if ks.contains(k2) {
                            let j = choose|j: int| 0 <= j < ks.len() && ks[j] == k2;
                            let j0 = if j < i { j } else { j + 1 };
                            assert(old_keys[j0] == k2);
                            assert(j0 != i);
                        }
                        if old_keys.contains(k2) && k2 != k@ {
                            let j0 = choose|j: int| 0 <= j < old_keys.len() && old_keys[j] == k2;
                            assert(j0 != i);
                            let j = if j0 < i { j0 } else { j0 - 1 };
                            assert(ks[j] == k2);
                        }
                    }
                    assert forall|k2: Seq<char>| self.view().dom().contains(k2) implies #[trigger] self.view()[k2] == old_view.remove(k@)[k2] by {
                        let j = ks.index_of(k2);
                        ks.index_of_first_ensures(k2);
                        let j0 = if j < i { j } else { j + 1 };
                        assert(old_keys[j0] == k2);
                        old_keys.index_of_first_ensures(k2);
                        let jo = old_keys.index_of(k2);
                        assert(jo == j0) by {
                            assert(old_keys[jo] == k2);
                        }
                    }
                    assert(self.view() =~= old_view.remove(k@));
                }
            },
            None => {
                assert(self.view() =~= old_view.remove(k@));
            },
        }
    }

    /// Number of keys held
    pub fn len(&self) -> (n: usize)
        requires
            self.wf(),
        ensures
            n == self.view().dom().len(),
    {
        proof {
            self.keys().unique_seq_to_set();
            assert(self.view().dom() =~= self.keys().to_set());
        }
        self.entries.len()
    }
}


/// Reading a table gives back what was last written: after writing `value`
/// for `key` the key reads `value` and every other key reads as before;
/// after removing `key` it reads nothing and every other key as before.
pub proof fn lemma_table_read_after_write<V>(
    before: Map<Seq<char>, V>,
    key: Seq<char>,
    value: V,
    other: Seq<char>,
)
    ensures
        before.insert(key, value).dom().contains(key),
        before.insert(key, value)[key] == value,
        !before.remove(key).dom().contains(key),
        other != key ==> before.insert(key, value).dom().contains(other) == before.dom().contains(
            other,
        ),
        other != key && before.dom().contains(other) ==> before.insert(key, value)[other]
            == before[other],
        other != key ==> before.remove(key).dom().contains(other) == before.dom().contains(other),
        other != key && before.dom().contains(other) ==> before.remove(key)[other] == before[other],
{
}

} // verus!
