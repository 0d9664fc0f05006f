//! The dedup caches: label-to-row-id maps kept for one import run.

use vstd::prelude::*;

verus! {

/// Maps a lookup label (a language or part-of-speech name) to the id of the
/// row created for it. Labels are kept in the order they were first resolved.
pub struct LabelCache {
    labels: Vec<String>,
    ids: Vec<i64>,
}

impl LabelCache {
    /// The cached labels, in insertion order.
    pub closed spec fn keys(&self) -> Seq<Seq<char>> {
        self.labels@.map_values(|s: String| s@)
    }

    /// The row ids, parallel to `keys`.
    pub closed spec fn ids(&self) -> Seq<i64> {
        self.ids@
    }

    /// Each label appears once, and each has an id.
    pub closed spec fn wf(&self) -> bool {
        &&& self.keys().no_duplicates()
        &&& self.labels@.len() == self.ids@.len()
    }

    pub open spec fn contains(&self, label: Seq<char>) -> bool {
        self.keys().contains(label)
    }

    /// The id stored for `label`, when `label` is cached.
    pub open spec fn id_of(&self, label: Seq<char>) -> i64 {
        self.ids()[self.keys().index_of(label)]
    }

    pub proof fn lemma_wf_lens(&self)
        requires
            self.wf(),
        ensures
            self.keys().len() == self.ids().len(),
            self.keys().no_duplicates(),
    {
    }

    pub fn new() -> (r: LabelCache)
        ensures
            r.wf(),
            r.keys() == Seq::<Seq<char>>::empty(),
            r.ids() == Seq::<i64>::empty(),
    {
        let r = LabelCache { labels: Vec::new(), ids: Vec::new() };
        assert(r.keys() =~= Seq::<Seq<char>>::empty());
        r
    }

    pub fn len(&self) -> (r: usize)
        requires
            self.wf(),
        ensures
            r == self.keys().len(),
    {
        self.labels.len()
    }

    /// Looks `label` up.
    pub fn get(&self, label: &String) -> (r: Option<i64>)
        requires
            self.wf(),
        ensures
            r == (if self.contains(label@) {
                Some(self.id_of(label@))
            } else {
                None::<i64>
            }),
    {
        let mut i: usize = 0;
        while i < self.labels.len()
            invariant
                self.wf(),
                0 <= i <= self.labels@.len(),
                forall|j: int| 0 <= j < i ==> self.keys()[j] != label@,
            decreases self.labels@.len() - i,
        {
            if self.labels[i] == *label {
                proof {
                    self.keys().index_of_first_ensures(label@);
                    assert(self.keys()[i as int] == label@);
                    assert(self.keys().contains(label@));
                    let k = self.keys().index_of(label@);
                    assert(self.keys()[k] == label@);
                    assert(k == i as int);
                }
                return Some(self.ids[i]);
            }
            i = i + 1;
        }
        assert(!self.keys().contains(label@));
        None
    }

    /// Records the id of a label seen for the first time.
    pub fn insert(&mut self, label: String, id: i64)
        requires
            old(self).wf(),
            !old(self).contains(label@),
        ensures
            final(self).wf(),
            final(self).keys() == old(self).keys().push(label@),
            final(self).ids() == old(self).ids().push(id),
    {
        self.labels.push(label);
        self.ids.push(id);
        proof {
            assert(self.keys() =~= old(self).keys().push(label@));
        }
    }
}

/// Maps a pair of labels (a language name and its code) to the id of the row
/// created for it. Pairs are kept in the order they were first resolved.
pub struct PairCache {
    labels: Vec<String>,
    codes: Vec<String>,
    ids: Vec<i64>,
}

impl PairCache {
    /// The cached labels, in insertion order.
    pub closed spec fn keys(&self) -> Seq<(Seq<char>, Seq<char>)> {
        Seq::new(self.labels@.len(), |i: int| (self.labels@[i]@, self.codes@[i]@))
    }

    /// The row ids, parallel to `keys`.
    pub closed spec fn ids(&self) -> Seq<i64> {
        self.ids@
    }

    /// Each label appears once, and each has an id.
    pub closed spec fn wf(&self) -> bool {
        &&& self.keys().no_duplicates()
        &&& self.labels@.len() == self.ids@.len()
        &&& self.codes@.len() == self.ids@.len()
    }

    pub open spec fn contains(&self, label: (Seq<char>, Seq<char>)) -> bool {
        self.keys().contains(label)
    }

    /// The id stored for `label`, when `label` is cached.
    pub open spec fn id_of(&self, label: (Seq<char>, Seq<char>)) -> i64 {
        self.ids()[self.keys().index_of(label)]
    }

    pub proof fn lemma_wf_lens(&self)
        requires
            self.wf(),
        ensures
            self.keys().len() == self.ids().len(),
            self.keys().no_duplicates(),
    {
    }

    pub fn new() -> (r: PairCache)
        ensures
            r.wf(),
            r.keys() == Seq::<(Seq<char>, Seq<char>)>::empty(),
            r.ids() == Seq::<i64>::empty(),
    {
        let r = PairCache { labels: Vec::new(), codes: Vec::new(), ids: Vec::new() };
        assert(r.keys() =~= Seq::<(Seq<char>, Seq<char>)>::empty());
        r
    }

    pub fn len(&self) -> (r: usize)
        requires
            self.wf(),
        ensures
            r == self.keys().len(),
    {
        self.labels.len()
    }

    /// Looks the pair `(label, code)` up.
    pub fn get(&self, label: &String, code: &String) -> (r: Option<i64>)
        requires
            self.wf(),
        ensures
            r == (if self.contains((label@, code@)) {
                Some(self.id_of((label@, code@)))
            } else {
                None::<i64>
            }),
    {
        let mut i: usize = 0;
        while i < self.labels.len()
            invariant
                self.wf(),
                0 <= i <= self.labels@.len(),
                forall|j: int| 0 <= j < i ==> self.keys()[j] != (label@, code@),
            decreases self.labels@.len() - i,
        {
            if self.labels[i] == *label && self.codes[i] == *code {
                proof {
                    self.keys().index_of_first_ensures((label@, code@));
                    assert(self.keys()[i as int] == (label@, code@));
                    assert(self.keys().contains((label@, code@)));
                    let k = self.keys().index_of((label@, code@));
                    assert(self.keys()[k] == (label@, code@));
                    assert(k == i as int);
                }
                return Some(self.ids[i]);
            }
            i = i + 1;
        }
        assert(!self.keys().contains((label@, code@)));
        None
    }

    /// Records the id of a pair seen for the first time.
    pub fn insert(&mut self, label: String, code: String, id: i64)
        requires
            old(self).wf(),
            !old(self).contains((label@, code@)),
        ensures
            final(self).wf(),
            final(self).keys() == old(self).keys().push((label@, code@)),
            final(self).ids() == old(self).ids().push(id),
    {
        self.labels.push(label);
        self.codes.push(code);
        self.ids.push(id);
        proof {
            assert(self.keys() =~= old(self).keys().push((label@, code@)));
        }
    }
}

} // verus!
