//! Suppression counts of one file: a map from lint name to count.
use vstd::prelude::*;

verus! {

/// The largest count that is recorded; sums above it saturate.
pub open spec fn count_cap() -> nat {
    usize::MAX as nat
}

/// A sum of counts, saturated at the largest recordable count.
pub open spec fn capped(n: nat) -> nat {
    if n > count_cap() {
        count_cap()
    } else {
        n
    }
}

/// The count of `lint` in `m`, where a missing lint counts as zero.
pub open spec fn count_of(m: Map<Seq<char>, nat>, lint: Seq<char>) -> nat {
    if m.contains_key(lint) {
        m[lint]
    } else {
        0
    }
}

/// The smaller of two counts.
pub open spec fn min_count(a: nat, b: nat) -> nat {
    if a <= b {
        a
    } else {
        b
    }
}

/// The larger of two counts.
pub open spec fn max_count(a: nat, b: nat) -> nat {
    if a >= b {
        a
    } else {
        b
    }
}

/// Every key of an association list appears once.
pub open spec fn keys_unique<V>(s: Seq<(Seq<char>, V)>) -> bool {
    forall|i: int, j: int| 0 <= i < j < s.len() ==> s[i].0 != s[j].0
}

/// Whether `k` is a key of the association list `s`.
pub open spec fn has_key<V>(s: Seq<(Seq<char>, V)>, k: Seq<char>) -> bool {
    exists|i: int| 0 <= i < s.len() && s[i].0 == k
}

/// The map that an association list stands for.
pub open spec fn assoc_map<V>(s: Seq<(Seq<char>, V)>) -> Map<Seq<char>, V> {
    Map::new(
        |k: Seq<char>| has_key(s, k),
        |k: Seq<char>| s[choose|i: int| 0 <= i < s.len() && s[i].0 == k].1,
    )
}

/// With unique keys, each entry of an association list is what its map holds.
pub proof fn lemma_assoc_at<V>(s: Seq<(Seq<char>, V)>, i: int)
    requires
        keys_unique(s),
        0 <= i < s.len(),
    ensures
        assoc_map(s).contains_key(s[i].0),
        assoc_map(s)[s[i].0] == s[i].1,
{
    assert(has_key(s, s[i].0));
    let j = choose|j: int| 0 <= j < s.len() && s[j].0 == s[i].0;
    assert(j == i);
}

/// Appending an entry with a new key inserts it into the map.
pub proof fn lemma_assoc_push<V>(s: Seq<(Seq<char>, V)>, k: Seq<char>, v: V)
    requires
        keys_unique(s),
        !has_key(s, k),
    ensures
        keys_unique(s.push((k, v))),
        assoc_map(s.push((k, v))) == assoc_map(s).insert(k, v),
{
    let t = s.push((k, v));
    assert(t[s.len() as int] == (k, v));
    assert forall|i: int, j: int| 0 <= i < j < t.len() implies t[i].0 != t[j].0 by {
        if j == s.len() {
            assert(s[i] == t[i]);
        } else {
            assert(s[i] == t[i] && s[j] == t[j]);
        }
    }
    assert forall|key: Seq<char>| #[trigger] has_key(t, key) == (has_key(s, key) || key == k) by {
        if has_key(s, key) {
            let i = choose|i: int| 0 <= i < s.len() && s[i].0 == key;
            assert(t[i] == s[i]);
        }
        if has_key(t, key) && key != k {
            let i = choose|i: int| 0 <= i < t.len() && t[i].0 == key;
            assert(t[i] == s[i]);
        }
    }
    assert forall|key: Seq<char>| #[trigger] assoc_map(t).contains_key(key) implies assoc_map(t)[key]
        == assoc_map(s).insert(k, v)[key] by {
        let i = choose|i: int| 0 <= i < t.len() && t[i].0 == key;
        lemma_assoc_at(t, i);
        if i < s.len() {
            assert(t[i] == s[i]);
            lemma_assoc_at(s, i);
        }
    }
    assert(assoc_map(t) =~= assoc_map(s).insert(k, v));
}

/// Replacing the value at one place of an association list updates the map there.
pub proof fn lemma_assoc_set<V>(s: Seq<(Seq<char>, V)>, i: int, v: V)
    requires
        keys_unique(s),
        0 <= i < s.len(),
    ensures
        keys_unique(s.update(i, (s[i].0, v))),
        assoc_map(s.update(i, (s[i].0, v))) == assoc_map(s).insert(s[i].0, v),
{
    let k = s[i].0;
    let t = s.update(i, (k, v));
    assert forall|a: int, b: int| 0 <= a < b < t.len() implies t[a].0 != t[b].0 by {
        assert(t[a].0 == s[a].0 && t[b].0 == s[b].0);
    }
    assert forall|key: Seq<char>| #[trigger] has_key(t, key) == has_key(s, key) by {
        if has_key(s, key) {
            let j = choose|j: int| 0 <= j < s.len() && s[j].0 == key;
            assert(t[j].0 == s[j].0);
        }
        if has_key(t, key) {
            let j = choose|j: int| 0 <= j < t.len() && t[j].0 == key;
            assert(t[j].0 == s[j].0);
        }
    }
    assert forall|key: Seq<char>| #[trigger] assoc_map(t).contains_key(key) implies assoc_map(t)[key]
        == assoc_map(s).insert(k, v)[key] by {
        let j = choose|j: int| 0 <= j < t.len() && t[j].0 == key;
        lemma_assoc_at(t, j);
        if j != i {
            assert(t[j] == s[j]);
            lemma_assoc_at(s, j);
        }
    }
    assert(has_key(s, k));
    assert(assoc_map(t) =~= assoc_map(s).insert(k, v));
}

/// The suppression counts of one file, one entry per lint.
pub struct LintCounts {
    entries: Vec<(String, usize)>,
}

impl LintCounts {
    /// The entries as an association list of lint names and counts.
    pub closed spec fn pairs(&self) -> Seq<(Seq<char>, nat)> {
        self.entries@.map_values(|e: (String, usize)| (e.0@, e.1 as nat))
    }

    /// No lint has two entries.
    pub open spec fn wf(&self) -> bool {
        keys_unique(self.pairs())
    }

    /// The number of entries.
    pub closed spec fn spec_len(&self) -> nat {
        self.entries@.len()
    }

    /// The lint name and count of entry `i`.
    pub closed spec fn spec_entry(&self, i: int) -> (Seq<char>, nat) {
        self.pairs()[i]
    }

    /// No lints, no counts.
    pub fn new() -> (r: LintCounts)
        ensures
            r.wf(),
            r@ == Map::<Seq<char>, nat>::empty(),
    {
        let r = LintCounts { entries: Vec::new() };
        assert(assoc_map(r.pairs()) =~= Map::<Seq<char>, nat>::empty());
        r
    }

    /// The number of lints with an entry.
    pub fn len(&self) -> (r: usize)
        requires
            self.wf(),
        ensures
            r == self.spec_len(),
            r == self@.dom().len(),
    {
        proof { self.lemma_dom_len(); }
        self.entries.len()
    }

    /// The map has as many keys as there are entries.
    pub proof fn lemma_dom_len(&self)
        requires
            self.wf(),
        ensures
            self@.dom().len() == self.spec_len(),
            self@.dom().finite(),
    {
        let p = self.pairs();
        let keys = Set::new(|i: int| 0 <= i < p.len());
        let f = |i: int| p[i].0;
        vstd::set_lib::lemma_int_range(0, p.len() as int);
        assert(keys =~= vstd::set_lib::set_int_range(0, p.len() as int));
        assert forall|i: int, j: int| keys.contains(i) && keys.contains(j) && f(i) == f(j) implies i
            == j by {}
        assert(self@.dom() =~= keys.map(f)) by {
            assert forall|k: Seq<char>| self@.dom().contains(k) implies keys.map(f).contains(k) by {
                let i = choose|i: int| 0 <= i < p.len() && p[i].0 == k;
                assert(keys.contains(i) && f(i) == k);
            }
        }
        vstd::set_lib::lemma_map_size(keys, keys.map(f), f);
    }

    /// The entries list exactly the lints of the map, each with its count.
    pub proof fn lemma_entries(&self)
        requires
            self.wf(),
        ensures
            forall|k: Seq<char>|
                #![trigger self@.contains_key(k)]
                self@.contains_key(k) <==> exists|i: int|
                    0 <= i < self.spec_len() && (#[trigger] self.spec_entry(i)).0 == k,
            forall|i: int|
                #![trigger self.spec_entry(i)]
                0 <= i < self.spec_len() ==> self@.contains_key(self.spec_entry(i).0)
                    && self@[self.spec_entry(i).0] == self.spec_entry(i).1,
            forall|i: int, j: int|
                0 <= i < j < self.spec_len() ==> (#[trigger] self.spec_entry(i)).0 != (
                #[trigger] self.spec_entry(j)).0,
    {
        assert forall|i: int|
            #![trigger self.spec_entry(i)]
            0 <= i < self.spec_len() implies self@.contains_key(self.spec_entry(i).0)
                && self@[self.spec_entry(i).0] == self.spec_entry(i).1 by {
            lemma_assoc_at(self.pairs(), i);
        }
        assert forall|k: Seq<char>| #![trigger self@.contains_key(k)]
            self@.contains_key(k) implies exists|i: int|
                0 <= i < self.spec_len() && (#[trigger] self.spec_entry(i)).0 == k by {
            let i = choose|i: int| 0 <= i < self.pairs().len() && self.pairs()[i].0 == k;
            assert(self.spec_entry(i).0 == k);
        }
    }

    /// Every count fits in a `usize`.
    pub proof fn lemma_bounded(&self)
        requires
            self.wf(),
        ensures
            forall|l: Seq<char>| #[trigger] count_of(self@, l) <= count_cap(),
    {
        self.lemma_entries();
        assert forall|l: Seq<char>| #[trigger] count_of(self@, l) <= count_cap() by {
            if self@.contains_key(l) {
                let i = choose|i: int| 0 <= i < self.spec_len() && (#[trigger] self.spec_entry(i)).0 == l;
                assert(self.pairs()[i] == (self.entries@[i].0@, self.entries@[i].1 as nat));
            }
        }
    }

    /// The lint name and count of entry `i`, in the order the lints were first counted.
    pub fn entry(&self, i: usize) -> (r: (&String, usize))
        requires
            self.wf(),
            i < self.spec_len(),
        ensures
            (r.0@, r.1 as nat) == self.spec_entry(i as int),
            self@.contains_key(r.0@),
            self@[r.0@] == r.1,
    {
        proof { lemma_assoc_at(self.pairs(), i as int); }
        (&self.entries[i].0, self.entries[i].1)
    }

    /// The place of `lint` among the entries, if it has one.
    fn find(&self, lint: &String) -> (r: Option<usize>)
        requires
            self.wf(),
        ensures
            r.is_none() == !self@.contains_key(lint@),
            r.is_some() ==> r.unwrap() < self.spec_len() && self.pairs()[r.unwrap() as int].0 == lint@,
    {
        let mut i: usize = 0;
        while i < self.entries.len()
            invariant
                i <= self.entries@.len(),
                forall|j: int| 0 <= j < i ==> self.pairs()[j].0 != lint@,
            decreases self.entries@.len() - i,
        {
            proof { assert(self.pairs()[i as int].0 == self.entries@[i as int].0@); }
            if self.entries[i].0 == *lint {
                return Some(i);
            }
            i = i + 1;
        }
        None
    }

    /// The count of `lint`, zero where it has none.
    pub fn get(&self, lint: &String) -> (r: usize)
        requires
            self.wf(),
        ensures
            r as nat == count_of(self@, lint@),
    {
        match self.find(lint) {
            Some(i) => {
                proof { lemma_assoc_at(self.pairs(), i as int); }
                self.entries[i].1
            },
            None => 0,
        }
    }

    /// Sets the count of `lint` to `n`.
    pub fn set(&mut self, lint: &String, n: usize)
        requires
            old(self).wf(),
        ensures
            final(self).wf(),
            final(self)@ == old(self)@.insert(lint@, n as nat),
    {
        match self.find(lint) {
            Some(i) => {
                let name = self.entries[i].0.clone();
                proof { lemma_assoc_set(self.pairs(), i as int, n as nat); }
                self.entries.set(i, (name, n));
                proof {
                    assert(self.pairs() =~= old(self).pairs().update(i as int, (lint@, n as nat)));
                }
            },
            None => {
                proof { lemma_assoc_push(self.pairs(), lint@, n as nat); }
                self.entries.push((lint.clone(), n));
                proof { assert(self.pairs() =~= old(self).pairs().push((lint@, n as nat))); }
            },
        }
    }

    /// Adds `n` to the count of `lint`, saturating at the largest count.
    pub fn add(&mut self, lint: &String, n: usize)
        requires
            old(self).wf(),
        ensures
            final(self).wf(),
            final(self)@ == old(self)@.insert(lint@, capped(count_of(old(self)@, lint@) + n as nat)),
    {
        let c = self.get(lint);
        self.set(lint, c.saturating_add(n));
    }

    /// Raises the count of `lint` to `n` where it is lower, adding the lint if needed.
    pub fn raise(&mut self, lint: &String, n: usize)
        requires
            old(self).wf(),
        ensures
            final(self).wf(),
            final(self)@ == old(self)@.insert(lint@, max_count(count_of(old(self)@, lint@), n as nat)),
    {
        let c = self.get(lint);
        self.set(lint, if c < n { n } else { c });
    }

    /// The same lints, each count lowered to that of `other` where it is lower there;
    /// a lint that `other` lacks counts as zero in it.
    pub fn lowered_to(&self, other: &LintCounts) -> (r: LintCounts)
        requires
            self.wf(),
            other.wf(),
        ensures
            r.wf(),
            r@.dom() == self@.dom(),
            forall|l: Seq<char>|
                #[trigger] r@.contains_key(l) ==> r@[l] == min_count(self@[l], count_of(other@, l)),
    {
        proof { self.lemma_entries(); }
        let mut r = LintCounts::new();
        let mut i: usize = 0;
        while i < self.entries.len()
            invariant
                self.wf(),
                other.wf(),
                r.wf(),
                i <= self.spec_len(),
                self.spec_len() == self.entries@.len(),
                forall|k: Seq<char>|
                    #![trigger r@.contains_key(k)]
                    r@.contains_key(k) <==> exists|j: int|
                        0 <= j < i && (#[trigger] self.spec_entry(j)).0 == k,
                forall|k: Seq<char>|
                    #[trigger] r@.contains_key(k) ==> self@.contains_key(k) && r@[k] == min_count(
                        self@[k],
                        count_of(other@, k),
                    ),
            decreases self.entries@.len() - i,
        {
            let (name, c) = self.entry(i);
            let o = other.get(name);
            r.set(name, if o < c { o } else { c });
            proof {
                assert forall|k: Seq<char>| #![trigger r@.contains_key(k)]
                    r@.contains_key(k) <==> exists|j: int|
                        0 <= j < i + 1 && (#[trigger] self.spec_entry(j)).0 == k by {
                    if k == name@ {
                        assert(self.spec_entry(i as int).0 == k);
                    }
                }
            }
            i = i + 1;
        }
        proof {
            assert(r@.dom() =~= self@.dom());
        }
        r
    }

    /// The lints of both, each with the larger of its two counts.
    pub fn raised_to(&self, other: &LintCounts) -> (r: LintCounts)
        requires
            self.wf(),
            other.wf(),
        ensures
            r.wf(),
            r@.dom() == self@.dom().union(other@.dom()),
            forall|l: Seq<char>|
                #[trigger] r@.contains_key(l) ==> r@[l] == max_count(
                    count_of(self@, l),
                    count_of(other@, l),
                ),
    {
        proof {
            self.lemma_entries();
            other.lemma_entries();
        }
        let mut r = LintCounts::new();
        let mut i: usize = 0;
        while i < self.entries.len()
            invariant
                self.wf(),
                other.wf(),
                r.wf(),
                i <= self.spec_len(),
                self.spec_len() == self.entries@.len(),
                forall|k: Seq<char>|
                    #![trigger r@.contains_key(k)]
                    r@.contains_key(k) <==> exists|j: int|
                        0 <= j < i && (#[trigger] self.spec_entry(j)).0 == k,
                forall|k: Seq<char>|
                    #[trigger] r@.contains_key(k) ==> r@[k] == max_count(
                        count_of(self@, k),
                        count_of(other@, k),
                    ),
            decreases self.entries@.len() - i,
        {
            let (name, c) = self.entry(i);
            let o = other.get(name);
            r.raise(name, if o < c { c } else { o });
            proof {
                assert forall|k: Seq<char>| #![trigger r@.contains_key(k)]
                    r@.contains_key(k) <==> exists|j: int|
                        0 <= j < i + 1 && (#[trigger] self.spec_entry(j)).0 == k by {
                    if k == name@ {
                        assert(self.spec_entry(i as int).0 == k);
                    }
                }
            }
            i = i + 1;
        }
        let mut i: usize = 0;
        while i < other.entries.len()
            invariant
                self.wf(),
                other.wf(),
                r.wf(),
                i <= other.spec_len(),
                other.spec_len() == other.entries@.len(),
                forall|k: Seq<char>|
                    #![trigger r@.contains_key(k)]
                    r@.contains_key(k) <==> self@.contains_key(k) || exists|j: int|
                        0 <= j < i && (#[trigger] other.spec_entry(j)).0 == k,
                forall|k: Seq<char>|
                    #[trigger] r@.contains_key(k) ==> r@[k] == max_count(
                        count_of(self@, k),
                        count_of(other@, k),
                    ),
            decreases other.entries@.len() - i,
        {
            let (name, c) = other.entry(i);
            let s = self.get(name);
            r.raise(name, if s < c { c } else { s });
            proof {
                assert forall|k: Seq<char>| #![trigger r@.contains_key(k)]
                    r@.contains_key(k) <==> self@.contains_key(k) || exists|j: int|
                        0 <= j < i + 1 && (#[trigger] other.spec_entry(j)).0 == k by {
                    if k == name@ {
                        assert(other.spec_entry(i as int).0 == k);
                    }
                }
            }
            i = i + 1;
        }
        proof {
            assert(r@.dom() =~= self@.dom().union(other@.dom()));
        }
        r
    }
}

impl View for LintCounts {
    type V = Map<Seq<char>, nat>;

    open spec fn view(&self) -> Map<Seq<char>, nat> {
        assoc_map(self.pairs())
    }
}

} // verus!
