//! The ledger of suppression counts per file, the comparison of an observed
//! ledger with the recorded baseline, and the two ways the baseline changes.
use vstd::prelude::*;

use crate::counts::{
    assoc_map, count_of, keys_unique, lemma_assoc_at, lemma_assoc_push, lemma_assoc_set, max_count,
    min_count, LintCounts,
};
use crate::scan::{count_suppressed_lints, file_counts, SourceFile};

verus! {

/// A ledger as a map from file path to the counts of that file.
pub type LedgerMap = Map<Seq<char>, Map<Seq<char>, nat>>;

/// The counts recorded for `file`, none where the file has no entry.
pub open spec fn file_lints(m: LedgerMap, file: Seq<char>) -> Map<Seq<char>, nat> {
    if m.contains_key(file) {
        m[file]
    } else {
        Map::empty()
    }
}

/// The count of `lint` in `file`, zero where either has no entry.
pub open spec fn lint_count(m: LedgerMap, file: Seq<char>, lint: Seq<char>) -> nat {
    count_of(file_lints(m, file), lint)
}

/// Whether the ledger holds an entry for `lint` in `file`.
pub open spec fn recorded(m: LedgerMap, file: Seq<char>, lint: Seq<char>) -> bool {
    m.contains_key(file) && m[file].contains_key(lint)
}

/// The paths of a list of examined files.
pub open spec fn examined_set(files: Seq<String>) -> Set<Seq<char>> {
    Set::new(|f: Seq<char>| exists|i: int| 0 <= i < files.len() && files[i]@ == f)
}

/// Some file holds more suppressions of some lint than the baseline allows
/// (a lint the baseline lacks allows none).
pub open spec fn regresses(observed: LedgerMap, baseline: LedgerMap) -> bool {
    exists|f: Seq<char>, l: Seq<char>|
        #[trigger] lint_count(observed, f, l) > lint_count(baseline, f, l)
}

/// Some baseline entry is above what was observed, for a lint observed in that
/// file or for a file that was examined.
pub open spec fn improves(observed: LedgerMap, baseline: LedgerMap, examined: Set<Seq<char>>) -> bool {
    exists|f: Seq<char>, l: Seq<char>|
        #[trigger] recorded(baseline, f, l) && lint_count(observed, f, l) < baseline[f][l] && (
        recorded(observed, f, l) || examined.contains(f))
}

/// `after` has the lints of `before`, each lowered to its count in `observed`
/// where that is lower (a lint missing there counts as zero).
pub open spec fn is_lowered(
    after: Map<Seq<char>, nat>,
    before: Map<Seq<char>, nat>,
    observed: Map<Seq<char>, nat>,
) -> bool {
    &&& after.dom() == before.dom()
    &&& forall|l: Seq<char>|
        #[trigger] after.contains_key(l) ==> after[l] == min_count(before[l], count_of(observed, l))
}

/// `after` has the lints of both `before` and `observed`, each with the larger
/// of its two counts (a missing lint counts as zero).
pub open spec fn is_raised(
    after: Map<Seq<char>, nat>,
    before: Map<Seq<char>, nat>,
    observed: Map<Seq<char>, nat>,
) -> bool {
    &&& after.dom() == before.dom().union(observed.dom())
    &&& forall|l: Seq<char>|
        #[trigger] after.contains_key(l) ==> after[l] == max_count(
            count_of(before, l),
            count_of(observed, l),
        )
}

/// `after` is the baseline `before` tightened around `observed`: the examined
/// files have their counts lowered, the others keep theirs, and no file is
/// added or removed.
pub open spec fn shrunk_by(
    after: LedgerMap,
    before: LedgerMap,
    observed: LedgerMap,
    examined: Set<Seq<char>>,
) -> bool {
    &&& after.dom() == before.dom()
    &&& forall|f: Seq<char>|
        #[trigger] after.contains_key(f) ==> if examined.contains(f) {
            is_lowered(after[f], before[f], file_lints(observed, f))
        } else {
            after[f] == before[f]
        }
}

/// `after` is the baseline `before` grown to take in `observed`: every observed
/// file has its counts raised, the others keep theirs.
pub open spec fn grown_by(after: LedgerMap, before: LedgerMap, observed: LedgerMap) -> bool {
    &&& after.dom() == before.dom().union(observed.dom())
    &&& forall|f: Seq<char>|
        #[trigger] after.contains_key(f) ==> if observed.contains_key(f) {
            is_raised(after[f], file_lints(before, f), observed[f])
        } else {
            after[f] == before[f]
        }
}

/// A suppression of `lint` in `file` that the baseline records and that the
/// observation, covering `file`, no longer has.
pub open spec fn is_resolved(
    baseline: LedgerMap,
    observed: LedgerMap,
    examined: Set<Seq<char>>,
    file: Seq<char>,
    lint: Seq<char>,
) -> bool {
    &&& examined.contains(file)
    &&& recorded(baseline, file, lint)
    &&& baseline[file][lint] > 0
    &&& lint_count(observed, file, lint) == 0
}

/// Whether `file` is among `examined`.
pub fn is_examined(examined: &Vec<String>, file: &String) -> (r: bool)
    ensures
        r == examined_set(examined@).contains(file@),
{
    let mut i: usize = 0;
    while i < examined.len()
        invariant
            i <= examined@.len(),
            forall|j: int| 0 <= j < i ==> examined@[j]@ != file@,
        decreases examined@.len() - i,
    {
        if examined[i] == *file {
            return true;
        }
        i = i + 1;
    }
    false
}

/// How the observed counts relate to the baseline.
#[derive(Debug, Clone, Copy, PartialEq, Eq, Structural)]
pub enum Relationship {
    /// Nothing got worse and nothing got better.
    Expected,
    /// Nothing got worse and something got better.
    ProperSubset,
    /// Some count went up, or a new suppression appeared.
    NotASubset,
}

/// The verdict of comparing `observed` with `baseline` for the examined files:
/// any regression wins, then any improvement.
pub open spec fn verdict(observed: LedgerMap, baseline: LedgerMap, examined: Set<Seq<char>>) -> Relationship {
    if regresses(observed, baseline) {
        Relationship::NotASubset
    } else if improves(observed, baseline, examined) {
        Relationship::ProperSubset
    } else {
        Relationship::Expected
    }
}

impl Relationship {
    /// The exit status that reports this verdict to the commit hook: success
    /// when nothing changed, and distinct failures for a regression and for a
    /// tightened baseline that must be staged again.
    pub fn exit_code(&self) -> (r: i32)
        ensures
            r == match self {
                Relationship::Expected => 0i32,
                Relationship::NotASubset => 1i32,
                Relationship::ProperSubset => 2i32,
            },
    {
        match self {
            Relationship::Expected => 0,
            Relationship::NotASubset => 1,
            Relationship::ProperSubset => 2,
        }
    }
}

/// Suppression counts per file: the baseline, or what a run observed.
pub struct SupressedLints {
    lints: Vec<(String, LintCounts)>,
}

impl SupressedLints {
    /// The files as an association list of paths and count maps.
    pub closed spec fn pairs(&self) -> Seq<(Seq<char>, Map<Seq<char>, nat>)> {
        self.lints@.map_values(|e: (String, LintCounts)| (e.0@, e.1@))
    }

    /// No file has two entries, and each file's counts are well formed.
    pub closed spec fn wf(&self) -> bool {
        &&& keys_unique(self.pairs())
        &&& forall|i: int| 0 <= i < self.lints@.len() ==> (#[trigger] self.lints@[i]).1.wf()
    }

    /// The number of files with an entry.
    pub closed spec fn spec_len(&self) -> nat {
        self.lints@.len()
    }

    /// The path of entry `i`.
    pub closed spec fn spec_path(&self, i: int) -> Seq<char> {
        self.lints@[i].0@
    }

    /// The entries list exactly the files of the map.
    pub proof fn lemma_entries(&self)
        requires
            self.wf(),
        ensures
            forall|k: Seq<char>|
                #![trigger self@.contains_key(k)]
                self@.contains_key(k) <==> exists|i: int|
                    0 <= i < self.spec_len() && #[trigger] self.spec_path(i) == k,
            forall|i: int|
                #![trigger self.spec_path(i)]
                0 <= i < self.spec_len() ==> self@.contains_key(self.spec_path(i)),
            forall|i: int, j: int|
                0 <= i < j < self.spec_len() ==> #[trigger] self.spec_path(i) != #[trigger] self.spec_path(j),
    {
        assert forall|i: int, j: int|
            0 <= i < j < self.spec_len() implies #[trigger] self.spec_path(i) != #[trigger] self.spec_path(j) by {
            assert(self.pairs()[i].0 == self.spec_path(i) && self.pairs()[j].0 == self.spec_path(j));
        }
        assert forall|i: int|
            #![trigger self.spec_path(i)]
            0 <= i < self.spec_len() implies self@.contains_key(self.spec_path(i)) by {
            lemma_assoc_at(self.pairs(), i);
        }
        assert forall|k: Seq<char>| #![trigger self@.contains_key(k)]
            self@.contains_key(k) implies exists|i: int|
                0 <= i < self.spec_len() && #[trigger] self.spec_path(i) == k by {
            let i = choose|i: int| 0 <= i < self.pairs().len() && self.pairs()[i].0 == k;
            assert(self.spec_path(i) == k);
        }
    }

    /// An empty ledger.
    pub fn new() -> (r: SupressedLints)
        ensures
            r.wf(),
            r@ == LedgerMap::empty(),
    {
        let r = SupressedLints { lints: Vec::new() };
        assert(assoc_map(r.pairs()) =~= LedgerMap::empty());
        r
    }

    /// The number of files with an entry.
    pub fn len(&self) -> (r: usize)
        requires
            self.wf(),
        ensures
            r == self.spec_len(),
    {
        self.lints.len()
    }

    /// The path and counts of entry `i`.
    pub fn entry(&self, i: usize) -> (r: (&String, &LintCounts))
        requires
            self.wf(),
            i < self.spec_len(),
        ensures
            r.0@ == self.spec_path(i as int),
            r.1.wf(),
            self@.contains_key(r.0@),
            self@[r.0@] == r.1@,
    {
        proof {
            lemma_assoc_at(self.pairs(), i as int);
        }
        (&self.lints[i].0, &self.lints[i].1)
    }

    /// The place of `file` among the entries, if it has one.
    fn find(&self, file: &String) -> (r: Option<usize>)
        requires
            self.wf(),
        ensures
            r.is_none() == !self@.contains_key(file@),
            r.is_some() ==> r.unwrap() < self.spec_len() && self.spec_path(r.unwrap() as int) == file@,
    {
        let mut i: usize = 0;
        while i < self.lints.len()
            invariant
                i <= self.lints@.len(),
                forall|j: int| 0 <= j < i ==> self.pairs()[j].0 != file@,
            decreases self.lints@.len() - i,
        {
            proof { assert(self.pairs()[i as int].0 == self.lints@[i as int].0@); }
            if self.lints[i].0 == *file {
                return Some(i);
            }
            i = i + 1;
        }
        None
    }

    /// The counts recorded for `file`, if it has an entry.
    pub fn lints_of(&self, file: &String) -> (r: Option<&LintCounts>)
        requires
            self.wf(),
        ensures
            r.is_none() == !self@.contains_key(file@),
            r.is_some() ==> r.unwrap().wf() && r.unwrap()@ == self@[file@],
    {
        match self.find(file) {
            Some(i) => Some(self.entry(i).1),
            None => None,
        }
    }

    /// The count of `lint` in `file`, zero where either has no entry.
    pub fn count(&self, file: &String, lint: &String) -> (r: usize)
        requires
            self.wf(),
        ensures
            r as nat == lint_count(self@, file@, lint@),
    {
        match self.lints_of(file) {
            Some(c) => c.get(lint),
            None => 0,
        }
    }

    /// Records `counts` as the counts of `file`, replacing any earlier entry.
    pub fn insert(&mut self, file: String, counts: LintCounts)
        requires
            old(self).wf(),
            counts.wf(),
        ensures
            final(self).wf(),
            final(self)@ == old(self)@.insert(file@, counts@),
            old(self)@.contains_key(file@) ==> final(self).spec_len() == old(self).spec_len() && forall|i: int|
                0 <= i < old(self).spec_len() ==> #[trigger] final(self).spec_path(i) == old(self).spec_path(i),
    {
        let ghost v = counts@;
        match self.find(&file) {
            Some(i) => {
                proof { lemma_assoc_set(self.pairs(), i as int, v); }
                self.lints.set(i, (file, counts));
                proof {
                    assert(self.pairs() =~= old(self).pairs().update(i as int, (old(self).pairs()[i as int].0, v)));
                }
            },
            None => {
                let ghost k = file@;
                proof { lemma_assoc_push(self.pairs(), k, v); }
                self.lints.push((file, counts));
                proof { assert(self.pairs() =~= old(self).pairs().push((k, v))); }
            },
        }
    }

    /// A file and lint whose observed count (`self`) is above what `baseline`
    /// allows, the first in the order of the entries; none if no count regressed.
    pub fn regression(&self, baseline: &SupressedLints) -> (r: Option<(String, String)>)
        requires
            self.wf(),
            baseline.wf(),
        ensures
            r.is_none() == !regresses(self@, baseline@),
            r.is_some() ==> lint_count(self@, r.unwrap().0@, r.unwrap().1@) > lint_count(
                baseline@,
                r.unwrap().0@,
                r.unwrap().1@,
            ),
    {
        proof { self.lemma_entries(); }
        let mut i: usize = 0;
        while i < self.len()
            invariant
                self.wf(),
                baseline.wf(),
                i <= self.spec_len(),
                forall|ii: int, l: Seq<char>|
                    0 <= ii < i ==> #[trigger] lint_count(self@, self.spec_path(ii), l) <= lint_count(
                        baseline@,
                        self.spec_path(ii),
                        l,
                    ),
            decreases self.spec_len() - i,
        {
            let (file, counts) = self.entry(i);
            proof { counts.lemma_entries(); }
            let mut j: usize = 0;
            while j < counts.len()
                invariant
                    self.wf(),
                    baseline.wf(),
                    counts.wf(),
                    self@.contains_key(file@),
                    self@[file@] == counts@,
                    j <= counts.spec_len(),
                    forall|jj: int|
                        0 <= jj < j ==> lint_count(self@, file@, (#[trigger] counts.spec_entry(jj)).0)
                            <= lint_count(baseline@, file@, counts.spec_entry(jj).0),
                decreases counts.spec_len() - j,
            {
                let (lint, c) = counts.entry(j);
                let b = baseline.count(file, lint);
                if c > b {
                    proof {
                        assert(lint_count(self@, file@, lint@) == c);
                        assert(lint_count(self@, file@, lint@) > lint_count(baseline@, file@, lint@));
                    }
                    return Some((file.clone(), lint.clone()));
                }
                j = j + 1;
            }
            proof {
                assert forall|l: Seq<char>|
                    lint_count(self@, file@, l) <= lint_count(baseline@, file@, l) by {
                    if counts@.contains_key(l) {
                        let jj = choose|jj: int| 0 <= jj < counts.spec_len() && (#[trigger] counts.spec_entry(jj)).0 == l;
                    }
                }
            }
            i = i + 1;
        }
        proof {
            assert forall|f: Seq<char>, l: Seq<char>|
                !(#[trigger] lint_count(self@, f, l) > lint_count(baseline@, f, l)) by {
                if self@.contains_key(f) {
                    let ii = choose|ii: int| 0 <= ii < self.spec_len() && #[trigger] self.spec_path(ii) == f;
                    assert(lint_count(self@, self.spec_path(ii), l) <= lint_count(baseline@, self.spec_path(ii), l));
                }
            }
        }
        None
    }

    /// Whether some baseline count is above what was observed (`self`), for a
    /// lint observed in that file or for a file among `examined`.
    pub fn improvement(&self, baseline: &SupressedLints, examined: &Vec<String>) -> (r: bool)
        requires
            self.wf(),
            baseline.wf(),
        ensures
            r == improves(self@, baseline@, examined_set(examined@)),
    {
        let ghost ex = examined_set(examined@);
        proof { self.lemma_entries(); }
        let mut i: usize = 0;
        while i < self.len()
            invariant
                self.wf(),
                baseline.wf(),
                i <= self.spec_len(),
                forall|ii: int, l: Seq<char>|
                    0 <= ii < i ==> !(#[trigger] recorded(baseline@, self.spec_path(ii), l)
                        && lint_count(self@, self.spec_path(ii), l) < baseline@[self.spec_path(ii)][l]
                        && recorded(self@, self.spec_path(ii), l)),
            decreases self.spec_len() - i,
        {
            let (file, counts) = self.entry(i);
            proof { counts.lemma_entries(); }
            let mut j: usize = 0;
            while j < counts.len()
                invariant
                    self.wf(),
                    baseline.wf(),
                    counts.wf(),
                    self@.contains_key(file@),
                    self@[file@] == counts@,
                    j <= counts.spec_len(),
                    forall|jj: int|
                        0 <= jj < j ==> !(recorded(baseline@, file@, (#[trigger] counts.spec_entry(jj)).0)
                            && lint_count(self@, file@, counts.spec_entry(jj).0)
                            < baseline@[file@][counts.spec_entry(jj).0]),
                decreases counts.spec_len() - j,
            {
                let (lint, c) = counts.entry(j);
                let b = baseline.count(file, lint);
                if c < b {
                    proof {
                        assert(recorded(baseline@, file@, lint@));
                        assert(lint_count(self@, file@, lint@) == c);
                        assert(recorded(self@, file@, lint@));
                    }
                    return true;
                }
                j = j + 1;
            }
            proof {
                assert forall|l: Seq<char>|
                    !(#[trigger] recorded(baseline@, file@, l) && lint_count(self@, file@, l)
                        < baseline@[file@][l] && recorded(self@, file@, l)) by {
                    if counts@.contains_key(l) {
                        let jj = choose|jj: int| 0 <= jj < counts.spec_len() && (#[trigger] counts.spec_entry(jj)).0 == l;
                    }
                }
            }
            i = i + 1;
        }
        let mut k: usize = 0;
        while k < examined.len()
            invariant
                self.wf(),
                baseline.wf(),
                k <= examined@.len(),
                ex == examined_set(examined@),
                forall|kk: int, l: Seq<char>|
                    0 <= kk < k ==> !(#[trigger] recorded(baseline@, examined@[kk]@, l)
                        && lint_count(self@, examined@[kk]@, l) < baseline@[examined@[kk]@][l]),
            decreases examined@.len() - k,
        {
            let file = &examined[k];
            match baseline.lints_of(file) {
                Some(counts) => {
                    proof { counts.lemma_entries(); }
                    let mut j: usize = 0;
                    while j < counts.len()
                        invariant
                            self.wf(),
                            baseline.wf(),
                            counts.wf(),
                            baseline@.contains_key(file@),
                            baseline@[file@] == counts@,
                            k < examined@.len(),
                            examined@[k as int] == *file,
                            ex == examined_set(examined@),
                            j <= counts.spec_len(),
                            forall|jj: int|
                                0 <= jj < j ==> !(lint_count(self@, file@, (#[trigger] counts.spec_entry(jj)).0)
                                    < counts.spec_entry(jj).1),
                        decreases counts.spec_len() - j,
                    {
                        let (lint, b) = counts.entry(j);
                        let c = self.count(file, lint);
                        if c < b {
                            proof {
                                assert(recorded(baseline@, file@, lint@));
                                assert(examined@[k as int]@ == file@);
                                assert(ex.contains(file@));
                                assert(lint_count(self@, file@, lint@) < baseline@[file@][lint@]);
                            }
                            return true;
                        }
                        j = j + 1;
                    }
                    proof {
                        assert forall|l: Seq<char>|
                            !(#[trigger] recorded(baseline@, file@, l) && lint_count(self@, file@, l)
                                < baseline@[file@][l]) by {
                            if counts@.contains_key(l) {
                                let jj = choose|jj: int| 0 <= jj < counts.spec_len() && (#[trigger] counts.spec_entry(jj)).0 == l;
                            }
                        }
                    }
                },
                None => {},
            }
            k = k + 1;
        }
        proof {
            assert forall|f: Seq<char>, l: Seq<char>|
                !(#[trigger] recorded(baseline@, f, l) && lint_count(self@, f, l) < baseline@[f][l] && (
                recorded(self@, f, l) || ex.contains(f))) by {
                if recorded(baseline@, f, l) && lint_count(self@, f, l) < baseline@[f][l] {
                    if self@.contains_key(f) {
                        let ii = choose|ii: int| 0 <= ii < self.spec_len() && #[trigger] self.spec_path(ii) == f;
                        assert(!(recorded(baseline@, self.spec_path(ii), l)
                        && lint_count(self@, self.spec_path(ii), l) < baseline@[self.spec_path(ii)][l]
                        && recorded(self@, self.spec_path(ii), l)));
                    }
                    if ex.contains(f) {
                        let kk = choose|kk: int| 0 <= kk < examined@.len() && examined@[kk]@ == f;
                        assert(!(recorded(baseline@, examined@[kk]@, l)
                        && lint_count(self@, examined@[kk]@, l) < baseline@[examined@[kk]@][l]));
                    }
                }
            }
        }
        false
    }

    /// How the observed counts (`self`) relate to `baseline` for the `examined` files.
    pub fn vis_a_vis(&self, baseline: &SupressedLints, examined: &Vec<String>) -> (r: Relationship)
        requires
            self.wf(),
            baseline.wf(),
        ensures
            r == verdict(self@, baseline@, examined_set(examined@)),
    {
        if self.regression(baseline).is_some() {
            Relationship::NotASubset
        } else if self.improvement(baseline, examined) {
            Relationship::ProperSubset
        } else {
            Relationship::Expected
        }
    }

    /// Tightens the baseline (`self`) around the observed counts: for each
    /// examined file, each recorded lint is lowered to its observed count where
    /// that is lower (zero where it was not observed). Other files keep their
    /// counts, and no file or lint is added or removed.
    pub fn shrink_around(&mut self, other: &SupressedLints, examined: &Vec<String>)
        requires
            old(self).wf(),
            other.wf(),
        ensures
            final(self).wf(),
            shrunk_by(final(self)@, old(self)@, other@, examined_set(examined@)),
            forall|f: Seq<char>, l: Seq<char>|
                #[trigger] lint_count(final(self)@, f, l) <= lint_count(old(self)@, f, l),
    {
        let ghost ex = examined_set(examined@);
        proof { old(self).lemma_entries(); }
        let empty = LintCounts::new();
        let mut i: usize = 0;
        while i < self.len()
            invariant
                self.wf(),
                other.wf(),
                empty.wf(),
                empty@ == Map::<Seq<char>, nat>::empty(),
                ex == examined_set(examined@),
                i <= self.spec_len(),
                self.spec_len() == old(self).spec_len(),
                forall|ii: int|
                    0 <= ii < old(self).spec_len() ==> #[trigger] self.spec_path(ii) == old(self).spec_path(ii),
                forall|a: int, b: int|
                    0 <= a < b < old(self).spec_len() ==> #[trigger] old(self).spec_path(a) != #[trigger] old(self).spec_path(b),
                self@.dom() == old(self)@.dom(),
                forall|f: Seq<char>|
                    #[trigger] self@.contains_key(f) ==> if ex.contains(f) && exists|ii: int|
                        0 <= ii < i && #[trigger] old(self).spec_path(ii) == f {
                        is_lowered(self@[f], old(self)@[f], file_lints(other@, f))
                    } else {
                        self@[f] == old(self)@[f]
                    },
            decreases self.spec_len() - i,
        {
            let (path, counts) = self.entry(i);
            let ghost p = path@;
            if is_examined(examined, path) {
                let observed = match other.lints_of(path) {
                    Some(c) => c,
                    None => &empty,
                };
                let lowered = counts.lowered_to(observed);
                let path = path.clone();
                proof {
                    assert(old(self).spec_path(i as int) == p);
                    assert forall|ii: int| 0 <= ii < i implies #[trigger] old(self).spec_path(ii) != p by {}
                    assert(self@[p] == old(self)@[p]);
                    assert(observed@ == file_lints(other@, p));
                }
                self.insert(path, lowered);
                proof {
                    assert forall|f: Seq<char>|
                        #[trigger] self@.contains_key(f) implies if ex.contains(f) && exists|ii: int|
                            0 <= ii < i + 1 && #[trigger] old(self).spec_path(ii) == f {
                            is_lowered(self@[f], old(self)@[f], file_lints(other@, f))
                        } else {
                            self@[f] == old(self)@[f]
                        } by {
                        if f == p {
                            assert(old(self).spec_path(i as int) == f);
                        }
                    }
                }
            } else {
                proof {
                    assert forall|f: Seq<char>|
                        #[trigger] self@.contains_key(f) implies if ex.contains(f) && exists|ii: int|
                            0 <= ii < i + 1 && #[trigger] old(self).spec_path(ii) == f {
                            is_lowered(self@[f], old(self)@[f], file_lints(other@, f))
                        } else {
                            self@[f] == old(self)@[f]
                        } by {
                        if ex.contains(f) && exists|ii: int| 0 <= ii < i + 1 && #[trigger] old(self).spec_path(ii) == f {
                            let ii = choose|ii: int| 0 <= ii < i + 1 && #[trigger] old(self).spec_path(ii) == f;
                            assert(ii != i);
                        }
                    }
                }
            }
            i = i + 1;
        }
        proof {
            assert forall|f: Seq<char>|
                #[trigger] self@.contains_key(f) implies if ex.contains(f) {
                    is_lowered(self@[f], old(self)@[f], file_lints(other@, f))
                } else {
                    self@[f] == old(self)@[f]
                } by {
                let ii = choose|ii: int| 0 <= ii < old(self).spec_len() && #[trigger] old(self).spec_path(ii) == f;
            }
            assert forall|f: Seq<char>, l: Seq<char>|
                #[trigger] lint_count(self@, f, l) <= lint_count(old(self)@, f, l) by {
                if self@.contains_key(f) && ex.contains(f) {
                    assert(is_lowered(self@[f], old(self)@[f], file_lints(other@, f)));
                    if self@[f].contains_key(l) {
                        assert(self@[f][l] <= old(self)@[f][l]);
                    }
                }
            }
        }
    }

    /// Grows the baseline (`self`) to take in the observed counts: every file and
    /// lint of `other` gets an entry, with the larger of the recorded and the
    /// observed count. Files that `other` lacks keep their counts.
    pub fn grow_around(&mut self, other: &SupressedLints)
        requires
            old(self).wf(),
            other.wf(),
        ensures
            final(self).wf(),
            grown_by(final(self)@, old(self)@, other@),
            forall|f: Seq<char>, l: Seq<char>|
                #[trigger] lint_count(final(self)@, f, l) >= lint_count(old(self)@, f, l),
    {
        proof { other.lemma_entries(); }
        let mut i: usize = 0;
        while i < other.len()
            invariant
                self.wf(),
                other.wf(),
                i <= other.spec_len(),
                forall|a: int, b: int|
                    0 <= a < b < other.spec_len() ==> #[trigger] other.spec_path(a) != #[trigger] other.spec_path(b),
                forall|ii: int|
                    #![trigger other.spec_path(ii)]
                    0 <= ii < other.spec_len() ==> other@.contains_key(other.spec_path(ii)),
                forall|f: Seq<char>|
                    #[trigger] self@.contains_key(f) <==> old(self)@.contains_key(f) || exists|ii: int|
                        0 <= ii < i && #[trigger] other.spec_path(ii) == f,
                forall|f: Seq<char>|
                    #[trigger] self@.contains_key(f) ==> if exists|ii: int|
                        0 <= ii < i && #[trigger] other.spec_path(ii) == f {
                        is_raised(self@[f], file_lints(old(self)@, f), other@[f])
                    } else {
                        self@[f] == old(self)@[f]
                    },
            decreases other.spec_len() - i,
        {
            let (path, observed) = other.entry(i);
            let ghost p = path@;
            proof {
                assert(other.spec_path(i as int) == p);
                assert forall|ii: int| 0 <= ii < i implies #[trigger] other.spec_path(ii) != p by {}
                assert(file_lints(self@, p) == file_lints(old(self)@, p));
            }
            let raised = match self.lints_of(path) {
                Some(c) => c.raised_to(observed),
                None => {
                    let empty = LintCounts::new();
                    empty.raised_to(observed)
                },
            };
            self.insert(path.clone(), raised);
            proof {
                assert forall|f: Seq<char>|
                    #[trigger] self@.contains_key(f) <==> old(self)@.contains_key(f) || exists|ii: int|
                        0 <= ii < i + 1 && #[trigger] other.spec_path(ii) == f by {
                    if f == p {
                        assert(other.spec_path(i as int) == f);
                    }
                }
                assert forall|f: Seq<char>|
                    #[trigger] self@.contains_key(f) implies if exists|ii: int|
                        0 <= ii < i + 1 && #[trigger] other.spec_path(ii) == f {
                        is_raised(self@[f], file_lints(old(self)@, f), other@[f])
                    } else {
                        self@[f] == old(self)@[f]
                    } by {
                    if f == p {
                        assert(other.spec_path(i as int) == f);
                        assert(self@[f] == raised@);
                    } else if exists|ii: int| 0 <= ii < i + 1 && #[trigger] other.spec_path(ii) == f {
                        let ii = choose|ii: int| 0 <= ii < i + 1 && #[trigger] other.spec_path(ii) == f;
                        assert(ii != i);
                    }
                }
            }
            i = i + 1;
        }
        proof {
            assert forall|f: Seq<char>|
                #[trigger] self@.contains_key(f) implies if other@.contains_key(f) {
                    is_raised(self@[f], file_lints(old(self)@, f), other@[f])
                } else {
                    self@[f] == old(self)@[f]
                } by {
                if other@.contains_key(f) {
                    let ii = choose|ii: int| 0 <= ii < other.spec_len() && #[trigger] other.spec_path(ii) == f;
                }
            }
            assert(self@.dom() =~= old(self)@.dom().union(other@.dom()));
            assert forall|f: Seq<char>, l: Seq<char>|
                #[trigger] lint_count(self@, f, l) >= lint_count(old(self)@, f, l) by {
                if old(self)@.contains_key(f) && other@.contains_key(f) {
                    assert(is_raised(self@[f], file_lints(old(self)@, f), other@[f]));
                    if old(self)@[f].contains_key(l) {
                        assert(self@[f].contains_key(l));
                    }
                }
            }
        }
    }

    /// Records the suppression counts of the source file `ast` under `file`,
    /// replacing any earlier entry of that file.
    pub fn load_suppressed_lints_from(&mut self, file: String, ast: &SourceFile)
        requires
            old(self).wf(),
        ensures
            final(self).wf(),
            final(self)@ == old(self)@.insert(file@, file_counts(*ast)),
    {
        let counts = count_suppressed_lints(ast);
        self.insert(file, counts);
    }

    /// The suppressions of the baseline (`self`) that the examined files no
    /// longer have: each file and lint with a positive recorded count and none
    /// observed.
    pub fn resolved_in(&self, observed: &SupressedLints, examined: &Vec<String>) -> (r: Vec<(String, String)>)
        requires
            self.wf(),
            observed.wf(),
        ensures
            forall|k: int|
                0 <= k < r@.len() ==> is_resolved(
                    self@,
                    observed@,
                    examined_set(examined@),
                    (#[trigger] r@[k]).0@,
                    r@[k].1@,
                ),
            forall|f: Seq<char>, l: Seq<char>|
                #[trigger] is_resolved(self@, observed@, examined_set(examined@), f, l) ==> exists|k: int|
                    0 <= k < r@.len() && (#[trigger] r@[k]).0@ == f && r@[k].1@ == l,
    {
        let ghost ex = examined_set(examined@);
        let mut r: Vec<(String, String)> = Vec::new();
        let mut k: usize = 0;
        while k < examined.len()
            invariant
                self.wf(),
                observed.wf(),
                ex == examined_set(examined@),
                k <= examined@.len(),
                forall|m: int|
                    0 <= m < r@.len() ==> is_resolved(self@, observed@, ex, (#[trigger] r@[m]).0@, r@[m].1@),
                forall|kk: int, l: Seq<char>|
                    0 <= kk < k && #[trigger] is_resolved(self@, observed@, ex, examined@[kk]@, l) ==> exists|m: int|
                        0 <= m < r@.len() && (#[trigger] r@[m]).0@ == examined@[kk]@ && r@[m].1@ == l,
            decreases examined@.len() - k,
        {
            let file = &examined[k];
            proof {
                assert(examined@[k as int]@ == file@);
                assert(ex.contains(file@));
            }
            match self.lints_of(file) {
                Some(counts) => {
                    proof { counts.lemma_entries(); }
                    let mut j: usize = 0;
                    while j < counts.len()
                        invariant
                            self.wf(),
                            observed.wf(),
                            counts.wf(),
                            ex == examined_set(examined@),
                            ex.contains(file@),
                            self@.contains_key(file@),
                            self@[file@] == counts@,
                            k < examined@.len(),
                            examined@[k as int] == *file,
                            j <= counts.spec_len(),
                            forall|m: int|
                                0 <= m < r@.len() ==> is_resolved(self@, observed@, ex, (#[trigger] r@[m]).0@, r@[m].1@),
                            forall|kk: int, l: Seq<char>|
                                0 <= kk < k && #[trigger] is_resolved(self@, observed@, ex, examined@[kk]@, l) ==> exists|m: int|
                                    0 <= m < r@.len() && (#[trigger] r@[m]).0@ == examined@[kk]@ && r@[m].1@ == l,
                            forall|jj: int|
                                0 <= jj < j && is_resolved(self@, observed@, ex, file@, (#[trigger] counts.spec_entry(jj)).0) ==> exists|m: int|
                                    0 <= m < r@.len() && (#[trigger] r@[m]).0@ == file@ && r@[m].1@ == counts.spec_entry(jj).0,
                        decreases counts.spec_len() - j,
                    {
                        let (lint, b) = counts.entry(j);
                        if b > 0 && observed.count(file, lint) == 0 {
                            let ghost prev = r@;
                            r.push((file.clone(), lint.clone()));
                            proof {
                                assert(r@[prev.len() as int] == (*file, *lint));
                                assert forall|m: int| 0 <= m < prev.len() implies r@[m] == prev[m] by {}
                            }
                        }
                        j = j + 1;
                    }
                    proof {
                        assert forall|kk: int, l: Seq<char>|
                            0 <= kk < k + 1 && #[trigger] is_resolved(self@, observed@, ex, examined@[kk]@, l) implies exists|m: int|
                                0 <= m < r@.len() && (#[trigger] r@[m]).0@ == examined@[kk]@ && r@[m].1@ == l by {
                            if kk == k {
                                let jj = choose|jj: int| 0 <= jj < counts.spec_len() && (#[trigger] counts.spec_entry(jj)).0 == l;
                            }
                        }
                    }
                },
                None => {
                    proof {
                        assert forall|kk: int, l: Seq<char>|
                            0 <= kk < k + 1 && #[trigger] is_resolved(self@, observed@, ex, examined@[kk]@, l) implies exists|m: int|
                                0 <= m < r@.len() && (#[trigger] r@[m]).0@ == examined@[kk]@ && r@[m].1@ == l by {
                            if kk == k {
                                assert(!recorded(self@, file@, l));
                            }
                        }
                    }
                },
            }
            k = k + 1;
        }
        proof {
            assert forall|f: Seq<char>, l: Seq<char>|
                #[trigger] is_resolved(self@, observed@, ex, f, l) implies exists|m: int|
                    0 <= m < r@.len() && (#[trigger] r@[m]).0@ == f && r@[m].1@ == l by {
                let kk = choose|kk: int| 0 <= kk < examined@.len() && examined@[kk]@ == f;
                assert(is_resolved(self@, observed@, ex, examined@[kk]@, l));
            }
        }
        r
    }

    /// One step of the ratchet on the baseline (`self`): compares `observed`
    /// with it for the `examined` files, then tightens it on an improvement, or
    /// grows it on a regression when `grow_anyway` is set. Returns the verdict
    /// and whether the baseline changed and must be persisted.
    pub fn apply_verdict(
        &mut self,
        observed: &SupressedLints,
        examined: &Vec<String>,
        grow_anyway: bool,
    ) -> (r: (Relationship, bool))
        requires
            old(self).wf(),
            observed.wf(),
        ensures
            final(self).wf(),
            r.0 == verdict(observed@, old(self)@, examined_set(examined@)),
            r.1 == (r.0 == Relationship::ProperSubset || (r.0 == Relationship::NotASubset
                && grow_anyway)),
            r.0 == Relationship::ProperSubset ==> shrunk_by(
                final(self)@,
                old(self)@,
                observed@,
                examined_set(examined@),
            ),
            r.0 == Relationship::NotASubset && grow_anyway ==> grown_by(
                final(self)@,
                old(self)@,
                observed@,
            ),
            !r.1 ==> final(self)@ == old(self)@,
    {
        let verdict = observed.vis_a_vis(self, examined);
        match verdict {
            Relationship::Expected => (verdict, false),
            Relationship::ProperSubset => {
                self.shrink_around(observed, examined);
                (verdict, true)
            },
            Relationship::NotASubset => {
                if grow_anyway {
                    self.grow_around(observed);
                }
                (verdict, grow_anyway)
            },
        }
    }
}

impl View for SupressedLints {
    type V = LedgerMap;

    open spec fn view(&self) -> LedgerMap {
        assoc_map(self.pairs())
    }
}

} // verus!
