//! Properties of the ratchet that relate several of its operations.
use vstd::prelude::*;

use crate::ledger::{
    examined_set, file_lints, grown_by, improves, is_lowered, is_raised, lint_count, recorded, regresses,
    shrunk_by, verdict, LedgerMap, Relationship,
};

use crate::scan::{attrs_weight, decls_weight, entries_weight, file_weight, weight, Attr, Decl, SourceFile};

verus! {

/// Comparing a ledger with itself finds nothing to report.
pub proof fn lemma_compare_with_itself(observed: LedgerMap, examined: Set<Seq<char>>)
    ensures
        verdict(observed, observed, examined) == Relationship::Expected,
{
    assert(!regresses(observed, observed));
    assert(!improves(observed, observed, examined));
}

/// Once the baseline has been tightened after a run that did not regress, the
/// same observation of the same files compares as expected: the ratchet clicks
/// once, not again on every run.
pub proof fn lemma_rerun_after_shrink(
    observed: LedgerMap,
    before: LedgerMap,
    after: LedgerMap,
    examined: Set<Seq<char>>,
)
    requires
        forall|f: Seq<char>| #[trigger] observed.contains_key(f) ==> examined.contains(f),
        !regresses(observed, before),
        shrunk_by(after, before, observed, examined),
    ensures
        verdict(observed, after, examined) == Relationship::Expected,
{
    assert forall|f: Seq<char>, l: Seq<char>|
        !(#[trigger] lint_count(observed, f, l) > lint_count(after, f, l)) by {
        assert(lint_count(observed, f, l) <= lint_count(before, f, l));
        if observed.contains_key(f) && lint_count(observed, f, l) > 0 {
            assert(before.contains_key(f) && before[f].contains_key(l));
            assert(after.contains_key(f));
            assert(is_lowered(after[f], before[f], file_lints(observed, f)));
            assert(after[f].contains_key(l));
        }
    }
    assert forall|f: Seq<char>, l: Seq<char>|
        !(#[trigger] recorded(after, f, l) && lint_count(observed, f, l) < after[f][l] && (recorded(
            observed,
            f,
            l,
        ) || examined.contains(f))) by {
        if recorded(after, f, l) && examined.contains(f) {
            assert(is_lowered(after[f], before[f], file_lints(observed, f)));
            assert(lint_count(observed, f, l) <= lint_count(before, f, l));
        }
    }
}

/// After the baseline has been grown around an observation, that observation
/// no longer regresses against it.
pub proof fn lemma_no_regression_after_grow(observed: LedgerMap, before: LedgerMap, after: LedgerMap)
    requires
        grown_by(after, before, observed),
    ensures
        !regresses(observed, after),
{
    assert forall|f: Seq<char>, l: Seq<char>|
        !(#[trigger] lint_count(observed, f, l) > lint_count(after, f, l)) by {
        if observed.contains_key(f) && observed[f].contains_key(l) {
            assert(after.contains_key(f));
            assert(is_raised(after[f], file_lints(before, f), observed[f]));
            assert(after[f].contains_key(l));
        }
    }
}

/// Where every observed count has a baseline entry that is at least as large,
/// the comparison never rejects.
pub proof fn lemma_subset_never_rejected(
    observed: LedgerMap,
    baseline: LedgerMap,
    examined: Set<Seq<char>>,
)
    requires
        forall|f: Seq<char>, l: Seq<char>|
            #[trigger] recorded(observed, f, l) ==> recorded(baseline, f, l) && observed[f][l]
                <= baseline[f][l],
    ensures
        verdict(observed, baseline, examined) != Relationship::NotASubset,
{
    assert forall|f: Seq<char>, l: Seq<char>|
        !(#[trigger] lint_count(observed, f, l) > lint_count(baseline, f, l)) by {
        if recorded(observed, f, l) {
            assert(recorded(baseline, f, l));
        }
    }
}

/// A baseline entry for a file outside this run does not change the outcome:
/// two baselines that differ only in that entry give the same verdict.
pub proof fn lemma_untouched_file_ignored(
    observed: LedgerMap,
    first: LedgerMap,
    second: LedgerMap,
    examined: Set<Seq<char>>,
    file: Seq<char>,
)
    requires
        !examined.contains(file),
        !observed.contains_key(file),
        first.remove(file) == second.remove(file),
    ensures
        verdict(observed, first, examined) == verdict(observed, second, examined),
{
    assert forall|f: Seq<char>, l: Seq<char>|
        f != file implies #[trigger] lint_count(first, f, l) == lint_count(second, f, l) && recorded(
            first,
            f,
            l,
        ) == recorded(second, f, l) && (recorded(first, f, l) ==> first[f][l] == second[f][l]) by {
        assert(first.remove(file).contains_key(f) == first.contains_key(f));
        assert(second.remove(file).contains_key(f) == second.contains_key(f));
        if first.contains_key(f) {
            assert(first.remove(file)[f] == first[f]);
            assert(second.remove(file)[f] == second[f]);
        }
    }
    assert(regresses(observed, first) == regresses(observed, second)) by {
        if regresses(observed, first) {
            let (f, l) = choose|f: Seq<char>, l: Seq<char>|
                #[trigger] lint_count(observed, f, l) > lint_count(first, f, l);
            assert(lint_count(observed, f, l) > lint_count(second, f, l));
        }
        if regresses(observed, second) {
            let (f, l) = choose|f: Seq<char>, l: Seq<char>|
                #[trigger] lint_count(observed, f, l) > lint_count(second, f, l);
            assert(lint_count(observed, f, l) > lint_count(first, f, l));
        }
    }
    assert(improves(observed, first, examined) == improves(observed, second, examined)) by {
        if improves(observed, first, examined) {
            let (f, l) = choose|f: Seq<char>, l: Seq<char>|
                #[trigger] recorded(first, f, l) && lint_count(observed, f, l) < first[f][l] && (
                recorded(observed, f, l) || examined.contains(f));
            assert(lint_count(second, f, l) == lint_count(first, f, l));
            assert(recorded(second, f, l));
        }
        if improves(observed, second, examined) {
            let (f, l) = choose|f: Seq<char>, l: Seq<char>|
                #[trigger] recorded(second, f, l) && lint_count(observed, f, l) < second[f][l] && (
                recorded(observed, f, l) || examined.contains(f));
            assert(lint_count(second, f, l) == lint_count(first, f, l));
            assert(recorded(first, f, l));
        }
    }
}

/// Neither update touches the baseline entry of a file that was not examined
/// and not observed.
pub proof fn lemma_untouched_file_kept(
    observed: LedgerMap,
    before: LedgerMap,
    shrunk: LedgerMap,
    grown: LedgerMap,
    examined: Set<Seq<char>>,
    file: Seq<char>,
)
    requires
        !examined.contains(file),
        !observed.contains_key(file),
        before.contains_key(file),
        shrunk_by(shrunk, before, observed, examined),
        grown_by(grown, before, observed),
    ensures
        shrunk.contains_key(file) && shrunk[file] == before[file],
        grown.contains_key(file) && grown[file] == before[file],
{
    assert(shrunk.contains_key(file));
    assert(grown.contains_key(file));
}

/// Where the observed files hold exactly the counts the baseline records for
/// them, and every examined file was observed, the comparison finds nothing to
/// report.
pub proof fn lemma_unchanged_is_expected(
    observed: LedgerMap,
    baseline: LedgerMap,
    examined: Set<Seq<char>>,
)
    requires
        forall|f: Seq<char>| #[trigger] examined.contains(f) ==> observed.contains_key(f),
        forall|f: Seq<char>, l: Seq<char>|
            observed.contains_key(f) ==> #[trigger] lint_count(observed, f, l) == lint_count(
                baseline,
                f,
                l,
            ),
    ensures
        verdict(observed, baseline, examined) == Relationship::Expected,
{
    assert forall|f: Seq<char>, l: Seq<char>|
        !(#[trigger] lint_count(observed, f, l) > lint_count(baseline, f, l)) by {
        if observed.contains_key(f) {
            assert(lint_count(observed, f, l) == lint_count(baseline, f, l));
        }
    }
    assert forall|f: Seq<char>, l: Seq<char>|
        !(#[trigger] recorded(baseline, f, l) && lint_count(observed, f, l) < baseline[f][l] && (
        recorded(observed, f, l) || examined.contains(f))) by {
        if recorded(baseline, f, l) && (recorded(observed, f, l) || examined.contains(f)) {
            assert(observed.contains_key(f));
            assert(lint_count(observed, f, l) == lint_count(baseline, f, l));
        }
    }
}

/// A run whose examined files are exactly the observed ones, and which left the
/// baseline as the ratchet policy asks (unchanged when nothing was to report,
/// tightened on an improvement), is followed by a run with the same files that
/// finds nothing to report.
pub proof fn lemma_run_is_idempotent(
    observed: LedgerMap,
    before: LedgerMap,
    after: LedgerMap,
    examined: Seq<String>,
)
    requires
        observed.dom() == examined_set(examined),
        verdict(observed, before, examined_set(examined)) != Relationship::NotASubset,
        verdict(observed, before, examined_set(examined)) == Relationship::Expected ==> after
            == before,
        verdict(observed, before, examined_set(examined)) == Relationship::ProperSubset
            ==> shrunk_by(after, before, observed, examined_set(examined)),
    ensures
        verdict(observed, after, examined_set(examined)) == Relationship::Expected,
{
    if verdict(observed, before, examined_set(examined)) == Relationship::ProperSubset {
        lemma_rerun_after_shrink(observed, before, after, examined_set(examined));
    }
}

/// The weight of the entries scales with the weight given to each.
proof fn lemma_entries_scale(entries: Seq<Option<String>>, lint: Seq<char>, w: nat)
    ensures
        entries_weight(entries, lint, w) == w * entries_weight(entries, lint, 1),
    decreases entries.len(),
{
    if entries.len() > 0 {
        let rest = entries.subrange(0, entries.len() - 1);
        let last = entries[entries.len() - 1];
        lemma_entries_scale(rest, lint, w);
        let a = entries_weight(rest, lint, 1);
        let b: nat = if last is Some && last->0@ == lint {
            1
        } else {
            0
        };
        assert(entries_weight(entries, lint, 1) == a + b);
        assert(entries_weight(entries, lint, w) == w * a + w * b);
        assert(w * (a + b) == w * a + w * b) by (nonlinear_arith);
        assert(w * entries_weight(entries, lint, 1) == w * (a + b));
    } else {
        assert(w * 0 == 0) by (nonlinear_arith);
    }
}

/// The weight of the attributes scales with the weight given to each entry.
proof fn lemma_attrs_scale(attrs: Seq<Attr>, lint: Seq<char>, w: nat)
    ensures
        attrs_weight(attrs, lint, w) == w * attrs_weight(attrs, lint, 1),
    decreases attrs.len(),
{
    if attrs.len() > 0 {
        let rest = attrs.subrange(0, attrs.len() - 1);
        let last = attrs[attrs.len() - 1];
        lemma_attrs_scale(rest, lint, w);
        let a = attrs_weight(rest, lint, 1);
        if crate::scan::is_suppression(last) {
            lemma_entries_scale(last.list->0@, lint, w);
            let b = entries_weight(last.list->0@, lint, 1);
            assert(attrs_weight(attrs, lint, 1) == a + b);
            assert(attrs_weight(attrs, lint, w) == w * a + w * b);
            assert(w * (a + b) == w * a + w * b) by (nonlinear_arith);
            assert(w * attrs_weight(attrs, lint, 1) == w * (a + b));
        } else {
            assert(attrs_weight(attrs, lint, 1) == a);
            assert(attrs_weight(attrs, lint, w) == w * a);
        }
    } else {
        assert(w * 0 == 0) by (nonlinear_arith);
    }
}

/// A suppression of `lint` placed once on a container counts, in a file whose
/// only declaration is that container and which suppresses `lint` nowhere
/// else, as many times as the container has directly nested declarations
/// (at least once).
pub proof fn lemma_container_weight(
    file: SourceFile,
    attrs: Vec<Attr>,
    items: Vec<Decl>,
    lint: Seq<char>,
)
    requires
        file.decls@ == seq![Decl::Container(attrs, items)],
        attrs_weight(file.attrs@, lint, 1) == 0,
        attrs_weight(attrs@, lint, 1) == 1,
        decls_weight(items@, lint) == 0,
    ensures
        file_weight(file, lint) == weight(items.len() as nat),
{
    lemma_attrs_scale(file.attrs@, lint, weight(file.decls.len() as nat));
    lemma_attrs_scale(attrs@, lint, weight(items.len() as nat));
    let ds = file.decls@;
    assert(ds.len() == 1 && ds[0] == Decl::Container(attrs, items));
    assert(ds.subrange(0, ds.len() - 1).len() == 0);
    assert(decls_weight(ds.subrange(0, ds.len() - 1), lint) == 0);
    assert(decls_weight(ds, lint) == attrs_weight(attrs@, lint, weight(items.len() as nat)) + decls_weight(items@, lint));
    assert(weight(items.len() as nat) * 1 == weight(items.len() as nat)) by (nonlinear_arith);
    assert(weight(file.decls.len() as nat) * 0 == 0);
}

} // verus!
