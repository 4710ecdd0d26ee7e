//! Counting suppressions in a declaration tree.
//!
//! A suppression is an `#[allow(..)]` attribute; each lint it names counts
//! once for every declaration the attribute shields: a container counts its
//! directly nested declarations (at least one), any other declaration counts
//! one, and the attributes of the whole file count its top-level declarations.
use vstd::prelude::*;
use vstd::string::StringExecFns;

use crate::counts::{capped, count_of, LintCounts};
use crate::ledger::{examined_set, SupressedLints};

verus! {

/// An attribute, as far as suppressions are concerned.
pub struct Attr {
    /// The attribute's name, when its path is a single identifier.
    pub path: Option<String>,
    /// The entries of its argument list, when it has one: each entry's name
    /// when the entry is a single identifier.
    pub list: Option<Vec<Option<String>>>,
}

/// A declaration with its attributes.
pub enum Decl {
    /// A declaration that holds no other declarations (a function, a type, a
    /// constant, a `use`, a macro, a module declared in another file, ...).
    Leaf(Vec<Attr>),
    /// A block of declarations (an inline module, an implementation, a trait,
    /// a foreign block) with the declarations nested directly in it.
    Container(Vec<Attr>, Vec<Decl>),
    /// A declaration of a kind that is not understood; it holds no suppressions.
    Opaque,
}

/// A source file: its own attributes and its top-level declarations.
pub struct SourceFile {
    pub attrs: Vec<Attr>,
    pub decls: Vec<Decl>,
}

/// The blast radius of a suppression on a node with `n` nested declarations.
pub open spec fn weight(n: nat) -> nat {
    if n == 0 {
        1
    } else {
        n
    }
}

/// The suppression counts of a source file: each lint that some suppression
/// names, with its weighted total, saturated at the largest count.
pub open spec fn file_counts(f: SourceFile) -> Map<Seq<char>, nat> {
    Map::new(|l: Seq<char>| file_weight(f, l) > 0, |l: Seq<char>| capped(file_weight(f, l)))
}

/// Whether a path names a source file: its last component has a stem and the
/// extension `rs`.
pub open spec fn is_source_path(p: Seq<char>) -> bool {
    &&& p.len() >= 4
    &&& p[p.len() - 4] != '/'
    &&& p[p.len() - 3] == '.'
    &&& p[p.len() - 2] == 'r'
    &&& p[p.len() - 1] == 's'
}

/// Whether `a` is an `allow` attribute with an argument list.
pub open spec fn is_suppression(a: Attr) -> bool {
    a.path is Some && a.path->0@ == "allow"@ && a.list is Some
}

/// `w` for each entry of `entries` that names `lint`.
pub open spec fn entries_weight(entries: Seq<Option<String>>, lint: Seq<char>, w: nat) -> nat
    decreases entries.len(),
{
    if entries.len() == 0 {
        0
    } else {
        let last = entries[entries.len() - 1];
        entries_weight(entries.subrange(0, entries.len() - 1), lint, w) + if last is Some && last->0@
            == lint {
            w
        } else {
            0
        }
    }
}

/// What the suppressions among `attrs` add to the count of `lint`, at weight `w`.
pub open spec fn attrs_weight(attrs: Seq<Attr>, lint: Seq<char>, w: nat) -> nat
    decreases attrs.len(),
{
    if attrs.len() == 0 {
        0
    } else {
        let last = attrs[attrs.len() - 1];
        attrs_weight(attrs.subrange(0, attrs.len() - 1), lint, w) + if is_suppression(last) {
            entries_weight(last.list->0@, lint, w)
        } else {
            0
        }
    }
}

/// The count of `lint` over the declarations `decls` and all they contain.
pub open spec fn decls_weight(decls: Seq<Decl>, lint: Seq<char>) -> nat
    decreases decls,
{
    if decls.len() == 0 {
        0
    } else {
        let rest = decls_weight(decls.subrange(0, decls.len() - 1), lint);
        match decls[decls.len() - 1] {
            Decl::Leaf(attrs) => rest + attrs_weight(attrs@, lint, 1),
            Decl::Container(attrs, items) => rest + attrs_weight(
                attrs@,
                lint,
                weight(items.len() as nat),
            ) + decls_weight(items@, lint),
            Decl::Opaque => rest,
        }
    }
}

/// The count of `lint` in a source file.
pub open spec fn file_weight(f: SourceFile, lint: Seq<char>) -> nat {
    attrs_weight(f.attrs@, lint, weight(f.decls.len() as nat)) + decls_weight(f.decls@, lint)
}

/// The names that an attribute suppresses: the identifiers in the argument
/// list of an `allow` attribute.
fn suppressed_names<'a>(a: &'a Attr, allow: &String) -> (r: Option<&'a Vec<Option<String>>>)
    requires
        allow@ == "allow"@,
    ensures
        r is Some == is_suppression(*a),
        r is Some ==> r->0@ == a.list->0@,
{
    match &a.path {
        Some(name) => {
            if *name == *allow {
                match &a.list {
                    Some(list) => Some(list),
                    None => None,
                }
            } else {
                None
            }
        },
        None => None,
    }
}

/// Adds to `result` the suppressions among `attrs`, each lint at the weight of
/// a node with `item_count` nested declarations.
pub fn count_lints_in_attrs(result: &mut LintCounts, attrs: &Vec<Attr>, item_count: usize)
    requires
        old(result).wf(),
    ensures
        final(result).wf(),
        forall|l: Seq<char>|
            #[trigger] final(result)@.contains_key(l) <==> old(result)@.contains_key(l)
                || attrs_weight(attrs@, l, weight(item_count as nat)) > 0,
        forall|l: Seq<char>|
            #[trigger] count_of(final(result)@, l) == capped(
                count_of(old(result)@, l) + attrs_weight(attrs@, l, weight(item_count as nat)),
            ),
{
    let w: usize = if item_count > 1 { item_count } else { 1 };
    let ghost wn = weight(item_count as nat);
    let allow = String::from_str("allow");
    proof { result.lemma_bounded(); }
    let mut i: usize = 0;
    while i < attrs.len()
        invariant
            result.wf(),
            wn == w as nat,
            w >= 1,
            allow@ == "allow"@,
            i <= attrs@.len(),
            forall|l: Seq<char>|
                #[trigger] result@.contains_key(l) <==> old(result)@.contains_key(l)
                    || attrs_weight(attrs@.subrange(0, i as int), l, wn) > 0,
            forall|l: Seq<char>|
                #[trigger] count_of(result@, l) == capped(
                    count_of(old(result)@, l) + attrs_weight(attrs@.subrange(0, i as int), l, wn),
                ),
        decreases attrs@.len() - i,
    {
        let ghost before = result@;
        proof {
            assert(attrs@.subrange(0, i + 1).subrange(0, i as int) =~= attrs@.subrange(0, i as int));
        }
        match suppressed_names(&attrs[i], &allow) {
            Some(list) => {
                let mut j: usize = 0;
                while j < list.len()
                    invariant
                        result.wf(),
                        w >= 1,
                        j <= list@.len(),
                        forall|l: Seq<char>|
                            #[trigger] result@.contains_key(l) <==> before.contains_key(l)
                                || entries_weight(list@.subrange(0, j as int), l, w as nat) > 0,
                        forall|l: Seq<char>|
                            #[trigger] count_of(result@, l) == capped(
                                count_of(before, l) + entries_weight(list@.subrange(0, j as int), l, w as nat),
                            ),
                    decreases list@.len() - j,
                {
                    proof {
                        assert(list@.subrange(0, j + 1).subrange(0, j as int) =~= list@.subrange(0, j as int));
                    }
                    match &list[j] {
                        Some(name) => {
                            let ghost prev = result@;
                            result.add(name, w);
                            proof {
                                assert forall|l: Seq<char>| #[trigger] count_of(result@, l) == capped(
                                    count_of(before, l) + entries_weight(list@.subrange(0, j + 1), l, w as nat),
                                ) by {
                                    assert(count_of(prev, l) == capped(
                                        count_of(before, l) + entries_weight(list@.subrange(0, j as int), l, w as nat),
                                    ));
                                }
                                assert forall|l: Seq<char>|
                                    #[trigger] result@.contains_key(l) <==> before.contains_key(l)
                                        || entries_weight(list@.subrange(0, j + 1), l, w as nat) > 0 by {
                                    assert(prev.contains_key(l) <==> before.contains_key(l)
                                        || entries_weight(list@.subrange(0, j as int), l, w as nat) > 0);
                                }
                            }
                        },
                        None => {},
                    }
                    j = j + 1;
                }
                proof { assert(list@.subrange(0, list@.len() as int) =~= list@); }
            },
            None => {},
        }
        i = i + 1;
    }
    proof { assert(attrs@.subrange(0, attrs@.len() as int) =~= attrs@); }
}

/// Adds to `result` the suppressions on the declarations `items` and on all
/// the declarations nested in them.
pub fn count_lints_in_items(result: &mut LintCounts, items: &Vec<Decl>)
    requires
        old(result).wf(),
    ensures
        final(result).wf(),
        forall|l: Seq<char>|
            #[trigger] final(result)@.contains_key(l) <==> old(result)@.contains_key(l)
                || decls_weight(items@, l) > 0,
        forall|l: Seq<char>|
            #[trigger] count_of(final(result)@, l) == capped(
                count_of(old(result)@, l) + decls_weight(items@, l),
            ),
    decreases items@,
{
    proof { result.lemma_bounded(); }
    let mut i: usize = 0;
    while i < items.len()
        invariant
            result.wf(),
            i <= items@.len(),
            forall|l: Seq<char>|
                #[trigger] result@.contains_key(l) <==> old(result)@.contains_key(l)
                    || decls_weight(items@.subrange(0, i as int), l) > 0,
            forall|l: Seq<char>|
                #[trigger] count_of(result@, l) == capped(
                    count_of(old(result)@, l) + decls_weight(items@.subrange(0, i as int), l),
                ),
        decreases items@.len() - i,
    {
        proof {
            assert(items@.subrange(0, i + 1).subrange(0, i as int) =~= items@.subrange(0, i as int));
        }
        match &items[i] {
            Decl::Leaf(attrs) => {
                count_lints_in_attrs(result, attrs, 1);
            },
            Decl::Container(attrs, nested) => {
                count_lints_in_attrs(result, attrs, nested.len());
                proof {
                    assert(decreases_to!(items@ => items@[i as int]));
                }
                count_lints_in_items(result, nested);
            },
            Decl::Opaque => {},
        }
        i = i + 1;
    }
    proof { assert(items@.subrange(0, items@.len() as int) =~= items@); }
}

/// The suppression counts of a source file: each lint that some suppression
/// names, with its weighted total (saturated at the largest count).
pub fn count_suppressed_lints(ast: &SourceFile) -> (r: LintCounts)
    ensures
        r.wf(),
        r@ == file_counts(*ast),
{
    let mut result = LintCounts::new();
    count_lints_in_attrs(&mut result, &ast.attrs, ast.decls.len());
    count_lints_in_items(&mut result, &ast.decls);
    proof {
        assert forall|l: Seq<char>| #[trigger] result@.contains_key(l) implies result@[l] == capped(
            file_weight(*ast, l)) by {
            assert(count_of(result@, l) == result@[l]);
        }
        assert(result@ =~= file_counts(*ast));
    }
    result
}

/// Whether `path` names a source file, by its extension.
pub fn is_source_file(path: &String) -> (r: bool)
    ensures
        r == is_source_path(path@),
{
    let s = path.as_str();
    let n = s.unicode_len();
    n >= 4 && s.get_char(n - 4) != '/' && s.get_char(n - 3) == '.' && s.get_char(n - 2) == 'r'
        && s.get_char(n - 1) == 's'
}

/// The names among `names` that are source files, in their order.
pub open spec fn source_names(names: Seq<String>) -> Seq<String> {
    names.filter(|n: String| is_source_path(n@))
}

/// The paths of a list of parsed files.
pub open spec fn paths_of(sources: Seq<(String, SourceFile)>) -> Seq<String> {
    sources.map_values(|e: (String, SourceFile)| e.0)
}

/// Extending a list by one name extends its source names by that name when it
/// is a source file.
proof fn lemma_source_names_step(names: Seq<String>, i: int)
    requires
        0 <= i < names.len(),
    ensures
        source_names(names.subrange(0, i + 1)) == if is_source_path(names[i]@) {
            source_names(names.subrange(0, i)).push(names[i])
        } else {
            source_names(names.subrange(0, i))
        },
{
    reveal(Seq::filter);
    assert(names.subrange(0, i + 1).drop_last() =~= names.subrange(0, i));
}

/// The source files among `names`, in their order.
pub fn source_paths(names: &Vec<String>) -> (r: Vec<String>)
    ensures
        r@ == source_names(names@),
{
    let mut r: Vec<String> = Vec::new();
    let mut i: usize = 0;
    proof {
        reveal(Seq::filter);
        assert(names@.subrange(0, 0).len() == 0);
    }
    while i < names.len()
        invariant
            i <= names@.len(),
            r@ == source_names(names@.subrange(0, i as int)),
        decreases names@.len() - i,
    {
        proof { lemma_source_names_step(names@, i as int); }
        if is_source_file(&names[i]) {
            r.push(names[i].clone());
        }
        i = i + 1;
    }
    proof { assert(names@.subrange(0, names@.len() as int) =~= names@); }
    r
}

/// The observed ledger of a run, and the files it examined: of the given
/// parsed files, those whose path names a source file are counted, keyed by
/// the path as given; any other is skipped. Where a path is given twice, the
/// later file counts.
pub fn find_supressed_lints(sources: &Vec<(String, SourceFile)>) -> (r: (SupressedLints, Vec<String>))
    ensures
        r.0.wf(),
        forall|f: Seq<char>|
            #[trigger] r.0@.contains_key(f) <==> is_source_path(f) && exists|i: int|
                0 <= i < sources@.len() && sources@[i].0@ == f,
        forall|i: int|
            0 <= i < sources@.len() && is_source_path(sources@[i].0@) && (forall|j: int|
                i < j < sources@.len() ==> sources@[j].0@ != sources@[i].0@) ==> r.0@[
            (#[trigger] sources@[i]).0@] == file_counts(sources@[i].1),
        r.1@ == source_names(paths_of(sources@)),
        r.0@.dom() == examined_set(r.1@),
{
    let ghost paths = paths_of(sources@);
    let mut r = SupressedLints::new();
    let mut examined: Vec<String> = Vec::new();
    let mut i: usize = 0;
    proof {
        reveal(Seq::filter);
        assert(paths.subrange(0, 0).len() == 0);
    }
    while i < sources.len()
        invariant
            r.wf(),
            i <= sources@.len(),
            paths == paths_of(sources@),
            examined@ == source_names(paths.subrange(0, i as int)),
            forall|f: Seq<char>|
                #[trigger] r@.contains_key(f) <==> is_source_path(f) && exists|k: int|
                    0 <= k < i && sources@[k].0@ == f,
            forall|f: Seq<char>|
                #[trigger] r@.contains_key(f) <==> examined_set(examined@).contains(f),
            forall|k: int|
                0 <= k < i && is_source_path(sources@[k].0@) && (forall|j: int|
                    k < j < i ==> sources@[j].0@ != sources@[k].0@) ==> r@[(
                #[trigger] sources@[k]).0@] == file_counts(sources@[k].1),
        decreases sources@.len() - i,
    {
        proof {
            lemma_source_names_step(paths, i as int);
            assert(paths[i as int] == sources@[i as int].0);
        }
        if is_source_file(&sources[i].0) {
            let ghost before = examined@;
            r.load_suppressed_lints_from(sources[i].0.clone(), &sources[i].1);
            examined.push(sources[i].0.clone());
            proof {
                assert forall|f: Seq<char>|
                    #[trigger] examined_set(examined@).contains(f) == (examined_set(before).contains(f)
                        || f == sources@[i as int].0@) by {
                    if examined_set(before).contains(f) {
                        let m = choose|m: int| 0 <= m < before.len() && before[m]@ == f;
                        assert(examined@[m] == before[m]);
                    }
                    if examined_set(examined@).contains(f) {
                        let m = choose|m: int| 0 <= m < examined@.len() && examined@[m]@ == f;
                        if m < before.len() {
                            assert(examined@[m] == before[m]);
                        }
                    }
                    if f == sources@[i as int].0@ {
                        assert(examined@[before.len() as int]@ == f);
                    }
                }
                assert forall|f: Seq<char>|
                    #[trigger] r@.contains_key(f) <==> is_source_path(f) && exists|k: int|
                        0 <= k < i + 1 && sources@[k].0@ == f by {
                    if f == sources@[i as int].0@ {
                        assert(sources@[i as int].0@ == f);
                    }
                }
            }
        } else {
            proof {
                assert forall|f: Seq<char>|
                    #[trigger] r@.contains_key(f) <==> is_source_path(f) && exists|k: int|
                        0 <= k < i + 1 && sources@[k].0@ == f by {
                    if is_source_path(f) && exists|k: int| 0 <= k < i + 1 && sources@[k].0@ == f {
                        let k = choose|k: int| 0 <= k < i + 1 && sources@[k].0@ == f;
                        assert(k != i);
                    }
                }
                assert forall|k: int|
                    0 <= k < i + 1 && is_source_path(sources@[k].0@) && (forall|j: int|
                        k < j < i + 1 ==> sources@[j].0@ != sources@[k].0@) implies r@[(
                    #[trigger] sources@[k]).0@] == file_counts(sources@[k].1) by {
                    assert(k != i);
                }
            }
        }
        i = i + 1;
    }
    proof {
        assert(paths.subrange(0, sources@.len() as int) =~= paths);
        assert(r@.dom() =~= examined_set(examined@));
    }
    (r, examined)
}

} // verus!
