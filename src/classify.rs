//! Deciding which runnables a semantic definition yields.
use vstd::prelude::*;

use crate::doc::{chars_of, docs_have_runnable, docs_runnable, range_is};
use crate::source::{Attr, Definition, SemanticModel, SourceFunction};
use crate::view::{DeclRef, DoctestLocation, ModuleRef, RunnableFuncKind};

verus! {

/// A runnable found in the source, before it is given an identifier and
/// placed in the mirror tree.
#[derive(Debug)]
pub enum Candidate {
    Function { name: String, kind: RunnableFuncKind, location: DeclRef },
    Doctest(DoctestLocation),
}

/// Whether `pat` occurs in `s`.
pub open spec fn contains_seq(s: Seq<char>, pat: Seq<char>) -> bool {
    exists|i: int| 0 <= i && i + pat.len() <= s.len() && #[trigger] s.subrange(i, i + pat.len()) == pat
}

/// A test-like attribute: its path mentions `test` (`test`, `tokio::test`,
/// `test_case`). Broad on purpose, so that custom test frameworks are found.
pub open spec fn is_test_attr(a: Attr) -> bool {
    contains_seq(a.path@, "test"@)
}

/// A bare `#[bench]` attribute.
pub open spec fn is_bench_attr(a: Attr) -> bool {
    a.path@ == "bench"@ && !a.has_input
}

pub open spec fn has_test_attr(attrs: Seq<Attr>) -> bool {
    exists|i: int| 0 <= i < attrs.len() && #[trigger] is_test_attr(attrs[i])
}

pub open spec fn has_bench_attr(attrs: Seq<Attr>) -> bool {
    exists|i: int| 0 <= i < attrs.len() && #[trigger] is_bench_attr(attrs[i])
}

/// The kind of runnable a function is, if any: `main` in a crate root is the
/// binary entry point; otherwise a test-like attribute makes a test and a
/// bare `bench` attribute a benchmark.
pub open spec fn function_kind(f: SourceFunction, in_crate_root: bool) -> Option<RunnableFuncKind> {
    if f.name@ == "main"@ && in_crate_root {
        Some(RunnableFuncKind::Bin)
    } else if has_test_attr(f.attrs@) {
        Some(RunnableFuncKind::Test)
    } else if has_bench_attr(f.attrs@) {
        Some(RunnableFuncKind::Bench)
    } else {
        None
    }
}

/// The documentation example a declaration of module `m` at position `d`
/// hosts, if any.
pub open spec fn decl_doctest(model: SemanticModel, m: int, d: int) -> Seq<Candidate> {
    let loc = DeclRef { module: m as usize, decl: d as usize };
    match model.modules@[m].declarations@[d] {
        Definition::Module(c) => if docs_have_runnable(model.modules@[c as int].docs) {
            seq![Candidate::Doctest(DoctestLocation::Module(c))]
        } else {
            Seq::empty()
        },
        Definition::Function(f) => if docs_have_runnable(f.docs) {
            seq![Candidate::Doctest(DoctestLocation::Decl(loc))]
        } else {
            Seq::empty()
        },
        Definition::Item(it) => if docs_have_runnable(it.docs) {
            seq![Candidate::Doctest(DoctestLocation::Decl(loc))]
        } else {
            Seq::empty()
        },
    }
}

/// The runnable function a declaration of module `m` at position `d` is, if any.
pub open spec fn decl_function(model: SemanticModel, m: int, d: int) -> Seq<Candidate> {
    match model.modules@[m].declarations@[d] {
        Definition::Function(f) => match function_kind(f, model.modules@[m].is_crate_root) {
            Some(k) => seq![
                Candidate::Function {
                    name: f.name,
                    kind: k,
                    location: DeclRef { module: m as usize, decl: d as usize },
                },
            ],
            None => Seq::empty(),
        },
        _ => Seq::empty(),
    }
}

/// The doctests of the first `n` impl blocks of module `c`, in order.
pub open spec fn impl_doctests(model: SemanticModel, c: int, n: int) -> Seq<Candidate>
    decreases n,
{
    if n <= 0 {
        Seq::empty()
    } else {
        impl_doctests(model, c, n - 1) + if docs_have_runnable(
            model.modules@[c].impls@[n - 1].docs,
        ) {
            seq![Candidate::Doctest(DoctestLocation::Impl(c as usize, (n - 1) as usize))]
        } else {
            Seq::empty()
        }
    }
}

/// Everything visiting declaration `d` of module `m` yields: the
/// declaration's doctest, then its runnable function, then, for an inline
/// submodule, the doctests of its impl blocks. The impl blocks of a module
/// defined in a file of its own are classified with that file.
pub open spec fn decl_candidates(model: SemanticModel, m: int, d: int) -> Seq<Candidate> {
    decl_doctest(model, m, d) + decl_function(model, m, d) + decl_impls(model, m, d)
}

/// The doctests of the impl blocks of declaration `d` of module `m`, if it
/// declares an inline submodule.
pub open spec fn decl_impls(model: SemanticModel, m: int, d: int) -> Seq<Candidate> {
    match model.modules@[m].declarations@[d] {
        Definition::Module(c) => if model.modules@[c as int].is_inline {
            impl_doctests(model, c as int, model.modules@[c as int].impls@.len() as int)
        } else {
            Seq::empty()
        },
        _ => Seq::empty(),
    }
}

/// Whether `pat` occurs in `s`.
fn contains_str(s: &str, pat: &str) -> (r: bool)
    ensures
        r == contains_seq(s@, pat@),
{
    let cs = chars_of(s);
    let n = pat.unicode_len();
    if n > cs.len() {
        return false;
    }
    if n == 0 {
        assert(s@.subrange(0, 0 + pat@.len() as int) =~= pat@);
        return true;
    }
    let len = cs.len();
    let last = len - n;
    let mut i: usize = 0;
    while i <= last
        invariant
            n == pat@.len(),
            0 < n,
            len == cs@.len(),
            last + n == cs@.len(),
            cs@ == s@,
            i <= last + 1,
            forall|j: int| 0 <= j < i ==> #[trigger] s@.subrange(j, j + n) != pat@,
        decreases last + 1 - i,
    {
        if range_is(&cs, i, i + n, pat) {
            return true;
        }
        i = i + 1;
    }
    assert forall|j: int| 0 <= j && j + pat@.len() <= s@.len() implies #[trigger] s@.subrange(
        j,
        j + pat@.len(),
    ) != pat@ by {
        assert(j < i);
    }
    false
}

/// Whether two texts are equal.
fn str_eq(a: &str, b: &str) -> (r: bool)
    ensures
        r == (a@ == b@),
{
    let cs = chars_of(a);
    assert(cs@.subrange(0, cs@.len() as int) =~= a@);
    range_is(&cs, 0, cs.len(), b)
}

/// Finds the first test-like attribute of a function: any attribute whose
/// path mentions `test`.
pub fn extract_test_related_attribute(attrs: &Vec<Attr>) -> (r: Option<&Attr>)
    ensures
        r is Some <==> has_test_attr(attrs@),
        r matches Some(a) ==> exists|i: int|
            0 <= i < attrs@.len() && *a == attrs@[i] && is_test_attr(attrs@[i]) && forall|j: int|
                0 <= j < i ==> !#[trigger] is_test_attr(attrs@[j]),
{
    let mut i: usize = 0;
    while i < attrs.len()
        invariant
            i <= attrs@.len(),
            forall|j: int| 0 <= j < i ==> !#[trigger] is_test_attr(attrs@[j]),
        decreases attrs@.len() - i,
    {
        if contains_str(attrs[i].path.as_str(), "test") {
            assert(is_test_attr(attrs@[i as int]));
            return Some(&attrs[i]);
        }
        i = i + 1;
    }
    None
}

fn has_bench(attrs: &Vec<Attr>) -> (r: bool)
    ensures
        r == has_bench_attr(attrs@),
{
    let mut i: usize = 0;
    while i < attrs.len()
        invariant
            i <= attrs@.len(),
            forall|j: int| 0 <= j < i ==> !#[trigger] is_bench_attr(attrs@[j]),
        decreases attrs@.len() - i,
    {
        if str_eq(attrs[i].path.as_str(), "bench") && !attrs[i].has_input {
            assert(is_bench_attr(attrs@[i as int]));
            return true;
        }
        i = i + 1;
    }
    false
}

/// The kind of runnable a function is, if any.
pub fn runnable_kind(f: &SourceFunction, in_crate_root: bool) -> (r: Option<RunnableFuncKind>)
    ensures
        r == function_kind(*f, in_crate_root),
{
    if in_crate_root && str_eq(f.name.as_str(), "main") {
        Some(RunnableFuncKind::Bin)
    } else if extract_test_related_attribute(&f.attrs).is_some() {
        Some(RunnableFuncKind::Test)
    } else if has_bench(&f.attrs) {
        Some(RunnableFuncKind::Bench)
    } else {
        None
    }
}

/// Everything visiting declaration `d` of module `m` yields.
pub fn classify_decl(model: &SemanticModel, m: ModuleRef, d: usize) -> (r: Vec<Candidate>)
    requires
        model.wf(),
        m < model.modules@.len(),
        d < model.modules@[m as int].declarations@.len(),
    ensures
        r@ == decl_candidates(*model, m as int, d as int),
{
    let module = &model.modules[m];
    let loc = DeclRef { module: m, decl: d };
    let mut r: Vec<Candidate> = Vec::new();
    match &module.declarations[d] {
        Definition::Module(c) => {
            let c = *c;
            if docs_runnable(&model.modules[c].docs) {
                r.push(Candidate::Doctest(DoctestLocation::Module(c)));
            }
            let impls = &model.modules[c].impls;
            let inline = model.modules[c].is_inline;
            let mut k: usize = 0;
            while inline && k < impls.len()
                invariant
                    model.wf(),
                    c < model.modules@.len(),
                    *impls == model.modules@[c as int].impls,
                    k <= impls@.len(),
                    inline == model.modules@[c as int].is_inline,
                    !inline ==> k == 0,
                    r@ == decl_doctest(*model, m as int, d as int) + impl_doctests(*model, c as int, k as int),
                decreases impls@.len() - k,
            {
                if docs_runnable(&impls[k].docs) {
                    r.push(Candidate::Doctest(DoctestLocation::Impl(c, k)));
                }
                k = k + 1;
                assert(r@ =~= decl_doctest(*model, m as int, d as int) + impl_doctests(*model, c as int, k as int));
            }
            proof {
                if inline {
                    assert(r@ =~= decl_doctest(*model, m as int, d as int) + decl_impls(*model, m as int, d as int));
                } else {
                    assert(r@ =~= decl_doctest(*model, m as int, d as int) + impl_doctests(*model, c as int, 0));
                    assert(r@ =~= decl_doctest(*model, m as int, d as int) + decl_impls(*model, m as int, d as int));
                }
            }
            assert(r@ =~= decl_candidates(*model, m as int, d as int));
        },
        Definition::Function(f) => {
            if docs_runnable(&f.docs) {
                r.push(Candidate::Doctest(DoctestLocation::Decl(loc)));
            }
            match runnable_kind(f, module.is_crate_root) {
                Some(kind) => {
                    r.push(Candidate::Function { name: f.name.clone(), kind, location: loc });
                },
                None => {},
            }
            assert(r@ =~= decl_candidates(*model, m as int, d as int));
        },
        Definition::Item(it) => {
            if docs_runnable(&it.docs) {
                r.push(Candidate::Doctest(DoctestLocation::Decl(loc)));
            }
            assert(r@ =~= decl_candidates(*model, m as int, d as int));
        },
    }
    r
}

} // verus!
