//! Editor-facing descriptions of runnables.
use vstd::prelude::*;

use crate::source::Attr;

verus! {

/// How a test is named to the test runner: by its bare name or by its
/// fully qualified path.
#[derive(Debug, Clone, PartialEq, Eq, Hash)]
pub enum TestId {
    Name(String),
    Path(String),
}

impl TestId {
    pub open spec fn text(&self) -> Seq<char> {
        match self {
            TestId::Name(n) => n@,
            TestId::Path(p) => p@,
        }
    }

    /// The name or path, as the test runner takes it.
    pub fn to_string(&self) -> (r: String)
        ensures
            r@ == self.text(),
    {
        match self {
            TestId::Name(n) => n.clone(),
            TestId::Path(p) => p.clone(),
        }
    }
}

/// Attributes of a test that change how it is run.
#[derive(Debug, Copy, Clone, PartialEq, Eq, Hash)]
pub struct TestAttr {
    pub ignore: bool,
}

/// Whether an attribute is `#[ignore]` (with or without a reason).
pub open spec fn is_ignore_attr(a: Attr) -> bool {
    a.path@ == "ignore"@
}

impl TestAttr {
    /// The test attributes of a function with attributes `attrs`: it is
    /// ignored iff one of them is `ignore`.
    pub fn from_fn(attrs: &Vec<Attr>) -> (r: TestAttr)
        ensures
            r.ignore == exists|i: int| 0 <= i < attrs@.len() && #[trigger] is_ignore_attr(attrs@[i]),
    {
        let mut i: usize = 0;
        while i < attrs.len()
            invariant
                i <= attrs@.len(),
                forall|j: int| 0 <= j < i ==> !#[trigger] is_ignore_attr(attrs@[j]),
            decreases attrs@.len() - i,
        {
            let a = crate::doc::chars_of(attrs[i].path.as_str());
            assert(a@.subrange(0, a@.len() as int) =~= attrs@[i as int].path@);
            if crate::doc::range_is(&a, 0, a.len(), "ignore") {
                assert(is_ignore_attr(attrs@[i as int]));
                return TestAttr { ignore: true };
            }
            i = i + 1;
        }
        TestAttr { ignore: false }
    }
}

/// What kind of run an editor offers for a runnable.
#[derive(Debug, Clone, PartialEq, Eq, Hash)]
pub enum RunnableKind {
    Test { test_id: TestId, attr: TestAttr },
    TestMod { path: String },
    Bench { test_id: TestId },
    DocTest { test_id: TestId },
    Bin,
}

/// Proof that the client accepts snippets in edits.
#[derive(Debug, Clone, Copy, PartialEq, Eq)]
pub struct SnippetCap {
    _private: (),
}

impl SnippetCap {
    /// A capability iff snippets are allowed.
    pub fn new(allow_snippets: bool) -> (r: Option<SnippetCap>)
        ensures
            r is Some <==> allow_snippets,
    {
        if allow_snippets {
            Some(SnippetCap { _private: () })
        } else {
            None
        }
    }
}

} // verus!
