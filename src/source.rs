//! The semantic model of the source that the mirror tree is reconciled
//! against: modules, their declarations in source order, their impl blocks,
//! attributes and documentation, as plain values.
use vstd::prelude::*;

use crate::view::ModuleRef;

verus! {

/// One attribute of a function: its path text (`test`, `tokio::test`) and
/// whether it carries an input (`#[test_case(1)]`).
#[derive(Debug, Clone)]
pub struct Attr {
    pub path: String,
    pub has_input: bool,
}

/// A function declaration.
#[derive(Debug, Clone)]
pub struct SourceFunction {
    pub name: String,
    pub attrs: Vec<Attr>,
    pub docs: Option<String>,
    /// The fully qualified path the test runner is invoked with.
    pub canonical_path: String,
}

/// Any other attribute-bearing item: a struct, enum, trait, const, static,
/// type alias or impl block. Only its documentation matters here.
#[derive(Debug, Clone)]
pub struct SourceItem {
    pub docs: Option<String>,
}

/// One declaration of a module.
#[derive(Debug, Clone)]
pub enum Definition {
    /// A submodule, by its handle in the model.
    Module(ModuleRef),
    Function(SourceFunction),
    Item(SourceItem),
}

/// A module as the semantic layer exposes it.
#[derive(Debug, Clone)]
pub struct SourceModule {
    /// `None` where the semantic layer could not resolve the name.
    pub name: Option<String>,
    /// Whether the body is in the declaring file (`mod m { .. }`) rather than
    /// in a file of its own (`mod m;`).
    pub is_inline: bool,
    pub is_crate_root: bool,
    pub docs: Option<String>,
    pub declarations: Vec<Definition>,
    pub impls: Vec<SourceItem>,
}

/// The semantic layer's answer for a set of files: every module, addressed
/// by its index, and the module each file defines (`None` where the file
/// resolves to no module).
#[derive(Debug, Clone)]
pub struct SemanticModel {
    pub modules: Vec<SourceModule>,
    pub file_roots: Vec<Option<ModuleRef>>,
}

impl SemanticModel {
    /// Every submodule declaration refers to a module of the model with a
    /// larger handle, so that module nesting is finite.
    pub open spec fn wf(&self) -> bool {
        forall|m: int, d: int|
            0 <= m < self.modules@.len() && 0 <= d < self.modules@[m].declarations@.len()
                ==> match #[trigger] self.modules@[m].declarations@[d] {
                Definition::Module(c) => m < c < self.modules@.len(),
                _ => true,
            }
    }

    /// The module that a file defines, if the file resolves to one.
    pub open spec fn spec_module_for_file(&self, file: usize) -> Option<ModuleRef> {
        if file < self.file_roots@.len() {
            match self.file_roots@[file as int] {
                Some(m) => if m < self.modules@.len() { Some(m) } else { None },
                None => None,
            }
        } else {
            None
        }
    }

    /// Whether every submodule declaration refers to a later module of the
    /// model, as `wf` requires.
    pub fn check_wf(&self) -> (r: bool)
        ensures
            r == self.wf(),
    {
        let mut m: usize = 0;
        while m < self.modules.len()
            invariant
                m <= self.modules@.len(),
                forall|a: int, d: int|
                    0 <= a < m && 0 <= d < self.modules@[a].declarations@.len() ==> match #[trigger] self.modules@[a].declarations@[d] {
                        Definition::Module(c) => a < c < self.modules@.len(),
                        _ => true,
                    },
            decreases self.modules@.len() - m,
        {
            let decls = &self.modules[m].declarations;
            let mut d: usize = 0;
            while d < decls.len()
                invariant
                    m < self.modules@.len(),
                    *decls == self.modules@[m as int].declarations,
                    d <= decls@.len(),
                    forall|a: int, e: int|
                        0 <= a < m && 0 <= e < self.modules@[a].declarations@.len() ==> match #[trigger] self.modules@[a].declarations@[e] {
                            Definition::Module(c) => a < c < self.modules@.len(),
                            _ => true,
                        },
                    forall|e: int|
                        0 <= e < d ==> match #[trigger] decls@[e] {
                            Definition::Module(c) => m < c < self.modules@.len(),
                            _ => true,
                        },
                decreases decls@.len() - d,
            {
                match &decls[d] {
                    Definition::Module(c) => {
                        if !(m < *c && *c < self.modules.len()) {
                            return false;
                        }
                    },
                    _ => {},
                }
                d = d + 1;
            }
            m = m + 1;
        }
        true
    }

    /// The module that a file defines, if the file resolves to one.
    pub fn module_for_file(&self, file: usize) -> (r: Option<ModuleRef>)
        ensures
            r == self.spec_module_for_file(file),
    {
        if file < self.file_roots.len() {
            match self.file_roots[file] {
                Some(m) => if m < self.modules.len() { Some(m) } else { None },
                None => None,
            }
        } else {
            None
        }
    }
}

} // verus!
