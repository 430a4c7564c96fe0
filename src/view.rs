//! The published form of the mirror tree.
use vstd::prelude::*;

use crate::Id;

verus! {

/// Handle of a module in the semantic model (its index there).
pub type ModuleRef = usize;

/// Where a function is declared in the semantic model: the module that owns
/// it and the position of the declaration among that module's declarations.
#[derive(PartialEq, Eq, Structural, Debug, Clone, Copy)]
pub struct DeclRef {
    pub module: ModuleRef,
    pub decl: usize,
}

/// Which kind of runnable function a [`RunnableFunc`] is.
#[derive(PartialEq, Eq, Structural, Debug, Clone, Copy)]
pub enum RunnableFuncKind {
    /// A unit test: a function carrying a test-like attribute.
    Test,
    /// A benchmark: a function carrying a bare `bench` attribute.
    Bench,
    /// The entry point of a binary crate: `main` in the crate root.
    Bin,
}

/// The item whose documentation holds a runnable example.
#[derive(PartialEq, Eq, Structural, Debug, Clone, Copy)]
pub enum DoctestLocation {
    /// The documentation of a module.
    Module(ModuleRef),
    /// The documentation of a declaration of a module.
    Decl(DeclRef),
    /// The documentation of an impl block of a module (module, impl index).
    Impl(ModuleRef, usize),
}

/// A documentation example that can be executed as a test.
#[derive(PartialEq, Eq, Structural, Debug, Clone, Copy)]
pub struct Doctest {
    pub id: Id,
    pub location: DoctestLocation,
}

/// A function that can be run: a test, a benchmark or a binary entry point.
#[derive(Debug, Clone)]
pub struct RunnableFunc {
    pub id: Id,
    pub name: String,
    pub kind: RunnableFuncKind,
    pub location: DeclRef,
}

/// A leaf of the mirror tree.
#[derive(Debug, Clone)]
pub enum Runnable {
    Function(RunnableFunc),
    Doctest(Doctest),
}

/// Groups what one macro expansion produced.
#[derive(Debug)]
pub struct MacroCall {
    pub id: Id,
    pub content: Vec<Content>,
}

/// A module that leads to at least one runnable.
#[derive(Debug)]
pub struct Module {
    pub id: Id,
    pub name: String,
    pub location: ModuleRef,
    pub content: Vec<Content>,
}

/// An inner node of the mirror tree.
#[derive(Debug)]
pub enum Node {
    MacroCall(MacroCall),
    Module(Module),
}

/// One entry of a module's content, in source declaration order.
#[derive(Debug)]
pub enum Content {
    Node(Node),
    Leaf(Runnable),
}

/// The runnables of one workspace crate, one root module per source file.
#[derive(Debug)]
pub struct Crate {
    pub id: Id,
    pub name: String,
    pub modules: Vec<Module>,
}

/// The workspace-level root.
#[derive(Debug)]
pub struct Session {
    pub crates: Vec<Crate>,
}

/// A semantic definition by which a node of the tree can be looked up.
#[derive(PartialEq, Eq, Structural, Debug, Clone, Copy)]
pub enum DefKey {
    Module(ModuleRef),
    Function(DeclRef),
}

impl Runnable {
    /// The identifier of the leaf.
    pub open spec fn spec_id(&self) -> Id {
        match self {
            Runnable::Function(f) => f.id,
            Runnable::Doctest(d) => d.id,
        }
    }

    /// The identifier of the leaf.
    pub fn id(&self) -> (r: Id)
        ensures
            r == self.spec_id(),
    {
        match self {
            Runnable::Function(f) => f.id,
            Runnable::Doctest(d) => d.id,
        }
    }
}

} // verus!
