use vstd::prelude::*;

verus! {

/// What a call expression calls.
pub enum Callee {
    /// `import(...)`: a dynamic import.
    Import,
    /// `super(...)`.
    Super,
    /// Any other callee, given as a node of the program.
    Expr(usize),
}

/// The key of an object literal property.
pub enum PropName {
    /// A bare identifier, as in `{ key: v }`.
    Ident(String),
    /// A string literal, as in `{ "key": v }`.
    Str(String),
    /// A computed, numeric or other key.
    Other,
}

/// One property of an object literal.
pub enum Prop {
    /// `key: value`, with the value given as a node of the program.
    KeyValue(PropName, usize),
    /// A shorthand property, a spread, a method, a getter or a setter.
    Other,
}

/// One node of a parsed program. Children are indices into the program's
/// node list.
pub enum Node {
    /// A call expression with its callee and its arguments.
    Call(Callee, Vec<usize>),
    /// An arrow function whose body is a single expression.
    Arrow(usize),
    /// An object literal.
    Object(Vec<Prop>),
    /// An array literal; holes and spreads are given as `Other` nodes.
    Array(Vec<usize>),
    /// A string literal.
    Str(String),
    /// Any other statement or expression, with its child nodes.
    Other(Vec<usize>),
}

/// A parsed program: every statement and expression of the source, each as
/// one node of a flat list.
pub struct Program {
    pub nodes: Vec<Node>,
}

impl Program {
    pub open spec fn len(&self) -> int {
        self.nodes@.len() as int
    }

    /// Whether index `j` names a node of the program.
    pub open spec fn has(&self, j: int) -> bool {
        0 <= j < self.len()
    }
}

} // verus!
