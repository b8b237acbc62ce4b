//! The interfaces a theory has to provide before its terms can be handed to
//! a solver, and the errors a solving session can end in.

use vstd::prelude::*;

verus! {

/// How a solving session can fail.
#[derive(Clone, Debug)]
pub enum SMTError {
    /// A bounded wait for the solver's reply ran out.
    Timeout,
    /// The reply could not be read, or was not what the protocol expects.
    Undefined,
    /// The solver reported the assertions unsatisfiable.
    Unsat,
    /// A semantic error raised by the caller.
    AssertionError(String),
}

/// The result of a solver interaction.
pub type SMTResult<T> = Result<T, SMTError>;

/// The text of a value as it stands in an SMT-LIB2 command.
///
/// `rendering` is the text in specifications and `render` computes it. An
/// implementor that is verified states `rendering` and proves `render`
/// against it. One that is not writes `render` alone; what is proved of the
/// library then holds of whatever text `render` gives back, provided that it
/// gives the same text each time.
pub trait Render {
    /// The exact SMT-LIB2 token of `self`.
    open spec fn rendering(&self) -> Seq<char> {
        arbitrary()
    }

    /// Writes `self` as its SMT-LIB2 token.
    fn render(&self) -> (text: String)
        ensures
            text@ == self.rendering(),
    ;
}

/// A node of an expression graph: a variable, a constant or a function
/// application of some theory. Its rendering is its SMT-LIB2 atom or
/// operator.
///
/// The classes `var`, `constant` and `boolean` are stated by a verified
/// implementor and computed by `is_var`, `is_const` and `is_bool`. A node is
/// a function exactly when it is neither a variable nor a constant. Whether
/// it is boolean is for the theory to say: with most theories only nodes of
/// a boolean sort are.
pub trait SMTNode: Render {
    /// `self` is a symbolic variable.
    open spec fn var(&self) -> bool {
        arbitrary()
    }

    /// `self` is a constant value.
    open spec fn constant(&self) -> bool {
        arbitrary()
    }

    /// `self` is of boolean sort.
    open spec fn boolean(&self) -> bool {
        arbitrary()
    }

    /// Returns true if the node is a symbolic variable.
    fn is_var(&self) -> (b: bool)
        ensures
            b == self.var(),
    ;

    /// Returns true if the node is a constant value.
    fn is_const(&self) -> (b: bool)
        ensures
            b == self.constant(),
    ;

    /// Returns true if the node is a function.
    fn is_fn(&self) -> (b: bool)
        ensures
            b == (!self.var() && !self.constant()),
    {
        !self.is_var() && !self.is_const()
    }

    /// Returns true if the node is of boolean sort.
    fn is_bool(&self) -> (b: bool)
        ensures
            b == self.boolean(),
    ;
}

/// A function node is one that is neither a variable nor a constant.
pub open spec fn is_function<N: SMTNode>(node: N) -> bool {
    !node.var() && !node.constant()
}

/// A logic: a named theory fragment with its node values and its sorts. It
/// renders to the name that `set-logic` takes.
pub trait Logic: Render + Copy {
    type Fns: SMTNode;

    type Sorts: Render;

    /// What the logic promises of the node that `free_var` builds for
    /// `name` at `sort`. Nothing, unless an implementor says more.
    open spec fn is_free_var(node: Self::Fns, name: Seq<char>, sort: Self::Sorts) -> bool {
        true
    }

    /// The node that stands for a free variable called `name` of sort `sort`.
    fn free_var(name: &str, sort: &Self::Sorts) -> (node: Self::Fns)
        ensures
            Self::is_free_var(node, name@, *sort),
    ;
}

} // verus!
