use vstd::prelude::*;
use crate::equation::EqBinaryOp;
use crate::shape::Shape;

verus! {

/// The kinds of graph node whose shape rule needs at least one input.
#[derive(Clone, Copy, Debug, PartialEq, Eq)]
pub enum NodeKind {
    BoundaryCondition,
    Export,
    Migrate,
    Probe,
}

/// Reasons a graph operation is refused.
#[derive(Debug, PartialEq, Eq)]
pub enum GraphError {
    /// A node names a dependency that is not in the graph.
    UnknownDependency { node: u128, dep: u128 },
    /// The dependencies form a cycle, so no execution order exists.
    Cycle,
    /// No node with this id is in the graph.
    UnknownNode(u128),
    /// The node with this id is not an equation node.
    NotAnEquationNode(u128),
    /// The graph has not been compiled since it last changed.
    NotCompiled,
    /// An equation graph has no output node.
    OutputNotSet,
    /// No shape was given for this input variable of an equation graph.
    MissingInputShape(String),
    /// The output node of an equation graph got no shape.
    OutputShapeNotFound(u128),
    /// No shape is known for the outer node feeding this equation input.
    MissingOuterShape(String),
    /// The state map holds no tensor for this node, so its shape is unknown.
    OuterShapeUnknown(u128),
    /// The operand shapes of a binary operation cannot be broadcast together.
    Broadcast { op: EqBinaryOp, lhs: Shape, rhs: Shape },
    /// A node of this kind was given no input shape.
    MissingInput(NodeKind),
    /// A state node's shape only comes from the state it holds.
    StateShapeFromContext,
    /// An equation variable's shape must be supplied from outside.
    VariableShapeExternal(String),
}

} // verus!
