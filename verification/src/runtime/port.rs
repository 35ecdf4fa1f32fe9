//! The ports of a net: what a wire can be linked to.
use vstd::prelude::*;

use crate::runtime::ext::ExtVal;
use crate::runtime::graft::GraftId;
use crate::runtime::wire::Wire;

verus! {

/// What kind of agent a port belongs to.
#[derive(Debug, Clone, Copy, PartialEq, Eq, Structural)]
pub enum Tag {
    Wire,
    Erase,
    Comb,
    ExtFn,
    ExtVal,
    Graft,
}

impl Tag {
    /// Whether agents of this kind have two auxiliary ports.
    pub open spec fn is_binary(self) -> bool {
        self == Tag::Comb || self == Tag::ExtFn
    }
}

/// The kinds of agents with two auxiliary ports.
#[derive(Debug, Clone, Copy, PartialEq, Eq, Structural)]
pub enum NodeKind {
    /// A combinator.
    Comb,
    /// A call of an extrinsic function.
    ExtFn,
}

impl NodeKind {
    /// The tag of a node of this kind.
    pub open spec fn tag(self) -> Tag {
        match self {
            NodeKind::Comb => Tag::Comb,
            NodeKind::ExtFn => Tag::ExtFn,
        }
    }
}

impl Tag {
    /// The kind of node with this tag.
    pub open spec fn node_kind(self) -> NodeKind {
        if self == Tag::ExtFn {
            NodeKind::ExtFn
        } else {
            NodeKind::Comb
        }
    }
}

/// An agent with two auxiliary ports, seen from its principal port.
#[derive(Debug)]
pub struct Node {
    pub kind: NodeKind,
    /// Which combinator this is, or the index of the extrinsic function it calls.
    pub label: usize,
    pub left: Wire,
    pub right: Wire,
}

/// A port: the end of a wire, or the principal port of an agent.
#[derive(Debug)]
pub enum Port {
    Wire(Wire),
    /// The eraser.
    Erase,
    /// A net that has not been expanded yet.
    Graft(GraftId),
    /// A value of the host.
    ExtVal(ExtVal),
    Node(Node),
}

impl Port {
    /// The tag of this port.
    pub open spec fn spec_tag(&self) -> Tag {
        match self {
            Port::Wire(_) => Tag::Wire,
            Port::Erase => Tag::Erase,
            Port::Graft(_) => Tag::Graft,
            Port::ExtVal(_) => Tag::ExtVal,
            Port::Node(node) => node.kind.tag(),
        }
    }

    /// The port at the end of `wire`.
    pub fn new_wire(wire: Wire) -> (port: Port)
        ensures
            port == Port::Wire(wire),
    {
        Port::Wire(wire)
    }

    /// The port of an unexpanded graft.
    pub fn new_graft(graft: GraftId) -> (port: Port)
        ensures
            port == Port::Graft(graft),
    {
        Port::Graft(graft)
    }

    /// The port of a host value.
    pub fn new_ext_val(value: ExtVal) -> (port: Port)
        ensures
            port == Port::ExtVal(value),
    {
        Port::ExtVal(value)
    }

    /// The tag of this port.
    #[verifier::when_used_as_spec(spec_tag)]
    pub fn tag(&self) -> (tag: Tag)
        ensures
            tag == self.spec_tag(),
    {
        match self {
            Port::Wire(_) => Tag::Wire,
            Port::Erase => Tag::Erase,
            Port::Graft(_) => Tag::Graft,
            Port::ExtVal(_) => Tag::ExtVal,
            Port::Node(node) => match node.kind {
                NodeKind::Comb => Tag::Comb,
                NodeKind::ExtFn => Tag::ExtFn,
            },
        }
    }

    /// How much work a port can still cause without allocating: a node weighs more
    /// than the two nilary ports it can leave behind.
    pub open spec fn weight(self) -> nat {
        match self {
            Port::Wire(_) => 0,
            Port::Node(_) => 3,
            _ => 1,
        }
    }
}

} // verus!
