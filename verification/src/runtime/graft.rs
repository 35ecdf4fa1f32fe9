//! Compiled nets, ready to be instantiated.
use vstd::prelude::*;

use crate::runtime::ext::ExtVal;
use crate::runtime::port::NodeKind;

verus! {

/// The index of a graft in the IVM's graft arena.
#[derive(Debug, Clone, Copy, PartialEq, Eq, Structural)]
pub struct GraftId {
    pub index: usize,
}

/// A port without auxiliary ports, as it stands in a graft.
#[derive(Debug)]
pub enum Nilary {
    Erase,
    Graft(GraftId),
    Value(ExtVal),
}

/// One agent of a graft; the registers are its wires.
#[derive(Debug)]
pub enum Instruction {
    /// A nilary agent on a register.
    Nilary { port: usize, value: Nilary },
    /// A binary agent between three registers.
    Binary { kind: NodeKind, label: usize, principal: usize, left: usize, right: usize },
}

/// A compiled net. Register zero is its free port.
#[derive(Debug)]
pub struct Graft {
    /// The number of registers.
    pub registers: usize,
    pub instructions: Vec<Instruction>,
}

/// The contents of a [`Graft`].
#[verifier::ext_equal]
pub struct GraftView {
    pub registers: usize,
    pub instructions: Seq<Instruction>,
}

impl View for Graft {
    type V = GraftView;

    open spec fn view(&self) -> GraftView {
        GraftView { registers: self.registers, instructions: self.instructions@ }
    }
}

} // verus!
