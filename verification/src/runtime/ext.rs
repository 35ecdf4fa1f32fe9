//! Host values, and the extrinsic functions that take them.
use vstd::prelude::*;

use crate::host::dynamic::DynamicProgramMailbox;
use crate::host::module::{GraftHandle, ProgramHandle};
use crate::host::names::NameId;
use crate::runtime::wire::Wire;

verus! {

/// The types of host values.
#[derive(Debug, Clone, Copy, PartialEq, Eq, Structural)]
pub enum TyName {
    Io,
    Text,
    Pair,
    Program,
    Graft,
    CompileResult,
    ResolveResult,
    /// A type that only the host knows.
    Other(u64),
}

/// A registered type of host values.
#[derive(Debug, Clone, Copy, PartialEq, Eq, Structural)]
pub struct ExtTy {
    pub ty_id: usize,
}

/// The token that stands for the outside world.
#[derive(Debug, Clone, Copy, PartialEq, Eq, Structural)]
pub struct IO;

/// What a host value holds.
#[derive(Debug)]
pub enum Payload {
    Io,
    Text(String),
    Pair(Box<ExtVal>, Box<ExtVal>),
    Program(ProgramHandle),
    Graft(GraftHandle),
    CompileResult(Result<ProgramHandle, String>),
    ResolveResult(Result<GraftHandle, String>),
    /// A value that only the host can read.
    Opaque { bits: u64, copy: bool },
}

/// A value of the host, as it travels through a net.
#[derive(Debug)]
pub struct ExtVal {
    /// The identifier of its type.
    pub ty_id: usize,
    pub payload: Payload,
}

impl ExtTy {
    /// The identifier of this type.
    pub fn id(&self) -> (id: usize)
        ensures
            id == self.ty_id,
    {
        self.ty_id
    }

    /// The `IO` token as a value of this type.
    pub fn wrap_static(&self, io: IO) -> (value: ExtVal)
        ensures
            value == (ExtVal { ty_id: self.ty_id, payload: Payload::Io }),
    {
        ExtVal { ty_id: self.ty_id, payload: Payload::Io }
    }
}

impl ExtVal {
    /// Whether a value may be copied and erased freely; the others are linear.
    pub open spec fn spec_is_copy(&self) -> bool {
        match self.payload {
            Payload::Program(_) => true,
            Payload::Graft(_) => true,
            Payload::Opaque { bits, copy } => copy,
            _ => false,
        }
    }

    /// Whether a value may be copied and erased freely; the others are linear.
    #[verifier::when_used_as_spec(spec_is_copy)]
    pub fn is_copy(&self) -> (copy: bool)
        ensures
            copy == self.spec_is_copy(),
            self.payload is Program || self.payload is Graft ==> copy,
            self.payload is Io ==> !copy,
            self.payload matches Payload::Opaque { bits, copy: says } ==> copy == says,
    {
        match &self.payload {
            Payload::Program(_) => true,
            Payload::Graft(_) => true,
            Payload::Opaque { bits, copy } => *copy,
            _ => false,
        }
    }

    /// The identifier of the value's type.
    pub fn ty_id(&self) -> (id: usize)
        ensures
            id == self.ty_id,
    {
        self.ty_id
    }

    /// Whether the handles in the value point into arenas of these sizes.
    pub open spec fn in_arenas(self, programs: nat, grafts: nat) -> bool
        decreases self,
    {
        match self.payload {
            Payload::Pair(first, second) => {
                &&& first.in_arenas(programs, grafts)
                &&& second.in_arenas(programs, grafts)
            },
            Payload::Program(program) => program.index < programs,
            Payload::Graft(graft) => graft.graft.index < grafts,
            Payload::CompileResult(Ok(program)) => program.index < programs,
            Payload::ResolveResult(Ok(graft)) => graft.graft.index < grafts,
            _ => true,
        }
    }

    /// Whether the handles in the value point into arenas of these sizes.
    pub fn is_in_arenas(&self, programs: usize, grafts: usize) -> (inside: bool)
        ensures
            inside == self.in_arenas(programs as nat, grafts as nat),
        decreases self,
    {
        match &self.payload {
            Payload::Pair(first, second) => {
                first.is_in_arenas(programs, grafts) && second.is_in_arenas(programs, grafts)
            },
            Payload::Program(program) => program.index < programs,
            Payload::Graft(graft) => graft.graft.index < grafts,
            Payload::CompileResult(Ok(program)) => program.index < programs,
            Payload::ResolveResult(Ok(graft)) => graft.graft.index < grafts,
            _ => true,
        }
    }

    pub proof fn lemma_in_larger_arenas(
        self,
        programs: nat,
        grafts: nat,
        more_programs: nat,
        more_grafts: nat,
    )
        requires
            self.in_arenas(programs, grafts),
            programs <= more_programs,
            grafts <= more_grafts,
        ensures
            self.in_arenas(more_programs, more_grafts),
        decreases self,
    {
        if let Payload::Pair(first, second) = self.payload {
            first.lemma_in_larger_arenas(programs, grafts, more_programs, more_grafts);
            second.lemma_in_larger_arenas(programs, grafts, more_programs, more_grafts);
        }
    }

    /// A value that holds what this one holds.
    pub(crate) fn duplicate(&self) -> (value: ExtVal)
        ensures
            value == *self,
        decreases self,
    {
        let payload = match &self.payload {
            Payload::Io => Payload::Io,
            Payload::Text(text) => Payload::Text(text.clone()),
            Payload::Pair(first, second) => Payload::Pair(
                Box::new(first.duplicate()),
                Box::new(second.duplicate()),
            ),
            Payload::Program(program) => Payload::Program(*program),
            Payload::Graft(graft) => Payload::Graft(*graft),
            Payload::CompileResult(Ok(program)) => Payload::CompileResult(Ok(*program)),
            Payload::CompileResult(Err(error)) => Payload::CompileResult(Err(error.clone())),
            Payload::ResolveResult(Ok(graft)) => Payload::ResolveResult(Ok(*graft)),
            Payload::ResolveResult(Err(error)) => Payload::ResolveResult(Err(error.clone())),
            Payload::Opaque { bits, copy } => Payload::Opaque { bits: *bits, copy: *copy },
        };
        ExtVal { ty_id: self.ty_id, payload }
    }
}

/// What an extrinsic function does when it is called.
#[derive(Debug, Clone, Copy, PartialEq, Eq, Structural)]
pub enum ExtFnKind {
    /// Asks for a text to be parsed and compiled, by a request in the mailbox.
    ParseIvy(DynamicProgramMailbox),
    /// Asks for the graft of a name in a compiled program, by a request in the mailbox.
    ResolveProgram(DynamicProgramMailbox),
    /// Instantiates a graft between its two outputs.
    InvokeGraft,
    /// Is carried out by the host.
    Host,
}

/// A registered extrinsic function.
#[derive(Debug, Clone, Copy, PartialEq, Eq, Structural)]
pub struct ExtFn {
    pub name: NameId,
    pub kind: ExtFnKind,
}

/// A call that the host has to carry out: it links what the function returns to
/// the two wires.
#[derive(Debug)]
pub struct ExtCall {
    /// The index of the extrinsic function.
    pub label: usize,
    pub input: ExtVal,
    pub left: Wire,
    pub right: Wire,
}

} // verus!
