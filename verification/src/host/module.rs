//! Handles to compiled Ivy code.
use vstd::prelude::*;

use crate::host::names::NameId;
use crate::program::Program;
use crate::runtime::graft::GraftId;

verus! {

/// Why an entry could not be run.
#[derive(Debug, Clone, Copy, PartialEq, Eq, Structural)]
pub enum RunError {
    EntryDoesntExist,
}

/// Why a text could not be turned into nets.
#[derive(Debug)]
pub enum CompileError {
    /// The text is not Ivy.
    Parse { message: String },
    /// The nets of the text cannot be flattened.
    Flatten { message: String },
}

impl CompileError {
    /// The message of an error.
    pub open spec fn text(self) -> Seq<char> {
        match self {
            CompileError::Parse { message } => message@,
            CompileError::Flatten { message } => message@,
        }
    }

    /// The message of this error.
    pub fn message(&self) -> (text: String)
        ensures
            text@ == self.text(),
    {
        match self {
            CompileError::Parse { message } => message.clone(),
            CompileError::Flatten { message } => message.clone(),
        }
    }

    /// An error that says what this one says.
    pub(crate) fn duplicate(&self) -> (error: CompileError)
        ensures
            error == *self,
    {
        match self {
            CompileError::Parse { message } => CompileError::Parse { message: message.clone() },
            CompileError::Flatten { message } => CompileError::Flatten { message: message.clone() },
        }
    }
}

/// An immutable, reusable view of compiled Ivy code.
#[derive(Debug, Clone, Copy)]
pub struct IvyModule<'ivm> {
    pub program: &'ivm Program,
}

impl<'ivm> IvyModule<'ivm> {
    /// The module of `program`.
    pub fn new(program: &'ivm Program) -> (module: IvyModule<'ivm>)
        ensures
            module.program == program,
    {
        IvyModule { program }
    }

    /// The graft that the module defines under `name`.
    pub fn graft(&self, name: NameId) -> (graft: Option<GraftId>)
        ensures
            graft == Program::lookup(self.program@, name),
    {
        self.program.graft(name)
    }
}

/// A handle to a program in the IVM's program arena. It stays valid, and keeps
/// its meaning, as the arena grows.
#[derive(Debug, Clone, Copy, PartialEq, Eq, Structural)]
pub struct ProgramHandle {
    pub index: usize,
}

impl ProgramHandle {
    /// The word that a net carries for this handle.
    pub open spec fn payload(self) -> usize {
        self.index
    }

    /// The handle that the word `payload` stands for.
    pub open spec fn of_payload(payload: usize) -> ProgramHandle {
        ProgramHandle { index: payload }
    }

    /// The word that a net carries for this handle.
    pub fn into_payload_static(module: ProgramHandle) -> (payload: usize)
        ensures
            payload == module.payload(),
    {
        module.index
    }

    /// The handle that `payload` was made from.
    pub fn from_payload_static(payload: usize) -> (module: ProgramHandle)
        ensures
            module == ProgramHandle::of_payload(payload),
    {
        ProgramHandle { index: payload }
    }
}

/// A handle to a graft that a net can pass around.
#[derive(Debug, Clone, Copy, PartialEq, Eq, Structural)]
pub struct GraftHandle {
    pub graft: GraftId,
}

impl GraftHandle {
    /// The handle to `graft`.
    pub fn new(graft: GraftId) -> (handle: GraftHandle)
        ensures
            handle.graft == graft,
    {
        GraftHandle { graft }
    }

    /// The graft that this handle points to.
    pub fn graft(&self) -> (graft: GraftId)
        ensures
            graft == self.graft,
    {
        self.graft
    }
}

} // verus!
