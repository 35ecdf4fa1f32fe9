//! Errors that a run can end with.
use vstd::prelude::*;

use crate::text::join;

verus! {

/// Error flags set during interactions, and at the end of a run.
#[derive(Debug, Clone, Copy, PartialEq, Eq, Structural)]
pub struct Flags {
    /// A linear host value was copied.
    pub ext_copy: bool,
    /// A linear host value was erased.
    pub ext_erase: bool,
    /// An extrinsic function was given a value that it does not take.
    pub ext_generic: bool,
    /// The net did not return its `IO` handle.
    pub no_io: bool,
    /// Some wires were never freed.
    pub vicious: bool,
}

impl Flags {
    /// No flag is set.
    pub open spec fn none() -> Flags {
        Flags {
            ext_copy: false,
            ext_erase: false,
            ext_generic: false,
            no_io: false,
            vicious: false,
        }
    }

    /// The messages of the flags that are set.
    pub open spec fn messages(self, debug_hint: bool) -> Seq<Seq<char>> {
        let copied = if self.ext_copy {
            seq!["Error: a linear extrinsic was copied"@]
        } else {
            seq![]
        };
        let erased = if self.ext_erase {
            seq!["Error: a linear extrinsic was erased"@]
        } else {
            seq![]
        };
        let generic = if self.ext_generic {
            seq!["Error: an extrinsic function encountered an unspecified error"@]
        } else {
            seq![]
        };
        let no_io = if self.no_io && debug_hint {
            seq![
                "Error: the net did not return its `IO` handle"@,
                "  hint: try running the program in `--debug` mode to see error messages"@,
            ]
        } else if self.no_io {
            seq!["Error: the net did not return its `IO` handle"@]
        } else {
            seq![]
        };
        let vicious = if self.vicious {
            seq!["Error: the net created a vicious circle"@]
        } else {
            seq![]
        };
        copied + erased + generic + no_io + vicious
    }

    /// The messages of the flags that are set, one on each line.
    pub fn error_message(&self, debug_hint: bool) -> (text: String)
        ensures
            text@ == crate::text::joined(self.messages(debug_hint), "\n"@),
    {
        let mut lines: Vec<String> = Vec::new();
        if self.ext_copy {
            lines.push("Error: a linear extrinsic was copied".to_owned());
        }
        if self.ext_erase {
            lines.push("Error: a linear extrinsic was erased".to_owned());
        }
        if self.ext_generic {
            lines.push(
                "Error: an extrinsic function encountered an unspecified error".to_owned(),
            );
        }
        if self.no_io {
            lines.push("Error: the net did not return its `IO` handle".to_owned());
            if debug_hint {
                lines.push(
                    "  hint: try running the program in `--debug` mode to see error messages".to_owned(),
                );
            }
        }
        if self.vicious {
            lines.push("Error: the net created a vicious circle".to_owned());
        }
        assert(crate::text::texts(lines@) =~= self.messages(debug_hint));
        join(&lines, "\n")
    }

    /// Whether no flag is set.
    pub fn success(&self) -> (success: bool)
        ensures
            success == (*self == Flags::none()),
    {
        !self.ext_copy && !self.ext_erase && !self.ext_generic && !self.no_io && !self.vicious
    }
}

impl Default for Flags {
    fn default() -> (flags: Flags)
        ensures
            flags == Flags::none(),
    {
        Flags {
            ext_copy: false,
            ext_erase: false,
            ext_generic: false,
            no_io: false,
            vicious: false,
        }
    }
}

} // verus!
