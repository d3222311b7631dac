//! Error taxonomy of the installer core.

use vstd::prelude::*;

verus! {

use vstd::string::StringExecFns;

/// Errors produced by the installer core and by the surrounding program.
///
/// Each variant carries a human-readable message naming what went wrong.
#[derive(Debug)]
pub enum InstallerError {
    /// Malformed MAJ:MIN text or GUID text.
    Parse(String),
    /// Missing /dev node, missing boot device, missing named partition,
    /// or no free space fitting a requested slot.
    NotFound(String),
    /// A status, open, read or write failure reported by the caller.
    Io(String),
    /// Partitioning attempted on a partition rather than a whole disk.
    State(String),
    /// Non-zero exit from an invoked external tool.
    ExternalCommand(String),
}

impl InstallerError {
    /// The same error with `prefix` put before its message.
    pub fn prefixed(self, prefix: &str) -> (r: InstallerError)
        ensures
            r is Parse <==> self is Parse,
            r is NotFound <==> self is NotFound,
            r is Io <==> self is Io,
            r is State <==> self is State,
            r is ExternalCommand <==> self is ExternalCommand,
            r.message_spec() == prefix@ + self.message_spec(),
    {
        let mut m = String::new();
        m.append(prefix);
        proof {
            assert(m@ =~= prefix@);
        }
        match self {
            InstallerError::Parse(inner) => {
                m.append(inner.as_str());
                InstallerError::Parse(m)
            },
            InstallerError::NotFound(inner) => {
                m.append(inner.as_str());
                InstallerError::NotFound(m)
            },
            InstallerError::Io(inner) => {
                m.append(inner.as_str());
                InstallerError::Io(m)
            },
            InstallerError::State(inner) => {
                m.append(inner.as_str());
                InstallerError::State(m)
            },
            InstallerError::ExternalCommand(inner) => {
                m.append(inner.as_str());
                InstallerError::ExternalCommand(m)
            },
        }
    }

    /// The message carried by the error, whatever its variant.
    pub fn message(&self) -> (r: String)
        ensures
            r@ == self.message_spec(),
    {
        match self {
            InstallerError::Parse(m) => m.clone(),
            InstallerError::NotFound(m) => m.clone(),
            InstallerError::Io(m) => m.clone(),
            InstallerError::State(m) => m.clone(),
            InstallerError::ExternalCommand(m) => m.clone(),
        }
    }

    /// The message carried by the error, at the specification level.
    pub open spec fn message_spec(&self) -> Seq<char> {
        match self {
            InstallerError::Parse(m) => m@,
            InstallerError::NotFound(m) => m@,
            InstallerError::Io(m) => m@,
            InstallerError::State(m) => m@,
            InstallerError::ExternalCommand(m) => m@,
        }
    }
}

} // verus!
