//! Platform classification: maps a host operating-system name to a closed
//! set of platform identities.  Pure; the caller supplies the OS name.

use vstd::prelude::*;

verus! {

/// The closed set of platforms the scanner distinguishes.  Anything it
/// does not recognise maps to `Unknown`, never to an error.
#[derive(Debug, Clone, Copy, PartialEq, Eq, Structural)]
pub enum TargetOS {
    Windows,
    Linux,
    MacOS,
    BSD,
    Unknown,
}

impl TargetOS {
    /// A platform is POSIX-like exactly when it is Linux, macOS or a BSD.
    pub fn _is_posix(&self) -> (r: bool)
        ensures
            r == (*self == TargetOS::Linux || *self == TargetOS::MacOS || *self == TargetOS::BSD),
    {
        matches!(self, TargetOS::Linux | TargetOS::MacOS | TargetOS::BSD)
    }
}

/// What `classify_os` returns for a given operating-system name.
pub open spec fn spec_classify(name: Seq<char>) -> TargetOS {
    if name == "linux"@ {
        TargetOS::Linux
    } else if name == "macos"@ {
        TargetOS::MacOS
    } else if name == "windows"@ {
        TargetOS::Windows
    } else if name == "freebsd"@ || name == "openbsd"@ || name == "netbsd"@ || name
        == "dragonfly"@ {
        TargetOS::BSD
    } else {
        TargetOS::Unknown
    }
}

/// Maps an operating-system name, as the host reports it, to a platform
/// identity.  Unrecognised names yield `Unknown`; there is no failure path.
pub fn classify_os(name: &str) -> (r: TargetOS)
    ensures
        r == spec_classify(name@),
{
    if str_eq(name, "linux") {
        TargetOS::Linux
    } else if str_eq(name, "macos") {
        TargetOS::MacOS
    } else if str_eq(name, "windows") {
        TargetOS::Windows
    } else if str_eq(name, "freebsd") || str_eq(name, "openbsd") || str_eq(name, "netbsd")
        || str_eq(name, "dragonfly") {
        TargetOS::BSD
    } else {
        TargetOS::Unknown
    }
}

/// Equality of two string slices, stated over their character views.
fn str_eq(a: &str, b: &str) -> (r: bool)
    ensures
        r == (a@ == b@),
{
    let sa = a.to_owned();
    let sb = b.to_owned();
    sa == sb
}

} // verus!
