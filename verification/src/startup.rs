//! The checks that are made once, before anything is watched.
use vstd::prelude::*;

verus! {

/// Why the monitor refuses to start.
#[derive(Clone, Copy, Debug, PartialEq, Eq, Structural)]
pub enum StartupError {
    /// The directory that should hold the sentinel is no directory.
    SourceNotDirectory,
    /// The sentinel has no name, or one that is no plain file name.
    BadSentinelName,
    /// The target is no directory.
    TargetNotDirectory,
}

/// The path separator.
pub const SEPARATOR: u8 = 0x2f;

/// A plain file name: not empty, and without a path separator.
pub open spec fn is_plain_name(name: Seq<u8>) -> bool {
    name.len() > 0 && forall|i: int| 0 <= i < name.len() ==> #[trigger] name[i] != SEPARATOR
}

/// Tells whether `name` is a plain file name.
pub fn plain_name(name: &[u8]) -> (r: bool)
    ensures
        r == is_plain_name(name@),
{
    if name.len() == 0 {
        return false;
    }
    let mut i: usize = 0;
    while i < name.len()
        invariant
            i <= name.len(),
            forall|j: int| 0 <= j < i ==> #[trigger] name@[j] != SEPARATOR,
        decreases name.len() - i,
    {
        if name[i] == SEPARATOR {
            return false;
        }
        i += 1;
    }
    true
}

/// The outcome of the startup checks, which are made in this order: the
/// source is a directory, the sentinel has a plain name, the target is a
/// directory. The first that fails gives the error.
pub open spec fn startup(source_is_dir: bool, name: Option<Seq<u8>>, target_is_dir: bool) -> Result<
    (),
    StartupError,
> {
    if !source_is_dir {
        Err(StartupError::SourceNotDirectory)
    } else if !(name is Some && is_plain_name(name->0)) {
        Err(StartupError::BadSentinelName)
    } else if !target_is_dir {
        Err(StartupError::TargetNotDirectory)
    } else {
        Ok(())
    }
}

/// Checks what was found at startup. `name` is the sentinel's file name,
/// if the configured path has one.
pub fn check_startup(source_is_dir: bool, name: Option<&[u8]>, target_is_dir: bool) -> (r: Result<
    (),
    StartupError,
>)
    ensures
        r == startup(
            source_is_dir,
            match name {
                Some(n) => Some(n@),
                None => None,
            },
            target_is_dir,
        ),
{
    if !source_is_dir {
        return Err(StartupError::SourceNotDirectory);
    }
    let named = match name {
        Some(n) => plain_name(n),
        None => false,
    };
    if !named {
        return Err(StartupError::BadSentinelName);
    }
    if !target_is_dir {
        return Err(StartupError::TargetNotDirectory);
    }
    Ok(())
}

} // verus!
