//! Normalising a path without touching the filesystem.

use vstd::prelude::*;

verus! {

/// One component of a path.
#[derive(Debug, Clone, PartialEq, Eq)]
pub enum PathComponent {
    /// A drive or share prefix, as Windows paths have.
    Prefix(String),
    /// The root directory.
    RootDir,
    /// The current directory, `.`.
    CurDir,
    /// The parent directory, `..`.
    ParentDir,
    /// A file or directory name.
    Normal(String),
}

/// What is left of the first `n` components once `.` is dropped and each `..` has taken
/// away the component before it; a `..` at the root or at the very start is dropped.
pub open spec fn normalized(components: Seq<PathComponent>, n: nat) -> Seq<PathComponent>
    decreases n,
{
    if n == 0 || n > components.len() {
        Seq::empty()
    } else {
        let before = normalized(components, (n - 1) as nat);
        match components[n - 1] {
            PathComponent::CurDir => before,
            PathComponent::ParentDir => if before.len() > 0 && before.last()
                != PathComponent::RootDir {
                before.drop_last()
            } else {
                before
            },
            other => before.push(other),
        }
    }
}

/// Resolves the `.` and `..` components of a path, as far as the path itself allows.
pub fn normalize_path(components: &Vec<PathComponent>) -> (res: Vec<PathComponent>)
    ensures
        res@ == normalized(components@, components@.len()),
{
    let mut out: Vec<PathComponent> = Vec::new();
    let mut i: usize = 0;
    while i < components.len()
        invariant
            i <= components.len(),
            out@ == normalized(components@, i as nat),
        decreases components.len() - i,
    {
        let ghost before = out@;
        match &components[i] {
            PathComponent::CurDir => {},
            PathComponent::ParentDir => {
                let at_root = match out.last() {
                    Some(PathComponent::RootDir) => true,
                    _ => false,
                };
                if out.len() > 0 && !at_root {
                    out.pop();
                    assert(out@ =~= before.drop_last());
                }
            },
            PathComponent::Prefix(name) => {
                out.push(PathComponent::Prefix(name.clone()));
            },
            PathComponent::RootDir => {
                out.push(PathComponent::RootDir);
            },
            PathComponent::Normal(name) => {
                out.push(PathComponent::Normal(name.clone()));
            },
        }
        i += 1;
    }
    out
}

} // verus!
