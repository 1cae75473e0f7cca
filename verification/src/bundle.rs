//! Starting from an application bundle.
//!
//! A bundle carries its files read-only. They are copied to a directory of the user's, and again
//! whenever the bundle's version is another than the one copied.
use vstd::prelude::*;

verus! {

/// What a start has to do.
#[derive(Clone, Copy, Debug, PartialEq, Eq, Structural)]
pub enum Bootstrap {
    /// There is no bundle around the program.
    Nothing,
    /// There is a bundle, but no directory of the user's to copy its files to.
    NoHome,
    /// Run from the user's directory; first copy the bundle's files there, if so said.
    Run { refresh: bool },
}

impl Bootstrap {
    /// A bundle was detected, whatever is left to do.
    pub open spec fn spec_detected(self) -> bool {
        !(self is Nothing)
    }

    /// Whether a bundle was detected.
    pub fn detected(self) -> (r: bool)
        ensures
            r == self.spec_detected(),
    {
        match self {
            Bootstrap::Nothing => false,
            Bootstrap::NoHome | Bootstrap::Run { .. } => true,
        }
    }
}

/// Two versions are not the same; a version that cannot be read is the same as another such.
pub open spec fn versions_differ(a: Option<Vec<u8>>, b: Option<Vec<u8>>) -> bool {
    match (a, b) {
        (Some(x), Some(y)) => x@ != y@,
        (None, None) => false,
        _ => true,
    }
}

fn same_bytes(a: &Vec<u8>, b: &Vec<u8>) -> (r: bool)
    ensures
        r == (a@ == b@),
{
    if a.len() != b.len() {
        return false;
    }
    let mut i: usize = 0;
    while i < a.len()
        invariant
            i <= a@.len(),
            a@.len() == b@.len(),
            forall|k: int| 0 <= k < i ==> a@[k] == b@[k],
        decreases a@.len() - i,
    {
        if a[i] != b[i] {
            assert(a@[i as int] != b@[i as int]);
            return false;
        }
        i += 1;
    }
    assert(a@ =~= b@);
    true
}

/// Decides what a start has to do: whether there are files of a bundle, whether the user's home is
/// known, and the versions of the bundle's files and of those copied before.
pub fn bootstrap_payload(has_payload: bool, has_home: bool, bundled: &Option<Vec<u8>>, installed: &Option<Vec<u8>>) -> (r:
    Bootstrap)
    ensures
        r.spec_detected() == has_payload,
        r == (if !has_payload {
            Bootstrap::Nothing
        } else if !has_home {
            Bootstrap::NoHome
        } else {
            Bootstrap::Run { refresh: bundled is Some && versions_differ(*bundled, *installed) }
        }),
{
    if !has_payload {
        return Bootstrap::Nothing;
    }
    if !has_home {
        return Bootstrap::NoHome;
    }
    let refresh: bool = match (bundled, installed) {
        (Some(x), Some(y)) => !same_bytes(x, y),
        (Some(_), None) => true,
        (None, _) => false,
    };
    Bootstrap::Run { refresh }
}

} // verus!
