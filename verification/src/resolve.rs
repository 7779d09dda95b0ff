//! Variable-body lookup used for substitution.
use vstd::prelude::*;

verus! {

/// Variable-body lookup used for substitution. Implemented by
/// `Session`; the stateless entry points use [`NoResolve`]. Implement
/// this to supply your own definition store.
pub trait Resolve {
    /// The stored bytecode body of `var`, if one is defined.
    spec fn spec_body(&self, var: u8) -> Option<Seq<u8>>;

    /// Compiled bytecode body of `var`, if one has been defined.
    fn body(&self, var: u8) -> (r: Option<&[u8]>)
        requires
            97 <= var <= 122,
        ensures
            r matches Some(b) ==> self.spec_body(var) == Some(b@),
            r is None ==> self.spec_body(var) is None,
    ;
}

/// Null resolver: every variable stays a `VAR` opcode.
pub struct NoResolve;

impl Resolve for NoResolve {
    open spec fn spec_body(&self, var: u8) -> Option<Seq<u8>> {
        None
    }

    fn body(&self, var: u8) -> (r: Option<&[u8]>) {
        None
    }
}

} // verus!
