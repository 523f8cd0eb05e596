//! The interface-layering exercise: a new interface that builds its
//! answer on top of an old one.

use vstd::prelude::*;
use vstd::string::{StrSliceExecFns, StringExecFns};

verus! {

/// The value the old interface hands out.
pub open spec fn old_value() -> Seq<char> {
    "Old value"@
}

/// The value the new interface hands out: the old value with a suffix.
pub open spec fn new_value() -> Seq<char> {
    "Old value + New value"@
}

/// The old module's interface.
pub trait OldInterface {
    /// The old module's answer.
    fn old_method(&self) -> (r: String)
        ensures
            r@ == old_value(),
    ;
}

/// The new module's interface, layered on the old one.
pub trait NewInterface: OldInterface {
    /// The new module's answer: the old answer plus a new suffix.
    fn new_method(&self) -> (r: String)
        ensures
            r@ == new_value(),
    ;
}

/// The service that offers both interfaces.
pub struct NewService;

impl OldInterface for NewService {
    fn old_method(&self) -> (r: String) {
        String::from_str("Old value")
    }
}

impl NewInterface for NewService {
    fn new_method(&self) -> (r: String) {
        let mut s = self.old_method();
        s.append(" + New value");
        proof {
            reveal_strlit("Old value");
            reveal_strlit(" + New value");
            reveal_strlit("Old value + New value");
            assert(s@ =~= new_value());
        }
        s
    }
}

} // verus!
