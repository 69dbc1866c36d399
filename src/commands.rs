use vstd::prelude::*;

pub mod builtins;
pub mod external;

pub use builtins::{init_registry, Builtin, BuiltinCommand, Registry};
pub use external::ExtCommand;

verus! {

/// A command known to the shell by name.
pub trait Command {
    spec fn spec_name(&self) -> Seq<char>;

    fn name(&self) -> (r: &'static str)
        ensures
            r@ == self.spec_name(),
    ;
}

} // verus!
