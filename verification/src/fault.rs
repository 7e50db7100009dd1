//! What stands in this library for the classifier program's panic handler.
use vstd::prelude::*;

verus! {

/// The report a panic hands to its handler.
#[verifier::external_type_specification]
#[verifier::external_body]
pub struct ExPanicInfo<'a>(core::panic::PanicInfo<'a>);

/// Stands in for the panic handler that a freestanding classifier program
/// must provide. It is not installed as a handler, and it returns, where the
/// handler it stands for loops forever. It does nothing: every function of
/// this library is proved free of panics, so no panic ever reaches it.
pub fn panic(info: &core::panic::PanicInfo) {
}

} // verus!
