use vstd::prelude::*;

verus! {

/// Something that carries a string identity.
pub trait Identifiable {
    fn id(&self) -> &str;
}

} // verus!
