use crate::handle::Handle;
use vstd::prelude::*;

verus! {

/// The capability a payload type provides so that the collector can find the
/// handles embedded in it and can fill a freshly allocated cell.
pub trait Trace: Sized {
    /// The handles directly embedded in this payload, in traversal order.
    spec fn edges(&self) -> Seq<Handle>;

    /// Appends the handles directly embedded in this payload to `out`.
    fn trace(&self, out: &mut Vec<Handle>)
        ensures
            final(out)@ == old(out)@ + self.edges(),
    ;

    /// The payload of a freshly allocated cell.
    spec fn initial() -> Self;

    /// Builds the payload of a freshly allocated cell; it embeds no handle.
    fn uninit() -> (r: Self)
        ensures
            r == Self::initial(),
            r.edges() == Seq::<Handle>::empty(),
    ;
}

} // verus!
