//! Which core a thread is pinned to, as the bit mask that an operating system
//! takes.

use vstd::prelude::*;

verus! {

/// The mask of one core within one processor group; none for a core beyond it.
#[must_use]
pub fn affinity_mask(core: usize) -> (mask: Option<usize>)
    ensures
        mask == (if core < usize::BITS {
            Some((1usize << core) as usize)
        } else {
            None
        }),
{
    if core >= usize::BITS as usize {
        return None;
    }
    Some(1usize << core)
}

} // verus!
