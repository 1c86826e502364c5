//! Rectangle containment: does one rectangle fit entirely inside another?

use vstd::prelude::*;

verus! {

/// A rectangle `(x, y, width, height)` lies entirely inside `container`,
/// boundaries inclusive: touching edges still count as contained.
pub open spec fn spec_contains(container: (u32, u32, u32, u32), rect: (u32, u32, u32, u32)) -> bool {
    &&& rect.0 >= container.0
    &&& rect.1 >= container.1
    &&& rect.0 + rect.2 <= container.0 + container.2
    &&& rect.1 + rect.3 <= container.1 + container.3
}

/// Return `true` if the rectangle `rect` is fully enclosed by `container`.
///
/// The notation of the tuples is `(x, y, width, height)`; edges are inclusive.
pub fn contains(container: (u32, u32, u32, u32), rect: (u32, u32, u32, u32)) -> (r: bool)
    ensures
        r == spec_contains(container, rect),
{
    rect.0 >= container.0 && rect.1 >= container.1
        && rect.0 as u64 + rect.2 as u64 <= container.0 as u64 + container.2 as u64
        && rect.1 as u64 + rect.3 as u64 <= container.1 as u64 + container.3 as u64
}

} // verus!
