use vstd::prelude::*;

verus! {

/// Whether `position` lies in the rectangle `rect = (x0, y0, x1, y1)`.
///
/// The lower bounds are always inclusive; the upper bounds are inclusive
/// only when `inclusive_stop` is set.
pub open spec fn in_rect(position: (i32, i32), rect: (i32, i32, i32, i32), inclusive_stop: bool) -> bool {
    &&& rect.0 <= position.0
    &&& rect.1 <= position.1
    &&& if inclusive_stop {
        position.0 <= rect.2 && position.1 <= rect.3
    } else {
        position.0 < rect.2 && position.1 < rect.3
    }
}

pub fn is_in_rect(position: (i32, i32), rect: (i32, i32, i32, i32), inclusive_stop: bool) -> (r: bool)
    ensures
        r == in_rect(position, rect, inclusive_stop),
{
    let (x, y) = position;
    let (x0, y0, x1, y1) = rect;
    if x < x0 {
        return false;
    }
    if y < y0 {
        return false;
    }
    if inclusive_stop {
        if x > x1 {
            return false;
        }
        if y > y1 {
            return false;
        }
    } else {
        if x >= x1 {
            return false;
        }
        if y >= y1 {
            return false;
        }
    }
    true
}

} // verus!
