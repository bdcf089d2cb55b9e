//! Ordering the values that two buffers hold.
use crate::decode::{decoded, from_slice};
use crate::jsonpath::exception::{ErrorCode, ErrorKind};
use crate::order::order;
use core::cmp::Ordering;
use vstd::prelude::*;

verus! {

/// The ordering says what the sign says: `Less` for -1, `Equal` for 0 and
/// `Greater` for 1.
pub open spec fn is_sign(o: Ordering, s: int) -> bool {
    match o {
        Ordering::Less => s == -1,
        Ordering::Equal => s == 0,
        Ordering::Greater => s == 1,
    }
}

/// The order of the values that the two buffers hold: `Less` where that of
/// `a` comes first, `Greater` where that of `b` does. Where a buffer holds
/// no value, the result is an encoding error.
pub fn compare(a: &[u8], b: &[u8]) -> (r: Result<Ordering, ErrorCode>)
    ensures
        match r {
            Ok(o) => decoded(a@) is Some && decoded(b@) is Some && is_sign(
                o,
                order(decoded(a@)->0, decoded(b@)->0),
            ),
            Err(e) => (decoded(a@) is None || decoded(b@) is None) && e.kind
                == ErrorKind::InvalidEncoding,
        },
{
    let x = match from_slice(a) {
        Ok(x) => x,
        Err(e) => {
            return Err(e);
        },
    };
    let y = match from_slice(b) {
        Ok(y) => y,
        Err(e) => {
            return Err(e);
        },
    };
    let c = x.order_sign(&y);
    if c < 0 {
        Ok(Ordering::Less)
    } else if c > 0 {
        Ok(Ordering::Greater)
    } else {
        Ok(Ordering::Equal)
    }
}

} // verus!
