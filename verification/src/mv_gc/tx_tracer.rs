use vstd::prelude::*;
use crate::mv_test::push_char;

verus! {

/// The unit payload that the transaction trace stores beside each live
/// snapshot: the trace only cares about which snapshots are present.
#[derive(Clone, Copy)]
pub struct NullValue;

impl Default for NullValue {
    fn default() -> (v: Self)
        ensures
            v == NullValue,
    {
        NullValue
    }
}

impl NullValue {
    /// The printed form of the unit payload, `()`.
    pub fn to_string(&self) -> (s: String)
        ensures
            s@ == seq!['(', ')'],
    {
        let mut s = String::new();
        push_char(&mut s, '(');
        push_char(&mut s, ')');
        s
    }
}

} // verus!
