//! Trusted contracts for the outside identifier-class predicates.

use vstd::prelude::*;

use crate::model::{xid_continue, xid_start};

verus! {

/// Relies on `unicode_ident::is_xid_start`: whether a character has the
/// Unicode XID_Start property. The result depends on the character alone;
/// the library names it `xid_start` and states nothing further about it.
pub assume_specification [ unicode_ident::is_xid_start ](ch: char) -> (r: bool)
    ensures
        r == xid_start(ch),
;

/// Relies on `unicode_ident::is_xid_continue`: whether a character has the
/// Unicode XID_Continue property. The result depends on the character
/// alone; the library names it `xid_continue`.
pub assume_specification [ unicode_ident::is_xid_continue ](ch: char) -> (r: bool)
    ensures
        r == xid_continue(ch),
;

} // verus!
