//! The session record: which sequence is selected.

use vstd::prelude::*;

verus! {

/// What a session stores: the name of the selected sequence.
#[derive(Clone, Debug)]
pub struct Session {
    pub sequence_name: String,
}

} // verus!
