//! Twitter (WXJ).
use vstd::prelude::*;

use crate::context::Context;

pub mod data;
pub mod flat;

verus! {

/// Returns the canonical [`Context`] for Twitter (WXJ) tweet snapshots, without a URL query: the flat
/// and the data format each have their own.
pub fn context() -> (context: Context)
    ensures
        context@ == seq!['\r', '\r', '\n'],
        context.query() is None,
{
    let whitespace: [char; 3] = ['\r', '\r', '\n'];
    assert(whitespace@ =~= seq!['\r', '\r', '\n']);
    assert(crate::format::is_whitespace(whitespace@));
    match Context::from_static(whitespace.as_slice()) {
        Ok(context) => context,
        Err(_) => Context::empty(),
    }
}

} // verus!
