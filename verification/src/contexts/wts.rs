//! Truth Social.
use vstd::prelude::*;

use crate::context::Context;

verus! {

/// The query for the URL of a post.
pub const URL_QUERY: &'static str = "'https://truthsocial.com/api/v1/statuses/' + content.id";

/// Returns the canonical [`Context`] for Truth Social post snapshots.
pub fn context() -> (context: Context)
    ensures
        context@ == seq!['\n'],
        context.query() == Some(URL_QUERY@),
{
    let whitespace: [char; 1] = ['\n'];
    assert(whitespace@ =~= seq!['\n']);
    assert(crate::format::is_whitespace(whitespace@));
    match Context::from_static(whitespace.as_slice()) {
        Ok(context) => context.with_url_query(URL_QUERY),
        Err(_) => Context::empty(),
    }
}

} // verus!
