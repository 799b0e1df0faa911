//! Tweets in the flat format.
use vstd::prelude::*;

use crate::context::Context;

verus! {

/// The query for the URL of a tweet.
pub const URL_QUERY: &'static str = "'https://twitter.com/' + content.user.screen_name + '/status/' + content.id_str";

/// Returns the canonical [`Context`] for WXJ flat format tweet snapshots.
pub fn context() -> (context: Context)
    ensures
        context@ == seq!['\r', '\r', '\n'],
        context.query() == Some(URL_QUERY@),
{
    super::context().with_url_query(URL_QUERY)
}

} // verus!
