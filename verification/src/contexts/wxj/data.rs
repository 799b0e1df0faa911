//! Tweets in the data format.
use vstd::prelude::*;

use crate::context::Context;

verus! {

/// The query for the URL of a tweet.
pub const URL_QUERY: &'static str = "'https://twitter.com/' + content.includes.users.filter(u, u.id == content.data.author_id)[0].username + '/status/' + content.data.id";

/// Returns the canonical [`Context`] for WXJ data format tweet snapshots.
pub fn context() -> (context: Context)
    ensures
        context@ == seq!['\r', '\r', '\n'],
        context.query() == Some(URL_QUERY@),
{
    super::context().with_url_query(URL_QUERY)
}

} // verus!
