//! The canonical contexts of known collections of snapshots.
use vstd::prelude::*;

use crate::context::Context;

pub mod wts;
pub mod wxj;

verus! {

/// The format of a snapshot file, selecting the [`Context`] that it is read under.
#[derive(Clone, Copy, Debug, PartialEq, Eq, Structural)]
pub enum SnapshotFormat {
    /// Twitter snapshots in the flat format.
    WxjFlat,
    /// Twitter snapshots in the data format.
    WxjData,
    /// Truth Social snapshots.
    TruthSocial,
}

/// The whitespace that closes the snapshots of a format.
pub open spec fn closing_whitespace(format: SnapshotFormat) -> Seq<char> {
    match format {
        SnapshotFormat::WxjFlat => seq!['\r', '\r', '\n'],
        SnapshotFormat::WxjData => seq!['\r', '\r', '\n'],
        SnapshotFormat::TruthSocial => seq!['\n'],
    }
}

/// The query for the URL of the snapshots of a format.
pub open spec fn url_query(format: SnapshotFormat) -> Seq<char> {
    match format {
        SnapshotFormat::WxjFlat => wxj::flat::URL_QUERY@,
        SnapshotFormat::WxjData => wxj::data::URL_QUERY@,
        SnapshotFormat::TruthSocial => wts::URL_QUERY@,
    }
}

/// The context of a format.
pub fn context_of(format: SnapshotFormat) -> (context: Context)
    ensures
        context@ == closing_whitespace(format),
        context.query() == Some(url_query(format)),
{
    match format {
        SnapshotFormat::WxjFlat => wxj::flat::context(),
        SnapshotFormat::WxjData => wxj::data::context(),
        SnapshotFormat::TruthSocial => wts::context(),
    }
}

/// Determines the context for a file: that of the explicitly requested `format` if one is given,
/// otherwise the one inferred from the file itself, or the empty one where none could be inferred.
pub fn resolve_context(format: Option<SnapshotFormat>, inferred: Option<Context>) -> (context:
    Context)
    ensures
        match format {
            Some(format) => context@ == closing_whitespace(format) && context.query() == Some(
                url_query(format),
            ),
            None => match inferred {
                Some(inferred) => context == inferred,
                None => context@ == Seq::<char>::empty() && context.query() is None,
            },
        },
{
    match format {
        Some(format) => context_of(format),
        None => match inferred {
            Some(inferred) => inferred,
            None => Context::empty(),
        },
    }
}

/// The two tweet formats close their content with two carriage returns and a line feed, and Truth Social posts
/// with a line feed, and each infers URLs its own way.
pub proof fn law_formats_have_contexts(a: SnapshotFormat)
    ensures
        closing_whitespace(SnapshotFormat::WxjFlat) == seq!['\r', '\r', '\n'],
        closing_whitespace(SnapshotFormat::WxjData) == seq!['\r', '\r', '\n'],
        closing_whitespace(SnapshotFormat::TruthSocial) == seq!['\n'],
        url_query(SnapshotFormat::WxjFlat)
            == "'https://twitter.com/' + content.user.screen_name + '/status/' + content.id_str"@,
        url_query(SnapshotFormat::WxjData)
            == "'https://twitter.com/' + content.includes.users.filter(u, u.id == content.data.author_id)[0].username + '/status/' + content.data.id"@,
        url_query(SnapshotFormat::TruthSocial)
            == "'https://truthsocial.com/api/v1/statuses/' + content.id"@,
        crate::format::is_whitespace(closing_whitespace(a)),
{
}

/// A format that is asked for decides the context. Without one it is the context that was inferred, and without
/// that the empty one.
pub proof fn law_asked_formats_decide(
    format: Option<SnapshotFormat>,
    inferred: Option<Context>,
    context: Context,
)
    requires
        call_ensures(resolve_context, (format, inferred), context),
    ensures
        format matches Some(format) ==> context@ == closing_whitespace(format) && context.query()
            == Some(url_query(format)),
        format is None ==> (inferred matches Some(inferred) ==> context == inferred),
        format is None && inferred is None ==> context@.len() == 0 && context.query() is None,
{
}

} // verus!
