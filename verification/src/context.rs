//! The context that snapshots are interpreted under.
use vstd::prelude::*;

use crate::format::all_whitespace;

verus! {

/// The closing whitespace of a context holds a character that is not JSON whitespace.
#[derive(Clone, Copy, Debug, PartialEq, Eq, Structural)]
pub struct InvalidClosingWhitespace;

/// What a collection of snapshots has in common: the whitespace that closes their content, and how
/// their URL follows from it.
#[derive(Debug)]
pub struct Context {
    closing_whitespace: Vec<char>,
    url_query: Option<String>,
}

impl View for Context {
    type V = Seq<char>;

    /// The default closing whitespace.
    closed spec fn view(&self) -> Seq<char> {
        self.closing_whitespace@
    }
}

impl Context {
    /// The closing whitespace is JSON whitespace.
    #[verifier::type_invariant]
    spec fn is_well_formed(self) -> bool {
        crate::format::is_whitespace(self.closing_whitespace@)
    }

    /// The query that the URL of a snapshot follows from, if there is one.
    pub closed spec fn query(&self) -> Option<Seq<char>> {
        match self.url_query {
            Some(query) => Some(query@),
            None => None,
        }
    }

    /// A context without closing whitespace and without a URL query.
    pub fn empty() -> (context: Context)
        ensures
            context@ == Seq::<char>::empty(),
            context.query() is None,
    {
        Context { closing_whitespace: Vec::new(), url_query: None }
    }

    /// A context with the given closing whitespace and without a URL query.
    pub fn from_static(closing_whitespace: &[char]) -> (context: Result<
        Context,
        InvalidClosingWhitespace,
    >)
        ensures
            match context {
                Ok(context) => {
                    &&& crate::format::is_whitespace(closing_whitespace@)
                    &&& context@ == closing_whitespace@
                    &&& context.query() is None
                },
                Err(_) => !crate::format::is_whitespace(closing_whitespace@),
            },
    {
        if all_whitespace(closing_whitespace) {
            Ok(
                Context {
                    closing_whitespace: vstd::slice::slice_to_vec(closing_whitespace),
                    url_query: None,
                },
            )
        } else {
            Err(InvalidClosingWhitespace)
        }
    }

    /// The context with the given URL query.
    pub fn with_url_query(self, query: &str) -> (context: Context)
        ensures
            context@ == self@,
            context.query() == Some(query@),
    {
        proof {
            use_type_invariant(&self);
        }
        Context { closing_whitespace: self.closing_whitespace, url_query: Some(query.to_owned()) }
    }

    /// The whitespace that closes content unless a snapshot says otherwise.
    pub fn default_closing_whitespace(&self) -> (whitespace: &Vec<char>)
        ensures
            whitespace@ == self@,
            crate::format::is_whitespace(self@),
    {
        proof {
            use_type_invariant(self);
        }
        &self.closing_whitespace
    }

    /// The query that the URL of a snapshot follows from, if there is one.
    pub fn url_query(&self) -> (query: Option<&str>)
        ensures
            match query {
                Some(query) => self.query() == Some(query@),
                None => self.query() is None,
            },
    {
        match &self.url_query {
            Some(query) => Some(query.as_str()),
            None => None,
        }
    }
}

/// A context can be made with closing whitespace of spaces, tabs, carriage returns and line feeds, and with no
/// other, and infers no URLs at first.
pub proof fn law_contexts_need_whitespace(
    closing_whitespace: &[char],
    context: Result<Context, InvalidClosingWhitespace>,
)
    requires
        call_ensures(Context::from_static, (closing_whitespace,), context),
    ensures
        context is Ok <==> forall|i: int|
            0 <= i < closing_whitespace@.len() ==> ({
                let c = #[trigger] closing_whitespace@[i];
                c == ' ' || c == '\t' || c == '\r' || c == '\n'
            }),
        context matches Ok(context) ==> context@ == closing_whitespace@ && context.query() is None,
{
    let chars = closing_whitespace@;
    if crate::format::is_whitespace(chars) {
        assert forall|i: int| 0 <= i < chars.len() implies ({
            let c = #[trigger] chars[i];
            c == ' ' || c == '\t' || c == '\r' || c == '\n'
        }) by {
            assert(crate::format::is_json_whitespace(chars[i]));
        }
    } else {
        let i = choose|i: int|
            0 <= i < chars.len() && !crate::format::is_json_whitespace(#[trigger] chars[i]);
        let c = chars[i];
        assert(!(c == ' ' || c == '\t' || c == '\r' || c == '\n'));
    }
}

} // verus!
