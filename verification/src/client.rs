//! Querying a CDX server.
//!
//! A [`Request`] models the four query controls that are supported. [`Client`] turns requests into
//! CDX server URLs, and [`QueryDriver`] decides which URL to fetch next, following resumption keys
//! where that is asked for.
use vstd::prelude::*;

use crate::integer;
use crate::integer::{push_signed, read_integer};
use crate::lines;
use crate::lines::split_lines;
use crate::pairs;
use crate::surt;
use crate::surt::parse_url;
use crate::table::TextTable;
use crate::tabular;
use crate::tabular::parse_trimmed_rows;
use crate::text;
use crate::text::{same_str, string_of};
use crate::validation::utf8_text;

verus! {

/// The public Internet Archive CDX server endpoint.
pub const DEFAULT_ENDPOINT: &'static str = "https://web.archive.org/cdx/search/cdx";

/// The scope used to match a requested URL.
#[derive(Clone, Copy, Debug, PartialEq, Eq, Structural)]
pub enum MatchType {
    /// Return captures of exactly the requested URL.
    Exact,
    /// Return captures whose URLs begin with the requested URL.
    Prefix,
    /// Return captures from the requested host.
    Host,
    /// Return captures from the requested host and its subdomains.
    Domain,
}

/// A value is not one of the match scopes supported by the CDX server.
#[derive(Debug, PartialEq, Eq)]
pub struct InvalidMatchType(pub String);

/// The name of a match scope.
pub open spec fn match_name(match_type: MatchType) -> Seq<char> {
    match match_type {
        MatchType::Exact => "exact"@,
        MatchType::Prefix => "prefix"@,
        MatchType::Host => "host"@,
        MatchType::Domain => "domain"@,
    }
}

/// Whether a text is the name of a match scope.
pub open spec fn is_match_name(name: Seq<char>) -> bool {
    exists|match_type: MatchType| #[trigger] match_name(match_type) == name
}

/// No two match scopes have the same name.
pub proof fn law_match_names_differ(a: MatchType, b: MatchType)
    requires
        match_name(a) == match_name(b),
    ensures
        a == b,
{
    reveal_strlit("exact");
    reveal_strlit("prefix");
    reveal_strlit("host");
    reveal_strlit("domain");
    assert("exact"@[0] == 'e' && "prefix"@[0] == 'p' && "host"@[0] == 'h' && "domain"@[0] == 'd');
}

impl MatchType {
    /// The value accepted by the CDX server's `matchType` parameter.
    pub fn as_str(self) -> (name: &'static str)
        ensures
            name@ == match_name(self),
    {
        match self {
            MatchType::Exact => "exact",
            MatchType::Prefix => "prefix",
            MatchType::Host => "host",
            MatchType::Domain => "domain",
        }
    }

    /// The match scope with a name.
    pub fn parse_str(value: &str) -> (parsed: Result<MatchType, InvalidMatchType>)
        ensures
            match parsed {
                Ok(match_type) => match_name(match_type) == value@,
                Err(InvalidMatchType(name)) => !is_match_name(value@) && name@ == value@,
            },
    {
        if same_str(value, "exact") {
            Ok(MatchType::Exact)
        } else if same_str(value, "prefix") {
            Ok(MatchType::Prefix)
        } else if same_str(value, "host") {
            Ok(MatchType::Host)
        } else if same_str(value, "domain") {
            Ok(MatchType::Domain)
        } else {
            Err(InvalidMatchType(value.to_owned()))
        }
    }
}

/// Parameters for one CDX server query.
#[derive(Debug, PartialEq, Eq)]
pub struct Request {
    /// The URL or URL prefix to look up.
    pub url: String,
    /// The scope of URL matches to return.
    pub match_type: MatchType,
    /// Whether the server should use its faster latest-results lookup.
    pub fast_latest: bool,
    /// The maximum number of results. A negative value requests the last N results.
    ///
    /// When absent, the query leaves the limit up to the CDX server.
    pub limit: Option<i64>,
}

/// Parameters for one CDX server query, as texts and numbers.
#[verifier::ext_equal]
pub struct RequestView {
    /// The URL or URL prefix.
    pub url: Seq<char>,
    /// The scope of URL matches.
    pub match_type: MatchType,
    /// Whether the server should use its faster latest-results lookup.
    pub fast_latest: bool,
    /// The maximum number of results.
    pub limit: Option<int>,
}

impl View for Request {
    type V = RequestView;

    open spec fn view(&self) -> RequestView {
        RequestView {
            url: self.url@,
            match_type: self.match_type,
            fast_latest: self.fast_latest,
            limit: match self.limit {
                Some(limit) => Some(limit as int),
                None => None,
            },
        }
    }
}

impl Request {
    /// Construct one CDX server request.
    pub fn new(url: &str, match_type: MatchType, fast_latest: bool, limit: Option<i64>) -> (request:
        Self)
        ensures
            request@ == (RequestView {
                url: url@,
                match_type,
                fast_latest,
                limit: match limit {
                    Some(limit) => Some(limit as int),
                    None => None,
                },
            }),
    {
        Request { url: url.to_owned(), match_type, fast_latest, limit }
    }
}

/// A truth value as a text.
pub open spec fn bool_text(value: bool) -> Seq<char> {
    if value {
        "true"@
    } else {
        "false"@
    }
}

/// The query parameters of a request, in order.
pub open spec fn request_pairs(
    request: RequestView,
    show_resume_key: bool,
    resume_key: Option<Seq<char>>,
) -> Seq<(Seq<char>, Seq<char>)> {
    let controls = seq![
        ("url"@, request.url),
        ("matchType"@, match_name(request.match_type)),
        ("fastLatest"@, bool_text(request.fast_latest)),
    ];
    let limit = match request.limit {
        Some(limit) => seq![("limit"@, integer::signed_text(limit))],
        None => Seq::empty(),
    };
    let shown = if show_resume_key {
        seq![("showResumeKey"@, "true"@), ("gzip"@, "false"@)]
    } else {
        Seq::empty()
    };
    let resumed = match resume_key {
        Some(key) => seq![("resumeKey"@, key)],
        None => Seq::empty(),
    };
    controls + limit + shown + resumed
}

/// Appends a query parameter.
fn push_pair(out: &mut Vec<(String, String)>, key: &str, value: &str)
    ensures
        pairs::pair_views(final(out)@) == pairs::pair_views(old(out)@).push((key@, value@)),
{
    let ghost before = out@;
    out.push((key.to_owned(), value.to_owned()));
    assert(pairs::pair_views(out@) =~= pairs::pair_views(before).push((key@, value@)));
}

/// The query parameters of a request, in order.
fn collect_pairs(request: &Request, show_resume_key: bool, resume_key: Option<&str>) -> (out: Vec<
    (String, String),
>)
    ensures
        pairs::pair_views(out@) == request_pairs(
            request@,
            show_resume_key,
            text::str_view(resume_key),
        ),
{
    let mut out: Vec<(String, String)> = Vec::new();
    push_pair(&mut out, "url", request.url.as_str());
    push_pair(&mut out, "matchType", request.match_type.as_str());
    push_pair(
        &mut out,
        "fastLatest",
        if request.fast_latest {
            "true"
        } else {
            "false"
        },
    );
    if let Some(limit) = request.limit {
        let mut digits: Vec<char> = Vec::new();
        push_signed(&mut digits, limit);
        assert(digits@ =~= integer::signed_text(limit as int));
        let value = string_of(&digits);
        push_pair(&mut out, "limit", value.as_str());
    }
    if show_resume_key {
        push_pair(&mut out, "showResumeKey", "true");
        push_pair(&mut out, "gzip", "false");
    }
    if let Some(key) = resume_key {
        push_pair(&mut out, "resumeKey", key);
    }
    assert(pairs::pair_views(out@) =~= request_pairs(
        request@,
        show_resume_key,
        text::str_view(resume_key),
    ));
    out
}

/// Every query of a request holds its URL, the name of its match scope, whether the faster lookup is asked for
/// and its limit, if it has one, whether or not resumption keys are asked for. These are followed by what asks
/// for resumption keys, which is left out where they are not wanted, and nothing else comes before the
/// resumption key.
pub proof fn law_request_parameters(request: RequestView, show_resume_key: bool)
    requires
        request.limit matches Some(limit) ==> i64::MIN <= limit <= i64::MAX,
    ensures
        ({
            let sent = request_pairs(request, show_resume_key, None);
            let shown: int = if request.limit is Some {
                4
            } else {
                3
            };
            &&& sent[0] == ("url"@, request.url)
            &&& sent[1].0 == "matchType"@
            &&& request.match_type is Exact ==> sent[1].1 == "exact"@
            &&& request.match_type is Prefix ==> sent[1].1 == "prefix"@
            &&& request.match_type is Host ==> sent[1].1 == "host"@
            &&& request.match_type is Domain ==> sent[1].1 == "domain"@
            &&& sent[2].0 == "fastLatest"@
            &&& request.fast_latest ==> sent[2].1 == "true"@
            &&& !request.fast_latest ==> sent[2].1 == "false"@
            &&& request.limit matches Some(limit) ==> sent[3].0 == "limit"@
                && integer::integer_value(sent[3].1) == Some(limit)
            &&& sent.len() == shown + if show_resume_key {
                2int
            } else {
                0
            }
            &&& show_resume_key ==> sent.skip(shown) == seq![
                ("showResumeKey"@, "true"@),
                ("gzip"@, "false"@),
            ]
        }),
{
    if let Some(limit) = request.limit {
        integer::law_integer_reads_back(limit);
    }
    let sent = request_pairs(request, show_resume_key, None);
    let shown: int = if request.limit is Some {
        4
    } else {
        3
    };
    if show_resume_key {
        assert(sent.skip(shown) =~= seq![("showResumeKey"@, "true"@), ("gzip"@, "false"@)]);
    }
}

/// A resumed page is asked for with everything that the first page of the request was asked for with, and then
/// the resumption key.
pub proof fn law_resumed_pages_keep_parameters(
    request: RequestView,
    show_resume_key: bool,
    key: Seq<char>,
)
    ensures
        request_pairs(request, show_resume_key, Some(key)) == request_pairs(
            request,
            show_resume_key,
            None,
        ).push(("resumeKey"@, key)),
{
    assert(request_pairs(request, show_resume_key, Some(key)) =~= request_pairs(
        request,
        show_resume_key,
        None,
    ).push(("resumeKey"@, key)));
}

/// The text of a URL with the given query parameters in place of its query, and no fragment.
pub uninterp spec fn url_with_query(
    endpoint: Seq<char>,
    parameters: Seq<(Seq<char>, Seq<char>)>,
) -> Seq<char>;

/// Whether a text is an HTTP or HTTPS URL.
pub open spec fn is_http_url(endpoint: Seq<char>) -> bool {
    surt::parsed_url(endpoint) matches Ok(url) && (url.scheme == "http"@ || url.scheme == "https"@)
}

/// Whether a text is the URL of an endpoint with the given query parameters in place of its own.
pub open spec fn has_query(
    url: Seq<char>,
    endpoint: Seq<char>,
    parameters: Seq<(Seq<char>, Seq<char>)>,
) -> bool {
    match (surt::parsed_url(url), surt::parsed_url(endpoint)) {
        (Ok(url), Ok(endpoint)) => url == (surt::UrlFields { query_pairs: parameters, ..endpoint }),
        _ => false,
    }
}

/// `Url::query_pairs_mut` and `extend_pairs` on a URL without query and fragment: the text of the URL
/// with query parameters. It reads back as the URL with exactly these parameters.
#[verifier::external_body]
fn with_query(endpoint: &str, parameters: &Vec<(String, String)>) -> (text: String)
    requires
        is_http_url(endpoint@),
    ensures
        text@ == url_with_query(endpoint@, pairs::pair_views(parameters@)),
        has_query(text@, endpoint@, pairs::pair_views(parameters@)),
{
    let mut url = url::Url::parse(endpoint).unwrap();
    url.set_query(None);
    url.set_fragment(None);
    url.query_pairs_mut().extend_pairs(parameters);
    url.to_string()
}

/// A CDX client could not be configured.
#[derive(Debug, PartialEq, Eq)]
pub enum Error {
    /// The configured endpoint is not a URL.
    InvalidEndpoint(url::ParseError),
    /// The configured endpoint is not HTTP or HTTPS.
    UnsupportedEndpointScheme(String),
}

/// A client that queries a CDX server.
#[derive(Debug)]
pub struct Client {
    endpoint: String,
    follow_resumption_keys: bool,
}

impl Client {
    #[verifier::type_invariant]
    spec fn is_well_formed(self) -> bool {
        is_http_url(self.endpoint@)
    }

    /// The endpoint of the client.
    pub closed spec fn target(&self) -> Seq<char> {
        self.endpoint@
    }

    /// Whether the client follows resumption keys.
    pub closed spec fn follows(&self) -> bool {
        self.follow_resumption_keys
    }

    /// Create a client for a specific CDX endpoint, such as a mirror or test server.
    pub fn with_endpoint(endpoint: &str) -> (result: Result<Client, Error>)
        ensures
            match result {
                Ok(client) => {
                    &&& is_http_url(endpoint@)
                    &&& client.target() == endpoint@
                    &&& !client.follows()
                },
                Err(Error::InvalidEndpoint(error)) => surt::parsed_url(endpoint@) == Err::<
                    surt::UrlFields,
                    url::ParseError,
                >(error),
                Err(Error::UnsupportedEndpointScheme(scheme)) => {
                    &&& surt::parsed_url(endpoint@) matches Ok(url) && url.scheme == scheme@
                    &&& !is_http_url(endpoint@)
                },
            },
    {
        match parse_url(endpoint) {
            Ok(url) => if same_str(url.scheme.as_str(), "http") || same_str(
                url.scheme.as_str(),
                "https",
            ) {
                Ok(Client { endpoint: endpoint.to_owned(), follow_resumption_keys: false })
            } else {
                Err(Error::UnsupportedEndpointScheme(url.scheme))
            },
            Err(error) => Err(Error::InvalidEndpoint(error)),
        }
    }

    /// Follow CDX resumption keys until each request has no more results.
    pub fn follow_resumption_keys(self, follow: bool) -> (client: Client)
        ensures
            client.target() == self.target(),
            client.follows() == follow,
    {
        proof {
            use_type_invariant(&self);
        }
        Client { endpoint: self.endpoint, follow_resumption_keys: follow }
    }

    /// Whether this client follows CDX resumption keys.
    pub fn follows_resumption_keys(&self) -> (follows: bool)
        ensures
            follows == self.follows(),
    {
        self.follow_resumption_keys
    }

    /// The CDX endpoint this client queries.
    pub fn endpoint(&self) -> (endpoint: &str)
        ensures
            endpoint@ == self.target(),
    {
        self.endpoint.as_str()
    }

    /// Build the URL for one CDX request. It reads back as the endpoint with the parameters of the
    /// request.
    pub fn query_url(&self, request: &Request) -> (url: String)
        ensures
            url@ == url_with_query(
                self.target(),
                request_pairs(request@, self.follows(), None),
            ),
            has_query(url@, self.target(), request_pairs(request@, self.follows(), None)),
    {
        proof {
            use_type_invariant(self);
        }
        let parameters = collect_pairs(request, self.follow_resumption_keys, None);
        with_query(self.endpoint.as_str(), &parameters)
    }

    /// What decides which URL to fetch next for a series of requests.
    pub fn driver(&self, requests: Vec<Request>) -> (driver: QueryDriver)
        ensures
            driver@ == (DriverView {
                endpoint: self.target(),
                follow: self.follows(),
                pending: request_views(requests@),
                current: None,
            }),
    {
        proof {
            use_type_invariant(self);
        }
        let driver = QueryDriver {
            endpoint: self.endpoint.clone(),
            follow_resumption_keys: self.follow_resumption_keys,
            requests,
            position: 0,
            current: None,
        };
        assert(driver@.pending =~= request_views(requests@));
        driver
    }
}

/// The parameters of requests.
pub open spec fn request_views(requests: Seq<Request>) -> Seq<RequestView> {
    requests.map_values(|request: Request| request@)
}

/// The query that is under way.
#[derive(Debug)]
struct CurrentQuery {
    place: usize,
    next_resume_key: Option<String>,
    via: Option<String>,
    seen_resume_keys: TextTable<()>,
}

/// The query that is under way, as texts.
#[verifier::ext_equal]
pub struct CurrentView {
    /// The request.
    pub request: RequestView,
    /// The resumption key to continue with, and the URL of the capture that it came from.
    pub next: Option<(Seq<char>, Seq<char>)>,
    /// The resumption keys that the server gave.
    pub seen: Set<Seq<char>>,
}

/// How far a series of queries has come.
#[verifier::ext_equal]
pub struct DriverView {
    /// The endpoint.
    pub endpoint: Seq<char>,
    /// Whether resumption keys are followed.
    pub follow: bool,
    /// The requests that were not started.
    pub pending: Seq<RequestView>,
    /// The query that is under way.
    pub current: Option<CurrentView>,
}

/// Decides which URL to fetch next for a series of requests.
#[derive(Debug)]
pub struct QueryDriver {
    endpoint: String,
    follow_resumption_keys: bool,
    requests: Vec<Request>,
    position: usize,
    current: Option<CurrentQuery>,
}

/// A URL to fetch.
#[derive(Debug, PartialEq, Eq)]
pub struct SessionRequest {
    /// The URL.
    pub url: String,
    /// The URL of the capture that a continuation follows from.
    pub via: Option<String>,
}

/// A response does not say how to go on.
#[derive(Debug, PartialEq, Eq)]
pub enum InspectError {
    /// The response is not UTF-8.
    NotUtf8,
    /// The server repeated a resumption key.
    RepeatedKey(String),
}

impl View for QueryDriver {
    type V = DriverView;

    closed spec fn view(&self) -> DriverView {
        DriverView {
            endpoint: self.endpoint@,
            follow: self.follow_resumption_keys,
            pending: request_views(self.requests@.skip(self.position as int)),
            current: match self.current {
                Some(current) => Some(
                    CurrentView {
                        request: self.requests@[current.place as int]@,
                        next: match (current.next_resume_key, current.via) {
                            (Some(key), Some(via)) => Some((key@, via@)),
                            _ => None,
                        },
                        seen: current.seen_resume_keys@.dom(),
                    },
                ),
                None => None,
            },
        }
    }
}

impl DriverView {
    /// What is fetched next, and how far the series is then. A query that is under way and has a
    /// resumption key goes on before the next request is started.
    pub open spec fn next(self) -> (Option<(Seq<char>, Option<Seq<char>>)>, DriverView) {
        if self.current matches Some(current) && current.next is Some {
            let current = self.current.unwrap();
            let (key, via) = current.next.unwrap();
            (
                Some(
                    (
                        url_with_query(
                            self.endpoint,
                            request_pairs(current.request, true, Some(key)),
                        ),
                        Some(via),
                    ),
                ),
                DriverView { current: Some(CurrentView { next: None, ..current }), ..self },
            )
        } else if self.pending.len() > 0 {
            (
                Some(
                    (
                        url_with_query(
                            self.endpoint,
                            request_pairs(self.pending[0], self.follow, None),
                        ),
                        None,
                    ),
                ),
                DriverView {
                    pending: self.pending.drop_first(),
                    current: Some(
                        CurrentView { request: self.pending[0], next: None, seen: Set::empty() },
                    ),
                    ..self
                },
            )
        } else {
            (None, self)
        }
    }

    /// The query parameters of what is fetched next.
    pub open spec fn parameters(self) -> Seq<(Seq<char>, Seq<char>)> {
        if self.current matches Some(current) && current.next is Some {
            let current = self.current.unwrap();
            request_pairs(current.request, true, Some(current.next.unwrap().0))
        } else {
            request_pairs(self.pending[0], self.follow, None)
        }
    }

    /// How far the series is after a response to the last URL, given the resumption key of the response,
    /// if it has one, and the URL that it was fetched from in the end.
    pub open spec fn inspected(self, key: Option<Seq<char>>, final_url: Seq<char>) -> DriverView {
        match (self.current, key) {
            (Some(current), Some(key)) => if self.follow && !current.seen.contains(key) {
                DriverView {
                    current: Some(
                        CurrentView {
                            next: Some((key, final_url)),
                            seen: current.seen.insert(key),
                            ..current
                        },
                    ),
                    ..self
                }
            } else {
                DriverView { current: None, ..self }
            },
            _ => DriverView { current: None, ..self },
        }
    }

    /// What is fetched, each with the URL of the capture that it follows from, while responses with these
    /// resumption keys and final URLs come back, and how far the series is then.
    pub open spec fn session(self, responses: Seq<(Option<Seq<char>>, Seq<char>)>) -> (
        Seq<(Seq<char>, Option<Seq<char>>)>,
        DriverView,
    )
        decreases responses.len(),
    {
        if responses.len() == 0 {
            (Seq::empty(), self)
        } else {
            match self.next() {
                (Some(request), next) => {
                    let (rest, end) = next.inspected(responses[0].0, responses[0].1).session(
                        responses.drop_first(),
                    );
                    (seq![request] + rest, end)
                },
                (None, _) => (Seq::empty(), self),
            }
        }
    }

    /// What is fetched for a page of a request.
    pub open spec fn page(self, request: RequestView, key: Option<Seq<char>>, via: Option<Seq<char>>) -> (
        Seq<char>,
        Option<Seq<char>>,
    ) {
        (url_with_query(self.endpoint, request_pairs(request, self.follow, key)), via)
    }
}

/// Whether responses have distinct resumption keys, none of them seen before, but for the last, which has
/// none.
pub open spec fn are_pages(
    responses: Seq<(Option<Seq<char>>, Seq<char>)>,
    seen: Set<Seq<char>>,
) -> bool {
    &&& responses.len() > 0
    &&& responses.last().0 is None
    &&& forall|i: int|
        0 <= i < responses.len() - 1 ==> ((#[trigger] responses[i]).0 matches Some(key)
            && !seen.contains(key))
    &&& forall|i: int, j: int|
        0 <= i < j < responses.len() - 1 ==> (#[trigger] responses[i]).0 != (
        #[trigger] responses[j]).0
}

proof fn lemma_pages_are_followed(
    driver: DriverView,
    responses: Seq<(Option<Seq<char>>, Seq<char>)>,
)
    requires
        driver.follow,
        driver.current matches Some(current) && current.next is Some && are_pages(
            responses,
            current.seen,
        ),
    ensures
        ({
            let current = driver.current.unwrap();
            let (key, via) = current.next.unwrap();
            let (fetched, end) = driver.session(responses);
            &&& fetched.len() == responses.len()
            &&& fetched[0] == driver.page(current.request, Some(key), Some(via))
            &&& forall|i: int|
                0 < i < responses.len() ==> #[trigger] fetched[i] == driver.page(
                    current.request,
                    responses[i - 1].0,
                    Some(responses[i - 1].1),
                )
            &&& end == (DriverView { current: None, ..driver })
        }),
    decreases responses.len(),
{
    let current = driver.current.unwrap();
    let next = driver.next().1.inspected(responses[0].0, responses[0].1);
    let rest = responses.drop_first();
    if responses.len() == 1 {
        assert(next.session(rest).0 =~= Seq::empty());
    } else {
        let seen = current.seen.insert(responses[0].0.unwrap());
        assert(rest.last() == responses.last());
        assert forall|i: int| 0 <= i < rest.len() - 1 implies (#[trigger] rest[i]).0 matches Some(
            key,
        ) && !seen.contains(key) by {
            assert(rest[i] == responses[i + 1]);
            assert(responses[0].0 != responses[i + 1].0);
        }
        assert forall|i: int, j: int| 0 <= i < j < rest.len() - 1 implies (#[trigger] rest[i]).0 != (
        #[trigger] rest[j]).0 by {
            assert(responses[i + 1].0 != responses[j + 1].0);
        }
        lemma_pages_are_followed(next, rest);
        let (fetched, end) = driver.session(responses);
        let (later, _) = next.session(rest);
        assert forall|i: int| 0 < i < responses.len() implies #[trigger] fetched[i] == driver.page(
            current.request,
            responses[i - 1].0,
            Some(responses[i - 1].1),
        ) by {
            assert(fetched[i] == later[i - 1]);
            if i > 1 {
                assert(rest[i - 2] == responses[i - 1]);
            }
        }
    }
}

/// Where resumption keys are followed, a request is continued until a response has none: the request is
/// fetched first, then each page whose key the response before it had, and the next request is up then. The
/// server has to give each key once.
pub proof fn law_keys_are_followed_to_the_end(
    driver: DriverView,
    responses: Seq<(Option<Seq<char>>, Seq<char>)>,
)
    requires
        driver.follow,
        driver.current is None,
        driver.pending.len() > 0,
        are_pages(responses, Set::empty()),
    ensures
        ({
            let (fetched, end) = driver.session(responses);
            &&& fetched.len() == responses.len()
            &&& fetched[0] == driver.page(driver.pending[0], None, None)
            &&& forall|i: int|
                0 < i < responses.len() ==> #[trigger] fetched[i] == driver.page(
                    driver.pending[0],
                    responses[i - 1].0,
                    Some(responses[i - 1].1),
                )
            &&& end == (DriverView { pending: driver.pending.drop_first(), ..driver })
        }),
{
    let next = driver.next().1.inspected(responses[0].0, responses[0].1);
    let rest = responses.drop_first();
    if responses.len() == 1 {
        assert(next.session(rest).0 =~= Seq::empty());
    } else {
        let seen = Set::<Seq<char>>::empty().insert(responses[0].0.unwrap());
        assert(rest.last() == responses.last());
        assert forall|i: int| 0 <= i < rest.len() - 1 implies (#[trigger] rest[i]).0 matches Some(
            key,
        ) && !seen.contains(key) by {
            assert(rest[i] == responses[i + 1]);
            assert(responses[0].0 != responses[i + 1].0);
        }
        assert forall|i: int, j: int| 0 <= i < j < rest.len() - 1 implies (#[trigger] rest[i]).0 != (
        #[trigger] rest[j]).0 by {
            assert(responses[i + 1].0 != responses[j + 1].0);
        }
        lemma_pages_are_followed(next, rest);
        let (fetched, _) = driver.session(responses);
        let (later, _) = next.session(rest);
        assert forall|i: int| 0 < i < responses.len() implies #[trigger] fetched[i] == driver.page(
            driver.pending[0],
            responses[i - 1].0,
            Some(responses[i - 1].1),
        ) by {
            assert(fetched[i] == later[i - 1]);
            if i > 1 {
                assert(rest[i - 2] == responses[i - 1]);
            }
        }
    }
}

/// Where resumption keys are not followed, each request is fetched once, in the given order, whatever the
/// responses are.
pub proof fn law_each_request_is_fetched_once(
    driver: DriverView,
    responses: Seq<(Option<Seq<char>>, Seq<char>)>,
)
    requires
        !driver.follow,
        driver.current is None,
        responses.len() == driver.pending.len(),
    ensures
        ({
            let (fetched, end) = driver.session(responses);
            &&& fetched.len() == driver.pending.len()
            &&& forall|i: int|
                0 <= i < driver.pending.len() ==> #[trigger] fetched[i] == driver.page(
                    driver.pending[i],
                    None,
                    None,
                )
            &&& end.next().0 is None
        }),
    decreases responses.len(),
{
    if responses.len() > 0 {
        let next = driver.next().1.inspected(responses[0].0, responses[0].1);
        let rest = responses.drop_first();
        law_each_request_is_fetched_once(next, rest);
        let (fetched, _) = driver.session(responses);
        let (later, _) = next.session(rest);
        assert forall|i: int| 0 <= i < driver.pending.len() implies #[trigger] fetched[i]
            == driver.page(driver.pending[i], None, None) by {
            if i > 0 {
                assert(fetched[i] == later[i - 1]);
                assert(driver.pending.drop_first()[i - 1] == driver.pending[i]);
            }
        }
    }
}

/// The first key of a form-encoded text, decoded, or `None` if it has none.
pub uninterp spec fn form_first_key(text: Seq<char>) -> Option<Seq<char>>;

/// `form_urlencoded::parse` of the `url` crate and the key of the first pair that it gives.
#[verifier::external_body]
fn first_key(text: &str) -> (key: Option<String>)
    ensures
        match key {
            Some(key) => form_first_key(text@) == Some(key@),
            None => form_first_key(text@) is None,
        },
{
    url::form_urlencoded::parse(text.as_bytes()).next().map(|(key, _)| key.into_owned())
}

/// The encoded resumption key of a response: its last line, if that is not empty and follows an empty
/// line.
pub open spec fn encoded_key(response: Seq<Seq<char>>) -> Option<Seq<char>> {
    let n = response.len();
    if n >= 2 && response[n - 1].len() > 0 && response[n - 2].len() == 0 {
        Some(response[n - 1])
    } else {
        None
    }
}

/// The resumption key of a response, if it has one.
pub open spec fn resume_key_of(response: Seq<char>) -> Option<Seq<char>> {
    match encoded_key(lines::lines(response)) {
        Some(key) => Some(
            match form_first_key(key) {
                Some(key) => key,
                None => Seq::empty(),
            },
        ),
        None => None,
    }
}

/// The resumption key of a response stands on its last line, behind an empty line: whatever comes before them,
/// it is found there, and a response without an empty line, or with one at its end, has none.
pub proof fn law_key_follows_an_empty_line(page: Seq<Seq<char>>, key: Seq<char>)
    ensures
        key.len() > 0 ==> encoded_key(page.push(Seq::empty()).push(key)) == Some(key),
        (forall|i: int| 0 <= i < page.len() ==> (#[trigger] page[i]).len() > 0) ==> encoded_key(
            page,
        ) is None,
        encoded_key(page.push(Seq::empty())) is None,
{
}

/// Where resumption keys are followed, a key that the server gave for the query before ends the query, and so
/// does a response without one. A key that is new is what the query goes on with.
pub proof fn law_repeated_key_ends_the_query(
    driver: DriverView,
    key: Seq<char>,
    final_url: Seq<char>,
)
    requires
        driver.current is Some,
    ensures
        ({
            let seen = driver.current.unwrap().seen.contains(key);
            let after = driver.inspected(Some(key), final_url);
            &&& driver.follow && !seen ==> after.next().0 == Some(
                (
                    url_with_query(
                        driver.endpoint,
                        request_pairs(driver.current.unwrap().request, true, None).push(
                            ("resumeKey"@, key),
                        ),
                    ),
                    Some(final_url),
                ),
            )
            &&& driver.follow && !seen ==> after.current.unwrap().seen.contains(key)
            &&& driver.follow && !seen ==> forall|other: Seq<char>|
                driver.current.unwrap().seen.contains(other)
                    ==> after.current.unwrap().seen.contains(other)
            &&& !driver.follow || seen ==> after.current is None
            &&& driver.inspected(None, final_url).current is None
            &&& after.pending == driver.pending
            &&& after.endpoint == driver.endpoint
            &&& after.follow == driver.follow
        }),
{
    law_resumed_pages_keep_parameters(driver.current.unwrap().request, true, key);
}

/// The encoded resumption key among the lines of a response.
pub fn find_encoded_key(response: &Vec<String>) -> (key: Option<&str>)
    ensures
        text::str_view(key) == encoded_key(lines::string_views(response@)),
{
    let n: usize = response.len();
    let ghost views = lines::string_views(response@);
    if n >= 2 {
        assert(views[n - 1] == response@[n - 1]@);
        assert(views[n - 2] == response@[n - 2]@);
        if !response[n - 1].as_str().is_empty() && response[n - 2].as_str().is_empty() {
            return Some(response[n - 1].as_str());
        }
    }
    None
}

/// The resumption key of a response, if it has one. A response that is not UTF-8 is an error.
pub fn resume_key(payload: &[u8]) -> (result: Result<Option<String>, InspectError>)
    ensures
        match result {
            Ok(key) => vstd::utf8::valid_utf8(payload@) && match key {
                Some(key) => resume_key_of(vstd::utf8::decode_utf8(payload@)) == Some(key@),
                None => resume_key_of(vstd::utf8::decode_utf8(payload@)) is None,
            },
            Err(error) => !vstd::utf8::valid_utf8(payload@) && error is NotUtf8,
        },
{
    let response = match utf8_text(payload) {
        Some(response) => response,
        None => return Err(InspectError::NotUtf8),
    };
    proof {
        vstd::utf8::encode_utf8_decode_utf8(response@);
        vstd::utf8::encode_utf8_valid_utf8(response@);
    }
    let all = split_lines(response.as_str());
    match find_encoded_key(&all) {
        Some(key) => match first_key(key) {
            Some(key) => Ok(Some(key)),
            None => {
                let empty = String::new();
                assert(empty@ =~= Seq::empty());
                Ok(Some(empty))
            },
        },
        None => Ok(None),
    }
}

impl QueryDriver {
    #[verifier::type_invariant]
    spec fn is_well_formed(self) -> bool {
        &&& is_http_url(self.endpoint@)
        &&& self.position <= self.requests@.len()
        &&& self.current matches Some(current) ==> {
            &&& current.place < self.requests@.len()
            &&& current.next_resume_key is Some <==> current.via is Some
        }
    }

    /// The next URL to fetch, or `None` if every query is done.
    pub fn next(&mut self) -> (request: Option<SessionRequest>)
        ensures
            final(self)@ == old(self)@.next().1,
            match request {
                Some(request) => old(self)@.next().0 == Some(
                    (
                        request.url@,
                        match request.via {
                            Some(via) => Some(via@),
                            None => None,
                        },
                    ),
                ),
                None => old(self)@.next().0 is None,
            },
            request matches Some(request) ==> has_query(
                request.url@,
                old(self)@.endpoint,
                old(self)@.parameters(),
            ),
    {
        proof {
            use_type_invariant(&*self);
        }
        let ghost before = self@;
        if let Some(current) = &self.current {
            if let (Some(key), Some(via)) = (&current.next_resume_key, &current.via) {
                let parameters = collect_pairs(
                    &self.requests[current.place],
                    true,
                    Some(key.as_str()),
                );
                let url = with_query(self.endpoint.as_str(), &parameters);
                let via: String = via.clone();
                self.continue_current();
                assert(self@ =~= before.next().1);
                return Some(SessionRequest { url, via: Some(via) });
            }
        }
        if self.position >= self.requests.len() {
            assert(before.pending =~= Seq::empty());
            return None;
        }
        let place: usize = self.position;
        let parameters = collect_pairs(&self.requests[place], self.follow_resumption_keys, None);
        let url = with_query(self.endpoint.as_str(), &parameters);
        let seen_resume_keys: TextTable<()> = TextTable::new();
        assert(seen_resume_keys@.dom() =~= Set::empty());
        self.position = place + 1;
        self.current = Some(
            CurrentQuery { place, next_resume_key: None, via: None, seen_resume_keys },
        );
        proof {
            assert(before.pending[0] == self.requests@[place as int]@);
            assert(self@.pending =~= before.pending.drop_first());
            assert(self@ =~= before.next().1);
        }
        Some(SessionRequest { url, via: None })
    }

    /// Takes the resumption key of the query that is under way.
    fn continue_current(&mut self)
        ensures
            final(self)@ == (DriverView {
                current: match old(self)@.current {
                    Some(current) => Some(CurrentView { next: None, ..current }),
                    None => None,
                },
                ..old(self)@
            }),
    {
        proof {
            use_type_invariant(&*self);
        }
        let mut current: Option<CurrentQuery> = None;
        std::mem::swap(&mut current, &mut self.current);
        if let Some(current) = current {
            self.current = Some(
                CurrentQuery {
                    place: current.place,
                    next_resume_key: None,
                    via: None,
                    seen_resume_keys: current.seen_resume_keys,
                },
            );
        }
    }

    /// Takes note of a response to the last URL, which was fetched from `final_url` in the end.
    ///
    /// A query goes on if resumption keys are followed and the response has one that the server did
    /// not give before. In every other case the query is done.
    pub fn inspect(&mut self, payload: &[u8], final_url: &str) -> (result: Result<(), InspectError>)
        requires
            old(self)@.current is Some,
        ensures
            ({
                let seen = old(self)@.current.unwrap().seen;
                let key = if vstd::utf8::valid_utf8(payload@) {
                    resume_key_of(vstd::utf8::decode_utf8(payload@))
                } else {
                    None
                };
                &&& final(self)@ == old(self)@.inspected(key, final_url@)
                &&& match result {
                    Ok(_) => old(self)@.follow ==> {
                        &&& vstd::utf8::valid_utf8(payload@)
                        &&& key matches Some(key) ==> !seen.contains(key)
                    },
                    Err(InspectError::NotUtf8) => {
                        &&& old(self)@.follow
                        &&& !vstd::utf8::valid_utf8(payload@)
                    },
                    Err(InspectError::RepeatedKey(repeated)) => {
                        &&& old(self)@.follow
                        &&& key == Some(repeated@)
                        &&& seen.contains(repeated@)
                    },
                }
            }),
    {
        proof {
            use_type_invariant(&*self);
        }
        let ghost before = self@;
        let mut current: Option<CurrentQuery> = None;
        std::mem::swap(&mut current, &mut self.current);
        assert(self@ =~= DriverView { current: None, ..before });
        if !self.follow_resumption_keys {
            return Ok(());
        }
        let key: String = match resume_key(payload) {
            Ok(Some(key)) => key,
            Ok(None) => return Ok(()),
            Err(error) => return Err(error),
        };
        if let Some(current) = current {
            if current.seen_resume_keys.contains_key(key.as_str()) {
                return Err(InspectError::RepeatedKey(key));
            }
            let mut seen_resume_keys = current.seen_resume_keys;
            seen_resume_keys.insert(key.as_str(), ());
            assert(seen_resume_keys@.dom() =~= before.current.unwrap().seen.insert(key@));
            self.current = Some(
                CurrentQuery {
                    place: current.place,
                    next_resume_key: Some(key),
                    via: Some(final_url.to_owned()),
                    seen_resume_keys,
                },
            );
        }
        Ok(())
    }

    /// Takes note that the last URL could not be fetched.
    pub fn failed(&mut self)
        ensures
            final(self)@ == (DriverView { current: None, ..old(self)@ }),
    {
        proof {
            use_type_invariant(&*self);
        }
        self.current = None;
    }
}

/// A row of comma-separated values is not a request.
#[derive(Clone, Copy, Debug, PartialEq, Eq, Structural)]
pub struct InvalidRequests;

/// The request that a row stands for: the URL, the match scope, whether to use the faster
/// latest-results lookup, and optionally the limit.
pub open spec fn request_row(row: Seq<Seq<char>>) -> Option<RequestView> {
    let has_limit = row.len() >= 4 && row[3].len() > 0;
    if row.len() < 3 || !is_match_name(row[1]) || (row[2] != "true"@ && row[2] != "false"@) || (
    has_limit && integer::integer_value(row[3]) is None) {
        None
    } else {
        Some(
            RequestView {
                url: row[0],
                match_type: choose|match_type: MatchType| match_name(match_type) == row[1],
                fast_latest: row[2] == "true"@,
                limit: if has_limit {
                    integer::integer_value(row[3])
                } else {
                    None
                },
            },
        )
    }
}

/// A row reads as the request that it writes out: a URL, the name of a match scope, a truth value, and a limit,
/// which may be left out or empty.
pub proof fn law_rows_read_as_requests(
    url: Seq<char>,
    match_type: MatchType,
    fast_latest: bool,
    limit: int,
)
    requires
        i64::MIN <= limit <= i64::MAX,
    ensures
        ({
            let name = match match_type {
                MatchType::Exact => "exact"@,
                MatchType::Prefix => "prefix"@,
                MatchType::Host => "host"@,
                MatchType::Domain => "domain"@,
            };
            let fast = if fast_latest {
                "true"@
            } else {
                "false"@
            };
            let bare = RequestView { url, match_type, fast_latest, limit: None };
            &&& request_row(seq![url, name, fast]) == Some(bare)
            &&& request_row(seq![url, name, fast, Seq::empty()]) == Some(bare)
            &&& request_row(seq![url, name, fast, integer::signed_text(limit)]) == Some(
                RequestView { limit: Some(limit), ..bare },
            )
        }),
{
    integer::law_integer_reads_back(limit);
    assert(integer::signed_text(limit).len() > 0) by {
        crate::decimal::lemma_width(
            if limit < 0 {
                (-limit) as nat
            } else {
                limit as nat
            },
        );
    }
    let name = match_name(match_type);
    let fast = bool_text(fast_latest);
    lemma_request_row(seq![url, name, fast], match_type, fast_latest);
    lemma_request_row(seq![url, name, fast, Seq::empty()], match_type, fast_latest);
    lemma_request_row(seq![url, name, fast, integer::signed_text(limit)], match_type, fast_latest);
}

/// What a row with a match scope and a truth value reads as.
proof fn lemma_request_row(row: Seq<Seq<char>>, match_type: MatchType, fast_latest: bool)
    requires
        row.len() >= 3,
        row[1] == match_name(match_type),
        row[2] == bool_text(fast_latest),
        row.len() > 3 && row[3].len() > 0 ==> integer::integer_value(row[3]) is Some,
    ensures
        request_row(row) == Some(
            RequestView {
                url: row[0],
                match_type,
                fast_latest,
                limit: if row.len() > 3 && row[3].len() > 0 {
                    integer::integer_value(row[3])
                } else {
                    None
                },
            },
        ),
{
    let chosen = choose|other: MatchType| match_name(other) == row[1];
    assert(match_name(match_type) == row[1]);
    law_match_names_differ(match_type, chosen);
    reveal_strlit("true");
    reveal_strlit("false");
    assert("true"@.len() != "false"@.len());
}

/// A row is no request exactly if it has fewer than three fields, its second is not the name of a match scope,
/// its third is not a truth value, or its fourth is neither empty nor an integer.
pub proof fn law_which_rows_are_requests(row: Seq<Seq<char>>)
    ensures
        request_row(row) is None <==> {
            ||| row.len() < 3
            ||| row[1] != "exact"@ && row[1] != "prefix"@ && row[1] != "host"@ && row[1] != "domain"@
            ||| row[2] != "true"@ && row[2] != "false"@
            ||| row.len() > 3 && row[3].len() > 0 && integer::integer_value(row[3]) is None
        },
        request_row(row) matches Some(request) ==> request.url == row[0],
{
    assert(match_name(MatchType::Exact) == "exact"@);
    assert(match_name(MatchType::Prefix) == "prefix"@);
    assert(match_name(MatchType::Host) == "host"@);
    assert(match_name(MatchType::Domain) == "domain"@);
}

/// Reads one request.
fn read_request(row: &Vec<String>) -> (result: Result<Request, InvalidRequests>)
    ensures
        match result {
            Ok(request) => request_row(lines::string_views(row@)) == Some(request@),
            Err(_) => request_row(lines::string_views(row@)) is None,
        },
{
    let ghost view = lines::string_views(row@);
    if row.len() < 3 {
        return Err(InvalidRequests);
    }
    assert(view[0] == row@[0]@ && view[1] == row@[1]@ && view[2] == row@[2]@);
    let match_type = match MatchType::parse_str(row[1].as_str()) {
        Ok(match_type) => match_type,
        Err(_) => return Err(InvalidRequests),
    };
    proof {
        let chosen = choose|match_type: MatchType| match_name(match_type) == view[1];
        assert(match_name(match_type) == view[1]);
        law_match_names_differ(match_type, chosen);
    }
    let fast_latest: bool = if same_str(row[2].as_str(), "true") {
        true
    } else if same_str(row[2].as_str(), "false") {
        false
    } else {
        return Err(InvalidRequests);
    };
    proof {
        reveal_strlit("true");
        reveal_strlit("false");
    }
    let mut limit: Option<i64> = None;
    if row.len() >= 4 {
        assert(view[3] == row@[3]@);
        if !row[3].as_str().is_empty() {
            limit = match read_integer(row[3].as_str()) {
                Some(limit) => Some(limit),
                None => return Err(InvalidRequests),
            };
        }
    }
    let request = Request { url: row[0].clone(), match_type, fast_latest, limit };
    assert(request@ =~= request_row(view).unwrap());
    Ok(request)
}

/// Whether every row is a request.
pub open spec fn are_requests(rows: Seq<Seq<Seq<char>>>) -> bool {
    forall|i: int| 0 <= i < rows.len() ==> request_row(#[trigger] rows[i]) is Some
}

/// The requests that rows stand for.
pub open spec fn requests_of(rows: Seq<Seq<Seq<char>>>) -> Seq<RequestView> {
    rows.map_values(|row: Seq<Seq<char>>| request_row(row).unwrap())
}

/// Reads the requests that rows stand for.
pub fn collect_requests(rows: &Vec<Vec<String>>) -> (result: Result<Vec<Request>, InvalidRequests>)
    ensures
        match result {
            Ok(requests) => {
                &&& are_requests(tabular::row_views(rows@))
                &&& request_views(requests@) == requests_of(tabular::row_views(rows@))
            },
            Err(_) => !are_requests(tabular::row_views(rows@)),
        },
{
    let ghost views = tabular::row_views(rows@);
    let ghost expected = requests_of(views);
    let mut requests: Vec<Request> = Vec::new();
    let mut i: usize = 0;
    assert(request_views(requests@) =~= expected.take(0));
    while i < rows.len()
        invariant
            i <= rows@.len(),
            views == tabular::row_views(rows@),
            expected == requests_of(views),
            forall|k: int| 0 <= k < i ==> request_row(#[trigger] views[k]) is Some,
            request_views(requests@) == expected.take(i as int),
        decreases rows@.len() - i,
    {
        assert(views[i as int] == lines::string_views(rows@[i as int]@));
        let request = match read_request(&rows[i]) {
            Ok(request) => request,
            Err(error) => return Err(error),
        };
        let ghost before = requests@;
        let ghost added = request;
        requests.push(request);
        proof {
            assert(request_views(requests@) =~= request_views(before).push(added@));
            assert(expected.take(i + 1) =~= expected.take(i as int).push(added@));
        }
        i = i + 1;
    }
    assert(expected.take(rows@.len() as int) =~= expected);
    Ok(requests)
}

/// Reads comma-separated values with `url`, `matchType`, `fastLatest`, and optional `limit`, in that
/// order.
pub fn read_requests(text: &str) -> (result: Result<Vec<Request>, InvalidRequests>)
    ensures
        match result {
            Ok(requests) => tabular::csv_trimmed_rows(text@) matches Some(rows) && are_requests(rows)
                && request_views(requests@) == requests_of(rows),
            Err(_) => tabular::csv_trimmed_rows(text@) matches Some(rows) ==> !are_requests(rows),
        },
{
    match parse_trimmed_rows(text) {
        Some(rows) => collect_requests(&rows),
        None => Err(InvalidRequests),
    }
}

/// A client can be made for every URL of the `http` or `https` scheme and for no other, and does not follow
/// resumption keys at first.
pub proof fn law_clients_need_http(endpoint: &str, result: Result<Client, Error>)
    requires
        call_ensures(Client::with_endpoint, (endpoint,), result),
    ensures
        result is Ok <==> (surt::parsed_url(endpoint@) matches Ok(url) && (url.scheme == "http"@
            || url.scheme == "https"@)),
        result matches Ok(client) ==> client.target() == endpoint@ && !client.follows(),
        result matches Err(error) ==> {
            &&& error is InvalidEndpoint <==> surt::parsed_url(endpoint@) is Err
            &&& error matches Error::UnsupportedEndpointScheme(scheme)
                ==> surt::parsed_url(endpoint@)->Ok_0.scheme == scheme@
        },
{
}

/// The resumption key of a response is the one on its last line, decoded, if that follows an empty line.
pub proof fn law_resumption_keys_are_decoded(response: Seq<char>)
    ensures
        ({
            let all = lines::lines(response);
            let n = all.len() as int;
            let has_key = n >= 2 && all[n - 1].len() > 0 && all[n - 2].len() == 0;
            &&& resume_key_of(response) is Some <==> has_key
            &&& has_key ==> (form_first_key(all[n - 1]) matches Some(key) ==> resume_key_of(response)
                == Some(key))
            &&& has_key && form_first_key(all[n - 1]) is None ==> resume_key_of(response) == Some(
                Seq::<char>::empty(),
            )
        }),
{
}

/// The query of a request is sent to the endpoint with its own parameters, and asks for resumption keys exactly
/// if they are followed.
pub proof fn law_queries_are_sent_whole(client: &Client, request: &Request, url: String)
    requires
        call_ensures(Client::query_url, (client, request), url),
    ensures
        ({
            let sent = surt::parsed_url(url@);
            let endpoint = surt::parsed_url(client.target());
            let pairs = sent->Ok_0.query_pairs;
            let n = pairs.len() as int;
            &&& sent is Ok
            &&& endpoint is Ok
            &&& sent->Ok_0.scheme == endpoint->Ok_0.scheme
            &&& sent->Ok_0.domain == endpoint->Ok_0.domain
            &&& sent->Ok_0.port == endpoint->Ok_0.port
            &&& sent->Ok_0.path == endpoint->Ok_0.path
            &&& pairs[0] == ("url"@, request.url@)
            &&& pairs[1].0 == "matchType"@
            &&& pairs[1].1 == match request.match_type {
                MatchType::Exact => "exact"@,
                MatchType::Prefix => "prefix"@,
                MatchType::Host => "host"@,
                MatchType::Domain => "domain"@,
            }
            &&& pairs[2] == (
                "fastLatest"@,
                if request.fast_latest {
                    "true"@
                } else {
                    "false"@
                },
            )
            &&& request.limit matches Some(limit) ==> pairs[3].0 == "limit"@ && integer::integer_value(
                pairs[3].1,
            ) == Some(limit as int)
            &&& n == 3 + (if request.limit is Some {
                1int
            } else {
                0
            }) + if client.follows() {
                2int
            } else {
                0
            }
            &&& client.follows() ==> pairs[n - 2] == ("showResumeKey"@, "true"@) && pairs[n - 1] == (
                "gzip"@,
                "false"@,
            )
        }),
{
    if let Some(limit) = request.limit {
        integer::law_integer_reads_back(limit as int);
    }
}

/// A request is seen by its URL, its match scope, its lookup and its limit, as they were given.
pub proof fn law_requests_are_seen_whole(request: Request)
    ensures
        request@.url == request.url@,
        request@.match_type == request.match_type,
        request@.fast_latest == request.fast_latest,
        request.limit matches Some(limit) ==> request@.limit == Some(limit as int),
        request.limit is None ==> request@.limit is None,
{
}

/// Where no query has a resumption key to go on with, the next request is started: it is fetched with its own
/// parameters, follows from nothing, has seen no key, and is taken off those that wait. Without one there is
/// nothing more to fetch.
pub proof fn law_requests_are_started_in_order(driver: DriverView)
    requires
        driver.current matches Some(current) ==> current.next is None,
    ensures
        driver.pending.len() == 0 ==> driver.next().0 is None && driver.next().1 == driver,
        driver.pending.len() > 0 ==> {
            let (fetched, after) = driver.next();
            &&& fetched matches Some((url, via))
            &&& url == url_with_query(
                driver.endpoint,
                request_pairs(driver.pending[0], driver.follow, None),
            )
            &&& via is None
            &&& after.endpoint == driver.endpoint
            &&& after.follow == driver.follow
            &&& after.pending == driver.pending.skip(1)
            &&& after.current matches Some(current)
            &&& current.request == driver.pending[0]
            &&& current.next is None
            &&& current.seen == Set::<Seq<char>>::empty()
        },
{
    if driver.pending.len() > 0 {
        assert(driver.pending.drop_first() =~= driver.pending.skip(1));
    }
}

/// A page that is resumed is fetched from the endpoint with the URL of the request, the name of its match scope,
/// its lookup and its limit as its first page was, with what asks for resumption keys, and with the key that the
/// last response had. It follows from where that response came from.
pub proof fn law_resumed_pages_are_sent_whole(
    driver: &mut QueryDriver,
    request: RequestView,
    key: Seq<char>,
    via: Seq<char>,
    fetched: Option<SessionRequest>,
)
    requires
        call_ensures(QueryDriver::next, (driver,), fetched),
        old(driver)@.current matches Some(current) && current.request == request && current.next == Some(
            (key, via),
        ),
        request.limit matches Some(limit) ==> i64::MIN <= limit <= i64::MAX,
    ensures
        ({
            let sent = surt::parsed_url(fetched.unwrap().url@);
            let endpoint = surt::parsed_url(old(driver)@.endpoint);
            let pairs = sent->Ok_0.query_pairs;
            let n = pairs.len() as int;
            &&& fetched is Some
            &&& fetched.unwrap().via matches Some(from) && from@ == via
            &&& sent is Ok
            &&& endpoint is Ok
            &&& sent->Ok_0.domain == endpoint->Ok_0.domain
            &&& sent->Ok_0.path == endpoint->Ok_0.path
            &&& n == if request.limit is Some {
                7int
            } else {
                6
            }
            &&& pairs[0] == ("url"@, request.url)
            &&& pairs[1] == (
                "matchType"@,
                match request.match_type {
                    MatchType::Exact => "exact"@,
                    MatchType::Prefix => "prefix"@,
                    MatchType::Host => "host"@,
                    MatchType::Domain => "domain"@,
                },
            )
            &&& pairs[2].0 == "fastLatest"@
            &&& pairs[2].1 == if request.fast_latest {
                "true"@
            } else {
                "false"@
            }
            &&& request.limit matches Some(limit) ==> pairs[3].0 == "limit"@ && integer::integer_value(
                pairs[3].1,
            ) == Some(limit)
            &&& pairs[n - 3] == ("showResumeKey"@, "true"@)
            &&& pairs[n - 2] == ("gzip"@, "false"@)
            &&& pairs[n - 1] == ("resumeKey"@, key)
            &&& final(driver)@.current matches Some(current) && current.next is None && current.request
                == request
            &&& final(driver)@.pending == old(driver)@.pending
        }),
{
    if let Some(limit) = request.limit {
        integer::law_integer_reads_back(limit);
    }
}

/// A response is inspected only where resumption keys are followed: one that is not UTF-8 and one that repeats a
/// key are errors then, and the query ends. A failed query ends too, and what waits is left.
pub proof fn law_responses_are_inspected(
    driver: &mut QueryDriver,
    payload: &[u8],
    final_url: &str,
    result: Result<(), InspectError>,
)
    requires
        call_ensures(QueryDriver::inspect, (driver, payload, final_url), result),
        old(driver)@.current is Some,
    ensures
        ({
            let is_text = vstd::utf8::valid_utf8(payload@);
            let key = resume_key_of(vstd::utf8::decode_utf8(payload@));
            let seen = old(driver)@.current.unwrap().seen;
            let is_repeated = is_text && key is Some && seen.contains(key.unwrap());
            let is_new = is_text && key is Some && !seen.contains(key.unwrap());
            &&& result is Err <==> old(driver)@.follow && (!is_text || is_repeated)
            &&& result matches Err(error) ==> (error is NotUtf8 <==> !is_text)
            &&& old(driver)@.follow && is_new ==> {
                &&& final(driver)@.current matches Some(current)
                &&& current.next == Some((key.unwrap(), final_url@))
                &&& current.seen == seen.insert(key.unwrap())
                &&& current.request == old(driver)@.current.unwrap().request
            }
            &&& !old(driver)@.follow || !is_new ==> final(driver)@.current is None
            &&& final(driver)@.pending == old(driver)@.pending
        }),
{
}

} // verus!
