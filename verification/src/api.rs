//! The entries of a guild's stash history, and the requests that fetch them
//! page by page.

use vstd::prelude::*;
use vstd::string::*;
use crate::ratelimiter::{RateLimiter, RateLimiterView};
use crate::session::{law_overlap_ends_walk, IngestionSession, SessionView};
use crate::storage::{distinct_entries, entry_ids};
use crate::text::{decimal, push_decimal, push_signed_decimal, signed_decimal};

verus! {

/// Who did something to a stash.
#[derive(Debug, Clone, PartialEq, Eq)]
pub struct StashAccount {
    pub name: String,
    pub realm: Option<String>,
}

/// One event of the history. `id` is assigned by the server, is unique, and
/// grows with time; entries are told apart by it alone.
#[derive(Debug, Clone, PartialEq, Eq)]
pub struct StashEntry {
    pub id: String,
    /// Unix time, in seconds.
    pub time: u64,
    pub league: String,
    pub stash: Option<String>,
    pub item: String,
    pub action: String,
    pub account: StashAccount,
    pub x: Option<i32>,
    pub y: Option<i32>,
}

/// One page of the history, the latest entry first.
#[derive(Debug, Clone, PartialEq, Eq)]
pub struct StashEntries {
    pub entries: Vec<StashEntry>,
}

fn copy_text(s: &Option<String>) -> (r: Option<String>)
    ensures
        r == *s,
{
    match s {
        Some(s) => Some(s.clone()),
        None => None,
    }
}

impl StashAccount {
    /// A copy of this account.
    pub fn duplicate(&self) -> (r: StashAccount)
        ensures
            r == *self,
    {
        StashAccount { name: self.name.clone(), realm: copy_text(&self.realm) }
    }
}

impl StashEntry {
    /// A copy of this entry.
    pub fn duplicate(&self) -> (r: StashEntry)
        ensures
            r == *self,
    {
        StashEntry {
            id: self.id.clone(),
            time: self.time,
            league: self.league.clone(),
            stash: copy_text(&self.stash),
            item: self.item.clone(),
            action: self.action.clone(),
            account: self.account.duplicate(),
            x: self.x,
            y: self.y,
        }
    }

    /// Where the page after the one that ends with this entry starts.
    pub open spec fn anchor(self) -> (String, u64) {
        (self.id, self.time)
    }
}

/// Whether `status` is one of the HTTP statuses 200 to 299, which report
/// success.
pub open spec fn is_success_spec(status: u16) -> bool {
    200 <= status < 300
}

/// Whether a response with `status` carries a page. Any other response ends
/// the fetch without one.
#[verifier::when_used_as_spec(is_success_spec)]
pub fn is_success(status: u16) -> (r: bool)
    ensures
        r == is_success_spec(status),
{
    200 <= status && status < 300
}

/// The query parameters that ask for the page after `anchor`: none for the
/// first page, else `from` with the time and `fromid` with the id of the
/// last entry seen.
pub open spec fn query_params_spec(anchor: Option<(String, u64)>) -> Seq<(Seq<char>, Seq<char>)> {
    match anchor {
        None => Seq::empty(),
        Some(last) => seq![("from"@, decimal(last.1 as nat)), ("fromid"@, last.0@)],
    }
}

/// The anchor that `anchor` points at, if any.
pub open spec fn anchor_value(anchor: Option<&(String, u64)>) -> Option<(String, u64)> {
    match anchor {
        Some(last) => Some(*last),
        None => None,
    }
}

/// Names and values of `params`, each by its view.
pub open spec fn params_view(params: Seq<(String, String)>) -> Seq<(Seq<char>, Seq<char>)> {
    Seq::new(params.len(), |i: int| (params[i].0@, params[i].1@))
}

/// Builds the query parameters that ask for the page after `anchor`.
pub fn query_params(anchor: Option<&(String, u64)>) -> (params: Vec<(String, String)>)
    ensures
        params_view(params@) == query_params_spec(anchor_value(anchor)),
        params.len() == query_params_spec(anchor_value(anchor)).len(),
{
    let mut params: Vec<(String, String)> = Vec::new();
    match anchor {
        Some(last) => {
            let mut time = String::new();
            push_decimal(&mut time, last.1);
            params.push((String::from_str("from"), time));
            params.push((String::from_str("fromid"), last.0.clone()));
            proof {
                assert(time@ =~= decimal(last.1 as nat));
                assert(params_view(params@) =~= query_params_spec(Some(*last)));
            }
        },
        None => {
            proof {
                assert(params_view(params@) =~= query_params_spec(None));
            }
        },
    }
    params
}

/// `url::ParseError`, the reason for which a text is refused as a URL. It
/// is only passed on.
#[verifier::external_type_specification]
#[verifier::external_body]
pub struct ExParseError(url::ParseError);

/// The text of the URL that `url::Url::parse_with_params` makes of `input`
/// and `params`; nothing where it refuses `input`.
pub uninterp spec fn url_with_params(input: Seq<char>, params: Seq<(Seq<char>, Seq<char>)>) -> Option<Seq<char>>;

/// Calls `url::Url::parse_with_params`, which parses `input` as an absolute
/// URL and appends `params` to its query, and hands back the URL as text.
/// The contract claims only that the outcome is the one named
/// `url_with_params` for the same input and parameters.
#[verifier::external_body]
fn parse_with_params(input: &str, params: &Vec<(String, String)>) -> (r: Result<
    String,
    url::ParseError,
>)
    ensures
        r is Ok == url_with_params(input@, params_view(params@)) is Some,
        r matches Ok(text) ==> url_with_params(input@, params_view(params@)) == Some(text@),
{
    url::Url::parse_with_params(input, params.iter()).map(String::from)
}

/// The address of the history of guild `guildid`.
pub open spec fn log_endpoint_spec(guildid: i64) -> Seq<char> {
    "https://www.pathofexile.com/api/guild/"@ + signed_decimal(guildid as int)
        + "/stash/history"@
}

/// The cookie that carries the session id `sessid`.
pub open spec fn session_cookie_spec(sessid: Seq<char>) -> Seq<char> {
    "POESESSID="@ + sessid
}

/// What a client of the history API holds.
pub struct GuildStashApiView {
    pub limiter: RateLimiterView,
    pub log_endpoint: Seq<char>,
    pub poesessid_cookie: Seq<char>,
}

impl GuildStashApiView {
    /// The text of the URL that asks for the page after `anchor`.
    pub open spec fn url_after(self, anchor: Option<(String, u64)>) -> Option<Seq<char>> {
        url_with_params(self.log_endpoint, query_params_spec(anchor))
    }
}

/// What a session is to do next.
#[derive(Debug, Clone, PartialEq, Eq)]
pub enum FetchStep {
    /// The walk is over: nothing more is fetched.
    Finished,
    /// Request the page at `url` and hand it to the session.
    Request { url: String },
    /// The address of the page is refused as a URL: the session fails.
    Refused,
}

impl GuildStashApiView {
    /// Whether `step` is what `session` is to do next: nothing once the walk
    /// is over, else the request for the page after its anchor.
    pub open spec fn fetch_is(self, session: SessionView, step: FetchStep) -> bool {
        if session.finished {
            step is Finished
        } else {
            match self.url_after(session.anchor) {
                Some(url) => step matches FetchStep::Request { url: text } && text@ == url,
                None => step is Refused,
            }
        }
    }
}

/// After a page with an entry whose id the store had, or with an id twice,
/// nothing more is fetched: whatever the anchor, no request for the page
/// after this one is made.
pub proof fn law_no_fetch_after_overlap(
    api: GuildStashApiView,
    session: SessionView,
    page: Seq<StashEntry>,
    step: FetchStep,
)
    requires
        !entry_ids(page).disjoint(session.txn.known_ids()) || !distinct_entries(page),
        api.fetch_is(session.accept(page), step),
    ensures
        step is Finished,
        !session.finished ==> session.accept(page).txn == session.txn.insert(session.guild, page),
{
    if !session.finished {
        law_overlap_ends_walk(session, page, Seq::empty());
    }
}

/// The requests of one guild's stash history, and the rate limiter that
/// gates them.
pub struct GuildStashAPI {
    limiter: RateLimiter,
    log_endpoint: String,
    poesessid_cookie: String,
}

impl View for GuildStashAPI {
    type V = GuildStashApiView;

    closed spec fn view(&self) -> GuildStashApiView {
        GuildStashApiView {
            limiter: self.limiter@,
            log_endpoint: self.log_endpoint@,
            poesessid_cookie: self.poesessid_cookie@,
        }
    }
}

impl GuildStashAPI {
    /// A client for the history of guild `guildid`, authenticated by the
    /// session id `sessid`, with a fresh rate limiter.
    pub fn new(guildid: i64, sessid: &str) -> (r: GuildStashAPI)
        ensures
            r@.limiter == RateLimiterView::empty(),
            r@.log_endpoint == log_endpoint_spec(guildid),
            r@.poesessid_cookie == session_cookie_spec(sessid@),
    {
        let mut log_endpoint = String::from_str("https://www.pathofexile.com/api/guild/");
        push_signed_decimal(&mut log_endpoint, guildid);
        log_endpoint.append("/stash/history");
        let mut poesessid_cookie = String::from_str("POESESSID=");
        poesessid_cookie.append(sessid);
        GuildStashAPI { limiter: RateLimiter::new(), log_endpoint, poesessid_cookie }
    }

    /// The address that requests go to, without a query.
    pub fn log_endpoint(&self) -> (r: &String)
        ensures
            r@ == self@.log_endpoint,
    {
        &self.log_endpoint
    }

    /// The value of the `Cookie` header that requests carry.
    pub fn cookie(&self) -> (r: &String)
        ensures
            r@ == self@.poesessid_cookie,
    {
        &self.poesessid_cookie
    }

    /// The rate limiter that every request of this client goes through.
    pub fn limiter(&mut self) -> (r: &mut RateLimiter)
        ensures
            r@ == old(self)@.limiter,
            final(self)@.limiter == final(r)@,
            final(self)@.log_endpoint == old(self)@.log_endpoint,
            final(self)@.poesessid_cookie == old(self)@.poesessid_cookie,
    {
        &mut self.limiter
    }

    /// The next fetch of `session`: the request for the page after its
    /// anchor, and none once its walk is over, which it is after an empty
    /// page and after a page with an entry that the store had.
    pub fn fetch(&self, session: &IngestionSession) -> (step: FetchStep)
        ensures
            self@.fetch_is(session@, step),
    {
        if session.finished() {
            return FetchStep::Finished;
        }
        match self.request_url(session.anchor()) {
            Some(url) => FetchStep::Request { url },
            None => FetchStep::Refused,
        }
    }

    /// The URL of the request for the page after `anchor`: the endpoint with
    /// the query parameters of `query_params_spec`. There is none where the
    /// endpoint is refused as a URL.
    pub fn request_url(&self, anchor: Option<&(String, u64)>) -> (r: Option<String>)
        ensures
            r is Some == self@.url_after(anchor_value(anchor)) is Some,
            r matches Some(text) ==> self@.url_after(anchor_value(anchor)) == Some(text@),
    {
        let params = query_params(anchor);
        match parse_with_params(self.log_endpoint.as_str(), &params) {
            Ok(text) => Some(text),
            Err(_) => None,
        }
    }
}

} // verus!
