//! A rate limiter whose policy is read from response headers.
//!
//! Times are milliseconds on a clock that does not run backwards; the caller
//! decides where it starts.

use std::collections::VecDeque;
use vstd::prelude::*;
use vstd::string::*;
use crate::text::{
    all_digits, chars_of, decimal, eq_ignoring_case, fields_view, is_digit, law_decimal_reads_back,
    lemma_split_at_separator, lemma_split_one_field, parse_u32, parse_u32_spec, push_decimal,
    same_ignoring_case, split, split_chars,
};

verus! {

/// Added to the time since an earlier request, to absorb clock and network
/// skew.
pub const SAFETY_MARGIN_MS: u64 = 500;

/// The response status by which the server asks to slow down.
pub const TOO_MANY_REQUESTS: u16 = 429;

/// One `count:window:penalty` triple. As a rule it allows `count` requests
/// per `time` seconds and threatens `penalty` seconds; as a state it reports
/// the requests used in the window and the penalty currently owed.
#[derive(Clone, Copy, Debug, PartialEq, Eq, Structural)]
pub struct RateLimit {
    pub count: u32,
    pub time: u32,
    pub penalty: u32,
}

impl RateLimit {
    /// The triple that `s` writes: its first three `:`-separated fields,
    /// each an unsigned decimal number. Further fields are not looked at.
    pub open spec fn parse_spec(s: Seq<char>) -> Option<RateLimit> {
        let fields = split(s, ':');
        if fields.len() < 3 {
            None
        } else {
            match (
                parse_u32_spec(fields[0]),
                parse_u32_spec(fields[1]),
                parse_u32_spec(fields[2]),
            ) {
                (Some(count), Some(time), Some(penalty)) => Some(
                    RateLimit { count, time, penalty },
                ),
                _ => None,
            }
        }
    }

    /// The triple as text: count, window and penalty in base ten, with a
    /// `:` between them.
    pub open spec fn text_spec(self) -> Seq<char> {
        decimal(self.count as nat) + seq![':'] + decimal(self.time as nat) + seq![':'] + decimal(
            self.penalty as nat,
        )
    }

    /// Writes the triple as `count:window:penalty`.
    pub fn to_text(&self) -> (r: String)
        ensures
            r@ == self.text_spec(),
    {
        let mut out = String::new();
        push_decimal(&mut out, self.count as u64);
        out.append(":");
        push_decimal(&mut out, self.time as u64);
        out.append(":");
        push_decimal(&mut out, self.penalty as u64);
        proof {
            reveal_strlit(":");
            assert(":"@ =~= seq![':']);
            assert(out@ =~= self.text_spec());
        }
        out
    }

    fn parse_chars(s: &Vec<char>) -> (r: Option<RateLimit>)
        ensures
            r == Self::parse_spec(s@),
    {
        let fields = split_chars(s, ':');
        if fields.len() < 3 {
            return None;
        }
        let count = parse_u32(&fields[0]);
        let time = parse_u32(&fields[1]);
        let penalty = parse_u32(&fields[2]);
        match (count, time, penalty) {
            (Some(count), Some(time), Some(penalty)) => Some(RateLimit { count, time, penalty }),
            _ => None,
        }
    }

    /// Reads a `count:window:penalty` triple.
    pub fn parse(s: &str) -> (r: Option<RateLimit>)
        ensures
            r == Self::parse_spec(s@),
    {
        let chars = chars_of(s);
        Self::parse_chars(&chars)
    }
}

proof fn lemma_decimal_is_a_field(n: nat)
    ensures
        split(decimal(n), ':') == seq![decimal(n)],
        n <= u32::MAX ==> parse_u32_spec(decimal(n)) == Some(n as u32),
{
    law_decimal_reads_back(n);
    assert forall|k: int| 0 <= k < decimal(n).len() implies decimal(n)[k] != ':' by {
        assert(is_digit(decimal(n)[k]));
    }
    lemma_split_one_field(decimal(n), ':');
}

/// Reading the text of a triple gives the triple again.
pub proof fn law_parse_reads_text(triple: RateLimit)
    ensures
        RateLimit::parse_spec(triple.text_spec()) == Some(triple),
{
    let count = decimal(triple.count as nat);
    let time = decimal(triple.time as nat);
    let penalty = decimal(triple.penalty as nat);
    lemma_decimal_is_a_field(triple.count as nat);
    lemma_decimal_is_a_field(triple.time as nat);
    lemma_decimal_is_a_field(triple.penalty as nat);
    lemma_split_at_separator(count, time, ':');
    lemma_split_at_separator(count + seq![':'] + time, penalty, ':');
    let fields = split(triple.text_spec(), ':');
    assert(fields =~= seq![count, time, penalty]);
}

/// The largest `count` among `limits`; 0 when there are none.
pub open spec fn max_count(limits: Seq<RateLimit>) -> nat
    decreases limits.len(),
{
    if limits.len() == 0 {
        0
    } else {
        let before = max_count(limits.drop_last());
        if limits.last().count > before {
            limits.last().count as nat
        } else {
            before
        }
    }
}

/// No count is above `max_count`, and one of them reaches it.
pub proof fn law_max_count_is_largest(limits: Seq<RateLimit>)
    ensures
        forall|i: int| 0 <= i < limits.len() ==> (#[trigger] limits[i]).count <= max_count(limits),
        limits.len() > 0 ==> exists|i: int|
            0 <= i < limits.len() && (#[trigger] limits[i]).count == max_count(limits),
        max_count(limits) <= u32::MAX,
    decreases limits.len(),
{
    if limits.len() > 0 {
        let head = limits.drop_last();
        law_max_count_is_largest(head);
        assert forall|i: int| 0 <= i < limits.len() implies (#[trigger] limits[i]).count
            <= max_count(limits) by {
            if i < head.len() {
                assert(limits[i] == head[i]);
            }
        }
        if limits.last().count > max_count(head) || head.len() == 0 {
            assert(limits[limits.len() - 1].count == max_count(limits));
        } else {
            let i = choose|i: int| 0 <= i < head.len() && (#[trigger] head[i]).count == max_count(head);
            assert(limits[i] == head[i]);
        }
    }
}

/// Whether the quota of `rule` is used up according to `state`.
pub open spec fn saturated(rule: RateLimit, state: RateLimit) -> bool {
    state.count >= rule.count
}

/// The time from `then` to `now`; nothing when `then` is the later one.
pub open spec fn elapsed(now: u64, then: u64) -> nat {
    if now >= then {
        (now - then) as nat
    } else {
        0
    }
}

/// How long a saturated rule asks to wait, in milliseconds: its penalty,
/// and, where the history reaches back `rule.count` requests, at least the
/// time since that request plus the safety margin.
pub open spec fn wait_for(rule: RateLimit, history: Seq<u64>, now: u64) -> nat {
    let penalty = (rule.penalty * 1000) as nat;
    if rule.count < history.len() {
        let since = elapsed(now, history[rule.count as int]) + SAFETY_MARGIN_MS;
        if since > penalty {
            since as nat
        } else {
            penalty
        }
    } else {
        penalty
    }
}

/// One response header: a name and the text of its value.
#[derive(Clone, Debug, PartialEq, Eq)]
pub struct Header {
    pub name: String,
    pub value: String,
}

/// The value of the first header of `headers` called `name`, whatever the
/// case of the ASCII letters in either name.
pub open spec fn header_value(headers: Seq<Header>, name: Seq<char>) -> Option<Seq<char>>
    decreases headers.len(),
{
    if headers.len() == 0 {
        None
    } else if same_ignoring_case(headers[0].name@, name) {
        Some(headers[0].value@)
    } else {
        header_value(headers.drop_first(), name)
    }
}

/// The name of the header that lists the policies in force.
pub open spec fn rules_header() -> Seq<char> {
    "X-Rate-Limit-Rules"@
}

/// The name of the header that holds the rules of `policy`.
pub open spec fn limit_header(policy: Seq<char>) -> Seq<char> {
    "X-Rate-Limit-"@ + policy
}

/// The name of the header that holds the usage under `policy`.
pub open spec fn state_header(policy: Seq<char>) -> Seq<char> {
    "X-Rate-Limit-"@ + policy + "-State"@
}

/// Rules with their states, paired by position.
#[verifier::ext_equal]
pub struct Policy {
    pub limits: Seq<RateLimit>,
    pub states: Seq<RateLimit>,
}

impl Policy {
    /// The policy made of `limits` and `states`.
    pub open spec fn of(limits: Seq<RateLimit>, states: Seq<RateLimit>) -> Policy {
        Policy { limits, states }
    }

}

/// The triples that `fields` write, where every one of them can be read.
pub open spec fn read_all(fields: Seq<Seq<char>>) -> Option<Seq<RateLimit>>
    decreases fields.len(),
{
    if fields.len() == 0 {
        Some(Seq::empty())
    } else {
        match (read_all(fields.drop_last()), RateLimit::parse_spec(fields.last())) {
            (Some(before), Some(triple)) => Some(before.push(triple)),
            _ => None,
        }
    }
}

/// What `headers` declare under the policy called `name`: both of its
/// headers must be there and list equally many triples, every one of which
/// can be read.
pub open spec fn declared_policy(headers: Seq<Header>, name: Seq<char>) -> Option<Policy> {
    match (header_value(headers, limit_header(name)), header_value(headers, state_header(name))) {
        (Some(limits), Some(states)) => {
            let limits = split(limits, ',');
            let states = split(states, ',');
            if limits.len() == states.len() {
                match (read_all(limits), read_all(states)) {
                    (Some(limits), Some(states)) => Some(Policy { limits, states }),
                    _ => None,
                }
            } else {
                None
            }
        },
        _ => None,
    }
}

/// What `headers` declare under all of `names`: the pairs of each name, in
/// the order of the names. There is nothing where one of the names is not
/// declared.
pub open spec fn declared_policies(headers: Seq<Header>, names: Seq<Seq<char>>) -> Option<Policy>
    decreases names.len(),
{
    if names.len() == 0 {
        Some(Policy { limits: Seq::empty(), states: Seq::empty() })
    } else {
        match (declared_policies(headers, names.drop_last()), declared_policy(headers, names.last())) {
            (Some(before), Some(policy)) => Some(
                Policy {
                    limits: before.limits + policy.limits,
                    states: before.states + policy.states,
                },
            ),
            _ => None,
        }
    }
}

/// The policy in force after a response with `headers`: what they declare
/// under all the names that they list, as a whole. Without a list of names,
/// or where one of the names is not declared, it is `prior`.
pub open spec fn policy_after(headers: Seq<Header>, prior: Policy) -> Policy {
    match header_value(headers, rules_header()) {
        Some(names) => match declared_policies(headers, split(names, ',')) {
            Some(policy) => policy,
            None => prior,
        },
        None => prior,
    }
}

/// `history` as a limiter with the rules `limits` keeps it: cut down to the
/// largest count that a rule allows, and whole while there is no rule.
pub open spec fn bounded(history: Seq<u64>, limits: Seq<RateLimit>) -> Seq<u64> {
    if limits.len() == 0 {
        history
    } else {
        truncated(history, max_count(limits))
    }
}

/// What a rate limiter knows.
#[verifier::ext_equal]
pub struct RateLimiterView {
    /// The rules that the server declared last.
    pub limits: Seq<RateLimit>,
    /// The usage that the server reported last, `states[i]` under `limits[i]`.
    pub states: Seq<RateLimit>,
    /// When requests were sent, the latest first.
    pub history: Seq<u64>,
}

impl RateLimiterView {
    /// A limiter that has seen no rule and sent no request.
    pub open spec fn empty() -> RateLimiterView {
        RateLimiterView { limits: Seq::empty(), states: Seq::empty(), history: Seq::empty() }
    }

    /// Rules and states come in pairs, and where there are rules the
    /// history is no longer than the largest count that one allows.
    pub open spec fn wf(self) -> bool {
        &&& self.limits.len() == self.states.len()
        &&& self.limits.len() > 0 ==> self.history.len() <= max_count(self.limits)
    }

    /// Whether the pair at `i` is saturated.
    pub open spec fn saturated_at(self, i: int) -> bool {
        0 <= i < self.limits.len() && saturated(self.limits[i], self.states[i])
    }

    /// The wait that the pair at `i` asks for at time `now`.
    pub open spec fn wait_at(self, i: int, now: u64) -> nat {
        wait_for(self.limits[i], self.history, now)
    }
}

impl RateLimiterView {
    /// Whether `r` is the wait before a request at time `now`: none while
    /// the history is empty or no pair is saturated, else the longest wait
    /// that a saturated pair asks for.
    pub open spec fn backoff_is(self, now: u64, r: Option<u64>) -> bool {
        &&& r is None <==> (self.history.len() == 0 || forall|i: int| !self.saturated_at(i))
        &&& r matches Some(wait) ==> {
            &&& exists|i: int| self.saturated_at(i) && wait == self.wait_at(i, now)
            &&& forall|i: int| self.saturated_at(i) ==> self.wait_at(i, now) <= wait
        }
    }

    /// The rules and states as one policy.
    pub open spec fn policy(self) -> Policy {
        Policy { limits: self.limits, states: self.states }
    }

    /// After a request was sent at `sent_at`: the history has it in front
    /// and is cut down to the largest count that a rule allows. While no
    /// rule is in force nothing is cut away.
    pub open spec fn record(self, sent_at: u64) -> RateLimiterView {
        RateLimiterView { history: bounded(seq![sent_at] + self.history, self.limits), ..self }
    }

    /// After a response with `headers`: the policy that they declare is in
    /// force, and the history is cut down to its largest count.
    pub open spec fn with_headers(self, headers: Seq<Header>) -> RateLimiterView {
        let policy = policy_after(headers, self.policy());
        RateLimiterView {
            limits: policy.limits,
            states: policy.states,
            history: bounded(self.history, policy.limits),
        }
    }
}

/// There is one wait before a request.
pub proof fn law_backoff_is_unique(v: RateLimiterView, now: u64, one: Option<u64>, other: Option<u64>)
    requires
        v.backoff_is(now, one),
        v.backoff_is(now, other),
    ensures
        one == other,
{
}

/// Once a request has been sent, the wait is no shorter than the penalty of
/// any saturated rule, and no shorter than the time since the request that
/// the rule looks back to, plus the safety margin.
pub proof fn law_backoff_covers_saturated_pairs(
    v: RateLimiterView,
    now: u64,
    r: Option<u64>,
    i: int,
)
    requires
        v.backoff_is(now, r),
        v.history.len() > 0,
        v.saturated_at(i),
    ensures
        r is Some,
        r->0 >= v.limits[i].penalty * 1000,
        v.limits[i].count < v.history.len() ==> r->0 >= elapsed(
            now,
            v.history[v.limits[i].count as int],
        ) + SAFETY_MARGIN_MS,
{
    assert(v.wait_at(i, now) <= r->0);
}

/// The request that a response answers stands first in the history after
/// the response is taken in, unless the rules before or after it allow no
/// request at all; and where rules are in force then, the history is no
/// longer than their largest count.
pub proof fn law_response_keeps_its_request(v: RateLimiterView, sent_at: u64, headers: Seq<Header>)
    requires
        v.limits.len() == 0 || max_count(v.limits) >= 1,
        v.record(sent_at).with_headers(headers).limits.len() == 0 || max_count(
            v.record(sent_at).with_headers(headers).limits,
        ) >= 1,
    ensures
        v.record(sent_at).history.len() >= 1,
        v.record(sent_at).history[0] == sent_at,
        v.record(sent_at).with_headers(headers).history.len() >= 1,
        v.record(sent_at).with_headers(headers).history[0] == sent_at,
        v.record(sent_at).with_headers(headers).limits.len() > 0 ==> v.record(sent_at).with_headers(
            headers,
        ).history.len() <= max_count(v.record(sent_at).with_headers(headers).limits),
{
    let longer = seq![sent_at] + v.history;
    assert(longer[0] == sent_at);
}

/// What to do with a response that has arrived.
#[derive(Clone, Copy, Debug, PartialEq, Eq, Structural)]
pub enum SendVerdict {
    /// The server asked to slow down: wait as `backoff` says and send again.
    Retry,
    /// Hand the response to the caller.
    Deliver,
}

/// `history`, cut down to its `n` latest entries.
pub open spec fn truncated(history: Seq<u64>, n: nat) -> Seq<u64> {
    if n <= history.len() {
        history.take(n as int)
    } else {
        history
    }
}

proof fn lemma_read_all_part(fields: Seq<Seq<char>>, n: int)
    requires
        0 <= n <= fields.len(),
        read_all(fields.take(n)) is None,
    ensures
        read_all(fields) is None,
    decreases fields.len() - n,
{
    if n == fields.len() {
        assert(fields.take(n) == fields);
    } else {
        assert(fields.take(n + 1).drop_last() == fields.take(n));
        lemma_read_all_part(fields, n + 1);
    }
}

proof fn lemma_declared_policies_part(headers: Seq<Header>, names: Seq<Seq<char>>, n: int)
    requires
        0 <= n <= names.len(),
        declared_policies(headers, names.take(n)) is None,
    ensures
        declared_policies(headers, names) is None,
    decreases names.len() - n,
{
    if n == names.len() {
        assert(names.take(n) == names);
    } else {
        assert(names.take(n + 1).drop_last() == names.take(n));
        lemma_declared_policies_part(headers, names, n + 1);
    }
}

fn lookup(headers: &Vec<Header>, name: &Vec<char>) -> (r: Option<Vec<char>>)
    ensures
        r is Some == header_value(headers@, name@) is Some,
        r matches Some(value) ==> header_value(headers@, name@) == Some(value@),
{
    let mut i: usize = 0;
    proof {
        assert(headers@.skip(0) == headers@);
    }
    while i < headers.len()
        invariant
            i <= headers.len(),
            header_value(headers@, name@) == header_value(headers@.skip(i as int), name@),
        decreases headers.len() - i,
    {
        let field = chars_of(headers[i].name.as_str());
        proof {
            assert(headers@.skip(i as int)[0] == headers@[i as int]);
            assert(headers@.skip(i as int).drop_first() == headers@.skip(i + 1));
        }
        if eq_ignoring_case(&field, name) {
            return Some(chars_of(headers[i].value.as_str()));
        }
        i += 1;
    }
    None
}

fn joined(a: &Vec<char>, b: &Vec<char>) -> (r: Vec<char>)
    ensures
        r@ == a@ + b@,
{
    let mut r: Vec<char> = Vec::new();
    let mut i: usize = 0;
    while i < a.len()
        invariant
            i <= a.len(),
            r@ == a@.take(i as int),
        decreases a.len() - i,
    {
        r.push(a[i]);
        i += 1;
    }
    let mut j: usize = 0;
    while j < b.len()
        invariant
            j <= b.len(),
            r@ == a@ + b@.take(j as int),
        decreases b.len() - j,
    {
        r.push(b[j]);
        j += 1;
    }
    r
}

fn read_triples(fields: &Vec<Vec<char>>) -> (r: Option<Vec<RateLimit>>)
    ensures
        r is Some == read_all(fields_view(fields@)) is Some,
        r matches Some(triples) ==> read_all(fields_view(fields@)) == Some(triples@),
        r matches Some(triples) ==> triples.len() == fields.len(),
{
    let mut triples: Vec<RateLimit> = Vec::new();
    let ghost all = fields_view(fields@);
    let mut i: usize = 0;
    while i < fields.len()
        invariant
            i <= fields.len(),
            all == fields_view(fields@),
            triples.len() == i,
            read_all(all.take(i as int)) == Some(triples@),
        decreases fields.len() - i,
    {
        proof {
            assert(all.take(i + 1).drop_last() == all.take(i as int));
        }
        match RateLimit::parse_chars(&fields[i]) {
            Some(triple) => {
                triples.push(triple);
            },
            None => {
                proof {
                    lemma_read_all_part(all, i + 1);
                }
                return None;
            },
        }
        i += 1;
    }
    proof {
        assert(all.take(i as int) == all);
    }
    Some(triples)
}

fn read_policy(headers: &Vec<Header>, name: &Vec<char>) -> (r: Option<(Vec<RateLimit>, Vec<RateLimit>)>)
    ensures
        r is Some == declared_policy(headers@, name@) is Some,
        r matches Some(found) ==> {
            &&& declared_policy(headers@, name@) == Some(Policy::of(found.0@, found.1@))
            &&& found.0.len() == found.1.len()
        },
{
    let limit_name = joined(&chars_of("X-Rate-Limit-"), name);
    let state_name = joined(&limit_name, &chars_of("-State"));
    match lookup(headers, &limit_name) {
        Some(limits) => match lookup(headers, &state_name) {
            Some(states) => {
                let limits = split_chars(&limits, ',');
                let states = split_chars(&states, ',');
                if limits.len() != states.len() {
                    return None;
                }
                match read_triples(&limits) {
                    Some(limits) => match read_triples(&states) {
                        Some(states) => Some((limits, states)),
                        None => None,
                    },
                    None => None,
                }
            },
            None => None,
        },
        None => None,
    }
}

fn extend(out: &mut Vec<RateLimit>, more: &Vec<RateLimit>)
    ensures
        final(out)@ == old(out)@ + more@,
{
    let mut i: usize = 0;
    while i < more.len()
        invariant
            i <= more.len(),
            out@ == old(out)@ + more@.take(i as int),
        decreases more.len() - i,
    {
        out.push(more[i]);
        i += 1;
    }
}

fn read_policies(headers: &Vec<Header>, names: &Vec<Vec<char>>) -> (r: Option<
    (Vec<RateLimit>, Vec<RateLimit>),
>)
    ensures
        r is Some == declared_policies(headers@, fields_view(names@)) is Some,
        r matches Some(found) ==> {
            &&& declared_policies(headers@, fields_view(names@)) == Some(
                Policy::of(found.0@, found.1@),
            )
            &&& found.0.len() == found.1.len()
        },
{
    let mut limits: Vec<RateLimit> = Vec::new();
    let mut states: Vec<RateLimit> = Vec::new();
    let ghost all = fields_view(names@);
    let mut i: usize = 0;
    while i < names.len()
        invariant
            i <= names.len(),
            all == fields_view(names@),
            limits.len() == states.len(),
            declared_policies(headers@, all.take(i as int)) == Some(Policy::of(limits@, states@)),
        decreases names.len() - i,
    {
        proof {
            assert(all.take(i + 1).drop_last() == all.take(i as int));
        }
        match read_policy(headers, &names[i]) {
            Some(policy) => {
                extend(&mut limits, &policy.0);
                extend(&mut states, &policy.1);
            },
            None => {
                proof {
                    lemma_declared_policies_part(headers@, all, i + 1);
                }
                return None;
            },
        }
        i += 1;
    }
    proof {
        assert(all.take(i as int) == all);
    }
    Some((limits, states))
}

fn largest_count(limits: &Vec<RateLimit>) -> (r: u32)
    ensures
        r == max_count(limits@),
{
    let mut r: u32 = 0;
    let mut i: usize = 0;
    while i < limits.len()
        invariant
            i <= limits.len(),
            r == max_count(limits@.take(i as int)),
        decreases limits.len() - i,
    {
        proof {
            assert(limits@.take(i + 1).drop_last() == limits@.take(i as int));
        }
        if limits[i].count > r {
            r = limits[i].count;
        }
        i += 1;
    }
    proof {
        assert(limits@.take(i as int) == limits@);
    }
    r
}

/// Tracks the server's declared quota and the times of the requests sent,
/// and says how long to wait before the next one.
#[derive(Debug)]
pub struct RateLimiter {
    limits: Vec<RateLimit>,
    states: Vec<RateLimit>,
    request_history: VecDeque<u64>,
}

impl View for RateLimiter {
    type V = RateLimiterView;

    closed spec fn view(&self) -> RateLimiterView {
        RateLimiterView {
            limits: self.limits@,
            states: self.states@,
            history: self.request_history@,
        }
    }
}

impl RateLimiter {
    #[verifier::type_invariant]
    spec fn inv(self) -> bool {
        self@.wf()
    }

    fn take(&mut self) -> (r: RateLimiter)
        ensures
            r@ == old(self)@,
            final(self)@ == RateLimiterView::empty(),
    {
        let mut taken = RateLimiter::new();
        core::mem::swap(&mut taken, self);
        taken
    }

    /// A limiter with no rules and an empty history.
    pub fn new() -> (r: RateLimiter)
        ensures
            r@ == RateLimiterView::empty(),
    {
        RateLimiter { limits: Vec::new(), states: Vec::new(), request_history: VecDeque::new() }
    }

    /// The rules in force.
    pub fn limits(&self) -> (r: &Vec<RateLimit>)
        ensures
            r@ == self@.limits,
            self@.wf(),
    {
        proof {
            use_type_invariant(self);
        }
        &self.limits
    }

    /// The usage last reported, paired with `limits` by position.
    pub fn states(&self) -> (r: &Vec<RateLimit>)
        ensures
            r@ == self@.states,
            self@.wf(),
    {
        proof {
            use_type_invariant(self);
        }
        &self.states
    }

    /// The times of the requests remembered, the latest first.
    pub fn history(&self) -> (r: Vec<u64>)
        ensures
            r@ == self@.history,
            self@.wf(),
    {
        proof {
            use_type_invariant(self);
        }
        let mut out: Vec<u64> = Vec::new();
        let mut i: usize = 0;
        while i < self.request_history.len()
            invariant
                i <= self.request_history@.len(),
                out@ == self.request_history@.take(i as int),
            decreases self.request_history@.len() - i,
        {
            out.push(self.request_history[i]);
            i += 1;
        }
        out
    }

    /// Takes the policy from the headers of a response. The header
    /// `X-Rate-Limit-Rules` lists policy names, separated by commas. For
    /// each name `X-Rate-Limit-<name>` lists rules and
    /// `X-Rate-Limit-<name>-State` as many states, separated by commas.
    /// Where every name has both headers, of equal length and with triples
    /// that can all be read, the pairs of all names, in the order of the
    /// names, replace all rules and states, and the history is cut down to
    /// the largest count of the new rules. In any other case nothing
    /// changes.
    pub fn update_from_headers(&mut self, headers: &Vec<Header>)
        ensures
            final(self)@ == old(self)@.with_headers(headers@),
            final(self)@.wf(),
    {
        proof {
            use_type_invariant(&*self);
        }
        let ghost before = self@;
        let found = match lookup(headers, &chars_of("X-Rate-Limit-Rules")) {
            Some(names) => read_policies(headers, &split_chars(&names, ',')),
            None => None,
        };
        match found {
            Some(policy) => {
                let RateLimiter { limits: _, states: _, mut request_history } = self.take();
                if policy.0.len() > 0 {
                    request_history.truncate(largest_count(&policy.0) as usize);
                }
                *self = RateLimiter { limits: policy.0, states: policy.1, request_history };
            },
            None => {},
        }
        proof {
            assert(self@ =~= before.with_headers(headers@));
        }
    }

    /// Remembers that a request was sent at `sent_at`: puts it in front of
    /// the history and drops what goes beyond the largest count of the rules
    /// in force. While there is no rule nothing is dropped.
    pub fn record_request(&mut self, sent_at: u64)
        ensures
            final(self)@ == old(self)@.record(sent_at),
            final(self)@.wf(),
    {
        proof {
            use_type_invariant(&*self);
        }
        let RateLimiter { limits, states, mut request_history } = self.take();
        request_history.push_front(sent_at);
        if limits.len() > 0 {
            request_history.truncate(largest_count(&limits) as usize);
        }
        *self = RateLimiter { limits, states, request_history };
    }

    /// Takes in the response to a request that was sent at `sent_at`: the
    /// request enters the history, the headers update the policy, and the
    /// status decides whether the request has to be sent again.
    pub fn on_response(&mut self, sent_at: u64, status: u16, headers: &Vec<Header>) -> (verdict:
        SendVerdict)
        ensures
            final(self)@ == old(self)@.record(sent_at).with_headers(headers@),
            final(self)@.wf(),
            verdict == (if status == TOO_MANY_REQUESTS {
                SendVerdict::Retry
            } else {
                SendVerdict::Deliver
            }),
    {
        self.record_request(sent_at);
        self.update_from_headers(headers);
        if status == TOO_MANY_REQUESTS {
            SendVerdict::Retry
        } else {
            SendVerdict::Deliver
        }
    }

    /// Takes in that the request sent at `sent_at` failed before any response
    /// arrived: it enters the history, and nothing else changes. Such a
    /// failure is not retried.
    pub fn on_failure(&mut self, sent_at: u64)
        ensures
            final(self)@ == old(self)@.record(sent_at),
            final(self)@.wf(),
    {
        self.record_request(sent_at);
    }

    /// How long to wait before sending a request at time `now`, in
    /// milliseconds: the longest wait that a saturated rule asks for. There is
    /// no wait while no request has been sent or no rule is saturated.
    pub fn backoff(&self, now: u64) -> (r: Option<u64>)
        requires
            now + SAFETY_MARGIN_MS <= u64::MAX,
        ensures
            self@.backoff_is(now, r),
    {
        proof {
            use_type_invariant(self);
        }
        let mut backoff: Option<u64> = None;
        if self.request_history.len() == 0 {
            return None;
        }
        let mut i: usize = 0;
        while i < self.limits.len()
            invariant
                i <= self.limits.len(),
                self.limits.len() == self.states.len(),
                now + SAFETY_MARGIN_MS <= u64::MAX,
                backoff is None <==> forall|k: int| 0 <= k < i ==> !self@.saturated_at(k),
                backoff matches Some(wait) ==> {
                    &&& exists|k: int| 0 <= k < i && self@.saturated_at(k) && wait == self@.wait_at(k, now)
                    &&& forall|k: int| 0 <= k < i && self@.saturated_at(k) ==> self@.wait_at(k, now) <= wait
                },
            decreases self.limits.len() - i,
        {
            let limit = self.limits[i];
            let state = self.states[i];
            if state.count >= limit.count {
                let penalty: u64 = limit.penalty as u64 * 1000;
                let mut this_backoff: u64 = penalty;
                if (limit.count as usize) < self.request_history.len() {
                    let then = self.request_history[limit.count as usize];
                    let since: u64 = (if now >= then { now - then } else { 0 }) + SAFETY_MARGIN_MS;
                    if since > penalty {
                        this_backoff = since;
                    }
                }
                assert(this_backoff == self@.wait_at(i as int, now));
                assert(self@.saturated_at(i as int));
                backoff = match backoff {
                    Some(wait) if wait >= this_backoff => Some(wait),
                    _ => Some(this_backoff),
                };
            } else {
                assert(!self@.saturated_at(i as int));
            }
            i += 1;
        }
        backoff
    }
}

} // verus!
