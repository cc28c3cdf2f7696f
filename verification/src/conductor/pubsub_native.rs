//! The message bus over its REST interface: addresses, token reuse, retries,
//! and pulled messages that are acknowledged by hand.

use crate::clock;
use crate::conductor::base64::encoded;
use crate::conductor::json::{
    all_contents, has_none, has_one, items_of, json_parsed, member, members_are_found_by_name, parse_json,
    text_of, Json, JsonView,
};
use crate::conductor::pubsub::{
    body_of, message_body, published_bodies_are_read_back, MergeResultMessage, MergeTaskMessage,
};
use crate::text::{dec, push_dec, same_text, trim, trimmed};
use vstd::prelude::*;
use vstd::string::*;
use vstd::utf8::*;

verus! {

/// How long before its expiry a token is replaced, in milliseconds.
pub const TOKEN_REFRESH_MARGIN_MS: u64 = 300_000;

/// How long a token is taken to last, in milliseconds.
pub const TOKEN_ASSUMED_LIFETIME_MS: u64 = 3_000_000;

/// The body of a pulled message, and the handle that acknowledges it.
#[derive(Debug, Clone, PartialEq, Eq)]
pub struct NativePulledMessage {
    pub data: String,
    pub ack_id: String,
}

/// A merge task with its acknowledgement handle.
#[derive(Debug, Clone)]
pub struct AckableMergeTask {
    pub task: MergeTaskMessage,
    pub ack_id: String,
}

/// A merge result with its acknowledgement handle.
#[derive(Debug, Clone)]
pub struct AckableMergeResult {
    pub result: MergeResultMessage,
    pub ack_id: String,
}

/// An access token that is kept until shortly before it expires.
#[derive(Debug)]
pub struct TokenCache {
    pub gcloud_bin: String,
    pub token: Option<String>,
    pub fetched_at: std::time::Instant,
    pub lifetime_ms: u64,
}

impl TokenCache {
    /// Whether there is a token that is still good, with a margin to spare,
    /// `elapsed_ms` after it was fetched.
    pub open spec fn good_after(&self, elapsed_ms: u64) -> bool {
        self.token is Some && elapsed_ms + TOKEN_REFRESH_MARGIN_MS < self.lifetime_ms
    }

    /// A cache without a token.
    pub fn new(gcloud_bin: String) -> (r: Self)
        ensures
            r.gcloud_bin == gcloud_bin,
            r.token is None,
            r.lifetime_ms == TOKEN_ASSUMED_LIFETIME_MS,
    {
        TokenCache {
            gcloud_bin,
            token: None,
            fetched_at: clock::now(),
            lifetime_ms: TOKEN_ASSUMED_LIFETIME_MS,
        }
    }

    /// Whether there is a token, and it is still good with a margin to spare
    /// `elapsed_ms` after it was fetched.
    pub fn fresh_after(&self, elapsed_ms: u64) -> (r: bool)
        ensures
            r == self.good_after(elapsed_ms),
    {
        self.token.is_some() && self.lifetime_ms > TOKEN_REFRESH_MARGIN_MS && elapsed_ms
            < self.lifetime_ms - TOKEN_REFRESH_MARGIN_MS
    }

    /// Whether the token is good by now. That depends on the time; without a
    /// token it is not.
    pub fn fresh(&self) -> (r: bool)
        ensures
            r ==> self.token is Some,
            r ==> self.lifetime_ms > TOKEN_REFRESH_MARGIN_MS,
    {
        self.fresh_after(clock::millis_since(&self.fetched_at))
    }

    /// A token to use `elapsed_ms` after the kept one was fetched: that one while
    /// it is good, else the one that `fetch` gets with the `gcloud` of this cache,
    /// which is kept from then on. A failure of `fetch` is handed on, and changes
    /// nothing.
    pub fn get_after<F: Fn(&String) -> Result<String, String>>(
        &mut self,
        elapsed_ms: u64,
        fetch: &F,
    ) -> (r: Result<String, String>)
        requires
            call_requires(*fetch, (&old(self).gcloud_bin,)),
        ensures
            served(*old(self), elapsed_ms, *fetch, *final(self), r),
    {
        if self.fresh_after(elapsed_ms) {
            match &self.token {
                Some(token) => {
                    return Ok(token.clone());
                },
                None => {},
            }
        }
        match fetch(&self.gcloud_bin) {
            Ok(token) => Ok(self.store(token)),
            Err(e) => Err(e),
        }
    }

    /// A token to use by now: the kept one while it is good, else a new one from
    /// `fetch`. How long ago the kept one was fetched, the clock decides; without
    /// a token, or with one that never outlasts the margin, `fetch` is always
    /// asked.
    pub fn get<F: Fn(&String) -> Result<String, String>>(&mut self, fetch: &F) -> (r: Result<
        String,
        String,
    >)
        requires
            call_requires(*fetch, (&old(self).gcloud_bin,)),
        ensures
            exists|elapsed_ms: u64| #[trigger]
                served(*old(self), elapsed_ms, *fetch, *final(self), r),
    {
        let elapsed_ms: u64 = clock::millis_since(&self.fetched_at);
        self.get_after(elapsed_ms, fetch)
    }

    /// Keeps a token that was fetched just now, and hands it on.
    pub fn store(&mut self, token: String) -> (r: String)
        ensures
            r == token,
            final(self).token == Some(token),
            final(self).gcloud_bin == old(self).gcloud_bin,
            final(self).lifetime_ms == TOKEN_ASSUMED_LIFETIME_MS,
    {
        let copy: String = token.clone();
        self.token = Some(copy);
        self.fetched_at = clock::now();
        self.lifetime_ms = TOKEN_ASSUMED_LIFETIME_MS;
        token
    }

    /// Drops the token.
    pub fn invalidate(&mut self)
        ensures
            final(self).token is None,
            final(self).gcloud_bin == old(self).gcloud_bin,
            final(self).lifetime_ms == old(self).lifetime_ms,
            final(self).fetched_at == old(self).fetched_at,
    {
        self.token = None;
    }
}

/// What a cache `before` serves, `elapsed_ms` after its token was fetched, and what
/// becomes of it: a good token is handed out and the cache left alone; otherwise the
/// result is that of `fetch`, and a token among it is kept.
pub open spec fn served<F: Fn(&String) -> Result<String, String>>(
    before: TokenCache,
    elapsed_ms: u64,
    fetch: F,
    after: TokenCache,
    r: Result<String, String>,
) -> bool {
    if before.good_after(elapsed_ms) {
        r == Ok::<String, String>(before.token->0) && after == before
    } else {
        &&& call_ensures(fetch, (&before.gcloud_bin,), r)
        &&& match r {
            Ok(token) => {
                &&& after.token == Some(token)
                &&& after.gcloud_bin == before.gcloud_bin
                &&& after.lifetime_ms == TOKEN_ASSUMED_LIFETIME_MS
            },
            Err(_) => after == before,
        }
    }
}

/// A fetched token is served again, without another fetch, until shortly before it
/// expires.
pub proof fn fetched_tokens_are_reused<
    F: Fn(&String) -> Result<String, String>,
    G: Fn(&String) -> Result<String, String>,
>(
    before: TokenCache,
    first_ms: u64,
    fetch: F,
    between: TokenCache,
    token: String,
    later_ms: u64,
    fetch_later: G,
    after: TokenCache,
    r: Result<String, String>,
)
    requires
        !before.good_after(first_ms),
        served(before, first_ms, fetch, between, Ok(token)),
        later_ms + TOKEN_REFRESH_MARGIN_MS < TOKEN_ASSUMED_LIFETIME_MS,
        served(between, later_ms, fetch_later, after, r),
    ensures
        r == Ok::<String, String>(token),
        after == between,
{
}

/// The token that `gcloud auth print-access-token` printed, or why there is none.
pub fn access_token(gcloud_bin: &str, success: bool, stdout: &str, stderr: &str) -> (r: Result<
    String,
    String,
>)
    ensures
        if !success {
            r is Err && r->Err_0@ == "`"@ + gcloud_bin@ + " auth print-access-token` failed: "@
                + trimmed(stderr@)
        } else if trimmed(stdout@).len() == 0 {
            r is Err && r->Err_0@ == "`"@ + gcloud_bin@
                + " auth print-access-token` returned an empty token"@
        } else {
            r is Ok && r->Ok_0@ == trimmed(stdout@)
        },
{
    let mut e = String::from_str("`");
    e.append(gcloud_bin);
    if !success {
        e.append(" auth print-access-token` failed: ");
        e.append(trim(stderr));
        return Err(e);
    }
    let token: &str = trim(stdout);
    if token.is_empty() {
        e.append(" auth print-access-token` returned an empty token");
        return Err(e);
    }
    Ok(token.to_owned())
}

/// The address of a subscription.
pub open spec fn subscription_url(project: Seq<char>, subscription: Seq<char>) -> Seq<char> {
    "https://pubsub.googleapis.com/v1/projects/"@ + project + "/subscriptions/"@ + subscription
}

fn subscription_address(project: &str, subscription: &str) -> (r: String)
    ensures
        r@ == subscription_url(project@, subscription@),
{
    let mut r = String::from_str("https://pubsub.googleapis.com/v1/projects/");
    r.append(project);
    r.append("/subscriptions/");
    r.append(subscription);
    r
}

/// The address to pull from `subscription`.
pub fn pull_url(project: &str, subscription: &str) -> (r: String)
    ensures
        r@ == subscription_url(project@, subscription@) + ":pull"@,
{
    let mut r: String = subscription_address(project, subscription);
    r.append(":pull");
    r
}

/// The address to acknowledge messages of `subscription`.
pub fn ack_url(project: &str, subscription: &str) -> (r: String)
    ensures
        r@ == subscription_url(project@, subscription@) + ":acknowledge"@,
{
    let mut r: String = subscription_address(project, subscription);
    r.append(":acknowledge");
    r
}

/// The acknowledgement handle of an entry; empty where it has none.
pub open spec fn entry_ack(entry: JsonView) -> Seq<char> {
    match member(entry, "ackId"@) {
        Some(a) => match text_of(a) {
            Some(s) => s,
            None => Seq::empty(),
        },
        None => Seq::empty(),
    }
}

/// The body of an entry, if it has one that is text.
pub open spec fn entry_body(entry: JsonView) -> Option<Seq<char>> {
    let data = match member(entry, "message"@) {
        Some(m) => match member(m, "data"@) {
            Some(d) => text_of(d),
            None => None,
        },
        None => None,
    };
    match data {
        Some(s) => body_of(s),
        None => None,
    }
}

/// The bodies and handles of the entries that have a body, in order.
pub open spec fn entry_messages(entries: Seq<JsonView>) -> Seq<(Seq<char>, Seq<char>)>
    decreases entries.len(),
{
    if entries.len() == 0 {
        Seq::empty()
    } else {
        let front = entry_messages(entries.drop_last());
        match entry_body(entries.last()) {
            Some(body) => front.push((body, entry_ack(entries.last()))),
            None => front,
        }
    }
}

/// Whether an entry has a body but no handle, so that it could never be
/// acknowledged.
pub open spec fn unackable(entry: JsonView) -> bool {
    entry_body(entry) is Some && entry_ack(entry).len() == 0
}

/// Whether one of the entries could never be acknowledged.
pub open spec fn some_unackable(entries: Seq<JsonView>) -> bool {
    exists|i: int| 0 <= i < entries.len() && unackable(#[trigger] entries[i])
}

/// The bodies and handles of pulled messages.
pub open spec fn messages(v: Seq<NativePulledMessage>) -> Seq<(Seq<char>, Seq<char>)> {
    v.map_values(|m: NativePulledMessage| (m.data@, m.ack_id@))
}

fn ack_of(entry: &Json) -> (r: String)
    ensures
        r@ == entry_ack(entry@),
{
    match entry.get("ackId") {
        Some(a) => match a.as_str() {
            Some(s) => s.to_owned(),
            None => String::new(),
        },
        None => String::new(),
    }
}

fn body_in(entry: &Json) -> (r: Option<String>)
    ensures
        match r {
            Some(s) => entry_body(entry@) == Some(s@),
            None => entry_body(entry@) is None,
        },
{
    match entry.get("message") {
        Some(m) => match m.get("data") {
            Some(d) => match d.as_str() {
                Some(s) => message_body(s),
                None => None,
            },
            None => None,
        },
        None => None,
    }
}

/// The entries of a reply: none where it has no list of them.
pub open spec fn reply_entries(doc: JsonView) -> Option<Seq<JsonView>> {
    match member(doc, "receivedMessages"@) {
        Some(list) => items_of(list),
        None => None,
    }
}

/// Whether `r` is what a reply gives: its messages, or, where one has no handle, a
/// failure.
pub open spec fn reply_read(
    doc: JsonView,
    r: Result<Vec<NativePulledMessage>, String>,
) -> bool {
    match reply_entries(doc) {
        None => r is Ok && r->Ok_0@.len() == 0,
        Some(entries) => if some_unackable(entries) {
            r is Err && r->Err_0@ == "pull response: receivedMessage missing ackId"@
        } else {
            r is Ok && messages(r->Ok_0@) == entry_messages(entries)
        },
    }
}

/// The messages of a parsed reply. A message without a handle fails the pull.
pub fn received_messages(doc: &Json) -> (r: Result<Vec<NativePulledMessage>, String>)
    ensures
        reply_read(doc@, r),
        match reply_entries(doc@) {
            None => r is Ok && r->Ok_0@.len() == 0,
            Some(entries) => if some_unackable(entries) {
                r is Err && r->Err_0@ == "pull response: receivedMessage missing ackId"@
            } else {
                r is Ok && messages(r->Ok_0@) == entry_messages(entries)
            },
        },
{
    let mut r: Vec<NativePulledMessage> = Vec::new();
    assert(messages(r@) =~= Seq::<(Seq<char>, Seq<char>)>::empty());
    let list: &Json = match doc.get("receivedMessages") {
        Some(list) => list,
        None => {
            return Ok(r);
        },
    };
    let entries: &Vec<Json> = match list.as_array() {
        Some(entries) => entries,
        None => {
            return Ok(r);
        },
    };
    let ghost held = all_contents(entries@);
    let n: usize = entries.len();
    let mut i: usize = 0;
    assert(held.take(0) =~= Seq::<JsonView>::empty());
    while i < n
        invariant
            i <= n == entries@.len(),
            held == all_contents(entries@),
            reply_entries(doc@) == Some(held),
            messages(r@) == entry_messages(held.take(i as int)),
            forall|j: int| 0 <= j < i ==> !unackable(#[trigger] held[j]),
        decreases n - i,
    {
        let entry: &Json = &entries[i];
        assert(held[i as int] == entry@);
        assert(held.take(i + 1).drop_last() =~= held.take(i as int));
        assert(held.take(i + 1).last() == entry@);
        let ack_id: String = ack_of(entry);
        match body_in(entry) {
            Some(data) => {
                if ack_id.as_str().is_empty() {
                    assert(unackable(held[i as int]));
                    assert(some_unackable(held));
                    return Err(String::from_str("pull response: receivedMessage missing ackId"));
                }
                let ghost before = messages(r@);
                r.push(NativePulledMessage { data, ack_id });
                assert(messages(r@) =~= before.push((data@, ack_id@)));
            },
            None => {},
        }
        i = i + 1;
    }
    assert(held.take(n as int) =~= held);
    assert(!some_unackable(held));
    Ok(r)
}

/// The messages that the body of a reply holds.
pub fn parse_pull_response(body: &str) -> (r: Result<Vec<NativePulledMessage>, String>)
    ensures
        if trimmed(body@).len() == 0 || trimmed(body@) == "{}"@ {
            r is Ok && r->Ok_0@.len() == 0
        } else {
            match json_parsed(trimmed(body@)) {
                Err(e) => r is Err && r->Err_0@ == "pull response parse: "@ + e,
                Ok(doc) => match reply_entries(doc) {
                    None => r is Ok && r->Ok_0@.len() == 0,
                    Some(entries) => if some_unackable(entries) {
                        r is Err && r->Err_0@ == "pull response: receivedMessage missing ackId"@
                    } else {
                        r is Ok && messages(r->Ok_0@) == entry_messages(entries)
                    },
                },
            }
        },
        trimmed(body@).len() > 0 && trimmed(body@) != "{}"@ && json_parsed(trimmed(body@)) is Ok
            ==> reply_read(json_parsed(trimmed(body@))->Ok_0, r),
{
    let t: &str = trim(body);
    if t.is_empty() || same_text(t, "{}") {
        return Ok(Vec::new());
    }
    match parse_json(t) {
        Ok(doc) => received_messages(&doc),
        Err(e) => {
            let mut text = String::from_str("pull response parse: ");
            text.append(e.as_str());
            Err(text)
        },
    }
}

/// What the server made of a request.
#[derive(Debug, PartialEq, Eq)]
pub enum HttpReply {
    /// Success, with the body.
    Success(String),
    /// A status other than success, with the body.
    Status { code: u16, body: String },
    /// No reply at all.
    Transport(String),
}

/// What to do with a reply.
#[derive(Debug, PartialEq, Eq)]
pub enum HttpStep {
    /// Take this body.
    Done(String),
    /// Get a new token and ask once more.
    RefreshAndRetry,
    /// Give up.
    Fail(String),
}

/// The error for a refused request.
pub open spec fn refused_text(what: Seq<char>, subscription: Seq<char>, code: nat, body: Seq<char>) -> Seq<
    char,
> {
    "pubsub "@ + what + " "@ + subscription + " HTTP "@ + dec(code) + ": "@ + trimmed(body)
}

/// The error for a request that got no reply.
pub open spec fn unanswered_text(what: Seq<char>, subscription: Seq<char>, cause: Seq<char>) -> Seq<char> {
    "pubsub "@ + what + " "@ + subscription + " transport error: "@ + cause
}

/// Whether `step` is what to do with the reply to the request `what`: a first
/// refusal for want of authorisation is tried once more with a new token.
pub open spec fn answered_with(
    what: Seq<char>,
    subscription: Seq<char>,
    attempt: int,
    reply: HttpReply,
    step: HttpStep,
) -> bool {
    match reply {
        HttpReply::Success(body) => step == HttpStep::Done(body),
        HttpReply::Status { code, body } => if code == 401 && attempt == 0 {
            step == HttpStep::RefreshAndRetry
        } else {
            step matches HttpStep::Fail(e) && e@ == refused_text(
                what,
                subscription,
                code as nat,
                body@,
            )
        },
        HttpReply::Transport(cause) => step matches HttpStep::Fail(e) && e@ == unanswered_text(
            what,
            subscription,
            cause@,
        ),
    }
}

/// What to do with the reply to the request `what` (`pull` or `acknowledge`): a
/// first refusal for want of authorisation is tried once more with a new token.
pub fn on_reply(what: &str, subscription: &str, attempt: u32, reply: HttpReply) -> (r: HttpStep)
    ensures
        answered_with(what@, subscription@, attempt as int, reply, r),
{
    match reply {
        HttpReply::Success(body) => HttpStep::Done(body),
        HttpReply::Status { code, body } => {
            if code == 401 && attempt == 0 {
                return HttpStep::RefreshAndRetry;
            }
            let mut e = String::from_str("pubsub ");
            e.append(what);
            e.append(" ");
            e.append(subscription);
            e.append(" HTTP ");
            push_dec(&mut e, code as u64);
            e.append(": ");
            e.append(trim(body.as_str()));
            HttpStep::Fail(e)
        },
        HttpReply::Transport(cause) => {
            let mut e = String::from_str("pubsub ");
            e.append(what);
            e.append(" ");
            e.append(subscription);
            e.append(" transport error: ");
            e.append(cause.as_str());
            HttpStep::Fail(e)
        },
    }
}

/// A request is sent at most twice, whatever comes back, and the second time only
/// after the first was refused for want of authorisation. Attempts are counted from
/// 0, and another follows only where the step says so.
pub proof fn requests_are_sent_at_most_twice(
    what: Seq<char>,
    subscription: Seq<char>,
    replies: Seq<HttpReply>,
    steps: Seq<HttpStep>,
)
    requires
        replies.len() == steps.len(),
        forall|i: int|
            0 <= i < steps.len() ==> answered_with(
                what,
                subscription,
                i,
                replies[i],
                #[trigger] steps[i],
            ),
        forall|i: int| 0 <= i < steps.len() - 1 ==> #[trigger] steps[i] == HttpStep::RefreshAndRetry,
    ensures
        steps.len() <= 2,
        steps.len() == 2 ==> (replies[0] matches HttpReply::Status { code, .. } && code == 401),
        steps.len() == 2 ==> steps[1] != HttpStep::RefreshAndRetry,
{
    if steps.len() > 2 {
        assert(steps[1] == HttpStep::RefreshAndRetry);
    }
    if steps.len() == 2 {
        assert(steps[0] == HttpStep::RefreshAndRetry);
        assert(answered_with(what, subscription, 1, replies[1], steps[1]));
    }
}

/// The pulled tasks whose body could be read, in order, each with its handle.
/// The others are not acknowledged, so that they are delivered again.
pub open spec fn ackable_tasks(read: Seq<(Option<MergeTaskMessage>, String)>) -> Seq<AckableMergeTask>
    decreases read.len(),
{
    if read.len() == 0 {
        Seq::empty()
    } else {
        match read.last().0 {
            Some(task) => ackable_tasks(read.drop_last()).push(
                (AckableMergeTask { task, ack_id: read.last().1 }),
            ),
            None => ackable_tasks(read.drop_last()),
        }
    }
}

/// The pulled results whose body could be read, in order, each with its handle.
pub open spec fn ackable_results(read: Seq<(Option<MergeResultMessage>, String)>) -> Seq<
    AckableMergeResult,
>
    decreases read.len(),
{
    if read.len() == 0 {
        Seq::empty()
    } else {
        match read.last().0 {
            Some(result) => ackable_results(read.drop_last()).push(
                (AckableMergeResult { result, ack_id: read.last().1 }),
            ),
            None => ackable_results(read.drop_last()),
        }
    }
}

/// Keeps the pulled tasks whose body could be read.
pub fn pull_merge_tasks(read: Vec<(Option<MergeTaskMessage>, String)>) -> (r: Vec<AckableMergeTask>)
    ensures
        r@ == ackable_tasks(read@),
{
    let ghost all = read@;
    let mut rest = read;
    let mut r: Vec<AckableMergeTask> = Vec::new();
    let ghost mut done: int = 0;
    assert(all.take(0) =~= Seq::<(Option<MergeTaskMessage>, String)>::empty());
    while rest.len() > 0
        invariant
            0 <= done <= all.len(),
            rest@ == all.subrange(done, all.len() as int),
            r@ == ackable_tasks(all.take(done)),
        decreases rest@.len(),
    {
        let next: (Option<MergeTaskMessage>, String) = rest.remove(0);
        proof {
            assert(next == all[done]);
            assert(all.take(done + 1).drop_last() =~= all.take(done));
            assert(rest@ =~= all.subrange(done + 1, all.len() as int));
            done = done + 1;
        }
        match next.0 {
            Some(task) => {
                r.push(AckableMergeTask { task, ack_id: next.1 });
            },
            None => {},
        }
    }
    assert(all.take(done) =~= all);
    r
}

/// Keeps the pulled results whose body could be read.
pub fn pull_merge_results(read: Vec<(Option<MergeResultMessage>, String)>) -> (r: Vec<
    AckableMergeResult,
>)
    ensures
        r@ == ackable_results(read@),
{
    let ghost all = read@;
    let mut rest = read;
    let mut r: Vec<AckableMergeResult> = Vec::new();
    let ghost mut done: int = 0;
    assert(all.take(0) =~= Seq::<(Option<MergeResultMessage>, String)>::empty());
    while rest.len() > 0
        invariant
            0 <= done <= all.len(),
            rest@ == all.subrange(done, all.len() as int),
            r@ == ackable_results(all.take(done)),
        decreases rest@.len(),
    {
        let next: (Option<MergeResultMessage>, String) = rest.remove(0);
        proof {
            assert(next == all[done]);
            assert(all.take(done + 1).drop_last() =~= all.take(done));
            assert(rest@ =~= all.subrange(done + 1, all.len() as int));
            done = done + 1;
        }
        match next.0 {
            Some(result) => {
                r.push(AckableMergeResult { result, ack_id: next.1 });
            },
            None => {},
        }
    }
    assert(all.take(done) =~= all);
    r
}

/// The client's settings: the project, and how long the server may hold a pull.
#[derive(Debug)]
pub struct NativePubSub {
    project: String,
    pull_timeout_ms: u64,
}

impl NativePubSub {
    pub closed spec fn project_text(&self) -> Seq<char> {
        self.project@
    }

    pub closed spec fn hold_ms(&self) -> u64 {
        self.pull_timeout_ms
    }

    pub fn new(project: String, pull_timeout_ms: u64) -> (r: Self)
        ensures
            r.project_text() == project@,
            r.hold_ms() == pull_timeout_ms,
    {
        NativePubSub { project, pull_timeout_ms }
    }

    pub fn project(&self) -> (r: &str)
        ensures
            r@ == self.project_text(),
    {
        self.project.as_str()
    }

    /// How long the server may hold a pull.
    pub fn pull_timeout(&self) -> (r: u64)
        ensures
            r == self.hold_ms(),
    {
        self.pull_timeout_ms
    }

    /// How long the client waits for a reply: ten seconds longer than the server
    /// may hold it.
    pub fn http_timeout(&self) -> (r: u64)
        requires
            self.hold_ms() <= u64::MAX - 10_000,
        ensures
            r == self.hold_ms() + 10_000,
    {
        self.pull_timeout_ms + 10_000
    }

    /// The address to pull from `subscription`.
    pub fn pull(&self, subscription: &str) -> (r: String)
        ensures
            r@ == subscription_url(self.project_text(), subscription@) + ":pull"@,
    {
        pull_url(self.project.as_str(), subscription)
    }

    /// The address to acknowledge `ack_ids` at; none where there is nothing to
    /// acknowledge.
    pub fn acknowledge(&self, subscription: &str, ack_ids: &Vec<String>) -> (r: Option<String>)
        ensures
            if ack_ids@.len() == 0 {
                r is None
            } else {
                r is Some && r->0@ == subscription_url(self.project_text(), subscription@)
                    + ":acknowledge"@
            },
    {
        if ack_ids.len() == 0 {
            return None;
        }
        Some(ack_url(self.project.as_str(), subscription))
    }
}

/// Pulls add up: the messages of two lists of entries one after the other are those
/// of the first, and then those of the second.
pub proof fn native_pulls_add_up(a: Seq<JsonView>, b: Seq<JsonView>)
    ensures
        entry_messages(a + b) == entry_messages(a) + entry_messages(b),
        some_unackable(a + b) <==> some_unackable(a) || some_unackable(b),
    decreases b.len(),
{
    let all = a + b;
    if some_unackable(all) {
        let i = choose|i: int| 0 <= i < all.len() && unackable(#[trigger] all[i]);
        if i < a.len() {
            assert(unackable(a[i]));
        } else {
            assert(unackable(b[i - a.len()]));
        }
    }
    if some_unackable(a) {
        let i = choose|i: int| 0 <= i < a.len() && unackable(#[trigger] a[i]);
        assert(unackable(all[i]));
    }
    if some_unackable(b) {
        let i = choose|i: int| 0 <= i < b.len() && unackable(#[trigger] b[i]);
        assert(unackable(all[a.len() + i]));
    }
    if b.len() == 0 {
        assert(all =~= a);
        assert(entry_messages(all) =~= entry_messages(a) + entry_messages(b));
    } else {
        assert(all.drop_last() =~= a + b.drop_last());
        assert(all.last() == b.last());
        native_pulls_add_up(a, b.drop_last());
        assert(entry_messages(all) =~= entry_messages(a) + entry_messages(b));
    }
}

/// Whether `entry` is a received message with the handle `ack` and the text `data`.
pub open spec fn received(entry: JsonView, ack: Seq<char>, data: Seq<char>) -> bool {
    &&& has_one(entry, "ackId"@, JsonView::Text(ack))
    &&& exists|m: JsonView| #[trigger]
        has_one(entry, "message"@, m) && has_one(m, "data"@, JsonView::Text(data))
}

/// A received message gives its body with its own handle, so that it is the one that
/// is acknowledged.
pub proof fn a_received_message_keeps_its_handle(entry: JsonView, ack: Seq<char>, data: Seq<char>)
    requires
        received(entry, ack, data),
        body_of(data) is Some,
    ensures
        entry_messages(seq![entry]) == seq![(body_of(data)->0, ack)],
        some_unackable(seq![entry]) <==> ack.len() == 0,
{
    let m = choose|m: JsonView| #[trigger]
        has_one(entry, "message"@, m) && has_one(m, "data"@, JsonView::Text(data));
    members_are_found_by_name(entry, "ackId"@, JsonView::Text(ack));
    members_are_found_by_name(entry, "message"@, m);
    members_are_found_by_name(m, "data"@, JsonView::Text(data));
    let one = seq![entry];
    assert(one.drop_last() =~= Seq::<JsonView>::empty());
    assert(one.last() == entry);
    reveal_with_fuel(entry_messages, 2);
    assert(entry_messages(one) =~= seq![(body_of(data)->0, ack)]);
    assert(one[0] == entry);
}

/// Nothing that was published is lost, invented or put out of order, and every
/// message comes with its own handle.
pub proof fn native_pulls_give_what_was_published(
    entries: Seq<JsonView>,
    acks: Seq<Seq<char>>,
    data: Seq<Seq<char>>,
    sent: Seq<Seq<char>>,
)
    requires
        entries.len() == sent.len() == data.len() == acks.len(),
        forall|i: int|
            0 <= i < sent.len() ==> received(#[trigger] entries[i], acks[i], data[i])
                && acks[i].len() > 0 && encode_utf8(data[i]) == encoded(encode_utf8(sent[i])),
    ensures
        !some_unackable(entries),
        entry_messages(entries).len() == sent.len(),
        forall|i: int|
            0 <= i < sent.len() ==> #[trigger] entry_messages(entries)[i] == (sent[i], acks[i]),
    decreases sent.len(),
{
    if sent.len() > 0 {
        let n = sent.len() - 1;
        native_pulls_give_what_was_published(
            entries.drop_last(),
            acks.drop_last(),
            data.drop_last(),
            sent.drop_last(),
        );
        assert(received(entries[n], acks[n], data[n]));
        published_bodies_are_read_back(sent[n], data[n]);
        a_received_message_keeps_its_handle(entries[n], acks[n], data[n]);
        assert(entries =~= entries.drop_last() + seq![entries[n]]);
        native_pulls_add_up(entries.drop_last(), seq![entries[n]]);
    }
}

/// Keeping what could be read adds up, and a task or result that could be read is
/// kept with its own handle.
pub proof fn kept_messages_add_up(
    a: Seq<(Option<MergeTaskMessage>, String)>,
    b: Seq<(Option<MergeTaskMessage>, String)>,
    task: MergeTaskMessage,
    ack_id: String,
)
    ensures
        ackable_tasks(a + b) == ackable_tasks(a) + ackable_tasks(b),
        ackable_tasks(seq![(Some(task), ack_id)]) == seq![(AckableMergeTask { task, ack_id })],
        ackable_tasks(seq![(None::<MergeTaskMessage>, ack_id)]).len() == 0,
    decreases b.len(),
{
    let (one, none) = (seq![(Some(task), ack_id)], seq![(None::<MergeTaskMessage>, ack_id)]);
    assert(one.drop_last() =~= Seq::<(Option<MergeTaskMessage>, String)>::empty());
    assert(none.drop_last() =~= Seq::<(Option<MergeTaskMessage>, String)>::empty());
    reveal_with_fuel(ackable_tasks, 2);
    assert(ackable_tasks(one) =~= seq![(AckableMergeTask { task, ack_id })]);
    if b.len() == 0 {
        assert(a + b =~= a);
        assert(ackable_tasks(a + b) =~= ackable_tasks(a) + ackable_tasks(b));
    } else {
        assert((a + b).drop_last() =~= a + b.drop_last());
        assert((a + b).last() == b.last());
        kept_messages_add_up(a, b.drop_last(), task, ack_id);
        assert(ackable_tasks(a + b) =~= ackable_tasks(a) + ackable_tasks(b));
    }
}

/// Keeping what could be read of results adds up, and a result that could be read is
/// kept with its own handle.
pub proof fn kept_results_add_up(
    a: Seq<(Option<MergeResultMessage>, String)>,
    b: Seq<(Option<MergeResultMessage>, String)>,
    result: MergeResultMessage,
    ack_id: String,
)
    ensures
        ackable_results(a + b) == ackable_results(a) + ackable_results(b),
        ackable_results(seq![(Some(result), ack_id)]) == seq![
            (AckableMergeResult { result, ack_id }),
        ],
        ackable_results(seq![(None::<MergeResultMessage>, ack_id)]).len() == 0,
    decreases b.len(),
{
    let (one, none) = (seq![(Some(result), ack_id)], seq![(None::<MergeResultMessage>, ack_id)]);
    assert(one.drop_last() =~= Seq::<(Option<MergeResultMessage>, String)>::empty());
    assert(none.drop_last() =~= Seq::<(Option<MergeResultMessage>, String)>::empty());
    reveal_with_fuel(ackable_results, 2);
    assert(ackable_results(one) =~= seq![(AckableMergeResult { result, ack_id })]);
    if b.len() == 0 {
        assert(a + b =~= a);
        assert(ackable_results(a + b) =~= ackable_results(a) + ackable_results(b));
    } else {
        assert((a + b).drop_last() =~= a + b.drop_last());
        assert((a + b).last() == b.last());
        kept_results_add_up(a, b.drop_last(), result, ack_id);
        assert(ackable_results(a + b) =~= ackable_results(a) + ackable_results(b));
    }
}

/// A token is served without asking for another only while it has five minutes left
/// of its fifty; after that, and where there is none, what `fetch` gives is served.
pub proof fn old_tokens_are_replaced<F: Fn(&String) -> Result<String, String>>(
    before: TokenCache,
    elapsed_ms: u64,
    fetch: F,
    after: TokenCache,
    r: Result<String, String>,
)
    requires
        served(before, elapsed_ms, fetch, after, r),
        before.lifetime_ms == 3_000_000,
    ensures
        before.token is None || elapsed_ms >= 2_700_000 ==> call_ensures(
            fetch,
            (&before.gcloud_bin,),
            r,
        ),
        before.token is Some && elapsed_ms < 2_700_000 ==> r == Ok::<String, String>(
            before.token->0,
        ) && after.token == before.token,
        r matches Ok(token) ==> after.token == Some(token),
        r is Err ==> after.token == before.token,
        after.gcloud_bin == before.gcloud_bin,
        after.lifetime_ms == 3_000_000,
{
}

/// The messages of a reply are those of its list of received messages, and a reply
/// without that list has none.
pub proof fn replies_hold_what_was_received(doc: JsonView, entries: Seq<JsonView>)
    ensures
        has_one(doc, "receivedMessages"@, JsonView::Array(entries)) ==> reply_entries(doc) == Some(
            entries,
        ),
        has_none(doc, "receivedMessages"@) ==> reply_entries(doc) is None,
{
    members_are_found_by_name(doc, "receivedMessages"@, JsonView::Array(entries));
}

/// A reply whose list holds published bodies, each with its handle, gives exactly these
/// bodies, each with its own handle and in their order.
pub proof fn replies_give_what_was_published(
    doc: JsonView,
    entries: Seq<JsonView>,
    acks: Seq<Seq<char>>,
    data: Seq<Seq<char>>,
    sent: Seq<Seq<char>>,
    r: Result<Vec<NativePulledMessage>, String>,
)
    requires
        reply_read(doc, r),
        has_one(doc, "receivedMessages"@, JsonView::Array(entries)),
        entries.len() == sent.len() == data.len() == acks.len(),
        forall|i: int|
            0 <= i < sent.len() ==> received(#[trigger] entries[i], acks[i], data[i])
                && acks[i].len() > 0 && encode_utf8(data[i]) == encoded(encode_utf8(sent[i])),
    ensures
        r is Ok,
        r->Ok_0@.len() == sent.len(),
        forall|i: int|
            0 <= i < sent.len() ==> (#[trigger] r->Ok_0@[i]).data@ == sent[i] && r->Ok_0@[i].ack_id@
                == acks[i],
{
    replies_hold_what_was_received(doc, entries);
    native_pulls_give_what_was_published(entries, acks, data, sent);
    let got = r->Ok_0@;
    assert(messages(got).len() == got.len());
    assert forall|i: int| 0 <= i < sent.len() implies (#[trigger] got[i]).data@ == sent[i]
        && got[i].ack_id@ == acks[i] by {
        assert(messages(got)[i] == (got[i].data@, got[i].ack_id@));
    }
}

/// An old token costs one refusal and no more: the request that is refused first and
/// answered then gives that answer, and one that is refused twice fails.
pub proof fn refused_requests_are_tried_once_more(
    what: Seq<char>,
    subscription: Seq<char>,
    refusal: String,
    second: HttpReply,
    steps: (HttpStep, HttpStep),
)
    requires
        answered_with(
            what,
            subscription,
            0,
            (HttpReply::Status { code: 401, body: refusal }),
            steps.0,
        ),
        answered_with(what, subscription, 1, second, steps.1),
    ensures
        steps.0 == HttpStep::RefreshAndRetry,
        second matches HttpReply::Success(body) ==> steps.1 == HttpStep::Done(body),
        !(second is Success) ==> steps.1 is Fail,
{
}

} // verus!
