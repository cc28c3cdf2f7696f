//! The message bus as the `gcloud pubsub` command line offers it: argument
//! lists, message bodies, and what a pull gives back.

use crate::conductor::base64::{base64_decode, decoded, decoding_inverts_encoding, encoded};
use crate::conductor::json::{
    all_contents, has_none, has_one, items_of, json_parsed, member, members_are_found_by_name,
    parse_json, text_of, Json, JsonView,
};
use crate::conductor::queue::BlockJob;
use crate::conductor::storage::texts;
use crate::text::{dec, push_dec, same_text, string_from_utf8, trim, trimmed};
use vstd::prelude::*;
use vstd::string::*;
use vstd::utf8::*;

verus! {

/// A block to prove, as a message.
#[derive(Debug, Clone, Copy, PartialEq, Eq, Structural)]
pub struct BlockMessage {
    pub height: u64,
    pub tx_count: u64,
}

impl From<BlockJob> for BlockMessage {
    fn from(j: BlockJob) -> (r: Self) {
        BlockMessage { height: j.height, tx_count: j.tx_count }
    }
}

impl vstd::std_specs::convert::FromSpecImpl<BlockJob> for BlockMessage {
    open spec fn obeys_from_spec() -> bool {
        true
    }

    open spec fn from_spec(j: BlockJob) -> Self {
        BlockMessage { height: j.height, tx_count: j.tx_count }
    }
}

impl From<BlockMessage> for BlockJob {
    fn from(m: BlockMessage) -> (r: Self) {
        BlockJob::new(m.height, m.tx_count)
    }
}

impl vstd::std_specs::convert::FromSpecImpl<BlockMessage> for BlockJob {
    open spec fn obeys_from_spec() -> bool {
        true
    }

    open spec fn from_spec(m: BlockMessage) -> Self {
        BlockJob { height: m.height, tx_count: m.tx_count }
    }
}

/// Turning a job into a message and back loses nothing.
pub proof fn block_messages_are_lossless(j: BlockJob, m: BlockMessage)
    ensures
        <BlockJob as vstd::std_specs::convert::FromSpec<BlockMessage>>::from_spec(
            <BlockMessage as vstd::std_specs::convert::FromSpec<BlockJob>>::from_spec(j),
        ) == j,
        <BlockMessage as vstd::std_specs::convert::FromSpec<BlockJob>>::from_spec(
            <BlockJob as vstd::std_specs::convert::FromSpec<BlockMessage>>::from_spec(m),
        ) == m,
{
}

/// A chunk to prove, as a message: a reference, never the witness itself.
#[derive(Debug, Clone, Copy, PartialEq, Eq, Structural)]
pub struct ChunkMessage {
    pub height: u64,
    pub witness_index: u64,
    pub tx_count: u64,
}

impl ChunkMessage {
    pub fn new(height: u64, witness_index: u64, tx_count: u64) -> (r: Self)
        ensures
            r == (ChunkMessage { height, witness_index, tx_count }),
    {
        ChunkMessage { height, witness_index, tx_count }
    }
}

/// What a cell reports of a chunk.
#[derive(Debug, Clone, PartialEq, Eq)]
pub struct ChunkResultMessage {
    pub height: u64,
    pub witness_index: u64,
    pub prove_ms: u64,
    /// None where the chunk did not go through the witness plane.
    pub witness_fetch_ms: Option<u64>,
    pub ok: bool,
    /// Who reports.
    pub cell: String,
}

/// A merge to prove, as a message.
#[derive(Debug, Clone, PartialEq, Eq)]
pub struct MergeTaskMessage {
    pub height: u64,
    pub level: u64,
    pub index: u64,
    pub left_key: String,
    pub right_key: String,
    pub left_is_merge: bool,
    pub right_is_merge: bool,
}

/// What a worker reports of a merge.
#[derive(Debug, Clone, PartialEq, Eq)]
pub struct MergeResultMessage {
    pub height: u64,
    pub level: u64,
    pub index: u64,
    pub ok: bool,
    pub cell: String,
    pub proof_object: Option<String>,
    pub prove_ms: Option<u64>,
}

/// The project, topics and subscriptions of the bus.
#[derive(Debug, Clone)]
pub struct PubSubConfig {
    pub project: String,
    /// Blocks, to the coordinators.
    pub dispatch_topic: String,
    pub dispatch_subscription: String,
    /// Chunks, to the cells.
    pub chunk_topic: String,
    pub chunk_subscription: String,
    /// Results, back to the coordinator.
    pub results_topic: String,
    pub results_subscription: String,
    /// The `gcloud` program.
    pub gcloud_bin: String,
}

/// The arguments that pull at most `limit` messages.
pub open spec fn pull_args(cfg: PubSubConfig, subscription: Seq<char>, limit: nat) -> Seq<Seq<char>> {
    seq![
        "pubsub"@,
        "subscriptions"@,
        "pull"@,
        subscription,
        "--project="@ + cfg.project@,
        "--limit="@ + dec(limit),
        "--auto-ack"@,
        "--format=json"@,
    ]
}

/// The arguments that publish `body`.
pub open spec fn publish_args(cfg: PubSubConfig, topic: Seq<char>, body: Seq<char>) -> Seq<
    Seq<char>,
> {
    seq![
        "pubsub"@,
        "topics"@,
        "publish"@,
        topic,
        "--project="@ + cfg.project@,
        "--message="@ + body,
    ]
}

impl PubSubConfig {
    /// The arguments that pull at most `limit` messages from `subscription`.
    pub fn pull_argv(&self, subscription: &str, limit: u32) -> (r: Vec<String>)
        ensures
            texts(r@) == pull_args(*self, subscription@, limit as nat),
    {
        let mut project = String::from_str("--project=");
        project.append(self.project.as_str());
        let mut at_most = String::from_str("--limit=");
        push_dec(&mut at_most, limit as u64);
        let mut r: Vec<String> = Vec::new();
        r.push(String::from_str("pubsub"));
        r.push(String::from_str("subscriptions"));
        r.push(String::from_str("pull"));
        r.push(subscription.to_owned());
        r.push(project);
        r.push(at_most);
        r.push(String::from_str("--auto-ack"));
        r.push(String::from_str("--format=json"));
        assert(texts(r@) =~= pull_args(*self, subscription@, limit as nat));
        r
    }

    /// The arguments that publish `body` to `topic`.
    pub fn publish_argv(&self, topic: &str, body: &str) -> (r: Vec<String>)
        ensures
            texts(r@) == publish_args(*self, topic@, body@),
    {
        let mut project = String::from_str("--project=");
        project.append(self.project.as_str());
        let mut message = String::from_str("--message=");
        message.append(body);
        let mut r: Vec<String> = Vec::new();
        r.push(String::from_str("pubsub"));
        r.push(String::from_str("topics"));
        r.push(String::from_str("publish"));
        r.push(topic.to_owned());
        r.push(project);
        r.push(message);
        assert(texts(r@) =~= publish_args(*self, topic@, body@));
        r
    }
}

/// The body of a pulled message.
#[derive(Debug, Clone, PartialEq, Eq)]
pub struct PulledMessage {
    pub data: String,
}

/// The body that a message's data field stands for: what its base64 decodes to,
/// or the field itself where it is no base64. None where the decoded bytes are
/// no text.
pub open spec fn body_of(data: Seq<char>) -> Option<Seq<char>> {
    match decoded(encode_utf8(data)) {
        Some(bytes) => if valid_utf8(bytes) {
            Some(decode_utf8(bytes))
        } else {
            None
        },
        None => Some(data),
    }
}

/// The body that a message's data field stands for.
pub fn message_body(data: &str) -> (r: Option<String>)
    ensures
        match r {
            Some(s) => body_of(data@) == Some(s@),
            None => body_of(data@) is None,
        },
{
    match base64_decode(data) {
        Some(bytes) => string_from_utf8(bytes),
        None => Some(data.to_owned()),
    }
}

/// A body that was published in base64 is read back as it was written.
pub proof fn published_bodies_are_read_back(body: Seq<char>, data: Seq<char>)
    requires
        encode_utf8(data) == encoded(encode_utf8(body)),
    ensures
        body_of(data) == Some(body),
{
    decoding_inverts_encoding(encode_utf8(body));
    encode_utf8_valid_utf8(body);
    encode_utf8_decode_utf8(body);
}

/// The data field of a pulled entry: that of its `message`, or else its own.
pub open spec fn entry_data(entry: JsonView) -> Option<Seq<char>> {
    let nested = match member(entry, "message"@) {
        Some(m) => member(m, "data"@),
        None => None,
    };
    let data = match nested {
        Some(d) => Some(d),
        None => member(entry, "data"@),
    };
    match data {
        Some(d) => text_of(d),
        None => None,
    }
}

/// The bodies of the entries that have one, in order.
pub open spec fn entry_bodies(entries: Seq<JsonView>) -> Seq<Seq<char>>
    decreases entries.len(),
{
    if entries.len() == 0 {
        Seq::empty()
    } else {
        let front = entry_bodies(entries.drop_last());
        match entry_data(entries.last()) {
            Some(data) => match body_of(data) {
                Some(body) => front.push(body),
                None => front,
            },
            None => front,
        }
    }
}

/// The bodies of pulled messages.
pub open spec fn bodies(v: Seq<PulledMessage>) -> Seq<Seq<char>> {
    v.map_values(|m: PulledMessage| m.data@)
}

/// The bodies that a pulled document gives: those of its entries, none where it is no
/// list.
pub open spec fn pulled_bodies(doc: JsonView) -> Seq<Seq<char>> {
    match items_of(doc) {
        Some(entries) => entry_bodies(entries),
        None => Seq::empty(),
    }
}

fn data_of(entry: &Json) -> (r: Option<&str>)
    ensures
        match r {
            Some(s) => entry_data(entry@) == Some(s@),
            None => entry_data(entry@) is None,
        },
{
    let nested: Option<&Json> = match entry.get("message") {
        Some(m) => m.get("data"),
        None => None,
    };
    let data: Option<&Json> = match nested {
        Some(d) => Some(d),
        None => entry.get("data"),
    };
    match data {
        Some(d) => d.as_str(),
        None => None,
    }
}

/// The messages of a parsed pull: one for each entry of an array that has a
/// body. Anything but an array holds none.
pub fn pulled_messages(doc: &Json) -> (r: Vec<PulledMessage>)
    ensures
        bodies(r@) == pulled_bodies(doc@),
        bodies(r@) == match items_of(doc@) {
            Some(entries) => entry_bodies(entries),
            None => Seq::<Seq<char>>::empty(),
        },
{
    let mut r: Vec<PulledMessage> = Vec::new();
    assert(bodies(r@) =~= Seq::<Seq<char>>::empty());
    match doc.as_array() {
        Some(entries) => {
            let ghost held = all_contents(entries@);
            let n: usize = entries.len();
            let mut i: usize = 0;
            assert(held.take(0) =~= Seq::<JsonView>::empty());
            while i < n
                invariant
                    i <= n == entries@.len(),
                    held == all_contents(entries@),
                    bodies(r@) == entry_bodies(held.take(i as int)),
                decreases n - i,
            {
                assert(held.take(i + 1).drop_last() =~= held.take(i as int));
                assert(held.take(i + 1).last() == entries@[i as int]@);
                match data_of(&entries[i]) {
                    Some(data) => match message_body(data) {
                        Some(body) => {
                            let ghost before = bodies(r@);
                            r.push(PulledMessage { data: body });
                            assert(bodies(r@) =~= before.push(body@));
                        },
                        None => {},
                    },
                    None => {},
                }
                i = i + 1;
            }
            assert(held.take(n as int) =~= held);
        },
        None => {},
    }
    r
}

/// Whether the output of a pull says by itself that nothing came.
pub open spec fn empty_pull(stdout: Seq<char>) -> bool {
    let t = trimmed(stdout);
    t.len() == 0 || t == "[]"@ || t == "null"@
}

/// The messages that the output of a pull holds.
pub fn parse_pull_json(stdout: &str) -> (r: Result<Vec<PulledMessage>, String>)
    ensures
        if empty_pull(stdout@) {
            r is Ok && r->Ok_0@.len() == 0
        } else {
            match json_parsed(trimmed(stdout@)) {
                Ok(doc) => r is Ok && bodies(r->Ok_0@) == match items_of(doc) {
                    Some(entries) => entry_bodies(entries),
                    None => Seq::<Seq<char>>::empty(),
                },
                Err(e) => r is Err && r->Err_0@ == "pull json parse: "@ + e,
            }
        },
        r matches Ok(pulled) ==> bodies(pulled@) == if empty_pull(stdout@) {
            Seq::<Seq<char>>::empty()
        } else {
            pulled_bodies(json_parsed(trimmed(stdout@))->Ok_0)
        },
{
    let t: &str = trim(stdout);
    if t.is_empty() || same_text(t, "[]") || same_text(t, "null") {
        return Ok(Vec::new());
    }
    match parse_json(t) {
        Ok(doc) => Ok(pulled_messages(&doc)),
        Err(e) => {
            let mut text = String::from_str("pull json parse: ");
            text.append(e.as_str());
            Err(text)
        },
    }
}

/// The bus, driven by the command line. Each call says which command to run; the
/// output goes back to `published` and `pulled`.
#[derive(Debug, Clone)]
pub struct GcloudPubSub {
    cfg: PubSubConfig,
}

impl GcloudPubSub {
    pub closed spec fn cfg(&self) -> PubSubConfig {
        self.cfg
    }

    pub fn new(cfg: PubSubConfig) -> (r: Self)
        ensures
            r.cfg() == cfg,
    {
        GcloudPubSub { cfg }
    }

    pub fn config(&self) -> (r: &PubSubConfig)
        ensures
            *r == self.cfg(),
    {
        &self.cfg
    }

    /// The command that publishes `body` to `topic`.
    pub fn publish(&self, topic: &str, body: &str) -> (r: Vec<String>)
        ensures
            texts(r@) == publish_args(self.cfg(), topic@, body@),
    {
        self.cfg.publish_argv(topic, body)
    }

    /// What publishing to `topic` came to: the message id, or the command's
    /// complaint.
    pub fn published(topic: &str, success: bool, stdout: &str, stderr: &str) -> (r: Result<
        String,
        String,
    >)
        ensures
            match r {
                Ok(id) => success && id@ == trimmed(stdout@),
                Err(e) => !success && e@ == "gcloud publish to "@ + topic@ + " failed: "@ + trimmed(
                    stderr@,
                ),
            },
    {
        if !success {
            let mut e = String::from_str("gcloud publish to ");
            e.append(topic);
            e.append(" failed: ");
            e.append(trim(stderr));
            return Err(e);
        }
        Ok(trim(stdout).to_owned())
    }

    /// The command that pulls at most `limit` messages from `subscription`.
    pub fn pull(&self, subscription: &str, limit: u32) -> (r: Vec<String>)
        ensures
            texts(r@) == pull_args(self.cfg(), subscription@, limit as nat),
    {
        self.cfg.pull_argv(subscription, limit)
    }

    /// What pulling from `subscription` came to: the messages, or the command's
    /// complaint.
    pub fn pulled(subscription: &str, success: bool, stdout: &str, stderr: &str) -> (r: Result<
        Vec<PulledMessage>,
        String,
    >)
        ensures
            if !success {
                r is Err && r->Err_0@ == "gcloud pull from "@ + subscription@ + " failed: "@
                    + trimmed(stderr@)
            } else if empty_pull(stdout@) {
                r is Ok && r->Ok_0@.len() == 0
            } else {
                match json_parsed(trimmed(stdout@)) {
                    Ok(doc) => r is Ok && bodies(r->Ok_0@) == match items_of(doc) {
                        Some(entries) => entry_bodies(entries),
                        None => Seq::<Seq<char>>::empty(),
                    },
                    Err(e) => r is Err && r->Err_0@ == "pull json parse: "@ + e,
                }
            },
    {
        if !success {
            let mut e = String::from_str("gcloud pull from ");
            e.append(subscription);
            e.append(" failed: ");
            e.append(trim(stderr));
            return Err(e);
        }
        parse_pull_json(stdout)
    }

    /// The command that publishes a block message.
    pub fn publish_block(&self, body: &str) -> (r: Vec<String>)
        ensures
            texts(r@) == publish_args(self.cfg(), self.cfg().dispatch_topic@, body@),
    {
        self.publish(self.cfg.dispatch_topic.as_str(), body)
    }

    /// The command that publishes a chunk message.
    pub fn publish_chunk(&self, body: &str) -> (r: Vec<String>)
        ensures
            texts(r@) == publish_args(self.cfg(), self.cfg().chunk_topic@, body@),
    {
        self.publish(self.cfg.chunk_topic.as_str(), body)
    }

    /// The command that publishes a chunk result.
    pub fn publish_result(&self, body: &str) -> (r: Vec<String>)
        ensures
            texts(r@) == publish_args(self.cfg(), self.cfg().results_topic@, body@),
    {
        self.publish(self.cfg.results_topic.as_str(), body)
    }

    /// The command that pulls one block.
    pub fn pull_block(&self) -> (r: Vec<String>)
        ensures
            texts(r@) == pull_args(self.cfg(), self.cfg().dispatch_subscription@, 1),
    {
        self.pull(self.cfg.dispatch_subscription.as_str(), 1)
    }

    /// The command that pulls at most `limit` chunks.
    pub fn pull_chunks(&self, limit: u32) -> (r: Vec<String>)
        ensures
            texts(r@) == pull_args(self.cfg(), self.cfg().chunk_subscription@, limit as nat),
    {
        self.pull(self.cfg.chunk_subscription.as_str(), limit)
    }

    /// The command that pulls at most `limit` results.
    pub fn pull_results(&self, limit: u32) -> (r: Vec<String>)
        ensures
            texts(r@) == pull_args(self.cfg(), self.cfg().results_subscription@, limit as nat),
    {
        self.pull(self.cfg.results_subscription.as_str(), limit)
    }
}

/// The messages that could be read, in order.
pub open spec fn readable<T>(read: Seq<Option<T>>) -> Seq<T>
    decreases read.len(),
{
    if read.len() == 0 {
        Seq::empty()
    } else {
        match read.last() {
            Some(t) => readable(read.drop_last()).push(t),
            None => readable(read.drop_last()),
        }
    }
}

/// Keeps the messages that could be read: a body that is no message is skipped.
pub fn keep_readable<T>(read: Vec<Option<T>>) -> (r: Vec<T>)
    ensures
        r@ == readable(read@),
{
    let ghost all = read@;
    let n: usize = read.len();
    let mut rest = read;
    let mut r: Vec<T> = Vec::new();
    let ghost mut done: int = 0;
    assert(all.take(0) =~= Seq::<Option<T>>::empty());
    while rest.len() > 0
        invariant
            0 <= done <= all.len(),
            rest@ == all.subrange(done, all.len() as int),
            r@ == readable(all.take(done)),
        decreases rest@.len(),
    {
        let next: Option<T> = rest.remove(0);
        proof {
            assert(next == all[done]);
            assert(all.take(done + 1).drop_last() =~= all.take(done));
            assert(rest@ =~= all.subrange(done + 1, all.len() as int));
            done = done + 1;
        }
        match next {
            Some(t) => {
                r.push(t);
            },
            None => {},
        }
    }
    assert(all.take(done) =~= all);
    r
}

/// The block of a pull: that of the first message, if it could be read.
pub fn first_readable<T>(read: Vec<Option<T>>) -> (r: Option<T>)
    ensures
        r == if read@.len() == 0 {
            None
        } else {
            read@[0]
        },
{
    let mut rest = read;
    if rest.len() == 0 {
        None
    } else {
        rest.remove(0)
    }
}

/// Pulls add up: the messages of two lists of entries one after the other are those
/// of the first, and then those of the second.
pub proof fn pulls_add_up(a: Seq<JsonView>, b: Seq<JsonView>)
    ensures
        entry_bodies(a + b) == entry_bodies(a) + entry_bodies(b),
    decreases b.len(),
{
    if b.len() == 0 {
        assert(a + b =~= a);
        assert(entry_bodies(a + b) =~= entry_bodies(a) + entry_bodies(b));
    } else {
        assert((a + b).drop_last() =~= a + b.drop_last());
        assert((a + b).last() == b.last());
        pulls_add_up(a, b.drop_last());
        assert(entry_bodies(a + b) =~= entry_bodies(a) + entry_bodies(b));
    }
}

/// Whether `entry` carries the text `data`: in its `message`, or, where that has
/// none, by itself.
pub open spec fn carries(entry: JsonView, data: Seq<char>) -> bool {
    ||| exists|m: JsonView| #[trigger]
        has_one(entry, "message"@, m) && has_one(m, "data"@, JsonView::Text(data))
    ||| has_one(entry, "data"@, JsonView::Text(data)) && has_none(entry, "message"@)
}

/// Whether `entry` carries nothing.
pub open spec fn carries_nothing(entry: JsonView) -> bool {
    has_none(entry, "data"@) && (has_none(entry, "message"@) || exists|m: JsonView| #[trigger]
        has_one(entry, "message"@, m) && has_none(m, "data"@))
}

/// A pulled entry gives the one message whose body it carries, and an entry that
/// carries nothing gives none.
pub proof fn an_entry_gives_its_body(entry: JsonView, data: Seq<char>)
    ensures
        carries(entry, data) && body_of(data) is Some ==> entry_bodies(seq![entry]) == seq![
            body_of(data)->0,
        ],
        carries(entry, data) && body_of(data) is None ==> entry_bodies(seq![entry]).len() == 0,
        carries_nothing(entry) ==> entry_bodies(seq![entry]).len() == 0,
{
    let one = seq![entry];
    assert(one.drop_last() =~= Seq::<JsonView>::empty());
    assert(entry_bodies(one.drop_last()) =~= Seq::<Seq<char>>::empty());
    assert(one.last() == entry);
    if carries(entry, data) {
        if exists|m: JsonView| #[trigger]
            has_one(entry, "message"@, m) && has_one(m, "data"@, JsonView::Text(data)) {
            let m = choose|m: JsonView| #[trigger]
                has_one(entry, "message"@, m) && has_one(m, "data"@, JsonView::Text(data));
            members_are_found_by_name(entry, "message"@, m);
            members_are_found_by_name(m, "data"@, JsonView::Text(data));
        } else {
            members_are_found_by_name(entry, "message"@, JsonView::Null);
            members_are_found_by_name(entry, "data"@, JsonView::Text(data));
        }
        assert(entry_data(entry) == Some(data));
        if body_of(data) is Some {
            assert(entry_bodies(one) =~= seq![body_of(data)->0]);
        }
    }
    if carries_nothing(entry) {
        members_are_found_by_name(entry, "data"@, JsonView::Null);
        members_are_found_by_name(entry, "message"@, JsonView::Null);
        if !has_none(entry, "message"@) {
            let m = choose|m: JsonView| #[trigger]
                has_one(entry, "message"@, m) && has_none(m, "data"@);
            members_are_found_by_name(entry, "message"@, m);
            members_are_found_by_name(m, "data"@, JsonView::Null);
        }
        assert(entry_data(entry) is None);
    }
}

/// Nothing that was published is lost, invented or put out of order: where every
/// entry of a pull carries a published body in base64, the pull gives exactly these
/// bodies.
pub proof fn pulls_give_what_was_published(
    entries: Seq<JsonView>,
    data: Seq<Seq<char>>,
    sent: Seq<Seq<char>>,
)
    requires
        entries.len() == sent.len() == data.len(),
        forall|i: int|
            0 <= i < sent.len() ==> carries(#[trigger] entries[i], data[i]) && encode_utf8(data[i])
                == encoded(encode_utf8(sent[i])),
    ensures
        entry_bodies(entries) == sent,
    decreases sent.len(),
{
    if sent.len() == 0 {
        assert(entry_bodies(entries) =~= sent);
    } else {
        let n = sent.len() - 1;
        pulls_give_what_was_published(entries.drop_last(), data.drop_last(), sent.drop_last());
        assert(carries(entries[n], data[n]));
        published_bodies_are_read_back(sent[n], data[n]);
        an_entry_gives_its_body(entries[n], data[n]);
        assert(entries =~= entries.drop_last() + seq![entries[n]]);
        pulls_add_up(entries.drop_last(), seq![entries[n]]);
        assert(sent =~= sent.drop_last() + seq![sent[n]]);
    }
}

/// Reading adds up: what can be read of two lists one after the other is what can be
/// read of the first, and then of the second. A message that can be read is kept.
pub proof fn readings_add_up<T>(a: Seq<Option<T>>, b: Seq<Option<T>>, t: T)
    ensures
        readable(a + b) == readable(a) + readable(b),
        readable(seq![Some(t)]) == seq![t],
        readable(seq![None::<T>]).len() == 0,
    decreases b.len(),
{
    assert(seq![Some(t)].drop_last() =~= Seq::<Option<T>>::empty());
    assert(seq![None::<T>].drop_last() =~= Seq::<Option<T>>::empty());
    reveal_with_fuel(readable, 2);
    assert(readable(seq![Some(t)]) =~= seq![t]);
    if b.len() == 0 {
        assert(a + b =~= a);
        assert(readable(a + b) =~= readable(a) + readable(b));
    } else {
        assert((a + b).drop_last() =~= a + b.drop_last());
        assert((a + b).last() == b.last());
        readings_add_up(a, b.drop_last(), t);
        assert(readable(a + b) =~= readable(a) + readable(b));
    }
}

/// A document gives the bodies of all its entries, in their order: a list with more
/// entries gives what the shorter one gave and then what these add, a list of published
/// bodies gives exactly these, and anything but a list gives nothing.
pub proof fn documents_give_what_was_published(
    a: Seq<JsonView>,
    b: Seq<JsonView>,
    data: Seq<Seq<char>>,
    sent: Seq<Seq<char>>,
    other: JsonView,
)
    requires
        b.len() == sent.len() == data.len(),
        forall|i: int|
            0 <= i < sent.len() ==> carries(#[trigger] b[i], data[i]) && encode_utf8(data[i])
                == encoded(encode_utf8(sent[i])),
        !(other is Array),
    ensures
        pulled_bodies(JsonView::Array(b)) == sent,
        pulled_bodies(JsonView::Array(a + b)) == pulled_bodies(JsonView::Array(a)) + sent,
        pulled_bodies(other).len() == 0,
{
    pulls_give_what_was_published(b, data, sent);
    pulls_add_up(a, b);
}

} // verus!
