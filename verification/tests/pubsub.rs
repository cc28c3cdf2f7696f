use bench::conductor::base64::base64_decode;
use bench::conductor::json::Json;
use bench::conductor::pubsub::{
    first_readable, keep_readable, message_body, parse_pull_json, pulled_messages, BlockMessage,
    ChunkMessage, GcloudPubSub, MergeResultMessage, MergeTaskMessage, PubSubConfig,
};
use bench::conductor::pubsub_native::{
    access_token, ack_url, on_reply, parse_pull_response, pull_merge_results, pull_merge_tasks,
    pull_url, received_messages, HttpReply, HttpStep, NativePubSub, TokenCache,
};
use bench::conductor::queue::BlockJob;

fn cfg() -> PubSubConfig {
    PubSubConfig {
        project: "kunal-scratch".into(),
        dispatch_topic: "disp-t".into(),
        dispatch_subscription: "disp-s".into(),
        chunk_topic: "chunk-t".into(),
        chunk_subscription: "chunk-s".into(),
        results_topic: "res-t".into(),
        results_subscription: "res-s".into(),
        gcloud_bin: "gcloud".into(),
    }
}

fn base64_encode(input: &[u8]) -> String {
    let table = b"ABCDEFGHIJKLMNOPQRSTUVWXYZabcdefghijklmnopqrstuvwxyz0123456789+/";
    let mut out = String::new();
    for chunk in input.chunks(3) {
        let b0 = chunk[0] as u32;
        let b1 = chunk.get(1).copied().unwrap_or(0) as u32;
        let b2 = chunk.get(2).copied().unwrap_or(0) as u32;
        let n = (b0 << 16) | (b1 << 8) | b2;
        out.push(table[((n >> 18) & 63) as usize] as char);
        out.push(table[((n >> 12) & 63) as usize] as char);
        if chunk.len() > 1 {
            out.push(table[((n >> 6) & 63) as usize] as char);
        } else {
            out.push('=');
        }
        if chunk.len() > 2 {
            out.push(table[(n & 63) as usize] as char);
        } else {
            out.push('=');
        }
    }
    out
}

#[test]
fn block_bridge_is_lossless() {
    let m = BlockMessage { height: 186_974_616, tx_count: 450 };
    let job: BlockJob = m.into();
    assert_eq!(job, BlockJob::new(186_974_616, 450));
    assert_eq!(BlockMessage::from(job), m);
}

#[test]
fn pull_argv_is_correct() {
    let c = cfg();
    let argv = c.pull_argv("chunk-s", 8);
    assert_eq!(argv[0], "pubsub");
    assert_eq!(argv[1], "subscriptions");
    assert_eq!(argv[2], "pull");
    assert_eq!(argv[3], "chunk-s");
    assert!(argv.contains(&"--project=kunal-scratch".to_string()));
    assert!(argv.contains(&"--limit=8".to_string()));
    assert!(argv.contains(&"--auto-ack".to_string()));
    assert!(argv.contains(&"--format=json".to_string()));
}

#[test]
fn publish_argv_is_correct() {
    let c = cfg();
    let body = r#"{"height":7,"witness_index":0,"tx_count":500}"#;
    let argv = c.publish_argv("chunk-t", body);
    assert_eq!(argv[0], "pubsub");
    assert_eq!(argv[1], "topics");
    assert_eq!(argv[2], "publish");
    assert_eq!(argv[3], "chunk-t");
    assert!(argv.contains(&format!("--message={body}")));
}

#[test]
fn base64_roundtrip_known_vectors() {
    assert_eq!(base64_decode("").unwrap(), b"");
    assert_eq!(base64_decode("Zg==").unwrap(), b"f");
    assert_eq!(base64_decode("Zm8=").unwrap(), b"fo");
    assert_eq!(base64_decode("Zm9v").unwrap(), b"foo");
    assert_eq!(base64_decode("Zm9vYg==").unwrap(), b"foob");
    assert_eq!(base64_decode("Zm9vYmE=").unwrap(), b"fooba");
    assert_eq!(base64_decode("Zm9vYmFy").unwrap(), b"foobar");
}

#[test]
fn base64_decoding_inverts_encoding() {
    for n in 0..40usize {
        let bytes: Vec<u8> = (0..n).map(|i| (i * 37 + n) as u8).collect();
        assert_eq!(base64_decode(&base64_encode(&bytes)).unwrap(), bytes);
    }
    assert!(base64_decode("Zm9v!").is_none());
}

#[test]
fn base64_padding_only_ends_the_text() {
    assert_eq!(base64_decode("Z g=\n="), Some(b"f".to_vec()));
    assert_eq!(base64_decode("===="), None);
    assert_eq!(base64_decode("Z==="), None);
    assert_eq!(base64_decode("=Zg="), None);
    assert_eq!(base64_decode("Zg=v"), None);
    assert_eq!(base64_decode("Zg==Zm9v"), None);
    assert_eq!(base64_decode("Zm8=Zg=="), None);
    assert_eq!(message_body("===="), Some("====".to_string()));
}

#[test]
fn parse_pull_json_decodes_block_message() {
    let body = r#"{"height":42,"tx_count":500}"#;
    let b64 = base64_encode(body.as_bytes());
    let stdout = format!(r#"[{{"ackId":"A1","message":{{"data":"{b64}"}}}}]"#);
    let pulled = parse_pull_json(&stdout).unwrap();
    assert_eq!(pulled.len(), 1);
    assert_eq!(pulled[0].data, body);
}

#[test]
fn parse_pull_json_empty_is_empty() {
    assert!(parse_pull_json("").unwrap().is_empty());
    assert!(parse_pull_json("[]").unwrap().is_empty());
    assert!(parse_pull_json("null").unwrap().is_empty());
}

#[test]
fn parse_pull_json_flattened_shape() {
    let body = r#"{"height":9,"witness_index":1,"tx_count":100}"#;
    let b64 = base64_encode(body.as_bytes());
    let stdout = format!(r#"[{{"data":"{b64}","ackId":"A2"}}]"#);
    let pulled = parse_pull_json(&stdout).unwrap();
    assert_eq!(pulled.len(), 1);
    assert_eq!(pulled[0].data, body);
}

#[test]
fn parse_pull_json_refuses_what_is_no_json() {
    assert!(parse_pull_json("[{").is_err());
}

#[test]
fn json_documents_are_read_by_name() {
    let doc = Json::Array(vec![Json::Object(vec![(
        "message".to_string(),
        Json::Object(vec![("data".to_string(), Json::Text(base64_encode(b"hi")))]),
    )])]);
    let pulled = pulled_messages(&doc);
    assert_eq!(pulled.len(), 1);
    assert_eq!(pulled[0].data, "hi");
    assert!(doc.get("message").is_none());
    assert_eq!(doc.as_array().unwrap().len(), 1);
    assert!(doc.as_str().is_none());
    assert_eq!(message_body("aGk="), Some("hi".to_string()));
    // What is no base64 is taken as it is; bytes that are no text are dropped.
    assert_eq!(message_body("{}"), Some("{}".to_string()));
    assert_eq!(message_body("/w=="), None);
}

#[test]
fn commands_go_where_the_configuration_says() {
    let ps = GcloudPubSub::new(cfg());
    assert_eq!(ps.config().project, "kunal-scratch");
    assert_eq!(ps.publish_block("b"), ps.publish("disp-t", "b"));
    assert_eq!(ps.publish_chunk("b"), ps.publish("chunk-t", "b"));
    assert_eq!(ps.publish_result("b"), ps.publish("res-t", "b"));
    assert_eq!(ps.pull_block(), ps.pull("disp-s", 1));
    assert_eq!(ps.pull_chunks(3), ps.pull("chunk-s", 3));
    assert_eq!(ps.pull_results(4), ps.pull("res-s", 4));
    assert_eq!(GcloudPubSub::published("t", true, " id-1\n", "").unwrap(), "id-1");
    assert!(GcloudPubSub::published("t", false, "", "denied").unwrap_err().contains("denied"));
    assert!(GcloudPubSub::pulled("s", false, "", "denied").is_err());
    assert!(GcloudPubSub::pulled("s", true, "[]", "").unwrap().is_empty());
}

#[test]
fn unreadable_messages_are_skipped() {
    assert_eq!(keep_readable(vec![Some(1), None, Some(3)]), vec![1, 3]);
    assert_eq!(first_readable(vec![Some(2), Some(3)]), Some(2));
    assert_eq!(first_readable(vec![None, Some(3)]), None);
    assert_eq!(first_readable(Vec::<Option<u8>>::new()), None);
    assert_eq!(ChunkMessage::new(9, 1, 100).witness_index, 1);
}

#[test]
fn pull_and_ack_urls() {
    assert_eq!(
        pull_url("kunal-scratch", "i203-merge-task-sub"),
        "https://pubsub.googleapis.com/v1/projects/kunal-scratch/subscriptions/i203-merge-task-sub:pull"
    );
    assert_eq!(
        ack_url("kunal-scratch", "i203-merge-result-sub"),
        "https://pubsub.googleapis.com/v1/projects/kunal-scratch/subscriptions/i203-merge-result-sub:acknowledge"
    );
}

#[test]
fn parse_pull_response_empty_variants() {
    assert!(parse_pull_response("").unwrap().is_empty());
    assert!(parse_pull_response("{}").unwrap().is_empty());
    assert!(parse_pull_response(r#"{"receivedMessages":[]}"#).unwrap().is_empty());
}

#[test]
fn parse_pull_response_decodes_merge_task_with_ack_id() {
    let task = r#"{"height":186974616,"level":1,"index":0,"left_key":"186974616/0","right_key":"186974616/1","left_is_merge":false,"right_is_merge":false}"#;
    let data = base64_encode(task.as_bytes());
    let body = format!(
        r#"{{"receivedMessages":[{{"ackId":"ACK-XYZ","message":{{"data":"{data}","messageId":"7"}}}}]}}"#
    );
    let pulled = parse_pull_response(&body).unwrap();
    assert_eq!(pulled.len(), 1);
    assert_eq!(pulled[0].ack_id, "ACK-XYZ");
    assert_eq!(pulled[0].data, task);
}

#[test]
fn parse_pull_response_multiple_messages_preserve_ack_ids() {
    let r0 = r#"{"height":100,"level":1,"index":0,"ok":true,"cell":"fold203-worker-1","proof_object":"100/m/1/0","prove_ms":519}"#;
    let r1 = r#"{"height":100,"level":1,"index":1,"ok":true,"cell":"fold203-worker-2","proof_object":"100/m/1/1","prove_ms":523}"#;
    let body = format!(
        r#"{{"receivedMessages":[
            {{"ackId":"A0","message":{{"data":"{}"}}}},
            {{"ackId":"A1","message":{{"data":"{}"}}}}
        ]}}"#,
        base64_encode(r0.as_bytes()),
        base64_encode(r1.as_bytes())
    );
    let pulled = parse_pull_response(&body).unwrap();
    assert_eq!(pulled.len(), 2);
    assert_eq!(pulled[0].ack_id, "A0");
    assert_eq!(pulled[1].ack_id, "A1");
    assert_eq!(pulled[0].data, r0);
    assert_eq!(pulled[1].data, r1);
}

#[test]
fn parse_pull_response_missing_ack_id_is_error() {
    let task = r#"{"height":7,"level":1,"index":0,"left_key":"7/0","right_key":"7/1","left_is_merge":false,"right_is_merge":false}"#;
    let data = base64_encode(task.as_bytes());
    let body = format!(r#"{{"receivedMessages":[{{"message":{{"data":"{data}"}}}}]}}"#);
    assert!(parse_pull_response(&body).is_err());
}

#[test]
fn received_messages_need_an_ack_id() {
    let message = Json::Object(vec![(
        "message".to_string(),
        Json::Object(vec![("data".to_string(), Json::Text("aGk=".to_string()))]),
    )]);
    let doc = Json::Object(vec![("receivedMessages".to_string(), Json::Array(vec![message]))]);
    assert!(received_messages(&doc).is_err());
}

#[test]
fn token_cache_freshness_logic() {
    let mut tc = TokenCache::new("gcloud".into());
    assert!(!tc.fresh());
    tc.token = Some("tok".into());
    tc.fetched_at = std::time::Instant::now();
    tc.lifetime_ms = 3_000_000;
    assert!(tc.fresh());
    assert!(!tc.fresh_after(3_000_000));
    tc.invalidate();
    assert!(!tc.fresh());
    assert_eq!(tc.store("new".to_string()), "new");
    assert!(tc.fresh());
}

#[test]
fn tokens_are_fetched_once_and_kept() {
    let mut tc = TokenCache::new("gcloud".into());
    let refused = |_: &String| Err("no login".to_string());
    assert_eq!(tc.get(&refused), Err("no login".to_string()));
    assert_eq!(tc.token, None);
    let fetched = |bin: &String| Ok(format!("{bin}-token"));
    assert_eq!(tc.get(&fetched), Ok("gcloud-token".to_string()));
    assert_eq!(tc.token, Some("gcloud-token".to_string()));
    assert_eq!(tc.get(&refused), Ok("gcloud-token".to_string()));
    tc.invalidate();
    assert_eq!(tc.get(&refused), Err("no login".to_string()));
}

#[test]
fn tokens_are_replaced_before_they_expire() {
    let mut tc = TokenCache::new("gcloud".into());
    tc.store("old".to_string());
    let fetched = |_: &String| Ok("new".to_string());
    assert_eq!(tc.get_after(2_699_999, &fetched), Ok("old".to_string()));
    let refused = |_: &String| Err("no login".to_string());
    assert_eq!(tc.get_after(2_700_000, &refused), Err("no login".to_string()));
    assert_eq!(tc.token, Some("old".to_string()));
    assert_eq!(tc.get_after(2_700_000, &fetched), Ok("new".to_string()));
    assert_eq!(tc.token, Some("new".to_string()));
}

#[test]
fn access_tokens_come_trimmed() {
    assert_eq!(access_token("gcloud", true, "tok\n", "").unwrap(), "tok");
    assert!(access_token("gcloud", true, " \n", "").is_err());
    assert!(access_token("gcloud", false, "tok", "not logged in").unwrap_err().contains("not logged in"));
}

#[test]
fn replies_are_retried_once() {
    assert_eq!(
        on_reply("pull", "s", 0, HttpReply::Success("{}".to_string())),
        HttpStep::Done("{}".to_string())
    );
    let denied = || HttpReply::Status { code: 401, body: " denied ".to_string() };
    assert_eq!(on_reply("pull", "s", 0, denied()), HttpStep::RefreshAndRetry);
    assert_eq!(
        on_reply("pull", "s", 1, denied()),
        HttpStep::Fail("pubsub pull s HTTP 401: denied".to_string())
    );
    assert_eq!(
        on_reply("acknowledge", "s", 0, HttpReply::Transport("reset".to_string())),
        HttpStep::Fail("pubsub acknowledge s transport error: reset".to_string())
    );
}

#[test]
fn merge_messages_keep_their_ack_ids() {
    let task = MergeTaskMessage {
        height: 1,
        level: 1,
        index: 0,
        left_key: "1/0".into(),
        right_key: "1/1".into(),
        left_is_merge: false,
        right_is_merge: false,
    };
    let tasks = pull_merge_tasks(vec![(None, "A0".to_string()), (Some(task), "A1".to_string())]);
    assert_eq!(tasks.len(), 1);
    assert_eq!(tasks[0].ack_id, "A1");
    assert_eq!(tasks[0].task.right_key, "1/1");
    let result = MergeResultMessage {
        height: 1,
        level: 1,
        index: 0,
        ok: true,
        cell: "c".into(),
        proof_object: None,
        prove_ms: None,
    };
    let results = pull_merge_results(vec![(Some(result), "B".to_string())]);
    assert_eq!(results[0].ack_id, "B");
}

#[test]
fn native_client_addresses() {
    let client = NativePubSub::new("p".to_string(), 1_000);
    assert_eq!(client.project(), "p");
    assert_eq!(client.pull("s"), pull_url("p", "s"));
    assert_eq!(client.acknowledge("s", &vec![]), None);
    assert_eq!(client.acknowledge("s", &vec!["A".to_string()]), Some(ack_url("p", "s")));
    assert!(client.http_timeout() >= client.pull_timeout());
}
