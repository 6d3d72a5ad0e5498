use load_balancer::context::{Context, LoadSlot, Mode, SelectError};
use load_balancer::fanout::{
    decimal, error_body, failure_message, is_success, rewrite_body, select_error_message, Action,
    Bootstrap, Event, Exchange, Failure, Phase, ERROR_STATUS,
};
use load_balancer::score::ScoreWeight;
use std::str::FromStr;

const PLAIN_TOKENIZER: &str = r#"{"version":"1.0","truncation":null,"padding":null,"added_tokens":[],"normalizer":null,"pre_tokenizer":{"type":"Whitespace"},"post_processor":null,"decoder":null,"model":{"type":"WordLevel","vocab":{"[UNK]":9},"unk_token":"[UNK]"}}"#;

fn balancer(prefill: &str, prefill_dp_size: usize) -> Context {
    Context::new(
        &vec![String::from(prefill)],
        &vec![10000],
        &vec![String::from("http://127.0.0.1:30001/")],
        tokenizers::Tokenizer::from_str(PLAIN_TOKENIZER).unwrap(),
        String::from("chatml"),
        ScoreWeight { task_queue: 4, num_of_cache_token: 256 },
        prefill_dp_size,
        1,
    )
}

fn exchange_for(ctx: &mut Context) -> Exchange {
    let pair = ctx.select_pair_at(&[9, 9, 9], 0).unwrap();
    ctx.open_exchange(&pair).unwrap().1
}

#[test]
fn prefill_failure_gate() {
    let mut ctx = balancer("http://127.0.0.1:30000/", 1);
    let mut exchange = exchange_for(&mut ctx);
    assert_eq!(ctx.outstanding(exchange.prefill_slot), Some(1));
    assert_eq!(ctx.outstanding(exchange.decode_slot), Some(1));
    let action = ctx.on_event(&mut exchange, Event::Heads { prefill_status: 503 });
    assert_eq!(action, Action::Fail(Failure::PrefillRejected(503)));
    assert_eq!(exchange.phase, Phase::Closed);
    assert_eq!(ctx.outstanding(exchange.prefill_slot), Some(0));
    assert_eq!(ctx.outstanding(exchange.decode_slot), Some(0));
    assert_eq!(ERROR_STATUS, 500);
    let body = error_body("/v1/chat/completions", &failure_message(Failure::PrefillRejected(503)));
    assert_eq!(body, "(/v1/chat/completions) Error: prefill server answered with status 503");
}

#[test]
fn streaming_holds_both_slots_until_the_stream_ends() {
    let mut ctx = balancer("http://127.0.0.1:30000/", 1);
    let mut exchange = exchange_for(&mut ctx);
    let action = ctx.on_event(&mut exchange, Event::Heads { prefill_status: 200 });
    assert_eq!(action, Action::Forward);
    assert_eq!(exchange.phase, Phase::Streaming);
    assert_eq!(ctx.outstanding(exchange.prefill_slot), Some(1));
    assert_eq!(ctx.outstanding(exchange.decode_slot), Some(1));
    assert_eq!(ctx.on_event(&mut exchange, Event::Heads { prefill_status: 500 }), Action::Ignore);
    assert_eq!(ctx.outstanding(exchange.prefill_slot), Some(1));
    let action = ctx.on_event(&mut exchange, Event::StreamEnded);
    assert_eq!(action, Action::Close);
    assert_eq!(exchange.phase, Phase::Closed);
    assert_eq!(ctx.outstanding(exchange.prefill_slot), Some(0));
    assert_eq!(ctx.outstanding(exchange.decode_slot), Some(0));
}

#[test]
fn closed_exchange_gives_nothing_back_twice() {
    let mut ctx = balancer("http://127.0.0.1:30000/", 1);
    let mut first = exchange_for(&mut ctx);
    let mut second = exchange_for(&mut ctx);
    assert_eq!(ctx.outstanding(first.prefill_slot), Some(2));
    assert_eq!(ctx.on_event(&mut first, Event::Failed), Action::Fail(Failure::Transport));
    assert_eq!(ctx.outstanding(first.prefill_slot), Some(1));
    assert_eq!(ctx.on_event(&mut first, Event::StreamEnded), Action::Ignore);
    assert_eq!(ctx.on_event(&mut first, Event::Failed), Action::Ignore);
    assert_eq!(ctx.on_event(&mut first, Event::Heads { prefill_status: 200 }), Action::Ignore);
    assert_eq!(first.phase, Phase::Closed);
    assert_eq!(ctx.outstanding(second.prefill_slot), Some(1));
    assert_eq!(ctx.outstanding(second.decode_slot), Some(1));
    assert_eq!(ctx.on_event(&mut second, Event::StreamEnded), Action::Close);
    assert_eq!(ctx.outstanding(second.prefill_slot), Some(0));
}

#[test]
fn failure_while_streaming_closes_the_exchange() {
    let mut ctx = balancer("http://127.0.0.1:30000/", 1);
    let mut exchange = exchange_for(&mut ctx);
    assert_eq!(ctx.on_event(&mut exchange, Event::Heads { prefill_status: 204 }), Action::Forward);
    assert_eq!(ctx.on_event(&mut exchange, Event::Failed), Action::Fail(Failure::Transport));
    assert_eq!(exchange.phase, Phase::Closed);
    assert_eq!(ctx.outstanding(exchange.decode_slot), Some(0));
}

#[test]
fn success_is_the_two_hundreds() {
    assert!(!is_success(199));
    assert!(is_success(200));
    assert!(is_success(204));
    assert!(is_success(299));
    assert!(!is_success(300));
    assert!(!is_success(404));
    assert!(!is_success(503));
    assert!(!is_success(0));
}

#[test]
fn room_id_stride() {
    let mut ctx = balancer("http://10.1.2.3:30000/", 4);
    let base = ctx.room_id();
    let mut rooms = Vec::new();
    for i in 0..10u32 {
        let pair = ctx.select_pair_at(&[i], 0).unwrap();
        let rank = pair.prefill_rank as u32;
        assert!(rank < 4);
        let (bootstrap, _exchange) = ctx.open_exchange(&pair).unwrap();
        assert_eq!(bootstrap.bootstrap_room, base + 4 * i + rank);
        assert_eq!(bootstrap.bootstrap_host, "10.1.2.3");
        rooms.push(bootstrap.bootstrap_room);
    }
    let mut distinct = rooms.clone();
    distinct.sort();
    distinct.dedup();
    assert_eq!(distinct.len(), 10);
    assert_eq!(ctx.room_id(), base + 40);
}

#[test]
fn missing_host_gives_both_slots_back() {
    let mut ctx = balancer("unix:/run/prefill.socket", 1);
    let pair = ctx.select_pair_at(&[1], 0).unwrap();
    assert_eq!(ctx.outstanding(pair.prefill_server_guard), Some(1));
    let opened = ctx.open_exchange(&pair);
    assert!(matches!(opened, Err(Failure::NoHost)));
    assert_eq!(ctx.outstanding(pair.prefill_server_guard), Some(0));
    assert_eq!(ctx.outstanding(pair.decode_server_guard), Some(0));
    assert_eq!(ctx.room_id(), 0);
    assert_eq!(failure_message(Failure::NoHost), "prefill server host is empty");
}

#[test]
fn url_that_does_not_parse_has_no_host() {
    let mut ctx = balancer("not a url", 1);
    let pair = ctx.select_pair_at(&[1], 0).unwrap();
    assert!(matches!(ctx.open_exchange(&pair), Err(Failure::NoHost)));
}

#[test]
fn host_is_taken_from_the_url() {
    let mut ctx = balancer("https://Prefill.Example.com:8443/base/", 1);
    let pair = ctx.select_pair_at(&[1], 0).unwrap();
    let (bootstrap, exchange) = ctx.open_exchange(&pair).unwrap();
    assert_eq!(bootstrap.bootstrap_host, "prefill.example.com");
    assert_eq!(exchange.prefill_authority, "prefill.example.com:8443");
    assert_eq!(exchange.decode_authority, "127.0.0.1:30001");
    assert_eq!(bootstrap.bootstrap_port, Some(10000));
    assert_eq!(exchange.phase, Phase::Dispatching);
    assert_eq!(exchange.prefill_slot, LoadSlot { mode: Mode::Prefill, worker: 0, rank: 0 });
    assert_eq!(exchange.decode_slot, LoadSlot { mode: Mode::Decode, worker: 0, rank: 0 });
}

#[test]
fn exchange_opens_with_the_host_it_is_given() {
    let mut ctx = balancer("http://ignored/", 2);
    let pair = ctx.select_pair_at(&[1], 0).unwrap();
    let (bootstrap, exchange) = ctx
        .open_exchange_with(&pair, Some(String::from("given")), String::from("a:1"), String::from("b:2"))
        .unwrap();
    assert_eq!(bootstrap.bootstrap_host, "given");
    assert_eq!(exchange.prefill_authority, "a:1");
    assert_eq!(exchange.decode_authority, "b:2");
    assert_eq!(bootstrap.bootstrap_room, 0);
    assert_eq!(ctx.room_id(), 2);
    let pair = ctx.select_pair_at(&[2], 0).unwrap();
    assert_eq!(pair.prefill_rank, 1);
    let opened = ctx.open_exchange_with(&pair, None, String::new(), String::new());
    assert!(matches!(opened, Err(Failure::NoHost)));
    assert_eq!(ctx.room_id(), 2);
    assert_eq!(ctx.outstanding(pair.prefill_server_guard), Some(0));
}

#[test]
fn decimal_writes_numbers_without_leading_zeros() {
    assert_eq!(decimal(0), "0");
    assert_eq!(decimal(7), "7");
    assert_eq!(decimal(10), "10");
    assert_eq!(decimal(404), "404");
    assert_eq!(decimal(503), "503");
    assert_eq!(decimal(12345), "12345");
    assert_eq!(decimal(65535), "65535");
    assert_eq!(decimal(6089), "6089");
}

#[test]
fn error_bodies_name_the_path() {
    assert_eq!(error_body("/health_generate", "boom"), "(/health_generate) Error: boom");
    assert_eq!(error_body("", ""), "() Error: ");
    assert_eq!(failure_message(Failure::Transport), "upstream request failed");
    assert_eq!(
        failure_message(Failure::PrefillRejected(404)),
        "prefill server answered with status 404"
    );
}

#[test]
fn selection_errors_have_their_messages() {
    assert_eq!(select_error_message(&SelectError::Prompt(String::from("bad"))), "bad");
    assert_eq!(
        select_error_message(&SelectError::Tokenize(String::from("bad"))),
        "failed to encode tokens: bad"
    );
    assert_eq!(
        select_error_message(&SelectError::NoPrefillAvailable),
        "no prefill server available"
    );
    assert_eq!(select_error_message(&SelectError::NoDecodeAvailable), "failed to find node");
}

#[test]
fn body_gets_the_four_fields_and_keeps_the_rest() {
    let mut body = serde_json::Map::new();
    body.insert(String::from("model"), serde_json::Value::from("m"));
    body.insert(String::from("stream"), serde_json::Value::from(true));
    body.insert(String::from("bootstrap_room"), serde_json::Value::from("stale"));
    let bootstrap = Bootstrap {
        bootstrap_host: String::from("10.0.0.1"),
        bootstrap_port: Some(10000),
        bootstrap_room: 4_000_000_000,
        decode_rank: 3,
    };
    rewrite_body(&mut body, &bootstrap);
    assert_eq!(body.len(), 6);
    assert_eq!(body.get("model"), Some(&serde_json::Value::from("m")));
    assert_eq!(body.get("stream"), Some(&serde_json::Value::from(true)));
    assert_eq!(body.get("bootstrap_host"), Some(&serde_json::Value::from("10.0.0.1")));
    assert_eq!(body.get("bootstrap_port"), Some(&serde_json::Value::from(10000)));
    assert_eq!(body.get("bootstrap_room"), Some(&serde_json::Value::from(4_000_000_000u32)));
    assert_eq!(body.get("decode_rank"), Some(&serde_json::Value::from(3)));
    assert_eq!(
        serde_json::to_string(&body).unwrap(),
        r#"{"bootstrap_host":"10.0.0.1","bootstrap_port":10000,"bootstrap_room":4000000000,"decode_rank":3,"model":"m","stream":true}"#
    );
}

#[test]
fn body_has_no_port_where_the_worker_has_none() {
    let mut body = serde_json::Map::new();
    body.insert(String::from("bootstrap_port"), serde_json::Value::from(1));
    let bootstrap = Bootstrap {
        bootstrap_host: String::from("h"),
        bootstrap_port: None,
        bootstrap_room: 0,
        decode_rank: 0,
    };
    body.insert(String::from("port"), serde_json::Value::from(2));
    rewrite_body(&mut body, &bootstrap);
    assert_eq!(body.get("bootstrap_port"), None);
    assert_eq!(body.get("port"), Some(&serde_json::Value::from(2)));
    assert_eq!(body.get("bootstrap_host"), Some(&serde_json::Value::from("h")));
    assert_eq!(body.get("bootstrap_room"), Some(&serde_json::Value::from(0)));
    let mut empty = serde_json::Map::new();
    rewrite_body(&mut empty, &bootstrap);
    assert_eq!(empty.len(), 3);
    assert!(!empty.contains_key("bootstrap_port"));
}

#[test]
fn authority_leaves_out_the_default_port() {
    let mut ctx = balancer("http://user@host.example:80/x", 1);
    let pair = ctx.select_pair_at(&[1], 0).unwrap();
    let (bootstrap, mut exchange) = ctx.open_exchange(&pair).unwrap();
    assert_eq!(bootstrap.bootstrap_host, "host.example");
    assert_eq!(exchange.prefill_authority, "user@host.example");
    ctx.on_event(&mut exchange, Event::Heads { prefill_status: 200 });
    assert_eq!(exchange.prefill_authority, "user@host.example");
    assert_eq!(exchange.decode_authority, "127.0.0.1:30001");
}

#[test]
fn worker_url_that_does_not_parse_has_the_empty_authority() {
    let mut ctx = Context::new(
        &vec![String::from("http://127.0.0.1:30000/")],
        &vec![],
        &vec![String::from("no url at all")],
        tokenizers::Tokenizer::from_str(PLAIN_TOKENIZER).unwrap(),
        String::from("chatml"),
        ScoreWeight { task_queue: 4, num_of_cache_token: 256 },
        1,
        1,
    );
    let pair = ctx.select_pair_at(&[1], 0).unwrap();
    let (_, exchange) = ctx.open_exchange(&pair).unwrap();
    assert_eq!(exchange.prefill_authority, "127.0.0.1:30000");
    assert_eq!(exchange.decode_authority, "");
    assert_eq!(load_balancer::fanout::authority_or_empty(None), "");
    assert_eq!(load_balancer::fanout::authority_or_empty(Some(String::from("a:1"))), "a:1");
}
