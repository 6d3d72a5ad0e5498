use load_balancer::context::{
    bootstrap_port_of, Context, LoadSlot, Mode, PDRegistryRequest, SelectError, ServerPair,
};
use load_balancer::score::ScoreWeight;
use std::str::FromStr;

const TOKENIZER: &str = r#"{"version":"1.0","truncation":null,"padding":null,"added_tokens":[],"normalizer":null,"pre_tokenizer":{"type":"Whitespace"},"post_processor":null,"decoder":null,"model":{"type":"WordLevel","vocab":{"[UNK]":9,"hello":4},"unk_token":"[UNK]"}}"#;

fn context(
    prefill: &[&str],
    ports: &[u16],
    decode: &[&str],
    prefill_dp_size: usize,
    decode_dp_size: usize,
) -> Context {
    context_with_template("chatml", prefill, ports, decode, prefill_dp_size, decode_dp_size)
}

fn context_with_template(
    template: &str,
    prefill: &[&str],
    ports: &[u16],
    decode: &[&str],
    prefill_dp_size: usize,
    decode_dp_size: usize,
) -> Context {
    let prefill: Vec<String> = prefill.iter().map(|url| url.to_string()).collect();
    let decode: Vec<String> = decode.iter().map(|url| url.to_string()).collect();
    Context::new(
        &prefill,
        &ports.to_vec(),
        &decode,
        tokenizers::Tokenizer::from_str(TOKENIZER).unwrap(),
        String::from(template),
        ScoreWeight { task_queue: 4, num_of_cache_token: 256 },
        prefill_dp_size,
        decode_dp_size,
    )
}

fn prefill_slot(worker: usize, rank: usize) -> LoadSlot {
    LoadSlot { mode: Mode::Prefill, worker, rank }
}

fn decode_slot(worker: usize, rank: usize) -> LoadSlot {
    LoadSlot { mode: Mode::Decode, worker, rank }
}

fn total_outstanding(ctx: &Context, prefills: usize, decodes: usize) -> usize {
    let mut total = 0;
    for worker in 0..prefills {
        for rank in 0..ctx.prefill_dp_size() {
            total += ctx.outstanding(prefill_slot(worker, rank)).unwrap();
        }
    }
    for worker in 0..decodes {
        for rank in 0..ctx.decode_dp_size() {
            total += ctx.outstanding(decode_slot(worker, rank)).unwrap();
        }
    }
    total
}

fn release_pair(ctx: &mut Context, pair: &ServerPair) {
    assert!(ctx.release(pair.prefill_server_guard));
    assert!(ctx.release(pair.decode_server_guard));
}

#[test]
fn empty_router_picks_first_ranks() {
    let mut ctx = context(&["http://pre0:30000/"], &[10000], &["http://dec0:30001/"], 2, 2);
    let pair = ctx.select_pair_at(&[9, 9, 9], 1000).unwrap();
    assert_eq!(pair.prefill_server, "http://pre0:30000/");
    assert_eq!(pair.prefill_rank, 0);
    assert_eq!(pair.prefill_server_guard, prefill_slot(0, 0));
    assert_eq!(pair.bootstrap_port, Some(10000));
    assert_eq!(pair.decode_server, "http://dec0:30001/");
    assert_eq!(pair.decode_rank, 0);
    assert_eq!(pair.decode_server_guard, decode_slot(0, 0));
    let (bootstrap, _exchange) = ctx.open_exchange(&pair).unwrap();
    assert_eq!(bootstrap.bootstrap_host, "pre0");
    assert_eq!(bootstrap.bootstrap_port, Some(10000));
    assert_eq!(bootstrap.bootstrap_room, 0);
    assert_eq!(bootstrap.decode_rank, 0);
    assert_eq!(ctx.router().last_used(&[9, 9, 9]), Some(1000));
}

#[test]
fn cache_hit_steers_prefill() {
    let mut ctx = context(&["http://pre0:30000/"], &[10000], &["http://dec0:30001/"], 2, 2);
    let first = ctx.select_pair_at(&[9, 9, 9], 1000).unwrap();
    assert_eq!(first.prefill_server_guard, prefill_slot(0, 0));
    ctx.register(PDRegistryRequest {
        mode: Mode::Prefill,
        registry_url: String::from("http://pre1:30000/"),
        bootstrap_port: None,
    });
    assert_eq!(ctx.outstanding(prefill_slot(0, 0)), Some(1));
    assert_eq!(ctx.outstanding(prefill_slot(1, 0)), Some(0));
    let second = ctx.select_pair_at(&[9, 9, 9, 4], 1001).unwrap();
    assert_eq!(second.prefill_server, "http://pre0:30000/");
    assert_eq!(second.prefill_rank, 0);
    assert_eq!(ctx.outstanding(prefill_slot(0, 0)), Some(2));
    assert_eq!(ctx.router().last_used(&[9, 9, 9]), Some(1001));
    assert_eq!(ctx.router().last_used(&[9, 9, 9, 4]), Some(1001));
}

#[test]
fn load_steers_prefill_where_the_cache_is_worth_less() {
    let prefill = vec![String::from("http://pre0/"), String::from("http://pre1/")];
    let mut ctx = Context::new(
        &prefill,
        &vec![],
        &vec![String::from("http://dec0/")],
        tokenizers::Tokenizer::from_str(TOKENIZER).unwrap(),
        String::from("chatml"),
        ScoreWeight { task_queue: 4, num_of_cache_token: 1 },
        1,
        1,
    );
    let first = ctx.select_pair_at(&[9, 9, 9], 1).unwrap();
    assert_eq!(first.prefill_server, "http://pre0/");
    // 4 / 2 + 3 / 100 on the first worker against 4 / 1 on the second
    let second = ctx.select_pair_at(&[9, 9, 9], 2).unwrap();
    assert_eq!(second.prefill_server, "http://pre1/");
    assert_eq!(second.bootstrap_port, None);
}

#[test]
fn load_breaks_ties_when_no_cache() {
    let mut ctx = context(&["http://pre0/", "http://pre0/"], &[], &["http://dec0/"], 2, 4);
    let mut held = Vec::new();
    for i in 0..5u32 {
        let pair = ctx.select_pair_at(&[100 + i, 7], i as i64).unwrap();
        held.push(pair);
    }
    let mut counts = Vec::new();
    for worker in 0..2 {
        for rank in 0..2 {
            counts.push(ctx.outstanding(prefill_slot(worker, rank)).unwrap());
        }
    }
    let most = *counts.iter().max().unwrap();
    let least = *counts.iter().min().unwrap();
    assert!(most - least <= 1);
    assert_eq!(counts.iter().sum::<usize>(), 5);
}

#[test]
fn identical_workers_share_their_cache_entries() {
    let mut ctx = context(&["http://pre0/", "http://pre0/"], &[], &["http://dec0/"], 1, 1);
    let first = ctx.select_pair_at(&[1, 2, 3], 1).unwrap();
    assert_eq!(first.prefill_server_guard, prefill_slot(0, 0));
    release_pair(&mut ctx, &first);
    ctx.select_pair_at(&[5], 2).unwrap();
    // the first worker is busy; the second has the same URL, port and rank,
    // so the entry stored for the first counts for it too
    let third = ctx.select_pair_at(&[1, 2, 3], 3).unwrap();
    assert_eq!(third.prefill_server_guard, prefill_slot(1, 0));
}

#[test]
fn ties_go_to_the_first_rank_in_order() {
    let mut ctx = context(&["http://pre0/", "http://pre1/"], &[], &["http://dec0/", "http://dec1/"], 3, 3);
    let mut picked = Vec::new();
    for i in 0..6u32 {
        let pair = ctx.select_pair_at(&[i + 1], 0).unwrap();
        picked.push((pair.prefill_server_guard.worker, pair.prefill_rank));
        assert_eq!(pair.prefill_server_guard.worker, pair.decode_server_guard.worker);
        assert_eq!(pair.prefill_rank, pair.decode_rank);
    }
    assert_eq!(picked, vec![(0, 0), (0, 1), (0, 2), (1, 0), (1, 1), (1, 2)]);
    let again = ctx.select_pair_at(&[50], 0).unwrap();
    assert_eq!(again.prefill_server_guard, prefill_slot(0, 0));
    assert_eq!(again.decode_server_guard, decode_slot(0, 0));
}

#[test]
fn decode_goes_to_the_least_loaded_rank() {
    let mut ctx = context(&["http://pre0/"], &[], &["http://dec0/", "http://dec1/"], 1, 2);
    let a = ctx.select_pair_at(&[1], 0).unwrap();
    let b = ctx.select_pair_at(&[1], 0).unwrap();
    let c = ctx.select_pair_at(&[1], 0).unwrap();
    assert_eq!(a.decode_server_guard, decode_slot(0, 0));
    assert_eq!(b.decode_server_guard, decode_slot(0, 1));
    assert_eq!(c.decode_server_guard, decode_slot(1, 0));
    assert_eq!(c.decode_server, "http://dec1/");
    assert!(ctx.release(b.decode_server_guard));
    let d = ctx.select_pair_at(&[1], 0).unwrap();
    assert_eq!(d.decode_server_guard, decode_slot(0, 1));
}

#[test]
fn no_prefill_worker_is_an_error() {
    let mut ctx = context(&[], &[], &["http://dec0/"], 2, 2);
    let outcome = ctx.select_pair_at(&[1, 2], 5);
    assert!(matches!(outcome, Err(SelectError::NoPrefillAvailable)));
    assert_eq!(ctx.router().len(), 0);
    assert_eq!(ctx.outstanding(decode_slot(0, 0)), Some(0));
}

#[test]
fn prefill_workers_without_ranks_are_no_candidates() {
    let mut ctx = context(&["http://pre0/"], &[], &["http://dec0/"], 0, 2);
    let outcome = ctx.select_pair_at(&[1, 2], 5);
    assert!(matches!(outcome, Err(SelectError::NoPrefillAvailable)));
}

#[test]
fn no_decode_worker_is_an_error_and_holds_nothing() {
    let mut ctx = context(&["http://pre0/"], &[], &[], 2, 2);
    let outcome = ctx.select_pair_at(&[1, 2], 5);
    assert!(matches!(outcome, Err(SelectError::NoDecodeAvailable)));
    assert_eq!(ctx.outstanding(prefill_slot(0, 0)), Some(0));
    assert_eq!(ctx.outstanding(prefill_slot(0, 1)), Some(0));
    assert_eq!(ctx.router().last_used(&[1, 2]), Some(5));
}

#[test]
fn empty_prompt_is_selected_by_load_and_not_stored() {
    let mut ctx = context(&["http://pre0/"], &[], &["http://dec0/"], 2, 1);
    let first = ctx.select_pair_at(&[], 5).unwrap();
    let second = ctx.select_pair_at(&[], 6).unwrap();
    assert_eq!(first.prefill_rank, 0);
    assert_eq!(second.prefill_rank, 1);
    assert_eq!(ctx.router().len(), 0);
}

#[test]
fn selection_marks_the_entry_that_steered_it() {
    let mut ctx = context(&["http://pre0/"], &[], &["http://dec0/"], 1, 1);
    ctx.select_pair_at(&[1, 2, 3], 10).unwrap();
    ctx.select_pair_at(&[1, 2, 3, 4, 5], 20).unwrap();
    assert_eq!(ctx.router().last_used(&[1, 2, 3]), Some(20));
    assert_eq!(ctx.router().last_used(&[1, 2, 3, 4, 5]), Some(20));
    ctx.select_pair_at(&[1, 2, 3, 9], 30).unwrap();
    let touched = [
        ctx.router().last_used(&[1, 2, 3]).unwrap(),
        ctx.router().last_used(&[1, 2, 3, 4, 5]).unwrap(),
    ];
    assert!(touched == [30, 20] || touched == [20, 30]);
    assert_eq!(ctx.router().last_used(&[1, 2, 3, 9]), Some(30));
}

#[test]
fn streaming_keeps_slots_held() {
    let mut ctx = context(&["http://pre0/"], &[], &["http://dec0/"], 1, 1);
    let pair = ctx.select_pair_at(&[9, 9, 9], 0).unwrap();
    assert_eq!(ctx.outstanding(pair.prefill_server_guard), Some(1));
    assert_eq!(ctx.outstanding(pair.decode_server_guard), Some(1));
    release_pair(&mut ctx, &pair);
    assert_eq!(ctx.outstanding(pair.prefill_server_guard), Some(0));
    assert_eq!(ctx.outstanding(pair.decode_server_guard), Some(0));
}

#[test]
fn release_of_an_idle_or_unknown_slot_changes_nothing() {
    let mut ctx = context(&["http://pre0/"], &[], &["http://dec0/"], 1, 1);
    assert!(!ctx.release(prefill_slot(0, 0)));
    assert!(!ctx.release(prefill_slot(0, 1)));
    assert!(!ctx.release(prefill_slot(1, 0)));
    assert!(!ctx.release(decode_slot(3, 0)));
    assert_eq!(ctx.outstanding(prefill_slot(0, 0)), Some(0));
    assert_eq!(ctx.outstanding(prefill_slot(0, 1)), None);
    assert_eq!(ctx.outstanding(decode_slot(3, 0)), None);
}

#[test]
fn counters_sum_to_the_handles_held() {
    let mut ctx = context(&["http://pre0/", "http://pre1/"], &[], &["http://dec0/"], 2, 3);
    assert_eq!(total_outstanding(&ctx, 2, 1), 0);
    let mut held = Vec::new();
    for i in 0..7u32 {
        held.push(ctx.select_pair_at(&[i, 1, 2], i as i64).unwrap());
        assert_eq!(total_outstanding(&ctx, 2, 1), 2 * held.len());
    }
    while let Some(pair) = held.pop() {
        assert!(ctx.release(pair.prefill_server_guard));
        assert_eq!(total_outstanding(&ctx, 2, 1), 2 * held.len() + 1);
        assert!(ctx.release(pair.decode_server_guard));
        assert_eq!(total_outstanding(&ctx, 2, 1), 2 * held.len());
    }
    assert!(ctx.has_headroom());
}

#[test]
fn start_up_pads_ports_and_reads_zero_as_none() {
    let mut ctx =
        context(&["http://pre0/", "http://pre1/", "http://pre2/"], &[10000, 0], &["http://dec0/"], 1, 1);
    let a = ctx.select_pair_at(&[1], 0).unwrap();
    let b = ctx.select_pair_at(&[2], 0).unwrap();
    let c = ctx.select_pair_at(&[3], 0).unwrap();
    assert_eq!((a.prefill_server.as_str(), a.bootstrap_port), ("http://pre0/", Some(10000)));
    assert_eq!((b.prefill_server.as_str(), b.bootstrap_port), ("http://pre1/", None));
    assert_eq!((c.prefill_server.as_str(), c.bootstrap_port), ("http://pre2/", None));
    assert_eq!(bootstrap_port_of(0), None);
    assert_eq!(bootstrap_port_of(1), Some(1));
    assert_eq!(bootstrap_port_of(65535), Some(65535));
}

#[test]
fn start_up_ignores_ports_beyond_the_urls() {
    let ctx = context(&["http://pre0/"], &[1, 2, 3], &["http://dec0/", "http://dec1/"], 2, 3);
    let (prefill, decode) = ctx.all_serves();
    assert_eq!(prefill, vec!["http://pre0/"]);
    assert_eq!(decode, vec!["http://dec0/", "http://dec1/"]);
    assert_eq!(ctx.room_id(), 0);
    assert_eq!(ctx.prompt_template(), "chatml");
    assert_eq!(ctx.prefill_dp_size(), 2);
    assert_eq!(ctx.decode_dp_size(), 3);
    assert_eq!(ctx.score_weight(), ScoreWeight { task_queue: 4, num_of_cache_token: 256 });
    assert_eq!(ctx.outstanding(prefill_slot(0, 1)), Some(0));
    assert_eq!(ctx.outstanding(prefill_slot(0, 2)), None);
    assert_eq!(ctx.outstanding(decode_slot(1, 2)), Some(0));
}

#[test]
fn register_appends_idle_workers() {
    let mut ctx = context(&[], &[], &[], 2, 1);
    assert_eq!(ctx.first_prefill(), None);
    ctx.register(PDRegistryRequest {
        mode: Mode::Decode,
        registry_url: String::from("http://dec0/"),
        bootstrap_port: Some(5),
    });
    ctx.register(PDRegistryRequest {
        mode: Mode::Prefill,
        registry_url: String::from("http://pre0/"),
        bootstrap_port: Some(8998),
    });
    ctx.register(PDRegistryRequest {
        mode: Mode::Prefill,
        registry_url: String::from("http://pre0/"),
        bootstrap_port: Some(8998),
    });
    let (prefill, decode) = ctx.all_serves();
    assert_eq!(prefill, vec!["http://pre0/", "http://pre0/"]);
    assert_eq!(decode, vec!["http://dec0/"]);
    assert_eq!(ctx.health_generate_targets(), vec!["http://pre0/", "http://pre0/"]);
    assert_eq!(ctx.flush_cache_targets(), vec!["http://pre0/", "http://pre0/", "http://dec0/"]);
    assert_eq!(ctx.first_prefill(), Some(String::from("http://pre0/")));
    assert_eq!(ctx.outstanding(prefill_slot(1, 1)), Some(0));
    assert_eq!(ctx.outstanding(decode_slot(0, 0)), Some(0));
    assert_eq!(ctx.outstanding(decode_slot(0, 1)), None);
    let pair = ctx.select_pair_at(&[1], 0).unwrap();
    assert_eq!(pair.bootstrap_port, Some(8998));
}

#[test]
fn router_of_the_balancer_evicts_at_ten_thousand() {
    let mut ctx = context(&["http://pre0/"], &[], &["http://dec0/"], 1, 1);
    for i in 0..10000u32 {
        let pair = ctx.select_pair_at(&[i], i as i64).unwrap();
        release_pair(&mut ctx, &pair);
    }
    assert_eq!(ctx.router().len(), 10000);
    let pair = ctx.select_pair_at(&[10000], 10000).unwrap();
    release_pair(&mut ctx, &pair);
    assert_eq!(ctx.router().len(), 9991);
    assert_eq!(ctx.router().last_used(&[9]), None);
    assert_eq!(ctx.router().last_used(&[10]), Some(10));
}

#[test]
fn select_pair_tokenizes_the_built_prompt() {
    let mut ctx = context(&["http://pre0/"], &[7], &["http://dec0/"], 1, 1);
    let mut messages = vec![endpoints::chat::ChatCompletionRequestMessage::new_user_message(
        endpoints::chat::ChatCompletionUserMessageContent::Text(String::from("hello")),
        None,
    )];
    let pair = ctx.select_pair(&mut messages, None).unwrap();
    assert_eq!(pair.prefill_server, "http://pre0/");
    assert_eq!(pair.bootstrap_port, Some(7));
    assert_eq!(ctx.router().len(), 1);
    assert_eq!(ctx.outstanding(pair.prefill_server_guard), Some(1));
    // the same messages give the same tokens, and the entry is found again
    let again = ctx.select_pair(&mut messages, None).unwrap();
    assert_eq!(again.prefill_rank, 0);
    assert_eq!(ctx.router().len(), 1);
    let hits = ctx.router().get(&[9]);
    assert!(hits.len() <= 1);
}

#[test]
fn select_pair_reports_a_prompt_that_cannot_be_built() {
    let mut ctx = context(&["http://pre0/"], &[7], &["http://dec0/"], 1, 1);
    let mut messages = Vec::new();
    let outcome = ctx.select_pair(&mut messages, None);
    assert!(matches!(outcome, Err(SelectError::Prompt(_))));
    assert_eq!(ctx.router().len(), 0);
    assert_eq!(ctx.outstanding(prefill_slot(0, 0)), Some(0));
}

#[test]
fn passthrough_requests_name_the_endpoint_on_each_worker() {
    let ctx = context(&["http://pre0:1/", "http://pre1:2/base/"], &[], &["http://dec0:3/"], 1, 1);
    assert_eq!(
        ctx.health_generate_requests(),
        vec![
            Ok(String::from("http://pre0:1/health_generate")),
            Ok(String::from("http://pre1:2/base/health_generate")),
        ]
    );
    assert_eq!(
        ctx.flush_cache_requests(),
        vec![
            Ok(String::from("http://pre0:1/flush_cache")),
            Ok(String::from("http://pre1:2/base/flush_cache")),
            Ok(String::from("http://dec0:3/flush_cache")),
        ]
    );
    let (prefill, decode) = ctx.server_info_requests();
    assert_eq!(
        prefill,
        vec![
            Ok(String::from("http://pre0:1/get_server_info")),
            Ok(String::from("http://pre1:2/base/get_server_info")),
        ]
    );
    assert_eq!(decode, vec![Ok(String::from("http://dec0:3/get_server_info"))]);
    assert_eq!(ctx.model_info_request(), Some(Ok(String::from("http://pre0:1/get_model_info"))));
    assert_eq!(ctx.models_request(), Some(Ok(String::from("http://pre0:1/v1/models"))));
}

#[test]
fn passthrough_requests_replace_the_last_segment_of_the_worker_url() {
    let ctx = context(&["http://pre0/a/b"], &[], &[], 1, 1);
    assert_eq!(ctx.health_generate_requests(), vec![Ok(String::from("http://pre0/a/health_generate"))]);
    assert_eq!(ctx.models_request(), Some(Ok(String::from("http://pre0/a/v1/models"))));
}

#[test]
fn passthrough_requests_report_urls_that_cannot_be_joined() {
    let ctx = context(&["mailto:someone", "http://pre1/"], &[], &["nonsense"], 1, 1);
    let requests = ctx.flush_cache_requests();
    assert_eq!(requests.len(), 3);
    assert!(requests[0].is_err());
    assert_eq!(requests[1], Ok(String::from("http://pre1/flush_cache")));
    assert!(requests[2].is_err());
    assert!(matches!(ctx.model_info_request(), Some(Err(_))));
    let empty = context(&[], &[], &["http://dec0/"], 1, 1);
    assert_eq!(empty.model_info_request(), None);
    assert_eq!(empty.models_request(), None);
    assert!(empty.health_generate_requests().is_empty());
    assert_eq!(empty.flush_cache_requests(), vec![Ok(String::from("http://dec0/flush_cache"))]);
}

#[test]
fn endpoint_urls_resolve_against_each_base() {
    let bases = vec![String::from("https://example.net/a/b.html"), String::from("https://example.net/a/b/")];
    assert_eq!(
        load_balancer::passthrough::endpoint_urls(&bases, "c.png"),
        vec![
            Ok(String::from("https://example.net/a/c.png")),
            Ok(String::from("https://example.net/a/b/c.png")),
        ]
    );
}

#[test]
fn try_select_pair_selects_while_counters_have_room() {
    let mut ctx = context(&["http://pre0/"], &[], &["http://dec0/"], 1, 1);
    assert!(ctx.has_headroom());
    let mut messages = vec![endpoints::chat::ChatCompletionRequestMessage::new_user_message(
        endpoints::chat::ChatCompletionUserMessageContent::Text(String::from("hello there")),
        None,
    )];
    let pair = ctx.try_select_pair(&mut messages, None).unwrap().unwrap();
    assert_eq!(pair.prefill_server_guard, prefill_slot(0, 0));
    assert_eq!(ctx.outstanding(prefill_slot(0, 0)), Some(1));
    let mut none = Vec::new();
    let failed = ctx.try_select_pair(&mut none, None).unwrap();
    assert!(matches!(failed, Err(SelectError::Prompt(_))));
    assert_eq!(ctx.outstanding(prefill_slot(0, 0)), Some(1));
}

#[test]
fn select_pair_reports_a_tokenizer_that_fails() {
    let no_unknown = r#"{"version":"1.0","truncation":null,"padding":null,"added_tokens":[],"normalizer":null,"pre_tokenizer":{"type":"Whitespace"},"post_processor":null,"decoder":null,"model":{"type":"WordLevel","vocab":{"a":1},"unk_token":"[UNK]"}}"#;
    let mut ctx = Context::new(
        &vec![String::from("http://pre0/")],
        &vec![],
        &vec![String::from("http://dec0/")],
        tokenizers::Tokenizer::from_str(no_unknown).unwrap(),
        String::from("chatml"),
        ScoreWeight { task_queue: 4, num_of_cache_token: 256 },
        1,
        1,
    );
    let mut messages = vec![endpoints::chat::ChatCompletionRequestMessage::new_user_message(
        endpoints::chat::ChatCompletionUserMessageContent::Text(String::from("hello")),
        None,
    )];
    let outcome = ctx.select_pair(&mut messages, None);
    match outcome {
        Err(SelectError::Tokenize(reason)) => {
            assert!(!reason.is_empty());
            let message =
                load_balancer::fanout::select_error_message(&SelectError::Tokenize(reason.clone()));
            assert_eq!(message, format!("failed to encode tokens: {}", reason));
        }
        other => panic!("unexpected outcome: {:?}", other),
    }
    assert_eq!(ctx.router().len(), 0);
    assert_eq!(ctx.outstanding(prefill_slot(0, 0)), Some(0));
}

fn user_says(text: &str) -> Vec<endpoints::chat::ChatCompletionRequestMessage> {
    vec![endpoints::chat::ChatCompletionRequestMessage::new_user_message(
        endpoints::chat::ChatCompletionUserMessageContent::Text(String::from(text)),
        None,
    )]
}

fn bare_tool() -> endpoints::chat::Tool {
    serde_json::from_str(r#"{"type":"function","function":{"name":"lookup"}}"#).unwrap()
}

#[test]
fn template_that_renders_tools_is_not_asked_with_tools() {
    let mut ctx =
        context_with_template("functionary-32", &["http://pre0/"], &[], &["http://dec0/"], 1, 1);
    let tools = vec![bare_tool()];
    assert!(!ctx.can_build_prompt(Some(&tools)));
    let mut messages = user_says("hello");
    match ctx.select_pair(&mut messages, Some(&tools)) {
        Err(SelectError::Prompt(reason)) => {
            assert_eq!(reason, "the prompt template cannot build a prompt for this request")
        }
        other => panic!("unexpected outcome: {:?}", other),
    }
    assert_eq!(ctx.router().len(), 0);
    assert_eq!(ctx.outstanding(prefill_slot(0, 0)), Some(0));
    let refused = ctx.try_select_pair(&mut messages, Some(&tools)).unwrap();
    assert!(matches!(refused, Err(SelectError::Prompt(_))));
}

#[test]
fn template_that_renders_tools_is_asked_without_tools() {
    let mut ctx =
        context_with_template("functionary-32", &["http://pre0/"], &[], &["http://dec0/"], 1, 1);
    let no_tools: Vec<endpoints::chat::Tool> = Vec::new();
    assert!(ctx.can_build_prompt(None));
    assert!(ctx.can_build_prompt(Some(&no_tools)));
    let mut messages = user_says("hello");
    let pair = ctx.select_pair(&mut messages, Some(&no_tools)).unwrap();
    assert_eq!(pair.prefill_server_guard, prefill_slot(0, 0));
    assert_eq!(ctx.router().len(), 1);
}

#[test]
fn other_templates_are_asked_with_tools() {
    let mut ctx = context(&["http://pre0/"], &[], &["http://dec0/"], 1, 1);
    let tools = vec![bare_tool()];
    assert!(ctx.can_build_prompt(Some(&tools)));
    let mut messages = user_says("hello");
    let pair = ctx.select_pair(&mut messages, Some(&tools)).unwrap();
    assert_eq!(pair.decode_server_guard, decode_slot(0, 0));
    let mut other =
        context_with_template("functionary-31", &["http://pre0/"], &[], &["http://dec0/"], 1, 1);
    assert!(other.can_build_prompt(Some(&tools)));
    assert!(other.select_pair(&mut messages, Some(&tools)).is_ok());
}

#[test]
fn names_that_are_no_chat_template_are_refused() {
    for name in ["embedding", "tts", "none"] {
        let mut ctx = context_with_template(name, &["http://pre0/"], &[], &["http://dec0/"], 1, 1);
        assert!(!ctx.can_build_prompt(None));
        let mut messages = user_says("hello");
        let outcome = ctx.select_pair(&mut messages, None);
        assert!(matches!(outcome, Err(SelectError::Prompt(_))));
        assert_eq!(ctx.outstanding(prefill_slot(0, 0)), Some(0));
    }
}

#[test]
fn unknown_template_name_is_reported() {
    let mut ctx =
        context_with_template("no-such-template", &["http://pre0/"], &[], &["http://dec0/"], 1, 1);
    assert!(ctx.can_build_prompt(None));
    let mut messages = user_says("hello");
    match ctx.select_pair(&mut messages, None) {
        Err(SelectError::Prompt(reason)) => assert!(reason.contains("no-such-template")),
        other => panic!("unexpected outcome: {:?}", other),
    }
    assert_eq!(ctx.router().len(), 0);
}
