//! Workers, their loads and their metrics.

use std::sync::Arc;

use smg::engine::{
    metrics_body, EngineMetricsResult, MetricPack, MetricsReply, DEFAULT_MAX_WS_CONNECTIONS,
};
use smg::monitor::{
    collect_group_loads, group_workers, needs_loads, LoadMonitor, WorkerGroupKey, WorkerLoadManager,
};
use smg::workers::{
    fan_out, status_text, ConnectionMode, Method, RankLoad, WorkerInfo, WorkerLoadResponse,
    WorkerManager, WorkerRegistry, WorkerRequest, WorkerResponse, WorkerType,
};

fn worker(url: &str, worker_type: WorkerType, connection_mode: ConnectionMode) -> WorkerInfo {
    WorkerInfo {
        url: url.to_string(),
        api_key: None,
        model_id: "m".to_string(),
        worker_type,
        connection_mode,
    }
}

fn registry() -> WorkerRegistry {
    WorkerRegistry {
        workers: vec![
            worker("http://a", WorkerType::Regular, ConnectionMode::Http),
            worker("grpc://b", WorkerType::Prefill, ConnectionMode::Grpc),
            WorkerInfo {
                api_key: Some("key".to_string()),
                ..worker("http://c", WorkerType::Decode, ConnectionMode::Http)
            },
        ],
    }
}

fn load(tokens: &[(i32, i32)]) -> WorkerLoadResponse {
    WorkerLoadResponse {
        loads: tokens
            .iter()
            .map(|(dp_rank, num_used_tokens)| RankLoad { dp_rank: *dp_rank, num_used_tokens: *num_used_tokens })
            .collect(),
    }
}

fn urls(list: &[&str]) -> Vec<String> {
    list.iter().map(|s| s.to_string()).collect()
}

#[test]
fn urls_of_all_workers() {
    assert_eq!(
        WorkerManager::get_worker_urls(&Arc::new(registry())),
        vec!["http://a", "grpc://b", "http://c"]
    );
    assert!(WorkerManager::get_worker_urls(&Arc::new(WorkerRegistry { workers: vec![] })).is_empty());
}

#[test]
fn requests_go_to_http_workers() {
    let requests = WorkerManager::flush_requests(&registry());
    assert_eq!(
        requests,
        vec![
            WorkerRequest {
                url: "http://a".to_string(),
                full_url: "http://a/flush_cache".to_string(),
                api_key: None,
                method: Method::Post,
            },
            WorkerRequest {
                url: "http://c".to_string(),
                full_url: "http://c/flush_cache".to_string(),
                api_key: Some("key".to_string()),
                method: Method::Post,
            },
        ]
    );
    assert_eq!(fan_out(&registry().workers, "metrics", Method::Get)[0].full_url, "http://a/metrics");
}

fn response(url: &str, result: Result<u16, String>) -> WorkerResponse {
    WorkerResponse { url: url.to_string(), result }
}

#[test]
fn flushing_without_http_workers() {
    let grpc = WorkerRegistry {
        workers: vec![worker("grpc://b", WorkerType::Regular, ConnectionMode::Grpc)],
    };
    let result = WorkerManager::flush_cache_all(&grpc, vec![]);
    assert_eq!(result.total_workers, 1);
    assert_eq!(result.http_workers, 0);
    assert_eq!(result.message, "No HTTP workers available for cache flush");
    assert!(result.successful.is_empty() && result.failed.is_empty());
}

#[test]
fn flushing_all_caches() {
    let answers = vec![response("http://c", Ok(200)), response("http://a", Ok(204))];
    let result = WorkerManager::flush_cache_all(&registry(), answers);
    assert_eq!(result.successful, vec!["http://c", "http://a"]);
    assert!(result.failed.is_empty());
    assert_eq!(result.total_workers, 3);
    assert_eq!(result.http_workers, 2);
    assert_eq!(result.message, "Successfully flushed cache on all 2 HTTP workers");
}

#[test]
fn flushing_some_caches() {
    let answers = vec![
        response("http://a", Ok(404)),
        response("http://c", Err("no route".to_string())),
        response("http://d", Ok(299)),
        response("http://e", Ok(599)),
    ];
    let result = WorkerManager::flush_cache_all(&registry(), answers);
    assert_eq!(result.successful, vec!["http://d"]);
    assert_eq!(
        result.failed,
        vec![
            ("http://a".to_string(), "HTTP 404 Not Found".to_string()),
            ("http://c".to_string(), "no route".to_string()),
            ("http://e".to_string(), "HTTP 599 <unknown status code>".to_string()),
        ]
    );
    assert_eq!(result.message, "Cache flush: 1 succeeded, 3 failed");
}

#[test]
fn statuses_are_written_as_the_http_crate_does() {
    for code in [200u16, 404, 418, 503, 599] {
        let known = http::StatusCode::from_u16(code).unwrap();
        let reason = known.canonical_reason().map(|r| r.to_string());
        assert_eq!(status_text(code, reason), known.to_string());
    }
}

#[test]
fn loads_of_all_workers() {
    let details = vec![Some(load(&[(0, 10), (1, 5)])), None, Some(load(&[(0, 0)]))];
    let result = WorkerManager::get_all_worker_loads(&registry(), details);
    assert_eq!(result.total_workers, 3);
    assert_eq!(result.successful, 2);
    assert_eq!(result.failed, 1);
    let seen: Vec<(&str, Option<&str>, i64)> = result
        .loads
        .iter()
        .map(|l| (l.worker.as_str(), l.worker_type.as_deref(), l.load))
        .collect();
    assert_eq!(
        seen,
        vec![("http://a", None, 15), ("grpc://b", Some("prefill"), -1), ("http://c", Some("decode"), 0)]
    );
    assert_eq!(result.loads[0].details, Some(load(&[(0, 10), (1, 5)])));
}

#[test]
fn loads_are_taken_with_a_rank_and_a_success() {
    let request = WorkerManager::load_request(&registry().workers[2]);
    assert_eq!(request.full_url, "http://c/v1/loads?include=core");
    assert_eq!(request.method, Method::Get);
    assert_eq!(request.api_key.as_deref(), Some("key"));
    assert_eq!(WorkerManager::fetch_http_load(None), None);
    assert_eq!(WorkerManager::fetch_http_load(Some((500, Some(load(&[(0, 1)]))))), None);
    assert_eq!(WorkerManager::fetch_http_load(Some((200, None))), None);
    assert_eq!(WorkerManager::fetch_http_load(Some((200, Some(load(&[]))))), None);
    assert_eq!(
        WorkerManager::fetch_http_load(Some((200, Some(load(&[(0, 1)]))))),
        Some(load(&[(0, 1)]))
    );
    assert_eq!(WorkerManager::fetch_grpc_load(Some(load(&[]))), None);
    assert_eq!(WorkerManager::fetch_grpc_load(Some(load(&[(0, 1)]))), Some(load(&[(0, 1)])));
}

fn reply(url: &str, status: Option<u16>, text: Option<&str>) -> MetricsReply {
    MetricsReply { url: url.to_string(), status, text: text.map(|t| t.to_string()) }
}

#[test]
fn metrics_are_asked_for_where_there_are_workers() {
    assert!(WorkerManager::metrics_plan(&WorkerRegistry { workers: vec![] }).is_none());
    let plan = WorkerManager::metrics_plan(&registry()).unwrap();
    assert!(plan.grpc);
    assert_eq!(plan.requests.len(), 2);
    assert_eq!(plan.requests[1].full_url, "http://c/metrics");
    assert_eq!(plan.requests[1].method, Method::Get);
    let http = WorkerRegistry {
        workers: vec![worker("http://a", WorkerType::Regular, ConnectionMode::Http)],
    };
    assert!(!WorkerManager::metrics_plan(&http).unwrap().grpc);
}

#[test]
fn metrics_that_were_had_are_labelled() {
    let replies = vec![
        reply("http://a", Some(200), Some("x 1")),
        reply("http://b", Some(500), Some("y 1")),
        reply("http://c", None, None),
        reply("http://d", Some(200), None),
    ];
    let packs = WorkerManager::collect_packs(replies, Some(Ok("z 1".to_string()))).unwrap();
    assert_eq!(
        packs,
        vec![
            MetricPack {
                labels: vec![("worker_addr".to_string(), "http://a".to_string())],
                metrics_text: "x 1".to_string(),
            },
            MetricPack { labels: vec![], metrics_text: "z 1".to_string() },
        ]
    );
    let none = vec![reply("http://b", Some(500), Some("y 1"))];
    assert!(WorkerManager::collect_packs(none, Some(Err("no directory".to_string()))).is_none());
    assert!(WorkerManager::collect_packs(vec![], None).is_none());
}

#[test]
fn results_of_engine_metrics() {
    let failure = |s: &str| EngineMetricsResult::Failure(s.to_string());
    let empty = WorkerRegistry { workers: vec![] };
    assert_eq!(WorkerManager::get_engine_metrics(&empty, None), failure("No available workers"));
    assert_eq!(WorkerManager::get_engine_metrics(&registry(), None), failure("All backend requests failed"));
    assert_eq!(
        WorkerManager::get_engine_metrics(&registry(), Some(Err("bad line".to_string()))),
        failure("Failed to aggregate metrics: bad line")
    );
    assert_eq!(
        WorkerManager::get_engine_metrics(&registry(), Some(Ok("x 1".to_string()))),
        EngineMetricsResult::Metrics("x 1".to_string())
    );
    assert_eq!(EngineMetricsResult::Metrics("x".to_string()).into_response(), (200, "x".to_string()));
    assert_eq!(failure("y").into_response(), (500, "y".to_string()));
}

#[test]
fn the_metrics_endpoint_serves_both() {
    assert_eq!(metrics_body("own", Some(EngineMetricsResult::Metrics("x 1".to_string()))), "own\nx 1");
    assert_eq!(metrics_body("own", Some(EngineMetricsResult::Failure("no".to_string()))), "own\n");
    assert_eq!(metrics_body("own", None), "own\n");
    assert_eq!(DEFAULT_MAX_WS_CONNECTIONS, 32);
}

fn key(model: &str) -> WorkerGroupKey {
    WorkerGroupKey {
        model_id: model.to_string(),
        worker_type: WorkerType::Regular,
        connection_mode: ConnectionMode::Http,
    }
}

#[test]
fn groups_are_polled_once() {
    let mut monitor = LoadMonitor::new(0);
    assert!(!monitor.is_running());
    assert_eq!(monitor.on_group_added(key("a"), None), Some(1));
    assert_eq!(monitor.on_group_added(key("a"), Some(7)), None);
    assert_eq!(monitor.on_group_added(key("b"), Some(0)), Some(1));
    assert_eq!(monitor.on_group_added(key("c"), Some(9)), Some(9));
    assert!(monitor.is_running());
    assert!(monitor.on_group_removed(&key("a"), &[]));
    assert!(!monitor.on_group_removed(&key("a"), &[]));
    assert_eq!(monitor.on_group_added(key("a"), None), Some(1));
    let stopped = monitor.stop();
    let models: Vec<&str> = stopped.iter().map(|(k, _)| k.model_id.as_str()).collect();
    assert_eq!(models, vec!["b", "c", "a"]);
    assert!(!monitor.is_running());
    let mut slow = LoadMonitor::new(30);
    assert_eq!(slow.on_group_added(key("a"), None), Some(30));
}

#[test]
fn loads_of_a_group_take_the_place_of_its_old_ones() {
    let mut monitor = LoadMonitor::new(5);
    let first = collect_group_loads(vec![
        ("u1".to_string(), Some(load(&[(0, 1)]))),
        ("u2".to_string(), Some(load(&[(0, 2), (1, 3)]))),
    ]);
    assert!(monitor.merge_group_loads(&urls(&["u1", "u2"]), first));
    let other = collect_group_loads(vec![("v".to_string(), Some(load(&[(0, 9)])))]);
    assert!(monitor.merge_group_loads(&urls(&["v"]), other));
    let second = collect_group_loads(vec![
        ("u1".to_string(), None),
        ("u2".to_string(), Some(load(&[(0, 4)]))),
    ]);
    assert!(monitor.merge_group_loads(&urls(&["u1", "u2"]), second));
    assert!(monitor.subscribe().get("u1").is_none());
    assert_eq!(monitor.subscribe().get("u2"), Some(&load(&[(0, 4)])));
    assert_eq!(monitor.subscribe().get("v"), Some(&load(&[(0, 9)])));
    assert_eq!(monitor.worker_load_manager.get("u2").unwrap().get(&0), Some(&4));
    assert_eq!(monitor.worker_load_manager.get("u2").unwrap().len(), 1);
    assert_eq!(monitor.worker_load_manager.get("u1").unwrap().get(&0), Some(&1));

    let nothing = collect_group_loads(vec![("u2".to_string(), None)]);
    assert!(!monitor.merge_group_loads(&urls(&["u2"]), nothing));
    assert!(monitor.subscribe().get("u2").is_some());

    monitor.on_group_removed(&key("a"), &urls(&["u2", "v"]));
    assert!(monitor.subscribe().get("u2").is_none());
    assert!(monitor.subscribe().get("v").is_none());
    assert!(monitor.worker_load_manager.get("v").is_none());
    assert!(monitor.worker_load_manager.get("u1").is_some());
}

#[test]
fn ranks_of_a_load() {
    let ranks = load(&[(0, 1), (2, 5), (0, 7)]).dp_rank_loads();
    assert_eq!(ranks.len(), 2);
    assert_eq!(ranks.get(&0), Some(&7));
    assert_eq!(ranks.get(&2), Some(&5));
    assert_eq!(load(&[(0, 1), (2, 5), (0, -7)]).total_used_tokens(), -1);
    assert!(WorkerLoadManager::new().get("u").is_none());
}

#[test]
fn groups_have_their_workers() {
    let all = registry();
    let same = WorkerGroupKey {
        model_id: "m".to_string(),
        worker_type: WorkerType::Decode,
        connection_mode: ConnectionMode::Http,
    };
    let found = group_workers(&all, &same);
    assert_eq!(found.len(), 1);
    assert_eq!(found[0].url, "http://c");
    assert!(group_workers(&all, &key("other")).is_empty());
}

#[test]
fn loads_are_fetched_for_policies() {
    assert!(needs_loads(1, false));
    assert!(needs_loads(0, true));
    assert!(!needs_loads(0, false));
}
