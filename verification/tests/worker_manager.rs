use chunk_router::keyed::KeyedList;
use chunk_router::loads::{
    load_of_total, parse_load, parse_prefill_load, sum_entries, LoadEntry, LoadTotalOverflow,
};
use chunk_router::monitor::{
    collect_loads, LoadMonitor, MonitorAction, MonitorEvent, MonitorState,
};
use chunk_router::policy::PrefillLoadReport;
use chunk_router::text::{join, same_text, write_decimal};
use chunk_router::worker::{ConnectionMode, Worker, WorkerType};
use chunk_router::worker_manager::{
    http_requests, EngineMetricsResult, Outcome, RequestMethod, WorkerLoadInfo, WorkerManager,
    WorkerReply,
};

fn fleet() -> Vec<Worker> {
    let mut workers = vec![
        Worker::new("http://a:1"),
        Worker::new("grpc://b:2"),
        Worker::new("http://c:3"),
    ];
    workers[0].api_key = Some("key".to_string());
    workers[1].connection_mode = ConnectionMode::Grpc;
    workers[2].worker_type = WorkerType::Prefill;
    workers
}

fn answered<B>(url: &str, status: u16, body: Option<B>) -> WorkerReply<B> {
    WorkerReply { url: url.to_string(), outcome: Outcome::Answered { status, body } }
}

fn failed<B>(url: &str, error: &str) -> WorkerReply<B> {
    WorkerReply { url: url.to_string(), outcome: Outcome::Failed { error: error.to_string() } }
}

#[test]
fn worker_urls_come_in_order() {
    assert_eq!(
        WorkerManager::get_worker_urls(&fleet()),
        vec!["http://a:1", "grpc://b:2", "http://c:3"]
    );
    assert!(WorkerManager::get_worker_urls(&[]).is_empty());
}

#[test]
fn requests_address_the_endpoint_with_the_workers_key() {
    let requests = http_requests(&fleet(), RequestMethod::Post, "flush_cache");
    assert_eq!(requests.len(), 2);
    assert_eq!(requests[0].worker, "http://a:1");
    assert_eq!(requests[0].address, "http://a:1/flush_cache");
    assert_eq!(requests[0].bearer.as_deref(), Some("key"));
    assert_eq!(requests[1].address, "http://c:3/flush_cache");
    assert_eq!(requests[1].bearer, None);
}

#[test]
fn a_flush_without_http_workers_asks_nobody() {
    let workers = &fleet()[1..2];
    assert!(WorkerManager::flush_requests(workers).is_empty());
    let result = WorkerManager::flush_cache_all(workers, &vec![]);
    assert!(result.successful.is_empty());
    assert!(result.failed.is_empty());
    assert_eq!(result.total_workers, 1);
    assert_eq!(result.http_workers, 0);
    assert_eq!(result.message, "No HTTP workers available for cache flush");
}

#[test]
fn a_flush_reports_each_worker() {
    let mut workers = fleet();
    workers.push(Worker::new("http://d:4"));
    let requests = WorkerManager::flush_requests(&workers);
    assert_eq!(requests.len(), 3);
    assert_eq!(requests[2].address, "http://d:4/flush_cache");
    assert!(requests.iter().all(|request| request.method == RequestMethod::Post));

    let replies = vec![
        answered("http://a:1", 200, Some(())),
        answered("http://c:3", 404, Some(())),
        failed("http://d:4", "connection refused"),
    ];
    let result = WorkerManager::flush_cache_all(&workers, &replies);
    assert_eq!(result.successful, vec!["http://a:1"]);
    assert_eq!(
        result.failed,
        vec![
            ("http://c:3".to_string(), "HTTP 404 Not Found".to_string()),
            ("http://d:4".to_string(), "connection refused".to_string()),
        ]
    );
    assert_eq!(result.total_workers, 4);
    assert_eq!(result.http_workers, 3);
    assert_eq!(result.message, "Cache flush: 1 succeeded, 2 failed");

    let replies: Vec<_> = (0..12).map(|_| answered("http://a:1", 204, Some(()))).collect();
    let result = WorkerManager::flush_cache_all(&workers, &replies);
    assert_eq!(result.message, "Successfully flushed cache on all 12 HTTP workers");

    let odd = WorkerManager::flush_cache_all(&workers, &vec![answered("u", 599, Some(()))]);
    assert_eq!(odd.failed[0].1, "HTTP 599 <unknown status code>");
}

#[test]
fn success_is_a_status_of_the_two_hundreds() {
    for (status, success) in [(199, false), (200, true), (299, true), (300, false), (500, false)] {
        let replies = vec![answered("u", status, Some(()))];
        let result = WorkerManager::flush_cache_all(&fleet(), &replies);
        assert_eq!(result.successful.len() == 1, success, "{status}");
    }
}

#[test]
fn scalar_loads() {
    let load = |body: &str| parse_load(body.as_bytes());
    assert_eq!(load(r#"{"aggregate": {"total_tokens": 42}}"#), 42);
    assert_eq!(load(r#"{"aggregate": {"total_tokens": -3}}"#), -3);
    assert_eq!(load(r#"{"aggregate": {"total_tokens": 1.5}}"#), -1);
    assert_eq!(load(r#"{"aggregate": {"total_tokens": 9223372036854775808}}"#), -1);
    assert_eq!(load(r#"{"aggregate": [1]}"#), -1);
    assert_eq!(load(r#"{"total_tokens": 42}"#), -1);
    assert_eq!(load("not json"), -1);
    assert_eq!(load_of_total(Some(7)), 7);
    assert_eq!(load_of_total(None), -1);
}

#[test]
fn load_responses_need_success_and_a_body() {
    let body = || Some(br#"{"aggregate": {"total_tokens": 42}}"#.to_vec());
    let parse = |outcome: &Outcome<Vec<u8>>| WorkerManager::parse_load_response(outcome);
    assert_eq!(parse(&Outcome::Answered { status: 200, body: body() }), 42);
    assert_eq!(parse(&Outcome::Answered { status: 503, body: body() }), -1);
    assert_eq!(parse(&Outcome::Answered { status: 200, body: None }), -1);
    assert_eq!(parse(&Outcome::Failed { error: "timeout".to_string() }), -1);
}

#[test]
fn load_infos_name_the_pool() {
    let workers = fleet();
    let request = WorkerManager::load_request(&workers[0]).unwrap();
    assert_eq!(request.address, "http://a:1/v1/loads?include=core");
    assert_eq!(request.method, RequestMethod::Get);
    assert!(WorkerManager::load_request(&workers[1]).is_none());

    let read = || {
        Some(Outcome::Answered {
            status: 200,
            body: Some(br#"{"aggregate": {"total_tokens": 9}}"#.to_vec()),
        })
    };
    let regular = WorkerManager::load_info(&workers[0], &read());
    assert_eq!(regular.worker, "http://a:1");
    assert_eq!(regular.worker_type, None);
    assert_eq!(regular.load, 9);
    // A worker that is not reached over HTTP has no known load.
    assert_eq!(WorkerManager::load_info(&workers[1], &None).load, -1);
    assert_eq!(WorkerManager::load_info(&workers[1], &read()).load, -1);
    let prefill = WorkerManager::load_info(&workers[2], &read());
    assert_eq!(prefill.worker_type.as_deref(), Some("prefill"));
    let mut decode = Worker::new("d");
    decode.worker_type = WorkerType::Decode;
    assert_eq!(WorkerManager::load_info(&decode, &None).worker_type.as_deref(), Some("decode"));

    let result = WorkerManager::get_all_worker_loads(&workers, &vec![read(), None, read()]);
    assert_eq!(result.total_workers, 3);
    assert_eq!(result.successful, 2);
    assert_eq!(result.failed, 1);
    let loads: Vec<isize> = result.loads.iter().map(|info| info.load).collect();
    assert_eq!(loads, vec![9, -1, 9]);
}

#[test]
fn prefill_loads_add_up_over_ranks() {
    let body = br#"{"loads": [
        {"num_waiting_uncached_tokens": 100, "num_running_reqs": 2,
         "total_prefill_uncached_tokens": 1000, "total_prefill_busy_us": 50},
        {"num_waiting_uncached_tokens": 11, "num_running_reqs": 3,
         "total_prefill_uncached_tokens": 500}
    ]}"#;
    assert_eq!(
        parse_prefill_load(body),
        Ok(Some(PrefillLoadReport {
            waiting_uncached_tokens: 111,
            running_reqs: 5,
            total_prefill_uncached_tokens: Some(1500),
            total_prefill_busy_us: Some(50),
        }))
    );
    // Without a list, the document itself is the entry.
    assert_eq!(
        parse_prefill_load(br#"{"num_running_reqs": 4, "loads": 7}"#),
        Ok(Some(PrefillLoadReport {
            waiting_uncached_tokens: 0,
            running_reqs: 4,
            total_prefill_uncached_tokens: None,
            total_prefill_busy_us: None,
        }))
    );
    assert_eq!(parse_prefill_load(br#"{"loads": []}"#), Ok(None));
    assert_eq!(parse_prefill_load(b"{"), Ok(None));
    let big = br#"{"loads": [{"num_running_reqs": 9223372036854775807}, {"num_running_reqs": 1}]}"#;
    assert_eq!(parse_prefill_load(big), Err(LoadTotalOverflow));
}

#[test]
fn partial_sums_must_fit() {
    let entry = |running_reqs: Option<i64>| LoadEntry {
        waiting_uncached_tokens: None,
        running_reqs,
        total_prefill_uncached_tokens: None,
        total_prefill_busy_us: None,
    };
    let entries = vec![entry(Some(i64::MAX)), entry(Some(1)), entry(Some(-5))];
    assert_eq!(sum_entries(&entries), Err(LoadTotalOverflow));
    let entries = vec![entry(Some(i64::MAX)), entry(Some(-5)), entry(None), entry(Some(1))];
    assert_eq!(sum_entries(&entries).unwrap().unwrap().running_reqs, i64::MAX - 4);
    assert_eq!(sum_entries(&Vec::new()), Ok(None));
}

#[test]
fn prefill_responses_need_success() {
    let body = || Some(br#"{"num_running_reqs": 4}"#.to_vec());
    let parse = |outcome: &Outcome<Vec<u8>>| WorkerManager::parse_prefill_load_response(outcome);
    let read = parse(&Outcome::Answered { status: 200, body: body() }).unwrap();
    assert_eq!(read.unwrap().running_reqs, 4);
    assert_eq!(parse(&Outcome::Answered { status: 404, body: body() }), Ok(None));
    assert_eq!(parse(&Outcome::Answered { status: 200, body: None }), Ok(None));
    assert_eq!(parse(&Outcome::Failed { error: "x".to_string() }), Ok(None));
}

fn report(running_reqs: i64) -> PrefillLoadReport {
    PrefillLoadReport { running_reqs, ..PrefillLoadReport::default() }
}

fn running(count: i64) -> Option<Outcome<Vec<u8>>> {
    let body = format!("{{\"num_running_reqs\": {}}}", count).into_bytes();
    Some(Outcome::Answered { status: 200, body: Some(body) })
}

#[test]
fn prefill_reports_are_kept_by_worker() {
    let mut workers: Vec<Worker> = ["a", "b", "a", "c", "g"].iter().map(|u| Worker::new(u)).collect();
    workers[4].connection_mode = ConnectionMode::Grpc;
    let outcomes = vec![
        running(1),
        Some(Outcome::Failed { error: "refused".to_string() }),
        running(2),
        running(3),
        running(4),
    ];
    let reports = WorkerManager::get_all_prefill_loads(&workers, &outcomes).unwrap();
    assert_eq!(reports.len(), 2);
    assert_eq!(reports.get(&"a".to_string()), Some(&report(2)));
    assert_eq!(reports.get(&"b".to_string()), None);
    assert_eq!(reports.get(&"g".to_string()), None);
    assert_eq!(reports.entry(1), (&"c".to_string(), &report(3)));

    let body = br#"{"loads": [{"num_running_reqs": 9223372036854775807}, {"num_running_reqs": 1}]}"#;
    let big = || Some(Outcome::Answered { status: 200, body: Some(body.to_vec()) });
    let overflow = WorkerManager::get_all_prefill_loads(&workers[..1], &vec![big()]);
    assert!(matches!(overflow, Err(LoadTotalOverflow)));
    // What a worker that is not reached over HTTP sends is not looked at.
    assert!(WorkerManager::get_all_prefill_loads(&workers[4..], &vec![big()]).unwrap().is_empty());
}

#[test]
fn metrics_rounds() {
    // Workers of every connection mode are asked.
    let workers = fleet();
    let requests = WorkerManager::metrics_requests(&workers);
    assert_eq!(requests.len(), 3);
    assert_eq!(requests[1].address, "grpc://b:2/metrics");
    assert!(requests.iter().all(|request| request.method == RequestMethod::Get));

    let replies = vec![
        answered("http://a:1", 200, Some("up 1".to_string())),
        answered("http://b:2", 500, Some("down".to_string())),
        answered("http://c:3", 200, None),
        failed("http://d:4", "refused"),
    ];
    let packs = WorkerManager::metric_packs(&workers, &replies).unwrap();
    assert_eq!(packs.len(), 1);
    assert_eq!(packs[0].metrics_text, "up 1");
    assert_eq!(packs[0].labels, vec![("worker_addr".to_string(), "http://a:1".to_string())]);

    match WorkerManager::metric_packs(&[], &replies) {
        Err(EngineMetricsResult::Failure(message)) => assert_eq!(message, "No available workers"),
        other => panic!("{other:?}"),
    }
    match WorkerManager::metric_packs(&workers, &replies.into_iter().skip(1).collect()) {
        Err(EngineMetricsResult::Failure(message)) => {
            assert_eq!(message, "All backend requests failed")
        }
        other => panic!("{other:?}"),
    }

    let merged = WorkerManager::get_engine_metrics(Ok("up 2".to_string()));
    assert_eq!(merged.into_response(), (200, "up 2".to_string()));
    let broken = WorkerManager::get_engine_metrics(Err("bad line".to_string()));
    assert_eq!(
        broken.into_response(),
        (500, "Failed to aggregate metrics: bad line".to_string())
    );
}

#[test]
fn the_monitor_starts_and_stops_once() {
    let mut monitor = LoadMonitor::new(3);
    assert_eq!(monitor.interval_secs(), 3);
    assert!(!monitor.is_running());
    assert!(monitor.start());
    assert!(!monitor.start());
    assert!(monitor.is_running());
    assert!(monitor.stop());
    assert!(!monitor.stop());
    assert!(!monitor.is_running());
}

fn info(worker: &str, load: isize) -> WorkerLoadInfo {
    WorkerLoadInfo { worker: worker.to_string(), worker_type: None, load }
}

#[test]
fn ticks_fetch_what_the_policies_want() {
    let tick = |names: &[&str]| MonitorEvent::Ticked {
        policies: names.iter().map(|n| n.to_string()).collect(),
    };
    let (state, action) = MonitorState::Tick.step(tick(&[]));
    assert_eq!(state, MonitorState::Tick);
    assert!(matches!(action, MonitorAction::Wait));

    let (state, action) = MonitorState::Tick.step(tick(&["power_of_two"]));
    assert_eq!(state, MonitorState::Loads);
    assert!(matches!(action, MonitorAction::FetchLoads));

    let (state, action) = MonitorState::Tick.step(tick(&["power_of_two", "chunk_aware"]));
    assert_eq!(state, MonitorState::PrefillLoads);
    assert!(matches!(action, MonitorAction::FetchPrefillLoads));
}

#[test]
fn loads_are_delivered_when_there_are_any() {
    let none = MonitorEvent::PrefillLoads { reports: KeyedList::new() };
    let (state, action) = MonitorState::PrefillLoads.step(none);
    assert_eq!(state, MonitorState::Loads);
    assert!(matches!(action, MonitorAction::DeliverPrefillLoads { reports: None }));

    let mut reports = KeyedList::new();
    reports.insert("a".to_string(), report(1));
    match MonitorState::PrefillLoads.step(MonitorEvent::PrefillLoads { reports }).1 {
        MonitorAction::DeliverPrefillLoads { reports: Some(reports) } => {
            assert_eq!(reports.get(&"a".to_string()), Some(&report(1)))
        }
        other => panic!("{other:?}"),
    }

    let (state, action) = MonitorState::Loads.step(MonitorEvent::Loads { loads: vec![] });
    assert_eq!(state, MonitorState::Tick);
    assert!(matches!(action, MonitorAction::DeliverLoads { loads: None }));

    let loads = vec![info("a", 1), info("b", -1), info("a", 2)];
    match MonitorState::Loads.step(MonitorEvent::Loads { loads }).1 {
        MonitorAction::DeliverLoads { loads: Some(loads) } => {
            assert_eq!(loads.len(), 2);
            assert_eq!(loads.get(&"a".to_string()), Some(&2));
            assert_eq!(loads.get(&"b".to_string()), Some(&-1));
        }
        other => panic!("{other:?}"),
    }
    assert!(collect_loads(&vec![]).is_empty());
}

#[test]
fn small_texts() {
    assert_eq!(write_decimal(0), "0");
    assert_eq!(write_decimal(1234567890), "1234567890");
    assert_eq!(write_decimal(u64::MAX), "18446744073709551615");
    assert_eq!(join("a", "b"), "ab");
    assert!(same_text("x", "x"));
    assert!(!same_text("x", "y"));
}
