use fleetbench::addr_defs::IpAddress;
use fleetbench::benchmarking_defs::Benchmark;
use fleetbench::benchmarking_defs::FullSystemInfo;
use fleetbench::endpoints_defs::CoreIndexError;
use fleetbench::endpoints_defs::RemoteEndpoint;
use fleetbench::endpoints_defs::RemoteEndpointSummary;
use fleetbench::endpoints_defs::RemoteEndpoints;
use fleetbench::sysinfo_defs::u64_to_string;
use fleetbench::sysinfo_defs::usize_to_string;
use fleetbench::sysinfo_defs::SystemDisks;
use fleetbench::sysinfo_defs::SystemInfo;
use fleetbench::tweet_defs::Entities;
use fleetbench::tweet_defs::Tweet;
use fleetbench::tweet_defs::User;

/// The library's total-order key of a floating-point score: negative scores
/// complemented, non-negative scores with the sign bit set.
fn score_key(x: f64) -> u64 {
    let bits = x.to_bits();
    if bits & 0x8000_0000_0000_0000 != 0 {
        !bits
    } else {
        bits | 0x8000_0000_0000_0000
    }
}

fn snapshot(cpu_cores: usize, cpu_virtual_cores: usize) -> SystemInfo {
    SystemInfo {
        system_name: "TestOS".to_string(),
        kernel_version: "5.0".to_string(),
        os_version: "1.0".to_string(),
        hostname: "host".to_string(),
        cpu_cores,
        cpu_virtual_cores,
        total_memory: 1024,
        used_memory: 512,
        total_swap: 256,
        used_swap: 0,
        disks: Vec::new(),
    }
}

fn report(hostname: &str, ip: u128, scores: &[(usize, f64)]) -> FullSystemInfo {
    FullSystemInfo {
        hostname: hostname.to_string(),
        app_version: None,
        ip: IpAddress::new(ip),
        source_path: None,
        benchmarks: scores
            .iter()
            .map(|&(cores, score)| Benchmark { cores, result: score_key(score) })
            .collect(),
        sysinfo: snapshot(2, 4),
    }
}

#[test]
fn extrema_bounds_nonempty() {
    let ep = report("a", 1, &[(1, 5.0), (2, 1.0), (3, 9.0)]);
    let (mn, mx) = ep.find_min_max_benchmark().unwrap();
    assert_eq!(mn.cores, 2);
    assert_eq!(mn.result, score_key(1.0));
    assert_eq!(mx.cores, 3);
    assert_eq!(mx.result, score_key(9.0));
    for b in &ep.benchmarks {
        assert!(mn.result <= b.result && b.result <= mx.result);
    }
}

#[test]
fn extrema_empty_absent() {
    let ep = report("a", 1, &[]);
    assert!(ep.find_min_max_benchmark().is_none());
}

#[test]
fn extrema_nan_never_preferred() {
    let ep = report("a", 1, &[(1, f64::NAN), (2, 3.0), (3, f64::NAN)]);
    let (mn, mx) = ep.find_min_max_benchmark().unwrap();
    assert_eq!(mn.cores, 2);
    assert_eq!(mx.cores, 2);
    assert_eq!(mn.result, score_key(3.0));
    assert_eq!(mx.result, score_key(3.0));
}

#[test]
fn extrema_all_nan_keeps_first() {
    let ep = report("a", 1, &[(1, f64::NAN), (2, f64::NAN)]);
    let (mn, mx) = ep.find_min_max_benchmark().unwrap();
    assert_eq!(mn.cores, 1);
    assert_eq!(mx.cores, 1);
}

#[test]
fn extrema_tie_keeps_first() {
    let ep = report("a", 1, &[(1, 5.0), (2, 5.0)]);
    let (mn, mx) = ep.find_min_max_benchmark().unwrap();
    assert_eq!(mn.cores, 1);
    assert_eq!(mx.cores, 1);
}

fn fleet_3_0_2() -> RemoteEndpoints {
    RemoteEndpoints::new(vec![
        RemoteEndpoint::new(IpAddress::new(10), snapshot(3, 3)),
        RemoteEndpoint::new(IpAddress::new(20), snapshot(0, 0)),
        RemoteEndpoint::new(IpAddress::new(30), snapshot(2, 2)),
    ])
}

#[test]
fn core_index_prefix_partition() {
    let fleet = fleet_3_0_2();
    let index = fleet.get_core_list().unwrap();
    assert_eq!(index.len(), 5);
    for slot in 0u32..3 {
        assert_eq!(index.get(&slot), Some(&IpAddress::new(10)));
    }
    for slot in 3u32..5 {
        assert_eq!(index.get(&slot), Some(&IpAddress::new(30)));
    }
    let summary = fleet.thread_summary();
    assert_eq!(summary.total_cores, 5);
    assert_eq!(summary.total_endpoints, 3);
}

#[test]
fn core_index_rerun_identical() {
    let fleet = fleet_3_0_2();
    let first = fleet.get_core_list().unwrap();
    let second = fleet.get_core_list().unwrap();
    assert_eq!(first, second);
}

#[test]
fn counter_overflow_detected() {
    let fleet = RemoteEndpoints::new(vec![
        RemoteEndpoint::new(IpAddress::new(1), snapshot(5, 5)),
        RemoteEndpoint::new(IpAddress::new(2), snapshot(1, u32::MAX as usize)),
    ]);
    assert_eq!(fleet.get_core_list(), Err(CoreIndexError::CounterOverflow));
}

#[test]
fn oversized_endpoint_skipped() {
    let too_many = u32::MAX as usize + 1;
    let fleet = RemoteEndpoints::new(vec![
        RemoteEndpoint::new(IpAddress::new(1), snapshot(3, 3)),
        RemoteEndpoint::new(IpAddress::new(2), snapshot(1, too_many)),
    ]);
    let index = fleet.get_core_list().unwrap();
    assert_eq!(index.len(), 3);
    for slot in 0u32..3 {
        assert_eq!(index.get(&slot), Some(&IpAddress::new(1)));
    }
    assert_eq!(fleet.thread_summary().total_cores, 3);
}

#[test]
fn summary_saturates_instead_of_wrapping() {
    let fleet = RemoteEndpoints::new(vec![
        RemoteEndpoint::new(IpAddress::new(1), snapshot(1, u32::MAX as usize)),
        RemoteEndpoint::new(IpAddress::new(2), snapshot(1, 1)),
    ]);
    let summary = fleet.thread_summary();
    assert_eq!(summary.total_cores, u32::MAX);
    assert_eq!(summary.total_endpoints, 2);
}

#[test]
fn summary_new_is_zero() {
    let summary = RemoteEndpointSummary::new();
    assert_eq!(summary.total_cores, 0);
    assert_eq!(summary.total_endpoints, 0);
}

#[test]
fn ranking_ascending_preserves_cores() {
    let eps = vec![report("a", 1, &[(1, 10.0), (2, 30.0), (1, 20.0)])];
    let ranked = FullSystemInfo::get_all_benchmarks_sorted_by_result(&eps);
    assert_eq!(ranked.len(), 3);
    assert_eq!(ranked[0].result, score_key(10.0));
    assert_eq!(ranked[0].cores, 1);
    assert_eq!(ranked[1].result, score_key(20.0));
    assert_eq!(ranked[1].cores, 1);
    assert_eq!(ranked[2].result, score_key(30.0));
    assert_eq!(ranked[2].cores, 2);
}

#[test]
fn ranking_stable_for_equal_scores() {
    let eps = vec![report("a", 1, &[(1, 7.0), (2, 7.0)]), report("b", 2, &[(3, 7.0)])];
    let ranked = FullSystemInfo::get_all_benchmarks_sorted_by_result(&eps);
    let cores: Vec<usize> = ranked.iter().map(|b| b.cores).collect();
    assert_eq!(cores, vec![1, 2, 3]);
}

#[test]
fn ranking_empty_input_empty_output() {
    let eps: Vec<FullSystemInfo> = Vec::new();
    assert!(FullSystemInfo::get_all_benchmarks_sorted_by_result(&eps).is_empty());
}

#[test]
fn leaderboard_retains_equal_best() {
    let eps = vec![
        report("a", 2, &[(1, 42.0), (2, 10.0)]),
        report("b", 1, &[(4, 42.0)]),
    ];
    let board = FullSystemInfo::to_flat_benchmarks(&eps);
    assert_eq!(board.len(), 2);
    assert_eq!(board[0].ip, IpAddress::new(1));
    assert_eq!(board[0].hostname, "b");
    assert_eq!(board[0].benchmark.result, score_key(42.0));
    assert_eq!(board[1].ip, IpAddress::new(2));
    assert_eq!(board[1].hostname, "a");
    assert_eq!(board[1].benchmark.result, score_key(42.0));
}

#[test]
fn leaderboard_orders_descending() {
    let eps = vec![
        report("a", 1, &[(1, 10.0)]),
        report("b", 2, &[(2, 30.0), (2, 5.0)]),
        report("c", 3, &[(3, 20.0)]),
    ];
    let board = FullSystemInfo::to_flat_benchmarks(&eps);
    let hosts: Vec<&str> = board.iter().map(|e| e.hostname.as_str()).collect();
    assert_eq!(hosts, vec!["b", "c", "a"]);
    assert_eq!(board[0].benchmark.result, score_key(30.0));
}

#[test]
fn leaderboard_skips_endpoint_without_samples() {
    let eps = vec![report("a", 1, &[]), report("b", 2, &[(1, 3.0)])];
    let board = FullSystemInfo::to_flat_benchmarks(&eps);
    assert_eq!(board.len(), 1);
    assert_eq!(board[0].hostname, "b");
}

#[test]
fn aggregation_idempotent() {
    let eps = vec![
        report("a", 1, &[(1, 10.0), (2, 30.0)]),
        report("b", 2, &[(1, 20.0)]),
    ];
    let ranked1 = FullSystemInfo::get_all_benchmarks_sorted_by_result(&eps);
    let ranked2 = FullSystemInfo::get_all_benchmarks_sorted_by_result(&eps);
    assert_eq!(ranked1, ranked2);
    let board1 = FullSystemInfo::to_flat_benchmarks(&eps);
    let board2 = FullSystemInfo::to_flat_benchmarks(&eps);
    assert_eq!(board1, board2);
    let fleet = fleet_3_0_2();
    assert_eq!(fleet.thread_summary(), fleet.thread_summary());
}

#[test]
fn report_requires_address() {
    let missing = FullSystemInfo::new(
        "a".to_string(),
        None,
        None,
        None,
        Vec::new(),
        snapshot(1, 1),
    );
    assert!(missing.is_none());
    let present = FullSystemInfo::new(
        "a".to_string(),
        Some("2.0".to_string()),
        Some(IpAddress::new(9)),
        None,
        Vec::new(),
        snapshot(1, 1),
    );
    let info = present.unwrap();
    assert_eq!(info.hostname, "a");
    assert_eq!(info.ip, IpAddress::new(9));
    assert_eq!(info.app_version.as_deref(), Some("2.0"));
}

#[test]
fn decimal_formatting_exact() {
    assert_eq!(u64_to_string(0), "0");
    assert_eq!(u64_to_string(7), "7");
    assert_eq!(u64_to_string(10), "10");
    assert_eq!(u64_to_string(12345), "12345");
    assert_eq!(u64_to_string(u64::MAX), u64::MAX.to_string());
    assert_eq!(usize_to_string(42), "42");
}

#[test]
fn summary_map_labels_fields() {
    let mut si = snapshot(4, 8);
    si.disks = vec![SystemDisks {
        disk_type: Some("SSD".to_string()),
        file_system: Some("ext4".to_string()),
        free_space: None,
    }];
    let map = si.to_hashmap();
    assert_eq!(map.get("System Name").map(|s| s.as_str()), Some("TestOS"));
    assert_eq!(map.get("Hostname").map(|s| s.as_str()), Some("host"));
    assert_eq!(map.get("CPU Cores").map(|s| s.as_str()), Some("4"));
    assert_eq!(map.get("CPU Virtual Cores").map(|s| s.as_str()), Some("8"));
    assert_eq!(map.get("Total Memory").map(|s| s.as_str()), Some("1024"));
    assert_eq!(map.get("Used Memory").map(|s| s.as_str()), Some("512"));
    assert_eq!(map.get("Total Swap").map(|s| s.as_str()), Some("256"));
    assert_eq!(map.get("Used Swap").map(|s| s.as_str()), Some("0"));
    assert_eq!(map.get("Disk Type").map(|s| s.as_str()), Some("SSD"));
    assert_eq!(map.get("File System").map(|s| s.as_str()), Some("ext4"));
    assert!(map.get("Free Space").is_none());
    assert_eq!(map.len(), 12);
}

#[test]
fn summary_map_later_disk_wins() {
    let mut si = snapshot(1, 1);
    si.disks = vec![
        SystemDisks {
            disk_type: Some("HDD".to_string()),
            file_system: None,
            free_space: Some("1".to_string()),
        },
        SystemDisks {
            disk_type: Some("SSD".to_string()),
            file_system: None,
            free_space: None,
        },
    ];
    let map = si.to_hashmap();
    assert_eq!(map.get("Disk Type").map(|s| s.as_str()), Some("SSD"));
    assert_eq!(map.get("Free Space").map(|s| s.as_str()), Some("1"));
}

#[test]
fn tweet_core_projects_fields() {
    let user = User {
        id: 7,
        id_str: "7".to_string(),
        name: "Ada".to_string(),
        screen_name: "ada".to_string(),
        location: None,
        url: None,
        description: None,
        followers_count: 1,
        friends_count: 2,
        statuses_count: 3,
        created_at: "2020".to_string(),
    };
    let tweet = Tweet {
        created_at: "2021".to_string(),
        id: 99,
        id_str: "99".to_string(),
        text: "hello".to_string(),
        display_text_range: None,
        source: "web".to_string(),
        truncated: false,
        in_reply_to_status_id: None,
        in_reply_to_status_id_str: None,
        in_reply_to_user_id: None,
        in_reply_to_user_id_str: None,
        in_reply_to_screen_name: None,
        user,
        geo: None,
        coordinates: None,
        place: None,
        contributors: None,
        is_quote_status: false,
        quote_count: None,
        reply_count: None,
        retweet_count: 5,
        favorite_count: 6,
        entities: Entities { user_mentions: Vec::new() },
        favorited: false,
        retweeted: false,
        filter_level: None,
        lang: None,
        timestamp_ms: None,
    };
    let core = Tweet::tweet_core(tweet);
    assert_eq!(core.text, "hello");
    assert_eq!(core.retweet_count, 5);
    assert_eq!(core.user.screen_name, "ada");
}
