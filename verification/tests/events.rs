use bench::chunk_chain::{cpu_time_words, log_route, prove_chunks, LogLevel};
use bench::events::{
    civil_from_days, cpu_time_ms, current_rss_mb, event_line, format_iso8601_utc,
    get_memory_stats_kb, kb_to_mb, now_iso8601, peak_rss_mb, read_proc_status_kb,
    reading_iso8601,
};
use bench::ordering::sort_ascending;
use bench::text::{contains, join_path, lines, parse_u64, split_on, strip_prefix, trim, words};
use bench::text_map::TextMap;

const STATUS: &str = "Name:\tbench\nVmPeak:\t  20480 kB\nVmHWM:\t  4097 kB\nVmRSS:\t  2048 kB\n";

#[test]
fn iso8601_known_epochs() {
    assert_eq!(format_iso8601_utc(0), "1970-01-01T00:00:00Z");
    assert_eq!(format_iso8601_utc(1_781_061_262), "2026-06-10T03:14:22Z");
    assert_eq!(format_iso8601_utc(951_825_600), "2000-02-29T12:00:00Z");
}

#[test]
fn moments_sort_as_texts() {
    let moments = [0u64, 59, 60, 86_399, 86_400, 951_825_600, 1_781_061_262, 253_402_300_799];
    for pair in moments.windows(2) {
        assert!(format_iso8601_utc(pair[0]) < format_iso8601_utc(pair[1]), "{pair:?}");
    }
    assert_eq!(format_iso8601_utc(253_402_300_799), "9999-12-31T23:59:59Z");
    assert!(format_iso8601_utc(253_402_300_800) < format_iso8601_utc(253_402_300_799));
}

#[test]
fn civil_dates_round_the_calendar() {
    let d = civil_from_days(11_016);
    assert_eq!((d.year, d.month, d.day), (2000, 2, 29));
    let e = civil_from_days(11_017);
    assert_eq!((e.year, e.month, e.day), (2000, 3, 1));
}

#[test]
fn a_clock_before_1970_counts_as_its_start() {
    assert_eq!(reading_iso8601(None), "1970-01-01T00:00:00Z");
    assert_eq!(reading_iso8601(Some(86_400)), "1970-01-02T00:00:00Z");
}

#[test]
fn now_is_a_moment_of_this_form() {
    let now = now_iso8601();
    assert_eq!(now.len(), 20);
    assert!(now.ends_with('Z'));
    assert!(now.as_str() > "2024-01-01T00:00:00Z");
}

#[test]
fn rss_helpers_smoke() {
    assert_eq!(peak_rss_mb(STATUS), Some(4));
    assert_eq!(current_rss_mb(STATUS), Some(2));
    assert_eq!(peak_rss_mb(""), None);
    assert_eq!(current_rss_mb("VmRSS: x kB"), None);
    assert_eq!(read_proc_status_kb(STATUS, "VmPeak:"), Some(20_480));
    assert_eq!(kb_to_mb(1023), 0);
    assert_eq!(kb_to_mb(1024), 1);
    assert_eq!(kb_to_mb(0), 0);
    assert_eq!(get_memory_stats_kb(STATUS), (2048, 20_480));
    assert_eq!(get_memory_stats_kb("VmRSS:"), (0, 0));
}

#[test]
fn cpu_time_is_user_and_system_time() {
    assert_eq!(cpu_time_ms(1, 500_000, 0, 250_000), Some(1_750));
    assert_eq!(cpu_time_ms(0, 0, 0, 0), Some(0));
}

#[test]
fn event_lines_are_json_lines() {
    assert!(event_line("{\"event\":\"x\"}").contains("{\"event\":\"x\"}"));
}

#[test]
fn ticks_are_the_fourteenth_and_fifteenth_word() {
    let stat = "1 (b) S 1 1 1 0 -1 4194304 100 0 0 0 250 50 0 0 20";
    assert_eq!(cpu_time_words(stat), Some(("250".to_string(), "50".to_string())));
    assert_eq!(cpu_time_words("1 (b) S"), None);
    assert_eq!(
        cpu_time_words("0 1 2 3 4 5 6 7 8 9 10 11 12 x 1.5 15"),
        Some(("x".to_string(), "1.5".to_string()))
    );
}

#[test]
fn log_records_are_routed() {
    let warn = log_route(LogLevel::Warn, "plonky2::prover");
    assert!(!warn.collected && !warn.stages && !warn.printed);
    let info = log_route(LogLevel::Info, "bench");
    assert!(info.collected && !info.stages && info.printed);
    let circuit = log_route(LogLevel::Info, "my_circuit::x");
    assert!(circuit.stages);
    let debug = log_route(LogLevel::Debug, "bench");
    assert!(debug.stages && !debug.printed);
    let trace = log_route(LogLevel::Trace, "timing");
    assert!(trace.collected && trace.stages && !trace.printed);
    let error = log_route(LogLevel::Error, "bench");
    assert!(error.printed && !error.stages);
}

#[test]
fn chunks_are_proved_on_top_of_each_other() {
    let txs: Vec<u64> = (1..=7).collect();
    let (state, chain, count) = prove_chunks(
        &txs,
        3,
        0u64,
        Vec::new(),
        &|s: &u64, c: &[u64]| vec![*s, c.iter().sum::<u64>()],
        &|p: &Vec<u64>| p[0] + p[1],
        &|i: u64, chain: &Vec<u64>, p: &Vec<u64>| {
            let mut longer = chain.clone();
            longer.push(i * 1000 + p[0]);
            longer
        },
    );
    assert_eq!(count, 3);
    assert_eq!(state, 28);
    assert_eq!(chain, vec![0, 1006, 2021]);
}

#[test]
fn texts_are_taken_apart() {
    assert_eq!(trim("\t a b \n"), "a b");
    assert_eq!(words(" a  b\nc "), vec!["a", "b", "c"]);
    assert_eq!(lines("a\r\nb\n\nc"), vec!["a", "b", "", "c"]);
    assert_eq!(split_on("a,,b,", ','), vec!["a", "", "b", ""]);
    assert_eq!(split_on("", ','), vec![""]);
    assert_eq!(strip_prefix("VmRSS: 1", "VmRSS:"), Some(" 1"));
    assert_eq!(strip_prefix("Vm", "VmRSS:"), None);
    assert!(contains("abcab", "cab"));
    assert!(contains("abc", ""));
    assert!(!contains("abc", "abcd"));
    assert_eq!(parse_u64("+18446744073709551615"), Some(u64::MAX));
    assert_eq!(parse_u64("18446744073709551616"), None);
    assert_eq!(parse_u64(""), None);
    assert_eq!(parse_u64("-1"), None);
    assert_eq!(join_path("/a", "b"), "/a/b");
    assert_eq!(join_path("/a/", "b"), "/a/b");
    assert_eq!(join_path("/a", "/b"), "/b");
}

#[test]
fn text_maps_keep_the_last_value() {
    let mut m: TextMap<u32> = TextMap::new();
    m.insert("a".to_string(), 1);
    m.insert("b".to_string(), 2);
    m.insert("a".to_string(), 3);
    assert_eq!(m.get("a"), Some(&3));
    assert_eq!(m.get("c"), None);
    assert_eq!(m.keys().len(), 2);
    assert_eq!(sort_ascending(vec![3, 1, 2, 1]), vec![1, 1, 2, 3]);
}
