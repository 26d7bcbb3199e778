use hostagent::metrics::{network_totals, sum_counters, InterfaceCounters};
use hostagent::sampler::{Action, AgentLoop, ConfigError, Event, Phase};
use hostagent::sink::{file_entry, log_needs_rotation, sink_kind, SinkKind};
use hostagent::summary::SummaryRecord;
use hostagent::wire::encode;
use hostagent::wire_reader::decode;
use hostagent::summary::RawSample;
use hostagent::text::{chars_of, same_text};

fn reading(cpu: u32, net_rx: u64) -> Event {
    Event::Sample(RawSample { cpu, mem: 1000, net_rx, net_tx: 0 })
}

fn new_loop(interval: u64) -> AgentLoop {
    AgentLoop::new(String::from("host-a"), String::from("agent"), interval).unwrap()
}

#[test]
fn an_interval_of_no_seconds_is_refused() {
    let made = AgentLoop::new(String::from("h"), String::from("agent"), 0);
    assert!(matches!(made, Err(ConfigError::ZeroInterval)));
}

#[test]
fn a_new_loop_wants_the_clock() {
    let agent = new_loop(3);
    assert_eq!(agent.phase(), Phase::Idle);
    assert_eq!(agent.pending(), Action::ReadClock);
}

#[test]
fn one_record_after_exactly_interval_readings() {
    let mut agent = new_loop(3);
    assert_eq!(agent.step(Event::Clock { timestamp: 100, uptime_seconds: 9 }), Action::Sample);
    assert_eq!(agent.step(reading(1000, 50)), Action::Sample);
    assert_eq!(agent.step(reading(3000, 70)), Action::Sample);
    let action = agent.step(reading(2000, 1074));
    assert_eq!(agent.phase(), Phase::Emitting);
    match action {
        Action::Emit(record) => {
            assert_eq!(record.sample_count, 3);
            assert_eq!(record.cpu_avg, 2000);
            assert_eq!(record.cpu_min, 1000);
            assert_eq!(record.cpu_max, 3000);
            assert_eq!(record.net_rx_delta, 1024);
            assert_eq!(record.timestamp, 100);
            assert_eq!(record.uptime_seconds, 9);
            assert_eq!(record.host_identity, "host-a");
        }
        other => panic!("{:?}", other),
    }
    assert_eq!(agent.step(Event::Delivered), Action::CheckStop);
    assert_eq!(agent.step(Event::StopMarker { present: false }), Action::ReadClock);
    assert_eq!(agent.phase(), Phase::Idle);
}

#[test]
fn the_next_interval_starts_empty() {
    let mut agent = new_loop(1);
    agent.step(Event::Clock { timestamp: 1, uptime_seconds: 1 });
    agent.step(reading(9000, 5));
    agent.step(Event::Delivered);
    agent.step(Event::StopMarker { present: false });
    agent.step(Event::Clock { timestamp: 2, uptime_seconds: 2 });
    match agent.step(reading(100, 900)) {
        Action::Emit(record) => {
            assert_eq!(record.sample_count, 1);
            assert_eq!(record.cpu_max, 100);
            assert_eq!(record.net_rx_delta, 0);
            assert_eq!(record.timestamp, 2);
        }
        other => panic!("{:?}", other),
    }
}

#[test]
fn the_stop_marker_ends_the_loop_after_delivery() {
    let mut agent = new_loop(1);
    agent.step(Event::Clock { timestamp: 1, uptime_seconds: 1 });
    agent.step(reading(1, 1));
    assert_eq!(agent.step(Event::Delivered), Action::CheckStop);
    assert_eq!(agent.step(Event::StopMarker { present: true }), Action::Exit);
    assert_eq!(agent.phase(), Phase::Stopped);
    assert_eq!(agent.step(Event::Clock { timestamp: 2, uptime_seconds: 2 }), Action::Exit);
    assert_eq!(agent.step(reading(1, 1)), Action::Exit);
}

#[test]
fn the_stop_marker_is_not_heeded_within_an_interval() {
    let mut agent = new_loop(2);
    agent.step(Event::Clock { timestamp: 1, uptime_seconds: 1 });
    assert_eq!(agent.step(Event::StopMarker { present: true }), Action::Sample);
    assert_eq!(agent.step(reading(1, 1)), Action::Sample);
    assert_eq!(agent.step(Event::StopMarker { present: true }), Action::Sample);
    assert_eq!(agent.phase(), Phase::Sampling);
}

#[test]
fn an_event_out_of_turn_changes_nothing() {
    let mut agent = new_loop(2);
    assert_eq!(agent.step(reading(1, 1)), Action::ReadClock);
    assert_eq!(agent.step(Event::Delivered), Action::ReadClock);
    agent.step(Event::Clock { timestamp: 10, uptime_seconds: 1 });
    assert_eq!(agent.step(Event::Clock { timestamp: 99, uptime_seconds: 99 }), Action::Sample);
    agent.step(reading(10, 0));
    let first = agent.step(reading(30, 0));
    let again = agent.step(reading(5000, 0));
    assert_eq!(first, again);
    match again {
        Action::Emit(record) => {
            assert_eq!(record.timestamp, 10);
            assert_eq!(record.sample_count, 2);
            assert_eq!(record.cpu_max, 30);
        }
        other => panic!("{:?}", other),
    }
}

#[test]
fn sink_kinds_by_name() {
    assert_eq!(sink_kind("file"), Ok(SinkKind::File));
    assert_eq!(sink_kind("udp"), Ok(SinkKind::Datagram));
    assert_eq!(sink_kind("tcp"), Err(ConfigError::UnknownLogType));
    assert_eq!(sink_kind(""), Err(ConfigError::UnknownLogType));
    assert_eq!(sink_kind("File"), Err(ConfigError::UnknownLogType));
    assert_eq!(sink_kind("udp "), Err(ConfigError::UnknownLogType));
}

#[test]
fn rotation_is_due_above_the_threshold() {
    assert!(!log_needs_rotation(0, 0));
    assert!(!log_needs_rotation(1000, 1000));
    assert!(log_needs_rotation(1001, 1000));
    assert!(!log_needs_rotation(999, 1000));
}

#[test]
fn counters_add_up_over_the_interfaces() {
    let counters = vec![
        InterfaceCounters { received: 100, transmitted: 1 },
        InterfaceCounters { received: 20, transmitted: 2 },
        InterfaceCounters { received: 3, transmitted: 3 },
    ];
    assert_eq!(sum_counters(&counters), (123, 6));
    assert_eq!(sum_counters(&Vec::new()), (0, 0));
}

#[test]
fn a_sum_beyond_the_counter_stops_at_its_greatest_value() {
    let counters = vec![
        InterfaceCounters { received: u64::MAX - 1, transmitted: 5 },
        InterfaceCounters { received: 7, transmitted: 5 },
        InterfaceCounters { received: 1, transmitted: u64::MAX - 10 },
    ];
    assert_eq!(sum_counters(&counters), (u64::MAX, u64::MAX));
}

#[test]
fn live_network_totals_are_those_of_the_listed_interfaces() {
    let networks = sysinfo::Networks::new_with_refreshed_list();
    let counters: Vec<InterfaceCounters> = networks
        .list()
        .values()
        .map(|d| InterfaceCounters { received: d.total_received(), transmitted: d.total_transmitted() })
        .collect();
    assert_eq!(network_totals(&networks), sum_counters(&counters));
    assert_eq!(network_totals(&sysinfo::Networks::new()), (0, 0));
}

#[test]
fn characters_of_a_text() {
    assert_eq!(chars_of("a\u{e9}\u{3000}"), vec!['a', '\u{e9}', '\u{3000}']);
    assert_eq!(chars_of(""), Vec::<char>::new());
    assert!(same_text("udp", "udp"));
    assert!(!same_text("udp", "udq"));
    assert!(!same_text("udp", "ud"));
    assert!(same_text("", ""));
}

#[test]
fn the_file_sink_appends_one_line_for_a_record() {
    let record = SummaryRecord {
        host_identity: String::from("line one\nline two\r\n"),
        component_tag: String::from("agent"),
        timestamp: 1,
        uptime_seconds: 2,
        cpu_avg: 3,
        cpu_min: 3,
        cpu_max: 3,
        mem_avg: 4,
        mem_min: 4,
        mem_max: 4,
        net_rx_delta: 5,
        net_tx_delta: 6,
        sample_count: 1,
    };
    let entry = file_entry(&record);
    assert_eq!(entry, format!("{}\n", encode(&record)));
    assert_eq!(entry.matches('\n').count(), 1);
    assert!(entry.ends_with("}\n"));
    assert_eq!(entry.lines().count(), 1);
    assert_eq!(decode(entry.lines().next().unwrap()), Some(record));
}
