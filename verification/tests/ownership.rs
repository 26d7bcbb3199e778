use hostagent::ownership::{
    check_processes_of, check_running_process, decide_ownership, oldest_candidate, parse_record,
    process_runs, record_text, ProcessEntry, RecordAction, Verdict,
};

const IMAGE: &[u8] = b"/opt/agent/bin/hostagent";

fn agent(pid: u32, parent: Option<u32>, start_time: u64) -> ProcessEntry {
    ProcessEntry {
        pid,
        parent,
        exe: Some(IMAGE.to_vec()),
        cmd: vec![b"hostagent".to_vec(), b"agent".to_vec()],
        start_time,
    }
}

fn image() -> Vec<u8> {
    IMAGE.to_vec()
}

#[test]
fn no_record_defers_to_the_earlier_of_two_candidates() {
    let table = vec![agent(300, Some(1), 2000), agent(200, Some(1), 1000)];
    let verdict = decide_ownership(None, &table, 400, &image());
    assert_eq!(verdict, Verdict::Defer { owner: 200 });
    assert_eq!(verdict.record_action(400), RecordAction::Write { owner: 200 });
    assert_eq!(verdict.exit_code(), Some(0));
    assert_eq!(record_text(200), "200\n");
}

#[test]
fn no_record_and_equal_start_times_defer_to_the_least_identifier() {
    let table = vec![agent(31, None, 500), agent(17, None, 500), agent(64, None, 500)];
    assert_eq!(oldest_candidate(&table, 99, &image()), Some(17));
}

#[test]
fn start_time_counts_before_the_identifier() {
    let table = vec![agent(5, None, 900), agent(80, None, 100)];
    assert_eq!(oldest_candidate(&table, 99, &image()), Some(80));
}

#[test]
fn no_record_and_no_candidate_claims_ownership() {
    let table = vec![agent(400, Some(1), 1000)];
    let verdict = decide_ownership(None, &table, 400, &image());
    assert_eq!(verdict, Verdict::Claim);
    assert_eq!(verdict.record_action(400), RecordAction::Write { owner: 400 });
    assert_eq!(verdict.exit_code(), None);
}

#[test]
fn empty_table_claims_ownership() {
    assert_eq!(decide_ownership(None, &Vec::new(), 7, &image()), Verdict::Claim);
}

#[test]
fn the_parent_of_the_current_process_is_no_candidate() {
    let table = vec![agent(10, Some(1), 100), agent(400, Some(10), 200)];
    assert_eq!(oldest_candidate(&table, 400, &image()), None);
    let with_another = vec![agent(10, Some(1), 100), agent(400, Some(10), 200), agent(11, Some(1), 300)];
    assert_eq!(oldest_candidate(&with_another, 400, &image()), Some(11));
}

#[test]
fn a_child_of_the_current_process_is_a_candidate() {
    let table = vec![agent(400, Some(1), 100), agent(401, Some(400), 200)];
    assert_eq!(oldest_candidate(&table, 400, &image()), Some(401));
}

#[test]
fn another_image_is_no_candidate() {
    let mut other = agent(10, None, 100);
    other.exe = Some(b"/opt/agent/bin/hostagent2".to_vec());
    let mut unknown = agent(11, None, 100);
    unknown.exe = None;
    assert_eq!(oldest_candidate(&vec![other, unknown], 400, &image()), None);
}

#[test]
fn another_mode_is_no_candidate() {
    let mut startup = agent(10, None, 100);
    startup.cmd = vec![b"hostagent".to_vec(), b"startup".to_vec()];
    let mut bare = agent(11, None, 100);
    bare.cmd = vec![b"hostagent".to_vec()];
    let mut later = agent(12, None, 100);
    later.cmd = vec![b"hostagent".to_vec(), b"-v".to_vec(), b"agent".to_vec()];
    let mut named = agent(13, None, 100);
    named.cmd = vec![b"agent".to_vec()];
    let mut longer = agent(14, None, 100);
    longer.cmd = vec![b"hostagent".to_vec(), b"agents".to_vec()];
    let table = vec![startup, bare, later, named, longer];
    assert_eq!(oldest_candidate(&table, 400, &image()), None);
}

#[test]
fn a_stale_record_is_taken_over() {
    let table = vec![agent(400, Some(1), 100), agent(20, Some(1), 50)];
    let verdict = decide_ownership(Some("777\n"), &table, 400, &image());
    assert_eq!(verdict, Verdict::TakeOver { stale: 777 });
    assert_eq!(verdict.record_action(400), RecordAction::Write { owner: 400 });
    assert_eq!(verdict.exit_code(), None);
    assert_eq!(record_text(400), "400\n");
}

#[test]
fn a_record_of_a_running_process_makes_the_agent_redundant() {
    let table = vec![agent(400, Some(1), 100), agent(20, Some(1), 50)];
    let verdict = decide_ownership(Some("20\n"), &table, 400, &image());
    assert_eq!(verdict, Verdict::Redundant { owner: 20 });
    assert_eq!(verdict.record_action(400), RecordAction::Keep);
    assert_eq!(verdict.exit_code(), Some(0));
}

#[test]
fn a_record_of_any_running_process_counts() {
    let mut shell = agent(20, Some(1), 50);
    shell.exe = Some(b"/bin/sh".to_vec());
    shell.cmd = vec![b"sh".to_vec()];
    assert_eq!(
        decide_ownership(Some("20"), &vec![shell], 400, &image()),
        Verdict::Redundant { owner: 20 }
    );
}

#[test]
fn a_record_that_is_no_number_is_corrupt() {
    let table = vec![agent(20, Some(1), 50)];
    let verdict = decide_ownership(Some("not-a-pid\n"), &table, 400, &image());
    assert_eq!(verdict, Verdict::Corrupt);
    assert_eq!(verdict.record_action(400), RecordAction::Delete);
    assert_eq!(verdict.exit_code(), Some(1));
}

#[test]
fn records_that_read_as_a_process_identifier() {
    assert_eq!(parse_record("1234\n"), Some(1234));
    assert_eq!(parse_record("1234"), Some(1234));
    assert_eq!(parse_record("  \t1234 \r\n"), Some(1234));
    assert_eq!(parse_record("+42\n"), Some(42));
    assert_eq!(parse_record("0\n"), Some(0));
    assert_eq!(parse_record("000017\n"), Some(17));
    assert_eq!(parse_record("4294967295\n"), Some(4294967295));
    assert_eq!(parse_record("\u{a0}12\u{2003}\u{3000}"), Some(12));
    assert_eq!(parse_record("00000000000000000000000000000000000000001"), Some(1));
}

#[test]
fn records_that_do_not() {
    assert_eq!(parse_record(""), None);
    assert_eq!(parse_record("\n"), None);
    assert_eq!(parse_record("   "), None);
    assert_eq!(parse_record("+"), None);
    assert_eq!(parse_record("-5"), None);
    assert_eq!(parse_record("++5"), None);
    assert_eq!(parse_record("12 34"), None);
    assert_eq!(parse_record("12a"), None);
    assert_eq!(parse_record("0x10"), None);
    assert_eq!(parse_record("1_000"), None);
    assert_eq!(parse_record("4294967296\n"), None);
    assert_eq!(parse_record("99999999999999999999999999"), None);
    assert_eq!(parse_record("12.0"), None);
    assert_eq!(parse_record("\u{663}"), None);
    assert_eq!(parse_record("pid: 12"), None);
}

#[test]
fn parse_record_agrees_with_the_standard_library() {
    let texts = [
        "1", " 1 ", "+1", "-1", "", "+", "18446744073709551616", "4294967295", "4294967296",
        "\t\n7\u{b}\u{c}\r", "\u{85}7\u{1680}", "\u{200a}8\u{2028}\u{2029}\u{202f}\u{205f}",
        "\u{200b}8", "8\u{feff}", "٣", "1 2", "+ 1", "0", "-0", "+0", "00", "1e3",
    ];
    for text in texts {
        assert_eq!(parse_record(text), text.trim().parse::<u32>().ok(), "{:?}", text);
    }
}

#[test]
fn record_text_is_digits_and_a_line_feed() {
    assert_eq!(record_text(0), "0\n");
    assert_eq!(record_text(7), "7\n");
    assert_eq!(record_text(10), "10\n");
    assert_eq!(record_text(4294967295), "4294967295\n");
}

#[test]
fn a_written_record_reads_back() {
    for pid in [0u32, 1, 9, 10, 99, 100, 12345, 65535, 65536, 4194304, 4294967294, 4294967295] {
        assert_eq!(parse_record(&record_text(pid)), Some(pid));
    }
}

#[test]
fn process_runs_finds_identifiers_of_the_table() {
    let table = vec![agent(1, None, 0), agent(2, Some(1), 5)];
    assert!(process_runs(&table, 1));
    assert!(process_runs(&table, 2));
    assert!(!process_runs(&table, 3));
    assert!(!process_runs(&Vec::new(), 1));
}

#[test]
fn live_record_of_this_process_is_redundant() {
    let me = sysinfo::get_current_pid().unwrap().as_u32();
    let verdict = check_running_process(Some(&record_text(me)), &image(), me);
    assert_eq!(verdict, Verdict::Redundant { owner: me });
}

#[test]
fn live_record_of_a_process_that_cannot_run_is_taken_over() {
    let me = sysinfo::get_current_pid().unwrap().as_u32();
    let verdict = check_running_process(Some("4000000000\n"), &image(), me);
    assert_eq!(verdict, Verdict::TakeOver { stale: 4000000000 });
    assert_eq!(verdict.record_action(me), RecordAction::Write { owner: me });
}

#[test]
fn live_corrupt_record_is_corrupt() {
    let me = sysinfo::get_current_pid().unwrap().as_u32();
    assert_eq!(check_running_process(Some("garbage"), &image(), me), Verdict::Corrupt);
}

#[test]
fn live_no_record_and_an_image_that_nothing_runs_claims() {
    let me = sysinfo::get_current_pid().unwrap().as_u32();
    let nowhere = b"/nonexistent/image/of/no/process".to_vec();
    assert_eq!(check_running_process(None, &nowhere, me), Verdict::Claim);
}

fn table_of(system: &sysinfo::System) -> Vec<ProcessEntry> {
    system
        .processes()
        .values()
        .map(|p| ProcessEntry {
            pid: p.pid().as_u32(),
            parent: p.parent().map(|q| q.as_u32()),
            exe: p.exe().map(|e| e.as_os_str().as_encoded_bytes().to_vec()),
            cmd: p.cmd().iter().map(|a| a.as_encoded_bytes().to_vec()).collect(),
            start_time: p.start_time(),
        })
        .collect()
}

#[test]
fn live_verdict_is_that_of_the_processes_held() {
    let system = sysinfo::System::new_all();
    let table = table_of(&system);
    assert!(!table.is_empty());
    let me = sysinfo::get_current_pid().unwrap().as_u32();
    let mine = table.iter().find(|p| p.pid == me).unwrap();
    let my_image = mine.exe.clone().unwrap_or_default();
    let images = [image(), my_image, Vec::new()];
    let first = format!("{}\n", table[0].pid);
    let records = [None, Some("1\n"), Some("4000000000"), Some("x"), Some(first.as_str())];
    for current in [me, 1, 4000000000] {
        for image in images.iter() {
            for record in records {
                assert_eq!(
                    check_processes_of(&system, record, image, current),
                    decide_ownership(record, &table, current, image)
                );
            }
        }
    }
}

#[test]
fn live_empty_handle_holds_no_process() {
    let system = sysinfo::System::new();
    assert_eq!(check_processes_of(&system, None, &image(), 5), Verdict::Claim);
    assert_eq!(
        check_processes_of(&system, Some("5\n"), &image(), 5),
        Verdict::TakeOver { stale: 5 }
    );
}

#[test]
fn the_order_of_the_table_does_not_matter() {
    let table = vec![
        agent(31, Some(400), 500),
        agent(17, None, 500),
        agent(400, Some(64), 900),
        agent(64, None, 100),
        agent(90, Some(1), 500),
    ];
    let mut turned = table.clone();
    turned.reverse();
    let mut rotated = table.clone();
    rotated.rotate_left(2);
    for record in [None, Some("31\n"), Some("32\n"), Some("?")] {
        let verdict = decide_ownership(record, &table, 400, &image());
        assert_eq!(decide_ownership(record, &turned, 400, &image()), verdict);
        assert_eq!(decide_ownership(record, &rotated, 400, &image()), verdict);
    }
    assert_eq!(decide_ownership(None, &table, 400, &image()), Verdict::Defer { owner: 17 });
}
