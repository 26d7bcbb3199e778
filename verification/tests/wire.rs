use hostagent::summary::SummaryRecord;
use hostagent::wire::{encode, field_name, field_value, push_escaped, push_field, push_value, Field};
use hostagent::wire_reader::{decode, record_from};

fn record() -> SummaryRecord {
    SummaryRecord {
        host_identity: String::from("web-01"),
        component_tag: String::from("agent"),
        timestamp: 1_700_000_000,
        uptime_seconds: 86_400,
        cpu_avg: 4250,
        cpu_min: 5,
        cpu_max: 10_000,
        mem_avg: 2_147_483_648,
        mem_min: 0,
        mem_max: 4_294_967_296,
        net_rx_delta: 1024,
        net_tx_delta: 0,
        sample_count: 5,
    }
}

const LINE: &str = "{\"host_identity\":\"web-01\",\"component_tag\":\"agent\",\"timestamp\":1700000000,\
\"uptime_seconds\":86400,\"cpu_avg\":42.50,\"cpu_min\":0.05,\"cpu_max\":100.00,\
\"mem_avg\":2147483648,\"mem_min\":0,\"mem_max\":4294967296,\"net_rx_delta\":1024,\
\"net_tx_delta\":0,\"sample_count\":5}";

#[test]
fn a_record_is_written_as_one_json_object() {
    assert_eq!(encode(&record()), LINE);
}

#[test]
fn a_record_round_trips() {
    let mut sent = record();
    sent.cpu_avg = (42.5_f64 * 100.0).round() as u32;
    sent.net_rx_delta = 1024;
    sent.sample_count = 5;
    let line = encode(&sent);
    assert!(line.contains("\"cpu_avg\":42.50,"));
    let back = decode(&line).unwrap();
    assert_eq!(f64::from(back.cpu_avg) / 100.0, 42.5);
    assert_eq!(back.net_rx_delta, 1024);
    assert_eq!(back.sample_count, 5);
    assert_eq!(back, sent);
}

#[test]
fn the_line_reads_as_the_record() {
    assert_eq!(decode(LINE), Some(record()));
}

#[test]
fn the_greatest_values_round_trip() {
    let sent = SummaryRecord {
        host_identity: String::new(),
        component_tag: String::new(),
        timestamp: u64::MAX,
        uptime_seconds: u64::MAX,
        cpu_avg: u32::MAX,
        cpu_min: u32::MAX,
        cpu_max: u32::MAX,
        mem_avg: u64::MAX,
        mem_min: u64::MAX,
        mem_max: u64::MAX,
        net_rx_delta: u64::MAX,
        net_tx_delta: u64::MAX,
        sample_count: u64::MAX,
    };
    let line = encode(&sent);
    assert!(line.contains("\"cpu_max\":42949672.95,"));
    assert!(line.contains("\"sample_count\":18446744073709551615}"));
    assert_eq!(decode(&line), Some(sent));
}

#[test]
fn the_least_values_round_trip() {
    let sent = SummaryRecord {
        host_identity: String::new(),
        component_tag: String::new(),
        timestamp: 0,
        uptime_seconds: 0,
        cpu_avg: 0,
        cpu_min: 0,
        cpu_max: 0,
        mem_avg: 0,
        mem_min: 0,
        mem_max: 0,
        net_rx_delta: 0,
        net_tx_delta: 0,
        sample_count: 0,
    };
    let line = encode(&sent);
    assert!(line.starts_with("{\"host_identity\":\"\",\"component_tag\":\"\",\"timestamp\":0,"));
    assert!(line.contains("\"cpu_avg\":0.00,"));
    assert_eq!(decode(&line), Some(sent));
}

#[test]
fn text_is_escaped_and_read_back() {
    let mut sent = record();
    sent.host_identity = String::from("a\"b\\c\nd\te\u{0}f\u{1f}g\u{7f}h\u{e9}\u{1f600}/'");
    sent.component_tag = String::from("\\\"\\u0041\",\"x\":1}");
    let line = encode(&sent);
    assert!(line.starts_with(
        "{\"host_identity\":\"a\\\"b\\\\c\\u000ad\\u0009e\\u0000f\\u001fg\u{7f}h\u{e9}\u{1f600}/'\","
    ));
    assert!(!line.contains('\n'));
    assert_eq!(decode(&line), Some(sent));
}

#[test]
fn escaping_character_by_character() {
    let mut out = String::from(">");
    push_escaped(&mut out, "q\"\\\r\u{10} z");
    assert_eq!(out, ">q\\\"\\\\\\u000d\\u0010 z");
}

#[test]
fn values_as_they_are_written() {
    let mut out = String::new();
    push_value(&mut out, &Field::Whole(907));
    out.push(' ');
    push_value(&mut out, &Field::Hundredths(907));
    out.push(' ');
    push_value(&mut out, &Field::Hundredths(7));
    out.push(' ');
    push_value(&mut out, &Field::Hundredths(120));
    out.push(' ');
    push_value(&mut out, &Field::Text(String::from("x y")));
    assert_eq!(out, "907 9.07 0.07 1.20 \"x y\"");
    let mut field = String::new();
    push_field(&mut field, "cpu_avg", &Field::Hundredths(4250));
    assert_eq!(field, "\"cpu_avg\":42.50");
}

#[test]
fn fields_by_place() {
    let r = record();
    assert_eq!(field_name(0), "host_identity");
    assert_eq!(field_name(4), "cpu_avg");
    assert_eq!(field_name(12), "sample_count");
    assert_eq!(field_value(&r, 0), Field::Text(String::from("web-01")));
    assert_eq!(field_value(&r, 1), Field::Text(String::from("agent")));
    assert_eq!(field_value(&r, 2), Field::Whole(1_700_000_000));
    assert_eq!(field_value(&r, 3), Field::Whole(86_400));
    assert_eq!(field_value(&r, 4), Field::Hundredths(4250));
    assert_eq!(field_value(&r, 5), Field::Hundredths(5));
    assert_eq!(field_value(&r, 6), Field::Hundredths(10_000));
    assert_eq!(field_value(&r, 7), Field::Whole(2_147_483_648));
    assert_eq!(field_value(&r, 8), Field::Whole(0));
    assert_eq!(field_value(&r, 9), Field::Whole(4_294_967_296));
    assert_eq!(field_value(&r, 10), Field::Whole(1024));
    assert_eq!(field_value(&r, 11), Field::Whole(0));
    assert_eq!(field_value(&r, 12), Field::Whole(5));
}

#[test]
fn a_record_from_its_values() {
    let r = record();
    let values: Vec<Field> = (0..13).map(|i| field_value(&r, i)).collect();
    assert_eq!(record_from(&values), Some(r.clone()));
    let mut wrong: Vec<Field> = (0..13).map(|i| field_value(&r, i)).collect();
    wrong[4] = Field::Whole(42);
    assert_eq!(record_from(&wrong), None);
    let mut wrong: Vec<Field> = (0..13).map(|i| field_value(&r, i)).collect();
    wrong[0] = Field::Whole(42);
    assert_eq!(record_from(&wrong), None);
    let mut wrong: Vec<Field> = (0..13).map(|i| field_value(&r, i)).collect();
    wrong[12] = Field::Hundredths(42);
    assert_eq!(record_from(&wrong), None);
    let short: Vec<Field> = (0..12).map(|i| field_value(&r, i)).collect();
    assert_eq!(record_from(&short), None);
    let long: Vec<Field> = (0..14).map(|i| field_value(&r, i)).collect();
    assert_eq!(record_from(&long), None);
    assert_eq!(record_from(&Vec::new()), None);
    assert_eq!(field_name(13), "sample_count");
    assert_eq!(field_value(&r, 99), Field::Whole(5));
}

#[test]
fn lines_that_are_no_record() {
    assert_eq!(decode(""), None);
    assert_eq!(decode("{"), None);
    assert_eq!(decode("{}"), None);
    assert_eq!(decode("null"), None);
    assert_eq!(decode(&LINE[1..]), None);
    assert_eq!(decode(&LINE[..LINE.len() - 1]), None);
    assert_eq!(decode(&format!("{}\n", LINE)), None);
    assert_eq!(decode(&format!(" {}", LINE)), None);
    assert_eq!(decode(&format!("{}}}", LINE)), None);
    assert_eq!(decode(&LINE.replace("\"timestamp\":1700000000,", "")), None);
    assert_eq!(decode(&LINE.replace("\"timestamp\"", "\"time\"")), None);
    assert_eq!(decode(&LINE.replace(":1700000000", ":01700000000")), None);
    assert_eq!(decode(&LINE.replace(":1700000000", ":+1700000000")), None);
    assert_eq!(decode(&LINE.replace(":1700000000", ":-1")), None);
    assert_eq!(decode(&LINE.replace(":1700000000", ":18446744073709551616")), None);
    assert_eq!(decode(&LINE.replace(":1700000000", ":\"1700000000\"")), None);
    assert_eq!(decode(&LINE.replace(":1700000000", ": 1700000000")), None);
    assert_eq!(decode(&LINE.replace(":42.50", ":42.5")), None);
    assert_eq!(decode(&LINE.replace(":42.50", ":42.500")), None);
    assert_eq!(decode(&LINE.replace(":42.50", ":42")), None);
    assert_eq!(decode(&LINE.replace(":42.50", ":042.50")), None);
    assert_eq!(decode(&LINE.replace(":42.50", ":.50")), None);
    assert_eq!(decode(&LINE.replace(":42.50", ":42949672.96")), None);
    assert_eq!(decode(&LINE.replace(":42.50", ":4.25e1")), None);
    assert_eq!(decode(&LINE.replace("web-01", "web\"01")), None);
    assert_eq!(decode(&LINE.replace("web-01", "web\\01")), None);
    assert_eq!(decode(&LINE.replace("web-01", "web\n01")), None);
    assert_eq!(decode(&LINE.replace("web-01", "web\\u000A01")), None);
    assert_eq!(decode(&LINE.replace("web-01", "web\\u004101")), None);
    assert_eq!(decode(&LINE.replace("web-01", "web\\n01")), None);
    assert_eq!(decode(&LINE.replace("web-01", "web\\u00")), None);
    assert_eq!(decode(&LINE.replace(",\"sample_count\":5}", ",\"sample_count\":5,}")), None);
    assert_eq!(decode(&LINE.replace("\"mem_min\":0,\"mem_max\":4294967296", "\"mem_max\":4294967296,\"mem_min\":0")), None);
}

#[test]
fn only_lines_that_encode_writes_are_read() {
    let lines = [
        LINE.to_string(),
        LINE.replace("web-01", "web\\u000a01"),
        LINE.replace("web-01", "web\\u007f01"),
        LINE.replace("web-01", "web\\u002201"),
        LINE.replace("web-01", "\\\"\\\\"),
        LINE.replace(":5}", ":05}"),
        LINE.replace(":0.05", ":0.5"),
    ];
    let mut accepted = 0;
    for line in lines.iter() {
        match decode(line) {
            Some(r) => {
                assert_eq!(&encode(&r), line);
                accepted += 1;
            }
            None => {}
        }
    }
    assert_eq!(accepted, 3);
}
