use nc_prometheus_exporter::coerce::coerce;
use nc_prometheus_exporter::convert::{join, MetricRecord};
use nc_prometheus_exporter::occurrences::decorate;
use nc_prometheus_exporter::order::{bytes_before, sorted_distinct, text_before};
use nc_prometheus_exporter::signature::parse_hex;
use nc_prometheus_exporter::text::{bytes_equal, push_decimal, push_replaced, push_text, text_equal};
use nc_prometheus_exporter::{
    accept_candidates, convert, digest_number, flatten_events, flatten_xml, names_signature,
    nc_metric_to_number, read_events, read_numbers, serialize, xml_path_to_metric_name,
    xml_to_prometheus, Candidate, NameOccurrenceTable, ReplacementConfig, Substitute, XmlEvent,
};

fn read_number(text: &str) -> Result<String, String> {
    match text.parse::<f64>() {
        Ok(val) => Ok(format!("{}", val)),
        Err(e) => Err(format!("{:?}", e)),
    }
}

fn strings(items: &[&str]) -> Vec<String> {
    items.iter().map(|s| s.to_string()).collect()
}

fn kinds(events: &[XmlEvent]) -> Vec<String> {
    events
        .iter()
        .map(|e| match e {
            XmlEvent::Start(name) => format!("start {}", name),
            XmlEvent::Text(text) => format!("text {}", text),
            XmlEvent::End => "end".to_string(),
            XmlEvent::Other => "other".to_string(),
            XmlEvent::BadText(at) => format!("bad text {}", at),
            XmlEvent::Eof => "eof".to_string(),
            XmlEvent::Error(at) => format!("error {}", at),
        })
        .collect()
}

fn pairs(candidates: &[Candidate]) -> Vec<(String, String)> {
    candidates.iter().map(|c| (c.name.clone(), c.text.clone())).collect()
}

const TRAILER_HEAD: &str = "# nc_metric_names_hash: first digits of a hash of all extracted metric names\n# this number indicates change of names or change of number of metrics\nnc_metric_names_hash ";

#[test]
fn name_of_empty_path_is_empty() {
    assert_eq!(xml_path_to_metric_name(&[]), "");
}

#[test]
fn name_of_single_component() {
    assert_eq!(xml_path_to_metric_name(&strings(&["root"])), "root");
}

#[test]
fn name_replaces_dots() {
    assert_eq!(xml_path_to_metric_name(&strings(&["a.b", "c..d", "e"])), "a_b_c__d_e");
}

#[test]
fn push_replaced_appends() {
    let mut out = "x=".to_string();
    push_replaced(&mut out, "1.2.3", '.', ',');
    assert_eq!(out, "x=1,2,3");
}

#[test]
fn decimal_numerals() {
    let mut out = String::new();
    push_decimal(&mut out, 0);
    push_text(&mut out, " ");
    push_decimal(&mut out, 10);
    push_text(&mut out, " ");
    push_decimal(&mut out, 16071814);
    push_text(&mut out, " ");
    push_decimal(&mut out, u64::MAX);
    assert_eq!(out, "0 10 16071814 18446744073709551615");
}

#[test]
fn texts_and_bytes_are_told_apart() {
    assert!(text_equal("abc", "abc"));
    assert!(!text_equal("abc", "abd"));
    assert!(!text_equal("abc", "ab"));
    assert!(bytes_equal(b"", b""));
    assert!(!bytes_equal(b"a", b""));
}

#[test]
fn order_of_texts_is_by_bytes() {
    assert!(text_before("a", "b"));
    assert!(!text_before("b", "a"));
    assert!(!text_before("a", "a"));
    assert!(text_before("a", "aa"));
    assert!(text_before("", "a"));
    assert!(!text_before("", ""));
    assert!(text_before("Z", "a"));
    assert!(text_before("z", "\u{e9}"));
    assert!(bytes_before(&[1, 2], &[1, 3]));
    assert!(!bytes_before(&[1, 3], &[1, 2, 9]));
}

#[test]
fn sorted_distinct_sorts_and_drops_repeats() {
    let names = strings(&["b", "a", "c", "a", "b", "aa", ""]);
    assert_eq!(sorted_distinct(&names), strings(&["", "a", "aa", "b", "c"]));
    assert_eq!(sorted_distinct(&Vec::new()), Vec::<String>::new());
}

#[test]
fn parse_hex_reads_digits_of_both_cases() {
    assert_eq!(parse_hex("ff"), Some(255));
    assert_eq!(parse_hex("F53c46"), Some(0xf53c46));
    assert_eq!(parse_hex("0"), Some(0));
    assert_eq!(parse_hex("ffffffff"), Some(u32::MAX));
}

#[test]
fn parse_hex_rejects_what_is_no_number_or_too_large() {
    assert_eq!(parse_hex("fg"), None);
    assert_eq!(parse_hex("-1"), None);
    assert_eq!(parse_hex("100000000"), None);
}

#[test]
fn digest_number_reads_the_first_three_bytes() {
    assert_eq!(digest_number(&[0xd4, 0x1d, 0x8c, 0xd9, 0x8f]), 13901196);
    assert_eq!(digest_number(&[0xf5, 0x3c, 0x46]), 16071750);
    assert_eq!(digest_number(&[0, 0, 1, 0xff]), 1);
    assert_eq!(digest_number(&[0, 0, 0]), 0);
    assert_eq!(digest_number(&[0xff, 0xff, 0xff, 0]), 16777215);
}

#[test]
fn signature_of_no_names() {
    assert_eq!(names_signature(&Vec::new()), 13901196);
}

#[test]
fn signature_exact_values() {
    assert_eq!(names_signature(&strings(&["a"])), 6338341);
    assert_eq!(names_signature(&strings(&["a_b"])), 9855877);
    assert_eq!(names_signature(&strings(&["z", "\u{e9}"])), 11434829);
}

#[test]
fn signature_ignores_order_and_repeats() {
    let one = names_signature(&strings(&["b", "a"]));
    let two = names_signature(&strings(&["a", "b", "a", "b", "b"]));
    assert_eq!(one, 14519402);
    assert_eq!(two, 14519402);
}

#[test]
fn signature_of_sample_names() {
    let names = strings(&[
        "storage_num_users",
        "storage_num_files",
        "storage_num_storages",
        "storage_num_storages_local",
        "storage_num_storages_home",
        "storage_num_storages_other",
    ]);
    assert_eq!(names_signature(&names), 16071814);
}

#[test]
fn decorate_leaves_first_occurrence() {
    assert_eq!(decorate("storage_num_users", 1), "storage_num_users");
    assert_eq!(decorate("storage_num_users", 0), "storage_num_users");
    assert_eq!(decorate("storage_num_users", 3), "storage_num_users3");
    assert_eq!(decorate("a", 12), "a12");
}

#[test]
fn occurrence_table_counts() {
    let mut table = NameOccurrenceTable::new();
    assert_eq!(table.record("a"), 1);
    assert_eq!(table.record("b"), 1);
    assert_eq!(table.record("a"), 2);
    assert_eq!(table.record("a"), 3);
    assert_eq!(table.record("b"), 2);
    assert_eq!(table.distinct_names_seen(), strings(&["a", "b"]));
}

#[test]
fn replacement_config_insert_and_get() {
    let mut cfg = ReplacementConfig::new();
    assert_eq!(cfg.len(), 0);
    assert!(cfg.get("ok").is_none());
    cfg.insert("ok".to_string(), Substitute::Number("1".to_string()));
    cfg.insert("no".to_string(), Substitute::Number("0".to_string()));
    cfg.insert("ok".to_string(), Substitute::Number("2".to_string()));
    assert_eq!(cfg.len(), 2);
    assert!(matches!(cfg.get("ok"), Some(Substitute::Number(n)) if n == "2"));
    assert!(matches!(cfg.get("no"), Some(Substitute::Number(n)) if n == "0"));
    assert!(cfg.get("OK").is_none());
    assert!(cfg.get("o").is_none());
}

#[test]
fn number_wins_over_replacement() {
    let mut cfg = ReplacementConfig::new();
    cfg.insert("12".to_string(), Substitute::Number("99".to_string()));
    assert_eq!(nc_metric_to_number("12", &cfg, read_number), Ok("12".to_string()));
}

#[test]
fn number_is_written_in_default_form() {
    let cfg = ReplacementConfig::new();
    assert_eq!(nc_metric_to_number("1e3", &cfg, read_number), Ok("1000".to_string()));
    assert_eq!(nc_metric_to_number(" 0.50 ", &cfg, read_number), Ok("0.5".to_string()));
    assert_eq!(nc_metric_to_number("-7", &cfg, read_number), Ok("-7".to_string()));
}

#[test]
fn replacement_lookup_is_exact_and_trimmed() {
    let mut cfg = ReplacementConfig::new();
    cfg.insert("ok".to_string(), Substitute::Number("1".to_string()));
    assert_eq!(nc_metric_to_number("\u{3000}ok\u{a0}\n", &cfg, read_number), Ok("1".to_string()));
    assert_eq!(
        nc_metric_to_number("OK", &cfg, read_number),
        Err("Error when trying to convert OK\nParseFloatError { kind: Invalid }".to_string())
    );
    assert_eq!(
        nc_metric_to_number(" o k ", &cfg, read_number),
        Err("Error when trying to convert  o k \nParseFloatError { kind: Invalid }".to_string())
    );
}

#[test]
fn empty_text_is_rejected() {
    let cfg = ReplacementConfig::new();
    assert_eq!(
        nc_metric_to_number("  ", &cfg, read_number),
        Err("Error when trying to convert   \nParseFloatError { kind: Empty }".to_string())
    );
}

#[test]
fn text_substitute_is_written_as_it_is() {
    let mut cfg = ReplacementConfig::new();
    cfg.insert("yes".to_string(), Substitute::Text("1".to_string()));
    cfg.insert("state".to_string(), Substitute::Text("up".to_string()));
    cfg.insert("quote".to_string(), Substitute::Text("a\"b\\c".to_string()));
    assert_eq!(nc_metric_to_number("yes", &cfg, read_number), Ok("1".to_string()));
    assert_eq!(nc_metric_to_number("state", &cfg, read_number), Ok("up".to_string()));
    assert_eq!(nc_metric_to_number("quote", &cfg, read_number), Ok("a\"b\\c".to_string()));
}

#[test]
fn text_substitute_in_a_document() {
    let mut cfg = ReplacementConfig::new();
    cfg.insert("yes".to_string(), Substitute::Text("1".to_string()));
    let out = xml_to_prometheus("<a>yes</a>", &cfg, read_number);
    assert_eq!(out, format!("a 1\n{}6338341", TRAILER_HEAD));
}

#[test]
fn coerce_takes_the_reading_as_given() {
    let mut cfg = ReplacementConfig::new();
    cfg.insert("yes".to_string(), Substitute::Number("1".to_string()));
    assert_eq!(coerce("yes", &Ok("7".to_string()), &cfg), Ok("7".to_string()));
    assert_eq!(coerce(" yes ", &Err("why".to_string()), &cfg), Ok("1".to_string()));
    assert_eq!(
        coerce("nope", &Err("why".to_string()), &cfg),
        Err("Error when trying to convert nope\nwhy".to_string())
    );
}

#[test]
fn events_of_a_small_document() {
    let events = read_events("<a x=\"1\"> <b>7</b><c/><!-- n --><b>&lt;8</b> </a>");
    assert_eq!(
        kinds(&events),
        strings(&[
            "start a", "start b", "text 7", "end", "other", "other", "start b", "text <8", "end",
            "end", "eof"
        ])
    );
}

#[test]
fn events_of_an_empty_document() {
    assert_eq!(kinds(&read_events("")), strings(&["eof"]));
    assert_eq!(kinds(&read_events("  \n ")), strings(&["eof"]));
}

#[test]
fn events_stop_at_a_mismatched_end() {
    let events = read_events("<a><b>1</c><d>2</d></a>");
    assert_eq!(kinds(&events), strings(&["start a", "start b", "text 1", "error 9"]));
}

#[test]
fn events_stop_at_a_text_that_cannot_be_unescaped() {
    let events = read_events("<a>1</a><b>&nope;</b><c>3</c>");
    let shown = kinds(&events);
    assert_eq!(shown.len(), 5);
    assert_eq!(&shown[..4], &strings(&["start a", "text 1", "end", "start b"])[..]);
    assert_eq!(shown[4], "bad text 17");
}

#[test]
fn events_of_a_document_with_an_unknown_entity() {
    assert_eq!(kinds(&read_events("<a>&foo;</a>")), strings(&["start a", "bad text 8"]));
}

#[test]
fn flatten_walks_with_a_stack() {
    let events = vec![
        XmlEvent::Start("a".to_string()),
        XmlEvent::Text("top".to_string()),
        XmlEvent::Start("b.c".to_string()),
        XmlEvent::Text("1".to_string()),
        XmlEvent::End,
        XmlEvent::Other,
        XmlEvent::Start("d".to_string()),
        XmlEvent::Start("e".to_string()),
        XmlEvent::Text("2".to_string()),
        XmlEvent::End,
        XmlEvent::End,
        XmlEvent::End,
        XmlEvent::End,
        XmlEvent::Text("outside".to_string()),
        XmlEvent::Eof,
    ];
    let flat = flatten_events(&events);
    assert_eq!(
        pairs(&flat.candidates),
        vec![
            ("a".to_string(), "top".to_string()),
            ("a_b_c".to_string(), "1".to_string()),
            ("a_d_e".to_string(), "2".to_string()),
            ("".to_string(), "outside".to_string()),
        ]
    );
    assert_eq!(flat.error_at, None);
}

#[test]
fn flatten_stops_at_the_end_of_the_document() {
    let events = vec![
        XmlEvent::Start("a".to_string()),
        XmlEvent::Text("1".to_string()),
        XmlEvent::Eof,
        XmlEvent::Text("2".to_string()),
        XmlEvent::Error(9),
    ];
    let flat = flatten_events(&events);
    assert_eq!(pairs(&flat.candidates), vec![("a".to_string(), "1".to_string())]);
    assert_eq!(flat.error_at, None);
}

#[test]
fn flatten_stops_at_the_first_error() {
    let events = vec![
        XmlEvent::Start("a".to_string()),
        XmlEvent::Text("1".to_string()),
        XmlEvent::Error(17),
        XmlEvent::Text("2".to_string()),
        XmlEvent::Error(30),
    ];
    let flat = flatten_events(&events);
    assert_eq!(pairs(&flat.candidates), vec![("a".to_string(), "1".to_string())]);
    assert_eq!(flat.error_at, Some(17));
}

#[test]
fn flatten_stops_at_a_text_that_cannot_be_unescaped() {
    let events = vec![
        XmlEvent::Start("a".to_string()),
        XmlEvent::Text("1".to_string()),
        XmlEvent::BadText(12),
        XmlEvent::Text("2".to_string()),
        XmlEvent::End,
        XmlEvent::Eof,
    ];
    let flat = flatten_events(&events);
    assert_eq!(pairs(&flat.candidates), vec![("a".to_string(), "1".to_string())]);
    assert_eq!(flat.error_at, Some(12));
}

#[test]
fn flatten_of_no_events() {
    let flat = flatten_events(&Vec::new());
    assert!(flat.candidates.is_empty());
    assert_eq!(flat.error_at, None);
}

#[test]
fn flatten_xml_reports_where_the_document_is_malformed() {
    let flat = flatten_xml("<a><b>1</c><d>2</d></a>");
    assert_eq!(pairs(&flat.candidates), vec![("a_b".to_string(), "1".to_string())]);
    assert_eq!(flat.error_at, Some(9));
}

#[test]
fn accept_sorts_candidates() {
    let candidates = vec![
        Candidate { name: "a".to_string(), text: "1".to_string() },
        Candidate { name: "b".to_string(), text: "x".to_string() },
        Candidate { name: "c".to_string(), text: "yes".to_string() },
    ];
    let mut cfg = ReplacementConfig::new();
    cfg.insert("yes".to_string(), Substitute::Number("1".to_string()));
    let numbers = read_numbers(&candidates, read_number);
    assert_eq!(numbers.len(), 3);
    let sorted = accept_candidates(&candidates, &numbers, &cfg);
    let records: Vec<(String, String)> =
        sorted.records.iter().map(|r| (r.name.clone(), r.value.clone())).collect();
    assert_eq!(
        records,
        vec![("a".to_string(), "1".to_string()), ("c".to_string(), "1".to_string())]
    );
    assert_eq!(sorted.rejections.len(), 1);
    assert_eq!(sorted.rejections[0].name, "b");
    assert_eq!(
        sorted.rejections[0].note,
        "Error when trying to convert x\nParseFloatError { kind: Invalid }"
    );
}

#[test]
fn join_puts_newlines_between() {
    assert_eq!(join(&Vec::new()), "");
    assert_eq!(join(&strings(&["a"])), "a");
    assert_eq!(join(&strings(&["a", "", "b"])), "a\n\nb");
}

#[test]
fn serialize_of_no_records_is_the_trailer() {
    assert_eq!(serialize(&Vec::new()), format!("{}13901196", TRAILER_HEAD));
}

#[test]
fn serialize_decorates_and_signs() {
    let records = vec![
        MetricRecord { name: "b".to_string(), value: "1".to_string() },
        MetricRecord { name: "a".to_string(), value: "2".to_string() },
        MetricRecord { name: "b".to_string(), value: "3".to_string() },
    ];
    assert_eq!(serialize(&records), format!("b 1\na 2\nb2 3\n{}14519402", TRAILER_HEAD));
}

#[test]
fn one_line_for_each_accepted_record_under_its_own_name() {
    let xml = "<r><a>1</a><a>x</a><a>2</a><b>3</b><a>4</a><c>no</c></r>";
    let out = xml_to_prometheus(xml, &ReplacementConfig::new(), read_number);
    let lines: Vec<&str> = out.lines().collect();
    assert_eq!(lines.len(), 4 + 3);
    assert_eq!(&lines[..4], &["r_a 1", "r_a2 2", "r_b 3", "r_a3 4"]);
    let mut names: Vec<&str> = lines
        .iter()
        .filter(|l| !l.starts_with('#'))
        .map(|l| l.split(' ').next().unwrap())
        .collect();
    names.sort();
    names.dedup();
    assert_eq!(names.len(), 5);
}

#[test]
fn decoration_can_meet_another_name() {
    let xml = "<r><a>1</a><a>2</a><a2>3</a2></r>";
    let out = xml_to_prometheus(xml, &ReplacementConfig::new(), read_number);
    assert_eq!(out, format!("r_a 1\nr_a2 2\nr_a2 3\n{}682642", TRAILER_HEAD));
}

#[test]
fn malformed_document_keeps_what_came_before() {
    let xml = "<storage><num_users>42</num_users><num_files>7</nope><num_storages>1</num_storages></storage>";
    let out = xml_to_prometheus(xml, &ReplacementConfig::new(), read_number);
    assert_eq!(
        out,
        format!("storage_num_users 42\nstorage_num_files 7\n{}2485196", TRAILER_HEAD)
    );
}

#[test]
fn unknown_entity_does_not_stop_the_conversion_from_returning() {
    let out = xml_to_prometheus("<a>&foo;</a>", &ReplacementConfig::new(), read_number);
    assert_eq!(out, format!("{}13901196", TRAILER_HEAD));
}

#[test]
fn text_that_cannot_be_unescaped_keeps_what_came_before() {
    let xml = "<r><a>1</a><b>&nope;</b><c>3</c></r>";
    let conversion = convert(xml, &ReplacementConfig::new(), read_number);
    assert_eq!(conversion.body, format!("r_a 1\n{}{}", TRAILER_HEAD, names_signature(&strings(&["r_a"]))));
    assert_eq!(conversion.error_at, Some(20));
    assert!(conversion.rejections.is_empty());
}

#[test]
fn convert_reports_rejections_and_the_place_of_the_error() {
    let xml = "<r><a>1</a><b>x</b><c> y </c><d>2</d><e>3</nope></r>";
    let conversion = convert(xml, &ReplacementConfig::new(), read_number);
    assert_eq!(
        conversion.body,
        format!(
            "r_a 1\nr_d 2\nr_e 3\n{}{}",
            TRAILER_HEAD,
            names_signature(&strings(&["r_a", "r_d", "r_e"]))
        )
    );
    let rejections: Vec<(String, String)> =
        conversion.rejections.iter().map(|r| (r.name.clone(), r.note.clone())).collect();
    assert_eq!(
        rejections,
        vec![
            (
                "r_b".to_string(),
                "Error when trying to convert x\nParseFloatError { kind: Invalid }".to_string()
            ),
            (
                "r_c".to_string(),
                "Error when trying to convert y\nParseFloatError { kind: Invalid }".to_string()
            ),
        ]
    );
    assert_eq!(conversion.error_at, Some(43));
}

#[test]
fn convert_of_a_well_formed_document_reports_no_error() {
    let conversion = convert("<a>1</a>", &ReplacementConfig::new(), read_number);
    assert_eq!(conversion.body, format!("a 1\n{}6338341", TRAILER_HEAD));
    assert_eq!(conversion.error_at, None);
    assert!(conversion.rejections.is_empty());
}

#[test]
fn signature_is_below_two_to_the_24() {
    for xml in ["", "<a>1</a>", "<a><b>1</b><c>2</c></a>", "<a>&foo;</a>", "<a><b>1</c>"] {
        let out = xml_to_prometheus(xml, &ReplacementConfig::new(), read_number);
        let last = out.lines().last().unwrap();
        let value: u32 = last.strip_prefix("nc_metric_names_hash ").unwrap().parse().unwrap();
        assert!(value <= 16777215);
    }
}

#[test]
fn document_without_metrics() {
    let out = xml_to_prometheus("<a><b/><c></c></a>", &ReplacementConfig::new(), read_number);
    assert_eq!(out, format!("{}13901196", TRAILER_HEAD));
}

#[test]
fn rejected_candidates_leave_no_name_behind() {
    let xml = "<r><a>x</a><b>1</b></r>";
    let out = xml_to_prometheus(xml, &ReplacementConfig::new(), read_number);
    let only_b = names_signature(&strings(&["r_b"]));
    assert_eq!(out, format!("r_b 1\n{}{}", TRAILER_HEAD, only_b));
}

#[test]
fn dots_in_tags_become_underscores() {
    let out = xml_to_prometheus("<a><b.c>5</b.c></a>", &ReplacementConfig::new(), read_number);
    let signature = names_signature(&strings(&["a_b_c"]));
    assert_eq!(out, format!("a_b_c 5\n{}{}", TRAILER_HEAD, signature));
}

#[test]
fn signature_does_not_follow_values_or_order() {
    let mut cfg = ReplacementConfig::new();
    cfg.insert("yes".to_string(), Substitute::Number("1".to_string()));
    let one = xml_to_prometheus("<r><a>1</a><b>2</b></r>", &cfg, read_number);
    let two = xml_to_prometheus("<r><b>yes</b><a>77</a><b>3</b></r>", &cfg, read_number);
    assert_eq!(one.lines().last(), two.lines().last());
}

#[test]
fn converting_twice_gives_the_same_body() {
    let xml = "<r><a>1</a><a>yes</a><b>x</b><c>2.50</c></r>";
    let mut cfg = ReplacementConfig::new();
    cfg.insert("yes".to_string(), Substitute::Number("1".to_string()));
    let first = xml_to_prometheus(xml, &cfg, read_number);
    let second = xml_to_prometheus(xml, &cfg, read_number);
    assert_eq!(first, second);
    assert!(first.starts_with("r_a 1\nr_a2 1\nr_c 2.5\n"));
}
