use route_optimizer::manager::SystemManager;
use route_optimizer::pair::SystemPair;
use route_optimizer::pretty::{arrow_with_distance, decimal_string, padded3, prettify_route, prettify_route_names};
use route_optimizer::pretty::{prettify_route_postfix, prettify_route_prefix, prettify_whole_route, whole_route_summary_lines};
use route_optimizer::shortest::CurrentShortest;
use route_optimizer::system::System;

fn fixed(code: u8, s: &str) -> String {
    format!("\x1b[38;5;{code}m{s}\x1b[0m")
}

#[test]
fn decimal_writing() {
    assert_eq!(decimal_string(0), "0");
    assert_eq!(decimal_string(10), "10");
    assert_eq!(decimal_string(u64::MAX), u64::MAX.to_string());
    assert_eq!(padded3(1), "001");
    assert_eq!(padded3(42), "042");
    assert_eq!(padded3(1234), "1234");
}

#[test]
fn arrow_between_systems() {
    assert_eq!(
        arrow_with_distance(5),
        format!(" {}{}{} ", fixed(238, "-"), fixed(250, "(5)"), fixed(238, ">"))
    );
}

fn holder() -> SystemManager {
    let mut h = SystemManager::new();
    for n in ["jita", "amarr", "hek"] {
        h.register_system(&System::new(n));
    }
    SystemPair::from_vec(vec![0, 1]).set_distance(&mut h, 9);
    SystemPair::from_vec(vec![1, 2]).set_distance(&mut h, 4);
    h
}

#[test]
fn pretty_route_with_end() {
    let h = holder();
    let start = System::new("dodixie");
    let end = Some(System::new("rens"));
    let yellow = fixed(220, ">>>");
    let expected = format!(
        "{yellow} {}  {yellow}  {}{}{}{}{}  {yellow}  {} {yellow}",
        fixed(87, "DODIXIE"),
        fixed(82, "JITA"),
        arrow_with_distance(9),
        fixed(82, "AMARR"),
        arrow_with_distance(4),
        fixed(82, "HEK"),
        fixed(87, "RENS"),
    );
    assert_eq!(prettify_route(&h, &vec![0, 1, 2], &start, &end), expected);
    let expected = format!("{yellow} {}  {yellow}  {}  {yellow}", fixed(87, "DODIXIE"), fixed(82, "HEK"));
    assert_eq!(prettify_route(&h, &vec![2], &start, &None), expected);
}

#[test]
fn report_lines_list_each_route() {
    let h = holder();
    let mut cs = CurrentShortest::new();
    cs.register(&vec![0, 1], 9);
    cs.register(&vec![2, 1], 9);
    let start = System::new("dodixie");
    let lines = cs.report_lines(&h, &start, &None);
    assert_eq!(lines.len(), 8);
    assert_eq!(lines[0], "");
    assert_eq!(
        lines[1],
        format!("  {} {}", fixed(82, "[  O K  ]"), fixed(255, &format!("  Shortest Route Length is '{}'", fixed(39, "9"))))
    );
    assert_eq!(lines[3], fixed(48, "  [ ROUTE ]"));
    assert_eq!(lines[5], format!("  - {} : {}", fixed(48, "001"), prettify_route(&h, &vec![0, 1], &start, &None)));
    assert_eq!(lines[6], format!("  - {} : {}", fixed(48, "002"), prettify_route(&h, &vec![2, 1], &start, &None)));
    assert_eq!(lines[7], "");
    let named = cs.to_named(&h);
    assert_eq!(named.length, 9);
    assert_eq!(named.routes, vec![vec!["JITA", "AMARR"], vec!["HEK", "AMARR"]]);
}

#[test]
fn pretty_route_without_distances() {
    let h = holder();
    let start = System::new("dodixie");
    let yellow = fixed(220, ">>>");
    let expected = format!(
        "{yellow}  {}  {yellow}  {}{}{}  {yellow}",
        fixed(87, "DODIXIE"),
        fixed(51, "HEK"),
        fixed(244, " -> "),
        fixed(51, "JITA"),
    );
    assert_eq!(prettify_route_names(&h, &vec![2, 0], &start), expected);
    assert_eq!(prettify_route_names(&h, &vec![], &start), format!("{yellow}  {}  {yellow}    {yellow}", fixed(87, "DODIXIE")));
}

#[test]
fn decimal_reads_back() {
    for n in [0u64, 7, 10, 99, 1000, 123456789, u64::MAX] {
        let chars: Vec<char> = decimal_string(n).chars().collect();
        assert_eq!(route_optimizer::request::parse_u64(&chars), Some(n));
    }
}

fn basic(code: u8, s: &str) -> String {
    format!("\x1b[{code}m{s}\x1b[0m")
}

#[test]
fn summary_lines_name_each_route() {
    let h = holder();
    let mut cs = CurrentShortest::new();
    cs.register(&vec![0, 1, 2], 13);
    let start = System::new("dodixie");
    let lines = cs.summary_lines(&h, &start);
    assert_eq!(lines.len(), 9);
    assert_eq!(&lines[0..3], &["", "", ""]);
    assert_eq!(
        lines[3],
        format!("  {} {}", fixed(82, "[  O K  ]"), fixed(255, &format!("  Shortest Route Length is '{}'", fixed(39, "13"))))
    );
    assert_eq!(lines[4], "");
    assert_eq!(lines[5], fixed(48, "  [ ROUTES ]"));
    assert_eq!(lines[6], "");
    let yellow = fixed(220, ">>>");
    let body = format!("{}{}{}{}{}", fixed(51, "JITA"), fixed(244, " -> "), fixed(51, "AMARR"), fixed(244, " -> "), fixed(51, "HEK"));
    assert_eq!(
        lines[7],
        format!("  - {} : {yellow}  {}  {yellow}  {body}  {yellow}", fixed(48, "001"), fixed(87, "DODIXIE"))
    );
    assert_eq!(lines[8], "");
}

#[test]
fn whole_route_printing() {
    let yellow = basic(93, ">>>");
    let route = vec!["JITA".to_string(), "HEK".to_string()];
    let body = format!("{}{}{}", basic(96, "JITA"), basic(90, " -> "), basic(96, "HEK"));
    assert_eq!(prettify_route_prefix(&"AMARR".to_string()), format!("{yellow}  {}", basic(94, "AMARR")));
    assert_eq!(prettify_route_postfix(&"AMARR".to_string(), &"RENS".to_string()), format!("{}  {yellow}", basic(94, "RENS")));
    assert_eq!(prettify_route_prefix(&String::new()), "");
    assert_eq!(prettify_route_postfix(&String::new(), &"RENS".to_string()), "");
    assert_eq!(
        prettify_whole_route(&"AMARR".to_string(), &"RENS".to_string(), &route),
        format!("{yellow}  {}  {yellow}  {body}  {yellow}  {}  {yellow}", basic(94, "AMARR"), basic(94, "RENS"))
    );
    assert_eq!(prettify_whole_route(&String::new(), &"RENS".to_string(), &route), format!("  {yellow}  {body}  {yellow}  "));
}

#[test]
fn whole_route_summary() {
    let routes = vec![vec!["JITA".to_string(), "HEK".to_string()]];
    let start = "AMARR".to_string();
    let end = "RENS".to_string();
    let lines = whole_route_summary_lines(12, &routes, &start, &end, 3);
    assert_eq!(lines.len(), 11);
    assert_eq!(&lines[0..3], &["", "", ""]);
    assert_eq!(lines[3], format!("  Shortest Route Length is '{}'", basic(96, "12")));
    assert_eq!(lines[4], "");
    assert_eq!(lines[5], "  ----------[ ROUTES ]-------------");
    assert_eq!(lines[6], "");
    assert_eq!(lines[7], format!("  {}", prettify_whole_route(&start, &end, &routes[0])));
    assert_eq!(lines[8], "");
    assert_eq!(lines[9], "  ---------------------------------");
    assert_eq!(lines[10], "");
}
