use route_optimizer::request::{
    length_from_cell, parse_text_into_length, parse_u64, remove_dots, scrape_route_cell, take_last_row_cell, trim,
    LengthError,
};
use route_optimizer::text::{chars_of, split_on};
use route_optimizer::utils;

fn page(cells: &[&str]) -> String {
    let rows: String = cells.iter().map(|c| format!("<tr><td>{c}</td><td>x</td></tr>")).collect();
    format!(
        "<html><body><div id=\"navtools\"><table class=\"tablelist table-tooltip\">{rows}</table></div></body></html>"
    )
}

#[test]
fn route_length_from_last_row() {
    let text = page(&["1", "2", "1.234"]);
    assert_eq!(parse_text_into_length(&text), Ok(1233));
    let text = page(&["7"]);
    assert_eq!(parse_text_into_length(&text), Ok(6));
}

#[test]
fn route_length_errors() {
    assert_eq!(parse_text_into_length(&"<html><body>nothing</body></html>".to_string()), Err(LengthError::CellNotFound));
    let no_table = "<div id=\"navtools\"><p>none</p></div>".to_string();
    assert_eq!(parse_text_into_length(&no_table), Err(LengthError::CellNotFound));
    assert_eq!(parse_text_into_length(&page(&["abc"])), Err(LengthError::NotANumber));
    assert_eq!(parse_text_into_length(&page(&["0"])), Err(LengthError::ZeroLength));
}

#[test]
fn cell_cleaning() {
    assert_eq!(length_from_cell("  12 \n"), Ok(11));
    assert_eq!(length_from_cell("1.000"), Ok(999));
    assert_eq!(length_from_cell("+5"), Ok(4));
    assert_eq!(length_from_cell("-5"), Err(LengthError::NotANumber));
    assert_eq!(length_from_cell(""), Err(LengthError::NotANumber));
    assert_eq!(length_from_cell("18446744073709551616"), Err(LengthError::NotANumber));
    assert_eq!(length_from_cell("18446744073709551615"), Ok(18446744073709551614));
}

#[test]
fn parse_u64_matches_std() {
    for s in ["0", "42", "+7", "007", "", "+", "1a", " 1", "18446744073709551615", "18446744073709551616", "99999999999999999999"] {
        let chars: Vec<char> = s.chars().collect();
        assert_eq!(parse_u64(&chars), s.parse::<u64>().ok(), "{s:?}");
    }
}

#[test]
fn trim_and_dots_match_std() {
    for s in ["", "  ", " a b ", "\u{3000}x\u{a0}", "1.2.3", "..", "\tq\r\n"] {
        let chars: Vec<char> = s.chars().collect();
        let trimmed: String = trim(&chars).into_iter().collect();
        assert_eq!(trimmed, s.trim());
        let dotless: String = remove_dots(&chars).into_iter().collect();
        assert_eq!(dotless, s.replace('.', ""));
    }
}

#[test]
fn split_matches_std() {
    for s in ["", ",", "a", "a,b", "jita,,amarr,", ",x"] {
        let chars = chars_of(s);
        let pieces: Vec<String> = split_on(&chars, ',').into_iter().map(|p| p.into_iter().collect()).collect();
        let expected: Vec<String> = s.split(',').map(String::from).collect();
        assert_eq!(pieces, expected);
    }
}

#[test]
fn old_page_parser_counts_systems() {
    let text = page(&["3", "1.002"]);
    assert_eq!(utils::parse_text_into_length(text), Ok(1002));
    assert_eq!(utils::parse_text_into_length("<p/>".to_string()), Err(LengthError::CellNotFound));
}

#[test]
fn last_row_cell_is_taken() {
    assert_eq!(take_last_row_cell(None), None);
    assert_eq!(take_last_row_cell(Some(vec![])), None);
    assert_eq!(take_last_row_cell(Some(vec![Some("1".to_string()), None])), None);
    assert_eq!(take_last_row_cell(Some(vec![None, Some("9".to_string())])), Some("9".to_string()));
    assert_eq!(scrape_route_cell(&page(&["1", "2", "3"])), Some("3".to_string()));
    let header_only = "<div id=\"navtools\"><table class=\"tablelist table-tooltip\"><tr><th>n</th></tr></table></div>";
    assert_eq!(scrape_route_cell(header_only), None);
}
