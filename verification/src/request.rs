use vstd::prelude::*;

use crate::text::chars_of;
use crate::config;
use crate::cli;
use crate::manager::SystemManager;
use crate::pair::SystemPair;
use crate::route::{avoid_fragment, avoid_system_as_url_string, option_fragment, RouteOption, UnorderedRoute};

verus! {

/// The route-search fragment that avoids the systems to avoid.
pub fn avoid_to_embed(args: &cli::Args) -> (r: String)
    ensures
        r@ == match args.avoid {
            Some(u) => avoid_fragment(u.names()),
            None => Seq::empty(),
        },
{
    avoid_system_as_url_string(&args.avoid)
}

/// The DOTLAN query for the route between the two systems of a pair, of the
/// given kind, avoiding the given systems.
pub fn route_search_url(system_holder: &SystemManager, system_pair: &SystemPair, route_option: RouteOption, avoid: &Option<UnorderedRoute>) -> (r: String)
    requires
        system_pair.left_view() < system_holder.systems().len(),
        system_pair.right_view() < system_holder.systems().len(),
    ensures
        r@ == config::ROUTE_SEARCH_URL_PREFIX@ + option_fragment(route_option)
            + system_holder.systems()[system_pair.left_view() as int].name_view() + seq![':']
            + system_holder.systems()[system_pair.right_view() as int].name_view()
            + match avoid {
                Some(u) => avoid_fragment(u.names()),
                None => Seq::empty(),
            },
{
    let mut out = String::new();
    out.append(config::ROUTE_SEARCH_URL_PREFIX);
    out.append(route_option.as_url());
    out.append(system_pair.left_rlock(system_holder).name().as_str());
    proof { reveal_strlit(":"); }
    out.append(":");
    out.append(system_pair.right_rlock(system_holder).name().as_str());
    let avoid_str = avoid_system_as_url_string(avoid);
    out.append(avoid_str.as_str());
    out
}

/// The DOTLAN query for the route between the two systems of a pair, of the
/// kind asked for on the command line and avoiding the systems to avoid.
pub fn make_url(system_holder: &SystemManager, system_pair: &SystemPair, args: &cli::Args) -> (r: String)
    requires
        system_pair.left_view() < system_holder.systems().len(),
        system_pair.right_view() < system_holder.systems().len(),
    ensures
        r@ == config::ROUTE_SEARCH_URL_PREFIX@ + option_fragment(args.route_option)
            + system_holder.systems()[system_pair.left_view() as int].name_view() + seq![':']
            + system_holder.systems()[system_pair.right_view() as int].name_view()
            + match args.avoid {
                Some(u) => avoid_fragment(u.names()),
                None => Seq::empty(),
            },
{
    route_search_url(system_holder, system_pair, args.route_option, &args.avoid)
}

/// The cells that `scraper` finds in the rows of a table of a document: for
/// each element matching `row` inside the first element matching `table`
/// inside the first element matching `nav`, in document order, the inner HTML
/// of the first element matching `cell` inside that row (`None` for a row
/// without one); `None` when a selector does not parse or `nav` or `table`
/// matches nothing.
pub uninterp spec fn spec_table_cells(document: Seq<char>, nav: Seq<char>, table: Seq<char>, row: Seq<char>, cell: Seq<char>) -> Option<Seq<Option<Seq<char>>>>;

/// The views of the cells handed out by `table_cells`.
pub open spec fn cell_views(cells: Seq<Option<String>>) -> Seq<Option<Seq<char>>> {
    cells.map_values(|c: Option<String>| match c {
        Some(t) => Some(t@),
        None => None,
    })
}

/// Calls `scraper`: `Html::parse_document` on the text, `Selector::parse` on
/// each selector, `select` with `next` for the navigation block and the
/// table, `select` for the rows, and for each row `select` with `next` for
/// its cell and `ElementRef::inner_html`. The contract only names the result;
/// how HTML is parsed and matched is not described.
#[verifier::external_body]
pub(crate) fn table_cells(document: &str, nav: &str, table: &str, row: &str, cell: &str) -> (r: Option<Vec<Option<String>>>)
    ensures
        match r {
            Some(v) => spec_table_cells(document@, nav@, table@, row@, cell@) == Some(cell_views(v@)),
            None => spec_table_cells(document@, nav@, table@, row@, cell@) is None,
        },
{
    let doc = scraper::Html::parse_document(document);
    let (nav, table) = (scraper::Selector::parse(nav).ok()?, scraper::Selector::parse(table).ok()?);
    let (row, cell) = (scraper::Selector::parse(row).ok()?, scraper::Selector::parse(cell).ok()?);
    let found = doc.select(&nav).next()?.select(&table).next()?;
    Some(found.select(&row).map(|r| r.select(&cell).next().map(|c| c.inner_html())).collect())
}

/// The cell of the last row, if there are rows and the last one has a cell.
pub open spec fn last_row_cell(cells: Option<Seq<Option<Seq<char>>>>) -> Option<Seq<char>> {
    match cells {
        Some(c) => if c.len() > 0 { c.last() } else { None },
        None => None,
    }
}

/// Takes the cell of the last row, if there are rows and the last one has a
/// cell.
pub fn take_last_row_cell(cells: Option<Vec<Option<String>>>) -> (r: Option<String>)
    ensures
        r matches Some(t) ==> last_row_cell(match cells { Some(v) => Some(cell_views(v@)), None => None }) == Some(t@),
        r is None ==> last_row_cell(match cells { Some(v) => Some(cell_views(v@)), None => None }) is None,
{
    match cells {
        None => None,
        Some(mut v) => {
            if v.len() == 0 {
                None
            } else {
                let last = v.pop();
                match last {
                    Some(c) => c,
                    None => None,
                }
            }
        },
    }
}

/// The cell of a route page found by scraping: the first cell of the last
/// row of the first route table inside the first navigation block.
pub fn scrape_route_cell(document: &str) -> (r: Option<String>)
    ensures
        r matches Some(t) ==> route_cell(document@) == Some(t@),
        r is None ==> route_cell(document@) is None,
{
    take_last_row_cell(table_cells(document, NAVTOOLS_SELECTOR, ROUTE_TABLE_SELECTOR, ROW_SELECTOR, CELL_SELECTOR))
}

/// Selector of the navigation block of a route page.
pub const NAVTOOLS_SELECTOR: &'static str = "div[id=\"navtools\"]";

/// Selector of the route table.
pub const ROUTE_TABLE_SELECTOR: &'static str = "table[class=\"tablelist table-tooltip\"]";

/// Selector of a table row.
pub const ROW_SELECTOR: &'static str = "tr";

/// Selector of a table cell.
pub const CELL_SELECTOR: &'static str = "td";

/// The cell of a DOTLAN route page that holds the number of systems on the
/// route: the first cell of the last row of the first route table inside the
/// first navigation block.
pub open spec fn route_cell(document: Seq<char>) -> Option<Seq<char>> {
    last_row_cell(spec_table_cells(document, NAVTOOLS_SELECTOR@, ROUTE_TABLE_SELECTOR@, ROW_SELECTOR@, CELL_SELECTOR@))
}

/// The chars that `str::trim` strips (Unicode `White_Space`).
pub open spec fn is_trimmed_space(c: char) -> bool {
    let u = c as u32;
    ||| 0x09 <= u <= 0x0D
    ||| u == 0x20 || u == 0x85 || u == 0xA0 || u == 0x1680
    ||| 0x2000 <= u <= 0x200A
    ||| u == 0x2028 || u == 0x2029 || u == 0x202F || u == 0x205F || u == 0x3000
}

/// `s` without its leading white space.
pub open spec fn trim_start_spec(s: Seq<char>) -> Seq<char>
    decreases s.len(),
{
    if s.len() > 0 && is_trimmed_space(s[0]) { trim_start_spec(s.drop_first()) } else { s }
}

/// `s` without its trailing white space.
pub open spec fn trim_end_spec(s: Seq<char>) -> Seq<char>
    decreases s.len(),
{
    if s.len() > 0 && is_trimmed_space(s.last()) { trim_end_spec(s.drop_last()) } else { s }
}

/// `s` without leading and trailing white space, as `str::trim` leaves it.
pub open spec fn trim_spec(s: Seq<char>) -> Seq<char> {
    trim_end_spec(trim_start_spec(s))
}

/// `s` without its `.` chars (the thousands separators of a number).
pub open spec fn without_dots(s: Seq<char>) -> Seq<char> {
    s.filter(|c: char| c != '.')
}

/// An ASCII decimal digit.
pub open spec fn is_digit(c: char) -> bool {
    '0' <= c && c <= '9'
}

/// The number written by the digits `s`.
pub open spec fn decimal_value(s: Seq<char>) -> nat
    decreases s.len(),
{
    if s.len() == 0 { 0 } else { decimal_value(s.drop_last()) * 10 + ((s.last() as u32 - '0' as u32) as nat) }
}

/// `s` without a leading `+`.
pub open spec fn unsigned_body(s: Seq<char>) -> Seq<char> {
    if s.len() > 0 && s[0] == '+' { s.drop_first() } else { s }
}

/// Every char of `s` is a decimal digit.
pub open spec fn all_digits(s: Seq<char>) -> bool {
    forall|i: int| 0 <= i < s.len() ==> is_digit(#[trigger] s[i])
}

/// What `u64::from_str` gives: an optional `+` then at least one digit, of a
/// value that fits a `u64`.
pub open spec fn parse_u64_spec(s: Seq<char>) -> Option<u64> {
    let body = unsigned_body(s);
    if body.len() > 0 && all_digits(body) && decimal_value(body) <= u64::MAX {
        Some(decimal_value(body) as u64)
    } else {
        None
    }
}

/// Why a route page gave no route length.
#[derive(Debug, Clone, Copy, PartialEq, Eq, Structural)]
pub enum LengthError {
    /// The page has no route table, or it is empty.
    CellNotFound,
    /// The cell does not hold a number.
    NotANumber,
    /// The route holds no system at all.
    ZeroLength,
}

/// The number of jumps that a route-cell text stands for: the number of
/// systems on the route (dots removed, white space trimmed) minus one, as a
/// route counts its own start.
pub open spec fn cell_jumps(cell: Seq<char>) -> Result<u64, LengthError> {
    match parse_u64_spec(trim_spec(without_dots(cell))) {
        None => Err(LengthError::NotANumber),
        Some(n) => if n == 0 { Err(LengthError::ZeroLength) } else { Ok((n - 1) as u64) },
    }
}

/// A digit prefix never writes a larger number than the whole.
proof fn lemma_decimal_prefix(s: Seq<char>, k: int)
    requires
        0 <= k <= s.len(),
        forall|i: int| 0 <= i < s.len() ==> is_digit(#[trigger] s[i]),
    ensures
        decimal_value(s.take(k)) <= decimal_value(s),
    decreases s.len(),
{
    if k < s.len() {
        assert(s.drop_last().take(k) =~= s.take(k));
        lemma_decimal_prefix(s.drop_last(), k);
    } else {
        assert(s.take(k) =~= s);
    }
}

/// `s` without `.` chars.
pub fn remove_dots(s: &Vec<char>) -> (r: Vec<char>)
    ensures
        r@ == without_dots(s@),
{
    let mut r: Vec<char> = Vec::new();
    let mut i: usize = 0;
    while i < s.len()
        invariant
            i <= s@.len(),
            r@ == without_dots(s@.take(i as int)),
        decreases s@.len() - i,
    {
        proof {
            assert(s@.take(i + 1) =~= s@.take(i as int).push(s@[i as int]));
            s@.take(i as int).lemma_filter_push(s@[i as int], |c: char| c != '.');
        }
        if s[i] != '.' {
            r.push(s[i]);
        }
        i = i + 1;
    }
    assert(s@.take(s@.len() as int) =~= s@);
    r
}

/// Whether `c` is stripped by `str::trim`.
pub fn is_space_char(c: char) -> (r: bool)
    ensures
        r == is_trimmed_space(c),
{
    let u = c as u32;
    (0x09 <= u && u <= 0x0D) || u == 0x20 || u == 0x85 || u == 0xA0 || u == 0x1680
        || (0x2000 <= u && u <= 0x200A) || u == 0x2028 || u == 0x2029 || u == 0x202F || u == 0x205F
        || u == 0x3000
}

/// `s` without leading and trailing white space.
pub fn trim(s: &Vec<char>) -> (r: Vec<char>)
    ensures
        r@ == trim_spec(s@),
{
    let mut a: usize = 0;
    assert(s@.skip(0) =~= s@);
    while a < s.len() && is_space_char(s[a])
        invariant
            a <= s@.len(),
            trim_start_spec(s@) == trim_start_spec(s@.skip(a as int)),
        decreases s@.len() - a,
    {
        assert(s@.skip(a as int).drop_first() =~= s@.skip(a + 1));
        a = a + 1;
    }
    assert(trim_start_spec(s@.skip(a as int)) == s@.skip(a as int));
    let ghost mid = s@.skip(a as int);
    let mut b: usize = s.len();
    while b > a && is_space_char(s[b - 1])
        invariant
            a <= b <= s@.len(),
            mid == s@.skip(a as int),
            trim_end_spec(mid) == trim_end_spec(s@.subrange(a as int, b as int)),
        decreases b,
    {
        assert(s@.subrange(a as int, b as int).drop_last() =~= s@.subrange(a as int, b - 1));
        b = b - 1;
    }
    assert(mid =~= s@.subrange(a as int, s@.len() as int));
    let mut r: Vec<char> = Vec::new();
    let mut i: usize = a;
    while i < b
        invariant
            a <= i <= b,
            b <= s@.len(),
            r@ == s@.subrange(a as int, i as int),
        decreases b - i,
    {
        r.push(s[i]);
        assert(s@.subrange(a as int, i + 1) =~= s@.subrange(a as int, i as int).push(s@[i as int]));
        i = i + 1;
    }
    r
}

/// Reads a decimal `u64` as `u64::from_str` does.
pub fn parse_u64(s: &Vec<char>) -> (r: Option<u64>)
    ensures
        r == parse_u64_spec(s@),
{
    let start: usize = if s.len() > 0 && s[0] == '+' { 1 } else { 0 };
    let ghost body = unsigned_body(s@);
    assert(body =~= s@.skip(start as int));
    if start >= s.len() {
        return None;
    }
    let mut acc: u64 = 0;
    let mut i: usize = start;
    while i < s.len()
        invariant
            start <= i <= s@.len(),
            body == s@.skip(start as int),
            body == unsigned_body(s@),
            body.len() > 0,
            forall|k: int| start <= k < i ==> is_digit(#[trigger] s@[k]),
            acc as nat == decimal_value(body.take(i - start)),
        decreases s@.len() - i,
    {
        let c = s[i];
        if !('0' <= c && c <= '9') {
            assert(body[(i - start) as int] == c);
            assert(!is_digit(body[(i - start) as int]));
            assert(!all_digits(body));
            return None;
        }
        let d = (c as u32 - '0' as u32) as u64;
        assert(body.take(i + 1 - start).drop_last() =~= body.take(i - start));
        assert(body.take(i + 1 - start).last() == c);
        assert(decimal_value(body.take(i + 1 - start)) == acc * 10 + d);
        if acc > (u64::MAX - d) / 10 {
            proof {
                assert(acc * 10 + d > u64::MAX) by (nonlinear_arith)
                    requires acc > (u64::MAX - d) / 10, d <= 9;
                if all_digits(body) {
                    lemma_decimal_prefix(body, i + 1 - start);
                }
            }
            return None;
        }
        assert(acc * 10 + d <= u64::MAX) by (nonlinear_arith)
            requires acc <= (u64::MAX - d) / 10, d <= 9;
        acc = acc * 10 + d;
        i = i + 1;
    }
    assert(body.take(s@.len() - start) =~= body);
    assert forall|k: int| 0 <= k < body.len() implies is_digit(#[trigger] body[k]) by {
        assert(body[k] == s@[k + start]);
    }
    assert(all_digits(body));
    Some(acc)
}

/// The number of jumps that the text of a route cell stands for.
pub fn length_from_cell(cell: &str) -> (r: Result<u64, LengthError>)
    ensures
        r == cell_jumps(cell@),
{
    let chars = chars_of(cell);
    let cleaned = trim(&remove_dots(&chars));
    match parse_u64(&cleaned) {
        None => Err(LengthError::NotANumber),
        Some(n) => if n == 0 { Err(LengthError::ZeroLength) } else { Ok(n - 1) },
    }
}

/// The number of jumps of the route on a DOTLAN route page: the systems on
/// the route minus its start.
pub fn parse_text_into_length(text: &String) -> (r: Result<u64, LengthError>)
    ensures
        r == match route_cell(text@) {
            None => Err(LengthError::CellNotFound),
            Some(cell) => cell_jumps(cell),
        },
{
    match scrape_route_cell(text.as_str()) {
        None => Err(LengthError::CellNotFound),
        Some(cell) => length_from_cell(cell.as_str()),
    }
}

} // verus!
