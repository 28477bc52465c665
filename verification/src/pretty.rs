use vstd::prelude::*;

use crate::manager::{SystemManager, leg};
use crate::system::System;
use crate::shortest::CurrentShortest;
use crate::utils::ends_with;
use crate::request::{parse_u64_spec, decimal_value, is_digit, all_digits, unsigned_body};

verus! {

/// The decimal digit `d`.
pub open spec fn digit_char(d: nat) -> char {
    seq!['0', '1', '2', '3', '4', '5', '6', '7', '8', '9'][d as int]
}

/// `n` written in decimal, as `Display` writes an unsigned integer.
pub open spec fn decimal_chars(n: nat) -> Seq<char>
    decreases n,
{
    if n < 10 {
        seq![digit_char(n)]
    } else {
        decimal_chars(n / 10).push(digit_char(n % 10))
    }
}

/// The digit char of `d` is an ASCII digit worth `d`.
proof fn lemma_digit_char(d: nat)
    requires
        d < 10,
    ensures
        is_digit(digit_char(d)),
        digit_char(d) as u32 - '0' as u32 == d,
{
    let ds = seq!['0', '1', '2', '3', '4', '5', '6', '7', '8', '9'];
    if d == 0 { assert(ds[0] == '0'); }
    else if d == 1 { assert(ds[1] == '1'); }
    else if d == 2 { assert(ds[2] == '2'); }
    else if d == 3 { assert(ds[3] == '3'); }
    else if d == 4 { assert(ds[4] == '4'); }
    else if d == 5 { assert(ds[5] == '5'); }
    else if d == 6 { assert(ds[6] == '6'); }
    else if d == 7 { assert(ds[7] == '7'); }
    else if d == 8 { assert(ds[8] == '8'); }
    else { assert(ds[9] == '9'); }
}

/// The decimal writing of `n` is all digits and reads back as `n`.
proof fn lemma_decimal_value(n: nat)
    ensures
        decimal_chars(n).len() > 0,
        all_digits(decimal_chars(n)),
        decimal_value(decimal_chars(n)) == n,
    decreases n,
{
    if n < 10 {
        lemma_digit_char(n);
        assert(seq![digit_char(n)].drop_last() =~= Seq::<char>::empty());
        assert(decimal_value(Seq::<char>::empty()) == 0);
        assert(decimal_value(seq![digit_char(n)]) == ((digit_char(n) as u32 - '0' as u32) as nat));
    } else {
        lemma_decimal_value(n / 10);
        lemma_digit_char(n % 10);
        let prev = decimal_chars(n / 10);
        assert(prev.push(digit_char(n % 10)).drop_last() =~= prev);
        assert(decimal_value(decimal_chars(n)) == decimal_value(prev) * 10 + ((digit_char(n % 10) as u32 - '0' as u32) as nat));
        assert((n / 10) * 10 + n % 10 == n);
        assert forall|i: int| 0 <= i < decimal_chars(n).len() implies is_digit(#[trigger] decimal_chars(n)[i]) by {
            if i < prev.len() {
                assert(decimal_chars(n)[i] == prev[i]);
            }
        }
    }
}

/// Law: reading back what `decimal_string` writes gives the number again.
pub proof fn lemma_decimal_roundtrip(n: u64)
    ensures
        parse_u64_spec(decimal_chars(n as nat)) == Some(n),
{
    lemma_decimal_value(n as nat);
    let d = decimal_chars(n as nat);
    assert(is_digit(d[0]));
    assert(unsigned_body(d) == d);
}

/// `n` written in decimal with at least three digits (`{:03}`).
pub open spec fn pad3(n: nat) -> Seq<char> {
    let d = decimal_chars(n);
    if d.len() >= 3 {
        d
    } else {
        Seq::new((3 - d.len()) as nat, |i: int| '0') + d
    }
}

/// `msg` painted in the 256-colour palette entry `code`:
/// `ESC [ 38;5;CODE m`, the text, `ESC [ 0 m`.
pub open spec fn paint_fixed(code: u8, msg: Seq<char>) -> Seq<char> {
    seq!['\u{1b}', '[', '3', '8', ';', '5', ';'] + decimal_chars(code as nat) + seq!['m'] + msg
        + seq!['\u{1b}', '[', '0', 'm']
}

/// Paints `msg` with `nu_ansi_term::Color::Fixed(code).paint(..)` and turns it
/// into a string. By the crate's source (`write_prefix`, the `Fixed` arm of
/// `write_foreground_code`, `write_suffix`; the `gnu_legacy` feature is not
/// enabled) the string is `paint_fixed`.
#[verifier::external_body]
pub(crate) fn colored(code: u8, msg: &str) -> (r: String)
    ensures
        r@ == paint_fixed(code, msg@),
{
    nu_ansi_term::Color::Fixed(code).paint(msg).to_string()
}

/// The colours of the terminal's basic palette that the reports use.
pub enum Shade {
    DarkGray,
    LightYellow,
    LightBlue,
    LightCyan,
}

/// The foreground code of a shade.
pub open spec fn shade_code(shade: Shade) -> Seq<char> {
    match shade {
        Shade::DarkGray => seq!['9', '0'],
        Shade::LightYellow => seq!['9', '3'],
        Shade::LightBlue => seq!['9', '4'],
        Shade::LightCyan => seq!['9', '6'],
    }
}

/// `msg` painted in `shade`: `ESC [ CODE m`, the text, `ESC [ 0 m`.
pub open spec fn paint_shade(shade: Shade, msg: Seq<char>) -> Seq<char> {
    seq!['\u{1b}', '['] + shade_code(shade) + seq!['m'] + msg + seq!['\u{1b}', '[', '0', 'm']
}

/// Paints `msg` with the `nu_ansi_term` colour of the same name as `shade`
/// and turns it into a string. By the crate's source (`write_prefix`, the
/// arms of `write_foreground_code` for these colours, `write_suffix`) the
/// string is `paint_shade`.
#[verifier::external_body]
pub(crate) fn shaded(shade: Shade, msg: &str) -> (r: String)
    ensures
        r@ == paint_shade(shade, msg@),
{
    let color = match shade {
        Shade::DarkGray => nu_ansi_term::Color::DarkGray,
        Shade::LightYellow => nu_ansi_term::Color::LightYellow,
        Shade::LightBlue => nu_ansi_term::Color::LightBlue,
        Shade::LightCyan => nu_ansi_term::Color::LightCyan,
    };
    color.paint(msg).to_string()
}

const DIGITS: [char; 10] = ['0', '1', '2', '3', '4', '5', '6', '7', '8', '9'];

/// Appends `n` written in decimal.
fn push_decimal(n: u64, out: &mut Vec<char>)
    ensures
        final(out)@ == old(out)@ + decimal_chars(n as nat),
    decreases n,
{
    if n >= 10 {
        push_decimal(n / 10, out);
    }
    let d = (n % 10) as usize;
    assert(DIGITS@ == seq!['0', '1', '2', '3', '4', '5', '6', '7', '8', '9']);
    out.push(DIGITS[d]);
    proof {
        if n >= 10 {
            assert(decimal_chars(n as nat) == decimal_chars((n / 10) as nat).push(digit_char((n % 10) as nat)));
        }
    }
}

/// `n` written in decimal.
pub fn decimal_string(n: u64) -> (r: String)
    ensures
        r@ == decimal_chars(n as nat),
{
    let mut v: Vec<char> = Vec::new();
    push_decimal(n, &mut v);
    assert(v@ =~= decimal_chars(n as nat));
    crate::text::string_from_chars(&v)
}

/// `n` written in decimal with at least three digits.
pub fn padded3(n: u64) -> (r: String)
    ensures
        r@ == pad3(n as nat),
{
    let mut digits: Vec<char> = Vec::new();
    push_decimal(n, &mut digits);
    assert(digits@ =~= decimal_chars(n as nat));
    let mut v: Vec<char> = Vec::new();
    if digits.len() < 3 {
        let pad = 3 - digits.len();
        let mut i: usize = 0;
        while i < pad
            invariant
                i <= pad,
                v@ == Seq::new(i as nat, |k: int| '0'),
            decreases pad - i,
        {
            v.push('0');
            assert(v@ =~= Seq::new((i + 1) as nat, |k: int| '0'));
            i = i + 1;
        }
    }
    let ghost prefix = v@;
    let mut i: usize = 0;
    while i < digits.len()
        invariant
            i <= digits@.len(),
            v@ == prefix + digits@.take(i as int),
        decreases digits@.len() - i,
    {
        v.push(digits[i]);
        assert(digits@.take(i + 1) =~= digits@.take(i as int).push(digits@[i as int]));
        assert(v@ =~= prefix + digits@.take(i + 1));
        i = i + 1;
    }
    assert(digits@.take(digits@.len() as int) =~= digits@);
    assert(v@ =~= pad3(n as nat));
    crate::text::string_from_chars(&v)
}

/// ` -(DISTANCE)> `, dash and bracket dimmed.
pub open spec fn arrow_spec(distance: u64) -> Seq<char> {
    seq![' '] + paint_fixed(238, seq!['-']) + paint_fixed(250, seq!['('] + decimal_chars(distance as nat) + seq![')'])
        + paint_fixed(238, seq!['>']) + seq![' ']
}

/// The arrow between two systems of a printed route, with the distance.
pub fn arrow_with_distance(distance: u64) -> (r: String)
    ensures
        r@ == arrow_spec(distance),
{
    proof {
        reveal_strlit(" ");
        reveal_strlit("-");
        reveal_strlit("(");
        reveal_strlit(")");
        reveal_strlit(">");
    }
    let mut inner = String::new();
    inner.append("(");
    let d = decimal_string(distance);
    inner.append(d.as_str());
    inner.append(")");
    let mut out = String::new();
    out.append(" ");
    out.append(colored(238, "-").as_str());
    out.append(colored(250, inner.as_str()).as_str());
    out.append(colored(238, ">").as_str());
    out.append(" ");
    out
}

/// Every two consecutive systems of `route` have a recorded distance.
pub open spec fn legs_known(s: Seq<System>, route: Seq<usize>) -> bool {
    forall|i: int| 0 <= i < route.len() - 1 ==> #[trigger] leg(s, route[i], route[i + 1]) is Some
}

/// The systems of a route, painted, with an arrow and the distance between
/// each two.
pub open spec fn route_body(s: Seq<System>, route: Seq<usize>) -> Seq<char>
    decreases route.len(),
{
    if route.len() <= 1 {
        if route.len() == 0 { Seq::empty() } else { paint_fixed(82, s[route[0] as int].name_view()) }
    } else {
        route_body(s, route.drop_last()) + arrow_spec(leg(s, route[route.len() - 2], route.last())->0)
            + paint_fixed(82, s[route.last() as int].name_view())
    }
}

/// `>>>` in yellow.
pub open spec fn yellow_arrow() -> Seq<char> {
    paint_fixed(220, seq!['>', '>', '>'])
}

/// A printed route: the start, the systems of the route with their
/// distances, and the end if there is one.
pub open spec fn pretty_route(s: Seq<System>, route: Seq<usize>, start: Seq<char>, end: Option<Seq<char>>) -> Seq<char> {
    yellow_arrow() + seq![' '] + paint_fixed(87, start) + seq![' ', ' '] + yellow_arrow() + seq![' ', ' ']
        + route_body(s, route) + seq![' ', ' '] + yellow_arrow()
        + match end {
            Some(e) => seq![' ', ' '] + paint_fixed(87, e) + seq![' '] + yellow_arrow(),
            None => Seq::empty(),
        }
}

/// Prints a route for the terminal: the start, each system of the route with
/// the distance from the one before, and the end if there is one.
#[verifier::spinoff_prover]
pub fn prettify_route(system_holder: &SystemManager, route: &Vec<usize>, start: &System, end: &Option<System>) -> (r: String)
    requires
        route@.len() > 0,
        forall|i: int| 0 <= i < route@.len() ==> #[trigger] route@[i] < system_holder.systems().len(),
        legs_known(system_holder.systems(), route@),
    ensures
        r@ == pretty_route(system_holder.systems(), route@, start.name_view(), match end {
            Some(e) => Some(e.name_view()),
            None => None,
        }),
{
    let ghost s = system_holder.systems();
    proof {
        reveal_strlit(">>>");
        reveal_strlit(" ");
        reveal_strlit("  ");
        reveal_strlit("");
    }
    let yellow = colored(220, ">>>");
    let mut body = colored(82, system_holder.system(route[0]).name().as_str());
    assert(route@.take(1) =~= seq![route@[0]]);
    let mut i: usize = 1;
    while i < route.len()
        invariant
            1 <= i <= route@.len(),
            s == system_holder.systems(),
            forall|k: int| 0 <= k < route@.len() ==> #[trigger] route@[k] < s.len(),
            legs_known(s, route@),
            body@ == route_body(s, route@.take(i as int)),
        decreases route@.len() - i,
    {
        let prev = system_holder.system(route[i - 1]);
        let next = system_holder.system(route[i]);
        assert(leg(s, route@[i - 1], route@[(i - 1) + 1]) is Some);
        let distance = prev.get_distance_to(next).unwrap();
        let arrow = arrow_with_distance(distance);
        body.append(arrow.as_str());
        body.append(colored(82, next.name().as_str()).as_str());
        proof {
            let t = route@.take(i + 1);
            assert(t.drop_last() =~= route@.take(i as int));
            assert(t[t.len() - 2] == route@[i - 1] && t.last() == route@[i as int]);
        }
        i = i + 1;
    }
    assert(route@.take(route@.len() as int) =~= route@);
    let mut out = String::new();
    out.append(yellow.as_str());
    out.append(" ");
    out.append(colored(87, start.name().as_str()).as_str());
    out.append("  ");
    out.append(yellow.as_str());
    out.append("  ");
    out.append(body.as_str());
    out.append("  ");
    out.append(yellow.as_str());
    match end {
        Some(e) => {
            out.append("  ");
            out.append(colored(87, e.name().as_str()).as_str());
            out.append(" ");
            out.append(yellow.as_str());
        },
        None => {},
    }
    out
}

/// The names of a route, painted, joined by a painted ` -> `.
pub open spec fn names_body(s: Seq<System>, route: Seq<usize>) -> Seq<char>
    decreases route.len(),
{
    if route.len() <= 1 {
        if route.len() == 0 { Seq::empty() } else { paint_fixed(51, s[route[0] as int].name_view()) }
    } else {
        names_body(s, route.drop_last()) + paint_fixed(244, " -> "@) + paint_fixed(51, s[route.last() as int].name_view())
    }
}

/// A printed route without distances: the start, then the systems of the
/// route joined by arrows.
pub open spec fn pretty_route_names(s: Seq<System>, route: Seq<usize>, start: Seq<char>) -> Seq<char> {
    yellow_arrow() + seq![' ', ' '] + paint_fixed(87, start) + seq![' ', ' '] + yellow_arrow() + seq![' ', ' ']
        + names_body(s, route) + seq![' ', ' '] + yellow_arrow()
}

/// Prints a route for the terminal without distances.
pub fn prettify_route_names(system_holder: &SystemManager, route: &Vec<usize>, start: &System) -> (r: String)
    requires
        forall|i: int| 0 <= i < route@.len() ==> #[trigger] route@[i] < system_holder.systems().len(),
    ensures
        r@ == pretty_route_names(system_holder.systems(), route@, start.name_view()),
{
    let ghost s = system_holder.systems();
    proof {
        reveal_strlit("  ");
    }
    let mut body = String::new();
    let mut i: usize = 0;
    assert(route@.take(0) =~= Seq::<usize>::empty());
    while i < route.len()
        invariant
            i <= route@.len(),
            s == system_holder.systems(),
            forall|k: int| 0 <= k < route@.len() ==> #[trigger] route@[k] < s.len(),
            body@ == names_body(s, route@.take(i as int)),
        decreases route@.len() - i,
    {
        if i > 0 {
            body.append(colored(244, " -> ").as_str());
        }
        body.append(colored(51, system_holder.system(route[i]).name().as_str()).as_str());
        proof {
            let t = route@.take(i + 1);
            assert(t.drop_last() =~= route@.take(i as int));
            assert(t.last() == route@[i as int]);
            if i == 0 {
                assert(t =~= seq![route@[0]]);
            }
        }
        i = i + 1;
    }
    assert(route@.take(route@.len() as int) =~= route@);
    let yellow = colored(220, ">>>");
    proof { reveal_strlit(">>>"); }
    let mut out = String::new();
    out.append(yellow.as_str());
    out.append("  ");
    out.append(colored(87, start.name().as_str()).as_str());
    out.append("  ");
    out.append(yellow.as_str());
    out.append("  ");
    out.append(body.as_str());
    out.append("  ");
    out.append(yellow.as_str());
    out
}

/// A success line of the report: the `[  O K  ]` tag, then the message.
pub open spec fn ok_line(msg: Seq<char>) -> Seq<char> {
    seq![' ', ' '] + paint_fixed(82, "[  O K  ]"@) + seq![' '] + paint_fixed(255, msg)
}

/// The line of the report that gives the shortest length.
pub open spec fn length_line(length: u64) -> Seq<char> {
    ok_line("  Shortest Route Length is '"@ + paint_fixed(39, decimal_chars(length as nat)) + "'"@)
}

/// The line of the report for the route numbered `number`.
pub open spec fn route_line(number: nat, pretty: Seq<char>) -> Seq<char> {
    "  - "@ + paint_fixed(48, pad3(number)) + " : "@ + pretty
}

/// The lines of the shortest-route report, blank lines included.
pub open spec fn report_lines(s: Seq<System>, routes: Seq<Seq<usize>>, length: u64, start: Seq<char>, end: Option<Seq<char>>) -> Seq<Seq<char>> {
    seq![Seq::<char>::empty(), length_line(length), Seq::<char>::empty(), paint_fixed(48, "  [ ROUTE ]"@), Seq::<char>::empty()]
        + Seq::new(routes.len(), |i: int| route_line((i + 1) as nat, pretty_route(s, routes[i], start, end)))
        + seq![Seq::<char>::empty()]
}

impl CurrentShortest {
    /// The lines that report the shortest routes: the length, then each route
    /// numbered from one, framed by blank lines.
    pub fn report_lines(&self, system_holder: &SystemManager, start: &System, end: &Option<System>) -> (r: Vec<String>)
        requires
            forall|i: int| 0 <= i < self.state().0.len() ==> {
                &&& (#[trigger] self.state().0[i]).len() > 0
                &&& forall|j: int| 0 <= j < self.state().0[i].len() ==> #[trigger] self.state().0[i][j] < system_holder.systems().len()
                &&& legs_known(system_holder.systems(), self.state().0[i])
            },
        ensures
            r@.map_values(|l: String| l@) == report_lines(system_holder.systems(), self.state().0, self.state().1,
                start.name_view(), match end { Some(e) => Some(e.name_view()), None => None }),
    {
        let ghost endv = match end { Some(e) => Some(e.name_view()), None => None };
        let (length, routes) = self.inner();
        let mut lines: Vec<String> = Vec::new();
        lines.push(String::new());
        let mut msg = String::new();
        msg.append("  Shortest Route Length is '");
        msg.append(colored(39, decimal_string(length).as_str()).as_str());
        msg.append("'");
        let mut ok = String::new();
        proof { reveal_strlit("  "); reveal_strlit(" "); }
        ok.append("  ");
        ok.append(colored(82, "[  O K  ]").as_str());
        ok.append(" ");
        ok.append(colored(255, msg.as_str()).as_str());
        assert(msg@ =~= "  Shortest Route Length is '"@ + paint_fixed(39, decimal_chars(length as nat)) + "'"@);
        assert(ok@ =~= length_line(length));
        lines.push(ok);
        lines.push(String::new());
        lines.push(colored(48, "  [ ROUTE ]"));
        lines.push(String::new());
        let ghost head = lines@.map_values(|l: String| l@);
        assert(head =~= seq![Seq::<char>::empty(), length_line(self.state().1), Seq::<char>::empty(),
            paint_fixed(48, "  [ ROUTE ]"@), Seq::<char>::empty()]);
        let ghost rv = routes@.map_values(|v: Vec<usize>| v@);
        let mut i: usize = 0;
        while i < routes.len()
            invariant
                i <= routes@.len(),
                rv == routes@.map_values(|v: Vec<usize>| v@),
                rv == self.state().0,
                endv == match end { Some(e) => Some(e.name_view()), None => None },
                forall|a: int| 0 <= a < self.state().0.len() ==> {
                    &&& (#[trigger] self.state().0[a]).len() > 0
                    &&& forall|j: int| 0 <= j < self.state().0[a].len() ==> #[trigger] self.state().0[a][j] < system_holder.systems().len()
                    &&& legs_known(system_holder.systems(), self.state().0[a])
                },
                lines@.map_values(|l: String| l@) == head + Seq::new(i as nat, |k: int| route_line((k + 1) as nat,
                    pretty_route(system_holder.systems(), rv[k], start.name_view(), endv))),
            decreases routes@.len() - i,
        {
            assert(rv[i as int] == routes@[i as int]@);
            let pretty = prettify_route(system_holder, &routes[i], start, end);
            let mut line = String::new();
            line.append("  - ");
            line.append(colored(48, padded3(i as u64 + 1).as_str()).as_str());
            line.append(" : ");
            line.append(pretty.as_str());
            assert((i as u64 + 1) as nat == (i + 1) as nat);
            assert(pretty@ == pretty_route(system_holder.systems(), rv[i as int], start.name_view(), endv));
            assert(line@ =~= "  - "@ + paint_fixed(48, pad3((i + 1) as nat)) + " : "@ + pretty@);
            assert(line@ == route_line((i + 1) as nat, pretty_route(system_holder.systems(), rv[i as int], start.name_view(), endv)));
            let ghost before = lines@.map_values(|l: String| l@);
            lines.push(line);
            assert(lines@.map_values(|l: String| l@) =~= before.push(line@));
            assert(head + Seq::new((i + 1) as nat, |k: int| route_line((k + 1) as nat,
                pretty_route(system_holder.systems(), rv[k], start.name_view(), endv)))
                =~= (head + Seq::new(i as nat, |k: int| route_line((k + 1) as nat,
                pretty_route(system_holder.systems(), rv[k], start.name_view(), endv)))).push(line@));
            i = i + 1;
        }
        let ghost before = lines@.map_values(|l: String| l@);
        lines.push(String::new());
        assert(lines@.map_values(|l: String| l@) =~= before.push(Seq::<char>::empty()));
        assert(lines@.map_values(|l: String| l@) =~= report_lines(system_holder.systems(), self.state().0, self.state().1,
                start.name_view(), endv));
        lines
    }
}

/// The lines of the summary of the shortest routes, without distances: three
/// blank lines, the length, then each route numbered from one under a
/// `[ ROUTES ]` header, framed by blank lines.
pub open spec fn summary_lines(s: Seq<System>, routes: Seq<Seq<usize>>, length: u64, start: Seq<char>) -> Seq<Seq<char>> {
    seq![Seq::<char>::empty(), Seq::<char>::empty(), Seq::<char>::empty(), length_line(length), Seq::<char>::empty(),
        paint_fixed(48, "  [ ROUTES ]"@), Seq::<char>::empty()]
        + Seq::new(routes.len(), |i: int| route_line((i + 1) as nat, pretty_route_names(s, routes[i], start)))
        + seq![Seq::<char>::empty()]
}

impl CurrentShortest {
    /// The lines of the summary of the shortest routes, as a terminal shows
    /// them: the length, then each route numbered from one, without distances.
    pub fn summary_lines(&self, system_holder: &SystemManager, start: &System) -> (r: Vec<String>)
        requires
            forall|i: int| 0 <= i < self.state().0.len() ==>
                forall|j: int| 0 <= j < (#[trigger] self.state().0[i]).len() ==> #[trigger] self.state().0[i][j] < system_holder.systems().len(),
        ensures
            r@.map_values(|l: String| l@) == summary_lines(system_holder.systems(), self.state().0, self.state().1, start.name_view()),
    {
        let (length, routes) = self.inner();
        let mut lines: Vec<String> = Vec::new();
        lines.push(String::new());
        lines.push(String::new());
        lines.push(String::new());
        let mut msg = String::new();
        msg.append("  Shortest Route Length is '");
        msg.append(colored(39, decimal_string(length).as_str()).as_str());
        msg.append("'");
        let mut ok = String::new();
        proof { reveal_strlit("  "); reveal_strlit(" "); }
        ok.append("  ");
        ok.append(colored(82, "[  O K  ]").as_str());
        ok.append(" ");
        ok.append(colored(255, msg.as_str()).as_str());
        assert(msg@ =~= "  Shortest Route Length is '"@ + paint_fixed(39, decimal_chars(length as nat)) + "'"@);
        assert(ok@ =~= length_line(length));
        lines.push(ok);
        lines.push(String::new());
        lines.push(colored(48, "  [ ROUTES ]"));
        lines.push(String::new());
        let ghost head = lines@.map_values(|l: String| l@);
        assert(head =~= seq![Seq::<char>::empty(), Seq::<char>::empty(), Seq::<char>::empty(), length_line(self.state().1),
            Seq::<char>::empty(), paint_fixed(48, "  [ ROUTES ]"@), Seq::<char>::empty()]);
        let ghost rv = routes@.map_values(|v: Vec<usize>| v@);
        let mut i: usize = 0;
        while i < routes.len()
            invariant
                i <= routes@.len(),
                rv == routes@.map_values(|v: Vec<usize>| v@),
                rv == self.state().0,
                forall|a: int| 0 <= a < self.state().0.len() ==>
                    forall|j: int| 0 <= j < (#[trigger] self.state().0[a]).len() ==> #[trigger] self.state().0[a][j] < system_holder.systems().len(),
                lines@.map_values(|l: String| l@) == head + Seq::new(i as nat, |k: int| route_line((k + 1) as nat,
                    pretty_route_names(system_holder.systems(), rv[k], start.name_view()))),
            decreases routes@.len() - i,
        {
            assert(rv[i as int] == routes@[i as int]@);
            assert(forall|j: int| 0 <= j < routes@[i as int]@.len() ==> #[trigger] routes@[i as int]@[j] < system_holder.systems().len()) by {
                assert(self.state().0[i as int] == routes@[i as int]@);
            }
            let pretty = prettify_route_names(system_holder, &routes[i], start);
            let mut line = String::new();
            line.append("  - ");
            line.append(colored(48, padded3(i as u64 + 1).as_str()).as_str());
            line.append(" : ");
            line.append(pretty.as_str());
            assert((i as u64 + 1) as nat == (i + 1) as nat);
            assert(line@ =~= "  - "@ + paint_fixed(48, pad3((i + 1) as nat)) + " : "@ + pretty@);
            let ghost before = lines@.map_values(|l: String| l@);
            lines.push(line);
            assert(lines@.map_values(|l: String| l@) =~= before.push(line@));
            assert(head + Seq::new((i + 1) as nat, |k: int| route_line((k + 1) as nat,
                pretty_route_names(system_holder.systems(), rv[k], start.name_view())))
                =~= (head + Seq::new(i as nat, |k: int| route_line((k + 1) as nat,
                pretty_route_names(system_holder.systems(), rv[k], start.name_view())))).push(line@));
            i = i + 1;
        }
        let ghost before = lines@.map_values(|l: String| l@);
        lines.push(String::new());
        assert(lines@.map_values(|l: String| l@) =~= before.push(Seq::<char>::empty()));
        assert(lines@.map_values(|l: String| l@) =~= summary_lines(system_holder.systems(), self.state().0, self.state().1,
                start.name_view()));
        lines
    }
}

/// The systems of a whole route, each in light cyan, joined by dark gray
/// arrows.
pub open spec fn whole_route_body(route: Seq<Seq<char>>) -> Seq<char>
    decreases route.len(),
{
    if route.len() == 0 {
        Seq::empty()
    } else if route.len() == 1 {
        paint_shade(Shade::LightCyan, route[0])
    } else {
        whole_route_body(route.drop_last()) + paint_shade(Shade::DarkGray, " -> "@) + paint_shade(Shade::LightCyan, route.last())
    }
}

/// What stands before a whole route: nothing without a start, else an arrow
/// and the start.
pub open spec fn route_prefix(start: Seq<char>) -> Seq<char> {
    if start.len() == 0 {
        Seq::empty()
    } else {
        paint_shade(Shade::LightYellow, ">>>"@) + "  "@ + paint_shade(Shade::LightBlue, start)
    }
}

/// What stands after a whole route: nothing without a start, else the end
/// and an arrow.
pub open spec fn route_postfix(start: Seq<char>, end: Seq<char>) -> Seq<char> {
    if start.len() == 0 {
        Seq::empty()
    } else {
        paint_shade(Shade::LightBlue, end) + "  "@ + paint_shade(Shade::LightYellow, ">>>"@)
    }
}

/// A whole route printed for the terminal: the start, the systems between
/// arrows, and the end.
pub open spec fn pretty_whole_route(start: Seq<char>, end: Seq<char>, route: Seq<Seq<char>>) -> Seq<char> {
    route_prefix(start) + "  "@ + paint_shade(Shade::LightYellow, ">>>"@) + "  "@ + whole_route_body(route) + "  "@
        + paint_shade(Shade::LightYellow, ">>>"@) + "  "@ + route_postfix(start, end)
}

/// What stands before a whole route: nothing without a start, else an arrow
/// and the start.
pub fn prettify_route_prefix(start: &String) -> (r: String)
    ensures
        r@ == route_prefix(start@),
{
    if start.as_str().is_empty() {
        return String::new();
    }
    let mut out = shaded(Shade::LightYellow, ">>>");
    out.append("  ");
    out.append(shaded(Shade::LightBlue, start.as_str()).as_str());
    out
}

/// What stands after a whole route: nothing without a start, else the end
/// and an arrow.
pub fn prettify_route_postfix(start: &String, end: &String) -> (r: String)
    ensures
        r@ == route_postfix(start@, end@),
{
    if start.as_str().is_empty() {
        return String::new();
    }
    let mut out = shaded(Shade::LightBlue, end.as_str());
    out.append("  ");
    out.append(shaded(Shade::LightYellow, ">>>").as_str());
    out
}

/// A whole route printed for the terminal.
pub fn prettify_whole_route(start: &String, end: &String, route: &Vec<String>) -> (r: String)
    ensures
        r@ == pretty_whole_route(start@, end@, route@.map_values(|n: String| n@)),
{
    let ghost names = route@.map_values(|n: String| n@);
    let mut body = String::new();
    let mut i: usize = 0;
    assert(names.take(0) =~= Seq::<Seq<char>>::empty());
    while i < route.len()
        invariant
            i <= route@.len(),
            names == route@.map_values(|n: String| n@),
            body@ == whole_route_body(names.take(i as int)),
        decreases route@.len() - i,
    {
        if i > 0 {
            body.append(shaded(Shade::DarkGray, " -> ").as_str());
        }
        body.append(shaded(Shade::LightCyan, route[i].as_str()).as_str());
        proof {
            let t = names.take(i + 1);
            assert(t.drop_last() =~= names.take(i as int));
            assert(t.last() == route@[i as int]@);
            if i == 0 {
                assert(t =~= seq![route@[0]@]);
            }
        }
        i = i + 1;
    }
    assert(names.take(route@.len() as int) =~= names);
    let mut out = prettify_route_prefix(start);
    out.append("  ");
    out.append(shaded(Shade::LightYellow, ">>>").as_str());
    out.append("  ");
    out.append(body.as_str());
    out.append("  ");
    out.append(shaded(Shade::LightYellow, ">>>").as_str());
    out.append("  ");
    out.append(prettify_route_postfix(start, end).as_str());
    out
}

/// `width` dashes.
pub open spec fn dashes(width: nat) -> Seq<char> {
    Seq::new(width, |i: int| '-')
}

/// The lines of the summary of the shortest whole routes: three blank lines,
/// the length, a `[ ROUTES ]` rule, each route, and a closing rule, with
/// `bar` more dashes at the end of each rule.
pub open spec fn whole_summary_lines(length: usize, routes: Seq<Seq<Seq<char>>>, start: Seq<char>, end: Seq<char>, bar: nat) -> Seq<Seq<char>> {
    seq![Seq::<char>::empty(), Seq::<char>::empty(), Seq::<char>::empty(),
        "  Shortest Route Length is '"@ + paint_shade(Shade::LightCyan, decimal_chars(length as nat)) + "'"@,
        Seq::<char>::empty(), "  ----------[ ROUTES ]----------"@ + dashes(bar), Seq::<char>::empty()]
        + Seq::new(routes.len(), |i: int| "  "@ + pretty_whole_route(start, end, routes[i]))
        + seq![Seq::<char>::empty(), "  ------------------------------"@ + dashes(bar), Seq::<char>::empty()]
}

/// `width` dashes.
fn dash_string(width: usize) -> (r: String)
    ensures
        r@ == dashes(width as nat),
{
    let mut v: Vec<char> = Vec::new();
    let mut i: usize = 0;
    while i < width
        invariant
            i <= width,
            v@ == dashes(i as nat),
        decreases width - i,
    {
        v.push('-');
        assert(v@ =~= dashes((i + 1) as nat));
        i = i + 1;
    }
    crate::text::string_from_chars(&v)
}

/// The lines of the summary of the shortest whole routes, as a terminal
/// shows them; `bar` is the number of dashes that lengthen the rules.
pub fn whole_route_summary_lines(length: usize, routes: &Vec<Vec<String>>, start: &String, end: &String, bar: usize) -> (r: Vec<String>)
    ensures
        r@.map_values(|l: String| l@) == whole_summary_lines(length,
            routes@.map_values(|v: Vec<String>| v@.map_values(|n: String| n@)), start@, end@, bar as nat),
{
    let ghost rv = routes@.map_values(|v: Vec<String>| v@.map_values(|n: String| n@));
    let rule = dash_string(bar);
    let mut lines: Vec<String> = Vec::new();
    lines.push(String::new());
    lines.push(String::new());
    lines.push(String::new());
    let mut first = String::new();
    first.append("  Shortest Route Length is '");
    first.append(shaded(Shade::LightCyan, decimal_string(length as u64).as_str()).as_str());
    first.append("'");
    lines.push(first);
    lines.push(String::new());
    let mut top = String::new();
    top.append("  ----------[ ROUTES ]----------");
    top.append(rule.as_str());
    lines.push(top);
    lines.push(String::new());
    let ghost head = lines@.map_values(|l: String| l@);
    assert(head =~= seq![Seq::<char>::empty(), Seq::<char>::empty(), Seq::<char>::empty(),
        "  Shortest Route Length is '"@ + paint_shade(Shade::LightCyan, decimal_chars(length as nat)) + "'"@,
        Seq::<char>::empty(), "  ----------[ ROUTES ]----------"@ + dashes(bar as nat), Seq::<char>::empty()]);
    let mut i: usize = 0;
    while i < routes.len()
        invariant
            i <= routes@.len(),
            rv == routes@.map_values(|v: Vec<String>| v@.map_values(|n: String| n@)),
            lines@.map_values(|l: String| l@) == head + Seq::new(i as nat, |k: int| "  "@ + pretty_whole_route(start@, end@, rv[k])),
        decreases routes@.len() - i,
    {
        let mut line = String::new();
        line.append("  ");
        line.append(prettify_whole_route(start, end, &routes[i]).as_str());
        assert(rv[i as int] == routes@[i as int]@.map_values(|n: String| n@));
        let ghost before = lines@.map_values(|l: String| l@);
        lines.push(line);
        assert(lines@.map_values(|l: String| l@) =~= before.push(line@));
        assert(head + Seq::new((i + 1) as nat, |k: int| "  "@ + pretty_whole_route(start@, end@, rv[k]))
            =~= (head + Seq::new(i as nat, |k: int| "  "@ + pretty_whole_route(start@, end@, rv[k]))).push(line@));
        i = i + 1;
    }
    let ghost body = lines@.map_values(|l: String| l@);
    lines.push(String::new());
    let mut bottom = String::new();
    bottom.append("  ------------------------------");
    bottom.append(rule.as_str());
    lines.push(bottom);
    lines.push(String::new());
    assert(lines@.map_values(|l: String| l@) =~= body + seq![Seq::<char>::empty(),
        "  ------------------------------"@ + dashes(bar as nat), Seq::<char>::empty()]);
    lines
}

/// A printed route ends with the end of what is printed for it.
proof fn lemma_route_line_ends(number: nat, pretty: Seq<char>, tail: Seq<char>)
    requires
        ends_with(pretty, tail),
    ensures
        ends_with(route_line(number, pretty), tail),
{
    let line = route_line(number, pretty);
    let head = "  - "@ + paint_fixed(48, pad3(number)) + " : "@;
    assert(line =~= head + pretty);
    assert(line.subrange(line.len() - tail.len(), line.len() as int)
        =~= pretty.subrange(pretty.len() - tail.len(), pretty.len() as int));
}

/// Law of the report with distances: it has one line per kept route besides
/// six others, and the line of the `i`-th kept route is numbered `i + 1` and
/// prints exactly that route, with the start and the end given to the
/// report; when there is an end, every route line ends with the end's name
/// painted and the yellow arrow.
pub proof fn lemma_report_lines(s: Seq<System>, routes: Seq<Seq<usize>>, length: u64, start: Seq<char>, end: Option<Seq<char>>)
    ensures
        report_lines(s, routes, length, start, end).len() == routes.len() + 6,
        forall|i: int| 0 <= i < routes.len() ==> #[trigger] report_lines(s, routes, length, start, end)[i + 5]
            == route_line((i + 1) as nat, pretty_route(s, routes[i], start, end)),
        end is Some ==> forall|i: int| 0 <= i < routes.len() ==> ends_with(
            #[trigger] report_lines(s, routes, length, start, end)[i + 5],
            seq![' ', ' '] + paint_fixed(87, end->0) + seq![' '] + paint_fixed(220, seq!['>', '>', '>'])),
{
    let lines = report_lines(s, routes, length, start, end);
    assert forall|i: int| 0 <= i < routes.len() implies #[trigger] lines[i + 5]
        == route_line((i + 1) as nat, pretty_route(s, routes[i], start, end)) by {}
    if let Some(e) = end {
        let tail = seq![' ', ' '] + paint_fixed(87, e) + seq![' '] + paint_fixed(220, seq!['>', '>', '>']);
        assert forall|i: int| 0 <= i < routes.len() implies ends_with(#[trigger] lines[i + 5], tail) by {
            let p = pretty_route(s, routes[i], start, end);
            let front = yellow_arrow() + seq![' '] + paint_fixed(87, start) + seq![' ', ' '] + yellow_arrow() + seq![' ', ' ']
                + route_body(s, routes[i]) + seq![' ', ' '] + yellow_arrow();
            assert(p =~= front + tail);
            assert(p.subrange(p.len() - tail.len(), p.len() as int) =~= tail);
            lemma_route_line_ends((i + 1) as nat, p, tail);
        }
    }
}

/// Law of the summary without distances: it has one line per kept route
/// besides eight others, and the line of the `i`-th kept route is numbered
/// `i + 1` and prints exactly that route's systems, in order.
pub proof fn lemma_summary_lines(s: Seq<System>, routes: Seq<Seq<usize>>, length: u64, start: Seq<char>)
    ensures
        summary_lines(s, routes, length, start).len() == routes.len() + 8,
        forall|i: int| 0 <= i < routes.len() ==> #[trigger] summary_lines(s, routes, length, start)[i + 7]
            == route_line((i + 1) as nat, pretty_route_names(s, routes[i], start)),
        forall|i: int| 0 <= i < routes.len() ==> ends_with(#[trigger] summary_lines(s, routes, length, start)[i + 7],
            names_body(s, routes[i]) + seq![' ', ' '] + paint_fixed(220, seq!['>', '>', '>'])),
{
    let lines = summary_lines(s, routes, length, start);
    assert forall|i: int| 0 <= i < routes.len() implies #[trigger] lines[i + 7]
        == route_line((i + 1) as nat, pretty_route_names(s, routes[i], start)) by {}
    assert forall|i: int| 0 <= i < routes.len() implies ends_with(#[trigger] lines[i + 7],
        names_body(s, routes[i]) + seq![' ', ' '] + paint_fixed(220, seq!['>', '>', '>'])) by {
        let tail = names_body(s, routes[i]) + seq![' ', ' '] + paint_fixed(220, seq!['>', '>', '>']);
        let p = pretty_route_names(s, routes[i], start);
        let front = yellow_arrow() + seq![' ', ' '] + paint_fixed(87, start) + seq![' ', ' '] + yellow_arrow() + seq![' ', ' '];
        assert(p =~= front + tail);
        assert(p.subrange(p.len() - tail.len(), p.len() as int) =~= tail);
        lemma_route_line_ends((i + 1) as nat, p, tail);
    }
}

/// Law of the summary of whole routes: it has one line per kept route
/// besides ten others, and the line of the `i`-th kept route prints exactly
/// that route, indented by two spaces.
pub proof fn lemma_whole_summary_lines(length: usize, routes: Seq<Seq<Seq<char>>>, start: Seq<char>, end: Seq<char>, bar: nat)
    ensures
        whole_summary_lines(length, routes, start, end, bar).len() == routes.len() + 10,
        forall|i: int| 0 <= i < routes.len() ==> #[trigger] whole_summary_lines(length, routes, start, end, bar)[i + 7]
            == seq![' ', ' '] + pretty_whole_route(start, end, routes[i]),
{
    reveal_strlit("  ");
    let lines = whole_summary_lines(length, routes, start, end, bar);
    assert forall|i: int| 0 <= i < routes.len() implies #[trigger] lines[i + 7]
        == seq![' ', ' '] + pretty_whole_route(start, end, routes[i]) by {
        assert("  "@ =~= seq![' ', ' ']);
    }
}

} // verus!
