use vstd::prelude::*;

use crate::config;
use crate::route::{RouteOption, option_fragment};
use crate::request::{LengthError, route_cell, parse_u64_spec, trim_spec, without_dots, parse_u64, remove_dots, trim};
use crate::text::{join_with, chars_of};

verus! {

/// The strings joined with `sep` between each two.
pub fn join_strings(items: &Vec<String>, sep: char) -> (r: String)
    ensures
        r@ == join_with(items@.map_values(|s: String| s@), sep),
{
    let ghost views = items@.map_values(|s: String| s@);
    let mut out = String::new();
    let sep_str = crate::text::string_from_chars(&vec![sep]);
    assert(sep_str@ =~= seq![sep]);
    let mut i: usize = 0;
    while i < items.len()
        invariant
            i <= items@.len(),
            views == items@.map_values(|s: String| s@),
            sep_str@ == seq![sep],
            out@ == join_with(views.take(i as int), sep),
        decreases items@.len() - i,
    {
        let ghost before = out@;
        if i > 0 {
            out.append(sep_str.as_str());
        }
        out.append(items[i].as_str());
        proof {
            let t = views.take(i + 1);
            assert(t.drop_last() =~= views.take(i as int));
            if i == 0 {
                assert(t =~= seq![views[0]]);
                assert(out@ =~= views[0]);
            } else {
                assert(out@ =~= before.push(sep) + views[i as int]);
            }
        }
        i = i + 1;
    }
    assert(views.take(items@.len() as int) =~= views);
    out
}

/// The gatecheck name of a route option.
pub open spec fn gatecheck_option(o: RouteOption) -> Seq<char> {
    match o {
        RouteOption::Fastest => "shortest"@,
        RouteOption::Highsec => "secure"@,
        RouteOption::LowNull => "insecure"@,
    }
}

/// The start (if named), the route, and the end (if named).
pub open spec fn full_route(start: Seq<char>, end: Seq<char>, route: Seq<Seq<char>>) -> Seq<Seq<char>> {
    (if start.len() > 0 { seq![start] } else { Seq::empty() }) + route
        + (if end.len() > 0 { seq![end] } else { Seq::empty() })
}

/// The EVE gatecheck link through the systems of `full_route`: the first of
/// them, `:`, the others separated by `,`, `:`, and the kind of route.
pub open spec fn gatecheck_url(start: Seq<char>, end: Seq<char>, o: RouteOption, route: Seq<Seq<char>>) -> Seq<char> {
    let full = full_route(start, end, route);
    config::ROUTE_GATECHECK_URL_PREFIX@ + full[0] + seq![':'] + join_with(full.drop_first(), ',')
        + seq![':'] + gatecheck_option(o) + config::ROUTE_GATECHECK_URL_POSTFIX@
}

/// Law: the three kinds of gatecheck route are `shortest` for the fastest
/// route, `secure` for high-sec and `insecure` for low and null-sec, and no
/// two options share a kind.
pub proof fn lemma_gatecheck_kinds()
    ensures
        gatecheck_option(RouteOption::Fastest) == seq!['s', 'h', 'o', 'r', 't', 'e', 's', 't'],
        gatecheck_option(RouteOption::Highsec) == seq!['s', 'e', 'c', 'u', 'r', 'e'],
        gatecheck_option(RouteOption::LowNull) == seq!['i', 'n', 's', 'e', 'c', 'u', 'r', 'e'],
        forall|a: RouteOption, b: RouteOption| a != b ==> #[trigger] gatecheck_option(a) != #[trigger] gatecheck_option(b),
{
    reveal_strlit("shortest");
    reveal_strlit("secure");
    reveal_strlit("insecure");
    let f = gatecheck_option(RouteOption::Fastest);
    let h = gatecheck_option(RouteOption::Highsec);
    let l = gatecheck_option(RouteOption::LowNull);
    assert(f =~= seq!['s', 'h', 'o', 'r', 't', 'e', 's', 't']);
    assert(h =~= seq!['s', 'e', 'c', 'u', 'r', 'e']);
    assert(l =~= seq!['i', 'n', 's', 'e', 'c', 'u', 'r', 'e']);
    assert(f.len() == 8 && h.len() == 6 && l.len() == 8 && f[0] == 's' && l[0] == 'i');
    assert forall|a: RouteOption, b: RouteOption| a != b implies #[trigger] gatecheck_option(a) != #[trigger] gatecheck_option(b) by {
        match a {
            RouteOption::Fastest => match b {
                RouteOption::Highsec => assert(f.len() != h.len()),
                RouteOption::LowNull => assert(f[0] != l[0]),
                RouteOption::Fastest => {},
            },
            RouteOption::Highsec => match b {
                RouteOption::Fastest => assert(f.len() != h.len()),
                RouteOption::LowNull => assert(l.len() != h.len()),
                RouteOption::Highsec => {},
            },
            RouteOption::LowNull => match b {
                RouteOption::Fastest => assert(f[0] != l[0]),
                RouteOption::Highsec => assert(l.len() != h.len()),
                RouteOption::LowNull => {},
            },
        }
    }
}

/// Law: the systems of a link are the start if it is named, then the route
/// in order, then the end whenever it is named (whether or not a start is).
pub proof fn lemma_full_route(start: Seq<char>, end: Seq<char>, route: Seq<Seq<char>>)
    ensures
        full_route(start, end, route).len() == route.len() + (if start.len() > 0 { 1int } else { 0int })
            + (if end.len() > 0 { 1int } else { 0int }),
        start.len() > 0 ==> full_route(start, end, route)[0] == start,
        start.len() > 0 ==> forall|i: int| 0 <= i < route.len() ==> #[trigger] full_route(start, end, route)[i + 1] == route[i],
        start.len() == 0 ==> forall|i: int| 0 <= i < route.len() ==> #[trigger] full_route(start, end, route)[i] == route[i],
        end.len() > 0 ==> full_route(start, end, route).last() == end,
{
}

/// The link ends with `tail`.
pub open spec fn ends_with(s: Seq<char>, tail: Seq<char>) -> bool {
    tail.len() <= s.len() && s.subrange(s.len() - tail.len(), s.len() as int) == tail
}

/// Joined pieces end with the last piece.
proof fn lemma_join_ends_with_last(pieces: Seq<Seq<char>>, sep: char)
    requires
        pieces.len() > 0,
    ensures
        ends_with(join_with(pieces, sep), pieces.last()),
{
    let j = join_with(pieces, sep);
    if pieces.len() == 1 {
        assert(j.subrange(0, j.len() as int) =~= j);
    } else {
        let pre = join_with(pieces.drop_last(), sep).push(sep);
        assert(j == pre + pieces.last());
        assert(j.subrange(pre.len() as int, j.len() as int) =~= pieces.last());
    }
}

/// Law: a link starts with the start when one is named, and ends with `:`
/// and the kind of route, just after the end whenever an end is named and
/// some other system is in the link (with the end alone, the link is the end,
/// an empty list of others, and the kind).
pub proof fn lemma_gatecheck_url_ends(start: Seq<char>, end: Seq<char>, o: RouteOption, route: Seq<Seq<char>>)
    requires
        full_route(start, end, route).len() > 0,
    ensures
        ends_with(gatecheck_url(start, end, o, route), seq![':'] + gatecheck_option(o)),
        end.len() > 0 && (start.len() > 0 || route.len() > 0)
            ==> ends_with(gatecheck_url(start, end, o, route), end + seq![':'] + gatecheck_option(o)),
        start.len() > 0 ==> gatecheck_url(start, end, o, route).subrange(0, (config::ROUTE_GATECHECK_URL_PREFIX@.len() + start.len() + 1) as int)
            == config::ROUTE_GATECHECK_URL_PREFIX@ + start + seq![':'],
{
    reveal_strlit("");
    let full = full_route(start, end, route);
    let url = gatecheck_url(start, end, o, route);
    let k = gatecheck_option(o);
    let body = config::ROUTE_GATECHECK_URL_PREFIX@ + full[0] + seq![':'] + join_with(full.drop_first(), ',');
    assert(config::ROUTE_GATECHECK_URL_POSTFIX@ =~= Seq::<char>::empty());
    assert(url =~= body + (seq![':'] + k));
    assert(url.subrange(body.len() as int, url.len() as int) =~= seq![':'] + k);
    if end.len() > 0 && (start.len() > 0 || route.len() > 0) {
        lemma_full_route(start, end, route);
        let rest = full.drop_first();
        assert(rest.len() >= 1);
        assert(rest.last() == end);
        lemma_join_ends_with_last(rest, ',');
        let j = join_with(rest, ',');
        let lp = j.len() - end.len();
        assert(j =~= j.subrange(0, lp) + end);
        let before = config::ROUTE_GATECHECK_URL_PREFIX@ + full[0] + seq![':'] + j.subrange(0, lp);
        let tail = end + seq![':'] + k;
        assert(url =~= before + tail);
        assert(url.subrange(url.len() - tail.len(), url.len() as int) =~= tail);
    }
    if start.len() > 0 {
        lemma_full_route(start, end, route);
        let head = config::ROUTE_GATECHECK_URL_PREFIX@ + start + seq![':'];
        assert(url =~= head + (join_with(full.drop_first(), ',') + seq![':'] + k));
        assert(url.subrange(0, head.len() as int) =~= head);
    }
}

/// The EVE gatecheck link of a route: its first system, then the others
/// separated by `,`, then the kind of route.
pub fn route_to_gatecheck_url(start: &String, end: &String, route_option: RouteOption, route: &Vec<String>) -> (r: String)
    requires
        full_route(start@, end@, route@.map_values(|s: String| s@)).len() > 0,
    ensures
        r@ == gatecheck_url(start@, end@, route_option, route@.map_values(|s: String| s@)),
{
    let ghost full = full_route(start@, end@, route@.map_values(|s: String| s@));
    let mut full_vec: Vec<String> = Vec::new();
    if !start.as_str().is_empty() {
        full_vec.push(start.clone());
    }
    let mut i: usize = 0;
    while i < route.len()
        invariant
            i <= route@.len(),
            full_vec@.map_values(|s: String| s@) == (if start@.len() > 0 { seq![start@] } else { Seq::<Seq<char>>::empty() })
                + route@.map_values(|s: String| s@).take(i as int),
        decreases route@.len() - i,
    {
        let ghost before = full_vec@.map_values(|s: String| s@);
        full_vec.push(route[i].clone());
        assert(full_vec@.map_values(|s: String| s@) =~= before.push(route@[i as int]@));
        assert(route@.map_values(|s: String| s@).take(i + 1) =~= route@.map_values(|s: String| s@).take(i as int).push(route@[i as int]@));
        i = i + 1;
    }
    assert(route@.map_values(|s: String| s@).take(route@.len() as int) =~= route@.map_values(|s: String| s@));
    let ghost mid = full_vec@.map_values(|s: String| s@);
    if !end.as_str().is_empty() {
        full_vec.push(end.clone());
        assert(full_vec@.map_values(|s: String| s@) =~= mid.push(end@));
    }
    assert(full_vec@.map_values(|s: String| s@) =~= full);
    let mut rest: Vec<String> = Vec::new();
    let mut k: usize = 1;
    while k < full_vec.len()
        invariant
            1 <= k <= full_vec@.len(),
            full_vec@.map_values(|s: String| s@) == full,
            rest@.map_values(|s: String| s@) == full.subrange(1, k as int),
        decreases full_vec@.len() - k,
    {
        let ghost before = rest@.map_values(|s: String| s@);
        rest.push(full_vec[k].clone());
        assert(rest@.map_values(|s: String| s@) =~= before.push(full_vec@[k as int]@));
        assert(full.subrange(1, k + 1) =~= full.subrange(1, k as int).push(full[k as int]));
        k = k + 1;
    }
    assert(full.subrange(1, full.len() as int) =~= full.drop_first());
    let option = match route_option {
        RouteOption::Fastest => {
            proof { reveal_strlit("shortest"); }
            "shortest"
        },
        RouteOption::Highsec => {
            proof { reveal_strlit("secure"); }
            "secure"
        },
        RouteOption::LowNull => {
            proof { reveal_strlit("insecure"); }
            "insecure"
        },
    };
    let mut out = String::new();
    out.append(config::ROUTE_GATECHECK_URL_PREFIX);
    out.append(full_vec[0].as_str());
    proof { reveal_strlit(":"); }
    out.append(":");
    let joined = join_strings(&rest, ',');
    out.append(joined.as_str());
    out.append(":");
    out.append(option);
    out.append(config::ROUTE_GATECHECK_URL_POSTFIX);
    out
}

/// The DOTLAN route query through the start (if named), the systems of the
/// route in order, and the end (if named).
pub fn route_to_url(start: &String, end: &String, route_option: RouteOption, route: &Vec<String>) -> (r: String)
    ensures
        r@ == config::ROUTE_SEARCH_URL_PREFIX@ + option_fragment(route_option)
            + (if start@.len() > 0 { start@ + seq![':'] } else { Seq::empty() })
            + join_with(route@.map_values(|s: String| s@), ':')
            + (if end@.len() > 0 { seq![':'] + end@ } else { Seq::empty() })
            + config::ROUTE_SEARCH_URL_SUFFIX@,
{
    let mut out = String::new();
    out.append(config::ROUTE_SEARCH_URL_PREFIX);
    out.append(route_option.as_url());
    proof { reveal_strlit(":"); }
    if !start.as_str().is_empty() {
        out.append(start.as_str());
        out.append(":");
    }
    let joined = join_strings(route, ':');
    out.append(joined.as_str());
    if !end.as_str().is_empty() {
        out.append(":");
        out.append(end.as_str());
    }
    out.append(config::ROUTE_SEARCH_URL_SUFFIX);
    out
}

/// What `usize::from_str` gives.
pub open spec fn parse_usize_spec(s: Seq<char>) -> Option<usize> {
    match parse_u64_spec(s) {
        Some(v) => if v <= usize::MAX { Some(v as usize) } else { None },
        None => None,
    }
}

/// The number of systems on the route of a DOTLAN route page.
pub fn parse_text_into_length(text: String) -> (r: Result<usize, LengthError>)
    ensures
        r == match route_cell(text@) {
            None => Err(LengthError::CellNotFound),
            Some(cell) => match parse_usize_spec(trim_spec(without_dots(cell))) {
                Some(n) => Ok(n),
                None => Err(LengthError::NotANumber),
            },
        },
{
    match crate::request::scrape_route_cell(text.as_str()) {
        None => Err(LengthError::CellNotFound),
        Some(cell) => {
            let chars = chars_of(cell.as_str());
            let cleaned = trim(&remove_dots(&chars));
            match parse_u64(&cleaned) {
                Some(v) => if v as u128 <= usize::MAX as u128 { Ok(v as usize) } else { Err(LengthError::NotANumber) },
                None => Err(LengthError::NotANumber),
            }
        },
    }
}

} // verus!
