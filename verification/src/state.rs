use vstd::prelude::*;

use crate::config;
use crate::combinatorics::{arrangements_left, arrangements_of, checked_factorial_u128, factorial, is_arrangement, lex_before, next_arrangement};
use crate::text::{chars_of, split_on, split_spec, string_from_chars};

verus! {

/// The shortest routes found so far, spelled with system names, and their
/// length.
pub struct CurrentShortest {
    pub routes: Vec<Vec<String>>,
    pub length: usize,
}

impl CurrentShortest {
    /// No route yet; the largest length as the bound to beat.
    pub fn new() -> (r: CurrentShortest)
        ensures
            r.routes@.len() == 0,
            r.length == usize::MAX,
    {
        CurrentShortest { routes: Vec::new(), length: usize::MAX }
    }
}

/// Separator between system names in the text of a whole route, every order
/// of which is looked up.
pub const WHOLE_ROUTE_SPLIT_CHAR: char = ':';

/// The pieces of `route` between the occurrences of `sep`, as strings.
fn split_names(route: &str, sep: char) -> (r: Vec<String>)
    ensures
        string_views(r@) == split_spec(route@, sep),
{
    let chars = chars_of(route);
    let pieces = split_on(&chars, sep);
    let ghost want = pieces@.map_values(|p: Vec<char>| p@);
    let mut out: Vec<String> = Vec::new();
    let mut i: usize = 0;
    while i < pieces.len()
        invariant
            i <= pieces@.len(),
            want == pieces@.map_values(|p: Vec<char>| p@),
            string_views(out@) == want.take(i as int),
        decreases pieces@.len() - i,
    {
        let s = string_from_chars(&pieces[i]);
        let ghost before = string_views(out@);
        out.push(s);
        assert(string_views(out@) =~= before.push(want[i as int]));
        assert(want.take(i + 1) =~= want.take(i as int).push(want[i as int]));
        i = i + 1;
    }
    assert(want.take(pieces@.len() as int) =~= want);
    out
}

/// The names of a route text, split at `ROUTE_SPLIT_CHAR`.
pub fn split_route(route: &str) -> (r: Vec<String>)
    ensures
        string_views(r@) == split_spec(route@, config::ROUTE_SPLIT_CHAR),
{
    split_names(route, config::ROUTE_SPLIT_CHAR)
}

/// The names of the text of a whole route, split at `WHOLE_ROUTE_SPLIT_CHAR`.
pub fn split_whole_route(route: &str) -> (r: Vec<String>)
    ensures
        string_views(r@) == split_spec(route@, WHOLE_ROUTE_SPLIT_CHAR),
{
    split_names(route, WHOLE_ROUTE_SPLIT_CHAR)
}

/// The number of orders of `n` systems: `n!`, or `usize::MAX` when that does
/// not fit.
pub fn route_count(n: usize) -> (r: usize)
    ensures
        r == if factorial(n as nat) <= usize::MAX { factorial(n as nat) as usize } else { usize::MAX },
{
    match checked_factorial_u128(n as u128) {
        Some(f) => if f <= usize::MAX as u128 { f as usize } else { usize::MAX },
        None => usize::MAX,
    }
}

/// The views of some strings.
pub open spec fn string_views(v: Seq<String>) -> Seq<Seq<char>> {
    v.map_values(|s: String| s@)
}

/// The indices `0..n`.
pub open spec fn index_range(n: nat) -> Seq<usize> {
    Seq::new(n, |i: int| i as usize)
}

/// The route that visits the names of `parsed` in the order `p`.
pub open spec fn named_order(parsed: Seq<Seq<char>>, p: Seq<usize>) -> Seq<Seq<char>> {
    p.map_values(|i: usize| parsed[i as int])
}

/// `orders` lists every arrangement of the positions of `parsed` once, in
/// lexicographic order, and `routes` holds the names of `parsed` taken in
/// each of these orders.
pub open spec fn orders_of(orders: Seq<Seq<usize>>, parsed: Seq<Seq<char>>, routes: Seq<Vec<String>>) -> bool {
    &&& orders.no_duplicates()
    &&& forall|i: int, j: int| 0 <= i < j < orders.len()
        ==> lex_before(#[trigger] orders[i], #[trigger] orders[j], index_range(parsed.len()))
    &&& orders.len() == routes.len()
    &&& forall|q: Seq<usize>| orders.contains(q) <==> is_arrangement(q, index_range(parsed.len()))
    &&& forall|k: int| 0 <= k < routes.len() ==> #[trigger] string_views(routes[k]@) == named_order(parsed, orders[k])
}

/// Every order in which the names of `parsed` can be visited: each result is
/// the names taken in the order of an arrangement of their positions, and
/// every arrangement of the positions gives one of the results, once each,
/// in lexicographic order of the positions (as `itertools` yields them).
pub fn all_routes(parsed: &Vec<String>) -> (r: Vec<Vec<String>>)
    ensures
        exists|orders: Seq<Seq<usize>>| #[trigger] orders_of(orders, string_views(parsed@), r@),
{
    let n = parsed.len();
    let ghost names = string_views(parsed@);
    let mut indices: Vec<usize> = Vec::new();
    let mut i: usize = 0;
    while i < n
        invariant
            i <= n,
            n == parsed@.len(),
            indices@ == index_range(i as nat),
        decreases n - i,
    {
        indices.push(i);
        assert(indices@ =~= index_range((i + 1) as nat));
        i = i + 1;
    }
    let ghost items = indices@;
    assert(items.no_duplicates());
    let mut perms = arrangements_of(indices);
    let ghost all = arrangements_left(perms);
    let ghost mut k: int = 0;
    let mut out: Vec<Vec<String>> = Vec::new();
    loop
        invariant
            0 <= k <= all.len(),
            arrangements_left(perms) == all.skip(k),
            items == index_range(n as nat),
            n == parsed@.len(),
            names == string_views(parsed@),
            forall|q: Seq<usize>| all.contains(q) <==> is_arrangement(q, items),
            out@.len() == k,
            forall|j: int| 0 <= j < k ==> #[trigger] string_views(out@[j]@) == named_order(names, all[j]),
        ensures
            k == all.len(),
            out@.len() == k,
            forall|j: int| 0 <= j < k ==> #[trigger] string_views(out@[j]@) == named_order(names, all[j]),
        decreases all.len() - k,
    {
        match next_arrangement(&mut perms) {
            None => {
                break;
            },
            Some(order) => {
                assert(all.skip(k)[0] == all[k]);
                assert(all.contains(all[k]));
                let mut route: Vec<String> = Vec::new();
                let mut j: usize = 0;
                while j < order.len()
                    invariant
                        j <= order@.len(),
                        k < all.len(),
                        order@ == all[k],
                        is_arrangement(order@, items),
                        items == index_range(n as nat),
                        n == parsed@.len(),
                        names == string_views(parsed@),
                        string_views(route@) == named_order(names, order@.take(j as int)),
                    decreases order@.len() - j,
                {
                    assert(items.contains(order@[j as int]));
                    let idx = order[j];
                    assert(idx < n);
                    let ghost before = string_views(route@);
                    route.push(parsed[idx].clone());
                    assert(string_views(route@) =~= before.push(names[idx as int]));
                    assert(order@.take(j + 1) =~= order@.take(j as int).push(order@[j as int]));
                    assert(named_order(names, order@.take(j + 1)) =~= named_order(names, order@.take(j as int)).push(names[idx as int]));
                    j = j + 1;
                }
                assert(order@.take(order@.len() as int) =~= order@);
                out.push(route);
                proof {
                    assert(all.skip(k).drop_first() =~= all.skip(k + 1));
                    k = k + 1;
                }
            },
        }
    }
    assert(orders_of(all, names, out@));
    out
}

/// Every order in which the names of the text of a whole route can be
/// visited: the text split at `WHOLE_ROUTE_SPLIT_CHAR`, then `all_routes`.
pub fn whole_routes(route: &str) -> (r: Vec<Vec<String>>)
    ensures
        exists|orders: Seq<Seq<usize>>| #[trigger] orders_of(orders, split_spec(route@, WHOLE_ROUTE_SPLIT_CHAR), r@),
{
    let parts = split_whole_route(route);
    all_routes(&parts)
}

} // verus!
