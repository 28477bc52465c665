use vstd::prelude::*;

use crate::config;
use crate::system::System;
use crate::text::{chars_of, split_on, split_spec, string_from_chars, spec_to_uppercase};

verus! {

/// Which kind of route the route search prefers.
#[derive(Clone, Copy, Debug, PartialEq, Eq, Structural)]
pub enum RouteOption {
    Fastest,
    Highsec,
    LowNull,
}

/// The route-search URL fragment of an option.
pub open spec fn option_fragment(o: RouteOption) -> Seq<char> {
    match o {
        RouteOption::Fastest => Seq::empty(),
        RouteOption::Highsec => seq!['2', ':'],
        RouteOption::LowNull => seq!['3', ':'],
    }
}

impl RouteOption {
    /// The route-search URL fragment: nothing, `2:` or `3:`.
    pub fn as_url(&self) -> (r: &'static str)
        ensures
            r@ == option_fragment(*self),
    {
        match self {
            RouteOption::Fastest => {
                proof { reveal_strlit(""); }
                ""
            },
            RouteOption::Highsec => {
                proof { reveal_strlit("2:"); }
                "2:"
            },
            RouteOption::LowNull => {
                proof { reveal_strlit("3:"); }
                "3:"
            },
        }
    }
}

/// The names of `names` without repeats, each at its first occurrence.
pub open spec fn first_occurrences(names: Seq<Seq<char>>) -> Seq<Seq<char>>
    decreases names.len(),
{
    if names.len() == 0 {
        Seq::empty()
    } else {
        let r = first_occurrences(names.drop_last());
        if r.contains(names.last()) { r } else { r.push(names.last()) }
    }
}

/// Law: `first_occurrences` keeps each name of `names` exactly once.
pub proof fn lemma_first_occurrences(names: Seq<Seq<char>>)
    ensures
        first_occurrences(names).no_duplicates(),
        forall|x: Seq<char>| first_occurrences(names).contains(x) <==> names.contains(x),
    decreases names.len(),
{
    if names.len() > 0 {
        let prev = names.drop_last();
        lemma_first_occurrences(prev);
        let r = first_occurrences(prev);
        let x = names.last();
        assert forall|y: Seq<char>| first_occurrences(names).contains(y) <==> names.contains(y) by {
            if names.contains(y) {
                let i = choose|i: int| 0 <= i < names.len() && names[i] == y;
                if i < prev.len() {
                    assert(prev[i] == y);
                    assert(prev.contains(y));
                }
            }
            if prev.contains(y) {
                let i = choose|i: int| 0 <= i < prev.len() && prev[i] == y;
                assert(names[i] == y);
            }
            if !r.contains(x) {
                if r.push(x).contains(y) {
                    let i = choose|i: int| 0 <= i < r.push(x).len() && r.push(x)[i] == y;
                    if i < r.len() {
                        assert(r[i] == y);
                    }
                }
                if r.contains(y) {
                    let i = choose|i: int| 0 <= i < r.len() && r[i] == y;
                    assert(r.push(x)[i] == y);
                }
                assert(r.push(x)[r.len() as int] == x);
            }
        }
        if !r.contains(x) {
            assert forall|a: int, b: int| 0 <= a < r.push(x).len() && 0 <= b < r.push(x).len() && a != b
                implies r.push(x)[a] != r.push(x)[b] by {
                if a == r.len() {
                    assert(r.contains(r[b]));
                } else if b == r.len() {
                    assert(r.contains(r[a]));
                }
            }
        }
    }
}

/// The upper-case names of the systems of a route text.
pub open spec fn route_names(text: Seq<char>) -> Seq<Seq<char>> {
    split_spec(text, config::ROUTE_SPLIT_CHAR).map_values(|p: Seq<char>| spec_to_uppercase(p))
}

/// A set of systems, each name once.
#[derive(Debug)]
pub struct UnorderedRoute {
    inner: Vec<System>,
}

impl UnorderedRoute {
    /// The names of the systems, in the order they were first given.
    pub closed spec fn names(&self) -> Seq<Seq<char>> {
        self.inner@.map_values(|s: System| s.name_view())
    }

    /// The systems of the route.
    pub closed spec fn systems_view(&self) -> Seq<System> {
        self.inner@
    }

    /// The systems of a text of names separated by `ROUTE_SPLIT_CHAR`, each
    /// name (in upper case) once.
    pub fn new(s: &str) -> (r: UnorderedRoute)
        ensures
            r.names() == first_occurrences(route_names(s@)),
            forall|i: int| 0 <= i < r.systems_view().len() ==> #[trigger] r.systems_view()[i].table().len() == 0,
    {
        let chars = chars_of(s);
        let pieces = split_on(&chars, config::ROUTE_SPLIT_CHAR);
        let ghost all = route_names(s@);
        let mut inner: Vec<System> = Vec::new();
        let mut i: usize = 0;
        while i < pieces.len()
            invariant
                i <= pieces@.len(),
                all == pieces@.map_values(|p: Vec<char>| p@).map_values(|p: Seq<char>| spec_to_uppercase(p)),
                inner@.map_values(|s: System| s.name_view()) == first_occurrences(all.take(i as int)),
                forall|k: int| 0 <= k < inner@.len() ==> #[trigger] inner@[k].table().len() == 0,
            decreases pieces@.len() - i,
        {
            let name = string_from_chars(&pieces[i]);
            let system = System::new(name.as_str());
            let ghost names = inner@.map_values(|s: System| s.name_view());
            assert(all.take(i + 1).drop_last() =~= all.take(i as int));
            assert(all.take(i + 1).last() == system.name_view());
            let mut found = false;
            let mut j: usize = 0;
            while j < inner.len()
                invariant
                    j <= inner@.len(),
                    names == inner@.map_values(|s: System| s.name_view()),
                    found <==> exists|k: int| 0 <= k < j && names[k] == system.name_view(),
                decreases inner@.len() - j,
            {
                assert(names[j as int] == inner@[j as int].name_view());
                if *inner[j].name() == *system.name() {
                    found = true;
                }
                j = j + 1;
            }
            assert(found <==> names.contains(system.name_view()));
            if !found {
                inner.push(system);
                assert(inner@.map_values(|s: System| s.name_view()) =~= names.push(system.name_view()));
            }
            i = i + 1;
        }
        assert(all.take(pieces@.len() as int) =~= all);
        UnorderedRoute { inner }
    }

    /// The systems of the route.
    pub fn systems(&self) -> (r: &Vec<System>)
        ensures
            r@ == self.systems_view(),
    {
        &self.inner
    }
}

/// `:-NAME` for each name, one after another.
pub open spec fn avoid_fragment(names: Seq<Seq<char>>) -> Seq<char>
    decreases names.len(),
{
    if names.len() == 0 {
        Seq::empty()
    } else {
        avoid_fragment(names.drop_last()) + seq![':', '-'] + names.last()
    }
}

/// The route-search URL fragment that makes the search avoid the given
/// systems: `:-NAME` for each of them; nothing without them.
pub fn avoid_system_as_url_string(avoid: &Option<UnorderedRoute>) -> (r: String)
    ensures
        r@ == match avoid {
            Some(u) => avoid_fragment(u.names()),
            None => Seq::empty(),
        },
{
    let mut s = String::new();
    if let Some(inner) = avoid {
        let systems = inner.systems();
        let ghost names = inner.names();
        let mut i: usize = 0;
        while i < systems.len()
            invariant
                i <= systems@.len(),
                names == systems@.map_values(|s: System| s.name_view()),
                s@ == avoid_fragment(names.take(i as int)),
            decreases systems@.len() - i,
        {
            proof { reveal_strlit(":-"); }
            s.append(":-");
            s.append(systems[i].name().as_str());
            assert(names.take(i + 1).drop_last() =~= names.take(i as int));
            i = i + 1;
        }
        assert(names.take(systems@.len() as int) =~= names);
    }
    s
}

} // verus!
