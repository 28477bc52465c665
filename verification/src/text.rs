use vstd::prelude::*;

verus! {

/// What `str::to_uppercase` makes of a string: the Unicode uppercase mapping
/// applied char by char (one char may map to several).
pub uninterp spec fn spec_to_uppercase(s: Seq<char>) -> Seq<char>;

/// Calls `str::to_uppercase`. The contract only names the result; it does not
/// describe the Unicode case mapping.
#[verifier::external_body]
pub(crate) fn to_uppercase(s: &str) -> (r: String)
    ensures
        r@ == spec_to_uppercase(s@),
{
    s.to_uppercase()
}

/// The chars of a string, in order.
pub fn chars_of(s: &str) -> (r: Vec<char>)
    ensures
        r@ == s@,
{
    let mut out: Vec<char> = Vec::new();
    for c in it: s.chars()
        invariant
            out@ == it.seq().take(it.index() as int),
            it.seq() == s@,
    {
        out.push(c);
    }
    out
}


/// Collects chars into a `String` (std's `FromIterator<char>`): the string
/// holds exactly those chars, in order.
#[verifier::external_body]
pub(crate) fn string_from_chars(v: &Vec<char>) -> (r: String)
    ensures
        r@ == v@,
{
    v.iter().collect()
}

/// The pieces of `s` between occurrences of `sep` (as `str::split` cuts
/// them): there is always at least one piece, possibly empty.
pub open spec fn split_spec(s: Seq<char>, sep: char) -> Seq<Seq<char>>
    decreases s.len(),
{
    if s.len() == 0 {
        seq![Seq::<char>::empty()]
    } else {
        let r = split_spec(s.drop_last(), sep);
        if s.last() == sep {
            r.push(Seq::<char>::empty())
        } else {
            r.update(r.len() - 1, r.last().push(s.last()))
        }
    }
}

/// The pieces joined back with `sep` between each two.
pub open spec fn join_with(pieces: Seq<Seq<char>>, sep: char) -> Seq<char>
    decreases pieces.len(),
{
    if pieces.len() <= 1 {
        if pieces.len() == 0 { Seq::empty() } else { pieces[0] }
    } else {
        join_with(pieces.drop_last(), sep).push(sep) + pieces.last()
    }
}

/// Law: splitting never loses a char: the pieces hold no separator, there is
/// at least one, and joining them with the separator gives the string back.
pub proof fn lemma_split_join(s: Seq<char>, sep: char)
    ensures
        split_spec(s, sep).len() >= 1,
        join_with(split_spec(s, sep), sep) == s,
        forall|i: int| 0 <= i < split_spec(s, sep).len() ==> !(#[trigger] split_spec(s, sep)[i]).contains(sep),
    decreases s.len(),
{
    if s.len() > 0 {
        let prev = s.drop_last();
        lemma_split_join(prev, sep);
        let r = split_spec(prev, sep);
        let c = s.last();
        if c == sep {
            let r2 = r.push(Seq::<char>::empty());
            assert(r2.drop_last() =~= r);
            assert(join_with(r2, sep) =~= join_with(r, sep).push(sep));
            assert(prev.push(c) =~= s);
            assert forall|i: int| 0 <= i < r2.len() implies !(#[trigger] r2[i]).contains(sep) by {
                if i < r.len() {
                    assert(r2[i] == r[i]);
                }
            }
        } else {
            let r2 = r.update(r.len() - 1, r.last().push(c));
            assert forall|i: int| 0 <= i < r2.len() implies !(#[trigger] r2[i]).contains(sep) by {
                if i < r.len() - 1 {
                    assert(r2[i] == r[i]);
                } else {
                    assert(!r.last().contains(sep));
                    assert(r2[i] == r.last().push(c));
                    if r2[i].contains(sep) {
                        let k = choose|k: int| 0 <= k < r2[i].len() && r2[i][k] == sep;
                        if k < r.last().len() {
                            assert(r.last()[k] == sep);
                        }
                    }
                }
            }
            if r.len() == 1 {
                assert(r2 =~= seq![r[0].push(c)]);
                assert(join_with(r, sep) == r[0]);
                assert(s =~= prev.push(c));
            } else {
                assert(r2.drop_last() =~= r.drop_last());
                assert(join_with(r2, sep) =~= join_with(r.drop_last(), sep).push(sep) + r.last().push(c));
                assert(join_with(r, sep) =~= join_with(r.drop_last(), sep).push(sep) + r.last());
                assert(s =~= prev.push(c));
            }
        }
    }
}

/// Cuts `s` at every `sep`, as `str::split` does.
pub fn split_on(s: &Vec<char>, sep: char) -> (r: Vec<Vec<char>>)
    ensures
        r@.map_values(|p: Vec<char>| p@) == split_spec(s@, sep),
{
    let mut pieces: Vec<Vec<char>> = Vec::new();
    let mut cur: Vec<char> = Vec::new();
    let mut i: usize = 0;
    while i < s.len()
        invariant
            i <= s@.len(),
            pieces@.map_values(|p: Vec<char>| p@).push(cur@) == split_spec(s@.take(i as int), sep),
        decreases s@.len() - i,
    {
        let c = s[i];
        let ghost before = pieces@.map_values(|p: Vec<char>| p@).push(cur@);
        assert(s@.take(i + 1).drop_last() =~= s@.take(i as int));
        if c == sep {
            let done = cur;
            pieces.push(done);
            cur = Vec::new();
            assert(pieces@.map_values(|p: Vec<char>| p@).push(cur@) =~= before.push(Seq::<char>::empty()));
        } else {
            cur.push(c);
            assert(pieces@.map_values(|p: Vec<char>| p@).push(cur@) =~= before.update(before.len() - 1, before.last().push(c)));
        }
        i = i + 1;
    }
    assert(s@.take(s@.len() as int) =~= s@);
    let ghost before = pieces@.map_values(|p: Vec<char>| p@).push(cur@);
    pieces.push(cur);
    assert(pieces@.map_values(|p: Vec<char>| p@) =~= before);
    pieces
}

} // verus!
