//! Writing a mnemonic out as one line of text.

use vstd::prelude::*;

verus! {

/// `parts` one after another, with `delim` between each two.
pub open spec fn joined(parts: Seq<Seq<char>>, delim: Seq<char>) -> Seq<char>
    decreases parts.len(),
{
    if parts.len() == 0 {
        Seq::empty()
    } else if parts.len() == 1 {
        parts[0]
    } else {
        joined(parts.drop_last(), delim) + delim + parts.last()
    }
}

/// The views of the strings of `strings`.
pub open spec fn views(strings: Seq<&str>) -> Seq<Seq<char>> {
    strings.map_values(|s: &str| s@)
}

/// The strings of `strings` with `delim` between each two.
pub fn join(strings: &[&str], delim: &str) -> (r: String)
    requires
        strings@.len() >= 1,
    ensures
        r@ == joined(views(strings@), delim@),
{
    let mut out = String::from_str(strings[0]);
    let mut i: usize = 1;
    assert(views(strings@).take(1) =~= seq![strings@[0]@]);
    while i < strings.len()
        invariant
            1 <= i <= strings@.len(),
            out@ == joined(views(strings@).take(i as int), delim@),
        decreases strings@.len() - i,
    {
        out.append(delim);
        out.append(strings[i]);
        proof {
            let next = views(strings@).take(i + 1);
            assert(next.drop_last() =~= views(strings@).take(i as int));
            assert(next.last() == strings@[i as int]@);
        }
        i = i + 1;
    }
    assert(views(strings@).take(i as int) =~= views(strings@));
    out
}

} // verus!
