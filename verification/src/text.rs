//! Putting messages together.
use vstd::prelude::*;

verus! {

/// `parts` in order, with `separator` between each two.
pub open spec fn joined(parts: Seq<Seq<char>>, separator: Seq<char>) -> Seq<char>
    decreases parts.len(),
{
    if parts.len() == 0 {
        Seq::empty()
    } else {
        let rest = joined(parts.drop_last(), separator);
        if parts.len() == 1 {
            parts.last()
        } else {
            rest + separator + parts.last()
        }
    }
}

/// The texts that `parts` hold.
pub open spec fn texts(parts: Seq<String>) -> Seq<Seq<char>> {
    Seq::new(parts.len(), |i: int| parts[i]@)
}

/// `parts` in order, with `separator` between each two.
pub fn join(parts: &Vec<String>, separator: &str) -> (text: String)
    ensures
        text@ == joined(texts(parts@), separator@),
{
    let mut text = String::new();
    let mut i: usize = 0;
    while i < parts.len()
        invariant
            i <= parts@.len(),
            text@ == joined(texts(parts@).take(i as int), separator@),
        decreases parts@.len() - i,
    {
        proof {
            assert(texts(parts@).take(i + 1).drop_last() =~= texts(parts@).take(i as int));
        }
        if i > 0 {
            text.append(separator);
        }
        text.append(parts[i].as_str());
        i += 1;
        assert(text@ =~= joined(texts(parts@).take(i as int), separator@));
    }
    assert(texts(parts@).take(i as int) =~= texts(parts@));
    text
}

/// Parts that are not empty make a text that is not empty.
pub proof fn lemma_joined_empty(parts: Seq<Seq<char>>, separator: Seq<char>)
    requires
        forall|i: int| 0 <= i < parts.len() ==> (#[trigger] parts[i]).len() > 0,
    ensures
        joined(parts, separator).len() == 0 <==> parts.len() == 0,
{
    if parts.len() > 0 {
        assert(parts[parts.len() - 1].len() > 0);
    }
}

} // verus!
