//! The text form of a list: its values, each already rendered, separated by
//! a comma and a space.
use vstd::prelude::*;

verus! {

/// `parts` joined with `", "` between each two of them.
pub open spec fn joined(parts: Seq<Seq<char>>) -> Seq<char>
    decreases parts.len(),
{
    if parts.len() == 0 {
        Seq::empty()
    } else if parts.len() == 1 {
        parts[0]
    } else {
        joined(parts.drop_last()) + seq![',', ' '] + parts.last()
    }
}

/// The text of each string.
pub open spec fn texts(parts: Seq<String>) -> Seq<Seq<char>> {
    parts.map_values(|p: String| p@)
}

/// Joins the rendered values `parts` into one line, `", "` between each two.
pub fn join_parts(parts: &Vec<String>) -> (r: String)
    ensures
        r@ == joined(texts(parts@)),
{
    let mut r = String::new();
    let mut k: usize = 0;
    while k < parts.len()
        invariant
            k <= parts.len(),
            r@ == joined(texts(parts@.take(k as int))),
        decreases parts.len() - k,
    {
        proof {
            reveal_strlit(", ");
        }
        let ghost before = r@;
        if k > 0 {
            r.append(", ");
        }
        r.append(parts[k].as_str());
        proof {
            let done = texts(parts@.take(k + 1));
            assert(done.drop_last() =~= texts(parts@.take(k as int)));
            assert(done.last() == parts@[k as int]@);
            if k == 0 {
                assert(before =~= Seq::<char>::empty());
                assert(r@ =~= done[0]);
            } else {
                assert(r@ =~= before + seq![',', ' '] + done.last());
            }
        }
        k = k + 1;
    }
    assert(parts@.take(parts@.len() as int) =~= parts@);
    r
}

} // verus!
