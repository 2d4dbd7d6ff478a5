use vstd::prelude::*;

verus! {

/// `s` with every element of `gone` taken out, the rest in their order.
pub open spec fn without(s: Seq<usize>, gone: Set<usize>) -> Seq<usize>
    decreases s.len(),
{
    if s.len() == 0 {
        s
    } else if gone.contains(s.last()) {
        without(s.drop_last(), gone)
    } else {
        without(s.drop_last(), gone).push(s.last())
    }
}

/// Taking out two sets one after the other takes out their union.
pub proof fn lemma_without_twice(s: Seq<usize>, a: Set<usize>, b: Set<usize>)
    ensures
        without(without(s, a), b) == without(s, a.union(b)),
    decreases s.len(),
{
    if s.len() > 0 {
        lemma_without_twice(s.drop_last(), a, b);
        let w = without(s.drop_last(), a);
        if !a.contains(s.last()) {
            assert(w.push(s.last()).drop_last() =~= w);
        }
    }
}

/// What is taken out is gone, and what stays was there and is not taken out.
pub proof fn lemma_without_contains(s: Seq<usize>, gone: Set<usize>, x: usize)
    ensures
        without(s, gone).contains(x) <==> (s.contains(x) && !gone.contains(x)),
    decreases s.len(),
{
    if s.len() > 0 {
        lemma_without_contains(s.drop_last(), gone, x);
        let w = without(s.drop_last(), gone);
        if s.drop_last().contains(x) {
            let j = choose|j: int| 0 <= j < s.drop_last().len() && s.drop_last()[j] == x;
            assert(s[j] == x);
        }
        if s.contains(x) && s.last() != x {
            let j = choose|j: int| 0 <= j < s.len() && s[j] == x;
            assert(s.drop_last()[j] == x);
        }
        if !gone.contains(s.last()) {
            if w.contains(x) && x != s.last() {
                let j = choose|j: int| 0 <= j < w.len() && w[j] == x;
                assert(w.push(s.last())[j] == x);
            }
            if w.push(s.last()).contains(x) && x != s.last() {
                let j = choose|j: int| 0 <= j < w.len() + 1 && w.push(s.last())[j] == x;
                assert(w[j] == x);
            }
            assert(w.push(s.last())[w.len() as int] == s.last());
        }
        assert(s[s.len() - 1] == s.last());
    }
}

/// Whether `x` occurs in `v`.
pub fn vec_contains(v: &Vec<usize>, x: usize) -> (found: bool)
    ensures
        found == v@.contains(x),
{
    let mut i: usize = 0;
    while i < v.len()
        invariant
            i <= v.len(),
            forall|j: int| 0 <= j < i ==> v@[j] != x,
        decreases v.len() - i,
    {
        if v[i] == x {
            return true;
        }
        i = i + 1;
    }
    false
}

/// Takes every occurrence of `x` out of `v`.
pub fn remove_value(v: &mut Vec<usize>, x: usize)
    ensures
        final(v)@ == without(old(v)@, set![x]),
{
    let mut kept: Vec<usize> = Vec::new();
    let mut i: usize = 0;
    while i < v.len()
        invariant
            i <= v.len(),
            kept@ == without(v@.take(i as int), set![x]),
        decreases v.len() - i,
    {
        assert(v@.take(i + 1).drop_last() =~= v@.take(i as int));
        if v[i] != x {
            kept.push(v[i]);
        }
        i = i + 1;
    }
    assert(v@.take(v.len() as int) =~= v@);
    *v = kept;
}

} // verus!
