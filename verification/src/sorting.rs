use vstd::prelude::*;

verus! {

/// Puts `x` into `s` right after the last element, scanning from the end,
/// whose key is not greater than the key of `x`.
pub open spec fn insert_by_key<T>(s: Seq<(u64, T)>, x: (u64, T)) -> Seq<(u64, T)>
    decreases s.len(),
{
    if s.len() == 0 {
        seq![x]
    } else if s.last().0 <= x.0 {
        s.push(x)
    } else {
        insert_by_key(s.drop_last(), x).push(s.last())
    }
}

/// `s` ordered by key; elements with equal keys keep their order.
pub open spec fn stable_sort<T>(s: Seq<(u64, T)>) -> Seq<(u64, T)>
    decreases s.len(),
{
    if s.len() == 0 {
        s
    } else {
        insert_by_key(stable_sort(s.drop_last()), s.last())
    }
}

/// Whether the keys of `s` never decrease.
pub open spec fn keys_ascending<T>(s: Seq<(u64, T)>) -> bool {
    forall|i: int, j: int| 0 <= i <= j < s.len() ==> (#[trigger] s[i]).0 <= (#[trigger] s[j]).0
}

/// The elements of `s` whose key is `k`, in their order.
pub open spec fn with_key<T>(s: Seq<(u64, T)>, k: u64) -> Seq<(u64, T)>
    decreases s.len(),
{
    if s.len() == 0 {
        s
    } else if s.last().0 == k {
        with_key(s.drop_last(), k).push(s.last())
    } else {
        with_key(s.drop_last(), k)
    }
}

proof fn lemma_insert_at<T>(s: Seq<(u64, T)>, x: (u64, T), j: int)
    requires
        0 <= j <= s.len(),
        forall|k: int| j <= k < s.len() ==> (#[trigger] s[k]).0 > x.0,
        j > 0 ==> s[j - 1].0 <= x.0,
    ensures
        insert_by_key(s, x) == s.insert(j, x),
    decreases s.len(),
{
    if s.len() == 0 {
        assert(s.insert(j, x) =~= seq![x]);
    } else if j == s.len() {
        assert(s.insert(j, x) =~= s.push(x));
    } else {
        let d = s.drop_last();
        assert(s[s.len() - 1].0 > x.0);
        assert forall|k: int| j <= k < d.len() implies (#[trigger] d[k]).0 > x.0 by {
            assert(d[k] == s[k]);
        }
        if j > 0 {
            assert(d[j - 1] == s[j - 1]);
        }
        lemma_insert_at(d, x, j);
        assert(d.insert(j, x).push(s.last()) =~= s.insert(j, x));
    }
}

/// Inserting into an ascending sequence keeps it ascending, adds exactly
/// the new element, and puts it after every element with the same key.
proof fn lemma_insert_props<T>(s: Seq<(u64, T)>, x: (u64, T))
    requires
        keys_ascending(s),
    ensures
        keys_ascending(insert_by_key(s, x)),
        insert_by_key(s, x).to_multiset() == s.to_multiset().insert(x),
        forall|k: u64|
            #[trigger] with_key(insert_by_key(s, x), k) == if k == x.0 {
                with_key(s, k).push(x)
            } else {
                with_key(s, k)
            },
    decreases s.len(),
{
    broadcast use vstd::seq_lib::group_to_multiset_ensures;

    let r = insert_by_key(s, x);
    if s.len() == 0 {
        assert(r.to_multiset() =~= s.to_multiset().insert(x)) by {
            assert(r =~= s.push(x));
        }
        assert forall|k: u64| #[trigger] with_key(r, k) == if k == x.0 {
            with_key(s, k).push(x)
        } else {
            with_key(s, k)
        } by {
            assert(r.drop_last() =~= s);
        }
    } else if s.last().0 <= x.0 {
        assert forall|i: int, j: int| 0 <= i <= j < r.len() implies (#[trigger] r[i]).0 <= (
        #[trigger] r[j]).0 by {
            if j == s.len() {
                if i < j {
                    assert(s[i].0 <= s[s.len() - 1].0);
                }
            }
        }
        assert forall|k: u64| #[trigger] with_key(r, k) == if k == x.0 {
            with_key(s, k).push(x)
        } else {
            with_key(s, k)
        } by {
            assert(r.drop_last() =~= s);
        }
    } else {
        let d = s.drop_last();
        assert forall|i: int, j: int| 0 <= i <= j < d.len() implies (#[trigger] d[i]).0 <= (
        #[trigger] d[j]).0 by {
            assert(d[i] == s[i] && d[j] == s[j]);
        }
        lemma_insert_props(d, x);
        let rd = insert_by_key(d, x);
        assert(r == rd.push(s.last()));
        // every element of rd has a key no greater than the last element of s
        assert forall|i: int| 0 <= i < rd.len() implies (#[trigger] rd[i]).0 <= s.last().0 by {
            assert(rd.to_multiset().count(rd[i]) > 0);
            assert(rd.to_multiset() == d.to_multiset().insert(x));
            if rd[i] != x {
                assert(d.to_multiset().count(rd[i]) > 0);
                let m = choose|m: int| 0 <= m < d.len() && d[m] == rd[i];
                assert(s[m] == d[m]);
                assert(s[m].0 <= s[s.len() - 1].0);
            }
        }
        assert forall|i: int, j: int| 0 <= i <= j < r.len() implies (#[trigger] r[i]).0 <= (
        #[trigger] r[j]).0 by {
            if j == rd.len() {
                if i < j {
                    assert(r[i] == rd[i]);
                }
            } else {
                assert(r[i] == rd[i] && r[j] == rd[j]);
            }
        }
        assert(s =~= d.push(s.last()));
        assert(r.to_multiset() =~= s.to_multiset().insert(x));
        assert forall|k: u64| #[trigger] with_key(r, k) == if k == x.0 {
            with_key(s, k).push(x)
        } else {
            with_key(s, k)
        } by {
            assert(r.drop_last() =~= rd);
            assert(r.last() == s.last());
            assert(s.drop_last() =~= d);
            assert(with_key(rd, k) == if k == x.0 {
                with_key(d, k).push(x)
            } else {
                with_key(d, k)
            });
            if k == x.0 {
                // the last element of s has a greater key than x
                assert(s.last().0 != k);
            }
        }
    }
}

/// Sorting yields an ascending sequence with the same elements, and
/// elements with equal keys come out in the order they went in.
pub proof fn lemma_stable_sort<T>(s: Seq<(u64, T)>)
    ensures
        keys_ascending(stable_sort(s)),
        stable_sort(s).to_multiset() == s.to_multiset(),
        forall|k: u64| #[trigger] with_key(stable_sort(s), k) == with_key(s, k),
    decreases s.len(),
{
    broadcast use vstd::seq_lib::group_to_multiset_ensures;

    if s.len() > 0 {
        let d = s.drop_last();
        lemma_stable_sort(d);
        lemma_insert_props(stable_sort(d), s.last());
        assert(s =~= d.push(s.last()));
        assert forall|k: u64| #[trigger] with_key(stable_sort(s), k) == with_key(s, k) by {
            assert(with_key(stable_sort(d), k) == with_key(d, k));
        }
    } else {
        assert(stable_sort(s).to_multiset() =~= s.to_multiset());
    }
}

/// Orders `items` by key, keeping the order of items with equal keys.
pub fn sort_by_key<T: Copy>(items: &Vec<(u64, T)>) -> (sorted: Vec<(u64, T)>)
    ensures
        sorted@ == stable_sort(items@),
{
    let mut out: Vec<(u64, T)> = Vec::new();
    let mut i: usize = 0;
    while i < items.len()
        invariant
            i <= items.len(),
            out@ == stable_sort(items@.take(i as int)),
        decreases items.len() - i,
    {
        let x = items[i];
        let mut j: usize = out.len();
        while j > 0 && out[j - 1].0 > x.0
            invariant
                j <= out.len(),
                forall|k: int| j <= k < out.len() ==> (#[trigger] out@[k]).0 > x.0,
            decreases j,
        {
            j = j - 1;
        }
        proof {
            lemma_insert_at(out@, x, j as int);
            assert(items@.take(i + 1).drop_last() =~= items@.take(i as int));
            assert(items@.take(i + 1).last() == x);
        }
        out.insert(j, x);
        i = i + 1;
    }
    assert(items@.take(items.len() as int) =~= items@);
    out
}

} // verus!
