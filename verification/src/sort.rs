//! Sorting strings in Rust's string order.
use vstd::prelude::*;
use vstd::relations::{sorted_by, total_ordering};
use crate::text::{str_lt, str_le, str_less, lemma_str_lt_order};

verus! {

/// The views of a vector of strings.
pub open spec fn views(v: Seq<String>) -> Seq<Seq<char>> {
    v.map_values(|s: String| s@)
}

/// The order `<=` on strings, as a spec closure.
pub open spec fn str_leq() -> spec_fn(Seq<char>, Seq<char>) -> bool {
    |a: Seq<char>, b: Seq<char>| str_le(a, b)
}

/// `<=` on strings is a total order.
pub proof fn lemma_str_leq_total()
    ensures
        total_ordering(str_leq()),
{
    assert forall|x: Seq<char>, y: Seq<char>, z: Seq<char>| #[trigger] str_leq()(x, y) && #[trigger] str_leq()(y, z) implies str_leq()(x, z) by {
        lemma_str_lt_order(x, y, z);
    }
    assert forall|x: Seq<char>, y: Seq<char>| #[trigger] str_leq()(x, y) && #[trigger] str_leq()(y, x) implies x == y by {
        lemma_str_lt_order(x, y, x);
    }
    assert forall|x: Seq<char>, y: Seq<char>| #[trigger] str_leq()(x, y) || #[trigger] str_leq()(y, x) by {
        lemma_str_lt_order(x, y, x);
    }
}

/// Strictly increasing: sorted and without repeats.
pub open spec fn strictly_sorted(s: Seq<Seq<char>>) -> bool {
    forall|i: int, j: int| 0 <= i < j < s.len() ==> str_lt(#[trigger] s[i], #[trigger] s[j])
}

/// The position after every string of `r` that is `<= k`, in a sorted `r`.
fn upper_position(r: &Vec<String>, k: &str) -> (p: usize)
    ensures
        p <= r@.len(),
        forall|j: int| 0 <= j < p ==> str_le(#[trigger] views(r@)[j], k@),
        p < r@.len() ==> str_lt(k@, views(r@)[p as int]),
{
    let mut p: usize = 0;
    while p < r.len()
        invariant
            p <= r@.len(),
            forall|j: int| 0 <= j < p ==> str_le(#[trigger] views(r@)[j], k@),
        decreases r@.len() - p,
    {
        if str_less(k, r[p].as_str()) {
            return p;
        }
        proof {
            lemma_str_lt_order(views(r@)[p as int], k@, views(r@)[p as int]);
        }
        p = p + 1;
    }
    p
}

/// The strings of `v` in increasing order, repeats kept.
pub fn sort_strings(v: &Vec<String>) -> (r: Vec<String>)
    ensures
        views(r@) == views(v@).sort_by(str_leq()),
{
    let mut r: Vec<String> = Vec::new();
    let mut i: usize = 0;
    assert(views(r@) =~= views(v@).take(0));
    while i < v.len()
        invariant
            i <= v@.len(),
            sorted_by(views(r@), str_leq()),
            views(r@).to_multiset() == views(v@).take(i as int).to_multiset(),
        decreases v@.len() - i,
    {
        let ghost before = views(r@);
        let p = upper_position(&r, v[i].as_str());
        let ghost k = v@[i as int]@;
        r.insert(p, v[i].clone());
        proof {
            assert(views(r@) =~= before.insert(p as int, k));
            vstd::seq_lib::to_multiset_insert(before, p as int, k);
            assert(views(v@).take(i + 1) =~= views(v@).take(i as int).push(k));
            vstd::seq_lib::to_multiset_build(views(v@).take(i as int), k);
            let n = views(r@);
            assert forall|a: int, b: int| 0 <= a < b < n.len() implies #[trigger] str_leq()(n[a], n[b]) by {
                if b < p {
                    assert(n[a] == before[a] && n[b] == before[b]);
                    assert(str_leq()(before[a], before[b]));
                } else if b == p {
                    assert(n[a] == before[a]);
                    assert(str_le(before[a], k));
                } else if a < p {
                    assert(n[a] == before[a] && n[b] == before[b - 1]);
                    assert(str_le(before[a], k));
                    assert(str_lt(k, before[p as int]));
                    if b - 1 > p {
                        assert(str_leq()(before[p as int], before[b - 1]));
                    }
                    lemma_str_lt_order(before[a], k, before[p as int]);
                    lemma_str_lt_order(before[a], before[p as int], before[b - 1]);
                    lemma_str_lt_order(k, before[p as int], before[b - 1]);
                } else if a == p {
                    assert(n[b] == before[b - 1]);
                    if b - 1 > p {
                        assert(str_leq()(before[p as int], before[b - 1]));
                    }
                    lemma_str_lt_order(k, before[p as int], before[b - 1]);
                } else {
                    assert(n[a] == before[a - 1] && n[b] == before[b - 1]);
                    assert(str_leq()(before[a - 1], before[b - 1]));
                }
            }
        }
        i = i + 1;
    }
    proof {
        assert(views(v@).take(v@.len() as int) =~= views(v@));
        lemma_str_leq_total();
        views(v@).lemma_sort_by_ensures(str_leq());
        vstd::seq_lib::lemma_sorted_unique(views(r@), views(v@).sort_by(str_leq()), str_leq());
    }
    r
}

/// The position of the first string of `r` that is `>= k`, in a strictly sorted `r`.
fn lower_position(r: &Vec<String>, k: &str) -> (p: usize)
    ensures
        p <= r@.len(),
        forall|j: int| 0 <= j < p ==> str_lt(#[trigger] views(r@)[j], k@),
        p < r@.len() ==> !str_lt(views(r@)[p as int], k@),
{
    let mut p: usize = 0;
    while p < r.len()
        invariant
            p <= r@.len(),
            forall|j: int| 0 <= j < p ==> str_lt(#[trigger] views(r@)[j], k@),
        decreases r@.len() - p,
    {
        if !str_less(r[p].as_str(), k) {
            return p;
        }
        p = p + 1;
    }
    p
}

/// Adds `k` to a strictly sorted vector unless it is already there.
pub fn insert_unique(r: &mut Vec<String>, k: &String)
    requires
        strictly_sorted(views(old(r)@)),
    ensures
        strictly_sorted(views(final(r)@)),
        forall|x: Seq<char>| #[trigger] views(final(r)@).contains(x) <==> views(old(r)@).contains(x) || x == k@,
{
    let ghost before = views(r@);
    let p = lower_position(r, k.as_str());
    if p < r.len() && crate::item::str_eq(r[p].as_str(), k.as_str()) {
        assert(before[p as int] == k@);
        return;
    }
    proof {
        if p < before.len() {
            lemma_str_lt_order(before[p as int], k@, k@);
        }
    }
    r.insert(p, k.clone());
    proof {
        let n = views(r@);
        assert(n =~= before.insert(p as int, k@));
        assert forall|a: int, b: int| 0 <= a < b < n.len() implies str_lt(#[trigger] n[a], #[trigger] n[b]) by {
            if b < p {
                assert(n[a] == before[a] && n[b] == before[b]);
            } else if b == p {
                assert(n[a] == before[a]);
            } else if a < p {
                assert(n[a] == before[a] && n[b] == before[b - 1]);
                lemma_str_lt_order(before[a], k@, before[b - 1]);
                if b - 1 > p {
                    lemma_str_lt_order(k@, before[p as int], before[b - 1]);
                }
            } else if a == p {
                assert(n[b] == before[b - 1]);
                if b - 1 > p {
                    lemma_str_lt_order(k@, before[p as int], before[b - 1]);
                }
            } else {
                assert(n[a] == before[a - 1] && n[b] == before[b - 1]);
            }
        }
        {
            assert forall|x: Seq<char>| #[trigger] n.contains(x) implies before.contains(x) || x == k@ by {
                let j = choose|j: int| 0 <= j < n.len() && n[j] == x;
                if j < p {
                    assert(n[j] == before[j]);
                } else if j > p {
                    assert(n[j] == before[j - 1]);
                }
            }
            assert forall|x: Seq<char>| before.contains(x) || x == k@ implies #[trigger] n.contains(x) by {
                if x == k@ {
                    assert(n[p as int] == x);
                } else {
                    let j = choose|j: int| 0 <= j < before.len() && before[j] == x;
                    if j < p {
                        assert(n[j] == before[j]);
                    } else {
                        assert(n[j + 1] == before[j]);
                    }
                }
            }
        }
    }
}

} // verus!
