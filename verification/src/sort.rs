//! Sorting paths.

use vstd::prelude::*;
use vstd::relations::{sorted_by, total_ordering};
use vstd::seq_lib::{lemma_multiset_commutative, lemma_sorted_unique};

use crate::path::{
    comes_before, in_path_order, path_le, path_le_is_antisymmetric, path_le_is_total,
    path_le_is_transitive, texts,
};

verus! {

/// The same paths as in a list, in the order of paths.
pub open spec fn sorted_from(list: Seq<Seq<char>>, sorted: Seq<Seq<char>>) -> bool {
    in_path_order(sorted) && sorted.to_multiset() == list.to_multiset()
}

/// The paths of a list in the order of paths.
pub open spec fn path_sort(list: Seq<Seq<char>>) -> Seq<Seq<char>> {
    list.sort_by(|a: Seq<char>, b: Seq<char>| path_le(a, b))
}

proof fn lemma_total_ordering()
    ensures
        total_ordering(|a: Seq<char>, b: Seq<char>| path_le(a, b)),
{
    let leq = |a: Seq<char>, b: Seq<char>| path_le(a, b);
    assert forall|x: Seq<char>| #[trigger] leq(x, x) by {
        path_le_is_total(x, x);
    }
    assert forall|x: Seq<char>, y: Seq<char>| #[trigger] leq(x, y) && #[trigger] leq(
        y,
        x,
    ) implies x == y by {
        path_le_is_antisymmetric(x, y);
    }
    assert forall|x: Seq<char>, y: Seq<char>, z: Seq<char>| #[trigger]
        leq(x, y) && #[trigger] leq(y, z) implies leq(x, z) by {
        path_le_is_transitive(x, y, z);
    }
    assert forall|x: Seq<char>, y: Seq<char>| #[trigger] leq(x, y) || #[trigger] leq(y, x) by {
        path_le_is_total(x, y);
    }
}

/// The sorted list is in the order of paths and holds the same paths, and no
/// other list does.
pub proof fn path_sort_is_the_sorted_list(list: Seq<Seq<char>>)
    ensures
        sorted_from(list, path_sort(list)),
        forall|s: Seq<Seq<char>>| #[trigger] sorted_from(list, s) ==> s == path_sort(list),
{
    let leq = |a: Seq<char>, b: Seq<char>| path_le(a, b);
    lemma_total_ordering();
    list.lemma_sort_by_ensures(leq);
    let p = path_sort(list);
    assert forall|i: int, j: int| 0 <= i <= j < p.len() implies path_le(
        #[trigger] p[i],
        #[trigger] p[j],
    ) by {
        if i == j {
            path_le_is_total(p[i], p[i]);
        } else {
            assert(leq(p[i], p[j]));
        }
    }
    assert forall|s: Seq<Seq<char>>| #[trigger] sorted_from(list, s) implies s == p by {
        assert(sorted_by(s, leq));
        lemma_sorted_unique(s, p, leq);
    }
}

proof fn lemma_take_from_second(
    r: Seq<Seq<char>>,
    a: Seq<Seq<char>>,
    b: Seq<Seq<char>>,
)
    requires
        b.len() > 0,
    ensures
        (r + a + b).to_multiset() == (r.push(b[0]) + a + b.drop_first()).to_multiset(),
{
    let one = seq![b[0]];
    assert(b =~= one + b.drop_first());
    assert(r.push(b[0]) =~= r + one);
    lemma_multiset_commutative(r + a, b);
    lemma_multiset_commutative(r, a);
    lemma_multiset_commutative(one, b.drop_first());
    lemma_multiset_commutative(r + one + a, b.drop_first());
    lemma_multiset_commutative(r + one, a);
    lemma_multiset_commutative(r, one);
    assert((r + a + b).to_multiset() =~= (r + one + a + b.drop_first()).to_multiset());
}

fn merge(a: &Vec<String>, b: &Vec<String>) -> (r: Vec<String>)
    requires
        in_path_order(texts(a@)),
        in_path_order(texts(b@)),
    ensures
        sorted_from(texts(a@) + texts(b@), texts(r@)),
{
    let ghost x = texts(a@);
    let ghost y = texts(b@);
    let mut r: Vec<String> = Vec::new();
    let mut i: usize = 0;
    let mut j: usize = 0;
    assert(texts(r@) + x.skip(0) + y.skip(0) =~= x + y);
    while i < a.len() || j < b.len()
        invariant
            x == texts(a@),
            y == texts(b@),
            in_path_order(x),
            in_path_order(y),
            i <= a@.len(),
            j <= b@.len(),
            in_path_order(texts(r@)),
            forall|k: int, m: int|
                0 <= k < r@.len() && i <= m < x.len() ==> path_le(
                    #[trigger] texts(r@)[k],
                    #[trigger] x[m],
                ),
            forall|k: int, m: int|
                0 <= k < r@.len() && j <= m < y.len() ==> path_le(
                    #[trigger] texts(r@)[k],
                    #[trigger] y[m],
                ),
            (texts(r@) + x.skip(i as int) + y.skip(j as int)).to_multiset() == (x
                + y).to_multiset(),
        decreases a.len() - i + (b.len() - j),
    {
        let first = if i == a.len() {
            false
        } else if j == b.len() {
            true
        } else {
            comes_before(a[i].as_str(), b[j].as_str())
        };
        let ghost done = texts(r@);
        if first {
            proof {
                assert forall|m: int| j <= m < y.len() implies path_le(x[i as int], #[trigger] y[m]) by {
                    path_le_is_transitive(x[i as int], y[j as int], y[m]);
                }
                assert(done.push(x[i as int]) + x.skip(i + 1) =~= done + x.skip(i as int));
            }
            r.push(a[i].clone());
            assert(texts(r@) =~= done.push(x[i as int]));
            i = i + 1;
        } else {
            proof {
                if i < x.len() {
                    path_le_is_total(x[i as int], y[j as int]);
                }
                assert forall|m: int| i <= m < x.len() implies path_le(y[j as int], #[trigger] x[m]) by {
                    path_le_is_transitive(y[j as int], x[i as int], x[m]);
                }
                lemma_take_from_second(done, x.skip(i as int), y.skip(j as int));
                assert(y.skip(j as int).drop_first() =~= y.skip(j + 1));
            }
            r.push(b[j].clone());
            assert(texts(r@) =~= done.push(y[j as int]));
            j = j + 1;
        }
    }
    assert(texts(r@) + x.skip(i as int) + y.skip(j as int) =~= texts(r@));
    r
}

fn sort_part(list: &Vec<String>, from: usize, to: usize) -> (r: Vec<String>)
    requires
        from <= to <= list@.len(),
    ensures
        sorted_from(texts(list@).subrange(from as int, to as int), texts(r@)),
    decreases to - from,
{
    if to - from <= 1 {
        let mut r: Vec<String> = Vec::new();
        if to - from == 1 {
            r.push(list[from].clone());
            proof {
                path_le_is_total(list@[from as int]@, list@[from as int]@);
            }
        }
        assert(texts(r@) =~= texts(list@).subrange(from as int, to as int));
        r
    } else {
        let mid: usize = from + (to - from) / 2;
        let a = sort_part(list, from, mid);
        let b = sort_part(list, mid, to);
        let r = merge(&a, &b);
        proof {
            let x = texts(list@).subrange(from as int, mid as int);
            let y = texts(list@).subrange(mid as int, to as int);
            assert(texts(list@).subrange(from as int, to as int) =~= x + y);
            lemma_multiset_commutative(x, y);
            lemma_multiset_commutative(texts(a@), texts(b@));
        }
        r
    }
}

/// Sort paths component by component.
pub fn sort_paths(list: &Vec<String>) -> (r: Vec<String>)
    ensures
        texts(r@) == path_sort(texts(list@)),
{
    let r = sort_part(list, 0, list.len());
    proof {
        assert(texts(list@).subrange(0, list@.len() as int) =~= texts(list@));
        path_sort_is_the_sorted_list(texts(list@));
    }
    r
}

/// Sorting keeps every path as often as it was there, and puts no path behind one that
/// comes after it.
pub proof fn sorting_orders_what_was_there(list: &Vec<String>, r: Vec<String>)
    requires
        call_ensures(sort_paths, (list,), r),
    ensures
        texts(r@).to_multiset() == texts(list@).to_multiset(),
        r@.len() == list@.len(),
        forall|i: int, j: int|
            0 <= i <= j < r@.len() ==> path_le(#[trigger] r@[i]@, #[trigger] r@[j]@),
{
    let a = texts(list@);
    let b = texts(r@);
    path_sort_is_the_sorted_list(a);
    a.to_multiset_ensures();
    b.to_multiset_ensures();
    assert forall|i: int, j: int| 0 <= i <= j < r@.len() implies path_le(
        #[trigger] r@[i]@,
        #[trigger] r@[j]@,
    ) by {
        assert(b[i] == r@[i]@ && b[j] == r@[j]@);
    }
}

} // verus!
