//! Stable sorting by rank, and the lexicographic order of strings.
use crate::text::chars_of;
use vstd::prelude::*;

verus! {

/// Whether `a` comes before `b` in lexicographic order, by code point.
pub open spec fn text_before(a: Seq<char>, b: Seq<char>) -> bool
    decreases a.len(),
{
    if b.len() == 0 {
        false
    } else if a.len() == 0 {
        true
    } else if a[0] != b[0] {
        (a[0] as int) < b[0] as int
    } else {
        text_before(a.skip(1), b.skip(1))
    }
}

/// Of two different texts exactly one comes before the other.
pub proof fn law_text_order_is_total(a: Seq<char>, b: Seq<char>)
    ensures
        a != b ==> text_before(a, b) != text_before(b, a),
        a == b ==> !text_before(a, b),
    decreases a.len(),
{
    if a.len() > 0 && b.len() > 0 && a[0] == b[0] {
        law_text_order_is_total(a.skip(1), b.skip(1));
        if a.skip(1) == b.skip(1) {
            assert(a =~= seq![a[0]] + a.skip(1));
            assert(b =~= seq![b[0]] + b.skip(1));
        }
    } else if a.len() == 0 && b.len() == 0 {
        assert(a =~= b);
    }
}

/// What comes before a text comes before all that this text comes before.
pub proof fn law_text_order_is_transitive(a: Seq<char>, b: Seq<char>, c: Seq<char>)
    requires
        text_before(a, b),
        text_before(b, c),
    ensures
        text_before(a, c),
    decreases a.len(),
{
    if a.len() > 0 && a[0] == b[0] && b[0] == c[0] {
        law_text_order_is_transitive(a.skip(1), b.skip(1), c.skip(1));
    }
}

/// Whether `a` comes before `b` in lexicographic order.
pub fn text_less(a: &str, b: &str) -> (r: bool)
    ensures
        r == text_before(a@, b@),
{
    let x: Vec<char> = chars_of(a);
    let y: Vec<char> = chars_of(b);
    let mut i: usize = 0;
    assert(x@.skip(0) =~= x@);
    assert(y@.skip(0) =~= y@);
    while i < x.len() && i < y.len()
        invariant
            i <= x@.len(),
            i <= y@.len(),
            x@ == a@,
            y@ == b@,
            text_before(a@, b@) == text_before(x@.skip(i as int), y@.skip(i as int)),
        decreases x@.len() - i,
    {
        assert(x@.skip(i as int).skip(1) =~= x@.skip(i + 1));
        assert(y@.skip(i as int).skip(1) =~= y@.skip(i + 1));
        let c: char = x[i];
        let d: char = y[i];
        if c != d {
            return c < d;
        }
        i += 1;
    }
    i < y.len()
}

/// Items with a rank among each other.
pub trait Ranked {
    /// Whether this item ranks strictly before `other`.
    spec fn precedes(&self, other: &Self) -> bool;

    /// No two items rank before each other.
    proof fn ranks_one_way(a: &Self, b: &Self)
        requires
            a.precedes(b),
        ensures
            !b.precedes(a),
    ;

    /// An item that is not behind another is not behind what that one is not behind.
    proof fn ranks_in_line(a: &Self, b: &Self, c: &Self)
        requires
            !b.precedes(a),
            !c.precedes(b),
        ensures
            !c.precedes(a),
    ;

    /// Whether this item ranks strictly before `other`.
    fn comes_before(&self, other: &Self) -> (r: bool)
        ensures
            r == self.precedes(other),
    ;
}

/// Whether `order` lists each index below `n` exactly once.
pub open spec fn lists_all(order: Seq<usize>, n: int) -> bool {
    &&& order.len() == n
    &&& forall|k: int| 0 <= k < n ==> 0 <= #[trigger] order[k] < n
    &&& forall|k: int, l: int| 0 <= k < l < n ==> #[trigger] order[k] != #[trigger] order[l]
}

/// Whether `order` goes by `before`, a relation between indices, and keeps the order of equals.
pub open spec fn sorts_by(order: Seq<usize>, before: spec_fn(int, int) -> bool) -> bool {
    forall|k: int, l: int|
        0 <= k < l < order.len() ==> {
            let (a, b) = (#[trigger] order[k], #[trigger] order[l]);
            !before(b as int, a as int) && (before(a as int, b as int) || a < b)
        }
}

/// Whether `order` sorts `items` by rank and keeps the order of equals.
pub open spec fn sorts<T: Ranked>(order: Seq<usize>, items: Seq<&T>) -> bool {
    sorts_by(order, |i: int, j: int| items[i].precedes(items[j]))
}

/// The indices of `items` in stable order of rank.
pub fn stable_order<T: Ranked>(items: &[&T]) -> (order: Vec<usize>)
    ensures
        lists_all(order@, items@.len() as int),
        sorts(order@, items@),
{
    let mut order: Vec<usize> = Vec::new();
    let mut i: usize = 0;
    while i < items.len()
        invariant
            i <= items@.len(),
            lists_all(order@, i as int),
            sorts(order@, items@),
        decreases items@.len() - i,
    {
        let mut p: usize = order.len();
        while p > 0 && items[i].comes_before(items[order[p - 1]])
            invariant
                i < items@.len(),
                p <= order@.len(),
                lists_all(order@, i as int),
                forall|q: int|
                    p <= q < order@.len() ==> items@[i as int].precedes(
                        items@[#[trigger] order@[q] as int],
                    ),
            decreases p,
        {
            p -= 1;
        }
        let ghost before = order@;
        proof {
            if p > 0 {
                let last = items@[before[p - 1] as int];
                assert forall|q: int| 0 <= q < p implies !items@[i as int].precedes(
                    items@[#[trigger] before[q] as int],
                ) by {
                    if q < p - 1 {
                        T::ranks_in_line(items@[before[q] as int], last, items@[i as int]);
                    }
                }
            }
            assert forall|q: int| p <= q < before.len() implies !items@[#[trigger] before[q] as int]
                .precedes(items@[i as int]) by {
                T::ranks_one_way(items@[i as int], items@[before[q] as int]);
            }
        }
        order.insert(p, i);
        proof {
            assert(order@ =~= before.insert(p as int, i));
            assert forall|k: int| 0 <= k < i + 1 implies 0 <= #[trigger] order@[k] < i + 1 by {
                if k < p {
                    assert(order@[k] == before[k]);
                } else if k > p {
                    assert(order@[k] == before[k - 1]);
                }
            }
            assert forall|k: int, l: int| 0 <= k < l < i + 1 implies #[trigger] order@[k]
                != #[trigger] order@[l] by {
                let a = if k < p {
                    k
                } else {
                    k - 1
                };
                let b = if l < p {
                    l
                } else {
                    l - 1
                };
                assert(k != p ==> order@[k] == before[a]);
                assert(l != p ==> order@[l] == before[b]);
            }
            assert forall|k: int, l: int| 0 <= k < l < order@.len() implies {
                let (a, b) = (#[trigger] order@[k], #[trigger] order@[l]);
                let (x, y) = (items@[a as int], items@[b as int]);
                !y.precedes(x) && (x.precedes(y) || a < b)
            } by {
                let a = if k < p {
                    k
                } else {
                    k - 1
                };
                let b = if l < p {
                    l
                } else {
                    l - 1
                };
                assert(k != p ==> order@[k] == before[a]);
                assert(l != p ==> order@[l] == before[b]);
            }
        }
        i += 1;
    }
    order
}

pub proof fn lemma_each_index_is_listed(order: Seq<usize>, n: int, i: usize)
    requires
        lists_all(order, n),
        i < n,
    ensures
        exists|k: int| 0 <= k < n && #[trigger] order[k] == i,
{
    let list = order.map_values(|j: usize| j as int);
    assert(list.no_duplicates());
    list.unique_seq_to_set();
    vstd::seq_lib::seq_to_set_is_finite(list);
    vstd::set_lib::lemma_int_range(0, n);
    assert(list.to_set().subset_of(vstd::set_lib::set_int_range(0, n))) by {
        assert forall|x: int| list.to_set().contains(x) implies #[trigger]
            vstd::set_lib::set_int_range(0, n).contains(x) by {
            let k = choose|k: int| 0 <= k < list.len() && list[k] == x;
            assert(order[k] == x);
        }
    }
    vstd::set_lib::lemma_subset_equality(list.to_set(), vstd::set_lib::set_int_range(0, n));
    assert(list.to_set().contains(i as int));
    let k = choose|k: int| 0 <= k < list.len() && list[k] == i as int;
    assert(order[k] == i);
}

/// There is only one order of `n` items that goes by a given relation and keeps the order of
/// equals.
pub proof fn law_stable_order_is_unique(
    n: int,
    before: spec_fn(int, int) -> bool,
    a: Seq<usize>,
    b: Seq<usize>,
)
    requires
        lists_all(a, n),
        sorts_by(a, before),
        lists_all(b, n),
        sorts_by(b, before),
    ensures
        a == b,
{
    assert forall|k: int| 0 <= k < n implies a[k] == b[k] by {
        lemma_same_up_to(n, before, a, b, k + 1);
    }
    assert(a =~= b);
}

proof fn lemma_same_up_to(
    n: int,
    before: spec_fn(int, int) -> bool,
    a: Seq<usize>,
    b: Seq<usize>,
    m: int,
)
    requires
        lists_all(a, n),
        sorts_by(a, before),
        lists_all(b, n),
        sorts_by(b, before),
        0 <= m <= n,
    ensures
        forall|k: int| 0 <= k < m ==> a[k] == b[k],
    decreases m,
{
    if m > 0 {
        lemma_same_up_to(n, before, a, b, m - 1);
        let k = m - 1;
        if a[k] != b[k] {
            lemma_each_index_is_listed(b, n, a[k]);
            lemma_each_index_is_listed(a, n, b[k]);
            let i = choose|i: int| 0 <= i < n && #[trigger] b[i] == a[k];
            let j = choose|j: int| 0 <= j < n && #[trigger] a[j] == b[k];
            assert(i >= k) by {
                if i < k {
                    assert(a[i] == b[i]);
                }
            }
            assert(j >= k) by {
                if j < k {
                    assert(a[j] == b[j]);
                }
            }
            assert(k < j && k < i);
            assert(!before(a[j] as int, a[k] as int));
            assert(!before(b[i] as int, b[k] as int));
        }
    }
}

/// Of two texts the one whose character is smaller where they first differ comes first, and a text
/// comes before every longer one that it starts.
pub proof fn law_first_difference_decides(a: Seq<char>, b: Seq<char>, n: int)
    requires
        0 <= n <= a.len(),
        n <= b.len(),
        a.take(n) == b.take(n),
    ensures
        n < a.len() && n < b.len() && (a[n] as int) < b[n] as int ==> text_before(a, b),
        n < a.len() && n < b.len() && (a[n] as int) > b[n] as int ==> !text_before(a, b),
        n == a.len() && n < b.len() ==> text_before(a, b),
        n == b.len() ==> !text_before(a, b),
    decreases n,
{
    if n > 0 {
        assert(a.take(n)[0] == a[0] && b.take(n)[0] == b[0]);
        assert(a.skip(1).take(n - 1) =~= a.take(n).skip(1));
        assert(b.skip(1).take(n - 1) =~= b.take(n).skip(1));
        law_first_difference_decides(a.skip(1), b.skip(1), n - 1);
    }
}

/// The items of `items` in the order `order`.
pub open spec fn taken_in<T>(items: Seq<T>, order: Seq<usize>) -> Seq<T> {
    order.map_values(|i: usize| items[i as int])
}

/// Taking each item once, in whatever order, gives the same items.
pub proof fn lemma_listing_keeps_all<T>(items: Seq<T>, order: Seq<usize>)
    requires
        lists_all(order, items.len() as int),
        items.len() <= usize::MAX,
    ensures
        taken_in(items, order).to_multiset() == items.to_multiset(),
    decreases items.len(),
{
    broadcast use vstd::seq_lib::group_to_multiset_ensures;

    let n = items.len() as int;
    let out = taken_in(items, order);
    if n == 0 {
        assert(out =~= items);
    } else {
        lemma_each_index_is_listed(order, n, (n - 1) as usize);
        let k = choose|k: int| 0 <= k < n && #[trigger] order[k] == (n - 1) as usize;
        let rest = order.remove(k);
        let few = items.drop_last();
        assert forall|i: int| 0 <= i < rest.len() implies #[trigger] rest[i] < n - 1 by {
            if i < k {
                assert(rest[i] == order[i]);
                assert(order[i] != order[k]);
            } else {
                assert(rest[i] == order[i + 1]);
                assert(order[k] != order[i + 1]);
            }
        }
        assert forall|i: int, j: int| 0 <= i < j < rest.len() implies #[trigger] rest[i]
            != #[trigger] rest[j] by {
            let a = if i < k {
                i
            } else {
                i + 1
            };
            let b = if j < k {
                j
            } else {
                j + 1
            };
            assert(rest[i] == order[a] && rest[j] == order[b]);
        }
        lemma_listing_keeps_all(few, rest);
        assert(taken_in(few, rest) =~= out.remove(k));
        assert(out[k] == items.last());
        assert(out.remove(k).insert(k, items.last()) =~= out);
        vstd::seq_lib::to_multiset_remove(out, k);
        assert(few.push(items.last()) =~= items);
        vstd::seq_lib::to_multiset_build(few, items.last());
        assert(out.to_multiset().contains(out[k]));
        assert(out.to_multiset() =~= items.to_multiset());
    }
}

} // verus!
