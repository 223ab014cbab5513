//! Stable ordering of records by a key.

use vstd::prelude::*;

verus! {

/// A key by which records are ordered.  `precedes` is "comes no later than":
/// it decides every pair and is transitive.
pub trait Ranked: Sized {
    spec fn precedes(&self, other: &Self) -> bool;

    proof fn lemma_total(a: &Self, b: &Self)
        ensures
            a.precedes(b) || b.precedes(a),
    ;

    proof fn lemma_transitive(a: &Self, b: &Self, c: &Self)
        requires
            a.precedes(b),
            b.precedes(c),
        ensures
            a.precedes(c),
    ;

    fn comes_no_later(&self, other: &Self) -> (r: bool)
        ensures
            r == self.precedes(other),
    ;
}

/// Whether record `i` stands before record `j` in the order given by
/// `no_later`: its key comes strictly earlier, or the keys tie and `i` came
/// first.
pub open spec fn before(no_later: spec_fn(int, int) -> bool, i: int, j: int) -> bool {
    !no_later(j, i) || (no_later(i, j) && i < j)
}

/// Whether `order` is the stable ordering of `n` records: it lists every
/// position once, in the order of the keys.
pub open spec fn is_stable_order(no_later: spec_fn(int, int) -> bool, n: nat, order: Seq<usize>) -> bool {
    &&& order.len() == n
    &&& forall|a: int| 0 <= a < order.len() ==> (#[trigger] order[a]) < n
    &&& forall|a: int, b: int|
        0 <= a < b < order.len() ==> before(
            no_later,
            (#[trigger] order[a]) as int,
            (#[trigger] order[b]) as int,
        )
    &&& forall|k: usize| k < n ==> #[trigger] order.contains(k)
}

/// The order of records by their keys.
pub open spec fn by_key<K: Ranked>(keys: Seq<K>) -> spec_fn(int, int) -> bool {
    |i: int, j: int| keys[i].precedes(&keys[j])
}

/// Whether the order decides between records `i` and `j`.
pub open spec fn decides(no_later: spec_fn(int, int) -> bool, i: int, j: int) -> bool {
    no_later(i, j) || no_later(j, i)
}

/// Two stable orderings of the same records agree on their first `upto`
/// places.
proof fn lemma_orders_agree(
    no_later: spec_fn(int, int) -> bool,
    n: nat,
    first: Seq<usize>,
    second: Seq<usize>,
    upto: int,
)
    requires
        is_stable_order(no_later, n, first),
        is_stable_order(no_later, n, second),
        forall|i: int, j: int| 0 <= i < n && 0 <= j < n ==> #[trigger] decides(no_later, i, j),
        0 <= upto <= n,
    ensures
        forall|k: int| 0 <= k < upto ==> first[k] == second[k],
    decreases upto,
{
    if upto > 0 {
        lemma_orders_agree(no_later, n, first, second, upto - 1);
        let p = upto - 1;
        let x = first[p];
        let y = second[p];
        if x != y {
            // `y` stands somewhere in `first`, and `x` somewhere in `second`.
            assert(first.contains(y));
            let q = choose|q: int| 0 <= q < first.len() && first[q] == y;
            assert(second.contains(x));
            let r = choose|r: int| 0 <= r < second.len() && second[r] == x;
            assert(decides(no_later, x as int, x as int) && decides(no_later, y as int, y as int));
            if q < p {
                assert(second[q] == y);
                assert(before(no_later, second[q] as int, second[p] as int));
            } else if r < p {
                assert(first[r] == x);
                assert(before(no_later, first[r] as int, first[p] as int));
            } else {
                assert(before(no_later, first[p] as int, first[q] as int));
                assert(before(no_later, second[p] as int, second[r] as int));
                assert(decides(no_later, x as int, y as int));
            }
        }
    }
}

/// Where every two records can be compared, there is only one stable
/// ordering.
pub proof fn lemma_stable_order_unique(
    no_later: spec_fn(int, int) -> bool,
    n: nat,
    first: Seq<usize>,
    second: Seq<usize>,
)
    requires
        is_stable_order(no_later, n, first),
        is_stable_order(no_later, n, second),
        forall|i: int, j: int| 0 <= i < n && 0 <= j < n ==> #[trigger] decides(no_later, i, j),
    ensures
        first == second,
{
    lemma_orders_agree(no_later, n, first, second, n as int);
    assert(first =~= second);
}

/// The positions of `keys` in the order of their keys; records with equal
/// keys keep their order.
pub fn stable_order<K: Ranked>(keys: &Vec<K>) -> (order: Vec<usize>)
    ensures
        is_stable_order(by_key(keys@), keys@.len(), order@),
{
    let ghost rel = by_key(keys@);
    let mut order: Vec<usize> = Vec::new();
    let mut m: usize = 0;
    while m < keys.len()
        invariant
            m <= keys.len(),
            order@.len() == m,
            forall|a: int| 0 <= a < order@.len() ==> (#[trigger] order@[a]) < m,
            forall|k: usize| k < m ==> #[trigger] order@.contains(k),
            rel == by_key(keys@),
            forall|a: int, b: int|
                0 <= a < b < order@.len() ==> before(
                    rel,
                    (#[trigger] order@[a]) as int,
                    (#[trigger] order@[b]) as int,
                ),
        decreases keys.len() - m,
    {
        let mut p: usize = order.len();
        while p > 0 && !keys[order[p - 1]].comes_no_later(&keys[m])
            invariant
                p <= order@.len(),
                m < keys.len(),
                forall|a: int| 0 <= a < order@.len() ==> (#[trigger] order@[a]) < m,
                forall|b: int|
                    p <= b < order@.len() ==> !keys@[(#[trigger] order@[b]) as int].precedes(&keys@[m as int]),
            decreases p,
        {
            p = p - 1;
        }
        let ghost prev = order@;
        order.insert(p, m);
        proof {
            assert forall|a: int, b: int| 0 <= a < b < order@.len() implies before(
                rel,
                (#[trigger] order@[a]) as int,
                (#[trigger] order@[b]) as int,
            ) by {
                if b == p {
                    // order[a] is an earlier record whose key comes no later.
                    let last = prev[p - 1] as int;
                    assert(keys@[last].precedes(&keys@[m as int]));
                    if a < p - 1 {
                        assert(before(rel, prev[a] as int, prev[p - 1] as int));
                        K::lemma_total(&keys@[prev[a] as int], &keys@[last]);
                        K::lemma_transitive(&keys@[prev[a] as int], &keys@[last], &keys@[m as int]);
                    }
                    assert(prev[a] < m);
                } else if a == p {
                    assert(order@[b] == prev[b - 1]);
                    assert(!keys@[prev[b - 1] as int].precedes(&keys@[m as int]));
                } else if b < p {
                    assert(order@[a] == prev[a] && order@[b] == prev[b]);
                } else if a < p {
                    assert(order@[a] == prev[a] && order@[b] == prev[b - 1]);
                    assert(before(rel, prev[a] as int, prev[b - 1] as int));
                } else {
                    assert(order@[a] == prev[a - 1] && order@[b] == prev[b - 1]);
                    assert(before(rel, prev[a - 1] as int, prev[b - 1] as int));
                }
            }
            assert forall|k: usize| k < m + 1 implies #[trigger] order@.contains(k) by {
                if k == m {
                    assert(order@[p as int] == k);
                } else {
                    assert(prev.contains(k));
                    let at = choose|at: int| 0 <= at < prev.len() && prev[at] == k;
                    if at < p {
                        assert(order@[at] == k);
                    } else {
                        assert(order@[at + 1] == k);
                    }
                }
            }
            assert forall|a: int| 0 <= a < order@.len() implies (#[trigger] order@[a]) < m + 1 by {
                if a < p {
                    assert(order@[a] == prev[a]);
                } else if a > p {
                    assert(order@[a] == prev[a - 1]);
                }
            }
        }
        m = m + 1;
    }
    order
}

/// The first `limit` positions of the stable ordering of `keys`.
pub fn first_in_order<K: Ranked>(keys: &Vec<K>, limit: usize) -> (r: Vec<usize>)
    ensures
        exists|order: Seq<usize>|
            #[trigger] is_stable_order(by_key(keys@), keys@.len(), order) && r@ == order.take(
                if limit < keys.len() {
                    limit as int
                } else {
                    keys.len() as int
                },
            ),
{
    let order = stable_order(keys);
    let n = if limit < order.len() {
        limit
    } else {
        order.len()
    };
    let mut r: Vec<usize> = Vec::new();
    let mut i: usize = 0;
    while i < n
        invariant
            i <= n <= order.len(),
            r@ == order@.take(i as int),
        decreases n - i,
    {
        r.push(order[i]);
        assert(order@.take(i + 1) =~= order@.take(i as int).push(order@[i as int]));
        i = i + 1;
    }
    assert(is_stable_order(by_key(keys@), keys@.len(), order@));
    r
}

/// A time that orders records newest first.
#[derive(Debug, Clone, Copy)]
pub struct Newest(pub i64);

impl Ranked for Newest {
    open spec fn precedes(&self, other: &Self) -> bool {
        self.0 >= other.0
    }

    proof fn lemma_total(a: &Self, b: &Self) {
    }

    proof fn lemma_transitive(a: &Self, b: &Self, c: &Self) {
    }

    fn comes_no_later(&self, other: &Self) -> (r: bool) {
        self.0 >= other.0
    }
}

/// Whether `a` comes no later than `b` in the order of strings: character
/// by character, a prefix before its extensions.
pub open spec fn text_le(a: Seq<char>, b: Seq<char>) -> bool
    decreases a.len(),
{
    if a.len() == 0 {
        true
    } else if b.len() == 0 {
        false
    } else {
        a[0] < b[0] || (a[0] == b[0] && text_le(a.drop_first(), b.drop_first()))
    }
}

pub proof fn lemma_text_le_total(a: Seq<char>, b: Seq<char>)
    ensures
        text_le(a, b) || text_le(b, a),
    decreases a.len(),
{
    if a.len() > 0 && b.len() > 0 && a[0] == b[0] {
        lemma_text_le_total(a.drop_first(), b.drop_first());
    }
}

pub proof fn lemma_text_le_transitive(a: Seq<char>, b: Seq<char>, c: Seq<char>)
    requires
        text_le(a, b),
        text_le(b, c),
    ensures
        text_le(a, c),
    decreases a.len(),
{
    if a.len() > 0 && b.len() > 0 && c.len() > 0 && a[0] == b[0] && b[0] == c[0] {
        lemma_text_le_transitive(a.drop_first(), b.drop_first(), c.drop_first());
    }
}

/// A text that orders records as strings are ordered.
#[derive(Debug)]
pub struct TextKey(pub Vec<char>);

impl Ranked for TextKey {
    open spec fn precedes(&self, other: &Self) -> bool {
        text_le(self.0@, other.0@)
    }

    proof fn lemma_total(a: &Self, b: &Self) {
        lemma_text_le_total(a.0@, b.0@);
    }

    proof fn lemma_transitive(a: &Self, b: &Self, c: &Self) {
        lemma_text_le_transitive(a.0@, b.0@, c.0@);
    }

    fn comes_no_later(&self, other: &Self) -> (r: bool) {
        let a = &self.0;
        let b = &other.0;
        let mut i: usize = 0;
        assert(a@.skip(0) =~= a@ && b@.skip(0) =~= b@);
        loop
            invariant
                i <= a.len(),
                i <= b.len(),
                a@ == self.0@,
                b@ == other.0@,
                text_le(a@, b@) == text_le(a@.skip(i as int), b@.skip(i as int)),
            decreases a.len() - i,
        {
            if i == a.len() {
                return true;
            }
            if i == b.len() {
                return false;
            }
            proof {
                assert(a@.skip(i as int)[0] == a@[i as int]);
                assert(b@.skip(i as int)[0] == b@[i as int]);
                assert(a@.skip(i as int).drop_first() =~= a@.skip(i + 1));
                assert(b@.skip(i as int).drop_first() =~= b@.skip(i + 1));
            }
            if a[i] < b[i] {
                return true;
            }
            if a[i] > b[i] {
                return false;
            }
            i = i + 1;
        }
    }
}

} // verus!
