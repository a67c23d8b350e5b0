//! Sorting keys, and the one sequence that lists a finite set of keys in order.
use vstd::prelude::*;
use vstd::relations::{sorted_by, total_ordering};
use vstd::seq_lib::{group_to_multiset_ensures, lemma_sorted_unique};
use crate::geometry::{Key, key_le, key_order};

verus! {

/// Whether `q` lists the elements of `s` in key order, each once.
pub open spec fn lists_in_order(q: Seq<Key>, s: Set<Key>) -> bool {
    sorted_by(q, key_order()) && q.no_duplicates() && q.to_set() == s
}

/// The elements of `s` in key order, each once (unique when it exists:
/// see `lemma_order_unique`).
pub open spec fn in_order(s: Set<Key>) -> Seq<Key> {
    choose|q: Seq<Key>| lists_in_order(q, s)
}

pub proof fn lemma_key_order_total()
    ensures
        total_ordering(key_order()),
{
}

/// Two sequences without repeats that hold the same elements hold them equally often.
pub proof fn lemma_same_elements_same_multiset<A>(a: Seq<A>, b: Seq<A>)
    requires
        a.no_duplicates(),
        b.no_duplicates(),
        a.to_set() == b.to_set(),
    ensures
        a.to_multiset() == b.to_multiset(),
{
    broadcast use group_to_multiset_ensures;

    a.lemma_multiset_has_no_duplicates();
    b.lemma_multiset_has_no_duplicates();
    assert forall|x: A| a.to_multiset().count(x) == b.to_multiset().count(x) by {
        if a.contains(x) {
            assert(a.to_set().contains(x));
            assert(b.to_set().contains(x));
            assert(b.contains(x));
        } else {
            if b.contains(x) {
                assert(b.to_set().contains(x));
                assert(a.to_set().contains(x));
            }
        }
    }
    assert(a.to_multiset() =~= b.to_multiset());
}

/// Every finite set of keys can be listed in order.
pub proof fn lemma_listing_exists(s: Set<Key>)
    requires
        s.finite(),
    ensures
        lists_in_order(in_order(s), s),
    decreases s.len(),
{
    broadcast use vstd::set::group_set_axioms;
    broadcast use vstd::seq::Seq::lemma_push_to_set_commute;

    lemma_key_order_total();
    if s.len() == 0 {
        let q = Seq::<Key>::empty();
        assert(q.to_set() =~= s);
        assert(lists_in_order(q, s));
    } else {
        let m = s.find_unique_maximal(key_order());
        s.find_unique_maximal_ensures(key_order());
        let rest = s.remove(m);
        lemma_listing_exists(rest);
        let p = in_order(rest);
        let q = p.push(m);
        assert forall|i: int, j: int| 0 <= i < j < q.len() implies #[trigger] (key_order())(q[i], q[j]) by {
            if j < p.len() {
                assert(q[i] == p[i] && q[j] == p[j]);
                assert((key_order())(p[i], p[j]));
            } else {
                assert(q[i] == p[i] && q[j] == m);
                assert(p.to_set().contains(p[i]));
                assert(s.contains(p[i]));
                if !(key_order())(p[i], m) {
                    assert((key_order())(m, p[i]));
                }
            }
        }
        assert(!p.contains(m)) by {
            if p.contains(m) {
                assert(p.to_set().contains(m));
            }
        }
        lemma_push_distinct(p, m);
        assert(q.to_set() =~= s);
        assert(lists_in_order(q, s));
    }
}

/// Mapping two sequences with the same elements, equally often, gives two
/// such sequences again.
pub proof fn lemma_map_same_multiset<A, B>(a: Seq<A>, b: Seq<A>, f: spec_fn(A) -> B)
    requires
        a.to_multiset() == b.to_multiset(),
    ensures
        a.map_values(f).to_multiset() == b.map_values(f).to_multiset(),
    decreases a.len(),
{
    broadcast use group_to_multiset_ensures;
    broadcast use vstd::multiset::group_multiset_axioms;

    if a.len() == 0 {
        assert(a.to_multiset().len() == a.len());
        assert(b.to_multiset().len() == b.len());
        assert(b.len() == 0);
        assert(a.map_values(f) =~= b.map_values(f));
    } else {
        let x = a.last();
        let a1 = a.drop_last();
        assert(a.to_multiset().count(x) > 0) by {
            assert(a.contains(x) ==> a.to_multiset().count(x) > 0);
            assert(a[a.len() - 1] == x);
        }
        assert(b.contains(x));
        let k = choose|k: int| 0 <= k < b.len() && b[k] == x;
        let b1 = b.remove(k);
        assert(a.remove(a.len() - 1) =~= a1);
        assert(a1.to_multiset() =~= a.to_multiset().remove(x));
        assert(b1.to_multiset() =~= b.to_multiset().remove(x));
        lemma_map_same_multiset(a1, b1, f);
        assert(a.map_values(f) =~= a1.map_values(f).push(f(x)));
        assert(b.map_values(f).remove(k) =~= b1.map_values(f));
        assert(b.map_values(f)[k] == f(x));
        assert(b.map_values(f).remove(k).to_multiset() =~= b.map_values(f).to_multiset().remove(f(x)));
        assert(b.map_values(f).contains(f(x)));
        assert(b.map_values(f).to_multiset().count(f(x)) > 0);
        assert(b.map_values(f).to_multiset() =~= b1.map_values(f).to_multiset().insert(f(x)));
        assert(a.map_values(f).to_multiset() =~= a1.map_values(f).to_multiset().insert(f(x)));
    }
}

/// What a sequence holds after a push.
pub proof fn lemma_push_contains<A>(s: Seq<A>, x: A, y: A)
    ensures
        s.push(x).contains(y) <==> (s.contains(y) || x == y),
{
    if s.push(x).contains(y) {
        let k = choose|k: int| 0 <= k < s.push(x).len() && s.push(x)[k] == y;
        if k < s.len() {
            assert(s[k] == y);
        }
    }
    if s.contains(y) {
        let k = choose|k: int| 0 <= k < s.len() && s[k] == y;
        assert(s.push(x)[k] == y);
    }
    if x == y {
        assert(s.push(x)[s.len() as int] == y);
    }
}

/// Pushing an element that is not there keeps a sequence free of repeats.
pub proof fn lemma_push_distinct<A>(s: Seq<A>, x: A)
    requires
        s.no_duplicates(),
        !s.contains(x),
    ensures
        s.push(x).no_duplicates(),
{
    assert forall|i: int, j: int| 0 <= i < j < s.push(x).len() implies s.push(x)[i] != s.push(x)[j] by {
        if j == s.len() {
            assert(s[i] == s.push(x)[i]);
        }
    }
}

/// At most one sequence lists a set in key order.
pub proof fn lemma_order_unique(a: Seq<Key>, b: Seq<Key>, s: Set<Key>)
    requires
        lists_in_order(a, s),
        lists_in_order(b, s),
    ensures
        a == b,
{
    lemma_key_order_total();
    lemma_same_elements_same_multiset(a, b);
    lemma_sorted_unique(a, b, key_order());
}

/// A sequence that lists a set in order is `in_order` of that set.
pub proof fn lemma_in_order(q: Seq<Key>, s: Set<Key>)
    requires
        lists_in_order(q, s),
    ensures
        in_order(s) == q,
{
    let c = in_order(s);
    assert(lists_in_order(c, s));
    lemma_order_unique(c, q, s);
}

/// Relies on slice::sort_unstable: the same keys afterwards, in ascending
/// order of the tuple (std orders tuples lexicographically).
#[verifier::external_body]
fn sort_keys(v: &mut Vec<Key>)
    ensures
        final(v)@.to_multiset() == old(v)@.to_multiset(),
        sorted_by(final(v)@, key_order()),
{
    v.sort_unstable();
}

/// The distinct keys of `v`, in key order.
pub fn sorted_distinct(v: Vec<Key>) -> (r: Vec<Key>)
    ensures
        r@ == in_order(v@.to_set()),
        lists_in_order(r@, v@.to_set()),
{
    let mut v = v;
    let ghost before = v@;
    sort_keys(&mut v);
    proof {
        broadcast use group_to_multiset_ensures;

        assert forall|k: Key| v@.to_set().contains(k) <==> before.to_set().contains(k) by {
            assert(v@.contains(k) <==> v@.to_multiset().count(k) > 0);
            assert(before.contains(k) <==> before.to_multiset().count(k) > 0);
        }
        assert(v@.to_set() =~= before.to_set());
    }
    let mut r: Vec<Key> = Vec::new();
    let mut i: usize = 0;
    while i < v.len()
        invariant
            i <= v.len(),
            sorted_by(v@, key_order()),
            sorted_by(r@, key_order()),
            r@.no_duplicates(),
            r@.to_set() == v@.subrange(0, i as int).to_set(),
            i > 0 ==> r@.len() > 0 && r@.last() == v@[i - 1],
        decreases v.len() - i,
    {
        let k = v[i];
        let fresh = if i == 0 {
            true
        } else {
            let p = v[i - 1];
            k.0 != p.0 || k.1 != p.1 || k.2 != p.2
        };
        if fresh {
            proof {
                assert forall|j: int| 0 <= j < r@.len() implies key_le(r@[j], k) && r@[j] != k by {
                    assert(r@.to_set().contains(r@[j]));
                    assert(v@.subrange(0, i as int).to_set().contains(r@[j]));
                    let m = choose|m: int| 0 <= m < i && v@.subrange(0, i as int)[m] == r@[j];
                    assert((key_order())(v@[m], v@[i as int]));
                    if m < i - 1 {
                        assert((key_order())(v@[m], v@[i - 1]));
                        assert((key_order())(v@[i - 1], v@[i as int]));
                    }
                }
            }
            r.push(k);
        }
        proof {
            broadcast use vstd::seq::Seq::lemma_push_to_set_commute;
            if !fresh {
                assert(r@[r@.len() - 1] == k);
                assert(r@.to_set().contains(k));
            }
            assert(v@.subrange(0, i + 1) =~= v@.subrange(0, i as int).push(k));
            assert(r@.to_set() =~= v@.subrange(0, i + 1).to_set());
        }
        i = i + 1;
    }
    proof {
        assert(v@.subrange(0, v@.len() as int) =~= v@);
        lemma_in_order(r@, before.to_set());
    }
    r
}

} // verus!
