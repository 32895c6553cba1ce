//! Canonical order: the strictly ascending arrangement of a finite set.
use vstd::prelude::*;
use crate::field::OrdField;

verus! {

/// Each element precedes every later one.
pub open spec fn strictly_sorted<T: OrdField>(t: Seq<T>) -> bool {
    forall|i: int, j: int| 0 <= i < j < t.len() ==> (#[trigger] t[i]).precedes(#[trigger] t[j])
}

/// The ascending sequence of the elements of `s`.
pub open spec fn canonical<T: OrdField>(s: Set<T>) -> Seq<T> {
    choose|t: Seq<T>| strictly_sorted(t) && t.to_set() == s
}

/// A strictly sorted sequence holds no element twice.
pub proof fn lemma_sorted_no_duplicates<T: OrdField>(t: Seq<T>)
    requires
        strictly_sorted(t),
    ensures
        t.no_duplicates(),
{
    assert forall|i: int, j: int| 0 <= i < t.len() && 0 <= j < t.len() && i != j implies t[i]
        != t[j] by {
        T::lemma_strict_total_order(t[i], t[j], t[j]);
        T::lemma_strict_total_order(t[j], t[i], t[i]);
    }
}

/// Two strictly sorted sequences with the same elements are equal.
pub proof fn lemma_sorted_unique<T: OrdField>(a: Seq<T>, b: Seq<T>)
    requires
        strictly_sorted(a),
        strictly_sorted(b),
        a.to_set() == b.to_set(),
    ensures
        a == b,
    decreases a.len(),
{
    if a.len() == 0 {
        if b.len() > 0 {
            assert(b.to_set().contains(b[0]));
        }
        assert(a =~= b);
    } else if b.len() == 0 {
        assert(a.to_set().contains(a[0]));
    } else {
        assert(a.to_set().contains(a[0]));
        assert(b.to_set().contains(b[0]));
        let i = choose|i: int| 0 <= i < a.len() && a[i] == b[0];
        let j = choose|j: int| 0 <= j < b.len() && b[j] == a[0];
        T::lemma_strict_total_order(a[0], a[i], a[0]);
        T::lemma_strict_total_order(b[0], b[j], b[0]);
        if i > 0 && j > 0 {
            T::lemma_strict_total_order(a[0], b[0], a[0]);
        }
        assert(a[0] == b[0]);
        let a1 = a.drop_first();
        let b1 = b.drop_first();
        lemma_sorted_no_duplicates(a);
        lemma_sorted_no_duplicates(b);
        assert forall|x: T| a1.to_set().contains(x) <==> b1.to_set().contains(x) by {
            if a1.contains(x) {
                let k = choose|k: int| 0 <= k < a1.len() && a1[k] == x;
                assert(a[k + 1] == x);
                assert(b.contains(x)) by {
                    assert(a.to_set().contains(x));
                }
                let m = choose|m: int| 0 <= m < b.len() && b[m] == x;
                assert(m != 0);
                assert(b1[m - 1] == x);
            }
            if b1.contains(x) {
                let k = choose|k: int| 0 <= k < b1.len() && b1[k] == x;
                assert(b[k + 1] == x);
                assert(a.contains(x)) by {
                    assert(b.to_set().contains(x));
                }
                let m = choose|m: int| 0 <= m < a.len() && a[m] == x;
                assert(m != 0);
                assert(a1[m - 1] == x);
            }
        }
        assert(a1.to_set() =~= b1.to_set());
        lemma_sorted_unique(a1, b1);
        assert(a =~= b) by {
            assert(a == seq![a[0]] + a1);
            assert(b == seq![b[0]] + b1);
        }
    }
}

/// A strictly sorted arrangement of `s` is the canonical one.
pub proof fn lemma_canonical_is<T: OrdField>(t: Seq<T>, s: Set<T>)
    requires
        strictly_sorted(t),
        t.to_set() == s,
    ensures
        canonical(s) == t,
{
    let c = canonical(s);
    assert(strictly_sorted(c) && c.to_set() == s);
    lemma_sorted_unique(c, t);
}

/// `t` with `x` put before the first element that it precedes.
pub open spec fn insert_sorted<T: OrdField>(t: Seq<T>, x: T) -> Seq<T>
    decreases t.len(),
{
    if t.len() == 0 {
        seq![x]
    } else if x.precedes(t[0]) {
        seq![x] + t
    } else {
        seq![t[0]] + insert_sorted(t.drop_first(), x)
    }
}

proof fn lemma_insert_sorted<T: OrdField>(t: Seq<T>, x: T)
    requires
        strictly_sorted(t),
        !t.contains(x),
    ensures
        strictly_sorted(insert_sorted(t, x)),
        insert_sorted(t, x).to_set() == t.to_set().insert(x),
    decreases t.len(),
{
    let r = insert_sorted(t, x);
    if t.len() == 0 {
        assert(r.to_set() =~= t.to_set().insert(x)) by {
            assert(r[0] == x);
        }
    } else if x.precedes(t[0]) {
        assert forall|i: int, j: int| 0 <= i < j < r.len() implies (#[trigger] r[i]).precedes(
            #[trigger] r[j],
        ) by {
            if i == 0 && j > 1 {
                T::lemma_strict_total_order(x, t[0], t[j - 1]);
            } else if i > 0 {
                assert(r[i] == t[i - 1] && r[j] == t[j - 1]);
            }
        }
        assert forall|y: T| r.to_set().contains(y) <==> t.to_set().insert(x).contains(y) by {
            if r.contains(y) {
                let k = choose|k: int| 0 <= k < r.len() && r[k] == y;
                if k > 0 {
                    assert(t[k - 1] == y);
                }
            }
            if t.contains(y) {
                let k = choose|k: int| 0 <= k < t.len() && t[k] == y;
                assert(r[k + 1] == y);
            }
            if y == x {
                assert(r[0] == x);
            }
        }
        assert(r.to_set() =~= t.to_set().insert(x));
    } else {
        let d = t.drop_first();
        assert(t[0] != x);
        T::lemma_strict_total_order(x, t[0], t[0]);
        assert(t[0].precedes(x));
        assert(strictly_sorted(d)) by {
            assert forall|i: int, j: int| 0 <= i < j < d.len() implies (#[trigger] d[i]).precedes(
                #[trigger] d[j],
            ) by {
                assert(d[i] == t[i + 1] && d[j] == t[j + 1]);
            }
        }
        assert(!d.contains(x)) by {
            if d.contains(x) {
                let k = choose|k: int| 0 <= k < d.len() && d[k] == x;
                assert(t[k + 1] == x);
            }
        }
        lemma_insert_sorted(d, x);
        let q = insert_sorted(d, x);
        assert(r == seq![t[0]] + q);
        assert forall|j: int| 0 <= j < q.len() implies t[0].precedes(#[trigger] q[j]) by {
            assert(q.to_set().contains(q[j]));
            if q[j] != x {
                assert(d.contains(q[j]));
                let k = choose|k: int| 0 <= k < d.len() && d[k] == q[j];
                assert(t[k + 1] == q[j]);
            }
        }
        assert forall|i: int, j: int| 0 <= i < j < r.len() implies (#[trigger] r[i]).precedes(
            #[trigger] r[j],
        ) by {
            if i == 0 {
                assert(r[j] == q[j - 1]);
            } else {
                assert(r[i] == q[i - 1] && r[j] == q[j - 1]);
            }
        }
        assert forall|y: T| r.to_set().contains(y) <==> t.to_set().insert(x).contains(y) by {
            if r.contains(y) {
                let k = choose|k: int| 0 <= k < r.len() && r[k] == y;
                if k > 0 {
                    assert(q[k - 1] == y);
                    assert(q.to_set().contains(y));
                    if y != x {
                        let m = choose|m: int| 0 <= m < d.len() && d[m] == y;
                        assert(t[m + 1] == y);
                    }
                } else {
                    assert(t[0] == y);
                }
            }
            if t.contains(y) {
                let k = choose|k: int| 0 <= k < t.len() && t[k] == y;
                if k == 0 {
                    assert(r[0] == y);
                } else {
                    assert(d[k - 1] == y);
                    assert(q.to_set().contains(y));
                    let m = choose|m: int| 0 <= m < q.len() && q[m] == y;
                    assert(r[m + 1] == y);
                }
            }
            if y == x {
                assert(q.to_set().contains(x));
                let m = choose|m: int| 0 <= m < q.len() && q[m] == x;
                assert(r[m + 1] == x);
            }
        }
        assert(r.to_set() =~= t.to_set().insert(x));
    }
}

/// The elements of any sequence have a canonical arrangement: it is strictly
/// sorted and holds exactly those elements.
pub proof fn lemma_canonical_exists<T: OrdField>(es: Seq<T>)
    ensures
        strictly_sorted(canonical(es.to_set())),
        canonical(es.to_set()).to_set() == es.to_set(),
    decreases es.len(),
{
    if es.len() == 0 {
        let e = Seq::<T>::empty();
        assert(es.to_set() =~= e.to_set());
        assert(strictly_sorted(e));
    } else {
        let init = es.drop_last();
        let x = es.last();
        lemma_canonical_exists(init);
        let t = canonical(init.to_set());
        assert(es.to_set() =~= init.to_set().insert(x)) by {
            assert(es == init.push(x));
            assert forall|y: T| es.contains(y) <==> init.to_set().insert(x).contains(y) by {
                if es.contains(y) && y != x {
                    let k = choose|k: int| 0 <= k < es.len() && es[k] == y;
                    assert(init[k] == y);
                }
                if init.contains(y) {
                    let k = choose|k: int| 0 <= k < init.len() && init[k] == y;
                    assert(es[k] == y);
                }
                if y == x {
                    assert(es[es.len() - 1] == x);
                }
            }
        }
        if t.contains(x) {
            assert(t.to_set().contains(x));
            assert(init.to_set().insert(x) =~= init.to_set());
            assert(strictly_sorted(t) && t.to_set() == es.to_set());
        } else {
            lemma_insert_sorted(t, x);
            let r = insert_sorted(t, x);
            assert(strictly_sorted(r) && r.to_set() == es.to_set());
        }
    }
}

/// The elements of `v` in ascending order.
pub fn sorted_copy<T: OrdField>(v: &Vec<T>) -> (r: Vec<T>)
    ensures
        strictly_sorted(r@),
        r@.to_set() == v@.to_set(),
        v@.no_duplicates() ==> r@.len() == v@.len(),
        r@ == canonical(v@.to_set()),
{
    let mut r: Vec<T> = Vec::new();
    let mut i: usize = 0;
    while i < v.len()
        invariant
            i <= v@.len(),
            strictly_sorted(r@),
            r@.to_set() == v@.take(i as int).to_set(),
            v@.no_duplicates() ==> r@.len() == i,
        decreases v@.len() - i,
    {
        let x = v[i];
        let mut j: usize = 0;
        while j < r.len() && r[j].lt(&x)
            invariant
                j <= r@.len(),
                forall|k: int| 0 <= k < j ==> (#[trigger] r@[k]).precedes(x),
            decreases r@.len() - j,
        {
            j = j + 1;
        }
        let ghost old_r = r@;
        let ghost present = old_r.contains(x);
        if j < r.len() && r[j].same(&x) {
        } else {
            proof {
                if j < old_r.len() {
                    T::lemma_strict_total_order(old_r[j as int], x, x);
                    assert(x.precedes(old_r[j as int]));
                }
                assert forall|k: int| j <= k < old_r.len() implies x.precedes(#[trigger] old_r[k]) by {
                    if k > j {
                        T::lemma_strict_total_order(x, old_r[j as int], old_r[k]);
                    }
                }
                assert(!old_r.contains(x)) by {
                    if old_r.contains(x) {
                        let k = choose|k: int| 0 <= k < old_r.len() && old_r[k] == x;
                        T::lemma_strict_total_order(x, x, x);
                    }
                }
            }
            r.insert(j, x);
            proof {
                let n = r@;
                assert(n == old_r.insert(j as int, x));
                assert forall|a: int, b: int| 0 <= a < b < n.len() implies (#[trigger] n[a]).precedes(
                    #[trigger] n[b],
                ) by {
                    if b < j {
                    } else if b == j {
                    } else if a < j {
                        T::lemma_strict_total_order(n[a], x, n[b]);
                    } else if a == j {
                    } else {
                    }
                }
            }
        }
        proof {
            let t = v@.take(i as int);
            let t1 = v@.take(i + 1);
            assert(t1 == t.push(x));
            assert forall|y: T| r@.to_set().contains(y) <==> t1.to_set().contains(y) by {
                if r@.contains(y) && y != x {
                    let k = choose|k: int| 0 <= k < r@.len() && r@[k] == y;
                    if k < j {
                        assert(old_r[k] == y);
                    } else if old_r.len() < r@.len() {
                        assert(old_r[k - 1] == y);
                    } else {
                        assert(old_r[k] == y);
                    }
                    assert(old_r.to_set().contains(y));
                    assert(t.contains(y));
                    let m = choose|m: int| 0 <= m < t.len() && t[m] == y;
                    assert(t1[m] == y);
                }
                if t1.contains(y) && y != x {
                    let m = choose|m: int| 0 <= m < t1.len() && t1[m] == y;
                    assert(t[m] == y);
                    assert(t.to_set().contains(y));
                    let k = choose|k: int| 0 <= k < old_r.len() && old_r[k] == y;
                    if k < j {
                        assert(r@[k] == y);
                    } else if old_r.len() < r@.len() {
                        assert(r@[k + 1] == y);
                    } else {
                        assert(r@[k] == y);
                    }
                }
                if y == x {
                    assert(t1[i as int] == x);
                    if old_r.len() < r@.len() {
                        assert(r@[j as int] == x);
                    } else {
                        assert(r@[j as int] == x);
                    }
                }
            }
            assert(r@.to_set() =~= t1.to_set());
            if v@.no_duplicates() && old_r.len() == r@.len() {
                assert(old_r.contains(x));
                assert(old_r.to_set().contains(x));
                let m = choose|m: int| 0 <= m < t.len() && t[m] == x;
                assert(v@[m] == v@[i as int]);
            }
        }
        i = i + 1;
    }
    assert(v@.take(v@.len() as int) =~= v@);
    proof {
        lemma_canonical_is(r@, v@.to_set());
    }
    r
}

} // verus!
