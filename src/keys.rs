//! The sorted key sequence of a finite level map: it exists, it is unique,
//! and it changes as expected when the best level goes.
use vstd::prelude::*;
use crate::level::PriceLevel;
use crate::store::{ascending_keys, lists_keys_ascending};

verus! {

/// Strictly ascending.
pub open spec fn ascending(s: Seq<u64>) -> bool {
    forall|i: int, j: int| 0 <= i < j < s.len() ==> #[trigger] s[i] < #[trigger] s[j]
}

/// `s` with `x` put in its sorted place (kept once).
pub open spec fn sorted_insert(s: Seq<u64>, x: u64) -> Seq<u64>
    decreases s.len(),
{
    if s.len() == 0 {
        seq![x]
    } else if x < s[0] {
        seq![x] + s
    } else if x == s[0] {
        s
    } else {
        seq![s[0]] + sorted_insert(s.drop_first(), x)
    }
}

proof fn lemma_sorted_insert(s: Seq<u64>, x: u64)
    requires
        ascending(s),
    ensures
        ascending(sorted_insert(s, x)),
        forall|y: u64|
            #![trigger sorted_insert(s, x).contains(y)]
            #![trigger s.contains(y)]
            sorted_insert(s, x).contains(y) <==> (s.contains(y) || y == x),
        sorted_insert(s, x).len() > 0,
        sorted_insert(s, x)[0] == (if s.len() == 0 || x < s[0] { x } else { s[0] }),
    decreases s.len(),
{
    let r = sorted_insert(s, x);
    if s.len() == 0 {
        assert forall|y: u64| r.contains(y) <==> (s.contains(y) || y == x) by {
            if r.contains(y) {
                let k = choose|k: int| 0 <= k < r.len() && r[k] == y;
            }
            if y == x {
                assert(r[0] == x);
            }
        }
    } else if x < s[0] {
        assert forall|i: int, j: int| 0 <= i < j < r.len() implies #[trigger] r[i] < #[trigger] r[j] by {
            if i > 0 {
                assert(r[i] == s[i - 1] && r[j] == s[j - 1]);
            } else {
                assert(r[j] == s[j - 1]);
                if j - 1 > 0 {
                    assert(s[0] < s[j - 1]);
                }
            }
        }
        assert forall|y: u64| r.contains(y) <==> (s.contains(y) || y == x) by {
            if r.contains(y) {
                let k = choose|k: int| 0 <= k < r.len() && r[k] == y;
                if k > 0 {
                    assert(s[k - 1] == y);
                }
            }
            if s.contains(y) {
                let k = choose|k: int| 0 <= k < s.len() && s[k] == y;
                assert(r[k + 1] == y);
            }
            if y == x {
                assert(r[0] == x);
            }
        }
    } else if x == s[0] {
        assert forall|y: u64| r.contains(y) <==> (s.contains(y) || y == x) by {
            if y == x {
                assert(s[0] == x);
            }
        }
    } else {
        let t = s.drop_first();
        assert forall|i: int, j: int| 0 <= i < j < t.len() implies #[trigger] t[i] < #[trigger] t[j] by {
            assert(t[i] == s[i + 1] && t[j] == s[j + 1]);
        }
        lemma_sorted_insert(t, x);
        let rt = sorted_insert(t, x);
        assert(r == seq![s[0]] + rt);
        assert forall|y: u64| rt.contains(y) implies s[0] < y by {
            if t.contains(y) {
                let k = choose|k: int| 0 <= k < t.len() && t[k] == y;
                assert(s[k + 1] == y);
            }
        }
        assert forall|i: int, j: int| 0 <= i < j < r.len() implies #[trigger] r[i] < #[trigger] r[j] by {
            if i > 0 {
                assert(r[i] == rt[i - 1] && r[j] == rt[j - 1]);
            } else {
                assert(r[j] == rt[j - 1]);
                assert(rt.contains(rt[j - 1]));
            }
        }
        assert forall|y: u64| r.contains(y) <==> (s.contains(y) || y == x) by {
            if r.contains(y) {
                let k = choose|k: int| 0 <= k < r.len() && r[k] == y;
                if k > 0 {
                    assert(rt[k - 1] == y);
                    if t.contains(y) {
                        let q = choose|q: int| 0 <= q < t.len() && t[q] == y;
                        assert(s[q + 1] == y);
                    }
                }
            }
            if s.contains(y) {
                let k = choose|k: int| 0 <= k < s.len() && s[k] == y;
                if k > 0 {
                    assert(t[k - 1] == y);
                    assert(t.contains(y));
                    assert(rt.contains(y));
                    let q = choose|q: int| 0 <= q < rt.len() && rt[q] == y;
                    assert(r[q + 1] == y);
                } else {
                    assert(r[0] == y);
                }
            }
            if y == x {
                assert(sorted_insert(t, x).contains(x));
                assert(rt.contains(y));
                let q = choose|q: int| 0 <= q < rt.len() && rt[q] == y;
                assert(r[q + 1] == y);
            }
        }
    }
}

/// A finite set of prices has an ascending listing.
proof fn lemma_sorted_listing(d: Set<u64>) -> (s: Seq<u64>)
    requires
        d.finite(),
    ensures
        ascending(s),
        forall|y: u64| d.contains(y) <==> s.contains(y),
    decreases d.len(),
{
    if d.len() == 0 {
        d.lemma_len0_is_empty();
        Seq::empty()
    } else {
        let x = d.choose();
        assert(d.contains(x)) by {
            if !d.contains(x) {
                d.lemma_len0_is_empty();
            }
        }
        let rest = lemma_sorted_listing(d.remove(x));
        lemma_sorted_insert(rest, x);
        sorted_insert(rest, x)
    }
}

/// Two ascending sequences with the same elements are equal.
pub proof fn lemma_ascending_unique(a: Seq<u64>, b: Seq<u64>)
    requires
        ascending(a),
        ascending(b),
        forall|y: u64| a.contains(y) <==> b.contains(y),
    ensures
        a == b,
    decreases a.len(),
{
    if a.len() == 0 {
        if b.len() > 0 {
            assert(b.contains(b[0]));
        }
        assert(a =~= b);
    } else {
        assert(a.contains(a[0]));
        let j = choose|j: int| 0 <= j < b.len() && b[j] == a[0];
        assert(b.contains(b[0]));
        let i = choose|i: int| 0 <= i < a.len() && a[i] == b[0];
        if i > 0 {
            assert(a[0] < a[i]);
        }
        if j > 0 {
            assert(b[0] < b[j]);
        }
        assert(a[0] == b[0]);
        let a1 = a.drop_first();
        let b1 = b.drop_first();
        assert forall|p: int, q: int| 0 <= p < q < a1.len() implies #[trigger] a1[p] < #[trigger] a1[q] by {
            assert(a1[p] == a[p + 1] && a1[q] == a[q + 1]);
        }
        assert forall|p: int, q: int| 0 <= p < q < b1.len() implies #[trigger] b1[p] < #[trigger] b1[q] by {
            assert(b1[p] == b[p + 1] && b1[q] == b[q + 1]);
        }
        assert forall|y: u64| a1.contains(y) <==> b1.contains(y) by {
            if a1.contains(y) {
                let k = choose|k: int| 0 <= k < a1.len() && a1[k] == y;
                assert(a[k + 1] == y);
                assert(a[0] < a[k + 1]);
                assert(b.contains(y));
                let m = choose|m: int| 0 <= m < b.len() && b[m] == y;
                assert(m != 0);
                assert(b1[m - 1] == y);
            }
            if b1.contains(y) {
                let k = choose|k: int| 0 <= k < b1.len() && b1[k] == y;
                assert(b[k + 1] == y);
                assert(b[0] < b[k + 1]);
                assert(a.contains(y));
                let m = choose|m: int| 0 <= m < a.len() && a[m] == y;
                assert(m != 0);
                assert(a1[m - 1] == y);
            }
        }
        lemma_ascending_unique(a1, b1);
        assert(a =~= b) by {
            assert forall|k: int| 0 <= k < a.len() implies a[k] == b[k] by {
                if k > 0 {
                    assert(a[k] == a1[k - 1] && b[k] == b1[k - 1]);
                }
            }
        }
    }
}

/// The sorted keys of a finite map list its keys in ascending order.
pub proof fn lemma_ascending_keys(m: Map<u64, PriceLevel>)
    requires
        m.dom().finite(),
    ensures
        lists_keys_ascending(m, ascending_keys(m)),
{
    let s = lemma_sorted_listing(m.dom());
    assert(lists_keys_ascending(m, s));
}

/// Any ascending listing of the keys is the sorted keys.
pub proof fn lemma_ascending_keys_is(m: Map<u64, PriceLevel>, s: Seq<u64>)
    requires
        lists_keys_ascending(m, s),
    ensures
        ascending_keys(m) == s,
{
    let k = ascending_keys(m);
    assert(lists_keys_ascending(m, k));
    assert forall|y: u64| k.contains(y) <==> s.contains(y) by {
        assert(m.dom().contains(y) <==> k.contains(y));
        assert(m.dom().contains(y) <==> s.contains(y));
    }
    lemma_ascending_unique(k, s);
}

/// Dropping the lowest key drops the first of the sorted keys; dropping
/// the highest drops the last; keeping the keys keeps them.
pub proof fn lemma_ascending_keys_after(m: Map<u64, PriceLevel>, m2: Map<u64, PriceLevel>)
    requires
        m.dom().finite(),
        ascending_keys(m).len() > 0,
    ensures
        m2.dom() == m.dom().remove(ascending_keys(m)[0]) ==> ascending_keys(m2) == ascending_keys(m).drop_first(),
        m2.dom() == m.dom().remove(ascending_keys(m).last()) ==> ascending_keys(m2) == ascending_keys(m).drop_last(),
        m2.dom() == m.dom() ==> ascending_keys(m2) == ascending_keys(m),
{
    let k = ascending_keys(m);
    lemma_ascending_keys(m);
    if m2.dom() == m.dom().remove(k[0]) {
        let t = k.drop_first();
        assert forall|y: u64| #[trigger] m2.dom().contains(y) <==> t.contains(y) by {
            if t.contains(y) {
                let q = choose|q: int| 0 <= q < t.len() && t[q] == y;
                assert(k[q + 1] == y);
                assert(k[0] < k[q + 1]);
            }
            if m2.dom().contains(y) {
                assert(k.contains(y));
                let q = choose|q: int| 0 <= q < k.len() && k[q] == y;
                assert(q != 0);
                assert(t[q - 1] == y);
            }
        }
        assert forall|i: int, j: int| 0 <= i < j < t.len() implies #[trigger] t[i] < #[trigger] t[j] by {
            assert(t[i] == k[i + 1] && t[j] == k[j + 1]);
        }
        assert(lists_keys_ascending(m2, t));
        lemma_ascending_keys_is(m2, t);
    }
    if m2.dom() == m.dom().remove(k.last()) {
        let t = k.drop_last();
        assert forall|y: u64| #[trigger] m2.dom().contains(y) <==> t.contains(y) by {
            if t.contains(y) {
                let q = choose|q: int| 0 <= q < t.len() && t[q] == y;
                assert(k[q] == y);
                assert(k[q] < k[k.len() - 1]);
            }
            if m2.dom().contains(y) {
                assert(k.contains(y));
                let q = choose|q: int| 0 <= q < k.len() && k[q] == y;
                assert(q != k.len() - 1);
                assert(t[q] == y);
            }
        }
        assert forall|i: int, j: int| 0 <= i < j < t.len() implies #[trigger] t[i] < #[trigger] t[j] by {
            assert(t[i] == k[i] && t[j] == k[j]);
        }
        assert(lists_keys_ascending(m2, t));
        lemma_ascending_keys_is(m2, t);
    }
    if m2.dom() == m.dom() {
        assert(lists_keys_ascending(m2, k));
        lemma_ascending_keys_is(m2, k);
    }
}

} // verus!
