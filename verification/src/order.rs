//! The order of names: lexicographic by the codes of their symbols.

use vstd::prelude::*;
use crate::alphabet::{name_bytes, valid_name};

verus! {

/// Whether `a` and `b` agree on their first `k` positions.
pub open spec fn same_prefix(a: Seq<char>, b: Seq<char>, k: int) -> bool {
    &&& 0 <= k <= a.len()
    &&& k <= b.len()
    &&& forall|i: int| 0 <= i < k ==> a[i] == b[i]
}

/// Whether `a` comes before `b` because of what follows their common prefix
/// of `k` positions: `a` ends there and `b` goes on, or `a` has the smaller
/// symbol there.
pub open spec fn splits_at(a: Seq<char>, b: Seq<char>, k: int) -> bool {
    &&& same_prefix(a, b, k)
    &&& k < b.len()
    &&& (k == a.len() || (a[k] as int) < (b[k] as int))
}

/// Whether `a` comes strictly before `b` in lexicographic order.
pub open spec fn name_lt(a: Seq<char>, b: Seq<char>) -> bool {
    exists|k: int| splits_at(a, b, k)
}

/// How two names stand to each other.
#[derive(Clone, Copy, Debug, PartialEq, Eq, Structural)]
pub enum NameOrder {
    Before,
    Same,
    After,
}

/// No name comes before itself, and of two names at most one comes first.
pub proof fn lemma_name_lt_asymmetric(a: Seq<char>, b: Seq<char>)
    ensures
        !(name_lt(a, b) && name_lt(b, a)),
        !name_lt(a, a),
        name_lt(a, b) ==> a != b,
{
    if name_lt(a, b) && name_lt(b, a) {
        let k = choose|k: int| splits_at(a, b, k);
        let j = choose|j: int| splits_at(b, a, j);
        if k < j {
            assert(b[k] == a[k]);
        } else if j < k {
            assert(a[j] == b[j]);
        }
    }
    if name_lt(a, a) {
        let k = choose|k: int| splits_at(a, a, k);
    }
}

/// The order is transitive.
pub proof fn lemma_name_lt_transitive(a: Seq<char>, b: Seq<char>, c: Seq<char>)
    requires
        name_lt(a, b),
        name_lt(b, c),
    ensures
        name_lt(a, c),
{
    let k = choose|k: int| splits_at(a, b, k);
    let j = choose|j: int| splits_at(b, c, j);
    if k <= j {
        assert(splits_at(a, c, k)) by {
            assert forall|i: int| 0 <= i < k implies a[i] == c[i] by {
                assert(a[i] == b[i]);
                assert(b[i] == c[i]);
            }
            if k < j {
                assert(b[k] == c[k]);
            }
        }
    } else {
        assert(splits_at(a, c, j)) by {
            assert forall|i: int| 0 <= i < j implies a[i] == c[i] by {
                assert(a[i] == b[i]);
                assert(b[i] == c[i]);
            }
            assert(a[j] == b[j]);
        }
    }
}

/// Two names that agree on their first `k` positions are equal or one comes
/// before the other.
proof fn lemma_name_lt_total_from(a: Seq<char>, b: Seq<char>, k: int)
    requires
        same_prefix(a, b, k),
    ensures
        name_lt(a, b) || a == b || name_lt(b, a),
    decreases a.len() - k,
{
    if k == a.len() {
        if k == b.len() {
            assert(a =~= b);
        } else {
            assert(splits_at(a, b, k));
        }
    } else if k == b.len() {
        assert(same_prefix(b, a, k));
        assert(splits_at(b, a, k));
    } else if a[k] == b[k] {
        lemma_name_lt_total_from(a, b, k + 1);
    } else if (a[k] as int) < (b[k] as int) {
        assert(splits_at(a, b, k));
    } else {
        assert(same_prefix(b, a, k));
        assert(splits_at(b, a, k));
    }
}

/// Of two different names one comes before the other.
pub proof fn lemma_name_lt_total(a: Seq<char>, b: Seq<char>)
    ensures
        name_lt(a, b) || a == b || name_lt(b, a),
{
    lemma_name_lt_total_from(a, b, 0);
}

/// Compares two names that can be scored.
pub fn order_names(a: &String, b: &String) -> (order: NameOrder)
    requires
        valid_name(a@),
        valid_name(b@),
    ensures
        order == NameOrder::Before <==> name_lt(a@, b@),
        order == NameOrder::Same <==> a@ == b@,
        order == NameOrder::After <==> name_lt(b@, a@),
{
    let left = name_bytes(a);
    let right = name_bytes(b);
    let mut i: usize = 0;
    proof {
        lemma_name_lt_asymmetric(a@, b@);
        lemma_name_lt_asymmetric(b@, a@);
    }
    while i < left.len() && i < right.len()
        invariant
            left@.len() == a@.len(),
            right@.len() == b@.len(),
            forall|k: int| 0 <= k < a@.len() ==> left@[k] as int == #[trigger] a@[k] as int,
            forall|k: int| 0 <= k < b@.len() ==> right@[k] as int == #[trigger] b@[k] as int,
            same_prefix(a@, b@, i as int),
        decreases left@.len() - i,
    {
        let x: u8 = left[i];
        let y: u8 = right[i];
        assert(x as int == a@[i as int] as int);
        assert(y as int == b@[i as int] as int);
        if x < y {
            assert(splits_at(a@, b@, i as int));
            return NameOrder::Before;
        }
        if y < x {
            assert(same_prefix(b@, a@, i as int));
            assert(splits_at(b@, a@, i as int));
            return NameOrder::After;
        }
        assert(a@[i as int] == b@[i as int]);
        i += 1;
    }
    if i < right.len() {
        assert(splits_at(a@, b@, i as int));
        NameOrder::Before
    } else if i < left.len() {
        assert(same_prefix(b@, a@, i as int));
        assert(splits_at(b@, a@, i as int));
        NameOrder::After
    } else {
        assert(a@ =~= b@);
        NameOrder::Same
    }
}

/// Whether `items` rises strictly by `before`.
pub open spec fn rising<T>(items: Seq<T>, before: spec_fn(T, T) -> bool) -> bool {
    forall|i: int, j: int| 0 <= i < j < items.len() ==> before(#[trigger] items[i], #[trigger] items[j])
}

/// Whether `before` is a strict order: nothing comes before itself, and what
/// comes before something comes before all that follows it.
pub open spec fn strict_order<T>(before: spec_fn(T, T) -> bool) -> bool {
    &&& forall|x: T| !#[trigger] before(x, x)
    &&& forall|x: T, y: T, z: T|
        #![trigger before(x, y), before(y, z)]
        before(x, y) && before(y, z) ==> before(x, z)
}

/// Two sequences that rise strictly by one order and hold the same items
/// agree at every place that the first one has.
pub proof fn lemma_rising_agree<T>(a: Seq<T>, b: Seq<T>, before: spec_fn(T, T) -> bool, k: int)
    requires
        strict_order(before),
        rising(a, before),
        rising(b, before),
        forall|i: int| 0 <= i < a.len() ==> b.contains(#[trigger] a[i]),
        forall|i: int| 0 <= i < b.len() ==> a.contains(#[trigger] b[i]),
        0 <= k < a.len(),
    ensures
        k < b.len(),
        a[k] == b[k],
    decreases k,
{
    assert(b.contains(a[k]));
    let y = choose|y: int| 0 <= y < b.len() && b[y] == a[k];
    if y < k {
        if y < a.len() {
            lemma_rising_agree(a, b, before, y);
            assert(before(a[y], a[k]));
        }
    } else if y > k {
        assert(a.contains(b[k]));
        let x = choose|x: int| 0 <= x < a.len() && a[x] == b[k];
        assert(before(b[k], b[y]));
        if x < k {
            lemma_rising_agree(a, b, before, x);
            assert(before(b[x], b[k]));
        } else if x > k {
            assert(before(a[k], a[x]));
            assert(before(b[y], b[k]));
        }
    }
}

/// Two sequences that rise strictly by one order and hold the same items are
/// the same sequence.
pub proof fn lemma_rising_unique<T>(a: Seq<T>, b: Seq<T>, before: spec_fn(T, T) -> bool)
    requires
        strict_order(before),
        rising(a, before),
        rising(b, before),
        forall|i: int| 0 <= i < a.len() ==> b.contains(#[trigger] a[i]),
        forall|i: int| 0 <= i < b.len() ==> a.contains(#[trigger] b[i]),
    ensures
        a == b,
{
    if a.len() > 0 {
        lemma_rising_agree(a, b, before, a.len() - 1);
    }
    if b.len() > 0 {
        lemma_rising_agree(b, a, before, b.len() - 1);
    }
    assert forall|k: int| 0 <= k < a.len() implies a[k] == b[k] by {
        lemma_rising_agree(a, b, before, k);
    }
    assert(a =~= b);
}

} // verus!
