//! Deduplication: every distinct name once, in order, with the positions at
//! which it stands in the input.

use vstd::prelude::*;
use crate::alphabet::valid_name;
use crate::order::{
    lemma_name_lt_asymmetric, lemma_name_lt_total, lemma_name_lt_transitive, lemma_rising_unique,
    name_lt, order_names, strict_order, NameOrder,
};

verus! {

/// Whether input position `i` sorts before input position `j`: by name, and
/// among equal names by position.
pub open spec fn key_lt(names: Seq<Seq<char>>, i: int, j: int) -> bool {
    name_lt(names[i], names[j]) || (names[i] == names[j] && i < j)
}

/// Whether every entry of `order` is a position of an input of `n` names.
pub open spec fn in_range(order: Seq<usize>, n: int) -> bool {
    forall|x: int| 0 <= x < order.len() ==> (#[trigger] order[x]) < n
}

/// Whether `order` rises strictly by `key_lt`.
pub open spec fn sorted_by_key(order: Seq<usize>, names: Seq<Seq<char>>) -> bool {
    forall|x: int, y: int|
        0 <= x < y < order.len() ==> key_lt(
            names,
            (#[trigger] order[x]) as int,
            (#[trigger] order[y]) as int,
        )
}

/// Whether no position occurs twice in `order`.
pub open spec fn distinct(order: Seq<usize>) -> bool {
    forall|x: int, y: int|
        0 <= x < y < order.len() ==> (#[trigger] order[x]) != (#[trigger] order[y])
}

/// Whether every name of the input can be scored.
pub open spec fn all_valid(names: Seq<Seq<char>>) -> bool {
    forall|i: int| 0 <= i < names.len() ==> valid_name(#[trigger] names[i])
}

/// `key_lt` is a strict total order on the positions of an input.
pub proof fn lemma_key_order(names: Seq<Seq<char>>, i: int, j: int, k: int)
    ensures
        !key_lt(names, i, i),
        i != j ==> key_lt(names, i, j) || key_lt(names, j, i),
        key_lt(names, i, j) && key_lt(names, j, k) ==> key_lt(names, i, k),
{
    lemma_name_lt_asymmetric(names[i], names[i]);
    lemma_name_lt_total(names[i], names[j]);
    if key_lt(names, i, j) && key_lt(names, j, k) {
        if name_lt(names[i], names[j]) && name_lt(names[j], names[k]) {
            lemma_name_lt_transitive(names[i], names[j], names[k]);
        }
    }
}

/// Whether input position `i` sorts before input position `j`.
pub fn key_before(names: &Vec<String>, i: usize, j: usize) -> (before: bool)
    requires
        all_valid(names.deep_view()),
        i < names@.len(),
        j < names@.len(),
    ensures
        before == key_lt(names.deep_view(), i as int, j as int),
{
    assert(names.deep_view()[i as int] == names@[i as int]@);
    assert(names.deep_view()[j as int] == names@[j as int]@);
    proof {
        lemma_name_lt_asymmetric(names@[i as int]@, names@[j as int]@);
    }
    match order_names(&names[i], &names[j]) {
        NameOrder::Before => true,
        NameOrder::Same => i < j,
        NameOrder::After => false,
    }
}

/// Merges two sorted runs that share no position into one.
fn merge(names: &Vec<String>, left: &Vec<usize>, right: &Vec<usize>) -> (out: Vec<usize>)
    requires
        all_valid(names.deep_view()),
        in_range(left@, names@.len() as int),
        in_range(right@, names@.len() as int),
        sorted_by_key(left@, names.deep_view()),
        sorted_by_key(right@, names.deep_view()),
        forall|x: int, y: int|
            0 <= x < left@.len() && 0 <= y < right@.len() ==> (#[trigger] left@[x]) != (
            #[trigger] right@[y]),
        left@.len() + right@.len() <= usize::MAX,
    ensures
        out@.len() == left@.len() + right@.len(),
        in_range(out@, names@.len() as int),
        sorted_by_key(out@, names.deep_view()),
        forall|v: usize| out@.contains(v) <==> left@.contains(v) || right@.contains(v),
{
    let ghost all = names.deep_view();
    let mut out: Vec<usize> = Vec::new();
    let mut i: usize = 0;
    let mut j: usize = 0;
    while i < left.len() || j < right.len()
        invariant
            all == names.deep_view(),
            all_valid(all),
            in_range(left@, names@.len() as int),
            in_range(right@, names@.len() as int),
            sorted_by_key(left@, all),
            sorted_by_key(right@, all),
            forall|x: int, y: int|
                0 <= x < left@.len() && 0 <= y < right@.len() ==> (#[trigger] left@[x]) != (
                #[trigger] right@[y]),
            i <= left@.len(),
            j <= right@.len(),
            out@.len() == i + j,
            in_range(out@, names@.len() as int),
            sorted_by_key(out@, all),
            forall|x: int, y: int|
                0 <= x < out@.len() && i <= y < left@.len() ==> key_lt(
                    all,
                    (#[trigger] out@[x]) as int,
                    (#[trigger] left@[y]) as int,
                ),
            forall|x: int, y: int|
                0 <= x < out@.len() && j <= y < right@.len() ==> key_lt(
                    all,
                    (#[trigger] out@[x]) as int,
                    (#[trigger] right@[y]) as int,
                ),
            forall|x: int|
                0 <= x < out@.len() ==> left@.contains(#[trigger] out@[x]) || right@.contains(
                    out@[x],
                ),
            forall|y: int| 0 <= y < i ==> out@.contains(#[trigger] left@[y]),
            forall|y: int| 0 <= y < j ==> out@.contains(#[trigger] right@[y]),
        decreases left@.len() - i + right@.len() - j,
    {
        let take_left: bool = if j >= right.len() {
            true
        } else if i >= left.len() {
            false
        } else {
            key_before(names, left[i], right[j])
        };
        let ghost before = out@;
        if take_left {
            let v: usize = left[i];
            out.push(v);
            proof {
                assert forall|y: int| j <= y < right@.len() implies key_lt(
                    all,
                    v as int,
                    (#[trigger] right@[y]) as int,
                ) by {
                    lemma_key_order(all, v as int, right@[j as int] as int, right@[y] as int);
                }
                assert forall|y: int| i + 1 <= y < left@.len() implies key_lt(
                    all,
                    v as int,
                    (#[trigger] left@[y]) as int,
                ) by {}
                assert(left@.contains(v));
            }
            i += 1;
        } else {
            let v: usize = right[j];
            out.push(v);
            proof {
                assert forall|y: int| i <= y < left@.len() implies key_lt(
                    all,
                    v as int,
                    (#[trigger] left@[y]) as int,
                ) by {
                    lemma_key_order(all, left@[i as int] as int, v as int, 0);
                    lemma_key_order(all, v as int, left@[i as int] as int, left@[y] as int);
                }
                assert forall|y: int| j + 1 <= y < right@.len() implies key_lt(
                    all,
                    v as int,
                    (#[trigger] right@[y]) as int,
                ) by {}
                assert(right@.contains(v));
            }
            j += 1;
        }
        proof {
            let last = before.len() as int;
            assert(out@[last] == out@.last());
            assert forall|x: int| 0 <= x < last implies out@[x] == before[x] by {}
            assert forall|y: int| 0 <= y < i implies out@.contains(#[trigger] left@[y]) by {
                if before.contains(left@[y]) {
                    let x = choose|x: int| 0 <= x < before.len() && before[x] == left@[y];
                    assert(out@[x] == left@[y]);
                } else {
                    assert(out@[last] == left@[y]);
                }
            }
            assert forall|y: int| 0 <= y < j implies out@.contains(#[trigger] right@[y]) by {
                if before.contains(right@[y]) {
                    let x = choose|x: int| 0 <= x < before.len() && before[x] == right@[y];
                    assert(out@[x] == right@[y]);
                } else {
                    assert(out@[last] == right@[y]);
                }
            }
        }
    }
    proof {
        assert forall|v: usize| out@.contains(v) <==> left@.contains(v) || right@.contains(
            v,
        ) by {
            if out@.contains(v) {
                let x = choose|x: int| 0 <= x < out@.len() && out@[x] == v;
                assert(left@.contains(out@[x]) || right@.contains(out@[x]));
            }
            if left@.contains(v) {
                let y = choose|y: int| 0 <= y < left@.len() && left@[y] == v;
                assert(out@.contains(left@[y]));
            }
            if right@.contains(v) {
                let y = choose|y: int| 0 <= y < right@.len() && right@[y] == v;
                assert(out@.contains(right@[y]));
            }
        }
    }
    out
}

/// Sorts positions of the input by name, and among equal names by position.
fn sort_positions(names: &Vec<String>, order: Vec<usize>) -> (sorted: Vec<usize>)
    requires
        all_valid(names.deep_view()),
        in_range(order@, names@.len() as int),
        distinct(order@),
    ensures
        sorted@.len() == order@.len(),
        in_range(sorted@, names@.len() as int),
        sorted_by_key(sorted@, names.deep_view()),
        forall|v: usize| sorted@.contains(v) <==> order@.contains(v),
    decreases order@.len(),
{
    if order.len() <= 1 {
        return order;
    }
    let ghost whole = order@;
    let mut left: Vec<usize> = order;
    let mid: usize = left.len() / 2;
    let right: Vec<usize> = left.split_off(mid);
    proof {
        assert forall|x: int| 0 <= x < left@.len() implies left@[x] == whole[x] by {}
        assert forall|y: int| 0 <= y < right@.len() implies right@[y] == whole[mid + y] by {}
    }
    let sorted_left = sort_positions(names, left);
    let sorted_right = sort_positions(names, right);
    proof {
        assert forall|x: int, y: int|
            0 <= x < sorted_left@.len() && 0 <= y < sorted_right@.len() implies (
        #[trigger] sorted_left@[x]) != (#[trigger] sorted_right@[y]) by {
            let a = sorted_left@[x];
            let b = sorted_right@[y];
            assert(sorted_left@.contains(a));
            assert(sorted_right@.contains(b));
            assert(left@.contains(a));
            assert(right@.contains(b));
            let p = choose|p: int| 0 <= p < left@.len() && left@[p] == a;
            let q = choose|q: int| 0 <= q < right@.len() && right@[q] == b;
            assert(whole[p] == a);
            assert(whole[mid + q] == b);
        }
    }
    let merged = merge(names, &sorted_left, &sorted_right);
    proof {
        assert forall|v: usize| merged@.contains(v) <==> whole.contains(v) by {
            if merged@.contains(v) {
                if sorted_left@.contains(v) {
                    assert(left@.contains(v));
                    let p = choose|p: int| 0 <= p < left@.len() && left@[p] == v;
                    assert(whole[p] == v);
                } else {
                    assert(right@.contains(v));
                    let q = choose|q: int| 0 <= q < right@.len() && right@[q] == v;
                    assert(whole[mid + q] == v);
                }
            }
            if whole.contains(v) {
                let p = choose|p: int| 0 <= p < whole.len() && whole[p] == v;
                if p < mid {
                    assert(left@[p] == v);
                    assert(left@.contains(v));
                } else {
                    assert(right@[p - mid] == v);
                    assert(right@.contains(v));
                }
            }
        }
    }
    merged
}

/// The distinct names of an input, in rising order, each with the positions
/// at which it stands in the input.
pub struct NameGroups {
    /// The distinct names.
    pub names: Vec<String>,
    /// For each distinct name, its positions in the input, rising.
    pub members: Vec<Vec<usize>>,
}

/// Whether `ids` lists, rising, positions of the input that hold `name`, and
/// at least one.
pub open spec fn is_group(ids: Seq<usize>, name: Seq<char>, all: Seq<Seq<char>>) -> bool {
    &&& ids.len() > 0
    &&& forall|x: int, y: int|
        0 <= x < y < ids.len() ==> (#[trigger] ids[x]) < (#[trigger] ids[y])
    &&& forall|x: int|
        0 <= x < ids.len() ==> (#[trigger] ids[x]) < all.len() && all[ids[x] as int] == name
}

/// Whether position `v` of the input stands in one of the groups.
pub open spec fn grouped(members: Seq<Vec<usize>>, v: usize) -> bool {
    exists|r: int| 0 <= r < members.len() && (#[trigger] members[r])@.contains(v)
}

/// Whether `unique` and `members` are the groups of the input `all`: the
/// names rise strictly, every group holds positions of its name, and every
/// position of the input stands in a group.
pub open spec fn is_grouping(
    unique: Seq<Seq<char>>,
    members: Seq<Vec<usize>>,
    all: Seq<Seq<char>>,
) -> bool {
    &&& unique.len() == members.len()
    &&& forall|r: int, s: int|
        0 <= r < s < unique.len() ==> name_lt(#[trigger] unique[r], #[trigger] unique[s])
    &&& forall|r: int|
        0 <= r < members.len() ==> is_group((#[trigger] members[r])@, unique[r], all)
    &&& forall|i: int| 0 <= i < all.len() ==> #[trigger] grouped(members, i as usize)
}

/// An input has one grouping: two that both meet `is_grouping` hold the
/// same names and, for each name, the same positions.
pub proof fn lemma_grouping_unique(
    unique: Seq<Seq<char>>,
    members: Seq<Vec<usize>>,
    other_unique: Seq<Seq<char>>,
    other_members: Seq<Vec<usize>>,
    all: Seq<Seq<char>>,
)
    requires
        is_grouping(unique, members, all),
        is_grouping(other_unique, other_members, all),
    ensures
        unique == other_unique,
        members.len() == other_members.len(),
        forall|r: int| 0 <= r < members.len() ==> (#[trigger] members[r])@ == other_members[r]@,
{
    let by_name = |x: Seq<char>, y: Seq<char>| name_lt(x, y);
    assert(strict_order(by_name)) by {
        assert forall|x: Seq<char>| !#[trigger] by_name(x, x) by {
            lemma_name_lt_asymmetric(x, x);
        }
        assert forall|x: Seq<char>, y: Seq<char>, z: Seq<char>|
            #![trigger by_name(x, y), by_name(y, z)]
            by_name(x, y) && by_name(y, z) implies by_name(x, z) by {
            lemma_name_lt_transitive(x, y, z);
        }
    }
    assert forall|r: int| 0 <= r < unique.len() implies other_unique.contains(
        #[trigger] unique[r],
    ) by {
        lemma_name_is_grouped(unique, members, other_unique, other_members, all, r);
    }
    assert forall|r: int| 0 <= r < other_unique.len() implies unique.contains(
        #[trigger] other_unique[r],
    ) by {
        lemma_name_is_grouped(other_unique, other_members, unique, members, all, r);
    }
    lemma_rising_unique(unique, other_unique, by_name);
    let by_position = |x: usize, y: usize| x < y;
    assert(strict_order(by_position));
    assert forall|r: int| 0 <= r < members.len() implies (#[trigger] members[r])@
        == other_members[r]@ by {
        let ids = members[r]@;
        let other_ids = other_members[r]@;
        assert(is_group(ids, unique[r], all));
        assert(is_group(other_ids, unique[r], all));
        assert forall|x: int| 0 <= x < ids.len() implies other_ids.contains(#[trigger] ids[x]) by {
            lemma_position_is_grouped(other_unique, other_members, all, ids[x], r);
        }
        assert forall|x: int| 0 <= x < other_ids.len() implies ids.contains(
            #[trigger] other_ids[x],
        ) by {
            lemma_position_is_grouped(unique, members, all, other_ids[x], r);
        }
        lemma_rising_unique(ids, other_ids, by_position);
    }
}

/// A position that holds the name of group `r` stands in group `r`.
proof fn lemma_position_is_grouped(
    unique: Seq<Seq<char>>,
    members: Seq<Vec<usize>>,
    all: Seq<Seq<char>>,
    v: usize,
    r: int,
)
    requires
        is_grouping(unique, members, all),
        0 <= r < unique.len(),
        v < all.len(),
        all[v as int] == unique[r],
    ensures
        members[r]@.contains(v),
{
    assert(grouped(members, (v as int) as usize));
    let s = choose|s: int| 0 <= s < members.len() && (#[trigger] members[s])@.contains(v);
    assert(is_group(members[s]@, unique[s], all));
    let x = choose|x: int| 0 <= x < members[s]@.len() && members[s]@[x] == v;
    assert(all[members[s]@[x] as int] == unique[s]);
    lemma_name_lt_asymmetric(unique[r], unique[s]);
    lemma_name_lt_asymmetric(unique[s], unique[r]);
}

/// The name of a group of one grouping is the name of a group of any other.
proof fn lemma_name_is_grouped(
    unique: Seq<Seq<char>>,
    members: Seq<Vec<usize>>,
    other_unique: Seq<Seq<char>>,
    other_members: Seq<Vec<usize>>,
    all: Seq<Seq<char>>,
    r: int,
)
    requires
        is_grouping(unique, members, all),
        is_grouping(other_unique, other_members, all),
        0 <= r < unique.len(),
    ensures
        other_unique.contains(unique[r]),
{
    assert(is_group(members[r]@, unique[r], all));
    let v = members[r]@[0];
    assert(grouped(other_members, (v as int) as usize));
    let s = choose|s: int|
        0 <= s < other_members.len() && (#[trigger] other_members[s])@.contains(v);
    assert(is_group(other_members[s]@, other_unique[s], all));
    let x = choose|x: int| 0 <= x < other_members[s]@.len() && other_members[s]@[x] == v;
    assert(all[other_members[s]@[x] as int] == other_unique[s]);
    assert(other_unique[s] == unique[r]);
}

impl NameGroups {
    /// Whether these are the groups of the input `all`.
    pub open spec fn is_grouping_of(&self, all: Seq<Seq<char>>) -> bool {
        is_grouping(self.names.deep_view(), self.members@, all)
    }

    /// Groups the names of an input.
    pub fn new(names: &Vec<String>) -> (groups: NameGroups)
        requires
            all_valid(names.deep_view()),
        ensures
            groups.is_grouping_of(names.deep_view()),
    {
        let ghost all = names.deep_view();
        let n: usize = names.len();
        let mut positions: Vec<usize> = Vec::new();
        let mut i: usize = 0;
        while i < n
            invariant
                i <= n,
                n == names@.len(),
                positions@.len() == i,
                forall|x: int| 0 <= x < i ==> #[trigger] positions@[x] == x,
            decreases n - i,
        {
            positions.push(i);
            i += 1;
        }
        let ghost unsorted = positions@;
        let order: Vec<usize> = sort_positions(names, positions);
        proof {
            assert forall|v: usize| v < n implies #[trigger] order@.contains(v) by {
                assert(unsorted[v as int] == v);
                assert(unsorted.contains(v));
            }
        }
        let mut unique: Vec<String> = Vec::new();
        let mut members: Vec<Vec<usize>> = Vec::new();
        let mut current: Vec<usize> = Vec::new();
        let mut p: usize = 0;
        while p < n
            invariant
                all == names.deep_view(),
                n == names@.len(),
                order@.len() == n,
                p <= n,
                in_range(order@, n as int),
                sorted_by_key(order@, all),
                unique@.len() == members@.len(),
                forall|r: int, s: int|
                    0 <= r < s < unique@.len() ==> name_lt(
                        (#[trigger] unique@[r])@,
                        (#[trigger] unique@[s])@,
                    ),
                forall|r: int|
                    0 <= r < members@.len() ==> is_group(
                        (#[trigger] members@[r])@,
                        unique@[r]@,
                        all,
                    ),
                p == 0 ==> current@.len() == 0 && unique@.len() == 0,
                p > 0 ==> is_group(current@, all[order@[p - 1] as int], all) && current@.last()
                    == order@[p - 1],
                p > 0 ==> forall|r: int|
                    0 <= r < unique@.len() ==> name_lt(
                        (#[trigger] unique@[r])@,
                        all[order@[p - 1] as int],
                    ),
                forall|x: int|
                    0 <= x < p ==> grouped(members@, #[trigger] order@[x]) || current@.contains(
                        order@[x],
                    ),
                forall|v: usize| v < n ==> #[trigger] order@.contains(v),
            decreases n - p,
        {
            let v: usize = order[p];
            assert(all[v as int] == names@[v as int]@);
            let ghost closed = members@;
            let ghost open = current@;
            if p > 0 {
                let u: usize = order[p - 1];
                assert(all[u as int] == names@[u as int]@);
                assert(key_lt(all, u as int, v as int));
                proof {
                    lemma_name_lt_asymmetric(all[u as int], all[v as int]);
                }
                if !(names[u] == names[v]) {
                    let ghost earlier = unique@;
                    unique.push(names[u].clone());
                    members.push(current);
                    current = Vec::new();
                    proof {
                        let name = all[u as int];
                        assert(unique@[earlier.len() as int]@ == name);
                        assert(members@[closed.len() as int]@ == open);
                        assert forall|r: int| 0 <= r < unique@.len() implies name_lt(
                            (#[trigger] unique@[r])@,
                            all[v as int],
                        ) by {
                            if r < earlier.len() {
                                assert(unique@[r] == earlier[r]);
                                lemma_name_lt_transitive(unique@[r]@, name, all[v as int]);
                            }
                        }
                        assert forall|r: int, s: int|
                            0 <= r < s < unique@.len() implies name_lt(
                            (#[trigger] unique@[r])@,
                            (#[trigger] unique@[s])@,
                        ) by {
                            assert(unique@[r] == earlier[r]);
                            if s < earlier.len() {
                                assert(unique@[s] == earlier[s]);
                            }
                        }
                        assert forall|r: int| 0 <= r < members@.len() implies is_group(
                            (#[trigger] members@[r])@,
                            unique@[r]@,
                            all,
                        ) by {
                            if r < closed.len() {
                                assert(members@[r] == closed[r]);
                                assert(unique@[r] == earlier[r]);
                            }
                        }
                        assert forall|x: int| 0 <= x < p implies grouped(
                            members@,
                            #[trigger] order@[x],
                        ) by {
                            if grouped(closed, order@[x]) {
                                let r = choose|r: int|
                                    0 <= r < closed.len() && (#[trigger] closed[r])@.contains(
                                        order@[x],
                                    );
                                assert(members@[r] == closed[r]);
                            } else {
                                assert(members@[closed.len() as int]@.contains(order@[x]));
                            }
                        }
                    }
                }
            }
            let ghost kept = current@;
            current.push(v);
            proof {
                assert(current@[kept.len() as int] == v);
                assert forall|x: int| 0 <= x < kept.len() implies current@[x] == kept[x] by {}
                assert(current@.contains(v));
                assert forall|x: int| 0 <= x < p + 1 implies grouped(
                    members@,
                    #[trigger] order@[x],
                ) || current@.contains(order@[x]) by {
                    if x < p && !grouped(members@, order@[x]) {
                        assert(kept.contains(order@[x]));
                        let k = choose|k: int| 0 <= k < kept.len() && kept[k] == order@[x];
                        assert(current@[k] == order@[x]);
                    }
                }
            }
            p += 1;
        }
        if n > 0 {
            let u: usize = order[n - 1];
            assert(all[u as int] == names@[u as int]@);
            let ghost earlier = unique@;
            let ghost closed = members@;
            let ghost open = current@;
            unique.push(names[u].clone());
            members.push(current);
            proof {
                assert(unique@[earlier.len() as int]@ == all[u as int]);
                assert(members@[closed.len() as int]@ == open);
                assert forall|r: int, s: int| 0 <= r < s < unique@.len() implies name_lt(
                    (#[trigger] unique@[r])@,
                    (#[trigger] unique@[s])@,
                ) by {
                    assert(unique@[r] == earlier[r]);
                    if s < earlier.len() {
                        assert(unique@[s] == earlier[s]);
                    }
                }
                assert forall|r: int| 0 <= r < members@.len() implies is_group(
                    (#[trigger] members@[r])@,
                    unique@[r]@,
                    all,
                ) by {
                    if r < closed.len() {
                        assert(members@[r] == closed[r]);
                        assert(unique@[r] == earlier[r]);
                    }
                }
                assert forall|i: int| 0 <= i < all.len() implies #[trigger] grouped(
                    members@,
                    i as usize,
                ) by {
                    assert(order@.contains(i as usize));
                    let x = choose|x: int| 0 <= x < order@.len() && order@[x] == i as usize;
                    if grouped(closed, order@[x]) {
                        let r = choose|r: int|
                            0 <= r < closed.len() && (#[trigger] closed[r])@.contains(order@[x]);
                        assert(members@[r] == closed[r]);
                    } else {
                        assert(members@[closed.len() as int]@.contains(order@[x]));
                    }
                }
            }
        }
        proof {
            assert forall|r: int| 0 <= r < unique@.len() implies #[trigger] unique.deep_view()[r]
                == unique@[r]@ by {}
        }
        NameGroups { names: unique, members }
    }
}

} // verus!
