//! The ordering stage: the surviving lines in caseless order.
//!
//! Each line is ordered by its case-folded form, the forms are compared
//! character by character, and lines with equal forms stay in the order in
//! which they came.

use unicase::UniCase;
use vstd::prelude::*;
use vstd::relations::{sorted_by, total_ordering};

verus! {

/// The case-folded form of a line: what `UniCase::to_folded_case` returns
/// for it.
pub uninterp spec fn folded(line: Seq<char>) -> Seq<char>;

/// `UniCase::new` and `UniCase::to_folded_case`: the case-folded form of
/// `line`, character by character.
#[verifier::external_body]
fn fold_key(line: &str) -> (key: Vec<char>)
    ensures
        key@ == folded(line@),
{
    UniCase::new(line).to_folded_case().chars().collect()
}

/// The number of leading characters that two keys have in common.
pub open spec fn common_prefix(a: Seq<char>, b: Seq<char>) -> nat
    decreases a.len(),
{
    if a.len() == 0 || b.len() == 0 || a[0] != b[0] {
        0
    } else {
        1 + common_prefix(a.drop_first(), b.drop_first())
    }
}

/// Whether key `a` comes strictly before key `b`: where they first differ,
/// `a` has the smaller character, or `a` has ended and `b` has not.
pub open spec fn key_before(a: Seq<char>, b: Seq<char>) -> bool {
    let k = common_prefix(a, b) as int;
    k < b.len() && (k == a.len() || (a[k] as u32) < (b[k] as u32))
}

/// `common_prefix` is the first position at which the keys differ or one of
/// them ends.
pub proof fn lemma_common_prefix(a: Seq<char>, b: Seq<char>, n: int)
    requires
        0 <= n <= a.len(),
        n <= b.len(),
        forall|i: int| 0 <= i < n ==> a[i] == b[i],
        n == a.len() || n == b.len() || a[n] != b[n],
    ensures
        common_prefix(a, b) == n,
    decreases n,
{
    if n > 0 {
        lemma_common_prefix(a.drop_first(), b.drop_first(), n - 1);
    }
}

/// What `common_prefix` returns: the keys agree below it, and differ at it
/// unless one of them ends there.
pub proof fn lemma_common_prefix_is_common(a: Seq<char>, b: Seq<char>)
    ensures
        common_prefix(a, b) <= a.len(),
        common_prefix(a, b) <= b.len(),
        forall|i: int| 0 <= i < common_prefix(a, b) ==> a[i] == b[i],
        common_prefix(a, b) == a.len() || common_prefix(a, b) == b.len() || a[common_prefix(
            a,
            b,
        ) as int] != b[common_prefix(a, b) as int],
    decreases a.len(),
{
    if a.len() == 0 || b.len() == 0 || a[0] != b[0] {
    } else {
        lemma_common_prefix_is_common(a.drop_first(), b.drop_first());
        let k = common_prefix(a.drop_first(), b.drop_first());
        assert forall|i: int| 0 <= i < k + 1 implies a[i] == b[i] by {
            if i > 0 {
                assert(a.drop_first()[i - 1] == b.drop_first()[i - 1]);
            }
        }
        if k < a.len() - 1 && k < b.len() - 1 {
            assert(a.drop_first()[k as int] != b.drop_first()[k as int]);
        }
    }
}

/// No key comes before itself.
pub proof fn lemma_key_before_irreflexive(a: Seq<char>)
    ensures
        !key_before(a, a),
{
    lemma_common_prefix(a, a, a.len() as int);
}

/// Of two keys that differ, one comes before the other, and never both.
pub proof fn lemma_key_before_total(a: Seq<char>, b: Seq<char>)
    ensures
        a != b ==> key_before(a, b) || key_before(b, a),
        !(key_before(a, b) && key_before(b, a)),
{
    lemma_common_prefix_is_common(a, b);
    let k = common_prefix(a, b) as int;
    lemma_common_prefix(b, a, k);
    if k == a.len() && k == b.len() {
        assert(a =~= b);
    } else if k < a.len() && k < b.len() {
        vstd::utf8::char_u32_cast(a[k], a[k] as u32);
        vstd::utf8::char_u32_cast(b[k], b[k] as u32);
    }
}

/// `key_before` is transitive.
pub proof fn lemma_key_before_transitive(a: Seq<char>, b: Seq<char>, c: Seq<char>)
    requires
        key_before(a, b),
        key_before(b, c),
    ensures
        key_before(a, c),
{
    lemma_common_prefix_is_common(a, b);
    lemma_common_prefix_is_common(b, c);
    let ab = common_prefix(a, b) as int;
    let bc = common_prefix(b, c) as int;
    let n = if ab <= bc {
        ab
    } else {
        bc
    };
    lemma_common_prefix(a, c, n);
}

/// How two keys stand to each other.
#[derive(Clone, Copy, Debug, PartialEq, Eq, Structural)]
pub enum Rank {
    /// The first key comes before the second.
    Before,
    /// The keys are equal.
    Same,
    /// The first key comes after the second.
    After,
}

/// Compares two keys character by character.
pub fn compare_keys(a: &Vec<char>, b: &Vec<char>) -> (rank: Rank)
    ensures
        rank is Before <==> key_before(a@, b@),
        rank is Same <==> a@ == b@,
        rank is After <==> key_before(b@, a@),
{
    let mut i: usize = 0;
    while i < a.len() && i < b.len() && a[i] == b[i]
        invariant
            i <= a.len(),
            i <= b.len(),
            forall|j: int| 0 <= j < i ==> a@[j] == b@[j],
        decreases a.len() - i,
    {
        i += 1;
    }
    proof {
        lemma_common_prefix(a@, b@, i as int);
        lemma_common_prefix(b@, a@, i as int);
        lemma_key_before_total(a@, b@);
        lemma_key_before_irreflexive(a@);
    }
    if i == a.len() {
        if i == b.len() {
            Rank::Same
        } else {
            Rank::Before
        }
    } else if i == b.len() {
        Rank::After
    } else if (a[i] as u32) < (b[i] as u32) {
        Rank::Before
    } else {
        Rank::After
    }
}

/// Whether the line at position `i` ranks at or before the line at position
/// `j`: its key comes first, or the keys are equal and `i` is not the later
/// position.
pub open spec fn rank_le(keys: Seq<Seq<char>>, i: int, j: int) -> bool {
    key_before(keys[i], keys[j]) || (keys[i] == keys[j] && i <= j)
}

/// `rank_le` as a relation on positions.
pub open spec fn ranking(keys: Seq<Seq<char>>) -> spec_fn(int, int) -> bool {
    |i: int, j: int| rank_le(keys, i, j)
}

/// The ranking of positions is a total order.
pub proof fn lemma_ranking_total(keys: Seq<Seq<char>>)
    ensures
        total_ordering(ranking(keys)),
{
    let r = ranking(keys);
    assert forall|x: int| #[trigger] r(x, x) by {}
    assert forall|x: int, y: int| #[trigger] r(x, y) && #[trigger] r(y, x) implies x == y by {
        lemma_key_before_total(keys[x], keys[y]);
        lemma_key_before_irreflexive(keys[x]);
    }
    assert forall|x: int, y: int, z: int| #[trigger] r(x, y) && #[trigger] r(y, z) implies r(
        x,
        z,
    ) by {
        if key_before(keys[x], keys[y]) && key_before(keys[y], keys[z]) {
            lemma_key_before_transitive(keys[x], keys[y], keys[z]);
        }
    }
    assert forall|x: int, y: int| #[trigger] r(x, y) || #[trigger] r(y, x) by {
        lemma_key_before_total(keys[x], keys[y]);
    }
}

/// The ranking as a relation on the positions that a vector holds.
spec fn ranking_at(keys: Seq<Seq<char>>) -> spec_fn(usize, usize) -> bool {
    |i: usize, j: usize| rank_le(keys, i as int, j as int)
}

/// The ranking is a total order on the positions that a vector holds too.
proof fn lemma_ranking_at_total(keys: Seq<Seq<char>>)
    ensures
        total_ordering(ranking_at(keys)),
{
    let r = ranking(keys);
    let at = ranking_at(keys);
    lemma_ranking_total(keys);
    assert forall|x: usize| #[trigger] at(x, x) by {
        assert(r(x as int, x as int));
    }
    assert forall|x: usize, y: usize| #[trigger] at(x, y) && #[trigger] at(y, x) implies x
        == y by {
        assert(r(x as int, y as int) && r(y as int, x as int));
    }
    assert forall|x: usize, y: usize, z: usize| #[trigger] at(x, y) && #[trigger] at(
        y,
        z,
    ) implies at(x, z) by {
        assert(r(x as int, y as int) && r(y as int, z as int));
        assert(r(x as int, z as int));
    }
    assert forall|x: usize, y: usize| #[trigger] at(x, y) || #[trigger] at(y, x) by {
        assert(r(x as int, y as int) || r(y as int, x as int));
    }
}

/// The keys that a vector of keys stands for.
pub open spec fn key_views(keys: Seq<Vec<char>>) -> Seq<Seq<char>> {
    keys.map_values(|key: Vec<char>| key@)
}

/// Whether position `i` ranks at or before position `j`.
fn ranks_le(keys: &Vec<Vec<char>>, i: usize, j: usize) -> (le: bool)
    requires
        i < keys.len(),
        j < keys.len(),
    ensures
        le == rank_le(key_views(keys@), i as int, j as int),
{
    proof {
        lemma_key_before_total(keys@[i as int]@, keys@[j as int]@);
        lemma_key_before_irreflexive(keys@[i as int]@);
    }
    match compare_keys(&keys[i], &keys[j]) {
        Rank::Before => true,
        Rank::Same => i <= j,
        Rank::After => false,
    }
}

/// Appending one item to a run and to either of the two runs that it was made
/// of keeps the items the same.
proof fn lemma_push_keeps_items(whole: Seq<usize>, a: Seq<usize>, b: Seq<usize>, p: usize)
    requires
        whole.to_multiset() == a.to_multiset().add(b.to_multiset()),
    ensures
        whole.push(p).to_multiset() == a.push(p).to_multiset().add(b.to_multiset()),
        whole.push(p).to_multiset() == a.to_multiset().add(b.push(p).to_multiset()),
{
    broadcast use vstd::multiset::group_multiset_axioms;

    vstd::seq_lib::to_multiset_build(whole, p);
    vstd::seq_lib::to_multiset_build(a, p);
    vstd::seq_lib::to_multiset_build(b, p);
    assert(whole.to_multiset().insert(p) =~= a.to_multiset().insert(p).add(b.to_multiset()));
    assert(whole.to_multiset().insert(p) =~= a.to_multiset().add(b.to_multiset().insert(p)));
}

/// Whether every position of `run` ranks at or before `x`.
spec fn all_rank_le(keys: Seq<Seq<char>>, run: Seq<usize>, x: usize) -> bool {
    forall|m: int| 0 <= m < run.len() ==> #[trigger] ranking_at(keys)(run[m], x)
}

/// A ranked run stays ranked when a position is appended that no position of
/// the run ranks after, and whatever the appended position ranks at or before
/// the whole run then does.
proof fn lemma_append_ranked(keys: Seq<Seq<char>>, run: Seq<usize>, x: usize, next: usize)
    requires
        sorted_by(run, ranking_at(keys)),
        all_rank_le(keys, run, x),
        ranking_at(keys)(x, next),
        total_ordering(ranking_at(keys)),
    ensures
        sorted_by(run.push(x), ranking_at(keys)),
        all_rank_le(keys, run.push(x), next),
{
    let r = ranking_at(keys);
    let longer = run.push(x);
    assert forall|a: int, b: int| 0 <= a < b < longer.len() implies #[trigger] r(
        longer[a],
        longer[b],
    ) by {
        if b < run.len() {
            assert(r(run[a], run[b]));
        } else {
            assert(r(run[a], x));
        }
    }
    assert forall|m: int| 0 <= m < longer.len() implies #[trigger] r(longer[m], next) by {
        if m < run.len() {
            assert(r(run[m], x));
        }
    }
}

/// Merges two ranked runs of positions into one.
fn merge(keys: &Vec<Vec<char>>, left: &Vec<usize>, right: &Vec<usize>) -> (merged: Vec<usize>)
    requires
        forall|k: int| 0 <= k < left.len() ==> left[k] < keys.len(),
        forall|k: int| 0 <= k < right.len() ==> right[k] < keys.len(),
        sorted_by(left@, ranking_at(key_views(keys@))),
        sorted_by(right@, ranking_at(key_views(keys@))),
    ensures
        merged@.to_multiset() == left@.to_multiset().add(right@.to_multiset()),
        sorted_by(merged@, ranking_at(key_views(keys@))),
        forall|k: int| 0 <= k < merged.len() ==> merged[k] < keys.len(),
{
    let ghost forms = key_views(keys@);
    let ghost r = ranking_at(forms);
    let mut merged: Vec<usize> = Vec::new();
    let mut i: usize = 0;
    let mut j: usize = 0;
    proof {
        lemma_ranking_at_total(forms);
        assert(left@.take(0) =~= Seq::<usize>::empty());
        assert(right@.take(0) =~= Seq::<usize>::empty());
        assert(merged@.to_multiset() =~= left@.take(0).to_multiset().add(
            right@.take(0).to_multiset(),
        )) by {
            broadcast use vstd::seq_lib::group_to_multiset_ensures;
            broadcast use vstd::multiset::group_multiset_axioms;

        }
    }
    while i < left.len() || j < right.len()
        invariant
            i <= left.len(),
            j <= right.len(),
            forms == key_views(keys@),
            r == ranking_at(forms),
            total_ordering(r),
            forall|k: int| 0 <= k < left.len() ==> left[k] < keys.len(),
            forall|k: int| 0 <= k < right.len() ==> right[k] < keys.len(),
            sorted_by(left@, r),
            sorted_by(right@, r),
            merged@.to_multiset() == left@.take(i as int).to_multiset().add(
                right@.take(j as int).to_multiset(),
            ),
            sorted_by(merged@, r),
            forall|k: int| 0 <= k < merged.len() ==> merged[k] < keys.len(),
            i < left.len() ==> all_rank_le(forms, merged@, left[i as int]),
            j < right.len() ==> all_rank_le(forms, merged@, right[j as int]),
        decreases left.len() - i + (right.len() - j),
    {
        let ghost before = merged@;
        let from_left = if i >= left.len() {
            false
        } else if j >= right.len() {
            true
        } else {
            ranks_le(keys, left[i], right[j])
        };
        if from_left {
            let p = left[i];
            merged.push(p);
            proof {
                assert(merged@ =~= before.push(p));
                assert(left@.take(i + 1) =~= left@.take(i as int).push(p));
                lemma_push_keeps_items(before, left@.take(i as int), right@.take(j as int), p);
                if i + 1 < left.len() {
                    assert(r(left[i as int], left[i + 1]));
                    lemma_append_ranked(forms, before, p, left[i + 1]);
                }
                if j < right.len() {
                    lemma_append_ranked(forms, before, p, right[j as int]);
                }
                lemma_append_ranked(forms, before, p, p);
            }
            i += 1;
        } else {
            let p = right[j];
            merged.push(p);
            proof {
                assert(merged@ =~= before.push(p));
                assert(right@.take(j + 1) =~= right@.take(j as int).push(p));
                lemma_push_keeps_items(before, left@.take(i as int), right@.take(j as int), p);
                if j + 1 < right.len() {
                    assert(r(right[j as int], right[j + 1]));
                    lemma_append_ranked(forms, before, p, right[j + 1]);
                }
                if i < left.len() {
                    assert(r(left[i as int], p) || r(p, left[i as int]));
                    lemma_append_ranked(forms, before, p, left[i as int]);
                }
                lemma_append_ranked(forms, before, p, p);
            }
            j += 1;
        }
    }
    assert(left@.take(left.len() as int) =~= left@);
    assert(right@.take(right.len() as int) =~= right@);
    merged
}

/// Ranks a run of positions by merge sort.
fn rank_positions(keys: &Vec<Vec<char>>, items: Vec<usize>) -> (ranked: Vec<usize>)
    requires
        forall|k: int| 0 <= k < items.len() ==> items[k] < keys.len(),
    ensures
        ranked@.to_multiset() == items@.to_multiset(),
        sorted_by(ranked@, ranking_at(key_views(keys@))),
        forall|k: int| 0 <= k < ranked.len() ==> ranked[k] < keys.len(),
    decreases items.len(),
{
    if items.len() <= 1 {
        return items;
    }
    let ghost whole = items@;
    let mut left = items;
    let half = left.len() / 2;
    let right = left.split_off(half);
    proof {
        assert(whole =~= left@ + right@);
        vstd::seq_lib::lemma_multiset_commutative(left@, right@);
    }
    let left = rank_positions(keys, left);
    let right = rank_positions(keys, right);
    merge(keys, &left, &right)
}

/// The positions below `n`, in ascending order.
pub open spec fn positions(n: nat) -> Seq<int> {
    Seq::new(n, |i: int| i)
}

/// The positions of the given keys in ranked order: by key, and among equal
/// keys by position.
pub open spec fn stable_order(keys: Seq<Seq<char>>) -> Seq<int> {
    positions(keys.len()).sort_by(ranking(keys))
}

/// The lines in caseless order: ordered by their case-folded forms, lines
/// with equal forms in the order in which they came.
pub open spec fn caseless_sorted(lines: Seq<Seq<char>>) -> Seq<Seq<char>> {
    let order = stable_order(lines.map_values(|line: Seq<char>| folded(line)));
    Seq::new(lines.len(), |k: int| lines[order[k]])
}

/// The positions of the keys in ranked order: by key, and among equal keys by
/// position.
pub fn rank_keys(keys: &Vec<Vec<char>>) -> (order: Vec<usize>)
    ensures
        order@.map_values(|p: usize| p as int) == stable_order(key_views(keys@)),
{
    let n = keys.len();
    let ghost forms = key_views(keys@);
    let mut items: Vec<usize> = Vec::new();
    for i in 0..n
        invariant
            items.len() == i,
            forall|k: int| 0 <= k < i ==> #[trigger] items@[k] == k,
    {
        items.push(i);
    }
    let ghost given = items@;
    let order = rank_positions(keys, items);
    proof {
        let place = |p: usize| p as int;
        let ranked = order@.map_values(place);
        lemma_same_items_mapped(order@, given, place);
        assert(given.map_values(place) =~= positions(n as nat));
        assert forall|a: int, b: int| 0 <= a < b < ranked.len() implies #[trigger] ranking(forms)(
            ranked[a],
            ranked[b],
        ) by {
            assert(ranking_at(forms)(order@[a], order@[b]));
        }
        lemma_stable_order_unique(forms, ranked);
    }
    order
}

/// Puts the lines in caseless order. Lines whose case-folded forms are equal
/// keep the order in which they came.
pub fn sort_lines<'a>(lines: &Vec<&'a str>) -> (sorted: Vec<&'a str>)
    ensures
        sorted.deep_view() == caseless_sorted(lines.deep_view()),
{
    let n = lines.len();
    let ghost all = lines.deep_view();
    let ghost forms = all.map_values(|line: Seq<char>| folded(line));
    let mut keys: Vec<Vec<char>> = Vec::new();
    for i in 0..n
        invariant
            n == lines.len(),
            all == lines.deep_view(),
            forms == all.map_values(|line: Seq<char>| folded(line)),
            keys.len() == i,
            forall|k: int| 0 <= k < i ==> #[trigger] keys@[k]@ == forms[k],
    {
        keys.push(fold_key(lines[i]));
    }
    assert(key_views(keys@) =~= forms);
    let order = rank_keys(&keys);
    proof {
        lemma_stable_order_is_rearrangement(forms);
        let ranked = order@.map_values(|p: usize| p as int);
        assert(order.len() == ranked.len());
        assert forall|m: int| 0 <= m < n implies order[m] == stable_order(forms)[m] by {
            assert(ranked[m] == order[m] as int);
        }
    }
    let mut sorted: Vec<&'a str> = Vec::new();
    for k in 0..n
        invariant
            n == lines.len(),
            order.len() == n,
            all == lines.deep_view(),
            forall|m: int| 0 <= m < n ==> order[m] < n,
            sorted.len() == k,
            forall|m: int| 0 <= m < k ==> #[trigger] sorted@[m]@ == all[order[m] as int],
    {
        sorted.push(lines[order[k]]);
    }
    assert(sorted.deep_view() =~= caseless_sorted(all));
    sorted
}

/// The ranked order holds each position of the keys once.
pub proof fn lemma_stable_order_is_rearrangement(keys: Seq<Seq<char>>)
    ensures
        stable_order(keys).len() == keys.len(),
        stable_order(keys).no_duplicates(),
        forall|k: int| 0 <= k < keys.len() ==> 0 <= #[trigger] stable_order(keys)[k] < keys.len(),
        sorted_by(stable_order(keys), ranking(keys)),
{
    broadcast use vstd::seq_lib::group_to_multiset_ensures;

    let places = positions(keys.len());
    let order = stable_order(keys);
    lemma_ranking_total(keys);
    places.lemma_sort_by_ensures(ranking(keys));
    vstd::seq_lib::to_multiset_len(order);
    vstd::seq_lib::to_multiset_len(places);
    assert forall|k: int| 0 <= k < order.len() implies 0 <= #[trigger] order[k] < keys.len() by {
        assert(order.contains(order[k]));
        assert(places.contains(order[k]));
    }
    assert(order.no_duplicates()) by {
        places.lemma_multiset_has_no_duplicates();
        order.lemma_multiset_has_no_duplicates_conv();
    }
}

/// The ranked order is the only one: any arrangement of the positions in
/// which each position ranks at or before those behind it is `stable_order`.
pub proof fn lemma_stable_order_unique(keys: Seq<Seq<char>>, order: Seq<int>)
    requires
        order.to_multiset() == positions(keys.len()).to_multiset(),
        sorted_by(order, ranking(keys)),
    ensures
        order == stable_order(keys),
{
    lemma_ranking_total(keys);
    positions(keys.len()).lemma_sort_by_ensures(ranking(keys));
    vstd::seq_lib::lemma_sorted_unique(order, stable_order(keys), ranking(keys));
}

/// Two sequences with the same items still have the same items when each item
/// is replaced by what `f` makes of it.
proof fn lemma_same_items_mapped<A, B>(s: Seq<A>, t: Seq<A>, f: spec_fn(A) -> B)
    requires
        s.to_multiset() == t.to_multiset(),
    ensures
        s.map_values(f).to_multiset() == t.map_values(f).to_multiset(),
    decreases s.len(),
{
    broadcast use vstd::seq_lib::group_to_multiset_ensures;
    broadcast use vstd::multiset::group_multiset_axioms;

    vstd::seq_lib::to_multiset_len(s);
    vstd::seq_lib::to_multiset_len(t);
    if s.len() == 0 {
        assert(s.map_values(f) =~= t.map_values(f));
    } else {
        let x = s.last();
        let head = s.drop_last();
        assert(s =~= head.push(x));
        assert(s.to_multiset().count(x) > 0);
        assert(t.contains(x));
        let i = choose|i: int| 0 <= i < t.len() && t[i] == x;
        let rest = t.remove(i);
        assert(head.to_multiset() =~= rest.to_multiset()) by {
            assert(head.push(x).to_multiset() == head.to_multiset().insert(x));
            assert(rest.to_multiset() == t.to_multiset().remove(x));
        }
        lemma_same_items_mapped(head, rest, f);
        assert(s.map_values(f) =~= head.map_values(f).push(f(x)));
        assert(t.map_values(f) =~= rest.map_values(f).insert(i, f(x)));
        vstd::seq_lib::to_multiset_insert(rest.map_values(f), i, f(x));
    }
}

/// Sorting rearranges and neither adds nor drops a line; the output is in
/// caseless order, no line's folded form coming before that of a line ahead
/// of it; and the order is stable: the lines are those at the positions
/// `stable_order` gives, each position once, and of two lines whose folded
/// forms are equal the one that came first stays first.
pub proof fn lemma_caseless_sorted(lines: Seq<Seq<char>>)
    ensures
        caseless_sorted(lines).to_multiset() == lines.to_multiset(),
        forall|a: int, b: int|
            0 <= a < b < lines.len() ==> !key_before(
                folded(#[trigger] caseless_sorted(lines)[b]),
                folded(#[trigger] caseless_sorted(lines)[a]),
            ),
        ({
            let order = stable_order(lines.map_values(|line: Seq<char>| folded(line)));
            &&& order.len() == lines.len()
            &&& order.no_duplicates()
            &&& forall|k: int|
                0 <= k < order.len() ==> 0 <= #[trigger] order[k] < lines.len() && caseless_sorted(
                    lines,
                )[k] == lines[order[k]]
            &&& forall|a: int, b: int|
                0 <= a < b < order.len() && folded(lines[order[a]]) == folded(lines[order[b]])
                    ==> #[trigger] order[a] < #[trigger] order[b]
        }),
{
    let n = lines.len();
    let forms = lines.map_values(|line: Seq<char>| folded(line));
    let places = positions(n);
    let order = stable_order(forms);
    let r = ranking(forms);
    let out = caseless_sorted(lines);
    lemma_ranking_total(forms);
    lemma_stable_order_is_rearrangement(forms);
    places.lemma_sort_by_ensures(r);
    assert forall|a: int, b: int| 0 <= a < b < n implies !key_before(
        folded(#[trigger] out[b]),
        folded(#[trigger] out[a]),
    ) by {
        assert(r(order[a], order[b]));
        lemma_key_before_total(forms[order[a]], forms[order[b]]);
        lemma_key_before_irreflexive(forms[order[a]]);
    }
    assert forall|a: int, b: int|
        0 <= a < b < order.len() && folded(lines[order[a]]) == folded(
            lines[order[b]],
        ) implies #[trigger] order[a] < #[trigger] order[b] by {
        assert(r(order[a], order[b]));
        lemma_key_before_irreflexive(forms[order[a]]);
    }
    let line_at = |p: int| lines[p];
    lemma_same_items_mapped(order, places, line_at);
    assert(out =~= order.map_values(line_at));
    assert(lines =~= places.map_values(line_at));
}

} // verus!
