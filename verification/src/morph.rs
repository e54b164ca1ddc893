//! Merging overlapping edits of one shape inside a parallel block.
//!
//! Edits are grouped by the key of the state they share ([`group_by_key`]);
//! [`merge_plan`] then finds, for each group, the common endpoints.
//! Edits of the same text (or of the same highlight set) in one parallel
//! block share a stage cell, so each must morph between the same two
//! endpoints: the state before the whole group and the state after it. The
//! edits form a chain `old → new` (each "to" is the "from" of the next), so
//! the base is the single "from" that no edit leads to, and the final is the
//! single "to" that no edit leaves from.

use vstd::prelude::*;

use crate::text::TextPos;

verus! {

/// A value whose equality is decided by its view.
pub trait SameValue: View + Sized {
    fn same_value(&self, other: &Self) -> (r: bool)
        ensures
            r == (self@ == other@);
}

impl SameValue for String {
    fn same_value(&self, other: &Self) -> (r: bool) {
        self.eq(other)
    }
}

impl SameValue for Vec<(TextPos, TextPos)> {
    fn same_value(&self, other: &Self) -> (r: bool) {
        if self.len() != other.len() {
            return false;
        }
        let mut i: usize = 0;
        while i < self.len()
            invariant
                self@.len() == other@.len(),
                0 <= i <= self@.len(),
                forall|k: int| 0 <= k < i ==> #[trigger] self@[k] == other@[k],
            decreases self@.len() - i,
        {
            let x = self[i];
            let y = other[i];
            if !(x.0 == y.0 && x.1 == y.1) {
                return false;
            }
            i += 1;
        }
        assert(self@ =~= other@);
        true
    }
}

impl<'a, T: SameValue> SameValue for &'a T {
    fn same_value(&self, other: &Self) -> (r: bool) {
        (**self).same_value(*other)
    }
}

/// The views of a vector's items.
pub open spec fn views<T: View>(xs: Seq<T>) -> Seq<T::V> {
    xs.map_values(|x: T| x@)
}

/// How many items of `xs` do not occur in `ys`.
pub open spec fn outsider_count<V>(xs: Seq<V>, ys: Seq<V>) -> nat
    decreases xs.len(),
{
    if xs.len() == 0 {
        0
    } else {
        outsider_count(xs.drop_last(), ys) + if ys.contains(xs.last()) {
            0nat
        } else {
            1nat
        }
    }
}

/// Whether `ys` holds an item whose view is `v`, by [`SameValue`].
fn contains_value<T: SameValue>(ys: &Vec<T>, x: &T) -> (r: bool)
    ensures
        r == views(ys@).contains(x@),
{
    let mut j: usize = 0;
    while j < ys.len()
        invariant
            0 <= j <= ys@.len(),
            forall|k: int| 0 <= k < j ==> ys@[k]@ != x@,
        decreases ys@.len() - j,
    {
        if ys[j].same_value(x) {
            assert(views(ys@)[j as int] == x@);
            return true;
        }
        j += 1;
    }
    assert forall|k: int| 0 <= k < views(ys@).len() implies views(ys@)[k] != x@ by {
        assert(views(ys@)[k] == ys@[k]@);
    }
    false
}

/// The index of the single item of `xs` absent from `ys`, when exactly one
/// item is absent.
fn single_outsider<T: SameValue>(xs: &Vec<T>, ys: &Vec<T>) -> (r: Option<usize>)
    ensures
        r is Some <==> outsider_count(views(xs@), views(ys@)) == 1,
        r matches Some(i) ==> i < xs@.len() && !views(ys@).contains(xs@[i as int]@),
{
    let ghost xv = views(xs@);
    let ghost yv = views(ys@);
    let mut found: Option<usize> = None;
    let mut count: usize = 0;
    let mut i: usize = 0;
    while i < xs.len()
        invariant
            xv == views(xs@),
            yv == views(ys@),
            0 <= i <= xs@.len(),
            count == outsider_count(xv.take(i as int), yv),
            count <= i,
            count == 0 <==> found is None,
            found matches Some(k) ==> k < i && !yv.contains(xs@[k as int]@),
        decreases xs@.len() - i,
    {
        assert(xv.take(i + 1).drop_last() == xv.take(i as int));
        assert(xv.take(i + 1).last() == xs@[i as int]@);
        if !contains_value(ys, &xs[i]) {
            count += 1;
            if found.is_none() {
                found = Some(i);
            }
        }
        i += 1;
    }
    assert(xv.take(xs@.len() as int) == xv);
    if count == 1 {
        found
    } else {
        None
    }
}

/// The common endpoints of a group of chained edits with endpoints
/// `olds[k] → news[k]`: the index of the base (the single "from" that is no
/// edit's "to") and of the final (the single "to" that is no edit's "from").
/// `None` when the chain does not converge on exactly one of each.
pub fn chain_endpoints<T: SameValue>(olds: &Vec<T>, news: &Vec<T>) -> (r: Option<(usize, usize)>)
    ensures
        r is Some <==> (outsider_count(views(olds@), views(news@)) == 1 && outsider_count(
            views(news@),
            views(olds@),
        ) == 1),
        r matches Some((i, j)) ==> i < olds@.len() && j < news@.len() && !views(news@).contains(
            olds@[i as int]@,
        ) && !views(olds@).contains(news@[j as int]@),
{
    let base = single_outsider(olds, news);
    let fin = single_outsider(news, olds);
    match (base, fin) {
        (Some(i), Some(j)) => Some((i, j)),
        _ => None,
    }
}

/// The indices of the edits whose key is `k`, in order.
pub open spec fn key_indices(keys: Seq<Option<usize>>, k: usize) -> Seq<usize>
    decreases keys.len(),
{
    if keys.len() == 0 {
        Seq::empty()
    } else {
        let rest = key_indices(keys.drop_last(), k);
        if keys.last() == Some(k) {
            rest.push((keys.len() - 1) as usize)
        } else {
            rest
        }
    }
}

/// The keys that occur, each once, in the order they first occur.
pub open spec fn first_seen_keys(keys: Seq<Option<usize>>) -> Seq<usize>
    decreases keys.len(),
{
    if keys.len() == 0 {
        Seq::empty()
    } else {
        let rest = first_seen_keys(keys.drop_last());
        match keys.last() {
            Some(k) => if rest.contains(k) {
                rest
            } else {
                rest.push(k)
            },
            None => rest,
        }
    }
}

/// The groups of edits by key: one per key, in the order the keys first
/// occur, each with the indices of its edits in order. Edits without a key
/// are in no group.
pub open spec fn grouping(keys: Seq<Option<usize>>) -> Seq<(usize, Seq<usize>)> {
    first_seen_keys(keys).map_values(|k: usize| (k, key_indices(keys, k)))
}

/// The groups as plain sequences.
pub open spec fn group_views(groups: Seq<(usize, Vec<usize>)>) -> Seq<(usize, Seq<usize>)> {
    groups.map_values(|g: (usize, Vec<usize>)| (g.0, g.1@))
}

/// A key that has not occurred has no edits.
proof fn lemma_unseen_key_has_no_indices(keys: Seq<Option<usize>>, k: usize)
    requires
        !first_seen_keys(keys).contains(k),
    ensures
        key_indices(keys, k) == Seq::<usize>::empty(),
    decreases keys.len(),
{
    if keys.len() > 0 {
        let rest = first_seen_keys(keys.drop_last());
        let all = first_seen_keys(keys);
        assert(forall|j: int| 0 <= j < rest.len() ==> all[j] == rest[j]);
        if rest.contains(k) {
            let j = choose|j: int| 0 <= j < rest.len() && rest[j] == k;
            assert(all[j] == k);
            assert(all.contains(k));
        }
        if keys.last() == Some(k) {
            assert(all == rest.push(k));
            assert(all[rest.len() as int] == k);
            assert(all.contains(k));
        }
        lemma_unseen_key_has_no_indices(keys.drop_last(), k);
    }
}

/// Each key is seen once.
proof fn lemma_first_seen_distinct(keys: Seq<Option<usize>>)
    ensures
        first_seen_keys(keys).no_duplicates(),
    decreases keys.len(),
{
    if keys.len() > 0 {
        lemma_first_seen_distinct(keys.drop_last());
    }
}

/// Groups edits by the key of the state they share (`None`: no such
/// state): one group per key, in the order the keys first occur, each with
/// the indices of its edits in order.
pub fn group_by_key(keys: &Vec<Option<usize>>) -> (groups: Vec<(usize, Vec<usize>)>)
    ensures
        group_views(groups@) == grouping(keys@),
{
    let mut groups: Vec<(usize, Vec<usize>)> = Vec::new();
    let mut i: usize = 0;
    assert(keys@.take(0) =~= Seq::<Option<usize>>::empty());
    assert(group_views(groups@) =~= grouping(keys@.take(0)));
    while i < keys.len()
        invariant
            0 <= i <= keys@.len(),
            group_views(groups@) == grouping(keys@.take(i as int)),
        decreases keys@.len() - i,
    {
        let ghost before = keys@.take(i as int);
        let ghost after = keys@.take(i + 1);
        let ghost old_groups = groups@;
        assert(after.drop_last() =~= before);
        assert(after.last() == keys@[i as int]);
        assert(group_views(groups@).len() == groups@.len());
        assert(grouping(before).len() == first_seen_keys(before).len());
        match keys[i] {
            None => {
                assert(grouping(after) =~= grouping(before));
            },
            Some(k) => {
                let mut g: usize = 0;
                while g < groups.len() && groups[g].0 != k
                    invariant
                        0 <= g <= groups@.len(),
                        groups@ == old_groups,
                        group_views(groups@) == grouping(before),
                        forall|h: int| 0 <= h < g ==> groups@[h].0 != k,
                    decreases groups@.len() - g,
                {
                    g += 1;
                }
                if g < groups.len() {
                    assert(group_views(groups@)[g as int].0 == groups@[g as int].0);
                    assert(grouping(before)[g as int].0 == first_seen_keys(before)[g as int]);
                    assert(first_seen_keys(before)[g as int] == k);
                    assert(first_seen_keys(after) =~= first_seen_keys(before));
                    let (key, mut members) = groups.remove(g);
                    let ghost old_members = members@;
                    members.push(i);
                    groups.insert(g, (key, members));
                    proof {
                        lemma_first_seen_distinct(before);
                        assert(groups@ =~= old_groups.update(g as int, (k, members)));
                        assert(old_members == key_indices(before, k));
                        assert forall|h: int| 0 <= h < groups@.len() implies #[trigger] group_views(groups@)[h]
                            == grouping(after)[h] by {
                            assert(grouping(before)[h] == (first_seen_keys(before)[h], key_indices(before, first_seen_keys(before)[h])));
                            if h != g {
                                assert(first_seen_keys(before)[h] != k);
                            }
                        }
                        assert(group_views(groups@) =~= grouping(after));
                    }
                } else {
                    assert forall|h: int| 0 <= h < first_seen_keys(before).len() implies
                        #[trigger] first_seen_keys(before)[h] != k by {
                        assert(group_views(groups@)[h].0 == groups@[h].0);
                    }
                    assert(!first_seen_keys(before).contains(k));
                    proof {
                        lemma_unseen_key_has_no_indices(before, k);
                    }
                    assert(first_seen_keys(after) =~= first_seen_keys(before).push(k));
                    groups.push((k, vec![i]));
                    proof {
                        assert forall|h: int| 0 <= h < groups@.len() implies #[trigger] group_views(groups@)[h]
                            == grouping(after)[h] by {
                            if h < old_groups.len() {
                                assert(grouping(before)[h] == (first_seen_keys(before)[h], key_indices(before, first_seen_keys(before)[h])));
                                assert(first_seen_keys(before)[h] != k);
                            } else {
                                assert(key_indices(after, k) =~= seq![i]);
                            }
                        }
                        assert(group_views(groups@) =~= grouping(after));
                    }
                }
            },
        }
        i += 1;
    }
    assert(keys@.take(keys@.len() as int) =~= keys@);
    groups
}

/// Every member edit has the endpoint.
pub open spec fn all_present<T>(members: Seq<usize>, ends: Seq<Option<T>>) -> bool {
    forall|j: int| 0 <= j < members.len() ==> (#[trigger] ends[members[j] as int]) is Some
}

/// The views of the members' endpoints, in the order of the members.
pub open spec fn gathered<T: View>(members: Seq<usize>, ends: Seq<Option<T>>) -> Seq<T::V> {
    Seq::new(members.len(), |j: int| ends[members[j] as int]->0@)
}

/// A group of edits converges on common endpoints: it has at least two
/// edits, each has both endpoints, and exactly one "from" is no edit's "to"
/// and exactly one "to" is no edit's "from".
pub open spec fn converges<T: View>(members: Seq<usize>, olds: Seq<Option<T>>, news: Seq<Option<T>>) -> bool {
    &&& members.len() >= 2
    &&& all_present(members, olds)
    &&& all_present(members, news)
    &&& outsider_count(gathered(members, olds), gathered(members, news)) == 1
    &&& outsider_count(gathered(members, news), gathered(members, olds)) == 1
}

/// Edit `b` is a member whose "from" is no member's "to".
pub open spec fn is_base_of<T: View>(members: Seq<usize>, olds: Seq<Option<T>>, news: Seq<Option<T>>, b: usize) -> bool {
    exists|j: int|
        0 <= j < members.len() && members[j] == b && !gathered(members, news).contains(
            #[trigger] gathered(members, olds)[j],
        )
}

/// Edit `f` is a member whose "to" is no member's "from".
pub open spec fn is_final_of<T: View>(members: Seq<usize>, olds: Seq<Option<T>>, news: Seq<Option<T>>, f: usize) -> bool {
    exists|j: int|
        0 <= j < members.len() && members[j] == f && !gathered(members, olds).contains(
            #[trigger] gathered(members, news)[j],
        )
}

/// The common endpoints of one group of overlapping edits: `members` are
/// the indices of its edits, `olds[m]`/`news[m]` the endpoints of edit `m`
/// where it has them. A group of fewer than two edits, or one where an
/// edit lacks an endpoint, is left alone (`None`); otherwise the result is
/// that of [`chain_endpoints`] on the members' endpoints, given as the
/// indices of the edits whose "from" is the base and whose "to" is the
/// final.
pub fn group_endpoints<T: SameValue>(
    members: &Vec<usize>,
    olds: &Vec<Option<T>>,
    news: &Vec<Option<T>>,
) -> (r: Option<(usize, usize)>)
    requires
        forall|j: int| 0 <= j < members@.len() ==> #[trigger] members@[j] < olds@.len() && members@[j] < news@.len(),
    ensures
        r is Some <==> converges(members@, olds@, news@),
        r matches Some((b, f)) ==> is_base_of(members@, olds@, news@, b) && is_final_of(
            members@,
            olds@,
            news@,
            f,
        ),
{
    if members.len() < 2 {
        return None;
    }
    let ghost go = gathered(members@, olds@);
    let ghost gn = gathered(members@, news@);
    let mut froms: Vec<&T> = Vec::new();
    let mut tos: Vec<&T> = Vec::new();
    let mut j: usize = 0;
    while j < members.len()
        invariant
            go == gathered(members@, olds@),
            gn == gathered(members@, news@),
            forall|k: int| 0 <= k < members@.len() ==> #[trigger] members@[k] < olds@.len() && members@[k] < news@.len(),
            0 <= j <= members@.len(),
            views(froms@) == go.take(j as int),
            views(tos@) == gn.take(j as int),
            forall|k: int| 0 <= k < j ==> (#[trigger] olds@[members@[k] as int]) is Some,
            forall|k: int| 0 <= k < j ==> (#[trigger] news@[members@[k] as int]) is Some,
        decreases members@.len() - j,
    {
        let m = members[j];
        assert(views(froms@).len() == froms@.len() && views(tos@).len() == tos@.len());
        match (&olds[m], &news[m]) {
            (Some(o), Some(n)) => {
                froms.push(o);
                tos.push(n);
                assert(olds@[m as int] == Some(*o));
                assert(news@[m as int] == Some(*n));
                assert(froms@[j as int] == o);
                assert(views(froms@)[j as int] == go[j as int]);
                assert(tos@[j as int] == n);
                assert(views(tos@)[j as int] == gn[j as int]);
                assert(views(froms@) =~= go.take(j + 1));
                assert(views(tos@) =~= gn.take(j + 1));
            },
            _ => {
                return None;
            },
        }
        j += 1;
    }
    assert(go.take(members@.len() as int) =~= go);
    assert(gn.take(members@.len() as int) =~= gn);
    match chain_endpoints(&froms, &tos) {
        Some((i, k)) => {
            assert(views(froms@)[i as int] == go[i as int]);
            assert(views(tos@)[k as int] == gn[k as int]);
            Some((members[i], members[k]))
        },
        None => None,
    }
}

/// The keys of the groups (in their order) that converge.
pub open spec fn merged_keys<T: View>(
    groups: Seq<(usize, Seq<usize>)>,
    olds: Seq<Option<T>>,
    news: Seq<Option<T>>,
) -> Seq<usize>
    decreases groups.len(),
{
    if groups.len() == 0 {
        Seq::empty()
    } else {
        let rest = merged_keys(groups.drop_last(), olds, news);
        if converges(groups.last().1, olds, news) {
            rest.push(groups.last().0)
        } else {
            rest
        }
    }
}

/// The indices of the edits with a key are indices of edits.
proof fn lemma_key_indices_in_range(keys: Seq<Option<usize>>, k: usize)
    ensures
        forall|j: int| 0 <= j < key_indices(keys, k).len() ==> #[trigger] key_indices(keys, k)[j] < keys.len(),
    decreases keys.len(),
{
    if keys.len() > 0 {
        let rest = key_indices(keys.drop_last(), k);
        let all = key_indices(keys, k);
        lemma_key_indices_in_range(keys.drop_last(), k);
        assert forall|j: int| 0 <= j < all.len() implies #[trigger] all[j] < keys.len() by {
            if j < rest.len() {
                assert(all[j] == rest[j]);
            }
        }
    }
}

/// Which overlapping edits to merge: edits are grouped by the key of the
/// state they share ([`group_by_key`]); for each group that converges, in
/// the order of the groups, its key, the edit whose "from" is the base and
/// the edit whose "to" is the final. Every edit of such a group is then to
/// morph from that base to that final.
pub fn merge_plan<T: SameValue>(
    keys: &Vec<Option<usize>>,
    olds: &Vec<Option<T>>,
    news: &Vec<Option<T>>,
) -> (plan: Vec<(usize, usize, usize)>)
    requires
        olds@.len() == keys@.len(),
        news@.len() == keys@.len(),
    ensures
        plan@.map_values(|e: (usize, usize, usize)| e.0) == merged_keys(grouping(keys@), olds@, news@),
        forall|i: int|
            0 <= i < plan@.len() ==> is_base_of(key_indices(keys@, (#[trigger] plan@[i]).0), olds@, news@, plan@[i].1)
                && is_final_of(key_indices(keys@, plan@[i].0), olds@, news@, plan@[i].2),
{
    let groups = group_by_key(keys);
    let ghost all = grouping(keys@);
    let mut plan: Vec<(usize, usize, usize)> = Vec::new();
    let mut g: usize = 0;
    assert(group_views(groups@).len() == groups@.len());
    assert(all.take(0) =~= Seq::<(usize, Seq<usize>)>::empty());
    assert(plan@.map_values(|e: (usize, usize, usize)| e.0) =~= Seq::<usize>::empty());
    while g < groups.len()
        invariant
            all == grouping(keys@),
            group_views(groups@) == all,
            all.len() == groups@.len(),
            olds@.len() == keys@.len(),
            news@.len() == keys@.len(),
            0 <= g <= groups@.len(),
            plan@.map_values(|e: (usize, usize, usize)| e.0) == merged_keys(all.take(g as int), olds@, news@),
            forall|i: int|
                0 <= i < plan@.len() ==> is_base_of(key_indices(keys@, (#[trigger] plan@[i]).0), olds@, news@, plan@[i].1)
                    && is_final_of(key_indices(keys@, plan@[i].0), olds@, news@, plan@[i].2),
        decreases groups@.len() - g,
    {
        let key = groups[g].0;
        let members = &groups[g].1;
        assert(group_views(groups@)[g as int] == (groups@[g as int].0, groups@[g as int].1@));
        assert(all[g as int] == (first_seen_keys(keys@)[g as int], key_indices(keys@, first_seen_keys(keys@)[g as int])));
        assert(members@ == key_indices(keys@, key));
        proof {
            lemma_key_indices_in_range(keys@, key);
        }
        assert(all.take(g + 1).drop_last() =~= all.take(g as int));
        assert(all.take(g + 1).last() == all[g as int]);
        let ghost before = plan@;
        match group_endpoints(members, olds, news) {
            Some((b, f)) => {
                plan.push((key, b, f));
                assert(plan@.map_values(|e: (usize, usize, usize)| e.0) =~= before.map_values(
                    |e: (usize, usize, usize)| e.0,
                ).push(key));
                assert forall|i: int|
                    0 <= i < plan@.len() implies is_base_of(key_indices(keys@, (#[trigger] plan@[i]).0), olds@, news@, plan@[i].1)
                        && is_final_of(key_indices(keys@, plan@[i].0), olds@, news@, plan@[i].2) by {
                    if i < before.len() {
                        assert(plan@[i] == before[i]);
                    }
                }
            },
            None => {},
        }
        g += 1;
    }
    assert(all.take(groups@.len() as int) =~= all);
    plan
}

/// The endpoints a plan gives to edits with key `k`: those of its first
/// entry for `k`, if any.
pub open spec fn plan_lookup(plan: Seq<(usize, usize, usize)>, k: usize) -> Option<(usize, usize)>
    decreases plan.len(),
{
    if plan.len() == 0 {
        None
    } else if plan[0].0 == k {
        Some((plan[0].1, plan[0].2))
    } else {
        plan_lookup(plan.drop_first(), k)
    }
}

/// For each edit, the edits whose "from" and "to" it is to be rebased onto
/// (by [`merge_plan`]'s plan), or `None` when it is left as it is: one
/// answer per edit, so every edit is rebased at most once.
pub fn rebase_targets(keys: &Vec<Option<usize>>, plan: &Vec<(usize, usize, usize)>) -> (r: Vec<
    Option<(usize, usize)>,
>)
    ensures
        r@.len() == keys@.len(),
        forall|i: int|
            0 <= i < keys@.len() ==> #[trigger] r@[i] == match keys@[i] {
                Some(k) => plan_lookup(plan@, k),
                None => None,
            },
{
    let mut r: Vec<Option<(usize, usize)>> = Vec::new();
    let mut i: usize = 0;
    while i < keys.len()
        invariant
            0 <= i <= keys@.len(),
            r@.len() == i,
            forall|m: int|
                0 <= m < i ==> #[trigger] r@[m] == match keys@[m] {
                    Some(k) => plan_lookup(plan@, k),
                    None => None,
                },
        decreases keys@.len() - i,
    {
        let target = match keys[i] {
            Some(k) => {
                let mut j: usize = 0;
                assert(plan@.skip(0) =~= plan@);
                while j < plan.len() && plan[j].0 != k
                    invariant
                        0 <= j <= plan@.len(),
                        plan_lookup(plan@, k) == plan_lookup(plan@.skip(j as int), k),
                    decreases plan@.len() - j,
                {
                    assert(plan@.skip(j as int).drop_first() =~= plan@.skip(j + 1));
                    j += 1;
                }
                if j < plan.len() {
                    assert(plan@.skip(j as int)[0] == plan@[j as int]);
                    Some((plan[j].1, plan[j].2))
                } else {
                    assert(plan@.skip(j as int).len() == 0);
                    None
                }
            },
            None => None,
        };
        r.push(target);
        i += 1;
    }
    r
}

/// Counting the outsiders of a prefix one item further.
proof fn lemma_outsider_count_step<V>(xs: Seq<V>, ys: Seq<V>, k: int)
    requires
        0 <= k < xs.len(),
    ensures
        outsider_count(xs.take(k + 1), ys) == outsider_count(xs.take(k), ys) + if ys.contains(
            xs[k],
        ) {
            0nat
        } else {
            1nat
        },
{
    assert(xs.take(k + 1).drop_last() == xs.take(k));
    assert(xs.take(k + 1).last() == xs[k]);
}

/// Outsiders of a concatenation add up.
proof fn lemma_outsider_count_concat<V>(a: Seq<V>, b: Seq<V>, ys: Seq<V>)
    ensures
        outsider_count(a + b, ys) == outsider_count(a, ys) + outsider_count(b, ys),
    decreases b.len(),
{
    if b.len() == 0 {
        assert(a + b =~= a);
    } else {
        lemma_outsider_count_concat(a, b.drop_last(), ys);
        assert((a + b).drop_last() =~= a + b.drop_last());
        assert((a + b).last() == b.last());
    }
}

/// Only which items `ys` holds matters, not their order or number.
proof fn lemma_outsider_count_same_items<V>(xs: Seq<V>, ys1: Seq<V>, ys2: Seq<V>)
    requires
        forall|v: V| ys1.contains(v) <==> ys2.contains(v),
    ensures
        outsider_count(xs, ys1) == outsider_count(xs, ys2),
    decreases xs.len(),
{
    if xs.len() > 0 {
        lemma_outsider_count_same_items(xs.drop_last(), ys1, ys2);
    }
}

/// Splitting around index `i`: the item there counts once.
proof fn lemma_outsider_count_at<V>(xs: Seq<V>, ys: Seq<V>, i: int)
    requires
        0 <= i < xs.len(),
    ensures
        outsider_count(xs, ys) == outsider_count(xs.remove(i), ys) + if ys.contains(xs[i]) {
            0nat
        } else {
            1nat
        },
{
    let pre = xs.take(i);
    let post = xs.skip(i + 1);
    assert(xs =~= pre + seq![xs[i]] + post);
    assert(xs.remove(i) =~= pre + post);
    lemma_outsider_count_concat(pre + seq![xs[i]], post, ys);
    lemma_outsider_count_concat(pre, seq![xs[i]], ys);
    lemma_outsider_count_concat(pre, post, ys);
    let one = seq![xs[i]];
    assert(one.drop_last() =~= Seq::<V>::empty());
    assert(one.last() == xs[i]);
    assert(outsider_count(Seq::<V>::empty(), ys) == 0);
    assert(outsider_count(one, ys) == if ys.contains(xs[i]) {
        0nat
    } else {
        1nat
    });
}

/// The order of the items does not matter.
proof fn lemma_outsider_count_reordered<V>(xs1: Seq<V>, xs2: Seq<V>, ys: Seq<V>)
    requires
        xs1.to_multiset() == xs2.to_multiset(),
    ensures
        outsider_count(xs1, ys) == outsider_count(xs2, ys),
    decreases xs1.len(),
{
    broadcast use vstd::seq_lib::group_to_multiset_ensures, vstd::multiset::group_multiset_axioms;

    if xs1.len() == 0 {
        assert(xs2.to_multiset().len() == 0);
        assert(xs2.len() == 0);
    } else {
        let x = xs1.last();
        let rest = xs1.drop_last();
        assert(rest.push(x) =~= xs1);
        assert(xs1.to_multiset() =~= rest.to_multiset().insert(x));
        assert(xs2.to_multiset().count(x) > 0);
        assert(xs2.contains(x));
        let i = choose|i: int| 0 <= i < xs2.len() && xs2[i] == x;
        assert(xs2.remove(i).to_multiset() == xs2.to_multiset().remove(x));
        assert(rest.to_multiset() =~= xs2.remove(i).to_multiset());
        lemma_outsider_count_reordered(rest, xs2.remove(i), ys);
        lemma_outsider_count_at(xs2, ys, i);
    }
}

/// With a single outsider, two outsider positions are the same one.
proof fn lemma_single_outsider_position<V>(xs: Seq<V>, ys: Seq<V>, i: int, j: int)
    requires
        outsider_count(xs, ys) == 1,
        0 <= i < xs.len(),
        0 <= j < xs.len(),
        !ys.contains(xs[i]),
        !ys.contains(xs[j]),
    ensures
        i == j,
{
    if i != j {
        let (lo, hi) = if i < j { (i, j) } else { (j, i) };
        lemma_outsider_count_at(xs, ys, lo);
        assert(xs.remove(lo)[hi - 1] == xs[hi]);
        lemma_outsider_count_at(xs.remove(lo), ys, hi - 1);
    }
}

/// The endpoints of a chain of edits do not depend on the order of the
/// edits: with the "from"s and the "to"s listed in any other order, there
/// are as many outsiders on each side, and when there is a single one, it
/// is the same value.
pub proof fn lemma_endpoints_ignore_order<V>(xs1: Seq<V>, ys1: Seq<V>, xs2: Seq<V>, ys2: Seq<V>)
    requires
        xs1.to_multiset() == xs2.to_multiset(),
        ys1.to_multiset() == ys2.to_multiset(),
    ensures
        outsider_count(xs1, ys1) == outsider_count(xs2, ys2),
        outsider_count(ys1, xs1) == outsider_count(ys2, xs2),
        outsider_count(xs1, ys1) == 1 ==> forall|i: int, j: int|
            0 <= i < xs1.len() && 0 <= j < xs2.len() && !ys1.contains(#[trigger] xs1[i]) && !ys2.contains(
                #[trigger] xs2[j],
            ) ==> xs1[i] == xs2[j],
{
    broadcast use vstd::seq_lib::group_to_multiset_ensures;

    assert forall|v: V| ys1.contains(v) <==> ys2.contains(v) by {
        assert(ys1.contains(v) <==> ys1.to_multiset().count(v) > 0);
        assert(ys2.contains(v) <==> ys2.to_multiset().count(v) > 0);
    }
    assert forall|v: V| xs1.contains(v) <==> xs2.contains(v) by {
        assert(xs1.contains(v) <==> xs1.to_multiset().count(v) > 0);
        assert(xs2.contains(v) <==> xs2.to_multiset().count(v) > 0);
    }
    lemma_outsider_count_reordered(xs1, xs2, ys1);
    lemma_outsider_count_same_items(xs2, ys1, ys2);
    lemma_outsider_count_reordered(ys1, ys2, xs1);
    lemma_outsider_count_same_items(ys2, xs1, xs2);
    if outsider_count(xs1, ys1) == 1 {
        assert forall|i: int, j: int|
            0 <= i < xs1.len() && 0 <= j < xs2.len() && !ys1.contains(#[trigger] xs1[i]) && !ys2.contains(
                #[trigger] xs2[j],
            ) implies xs1[i] == xs2[j] by {
            assert(xs1.to_multiset().count(xs2[j]) > 0) by {
                assert(xs2.contains(xs2[j]));
                assert(xs2.to_multiset().count(xs2[j]) > 0);
            }
            assert(xs1.contains(xs2[j]));
            let k = choose|k: int| 0 <= k < xs1.len() && xs1[k] == xs2[j];
            assert(!ys1.contains(xs1[k]));
            lemma_single_outsider_position(xs1, ys1, i, k);
        }
    }
}

/// The edits with key `k` are those whose key is `k`, each listed once.
proof fn lemma_key_indices_members(keys: Seq<Option<usize>>, k: usize)
    requires
        keys.len() <= usize::MAX,
    ensures
        key_indices(keys, k).no_duplicates(),
        forall|x: usize|
            #![trigger key_indices(keys, k).contains(x)]
            key_indices(keys, k).contains(x) <==> (x < keys.len() && keys[x as int] == Some(k)),
    decreases keys.len(),
{
    if keys.len() > 0 {
        let pre = keys.drop_last();
        let rest = key_indices(pre, k);
        let all = key_indices(keys, k);
        let last = (keys.len() - 1) as usize;
        lemma_key_indices_members(pre, k);
        if keys.last() == Some(k) {
            assert(all == rest.push(last));
            assert forall|x: usize| #![trigger all.contains(x)]
                all.contains(x) <==> (x < keys.len() && keys[x as int] == Some(k)) by {
                if all.contains(x) {
                    let j = choose|j: int| 0 <= j < all.len() && all[j] == x;
                    if j < rest.len() {
                        assert(rest[j] == x);
                        assert(rest.contains(x));
                        assert(keys[x as int] == pre[x as int]);
                    }
                }
                if x < keys.len() && keys[x as int] == Some(k) {
                    if x < pre.len() {
                        assert(pre[x as int] == keys[x as int]);
                        assert(rest.contains(x));
                        let j = choose|j: int| 0 <= j < rest.len() && rest[j] == x;
                        assert(all[j] == x);
                    } else {
                        assert(all[rest.len() as int] == x);
                    }
                }
            }
            assert(!rest.contains(last));
            assert forall|i: int, j: int| 0 <= i < all.len() && 0 <= j < all.len() && i != j implies all[i]
                != all[j] by {
                if i < rest.len() && j < rest.len() {
                    assert(all[i] == rest[i] && all[j] == rest[j]);
                } else if i < rest.len() {
                    assert(all[i] == rest[i]);
                    assert(rest.contains(rest[i]));
                } else if j < rest.len() {
                    assert(all[j] == rest[j]);
                    assert(rest.contains(rest[j]));
                }
            }
        } else {
            assert(all == rest);
            assert forall|x: usize| #![trigger all.contains(x)]
                all.contains(x) <==> (x < keys.len() && keys[x as int] == Some(k)) by {
                if rest.contains(x) {
                    assert(keys[x as int] == pre[x as int]);
                }
                if x < keys.len() && keys[x as int] == Some(k) {
                    assert(keys[last as int] == keys.last());
                    assert(x != last);
                    assert(pre[x as int] == keys[x as int]);
                }
            }
        }
    }
}

/// Two listings of the same items, each without repeats, hold them equally
/// often.
proof fn lemma_same_members<A>(a: Seq<A>, b: Seq<A>)
    requires
        a.no_duplicates(),
        b.no_duplicates(),
        forall|x: A| a.contains(x) <==> b.contains(x),
    ensures
        a.to_multiset() == b.to_multiset(),
{
    broadcast use vstd::seq_lib::group_to_multiset_ensures;

    a.lemma_multiset_has_no_duplicates();
    b.lemma_multiset_has_no_duplicates();
    assert forall|x: A| a.to_multiset().count(x) == b.to_multiset().count(x) by {
        assert(a.contains(x) <==> a.to_multiset().count(x) > 0);
        assert(b.contains(x) <==> b.to_multiset().count(x) > 0);
        if a.contains(x) {
            assert(a.to_multiset().contains(x));
            assert(b.to_multiset().contains(x));
        }
    }
    assert(a.to_multiset() =~= b.to_multiset());
}

/// The endpoints of the same edits, listed in another order, are the same
/// endpoints in another order.
proof fn lemma_gathered_reordered<T: View>(a: Seq<usize>, b: Seq<usize>, ends: Seq<Option<T>>)
    requires
        a.to_multiset() == b.to_multiset(),
    ensures
        gathered(a, ends).to_multiset() == gathered(b, ends).to_multiset(),
    decreases a.len(),
{
    broadcast use vstd::seq_lib::group_to_multiset_ensures, vstd::multiset::group_multiset_axioms;

    if a.len() == 0 {
        assert(b.to_multiset().len() == 0);
        assert(gathered(a, ends) =~= Seq::<T::V>::empty());
        assert(gathered(b, ends) =~= Seq::<T::V>::empty());
    } else {
        let x = a.last();
        let rest = a.drop_last();
        assert(rest.push(x) =~= a);
        assert(a.to_multiset() =~= rest.to_multiset().insert(x));
        assert(b.to_multiset().count(x) > 0);
        assert(b.contains(x));
        let i = choose|i: int| 0 <= i < b.len() && b[i] == x;
        assert(b.remove(i).to_multiset() == b.to_multiset().remove(x));
        assert(rest.to_multiset() =~= b.remove(i).to_multiset());
        lemma_gathered_reordered(rest, b.remove(i), ends);
        let v = ends[x as int]->0@;
        let ga = gathered(a, ends);
        let gb = gathered(b, ends);
        assert(ga =~= gathered(rest, ends).push(v));
        assert(ga.to_multiset() =~= gathered(rest, ends).to_multiset().insert(v));
        assert(gathered(b.remove(i), ends) =~= gb.remove(i));
        assert(gb[i] == v);
        assert(gb.remove(i).to_multiset() == gb.to_multiset().remove(v));
        assert(gb.to_multiset().count(v) > 0) by {
            assert(gb.contains(v));
        }
        assert(gb.to_multiset() =~= gb.to_multiset().remove(v).insert(v));
    }
}

/// Merging does not depend on the order of the edits. Listed in another
/// order (`p` takes each position of the second listing to the same edit's
/// position in the first; `q` goes back), the edits with any key `k` converge
/// exactly when they did, and then onto the same base and final values.
pub proof fn lemma_merge_ignores_order<T: View>(
    keys1: Seq<Option<usize>>,
    olds1: Seq<Option<T>>,
    news1: Seq<Option<T>>,
    keys2: Seq<Option<usize>>,
    olds2: Seq<Option<T>>,
    news2: Seq<Option<T>>,
    p: Seq<int>,
    q: Seq<int>,
    k: usize,
)
    requires
        keys1.len() <= usize::MAX,
        olds1.len() == keys1.len() && news1.len() == keys1.len(),
        keys2.len() == keys1.len() && olds2.len() == keys1.len() && news2.len() == keys1.len(),
        p.len() == keys1.len() && q.len() == keys1.len(),
        forall|i: int|
            0 <= i < keys1.len() ==> 0 <= #[trigger] p[i] < keys1.len() && 0 <= q[i] < keys1.len() && p[q[i]] == i
                && q[p[i]] == i,
        forall|i: int|
            0 <= i < keys1.len() ==> #[trigger] keys2[i] == keys1[p[i]] && olds2[i] == olds1[p[i]] && news2[i]
                == news1[p[i]],
    ensures
        converges(key_indices(keys2, k), olds2, news2) == converges(key_indices(keys1, k), olds1, news1),
        converges(key_indices(keys1, k), olds1, news1) ==> forall|b1: usize, b2: usize|
            is_base_of(key_indices(keys1, k), olds1, news1, b1) && is_base_of(key_indices(keys2, k), olds2, news2, b2)
                ==> #[trigger] olds1[b1 as int]->0@ == #[trigger] olds2[b2 as int]->0@,
        converges(key_indices(keys1, k), olds1, news1) ==> forall|f1: usize, f2: usize|
            is_final_of(key_indices(keys1, k), olds1, news1, f1) && is_final_of(key_indices(keys2, k), olds2, news2, f2)
                ==> #[trigger] news1[f1 as int]->0@ == #[trigger] news2[f2 as int]->0@,
{
    broadcast use vstd::seq_lib::group_to_multiset_ensures;

    let n = keys1.len();
    let m1 = key_indices(keys1, k);
    let m2 = key_indices(keys2, k);
    lemma_key_indices_members(keys1, k);
    lemma_key_indices_members(keys2, k);
    lemma_key_indices_in_range(keys2, k);
    // The second group's edits, at their positions in the first listing.
    let moved = Seq::new(m2.len(), |j: int| p[m2[j] as int] as usize);
    assert forall|x: usize| moved.contains(x) <==> m1.contains(x) by {
        if moved.contains(x) {
            let j = choose|j: int| 0 <= j < moved.len() && moved[j] == x;
            assert(m2.contains(m2[j]));
            assert(keys2[m2[j] as int] == Some(k));
        }
        if m1.contains(x) {
            assert(0 <= p[x as int] < n);
            let i2 = q[x as int];
            assert(0 <= p[i2] < n);
            assert(p[i2] == x);
            assert(keys2[i2] == keys1[x as int]);
            assert(m2.contains(i2 as usize));
            let j = choose|j: int| 0 <= j < m2.len() && m2[j] == i2 as usize;
            assert(moved[j] == x);
        }
    }
    assert forall|i: int, j: int| 0 <= i < moved.len() && 0 <= j < moved.len() && i != j implies moved[i]
        != moved[j] by {
        assert(m2[i] != m2[j]);
        if moved[i] == moved[j] {
            assert(q[p[m2[i] as int]] == m2[i] as int);
            assert(q[p[m2[j] as int]] == m2[j] as int);
        }
    }
    lemma_same_members(moved, m1);
    assert forall|j: int| 0 <= j < m2.len() implies #[trigger] olds2[m2[j] as int] == olds1[moved[j] as int] by {
        assert(m2[j] < n);
        assert(0 <= p[m2[j] as int] < n);
        assert(keys2[m2[j] as int] == keys1[p[m2[j] as int]]);
    }
    assert forall|j: int| 0 <= j < m2.len() implies #[trigger] news2[m2[j] as int] == news1[moved[j] as int] by {
        assert(m2[j] < n);
        assert(0 <= p[m2[j] as int] < n);
        assert(keys2[m2[j] as int] == keys1[p[m2[j] as int]]);
    }
    assert(gathered(m2, olds2) =~= gathered(moved, olds1));
    assert(gathered(m2, news2) =~= gathered(moved, news1));
    lemma_gathered_reordered(moved, m1, olds1);
    lemma_gathered_reordered(moved, m1, news1);
    assert(moved.len() == m1.len()) by {
        assert(moved.to_multiset().len() == m1.to_multiset().len());
    }
    assert(all_present(m2, olds2) == all_present(m1, olds1)) by {
        if all_present(m1, olds1) {
            assert forall|j: int| 0 <= j < m2.len() implies (#[trigger] olds2[m2[j] as int]) is Some by {
                assert(moved.contains(moved[j]));
                let i = choose|i: int| 0 <= i < m1.len() && m1[i] == moved[j];
                assert(olds1[m1[i] as int] is Some);
            }
        }
        if all_present(m2, olds2) {
            assert forall|i: int| 0 <= i < m1.len() implies (#[trigger] olds1[m1[i] as int]) is Some by {
                assert(m1.contains(m1[i]));
                let j = choose|j: int| 0 <= j < moved.len() && moved[j] == m1[i];
                assert(olds2[m2[j] as int] is Some);
            }
        }
    }
    assert(all_present(m2, news2) == all_present(m1, news1)) by {
        if all_present(m1, news1) {
            assert forall|j: int| 0 <= j < m2.len() implies (#[trigger] news2[m2[j] as int]) is Some by {
                assert(moved.contains(moved[j]));
                let i = choose|i: int| 0 <= i < m1.len() && m1[i] == moved[j];
                assert(news1[m1[i] as int] is Some);
            }
        }
        if all_present(m2, news2) {
            assert forall|i: int| 0 <= i < m1.len() implies (#[trigger] news1[m1[i] as int]) is Some by {
                assert(m1.contains(m1[i]));
                let j = choose|j: int| 0 <= j < moved.len() && moved[j] == m1[i];
                assert(news2[m2[j] as int] is Some);
            }
        }
    }
    let go1 = gathered(m1, olds1);
    let gn1 = gathered(m1, news1);
    let go2 = gathered(m2, olds2);
    let gn2 = gathered(m2, news2);
    lemma_endpoints_ignore_order(go1, gn1, go2, gn2);
    lemma_endpoints_ignore_order(gn1, go1, gn2, go2);
    if converges(m1, olds1, news1) {
        assert forall|b1: usize, b2: usize|
            is_base_of(m1, olds1, news1, b1) && is_base_of(m2, olds2, news2, b2) implies #[trigger] olds1[b1 as int]->0@
                == #[trigger] olds2[b2 as int]->0@ by {
            let j1 = choose|j: int| 0 <= j < m1.len() && m1[j] == b1 && !gn1.contains(#[trigger] go1[j]);
            let j2 = choose|j: int| 0 <= j < m2.len() && m2[j] == b2 && !gn2.contains(#[trigger] go2[j]);
            assert(go1[j1] == go2[j2]);
        }
        assert forall|f1: usize, f2: usize|
            is_final_of(m1, olds1, news1, f1) && is_final_of(m2, olds2, news2, f2) implies #[trigger] news1[f1 as int]->0@
                == #[trigger] news2[f2 as int]->0@ by {
            let j1 = choose|j: int| 0 <= j < m1.len() && m1[j] == f1 && !go1.contains(#[trigger] gn1[j]);
            let j2 = choose|j: int| 0 <= j < m2.len() && m2[j] == f2 && !go2.contains(#[trigger] gn2[j]);
            assert(gn1[j1] == gn2[j2]);
        }
    }
}

/// In a chain of distinct states `c0 → c1 → … → cn`, given as edits
/// `olds = [c0, …, c(n-1)]` → `news = [c1, …, cn]` in any order of the
/// chain, the base is the first state and the final the last: `c0` is the
/// only "from" that no edit leads to, and `cn` the only "to" that no edit
/// leaves from. So [`chain_endpoints`] finds exactly one of each.
pub proof fn lemma_chain_has_single_endpoints<V>(chain: Seq<V>)
    requires
        chain.len() >= 2,
        chain.no_duplicates(),
    ensures
        ({
            let olds = chain.drop_last();
            let news = chain.drop_first();
            let n = olds.len();
            &&& outsider_count(olds, news) == 1
            &&& outsider_count(news, olds) == 1
            &&& forall|i: int| 0 <= i < n ==> (!news.contains(#[trigger] olds[i]) <==> i == 0)
            &&& forall|j: int| 0 <= j < n ==> (!olds.contains(#[trigger] news[j]) <==> j == n - 1)
        }),
{
    let olds = chain.drop_last();
    let news = chain.drop_first();
    let n = olds.len() as int;
    assert forall|i: int| 0 <= i < n implies (!news.contains(#[trigger] olds[i]) <==> i == 0) by {
        if i == 0 {
            if news.contains(olds[0]) {
                let j = choose|j: int| 0 <= j < news.len() && news[j] == olds[0];
                assert(chain[j + 1] == chain[0]);
            }
        } else {
            assert(news[i - 1] == olds[i]);
        }
    }
    assert forall|j: int| 0 <= j < n implies (!olds.contains(#[trigger] news[j]) <==> j == n - 1) by {
        if j == n - 1 {
            if olds.contains(news[n - 1]) {
                let i = choose|i: int| 0 <= i < olds.len() && olds[i] == news[n - 1];
                assert(chain[i] == chain[n]);
            }
        } else {
            assert(olds[j + 1] == news[j]);
        }
    }
    lemma_outsiders_only_first(olds, news, n);
    assert(olds.take(n) == olds);
    lemma_outsiders_none_before(news, olds, n - 1);
    lemma_outsider_count_step(news, olds, n - 1);
    assert(news.take(n) == news);
}

/// A prefix of `xs` whose only item absent from `ys` is the first has one
/// outsider.
proof fn lemma_outsiders_only_first<V>(xs: Seq<V>, ys: Seq<V>, k: int)
    requires
        1 <= k <= xs.len(),
        forall|i: int| 0 <= i < xs.len() ==> (!ys.contains(#[trigger] xs[i]) <==> i == 0),
    ensures
        outsider_count(xs.take(k), ys) == 1,
    decreases k,
{
    lemma_outsider_count_step(xs, ys, k - 1);
    if k == 1 {
        assert(xs.take(0).len() == 0);
    } else {
        lemma_outsiders_only_first(xs, ys, k - 1);
    }
}

/// A prefix of `xs` whose items all occur in `ys` has no outsider.
proof fn lemma_outsiders_none_before<V>(xs: Seq<V>, ys: Seq<V>, k: int)
    requires
        0 <= k <= xs.len(),
        forall|i: int| 0 <= i < k ==> ys.contains(#[trigger] xs[i]),
    ensures
        outsider_count(xs.take(k), ys) == 0,
    decreases k,
{
    if k == 0 {
        assert(xs.take(0).len() == 0);
    } else {
        lemma_outsider_count_step(xs, ys, k - 1);
        lemma_outsiders_none_before(xs, ys, k - 1);
    }
}

} // verus!
