//! What grouping does with rows.
use crate::aggregate::{self, GroupV};
use crate::ast::ItemV;
use crate::identity;
use crate::keying;
use crate::semantics::EnvV;
use crate::store::StoreV;
use crate::value::{RecV, ValV};
use vstd::multiset::Multiset;
use vstd::prelude::*;

verus! {

/// The rows of the first `n` groups.
pub open spec fn gathered(groups: Seq<GroupV>, n: int) -> Multiset<RecV>
    decreases n,
{
    if n <= 0 {
        Multiset::empty()
    } else {
        gathered(groups, n - 1).add(groups[n - 1].rows.to_multiset())
    }
}

/// Groups that share no key, of which none is empty, and each of which has the
/// key of its values.
pub open spec fn apart(groups: Seq<GroupV>) -> bool {
    &&& forall|i: int, j: int|
        0 <= i < groups.len() && 0 <= j < groups.len() && i != j ==> (#[trigger] groups[i]).key != (
        #[trigger] groups[j]).key
    &&& forall|i: int|
        0 <= i < groups.len() ==> (#[trigger] groups[i]).rows.len() > 0 && groups[i].key
            == keying::row_key(groups[i].values)
}

proof fn lemma_gathered_same(a: Seq<GroupV>, b: Seq<GroupV>, n: int)
    requires
        n <= a.len(),
        n <= b.len(),
        forall|i: int| 0 <= i < n ==> a[i] == #[trigger] b[i],
    ensures
        gathered(a, n) == gathered(b, n),
    decreases n,
{
    if n > 0 {
        assert(a[n - 1] == b[n - 1]);
        lemma_gathered_same(a, b, n - 1);
    }
}

proof fn lemma_gathered_update(groups: Seq<GroupV>, p: int, g: GroupV, rec: RecV, n: int)
    requires
        0 <= p < n <= groups.len(),
        g.rows == groups[p].rows.push(rec),
    ensures
        gathered(groups.update(p, g), n) == gathered(groups, n).insert(rec),
    decreases n,
{
    broadcast use vstd::seq_lib::group_to_multiset_ensures;

    let after = groups.update(p, g);
    if p == n - 1 {
        lemma_gathered_same(after, groups, n - 1);
        assert(gathered(after, n) =~= gathered(groups, n).insert(rec));
    } else {
        lemma_gathered_update(groups, p, g, rec, n - 1);
        assert(after[n - 1] == groups[n - 1]);
        assert(gathered(after, n) =~= gathered(groups, n).insert(rec));
    }
}

/// The place of a key is that of the group that has it.
pub proof fn lemma_position(groups: Seq<GroupV>, key: Seq<char>, i: int)
    requires
        0 <= i,
    ensures
        match aggregate::group_position(groups, key, i) {
            Some(p) => i <= p < groups.len() && groups[p].key == key,
            None => forall|j: int| i <= j < groups.len() ==> (#[trigger] groups[j]).key != key,
        },
    decreases groups.len() - i,
{
    if i < groups.len() && groups[i].key != key {
        lemma_position(groups, key, i + 1);
    }
}

proof fn lemma_with_row(groups: Seq<GroupV>, values: Seq<ValV>, rec: RecV)
    requires
        apart(groups),
    ensures
        ({
            let after = aggregate::with_row(groups, values, rec);
            apart(after) && gathered(after, after.len() as int) == gathered(
                groups,
                groups.len() as int,
            ).insert(rec)
        }),
{
    broadcast use vstd::seq_lib::group_to_multiset_ensures;

    let key = keying::row_key(values);
    let n = groups.len() as int;
    let after = aggregate::with_row(groups, values, rec);
    lemma_position(groups, key, 0);
    match aggregate::group_position(groups, key, 0) {
        Some(p) => {
            lemma_gathered_update(groups, p, after[p], rec, n);
        },
        None => {
            lemma_gathered_same(after, groups, n);
            let one = Seq::<RecV>::empty().push(rec);
            assert(after[n].rows =~= one);
            assert(Seq::<RecV>::empty().to_multiset() =~= Multiset::empty());
            assert(one.to_multiset() =~= Multiset::empty().insert(rec));
            assert(gathered(after, n + 1) =~= gathered(groups, n).insert(rec));
        },
    }
}

proof fn lemma_grouped_from(
    items: Seq<ItemV>,
    rs: Seq<RecV>,
    i: int,
    groups: Seq<GroupV>,
    env: EnvV,
    st: StoreV,
)
    requires
        0 <= i <= rs.len(),
        apart(groups),
        gathered(groups, groups.len() as int) == rs.take(i).to_multiset(),
    ensures
        aggregate::grouped(items, rs, i, groups, env, st) matches Ok(all) ==> apart(all)
            && gathered(all, all.len() as int) == rs.to_multiset(),
    decreases rs.len() - i,
{
    broadcast use vstd::seq_lib::group_to_multiset_ensures;

    if i < rs.len() {
        if let Ok(values) = aggregate::group_key(items, 0, seq![], rs[i], env.at(i), st) {
            lemma_with_row(groups, values, rs[i]);
            assert(rs.take(i + 1) =~= rs.take(i).push(rs[i]));
            lemma_grouped_from(
                items,
                rs,
                i + 1,
                aggregate::with_row(groups, values, rs[i]),
                env,
                st,
            );
        }
    } else {
        assert(rs.take(i) =~= rs);
    }
}

/// Two groups have values that are alike.
pub open spec fn groups_alike(a: GroupV, b: GroupV) -> bool {
    identity::all_alike(a.values, b.values)
}

/// No map among the values of a group has a key twice.
pub open spec fn plain_group(g: GroupV) -> bool {
    forall|i: int| 0 <= i < g.values.len() ==> identity::plainly_keyed(#[trigger] g.values[i])
}

/// Grouping puts each row into exactly one group: the groups together have the
/// rows that were there, no group is empty, and no two groups have values that
/// are alike.
pub proof fn lemma_groups_part_rows(items: Seq<ItemV>, rs: Seq<RecV>, env: EnvV, st: StoreV)
    requires
        rs.len() > 0,
    ensures
        aggregate::groups_of(items, rs, env, st) matches Ok(all) ==> {
            &&& gathered(all, all.len() as int) == rs.to_multiset()
            &&& forall|i: int| 0 <= i < all.len() ==> (#[trigger] all[i]).rows.len() > 0
            &&& forall|i: int, j: int|
                0 <= i < j < all.len() && plain_group(all[i]) && plain_group(all[j])
                    ==> !groups_alike(#[trigger] all[i], #[trigger] all[j])
        },
{
    broadcast use vstd::seq_lib::group_to_multiset_ensures;

    assert(rs.take(0) =~= Seq::<RecV>::empty());
    assert(Seq::<RecV>::empty().to_multiset() =~= Multiset::empty());
    lemma_grouped_from(items, rs, 0, seq![], env, st);
    if let Ok(all) = aggregate::groups_of(items, rs, env, st) {
        assert forall|i: int, j: int|
            0 <= i < j < all.len() && plain_group(all[i]) && plain_group(
                all[j],
            ) implies !groups_alike(#[trigger] all[i], #[trigger] all[j]) by {
            identity::lemma_row_key(all[i].values, all[j].values);
        }
    }
}

} // verus!
