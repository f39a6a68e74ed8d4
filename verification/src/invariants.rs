//! What holds of every inventory, whatever the configuration, the
//! annotations and the ledger are.

use crate::annotations::Notes;
use crate::database::HostEntry;
use crate::ssh_config_store::{
    all_items, built, collected, first_named, is_wildcard, item_of, lookup, only_wildcards, others,
    placed, with_item, without_empty, GroupView, ItemView,
};
use vstd::multiset::Multiset;
use vstd::prelude::*;
use vstd::seq_lib::lemma_multiset_commutative;

verus! {

/// The hosts that the entries give, in the entries' order: one for each
/// entry whose pattern is no wildcard.
pub open spec fn connectable(
    entries: Seq<(Seq<char>, Seq<(Seq<char>, Seq<char>)>)>,
    notes: Notes,
    records: Map<Seq<char>, HostEntry>,
) -> Seq<ItemView>
    decreases entries.len(),
{
    if entries.len() == 0 {
        Seq::empty()
    } else {
        let before = connectable(entries.drop_last(), notes, records);
        if is_wildcard(entries.last().0) {
            before
        } else {
            before.push(item_of(entries.last().0, entries.last().1, notes, records))
        }
    }
}

/// The hosts of the groups, each as often as it stands in them.
pub open spec fn bag(groups: Seq<GroupView>) -> Multiset<ItemView> {
    all_items(groups).to_multiset()
}

/// The name of the group that the annotations give a host.
pub open spec fn group_name(notes: Notes, host: Seq<char>) -> Seq<char> {
    match lookup(notes.tabs, host) {
        Some(name) => name,
        None => others(),
    }
}

/// Whether a group named `name` holds `item`.
pub open spec fn holds(groups: Seq<GroupView>, name: Seq<char>, item: ItemView) -> bool {
    exists|g: int| 0 <= g < groups.len() && groups[g].name == name && groups[g].items.contains(item)
}

/// The hosts of two lists of groups, one behind the other.
pub proof fn lemma_all_items_concat(a: Seq<GroupView>, b: Seq<GroupView>)
    ensures
        all_items(a + b) == all_items(a) + all_items(b),
    decreases b.len(),
{
    if b.len() == 0 {
        assert(a + b == a);
        assert(all_items(a) + all_items(b) == all_items(a));
    } else {
        lemma_all_items_concat(a, b.drop_last());
        assert((a + b).drop_last() == a + b.drop_last());
        assert(all_items(a + b) == all_items(a) + all_items(b));
    }
}

/// A list of one group holds that group's hosts.
pub proof fn lemma_all_items_single(group: GroupView)
    ensures
        all_items(seq![group]) == group.items,
{
    reveal_with_fuel(all_items, 2);
    assert(seq![group].drop_last() =~= Seq::<GroupView>::empty());
    assert(all_items(seq![group]) =~= group.items);
}

/// One more host at the end of a group is one more host among all.
pub proof fn lemma_bag_with_item(groups: Seq<GroupView>, i: int, item: ItemView)
    requires
        0 <= i < groups.len(),
    ensures
        bag(groups.update(i, with_item(groups[i], item))) == bag(groups).insert(item),
    decreases groups.len(),
{
    let changed = groups.update(i, with_item(groups[i], item));
    let front = all_items(groups.drop_last());
    if i == groups.len() - 1 {
        assert(changed.drop_last() == groups.drop_last());
        lemma_multiset_commutative(front, groups.last().items);
        lemma_multiset_commutative(front, groups.last().items.push(item));
        vstd::seq_lib::to_multiset_build(groups.last().items, item);
        assert(bag(changed) =~= bag(groups).insert(item));
    } else {
        lemma_bag_with_item(groups.drop_last(), i, item);
        assert(changed.drop_last() == groups.drop_last().update(
            i,
            with_item(groups.drop_last()[i], item),
        ));
        lemma_multiset_commutative(front, groups.last().items);
        lemma_multiset_commutative(all_items(changed.drop_last()), groups.last().items);
        assert(bag(changed) =~= bag(groups).insert(item));
    }
}

/// The place of the first group named `name` at or behind `from` is a place
/// at or behind `from` of a group named so; where it is the number of
/// groups, no group at or behind `from` is named so.
pub proof fn lemma_first_named(groups: Seq<GroupView>, name: Seq<char>, from: int)
    requires
        0 <= from,
    ensures
        first_named(groups, name, from) <= groups.len(),
        first_named(groups, name, from) < groups.len() ==> from <= first_named(groups, name, from)
            && groups[first_named(groups, name, from)].name == name,
        first_named(groups, name, from) == groups.len() ==> forall|g: int|
            from <= g < groups.len() ==> groups[g].name != name,
    decreases groups.len() - from,
{
    if from < groups.len() && groups[from].name != name {
        lemma_first_named(groups, name, from + 1);
    }
}

/// A host that gets its place is one more host among all.
pub proof fn lemma_bag_placed(groups: Seq<GroupView>, tab: Option<Seq<char>>, item: ItemView)
    requires
        groups.len() > 0,
    ensures
        bag(placed(groups, tab, item)) == bag(groups).insert(item),
        placed(groups, tab, item).len() > 0,
        placed(groups, tab, item)[0].name == groups[0].name,
{
    match tab {
        Some(name) => {
            let i = first_named(groups, name, 0);
            lemma_first_named(groups, name, 0);
            if i < groups.len() {
                lemma_bag_with_item(groups, i, item);
            } else {
                let last = GroupView { name, items: seq![item] };
                assert(groups.push(last).drop_last() == groups);
                assert(all_items(groups.push(last)) =~= all_items(groups).push(item));
                vstd::seq_lib::to_multiset_build(all_items(groups), item);
            }
        },
        None => {
            lemma_bag_with_item(groups, 0, item);
        },
    }
}

/// The groups in the order of their making hold the connectable hosts, each
/// as often as the entries give it; the first of them is the group of the
/// hosts without one.
pub proof fn lemma_bag_collected(
    entries: Seq<(Seq<char>, Seq<(Seq<char>, Seq<char>)>)>,
    notes: Notes,
    records: Map<Seq<char>, HostEntry>,
)
    ensures
        bag(collected(entries, notes, records)) == connectable(entries, notes, records).to_multiset(),
        collected(entries, notes, records).len() > 0,
        collected(entries, notes, records)[0].name == others(),
    decreases entries.len(),
{
    if entries.len() == 0 {
        lemma_all_items_single(GroupView { name: others(), items: Seq::empty() });
    } else {
        let before = collected(entries.drop_last(), notes, records);
        lemma_bag_collected(entries.drop_last(), notes, records);
        let e = entries.last();
        if !is_wildcard(e.0) {
            let item = item_of(e.0, e.1, notes, records);
            lemma_bag_placed(before, lookup(notes.tabs, e.0), item);
            vstd::seq_lib::to_multiset_build(
                connectable(entries.drop_last(), notes, records),
                item,
            );
        }
    }
}

/// Turning the order of the groups round changes no host.
pub proof fn lemma_bag_reverse(groups: Seq<GroupView>)
    ensures
        bag(groups.reverse()) == bag(groups),
    decreases groups.len(),
{
    if groups.len() > 0 {
        let front = groups.drop_last();
        lemma_bag_reverse(front);
        assert(groups.reverse() =~= seq![groups.last()] + front.reverse());
        lemma_all_items_concat(seq![groups.last()], front.reverse());
        lemma_all_items_single(groups.last());
        lemma_multiset_commutative(groups.last().items, all_items(front.reverse()));
        lemma_multiset_commutative(all_items(front), groups.last().items);
        assert(bag(groups.reverse()) =~= bag(groups));
    } else {
        assert(groups.reverse() =~= groups);
    }
}

/// Leaving out the empty groups leaves every host in its place.
pub proof fn lemma_items_without_empty(groups: Seq<GroupView>)
    ensures
        all_items(without_empty(groups)) == all_items(groups),
    decreases groups.len(),
{
    reveal(Seq::filter);
    if groups.len() > 0 {
        lemma_items_without_empty(groups.drop_last());
        let kept = without_empty(groups.drop_last());
        if groups.last().items.len() > 0 {
            assert(kept.push(groups.last()).drop_last() == kept);
        } else {
            assert(all_items(groups.drop_last()) + groups.last().items == all_items(
                groups.drop_last(),
            ));
        }
    }
}

/// Leaving out the empty groups a second time changes nothing.
pub proof fn lemma_without_empty_twice(groups: Seq<GroupView>)
    ensures
        without_empty(without_empty(groups)) == without_empty(groups),
    decreases groups.len(),
{
    reveal(Seq::filter);
    if groups.len() > 0 {
        lemma_without_empty_twice(groups.drop_last());
        let kept = without_empty(groups.drop_last());
        if groups.last().items.len() > 0 {
            assert(kept.push(groups.last()).drop_last() == kept);
        }
    }
}

/// No group is empty once the empty ones are left out.
pub proof fn lemma_without_empty_all_full(groups: Seq<GroupView>)
    ensures
        forall|g: int|
            0 <= g < without_empty(groups).len() ==> (#[trigger] without_empty(
                groups,
            )[g]).items.len() > 0,
{
    let full = |g: GroupView| g.items.len() > 0;
    assert forall|g: int| 0 <= g < without_empty(groups).len() implies (#[trigger] without_empty(
        groups,
    )[g]).items.len() > 0 by {
        groups.lemma_filter_pred(full, g);
    }
}

/// Every connectable host stands in the inventory exactly as often as the
/// configuration's entries give it, and nothing else stands there.
pub proof fn lemma_every_host_once(
    entries: Seq<(Seq<char>, Seq<(Seq<char>, Seq<char>)>)>,
    notes: Notes,
    records: Map<Seq<char>, HostEntry>,
)
    ensures
        bag(built(entries, notes, records)) == connectable(entries, notes, records).to_multiset(),
{
    let made = collected(entries, notes, records);
    lemma_bag_collected(entries, notes, records);
    lemma_bag_reverse(made);
    lemma_items_without_empty(made.reverse());
}

/// No group of the inventory is empty.
pub proof fn lemma_no_empty_group(
    entries: Seq<(Seq<char>, Seq<(Seq<char>, Seq<char>)>)>,
    notes: Notes,
    records: Map<Seq<char>, HostEntry>,
)
    ensures
        forall|g: int|
            0 <= g < built(entries, notes, records).len() ==> (#[trigger] built(
                entries,
                notes,
                records,
            )[g]).items.len() > 0,
{
    lemma_without_empty_all_full(collected(entries, notes, records).reverse());
}

/// No connectable host has a wildcard pattern for its name.
pub proof fn lemma_connectable_no_wildcard(
    entries: Seq<(Seq<char>, Seq<(Seq<char>, Seq<char>)>)>,
    notes: Notes,
    records: Map<Seq<char>, HostEntry>,
)
    ensures
        forall|i: int|
            0 <= i < connectable(entries, notes, records).len() ==> !is_wildcard(
                (#[trigger] connectable(entries, notes, records)[i]).name,
            ),
    decreases entries.len(),
{
    if entries.len() > 0 {
        lemma_connectable_no_wildcard(entries.drop_last(), notes, records);
    }
}

/// No host of the inventory has a wildcard pattern for its name.
pub proof fn lemma_no_wildcard_item(
    entries: Seq<(Seq<char>, Seq<(Seq<char>, Seq<char>)>)>,
    notes: Notes,
    records: Map<Seq<char>, HostEntry>,
)
    ensures
        forall|i: int|
            0 <= i < all_items(built(entries, notes, records)).len() ==> !is_wildcard(
                (#[trigger] all_items(built(entries, notes, records))[i]).name,
            ),
{
    let hosts = all_items(built(entries, notes, records));
    let given = connectable(entries, notes, records);
    lemma_every_host_once(entries, notes, records);
    lemma_connectable_no_wildcard(entries, notes, records);
    assert forall|i: int| 0 <= i < hosts.len() implies !is_wildcard((#[trigger] hosts[i]).name) by {
        vstd::seq_lib::to_multiset_contains(hosts, hosts[i]);
        vstd::seq_lib::to_multiset_contains(given, hosts[i]);
        assert(hosts.contains(hosts[i]));
        let j = choose|j: int| 0 <= j < given.len() && given[j] == hosts[i];
        assert(!is_wildcard(given[j].name));
    }
}

/// Entries that are all wildcard patterns give no connectable host, and
/// entries that give none are all wildcard patterns.
pub proof fn lemma_connectable_empty(
    entries: Seq<(Seq<char>, Seq<(Seq<char>, Seq<char>)>)>,
    notes: Notes,
    records: Map<Seq<char>, HostEntry>,
)
    ensures
        connectable(entries, notes, records).len() == 0 <==> only_wildcards(entries),
    decreases entries.len(),
{
    if entries.len() > 0 {
        lemma_connectable_empty(entries.drop_last(), notes, records);
        if connectable(entries, notes, records).len() == 0 {
            assert forall|i: int| 0 <= i < entries.len() implies is_wildcard(
                #[trigger] entries[i].0,
            ) by {
                if i < entries.len() - 1 {
                    assert(entries.drop_last()[i] == entries[i]);
                }
            }
        } else {
            if is_wildcard(entries.last().0) {
                let i = choose|i: int|
                    0 <= i < entries.drop_last().len() && !is_wildcard(
                        #[trigger] entries.drop_last()[i].0,
                    );
                assert(entries[i] == entries.drop_last()[i]);
            }
        }
    }
}

/// The inventory is empty exactly when every entry of the configuration is
/// a wildcard pattern: so it is for a configuration without entries.
pub proof fn lemma_empty_inventory(
    entries: Seq<(Seq<char>, Seq<(Seq<char>, Seq<char>)>)>,
    notes: Notes,
    records: Map<Seq<char>, HostEntry>,
)
    ensures
        built(entries, notes, records).len() == 0 <==> only_wildcards(entries),
{
    let groups = built(entries, notes, records);
    let given = connectable(entries, notes, records);
    lemma_every_host_once(entries, notes, records);
    lemma_connectable_empty(entries, notes, records);
    lemma_no_empty_group(entries, notes, records);
    vstd::seq_lib::to_multiset_len(all_items(groups));
    vstd::seq_lib::to_multiset_len(given);
    if groups.len() > 0 {
        assert(groups.last().items.len() > 0);
        assert(all_items(groups).len() > 0);
    }
}

/// A host that gets its place stands in the group that its annotation
/// names, or in the group of the hosts without one.
pub proof fn lemma_placed_holds(groups: Seq<GroupView>, tab: Option<Seq<char>>, item: ItemView)
    requires
        groups.len() > 0,
        groups[0].name == others(),
    ensures
        holds(
            placed(groups, tab, item),
            match tab {
                Some(name) => name,
                None => others(),
            },
            item,
        ),
{
    let after = placed(groups, tab, item);
    match tab {
        Some(name) => {
            let i = first_named(groups, name, 0);
            lemma_first_named(groups, name, 0);
            if i < groups.len() {
                assert(after[i].items[groups[i].items.len() as int] == item);
                assert(after[i].name == name && after[i].items.contains(item));
            } else {
                assert(after[groups.len() as int].items[0] == item);
                assert(after[groups.len() as int].name == name && after[groups.len() as int].items.contains(
                    item,
                ));
            }
        },
        None => {
            assert(after[0].items[groups[0].items.len() as int] == item);
            assert(after[0].name == others() && after[0].items.contains(item));
        },
    }
}

/// A host that has its place keeps it when another gets its own.
pub proof fn lemma_placed_keeps(
    groups: Seq<GroupView>,
    tab: Option<Seq<char>>,
    item: ItemView,
    name: Seq<char>,
    other: ItemView,
)
    requires
        groups.len() > 0,
        holds(groups, name, other),
    ensures
        holds(placed(groups, tab, item), name, other),
{
    let after = placed(groups, tab, item);
    let g = choose|g: int|
        0 <= g < groups.len() && groups[g].name == name && groups[g].items.contains(other);
    let at = choose|at: int| 0 <= at < groups[g].items.len() && groups[g].items[at] == other;
    match tab {
        Some(to) => {
            lemma_first_named(groups, to, 0);
        },
        None => {},
    }
    assert(after[g].name == name);
    assert(after[g].items[at] == other);
    assert(after[g].items.contains(other));
}

/// Among the groups in the order of their making, each connectable host
/// stands in the group that its annotation names, or in the group of the
/// hosts without one.
pub proof fn lemma_collected_holds(
    entries: Seq<(Seq<char>, Seq<(Seq<char>, Seq<char>)>)>,
    notes: Notes,
    records: Map<Seq<char>, HostEntry>,
    i: int,
)
    requires
        0 <= i < entries.len(),
        !is_wildcard(entries[i].0),
    ensures
        holds(
            collected(entries, notes, records),
            group_name(notes, entries[i].0),
            item_of(entries[i].0, entries[i].1, notes, records),
        ),
    decreases entries.len(),
{
    let before = collected(entries.drop_last(), notes, records);
    let e = entries.last();
    lemma_bag_collected(entries.drop_last(), notes, records);
    if i == entries.len() - 1 {
        lemma_placed_holds(before, lookup(notes.tabs, e.0), item_of(e.0, e.1, notes, records));
    } else {
        lemma_collected_holds(entries.drop_last(), notes, records, i);
        assert(entries.drop_last()[i] == entries[i]);
        if !is_wildcard(e.0) {
            lemma_placed_keeps(
                before,
                lookup(notes.tabs, e.0),
                item_of(e.0, e.1, notes, records),
                group_name(notes, entries[i].0),
                item_of(entries[i].0, entries[i].1, notes, records),
            );
        }
    }
}

/// Each connectable host of the configuration stands in the inventory in
/// the group that its annotation names; without such an annotation, in the
/// group of the hosts without one.
pub proof fn lemma_host_in_its_group(
    entries: Seq<(Seq<char>, Seq<(Seq<char>, Seq<char>)>)>,
    notes: Notes,
    records: Map<Seq<char>, HostEntry>,
    i: int,
)
    requires
        0 <= i < entries.len(),
        !is_wildcard(entries[i].0),
    ensures
        holds(
            built(entries, notes, records),
            group_name(notes, entries[i].0),
            item_of(entries[i].0, entries[i].1, notes, records),
        ),
{
    let made = collected(entries, notes, records);
    let name = group_name(notes, entries[i].0);
    let item = item_of(entries[i].0, entries[i].1, notes, records);
    let full = |g: GroupView| g.items.len() > 0;
    lemma_collected_holds(entries, notes, records, i);
    let g = choose|g: int| 0 <= g < made.len() && made[g].name == name && made[g].items.contains(item);
    let turned = made.reverse();
    let t = made.len() - 1 - g;
    assert(turned[t] == made[g]);
    turned.lemma_filter_contains(full, t);
    let kept = without_empty(turned);
    let k = choose|k: int| 0 <= k < kept.len() && kept[k] == turned[t];
    assert(kept[k].name == name && kept[k].items.contains(item));
}

/// Whether no two groups have the same name.
pub open spec fn distinct_names(groups: Seq<GroupView>) -> bool {
    forall|g: int, h: int|
        0 <= g < h < groups.len() ==> (#[trigger] groups[g]).name != (#[trigger] groups[h]).name
}

/// The groups in the order of their making have different names.
pub proof fn lemma_collected_distinct(
    entries: Seq<(Seq<char>, Seq<(Seq<char>, Seq<char>)>)>,
    notes: Notes,
    records: Map<Seq<char>, HostEntry>,
)
    ensures
        distinct_names(collected(entries, notes, records)),
    decreases entries.len(),
{
    if entries.len() > 0 {
        let before = collected(entries.drop_last(), notes, records);
        lemma_collected_distinct(entries.drop_last(), notes, records);
        lemma_bag_collected(entries.drop_last(), notes, records);
        let e = entries.last();
        if !is_wildcard(e.0) {
            match lookup(notes.tabs, e.0) {
                Some(name) => {
                    lemma_first_named(before, name, 0);
                },
                None => {},
            }
        }
    }
}

/// Leaving out the empty groups leaves the names different, and each group
/// that is kept is one of the list.
proof fn lemma_without_empty_distinct(groups: Seq<GroupView>)
    requires
        distinct_names(groups),
    ensures
        distinct_names(without_empty(groups)),
        forall|k: int|
            0 <= k < without_empty(groups).len() ==> groups.contains(
                #[trigger] without_empty(groups)[k],
            ),
    decreases groups.len(),
{
    reveal(Seq::filter);
    if groups.len() > 0 {
        let front = groups.drop_last();
        let kept = without_empty(front);
        lemma_without_empty_distinct(front);
        assert forall|k: int| 0 <= k < kept.len() implies groups.contains(#[trigger] kept[k])
            && kept[k].name != groups.last().name by {
            let j = choose|j: int| 0 <= j < front.len() && front[j] == kept[k];
            assert(groups[j] == kept[k]);
        }
        assert(groups.contains(groups[groups.len() - 1]));
    }
}

/// No two groups of the inventory have the same name.
pub proof fn lemma_group_names_differ(
    entries: Seq<(Seq<char>, Seq<(Seq<char>, Seq<char>)>)>,
    notes: Notes,
    records: Map<Seq<char>, HostEntry>,
)
    ensures
        distinct_names(built(entries, notes, records)),
{
    let made = collected(entries, notes, records);
    lemma_collected_distinct(entries, notes, records);
    let turned = made.reverse();
    assert forall|g: int, h: int| 0 <= g < h < turned.len() implies (#[trigger] turned[g]).name != (
    #[trigger] turned[h]).name by {
        assert(turned[g] == made[made.len() - 1 - g]);
        assert(turned[h] == made[made.len() - 1 - h]);
    }
    lemma_without_empty_distinct(turned);
}

} // verus!
