//! The inventory: the hosts of a parsed SSH client configuration, each with
//! its annotations and its usage, in named groups.

use crate::annotations::{annotations, get_comments, Notes};
use crate::database::{usage, FileDatabase, HostEntry};
use crate::text::to_chars;
use crate::text_map::TextMap;
use ssh_cfg::{SshConfig, SshConfigParser, SshHostConfig};
use vstd::prelude::*;

verus! {

/// A parsed configuration: `ssh_cfg::SshConfig`, a map from host pattern to
/// the host's options that keeps the order in which the hosts were inserted.
#[verifier::external_type_specification]
#[verifier::external_body]
pub struct ExSshConfig(ssh_cfg::SshConfig);

/// The options of one host: `ssh_cfg::SshHostConfig`.
#[verifier::external_type_specification]
#[verifier::external_body]
pub struct ExSshHostConfig(ssh_cfg::SshHostConfig);

/// Why a text is no configuration: `ssh_cfg::Error`.
#[verifier::external_type_specification]
#[verifier::external_body]
pub struct ExConfigError(ssh_cfg::Error);

/// The options that a host's entry holds, in its order: each with the name
/// of its key, as `SshOptionKey` displays it, and its value.
pub uninterp spec fn host_options(params: SshHostConfig) -> Seq<(Seq<char>, Seq<char>)>;

/// The entries that a parsed configuration holds, in the order in which it
/// is walked: each with its host pattern and the host's options.
pub uninterp spec fn config_entries(config: SshConfig) -> Seq<
    (Seq<char>, Seq<(Seq<char>, Seq<char>)>),
>;

/// What `ssh_cfg` makes of a configuration's text: the entries of the
/// parsed configuration, or nothing where it rejects the text.
pub uninterp spec fn parsed(text: Seq<char>) -> Option<
    Seq<(Seq<char>, Seq<(Seq<char>, Seq<char>)>)>,
>;

/// `SshConfigParser::parse_config_contents` parses a configuration held in
/// memory. Its result depends on the text alone: the contract gives the
/// entries of an accepted text the name [`parsed`], and says no more of them.
#[verifier::external_body]
fn parse_config_contents(contents: &str) -> (r: Result<SshConfig, ssh_cfg::Error>)
    ensures
        match r {
            Ok(config) => parsed(contents@) == Some(config_entries(config)),
            Err(_) => parsed(contents@).is_none(),
        },
{
    SshConfigParser::parse_config_contents(contents)
}

/// `IndexMap::len`, reached through `SshConfig`: the number of entries.
#[verifier::external_body]
fn config_len(config: &SshConfig) -> (r: usize)
    ensures
        r == config_entries(*config).len(),
{
    config.len()
}

/// `IndexMap::get_index`, reached through `SshConfig`: the entry at a place
/// in the order in which the configuration is walked, as a copy of its host
/// pattern and of its options; nothing where the place is past the end.
#[verifier::external_body]
fn config_entry(config: &SshConfig, index: usize) -> (r: Option<(String, SshHostConfig)>)
    ensures
        match r {
            Some(entry) => index < config_entries(*config).len() && entry.0@ == config_entries(
                *config,
            )[index as int].0 && host_options(entry.1) == config_entries(*config)[index as int].1,
            None => index >= config_entries(*config).len(),
        },
{
    config.get_index(index).map(|(host, params)| (host.clone(), params.clone()))
}

/// One host of the inventory.
#[derive(Debug)]
pub struct SshGroupItem {
    pub name: String,
    pub full_name: String,
    pub connection_count: u64,
    pub last_used: i64,
    pub host_config: SshHostConfig,
    pub comment: Option<String>,
    pub tags: Option<String>,
}

/// A named group of hosts.
#[derive(Debug)]
pub struct SshGroup {
    pub name: String,
    pub items: Vec<SshGroupItem>,
}

/// What a host of the inventory holds.
pub struct ItemView {
    pub name: Seq<char>,
    pub full_name: Seq<char>,
    pub connection_count: u64,
    pub last_used: i64,
    pub host_config: Seq<(Seq<char>, Seq<char>)>,
    pub comment: Option<Seq<char>>,
    pub tags: Option<Seq<char>>,
}

/// What a group holds.
pub struct GroupView {
    pub name: Seq<char>,
    pub items: Seq<ItemView>,
}

/// What an optional text holds.
pub open spec fn text_view(text: Option<String>) -> Option<Seq<char>> {
    match text {
        Some(t) => Some(t@),
        None => None,
    }
}

impl View for SshGroupItem {
    type V = ItemView;

    open spec fn view(&self) -> ItemView {
        ItemView {
            name: self.name@,
            full_name: self.full_name@,
            connection_count: self.connection_count,
            last_used: self.last_used,
            host_config: host_options(self.host_config),
            comment: text_view(self.comment),
            tags: text_view(self.tags),
        }
    }
}

/// What a list of hosts holds.
pub open spec fn item_views(items: Seq<SshGroupItem>) -> Seq<ItemView> {
    Seq::new(items.len(), |i: int| items[i]@)
}

impl View for SshGroup {
    type V = GroupView;

    open spec fn view(&self) -> GroupView {
        GroupView { name: self.name@, items: item_views(self.items@) }
    }
}

/// What a list of groups holds.
pub open spec fn group_views(groups: Seq<SshGroup>) -> Seq<GroupView> {
    Seq::new(groups.len(), |i: int| groups[i]@)
}

/// The name of the group of the hosts that no annotation gives a group.
pub open spec fn others() -> Seq<char> {
    seq!['O', 't', 'h', 'e', 'r', 's']
}

/// Whether a host pattern is a template for several hosts and no host to
/// connect to: it holds `*` or `?`.
pub open spec fn is_wildcard(pattern: Seq<char>) -> bool {
    pattern.contains('*') || pattern.contains('?')
}

/// Whether every entry is a wildcard pattern: so it is where there is no
/// entry.
pub open spec fn only_wildcards(entries: Seq<(Seq<char>, Seq<(Seq<char>, Seq<char>)>)>) -> bool {
    forall|i: int| 0 <= i < entries.len() ==> is_wildcard(#[trigger] entries[i].0)
}

/// The value of `key` in `map`, where it has one.
pub open spec fn lookup(map: Map<Seq<char>, Seq<char>>, key: Seq<char>) -> Option<Seq<char>> {
    if map.contains_key(key) {
        Some(map[key])
    } else {
        None
    }
}

/// The host of the inventory that an entry of the configuration gives.
pub open spec fn item_of(
    host: Seq<char>,
    options: Seq<(Seq<char>, Seq<char>)>,
    notes: Notes,
    records: Map<Seq<char>, HostEntry>,
) -> ItemView {
    ItemView {
        name: host,
        full_name: host,
        connection_count: usage(records, host).connection_count,
        last_used: usage(records, host).last_used_date,
        host_config: options,
        comment: lookup(notes.comments, host),
        tags: lookup(notes.tags, host),
    }
}

/// The place of the first group named `name` at or behind `from`; the
/// number of groups where there is none.
pub open spec fn first_named(groups: Seq<GroupView>, name: Seq<char>, from: int) -> int
    decreases groups.len() - from,
{
    if from < 0 || from >= groups.len() {
        groups.len() as int
    } else if groups[from].name == name {
        from
    } else {
        first_named(groups, name, from + 1)
    }
}

/// The group with one more host at its end.
pub open spec fn with_item(group: GroupView, item: ItemView) -> GroupView {
    GroupView { name: group.name, items: group.items.push(item) }
}

/// The groups once `item` has its place: at the end of the first group
/// named `tab`, or alone in a new last group of that name; without a `tab`,
/// at the end of the first group.
pub open spec fn placed(groups: Seq<GroupView>, tab: Option<Seq<char>>, item: ItemView) -> Seq<
    GroupView,
> {
    match tab {
        Some(name) => {
            let i = first_named(groups, name, 0);
            if i < groups.len() {
                groups.update(i, with_item(groups[i], item))
            } else {
                groups.push(GroupView { name, items: seq![item] })
            }
        },
        None => groups.update(0, with_item(groups[0], item)),
    }
}

/// The groups after one more entry of the configuration: a wildcard pattern
/// changes nothing, any other host gets its place.
pub open spec fn with_host(
    groups: Seq<GroupView>,
    entry: (Seq<char>, Seq<(Seq<char>, Seq<char>)>),
    notes: Notes,
    records: Map<Seq<char>, HostEntry>,
) -> Seq<GroupView> {
    if is_wildcard(entry.0) {
        groups
    } else {
        placed(groups, lookup(notes.tabs, entry.0), item_of(entry.0, entry.1, notes, records))
    }
}

/// The groups after the given entries, in the order of their making: first
/// the group of the hosts without one, then each named group from the host
/// that opened it.
pub open spec fn collected(
    entries: Seq<(Seq<char>, Seq<(Seq<char>, Seq<char>)>)>,
    notes: Notes,
    records: Map<Seq<char>, HostEntry>,
) -> Seq<GroupView>
    decreases entries.len(),
{
    if entries.len() == 0 {
        seq![GroupView { name: others(), items: Seq::empty() }]
    } else {
        with_host(collected(entries.drop_last(), notes, records), entries.last(), notes, records)
    }
}

/// The groups that hold a host.
pub open spec fn without_empty(groups: Seq<GroupView>) -> Seq<GroupView> {
    groups.filter(|g: GroupView| g.items.len() > 0)
}

/// The groups of the inventory: those that the entries give, the one made
/// last first, without the empty ones.
pub open spec fn built(
    entries: Seq<(Seq<char>, Seq<(Seq<char>, Seq<char>)>)>,
    notes: Notes,
    records: Map<Seq<char>, HostEntry>,
) -> Seq<GroupView> {
    without_empty(collected(entries, notes, records).reverse())
}

/// The annotations that three maps hold.
pub open spec fn notes_of(comments: &TextMap, tags: &TextMap, tabs: &TextMap) -> Notes {
    Notes { comments: comments@, tags: tags@, tabs: tabs@ }
}

/// Whether `pattern` is a wildcard pattern.
pub fn has_wildcard(pattern: &str) -> (r: bool)
    ensures
        r == is_wildcard(pattern@),
{
    let chars = to_chars(pattern);
    let mut i: usize = 0;
    while i < chars.len()
        invariant
            i <= chars.len(),
            chars@ == pattern@,
            forall|j: int| 0 <= j < i ==> chars@[j] != '*' && chars@[j] != '?',
        decreases chars.len() - i,
    {
        if chars[i] == '*' || chars[i] == '?' {
            assert(pattern@.contains(pattern@[i as int]));
            return true;
        }
        i += 1;
    }
    false
}

/// Puts `item` in its place among `groups`.
pub fn place(groups: &mut Vec<SshGroup>, tab: Option<String>, item: SshGroupItem)
    requires
        old(groups).len() > 0,
    ensures
        group_views(final(groups)@) == placed(group_views(old(groups)@), text_view(tab), item@),
        final(groups).len() > 0,
{
    let ghost before = group_views(groups@);
    match tab {
        Some(name) => {
            let mut i: usize = 0;
            while i < groups.len() && groups[i].name != name
                invariant
                    i <= groups.len(),
                    before == group_views(groups@),
                    first_named(before, name@, 0) == first_named(before, name@, i as int),
                decreases groups.len() - i,
            {
                i += 1;
            }
            if i < groups.len() {
                groups[i].items.push(item);
                assert(group_views(groups@) =~= before.update(
                    i as int,
                    with_item(before[i as int], item@),
                )) by {
                    assert(item_views(groups@[i as int].items@) =~= before[i as int].items.push(
                        item@,
                    ));
                }
            } else {
                let mut items: Vec<SshGroupItem> = Vec::new();
                items.push(item);
                assert(item_views(items@) =~= seq![item@]);
                groups.push(SshGroup { name, items });
                assert(group_views(groups@) =~= before.push(
                    GroupView { name: name@, items: seq![item@] },
                ));
            }
        },
        None => {
            groups[0].items.push(item);
            assert(group_views(groups@) =~= before.update(0, with_item(before[0], item@))) by {
                assert(item_views(groups@[0].items@) =~= before[0].items.push(item@));
            }
        },
    }
}

/// Takes one entry of the configuration into `groups`: nothing for a
/// wildcard pattern; for any other host its item, with what the ledger and
/// the annotations say of it, put in its place.
pub fn add_host(
    groups: &mut Vec<SshGroup>,
    host: String,
    params: SshHostConfig,
    db: &FileDatabase,
    comments: &TextMap,
    tags: &TextMap,
    tabs: &TextMap,
)
    requires
        old(groups).len() > 0,
    ensures
        group_views(final(groups)@) == with_host(
            group_views(old(groups)@),
            (host@, host_options(params)),
            notes_of(comments, tags, tabs),
            db@,
        ),
        final(groups).len() > 0,
{
    if has_wildcard(host.as_str()) {
        return ;
    }
    let host_entry = db.get_host_values(host.as_str());
    let tab = tabs.get(host.as_str());
    let item = SshGroupItem {
        name: host.clone(),
        connection_count: host_entry.connection_count,
        last_used: host_entry.last_used_date,
        comment: comments.get(host.as_str()),
        tags: tags.get(host.as_str()),
        full_name: host,
        host_config: params,
    };
    place(groups, tab, item);
}

/// The groups from the last to the first, without the empty ones.
pub fn finish(groups: Vec<SshGroup>) -> (r: Vec<SshGroup>)
    ensures
        group_views(r@) == without_empty(group_views(groups@).reverse()),
{
    let ghost turned = group_views(groups@).reverse();
    let ghost full = |g: GroupView| g.items.len() > 0;
    let mut rest = groups;
    let mut r: Vec<SshGroup> = Vec::new();
    proof {
        reveal(Seq::filter);
        assert(turned.take(0) =~= Seq::<GroupView>::empty());
        assert(group_views(r@) =~= Seq::<GroupView>::empty());
    }
    while rest.len() > 0
        invariant
            rest.len() <= groups.len(),
            turned == group_views(groups@).reverse(),
            turned.len() == groups.len(),
            full == |g: GroupView| g.items.len() > 0,
            group_views(rest@) == group_views(groups@).take(rest.len() as int),
            group_views(r@) == turned.take(groups.len() - rest.len()).filter(full),
        decreases rest.len(),
    {
        let ghost done = groups.len() - rest.len();
        let ghost kept = group_views(r@);
        let ghost before = group_views(rest@);
        let group = rest.pop().unwrap();
        proof {
            reveal(Seq::filter);
            assert(group@ == before.last());
            assert(turned[done] == group@);
            assert(turned.take(done + 1).drop_last() == turned.take(done));
            assert(group_views(rest@) =~= group_views(groups@).take(rest.len() as int));
        }
        if group.items.len() > 0 {
            r.push(group);
            assert(group_views(r@) =~= kept.push(group@));
        }
    }
    assert(turned.take(groups.len() as int) == turned);
    r
}

/// Why there is no inventory.
pub enum StoreError {
    /// The text is no SSH client configuration.
    Config(ssh_cfg::Error),
    /// The configuration names no host to connect to: it is empty, or holds
    /// wildcard patterns only.
    NoEntries,
}

/// The inventory: a parsed configuration and the groups of its hosts.
pub struct SshConfigStore {
    pub config: SshConfig,
    pub groups: Vec<SshGroup>,
}

/// The hosts of the groups, group by group.
pub open spec fn all_items(groups: Seq<GroupView>) -> Seq<ItemView>
    decreases groups.len(),
{
    if groups.len() == 0 {
        Seq::empty()
    } else {
        all_items(groups.drop_last()) + groups.last().items
    }
}

impl SshConfigStore {
    /// The inventory of a configuration, from its parsed form, the
    /// annotations of its hosts and the ledger.
    pub fn from_config(
        config: SshConfig,
        db: &FileDatabase,
        comments: &TextMap,
        tags: &TextMap,
        tabs: &TextMap,
    ) -> (r: Result<SshConfigStore, StoreError>)
        ensures
            match r {
                Ok(store) => store.config == config && store.groups.len() > 0 && group_views(
                    store.groups@,
                ) == built(config_entries(config), notes_of(comments, tags, tabs), db@)
                    && !only_wildcards(config_entries(config)),
                Err(StoreError::NoEntries) => only_wildcards(config_entries(config)),
                Err(StoreError::Config(_)) => false,
            },
    {
        let mut scs = SshConfigStore { config, groups: Vec::new() };
        scs.create_ssh_groups(db, comments, tags, tabs);
        proof {
            crate::invariants::lemma_empty_inventory(
                config_entries(config),
                notes_of(comments, tags, tabs),
                db@,
            );
        }
        if scs.groups.len() == 0 {
            return Err(StoreError::NoEntries);
        }
        Ok(scs)
    }

    /// The inventory of the configuration with the text `contents`, with
    /// the annotations that its comment lines give and what `db` records.
    pub fn new(contents: &str, db: &FileDatabase) -> (r: Result<SshConfigStore, StoreError>)
        ensures
            match r {
                Ok(store) => parsed(contents@) == Some(config_entries(store.config))
                    && store.groups.len() > 0 && group_views(store.groups@) == built(
                    config_entries(store.config),
                    annotations(contents@),
                    db@,
                ) && !only_wildcards(config_entries(store.config)),
                Err(StoreError::NoEntries) => match parsed(contents@) {
                    Some(entries) => only_wildcards(entries),
                    None => false,
                },
                Err(StoreError::Config(_)) => parsed(contents@).is_none(),
            },
    {
        match parse_config_contents(contents) {
            Ok(config) => {
                let (comments, tags, tabs) = get_comments(contents);
                SshConfigStore::from_config(config, db, &comments, &tags, &tabs)
            },
            Err(error) => Err(StoreError::Config(error)),
        }
    }

    /// Makes the groups anew from the configuration.
    pub fn create_ssh_groups(
        &mut self,
        db: &FileDatabase,
        comments: &TextMap,
        tags: &TextMap,
        tabs: &TextMap,
    )
        ensures
            final(self).config == old(self).config,
            group_views(final(self).groups@) == built(
                config_entries(old(self).config),
                notes_of(comments, tags, tabs),
                db@,
            ),
    {
        let ghost entries = config_entries(self.config);
        let ghost notes = notes_of(comments, tags, tabs);
        let mut groups: Vec<SshGroup> = Vec::new();
        groups.push(SshGroup { name: to_text_others(), items: Vec::new() });
        proof {
            assert(entries.take(0) =~= Seq::empty());
            assert(item_views(groups@[0].items@) =~= Seq::<ItemView>::empty());
            assert(group_views(groups@) =~= collected(entries.take(0), notes, db@));
        }
        let n = config_len(&self.config);
        let mut i: usize = 0;
        while i < n
            invariant
                i <= n == entries.len(),
                entries == config_entries(self.config),
                self.config == old(self).config,
                notes == notes_of(comments, tags, tabs),
                groups.len() > 0,
                group_views(groups@) == collected(entries.take(i as int), notes, db@),
            decreases n - i,
        {
            assert(entries.take(i + 1).drop_last() == entries.take(i as int));
            match config_entry(&self.config, i) {
                Some((host, params)) => {
                    add_host(&mut groups, host, params, db, comments, tags, tabs);
                },
                None => {},
            }
            i += 1;
        }
        assert(entries.take(n as int) == entries);
        self.groups = finish(groups);
    }

    /// The number of groups.
    pub fn group_count(&self) -> (r: usize)
        ensures
            r == self.groups.len(),
    {
        self.groups.len()
    }

    /// The group at `index`, where there is one.
    pub fn group(&self, index: usize) -> (r: Option<&SshGroup>)
        ensures
            match r {
                Some(group) => index < self.groups.len() && *group == self.groups@[index as int],
                None => index >= self.groups.len(),
            },
    {
        if index < self.groups.len() {
            Some(&self.groups[index])
        } else {
            None
        }
    }

    /// The hosts of all groups: group by group, each group's hosts in their
    /// order.
    pub fn flatten(&self) -> (r: Vec<&SshGroupItem>)
        ensures
            item_refs(r@) == all_items(group_views(self.groups@)),
    {
        let ghost gv = group_views(self.groups@);
        let mut r: Vec<&SshGroupItem> = Vec::new();
        let mut i: usize = 0;
        proof {
            assert(gv.take(0) =~= Seq::<GroupView>::empty());
            assert(item_refs(r@) =~= Seq::<ItemView>::empty());
        }
        while i < self.groups.len()
            invariant
                i <= self.groups.len(),
                gv == group_views(self.groups@),
                item_refs(r@) == all_items(gv.take(i as int)),
            decreases self.groups.len() - i,
        {
            let group = &self.groups[i];
            let ghost before = item_refs(r@);
            let mut j: usize = 0;
            while j < group.items.len()
                invariant
                    j <= group.items.len(),
                    item_refs(r@) == before + item_views(group.items@).take(j as int),
                decreases group.items.len() - j,
            {
                let ghost sofar = item_refs(r@);
                r.push(&group.items[j]);
                assert(item_refs(r@) =~= sofar.push(group.items@[j as int]@));
                j += 1;
                assert(item_views(group.items@).take(j as int) =~= item_views(group.items@).take(
                    j - 1,
                ).push(group.items@[j - 1]@));
            }
            assert(item_views(group.items@).take(j as int) == item_views(group.items@));
            assert(gv.take(i + 1).drop_last() == gv.take(i as int));
            i += 1;
        }
        assert(gv.take(i as int) == gv);
        r
    }
}

/// What a list of borrowed hosts holds.
pub open spec fn item_refs(items: Seq<&SshGroupItem>) -> Seq<ItemView> {
    Seq::new(items.len(), |i: int| items[i]@)
}

/// The name of the group of the hosts without one.
fn to_text_others() -> (r: String)
    ensures
        r@ == others(),
{
    let chars: Vec<char> = vec!['O', 't', 'h', 'e', 'r', 's'];
    assert(chars@ =~= others());
    crate::text::to_text(&chars)
}

} // verus!
