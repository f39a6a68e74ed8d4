//! The state of a session: the inventory, what is selected in it, and what
//! the screen is to show.

use crate::annotations::annotations;
use crate::database::FileDatabase;
use crate::ssh_config_store::{
    all_items, built, config_entries, group_views, item_refs, item_views, only_wildcards, parsed,
    ItemView, SshConfigStore, SshGroup, SshGroupItem, StoreError,
};
use vstd::prelude::*;
use vstd::string::StringExecFns;

verus! {

/// Which row of the list of hosts is selected, if any.
#[derive(Clone, Copy, Debug, PartialEq, Eq, Structural)]
pub struct HostState {
    pub selected: Option<usize>,
}

impl HostState {
    /// The state in which no row is selected.
    pub fn new() -> (r: HostState)
        ensures
            r.selected.is_none(),
    {
        HostState { selected: None }
    }

    /// The selected row.
    pub fn selected(&self) -> (r: Option<usize>)
        ensures
            r == self.selected,
    {
        self.selected
    }

    /// Makes `index` the selected row.
    pub fn select(&mut self, index: Option<usize>)
        ensures
            final(self).selected == index,
    {
        self.selected = index;
    }
}

/// Which options the screen shows.
pub enum ConfigDisplayMode {
    Global,
    Selected,
}

/// What the session is doing.
#[derive(Debug, PartialEq)]
pub enum AppState {
    Normal,
    Searching,
    SpawnSsh,
    Ping(String),
    Quit,
}

/// The result of a search among the hosts of the inventory: the places of
/// the hosts it found, counted through all groups in their order.
pub struct Searcher {
    pub hits: Vec<usize>,
}

/// The hosts at the given places; a place past the end gives none.
pub open spec fn picked(all: Seq<ItemView>, hits: Seq<usize>) -> Seq<ItemView>
    decreases hits.len(),
{
    if hits.len() == 0 {
        Seq::empty()
    } else {
        let before = picked(all, hits.drop_last());
        if hits.last() < all.len() {
            before.push(all[hits.last() as int])
        } else {
            before
        }
    }
}

impl Searcher {
    /// A search that found nothing.
    pub fn new() -> (r: Searcher)
        ensures
            r.hits@.len() == 0,
    {
        Searcher { hits: Vec::new() }
    }

    /// The hosts that the search found, in the order of its hits.
    pub fn get_filtered_items<'a>(&self, app: &'a App) -> (r: Vec<&'a SshGroupItem>)
        ensures
            item_refs(r@) == picked(all_items(group_views(app.scs.groups@)), self.hits@),
    {
        let all = app.get_all_items();
        let ghost universe = all_items(group_views(app.scs.groups@));
        let mut r: Vec<&SshGroupItem> = Vec::new();
        let mut i: usize = 0;
        proof {
            assert(self.hits@.take(0) =~= Seq::<usize>::empty());
            assert(item_refs(r@) =~= Seq::<ItemView>::empty());
        }
        while i < self.hits.len()
            invariant
                i <= self.hits.len(),
                item_refs(all@) == universe,
                item_refs(r@) == picked(universe, self.hits@.take(i as int)),
            decreases self.hits.len() - i,
        {
            let ghost sofar = item_refs(r@);
            let hit = self.hits[i];
            assert(self.hits@.take(i + 1).drop_last() == self.hits@.take(i as int));
            if hit < all.len() {
                r.push(all[hit]);
                assert(item_refs(r@) =~= sofar.push(universe[hit as int]));
            }
            i += 1;
        }
        assert(self.hits@.take(i as int) == self.hits@);
        r
    }
}

/// The session.
pub struct App {
    pub state: AppState,
    pub state_info: String,
    pub searcher: Searcher,
    pub selected_group: usize,
    pub host_state: HostState,
    pub scs: SshConfigStore,
    pub config_display_mode: ConfigDisplayMode,
    pub config_paragraph_offset: u16,
    pub db: FileDatabase,
    pub show_help: bool,
}

/// The row after `row` among `len` rows, the first after the last.
pub open spec fn next_row(row: int, len: int) -> int {
    (row + 1) % len
}

/// The row before `row` among `len` rows, the last before the first.
pub open spec fn previous_row(row: int, len: int) -> int {
    (row + len - 1) % len
}

/// The row that a step from `row` leads to.
pub open spec fn rotated(row: int, len: int, rot_right: bool) -> int {
    if rot_right {
        next_row(row, len)
    } else {
        previous_row(row, len)
    }
}

/// A step leads from a row to its neighbour among the remainders of `len`.
pub proof fn lemma_rotated(row: int, len: int)
    requires
        row >= 0,
        len > 0,
    ensures
        next_row(row, len) == if row % len + 1 == len {
            0
        } else {
            row % len + 1
        },
        previous_row(row, len) == if row % len == 0 {
            len - 1
        } else {
            row % len - 1
        },
        0 <= row % len < len,
{
    let q = row / len;
    let at = row % len;
    vstd::arithmetic::div_mod::lemma_fundamental_div_mod(row, len);
    assert(row == q * len + at) by (nonlinear_arith)
        requires
            row == len * q + at,
    ;
    assert((q + 1) * len == q * len + len) by (nonlinear_arith);
    vstd::arithmetic::div_mod::lemma_mod_bound(row, len);
    if at + 1 == len {
        vstd::arithmetic::div_mod::lemma_fundamental_div_mod_converse(row + 1, len, q + 1, 0);
    } else {
        vstd::arithmetic::div_mod::lemma_fundamental_div_mod_converse(row + 1, len, q, at + 1);
    }
    if at == 0 {
        vstd::arithmetic::div_mod::lemma_fundamental_div_mod_converse(
            row + len - 1,
            len,
            q,
            len - 1,
        );
    } else {
        vstd::arithmetic::div_mod::lemma_fundamental_div_mod_converse(
            row + len - 1,
            len,
            q + 1,
            at - 1,
        );
    }
}

/// The row that a step from `row` leads to, among `len` rows.
pub fn rotate(row: usize, len: usize, rot_right: bool) -> (r: usize)
    requires
        len > 0,
    ensures
        r == rotated(row as int, len as int, rot_right),
        r < len,
{
    let at: usize = row % len;
    proof {
        lemma_rotated(row as int, len as int);
    }
    if rot_right {
        if at + 1 == len {
            0
        } else {
            at + 1
        }
    } else {
        if at == 0 {
            len - 1
        } else {
            at - 1
        }
    }
}

/// The paragraph's offset after a scroll by `offset` lines: never above the
/// first line, and counted within sixteen bits.
pub open spec fn scrolled(from: u16, offset: i64) -> int {
    (if from + offset < 0 {
        0
    } else {
        from + offset
    }) % 0x1_0000
}

/// The line that tells of a ping to `host`.
pub open spec fn ping_line(host: Seq<char>) -> Seq<char> {
    "64 bytes from "@ + host + " (10.157.181.172): icmp_seq=1 ttl=53 time=70.0 ms"@
}

impl App {
    /// Whether the selected group is one of the inventory's.
    pub open spec fn valid(&self) -> bool {
        self.selected_group < self.scs.groups.len()
    }

    /// The session on the configuration with the text `contents` and the
    /// ledger `db`: the first group selected, no host selected, nothing
    /// searched.
    pub fn new(contents: &str, db: FileDatabase) -> (r: Result<App, StoreError>)
        ensures
            match r {
                Ok(app) => {
                    &&& parsed(contents@) == Some(config_entries(app.scs.config))
                    &&& group_views(app.scs.groups@) == built(
                        config_entries(app.scs.config),
                        annotations(contents@),
                        db@,
                    )
                    &&& app.db == db
                    &&& app.valid()
                    &&& app.selected_group == 0
                    &&& app.host_state.selected.is_none()
                    &&& app.config_paragraph_offset == 0
                    &&& app.config_display_mode is Selected
                    &&& app.state is Normal
                    &&& app.state_info@ == "Welcome to FastSSH!"@
                    &&& !app.show_help
                    &&& app.searcher.hits@.len() == 0
                },
                Err(StoreError::NoEntries) => match parsed(contents@) {
                    Some(entries) => only_wildcards(entries),
                    None => false,
                },
                Err(StoreError::Config(_)) => parsed(contents@).is_none(),
            },
    {
        match SshConfigStore::new(contents, &db) {
            Ok(scs) => Ok(
                App {
                    state: AppState::Normal,
                    state_info: String::from_str("Welcome to FastSSH!"),
                    selected_group: 0,
                    config_paragraph_offset: 0,
                    scs,
                    host_state: HostState::new(),
                    config_display_mode: ConfigDisplayMode::Selected,
                    db,
                    searcher: Searcher::new(),
                    show_help: false,
                },
            ),
            Err(error) => Err(error),
        }
    }

    /// The selected group.
    pub fn get_selected_group(&self) -> (r: &SshGroup)
        requires
            self.valid(),
        ensures
            *r == self.scs.groups@[self.selected_group as int],
    {
        &self.scs.groups[self.selected_group]
    }

    /// The hosts of all groups, group by group.
    pub fn get_all_items(&self) -> (r: Vec<&SshGroupItem>)
        ensures
            item_refs(r@) == all_items(group_views(self.scs.groups@)),
    {
        self.scs.flatten()
    }

    /// Whether the list on the screen can be made: a search is on, or the
    /// selected group is one of the inventory's.
    pub open spec fn listable(&self) -> bool {
        self.state is Searching || self.valid()
    }

    /// The hosts that the list on the screen holds.
    pub open spec fn listed(&self) -> Seq<ItemView> {
        if self.state is Searching {
            picked(all_items(group_views(self.scs.groups@)), self.searcher.hits@)
        } else {
            item_views(self.scs.groups@[self.selected_group as int].items@)
        }
    }

    /// The hosts that the list on the screen holds: during a search those
    /// that it found, else those of the selected group.
    pub fn get_items_based_on_mode(&self) -> (r: Vec<&SshGroupItem>)
        requires
            self.listable(),
        ensures
            item_refs(r@) == self.listed(),
    {
        match self.state {
            AppState::Searching => self.searcher.get_filtered_items(self),
            _ => {
                let group = self.get_selected_group();
                let mut r: Vec<&SshGroupItem> = Vec::new();
                let mut i: usize = 0;
                while i < group.items.len()
                    invariant
                        i <= group.items.len(),
                        r.len() == i,
                        forall|j: int| 0 <= j < i ==> r@[j] == &group.items@[j],
                    decreases group.items.len() - i,
                {
                    r.push(&group.items[i]);
                    i += 1;
                }
                assert(item_refs(r@) =~= item_views(group.items@));
                r
            },
        }
    }

    /// The selected host: the one in the selected row of the list, if a row
    /// is selected and the list has it.
    pub fn get_selected_item(&self) -> (r: Option<&SshGroupItem>)
        requires
            self.host_state.selected is Some ==> self.listable(),
        ensures
            match r {
                Some(item) => match self.host_state.selected {
                    Some(row) => row < self.listed().len() && item@ == self.listed()[row as int],
                    None => false,
                },
                None => match self.host_state.selected {
                    Some(row) => row >= self.listed().len(),
                    None => true,
                },
            },
    {
        match self.host_state.selected() {
            Some(row) => {
                let items = self.get_items_based_on_mode();
                if row < items.len() {
                    Some(items[row])
                } else {
                    None
                }
            },
            None => None,
        }
    }

    /// Selects the next group, or the one before: the first follows the
    /// last.
    pub fn change_selected_group(&mut self, rot_right: bool)
        requires
            old(self).valid(),
        ensures
            final(self).valid(),
            final(self).selected_group == rotated(
                old(self).selected_group as int,
                old(self).scs.groups.len() as int,
                rot_right,
            ),
            *final(self) == (App { selected_group: final(self).selected_group, ..*old(self) }),
    {
        self.selected_group = rotate(self.selected_group, self.scs.groups.len(), rot_right);
    }

    /// Selects the next row of the list, or the one before: the first
    /// follows the last. Without a selected row, selects the first; with an
    /// empty list, changes nothing.
    pub fn change_selected_item(&mut self, rot_right: bool)
        requires
            old(self).listable(),
        ensures
            *final(self) == (App { host_state: final(self).host_state, ..*old(self) }),
            final(self).host_state.selected == if old(self).listed().len() == 0 {
                old(self).host_state.selected
            } else {
                match old(self).host_state.selected {
                    Some(row) => Some(
                        rotated(row as int, old(self).listed().len() as int, rot_right) as usize,
                    ),
                    None => Some(0usize),
                }
            },
    {
        let items_len = self.get_items_based_on_mode().len();
        if items_len == 0 {
            return ;
        }
        let row = match self.host_state.selected() {
            Some(row) => rotate(row, items_len, rot_right),
            None => 0,
        };
        self.host_state.select(Some(row));
    }

    /// Scrolls the paragraph of options by `offset` lines.
    pub fn scroll_config_paragraph(&mut self, offset: i64)
        ensures
            final(self).config_paragraph_offset == scrolled(
                old(self).config_paragraph_offset,
                offset,
            ),
            *final(self) == (App {
                config_paragraph_offset: final(self).config_paragraph_offset,
                ..*old(self)
            }),
    {
        let sum: i128 = self.config_paragraph_offset as i128 + offset as i128;
        let line: i128 = if sum < 0 {
            0
        } else {
            sum
        };
        self.config_paragraph_offset = (line % 0x1_0000) as u16;
    }

    /// Shows the other set of options.
    pub fn toggle_config_display_mode(&mut self)
        ensures
            final(self).config_display_mode is Global <==> old(self).config_display_mode is Selected,
            *final(self) == (App {
                config_display_mode: final(self).config_display_mode,
                ..*old(self)
            }),
    {
        self.config_display_mode =
        match self.config_display_mode {
            ConfigDisplayMode::Global => ConfigDisplayMode::Selected,
            ConfigDisplayMode::Selected => ConfigDisplayMode::Global,
        };
    }

    /// Says what is being done from now on.
    pub fn set_state(&mut self, state: AppState)
        ensures
            *final(self) == (App { state, ..*old(self) }),
    {
        self.state = state;
    }

    /// What is being done.
    pub fn state(&self) -> (r: &AppState)
        ensures
            *r == self.state,
    {
        &self.state
    }

    /// Sets the line that tells the user what is being done.
    pub fn set_state_info(&mut self, state_info: String)
        ensures
            *final(self) == (App { state_info, ..*old(self) }),
    {
        self.state_info = state_info;
    }

    /// The line that tells the user what is being done.
    pub fn state_info(&self) -> (r: &str)
        ensures
            r@ == self.state_info@,
    {
        self.state_info.as_str()
    }

    /// Shows the help if it is hidden, hides it if it is shown.
    pub fn toggle_help(&mut self)
        ensures
            *final(self) == (App { show_help: !old(self).show_help, ..*old(self) }),
    {
        self.show_help = !self.show_help;
    }

    /// Whether the help is shown.
    pub fn show_help(&self) -> (r: bool)
        ensures
            r == self.show_help,
    {
        self.show_help
    }

    /// Takes stock once the user's input was handled: sets the line that
    /// tells what is being done, ends a ping, and says whether the session
    /// is over, as it is when a connection is to be opened or the user
    /// leaves.
    pub fn after_input(&mut self) -> (leave: bool)
        ensures
            *final(self) == (App {
                state: final(self).state,
                state_info: final(self).state_info,
                ..*old(self)
            }),
            match old(self).state {
                AppState::Normal => {
                    &&& !leave
                    &&& final(self).state is Normal
                    &&& final(self).state_info@ == ">> "@
                },
                AppState::Searching => {
                    &&& !leave
                    &&& final(self).state is Searching
                    &&& final(self).state_info@ == "Search Mode ... Press ESC to cancel."@
                },
                AppState::Ping(host) => {
                    &&& !leave
                    &&& final(self).state is Normal
                    &&& final(self).state_info@ == ping_line(host@)
                },
                AppState::SpawnSsh => {
                    &&& leave
                    &&& final(self).state is SpawnSsh
                    &&& final(self).state_info@ == "Connect to ..."@
                },
                AppState::Quit => {
                    &&& leave
                    &&& final(self).state is Quit
                    &&& final(self).state_info@ == "Terminating."@
                },
            },
    {
        match &self.state {
            AppState::Normal => {
                self.state_info = String::from_str(">> ");
                false
            },
            AppState::Searching => {
                self.state_info = String::from_str("Search Mode ... Press ESC to cancel.");
                false
            },
            AppState::Ping(host) => {
                let line = String::from_str("64 bytes from ").concat(host.as_str()).concat(
                    " (10.157.181.172): icmp_seq=1 ttl=53 time=70.0 ms",
                );
                self.state_info = line;
                self.state = AppState::Normal;
                false
            },
            AppState::SpawnSsh => {
                self.state_info = String::from_str("Connect to ...");
                true
            },
            AppState::Quit => {
                self.state_info = String::from_str("Terminating.");
                true
            },
        }
    }

    /// The program's name.
    pub fn app_name(&self) -> (r: &str)
        ensures
            r@ == "FastSSH"@,
    {
        "FastSSH"
    }

    /// The program's version.
    pub fn app_version(&self) -> (r: &str)
        ensures
            r@ == "0.1.0"@,
    {
        "0.1.0"
    }
}

} // verus!
