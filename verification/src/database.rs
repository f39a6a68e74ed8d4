//! The usage ledger: for each host, how often a connection to it was opened
//! and when the last one was.

use crate::ledger_text::{decode_entries, encode_entries, encoded, is_encoding, lemma_encoded_unique};
use crate::text::{to_chars, to_text};
use crate::text_map::same_chars;
use vstd::prelude::*;

verus! {

/// What the ledger records of one host.
#[derive(Clone, Copy, Debug, PartialEq, Eq, Structural)]
pub struct HostEntry {
    /// How many connections were opened.
    pub connection_count: u64,
    /// When the last one was opened, in seconds since the Unix epoch; 0 if
    /// none was.
    pub last_used_date: i64,
}

/// The record of a host of which nothing is recorded.
pub open spec fn unused() -> HostEntry {
    HostEntry { connection_count: 0, last_used_date: 0 }
}

/// The map that a list of records stands for: each is inserted in turn, so
/// the last record of a host decides.
pub open spec fn records_of(entries: Seq<(Seq<char>, HostEntry)>) -> Map<Seq<char>, HostEntry>
    decreases entries.len(),
{
    if entries.len() == 0 {
        Map::empty()
    } else {
        records_of(entries.drop_last()).insert(entries.last().0, entries.last().1)
    }
}

/// The records of a list, each host as a sequence.
pub open spec fn record_views(entries: Seq<(Vec<char>, HostEntry)>) -> Seq<(Seq<char>, HostEntry)> {
    Seq::new(entries.len(), |i: int| (entries[i].0@, entries[i].1))
}

/// What a ledger with the records `records` says of `host`.
pub open spec fn usage(records: Map<Seq<char>, HostEntry>, host: Seq<char>) -> HostEntry {
    if records.contains_key(host) {
        records[host]
    } else {
        unused()
    }
}

/// The place of the last record of `host`; -1 where it has none.
pub open spec fn last_record(records: Seq<(Seq<char>, HostEntry)>, host: Seq<char>) -> int
    decreases records.len(),
{
    if records.len() == 0 {
        -1
    } else if records.last().0 == host {
        records.len() - 1
    } else {
        last_record(records.drop_last(), host)
    }
}

/// The records once `entry` is recorded of `host`: in the place of the
/// host's last record, or behind all records where it has none.
pub open spec fn with_record(
    records: Seq<(Seq<char>, HostEntry)>,
    host: Seq<char>,
    entry: HostEntry,
) -> Seq<(Seq<char>, HostEntry)> {
    let i = last_record(records, host);
    if i >= 0 {
        records.update(i, (host, entry))
    } else {
        records.push((host, entry))
    }
}

/// Replacing the last record of a host replaces what the ledger says of it.
proof fn lemma_replace_last(entries: Seq<(Seq<char>, HostEntry)>, i: int, entry: HostEntry)
    requires
        0 <= i < entries.len(),
        forall|j: int| i < j < entries.len() ==> entries[j].0 != entries[i].0,
    ensures
        records_of(entries.update(i, (entries[i].0, entry))) == records_of(entries).insert(
            entries[i].0,
            entry,
        ),
    decreases entries.len(),
{
    let host = entries[i].0;
    let changed = entries.update(i, (host, entry));
    if i == entries.len() - 1 {
        assert(changed.drop_last() == entries.drop_last());
        assert(records_of(changed) =~= records_of(entries).insert(host, entry));
    } else {
        lemma_replace_last(entries.drop_last(), i, entry);
        assert(changed.drop_last() == entries.drop_last().update(i, (host, entry)));
        assert(changed.last() == entries.last());
        assert(records_of(changed) =~= records_of(entries).insert(host, entry));
    }
}

/// The usage ledger.
pub struct FileDatabase {
    entries: Vec<(Vec<char>, HostEntry)>,
}

impl View for FileDatabase {
    type V = Map<Seq<char>, HostEntry>;

    closed spec fn view(&self) -> Map<Seq<char>, HostEntry> {
        records_of(record_views(self.entries@))
    }
}

impl FileDatabase {
    /// The records that the ledger keeps, in their order.
    pub closed spec fn records(&self) -> Seq<(Seq<char>, HostEntry)> {
        record_views(self.entries@)
    }

    /// What the ledger says is what its records say, the last record of a
    /// host deciding.
    pub proof fn lemma_view(&self)
        ensures
            self@ == records_of(self.records()),
    {
    }

    /// The ledger without records.
    pub fn new() -> (r: FileDatabase)
        ensures
            r@ == Map::<Seq<char>, HostEntry>::empty(),
            r.records() == Seq::<(Seq<char>, HostEntry)>::empty(),
    {
        let r = FileDatabase { entries: Vec::new() };
        assert(r.records() =~= Seq::<(Seq<char>, HostEntry)>::empty());
        r
    }

    /// The ledger as text, to be kept in a file.
    pub fn encode(&self) -> (r: String)
        ensures
            r@ == encoded(self.records()),
    {
        to_text(&encode_entries(&self.entries))
    }

    /// The ledger that a text holds: the one whose text it is. There is
    /// none where it is the text of no ledger.
    pub fn decode(text: &str) -> (r: Option<FileDatabase>)
        ensures
            match r {
                Some(db) => encoded(db.records()) == text@,
                None => !is_encoding(text@),
            },
    {
        match decode_entries(&to_chars(text)) {
            Some(entries) => Some(FileDatabase { entries }),
            None => None,
        }
    }

    /// Where the last record of `host` stands, if it has one.
    fn position(&self, host: &Vec<char>) -> (r: Option<usize>)
        ensures
            match r {
                Some(i) => i < self.entries.len() && self.entries@[i as int].0@ == host@ && self@[host@]
                    == self.entries@[i as int].1 && self@.contains_key(host@) && forall|j: int|
                    i < j < self.entries.len() ==> self.entries@[j].0@ != host@,
                None => !self@.contains_key(host@),
            },
            match r {
                Some(i) => i == last_record(self.records(), host@),
                None => last_record(self.records(), host@) == -1,
            },
    {
        let ghost all = record_views(self.entries@);
        let mut found: Option<usize> = None;
        let mut i: usize = 0;
        assert(all.take(0) =~= Seq::<(Seq<char>, HostEntry)>::empty());
        while i < self.entries.len()
            invariant
                i <= self.entries.len(),
                all == record_views(self.entries@),
                match found {
                    Some(j) => j < i && self.entries@[j as int].0@ == host@ && records_of(
                        all.take(i as int),
                    ).contains_key(host@) && records_of(all.take(i as int))[host@]
                        == self.entries@[j as int].1 && forall|k: int|
                        j < k < i ==> self.entries@[k].0@ != host@,
                    None => !records_of(all.take(i as int)).contains_key(host@),
                },
                match found {
                    Some(j) => j == last_record(all.take(i as int), host@),
                    None => last_record(all.take(i as int), host@) == -1,
                },
            decreases self.entries.len() - i,
        {
            assert(all.take(i + 1).drop_last() == all.take(i as int));
            if same_chars(&self.entries[i].0, host) {
                found = Some(i);
            }
            i += 1;
        }
        assert(all.take(i as int) == all);
        found
    }

    /// What the ledger says of `host`: its record, or that of an unused host
    /// where it has none. The ledger stays as it is.
    pub fn get_host_values(&self, host: &str) -> (r: HostEntry)
        ensures
            r == usage(self@, host@),
    {
        let key = to_chars(host);
        match self.position(&key) {
            Some(i) => self.entries[i].1,
            None => HostEntry { connection_count: 0, last_used_date: 0 },
        }
    }

    /// Records of `host` the given count and time, in place of what was
    /// recorded of it.
    pub fn save_host_values(&mut self, host: &str, connection_count: u64, last_used_date: i64)
        ensures
            final(self)@ == old(self)@.insert(
                host@,
                HostEntry { connection_count, last_used_date },
            ),
            final(self).records() == with_record(
                old(self).records(),
                host@,
                HostEntry { connection_count, last_used_date },
            ),
    {
        let key = to_chars(host);
        let entry = HostEntry { connection_count, last_used_date };
        match self.position(&key) {
            Some(i) => {
                proof {
                    lemma_replace_last(record_views(self.entries@), i as int, entry);
                }
                self.entries.set(i, (key, entry));
                assert(record_views(self.entries@) =~= record_views(old(self).entries@).update(
                    i as int,
                    (host@, entry),
                ));
            },
            None => {
                self.entries.push((key, entry));
                assert(record_views(self.entries@).drop_last() == record_views(old(self).entries@));
                assert(record_views(self.entries@) =~= record_views(old(self).entries@).push(
                    (host@, entry),
                ));
            },
        }
    }

    /// Records one more connection to `host`, opened at `timestamp`.
    pub fn record_connection(&mut self, host: &str, timestamp: i64)
        requires
            usage(old(self)@, host@).connection_count < u64::MAX,
        ensures
            final(self)@ == old(self)@.insert(
                host@,
                HostEntry {
                    connection_count: (usage(old(self)@, host@).connection_count + 1) as u64,
                    last_used_date: timestamp,
                },
            ),
            final(self).records() == with_record(
                old(self).records(),
                host@,
                HostEntry {
                    connection_count: (usage(old(self)@, host@).connection_count + 1) as u64,
                    last_used_date: timestamp,
                },
            ),
    {
        let before = self.get_host_values(host);
        self.save_host_values(host, before.connection_count + 1, timestamp);
    }
}

/// A ledger read back from the text of a ledger says of every host what
/// that one said, and every ledger's text can be read back.
pub proof fn lemma_round_trip(db: FileDatabase, back: FileDatabase)
    requires
        encoded(back.records()) == encoded(db.records()),
    ensures
        back.records() == db.records(),
        back@ == db@,
        is_encoding(encoded(db.records())),
{
    lemma_encoded_unique(back.records(), db.records());
    back.lemma_view();
    db.lemma_view();
}

/// What was recorded of a host is what a ledger read back from the text
/// says of it.
pub proof fn lemma_saved_survives(
    before: Map<Seq<char>, HostEntry>,
    saved: FileDatabase,
    back: FileDatabase,
    host: Seq<char>,
    entry: HostEntry,
)
    requires
        saved@ == before.insert(host, entry),
        encoded(back.records()) == encoded(saved.records()),
    ensures
        usage(back@, host) == entry,
{
    lemma_round_trip(saved, back);
}

} // verus!
