//! Annotations of hosts, read from the comment lines of an SSH client
//! configuration.
//!
//! A comment line stands for the `Host` line that follows it. `# tags: a, b`
//! gives the host its tags, `# tab: name` its group, any other comment line
//! one line of its note. A blank line drops what has been read and not yet
//! given to a host.

use crate::text::{
    join, join_with, slice, split, split_at_each, starts_with, to_chars, trim, trimmed, views,
};
use crate::text_map::{copy_chars, TextMap};
use vstd::prelude::*;

verus! {

/// The word that opens a list of tags.
pub open spec fn tags_mark() -> Seq<char> {
    seq!['t', 'a', 'g', 's', ':']
}

/// The word that opens the name of a group.
pub open spec fn tab_mark() -> Seq<char> {
    seq!['t', 'a', 'b', ':']
}

/// The word that opens a host's entry.
pub open spec fn host_mark() -> Seq<char> {
    seq!['H', 'o', 's', 't', ' ']
}

/// What stands between two tags of a host.
pub open spec fn tag_gap() -> Seq<char> {
    seq![',', ' ']
}

/// What stands between two lines of a note.
pub open spec fn line_gap() -> Seq<char> {
    seq!['\n']
}

/// What the comment lines have given since the last `Host` line or blank
/// line, and no host has yet.
pub struct Pending {
    pub note: Seq<Seq<char>>,
    pub tags: Seq<Seq<char>>,
    pub tab: Option<Seq<char>>,
}

/// The annotations of the hosts: note, tags and group, each by host pattern.
pub struct Notes {
    pub comments: Map<Seq<char>, Seq<char>>,
    pub tags: Map<Seq<char>, Seq<char>>,
    pub tabs: Map<Seq<char>, Seq<char>>,
}

/// The reader's state between two lines.
pub struct Scan {
    pub pending: Pending,
    pub notes: Notes,
}

/// The state made of what is pending and what the hosts have.
pub open spec fn state(pending: Pending, notes: Notes) -> Scan {
    Scan { pending, notes }
}

/// Nothing pending.
pub open spec fn nothing() -> Pending {
    Pending { note: Seq::empty(), tags: Seq::empty(), tab: None }
}

/// The state before the first line.
pub open spec fn start() -> Scan {
    Scan {
        pending: nothing(),
        notes: Notes { comments: Map::empty(), tags: Map::empty(), tabs: Map::empty() },
    }
}

/// Each piece without the white space at its ends.
pub open spec fn trimmed_each(parts: Seq<Seq<char>>) -> Seq<Seq<char>> {
    Seq::new(parts.len(), |i: int| trimmed(parts[i]))
}

/// The tags that the text behind `tags:` lists.
pub open spec fn tag_list(rest: Seq<char>) -> Seq<Seq<char>> {
    trimmed_each(split(trimmed(rest), ','))
}

/// The annotations once `host` has been given what is pending: a note if a
/// line of it is pending, tags if a list is, a group if one is.
pub open spec fn given(notes: Notes, pending: Pending, host: Seq<char>) -> Notes {
    Notes {
        comments: if pending.note.len() > 0 {
            notes.comments.insert(host, join(pending.note, line_gap()))
        } else {
            notes.comments
        },
        tags: if pending.tags.len() > 0 {
            notes.tags.insert(host, join(pending.tags, tag_gap()))
        } else {
            notes.tags
        },
        tabs: match pending.tab {
            Some(name) => notes.tabs.insert(host, name),
            None => notes.tabs,
        },
    }
}

/// The state after a comment line whose text, behind the `#`, is `text`.
pub open spec fn after_comment(st: Scan, text: Seq<char>) -> Scan {
    if tags_mark().is_prefix_of(text) {
        Scan {
            pending: Pending {
                note: st.pending.note,
                tags: tag_list(text.skip(5)),
                tab: st.pending.tab,
            },
            notes: st.notes,
        }
    } else if tab_mark().is_prefix_of(text) {
        Scan {
            pending: Pending {
                note: st.pending.note,
                tags: st.pending.tags,
                tab: Some(trimmed(text.skip(4))),
            },
            notes: st.notes,
        }
    } else {
        Scan {
            pending: Pending {
                note: st.pending.note.push(text),
                tags: st.pending.tags,
                tab: st.pending.tab,
            },
            notes: st.notes,
        }
    }
}

/// The state after one more line.
pub open spec fn after_line(st: Scan, line: Seq<char>) -> Scan {
    let t = trimmed(line);
    if t.len() > 0 && t[0] == '#' {
        after_comment(st, trimmed(t.skip(1)))
    } else if host_mark().is_prefix_of(t) {
        Scan { pending: nothing(), notes: given(st.notes, st.pending, trimmed(t.skip(5))) }
    } else if t.len() == 0 {
        Scan { pending: nothing(), notes: st.notes }
    } else {
        st
    }
}

/// The state that the given lines lead to from `st`.
pub open spec fn scan_from(st: Scan, lines: Seq<Seq<char>>) -> Scan
    decreases lines.len(),
{
    if lines.len() == 0 {
        st
    } else {
        after_line(scan_from(st, lines.drop_last()), lines.last())
    }
}

/// The state after the given lines.
pub open spec fn scan(lines: Seq<Seq<char>>) -> Scan {
    scan_from(start(), lines)
}

/// The annotations that a configuration's text gives its hosts.
pub open spec fn annotations(text: Seq<char>) -> Notes {
    scan(split(text, '\n')).notes
}

/// Whether a line is blank.
pub open spec fn is_blank(line: Seq<char>) -> bool {
    trimmed(line).len() == 0
}

/// Whether a line is the `Host` line of `host`.
pub open spec fn names_host(line: Seq<char>, host: Seq<char>) -> bool {
    host_mark().is_prefix_of(trimmed(line)) && host == trimmed(trimmed(line).skip(5))
}

/// The text of a comment line, behind its `#`; nothing for another line.
pub open spec fn comment_text(line: Seq<char>) -> Option<Seq<char>> {
    if trimmed(line).len() > 0 && trimmed(line)[0] == '#' {
        Some(trimmed(trimmed(line).skip(1)))
    } else {
        None
    }
}

/// Whether a line is the comment line that names the group `name`.
pub open spec fn names_tab(line: Seq<char>, name: Seq<char>) -> bool {
    match comment_text(line) {
        Some(text) => tab_mark().is_prefix_of(text) && name == trimmed(text.skip(4)),
        None => false,
    }
}

/// Whether a line is the comment line that lists the tags `tags`.
pub open spec fn lists_tags(line: Seq<char>, tags: Seq<Seq<char>>) -> bool {
    match comment_text(line) {
        Some(text) => tags_mark().is_prefix_of(text) && tags == tag_list(text.skip(5)),
        None => false,
    }
}

/// Whether a line leaves a pending group as it is: it is not blank, no
/// `Host` line, and names no group.
pub open spec fn keeps_tab(line: Seq<char>) -> bool {
    &&& !is_blank(line)
    &&& !host_mark().is_prefix_of(trimmed(line))
    &&& match comment_text(line) {
        Some(text) => !tab_mark().is_prefix_of(text),
        None => true,
    }
}

/// Whether a line leaves pending tags as they are: it is not blank, no
/// `Host` line, and lists no tags.
pub open spec fn keeps_tags(line: Seq<char>) -> bool {
    &&& !is_blank(line)
    &&& !host_mark().is_prefix_of(trimmed(line))
    &&& match comment_text(line) {
        Some(text) => !tags_mark().is_prefix_of(text),
        None => true,
    }
}

/// A blank line drops what is pending and leaves the hosts what they have.
pub proof fn lemma_blank_line_resets(st: Scan, line: Seq<char>)
    requires
        is_blank(line),
    ensures
        after_line(st, line) == state(nothing(), st.notes),
{
    assert(!host_mark().is_prefix_of(trimmed(line)));
}

/// A `Host` line gives the host what is pending, and leaves nothing
/// pending: no host after it has a part in it.
pub proof fn lemma_host_line_takes_all(st: Scan, line: Seq<char>, host: Seq<char>)
    requires
        names_host(line, host),
    ensures
        after_line(st, line) == state(nothing(), given(st.notes, st.pending, host)),
{
    assert(trimmed(line)[0] == host_mark()[0]);
}

/// The lines `first` and then the lines `then` lead where `then` leads
/// from where `first` leads.
pub proof fn lemma_scan_concat(st: Scan, first: Seq<Seq<char>>, then: Seq<Seq<char>>)
    ensures
        scan_from(st, first + then) == scan_from(scan_from(st, first), then),
    decreases then.len(),
{
    if then.len() == 0 {
        assert(first + then == first);
    } else {
        lemma_scan_concat(st, first, then.drop_last());
        assert((first + then).drop_last() == first + then.drop_last());
    }
}

/// A group that is pending stays pending over lines that leave it.
pub proof fn lemma_tab_waits(st: Scan, between: Seq<Seq<char>>)
    requires
        forall|i: int| 0 <= i < between.len() ==> keeps_tab(#[trigger] between[i]),
    ensures
        scan_from(st, between).pending.tab == st.pending.tab,
        scan_from(st, between).notes == st.notes,
    decreases between.len(),
{
    if between.len() > 0 {
        let front = between.drop_last();
        assert forall|i: int| 0 <= i < front.len() implies keeps_tab(#[trigger] front[i]) by {
            assert(front[i] == between[i]);
        }
        lemma_tab_waits(st, front);
        assert(keeps_tab(between[between.len() - 1]));
    }
}

/// Tags that are pending stay pending over lines that leave them.
pub proof fn lemma_tags_wait(st: Scan, between: Seq<Seq<char>>)
    requires
        forall|i: int| 0 <= i < between.len() ==> keeps_tags(#[trigger] between[i]),
    ensures
        scan_from(st, between).pending.tags == st.pending.tags,
        scan_from(st, between).notes == st.notes,
    decreases between.len(),
{
    if between.len() > 0 {
        let front = between.drop_last();
        assert forall|i: int| 0 <= i < front.len() implies keeps_tags(#[trigger] front[i]) by {
            assert(front[i] == between[i]);
        }
        lemma_tags_wait(st, front);
        assert(keeps_tags(between[between.len() - 1]));
    }
}

/// A host has the group that a comment line in front of its `Host` line
/// names, whatever stood before, where no blank line, no other `Host` line
/// and no other such comment line stands between the two.
pub proof fn lemma_tab_reaches_host(
    st: Scan,
    tab_line: Seq<char>,
    name: Seq<char>,
    between: Seq<Seq<char>>,
    host_line: Seq<char>,
    host: Seq<char>,
)
    requires
        names_tab(tab_line, name),
        forall|i: int| 0 <= i < between.len() ==> keeps_tab(#[trigger] between[i]),
        names_host(host_line, host),
    ensures
        scan_from(st, (seq![tab_line] + between).push(host_line)).notes.tabs.contains_pair(
            host,
            name,
        ),
{
    let lines = seq![tab_line] + between;
    let named = scan_from(st, seq![tab_line]);
    assert(seq![tab_line].drop_last() =~= Seq::<Seq<char>>::empty());
    assert(named == after_line(st, tab_line)) by {
        reveal_with_fuel(scan_from, 2);
    }
    assert(!tags_mark().is_prefix_of(comment_text(tab_line).unwrap())) by {
        let text = comment_text(tab_line).unwrap();
        if tags_mark().is_prefix_of(text) {
            assert(text[2] == tags_mark()[2]);
            assert(text[2] == tab_mark()[2]);
        }
    }
    assert(named.pending.tab == Some(name));
    lemma_scan_concat(st, seq![tab_line], between);
    lemma_tab_waits(named, between);
    assert(lines.push(host_line).drop_last() == lines);
    lemma_host_line_takes_all(scan_from(st, lines), host_line, host);
}

/// A host has the tags that a comment line in front of its `Host` line
/// lists, joined by a comma and a blank, whatever stood before, where no
/// blank line, no other `Host` line and no other such comment line stands
/// between the two.
pub proof fn lemma_tags_reach_host(
    st: Scan,
    tags_line: Seq<char>,
    tags: Seq<Seq<char>>,
    between: Seq<Seq<char>>,
    host_line: Seq<char>,
    host: Seq<char>,
)
    requires
        lists_tags(tags_line, tags),
        forall|i: int| 0 <= i < between.len() ==> keeps_tags(#[trigger] between[i]),
        names_host(host_line, host),
    ensures
        tags.len() > 0,
        scan_from(st, (seq![tags_line] + between).push(host_line)).notes.tags.contains_pair(
            host,
            join(tags, tag_gap()),
        ),
{
    let lines = seq![tags_line] + between;
    let listed = scan_from(st, seq![tags_line]);
    let text = comment_text(tags_line).unwrap();
    assert(seq![tags_line].drop_last() =~= Seq::<Seq<char>>::empty());
    assert(listed == after_line(st, tags_line)) by {
        reveal_with_fuel(scan_from, 2);
    }
    crate::text::lemma_split_nonempty(trimmed(text.skip(5)), ',');
    assert(listed.pending.tags == tags);
    lemma_scan_concat(st, seq![tags_line], between);
    lemma_tags_wait(listed, between);
    assert(lines.push(host_line).drop_last() == lines);
    lemma_host_line_takes_all(scan_from(st, lines), host_line, host);
}

/// A blank line in front of a `Host` line keeps from the host whatever
/// stood before: the host gets no note, no tags and no group.
pub proof fn lemma_blank_line_cuts(
    st: Scan,
    before: Seq<Seq<char>>,
    blank: Seq<char>,
    host_line: Seq<char>,
    host: Seq<char>,
)
    requires
        is_blank(blank),
        names_host(host_line, host),
    ensures
        scan_from(st, before.push(blank).push(host_line)).notes == scan_from(st, before).notes,
        scan_from(st, before.push(blank).push(host_line)).pending == nothing(),
{
    let lines = before.push(blank);
    assert(lines.drop_last() == before);
    assert(lines.push(host_line).drop_last() == lines);
    lemma_blank_line_resets(scan_from(st, before), blank);
    lemma_host_line_takes_all(scan_from(st, lines), host_line, host);
}

/// What is pending, as the reader holds it.
struct Buffers {
    note: Vec<Vec<char>>,
    tags: Vec<Vec<char>>,
    tab: Option<Vec<char>>,
}

impl View for Buffers {
    type V = Pending;

    closed spec fn view(&self) -> Pending {
        Pending {
            note: views(self.note@),
            tags: views(self.tags@),
            tab: match self.tab {
                Some(name) => Some(name@),
                None => None,
            },
        }
    }
}

impl Buffers {
    fn new() -> (r: Buffers)
        ensures
            r@ == nothing(),
    {
        let r = Buffers { note: Vec::new(), tags: Vec::new(), tab: None };
        assert(r@.note =~= Seq::empty());
        assert(r@.tags =~= Seq::empty());
        r
    }
}

/// The annotations, as the reader holds them.
struct Found {
    comments: TextMap,
    tags: TextMap,
    tabs: TextMap,
}

impl View for Found {
    type V = Notes;

    closed spec fn view(&self) -> Notes {
        Notes { comments: self.comments@, tags: self.tags@, tabs: self.tabs@ }
    }
}

/// Each piece without the white space at its ends.
fn trim_each(parts: &Vec<Vec<char>>) -> (r: Vec<Vec<char>>)
    ensures
        views(r@) == trimmed_each(views(parts@)),
{
    let mut r: Vec<Vec<char>> = Vec::new();
    let mut i: usize = 0;
    while i < parts.len()
        invariant
            i <= parts.len(),
            r.len() == i,
            forall|j: int| 0 <= j < i ==> r@[j]@ == trimmed(parts@[j]@),
        decreases parts.len() - i,
    {
        r.push(trim(&parts[i]));
        i += 1;
    }
    assert(views(r@) =~= trimmed_each(views(parts@)));
    r
}

/// Reads a comment line whose text, behind the `#`, is `text`.
fn read_comment(text: Vec<char>, pending: &mut Buffers)
    ensures
        state(final(pending)@, start().notes) == after_comment(
            state(old(pending)@, start().notes),
            text@,
        ),
{
    let tags_word: Vec<char> = vec!['t', 'a', 'g', 's', ':'];
    let tab_word: Vec<char> = vec!['t', 'a', 'b', ':'];
    assert(tags_word@ =~= tags_mark());
    assert(tab_word@ =~= tab_mark());
    if starts_with(&text, &tags_word) {
        let rest = trim(&slice(&text, 5, text.len()));
        let pieces = split_at_each(&rest, ',');
        pending.tags = trim_each(&pieces);
    } else if starts_with(&text, &tab_word) {
        pending.tab = Some(trim(&slice(&text, 4, text.len())));
    } else {
        pending.note.push(text);
        assert(final(pending)@.note =~= old(pending)@.note.push(text@));
    }
}

/// Gives `host` what is pending.
fn give(host: &Vec<char>, pending: &Buffers, found: &mut Found)
    ensures
        final(found)@ == given(old(found)@, pending@, host@),
{
    if pending.note.len() > 0 {
        let gap: Vec<char> = vec!['\n'];
        assert(gap@ =~= line_gap());
        found.comments.insert_chars(copy_chars(host), join_with(&pending.note, &gap));
    }
    if pending.tags.len() > 0 {
        let gap: Vec<char> = vec![',', ' '];
        assert(gap@ =~= tag_gap());
        found.tags.insert_chars(copy_chars(host), join_with(&pending.tags, &gap));
    }
    match &pending.tab {
        Some(name) => {
            found.tabs.insert_chars(copy_chars(host), copy_chars(name));
        },
        None => {},
    }
}

/// Reads one line.
fn read_line(line: &Vec<char>, pending: &mut Buffers, found: &mut Found)
    ensures
        state(final(pending)@, final(found)@) == after_line(
            state(old(pending)@, old(found)@),
            line@,
        ),
{
    let host_word: Vec<char> = vec!['H', 'o', 's', 't', ' '];
    assert(host_word@ =~= host_mark());
    let t = trim(line);
    if t.len() > 0 && t[0] == '#' {
        let text = trim(&slice(&t, 1, t.len()));
        read_comment(text, pending);
    } else if starts_with(&t, &host_word) {
        let host = trim(&slice(&t, 5, t.len()));
        give(&host, pending, found);
        *pending = Buffers::new();
    } else if t.len() == 0 {
        *pending = Buffers::new();
    }
}

/// The annotations that the text of a configuration gives its hosts: the
/// notes, the tags and the groups, each by host pattern.
pub fn get_comments(contents: &str) -> (r: (TextMap, TextMap, TextMap))
    ensures
        r.0@ == annotations(contents@).comments,
        r.1@ == annotations(contents@).tags,
        r.2@ == annotations(contents@).tabs,
{
    let chars = to_chars(contents);
    let lines = split_at_each(&chars, '\n');
    let mut pending = Buffers::new();
    let mut found = Found { comments: TextMap::new(), tags: TextMap::new(), tabs: TextMap::new() };
    let mut i: usize = 0;
    assert(views(lines@).take(0) =~= Seq::<Seq<char>>::empty());
    while i < lines.len()
        invariant
            i <= lines.len(),
            state(pending@, found@) == scan(views(lines@).take(i as int)),
        decreases lines.len() - i,
    {
        assert(views(lines@).take(i + 1).drop_last() == views(lines@).take(i as int));
        read_line(&lines[i], &mut pending, &mut found);
        i += 1;
    }
    assert(views(lines@).take(i as int) == views(lines@));
    (found.comments, found.tags, found.tabs)
}

} // verus!
