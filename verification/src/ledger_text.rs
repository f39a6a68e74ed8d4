//! The ledger as text: one line for each record, which holds the count of
//! connections, the time of the last one, the length of the host's name and
//! the name, as in `3 1700000000 5:host1`.

use crate::database::{record_views, HostEntry};
use crate::numbers::{
    digits, ends_number, lemma_digits_canonical, lemma_number_unique, read_number, write_number,
};
use crate::text::{append, slice};
use vstd::prelude::*;

verus! {

/// A number with its sign: a `-` in front of what is below zero.
pub open spec fn signed(v: int) -> Seq<char> {
    if v < 0 {
        seq!['-'] + digits((-v) as nat)
    } else {
        digits(v as nat)
    }
}

/// The end of a record's line: the length of the host's name, a colon, the
/// name, and the line's end.
pub open spec fn host_part(host: Seq<char>) -> Seq<char> {
    digits(host.len()) + (seq![':'] + (host + seq!['\n']))
}

/// A record's line from the time on: the time, a blank, and the line's end.
pub open spec fn time_part(host: Seq<char>, time: i64) -> Seq<char> {
    signed(time as int) + (seq![' '] + host_part(host))
}

/// A record's line: the count, a blank, and the rest.
pub open spec fn line(host: Seq<char>, entry: HostEntry) -> Seq<char> {
    digits(entry.connection_count as nat) + (seq![' '] + time_part(host, entry.last_used_date))
}

/// The text of a list of records: their lines, one behind the other.
pub open spec fn encoded(entries: Seq<(Seq<char>, HostEntry)>) -> Seq<char>
    decreases entries.len(),
{
    if entries.len() == 0 {
        Seq::empty()
    } else {
        encoded(entries.drop_last()) + line(entries.last().0, entries.last().1)
    }
}

/// Whether `text` is the text of some list of records.
pub open spec fn is_encoding(text: Seq<char>) -> bool {
    exists|entries: Seq<(Seq<char>, HostEntry)>| encoded(entries) == text
}

/// Two numbers with their signs, each followed by something that ends it,
/// that give the same text are the same number, followed by the same.
pub proof fn lemma_signed_unique(a: int, y: Seq<char>, b: int, z: Seq<char>)
    requires
        ends_number(y),
        ends_number(z),
        signed(a) + y == signed(b) + z,
    ensures
        a == b,
        y == z,
{
    let s = signed(a) + y;
    let t = signed(b) + z;
    if a < 0 {
        lemma_digits_canonical((-a) as nat);
        assert(s[0] == '-');
    } else {
        lemma_digits_canonical(a as nat);
        assert(s[0] == digits(a as nat)[0]);
    }
    if b < 0 {
        lemma_digits_canonical((-b) as nat);
        assert(t[0] == '-');
    } else {
        lemma_digits_canonical(b as nat);
        assert(t[0] == digits(b as nat)[0]);
    }
    if a < 0 {
        assert(b < 0);
        assert(s.drop_first() =~= digits((-a) as nat) + y);
        assert(t.drop_first() =~= digits((-b) as nat) + z);
        lemma_number_unique((-a) as nat, y, (-b) as nat, z);
    } else {
        assert(b >= 0);
        lemma_number_unique(a as nat, y, b as nat, z);
    }
}

/// Two ends of lines, each followed by anything, that give the same text
/// hold the same name, followed by the same.
pub proof fn lemma_host_part_unique(g: Seq<char>, y: Seq<char>, h: Seq<char>, z: Seq<char>)
    requires
        host_part(g) + y == host_part(h) + z,
    ensures
        g == h,
        y == z,
{
    let p = seq![':'] + ((g + seq!['\n']) + y);
    let q = seq![':'] + ((h + seq!['\n']) + z);
    assert(host_part(g) + y =~= digits(g.len()) + p);
    assert(host_part(h) + z =~= digits(h.len()) + q);
    assert(p[0] == ':' && q[0] == ':');
    lemma_number_unique(g.len(), p, h.len(), q);
    assert(g =~= h) by {
        assert forall|i: int| 0 <= i < g.len() implies g[i] == h[i] by {
            assert(p[i + 1] == g[i]);
            assert(q[i + 1] == h[i]);
        }
    }
    assert(y =~= z) by {
        assert(p.len() == q.len());
        assert forall|i: int| 0 <= i < y.len() implies y[i] == z[i] by {
            assert(p[g.len() + 2 + i] == y[i]);
            assert(q[h.len() + 2 + i] == z[i]);
        }
    }
}

/// Two lines from the time on, each followed by anything, that give the
/// same text hold the same time and name, followed by the same.
pub proof fn lemma_time_part_unique(
    g: Seq<char>,
    s: i64,
    y: Seq<char>,
    h: Seq<char>,
    t: i64,
    z: Seq<char>,
)
    requires
        time_part(g, s) + y == time_part(h, t) + z,
    ensures
        g == h,
        s == t,
        y == z,
{
    let p = seq![' '] + (host_part(g) + y);
    let q = seq![' '] + (host_part(h) + z);
    assert(time_part(g, s) + y =~= signed(s as int) + p);
    assert(time_part(h, t) + z =~= signed(t as int) + q);
    assert(p[0] == ' ' && q[0] == ' ');
    lemma_signed_unique(s as int, p, t as int, q);
    assert(p.drop_first() =~= host_part(g) + y);
    assert(q.drop_first() =~= host_part(h) + z);
    lemma_host_part_unique(g, y, h, z);
}

/// Two lines, each followed by anything, that give the same text hold the
/// same record, followed by the same.
pub proof fn lemma_line_unique(
    g: Seq<char>,
    d: HostEntry,
    y: Seq<char>,
    h: Seq<char>,
    e: HostEntry,
    z: Seq<char>,
)
    requires
        line(g, d) + y == line(h, e) + z,
    ensures
        g == h,
        d == e,
        y == z,
{
    let p = seq![' '] + (time_part(g, d.last_used_date) + y);
    let q = seq![' '] + (time_part(h, e.last_used_date) + z);
    assert(line(g, d) + y =~= digits(d.connection_count as nat) + p);
    assert(line(h, e) + z =~= digits(e.connection_count as nat) + q);
    assert(p[0] == ' ' && q[0] == ' ');
    lemma_number_unique(d.connection_count as nat, p, e.connection_count as nat, q);
    assert(p.drop_first() =~= time_part(g, d.last_used_date) + y);
    assert(q.drop_first() =~= time_part(h, e.last_used_date) + z);
    lemma_time_part_unique(g, d.last_used_date, y, h, e.last_used_date, z);
}

/// The text of records behind records is the text of the first behind that
/// of the others.
pub proof fn lemma_encoded_concat(a: Seq<(Seq<char>, HostEntry)>, b: Seq<(Seq<char>, HostEntry)>)
    ensures
        encoded(a + b) == encoded(a) + encoded(b),
    decreases b.len(),
{
    if b.len() == 0 {
        assert(a + b == a);
        assert(encoded(a) + encoded(b) == encoded(a));
    } else {
        lemma_encoded_concat(a, b.drop_last());
        assert((a + b).drop_last() == a + b.drop_last());
        assert(encoded(a + b) =~= encoded(a) + encoded(b));
    }
}

/// The text of a list of records that is not empty is the line of the first
/// and then the text of the others.
pub proof fn lemma_encoded_first(a: Seq<(Seq<char>, HostEntry)>)
    requires
        a.len() > 0,
    ensures
        encoded(a) == line(a[0].0, a[0].1) + encoded(a.drop_first()),
        encoded(a).len() > 0,
{
    let x = seq![a[0]];
    assert(a =~= x + a.drop_first());
    lemma_encoded_concat(x, a.drop_first());
    lemma_encoded_single(a[0].0, a[0].1);
    lemma_line_nonempty(a[0].0, a[0].1);
}

/// Two lists of records with the same text are the same list.
pub proof fn lemma_encoded_unique(a: Seq<(Seq<char>, HostEntry)>, b: Seq<(Seq<char>, HostEntry)>)
    requires
        encoded(a) == encoded(b),
    ensures
        a == b,
    decreases a.len(),
{
    if a.len() == 0 {
        if b.len() > 0 {
            lemma_encoded_first(b);
        }
        assert(a =~= b);
    } else {
        lemma_encoded_first(a);
        if b.len() == 0 {
            assert(false);
        }
        lemma_encoded_first(b);
        lemma_line_unique(
            a[0].0,
            a[0].1,
            encoded(a.drop_first()),
            b[0].0,
            b[0].1,
            encoded(b.drop_first()),
        );
        lemma_encoded_unique(a.drop_first(), b.drop_first());
        assert(a =~= seq![a[0]] + a.drop_first());
        assert(b =~= seq![b[0]] + b.drop_first());
    }
}

/// The text of one record is its line.
pub proof fn lemma_encoded_single(host: Seq<char>, entry: HostEntry)
    ensures
        encoded(seq![(host, entry)]) == line(host, entry),
{
    reveal_with_fuel(encoded, 2);
    assert(seq![(host, entry)].drop_last() =~= Seq::<(Seq<char>, HostEntry)>::empty());
    assert(encoded(seq![(host, entry)]) =~= line(host, entry));
}

/// A line is not empty.
pub proof fn lemma_line_nonempty(host: Seq<char>, entry: HostEntry)
    ensures
        line(host, entry).len() > 0,
{
    lemma_digits_canonical(entry.connection_count as nat);
}

/// What stands from `pos` on is what stands up to `k` and what stands from
/// there on.
pub proof fn lemma_skip_split(text: Seq<char>, pos: int, k: int)
    requires
        0 <= pos <= k <= text.len(),
    ensures
        text.skip(pos) == text.subrange(pos, k) + text.skip(k),
{
    assert(text.skip(pos) =~= text.subrange(pos, k) + text.skip(k));
}

/// Writes `v` with its sign behind what `out` holds.
pub fn write_signed(out: &mut Vec<char>, v: i64)
    ensures
        final(out)@ == old(out)@ + signed(v as int),
{
    if v < 0 {
        out.push('-');
        let m: u64 = if v == i64::MIN {
            0x8000_0000_0000_0000
        } else {
            (-v) as u64
        };
        write_number(out, m);
        assert(final(out)@ =~= old(out)@ + signed(v as int));
    } else {
        write_number(out, v as u64);
    }
}

/// Writes the line of a record behind what `out` holds.
pub fn write_line(out: &mut Vec<char>, host: &Vec<char>, entry: HostEntry)
    ensures
        final(out)@ == old(out)@ + line(host@, entry),
{
    write_number(out, entry.connection_count);
    out.push(' ');
    write_signed(out, entry.last_used_date);
    out.push(' ');
    write_number(out, host.len() as u64);
    out.push(':');
    append(out, host);
    out.push('\n');
    assert(final(out)@ =~= old(out)@ + line(host@, entry));
}

/// The text of a list of records.
pub fn encode_entries(entries: &Vec<(Vec<char>, HostEntry)>) -> (r: Vec<char>)
    ensures
        r@ == encoded(record_views(entries@)),
{
    let ghost all = record_views(entries@);
    let mut r: Vec<char> = Vec::new();
    let mut i: usize = 0;
    assert(all.take(0) =~= Seq::<(Seq<char>, HostEntry)>::empty());
    while i < entries.len()
        invariant
            i <= entries.len(),
            all == record_views(entries@),
            r@ == encoded(all.take(i as int)),
        decreases entries.len() - i,
    {
        assert(all.take(i + 1).drop_last() == all.take(i as int));
        write_line(&mut r, &entries[i].0, entries[i].1);
        i += 1;
    }
    assert(all.take(i as int) == all);
    r
}

/// Reads the number with its sign that stands at `pos`: its value and the
/// place behind it. There is none where no number stands there as it is
/// written, or one that 64 bits with a sign do not hold.
pub fn read_signed(text: &Vec<char>, pos: usize) -> (r: Option<(i64, usize)>)
    ensures
        match r {
            Some((value, next)) => pos < next <= text.len() && text@.subrange(
                pos as int,
                next as int,
            ) == signed(value as int) && ends_number(text@.skip(next as int)),
            None => forall|v: i64, y: Seq<char>|
                ends_number(y) && pos <= text.len() ==> text@.skip(pos as int) != #[trigger] (signed(
                    v as int,
                ) + y),
        },
{
    let len = text.len();
    if pos < len && text[pos] == '-' {
        match read_number(text, pos + 1) {
            None => {
                assert forall|v: i64, y: Seq<char>|
                    ends_number(y) && pos <= text.len() implies text@.skip(pos as int)
                    != #[trigger] (signed(v as int) + y) by {
                    if text@.skip(pos as int) == signed(v as int) + y {
                        lemma_minus_first(text@, pos as int, v as int, y);
                        assert(text@.skip(pos + 1) == digits((-v) as nat) + y);
                    }
                }
                None
            },
            Some((m, next)) => {
                proof {
                    lemma_skip_split(text@, pos + 1, next as int);
                }
                if m == 0 || m > 0x8000_0000_0000_0000 {
                    assert forall|v: i64, y: Seq<char>|
                        ends_number(y) && pos <= text.len() implies text@.skip(pos as int)
                        != #[trigger] (signed(v as int) + y) by {
                        if text@.skip(pos as int) == signed(v as int) + y {
                            lemma_minus_first(text@, pos as int, v as int, y);
                            lemma_number_unique(
                                m as nat,
                                text@.skip(next as int),
                                (-v) as nat,
                                y,
                            );
                        }
                    }
                    None
                } else {
                    let value: i64 = if m == 0x8000_0000_0000_0000 {
                        i64::MIN
                    } else {
                        -(m as i64)
                    };
                    assert(text@.subrange(pos as int, next as int) =~= seq!['-'] + text@.subrange(
                        pos + 1,
                        next as int,
                    ));
                    Some((value, next))
                }
            },
        }
    } else {
        match read_number(text, pos) {
            None => {
                assert forall|v: i64, y: Seq<char>|
                    ends_number(y) && pos <= text.len() implies text@.skip(pos as int)
                    != #[trigger] (signed(v as int) + y) by {
                    if text@.skip(pos as int) == signed(v as int) + y {
                        lemma_digit_first(text@, pos as int, v as int, y);
                        assert(text@.skip(pos as int) == digits(v as nat) + y);
                    }
                }
                None
            },
            Some((m, next)) => {
                proof {
                    lemma_skip_split(text@, pos as int, next as int);
                }
                if m > 0x7fff_ffff_ffff_ffff {
                    assert forall|v: i64, y: Seq<char>|
                        ends_number(y) && pos <= text.len() implies text@.skip(pos as int)
                        != #[trigger] (signed(v as int) + y) by {
                        if text@.skip(pos as int) == signed(v as int) + y {
                            lemma_digit_first(text@, pos as int, v as int, y);
                            lemma_number_unique(m as nat, text@.skip(next as int), v as nat, y);
                        }
                    }
                    None
                } else {
                    Some((m as i64, next))
                }
            },
        }
    }
}

/// A text that begins with `-` and with a number with its sign begins with
/// a number below zero; behind the `-` stands what the number is without
/// its sign.
pub proof fn lemma_minus_first(text: Seq<char>, pos: int, v: int, y: Seq<char>)
    requires
        0 <= pos < text.len(),
        text[pos] == '-',
        text.skip(pos) == signed(v) + y,
    ensures
        v < 0,
        text.skip(pos + 1) == digits((-v) as nat) + y,
{
    assert(text.skip(pos)[0] == '-');
    if v >= 0 {
        lemma_digits_canonical(v as nat);
        assert((signed(v) + y)[0] == digits(v as nat)[0]);
        assert(false);
    }
    assert(text.skip(pos + 1) =~= text.skip(pos).drop_first());
    assert((signed(v) + y).drop_first() =~= digits((-v) as nat) + y);
}

/// A text that begins with a number with its sign, and not with `-`, begins
/// with a number that is not below zero.
pub proof fn lemma_digit_first(text: Seq<char>, pos: int, v: int, y: Seq<char>)
    requires
        0 <= pos <= text.len(),
        pos < text.len() ==> text[pos] != '-',
        text.skip(pos) == signed(v) + y,
    ensures
        v >= 0,
{
    if v < 0 {
        assert((signed(v) + y)[0] == '-');
        assert((signed(v) + y).len() > 0);
        assert(text.skip(pos).len() == text.len() - pos);
        assert(text.skip(pos)[0] == text[pos]);
        assert(false);
    }
}

/// Reads the end of a line that stands at `pos`: the host's name and the
/// place behind the line. There is none where no end of a line stands
/// there.
pub fn read_host_part(text: &Vec<char>, pos: usize) -> (r: Option<(Vec<char>, usize)>)
    ensures
        match r {
            Some((host, next)) => pos < next <= text.len() && text@.subrange(
                pos as int,
                next as int,
            ) == host_part(host@),
            None => forall|h: Seq<char>, y: Seq<char>|
                pos <= text.len() ==> text@.skip(pos as int) != #[trigger] (host_part(h) + y),
        },
{
    let len = text.len();
    match read_number(text, pos) {
        None => {
            assert forall|h: Seq<char>, y: Seq<char>| pos <= text.len() implies text@.skip(
                pos as int,
            ) != #[trigger] (host_part(h) + y) by {
                if text@.skip(pos as int) == host_part(h) + y {
                    let p = seq![':'] + ((h + seq!['\n']) + y);
                    assert(host_part(h) + y =~= digits(h.len()) + p);
                    assert(p[0] == ':');
                    assert((host_part(h) + y).len() >= h.len());
                    assert(text@.skip(pos as int) == digits(h.len()) + p);
                }
            }
            None
        },
        Some((n, k)) => {
            proof {
                lemma_skip_split(text@, pos as int, k as int);
            }
            if k >= len || text[k] != ':' {
                assert forall|h: Seq<char>, y: Seq<char>| pos <= text.len() implies text@.skip(
                    pos as int,
                ) != #[trigger] (host_part(h) + y) by {
                    if text@.skip(pos as int) == host_part(h) + y {
                        let p = seq![':'] + ((h + seq!['\n']) + y);
                        assert(host_part(h) + y =~= digits(h.len()) + p);
                        assert(p[0] == ':');
                        lemma_number_unique(n as nat, text@.skip(k as int), h.len(), p);
                        assert(text@.skip(k as int)[0] == ':');
                    }
                }
                return None;
            }
            let room: usize = len - k - 1;
            if n >= room as u64 {
                assert forall|h: Seq<char>, y: Seq<char>| pos <= text.len() implies text@.skip(
                    pos as int,
                ) != #[trigger] (host_part(h) + y) by {
                    if text@.skip(pos as int) == host_part(h) + y {
                        let p = seq![':'] + ((h + seq!['\n']) + y);
                        assert(host_part(h) + y =~= digits(h.len()) + p);
                        assert(p[0] == ':');
                        lemma_number_unique(n as nat, text@.skip(k as int), h.len(), p);
                        assert(p.len() >= h.len() + 2);
                    }
                }
                return None;
            }
            let end: usize = k + 1 + n as usize;
            if text[end] != '\n' {
                assert forall|h: Seq<char>, y: Seq<char>| pos <= text.len() implies text@.skip(
                    pos as int,
                ) != #[trigger] (host_part(h) + y) by {
                    if text@.skip(pos as int) == host_part(h) + y {
                        let p = seq![':'] + ((h + seq!['\n']) + y);
                        assert(host_part(h) + y =~= digits(h.len()) + p);
                        assert(p[0] == ':');
                        lemma_number_unique(n as nat, text@.skip(k as int), h.len(), p);
                        assert(p[1 + n] == '\n');
                        assert(text@.skip(k as int)[1 + n] == text@[end as int]);
                    }
                }
                return None;
            }
            let host = slice(text, k + 1, end);
            assert(text@.subrange(pos as int, end + 1) =~= text@.subrange(pos as int, k as int) + (
            seq![':'] + (host@ + seq!['\n'])));
            Some((host, end + 1))
        },
    }
}

/// Reads what stands at `pos` of a line from the time on: the time, the
/// host's name and the place behind the line. There is none where no such
/// part of a line stands there.
pub fn read_time_part(text: &Vec<char>, pos: usize) -> (r: Option<(i64, Vec<char>, usize)>)
    ensures
        match r {
            Some((time, host, next)) => pos < next <= text.len() && text@.subrange(
                pos as int,
                next as int,
            ) == time_part(host@, time),
            None => forall|h: Seq<char>, t: i64, y: Seq<char>|
                pos <= text.len() ==> text@.skip(pos as int) != #[trigger] (time_part(h, t) + y),
        },
{
    let len = text.len();
    match read_signed(text, pos) {
        None => {
            assert forall|h: Seq<char>, t: i64, y: Seq<char>| pos <= text.len() implies text@.skip(
                pos as int,
            ) != #[trigger] (time_part(h, t) + y) by {
                if text@.skip(pos as int) == time_part(h, t) + y {
                    let q = seq![' '] + (host_part(h) + y);
                    assert(time_part(h, t) + y =~= signed(t as int) + q);
                    assert(q[0] == ' ');
                    assert(text@.skip(pos as int) == signed(t as int) + q);
                }
            }
            None
        },
        Some((time, k)) => {
            proof {
                lemma_skip_split(text@, pos as int, k as int);
            }
            if k >= len || text[k] != ' ' {
                assert forall|h: Seq<char>, t: i64, y: Seq<char>|
                    pos <= text.len() implies text@.skip(pos as int) != #[trigger] (time_part(h, t)
                    + y) by {
                    if text@.skip(pos as int) == time_part(h, t) + y {
                        let q = seq![' '] + (host_part(h) + y);
                        assert(time_part(h, t) + y =~= signed(t as int) + q);
                        assert(q[0] == ' ');
                        lemma_signed_unique(time as int, text@.skip(k as int), t as int, q);
                        assert(text@.skip(k as int)[0] == ' ');
                    }
                }
                return None;
            }
            match read_host_part(text, k + 1) {
                None => {
                    assert forall|h: Seq<char>, t: i64, y: Seq<char>|
                        pos <= text.len() implies text@.skip(pos as int) != #[trigger] (time_part(
                        h,
                        t,
                    ) + y) by {
                        if text@.skip(pos as int) == time_part(h, t) + y {
                            let q = seq![' '] + (host_part(h) + y);
                            assert(time_part(h, t) + y =~= signed(t as int) + q);
                            assert(q[0] == ' ');
                            lemma_signed_unique(time as int, text@.skip(k as int), t as int, q);
                            assert(text@.skip(k + 1) =~= q.drop_first());
                            assert(q.drop_first() =~= host_part(h) + y);
                            assert(text@.skip(k + 1) == host_part(h) + y);
                        }
                    }
                    None
                },
                Some((host, next)) => {
                    assert(text@.subrange(pos as int, next as int) =~= text@.subrange(
                        pos as int,
                        k as int,
                    ) + (seq![' '] + text@.subrange(k + 1, next as int)));
                    Some((time, host, next))
                },
            }
        },
    }
}

/// Reads the line that stands at `pos`: the host's name, its record and the
/// place behind the line. There is none where no line stands there.
pub fn read_line(text: &Vec<char>, pos: usize) -> (r: Option<(Vec<char>, HostEntry, usize)>)
    ensures
        match r {
            Some((host, entry, next)) => pos < next <= text.len() && text@.subrange(
                pos as int,
                next as int,
            ) == line(host@, entry),
            None => forall|h: Seq<char>, e: HostEntry, y: Seq<char>|
                pos <= text.len() ==> text@.skip(pos as int) != #[trigger] (line(h, e) + y),
        },
{
    let len = text.len();
    match read_number(text, pos) {
        None => {
            assert forall|h: Seq<char>, e: HostEntry, y: Seq<char>|
                pos <= text.len() implies text@.skip(pos as int) != #[trigger] (line(h, e) + y) by {
                if text@.skip(pos as int) == line(h, e) + y {
                    let q = seq![' '] + (time_part(h, e.last_used_date) + y);
                    assert(line(h, e) + y =~= digits(e.connection_count as nat) + q);
                    assert(q[0] == ' ');
                    assert(text@.skip(pos as int) == digits(e.connection_count as nat) + q);
                }
            }
            None
        },
        Some((count, k)) => {
            proof {
                lemma_skip_split(text@, pos as int, k as int);
            }
            if k >= len || text[k] != ' ' {
                assert forall|h: Seq<char>, e: HostEntry, y: Seq<char>|
                    pos <= text.len() implies text@.skip(pos as int) != #[trigger] (line(h, e)
                    + y) by {
                    if text@.skip(pos as int) == line(h, e) + y {
                        let q = seq![' '] + (time_part(h, e.last_used_date) + y);
                        assert(line(h, e) + y =~= digits(e.connection_count as nat) + q);
                        assert(q[0] == ' ');
                        lemma_number_unique(
                            count as nat,
                            text@.skip(k as int),
                            e.connection_count as nat,
                            q,
                        );
                        assert(text@.skip(k as int)[0] == ' ');
                    }
                }
                return None;
            }
            match read_time_part(text, k + 1) {
                None => {
                    assert forall|h: Seq<char>, e: HostEntry, y: Seq<char>|
                        pos <= text.len() implies text@.skip(pos as int) != #[trigger] (line(h, e)
                        + y) by {
                        if text@.skip(pos as int) == line(h, e) + y {
                            let q = seq![' '] + (time_part(h, e.last_used_date) + y);
                            assert(line(h, e) + y =~= digits(e.connection_count as nat) + q);
                            assert(q[0] == ' ');
                            lemma_number_unique(
                                count as nat,
                                text@.skip(k as int),
                                e.connection_count as nat,
                                q,
                            );
                            assert(text@.skip(k + 1) =~= q.drop_first());
                            assert(q.drop_first() =~= time_part(h, e.last_used_date) + y);
                            assert(text@.skip(k + 1) == time_part(h, e.last_used_date) + y);
                        }
                    }
                    None
                },
                Some((time, host, next)) => {
                    assert(text@.subrange(pos as int, next as int) =~= text@.subrange(
                        pos as int,
                        k as int,
                    ) + (seq![' '] + text@.subrange(k + 1, next as int)));
                    Some((host, HostEntry { connection_count: count, last_used_date: time }, next))
                },
            }
        },
    }
}

/// Records whose text is the beginning of the text of a list are the
/// beginning of that list, and the rest of the text is that of the rest of
/// the list.
pub proof fn lemma_encoded_prefix(
    all: Seq<(Seq<char>, HostEntry)>,
    first: Seq<(Seq<char>, HostEntry)>,
    pos: int,
)
    requires
        0 <= pos <= encoded(all).len(),
        encoded(first) == encoded(all).take(pos),
    ensures
        first.len() <= all.len(),
        all.take(first.len() as int) == first,
        encoded(all.skip(first.len() as int)) == encoded(all).skip(pos),
    decreases first.len(),
{
    let text = encoded(all);
    if first.len() == 0 {
        assert(pos == 0);
        assert(all.take(0) =~= first);
        assert(all.skip(0) =~= all);
        assert(text.skip(0) =~= text);
    } else {
        lemma_encoded_first(first);
        assert(all.len() > 0);
        lemma_encoded_first(all);
        let a = first[0];
        let e = all[0];
        let rest = text.skip(pos);
        assert(text =~= text.take(pos) + rest);
        assert(text =~= line(a.0, a.1) + (encoded(first.drop_first()) + rest));
        lemma_line_unique(
            a.0,
            a.1,
            encoded(first.drop_first()) + rest,
            e.0,
            e.1,
            encoded(all.drop_first()),
        );
        let inner = encoded(first.drop_first()).len() as int;
        assert(encoded(all.drop_first()).take(inner) =~= encoded(first.drop_first()));
        lemma_encoded_prefix(all.drop_first(), first.drop_first(), inner);
        assert(all.take(first.len() as int) =~= first) by {
            assert forall|i: int| 0 <= i < first.len() implies all[i] == first[i] by {
                if i > 0 {
                    assert(all.drop_first().take(first.len() - 1)[i - 1] == first.drop_first()[i
                        - 1]);
                }
            }
        }
        assert(all.skip(first.len() as int) =~= all.drop_first().skip(first.len() - 1));
        assert(encoded(all.drop_first()).skip(inner) =~= rest);
    }
}

/// The records that a text holds. There are none where the text is not that
/// of a list of records.
pub fn decode_entries(text: &Vec<char>) -> (r: Option<Vec<(Vec<char>, HostEntry)>>)
    ensures
        match r {
            Some(entries) => encoded(record_views(entries@)) == text@,
            None => !is_encoding(text@),
        },
{
    let mut found: Vec<(Vec<char>, HostEntry)> = Vec::new();
    let mut pos: usize = 0;
    assert(text@.take(0) =~= Seq::<char>::empty());
    while pos < text.len()
        invariant
            pos <= text.len(),
            encoded(record_views(found@)) == text@.take(pos as int),
        decreases text.len() - pos,
    {
        let ghost before = record_views(found@);
        match read_line(text, pos) {
            Some((host, entry, next)) => {
                found.push((host, entry));
                proof {
                    assert(record_views(found@).drop_last() == before);
                    assert(text@.take(next as int) =~= text@.take(pos as int) + text@.subrange(
                        pos as int,
                        next as int,
                    ));
                }
                pos = next;
            },
            None => {
                assert(!is_encoding(text@)) by {
                    if is_encoding(text@) {
                        let all = choose|all: Seq<(Seq<char>, HostEntry)>| encoded(all) == text@;
                        lemma_encoded_prefix(all, before, pos as int);
                        let rest = all.skip(before.len() as int);
                        if rest.len() > 0 {
                            lemma_encoded_first(rest);
                            assert(text@.skip(pos as int) == line(rest[0].0, rest[0].1) + encoded(
                                rest.drop_first(),
                            ));
                        }
                    }
                }
                return None;
            },
        }
    }
    assert(text@.take(pos as int) == text@);
    Some(found)
}

} // verus!
