use fastssh::database::{FileDatabase, HostEntry};
use fastssh::ledger_text::{
    decode_entries, encode_entries, read_host_part, read_line, read_signed, read_time_part,
    write_line, write_signed,
};

fn chars(s: &str) -> Vec<char> {
    s.chars().collect()
}

fn text(v: &Vec<char>) -> String {
    v.iter().collect()
}

fn entry(connection_count: u64, last_used_date: i64) -> HostEntry {
    HostEntry { connection_count, last_used_date }
}

#[test]
fn an_unknown_host_is_unused_and_stays_unknown() {
    let db = FileDatabase::new();
    let e = db.get_host_values("never");
    assert_eq!(e.connection_count, 0);
    assert_eq!(e.last_used_date, 0);
    assert_eq!(db.encode(), "");
    let mut db = FileDatabase::new();
    db.save_host_values("other", 1, 2);
    assert_eq!(db.get_host_values("never"), entry(0, 0));
    assert_eq!(db.encode(), "1 2 5:other\n");
}

#[test]
fn what_is_saved_is_read() {
    let mut db = FileDatabase::new();
    db.save_host_values("host1", 3, 1700000000);
    assert_eq!(db.get_host_values("host1"), entry(3, 1700000000));
    db.save_host_values("host2", 1, 5);
    db.save_host_values("host1", 4, 1700000001);
    assert_eq!(db.get_host_values("host1"), entry(4, 1700000001));
    assert_eq!(db.get_host_values("host2"), entry(1, 5));
    assert_eq!(db.get_host_values("host"), entry(0, 0));
}

#[test]
fn a_ledger_survives_its_text() {
    let mut db = FileDatabase::new();
    db.save_host_values("host1", 3, 1700000000);
    let written = db.encode();
    assert_eq!(written, "3 1700000000 5:host1\n");
    let back = match FileDatabase::decode(&written) {
        Some(back) => back,
        None => panic!("the text of a ledger is read back"),
    };
    assert_eq!(back.get_host_values("host1"), entry(3, 1700000000));
    assert_eq!(back.encode(), written);
}

#[test]
fn saving_again_keeps_one_line_for_the_host() {
    let mut db = FileDatabase::new();
    db.save_host_values("a", 1, 10);
    db.save_host_values("b", 2, 20);
    db.save_host_values("a", 5, 50);
    assert_eq!(db.encode(), "5 50 1:a\n2 20 1:b\n");
}

#[test]
fn any_name_and_any_number_survive() {
    let mut db = FileDatabase::new();
    db.save_host_values("web prod", u64::MAX, i64::MAX);
    db.save_host_values("two\nlines", 0, i64::MIN);
    db.save_host_values("", 7, -1);
    db.save_host_values("9:x", 1, 0);
    db.save_host_values("h\u{f6}st", 2, -1700000000);
    let written = db.encode();
    assert_eq!(
        written,
        "18446744073709551615 9223372036854775807 8:web prod\n0 -9223372036854775808 9:two\nlines\n7 -1 0:\n1 0 3:9:x\n2 -1700000000 4:h\u{f6}st\n"
    );
    let back = match FileDatabase::decode(&written) {
        Some(back) => back,
        None => panic!("the text of a ledger is read back"),
    };
    assert_eq!(back.get_host_values("web prod"), entry(u64::MAX, i64::MAX));
    assert_eq!(back.get_host_values("two\nlines"), entry(0, i64::MIN));
    assert_eq!(back.get_host_values(""), entry(7, -1));
    assert_eq!(back.get_host_values("9:x"), entry(1, 0));
    assert_eq!(back.get_host_values("h\u{f6}st"), entry(2, -1700000000));
    assert_eq!(back.get_host_values("lines"), entry(0, 0));
}

#[test]
fn the_empty_text_is_the_empty_ledger() {
    let db = match FileDatabase::decode("") {
        Some(db) => db,
        None => panic!("the empty text is a ledger's"),
    };
    assert_eq!(db.encode(), "");
    assert_eq!(db.get_host_values("a"), entry(0, 0));
}

#[test]
fn a_text_that_is_no_ledgers_is_refused() {
    for bad in [
        "3 1700000000 5:host1",
        "3 1700000000 5:host\n",
        "3 1700000000 5:host12\n",
        "03 1 1:a\n",
        "3 01 1:a\n",
        "3 1 01:a\n",
        "3 -0 1:a\n",
        "3 +1 1:a\n",
        "-3 1 1:a\n",
        "3  1 1:a\n",
        "3 1 1 a\n",
        "3 1 1:a\n\n",
        " 3 1 1:a\n",
        "3 1\n",
        "18446744073709551616 1 1:a\n",
        "3 9223372036854775808 1:a\n",
        "3 -9223372036854775809 1:a\n",
        "3 1 18446744073709551615:a\n",
        "3 1 99999999999999999999:a\n",
        "host1 3 1700000000\n",
        "1 2 1:a\nx",
        "\n",
    ] {
        assert!(FileDatabase::decode(bad).is_none(), "{:?}", bad);
    }
}

#[test]
fn a_text_by_hand_with_a_host_twice_lets_the_last_decide() {
    let db = match FileDatabase::decode("1 10 1:a\n2 20 1:a\n") {
        Some(db) => db,
        None => panic!("two lines of one host are a ledger's text"),
    };
    assert_eq!(db.get_host_values("a"), entry(2, 20));
}

#[test]
fn a_connection_is_one_more() {
    let mut db = FileDatabase::new();
    db.record_connection("host1", 1700000000);
    assert_eq!(db.get_host_values("host1"), entry(1, 1700000000));
    db.record_connection("host1", 1700000100);
    assert_eq!(db.get_host_values("host1"), entry(2, 1700000100));
    db.save_host_values("host2", 41, 5);
    db.record_connection("host2", 4);
    assert_eq!(db.get_host_values("host2"), entry(42, 4));
    assert_eq!(db.get_host_values("host1"), entry(2, 1700000100));
}

#[test]
fn numbers_with_a_sign_are_written_and_read() {
    for (v, s) in [
        (0i64, "0"),
        (5, "5"),
        (-5, "-5"),
        (i64::MAX, "9223372036854775807"),
        (i64::MIN, "-9223372036854775808"),
    ] {
        let mut out = Vec::new();
        write_signed(&mut out, v);
        assert_eq!(text(&out), s);
        out.push(' ');
        assert_eq!(read_signed(&out, 0), Some((v, s.chars().count())));
    }
    assert_eq!(read_signed(&chars("-"), 0), None);
    assert_eq!(read_signed(&chars("--1"), 0), None);
    assert_eq!(read_signed(&chars("-01"), 0), None);
    assert_eq!(read_signed(&chars(""), 0), None);
    assert_eq!(read_signed(&chars("x-12"), 1), Some((-12, 4)));
}

#[test]
fn the_parts_of_a_line_are_read_where_they_stand() {
    assert_eq!(read_host_part(&chars("5:host1\nrest"), 0), Some((chars("host1"), 8)));
    assert_eq!(read_host_part(&chars("0:\n"), 0), Some((chars(""), 3)));
    assert_eq!(read_host_part(&chars("5:host1"), 0), None);
    assert_eq!(read_host_part(&chars("5;host1\n"), 0), None);
    assert_eq!(read_time_part(&chars("-7 1:a\n"), 0), Some((-7, chars("a"), 7)));
    assert_eq!(read_time_part(&chars("-7 1:ab\n"), 0), None);
    assert_eq!(
        read_line(&chars("xx3 1700000000 5:host1\n"), 2),
        Some((chars("host1"), entry(3, 1700000000), 23))
    );
    assert_eq!(read_line(&chars("3 1700000000 5:host1\n"), 1), None);
}

#[test]
fn lines_are_written_one_behind_the_other() {
    let mut out = chars("# ");
    write_line(&mut out, &chars("host1"), entry(3, 1700000000));
    assert_eq!(text(&out), "# 3 1700000000 5:host1\n");
    let entries = vec![(chars("a"), entry(1, -2)), (chars("b c"), entry(0, 0))];
    let written = encode_entries(&entries);
    assert_eq!(text(&written), "1 -2 1:a\n0 0 3:b c\n");
    assert_eq!(decode_entries(&written), Some(entries));
    assert_eq!(decode_entries(&chars("1 -2 1:a\n0 0 3:b c")), None);
}
