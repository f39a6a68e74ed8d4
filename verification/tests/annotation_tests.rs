use fastssh::annotations::get_comments;

fn value(map: &fastssh::text_map::TextMap, key: &str) -> Option<String> {
    map.get(key)
}

#[test]
fn tags_are_joined_with_comma_and_blank() {
    let (comments, tags, tabs) = get_comments("# tags: prod, eu\nHost db1\n");
    assert_eq!(value(&tags, "db1"), Some("prod, eu".to_string()));
    assert_eq!(value(&comments, "db1"), None);
    assert_eq!(value(&tabs, "db1"), None);
}

#[test]
fn tags_are_trimmed_one_by_one() {
    let (_, tags, _) = get_comments("#tags:a ,b,  c  \nHost h\n");
    assert_eq!(value(&tags, "h"), Some("a, b, c".to_string()));
}

#[test]
fn an_empty_list_of_tags_is_one_empty_tag() {
    let (_, tags, _) = get_comments("# tags:\nHost h\n");
    assert_eq!(value(&tags, "h"), Some("".to_string()));
    let (_, tags, _) = get_comments("# tags: a,,b\nHost h\n");
    assert_eq!(value(&tags, "h"), Some("a, , b".to_string()));
}

#[test]
fn a_later_list_of_tags_replaces_an_earlier_one() {
    let (_, tags, _) = get_comments("# tags: a, b\n# tags: c\nHost h\n");
    assert_eq!(value(&tags, "h"), Some("c".to_string()));
}

#[test]
fn tab_names_the_group_of_the_next_host() {
    let (_, _, tabs) = get_comments("# tab: Work\nHost web\nHost plain\n");
    assert_eq!(value(&tabs, "web"), Some("Work".to_string()));
    assert_eq!(value(&tabs, "plain"), None);
}

#[test]
fn a_later_tab_replaces_an_earlier_one() {
    let (_, _, tabs) = get_comments("# tab: Work\n# tab:   Home  \nHost web\n");
    assert_eq!(value(&tabs, "web"), Some("Home".to_string()));
}

#[test]
fn a_blank_line_drops_what_is_pending() {
    let (comments, tags, tabs) =
        get_comments("# tab: Work\n# tags: x\n# a note\n\nHost db2\n");
    assert_eq!(value(&tabs, "db2"), None);
    assert_eq!(value(&tags, "db2"), None);
    assert_eq!(value(&comments, "db2"), None);
    let (_, _, tabs) = get_comments("# tab: Work\n   \t \nHost db2\n");
    assert_eq!(value(&tabs, "db2"), None);
}

#[test]
fn comment_lines_are_joined_with_line_feeds() {
    let (comments, _, _) = get_comments("# first line\n#second line\n  #  third  \nHost h\n");
    assert_eq!(value(&comments, "h"), Some("first line\nsecond line\nthird".to_string()));
}

#[test]
fn an_empty_comment_line_is_an_empty_line_of_the_note() {
    let (comments, _, _) = get_comments("#\n# x\nHost h\n");
    assert_eq!(value(&comments, "h"), Some("\nx".to_string()));
}

#[test]
fn all_three_kinds_go_to_the_same_host() {
    let (comments, tags, tabs) =
        get_comments("# the database\n# tags: prod, eu\n# tab: Work\n# of the shop\nHost db1\n");
    assert_eq!(value(&comments, "db1"), Some("the database\nof the shop".to_string()));
    assert_eq!(value(&tags, "db1"), Some("prod, eu".to_string()));
    assert_eq!(value(&tabs, "db1"), Some("Work".to_string()));
}

#[test]
fn a_host_line_takes_what_is_pending_and_leaves_nothing() {
    let (comments, tags, tabs) =
        get_comments("# note\n# tags: t\n# tab: G\nHost one\nHost two\n");
    assert_eq!(value(&comments, "one"), Some("note".to_string()));
    assert_eq!(value(&comments, "two"), None);
    assert_eq!(value(&tags, "two"), None);
    assert_eq!(value(&tabs, "two"), None);
}

#[test]
fn other_lines_leave_what_is_pending() {
    let (_, _, tabs) = get_comments("# tab: Work\n  User root\nHost web\n");
    assert_eq!(value(&tabs, "web"), Some("Work".to_string()));
}

#[test]
fn the_words_are_case_sensitive() {
    let (comments, tags, tabs) = get_comments("# Tags: a\n# TAB: b\nhost x\nHost y\n");
    assert_eq!(value(&tags, "y"), None);
    assert_eq!(value(&tabs, "y"), None);
    assert_eq!(value(&comments, "y"), Some("Tags: a\nTAB: b".to_string()));
    assert_eq!(value(&comments, "x"), None);
}

#[test]
fn host_needs_its_blank() {
    let (_, _, tabs) = get_comments("# tab: Work\nHostName web\nHost\nHost web\n");
    assert_eq!(value(&tabs, "web"), Some("Work".to_string()));
    assert_eq!(value(&tabs, "Name web"), None);
}

#[test]
fn the_pattern_is_what_follows_host_without_white_space_around() {
    let (_, _, tabs) = get_comments("# tab: Work\n   Host    web  prod   \r\n");
    assert_eq!(value(&tabs, "web  prod"), Some("Work".to_string()));
}

#[test]
fn carriage_returns_are_white_space() {
    let (comments, tags, tabs) =
        get_comments("# note\r\n# tags: a, b\r\n# tab: Work\r\nHost web\r\n");
    assert_eq!(value(&comments, "web"), Some("note".to_string()));
    assert_eq!(value(&tags, "web"), Some("a, b".to_string()));
    assert_eq!(value(&tabs, "web"), Some("Work".to_string()));
    let (_, _, tabs) = get_comments("# tab: Work\r\n\r\nHost web\r\n");
    assert_eq!(value(&tabs, "web"), None);
}

#[test]
fn a_later_entry_of_a_host_decides() {
    let (_, _, tabs) = get_comments("# tab: A\nHost h\n# tab: B\nHost h\n");
    assert_eq!(value(&tabs, "h"), Some("B".to_string()));
    let (_, _, tabs) = get_comments("# tab: A\nHost h\nHost h\n");
    assert_eq!(value(&tabs, "h"), Some("A".to_string()));
}

#[test]
fn no_text_gives_no_annotations() {
    let (comments, tags, tabs) = get_comments("");
    assert!(comments.is_empty());
    assert!(tags.is_empty());
    assert!(tabs.is_empty());
    let (comments, tags, tabs) = get_comments("# tab: lost\n# tags: lost\n# lost");
    assert!(comments.is_empty());
    assert!(tags.is_empty());
    assert!(tabs.is_empty());
}

#[test]
fn the_last_line_needs_no_line_feed() {
    let (_, _, tabs) = get_comments("# tab: Work\nHost web");
    assert_eq!(value(&tabs, "web"), Some("Work".to_string()));
}
