use fastssh::annotations::get_comments;
use fastssh::database::FileDatabase;
use fastssh::ssh_config_store::{
    add_host, finish, has_wildcard, place, SshConfigStore, SshGroup, SshGroupItem, StoreError,
};
use fastssh::text_map::TextMap;
use ssh_cfg::{SshConfigParser, SshHostConfig, SshOptionKey};

fn store(contents: &str, db: &FileDatabase) -> SshConfigStore {
    match SshConfigStore::new(contents, db) {
        Ok(store) => store,
        Err(StoreError::NoEntries) => panic!("no entries"),
        Err(StoreError::Config(error)) => panic!("no configuration: {}", error),
    }
}

fn names(group: &SshGroup) -> Vec<String> {
    group.items.iter().map(|item| item.name.clone()).collect()
}

fn shape(groups: &Vec<SshGroup>) -> Vec<(String, Vec<String>)> {
    groups.iter().map(|group| (group.name.clone(), names(group))).collect()
}

fn expected(groups: &[(&str, &[&str])]) -> Vec<(String, Vec<String>)> {
    groups
        .iter()
        .map(|(name, items)| (name.to_string(), items.iter().map(|i| i.to_string()).collect()))
        .collect()
}

fn item(name: &str) -> SshGroupItem {
    SshGroupItem {
        name: name.to_string(),
        full_name: name.to_string(),
        connection_count: 0,
        last_used: 0,
        host_config: SshHostConfig::default(),
        comment: None,
        tags: None,
    }
}

fn group(name: &str, items: &[&str]) -> SshGroup {
    SshGroup { name: name.to_string(), items: items.iter().map(|i| item(i)).collect() }
}

#[test]
fn groups_of_a_small_configuration() {
    let db = FileDatabase::new();
    let contents = "Host a\n  HostName a.example.org\n\nHost *\n  User root\n\n# tab: X\nHost b\n  HostName b.example.org\n\nHost c\n  Port 2222\n";
    let store = store(contents, &db);
    assert_eq!(shape(&store.groups), expected(&[("X", &["b"]), ("Others", &["a", "c"])]));
    assert_eq!(store.config.len(), 4);
}

#[test]
fn only_wildcards_give_no_inventory() {
    let db = FileDatabase::new();
    assert!(matches!(SshConfigStore::new("Host *\n  User root\n", &db), Err(StoreError::NoEntries)));
    assert!(matches!(
        SshConfigStore::new("Host *\nHost *.example.org\nHost web?\n", &db),
        Err(StoreError::NoEntries)
    ));
}

#[test]
fn no_hosts_give_no_inventory() {
    let db = FileDatabase::new();
    assert!(matches!(SshConfigStore::new("", &db), Err(StoreError::NoEntries)));
    assert!(matches!(SshConfigStore::new("# only a note\n\n", &db), Err(StoreError::NoEntries)));
}

#[test]
fn a_text_that_is_no_configuration_is_refused_as_such() {
    let db = FileDatabase::new();
    assert!(matches!(
        SshConfigStore::new("Host a\n  NoSuchOption yes\n", &db),
        Err(StoreError::Config(_))
    ));
    assert!(matches!(SshConfigStore::new("User root\nHost a\n", &db), Err(StoreError::Config(_))));
    assert!(matches!(SshConfigStore::new("Host\n", &db), Err(StoreError::Config(_))));
}

#[test]
fn a_host_with_a_tab_stands_in_the_group_of_that_name() {
    let db = FileDatabase::new();
    let store = store("# tab: Work\nHost web\nHost plain\n", &db);
    assert_eq!(shape(&store.groups), expected(&[("Work", &["web"]), ("Others", &["plain"])]));
}

#[test]
fn a_blank_line_keeps_the_tab_from_the_host() {
    let db = FileDatabase::new();
    let store = store("# tab: Work\n\nHost db2\n", &db);
    assert_eq!(shape(&store.groups), expected(&[("Others", &["db2"])]));
}

#[test]
fn the_group_made_last_comes_first() {
    let db = FileDatabase::new();
    let contents = "# tab: A\nHost a1\n# tab: B\nHost b1\nHost o1\n# tab: A\nHost a2\n# tab: C\nHost c1\nHost o2\n";
    let store = store(contents, &db);
    assert_eq!(
        shape(&store.groups),
        expected(&[("C", &["c1"]), ("B", &["b1"]), ("A", &["a1", "a2"]), ("Others", &["o1", "o2"])])
    );
}

#[test]
fn without_hosts_outside_groups_there_is_no_group_for_them() {
    let db = FileDatabase::new();
    let store = store("# tab: A\nHost a1\n# tab: B\nHost b1\n", &db);
    assert_eq!(shape(&store.groups), expected(&[("B", &["b1"]), ("A", &["a1"])]));
}

#[test]
fn a_tab_named_as_the_group_of_the_others_joins_it() {
    let db = FileDatabase::new();
    let store = store("Host a\n# tab: Others\nHost b\n# tab: X\nHost c\n", &db);
    assert_eq!(shape(&store.groups), expected(&[("X", &["c"]), ("Others", &["a", "b"])]));
}

#[test]
fn wildcard_patterns_are_no_hosts() {
    assert!(has_wildcard("*"));
    assert!(has_wildcard("*.example.org"));
    assert!(has_wildcard("web?"));
    assert!(has_wildcard("a b*"));
    assert!(!has_wildcard("web"));
    assert!(!has_wildcard(""));
    let db = FileDatabase::new();
    let store = store("# tab: T\nHost web-*\nHost web-1\nHost db?\nHost db1\n", &db);
    assert_eq!(shape(&store.groups), expected(&[("Others", &["web-1", "db1"])]));
}

#[test]
fn an_item_holds_what_the_sources_say_of_its_host() {
    let mut db = FileDatabase::new();
    db.save_host_values("db1", 3, 1700000000);
    let contents = "# the database\n# tags: prod, eu\n# tab: Work\nHost db1\n  HostName db1.example.org\n  Port 2200\n\nHost plain\n  User me\n";
    let store = store(contents, &db);
    assert_eq!(shape(&store.groups), expected(&[("Work", &["db1"]), ("Others", &["plain"])]));
    let db1 = &store.groups[0].items[0];
    assert_eq!(db1.name, "db1");
    assert_eq!(db1.full_name, "db1");
    assert_eq!(db1.connection_count, 3);
    assert_eq!(db1.last_used, 1700000000);
    assert_eq!(db1.comment, Some("the database".to_string()));
    assert_eq!(db1.tags, Some("prod, eu".to_string()));
    assert_eq!(db1.host_config.len(), 2);
    assert_eq!(db1.host_config.get(&SshOptionKey::Hostname), Some(&"db1.example.org".to_string()));
    assert_eq!(db1.host_config.get(&SshOptionKey::Port), Some(&"2200".to_string()));
    let plain = &store.groups[1].items[0];
    assert_eq!(plain.name, "plain");
    assert_eq!(plain.connection_count, 0);
    assert_eq!(plain.last_used, 0);
    assert_eq!(plain.comment, None);
    assert_eq!(plain.tags, None);
    assert_eq!(plain.host_config.len(), 1);
    assert_eq!(plain.host_config.get(&SshOptionKey::User), Some(&"me".to_string()));
}

#[test]
fn the_store_keeps_the_parsed_configuration() {
    let db = FileDatabase::new();
    let contents = "Host a\n  Port 1\nHost *\n  Port 2\n";
    let store = store(contents, &db);
    let parsed = match SshConfigParser::parse_config_contents(contents) {
        Ok(parsed) => parsed,
        Err(error) => panic!("{}", error),
    };
    assert_eq!(store.config, parsed);
    let keys: Vec<&String> = store.config.keys().collect();
    assert_eq!(keys, vec!["a", "*"]);
}

#[test]
fn queries_answer_from_the_groups() {
    let db = FileDatabase::new();
    let store = store("Host a\n# tab: X\nHost b\nHost c\n# tab: X\nHost d\n", &db);
    assert_eq!(store.group_count(), 2);
    assert_eq!(store.group(0).map(|g| g.name.clone()), Some("X".to_string()));
    assert_eq!(store.group(1).map(|g| g.name.clone()), Some("Others".to_string()));
    assert!(store.group(2).is_none());
    let flat: Vec<String> = store.flatten().iter().map(|item| item.name.clone()).collect();
    assert_eq!(flat, vec!["b", "d", "a", "c"]);
}

#[test]
fn from_config_takes_the_annotations_as_they_are_given() {
    let db = FileDatabase::new();
    let config = match SshConfigParser::parse_config_contents("Host a\nHost b\n") {
        Ok(config) => config,
        Err(error) => panic!("{}", error),
    };
    let mut tabs = TextMap::new();
    tabs.insert("b", "Mine");
    let mut comments = TextMap::new();
    comments.insert("a", "first");
    let tags = TextMap::new();
    let store = match SshConfigStore::from_config(config, &db, &comments, &tags, &tabs) {
        Ok(store) => store,
        Err(_) => panic!("two hosts"),
    };
    assert_eq!(shape(&store.groups), expected(&[("Mine", &["b"]), ("Others", &["a"])]));
    assert_eq!(store.groups[1].items[0].comment, Some("first".to_string()));
    let config = match SshConfigParser::parse_config_contents("Host *\n") {
        Ok(config) => config,
        Err(error) => panic!("{}", error),
    };
    assert!(matches!(
        SshConfigStore::from_config(config, &db, &comments, &tags, &tabs),
        Err(StoreError::NoEntries)
    ));
}

#[test]
fn create_ssh_groups_makes_the_groups_anew() {
    let mut db = FileDatabase::new();
    let contents = "Host a\n# tab: X\nHost b\n";
    let mut store = store(contents, &db);
    db.save_host_values("a", 9, 99);
    let (comments, tags, _) = get_comments(contents);
    let tabs = TextMap::new();
    store.create_ssh_groups(&db, &comments, &tags, &tabs);
    assert_eq!(shape(&store.groups), expected(&[("Others", &["a", "b"])]));
    assert_eq!(store.groups[0].items[0].connection_count, 9);
    assert_eq!(store.groups[0].items[0].last_used, 99);
    assert_eq!(store.config.len(), 2);
}

#[test]
fn place_finds_the_group_or_makes_it() {
    let mut groups = vec![group("Others", &[]), group("A", &["a1"])];
    place(&mut groups, None, item("o1"));
    place(&mut groups, Some("A".to_string()), item("a2"));
    place(&mut groups, Some("B".to_string()), item("b1"));
    place(&mut groups, Some("Others".to_string()), item("o2"));
    assert_eq!(
        shape(&groups),
        expected(&[("Others", &["o1", "o2"]), ("A", &["a1", "a2"]), ("B", &["b1"])])
    );
    let mut twice = vec![group("Others", &[]), group("A", &["x"]), group("A", &["y"])];
    place(&mut twice, Some("A".to_string()), item("z"));
    assert_eq!(shape(&twice), expected(&[("Others", &[]), ("A", &["x", "z"]), ("A", &["y"])]));
}

#[test]
fn add_host_skips_wildcards_and_fills_the_item() {
    let mut db = FileDatabase::new();
    db.save_host_values("web", 2, 20);
    let mut comments = TextMap::new();
    comments.insert("web", "note");
    let mut tags = TextMap::new();
    tags.insert("web", "t1, t2");
    let mut tabs = TextMap::new();
    tabs.insert("web", "W");
    tabs.insert("*", "W");
    let mut groups = vec![group("Others", &[])];
    add_host(&mut groups, "*".to_string(), SshHostConfig::default(), &db, &comments, &tags, &tabs);
    assert_eq!(shape(&groups), expected(&[("Others", &[])]));
    let mut params = SshHostConfig::default();
    params.insert(SshOptionKey::Port, "22".to_string());
    add_host(&mut groups, "web".to_string(), params, &db, &comments, &tags, &tabs);
    add_host(&mut groups, "db".to_string(), SshHostConfig::default(), &db, &comments, &tags, &tabs);
    assert_eq!(shape(&groups), expected(&[("Others", &["db"]), ("W", &["web"])]));
    let web = &groups[1].items[0];
    assert_eq!(web.full_name, "web");
    assert_eq!(web.connection_count, 2);
    assert_eq!(web.last_used, 20);
    assert_eq!(web.comment, Some("note".to_string()));
    assert_eq!(web.tags, Some("t1, t2".to_string()));
    assert_eq!(web.host_config.get(&SshOptionKey::Port), Some(&"22".to_string()));
}

#[test]
fn finish_turns_the_order_round_and_drops_empty_groups() {
    let groups = vec![group("Others", &[]), group("A", &["a"]), group("E", &[]), group("B", &["b"])];
    let done = finish(groups);
    assert_eq!(shape(&done), expected(&[("B", &["b"]), ("A", &["a"])]));
    assert_eq!(shape(&finish(Vec::new())), expected(&[]));
    assert_eq!(shape(&finish(vec![group("Others", &[])])), expected(&[]));
}

#[test]
fn dropping_empty_groups_again_drops_nothing() {
    let groups = vec![group("Others", &["o"]), group("A", &[]), group("B", &["b"])];
    let once = finish(groups);
    assert_eq!(shape(&once), expected(&[("B", &["b"]), ("Others", &["o"])]));
    let twice = finish(once);
    assert_eq!(shape(&twice), expected(&[("Others", &["o"]), ("B", &["b"])]));
    let thrice = finish(twice);
    assert_eq!(shape(&thrice), expected(&[("B", &["b"]), ("Others", &["o"])]));
}
