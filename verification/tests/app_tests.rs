use fastssh::app::{rotate, App, AppState, ConfigDisplayMode, Searcher};
use fastssh::database::FileDatabase;
use fastssh::ssh_config_store::StoreError;
use fastssh::widgets::state_widget::StateWidget;
use fastssh::widgets::title_widget::TitleWidget;

const CONFIG: &str = "Host a\n# tab: X\nHost b\nHost c\n# tab: Y\nHost d\n# tab: X\nHost e\n";

fn app() -> App {
    match App::new(CONFIG, FileDatabase::new()) {
        Ok(app) => app,
        Err(_) => panic!("the configuration has hosts"),
    }
}

fn listed(app: &App) -> Vec<String> {
    app.get_items_based_on_mode().iter().map(|item| item.name.clone()).collect()
}

#[test]
fn a_new_session_starts_at_the_first_group() {
    let mut db = FileDatabase::new();
    db.save_host_values("d", 4, 44);
    let app = match App::new(CONFIG, db) {
        Ok(app) => app,
        Err(_) => panic!("the configuration has hosts"),
    };
    assert_eq!(*app.state(), AppState::Normal);
    assert_eq!(app.state_info(), "Welcome to FastSSH!");
    assert_eq!(app.selected_group, 0);
    assert_eq!(app.host_state.selected(), None);
    assert_eq!(app.config_paragraph_offset, 0);
    assert!(matches!(app.config_display_mode, ConfigDisplayMode::Selected));
    assert!(!app.show_help());
    assert!(app.searcher.hits.is_empty());
    assert_eq!(app.scs.groups.len(), 3);
    assert_eq!(app.get_selected_group().name, "Y");
    assert_eq!(app.get_selected_group().items[0].connection_count, 4);
    assert_eq!(app.db.get_host_values("d").last_used_date, 44);
}

#[test]
fn a_session_needs_hosts() {
    assert!(matches!(App::new("Host *\n", FileDatabase::new()), Err(StoreError::NoEntries)));
    assert!(matches!(App::new("Nonsense\n", FileDatabase::new()), Err(StoreError::Config(_))));
}

#[test]
fn groups_are_selected_in_a_circle() {
    let mut app = app();
    app.change_selected_group(true);
    assert_eq!(app.selected_group, 1);
    assert_eq!(app.get_selected_group().name, "X");
    app.change_selected_group(true);
    assert_eq!(app.selected_group, 2);
    assert_eq!(app.get_selected_group().name, "Others");
    app.change_selected_group(true);
    assert_eq!(app.selected_group, 0);
    app.change_selected_group(false);
    assert_eq!(app.selected_group, 2);
    app.change_selected_group(false);
    assert_eq!(app.selected_group, 1);
}

#[test]
fn rotate_steps_within_the_rows() {
    assert_eq!(rotate(0, 3, true), 1);
    assert_eq!(rotate(2, 3, true), 0);
    assert_eq!(rotate(0, 3, false), 2);
    assert_eq!(rotate(1, 3, false), 0);
    assert_eq!(rotate(0, 1, true), 0);
    assert_eq!(rotate(0, 1, false), 0);
    assert_eq!(rotate(7, 3, true), 2);
    assert_eq!(rotate(7, 3, false), 0);
    assert_eq!(rotate(usize::MAX, 3, true), ((usize::MAX as u128 + 1) % 3) as usize);
    assert_eq!(rotate(usize::MAX, 3, false), ((usize::MAX as u128 + 2) % 3) as usize);
}

#[test]
fn the_list_holds_the_selected_group() {
    let mut app = app();
    assert_eq!(listed(&app), vec!["d"]);
    app.change_selected_group(true);
    assert_eq!(listed(&app), vec!["b", "e"]);
    app.change_selected_group(true);
    assert_eq!(listed(&app), vec!["a", "c"]);
    let all: Vec<String> = app.get_all_items().iter().map(|item| item.name.clone()).collect();
    assert_eq!(all, vec!["d", "b", "e", "a", "c"]);
}

#[test]
fn during_a_search_the_list_holds_what_was_found() {
    let mut app = app();
    app.set_state(AppState::Searching);
    assert_eq!(listed(&app), Vec::<String>::new());
    app.searcher = Searcher { hits: vec![4, 0, 99, 2, 5] };
    assert_eq!(listed(&app), vec!["c", "d", "e"]);
    let found: Vec<String> =
        app.searcher.get_filtered_items(&app).iter().map(|item| item.name.clone()).collect();
    assert_eq!(found, vec!["c", "d", "e"]);
    app.set_state(AppState::Normal);
    assert_eq!(listed(&app), vec!["d"]);
    assert!(Searcher::new().hits.is_empty());
}

#[test]
fn rows_are_selected_in_a_circle() {
    let mut app = app();
    app.change_selected_group(true);
    assert_eq!(app.get_selected_item().map(|i| i.name.clone()), None);
    app.change_selected_item(true);
    assert_eq!(app.host_state.selected(), Some(0));
    assert_eq!(app.get_selected_item().map(|i| i.name.clone()), Some("b".to_string()));
    app.change_selected_item(true);
    assert_eq!(app.host_state.selected(), Some(1));
    assert_eq!(app.get_selected_item().map(|i| i.name.clone()), Some("e".to_string()));
    app.change_selected_item(true);
    assert_eq!(app.host_state.selected(), Some(0));
    app.change_selected_item(false);
    assert_eq!(app.host_state.selected(), Some(1));
    app.change_selected_item(false);
    assert_eq!(app.host_state.selected(), Some(0));
    let mut fresh = self::app();
    fresh.change_selected_item(false);
    assert_eq!(fresh.host_state.selected(), Some(0));
}

#[test]
fn a_row_past_the_list_is_no_host_and_steps_as_its_remainder() {
    let mut app = app();
    app.change_selected_group(true);
    app.host_state.select(Some(7));
    assert!(app.get_selected_item().is_none());
    app.change_selected_item(true);
    assert_eq!(app.host_state.selected(), Some(0));
    app.host_state.select(Some(7));
    app.change_selected_item(false);
    assert_eq!(app.host_state.selected(), Some(0));
    app.host_state.select(Some(2));
    assert!(app.get_selected_item().is_none());
    app.host_state.select(Some(1));
    assert_eq!(app.get_selected_item().map(|i| i.name.clone()), Some("e".to_string()));
}

#[test]
fn an_empty_list_leaves_the_row_as_it_is() {
    let mut app = app();
    app.set_state(AppState::Searching);
    app.change_selected_item(true);
    assert_eq!(app.host_state.selected(), None);
    app.host_state.select(Some(3));
    app.change_selected_item(false);
    assert_eq!(app.host_state.selected(), Some(3));
}

#[test]
fn the_paragraph_scrolls_but_not_above_its_first_line() {
    let mut app = app();
    app.scroll_config_paragraph(5);
    assert_eq!(app.config_paragraph_offset, 5);
    app.scroll_config_paragraph(10);
    assert_eq!(app.config_paragraph_offset, 15);
    app.scroll_config_paragraph(-4);
    assert_eq!(app.config_paragraph_offset, 11);
    app.scroll_config_paragraph(-12);
    assert_eq!(app.config_paragraph_offset, 0);
    app.scroll_config_paragraph(i64::MIN);
    assert_eq!(app.config_paragraph_offset, 0);
    app.scroll_config_paragraph(65535);
    assert_eq!(app.config_paragraph_offset, 65535);
    app.scroll_config_paragraph(1);
    assert_eq!(app.config_paragraph_offset, 0);
    app.scroll_config_paragraph(70000);
    assert_eq!(app.config_paragraph_offset, 4464);
    app.scroll_config_paragraph(i64::MAX);
    assert_eq!(app.config_paragraph_offset, ((4464i128 + i64::MAX as i128) % 65536) as u16);
}

#[test]
fn the_display_mode_toggles() {
    let mut app = app();
    app.toggle_config_display_mode();
    assert!(matches!(app.config_display_mode, ConfigDisplayMode::Global));
    app.toggle_config_display_mode();
    assert!(matches!(app.config_display_mode, ConfigDisplayMode::Selected));
}

#[test]
fn state_and_its_line_are_set_and_read() {
    let mut app = app();
    app.set_state(AppState::Ping("web".to_string()));
    assert_eq!(*app.state(), AppState::Ping("web".to_string()));
    assert_eq!(app.state_info(), "Welcome to FastSSH!");
    app.set_state_info("busy".to_string());
    assert_eq!(app.state_info(), "busy");
    assert_eq!(*app.state(), AppState::Ping("web".to_string()));
    assert!(!app.show_help());
    app.toggle_help();
    assert!(app.show_help());
    app.toggle_help();
    assert!(!app.show_help());
    assert_eq!(app.app_name(), "FastSSH");
    assert_eq!(app.app_version(), "0.1.0");
}

#[test]
fn after_input_the_line_follows_the_state() {
    let mut app = app();
    assert!(!app.after_input());
    assert_eq!(app.state_info(), ">> ");
    assert_eq!(*app.state(), AppState::Normal);
    app.set_state(AppState::Searching);
    assert!(!app.after_input());
    assert_eq!(app.state_info(), "Search Mode ... Press ESC to cancel.");
    assert_eq!(*app.state(), AppState::Searching);
    app.set_state(AppState::Ping("web".to_string()));
    assert!(!app.after_input());
    assert_eq!(
        app.state_info(),
        "64 bytes from web (10.157.181.172): icmp_seq=1 ttl=53 time=70.0 ms"
    );
    assert_eq!(*app.state(), AppState::Normal);
    app.set_state(AppState::SpawnSsh);
    assert!(app.after_input());
    assert_eq!(app.state_info(), "Connect to ...");
    assert_eq!(*app.state(), AppState::SpawnSsh);
    app.set_state(AppState::Quit);
    assert!(app.after_input());
    assert_eq!(app.state_info(), "Terminating.");
    assert_eq!(*app.state(), AppState::Quit);
}

#[test]
fn the_widgets_show_title_and_state() {
    let mut app = app();
    assert_eq!(TitleWidget::title(&app), " FastSSH - 0.1.0 ");
    assert_eq!(StateWidget::text(&app), " Welcome to FastSSH!");
    app.set_state_info(String::new());
    assert_eq!(StateWidget::text(&app), " ");
}

#[test]
fn a_search_does_not_ask_for_the_selected_group() {
    let mut app = app();
    app.set_state(AppState::Searching);
    app.searcher = Searcher { hits: vec![1] };
    app.selected_group = 99;
    assert_eq!(listed(&app), vec!["b"]);
    app.change_selected_item(true);
    assert_eq!(app.host_state.selected(), Some(0));
    assert_eq!(app.get_selected_item().map(|i| i.name.clone()), Some("b".to_string()));
    app.set_state(AppState::Normal);
    app.host_state.select(None);
    assert!(app.get_selected_item().is_none());
}
