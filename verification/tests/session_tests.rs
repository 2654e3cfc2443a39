use poki_launcher::color::prepend_hash;
use poki_launcher::record::{AppRecord, ExecutionSpec};
use poki_launcher::session::{Action, DisplayItem, Event, Session};
use poki_launcher::store::IndexStore;

fn app(id: u64, name: &str, usage: u64) -> AppRecord {
    AppRecord {
        id,
        name: name.to_string(),
        launch: ExecutionSpec::new(name.to_lowercase(), format!("{}.png", name)),
        usage_count: usage,
        last_used: None,
        source_path: format!("/apps/{}.desktop", id),
    }
}

fn three() -> Vec<AppRecord> {
    vec![app(4, "Alpha", 0), app(7, "Bravo", 0), app(9, "Charlie", 0)]
}

#[test]
fn a_new_session_shows_nothing() {
    let s = Session::new(true);
    assert!(s.list().is_empty());
    assert_eq!(s.selected(), None);
    assert!(!s.has_moved());
    assert!(s.is_visible());
    assert!(!Session::new(false).is_visible());
}

#[test]
fn results_select_the_best_entry() {
    let mut s = Session::new(true);
    s.show_results(three());
    assert_eq!(s.selected(), Some(4));
    assert_eq!(s.list().len(), 3);
    s.show_results(vec![]);
    assert_eq!(s.selected(), None);
    assert!(s.list().is_empty());
}

#[test]
fn a_moved_selection_stays_while_its_entry_is_shown() {
    let mut s = Session::new(true);
    s.show_results(three());
    s.down();
    assert_eq!(s.selected(), Some(7));
    assert!(s.has_moved());
    s.show_results(vec![app(9, "Charlie", 0), app(7, "Bravo", 0)]);
    assert_eq!(s.selected(), Some(7));
    s.show_results(vec![app(9, "Charlie", 0), app(4, "Alpha", 0)]);
    assert_eq!(s.selected(), Some(9));
    assert!(s.has_moved());
}

#[test]
fn an_unmoved_selection_follows_the_best_entry() {
    let mut s = Session::new(true);
    s.show_results(three());
    s.show_results(vec![app(9, "Charlie", 0), app(4, "Alpha", 0)]);
    assert_eq!(s.selected(), Some(9));
}

#[test]
fn down_stops_at_the_last_entry() {
    let mut s = Session::new(true);
    s.show_results(three());
    s.down();
    assert_eq!(s.selected(), Some(7));
    s.down();
    assert_eq!(s.selected(), Some(9));
    s.down();
    assert_eq!(s.selected(), Some(9));
}

#[test]
fn up_stops_at_the_first_entry() {
    let mut s = Session::new(true);
    s.show_results(three());
    s.up();
    assert_eq!(s.selected(), Some(4));
    assert!(s.has_moved());
    s.down();
    s.down();
    s.up();
    assert_eq!(s.selected(), Some(7));
    s.up();
    s.up();
    assert_eq!(s.selected(), Some(4));
}

#[test]
fn moving_in_an_empty_list_does_nothing() {
    let mut s = Session::new(true);
    s.down();
    s.up();
    assert_eq!(s.selected(), None);
    assert!(!s.has_moved());
    assert_eq!(s.take_selected(), None);
}

#[test]
fn take_selected_hands_out_the_record_and_clears_the_list() {
    let mut s = Session::new(true);
    s.show_results(three());
    s.down();
    assert_eq!(s.take_selected(), Some(app(7, "Bravo", 0)));
    assert!(s.list().is_empty());
    assert_eq!(s.selected(), None);
    assert!(!s.has_moved());
    assert!(s.is_visible());
}

#[test]
fn hiding_forgets_the_move_and_showing_brings_the_window_back() {
    let mut s = Session::new(true);
    s.show_results(three());
    s.down();
    s.hide_window();
    assert!(!s.is_visible());
    assert!(!s.has_moved());
    assert_eq!(s.selected(), Some(7));
    assert_eq!(s.list().len(), 3);
    s.show_window();
    assert!(s.is_visible());
}

#[test]
fn items_show_name_id_and_icon() {
    let mut s = Session::new(true);
    s.show_results(three());
    let items = s.items();
    assert_eq!(items.len(), 3);
    assert_eq!(
        items[1],
        DisplayItem { name: "Bravo".to_string(), id: 7, icon: "Bravo.png".to_string() }
    );
    assert_eq!(DisplayItem::from_record(&app(1, "X", 5)).icon, "X.png");
}

#[test]
fn events_drive_the_session() {
    let store = IndexStore::from_parts(
        vec![app(0, "Firefox", 0), app(1, "Files", 3), app(2, "Fire Alarm", 0)],
        vec![],
        3,
    )
    .unwrap();
    let mut s = Session::new(false);
    assert_eq!(s.handle(&store, Event::Show, 5), Action::Render);
    assert!(s.is_visible());
    assert_eq!(s.handle(&store, Event::Search("fire".to_string()), 5), Action::Render);
    assert_eq!(s.list().len(), 2);
    let best = s.list()[0].id;
    let next = s.list()[1].id;
    assert_eq!(s.selected(), Some(best));
    assert_eq!(s.handle(&store, Event::Down, 5), Action::Render);
    assert_eq!(s.selected(), Some(next));
    assert_eq!(s.handle(&store, Event::Up, 5), Action::Render);
    assert_eq!(s.selected(), Some(best));
    assert_eq!(s.handle(&store, Event::Search("fire".to_string()), 1), Action::Render);
    assert_eq!(s.list().len(), 1);
    match s.handle(&store, Event::Run, 5) {
        Action::Launch(r) => assert_eq!(r.id, best),
        other => panic!("{:?}", other),
    }
    assert!(s.list().is_empty());
    assert_eq!(s.handle(&store, Event::Run, 5), Action::Render);
    assert_eq!(s.handle(&store, Event::Hide, 5), Action::Render);
    assert!(!s.is_visible());
    assert_eq!(s.handle(&store, Event::Exit, 5), Action::Quit);
    assert_eq!(s.handle(&store, Event::Search(String::new()), 1), Action::Render);
    assert_eq!(s.list()[0].name, "Files");
}

#[test]
fn an_entry_on_show_can_be_selected_directly() {
    let mut s = Session::new(true);
    assert!(!s.select(4));
    assert_eq!(s.selected(), None);
    s.show_results(three());
    assert!(s.select(9));
    assert_eq!(s.selected(), Some(9));
    assert!(!s.has_moved());
    assert!(!s.select(5));
    assert_eq!(s.selected(), Some(9));
    s.up();
    assert_eq!(s.selected(), Some(7));
}

#[test]
fn a_rescan_is_marked_until_it_is_done() {
    let store = IndexStore::new(vec![]);
    let mut s = Session::new(true);
    assert!(!s.is_scanning());
    assert_eq!(s.handle(&store, Event::Rescan, 5), Action::Scan);
    assert!(s.is_scanning());
    assert_eq!(s.handle(&store, Event::Rescan, 5), Action::Scan);
    assert_eq!(s.handle(&store, Event::ScanDone, 5), Action::Render);
    assert!(!s.is_scanning());
    s.set_scanning(true);
    s.show_results(three());
    assert!(s.is_scanning());
    assert_eq!(s.take_selected().map(|r| r.id), Some(4));
    assert!(s.is_scanning());
}

#[test]
fn prepend_hash_adds_one_where_it_is_missing() {
    assert_eq!(prepend_hash("282a36".to_string()), "#282a36");
    assert_eq!(prepend_hash("#282a36".to_string()), "#282a36");
    assert_eq!(prepend_hash(String::new()), "");
    assert_eq!(prepend_hash("f".to_string()), "#f");
    assert_eq!(prepend_hash("#".to_string()), "#");
    assert_eq!(prepend_hash("é1".to_string()), "#é1");
}
