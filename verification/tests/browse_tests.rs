use autoroute::browse::{App, Event, Flow, Tab};
use autoroute::ports::PortRecord;

fn records(n: i32) -> Vec<PortRecord> {
    (0..n)
        .map(|i| PortRecord {
            client_id: 10 + i,
            client_name: Some(format!("Client{}", i)),
            port_id: i,
            port_name: Some(format!("Port{}", i)),
            port_cap: 1,
        })
        .collect()
}

#[test]
fn starts_at_the_first_endpoint_on_the_info_tab() {
    let app = App::new(&records(3));
    assert_eq!(app.selected(), Some(0));
    assert_eq!(app.active_tab(), Tab::Info);
    assert_eq!(app.ports().len(), 3);
    assert_eq!(app.selected_port_info().map(|p| p.client_id), Some(10));
}

#[test]
fn starts_with_no_selection_on_an_empty_list() {
    let app = App::new(&records(0));
    assert_eq!(app.selected(), None);
    assert_eq!(app.active_tab(), Tab::Info);
    assert!(app.selected_port_info().is_none());
}

#[test]
fn previous_from_the_first_wraps_to_the_last() {
    let mut app = App::new(&records(4));
    assert_eq!(app.handle(Event::Previous), Flow::Continue);
    assert_eq!(app.selected(), Some(3));
    assert_eq!(app.selected_port_info().map(|p| p.port_id), Some(3));
    assert_eq!(app.handle(Event::Previous), Flow::Continue);
    assert_eq!(app.selected(), Some(2));
}

#[test]
fn next_from_the_last_wraps_to_the_first() {
    let mut app = App::new(&records(3));
    app.handle(Event::Next);
    assert_eq!(app.selected(), Some(1));
    app.handle(Event::Next);
    assert_eq!(app.selected(), Some(2));
    assert_eq!(app.handle(Event::Next), Flow::Continue);
    assert_eq!(app.selected(), Some(0));
}

#[test]
fn single_endpoint_stays_selected() {
    let mut app = App::new(&records(1));
    app.handle(Event::Next);
    assert_eq!(app.selected(), Some(0));
    app.handle(Event::Previous);
    assert_eq!(app.selected(), Some(0));
}

#[test]
fn moving_over_an_empty_list_does_nothing() {
    let mut app = App::new(&records(0));
    assert_eq!(app.handle(Event::Next), Flow::Continue);
    assert_eq!(app.selected(), None);
    assert_eq!(app.handle(Event::Previous), Flow::Continue);
    assert_eq!(app.selected(), None);
}

#[test]
fn tabs_are_set_not_toggled() {
    let mut app = App::new(&records(2));
    app.handle(Event::ShowInfo);
    assert_eq!(app.active_tab(), Tab::Info);
    app.handle(Event::ShowInfo);
    assert_eq!(app.active_tab(), Tab::Info);
    app.handle(Event::ShowConnect);
    assert_eq!(app.active_tab(), Tab::Connect);
    app.handle(Event::ShowConnect);
    assert_eq!(app.active_tab(), Tab::Connect);
    app.handle(Event::ShowInfo);
    assert_eq!(app.active_tab(), Tab::Info);
    assert_eq!(app.selected(), Some(0));
}

#[test]
fn quit_ends_the_session_and_changes_nothing() {
    let mut app = App::new(&records(2));
    app.handle(Event::Next);
    app.handle(Event::ShowConnect);
    assert_eq!(app.handle(Event::Quit), Flow::Quit);
    assert_eq!(app.selected(), Some(1));
    assert_eq!(app.active_tab(), Tab::Connect);
    assert_eq!(app.ports().len(), 2);
}

#[test]
fn other_input_changes_nothing() {
    let mut app = App::new(&records(2));
    app.handle(Event::Next);
    assert_eq!(app.handle(Event::Other), Flow::Continue);
    assert_eq!(app.selected(), Some(1));
    assert_eq!(app.active_tab(), Tab::Info);
    assert_eq!(app.ports().len(), 2);
}

#[test]
fn refresh_keeps_a_selection_that_fits() {
    let mut app = App::new(&records(5));
    app.handle(Event::Next);
    app.handle(Event::Next);
    app.handle(Event::ShowConnect);
    app.refresh_ports(&records(3));
    assert_eq!(app.selected(), Some(2));
    assert_eq!(app.ports().len(), 3);
    assert_eq!(app.active_tab(), Tab::Connect);
}

#[test]
fn refresh_falls_back_to_the_first_endpoint() {
    let mut app = App::new(&records(5));
    app.handle(Event::Previous);
    assert_eq!(app.selected(), Some(4));
    app.refresh_ports(&records(2));
    assert_eq!(app.selected(), Some(0));
    app.refresh_ports(&records(0));
    assert_eq!(app.selected(), None);
    app.refresh_ports(&records(1));
    assert_eq!(app.selected(), Some(0));
    assert_eq!(app.selected_port_info().map(|p| p.client_name.clone()), Some("Client0".to_string()));
}
