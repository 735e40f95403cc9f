use cargo_interactive_update::cli::{
    get_date_from_datetime_string, render_dependency, Event, Key, Longest, State,
};
use cargo_interactive_update::dependency::{Dependencies, Dependency, DependencyKind};

fn record(name: &str, current: &str, latest: &str) -> Dependency {
    Dependency {
        name: name.to_string(),
        current_version: current.to_string(),
        latest_version: latest.to_string(),
        kind: DependencyKind::Normal,
        repository: None,
        description: None,
        latest_version_date: None,
        current_version_date: None,
        workspace_member: None,
        workspace_path: None,
    }
}

fn two_row_state() -> State {
    let deps = Dependencies::new(vec![record("foo", "1.0.0", "1.1.0"), record("bar", "2.0.0", "2.1.0")]);
    State::new(deps, 5)
}

#[test]
fn cursor_wraps_around_the_list() {
    let mut state = two_row_state();
    assert_eq!(state.cursor_location, 0);
    assert_eq!(state.handle_keyboard_event(Key::Up), Event::HandleKeyboardEvent);
    assert_eq!(state.cursor_location, 1);
    assert_eq!(state.handle_keyboard_event(Key::Down), Event::HandleKeyboardEvent);
    assert_eq!(state.cursor_location, 0);
    assert_eq!(state.handle_keyboard_event(Key::Down), Event::HandleKeyboardEvent);
    assert_eq!(state.cursor_location, 1);
    assert_eq!(state.handle_keyboard_event(Key::Right), Event::HandleKeyboardEvent);
    assert_eq!(state.cursor_location, 0);
    assert_eq!(state.handle_keyboard_event(Key::Left), Event::HandleKeyboardEvent);
    assert_eq!(state.cursor_location, 1);
}

#[test]
fn space_toggles_and_letters_select() {
    let mut state = two_row_state();
    state.handle_keyboard_event(Key::Char(' '));
    assert_eq!(state.selected, vec![true, false]);
    state.handle_keyboard_event(Key::Char(' '));
    assert_eq!(state.selected, vec![false, false]);
    state.handle_keyboard_event(Key::Char('a'));
    assert_eq!(state.selected, vec![true, true]);
    state.handle_keyboard_event(Key::Char(' '));
    assert_eq!(state.selected, vec![false, true]);
    state.handle_keyboard_event(Key::Char('i'));
    assert_eq!(state.selected, vec![true, false]);
}

#[test]
fn enter_updates_and_escape_leaves() {
    let mut state = two_row_state();
    assert_eq!(state.handle_keyboard_event(Key::Enter), Event::UpdateDependencies);
    assert_eq!(state.handle_keyboard_event(Key::Esc), Event::Exit);
    assert_eq!(state.handle_keyboard_event(Key::Char('q')), Event::Exit);
    assert_eq!(state.handle_keyboard_event(Key::Char('z')), Event::HandleKeyboardEvent);
    assert_eq!(state.handle_keyboard_event(Key::Other), Event::HandleKeyboardEvent);
}

#[test]
fn selected_dependencies_keep_marked_rows_in_order() {
    let mut state = two_row_state();
    state.handle_keyboard_event(Key::Down);
    state.handle_keyboard_event(Key::Char(' '));
    let chosen = state.selected_dependencies();
    assert_eq!(chosen.len(), 1);
    assert_eq!(chosen.get(0).name, "bar");
}

#[test]
fn render_shows_counts_rows_and_help() {
    let deps = Dependencies::new(vec![record("foo", "1.0.0", "1.1.0")]);
    let state = State::new(deps, 3);
    let lines = state.render();
    assert_eq!(lines.len(), 4);
    assert_eq!(lines[0], "1 out of the 3 direct dependencies are outdated");
    assert_eq!(lines[1], "Dependencies (0 selected):");
    assert_eq!(lines[2], "\u{25cb} foo  none 1.0.0 -> none 1.1.0  none - ");
    assert_eq!(
        lines[3],
        "Use arrow keys to navigate, <a> to select all, <i> to invert, <space> to select/deselect, <enter> to update, <esc>/<q> to exit"
    );
}

#[test]
fn render_pads_columns_and_shows_dates() {
    let mut long = record("longer-name", "10.0.0", "10.1.0");
    long.repository = Some("https://example.com/r".to_string());
    long.description = Some("Words".to_string());
    long.current_version_date = Some("2023-07-01T00:00:00Z".to_string());
    long.latest_version_date = Some("2023-07-02T00:00:00Z".to_string());
    let longest = Longest { name: 12, current_version: 7, latest_version: 6 };
    let row = render_dependency(&long, true, longest);
    assert_eq!(
        row,
        "\u{25cf} longer-name   2023-07-01 10.0.0  -> 2023-07-02 10.1.0  https://example.com/r - Words"
    );
}

#[test]
fn render_announces_an_empty_list() {
    let state = State::new(Dependencies::new(vec![]), 2);
    let lines = state.render();
    assert_eq!(lines.len(), 4);
    assert_eq!(lines[2], "No dependencies found");
}

#[test]
fn date_part_stops_at_the_time_marker() {
    assert_eq!(get_date_from_datetime_string(Some("2023-07-01T00:00:00Z")), Some("2023-07-01"));
    assert_eq!(get_date_from_datetime_string(Some("no marker")), None);
    assert_eq!(get_date_from_datetime_string(None), None);
}
