use pepos::launcher::apps::{parse, sort_and_dedup, App};
use pepos::launcher::config::Config;
use pepos::launcher::render::{palette, result_rows, search_text, Row};
use pepos::launcher::state::{scancode_to_char, AppState, KeyAction};

fn app(name: &str, command: &str) -> App {
    App { name: name.to_string(), command: command.to_string() }
}

fn names(apps: &[App]) -> Vec<String> {
    apps.iter().map(|a| a.name.clone()).collect()
}

#[test]
fn parses_a_plain_entry() {
    let text = "[Desktop Entry]\nType=Application\nName=Firefox\nExec=firefox %u\n";
    let a = parse(text).unwrap();
    assert_eq!(a.name, "Firefox");
    assert_eq!(a.command, "firefox");
}

#[test]
fn parse_takes_the_first_name_and_exec_and_trims() {
    let text = "  [Desktop Entry]  \r\n  Name=Files \r\nName[de]=Dateien\nName=Other\nType=Application\nExec=pcmanfm %F\nExec=ignored\n";
    let a = parse(text).unwrap();
    assert_eq!(a.name, "Files");
    assert_eq!(a.command, "pcmanfm");
}

#[test]
fn parse_ignores_other_sections() {
    let text = "[Desktop Action new]\nName=New Window\nExec=x --new\n[Desktop Entry]\nType=Application\nName=X\nExec=x\n[Other]\nName=Y\n";
    let a = parse(text).unwrap();
    assert_eq!(a.name, "X");
    assert_eq!(a.command, "x");
}

#[test]
fn parse_rejects_hidden_and_non_apps() {
    assert!(parse("[Desktop Entry]\nType=Application\nName=A\nExec=a\nNoDisplay=true\n").is_none());
    assert!(parse("[Desktop Entry]\nType=Application\nName=A\nExec=a\nHidden=true\n").is_none());
    assert!(parse("[Desktop Entry]\nType=Link\nName=A\nExec=a\n").is_none());
    assert!(parse("[Desktop Entry]\nType=Application\nName=A\n").is_none());
    assert!(parse("[Desktop Entry]\nType=Application\nExec=a\n").is_none());
    assert!(parse("Type=Application\nName=A\nExec=a\n").is_none());
    assert!(parse("").is_none());
}

#[test]
fn parse_later_no_display_overrides_hidden() {
    // NoDisplay= sets the flag outright, Hidden= only adds to it.
    let t = "[Desktop Entry]\nType=Application\nName=A\nExec=a\nHidden=true\nNoDisplay=false\n";
    assert!(parse(t).is_some());
    let t = "[Desktop Entry]\nType=Application\nName=A\nExec=a\nNoDisplay=true\nHidden=false\n";
    assert!(parse(t).is_none());
}

#[test]
fn parse_last_type_wins() {
    let t = "[Desktop Entry]\nType=Application\nType=Link\nName=A\nExec=a\n";
    assert!(parse(t).is_none());
}

#[test]
fn parse_without_trailing_newline() {
    let a = parse("[Desktop Entry]\nType=Application\nName=Vim\nExec=vim %F").unwrap();
    assert_eq!(a.command, "vim");
}

#[test]
fn sorts_case_insensitively_and_stably() {
    let apps = vec![app("b", "1"), app("A", "2"), app("a", "3"), app("B", "4"), app("C", "5")];
    let out = sort_and_dedup(apps);
    assert_eq!(names(&out), vec!["A", "a", "b", "B", "C"]);
    assert_eq!(out[0].command, "2");
}

#[test]
fn dedups_equal_neighbours_keeping_the_first() {
    let apps = vec![app("Vim", "vim1"), app("Foot", "foot"), app("Vim", "vim2"), app("vim", "vim3")];
    let out = sort_and_dedup(apps);
    assert_eq!(names(&out), vec!["Foot", "Vim", "vim"]);
    assert_eq!(out[1].command, "vim1");
}

#[test]
fn sort_of_nothing() {
    assert!(sort_and_dedup(Vec::new()).is_empty());
}

fn state() -> AppState {
    let apps = vec![app("Firefox", "firefox --new"), app("Foot", "foot"), app("Vim", "vim"), app("Files", "pcmanfm")];
    AppState::new(apps, Config::default())
}

#[test]
fn new_lists_everything() {
    let s = state();
    assert_eq!(s.filtered, vec![0, 1, 2, 3]);
    assert_eq!(s.selected, 0);
    assert!(s.running);
    assert_eq!(s.width, 640);
    assert_eq!(s.height, 324);
    assert_eq!(s.query, "");
}

#[test]
fn typing_filters_by_lowercase_substring() {
    let mut s = state();
    assert!(matches!(s.handle_key(33), KeyAction::Redraw)); // f
    assert_eq!(s.query, "f");
    assert_eq!(s.filtered, vec![0, 1, 3]);
    assert!(matches!(s.handle_key(23), KeyAction::Redraw)); // i
    assert_eq!(s.filtered, vec![0, 3]);
    assert!(matches!(s.handle_key(38), KeyAction::Redraw)); // l
    assert_eq!(s.filtered, vec![3]);
}

#[test]
fn backspace_restores_the_filter() {
    let mut s = state();
    s.handle_key(33);
    s.handle_key(24); // o
    assert_eq!(s.filtered, vec![0, 1]);
    s.handle_key(24); // o
    assert_eq!(s.filtered, vec![1]);
    s.handle_key(14);
    assert!(matches!(s.handle_key(14), KeyAction::Redraw));
    assert_eq!(s.query, "f");
    assert_eq!(s.filtered, vec![0, 1, 3]);
    s.handle_key(14);
    s.handle_key(14);
    assert_eq!(s.query, "");
    assert_eq!(s.filtered, vec![0, 1, 2, 3]);
}

#[test]
fn arrows_move_within_the_results() {
    let mut s = state();
    assert!(matches!(s.handle_key(103), KeyAction::Redraw));
    assert_eq!(s.selected, 0);
    s.handle_key(108);
    s.handle_key(108);
    assert_eq!(s.selected, 2);
    s.handle_key(108);
    s.handle_key(108);
    assert_eq!(s.selected, 3);
    s.handle_key(103);
    assert_eq!(s.selected, 2);
    s.handle_key(33); // typing resets the selection
    assert_eq!(s.selected, 0);
}

#[test]
fn down_with_no_results_stays() {
    let mut s = state();
    s.handle_key(44); // z
    assert!(s.filtered.is_empty());
    s.handle_key(108);
    assert_eq!(s.selected, 0);
}

#[test]
fn enter_launches_the_selection() {
    let mut s = state();
    s.handle_key(108);
    match s.handle_key(28) {
        KeyAction::Launch(parts) => assert_eq!(parts, vec!["foot".to_string()]),
        _ => panic!("expected a launch"),
    }
    assert!(!s.running);
    let mut s = state();
    match s.handle_key(28) {
        KeyAction::Launch(parts) => assert_eq!(parts, vec!["firefox".to_string(), "--new".to_string()]),
        _ => panic!("expected a launch"),
    }
}

#[test]
fn enter_without_results_just_closes() {
    let mut s = state();
    s.handle_key(44);
    assert!(matches!(s.handle_key(28), KeyAction::Nothing));
    assert!(!s.running);
}

#[test]
fn escape_closes_and_other_keys_are_ignored() {
    let mut s = state();
    assert!(matches!(s.handle_key(59), KeyAction::Nothing));
    assert!(s.running);
    assert_eq!(s.query, "");
    assert!(matches!(s.handle_key(1), KeyAction::Nothing));
    assert!(!s.running);
}

#[test]
fn scancodes() {
    assert_eq!(scancode_to_char(2), Some('1'));
    assert_eq!(scancode_to_char(11), Some('0'));
    assert_eq!(scancode_to_char(16), Some('q'));
    assert_eq!(scancode_to_char(38), Some('l'));
    assert_eq!(scancode_to_char(50), Some('m'));
    assert_eq!(scancode_to_char(57), Some(' '));
    assert_eq!(scancode_to_char(1), None);
    assert_eq!(scancode_to_char(12), None);
    assert_eq!(scancode_to_char(28), None);
}

#[test]
fn panel_height_counts_rows() {
    let mut c = Config::default();
    assert_eq!(c.panel_height(), 324);
    c.launcher.max_results = 0;
    assert_eq!(c.panel_height(), 36);
}

#[test]
fn launcher_surface() {
    let s = state();
    let r = s.surface_request();
    assert_eq!(r.namespace, "pepos-launcher");
    assert_eq!((r.width, r.height), (640, 324));
    assert_eq!(r.exclusive_zone, None);
}

#[test]
fn rows_below_the_search_row() {
    let rows = result_rows(8, 3, 1);
    assert_eq!(
        rows,
        vec![
            Row { index: 0, y: 36, selected: false },
            Row { index: 1, y: 72, selected: true },
            Row { index: 2, y: 108, selected: false },
        ]
    );
    assert_eq!(result_rows(2, 5, 4).len(), 2);
    assert!(result_rows(8, 0, 0).is_empty());
}

#[test]
fn search_text_placeholder() {
    assert_eq!(search_text(""), ("Search apps...".to_string(), true));
    assert_eq!(search_text("fi"), ("fi".to_string(), false));
}

#[test]
fn palette_of_defaults() {
    let p = palette(&Config::default());
    assert_eq!(p.background, (26, 26, 26, 255));
    assert_eq!(p.input, (46, 46, 46));
    assert_eq!(p.foreground, (232, 232, 232));
    assert_eq!(p.placeholder, (116, 116, 116));
    assert_eq!(p.accent, (94, 155, 255));
    let mut c = Config::default();
    c.launcher.background = "#f0f0f0".to_string();
    assert_eq!(palette(&c).input, (255, 255, 255));
}

#[test]
fn sorting_again_changes_nothing() {
    let apps = vec![app("b", "1"), app("A", "2"), app("a", "3"), app("b", "4"), app("B", "5")];
    let once = sort_and_dedup(apps);
    let pairs: Vec<(String, String)> = once.iter().map(|a| (a.name.clone(), a.command.clone())).collect();
    let twice = sort_and_dedup(once);
    let pairs2: Vec<(String, String)> = twice.iter().map(|a| (a.name.clone(), a.command.clone())).collect();
    assert_eq!(pairs, pairs2);
    assert_eq!(names(&twice), vec!["A", "a", "b", "B"]);
}

#[test]
fn typing_more_never_adds_results() {
    let mut s = state();
    let mut previous = s.filtered.clone();
    for code in [33u32, 23, 38, 18] {
        s.handle_key(code);
        assert!(s.filtered.iter().all(|i| previous.contains(i)));
        previous = s.filtered.clone();
    }
    assert_eq!(s.query, "file");
    assert_eq!(s.filtered, vec![3]);
}
