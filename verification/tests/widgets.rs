use boyl::boolprompt::user_str_into_bool;
use boyl::config::{Config, Template};
use boyl::input::InputField;
use boyl::screens::{FilePickerUi, Key, List, UiMode, UiStateReaction};
use boyl::spinner::Spinner;
use boyl::tree::ListedEntry;
use boyl::userbool::UserBool;
use boyl::verbosity::Verbosity;

fn entry(name: &str, is_dir: bool) -> ListedEntry {
    ListedEntry { name: name.to_string(), is_dir }
}

#[test]
fn input_field_edits_and_consumes() {
    let mut f = InputField::new();
    f.add_char('h');
    f.add_char('i');
    assert_eq!(f.consume_input(), "hi");
    f.backspace_char();
    assert_eq!(f.consume_input(), "h");
    f.caret_move_left();
    f.add_char('a');
    assert_eq!(f.consume_input(), "ah");
    f.caret_move_right();
    f.caret_move_right();
    f.add_char('!');
    assert_eq!(f.consume_input(), "ah!");
}

#[test]
fn input_field_delete_under_caret() {
    let mut f = InputField::new_with_content("abc".to_string());
    f.delete_char();
    assert_eq!(f.consume_input(), "bc");
    f.caret_move_right();
    f.caret_move_right();
    // caret on the final extra space: delete does nothing
    f.delete_char();
    assert_eq!(f.consume_input(), "bc");
}

#[test]
fn input_field_render_slides_viewport() {
    let mut f = InputField::new_with_content("abcdef".to_string());
    for _ in 0..6 {
        f.caret_move_right();
    }
    let (shown, highlighted) = f.render(4);
    // caret sits on the extra space; the viewport slides to keep it shown
    assert_eq!(shown, "def ");
    assert_eq!(highlighted, 3);
}

#[test]
fn spinner_cycles_through_twelve_glyphs() {
    let mut s = Spinner::new();
    assert_eq!(s.tick(), "\u{280b}");
    for _ in 0..10 {
        s.tick();
    }
    // the twelfth tick wraps back to the first glyph
    assert_eq!(s.tick(), "\u{2809}");
}

#[test]
fn template_key_is_stable_and_collisions_are_rejected() {
    let t1 = Template {
        name: "web".to_string(),
        description: None,
        directory_name: "web".to_string(),
    };
    let t2 = Template {
        name: "web".to_string(),
        description: Some("again".to_string()),
        directory_name: "web2".to_string(),
    };
    assert_eq!(Config::get_template_key(&t1), Config::get_template_key(&t2));
    let mut config = Config::new("1.0".to_string());
    let key = config.insert_template(t1).unwrap();
    assert_eq!(config.insert_template(t2), Err(key));
    assert_eq!(config.templates.len(), 1);
}

#[test]
fn user_bool_parses_common_answers() {
    assert!(!"no".parse::<UserBool>().unwrap().value);
    assert!(!"N".parse::<UserBool>().unwrap().value);
    assert!(!"FALSE".parse::<UserBool>().unwrap().value);
    assert!("y".parse::<UserBool>().unwrap().value);
    assert!("Yes".parse::<UserBool>().unwrap().value);
    assert!("true".parse::<UserBool>().unwrap().value);
    let err = "maybe".parse::<UserBool>().unwrap_err();
    assert_eq!(err, "Cannot understand maybe");
}

#[test]
fn prompt_answers_fall_back_to_default() {
    assert!(user_str_into_bool("yes", false));
    assert!(!user_str_into_bool(" No ", true));
    assert!(user_str_into_bool("", true));
    assert!(!user_str_into_bool("", false));
    assert!(!user_str_into_bool("xyz", false));
    assert!(user_str_into_bool("Y", false));
}

#[test]
fn verbosity_levels_from_counts() {
    assert_eq!(Verbosity::from(0i64), Verbosity::Quiet);
    assert_eq!(Verbosity::from(1i64), Verbosity::Verbose);
    assert_eq!(Verbosity::from(5i64), Verbosity::VeryVerbose);
}

#[test]
fn nav_list_wraps_both_ways() {
    let mut list = List::new(vec!["a", "b", "c"]);
    list.go_up();
    assert_eq!(list.highlight, 2);
    list.go_down();
    assert_eq!(list.highlight, 0);
    list.go_down();
    assert_eq!(list.highlight, 1);
    let removed = list.remove_entry(1);
    assert_eq!(removed, "b");
    assert_eq!(list.len(), 2);
}

#[test]
fn picker_aborts_on_interrupt() {
    let mut picker = FilePickerUi::new(vec![entry("a.txt", false)]);
    let r = picker.handle_key(Key::Ctrl('c'));
    assert!(matches!(r, Some(UiStateReaction::Exit)));
    assert!(picker.aborted);
}

#[test]
fn picker_finishes_on_return() {
    let mut picker = FilePickerUi::new(vec![entry("a.txt", false)]);
    let r = picker.handle_key(Key::Char('\n'));
    assert!(matches!(r, Some(UiStateReaction::Exit)));
    assert!(!picker.aborted);
}

#[test]
fn picker_prompt_collects_a_pattern() {
    let mut picker = FilePickerUi::new(vec![entry("a.txt", false), entry("b.log", false)]);
    picker.handle_key(Key::Char('z'));
    assert!(matches!(picker.mode, UiMode::Input(_)));
    picker.handle_key(Key::Char('*'));
    picker.handle_key(Key::Char('.'));
    picker.handle_key(Key::Char('l'));
    picker.handle_key(Key::Char('o'));
    picker.handle_key(Key::Char('g'));
    picker.handle_key(Key::Char('\n'));
    assert!(matches!(picker.mode, UiMode::List));
    assert!(picker.file_list.is_included(0));
    assert!(!picker.file_list.is_included(1));
}

#[test]
fn picker_reports_bad_pattern_and_recovers() {
    let mut picker = FilePickerUi::new(vec![entry("a.txt", false)]);
    picker.handle_key(Key::Char('z'));
    picker.handle_key(Key::Char('['));
    picker.handle_key(Key::Char('\n'));
    assert!(matches!(picker.mode, UiMode::Error(_)));
    assert!(picker.file_list.is_included(0));
    // any key leaves the error banner
    picker.handle_key(Key::Char('q'));
    assert!(matches!(picker.mode, UiMode::List));
}

#[test]
fn picker_defers_toggle_until_listing_arrives() {
    let mut picker = FilePickerUi::new(vec![entry("sub", true)]);
    picker.handle_key(Key::Char('o'));
    assert_eq!(picker.listing_request().as_deref(), Some("sub"));
    picker.supply_listing(vec![entry("c.txt", false)]);
    assert_eq!(picker.listing_request(), None);
    assert_eq!(picker.file_list.len(), 2);
}

#[test]
fn picker_reset_restores_the_fresh_list() {
    let mut picker = FilePickerUi::new(vec![entry("a.txt", false), entry("b.txt", false)]);
    picker.handle_key(Key::Char('x'));
    assert!(!picker.file_list.is_included(0));
    picker.handle_key(Key::Char('r'));
    assert!(picker.file_list.is_included(0));
    assert_eq!(picker.file_list.len(), 2);
}
