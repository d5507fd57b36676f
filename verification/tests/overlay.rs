use quickaccent::{page_ranges, shows_page_counter};
use quickaccent::{
    message_for, page_range, variant_label, App, GrabEvent, Message, WindowCommand,
};
use quickaccent::{Service, UiEvent};
use iced::window;

#[test]
fn zero_shows_the_complete_list_without_counter_space() {
    assert_eq!(page_range(0, 0, 0), 0..0);
    let variants = vec!["ᑌ".to_string(); 113];
    for index in 0..variants.len() {
        assert_eq!(page_range(variants.len(), index, 0), 0..variants.len());
    }
}

#[test]
fn long_lists_keep_every_selection_on_a_bounded_page() {
    for size in [1, 8, 12, 24, 1000] {
        assert_eq!(page_range(0, 0, size), 0..0);
        for count in [1, 8, 9, 12, 13, 24, 25, 113, 726] {
            for index in 0..count {
                let page = page_range(count, index, size);
                assert!(page.contains(&index));
                assert!(page.len() <= size);
                assert!(page.end <= count);
            }
        }
    }
    assert_eq!(page_range(25, 11, 12), 0..12);
    assert_eq!(page_range(25, 12, 12), 12..24);
    assert_eq!(page_range(25, 24, 12), 24..25);
}

#[test]
fn every_index_on_a_page_has_the_same_page() {
    for index in 12..24 {
        assert_eq!(page_range(30, index, 12), 12..24);
    }
    for index in 24..30 {
        assert_eq!(page_range(30, index, 12), 24..30);
    }
}

#[test]
fn labels_put_combining_marks_on_a_circle() {
    assert_eq!(variant_label("é"), "\u{200e}é");
    assert_eq!(variant_label("\u{0301}"), "\u{200e}◌\u{0301}");
    assert_eq!(variant_label("\u{05b7}"), "\u{200e}◌\u{05b7}");
    assert_eq!(variant_label("V\u{0307}"), "\u{200e}V\u{0307}");
    assert_eq!(variant_label("\u{05be}"), "\u{200e}\u{05be}");
    assert_eq!(variant_label(""), "\u{200e}");
}

fn choices(list: &[&str]) -> Vec<String> {
    list.iter().map(|s| s.to_string()).collect()
}

#[test]
fn showing_opens_one_window_and_hiding_closes_it() {
    let mut app = App::new(2);
    let id = window::Id::unique();
    assert!(app.view(id).is_none());
    let command = app.update(Message::ShowOverlay(choices(&["à", "â", "æ"]), 2));
    assert!(matches!(command, WindowCommand::Open));
    app.attach_window(id);
    let picker = app.view(id).unwrap();
    assert_eq!(picker.cells.len(), 1);
    assert_eq!(picker.cells[0].label, "\u{200e}æ");
    assert!(picker.cells[0].selected);
    assert_eq!(picker.counter, Some((3, 3)));
    assert!(app.view(window::Id::unique()).is_none());

    let command = app.update(Message::ShowOverlay(choices(&["è", "é"]), 0));
    assert!(matches!(command, WindowCommand::Resize(w) if w == id));
    let picker = app.view(id).unwrap();
    assert_eq!(picker.cells.len(), 2);
    assert!(picker.cells[0].selected && !picker.cells[1].selected);
    assert_eq!(picker.counter, None);

    assert!(matches!(app.update(Message::UpdateSelection(1)), WindowCommand::Nothing));
    assert_eq!(app.selected_index(), 1);
    assert!(matches!(app.update(Message::WindowOpened(id)), WindowCommand::Nothing));

    let command = app.update(Message::InjectChar);
    assert!(matches!(command, WindowCommand::Close(w) if w == id));
    assert!(app.variants().is_empty());
    assert!(app.view(id).is_none());
    assert!(matches!(app.update(Message::HideOverlay), WindowCommand::Nothing));
}

#[test]
fn keyboard_events_become_picker_messages() {
    assert!(matches!(
        message_for(GrabEvent::ShowOverlay { variants: choices(&["ß"]), index: 0 }),
        Message::ShowOverlay(v, 0) if v == choices(&["ß"])
    ));
    assert!(matches!(message_for(GrabEvent::UpdateSelection(4)), Message::UpdateSelection(4)));
    assert!(matches!(message_for(GrabEvent::HideOverlay), Message::HideOverlay));
    assert!(matches!(message_for(GrabEvent::InjectChar("é".into())), Message::InjectChar));
    assert!(matches!(message_for(GrabEvent::FalseStart), Message::HideOverlay));
}

#[test]
fn panel_menu_requests() {
    assert_eq!(Service.open_settings(), UiEvent::OpenSettings);
    assert_eq!(Service.quit(), UiEvent::Quit);
}

#[test]
fn a_run_of_messages_never_asks_for_a_second_window() {
    let mut app = App::new(12);
    let mut open: Vec<window::Id> = Vec::new();
    let run = vec![
        Message::ShowOverlay(choices(&["à"]), 0),
        Message::ShowOverlay(choices(&["à", "â"]), 1),
        Message::UpdateSelection(0),
        Message::InjectChar,
        Message::HideOverlay,
        Message::ShowOverlay(choices(&["é"]), 0),
        Message::HideOverlay,
    ];
    for message in run {
        match app.update(message) {
            WindowCommand::Open => {
                assert!(open.is_empty());
                let id = window::Id::unique();
                app.attach_window(id);
                open.push(id);
            }
            WindowCommand::Resize(id) => assert_eq!(open, vec![id]),
            WindowCommand::Close(id) => {
                assert_eq!(open, vec![id]);
                open.clear();
            }
            WindowCommand::Nothing => {}
        }
    }
    assert!(open.is_empty());
}

#[test]
fn pages_cover_the_list_in_order() {
    assert_eq!(page_ranges(25, 12), vec![0..12, 12..24, 24..25]);
    assert_eq!(page_ranges(24, 12), vec![0..12, 12..24]);
    assert_eq!(page_ranges(0, 12), Vec::<std::ops::Range<usize>>::new());
    assert_eq!(page_ranges(113, 0), vec![0..113]);
    for (index, page) in page_ranges(113, 12).into_iter().enumerate() {
        assert_eq!(page_range(113, page.start, 12), page);
        assert_eq!(page.start, index * 12);
    }
    assert!(shows_page_counter(13, 12));
    assert!(!shows_page_counter(12, 12));
    assert!(!shows_page_counter(113, 0));
}
