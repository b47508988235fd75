use snippets::snippets::library::Library;
use snippets::snippets::snippets::{Snippet, Tag};
use snippets::ui::application::{library_fits, AppStateMode, Effect, Event, KeyCode, KeyEvent, ViewOverlay};

fn snippet(description: &str, tags: &[&str]) -> Snippet {
    Snippet {
        description: description.to_string(),
        links: Vec::new(),
        parts: Vec::new(),
        tags: tags.iter().map(|t| Tag { category: "c".to_string(), name: t.to_string() }).collect(),
        tag_set: tags.iter().map(|t| t.to_string()).collect(),
        extra_keywords: Vec::new(),
    }
}

fn library() -> Library {
    Library::new(vec![
        snippet("sorting vectors", &["rust"]),
        snippet("reading files", &["io", "rust"]),
        snippet("sorted maps", &["python"]),
    ])
}

fn key(code: KeyCode) -> Event {
    Event::Key(KeyEvent { code, pressed: true, control: false })
}

fn press(state: AppStateMode, library: &Library, code: KeyCode) -> (AppStateMode, Effect) {
    let event = key(code);
    assert!(state.accepts(&event));
    state.handle_event(library, event, 2)
}

#[test]
fn the_interface_starts_by_listing_every_snippet() {
    let library = library();
    assert!(library_fits(&library));
    let state = AppStateMode::initial(&library);
    assert!(state.is_running());
    if let AppStateMode::View(v) = &state {
        assert_eq!(vec![0, 1, 2], v.snippets);
        assert!(v.active_tags.is_empty());
        assert_eq!(0, v.highlighted_snippet_index.unwrap().value());
        assert_eq!(0, v.shown_snippet);
        assert_eq!(ViewOverlay::NoOverlay, v.overlay);
    } else {
        panic!("the interface should start in view mode");
    }
}

#[test]
fn q_quits() {
    let library = library();
    let (state, effect) = press(AppStateMode::initial(&library), &library, KeyCode::Char('q'));
    assert!(!state.is_running());
    assert_eq!(Effect::Nothing, effect);
}

#[test]
fn arrows_move_the_highlight_around_the_list() {
    let library = library();
    let (state, _) = press(AppStateMode::initial(&library), &library, KeyCode::Up);
    if let AppStateMode::View(v) = &state {
        assert_eq!(2, v.highlighted_snippet_index.unwrap().value());
        assert_eq!(2, v.shown_snippet);
    } else {
        panic!("should stay in view mode");
    }
    let (state, _) = press(state, &library, KeyCode::Down);
    if let AppStateMode::View(v) = &state {
        assert_eq!(0, v.shown_snippet);
    } else {
        panic!("should stay in view mode");
    }
}

#[test]
fn choosing_a_tag_lists_its_carriers() {
    let library = library();
    let (state, _) = press(AppStateMode::initial(&library), &library, KeyCode::Char('#'));
    assert!(matches!(state, AppStateMode::TagSearch(_)));
    let (state, _) = press(state, &library, KeyCode::Char('r'));
    if let AppStateMode::TagSearch(t) = &state {
        let names: Vec<&str> = t.tags.iter().map(|t| t.name.as_str()).collect();
        assert_eq!(vec!["rust"], names);
    } else {
        panic!("should stay in tag search");
    }
    let (state, _) = press(state, &library, KeyCode::Enter);
    if let AppStateMode::View(v) = &state {
        assert_eq!(vec![0, 1], v.snippets);
        assert_eq!(1, v.active_tags.len());
        assert_eq!("rust", v.active_tags[0].name);
    } else {
        panic!("selecting a tag should return to view mode");
    }
    let (state, _) = press(state, &library, KeyCode::Delete);
    if let AppStateMode::View(v) = &state {
        assert_eq!(vec![0, 1, 2], v.snippets);
        assert!(v.active_tags.is_empty());
    } else {
        panic!("should stay in view mode");
    }
}

#[test]
fn escape_cancels_a_tag_search() {
    let library = library();
    let (state, _) = press(AppStateMode::initial(&library), &library, KeyCode::Char('#'));
    let (state, _) = press(state, &library, KeyCode::Esc);
    if let AppStateMode::View(v) = &state {
        assert_eq!(vec![0, 1, 2], v.snippets);
    } else {
        panic!("escape should return to view mode");
    }
}

#[test]
fn keywords_filter_the_listed_snippets() {
    let library = library();
    let (state, _) = press(AppStateMode::initial(&library), &library, KeyCode::Char('/'));
    let mut state = state;
    for c in "sort".chars() {
        state = press(state, &library, KeyCode::Char(c)).0;
    }
    if let AppStateMode::KeywordSearch(k) = &state {
        assert_eq!(vec![0, 2], k.filtered_snippets);
        assert_eq!(vec!["sort".to_string()], k.keywords);
    } else {
        panic!("should stay in keyword search");
    }
    let (state, _) = press(state, &library, KeyCode::Char(' '));
    let (state, _) = press(state, &library, KeyCode::Char('m'));
    if let AppStateMode::KeywordSearch(k) = &state {
        assert_eq!(vec![2], k.filtered_snippets);
    } else {
        panic!("should stay in keyword search");
    }
    let (state, _) = press(state, &library, KeyCode::Esc);
    assert!(matches!(state, AppStateMode::View(_)));
}

#[test]
fn copying_code_asks_for_the_block() {
    let library = library();
    let (state, effect) = press(AppStateMode::initial(&library), &library, KeyCode::Char('C'));
    assert_eq!(Effect::CopyCodeBlock(0), effect);
    let (state, _) = press(state, &library, KeyCode::Char('c'));
    if let AppStateMode::View(v) = &state {
        assert_eq!(ViewOverlay::CopySnippet, v.overlay);
    } else {
        panic!("should stay in view mode");
    }
    let (_, effect) = press(state, &library, KeyCode::Char('2'));
    assert_eq!(Effect::CopyCodeBlock(1), effect);
}

#[test]
fn page_keys_need_a_page_size() {
    let library = library();
    let mut state = AppStateMode::initial(&library);
    assert!(!state.accepts(&key(KeyCode::PageDown)));
    state.set_page_size(2);
    assert!(state.accepts(&key(KeyCode::PageDown)));
    let (state, _) = state.handle_event(&library, key(KeyCode::PageDown), 0);
    if let AppStateMode::View(v) = &state {
        assert_eq!(2, v.highlighted_snippet_index.unwrap().value());
    } else {
        panic!("should stay in view mode");
    }
}
