use snippets::ui::search_parameters::SearchParameters;
use snippets::ui::widgets::keybindings_view::Binding;
use snippets::snippets::snippets::Tag;
use snippets::ui::widgets::metadata_view::{categories_of, Category};
use snippets::ui::widgets::snippet_view::{numbered_label, page_title, SelectedPage, State};
use snippets::ui::widgets::clipboard_overlay::code_block_caption;
use snippets::document::fragment::Code;

#[test]
fn new_search_parameters_ask_for_nothing() {
    let parameters = SearchParameters::new();
    assert!(parameters.keywords.is_empty());
    assert!(parameters.tags.is_empty());
}

#[test]
fn bindings_keep_key_and_description() {
    let binding = Binding::new("q", "quit");
    assert_eq!("q", binding.key());
    assert_eq!("quit", binding.description());
}

#[test]
fn categories_hold_entries() {
    let category = Category { caption: "Tags".to_string(), entries: vec!["rust".to_string()] };
    assert_eq!("Tags", category.caption);
    assert_eq!(1, category.entries.len());
}

#[test]
fn measuring_gives_the_result() {
    let (value, _duration) = snippets::timing::measure(|| 6 * 7);
    assert_eq!(42, value);
}

#[test]
fn tags_are_grouped_by_category_in_order() {
    let tag = |c: &str, n: &str| Tag { category: c.to_string(), name: n.to_string() };
    let tags = vec![tag("lang", "rust"), tag("area", "io"), tag("lang", "c"), tag("Zed", "z")];

    let categories = categories_of(&tags);

    let captions: Vec<&str> = categories.iter().map(|c| c.caption.as_str()).collect();
    assert_eq!(vec!["Zed", "area", "lang"], captions);
    assert_eq!(vec!["z".to_string()], categories[0].entries);
    assert_eq!(vec!["io".to_string()], categories[1].entries);
    assert_eq!(vec!["c".to_string(), "rust".to_string()], categories[2].entries);
    assert!(categories_of(&Vec::new()).is_empty());
}

#[test]
fn page_titles_count_from_one() {
    assert_eq!(" 2/3 Usage ", page_title(1, 3, &Some("Usage".to_string())));
    assert_eq!(" 1/12 ", page_title(0, 12, &None));
}

#[test]
fn numbered_labels_count_from_one() {
    assert_eq!("[1] Reading a file", numbered_label(0, "Reading a file"));
    assert_eq!("[10] x", numbered_label(9, "x"));
}

#[test]
fn code_block_captions_fall_back_on_stand_ins() {
    let described = Code {
        language: Some("rust".to_string()),
        original: String::new(),
        highlighted_lines: Vec::new(),
        metadata: Some("Opening a file".to_string()),
    };
    let bare = Code { language: None, original: String::new(), highlighted_lines: Vec::new(), metadata: None };

    assert_eq!("Opening a file (rust)", code_block_caption(&described));
    assert_eq!("Code snippet (unknown language)", code_block_caption(&bare));
}

#[test]
fn the_snippet_view_switches_between_pages_and_overview() {
    let mut state = State::new();
    assert_eq!(SelectedPage::Overview, state.selected_page);
    state.select_page(2);
    assert_eq!(SelectedPage::Page(2), state.selected_page);
    state.select_overview();
    assert_eq!(SelectedPage::Overview, state.selected_page);
}
