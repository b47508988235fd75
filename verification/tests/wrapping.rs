use snippets::document::span::Span;
use snippets::document::style::Style;
use snippets::document::word::Word;
use snippets::ui::widgets::document_view::break_into_lines;

fn words(texts: &[&str]) -> Vec<Word> {
    texts.iter().map(|t| Word(vec![Span { text: t.to_string(), style: Style::default() }])).collect()
}

fn texts(lines: &Vec<Vec<&Word>>) -> Vec<Vec<String>> {
    lines.iter().map(|l| l.iter().map(|w| w.0[0].text.clone()).collect()).collect()
}

#[test]
fn words_fill_lines_greedily() {
    let ws = words(&["aa", "bb", "cc", "dd"]);
    let lines = break_into_lines(&ws, 5);
    assert_eq!(vec![vec!["aa", "bb"], vec!["cc", "dd"]], texts(&lines));
}

#[test]
fn a_word_that_just_fits_stays_on_the_line() {
    let ws = words(&["ab", "cd", "e"]);
    let lines = break_into_lines(&ws, 7);
    assert_eq!(vec![vec!["ab", "cd", "e"]], texts(&lines));
}

#[test]
fn a_long_word_gets_a_line_of_its_own() {
    let ws = words(&["a", "abcdefgh", "b"]);
    let lines = break_into_lines(&ws, 4);
    assert_eq!(vec![vec!["a"], vec!["abcdefgh"], vec!["b"]], texts(&lines));
}

#[test]
fn no_words_give_one_empty_line() {
    let ws = words(&[]);
    let lines = break_into_lines(&ws, 10);
    assert_eq!(1, lines.len());
    assert!(lines[0].is_empty());
}

#[test]
fn lines_run_together_are_the_words() {
    let ws = words(&["one", "two", "three", "four", "five", "six"]);
    let lines = break_into_lines(&ws, 9);
    let flat: Vec<String> = texts(&lines).into_iter().flatten().collect();
    assert_eq!(vec!["one", "two", "three", "four", "five", "six"], flat);
    for line in texts(&lines) {
        let length: usize = line.iter().map(|w| w.len()).sum::<usize>() + line.len() - 1;
        assert!(line.len() == 1 || length <= 9);
    }
}
