use fulltext::analyzer::Analyzer;

fn terms(text: &str) -> Vec<String> {
    Analyzer::new_english().analyze(text)
}

#[test]
fn lowercases_and_drops_stopwords() {
    assert_eq!(terms("The quick brown fox"), vec!["quick", "brown", "fox"]);
}

#[test]
fn stems_english_words() {
    assert_eq!(terms("running runs runner"), vec!["run", "run", "runner"]);
    assert_eq!(terms("Cats"), vec!["cat"]);
}

#[test]
fn only_stopwords_give_nothing() {
    assert_eq!(terms("the a of"), Vec::<String>::new());
    assert_eq!(terms("A AND BE HAVE I IN OF THAT THE TO"), Vec::<String>::new());
}

#[test]
fn splits_at_everything_that_is_not_alphanumeric() {
    assert_eq!(terms("fox,dog;bird--fish"), vec!["fox", "dog", "bird", "fish"]);
    assert_eq!(terms("  fox\t\ndog  "), vec!["fox", "dog"]);
    assert_eq!(terms("abc123 4x"), vec!["abc123", "4x"]);
    assert_eq!(terms(""), Vec::<String>::new());
    assert_eq!(terms("!!!"), Vec::<String>::new());
}

#[test]
fn keeps_letters_of_other_scripts() {
    assert_eq!(terms("Ärger naïve"), vec!["ärger", "naïv"]);
}

#[test]
fn keeps_the_order_and_repeats() {
    assert_eq!(terms("fox dog fox"), vec!["fox", "dog", "fox"]);
}

#[test]
fn analyzing_its_own_terms_changes_nothing() {
    let first = terms("The quick brown foxes were jumping over lazy dogs");
    let again = terms(&first.join(" "));
    assert_eq!(again, first);
}

#[test]
fn a_stem_that_is_a_stopword_is_lost_the_second_time() {
    let first = terms("having");
    assert_eq!(first, vec!["have"]);
    assert_eq!(terms(&first.join(" ")), Vec::<String>::new());
}
