use semantic_memory::chunking::{split_to_sentences, text_to_vec};

fn strings(items: Vec<&str>) -> Vec<String> {
    items.into_iter().map(|s| s.to_string()).collect()
}

#[test]
fn splits_at_confirmed_sentence_boundary() {
    let chunks = split_to_sentences("I like cats. I also like dogs.", &Vec::new());
    assert_eq!(chunks, strings(vec!["I like cats.", "I also like dogs."]));
}

#[test]
fn lowercase_follower_does_not_confirm_a_boundary() {
    let chunks = split_to_sentences("It was fine. really it was.", &Vec::new());
    assert_eq!(chunks, strings(vec!["It was fine. really it was."]));
}

#[test]
fn abbreviation_does_not_end_a_sentence() {
    let abbrevs = strings(vec!["Dr."]);
    let chunks = split_to_sentences("I met Dr. Smith today. He was kind.", &abbrevs);
    assert_eq!(
        chunks,
        strings(vec!["I met Dr. Smith today.", "He was kind."])
    );
}

#[test]
fn trailing_partial_text_becomes_the_final_chunk() {
    let chunks = split_to_sentences("One done. Two is still going", &Vec::new());
    assert_eq!(chunks, strings(vec!["One done.", "Two is still going"]));
}

#[test]
fn empty_input_yields_no_chunks() {
    let chunks = split_to_sentences("", &Vec::new());
    assert_eq!(chunks, Vec::<String>::new());
}

#[test]
fn whitespace_only_input_yields_no_chunks() {
    let chunks = split_to_sentences(" \t\n ", &Vec::new());
    assert_eq!(chunks, Vec::<String>::new());
}

#[test]
fn words_split_on_any_whitespace_and_rejoin_with_single_spaces() {
    // tabs, newlines and repeated blanks all separate words
    let chunks = split_to_sentences("a\tb\nc.  Done.", &Vec::new());
    assert_eq!(chunks, strings(vec!["a b c.", "Done."]));
}

#[test]
fn question_and_exclamation_marks_end_sentences() {
    let chunks = split_to_sentences("Is it so? Yes! Good.", &Vec::new());
    assert_eq!(chunks, strings(vec!["Is it so?", "Yes!", "Good."]));
}

#[test]
fn chunks_are_nonempty_without_trailing_whitespace() {
    let chunks = split_to_sentences("  Tip top.  Next bit!  tail  ", &Vec::new());
    assert_eq!(
        chunks,
        strings(vec!["Tip top.", "Next bit! tail"])
    );
    for c in &chunks {
        assert!(!c.is_empty());
        assert!(!c.ends_with(char::is_whitespace));
    }
}

#[test]
fn text_to_vec_matches_split_to_sentences() {
    let a = text_to_vec("One here. Two there.", &Vec::new());
    let b = split_to_sentences("One here. Two there.", &Vec::new());
    assert_eq!(a, b);
    assert_eq!(a.len(), 2);
}
