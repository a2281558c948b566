use cosmic_pim_mail::search::parse;

#[test]
fn bare_words_become_terms() {
    let query = parse("Ada invoice");
    assert_eq!(query.terms, ["ada", "invoice"]);
    assert!(query.from.is_empty());
}

#[test]
fn prefixes_are_recognised_and_folded() {
    let query = parse("From:Ada SUBJECT:Invoice");
    assert_eq!(query.from, ["ada"]);
    assert_eq!(query.subject, ["invoice"]);
    assert!(query.terms.is_empty());
}

#[test]
fn flag_filters_are_recognised_under_their_common_spellings() {
    assert!(parse("is:unread").unread);
    assert!(parse("is:new").unread);
    assert!(parse("is:starred").starred);
    assert_eq!(parse("label:Travel").labels, vec!["travel"]);
    assert_eq!(parse("tag:work keyword:home").labels, vec!["work", "home"]);
    assert!(parse("is:flagged").starred);
    assert!(parse("has:attachment").has_attachment);
    assert!(parse("has:file").has_attachment);
}

#[test]
fn a_quoted_phrase_stays_one_term() {
    let query = parse("\"release plan\"");
    assert_eq!(query.terms, ["release plan"]);
    let query = parse("subject:\"release plan\"");
    assert_eq!(query.subject, ["release plan"]);
}


#[test]
fn a_prefix_being_typed_matches_nothing_rather_than_everything() {
    // Every keystroke in a search box is a query. `from:` mid-word must not
    // suddenly match the whole mailbox.
    let query = parse("from:");
    assert!(query.is_empty(), "{query:?}");
}

#[test]
fn an_empty_query_is_recognised_as_empty() {
    assert!(parse("").is_empty());
    assert!(parse("   ").is_empty());
    assert!(parse("\"\"").is_empty());
    assert!(!parse("a").is_empty());
    assert!(!parse("is:unread").is_empty());
}

#[test]
fn a_flag_only_query_has_no_text_to_match() {
    let query = parse("is:unread has:attachment");
    assert!(!query.is_empty());
    assert!(!query.has_text());
    assert!(parse("is:unread ada").has_text());
}

#[test]
fn everything_combines() {
    let query = parse("from:ada subject:invoice is:unread has:attachment overdue");
    assert_eq!(query.from, ["ada"]);
    assert_eq!(query.subject, ["invoice"]);
    assert_eq!(query.terms, ["overdue"]);
    assert!(query.unread);
    assert!(query.has_attachment);
}

#[test]
fn a_prefix_nobody_knows_is_searched_for_as_it_was_typed() {
    let query = parse("re:2024 http://x");
    assert_eq!(query.terms, ["re:2024", "http://x"]);
}
