use std::collections::BTreeMap;

use cosmic_pim_mail::backoff::delay_ms;
use cosmic_pim_mail::chars::{
    contains_text, lines_of, lower_of, replace_of, split_of, to_chars, to_text, trim_of, words_of,
    Class,
};
use cosmic_pim_mail::engine::left_behind_of;
use cosmic_pim_mail::http::{is_success, refusal_text};
use cosmic_pim_mail::ids::{IdMap, RemoteIds};
use cosmic_pim_mail::json::{render, Json};
use cosmic_pim_mail::model::Flags;
use cosmic_pim_mail::numbers::{
    decimal, decimal2, decimal_signed, hexadecimal, parse_signed, parse_unsigned,
};
use cosmic_pim_mail::order::{ascend, insert_text, texts_before};
use cosmic_pim_mail::store::{
    remove_all, set_all_flags, upsert_all, Cursor, MailStore, MemoryStore, RemoteMessage,
};
use cosmic_pim_mail::text::{extract, extract_plain, references_remote_content};
use cosmic_pim_mail::threading::{normalize_subject, reference_chain};
use cosmic_pim_mail::times::dashed_date;

fn text(v: &[char]) -> String {
    to_text(v)
}

fn texts(v: &[Vec<char>]) -> Vec<String> {
    v.iter().map(|piece| to_text(piece)).collect()
}

#[test]
fn numbers_are_written_and_read_in_decimal() {
    assert_eq!(text(&decimal(0)), "0");
    assert_eq!(text(&decimal(u64::MAX)), "18446744073709551615");
    assert_eq!(text(&decimal_signed(i64::MIN)), "-9223372036854775808");
    assert_eq!(text(&decimal2(7)), "07");
    assert_eq!(text(&decimal2(123)), "123");
    assert_eq!(text(&hexadecimal(0x2f, 4, true)), "002F");
    assert_eq!(parse_unsigned(&to_chars("0042"), 100), Some(42));
    assert_eq!(parse_unsigned(&to_chars("101"), 100), None);
    assert_eq!(parse_unsigned(&to_chars(""), 100), None);
    assert_eq!(parse_unsigned(&to_chars("4x"), 100), None);
    assert_eq!(parse_signed(&to_chars("-12")), Some(-12));
    assert_eq!(parse_signed(&to_chars("9223372036854775808")), None);
}

#[test]
fn text_is_cut_trimmed_and_folded() {
    assert_eq!(text(trim_of(&to_chars(" \u{a0}a b\t"))), "a b");
    assert_eq!(text(&lower_of(&to_chars("AbC\u{c9}"))), "abc\u{c9}");
    assert_eq!(texts(&split_of(&to_chars("a,,b"), Class::Is(','))), ["a", "", "b"]);
    assert_eq!(texts(&lines_of(&to_chars("a\r\nb\n\nc"))), ["a", "b", "", "c"]);
    assert_eq!(texts(&lines_of(&to_chars("a\n"))), ["a"]);
    assert_eq!(texts(&words_of(&to_chars("  a\tb  "))), ["a", "b"]);
    assert_eq!(text(&replace_of(&to_chars("x{n}y{n}"), "{n}", &to_chars("12"))), "x12y12");
    assert!(contains_text(&to_chars("haystack"), "stack"));
    assert!(!contains_text(&to_chars("haystack"), "needle"));
}

#[test]
fn json_is_read_by_key_and_written_without_spaces() {
    let value = Json::Object(vec![
        ("a".to_owned(), Json::Unsigned(1)),
        ("b".to_owned(), Json::Array(vec![Json::Str("x\"\n".to_owned()), Json::Null])),
        ("c".to_owned(), Json::Bool(true)),
        ("d".to_owned(), Json::Negative(-3)),
        ("e".to_owned(), Json::Fraction("1.5".to_owned())),
    ]);
    assert_eq!(render(&value), r#"{"a":1,"b":["x\"\n",null],"c":true,"d":-3,"e":1.5}"#);
    assert_eq!(value.number_at("a"), Some(1));
    assert_eq!(value.bool_at("c"), Some(true));
    assert_eq!(value.text_at("a"), None);
    assert_eq!(value.strings_at("b"), ["x\"\n"]);
    assert_eq!(value.text_or_empty("z"), "");
    assert_eq!(value.array_at("b").map(Vec::len), Some(2));
    assert!(value.get("z").is_none());
    assert!(value.object_at("a").is_none());
    assert!(value.at(0).is_none());
}

#[test]
fn rendered_json_is_json() {
    let odd = "\u{1}\u{8}\u{c}\t\r\\/\u{e9}\u{1f600}";
    let rendered = render(&Json::Array(vec![Json::Str(odd.to_owned())]));
    let read: serde_json::Value = serde_json::from_str(&rendered).unwrap();
    assert_eq!(read[0].as_str(), Some(odd));
}

#[test]
fn an_id_keeps_its_number_until_it_is_forgotten() {
    let mut ids = IdMap::starting_at(1);
    let a = ids.uid_for("a");
    let b = ids.uid_for("b");
    assert_ne!(a, b);
    assert_eq!(ids.uid_for("a"), a);
    assert_eq!(ids.id_of(b), Some("b"));
    assert_eq!(ids.highest(), b);
    ids.forget("a");
    assert_eq!(ids.uid_of("a"), None);
    assert!(ids.uid_for("c") > b, "a number was handed out twice");
}

#[test]
fn a_cursor_is_kept_and_dropped() {
    let mut state = RemoteIds::default();
    assert_eq!(state.cursor(), None);
    state.set_cursor("c1".to_owned());
    assert_eq!(state.cursor(), Some("c1"));
    state.reset_cursor();
    assert_eq!(state.cursor(), None);
    assert!(state.id_for("graph", 9).is_err());
    let uid = state.uid_for("m1");
    assert_eq!(state.id_for("graph", uid).unwrap(), "m1");
    assert_eq!(state.highest_uid(), uid);
}

#[test]
fn lists_are_put_in_order_and_keep_what_they_hold() {
    assert_eq!(ascend(vec![3, 1, 2, 1]), vec![1, 2, 3]);
    assert!(texts_before("a", "b"));
    assert!(texts_before("a", "aa"));
    assert!(!texts_before("b", "a"));
    let mut names = vec!["a".to_owned(), "c".to_owned()];
    insert_text(&mut names, "b");
    insert_text(&mut names, "b");
    assert_eq!(names, ["a", "b", "c"]);
}

#[test]
fn what_a_listing_leaves_behind_is_what_it_does_not_name() {
    let known: BTreeMap<u32, Flags> =
        [1, 4, 9].into_iter().map(|uid| (uid, Flags::default())).collect();
    assert_eq!(left_behind_of(&known, &vec![4]), vec![1, 9]);
}

#[test]
fn a_refusal_names_the_status_and_the_start_of_the_body() {
    assert!(is_success(204));
    assert!(!is_success(304));
    let said = refusal_text("graph", 500, "delta", &"x".repeat(1000));
    assert!(said.contains("500") && said.contains("delta"), "{said}");
    assert!(said.chars().count() < 400, "the whole body was quoted");
}

#[test]
fn a_delay_doubles_until_its_ceiling() {
    assert_eq!(delay_ms(1_000, 60_000, 0), 1_000);
    assert_eq!(delay_ms(1_000, 60_000, 2), 4_000);
    assert_eq!(delay_ms(1_000, 60_000, 40), 60_000);
}

#[test]
fn a_store_in_memory_holds_what_it_was_given() {
    let message = |uid: u32| RemoteMessage {
        uid,
        flags: Flags::default(),
        raw: vec![uid as u8],
        internal_date_ms: 10 * i64::from(uid),
    };
    let mut store = MemoryStore::default();
    upsert_all(&mut store, &[message(1), message(2)]).unwrap();
    let seen = Flags { seen: true, ..Flags::default() };
    set_all_flags(&mut store, &[(2, seen), (9, seen)]).unwrap();
    let state = store.state().unwrap();
    assert_eq!(state.entries.len(), 2, "flags made a message");
    assert_eq!(state.entries[&2], seen);
    remove_all(&mut store, &[1, 1]).unwrap();
    assert_eq!(store.raw(1).unwrap(), None);
    assert_eq!(store.raw(2).unwrap(), Some(vec![2]));
    assert_eq!(store.arrived_ms(1), None);
    assert_eq!(store.arrived_ms(2), Some(20));
    let cursor = Cursor { uid_validity: 3, last_uid: 2, highest_modseq: 1, accepts_keywords: true };
    store.commit_cursor(cursor).unwrap();
    assert_eq!(store.state().unwrap().cursor, cursor);
    store.reset(4).unwrap();
    let state = store.state().unwrap();
    assert!(state.entries.is_empty());
    assert_eq!(store.arrived_ms(2), None);
    assert_eq!(state.cursor, Cursor { uid_validity: 4, ..Cursor::default() });
}

#[test]
fn a_subject_is_stripped_of_its_markers_once_and_for_all() {
    for subject in ["Re: [list] Fwd: Plan", "RE: re: Plan", "Plan"] {
        let once = normalize_subject(subject);
        assert_eq!(normalize_subject(&once), once, "{subject}");
    }
    assert_eq!(normalize_subject("Re: Plan"), "Plan");
    assert_eq!(normalize_subject("Fwd: Re: Plan"), "Plan");
}

#[test]
fn ancestors_are_listed_once() {
    let chain = reference_chain("<a@x> <b@x>", "<b@x>");
    assert_eq!(chain.len(), 2);
    assert!(chain.contains(&"a@x".to_owned()) && chain.contains(&"b@x".to_owned()));
    assert!(reference_chain("", "").is_empty());
}

#[test]
fn html_is_shown_as_the_text_in_it() {
    let shown = extract("<p>Hello <b>there</b></p>").text;
    assert!(shown.contains("Hello there"), "{shown}");
    assert!(!shown.contains('<'), "{shown}");
    assert_eq!(extract_plain("a < b").text, "a < b");
}

#[test]
fn only_what_names_another_host_is_remote() {
    assert!(references_remote_content("<img src=\"https://t.example/p.gif\">"));
    assert!(!references_remote_content("<img src=\"cid:logo\">"));
}

#[test]
fn a_date_is_written_with_the_name_of_its_month() {
    assert_eq!(dashed_date(2025, 1, 3), "03-Feb-2025");
    assert_eq!(dashed_date(1970, 11, 31), "31-Dec-1970");
}
