use shared_ownership::strings::{
    calculate_length, calculate_length_ref, change, first_word, gives_ownership,
    takes_and_gives_back,
};

#[test]
fn gives_ownership_hands_out_yours() {
    assert_eq!(gives_ownership(), String::from("yours"));
}

#[test]
fn takes_and_gives_back_returns_its_argument() {
    let s2 = String::from("hello");
    let s3 = takes_and_gives_back(s2);
    assert_eq!(s3, "hello");
}

#[test]
fn calculate_length_counts_bytes() {
    let (s2, len) = calculate_length(String::from("hello"));
    assert_eq!(s2, "hello");
    assert_eq!(len, 5);
    let (s, len) = calculate_length(String::from("héllo"));
    assert_eq!(s, "héllo");
    assert_eq!(len, 6);
}

#[test]
fn calculate_length_ref_counts_bytes() {
    let s1 = String::from("hello");
    assert_eq!(calculate_length_ref(&s1), 5);
    assert_eq!(calculate_length_ref(&String::new()), 0);
}

#[test]
fn change_appends_world() {
    let mut s = String::from("hello");
    change(&mut s);
    assert_eq!(s, "hello, world");
}

#[test]
fn first_word_stops_at_the_first_space() {
    let s = String::from("hello world");
    assert_eq!(first_word(&s), "hello");
    assert_eq!(first_word(&s[0..6]), "hello");
    assert_eq!(first_word(&s[..]), "hello");
    assert_eq!(first_word("hello world"), "hello");
}

#[test]
fn first_word_without_space_is_the_whole_string() {
    assert_eq!(first_word("hello"), "hello");
    assert_eq!(first_word(""), "");
}

#[test]
fn first_word_of_leading_space_is_empty() {
    assert_eq!(first_word(" hello"), "");
}

#[test]
fn first_word_keeps_multibyte_characters_whole() {
    assert_eq!(first_word("héllo wörld"), "héllo");
    assert_eq!(first_word("日本語 テキスト"), "日本語");
}
