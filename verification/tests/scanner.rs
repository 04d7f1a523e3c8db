use transprompt::scan::get_placeholders;
use transprompt::scan::replace_all_placeholders;

#[test]
fn test_get_keys() {
    let string = "{[a]}";
    let keys = get_placeholders(string);
    assert_eq!(vec!["a".to_string()], keys);

    let string = "{[a\n]}";
    let keys = get_placeholders(string);
    assert_eq!(0, keys.len());

    let string = "{[a]}    {[b]}";
    let keys = get_placeholders(string);
    assert_eq!(vec!["a".to_string(), "b".to_string()], keys);
}

#[test]
fn test_replace() {
    let string = "{[a]} and {[b]} and {[a]}";
    let keys = get_placeholders(string);
    assert_eq!(vec!["a".to_string(), "b".to_string()], keys);
    let mapping = vec![
        ("a".to_string(), "alice".to_string()),
        ("b".to_string(), "bob".to_string()),
    ];

    assert_eq!("alice and bob and alice", replace_all_placeholders(string, &mapping).as_str());
}

#[test]
fn duplicate_names_are_reported_once() {
    let keys = get_placeholders("{[a]} {[b]} {[a]} {[b]} {[a]}");
    assert_eq!(vec!["a".to_string(), "b".to_string()], keys);
}

#[test]
fn names_keep_first_occurrence_order() {
    let keys = get_placeholders("{[z]} {[m]} {[a]}");
    assert_eq!(vec!["z".to_string(), "m".to_string(), "a".to_string()], keys);
}

#[test]
fn shortest_close_wins() {
    // The interior may hold a lone `]`; the occurrence ends at the first
    // `]}` pair.
    let keys = get_placeholders("{[a]b]}");
    assert_eq!(vec!["a]b".to_string()], keys);
}

#[test]
fn unterminated_open_is_literal() {
    let keys = get_placeholders("hello {[a world");
    assert_eq!(0, keys.len());
}

#[test]
fn crlf_interior_is_not_a_placeholder() {
    let keys = get_placeholders("{[a\r\nb]}");
    assert_eq!(0, keys.len());
}

#[test]
fn empty_text_has_no_placeholders() {
    let keys = get_placeholders("");
    assert_eq!(0, keys.len());
}

#[test]
fn replacement_keeps_prose_verbatim() {
    let mapping = vec![("name".to_string(), "Ada".to_string())];
    let out = replace_all_placeholders("Hi {[name]}! Bye {[name]}.", &mapping);
    assert_eq!("Hi Ada! Bye Ada.", out.as_str());
}

#[test]
fn replacement_without_placeholders_is_identity() {
    let mapping: Vec<(String, String)> = Vec::new();
    let out = replace_all_placeholders("plain text", &mapping);
    assert_eq!("plain text", out.as_str());
}
