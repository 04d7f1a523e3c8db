use transprompt::prompt::PromptTemplate;

#[test]
fn fill_all_then_complete_substitutes_every_occurrence() {
    let template = PromptTemplate::new("{[a]} and {[b]} and {[a]}".to_string());
    let mut prompt = template.construct_prompt();
    prompt.fill("a", "alice");
    prompt.fill("b", "bob");
    assert_eq!("alice and bob and alice", prompt.complete().unwrap().as_str());
}

#[test]
fn template_without_placeholders_completes_immediately() {
    let template = PromptTemplate::new("hello world".to_string());
    let prompt = template.construct_prompt();
    assert_eq!("hello world", prompt.complete().unwrap().as_str());
}

#[test]
fn try_fill_rejects_unknown_names_and_changes_nothing() {
    let template = PromptTemplate::new("{[a]} and {[b]}".to_string());
    let mut prompt = template.construct_prompt();
    prompt.fill("a", "alice");

    let err = prompt.try_fill("nonexistent", "v").unwrap_err();
    assert_eq!("nonexistent", err.try_fill_placeholder);
    assert_eq!("v", err.value);
    assert_eq!(vec!["a".to_string(), "b".to_string()], err.available_placeholders);

    // The failed call left the fill state untouched.
    assert_eq!(vec!["b".to_string()], prompt.unfilled().clone());
    prompt.fill("b", "bob");
    assert_eq!("alice and bob", prompt.complete().unwrap().as_str());
}

#[test]
fn complete_fails_while_placeholders_are_unfilled() {
    let template = PromptTemplate::new("{[a]} and {[b]}".to_string());
    let mut prompt = template.construct_prompt();
    prompt.fill("a", "alice");
    let err = prompt.complete().unwrap_err();
    assert_eq!(vec!["b".to_string()], err.unfilled_placeholders);
    assert_eq!(vec!["a".to_string(), "b".to_string()], err.all_placeholders);
}

#[test]
fn refilling_overwrites_the_value_and_keeps_bookkeeping() {
    let template = PromptTemplate::new("{[a]} and {[b]}".to_string());
    let mut prompt = template.construct_prompt();
    prompt.fill("a", "first");
    let unfilled_before = prompt.unfilled().clone();
    prompt.fill("a", "second");
    assert_eq!(unfilled_before, prompt.unfilled().clone());
    prompt.fill("b", "bob");
    assert_eq!("second and bob", prompt.complete().unwrap().as_str());
}

#[test]
fn try_fill_tracks_the_unfilled_subset() {
    let template = PromptTemplate::new("{[a]} {[b]} {[c]}".to_string());
    let mut prompt = template.construct_prompt();
    assert_eq!(3, prompt.unfilled().len());
    prompt.try_fill("b", "2").unwrap();
    assert_eq!(vec!["a".to_string(), "c".to_string()], prompt.unfilled().clone());
    prompt.try_fill("a", "1").unwrap();
    assert_eq!(vec!["c".to_string()], prompt.unfilled().clone());
    prompt.try_fill("c", "3").unwrap();
    assert_eq!(0, prompt.unfilled().len());
    assert_eq!("1 2 3", prompt.complete().unwrap().as_str());
}

#[test]
fn placeholders_are_shared_across_occurrences() {
    let template = PromptTemplate::new("{[x]}{[x]}{[x]}".to_string());
    assert_eq!(vec!["x".to_string()], template.placeholders().clone());
    let mut prompt = template.construct_prompt();
    prompt.fill("x", "ha");
    assert_eq!("hahaha", prompt.complete().unwrap().as_str());
}

#[test]
fn values_may_contain_prose() {
    let template = PromptTemplate::new("Today is {[date]}.".to_string());
    let mut prompt = template.construct_prompt();
    prompt.try_fill("date", "a rainy Monday").unwrap();
    assert_eq!("Today is a rainy Monday.", prompt.complete().unwrap().as_str());
}
