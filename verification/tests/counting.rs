use transprompt::prompt::PromptTemplate;
use transprompt::token::count_tokens_by_len;
use transprompt::token::CountToken;
use transprompt::token::LenCounter;

#[test]
fn string_test_str_len_impl() {
    let counter = LenCounter;
    let size = counter.count_token("");
    assert_eq!(0, size);
}

#[test]
fn token_test_str_len_impl() {
    let counter = LenCounter;
    let size = counter.count_token("");
    assert_eq!(0, size);
}

#[test]
fn len_counter_counts_characters() {
    assert_eq!(5, count_tokens_by_len("alice"));
    assert_eq!(0, count_tokens_by_len(""));
}

#[test]
fn fresh_prompt_counts_the_raw_template() {
    let template = PromptTemplate::new("{[a]} and {[b]} and {[a]}".to_string());
    let prompt = template.construct_prompt();
    let counter = LenCounter;
    assert_eq!(25, prompt.current_token_num(&counter));
}

#[test]
fn attempt_fill_and_count_prices_one_fill() {
    let template = PromptTemplate::new("{[a]} and {[b]} and {[a]}".to_string());
    let prompt = template.construct_prompt();
    let counter = LenCounter;
    let cache = prompt.with_counter_cache(&counter);
    assert_eq!(25, cache.template_token_count);
    // "alice" costs the same as the literal "{[a]}", twice over.
    assert_eq!(25, cache.attempt_fill_and_count("a", "alice").unwrap());
    // "al" is three cheaper than "{[a]}", at two occurrences.
    assert_eq!(19, cache.attempt_fill_and_count("a", "al").unwrap());
    // The prompt itself is untouched by the speculation.
    assert_eq!(2, prompt.unfilled().len());
}

#[test]
fn attempt_fill_and_count_rejects_unknown_names() {
    let template = PromptTemplate::new("{[a]}".to_string());
    let prompt = template.construct_prompt();
    let counter = LenCounter;
    let cache = prompt.with_counter_cache(&counter);
    let err = cache.attempt_fill_and_count("nonexistent", "v").unwrap_err();
    assert_eq!("nonexistent", err.try_fill_placeholder);
    assert_eq!("v", err.value);
    assert_eq!(vec!["a".to_string()], err.available_placeholders);
}

#[test]
fn attempt_fill_multiple_agrees_with_the_rendered_text() {
    // The length counter is additive, so the cache's additive model is
    // exact: pricing all fills equals the length of the completed text.
    let template = PromptTemplate::new("{[a]} and {[b]} and {[a]}".to_string());
    let mut prompt = template.construct_prompt();
    let counter = LenCounter;
    let mapping = vec![
        ("a".to_string(), "alice".to_string()),
        ("b".to_string(), "bob".to_string()),
    ];
    let predicted = {
        let cache = prompt.with_counter_cache(&counter);
        cache.attempt_fill_multiple_and_count(&mapping).unwrap()
    };
    prompt.fill("a", "alice");
    prompt.fill("b", "bob");
    let rendered = prompt.complete().unwrap();
    assert_eq!(predicted, counter.count_token(rendered.as_str()));
    assert_eq!(23, predicted);
}

#[test]
fn attempt_fill_multiple_rejects_the_first_unknown_name() {
    let template = PromptTemplate::new("{[a]} {[b]}".to_string());
    let prompt = template.construct_prompt();
    let counter = LenCounter;
    let cache = prompt.with_counter_cache(&counter);
    let mapping = vec![
        ("a".to_string(), "x".to_string()),
        ("zz".to_string(), "y".to_string()),
    ];
    let err = cache.attempt_fill_multiple_and_count(&mapping).unwrap_err();
    assert_eq!("zz", err.try_fill_placeholder);
    assert_eq!("y", err.value);
}

#[test]
fn counting_respects_recorded_fills() {
    let template = PromptTemplate::new("{[a]} and {[b]}".to_string());
    let mut prompt = template.construct_prompt();
    prompt.fill("a", "alexandra");
    let counter = LenCounter;
    // "{[a]} and {[b]}" is 15 characters; "alexandra" replaces "{[a]}"
    // at +4, "{[b]}" stays literal.
    assert_eq!(19, prompt.current_token_num(&counter));
    let cache = prompt.with_counter_cache(&counter);
    // Overriding the recorded fill is hypothetical only.
    assert_eq!(11, cache.attempt_fill_and_count("a", "x").unwrap());
    assert_eq!(19, prompt.current_token_num(&counter));
}
