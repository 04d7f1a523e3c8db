use transprompt::errors::MergeError;
use transprompt::prompt::PartialPrompt;
use transprompt::prompt::PromptTemplate;

type Resolver = fn(&String, (&String, &String)) -> String;

#[test]
fn merging_nothing_is_an_error() {
    let r = PartialPrompt::merge_partial_prompts::<Resolver>(Vec::new(), None);
    assert!(matches!(r, Err(MergeError::NoPartialPrompts)));
}

#[test]
fn merging_one_prompt_returns_it_unchanged() {
    let template = PromptTemplate::new("{[a]}".to_string());
    let mut prompt = template.construct_prompt();
    prompt.fill("a", "alice");
    let merged =
        PartialPrompt::merge_partial_prompts::<Resolver>(vec![prompt], None).unwrap();
    assert_eq!("alice", merged.complete().unwrap().as_str());
}

#[test]
fn disjoint_fills_merge_to_their_union() {
    let template = PromptTemplate::new("{[a]} and {[b]}".to_string());
    let mut p1 = template.construct_prompt();
    p1.fill("a", "alice");
    let mut p2 = template.construct_prompt();
    p2.fill("b", "bob");
    let merged =
        PartialPrompt::merge_partial_prompts::<Resolver>(vec![p1, p2], None).unwrap();
    assert_eq!(0, merged.unfilled().len());
    assert_eq!("alice and bob", merged.complete().unwrap().as_str());
}

#[test]
fn agreeing_fills_merge_silently() {
    let template = PromptTemplate::new("{[a]} and {[b]}".to_string());
    let mut p1 = template.construct_prompt();
    p1.fill("a", "alice");
    let mut p2 = template.construct_prompt();
    p2.fill("a", "alice");
    p2.fill("b", "bob");
    let merged =
        PartialPrompt::merge_partial_prompts::<Resolver>(vec![p1, p2], None).unwrap();
    assert_eq!("alice and bob", merged.complete().unwrap().as_str());
}

#[test]
fn merged_prompt_keeps_unfilled_placeholders_open() {
    let template = PromptTemplate::new("{[a]} and {[b]}".to_string());
    let mut p1 = template.construct_prompt();
    p1.fill("a", "alice");
    let p2 = template.construct_prompt();
    let mut merged =
        PartialPrompt::merge_partial_prompts::<Resolver>(vec![p1, p2], None).unwrap();
    assert_eq!(vec!["b".to_string()], merged.unfilled().clone());
    merged.fill("b", "bob");
    assert_eq!("alice and bob", merged.complete().unwrap().as_str());
}

#[test]
fn conflicting_fills_without_resolver_name_the_placeholder() {
    let template = PromptTemplate::new("{[a]} and {[b]}".to_string());
    let mut p1 = template.construct_prompt();
    p1.fill("a", "alice");
    let mut p2 = template.construct_prompt();
    p2.fill("a", "alexa");
    let r = PartialPrompt::merge_partial_prompts::<Resolver>(vec![p1, p2], None);
    match r {
        Err(MergeError::Conflict(c)) => {
            assert_eq!("a", c.placeholder);
            assert_eq!("alice", c.value_a);
            assert_eq!("alexa", c.value_b);
        },
        _ => panic!("expected a merge conflict"),
    }
}

#[test]
fn conflicting_fills_with_resolver_use_its_output() {
    let template = PromptTemplate::new("{[a]}".to_string());
    let mut p1 = template.construct_prompt();
    p1.fill("a", "alice");
    let mut p2 = template.construct_prompt();
    p2.fill("a", "alexa");
    // The resolver is called with the newly seen value and the
    // accumulated value, and its result becomes the accumulator.
    let resolver: Resolver = |_name, (new_value, _existing)| new_value.clone();
    let merged =
        PartialPrompt::merge_partial_prompts(vec![p1, p2], Some(resolver)).unwrap();
    assert_eq!("alexa", merged.complete().unwrap().as_str());
}

#[test]
fn resolver_folds_left_over_three_distinct_values() {
    let template = PromptTemplate::new("{[a]}".to_string());
    let mut p1 = template.construct_prompt();
    p1.fill("a", "x");
    let mut p2 = template.construct_prompt();
    p2.fill("a", "y");
    let mut p3 = template.construct_prompt();
    p3.fill("a", "z");
    // Values are folded in input order with the first one as the
    // accumulator; each disagreement is resolved pairwise and the result
    // becomes the new accumulator.
    let resolver: Resolver =
        |_name, (new_value, existing)| format!("{}{}", new_value, existing);
    let merged =
        PartialPrompt::merge_partial_prompts(vec![p1, p2, p3], Some(resolver)).unwrap();
    assert_eq!("zyx", merged.complete().unwrap().as_str());
}

#[test]
fn prompts_from_different_template_instances_do_not_merge() {
    // Structurally identical templates constructed separately are
    // different origins.
    let t1 = PromptTemplate::new("{[a]}".to_string());
    let t2 = PromptTemplate::new("{[a]}".to_string());
    let p1 = t1.construct_prompt();
    let p2 = t2.construct_prompt();
    let r = PartialPrompt::merge_partial_prompts::<Resolver>(vec![p1, p2], None);
    match r {
        Err(MergeError::DifferentOrigins(d)) => {
            assert_eq!(2, d.partial_prompts.len());
        },
        _ => panic!("expected a different-origins error"),
    }
}
