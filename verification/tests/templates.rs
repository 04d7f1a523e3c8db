use transprompt::prompt::PromptTemplate;

#[test]
fn str_returns_the_raw_text() {
    let template = PromptTemplate::new("{[a]} and {[b]}".to_string());
    assert_eq!("{[a]} and {[b]}", template.str());
}

#[test]
fn placeholders_lists_distinct_names_in_order() {
    let template = PromptTemplate::new("{[b]} {[a]} {[b]}".to_string());
    assert_eq!(vec!["b".to_string(), "a".to_string()], template.placeholders().clone());
}

#[test]
fn new_attaches_empty_metadata() {
    let template = PromptTemplate::new("{[a]}".to_string());
    assert!(template.meta_data().is_empty());
}

#[test]
fn with_metadata_carries_the_document_unchanged() {
    let mut meta = serde_json::Map::new();
    meta.insert(
        "purpose".to_string(),
        serde_json::Value::String("greeting".to_string()),
    );
    let template = PromptTemplate::with_metadata("hello {[name]}".to_string(), meta);
    assert_eq!(
        Some(&serde_json::Value::String("greeting".to_string())),
        template.meta_data().get("purpose"),
    );
    assert_eq!(1, template.meta_data().len());
}

#[test]
fn prompts_share_the_template_content() {
    let template = PromptTemplate::new("{[a]}".to_string());
    let prompt = template.construct_prompt();
    assert_eq!("{[a]}", prompt.template().str());
    assert_eq!(vec!["a".to_string()], prompt.template().placeholders().clone());
}

#[test]
fn cloned_templates_keep_their_content() {
    let template = PromptTemplate::new("{[a]} x".to_string());
    let copy = template.clone();
    assert_eq!(template.str(), copy.str());
    assert_eq!(template.placeholders(), copy.placeholders());
}
