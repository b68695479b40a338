use prompt_template::FormatError;
use prompt_template::Prompt;
use prompt_template::PromptArgs;
use prompt_template::PromptTemplate;
use prompt_template::TemplateFormat;

#[test]
fn should_format_jinja2_template() {
    let template = PromptTemplate::new(
        "Hello {{name}}!".to_string(),
        vec!["name".to_string()],
        TemplateFormat::Jinja2,
    );

    let input_variables = PromptArgs::new();
    let result = template.format(input_variables);
    assert!(result.is_err());

    let mut input_variables = PromptArgs::new();
    input_variables.insert("name".to_string(), "world".to_string());
    let result = template.format(input_variables);
    assert!(result.is_ok());
    assert_eq!(result.unwrap(), "Hello world!");
}

#[test]
fn should_format_fstring_template() {
    let template = PromptTemplate::new(
        "Hello {name}!".to_string(),
        vec!["name".to_string()],
        TemplateFormat::FString,
    );

    let input_variables = PromptArgs::new();
    let result = template.format(input_variables);
    assert!(result.is_err());

    let mut input_variables = PromptArgs::new();
    input_variables.insert("name".to_string(), "world".to_string());
    let result = template.format(input_variables);
    assert!(result.is_ok());
    assert_eq!(result.unwrap(), "Hello world!");
}

#[test]
fn should_prompt_macro_work() {
    let args = PromptArgs::new();
    assert!(args.is_empty());

    let mut args = PromptArgs::new();
    args.insert("name".to_string(), "world".to_string());
    assert_eq!(args.len(), 1);
    assert_eq!(args.get("name").unwrap().as_str(), "world");

    let mut args = PromptArgs::new();
    args.insert("name".to_string(), "world".to_string());
    args.insert("age".to_string(), "18".to_string());
    assert_eq!(args.len(), 2);
    assert_eq!(args.get("name").unwrap().as_str(), "world");
    assert_eq!(args.get("age").unwrap().as_str(), "18");
}

#[test]
fn value_equal_to_another_placeholder_is_not_resubstituted() {
    let template = PromptTemplate::new(
        "{a} and {b}".to_string(),
        vec!["a".to_string(), "b".to_string()],
        TemplateFormat::FString,
    );

    let mut args = PromptArgs::new();
    args.insert("a".to_string(), "{b}".to_string());
    args.insert("b".to_string(), "X".to_string());
    assert_eq!(template.format(args).unwrap(), "{b} and X");
}

#[test]
fn extra_input_keys_are_ignored() {
    let template = PromptTemplate::new(
        "Hello {name}!".to_string(),
        vec!["name".to_string()],
        TemplateFormat::FString,
    );

    let mut args = PromptArgs::new();
    args.insert("name".to_string(), "world".to_string());
    args.insert("city".to_string(), "Paris".to_string());
    assert_eq!(template.format(args).unwrap(), "Hello world!");
}

#[test]
fn missing_variable_reports_first_in_declaration_order() {
    let template = PromptTemplate::new(
        "{a} {b}".to_string(),
        vec!["a".to_string(), "b".to_string()],
        TemplateFormat::FString,
    );

    let mut args = PromptArgs::new();
    args.insert("b".to_string(), "2".to_string());
    let err = template.format(args).unwrap_err();
    assert_eq!(err, FormatError::MissingVariable("a".to_string()));
    assert_eq!(err.message(), "Variable a is missing from input variables");
}

#[test]
fn empty_template_formats_to_empty() {
    let template =
        PromptTemplate::new(String::new(), Vec::new(), TemplateFormat::FString);
    assert_eq!(template.format(PromptArgs::new()).unwrap(), "");
}

#[test]
fn every_occurrence_of_a_token_is_replaced() {
    let template = PromptTemplate::new(
        "{x}{x} {x}".to_string(),
        vec!["x".to_string()],
        TemplateFormat::FString,
    );

    let mut args = PromptArgs::new();
    args.insert("x".to_string(), "y".to_string());
    assert_eq!(template.format(args).unwrap(), "yy y");
}

#[test]
fn declared_variable_need_not_occur_in_template() {
    let template = PromptTemplate::new(
        "Hello!".to_string(),
        vec!["name".to_string()],
        TemplateFormat::FString,
    );

    let mut args = PromptArgs::new();
    args.insert("name".to_string(), "world".to_string());
    assert_eq!(template.format(args).unwrap(), "Hello!");
}

#[test]
fn token_shape_follows_the_format_kind() {
    // A Jinja2 template only recognises `{{name}}`, so `{name}` is left as is.
    let template = PromptTemplate::new(
        "Hello {name}!".to_string(),
        vec!["name".to_string()],
        TemplateFormat::Jinja2,
    );

    let mut args = PromptArgs::new();
    args.insert("name".to_string(), "world".to_string());
    assert_eq!(template.format(args).unwrap(), "Hello {name}!");
}

#[test]
fn fstring_token_matches_inside_double_braces() {
    let template = PromptTemplate::new(
        "{{name}}".to_string(),
        vec!["name".to_string()],
        TemplateFormat::FString,
    );

    let mut args = PromptArgs::new();
    args.insert("name".to_string(), "world".to_string());
    assert_eq!(template.format(args).unwrap(), "{world}");
}

#[test]
fn empty_value_erases_the_token() {
    let template = PromptTemplate::new(
        "a{x}b".to_string(),
        vec!["x".to_string()],
        TemplateFormat::FString,
    );

    let mut args = PromptArgs::new();
    args.insert("x".to_string(), String::new());
    assert_eq!(template.format(args).unwrap(), "ab");
}

#[test]
fn builder_last_write_wins() {
    let mut args = PromptArgs::new();
    args.insert("name".to_string(), "first".to_string());
    args.insert("name".to_string(), "second".to_string());
    assert_eq!(args.len(), 1);
    assert_eq!(args.get("name").unwrap().as_str(), "second");
}

#[test]
fn builder_get_of_an_absent_name_is_none() {
    let mut args = PromptArgs::new();
    args.insert("name".to_string(), "world".to_string());
    assert!(args.get("age").is_none());
    assert!(!args.is_empty());
}

#[test]
fn template_and_variables_are_exposed() {
    let template = PromptTemplate::new(
        "Hello {name}!".to_string(),
        vec!["name".to_string()],
        TemplateFormat::FString,
    );

    assert_eq!(template.template(), "Hello {name}!");
    assert_eq!(template.variables(), vec!["name".to_string()]);
}
