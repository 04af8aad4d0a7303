use alfred_gitignore::query::Query;
use alfred_gitignore::repository::Template;

fn catalog() -> Vec<Template> {
    vec![
        Template::new("apples.gitignore"),
        Template::new("oranges.gitignore"),
    ]
}

fn cased_catalog() -> Vec<Template> {
    vec![
        Template::new("Apples.gitignore"),
        Template::new("Oranges.gitignore"),
    ]
}

#[test]
fn new_without_query() {
    let query = Query::new(catalog(), None);

    assert_eq!(0, query.query.len());
    assert_eq!(0, query.query_map.len());
    assert_eq!(2, query.templates_map.len());
}

#[test]
fn new_with_query() {
    let query = Query::new(catalog(), Some(vec!["apples"]));

    assert_eq!(1, query.query.len());
    assert_eq!(1, query.query_map.len());
    assert_eq!(2, query.templates_map.len());

    assert_eq!(&String::from("apples"), query.query.first().unwrap());
}

#[test]
fn sanitized_query() {
    let query = Query::new(catalog(), Some(vec!["Apples", "Peaches"])).sanitized_query();

    assert_eq!(1, query.len());
    assert_eq!(&String::from("Apples"), query.first().unwrap())
}

#[test]
fn suggestions_without_query() {
    let query = Query::new(catalog(), Some(Vec::new()));
    let suggestions = query.suggestions();

    assert_eq!(2, suggestions.len());
    assert_eq!(vec!["apples", "oranges"], suggestions);
}

#[test]
fn suggestions_without_match() {
    let query = Query::new(catalog(), Some(vec!["Apples"]));
    let suggestions = query.suggestions();

    assert_eq!(1, suggestions.len());
    assert_eq!(vec!["oranges"], suggestions);
}

#[test]
fn suggestions_with_match() {
    let query = Query::new(catalog(), Some(vec!["Or"]));
    let suggestions = query.suggestions();

    assert_eq!(1, suggestions.len());
    assert_eq!(vec!["oranges"], suggestions);
}

#[test]
fn case_insensitive_tokens_last_one_wins() {
    let query = Query::new(catalog(), Some(vec!["Apples", "APPLES"]));

    assert_eq!(2, query.query.len());
    assert_eq!(1, query.query_map.len());

    let sanitized = query.sanitized_query();
    assert_eq!(vec!["APPLES"], sanitized);
}

#[test]
fn suggestions_exclude_every_typed_template() {
    let query = Query::new(catalog(), Some(vec!["oranges", "apples"]));
    let suggestions = query.suggestions();

    assert_eq!(0, suggestions.len());
}

#[test]
fn suggestions_on_empty_catalog() {
    let query = Query::new(Vec::new(), Some(vec!["ap"]));

    assert_eq!(0, query.suggestions().len());
    assert_eq!(0, query.sanitized_query().len());
}

#[test]
fn construct_query_string_uses_template_names() {
    let query = Query::new(cased_catalog(), Some(vec!["apples", "or"]));

    assert_eq!(" Apples", query.construct_query_string().as_str());
}

#[test]
fn construct_query_string_without_selection() {
    let query = Query::new(cased_catalog(), Some(vec!["pe"]));

    assert_eq!("", query.construct_query_string().as_str());
}
