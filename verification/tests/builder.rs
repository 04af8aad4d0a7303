use alfred_gitignore::builder::Builder;
use alfred_gitignore::query::Query;
use alfred_gitignore::repository::Template;

fn catalog() -> Vec<Template> {
    vec![
        Template::new("apples.gitignore"),
        Template::new("oranges.gitignore"),
    ]
}

#[test]
fn file_name() {
    let query = Query::new(catalog(), Some(vec!["apples"]));
    let builder = Builder::new(&query);

    assert_eq!(
        "alfred-gitignore-16623996710012718148.gitignore",
        builder.file_name().as_str()
    );
}

#[test]
fn file_name_ignores_selection_order() {
    let first = Builder::new(&Query::new(catalog(), Some(vec!["oranges", "apples"])));
    let second = Builder::new(&Query::new(catalog(), Some(vec!["apples", "oranges"])));

    assert_eq!(first.file_name(), second.file_name());
    assert_eq!(
        "alfred-gitignore-5416644319254959857.gitignore",
        first.file_name().as_str()
    );
}

#[test]
fn file_name_of_empty_selection() {
    let builder = Builder::new(&Query::new(catalog(), None));

    assert_eq!(
        "alfred-gitignore-3476900567878811119.gitignore",
        builder.file_name().as_str()
    );
}

#[test]
fn new_keeps_only_matching_tokens() {
    let query = Query::new(catalog(), Some(vec!["apples", "peaches"]));
    let builder = Builder::new(&query);

    assert_eq!(1, builder.templates.len());
    assert_eq!("apples", builder.templates[0].name().as_str());
}

#[test]
fn build_one_file() {
    let query = Query::new(catalog(), Some(vec!["apples"]));
    let builder = Builder::new(&query);

    let contents = vec![Some(String::from("*.log\ntarget/\n"))];
    let combined = builder.build(&contents).unwrap();

    let mut expected = String::new();
    expected.push_str("### apples.gitignore\n");
    expected.push_str("*.log\ntarget/\n");

    assert_eq!(expected, combined);
}

#[test]
fn build_two_files() {
    let query = Query::new(catalog(), Some(vec!["oranges", "apples"]));
    let builder = Builder::new(&query);

    // the builder holds the selection sorted by name: apples, oranges
    let contents = vec![
        Some(String::from("core/\n")),
        Some(String::from("peel/\n")),
    ];
    let combined = builder.build(&contents).unwrap();

    let mut expected = String::new();
    expected.push_str("### apples.gitignore\n");
    expected.push_str("core/\n");
    expected.push_str("\n### oranges.gitignore\n");
    expected.push_str("peel/\n");

    assert_eq!(expected, combined);
}

#[test]
fn build_is_order_insensitive() {
    let first = Builder::new(&Query::new(catalog(), Some(vec!["oranges", "apples"])));
    let second = Builder::new(&Query::new(catalog(), Some(vec!["apples", "oranges"])));

    let contents = vec![
        Some(String::from("core/\n")),
        Some(String::from("peel/\n")),
    ];

    assert_eq!(first.file_name(), second.file_name());
    assert_eq!(
        first.build(&contents).unwrap(),
        second.build(&contents).unwrap()
    );
}

#[test]
fn build_aborts_on_missing_content() {
    let query = Query::new(catalog(), Some(vec!["oranges", "apples"]));
    let builder = Builder::new(&query);

    let contents = vec![Some(String::from("peel/\n")), None];

    assert!(builder.build(&contents).is_none());
}

#[test]
fn build_of_empty_selection_is_empty() {
    let builder = Builder::new(&Query::new(catalog(), None));

    assert_eq!("", builder.build(&Vec::new()).unwrap().as_str());
}
