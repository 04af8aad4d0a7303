use alfred_gitignore::repository::{extraction_file_name, templates_from_file_names, Template};

#[test]
fn template_new_strips_the_suffix() {
    let template = Template::new("Global.gitignore");

    assert_eq!("Global", template.name().as_str());
    assert_eq!("Global.gitignore", template.file_name().as_str());
    assert_eq!("global", template.comparator().as_str());
}

#[test]
fn template_new_keeps_other_names_whole() {
    let template = Template::new("README.md");

    assert_eq!("README.md", template.name().as_str());
    assert_eq!("README.md", template.file_name().as_str());
    assert_eq!("readme.md", template.comparator().as_str());
}

#[test]
fn templates_returns_names() {
    let file_names = vec![
        String::from("apples.gitignore"),
        String::from("oranges.gitignore"),
    ];

    let templates = templates_from_file_names(&file_names);
    let template_names: Vec<&String> = templates.iter().map(|t| t.name()).collect();

    assert_eq!(vec!["apples", "oranges"], template_names);
}

#[test]
fn templates_are_filtered_and_sorted() {
    let file_names = vec![
        String::from("oranges.gitignore"),
        String::from("README.md"),
        String::from("apples.gitignore"),
    ];

    let templates = templates_from_file_names(&file_names);
    let template_names: Vec<&String> = templates.iter().map(|t| t.name()).collect();

    assert_eq!(vec!["apples", "oranges"], template_names);
}

#[test]
fn extraction_flattens_directories() {
    let name = extraction_file_name("gitignore-master/Global/Xcode.gitignore");

    assert_eq!("Xcode.gitignore", name.unwrap().as_str());
}

#[test]
fn extraction_keeps_plain_template_names() {
    let name = extraction_file_name("Rust.gitignore");

    assert_eq!("Rust.gitignore", name.unwrap().as_str());
}

#[test]
fn extraction_skips_directory_entries() {
    assert!(extraction_file_name("gitignore-master/Global/").is_none());
}

#[test]
fn extraction_skips_other_files() {
    assert!(extraction_file_name("gitignore-master/README.md").is_none());
}
