use rustywind::class_wrapping::ClassWrapping;
use rustywind::engine::RustyWind;
use rustywind::finder::FinderRegex;
use rustywind::sorter::Sorter;

fn default_options_for_test() -> RustyWind {
    RustyWind::new(
        FinderRegex::DefaultRegex,
        Sorter::DefaultSorter,
        false,
        ClassWrapping::NoWrapping,
    )
    .unwrap()
}

fn keeping_duplicates() -> RustyWind {
    RustyWind::new(
        FinderRegex::DefaultRegex,
        Sorter::DefaultSorter,
        true,
        ClassWrapping::NoWrapping,
    )
    .unwrap()
}

fn sort_text(sorter: &RustyWind, file_contents: &str) -> String {
    String::from_utf8(sorter.sort_file_contents(file_contents.as_bytes())).unwrap()
}

fn sort_list(sorter: &RustyWind, classes: &[&str]) -> Vec<String> {
    let input: Vec<&[u8]> = classes.iter().map(|class| class.as_bytes()).collect();
    sorter
        .sort_classes_vec(input)
        .into_iter()
        .map(|class| String::from_utf8(class.to_vec()).unwrap())
        .collect()
}

#[test]
fn test_sort_classes_vec() {
    assert_eq!(
        sort_list(
            &default_options_for_test(),
            &[
                "inline",
                "inline-block",
                "random-class",
                "py-2",
                "justify-end",
                "px-2",
                "flex"
            ]
        ),
        vec![
            "inline-block",
            "inline",
            "flex",
            "justify-end",
            "py-2",
            "px-2",
            "random-class",
        ]
    )
}

#[test]
fn test_sort_file_contents() {
    let file_contents = r#"
    <div>
        <div class='mt-4 mb-0.5 flex inline-block inline px-0.5 pt-10 random-class justify-items absolute relative another-random-class'>
            <ul class='flex items-center md:pr-4 lg:pr-6'>
        </div>
    </div>
    "#;

    let expected_outcome = r#"
    <div>
        <div class='inline-block inline flex absolute relative px-0.5 pt-10 mt-4 mb-0.5 random-class justify-items another-random-class'>
            <ul class='flex items-center md:pr-4 lg:pr-6'>
        </div>
    </div>
    "#.to_string();

    assert_eq!(
        sort_text(&default_options_for_test(), file_contents),
        expected_outcome
    )
}

#[test]
fn test_sort_file_contents_with_duplicates() {
    let file_contents = r#"
    <div>
        <div class='absolute relative flex flex flex flex inline-block inline random-class justify-items another-random-class'>
            <ul class='flex items-center md:pr-4 lg:pr-6'>
        </div>
    </div>
    "#;

    let expected_outcome = r#"
    <div>
        <div class='inline-block inline flex absolute relative random-class justify-items another-random-class'>
            <ul class='flex items-center md:pr-4 lg:pr-6'>
        </div>
    </div>
    "#.to_string();

    assert_eq!(
        sort_text(&default_options_for_test(), file_contents),
        expected_outcome
    )
}

#[test]
fn test_does_not_remove_duplicates_if_bool_set() {
    let file_contents = r#"
    <div>
        <div class='absolute relative flex flex flex flex inline-block inline random-class justify-items another-random-class'>
            <ul class='flex items-center md:pr-4 lg:pr-6'>
        </div>
    </div>
    "#;

    let expected_outcome = r#"
    <div>
        <div class='inline-block inline flex flex flex flex absolute relative random-class justify-items another-random-class'>
            <ul class='flex items-center md:pr-4 lg:pr-6'>
        </div>
    </div>
    "#.to_string();

    assert_eq!(
        sort_text(&keeping_duplicates(), file_contents),
        expected_outcome
    )
}

#[test]
fn test_returns_files_without_class_strings_as_is() {
    let file_contents = r#"
        This is to a represent any other normal file.
    "#;

    let expected_outcome = r#"
        This is to a represent any other normal file.
    "#
    .to_string();

    assert_eq!(
        sort_text(&default_options_for_test(), file_contents),
        expected_outcome
    )
}

#[test]
fn test_multi_line_class_list() {
    let file_contents = r#"
    <div
      class="
        grid
        border
        fixed
        top-0
        right-0
        z-20
        grid-flow-col
        gap-2
        justify-start
        my-12
        mx-8
        text-red-800
        bg-red-50
        rounded
        border-red-100
        shadow-2xl
      "
    >
      <!-- ... -->
    </div>
    "#;

    let expected_outcome = r#"
    <div
      class="grid fixed top-0 right-0 z-20 grid-flow-col gap-2 justify-start my-12 mx-8 text-red-800 bg-red-50 rounded border border-red-100 shadow-2xl"
    >
      <!-- ... -->
    </div>
    "#
    .to_string();

    assert_eq!(
        sort_text(&default_options_for_test(), file_contents),
        expected_outcome
    )
}

#[test]
fn test_sort_file_contents_with_space_and_newline_separated_class_lists() {
    let file_contents = r#"
    <div
      class="
        grid border fixed
        top-0
        right-0
        z-20
        grid-flow-col
        gap-2
        justify-start
        my-12 mx-8 text-red-800
        bg-red-50
        rounded
        border-red-100
        shadow-2xl
      "
    >
      <!-- ... -->
    </div>
    "#;

    let expected_outcome = r#"
    <div
      class="grid fixed top-0 right-0 z-20 grid-flow-col gap-2 justify-start my-12 mx-8 text-red-800 bg-red-50 rounded border border-red-100 shadow-2xl"
    >
      <!-- ... -->
    </div>
    "#
    .to_string();

    assert_eq!(
        sort_text(&default_options_for_test(), file_contents),
        expected_outcome
    )
}

#[test]
fn test_sort_file_contents_with_spaces_newlines_and_custom_classes() {
    let file_contents = r#"
    <div class="m-2 grid-cols-4
            gap-1 foo
        border  theres-a-tab-here:	bar border-red-600
            ">
    </div>
    "#;

    let expected_outcome = r#"
    <div class="grid-cols-4 gap-1 m-2 border border-red-600 foo theres-a-tab-here: bar">
    </div>
    "#
    .to_string();

    assert_eq!(
        sort_text(&default_options_for_test(), file_contents),
        expected_outcome
    )
}

#[test]
fn test_sort_file_contents_with_responsive_classes() {
    let file_contents = r#"
<div>
    <div class='4xl:inline-block absolute xl:relative relative flex inline-block xl:absolute sm:relative sm:flex inline random-class justify-items another-random-class
    sm:absolute 4xl:flex xl:random-class sm:inline-block'>
        <ul class='flex items-center md:pr-4 lg:pr-6 xl:flex'>
    </div>
</div>
"#;

    let expected_outcome = r#"
<div>
    <div class='inline-block inline flex absolute relative sm:inline-block sm:flex sm:absolute sm:relative xl:absolute xl:relative 4xl:inline-block 4xl:flex random-class justify-items another-random-class xl:random-class'>
        <ul class='flex items-center md:pr-4 lg:pr-6 xl:flex'>
    </div>
</div>
"#.to_string();

    assert_eq!(
        sort_text(&default_options_for_test(), file_contents),
        expected_outcome
    )
}
