use rustywind::arrange::Classification;
use rustywind::class_wrapping::ClassWrapping;
use rustywind::engine::RustyWind;
use rustywind::engine::SetupError;
use rustywind::consts::MatcherError;
use rustywind::finder::ClassPattern;
use rustywind::finder::FinderError;
use rustywind::finder::FinderRegex;
use rustywind::sorter::parse_custom_sorter;
use rustywind::sorter::Sorter;

fn rustywind_default() -> RustyWind {
    RustyWind::with_defaults().unwrap()
}

fn rustywind_with(allow_duplicates: bool, wrapping: ClassWrapping) -> RustyWind {
    RustyWind::new(
        FinderRegex::DefaultRegex,
        Sorter::DefaultSorter,
        allow_duplicates,
        wrapping,
    )
    .unwrap()
}

fn sorted_contents(app: &RustyWind, input: &str) -> String {
    String::from_utf8(app.sort_file_contents(input.as_bytes())).unwrap()
}

fn sorted_classes(app: &RustyWind, input: &str) -> String {
    String::from_utf8(app.sort_classes(input.as_bytes())).unwrap()
}

fn sorted_vec(app: &RustyWind, input: &[&str]) -> Vec<String> {
    let classes: Vec<&[u8]> = input.iter().map(|class| class.as_bytes()).collect();
    app.sort_classes_vec(classes)
        .into_iter()
        .map(|class| String::from_utf8(class.to_vec()).unwrap())
        .collect()
}

fn names(list: &[&str]) -> Vec<Vec<u8>> {
    list.iter().map(|name| name.as_bytes().to_vec()).collect()
}

#[test]
fn has_classes_div_tag_with_class() {
    assert!(rustywind_default().has_classes(br#"<div class="flex-col inline flex"></div>"#));
}

#[test]
fn has_classes_body_tag_with_unknown_class() {
    assert!(rustywind_default().has_classes(br#"<body class="unknown-class"></body>"#));
}

#[test]
fn has_classes_p_tag_with_class_name() {
    assert!(rustywind_default().has_classes(br#"<p className="unknown-class"></p>"#));
}

#[test]
fn has_classes_p_tag_with_no_class() {
    assert!(!rustywind_default().has_classes(br#"<p>not a class</p>"#));
}

#[test]
fn has_classes_nested_tags_no_class() {
    assert!(!rustywind_default().has_classes(br#"<div><p></p><p></p></div>"#));
}

#[test]
fn has_classes_nested_tags_class_in_child() {
    assert!(rustywind_default()
        .has_classes(br#"<div><p><span className="inline"></span></p><p></p></div>"#));
}

#[test]
fn sort_classes_vec_ranked_then_custom() {
    assert_eq!(
        sorted_vec(
            &rustywind_default(),
            &["inline", "inline-block", "random-class", "shadow-sm", "py-2", "justify-end", "px-2", "flex"]
        ),
        vec!["inline-block", "inline", "flex", "justify-end", "py-2", "px-2", "shadow-sm", "random-class"]
    );
}

#[test]
fn sort_classes_vec_with_unknown_background() {
    assert_eq!(
        sorted_vec(
            &rustywind_default(),
            &["bg-purple", "text-white", "unknown-class", "flex-col", "gap-4", "flex", "skew-y-0"]
        ),
        vec!["flex", "flex-col", "gap-4", "text-white", "skew-y-0", "bg-purple", "unknown-class"]
    );
}

#[test]
fn sort_classes_vec_with_transform() {
    assert_eq!(
        sorted_vec(
            &rustywind_default(),
            &["translate-x-7", "bg-orange-200", "unknown-class", "static", "top-5", "flex", "items-center"]
        ),
        vec!["flex", "static", "top-5", "items-center", "bg-orange-200", "translate-x-7", "unknown-class"]
    );
}

#[test]
fn sort_classes_vec_of_nothing() {
    assert_eq!(sorted_vec(&rustywind_default(), &[]), Vec::<String>::new());
}

#[test]
fn sort_file_contents_div_tag_using_class() {
    assert_eq!(
        sorted_contents(
            &rustywind_default(),
            r#"<div class="py-2 inline random-class shadow-sm"></div>"#
        ),
        r#"<div class="inline py-2 shadow-sm random-class"></div>"#
    );
}

#[test]
fn sort_file_contents_section_tag_using_class_name() {
    assert_eq!(
        sorted_contents(
            &rustywind_default(),
            r#"<section className="inline lg:inline-block abcd py-2"></section>"#
        ),
        r#"<section className="inline py-2 lg:inline-block abcd"></section>"#
    );
}

#[test]
fn sort_file_contents_p_tag_using_class() {
    assert_eq!(
        sorted_contents(
            &rustywind_default(),
            r#"<p class="unknown-class bg-blue-300 py-2 object-top">content</p>"#
        ),
        r#"<p class="object-top py-2 bg-blue-300 unknown-class">content</p>"#
    );
}

#[test]
fn sort_file_contents_p_tag_remove_duplicates() {
    assert_eq!(
        sorted_contents(
            &rustywind_default(),
            r#"<p className="py-2 py-2 random-class underline underline underline">text</p>"#
        ),
        r#"<p className="py-2 underline random-class">text</p>"#
    );
}

#[test]
fn sort_file_contents_section_tag_keeps_duplicates_if_bool_set() {
    assert_eq!(
        sorted_contents(
            &rustywind_with(true, ClassWrapping::NoWrapping),
            r#"<section className="inline py-2 py-2 random-class italic italic italic"></section>"#
        ),
        r#"<section className="inline py-2 py-2 italic italic italic random-class"></section>"#
    );
}

#[test]
fn sort_file_contents_sorts_variant_classes() {
    let input = r#"
            <div>
                <div class='even:inline 4xl:inline-block focus-visible:flex absolute xl:relative relative focus:flex flex active:flex disabled:flex visited:flex inline-block dark:absolute sm:relative sm:flex inline random-class justify-items another-random-class 
                sm:absolute 4xl:flex xl:random-class sm:inline-block'>
                    <ul class='flex items-center md:pr-4 lg:pr-6 xl:flex'>
                </div>
            </div>
        "#;
    let output = r#"
            <div>
                <div class='inline-block inline flex absolute relative sm:inline-block sm:flex sm:absolute sm:relative xl:relative 4xl:inline-block 4xl:flex dark:absolute even:inline visited:flex focus:flex focus-visible:flex active:flex disabled:flex random-class justify-items another-random-class xl:random-class'>
                    <ul class='flex items-center md:pr-4 lg:pr-6 xl:flex'>
                </div>
            </div>
        "#;
    assert_eq!(sorted_contents(&rustywind_default(), input), output);
}

#[test]
fn sort_file_contents_keeps_duplicates_if_bool_set() {
    let input = r#"
            <div>
                <div class='absolute relative flex flex flex flex inline-block inline random-class justify-items another-random-class'>
                    <ul class='flex items-center md:pr-4 lg:pr-6'>
                    </ul>
                </div>
            </div>
        "#;
    let output = r#"
            <div>
                <div class='inline-block inline flex flex flex flex absolute relative random-class justify-items another-random-class'>
                    <ul class='flex items-center md:pr-4 lg:pr-6'>
                    </ul>
                </div>
            </div>
        "#;
    assert_eq!(
        sorted_contents(&rustywind_with(true, ClassWrapping::NoWrapping), input),
        output
    );
}

#[test]
fn sort_file_contents_makes_no_change_to_files_without_class_string() {
    let input = r#"This is to represent any other normal file."#;
    assert_eq!(sorted_contents(&rustywind_default(), input), input);
}

#[test]
fn sort_file_contents_makes_no_change_to_elements_without_class_string() {
    let input = r#"<div><p><img height="100" width="250" /></p><p></p></div>"#;
    assert_eq!(sorted_contents(&rustywind_default(), input), input);
}

#[test]
fn sort_file_contents_leaves_text_outside_the_list_alone() {
    assert_eq!(
        sorted_contents(&rustywind_default(), "<a class = \"  flex   inline \" >  x  </a>"),
        "<a class = \"inline flex\" >  x  </a>"
    );
}

#[test]
fn sort_file_contents_empties_a_blank_list_only() {
    assert_eq!(
        sorted_contents(&rustywind_default(), "<a class = \" \" > b c </a>"),
        "<a class = \"\" > b c </a>"
    );
}

#[test]
fn sort_file_contents_keeps_bytes_that_are_no_text() {
    let mut input: Vec<u8> = vec![0xff, 0xfe, b' '];
    input.extend_from_slice(b"<p class='flex inline'>");
    input.push(0x80);
    let mut output: Vec<u8> = vec![0xff, 0xfe, b' '];
    output.extend_from_slice(b"<p class='inline flex'>");
    output.push(0x80);
    assert_eq!(rustywind_default().sort_file_contents(&input), output);
}

#[test]
fn unusual_use_case_normal_html() {
    assert_eq!(
        sorted_contents(
            &rustywind_default(),
            r#"<div class="flex-col inline flex"></div>"#
        ),
        r#"<div class="inline flex flex-col"></div>"#
    );
}

#[test]
fn unusual_use_case_array_with_single_quotes() {
    let regex = FinderRegex::custom(r#"(?:\[)([_a-zA-Z0-9\.,\-'"\s]+)(?:\])"#).unwrap();
    let app = RustyWind::new(
        regex,
        Sorter::DefaultSorter,
        false,
        ClassWrapping::CommaSingleQuotes,
    )
    .unwrap();
    assert_eq!(
        sorted_contents(&app, r#"classes = ['flex-col', 'inline', 'flex']"#),
        r#"classes = ['inline', 'flex', 'flex-col']"#
    );
}

#[test]
fn unusual_use_case_array_with_double_quotes() {
    let regex = FinderRegex::custom(r#"(?:\[)([_a-zA-Z0-9\.,\-'"\s]+)(?:\])"#).unwrap();
    let app = RustyWind::new(
        regex,
        Sorter::DefaultSorter,
        false,
        ClassWrapping::CommaDoubleQuotes,
    )
    .unwrap();
    assert_eq!(
        sorted_contents(&app, r#"classes = ["flex-col", "inline", "flex"]"#),
        r#"classes = ["inline", "flex", "flex-col"]"#
    );
}

#[test]
fn sort_classes_removes_duplicates() {
    assert_eq!(
        sorted_classes(
            &rustywind_default(),
            "py-2 py-2 underline underline underline"
        ),
        "py-2 underline"
    );
}

#[test]
fn sort_classes_keeps_duplicates_with_their_bucket() {
    assert_eq!(
        sorted_classes(
            &rustywind_with(true, ClassWrapping::NoWrapping),
            "underline zzz py-2 underline zzz py-2 underline"
        ),
        "py-2 py-2 underline underline underline zzz zzz"
    );
}

#[test]
fn sort_classes_of_empty_text_is_empty() {
    assert_eq!(sorted_classes(&rustywind_default(), ""), "");
    assert_eq!(sorted_classes(&rustywind_default(), " \n\t "), "");
}

#[test]
fn sort_classes_of_unknown_classes_keeps_their_order() {
    assert_eq!(
        sorted_classes(&rustywind_default(), "zeta  alpha\tmid zeta\nalpha"),
        "zeta alpha mid"
    );
}

#[test]
fn sort_classes_twice_is_sort_classes_once() {
    let inputs = [
        "sm:zzz flex sm:flex py-2 zzz md:inline inline lg:qqq flex",
        "'b', 'a', 'flex' ,,  'sm:flex'",
        "\"inline\", \"x\", \"\"",
        "",
    ];
    let wrappings = [
        ClassWrapping::NoWrapping,
        ClassWrapping::CommaSingleQuotes,
        ClassWrapping::CommaDoubleQuotes,
    ];
    for wrapping in wrappings {
        for allow_duplicates in [false, true] {
            let app = rustywind_with(allow_duplicates, wrapping);
            for input in inputs {
                let once = app.sort_classes(input.as_bytes());
                let twice = app.sort_classes(&once);
                assert_eq!(twice, once);
            }
        }
    }
}

#[test]
fn variant_group_stands_between_ranked_and_later_variants() {
    assert_eq!(
        sorted_vec(
            &rustywind_default(),
            &["md:flex", "custom", "sm:flex", "py-2", "sm:inline", "sm:what", "flex"]
        ),
        vec!["flex", "py-2", "sm:inline", "sm:flex", "md:flex", "custom", "sm:what"]
    );
}

#[test]
fn unranked_variant_classes_follow_the_custom_classes_variant_by_variant() {
    assert_eq!(
        sorted_vec(
            &rustywind_default(),
            &["md:zzz", "sm:yyy", "plain", "sm:xxx", "md:flex"]
        ),
        vec!["md:flex", "plain", "sm:yyy", "sm:xxx", "md:zzz"]
    );
}

#[test]
fn a_variant_needs_its_delimiter() {
    assert_eq!(rustywind_default().classify(b"smxflex"), Classification::Custom);
    assert_eq!(rustywind_default().classify(b"sm"), Classification::Custom);
    assert_eq!(rustywind_default().classify(b"SM:flex"), Classification::Custom);
}

#[test]
fn classify_tells_the_kinds_apart() {
    let app = rustywind_default();
    assert_eq!(app.classify(b"flex"), Classification::Ranked(4));
    assert_eq!(app.classify(b"container"), Classification::Ranked(0));
    assert_eq!(app.classify(b"sm:flex"), Classification::Variant(0, Some(4)));
    assert_eq!(app.classify(b"md:flex"), Classification::Variant(1, Some(4)));
    assert_eq!(app.classify(b"disabled:container"), Classification::Variant(24, Some(0)));
    assert_eq!(app.classify(b"focus-visible:nothing"), Classification::Variant(22, None));
    assert_eq!(app.classify(b"focus:flex"), Classification::Variant(21, Some(4)));
    assert_eq!(app.classify(b"sm:"), Classification::Variant(0, None));
    assert_eq!(app.classify(b"nothing"), Classification::Custom);
    assert_eq!(app.classify(b""), Classification::Custom);
}

#[test]
fn a_ranked_class_is_ranked_whatever_it_starts_with() {
    let table = parse_custom_sorter(names(&["sm:flex", "flex"]));
    let app = RustyWind::new(
        FinderRegex::DefaultRegex,
        Sorter::new(table),
        false,
        ClassWrapping::NoWrapping,
    )
    .unwrap();
    assert_eq!(app.classify(b"sm:flex"), Classification::Ranked(0));
    assert_eq!(app.classify(b"md:flex"), Classification::Variant(1, Some(1)));
}

#[test]
fn the_longest_variant_wins() {
    let app = RustyWind::with_variants(
        FinderRegex::DefaultRegex,
        Sorter::new(parse_custom_sorter(names(&["x", "b:x"]))),
        names(&["a", "a:b", "c"]),
        false,
        ClassWrapping::NoWrapping,
    )
    .unwrap();
    assert_eq!(app.classify(b"a:b:x"), Classification::Variant(1, Some(0)));
    assert_eq!(app.classify(b"a:x"), Classification::Variant(0, Some(0)));
    assert_eq!(app.classify(b"a:b"), Classification::Variant(0, None));
    assert_eq!(app.classify(b"a:c:x"), Classification::Variant(0, None));
    assert_eq!(
        sorted_vec(&app, &["c:x", "a:b:x", "q", "a:x", "x"]),
        vec!["x", "a:x", "a:b:x", "c:x", "q"]
    );
}

#[test]
fn a_variant_given_twice_is_refused() {
    let made = RustyWind::with_variants(
        FinderRegex::DefaultRegex,
        Sorter::DefaultSorter,
        names(&["sm", "md", "sm"]),
        false,
        ClassWrapping::NoWrapping,
    );
    assert_eq!(
        made.err(),
        Some(SetupError::Matcher(MatcherError::DuplicateVariant))
    );
}

#[test]
fn custom_order_is_followed() {
    let app = RustyWind::new(
        FinderRegex::DefaultRegex,
        Sorter::new(parse_custom_sorter(names(&["zzz", "flex", "aaa"]))),
        false,
        ClassWrapping::NoWrapping,
    )
    .unwrap();
    assert_eq!(
        sorted_classes(&app, "aaa inline sm:aaa flex sm:zzz zzz"),
        "zzz flex aaa sm:zzz sm:aaa inline"
    );
}

#[test]
fn find_class_lists_gives_the_places_of_the_lists() {
    let app = rustywind_default();
    assert_eq!(
        app.find_class_lists(b"<a class='x y'><b className=\"z\">"),
        vec![Some((10, 13)), Some((29, 30))]
    );
    assert_eq!(app.find_class_lists(b"<a>"), Vec::<Option<(usize, usize)>>::new());
}

#[test]
fn sort_spans_passes_over_what_is_no_span() {
    let app = rustywind_default();
    let text = b"flex inline|flex inline|flex inline";
    assert_eq!(
        app.sort_spans(text, &vec![None, Some((12, 23)), Some((0, 11)), Some((30, 99)), Some((30, 24))]),
        b"flex inline|inline flex|flex inline".to_vec()
    );
    assert_eq!(app.sort_spans(text, &vec![]), text.to_vec());
    assert_eq!(
        app.sort_spans(text, &vec![Some((0, 11)), Some((11, 11)), Some((24, 35))]),
        b"inline flex|flex inline|inline flex".to_vec()
    );
}

#[test]
fn the_settings_can_be_read_back() {
    let app = rustywind_with(true, ClassWrapping::CommaDoubleQuotes);
    assert!(app.allow_duplicates());
    assert_eq!(app.class_wrapping(), ClassWrapping::CommaDoubleQuotes);
    let app = rustywind_default();
    assert!(!app.allow_duplicates());
    assert_eq!(app.class_wrapping(), ClassWrapping::NoWrapping);
}

#[test]
fn from_parts_reports_the_first_part_that_failed() {
    let table = || parse_custom_sorter(names(&["flex"]));
    let matcher = || rustywind::consts::VariantMatcher::with_default_variants();
    let regex = || FinderRegex::DefaultRegex.into_pattern();

    let made = RustyWind::from_parts(
        Err(FinderError::InvalidPattern),
        table(),
        matcher(),
        false,
        ClassWrapping::NoWrapping,
    );
    assert_eq!(
        made.err(),
        Some(SetupError::Finder(FinderError::InvalidPattern))
    );

    let made = RustyWind::from_parts(
        Err(FinderError::TooFewGroups),
        table(),
        Err(MatcherError::SearcherNotBuilt),
        false,
        ClassWrapping::NoWrapping,
    );
    assert_eq!(
        made.err(),
        Some(SetupError::Finder(FinderError::TooFewGroups))
    );

    let made = RustyWind::from_parts(
        regex(),
        table(),
        Err(MatcherError::SearcherNotBuilt),
        false,
        ClassWrapping::NoWrapping,
    );
    assert_eq!(
        made.err(),
        Some(SetupError::Matcher(MatcherError::SearcherNotBuilt))
    );

    let made = RustyWind::from_parts(regex(), table(), matcher(), true, ClassWrapping::NoWrapping)
        .unwrap();
    assert!(made.allow_duplicates());
    assert_eq!(sorted_classes(&made, "x flex x"), "flex x x");
}

#[test]
fn assemble_takes_the_parts_as_they_are() {
    let made = RustyWind::assemble(
        FinderRegex::custom("<(.*?)>").unwrap().into_pattern().unwrap(),
        parse_custom_sorter(names(&["b", "a"])),
        rustywind::consts::VariantMatcher::new(names(&["v"])).unwrap(),
        false,
        ClassWrapping::NoWrapping,
    );
    assert_eq!(sorted_contents(&made, "a b <v:a a v:b b> a b"), "a b <b a v:b v:a> a b");
}

#[test]
fn checked_decides_on_a_compiled_pattern() {
    assert_eq!(
        FinderRegex::checked(ClassPattern::new("(")).err(),
        Some(FinderError::InvalidPattern)
    );
    assert_eq!(
        FinderRegex::checked(ClassPattern::new("a")).err(),
        Some(FinderError::TooFewGroups)
    );
    assert!(FinderRegex::checked(ClassPattern::new("(a)")).is_ok());
    assert_eq!(
        FinderRegex::checked(Err(FinderError::TooFewGroups)).err(),
        Some(FinderError::TooFewGroups)
    );
}

#[test]
fn sorting_a_file_twice_is_sorting_it_once() {
    let texts = [
        "<a class='flex   inline sm:flex zzz flex'><b className=\"py-2 x  x\"> class=\" \"",
        "<div class=\"md:zzz sm:yyy plain sm:xxx md:flex\"></div>\n<p class='a'>class='b a'</p>",
        "no lists here",
        "",
    ];
    for allow_duplicates in [false, true] {
        let app = rustywind_with(allow_duplicates, ClassWrapping::NoWrapping);
        for text in texts {
            let once = app.sort_file_contents(text.as_bytes());
            let twice = app.sort_file_contents(&once);
            assert_eq!(twice, once);
        }
    }
}

#[test]
fn many_classes_of_many_variants_come_out_group_by_group() {
    assert_eq!(
        sorted_vec(
            &rustywind_default(),
            &[
                "disabled:flex", "sm:px-2", "hover:zzz", "sm:py-2", "disabled:inline", "x",
                "hover:flex", "sm:zzz", "focus:flex", "sm:py-2", "y", "inline",
            ]
        ),
        vec![
            "inline", "sm:py-2", "sm:py-2", "sm:px-2", "hover:flex", "focus:flex",
            "disabled:inline", "disabled:flex", "x", "y", "sm:zzz", "hover:zzz",
        ]
    );
}
