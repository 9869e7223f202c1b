use rustywind::consts::MatcherError;
use rustywind::consts::VariantMatcher;
use rustywind::defaults::default_class_list;
use rustywind::finder::ClassPattern;
use rustywind::finder::FinderError;
use rustywind::finder::FinderRegex;
use rustywind::parser::line_class;
use rustywind::parser::selector_class_list;
use rustywind::parser::word_class;
use rustywind::sorter::parse_classes;
use rustywind::sorter::parse_custom_sorter;
use rustywind::sorter::rank_first_seen;
use rustywind::sorter::Sorter;
use rustywind::vite::create_sorter;
use rustywind::vite::find_embedded_css;
use rustywind::vite::ViteError;

fn names(list: &[&str]) -> Vec<Vec<u8>> {
    list.iter().map(|name| name.as_bytes().to_vec()).collect()
}

#[test]
fn extracts_classes_with_leading_whitespace() {
    let css_content = r#".no-whitespace {
            color: red;
        }
  .with-spaces {
            color: blue;
        }
	.with-tab {
            color: green;
        }
    .multiple-spaces {
            color: yellow;
        }"#;

    let classes = Sorter::new_from_reader(css_content.as_bytes());

    // all classes should be extracted regardless of leading whitespace
    assert_eq!(classes.get(b"no-whitespace"), Some(0));
    assert_eq!(classes.get(b"with-spaces"), Some(1));
    assert_eq!(classes.get(b"with-tab"), Some(2));
    assert_eq!(classes.get(b"multiple-spaces"), Some(3));
    assert_eq!(classes.len(), 4);
}

#[test]
fn a_class_keeps_the_rank_of_its_first_appearance() {
    let css = ".a {\n}\n.b {\n.a {\n.c {\n.b {\n.d {\n";
    let classes = Sorter::new_from_reader(css.as_bytes());
    assert_eq!(classes.get(b"a"), Some(0));
    assert_eq!(classes.get(b"b"), Some(1));
    assert_eq!(classes.get(b"c"), Some(2));
    assert_eq!(classes.get(b"d"), Some(3));
    assert_eq!(classes.get(b"e"), None);
    assert_eq!(classes.len(), 4);
}

#[test]
fn selector_lines_are_told_from_other_lines() {
    let css = ".a {\n.b{\n.c\t{\n. {\n..d {\n.e\\:f\\/g {\nh {\n  .i .j {\n.k\n\n.l \r\n.m,.n {\n@media (x) {\n\x0b.o {\n.p";
    let found: Vec<String> = selector_class_list(css.as_bytes())
        .into_iter()
        .map(|class| String::from_utf8(class).unwrap())
        .collect();
    assert_eq!(found, vec!["a", "d", "e:f/g", "i", "l", "m,.n", "o"]);
}

#[test]
fn line_class_reads_one_line() {
    assert_eq!(line_class(b"xx .a {yy", 2, 7), Some(b"a".to_vec()));
    assert_eq!(line_class(b"xx .a {yy", 0, 9), None);
    assert_eq!(line_class(b".a ", 0, 2), None);
    assert_eq!(line_class(b".a ", 0, 3), Some(b"a".to_vec()));
    assert_eq!(line_class(b"", 0, 0), None);
    assert_eq!(line_class(b"   ", 0, 3), None);
}

#[test]
fn word_class_takes_dots_and_backslashes_off() {
    assert_eq!(word_class(b".a"), b"a".to_vec());
    assert_eq!(word_class(b"...a.b"), b"a.b".to_vec());
    assert_eq!(word_class(b".\\a\\\\b\\"), b"ab".to_vec());
    assert_eq!(word_class(b"."), b"".to_vec());
    assert_eq!(word_class(b""), b"".to_vec());
}

#[test]
fn parse_classes_of_an_empty_stylesheet_is_empty() {
    assert_eq!(Sorter::new(parse_classes(b"")).len(), 0);
    assert_eq!(Sorter::new(parse_classes(b"\n\n")).len(), 0);
}

#[test]
fn parse_custom_sorter_ranks_by_position() {
    let sorter = Sorter::new(parse_custom_sorter(names(&["zeta", "alpha", "mid"])));
    assert_eq!(sorter.get(b"zeta"), Some(0));
    assert_eq!(sorter.get(b"alpha"), Some(1));
    assert_eq!(sorter.get(b"mid"), Some(2));
    assert_eq!(sorter.get(b"other"), None);
    assert_eq!(sorter.len(), 3);
}

#[test]
fn parse_custom_sorter_keeps_the_first_position_of_a_name() {
    let sorter = Sorter::new(parse_custom_sorter(names(&["a", "b", "a", "c", "b"])));
    assert_eq!(sorter.get(b"a"), Some(0));
    assert_eq!(sorter.get(b"b"), Some(1));
    assert_eq!(sorter.get(b"c"), Some(3));
    assert_eq!(sorter.len(), 3);
}

#[test]
fn rank_first_seen_counts_the_names_seen_before() {
    let sorter = Sorter::new(rank_first_seen(names(&["a", "b", "a", "c", "b"])));
    assert_eq!(sorter.get(b"a"), Some(0));
    assert_eq!(sorter.get(b"b"), Some(1));
    assert_eq!(sorter.get(b"c"), Some(2));
    assert_eq!(sorter.len(), 3);
}

#[test]
fn parse_custom_sorter_of_nothing_is_empty() {
    let sorter = Sorter::new(parse_custom_sorter(Vec::new()));
    assert_eq!(sorter.len(), 0);
    assert_eq!(sorter.get(b""), None);
}

#[test]
fn default_sorter_ranks_the_default_classes() {
    let sorter = Sorter::DefaultSorter;
    assert_eq!(sorter.get(b"container"), Some(0));
    assert_eq!(sorter.get(b"flex"), Some(4));
    assert_eq!(sorter.get(b"py-2"), Some(1297));
    assert_eq!(sorter.get(b"-mt-4"), Some(1755));
    assert_eq!(sorter.get(b"text-white"), Some(2214));
    assert_eq!(sorter.get(b"bg-orange-200"), Some(2888));
    assert_eq!(sorter.get(b"rounded"), Some(3850));
    assert_eq!(sorter.get(b"shadow"), Some(5033));
    assert_eq!(sorter.get(b"skew-y-0"), Some(5345));
    assert_eq!(sorter.get(b"not-sr-only"), Some(5392));
    assert_eq!(sorter.get(b"-m-0"), None);
    assert_eq!(sorter.get(b"rounded-DEFAULT"), None);
    assert_eq!(sorter.get(b"no-such-class"), None);
    assert_eq!(sorter.len(), 5393);
}

#[test]
fn default_class_list_starts_and_ends_as_expected() {
    let list = default_class_list();
    assert_eq!(list.len(), 5393);
    assert_eq!(list[0], b"container".to_vec());
    assert_eq!(list[1], b"block".to_vec());
    assert_eq!(list[5392], b"not-sr-only".to_vec());
    assert_eq!(list[2214], b"text-white".to_vec());
    assert_eq!(list[2215], b"text-slate-50".to_vec());
}

#[test]
fn into_table_gives_the_table_of_the_sorter() {
    let table = Sorter::DefaultSorter.into_table();
    assert_eq!(table.len(), 5393);
    assert_eq!(table.get(b"flex".as_slice()), Some(&4));
    let table = Sorter::new(parse_custom_sorter(names(&["x"]))).into_table();
    assert_eq!(table.len(), 1);
}

#[test]
fn custom_regex_needs_a_group() {
    assert_eq!(
        FinderRegex::custom("class").err(),
        Some(FinderError::TooFewGroups)
    );
    assert_eq!(
        FinderRegex::custom("(?:class)=").err(),
        Some(FinderError::TooFewGroups)
    );
    assert!(FinderRegex::custom("class=(x+)").is_ok());
    assert!(FinderRegex::custom("(a)(b)").is_ok());
}

#[test]
fn custom_regex_must_compile() {
    assert_eq!(
        FinderRegex::custom("class=(x").err(),
        Some(FinderError::InvalidPattern)
    );
    assert_eq!(
        FinderRegex::custom("(\\w{1000}){1000}").err(),
        Some(FinderError::InvalidPattern)
    );
}

#[test]
fn finder_regex_compiles_into_its_pattern() {
    let regex = FinderRegex::custom("k=(x+)").unwrap().into_pattern().unwrap();
    assert_eq!(regex.as_str(), "k=(x+)");
    let regex = FinderRegex::DefaultRegex.into_pattern().unwrap();
    assert!(regex.is_match(b"<a class='b'>"));
    assert!(!regex.is_match(b"<a id='b'>"));
    assert_eq!(regex.captures_len(), 2);
}

#[test]
fn variant_matcher_finds_the_variant_before_the_delimiter() {
    let matcher = VariantMatcher::with_default_variants().unwrap();
    assert_eq!(matcher.len(), 25);
    assert_eq!(matcher.variant(0), b"sm");
    assert_eq!(matcher.variant(24), b"disabled");
    assert_eq!(matcher.find(b"sm:flex"), Some(0));
    assert_eq!(matcher.find(b"2xl:flex"), Some(4));
    assert_eq!(matcher.find(b"focus:flex"), Some(21));
    assert_eq!(matcher.find(b"focus-visible:flex"), Some(22));
    assert_eq!(matcher.find(b"focus-within:flex"), Some(19));
    assert_eq!(matcher.find(b"group-hover:flex"), Some(17));
    assert_eq!(matcher.find(b"hover:"), Some(20));
    assert_eq!(matcher.find(b"hover"), None);
    assert_eq!(matcher.find(b"hoverx:flex"), None);
    assert_eq!(matcher.find(b"x:hover:flex"), None);
    assert_eq!(matcher.find(b" sm:flex"), None);
    assert_eq!(matcher.find(b""), None);
}

#[test]
fn variant_matcher_prefers_the_longest_variant() {
    let matcher = VariantMatcher::new(names(&["a", "a:b", "a:b:c"])).unwrap();
    assert_eq!(matcher.find(b"a:x"), Some(0));
    assert_eq!(matcher.find(b"a:b:x"), Some(1));
    assert_eq!(matcher.find(b"a:b:c:x"), Some(2));
    assert_eq!(matcher.find(b"a:b:c"), Some(1));
}

#[test]
fn variant_matcher_refuses_a_variant_given_twice() {
    assert_eq!(
        VariantMatcher::new(names(&["a", "b", "a"])).err(),
        Some(MatcherError::DuplicateVariant)
    );
    assert!(VariantMatcher::new(Vec::new()).is_ok());
}

#[test]
fn create_sorter_reads_the_stylesheet_of_a_script() {
    let body = b"import x\nconst __vite__css = \".flex { display: flex }\"\nexport default 1\n";
    let sorter = create_sorter(body).unwrap();
    assert_eq!(sorter.get(b"flex"), Some(0));
    assert_eq!(sorter.len(), 1);
}

#[test]
fn create_sorter_fails_without_the_marker() {
    assert_eq!(
        create_sorter(b"const css = \".flex { }\"").err(),
        Some(ViteError::MarkerNotFound)
    );
    assert_eq!(create_sorter(b"").err(), Some(ViteError::MarkerNotFound));
    assert_eq!(
        create_sorter(b"const __vite__css = \"\n.flex {\"").err(),
        Some(ViteError::MarkerNotFound)
    );
}

#[test]
fn find_embedded_css_goes_to_the_last_quote_of_the_line() {
    assert_eq!(
        find_embedded_css(b"const __vite__css = \"a\" + \"b\"\n\"c\""),
        Some((21, 28))
    );
    assert_eq!(find_embedded_css(b"const __vite__css = \"\""), Some((21, 21)));
    assert_eq!(
        find_embedded_css(b"const __vite__css = \"\nconst __vite__css = \"x\""),
        Some((43, 44))
    );
    assert_eq!(find_embedded_css(b"const __vite__css = \"x"), None);
}

#[test]
fn class_pattern_holds_what_was_compiled() {
    let pattern = ClassPattern::new("(?i)k=(x+)").unwrap();
    assert_eq!(pattern.as_str(), "(?i)k=(x+)");
    assert_eq!(pattern.captures_len(), 2);
    assert!(pattern.is_match(b"K=XX"));
    assert!(!pattern.is_match(b"k=y"));
    assert_eq!(
        pattern.class_spans(b"k=x K=xx (k=)"),
        vec![Some((2, 3)), Some((6, 8))]
    );
    assert_eq!(
        ClassPattern::new("a|(b)").unwrap().class_spans(b"ab"),
        vec![None, Some((1, 2))]
    );
    assert_eq!(ClassPattern::new("k=(x").err(), Some(FinderError::InvalidPattern));
}

#[test]
fn whitespace_of_more_than_one_byte_counts_as_whitespace() {
    let css = "\u{a0}.a {\n.b\u{a0}c {\n.d\u{2003}{\n\u{3000}\u{2028} \u{85}.e {\n.\u{e9}\u{1680} {\n.f\u{e9} {\n.g\u{200b}h {\n";
    let found: Vec<String> = selector_class_list(css.as_bytes())
        .into_iter()
        .map(|class| String::from_utf8(class).unwrap())
        .collect();
    assert_eq!(found, vec!["a", "e", "f\u{e9}", "g\u{200b}h"]);
}

#[test]
fn space_len_at_measures_one_whitespace_character() {
    let text = "a \u{a0}\u{2009}\u{3000}\u{e9}".as_bytes();
    assert_eq!(rustywind::parser::space_len_at(text, 0, text.len()), 0);
    assert_eq!(rustywind::parser::space_len_at(text, 1, text.len()), 1);
    assert_eq!(rustywind::parser::space_len_at(text, 2, text.len()), 2);
    assert_eq!(rustywind::parser::space_len_at(text, 2, 3), 0);
    assert_eq!(rustywind::parser::space_len_at(text, 3, text.len()), 0);
    assert_eq!(rustywind::parser::space_len_at(text, 4, text.len()), 3);
    assert_eq!(rustywind::parser::space_len_at(text, 4, 6), 0);
    assert_eq!(rustywind::parser::space_len_at(text, 7, text.len()), 3);
    assert_eq!(rustywind::parser::space_len_at(text, 10, text.len()), 0);
    assert_eq!(rustywind::parser::space_len_at(text, text.len(), text.len()), 0);
}
