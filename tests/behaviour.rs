use confindent::access::{all_or_nothing, split_list};
use confindent::render::trim_text;
use confindent::{ConfItem, ConfParent, ConfSection, Confindent};

#[test]
fn empty_and_blank_texts_give_empty_documents() {
    assert!(Confindent::from_str("").is_empty());
    assert!(Confindent::from_str("   \n\n").is_empty());
    assert_eq!(Confindent::from_str("\t\n  \n").len(), 0);
}

#[test]
fn single_line_gives_single_section() {
    let config = Confindent::from_str("Key Value");
    assert_eq!(config.len(), 1);
    let key = config.get_child("Key").unwrap();
    assert_eq!(*key.value(), ConfItem::Text("Value".to_string()));
    assert_eq!(key.indent_level(), 0);
    assert_eq!(key.child_count(), 0);
}

#[test]
fn nested_line_becomes_child() {
    let config = Confindent::from_str("Key Value\n\tChild Value2");
    assert_eq!(config.len(), 1);
    let key = config.get_child("Key").unwrap();
    assert_eq!(key.indent_level(), 0);
    assert_eq!(key.child_count(), 1);
    let child = key.get_child("Child").unwrap();
    assert_eq!(child.indent_level(), 1);
    assert_eq!(child.get::<String>(), Some("Value2".to_string()));
}

#[test]
fn list_value_all_or_nothing() {
    let config = Confindent::from_str("Vec 1,2,3,4");
    let good: Option<Vec<i64>> = config.get_child("Vec").unwrap().get_vec();
    assert_eq!(good, Some(vec![1, 2, 3, 4]));
    let config = Confindent::from_str("Vec 1,x,3");
    let bad: Option<Vec<i64>> = config.get_child("Vec").unwrap().get_vec();
    assert_eq!(bad, None);
}

#[test]
fn list_items_are_trimmed() {
    let mut config = Confindent::new();
    config.create("List", "a, b ,c");
    let items: Option<Vec<String>> = config.get_child("List").unwrap().get_vec();
    assert_eq!(items, Some(vec!["a".to_string(), "b".to_string(), "c".to_string()]));
}

#[test]
fn empty_value_reads_as_nothing() {
    let config = Confindent::from_str("Key");
    let key = config.get_child("Key").unwrap();
    assert_eq!(*key.value(), ConfItem::Empty);
    assert_eq!(key.get::<String>(), None);
    assert_eq!(key.get_vec::<String>(), None);
    assert_eq!(config.get_child_value::<String>("Key"), None);
    assert_eq!(config.get_child_value::<String>("Missing"), None);
}

#[test]
fn failed_conversion_reads_as_nothing() {
    let config = Confindent::from_str("Port eighty");
    assert_eq!(config.child_value::<u16>("Port"), None);
    assert_eq!(config.child_value::<String>("Port"), Some("eighty".to_string()));
}

#[test]
fn create_twice_overwrites() {
    let mut config = Confindent::new();
    config.create("Parent", "p");
    let parent = config.child_mut("Parent").unwrap();
    parent.create_child("A", "1");
    parent.create_child("A", "2");
    assert_eq!(parent.child_count(), 1);
    assert_eq!(parent.get_child("A").unwrap().get::<u32>(), Some(2));
    assert_eq!(parent.get_child("A").unwrap().indent_level(), 1);
}

#[test]
fn overwrite_at_top_level_drops_subtree() {
    let config = Confindent::from_str("A 1\n\tB 2\nA 3");
    assert_eq!(config.len(), 1);
    let a = config.get_child("A").unwrap();
    assert_eq!(a.get::<u32>(), Some(3));
    assert_eq!(a.child_count(), 0);
}

#[test]
fn deeper_line_goes_to_latest_section() {
    let config = Confindent::from_str("First 1\nSecond 2\n\tChild 3");
    assert_eq!(config.get_child("First").unwrap().child_count(), 0);
    let second = config.get_child("Second").unwrap();
    assert_eq!(second.child_count(), 1);
    assert_eq!(second.get_child("Child").unwrap().get::<u32>(), Some(3));
}

#[test]
fn line_without_parent_goes_to_top() {
    let config = Confindent::from_str("A 1\n\t\tDeep 2");
    assert_eq!(config.len(), 2);
    let deep = config.get_child("Deep").unwrap();
    assert_eq!(deep.indent_level(), 2);
    assert_eq!(config.get_child("A").unwrap().child_count(), 0);
}

#[test]
fn space_pairs_indent_and_extra_tokens_drop() {
    let config = Confindent::from_str("Key Value\n  Child one two\n   Odd x");
    let key = config.get_child("Key").unwrap();
    assert_eq!(key.child_count(), 2);
    let child = key.get_child("Child").unwrap();
    assert_eq!(child.get::<String>(), Some("one".to_string()));
    let odd = key.get_child("Odd").unwrap();
    assert_eq!(odd.indent_level(), 1);
}

#[test]
fn line_reading_keeps_key_and_first_value() {
    let (key, section) = ConfSection::parse("  \tName a b c").unwrap();
    assert_eq!(key, "Name");
    assert_eq!(section.indent_level(), 2);
    assert_eq!(*section.value(), ConfItem::Text("a".to_string()));
    assert_eq!(ConfSection::parse("   "), None);
}

#[test]
fn serialize_exact_text() {
    let mut config = Confindent::new();
    config.create("Host", "example.com");
    config.create("Idle", "600");
    config
        .child_mut("Host")
        .unwrap()
        .create("Username", "user")
        .create("Password", "pass");
    assert_eq!(
        config.into_string(),
        "Host example.com\n\tUsername user\n\tPassword pass\n\nIdle 600"
    );
}

#[test]
fn serialize_section_nests_tabs() {
    let mut config = Confindent::new();
    config.create("A", "1");
    let a = config.child_mut("A").unwrap();
    a.create("B", "2");
    a.child_mut("B").unwrap().create("C", "3");
    let a = config.get_child("A").unwrap();
    assert_eq!(a.into_string("A"), "A 1\n\tB 2\n\t\tC 3");
}

#[test]
fn serialize_trims_trailing_space() {
    let config = Confindent::from_str("Key");
    assert_eq!(config.into_string(), "Key");
    assert_eq!(Confindent::new().into_string(), "");
}

#[test]
fn set_value_replaces() {
    let mut config = Confindent::new();
    config.create("Section", "Placeholder");
    let section = config.child_mut("Section").unwrap();
    section.set_value("Value");
    assert_eq!(section.get::<String>().unwrap(), "Value");
    section.set("Other");
    assert_eq!(section.get_value::<String>().unwrap(), "Other");
}

#[test]
fn round_trip_keeps_tree() {
    let text = "Host example.com\n\tUsername user\n\tPassword\nIdle 600\nEmpty";
    let config = Confindent::from_str(text);
    let again = Confindent::from_str(&config.into_string());
    assert_eq!(again, config);
    assert_eq!(again.len(), 3);
}

#[test]
fn list_split_keeps_empty_pieces() {
    assert_eq!(split_list(" 1 , ,3"), vec!["1".to_string(), "".to_string(), "3".to_string()]);
    assert_eq!(split_list(""), vec!["".to_string()]);
    assert_eq!(split_list("a,"), vec!["a".to_string(), "".to_string()]);
}

#[test]
fn trim_drops_outer_whitespace_only() {
    assert_eq!(trim_text(" \t a b \n"), "a b");
    assert_eq!(trim_text(" \u{3000} "), "");
}

#[test]
fn carriage_returns_and_unicode_spaces_separate_tokens() {
    let config = Confindent::from_str("A 1\r\n\tB\u{3000}2\r\n");
    let a = config.get_child("A").unwrap();
    assert_eq!(a.get::<u32>(), Some(1));
    assert_eq!(a.get_child("B").unwrap().get::<u32>(), Some(2));
}

#[test]
fn section_text_with_empty_value() {
    let mut config = Confindent::new();
    config.create("A", "");
    assert_eq!(config.get_child("A").unwrap().into_string("A"), "A ");
    assert_eq!(config.into_string(), "A");
}

#[test]
fn all_or_nothing_keeps_order_or_fails() {
    assert_eq!(all_or_nothing(vec![Some(3), Some(1), Some(2)]), Some(vec![3, 1, 2]));
    assert_eq!(all_or_nothing(vec![Some(3), None, Some(2)]), None);
    assert_eq!(all_or_nothing::<u8>(vec![]), Some(vec![]));
}

#[test]
fn child_value_line_feeds_get_a_tab() {
    let mut config = Confindent::new();
    config.create("K", "v");
    config.child_mut("K").unwrap().create("C", "x\ny");
    assert_eq!(config.get_child("K").unwrap().into_string("K"), "K v\n\tC x\n\ty");
    let mut deep = Confindent::new();
    deep.create("A", "1");
    let a = deep.child_mut("A").unwrap();
    a.create("B", "2");
    a.child_mut("B").unwrap().create("C", "p\nq");
    assert_eq!(deep.into_string(), "A 1\n\tB 2\n\t\tC p\n\t\tq");
}

#[test]
fn standard_conversions_reach_the_library() {
    let config: Confindent = "Key Value\n\tChild 2".parse().unwrap();
    assert_eq!(config.get_child("Key").unwrap().child_count(), 1);
    let text: String = config.into();
    assert_eq!(text, "Key Value\n\tChild 2");
}

#[test]
fn round_trip_from_space_indented_text() {
    let config = Confindent::from_str("A 1\n  B\n  C 3 extra\n\nD");
    let text = config.into_string();
    assert_eq!(text, "A 1\n\tB \n\tC 3\n\nD");
    assert_eq!(Confindent::from_str(&text), config);
}
