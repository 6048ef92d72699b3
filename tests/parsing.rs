use confindent::{ConfItem, ConfParent, ConfSection, Confindent};

#[test]
fn parse_section_empty() {
    assert_eq!(ConfSection::parse(""), None);
}

#[test]
fn parse_section_onlyindent() {
    assert_eq!(ConfSection::parse("\t"), None);
}

#[test]
fn parse_section_noindent() {
    let test_line = "Key Value";
    let (key, section) = ConfSection::parse(test_line).unwrap();

    assert_eq!(key, "Key");
    assert_eq!(*section.value(), ConfItem::Text("Value".to_string()));
    assert_eq!(section.indent_level(), 0);
    assert_eq!(section.child_count(), 0);
}

#[test]
fn parse_section_indent() {
    let test_line = "\tKey Value";
    let (key, section) = ConfSection::parse(test_line).unwrap();

    assert_eq!(key, "Key");
    assert_eq!(*section.value(), ConfItem::Text("Value".to_string()));
    assert_eq!(section.indent_level(), 1);
    assert_eq!(section.child_count(), 0);
}

#[test]
fn get_config_vec() {
    let test_line = "Vec 1,2,3,4";
    let (_, section) = ConfSection::parse(test_line).unwrap();

    assert_eq!(section.get_vec::<u8>().unwrap(), vec![1, 2, 3, 4]);
}

#[test]
fn parse_config_one_section() {
    let test_line = "Key Value";
    let config = Confindent::from_str(test_line);

    let first_section = config.get_child("Key").unwrap();
    assert_eq!(*first_section.value(), ConfItem::Text("Value".to_string()));
    assert_eq!(first_section.indent_level(), 0);
    assert_eq!(first_section.child_count(), 0);
}

#[test]
fn parse_config_two_sections() {
    let test_line = "Key Value\nKey2 Value2";
    let config = Confindent::from_str(test_line);

    let first_section = config.get_child("Key").unwrap();
    assert_eq!(*first_section.value(), ConfItem::Text("Value".to_string()));
    assert_eq!(first_section.indent_level(), 0);
    assert_eq!(first_section.child_count(), 0);

    let second_section = config.get_child("Key2").unwrap();
    assert_eq!(*second_section.value(), ConfItem::Text("Value2".to_string()));
    assert_eq!(second_section.indent_level(), 0);
    assert_eq!(second_section.child_count(), 0);
}

#[test]
fn parse_config_nested_sections() {
    let test_line = "Key Value\n\tChild Value2";
    let config = Confindent::from_str(test_line);

    let first_section = config.get_child("Key").unwrap();
    assert_eq!(*first_section.value(), ConfItem::Text("Value".to_string()));
    assert_eq!(first_section.indent_level(), 0);
    assert_eq!(first_section.child_count(), 1);

    let second_section = first_section.get_child("Child").unwrap();
    assert_eq!(*second_section.value(), ConfItem::Text("Value2".to_string()));
    assert_eq!(second_section.indent_level(), 1);
    assert_eq!(second_section.child_count(), 0);
}

#[test]
fn parse_config_from_str() {
    let config_string = "Host example.com\n\tUsername user\n\tPassword pass\n\nIdle 600";
    let config = Confindent::from_str(config_string);
    verify_full_parse(&config)
}

fn verify_full_parse(config: &Confindent) {
    let host_section = config.child("Host").expect("No Host in config");
    let hostname = host_section.get();
    let username = match host_section.child("Username") {
        Some(section) => section.get(),
        None => panic!(),
    };
    let password = match host_section.child("Password") {
        Some(section) => section.get(),
        None => panic!(),
    };

    let idle = match config.child("Idle") {
        Some(section) => section.get(),
        None => panic!(),
    };

    assert_eq!(hostname, Some("example.com".to_string()));
    assert_eq!(username, Some("user".to_string()));
    assert_eq!(password, Some("pass".to_string()));
    assert_eq!(idle, Some("600".to_string()));
}
