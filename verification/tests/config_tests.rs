use autoroute::config::{apply_line, find_separator, load_config, starts_with, Config, Route};
use autoroute::text::{chars_of, find_non_space, find_space, find_trim_end, is_whitespace};

fn route(source: &str, dests: &[&str]) -> Route {
    Route { source: source.to_string(), dests: dests.iter().map(|d| d.to_string()).collect() }
}

#[test]
fn whitespace_agrees_with_the_unicode_property() {
    let mut n: u32 = 0;
    while n <= 0x10FFFF {
        if let Some(c) = char::from_u32(n) {
            assert_eq!(is_whitespace(c), c.is_whitespace(), "code point {:#x}", n);
        }
        n += 1;
    }
}

#[test]
fn chars_of_keeps_every_character_in_order() {
    assert_eq!(chars_of(""), Vec::<char>::new());
    assert_eq!(chars_of("a-> é"), vec!['a', '-', '>', ' ', 'é']);
}

#[test]
fn scanning_stops_where_it_should() {
    let chars = chars_of("  ab \t cd  ");
    assert_eq!(find_non_space(&chars, 0, chars.len()), 2);
    assert_eq!(find_space(&chars, 2, chars.len()), 4);
    assert_eq!(find_non_space(&chars, 4, chars.len()), 7);
    assert_eq!(find_space(&chars, 7, chars.len()), 9);
    assert_eq!(find_non_space(&chars, 9, chars.len()), 11);
    assert_eq!(find_trim_end(&chars, 2, chars.len()), 9);
    assert_eq!(find_trim_end(&chars, 9, chars.len()), 9);
    assert_eq!(find_non_space(&chars, 0, 1), 1);
    assert_eq!(find_space(&chars, 2, 3), 3);
}

#[test]
fn starts_with_compares_the_prefix_only() {
    assert!(starts_with(&chars_of("connect A"), &chars_of("connect")));
    assert!(starts_with(&chars_of("connect"), &chars_of("connect")));
    assert!(!starts_with(&chars_of("connec"), &chars_of("connect")));
    assert!(!starts_with(&chars_of("Connect A"), &chars_of("connect")));
    assert!(starts_with(&chars_of("anything"), &chars_of("")));
}

#[test]
fn find_separator_gives_the_first_place() {
    let chars = chars_of("a -> b -> c");
    assert_eq!(find_separator(&chars, 0), Some(2));
    assert_eq!(find_separator(&chars, 2), Some(2));
    assert_eq!(find_separator(&chars, 3), Some(7));
    assert_eq!(find_separator(&chars, 8), None);
    assert_eq!(find_separator(&chars_of("a - > b"), 0), None);
    assert_eq!(find_separator(&chars_of("-"), 0), None);
    assert_eq!(find_separator(&chars_of(""), 5), None);
}

#[test]
fn new_config_is_empty() {
    let config = Config::new();
    assert!(config.ignore.is_empty());
    assert!(config.connections.is_empty());
}

#[test]
fn empty_text_gives_an_empty_config() {
    assert_eq!(load_config(""), Config::new());
    assert_eq!(load_config("\n\n\n"), Config::new());
}

#[test]
fn ignore_takes_the_second_token() {
    let config = load_config("ignore Foo\nignore   Bar   Baz\nignore\tTabbed\n");
    assert_eq!(config.ignore, vec!["Foo".to_string(), "Bar".to_string(), "Tabbed".to_string()]);
    assert!(config.connections.is_empty());
}

#[test]
fn ignore_without_a_name_is_skipped() {
    let config = load_config("ignore\nignore   \nignore Kept\n");
    assert_eq!(config.ignore, vec!["Kept".to_string()]);
}

#[test]
fn ignore_keyword_need_not_end_the_first_token() {
    let config = load_config("ignored Device\n");
    assert_eq!(config.ignore, vec!["Device".to_string()]);
}

#[test]
fn connect_reads_source_and_destination() {
    let config = load_config("connect MyKeyboard:MIDI In -> Synth:MIDI Out");
    assert!(config.ignore.is_empty());
    assert_eq!(config.connections, vec![route("MyKeyboard:MIDI In", &["Synth:MIDI Out"])]);
}

#[test]
fn connect_trims_both_names() {
    let config = load_config("connect \t  A  B  ->   C  D \t \n");
    assert_eq!(config.connections, vec![route("A  B", &["C  D"])]);
}

#[test]
fn connect_without_space_around_the_separator() {
    let config = load_config("connect A->B\n");
    assert_eq!(config.connections, vec![route("A", &["B"])]);
}

#[test]
fn connect_keeps_empty_names() {
    let config = load_config("connect -> B\nconnect A ->\n");
    assert_eq!(config.connections, vec![route("", &["B"]), route("A", &[""])]);
}

#[test]
fn destinations_keep_their_order() {
    let config = load_config("connect A -> B\nconnect X -> Y\nconnect A -> C\nconnect A -> B\n");
    assert_eq!(config.connections, vec![route("A", &["B", "C", "B"]), route("X", &["Y"])]);
}

#[test]
fn connect_without_separator_is_skipped_and_parsing_goes_on() {
    let config = load_config("connect A B\nconnect C -> D\nignore E\n");
    assert_eq!(config.connections, vec![route("C", &["D"])]);
    assert_eq!(config.ignore, vec!["E".to_string()]);
    let alone = load_config("connect A B");
    assert!(alone.connections.is_empty());
    assert!(alone.ignore.is_empty());
}

#[test]
fn connect_with_two_separators_is_skipped() {
    let config = load_config("connect A -> B -> C\nconnect A -> D\n");
    assert_eq!(config.connections, vec![route("A", &["D"])]);
}

#[test]
fn lines_without_keyword_are_passed_over() {
    let config = load_config("# comment\n\n connect A -> B\nConnect A -> B\nIGNORE X\nroute A -> B\n");
    assert_eq!(config, Config::new());
}

#[test]
fn carriage_returns_do_not_reach_the_names() {
    let config = load_config("ignore Foo\r\nconnect A -> B\r\nconnect A -> C\r\n");
    assert_eq!(config.ignore, vec!["Foo".to_string()]);
    assert_eq!(config.connections, vec![route("A", &["B", "C"])]);
}

#[test]
fn last_line_needs_no_line_feed() {
    let config = load_config("connect A -> B\nignore Z");
    assert_eq!(config.ignore, vec!["Z".to_string()]);
    assert_eq!(config.connections, vec![route("A", &["B"])]);
}

#[test]
fn names_may_hold_any_character() {
    let config = load_config("connect Flöte:Ein -> 鍵盤:出力\nignore Gerät\n");
    assert_eq!(config.connections, vec![route("Flöte:Ein", &["鍵盤:出力"])]);
    assert_eq!(config.ignore, vec!["Gerät".to_string()]);
}

#[test]
fn parsing_twice_gives_the_same_config() {
    let text = "ignore A\nconnect S -> D1\nconnect S -> D2\nconnect T -> D1\nconnect bad\n";
    assert_eq!(load_config(text), load_config(text));
}

#[test]
fn apply_line_reads_one_directive() {
    let mut config = Config::new();
    apply_line(&mut config, "connect A -> B");
    apply_line(&mut config, "ignore C");
    apply_line(&mut config, "connect A B");
    apply_line(&mut config, "");
    assert_eq!(config.connections, vec![route("A", &["B"])]);
    assert_eq!(config.ignore, vec!["C".to_string()]);
}

#[test]
fn add_connection_appends_or_extends() {
    let mut config = Config::new();
    config.add_connection("A".to_string(), "B".to_string());
    config.add_connection("C".to_string(), "D".to_string());
    config.add_connection("A".to_string(), "E".to_string());
    assert_eq!(config.connections, vec![route("A", &["B", "E"]), route("C", &["D"])]);
    assert_eq!(config.find_source(&"A".to_string()), 0);
    assert_eq!(config.find_source(&"C".to_string()), 1);
    assert_eq!(config.find_source(&"Z".to_string()), 2);
    config.add_ignore("X".to_string());
    assert_eq!(config.ignore, vec!["X".to_string()]);
}
