use regex::Regex;
use rendering::code_block::{
    check_info, info_from_words, parse_info, read_setting, write_code_table, CodeBlockInfo,
    CodeMarker, MarkerField, Reading,
};

fn marker(start: &str, end: &str, class: &str) -> CodeMarker {
    CodeMarker { start: start.to_string(), end: end.to_string(), class: class.to_string() }
}

fn markers_of(info: &CodeBlockInfo) -> Vec<(&str, &str, &str)> {
    info.markers.iter().map(|m| (m.start.as_str(), m.end.as_str(), m.class.as_str())).collect()
}

#[test]
fn info_of_a_language() {
    let info = parse_info("rust");
    assert_eq!(info.language, "rust");
    assert!(!info.line_numbers);
    assert_eq!(info.title, None);
    assert!(info.markers.is_empty());
}

#[test]
fn info_of_nothing() {
    let info = parse_info("");
    assert_eq!(info.language, "");
    assert!(!info.line_numbers);
    assert_eq!(info.title, None);
    assert!(info.markers.is_empty());
}

#[test]
fn info_with_everything() {
    let info = parse_info(
        "rust line-numbers title='My code' mark2_start=<< mark2_end=>> mark2_class=hi mark1_start=[",
    );
    assert_eq!(info.language, "rust");
    assert!(info.line_numbers);
    assert_eq!(info.title.as_deref(), Some("My code"));
    assert_eq!(markers_of(&info), [("<<", ">>", "hi")]);
}

#[test]
fn quotes_keep_words_together() {
    let info = parse_info("\"c plus plus\" title=\"a b\"");
    assert_eq!(info.language, "c plus plus");
    assert_eq!(info.title.as_deref(), Some("a b"));
}

#[test]
fn open_quotes_ask_for_nothing() {
    let info = parse_info("rust line-numbers title='oops");
    assert_eq!(info.language, "");
    assert!(!info.line_numbers);
    assert_eq!(info.title, None);
    assert!(info.markers.is_empty());
}

#[test]
fn first_word_is_the_language_whatever_it_says() {
    let info = parse_info("title=x");
    assert_eq!(info.language, "title=x");
    assert_eq!(info.title.as_deref(), Some("x"));
    let info = parse_info("line-numbers");
    assert_eq!(info.language, "line-numbers");
    assert!(info.line_numbers);
}

#[test]
fn last_title_and_last_setting_win() {
    let info = parse_info(
        "x title=a mark1_start=a mark1_end=b title=b mark1_start=c mark01_class=d",
    );
    assert_eq!(info.title.as_deref(), Some("b"));
    assert_eq!(markers_of(&info), [("c", "b", "d")]);
}

#[test]
fn markers_without_start_or_end_are_dropped() {
    assert!(parse_info("x mark1_start=a").markers.is_empty());
    assert!(parse_info("x mark1_end=a mark1_class=b").markers.is_empty());
    assert!(parse_info("x mark1_start= mark1_end=a").markers.is_empty());
    assert_eq!(parse_info("x mark1_start=a mark1_end=b").markers.len(), 1);
}

#[test]
fn other_words_ask_for_nothing() {
    let info = parse_info("x linenos mark_start=a mark1_foo=b Title=c line-numbers=1");
    assert_eq!(info.language, "x");
    assert!(!info.line_numbers);
    assert_eq!(info.title, None);
    assert!(info.markers.is_empty());
}

#[test]
fn marker_numbers_must_fit() {
    assert!(check_info("x mark18446744073709551615_start=a"));
    assert!(!check_info("x mark18446744073709551616_start=a"));
    assert!(!check_info("x mark99999999999999999999999999_end=a"));
    assert!(check_info("x mark99999999999999999999999999_foo=a"));
    assert!(check_info("x 'mark99999999999999999999999999_end=a"));
    let words = vec!["x".to_string(), "mark99999999999999999999999999_end=a".to_string()];
    assert!(info_from_words(&words).is_none());
}

#[test]
fn settings_follow_their_pattern() {
    let pattern =
        Regex::new(r"^mark(?P<index>[0-9]+)_(?P<field>(start|end|class))=(?P<value>.*)$").unwrap();
    let words = [
        "", "mark", "mark1", "mark1_start", "mark1_start=", "mark1_start=a", "mark12_end=a=b",
        "mark007_class= x ", "mark_start=a", "marka_start=a", "mark1_begin=a", "mark1start=a",
        " mark1_start=a", "mark1_start=a\nb", "mark1_start=\n", "mark1_start=a\rb", "Mark1_start=a",
        "mark1_endx=a", "mark1_class=\u{e9}", "mark\u{663}_start=a",
    ];
    for word in words.iter() {
        match (read_setting(word), pattern.captures(word)) {
            (Reading::Absent, None) => {}
            (Reading::Present(s), Some(c)) => {
                assert_eq!(s.index, c["index"].parse::<usize>().unwrap());
                let field = match s.field {
                    MarkerField::Start => "start",
                    MarkerField::End => "end",
                    MarkerField::Class => "class",
                };
                assert_eq!(field, &c["field"]);
                assert_eq!(s.value, &c["value"]);
            }
            _ => panic!("{:?}", word),
        }
    }
    assert!(matches!(read_setting("mark18446744073709551616_end=a"), Reading::TooLarge));
}

#[test]
fn markers_become_spans() {
    let info = CodeBlockInfo {
        language: String::new(),
        line_numbers: false,
        title: None,
        markers: vec![marker("<<", ">>", "hi"), marker("[", "]", "lo")],
    };
    assert_eq!(
        info.substitute_markers("a <<b>> [c] <<d>>".to_string()),
        "a <span class=\"hi\">b</span> <span class=\"lo\">c</span> <span class=\"hi\">d</span>"
    );
    assert_eq!(info.substitute_markers("plain".to_string()), "plain");
}

#[test]
fn later_markers_see_what_earlier_ones_wrote() {
    let info = CodeBlockInfo {
        language: String::new(),
        line_numbers: false,
        title: None,
        markers: vec![marker("(", ")", "x"), marker("span", "!", "y")],
    };
    assert_eq!(
        info.substitute_markers("(a)".to_string()),
        "<<span class=\"y\"> class=\"x\">a</<span class=\"y\">>"
    );
}

#[test]
fn table_without_anything() {
    assert_eq!(
        write_code_table(&CodeBlockInfo::default(), "a\n", "A".to_string()),
        "<div class=\"mycode-block\"><table class=\"codeBox\"><tbody>\
         <tr><td class=\"sourceCode sourceCodeWrap\"><pre class=\"code\">A"
    );
}

#[test]
fn table_with_title_and_line_numbers() {
    let info = CodeBlockInfo {
        language: "x".to_string(),
        line_numbers: true,
        title: Some("T".to_string()),
        markers: Vec::new(),
    };
    assert_eq!(
        write_code_table(&info, "a\nb\nc", "A".to_string()),
        "<div class=\"mycode-block\"><table class=\"codeBox\"><tbody>\
         <tr><td class=\"codeTitle\" colspan=\"2\">T</td></tr>\
         <tr><td class=\"lineNumbers\"><div class=\"lineNumbersDiv\"><pre>1\n2\n</pre></div></rd>\
         <td class=\"sourceCode\"><pre class=\"code\">A"
    );
}
