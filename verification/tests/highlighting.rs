use rendering::syntaxes::{get_css, get_highlighter, has_highlighter, highlight, Config};
use syntect::highlighting::ThemeSet;
use syntect::html::{css_for_theme_with_class_style, ClassStyle, ClassedHTMLGenerator};
use syntect::parsing::{SyntaxDefinition, SyntaxSet, SyntaxSetBuilder};

fn own_set() -> SyntaxSet {
    let source = "name: Mine\nfile_extensions: [mine, rs]\nscope: source.mine\ncontexts:\n  main:\n    - match: 'x'\n      scope: keyword.mine\n";
    let mut builder = SyntaxSetBuilder::new();
    builder.add(SyntaxDefinition::load_from_str(source, true, None).unwrap());
    builder.build()
}

fn config(extra: Option<SyntaxSet>) -> Config {
    Config { extra_syntax_set: extra, ..Config::with_default_syntaxes(true) }
}

#[test]
fn languages_by_extension_and_by_name() {
    let config = config(None);
    let (syntax, in_extra) = get_highlighter("rs", &config);
    assert_eq!((syntax.name.as_str(), in_extra), ("Rust", false));
    let (syntax, in_extra) = get_highlighter("rUsT", &config);
    assert_eq!((syntax.name.as_str(), in_extra), ("Rust", false));
}

#[test]
fn unknown_languages_are_plain_text() {
    let config = config(Some(own_set()));
    let (syntax, in_extra) = get_highlighter("no such language", &config);
    assert_eq!((syntax.name.as_str(), in_extra), ("Plain Text", false));
    let (syntax, _) = get_highlighter("", &config);
    assert_eq!(syntax.name, "Plain Text");
}

#[test]
fn the_site_adds_languages_but_replaces_none() {
    let config = config(Some(own_set()));
    let (syntax, in_extra) = get_highlighter("mine", &config);
    assert_eq!((syntax.name.as_str(), in_extra), ("Mine", true));
    let (syntax, in_extra) = get_highlighter("MINE", &config);
    assert_eq!((syntax.name.as_str(), in_extra), ("Mine", true));
    let (syntax, in_extra) = get_highlighter("rs", &config);
    assert_eq!((syntax.name.as_str(), in_extra), ("Rust", false));
}

#[test]
fn the_last_syntax_with_an_extension_counts() {
    let mut builder = SyntaxSetBuilder::new();
    for name in ["One", "Two"].iter() {
        let source = format!(
            "name: {}\nfile_extensions: [q]\nscope: source.q\ncontexts:\n  main: []\n",
            name
        );
        builder.add(SyntaxDefinition::load_from_str(&source, true, None).unwrap());
    }
    let config =
        Config { highlight_code: true, syntax_set: builder.build(), extra_syntax_set: None };
    assert_eq!(get_highlighter("q", &config).0.name, "Two");
    assert_eq!(get_highlighter("one", &config).0.name, "One");
}

#[test]
fn without_plain_text_a_language_may_have_no_highlighter() {
    let config =
        Config { highlight_code: true, syntax_set: own_set(), extra_syntax_set: None };
    assert!(has_highlighter("mine", &config));
    assert!(!has_highlighter("rust", &config));
}

#[test]
fn default_syntaxes_are_there() {
    let config = Config::with_default_syntaxes(false);
    assert!(!config.highlight_code);
    assert!(config.extra_syntax_set.is_none());
    assert!(has_highlighter("rust", &config));
    assert!(has_highlighter("no such language", &config));
    assert!(config.syntax_set.find_unlinked_contexts().is_empty());
}

#[test]
fn plain_text_is_one_span() {
    let config = config(None);
    let (syntax, _) = get_highlighter("txt", &config);
    assert_eq!(
        highlight(&syntax, &config.syntax_set, "a <b>\nc"),
        "<span class=\"text plain\">a &lt;b&gt;\nc\n</span>"
    );
    assert_eq!(highlight(&syntax, &config.syntax_set, ""), "");
}

#[test]
fn code_is_highlighted_line_by_line() {
    let config = config(None);
    let (syntax, _) = get_highlighter("rust", &config);
    let code = "/* a\n b */ let x = \"y\";\r\n\nfn f() {}";
    let mut generator = ClassedHTMLGenerator::new_with_class_style(
        &syntax,
        &config.syntax_set,
        ClassStyle::Spaced,
    );
    for line in code.lines() {
        generator.parse_html_for_line_which_includes_newline(&format!("{}\n", line));
    }
    let html = highlight(&syntax, &config.syntax_set, code);
    assert_eq!(html, generator.finalize());
    assert!(html.contains("<span class=\"storage type rust\">let</span>"));
}

#[test]
fn style_sheet_of_a_theme() {
    let themes = ThemeSet::load_defaults();
    let theme = &themes.themes["base16-ocean.dark"];
    let css = get_css(theme);
    assert_eq!(css, css_for_theme_with_class_style(theme, ClassStyle::Spaced));
    assert!(css.contains(".code {\n color: #c0c5ce;\n background-color: #2b303b;\n}"));
}
