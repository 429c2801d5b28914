//! Syntax highlighting: which syntax a language name stands for, and code written with it.

use crate::text;
use syntect::highlighting::Theme;
use syntect::html::{css_for_theme_with_class_style, ClassStyle, ClassedHTMLGenerator};
use syntect::parsing::{SyntaxReference, SyntaxSet};
use vstd::prelude::*;

verus! {

#[verifier::external_type_specification]
#[verifier::external_body]
pub struct ExSyntaxSet(syntect::parsing::SyntaxSet);

#[verifier::external_type_specification]
#[verifier::external_body]
pub struct ExSyntaxReference(syntect::parsing::SyntaxReference);

#[verifier::external_type_specification]
#[verifier::external_body]
pub struct ExClassedHTMLGenerator<'a>(syntect::html::ClassedHTMLGenerator<'a>);

#[verifier::external_type_specification]
#[verifier::external_body]
pub struct ExTheme(syntect::highlighting::Theme);

// ---------------------------------------------------------------------------------------------
// Sets of syntaxes

/// The syntaxes of a set, in its order.
pub uninterp spec fn set_syntaxes(set: syntect::parsing::SyntaxSet) -> Seq<SyntaxReference>;

/// The name of a syntax.
pub uninterp spec fn syntax_name(syntax: syntect::parsing::SyntaxReference) -> Seq<char>;

/// The file extensions of a syntax.
pub uninterp spec fn syntax_extensions(syntax: syntect::parsing::SyntaxReference) -> Seq<Seq<char>>;

/// Whether a set can be highlighted with: each of its syntaxes has a context to start in, the contexts
/// that their patterns lead to are in the set, their patterns compile, scopes are restored only after
/// they were cleared, and no line keeps them going for ever.
pub uninterp spec fn set_is_sound(set: syntect::parsing::SyntaxSet) -> bool;

/// `SyntaxSet::load_defaults_newlines`: the syntaxes that come with `syntect`, which can be highlighted
/// with.
#[verifier::external_body]
fn default_syntaxes() -> (r: SyntaxSet)
    ensures
        set_is_sound(r),
{
    SyntaxSet::load_defaults_newlines()
}

/// The last syntax of a list with the given extension.
pub open spec fn last_by_extension(
    syntaxes: Seq<SyntaxReference>,
    extension: Seq<char>,
) -> Option<SyntaxReference>
    decreases syntaxes.len(),
{
    if syntaxes.len() == 0 {
        None
    } else if syntax_extensions(syntaxes.last()).contains(extension) {
        Some(syntaxes.last())
    } else {
        last_by_extension(syntaxes.drop_last(), extension)
    }
}

/// The last syntax of a list with the given name.
pub open spec fn last_by_name(syntaxes: Seq<SyntaxReference>, name: Seq<char>) -> Option<
    SyntaxReference,
>
    decreases syntaxes.len(),
{
    if syntaxes.len() == 0 {
        None
    } else if syntax_name(syntaxes.last()) == name {
        Some(syntaxes.last())
    } else {
        last_by_name(syntaxes.drop_last(), name)
    }
}

/// The last syntax of a list whose name is the given one but for the case of its letters.
pub open spec fn last_by_name_but_case(syntaxes: Seq<SyntaxReference>, name: Seq<char>) -> Option<
    SyntaxReference,
>
    decreases syntaxes.len(),
{
    if syntaxes.len() == 0 {
        None
    } else if text::same_but_case(syntax_name(syntaxes.last()), name) {
        Some(syntaxes.last())
    } else {
        last_by_name_but_case(syntaxes.drop_last(), name)
    }
}

/// The syntax that a token stands for: the last one with that extension, or else the last one with
/// that name in any case.
pub open spec fn by_token(syntaxes: Seq<SyntaxReference>, token: Seq<char>) -> Option<
    SyntaxReference,
> {
    match last_by_extension(syntaxes, token) {
        Some(syntax) => Some(syntax),
        None => last_by_name_but_case(syntaxes, token),
    }
}

/// What a reference that may be missing points to.
pub open spec fn pointee(r: Option<&SyntaxReference>) -> Option<SyntaxReference> {
    match r {
        Some(syntax) => Some(*syntax),
        None => None,
    }
}

/// `SyntaxSet::find_syntax_by_token`: searches the set from its end, first for the token as an
/// extension, then for the token as a name in any case.
#[verifier::external_body]
fn find_by_token<'a>(set: &'a SyntaxSet, token: &str) -> (r: Option<&'a SyntaxReference>)
    ensures
        pointee(r) == by_token(set_syntaxes(*set), token@),
        r matches Some(s) ==> (syntax_extensions(*s).contains(token@) || text::same_but_case(
            syntax_name(*s),
            token@,
        )),
{
    set.find_syntax_by_token(token)
}

/// `SyntaxSet::find_syntax_by_name`: searches the set from its end for the name.
#[verifier::external_body]
fn find_by_name<'a>(set: &'a SyntaxSet, name: &str) -> (r: Option<&'a SyntaxReference>)
    ensures
        pointee(r) == last_by_name(set_syntaxes(*set), name@),
{
    set.find_syntax_by_name(name)
}

/// `SyntaxSet::find_syntax_plain_text`: the last syntax named `Plain Text`. Without one it panics.
#[verifier::external_body]
fn find_plain_text<'a>(set: &'a SyntaxSet) -> (r: &'a SyntaxReference)
    requires
        last_by_name(set_syntaxes(*set), "Plain Text"@) is Some,
    ensures
        Some(*r) == last_by_name(set_syntaxes(*set), "Plain Text"@),
{
    set.find_syntax_plain_text()
}

/// `SyntaxReference::clone` copies every field.
pub assume_specification[ <syntect::parsing::SyntaxReference as Clone>::clone ](
    syntax: &syntect::parsing::SyntaxReference,
) -> (r: syntect::parsing::SyntaxReference)
    ensures
        r == *syntax,
;

// ---------------------------------------------------------------------------------------------
// Choosing a syntax

/// How code is highlighted.
pub struct Config {
    /// Whether code is highlighted at all.
    pub highlight_code: bool,
    /// The syntaxes that come with the renderer.
    pub syntax_set: SyntaxSet,
    /// The syntaxes that a site adds.
    pub extra_syntax_set: Option<SyntaxSet>,
}

/// If code is highlighted, the sets can be highlighted with.
pub open spec fn config_is_sound(config: Config) -> bool {
    config.highlight_code ==> {
        &&& set_is_sound(config.syntax_set)
        &&& config.extra_syntax_set matches Some(extra) ==> set_is_sound(extra)
    }
}

impl Config {
    /// The way code is highlighted with the syntaxes that come with `syntect`.
    pub fn with_default_syntaxes(highlight_code: bool) -> (r: Config)
        ensures
            r.highlight_code == highlight_code,
            r.extra_syntax_set is None,
            set_is_sound(r.syntax_set),
            config_is_sound(r),
    {
        Config { highlight_code, syntax_set: default_syntaxes(), extra_syntax_set: None }
    }
}

/// The syntax that the site's own set has for a language.
pub open spec fn extra_syntax(config: Config, lang: Seq<char>) -> Option<SyntaxReference> {
    match config.extra_syntax_set {
        Some(extra) => by_token(set_syntaxes(extra), lang),
        None => None,
    }
}

/// The highlighter of a language, and whether it comes from the site's own set: the syntax of the
/// renderer's set, or else that of the site's own set, or else plain text.
pub open spec fn highlighter(lang: Seq<char>, config: Config) -> Option<(SyntaxReference, bool)> {
    match by_token(set_syntaxes(config.syntax_set), lang) {
        Some(syntax) => Some((syntax, false)),
        None => match extra_syntax(config, lang) {
            Some(syntax) => Some((syntax, true)),
            None => match last_by_name(set_syntaxes(config.syntax_set), "Plain Text"@) {
                Some(syntax) => Some((syntax, false)),
                None => None,
            },
        },
    }
}

/// The set that a highlighter belongs to.
pub open spec fn highlighter_set(in_extra: bool, config: Config) -> Option<SyntaxSet> {
    if in_extra {
        config.extra_syntax_set
    } else {
        Some(config.syntax_set)
    }
}

/// Whether a language has a highlighter.
pub fn has_highlighter(lang: &str, config: &Config) -> (r: bool)
    ensures
        r == (highlighter(lang@, *config) is Some),
{
    if find_by_token(&config.syntax_set, lang).is_some() {
        return true;
    }
    if let Some(extra) = &config.extra_syntax_set {
        if find_by_token(extra, lang).is_some() {
            return true;
        }
    }
    find_by_name(&config.syntax_set, "Plain Text").is_some()
}

/// Returns the highlighter and whether it was found in the extra or not.
pub fn get_highlighter(lang: &str, config: &Config) -> (r: (SyntaxReference, bool))
    requires
        highlighter(lang@, *config) is Some,
    ensures
        highlighter(lang@, *config) == Some(r),
{
    if let Some(syntax) = find_by_token(&config.syntax_set, lang) {
        return (syntax.clone(), false);
    }
    if let Some(extra) = &config.extra_syntax_set {
        if let Some(syntax) = find_by_token(extra, lang) {
            return (syntax.clone(), true);
        }
    }
    (find_plain_text(&config.syntax_set).clone(), false)
}

proof fn lemma_last_is_member(syntaxes: Seq<SyntaxReference>, name: Seq<char>)
    ensures
        last_by_extension(syntaxes, name) matches Some(s) ==> syntaxes.contains(s),
        last_by_name(syntaxes, name) matches Some(s) ==> syntaxes.contains(s),
        last_by_name_but_case(syntaxes, name) matches Some(s) ==> syntaxes.contains(s),
    decreases syntaxes.len(),
{
    if syntaxes.len() > 0 {
        let rest = syntaxes.drop_last();
        lemma_last_is_member(rest, name);
        assert(syntaxes[syntaxes.len() - 1] == syntaxes.last());
        assert forall|s: SyntaxReference| rest.contains(s) implies syntaxes.contains(s) by {
            let i = choose|i: int| 0 <= i < rest.len() && rest[i] == s;
            assert(syntaxes[i] == s);
        }
    }
}

/// A highlighter is a syntax of the set that it is said to come from.
pub proof fn lemma_highlighter_in_its_set(lang: Seq<char>, config: Config)
    ensures
        highlighter(lang, config) matches Some((syntax, in_extra)) ==> {
            &&& highlighter_set(in_extra, config) is Some
            &&& set_syntaxes(highlighter_set(in_extra, config)->0).contains(syntax)
        },
{
    lemma_last_is_member(set_syntaxes(config.syntax_set), lang);
    lemma_last_is_member(set_syntaxes(config.syntax_set), "Plain Text"@);
    if let Some(extra) = config.extra_syntax_set {
        lemma_last_is_member(set_syntaxes(extra), lang);
    }
}

// ---------------------------------------------------------------------------------------------
// Highlighting

/// How the scopes of a piece of code are written as classes: with a space between each two, and with
/// a prefix before each or without one.
#[derive(Clone, Copy)]
pub enum SpanStyle {
    Spaced,
    SpacedPrefixed(&'static str),
}

/// How classes are written in highlighted code, and in the style sheet that goes with it.
pub open spec fn code_style() -> SpanStyle {
    SpanStyle::Spaced
}

/// The HTML that `syntect` writes for lines of code in a syntax of a set, its spans classed by
/// scope.
pub uninterp spec fn classed_html(
    syntax: syntect::parsing::SyntaxReference,
    set: syntect::parsing::SyntaxSet,
    style: SpanStyle,
    lines: Seq<Seq<char>>,
) -> Seq<char>;

/// The syntax that a generator highlights with.
pub uninterp spec fn generator_syntax(
    generator: syntect::html::ClassedHTMLGenerator,
) -> SyntaxReference;

/// The set that a generator works with.
pub uninterp spec fn generator_set(generator: syntect::html::ClassedHTMLGenerator) -> SyntaxSet;

/// How a generator writes classes.
pub uninterp spec fn generator_style(generator: syntect::html::ClassedHTMLGenerator) -> SpanStyle;

/// The lines that a generator was given.
pub uninterp spec fn generator_lines(generator: syntect::html::ClassedHTMLGenerator) -> Seq<
    Seq<char>,
>;

/// `ClassedHTMLGenerator::new_with_class_style`: a generator that was given no line yet. A syntax
/// only works with the set that it belongs to, and panics without a context to start in.
#[verifier::external_body]
fn new_generator<'a>(syntax: &'a SyntaxReference, set: &'a SyntaxSet, style: SpanStyle) -> (r:
    ClassedHTMLGenerator<'a>)
    requires
        set_is_sound(*set),
        set_syntaxes(*set).contains(*syntax),
    ensures
        generator_syntax(r) == *syntax,
        generator_set(r) == *set,
        generator_style(r) == style,
        generator_lines(r) == Seq::<Seq<char>>::empty(),
{
    let style = match style {
        SpanStyle::Spaced => ClassStyle::Spaced,
        SpanStyle::SpacedPrefixed(prefix) => ClassStyle::SpacedPrefixed { prefix },
    };
    ClassedHTMLGenerator::new_with_class_style(syntax, set, style)
}

/// `ClassedHTMLGenerator::parse_html_for_line_which_includes_newline`: gives the generator one more
/// line.
#[verifier::external_body]
fn add_line(generator: &mut ClassedHTMLGenerator, line: &str)
    requires
        set_is_sound(generator_set(*old(generator))),
    ensures
        generator_syntax(*final(generator)) == generator_syntax(*old(generator)),
        generator_set(*final(generator)) == generator_set(*old(generator)),
        generator_style(*final(generator)) == generator_style(*old(generator)),
        generator_lines(*final(generator)) == generator_lines(*old(generator)).push(line@),
{
    generator.parse_html_for_line_which_includes_newline(line)
}

/// `ClassedHTMLGenerator::finalize`: the HTML of the lines that the generator was given.
#[verifier::external_body]
fn finish_lines(generator: ClassedHTMLGenerator) -> (r: String)
    ensures
        r@ == classed_html(
            generator_syntax(generator),
            generator_set(generator),
            generator_style(generator),
            generator_lines(generator),
        ),
{
    generator.finalize()
}

/// The lines of code as the highlighter takes them: each ends in a line feed.
pub open spec fn code_lines(code: Seq<char>) -> Seq<Seq<char>> {
    text::lines(code).map_values(|line: Seq<char>| line.push('\n'))
}

/// Highlights code line by line.
pub fn highlight(syntax: &SyntaxReference, set: &SyntaxSet, code: &str) -> (r: String)
    requires
        set_is_sound(*set),
        set_syntaxes(*set).contains(*syntax),
    ensures
        r@ == classed_html(*syntax, *set, code_style(), code_lines(code@)),
{
    let lines = text::lines_of(code);
    let mut generator = new_generator(syntax, set, SpanStyle::Spaced);
    let mut i: usize = 0;
    let ghost all = code_lines(code@);
    assert(all.take(0) =~= Seq::<Seq<char>>::empty());
    while i < lines.len()
        invariant
            i <= lines@.len(),
            text::texts(lines@) == text::lines(code@),
            all == code_lines(code@),
            generator_syntax(generator) == *syntax,
            set_is_sound(*set),
            generator_set(generator) == *set,
            generator_style(generator) == code_style(),
            generator_lines(generator) == all.take(i as int),
        decreases lines@.len() - i,
    {
        let mut line = lines[i].clone();
        line.push('\n');
        assert(text::texts(lines@)[i as int] == lines@[i as int]@);
        add_line(&mut generator, line.as_str());
        assert(all.take(i + 1) =~= all.take(i as int).push(line@));
        i = i + 1;
    }
    assert(text::texts(lines@).len() == lines@.len());
    assert(all.take(i as int) =~= all);
    finish_lines(generator)
}

// ---------------------------------------------------------------------------------------------
// Themes

/// The style sheet that `syntect` writes for a theme.
pub uninterp spec fn theme_css(theme: syntect::highlighting::Theme, style: SpanStyle) -> Seq<char>;

/// `css_for_theme_with_class_style`: the style sheet of a theme.
#[verifier::external_body]
fn write_css(theme: &Theme, style: SpanStyle) -> (r: String)
    ensures
        r@ == theme_css(*theme, style),
{
    let style = match style {
        SpanStyle::Spaced => ClassStyle::Spaced,
        SpanStyle::SpacedPrefixed(prefix) => ClassStyle::SpacedPrefixed { prefix },
    };
    css_for_theme_with_class_style(theme, style)
}

/// The style sheet of a theme, with the classes that highlighted code has.
pub fn get_css(theme: &Theme) -> (r: String)
    ensures
        r@ == theme_css(*theme, code_style()),
{
    write_css(theme, SpanStyle::Spaced)
}

} // verus!
