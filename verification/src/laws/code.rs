//! Laws of code blocks: what their info strings ask for, which syntax they get, and how they are
//! shown.

use crate::code_block;
use crate::code_block::{InfoView, MarkerField, MarkerView, SettingView, CODE_TABLE_END};
use crate::laws::strings;
use crate::syntaxes;
use crate::syntaxes::{Config, SpanStyle};
use crate::text;
use syntect::parsing::{SyntaxReference, SyntaxSet};
use vstd::prelude::*;

verus! {

// ---------------------------------------------------------------------------------------------
// Marker settings

/// One or more ASCII digits.
pub open spec fn are_digits(s: Seq<char>) -> bool {
    s.len() > 0 && forall|i: int| 0 <= i < s.len() ==> '0' <= (#[trigger] s[i]) && s[i] <= '9'
}

/// The words `mark<n>_start=<value>`, `mark<n>_end=<value>` and `mark<n>_class=<value>` set the start,
/// the end and the class of the marker number `n`.
pub proof fn lemma_setting_words(digits: Seq<char>, value: Seq<char>)
    requires
        are_digits(digits),
        !value.contains('\n'),
    ensures
        code_block::setting("mark"@ + digits + "_start="@ + value) == Some(
            SettingView { index: code_block::number(digits), field: MarkerField::Start, value },
        ),
        code_block::setting("mark"@ + digits + "_end="@ + value) == Some(
            SettingView { index: code_block::number(digits), field: MarkerField::End, value },
        ),
        code_block::setting("mark"@ + digits + "_class="@ + value) == Some(
            SettingView { index: code_block::number(digits), field: MarkerField::Class, value },
        ),
{
    assert(code_block::all_digits(digits));
    code_block::lemma_setting(digits, MarkerField::Start, value);
    code_block::lemma_setting(digits, MarkerField::End, value);
    code_block::lemma_setting(digits, MarkerField::Class, value);
}

/// A word has the form of a setting of the field with this name.
pub open spec fn is_written(
    word: Seq<char>,
    digits: Seq<char>,
    name: Seq<char>,
    value: Seq<char>,
) -> bool {
    &&& are_digits(digits)
    &&& !value.contains('\n')
    &&& word == "mark"@ + digits + "_"@ + name + "="@ + value
}

/// The name of a field, as it is written in a setting.
pub open spec fn field_name(field: MarkerField) -> Seq<char> {
    match field {
        MarkerField::Start => "start"@,
        MarkerField::End => "end"@,
        MarkerField::Class => "class"@,
    }
}

/// No other word is a setting.
pub proof fn lemma_no_other_settings(word: Seq<char>)
    ensures
        code_block::setting(word) matches Some(s) ==> exists|digits: Seq<char>|
            #[trigger] is_written(word, digits, field_name(s.field), s.value) && s.index
                == code_block::number(digits),
{
    code_block::lemma_setting_only(word);
    if let Some(s) = code_block::setting(word) {
        let digits = choose|digits: Seq<char>|
            #[trigger] code_block::is_setting_of(word, digits, s);
        let name = field_name(s.field);
        assert forall|i: int| 0 <= i < digits.len() implies '0' <= (#[trigger] digits[i])
            && digits[i] <= '9' by {
            assert(code_block::is_digit(digits[i]));
        }
        reveal_strlit("_start=");
        reveal_strlit("_end=");
        reveal_strlit("_class=");
        reveal_strlit("start");
        reveal_strlit("end");
        reveal_strlit("class");
        reveal_strlit("_");
        reveal_strlit("=");
        assert(code_block::field_text(s.field) =~= "_"@ + name + "="@);
        assert(word =~= "mark"@ + digits + "_"@ + name + "="@ + s.value);
        assert(is_written(word, digits, name, s.value));
    }
}

// ---------------------------------------------------------------------------------------------
// Infos

/// The markers that are used are those of the table that have a start and an end, each once and in
/// the order of the table.
pub proof fn lemma_used_markers(table: Seq<(nat, MarkerView)>)
    ensures
        code_block::complete_markers(table) == table.filter(
            |e: (nat, MarkerView)| e.1.start.len() > 0 && e.1.end.len() > 0,
        ).map_values(|e: (nat, MarkerView)| e.1),
    decreases table.len(),
{
    reveal(Seq::filter);
    let whole = |e: (nat, MarkerView)| e.1.start.len() > 0 && e.1.end.len() > 0;
    let second = |e: (nat, MarkerView)| e.1;
    if table.len() > 0 {
        let rest = table.drop_last();
        lemma_used_markers(rest);
        if whole(table.last()) {
            assert(rest.filter(whole).push(table.last()).map_values(second) =~= rest.filter(
                whole,
            ).map_values(second).push(table.last().1));
        }
    } else {
        assert(table.filter(whole).map_values(second) =~= seq![]);
    }
}

/// A table names no marker twice.
pub open spec fn names_once(table: Seq<(nat, MarkerView)>) -> bool {
    forall|j: int, k: int|
        0 <= j < k < table.len() ==> (#[trigger] table[j]).0 != (#[trigger] table[k]).0
}

/// No words make no table. A word that is no setting changes nothing. A setting changes one field of
/// the marker that it names and nothing else; a marker that it names first comes last in the table,
/// with its other fields empty.
pub proof fn lemma_one_word_more(words: Seq<Seq<char>>, word: Seq<char>)
    ensures
        code_block::marker_table(seq![]).len() == 0,
        names_once(code_block::marker_table(words)),
        ({
            let before = code_block::marker_table(words);
            let now = code_block::marker_table(words.push(word));
            match code_block::setting(word) {
                None => now == before,
                Some(s) => {
                    &&& forall|k: int|
                        0 <= k < before.len() && (#[trigger] before[k]).0 != s.index ==> now[k]
                            == before[k]
                    &&& forall|k: int|
                        0 <= k < before.len() && (#[trigger] before[k]).0 == s.index ==> now.len()
                            == before.len() && now[k].0 == s.index && now[k].1 == (match s.field {
                            MarkerField::Start => MarkerView { start: s.value, ..before[k].1 },
                            MarkerField::End => MarkerView { end: s.value, ..before[k].1 },
                            MarkerField::Class => MarkerView { class: s.value, ..before[k].1 },
                        })
                    &&& (forall|k: int| 0 <= k < before.len() ==> (#[trigger] before[k]).0 != s.index)
                        ==> {
                        &&& now.len() == before.len() + 1
                        &&& now.last().0 == s.index
                        &&& now.last().1.start == (if s.field is Start {
                            s.value
                        } else {
                            seq![]
                        })
                        &&& now.last().1.end == (if s.field is End {
                            s.value
                        } else {
                            seq![]
                        })
                        &&& now.last().1.class == (if s.field is Class {
                            s.value
                        } else {
                            seq![]
                        })
                    }
                },
            }
        }),
{
    code_block::lemma_last_setting_wins(words);
    assert(words.push(word).drop_last() =~= words);
    if let Some(s) = code_block::setting(word) {
        lemma_place(code_block::marker_table(words), s.index);
    }
}

/// Where a marker stands in a table.
proof fn lemma_place(table: Seq<(nat, MarkerView)>, index: nat)
    ensures
        match code_block::position(table, index) {
            Some(k) => 0 <= k < table.len() && table[k].0 == index,
            None => forall|k: int| 0 <= k < table.len() ==> (#[trigger] table[k]).0 != index,
        },
    decreases table.len(),
{
    if table.len() > 0 {
        lemma_place(table.drop_last(), index);
        if code_block::position(table, index) is None {
            assert forall|k: int| 0 <= k < table.len() implies (#[trigger] table[k]).0 != index by {
                if k < table.len() - 1 {
                    assert(table.drop_last()[k] == table[k]);
                }
            }
        }
    }
}

/// The markers of an info are the used ones of the table that its words make.
pub proof fn lemma_info_markers(words: Seq<Seq<char>>)
    ensures
        code_block::info_of(words).markers == code_block::marker_table(words).filter(
            |e: (nat, MarkerView)| e.1.start.len() > 0 && e.1.end.len() > 0,
        ).map_values(|e: (nat, MarkerView)| e.1),
{
    lemma_used_markers(code_block::marker_table(words));
}

/// The first word is the language; without words there is none.
pub proof fn lemma_language(words: Seq<Seq<char>>)
    ensures
        words.len() > 0 ==> code_block::info_of(words).language == words.first(),
        words.len() == 0 ==> code_block::info_of(words).language.len() == 0,
{
}

/// Lines are numbered exactly if one of the words is `line-numbers`.
pub proof fn lemma_line_numbers_asked(words: Seq<Seq<char>>)
    ensures
        code_block::info_of(words).line_numbers <==> exists|i: int|
            0 <= i < words.len() && #[trigger] words[i] == "line-numbers"@,
{
}

/// The title is what stands behind `title=` in the last word that begins so. There is none exactly if
/// no word does.
pub proof fn lemma_title(words: Seq<Seq<char>>)
    ensures
        match code_block::info_of(words).title {
            Some(title) => exists|i: int|
                {
                    &&& 0 <= i < words.len()
                    &&& #[trigger] words[i] == "title="@ + title
                    &&& forall|j: int, rest: Seq<char>|
                        i < j < words.len() ==> #[trigger] words[j] != #[trigger] ("title="@ + rest)
                },
            None => forall|j: int, rest: Seq<char>|
                0 <= j < words.len() ==> #[trigger] words[j] != #[trigger] ("title="@ + rest),
        },
    decreases words.len(),
{
    if words.len() > 0 {
        reveal_strlit("title=");
        let n = words.len() - 1;
        strings::lemma_starts_with(words[n], "title="@);
        if text::starts_with(words[n], "title="@) {
            let rest = choose|rest: Seq<char>| words[n] == #[trigger] ("title="@ + rest);
            assert(words[n].skip(6) =~= rest);
            assert(words[n] == "title="@ + rest);
        } else {
            let rest = words.drop_last();
            lemma_title(rest);
            match code_block::last_title(rest) {
                Some(title) => {
                    let i = choose|i: int|
                        {
                            &&& 0 <= i < rest.len()
                            &&& #[trigger] rest[i] == "title="@ + title
                            &&& forall|j: int, r: Seq<char>|
                                i < j < rest.len() ==> #[trigger] rest[j] != #[trigger] ("title="@
                                    + r)
                        };
                    assert(words[i] == "title="@ + title);
                    assert forall|j: int, r: Seq<char>| i < j < words.len() implies
                        #[trigger] words[j] != #[trigger] ("title="@ + r) by {
                        if j < n {
                            assert(rest[j] == words[j]);
                        }
                    }
                },
                None => {
                    assert forall|j: int, r: Seq<char>| 0 <= j < words.len() implies
                        #[trigger] words[j] != #[trigger] ("title="@ + r) by {
                        if j < n {
                            assert(rest[j] == words[j]);
                        }
                    }
                },
            }
        }
    }
}

/// An info string asks for what its words ask for. One with an open quote asks for nothing at all, and
/// is always understood; any other is understood exactly if the number of every marker that it sets
/// fits into a machine word.
pub proof fn lemma_info_strings(line: Seq<char>)
    ensures
        match code_block::shell_words(line) {
            Some(words) => {
                &&& code_block::line_info(line) == code_block::info_of(words)
                &&& code_block::has_info(line) <==> forall|i: int|
                    0 <= i < words.len() ==> match code_block::setting(#[trigger] words[i]) {
                        Some(s) => s.index <= usize::MAX,
                        None => true,
                    }
            },
            None => {
                let info = code_block::line_info(line);
                &&& code_block::has_info(line)
                &&& info.language.len() == 0
                &&& !info.line_numbers
                &&& info.title is None
                &&& info.markers.len() == 0
            },
        },
{
    if let Some(words) = code_block::shell_words(line) {
        if code_block::has_info(line) {
            assert forall|i: int| 0 <= i < words.len() implies match code_block::setting(
                #[trigger] words[i],
            ) {
                Some(s) => s.index <= usize::MAX,
                None => true,
            } by {
                assert(code_block::setting(words[i]) matches Some(s) ==> s.index <= usize::MAX);
            }
        }
    }
}

// ---------------------------------------------------------------------------------------------
// Marked code

/// Without markers code stays as it is. One marker more replaces, in what the others have made, its
/// start by `<span class="...">` with its class, and then its end by `</span>`.
pub proof fn lemma_markers(code: Seq<char>, markers: Seq<MarkerView>, m: MarkerView)
    ensures
        code_block::with_markers(code, seq![]) == code,
        code_block::with_markers(code, markers.push(m)) == text::replace_all(
            text::replace_all(
                code_block::with_markers(code, markers),
                m.start,
                "<span class=\""@ + m.class + "\">"@,
            ),
            m.end,
            "</span>"@,
        ),
{
    assert(markers.push(m).drop_last() =~= markers);
}

/// A passage between a start and an end that stand only there is wrapped into a span with the class
/// of the marker, and nothing else changes.
pub proof fn lemma_passage(before: Seq<char>, passage: Seq<char>, after: Seq<char>, m: MarkerView)
    requires
        m.start.len() > 0,
        m.end.len() > 0,
        text::find(before + m.start + (passage + m.end + after), m.start) == Some(
            before.len() as int,
        ),
        !text::contains(passage + m.end + after, m.start),
        ({
            let open = "<span class=\""@ + m.class + "\">"@;
            text::find(before + open + passage + m.end + after, m.end) == Some(
                (before + open + passage).len() as int,
            )
        }),
        !text::contains(after, m.end),
    ensures
        code_block::with_markers(before + m.start + (passage + m.end + after), seq![m]) == before
            + ("<span class=\""@ + m.class + "\">"@) + passage + "</span>"@ + after,
{
    code_block::lemma_marked(before, passage, after, m);
    let s = before + m.start + (passage + m.end + after);
    assert(seq![m].drop_last() =~= seq![]);
    assert(code_block::with_markers(s, seq![]) == s);
    assert(code_block::with_markers(s, seq![m]) == code_block::with_marker(s, m));
}

// ---------------------------------------------------------------------------------------------
// The table

/// The numbers of `n` lines, as they are written: from 1 on, each on a line of its own, in decimal.
/// The result are the numbers.
pub proof fn lemma_numbers(n: nat) -> (numbers: Seq<Seq<char>>)
    ensures
        numbers.len() == n,
        code_block::numbered_lines(n) == strings::join(
            numbers.push(Seq::<char>::empty()),
            "\n"@,
        ),
        forall|k: int|
            0 <= k < n ==> are_digits(#[trigger] numbers[k]) && numbers[k][0] != '0'
                && code_block::number(numbers[k]) == k + 1,
    decreases n,
{
    if n == 0 {
        let numbers = Seq::<Seq<char>>::empty();
        assert(numbers.push(Seq::<char>::empty())[0] =~= seq![]);
        numbers
    } else {
        let before = lemma_numbers((n - 1) as nat);
        let last = text::decimal(n);
        strings::lemma_decimal(n);
        let numbers = before.push(last);
        lemma_join_more(before, last, "\n"@);
        assert forall|k: int| 0 <= k < n implies are_digits(#[trigger] numbers[k]) && numbers[k][0]
            != '0' && code_block::number(numbers[k]) == k + 1 by {
            if k < n - 1 {
                assert(numbers[k] == before[k]);
            }
        }
        numbers
    }
}

/// One piece more in front of the empty last one.
proof fn lemma_join_more(pieces: Seq<Seq<char>>, last: Seq<char>, sep: Seq<char>)
    ensures
        strings::join(pieces.push(last).push(Seq::<char>::empty()), sep) == strings::join(
            pieces.push(Seq::<char>::empty()),
            sep,
        ) + last + sep,
    decreases pieces.len(),
{
    let none = Seq::<char>::empty();
    let more = pieces.push(last).push(none);
    let less = pieces.push(none);
    if pieces.len() == 0 {
        assert(more =~= seq![last] + seq![none]);
        strings::lemma_join_front(last, seq![none], sep);
        assert(strings::join(seq![none], sep) =~= none);
        assert(less =~= seq![none]);
        assert(last + sep + none =~= none + last + sep);
    } else {
        let rest = pieces.drop_first();
        lemma_join_more(rest, last, sep);
        assert(more =~= seq![pieces[0]] + rest.push(last).push(none));
        assert(less =~= seq![pieces[0]] + rest.push(none));
        strings::lemma_join_front(pieces[0], rest.push(last).push(none), sep);
        strings::lemma_join_front(pieces[0], rest.push(none), sep);
        let t = strings::join(rest.push(none), sep);
        assert(pieces[0] + sep + (t + last + sep) =~= (pieces[0] + sep + t) + last + sep);
    }
}

/// The table of a code block: a row with the title if there is one, a cell with the numbers of the
/// lines if they are asked for, one number for each line feed of the code, and the code with its
/// markers. Numbers of different lines are different. The result are the numbers.
pub proof fn lemma_table(info: InfoView, code: Seq<char>, highlighted: Seq<char>) -> (numbers: Seq<
    Seq<char>,
>)
    ensures
        numbers.len() == text::newlines(code),
        forall|k: int|
            0 <= k < numbers.len() ==> are_digits(#[trigger] numbers[k]) && code_block::number(
                numbers[k],
            ) == k + 1,
        forall|j: int, k: int|
            0 <= j < k < numbers.len() ==> #[trigger] numbers[j] != #[trigger] numbers[k],
        code_block::code_table(info, code, highlighted)
            == "<div class=\"mycode-block\"><table class=\"codeBox\"><tbody>"@ + (match info.title {
            Some(title) => "<tr><td class=\"codeTitle\" colspan=\"2\">"@ + title + "</td></tr>"@,
            None => Seq::<char>::empty(),
        }) + (if info.line_numbers {
            "<tr><td class=\"lineNumbers\"><div class=\"lineNumbersDiv\"><pre>"@ + strings::join(
                numbers.push(Seq::<char>::empty()),
                "\n"@,
            ) + "</pre></div></rd><td class=\"sourceCode\">"@
        } else {
            "<tr><td class=\"sourceCode sourceCodeWrap\">"@
        }) + "<pre class=\"code\">"@ + code_block::with_markers(highlighted, info.markers),
        CODE_TABLE_END@ == "</td></pre></tr></tbody></table></div>"@,
{
    let numbers = lemma_numbers(text::newlines(code));
    assert forall|j: int, k: int| 0 <= j < k < numbers.len() implies #[trigger] numbers[j]
        != #[trigger] numbers[k] by {
        assert(code_block::number(numbers[j]) == j + 1);
        assert(code_block::number(numbers[k]) == k + 1);
    }
    numbers
}

// ---------------------------------------------------------------------------------------------
// Syntaxes

/// A token stands for a syntax: it is one of its extensions, or its name but for the case of letters.
pub open spec fn stands_for(token: Seq<char>, syntax: SyntaxReference) -> bool {
    ||| syntaxes::syntax_extensions(syntax).contains(token)
    ||| {
        let name = syntaxes::syntax_name(syntax);
        name.len() == token.len() && forall|i: int|
            0 <= i < name.len() ==> strings::same_letter(#[trigger] name[i], token[i])
    }
}

/// A set has a syntax that a token stands for.
pub open spec fn knows(set: SyntaxSet, token: Seq<char>) -> bool {
    exists|i: int|
        0 <= i < syntaxes::set_syntaxes(set).len() && stands_for(
            token,
            #[trigger] syntaxes::set_syntaxes(set)[i],
        )
}

/// The last syntax with an extension is the last of the list that has it, and there is none exactly if
/// none has it.
pub proof fn lemma_last_by_extension(list: Seq<SyntaxReference>, extension: Seq<char>)
    ensures
        match syntaxes::last_by_extension(list, extension) {
            Some(s) => exists|i: int|
                {
                    &&& 0 <= i < list.len()
                    &&& #[trigger] list[i] == s
                    &&& syntaxes::syntax_extensions(s).contains(extension)
                    &&& forall|j: int|
                        i < j < list.len() ==> !syntaxes::syntax_extensions(
                            #[trigger] list[j],
                        ).contains(extension)
                },
            None => forall|j: int|
                0 <= j < list.len() ==> !syntaxes::syntax_extensions(#[trigger] list[j]).contains(
                    extension,
                ),
        },
    decreases list.len(),
{
    if list.len() > 0 {
        let n = list.len() - 1;
        assert(list.last() == list[n]);
        if !syntaxes::syntax_extensions(list[n]).contains(extension) {
            let rest = list.drop_last();
            lemma_last_by_extension(rest, extension);
            match syntaxes::last_by_extension(rest, extension) {
                Some(s) => {
                    let i = choose|i: int|
                        {
                            &&& 0 <= i < rest.len()
                            &&& #[trigger] rest[i] == s
                            &&& syntaxes::syntax_extensions(s).contains(extension)
                            &&& forall|j: int|
                                i < j < rest.len() ==> !syntaxes::syntax_extensions(
                                    #[trigger] rest[j],
                                ).contains(extension)
                        };
                    assert(list[i] == s);
                    assert forall|j: int| i < j < list.len() implies !syntaxes::syntax_extensions(
                        #[trigger] list[j],
                    ).contains(extension) by {
                        if j < n {
                            assert(rest[j] == list[j]);
                        }
                    }
                },
                None => {
                    assert forall|j: int| 0 <= j < list.len() implies !syntaxes::syntax_extensions(
                        #[trigger] list[j],
                    ).contains(extension) by {
                        if j < n {
                            assert(rest[j] == list[j]);
                        }
                    }
                },
            }
        }
    }
}

/// The last syntax with a name is the last of the list that has it, and there is none exactly if none
/// has it.
pub proof fn lemma_last_by_name(list: Seq<SyntaxReference>, name: Seq<char>)
    ensures
        match syntaxes::last_by_name(list, name) {
            Some(s) => exists|i: int|
                {
                    &&& 0 <= i < list.len()
                    &&& #[trigger] list[i] == s
                    &&& syntaxes::syntax_name(s) == name
                    &&& forall|j: int|
                        i < j < list.len() ==> syntaxes::syntax_name(#[trigger] list[j]) != name
                },
            None => forall|j: int|
                0 <= j < list.len() ==> syntaxes::syntax_name(#[trigger] list[j]) != name,
        },
    decreases list.len(),
{
    if list.len() > 0 {
        let n = list.len() - 1;
        assert(list.last() == list[n]);
        if syntaxes::syntax_name(list[n]) != name {
            let rest = list.drop_last();
            lemma_last_by_name(rest, name);
            match syntaxes::last_by_name(rest, name) {
                Some(s) => {
                    let i = choose|i: int|
                        {
                            &&& 0 <= i < rest.len()
                            &&& #[trigger] rest[i] == s
                            &&& syntaxes::syntax_name(s) == name
                            &&& forall|j: int|
                                i < j < rest.len() ==> syntaxes::syntax_name(#[trigger] rest[j])
                                    != name
                        };
                    assert(list[i] == s);
                    assert forall|j: int| i < j < list.len() implies syntaxes::syntax_name(
                        #[trigger] list[j],
                    ) != name by {
                        if j < n {
                            assert(rest[j] == list[j]);
                        }
                    }
                },
                None => {
                    assert forall|j: int| 0 <= j < list.len() implies syntaxes::syntax_name(
                        #[trigger] list[j],
                    ) != name by {
                        if j < n {
                            assert(rest[j] == list[j]);
                        }
                    }
                },
            }
        }
    }
}

proof fn lemma_last_but_case(list: Seq<SyntaxReference>, name: Seq<char>)
    ensures
        match syntaxes::last_by_name_but_case(list, name) {
            Some(s) => exists|i: int|
                {
                    &&& 0 <= i < list.len()
                    &&& #[trigger] list[i] == s
                    &&& text::same_but_case(syntaxes::syntax_name(s), name)
                    &&& forall|j: int|
                        i < j < list.len() ==> !text::same_but_case(
                            syntaxes::syntax_name(#[trigger] list[j]),
                            name,
                        )
                },
            None => forall|j: int|
                0 <= j < list.len() ==> !text::same_but_case(
                    syntaxes::syntax_name(#[trigger] list[j]),
                    name,
                ),
        },
    decreases list.len(),
{
    if list.len() > 0 {
        let n = list.len() - 1;
        assert(list.last() == list[n]);
        if !text::same_but_case(syntaxes::syntax_name(list[n]), name) {
            let rest = list.drop_last();
            lemma_last_but_case(rest, name);
            match syntaxes::last_by_name_but_case(rest, name) {
                Some(s) => {
                    let i = choose|i: int|
                        {
                            &&& 0 <= i < rest.len()
                            &&& #[trigger] rest[i] == s
                            &&& text::same_but_case(syntaxes::syntax_name(s), name)
                            &&& forall|j: int|
                                i < j < rest.len() ==> !text::same_but_case(
                                    syntaxes::syntax_name(#[trigger] rest[j]),
                                    name,
                                )
                        };
                    assert(list[i] == s);
                    assert forall|j: int| i < j < list.len() implies !text::same_but_case(
                        syntaxes::syntax_name(#[trigger] list[j]),
                        name,
                    ) by {
                        if j < n {
                            assert(rest[j] == list[j]);
                        }
                    }
                },
                None => {
                    assert forall|j: int| 0 <= j < list.len() implies !text::same_but_case(
                        syntaxes::syntax_name(#[trigger] list[j]),
                        name,
                    ) by {
                        if j < n {
                            assert(rest[j] == list[j]);
                        }
                    }
                },
            }
        }
    }
}

/// A token is looked up among the extensions first: the syntax is the last one that has it there. Only
/// if none has it there, the syntax is the last one that it names. There is none exactly if it stands
/// for none.
pub proof fn lemma_token(set: SyntaxSet, token: Seq<char>)
    ensures
        ({
            let list = syntaxes::set_syntaxes(set);
            let found = syntaxes::by_token(list, token);
            &&& found is Some <==> knows(set, token)
            &&& found matches Some(s) ==> list.contains(s) && stands_for(token, s)
            &&& forall|i: int|
                #![trigger list[i]]
                0 <= i < list.len() && syntaxes::syntax_extensions(list[i]).contains(token) && (
                forall|j: int|
                    i < j < list.len() ==> !syntaxes::syntax_extensions(
                        #[trigger] list[j],
                    ).contains(token)) ==> found == Some(list[i])
            &&& forall|i: int|
                #![trigger list[i]]
                0 <= i < list.len() && stands_for(token, list[i]) && (forall|j: int|
                    0 <= j < list.len() ==> !syntaxes::syntax_extensions(
                        #[trigger] list[j],
                    ).contains(token)) && (forall|j: int|
                    i < j < list.len() ==> !stands_for(token, #[trigger] list[j])) ==> found == Some(
                    list[i],
                )
        }),
{
    let list = syntaxes::set_syntaxes(set);
    lemma_last_by_extension(list, token);
    lemma_last_but_case(list, token);
    assert forall|i: int| 0 <= i < list.len() implies (stands_for(token, #[trigger] list[i]) <==> {
        ||| syntaxes::syntax_extensions(list[i]).contains(token)
        ||| text::same_but_case(syntaxes::syntax_name(list[i]), token)
    }) by {
        strings::lemma_same_but_case(syntaxes::syntax_name(list[i]), token);
    }
}

/// A language that the renderer's own set knows gets a syntax of that set, whatever the site adds.
pub proof fn lemma_own_set_first(lang: Seq<char>, config: Config)
    requires
        knows(config.syntax_set, lang),
    ensures
        syntaxes::highlighter(lang, config) matches Some((syntax, in_extra)) && !in_extra
            && syntaxes::set_syntaxes(config.syntax_set).contains(syntax) && stands_for(
            lang,
            syntax,
        ) && syntaxes::by_token(syntaxes::set_syntaxes(config.syntax_set), lang) == Some(syntax),
{
    lemma_token(config.syntax_set, lang);
}

/// The highlighter of a language that the renderer's own set knows is the same with any set that a
/// site adds, and without one.
pub proof fn lemma_added_set_does_not_matter(lang: Seq<char>, a: Config, b: Config)
    requires
        a.syntax_set == b.syntax_set,
        knows(a.syntax_set, lang),
    ensures
        syntaxes::highlighter(lang, a) == syntaxes::highlighter(lang, b),
{
    lemma_own_set_first(lang, a);
    lemma_own_set_first(lang, b);
}

/// A language that only the site's own set knows gets the syntax of that set.
pub proof fn lemma_added_set_second(lang: Seq<char>, config: Config, extra: SyntaxSet)
    requires
        !knows(config.syntax_set, lang),
        config.extra_syntax_set == Some(extra),
        knows(extra, lang),
    ensures
        syntaxes::highlighter(lang, config) matches Some((syntax, in_extra)) && in_extra
            && syntaxes::set_syntaxes(extra).contains(syntax) && stands_for(lang, syntax)
            && syntaxes::by_token(syntaxes::set_syntaxes(extra), lang) == Some(syntax),
{
    lemma_token(config.syntax_set, lang);
    lemma_token(extra, lang);
}

/// A language that neither set knows is plain text: the last syntax of the renderer's own set with that
/// name. There is no highlighter exactly if there is no such syntax either.
pub proof fn lemma_plain_text_last(lang: Seq<char>, config: Config)
    requires
        !knows(config.syntax_set, lang),
        config.extra_syntax_set matches Some(extra) ==> !knows(extra, lang),
    ensures
        match syntaxes::highlighter(lang, config) {
            Some((syntax, in_extra)) => {
                let list = syntaxes::set_syntaxes(config.syntax_set);
                &&& !in_extra
                &&& syntaxes::syntax_name(syntax) == "Plain Text"@
                &&& exists|i: int|
                    {
                        &&& 0 <= i < list.len()
                        &&& #[trigger] list[i] == syntax
                        &&& forall|j: int|
                            i < j < list.len() ==> syntaxes::syntax_name(#[trigger] list[j])
                                != "Plain Text"@
                    }
            },
            None => forall|j: int|
                0 <= j < syntaxes::set_syntaxes(config.syntax_set).len() ==> syntaxes::syntax_name(
                    #[trigger] syntaxes::set_syntaxes(config.syntax_set)[j],
                ) != "Plain Text"@,
        },
{
    lemma_token(config.syntax_set, lang);
    if let Some(extra) = config.extra_syntax_set {
        lemma_token(extra, lang);
    }
    lemma_last_by_name(syntaxes::set_syntaxes(config.syntax_set), "Plain Text"@);
}

/// Code in a language of the site's own set is highlighted with that set, any other code with the
/// renderer's own.
pub proof fn lemma_sets(config: Config)
    ensures
        syntaxes::highlighter_set(true, config) == config.extra_syntax_set,
        syntaxes::highlighter_set(false, config) == Some(config.syntax_set),
{
}

/// The highlighter is given the lines of the code, each with a line feed behind it, and writes the
/// classes as the style sheet has them.
pub proof fn lemma_code_lines(code: Seq<char>)
    ensures
        syntaxes::code_lines(code).len() == text::lines(code).len(),
        forall|k: int|
            0 <= k < text::lines(code).len() ==> #[trigger] syntaxes::code_lines(code)[k]
                == text::lines(code)[k] + seq!['\n'],
        syntaxes::code_style() == SpanStyle::Spaced,
{
    assert forall|k: int| 0 <= k < text::lines(code).len() implies #[trigger] syntaxes::code_lines(
        code,
    )[k] == text::lines(code)[k] + seq!['\n'] by {
        assert(text::lines(code)[k].push('\n') =~= text::lines(code)[k] + seq!['\n']);
    }
}

} // verus!
