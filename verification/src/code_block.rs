//! Fenced code blocks: what their info string asks for, and the table that shows the code.
//!
//! An info string is a list of words. The first names the language; `title=...` gives the block a
//! title, `line-numbers` numbers its lines, and `mark<n>_start=...`, `mark<n>_end=...` and
//! `mark<n>_class=...` together describe the marker number `n`: what opens and what closes a
//! marked passage, and the class that the passage gets.

use crate::text;
use vstd::prelude::*;

verus! {

#[verifier::external_type_specification]
#[verifier::external_body]
pub struct ExMismatchedQuotes(shellwords::MismatchedQuotes);

/// The words that a shell would see in a line, or `None` if a quote is left open.
pub uninterp spec fn shell_words(line: Seq<char>) -> Option<Seq<Seq<char>>>;

/// A character that means nothing to a shell: it is printable ASCII, and neither a space nor a quote
/// nor a backslash.
pub open spec fn is_plain_char(c: char) -> bool {
    '!' <= c && c <= '~' && c != '\\' && c != '\'' && c != '"'
}

/// Words of characters that mean nothing to a shell.
pub open spec fn are_plain(words: Seq<Seq<char>>) -> bool {
    forall|i: int, j: int|
        #![trigger words[i][j]]
        0 <= i < words.len() ==> words[i].len() > 0 && (0 <= j < words[i].len() ==> is_plain_char(
            words[i][j],
        ))
}

/// Words with one space between each two of them.
pub open spec fn spaced(words: Seq<Seq<char>>) -> Seq<char>
    decreases words.len(),
{
    if words.len() == 0 {
        seq![]
    } else if words.len() == 1 {
        words[0]
    } else {
        spaced(words.drop_last()).push(' ') + words.last()
    }
}

/// The words that were found in a line.
pub open spec fn found_words(r: Result<Vec<String>, shellwords::MismatchedQuotes>) -> Option<
    Seq<Seq<char>>,
> {
    match r {
        Ok(words) => Some(text::texts(words@)),
        Err(_) => None,
    }
}

/// If a line is made of plain words with one space between each two of them, these words were found.
pub open spec fn splits_plain_words(line: Seq<char>, found: Option<Seq<Seq<char>>>) -> bool {
    forall|words: Seq<Seq<char>>|
        are_plain(words) && line == #[trigger] spaced(words) ==> found == Some(words)
}

/// `shellwords::split`: the words of a line as a shell would see them; an error if a quote is left
/// open. Words that mean nothing to a shell are split at the spaces between them.
#[verifier::external_body]
fn split_words(line: &str) -> (r: Result<Vec<String>, shellwords::MismatchedQuotes>)
    ensures
        shell_words(line@) == found_words(r),
        splits_plain_words(line@, found_words(r)),
{
    shellwords::split(line)
}

// ---------------------------------------------------------------------------------------------
// Markers and infos

/// What opens a marked passage, what closes it, and the class that it gets.
pub struct CodeMarker {
    pub start: String,
    pub end: String,
    pub class: String,
}

/// What the info string of a code block asks for.
pub struct CodeBlockInfo {
    pub language: String,
    pub line_numbers: bool,
    pub title: Option<String>,
    pub markers: Vec<CodeMarker>,
}

/// What a `CodeMarker` holds.
#[verifier::ext_equal]
pub struct MarkerView {
    pub start: Seq<char>,
    pub end: Seq<char>,
    pub class: Seq<char>,
}

/// What a `CodeBlockInfo` holds.
#[verifier::ext_equal]
pub struct InfoView {
    pub language: Seq<char>,
    pub line_numbers: bool,
    pub title: Option<Seq<char>>,
    pub markers: Seq<MarkerView>,
}

impl View for CodeMarker {
    type V = MarkerView;

    open spec fn view(&self) -> MarkerView {
        MarkerView { start: self.start@, end: self.end@, class: self.class@ }
    }
}

/// What the markers of a list hold.
pub open spec fn marker_views(markers: Seq<CodeMarker>) -> Seq<MarkerView> {
    markers.map_values(|m: CodeMarker| m@)
}

impl View for CodeBlockInfo {
    type V = InfoView;

    open spec fn view(&self) -> InfoView {
        InfoView {
            language: self.language@,
            line_numbers: self.line_numbers,
            title: text::text_of_option(self.title),
            markers: marker_views(self.markers@),
        }
    }
}

/// The marker of which nothing is set.
pub open spec fn empty_marker() -> MarkerView {
    MarkerView { start: seq![], end: seq![], class: seq![] }
}

/// The info that asks for nothing.
pub open spec fn empty_info() -> InfoView {
    InfoView { language: seq![], line_numbers: false, title: None, markers: seq![] }
}

impl Default for CodeMarker {
    fn default() -> (r: CodeMarker)
        ensures
            r@ == empty_marker(),
    {
        CodeMarker { start: String::new(), end: String::new(), class: String::new() }
    }
}

impl Default for CodeBlockInfo {
    fn default() -> (r: CodeBlockInfo)
        ensures
            r@ == empty_info(),
    {
        CodeBlockInfo {
            language: String::new(),
            line_numbers: false,
            title: None,
            markers: Vec::new(),
        }
    }
}

// ---------------------------------------------------------------------------------------------
// The grammar of a marker setting

/// What of a marker a word sets.
#[derive(Clone, Copy)]
pub enum MarkerField {
    Start,
    End,
    Class,
}

/// What stands between the number of a marker and the value that is set.
pub open spec fn field_text(field: MarkerField) -> Seq<char> {
    match field {
        MarkerField::Start => "_start="@,
        MarkerField::End => "_end="@,
        MarkerField::Class => "_class="@,
    }
}

pub open spec fn is_digit(c: char) -> bool {
    '0' <= c && c <= '9'
}

/// The position of the first character of `s`, from `i` on, that is no digit.
pub open spec fn digits_end(s: Seq<char>, i: int) -> int
    decreases s.len() - i,
{
    if 0 <= i < s.len() && is_digit(s[i]) {
        digits_end(s, i + 1)
    } else {
        i
    }
}

/// The number that a sequence of digits writes.
pub open spec fn number(digits: Seq<char>) -> nat
    decreases digits.len(),
{
    if digits.len() == 0 {
        0
    } else {
        number(digits.drop_last()) * 10 + (digits.last() as nat - '0' as nat) as nat
    }
}

/// One setting of a marker.
#[verifier::ext_equal]
pub struct SettingView {
    pub index: nat,
    pub field: MarkerField,
    pub value: Seq<char>,
}

/// The setting in what follows the number of a marker.
pub open spec fn field_setting(index: nat, rest: Seq<char>) -> Option<SettingView> {
    if text::starts_with(rest, "_start="@) {
        Some(SettingView { index, field: MarkerField::Start, value: rest.skip(7) })
    } else if text::starts_with(rest, "_end="@) {
        Some(SettingView { index, field: MarkerField::End, value: rest.skip(5) })
    } else if text::starts_with(rest, "_class="@) {
        Some(SettingView { index, field: MarkerField::Class, value: rest.skip(7) })
    } else {
        None
    }
}

/// The setting that a word makes: `mark`, a number, the name of a field and a value that stands on
/// one line.
pub open spec fn setting(word: Seq<char>) -> Option<SettingView> {
    let end = digits_end(word, 4);
    if text::starts_with(word, "mark"@) && end > 4 {
        match field_setting(number(word.subrange(4, end)), word.skip(end)) {
            Some(s) => if s.value.contains('\n') {
                None
            } else {
                Some(s)
            },
            None => None,
        }
    } else {
        None
    }
}

// ---------------------------------------------------------------------------------------------
// The info that a list of words gives

/// A marker with one field set.
pub open spec fn with_field(m: MarkerView, field: MarkerField, value: Seq<char>) -> MarkerView {
    match field {
        MarkerField::Start => MarkerView { start: value, ..m },
        MarkerField::End => MarkerView { end: value, ..m },
        MarkerField::Class => MarkerView { class: value, ..m },
    }
}

/// The value of one field of a marker.
pub open spec fn field_of(m: MarkerView, field: MarkerField) -> Seq<char> {
    match field {
        MarkerField::Start => m.start,
        MarkerField::End => m.end,
        MarkerField::Class => m.class,
    }
}

/// Where the marker number `index` stands in a table.
pub open spec fn position(table: Seq<(nat, MarkerView)>, index: nat) -> Option<int>
    decreases table.len(),
{
    if table.len() == 0 {
        None
    } else if table.last().0 == index {
        Some(table.len() - 1)
    } else {
        position(table.drop_last(), index)
    }
}

/// A table with one more setting made in it.
pub open spec fn with_setting(table: Seq<(nat, MarkerView)>, s: SettingView) -> Seq<
    (nat, MarkerView),
> {
    match position(table, s.index) {
        Some(k) => table.update(k, (s.index, with_field(table[k].1, s.field, s.value))),
        None => table.push((s.index, with_field(empty_marker(), s.field, s.value))),
    }
}

/// The markers that a list of words speaks of, each with its number, in the order in which the
/// words first name them.
pub open spec fn marker_table(words: Seq<Seq<char>>) -> Seq<(nat, MarkerView)>
    decreases words.len(),
{
    if words.len() == 0 {
        seq![]
    } else {
        let before = marker_table(words.drop_last());
        match setting(words.last()) {
            Some(s) => with_setting(before, s),
            None => before,
        }
    }
}

/// Whether a marker can be used: it has both a start and an end.
pub open spec fn is_complete(m: MarkerView) -> bool {
    m.start.len() > 0 && m.end.len() > 0
}

/// The markers of a table that can be used.
pub open spec fn complete_markers(table: Seq<(nat, MarkerView)>) -> Seq<MarkerView>
    decreases table.len(),
{
    if table.len() == 0 {
        seq![]
    } else if is_complete(table.last().1) {
        complete_markers(table.drop_last()).push(table.last().1)
    } else {
        complete_markers(table.drop_last())
    }
}

/// The last title that a list of words gives.
pub open spec fn last_title(words: Seq<Seq<char>>) -> Option<Seq<char>>
    decreases words.len(),
{
    if words.len() == 0 {
        None
    } else if text::starts_with(words.last(), "title="@) {
        Some(words.last().skip(6))
    } else {
        last_title(words.drop_last())
    }
}

/// What a list of words asks for.
pub open spec fn info_of(words: Seq<Seq<char>>) -> InfoView {
    InfoView {
        language: if words.len() > 0 {
            words[0]
        } else {
            seq![]
        },
        line_numbers: words.contains("line-numbers"@),
        title: last_title(words),
        markers: complete_markers(marker_table(words)),
    }
}

/// Every marker number in the words fits into a machine word.
pub open spec fn indices_fit(words: Seq<Seq<char>>) -> bool {
    forall|i: int|
        0 <= i < words.len() ==> (setting(#[trigger] words[i]) matches Some(s) ==> s.index
            <= usize::MAX)
}

/// Whether the info of this string is defined: its marker numbers fit into a machine word.
pub open spec fn has_info(line: Seq<char>) -> bool {
    match shell_words(line) {
        Some(words) => indices_fit(words),
        None => true,
    }
}

/// What an info string asks for: what its words ask for, and nothing if a quote is left open.
pub open spec fn line_info(line: Seq<char>) -> InfoView {
    match shell_words(line) {
        Some(words) => info_of(words),
        None => empty_info(),
    }
}

// ---------------------------------------------------------------------------------------------
// Reading an info string

/// The setting that a word makes, with its number in a machine word.
pub struct Setting {
    pub index: usize,
    pub field: MarkerField,
    pub value: String,
}

/// What reading a word as a setting comes to.
pub enum Reading {
    /// The word is no setting.
    Absent,
    /// The word is a setting whose number does not fit into a machine word.
    TooLarge,
    Present(Setting),
}

/// The number that the digits from `from` up to `to` write, if it fits into a machine word.
fn read_number(v: &Vec<char>, from: usize, to: usize) -> (r: Option<usize>)
    requires
        from <= to <= v@.len(),
        forall|i: int| from <= i < to ==> is_digit(v@[i]),
    ensures
        match r {
            Some(n) => n == number(v@.subrange(from as int, to as int)),
            None => number(v@.subrange(from as int, to as int)) > usize::MAX,
        },
{
    let mut n: usize = 0;
    let mut i: usize = from;
    let ghost all = v@.subrange(from as int, to as int);
    while i < to
        invariant
            from <= i <= to <= v@.len(),
            all == v@.subrange(from as int, to as int),
            forall|j: int| from <= j < to ==> is_digit(v@[j]),
            n == number(all.take(i - from)),
        decreases to - i,
    {
        let ghost k = i - from;
        assert(all.take(k + 1).drop_last() =~= all.take(k));
        let d: usize = (v[i] as u32 - 48) as usize;
        let tens = n.checked_mul(10);
        proof {
            if tens is None || n * 10 + d > usize::MAX {
                lemma_number_grows(all, k + 1);
                assert(all.take(all.len() as int) =~= all);
            }
        }
        match tens {
            None => {
                return None;
            },
            Some(t) => {
                match t.checked_add(d) {
                    None => {
                        return None;
                    },
                    Some(m) => {
                        n = m;
                    },
                }
            },
        }
        i = i + 1;
    }
    assert(all.take(i - from) =~= all);
    Some(n)
}

/// More digits write no smaller number.
proof fn lemma_number_grows(digits: Seq<char>, k: int)
    requires
        0 <= k <= digits.len(),
    ensures
        number(digits.take(k)) <= number(digits),
    decreases digits.len(),
{
    if k < digits.len() {
        lemma_number_grows(digits.drop_last(), k);
        assert(digits.drop_last().take(k) =~= digits.take(k));
    } else {
        assert(digits.take(k) =~= digits);
    }
}

proof fn lemma_digits_end(s: Seq<char>, i: int)
    requires
        0 <= i <= s.len(),
    ensures
        i <= digits_end(s, i) <= s.len(),
        forall|j: int| i <= j < digits_end(s, i) ==> is_digit(s[j]),
    decreases s.len() - i,
{
    if i < s.len() && is_digit(s[i]) {
        lemma_digits_end(s, i + 1);
    }
}

/// Whether a line feed stands in `v` from `from` on.
fn has_newline(v: &Vec<char>, from: usize) -> (r: bool)
    requires
        from <= v@.len(),
    ensures
        r == v@.skip(from as int).contains('\n'),
{
    let mut i: usize = from;
    while i < v.len()
        invariant
            from <= i <= v@.len(),
            forall|j: int| from <= j < i ==> v@[j] != '\n',
        decreases v@.len() - i,
    {
        if v[i] == '\n' {
            assert(v@.skip(from as int)[i - from] == '\n');
            return true;
        }
        i = i + 1;
    }
    false
}

/// Reads a word as a setting.
pub fn read_setting(word: &str) -> (r: Reading)
    ensures
        match r {
            Reading::Absent => setting(word@) is None,
            Reading::TooLarge => setting(word@) matches Some(s) && s.index > usize::MAX,
            Reading::Present(p) => setting(word@) matches Some(s) && s.index == p.index && s.field
                == p.field && s.value == p.value@,
        },
{
    proof {
        reveal_strlit("mark");
        reveal_strlit("_start=");
        reveal_strlit("_end=");
        reveal_strlit("_class=");
    }
    if !text::starts_with_text(word, "mark") {
        return Reading::Absent;
    }
    let v = text::chars_of(word);
    let n: usize = v.len();
    let mut end: usize = 4;
    while end < n && '0' <= v[end] && v[end] <= '9'
        invariant
            4 <= end <= n,
            n == v@.len(),
            digits_end(v@, 4) == digits_end(v@, end as int),
        decreases n - end,
    {
        end = end + 1;
    }
    if end == 4 {
        return Reading::Absent;
    }
    proof {
        lemma_digits_end(v@, 4);
    }
    let rest = text::string_of(&v, end, n);
    assert(rest@ =~= v@.skip(end as int));
    let (field, skipped): (MarkerField, usize) = if text::starts_with_text(
        rest.as_str(),
        "_start=",
    ) {
        (MarkerField::Start, 7)
    } else if text::starts_with_text(rest.as_str(), "_end=") {
        (MarkerField::End, 5)
    } else if text::starts_with_text(rest.as_str(), "_class=") {
        (MarkerField::Class, 7)
    } else {
        return Reading::Absent;
    };
    let from: usize = end + skipped;
    assert(v@.skip(end as int).skip(skipped as int) =~= v@.skip(from as int));
    if has_newline(&v, from) {
        return Reading::Absent;
    }
    match read_number(&v, 4, end) {
        None => Reading::TooLarge,
        Some(index) => {
            let value = text::string_of(&v, from, n);
            assert(value@ =~= v@.skip(from as int));
            Reading::Present(Setting { index, field, value })
        },
    }
}

proof fn lemma_position(table: Seq<(nat, MarkerView)>, index: nat)
    ensures
        match position(table, index) {
            Some(k) => 0 <= k < table.len() && table[k].0 == index,
            None => forall|k: int| 0 <= k < table.len() ==> (#[trigger] table[k]).0 != index,
        },
    decreases table.len(),
{
    if table.len() > 0 && table.last().0 != index {
        lemma_position(table.drop_last(), index);
        assert forall|k: int| 0 <= k < table.len() && position(table, index) is None implies (
        #[trigger] table[k]).0 != index by {
            if k < table.len() - 1 {
                assert(table.drop_last()[k] == table[k]);
            }
        }
    }
}

/// What a table of markers holds.
spec fn table_view(table: Seq<(usize, CodeMarker)>) -> Seq<(nat, MarkerView)> {
    table.map_values(|e: (usize, CodeMarker)| (e.0 as nat, e.1@))
}

/// Where the marker number `index` stands in a table.
fn find_marker(table: &Vec<(usize, CodeMarker)>, index: usize) -> (r: Option<usize>)
    ensures
        match r {
            Some(k) => k < table@.len() && position(table_view(table@), index as nat) == Some(
                k as int,
            ),
            None => position(table_view(table@), index as nat) is None,
        },
{
    let mut k: usize = table.len();
    let ghost all = table_view(table@);
    assert(all.take(k as int) =~= all);
    while k > 0
        invariant
            k <= table@.len(),
            all == table_view(table@),
            position(all, index as nat) == position(all.take(k as int), index as nat),
        decreases k,
    {
        k = k - 1;
        assert(all.take(k + 1).drop_last() =~= all.take(k as int));
        if table[k].0 == index {
            return Some(k);
        }
    }
    None
}

/// Makes a setting in a table of markers.
fn apply_setting(table: &mut Vec<(usize, CodeMarker)>, s: Setting)
    ensures
        table_view(final(table)@) == with_setting(
            table_view(old(table)@),
            (SettingView { index: s.index as nat, field: s.field, value: s.value@ }),
        ),
{
    let ghost before = table_view(table@);
    proof {
        lemma_position(before, s.index as nat);
    }
    let k: usize = match find_marker(table, s.index) {
        Some(k) => k,
        None => {
            table.push((s.index, CodeMarker::default()));
            assert(table_view(table@) =~= before.push((s.index as nat, empty_marker())));
            table.len() - 1
        },
    };
    match s.field {
        MarkerField::Start => {
            table[k].1.start = s.value;
        },
        MarkerField::End => {
            table[k].1.end = s.value;
        },
        MarkerField::Class => {
            table[k].1.class = s.value;
        },
    }
    assert(table_view(table@) =~= with_setting(
        before,
        (SettingView { index: s.index as nat, field: s.field, value: s.value@ }),
    ));
}

/// What a list of words asks for, unless a marker number does not fit into a machine word.
pub fn info_from_words(words: &Vec<String>) -> (r: Option<CodeBlockInfo>)
    ensures
        match r {
            Some(info) => indices_fit(text::texts(words@)) && info@ == info_of(text::texts(words@)),
            None => !indices_fit(text::texts(words@)),
        },
{
    proof {
        reveal_strlit("title=");
    }
    let ghost all = text::texts(words@);
    let mut language = String::new();
    let mut title: Option<String> = None;
    let mut line_numbers = false;
    let mut table: Vec<(usize, CodeMarker)> = Vec::new();
    let mut i: usize = 0;
    assert(all.take(0) =~= seq![]);
    assert(table_view(table@) =~= seq![]);
    while i < words.len()
        invariant
            i <= words@.len(),
            all == text::texts(words@),
            "title="@.len() == 6,
            language@ == (if i > 0 {
                all[0]
            } else {
                seq![]
            }),
            line_numbers == all.take(i as int).contains("line-numbers"@),
            text::text_of_option(title) == last_title(all.take(i as int)),
            table_view(table@) == marker_table(all.take(i as int)),
            indices_fit(all.take(i as int)),
        decreases words@.len() - i,
    {
        let ghost before = all.take(i as int);
        let ghost now = all.take(i + 1);
        assert(now.drop_last() =~= before);
        assert(now.last() == words@[i as int]@);
        assert(now =~= before.push(words@[i as int]@));
        let word = words[i].as_str();
        if i == 0 {
            language = word.to_owned();
        }
        if text::starts_with_text(word, "title=") {
            let v = text::chars_of(word);
            let t = text::string_of(&v, 6, v.len());
            assert(t@ =~= word@.skip(6));
            title = Some(t);
        }
        if text::same_text(word, "line-numbers") {
            line_numbers = true;
            assert(now[i as int] == "line-numbers"@);
        }
        match read_setting(word) {
            Reading::Absent => {},
            Reading::TooLarge => {
                assert(setting(all[i as int]) matches Some(s) && s.index > usize::MAX);
                return None;
            },
            Reading::Present(s) => {
                apply_setting(&mut table, s);
            },
        }
        assert(line_numbers == now.contains("line-numbers"@)) by {
            if before.contains("line-numbers"@) {
                let j = choose|j: int| 0 <= j < before.len() && before[j] == "line-numbers"@;
                assert(now[j] == "line-numbers"@);
            }
            if now.contains("line-numbers"@) {
                let j = choose|j: int| 0 <= j < now.len() && now[j] == "line-numbers"@;
                if j < i {
                    assert(before[j] == "line-numbers"@);
                }
            }
        }
        assert(indices_fit(now)) by {
            assert forall|j: int| 0 <= j < now.len() implies (setting(#[trigger] now[j]) matches Some(
                s,
            ) ==> s.index <= usize::MAX) by {
                if j < i {
                    assert(now[j] == before[j]);
                }
            }
        }
        i = i + 1;
    }
    assert(all.take(i as int) =~= all);
    let mut markers: Vec<CodeMarker> = Vec::new();
    let ghost entries = table_view(table@);
    assert(entries.take(0) =~= seq![]);
    assert(marker_views(markers@) =~= seq![]);
    for entry in it: table.into_iter()
        invariant
            entries == table_view(it.seq()),
            marker_views(markers@) == complete_markers(entries.take(it.index() as int)),
    {
        let ghost k = it.index() as int;
        assert(entries.take(k + 1).drop_last() =~= entries.take(k));
        let ghost kept = marker_views(markers@);
        let (index, marker) = entry;
        if !marker.start.as_str().is_empty() && !marker.end.as_str().is_empty() {
            markers.push(marker);
            assert(marker_views(markers@) =~= kept.push(marker@));
        }
    }
    assert(entries.take(entries.len() as int) =~= entries);
    Some(CodeBlockInfo { language, line_numbers, title, markers })
}

/// Whether the marker numbers in an info string fit into a machine word.
pub fn check_info(line: &str) -> (r: bool)
    ensures
        r == has_info(line@),
        forall|words: Seq<Seq<char>>|
            are_plain(words) && line@ == #[trigger] spaced(words) ==> r == indices_fit(words),
{
    match split_words(line) {
        Ok(words) => info_from_words(&words).is_some(),
        Err(_) => true,
    }
}

/// What an info string asks for. One of plain words asks for what these words ask for.
pub fn parse_info(line: &str) -> (r: CodeBlockInfo)
    requires
        has_info(line@),
    ensures
        r@ == line_info(line@),
        forall|words: Seq<Seq<char>>|
            are_plain(words) && line@ == #[trigger] spaced(words) ==> r@ == info_of(words),
{
    match split_words(line) {
        Ok(words) => info_from_words(&words).unwrap(),
        Err(_) => CodeBlockInfo::default(),
    }
}

// ---------------------------------------------------------------------------------------------
// Marked passages

/// The tag that opens a marked passage.
pub open spec fn open_span(class: Seq<char>) -> Seq<char> {
    "<span class=\""@ + class + "\">"@
}

/// `s` with the start and the end of one marker replaced by tags.
pub open spec fn with_marker(s: Seq<char>, m: MarkerView) -> Seq<char> {
    text::replace_all(text::replace_all(s, m.start, open_span(m.class)), m.end, "</span>"@)
}

/// `s` with the starts and the ends of all markers replaced by tags, one marker after another.
pub open spec fn with_markers(s: Seq<char>, markers: Seq<MarkerView>) -> Seq<char>
    decreases markers.len(),
{
    if markers.len() == 0 {
        s
    } else {
        with_marker(with_markers(s, markers.drop_last()), markers.last())
    }
}

impl CodeBlockInfo {
    /// Replaces the starts and the ends of the markers by tags.
    pub fn substitute_markers(&self, inp: String) -> (r: String)
        ensures
            r@ == with_markers(inp@, self@.markers),
    {
        let ghost all = self@.markers;
        let mut out = inp;
        let mut i: usize = 0;
        while i < self.markers.len()
            invariant
                i <= self.markers@.len(),
                all == self@.markers,
                out@ == with_markers(inp@, all.take(i as int)),
            decreases self.markers@.len() - i,
        {
            assert(all.take(i + 1).drop_last() =~= all.take(i as int));
            let marker = &self.markers[i];
            let mut open = String::from_str("<span class=\"");
            open.append(marker.class.as_str());
            open.append("\">");
            out = text::replace_text(out.as_str(), marker.start.as_str(), open.as_str());
            out = text::replace_text(out.as_str(), marker.end.as_str(), "</span>");
            i = i + 1;
        }
        assert(all.take(i as int) =~= all);
        out
    }
}

// ---------------------------------------------------------------------------------------------
// The table of a code block

/// The numbers from 1 to `n`, each on a line of its own.
pub open spec fn numbered_lines(n: nat) -> Seq<char>
    decreases n,
{
    if n == 0 {
        seq![]
    } else {
        numbered_lines((n - 1) as nat) + text::decimal(n) + "\n"@
    }
}

/// The row that holds the title of a code block.
pub open spec fn title_row(title: Option<Seq<char>>) -> Seq<char> {
    match title {
        Some(t) => "<tr><td class=\"codeTitle\" colspan=\"2\">"@ + t + "</td></tr>"@,
        None => seq![],
    }
}

/// What stands before the code in its row: with line numbers, one for each line feed of the code.
pub open spec fn code_cell(line_numbers: bool, code: Seq<char>) -> Seq<char> {
    if line_numbers {
        "<tr><td class=\"lineNumbers\"><div class=\"lineNumbersDiv\"><pre>"@ + numbered_lines(
            text::newlines(code),
        ) + "</pre></div></rd><td class=\"sourceCode\">"@
    } else {
        "<tr><td class=\"sourceCode sourceCodeWrap\">"@
    }
}

/// The table that shows `code`, up to the end of the code; `highlighted` is the code as the
/// highlighter writes it.
pub open spec fn code_table(info: InfoView, code: Seq<char>, highlighted: Seq<char>) -> Seq<char> {
    "<div class=\"mycode-block\"><table class=\"codeBox\"><tbody>"@ + title_row(info.title)
        + code_cell(info.line_numbers, code) + "<pre class=\"code\">"@ + with_markers(
        highlighted,
        info.markers,
    )
}

/// What follows the code in its table.
pub const CODE_TABLE_END: &'static str = "</td></pre></tr></tbody></table></div>";

/// Writes the table that shows `code`, up to the end of the code.
pub fn write_code_table(info: &CodeBlockInfo, code: &str, highlighted: String) -> (r: String)
    ensures
        r@ == code_table(info@, code@, highlighted@),
{
    let mut html = String::from_str(
        "<div class=\"mycode-block\"><table class=\"codeBox\"><tbody>",
    );
    let mut row = String::new();
    match &info.title {
        Some(title) => {
            row.append("<tr><td class=\"codeTitle\" colspan=\"2\">");
            row.append(title.as_str());
            row.append("</td></tr>");
            assert(row@ =~= title_row(info@.title));
        },
        None => {},
    }
    html.append(row.as_str());
    let mut cell = String::new();
    if info.line_numbers {
        cell.append("<tr><td class=\"lineNumbers\"><div class=\"lineNumbersDiv\"><pre>");
        let ghost head = "<tr><td class=\"lineNumbers\"><div class=\"lineNumbersDiv\"><pre>"@;
        let n: usize = text::count_newlines(code);
        let mut k: usize = 0;
        assert(cell@ =~= head + numbered_lines(0));
        while k < n
            invariant
                k <= n,
                cell@ == head + numbered_lines(k as nat),
            decreases n - k,
        {
            k = k + 1;
            let number = text::decimal_text(k as u64);
            cell.append(number.as_str());
            cell.append("\n");
            assert(cell@ =~= head + numbered_lines(k as nat));
        }
        cell.append("</pre></div></rd><td class=\"sourceCode\">");
    } else {
        cell.append("<tr><td class=\"sourceCode sourceCodeWrap\">");
        assert(cell@ =~= "<tr><td class=\"sourceCode sourceCodeWrap\">"@);
    }
    html.append(cell.as_str());
    html.append("<pre class=\"code\">");
    let marked = info.substitute_markers(highlighted);
    html.append(marked.as_str());
    html
}

// ---------------------------------------------------------------------------------------------
// Laws of marker settings

/// Every character is a digit.
pub open spec fn all_digits(s: Seq<char>) -> bool {
    forall|i: int| 0 <= i < s.len() ==> is_digit(#[trigger] s[i])
}

/// The digits end where something else begins.
proof fn lemma_digits_stop(s: Seq<char>, i: int, end: int)
    requires
        0 <= i <= end <= s.len(),
        forall|j: int| i <= j < end ==> is_digit(#[trigger] s[j]),
        end < s.len() ==> !is_digit(s[end]),
    ensures
        digits_end(s, i) == end,
    decreases end - i,
{
    if i < end {
        lemma_digits_stop(s, i + 1, end);
    }
}

/// A word of the form `mark<n>_<field>=<value>` with a value on one line is the setting that it
/// looks like.
pub proof fn lemma_setting(digits: Seq<char>, field: MarkerField, value: Seq<char>)
    requires
        digits.len() > 0,
        all_digits(digits),
        !value.contains('\n'),
    ensures
        setting("mark"@ + digits + field_text(field) + value) == Some(
            SettingView { index: number(digits), field, value },
        ),
{
    reveal_strlit("mark");
    reveal_strlit("_start=");
    reveal_strlit("_end=");
    reveal_strlit("_class=");
    let word = "mark"@ + digits + field_text(field) + value;
    let end = 4 + digits.len();
    let rest = word.skip(end as int);
    assert(word.subrange(0, 4) =~= "mark"@);
    assert forall|j: int| 4 <= j < end implies is_digit(#[trigger] word[j]) by {
        assert(word[j] == digits[j - 4]);
    }
    assert(word[end as int] == field_text(field)[0]);
    assert(field_text(field)[0] == '_');
    lemma_digits_stop(word, 4, end as int);
    assert(word.subrange(4, end as int) =~= digits);
    assert(rest =~= field_text(field) + value);
    let n = field_text(field).len() as int;
    assert(rest.subrange(0, n) =~= field_text(field));
    assert(rest.skip(n) =~= value);
    assert(text::starts_with(rest, field_text(field)));
    assert(rest[1] == field_text(field)[1]);
    if text::starts_with(rest, "_start="@) {
        assert(rest.subrange(0, 7)[1] == rest[1] && "_start="@[1] == 's');
    }
    if text::starts_with(rest, "_end="@) {
        assert(rest.subrange(0, 5)[1] == rest[1] && "_end="@[1] == 'e');
    }
    if text::starts_with(rest, "_class="@) {
        assert(rest.subrange(0, 7)[1] == rest[1] && "_class="@[1] == 'c');
    }
}

/// A word has the form of a setting.
pub open spec fn is_setting_of(word: Seq<char>, digits: Seq<char>, s: SettingView) -> bool {
    &&& digits.len() > 0
    &&& all_digits(digits)
    &&& !s.value.contains('\n')
    &&& word == "mark"@ + digits + field_text(s.field) + s.value
    &&& s.index == number(digits)
}

/// Only words of the form `mark<n>_<field>=<value>` with a value on one line are settings.
pub proof fn lemma_setting_only(word: Seq<char>)
    ensures
        setting(word) matches Some(s) ==> exists|digits: Seq<char>|
            #[trigger] is_setting_of(word, digits, s),
{
    if let Some(s) = setting(word) {
        reveal_strlit("mark");
        reveal_strlit("_start=");
        reveal_strlit("_end=");
        reveal_strlit("_class=");
        lemma_digits_end(word, 4);
        let end = digits_end(word, 4);
        let digits = word.subrange(4, end);
        let rest = word.skip(end);
        let n = field_text(s.field).len() as int;
        assert(rest.subrange(0, n) == field_text(s.field));
        assert(rest =~= rest.subrange(0, n) + s.value);
        assert(word =~= word.subrange(0, 4) + digits + rest);
        assert(word =~= "mark"@ + digits + field_text(s.field) + s.value);
        assert(is_setting_of(word, digits, s));
    }
}

/// The number that a number in decimal writes is that number.
pub proof fn lemma_number_of_decimal(n: nat)
    ensures
        number(text::decimal(n)) == n,
        all_digits(text::decimal(n)),
        text::decimal(n).len() > 0,
    decreases n,
{
    let d = text::digit(n % 10);
    assert(d as nat == '0' as nat + n % 10);
    let s = text::decimal(n);
    if n < 10 {
        assert(s.drop_last() =~= seq![]);
        assert(number(s.drop_last()) == 0);
    } else {
        lemma_number_of_decimal(n / 10);
        assert(s.drop_last() =~= text::decimal(n / 10));
        assert forall|i: int| 0 <= i < s.len() implies is_digit(#[trigger] s[i]) by {
            if i < s.len() - 1 {
                assert(s[i] == text::decimal(n / 10)[i]);
            }
        }
    }
}

// ---------------------------------------------------------------------------------------------
// Laws of infos

/// What the last word that sets this field of this marker sets it to.
pub open spec fn last_value(words: Seq<Seq<char>>, index: nat, field: MarkerField) -> Option<
    Seq<char>,
>
    decreases words.len(),
{
    if words.len() == 0 {
        None
    } else {
        match setting(words.last()) {
            Some(s) if s.index == index && s.field == field => Some(s.value),
            _ => last_value(words.drop_last(), index, field),
        }
    }
}

/// A field holds what it was set to last, and nothing if it was not set.
pub open spec fn holds_last(
    words: Seq<Seq<char>>,
    entry: (nat, MarkerView),
    field: MarkerField,
) -> bool {
    field_of(entry.1, field) == (match last_value(words, entry.0, field) {
        Some(value) => value,
        None => seq![],
    })
}

/// Each marker that the words name stands in the table once, and each of its fields holds what the
/// last word that sets it says.
pub proof fn lemma_last_setting_wins(words: Seq<Seq<char>>)
    ensures
        forall|j: int, k: int|
            0 <= j < k < marker_table(words).len() ==> (#[trigger] marker_table(words)[j]).0 != (
            #[trigger] marker_table(words)[k]).0,
        forall|k: int, field: MarkerField|
            0 <= k < marker_table(words).len() ==> #[trigger] holds_last(
                words,
                marker_table(words)[k],
                field,
            ),
        forall|index: nat, field: MarkerField|
            (#[trigger] last_value(words, index, field)) is Some ==> position(
                marker_table(words),
                index,
            ) is Some,
    decreases words.len(),
{
    if words.len() > 0 {
        let rest = words.drop_last();
        let before = marker_table(rest);
        let now = marker_table(words);
        lemma_last_setting_wins(rest);
        match setting(words.last()) {
            None => {
                assert forall|k: int, field: MarkerField| 0 <= k < now.len() implies #[trigger] holds_last(
                    words,
                    now[k],
                    field,
                ) by {
                    assert(holds_last(rest, before[k], field));
                }
                assert forall|index: nat, field: MarkerField|
                    (#[trigger] last_value(words, index, field)) is Some implies position(
                    now,
                    index,
                ) is Some by {
                    assert(last_value(rest, index, field) is Some);
                }
            },
            Some(s) => {
                lemma_position(before, s.index);
                assert forall|k: int, field: MarkerField| 0 <= k < now.len() implies #[trigger] holds_last(
                    words,
                    now[k],
                    field,
                ) by {
                    if k < before.len() {
                        assert(holds_last(rest, before[k], field));
                        assert(now[k].0 == before[k].0);
                    } else if last_value(rest, s.index, field) is Some {
                        assert(position(before, s.index) is Some);
                    }
                }
                assert forall|index: nat, field: MarkerField|
                    (#[trigger] last_value(words, index, field)) is Some implies position(
                    now,
                    index,
                ) is Some by {
                    lemma_position(now, index);
                    lemma_position(before, index);
                    if index == s.index {
                        match position(before, s.index) {
                            Some(k) => {
                                assert(now[k].0 == index);
                            },
                            None => {
                                assert(now[now.len() - 1].0 == index);
                            },
                        }
                    } else {
                        assert(last_value(rest, index, field) is Some);
                        let k = position(before, index)->0;
                        assert(now[k].0 == index);
                    }
                }
            },
        }
    }
}

/// The markers of an info are those of the table that have both a start and an end.
pub proof fn lemma_markers_complete(table: Seq<(nat, MarkerView)>, m: MarkerView)
    ensures
        complete_markers(table).contains(m) <==> is_complete(m) && exists|k: int|
            0 <= k < table.len() && (#[trigger] table[k]).1 == m,
    decreases table.len(),
{
    if table.len() > 0 {
        let rest = table.drop_last();
        lemma_markers_complete(rest, m);
        let all = complete_markers(table);
        let before = complete_markers(rest);
        assert(table[table.len() - 1] == table.last());
        if all.contains(m) {
            let i = choose|i: int| 0 <= i < all.len() && all[i] == m;
            if i < before.len() {
                assert(before[i] == m);
                let k = choose|k: int| 0 <= k < rest.len() && (#[trigger] rest[k]).1 == m;
                assert(table[k].1 == m);
            }
        }
        if is_complete(m) && exists|k: int| 0 <= k < table.len() && (#[trigger] table[k]).1 == m {
            let k = choose|k: int| 0 <= k < table.len() && (#[trigger] table[k]).1 == m;
            if k < rest.len() {
                assert(rest[k].1 == m);
                let i = choose|i: int| 0 <= i < before.len() && before[i] == m;
                assert(all[i] == m);
            } else {
                assert(all[all.len() - 1] == m);
            }
        }
    }
}

/// A word that is neither a title nor `line-numbers` nor a setting asks for nothing, unless it is
/// the first one and names the language.
pub proof fn lemma_other_words_ask_nothing(words: Seq<Seq<char>>, word: Seq<char>)
    requires
        words.len() > 0,
        !text::starts_with(word, "title="@),
        word != "line-numbers"@,
        setting(word) is None,
    ensures
        info_of(words.push(word)) == info_of(words),
{
    let more = words.push(word);
    assert(more.drop_last() =~= words);
    if words.contains("line-numbers"@) {
        let i = choose|i: int| 0 <= i < words.len() && words[i] == "line-numbers"@;
        assert(more[i] == "line-numbers"@);
    }
    if more.contains("line-numbers"@) {
        let i = choose|i: int| 0 <= i < more.len() && more[i] == "line-numbers"@;
        assert(words[i] == "line-numbers"@);
    }
}

/// Code in which neither the start nor the end of a marker stands stays as it is.
pub proof fn lemma_unmarked(s: Seq<char>, m: MarkerView)
    requires
        is_complete(m),
        !text::contains(s, m.start),
        !text::contains(s, m.end),
    ensures
        with_marker(s, m) == s,
{
    text::lemma_nothing_to_replace(s, m.start, open_span(m.class));
    text::lemma_nothing_to_replace(s, m.end, "</span>"@);
}

/// A passage between a start and an end that stand only there is wrapped into an element with the
/// class of the marker.
pub proof fn lemma_marked(before: Seq<char>, passage: Seq<char>, after: Seq<char>, m: MarkerView)
    requires
        is_complete(m),
        text::find(before + m.start + (passage + m.end + after), m.start) == Some(
            before.len() as int,
        ),
        !text::contains(passage + m.end + after, m.start),
        text::find(before + open_span(m.class) + passage + m.end + after, m.end) == Some(
            (before + open_span(m.class) + passage).len() as int,
        ),
        !text::contains(after, m.end),
    ensures
        with_marker(before + m.start + (passage + m.end + after), m) == before + open_span(m.class)
            + passage + "</span>"@ + after,
{
    let open = open_span(m.class);
    text::lemma_replace_one(before, m.start, passage + m.end + after, open);
    assert(before + open + (passage + m.end + after) =~= before + open + passage + m.end + after);
    text::lemma_replace_one(before + open + passage, m.end, after, "</span>"@);
}

} // verus!
