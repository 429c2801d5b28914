//! Strings as sequences of characters: searching, replacing, splitting into lines, numbers.

use vstd::prelude::*;

verus! {

/// `String::push` appends one character.
pub assume_specification[ String::push ](s: &mut String, c: char)
    ensures
        final(s)@ == old(s)@.push(c),
;

// ---------------------------------------------------------------------------------------------
// Searching

/// `pat` stands in `s` at position `i`.
pub open spec fn occurs_at(s: Seq<char>, pat: Seq<char>, i: int) -> bool {
    &&& 0 <= i
    &&& i + pat.len() <= s.len()
    &&& s.subrange(i, i + pat.len()) == pat
}

/// `pat` stands somewhere in `s`.
pub open spec fn contains(s: Seq<char>, pat: Seq<char>) -> bool {
    exists|i: int| occurs_at(s, pat, i)
}

/// `s` begins with `pat`.
pub open spec fn starts_with(s: Seq<char>, pat: Seq<char>) -> bool {
    occurs_at(s, pat, 0)
}

/// The first position of `pat` in `s` that is not before `i`.
pub open spec fn find_from(s: Seq<char>, pat: Seq<char>, i: int) -> Option<int>
    decreases s.len() - i + 1,
{
    if i + pat.len() > s.len() {
        None
    } else if occurs_at(s, pat, i) {
        Some(i)
    } else {
        find_from(s, pat, i + 1)
    }
}

/// The first position of `pat` in `s`.
pub open spec fn find(s: Seq<char>, pat: Seq<char>) -> Option<int> {
    find_from(s, pat, 0)
}

/// `find_from` gives the least position that is not before `i`, and none exactly when there is
/// none.
pub proof fn lemma_find_from(s: Seq<char>, pat: Seq<char>, i: int)
    requires
        0 <= i,
    ensures
        match find_from(s, pat, i) {
            Some(k) => {
                &&& i <= k
                &&& occurs_at(s, pat, k)
                &&& forall|j: int| i <= j < k ==> !occurs_at(s, pat, j)
            },
            None => forall|j: int| i <= j ==> !occurs_at(s, pat, j),
        },
    decreases s.len() - i + 1,
{
    if i + pat.len() > s.len() {
    } else if occurs_at(s, pat, i) {
    } else {
        lemma_find_from(s, pat, i + 1);
    }
}

/// A pattern is found exactly when it is contained.
pub proof fn lemma_find_contains(s: Seq<char>, pat: Seq<char>)
    ensures
        find(s, pat) is Some <==> contains(s, pat),
{
    lemma_find_from(s, pat, 0);
}

/// Behind a text without the pattern, the pattern is found where it begins, if its first character
/// stands in it only once.
proof fn lemma_find_behind(s: Seq<char>, pat: Seq<char>, tail: Seq<char>)
    requires
        pat.len() > 0,
        forall|k: int| 0 < k < pat.len() ==> #[trigger] pat[k] != pat[0],
        !contains(s, pat),
    ensures
        find(s + pat + tail, pat) == Some(s.len() as int),
        contains(s + pat + tail, pat),
{
    let t = s + pat + tail;
    let at = s.len() as int;
    assert(t.subrange(at, at + pat.len()) =~= pat);
    assert(occurs_at(t, pat, at));
    lemma_find_from(t, pat, 0);
    let i = find(t, pat)->0;
    if i < at {
        if i + pat.len() <= at {
            assert(s.subrange(i, i + pat.len()) =~= t.subrange(i, i + pat.len()));
            assert(occurs_at(s, pat, i));
        } else {
            assert(t.subrange(i, i + pat.len())[at - i] == t[at]);
            assert(t[at] == pat[0]);
        }
    }
}

/// Searching a suffix gives the position in the whole, counted from where the suffix begins.
proof fn lemma_find_shift(s: Seq<char>, pat: Seq<char>, from: int, i: int)
    requires
        0 <= from <= s.len(),
        0 <= i,
    ensures
        find_from(s.skip(from), pat, i) == (match find_from(s, pat, from + i) {
            Some(k) => Some(k - from),
            None => None,
        }),
    decreases s.len() - from - i + 1,
{
    let t = s.skip(from);
    if i + pat.len() <= t.len() {
        assert(t.subrange(i, i + pat.len()) =~= s.subrange(from + i, from + i + pat.len()));
        assert(occurs_at(t, pat, i) <==> occurs_at(s, pat, from + i));
        if !occurs_at(t, pat, i) {
            lemma_find_shift(s, pat, from, i + 1);
        }
    }
}

// ---------------------------------------------------------------------------------------------
// Replacing

/// `s` with the first `pat` replaced.
pub open spec fn replace_first(s: Seq<char>, pat: Seq<char>, rep: Seq<char>) -> Seq<char> {
    match find(s, pat) {
        Some(i) => s.take(i) + rep + s.skip(i + pat.len()),
        None => s,
    }
}

/// A pattern behind a text without it is replaced there, if its first character stands in it only
/// once.
pub proof fn lemma_replace_behind(
    s: Seq<char>,
    pat: Seq<char>,
    tail: Seq<char>,
    rep: Seq<char>,
)
    requires
        pat.len() > 0,
        forall|k: int| 0 < k < pat.len() ==> #[trigger] pat[k] != pat[0],
        !contains(s, pat),
    ensures
        contains(s + pat + tail, pat),
        replace_first(s + pat + tail, pat, rep) == s + rep + tail,
{
    lemma_find_behind(s, pat, tail);
    let t = s + pat + tail;
    assert(t.take(s.len() as int) =~= s);
    assert(t.skip((s.len() + pat.len()) as int) =~= tail);
}

/// `rep` before, between and after the characters of `s`.
pub open spec fn interleave(s: Seq<char>, rep: Seq<char>) -> Seq<char>
    decreases s.len(),
{
    if s.len() == 0 {
        rep
    } else {
        interleave(s.drop_last(), rep).push(s.last()) + rep
    }
}

/// `s` with every `pat` replaced, from left to right and without overlap. The empty pattern
/// stands before, between and after all characters.
pub open spec fn replace_all(s: Seq<char>, pat: Seq<char>, rep: Seq<char>) -> Seq<char>
    decreases s.len(),
{
    if pat.len() == 0 {
        interleave(s, rep)
    } else {
        proof {
            lemma_find_from(s, pat, 0);
        }
        match find(s, pat) {
            Some(i) => s.take(i) + rep + replace_all(s.skip(i + pat.len()), pat, rep),
            None => s,
        }
    }
}

/// A text without the pattern stays as it is.
pub proof fn lemma_nothing_to_replace(s: Seq<char>, pat: Seq<char>, rep: Seq<char>)
    requires
        pat.len() > 0,
        !contains(s, pat),
    ensures
        replace_all(s, pat, rep) == s,
{
    lemma_find_contains(s, pat);
}

/// A pattern that stands in a text only once is replaced there.
pub proof fn lemma_replace_one(a: Seq<char>, pat: Seq<char>, b: Seq<char>, rep: Seq<char>)
    requires
        pat.len() > 0,
        find(a + pat + b, pat) == Some(a.len() as int),
        !contains(b, pat),
    ensures
        replace_all(a + pat + b, pat, rep) == a + rep + b,
{
    let s = a + pat + b;
    assert(s.take(a.len() as int) =~= a);
    assert(s.skip((a.len() + pat.len()) as int) =~= b);
    lemma_nothing_to_replace(b, pat, rep);
}

// ---------------------------------------------------------------------------------------------
// Lines

/// The number of line feeds in `s`.
pub open spec fn newlines(s: Seq<char>) -> nat
    decreases s.len(),
{
    if s.len() == 0 {
        0
    } else {
        newlines(s.drop_last()) + (if s.last() == '\n' {
            1nat
        } else {
            0nat
        })
    }
}

/// A line without the carriage return at its end.
pub open spec fn without_return(s: Seq<char>) -> Seq<char> {
    if s.len() > 0 && s.last() == '\r' {
        s.drop_last()
    } else {
        s
    }
}

/// The lines of `s`: what a line feed, or a carriage return and a line feed, ends, and what
/// follows the last line feed unless it is empty.
pub open spec fn lines(s: Seq<char>) -> Seq<Seq<char>>
    decreases s.len(),
{
    if s.len() == 0 {
        seq![]
    } else {
        proof {
            lemma_find_from(s, seq!['\n'], 0);
        }
        match find(s, seq!['\n']) {
            Some(i) => seq![without_return(s.take(i))] + lines(s.skip(i + 1)),
            None => seq![s],
        }
    }
}

// ---------------------------------------------------------------------------------------------
// Numbers

/// The character of a decimal digit.
pub open spec fn digit(d: nat) -> char {
    ('0' as nat + d) as char
}

/// A number in decimal.
pub open spec fn decimal(n: nat) -> Seq<char>
    decreases n,
{
    if n < 10 {
        seq![digit(n)]
    } else {
        decimal(n / 10).push(digit(n % 10))
    }
}

/// The characters of different digits differ.
proof fn lemma_digit(a: nat, b: nat)
    requires
        a < 10,
        b < 10,
        digit(a) == digit(b),
    ensures
        a == b,
{
    assert(digit(a) as nat == '0' as nat + a);
    assert(digit(b) as nat == '0' as nat + b);
}

/// Different numbers are written differently.
pub proof fn lemma_decimal_injective(a: nat, b: nat)
    requires
        decimal(a) == decimal(b),
    ensures
        a == b,
    decreases a,
{
    assert(decimal(a).len() >= 1 && decimal(b).len() >= 1);
    if a < 10 && b < 10 {
        assert(decimal(a)[0] == digit(a));
        assert(decimal(b)[0] == digit(b));
        lemma_digit(a, b);
    } else if a < 10 || b < 10 {
        let (small, large) = if a < 10 {
            (a, b)
        } else {
            (b, a)
        };
        assert(decimal(small).len() == 1);
        assert(decimal(large / 10).len() >= 1);
        assert(decimal(large).len() >= 2);
    } else {
        assert(decimal(a).last() == digit(a % 10));
        assert(decimal(b).last() == digit(b % 10));
        lemma_digit(a % 10, b % 10);
        assert(decimal(a).drop_last() =~= decimal(a / 10));
        assert(decimal(b).drop_last() =~= decimal(b / 10));
        lemma_decimal_injective(a / 10, b / 10);
    }
}

// ---------------------------------------------------------------------------------------------
// Case

/// An ASCII letter in lower case, any other character as it is.
pub open spec fn ascii_lower(c: char) -> char {
    if 'A' <= c && c <= 'Z' {
        (c as u32 + 32) as char
    } else {
        c
    }
}

/// Two texts are equal but for the case of ASCII letters.
pub open spec fn same_but_case(a: Seq<char>, b: Seq<char>) -> bool {
    a.len() == b.len() && forall|i: int|
        0 <= i < a.len() ==> ascii_lower(#[trigger] a[i]) == ascii_lower(b[i])
}

// ---------------------------------------------------------------------------------------------
// Views of lists

/// The texts of a list of strings.
pub open spec fn texts(v: Seq<String>) -> Seq<Seq<char>> {
    v.map_values(|s: String| s@)
}

/// The text of a string that may be missing.
pub open spec fn text_of_option(s: Option<String>) -> Option<Seq<char>> {
    match s {
        Some(s) => Some(s@),
        None => None,
    }
}

// ---------------------------------------------------------------------------------------------
// Functions on characters

/// The characters of a string.
pub fn chars_of(s: &str) -> (r: Vec<char>)
    ensures
        r@ == s@,
{
    let mut r: Vec<char> = Vec::new();
    for c in it: s.chars()
        invariant
            r@ == s@.take(it.index() as int),
            it.seq() == s@,
    {
        r.push(c);
    }
    r
}

/// The string that holds the characters from `from` up to `to`.
pub fn string_of(v: &Vec<char>, from: usize, to: usize) -> (r: String)
    requires
        from <= to <= v@.len(),
    ensures
        r@ == v@.subrange(from as int, to as int),
{
    let mut r = String::new();
    append_chars(&mut r, v, from, to);
    assert(Seq::<char>::empty() + v@.subrange(from as int, to as int) =~= v@.subrange(
        from as int,
        to as int,
    ));
    r
}

/// Appends the characters from `from` up to `to`.
pub fn append_chars(r: &mut String, v: &Vec<char>, from: usize, to: usize)
    requires
        from <= to <= v@.len(),
    ensures
        final(r)@ == old(r)@ + v@.subrange(from as int, to as int),
{
    let mut i: usize = from;
    while i < to
        invariant
            from <= i <= to <= v@.len(),
            r@ == old(r)@ + v@.subrange(from as int, i as int),
        decreases to - i,
    {
        r.push(v[i]);
        i = i + 1;
    }
}

/// Whether `p` stands in `v` at position `i`.
fn chars_occur_at(v: &Vec<char>, p: &Vec<char>, i: usize) -> (r: bool)
    requires
        i <= v@.len(),
    ensures
        r == occurs_at(v@, p@, i as int),
{
    if p.len() > v.len() - i {
        return false;
    }
    let n: usize = v.len();
    let mut j: usize = 0;
    while j < p.len()
        invariant
            j <= p@.len(),
            n == v@.len(),
            i + p@.len() <= n,
            forall|k: int| 0 <= k < j ==> v@[i + k] == p@[k],
        decreases p@.len() - j,
    {
        if v[i + j] != p[j] {
            assert(v@.subrange(i as int, i + p@.len())[j as int] != p@[j as int]);
            return false;
        }
        j = j + 1;
    }
    assert(v@.subrange(i as int, i + p@.len()) =~= p@);
    true
}

/// The first position of `p` in `v` that is not before `from`.
pub fn find_chars(v: &Vec<char>, p: &Vec<char>, from: usize) -> (r: Option<usize>)
    requires
        from <= v@.len(),
    ensures
        match r {
            Some(i) => find_from(v@, p@, from as int) == Some(i as int) && from <= i && i + p@.len()
                <= v@.len(),
            None => find_from(v@, p@, from as int) is None,
        },
{
    let mut i: usize = from;
    while p.len() <= v.len() - i
        invariant
            from <= i <= v@.len(),
            find_from(v@, p@, from as int) == find_from(v@, p@, i as int),
        decreases v@.len() - i,
    {
        if chars_occur_at(v, p, i) {
            return Some(i);
        }
        proof {
            if i == v@.len() {
                assert(v@.subrange(i as int, i + p@.len()) =~= p@);
            }
        }
        i = i + 1;
    }
    None
}

// ---------------------------------------------------------------------------------------------
// Functions on strings

/// Whether two strings hold the same text.
pub fn same_text(a: &str, b: &str) -> (r: bool)
    ensures
        r == (a@ == b@),
{
    a.to_owned() == b.to_owned()
}

/// The position, counted in characters, at which `pat` first stands in `s`.
pub fn find_text(s: &str, pat: &str) -> (r: Option<usize>)
    ensures
        match r {
            Some(i) => find(s@, pat@) == Some(i as int) && i + pat@.len() <= s@.len(),
            None => find(s@, pat@) is None,
        },
{
    find_chars(&chars_of(s), &chars_of(pat), 0)
}

/// Whether `pat` stands in `s`.
pub fn contains_text(s: &str, pat: &str) -> (r: bool)
    ensures
        r == contains(s@, pat@),
{
    proof {
        lemma_find_contains(s@, pat@);
    }
    find_text(s, pat).is_some()
}

/// Whether `s` begins with `pat`.
pub fn starts_with_text(s: &str, pat: &str) -> (r: bool)
    ensures
        r == starts_with(s@, pat@),
{
    chars_occur_at(&chars_of(s), &chars_of(pat), 0)
}

/// `s` with the first `pat` replaced by `rep`.
pub fn replace_first_text(s: &str, pat: &str, rep: &str) -> (r: String)
    ensures
        r@ == replace_first(s@, pat@, rep@),
{
    let v = chars_of(s);
    let p = chars_of(pat);
    let n: usize = v.len();
    match find_chars(&v, &p, 0) {
        Some(i) => {
            let mut r = string_of(&v, 0, i);
            r.append(rep);
            append_chars(&mut r, &v, i + p.len(), n);
            r
        },
        None => s.to_owned(),
    }
}

/// `s` with every `pat` replaced by `rep`.
pub fn replace_text(s: &str, pat: &str, rep: &str) -> (r: String)
    ensures
        r@ == replace_all(s@, pat@, rep@),
{
    let v = chars_of(s);
    let p = chars_of(pat);
    let mut r = String::new();
    if p.len() == 0 {
        r.append(rep);
        let mut i: usize = 0;
        assert(r@ =~= interleave(v@.take(0), rep@));
        while i < v.len()
            invariant
                i <= v@.len(),
                r@ == interleave(v@.take(i as int), rep@),
            decreases v@.len() - i,
        {
            r.push(v[i]);
            r.append(rep);
            assert(v@.take(i + 1).drop_last() =~= v@.take(i as int));
            i = i + 1;
        }
        assert(v@.take(i as int) =~= v@);
        return r;
    }
    let n: usize = v.len();
    let mut pos: usize = 0;
    assert(v@.skip(0) =~= v@);
    assert(Seq::<char>::empty() + replace_all(v@, p@, rep@) =~= replace_all(v@, p@, rep@));
    loop
        invariant
            v@ == s@,
            p@ == pat@,
            p@.len() > 0,
            n == v@.len(),
            pos <= n,
            r@ + replace_all(v@.skip(pos as int), p@, rep@) == replace_all(s@, p@, rep@),
        ensures
            r@ + v@.skip(pos as int) == replace_all(s@, p@, rep@),
            pos <= n,
        decreases n - pos,
    {
        proof {
            lemma_find_shift(v@, p@, pos as int, 0);
        }
        let ghost t = v@.skip(pos as int);
        match find_chars(&v, &p, pos) {
            Some(i) => {
                let ghost before = r@;
                append_chars(&mut r, &v, pos, i);
                r.append(rep);
                assert(t.take(i - pos) =~= v@.subrange(pos as int, i as int));
                assert(t.skip(i - pos + p@.len()) =~= v@.skip(i + p@.len()));
                assert(before + (t.take(i - pos) + rep@ + replace_all(
                    v@.skip(i + p@.len()),
                    p@,
                    rep@,
                )) =~= r@ + replace_all(v@.skip(i + p@.len()), p@, rep@));
                pos = i + p.len();
            },
            None => {
                break;
            },
        }
    }
    append_chars(&mut r, &v, pos, n);
    assert(v@.skip(pos as int) =~= v@.subrange(pos as int, v@.len() as int));
    r
}

/// The number of line feeds in `s`.
pub fn count_newlines(s: &str) -> (r: usize)
    ensures
        r == newlines(s@),
        r <= s@.len(),
{
    let v = chars_of(s);
    let mut n: usize = 0;
    let mut i: usize = 0;
    assert(v@.take(0) =~= Seq::<char>::empty());
    while i < v.len()
        invariant
            n <= i <= v@.len(),
            n == newlines(v@.take(i as int)),
        decreases v@.len() - i,
    {
        assert(v@.take(i + 1).drop_last() =~= v@.take(i as int));
        if v[i] == '\n' {
            n = n + 1;
        }
        i = i + 1;
    }
    assert(v@.take(i as int) =~= v@);
    n
}

/// The lines of `s`.
pub fn lines_of(s: &str) -> (r: Vec<String>)
    ensures
        texts(r@) == lines(s@),
{
    let v = chars_of(s);
    let mut p: Vec<char> = Vec::new();
    p.push('\n');
    assert(p@ =~= seq!['\n']);
    let mut r: Vec<String> = Vec::new();
    let mut pos: usize = 0;
    assert(v@.skip(0) =~= v@);
    assert(texts(r@) + lines(v@) =~= lines(v@));
    while pos < v.len()
        invariant
            v@ == s@,
            p@ == seq!['\n'],
            pos <= v@.len(),
            texts(r@) + lines(v@.skip(pos as int)) == lines(s@),
        decreases v@.len() - pos,
    {
        let ghost t = v@.skip(pos as int);
        let ghost before = r@;
        proof {
            lemma_find_shift(v@, p@, pos as int, 0);
        }
        match find_chars(&v, &p, pos) {
            Some(i) => {
                let end: usize = if i > pos && v[i - 1] == '\r' {
                    i - 1
                } else {
                    i
                };
                let line = string_of(&v, pos, end);
                assert(line@ =~= without_return(t.take(i - pos)));
                assert(t.skip(i - pos + 1) =~= v@.skip(i + 1));
                r.push(line);
                assert(texts(r@) =~= texts(before) + seq![line@]);
                assert(texts(before) + (seq![line@] + lines(v@.skip(i + 1))) =~= texts(r@) + lines(
                    v@.skip(i + 1),
                ));
                pos = i + 1;
            },
            None => {
                let line = string_of(&v, pos, v.len());
                assert(line@ =~= t);
                r.push(line);
                assert(texts(r@) =~= texts(before) + seq![line@]);
                pos = v.len();
                assert(texts(r@) + lines(v@.skip(pos as int)) =~= texts(r@));
            },
        }
    }
    assert(texts(r@) + lines(v@.skip(pos as int)) =~= texts(r@));
    r
}

/// `n` in decimal.
pub fn decimal_text(n: u64) -> (r: String)
    ensures
        r@ == decimal(n as nat),
    decreases n,
{
    let d: u8 = (n % 10) as u8;
    let c: char = (48 + d) as char;
    if n < 10 {
        let mut r = String::new();
        r.push(c);
        assert(r@ =~= seq![digit(n as nat)]);
        r
    } else {
        let mut r = decimal_text(n / 10);
        r.push(c);
        r
    }
}

/// The number of bytes that the first `k` characters of `s` take.
pub fn byte_offset(s: &str, k: usize) -> (r: usize)
    requires
        k <= s@.len(),
    ensures
        r == vstd::utf8::encode_utf8(s@.take(k as int)).len(),
{
    assert(s@.subrange(0, k as int) =~= s@.take(k as int));
    s.substring_char(0, k).as_bytes().len()
}

/// Whether `v` holds the text `s`.
pub fn holds_text(v: &[String], s: &str) -> (r: bool)
    ensures
        r == texts(v@).contains(s@),
{
    let mut i: usize = 0;
    while i < v.len()
        invariant
            i <= v@.len(),
            forall|j: int| 0 <= j < i ==> v@[j]@ != s@,
        decreases v@.len() - i,
    {
        if same_text(v[i].as_str(), s) {
            assert(texts(v@)[i as int] == s@);
            return true;
        }
        i = i + 1;
    }
    assert forall|j: int| 0 <= j < texts(v@).len() implies texts(v@)[j] != s@ by {
        assert(texts(v@)[j] == v@[j]@);
    }
    false
}

} // verus!
