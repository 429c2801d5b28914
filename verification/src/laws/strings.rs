//! Laws of texts and numbers.

use crate::{code_block, text};
use vstd::prelude::*;

verus! {

/// Pieces of text with a separator between each two of them.
pub open spec fn join(pieces: Seq<Seq<char>>, sep: Seq<char>) -> Seq<char>
    decreases pieces.len(),
{
    if pieces.len() == 0 {
        seq![]
    } else if pieces.len() == 1 {
        pieces[0]
    } else {
        pieces[0] + sep + join(pieces.drop_first(), sep)
    }
}

/// One piece more in front.
pub proof fn lemma_join_front(first: Seq<char>, pieces: Seq<Seq<char>>, sep: Seq<char>)
    requires
        pieces.len() > 0,
    ensures
        join(seq![first] + pieces, sep) == first + sep + join(pieces, sep),
{
    assert((seq![first] + pieces).drop_first() =~= pieces);
}

// ---------------------------------------------------------------------------------------------
// Searching

/// A pattern occurs at a position exactly if its characters stand there one after another.
pub proof fn lemma_occurs(s: Seq<char>, pat: Seq<char>, i: int)
    ensures
        text::occurs_at(s, pat, i) <==> {
            &&& 0 <= i
            &&& i + pat.len() <= s.len()
            &&& forall|k: int| 0 <= k < pat.len() ==> s[i + k] == #[trigger] pat[k]
        },
{
    if 0 <= i && i + pat.len() <= s.len() {
        let t = s.subrange(i, i + pat.len());
        if forall|k: int| 0 <= k < pat.len() ==> s[i + k] == #[trigger] pat[k] {
            assert(t =~= pat);
        }
        if t == pat {
            assert forall|k: int| 0 <= k < pat.len() implies s[i + k] == #[trigger] pat[k] by {
                assert(t[k] == pat[k]);
            }
        }
    }
}

/// A text has a pattern in it.
pub open spec fn has(s: Seq<char>, pat: Seq<char>) -> bool {
    exists|a: Seq<char>, b: Seq<char>| s == #[trigger] (a + pat + b)
}

/// A text that is put together around a pattern contains the pattern, and any text that contains it
/// is put together so.
pub proof fn lemma_contains(s: Seq<char>, pat: Seq<char>)
    ensures
        text::contains(s, pat) <==> exists|a: Seq<char>, b: Seq<char>| s == #[trigger] (a + pat + b),
{
    if text::contains(s, pat) {
        let i = choose|i: int| text::occurs_at(s, pat, i);
        let a = s.take(i);
        let b = s.skip(i + pat.len());
        assert(s =~= a + s.subrange(i, i + pat.len()) + b);
        assert(s == a + pat + b);
    }
    if exists|a: Seq<char>, b: Seq<char>| s == #[trigger] (a + pat + b) {
        let (a, b) = choose|a: Seq<char>, b: Seq<char>| s == #[trigger] (a + pat + b);
        assert(s.subrange(a.len() as int, (a.len() + pat.len()) as int) =~= pat);
        assert(text::occurs_at(s, pat, a.len() as int));
    }
}

/// A text starts with a pattern exactly if it is the pattern and something behind it.
pub proof fn lemma_starts_with(s: Seq<char>, pat: Seq<char>)
    ensures
        text::starts_with(s, pat) <==> exists|b: Seq<char>| s == #[trigger] (pat + b),
        forall|b: Seq<char>| text::starts_with(#[trigger] (pat + b), pat),
{
    if text::starts_with(s, pat) {
        let b = s.skip(pat.len() as int);
        assert(s =~= s.subrange(0, pat.len() as int) + b);
        assert(s == pat + b);
    }
    assert forall|b: Seq<char>| text::starts_with(#[trigger] (pat + b), pat) by {
        assert((pat + b).subrange(0, pat.len() as int) =~= pat);
    }
}

/// A search gives the first place where the pattern stands, and nothing exactly if it stands nowhere.
pub proof fn lemma_find(s: Seq<char>, pat: Seq<char>)
    ensures
        match text::find(s, pat) {
            Some(i) => {
                &&& 0 <= i
                &&& i + pat.len() <= s.len()
                &&& s.subrange(i, i + pat.len()) == pat
                &&& forall|j: int|
                    0 <= j < i ==> #[trigger] s.subrange(j, j + pat.len()) != pat
            },
            None => forall|a: Seq<char>, b: Seq<char>| s != #[trigger] (a + pat + b),
        },
{
    text::lemma_find_from(s, pat, 0);
    text::lemma_find_contains(s, pat);
    lemma_contains(s, pat);
    if let Some(i) = text::find(s, pat) {
        assert forall|j: int| 0 <= j < i implies #[trigger] s.subrange(j, j + pat.len()) != pat by {
            assert(!text::occurs_at(s, pat, j));
        }
    }
}

// ---------------------------------------------------------------------------------------------
// Replacing

/// Replacing the first occurrence leaves a text without the pattern as it is. Otherwise what stands
/// before the first occurrence and what stands behind it stay, and only the occurrence goes.
pub proof fn lemma_replace_first(s: Seq<char>, pat: Seq<char>, rep: Seq<char>)
    ensures
        !text::contains(s, pat) ==> text::replace_first(s, pat, rep) == s,
        text::contains(s, pat) ==> exists|a: Seq<char>, b: Seq<char>|
            {
                &&& s == #[trigger] (a + pat + b)
                &&& text::replace_first(s, pat, rep) == a + rep + b
                &&& forall|j: int| 0 <= j < a.len() ==> !text::occurs_at(s, pat, j)
            },
{
    text::lemma_find_from(s, pat, 0);
    text::lemma_find_contains(s, pat);
    if let Some(i) = text::find(s, pat) {
        let a = s.take(i);
        let b = s.skip(i + pat.len());
        assert(s =~= a + s.subrange(i, i + pat.len()) + b);
        assert(s == a + pat + b);
    }
}

/// Replacing all occurrences takes a text apart at the pattern, from the left and without overlap,
/// and puts the same pieces together with the replacement between them. The result are the pieces.
pub proof fn lemma_replace_all(s: Seq<char>, pat: Seq<char>, rep: Seq<char>) -> (pieces: Seq<
    Seq<char>,
>)
    requires
        pat.len() > 0,
    ensures
        pieces.len() > 0,
        s == join(pieces, pat),
        text::replace_all(s, pat, rep) == join(pieces, rep),
        forall|k: int| 0 <= k < pieces.len() ==> !text::contains(#[trigger] pieces[k], pat),
        forall|k: int, j: int|
            0 <= k < pieces.len() - 1 && 0 <= j < pieces[k].len() ==> !#[trigger] text::occurs_at(
                pieces[k] + pat,
                pat,
                j,
            ),
    decreases s.len(),
{
    text::lemma_find_from(s, pat, 0);
    text::lemma_find_contains(s, pat);
    match text::find(s, pat) {
        None => {
            let pieces = seq![s];
            pieces
        },
        Some(i) => {
            let first = s.take(i);
            let rest = s.skip(i + pat.len());
            let others = lemma_replace_all(rest, pat, rep);
            let pieces = seq![first] + others;
            lemma_join_front(first, others, pat);
            lemma_join_front(first, others, rep);
            assert(s =~= first + s.subrange(i, i + pat.len()) + rest);
            assert forall|j: int| 0 <= j < i implies !text::occurs_at(first + pat, pat, j) by {
                if text::occurs_at(first + pat, pat, j) {
                    assert(s.subrange(j, j + pat.len()) =~= (first + pat).subrange(
                        j,
                        j + pat.len(),
                    ));
                    assert(text::occurs_at(s, pat, j));
                }
            }
            assert(!text::contains(first, pat)) by {
                if text::contains(first, pat) {
                    let j = choose|j: int| text::occurs_at(first, pat, j);
                    assert(s.subrange(j, j + pat.len()) =~= first.subrange(j, j + pat.len()));
                    assert(text::occurs_at(s, pat, j));
                }
            }
            assert forall|k: int| 0 <= k < pieces.len() implies !text::contains(
                #[trigger] pieces[k],
                pat,
            ) by {
                if k > 0 {
                    assert(pieces[k] == others[k - 1]);
                }
            }
            assert forall|k: int, j: int|
                0 <= k < pieces.len() - 1 && 0 <= j < pieces[k].len() implies
                !#[trigger] text::occurs_at(pieces[k] + pat, pat, j) by {
                if k > 0 {
                    assert(pieces[k] == others[k - 1]);
                }
            }
            pieces
        },
    }
}

/// The characters of a text as pieces, with an empty piece at either end.
pub open spec fn letters(s: Seq<char>) -> Seq<Seq<char>> {
    seq![Seq::<char>::empty()] + s.map_values(|c: char| seq![c]) + seq![Seq::<char>::empty()]
}

proof fn lemma_interleave_front(s: Seq<char>, rep: Seq<char>)
    requires
        s.len() > 0,
    ensures
        text::interleave(s, rep) == rep.push(s[0]) + text::interleave(s.drop_first(), rep),
    decreases s.len(),
{
    let rest = s.drop_last();
    if s.len() == 1 {
        assert(rest =~= seq![]);
        assert(s.drop_first() =~= seq![]);
        assert(text::interleave(rest, rep) == rep);
    } else {
        lemma_interleave_front(rest, rep);
        assert(rest.drop_first() =~= s.drop_first().drop_last());
        assert(s.drop_first().last() == s.last());
        let t = text::interleave(rest.drop_first(), rep);
        assert((rep.push(s[0]) + t).push(s.last()) + rep =~= rep.push(s[0]) + (t.push(s.last())
            + rep));
    }
}

proof fn lemma_join_letters(s: Seq<char>, rep: Seq<char>)
    ensures
        join(s.map_values(|c: char| seq![c]) + seq![Seq::<char>::empty()], rep) == (if s.len() == 0 {
            seq![]
        } else {
            seq![s[0]] + text::interleave(s.drop_first(), rep)
        }),
    decreases s.len(),
{
    let singles = s.map_values(|c: char| seq![c]);
    let all = singles + seq![Seq::<char>::empty()];
    if s.len() > 0 {
        let rest = s.drop_first();
        let others = rest.map_values(|c: char| seq![c]) + seq![Seq::<char>::empty()];
        lemma_join_letters(rest, rep);
        assert(all =~= seq![seq![s[0]]] + others);
        lemma_join_front(seq![s[0]], others, rep);
        if rest.len() > 0 {
            lemma_interleave_front(rest, rep);
            let t = text::interleave(rest.drop_first(), rep);
            assert(seq![s[0]] + rep + (seq![rest[0]] + t) =~= seq![s[0]] + (rep.push(rest[0]) + t));
        } else {
            assert(seq![s[0]] + rep + Seq::<char>::empty() =~= seq![s[0]] + rep);
        }
    }
}

/// The empty pattern stands before, between and behind all characters.
pub proof fn lemma_replace_empty(s: Seq<char>, rep: Seq<char>)
    ensures
        text::replace_all(s, seq![], rep) == join(letters(s), rep),
{
    let others = s.map_values(|c: char| seq![c]) + seq![Seq::<char>::empty()];
    assert(letters(s) =~= seq![Seq::<char>::empty()] + others);
    lemma_join_front(seq![], others, rep);
    lemma_join_letters(s, rep);
    if s.len() > 0 {
        lemma_interleave_front(s, rep);
        let t = text::interleave(s.drop_first(), rep);
        assert(Seq::<char>::empty() + rep + (seq![s[0]] + t) =~= rep.push(s[0]) + t);
    } else {
        assert(Seq::<char>::empty() + rep + Seq::<char>::empty() =~= rep);
    }
}

// ---------------------------------------------------------------------------------------------
// Lines

/// The line feeds of two texts are those of the texts together, and each line feed is one.
pub proof fn lemma_newlines(a: Seq<char>, b: Seq<char>)
    ensures
        text::newlines(a + b) == text::newlines(a) + text::newlines(b),
        text::newlines(seq!['\n']) == 1,
        forall|c: char| c != '\n' ==> text::newlines(#[trigger] seq![c]) == 0,
        text::newlines(seq![]) == 0,
    decreases b.len(),
{
    assert forall|c: char| text::newlines(#[trigger] seq![c]) == (if c == '\n' {
        1nat
    } else {
        0nat
    }) by {
        assert(seq![c].drop_last() =~= seq![]);
        assert(text::newlines(seq![]) == 0);
    }
    if b.len() == 0 {
        assert(a + b =~= a);
    } else {
        lemma_newlines(a, b.drop_last());
        assert((a + b).drop_last() =~= a + b.drop_last());
        assert((a + b).last() == b.last());
    }
}

/// A text taken apart at its line feeds gives its lines: each without the carriage return before its
/// line feed, and without what follows the last line feed if that is empty. The result are the parts.
pub proof fn lemma_lines(s: Seq<char>) -> (parts: Seq<Seq<char>>)
    ensures
        parts.len() > 0,
        s == join(parts, seq!['\n']),
        forall|k: int| 0 <= k < parts.len() ==> !(#[trigger] parts[k]).contains('\n'),
        text::lines(s).len() == (if parts.last().len() == 0 {
            parts.len() - 1
        } else {
            parts.len() as int
        }),
        forall|k: int|
            0 <= k < text::lines(s).len() ==> #[trigger] text::lines(s)[k] == (if k < parts.len()
                - 1 && parts[k].len() > 0 && parts[k].last() == '\r' {
                parts[k].drop_last()
            } else {
                parts[k]
            }),
    decreases s.len(),
{
    let nl = seq!['\n'];
    text::lemma_find_from(s, nl, 0);
    if s.len() == 0 {
        let parts = seq![s];
        parts
    } else {
        match text::find(s, nl) {
            None => {
                let parts = seq![s];
                assert(!s.contains('\n')) by {
                    if s.contains('\n') {
                        let i = choose|i: int| 0 <= i < s.len() && s[i] == '\n';
                        assert(s.subrange(i, i + 1) =~= nl);
                        assert(text::occurs_at(s, nl, i));
                    }
                }
                parts
            },
            Some(i) => {
                let first = s.take(i);
                let rest = s.skip(i + 1);
                assert(s.subrange(i, i + 1)[0] == s[i]);
                let others = lemma_lines(rest);
                let parts = seq![first] + others;
                lemma_join_front(first, others, nl);
                assert(s =~= first + nl + rest);
                assert(parts.last() == others.last());
                assert(!first.contains('\n')) by {
                    if first.contains('\n') {
                        let j = choose|j: int| 0 <= j < first.len() && first[j] == '\n';
                        assert(s.subrange(j, j + 1) =~= nl);
                        assert(text::occurs_at(s, nl, j));
                    }
                }
                assert forall|k: int| 0 <= k < parts.len() implies !(
                #[trigger] parts[k]).contains('\n') by {
                    if k > 0 {
                        assert(parts[k] == others[k - 1]);
                    }
                }
                let all = text::lines(s);
                let later = text::lines(rest);
                assert(all.len() == later.len() + 1);
                assert forall|k: int| 0 <= k < all.len() implies #[trigger] all[k] == (if k
                    < parts.len() - 1 && parts[k].len() > 0 && parts[k].last() == '\r' {
                    parts[k].drop_last()
                } else {
                    parts[k]
                }) by {
                    if k > 0 {
                        assert(all[k] == later[k - 1]);
                        assert(parts[k] == others[k - 1]);
                    }
                }
                parts
            },
        }
    }
}

// ---------------------------------------------------------------------------------------------
// Numbers

/// Digits behind digits count as in decimal: what stands before them counts ten times as much for
/// each of them, and a single digit counts as itself.
pub proof fn lemma_number(a: Seq<char>, b: Seq<char>)
    ensures
        code_block::number(a + b) == code_block::number(a) * vstd::arithmetic::power::pow(10, b.len()) + code_block::number(
            b,
        ),
        forall|c: char|
            '0' <= c && c <= '9' ==> code_block::number(#[trigger] seq![c]) == c as int - 48,
    decreases b.len(),
{
    assert forall|c: char| '0' <= c && c <= '9' implies code_block::number(#[trigger] seq![c])
        == c as int - 48 by {
        assert(seq![c].drop_last() =~= seq![]);
        assert(code_block::number(seq![]) == 0);
    }
    if b.len() == 0 {
        assert(a + b =~= a);
        vstd::arithmetic::power::lemma_pow0(10);
        assert(code_block::number(b) == 0);
    } else {
        let rest = b.drop_last();
        lemma_number(a, rest);
        assert((a + b).drop_last() =~= a + rest);
        assert((a + b).last() == b.last());
        vstd::arithmetic::power::lemma_pow1(10);
        vstd::arithmetic::power::lemma_pow_adds(10, rest.len(), 1);
        let x = code_block::number(a) as int;
        let y = code_block::number(rest) as int;
        let p = vstd::arithmetic::power::pow(10, rest.len());
        assert((x * p + y) * 10 == x * (p * 10) + y * 10) by (nonlinear_arith);
        assert(vstd::arithmetic::power::pow(10, b.len()) == p * 10);
    }
}

/// A number in decimal is made of digits, counts as the number, and does not begin with a 0 unless it
/// is 0.
pub proof fn lemma_decimal(n: nat)
    ensures
        code_block::number(text::decimal(n)) == n,
        text::decimal(n).len() > 0,
        forall|i: int|
            0 <= i < text::decimal(n).len() ==> '0' <= (#[trigger] text::decimal(n)[i])
                && text::decimal(n)[i] <= '9',
        text::decimal(n)[0] == '0' ==> n == 0,
    decreases n,
{
    code_block::lemma_number_of_decimal(n);
    assert forall|i: int| 0 <= i < text::decimal(n).len() implies '0' <= (#[trigger] text::decimal(
        n,
    )[i]) && text::decimal(n)[i] <= '9' by {
        assert(code_block::is_digit(text::decimal(n)[i]));
    }
    if n < 10 {
        assert(text::decimal(n)[0] == text::digit(n));
        assert(text::digit(n) as nat == '0' as nat + n);
    } else {
        lemma_decimal(n / 10);
        assert(text::decimal(n)[0] == text::decimal(n / 10)[0]);
    }
}

// ---------------------------------------------------------------------------------------------
// Case

/// The one character is the other, or the same letter in the other case.
pub open spec fn same_letter(a: char, b: char) -> bool {
    ||| a == b
    ||| 'A' <= a && a <= 'Z' && b as int == a as int + 32
    ||| 'A' <= b && b <= 'Z' && a as int == b as int + 32
}

/// Texts are the same but for their case exactly if they are so letter by letter.
pub proof fn lemma_same_but_case(a: Seq<char>, b: Seq<char>)
    ensures
        text::same_but_case(a, b) <==> a.len() == b.len() && forall|i: int|
            0 <= i < a.len() ==> same_letter(#[trigger] a[i], b[i]),
{
    assert forall|x: char, y: char|
        same_letter(x, y) <==> #[trigger] text::ascii_lower(x) == #[trigger] text::ascii_lower(y) by {
        assert('A' <= x && x <= 'Z' ==> text::ascii_lower(x) as int == x as int + 32);
        assert('A' <= y && y <= 'Z' ==> text::ascii_lower(y) as int == y as int + 32);
    }
    if text::same_but_case(a, b) {
        assert forall|i: int| 0 <= i < a.len() implies same_letter(#[trigger] a[i], b[i]) by {
            assert(text::ascii_lower(a[i]) == text::ascii_lower(b[i]));
        }
    }
}

} // verus!
