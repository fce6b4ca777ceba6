use vstd::prelude::*;

use crate::error::SyntaxError;

verus! {

pub open spec fn is_space_char(c: char) -> bool {
    c == ' ' || c == '\n' || c == '\t'
}

/// The characters that open and continue a number: the digits 1 to 9 and `.`.
pub open spec fn is_number_char(c: char) -> bool {
    c == '1' || c == '2' || c == '3' || c == '4' || c == '5' || c == '6' || c == '7' || c == '8'
        || c == '9' || c == '.'
}

/// A number literal: number characters only, at least one digit, at most one `.`.
pub open spec fn valid_number(t: Seq<char>) -> bool {
    &&& forall|i: int| 0 <= i < t.len() ==> is_number_char(#[trigger] t[i])
    &&& exists|i: int| 0 <= i < t.len() && #[trigger] t[i] != '.'
    &&& forall|i: int, j: int|
        0 <= i < t.len() && 0 <= j < t.len() && #[trigger] t[i] == '.' && #[trigger] t[j] == '.'
            ==> i == j
}

pub fn is_number(c: char) -> (r: bool)
    ensures
        r == is_number_char(c),
{
    c == '1' || c == '2' || c == '3' || c == '4' || c == '5' || c == '6' || c == '7' || c == '8'
        || c == '9' || c == '.'
}

pub fn is_space(c: char) -> (r: bool)
    ensures
        r == is_space_char(c),
{
    c == ' ' || c == '\n' || c == '\t'
}

/// Whether `smaller` stands in `bigger` from `cursor` on; an error at `cursor`
/// where it does not, or where `bigger` ends first.
pub fn compare_letter(bigger: &[char], smaller: &[char], cursor: usize) -> (r: Result<
    (),
    SyntaxError,
>)
    ensures
        r is Ok <==> (cursor + smaller@.len() <= bigger@.len() && bigger@.subrange(
            cursor as int,
            cursor + smaller@.len(),
        ) == smaller@),
        r matches Err(e) ==> e == SyntaxError::UnexpectedCharacterAt(cursor),
{
    if cursor > bigger.len() || bigger.len() - cursor < smaller.len() {
        return Err(SyntaxError::UnexpectedCharacterAt(cursor));
    }
    let mut idx: usize = 0;
    while idx < smaller.len()
        invariant
            idx <= smaller@.len(),
            cursor + smaller@.len() <= bigger@.len(),
            bigger@.len() == bigger.len(),
            forall|k: int| 0 <= k < idx ==> bigger@[cursor + k] == smaller@[k],
        decreases smaller@.len() - idx,
    {
        if bigger[idx + cursor] != smaller[idx] {
            assert(bigger@.subrange(cursor as int, cursor + smaller@.len())[idx as int]
                != smaller@[idx as int]);
            return Err(SyntaxError::UnexpectedCharacterAt(cursor));
        }
        idx = idx + 1;
    }
    assert(bigger@.subrange(cursor as int, cursor + smaller@.len()) =~= smaller@);
    Ok(())
}

/// Whether `bigger` ends inside `word` placed at `cursor`: what is left of
/// `bigger` from `cursor` on is a proper beginning of `word`.
pub fn ends_inside(bigger: &[char], word: &[char], cursor: usize) -> (r: bool)
    ensures
        r == (cursor <= bigger@.len() < cursor + word@.len() && bigger@.subrange(
            cursor as int,
            bigger@.len() as int,
        ) == word@.subrange(0, bigger@.len() - cursor)),
{
    let n = bigger.len();
    if cursor > n || n - cursor >= word.len() {
        return false;
    }
    let mut i: usize = cursor;
    while i < n
        invariant
            cursor <= i <= n,
            n == bigger@.len(),
            n < cursor + word@.len(),
            forall|k: int| cursor <= k < i ==> bigger@[k] == word@[k - cursor],
        decreases n - i,
    {
        if bigger[i] != word[i - cursor] {
            assert(bigger@.subrange(cursor as int, n as int)[i - cursor] != word@.subrange(
                0,
                n - cursor,
            )[i - cursor]);
            return false;
        }
        i = i + 1;
    }
    assert(bigger@.subrange(cursor as int, n as int) =~= word@.subrange(0, n - cursor));
    true
}

/// Whether `chars[start..end]` is a number literal.
pub fn is_number_text(chars: &[char], start: usize, end: usize) -> (r: bool)
    requires
        start <= end <= chars@.len(),
    ensures
        r == valid_number(chars@.subrange(start as int, end as int)),
{
    let ghost t = chars@.subrange(start as int, end as int);
    let mut i: usize = start;
    let mut seen_dot = false;
    let mut has_digit = false;
    while i < end
        invariant
            start <= i <= end <= chars@.len(),
            t == chars@.subrange(start as int, end as int),
            forall|k: int| 0 <= k < i - start ==> is_number_char(#[trigger] t[k]),
            seen_dot <==> exists|k: int| 0 <= k < i - start && #[trigger] t[k] == '.',
            has_digit <==> exists|k: int| 0 <= k < i - start && #[trigger] t[k] != '.',
            forall|a: int, b: int|
                0 <= a < i - start && 0 <= b < i - start && #[trigger] t[a] == '.' && #[trigger] t[b]
                    == '.' ==> a == b,
        decreases end - i,
    {
        let c = chars[i];
        assert(t[i - start] == c);
        if !is_number(c) {
            return false;
        }
        if c == '.' {
            if seen_dot {
                let ghost k = choose|k: int| 0 <= k < i - start && #[trigger] t[k] == '.';
                assert(t[k] == '.' && t[i - start] == '.');
                return false;
            }
            seen_dot = true;
        } else {
            has_digit = true;
        }
        i = i + 1;
    }
    has_digit
}

/// Relies on `Iterator::collect` into `String` over a slice of `char`s: the
/// string holds those characters, in order.
#[verifier::external_body]
pub(crate) fn string_of(chars: &[char], start: usize, end: usize) -> (r: String)
    requires
        start <= end <= chars@.len(),
    ensures
        r@ == chars@.subrange(start as int, end as int),
{
    chars[start..end].iter().collect()
}

} // verus!
