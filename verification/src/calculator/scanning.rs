//! What the tokenizer makes of digits, brackets and foreign characters.

use vstd::prelude::*;
use crate::binary32::Binary32;
use crate::calculator::{
    digit_number, is_digit, operator_of, scan, scan_start, tenth, tokens_of, with_digit,
    Error, Scan, Token,
};
use crate::whole::{exact_limit, lemma_whole_product, lemma_whole_sum};

verus! {

/// Whether `text` is made of decimal digits alone.
pub open spec fn all_digits(text: Seq<char>) -> bool {
    forall|i: int| 0 <= i < text.len() ==> is_digit(#[trigger] text[i])
}

/// The whole number that the digits `text` write.
pub open spec fn digits_value(text: Seq<char>) -> nat
    decreases text.len(),
{
    if text.len() == 0 {
        0
    } else {
        (10 * digits_value(text.drop_last()) + (text.last() as int - 48)) as nat
    }
}

/// The number that the digits `text` accumulate to, one digit at a time:
/// ten times the number so far, plus the digit, each rounded.
pub open spec fn digits_number(text: Seq<char>) -> Binary32
    decreases text.len(),
{
    if text.len() <= 1 {
        digit_number(text[0])
    } else {
        digits_number(text.drop_last()).product(Binary32::of_int(10)).sum(
            digit_number(text.last()),
        )
    }
}

/// The tokenizer's state after a run of digits at the start of a text.
proof fn lemma_scan_digits(text: Seq<char>)
    requires
        text.len() > 0,
        all_digits(text),
    ensures
        scan(text) == Ok::<Scan, Error>(
            Scan {
                tokens: seq![Token::Number(digits_number(text))],
                open_brackets: 0,
                in_fraction: false,
                place: tenth(),
            },
        ),
    decreases text.len(),
{
    let front = text.drop_last();
    let c = text.last();
    assert(is_digit(text[text.len() - 1]));
    if text.len() == 1 {
        assert(front =~= Seq::<char>::empty());
        assert(scan(front) == Ok::<Scan, Error>(scan_start()));
        assert(with_digit(Seq::<Token>::empty(), false, tenth(), c) =~= seq![
            Token::Number(digit_number(c)),
        ]);
    } else {
        assert(all_digits(front)) by {
            assert forall|i: int| 0 <= i < front.len() implies is_digit(#[trigger] front[i]) by {
                assert(front[i] == text[i]);
            }
        }
        lemma_scan_digits(front);
        let before = seq![Token::Number(digits_number(front))];
        assert(before.drop_last().push(Token::Number(digits_number(text))) =~= seq![
            Token::Number(digits_number(text)),
        ]);
    }
}

/// As long as the digits write a number up to 2^24, they accumulate to
/// just that number.
proof fn lemma_digits_exact(text: Seq<char>)
    requires
        text.len() > 0,
        all_digits(text),
        digits_value(text) <= exact_limit(),
    ensures
        digits_number(text) == Binary32::of_int(digits_value(text) as int),
    decreases text.len(),
{
    let front = text.drop_last();
    let d = text.last() as int - 48;
    assert(is_digit(text[text.len() - 1]));
    if text.len() == 1 {
        assert(front =~= Seq::<char>::empty());
        assert(digits_value(front) == 0);
    } else {
        assert(all_digits(front)) by {
            assert forall|i: int| 0 <= i < front.len() implies is_digit(#[trigger] front[i]) by {
                assert(front[i] == text[i]);
            }
        }
        let v = digits_value(front) as int;
        lemma_digits_exact(front);
        lemma_whole_product(v, 10);
        lemma_whole_sum(v * 10, d);
    }
}

/// Consecutive digits make one number. A text of digits alone gives a
/// single number token, whose value the digits accumulate to; where they
/// write a number up to 2^24, it is that number exactly.
pub proof fn lemma_digits_make_one_number(text: Seq<char>)
    requires
        text.len() > 0,
        all_digits(text),
    ensures
        tokens_of(text) == Ok::<Seq<Token>, Error>(seq![Token::Number(digits_number(text))]),
        digits_value(text) <= exact_limit() ==> digits_number(text) == Binary32::of_int(
            digits_value(text) as int,
        ),
{
    lemma_scan_digits(text);
    if digits_value(text) <= exact_limit() {
        lemma_digits_exact(text);
    }
}

/// Whether `c` belongs to the alphabet of expressions.
pub open spec fn in_alphabet(c: char) -> bool {
    is_digit(c) || c == '.' || c == '(' || c == ')' || operator_of(c) is Some || c == ' ' || c
        == '\n'
}

/// Whether all of `text` belongs to the alphabet of expressions.
pub open spec fn all_in_alphabet(text: Seq<char>) -> bool {
    forall|i: int| 0 <= i < text.len() ==> in_alphabet(#[trigger] text[i])
}

/// The opening brackets of `text` less its closing ones.
pub open spec fn nesting(text: Seq<char>) -> int
    decreases text.len(),
{
    if text.len() == 0 {
        0
    } else {
        nesting(text.drop_last()) + if text.last() == '(' {
            1int
        } else if text.last() == ')' {
            -1int
        } else {
            0int
        }
    }
}

/// Whether no closing bracket among the first `n` characters of `text`
/// comes without an open one.
pub open spec fn never_negative(text: Seq<char>, n: int) -> bool {
    forall|m: int| 0 <= m <= n ==> nesting(#[trigger] text.take(m)) >= 0
}

/// Whether the brackets of `text` match: each closing bracket has an open
/// one before it, and none stays open.
pub open spec fn balanced(text: Seq<char>) -> bool {
    never_negative(text, text.len() as int) && nesting(text) == 0
}

/// The tokenizer on a prefix within the alphabet: it counts the open
/// brackets, and fails as soon as one closes that was never opened.
proof fn lemma_scan_counts_brackets(text: Seq<char>, n: int)
    requires
        0 <= n <= text.len(),
        all_in_alphabet(text.take(n)),
    ensures
        never_negative(text, n) ==> scan(text.take(n)) is Ok && scan(
            text.take(n),
        )->Ok_0.open_brackets == nesting(text.take(n)),
        !never_negative(text, n) ==> scan(text.take(n)) == Err::<Scan, Error>(
            Error::MismatchedParens,
        ),
    decreases n,
{
    if n == 0 {
        assert(text.take(0) =~= Seq::<char>::empty());
        assert(never_negative(text, 0));
    } else {
        let front = text.take(n - 1);
        let here = text.take(n);
        assert(here.drop_last() =~= front);
        assert(all_in_alphabet(front)) by {
            assert forall|i: int| 0 <= i < front.len() implies in_alphabet(#[trigger] front[i]) by {
                assert(front[i] == here[i]);
            }
        }
        lemma_scan_counts_brackets(text, n - 1);
        let c = here.last();
        assert(in_alphabet(here[n - 1]));
        if never_negative(text, n - 1) {
            if nesting(here) >= 0 {
                assert(never_negative(text, n));
            } else {
                assert(!never_negative(text, n));
                assert(c == ')');
            }
        } else {
            assert(!never_negative(text, n));
        }
    }
}

/// Brackets that do not match are always rejected. Of a text within the
/// alphabet, the tokens exist if and only if its brackets match; where they
/// do not, the error is that of mismatched brackets.
pub proof fn lemma_brackets_decide(text: Seq<char>)
    requires
        all_in_alphabet(text),
    ensures
        tokens_of(text) is Ok <==> balanced(text),
        !balanced(text) ==> tokens_of(text) == Err::<Seq<Token>, Error>(Error::MismatchedParens),
{
    assert(text.take(text.len() as int) =~= text);
    lemma_scan_counts_brackets(text, text.len() as int);
}

/// Foreign characters are always rejected. A text whose first character
/// outside the alphabet stands at `k` has no tokens: the error names that
/// character, unless a bracket before it closed what was never opened.
pub proof fn lemma_foreign_character_rejected(text: Seq<char>, k: int)
    requires
        0 <= k < text.len(),
        !in_alphabet(text[k]),
        all_in_alphabet(text.take(k)),
    ensures
        tokens_of(text) is Err,
        never_negative(text, k) ==> tokens_of(text) == Err::<Seq<Token>, Error>(
            Error::BadToken(text[k]),
        ),
        !never_negative(text, k) ==> tokens_of(text) == Err::<Seq<Token>, Error>(
            Error::MismatchedParens,
        ),
{
    lemma_scan_counts_brackets(text, k);
    assert(text.take(k + 1).drop_last() =~= text.take(k));
    assert(text.take(k + 1).last() == text[k]);
    crate::calculator::Calculator::lemma_scan_error_lasts(text, k + 1);
}

} // verus!
