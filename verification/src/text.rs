//! The textual form of a puzzle: tokens between white space, and the numbers
//! they write.

use vstd::prelude::*;

verus! {

/// The characters that separate tokens: those with the Unicode property
/// `White_Space`.
pub open spec fn is_whitespace(c: char) -> bool {
    let u = c as u32;
    ||| 0x09 <= u <= 0x0D
    ||| u == 0x20
    ||| u == 0x85
    ||| u == 0xA0
    ||| u == 0x1680
    ||| 0x2000 <= u <= 0x200A
    ||| u == 0x2028
    ||| u == 0x2029
    ||| u == 0x202F
    ||| u == 0x205F
    ||| u == 0x3000
}

/// The tokens of a text: its longest runs of characters that are not white
/// space, in the order in which they stand.
pub open spec fn tokens(text: Seq<char>) -> Seq<Seq<char>>
    decreases text.len(),
{
    if text.len() == 0 {
        Seq::empty()
    } else {
        let before = tokens(text.drop_last());
        let c = text.last();
        if is_whitespace(c) {
            before
        } else if text.len() >= 2 && !is_whitespace(text[text.len() - 2]) {
            before.drop_last().push(before.last().push(c))
        } else {
            before.push(seq![c])
        }
    }
}

/// Every token holds a character, and none of its characters is white
/// space; a text has no more tokens than characters, and one at least when
/// it does not end in white space.
pub proof fn lemma_tokens_shape(text: Seq<char>)
    ensures
        tokens(text).len() <= text.len(),
        text.len() > 0 && !is_whitespace(text.last()) ==> tokens(text).len() > 0,
        forall|k: int|
            0 <= k < tokens(text).len() ==> (#[trigger] tokens(text)[k]).len() > 0,
        forall|k: int, j: int|
            0 <= k < tokens(text).len() && 0 <= j < tokens(text)[k].len() ==> !is_whitespace(
                #[trigger] tokens(text)[k][j],
            ),
    decreases text.len(),
{
    if text.len() > 0 {
        let shorter = text.drop_last();
        lemma_tokens_shape(shorter);
        if !is_whitespace(text.last()) && text.len() >= 2 {
            assert(shorter.last() == text[text.len() - 2]);
        }
    }
}

/// The ten decimal digits.
pub open spec fn is_digit(c: char) -> bool {
    0x30 <= c as u32 <= 0x39
}

/// The number that a decimal digit writes.
pub open spec fn digit_value(c: char) -> int {
    c as u32 - 0x30
}

pub open spec fn all_digits(digits: Seq<char>) -> bool {
    forall|i: int| 0 <= i < digits.len() ==> is_digit(#[trigger] digits[i])
}

/// The number that a run of decimal digits writes.
pub open spec fn digits_value(digits: Seq<char>) -> nat
    decreases digits.len(),
{
    if digits.len() == 0 {
        0
    } else {
        (10 * digits_value(digits.drop_last()) + digit_value(digits.last())) as nat
    }
}

/// The number that a token writes: an optional sign, `+` or `-`, and then
/// one decimal digit or more, the whole within -128 to 127.  A token of any
/// other form writes no number.
pub open spec fn parse_i8(token: Seq<char>) -> Option<i8> {
    let signed = token.len() > 0 && (token[0] == '-' || token[0] == '+');
    let digits = if signed {
        token.drop_first()
    } else {
        token
    };
    let number = if signed && token[0] == '-' {
        -(digits_value(digits) as int)
    } else {
        digits_value(digits) as int
    };
    if digits.len() > 0 && all_digits(digits) && -128 <= number <= 127 {
        Some(number as i8)
    } else {
        None
    }
}

/// Whether `c` separates tokens.
pub fn char_is_whitespace(c: char) -> (b: bool)
    ensures
        b == is_whitespace(c),
{
    let u: u32 = c as u32;
    (0x09 <= u && u <= 0x0D) || u == 0x20 || u == 0x85 || u == 0xA0 || u == 0x1680 || (0x2000 <= u
        && u <= 0x200A) || u == 0x2028 || u == 0x2029 || u == 0x202F || u == 0x205F || u == 0x3000
}

/// The tokens that `parts` holds.
pub open spec fn token_views(parts: Seq<Vec<char>>) -> Seq<Seq<char>> {
    parts.map_values(|part: Vec<char>| part@)
}

/// Splits a text at its white space.
pub fn split_tokens(text: &str) -> (parts: Vec<Vec<char>>)
    ensures
        token_views(parts@) == tokens(text@),
{
    let mut parts: Vec<Vec<char>> = Vec::new();
    let mut current: Vec<char> = Vec::new();
    assert(text@.take(0) =~= Seq::<char>::empty());
    assert(token_views(parts@) =~= Seq::<Seq<char>>::empty());
    for c in it: text.chars()
        invariant
            it.seq() == text@,
            current@.len() > 0 <==> it.index() > 0 && !is_whitespace(text@[it.index() - 1]),
            tokens(text@.take(it.index())) == if current@.len() > 0 {
                token_views(parts@).push(current@)
            } else {
                token_views(parts@)
            },
    {
        let ghost seen = text@.take(it.index());
        let ghost next = text@.take(it.index() + 1);
        let ghost closed = token_views(parts@);
        proof {
            assert(next.drop_last() =~= seen);
            assert(next.last() == c);
        }
        if char_is_whitespace(c) {
            if current.len() > 0 {
                let ghost token = current@;
                parts.push(current);
                current = Vec::new();
                assert(token_views(parts@) =~= closed.push(token));
            }
        } else {
            let ghost open = current@;
            current.push(c);
            proof {
                if open.len() > 0 {
                    assert(closed.push(open).drop_last() =~= closed);
                } else {
                    assert(current@ =~= seq![c]);
                }
            }
        }
    }
    assert(text@.take(text@.len() as int) =~= text@);
    if current.len() > 0 {
        let ghost closed = token_views(parts@);
        let ghost token = current@;
        parts.push(current);
        assert(token_views(parts@) =~= closed.push(token));
    }
    parts
}

/// Reads the number that a token writes.
pub fn parse_number(token: &Vec<char>) -> (value: Option<i8>)
    ensures
        value == parse_i8(token@),
{
    let n: usize = token.len();
    if n == 0 {
        return None;
    }
    let first = token[0];
    let negative = first == '-';
    let start: usize = if first == '-' || first == '+' {
        1
    } else {
        0
    };
    let ghost signed = token@[0] == '-' || token@[0] == '+';
    let ghost digits = if signed {
        token@.drop_first()
    } else {
        token@
    };
    if start == n {
        return None;
    }
    // Numbers beyond 128 cannot be told apart here and need not be: all of
    // them stand as 129.
    let mut magnitude: u32 = 0;
    let mut k: usize = start;
    assert(digits.take(0) =~= Seq::<char>::empty());
    while k < n
        invariant
            start <= k <= n,
            0 < n == token@.len(),
            signed == (token@[0] == '-' || token@[0] == '+'),
            digits == if signed {
                token@.drop_first()
            } else {
                token@
            },
            digits.len() == n - start,
            forall|i: int| 0 <= i < digits.len() ==> #[trigger] digits[i] == token@[i + start],
            all_digits(digits.take(k - start)),
            magnitude <= 129,
            magnitude <= 128 ==> magnitude == digits_value(digits.take(k - start)),
            magnitude == 129 ==> digits_value(digits.take(k - start)) >= 129,
        decreases n - k,
    {
        let c = token[k];
        let u: u32 = c as u32;
        if u < 0x30 || u > 0x39 {
            assert(!is_digit(digits[k - start]));
            return None;
        }
        let ghost read = digits.take(k - start);
        let ghost more = digits.take(k - start + 1);
        proof {
            assert(more.drop_last() =~= read);
            assert(more.last() == c);
        }
        let d: u32 = u - 0x30;
        magnitude = if magnitude * 10 + d > 128 {
            129
        } else {
            magnitude * 10 + d
        };
        k = k + 1;
    }
    assert(digits.take(n - start) =~= digits);
    if negative {
        if magnitude <= 128 {
            let number: i16 = -(magnitude as i16);
            Some(number as i8)
        } else {
            None
        }
    } else {
        if magnitude <= 127 {
            Some(magnitude as i8)
        } else {
            None
        }
    }
}

} // verus!
