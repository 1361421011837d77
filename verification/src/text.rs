//! Text as sequences of characters: building it, splitting it on a separator,
//! joining it back, and writing integers in decimal.
use vstd::prelude::*;

verus! {

/// `String::push` appends one character and leaves what was there alone.
pub assume_specification[ String::push ](text: &mut String, c: char)
    ensures
        final(text)@ == old(text)@.push(c),
;

/// The name of the text that std writes for a string under `{:?}`: quoted,
/// with its special characters escaped.
pub uninterp spec fn debug_form(text: Seq<char>) -> Seq<char>;

/// `format!("{:?}", text)` for a string. What std escapes and how is left to
/// the name; the contract claims that the same text is always written alike.
#[verifier::external_body]
pub(crate) fn debug_text(text: &str) -> (written: String)
    ensures
        written@ == debug_form(text@),
{
    format!("{:?}", text)
}

/// The characters of a string, in order.
pub fn chars_of(text: &str) -> (chars: Vec<char>)
    ensures
        chars@ == text@,
{
    let mut chars: Vec<char> = Vec::new();
    for c in it: text.chars()
        invariant
            it.seq() == text@,
            chars@ == text@.take(it.index()),
    {
        proof {
            assert(text@.take(it.index() + 1) =~= text@.take(it.index()).push(text@[it.index()]));
        }
        chars.push(c);
    }
    proof {
        assert(text@.take(text@.len() as int) =~= text@);
    }
    chars
}

/// The string of the given characters, in order.
pub fn text_of(chars: &Vec<char>) -> (text: String)
    ensures
        text@ == chars@,
{
    let mut text = String::new();
    let mut i: usize = 0;
    while i < chars.len()
        invariant
            0 <= i <= chars@.len(),
            text@ == chars@.take(i as int),
        decreases chars@.len() - i,
    {
        proof {
            assert(chars@.take(i + 1) =~= chars@.take(i as int).push(chars@[i as int]));
        }
        text.push(chars[i]);
        i += 1;
    }
    proof {
        assert(chars@.take(i as int) =~= chars@);
    }
    text
}

/// Whether two strings hold the same characters.
pub fn same_text(a: &str, b: &str) -> (same: bool)
    ensures
        same == (a@ == b@),
{
    a.to_owned() == b.to_owned()
}

// ---------------------------------------------------------------------------
// Splitting and joining
// ---------------------------------------------------------------------------

/// The parts of `text` between occurrences of `separator`, read left to
/// right: a separator opens a new, empty part, and any other character
/// extends the part that is open. There is always at least one part.
pub open spec fn split(text: Seq<char>, separator: char) -> Seq<Seq<char>>
    decreases text.len(),
{
    if text.len() == 0 {
        seq![Seq::<char>::empty()]
    } else {
        let before = split(text.drop_last(), separator);
        if text.last() == separator {
            before.push(Seq::<char>::empty())
        } else {
            before.drop_last().push(before.last().push(text.last()))
        }
    }
}

/// `parts` written one after another with `separator` between each two.
pub open spec fn join(parts: Seq<Seq<char>>, separator: char) -> Seq<char>
    decreases parts.len(),
{
    if parts.len() == 0 {
        Seq::empty()
    } else if parts.len() == 1 {
        parts[0]
    } else {
        join(parts.drop_last(), separator).push(separator) + parts.last()
    }
}

/// The views of a sequence of strings.
pub open spec fn texts(parts: Seq<String>) -> Seq<Seq<char>> {
    parts.map_values(|part: String| part@)
}

/// Splitting never yields fewer than one part.
pub proof fn lemma_split_nonempty(text: Seq<char>, separator: char)
    ensures
        split(text, separator).len() >= 1,
    decreases text.len(),
{
    if text.len() > 0 {
        lemma_split_nonempty(text.drop_last(), separator);
    }
}

/// Joining what a split gave back is the text that was split.
pub proof fn law_join_undoes_split(text: Seq<char>, separator: char)
    ensures
        join(split(text, separator), separator) == text,
    decreases text.len(),
{
    let parts = split(text, separator);
    if text.len() == 0 {
        assert(parts[0] =~= text);
    } else {
        let front = text.drop_last();
        let before = split(front, separator);
        law_join_undoes_split(front, separator);
        lemma_split_nonempty(front, separator);
        if text.last() == separator {
            assert(parts.drop_last() =~= before);
            assert(join(parts, separator) =~= front.push(separator));
        } else {
            if before.len() == 1 {
                assert(parts[0] == before[0].push(text.last()));
                assert(before[0] == front);
            } else {
                assert(parts.drop_last() =~= before.drop_last());
                assert(join(parts, separator) =~= join(before, separator).push(text.last()));
            }
        }
        assert(front.push(text.last()) =~= text);
    }
}

/// A part that holds no separator, put behind one, is the last part of the
/// split.
pub proof fn lemma_split_last_part(before: Seq<char>, part: Seq<char>, separator: char)
    requires
        !part.contains(separator),
    ensures
        split(before.push(separator) + part, separator) == split(before, separator).push(part),
    decreases part.len(),
{
    let whole = before.push(separator) + part;
    if part.len() == 0 {
        assert(whole =~= before.push(separator));
        assert(whole.drop_last() =~= before);
        assert(part =~= Seq::<char>::empty());
    } else {
        let shorter = part.drop_last();
        assert(!shorter.contains(separator)) by {
            if shorter.contains(separator) {
                let i = choose|i: int| 0 <= i < shorter.len() && shorter[i] == separator;
                assert(part[i] == separator);
            }
        }
        lemma_split_last_part(before, shorter, separator);
        assert(whole.drop_last() =~= before.push(separator) + shorter);
        assert(part.last() != separator) by {
            assert(part[part.len() - 1] == part.last());
        }
        let parts = split(before, separator).push(shorter);
        assert(parts.drop_last() =~= split(before, separator));
        assert(shorter.push(part.last()) =~= part);
    }
}

/// A text that holds no separator is its own only part.
pub proof fn lemma_split_single(part: Seq<char>, separator: char)
    requires
        !part.contains(separator),
    ensures
        split(part, separator) == seq![part],
    decreases part.len(),
{
    if part.len() == 0 {
        assert(part =~= Seq::<char>::empty());
    } else {
        let shorter = part.drop_last();
        assert(!shorter.contains(separator)) by {
            if shorter.contains(separator) {
                let i = choose|i: int| 0 <= i < shorter.len() && shorter[i] == separator;
                assert(part[i] == separator);
            }
        }
        lemma_split_single(shorter, separator);
        assert(part[part.len() - 1] == part.last());
        assert(shorter.push(part.last()) =~= part);
        assert(split(part, separator) =~= seq![part]);
    }
}

/// Splitting what a join gave back is the parts that were joined, as long as
/// there is a part and none of them holds the separator.
pub proof fn law_split_undoes_join(parts: Seq<Seq<char>>, separator: char)
    requires
        parts.len() >= 1,
        forall|i: int| 0 <= i < parts.len() ==> !(#[trigger] parts[i]).contains(separator),
    ensures
        split(join(parts, separator), separator) == parts,
    decreases parts.len(),
{
    if parts.len() == 1 {
        lemma_split_single(parts[0], separator);
        assert(parts =~= seq![parts[0]]);
    } else {
        let front = parts.drop_last();
        assert forall|i: int| 0 <= i < front.len() implies !(#[trigger] front[i]).contains(
            separator,
        ) by {
            assert(front[i] == parts[i]);
        }
        law_split_undoes_join(front, separator);
        assert(!parts[parts.len() - 1].contains(separator));
        lemma_split_last_part(join(front, separator), parts.last(), separator);
        assert(front.push(parts.last()) =~= parts);
    }
}

/// Two texts with a separator between them come apart into the parts of the
/// one and the parts of the other.
pub proof fn law_a_separator_parts_a_text(before: Seq<char>, after: Seq<char>, separator: char)
    ensures
        split(before.push(separator) + after, separator) == split(before, separator) + split(
            after,
            separator,
        ),
    decreases after.len(),
{
    let whole = before.push(separator) + after;
    let parts = split(before, separator);
    if after.len() == 0 {
        assert(whole =~= before.push(separator));
        assert(whole.drop_last() =~= before);
        assert(split(whole, separator) =~= parts + split(after, separator));
    } else {
        let front = after.drop_last();
        law_a_separator_parts_a_text(before, front, separator);
        lemma_split_nonempty(front, separator);
        assert(whole.drop_last() =~= before.push(separator) + front);
        assert(whole.last() == after.last());
        let rest = split(front, separator);
        assert((parts + rest).last() == rest.last());
        assert((parts + rest).drop_last() =~= parts + rest.drop_last());
        assert(split(whole, separator) =~= parts + split(after, separator));
    }
}

/// A text without the separator is one part, and a part never holds the
/// separator.
pub proof fn law_parts_hold_no_separator(text: Seq<char>, separator: char)
    ensures
        !text.contains(separator) ==> split(text, separator) == seq![text],
        forall|i: int|
            0 <= i < split(text, separator).len() ==> !(#[trigger] split(
                text,
                separator,
            )[i]).contains(separator),
    decreases text.len(),
{
    if !text.contains(separator) {
        lemma_split_single(text, separator);
    }
    if text.len() > 0 {
        let front = text.drop_last();
        let before = split(front, separator);
        law_parts_hold_no_separator(front, separator);
        lemma_split_nonempty(front, separator);
        let all = split(text, separator);
        assert forall|i: int| 0 <= i < all.len() implies !(#[trigger] all[i]).contains(
            separator,
        ) by {
            if i < before.len() - 1 {
                assert(all[i] == before[i]);
            } else if text.last() == separator {
                if i < before.len() {
                    assert(all[i] == before[i]);
                }
            } else {
                assert(all[i] == before[i].push(text.last()));
                if all[i].contains(separator) {
                    let k = choose|k: int| 0 <= k < all[i].len() && all[i][k] == separator;
                    assert(before[i][k] == separator);
                }
            }
        }
    }
}

/// Joining parts and more parts puts a separator between the two.
pub proof fn law_joining_puts_a_separator_between(
    before: Seq<Seq<char>>,
    after: Seq<Seq<char>>,
    separator: char,
)
    requires
        before.len() > 0,
        after.len() > 0,
    ensures
        join(before + after, separator) == join(before, separator).push(separator) + join(
            after,
            separator,
        ),
    decreases after.len(),
{
    let whole = before + after;
    assert(whole.last() == after.last());
    if after.len() == 1 {
        assert(whole.drop_last() =~= before);
    } else {
        let front = after.drop_last();
        law_joining_puts_a_separator_between(before, front, separator);
        assert(whole.drop_last() =~= before + front);
        assert(join(whole, separator) =~= join(before, separator).push(separator) + join(
            after,
            separator,
        ));
    }
}

/// Splits a string on a separator.
pub fn split_text(text: &str, separator: char) -> (parts: Vec<String>)
    ensures
        texts(parts@) == split(text@, separator),
        parts@.len() >= 1,
{
    let chars = chars_of(text);
    let mut parts: Vec<String> = Vec::new();
    let mut part = String::new();
    let mut i: usize = 0;
    proof {
        assert(texts(parts@).push(part@) =~= split(text@.take(0), separator));
    }
    while i < chars.len()
        invariant
            chars@ == text@,
            0 <= i <= chars@.len(),
            texts(parts@).push(part@) == split(text@.take(i as int), separator),
        decreases chars@.len() - i,
    {
        let c = chars[i];
        let ghost before = texts(parts@).push(part@);
        proof {
            assert(text@.take(i + 1).drop_last() =~= text@.take(i as int));
            assert(text@.take(i + 1).last() == c);
            assert(before.drop_last() =~= texts(parts@));
        }
        if c == separator {
            parts.push(part);
            part = String::new();
            proof {
                assert(texts(parts@) =~= before);
            }
        } else {
            part.push(c);
        }
        i += 1;
    }
    proof {
        assert(text@.take(i as int) =~= text@);
        assert(texts(parts@.push(part)) =~= texts(parts@).push(part@));
    }
    parts.push(part);
    parts
}

// ---------------------------------------------------------------------------
// Decimal digits
// ---------------------------------------------------------------------------

/// The character of a decimal digit.
pub open spec fn digit(d: int) -> char {
    if d == 0 {
        '0'
    } else if d == 1 {
        '1'
    } else if d == 2 {
        '2'
    } else if d == 3 {
        '3'
    } else if d == 4 {
        '4'
    } else if d == 5 {
        '5'
    } else if d == 6 {
        '6'
    } else if d == 7 {
        '7'
    } else if d == 8 {
        '8'
    } else {
        '9'
    }
}

/// Whether a character is one of `0` to `9`.
pub open spec fn is_digit(c: char) -> bool {
    '0' <= c && c <= '9'
}

/// Whether every character is one of `0` to `9`.
pub open spec fn all_digits(text: Seq<char>) -> bool {
    forall|i: int| 0 <= i < text.len() ==> is_digit(#[trigger] text[i])
}

/// The number a digit character stands for.
pub open spec fn digit_value(c: char) -> int {
    c as int - '0' as int
}

/// The number a run of decimal digits stands for; zero for no digits.
pub open spec fn decimal_value(text: Seq<char>) -> int
    decreases text.len(),
{
    if text.len() == 0 {
        0
    } else {
        decimal_value(text.drop_last()) * 10 + digit_value(text.last())
    }
}

/// `n` in decimal, with no leading zero but for zero itself.
pub open spec fn decimal(n: nat) -> Seq<char>
    decreases n,
{
    if n < 10 {
        seq![digit(n as int)]
    } else {
        decimal(n / 10).push(digit((n % 10) as int))
    }
}

/// The low `width` decimal digits of `n`, zero-filled on the left.
pub open spec fn fixed_decimal(n: nat, width: nat) -> Seq<char>
    decreases width,
{
    if width == 0 {
        Seq::empty()
    } else {
        fixed_decimal(n / 10, (width - 1) as nat).push(digit((n % 10) as int))
    }
}

/// Ten to the power `n`.
pub open spec fn ten_to(n: nat) -> int
    decreases n,
{
    if n == 0 {
        1
    } else {
        ten_to((n - 1) as nat) * 10
    }
}

/// A decimal text is digits only, is never empty, and stands for the number
/// that it was written from.
pub proof fn lemma_decimal_value(n: nat)
    ensures
        decimal_value(decimal(n)) == n,
        all_digits(decimal(n)),
        decimal(n).len() >= 1,
    decreases n,
{
    let text = decimal(n);
    if n < 10 {
        assert(text.drop_last() =~= Seq::<char>::empty());
        assert(decimal_value(text.drop_last()) == 0);
    } else {
        lemma_decimal_value(n / 10);
        assert(text.drop_last() =~= decimal(n / 10));
    }
}

/// `width` digits stand for the number they were written from, as long as it
/// has no more than `width` digits.
pub proof fn lemma_fixed_decimal_value(n: nat, width: nat)
    requires
        n < ten_to(width),
    ensures
        decimal_value(fixed_decimal(n, width)) == n,
        all_digits(fixed_decimal(n, width)),
        fixed_decimal(n, width).len() == width,
    decreases width,
{
    if width > 0 {
        assert(n / 10 < ten_to((width - 1) as nat));
        lemma_fixed_decimal_value(n / 10, (width - 1) as nat);
        let text = fixed_decimal(n, width);
        assert(text.drop_last() =~= fixed_decimal(n / 10, (width - 1) as nat));
    }
}

/// Digits never stand for a negative number.
pub proof fn lemma_decimal_value_nonnegative(text: Seq<char>)
    requires
        all_digits(text),
    ensures
        0 <= decimal_value(text) < ten_to(text.len()),
    decreases text.len(),
{
    if text.len() > 0 {
        let front = text.drop_last();
        assert forall|i: int| 0 <= i < front.len() implies is_digit(#[trigger] front[i]) by {
            assert(is_digit(text[i]));
        }
        lemma_decimal_value_nonnegative(front);
        assert(is_digit(text[text.len() - 1]));
    }
}

/// A run of digits is worth ten times what is in front of its last digit, and
/// that digit.
pub proof fn law_what_digits_are_worth(text: Seq<char>, d: int)
    requires
        0 <= d < 10,
    ensures
        decimal_value(Seq::<char>::empty()) == 0,
        decimal_value(text.push(digit(d))) == 10 * decimal_value(text) + d,
        is_digit(digit(d)),
        digit(d) as int == 48 + d,
{
    assert(text.push(digit(d)).drop_last() =~= text);
}

/// A number is written in decimal with the digits of its tenth part in front
/// of its last digit, and no zero in front but for zero itself.
pub proof fn law_a_number_in_decimal(n: nat)
    ensures
        decimal_value(decimal(n)) == n,
        all_digits(decimal(n)),
        decimal(n).len() >= 1,
        n > 0 ==> decimal(n)[0] != '0',
        n < 10 ==> decimal(n).len() == 1,
    decreases n,
{
    lemma_decimal_value(n);
    if n >= 10 {
        law_a_number_in_decimal(n / 10);
        assert(decimal(n)[0] == decimal(n / 10)[0]);
    }
}

/// The digit character of a number below ten.
pub fn digit_char(d: u64) -> (c: char)
    requires
        d < 10,
    ensures
        c == digit(d as int),
{
    match d {
        0 => '0',
        1 => '1',
        2 => '2',
        3 => '3',
        4 => '4',
        5 => '5',
        6 => '6',
        7 => '7',
        8 => '8',
        _ => '9',
    }
}

/// Appends a number in decimal.
pub fn push_decimal(text: &mut String, n: u64)
    ensures
        final(text)@ == old(text)@ + decimal(n as nat),
    decreases n,
{
    if n >= 10 {
        push_decimal(text, n / 10);
    }
    text.push(digit_char(n % 10));
    proof {
        if n < 10 {
            assert(text@ =~= old(text)@ + decimal(n as nat));
        } else {
            assert(text@ =~= old(text)@ + decimal(n as nat));
        }
    }
}

/// A number in decimal.
pub fn decimal_text(n: u64) -> (text: String)
    ensures
        text@ == decimal(n as nat),
{
    let mut text = String::new();
    push_decimal(&mut text, n);
    proof {
        assert(text@ =~= decimal(n as nat));
    }
    text
}

/// An integer in decimal, with a minus sign where it is negative.
pub open spec fn signed_decimal(n: int) -> Seq<char> {
    if n < 0 {
        "-"@ + decimal((-n) as nat)
    } else {
        decimal(n as nat)
    }
}

/// A negative number is written with a sign in front of its distance from
/// zero, and any other without one.
pub proof fn law_a_signed_number_in_decimal(n: int)
    ensures
        n >= 0 ==> signed_decimal(n) == decimal(n as nat),
        n < 0 ==> signed_decimal(n) == seq!['-'] + decimal((-n) as nat),
{
    reveal_strlit("-");
    assert("-"@ =~= seq!['-']);
}

/// An integer in decimal, with a minus sign where it is negative.
pub fn signed_text(n: i64) -> (text: String)
    ensures
        text@ == signed_decimal(n as int),
{
    if n < 0 {
        let size: i128 = 0 - n as i128;
        "-".to_owned().concat(decimal_text(size as u64).as_str())
    } else {
        decimal_text(n as u64)
    }
}

} // verus!
