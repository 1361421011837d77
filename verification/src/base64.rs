//! Base64, owned rather than depended on.
//!
//! Bytes have no JSON spelling, so anything binary travels as a base64 string
//! and those characters reach the world hash.
//!
//! Standard alphabet (RFC 4648 section 4), padded, no line breaks, and
//! nothing optional about any of it. Decoding is strict for the same reason
//! encoding is fixed: two spellings of one value would be two payloads for
//! one state, and only one of them can be what a run hashed.
use vstd::prelude::*;
use vstd::string::*;

use crate::hash::push_fixed_hex;
use crate::text::decimal_text;

verus! {

/// The byte that fills the last group, `=`.
pub const PAD: u8 = 61;

/// Why some text is not canonical base64.
#[derive(Debug, Clone, Copy, PartialEq, Eq, Structural)]
pub enum Base64Error {
    /// A byte outside the alphabet.
    NotInAlphabet { position: usize, found: u8 },
    /// A length that is not a multiple of four, so a group is incomplete.
    Length { length: usize },
    /// Padding that is not at the end, or is more than two characters.
    Padding { position: usize },
    /// A byte that sets bits which a canonical encoding leaves zero, so this
    /// text decodes to the same value as some other text.
    NonCanonical { position: usize },
}

/// The text that reports a [`Base64Error`].
pub open spec fn base64_error_text(error: Base64Error) -> Seq<char> {
    match error {
        Base64Error::NotInAlphabet { position, found } => "byte "@ + crate::text::decimal(
            position as nat,
        ) + " is 0x"@ + crate::hash::fixed_hex(found as nat, 2)
            + ", which is not in the base64 alphabet"@,
        Base64Error::Length { length } => "length "@ + crate::text::decimal(length as nat)
            + " is not a multiple of four, so a group is incomplete"@,
        Base64Error::Padding { position } => "padding at byte "@ + crate::text::decimal(
            position as nat,
        ) + " is not at the end, or is more than two characters"@,
        Base64Error::NonCanonical { position } => "byte "@ + crate::text::decimal(position as nat)
            + " sets bits that a canonical encoding leaves zero, so this text decodes to the same value as some other text"@,
    }
}

impl Base64Error {
    /// The report of this error.
    pub fn to_string(&self) -> (text: String)
        ensures
            text@ == base64_error_text(*self),
    {
        match self {
            Base64Error::NotInAlphabet { position, found } => {
                let mut text = "byte ".to_owned().concat(
                    decimal_text(*position as u64).as_str(),
                ).concat(" is 0x");
                push_fixed_hex(&mut text, *found as u64, 2);
                text.concat(", which is not in the base64 alphabet")
            },
            Base64Error::Length { length } => "length ".to_owned().concat(
                decimal_text(*length as u64).as_str(),
            ).concat(" is not a multiple of four, so a group is incomplete"),
            Base64Error::Padding { position } => "padding at byte ".to_owned().concat(
                decimal_text(*position as u64).as_str(),
            ).concat(" is not at the end, or is more than two characters"),
            Base64Error::NonCanonical { position } => "byte ".to_owned().concat(
                decimal_text(*position as u64).as_str(),
            ).concat(
                " sets bits that a canonical encoding leaves zero, so this text decodes to the same value as some other text",
            ),
        }
    }
}

// ---------------------------------------------------------------------------
// The encoding
// ---------------------------------------------------------------------------

/// The alphabet's byte for six bits: `A`-`Z`, `a`-`z`, `0`-`9`, `+`, `/`.
pub open spec fn letter(sextet: int) -> u8 {
    if sextet < 26 {
        (65 + sextet) as u8
    } else if sextet < 52 {
        (97 + sextet - 26) as u8
    } else if sextet < 62 {
        (48 + sextet - 52) as u8
    } else if sextet == 62 {
        43u8
    } else {
        47u8
    }
}

/// The six bits that a byte of the alphabet stands for.
pub open spec fn sextet_of(byte: u8) -> Option<int> {
    if 65 <= byte <= 90 {
        Some(byte - 65)
    } else if 97 <= byte <= 122 {
        Some(byte - 97 + 26)
    } else if 48 <= byte <= 57 {
        Some(byte - 48 + 52)
    } else if byte == 43 {
        Some(62)
    } else if byte == 47 {
        Some(63)
    } else {
        None
    }
}

/// The four bytes that spell one to three bytes.
pub open spec fn encoded_group(group: Seq<u8>) -> Seq<u8> {
    let first = group[0] as int;
    let second = if group.len() > 1 {
        group[1] as int
    } else {
        0
    };
    let third = if group.len() > 2 {
        group[2] as int
    } else {
        0
    };
    seq![
        letter(first / 4),
        letter((first % 4) * 16 + second / 16),
        if group.len() > 1 {
            letter((second % 16) * 4 + third / 64)
        } else {
            PAD
        },
        if group.len() > 2 {
            letter(third % 64)
        } else {
            PAD
        },
    ]
}

/// The canonical base64 spelling of some bytes, as ASCII.
pub open spec fn encoded(bytes: Seq<u8>) -> Seq<u8>
    decreases bytes.len(),
{
    if bytes.len() == 0 {
        Seq::empty()
    } else if bytes.len() <= 3 {
        encoded_group(bytes)
    } else {
        encoded_group(bytes.take(3)) + encoded(bytes.skip(3))
    }
}

/// ASCII codes as characters.
pub open spec fn ascii_text(codes: Seq<u8>) -> Seq<char> {
    Seq::new(codes.len(), |i: int| codes[i] as char)
}

// ---------------------------------------------------------------------------
// The decoding
// ---------------------------------------------------------------------------

/// How many of a group's bytes are padding.
pub open spec fn padding(group: Seq<u8>) -> int {
    (if group[0] == PAD {
        1int
    } else {
        0
    }) + (if group[1] == PAD {
        1int
    } else {
        0
    }) + (if group[2] == PAD {
        1int
    } else {
        0
    }) + (if group[3] == PAD {
        1int
    } else {
        0
    })
}

/// The position of a group's first padding byte.
pub open spec fn first_pad(group: Seq<u8>) -> int {
    if group[0] == PAD {
        0
    } else if group[1] == PAD {
        1
    } else if group[2] == PAD {
        2
    } else {
        3
    }
}

/// The position of the first of a group's `count` leading bytes that is
/// outside the alphabet.
pub open spec fn first_foreign(group: Seq<u8>, count: int) -> Option<int> {
    if count > 0 && sextet_of(group[0]) is None {
        Some(0)
    } else if count > 1 && sextet_of(group[1]) is None {
        Some(1)
    } else if count > 2 && sextet_of(group[2]) is None {
        Some(2)
    } else if count > 3 && sextet_of(group[3]) is None {
        Some(3)
    } else {
        None
    }
}

/// The bytes that four bytes of text spell at `start`, or why they spell
/// none. Padding stands only in the last group and is at most two bytes.
pub open spec fn decoded_group(group: Seq<u8>, start: int, last: bool) -> Result<
    Seq<u8>,
    Base64Error,
> {
    let pads = padding(group);
    if pads > 0 && (!last || pads > 2) {
        Err(Base64Error::Padding { position: (start + first_pad(group)) as usize })
    } else {
        match first_foreign(group, 4 - pads) {
            Some(offset) => Err(
                Base64Error::NotInAlphabet {
                    position: (start + offset) as usize,
                    found: group[offset],
                },
            ),
            None => {
                let s0 = sextet_of(group[0])->0;
                let s1 = sextet_of(group[1])->0;
                let s2 = sextet_of(group[2])->0;
                let s3 = sextet_of(group[3])->0;
                if pads == 1 && s2 % 4 != 0 {
                    Err(Base64Error::NonCanonical { position: (start + 2) as usize })
                } else if pads == 2 && s1 % 16 != 0 {
                    Err(Base64Error::NonCanonical { position: (start + 1) as usize })
                } else if pads == 2 {
                    Ok(seq![(s0 * 4 + s1 / 16) as u8])
                } else if pads == 1 {
                    Ok(seq![(s0 * 4 + s1 / 16) as u8, ((s1 % 16) * 16 + s2 / 4) as u8])
                } else {
                    Ok(
                        seq![
                            (s0 * 4 + s1 / 16) as u8,
                            ((s1 % 16) * 16 + s2 / 4) as u8,
                            ((s2 % 4) * 64 + s3) as u8,
                        ],
                    )
                }
            },
        }
    }
}

/// What the text from `start` on spells, group by group, or why the first
/// group that spells nothing does not.
pub open spec fn decoded_from(text: Seq<u8>, start: int) -> Result<Seq<u8>, Base64Error>
    decreases text.len() - start,
{
    if start < 0 || start + 4 > text.len() {
        Ok(Seq::empty())
    } else {
        match decoded_group(text.subrange(start, start + 4), start, start + 4 == text.len()) {
            Err(error) => Err(error),
            Ok(group) => match decoded_from(text, start + 4) {
                Err(error) => Err(error),
                Ok(rest) => Ok(group + rest),
            },
        }
    }
}

/// What a text spells, or why it is not canonical base64.
pub open spec fn decoded(text: Seq<u8>) -> Result<Seq<u8>, Base64Error> {
    if text.len() % 4 != 0 {
        Err(Base64Error::Length { length: text.len() as usize })
    } else {
        decoded_from(text, 0)
    }
}

// ---------------------------------------------------------------------------
// Laws
// ---------------------------------------------------------------------------

/// A letter stands for the six bits it was chosen for, and is no padding.
proof fn lemma_letter(sextet: int)
    requires
        0 <= sextet < 64,
    ensures
        sextet_of(letter(sextet)) == Some(sextet),
        letter(sextet) != PAD,
        letter(sextet) < 128,
{
}

/// A byte of the alphabet is the letter of its six bits.
proof fn lemma_sextet(byte: u8)
    requires
        sextet_of(byte) is Some,
    ensures
        letter(sextet_of(byte)->0) == byte,
        0 <= sextet_of(byte)->0 < 64,
        byte != PAD,
{
}

/// A group decodes to what it was encoded from.
proof fn lemma_group_round_trip(group: Seq<u8>, start: int, last: bool)
    requires
        1 <= group.len() <= 3,
        group.len() < 3 ==> last,
    ensures
        decoded_group(encoded_group(group), start, last) == Ok::<Seq<u8>, Base64Error>(group),
        encoded_group(group).len() == 4,
        forall|i: int| 0 <= i < 4 ==> #[trigger] encoded_group(group)[i] < 128,
{
    let b0 = group[0] as int;
    let b1 = if group.len() > 1 {
        group[1] as int
    } else {
        0
    };
    let b2 = if group.len() > 2 {
        group[2] as int
    } else {
        0
    };
    lemma_letter(b0 / 4);
    lemma_letter((b0 % 4) * 16 + b1 / 16);
    lemma_letter((b1 % 16) * 4 + b2 / 64);
    lemma_letter(b2 % 64);
    let text = encoded_group(group);
    match decoded_group(text, start, last) {
        Ok(bytes) => {
            assert(bytes =~= group);
        },
        Err(_) => {},
    }
}

/// The spelling of bytes is a whole number of groups of ASCII.
proof fn lemma_encoded_shape(bytes: Seq<u8>)
    ensures
        encoded(bytes).len() % 4 == 0,
        forall|i: int| 0 <= i < encoded(bytes).len() ==> #[trigger] encoded(bytes)[i] < 128,
    decreases bytes.len(),
{
    if bytes.len() == 0 {
    } else if bytes.len() <= 3 {
        lemma_group_round_trip(bytes, 0, true);
    } else {
        lemma_group_round_trip(bytes.take(3), 0, true);
        lemma_encoded_shape(bytes.skip(3));
    }
}

/// A text that continues some text decodes from there on as it does alone.
proof fn lemma_round_trip_from(text: Seq<u8>, start: int, bytes: Seq<u8>)
    requires
        0 <= start,
        text.skip(start) == encoded(bytes),
        start <= text.len(),
    ensures
        decoded_from(text, start) == Ok::<Seq<u8>, Base64Error>(bytes),
    decreases bytes.len(),
{
    let rest = text.skip(start);
    if bytes.len() == 0 {
        assert(rest.len() == 0);
        assert(bytes =~= Seq::<u8>::empty());
    } else if bytes.len() <= 3 {
        lemma_group_round_trip(bytes, start, true);
        assert(text.subrange(start, start + 4) =~= rest);
        assert(decoded_from(text, start + 4) == Ok::<Seq<u8>, Base64Error>(Seq::empty()));
        assert(bytes + Seq::<u8>::empty() =~= bytes);
    } else {
        let group = bytes.take(3);
        lemma_encoded_shape(bytes.skip(3));
        lemma_group_round_trip(group, start, start + 4 == text.len());
        assert(rest == encoded_group(group) + encoded(bytes.skip(3)));
        assert(rest.len() == text.len() - start);
        assert(text.subrange(start, start + 4) =~= rest.take(4));
        assert(rest.take(4) =~= encoded_group(group));
        assert(text.skip(start + 4) =~= rest.skip(4));
        assert(rest.skip(4) =~= encoded(bytes.skip(3)));
        lemma_round_trip_from(text, start + 4, bytes.skip(3));
        assert(group + bytes.skip(3) =~= bytes);
    }
}

/// Decoding what was encoded gives the bytes back, whatever they are.
pub proof fn law_decode_undoes_encode(bytes: Seq<u8>)
    ensures
        decoded(encoded(bytes)) == Ok::<Seq<u8>, Base64Error>(bytes),
        vstd::utf8::encode_utf8(ascii_text(encoded(bytes))) == encoded(bytes),
{
    lemma_encoded_shape(bytes);
    let text = encoded(bytes);
    assert(text.skip(0) =~= text);
    lemma_round_trip_from(text, 0, bytes);
    lemma_ascii_text(text);
}

/// ASCII characters are written in UTF-8 as their own codes.
proof fn lemma_ascii_text(codes: Seq<u8>)
    requires
        forall|i: int| 0 <= i < codes.len() ==> #[trigger] codes[i] < 128,
    ensures
        vstd::utf8::encode_utf8(ascii_text(codes)) == codes,
{
    let text = ascii_text(codes);
    assert forall|i: int| 0 <= i < text.len() implies 0 <= (#[trigger] text[i]) as int && (text[i]
        as int) < 128 by {
        assert(codes[i] < 128);
    }
    vstd::utf8::is_ascii_chars_encode_utf8(text);
    assert(vstd::utf8::encode_utf8(text) =~= codes);
}

/// A group that decodes is the encoding of what it decodes to.
proof fn lemma_group_is_canonical(group: Seq<u8>, start: int, last: bool)
    requires
        group.len() == 4,
        decoded_group(group, start, last) is Ok,
    ensures
        encoded_group(decoded_group(group, start, last)->Ok_0) == group,
        1 <= decoded_group(group, start, last)->Ok_0.len() <= 3,
        decoded_group(group, start, last)->Ok_0.len() < 3 ==> last,
{
    let bytes = decoded_group(group, start, last)->Ok_0;
    let pads = padding(group);
    lemma_sextet(group[0]);
    lemma_sextet(group[1]);
    let s0 = sextet_of(group[0])->0;
    let s1 = sextet_of(group[1])->0;
    let b0 = s0 * 4 + s1 / 16;
    assert(0 <= b0 < 256);
    assert(b0 / 4 == s0 && b0 % 4 == s1 / 16);
    if pads == 2 {
        assert(group[2] == PAD && group[3] == PAD);
        assert(bytes =~= seq![b0 as u8]);
        assert((b0 % 4) * 16 + 0 == s1);
        assert(encoded_group(bytes) =~= group);
    } else {
        lemma_sextet(group[2]);
        let s2 = sextet_of(group[2])->0;
        let b1 = (s1 % 16) * 16 + s2 / 4;
        assert(0 <= b1 < 256);
        assert(b1 / 16 == s1 % 16 && b1 % 16 == s2 / 4);
        assert((b0 % 4) * 16 + b1 / 16 == s1);
        if pads == 1 {
            assert(group[3] == PAD);
            assert(bytes =~= seq![b0 as u8, b1 as u8]);
            assert((b1 % 16) * 4 + 0 == s2);
            assert(encoded_group(bytes) =~= group);
        } else {
            lemma_sextet(group[3]);
            let s3 = sextet_of(group[3])->0;
            let b2 = (s2 % 4) * 64 + s3;
            assert(0 <= b2 < 256);
            assert(b2 / 64 == s2 % 4 && b2 % 64 == s3);
            assert((b1 % 16) * 4 + b2 / 64 == s2);
            assert(bytes =~= seq![b0 as u8, b1 as u8, b2 as u8]);
            assert(encoded_group(bytes) =~= group);
        }
    }
}

/// A text that decodes from `start` on is the encoding of what it decodes to.
proof fn lemma_canonical_from(text: Seq<u8>, start: int)
    requires
        0 <= start <= text.len(),
        (text.len() - start) % 4 == 0,
        decoded_from(text, start) is Ok,
    ensures
        encoded(decoded_from(text, start)->Ok_0) == text.skip(start),
    decreases text.len() - start,
{
    let bytes = decoded_from(text, start)->Ok_0;
    if start + 4 > text.len() {
        assert(text.skip(start) =~= Seq::<u8>::empty());
    } else {
        let group = text.subrange(start, start + 4);
        let last = start + 4 == text.len();
        let head = decoded_group(group, start, last)->Ok_0;
        let tail = decoded_from(text, start + 4)->Ok_0;
        lemma_group_is_canonical(group, start, last);
        lemma_canonical_from(text, start + 4);
        assert(bytes == head + tail);
        if last {
            assert(tail.len() == 0);
            assert(bytes =~= head);
            assert(text.skip(start) =~= group);
        } else {
            assert(head.len() == 3);
            assert(bytes.take(3) =~= head);
            assert(bytes.skip(3) =~= tail);
            if tail.len() == 0 {
                assert(encoded(tail).len() == 0);
                assert(text.skip(start + 4).len() > 0);
            }
            assert(text.skip(start) =~= group + text.skip(start + 4));
        }
    }
}

/// The alphabet, letter by letter: the upper-case letters stand for the first
/// twenty-six numbers, the lower-case ones for the next, the digits behind
/// those, and `+` and `/` for the last two; nothing else is in it.
pub proof fn law_the_alphabet(byte: u8)
    ensures
        sextet_of(byte) == (if 'A' as int <= byte <= 'Z' as int {
            Some(byte - 'A' as int)
        } else if 'a' as int <= byte <= 'z' as int {
            Some(byte - 'a' as int + 26)
        } else if '0' as int <= byte <= '9' as int {
            Some(byte - '0' as int + 52)
        } else if byte == '+' as int {
            Some(62int)
        } else if byte == '/' as int {
            Some(63int)
        } else {
            None
        }),
        forall|sextet: int|
            0 <= sextet < 64 ==> sextet_of(#[trigger] letter(sextet)) == Some(sextet),
{
    assert forall|sextet: int| 0 <= sextet < 64 implies sextet_of(#[trigger] letter(sextet))
        == Some(sextet) by {
        lemma_letter(sextet);
    }
}

/// Three bytes are spelled by four letters whose numbers, six bits each, make
/// the same twenty-four bits in the same order. Two bytes are spelled by three
/// letters, and one by two, as if zero bits followed, with `=` for the rest.
pub proof fn law_what_a_group_spells(group: Seq<u8>)
    requires
        1 <= group.len() <= 3,
    ensures
        ({
            let text = encoded(group);
            let s = |i: int| sextet_of(text[i])->0;
            &&& text.len() == 4
            &&& group.len() == 3 ==> {
                &&& forall|i: int| 0 <= i < 4 ==> sextet_of(#[trigger] text[i]) is Some
                &&& group[0] * 65536 + group[1] * 256 + group[2] == s(0) * 262144 + s(1) * 4096 + s(
                    2,
                ) * 64 + s(3)
            }
            &&& group.len() == 2 ==> {
                &&& forall|i: int| 0 <= i < 3 ==> sextet_of(#[trigger] text[i]) is Some
                &&& text[3] == '=' as int
                &&& group[0] * 65536 + group[1] * 256 == s(0) * 262144 + s(1) * 4096 + s(2) * 64
            }
            &&& group.len() == 1 ==> {
                &&& forall|i: int| 0 <= i < 2 ==> sextet_of(#[trigger] text[i]) is Some
                &&& text[2] == '=' as int
                &&& text[3] == '=' as int
                &&& group[0] * 65536 == s(0) * 262144 + s(1) * 4096
            }
        }),
{
    let b0 = group[0] as int;
    let b1 = if group.len() > 1 {
        group[1] as int
    } else {
        0
    };
    let b2 = if group.len() > 2 {
        group[2] as int
    } else {
        0
    };
    lemma_letter(b0 / 4);
    lemma_letter((b0 % 4) * 16 + b1 / 16);
    lemma_letter((b1 % 16) * 4 + b2 / 64);
    lemma_letter(b2 % 64);
    assert(encoded(group) == encoded_group(group));
}

/// Longer bytes are spelled three at a time.
pub proof fn law_bytes_are_spelled_three_at_a_time(bytes: Seq<u8>)
    requires
        bytes.len() > 3,
    ensures
        encoded(Seq::<u8>::empty()).len() == 0,
        encoded(bytes) == encoded(bytes.take(3)) + encoded(bytes.skip(3)),
{
}

/// Why four bytes of text spell nothing. Padding is refused at its first byte
/// where the group is not the last or has more than two of it; a byte that is
/// not in the alphabet is named with its place, the first of them; and a last
/// letter that holds bits of no byte is refused at its place. Nothing else is
/// refused.
pub proof fn law_why_a_group_spells_nothing(group: Seq<u8>, start: int, last: bool)
    requires
        group.len() == 4,
        0 <= start,
        start + 4 <= usize::MAX,
    ensures
        decoded_group(group, start, last) matches Err(error) ==> match error {
            Base64Error::Padding { position } => start <= position < start + 4 && group[position
                - start] == '=' as int && (forall|i: int|
                0 <= i < position - start ==> #[trigger] group[i] != '=' as int) && (!last || padding(
                group,
            ) > 2),
            Base64Error::NotInAlphabet { position, found } => start <= position < start + 4
                && group[position - start] == found && sextet_of(found) is None && (forall|i: int|
                0 <= i < position - start ==> sextet_of(#[trigger] group[i]) is Some),
            Base64Error::NonCanonical { position } => last && group[3] == '=' as int && if group[2]
                == '=' as int {
                position == start + 1 && sextet_of(group[1])->0 % 16 != 0
            } else {
                position == start + 2 && sextet_of(group[2])->0 % 4 != 0
            },
            Base64Error::Length { .. } => false,
        },
        (forall|i: int| 0 <= i < 4 ==> sextet_of(#[trigger] group[i]) is Some) ==> decoded_group(
            group,
            start,
            last,
        ) is Ok,
{
    if forall|i: int| 0 <= i < 4 ==> sextet_of(#[trigger] group[i]) is Some {
        assert(sextet_of(group[0]) is Some && sextet_of(group[1]) is Some && sextet_of(
            group[2],
        ) is Some && sextet_of(group[3]) is Some);
    }
}

/// A text is read group by group from its start, and is refused for the first
/// group that spells nothing; one that is no whole number of groups is
/// refused for its length before anything else.
pub proof fn law_a_text_is_refused_for_its_first_bad_group(text: Seq<u8>, start: int)
    requires
        text.len() <= usize::MAX,
        text.len() % 4 == 0 ==> 0 <= start && start + 4 <= text.len() && start % 4 == 0,
        text.len() % 4 == 0 ==> forall|k: int|
            0 <= k < start / 4 ==> decoded_group(
                #[trigger] text.skip(4 * k).take(4),
                4 * k,
                false,
            ) is Ok,
    ensures
        text.len() % 4 != 0 ==> decoded(text) == Err::<Seq<u8>, Base64Error>(
            Base64Error::Length { length: text.len() as usize },
        ),
        text.len() % 4 == 0 ==> (decoded_group(
            text.skip(start).take(4),
            start,
            start + 4 == text.len(),
        ) matches Err(error) ==> decoded(text) == Err::<Seq<u8>, Base64Error>(error)),
{
    if text.len() % 4 == 0 {
        lemma_refused_from(text, 0, start);
    }
}

proof fn lemma_refused_from(text: Seq<u8>, from: int, start: int)
    requires
        0 <= from <= start,
        from % 4 == 0,
        start % 4 == 0,
        start + 4 <= text.len(),
        forall|k: int|
            0 <= k < start / 4 ==> decoded_group(
                #[trigger] text.skip(4 * k).take(4),
                4 * k,
                false,
            ) is Ok,
    ensures
        decoded_group(
            text.skip(start).take(4),
            start,
            start + 4 == text.len(),
        ) matches Err(error) ==> decoded_from(text, from) == Err::<Seq<u8>, Base64Error>(error),
    decreases start - from,
{
    assert(text.subrange(from, from + 4) =~= text.skip(from).take(4));
    if from < start {
        let k = from / 4;
        assert(4 * k == from);
        assert(decoded_group(text.skip(4 * k).take(4), 4 * k, false) is Ok);
        lemma_refused_from(text, from + 4, start);
    }
}

/// One value has one spelling: whatever decodes is exactly the encoding of
/// what it decodes to.
pub proof fn law_one_spelling(text: Seq<u8>)
    requires
        decoded(text) is Ok,
    ensures
        text == encoded(decoded(text)->Ok_0),
{
    lemma_canonical_from(text, 0);
    assert(text.skip(0) =~= text);
}

/// Two texts that decode to the same bytes are the same text.
pub proof fn law_no_second_spelling(a: Seq<u8>, b: Seq<u8>)
    requires
        decoded(a) is Ok,
        decoded(a) == decoded(b),
    ensures
        a == b,
{
    law_one_spelling(a);
    law_one_spelling(b);
}

// ---------------------------------------------------------------------------
// The code
// ---------------------------------------------------------------------------

/// The alphabet's byte for six bits.
fn letter_byte(sextet: u8) -> (byte: u8)
    requires
        sextet < 64,
    ensures
        byte == letter(sextet as int),
{
    if sextet < 26 {
        65 + sextet
    } else if sextet < 52 {
        97 + (sextet - 26)
    } else if sextet < 62 {
        48 + (sextet - 52)
    } else if sextet == 62 {
        43
    } else {
        47
    }
}

/// Encodes bytes as canonical base64.
pub fn encode(bytes: &[u8]) -> (text: String)
    ensures
        text@ == ascii_text(encoded(bytes@)),
{
    let mut text = String::new();
    let mut start: usize = 0;
    proof {
        assert(bytes@.skip(0) =~= bytes@);
        assert(ascii_text(encoded(bytes@)) =~= Seq::<char>::empty() + ascii_text(encoded(bytes@)));
    }
    while start < bytes.len()
        invariant
            0 <= start <= bytes@.len(),
            text@ + ascii_text(encoded(bytes@.skip(start as int))) == ascii_text(encoded(bytes@)),
        decreases bytes@.len() - start,
    {
        let left: usize = bytes.len() - start;
        let ghost rest = bytes@.skip(start as int);
        let ghost before = text@;
        let first: u8 = bytes[start];
        let second: u8 = if left > 1 {
            bytes[start + 1]
        } else {
            0
        };
        let third: u8 = if left > 2 {
            bytes[start + 2]
        } else {
            0
        };
        let taken: usize = if left < 3 {
            left
        } else {
            3
        };
        let ghost group = rest.take(taken as int);
        text.push(letter_byte(first / 4) as char);
        text.push(letter_byte((first % 4) * 16 + second / 16) as char);
        if left > 1 {
            text.push(letter_byte((second % 16) * 4 + third / 64) as char);
        } else {
            text.push(PAD as char);
        }
        if left > 2 {
            text.push(letter_byte(third % 64) as char);
        } else {
            text.push(PAD as char);
        }
        proof {
            assert(text@ =~= before + ascii_text(encoded_group(group)));
            assert(rest.skip(taken as int) =~= bytes@.skip(start + taken));
            if left <= 3 {
                assert(rest =~= group);
                assert(bytes@.skip(start + taken) =~= Seq::<u8>::empty());
            } else {
                assert(rest.take(3) =~= group);
            }
            assert(ascii_text(encoded(rest)) =~= ascii_text(encoded_group(group)) + ascii_text(
                encoded(bytes@.skip(start + taken)),
            ));
            assert(text@ + ascii_text(encoded(bytes@.skip(start + taken))) =~= before + ascii_text(
                encoded(rest),
            ));
        }
        start += taken;
    }
    proof {
        assert(bytes@.skip(start as int) =~= Seq::<u8>::empty());
        assert(text@ + ascii_text(encoded(bytes@.skip(start as int))) =~= text@);
    }
    text
}

/// The six bits a base64 character stands for.
pub fn sextet(byte: u8) -> (bits: Option<u8>)
    ensures
        match bits {
            Some(s) => sextet_of(byte) == Some(s as int) && s < 64,
            None => sextet_of(byte) is None,
        },
{
    if 65 <= byte && byte <= 90 {
        Some(byte - 65)
    } else if 97 <= byte && byte <= 122 {
        Some(byte - 97 + 26)
    } else if 48 <= byte && byte <= 57 {
        Some(byte - 48 + 52)
    } else if byte == 43 {
        Some(62)
    } else if byte == 47 {
        Some(63)
    } else {
        None
    }
}

/// The bytes that the group `bytes[start..start + 4]` spells, appended.
fn decode_group(bytes: &[u8], start: usize, out: &mut Vec<u8>) -> (done: Result<(), Base64Error>)
    requires
        start + 4 <= bytes@.len(),
    ensures
        match (done, decoded_group(
            bytes@.subrange(start as int, start + 4),
            start as int,
            start + 4 == bytes@.len(),
        )) {
            (Ok(_), Ok(group)) => final(out)@ == old(out)@ + group,
            (Err(e), Err(error)) => e == error && final(out)@ == old(out)@,
            _ => false,
        },
{
    let ghost group = bytes@.subrange(start as int, start + 4);
    let len: usize = bytes.len();
    let mut pads: usize = 0;
    let mut first: usize = 3;
    let mut k: usize = 4;
    while k > 0
        invariant
            0 <= k <= 4,
            len == bytes@.len(),
            start + 4 <= len,
            group == bytes@.subrange(start as int, start + 4),
            pads <= 4 - k,
            pads == (if k <= 0 && group[0] == PAD {
                1int
            } else {
                0
            }) + (if k <= 1 && group[1] == PAD {
                1int
            } else {
                0
            }) + (if k <= 2 && group[2] == PAD {
                1int
            } else {
                0
            }) + (if k <= 3 && group[3] == PAD {
                1int
            } else {
                0
            }),
            first == (if k <= 0 && group[0] == PAD {
                0int
            } else if k <= 1 && group[1] == PAD {
                1
            } else if k <= 2 && group[2] == PAD {
                2
            } else {
                3
            }),
        decreases k,
    {
        k -= 1;
        proof {
            assert(group[k as int] == bytes@[start + k]);
        }
        if bytes[start + k] == PAD {
            pads += 1;
            first = k;
        }
    }
    if pads > 0 && (start + 4 != len || pads > 2) {
        return Err(Base64Error::Padding { position: start + first });
    }
    let mut sextets: Vec<u8> = Vec::new();
    let mut offset: usize = 0;
    while offset < 4 - pads
        invariant
            0 <= offset <= 4 - pads,
            pads <= 2,
            len == bytes@.len(),
            start + 4 <= len,
            group == bytes@.subrange(start as int, start + 4),
            pads == padding(group),
            !(pads > 0 && (start + 4 != bytes@.len() || pads > 2)),
            out@ == old(out)@,
            sextets@.len() == offset,
            forall|j: int|
                0 <= j < offset ==> sextet_of(group[j]) == Some(#[trigger] sextets@[j] as int)
                    && sextets@[j] < 64,
        decreases 4 - pads - offset,
    {
        proof {
            assert(group[offset as int] == bytes@[start + offset]);
        }
        let byte: u8 = bytes[start + offset];
        match sextet(byte) {
            Some(bits) => {
                sextets.push(bits);
            },
            None => {
                proof {
                    assert(forall|j: int| 0 <= j < offset ==> sextet_of(group[j]) is Some) by {
                        assert forall|j: int| 0 <= j < offset implies sextet_of(
                            group[j],
                        ) is Some by {
                            assert(sextets@[j] < 64);
                        }
                    }
                }
                return Err(
                    Base64Error::NotInAlphabet { position: start + offset, found: byte },
                );
            },
        }
        offset += 1;
    }
    let s0: u8 = sextets[0];
    let s1: u8 = sextets[1];
    let s2: u8 = if pads < 2 {
        sextets[2]
    } else {
        0
    };
    let s3: u8 = if pads < 1 {
        sextets[3]
    } else {
        0
    };
    if pads == 1 && s2 % 4 != 0 {
        return Err(Base64Error::NonCanonical { position: start + 2 });
    }
    if pads == 2 && s1 % 16 != 0 {
        return Err(Base64Error::NonCanonical { position: start + 1 });
    }
    out.push(s0 * 4 + s1 / 16);
    if pads < 2 {
        out.push((s1 % 16) * 16 + s2 / 4);
    }
    if pads < 1 {
        out.push((s2 % 4) * 64 + s3);
    }
    proof {
        let spelled = decoded_group(group, start as int, start + 4 == bytes@.len());
        assert(out@ =~= old(out)@ + spelled->Ok_0);
    }
    Ok(())
}

/// Whether `out` followed by what the text spells from `start` on is what
/// the whole text spells, errors included.
#[verifier::opaque]
spec fn decoded_so_far(text: Seq<u8>, start: int, out: Seq<u8>) -> bool {
    match decoded_from(text, start) {
        Ok(rest) => decoded(text) == Ok::<Seq<u8>, Base64Error>(out + rest),
        Err(error) => decoded(text) == Err::<Seq<u8>, Base64Error>(error),
    }
}

/// Nothing has been decoded at the start.
proof fn lemma_decode_starts(text: Seq<u8>)
    requires
        text.len() % 4 == 0,
    ensures
        decoded_so_far(text, 0, Seq::empty()),
{
    reveal(decoded_so_far);
    if decoded_from(text, 0) is Ok {
        let all = decoded_from(text, 0)->Ok_0;
        assert(Seq::<u8>::empty() + all =~= all);
    }
}

/// Decoding one more group keeps what has been decoded right.
proof fn lemma_decode_advances(text: Seq<u8>, start: int, out: Seq<u8>)
    requires
        0 <= start,
        start + 4 <= text.len(),
        decoded_so_far(text, start, out),
    ensures
        match decoded_group(text.subrange(start, start + 4), start, start + 4 == text.len()) {
            Ok(group) => decoded_so_far(text, start + 4, out + group),
            Err(error) => decoded(text) == Err::<Seq<u8>, Base64Error>(error),
        },
{
    reveal(decoded_so_far);
    let spelled = decoded_group(text.subrange(start, start + 4), start, start + 4 == text.len());
    if spelled is Ok && decoded_from(text, start + 4) is Ok {
        let group = spelled->Ok_0;
        let rest = decoded_from(text, start + 4)->Ok_0;
        assert(out + (group + rest) =~= (out + group) + rest);
    }
}

/// Everything has been decoded at the end.
proof fn lemma_decode_ends(text: Seq<u8>, out: Seq<u8>)
    requires
        decoded_so_far(text, text.len() as int, out),
    ensures
        decoded(text) == Ok::<Seq<u8>, Base64Error>(out),
{
    reveal(decoded_so_far);
    assert(out + Seq::<u8>::empty() =~= out);
}

/// Decodes canonical base64, rejecting anything else.
///
/// Whitespace and line breaks are rejected along with everything else outside
/// the alphabet: MIME's wrapped variant is a different encoding, and quietly
/// accepting both would mean two spellings of one value.
pub fn decode(text: &str) -> (bytes: Result<Vec<u8>, Base64Error>)
    ensures
        match (bytes, decoded(text.spec_bytes())) {
            (Ok(found), Ok(spelled)) => found@ == spelled,
            (Err(e), Err(error)) => e == error,
            _ => false,
        },
{
    let codes = text.as_bytes();
    if codes.len() % 4 != 0 {
        return Err(Base64Error::Length { length: codes.len() });
    }
    let mut out: Vec<u8> = Vec::new();
    let mut start: usize = 0;
    proof {
        lemma_decode_starts(codes@);
    }
    while start < codes.len()
        invariant
            codes@ == text.spec_bytes(),
            codes@.len() % 4 == 0,
            start % 4 == 0,
            0 <= start <= codes@.len(),
            decoded_so_far(codes@, start as int, out@),
        decreases codes@.len() - start,
    {
        proof {
            lemma_decode_advances(codes@, start as int, out@);
        }
        match decode_group(codes, start, &mut out) {
            Ok(_) => {},
            Err(error) => {
                return Err(error);
            },
        }
        start += 4;
    }
    proof {
        lemma_decode_ends(codes@, out@);
    }
    Ok(out)
}

} // verus!
