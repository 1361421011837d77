//! JSON payloads as text: what the JSON parser accepts, and the text it takes
//! for the value.
use vstd::prelude::*;
use vstd::string::*;

verus! {

/// The name of what `serde_json` accepts as the text of one JSON value.
pub uninterp spec fn is_json(text: Seq<char>) -> bool;

/// The characters that JSON allows around a value.
pub open spec fn is_json_space(c: char) -> bool {
    c == ' ' || c == '\n' || c == '\t' || c == '\r'
}

/// A text without the JSON whitespace it starts with.
pub open spec fn trim_start(text: Seq<char>) -> Seq<char>
    decreases text.len(),
{
    if text.len() > 0 && is_json_space(text[0]) {
        trim_start(text.drop_first())
    } else {
        text
    }
}

/// A text without the JSON whitespace it ends with.
pub open spec fn trim_end(text: Seq<char>) -> Seq<char>
    decreases text.len(),
{
    if text.len() > 0 && is_json_space(text.last()) {
        trim_end(text.drop_last())
    } else {
        text
    }
}

/// A text without the JSON whitespace around it.
pub open spec fn trimmed(text: Seq<char>) -> Seq<char> {
    trim_end(trim_start(text))
}

/// `serde_json::value::RawValue::from_string`, as text: the raw text of the
/// one JSON value that `text` holds, which is `text` without the whitespace
/// around it, or `None` where `text` is not one JSON value.
#[verifier::external_body]
pub(crate) fn raw_json(text: &str) -> (raw: Option<String>)
    ensures
        raw is Some == is_json(text@),
        raw matches Some(value) ==> value@ == trimmed(text@),
{
    match serde_json::value::RawValue::from_string(text.to_owned()) {
        Ok(raw) => Some(raw.get().to_owned()),
        Err(_) => None,
    }
}

/// `std::str::from_utf8`, as an owned text: the text that some bytes are the
/// UTF-8 encoding of, or `None` where they are of none.
#[verifier::external_body]
pub(crate) fn utf8_text(bytes: &Vec<u8>) -> (text: Option<String>)
    ensures
        match text {
            Some(found) => vstd::utf8::valid_utf8(bytes@) && found@ == vstd::utf8::decode_utf8(
                bytes@,
            ),
            None => !vstd::utf8::valid_utf8(bytes@),
        },
{
    match std::str::from_utf8(bytes) {
        Ok(text) => Some(text.to_owned()),
        Err(_) => None,
    }
}

/// Whether a payload is the UTF-8 text of one JSON value, as every payload
/// that a serializer wrote is.
pub open spec fn payload_is_json(payload: Seq<u8>) -> bool {
    vstd::utf8::valid_utf8(payload) && is_json(vstd::utf8::decode_utf8(payload))
}

/// The text of a payload's JSON value.
pub open spec fn payload_text(payload: Seq<u8>) -> Seq<char> {
    trimmed(vstd::utf8::decode_utf8(payload))
}

/// The text of a payload's JSON value, or `None` where the payload is not
/// one.
pub fn payload_json(payload: &Vec<u8>) -> (text: Option<String>)
    ensures
        match text {
            Some(found) => payload_is_json(payload@) && found@ == payload_text(payload@),
            None => !payload_is_json(payload@),
        },
{
    match utf8_text(payload) {
        Some(text) => raw_json(text.as_str()),
        None => None,
    }
}

/// The text of a payload's value is the payload's own text without the
/// spaces, tabs and line ends around it: none stands at either end, and
/// nothing else was taken away.
pub proof fn law_a_payloads_text_is_its_value(payload: Seq<u8>)
    ensures
        ({
            let whole = vstd::utf8::decode_utf8(payload);
            let text = payload_text(payload);
            &&& text.len() > 0 ==> !is_json_space(text[0]) && !is_json_space(text.last())
            &&& exists|start: int|
                {
                    &&& 0 <= start
                    &&& start + text.len() <= whole.len()
                    &&& #[trigger] whole.skip(start).take(text.len() as int) == text
                    &&& forall|i: int| 0 <= i < start ==> is_json_space(#[trigger] whole[i])
                    &&& forall|i: int|
                        start + text.len() <= i < whole.len() ==> is_json_space(#[trigger] whole[i])
                }
        }),
{
    let whole = vstd::utf8::decode_utf8(payload);
    let front = trim_start(whole);
    let text = payload_text(payload);
    lemma_trim_start(whole);
    lemma_trim_end(front);
    let start = whole.len() - front.len();
    assert(whole.skip(start).take(text.len() as int) =~= text) by {
        assert(front == whole.skip(start));
        assert(text == front.take(text.len() as int));
    }
    assert forall|i: int| start + text.len() <= i < whole.len() implies is_json_space(
        #[trigger] whole[i],
    ) by {
        assert(whole[i] == front[i - start]);
    }
    if text.len() > 0 {
        assert(text[0] == front[0]);
    }
}

proof fn lemma_trim_start(text: Seq<char>)
    ensures
        trim_start(text).len() <= text.len(),
        trim_start(text) == text.skip(text.len() - trim_start(text).len()),
        trim_start(text).len() > 0 ==> !is_json_space(trim_start(text)[0]),
        forall|i: int|
            0 <= i < text.len() - trim_start(text).len() ==> is_json_space(#[trigger] text[i]),
    decreases text.len(),
{
    if text.len() > 0 && is_json_space(text[0]) {
        let rest = text.drop_first();
        lemma_trim_start(rest);
        let kept = trim_start(text);
        assert(text.skip(text.len() - kept.len()) =~= rest.skip(rest.len() - kept.len()));
        assert forall|i: int| 0 <= i < text.len() - kept.len() implies is_json_space(
            #[trigger] text[i],
        ) by {
            if i > 0 {
                assert(rest[i - 1] == text[i]);
            }
        }
    } else {
        assert(text.skip(0) =~= text);
    }
}

proof fn lemma_trim_end(text: Seq<char>)
    ensures
        trim_end(text).len() <= text.len(),
        trim_end(text) == text.take(trim_end(text).len() as int),
        trim_end(text).len() > 0 ==> !is_json_space(trim_end(text).last()),
        forall|i: int| trim_end(text).len() <= i < text.len() ==> is_json_space(#[trigger] text[i]),
    decreases text.len(),
{
    if text.len() > 0 && is_json_space(text.last()) {
        let rest = text.drop_last();
        lemma_trim_end(rest);
        let kept = trim_end(text);
        assert(text.take(kept.len() as int) =~= rest.take(kept.len() as int));
        assert forall|i: int| kept.len() <= i < text.len() implies is_json_space(
            #[trigger] text[i],
        ) by {
            if i < rest.len() {
                assert(rest[i] == text[i]);
            }
        }
    } else {
        assert(text.take(text.len() as int) =~= text);
    }
}

} // verus!
