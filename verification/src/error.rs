//! What can go wrong in the core types, and how it is reported.
use vstd::prelude::*;

use crate::text::debug_text;

verus! {

/// Errors of the core types.
#[derive(Debug, Clone, PartialEq, Eq)]
pub enum CoreError {
    /// Text that is not a component name.
    InvalidComponentId(String),
    /// Text that is not a key expression, and why.
    InvalidKeyExpr { expr: String, reason: String },
    /// Text that is not a time, and why.
    TimeParse { value: String, reason: String },
    /// A payload that could not be serialized, with the serializer's own
    /// words.
    PayloadSerialize { key: String, source: String },
    /// A message that a component subscribed to but could not read, with the
    /// deserializer's own words.
    ///
    /// Names the key and the publisher because the component that fails to
    /// decode is rarely the one at fault: the payload came from somewhere
    /// else, and that is where to look.
    PayloadDecode { key: String, publisher: String, source: String },
    /// A float that JSON cannot carry, refused at the publisher.
    NonFiniteFloat {
        key: String,
        /// The value and where it was, such as `NaN at position.x`.
        found: String,
    },
}

/// The text that reports a [`CoreError`].
pub open spec fn core_error_text(error: CoreError) -> Seq<char> {
    match error {
        CoreError::InvalidComponentId(id) => "invalid component id "@ + crate::text::debug_form(id@)
            + ": must be non-empty and contain no '/' or wildcard characters"@,
        CoreError::InvalidKeyExpr { expr, reason } => "invalid key expression "@
            + crate::text::debug_form(expr@) + ": "@ + reason@,
        CoreError::TimeParse { value, reason } => "invalid time value "@ + crate::text::debug_form(
            value@,
        ) + ": "@ + reason@,
        CoreError::PayloadSerialize { key, source } => "failed to serialize payload for key "@
            + crate::text::debug_form(key@) + ": "@ + source@,
        CoreError::PayloadDecode { key, publisher, source } => "cannot read payload on key "@
            + crate::text::debug_form(key@) + " from "@ + publisher@ + ": "@ + source@,
        CoreError::NonFiniteFloat { key, found } => "non-finite float "@ + found@
            + " in payload for key "@ + crate::text::debug_form(key@),
    }
}

impl CoreError {
    /// The report of this error.
    pub fn to_string(&self) -> (text: String)
        ensures
            text@ == core_error_text(*self),
    {
        match self {
            CoreError::InvalidComponentId(id) => "invalid component id ".to_owned().concat(
                debug_text(id.as_str()).as_str(),
            ).concat(": must be non-empty and contain no '/' or wildcard characters"),
            CoreError::InvalidKeyExpr { expr, reason } => "invalid key expression ".to_owned().concat(
                debug_text(expr.as_str()).as_str(),
            ).concat(": ").concat(reason.as_str()),
            CoreError::TimeParse { value, reason } => "invalid time value ".to_owned().concat(
                debug_text(value.as_str()).as_str(),
            ).concat(": ").concat(reason.as_str()),
            CoreError::PayloadSerialize { key, source } =>
                "failed to serialize payload for key ".to_owned().concat(
                debug_text(key.as_str()).as_str(),
            ).concat(": ").concat(source.as_str()),
            CoreError::PayloadDecode { key, publisher, source } =>
                "cannot read payload on key ".to_owned().concat(
                debug_text(key.as_str()).as_str(),
            ).concat(" from ").concat(publisher.as_str()).concat(": ").concat(source.as_str()),
            CoreError::NonFiniteFloat { key, found } => "non-finite float ".to_owned().concat(
                found.as_str(),
            ).concat(" in payload for key ").concat(debug_text(key.as_str()).as_str()),
        }
    }
}

/// What the report of an error says: what was refused, and why or where, each
/// behind the words for what it is.
pub proof fn law_what_a_core_error_reports(error: CoreError)
    ensures
        ({
            let text = core_error_text(error);
            match error {
                CoreError::InvalidComponentId(id) => {
                    &&& crate::conductor_error::says(
                        text,
                        "invalid component id "@ + crate::text::debug_form(id@),
                    )
                },
                CoreError::InvalidKeyExpr { expr, reason } => {
                    &&& crate::conductor_error::says(
                        text,
                        "invalid key expression "@ + crate::text::debug_form(expr@),
                    )
                    &&& crate::conductor_error::says(text, ": "@ + reason@)
                },
                CoreError::TimeParse { value, reason } => {
                    &&& crate::conductor_error::says(
                        text,
                        "invalid time value "@ + crate::text::debug_form(value@),
                    )
                    &&& crate::conductor_error::says(text, ": "@ + reason@)
                },
                CoreError::PayloadSerialize { key, source } => {
                    &&& crate::conductor_error::says(
                        text,
                        "failed to serialize payload for key "@ + crate::text::debug_form(key@),
                    )
                    &&& crate::conductor_error::says(text, ": "@ + source@)
                },
                CoreError::PayloadDecode { key, publisher, source } => {
                    &&& crate::conductor_error::says(
                        text,
                        "cannot read payload on key "@ + crate::text::debug_form(key@),
                    )
                    &&& crate::conductor_error::says(text, " from "@ + publisher@)
                    &&& crate::conductor_error::says(text, ": "@ + source@)
                },
                CoreError::NonFiniteFloat { key, found } => {
                    &&& crate::conductor_error::says(text, "non-finite float "@ + found@)
                    &&& crate::conductor_error::says(
                        text,
                        " in payload for key "@ + crate::text::debug_form(key@),
                    )
                },
            }
        }),
{
    let text = core_error_text(error);
    let none = Seq::<char>::empty();
    match error {
        CoreError::InvalidComponentId(id) => {
            assert(text =~= (none) + ("invalid component id "@ + crate::text::debug_form(id@))
                + (": must be non-empty and contain no '/' or wildcard characters"@));
        },
        CoreError::InvalidKeyExpr { expr, reason } => {
            assert(text =~= (none) + ("invalid key expression "@ + crate::text::debug_form(expr@))
                + (": "@ + reason@));
            assert(text =~= ("invalid key expression "@ + crate::text::debug_form(expr@)) + (": "@
                + reason@) + (none));
        },
        CoreError::TimeParse { value, reason } => {
            assert(text =~= (none) + ("invalid time value "@ + crate::text::debug_form(value@))
                + (": "@ + reason@));
            assert(text =~= ("invalid time value "@ + crate::text::debug_form(value@)) + (": "@
                + reason@) + (none));
        },
        CoreError::PayloadSerialize { key, source } => {
            assert(text =~= (none) + ("failed to serialize payload for key "@
                + crate::text::debug_form(key@)) + (": "@ + source@));
            assert(text =~= ("failed to serialize payload for key "@
                + crate::text::debug_form(key@)) + (": "@ + source@) + (none));
        },
        CoreError::PayloadDecode { key, publisher, source } => {
            assert(text =~= (none) + ("cannot read payload on key "@
                + crate::text::debug_form(key@)) + (" from "@ + publisher@ + ": "@ + source@));
            assert(text =~= ("cannot read payload on key "@ + crate::text::debug_form(key@))
                + (" from "@ + publisher@) + (": "@ + source@));
            assert(text =~= ("cannot read payload on key "@ + crate::text::debug_form(key@)
                + " from "@ + publisher@) + (": "@ + source@) + (none));
        },
        CoreError::NonFiniteFloat { key, found } => {
            assert(text =~= (none) + ("non-finite float "@ + found@) + (" in payload for key "@
                + crate::text::debug_form(key@)));
            assert(text =~= ("non-finite float "@ + found@) + (" in payload for key "@
                + crate::text::debug_form(key@)) + (none));
        },
    }
}

} // verus!
