//! Finding non-finite floats in a value, before it reaches the wire.
//!
//! JSON writes `NaN` and the infinities as `null`, so a component publishing
//! one emits a payload that decodes nowhere, and the failure surfaces at some
//! later consumer with nothing pointing back at the arithmetic that produced
//! it. Distinguishing such a `null` from a missing value means looking at the
//! value rather than at anything JSON made of it.
//!
//! A serializer that writes nothing walks the value and drives a [`Finder`]:
//! it says where the walk is, and judges every float by its bits.
use vstd::prelude::*;

use crate::text::push_decimal;

verus! {

/// The three floats that JSON cannot carry. They are three different
/// mistakes, and the fix differs.
#[derive(Debug, Clone, Copy, PartialEq, Eq, Structural)]
pub enum NonFiniteValue {
    Nan,
    Infinity,
    NegativeInfinity,
}

/// What a 64-bit float is, read from its bits: finite unless all eleven
/// exponent bits are set, and then an infinity where no fraction bit is.
pub open spec fn classify(bits: u64) -> Option<NonFiniteValue> {
    let sign = bits / 0x8000_0000_0000_0000;
    let exponent = (bits / 0x10_0000_0000_0000) % 0x800;
    let fraction = bits % 0x10_0000_0000_0000;
    if exponent != 0x7ff {
        None
    } else if fraction != 0 {
        Some(NonFiniteValue::Nan)
    } else if sign == 0 {
        Some(NonFiniteValue::Infinity)
    } else {
        Some(NonFiniteValue::NegativeInfinity)
    }
}

/// How a non-finite float is written for a reader.
pub open spec fn value_text(value: NonFiniteValue) -> Seq<char> {
    match value {
        NonFiniteValue::Nan => "NaN"@,
        NonFiniteValue::Infinity => "inf"@,
        NonFiniteValue::NegativeInfinity => "-inf"@,
    }
}

/// A non-finite float found in a value, and where it was.
#[derive(Debug, PartialEq, Eq)]
pub struct NonFinite {
    /// Dotted field path, such as `position.x`, or `waypoints[2].y` inside a
    /// sequence. Empty when the published value is itself a bare float.
    pub path: String,
    /// The offending value.
    pub value: NonFiniteValue,
}

/// How a find is written for a reader: the value, and where it was if it was
/// anywhere.
pub open spec fn found_text(path: Seq<char>, value: NonFiniteValue) -> Seq<char> {
    if path.len() == 0 {
        value_text(value)
    } else {
        value_text(value) + " at "@ + path
    }
}

impl NonFinite {
    /// The find, written for a reader.
    pub fn to_string(&self) -> (text: String)
        ensures
            text@ == found_text(self.path@, self.value),
    {
        let value = match self.value {
            NonFiniteValue::Nan => "NaN",
            NonFiniteValue::Infinity => "inf",
            NonFiniteValue::NegativeInfinity => "-inf",
        };
        if self.path.as_str().is_empty() {
            value.to_owned()
        } else {
            value.to_owned().concat(" at ").concat(self.path.as_str())
        }
    }
}

/// Where the walk currently is, one step of it.
#[derive(Debug, Clone, Copy)]
pub enum Segment {
    /// Inside a named field or variant.
    Field(&'static str),
    /// At an element of a sequence.
    Index(usize),
}

/// A path written the way a reader would write it: fields joined with dots,
/// indexes in brackets.
pub open spec fn render(path: Seq<Segment>) -> Seq<char>
    decreases path.len(),
{
    if path.len() == 0 {
        Seq::empty()
    } else {
        let before = render(path.drop_last());
        match path.last() {
            Segment::Field(name) => if before.len() == 0 {
                name@
            } else {
                before.push('.') + name@
            },
            Segment::Index(index) => before.push('[') + crate::text::decimal(index as nat) + seq![
                ']',
            ],
        }
    }
}

/// The path with its last index moved on by one; a path that does not end in
/// an index stays as it is.
pub open spec fn advanced(path: Seq<Segment>) -> Seq<Segment> {
    if path.len() > 0 {
        match path.last() {
            Segment::Index(index) => path.drop_last().push(
                Segment::Index(index.wrapping_add(1)),
            ),
            Segment::Field(_) => path,
        }
    } else {
        path
    }
}

/// Keeps the path of a walk over a value and judges its floats.
#[derive(Debug)]
pub struct Finder {
    pub path: Vec<Segment>,
}

impl Finder {
    /// A walk at the top of a value.
    pub fn new() -> (finder: Self)
        ensures
            finder.path@ == Seq::<Segment>::empty(),
    {
        Finder { path: Vec::new() }
    }

    /// Enters a named field or variant.
    pub fn enter_field(&mut self, name: &'static str)
        ensures
            final(self).path@ == old(self).path@.push(Segment::Field(name)),
    {
        self.path.push(Segment::Field(name));
    }

    /// Enters a sequence, at its first element.
    pub fn enter_sequence(&mut self)
        ensures
            final(self).path@ == old(self).path@.push(Segment::Index(0)),
    {
        self.path.push(Segment::Index(0));
    }

    /// Moves on to the next element of the sequence being walked.
    pub fn next_element(&mut self)
        ensures
            final(self).path@ == advanced(old(self).path@),
    {
        match self.path.pop() {
            Some(Segment::Index(index)) => {
                self.path.push(Segment::Index(index.wrapping_add(1)));
            },
            Some(segment) => {
                self.path.push(segment);
                proof {
                    assert(self.path@ =~= old(self).path@);
                }
            },
            None => {},
        }
    }

    /// Leaves the field or sequence entered last.
    pub fn leave(&mut self)
        ensures
            final(self).path@ == (if old(self).path@.len() > 0 {
                old(self).path@.drop_last()
            } else {
                old(self).path@
            }),
    {
        self.path.pop();
    }

    /// The current position, rendered the way a reader would write it.
    pub fn path(&self) -> (text: String)
        ensures
            text@ == render(self.path@),
    {
        let mut text = String::new();
        let mut i: usize = 0;
        proof {
            assert(self.path@.take(0) =~= Seq::<Segment>::empty());
        }
        while i < self.path.len()
            invariant
                0 <= i <= self.path@.len(),
                text@ == render(self.path@.take(i as int)),
            decreases self.path@.len() - i,
        {
            let ghost before = text@;
            proof {
                assert(self.path@.take(i + 1).drop_last() =~= self.path@.take(i as int));
                assert(self.path@.take(i + 1).last() == self.path@[i as int]);
            }
            match self.path[i] {
                Segment::Field(name) => {
                    if !text.as_str().is_empty() {
                        text.push('.');
                    }
                    text.append(name);
                    proof {
                        if before.len() == 0 {
                            assert(text@ =~= name@);
                        }
                    }
                },
                Segment::Index(index) => {
                    text.push('[');
                    push_decimal(&mut text, index as u64);
                    text.push(']');
                    proof {
                        assert(text@ =~= before.push('[') + crate::text::decimal(index as nat)
                            + seq![']']);
                    }
                },
            }
            i += 1;
        }
        proof {
            assert(self.path@.take(i as int) =~= self.path@);
        }
        text
    }

    /// Accepts a float, given by its bits, or reports it with the path it was
    /// found at.
    pub fn check(&self, bits: u64) -> (verdict: Result<(), NonFinite>)
        ensures
            match verdict {
                Ok(_) => classify(bits) is None,
                Err(found) => classify(bits) == Some(found.value) && found.path@ == render(
                    self.path@,
                ),
            },
    {
        let exponent: u64 = (bits / 0x10_0000_0000_0000) % 0x800;
        if exponent != 0x7ff {
            return Ok(());
        }
        let value = if bits % 0x10_0000_0000_0000 != 0 {
            NonFiniteValue::Nan
        } else if bits / 0x8000_0000_0000_0000 == 0 {
            NonFiniteValue::Infinity
        } else {
            NonFiniteValue::NegativeInfinity
        };
        Err(NonFinite { path: self.path(), value })
    }
}

/// Entering a field and leaving it again puts the walk back where it was.
pub proof fn law_leaving_undoes_entering(path: Seq<Segment>, step: Segment)
    ensures
        path.push(step).drop_last() == path,
{
    assert(path.push(step).drop_last() =~= path);
}

/// A float is finite unless every bit of its exponent is set; then it is an
/// infinity of its sign where no bit of its fraction is set, and not a number
/// otherwise.
pub proof fn law_which_floats_are_not_finite(bits: u64)
    ensures
        classify(bits) is None <==> bits & 0x7ff0_0000_0000_0000 != 0x7ff0_0000_0000_0000,
        classify(bits) == Some(NonFiniteValue::Infinity) <==> bits == 0x7ff0_0000_0000_0000,
        classify(bits) == Some(NonFiniteValue::NegativeInfinity) <==> bits == 0xfff0_0000_0000_0000,
        classify(bits) == Some(NonFiniteValue::Nan) <==> bits & 0x7ff0_0000_0000_0000
            == 0x7ff0_0000_0000_0000 && bits & 0x000f_ffff_ffff_ffff != 0,
{
    assert((bits / 0x10_0000_0000_0000) % 0x800 == 0x7ff <==> bits & 0x7ff0_0000_0000_0000
        == 0x7ff0_0000_0000_0000) by (bit_vector);
    assert(bits % 0x10_0000_0000_0000 == bits & 0x000f_ffff_ffff_ffff) by (bit_vector);
    assert(bits & 0x7ff0_0000_0000_0000 == 0x7ff0_0000_0000_0000 && bits & 0x000f_ffff_ffff_ffff
        == 0 ==> bits == 0x7ff0_0000_0000_0000 || bits == 0xfff0_0000_0000_0000) by (bit_vector);
    assert(0x7ff0_0000_0000_0000u64 & 0x000f_ffff_ffff_ffff == 0) by (bit_vector);
    assert(0xfff0_0000_0000_0000u64 & 0x000f_ffff_ffff_ffff == 0) by (bit_vector);
    assert(0x7ff0_0000_0000_0000u64 & 0x7ff0_0000_0000_0000 == 0x7ff0_0000_0000_0000) by (
    bit_vector);
    assert(0xfff0_0000_0000_0000u64 & 0x7ff0_0000_0000_0000 == 0x7ff0_0000_0000_0000) by (
    bit_vector);
}

/// A place in a value is written field by field: a name stands alone at the
/// top and behind a point below it, and an element by its number in brackets.
pub proof fn law_how_a_place_is_written(path: Seq<Segment>, name: &'static str, index: usize)
    ensures
        render(Seq::<Segment>::empty()).len() == 0,
        render(seq![Segment::Field(name)]) == name@,
        render(path).len() > 0 ==> render(path.push(Segment::Field(name))) == render(path) + seq![
            '.',
        ] + name@,
        render(path.push(Segment::Index(index))) == render(path) + seq!['[']
            + crate::text::decimal(index as nat) + seq![']'],
{
    reveal_with_fuel(render, 2);
    assert(seq![Segment::Field(name)].drop_last() =~= Seq::<Segment>::empty());
    assert(path.push(Segment::Field(name)).drop_last() =~= path);
    assert(path.push(Segment::Index(index)).drop_last() =~= path);
    assert(render(path).push('[') =~= render(path) + seq!['[']);
    assert(render(path).push('.') =~= render(path) + seq!['.']);
}

/// Moving on within a sequence counts its element on and moves nothing else.
pub proof fn law_moving_on_counts_the_element(path: Seq<Segment>, index: usize)
    requires
        index < usize::MAX,
    ensures
        advanced(path.push(Segment::Index(index))) == path.push(
            Segment::Index((index + 1) as usize),
        ),
{
    assert(path.push(Segment::Index(index)).drop_last() =~= path);
}

/// A find is written as what it is, and where it is anywhere, where.
pub proof fn law_how_a_find_is_written(path: Seq<char>, value: NonFiniteValue)
    ensures
        value_text(NonFiniteValue::Nan) == seq!['N', 'a', 'N'],
        value_text(NonFiniteValue::Infinity) == seq!['i', 'n', 'f'],
        value_text(NonFiniteValue::NegativeInfinity) == seq!['-', 'i', 'n', 'f'],
        path.len() == 0 ==> found_text(path, value) == value_text(value),
        path.len() > 0 ==> found_text(path, value) == value_text(value) + seq![' ', 'a', 't', ' ']
            + path,
{
    reveal_strlit("NaN");
    reveal_strlit("inf");
    reveal_strlit("-inf");
    reveal_strlit(" at ");
    assert("NaN"@ =~= seq!['N', 'a', 'N']);
    assert("inf"@ =~= seq!['i', 'n', 'f']);
    assert("-inf"@ =~= seq!['-', 'i', 'n', 'f']);
    assert(" at "@ =~= seq![' ', 'a', 't', ' ']);
}

/// Whether the four bytes of `null` stand somewhere in a payload.
pub open spec fn holds_null(payload: Seq<u8>) -> bool {
    exists|i: int| #[trigger] null_at(payload, i)
}

/// Whether the four bytes of `null` stand at a position.
pub open spec fn null_at(payload: Seq<u8>, i: int) -> bool {
    0 <= i && i + 4 <= payload.len() && payload[i] == 110 && payload[i + 1] == 117 && payload[i + 2]
        == 108 && payload[i + 3] == 108
}

/// A payload is looked at closer exactly where the four bytes of `null` stand
/// one after the other somewhere in it.
pub proof fn law_which_payloads_hold_a_null(payload: Seq<u8>)
    ensures
        holds_null(payload) <==> exists|i: int|
            0 <= i && i + 4 <= payload.len() && (#[trigger] payload.skip(i)).take(4) == seq![
                110u8,
                117u8,
                108u8,
                108u8,
            ],
{
    let null = seq![110u8, 117u8, 108u8, 108u8];
    if holds_null(payload) {
        let i = choose|i: int| #[trigger] null_at(payload, i);
        assert(payload.skip(i).take(4) =~= null);
    }
    if exists|i: int|
        0 <= i && i + 4 <= payload.len() && (#[trigger] payload.skip(i)).take(4) == null {
        let i = choose|i: int|
            0 <= i && i + 4 <= payload.len() && (#[trigger] payload.skip(i)).take(4) == null;
        let word = payload.skip(i).take(4);
        assert(word[0] == payload[i] && word[1] == payload[i + 1] && word[2] == payload[i + 2]
            && word[3] == payload[i + 3]);
        assert(null_at(payload, i));
    }
}

/// Whether a payload might hide a non-finite float: one always writes a
/// `null`, so a payload without one needs no closer look.
pub fn may_hide_non_finite(payload: &Vec<u8>) -> (maybe: bool)
    ensures
        maybe == holds_null(payload@),
{
    let len: usize = payload.len();
    let mut i: usize = 0;
    while i < len && len - i >= 4
        invariant
            len == payload@.len(),
            0 <= i <= len,
            forall|j: int| 0 <= j < i ==> !#[trigger] null_at(payload@, j),
        decreases len - i,
    {
        if payload[i] == 110 && payload[i + 1] == 117 && payload[i + 2] == 108 && payload[i + 3]
            == 108 {
            proof {
                assert(null_at(payload@, i as int));
            }
            return true;
        }
        i += 1;
    }
    false
}

} // verus!
