//! Segments of a route pattern: literals, named parameters and wildcards.

use vstd::prelude::*;
use crate::bytes::{bytes_eq, copy_bytes};

verus! {

/// A class of values that a constrained parameter accepts.
#[derive(Clone, Copy, Debug, PartialEq, Eq, Structural)]
pub enum Constraint {
    /// ASCII decimal digits only.
    Digits,
    /// ASCII letters only.
    Alpha,
    /// ASCII letters and decimal digits only.
    Alnum,
}

/// Whether `b` is an ASCII decimal digit.
pub open spec fn is_digit(b: u8) -> bool {
    48 <= b <= 57
}

/// Whether `b` is an ASCII letter.
pub open spec fn is_letter(b: u8) -> bool {
    (65 <= b <= 90) || (97 <= b <= 122)
}

/// Whether `b` may stand in a parameter name: a letter, a digit or `_`.
pub open spec fn is_name_byte(b: u8) -> bool {
    is_letter(b) || is_digit(b) || b == 95
}

/// Whether `name` is an identifier: not empty, made of letters, digits and
/// `_`, and not starting with a digit.
pub open spec fn is_identifier(name: Seq<u8>) -> bool {
    &&& name.len() > 0
    &&& !is_digit(name[0])
    &&& forall|i: int| 0 <= i < name.len() ==> is_name_byte(#[trigger] name[i])
}

impl Constraint {
    /// Whether the class holds the byte `b`.
    pub open spec fn allows(self, b: u8) -> bool {
        match self {
            Constraint::Digits => is_digit(b),
            Constraint::Alpha => is_letter(b),
            Constraint::Alnum => is_letter(b) || is_digit(b),
        }
    }

    /// Whether every byte of `value` is in the class.
    pub open spec fn accepts(self, value: Seq<u8>) -> bool {
        forall|i: int| 0 <= i < value.len() ==> self.allows(#[trigger] value[i])
    }

    /// Whether every byte of `value` is in the class.
    pub fn check(&self, value: &[u8]) -> (ok: bool)
        ensures
            ok == self.accepts(value@),
    {
        let mut i: usize = 0;
        while i < value.len()
            invariant
                i <= value.len(),
                forall|j: int| 0 <= j < i ==> self.allows(#[trigger] value@[j]),
            decreases value.len() - i,
        {
            let b: u8 = value[i];
            let letter = (65 <= b && b <= 90) || (97 <= b && b <= 122);
            let digit = 48 <= b && b <= 57;
            let inside = match self {
                Constraint::Digits => digit,
                Constraint::Alpha => letter,
                Constraint::Alnum => letter || digit,
            };
            if !inside {
                return false;
            }
            i += 1;
        }
        true
    }
}

/// Whether `value` satisfies the constraint, if there is one.
pub open spec fn constraint_holds(constraint: Option<Constraint>, value: Seq<u8>) -> bool {
    match constraint {
        Some(c) => c.accepts(value),
        None => true,
    }
}

/// One segment of a pattern, as a mathematical value.
pub enum Segment {
    /// Matches the segment with exactly these bytes.
    Literal(Seq<u8>),
    /// Matches one non-empty segment that satisfies the constraint, and binds
    /// it to the name.
    Param(Seq<u8>, Option<Constraint>),
    /// Matches all the segments that remain, at least one, and binds them,
    /// joined with `/`, to the name.
    Wildcard(Seq<u8>),
}

impl Segment {
    /// The place of the segment's kind in the order of preference: a literal
    /// comes before a parameter, a parameter before a wildcard.
    pub open spec fn rank(self) -> int {
        match self {
            Segment::Literal(_) => 0,
            Segment::Param(_, _) => 1,
            Segment::Wildcard(_) => 2,
        }
    }

    /// The name that the segment binds, if it binds one.
    pub open spec fn bound_name(self) -> Option<Seq<u8>> {
        match self {
            Segment::Literal(_) => None,
            Segment::Param(name, _) => Some(name),
            Segment::Wildcard(name) => Some(name),
        }
    }

    /// Whether the segment, standing before the end of a pattern, matches the
    /// single path segment `value`. A wildcard matches only as the last
    /// segment of a pattern, so it takes no single segment.
    pub open spec fn takes(self, value: Seq<u8>) -> bool {
        match self {
            Segment::Literal(bytes) => value == bytes,
            Segment::Param(_, constraint) => value.len() > 0 && constraint_holds(constraint, value),
            Segment::Wildcard(_) => false,
        }
    }

    /// Whether the segment can come out of a pattern: a literal is not empty
    /// and holds no `/`, a name is an identifier.
    pub open spec fn well_formed(self) -> bool {
        match self {
            Segment::Literal(bytes) => bytes.len() > 0 && forall|i: int|
                0 <= i < bytes.len() ==> #[trigger] bytes[i] != 47,
            Segment::Param(name, _) => is_identifier(name),
            Segment::Wildcard(name) => is_identifier(name),
        }
    }
}

/// One segment of a compiled pattern.
#[derive(Debug, PartialEq, Eq)]
pub enum SegmentDescriptor {
    /// A literal segment with its bytes.
    Literal(Vec<u8>),
    /// A named parameter, with the class of values it is limited to, if any.
    Param(Vec<u8>, Option<Constraint>),
    /// A wildcard with its name.
    Wildcard(Vec<u8>),
}

impl View for SegmentDescriptor {
    type V = Segment;

    open spec fn view(&self) -> Segment {
        match *self {
            SegmentDescriptor::Literal(bytes) => Segment::Literal(bytes@),
            SegmentDescriptor::Param(name, constraint) => Segment::Param(name@, constraint),
            SegmentDescriptor::Wildcard(name) => Segment::Wildcard(name@),
        }
    }
}

impl SegmentDescriptor {
    /// The name that the segment binds, if it binds one.
    pub fn name(&self) -> (name: Option<&Vec<u8>>)
        ensures
            match self@.bound_name() {
                Some(bytes) => name is Some && name.unwrap()@ == bytes,
                None => name is None,
            },
    {
        match self {
            SegmentDescriptor::Literal(_) => None,
            SegmentDescriptor::Param(name, _) => Some(name),
            SegmentDescriptor::Wildcard(name) => Some(name),
        }
    }

    /// Whether the segment is a wildcard.
    pub fn is_wildcard(&self) -> (wildcard: bool)
        ensures
            wildcard == (self@ is Wildcard),
    {
        match self {
            SegmentDescriptor::Wildcard(_) => true,
            _ => false,
        }
    }

    /// A copy of the descriptor.
    pub fn duplicate(&self) -> (out: SegmentDescriptor)
        ensures
            out@ == self@,
    {
        match self {
            SegmentDescriptor::Literal(bytes) => SegmentDescriptor::Literal(
                copy_bytes(bytes.as_slice()),
            ),
            SegmentDescriptor::Param(name, constraint) => SegmentDescriptor::Param(
                copy_bytes(name.as_slice()),
                *constraint,
            ),
            SegmentDescriptor::Wildcard(name) => SegmentDescriptor::Wildcard(
                copy_bytes(name.as_slice()),
            ),
        }
    }
}

/// Whether two optional constraints are the same.
pub fn same_constraint(a: &Option<Constraint>, b: &Option<Constraint>) -> (same: bool)
    ensures
        same == (*a == *b),
{
    match (a, b) {
        (None, None) => true,
        (Some(x), Some(y)) => *x == *y,
        _ => false,
    }
}

/// The segments of a sequence of descriptors.
pub open spec fn segments_of(descriptors: Seq<SegmentDescriptor>) -> Seq<Segment> {
    Seq::new(descriptors.len(), |i: int| descriptors[i]@)
}

/// Whether `name` is an identifier.
pub fn check_identifier(name: &[u8]) -> (ok: bool)
    ensures
        ok == is_identifier(name@),
{
    if name.len() == 0 {
        return false;
    }
    if 48 <= name[0] && name[0] <= 57 {
        return false;
    }
    let mut i: usize = 0;
    while i < name.len()
        invariant
            i <= name.len(),
            forall|j: int| 0 <= j < i ==> is_name_byte(#[trigger] name@[j]),
        decreases name.len() - i,
    {
        let b: u8 = name[i];
        let inside = (65 <= b && b <= 90) || (97 <= b && b <= 122) || (48 <= b && b <= 57) || b
            == 95;
        if !inside {
            return false;
        }
        i += 1;
    }
    true
}

/// Whether `name` is among `names`.
pub fn contains_name(names: &Vec<Vec<u8>>, name: &[u8]) -> (found: bool)
    ensures
        found == exists|i: int| 0 <= i < names@.len() && (#[trigger] names@[i])@ == name@,
{
    let mut i: usize = 0;
    while i < names.len()
        invariant
            i <= names.len(),
            forall|j: int| 0 <= j < i ==> (#[trigger] names@[j])@ != name@,
        decreases names.len() - i,
    {
        if bytes_eq(names[i].as_slice(), name) {
            return true;
        }
        i += 1;
    }
    false
}

} // verus!
