use vstd::prelude::*;

verus! {

/// Whether an entity takes part in layout and painting.
#[derive(Clone, Copy, PartialEq, Eq, Structural, Debug, Hash)]
pub enum Display {
    /// Laid out and painted.
    Flex,
    /// Taken out of layout and painting (the style keyword "none").
    Off,
}

/// Whether an entity is painted.
#[derive(Clone, Copy, PartialEq, Eq, Structural, Debug, Hash)]
pub enum Visibility {
    Visible,
    Invisible,
}

/// The unit of a length.
#[derive(Clone, Copy, PartialEq, Eq, Structural, Debug, Hash)]
pub enum Unit {
    Pixels,
    Percentage,
    Stretch,
    Auto,
}

/// What happens to text that does not fit.
#[derive(Clone, Copy, PartialEq, Eq, Structural, Debug, Hash)]
pub enum TextOverflow {
    Clip,
    Ellipsis,
}

/// The value of a style property. The cascade compares values and moves them
/// about; it reads no magnitude. A length carries its magnitude as 32 raw bits
/// that only the caller interprets.
#[derive(Clone, Copy, PartialEq, Eq, Structural, Debug, Hash)]
pub enum Value {
    Display(Display),
    Visibility(Visibility),
    Integer(i32),
    Flag(bool),
    Length(Unit, u32),
    TextOverflow(TextOverflow),
    Other(u64),
}

/// Whether two optional values are the same.
pub fn same_value(a: Option<Value>, b: Option<Value>) -> (r: bool)
    ensures
        r == (a == b),
{
    match (a, b) {
        (None, None) => true,
        (Some(x), Some(y)) => x == y,
        _ => false,
    }
}

} // verus!
