use vstd::prelude::*;

verus! {

/// How many style properties the cascade tracks.
pub const PROPERTY_COUNT: usize = 57;

/// A style property. The order of the variants is the order in which the
/// cascade resolves them.
#[derive(Clone, Copy, PartialEq, Eq, Structural, Debug, Hash)]
pub enum Property {
    Display,
    Visibility,
    ZOrder,
    Overflow,
    Opacity,
    Left,
    Right,
    Top,
    Bottom,
    Width,
    Height,
    MaxWidth,
    MinWidth,
    MaxHeight,
    MinHeight,
    BorderWidth,
    BorderColor,
    BorderShapeTopLeft,
    BorderShapeTopRight,
    BorderShapeBottomLeft,
    BorderShapeBottomRight,
    BorderRadiusTopLeft,
    BorderRadiusTopRight,
    BorderRadiusBottomLeft,
    BorderRadiusBottomRight,
    LayoutType,
    PositionType,
    BackgroundColor,
    BackgroundImage,
    FontColor,
    FontSize,
    Font,
    OuterShadowHOffset,
    OuterShadowVOffset,
    OuterShadowBlur,
    OuterShadowColor,
    InnerShadowHOffset,
    InnerShadowVOffset,
    InnerShadowBlur,
    InnerShadowColor,
    ChildLeft,
    ChildRight,
    ChildTop,
    ChildBottom,
    RowBetween,
    ColBetween,
    Cursor,
    MinLeft,
    MaxLeft,
    MinRight,
    MaxRight,
    MinTop,
    MaxTop,
    MinBottom,
    MaxBottom,
    TextWrap,
    TextOverflow,
}

impl Property {
    /// The position of the property in every table of properties.
    pub open spec fn spec_index(self) -> int {
        match self {
            Property::Display => 0,
            Property::Visibility => 1,
            Property::ZOrder => 2,
            Property::Overflow => 3,
            Property::Opacity => 4,
            Property::Left => 5,
            Property::Right => 6,
            Property::Top => 7,
            Property::Bottom => 8,
            Property::Width => 9,
            Property::Height => 10,
            Property::MaxWidth => 11,
            Property::MinWidth => 12,
            Property::MaxHeight => 13,
            Property::MinHeight => 14,
            Property::BorderWidth => 15,
            Property::BorderColor => 16,
            Property::BorderShapeTopLeft => 17,
            Property::BorderShapeTopRight => 18,
            Property::BorderShapeBottomLeft => 19,
            Property::BorderShapeBottomRight => 20,
            Property::BorderRadiusTopLeft => 21,
            Property::BorderRadiusTopRight => 22,
            Property::BorderRadiusBottomLeft => 23,
            Property::BorderRadiusBottomRight => 24,
            Property::LayoutType => 25,
            Property::PositionType => 26,
            Property::BackgroundColor => 27,
            Property::BackgroundImage => 28,
            Property::FontColor => 29,
            Property::FontSize => 30,
            Property::Font => 31,
            Property::OuterShadowHOffset => 32,
            Property::OuterShadowVOffset => 33,
            Property::OuterShadowBlur => 34,
            Property::OuterShadowColor => 35,
            Property::InnerShadowHOffset => 36,
            Property::InnerShadowVOffset => 37,
            Property::InnerShadowBlur => 38,
            Property::InnerShadowColor => 39,
            Property::ChildLeft => 40,
            Property::ChildRight => 41,
            Property::ChildTop => 42,
            Property::ChildBottom => 43,
            Property::RowBetween => 44,
            Property::ColBetween => 45,
            Property::Cursor => 46,
            Property::MinLeft => 47,
            Property::MaxLeft => 48,
            Property::MinRight => 49,
            Property::MaxRight => 50,
            Property::MinTop => 51,
            Property::MaxTop => 52,
            Property::MinBottom => 53,
            Property::MaxBottom => 54,
            Property::TextWrap => 55,
            Property::TextOverflow => 56,
        }
    }

    /// A change of this property's resolved value asks for a new layout.
    pub open spec fn spec_affects_layout(self) -> bool {
        match self {
            Property::Display
            | Property::Visibility
            | Property::ZOrder
            | Property::Opacity
            | Property::Left
            | Property::Right
            | Property::Top
            | Property::Bottom
            | Property::Width
            | Property::Height
            | Property::MaxWidth
            | Property::MinWidth
            | Property::MaxHeight
            | Property::MinHeight
            | Property::BorderWidth
            | Property::LayoutType
            | Property::PositionType
            | Property::ChildLeft
            | Property::ChildRight
            | Property::ChildTop
            | Property::ChildBottom
            | Property::RowBetween
            | Property::ColBetween
            | Property::MinLeft
            | Property::MaxLeft
            | Property::MinRight
            | Property::MaxRight
            | Property::MinTop
            | Property::MaxTop
            | Property::MinBottom
            | Property::MaxBottom
            | Property::TextWrap
            | Property::TextOverflow => true,
            _ => false,
        }
    }

    /// A change of this property's resolved value asks for a repaint. Every
    /// property that asks for a new layout asks for a repaint too.
    pub open spec fn spec_affects_paint(self) -> bool {
        match self {
            Property::Overflow | Property::Cursor => false,
            _ => true,
        }
    }

    pub fn index(self) -> (i: usize)
        ensures
            i == self.spec_index(),
            i < PROPERTY_COUNT,
    {
        match self {
            Property::Display => 0,
            Property::Visibility => 1,
            Property::ZOrder => 2,
            Property::Overflow => 3,
            Property::Opacity => 4,
            Property::Left => 5,
            Property::Right => 6,
            Property::Top => 7,
            Property::Bottom => 8,
            Property::Width => 9,
            Property::Height => 10,
            Property::MaxWidth => 11,
            Property::MinWidth => 12,
            Property::MaxHeight => 13,
            Property::MinHeight => 14,
            Property::BorderWidth => 15,
            Property::BorderColor => 16,
            Property::BorderShapeTopLeft => 17,
            Property::BorderShapeTopRight => 18,
            Property::BorderShapeBottomLeft => 19,
            Property::BorderShapeBottomRight => 20,
            Property::BorderRadiusTopLeft => 21,
            Property::BorderRadiusTopRight => 22,
            Property::BorderRadiusBottomLeft => 23,
            Property::BorderRadiusBottomRight => 24,
            Property::LayoutType => 25,
            Property::PositionType => 26,
            Property::BackgroundColor => 27,
            Property::BackgroundImage => 28,
            Property::FontColor => 29,
            Property::FontSize => 30,
            Property::Font => 31,
            Property::OuterShadowHOffset => 32,
            Property::OuterShadowVOffset => 33,
            Property::OuterShadowBlur => 34,
            Property::OuterShadowColor => 35,
            Property::InnerShadowHOffset => 36,
            Property::InnerShadowVOffset => 37,
            Property::InnerShadowBlur => 38,
            Property::InnerShadowColor => 39,
            Property::ChildLeft => 40,
            Property::ChildRight => 41,
            Property::ChildTop => 42,
            Property::ChildBottom => 43,
            Property::RowBetween => 44,
            Property::ColBetween => 45,
            Property::Cursor => 46,
            Property::MinLeft => 47,
            Property::MaxLeft => 48,
            Property::MinRight => 49,
            Property::MaxRight => 50,
            Property::MinTop => 51,
            Property::MaxTop => 52,
            Property::MinBottom => 53,
            Property::MaxBottom => 54,
            Property::TextWrap => 55,
            Property::TextOverflow => 56,
        }
    }

    /// The property that stands at position `i`, if there is one.
    pub fn from_index(i: usize) -> (p: Option<Property>)
        ensures
            i < PROPERTY_COUNT ==> p is Some && p.unwrap().spec_index() == i,
            i >= PROPERTY_COUNT ==> p is None,
    {
        match i {
            0 => Some(Property::Display),
            1 => Some(Property::Visibility),
            2 => Some(Property::ZOrder),
            3 => Some(Property::Overflow),
            4 => Some(Property::Opacity),
            5 => Some(Property::Left),
            6 => Some(Property::Right),
            7 => Some(Property::Top),
            8 => Some(Property::Bottom),
            9 => Some(Property::Width),
            10 => Some(Property::Height),
            11 => Some(Property::MaxWidth),
            12 => Some(Property::MinWidth),
            13 => Some(Property::MaxHeight),
            14 => Some(Property::MinHeight),
            15 => Some(Property::BorderWidth),
            16 => Some(Property::BorderColor),
            17 => Some(Property::BorderShapeTopLeft),
            18 => Some(Property::BorderShapeTopRight),
            19 => Some(Property::BorderShapeBottomLeft),
            20 => Some(Property::BorderShapeBottomRight),
            21 => Some(Property::BorderRadiusTopLeft),
            22 => Some(Property::BorderRadiusTopRight),
            23 => Some(Property::BorderRadiusBottomLeft),
            24 => Some(Property::BorderRadiusBottomRight),
            25 => Some(Property::LayoutType),
            26 => Some(Property::PositionType),
            27 => Some(Property::BackgroundColor),
            28 => Some(Property::BackgroundImage),
            29 => Some(Property::FontColor),
            30 => Some(Property::FontSize),
            31 => Some(Property::Font),
            32 => Some(Property::OuterShadowHOffset),
            33 => Some(Property::OuterShadowVOffset),
            34 => Some(Property::OuterShadowBlur),
            35 => Some(Property::OuterShadowColor),
            36 => Some(Property::InnerShadowHOffset),
            37 => Some(Property::InnerShadowVOffset),
            38 => Some(Property::InnerShadowBlur),
            39 => Some(Property::InnerShadowColor),
            40 => Some(Property::ChildLeft),
            41 => Some(Property::ChildRight),
            42 => Some(Property::ChildTop),
            43 => Some(Property::ChildBottom),
            44 => Some(Property::RowBetween),
            45 => Some(Property::ColBetween),
            46 => Some(Property::Cursor),
            47 => Some(Property::MinLeft),
            48 => Some(Property::MaxLeft),
            49 => Some(Property::MinRight),
            50 => Some(Property::MaxRight),
            51 => Some(Property::MinTop),
            52 => Some(Property::MaxTop),
            53 => Some(Property::MinBottom),
            54 => Some(Property::MaxBottom),
            55 => Some(Property::TextWrap),
            56 => Some(Property::TextOverflow),
            _ => None,
        }
    }

    pub fn affects_layout(self) -> (b: bool)
        ensures
            b == self.spec_affects_layout(),
    {
        match self {
            Property::Display
            | Property::Visibility
            | Property::ZOrder
            | Property::Opacity
            | Property::Left
            | Property::Right
            | Property::Top
            | Property::Bottom
            | Property::Width
            | Property::Height
            | Property::MaxWidth
            | Property::MinWidth
            | Property::MaxHeight
            | Property::MinHeight
            | Property::BorderWidth
            | Property::LayoutType
            | Property::PositionType
            | Property::ChildLeft
            | Property::ChildRight
            | Property::ChildTop
            | Property::ChildBottom
            | Property::RowBetween
            | Property::ColBetween
            | Property::MinLeft
            | Property::MaxLeft
            | Property::MinRight
            | Property::MaxRight
            | Property::MinTop
            | Property::MaxTop
            | Property::MinBottom
            | Property::MaxBottom
            | Property::TextWrap
            | Property::TextOverflow => true,
            _ => false,
        }
    }

    pub fn affects_paint(self) -> (b: bool)
        ensures
            b == self.spec_affects_paint(),
    {
        match self {
            Property::Overflow | Property::Cursor => false,
            _ => true,
        }
    }
}

/// Two properties with the same position are the same property.
pub proof fn lemma_index_injective(p: Property, q: Property)
    requires
        p.spec_index() == q.spec_index(),
    ensures
        p == q,
{
}

/// Whatever asks for a new layout asks for a repaint.
pub proof fn lemma_layout_implies_paint(p: Property)
    requires
        p.spec_affects_layout(),
    ensures
        p.spec_affects_paint(),
{
}

} // verus!
