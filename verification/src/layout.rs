use vstd::prelude::*;
use crate::cache::{at, read_at, store_at, stored};
use crate::property::Property;
use crate::style::Style;
use crate::style_system::own_display;
use crate::tree::Entity;
use crate::value::{Display, TextOverflow, Unit, Value};

verus! {

/// The box in which the text of an entity was measured. The four numbers are
/// carried as raw 32-bit patterns that only the caller interprets.
#[derive(Clone, Copy, PartialEq, Eq, Structural, Debug)]
pub struct BoundingBox {
    pub x: u32,
    pub y: u32,
    pub w: u32,
    pub h: u32,
}

/// What the text subsystem tells the layout: which entities own a paragraph,
/// and the box that was last measured for each.
#[derive(Debug)]
pub struct TextContext {
    pub paragraphs: Vec<bool>,
    pub bounds: Vec<Option<BoundingBox>>,
}

impl TextContext {
    pub open spec fn owns_paragraph(&self, e: Entity) -> bool {
        at(self.paragraphs@, e.0 as int, false)
    }

    pub open spec fn bounds_of(&self, e: Entity) -> Option<BoundingBox> {
        at(self.bounds@, e.0 as int, None)
    }

    pub fn new() -> (t: TextContext)
        ensures
            forall|e: Entity| !t.owns_paragraph(e) && t.bounds_of(e) is None,
    {
        TextContext { paragraphs: Vec::new(), bounds: Vec::new() }
    }

    /// Records whether `e` owns a paragraph.
    pub fn set_paragraph(&mut self, e: Entity, owns: bool)
        ensures
            final(self).paragraphs@ == stored(old(self).paragraphs@, e.0 as int, owns, false),
            final(self).bounds == old(self).bounds,
    {
        store_at(&mut self.paragraphs, e.0, owns, false);
    }

    pub fn has_paragraph(&self, e: Entity) -> (r: bool)
        ensures
            r == self.owns_paragraph(e),
    {
        read_at(&self.paragraphs, e.0, false)
    }

    /// Keeps the box in which the text of `e` was measured.
    pub fn set_text_bounds(&mut self, e: Entity, bounds: BoundingBox)
        ensures
            final(self).bounds@ == stored(old(self).bounds@, e.0 as int, Some(bounds), None),
            final(self).paragraphs == old(self).paragraphs,
    {
        store_at(&mut self.bounds, e.0, Some(bounds), None);
    }

    pub fn get_text_bounds(&self, e: Entity) -> (r: Option<BoundingBox>)
        ensures
            r == self.bounds_of(e),
    {
        read_at(&self.bounds, e.0, None)
    }
}

/// A decoded image: a raster image with its natural size in pixels, or a
/// vector image, which has none.
#[derive(Clone, Copy, PartialEq, Eq, Structural, Debug)]
pub enum ImageOrSvg {
    Image { width: i32, height: i32 },
    Svg,
}

/// An entry of the resource store: the interned name of an image and, once it
/// is decoded, the image.
#[derive(Clone, Copy, PartialEq, Eq, Structural, Debug)]
pub struct StoredImage {
    pub name: u64,
    pub image: Option<ImageOrSvg>,
}

/// The image that `images` holds under `name`: that of the first entry with
/// this name, if it is decoded.
pub open spec fn lookup(images: Seq<StoredImage>, name: u64) -> Option<ImageOrSvg>
    decreases images.len(),
{
    if images.len() == 0 {
        None
    } else if images[0].name == name {
        images[0].image
    } else {
        lookup(images.drop_first(), name)
    }
}

/// The read-only store of images.
#[derive(Debug)]
pub struct ResourceManager {
    pub images: Vec<StoredImage>,
}

impl ResourceManager {
    pub fn new() -> (r: ResourceManager)
        ensures
            r.images@.len() == 0,
    {
        ResourceManager { images: Vec::new() }
    }

    /// Looks an image up by name. An unknown name and an image that is not
    /// decoded yet both give `None`.
    pub fn get(&self, name: u64) -> (r: Option<ImageOrSvg>)
        ensures
            r == lookup(self.images@, name),
    {
        let mut i: usize = 0;
        assert(self.images@.skip(0) =~= self.images@);
        while i < self.images.len()
            invariant
                i <= self.images@.len(),
                lookup(self.images@, name) == lookup(self.images@.skip(i as int), name),
            decreases self.images@.len() - i,
        {
            proof {
                let rest = self.images@.skip(i as int);
                assert(rest[0] == self.images@[i as int]);
                assert(rest.drop_first() =~= self.images@.skip(i + 1));
            }
            if self.images[i].name == name {
                return self.images[i].image;
            }
            i += 1;
        }
        None
    }
}

/// What the measurement of content works with: the text subsystem and the
/// store of images.
pub struct SubLayout<'a> {
    pub text_context: &'a mut TextContext,
    pub resource_manager: &'a ResourceManager,
}

/// One background layer of an entity: an image by its interned name, or a
/// gradient, which has no natural size.
#[derive(Clone, Copy, PartialEq, Eq, Structural, Debug)]
pub enum ImageOrGradient {
    Image(u64),
    Gradient,
}

/// The measurable content of an entity.
#[derive(Clone, Copy, PartialEq, Eq, Structural, Debug)]
pub enum Content {
    Text,
    Images,
    Nothing,
}

/// Why content could not be measured.
#[derive(Clone, Copy, PartialEq, Eq, Structural, Debug)]
pub enum MeasureError {
    /// A background image is a vector image, which has no natural size.
    VectorImage,
}

/// The width at which a paragraph is laid out.
#[derive(Clone, Copy, PartialEq, Eq, Structural, Debug)]
pub enum WrapWidth {
    /// The width that the container leaves to the text.
    Available,
    /// The same, but no less than the paragraph's minimum intrinsic width.
    AvailableAtLeastMin,
    /// The paragraph's minimum intrinsic width.
    MinIntrinsic,
    /// The paragraph's maximum intrinsic width.
    MaxIntrinsic,
}

/// The layer behind `layer`, where it is a decoded image.
pub open spec fn resolved(images: Seq<StoredImage>, layer: ImageOrGradient) -> Option<ImageOrSvg> {
    match layer {
        ImageOrGradient::Image(name) => lookup(images, name),
        ImageOrGradient::Gradient => None,
    }
}

/// One of the layers is a vector image.
pub open spec fn has_vector(images: Seq<StoredImage>, layers: Seq<ImageOrGradient>) -> bool {
    exists|i: int| 0 <= i < layers.len() && resolved(images, #[trigger] layers[i]) == Some(ImageOrSvg::Svg)
}

pub open spec fn larger(a: i32, b: i32) -> i32 {
    if a >= b {
        a
    } else {
        b
    }
}

/// The greatest natural width among the raster images of the layers, and 0
/// where there is none. Layers that are no decoded raster image count for
/// nothing.
pub open spec fn max_width(images: Seq<StoredImage>, layers: Seq<ImageOrGradient>) -> i32
    decreases layers.len(),
{
    if layers.len() == 0 {
        0
    } else {
        let rest = max_width(images, layers.drop_last());
        match resolved(images, layers.last()) {
            Some(ImageOrSvg::Image { width, height }) => larger(rest, width),
            _ => rest,
        }
    }
}

/// The greatest natural height among the raster images of the layers, and 0
/// where there is none.
pub open spec fn max_height(images: Seq<StoredImage>, layers: Seq<ImageOrGradient>) -> i32
    decreases layers.len(),
{
    if layers.len() == 0 {
        0
    } else {
        let rest = max_height(images, layers.drop_last());
        match resolved(images, layers.last()) {
            Some(ImageOrSvg::Image { width, height }) => larger(rest, height),
            _ => rest,
        }
    }
}

/// The natural size of a stack of background layers, in pixels before
/// scaling: on each axis the greatest extent of any raster image. A vector
/// image among the layers is an error.
pub fn image_extent(resources: &ResourceManager, layers: &Vec<ImageOrGradient>) -> (r: Result<
    (i32, i32),
    MeasureError,
>)
    ensures
        has_vector(resources.images@, layers@) ==> r == Err::<(i32, i32), MeasureError>(
            MeasureError::VectorImage,
        ),
        !has_vector(resources.images@, layers@) ==> r == Ok::<(i32, i32), MeasureError>(
            (max_width(resources.images@, layers@), max_height(resources.images@, layers@)),
        ),
{
    let mut w: i32 = 0;
    let mut h: i32 = 0;
    let mut i: usize = 0;
    while i < layers.len()
        invariant
            i <= layers@.len(),
            !has_vector(resources.images@, layers@.take(i as int)),
            w == max_width(resources.images@, layers@.take(i as int)),
            h == max_height(resources.images@, layers@.take(i as int)),
        decreases layers@.len() - i,
    {
        let ghost next = layers@.take(i + 1);
        proof {
            assert(next.drop_last() =~= layers@.take(i as int));
            assert(next.last() == layers@[i as int]);
        }
        let found = match layers[i] {
            ImageOrGradient::Image(name) => resources.get(name),
            ImageOrGradient::Gradient => None,
        };
        match found {
            Some(ImageOrSvg::Image { width, height }) => {
                if width > w {
                    w = width;
                }
                if height > h {
                    h = height;
                }
            },
            Some(ImageOrSvg::Svg) => {
                assert(has_vector(resources.images@, layers@));
                return Err(MeasureError::VectorImage);
            },
            None => {},
        }
        proof {
            if has_vector(resources.images@, next) {
                let k = choose|k: int|
                    0 <= k < next.len() && resolved(resources.images@, #[trigger] next[k]) == Some(
                        ImageOrSvg::Svg,
                    );
                if k < i {
                    assert(layers@.take(i as int)[k] == next[k]);
                }
            }
        }
        i += 1;
    }
    assert(layers@.take(layers@.len() as int) =~= layers@);
    Ok((w, h))
}

/// The background that the style of `e` declares: the key under which the
/// caller keeps the list of its layers. A style without a background, or
/// with a value of another kind, gives `None`.
pub fn background(store: &Style, e: Entity) -> (r: Option<u64>)
    requires
        store.wf(),
    ensures
        r == (match store.value(e, Property::BackgroundImage) {
            Some(Value::Other(key)) => Some(key),
            _ => None,
        }),
{
    match store.get(e, Property::BackgroundImage) {
        Some(Value::Other(key)) => Some(key),
        _ => None,
    }
}

/// Which content of `e` is measured: its paragraph where it owns one, else
/// its background layers where it declares any, else nothing.
pub fn content_kind(text_context: &TextContext, e: Entity, declares_images: bool) -> (r: Content)
    ensures
        r == (if text_context.owns_paragraph(e) {
            Content::Text
        } else if declares_images {
            Content::Images
        } else {
            Content::Nothing
        }),
{
    if text_context.has_paragraph(e) {
        Content::Text
    } else if declares_images {
        Content::Images
    } else {
        Content::Nothing
    }
}

/// Whether the style of `e` lets its text wrap; it does unless the style says otherwise.
pub open spec fn wraps(style: &Style, e: Entity) -> bool {
    match style.value(e, Property::TextWrap) {
        Some(Value::Flag(b)) => b,
        _ => true,
    }
}

/// Whether the style of `e` ends overflowing text with an ellipsis.
pub open spec fn ellipsis(style: &Style, e: Entity) -> bool {
    style.value(e, Property::TextOverflow) == Some(Value::TextOverflow(TextOverflow::Ellipsis))
}

/// The width at which the paragraph of `e` is laid out. Wrapping text takes
/// the available width, or its minimum intrinsic width where the container's
/// width is not known. Text that does not wrap takes its maximum intrinsic
/// width where the container's width is not known; else the available width,
/// which without an ellipsis is raised to the minimum intrinsic width.
pub open spec fn wrap_policy(style: &Style, e: Entity, width_known: bool) -> WrapWidth {
    if wraps(style, e) {
        if width_known {
            WrapWidth::Available
        } else {
            WrapWidth::MinIntrinsic
        }
    } else if !width_known {
        WrapWidth::MaxIntrinsic
    } else if ellipsis(style, e) {
        WrapWidth::Available
    } else {
        WrapWidth::AvailableAtLeastMin
    }
}

/// Chooses the width at which the paragraph of `e` is laid out.
pub fn wrap_width(store: &Style, e: Entity, width_known: bool) -> (r: WrapWidth)
    requires
        store.wf(),
    ensures
        r == wrap_policy(store, e, width_known),
{
    let wrap = match store.get(e, Property::TextWrap) {
        Some(Value::Flag(b)) => b,
        _ => true,
    };
    let overflow = store.get(e, Property::TextOverflow);
    match (wrap, overflow) {
        (true, _) => {
            if width_known {
                WrapWidth::Available
            } else {
                WrapWidth::MinIntrinsic
            }
        },
        (false, Some(Value::TextOverflow(TextOverflow::Ellipsis))) => {
            if width_known {
                WrapWidth::Available
            } else {
                WrapWidth::MaxIntrinsic
            }
        },
        _ => {
            if width_known {
                WrapWidth::AvailableAtLeastMin
            } else {
                WrapWidth::MaxIntrinsic
            }
        },
    }
}

/// Whether `e` takes part in layout: it does unless its style sets its
/// display off.
pub fn visible(store: &Style, e: Entity) -> (r: bool)
    requires
        store.wf(),
    ensures
        r == (own_display(store, e) != Some(Display::Off)),
{
    match store.get(e, Property::Display) {
        Some(Value::Display(d)) => d == Display::Flex,
        _ => true,
    }
}

/// The length that the style of `e` holds for `p`: its unit and its raw
/// magnitude. A property that is unset, or holds no length, gives `None`.
pub fn length(store: &Style, e: Entity, p: Property) -> (r: Option<(Unit, u32)>)
    requires
        store.wf(),
    ensures
        r == (match store.value(e, p) {
            Some(Value::Length(unit, bits)) => Some((unit, bits)),
            _ => None,
        }),
{
    match store.get(e, p) {
        Some(Value::Length(unit, bits)) => Some((unit, bits)),
        _ => None,
    }
}

/// The magnitude of `p` for `e` where it is a length in pixels. Only such a
/// length is converted by the scale factor, and only such a padding narrows
/// the width that is left to text.
pub fn pixels(store: &Style, e: Entity, p: Property) -> (r: Option<u32>)
    requires
        store.wf(),
    ensures
        r == (match store.value(e, p) {
            Some(Value::Length(Unit::Pixels, bits)) => Some(bits),
            _ => None,
        }),
{
    match store.get(e, p) {
        Some(Value::Length(Unit::Pixels, bits)) => Some(bits),
        _ => None,
    }
}

} // verus!
