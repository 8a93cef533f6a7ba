use vizia_style::layout::{
    background, content_kind, image_extent, length, pixels, visible, wrap_width, BoundingBox, Content,
    ImageOrGradient, ImageOrSvg, MeasureError, ResourceManager, StoredImage, SubLayout,
    TextContext, WrapWidth,
};
use vizia_style::property::Property;
use vizia_style::style::Style;
use vizia_style::tree::Entity;
use vizia_style::value::{Display, TextOverflow, Unit, Value};

fn raster(name: u64, width: i32, height: i32) -> StoredImage {
    StoredImage { name, image: Some(ImageOrSvg::Image { width, height }) }
}

#[test]
fn image_size_is_the_maximum_on_each_axis() {
    let resources = ResourceManager { images: vec![raster(1, 10, 20), raster(2, 30, 5)] };
    let layers = vec![ImageOrGradient::Image(1), ImageOrGradient::Image(2)];
    let (w, h) = image_extent(&resources, &layers).unwrap();
    assert_eq!((w, h), (30, 20));
    let scale = 2.0f32;
    assert_eq!((w as f32 * scale, h as f32 * scale), (60.0, 40.0));
}

#[test]
fn images_that_cannot_be_found_count_for_nothing() {
    let resources = ResourceManager {
        images: vec![raster(1, 10, 20), StoredImage { name: 3, image: None }],
    };
    let layers = vec![
        ImageOrGradient::Image(9),
        ImageOrGradient::Gradient,
        ImageOrGradient::Image(3),
        ImageOrGradient::Image(1),
    ];
    assert_eq!(image_extent(&resources, &layers), Ok((10, 20)));
    assert_eq!(image_extent(&resources, &Vec::new()), Ok((0, 0)));
    assert_eq!(image_extent(&resources, &vec![ImageOrGradient::Image(9)]), Ok((0, 0)));
}

#[test]
fn vector_image_is_an_error() {
    let resources = ResourceManager {
        images: vec![raster(1, 10, 20), StoredImage { name: 2, image: Some(ImageOrSvg::Svg) }],
    };
    let layers = vec![ImageOrGradient::Image(1), ImageOrGradient::Image(2)];
    assert_eq!(image_extent(&resources, &layers), Err(MeasureError::VectorImage));
}

#[test]
fn first_entry_of_a_name_is_the_one_found() {
    let resources = ResourceManager { images: vec![raster(1, 10, 20), raster(1, 99, 99)] };
    assert_eq!(resources.get(1), Some(ImageOrSvg::Image { width: 10, height: 20 }));
    assert_eq!(resources.get(2), None);
}

#[test]
fn wrap_width_by_policy() {
    let e = Entity(1);
    let mut style = Style::new();
    assert_eq!(wrap_width(&style, e, false), WrapWidth::MinIntrinsic);
    assert_eq!(wrap_width(&style, e, true), WrapWidth::Available);
    style.set_inline(e, Property::TextWrap, Value::Flag(false));
    assert_eq!(wrap_width(&style, e, false), WrapWidth::MaxIntrinsic);
    assert_eq!(wrap_width(&style, e, true), WrapWidth::AvailableAtLeastMin);
    style.set_inline(e, Property::TextOverflow, Value::TextOverflow(TextOverflow::Clip));
    assert_eq!(wrap_width(&style, e, true), WrapWidth::AvailableAtLeastMin);
    style.set_inline(e, Property::TextOverflow, Value::TextOverflow(TextOverflow::Ellipsis));
    assert_eq!(wrap_width(&style, e, true), WrapWidth::Available);
    assert_eq!(wrap_width(&style, e, false), WrapWidth::MaxIntrinsic);
    style.set_inline(e, Property::TextWrap, Value::Flag(true));
    assert_eq!(wrap_width(&style, e, false), WrapWidth::MinIntrinsic);
}

#[test]
fn text_comes_before_images() {
    let e = Entity(2);
    let mut text = TextContext::new();
    assert_eq!(content_kind(&text, e, false), Content::Nothing);
    assert_eq!(content_kind(&text, e, true), Content::Images);
    text.set_paragraph(e, true);
    assert_eq!(content_kind(&text, e, true), Content::Text);
    assert_eq!(content_kind(&text, Entity(1), false), Content::Nothing);
}

#[test]
fn text_bounds_are_kept() {
    let e = Entity(3);
    let mut text = TextContext::new();
    let resources = ResourceManager::new();
    assert_eq!(text.get_text_bounds(e), None);
    let bounds = BoundingBox {
        x: 4.0f32.to_bits(),
        y: 2.0f32.to_bits(),
        w: 40.0f32.to_bits(),
        h: 12.0f32.to_bits(),
    };
    {
        let sublayout = SubLayout { text_context: &mut text, resource_manager: &resources };
        sublayout.text_context.set_text_bounds(e, bounds);
    }
    assert_eq!(text.get_text_bounds(e), Some(bounds));
    assert_eq!(text.get_text_bounds(Entity(2)), None);
    assert!(!text.has_paragraph(e));
}

#[test]
fn only_display_off_hides_from_layout() {
    let e = Entity(1);
    let mut style = Style::new();
    assert!(visible(&style, e));
    style.set_inline(e, Property::Display, Value::Display(Display::Off));
    assert!(!visible(&style, e));
    style.set_inline(e, Property::Display, Value::Display(Display::Flex));
    assert!(visible(&style, e));
}

#[test]
fn only_pixel_lengths_are_converted() {
    let e = Entity(1);
    let mut style = Style::new();
    assert_eq!(length(&style, e, Property::Left), None);
    style.set_inline(e, Property::Left, Value::Length(Unit::Pixels, 12.5f32.to_bits()));
    style.set_inline(e, Property::ChildLeft, Value::Length(Unit::Percentage, 50.0f32.to_bits()));
    style.set_inline(e, Property::Width, Value::Length(Unit::Auto, 0));
    assert_eq!(length(&style, e, Property::Left), Some((Unit::Pixels, 12.5f32.to_bits())));
    assert_eq!(pixels(&style, e, Property::Left), Some(12.5f32.to_bits()));
    assert_eq!(pixels(&style, e, Property::ChildLeft), None);
    assert_eq!(length(&style, e, Property::ChildLeft), Some((Unit::Percentage, 50.0f32.to_bits())));
    assert_eq!(pixels(&style, e, Property::Width), None);
    let scale = 1.0f32;
    let physical = f32::from_bits(pixels(&style, e, Property::Left).unwrap()) * scale;
    assert_eq!(physical, 12.5);
    assert_eq!(f32::from_bits(pixels(&style, e, Property::Left).unwrap()) * 2.0, 25.0);
}

#[test]
fn background_is_read_from_the_style_store() {
    let e = Entity(1);
    let mut style = Style::new();
    assert_eq!(background(&style, e), None);
    style.set_inline(e, Property::BackgroundImage, Value::Other(3));
    assert_eq!(background(&style, e), Some(3));
    assert_eq!(background(&style, Entity(2)), None);
    style.set_inline(e, Property::BackgroundImage, Value::Flag(true));
    assert_eq!(background(&style, e), None);
}
