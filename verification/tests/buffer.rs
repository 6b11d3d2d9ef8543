use proto_ecs::rendering::buffer::{BufferElement, BufferLayout};
use proto_ecs::rendering::shader::{DataType, Precision, ShaderDataType};

fn element(name: &str, data_type: DataType) -> BufferElement {
    BufferElement::new(name.to_string(), ShaderDataType::new(Precision::P32, data_type), false)
}

#[test]
fn default_layout_is_empty_with_stride_zero() {
    let layout = BufferLayout::default();
    assert!(layout.get_buffer_elements().is_empty());
    assert_eq!(layout.get_stride(), 0);
}

#[test]
fn new_element_has_its_type_size_at_offset_zero() {
    let e = element("position", DataType::Float3);
    assert_eq!(e.get_offset(), 0);
    assert_eq!(e.get_size(), 12);
    assert_eq!(e.get_component_count(), 3);
    assert_eq!(e.get_name(), "position");
    assert!(!e.is_normalized());
}

#[test]
fn layout_places_elements_one_after_another() {
    let layout = BufferLayout::from_elements(vec![
        element("position", DataType::Float3),
        element("color", DataType::Float4),
        element("uv", DataType::Float2),
    ]);
    let offsets: Vec<u32> = layout.iter().map(|e| e.get_offset()).collect();
    assert_eq!(offsets, vec![0, 12, 28]);
    assert_eq!(layout.get_stride(), 36);
    let last = layout.get_buffer_elements().last().unwrap();
    assert_eq!(layout.get_stride(), last.get_offset() + last.get_data_type().get_size());
}

#[test]
fn cloned_layout_keeps_offsets_and_stride() {
    let layout = BufferLayout::from_elements(vec![
        element("a", DataType::Mat3),
        element("b", DataType::Int),
    ]);
    let copy = layout.clone();
    assert_eq!(copy.get_stride(), layout.get_stride());
    assert_eq!(copy.get_buffer_elements()[1].get_offset(), 36);
    assert_eq!(copy.get_buffer_elements()[1].get_name(), "b");
}

#[test]
fn element_can_be_changed_in_place() {
    let mut layout = BufferLayout::from_elements(vec![element("a", DataType::Float)]);
    let stride = layout.get_stride();
    let e = layout.get_element_mut(0);
    *e = element("b", DataType::Float);
    assert_eq!(layout.get_buffer_elements()[0].get_name(), "b");
    assert_eq!(layout.get_stride(), stride);
}
