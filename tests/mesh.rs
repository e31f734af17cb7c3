use eightfold::mesh::{
    AttributeComponent, AttributeType, AttributeUsage, DynAttrStore, DynamicAttributeError, Mode,
    Primitive,
};

#[test]
fn component_sizes() {
    assert_eq!(AttributeComponent::U8.size(), 1);
    assert_eq!(AttributeComponent::I16.size(), 2);
    assert_eq!(AttributeComponent::F32.size(), 4);
    assert_eq!(AttributeComponent::U32.alignment(), 4);
}

#[test]
fn type_sizes() {
    assert_eq!(AttributeType::Scalar.size_elements(), 1);
    assert_eq!(AttributeType::Mat3.size_elements(), 9);
    assert_eq!(AttributeType::Mat4.size_bytes(AttributeComponent::F32), 64);
    assert_eq!(AttributeType::Vec3.size_bytes(AttributeComponent::U16), 6);
    assert_eq!(AttributeType::Vec2.alignment(AttributeComponent::U16), 2);
}

#[test]
fn dyn_store_counts_elements() {
    let s = DynAttrStore::from_bytes(vec![0u8; 24], AttributeType::Vec3, AttributeComponent::F32)
        .ok()
        .unwrap();
    assert_eq!(s.len(), 2);
    assert!(!s.is_empty());
    assert_eq!(s.attr_type(), AttributeType::Vec3);
    assert_eq!(s.attr_component(), AttributeComponent::F32);
    let bad = DynAttrStore::from_bytes(vec![0u8; 5], AttributeType::Vec2, AttributeComponent::U16);
    assert!(matches!(bad, Err(DynamicAttributeError::Size)));
}

#[test]
fn primitive_attributes_by_usage() {
    let mut p: Primitive<u32, u8> = Primitive::new(Mode::Triangles, vec![0, 1, 2], 7);
    assert_eq!(p.mode(), Mode::Triangles);
    assert_eq!(p.indices(), &[0, 1, 2]);
    assert_eq!(*p.material(), 7);
    assert_eq!(p.insert_attr(AttributeUsage::Position, 10), None);
    assert_eq!(p.insert_attr(AttributeUsage::Texcoord(0), 11), None);
    assert_eq!(p.insert_attr(AttributeUsage::Position, 12), Some(10));
    assert_eq!(p.get_attr(&AttributeUsage::Position), Some(&12));
    assert_eq!(p.get_attr(&AttributeUsage::Texcoord(1)), None);
    assert_eq!(p.attributes().len(), 2);
    assert_eq!(p.iter_attr(&AttributeUsage::Normal), None);
}
