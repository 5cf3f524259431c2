#![allow(non_snake_case)]

use ski_paths::asset_manager::AssetManager;
use ski_paths::bindable::Bindable;
use ski_paths::circular_buffer::CircularBuffer;
use ski_paths::shader_meta::{get_vec, ItemDesc, UniformDataType};

#[test]
fn manage() {
    let mut manager = AssetManager::default();
    assert_eq!(manager.contains("zero"), false);
    assert_eq!(manager.get_or_create("zero", 0), &0);
    assert_eq!(manager.get_or_create("zero", 1), &0);
    assert_eq!(manager.get("zero"), Some(&0));
    assert_eq!(manager.get("one"), None);
    assert_eq!(manager.contains("zero"), true);
    assert_eq!(manager.get_or_create("one", 1), &1);
    assert_eq!(manager.overwrite("zero", 1), &1);
    assert_eq!(manager.overwrite("zero", 0), &0);
    assert_eq!(manager.overwrite("three", 3), &3);
}

#[test]
fn asset_manager_manage() {
    let mut manager = AssetManager::default();
    assert_eq!(manager.get_or_create("zero", 0), &0);
    assert_eq!(manager.get_or_create("zero", 1), &0);
    assert_eq!(manager.get_or_create("one", 1), &1);
}

#[test]
fn basic_insert_and_bind() {
    let mut b = Bindable::default();
    b.insert("foo", 0u32);
    assert_eq!(b.index("foo"), &0u32);
}

#[test]
fn bind_and_get() {
    let mut b = Bindable::default();
    b.insert("foo", 1u32);
    b.insert("bar", 2u32);
    b.bind("bar");
    assert_eq!(b.get_bind(), &2u32);
    b.bind("foo");
    assert_eq!(b.get_bind(), &1u32);
    b.insert("foo", 7u32);
    assert_eq!(b.get_bind(), &7u32);
}

#[test]
fn CircularBuffer() {
    let mut buff = CircularBuffer::new(vec![0usize, 1usize, 2usize]);
    for i in 0..3 {
        assert_eq!(buff.get_mut(), &i);
        buff.next();
    }
}

#[test]
fn circular_buffer_wraps_and_drains() {
    let mut buff = CircularBuffer::new(vec![10usize, 20usize]);
    buff.next();
    buff.next();
    assert_eq!(buff.get_mut(), &10usize);
    *buff.get_mut() = 11;
    assert_eq!(buff.iter().as_slice(), &[11usize, 20usize]);
    assert_eq!(buff.drain(), vec![11usize, 20usize]);
}

#[test]
fn uniform_sizes() {
    assert_eq!(UniformDataType::Vec3.size(), 12);
    assert_eq!(UniformDataType::Vec4.size(), 16);
    assert_eq!(UniformDataType::Mat3.size(), 36);
    assert_eq!(UniformDataType::Mat4.size(), 64);
}

#[test]
fn default_model_layout() {
    let items = ItemDesc::default_model();
    assert_eq!(items.len(), 3);
    assert_eq!(items[0].name, "position");
    assert_eq!(items[0].number_components, 3);
    assert_eq!(items[0].size_component, 4);
    assert_eq!(items[1].name, "uv");
    assert_eq!(items[1].number_components, 2);
    assert_eq!(items[2].name, "normal");
    assert_eq!(items[2].number_components, 3);
}

#[test]
fn get_vec_little_endian() {
    let data = [1u8, 0, 0, 0, 0x78, 0x56, 0x34, 0x12];
    let v = get_vec(&data);
    assert_eq!(v, vec![1u32, 0x12345678u32]);
    assert_eq!(get_vec(&[]), Vec::<u32>::new());
}
