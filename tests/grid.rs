use terra::heightmap::{modulo, Heightmap};
use terra::priority::Priority;
use terra::shader::ShaderSource;
use terra::texture::TextureFormat;
use terra::uniforms::{append_dynamic_uniforms, append_generate_uniform};

#[test]
fn modulo_wraps_negatives() {
    assert_eq!(modulo(7, 5), 2);
    assert_eq!(modulo(-1, 5), 4);
    assert_eq!(modulo(-5, 5), 0);
    assert_eq!(modulo(-6, 5), 4);
    assert_eq!(modulo(i64::MIN, 10), 2);
}

#[test]
fn heightmap_lookup() {
    let h = Heightmap::new(vec![1, 2, 3, 4, 5, 6], 3, 2);
    assert_eq!(h.get(0, 0), Some(1));
    assert_eq!(h.get(2, 1), Some(6));
    assert_eq!(h.get(0, 2), None);
    assert_eq!(h.get_wrapping(-1, 0), 3);
    assert_eq!(h.get_wrapping(3, -1), 4);
    assert_eq!(h.get_wrapping(5, 3), 6);
}

#[test]
fn texture_format_blocks() {
    assert_eq!(TextureFormat::R8.bytes_per_block(), 1);
    assert_eq!(TextureFormat::RGBA16F.bytes_per_block(), 8);
    assert_eq!(TextureFormat::RGBA32F.bytes_per_block(), 16);
    assert_eq!(TextureFormat::BC4.bytes_per_block(), 8);
    assert_eq!(TextureFormat::BC5.block_size(), 4);
    assert_eq!(TextureFormat::SRGBA.block_size(), 1);
    assert!(TextureFormat::UASTC.is_compressed());
    assert!(!TextureFormat::RG32F.is_compressed());
}

#[test]
fn priority_order_follows_values() {
    let values = [-3.5f32, -1.0, -0.0, 0.0, 0.5, 1.0, 2.0, 1.0e9];
    for w in values.windows(2) {
        let a = Priority::from_bits(w[0].to_bits());
        let b = Priority::from_bits(w[1].to_bits());
        assert!(a.key <= b.key);
    }
    assert_eq!(Priority::from_bits((-0.0f32).to_bits()), Priority::from_bits(0.0f32.to_bits()));
    assert!(Priority::none().key < Priority::cutoff().key);
    assert_eq!(Priority::cutoff(), Priority::from_bits(1.0f32.to_bits()));
}

#[test]
fn shader_update_detection() {
    let inline = ShaderSource::Inline {
        name: "a".to_string(),
        contents: String::new(),
        headers: Vec::new(),
        defines: Vec::new(),
    };
    assert!(!inline.needs_update(0, &Vec::new()));
    let files = ShaderSource::Files {
        name: "b".to_string(),
        path: "b.comp".to_string(),
        header_paths: vec![("h".to_string(), "h.glsl".to_string())],
        defines: Vec::new(),
    };
    assert!(!files.needs_update(10, &vec![Some(5), None]));
    assert!(files.needs_update(10, &vec![Some(5), Some(11)]));
    assert!(!files.needs_update(10, &vec![Some(10), Some(10)]));
}

#[test]
fn generate_uniform_record() {
    let mut data = vec![9u8; 3];
    append_generate_uniform(&mut data, 0x0102_0304);
    assert_eq!(data.len(), 3 + 256);
    assert_eq!(&data[..3], &[9, 9, 9]);
    assert_eq!(&data[3..7], &0x0102_0304u32.to_ne_bytes());
    assert!(data[7..].iter().all(|&b| b == 0));
}

#[test]
fn dynamic_uniform_record() {
    let mut data = Vec::new();
    append_dynamic_uniforms(&mut data, &vec![7, 8]);
    assert_eq!(data.len(), 4096);
    assert_eq!(&data[..4], &7u32.to_ne_bytes());
    assert_eq!(&data[4..8], &8u32.to_ne_bytes());
    assert!(data[8..].iter().all(|&b| b == 0));
}

#[test]
fn grid_index_list() {
    let idx = terra::quadtree::grid_indices(2);
    assert_eq!(idx.len(), 24);
    assert_eq!(&idx[0..6], &[0, 1, 3, 1, 4, 3]);
    assert_eq!(&idx[6..12], &[1, 2, 4, 2, 5, 4]);
    assert_eq!(&idx[12..18], &[3, 4, 6, 4, 7, 6]);
    assert_eq!(&idx[18..24], &[4, 5, 7, 5, 8, 7]);
    assert!(terra::quadtree::grid_indices(0).is_empty());
    assert_eq!(*terra::quadtree::grid_indices(255).iter().max().unwrap(), 65535);
}

#[test]
fn mesh_uniform_record() {
    let r = terra::uniforms::mesh_generate_uniforms(37, 30, 16, 1000);
    assert_eq!(r.slot, 37);
    assert_eq!(r.storage_base_entry, 112);
    assert_eq!(r.mesh_base_entry, 1112);
    assert_eq!(r.entries_per_node, 16);
}
