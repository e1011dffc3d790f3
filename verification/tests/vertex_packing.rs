use voxel_world::vertex::{Vertex, MAX_LIGHT_MODIFIER};

#[test]
fn pack_unpack_round_trip() {
    let coords = [0u32, 1, 5, 31, 32];
    let lights = [0u32, 1, 2, 3, 100, MAX_LIGHT_MODIFIER];
    for &x in &coords {
        for &y in &coords {
            for &z in &coords {
                for &l in &lights {
                    let v = Vertex::pack(x, y, z, l);
                    assert_eq!(v.unpack(), (x, y, z, l));
                }
            }
        }
    }
}

#[test]
fn pack_bit_layout() {
    assert_eq!(Vertex::pack(1, 0, 0, 0).data, 1);
    assert_eq!(Vertex::pack(0, 1, 0, 0).data, 1 << 6);
    assert_eq!(Vertex::pack(0, 0, 1, 0).data, 1 << 12);
    assert_eq!(Vertex::pack(0, 0, 0, 1).data, 1 << 18);
    assert_eq!(Vertex::pack(32, 32, 32, 3).data, 32 | 32 << 6 | 32 << 12 | 3 << 18);
}
