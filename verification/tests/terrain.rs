use pod_assets::atlas::PlacementRect;
use pod_assets::error::PodError;
use pod_assets::heightfield::TerrainMesh;


fn expect_err<T>(r: Result<T, PodError>) -> PodError {
    match r {
        Ok(_) => panic!("expected an error"),
        Err(e) => e,
    }
}

#[test]
fn three_by_three_grid_makes_eight_triangles() {
    let heights: Vec<u8> = vec![0, 1, 2, 3, 4, 5, 6, 7, 8];
    let index_map: Vec<u8> = vec![0; 9];
    let placements = vec![PlacementRect { x: 0, y: 0, side: 2 }];
    let m = TerrainMesh::build(&heights, 3, &index_map, &placements).unwrap();
    // 2 * (3-1) * (3-1) = 8 triangles, three vertices each
    assert_eq!(m.vertices.len(), 24);
    assert_eq!(m.tex_width, 2);
    assert_eq!(m.tex_height, 2);
}

#[test]
fn quad_corners_carry_heights_and_centered_positions() {
    let heights: Vec<u8> = vec![10, 20, 30, 40, 50, 60, 70, 80, 90];
    let index_map: Vec<u8> = vec![0; 9];
    let placements = vec![PlacementRect { x: 0, y: 0, side: 2 }];
    let m = TerrainMesh::build(&heights, 3, &index_map, &placements).unwrap();
    // first quad (row 1, col 1), first vertex: the bottom-left corner,
    // grid cell (1,0): x = 0*32 - 32, z = 1*32 - 32, y = heights[3]
    let bl = m.vertices[0];
    assert_eq!((bl.x, bl.y, bl.z), (-32, 40, 0));
    // second vertex: top-right corner, cell (0,1)
    let tr = m.vertices[1];
    assert_eq!((tr.x, tr.y, tr.z), (0, 20, -32));
    // third vertex: top-left corner, cell (0,0)
    let tl = m.vertices[2];
    assert_eq!((tl.x, tl.y, tl.z), (-32, 10, -32));
    // triangle two: bottom-left, bottom-right, top-right
    let bl2 = m.vertices[3];
    let br = m.vertices[4];
    let tr2 = m.vertices[5];
    assert_eq!((bl2.x, bl2.y, bl2.z), (-32, 40, 0));
    assert_eq!((br.x, br.y, br.z), (0, 50, 0));
    assert_eq!((tr2.x, tr2.y, tr2.z), (0, 20, -32));
}

#[test]
fn texture_coordinates_come_from_the_selected_placement() {
    let heights: Vec<u8> = vec![0; 9];
    // the top-left cell of each quad selects the placement
    let index_map: Vec<u8> = vec![1, 0, 0, 0, 0, 0, 0, 0, 0];
    let placements = vec![
        PlacementRect { x: 0, y: 0, side: 4 },
        PlacementRect { x: 0, y: 4, side: 4 },
    ];
    let m = TerrainMesh::build(&heights, 3, &index_map, &placements).unwrap();
    assert_eq!(m.tex_width, 4);
    assert_eq!(m.tex_height, 8);
    // quad (1,1) uses placement 1 (x 0, y 4, side 4):
    // left u = 0, right u = 3, top v = 8 - 4 = 4, bottom v = 8 - 7 = 1
    let bl = m.vertices[0];
    assert_eq!((bl.u, bl.v), (0, 1));
    let tr = m.vertices[1];
    assert_eq!((tr.u, tr.v), (3, 4));
    let tl = m.vertices[2];
    assert_eq!((tl.u, tl.v), (0, 4));
    // quad (1,2) uses placement 0: top v = 8, bottom v = 5
    let bl2 = m.vertices[6];
    assert_eq!((bl2.u, bl2.v), (0, 5));
}

#[test]
fn higher_bytes_never_lower_the_mesh() {
    let h1: Vec<u8> = vec![0, 1, 2, 3, 4, 5, 6, 7, 8];
    let h2: Vec<u8> = vec![10, 11, 12, 13, 14, 15, 16, 17, 18];
    let index_map: Vec<u8> = vec![0; 9];
    let placements = vec![PlacementRect { x: 0, y: 0, side: 2 }];
    let m1 = TerrainMesh::build(&h1, 3, &index_map, &placements).unwrap();
    let m2 = TerrainMesh::build(&h2, 3, &index_map, &placements).unwrap();
    assert_eq!(m1.vertices.len(), m2.vertices.len());
    for (a, b) in m1.vertices.iter().zip(m2.vertices.iter()) {
        assert!(a.y <= b.y);
        assert_eq!(a.x, b.x);
        assert_eq!(a.z, b.z);
        assert_eq!(a.u, b.u);
        assert_eq!(a.v, b.v);
    }
}

#[test]
fn non_square_streams_are_rejected() {
    let heights: Vec<u8> = vec![0; 8];
    let index_map: Vec<u8> = vec![0; 8];
    let placements = vec![PlacementRect { x: 0, y: 0, side: 2 }];
    assert_eq!(
        expect_err(TerrainMesh::build(&heights, 3, &index_map, &placements)),
        PodError::NotSquare
    );
    // index map of the wrong length
    let heights9: Vec<u8> = vec![0; 9];
    let short_map: Vec<u8> = vec![0; 4];
    assert_eq!(
        expect_err(TerrainMesh::build(&heights9, 3, &short_map, &placements)),
        PodError::NotSquare
    );
}
