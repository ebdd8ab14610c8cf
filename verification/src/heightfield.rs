use vstd::prelude::*;

use crate::atlas::PlacementRect;
use crate::error::PodError;

verus! {

/// One tessellated terrain vertex. Positions are in fixed-point world
/// units of 1/256: the grid spacing is 1/8 (32 units) and a height byte
/// contributes byte/256 (one unit per step). Texture coordinates are texel
/// numerators: the fraction is `u / tex_width` and `v / tex_height` of the
/// owning mesh.
#[derive(Clone, Copy, Debug, PartialEq, Eq, Structural)]
pub struct MeshVertex {
    pub x: i64,
    pub y: i64,
    pub z: i64,
    pub u: i64,
    pub v: i64,
}

/// A tessellated heightfield: six vertices (two triangles) per interior
/// grid cell, in row-major quad order. Every triangle's normal is the
/// constant up vector by design, so none is stored.
pub struct TerrainMesh {
    pub vertices: Vec<MeshVertex>,
    pub tex_width: usize,
    pub tex_height: usize,
}

/// Horizontal world coordinate (1/256 units) of grid line `i`: the grid is
/// centered by half the side length.
pub open spec fn grid_coord(side: int, i: int) -> int {
    32 * i - 32 * (side / 2)
}

/// Grid row of corner `k` of the quad at (`r`,`c`): the corners come in
/// the fixed split order bottom-left, top-right, top-left, bottom-left,
/// bottom-right, top-right.
pub open spec fn quad_corner_row(r: int, k: int) -> int {
    if k == 1 || k == 2 || k == 5 {
        r - 1
    } else {
        r
    }
}

/// Grid column of corner `k` of the quad at (`r`,`c`).
pub open spec fn quad_corner_col(c: int, k: int) -> int {
    if k == 0 || k == 2 || k == 3 {
        c - 1
    } else {
        c
    }
}

pub open spec fn corner_is_top(k: int) -> bool {
    k == 1 || k == 2 || k == 5
}

pub open spec fn corner_is_left(k: int) -> bool {
    k == 0 || k == 2 || k == 3
}

/// Widest column extent of any placement: the atlas width the texture
/// coordinates are normalized against.
pub open spec fn max_extent_u(ps: Seq<PlacementRect>) -> int
    decreases ps.len(),
{
    if ps.len() == 0 {
        0
    } else {
        vstd::math::max((ps.last().x + ps.last().side) as int, max_extent_u(ps.drop_last()))
    }
}

/// Deepest row extent of any placement.
pub open spec fn max_extent_v(ps: Seq<PlacementRect>) -> int
    decreases ps.len(),
{
    if ps.len() == 0 {
        0
    } else {
        vstd::math::max((ps.last().y + ps.last().side) as int, max_extent_v(ps.drop_last()))
    }
}

/// Corner `k` of the quad at (`r`,`c`): position from the heightfield,
/// texture coordinates from the placement the index map selects for the
/// cell, with a one-texel inset on the far edges and the vertical axis
/// flipped to the atlas's top-left origin.
pub open spec fn quad_vertex(
    heights: Seq<u8>,
    index_map: Seq<u8>,
    placements: Seq<PlacementRect>,
    tex_h: int,
    side: int,
    r: int,
    c: int,
    k: int,
) -> MeshVertex {
    let rr = quad_corner_row(r, k);
    let cc = quad_corner_col(c, k);
    let rect = placements[index_map[(r - 1) * side + (c - 1)] as int];
    MeshVertex {
        x: grid_coord(side, cc) as i64,
        y: heights[rr * side + cc] as i64,
        z: grid_coord(side, rr) as i64,
        u: (if corner_is_left(k) {
            rect.x as int
        } else {
            rect.x + rect.side - 1
        }) as i64,
        v: (if corner_is_top(k) {
            tex_h - rect.y
        } else {
            tex_h - (rect.y + rect.side - 1)
        }) as i64,
    }
}

/// Index of the first vertex of the quad at (`r`,`c`).
pub open spec fn quad_base(side: int, r: int, c: int) -> int {
    6 * ((r - 1) * (side - 1) + (c - 1))
}

/// Quads are laid out in row-major order: an earlier quad's six vertices
/// end before a later quad's begin.
proof fn lemma_quad_base_mono(side: int, r1: int, c1: int, r2: int, c2: int)
    requires
        1 <= r1,
        1 <= c1 < side,
        1 <= r2,
        1 <= c2 < side,
        r1 < r2 || (r1 == r2 && c1 < c2),
    ensures
        0 <= quad_base(side, r1, c1),
        quad_base(side, r1, c1) + 6 <= quad_base(side, r2, c2),
{
    assert(0 <= 6 * ((r1 - 1) * (side - 1) + (c1 - 1)) && 6 * ((r1 - 1) * (side - 1) + (c1 - 1))
        + 6 <= 6 * ((r2 - 1) * (side - 1) + (c2 - 1))) by (nonlinear_arith)
        requires
            1 <= r1,
            1 <= c1 < side,
            1 <= r2,
            1 <= c2 < side,
            r1 < r2 || (r1 == r2 && c1 < c2),
    ;
}

impl TerrainMesh {
    /// Tessellates a square heightfield: for every interior cell, two
    /// triangles over the unit quad in the fixed split order, heights from
    /// the byte stream, texture coordinates from the placement that the
    /// parallel index map selects. Fails with NotSquare when the
    /// heightfield is not `side` squared bytes or the index map's length
    /// differs.
    pub fn build(
        heights: &[u8],
        side: usize,
        index_map: &[u8],
        placements: &Vec<PlacementRect>,
    ) -> (r: Result<TerrainMesh, PodError>)
        requires
            side <= 0xFFFF_FFFF,
            forall|i: int|
                0 <= i < index_map@.len() ==> (#[trigger] index_map@[i]) < placements@.len(),
            forall|i: int|
                0 <= i < placements@.len() ==> (#[trigger] placements@[i]).x + placements@[i].side
                    <= 0xFFFF_FFFF && placements@[i].y + placements@[i].side <= 0xFFFF_FFFF,
        ensures
            match r {
                Ok(m) => {
                    &&& side * side == heights@.len()
                    &&& index_map@.len() == heights@.len()
                    &&& m.tex_width == max_extent_u(placements@)
                    &&& m.tex_height == max_extent_v(placements@)
                    &&& m.vertices@.len() == (if side == 0 {
                        0int
                    } else {
                        6 * (side - 1) * (side - 1)
                    })
                    &&& forall|rr: int, cc: int, k: int|
                        1 <= rr < side && 1 <= cc < side && 0 <= k < 6
                            ==> #[trigger] m.vertices@[quad_base(side as int, rr, cc) + k]
                            == quad_vertex(
                            heights@,
                            index_map@,
                            placements@,
                            max_extent_v(placements@),
                            side as int,
                            rr,
                            cc,
                            k,
                        )
                },
                Err(e) => e == PodError::NotSquare && !(side * side == heights@.len()
                    && index_map@.len() == heights@.len()),
            },
    {
        let hlen = heights.len();
        if side > hlen || (side > 0 && side > hlen / side) {
            // side * side cannot equal the length
            proof {
                if side * side == heights@.len() {
                    assert(side <= heights@.len() || side == 0) by (nonlinear_arith)
                        requires
                            side * side == heights@.len(),
                    ;
                    assert((heights@.len() as int) / (side as int) == side as int) by (nonlinear_arith)
                        requires
                            side > 0,
                            side * side == heights@.len(),
                    ;
                }
            }
            return Err(PodError::NotSquare);
        }
        if (side == 0 && hlen != 0) || (side > 0 && (hlen / side != side || hlen % side != 0)) {
            proof {
                if side * side == heights@.len() {
                    if side > 0 {
                        assert((heights@.len() as int) / (side as int) == side as int
                            && (heights@.len() as int) % (side as int) == 0) by (nonlinear_arith)
                            requires
                                side > 0,
                                side * side == heights@.len(),
                        ;
                    }
                }
            }
            return Err(PodError::NotSquare);
        }
        proof {
            if side > 0 {
                assert(side * side == heights@.len()) by (nonlinear_arith)
                    requires
                        side > 0,
                        (heights@.len() as int) / (side as int) == side as int,
                        (heights@.len() as int) % (side as int) == 0,
                        heights@.len() == hlen as int,
                        side as int <= hlen as int,
                ;
            }
        }
        if index_map.len() != hlen {
            return Err(PodError::NotSquare);
        }
        // atlas extents the texture coordinates are normalized against
        let mut tex_w: usize = 0;
        let mut tex_h: usize = 0;
        let mut p: usize = 0;
        while p < placements.len()
            invariant
                p <= placements@.len(),
                forall|i: int|
                    0 <= i < placements@.len() ==> (#[trigger] placements@[i]).x
                        + placements@[i].side <= 0xFFFF_FFFF && placements@[i].y
                        + placements@[i].side <= 0xFFFF_FFFF,
                tex_w == max_extent_u(placements@.take(p as int)),
                tex_h == max_extent_v(placements@.take(p as int)),
                tex_w <= 0xFFFF_FFFF,
                tex_h <= 0xFFFF_FFFF,
            decreases placements@.len() - p,
        {
            let ext_u = placements[p].x + placements[p].side;
            let ext_v = placements[p].y + placements[p].side;
            if ext_u > tex_w {
                tex_w = ext_u;
            }
            if ext_v > tex_h {
                tex_h = ext_v;
            }
            proof {
                assert(placements@.take(p as int + 1).drop_last() =~= placements@.take(p as int));
                assert(placements@.take(p as int + 1).last() == placements@[p as int]);
            }
            p += 1;
        }
        proof {
            assert(placements@.take(placements@.len() as int) =~= placements@);
        }
        let mut vertices: Vec<MeshVertex> = Vec::new();
        let mut r: usize = 1;
        while r < side
            invariant
                1 <= r <= side || (side == 0 && r == 1),
                side <= 0xFFFF_FFFF,
                side * side == heights@.len(),
                index_map@.len() == heights@.len(),
                hlen == heights@.len(),
                forall|i: int|
                    0 <= i < index_map@.len() ==> (#[trigger] index_map@[i]) < placements@.len(),
                forall|i: int|
                    0 <= i < placements@.len() ==> (#[trigger] placements@[i]).x
                        + placements@[i].side <= 0xFFFF_FFFF && placements@[i].y
                        + placements@[i].side <= 0xFFFF_FFFF,
                tex_h == max_extent_v(placements@),
                tex_h <= 0xFFFF_FFFF,
                vertices@.len() == (if side == 0 {
                    0int
                } else {
                    quad_base(side as int, r as int, 1)
                }),
                forall|rr: int, cc: int, k: int|
                    1 <= rr < r && 1 <= cc < side && 0 <= k < 6 ==> #[trigger] vertices@[quad_base(
                        side as int,
                        rr,
                        cc,
                    ) + k] == quad_vertex(
                        heights@,
                        index_map@,
                        placements@,
                        tex_h as int,
                        side as int,
                        rr,
                        cc,
                        k,
                    ),
            decreases side - r,
        {
            let mut c: usize = 1;
            while c < side
                invariant
                    1 <= r < side,
                    1 <= c <= side,
                    side <= 0xFFFF_FFFF,
                    side * side == heights@.len(),
                    index_map@.len() == heights@.len(),
                    hlen == heights@.len(),
                    forall|i: int|
                        0 <= i < index_map@.len() ==> (#[trigger] index_map@[i])
                            < placements@.len(),
                    forall|i: int|
                        0 <= i < placements@.len() ==> (#[trigger] placements@[i]).x
                            + placements@[i].side <= 0xFFFF_FFFF && placements@[i].y
                            + placements@[i].side <= 0xFFFF_FFFF,
                    tex_h == max_extent_v(placements@),
                    tex_h <= 0xFFFF_FFFF,
                    vertices@.len() == quad_base(side as int, r as int, c as int),
                    forall|rr: int, cc: int, k: int|
                        1 <= rr < r && 1 <= cc < side && 0 <= k < 6 ==> #[trigger] vertices@[quad_base(
                            side as int,
                            rr,
                            cc,
                        ) + k] == quad_vertex(
                            heights@,
                            index_map@,
                            placements@,
                            tex_h as int,
                            side as int,
                            rr,
                            cc,
                            k,
                        ),
                    forall|cc: int, k: int|
                        1 <= cc < c && 0 <= k < 6 ==> #[trigger] vertices@[quad_base(
                            side as int,
                            r as int,
                            cc,
                        ) + k] == quad_vertex(
                            heights@,
                            index_map@,
                            placements@,
                            tex_h as int,
                            side as int,
                            r as int,
                            cc,
                            k,
                        ),
                decreases side - c,
            {
                proof {
                    assert((r as int) * (side as int) + c < (side as int) * (side as int))
                        by (nonlinear_arith)
                        requires
                            1 <= r < side,
                            1 <= c < side,
                    ;
                    assert((r as int - 1) * (side as int) + c <= (r as int) * (side as int))
                        by (nonlinear_arith)
                        requires
                            1 <= r,
                            0 <= c <= side,
                    ;
                }
                let ofs = ((side / 2) as i64) * 32;
                let x_l = (c as i64 - 1) * 32 - ofs;
                let x_r = (c as i64) * 32 - ofs;
                let z_t = (r as i64 - 1) * 32 - ofs;
                let z_b = (r as i64) * 32 - ofs;
                let y_tl = heights[(r - 1) * side + (c - 1)] as i64;
                let y_tr = heights[(r - 1) * side + c] as i64;
                let y_bl = heights[r * side + (c - 1)] as i64;
                let y_br = heights[r * side + c] as i64;
                let tex_id = index_map[(r - 1) * side + (c - 1)] as usize;
                let rect = placements[tex_id];
                let u_l = rect.x as i64;
                let u_r = rect.x as i64 + rect.side as i64 - 1;
                let v_t = tex_h as i64 - rect.y as i64;
                let v_b = tex_h as i64 - (rect.y as i64 + rect.side as i64 - 1);
                let ghost before = vertices@;
                vertices.push(MeshVertex { x: x_l, y: y_bl, z: z_b, u: u_l, v: v_b });
                vertices.push(MeshVertex { x: x_r, y: y_tr, z: z_t, u: u_r, v: v_t });
                vertices.push(MeshVertex { x: x_l, y: y_tl, z: z_t, u: u_l, v: v_t });
                vertices.push(MeshVertex { x: x_l, y: y_bl, z: z_b, u: u_l, v: v_b });
                vertices.push(MeshVertex { x: x_r, y: y_br, z: z_b, u: u_r, v: v_b });
                vertices.push(MeshVertex { x: x_r, y: y_tr, z: z_t, u: u_r, v: v_t });
                proof {
                    let base = quad_base(side as int, r as int, c as int);
                    assert(base == before.len());
                    assert forall|rr: int, cc: int, k: int|
                        1 <= rr < r && 1 <= cc < side && 0 <= k < 6 implies #[trigger] vertices@[quad_base(
                        side as int,
                        rr,
                        cc,
                    ) + k] == before[quad_base(side as int, rr, cc) + k] by {
                        lemma_quad_base_mono(side as int, rr, cc, r as int, c as int);
                    }
                    assert forall|cc: int, k: int|
                        1 <= cc < c && 0 <= k < 6 implies #[trigger] vertices@[quad_base(
                        side as int,
                        r as int,
                        cc,
                    ) + k] == before[quad_base(side as int, r as int, cc) + k] by {
                        lemma_quad_base_mono(side as int, r as int, cc, r as int, c as int);
                    }
                    assert forall|k: int| 0 <= k < 6 implies vertices@[base + k] == quad_vertex(
                        heights@,
                        index_map@,
                        placements@,
                        tex_h as int,
                        side as int,
                        r as int,
                        c as int,
                        k,
                    ) by {
                        let rr = quad_corner_row(r as int, k);
                        let cc = quad_corner_col(c as int, k);
                        assert(heights@[rr * side + cc] == (if rr == r {
                            if cc == c {
                                heights@[(r as int) * side + c]
                            } else {
                                heights@[(r as int) * side + (c - 1)]
                            }
                        } else {
                            if cc == c {
                                heights@[(r as int - 1) * side + c]
                            } else {
                                heights@[(r as int - 1) * side + (c - 1)]
                            }
                        }));
                    }
                }
                c += 1;
            }
            proof {
                assert(quad_base(side as int, r as int, side as int) == quad_base(
                    side as int,
                    r as int + 1,
                    1,
                )) by (nonlinear_arith)
                    requires
                        1 <= r < side,
                ;
            }
            r += 1;
        }
        proof {
            if side > 0 {
                assert(quad_base(side as int, side as int, 1) == 6 * (side as int - 1) * (side
                    as int - 1)) by (nonlinear_arith)
                    requires
                        side >= 1,
                ;
            }
        }
        Ok(TerrainMesh { vertices, tex_width: tex_w, tex_height: tex_h })
    }
}

/// Law: raising heightfield bytes never lowers mesh vertices, and touches
/// nothing but their heights — with the planar scale fixed, the vertical
/// coordinate is monotone in the input bytes.
pub proof fn lemma_height_monotone(
    h1: Seq<u8>,
    h2: Seq<u8>,
    index_map: Seq<u8>,
    placements: Seq<PlacementRect>,
    tex_h: int,
    side: int,
    r: int,
    c: int,
    k: int,
)
    requires
        1 <= r < side,
        1 <= c < side,
        0 <= k < 6,
        h1.len() == side * side,
        h2.len() == side * side,
        forall|i: int| 0 <= i < h1.len() ==> #[trigger] h1[i] <= h2[i],
    ensures
        quad_vertex(h1, index_map, placements, tex_h, side, r, c, k).y <= quad_vertex(
            h2,
            index_map,
            placements,
            tex_h,
            side,
            r,
            c,
            k,
        ).y,
        quad_vertex(h1, index_map, placements, tex_h, side, r, c, k).x == quad_vertex(
            h2,
            index_map,
            placements,
            tex_h,
            side,
            r,
            c,
            k,
        ).x,
        quad_vertex(h1, index_map, placements, tex_h, side, r, c, k).z == quad_vertex(
            h2,
            index_map,
            placements,
            tex_h,
            side,
            r,
            c,
            k,
        ).z,
        quad_vertex(h1, index_map, placements, tex_h, side, r, c, k).u == quad_vertex(
            h2,
            index_map,
            placements,
            tex_h,
            side,
            r,
            c,
            k,
        ).u,
        quad_vertex(h1, index_map, placements, tex_h, side, r, c, k).v == quad_vertex(
            h2,
            index_map,
            placements,
            tex_h,
            side,
            r,
            c,
            k,
        ).v,
{
    let rr = quad_corner_row(r, k);
    let cc = quad_corner_col(c, k);
    assert(0 <= rr * side + cc < side * side) by (nonlinear_arith)
        requires
            0 <= rr < side,
            0 <= cc < side,
    ;
    assert(h1[rr * side + cc] <= h2[rr * side + cc]);
}

} // verus!
