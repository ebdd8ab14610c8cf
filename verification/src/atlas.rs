use vstd::prelude::*;

use crate::bytes::int_sqrt;
use crate::cstr::padded_field;
use crate::error::PodError;
use crate::pod_file::{dir_key, member_bytes, EntrySpec, FileHandle, PodArchive};
use crate::text::split_crlf;
use crate::text::split_crlf_vec;

verus! {

/// Where one source texture sits in the atlas: column and row offsets and
/// the side length, all in texels.
#[derive(Clone, Copy, Debug, PartialEq, Eq, Structural)]
pub struct PlacementRect {
    pub x: usize,
    pub y: usize,
    pub side: usize,
}

/// The two placements share no texel: they are separated along an axis.
pub open spec fn rects_disjoint(a: PlacementRect, b: PlacementRect) -> bool {
    a.x + a.side <= b.x || b.x + b.side <= a.x || a.y + a.side <= b.y || b.y + b.side <= a.y
}

/// Every pair of distinct placements with any area is disjoint.
pub open spec fn placements_disjoint(rs: Seq<PlacementRect>) -> bool {
    forall|i: int, j: int|
        0 <= i < j < rs.len() && (#[trigger] rs[i]).side > 0 && (#[trigger] rs[j]).side > 0
            ==> rects_disjoint(rs[i], rs[j])
}

/// Some slot of the index list holds `v`.
pub open spec fn appears(idxs: Seq<usize>, v: int) -> bool {
    exists|m: int| 0 <= m < idxs.len() && (#[trigger] idxs[m]) as int == v
}

/// Sorts the index list so that the sizes it points at descend.
fn sort_indices_desc(idxs: &mut Vec<usize>, sizes: &Vec<usize>)
    requires
        forall|t: int| 0 <= t < old(idxs)@.len() ==> (#[trigger] old(idxs)@[t]) < sizes@.len(),
    ensures
        final(idxs)@.len() == old(idxs)@.len(),
        forall|t: int| 0 <= t < final(idxs)@.len() ==> (#[trigger] final(idxs)@[t])
            < sizes@.len(),
        final(idxs)@.to_multiset() == old(idxs)@.to_multiset(),
        forall|a: int, b: int| 0 <= a < b < final(idxs)@.len() ==> sizes@[final(idxs)@[a] as int]
            >= sizes@[final(idxs)@[b] as int],
{
    let mut i: usize = if idxs.len() == 0 {
        0
    } else {
        1
    };
    while i < idxs.len()
        invariant
            i <= idxs@.len(),
            idxs@.len() == 0 ==> i == 0,
            idxs@.len() == old(idxs)@.len(),
            forall|t: int| 0 <= t < idxs@.len() ==> (#[trigger] idxs@[t]) < sizes@.len(),
            idxs@.to_multiset() == old(idxs)@.to_multiset(),
            forall|a: int, b: int| 0 <= a < b < i ==> sizes@[idxs@[a] as int]
                >= sizes@[idxs@[b] as int],
        decreases idxs@.len() - i,
    {
        let ghost before = idxs@;
        let e = idxs.remove(i);
        proof {
            assert(idxs@ =~= before.remove(i as int));
            vstd::seq_lib::to_multiset_remove(before, i as int);
            assert(idxs@.take(i as int) =~= before.take(i as int));
        }
        let key = sizes[e];
        // binary search for the insertion point in the sorted prefix:
        // first slot whose size is strictly below the key
        let mut l: usize = 0;
        let mut r: usize = i;
        while l < r
            invariant
                l <= r <= i,
                i < before.len(),
                idxs@.len() == before.len() - 1,
                idxs@ == before.remove(i as int),
                e == before[i as int],
                e < sizes@.len(),
                key == sizes@[e as int],
                forall|t: int| 0 <= t < idxs@.len() ==> (#[trigger] idxs@[t]) < sizes@.len(),
                forall|a: int, b: int| 0 <= a < b < i ==> sizes@[idxs@[a] as int]
                    >= sizes@[idxs@[b] as int],
                forall|m: int| 0 <= m < l ==> sizes@[(#[trigger] idxs@[m]) as int] >= key,
                forall|m: int| r <= m < i ==> sizes@[(#[trigger] idxs@[m]) as int] < key,
            decreases r - l,
        {
            let mid = l + (r - l) / 2;
            if sizes[idxs[mid]] < key {
                proof {
                    assert forall|m: int| mid <= m < i implies sizes@[(#[trigger] idxs@[m]) as int]
                        < key by {
                        if m > mid {
                            assert(sizes@[idxs@[mid as int] as int] >= sizes@[idxs@[m] as int]);
                        }
                    }
                }
                r = mid;
            } else {
                proof {
                    assert forall|m: int| 0 <= m <= mid implies sizes@[(#[trigger] idxs@[m]) as int]
                        >= key by {
                        if m < mid {
                            assert(sizes@[idxs@[m] as int] >= sizes@[idxs@[mid as int] as int]);
                        }
                    }
                }
                l = mid + 1;
            }
        }
        let ghost mid_state = idxs@;
        idxs.insert(l, e);
        proof {
            broadcast use vstd::multiset::group_multiset_axioms;

            let ins = mid_state.insert(l as int, e);
            mid_state.insert_ensures(l as int, e);
            assert(idxs@ =~= ins);
            vstd::seq_lib::to_multiset_insert(mid_state, l as int, e);
            vstd::seq_lib::to_multiset_contains(before, before[i as int]);
            assert(before.contains(before[i as int]));
            assert(idxs@.to_multiset() =~= before.to_multiset());
            let t0 = before.take(i as int);
            assert forall|a: int, b: int| 0 <= a < b < i + 1 implies sizes@[(
            #[trigger] ins[a]) as int] >= sizes@[(#[trigger] ins[b]) as int] by {
                assert(forall|m: int| 0 <= m < i ==> #[trigger] mid_state[m] == t0[m]);
                if a == l && b > l {
                    assert(ins[b] == mid_state[b - 1]);
                } else if b == l {
                    assert(ins[a] == mid_state[a]);
                } else if a != l && b != l {
                    let a0: int = if a < l {
                        a
                    } else {
                        a - 1
                    };
                    let b0: int = if b < l {
                        b
                    } else {
                        b - 1
                    };
                    assert(ins[a] == mid_state[a0]);
                    assert(ins[b] == mid_state[b0]);
                    assert(sizes@[t0[a0] as int] >= sizes@[t0[b0] as int]);
                }
            }
            assert forall|a: int, b: int| 0 <= a < b < i + 1 implies sizes@[(
            #[trigger] idxs@[a]) as int] >= sizes@[(#[trigger] idxs@[b]) as int] by {
                assert(idxs@[a] == ins[a]);
                assert(idxs@[b] == ins[b]);
            }
        }
        i += 1;
    }
}

/// Packs square sources onto shelves: sources are placed in descending
/// size order; a shelf is as tall as its first item, and a new shelf opens
/// under the previous one when the next source no longer fits. Returns the
/// placement of every source (in input order), the atlas width — the
/// largest source side — and the total packed height.
pub fn pack_rects(sizes: &Vec<usize>) -> (r: (Vec<PlacementRect>, usize, usize))
    requires
        sizes@.len() <= 0xFFFF,
        forall|i: int| 0 <= i < sizes@.len() ==> #[trigger] sizes@[i] <= 0xFFFF,
    ensures
        ({
            let (rects, width, height) = r;
            &&& rects@.len() == sizes@.len()
            &&& forall|i: int| 0 <= i < rects@.len() ==> (#[trigger] rects@[i]).side == sizes@[i]
            &&& forall|i: int|
                0 <= i < rects@.len() ==> (#[trigger] rects@[i]).x + rects@[i].side <= width
            &&& forall|i: int|
                0 <= i < rects@.len() ==> (#[trigger] rects@[i]).y + rects@[i].side <= height
            &&& placements_disjoint(rects@)
            &&& forall|i: int| 0 <= i < sizes@.len() ==> #[trigger] sizes@[i] <= width
            &&& (sizes@.len() == 0 ==> width == 0 && height == 0)
            &&& (sizes@.len() > 0 ==> exists|i: int|
                0 <= i < sizes@.len() && sizes@[i] == width)
            &&& width <= 0xFFFF
            &&& height <= 0xFFFF_FFFF
        }),
{
    let n = sizes.len();
    if n == 0 {
        return (Vec::new(), 0, 0);
    }
    // the atlas is as wide as the widest source
    let mut max_width: usize = 0;
    let ghost mut wit: int = 0;
    let mut i: usize = 0;
    while i < n
        invariant
            i <= n,
            n == sizes@.len(),
            forall|m: int| 0 <= m < n ==> #[trigger] sizes@[m] <= 0xFFFF,
            forall|m: int| 0 <= m < i ==> #[trigger] sizes@[m] <= max_width,
            i > 0 ==> 0 <= wit < n && sizes@[wit] == max_width,
            i == 0 ==> max_width == 0,
            max_width <= 0xFFFF,
        decreases n - i,
    {
        if sizes[i] > max_width || i == 0 {
            max_width = sizes[i];
            proof {
                wit = i as int;
            }
        }
        i += 1;
    }
    // process sources in descending size order
    let mut idxs: Vec<usize> = Vec::new();
    let mut t: usize = 0;
    while t < n
        invariant
            t <= n,
            n == sizes@.len(),
            idxs@.len() == t,
            forall|m: int| 0 <= m < t ==> #[trigger] idxs@[m] == m,
        decreases n - t,
    {
        idxs.push(t);
        t += 1;
    }
    let ghost ident = idxs@;
    sort_indices_desc(&mut idxs, sizes);
    proof {
        broadcast use vstd::seq_lib::group_to_multiset_ensures;

        assert forall|v: int| 0 <= v < n implies #[trigger] appears(idxs@, v) by {
            assert(ident[v] == v as usize);
            assert(ident.contains(v as usize));
            assert(ident.to_multiset().count(v as usize) > 0);
            assert(idxs@.to_multiset().count(v as usize) > 0);
            assert(idxs@.contains(v as usize));
            let m = choose|m: int| 0 <= m < idxs@.len() && idxs@[m] == v as usize;
            assert(idxs@[m] as int == v);
        }
    }
    // placeholders, overwritten in placement order
    let mut rects: Vec<PlacementRect> = Vec::new();
    let mut t2: usize = 0;
    while t2 < n
        invariant
            t2 <= n,
            rects@.len() == t2,
            forall|m: int| 0 <= m < t2 ==> (#[trigger] rects@[m]).side == 0,
        decreases n - t2,
    {
        rects.push(PlacementRect { x: 0, y: 0, side: 0 });
        t2 += 1;
    }
    let mut h: usize = 0;
    let mut x_space: usize = 0;
    let ghost mut shelf_top: int = 0;
    let ghost mut opener: int = 0;
    let mut t3: usize = 0;
    while t3 < n
        invariant
            t3 <= n,
            n == sizes@.len(),
            n <= 0xFFFF,
            forall|m: int| 0 <= m < n ==> #[trigger] sizes@[m] <= max_width,
            max_width <= 0xFFFF,
            idxs@.len() == n,
            rects@.len() == n,
            forall|m: int| 0 <= m < n ==> (#[trigger] idxs@[m]) < n,
            forall|a: int, b: int| 0 <= a < b < n ==> sizes@[idxs@[a] as int]
                >= sizes@[idxs@[b] as int],
            forall|v: int| 0 <= v < n ==> #[trigger] appears(idxs@, v),
            idxs@.to_multiset() == ident.to_multiset(),
            forall|m: int| 0 <= m < n ==> #[trigger] ident[m] == m,
            ident.len() == n,
            x_space <= max_width,
            t3 == 0 ==> x_space == 0 && h == 0 && opener == 0,
            h <= t3 * 0x10000,
            0 <= shelf_top <= h,
            h - shelf_top == opener,
            0 <= opener <= 0xFFFF,
            t3 > 0 ==> forall|m: int| t3 <= m < n ==> sizes@[(#[trigger] idxs@[m]) as int]
                <= opener,
            forall|m: int| 0 <= m < t3 ==> (#[trigger] rects@[idxs@[m] as int]).side == sizes@[
                idxs@[m] as int],
            forall|m: int| 0 <= m < t3 ==> (#[trigger] rects@[idxs@[m] as int]).x + rects@[idxs@[m] as int].side
                <= max_width,
            forall|m: int| 0 <= m < t3 ==> (#[trigger] rects@[idxs@[m] as int]).y + rects@[idxs@[m] as int].side
                <= h,
            forall|m: int| 0 <= m < t3 && (#[trigger] rects@[idxs@[m] as int]).side > 0 && rects@[
                idxs@[m] as int].y + rects@[idxs@[m] as int].side == h ==> rects@[idxs@[m] as int].x
                + rects@[idxs@[m] as int].side <= max_width - x_space,
            forall|m: int| 0 <= m < t3 && (#[trigger] rects@[idxs@[m] as int]).side > 0 && rects@[
                idxs@[m] as int].y + rects@[idxs@[m] as int].side < h ==> rects@[idxs@[m] as int].y
                + rects@[idxs@[m] as int].side <= shelf_top,
            forall|a: int, b: int| 0 <= a < t3 && 0 <= b < t3 && a != b && (#[trigger] rects@[
                idxs@[a] as int]).side > 0 && (#[trigger] rects@[idxs@[b] as int]).side > 0
                ==> rects_disjoint(rects@[idxs@[a] as int], rects@[idxs@[b] as int]),
        decreases n - t3,
    {
        let v = idxs[t3];
        let sv = sizes[v];
        let ghost old_h = h as int;
        let ghost old_space = x_space as int;
        if x_space < sv {
            // open a new shelf as tall as this source, under everything
            // placed so far
            x_space = max_width;
            h = h + sv;
            proof {
                shelf_top = old_h;
                opener = sv as int;
            }
        }
        let x = max_width - x_space;
        let y = h - sv;
        let nr = PlacementRect { x, y, side: sv };
        let ghost before = rects@;
        rects.remove(v);
        rects.insert(v, nr);
        proof {
            assert(rects@ =~= before.update(v as int, nr));
        }
        x_space = x_space - sv;
        proof {
            // this source was not placed before, so no earlier placement
            // is disturbed
            assert forall|m: int| 0 <= m < t3 implies idxs@[m] != idxs@[t3 as int] by {
                if idxs@[m] == idxs@[t3 as int] {
                    assert(ident.no_duplicates());
                    ident.lemma_multiset_has_no_duplicates();
                    idxs@.lemma_multiset_has_no_duplicates_conv();
                    assert(idxs@.no_duplicates());
                    assert(false);
                }
            }
        }
        t3 += 1;
    }
    proof {
        assert forall|i0: int| 0 <= i0 < n implies (#[trigger] rects@[i0]).side == sizes@[i0]
            && rects@[i0].x + rects@[i0].side <= max_width && rects@[i0].y + rects@[i0].side
            <= h by {
            assert(appears(idxs@, i0));
            let m = choose|m: int| 0 <= m < idxs@.len() && (#[trigger] idxs@[m]) as int == i0;
            assert(rects@[idxs@[m] as int].side == sizes@[idxs@[m] as int]);
        }
        assert forall|i0: int, j0: int|
            0 <= i0 < j0 < n && (#[trigger] rects@[i0]).side > 0 && (#[trigger] rects@[j0]).side
                > 0 implies rects_disjoint(rects@[i0], rects@[j0]) by {
            assert(appears(idxs@, i0));
            assert(appears(idxs@, j0));
            let a = choose|a: int| 0 <= a < idxs@.len() && (#[trigger] idxs@[a]) as int == i0;
            let b = choose|b: int| 0 <= b < idxs@.len() && (#[trigger] idxs@[b]) as int == j0;
            assert(rects_disjoint(rects@[idxs@[a] as int], rects@[idxs@[b] as int]));
        }
    }
    (rects, max_width, h)
}


/// RGBA value of channel `k` at texel (`row`,`col`) of a palette-expanded
/// square source: the palette's three bytes for the pixel's index, and
/// alpha 255.
pub open spec fn texel(pixels: Seq<u8>, palette: Seq<u8>, side: int, row: int, col: int, k: int) -> u8 {
    if k < 3 {
        palette[(pixels[row * side + col] as int) * 3 + k]
    } else {
        255
    }
}

proof fn lemma_atlas_index(width: int, height: int, row: int, col: int, k: int)
    by (nonlinear_arith)
    requires
        0 <= row < height,
        0 <= col < width,
        0 <= k < 4,
    ensures
        0 <= (row * width + col) * 4 + k < width * height * 4,
{
}

proof fn lemma_atlas_index_inj(
    width: int,
    r1: int,
    c1: int,
    k1: int,
    r2: int,
    c2: int,
    k2: int,
)
    by (nonlinear_arith)
    requires
        0 <= c1 < width,
        0 <= c2 < width,
        0 <= k1 < 4,
        0 <= k2 < 4,
        0 <= r1,
        0 <= r2,
        (r1 * width + c1) * 4 + k1 == (r2 * width + c2) * 4 + k2,
    ensures
        r1 == r2 && c1 == c2 && k1 == k2,
{
}

/// Writes one palette-expanded source into its placement rectangle of the
/// atlas pixel buffer; every byte outside the rectangle keeps its value.
pub fn expand_texture(
    atlas: &mut Vec<u8>,
    width: usize,
    height: usize,
    rect: &PlacementRect,
    pixels: &[u8],
    palette: &Vec<u8>,
)
    requires
        old(atlas)@.len() == width * height * 4,
        pixels@.len() == rect.side * rect.side,
        palette@.len() == 768,
        rect.x + rect.side <= width,
        rect.y + rect.side <= height,
        width <= 0xFFFF,
        height <= 0xFFFF_FFFF,
    ensures
        final(atlas)@.len() == old(atlas)@.len(),
        forall|row: int, col: int, k: int|
            0 <= row < height && 0 <= col < width && 0 <= k < 4 ==> #[trigger] final(atlas)@[(
            row * width + col) * 4 + k] == (if rect.y <= row < rect.y + rect.side && rect.x
                <= col < rect.x + rect.side {
                texel(pixels@, palette@, rect.side as int, row - rect.y, col - rect.x, k)
            } else {
                old(atlas)@[(row * width + col) * 4 + k]
            }),
{
    let side = rect.side;
    let plen = pixels.len();
    let alen = atlas.len();
    let mut r: usize = 0;
    while r < side
        invariant
            r <= side,
            side == rect.side,
            atlas@.len() == width * height * 4,
            alen == atlas@.len(),
            pixels@.len() == side * side,
            plen == pixels@.len(),
            palette@.len() == 768,
            rect.x + side <= width,
            rect.y + side <= height,
            width <= 0xFFFF,
            height <= 0xFFFF_FFFF,
            forall|row: int, col: int, k: int|
                0 <= row < height && 0 <= col < width && 0 <= k < 4 ==> #[trigger] atlas@[(row
                    * width + col) * 4 + k] == (if rect.y <= row < rect.y + r && rect.x <= col
                    < rect.x + side {
                    texel(pixels@, palette@, side as int, row - rect.y, col - rect.x, k)
                } else {
                    old(atlas)@[(row * width + col) * 4 + k]
                }),
        decreases side - r,
    {
        let mut c: usize = 0;
        while c < side
            invariant
                r < side,
                c <= side,
                side == rect.side,
                atlas@.len() == width * height * 4,
                alen == atlas@.len(),
                pixels@.len() == side * side,
                plen == pixels@.len(),
                palette@.len() == 768,
                rect.x + side <= width,
                rect.y + side <= height,
                width <= 0xFFFF,
                height <= 0xFFFF_FFFF,
                forall|row: int, col: int, k: int|
                    0 <= row < height && 0 <= col < width && 0 <= k < 4 ==> #[trigger] atlas@[(row
                        * width + col) * 4 + k] == (if (rect.y <= row < rect.y + r && rect.x <= col
                        < rect.x + side) || (row == rect.y + r && rect.x <= col < rect.x + c) {
                        texel(pixels@, palette@, side as int, row - rect.y, col - rect.x, k)
                    } else {
                        old(atlas)@[(row * width + col) * 4 + k]
                    }),
            decreases side - c,
        {
            proof {
                assert((r as int) * (side as int) + c < (side as int) * (side as int))
                    by (nonlinear_arith)
                    requires
                        0 <= r < side,
                        0 <= c < side,
                ;
                assert((r as int) * (side as int) + (c as int) < plen as int);
            }
            let b = pixels[r * side + c];
            let row0 = rect.y + r;
            let col0 = rect.x + c;
            proof {
                lemma_atlas_index(width as int, height as int, row0 as int, col0 as int, 0);
                lemma_atlas_index(width as int, height as int, row0 as int, col0 as int, 3);
                assert((row0 as int) * (width as int) + (col0 as int) < alen as int);
            }
            let base = (row0 * width + col0) * 4;
            let ghost prev = atlas@;
            atlas[base] = palette[(b as usize) * 3];
            atlas[base + 1] = palette[(b as usize) * 3 + 1];
            atlas[base + 2] = palette[(b as usize) * 3 + 2];
            atlas[base + 3] = 255;
            proof {
                assert forall|row: int, col: int, k: int|
                    0 <= row < height && 0 <= col < width && 0 <= k < 4 implies #[trigger] atlas@[(
                row * width + col) * 4 + k] == (if (rect.y <= row < rect.y + r && rect.x <= col
                    < rect.x + side) || (row == rect.y + r && rect.x <= col < rect.x + c + 1) {
                    texel(pixels@, palette@, side as int, row - rect.y, col - rect.x, k)
                } else {
                    old(atlas)@[(row * width + col) * 4 + k]
                }) by {
                    lemma_atlas_index(width as int, height as int, row, col, k);
                    if row == row0 && col == col0 {
                        assert((row * width + col) * 4 + k == base + k);
                        assert(texel(pixels@, palette@, side as int, row - rect.y, col - rect.x, k)
                            == (if k < 3 {
                            palette@[(pixels@[(r * side + c) as int] as int) * 3 + k]
                        } else {
                            255u8
                        }));
                    } else {
                        let idx = (row * width + col) * 4 + k;
                        if idx == base + 0 {
                            lemma_atlas_index_inj(
                                width as int,
                                row,
                                col,
                                k,
                                row0 as int,
                                col0 as int,
                                0,
                            );
                        }
                        if idx == base + 1 {
                            lemma_atlas_index_inj(
                                width as int,
                                row,
                                col,
                                k,
                                row0 as int,
                                col0 as int,
                                1,
                            );
                        }
                        if idx == base + 2 {
                            lemma_atlas_index_inj(
                                width as int,
                                row,
                                col,
                                k,
                                row0 as int,
                                col0 as int,
                                2,
                            );
                        }
                        if idx == base + 3 {
                            lemma_atlas_index_inj(
                                width as int,
                                row,
                                col,
                                k,
                                row0 as int,
                                col0 as int,
                                3,
                            );
                        }
                        assert(atlas@[idx] == prev[idx]);
                    }
                }
            }
            c += 1;
        }
        r += 1;
    }
}


/// The file names a manifest lists: one per CR LF line, the leading count
/// line skipped, a trailing blank line dropped.
pub open spec fn spec_manifest_names(text: Seq<u8>) -> Seq<Seq<u8>> {
    let ps = split_crlf(text);
    if ps.len() <= 1 {
        Seq::empty()
    } else {
        let body = ps.subrange(1, ps.len() as int);
        if body.last().len() == 0 {
            body.drop_last()
        } else {
            body
        }
    }
}

/// Splits a manifest into the texture file names it lists.
pub fn manifest_names(text: &[u8]) -> (r: Vec<Vec<u8>>)
    ensures
        r@.map_values(|v: Vec<u8>| v@) == spec_manifest_names(text@),
{
    let mut ps = split_crlf_vec(text);
    let ghost all = ps@.map_values(|v: Vec<u8>| v@);
    if ps.len() <= 1 {
        proof {
            assert(Seq::<Vec<u8>>::empty().map_values(|v: Vec<u8>| v@) =~= Seq::<Seq<u8>>::empty());
        }
        return Vec::new();
    }
    ps.remove(0);
    proof {
        assert(ps@.map_values(|v: Vec<u8>| v@) =~= all.subrange(1, all.len() as int));
    }
    let last_len = ps[ps.len() - 1].len();
    if last_len == 0 {
        let ghost with_last = ps@.map_values(|v: Vec<u8>| v@);
        ps.pop();
        proof {
            assert(ps@.map_values(|v: Vec<u8>| v@) =~= with_last.drop_last());
        }
    }
    ps
}

/// The override palette's name: the source name with its last three bytes
/// replaced by the ACT extension.
pub open spec fn act_name(name: Seq<u8>) -> Seq<u8> {
    name.take(name.len() - 3) + seq![65u8, 67u8, 84u8]
}

/// The palette that expands a source: the member named after the source
/// with the ACT extension when the archive has one (its bytes padded with
/// zeroes to 768), else the supplied default.
pub open spec fn is_palette_for(
    raw: Seq<u8>,
    es: Seq<EntrySpec>,
    tex_dir: Seq<u8>,
    name: Seq<u8>,
    default_pal: Seq<u8>,
    pal: Seq<u8>,
) -> bool {
    if name.len() >= 3 && (exists|ai: int|
        0 <= ai < es.len() && (#[trigger] es[ai]).name == dir_key(tex_dir, act_name(name))) {
        exists|ai: int|
            0 <= ai < es.len() && (#[trigger] es[ai]).name == dir_key(tex_dir, act_name(name))
                && pal == padded_field(member_bytes(raw, es[ai]), 0, 768)
    } else {
        pal == default_pal
    }
}

/// The atlas carries source `j`'s pixels inside its placement: some member
/// named after the source, square-sized, expanded through a palette that
/// `is_palette_for` allows.
pub open spec fn source_ok(
    raw: Seq<u8>,
    es: Seq<EntrySpec>,
    tex_dir: Seq<u8>,
    default_pal: Seq<u8>,
    name: Seq<u8>,
    rgba: Seq<u8>,
    width: int,
    rect: PlacementRect,
) -> bool {
    exists|ei: int|
        0 <= ei < es.len() && (#[trigger] es[ei]).name == dir_key(tex_dir, name) && rect.side
            * rect.side == es[ei].size && (exists|pal: Seq<u8>|
            is_palette_for(raw, es, tex_dir, name, default_pal, pal) && pal.len() == 768 && (
            forall|rr: int, cc: int, k: int|
                0 <= rr < rect.side && 0 <= cc < rect.side && 0 <= k < 4
                    ==> #[trigger] rgba[((rect.y + rr) * width + rect.x + cc) * 4 + k] == texel(
                    padded_field(member_bytes(raw, es[ei]), 0, es[ei].size as int),
                    pal,
                    rect.side as int,
                    rr,
                    cc,
                    k,
                )))
}

/// `n` is the square of some integer.
pub open spec fn is_perfect_square(n: int) -> bool {
    exists|s: int| 0 <= s && #[trigger] (s * s) == n
}

/// A packed texture atlas: the RGBA pixel buffer, its dimensions, and one
/// placement per manifest source, in manifest order.
pub struct Atlas {
    pub rgba: Vec<u8>,
    pub width: usize,
    pub height: usize,
    pub rects: Vec<PlacementRect>,
}

/// Reads the whole member and pads it with zeroes to `n` bytes, as a short
/// read into a zeroed buffer leaves it.
fn read_all_padded(fh: &mut FileHandle, n: usize) -> (r: Vec<u8>)
    requires
        old(fh).wf(),
        old(fh).cursor() == 0,
    ensures
        final(fh).wf(),
        r@ == padded_field(old(fh).contents(), 0, n as int),
        r@.len() == n,
{
    let mut buf = fh.read(n);
    proof {
        let field = padded_field(old(fh).contents(), 0, n as int);
        assert(buf@ =~= field.take(buf@.len() as int));
    }
    while buf.len() < n
        invariant
            buf@ == padded_field(old(fh).contents(), 0, n as int).take(buf@.len() as int),
            buf@.len() <= n,
            old(fh).contents().subrange(
                0,
                vstd::math::min(0 + n, old(fh).contents().len() as int),
            ).len() <= buf@.len(),
            padded_field(old(fh).contents(), 0, n as int).len() == n,
        decreases n - buf@.len(),
    {
        buf.push(0);
        proof {
            let field = padded_field(old(fh).contents(), 0, n as int);
            let got = old(fh).contents().subrange(
                0,
                vstd::math::min(0 + n, old(fh).contents().len() as int),
            );
            let j = buf@.len() - 1;
            assert(field[j] == Seq::new((n - got.len()) as nat, |i: int| 0u8)[j - got.len()]);
            assert(field[j] == 0);
            assert(buf@ =~= field.take(buf@.len() as int));
        }
    }
    proof {
        assert(buf@ =~= padded_field(old(fh).contents(), 0, n as int));
    }
    buf
}


/// Some directory entry carries this exact name.
pub open spec fn has_entry(es: Seq<EntrySpec>, name: Seq<u8>) -> bool {
    exists|i: int| 0 <= i < es.len() && (#[trigger] es[i]).name == name
}

/// Some member is named after the source, its declared size is the square
/// of `size`, and `pix` holds its bytes zero-padded to that size.
pub open spec fn source_loaded(
    raw: Seq<u8>,
    es: Seq<EntrySpec>,
    tex_dir: Seq<u8>,
    name: Seq<u8>,
    size: int,
    pix: Seq<u8>,
) -> bool {
    exists|ei: int|
        0 <= ei < es.len() && (#[trigger] es[ei]).name == dir_key(tex_dir, name) && size * size
            == es[ei].size && pix == padded_field(member_bytes(raw, es[ei]), 0, es[ei].size as int)
}

/// The atlas holds source `pix` expanded through `pal` inside `rect`.
spec fn placed(rgba: Seq<u8>, width: int, rect: PlacementRect, pix: Seq<u8>, pal: Seq<u8>) -> bool {
    forall|rr: int, cc: int, k: int|
        0 <= rr < rect.side && 0 <= cc < rect.side && 0 <= k < 4 ==> #[trigger] rgba[((rect.y + rr)
            * width + rect.x + cc) * 4 + k] == texel(pix, pal, rect.side as int, rr, cc, k)
}

impl Atlas {
    /// Loads every texture a manifest lists from the archive's `tex_dir`
    /// directory, packs the squares onto shelves, and expands each through
    /// its palette — the same-named ACT member when present, else the
    /// default — into one shared RGBA buffer. Fails with NotFound when a
    /// listed texture resolves to no member, NotSquare when a member's
    /// declared size is no perfect square, and TooLarge past the machine's
    /// packing limits.
    pub fn pack(
        archive: &PodArchive,
        manifest: &mut FileHandle,
        tex_dir: &[u8],
        default_palette: &Vec<u8>,
    ) -> (r: Result<Atlas, PodError>)
        requires
            archive.wf(),
            old(manifest).wf(),
            default_palette@.len() == 768,
        ensures
            final(manifest).wf(),
            ({
                let names = spec_manifest_names(old(manifest).remaining_bytes());
                let raw = archive.raw();
                let es = archive.entries();
                match r {
                    Ok(at) => {
                        &&& at.rects@.len() == names.len()
                        &&& at.rgba@.len() == at.width * at.height * 4
                        &&& placements_disjoint(at.rects@)
                        &&& forall|j: int|
                            0 <= j < names.len() ==> (#[trigger] at.rects@[j]).x
                                + at.rects@[j].side <= at.width
                        &&& forall|j: int|
                            0 <= j < names.len() ==> (#[trigger] at.rects@[j]).y
                                + at.rects@[j].side <= at.height
                        &&& (names.len() > 0 ==> exists|j: int|
                            0 <= j < names.len() && (#[trigger] at.rects@[j]).side == at.width)
                        &&& forall|j: int|
                            0 <= j < names.len() ==> source_ok(
                                raw,
                                es,
                                tex_dir@,
                                default_palette@,
                                names[j],
                                at.rgba@,
                                at.width as int,
                                #[trigger] at.rects@[j],
                            )
                    },
                    Err(e) => {
                        ||| (e == PodError::NotFound && exists|j: int|
                            0 <= j < names.len() && !has_entry(
                                es,
                                dir_key(tex_dir@, #[trigger] names[j]),
                            ))
                        ||| (e == PodError::NotSquare && exists|j: int, i: int|
                            0 <= j < names.len() && 0 <= i < es.len() && (#[trigger] es[i]).name
                                == dir_key(tex_dir@, #[trigger] names[j]) && !is_perfect_square(
                                es[i].size as int,
                            ))
                        ||| (e == PodError::TooLarge && (names.len() > 0xFFFF || (exists|j: int, i: int|
                            0 <= j < names.len() && 0 <= i < es.len() && (#[trigger] es[i]).name
                                == dir_key(tex_dir@, #[trigger] names[j]) && es[i].size
                                >= 0x1_0000_0000) || (usize::MAX as int)
                            < 0x10_0000_0000_0000))
                    },
                }
            }),
    {
        let ghost names = spec_manifest_names(old(manifest).remaining_bytes());
        let ghost raw = archive.raw();
        let ghost es = archive.entries();
        let rem = manifest.remaining();
        let text = manifest.read(rem);
        proof {
            assert(text@ =~= old(manifest).remaining_bytes());
        }
        let name_list = manifest_names(text.as_slice());
        proof {
            assert(name_list@.map_values(|v: Vec<u8>| v@) == names);
        }
        let n = name_list.len();
        if n > 0xFFFF {
            return Err(PodError::TooLarge);
        }
        let mut sizes: Vec<usize> = Vec::new();
        let mut pixmaps: Vec<Vec<u8>> = Vec::new();
        let mut pals: Vec<Vec<u8>> = Vec::new();
        let mut j: usize = 0;
        while j < n
            invariant
                j <= n,
                n == names.len(),
                n <= 0xFFFF,
                archive.wf(),
                raw == archive.raw(),
                es == archive.entries(),
                manifest.wf(),
                names == spec_manifest_names(old(manifest).remaining_bytes()),
                name_list@.map_values(|v: Vec<u8>| v@) == names,
                default_palette@.len() == 768,
                sizes@.len() == j,
                pixmaps@.len() == j,
                pals@.len() == j,
                forall|m: int| 0 <= m < j ==> #[trigger] sizes@[m] <= 0xFFFF,
                forall|m: int| 0 <= m < j ==> (#[trigger] pals@[m])@.len() == 768,
                forall|m: int|
                    0 <= m < j ==> is_palette_for(
                        raw,
                        es,
                        tex_dir@,
                        names[m],
                        default_palette@,
                        (#[trigger] pals@[m])@,
                    ),
                forall|m: int|
                    0 <= m < j ==> (#[trigger] pixmaps@[m])@.len() == sizes@[m] * sizes@[m],
                forall|m: int|
                    0 <= m < j ==> #[trigger] source_loaded(
                        raw,
                        es,
                        tex_dir@,
                        names[m],
                        sizes@[m] as int,
                        pixmaps@[m]@,
                    ),
            decreases n - j,
        {
            let nm_slice = name_list[j].as_slice();
            proof {
                assert(nm_slice@ == names[j as int]);
            }
            let mut tfh = match archive.open_dir_file(tex_dir, nm_slice) {
                Ok(fh) => fh,
                Err(_) => {
                    proof {
                        assert(!has_entry(es, dir_key(tex_dir@, names[j as int])));
                    }
                    return Err(PodError::NotFound);
                },
            };
            let ghost ei0 = choose|ei: int|
                0 <= ei < es.len() && (#[trigger] es[ei]).name == dir_key(tex_dir@, names[j as int])
                    && archive.fresh_handle(tfh, es[ei]);
            let declared = tfh.size();
            let side = int_sqrt(declared);
            if side > 0xFFFF {
                proof {
                    assert(es[ei0].size >= 0x1_0000_0000) by (nonlinear_arith)
                        requires
                            es[ei0].size == declared as int,
                            (side as int) * (side as int) <= declared as int,
                            side >= 0x10000,
                    ;
                }
                return Err(PodError::TooLarge);
            }
            if side * side != declared {
                proof {
                    if is_perfect_square(es[ei0].size as int) {
                        let s = choose|s: int| 0 <= s && #[trigger] (s * s) == es[ei0].size as int;
                        assert(s == side as int) by (nonlinear_arith)
                            requires
                                (side as int) * (side as int) <= declared as int,
                                (declared as int) < (side as int + 1) * (side as int + 1),
                                s * s == declared as int,
                                s >= 0,
                                side >= 0,
                                es[ei0].size == declared as int,
                        ;
                        assert(false);
                    }
                }
                return Err(PodError::NotSquare);
            }
            let pixels = read_all_padded(&mut tfh, declared);
            let nlen = name_list[j].len();
            let pal: Vec<u8>;
            if nlen >= 3 {
                let mut act: Vec<u8> = Vec::new();
                let mut q: usize = 0;
                while q < nlen - 3
                    invariant
                        nlen >= 3,
                        q <= nlen - 3,
                        j < name_list@.len(),
                        nlen == name_list@[j as int]@.len(),
                        act@ == name_list@[j as int]@.take(q as int),
                    decreases nlen - 3 - q,
                {
                    let ch = name_list[j][q];
                    act.push(ch);
                    proof {
                        assert(act@ =~= name_list@[j as int]@.take(q as int + 1));
                    }
                    q += 1;
                }
                act.push(65);
                act.push(67);
                act.push(84);
                proof {
                    assert(act@ =~= act_name(names[j as int]));
                }
                match archive.open_dir_file(tex_dir, act.as_slice()) {
                    Ok(pfh) => {
                        let mut pfh = pfh;
                        let ghost ai0 = choose|ai: int|
                            0 <= ai < es.len() && (#[trigger] es[ai]).name == dir_key(
                                tex_dir@,
                                act_name(names[j as int]),
                            ) && archive.fresh_handle(pfh, es[ai]);
                        pal = read_all_padded(&mut pfh, 768);
                        proof {
                            assert(is_palette_for(
                                raw,
                                es,
                                tex_dir@,
                                names[j as int],
                                default_palette@,
                                pal@,
                            ));
                        }
                    },
                    Err(_) => {
                        pal = vstd::slice::slice_to_vec(default_palette.as_slice());
                        proof {
                            assert(!(exists|ai: int|
                                0 <= ai < es.len() && (#[trigger] es[ai]).name == dir_key(
                                    tex_dir@,
                                    act_name(names[j as int]),
                                )));
                            assert(is_palette_for(
                                raw,
                                es,
                                tex_dir@,
                                names[j as int],
                                default_palette@,
                                pal@,
                            ));
                        }
                    },
                }
            } else {
                pal = vstd::slice::slice_to_vec(default_palette.as_slice());
                proof {
                    assert(is_palette_for(
                        raw,
                        es,
                        tex_dir@,
                        names[j as int],
                        default_palette@,
                        pal@,
                    ));
                }
            }
            sizes.push(side);
            pixmaps.push(pixels);
            pals.push(pal);
            proof {
                assert(sizes@[j as int] == side);
                assert(pixmaps@[j as int] == pixels);
                assert(pals@[j as int] == pal);
                assert(es[ei0].name == dir_key(tex_dir@, names[j as int]));
                assert((side as int) * (side as int) == es[ei0].size);
                assert(pixels@ == padded_field(member_bytes(raw, es[ei0]), 0, es[ei0].size as int));
                assert(source_loaded(raw, es, tex_dir@, names[j as int], side as int, pixels@));
            }
            j += 1;
        }
        let packed = pack_rects(&sizes);
        let rects = packed.0;
        let width = packed.1;
        let height = packed.2;
        proof {
            assert((width as int) * (height as int) * 4 < 0x10_0000_0000_0000)
                by (nonlinear_arith)
                requires
                    0 <= width <= 0xFFFF,
                    0 <= height <= 0xFFFF_FFFF,
            ;
        }
        let total64 = (width as u64) * (height as u64) * 4u64;
        if total64 > usize::MAX as u64 {
            proof {
                assert(total64 < 0x10_0000_0000_0000) by (nonlinear_arith)
                    requires
                        total64 == (width as int) * (height as int) * 4,
                        0 <= width <= 0xFFFF,
                        0 <= height <= 0xFFFF_FFFF,
                ;
            }
            return Err(PodError::TooLarge);
        }
        let total = total64 as usize;
        proof {
            assert(total == width * height * 4);
        }
        let mut rgba: Vec<u8> = Vec::new();
        let mut z: usize = 0;
        while z < total
            invariant
                z <= total,
                rgba@.len() == z,
            decreases total - z,
        {
            rgba.push(0);
            z += 1;
        }
        let mut j2: usize = 0;
        while j2 < n
            invariant
                j2 <= n,
                n == names.len(),
                n <= 0xFFFF,
                archive.wf(),
                raw == archive.raw(),
                es == archive.entries(),
                name_list@.map_values(|v: Vec<u8>| v@) == names,
                default_palette@.len() == 768,
                sizes@.len() == n,
                pixmaps@.len() == n,
                pals@.len() == n,
                rects@.len() == n,
                rgba@.len() == width * height * 4,
                width <= 0xFFFF,
                height <= 0xFFFF_FFFF,
                placements_disjoint(rects@),
                forall|m: int| 0 <= m < n ==> (#[trigger] rects@[m]).side == sizes@[m],
                forall|m: int| 0 <= m < n ==> (#[trigger] rects@[m]).x + rects@[m].side <= width,
                forall|m: int| 0 <= m < n ==> (#[trigger] rects@[m]).y + rects@[m].side <= height,
                forall|m: int| 0 <= m < j2 ==> #[trigger] placed(
                    rgba@,
                    width as int,
                    rects@[m],
                    pixmaps@[m]@,
                    pals@[m]@,
                ),
                forall|m: int| 0 <= m < n ==> (#[trigger] pals@[m])@.len() == 768,
                forall|m: int|
                    0 <= m < n ==> is_palette_for(
                        raw,
                        es,
                        tex_dir@,
                        names[m],
                        default_palette@,
                        (#[trigger] pals@[m])@,
                    ),
                forall|m: int|
                    0 <= m < n ==> (#[trigger] pixmaps@[m])@.len() == sizes@[m] * sizes@[m],
                forall|m: int|
                    0 <= m < n ==> #[trigger] source_loaded(
                        raw,
                        es,
                        tex_dir@,
                        names[m],
                        sizes@[m] as int,
                        pixmaps@[m]@,
                    ),
            decreases n - j2,
        {
            let ghost prev_rgba = rgba@;
            let rect_j = rects[j2];
            expand_texture(
                &mut rgba,
                width,
                height,
                &rect_j,
                pixmaps[j2].as_slice(),
                &pals[j2],
            );
            proof {
                assert forall|m: int| 0 <= m < j2 + 1 implies #[trigger] placed(
                    rgba@,
                    width as int,
                    rects@[m],
                    pixmaps@[m]@,
                    pals@[m]@,
                ) by {
                    let rm = rects@[m];
                    assert forall|rr: int, cc: int, k: int|
                        0 <= rr < rm.side && 0 <= cc < rm.side && 0 <= k < 4 implies #[trigger] rgba@[((rm.y
                        + rr) * (width as int) + rm.x + cc) * 4 + k] == texel(
                        pixmaps@[m]@,
                        pals@[m]@,
                        rm.side as int,
                        rr,
                        cc,
                        k,
                    ) by {
                        let row = rm.y + rr;
                        let col = rm.x + cc;
                        assert(0 <= row < height);
                        assert(0 <= col < width);
                        lemma_atlas_index(width as int, height as int, row, col, k);
                        if m == j2 {
                            assert(rgba@[(row * (width as int) + col) * 4 + k] == texel(
                                pixmaps@[m]@,
                                pals@[m]@,
                                rm.side as int,
                                row - rm.y,
                                col - rm.x,
                                k,
                            ));
                        } else {
                            // the two placements are disjoint, so this
                            // position was left untouched
                            if rect_j.side > 0 {
                                assert(rects_disjoint(rects@[m], rects@[j2 as int]));
                            }
                            assert(!(rect_j.y <= row < rect_j.y + rect_j.side && rect_j.x <= col
                                < rect_j.x + rect_j.side));
                            assert(rgba@[(row * (width as int) + col) * 4 + k] == prev_rgba[(row
                                * (width as int) + col) * 4 + k]);
                            assert(placed(prev_rgba, width as int, rm, pixmaps@[m]@, pals@[m]@));
                        }
                    }
                }
            }
            j2 += 1;
        }
        proof {
            if names.len() > 0 {
                let wi = choose|wi: int| 0 <= wi < sizes@.len() && sizes@[wi] == width;
                assert(rects@[wi].side == sizes@[wi]);
            }
            assert forall|jj: int| 0 <= jj < names.len() implies source_ok(
                raw,
                es,
                tex_dir@,
                default_palette@,
                names[jj],
                rgba@,
                width as int,
                #[trigger] rects@[jj],
            ) by {
                assert(source_loaded(raw, es, tex_dir@, names[jj], sizes@[jj] as int, pixmaps@[jj]@));
                let ei = choose|ei: int|
                    0 <= ei < es.len() && (#[trigger] es[ei]).name == dir_key(tex_dir@, names[jj])
                        && (sizes@[jj] as int) * (sizes@[jj] as int) == es[ei].size
                        && pixmaps@[jj]@ == padded_field(
                        member_bytes(raw, es[ei]),
                        0,
                        es[ei].size as int,
                    );
                assert(placed(rgba@, width as int, rects@[jj], pixmaps@[jj]@, pals@[jj]@));
                assert(exists|pal: Seq<u8>|
                    is_palette_for(raw, es, tex_dir@, names[jj], default_palette@, pal)
                        && pal.len() == 768 && (forall|rr: int, cc: int, k: int|
                        0 <= rr < rects@[jj].side && 0 <= cc < rects@[jj].side && 0 <= k < 4
                            ==> #[trigger] rgba@[((rects@[jj].y + rr) * (width as int)
                            + rects@[jj].x + cc) * 4 + k] == texel(
                            padded_field(member_bytes(raw, es[ei]), 0, es[ei].size as int),
                            pal,
                            rects@[jj].side as int,
                            rr,
                            cc,
                            k,
                        ))) by {
                    let w = pals@[jj]@;
                    assert(is_palette_for(raw, es, tex_dir@, names[jj], default_palette@, w));
                    assert(w.len() == 768);
                    let rect = rects@[jj];
                    assert forall|rr: int, cc: int, k: int|
                        0 <= rr < rect.side && 0 <= cc < rect.side && 0 <= k < 4
                            implies #[trigger] rgba@[((rect.y + rr) * (width as int) + rect.x + cc)
                            * 4 + k] == texel(
                            padded_field(member_bytes(raw, es[ei]), 0, es[ei].size as int),
                            w,
                            rect.side as int,
                            rr,
                            cc,
                            k,
                        ) by {
                        lemma_atlas_index(
                            width as int,
                            height as int,
                            rect.y + rr,
                            rect.x + cc,
                            k,
                        );
                        assert(rgba@[((rect.y + rr) * (width as int) + rect.x + cc) * 4 + k]
                            == texel(pixmaps@[jj]@, w, rect.side as int, rr, cc, k));
                    }
                }
            }
        }
        Ok(Atlas { rgba, width, height, rects })
    }
}

} // verus!
