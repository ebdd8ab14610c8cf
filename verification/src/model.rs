use vstd::prelude::*;

use crate::bytes::{le32, le32_signed, lemma_skip_subrange};
use crate::error::PodError;
use crate::pod_file::FileHandle;

verus! {

/// Unsigned little-endian 32-bit value at offset `i` of the stream.
pub open spec fn u32at(s: Seq<u8>, i: int) -> nat {
    le32(s.subrange(i, i + 4))
}

/// Signed little-endian 32-bit value at offset `i` of the stream.
pub open spec fn i32at(s: Seq<u8>, i: int) -> int {
    le32_signed(s.subrange(i, i + 4))
}

/// A raw fixed-point integer triple, as stored in the model stream.
#[derive(Clone, Copy, Debug, PartialEq, Eq, Structural)]
pub struct Fixed3 {
    pub x: i32,
    pub y: i32,
    pub z: i32,
}

/// One triangle: three indices into the owning model's vertex list, and
/// the face normal as raw signed components with denominator 65535.
#[derive(Clone, Copy, Debug, PartialEq, Eq, Structural)]
pub struct Face {
    pub v0: u32,
    pub v1: u32,
    pub v2: u32,
    pub normal: Fixed3,
}

/// A decoded model. A vertex's world coordinate is
/// `raw * scale / 2^23` — the multiply-by-scale convention, fixed here as
/// the documented contract; the division is left to the caller since the
/// decoder keeps everything in integers.
pub struct Model {
    pub scale: u32,
    pub vertices: Vec<Fixed3>,
    pub faces: Vec<Face>,
}

/// What the ghost model carries: the stored scale, the raw vertices, and
/// the triangles of the tagged face blocks.
pub ghost struct ModelSpec {
    pub scale: nat,
    pub vertices: Seq<Fixed3>,
    pub faces: Seq<Face>,
}

/// Vertex table of the stream: `n` raw signed triples starting at byte 20.
pub open spec fn spec_vertices(s: Seq<u8>, n: int) -> Seq<Fixed3> {
    Seq::new(
        n as nat,
        |k: int|
            Fixed3 {
                x: i32at(s, 20 + 12 * k) as i32,
                y: i32at(s, 20 + 12 * k + 4) as i32,
                z: i32at(s, 20 + 12 * k + 8) as i32,
            },
    )
}

/// The face a block stores: indices at 24, 36, 48 bytes past the tag, the
/// normal at 8.
pub open spec fn spec_face(s: Seq<u8>, i: int) -> Face {
    Face {
        v0: u32at(s, i + 24) as u32,
        v1: u32at(s, i + 36) as u32,
        v2: u32at(s, i + 48) as u32,
        normal: Fixed3 {
            x: i32at(s, i + 8) as i32,
            y: i32at(s, i + 12) as i32,
            z: i32at(s, i + 16) as i32,
        },
    }
}

/// The second triangle of a quad block: third, fourth, first — the fixed
/// diagonal-split convention of this decoder.
pub open spec fn spec_face_second(s: Seq<u8>, i: int) -> Face {
    Face {
        v0: u32at(s, i + 48) as u32,
        v1: u32at(s, i + 60) as u32,
        v2: u32at(s, i + 24) as u32,
        normal: Fixed3 {
            x: i32at(s, i + 8) as i32,
            y: i32at(s, i + 12) as i32,
            z: i32at(s, i + 16) as i32,
        },
    }
}

/// The tagged block stream from offset `i` to the end: a trailing fragment
/// shorter than one tag ends the stream; tag 0x00 is a no-op; 0x0D names
/// the active texture (consumed, not kept); 0x17 is reserved; 0x0E and
/// 0x18 carry a face of three or four vertices; any other tag is a format
/// error.
pub open spec fn spec_blocks(s: Seq<u8>, i: int) -> Result<Seq<Face>, PodError>
    decreases s.len() - i,
{
    if i < 0 || i > s.len() {
        Err(PodError::Truncated)
    } else if s.len() - i < 4 {
        Ok(Seq::empty())
    } else {
        let tag = u32at(s, i);
        if tag == 0x00 {
            spec_blocks(s, i + 4)
        } else if tag == 0x0D {
            if s.len() - i < 24 {
                Err(PodError::Truncated)
            } else {
                spec_blocks(s, i + 24)
            }
        } else if tag == 0x17 {
            if s.len() - i < 12 {
                Err(PodError::Truncated)
            } else {
                spec_blocks(s, i + 12)
            }
        } else if tag == 0x0E || tag == 0x18 {
            if s.len() - i < 24 {
                Err(PodError::Truncated)
            } else {
                let nv = u32at(s, i + 4);
                if nv != 3 && nv != 4 {
                    Err(PodError::UnknownBlock)
                } else if s.len() - i < 24 + nv * 12 {
                    Err(PodError::Truncated)
                } else if nv == 3 {
                    match spec_blocks(s, i + 60) {
                        Ok(rest) => Ok(seq![spec_face(s, i)] + rest),
                        Err(e) => Err(e),
                    }
                } else {
                    match spec_blocks(s, i + 72) {
                        Ok(rest) => Ok(seq![spec_face(s, i), spec_face_second(s, i)] + rest),
                        Err(e) => Err(e),
                    }
                }
            }
        } else {
            Err(PodError::UnknownBlock)
        }
    }
}

/// The whole model stream: magic 0x14, scale, two reserved words, the
/// vertex count and table, then the tagged block stream to exhaustion.
pub open spec fn spec_model(s: Seq<u8>) -> Result<ModelSpec, PodError> {
    if s.len() < 4 {
        Err(PodError::Truncated)
    } else if u32at(s, 0) != 0x14 {
        Err(PodError::BadMagic)
    } else if s.len() < 20 {
        Err(PodError::Truncated)
    } else {
        let nvert = u32at(s, 16);
        if s.len() < 20 + nvert * 12 {
            Err(PodError::Truncated)
        } else {
            match spec_blocks(s, 20 + nvert * 12 as int) {
                Ok(faces) => Ok(
                    ModelSpec {
                        scale: u32at(s, 4),
                        vertices: spec_vertices(s, nvert as int),
                        faces,
                    },
                ),
                Err(e) => Err(e),
            }
        }
    }
}

impl Model {
    /// Decodes one binary model from the handle's current position to the
    /// end of the member, exactly as `spec_model` reads the remaining
    /// bytes.
    #[verifier::rlimit(100)]
    pub fn from_bin_file(file: &mut FileHandle) -> (r: Result<Model, PodError>)
        requires
            old(file).wf(),
        ensures
            final(file).wf(),
            final(file).contents() == old(file).contents(),
            match (r, spec_model(old(file).remaining_bytes())) {
                (Ok(m), Ok(sm)) => m.scale == sm.scale && m.vertices@ == sm.vertices && m.faces@
                    == sm.faces,
                (Err(e), Err(se)) => e == se,
                _ => false,
            },
    {
        let ghost s = old(file).remaining_bytes();
        let ghost c0 = old(file).cursor();
        proof {
            assert(s.len() == old(file).contents().len() - c0);
            assert(s == old(file).contents().skip(c0));
        }
        let magic = match file.read_u32_le() {
            Ok(v) => v,
            Err(e) => {
                return Err(e);
            },
        };
        proof {
            lemma_skip_subrange(old(file).contents(), c0, 0, 4);
        }
        if magic != 0x14 {
            return Err(PodError::BadMagic);
        }
        let scale = match file.read_u32_le() {
            Ok(v) => v,
            Err(e) => {
                return Err(e);
            },
        };
        proof {
            lemma_skip_subrange(old(file).contents(), c0, 4, 8);
        }
        if let Err(e) = file.skip_bytes(8) {
            return Err(e);
        }
        let nvert_u32 = match file.read_u32_le() {
            Ok(v) => v,
            Err(e) => {
                return Err(e);
            },
        };
        proof {
            lemma_skip_subrange(old(file).contents(), c0, 16, 20);
            assert(s.len() >= 20);
        }
        let nvert = nvert_u32 as usize;
        let mut vertices: Vec<Fixed3> = Vec::new();
        let mut k: usize = 0;
        while k < nvert
            invariant
                k <= nvert,
                nvert == u32at(s, 16),
                file.wf(),
                file.contents() == old(file).contents(),
                file.declared_size() == old(file).declared_size(),
                file.cursor() == c0 + 20 + 12 * k,
                s == old(file).remaining_bytes(),
                s.len() == old(file).contents().len() - c0,
                c0 == old(file).cursor(),
                0 <= c0,
                s.len() >= 20,
                u32at(s, 0) == 0x14,
                vertices@.len() == k,
                forall|m: int| 0 <= m < k ==> vertices@[m] == #[trigger] spec_vertices(s, k as int)[m],
            decreases nvert - k,
        {
            let x = match file.read_i32_le() {
                Ok(v) => v,
                Err(e) => {
                    proof {
                        assert(s.len() < c0 + 20 + 12 * k + 4 - c0);
                        assert(s.len() < 20 + u32at(s, 16) * 12);
                    }
                    return Err(e);
                },
            };
            let y = match file.read_i32_le() {
                Ok(v) => v,
                Err(e) => {
                    proof {
                        assert(s.len() < 20 + u32at(s, 16) * 12);
                    }
                    return Err(e);
                },
            };
            let z = match file.read_i32_le() {
                Ok(v) => v,
                Err(e) => {
                    proof {
                        assert(s.len() < 20 + u32at(s, 16) * 12);
                    }
                    return Err(e);
                },
            };
            proof {
                let rel = 20 + 12 * (k as int);
                lemma_skip_subrange(old(file).contents(), c0, rel, rel + 4);
                lemma_skip_subrange(old(file).contents(), c0, rel + 4, rel + 8);
                lemma_skip_subrange(old(file).contents(), c0, rel + 8, rel + 12);
            }
            vertices.push(Fixed3 { x, y, z });
            proof {
                let rel = 20 + 12 * (k as int);
                assert forall|m: int| 0 <= m < k + 1 implies vertices@[m] == #[trigger] spec_vertices(
                    s,
                    k as int + 1,
                )[m] by {
                    if m < k {
                        assert(vertices@[m] == spec_vertices(s, k as int)[m]);
                        assert(spec_vertices(s, k as int)[m] == spec_vertices(s, k as int + 1)[m]);
                    } else {
                        assert(vertices@[m] == Fixed3 { x, y, z });
                        assert(x as int == i32at(s, rel));
                        assert(y as int == i32at(s, rel + 4));
                        assert(z as int == i32at(s, rel + 8));
                        assert(x == i32at(s, rel) as i32);
                        assert(y == i32at(s, rel + 4) as i32);
                        assert(z == i32at(s, rel + 8) as i32);
                        assert(spec_vertices(s, k as int + 1)[m] == Fixed3 {
                            x: i32at(s, rel) as i32,
                            y: i32at(s, rel + 4) as i32,
                            z: i32at(s, rel + 8) as i32,
                        });
                    }
                }
            }
            k += 1;
        }
        proof {
            assert(s.len() >= 20 + u32at(s, 16) * 12);
            assert(vertices@ =~= spec_vertices(s, nvert as int));
        }
        let ghost pos0 = 20 + 12 * (nvert as int);
        let mut faces: Vec<Face> = Vec::new();
        proof {
            if spec_blocks(s, pos0) is Ok {
                let rest = spec_blocks(s, pos0)->Ok_0;
                assert(faces@ + rest =~= rest);
            }
        }
        loop
            invariant
                file.wf(),
                file.contents() == old(file).contents(),
                file.declared_size() == old(file).declared_size(),
                s == old(file).remaining_bytes(),
                s.len() == old(file).contents().len() - c0,
                c0 == old(file).cursor(),
                0 <= c0,
                0 <= pos0,
                u32at(s, 0) == 0x14,
                s.len() >= 20,
                s.len() >= 20 + u32at(s, 16) * 12,
                pos0 == 20 + 12 * u32at(s, 16),
                pos0 <= file.cursor() - c0 <= s.len(),
                spec_blocks(s, pos0) == match spec_blocks(s, file.cursor() - c0) {
                    Ok(rest) => Ok::<Seq<Face>, PodError>(faces@ + rest),
                    Err(e) => Err::<Seq<Face>, PodError>(e),
                },
            ensures
                file.wf(),
                file.contents() == old(file).contents(),
                spec_blocks(s, pos0) == Ok::<Seq<Face>, PodError>(faces@),
            decreases s.len() - (file.cursor() - c0),
        {
            let ghost fbefore = faces@;
            let ghost cur = file.cursor() - c0;
            match decode_block(file, &mut faces, Ghost(s), Ghost(c0)) {
                Ok(true) => {
                    proof {
                        let ncur = file.cursor() - c0;
                        let delta = faces@.skip(fbefore.len() as int);
                        assert(faces@ =~= fbefore + delta);
                        if spec_blocks(s, ncur) is Ok {
                            let rest = spec_blocks(s, ncur)->Ok_0;
                            assert(fbefore + (delta + rest) =~= faces@ + rest);
                        }
                    }
                },
                Ok(false) => {
                    proof {
                        assert(faces@ + Seq::<Face>::empty() =~= faces@);
                    }
                    break;
                },
                Err(e) => {
                    return Err(e);
                },
            }
        }
        Ok(Model { scale, vertices, faces })
    }
}

/// Consumes one tagged block at the handle's position: `Ok(true)` when a
/// block was decoded (faces of 0x0E/0x18 records appended), `Ok(false)`
/// when fewer bytes than one tag remain, an error exactly where
/// `spec_blocks` gives one.
#[verifier::rlimit(100)]
fn decode_block(
    file: &mut FileHandle,
    faces: &mut Vec<Face>,
    Ghost(s): Ghost<Seq<u8>>,
    Ghost(c0): Ghost<int>,
) -> (r: Result<bool, PodError>)
    requires
        old(file).wf(),
        0 <= c0 <= old(file).cursor(),
        s == old(file).contents().skip(c0),
    ensures
        final(file).wf(),
        final(file).contents() == old(file).contents(),
        final(file).declared_size() == old(file).declared_size(),
        match r {
            Ok(true) => ({
                let cur = old(file).cursor() - c0;
                let ncur = final(file).cursor() - c0;
                &&& cur < ncur <= s.len()
                &&& final(faces)@.len() >= old(faces)@.len()
                &&& final(faces)@.take(old(faces)@.len() as int) == old(faces)@
                &&& spec_blocks(s, cur) == match spec_blocks(s, ncur) {
                    Ok(rest) => Ok::<Seq<Face>, PodError>(
                        final(faces)@.skip(old(faces)@.len() as int) + rest,
                    ),
                    Err(e) => Err::<Seq<Face>, PodError>(e),
                }
            }),
            Ok(false) => final(file).cursor() == old(file).cursor() && final(faces)@ == old(
                faces,
            )@ && spec_blocks(s, old(file).cursor() - c0) == Ok::<Seq<Face>, PodError>(
                Seq::empty(),
            ),
            Err(e) => spec_blocks(s, old(file).cursor() - c0) == Err::<Seq<Face>, PodError>(e),
        },
{
    let ghost cur = old(file).cursor() - c0;
    proof {
        assert(s.len() == old(file).contents().len() - c0);
        assert(cur <= s.len());
    }
    if file.remaining() < 4 {
        proof {
            assert(spec_blocks(s, cur) == Ok::<Seq<Face>, PodError>(Seq::empty()));
        }
        return Ok(false);
    }
    let tag = match file.read_u32_le() {
        Ok(v) => v,
        Err(e) => {
            proof {
                assert(false);
            }
            return Err(e);
        },
    };
    proof {
        lemma_skip_subrange(old(file).contents(), c0, cur, cur + 4);
        assert(tag == u32at(s, cur));
    }
    if tag == 0x00 {
        // end marker: a no-op
        proof {
            assert(faces@.take(faces@.len() as int) =~= faces@);
            assert(faces@.skip(faces@.len() as int) =~= Seq::<Face>::empty());
            if spec_blocks(s, cur + 4) is Ok {
                let rest = spec_blocks(s, cur + 4)->Ok_0;
                assert(Seq::<Face>::empty() + rest =~= rest);
            }
        }
        Ok(true)
    } else if tag == 0x0D {
        // active-texture record: 4 reserved bytes and a 16-byte name,
        // consumed without effect on geometry
        if let Err(e) = file.skip_bytes(20) {
            proof {
                assert(s.len() - cur < 24);
            }
            return Err(e);
        }
        proof {
            assert(faces@.take(faces@.len() as int) =~= faces@);
            assert(faces@.skip(faces@.len() as int) =~= Seq::<Face>::empty());
            if spec_blocks(s, cur + 24) is Ok {
                let rest = spec_blocks(s, cur + 24)->Ok_0;
                assert(Seq::<Face>::empty() + rest =~= rest);
            }
        }
        Ok(true)
    } else if tag == 0x17 {
        // reserved record: two words, no geometry effect
        if let Err(e) = file.skip_bytes(8) {
            proof {
                assert(s.len() - cur < 12);
            }
            return Err(e);
        }
        proof {
            assert(faces@.take(faces@.len() as int) =~= faces@);
            assert(faces@.skip(faces@.len() as int) =~= Seq::<Face>::empty());
            if spec_blocks(s, cur + 12) is Ok {
                let rest = spec_blocks(s, cur + 12)->Ok_0;
                assert(Seq::<Face>::empty() + rest =~= rest);
            }
        }
        Ok(true)
    } else if tag == 0x0E || tag == 0x18 {
        decode_face_block(file, faces, tag, Ghost(s), Ghost(c0), Ghost(cur))
    } else {
        Err(PodError::UnknownBlock)
    }
}

/// The face record of a 0x0E or 0x18 block, the tag already consumed: a
/// vertex count of three or four, the raw normal, and that many indexed
/// corners; one triangle for three corners, the two fixed-split triangles
/// for four.
#[verifier::rlimit(100)]
fn decode_face_block(
    file: &mut FileHandle,
    faces: &mut Vec<Face>,
    tag: u32,
    Ghost(s): Ghost<Seq<u8>>,
    Ghost(c0): Ghost<int>,
    Ghost(cur): Ghost<int>,
) -> (r: Result<bool, PodError>)
    requires
        old(file).wf(),
        0 <= c0,
        0 <= cur,
        cur + 4 == old(file).cursor() - c0,
        s == old(file).contents().skip(c0),
        u32at(s, cur) == tag,
        tag == 0x0E || tag == 0x18,
        s.len() - cur >= 4,
    ensures
        final(file).wf(),
        final(file).contents() == old(file).contents(),
        final(file).declared_size() == old(file).declared_size(),
        match r {
            Ok(true) => ({
                let ncur = final(file).cursor() - c0;
                &&& cur < ncur <= s.len()
                &&& final(faces)@.len() >= old(faces)@.len()
                &&& final(faces)@.take(old(faces)@.len() as int) == old(faces)@
                &&& spec_blocks(s, cur) == match spec_blocks(s, ncur) {
                    Ok(rest) => Ok::<Seq<Face>, PodError>(
                        final(faces)@.skip(old(faces)@.len() as int) + rest,
                    ),
                    Err(e) => Err::<Seq<Face>, PodError>(e),
                }
            }),
            Ok(false) => false,
            Err(e) => spec_blocks(s, cur) == Err::<Seq<Face>, PodError>(e),
        },
{
    proof {
        assert(s.len() == old(file).contents().len() - c0);
    }
    if file.remaining() < 20 {
        proof {
            assert(s.len() - cur < 24);
        }
        return Err(PodError::Truncated);
    }
    let nv = match file.read_u32_le() {
        Ok(v) => v,
        Err(e) => {
            proof {
                assert(false);
            }
            return Err(e);
        },
    };
    proof {
        lemma_skip_subrange(old(file).contents(), c0, cur + 4, cur + 8);
        assert(nv == u32at(s, cur + 4));
    }
    let nx = match file.read_i32_le() {
        Ok(v) => v,
        Err(e) => {
            proof {
                assert(false);
            }
            return Err(e);
        },
    };
    let ny = match file.read_i32_le() {
        Ok(v) => v,
        Err(e) => {
            proof {
                assert(false);
            }
            return Err(e);
        },
    };
    let nz = match file.read_i32_le() {
        Ok(v) => v,
        Err(e) => {
            proof {
                assert(false);
            }
            return Err(e);
        },
    };
    if let Err(e) = file.skip_bytes(4) {
        proof {
            assert(false);
        }
        return Err(e);
    }
    proof {
        lemma_skip_subrange(old(file).contents(), c0, cur + 8, cur + 12);
        lemma_skip_subrange(old(file).contents(), c0, cur + 12, cur + 16);
        lemma_skip_subrange(old(file).contents(), c0, cur + 16, cur + 20);
    }
    let normal = Fixed3 { x: nx, y: ny, z: nz };
    if nv != 3 && nv != 4 {
        return Err(PodError::UnknownBlock);
    }
    if file.remaining() / 12 < nv as usize {
        proof {
            assert(s.len() - (cur + 24) < 12 * (nv as int)) by {
                let rem = s.len() - (cur + 24);
                assert(rem / 12 < nv as int);
                assert(rem >= 12 * (rem / 12)) by (nonlinear_arith)
                    requires
                        rem >= 0,
                ;
            }
            assert(s.len() - cur < 24 + u32at(s, cur + 4) * 12);
        }
        return Err(PodError::Truncated);
    }
    proof {
        assert(s.len() - (cur + 24) >= 12 * (nv as int)) by {
            let rem = s.len() - (cur + 24);
            assert(rem / 12 >= nv as int);
            assert(rem >= 12 * (rem / 12)) by (nonlinear_arith)
                requires
                    rem >= 0,
            ;
            assert(12 * (rem / 12) >= 12 * (nv as int));
        }
        assert(s.len() - cur >= 24 + (nv as int) * 12);
    }
    let i0 = match file.read_u32_le() {
        Ok(v) => v,
        Err(e) => {
            proof {
                assert(false);
            }
            return Err(e);
        },
    };
    if let Err(e) = file.skip_bytes(8) {
        proof {
            assert(false);
        }
        return Err(e);
    }
    let i1 = match file.read_u32_le() {
        Ok(v) => v,
        Err(e) => {
            proof {
                assert(false);
            }
            return Err(e);
        },
    };
    if let Err(e) = file.skip_bytes(8) {
        proof {
            assert(false);
        }
        return Err(e);
    }
    let i2 = match file.read_u32_le() {
        Ok(v) => v,
        Err(e) => {
            proof {
                assert(false);
            }
            return Err(e);
        },
    };
    if let Err(e) = file.skip_bytes(8) {
        proof {
            assert(false);
        }
        return Err(e);
    }
    proof {
        lemma_skip_subrange(old(file).contents(), c0, cur + 24, cur + 28);
        lemma_skip_subrange(old(file).contents(), c0, cur + 36, cur + 40);
        lemma_skip_subrange(old(file).contents(), c0, cur + 48, cur + 52);
    }
    if nv == 3 {
        let ghost before = faces@;
        faces.push(Face { v0: i0, v1: i1, v2: i2, normal });
        proof {
            assert(faces@[before.len() as int] == spec_face(s, cur));
            assert(faces@.take(before.len() as int) =~= before);
            assert(faces@.skip(before.len() as int) =~= seq![spec_face(s, cur)]);
            assert(spec_blocks(s, cur) == match spec_blocks(s, cur + 60) {
                Ok(rest) => Ok::<Seq<Face>, PodError>(seq![spec_face(s, cur)] + rest),
                Err(e) => Err::<Seq<Face>, PodError>(e),
            });
        }
        Ok(true)
    } else {
        let i3 = match file.read_u32_le() {
            Ok(v) => v,
            Err(e) => {
                proof {
                    assert(false);
                }
                return Err(e);
            },
        };
        if let Err(e) = file.skip_bytes(8) {
            proof {
                assert(false);
            }
            return Err(e);
        }
        proof {
            lemma_skip_subrange(old(file).contents(), c0, cur + 60, cur + 64);
        }
        let ghost before = faces@;
        faces.push(Face { v0: i0, v1: i1, v2: i2, normal });
        faces.push(Face { v0: i2, v1: i3, v2: i0, normal });
        proof {
            assert(faces@[before.len() as int] == spec_face(s, cur));
            assert(faces@[before.len() as int + 1] == spec_face_second(s, cur));
            assert(faces@.take(before.len() as int) =~= before);
            assert(faces@.skip(before.len() as int) =~= seq![
                spec_face(s, cur),
                spec_face_second(s, cur),
            ]);
            assert(spec_blocks(s, cur) == match spec_blocks(s, cur + 72) {
                Ok(rest) => Ok::<Seq<Face>, PodError>(
                    seq![spec_face(s, cur), spec_face_second(s, cur)] + rest,
                ),
                Err(e) => Err::<Seq<Face>, PodError>(e),
            });
        }
        Ok(true)
    }
}

} // verus!
