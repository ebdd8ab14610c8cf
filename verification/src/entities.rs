use vstd::prelude::*;

use crate::error::{ParseError, ParseReason};
use crate::text::{parse_signed, parse_unsigned, parse_signed_vec, parse_unsigned_vec, split_byte,
    split_byte_vec, trim_end, trim_end_vec};

verus! {

/// One drop record of an entity type: the probability as a percentage
/// (the stored fraction is `percent / 100`) and the dropped item id.
#[derive(Clone, Copy, Debug, PartialEq, Eq, Structural)]
pub struct DropRecord {
    pub percent: u8,
    pub item: u8,
}

/// One entry of the entity-type catalog.
pub struct EntityTypeDef {
    pub class: u8,
    pub model: Vec<u8>,
    pub model_destroyed: Vec<u8>,
    pub drop_a: DropRecord,
    pub drop_b: DropRecord,
    pub description: Vec<u8>,
}

/// The ghost image of a catalog entry.
pub ghost struct TypeDefSpec {
    pub class: u8,
    pub model: Seq<u8>,
    pub model_destroyed: Seq<u8>,
    pub drop_a: DropRecord,
    pub drop_b: DropRecord,
    pub description: Seq<u8>,
}

impl View for EntityTypeDef {
    type V = TypeDefSpec;

    open spec fn view(&self) -> TypeDefSpec {
        TypeDefSpec {
            class: self.class,
            model: self.model@,
            model_destroyed: self.model_destroyed@,
            drop_a: self.drop_a,
            drop_b: self.drop_b,
            description: self.description@,
        }
    }
}

/// One placed entity. World coordinates are fixed-point with 23
/// fractional bits (`raw / 2^20 / 8`); the stored x and z axes are swapped
/// to the terrain mesher's convention and both carry a +16 world-unit
/// centering offset (16 * 2^23 here).
#[derive(Clone, Copy, Debug, PartialEq, Eq, Structural)]
pub struct EntityPlacement {
    pub ty: usize,
    pub flags: u16,
    pub x: i64,
    pub y: i64,
    pub z: i64,
}

/// The document's lines: split at every line feed, trailing whitespace
/// (a carriage return included) trimmed from each.
pub open spec fn doc_lines(text: Seq<u8>) -> Seq<Seq<u8>> {
    split_byte(text, 10).map_values(|l: Seq<u8>| trim_end(l))
}

/// Line `i`, reading past the end as an empty line.
pub open spec fn line_at(ls: Seq<Seq<u8>>, i: int) -> Seq<u8> {
    if 0 <= i < ls.len() {
        ls[i]
    } else {
        Seq::empty()
    }
}

pub open spec fn sentinel_hit() -> Seq<u8> {
    seq![59u8, 78u8, 101u8, 119u8, 72u8, 105u8, 116u8]
}

pub open spec fn sentinel_attack() -> Seq<u8> {
    seq![33u8, 78u8, 101u8, 119u8, 65u8, 116u8, 97u8, 107u8, 82u8, 101u8, 116u8]
}

pub open spec fn sentinel_weapon() -> Seq<u8> {
    seq![35u8, 78u8, 101u8, 119u8, 50u8, 110u8, 100u8, 119u8, 101u8, 97u8, 112u8, 111u8, 110u8]
}

pub open spec fn sentinel_sfx() -> Seq<u8> {
    seq![37u8, 83u8, 70u8, 88u8]
}

/// The largest value the parser accepts for a count, a type index, or an
/// ignored 32-bit field.
pub open spec fn count_cap() -> int {
    0xFFFF_FFFF
}

pub open spec fn err(line: int, reason: ParseReason) -> ParseError {
    ParseError { line: line as usize, reason }
}

/// One catalog entry: fourteen fixed-role lines starting at `base`
/// (0-based). Returns the entry or the first framing failure, with its
/// one-based line number.
pub open spec fn spec_parse_type(ls: Seq<Seq<u8>>, base: int) -> Result<TypeDefSpec, ParseError> {
    let f1 = split_byte(line_at(ls, base), 44);
    let f2 = split_byte(line_at(ls, base + 1), 44);
    let f3 = split_byte(line_at(ls, base + 2), 44);
    if f1.len() < 8 {
        Err(err(base + 1, ParseReason::MissingField))
    } else if parse_unsigned(f1[0]) is None || parse_unsigned(f1[0])->Some_0 > 255 {
        Err(err(base + 1, ParseReason::BadNumber))
    } else if f2.len() < 5 {
        Err(err(base + 2, ParseReason::MissingField))
    } else if f3.len() < 4 {
        Err(err(base + 3, ParseReason::MissingField))
    } else if parse_unsigned(f3[0]) is None || parse_unsigned(f3[0])->Some_0 > 100 {
        Err(err(base + 3, ParseReason::BadNumber))
    } else if parse_signed(f3[1]) is None || parse_signed(f3[1])->Some_0 > 127 || parse_signed(
        f3[1],
    )->Some_0 < -128 {
        Err(err(base + 3, ParseReason::BadNumber))
    } else if parse_unsigned(f3[2]) is None || parse_unsigned(f3[2])->Some_0 > 100 {
        Err(err(base + 3, ParseReason::BadNumber))
    } else if parse_signed(f3[3]) is None || parse_signed(f3[3])->Some_0 > 127 || parse_signed(
        f3[3],
    )->Some_0 < -128 {
        Err(err(base + 3, ParseReason::BadNumber))
    } else if line_at(ls, base + 4) != sentinel_hit() {
        Err(err(base + 5, ParseReason::BadSentinel))
    } else if line_at(ls, base + 6) != sentinel_attack() {
        Err(err(base + 7, ParseReason::BadSentinel))
    } else if line_at(ls, base + 9) != sentinel_weapon() {
        Err(err(base + 10, ParseReason::BadSentinel))
    } else if line_at(ls, base + 11) != sentinel_sfx() {
        Err(err(base + 12, ParseReason::BadSentinel))
    } else {
        let i1 = parse_signed(f3[1])->Some_0;
        let i2 = parse_signed(f3[3])->Some_0;
        Ok(
            TypeDefSpec {
                class: parse_unsigned(f1[0])->Some_0 as u8,
                model: f1[6],
                model_destroyed: f1[7],
                drop_a: DropRecord {
                    percent: parse_unsigned(f3[0])->Some_0 as u8,
                    item: (if i1 < 0 {
                        i1 + 256
                    } else {
                        i1
                    }) as u8,
                },
                drop_b: DropRecord {
                    percent: parse_unsigned(f3[2])->Some_0 as u8,
                    item: (if i2 < 0 {
                        i2 + 256
                    } else {
                        i2
                    }) as u8,
                },
                description: line_at(ls, base + 8),
            },
        )
    }
}

/// `n` catalog entries of fourteen lines each, starting at `base`.
pub open spec fn spec_parse_types(ls: Seq<Seq<u8>>, base: int, n: nat) -> Result<
    Seq<TypeDefSpec>,
    ParseError,
>
    decreases n,
{
    if n == 0 {
        Ok(Seq::empty())
    } else {
        match spec_parse_type(ls, base) {
            Ok(d) => match spec_parse_types(ls, base + 14, (n - 1) as nat) {
                Ok(rest) => Ok(seq![d] + rest),
                Err(e) => Err(e),
            },
            Err(e) => Err(e),
        }
    }
}

/// One placement line: type index, flags, three signed fixed-point
/// coordinates, three ignored 32-bit fields. The stored x and z axes swap
/// and gain the +16 world-unit centering offset.
pub open spec fn spec_parse_placement(ls: Seq<Seq<u8>>, i: int, ntypes: int) -> Result<
    EntityPlacement,
    ParseError,
> {
    let f = split_byte(line_at(ls, i), 44);
    if f.len() < 8 {
        Err(err(i + 1, ParseReason::MissingField))
    } else if parse_unsigned(f[0]) is None || parse_unsigned(f[0])->Some_0 > count_cap() {
        Err(err(i + 1, ParseReason::BadNumber))
    } else if parse_unsigned(f[0])->Some_0 >= ntypes {
        Err(err(i + 1, ParseReason::BadIndex))
    } else if parse_unsigned(f[1]) is None || parse_unsigned(f[1])->Some_0 > 0xFFFF {
        Err(err(i + 1, ParseReason::BadNumber))
    } else if parse_signed(f[2]) is None || parse_signed(f[2])->Some_0 > 0x7FFF_FFFF
        || parse_signed(f[2])->Some_0 < -0x8000_0000 {
        Err(err(i + 1, ParseReason::BadNumber))
    } else if parse_signed(f[3]) is None || parse_signed(f[3])->Some_0 > 0x7FFF_FFFF
        || parse_signed(f[3])->Some_0 < -0x8000_0000 {
        Err(err(i + 1, ParseReason::BadNumber))
    } else if parse_signed(f[4]) is None || parse_signed(f[4])->Some_0 > 0x7FFF_FFFF
        || parse_signed(f[4])->Some_0 < -0x8000_0000 {
        Err(err(i + 1, ParseReason::BadNumber))
    } else if parse_unsigned(f[5]) is None || parse_unsigned(f[5])->Some_0 > count_cap() {
        Err(err(i + 1, ParseReason::BadNumber))
    } else if parse_unsigned(f[6]) is None || parse_unsigned(f[6])->Some_0 > count_cap() {
        Err(err(i + 1, ParseReason::BadNumber))
    } else if parse_unsigned(f[7]) is None || parse_unsigned(f[7])->Some_0 > count_cap() {
        Err(err(i + 1, ParseReason::BadNumber))
    } else {
        let sx = parse_signed(f[2])->Some_0;
        let sy = parse_signed(f[3])->Some_0;
        let sz = parse_signed(f[4])->Some_0;
        Ok(
            EntityPlacement {
                ty: parse_unsigned(f[0])->Some_0 as usize,
                flags: parse_unsigned(f[1])->Some_0 as u16,
                x: (sz + 0x800_0000) as i64,
                y: sy as i64,
                z: (sx + 0x800_0000) as i64,
            },
        )
    }
}

/// `n` placement lines starting at `base`.
pub open spec fn spec_parse_placements(ls: Seq<Seq<u8>>, base: int, n: nat, ntypes: int) -> Result<
    Seq<EntityPlacement>,
    ParseError,
>
    decreases n,
{
    if n == 0 {
        Ok(Seq::empty())
    } else {
        match spec_parse_placement(ls, base, ntypes) {
            Ok(p) => match spec_parse_placements(ls, base + 1, (n - 1) as nat, ntypes) {
                Ok(rest) => Ok(seq![p] + rest),
                Err(e) => Err(e),
            },
            Err(e) => Err(e),
        }
    }
}

/// The whole catalog document: a type count on the first line, that many
/// fourteen-line entries, a placement count, and that many placement
/// lines.
pub open spec fn spec_parse_doc(text: Seq<u8>) -> Result<
    (Seq<TypeDefSpec>, Seq<EntityPlacement>),
    ParseError,
> {
    let ls = doc_lines(text);
    if parse_unsigned(line_at(ls, 0)) is None || parse_unsigned(line_at(ls, 0))->Some_0
        > count_cap() {
        Err(err(1, ParseReason::BadNumber))
    } else {
        let tc = parse_unsigned(line_at(ls, 0))->Some_0;
        match spec_parse_types(ls, 1, tc as nat) {
            Ok(defs) => {
                let pbase = 1 + 14 * tc;
                if parse_unsigned(line_at(ls, pbase)) is None || parse_unsigned(
                    line_at(ls, pbase),
                )->Some_0 > count_cap() {
                    Err(err(pbase + 1, ParseReason::BadNumber))
                } else {
                    let pc = parse_unsigned(line_at(ls, pbase))->Some_0;
                    match spec_parse_placements(ls, pbase + 1, pc as nat, defs.len() as int) {
                        Ok(ps) => Ok((defs, ps)),
                        Err(e) => Err(e),
                    }
                }
            },
            Err(e) => Err(e),
        }
    }
}


/// The views of a line list.
pub open spec fn lviews(s: Seq<Vec<u8>>) -> Seq<Seq<u8>> {
    s.map_values(|v: Vec<u8>| v@)
}

fn mk_err(line: u64, reason: ParseReason) -> (r: ParseError)
    ensures
        r == err(line as int, reason),
{
    ParseError { line: #[verifier::truncate] (line as usize), reason }
}

fn bytes_eq(a: &[u8], b: &[u8]) -> (r: bool)
    ensures
        r <==> a@ == b@,
{
    if a.len() != b.len() {
        proof {
            if a@ == b@ {
                assert(a@.len() == b@.len());
            }
        }
        return false;
    }
    let mut i: usize = 0;
    while i < a.len()
        invariant
            i <= a@.len(),
            a@.len() == b@.len(),
            forall|j: int| 0 <= j < i ==> a@[j] == b@[j],
        decreases a@.len() - i,
    {
        if a[i] != b[i] {
            proof {
                if a@ == b@ {
                    assert(a@[i as int] == b@[i as int]);
                }
            }
            return false;
        }
        i += 1;
    }
    proof {
        assert(a@ =~= b@);
    }
    true
}

fn sentinel_hit_vec() -> (r: Vec<u8>)
    ensures
        r@ == sentinel_hit(),
{
    let mut v: Vec<u8> = Vec::new();
    v.push(59);
    v.push(78);
    v.push(101);
    v.push(119);
    v.push(72);
    v.push(105);
    v.push(116);
    proof {
        assert(v@ =~= sentinel_hit());
    }
    v
}

fn sentinel_attack_vec() -> (r: Vec<u8>)
    ensures
        r@ == sentinel_attack(),
{
    let mut v: Vec<u8> = Vec::new();
    v.push(33);
    v.push(78);
    v.push(101);
    v.push(119);
    v.push(65);
    v.push(116);
    v.push(97);
    v.push(107);
    v.push(82);
    v.push(101);
    v.push(116);
    proof {
        assert(v@ =~= sentinel_attack());
    }
    v
}

fn sentinel_weapon_vec() -> (r: Vec<u8>)
    ensures
        r@ == sentinel_weapon(),
{
    let mut v: Vec<u8> = Vec::new();
    v.push(35);
    v.push(78);
    v.push(101);
    v.push(119);
    v.push(50);
    v.push(110);
    v.push(100);
    v.push(119);
    v.push(101);
    v.push(97);
    v.push(112);
    v.push(111);
    v.push(110);
    proof {
        assert(v@ =~= sentinel_weapon());
    }
    v
}

fn sentinel_sfx_vec() -> (r: Vec<u8>)
    ensures
        r@ == sentinel_sfx(),
{
    let mut v: Vec<u8> = Vec::new();
    v.push(37);
    v.push(83);
    v.push(70);
    v.push(88);
    proof {
        assert(v@ =~= sentinel_sfx());
    }
    v
}

/// Line `i` of the list, copied; past the end it is empty.
fn line_copy(lines: &Vec<Vec<u8>>, i: u64) -> (r: Vec<u8>)
    ensures
        r@ == line_at(lviews(lines@), i as int),
{
    if i < lines.len() as u64 {
        vstd::slice::slice_to_vec(lines[i as usize].as_slice())
    } else {
        Vec::new()
    }
}

/// One catalog entry's fourteen lines, as `spec_parse_type` reads them.
#[verifier::rlimit(100)]
fn parse_type_at(lines: &Vec<Vec<u8>>, base: u64) -> (r: Result<EntityTypeDef, ParseError>)
    requires
        base <= 0x10_0000_0000,
    ensures
        match (r, spec_parse_type(lviews(lines@), base as int)) {
            (Ok(d), Ok(sd)) => d@ == sd,
            (Err(e), Err(se)) => e == se,
            _ => false,
        },
{
    let ghost ls = lviews(lines@);
    let l1 = line_copy(lines, base);
    let f1 = split_byte_vec(l1.as_slice(), 44);
    proof {
        assert(f1@.map_values(|v: Vec<u8>| v@) == split_byte(line_at(ls, base as int), 44));
    }
    if f1.len() < 8 {
        return Err(mk_err(base + 1, ParseReason::MissingField));
    }
    proof {
        assert(f1@[0]@ == split_byte(line_at(ls, base as int), 44)[0]);
        assert(f1@[6]@ == split_byte(line_at(ls, base as int), 44)[6]);
        assert(f1@[7]@ == split_byte(line_at(ls, base as int), 44)[7]);
    }
    let class64 = match parse_unsigned_vec(f1[0].as_slice(), 255) {
        Some(v) => v,
        None => {
            return Err(mk_err(base + 1, ParseReason::BadNumber));
        },
    };
    let l2 = line_copy(lines, base + 1);
    let f2 = split_byte_vec(l2.as_slice(), 44);
    proof {
        assert(f2@.map_values(|v: Vec<u8>| v@) == split_byte(line_at(ls, base as int + 1), 44));
    }
    if f2.len() < 5 {
        return Err(mk_err(base + 2, ParseReason::MissingField));
    }
    let l3 = line_copy(lines, base + 2);
    let f3 = split_byte_vec(l3.as_slice(), 44);
    proof {
        assert(f3@.map_values(|v: Vec<u8>| v@) == split_byte(line_at(ls, base as int + 2), 44));
    }
    if f3.len() < 4 {
        return Err(mk_err(base + 3, ParseReason::MissingField));
    }
    proof {
        assert(f3@[0]@ == split_byte(line_at(ls, base as int + 2), 44)[0]);
        assert(f3@[1]@ == split_byte(line_at(ls, base as int + 2), 44)[1]);
        assert(f3@[2]@ == split_byte(line_at(ls, base as int + 2), 44)[2]);
        assert(f3@[3]@ == split_byte(line_at(ls, base as int + 2), 44)[3]);
    }
    let p1 = match parse_unsigned_vec(f3[0].as_slice(), 100) {
        Some(v) => v,
        None => {
            return Err(mk_err(base + 3, ParseReason::BadNumber));
        },
    };
    let i1 = match parse_signed_vec(f3[1].as_slice(), -128, 127) {
        Some(v) => v,
        None => {
            return Err(mk_err(base + 3, ParseReason::BadNumber));
        },
    };
    let p2 = match parse_unsigned_vec(f3[2].as_slice(), 100) {
        Some(v) => v,
        None => {
            return Err(mk_err(base + 3, ParseReason::BadNumber));
        },
    };
    let i2 = match parse_signed_vec(f3[3].as_slice(), -128, 127) {
        Some(v) => v,
        None => {
            return Err(mk_err(base + 3, ParseReason::BadNumber));
        },
    };
    let l5 = line_copy(lines, base + 4);
    let hit = sentinel_hit_vec();
    if !bytes_eq(l5.as_slice(), hit.as_slice()) {
        return Err(mk_err(base + 5, ParseReason::BadSentinel));
    }
    let l7 = line_copy(lines, base + 6);
    let atk = sentinel_attack_vec();
    if !bytes_eq(l7.as_slice(), atk.as_slice()) {
        return Err(mk_err(base + 7, ParseReason::BadSentinel));
    }
    let l10 = line_copy(lines, base + 9);
    let wpn = sentinel_weapon_vec();
    if !bytes_eq(l10.as_slice(), wpn.as_slice()) {
        return Err(mk_err(base + 10, ParseReason::BadSentinel));
    }
    let l12 = line_copy(lines, base + 11);
    let sfx = sentinel_sfx_vec();
    if !bytes_eq(l12.as_slice(), sfx.as_slice()) {
        return Err(mk_err(base + 12, ParseReason::BadSentinel));
    }
    let l9 = line_copy(lines, base + 8);
    let model = vstd::slice::slice_to_vec(f1[6].as_slice());
    let model_destroyed = vstd::slice::slice_to_vec(f1[7].as_slice());
    let item_a: u8 = if i1 < 0 {
        (i1 + 256) as u8
    } else {
        i1 as u8
    };
    let item_b: u8 = if i2 < 0 {
        (i2 + 256) as u8
    } else {
        i2 as u8
    };
    Ok(
        EntityTypeDef {
            class: class64 as u8,
            model,
            model_destroyed,
            drop_a: DropRecord { percent: p1 as u8, item: item_a },
            drop_b: DropRecord { percent: p2 as u8, item: item_b },
            description: l9,
        },
    )
}

/// One placement line, as `spec_parse_placement` reads it.
#[verifier::rlimit(100)]
fn parse_placement_at(lines: &Vec<Vec<u8>>, i: u64, ntypes: usize) -> (r: Result<
    EntityPlacement,
    ParseError,
>)
    requires
        i <= 0x10_0000_0000,
    ensures
        match (r, spec_parse_placement(lviews(lines@), i as int, ntypes as int)) {
            (Ok(p), Ok(sp)) => p == sp,
            (Err(e), Err(se)) => e == se,
            _ => false,
        },
{
    let ghost ls = lviews(lines@);
    let l = line_copy(lines, i);
    let f = split_byte_vec(l.as_slice(), 44);
    proof {
        assert(f@.map_values(|v: Vec<u8>| v@) == split_byte(line_at(ls, i as int), 44));
    }
    if f.len() < 8 {
        return Err(mk_err(i + 1, ParseReason::MissingField));
    }
    proof {
        assert forall|k: int| 0 <= k < 8 implies (#[trigger] f@[k])@ == split_byte(
            line_at(ls, i as int),
            44,
        )[k] by {}
    }
    let ty64 = match parse_unsigned_vec(f[0].as_slice(), 0xFFFF_FFFF) {
        Some(v) => v,
        None => {
            return Err(mk_err(i + 1, ParseReason::BadNumber));
        },
    };
    if ty64 >= ntypes as u64 {
        return Err(mk_err(i + 1, ParseReason::BadIndex));
    }
    let flags64 = match parse_unsigned_vec(f[1].as_slice(), 0xFFFF) {
        Some(v) => v,
        None => {
            return Err(mk_err(i + 1, ParseReason::BadNumber));
        },
    };
    let sx = match parse_signed_vec(f[2].as_slice(), -0x8000_0000, 0x7FFF_FFFF) {
        Some(v) => v,
        None => {
            return Err(mk_err(i + 1, ParseReason::BadNumber));
        },
    };
    let sy = match parse_signed_vec(f[3].as_slice(), -0x8000_0000, 0x7FFF_FFFF) {
        Some(v) => v,
        None => {
            return Err(mk_err(i + 1, ParseReason::BadNumber));
        },
    };
    let sz = match parse_signed_vec(f[4].as_slice(), -0x8000_0000, 0x7FFF_FFFF) {
        Some(v) => v,
        None => {
            return Err(mk_err(i + 1, ParseReason::BadNumber));
        },
    };
    if parse_unsigned_vec(f[5].as_slice(), 0xFFFF_FFFF).is_none() {
        return Err(mk_err(i + 1, ParseReason::BadNumber));
    }
    if parse_unsigned_vec(f[6].as_slice(), 0xFFFF_FFFF).is_none() {
        return Err(mk_err(i + 1, ParseReason::BadNumber));
    }
    if parse_unsigned_vec(f[7].as_slice(), 0xFFFF_FFFF).is_none() {
        return Err(mk_err(i + 1, ParseReason::BadNumber));
    }
    Ok(
        EntityPlacement {
            ty: ty64 as usize,
            flags: flags64 as u16,
            x: sz + 0x800_0000,
            y: sy,
            z: sx + 0x800_0000,
        },
    )
}

/// Parses a whole entity catalog document, exactly as `spec_parse_doc`
/// reads its bytes.
pub fn parse_entities(text: &[u8]) -> (r: Result<
    (Vec<EntityTypeDef>, Vec<EntityPlacement>),
    ParseError,
>)
    ensures
        match (r, spec_parse_doc(text@)) {
            (Ok((defs, ps)), Ok(sr)) => defs@.map_values(|d: EntityTypeDef| d@) == sr.0 && ps@
                == sr.1,
            (Err(e), Err(se)) => e == se,
            _ => false,
        },
{
    let raw = split_byte_vec(text, 10);
    let mut lines: Vec<Vec<u8>> = Vec::new();
    let mut li: usize = 0;
    while li < raw.len()
        invariant
            li <= raw@.len(),
            raw@.map_values(|v: Vec<u8>| v@) == split_byte(text@, 10),
            lines@.len() == li,
            forall|m: int| 0 <= m < li ==> (#[trigger] lines@[m])@ == trim_end(
                split_byte(text@, 10)[m],
            ),
        decreases raw@.len() - li,
    {
        proof {
            assert(raw@[li as int]@ == split_byte(text@, 10)[li as int]);
        }
        let t = trim_end_vec(raw[li].as_slice());
        lines.push(t);
        li += 1;
    }
    proof {
        assert(lviews(lines@) =~= doc_lines(text@));
    }
    let ghost ls = doc_lines(text@);
    let l0 = line_copy(&lines, 0);
    let tc = match parse_unsigned_vec(l0.as_slice(), 0xFFFF_FFFF) {
        Some(v) => v,
        None => {
            return Err(mk_err(1, ParseReason::BadNumber));
        },
    };
    let mut defs: Vec<EntityTypeDef> = Vec::new();
    let mut t: u64 = 0;
    let mut base: u64 = 1;
    proof {
        if spec_parse_types(ls, 1, tc as nat) is Ok {
            let rest = spec_parse_types(ls, 1, tc as nat)->Ok_0;
            assert(defs@.map_values(|d: EntityTypeDef| d@) + rest =~= rest);
        }
    }
    while t < tc
        invariant
            t <= tc,
            tc <= 0xFFFF_FFFF,
            base == 1 + 14 * t,
            lviews(lines@) == ls,
            ls == doc_lines(text@),
            parse_unsigned(line_at(ls, 0)) == Some(tc as int),
            defs@.len() == t,
            spec_parse_types(ls, 1, tc as nat) == (match spec_parse_types(
                ls,
                base as int,
                (tc - t) as nat,
            ) {
                Ok(rest) => Ok::<Seq<TypeDefSpec>, ParseError>(
                    defs@.map_values(|d: EntityTypeDef| d@) + rest,
                ),
                Err(e) => Err::<Seq<TypeDefSpec>, ParseError>(e),
            }),
        decreases tc - t,
    {
        match parse_type_at(&lines, base) {
            Ok(d) => {
                let ghost before = defs@.map_values(|d: EntityTypeDef| d@);
                defs.push(d);
                proof {
                    assert(defs@.map_values(|d: EntityTypeDef| d@) =~= before.push(d@));
                    if spec_parse_types(ls, base as int + 14, (tc - t - 1) as nat) is Ok {
                        let rest = spec_parse_types(ls, base as int + 14, (tc - t - 1) as nat)->Ok_0;
                        assert(before + (seq![d@] + rest) =~= before.push(d@) + rest);
                    }
                }
            },
            Err(e) => {
                return Err(e);
            },
        }
        t += 1;
        base += 14;
    }
    proof {
        assert(spec_parse_types(ls, base as int, 0) == Ok::<Seq<TypeDefSpec>, ParseError>(
            Seq::empty(),
        ));
        assert(defs@.map_values(|d: EntityTypeDef| d@) + Seq::<TypeDefSpec>::empty()
            =~= defs@.map_values(|d: EntityTypeDef| d@));
    }
    let pbase: u64 = base;
    let lp = line_copy(&lines, pbase);
    let pc = match parse_unsigned_vec(lp.as_slice(), 0xFFFF_FFFF) {
        Some(v) => v,
        None => {
            return Err(mk_err(pbase + 1, ParseReason::BadNumber));
        },
    };
    let ndefs = defs.len();
    let mut places: Vec<EntityPlacement> = Vec::new();
    let mut p: u64 = 0;
    proof {
        if spec_parse_placements(ls, pbase as int + 1, pc as nat, ndefs as int) is Ok {
            let rest = spec_parse_placements(ls, pbase as int + 1, pc as nat, ndefs as int)->Ok_0;
            assert(places@ + rest =~= rest);
        }
    }
    while p < pc
        invariant
            p <= pc,
            pc <= 0xFFFF_FFFF,
            tc <= 0xFFFF_FFFF,
            pbase == 1 + 14 * tc,
            lviews(lines@) == ls,
            ls == doc_lines(text@),
            parse_unsigned(line_at(ls, 0)) == Some(tc as int),
            parse_unsigned(line_at(ls, pbase as int)) == Some(pc as int),
            spec_parse_types(ls, 1, tc as nat) == Ok::<Seq<TypeDefSpec>, ParseError>(
                defs@.map_values(|d: EntityTypeDef| d@),
            ),
            ndefs == defs@.len(),
            ndefs == tc,
            places@.len() == p,
            spec_parse_placements(ls, pbase as int + 1, pc as nat, ndefs as int) == (
            match spec_parse_placements(ls, pbase as int + 1 + p, (pc - p) as nat, ndefs as int) {
                Ok(rest) => Ok::<Seq<EntityPlacement>, ParseError>(places@ + rest),
                Err(e) => Err::<Seq<EntityPlacement>, ParseError>(e),
            }),
        decreases pc - p,
    {
        match parse_placement_at(&lines, pbase + 1 + p, ndefs) {
            Ok(pl) => {
                let ghost before = places@;
                places.push(pl);
                proof {
                    if spec_parse_placements(
                        ls,
                        pbase as int + 1 + p + 1,
                        (pc - p - 1) as nat,
                        ndefs as int,
                    ) is Ok {
                        let rest = spec_parse_placements(
                            ls,
                            pbase as int + 1 + p + 1,
                            (pc - p - 1) as nat,
                            ndefs as int,
                        )->Ok_0;
                        assert(before + (seq![pl] + rest) =~= before.push(pl) + rest);
                    }
                }
            },
            Err(e) => {
                return Err(e);
            },
        }
        p += 1;
    }
    proof {
        assert(spec_parse_placements(ls, pbase as int + 1 + p, 0, ndefs as int) == Ok::<
            Seq<EntityPlacement>,
            ParseError,
        >(Seq::empty()));
        assert(places@ + Seq::<EntityPlacement>::empty() =~= places@);
    }
    Ok((defs, places))
}

} // verus!
