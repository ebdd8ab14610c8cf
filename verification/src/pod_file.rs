use vstd::prelude::*;

use crate::bytes::{le32, u32_le_at, i32_from_u32, le32_signed};
use crate::cstr::{has_nul, until_nul, find_nul, CStrBuf};
use crate::error::PodError;
use crate::order::{lex_le, lex_lt, is_prefix, lex_cmp};
use crate::order::{
    lemma_lex_asymmetric, lemma_lex_at_byte, lemma_lex_irreflexive, lemma_lex_proper_prefix,
    lemma_lex_transitive,
};

verus! {

/// A bounded read-only cursor onto one member of the archive: sequential
/// reads that never step beyond the member's bytes. Reading past the end
/// yields a shorter result, never an error.
pub struct FileHandle<'a> {
    data: &'a [u8],
    pos: usize,
    declared: usize,
}

impl<'a> FileHandle<'a> {
    /// The member's bytes, clamped to what the container actually holds.
    pub closed spec fn contents(&self) -> Seq<u8> {
        self.data@
    }

    /// How many bytes have been read so far.
    pub closed spec fn cursor(&self) -> int {
        self.pos as int
    }

    /// The size the directory declared for this member; never exceeded by
    /// the bytes actually available.
    pub closed spec fn declared_size(&self) -> int {
        self.declared as int
    }

    pub open spec fn wf(&self) -> bool {
        0 <= self.cursor() <= self.contents().len() && self.contents().len()
            <= self.declared_size()
    }

    /// The bytes not yet consumed.
    pub open spec fn remaining_bytes(&self) -> Seq<u8> {
        self.contents().skip(self.cursor())
    }

    /// A handle onto a free-standing byte stream (not tied to an archive).
    pub fn from_bytes(data: &'a [u8]) -> (r: FileHandle<'a>)
        ensures
            r.contents() == data@,
            r.cursor() == 0,
            r.declared_size() == data@.len(),
            r.wf(),
    {
        FileHandle { data, pos: 0, declared: data.len() }
    }

    /// The size the directory declared for the member.
    pub fn size(&self) -> (r: usize)
        ensures
            r as int == self.declared_size(),
    {
        self.declared
    }

    /// How many bytes are left to read.
    pub fn remaining(&self) -> (r: usize)
        requires
            self.wf(),
        ensures
            r as int == self.contents().len() - self.cursor(),
    {
        self.data.len() - self.pos
    }

    /// Reads up to `n` bytes, fewer when fewer are left.
    pub fn read(&mut self, n: usize) -> (r: Vec<u8>)
        requires
            old(self).wf(),
        ensures
            final(self).wf(),
            final(self).contents() == old(self).contents(),
            final(self).declared_size() == old(self).declared_size(),
            r@ == old(self).contents().subrange(
                old(self).cursor(),
                vstd::math::min(old(self).cursor() + n, old(self).contents().len() as int),
            ),
            final(self).cursor() == old(self).cursor() + r@.len(),
    {
        let dlen = self.data.len();
        let avail = dlen - self.pos;
        let take = if n < avail { n } else { avail };
        let mut out: Vec<u8> = Vec::new();
        let mut i: usize = 0;
        while i < take
            invariant
                i <= take,
                self.pos + take <= dlen,
                dlen == self.data@.len(),
                out@ == self.data@.subrange(self.pos as int, self.pos as int + i),
            decreases take - i,
        {
            out.push(self.data[self.pos + i]);
            proof {
                assert(out@ =~= self.data@.subrange(self.pos as int, self.pos as int + i + 1));
            }
            i += 1;
        }
        self.pos = self.pos + take;
        out
    }

    /// Reads a little-endian unsigned 32-bit value, or reports truncation
    /// when fewer than four bytes are left.
    pub fn read_u32_le(&mut self) -> (r: Result<u32, PodError>)
        requires
            old(self).wf(),
        ensures
            final(self).wf(),
            final(self).contents() == old(self).contents(),
            final(self).declared_size() == old(self).declared_size(),
            match r {
                Ok(v) => old(self).contents().len() - old(self).cursor() >= 4 && v == le32(
                    old(self).contents().subrange(old(self).cursor(), old(self).cursor() + 4),
                ) && final(self).cursor() == old(self).cursor() + 4,
                Err(e) => e == PodError::Truncated && old(self).contents().len() - old(self).cursor() < 4 && final(self).cursor() == old(self).cursor(),
            },
    {
        if self.data.len() - self.pos < 4 {
            return Err(PodError::Truncated);
        }
        let v = u32_le_at(self.data, self.pos);
        self.pos = self.pos + 4;
        Ok(v)
    }

    /// Reads a little-endian signed 32-bit value.
    pub fn read_i32_le(&mut self) -> (r: Result<i32, PodError>)
        requires
            old(self).wf(),
        ensures
            final(self).wf(),
            final(self).contents() == old(self).contents(),
            final(self).declared_size() == old(self).declared_size(),
            match r {
                Ok(v) => old(self).contents().len() - old(self).cursor() >= 4 && v as int
                    == le32_signed(
                    old(self).contents().subrange(old(self).cursor(), old(self).cursor() + 4),
                ) && final(self).cursor() == old(self).cursor() + 4,
                Err(e) => e == PodError::Truncated && old(self).contents().len() - old(self).cursor() < 4 && final(self).cursor() == old(self).cursor(),
            },
    {
        if self.data.len() - self.pos < 4 {
            return Err(PodError::Truncated);
        }
        let v = u32_le_at(self.data, self.pos);
        self.pos = self.pos + 4;
        Ok(i32_from_u32(v))
    }

    /// Skips `n` bytes, or reports truncation when fewer are left.
    pub fn skip_bytes(&mut self, n: usize) -> (r: Result<(), PodError>)
        requires
            old(self).wf(),
        ensures
            final(self).wf(),
            final(self).contents() == old(self).contents(),
            final(self).declared_size() == old(self).declared_size(),
            match r {
                Ok(()) => old(self).contents().len() - old(self).cursor() >= n && final(self).cursor() == old(self).cursor() + n,
                Err(e) => e == PodError::Truncated && old(self).contents().len() - old(self).cursor() < n && final(self).cursor() == old(self).cursor(),
            },
    {
        if self.data.len() - self.pos < n {
            return Err(PodError::Truncated);
        }
        self.pos = self.pos + n;
        Ok(())
    }
}


/// What the directory records about one member: its name, the byte size
/// of the member, and its offset within the container image.
pub ghost struct EntrySpec {
    pub name: Seq<u8>,
    pub size: nat,
    pub offset: nat,
}

struct FileEnt {
    name: CStrBuf,
    size: u32,
    offset: u32,
}

impl View for FileEnt {
    type V = EntrySpec;

    closed spec fn view(&self) -> EntrySpec {
        EntrySpec { name: self.name@, size: self.size as nat, offset: self.offset as nat }
    }
}

spec fn views(s: Seq<FileEnt>) -> Seq<EntrySpec> {
    s.map_values(|e: FileEnt| e@)
}

/// The directory is in ascending byte-lexicographic order of name.
pub open spec fn entries_sorted(es: Seq<EntrySpec>) -> bool {
    forall|i: int, j: int| 0 <= i < j < es.len() ==> lex_le(#[trigger] es[i].name, #[trigger] es[j].name)
}

/// No two members share a name: what a valid archive guarantees.
pub open spec fn unique_names(es: Seq<EntrySpec>) -> bool {
    forall|i: int, j: int| 0 <= i < j < es.len() ==> (#[trigger] es[i].name) != (#[trigger] es[j].name)
}

/// Entry count stored in the first four header bytes.
pub open spec fn dir_count(data: Seq<u8>) -> nat {
    le32(data.subrange(0, 4))
}

/// Offset of entry `i`'s record: past the count and the 0x50-byte comment
/// blob, forty bytes per entry.
pub open spec fn entry_base(i: int) -> int {
    0x54 + i * 40
}

/// The 32-byte name field of entry `i`.
pub open spec fn raw_name_field(data: Seq<u8>, i: int) -> Seq<u8> {
    data.subrange(entry_base(i), entry_base(i) + 32)
}

/// Entry `i` as stored: nul-terminated name, then size, then offset, both
/// little-endian.
pub open spec fn spec_entry(data: Seq<u8>, i: int) -> EntrySpec {
    EntrySpec {
        name: until_nul(raw_name_field(data, i)),
        size: le32(data.subrange(entry_base(i) + 32, entry_base(i) + 36)),
        offset: le32(data.subrange(entry_base(i) + 36, entry_base(i) + 40)),
    }
}

/// The container image is long enough for the header and every directory
/// record it announces.
pub open spec fn dir_complete(data: Seq<u8>) -> bool {
    data.len() >= 4 && data.len() >= 0x54 + dir_count(data) * 40
}

/// Every announced name field carries a nul terminator.
pub open spec fn dir_names_ok(data: Seq<u8>) -> bool {
    forall|i: int| 0 <= i < dir_count(data) ==> has_nul(#[trigger] raw_name_field(data, i))
}

/// The directory in stored order, before sorting.
pub open spec fn spec_entries(data: Seq<u8>) -> Seq<EntrySpec> {
    Seq::new(dir_count(data), |i: int| spec_entry(data, i))
}

/// Where a member's bytes start within the container, clamped to the image.
pub open spec fn member_start(data: Seq<u8>, e: EntrySpec) -> int {
    vstd::math::min(e.offset as int, data.len() as int)
}

/// Where a member's bytes end: offset plus declared size, clamped.
pub open spec fn member_end(data: Seq<u8>, e: EntrySpec) -> int {
    vstd::math::min(e.offset + e.size as int, data.len() as int)
}

/// The bytes a member actually has in the image; shorter than the declared
/// size when the image ends early.
pub open spec fn member_bytes(data: Seq<u8>, e: EntrySpec) -> Seq<u8> {
    data.subrange(member_start(data, e), member_end(data, e))
}

/// An archive container: the raw image and its directory, sorted by name.
pub struct PodArchive {
    data: Vec<u8>,
    files: Vec<FileEnt>,
}

impl PodArchive {
    /// The container image.
    pub closed spec fn raw(&self) -> Seq<u8> {
        self.data@
    }

    /// The directory, in index order.
    pub closed spec fn entries(&self) -> Seq<EntrySpec> {
        views(self.files@)
    }

    spec fn names_ok(&self) -> bool {
        forall|i: int| 0 <= i < self.files@.len() ==> (#[trigger] self.files@[i]).name.wf()
    }

    pub closed spec fn wf(&self) -> bool {
        self.names_ok() && entries_sorted(self.entries())
    }

    pub proof fn lemma_wf_sorted(&self)
        requires
            self.wf(),
        ensures
            entries_sorted(self.entries()),
    {
    }

    /// A freshly opened handle onto entry `e`: positioned at the start of
    /// the member's bytes, bounded by the declared size.
    pub open spec fn fresh_handle(&self, h: FileHandle, e: EntrySpec) -> bool {
        h.contents() == member_bytes(self.raw(), e) && h.cursor() == 0 && h.declared_size()
            == e.size
    }

    /// Builds the archive from a whole container image: reads the entry
    /// count, skips the comment blob, reads every directory record, and
    /// sorts the directory by byte-wise name order.
    pub fn from_file(data: Vec<u8>) -> (r: Result<PodArchive, PodError>)
        ensures
            match r {
                Ok(a) => dir_complete(data@) && dir_names_ok(data@) && a.wf() && a.raw() == data@
                    && a.entries().to_multiset() == spec_entries(data@).to_multiset()
                    && a.entries().len() == dir_count(data@),
                Err(e) => {
                    &&& (e == PodError::Truncated || e == PodError::BadHeader)
                    &&& (e == PodError::Truncated <==> !dir_complete(data@))
                    &&& (e == PodError::BadHeader ==> !dir_names_ok(data@))
                },
            },
    {
        if data.len() < 4 {
            return Err(PodError::Truncated);
        }
        let count_u32 = u32_le_at(data.as_slice(), 0);
        let count = count_u32 as usize;
        if (data.len() as u64) < 0x54u64 + (count as u64) * 40u64 {
            return Err(PodError::Truncated);
        }
        assert(dir_complete(data@));
        let dlen = data.len();
        let mut files: Vec<FileEnt> = Vec::new();
        let mut k: usize = 0;
        while k < count
            invariant
                k <= count,
                count == dir_count(data@),
                dir_complete(data@),
                dlen == data@.len(),
                0x54 + count * 40 <= dlen,
                files@.len() == k,
                forall|i: int| 0 <= i < k ==> (#[trigger] files@[i])@ == spec_entry(data@, i),
                forall|i: int| 0 <= i < k ==> (#[trigger] files@[i]).name.wf(),
                forall|i: int| 0 <= i < k ==> has_nul(#[trigger] raw_name_field(data@, i)),
            decreases count - k,
        {
            let base = 0x54 + k * 40;
            let s = data.as_slice();
            let name_field = &s[base..base + 32];
            proof {
                assert(name_field@ =~= raw_name_field(data@, k as int));
            }
            if find_nul(name_field).is_none() {
                proof {
                    assert(!has_nul(raw_name_field(data@, k as int)));
                }
                return Err(PodError::BadHeader);
            }
            let name_vec = vstd::slice::slice_to_vec(name_field);
            let name = CStrBuf::new(name_vec);
            let size = u32_le_at(s, base + 32);
            let offset = u32_le_at(s, base + 36);
            let ent = FileEnt { name, size, offset };
            proof {
                assert(ent@ == spec_entry(data@, k as int)) by {
                    assert(data@.subrange(base as int + 32, base as int + 36) =~= data@.subrange(
                        entry_base(k as int) + 32,
                        entry_base(k as int) + 36,
                    ));
                    assert(data@.subrange(base as int + 36, base as int + 40) =~= data@.subrange(
                        entry_base(k as int) + 36,
                        entry_base(k as int) + 40,
                    ));
                }
            }
            files.push(ent);
            k += 1;
        }
        proof {
            assert(views(files@) =~= spec_entries(data@));
            assert(dir_names_ok(data@));
        }
        sort_entries(&mut files);
        Ok(PodArchive { data, files })
    }
}

/// Insertion sort of the directory by byte-wise lexicographic name order.
#[verifier::rlimit(100)]
fn sort_entries(files: &mut Vec<FileEnt>)
    requires
        forall|i: int| 0 <= i < old(files)@.len() ==> (#[trigger] old(files)@[i]).name.wf(),
    ensures
        final(files)@.len() == old(files)@.len(),
        forall|i: int| 0 <= i < final(files)@.len() ==> (#[trigger] final(files)@[i]).name.wf(),
        entries_sorted(views(final(files)@)),
        views(final(files)@).to_multiset() == views(old(files)@).to_multiset(),
{
    let ghost orig = views(old(files)@);
    let mut i: usize = if files.len() == 0 { 0 } else { 1 };
    while i < files.len()
        invariant
            i <= files@.len(),
            files@.len() == 0 ==> i == 0,
            files@.len() == old(files)@.len(),
            forall|a: int| 0 <= a < files@.len() ==> (#[trigger] files@[a]).name.wf(),
            entries_sorted(views(files@).take(i as int)),
            views(files@).to_multiset() == orig.to_multiset(),
        decreases files@.len() - i,
    {
        let ghost before = views(files@);
        let e = files.remove(i);
        proof {
            assert(views(files@) =~= before.remove(i as int));
            vstd::seq_lib::to_multiset_remove(before, i as int);
            assert(views(files@).take(i as int) =~= before.take(i as int));
        }
        // binary search for the insertion point in the sorted prefix
        let mut l: usize = 0;
        let mut r: usize = i;
        while l < r
            invariant
                l <= r <= i,
                i < before.len(),
                files@.len() == before.len() - 1,
                views(files@) == before.remove(i as int),
                e@ == before[i as int],
                forall|a: int| 0 <= a < files@.len() ==> (#[trigger] files@[a]).name.wf(),
                e.name.wf(),
                entries_sorted(views(files@).take(i as int)),
                forall|m: int| 0 <= m < l ==> lex_le(#[trigger] views(files@)[m].name, e@.name),
                forall|m: int| r <= m < i ==> lex_lt(e@.name, #[trigger] views(files@)[m].name),
            decreases r - l,
        {
            let mid = l + (r - l) / 2;
            let c = lex_cmp(files[mid].name.as_bytes(), e.name.as_bytes());
            if c == 1 {
                proof {
                    let es = views(files@);
                    let t = es.take(i as int);
                    assert forall|m: int| mid <= m < i implies lex_lt(
                        e@.name,
                        #[trigger] es[m].name,
                    ) by {
                        if m > mid {
                            assert(t[mid as int] == es[mid as int]);
                            assert(t[m] == es[m]);
                            assert(lex_le(t[mid as int].name, t[m].name));
                            if es[mid as int].name == es[m].name {
                            } else {
                                lemma_lex_transitive(e@.name, es[mid as int].name, es[m].name);
                            }
                        }
                    }
                }
                r = mid;
            } else {
                proof {
                    let es = views(files@);
                    let t = es.take(i as int);
                    assert(lex_le(es[mid as int].name, e@.name));
                    assert forall|m: int| 0 <= m <= mid implies lex_le(
                        #[trigger] es[m].name,
                        e@.name,
                    ) by {
                        if m < mid {
                            assert(t[m] == es[m]);
                            assert(t[mid as int] == es[mid as int]);
                            assert(lex_le(t[m].name, t[mid as int].name));
                            if es[mid as int].name == e@.name {
                            } else if es[m].name == es[mid as int].name {
                            } else {
                                lemma_lex_transitive(es[m].name, es[mid as int].name, e@.name);
                            }
                        }
                    }
                }
                l = mid + 1;
            }
        }
        let ghost mid_state = views(files@);
        files.insert(l, e);
        proof {
            broadcast use vstd::multiset::group_multiset_axioms;

            let ins = mid_state.insert(l as int, e@);
            mid_state.insert_ensures(l as int, e@);
            assert(views(files@) =~= ins);
            vstd::seq_lib::to_multiset_insert(mid_state, l as int, e@);
            vstd::seq_lib::to_multiset_contains(before, before[i as int]);
            assert(before.contains(before[i as int]));
            assert(views(files@).to_multiset() =~= before.to_multiset());
            let t0 = before.take(i as int);
            assert forall|a: int, b: int| 0 <= a < b < i + 1 implies lex_le(
                #[trigger] ins[a].name,
                #[trigger] ins[b].name,
            ) by {
                // mid_state agrees with the sorted prefix of `before`
                assert(forall|m: int| 0 <= m < i ==> #[trigger] mid_state[m] == t0[m]);
                if a == l && b > l {
                    assert(ins[b] == mid_state[b - 1]);
                    assert(lex_lt(e@.name, mid_state[b - 1].name));
                } else if b == l {
                    assert(ins[a] == mid_state[a]);
                    assert(lex_le(mid_state[a].name, e@.name));
                } else if a != l && b != l {
                    let a0: int = if a < l { a } else { a - 1 };
                    let b0: int = if b < l { b } else { b - 1 };
                    assert(ins[a] == mid_state[a0]);
                    assert(ins[b] == mid_state[b0]);
                    assert(lex_le(t0[a0].name, t0[b0].name));
                }
            }
            let t1 = views(files@).take(i as int + 1);
            assert forall|a: int, b: int| 0 <= a < b < t1.len() implies lex_le(
                #[trigger] t1[a].name,
                #[trigger] t1[b].name,
            ) by {
                assert(t1[a] == ins[a]);
                assert(t1[b] == ins[b]);
            }
        }
        i += 1;
    }
    proof {
        if files@.len() <= 1 {
            assert(entries_sorted(views(files@)));
        } else {
            assert(views(files@).take(files@.len() as int) =~= views(files@));
        }
    }
}


/// The flat name an entry stored for `dir`'s member `file`: the directory
/// name, a backslash, and the file name.
pub open spec fn dir_key(dir: Seq<u8>, file: Seq<u8>) -> Seq<u8> {
    dir + seq![92u8] + file
}

impl PodArchive {
    /// Number of members in the directory.
    pub fn len(&self) -> (r: usize)
        ensures
            r == self.entries().len(),
    {
        self.files.len()
    }

    fn make_handle<'s>(&'s self, idx: usize) -> (r: FileHandle<'s>)
        requires
            idx < self.entries().len(),
        ensures
            r.wf(),
            self.fresh_handle(r, self.entries()[idx as int]),
    {
        let off = self.files[idx].offset as usize;
        let size = self.files[idx].size as usize;
        let dlen = self.data.len();
        let start = if off > dlen { dlen } else { off };
        let avail = dlen - start;
        let take = if size < avail { size } else { avail };
        let slice = vstd::slice::slice_subrange(self.data.as_slice(), start, start + take);
        proof {
            let e = self.entries()[idx as int];
            assert(e == self.files@[idx as int]@);
            assert(slice@ =~= member_bytes(self.raw(), e));
        }
        FileHandle { data: slice, pos: 0, declared: size }
    }

    /// Looks a member up by its exact stored name: binary search over the
    /// sorted directory. Succeeds if and only if some entry carries the
    /// name, and then hands back a fresh bounded handle onto that member.
    pub fn open_file<'s>(&'s self, path: &[u8]) -> (r: Result<FileHandle<'s>, PodError>)
        requires
            self.wf(),
        ensures
            match r {
                Ok(h) => h.wf() && exists|i: int|
                    0 <= i < self.entries().len() && (#[trigger] self.entries()[i]).name == path@
                        && self.fresh_handle(h, self.entries()[i]),
                Err(e) => e == PodError::NotFound && forall|i: int|
                    0 <= i < self.entries().len() ==> (#[trigger] self.entries()[i]).name
                        != path@,
            },
    {
        let ghost es = self.entries();
        let mut lo: usize = 0;
        let mut hi: usize = self.files.len();
        while lo < hi
            invariant
                self.wf(),
                es == self.entries(),
                lo <= hi <= es.len(),
                es.len() == self.files@.len(),
                forall|i: int| 0 <= i < lo ==> lex_lt((#[trigger] es[i]).name, path@),
                forall|i: int| hi <= i < es.len() ==> lex_lt(path@, (#[trigger] es[i]).name),
            decreases hi - lo,
        {
            let mid = lo + (hi - lo) / 2;
            proof {
                assert(self.files@[mid as int].name.wf());
                assert(es[mid as int] == self.files@[mid as int]@);
            }
            let c = lex_cmp(self.files[mid].name.as_bytes(), path);
            if c == 0 {
                let h = self.make_handle(mid);
                proof {
                    assert(es[mid as int].name == path@);
                }
                return Ok(h);
            } else if c == -1 {
                proof {
                    assert forall|i: int| 0 <= i < mid + 1 implies lex_lt(
                        (#[trigger] es[i]).name,
                        path@,
                    ) by {
                        if i < mid {
                            assert(lex_le(es[i].name, es[mid as int].name));
                            if es[i].name == es[mid as int].name {
                            } else {
                                lemma_lex_transitive(es[i].name, es[mid as int].name, path@);
                            }
                        }
                    }
                }
                lo = mid + 1;
            } else {
                proof {
                    assert forall|i: int| mid <= i < es.len() implies lex_lt(
                        path@,
                        (#[trigger] es[i]).name,
                    ) by {
                        if i > mid {
                            assert(lex_le(es[mid as int].name, es[i].name));
                            if es[mid as int].name == es[i].name {
                            } else {
                                lemma_lex_transitive(path@, es[mid as int].name, es[i].name);
                            }
                        }
                    }
                }
                hi = mid;
            }
        }
        proof {
            assert forall|i: int| 0 <= i < es.len() implies (#[trigger] es[i]).name != path@ by {
                if es[i].name == path@ {
                    if i < lo {
                        lemma_lex_irreflexive(path@);
                    } else {
                        lemma_lex_irreflexive(path@);
                    }
                }
            }
        }
        Err(PodError::NotFound)
    }

    /// Looks a member up as `dir\\file` without materializing a separate
    /// index: narrows a contiguous directory range one key byte at a time,
    /// binary-searching the range for the run of names that continue the
    /// matched prefix with the next byte. Succeeds if and only if some
    /// entry's whole name equals the synthesized key.
    pub fn open_dir_file<'s>(&'s self, dir: &[u8], file: &[u8]) -> (r: Result<
        FileHandle<'s>,
        PodError,
    >)
        requires
            self.wf(),
        ensures
            match r {
                Ok(h) => h.wf() && exists|i: int|
                    0 <= i < self.entries().len() && (#[trigger] self.entries()[i]).name
                        == dir_key(dir@, file@) && self.fresh_handle(h, self.entries()[i]),
                Err(e) => e == PodError::NotFound && forall|i: int|
                    0 <= i < self.entries().len() ==> (#[trigger] self.entries()[i]).name
                        != dir_key(dir@, file@),
            },
    {
        let ghost es = self.entries();
        // synthesize the key
        let mut key: Vec<u8> = Vec::new();
        let mut di: usize = 0;
        while di < dir.len()
            invariant
                di <= dir@.len(),
                key@ == dir@.take(di as int),
            decreases dir@.len() - di,
        {
            key.push(dir[di]);
            proof {
                assert(key@ =~= dir@.take(di as int + 1));
            }
            di += 1;
        }
        proof {
            assert(key@ =~= dir@);
        }
        key.push(92);
        let mut fi: usize = 0;
        while fi < file.len()
            invariant
                fi <= file@.len(),
                key@ == dir@ + seq![92u8] + file@.take(fi as int),
            decreases file@.len() - fi,
        {
            key.push(file[fi]);
            proof {
                assert(key@ =~= dir@ + seq![92u8] + file@.take(fi as int + 1));
            }
            fi += 1;
        }
        proof {
            assert(key@ =~= dir_key(dir@, file@));
        }

        // narrow [lo, hi) to the names that extend the matched prefix
        let mut lo: usize = 0;
        let mut hi: usize = self.files.len();
        let mut ofs: usize = 0;
        proof {
            assert forall|i: int| 0 <= i < es.len() implies is_prefix(
                key@.take(0),
                (#[trigger] es[i]).name,
            ) by {
                assert(es[i].name.subrange(0, 0) =~= key@.take(0));
            }
        }
        while ofs < key.len()
            invariant
                self.wf(),
                es == self.entries(),
                es.len() == self.files@.len(),
                key@ == dir_key(dir@, file@),
                lo <= hi <= es.len(),
                ofs <= key@.len(),
                forall|i: int| 0 <= i < es.len() ==> ((lo <= i < hi) <==> is_prefix(
                    key@.take(ofs as int),
                    (#[trigger] es[i]).name,
                )),
            decreases key@.len() - ofs,
        {
            let ghost p = key@.take(ofs as int);
            // names that end exactly at the prefix cannot match a longer
            // key; they sort first in the range
            loop
                invariant
                    self.wf(),
                    es == self.entries(),
                    es.len() == self.files@.len(),
                    lo <= hi <= es.len(),
                    ofs < key@.len(),
                    p == key@.take(ofs as int),
                    p.len() == ofs,
                    forall|i: int| lo <= i < hi ==> is_prefix(
                        p,
                        (#[trigger] es[i]).name,
                    ),
                    forall|i: int| 0 <= i < es.len() && is_prefix(p, (#[trigger] es[i]).name)
                        && es[i].name.len() > p.len() ==> lo <= i < hi,
                ensures
                    lo <= hi,
                    lo < hi ==> es[lo as int].name.len() != ofs,
                    forall|i: int| lo <= i < hi ==> is_prefix(
                        p,
                        (#[trigger] es[i]).name,
                    ),
                    forall|i: int| 0 <= i < es.len() && is_prefix(p, (#[trigger] es[i]).name)
                        && es[i].name.len() > p.len() ==> lo <= i < hi,
                decreases hi - lo,
            {
                if lo >= hi {
                    break;
                }
                proof {
                    assert(self.files@[lo as int].name.wf());
                    assert(es[lo as int] == self.files@[lo as int]@);
                }
                let nb = self.files[lo].name.as_bytes();
                if nb.len() != ofs {
                    break;
                }
                proof {
                    // this name is exactly the prefix, shorter than the key
                    assert(es[lo as int].name =~= p);
                }
                lo += 1;
            }
            if lo >= hi {
                // nothing extends the prefix: the key matches no name
                proof {
                    assert forall|i: int| 0 <= i < es.len() implies (#[trigger] es[i]).name
                        != key@ by {
                        if es[i].name == key@ {
                            assert(is_prefix(p, es[i].name)) by {
                                assert(key@.take(ofs as int) =~= es[i].name.subrange(
                                    0,
                                    ofs as int,
                                ));
                            }
                            assert(es[i].name.len() > p.len());
                        }
                    }
                }
                return Err(PodError::NotFound);
            }
            // every name left in the range continues past the prefix
            let ghost plen = p.len();
            proof {
                assert(es[lo as int].name.len() >= plen);
                assert(es[lo as int].name.len() > plen);
            }
            assert forall|i: int| lo <= i < hi implies (#[trigger] es[i]).name.len()
                > plen by {
                if es[i].name.len() == plen {
                    assert(es[i].name =~= p);
                    lemma_lex_proper_prefix(p, es[lo as int].name);
                    let t = es;
                    assert(lex_le(t[lo as int].name, t[i].name));
                    lemma_lex_asymmetric(p, es[lo as int].name);
                }
            }
            // bytes at the prefix length are sorted within the range
            assert forall|i: int, j: int| lo <= i < j < hi implies
                (#[trigger] es[i]).name[plen as int] <= (#[trigger] es[j]).name[plen as int] by {
                if es[i].name[plen as int] > es[j].name[plen as int] {
                    lemma_lex_at_byte(p, es[j].name, es[i].name);
                    assert(lex_le(es[i].name, es[j].name));
                    lemma_lex_asymmetric(es[j].name, es[i].name);
                }
            }
            let b = key[ofs];
            // first name whose byte reaches b
            let mut l: usize = lo;
            let mut r: usize = hi;
            while l < r
                invariant
                    self.wf(),
                    es == self.entries(),
                    es.len() == self.files@.len(),
                    lo <= l <= r <= hi <= es.len(),
                    plen == ofs,
                    forall|i: int| lo <= i < hi ==> is_prefix(p, (#[trigger] es[i]).name)
                        && es[i].name.len() > plen,
                    forall|i: int, j: int| lo <= i < j < hi ==> (#[trigger] es[i]).name[plen as int]
                        <= (#[trigger] es[j]).name[plen as int],
                    forall|i: int| lo <= i < l ==> (#[trigger] es[i]).name[plen as int] < b,
                    forall|i: int| r <= i < hi ==> (#[trigger] es[i]).name[plen as int] >= b,
                decreases r - l,
            {
                let mid = l + (r - l) / 2;
                proof {
                    assert(self.files@[mid as int].name.wf());
                    assert(es[mid as int] == self.files@[mid as int]@);
                }
                let nb = self.files[mid].name.as_bytes();
                proof {
                    assert(nb@.len() > plen);
                }
                if nb[ofs] < b {
                    l = mid + 1;
                } else {
                    r = mid;
                }
            }
            let new_lo = l;
            // first name whose byte passes b
            let mut l2: usize = new_lo;
            let mut r2: usize = hi;
            while l2 < r2
                invariant
                    self.wf(),
                    es == self.entries(),
                    es.len() == self.files@.len(),
                    lo <= new_lo <= l2 <= r2 <= hi <= es.len(),
                    plen == ofs,
                    forall|i: int| lo <= i < hi ==> is_prefix(p, (#[trigger] es[i]).name)
                        && es[i].name.len() > plen,
                    forall|i: int, j: int| lo <= i < j < hi ==> (#[trigger] es[i]).name[plen as int]
                        <= (#[trigger] es[j]).name[plen as int],
                    forall|i: int| new_lo <= i < l2 ==> (#[trigger] es[i]).name[plen as int] <= b,
                    forall|i: int| r2 <= i < hi ==> (#[trigger] es[i]).name[plen as int] > b,
                decreases r2 - l2,
            {
                let mid = l2 + (r2 - l2) / 2;
                proof {
                    assert(self.files@[mid as int].name.wf());
                    assert(es[mid as int] == self.files@[mid as int]@);
                }
                let nb = self.files[mid].name.as_bytes();
                proof {
                    assert(nb@.len() > plen);
                }
                if nb[ofs] <= b {
                    l2 = mid + 1;
                } else {
                    r2 = mid;
                }
            }
            let new_hi = l2;
            // the new range is exactly the run that continues with byte b
            proof {
                let p1 = key@.take(ofs as int + 1);
                assert(p1 =~= p.push(b));
                assert forall|i: int| 0 <= i < es.len() implies ((new_lo <= i < new_hi)
                    <==> is_prefix(p1, (#[trigger] es[i]).name)) by {
                    if new_lo <= i < new_hi {
                        assert(es[i].name[plen as int] >= b);
                        assert(es[i].name[plen as int] <= b);
                        assert(es[i].name.subrange(0, plen as int + 1) =~= p.push(b));
                    } else {
                        if is_prefix(p1, es[i].name) {
                            assert(is_prefix(p, es[i].name)) by {
                                assert(es[i].name.subrange(0, plen as int) =~= p1.take(
                                    plen as int,
                                ));
                                assert(p1.take(plen as int) =~= p);
                            }
                            assert(es[i].name.len() > plen);
                            assert(lo <= i < hi);
                            assert(es[i].name[plen as int] == p1[plen as int]) by {
                                assert(es[i].name.subrange(0, plen as int + 1)[plen as int]
                                    == es[i].name[plen as int]);
                            }
                            assert(es[i].name[plen as int] == b);
                            assert(new_lo <= i);
                            assert(i < new_hi);
                            assert(false);
                        }
                    }
                }
            }
            lo = new_lo;
            hi = new_hi;
            ofs += 1;
        }
        // the prefix is the whole key; an exact match has exactly its length
        proof {
            assert(key@.take(ofs as int) =~= key@);
        }
        if lo < hi {
            proof {
                assert(self.files@[lo as int].name.wf());
                assert(es[lo as int] == self.files@[lo as int]@);
            }
            let nb = self.files[lo].name.as_bytes();
            if nb.len() == key.len() {
                proof {
                    assert(es[lo as int].name =~= key@);
                }
                let h = self.make_handle(lo);
                return Ok(h);
            }
            proof {
                assert(es[lo as int].name.len() != key@.len());
                assert forall|i: int| 0 <= i < es.len() implies (#[trigger] es[i]).name
                    != key@ by {
                    if es[i].name == key@ {
                        assert(lo <= i < hi);
                        assert(i > lo || i == lo);
                        if i == lo {
                        } else {
                            lemma_lex_proper_prefix(key@, es[lo as int].name);
                            assert(lex_le(es[lo as int].name, es[i].name));
                            lemma_lex_asymmetric(key@, es[lo as int].name);
                        }
                    }
                }
            }
            return Err(PodError::NotFound);
        }
        proof {
            assert forall|i: int| 0 <= i < es.len() implies (#[trigger] es[i]).name != key@ by {
                if es[i].name == key@ {
                    assert(is_prefix(key@, es[i].name)) by {
                        assert(es[i].name.subrange(0, key@.len() as int) =~= key@);
                    }
                }
            }
        }
        Err(PodError::NotFound)
    }
}

/// Law: a directory with unique names (what a valid archive guarantees)
/// matches any name at no more than one entry, so the exact-name lookup
/// and the directory+file lookup, handed equivalent names, resolve to the
/// same member.
pub proof fn lemma_lookup_agreement(es: Seq<EntrySpec>, i: int, j: int)
    requires
        unique_names(es),
        0 <= i < es.len(),
        0 <= j < es.len(),
        es[i].name == es[j].name,
    ensures
        i == j,
        es[i] == es[j],
{
}

/// Law: querying a unique-names directory with a stored name matches that
/// entry and no other.
pub proof fn lemma_round_trip(es: Seq<EntrySpec>, k: int, j: int)
    requires
        unique_names(es),
        0 <= k < es.len(),
        0 <= j < es.len(),
        j != k,
    ensures
        es[j].name != es[k].name,
{
}

/// Law: a well-formed handle's cursor — the count of bytes it has yielded
/// across all reads so far — never exceeds the declared member size, and
/// `read` keeps it that way.
pub proof fn lemma_handle_bounded(h: FileHandle)
    requires
        h.wf(),
    ensures
        0 <= h.cursor() <= h.declared_size(),
{
}

} // verus!
