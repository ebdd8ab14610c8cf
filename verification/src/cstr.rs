use vstd::prelude::*;

use crate::error::PodError;
use crate::pod_file::FileHandle;

verus! {

/// The byte string holds at least one nul terminator.
pub open spec fn has_nul(s: Seq<u8>) -> bool {
    exists|i: int| 0 <= i < s.len() && s[i] == 0
}

/// Index of the first nul byte; the whole length when there is none.
pub open spec fn nul_pos(s: Seq<u8>) -> int
    decreases s.len(),
{
    if s.len() == 0 {
        0
    } else if s[0] == 0 {
        0
    } else {
        1 + nul_pos(s.skip(1))
    }
}

/// The bytes before the first nul terminator: the name a fixed-size
/// nul-terminated field stores.
pub open spec fn until_nul(s: Seq<u8>) -> Seq<u8> {
    s.take(nul_pos(s))
}

pub proof fn lemma_nul_pos(s: Seq<u8>)
    ensures
        0 <= nul_pos(s) <= s.len(),
        forall|i: int| 0 <= i < nul_pos(s) ==> s[i] != 0,
        nul_pos(s) < s.len() ==> s[nul_pos(s)] == 0,
        has_nul(s) <==> nul_pos(s) < s.len(),
    decreases s.len(),
{
    if s.len() == 0 {
        assert(!has_nul(s));
    } else if s[0] == 0 {
    } else {
        let t = s.skip(1);
        lemma_nul_pos(t);
        assert forall|i: int| 0 <= i < nul_pos(s) implies s[i] != 0 by {
            if i >= 1 {
                assert(t[i - 1] != 0);
            }
        }
        if nul_pos(s) < s.len() {
            assert(t[nul_pos(s) - 1] == 0);
        }
        if has_nul(s) {
            let w = choose|w: int| 0 <= w < s.len() && s[w] == 0;
            assert(w >= 1);
            assert(t[w - 1] == 0);
            assert(has_nul(t));
        }
        if has_nul(t) {
            let w = choose|w: int| 0 <= w < t.len() && t[w] == 0;
            assert(s[w + 1] == 0);
            assert(has_nul(s));
        }
    }
}

/// Position of the first nul byte of a buffer, when there is one.
pub fn find_nul(data: &[u8]) -> (r: Option<usize>)
    ensures
        match r {
            Some(i) => has_nul(data@) && i as int == nul_pos(data@) && i < data@.len(),
            None => !has_nul(data@),
        },
{
    proof {
        lemma_nul_pos(data@);
    }
    let mut i: usize = 0;
    while i < data.len()
        invariant
            i <= data@.len(),
            forall|j: int| 0 <= j < i ==> data@[j] != 0,
        decreases data@.len() - i,
    {
        if data[i] == 0 {
            proof {
                lemma_nul_pos(data@);
                assert(has_nul(data@));
                if nul_pos(data@) < i {
                    assert(data@[nul_pos(data@)] == 0);
                    assert(false);
                }
            }
            return Some(i);
        }
        i += 1;
    }
    proof {
        if has_nul(data@) {
            let w = choose|w: int| 0 <= w < data@.len() && data@[w] == 0;
            assert(data@[w] != 0);
        }
    }
    None
}

/// What a short read of an `n`-byte name field leaves in the buffer: the
/// bytes that were available, padded to `n` with nul bytes.
pub open spec fn padded_field(s: Seq<u8>, pos: int, n: int) -> Seq<u8> {
    let got = s.subrange(pos, vstd::math::min(pos + n, s.len() as int));
    got + Seq::new((n - got.len()) as nat, |i: int| 0u8)
}

/// A fixed-size byte buffer holding a nul-terminated name; its view is the
/// name before the first nul.
pub struct CStrBuf {
    buf: Vec<u8>,
}

impl View for CStrBuf {
    type V = Seq<u8>;

    closed spec fn view(&self) -> Seq<u8> {
        until_nul(self.buf@)
    }
}

impl CStrBuf {
    /// The whole underlying buffer, terminator and tail included.
    pub closed spec fn raw(&self) -> Seq<u8> {
        self.buf@
    }

    pub open spec fn wf(&self) -> bool {
        has_nul(self.raw())
    }

    /// Wraps a buffer that holds at least one nul terminator.
    pub fn new(buf: Vec<u8>) -> (r: CStrBuf)
        requires
            has_nul(buf@),
        ensures
            r.wf(),
            r.raw() == buf@,
            r@ == until_nul(buf@),
    {
        CStrBuf { buf }
    }

    /// Reads an `n`-byte name field from the handle; when the member ends
    /// early the tail of the field is taken as nul bytes. Fails when the
    /// field carries no terminator at all.
    pub fn read_from_file(fh: &mut FileHandle, n: usize) -> (r: Result<CStrBuf, PodError>)
        requires
            old(fh).wf(),
        ensures
            final(fh).wf(),
            final(fh).contents() == old(fh).contents(),
            final(fh).declared_size() == old(fh).declared_size(),
            final(fh).cursor() == vstd::math::min(
                old(fh).cursor() + n,
                old(fh).contents().len() as int,
            ),
            ({
                let field = padded_field(old(fh).contents(), old(fh).cursor(), n as int);
                match r {
                    Ok(c) => has_nul(field) && c.wf() && c.raw() == field,
                    Err(e) => e == PodError::BadHeader && !has_nul(field),
                }
            }),
    {
        let mut buf = fh.read(n);
        proof {
            let field = padded_field(old(fh).contents(), old(fh).cursor(), n as int);
            assert(buf@ =~= field.take(buf@.len() as int));
        }
        while buf.len() < n
            invariant
                buf@ == padded_field(old(fh).contents(), old(fh).cursor(), n as int).take(
                    buf@.len() as int,
                ),
                buf@.len() <= n,
                old(fh).contents().subrange(
                    old(fh).cursor(),
                    vstd::math::min(old(fh).cursor() + n, old(fh).contents().len() as int),
                ).len() <= buf@.len(),
                padded_field(old(fh).contents(), old(fh).cursor(), n as int).len() == n,
            decreases n - buf@.len(),
        {
            buf.push(0);
            proof {
                let field = padded_field(old(fh).contents(), old(fh).cursor(), n as int);
                let got = old(fh).contents().subrange(
                    old(fh).cursor(),
                    vstd::math::min(old(fh).cursor() + n, old(fh).contents().len() as int),
                );
                let j = buf@.len() - 1;
                assert(field[j] == Seq::new((n - got.len()) as nat, |i: int| 0u8)[j - got.len()]);
                assert(field[j] == 0);
                assert(buf@ =~= field.take(buf@.len() as int));
            }
        }
        proof {
            let field = padded_field(old(fh).contents(), old(fh).cursor(), n as int);
            assert(buf@ =~= field);
        }
        match find_nul(buf.as_slice()) {
            Some(_) => Ok(CStrBuf { buf }),
            None => Err(PodError::BadHeader),
        }
    }

    /// The name: the bytes before the first nul.
    pub fn as_bytes(&self) -> (r: &[u8])
        requires
            self.wf(),
        ensures
            r@ == self@,
    {
        proof {
            lemma_nul_pos(self.buf@);
        }
        match find_nul(self.buf.as_slice()) {
            Some(i) => {
                let r = vstd::slice::slice_subrange(self.buf.as_slice(), 0, i);
                proof {
                    assert(r@ =~= until_nul(self.buf@));
                }
                r
            },
            None => {
                proof {
                    // wf guarantees a terminator
                    assert(false);
                }
                vstd::slice::slice_subrange(self.buf.as_slice(), 0, 0)
            },
        }
    }

    /// The name together with its terminating nul byte.
    pub fn as_bytes_with_nul(&self) -> (r: &[u8])
        requires
            self.wf(),
        ensures
            r@ == self@.push(0u8),
    {
        proof {
            lemma_nul_pos(self.buf@);
        }
        match find_nul(self.buf.as_slice()) {
            Some(i) => {
                let blen = self.buf.len();
                assert(i < blen);
                let r = vstd::slice::slice_subrange(self.buf.as_slice(), 0, i + 1);
                proof {
                    assert(r@ =~= until_nul(self.buf@).push(0u8));
                }
                r
            },
            None => {
                proof {
                    // wf guarantees a terminator
                    assert(false);
                }
                vstd::slice::slice_subrange(self.buf.as_slice(), 0, 0)
            },
        }
    }
}

} // verus!
