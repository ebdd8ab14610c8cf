use vstd::prelude::*;

verus! {

/// First position of byte `b` in `s`; the length when `b` is absent.
pub open spec fn pos_of(s: Seq<u8>, b: u8) -> int
    decreases s.len(),
{
    if s.len() == 0 {
        0
    } else if s[0] == b {
        0
    } else {
        1 + pos_of(s.skip(1), b)
    }
}

pub proof fn lemma_pos_of(s: Seq<u8>, b: u8)
    ensures
        0 <= pos_of(s, b) <= s.len(),
        forall|i: int| 0 <= i < pos_of(s, b) ==> s[i] != b,
        pos_of(s, b) < s.len() ==> s[pos_of(s, b)] == b,
    decreases s.len(),
{
    if s.len() > 0 && s[0] != b {
        let t = s.skip(1);
        lemma_pos_of(t, b);
        assert forall|i: int| 0 <= i < pos_of(s, b) implies s[i] != b by {
            if i >= 1 {
                assert(t[i - 1] != b);
            }
        }
        if pos_of(s, b) < s.len() {
            assert(t[pos_of(s, b) - 1] == b);
        }
    }
}

/// `s` split at every occurrence of `b`: always one more piece than
/// separators, so the empty string yields one empty piece.
pub open spec fn split_byte(s: Seq<u8>, b: u8) -> Seq<Seq<u8>>
    decreases s.len(),
    via split_byte_decreases
{
    let p = pos_of(s, b);
    if p < s.len() {
        seq![s.take(p)] + split_byte(s.skip(p + 1), b)
    } else {
        seq![s]
    }
}

#[via_fn]
proof fn split_byte_decreases(s: Seq<u8>, b: u8) {
    lemma_pos_of(s, b);
}

/// First position of a CR LF pair; the length when there is none.
pub open spec fn crlf_pos(s: Seq<u8>) -> int
    decreases s.len(),
{
    if s.len() < 2 {
        s.len() as int
    } else if s[0] == 13 && s[1] == 10 {
        0
    } else {
        1 + crlf_pos(s.skip(1))
    }
}

pub proof fn lemma_crlf_pos(s: Seq<u8>)
    ensures
        0 <= crlf_pos(s) <= s.len(),
        forall|i: int| 0 <= i < crlf_pos(s) && i + 1 < s.len() ==> !((#[trigger] s[i]) == 13
            && s[i + 1] == 10),
        crlf_pos(s) + 2 <= s.len() ==> s[crlf_pos(s)] == 13 && s[crlf_pos(s) + 1] == 10,
        crlf_pos(s) <= s.len() - 2 || crlf_pos(s) >= s.len() - 1,
    decreases s.len(),
{
    if s.len() >= 2 && !(s[0] == 13 && s[1] == 10) {
        let t = s.skip(1);
        lemma_crlf_pos(t);
        assert forall|i: int| 0 <= i < crlf_pos(s) && i + 1 < s.len() implies !((#[trigger] s[i])
            == 13 && s[i + 1] == 10) by {
            if i >= 1 {
                assert(!(t[i - 1] == 13 && t[i] == 10));
            }
        }
        if crlf_pos(s) + 2 <= s.len() {
            assert(t[crlf_pos(s) - 1] == 13 && t[crlf_pos(s)] == 10);
        }
    }
}

/// `s` split at every CR LF pair.
pub open spec fn split_crlf(s: Seq<u8>) -> Seq<Seq<u8>>
    decreases s.len(),
    via split_crlf_decreases
{
    let p = crlf_pos(s);
    if p + 2 <= s.len() {
        seq![s.take(p)] + split_crlf(s.skip(p + 2))
    } else {
        seq![s]
    }
}

#[via_fn]
proof fn split_crlf_decreases(s: Seq<u8>) {
    lemma_crlf_pos(s);
}

/// ASCII whitespace, as the line parser trims it from line ends.
pub open spec fn is_ws(b: u8) -> bool {
    b == 9 || b == 10 || b == 11 || b == 12 || b == 13 || b == 32
}

/// Length of `s` once trailing whitespace is removed.
pub open spec fn trimmed_len(s: Seq<u8>) -> int
    decreases s.len(),
{
    if s.len() == 0 {
        0
    } else if is_ws(s.last()) {
        trimmed_len(s.drop_last())
    } else {
        s.len() as int
    }
}

/// `s` without its trailing whitespace.
pub open spec fn trim_end(s: Seq<u8>) -> Seq<u8> {
    s.take(trimmed_len(s))
}

pub proof fn lemma_trimmed_len(s: Seq<u8>)
    ensures
        0 <= trimmed_len(s) <= s.len(),
        forall|i: int| trimmed_len(s) <= i < s.len() ==> is_ws(s[i]),
        trimmed_len(s) > 0 ==> !is_ws(s[trimmed_len(s) - 1]),
    decreases s.len(),
{
    if s.len() > 0 && is_ws(s.last()) {
        lemma_trimmed_len(s.drop_last());
        assert forall|i: int| trimmed_len(s) <= i < s.len() implies is_ws(s[i]) by {
            if i < s.len() - 1 {
                assert(is_ws(s.drop_last()[i]));
            }
        }
        if trimmed_len(s) > 0 {
            assert(!is_ws(s.drop_last()[trimmed_len(s) - 1]));
        }
    }
}

/// Splits a byte string at every occurrence of `b`.
pub fn split_byte_vec(data: &[u8], b: u8) -> (r: Vec<Vec<u8>>)
    ensures
        r@.map_values(|v: Vec<u8>| v@) == split_byte(data@, b),
{
    let mut out: Vec<Vec<u8>> = Vec::new();
    let mut start: usize = 0;
    proof {
        assert(data@.skip(0) =~= data@);
        assert(out@.map_values(|v: Vec<u8>| v@) + split_byte(data@, b) =~= split_byte(data@, b));
    }
    loop
        invariant
            start <= data@.len(),
            split_byte(data@, b) == out@.map_values(|v: Vec<u8>| v@) + split_byte(
                data@.skip(start as int),
                b,
            ),
        decreases data@.len() - start,
    {
        let ghost rest = data@.skip(start as int);
        // scan for the next separator
        let mut i: usize = start;
        while i < data.len() && data[i] != b
            invariant
                start <= i <= data@.len(),
                forall|j: int| start <= j < i ==> data@[j] != b,
            decreases data@.len() - i,
        {
            i += 1;
        }
        proof {
            lemma_pos_of(rest, b);
            assert forall|j: int| 0 <= j < i - start implies rest[j] != b by {
                assert(data@[start + j] != b);
            }
            if i < data@.len() {
                assert(rest[i - start] == b);
                if pos_of(rest, b) < i - start {
                    assert(rest[pos_of(rest, b)] != b);
                    assert(false);
                }
                assert(pos_of(rest, b) == i - start);
            } else {
                if pos_of(rest, b) < rest.len() {
                    assert(rest[pos_of(rest, b)] != b);
                    assert(false);
                }
                assert(pos_of(rest, b) == rest.len());
            }
        }
        let piece = vstd::slice::slice_to_vec(vstd::slice::slice_subrange(data, start, i));
        proof {
            assert(piece@ =~= rest.take(pos_of(rest, b)));
        }
        if i < data.len() {
            out.push(piece);
            proof {
                let p = pos_of(rest, b);
                assert(rest.skip(p + 1) =~= data@.skip(i + 1));
                assert(split_byte(rest, b) == seq![rest.take(p)] + split_byte(
                    data@.skip(i + 1),
                    b,
                ));
                assert(out@.map_values(|v: Vec<u8>| v@) =~= out@.map_values(
                    |v: Vec<u8>| v@,
                ).subrange(0, out@.len() - 1) + seq![piece@]);
                assert(out@.map_values(|v: Vec<u8>| v@).subrange(0, out@.len() - 1) + seq![
                    rest.take(p),
                ] + split_byte(data@.skip(i + 1), b) =~= out@.map_values(|v: Vec<u8>| v@)
                    + split_byte(data@.skip(i + 1), b));
            }
            start = i + 1;
        } else {
            proof {
                assert(piece@ =~= rest);
                assert(rest.take(pos_of(rest, b)) =~= rest);
                assert(split_byte(rest, b) == seq![rest]);
            }
            out.push(piece);
            proof {
                assert(out@.map_values(|v: Vec<u8>| v@) =~= out@.map_values(
                    |v: Vec<u8>| v@,
                ).subrange(0, out@.len() - 1) + seq![rest]);
            }
            return out;
        }
    }
}

/// Splits a byte string at every CR LF pair.
pub fn split_crlf_vec(data: &[u8]) -> (r: Vec<Vec<u8>>)
    ensures
        r@.map_values(|v: Vec<u8>| v@) == split_crlf(data@),
{
    let mut out: Vec<Vec<u8>> = Vec::new();
    let mut start: usize = 0;
    proof {
        assert(data@.skip(0) =~= data@);
        assert(out@.map_values(|v: Vec<u8>| v@) + split_crlf(data@) =~= split_crlf(data@));
    }
    loop
        invariant
            start <= data@.len(),
            split_crlf(data@) == out@.map_values(|v: Vec<u8>| v@) + split_crlf(
                data@.skip(start as int),
            ),
        decreases data@.len() - start,
    {
        let ghost rest = data@.skip(start as int);
        // scan for the next CR LF
        let mut i: usize = start;
        loop
            invariant
                start <= i,
                i <= data@.len(),
                forall|j: int| start <= j < i && j + 1 < data@.len() ==> !((#[trigger] data@[j])
                    == 13 && data@[j + 1] == 10),
            ensures
                start <= i <= data@.len(),
                forall|j: int| start <= j < i && j + 1 < data@.len() ==> !((#[trigger] data@[j])
                    == 13 && data@[j + 1] == 10),
                i + 1 < data@.len() ==> data@[i as int] == 13 && data@[i as int + 1] == 10,
            decreases data@.len() - i,
        {
            if i >= data.len() {
                break;
            }
            if i + 1 >= data.len() {
                break;
            }
            if data[i] == 13 && data[i + 1] == 10 {
                break;
            }
            i += 1;
        }
        let dlen = data.len();
        let found = i < dlen && dlen - i > 1;
        proof {
            lemma_crlf_pos(rest);
            assert forall|j: int| 0 <= j < i - start && j + 1 < rest.len() implies !((
            #[trigger] rest[j]) == 13 && rest[j + 1] == 10) by {
                assert(!(data@[start + j] == 13 && data@[start + j + 1] == 10));
            }
            if found {
                assert(rest[i - start] == 13 && rest[i - start + 1] == 10);
                if crlf_pos(rest) < i - start {
                    assert(false);
                }
                if crlf_pos(rest) > i - start {
                    assert(false);
                }
                assert(crlf_pos(rest) == i - start);
            } else {
                assert(crlf_pos(rest) + 2 > rest.len());
            }
        }
        if found {
            let piece = vstd::slice::slice_to_vec(vstd::slice::slice_subrange(data, start, i));
            proof {
                assert(piece@ =~= rest.take(crlf_pos(rest)));
            }
            out.push(piece);
            proof {
                let p = crlf_pos(rest);
                assert(rest.skip(p + 2) =~= data@.skip(i + 2));
                assert(split_crlf(rest) == seq![rest.take(p)] + split_crlf(data@.skip(i + 2)));
                assert(out@.map_values(|v: Vec<u8>| v@) =~= out@.map_values(
                    |v: Vec<u8>| v@,
                ).subrange(0, out@.len() - 1) + seq![rest.take(p)]);
                assert(out@.map_values(|v: Vec<u8>| v@).subrange(0, out@.len() - 1) + seq![
                    rest.take(p),
                ] + split_crlf(data@.skip(i + 2)) =~= out@.map_values(|v: Vec<u8>| v@)
                    + split_crlf(data@.skip(i + 2)));
            }
            start = i + 2;
        } else {
            let dlen = data.len();
            let piece = vstd::slice::slice_to_vec(
                vstd::slice::slice_subrange(data, start, dlen),
            );
            proof {
                assert(piece@ =~= rest);
                assert(split_crlf(rest) == seq![rest]);
            }
            out.push(piece);
            proof {
                assert(out@.map_values(|v: Vec<u8>| v@) =~= out@.map_values(
                    |v: Vec<u8>| v@,
                ).subrange(0, out@.len() - 1) + seq![rest]);
            }
            return out;
        }
    }
}

/// Copies `data` without its trailing whitespace.
pub fn trim_end_vec(data: &[u8]) -> (r: Vec<u8>)
    ensures
        r@ == trim_end(data@),
{
    proof {
        lemma_trimmed_len(data@);
    }
    let mut end: usize = data.len();
    loop
        invariant
            end <= data@.len(),
            forall|i: int| end <= i < data@.len() ==> is_ws(data@[i]),
            trimmed_len(data@) <= end,
        ensures
            end <= data@.len(),
            forall|i: int| end <= i < data@.len() ==> is_ws(data@[i]),
            trimmed_len(data@) <= end,
            end == 0 || !is_ws(data@[end - 1]),
        decreases end,
    {
        if end == 0 {
            break;
        }
        let c = data[end - 1];
        if !(c == 9 || c == 10 || c == 11 || c == 12 || c == 13 || c == 32) {
            break;
        }
        proof {
            lemma_trimmed_len(data@);
            if trimmed_len(data@) == end {
                assert(!is_ws(data@[end - 1]));
            }
        }
        end -= 1;
    }
    let r = vstd::slice::slice_to_vec(vstd::slice::slice_subrange(data, 0, end));
    proof {
        lemma_trimmed_len(data@);
        if end > 0 {
            assert(!is_ws(data@[end - 1]));
            if trimmed_len(data@) < end {
                assert(is_ws(data@[end - 1]));
            }
        }
        assert(r@ =~= trim_end(data@));
    }
    r
}


/// Numeric value of ASCII decimal digits, most significant first.
pub open spec fn dec_value(s: Seq<u8>) -> int
    decreases s.len(),
{
    if s.len() == 0 {
        0
    } else {
        dec_value(s.drop_last()) * 10 + (s.last() - 48)
    }
}

pub open spec fn all_digits(s: Seq<u8>) -> bool {
    forall|i: int| 0 <= i < s.len() ==> 48 <= #[trigger] s[i] <= 57
}

/// An unsigned decimal field: digits after an optional plus sign, at
/// least one of them.
pub open spec fn parse_unsigned(s: Seq<u8>) -> Option<int> {
    let d = if s.len() > 0 && s[0] == 43 {
        s.skip(1)
    } else {
        s
    };
    if d.len() > 0 && all_digits(d) {
        Some(dec_value(d))
    } else {
        None
    }
}

/// A signed decimal field: an optional minus or plus sign, then digits.
pub open spec fn parse_signed(s: Seq<u8>) -> Option<int> {
    if s.len() > 0 && s[0] == 45 {
        let d = s.skip(1);
        if d.len() > 0 && all_digits(d) {
            Some(-dec_value(d))
        } else {
            None
        }
    } else {
        parse_unsigned(s)
    }
}

pub proof fn lemma_dec_value_nonneg(s: Seq<u8>)
    requires
        all_digits(s),
    ensures
        dec_value(s) >= 0,
    decreases s.len(),
{
    if s.len() > 0 {
        assert(all_digits(s.drop_last())) by {
            assert(forall|i: int| 0 <= i < s.len() - 1 ==> #[trigger] s.drop_last()[i] == s[i]);
        }
        lemma_dec_value_nonneg(s.drop_last());
    }
}

/// More digits never shrink the value: a prefix of a digit field is worth
/// no more than the whole field.
pub proof fn lemma_dec_value_prefix(s: Seq<u8>, i: int)
    requires
        all_digits(s),
        0 <= i <= s.len(),
    ensures
        dec_value(s.take(i)) <= dec_value(s),
    decreases s.len() - i,
{
    if i == s.len() {
        assert(s.take(i) =~= s);
    } else {
        assert(all_digits(s.take(i))) by {
            assert(forall|j: int| 0 <= j < i ==> #[trigger] s.take(i)[j] == s[j]);
        }
        lemma_dec_value_nonneg(s.take(i));
        assert(s.take(i + 1).drop_last() =~= s.take(i));
        assert(s.take(i + 1).last() == s[i]);
        assert(dec_value(s.take(i + 1)) == dec_value(s.take(i)) * 10 + (s[i] - 48));
        lemma_dec_value_prefix(s, i + 1);
    }
}

/// Parses a bare run of decimal digits, refusing values above `max`.
fn parse_digits_vec(s: &[u8], max: u64) -> (r: Option<u64>)
    ensures
        match r {
            Some(v) => s@.len() > 0 && all_digits(s@) && dec_value(s@) == v && v <= max,
            None => s@.len() == 0 || !all_digits(s@) || dec_value(s@) > max,
        },
{
    let slen = s.len();
    if slen == 0 {
        return None;
    }
    let mut value: u64 = 0;
    let mut i: usize = 0;
    while i < slen
        invariant
            i <= slen,
            slen == s@.len(),
            value <= max,
            forall|j: int| 0 <= j < i ==> 48 <= #[trigger] s@[j] <= 57,
            value == dec_value(s@.take(i as int)),
        decreases slen - i,
    {
        let c = s[i];
        if c < 48 || c > 57 {
            proof {
                assert(!(48 <= s@[i as int] <= 57));
                assert(!all_digits(s@));
            }
            return None;
        }
        let nv: u128 = value as u128 * 10 + (c - 48) as u128;
        proof {
            assert(s@.take(i as int + 1).drop_last() =~= s@.take(i as int));
            assert(s@.take(i as int + 1).last() == s@[i as int]);
        }
        if nv > max as u128 {
            proof {
                if all_digits(s@) {
                    lemma_dec_value_prefix(s@, i as int + 1);
                }
            }
            return None;
        }
        value = nv as u64;
        i += 1;
    }
    proof {
        assert(s@.take(slen as int) =~= s@);
    }
    Some(value)
}

/// Parses an unsigned decimal field, refusing values above `max`.
pub fn parse_unsigned_vec(s: &[u8], max: u64) -> (r: Option<u64>)
    ensures
        match r {
            Some(v) => parse_unsigned(s@) == Some(v as int) && v <= max,
            None => parse_unsigned(s@) is None || parse_unsigned(s@)->Some_0 > max,
        },
{
    let slen = s.len();
    if slen > 0 && s[0] == 43 {
        let digits = vstd::slice::slice_subrange(s, 1, slen);
        proof {
            assert(digits@ =~= s@.skip(1));
        }
        parse_digits_vec(digits, max)
    } else {
        parse_digits_vec(s, max)
    }
}

/// Parses a signed decimal field, refusing values outside `min ..= max`.
pub fn parse_signed_vec(s: &[u8], min: i64, max: i64) -> (r: Option<i64>)
    requires
        -0x7FFF_FFFF_FFFF_FFFF <= min <= 0 <= max,
    ensures
        match r {
            Some(v) => parse_signed(s@) == Some(v as int) && min <= v <= max,
            None => parse_signed(s@) is None || parse_signed(s@)->Some_0 > max || parse_signed(
                s@,
            )->Some_0 < min,
        },
{
    let slen = s.len();
    if slen > 0 && s[0] == 45 {
        let digits = vstd::slice::slice_subrange(s, 1, slen);
        proof {
            assert(digits@ =~= s@.skip(1));
        }
        let bound = (-min) as u64;
        match parse_digits_vec(digits, bound) {
            Some(mag) => {
                let v = -(mag as i64);
                Some(v)
            },
            None => None,
        }
    } else {
        match parse_unsigned_vec(s, max as u64) {
            Some(v) => Some(v as i64),
            None => None,
        }
    }
}

} // verus!
