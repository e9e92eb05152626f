//! The GGUF file format: values as they stand in the bytes of a file.
//!
//! Every notion takes the bytes and a position, and gives the position behind
//! what it read, or nothing where the bytes run out or make no sense.
use vstd::prelude::*;
use vstd::slice::slice_subrange;
use vstd::utf8::{encode_utf8, valid_utf8};

verus! {

/// GGUF magic: ASCII "GGUF" stored little-endian.
pub const GGUF_MAGIC: u32 = 0x4655_4747;

pub const GGUF_TYPE_UINT8: u32 = 0;
pub const GGUF_TYPE_INT8: u32 = 1;
pub const GGUF_TYPE_UINT16: u32 = 2;
pub const GGUF_TYPE_INT16: u32 = 3;
pub const GGUF_TYPE_UINT32: u32 = 4;
pub const GGUF_TYPE_INT32: u32 = 5;
pub const GGUF_TYPE_FLOAT32: u32 = 6;
pub const GGUF_TYPE_BOOL: u32 = 7;
pub const GGUF_TYPE_STRING: u32 = 8;
pub const GGUF_TYPE_ARRAY: u32 = 9;
pub const GGUF_TYPE_UINT64: u32 = 10;
pub const GGUF_TYPE_INT64: u32 = 11;
pub const GGUF_TYPE_FLOAT64: u32 = 12;

/// `n` bytes are left at `p`.
pub open spec fn room(d: Seq<u8>, p: int, n: int) -> bool {
    0 <= p && 0 <= n && p + n <= d.len()
}

/// The little-endian number in the two bytes at `p`.
pub open spec fn le2(d: Seq<u8>, p: int) -> int {
    d[p] + 0x100 * d[p + 1]
}

/// The little-endian number in the four bytes at `p`.
pub open spec fn le4(d: Seq<u8>, p: int) -> int {
    le2(d, p) + 0x1_0000 * le2(d, p + 2)
}

/// The little-endian number in the eight bytes at `p`.
pub open spec fn le8(d: Seq<u8>, p: int) -> int {
    le4(d, p) + 0x1_0000_0000 * le4(d, p + 4)
}

/// The end of the string at `p`: a length in eight bytes, and as many bytes.
pub open spec fn string_end(d: Seq<u8>, p: int) -> Option<int> {
    if room(d, p, 8) && room(d, p + 8, le8(d, p)) {
        Some(p + 8 + le8(d, p))
    } else {
        None
    }
}

/// The bytes of the string at `p`.
pub open spec fn string_bytes(d: Seq<u8>, p: int) -> Seq<u8> {
    d.subrange(p + 8, p + 8 + le8(d, p))
}

/// The size of a scalar value that is not a string.
pub open spec fn scalar_bytes(tag: u32) -> Option<int> {
    if tag == GGUF_TYPE_UINT8 || tag == GGUF_TYPE_INT8 || tag == GGUF_TYPE_BOOL {
        Some(1)
    } else if tag == GGUF_TYPE_UINT16 || tag == GGUF_TYPE_INT16 {
        Some(2)
    } else if tag == GGUF_TYPE_UINT32 || tag == GGUF_TYPE_INT32 || tag == GGUF_TYPE_FLOAT32 {
        Some(4)
    } else if tag == GGUF_TYPE_UINT64 || tag == GGUF_TYPE_INT64 || tag == GGUF_TYPE_FLOAT64 {
        Some(8)
    } else {
        None
    }
}

/// The end of the scalar value (a string is one) at `p`.
pub open spec fn scalar_end(d: Seq<u8>, p: int, tag: u32) -> Option<int> {
    if tag == GGUF_TYPE_STRING {
        string_end(d, p)
    } else {
        match scalar_bytes(tag) {
            Some(n) => if room(d, p, n) {
                Some(p + n)
            } else {
                None
            },
            None => None,
        }
    }
}

/// The end of `count` scalar values, one after the other, at `p`.
pub open spec fn scalars_end(d: Seq<u8>, p: int, tag: u32, count: int) -> Option<int>
    decreases count,
{
    if count <= 0 {
        Some(p)
    } else {
        match scalar_end(d, p, tag) {
            Some(q) => scalars_end(d, q, tag, count - 1),
            None => None,
        }
    }
}

/// The end of the value at `p`. An array is the type and the number of its
/// elements, which are scalar, and the elements.
pub open spec fn value_end(d: Seq<u8>, p: int, tag: u32) -> Option<int> {
    if tag == GGUF_TYPE_ARRAY {
        if room(d, p, 12) {
            scalars_end(d, p + 12, le4(d, p) as u32, le8(d, p + 4))
        } else {
            None
        }
    } else {
        scalar_end(d, p, tag)
    }
}

/// The integer at `p`, taken as unsigned.
pub open spec fn uint_at(d: Seq<u8>, p: int, tag: u32) -> Option<int> {
    if (tag == GGUF_TYPE_UINT8 || tag == GGUF_TYPE_INT8) && room(d, p, 1) {
        Some(d[p] as int)
    } else if (tag == GGUF_TYPE_UINT16 || tag == GGUF_TYPE_INT16) && room(d, p, 2) {
        Some(le2(d, p))
    } else if (tag == GGUF_TYPE_UINT32 || tag == GGUF_TYPE_INT32) && room(d, p, 4) {
        Some(le4(d, p))
    } else if (tag == GGUF_TYPE_UINT64 || tag == GGUF_TYPE_INT64) && room(d, p, 8) {
        Some(le8(d, p))
    } else {
        None
    }
}

/// Reading a value moves forward, and stays within the bytes.
pub proof fn lemma_scalar_end(d: Seq<u8>, p: int, tag: u32)
    ensures
        scalar_end(d, p, tag) matches Some(q) ==> p < q <= d.len(),
{
}

pub proof fn lemma_scalars_end(d: Seq<u8>, p: int, tag: u32, count: int)
    requires
        0 <= p <= d.len(),
    ensures
        scalars_end(d, p, tag, count) matches Some(q) ==> p <= q <= d.len(),
    decreases count,
{
    if count > 0 {
        lemma_scalar_end(d, p, tag);
        if let Some(q) = scalar_end(d, p, tag) {
            lemma_scalars_end(d, q, tag, count - 1);
        }
    }
}

/// A value never reaches beyond the bytes, and its end is not before it.
pub proof fn law_values_stay_in_bounds(d: Seq<u8>, p: int, tag: u32)
    requires
        0 <= p <= d.len(),
    ensures
        value_end(d, p, tag) matches Some(q) ==> p <= q <= d.len(),
{
    if tag == GGUF_TYPE_ARRAY {
        if room(d, p, 12) {
            lemma_scalars_end(d, p + 12, le4(d, p) as u32, le8(d, p + 4));
        }
    } else {
        lemma_scalar_end(d, p, tag);
    }
}

/// What `String::from_utf8_lossy` of the standard library makes of bytes.
pub uninterp spec fn lossy(b: Seq<u8>) -> Seq<char>;

/// `String::from_utf8_lossy` of the standard library: bytes as text, whatever is
/// not valid UTF-8 being replaced. Valid UTF-8 is kept as it is.
#[verifier::external_body]
pub(crate) fn lossy_text(b: &[u8]) -> (r: String)
    ensures
        r@ == lossy(b@),
        valid_utf8(b@) ==> encode_utf8(r@) == b@,
{
    String::from_utf8_lossy(b).into_owned()
}

/// Whether two runs of bytes are equal.
pub fn same_bytes(a: &[u8], b: &[u8]) -> (r: bool)
    ensures
        r == (a@ == b@),
{
    if a.len() != b.len() {
        return false;
    }
    let mut i: usize = 0;
    while i < a.len()
        invariant
            a@.len() == b@.len(),
            i <= a@.len(),
            forall|j: int| 0 <= j < i ==> a@[j] == b@[j],
        decreases a.len() - i,
    {
        if a[i] != b[i] {
            return false;
        }
        i = i + 1;
    }
    assert(a@ =~= b@);
    true
}

/// `b` ends with the bytes `end`.
pub open spec fn bytes_end_with(b: Seq<u8>, end: Seq<u8>) -> bool {
    end.len() <= b.len() && b.skip(b.len() - end.len()) == end
}

/// Whether `b` ends with the bytes of a text.
pub fn ends_with_text(b: &[u8], end: &str) -> (r: bool)
    ensures
        r == bytes_end_with(b@, encode_utf8(end@)),
{
    let e: &[u8] = end.as_bytes();
    if e.len() > b.len() {
        return false;
    }
    let tail: &[u8] = slice_subrange(b, b.len() - e.len(), b.len());
    assert(tail@ =~= b@.skip(b@.len() - e@.len()));
    same_bytes(tail, e)
}

/// A tiny forward-only cursor over a byte slice. Every read is bounds-checked
/// and returns `None` past the end.
#[derive(Debug)]
pub struct Cursor<'a> {
    pub data: &'a [u8],
    pub pos: usize,
}

impl<'a> Cursor<'a> {
    /// The cursor stands within its bytes.
    pub open spec fn wf(self) -> bool {
        self.pos <= self.data@.len()
    }

    /// Moved to `end`, or anywhere within the bytes where there is none.
    pub open spec fn moved(self, before: Cursor<'a>, end: Option<int>) -> bool {
        &&& self.wf()
        &&& self.data == before.data
        &&& end matches Some(q) ==> self.pos == q
    }

    pub fn new(data: &'a [u8]) -> (r: Cursor<'a>)
        ensures
            r.wf(),
            r.data == data,
            r.pos == 0,
    {
        Cursor { data, pos: 0 }
    }

    pub fn take(&mut self, n: usize) -> (r: Option<&'a [u8]>)
        requires
            old(self).wf(),
        ensures
            final(self).wf(),
            final(self).data == old(self).data,
            match r {
                Some(b) => room(old(self).data@, old(self).pos as int, n as int) && final(self).pos
                    == old(self).pos + n && b@ == old(self).data@.subrange(
                    old(self).pos as int,
                    old(self).pos + n,
                ),
                None => !room(old(self).data@, old(self).pos as int, n as int) && final(self).pos
                    == old(self).pos,
            },
    {
        if n > self.data.len() - self.pos {
            return None;
        }
        let from: usize = self.pos;
        self.pos = from + n;
        Some(slice_subrange(self.data, from, from + n))
    }

    pub fn u32(&mut self) -> (r: Option<u32>)
        requires
            old(self).wf(),
        ensures
            final(self).wf(),
            final(self).data == old(self).data,
            match r {
                Some(v) => room(old(self).data@, old(self).pos as int, 4) && v == le4(
                    old(self).data@,
                    old(self).pos as int,
                ) && final(self).pos == old(self).pos + 4,
                None => !room(old(self).data@, old(self).pos as int, 4) && final(self).pos
                    == old(self).pos,
            },
    {
        match self.take(4) {
            Some(b) => Some(
                b[0] as u32 + 0x100 * b[1] as u32 + 0x1_0000 * (b[2] as u32 + 0x100 * b[3] as u32),
            ),
            None => None,
        }
    }

    pub fn u64(&mut self) -> (r: Option<u64>)
        requires
            old(self).wf(),
        ensures
            final(self).wf(),
            final(self).data == old(self).data,
            match r {
                Some(v) => room(old(self).data@, old(self).pos as int, 8) && v == le8(
                    old(self).data@,
                    old(self).pos as int,
                ) && final(self).pos == old(self).pos + 8,
                None => !room(old(self).data@, old(self).pos as int, 8) && final(self).pos
                    == old(self).pos,
            },
    {
        match self.take(8) {
            Some(b) => {
                let low: u64 = b[0] as u64 + 0x100 * b[1] as u64 + 0x1_0000 * (b[2] as u64 + 0x100
                    * b[3] as u64);
                let high: u64 = b[4] as u64 + 0x100 * b[5] as u64 + 0x1_0000 * (b[6] as u64 + 0x100
                    * b[7] as u64);
                Some(low + 0x1_0000_0000 * high)
            },
            None => None,
        }
    }

    /// Read a GGUF string: u64 length prefix followed by that many raw bytes.
    pub fn gguf_string(&mut self) -> (r: Option<&'a [u8]>)
        requires
            old(self).wf(),
        ensures
            final(self).moved(*old(self), string_end(old(self).data@, old(self).pos as int)),
            match r {
                Some(b) => string_end(old(self).data@, old(self).pos as int) is Some && b@
                    == string_bytes(old(self).data@, old(self).pos as int),
                None => string_end(old(self).data@, old(self).pos as int) is None,
            },
    {
        match self.u64() {
            Some(len) => {
                if len > (self.data.len() - self.pos) as u64 {
                    return None;
                }
                self.take(len as usize)
            },
            None => None,
        }
    }

    /// Advance past a scalar value of the given type tag without interpreting
    /// it. Returns `None` for unknown tags.
    pub fn skip_scalar(&mut self, type_tag: u32) -> (r: Option<()>)
        requires
            old(self).wf(),
        ensures
            final(self).moved(
                *old(self),
                scalar_end(old(self).data@, old(self).pos as int, type_tag),
            ),
            r is Some <==> scalar_end(old(self).data@, old(self).pos as int, type_tag) is Some,
    {
        if type_tag == GGUF_TYPE_STRING {
            return match self.gguf_string() {
                Some(_) => Some(()),
                None => None,
            };
        }
        let size: usize = if type_tag == GGUF_TYPE_UINT8 || type_tag == GGUF_TYPE_INT8 || type_tag
            == GGUF_TYPE_BOOL {
            1
        } else if type_tag == GGUF_TYPE_UINT16 || type_tag == GGUF_TYPE_INT16 {
            2
        } else if type_tag == GGUF_TYPE_UINT32 || type_tag == GGUF_TYPE_INT32 || type_tag
            == GGUF_TYPE_FLOAT32 {
            4
        } else if type_tag == GGUF_TYPE_UINT64 || type_tag == GGUF_TYPE_INT64 || type_tag
            == GGUF_TYPE_FLOAT64 {
            8
        } else {
            return None;
        };
        match self.take(size) {
            Some(_) => Some(()),
            None => None,
        }
    }

    /// Skip a whole metadata value (scalar or array) of the given type tag.
    pub fn skip_value(&mut self, type_tag: u32) -> (r: Option<()>)
        requires
            old(self).wf(),
        ensures
            final(self).moved(
                *old(self),
                value_end(old(self).data@, old(self).pos as int, type_tag),
            ),
            r is Some <==> value_end(old(self).data@, old(self).pos as int, type_tag) is Some,
    {
        if type_tag != GGUF_TYPE_ARRAY {
            return self.skip_scalar(type_tag);
        }
        let elem_type: u32 = match self.u32() {
            Some(t) => t,
            None => {
                return None;
            },
        };
        let count: u64 = match self.u64() {
            Some(n) => n,
            None => {
                return None;
            },
        };
        let ghost d = self.data@;
        let ghost start = self.pos as int;
        let mut left: u64 = count;
        while left > 0
            invariant
                self.wf(),
                self.data == old(self).data,
                d == self.data@,
                left <= count,
                type_tag == GGUF_TYPE_ARRAY,
                room(d, old(self).pos as int, 12),
                elem_type == le4(d, old(self).pos as int),
                count == le8(d, old(self).pos + 4),
                start == old(self).pos + 12,
                scalars_end(d, start, elem_type, count as int) == scalars_end(
                    d,
                    self.pos as int,
                    elem_type,
                    left as int,
                ),
            decreases left,
        {
            match self.skip_scalar(elem_type) {
                Some(_) => {},
                None => {
                    return None;
                },
            }
            left = left - 1;
        }
        Some(())
    }

    /// Read a scalar integer value of the given type tag as u64, when the tag
    /// is one of the unsigned/signed integer types.
    pub fn read_uint_as_u64(&mut self, type_tag: u32) -> (r: Option<u64>)
        requires
            old(self).wf(),
        ensures
            final(self).wf(),
            final(self).data == old(self).data,
            match r {
                Some(v) => uint_at(old(self).data@, old(self).pos as int, type_tag) == Some(
                    v as int,
                ) && value_end(old(self).data@, old(self).pos as int, type_tag) == Some(
                    final(self).pos as int,
                ),
                None => uint_at(old(self).data@, old(self).pos as int, type_tag) is None
                    && final(self).pos == old(self).pos,
            },
    {
        if type_tag == GGUF_TYPE_UINT8 || type_tag == GGUF_TYPE_INT8 {
            match self.take(1) {
                Some(b) => Some(b[0] as u64),
                None => None,
            }
        } else if type_tag == GGUF_TYPE_UINT16 || type_tag == GGUF_TYPE_INT16 {
            match self.take(2) {
                Some(b) => Some(b[0] as u64 + 0x100 * b[1] as u64),
                None => None,
            }
        } else if type_tag == GGUF_TYPE_UINT32 || type_tag == GGUF_TYPE_INT32 {
            match self.u32() {
                Some(v) => Some(v as u64),
                None => None,
            }
        } else if type_tag == GGUF_TYPE_UINT64 || type_tag == GGUF_TYPE_INT64 {
            self.u64()
        } else {
            None
        }
    }
}

/// Numbers are little-endian: the first byte counts least.
pub proof fn law_the_first_byte_counts_least(d: Seq<u8>, p: int)
    ensures
        le2(d, p) == d[p] + 0x100 * d[p + 1],
        le4(d, p) == d[p] + 0x100 * d[p + 1] + 0x1_0000 * d[p + 2] + 0x100_0000 * d[p + 3],
        le8(d, p) == d[p] + 0x100 * d[p + 1] + 0x1_0000 * d[p + 2] + 0x100_0000 * d[p + 3]
            + 0x1_0000_0000 * d[p + 4] + 0x100_0000_0000 * d[p + 5] + 0x1_0000_0000_0000 * d[p + 6]
            + 0x100_0000_0000_0000 * d[p + 7],
{
    assert(p + 2 + 1 == p + 3 && p + 4 + 1 == p + 5 && p + 4 + 2 == p + 6 && p + 6 + 1 == p + 7);
}

/// A string is its length, in eight bytes, and its bytes: written that way
/// anywhere in a file, it is read back, and what follows it comes next.
pub proof fn law_a_string_is_read_back(front: Seq<u8>, len: Seq<u8>, s: Seq<u8>, rest: Seq<u8>)
    requires
        len.len() == 8,
        le8(len, 0) == s.len(),
    ensures
        ({
            let d = front + len + s + rest;
            &&& string_end(d, front.len() as int) == Some((front.len() + 8 + s.len()) as int)
            &&& string_bytes(d, front.len() as int) == s
        }),
{
    let d = front + len + s + rest;
    let p = front.len() as int;
    assert forall|i: int| 0 <= i < 8 implies d[p + i] == len[i] by {}
    assert(le8(d, p) == le8(len, 0));
    assert(string_bytes(d, p) =~= s);
}

/// The sizes of the value types that have one.
pub proof fn law_values_have_their_size()
    ensures
        scalar_bytes(0) == Some(1int) && scalar_bytes(1) == Some(1int) && scalar_bytes(7) == Some(
            1int,
        ),
        scalar_bytes(2) == Some(2int) && scalar_bytes(3) == Some(2int),
        scalar_bytes(4) == Some(4int) && scalar_bytes(5) == Some(4int) && scalar_bytes(6) == Some(
            4int,
        ),
        scalar_bytes(10) == Some(8int) && scalar_bytes(11) == Some(8int) && scalar_bytes(12)
            == Some(8int),
        scalar_bytes(8) is None,
        scalar_bytes(9) is None,
        forall|t: u32| t > 12 ==> #[trigger] scalar_bytes(t) is None,
{
}

/// An array of `count` values of `n` bytes each ends behind all of them: twelve
/// bytes in front, and `count * n`.
pub proof fn law_an_array_ends_behind_its_elements(d: Seq<u8>, p: int, n: int)
    requires
        0 <= p,
        p + 12 <= d.len(),
        scalar_bytes(le4(d, p) as u32) == Some(n),
    ensures
        p + 12 + le8(d, p + 4) * n <= d.len() ==> value_end(d, p, GGUF_TYPE_ARRAY) == Some(
            p + 12 + le8(d, p + 4) * n,
        ),
        p + 12 + le8(d, p + 4) * n > d.len() ==> value_end(d, p, GGUF_TYPE_ARRAY) is None,
{
    lemma_fixed_size(d, p + 12, le4(d, p) as u32, le8(d, p + 4), n);
}

proof fn lemma_fixed_size(d: Seq<u8>, p: int, tag: u32, count: int, n: int)
    requires
        0 <= p <= d.len(),
        0 <= count,
        scalar_bytes(tag) == Some(n),
    ensures
        scalars_end(d, p, tag, count) == if p + count * n <= d.len() {
            Some(p + count * n)
        } else {
            None::<int>
        },
    decreases count,
{
    if count > 0 {
        assert(count * n == n + (count - 1) * n) by (nonlinear_arith);
        assert((count - 1) * n >= 0) by (nonlinear_arith)
            requires
                count >= 1,
                n >= 0,
        ;
        if p + n <= d.len() {
            lemma_fixed_size(d, p + n, tag, count - 1, n);
        }
    } else {
        assert(0 * n == 0);
    }
}

/// An array of strings ends where the last of them does: each begins where the
/// one before it ended.
pub proof fn law_strings_of_an_array_follow_each_other(d: Seq<u8>, p: int, count: int)
    requires
        0 < count,
    ensures
        scalars_end(d, p, GGUF_TYPE_STRING, count) == match string_end(d, p) {
            Some(q) => scalars_end(d, q, GGUF_TYPE_STRING, count - 1),
            None => None,
        },
        scalars_end(d, p, GGUF_TYPE_STRING, 0) == Some(p),
{
}

} // verus!
