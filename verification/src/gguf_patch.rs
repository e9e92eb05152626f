//! Minimal GGUF metadata patcher for Ollama compatibility.
//!
//! Some Ollama GGUF files contain metadata arrays with fewer elements than
//! llama.cpp expects. A patched header has zero-filled elements inserted into
//! them and its alignment padding recalculated; the tensor data behind it stays
//! as it is.
//!
//! The bytes given are the leading ones of a file. Where they do not suffice,
//! the caller reads more of the file and tries again.
use crate::fit;
use crate::fit::{aligned, law_aligned};
use crate::gguf;
use vstd::prelude::*;
use vstd::slice::slice_subrange;
use vstd::utf8::encode_utf8;

verus! {

/// Default alignment for tensor data in GGUF v3.
pub const ALIGNMENT: u64 = 32;

/// Why a header could not be scanned.
#[derive(Debug, Clone, Copy, PartialEq, Eq, Structural)]
pub enum ScanError {
    /// A field lies beyond the bytes.
    Short,
    /// A value has a type that GGUF does not know.
    UnknownType(u32),
    /// A size leads beyond what a file can hold.
    TooLarge,
}

/// Size in bytes of a scalar GGUF value type; zero for every other type.
pub open spec fn size_of_scalar(t: u32) -> int {
    match gguf::scalar_bytes(t) {
        Some(n) => n,
        None => 0,
    }
}

pub fn scalar_size(t: u32) -> (r: u64)
    ensures
        r == size_of_scalar(t),
        r <= 8,
{
    if t == gguf::GGUF_TYPE_UINT8 || t == gguf::GGUF_TYPE_INT8 || t == gguf::GGUF_TYPE_BOOL {
        1
    } else if t == gguf::GGUF_TYPE_UINT16 || t == gguf::GGUF_TYPE_INT16 {
        2
    } else if t == gguf::GGUF_TYPE_UINT32 || t == gguf::GGUF_TYPE_INT32 || t
        == gguf::GGUF_TYPE_FLOAT32 {
        4
    } else if t == gguf::GGUF_TYPE_UINT64 || t == gguf::GGUF_TYPE_INT64 || t
        == gguf::GGUF_TYPE_FLOAT64 {
        8
    } else {
        0
    }
}

/// The position `n` bytes further on. What is passed over need not be there.
pub open spec fn passed(p: int, n: int) -> Result<int, ScanError> {
    if p + n <= i64::MAX {
        Ok(p + n)
    } else {
        Err(ScanError::TooLarge)
    }
}

/// The end of the string at `p`, of which only the length is looked at.
pub open spec fn string_passed(d: Seq<u8>, p: int) -> Result<int, ScanError> {
    if gguf::room(d, p, 8) {
        passed(p + 8, gguf::le8(d, p))
    } else {
        Err(ScanError::Short)
    }
}

pub open spec fn strings_passed(d: Seq<u8>, p: int, count: int) -> Result<int, ScanError>
    decreases count,
{
    if count <= 0 {
        Ok(p)
    } else {
        match string_passed(d, p) {
            Ok(q) => strings_passed(d, q, count - 1),
            Err(e) => Err(e),
        }
    }
}

/// The end of `count` array elements at `p`. Elements of a type without a fixed
/// size take no room, strings aside.
pub open spec fn elements_passed(d: Seq<u8>, p: int, elem: u32, count: int) -> Result<
    int,
    ScanError,
> {
    if elem == gguf::GGUF_TYPE_STRING {
        strings_passed(d, p, count)
    } else {
        passed(p, count * size_of_scalar(elem))
    }
}

/// The end of the value at `p`.
pub open spec fn value_passed(d: Seq<u8>, p: int, tag: u32) -> Result<int, ScanError> {
    if tag == gguf::GGUF_TYPE_ARRAY {
        if gguf::room(d, p, 12) {
            elements_passed(d, p + 12, gguf::le4(d, p) as u32, gguf::le8(d, p + 4))
        } else {
            Err(ScanError::Short)
        }
    } else if tag == gguf::GGUF_TYPE_STRING {
        string_passed(d, p)
    } else if size_of_scalar(tag) > 0 {
        passed(p, size_of_scalar(tag))
    } else {
        Err(ScanError::UnknownType(tag))
    }
}

/// Where the type of the entry at `p` stands: behind its key.
pub open spec fn type_at(d: Seq<u8>, p: int) -> Option<int> {
    match gguf::string_end(d, p) {
        Some(k) => if gguf::room(d, k, 4) {
            Some(k)
        } else {
            None
        },
        None => None,
    }
}

/// The end of the metadata entry at `p`.
pub open spec fn entry_end(d: Seq<u8>, p: int) -> Result<int, ScanError> {
    match type_at(d, p) {
        Some(k) => value_passed(d, k + 4, gguf::le4(d, k) as u32),
        None => Err(ScanError::Short),
    }
}

/// How many elements the array of a known key must have.
pub open spec fn expected_count(key: Seq<u8>) -> Option<int> {
    if key == encode_utf8("qwen35.rope.dimension_sections"@) {
        Some(4)
    } else {
        None
    }
}

/// The entry at `p` is an array with too few elements.
pub open spec fn needs_fix(d: Seq<u8>, p: int) -> bool {
    let k = type_at(d, p)->0;
    &&& gguf::le4(d, k) == gguf::GGUF_TYPE_ARRAY
    &&& size_of_scalar(gguf::le4(d, k + 4) as u32) > 0
    &&& expected_count(gguf::string_bytes(d, p)) matches Some(n) && gguf::le8(d, k + 8) < n
}

/// The end of `count` entries at `p`, and whether one of them is to be fixed.
pub open spec fn scanned(d: Seq<u8>, p: int, count: int) -> Result<(bool, int), ScanError>
    decreases count,
{
    if count <= 0 {
        Ok((false, p))
    } else {
        match entry_end(d, p) {
            Ok(e) => match scanned(d, e, count - 1) {
                Ok((fix, end)) => Ok((needs_fix(d, p) || fix, end)),
                Err(e) => Err(e),
            },
            Err(e) => Err(e),
        }
    }
}

/// What a header calls for: it is no GGUF header or every array is long enough,
/// so nothing is to be done, or it is to be patched.
pub open spec fn wants_patch(d: Seq<u8>) -> Result<bool, ScanError> {
    if d.len() > i64::MAX {
        Err(ScanError::TooLarge)
    } else if !gguf::room(d, 0, 4) {
        Err(ScanError::Short)
    } else if gguf::le4(d, 0) != gguf::GGUF_MAGIC {
        Ok(false)
    } else if !gguf::room(d, 0, 24) {
        Err(ScanError::Short)
    } else {
        match scanned(d, 24, gguf::le8(d, 16)) {
            Ok((fix, end)) => Ok(fix),
            Err(e) => Err(e),
        }
    }
}

/// A position that is being moved over bytes; it may leave them.
struct Walk<'a> {
    data: &'a [u8],
    pos: u64,
}

impl<'a> Walk<'a> {
    spec fn wf(self) -> bool {
        self.pos <= i64::MAX && self.data@.len() <= i64::MAX
    }

    fn has(&self, n: u64) -> (r: bool)
        requires
            self.wf(),
            n <= i64::MAX,
        ensures
            r == gguf::room(self.data@, self.pos as int, n as int),
    {
        self.pos + n <= self.data.len() as u64
    }

    fn read_u32(&mut self) -> (r: Result<u32, ScanError>)
        requires
            old(self).wf(),
        ensures
            final(self).data == old(self).data,
            if gguf::room(old(self).data@, old(self).pos as int, 4) {
                &&& r matches Ok(v)
                &&& v == gguf::le4(old(self).data@, old(self).pos as int)
                &&& final(self).pos == old(self).pos + 4
                &&& final(self).wf()
            } else {
                r == Err::<u32, ScanError>(ScanError::Short)
            },
    {
        if !self.has(4) {
            return Err(ScanError::Short);
        }
        let i: usize = self.pos as usize;
        let d: &[u8] = self.data;
        let v: u32 = d[i] as u32 + 0x100 * d[i + 1] as u32 + 0x1_0000 * (d[i + 2] as u32 + 0x100
            * d[i + 3] as u32);
        self.pos = self.pos + 4;
        Ok(v)
    }

    fn read_u64(&mut self) -> (r: Result<u64, ScanError>)
        requires
            old(self).wf(),
        ensures
            final(self).data == old(self).data,
            if gguf::room(old(self).data@, old(self).pos as int, 8) {
                &&& r matches Ok(v)
                &&& v == gguf::le8(old(self).data@, old(self).pos as int)
                &&& final(self).pos == old(self).pos + 8
                &&& final(self).wf()
            } else {
                r == Err::<u64, ScanError>(ScanError::Short)
            },
    {
        if !self.has(8) {
            return Err(ScanError::Short);
        }
        let i: usize = self.pos as usize;
        let d: &[u8] = self.data;
        let low: u64 = d[i] as u64 + 0x100 * d[i + 1] as u64 + 0x1_0000 * (d[i + 2] as u64 + 0x100
            * d[i + 3] as u64);
        let high: u64 = d[i + 4] as u64 + 0x100 * d[i + 5] as u64 + 0x1_0000 * (d[i + 6] as u64
            + 0x100 * d[i + 7] as u64);
        self.pos = self.pos + 8;
        Ok(low + 0x1_0000_0000 * high)
    }

    fn pass(&mut self, n: u64) -> (r: Result<(), ScanError>)
        requires
            old(self).wf(),
        ensures
            final(self).data == old(self).data,
            match passed(old(self).pos as int, n as int) {
                Ok(q) => r is Ok && final(self).pos == q && final(self).wf(),
                Err(e) => r == Err::<(), ScanError>(e),
            },
    {
        let max: u64 = 0x7FFF_FFFF_FFFF_FFFF;
        if n > max - self.pos {
            return Err(ScanError::TooLarge);
        }
        self.pos = self.pos + n;
        Ok(())
    }

    fn pass_string(&mut self) -> (r: Result<(), ScanError>)
        requires
            old(self).wf(),
        ensures
            final(self).data == old(self).data,
            match string_passed(old(self).data@, old(self).pos as int) {
                Ok(q) => r is Ok && final(self).pos == q && final(self).wf(),
                Err(e) => r == Err::<(), ScanError>(e),
            },
    {
        match self.read_u64() {
            Ok(len) => self.pass(len),
            Err(e) => Err(e),
        }
    }

    fn pass_elements(&mut self, elem: u32, count: u64) -> (r: Result<(), ScanError>)
        requires
            old(self).wf(),
        ensures
            final(self).data == old(self).data,
            match elements_passed(old(self).data@, old(self).pos as int, elem, count as int) {
                Ok(q) => r is Ok && final(self).pos == q && final(self).wf(),
                Err(e) => r == Err::<(), ScanError>(e),
            },
    {
        if elem == gguf::GGUF_TYPE_STRING {
            let mut left: u64 = count;
            while left > 0
                invariant
                    self.data == old(self).data,
                    elem == gguf::GGUF_TYPE_STRING,
                    self.wf(),
                    strings_passed(old(self).data@, old(self).pos as int, count as int)
                        == strings_passed(self.data@, self.pos as int, left as int),
                decreases left,
            {
                match self.pass_string() {
                    Ok(_) => {},
                    Err(e) => {
                        return Err(e);
                    },
                }
                left = left - 1;
            }
            Ok(())
        } else {
            let size: u64 = scalar_size(elem);
            if count > 0x7FFF_FFFF_FFFF_FFFF && size > 0 {
                assert(count * size > i64::MAX) by (nonlinear_arith)
                    requires
                        count > 0x7FFF_FFFF_FFFF_FFFF,
                        size >= 1,
                ;
                return Err(ScanError::TooLarge);
            }
            assert(0 <= count * size) by (nonlinear_arith)
                requires
                    0 <= count,
                    0 <= size,
            ;
            let wide: u128 = count as u128 * size as u128;
            if wide > 0x7FFF_FFFF_FFFF_FFFF {
                return Err(ScanError::TooLarge);
            }
            self.pass(wide as u64)
        }
    }
}

impl<'a> Walk<'a> {
    /// Passes over a value of the given type.
    fn skip_gguf_value(&mut self, vtype: u32) -> (r: Result<(), ScanError>)
        requires
            old(self).wf(),
        ensures
            final(self).data == old(self).data,
            match value_passed(old(self).data@, old(self).pos as int, vtype) {
                Ok(q) => r is Ok && final(self).pos == q && final(self).wf(),
                Err(e) => r == Err::<(), ScanError>(e),
            },
    {
        if vtype == gguf::GGUF_TYPE_ARRAY {
            if !self.has(12) {
                return Err(ScanError::Short);
            }
            let elem: u32 = match self.read_u32() {
                Ok(v) => v,
                Err(e) => {
                    return Err(e);
                },
            };
            let count: u64 = match self.read_u64() {
                Ok(v) => v,
                Err(e) => {
                    return Err(e);
                },
            };
            self.pass_elements(elem, count)
        } else if vtype == gguf::GGUF_TYPE_STRING {
            self.pass_string()
        } else {
            let size: u64 = scalar_size(vtype);
            if size > 0 {
                self.pass(size)
            } else {
                Err(ScanError::UnknownType(vtype))
            }
        }
    }

    /// Reads a key, or a tensor's name: its bytes.
    fn read_gguf_string(&mut self) -> (r: Result<&'a [u8], ScanError>)
        requires
            old(self).wf(),
        ensures
            final(self).data == old(self).data,
            match gguf::string_end(old(self).data@, old(self).pos as int) {
                Some(q) => {
                    &&& r matches Ok(b)
                    &&& b@ == gguf::string_bytes(old(self).data@, old(self).pos as int)
                    &&& final(self).pos == q
                    &&& final(self).wf()
                },
                None => r matches Err(e) && e == ScanError::Short,
            },
    {
        let len: u64 = match self.read_u64() {
            Ok(v) => v,
            Err(e) => {
                return Err(e);
            },
        };
        if len > self.data.len() as u64 - self.pos {
            return Err(ScanError::Short);
        }
        let from: usize = self.pos as usize;
        let to: usize = from + len as usize;
        self.pos = self.pos + len;
        let b: &'a [u8] = slice_subrange(self.data, from, to);
        Ok(b)
    }

    /// Passes over a metadata entry; says whether it is to be fixed.
    fn pass_entry(&mut self) -> (r: Result<Option<Fix>, ScanError>)
        requires
            old(self).wf(),
        ensures
            final(self).data == old(self).data,
            match entry_end(old(self).data@, old(self).pos as int) {
                Ok(q) => {
                    &&& r matches Ok(fix)
                    &&& final(self).pos == q
                    &&& final(self).wf()
                    &&& is_fix(fix, old(self).data@, old(self).pos as int)
                },
                Err(e) => r matches Err(f) && f == e,
            },
    {
        let ghost d = self.data@;
        let ghost p = self.pos as int;
        let key: &[u8] = match self.read_gguf_string() {
            Ok(b) => b,
            Err(e) => {
                return Err(e);
            },
        };
        let ghost k = self.pos as int;
        let tag: u32 = match self.read_u32() {
            Ok(v) => v,
            Err(e) => {
                return Err(e);
            },
        };
        let at: u64 = self.pos;
        let mut fix: Option<Fix> = None;
        if tag == gguf::GGUF_TYPE_ARRAY && self.has(12) {
            let mut look: Walk<'a> = Walk { data: self.data, pos: at };
            let elem: u32 = match look.read_u32() {
                Ok(v) => v,
                Err(e) => {
                    return Err(e);
                },
            };
            let count: u64 = match look.read_u64() {
                Ok(v) => v,
                Err(e) => {
                    return Err(e);
                },
            };
            let size: u64 = scalar_size(elem);
            let known: &[u8] = "qwen35.rope.dimension_sections".as_bytes();
            if size > 0 && gguf::same_bytes(key, known) && count < 4 {
                fix = Some(Fix { count_offset: at + 4, count, target: 4, elem_size: size });
            }
        }
        match self.skip_gguf_value(tag) {
            Ok(_) => Ok(fix),
            Err(e) => Err(e),
        }
    }
}

/// A patch to apply: extend an array to `target` elements by appending
/// zero-filled ones.
#[derive(Debug, Clone, Copy)]
pub struct Fix {
    /// File offset of the 8-byte little-endian count field.
    pub count_offset: u64,
    pub count: u64,
    pub target: u64,
    /// Size of each element in bytes.
    pub elem_size: u64,
}

/// The fix that the entry at `p` calls for, if any.
pub open spec fn is_fix(fix: Option<Fix>, d: Seq<u8>, p: int) -> bool {
    match fix {
        Some(f) => {
            let k = type_at(d, p)->0;
            &&& needs_fix(d, p)
            &&& f.count_offset == k + 8
            &&& f.count == gguf::le8(d, k + 8)
            &&& f.target == expected_count(gguf::string_bytes(d, p))->0
            &&& f.elem_size == size_of_scalar(gguf::le4(d, k + 4) as u32)
        },
        None => !needs_fix(d, p),
    }
}

/// Whether the leading bytes of a file call for a patch.
pub fn needs_patch(data: &[u8]) -> (r: Result<bool, ScanError>)
    ensures
        r == wants_patch(data@),
{
    if data.len() as u64 > 0x7FFF_FFFF_FFFF_FFFF {
        return Err(ScanError::TooLarge);
    }
    let mut w: Walk = Walk { data, pos: 0 };
    match w.read_u32() {
        Ok(magic) => if magic != gguf::GGUF_MAGIC {
            return Ok(false);
        },
        Err(e) => {
            return Err(e);
        },
    }
    if data.len() < 24 {
        return Err(ScanError::Short);
    }
    w.pos = 16;
    let count: u64 = match w.read_u64() {
        Ok(v) => v,
        Err(e) => {
            return Err(e);
        },
    };
    let mut found: bool = false;
    let mut left: u64 = count;
    while left > 0
        invariant
            w.wf(),
            w.data@ == data@,
            match scanned(data@, w.pos as int, left as int) {
                Ok((fix, end)) => wants_patch(data@) == Ok::<bool, ScanError>(found || fix),
                Err(e) => wants_patch(data@) == Err::<bool, ScanError>(e),
            },
        decreases left,
    {
        match w.pass_entry() {
            Ok(fix) => {
                if fix.is_some() {
                    found = true;
                }
            },
            Err(e) => {
                return Err(e);
            },
        }
        left = left - 1;
    }
    Ok(found)
}

/// A number in eight bytes, little-endian.
pub open spec fn le8_bytes(n: u64) -> Seq<u8> {
    seq![
        (n % 256) as u8,
        (n / 0x100 % 256) as u8,
        (n / 0x1_0000 % 256) as u8,
        (n / 0x100_0000 % 256) as u8,
        (n / 0x1_0000_0000 % 256) as u8,
        (n / 0x100_0000_0000 % 256) as u8,
        (n / 0x1_0000_0000_0000 % 256) as u8,
        (n / 0x100_0000_0000_0000 % 256) as u8,
    ]
}

/// `n` zero bytes.
pub open spec fn zeros(n: int) -> Seq<u8> {
    Seq::new(n as nat, |i: int| 0u8)
}

/// The bytes of the entry from `p` to `e`, with the elements that it lacks.
pub open spec fn new_entry(d: Seq<u8>, p: int, e: int) -> Seq<u8> {
    if needs_fix(d, p) {
        let k = type_at(d, p)->0;
        let target = expected_count(gguf::string_bytes(d, p))->0;
        let size = size_of_scalar(gguf::le4(d, k + 4) as u32);
        d.subrange(p, k + 8) + le8_bytes(target as u64) + d.subrange(k + 16, e) + zeros(
            (target - gguf::le8(d, k + 8)) * size,
        )
    } else {
        d.subrange(p, e)
    }
}

/// The bytes of `count` entries at `p`, with the elements that they lack.
pub open spec fn new_entries(d: Seq<u8>, p: int, count: int) -> Seq<u8>
    decreases count,
{
    if count <= 0 {
        Seq::empty()
    } else {
        match entry_end(d, p) {
            Ok(e) => new_entry(d, p, e) + new_entries(d, e, count - 1),
            Err(_) => Seq::empty(),
        }
    }
}

/// The end of `count` tensor records at `p`.
pub open spec fn tensors_passed(d: Seq<u8>, p: int, count: int) -> Result<int, ScanError>
    decreases count,
{
    if count <= 0 {
        Ok(p)
    } else {
        match type_at(d, p) {
            None => Err(ScanError::Short),
            Some(k) => match passed(k + 4, 8 * gguf::le4(d, k) + 12) {
                Ok(q) => tensors_passed(d, q, count - 1),
                Err(e) => Err(e),
            },
        }
    }
}

/// `b` padded with zeros to the alignment.
pub open spec fn padded(b: Seq<u8>) -> Seq<u8> {
    b + zeros(aligned(b.len() as int, ALIGNMENT as int) - b.len())
}

/// The patched header that takes the place of everything in front of the tensor
/// data, and where that data starts in the file.
#[verifier::ext_equal]
pub ghost struct NewHeader {
    pub bytes: Seq<u8>,
    pub data_start: int,
}

/// What patching makes of the leading bytes of a file.
pub open spec fn patched(d: Seq<u8>) -> Result<Option<NewHeader>, ScanError> {
    match wants_patch(d) {
        Err(e) => Err(e),
        Ok(false) => Ok(None),
        Ok(true) => {
            let count = gguf::le8(d, 16);
            match scanned(d, 24, count) {
                Err(e) => Err(e),
                Ok((_, p)) => match tensors_passed(d, p, gguf::le8(d, 8)) {
                    Err(e) => Err(e),
                    Ok(end) => if end > d.len() {
                        Err(ScanError::Short)
                    } else {
                        Ok(
                            Some(
                                NewHeader {
                                    bytes: padded(
                                        d.subrange(0, 24) + new_entries(d, 24, count) + d.subrange(
                                            p,
                                            end,
                                        ),
                                    ),
                                    data_start: aligned(end, ALIGNMENT as int),
                                },
                            ),
                        )
                    },
                },
            }
        },
    }
}

proof fn lemma_passed_forward(d: Seq<u8>, p: int, count: int)
    requires
        0 <= p,
    ensures
        strings_passed(d, p, count) matches Ok(q) ==> p <= q,
    decreases count,
{
    if count > 0 {
        if let Ok(q) = string_passed(d, p) {
            lemma_passed_forward(d, q, count - 1);
        }
    }
}

proof fn lemma_entry_forward(d: Seq<u8>, p: int)
    requires
        0 <= p,
    ensures
        entry_end(d, p) matches Ok(e) ==> type_at(d, p) is Some && p + 12 <= type_at(d, p)->0 + 4
            <= e,
        entry_end(d, p) matches Ok(e) ==> needs_fix(d, p) ==> {
            let k = type_at(d, p)->0;
            &&& k + 16 <= d.len()
            &&& e == k + 16 + gguf::le8(d, k + 8) * size_of_scalar(gguf::le4(d, k + 4) as u32)
            &&& k + 16 <= e
        },
{
    if let Some(k) = type_at(d, p) {
        let tag = gguf::le4(d, k) as u32;
        if tag == gguf::GGUF_TYPE_ARRAY && gguf::room(d, k + 4, 12) {
            let elem = gguf::le4(d, k + 4) as u32;
            let count = gguf::le8(d, k + 8);
            lemma_passed_forward(d, k + 16, count);
            assert(0 <= count * size_of_scalar(elem)) by (nonlinear_arith)
                requires
                    0 <= count,
                    0 <= size_of_scalar(elem),
            ;
        }
    }
}

proof fn lemma_scanned_forward(d: Seq<u8>, p: int, count: int)
    requires
        0 <= p,
    ensures
        scanned(d, p, count) matches Ok((_, end)) ==> p <= end,
    decreases count,
{
    if count > 0 {
        lemma_entry_forward(d, p);
        if let Ok(e) = entry_end(d, p) {
            lemma_scanned_forward(d, e, count - 1);
        }
    }
}

proof fn lemma_tensors_forward(d: Seq<u8>, p: int, count: int)
    requires
        0 <= p,
    ensures
        tensors_passed(d, p, count) matches Ok(end) ==> p <= end,
    decreases count,
{
    if count > 0 {
        if let Some(k) = type_at(d, p) {
            if let Ok(q) = passed(k + 4, 8 * gguf::le4(d, k) + 12) {
                lemma_tensors_forward(d, q, count - 1);
            }
        }
    }
}

impl<'a> Walk<'a> {
    /// Passes over the tensor records.
    fn pass_tensors(&mut self, count: u64) -> (r: Result<(), ScanError>)
        requires
            old(self).wf(),
        ensures
            final(self).data == old(self).data,
            match tensors_passed(old(self).data@, old(self).pos as int, count as int) {
                Ok(q) => r is Ok && final(self).pos == q && final(self).wf(),
                Err(e) => r == Err::<(), ScanError>(e),
            },
    {
        let mut left: u64 = count;
        while left > 0
            invariant
                self.wf(),
                self.data == old(self).data,
                tensors_passed(old(self).data@, old(self).pos as int, count as int)
                    == tensors_passed(self.data@, self.pos as int, left as int),
            decreases left,
        {
            match self.read_gguf_string() {
                Ok(_) => {},
                Err(e) => {
                    return Err(e);
                },
            }
            let n_dims: u32 = match self.read_u32() {
                Ok(v) => v,
                Err(e) => {
                    return Err(e);
                },
            };
            match self.pass(8 * n_dims as u64 + 12) {
                Ok(_) => {},
                Err(e) => {
                    return Err(e);
                },
            }
            left = left - 1;
        }
        Ok(())
    }
}

/// A patched header, ready to be written in front of the tensor data.
#[derive(Debug, Clone, PartialEq, Eq)]
pub struct PatchedHeader {
    pub header: Vec<u8>,
    /// Where the tensor data starts in the file that was patched.
    pub data_start: u64,
}

fn append_zeros(out: &mut Vec<u8>, n: u64)
    ensures
        final(out)@ == old(out)@ + zeros(n as int),
{
    let mut i: u64 = 0;
    assert(out@ =~= old(out)@ + zeros(0));
    while i < n
        invariant
            i <= n,
            out@ == old(out)@ + zeros(i as int),
        decreases n - i,
    {
        out.push(0);
        assert(out@ =~= old(out)@ + zeros(i + 1));
        i = i + 1;
    }
}

fn append_le8(out: &mut Vec<u8>, n: u64)
    ensures
        final(out)@ == old(out)@ + le8_bytes(n),
{
    out.push((n % 256) as u8);
    out.push((n / 0x100 % 256) as u8);
    out.push((n / 0x1_0000 % 256) as u8);
    out.push((n / 0x100_0000 % 256) as u8);
    out.push((n / 0x1_0000_0000 % 256) as u8);
    out.push((n / 0x100_0000_0000 % 256) as u8);
    out.push((n / 0x1_0000_0000_0000 % 256) as u8);
    out.push((n / 0x100_0000_0000_0000 % 256) as u8);
    assert(out@ =~= old(out)@ + le8_bytes(n));
}

fn append_range(out: &mut Vec<u8>, data: &[u8], from: u64, to: u64)
    requires
        from <= to <= data.len(),
    ensures
        final(out)@ == old(out)@ + data@.subrange(from as int, to as int),
{
    let part: &[u8] = slice_subrange(data, from as usize, to as usize);
    out.extend_from_slice(part);
    assert(out@ =~= old(out)@ + data@.subrange(from as int, to as int));
}

/// Patches the leading bytes of a GGUF file where they need it: every array of a
/// known key that has too few elements gets zero-filled ones, and the header is
/// padded to the alignment again. `None` where nothing is to be done.
pub fn patch_gguf_if_needed(data: &[u8]) -> (r: Result<Option<PatchedHeader>, ScanError>)
    ensures
        match patched(data@) {
            Err(e) => r matches Err(f) && f == e,
            Ok(None) => r matches Ok(None),
            Ok(Some(h)) => {
                &&& r matches Ok(Some(p))
                &&& p.header@ == h.bytes
                &&& p.data_start == h.data_start
            },
        },
{
    match needs_patch(data) {
        Err(e) => {
            return Err(e);
        },
        Ok(wanted) => if !wanted {
            return Ok(None);
        },
    }
    let ghost d = data@;
    let mut w: Walk = Walk { data, pos: 8 };
    let tensor_count: u64 = match w.read_u64() {
        Ok(v) => v,
        Err(e) => {
            return Err(e);
        },
    };
    let count: u64 = match w.read_u64() {
        Ok(v) => v,
        Err(e) => {
            return Err(e);
        },
    };
    let ghost fix = scanned(d, 24, count as int)->Ok_0.0;
    let ghost behind = scanned(d, 24, count as int)->Ok_0.1;
    let mut left: u64 = count;
    while left > 0
        invariant
            w.wf(),
            w.data@ == d,
            scanned(d, w.pos as int, left as int) matches Ok((_, e)) && e == behind,
        decreases left,
    {
        match w.pass_entry() {
            Ok(_) => {},
            Err(e) => {
                return Err(e);
            },
        }
        left = left - 1;
    }
    let entries_end: u64 = w.pos;
    match w.pass_tensors(tensor_count) {
        Ok(_) => {},
        Err(e) => {
            return Err(e);
        },
    }
    let end: u64 = w.pos;
    if end > data.len() as u64 {
        return Err(ScanError::Short);
    }
    proof {
        lemma_scanned_forward(d, 24, count as int);
        lemma_tensors_forward(d, behind, tensor_count as int);
        assert(0 <= behind <= end);
    }
    let mut out: Vec<u8> = Vec::new();
    append_range(&mut out, data, 0, 24);
    assert(out@ =~= d.subrange(0, 24));
    let mut w: Walk = Walk { data, pos: 24 };
    let mut left: u64 = count;
    assert(out@ + new_entries(d, 24, count as int) == d.subrange(0, 24) + new_entries(
        d,
        24,
        count as int,
    ));
    while left > 0
        invariant
            w.wf(),
            w.data@ == d,
            data@ == d,
            behind <= end <= d.len(),
            scanned(d, w.pos as int, left as int) matches Ok((_, e)) && e == behind,
            out@ + new_entries(d, w.pos as int, left as int) == d.subrange(0, 24) + new_entries(
                d,
                24,
                count as int,
            ),
        decreases left,
    {
        let from: u64 = w.pos;
        let ghost before = out@;
        let fix: Option<Fix> = match w.pass_entry() {
            Ok(f) => f,
            Err(e) => {
                return Err(e);
            },
        };
        let to: u64 = w.pos;
        proof {
            lemma_entry_forward(d, from as int);
            lemma_scanned_forward(d, to as int, left - 1);
        }
        match fix {
            Some(f) => {
                append_range(&mut out, data, from, f.count_offset);
                append_le8(&mut out, f.target);
                append_range(&mut out, data, f.count_offset + 8, to);
                let missing: u64 = f.target - f.count;
                assert(missing * f.elem_size <= 4 * 8 && 0 <= missing * f.elem_size)
                    by (nonlinear_arith)
                    requires
                        0 <= missing <= 4,
                        0 <= f.elem_size <= 8,
                ;
                append_zeros(&mut out, missing * f.elem_size);
                assert(out@ =~= before + new_entry(d, from as int, to as int));
            },
            None => {
                append_range(&mut out, data, from, to);
                assert(out@ =~= before + new_entry(d, from as int, to as int));
            },
        }
        assert(out@ + new_entries(d, to as int, left - 1) =~= before + (new_entry(
            d,
            from as int,
            to as int,
        ) + new_entries(d, to as int, left - 1)));
        left = left - 1;
    }
    proof {
        assert(out@ + Seq::<u8>::empty() =~= out@);
    }
    append_range(&mut out, data, entries_end, end);
    let ghost body = out@;
    let over: u64 = out.len() as u64 % 32;
    let pad: u64 = if over == 0 {
        0
    } else {
        32 - over
    };
    append_zeros(&mut out, pad);
    assert(out@ =~= padded(body));
    let rest: u64 = end % 32;
    let data_start: u64 = if rest == 0 {
        end
    } else {
        end + (32 - rest)
    };
    Ok(Some(PatchedHeader { header: out, data_start }))
}

/// The bytes of `a` from `p` on, `n` of them, are those of `b` from `q` on.
spec fn same_run(a: Seq<u8>, p: int, b: Seq<u8>, q: int, n: int) -> bool {
    &&& gguf::room(a, p, n)
    &&& gguf::room(b, q, n)
    &&& forall|i: int| 0 <= i < n ==> #[trigger] a[p + i] == b[q + i]
}

proof fn lemma_same_le(a: Seq<u8>, p: int, b: Seq<u8>, q: int, n: int, at: int)
    requires
        same_run(a, p, b, q, n),
        0 <= at,
    ensures
        at + 4 <= n ==> gguf::le4(a, p + at) == gguf::le4(b, q + at),
        at + 8 <= n ==> gguf::le8(a, p + at) == gguf::le8(b, q + at),
{
    if at + 4 <= n {
        assert(a[p + at] == b[q + at] && a[p + (at + 1)] == b[q + (at + 1)] && a[p + (at + 2)] == b[q
            + (at + 2)] && a[p + (at + 3)] == b[q + (at + 3)]);
    }
    if at + 8 <= n {
        assert(a[p + (at + 4)] == b[q + (at + 4)] && a[p + (at + 5)] == b[q + (at + 5)] && a[p + (at
            + 6)] == b[q + (at + 6)] && a[p + (at + 7)] == b[q + (at + 7)]);
    }
}

proof fn lemma_same_strings(a: Seq<u8>, p: int, b: Seq<u8>, q: int, n: int, at: int, count: int)
    requires
        same_run(a, p, b, q, n),
        0 <= at <= n,
        strings_passed(a, p + at, count) == Ok::<int, ScanError>(p + n),
        b.len() <= i64::MAX,
    ensures
        strings_passed(b, q + at, count) == Ok::<int, ScanError>(q + n),
    decreases count,
{
    if count > 0 {
        let e = string_passed(a, p + at)->Ok_0;
        lemma_passed_forward(a, e, count - 1);
        lemma_same_le(a, p, b, q, n, at);
        assert(string_passed(b, q + at) == Ok::<int, ScanError>(q + (e - p)));
        lemma_same_strings(a, p, b, q, n, e - p, count - 1);
    }
}

/// Where the key and the type of an entry stand does not depend on what
/// surrounds them.
proof fn lemma_same_key(a: Seq<u8>, p: int, b: Seq<u8>, q: int, n: int)
    requires
        type_at(a, p) matches Some(k) && k + 4 <= p + n,
        same_run(a, p, b, q, n),
    ensures
        type_at(b, q) == Some(q + (type_at(a, p)->0 - p)),
        gguf::string_bytes(b, q) == gguf::string_bytes(a, p),
        gguf::le4(b, type_at(b, q)->0) == gguf::le4(a, type_at(a, p)->0),
{
    let k = type_at(a, p)->0;
    lemma_same_le(a, p, b, q, n, 0);
    lemma_same_le(a, p, b, q, n, k - p);
    assert forall|i: int| 0 <= i < gguf::le8(a, p) implies gguf::string_bytes(b, q)[i]
        == gguf::string_bytes(a, p)[i] by {
        assert(a[p + (8 + i)] == b[q + (8 + i)]);
    }
    assert(gguf::string_bytes(b, q) =~= gguf::string_bytes(a, p));
}

/// An entry that is copied as it is reads as it did.
#[verifier::rlimit(40)]
proof fn lemma_copied_entry(a: Seq<u8>, p: int, b: Seq<u8>, q: int, n: int)
    requires
        entry_end(a, p) == Ok::<int, ScanError>(p + n),
        same_run(a, p, b, q, n),
        b.len() <= i64::MAX,
    ensures
        entry_end(b, q) == Ok::<int, ScanError>(q + n),
        needs_fix(b, q) == needs_fix(a, p),
{
    lemma_entry_forward(a, p);
    lemma_same_key(a, p, b, q, n);
    let k = type_at(a, p)->0;
    let at = k - p;
    let tag = gguf::le4(a, k) as u32;
    if tag == gguf::GGUF_TYPE_ARRAY {
        let elem = gguf::le4(a, k + 4) as u32;
        let count = gguf::le8(a, k + 8);
        lemma_passed_forward(a, k + 16, count);
        assert(0 <= count * size_of_scalar(elem)) by (nonlinear_arith)
            requires
                0 <= count,
                0 <= size_of_scalar(elem),
        ;
        lemma_same_le(a, p, b, q, n, at + 4);
        lemma_same_le(a, p, b, q, n, at + 8);
        if elem == gguf::GGUF_TYPE_STRING {
            lemma_same_strings(a, p, b, q, n, at + 16, count);
        }
    } else if tag == gguf::GGUF_TYPE_STRING {
        lemma_same_le(a, p, b, q, n, at + 4);
    }
}

proof fn lemma_le8_of_bytes(b: Seq<u8>, q: int, n: u64)
    requires
        gguf::room(b, q, 8),
        n < 256,
        forall|i: int| 0 <= i < 8 ==> #[trigger] b[q + i] == le8_bytes(n)[i],
    ensures
        gguf::le8(b, q) == n,
{
    assert(b[q + 0] == le8_bytes(n)[0] && b[q + 1] == le8_bytes(n)[1] && b[q + 2] == le8_bytes(n)[2]
        && b[q + 3] == le8_bytes(n)[3] && b[q + 4] == le8_bytes(n)[4] && b[q + 5] == le8_bytes(n)[5]
        && b[q + 6] == le8_bytes(n)[6] && b[q + 7] == le8_bytes(n)[7]);
}

/// An entry that was extended has enough elements.
proof fn lemma_extended_entry(a: Seq<u8>, p: int, e: int, b: Seq<u8>, q: int)
    requires
        entry_end(a, p) == Ok::<int, ScanError>(e),
        0 <= p,
        e <= a.len(),
        needs_fix(a, p),
        gguf::room(b, q, new_entry(a, p, e).len() as int),
        forall|i: int|
            0 <= i < new_entry(a, p, e).len() ==> #[trigger] b[q + i] == new_entry(a, p, e)[i],
        b.len() <= i64::MAX,
    ensures
        entry_end(b, q) == Ok::<int, ScanError>(q + new_entry(a, p, e).len()),
        !needs_fix(b, q),
{
    lemma_entry_forward(a, p);
    let k = type_at(a, p)->0;
    let at = k - p;
    let target = expected_count(gguf::string_bytes(a, p))->0;
    let elem = gguf::le4(a, k + 4) as u32;
    let size = size_of_scalar(elem);
    let count = gguf::le8(a, k + 8);
    let missing = (target - count) * size;
    let fresh = new_entry(a, p, e);
    assert(0 <= missing) by (nonlinear_arith)
        requires
            missing == (target - count) * size,
            count < target,
            0 <= size,
    ;
    assert(fresh.len() == (e - p) + missing);
    assert(same_run(a, p, b, q, at + 8)) by {
        assert forall|i: int| 0 <= i < at + 8 implies #[trigger] a[p + i] == b[q + i] by {
            assert(fresh[i] == a[p + i]);
        }
    }
    lemma_same_key(a, p, b, q, at + 8);
    lemma_same_le(a, p, b, q, at + 8, at + 4);
    assert(gguf::le8(b, q + at + 8) == target) by {
        assert forall|i: int| 0 <= i < 8 implies #[trigger] b[q + at + 8 + i] == le8_bytes(
            target as u64,
        )[i] by {
            assert(b[q + (at + 8 + i)] == fresh[at + 8 + i]);
        }
        lemma_le8_of_bytes(b, q + at + 8, target as u64);
    }
    assert(count * size + missing == target * size) by (nonlinear_arith)
        requires
            missing == (target - count) * size,
    ;
    assert(elem != gguf::GGUF_TYPE_STRING);
    assert(entry_end(b, q) == passed(q + at + 16, target * size));
}

/// The bytes `s` stand in `b` at `q`.
spec fn stands_at(b: Seq<u8>, q: int, s: Seq<u8>) -> bool {
    gguf::room(b, q, s.len() as int) && b.subrange(q, q + s.len()) == s
}

proof fn lemma_stands_split(b: Seq<u8>, q: int, x: Seq<u8>, y: Seq<u8>)
    requires
        stands_at(b, q, x + y),
    ensures
        stands_at(b, q, x),
        stands_at(b, q + x.len(), y),
{
    let all = b.subrange(q, q + (x + y).len());
    assert(b.subrange(q, q + x.len()) =~= x) by {
        assert forall|i: int| 0 <= i < x.len() implies b.subrange(q, q + x.len())[i] == x[i] by {
            assert(all[i] == (x + y)[i]);
        }
    }
    assert(b.subrange(q + x.len(), q + x.len() + y.len()) =~= y) by {
        assert forall|i: int| 0 <= i < y.len() implies b.subrange(
            q + x.len(),
            q + x.len() + y.len(),
        )[i] == y[i] by {
            assert(all[x.len() + i] == (x + y)[x.len() + i]);
        }
    }
}

/// A rewritten entry reads to its end, and needs no fix.
proof fn lemma_rewritten_entry(d: Seq<u8>, p: int, e: int, b: Seq<u8>, q: int)
    requires
        0 <= p,
        entry_end(d, p) == Ok::<int, ScanError>(e),
        e <= d.len(),
        stands_at(b, q, new_entry(d, p, e)),
        b.len() <= i64::MAX,
    ensures
        entry_end(b, q) == Ok::<int, ScanError>(q + new_entry(d, p, e).len()),
        !needs_fix(b, q),
{
    lemma_entry_forward(d, p);
    let fresh = new_entry(d, p, e);
    assert forall|i: int| 0 <= i < fresh.len() implies #[trigger] b[q + i] == fresh[i] by {
        assert(b.subrange(q, q + fresh.len())[i] == b[q + i]);
    }
    if needs_fix(d, p) {
        lemma_extended_entry(d, p, e, b, q);
    } else {
        assert forall|i: int| 0 <= i < e - p implies #[trigger] d[p + i] == b[q + i] by {
            assert(b[q + i] == fresh[i]);
        }
        lemma_copied_entry(d, p, b, q, e - p);
    }
}

/// Entries that have been rewritten read to their end, and none needs a fix.
proof fn lemma_rewritten_entries(d: Seq<u8>, p: int, count: int, b: Seq<u8>, q: int)
    requires
        0 <= p,
        scanned(d, p, count) matches Ok((_, end)) && end <= d.len(),
        stands_at(b, q, new_entries(d, p, count)),
        b.len() <= i64::MAX,
    ensures
        scanned(b, q, count) == Ok::<(bool, int), ScanError>(
            (false, q + new_entries(d, p, count).len()),
        ),
    decreases count,
{
    if count > 0 {
        lemma_entry_forward(d, p);
        let e = entry_end(d, p)->Ok_0;
        lemma_scanned_forward(d, e, count - 1);
        let first = new_entry(d, p, e);
        let rest = new_entries(d, e, count - 1);
        lemma_stands_split(b, q, first, rest);
        lemma_rewritten_entry(d, p, e, b, q);
        lemma_rewritten_entries(d, e, count - 1, b, q + first.len());
    }
}

/// A patched file needs no patch: whatever tensor data follows the new header,
/// every array is now long enough.
pub proof fn law_a_patched_file_needs_no_patch(d: Seq<u8>, h: NewHeader, data: Seq<u8>)
    requires
        patched(d) == Ok::<Option<NewHeader>, ScanError>(Some(h)),
        (h.bytes + data).len() <= i64::MAX,
    ensures
        wants_patch(h.bytes + data) == Ok::<bool, ScanError>(false),
        patched(h.bytes + data) == Ok::<Option<NewHeader>, ScanError>(None),
{
    let b = h.bytes + data;
    let count = gguf::le8(d, 16);
    let p = scanned(d, 24, count)->Ok_0.1;
    let end = tensors_passed(d, p, gguf::le8(d, 8))->Ok_0;
    lemma_scanned_forward(d, 24, count);
    lemma_tensors_forward(d, p, gguf::le8(d, 8));
    let fresh = new_entries(d, 24, count);
    let body = d.subrange(0, 24) + fresh + d.subrange(p, end);
    law_aligned(body.len() as int, ALIGNMENT as int);
    assert(same_run(d, 0, b, 0, 24)) by {
        assert forall|i: int| 0 <= i < 24 implies #[trigger] d[0 + i] == b[0 + i] by {
            assert(h.bytes[i] == body[i]);
        }
    }
    lemma_same_le(d, 0, b, 0, 24, 0);
    lemma_same_le(d, 0, b, 0, 24, 16);
    assert(b.subrange(24, 24int + fresh.len()) =~= fresh) by {
        assert forall|i: int| 0 <= i < fresh.len() implies b.subrange(24, 24int + fresh.len())[i]
            == fresh[i] by {
            assert(h.bytes[24 + i] == body[24 + i]);
        }
    }
    lemma_rewritten_entries(d, 24, count, b, 24);
}

/// The tensor data of a patched file starts at a multiple of the alignment.
pub proof fn law_patched_data_is_aligned(d: Seq<u8>, h: NewHeader)
    requires
        patched(d) == Ok::<Option<NewHeader>, ScanError>(Some(h)),
    ensures
        h.bytes.len() % 32 == 0,
        h.data_start % 32 == 0,
{
    let count = gguf::le8(d, 16);
    let p = scanned(d, 24, count)->Ok_0.1;
    let end = tensors_passed(d, p, gguf::le8(d, 8))->Ok_0;
    lemma_scanned_forward(d, 24, count);
    lemma_tensors_forward(d, p, gguf::le8(d, 8));
    let body = d.subrange(0, 24) + new_entries(d, 24, count) + d.subrange(p, end);
    law_aligned(body.len() as int, ALIGNMENT as int);
    law_aligned(end, ALIGNMENT as int);
}

proof fn lemma_longer_le(d: Seq<u8>, x: Seq<u8>, p: int)
    ensures
        gguf::room(d, p, 4) ==> gguf::le4(d + x, p) == gguf::le4(d, p),
        gguf::room(d, p, 8) ==> gguf::le8(d + x, p) == gguf::le8(d, p),
{
}

proof fn lemma_longer_strings(d: Seq<u8>, x: Seq<u8>, p: int, count: int)
    ensures
        strings_passed(d, p, count) != Err::<int, ScanError>(ScanError::Short) ==> strings_passed(
            d + x,
            p,
            count,
        ) == strings_passed(d, p, count),
    decreases count,
{
    if count > 0 {
        lemma_longer_le(d, x, p);
        if let Ok(q) = string_passed(d, p) {
            lemma_longer_strings(d, x, q, count - 1);
        }
    }
}

proof fn lemma_longer_key(d: Seq<u8>, x: Seq<u8>, p: int)
    requires
        type_at(d, p) is Some,
    ensures
        type_at(d + x, p) == type_at(d, p),
        gguf::string_bytes(d + x, p) == gguf::string_bytes(d, p),
        gguf::le4(d + x, type_at(d, p)->0) == gguf::le4(d, type_at(d, p)->0),
{
    lemma_longer_le(d, x, p);
    lemma_longer_le(d, x, type_at(d, p)->0);
    assert(gguf::string_bytes(d + x, p) =~= gguf::string_bytes(d, p));
}

proof fn lemma_longer_entry(d: Seq<u8>, x: Seq<u8>, p: int)
    requires
        0 <= p,
    ensures
        entry_end(d, p) != Err::<int, ScanError>(ScanError::Short) ==> entry_end(d + x, p)
            == entry_end(d, p),
        entry_end(d, p) is Ok ==> needs_fix(d + x, p) == needs_fix(d, p),
{
    if let Some(k) = type_at(d, p) {
        lemma_longer_key(d, x, p);
        lemma_longer_le(d, x, k + 4);
        lemma_longer_le(d, x, k + 8);
        if gguf::room(d, k + 4, 12) {
            lemma_longer_strings(d, x, k + 16, gguf::le8(d, k + 8));
        }
    }
}

proof fn lemma_longer_scan(d: Seq<u8>, x: Seq<u8>, p: int, count: int)
    requires
        0 <= p,
    ensures
        scanned(d, p, count) != Err::<(bool, int), ScanError>(ScanError::Short) ==> scanned(
            d + x,
            p,
            count,
        ) == scanned(d, p, count),
    decreases count,
{
    if count > 0 {
        lemma_longer_entry(d, x, p);
        lemma_entry_forward(d, p);
        if let Ok(e) = entry_end(d, p) {
            lemma_longer_scan(d, x, e, count - 1);
        }
    }
}

proof fn lemma_longer_tensors(d: Seq<u8>, x: Seq<u8>, p: int, count: int)
    requires
        0 <= p,
    ensures
        tensors_passed(d, p, count) is Ok ==> tensors_passed(d + x, p, count) == tensors_passed(
            d,
            p,
            count,
        ),
    decreases count,
{
    if count > 0 {
        if let Some(k) = type_at(d, p) {
            lemma_longer_key(d, x, p);
            if let Ok(q) = passed(k + 4, 8 * gguf::le4(d, k) + 12) {
                lemma_longer_tensors(d, x, q, count - 1);
            }
        }
    }
}

proof fn lemma_longer_rewrite(d: Seq<u8>, x: Seq<u8>, p: int, count: int)
    requires
        0 <= p,
        scanned(d, p, count) matches Ok((_, end)) && end <= d.len(),
    ensures
        new_entries(d + x, p, count) == new_entries(d, p, count),
    decreases count,
{
    if count > 0 {
        lemma_longer_entry(d, x, p);
        lemma_entry_forward(d, p);
        let e = entry_end(d, p)->Ok_0;
        let k = type_at(d, p)->0;
        lemma_scanned_forward(d, e, count - 1);
        lemma_longer_key(d, x, p);
        lemma_longer_le(d, x, k + 4);
        lemma_longer_le(d, x, k + 8);
        lemma_longer_rewrite(d, x, e, count - 1);
        assert((d + x).subrange(p, e) =~= d.subrange(p, e));
        if needs_fix(d, p) {
            assert((d + x).subrange(p, k + 8) =~= d.subrange(p, k + 8));
            assert((d + x).subrange(k + 16, e) =~= d.subrange(k + 16, e));
        }
    }
}

/// The leading bytes of a file decide: once they suffice, more of the file
/// changes nothing.
pub proof fn law_leading_bytes_decide(d: Seq<u8>, more: Seq<u8>)
    requires
        (d + more).len() <= i64::MAX,
        patched(d) is Ok,
    ensures
        patched(d + more) == patched(d),
{
    let b = d + more;
    lemma_longer_le(d, more, 0);
    if gguf::room(d, 0, 24) {
        lemma_longer_le(d, more, 8);
        lemma_longer_le(d, more, 16);
        let count = gguf::le8(d, 16);
        lemma_longer_scan(d, more, 24, count);
        lemma_scanned_forward(d, 24, count);
        if wants_patch(d) == Ok::<bool, ScanError>(true) {
            let p = scanned(d, 24, count)->Ok_0.1;
            lemma_longer_tensors(d, more, p, gguf::le8(d, 8));
            lemma_tensors_forward(d, p, gguf::le8(d, 8));
            let end = tensors_passed(d, p, gguf::le8(d, 8))->Ok_0;
            lemma_longer_rewrite(d, more, 24, count);
            assert(b.subrange(0, 24) =~= d.subrange(0, 24));
            assert(b.subrange(p, end) =~= d.subrange(p, end));
        }
    }
}

/// A tensor's record: the length of its name, the name, the number of its
/// dimensions, the dimensions, and twelve bytes of type and offset.
pub open spec fn is_record(x: Seq<u8>) -> bool {
    let n = gguf::le8(x, 0);
    &&& x.len() >= 8 + n + 4
    &&& x.len() == 8 + n + 4 + 8 * gguf::le4(x, 8 + n) + 12
}

/// A table of tensors ends behind all of its records, whatever the length of
/// their names and the number of their dimensions.
pub proof fn law_a_table_ends_behind_its_records(
    front: Seq<u8>,
    records: Seq<Seq<u8>>,
    rest: Seq<u8>,
)
    requires
        forall|i: int| 0 <= i < records.len() ==> is_record(#[trigger] records[i]),
        (front + fit::run_on(records) + rest).len() <= i64::MAX,
    ensures
        tensors_passed(
            front + fit::run_on(records) + rest,
            front.len() as int,
            records.len() as int,
        ) == Ok::<int, ScanError>((front.len() + fit::run_on(records).len()) as int),
    decreases records.len(),
{
    let d = front + fit::run_on(records) + rest;
    if records.len() > 0 {
        let x = records[0];
        let others = records.skip(1);
        assert(is_record(x));
        assert forall|i: int| 0 <= i < others.len() implies is_record(#[trigger] others[i]) by {
            assert(others[i] == records[i + 1]);
        }
        assert(d =~= (front + x) + fit::run_on(others) + rest);
        law_a_table_ends_behind_its_records(front + x, others, rest);
        let p = front.len() as int;
        let n = gguf::le8(x, 0);
        assert(same_run(x, 0, d, p, x.len() as int)) by {
            assert forall|i: int| 0 <= i < x.len() implies #[trigger] x[0 + i] == d[p + i] by {}
        }
        lemma_same_le(x, 0, d, p, x.len() as int, 0);
        lemma_same_le(x, 0, d, p, x.len() as int, 8 + n);
        assert(p + (8 + n) == p + 8 + n);
        assert(type_at(d, p) == Some(p + 8 + n));
    } else {
        assert(fit::run_on(records) =~= Seq::empty());
    }
}

/// One more record is passed after the others.
proof fn lemma_tensors_one_more(d: Seq<u8>, p: int, count: int)
    requires
        0 < count,
        tensors_passed(d, p, count - 1) is Ok,
    ensures
        tensors_passed(d, p, count) == tensors_passed(d, tensors_passed(d, p, count - 1)->Ok_0, 1),
    decreases count,
{
    if count > 1 {
        let k = type_at(d, p)->0;
        let q = passed(k + 4, 8 * gguf::le4(d, k) + 12)->Ok_0;
        lemma_tensors_one_more(d, q, count - 1);
    }
}

/// Where the tensors of a file can be read, the scan ends where the reading
/// does.
pub proof fn law_the_scan_ends_with_the_tensors(
    d: Seq<u8>,
    p: int,
    count: int,
    ts: Seq<(Seq<char>, u64)>,
    e: int,
)
    requires
        0 <= p <= d.len() <= i64::MAX,
        fit::tensors_at(d, p, count) == Some((ts, e)),
    ensures
        tensors_passed(d, p, count) == Ok::<int, ScanError>(e),
        p <= e <= d.len(),
    decreases count,
{
    if count > 0 {
        let (before, q) = fit::tensors_at(d, p, count - 1)->0;
        law_the_scan_ends_with_the_tensors(d, p, count - 1, before, q);
        lemma_tensors_one_more(d, p, count);
        let k = gguf::string_end(d, q)->0;
        assert(type_at(d, q) == Some(k));
        reveal_with_fuel(tensors_passed, 2);
    }
}

proof fn lemma_strings_agree(d: Seq<u8>, p: int, count: int)
    requires
        0 <= p <= d.len() <= i64::MAX,
        gguf::scalars_end(d, p, gguf::GGUF_TYPE_STRING, count) is Some,
    ensures
        strings_passed(d, p, count) == Ok::<int, ScanError>(
            gguf::scalars_end(d, p, gguf::GGUF_TYPE_STRING, count)->0,
        ),
    decreases count,
{
    if count > 0 {
        let q = gguf::string_end(d, p)->0;
        lemma_strings_agree(d, q, count - 1);
    }
}

/// Where a value can be read, it is passed to its end.
pub proof fn law_values_are_passed_to_their_end(d: Seq<u8>, p: int, tag: u32, e: int)
    requires
        0 <= p <= d.len() <= i64::MAX,
        gguf::value_end(d, p, tag) == Some(e),
    ensures
        value_passed(d, p, tag) == Ok::<int, ScanError>(e),
{
    gguf::law_values_stay_in_bounds(d, p, tag);
    if tag == gguf::GGUF_TYPE_ARRAY {
        let elem = gguf::le4(d, p) as u32;
        let count = gguf::le8(d, p + 4);
        if elem == gguf::GGUF_TYPE_STRING {
            lemma_strings_agree(d, p + 12, count);
        } else if let Some(n) = gguf::scalar_bytes(elem) {
            gguf::law_an_array_ends_behind_its_elements(d, p, n);
        } else {
            assert(count * 0 == 0);
        }
    }
}

/// Where the entries of a header can be read, they are scanned to their end.
pub proof fn law_entries_are_scanned_to_their_end(d: Seq<u8>, p: int, count: int, e: int)
    requires
        0 <= p <= d.len() <= i64::MAX,
        fit::entries_end(d, p, count) == Some(e),
    ensures
        scanned(d, p, count) matches Ok((_, end)) && end == e,
    decreases count,
{
    if count > 0 {
        reveal(fit::entry_end);
        let k = gguf::string_end(d, p)->0;
        let q = fit::entry_end(d, p)->0;
        gguf::law_values_stay_in_bounds(d, k + 4, gguf::le4(d, k) as u32);
        law_values_are_passed_to_their_end(d, k + 4, gguf::le4(d, k) as u32, q);
        assert(type_at(d, p) == Some(k));
        law_entries_are_scanned_to_their_end(d, q, count - 1, e);
    }
}

/// A record that is moved as it is stays the same record.
proof fn lemma_record_moved(d: Seq<u8>, p: int, f: Seq<u8>, q: int, n: int, at: int, len: int, dims: int)
    requires
        same_run(d, p, f, q, n),
        0 <= at,
        len == gguf::le8(d, p + at),
        dims == gguf::le4(d, p + at + 8 + len),
        at + 8 + len + 16 + 8 * dims <= n,
    ensures
        gguf::le8(f, q + at) == len,
        gguf::le4(f, q + at + 8 + len) == dims,
        gguf::le8(f, q + at + 8 + len + 8 + 8 * dims) == gguf::le8(
            d,
            p + at + 8 + len + 8 + 8 * dims,
        ),
        gguf::string_bytes(f, q + at) == gguf::string_bytes(d, p + at),
{
    lemma_same_le(d, p, f, q, n, at);
    assert(0 <= len && 0 <= dims);
    lemma_same_le(d, p, f, q, n, at + 8 + len);
    assert(p + (at + 8 + len) == p + at + 8 + len && q + (at + 8 + len) == q + at + 8 + len);
    let o = at + 8 + len + 8 + 8 * dims;
    lemma_same_le(d, p, f, q, n, o);
    assert(p + o == p + at + 8 + len + 8 + 8 * dims && q + o == q + at + 8 + len + 8 + 8 * dims);
    let (x, y) = (gguf::string_bytes(d, p + at), gguf::string_bytes(f, q + at));
    assert forall|i: int| 0 <= i < len implies y[i] == x[i] by {
        assert(d[p + (at + 8 + i)] == f[q + (at + 8 + i)]);
    }
    assert(x =~= y);
}

/// Tensors that are moved as they are stay the same tensors.
proof fn lemma_tensors_moved(
    d: Seq<u8>,
    p: int,
    n: int,
    f: Seq<u8>,
    q: int,
    count: int,
    ts: Seq<(Seq<char>, u64)>,
    end: int,
)
    requires
        0 <= p <= end <= p + n,
        d.len() <= i64::MAX,
        same_run(d, p, f, q, n),
        fit::tensors_at(d, p, count) == Some((ts, end)),
    ensures
        fit::tensors_at(f, q, count) == Some((ts, q + (end - p))),
    decreases count,
{
    if count > 0 {
        let (before, a) = fit::tensors_at(d, p, count - 1)->0;
        law_the_scan_ends_with_the_tensors(d, p, count - 1, before, a);
        let k = gguf::string_end(d, a)->0;
        let dims = gguf::le4(d, k);
        lemma_tensors_moved(d, p, n, f, q, count - 1, before, a);
        let at = a - p;
        assert(p + at == a && p + at + 8 + gguf::le8(d, a) == k);
        lemma_record_moved(d, p, f, q, n, at, gguf::le8(d, a), dims);
        let b = q + at;
        let l = b + 8 + gguf::le8(d, a);
        assert(gguf::string_end(f, b) == Some(l));
        assert(gguf::room(f, l, 4) && gguf::room(f, l + 4, 8 * dims + 12));
        assert(l + 16 + 8 * dims == q + (end - p));
        assert(gguf::le8(f, l + 8 + 8 * dims) == gguf::le8(d, k + 8 + 8 * dims));
    }
}

/// A patched file keeps its tensors: where the tensors of a file can be read,
/// the data in it starts at the next multiple of 32 behind them, and the new
/// header holds the same tensors, by name and offset, with nothing but zeros
/// behind them, up to a multiple of 32.
pub proof fn law_a_patched_file_keeps_its_tensors(
    d: Seq<u8>,
    h: NewHeader,
    p: int,
    ts: Seq<(Seq<char>, u64)>,
    e: int,
)
    requires
        patched(d) == Ok::<Option<NewHeader>, ScanError>(Some(h)),
        fit::entries_end(d, 24, gguf::le8(d, 16)) == Some(p),
        fit::tensors_at(d, p, gguf::le8(d, 8)) == Some((ts, e)),
    ensures
        e <= h.data_start < e + 32,
        h.data_start % 32 == 0,
        h.bytes.take(24) == d.take(24),
        exists|q: int|
            {
                &&& 24 <= q
                &&& q + (e - p) <= h.bytes.len() < q + (e - p) + 32
                &&& #[trigger] h.bytes.subrange(q, q + (e - p)) == d.subrange(p, e)
                &&& fit::tensors_at(h.bytes, q, gguf::le8(d, 8)) == Some((ts, q + (e - p)))
                &&& forall|i: int|
                    q + (e - p) <= i < h.bytes.len() ==> #[trigger] h.bytes[i] == 0
            },
{
    let count = gguf::le8(d, 16);
    law_entries_are_scanned_to_their_end(d, 24, count, p);
    lemma_scanned_forward(d, 24, count);
    assert(24 <= p <= d.len()) by {
        lemma_entries_in_bounds(d, 24, count);
    }
    law_the_scan_ends_with_the_tensors(d, p, gguf::le8(d, 8), ts, e);
    law_aligned(e, ALIGNMENT as int);
    let fresh = new_entries(d, 24, count);
    let body = d.subrange(0, 24) + fresh + d.subrange(p, e);
    law_aligned(body.len() as int, ALIGNMENT as int);
    let q = 24int + fresh.len();
    assert(h.bytes == padded(body));
    assert(h.bytes.take(24) =~= d.take(24));
    assert(h.bytes.subrange(q, q + (e - p)) =~= d.subrange(p, e));
    assert(same_run(d, p, h.bytes, q, e - p)) by {
        let (x, y) = (d.subrange(p, e), h.bytes.subrange(q, q + (e - p)));
        assert forall|i: int| 0 <= i < e - p implies #[trigger] d[p + i] == h.bytes[q + i] by {
            assert(x[i] == y[i]);
        }
    }
    lemma_tensors_moved(d, p, e - p, h.bytes, q, gguf::le8(d, 8), ts, e);
}

proof fn lemma_entries_in_bounds(d: Seq<u8>, p: int, count: int)
    requires
        0 <= p <= d.len(),
    ensures
        fit::entries_end(d, p, count) matches Some(e) ==> p <= e <= d.len(),
    decreases count,
{
    if count > 0 {
        reveal(fit::entry_end);
        if let Some(k) = gguf::string_end(d, p) {
            if gguf::room(d, k, 4) {
                gguf::law_values_stay_in_bounds(d, k + 4, gguf::le4(d, k) as u32);
            }
        }
        if let Some(e) = fit::entry_end(d, p) {
            lemma_entries_in_bounds(d, e, count - 1);
        }
    }
}

/// The array that is too short is the one of rope sections with fewer than four
/// elements of a fixed size, and no other.
pub proof fn law_only_short_rope_sections_are_fixed(d: Seq<u8>, p: int, k: int)
    requires
        type_at(d, p) == Some(k),
    ensures
        needs_fix(d, p) <==> {
            &&& d.subrange(p + 8, p + 8 + gguf::le8(d, p)) == encode_utf8(
                "qwen35.rope.dimension_sections"@,
            )
            &&& gguf::le4(d, k) == 9
            &&& gguf::scalar_bytes(gguf::le4(d, k + 4) as u32) is Some
            &&& gguf::le8(d, k + 8) < 4
        },
{
}

/// A short array is filled up with zeros: its key, its types and its elements
/// stay, it counts four elements, and those that it lacked are zero.
pub proof fn law_a_short_array_is_filled_with_zeros(d: Seq<u8>, p: int, k: int, e: int, size: int)
    requires
        0 <= p,
        type_at(d, p) == Some(k),
        entry_end(d, p) == Ok::<int, ScanError>(e),
        e <= d.len(),
        needs_fix(d, p),
        gguf::scalar_bytes(gguf::le4(d, k + 4) as u32) == Some(size),
    ensures
        ({
            let x = new_entry(d, p, e);
            let had = gguf::le8(d, k + 8) * size;
            &&& x.len() == k + 16 + 4 * size - p
            &&& x.take(k + 8 - p) == d.subrange(p, k + 8)
            &&& gguf::le8(x, k + 8 - p) == 4
            &&& x.subrange(k + 16 - p, k + 16 - p + had) == d.subrange(k + 16, k + 16 + had)
            &&& forall|i: int| k + 16 - p + had <= i < x.len() ==> #[trigger] x[i] == 0
        }),
{
    lemma_entry_forward(d, p);
    let x = new_entry(d, p, e);
    let c = gguf::le8(d, k + 8);
    let had = c * size;
    assert((4 - c) * size == 4 * size - c * size) by (nonlinear_arith);
    assert((4 - c) * size >= 0) by (nonlinear_arith)
        requires
            c < 4,
            size >= 0,
    ;
    assert(e == k + 16 + had);
    let a = d.subrange(p, k + 8);
    let b = le8_bytes(4);
    let z = zeros((4 - c) * size);
    assert(x =~= a + b + d.subrange(k + 16, e) + z);
    assert(x.take(k + 8 - p) =~= a);
    assert(same_run(b, 0, x, k + 8 - p, 8)) by {
        assert forall|i: int| 0 <= i < 8 implies #[trigger] b[0 + i] == x[k + 8 - p + i] by {}
    }
    lemma_same_le(b, 0, x, k + 8 - p, 8, 0);
    assert(x.subrange(k + 16 - p, k + 16 - p + had) =~= d.subrange(k + 16, k + 16 + had));
    assert forall|i: int| k + 16 - p + had <= i < x.len() implies #[trigger] x[i] == 0 by {
        assert(x[i] == z[i - (k + 16 - p + had)]);
    }
}

/// Every other entry stays as it is, and the entries keep their order.
pub proof fn law_other_entries_stay(d: Seq<u8>, p: int, e: int, count: int)
    requires
        0 < count,
        entry_end(d, p) == Ok::<int, ScanError>(e),
    ensures
        !needs_fix(d, p) ==> new_entry(d, p, e) == d.subrange(p, e),
        new_entries(d, p, count) == new_entry(d, p, e) + new_entries(d, e, count - 1),
        new_entries(d, p, 0).len() == 0,
{
}

/// A file is patched exactly where it is a GGUF file with an array that is too
/// short: the entry at the end of the first `i` ones.
pub proof fn law_a_file_is_patched_for_a_short_array(d: Seq<u8>, p: int, i: int, count: int)
    requires
        scanned(d, p, count) is Ok,
        0 <= i < count,
        scanned(d, p, i) matches Ok((_, q)) && needs_fix(d, q),
    ensures
        scanned(d, p, count) matches Ok((fix, _)) && fix,
    decreases count,
{
    if i > 0 {
        law_a_file_is_patched_for_a_short_array(d, entry_end(d, p)->Ok_0, i - 1, count - 1);
    }
}

} // verus!
