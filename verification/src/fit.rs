//! How many model layers fit on the GPU.
//!
//! The layer count and attention dimensions are read from the GGUF header, the
//! sizes of expert tensors from the tensor table behind it, and the file's size
//! stands for the weight bytes.
use crate::gguf;
use crate::gguf::Cursor;
use crate::text;
use vstd::prelude::*;
use vstd::slice::slice_subrange;
use vstd::utf8::encode_utf8;

verus! {

/// What the parser extracted from a GGUF header that matters for fitting.
#[derive(Debug, Clone)]
pub struct GgufInfo {
    /// Number of transformer blocks/layers (`<arch>.block_count`).
    pub n_layers: u32,
    /// Embedding dimension (`<arch>.embedding_length`), if present.
    pub n_embd: Option<u32>,
    /// Number of attention heads (`<arch>.attention.head_count`), if present.
    pub n_head: Option<u32>,
    /// Number of key/value heads (`<arch>.attention.head_count_kv`).
    pub n_head_kv: Option<u32>,
    /// Explicit key head dimension (`<arch>.attention.key_length`).
    pub key_length: Option<u32>,
    /// Explicit value head dimension (`<arch>.attention.value_length`).
    pub value_length: Option<u32>,
    /// Hybrid-SSM attention cadence (`<arch>.full_attention_interval`): only
    /// one layer in every `interval` pays per-token KV cache.
    pub full_attention_interval: Option<u32>,
    /// `general.architecture`, e.g. `qwen35moe`.
    pub architecture: Option<String>,
}

/// The integer fields that are read from a header.
#[derive(Debug, Clone, Copy, PartialEq, Eq, Structural)]
pub enum Field {
    Layers,
    Embd,
    HeadKv,
    Head,
    KeyLength,
    ValueLength,
    Interval,
}

/// The field that a key stands for.
pub open spec fn field_named(key: Seq<u8>) -> Option<Field> {
    if gguf::bytes_end_with(key, encode_utf8(".block_count"@)) {
        Some(Field::Layers)
    } else if gguf::bytes_end_with(key, encode_utf8(".embedding_length"@)) {
        Some(Field::Embd)
    } else if gguf::bytes_end_with(key, encode_utf8(".attention.head_count_kv"@)) {
        Some(Field::HeadKv)
    } else if gguf::bytes_end_with(key, encode_utf8(".attention.head_count"@)) {
        Some(Field::Head)
    } else if gguf::bytes_end_with(key, encode_utf8(".attention.key_length"@)) {
        Some(Field::KeyLength)
    } else if gguf::bytes_end_with(key, encode_utf8(".attention.value_length"@)) {
        Some(Field::ValueLength)
    } else if gguf::bytes_end_with(key, encode_utf8(".full_attention_interval"@)) {
        Some(Field::Interval)
    } else {
        None
    }
}

fn field_of(key: &[u8]) -> (r: Option<Field>)
    ensures
        r == field_named(key@),
{
    if gguf::ends_with_text(key, ".block_count") {
        Some(Field::Layers)
    } else if gguf::ends_with_text(key, ".embedding_length") {
        Some(Field::Embd)
    } else if gguf::ends_with_text(key, ".attention.head_count_kv") {
        Some(Field::HeadKv)
    } else if gguf::ends_with_text(key, ".attention.head_count") {
        Some(Field::Head)
    } else if gguf::ends_with_text(key, ".attention.key_length") {
        Some(Field::KeyLength)
    } else if gguf::ends_with_text(key, ".attention.value_length") {
        Some(Field::ValueLength)
    } else if gguf::ends_with_text(key, ".full_attention_interval") {
        Some(Field::Interval)
    } else {
        None
    }
}

/// What has been read of a header so far.
#[verifier::ext_equal]
pub ghost struct Meta {
    pub n_layers: Option<u32>,
    pub n_embd: Option<u32>,
    pub n_head: Option<u32>,
    pub n_head_kv: Option<u32>,
    pub key_length: Option<u32>,
    pub value_length: Option<u32>,
    pub interval: Option<u32>,
    pub architecture: Option<Seq<char>>,
}

pub open spec fn nothing_read() -> Meta {
    Meta {
        n_layers: None,
        n_embd: None,
        n_head: None,
        n_head_kv: None,
        key_length: None,
        value_length: None,
        interval: None,
        architecture: None,
    }
}

impl Meta {
    pub open spec fn set(self, f: Field, v: u32) -> Meta {
        match f {
            Field::Layers => Meta { n_layers: Some(v), ..self },
            Field::Embd => Meta { n_embd: Some(v), ..self },
            Field::HeadKv => Meta { n_head_kv: Some(v), ..self },
            Field::Head => Meta { n_head: Some(v), ..self },
            Field::KeyLength => Meta { key_length: Some(v), ..self },
            Field::ValueLength => Meta { value_length: Some(v), ..self },
            Field::Interval => Meta { interval: Some(v), ..self },
        }
    }

    /// Every integer field is in hand.
    pub open spec fn complete(self) -> bool {
        &&& self.n_layers is Some
        &&& self.n_embd is Some
        &&& self.n_head is Some
        &&& self.n_head_kv is Some
        &&& self.key_length is Some
        &&& self.value_length is Some
        &&& self.interval is Some
    }
}

/// A number clamped to what a field holds.
pub open spec fn clamped(v: int) -> u32 {
    if v > u32::MAX {
        u32::MAX
    } else {
        v as u32
    }
}

/// The entry at `p` — a key, a type and a value — taken into `m`, and where it
/// ends. A value that runs out of bytes or has an unknown type ends the reading.
pub open spec fn entry(d: Seq<u8>, p: int, m: Meta) -> Option<(Meta, int)> {
    match gguf::string_end(d, p) {
        None => None,
        Some(k) => if !gguf::room(d, k, 4) {
            None
        } else {
            let key = gguf::string_bytes(d, p);
            let tag = gguf::le4(d, k) as u32;
            let at = k + 4;
            if key == encode_utf8("general.architecture"@) && tag == gguf::GGUF_TYPE_STRING {
                match gguf::string_end(d, at) {
                    Some(e) => Some(
                        (
                            Meta {
                                architecture: Some(gguf::lossy(gguf::string_bytes(d, at))),
                                ..m
                            },
                            e,
                        ),
                    ),
                    None => None,
                }
            } else {
                match gguf::value_end(d, at, tag) {
                    Some(e) => match (field_named(key), gguf::uint_at(d, at, tag)) {
                        (Some(f), Some(v)) => if tag != gguf::GGUF_TYPE_ARRAY {
                            Some((m.set(f, clamped(v)), e))
                        } else {
                            Some((m, e))
                        },
                        _ => Some((m, e)),
                    },
                    None => None,
                }
            }
        },
    }
}

/// What `count` entries at `p` add to `m`: reading stops where an entry cannot be
/// read, keeping what there is, and as soon as every field is in hand.
pub open spec fn entries(d: Seq<u8>, p: int, count: int, m: Meta) -> Meta
    decreases count,
{
    if count <= 0 {
        m
    } else {
        match entry(d, p, m) {
            None => m,
            Some((n, e)) => if n.complete() {
                n
            } else {
                entries(d, e, count - 1, n)
            },
        }
    }
}

/// What a header says: nothing without the magic number, the version and the
/// two counts in front.
pub open spec fn header(d: Seq<u8>) -> Meta {
    if gguf::room(d, 0, 24) && gguf::le4(d, 0) == gguf::GGUF_MAGIC {
        entries(d, 24, gguf::le8(d, 16), nothing_read())
    } else {
        nothing_read()
    }
}

/// The view of an optional text.
pub open spec fn opt_text(s: Option<String>) -> Option<Seq<char>> {
    match s {
        Some(t) => Some(t@),
        None => None,
    }
}

impl GgufInfo {
    /// The info holds what was read.
    pub open spec fn holds(self, m: Meta) -> bool {
        &&& m.n_layers == Some(self.n_layers)
        &&& self.n_embd == m.n_embd
        &&& self.n_head == m.n_head
        &&& self.n_head_kv == m.n_head_kv
        &&& self.key_length == m.key_length
        &&& self.value_length == m.value_length
        &&& self.full_attention_interval == m.interval
        &&& opt_text(self.architecture) == m.architecture
    }
}

/// The fields of a header while it is being read.
struct Reading {
    n_layers: Option<u32>,
    n_embd: Option<u32>,
    n_head: Option<u32>,
    n_head_kv: Option<u32>,
    key_length: Option<u32>,
    value_length: Option<u32>,
    interval: Option<u32>,
    architecture: Option<String>,
}

impl Reading {
    spec fn meta(self) -> Meta {
        Meta {
            n_layers: self.n_layers,
            n_embd: self.n_embd,
            n_head: self.n_head,
            n_head_kv: self.n_head_kv,
            key_length: self.key_length,
            value_length: self.value_length,
            interval: self.interval,
            architecture: opt_text(self.architecture),
        }
    }

    fn set(&mut self, f: Field, v: u32)
        ensures
            final(self).meta() == old(self).meta().set(f, v),
    {
        match f {
            Field::Layers => {
                self.n_layers = Some(v);
            },
            Field::Embd => {
                self.n_embd = Some(v);
            },
            Field::HeadKv => {
                self.n_head_kv = Some(v);
            },
            Field::Head => {
                self.n_head = Some(v);
            },
            Field::KeyLength => {
                self.key_length = Some(v);
            },
            Field::ValueLength => {
                self.value_length = Some(v);
            },
            Field::Interval => {
                self.interval = Some(v);
            },
        }
    }

    fn complete(&self) -> (r: bool)
        ensures
            r == self.meta().complete(),
    {
        self.n_layers.is_some() && self.n_embd.is_some() && self.n_head.is_some()
            && self.n_head_kv.is_some() && self.key_length.is_some() && self.value_length.is_some()
            && self.interval.is_some()
    }
}

/// Reads one entry; false where it cannot be read.
fn read_entry(c: &mut Cursor, m: &mut Reading) -> (r: bool)
    requires
        old(c).wf(),
    ensures
        final(c).wf(),
        final(c).data == old(c).data,
        match entry(old(c).data@, old(c).pos as int, old(m).meta()) {
            Some((n, e)) => r && final(m).meta() == n && final(c).pos == e,
            None => !r && final(m).meta() == old(m).meta(),
        },
{
    let key: &[u8] = match c.gguf_string() {
        Some(k) => k,
        None => {
            return false;
        },
    };
    let tag: u32 = match c.u32() {
        Some(t) => t,
        None => {
            return false;
        },
    };
    let named: &[u8] = "general.architecture".as_bytes();
    if gguf::same_bytes(key, named) && tag == gguf::GGUF_TYPE_STRING {
        return match c.gguf_string() {
            Some(s) => {
                m.architecture = Some(gguf::lossy_text(s));
                true
            },
            None => false,
        };
    }
    let target: Option<Field> = if tag == gguf::GGUF_TYPE_ARRAY {
        None
    } else {
        field_of(key)
    };
    if let Some(f) = target {
        if let Some(v) = c.read_uint_as_u64(tag) {
            let small: u32 = if v > 0xFFFF_FFFF {
                0xFFFF_FFFF
            } else {
                v as u32
            };
            m.set(f, small);
            return true;
        }
    }
    c.skip_value(tag).is_some()
}

/// Parse the GGUF header bytes and extract the layer count and what else matters
/// for fitting.
///
/// `data` should be a prefix of the file large enough to cover the metadata.
/// Returns `None` on malformed input or if no `*.block_count` key is present;
/// running out of bytes in the metadata keeps what was read until then.
pub fn parse_gguf_header(data: &[u8]) -> (r: Option<GgufInfo>)
    ensures
        match r {
            Some(i) => i.holds(header(data@)),
            None => header(data@).n_layers is None,
        },
{
    let mut c: Cursor = Cursor::new(data);
    match c.u32() {
        Some(magic) => if magic != gguf::GGUF_MAGIC {
            return None;
        },
        None => {
            return None;
        },
    }
    if c.u32().is_none() {
        return None;
    }
    if c.u64().is_none() {
        return None;
    }
    let count: u64 = match c.u64() {
        Some(n) => n,
        None => {
            return None;
        },
    };
    let mut m: Reading = Reading {
        n_layers: None,
        n_embd: None,
        n_head: None,
        n_head_kv: None,
        key_length: None,
        value_length: None,
        interval: None,
        architecture: None,
    };
    let mut left: u64 = count;
    let mut more: bool = true;
    while left > 0 && more
        invariant
            c.wf(),
            c.data@ == data@,
            more ==> header(data@) == entries(data@, c.pos as int, left as int, m.meta()),
            !more ==> header(data@) == m.meta(),
        decreases left,
    {
        left = left - 1;
        let ghost before = m.meta();
        let read: bool = read_entry(&mut c, &mut m);
        if !read || m.complete() {
            more = false;
        }
    }
    assert(m.meta() == header(data@));
    match m.n_layers {
        Some(n) => Some(
            GgufInfo {
                n_layers: n,
                n_embd: m.n_embd,
                n_head: m.n_head,
                n_head_kv: m.n_head_kv,
                key_length: m.key_length,
                value_length: m.value_length,
                full_attention_interval: m.interval,
                architecture: m.architecture,
            },
        ),
        None => None,
    }
}

proof fn lemma_string_stable(d: Seq<u8>, x: Seq<u8>, p: int)
    requires
        gguf::string_end(d, p) is Some,
    ensures
        gguf::string_end(d + x, p) == gguf::string_end(d, p),
        gguf::string_bytes(d + x, p) == gguf::string_bytes(d, p),
{
    assert(gguf::le8(d + x, p) == gguf::le8(d, p));
    assert(gguf::string_bytes(d + x, p) =~= gguf::string_bytes(d, p));
}

proof fn lemma_scalars_stable(d: Seq<u8>, x: Seq<u8>, p: int, tag: u32, count: int)
    requires
        gguf::scalars_end(d, p, tag, count) is Some,
    ensures
        gguf::scalars_end(d + x, p, tag, count) == gguf::scalars_end(d, p, tag, count),
    decreases count,
{
    if count > 0 {
        if tag == gguf::GGUF_TYPE_STRING {
            lemma_string_stable(d, x, p);
        }
        let q = gguf::scalar_end(d, p, tag)->0;
        assert(gguf::scalar_end(d + x, p, tag) == Some(q));
        lemma_scalars_stable(d, x, q, tag, count - 1);
    }
}

proof fn lemma_value_stable(d: Seq<u8>, x: Seq<u8>, p: int, tag: u32)
    requires
        gguf::value_end(d, p, tag) is Some,
    ensures
        gguf::value_end(d + x, p, tag) == gguf::value_end(d, p, tag),
        gguf::uint_at(d + x, p, tag) == gguf::uint_at(d, p, tag),
{
    if tag == gguf::GGUF_TYPE_ARRAY {
        assert(gguf::le4(d + x, p) == gguf::le4(d, p));
        assert(gguf::le8(d + x, p + 4) == gguf::le8(d, p + 4));
        lemma_scalars_stable(d, x, p + 12, gguf::le4(d, p) as u32, gguf::le8(d, p + 4));
    } else if tag == gguf::GGUF_TYPE_STRING {
        lemma_string_stable(d, x, p);
    }
}

proof fn lemma_entry_stable(d: Seq<u8>, x: Seq<u8>, p: int, m: Meta)
    requires
        entry(d, p, m) is Some,
    ensures
        entry(d + x, p, m) == entry(d, p, m),
{
    lemma_string_stable(d, x, p);
    let k = gguf::string_end(d, p)->0;
    assert(gguf::le4(d + x, k) == gguf::le4(d, k));
    let tag = gguf::le4(d, k) as u32;
    let key = gguf::string_bytes(d, p);
    if key == encode_utf8("general.architecture"@) && tag == gguf::GGUF_TYPE_STRING {
        lemma_string_stable(d, x, k + 4);
    } else {
        lemma_value_stable(d, x, k + 4, tag);
    }
}

proof fn lemma_entries_stable(d: Seq<u8>, x: Seq<u8>, p: int, count: int, m: Meta)
    requires
        entries(d, p, count, m).complete(),
        !m.complete(),
    ensures
        entries(d + x, p, count, m) == entries(d, p, count, m),
    decreases count,
{
    if count > 0 {
        if let Some((n, e)) = entry(d, p, m) {
            lemma_entry_stable(d, x, p, m);
            if !n.complete() {
                lemma_entries_stable(d, x, e, count - 1, n);
            }
        }
    }
}

/// Once every field is in hand the rest of the file does not matter, so that a
/// prefix of it is enough.
pub proof fn law_a_prefix_is_enough(d: Seq<u8>, rest: Seq<u8>)
    requires
        header(d).complete(),
    ensures
        header(d + rest) == header(d),
{
    assert(gguf::le4(d + rest, 0) == gguf::le4(d, 0));
    assert(gguf::le8(d + rest, 16) == gguf::le8(d, 16));
    lemma_entries_stable(d, rest, 24, gguf::le8(d, 16), nothing_read());
}

/// The end of the entry at `p`, where it can be read.
#[verifier::opaque]
pub open spec fn entry_end(d: Seq<u8>, p: int) -> Option<int> {
    match gguf::string_end(d, p) {
        Some(k) => if gguf::room(d, k, 4) {
            gguf::value_end(d, k + 4, gguf::le4(d, k) as u32)
        } else {
            None
        },
        None => None,
    }
}

/// The end of `count` entries, one after the other, at `p`.
pub open spec fn entries_end(d: Seq<u8>, p: int, count: int) -> Option<int>
    decreases count,
{
    if count <= 0 {
        Some(p)
    } else {
        match entry_end(d, p) {
            Some(e) => entries_end(d, e, count - 1),
            None => None,
        }
    }
}

/// The bytes of `count` entries at `p`, one run for each.
pub open spec fn entry_runs(d: Seq<u8>, p: int, count: int) -> Seq<Seq<u8>>
    decreases count,
{
    if count <= 0 {
        Seq::empty()
    } else {
        match entry_end(d, p) {
            Some(e) => seq![d.subrange(p, e)] + entry_runs(d, e, count - 1),
            None => Seq::empty(),
        }
    }
}

/// The bytes are those of one entry, from its key to the end of its value.
pub open spec fn is_entry(x: Seq<u8>) -> bool {
    entry_end(x, 0) == Some(x.len() as int)
}

/// The entry is under a key that something is read from.
pub open spec fn wanted(x: Seq<u8>) -> bool {
    let key = gguf::string_bytes(x, 0);
    key == encode_utf8("general.architecture"@) || field_named(key) is Some
}

/// The bytes are a header with all the entries that it counts.
pub open spec fn whole_header(d: Seq<u8>) -> bool {
    &&& gguf::room(d, 0, 24)
    &&& gguf::le4(d, 0) == gguf::GGUF_MAGIC
    &&& entries_end(d, 24, gguf::le8(d, 16)) is Some
}

/// The entries of a header.
pub open spec fn header_entries(d: Seq<u8>) -> Seq<Seq<u8>> {
    entry_runs(d, 24, gguf::le8(d, 16))
}

/// The entries of a header that something is read from, in order.
pub open spec fn wanted_entries(d: Seq<u8>) -> Seq<Seq<u8>> {
    header_entries(d).filter(|x: Seq<u8>| wanted(x))
}

/// `end`, counted from `p`, where it does not reach beyond `e`.
spec fn clipped(end: Option<int>, p: int, e: int) -> Option<int> {
    match end {
        Some(r) => if r <= e {
            Some(r - p)
        } else {
            None
        },
        None => None,
    }
}

proof fn lemma_string_clipped(d: Seq<u8>, p: int, e: int, q: int)
    requires
        0 <= p <= q <= e <= d.len(),
    ensures
        ({
            let c = d.subrange(p, e);
            &&& gguf::string_end(c, q - p) == clipped(gguf::string_end(d, q), p, e)
            &&& gguf::string_end(c, q - p) is Some ==> gguf::string_bytes(c, q - p)
                == gguf::string_bytes(d, q)
        }),
{
    let c = d.subrange(p, e);
    if q + 8 <= e {
        assert(gguf::le8(c, q - p) == gguf::le8(d, q));
        if gguf::string_end(c, q - p) is Some {
            assert(gguf::string_bytes(c, q - p) =~= gguf::string_bytes(d, q));
        }
    } else {
        assert(gguf::string_end(d, q) matches Some(r) ==> r >= q + 8);
    }
}

proof fn lemma_scalars_clipped(d: Seq<u8>, p: int, e: int, q: int, tag: u32, count: int)
    requires
        0 <= p <= q <= e <= d.len(),
    ensures
        gguf::scalars_end(d.subrange(p, e), q - p, tag, count) == clipped(
            gguf::scalars_end(d, q, tag, count),
            p,
            e,
        ),
    decreases count,
{
    if count > 0 {
        lemma_string_clipped(d, p, e, q);
        gguf::lemma_scalar_end(d, q, tag);
        let c = d.subrange(p, e);
        assert(gguf::scalar_end(c, q - p, tag) == clipped(gguf::scalar_end(d, q, tag), p, e));
        if let Some(r) = gguf::scalar_end(d, q, tag) {
            if r <= e {
                lemma_scalars_clipped(d, p, e, r, tag, count - 1);
            } else {
                gguf::lemma_scalars_end(d, r, tag, count - 1);
            }
        }
    }
}

proof fn lemma_value_clipped(d: Seq<u8>, p: int, e: int, q: int, tag: u32)
    requires
        0 <= p <= q <= e <= d.len(),
    ensures
        ({
            let c = d.subrange(p, e);
            &&& gguf::value_end(c, q - p, tag) == clipped(gguf::value_end(d, q, tag), p, e)
            &&& gguf::value_end(c, q - p, tag) is Some ==> gguf::uint_at(c, q - p, tag)
                == gguf::uint_at(d, q, tag)
        }),
{
    let c = d.subrange(p, e);
    if tag == gguf::GGUF_TYPE_ARRAY {
        if q + 12 <= e {
            assert(gguf::le4(c, q - p) == gguf::le4(d, q));
            assert(gguf::le8(c, q - p + 4) == gguf::le8(d, q + 4));
            lemma_scalars_clipped(
                d,
                p,
                e,
                q + 12,
                gguf::le4(d, q) as u32,
                gguf::le8(d, q + 4),
            );
        } else if gguf::room(d, q, 12) {
            gguf::lemma_scalars_end(d, q + 12, gguf::le4(d, q) as u32, gguf::le8(d, q + 4));
        }
    } else if tag == gguf::GGUF_TYPE_STRING {
        lemma_string_clipped(d, p, e, q);
    }
}

/// Cutting bytes out of a file keeps the end of an entry in them.
proof fn lemma_end_clipped(d: Seq<u8>, p: int, e: int)
    requires
        0 <= p <= e <= d.len(),
    ensures
        entry_end(d.subrange(p, e), 0) == clipped(entry_end(d, p), p, e),
{
    reveal(entry_end);
    let c = d.subrange(p, e);
    lemma_string_clipped(d, p, e, p);
    if let Some(k) = gguf::string_end(d, p) {
        if gguf::room(d, k, 4) {
            gguf::law_values_stay_in_bounds(d, k + 4, gguf::le4(d, k) as u32);
            if k + 4 <= e {
                assert(gguf::le4(c, k - p) == gguf::le4(d, k));
                lemma_value_clipped(d, p, e, k + 4, gguf::le4(d, k) as u32);
            }
        }
    }
}

/// Cutting an entry's bytes out of a file keeps its end and what is read of it.
#[verifier::rlimit(40)]
proof fn lemma_entry_clipped(d: Seq<u8>, p: int, e: int, m: Meta)
    requires
        0 <= p <= e <= d.len(),
    ensures
        ({
            let c = d.subrange(p, e);
            &&& entry_end(c, 0) == clipped(entry_end(d, p), p, e)
            &&& entry_end(d, p) == Some(e) ==> (entry(d, p, m) matches Some((n, r)) && r == e
                && entry(c, 0, m) == Some((n, e - p)))
        }),
{
    reveal(entry_end);
    let c = d.subrange(p, e);
    lemma_string_clipped(d, p, e, p);
    if let Some(k) = gguf::string_end(d, p) {
        if gguf::room(d, k, 4) {
            gguf::law_values_stay_in_bounds(d, k + 4, gguf::le4(d, k) as u32);
            if k + 4 <= e {
                assert(gguf::le4(c, k - p) == gguf::le4(d, k));
                lemma_value_clipped(d, p, e, k + 4, gguf::le4(d, k) as u32);
                lemma_string_clipped(d, p, e, k + 4);
            }
        }
    }
}

proof fn lemma_entry_end(d: Seq<u8>, p: int)
    ensures
        entry_end(d, p) matches Some(e) ==> 0 <= p < e <= d.len(),
{
    reveal(entry_end);
    if let Some(k) = gguf::string_end(d, p) {
        if gguf::room(d, k, 4) {
            gguf::law_values_stay_in_bounds(d, k + 4, gguf::le4(d, k) as u32);
        }
    }
}

/// What a list of entries adds to `m`, until every field is in hand.
spec fn read_all(runs: Seq<Seq<u8>>, m: Meta) -> Meta
    decreases runs.len(),
{
    if runs.len() == 0 {
        m
    } else {
        match entry(runs[0], 0, m) {
            Some((n, _)) => if n.complete() {
                n
            } else {
                read_all(runs.skip(1), n)
            },
            None => m,
        }
    }
}

/// What is read of entries is read of their bytes alone.
proof fn lemma_read_all(d: Seq<u8>, p: int, count: int, m: Meta)
    requires
        entries_end(d, p, count) is Some,
    ensures
        entries(d, p, count, m) == read_all(entry_runs(d, p, count), m),
    decreases count,
{
    if count > 0 {
        let e = entry_end(d, p)->0;
        lemma_entry_end(d, p);
        lemma_entry_clipped(d, p, e, m);
        let n = entry(d, p, m)->Some_0.0;
        let runs = entry_runs(d, p, count);
        assert(runs.skip(1) =~= entry_runs(d, e, count - 1));
        lemma_read_all(d, e, count - 1, n);
    }
}

proof fn lemma_runs_are_entries(d: Seq<u8>, p: int, count: int)
    requires
        entries_end(d, p, count) is Some,
    ensures
        forall|i: int|
            0 <= i < entry_runs(d, p, count).len() ==> is_entry(
                #[trigger] entry_runs(d, p, count)[i],
            ),
        entry_runs(d, p, count).len() == if count > 0 {
            count
        } else {
            0
        },
    decreases count,
{
    if count > 0 {
        let e = entry_end(d, p)->0;
        lemma_entry_end(d, p);
        lemma_entry_clipped(d, p, e, nothing_read());
        lemma_runs_are_entries(d, e, count - 1);
        let tail = entry_runs(d, e, count - 1);
        assert forall|i: int| 0 <= i < entry_runs(d, p, count).len() implies is_entry(
            #[trigger] entry_runs(d, p, count)[i],
        ) by {
            if i > 0 {
                assert(entry_runs(d, p, count)[i] == tail[i - 1]);
            }
        }
    }
}

proof fn lemma_entry_of(x: Seq<u8>, m: Meta)
    requires
        is_entry(x),
    ensures
        entry(x, 0, m) matches Some((n, _)) && (!wanted(x) ==> n == m),
{
    assert(x.subrange(0, x.len() as int) =~= x);
    lemma_entry_clipped(x, 0, x.len() as int, m);
}

/// Unwanted entries add nothing.
proof fn lemma_unwanted(runs: Seq<Seq<u8>>, m: Meta)
    requires
        forall|i: int| 0 <= i < runs.len() ==> is_entry(#[trigger] runs[i]),
        !m.complete(),
    ensures
        read_all(runs, m) == read_all(runs.filter(|x: Seq<u8>| wanted(x)), m),
    decreases runs.len(),
{
    let f = |x: Seq<u8>| wanted(x);
    if runs.len() == 0 {
        reveal(Seq::filter);
    } else {
        let x = runs[0];
        let rest = runs.skip(1);
        assert(is_entry(x));
        assert forall|i: int| 0 <= i < rest.len() implies is_entry(#[trigger] rest[i]) by {
            assert(rest[i] == runs[i + 1]);
        }
        lemma_entry_of(x, m);
        let n = entry(x, 0, m)->Some_0.0;
        assert(runs =~= seq![x] + rest);
        Seq::filter_distributes_over_add(seq![x], rest, f);
        lemma_filter_one(x);
        if wanted(x) {
            let kept = runs.filter(f);
            assert(kept[0] == x);
            assert(kept.skip(1) =~= rest.filter(f));
            if !n.complete() {
                lemma_unwanted(rest, n);
            }
        } else {
            assert(runs.filter(f) =~= rest.filter(f));
            lemma_unwanted(rest, m);
        }
    }
}

proof fn lemma_filter_one(x: Seq<u8>)
    ensures
        seq![x].filter(|x: Seq<u8>| wanted(x)) == if wanted(x) {
            seq![x]
        } else {
            Seq::<Seq<u8>>::empty()
        },
{
    reveal(Seq::filter);
    let s = seq![x];
    assert(s.drop_last() =~= Seq::empty());
    assert(s.last() == x);
    assert(Seq::<Seq<u8>>::empty().filter(|x: Seq<u8>| wanted(x)) =~= Seq::empty());
    assert(Seq::<Seq<u8>>::empty().push(x) =~= seq![x]);
}

/// Only wanted entries count: two headers with the same ones, in the same
/// order, say the same, whatever their versions and tensor counts, and whatever
/// other entries stand among them.
pub proof fn law_only_wanted_entries_count(a: Seq<u8>, b: Seq<u8>)
    requires
        whole_header(a),
        whole_header(b),
        wanted_entries(a) == wanted_entries(b),
    ensures
        header(a) == header(b),
{
    let (n, k) = (gguf::le8(a, 16), gguf::le8(b, 16));
    lemma_read_all(a, 24, n, nothing_read());
    lemma_read_all(b, 24, k, nothing_read());
    lemma_runs_are_entries(a, 24, n);
    lemma_runs_are_entries(b, 24, k);
    lemma_unwanted(header_entries(a), nothing_read());
    lemma_unwanted(header_entries(b), nothing_read());
}

/// Runs of bytes one after the other.
pub open spec fn run_on(runs: Seq<Seq<u8>>) -> Seq<u8>
    decreases runs.len(),
{
    if runs.len() == 0 {
        Seq::empty()
    } else {
        runs[0] + run_on(runs.skip(1))
    }
}

proof fn lemma_entries_end(d: Seq<u8>, p: int, count: int)
    requires
        0 <= p <= d.len(),
    ensures
        entries_end(d, p, count) matches Some(e) ==> p <= e <= d.len(),
    decreases count,
{
    if count > 0 {
        lemma_entry_end(d, p);
        if let Some(e) = entry_end(d, p) {
            lemma_entries_end(d, e, count - 1);
        }
    }
}

proof fn lemma_entries_split(d: Seq<u8>, p: int, i: int, count: int)
    requires
        0 <= i <= count,
        entries_end(d, p, count) is Some,
    ensures
        entries_end(d, p, i) matches Some(q) && entries_end(d, q, count - i) == entries_end(
            d,
            p,
            count,
        ) && entry_runs(d, p, count) == entry_runs(d, p, i) + entry_runs(d, q, count - i),
    decreases count,
{
    if i > 0 {
        let e = entry_end(d, p)->0;
        lemma_entries_split(d, e, i - 1, count - 1);
        let q = entries_end(d, p, i)->0;
        assert(entry_runs(d, p, count) =~= entry_runs(d, p, i) + entry_runs(d, q, count - i));
    } else {
        assert(entry_runs(d, p, count) =~= Seq::<Seq<u8>>::empty() + entry_runs(d, p, count));
    }
}

proof fn lemma_entries_join(d: Seq<u8>, p: int, i: int, count: int)
    requires
        0 <= i <= count,
        entries_end(d, p, i) is Some,
        entries_end(d, entries_end(d, p, i)->0, count - i) is Some,
    ensures
        entries_end(d, p, count) is Some,
    decreases count,
{
    if i > 0 {
        lemma_entries_join(d, entry_end(d, p)->0, i - 1, count - 1);
    }
}

proof fn lemma_entry_moved(d: Seq<u8>, p: int, e: int, f: Seq<u8>, q: int)
    requires
        entry_end(d, p) == Some(e),
        0 <= q && q + (e - p) <= f.len(),
        f.subrange(q, q + (e - p)) == d.subrange(p, e),
    ensures
        entry_end(f, q) == Some(q + (e - p)),
{
    lemma_entry_end(d, p);
    lemma_end_clipped(d, p, e);
    lemma_end_clipped(f, q, q + (e - p));
}

proof fn lemma_subrange_of(d: Seq<u8>, p: int, end: int, f: Seq<u8>, q: int, a: int, b: int)
    requires
        0 <= p <= end <= d.len(),
        0 <= q && q + (end - p) <= f.len(),
        f.subrange(q, q + (end - p)) == d.subrange(p, end),
        p <= a <= b <= end,
    ensures
        f.subrange(q + (a - p), q + (b - p)) == d.subrange(a, b),
{
    let (x, y) = (f.subrange(q, q + (end - p)), d.subrange(p, end));
    assert(f.subrange(q + (a - p), q + (b - p)) =~= x.subrange(a - p, b - p));
    assert(d.subrange(a, b) =~= y.subrange(a - p, b - p));
}

/// Entries that are moved as they are stay the same entries.
proof fn lemma_entries_moved(d: Seq<u8>, p: int, end: int, f: Seq<u8>, q: int, count: int)
    requires
        0 <= p <= d.len(),
        entries_end(d, p, count) == Some(end),
        0 <= q && q + (end - p) <= f.len(),
        f.subrange(q, q + (end - p)) == d.subrange(p, end),
    ensures
        entries_end(f, q, count) == Some(q + (end - p)),
        entry_runs(f, q, count) == entry_runs(d, p, count),
    decreases count,
{
    if count > 0 {
        let e = entry_end(d, p)->0;
        lemma_entry_end(d, p);
        lemma_entries_end(d, e, count - 1);
        let r = q + (e - p);
        lemma_subrange_of(d, p, end, f, q, p, e);
        lemma_subrange_of(d, p, end, f, q, e, end);
        lemma_entry_moved(d, p, e, f, q);
        lemma_entries_moved(d, e, end, f, r, count - 1);
    }
}

/// Entries that are given one by one are read one by one.
proof fn lemma_run_on(runs: Seq<Seq<u8>>, f: Seq<u8>, q: int)
    requires
        forall|i: int| 0 <= i < runs.len() ==> is_entry(#[trigger] runs[i]),
        0 <= q && q + run_on(runs).len() <= f.len(),
        f.subrange(q, q + run_on(runs).len()) == run_on(runs),
    ensures
        entries_end(f, q, runs.len() as int) == Some(q + run_on(runs).len()),
        entry_runs(f, q, runs.len() as int) == runs,
    decreases runs.len(),
{
    if runs.len() > 0 {
        let x = runs[0];
        let rest = runs.skip(1);
        let r = q + x.len();
        assert(is_entry(x));
        assert forall|i: int| 0 <= i < rest.len() implies is_entry(#[trigger] rest[i]) by {
            assert(rest[i] == runs[i + 1]);
        }
        let all = run_on(runs);
        let n = all.len() as int;
        assert(all.subrange(0, n) =~= all);
        assert(all.subrange(0, x.len() as int) =~= x.subrange(0, x.len() as int));
        assert(all.subrange(x.len() as int, n) =~= run_on(rest));
        lemma_subrange_of(all, 0, n, f, q, 0, x.len() as int);
        lemma_subrange_of(all, 0, n, f, q, x.len() as int, n);
        lemma_entry_moved(x, 0, x.len() as int, f, q);
        lemma_run_on(rest, f, r);
        assert(x.subrange(0, x.len() as int) =~= x);
        assert(f.subrange(q, r) == x);
        assert(entry_runs(f, q, runs.len() as int) == seq![x] + rest);
        assert(seq![x] + rest =~= runs);
    } else {
        assert(entry_runs(f, q, 0) =~= runs);
    }
}

proof fn lemma_none_wanted(runs: Seq<Seq<u8>>)
    requires
        forall|j: int| 0 <= j < runs.len() ==> !wanted(#[trigger] runs[j]),
    ensures
        runs.filter(|x: Seq<u8>| wanted(x)) == Seq::<Seq<u8>>::empty(),
    decreases runs.len(),
{
    reveal(Seq::filter);
    if runs.len() > 0 {
        let front = runs.drop_last();
        assert forall|j: int| 0 <= j < front.len() implies !wanted(#[trigger] front[j]) by {
            assert(front[j] == runs[j]);
        }
        assert(!wanted(runs[runs.len() - 1]));
        lemma_none_wanted(front);
    }
}

/// The entries of a header `f` that holds those of `d`, with `extra` ones behind
/// the first `i`, which end at `p`.
proof fn lemma_entries_inserted(
    d: Seq<u8>,
    i: int,
    count: int,
    p: int,
    extra: Seq<Seq<u8>>,
    f: Seq<u8>,
)
    requires
        24 <= d.len(),
        0 <= i <= count,
        entries_end(d, 24, count) is Some,
        entries_end(d, 24, i) == Some(p),
        24 <= p <= d.len(),
        forall|j: int| 0 <= j < extra.len() ==> is_entry(#[trigger] extra[j]),
        f.len() == d.len() + run_on(extra).len(),
        f.subrange(24, p) == d.subrange(24, p),
        f.subrange(p, p + run_on(extra).len()) == run_on(extra),
        f.skip(p + run_on(extra).len()) == d.skip(p),
    ensures
        entries_end(f, 24, count + extra.len()) is Some,
        entry_runs(d, 24, count) == entry_runs(d, 24, i) + entry_runs(d, p, count - i),
        entry_runs(f, 24, count + extra.len()) == entry_runs(d, 24, i) + (extra + entry_runs(
            d,
            p,
            count - i,
        )),
{
    let n = extra.len() as int;
    let q = p + run_on(extra).len();
    lemma_entries_split(d, 24, i, count);
    lemma_entries_end(d, p, count - i);
    let end = entries_end(d, p, count - i)->0;
    assert(f.subrange(q, q + (end - p)) =~= f.skip(q).take(end - p));
    assert(d.subrange(p, end) =~= d.skip(p).take(end - p));
    lemma_entries_moved(d, 24, p, f, 24, i);
    lemma_run_on(extra, f, p);
    lemma_entries_moved(d, p, end, f, q, count - i);
    lemma_entries_join(f, p, n, n + count - i);
    lemma_entries_join(f, 24, i, count + n);
    lemma_entries_split(f, 24, i, count + n);
    lemma_entries_split(f, p, n, n + count - i);
}

/// Entries that nobody asked for are skipped without moving the reading off its
/// place: `extra` ones put behind the first `i` entries of a header change
/// nothing of what it says, whatever the new version and tensor count. `front`
/// is the 24 bytes before the entries, with the new count.
pub proof fn law_unwanted_entries_change_nothing(
    d: Seq<u8>,
    i: int,
    extra: Seq<Seq<u8>>,
    front: Seq<u8>,
)
    requires
        whole_header(d),
        0 <= i <= gguf::le8(d, 16),
        forall|j: int| 0 <= j < extra.len() ==> is_entry(#[trigger] extra[j]) && !wanted(extra[j]),
        front.len() == 24,
        gguf::le4(front, 0) == gguf::GGUF_MAGIC,
        gguf::le8(front, 16) == gguf::le8(d, 16) + extra.len(),
    ensures
        entries_end(d, 24, i) matches Some(p) && ({
            let f = front + d.subrange(24, p) + run_on(extra) + d.skip(p);
            whole_header(f) && header(f) == header(d)
        }),
{
    let count = gguf::le8(d, 16);
    assert(entries_end(d, 24, i) is Some) by {
        lemma_entries_split(d, 24, i, count);
    }
    let p = entries_end(d, 24, i)->0;
    assert(24 <= p <= d.len()) by {
        lemma_entries_end(d, 24, i);
    }
    let x = run_on(extra);
    let f = front + d.subrange(24, p) + x + d.skip(p);
    assert(f.subrange(24, p) =~= d.subrange(24, p));
    assert(f.subrange(p, p + x.len()) =~= x);
    assert(f.skip(p + x.len()) =~= d.skip(p));
    lemma_entries_inserted(d, i, count, p, extra, f);
    assert(gguf::le4(f, 0) == gguf::le4(front, 0));
    assert(gguf::le8(f, 16) == gguf::le8(front, 16));
    let w = |x: Seq<u8>| wanted(x);
    let (first, last) = (entry_runs(d, 24, i), entry_runs(d, p, count - i));
    assert(wanted_entries(d) == wanted_entries(f)) by {
        Seq::filter_distributes_over_add(first, last, w);
        Seq::filter_distributes_over_add(first, extra + last, w);
        Seq::filter_distributes_over_add(extra, last, w);
        lemma_none_wanted(extra);
        assert(extra.filter(w) + last.filter(w) =~= last.filter(w));
    }
    law_only_wanted_entries_count(f, d);
}

impl GgufInfo {
    /// The attention cadence in effect: the header's own, or else the default of
    /// the architecture.
    pub open spec fn cadence(self) -> Option<u32> {
        if self.full_attention_interval is Some {
            self.full_attention_interval
        } else {
            match self.architecture {
                Some(a) => if text::is_prefix("qwen35"@, a@) || a@ == "qwen3next"@ {
                    Some(4u32)
                } else {
                    None
                },
                None => None,
            }
        }
    }

    pub fn effective_attention_interval(&self) -> (r: Option<u32>)
        ensures
            r == self.cadence(),
    {
        if self.full_attention_interval.is_some() {
            return self.full_attention_interval;
        }
        match &self.architecture {
            Some(a) => {
                let name: Vec<char> = text::to_chars(a.as_str());
                let family: Vec<char> = text::to_chars("qwen35");
                if text::starts_with(&name, &family) || text::same_text(a.as_str(), "qwen3next") {
                    Some(4)
                } else {
                    None
                }
            },
            None => None,
        }
    }

    /// How many of `n` layers pay per-token KV cache, rounded up.
    pub open spec fn paying(self, n: int) -> int {
        match self.cadence() {
            Some(i) => if i > 1 {
                (n + i - 1) / (i as int)
            } else {
                n
            },
            None => n,
        }
    }

    /// How many of `n` offloaded layers pay per-token KV cache.
    pub fn kv_paying_layers(&self, n: u64) -> (r: u64)
        ensures
            r == self.paying(n as int),
            r <= n,
    {
        match self.effective_attention_interval() {
            Some(i) => if i > 1 {
                let q: u64 = n / i as u64;
                let rem: u64 = n % i as u64;
                proof {
                    vstd::arithmetic::div_mod::lemma_fundamental_div_mod(n as int, i as int);
                    assert(2 * q <= n) by (nonlinear_arith)
                        requires
                            n == i * q + rem,
                            i > 1,
                            0 <= rem,
                            0 <= q,
                    ;
                }
                let r: u64 = if rem == 0 {
                    q
                } else {
                    q + 1
                };
                proof {
                    let d = i as int;
                    assert(n == q * d + rem && 0 <= rem < d) by {
                        vstd::arithmetic::div_mod::lemma_fundamental_div_mod(n as int, d);
                        vstd::arithmetic::mul::lemma_mul_is_commutative(q as int, d);
                    }
                    if rem == 0 {
                        assert((n + d - 1) / d == q) by {
                            vstd::arithmetic::div_mod::lemma_fundamental_div_mod_converse(
                                n + d - 1,
                                d,
                                q as int,
                                d - 1,
                            );
                        }
                    } else {
                        assert(q * d + d == (q + 1) * d) by (nonlinear_arith);
                        assert((n + d - 1) / d == q + 1) by {
                            vstd::arithmetic::div_mod::lemma_fundamental_div_mod_converse(
                                n + d - 1,
                                d,
                                q + 1,
                                rem - 1,
                            );
                        }
                    }
                    assert(r <= n) by (nonlinear_arith)
                        requires
                            n == q * d + rem,
                            d > 1,
                            0 <= rem,
                            0 <= q,
                            r == if rem == 0 {
                                q as int
                            } else {
                                q + 1
                            },
                    ;
                }
                r
            } else {
                n
            },
            None => n,
        }
    }
}

/// Per-layer split of a GGUF's tensor bytes into "expert" (the MoE
/// feed-forward tensors that can move to CPU RAM) and everything else.
#[derive(Debug, Clone)]
pub struct MoeLayout {
    /// Bytes of every tensor that is not part of any layer's expert set.
    pub non_expert_bytes: u64,
    /// Expert-tensor bytes for each transformer block. A dense (non-MoE) model
    /// has every entry `0`.
    pub expert_bytes_per_layer: Vec<u64>,
}

/// Some layer has expert bytes.
pub open spec fn has_experts(per_layer: Seq<u64>) -> bool {
    exists|i: int| 0 <= i < per_layer.len() && #[trigger] per_layer[i] > 0
}

impl MoeLayout {
    /// Whether any layer actually has expert tensors.
    pub fn is_moe(&self) -> (r: bool)
        ensures
            r == has_experts(self.expert_bytes_per_layer@),
    {
        let mut i: usize = 0;
        while i < self.expert_bytes_per_layer.len()
            invariant
                i <= self.expert_bytes_per_layer@.len(),
                forall|j: int| 0 <= j < i ==> #[trigger] self.expert_bytes_per_layer@[j] == 0,
            decreases self.expert_bytes_per_layer.len() - i,
        {
            if self.expert_bytes_per_layer[i] > 0 {
                return true;
            }
            i = i + 1;
        }
        false
    }
}

/// The tensor-name families that can be moved to CPU RAM.
pub const EXPERT_TENSOR_MARKERS: [&'static str; 8] = [
    "ffn_up_exps",
    "ffn_down_exps",
    "ffn_gate_exps",
    "ffn_gate_up_exps",
    "ffn_up_chexps",
    "ffn_down_chexps",
    "ffn_gate_chexps",
    "ffn_gate_up_chexps",
];

/// The name holds one of the expert markers.
pub open spec fn names_expert(name: Seq<char>) -> bool {
    exists|i: int| 0 <= i < 8 && text::occurs(name, #[trigger] EXPERT_TENSOR_MARKERS@[i]@)
}

pub fn is_expert_tensor_name(name: &str) -> (r: bool)
    ensures
        r == names_expert(name@),
{
    let chars: Vec<char> = text::to_chars(name);
    let markers: [&'static str; 8] = EXPERT_TENSOR_MARKERS;
    let mut i: usize = 0;
    while i < 8
        invariant
            i <= 8,
            chars@ == name@,
            markers == EXPERT_TENSOR_MARKERS,
            forall|j: int|
                0 <= j < i ==> !text::occurs(name@, #[trigger] EXPERT_TENSOR_MARKERS@[j]@),
        decreases 8 - i,
    {
        let marker: Vec<char> = text::to_chars(markers[i]);
        if text::contains(&chars, &marker) {
            assert(text::occurs(name@, EXPERT_TENSOR_MARKERS@[i as int]@));
            return true;
        }
        i = i + 1;
    }
    false
}

/// The layer that a tensor name shaped `blk.<N>.<rest>` belongs to.
pub open spec fn layer_named(name: Seq<char>) -> Option<nat> {
    if text::is_prefix("blk."@, name) {
        let rest = name.skip("blk."@.len() as int);
        let end = text::index_of(rest, '.');
        if end < rest.len() {
            text::unsigned_value(rest.take(end), u32::MAX as nat)
        } else {
            None
        }
    } else {
        None
    }
}

/// Parse the layer index out of a tensor name shaped `blk.<N>.<rest>`.
/// Returns `None` for the tensors with no layer.
pub fn tensor_layer_index(name: &str) -> (r: Option<u32>)
    ensures
        match r {
            Some(n) => layer_named(name@) == Some(n as nat),
            None => layer_named(name@) is None,
        },
{
    let chars: Vec<char> = text::to_chars(name);
    let prefix: Vec<char> = text::to_chars("blk.");
    if !text::starts_with(&chars, &prefix) {
        return None;
    }
    let rest: &[char] = slice_subrange(&chars, prefix.len(), chars.len());
    assert(rest@ =~= name@.skip("blk."@.len() as int));
    let end: usize = text::position(rest, '.');
    if end >= rest.len() {
        return None;
    }
    let number: &[char] = slice_subrange(rest, 0, end);
    assert(number@ =~= rest@.take(end as int));
    match text::parse_unsigned(number, 0xFFFF_FFFF) {
        Some(n) => Some(n as u32),
        None => None,
    }
}

/// The smallest multiple of `alignment` that is not below `pos`.
pub open spec fn aligned(pos: int, alignment: int) -> int {
    if alignment == 0 || pos % alignment == 0 {
        pos
    } else {
        pos + (alignment - pos % alignment)
    }
}

/// Round `pos` up to the next multiple of `alignment`; `None` where that is too
/// large a number. An alignment of zero leaves `pos` as it is.
pub fn align_up(pos: u64, alignment: u64) -> (r: Option<u64>)
    ensures
        match r {
            Some(q) => q == aligned(pos as int, alignment as int),
            None => aligned(pos as int, alignment as int) > u64::MAX,
        },
{
    if alignment == 0 {
        return Some(pos);
    }
    let rem: u64 = pos % alignment;
    if rem == 0 {
        Some(pos)
    } else {
        pos.checked_add(alignment - rem)
    }
}

/// An aligned position is a multiple of the alignment, and less than one
/// alignment away.
pub proof fn law_aligned(pos: int, alignment: int)
    requires
        0 <= pos,
        0 < alignment,
    ensures
        aligned(pos, alignment) % alignment == 0,
        pos <= aligned(pos, alignment) < pos + alignment,
{
    vstd::arithmetic::div_mod::lemma_fundamental_div_mod(pos, alignment);
    vstd::arithmetic::div_mod::lemma_mod_bound(pos, alignment);
    if pos % alignment != 0 {
        let q = pos / alignment;
        assert(aligned(pos, alignment) == alignment * (q + 1)) by (nonlinear_arith)
            requires
                pos == alignment * q + pos % alignment,
                aligned(pos, alignment) == pos + (alignment - pos % alignment),
        ;
        vstd::arithmetic::div_mod::lemma_mod_multiples_basic(q + 1, alignment);
        vstd::arithmetic::mul::lemma_mul_is_commutative(alignment, q + 1);
    }
}

/// The alignment after `count` metadata entries at `p`, and where they end. Here
/// every entry must be readable.
pub open spec fn alignment_after(d: Seq<u8>, p: int, count: int, alignment: int) -> Option<(int, int)>
    decreases count,
{
    if count <= 0 {
        Some((alignment, p))
    } else {
        match gguf::string_end(d, p) {
            None => None,
            Some(k) => if !gguf::room(d, k, 4) {
                None
            } else {
                let tag = gguf::le4(d, k) as u32;
                match gguf::value_end(d, k + 4, tag) {
                    None => None,
                    Some(e) => {
                        let own = if gguf::string_bytes(d, p) == encode_utf8("general.alignment"@) {
                            match gguf::uint_at(d, k + 4, tag) {
                                Some(v) => if v > 0 {
                                    v
                                } else {
                                    alignment
                                },
                                None => alignment,
                            }
                        } else {
                            alignment
                        };
                        alignment_after(d, e, count - 1, own)
                    },
                }
            },
        }
    }
}

/// The tensors, by name and offset, of `count` tensor records at `p`, and where
/// they end. A record is a name, a number of dimensions, the dimensions, a type
/// and an offset.
pub open spec fn tensors_at(d: Seq<u8>, p: int, count: int) -> Option<(Seq<(Seq<char>, u64)>, int)>
    decreases count,
{
    if count <= 0 {
        Some((Seq::empty(), p))
    } else {
        match tensors_at(d, p, count - 1) {
            None => None,
            Some((before, q)) => match gguf::string_end(d, q) {
                None => None,
                Some(k) => {
                    let n = gguf::le4(d, k);
                    if gguf::room(d, k, 4) && gguf::room(d, k + 4, 8 * n + 12) {
                        let name = gguf::lossy(gguf::string_bytes(d, q));
                        let offset = gguf::le8(d, k + 8 + 8 * n) as u64;
                        Some((before.push((name, offset)), k + 16 + 8 * n))
                    } else {
                        None
                    }
                },
            },
        }
    }
}

/// Without one tensor of the first ones, no more can be read.
proof fn lemma_tensors_none(d: Seq<u8>, p: int, k: int, count: int)
    requires
        tensors_at(d, p, k) is None,
        k <= count,
    ensures
        tensors_at(d, p, count) is None,
    decreases count - k,
{
    if k < count {
        lemma_tensors_none(d, p, k, count - 1);
    }
}

/// The names and offsets of a list of tensors.
pub open spec fn tensor_views(v: Seq<(String, u64)>) -> Seq<(Seq<char>, u64)> {
    v.map_values(|t: (String, u64)| (t.0@, t.1))
}

/// `s` with `x` behind everything whose offset is not larger.
pub open spec fn inserted(s: Seq<(Seq<char>, u64)>, x: (Seq<char>, u64)) -> Seq<(Seq<char>, u64)>
    decreases s.len(),
{
    if s.len() > 0 && s.last().1 > x.1 {
        inserted(s.drop_last(), x).push(s.last())
    } else {
        s.push(x)
    }
}

/// `s` in the order of the offsets, equal offsets in the order of `s`.
pub open spec fn by_offset(s: Seq<(Seq<char>, u64)>) -> Seq<(Seq<char>, u64)>
    decreases s.len(),
{
    if s.len() == 0 {
        s
    } else {
        inserted(by_offset(s.drop_last()), s.last())
    }
}

pub open spec fn sorted_by_offset(s: Seq<(Seq<char>, u64)>) -> bool {
    forall|i: int, j: int| 0 <= i <= j < s.len() ==> (#[trigger] s[i]).1 <= (#[trigger] s[j]).1
}

proof fn lemma_inserted(s: Seq<(Seq<char>, u64)>, x: (Seq<char>, u64))
    requires
        sorted_by_offset(s),
    ensures
        sorted_by_offset(inserted(s, x)),
        inserted(s, x).len() == s.len() + 1,
        inserted(s, x).last().1 == if s.len() > 0 && s.last().1 > x.1 {
            s.last().1
        } else {
            x.1
        },
        inserted(s, x).to_multiset() == s.to_multiset().insert(x),
    decreases s.len(),
{
    broadcast use vstd::seq_lib::group_to_multiset_ensures;

    if s.len() > 0 && s.last().1 > x.1 {
        let front = s.drop_last();
        lemma_inserted(front, x);
        assert(s =~= front.push(s.last()));
        assert(inserted(s, x).to_multiset() =~= s.to_multiset().insert(x));
    }
}

/// Sorting by offset puts the same tensors in the order of their offsets.
pub proof fn law_sorting_keeps_the_tensors(s: Seq<(Seq<char>, u64)>)
    ensures
        sorted_by_offset(by_offset(s)),
        by_offset(s).len() == s.len(),
        by_offset(s).to_multiset() == s.to_multiset(),
    decreases s.len(),
{
    broadcast use vstd::seq_lib::group_to_multiset_ensures;

    if s.len() > 0 {
        law_sorting_keeps_the_tensors(s.drop_last());
        lemma_inserted(by_offset(s.drop_last()), s.last());
        assert(s =~= s.drop_last().push(s.last()));
    }
}

/// Where `x` belongs among the first tensors.
proof fn lemma_inserted_at(s: Seq<(Seq<char>, u64)>, x: (Seq<char>, u64), k: int)
    requires
        0 <= k <= s.len(),
        forall|i: int| k <= i < s.len() ==> (#[trigger] s[i]).1 > x.1,
        k > 0 ==> s[k - 1].1 <= x.1,
    ensures
        inserted(s, x) == s.insert(k, x),
    decreases s.len(),
{
    if k < s.len() {
        let front = s.drop_last();
        lemma_inserted_at(front, x, k);
        assert(s.insert(k, x) =~= front.insert(k, x).push(s.last()));
    } else {
        assert(s.insert(k, x) =~= s.push(x));
    }
}

/// The tensors in the order of their offsets.
fn sort_tensors(v: Vec<(String, u64)>) -> (r: Vec<(String, u64)>)
    ensures
        tensor_views(r@) == by_offset(tensor_views(v@)),
        r@.len() == v@.len(),
{
    let ghost all = tensor_views(v@);
    let n: usize = v.len();
    let rest: Vec<(String, u64)> = v;
    let mut r: Vec<(String, u64)> = Vec::new();
    let mut i: usize = 0;
    assert(all.take(0) =~= Seq::empty());
    assert(tensor_views(r@) =~= Seq::empty());
    while i < n
        invariant
            i <= n,
            n == all.len(),
            n == rest@.len(),
            r@.len() == i,
            forall|j: int| i <= j < n ==> (#[trigger] rest@[j]).0@ == all[j].0 && rest@[j].1 == all[j].1,
            tensor_views(r@) == by_offset(all.take(i as int)),
        decreases n - i,
    {
        let x: (String, u64) = (rest[i].0.clone(), rest[i].1);
        let ghost xv = (x.0@, x.1);
        let ghost sorted = tensor_views(r@);
        let mut k: usize = r.len();
        while k > 0 && r[k - 1].1 > x.1
            invariant
                k <= r@.len(),
                sorted == tensor_views(r@),
                xv == (x.0@, x.1),
                forall|j: int| k <= j < r@.len() ==> (#[trigger] sorted[j]).1 > xv.1,
            decreases k,
        {
            assert(sorted[k - 1].1 == r@[k - 1].1);
            k = k - 1;
        }
        proof {
            if k > 0 {
                assert(sorted[k - 1].1 == r@[k - 1].1);
            }
            lemma_inserted_at(sorted, xv, k as int);
            assert(all.take(i + 1).drop_last() =~= all.take(i as int));
            assert(all.take(i + 1).last() == xv);
        }
        r.insert(k, x);
        assert(tensor_views(r@) =~= sorted.insert(k as int, xv));
        i = i + 1;
    }
    assert(all.take(n as int) =~= all);
    r
}

/// The layer whose expert bytes a tensor counts among, if it is one of
/// `n_layers`; every other tensor is a non-expert.
pub open spec fn expert_layer(name: Seq<char>, n_layers: int) -> Option<int> {
    if names_expert(name) {
        match layer_named(name) {
            Some(l) => if l < n_layers {
                Some(l as int)
            } else {
                None
            },
            None => None,
        }
    } else {
        None
    }
}

/// The size of the tensor at `i`: up to the next offset, or to the end of the
/// tensor data.
pub open spec fn tensor_size(ts: Seq<(Seq<char>, u64)>, end: int, i: int) -> int {
    if i + 1 < ts.len() {
        ts[i + 1].1 - ts[i].1
    } else {
        end - ts[i].1
    }
}

/// The bytes, of the first `k` tensors, of those that count for `of`.
pub open spec fn bytes_for(
    ts: Seq<(Seq<char>, u64)>,
    end: int,
    n_layers: int,
    of: Option<int>,
    k: int,
) -> int
    decreases k,
{
    if k <= 0 {
        0
    } else {
        bytes_for(ts, end, n_layers, of, k - 1) + if expert_layer(ts[k - 1].0, n_layers) == of {
            tensor_size(ts, end, k - 1)
        } else {
            0
        }
    }
}

/// The layout of tensors in the order of their offsets, whose data is `end`
/// bytes long.
pub open spec fn is_layout(l: MoeLayout, ts: Seq<(Seq<char>, u64)>, end: int, n_layers: int) -> bool {
    &&& l.expert_bytes_per_layer@.len() == n_layers
    &&& l.non_expert_bytes == bytes_for(ts, end, n_layers, None, ts.len() as int)
    &&& forall|i: int|
        0 <= i < n_layers ==> (#[trigger] l.expert_bytes_per_layer@[i]) == bytes_for(
            ts,
            end,
            n_layers,
            Some(i),
            ts.len() as int,
        )
}

/// The sum of the bytes per layer.
pub open spec fn total(v: Seq<u64>) -> int
    decreases v.len(),
{
    if v.len() == 0 {
        0
    } else {
        total(v.drop_last()) + v.last()
    }
}

proof fn lemma_total_zero(v: Seq<u64>)
    requires
        forall|i: int| 0 <= i < v.len() ==> v[i] == 0,
    ensures
        total(v) == 0,
    decreases v.len(),
{
    if v.len() > 0 {
        lemma_total_zero(v.drop_last());
    }
}

proof fn lemma_total_update(v: Seq<u64>, i: int, x: u64)
    requires
        0 <= i < v.len(),
    ensures
        total(v.update(i, x)) == total(v) - v[i] + x,
        v[i] <= total(v),
        0 <= total(v),
    decreases v.len(),
{
    let w = v.update(i, x);
    if i == v.len() - 1 {
        assert(w.drop_last() =~= v.drop_last());
        lemma_total_nonneg(v.drop_last());
    } else {
        assert(w.drop_last() =~= v.drop_last().update(i, x));
        lemma_total_update(v.drop_last(), i, x);
    }
}

proof fn lemma_total_nonneg(v: Seq<u64>)
    ensures
        0 <= total(v),
    decreases v.len(),
{
    if v.len() > 0 {
        lemma_total_nonneg(v.drop_last());
    }
}

/// The bytes in front of the first `k` tensors' end.
spec fn reached(ts: Seq<(Seq<char>, u64)>, end: int, k: int) -> int {
    if k < ts.len() {
        ts[k].1 as int
    } else {
        end
    }
}

/// Splits the tensor data of `end` bytes into expert and other bytes. `None`
/// where there is no tensor, or the last one starts behind the end.
pub fn split_tensors(tensors: Vec<(String, u64)>, end: u64, n_layers: u32) -> (r: Option<MoeLayout>)
    ensures
        ({
            let ts = by_offset(tensor_views(tensors@));
            if ts.len() == 0 || ts.last().1 > end {
                r is None
            } else {
                &&& r matches Some(l)
                &&& is_layout(l, ts, end as int, n_layers as int)
                &&& l.non_expert_bytes + total(l.expert_bytes_per_layer@) == end - ts[0].1
            }
        }),
{
    let ghost ts = by_offset(tensor_views(tensors@));
    proof {
        law_sorting_keeps_the_tensors(tensor_views(tensors@));
    }
    let sorted: Vec<(String, u64)> = sort_tensors(tensors);
    assert(tensor_views(sorted@) == ts);
    let n: usize = sorted.len();
    if n == 0 {
        return None;
    }
    assert(ts[n - 1].1 == sorted@[n - 1].1);
    if sorted[n - 1].1 > end {
        return None;
    }
    let mut non_expert_bytes: u64 = 0;
    let mut per_layer: Vec<u64> = vec![0u64; n_layers as usize];
    proof {
        lemma_total_zero(per_layer@);
    }
    let mut i: usize = 0;
    while i < n
        invariant
            i <= n,
            n == sorted@.len(),
            n == ts.len(),
            n > 0,
            tensor_views(sorted@) == ts,
            sorted_by_offset(ts),
            ts[n - 1].1 <= end,
            per_layer@.len() == n_layers,
            non_expert_bytes == bytes_for(ts, end as int, n_layers as int, None, i as int),
            forall|j: int|
                0 <= j < n_layers ==> (#[trigger] per_layer@[j]) == bytes_for(
                    ts,
                    end as int,
                    n_layers as int,
                    Some(j),
                    i as int,
                ),
            non_expert_bytes + total(per_layer@) == reached(ts, end as int, i as int) - ts[0].1,
        decreases n - i,
    {
        assert(ts[i as int].1 == sorted@[i as int].1);
        assert(ts[i as int].0 == sorted@[i as int].0@);
        let next: u64 = if i + 1 < n {
            assert(ts[i + 1].1 == sorted@[i + 1].1);
            sorted[i + 1].1
        } else {
            end
        };
        assert(ts[i as int].1 <= next);
        let size: u64 = next - sorted[i].1;
        assert(size == tensor_size(ts, end as int, i as int));
        let ghost before = per_layer@;
        proof {
            lemma_total_nonneg(before);
            assert(reached(ts, end as int, i + 1) == next);
        }
        let name: &str = sorted[i].0.as_str();
        let layer: Option<u32> = if is_expert_tensor_name(name) {
            tensor_layer_index(name)
        } else {
            None
        };
        let slot: Option<usize> = match layer {
            Some(l) => if (l as usize) < per_layer.len() {
                Some(l as usize)
            } else {
                None
            },
            None => None,
        };
        match slot {
            Some(l) => {
                proof {
                    lemma_total_update(before, l as int, (before[l as int] + size) as u64);
                }
                let grown: u64 = per_layer[l] + size;
                per_layer.set(l, grown);
                assert(expert_layer(ts[i as int].0, n_layers as int) == Some(l as int));
                assert forall|j: int| 0 <= j < n_layers implies (#[trigger] per_layer@[j])
                    == bytes_for(ts, end as int, n_layers as int, Some(j), i + 1) by {
                    assert(before[j] == bytes_for(
                        ts,
                        end as int,
                        n_layers as int,
                        Some(j),
                        i as int,
                    ));
                }
            },
            None => {
                assert(expert_layer(ts[i as int].0, n_layers as int) is None);
                non_expert_bytes = non_expert_bytes + size;
                assert forall|j: int| 0 <= j < n_layers implies (#[trigger] per_layer@[j])
                    == bytes_for(ts, end as int, n_layers as int, Some(j), i + 1) by {
                    assert(before[j] == bytes_for(
                        ts,
                        end as int,
                        n_layers as int,
                        Some(j),
                        i as int,
                    ));
                }
            },
        }
        i = i + 1;
    }
    Some(MoeLayout { non_expert_bytes, expert_bytes_per_layer: per_layer })
}

/// The tensors of a file and the start of its tensor data.
pub open spec fn tensor_table(d: Seq<u8>) -> Option<(Seq<(Seq<char>, u64)>, int)> {
    if gguf::room(d, 0, 24) && gguf::le4(d, 0) == gguf::GGUF_MAGIC {
        match alignment_after(d, 24, gguf::le8(d, 16), 32) {
            None => None,
            Some((alignment, p)) => match tensors_at(d, p, gguf::le8(d, 8)) {
                None => None,
                Some((ts, q)) => Some((ts, aligned(q, alignment))),
            },
        }
    } else {
        None
    }
}

/// Reads `count` metadata entries for the alignment that they set.
fn read_alignment(c: &mut Cursor, count: u64) -> (r: Option<u64>)
    requires
        old(c).wf(),
    ensures
        final(c).wf(),
        final(c).data == old(c).data,
        match alignment_after(old(c).data@, old(c).pos as int, count as int, 32) {
            Some((a, e)) => r == Some(a as u64) && 0 <= a <= u64::MAX && final(c).pos == e,
            None => r is None,
        },
{
    let mut alignment: u64 = 32;
    let mut left: u64 = count;
    while left > 0
        invariant
            c.wf(),
            c.data == old(c).data,
            alignment_after(old(c).data@, old(c).pos as int, count as int, 32) == alignment_after(
                c.data@,
                c.pos as int,
                left as int,
                alignment as int,
            ),
        decreases left,
    {
        let key: &[u8] = match c.gguf_string() {
            Some(k) => k,
            None => {
                return None;
            },
        };
        let tag: u32 = match c.u32() {
            Some(t) => t,
            None => {
                return None;
            },
        };
        let named: &[u8] = "general.alignment".as_bytes();
        let own: Option<u64> = if gguf::same_bytes(key, named) {
            c.read_uint_as_u64(tag)
        } else {
            None
        };
        match own {
            Some(v) => {
                if v > 0 {
                    alignment = v;
                }
            },
            None => {
                if c.skip_value(tag).is_none() {
                    return None;
                }
            },
        }
        left = left - 1;
    }
    Some(alignment)
}

/// Reads `count` tensor records.
fn read_tensors(c: &mut Cursor, count: u64) -> (r: Option<Vec<(String, u64)>>)
    requires
        old(c).wf(),
    ensures
        final(c).wf(),
        final(c).data == old(c).data,
        match tensors_at(old(c).data@, old(c).pos as int, count as int) {
            Some((ts, e)) => r matches Some(v) && tensor_views(v@) == ts && final(c).pos == e,
            None => r is None,
        },
{
    let ghost d = c.data@;
    let ghost p = c.pos as int;
    let mut tensors: Vec<(String, u64)> = Vec::new();
    let mut i: u64 = 0;
    assert(tensor_views(tensors@) =~= Seq::empty());
    while i < count
        invariant
            i <= count,
            c.wf(),
            c.data == old(c).data,
            d == c.data@,
            p == old(c).pos,
            tensors_at(d, p, i as int) == Some((tensor_views(tensors@), c.pos as int)),
        decreases count - i,
    {
        let ghost before = tensor_views(tensors@);
        let ghost q = c.pos as int;
        proof {
            if tensors_at(d, p, i + 1) is None {
                lemma_tensors_none(d, p, i + 1, count as int);
            }
        }
        let name: &[u8] = match c.gguf_string() {
            Some(b) => b,
            None => {
                return None;
            },
        };
        let ghost k = c.pos as int;
        let n_dims: u32 = match c.u32() {
            Some(n) => n,
            None => {
                return None;
            },
        };
        let mut j: u32 = 0;
        while j < n_dims
            invariant
                j <= n_dims,
                c.wf(),
                c.data == old(c).data,
                d == c.data@,
                p == old(c).pos,
                i < count,
                k + 4 + 8 * j == c.pos,
                gguf::string_end(d, q) == Some(k),
                gguf::room(d, k, 4),
                n_dims == gguf::le4(d, k),
                tensors_at(d, p, i as int) == Some((before, q)),
                tensors_at(d, p, i + 1) is None ==> tensors_at(d, p, count as int) is None,
            decreases n_dims - j,
        {
            if c.u64().is_none() {
                return None;
            }
            j = j + 1;
        }
        if c.u32().is_none() {
            return None;
        }
        let offset: u64 = match c.u64() {
            Some(o) => o,
            None => {
                return None;
            },
        };
        let text_name: String = gguf::lossy_text(name);
        tensors.push((text_name, offset));
        assert(tensor_views(tensors@) =~= before.push(
            (gguf::lossy(gguf::string_bytes(d, q)), offset),
        ));
        i = i + 1;
    }
    Some(tensors)
}

/// Parse a GGUF's tensor-info section into a [`MoeLayout`].
///
/// `data` must start at the file's first byte and cover the metadata block and
/// the tensor-info table. `file_size` is the real on-disk size, needed to size
/// the last tensor. `n_layers` sizes the returned per-layer vector.
///
/// Returns `None` on any malformed or truncated input.
pub fn parse_gguf_moe_layout(data: &[u8], file_size: u64, n_layers: u32) -> (r: Option<MoeLayout>)
    ensures
        match tensor_table(data@) {
            None => r is None,
            Some((tensors, start)) => {
                let ts = by_offset(tensors);
                if ts.len() == 0 || start > file_size || ts.last().1 > file_size - start {
                    r is None
                } else {
                    &&& r matches Some(l)
                    &&& is_layout(l, ts, file_size - start, n_layers as int)
                }
            },
        },
{
    let mut c: Cursor = Cursor::new(data);
    match c.u32() {
        Some(magic) => if magic != gguf::GGUF_MAGIC {
            return None;
        },
        None => {
            return None;
        },
    }
    if c.u32().is_none() {
        return None;
    }
    let tensor_count: u64 = match c.u64() {
        Some(n) => n,
        None => {
            return None;
        },
    };
    let count: u64 = match c.u64() {
        Some(n) => n,
        None => {
            return None;
        },
    };
    let alignment: u64 = match read_alignment(&mut c, count) {
        Some(a) => a,
        None => {
            return None;
        },
    };
    let tensors: Vec<(String, u64)> = match read_tensors(&mut c, tensor_count) {
        Some(t) => t,
        None => {
            return None;
        },
    };
    let start: u64 = match align_up(c.pos as u64, alignment) {
        Some(s) => s,
        None => {
            return None;
        },
    };
    if start > file_size {
        proof {
            law_sorting_keeps_the_tensors(tensor_views(tensors@));
        }
        return None;
    }
    split_tensors(tensors, file_size - start, n_layers)
}

/// The expert and the other bytes of a layout add up to all of the tensor data
/// behind the first tensor's offset: no byte is counted twice or left out.
pub proof fn law_layout_accounts_for_every_byte(
    l: MoeLayout,
    ts: Seq<(Seq<char>, u64)>,
    end: int,
    n_layers: int,
)
    requires
        0 <= n_layers,
        ts.len() > 0,
        is_layout(l, ts, end, n_layers),
    ensures
        l.non_expert_bytes + total(l.expert_bytes_per_layer@) == end - ts[0].1,
{
    let k = ts.len() as int;
    lemma_split_sums(l.expert_bytes_per_layer@, ts, end, n_layers, k);
    lemma_sizes_telescope(ts, end, k);
}

/// The sizes of the first `k` tensors.
spec fn size_sum(ts: Seq<(Seq<char>, u64)>, end: int, k: int) -> int
    decreases k,
{
    if k <= 0 {
        0
    } else {
        size_sum(ts, end, k - 1) + tensor_size(ts, end, k - 1)
    }
}

proof fn lemma_sizes_telescope(ts: Seq<(Seq<char>, u64)>, end: int, k: int)
    requires
        0 < k <= ts.len(),
    ensures
        size_sum(ts, end, k) == reached(ts, end, k) - ts[0].1,
    decreases k,
{
    if k > 1 {
        lemma_sizes_telescope(ts, end, k - 1);
    } else {
        assert(size_sum(ts, end, 0) == 0);
    }
}

/// The bytes for the layers below `m`, of the first `k` tensors.
spec fn layer_sum(ts: Seq<(Seq<char>, u64)>, end: int, n_layers: int, k: int, m: int) -> int
    decreases m,
{
    if m <= 0 {
        0
    } else {
        layer_sum(ts, end, n_layers, k, m - 1) + bytes_for(ts, end, n_layers, Some(m - 1), k)
    }
}

proof fn lemma_layer_sum_step(ts: Seq<(Seq<char>, u64)>, end: int, n_layers: int, k: int, m: int)
    requires
        k > 0,
        0 <= m <= n_layers,
    ensures
        layer_sum(ts, end, n_layers, k, m) == layer_sum(ts, end, n_layers, k - 1, m) + (match expert_layer(
            ts[k - 1].0,
            n_layers,
        ) {
            Some(l) => if l < m {
                tensor_size(ts, end, k - 1)
            } else {
                0
            },
            None => 0,
        }),
    decreases m,
{
    if m > 0 {
        lemma_layer_sum_step(ts, end, n_layers, k, m - 1);
    }
}

proof fn lemma_layer_sum_zero(ts: Seq<(Seq<char>, u64)>, end: int, n_layers: int, m: int)
    requires
        0 <= m,
    ensures
        layer_sum(ts, end, n_layers, 0, m) == 0,
    decreases m,
{
    if m > 0 {
        lemma_layer_sum_zero(ts, end, n_layers, m - 1);
    }
}

proof fn lemma_parts(ts: Seq<(Seq<char>, u64)>, end: int, n_layers: int, k: int)
    requires
        0 <= k <= ts.len(),
        0 <= n_layers,
    ensures
        bytes_for(ts, end, n_layers, None, k) + layer_sum(ts, end, n_layers, k, n_layers)
            == size_sum(ts, end, k),
    decreases k,
{
    if k > 0 {
        lemma_parts(ts, end, n_layers, k - 1);
        lemma_layer_sum_step(ts, end, n_layers, k, n_layers);
    } else {
        lemma_layer_sum_zero(ts, end, n_layers, n_layers);
    }
}

proof fn lemma_total_is_layer_sum(
    per: Seq<u64>,
    ts: Seq<(Seq<char>, u64)>,
    end: int,
    n_layers: int,
    k: int,
    m: int,
)
    requires
        0 <= m <= per.len(),
        forall|i: int|
            0 <= i < per.len() ==> (#[trigger] per[i]) == bytes_for(ts, end, n_layers, Some(i), k),
    ensures
        total(per.take(m)) == layer_sum(ts, end, n_layers, k, m),
    decreases m,
{
    if m > 0 {
        lemma_total_is_layer_sum(per, ts, end, n_layers, k, m - 1);
        assert(per.take(m).drop_last() =~= per.take(m - 1));
    }
}

proof fn lemma_split_sums(
    per: Seq<u64>,
    ts: Seq<(Seq<char>, u64)>,
    end: int,
    n_layers: int,
    k: int,
)
    requires
        0 <= n_layers,
        0 <= k <= ts.len(),
        per.len() == n_layers,
        forall|i: int|
            0 <= i < per.len() ==> (#[trigger] per[i]) == bytes_for(ts, end, n_layers, Some(i), k),
    ensures
        bytes_for(ts, end, n_layers, None, k) + total(per) == size_sum(ts, end, k),
{
    lemma_parts(ts, end, n_layers, k);
    lemma_total_is_layer_sum(per, ts, end, n_layers, k, n_layers);
    assert(per.take(n_layers) =~= per);
}

/// How many bytes of a file to read for its tensor table, on the attempt
/// `attempt`: a budget that grows, but never more than the file.
pub fn layout_budget(attempt: u32, file_size: u64) -> (r: Option<u64>)
    ensures
        r == if attempt == 0 {
            Some(min_u64(0x80_0000, file_size))
        } else if attempt == 1 {
            Some(min_u64(0x200_0000, file_size))
        } else if attempt == 2 {
            Some(min_u64(0x800_0000, file_size))
        } else {
            None::<u64>
        },
{
    let cap: u64 = if attempt == 0 {
        0x80_0000
    } else if attempt == 1 {
        0x200_0000
    } else if attempt == 2 {
        0x800_0000
    } else {
        return None;
    };
    if cap < file_size {
        Some(cap)
    } else {
        Some(file_size)
    }
}

pub open spec fn min_u64(a: u64, b: u64) -> u64 {
    if a < b {
        a
    } else {
        b
    }
}

/// The outcome of a fit computation.
#[derive(Debug, Clone, PartialEq, Eq)]
pub enum FitDecision {
    /// The model fits fully on the GPU → offload all layers (`gpu_layers = -1`).
    FitsFully,
    /// Partial fit: offload `n` of `n_layers` layers, rest stay on CPU.
    Partial { layers: i32, n_layers: u32 },
    /// VRAM or the GGUF header could not be read → fall back to the
    /// user-provided `--gpu-layers`. `reason` is a human-readable explanation.
    Unknown { reason: String },
}

/// What a cost must stay within, in hundredths of a byte: 97 percent of the free
/// VRAM, less a flat reserve of 640 MiB, but not less than nothing.
pub open spec fn usable(free_vram: int) -> int {
    if 97 * free_vram > 100 * 671_088_640 {
        97 * free_vram - 100 * 671_088_640
    } else {
        0
    }
}

/// An optional number, where it is not zero.
pub open spec fn positive(n: Option<u32>) -> Option<int> {
    match n {
        Some(v) => if v > 0 {
            Some(v as int)
        } else {
            None
        },
        None => None,
    }
}

/// The KV elements that a token takes in a layer that pays for it: keys, values,
/// and what both are to be divided by.
#[verifier::ext_equal]
pub ghost struct KvShape {
    pub k: int,
    pub v: int,
    pub den: int,
}

impl GgufInfo {
    /// The head dimension is the explicit one where there is one, and otherwise
    /// the embedding's share of a head; values go by the keys unless they have
    /// an explicit dimension of their own.
    pub open spec fn kv_shape(self) -> Option<KvShape> {
        match (positive(self.n_head_kv), positive(self.key_length)) {
            (None, _) => None,
            (Some(h), Some(k)) => match positive(self.value_length) {
                Some(v) => Some(KvShape { k: h * k, v: h * v, den: 1 }),
                None => Some(KvShape { k: h * k, v: h * k, den: 1 }),
            },
            (Some(h), None) => match (positive(self.n_embd), positive(self.n_head)) {
                (Some(e), Some(n)) => match positive(self.value_length) {
                    Some(v) => Some(KvShape { k: h * e, v: h * v * n, den: n }),
                    None => Some(KvShape { k: h * e, v: h * e, den: n }),
                },
                _ => None,
            },
        }
    }

    /// What the KV cost of a layer is to be divided by.
    pub open spec fn kv_den(self) -> int {
        match self.kv_shape() {
            Some(s) => 32 * s.den,
            None => 32,
        }
    }

    /// The KV bytes of one paying layer, times [`GgufInfo::kv_den`]; 32 elements
    /// of the key and of the value cache take `bk` and `bv` bytes. Without
    /// dimensions, 128 bytes a token.
    pub open spec fn kv_cost(self, ctx: int, bk: int, bv: int) -> int {
        match self.kv_shape() {
            Some(s) => ctx * (s.k * bk + s.v * bv),
            None => ctx * 4096,
        }
    }

    /// `n` layers, with their share of `file_size` weight bytes and their KV
    /// cache, stay within what is usable.
    pub open spec fn fits(
        self,
        free_vram: int,
        file_size: int,
        ctx: int,
        bk: int,
        bv: int,
        n: int,
    ) -> bool {
        within(
            n * file_size,
            self.n_layers as int,
            self.paying(n) * self.kv_cost(ctx, bk, bv),
            self.kv_den(),
            usable(free_vram),
        )
    }

    /// The largest number of layers, up to `n`, that fits.
    pub open spec fn most(
        self,
        free_vram: int,
        file_size: int,
        ctx: int,
        bk: int,
        bv: int,
        n: int,
    ) -> int
        decreases n,
    {
        if n <= 0 {
            0
        } else if self.fits(free_vram, file_size, ctx, bk, bv, n) {
            n
        } else {
            self.most(free_vram, file_size, ctx, bk, bv, n - 1)
        }
    }
}

/// `a / l + b / d` bytes are at most `u` hundredths of a byte.
pub open spec fn within(a: int, l: int, b: int, d: int, u: int) -> bool {
    100 * (a * d + b * l) <= u * (l * d)
}

/// `a / l + b / d` bytes are less than `u` hundredths of a byte.
pub open spec fn below(a: int, l: int, b: int, d: int, u: int) -> bool {
    100 * (a * d + b * l) < u * (l * d)
}

/// The two sides of a comparison, whole parts and fractions taken apart.
proof fn lemma_parts_apart(
    a1: int,
    a2: int,
    l: int,
    b1: int,
    b2: int,
    d: int,
    u1: int,
    u2: int,
)
    requires
        l > 0,
        d > 0,
    ensures
        ({
            let a = a1 * l + a2;
            let b = b1 * d + b2;
            let u = u1 * 100 + u2;
            100 * (a * d + b * l) - u * (l * d) == (a1 + b1 - u1) * (100 * (l * d)) + (100 * (a2 * d
                + b2 * l) - u2 * (l * d))
        }),
{
    assert((a1 * l + a2) * d == a1 * (l * d) + a2 * d) by (nonlinear_arith);
    assert((b1 * d + b2) * l == b1 * (l * d) + b2 * l) by (nonlinear_arith);
    let m = l * d;
    assert((u1 * 100 + u2) * m == u1 * (100 * m) + u2 * m) by (nonlinear_arith);
    assert((a1 + b1 - u1) * (100 * m) == 100 * (a1 * m) + 100 * (b1 * m) - u1 * (100 * m))
        by (nonlinear_arith);
}

/// How a cost stands to what is usable.
#[derive(Clone, Copy, PartialEq, Eq, Structural)]
enum Standing {
    Below,
    Equal,
    Above,
}

/// Holds `a / l + b / d` against `u / 100`.
fn weigh(a: u128, l: u32, b: u128, d: u64, u: u128) -> (r: Standing)
    requires
        l > 0,
        32 <= d <= 0x20_0000_0000,
        a <= 0xFFFF_FFFF_FFFF_FFFF_FFFF_FFFF,
        u <= 0x1_0000_0000_0000_0000_00,
    ensures
        r != Standing::Above <==> within(a as int, l as int, b as int, d as int, u as int),
        r == Standing::Below <==> below(a as int, l as int, b as int, d as int, u as int),
{
    let lw: u128 = l as u128;
    let dw: u128 = d as u128;
    let a1: u128 = a / lw;
    let a2: u128 = a % lw;
    let b1: u128 = b / dw;
    let b2: u128 = b % dw;
    let u1: u128 = u / 100;
    let u2: u128 = u % 100;
    let ghost m = l as int * d as int;
    let ghost frac = 100 * (a2 * d + b2 * l) - u2 * m;
    let ghost s = a1 + b1 - u1;
    proof {
        vstd::arithmetic::div_mod::lemma_fundamental_div_mod(a as int, l as int);
        vstd::arithmetic::div_mod::lemma_fundamental_div_mod(b as int, d as int);
        vstd::arithmetic::mul::lemma_mul_is_commutative(l as int, a1 as int);
        vstd::arithmetic::mul::lemma_mul_is_commutative(d as int, b1 as int);
        assert(a == a1 * l + a2);
        assert(b == b1 * d + b2);
        assert(u == u1 * 100 + u2);
        lemma_parts_apart(
            a1 as int,
            a2 as int,
            l as int,
            b1 as int,
            b2 as int,
            d as int,
            u1 as int,
            u2 as int,
        );
        assert(m > 0) by (nonlinear_arith)
            requires
                l > 0,
                d > 0,
                m == l as int * d as int,
        ;
        assert(0 <= a2 * d < m && 0 <= b2 * l < m && 0 <= u2 * m <= 99 * m) by (nonlinear_arith)
            requires
                0 <= a2 < l,
                0 <= b2 < d,
                0 <= u2 < 100,
                m == l as int * d as int,
                l > 0,
                d > 0,
                m > 0,
        ;
        assert(-100 * m < frac < 200 * m);
        assert(a1 <= a) by (nonlinear_arith)
            requires
                a == a1 * l + a2,
                l > 0,
                a2 >= 0,
                a1 >= 0,
        ;
        assert(32 * b1 <= b) by (nonlinear_arith)
            requires
                b == b1 * d + b2,
                d >= 32,
                b2 >= 0,
                b1 >= 0,
        ;
        assert(s * (100 * m) + frac == 100 * (a * d + b * l) - u * m);
    }
    if a1 + b1 > u1 {
        proof {
            assert(s * (100 * m) >= 100 * m) by (nonlinear_arith)
                requires
                    s >= 1,
                    m > 0,
            ;
        }
        return Standing::Above;
    }
    let gap: u128 = u1 - (a1 + b1);
    if gap >= 2 {
        proof {
            assert(s * (100 * m) <= -200 * m) by (nonlinear_arith)
                requires
                    s <= -2,
                    m > 0,
            ;
        }
        return Standing::Below;
    }
    proof {
        assert(m <= 0xFFFF_FFFF * 0x20_0000_0000) by (nonlinear_arith)
            requires
                0 < l <= 0xFFFF_FFFF,
                0 < d <= 0x20_0000_0000,
                m == l as int * d as int,
        ;
        assert(s * (100 * m) == -(gap * 100) * m) by (nonlinear_arith)
            requires
                s == -gap,
        ;
        assert((gap * 100 + u2) * m == gap * 100 * m + u2 * m) by (nonlinear_arith);
        assert(0 <= (gap * 100 + u2) * m <= 199 * m) by (nonlinear_arith)
            requires
                0 <= gap <= 1,
                0 <= u2 < 100,
                m > 0,
        ;
    }
    let have: u128 = 100 * (a2 * dw + b2 * lw);
    let limit: u128 = (gap * 100 + u2) * (lw * dw);
    assert(have - limit == 100 * (a * d + b * l) - u * m);
    if have < limit {
        Standing::Below
    } else if have == limit {
        Standing::Equal
    } else {
        Standing::Above
    }
}

/// A KV cost beyond 128 bits is beyond any VRAM.
proof fn lemma_cost_too_large(a: int, l: int, b: int, d: int, u: int)
    requires
        0 <= a,
        0 < l,
        b > u128::MAX,
        0 < d <= 0x20_0000_0000,
        0 <= u <= 0x1_0000_0000_0000_0000_00,
    ensures
        !within(a, l, b, d, u),
        !below(a, l, b, d, u),
{
    assert(u * d <= 0x1_0000_0000_0000_0000_00 * 0x20_0000_0000) by (nonlinear_arith)
        requires
            0 < d <= 0x20_0000_0000,
            0 <= u <= 0x1_0000_0000_0000_0000_00,
    ;
    assert(u * (l * d) < 100 * (b * l)) by (nonlinear_arith)
        requires
            u * d < 100 * b,
            l > 0,
    ;
    assert(0 <= a * d) by (nonlinear_arith)
        requires
            0 <= a,
            0 < d,
    ;
}

/// The value, where it is not zero.
fn nonzero(n: Option<u32>) -> (r: Option<u32>)
    ensures
        match r {
            Some(v) => positive(n) == Some(v as int) && v > 0,
            None => positive(n) is None,
        },
{
    match n {
        Some(v) => if v > 0 {
            Some(v)
        } else {
            None
        },
        None => None,
    }
}

/// The product of two 32-bit numbers.
fn product(a: u32, b: u32) -> (r: u128)
    ensures
        r == a * b,
        r <= 0xFFFF_FFFE_0000_0001,
{
    assert(a * b <= 0xFFFF_FFFF * 0xFFFF_FFFF) by (nonlinear_arith)
        requires
            0 <= a <= 0xFFFF_FFFF,
            0 <= b <= 0xFFFF_FFFF,
    ;
    a as u128 * b as u128
}

impl GgufInfo {
    /// KV elements per token per layer, as `(key_elems, value_elems, divisor)`.
    ///
    /// Returns `None` only when there is no way to derive a head dimension at
    /// all.
    pub fn kv_elems_per_token_per_layer(&self) -> (r: Option<(u128, u128, u32)>)
        ensures
            match r {
                Some((k, v, den)) => self.kv_shape() == Some(
                    KvShape { k: k as int, v: v as int, den: den as int },
                ) && den > 0 && k <= 0xFFFF_FFFE_0000_0001 && v
                    <= 0xFFFF_FFFD_0000_0002_FFFF_FFFF,
                None => self.kv_shape() is None,
            },
    {
        let h: u32 = match nonzero(self.n_head_kv) {
            Some(h) => h,
            None => {
                return None;
            },
        };
        match nonzero(self.key_length) {
            Some(k) => {
                let keys: u128 = product(h, k);
                match nonzero(self.value_length) {
                    Some(v) => Some((keys, product(h, v), 1)),
                    None => Some((keys, keys, 1)),
                }
            },
            None => {
                let e: u32 = match nonzero(self.n_embd) {
                    Some(e) => e,
                    None => {
                        return None;
                    },
                };
                let n: u32 = match nonzero(self.n_head) {
                    Some(n) => n,
                    None => {
                        return None;
                    },
                };
                let keys: u128 = product(h, e);
                match nonzero(self.value_length) {
                    Some(v) => {
                        let hv: u128 = product(h, v);
                        proof {
                            assert(0 <= hv * n <= 0xFFFF_FFFE_0000_0001 * 0xFFFF_FFFF)
                                by (nonlinear_arith)
                                requires
                                    0 <= hv <= 0xFFFF_FFFE_0000_0001,
                                    0 <= n <= 0xFFFF_FFFF,
                            ;
                        }
                        Some((keys, hv * n as u128, n))
                    },
                    None => Some((keys, keys, n)),
                }
            },
        }
    }

    proof fn lemma_kv_den(self)
        ensures
            32 <= self.kv_den() <= 0x20_0000_0000,
    {
    }

    proof fn lemma_kv_cost_nonneg(self, ctx: int, bk: int, bv: int)
        requires
            0 <= ctx,
            0 <= bk,
            0 <= bv,
        ensures
            0 <= self.kv_cost(ctx, bk, bv),
    {
        if let Some(s) = self.kv_shape() {
            self.lemma_shape_nonneg();
            assert(0 <= ctx * (s.k * bk + s.v * bv)) by (nonlinear_arith)
                requires
                    0 <= ctx,
                    0 <= bk,
                    0 <= bv,
                    0 <= s.k,
                    0 <= s.v,
            ;
        }
    }

    proof fn lemma_shape_nonneg(self)
        ensures
            self.kv_shape() matches Some(s) ==> 0 <= s.k && 0 <= s.v && 0 < s.den,
    {
        if let Some(h) = positive(self.n_head_kv) {
            let k = match positive(self.key_length) {
                Some(k) => k,
                None => 0,
            };
            let v = match positive(self.value_length) {
                Some(v) => v,
                None => 0,
            };
            let e = match positive(self.n_embd) {
                Some(e) => e,
                None => 0,
            };
            let n = match positive(self.n_head) {
                Some(n) => n,
                None => 0,
            };
            assert(0 <= h * k && 0 <= h * v && 0 <= h * e && 0 <= h * v * n) by (nonlinear_arith)
                requires
                    0 <= h,
                    0 <= k,
                    0 <= v,
                    0 <= e,
                    0 <= n,
            ;
        }
    }

    /// The KV bytes of one paying layer, times the divisor, and the divisor; no
    /// number where it is beyond 128 bits.
    fn kv_layer_cost(&self, ctx: u32, bk: u32, bv: u32) -> (r: (Option<u128>, u64))
        ensures
            r.1 == self.kv_den(),
            32 <= r.1 <= 0x20_0000_0000,
            match r.0 {
                Some(c) => c == self.kv_cost(ctx as int, bk as int, bv as int),
                None => self.kv_cost(ctx as int, bk as int, bv as int) > u128::MAX,
            },
    {
        match self.kv_elems_per_token_per_layer() {
            Some((k, v, den)) => {
                let d: u64 = 32 * den as u64;
                proof {
                    assert(0 <= k * bk <= 0xFFFF_FFFE_0000_0001 * 0xFFFF_FFFF) by (nonlinear_arith)
                        requires
                            0 <= k <= 0xFFFF_FFFE_0000_0001,
                            0 <= bk <= 0xFFFF_FFFF,
                    ;
                    assert(0 <= v * bv <= 0xFFFF_FFFD_0000_0002_FFFF_FFFF * 0xFFFF_FFFF)
                        by (nonlinear_arith)
                        requires
                            0 <= v <= 0xFFFF_FFFD_0000_0002_FFFF_FFFF,
                            0 <= bv <= 0xFFFF_FFFF,
                    ;
                }
                let keys: u128 = k * bk as u128;
                let values: u128 = v * bv as u128;
                if ctx == 0 {
                    return (Some(0), d);
                }
                let token: u128 = match keys.checked_add(values) {
                    Some(t) => t,
                    None => {
                        proof {
                            assert(ctx * (keys + values) >= keys + values) by (nonlinear_arith)
                                requires
                                    ctx >= 1,
                                    keys + values >= 0,
                            ;
                        }
                        return (None, d);
                    },
                };
                proof {
                    assert(token * ctx == ctx * token) by (nonlinear_arith);
                }
                (token.checked_mul(ctx as u128), d)
            },
            None => (Some(ctx as u128 * 4096), 32),
        }
    }
}

/// What is usable of the free VRAM, in hundredths of a byte.
fn usable_vram(free_vram: u64) -> (r: u128)
    ensures
        r == usable(free_vram as int),
        r <= 0x1_0000_0000_0000_0000_00,
{
    let most: u128 = 97 * free_vram as u128;
    if most > 67_108_864_000 {
        most - 67_108_864_000
    } else {
        0
    }
}

/// What a model's fit is decided to be: everything on the GPU, the most layers
/// that fit, or, where something could not be read, nothing but the reason.
pub open spec fn decided(
    free_vram: Option<u64>,
    info: Option<&GgufInfo>,
    file_size: u64,
    ctx_size: u32,
    kv_block_bytes_k: u32,
    kv_block_bytes_v: u32,
    r: FitDecision,
) -> bool {
    match (free_vram, info) {
        (None, _) => r matches FitDecision::Unknown { reason } && reason@
            == "could not read free VRAM (needs a CUDA build with a working CUDA device)"@,
        (Some(free), Some(i)) if i.n_layers > 0 => if file_size == 0 {
            r matches FitDecision::Unknown { reason } && reason@ == "model file size is zero"@
        } else {
            let most = i.most(
                free as int,
                file_size as int,
                ctx_size as int,
                kv_block_bytes_k as int,
                kv_block_bytes_v as int,
                i.n_layers as int,
            );
            if most == i.n_layers {
                r is FitsFully
            } else {
                &&& r matches FitDecision::Partial { layers, n_layers }
                &&& layers == (most as u32) as i32
                &&& n_layers == i.n_layers
            }
        },
        _ => r matches FitDecision::Unknown { reason } && reason@
            == "could not parse layer count from the GGUF header"@,
    }
}

/// Compute the fit decision from probed VRAM, the GGUF info, the on-disk file
/// size (a proxy for total weight bytes), and the chosen KV cache element
/// sizes: 32 elements of the K and of the V cache take `kv_block_bytes_k` and
/// `kv_block_bytes_v` bytes.
///
/// The cost charged for each GPU-offloaded layer is its share of the weights
/// plus its KV-cache slice for the requested context.
pub fn compute_fit(
    free_vram: Option<u64>,
    info: Option<&GgufInfo>,
    file_size: u64,
    ctx_size: u32,
    kv_block_bytes_k: u32,
    kv_block_bytes_v: u32,
) -> (r: FitDecision)
    ensures
        decided(
            free_vram,
            info,
            file_size,
            ctx_size,
            kv_block_bytes_k,
            kv_block_bytes_v,
            r,
        ),
{
    let free: u64 = match free_vram {
        Some(v) => v,
        None => {
            return FitDecision::Unknown {
                reason: text::copy_text(
                    "could not read free VRAM (needs a CUDA build with a working CUDA device)",
                ),
            };
        },
    };
    let i: &GgufInfo = match info {
        Some(i) => i,
        None => {
            return FitDecision::Unknown {
                reason: text::copy_text("could not parse layer count from the GGUF header"),
            };
        },
    };
    if i.n_layers == 0 {
        return FitDecision::Unknown {
            reason: text::copy_text("could not parse layer count from the GGUF header"),
        };
    }
    if file_size == 0 {
        return FitDecision::Unknown { reason: text::copy_text("model file size is zero") };
    }
    let (cost, d) = i.kv_layer_cost(ctx_size, kv_block_bytes_k, kv_block_bytes_v);
    let u: u128 = usable_vram(free);
    let ghost fr = free as int;
    let ghost fs = file_size as int;
    let ghost cx = ctx_size as int;
    let ghost bk = kv_block_bytes_k as int;
    let ghost bv = kv_block_bytes_v as int;
    let mut n: u32 = i.n_layers;
    loop
        invariant
            n <= i.n_layers,
            i.n_layers > 0,
            u == usable(fr),
            u <= 0x1_0000_0000_0000_0000_00,
            d == i.kv_den(),
            32 <= d <= 0x20_0000_0000,
            fs == file_size,
            cx == ctx_size,
            bk == kv_block_bytes_k,
            bv == kv_block_bytes_v,
            match cost {
                Some(c) => c == i.kv_cost(cx, bk, bv),
                None => i.kv_cost(cx, bk, bv) > u128::MAX,
            },
            i.most(fr, fs, cx, bk, bv, i.n_layers as int) == i.most(fr, fs, cx, bk, bv, n as int),
        ensures
            n <= i.n_layers,
            n == i.most(fr, fs, cx, bk, bv, i.n_layers as int),
        decreases n,
    {
        if n == 0 {
            break;
        }
        let paying: u64 = i.kv_paying_layers(n as u64);
        let ghost kv = i.paying(n as int) * i.kv_cost(cx, bk, bv);
        proof {
            assert(n * file_size <= 0xFFFF_FFFF * 0xFFFF_FFFF_FFFF_FFFF && 0 <= n * file_size)
                by (nonlinear_arith)
                requires
                    0 <= n <= 0xFFFF_FFFF,
                    0 <= file_size <= 0xFFFF_FFFF_FFFF_FFFF,
            ;
            i.lemma_paying_some(n as int);
        }
        let a: u128 = n as u128 * file_size as u128;
        let b: Option<u128> = match cost {
            Some(c) => {
                assert(c * paying == kv) by (nonlinear_arith)
                    requires
                        kv == i.paying(n as int) * c,
                        paying == i.paying(n as int),
                ;
                c.checked_mul(paying as u128)
            },
            None => {
                assert(kv > u128::MAX) by (nonlinear_arith)
                    requires
                        kv == i.paying(n as int) * i.kv_cost(cx, bk, bv),
                        i.paying(n as int) >= 1,
                        i.kv_cost(cx, bk, bv) > u128::MAX,
                ;
                None
            },
        };
        let fits: bool = match b {
            Some(b) => match weigh(a, i.n_layers, b, d, u) {
                Standing::Above => false,
                _ => true,
            },
            None => {
                proof {
                    lemma_cost_too_large(a as int, i.n_layers as int, kv, d as int, u as int);
                }
                false
            },
        };
        assert(fits == i.fits(fr, fs, cx, bk, bv, n as int));
        if fits {
            break;
        }
        n = n - 1;
    }
    if n >= i.n_layers {
        FitDecision::FitsFully
    } else {
        FitDecision::Partial { layers: n as i32, n_layers: i.n_layers }
    }
}

impl GgufInfo {
    proof fn lemma_paying_some(self, n: int)
        requires
            n >= 1,
        ensures
            1 <= self.paying(n),
    {
        if let Some(i) = self.cadence() {
            if i > 1 {
                let d = i as int;
                vstd::arithmetic::div_mod::lemma_fundamental_div_mod(n + d - 1, d);
                assert((n + d - 1) / d >= 1) by {
                    vstd::arithmetic::div_mod::lemma_div_is_ordered(d, n + d - 1, d);
                    vstd::arithmetic::div_mod::lemma_div_by_self(d);
                }
            }
        }
    }

    proof fn lemma_paying_monotone(self, m: int, n: int)
        requires
            0 <= m <= n,
        ensures
            0 <= self.paying(m) <= self.paying(n),
    {
        if let Some(i) = self.cadence() {
            if i > 1 {
                let d = i as int;
                vstd::arithmetic::div_mod::lemma_div_is_ordered(m + d - 1, n + d - 1, d);
                vstd::arithmetic::div_mod::lemma_div_pos_is_pos(m + d - 1, d);
            }
        }
    }
}

/// The outcome of composing `--fit` with MoE expert offload.
#[derive(Debug, Clone, PartialEq, Eq)]
pub enum MoeFitDecision {
    /// Not a MoE model (or its layout couldn't be read).
    NotMoe,
    /// Keep the first `n_cpu_moe` layers' expert tensors on CPU RAM, and offload
    /// every whole layer to the GPU (`gpu_layers = -1`).
    Proceed { n_cpu_moe: u32 },
    /// Even with every layer's experts on CPU RAM, the rest does not fit fully:
    /// keep all experts on the CPU and use this split for the rest.
    ProceedCpuMoeAndPartial { gpu_layers: i32 },
}

impl GgufInfo {
    /// The KV bytes of all layers, times [`GgufInfo::kv_den`].
    pub open spec fn all_kv(self, ctx: int, bk: int, bv: int) -> int {
        self.paying(self.n_layers as int) * self.kv_cost(ctx, bk, bv)
    }
}

/// How many of the first `i` layers must give up their experts: from the last
/// one on, as many layers keep theirs as fit beside `kept` bytes.
pub open spec fn evicted(per: Seq<u64>, i: int, kept: int, kv: int, d: int, u: int) -> int
    decreases i,
{
    if i <= 0 {
        0
    } else if within(kept + per[i - 1], 1, kv, d, u) {
        evicted(per, i - 1, kept + per[i - 1], kv, d, u)
    } else {
        i
    }
}

proof fn lemma_evicted_range(per: Seq<u64>, i: int, kept: int, kv: int, d: int, u: int)
    requires
        0 <= i,
    ensures
        0 <= evicted(per, i, kept, kv, d, u) <= i,
    decreases i,
{
    if i > 0 && within(kept + per[i - 1], 1, kv, d, u) {
        lemma_evicted_range(per, i - 1, kept + per[i - 1], kv, d, u);
    }
}

/// What fits is no more than what is usable.
proof fn lemma_within_bounds(x: int, kv: int, d: int, u: int)
    requires
        within(x, 1, kv, d, u),
        0 <= kv,
        0 < d,
    ensures
        100 * x <= u,
{
    assert(100 * x <= u) by (nonlinear_arith)
        requires
            100 * (x * d + kv * 1) <= u * (1 * d),
            0 <= kv,
            0 < d,
    ;
}

/// How a MoE model is placed: with as many layers' experts on the GPU as fit,
/// and where even none do, with a split of the rest.
pub open spec fn moe_fit(
    free_vram: Option<u64>,
    info: Option<&GgufInfo>,
    layout: Option<&MoeLayout>,
    ctx_size: u32,
    kv_block_bytes_k: u32,
    kv_block_bytes_v: u32,
) -> MoeFitDecision {
    match (free_vram, info, layout) {
        (Some(free), Some(i), Some(l)) => {
            let kv = i.all_kv(ctx_size as int, kv_block_bytes_k as int, kv_block_bytes_v as int);
            let u = usable(free as int);
            if !has_experts(l.expert_bytes_per_layer@) {
                MoeFitDecision::NotMoe
            } else if below(l.non_expert_bytes as int, 1, kv, i.kv_den(), u) {
                MoeFitDecision::Proceed {
                    n_cpu_moe: evicted(
                        l.expert_bytes_per_layer@,
                        l.expert_bytes_per_layer@.len() as int,
                        l.non_expert_bytes as int,
                        kv,
                        i.kv_den(),
                        u,
                    ) as u32,
                }
            } else if i.n_layers == 0 || l.non_expert_bytes == 0 {
                MoeFitDecision::ProceedCpuMoeAndPartial { gpu_layers: 0 }
            } else {
                let most = i.most(
                    free as int,
                    l.non_expert_bytes as int,
                    ctx_size as int,
                    kv_block_bytes_k as int,
                    kv_block_bytes_v as int,
                    i.n_layers as int,
                );
                MoeFitDecision::ProceedCpuMoeAndPartial {
                    gpu_layers: if most == i.n_layers {
                        -1i32
                    } else {
                        (most as u32) as i32
                    },
                }
            }
        },
        _ => MoeFitDecision::NotMoe,
    }
}

/// Compute the MoE-aware fit decision from probed VRAM, GGUF info, and the
/// tensor layout parsed by [`parse_gguf_moe_layout`].
///
/// Layers keep their experts on the GPU from the last one backward: only a
/// contiguous prefix of layers can be evicted.
pub fn compute_moe_fit(
    free_vram: Option<u64>,
    info: Option<&GgufInfo>,
    layout: Option<&MoeLayout>,
    ctx_size: u32,
    kv_block_bytes_k: u32,
    kv_block_bytes_v: u32,
) -> (r: MoeFitDecision)
    ensures
        r == moe_fit(free_vram, info, layout, ctx_size, kv_block_bytes_k, kv_block_bytes_v),
{
    let free: u64 = match free_vram {
        Some(v) => v,
        None => {
            return MoeFitDecision::NotMoe;
        },
    };
    let i: &GgufInfo = match info {
        Some(i) => i,
        None => {
            return MoeFitDecision::NotMoe;
        },
    };
    let l: &MoeLayout = match layout {
        Some(l) => l,
        None => {
            return MoeFitDecision::NotMoe;
        },
    };
    if !l.is_moe() {
        return MoeFitDecision::NotMoe;
    }
    let (cost, d) = i.kv_layer_cost(ctx_size, kv_block_bytes_k, kv_block_bytes_v);
    let u: u128 = usable_vram(free);
    let ghost kv = i.all_kv(ctx_size as int, kv_block_bytes_k as int, kv_block_bytes_v as int);
    let paying: u64 = i.kv_paying_layers(i.n_layers as u64);
    proof {
        i.lemma_kv_cost_nonneg(ctx_size as int, kv_block_bytes_k as int, kv_block_bytes_v as int);
        i.lemma_paying_monotone(0, i.n_layers as int);
        assert(0 <= kv) by (nonlinear_arith)
            requires
                kv == paying * i.kv_cost(
                    ctx_size as int,
                    kv_block_bytes_k as int,
                    kv_block_bytes_v as int,
                ),
                0 <= paying,
                0 <= i.kv_cost(ctx_size as int, kv_block_bytes_k as int, kv_block_bytes_v as int),
        ;
    }
    let all: Option<u128> = if paying == 0 {
        assert(kv == 0) by (nonlinear_arith)
            requires
                kv == paying * i.kv_cost(
                    ctx_size as int,
                    kv_block_bytes_k as int,
                    kv_block_bytes_v as int,
                ),
                paying == 0,
        ;
        Some(0)
    } else {
        match cost {
            Some(c) => {
                assert(c * paying == kv) by (nonlinear_arith)
                    requires
                        kv == paying * c,
                ;
                c.checked_mul(paying as u128)
            },
            None => {
                assert(kv > u128::MAX) by (nonlinear_arith)
                    requires
                        kv == paying * i.kv_cost(
                            ctx_size as int,
                            kv_block_bytes_k as int,
                            kv_block_bytes_v as int,
                        ),
                        paying >= 1,
                        i.kv_cost(ctx_size as int, kv_block_bytes_k as int, kv_block_bytes_v as int)
                            > u128::MAX,
                ;
                None
            },
        }
    };
    let room: Option<u128> = match all {
        Some(b) => match weigh(l.non_expert_bytes as u128, 1, b, d, u) {
            Standing::Below => Some(b),
            _ => None,
        },
        None => {
            proof {
                lemma_cost_too_large(l.non_expert_bytes as int, 1, kv, d as int, u as int);
            }
            None
        },
    };
    let b: u128 = match room {
        Some(b) => b,
        None => {
            let dense: FitDecision = compute_fit(
                Some(free),
                Some(i),
                l.non_expert_bytes,
                ctx_size,
                kv_block_bytes_k,
                kv_block_bytes_v,
            );
            let gpu_layers: i32 = match dense {
                FitDecision::FitsFully => -1,
                FitDecision::Partial { layers, .. } => layers,
                FitDecision::Unknown { .. } => 0,
            };
            return MoeFitDecision::ProceedCpuMoeAndPartial { gpu_layers };
        },
    };
    let per: &Vec<u64> = &l.expert_bytes_per_layer;
    let mut kept: u128 = l.non_expert_bytes as u128;
    let mut n: usize = per.len();
    while n > 0
        invariant_except_break
            n <= per@.len(),
            per@ == l.expert_bytes_per_layer@,
            b == kv,
            0 <= kv,
            32 <= d <= 0x20_0000_0000,
            u <= 0x1_0000_0000_0000_0000_00,
            kept <= 0x1_0000_0000_0000_0000_00,
            evicted(
                per@,
                per@.len() as int,
                l.non_expert_bytes as int,
                kv,
                d as int,
                u as int,
            ) == evicted(per@, n as int, kept as int, kv, d as int, u as int),
        ensures
            n == evicted(
                per@,
                per@.len() as int,
                l.non_expert_bytes as int,
                kv,
                d as int,
                u as int,
            ),
        decreases n,
    {
        let grown: u128 = kept + per[n - 1] as u128;
        match weigh(grown, 1, b, d, u) {
            Standing::Above => {
                break;
            },
            _ => {},
        }
        proof {
            lemma_within_bounds(grown as int, kv, d as int, u as int);
        }
        kept = grown;
        n = n - 1;
    }
    MoeFitDecision::Proceed { n_cpu_moe: n as u32 }
}

/// Apply a user-set `--gpu-layers` ceiling to a computed offload: it can lower
/// the offload, but not raise it above what fits. Negative means "all layers" on
/// either side.
pub open spec fn ceiled(computed: i32, ceiling: i32) -> i32 {
    if ceiling < 0 {
        computed
    } else if computed < 0 || ceiling < computed {
        ceiling
    } else {
        computed
    }
}

pub fn apply_gpu_layers_ceiling(computed: i32, ceiling: i32) -> (r: i32)
    ensures
        r == ceiled(computed, ceiling),
{
    if ceiling < 0 {
        computed
    } else if computed < 0 || ceiling < computed {
        ceiling
    } else {
        computed
    }
}

/// `a` layers, all of them where negative, are no more than `b`.
pub open spec fn no_more(a: i32, b: i32) -> bool {
    b < 0 || (0 <= a <= b)
}

/// A ceiling never raises the offload: the result is no more than what was
/// computed, and no more than the ceiling.
pub proof fn law_a_ceiling_never_raises_the_offload(computed: i32, ceiling: i32)
    ensures
        no_more(ceiled(computed, ceiling), computed),
        no_more(ceiled(computed, ceiling), ceiling),
{
}

proof fn lemma_fits_monotone(
    i: GgufInfo,
    free: int,
    file: int,
    ctx: int,
    bk: int,
    bv: int,
    m: int,
    n: int,
)
    requires
        0 <= m <= n,
        0 <= file,
        0 <= ctx,
        0 <= bk,
        0 <= bv,
        i.fits(free, file, ctx, bk, bv, n),
    ensures
        i.fits(free, file, ctx, bk, bv, m),
{
    i.lemma_paying_monotone(m, n);
    i.lemma_kv_cost_nonneg(ctx, bk, bv);
    i.lemma_kv_den();
    let c = i.kv_cost(ctx, bk, bv);
    let d = i.kv_den();
    let l = i.n_layers as int;
    let p = i.paying(m);
    let q = i.paying(n);
    assert(m * file * d <= n * file * d) by (nonlinear_arith)
        requires
            0 <= m <= n,
            0 <= file,
            0 < d,
    ;
    assert(p * c * l <= q * c * l) by (nonlinear_arith)
        requires
            0 <= p <= q,
            0 <= c,
            0 <= l,
    ;
}

proof fn lemma_most(i: GgufInfo, free: int, file: int, ctx: int, bk: int, bv: int, n: int)
    requires
        0 <= n,
    ensures
        0 <= i.most(free, file, ctx, bk, bv, n) <= n,
        i.most(free, file, ctx, bk, bv, n) > 0 ==> i.fits(
            free,
            file,
            ctx,
            bk,
            bv,
            i.most(free, file, ctx, bk, bv, n),
        ),
        forall|k: int|
            i.most(free, file, ctx, bk, bv, n) < k <= n ==> !#[trigger] i.fits(
                free,
                file,
                ctx,
                bk,
                bv,
                k,
            ),
    decreases n,
{
    if n > 0 && !i.fits(free, file, ctx, bk, bv, n) {
        lemma_most(i, free, file, ctx, bk, bv, n - 1);
    }
}

/// The split is the best one: a number of layers fits if and only if it is not
/// larger than the one chosen.
pub proof fn law_the_split_is_the_largest_that_fits(
    i: GgufInfo,
    free: u64,
    file: u64,
    ctx: u32,
    bk: u32,
    bv: u32,
    n: u32,
)
    requires
        n <= i.n_layers,
    ensures
        i.fits(free as int, file as int, ctx as int, bk as int, bv as int, n as int) <==> n
            <= i.most(
            free as int,
            file as int,
            ctx as int,
            bk as int,
            bv as int,
            i.n_layers as int,
        ),
{
    let most = i.most(
        free as int,
        file as int,
        ctx as int,
        bk as int,
        bv as int,
        i.n_layers as int,
    );
    lemma_most(i, free as int, file as int, ctx as int, bk as int, bv as int, i.n_layers as int);
    if n <= most {
        if most > 0 {
            lemma_fits_monotone(
                i,
                free as int,
                file as int,
                ctx as int,
                bk as int,
                bv as int,
                n as int,
                most,
            );
        } else {
            lemma_zero_fits(i, free as int, file as int, ctx as int, bk as int, bv as int);
        }
    }
}

/// Offloading nothing always fits.
proof fn lemma_zero_fits(i: GgufInfo, free: int, file: int, ctx: int, bk: int, bv: int)
    ensures
        i.fits(free, file, ctx, bk, bv, 0),
{
    i.lemma_kv_den();
    assert(i.paying(0) == 0) by {
        if let Some(c) = i.cadence() {
            if c > 1 {
                vstd::arithmetic::div_mod::lemma_basic_div(c as int - 1, c as int);
            }
        }
    }
    let u = usable(free);
    let l = i.n_layers as int;
    let d = i.kv_den();
    let c = i.kv_cost(ctx, bk, bv);
    assert(0 * file == 0 && i.paying(0) * c == 0) by (nonlinear_arith)
        requires
            i.paying(0) == 0,
    ;
    assert(0 <= u * (l * d)) by (nonlinear_arith)
        requires
            0 <= u,
            0 <= l,
            0 < d,
    ;
}

/// Quantizing the KV cache never costs a layer: with smaller elements at least as
/// many layers fit.
pub proof fn law_smaller_cache_elements_fit_no_fewer_layers(
    i: GgufInfo,
    free: u64,
    file: u64,
    ctx: u32,
    bk: u32,
    bv: u32,
    small_k: u32,
    small_v: u32,
)
    requires
        small_k <= bk,
        small_v <= bv,
    ensures
        i.most(free as int, file as int, ctx as int, bk as int, bv as int, i.n_layers as int)
            <= i.most(
            free as int,
            file as int,
            ctx as int,
            small_k as int,
            small_v as int,
            i.n_layers as int,
        ),
{
    let n = i.most(free as int, file as int, ctx as int, bk as int, bv as int, i.n_layers as int);
    lemma_most(i, free as int, file as int, ctx as int, bk as int, bv as int, i.n_layers as int);
    lemma_most(
        i,
        free as int,
        file as int,
        ctx as int,
        small_k as int,
        small_v as int,
        i.n_layers as int,
    );
    if n > 0 {
        let c = i.kv_cost(ctx as int, bk as int, bv as int);
        let s = i.kv_cost(ctx as int, small_k as int, small_v as int);
        assert(s <= c) by {
            i.lemma_shape_nonneg();
            if let Some(h) = i.kv_shape() {
                assert(ctx * (h.k * small_k + h.v * small_v) <= ctx * (h.k * bk + h.v * bv))
                    by (nonlinear_arith)
                    requires
                        0 <= h.k,
                        0 <= h.v,
                        0 <= small_k <= bk,
                        0 <= small_v <= bv,
                        0 <= ctx,
                ;
            }
        }
        i.lemma_paying_monotone(0, n);
        let p = i.paying(n);
        let l = i.n_layers as int;
        assert(p * s * l <= p * c * l) by (nonlinear_arith)
            requires
                s <= c,
                0 <= p,
                0 <= l,
        ;
        assert(i.fits(
            free as int,
            file as int,
            ctx as int,
            small_k as int,
            small_v as int,
            n,
        ));
    }
}

/// What an eviction leaves on the GPU fits: the experts of the layers from the
/// evicted ones on, beside everything else.
pub proof fn law_kept_experts_fit(per: Seq<u64>, i: int, kept: int, kv: int, d: int, u: int)
    requires
        0 <= i <= per.len(),
        within(kept, 1, kv, d, u),
    ensures
        ({
            let n = evicted(per, i, kept, kv, d, u);
            within(kept + total(per.subrange(n, i)), 1, kv, d, u)
        }),
    decreases i,
{
    let n = evicted(per, i, kept, kv, d, u);
    lemma_evicted_range(per, i, kept, kv, d, u);
    if i > 0 && within(kept + per[i - 1], 1, kv, d, u) {
        lemma_evicted_range(per, i - 1, kept + per[i - 1], kv, d, u);
        law_kept_experts_fit(per, i - 1, kept + per[i - 1], kv, d, u);
        assert(per.subrange(n, i).drop_last() =~= per.subrange(n, i - 1));
    } else {
        assert(per.subrange(n, i) =~= Seq::empty());
    }
}

/// Free VRAM in bytes, from what the probe of the GPU backend reported; a failed
/// probe or one that reports zero means that it is unknown.
pub fn free_vram_bytes(probe: Option<u64>) -> (r: Option<u64>)
    ensures
        r == (match probe {
            Some(n) if n > 0 => Some(n),
            _ => None::<u64>,
        }),
{
    match probe {
        Some(n) => if n > 0 {
            Some(n)
        } else {
            None
        },
        None => None,
    }
}

/// Hundredths of a GiB, rounded to the nearest, halves to the even one.
pub open spec fn gib_hundredths(bytes: int) -> int {
    let q = bytes * 100 / 0x4000_0000;
    let rest = bytes * 100 % 0x4000_0000;
    if rest > 0x2000_0000 || (rest == 0x2000_0000 && q % 2 == 1) {
        q + 1
    } else {
        q
    }
}

/// A byte count in GiB, with two decimals.
pub open spec fn gib_text(bytes: int) -> Seq<char> {
    let h = gib_hundredths(bytes);
    text::decimal((h / 100) as nat) + "."@ + text::decimal((h / 10 % 10) as nat) + text::decimal(
        (h % 10) as nat,
    ) + " GiB"@
}

/// Format a byte count as GiB for human-facing log lines.
pub fn gib(bytes: u64) -> (r: String)
    ensures
        r@ == gib_text(bytes as int),
{
    let wide: u128 = bytes as u128 * 100;
    let q: u128 = wide / 0x4000_0000;
    let rest: u128 = wide % 0x4000_0000;
    let h: u64 = if rest > 0x2000_0000 || (rest == 0x2000_0000 && q % 2 == 1) {
        (q + 1) as u64
    } else {
        q as u64
    };
    assert(h == gib_hundredths(bytes as int));
    let mut r: String = text::decimal_text(h / 100);
    r.append(".");
    r.append(text::decimal_text(h / 10 % 10).as_str());
    r.append(text::decimal_text(h % 10).as_str());
    r.append(" GiB");
    r
}

/// Result of running the full `--fit` flow: the effective `gpu_layers` to use,
/// or `Abort` when the user (or strict mode) declined to load.
#[derive(Debug, Clone, Copy, PartialEq, Eq, Structural)]
pub enum FitOutcome {
    /// Proceed with this `gpu_layers` value.
    Proceed(i32),
    /// Do not load the model.
    Abort,
}

/// How the `--fit` flow goes on once there is a decision.
#[derive(Debug, Clone, Copy, PartialEq, Eq, Structural)]
pub enum FitStep {
    Done(FitOutcome),
    /// Ask the user whether to go on with this many layers.
    Ask { layers: i32 },
}

/// The step that follows from a decision. A model that could not be sized falls
/// back to the user's own `--gpu-layers`, and strict mode refuses whatever does
/// not fit fully. Only where asking is allowed is the user asked.
pub open spec fn step_for(
    decision: FitDecision,
    fallback_gpu_layers: i32,
    strict: bool,
    may_ask: bool,
) -> FitStep {
    match decision {
        FitDecision::FitsFully => FitStep::Done(FitOutcome::Proceed(-1i32)),
        FitDecision::Unknown { .. } => if strict {
            FitStep::Done(FitOutcome::Abort)
        } else {
            FitStep::Done(FitOutcome::Proceed(fallback_gpu_layers))
        },
        FitDecision::Partial { layers, .. } => if strict {
            FitStep::Done(FitOutcome::Abort)
        } else if may_ask {
            FitStep::Ask { layers }
        } else {
            FitStep::Done(FitOutcome::Proceed(layers))
        },
    }
}

pub fn fit_step(
    decision: &FitDecision,
    fallback_gpu_layers: i32,
    strict: bool,
    may_ask: bool,
) -> (r: FitStep)
    ensures
        r == step_for(*decision, fallback_gpu_layers, strict, may_ask),
{
    match decision {
        FitDecision::FitsFully => FitStep::Done(FitOutcome::Proceed(-1)),
        FitDecision::Unknown { .. } => if strict {
            FitStep::Done(FitOutcome::Abort)
        } else {
            FitStep::Done(FitOutcome::Proceed(fallback_gpu_layers))
        },
        FitDecision::Partial { layers, .. } => if strict {
            FitStep::Done(FitOutcome::Abort)
        } else if may_ask {
            FitStep::Ask { layers: *layers }
        } else {
            FitStep::Done(FitOutcome::Proceed(*layers))
        },
    }
}

/// What the `--fit` flow comes to where nobody can be asked.
pub open spec fn headless(
    free_vram: Option<u64>,
    info: Option<&GgufInfo>,
    file_size: u64,
    fallback_gpu_layers: i32,
    ctx_size: u32,
    strict: bool,
    kv_block_bytes_k: u32,
    kv_block_bytes_v: u32,
) -> FitOutcome {
    match (free_vram, info) {
        (Some(free), Some(i)) if i.n_layers > 0 && file_size > 0 => {
            let most = i.most(
                free as int,
                file_size as int,
                ctx_size as int,
                kv_block_bytes_k as int,
                kv_block_bytes_v as int,
                i.n_layers as int,
            );
            if most == i.n_layers {
                FitOutcome::Proceed(-1i32)
            } else if strict {
                FitOutcome::Abort
            } else {
                FitOutcome::Proceed((most as u32) as i32)
            }
        },
        _ => if strict {
            FitOutcome::Abort
        } else {
            FitOutcome::Proceed(fallback_gpu_layers)
        },
    }
}

/// The `--fit` flow for a server, which can ask nobody: it goes on with the
/// split that was computed, or refuses where strict.
pub fn run_fit_headless(
    free_vram: Option<u64>,
    info: Option<&GgufInfo>,
    file_size: u64,
    fallback_gpu_layers: i32,
    ctx_size: u32,
    strict: bool,
    kv_block_bytes_k: u32,
    kv_block_bytes_v: u32,
) -> (r: FitOutcome)
    ensures
        r == headless(
            free_vram,
            info,
            file_size,
            fallback_gpu_layers,
            ctx_size,
            strict,
            kv_block_bytes_k,
            kv_block_bytes_v,
        ),
{
    let decision: FitDecision = compute_fit(
        free_vram,
        info,
        file_size,
        ctx_size,
        kv_block_bytes_k,
        kv_block_bytes_v,
    );
    match fit_step(&decision, fallback_gpu_layers, strict, false) {
        FitStep::Done(outcome) => outcome,
        FitStep::Ask { layers } => FitOutcome::Proceed(layers),
    }
}

/// What the user answered.
#[derive(Debug, Clone, Copy, PartialEq, Eq, Structural)]
pub enum Answer {
    Continue,
    Abort,
    /// Neither: ask again.
    Unclear,
}

/// The answer that a word, in lower case, stands for. No word is a refusal.
pub open spec fn answer_for(word: Seq<char>) -> Answer {
    if word == "c"@ || word == "continue"@ || word == "y"@ || word == "yes"@ {
        Answer::Continue
    } else if word == "a"@ || word == "abort"@ || word == "n"@ || word == "no"@ || word == "q"@
        || word.len() == 0 {
        Answer::Abort
    } else {
        Answer::Unclear
    }
}

pub fn answer_named(word: &str) -> (r: Answer)
    ensures
        r == answer_for(word@),
{
    if text::same_text(word, "c") || text::same_text(word, "continue") || text::same_text(word, "y")
        || text::same_text(word, "yes") {
        Answer::Continue
    } else if text::same_text(word, "a") || text::same_text(word, "abort") || text::same_text(
        word,
        "n",
    ) || text::same_text(word, "no") || text::same_text(word, "q") || word.is_empty() {
        Answer::Abort
    } else {
        Answer::Unclear
    }
}

/// Reads the user's answer from the line that was typed.
pub fn fit_answer(line: &str) -> (r: Answer)
    ensures
        r == answer_for(text::lowercase(text::trimmed(line@))),
{
    let chars: Vec<char> = text::to_chars(line);
    let word: String = text::from_chars(text::trim(&chars));
    answer_named(text::to_lowercase(word.as_str()).as_str())
}

/// The layers of a split, as "layers/all".
pub open spec fn split_text(layers: i32, n_layers: u32) -> Seq<char> {
    text::signed_decimal(layers as int) + "/"@ + text::decimal(n_layers as nat)
}

/// What is printed to the error stream about a decision, line by line.
pub open spec fn fit_warnings(
    decision: FitDecision,
    fallback_gpu_layers: i32,
    strict: bool,
    announce: bool,
    asking: bool,
    free: int,
    file_size: int,
) -> Seq<Seq<char>> {
    match decision {
        FitDecision::FitsFully => seq![],
        FitDecision::Unknown { reason } => {
            let first = "[EULLM] --fit could not size the model: "@ + reason@ + "."@;
            if strict {
                seq![
                    first,
                    "[EULLM] --fit-strict set: refusing to load without a reliable estimate."@,
                ]
            } else if announce {
                seq![
                    first,
                    "[EULLM] Falling back to --gpu-layers "@ + (if fallback_gpu_layers < 0 {
                        "all"@
                    } else {
                        text::signed_decimal(fallback_gpu_layers as int)
                    }) + "."@,
                ]
            } else {
                seq![]
            }
        },
        FitDecision::Partial { layers, n_layers } => if strict {
            seq![
                "[EULLM] --fit-strict: model needs ~"@ + gib_text(file_size) + " but only "@
                    + gib_text(free) + " VRAM is free; not loading."@,
                "[EULLM] Retry without --fit-strict to offload "@ + split_text(layers, n_layers)
                    + " layers (rest in RAM)."@,
            ]
        } else if asking {
            seq![]
        } else {
            seq![
                "[EULLM] Model larger than free VRAM ("@ + gib_text(free) + " free, model "@
                    + gib_text(file_size) + "): offloading "@ + split_text(layers, n_layers)
                    + " layers, the rest runs in RAM (slower). Set --gpu-layers to choose yourself, or --no-fit to disable sizing."@,
            ]
        },
    }
}

fn split_string(layers: i32, n_layers: u32) -> (r: String)
    ensures
        r@ == split_text(layers, n_layers),
{
    let mut r: String = text::signed_text(layers as i64);
    r.append("/");
    r.append(text::decimal_text(n_layers as u64).as_str());
    r
}

/// What is printed about a decision besides the warnings, line by line: that
/// the model fits, or what the user is asked about.
pub open spec fn fit_notices(
    decision: FitDecision,
    strict: bool,
    asking: bool,
    free: Option<u64>,
    file_size: int,
) -> Seq<Seq<char>> {
    match decision {
        FitDecision::FitsFully => match free {
            Some(v) => seq![
                "[EULLM] --fit: model ("@ + gib_text(file_size) + ") fits fully in "@ + gib_text(
                    v as int,
                ) + " free VRAM → offloading all layers."@,
            ],
            None => seq![],
        },
        FitDecision::Partial { layers, n_layers } if !strict && asking => seq![
            "[EULLM] --fit: model does not fit fully on the GPU."@,
            "  Free VRAM:  "@ + gib_text(
                match free {
                    Some(v) => v as int,
                    None => 0,
                },
            ),
            "  Model size: "@ + gib_text(file_size),
            "  Computed split: "@ + split_text(layers, n_layers)
                + " layers on GPU, rest in RAM (slower)."@,
        ],
        _ => seq![],
    }
}

/// The notices about a decision; see [`fit_notices`].
pub fn fit_report(
    decision: &FitDecision,
    strict: bool,
    asking: bool,
    free: Option<u64>,
    file_size: u64,
) -> (r: Vec<String>)
    ensures
        text::views(r@) == fit_notices(*decision, strict, asking, free, file_size as int),
{
    let mut r: Vec<String> = Vec::new();
    match decision {
        FitDecision::FitsFully => {
            if let Some(v) = free {
                let mut first: String = text::copy_text("[EULLM] --fit: model (");
                first.append(gib(file_size).as_str());
                first.append(") fits fully in ");
                first.append(gib(v).as_str());
                first.append(" free VRAM → offloading all layers.");
                r.push(first);
            }
        },
        FitDecision::Partial { layers, n_layers } => {
            if !strict && asking {
                r.push(text::copy_text("[EULLM] --fit: model does not fit fully on the GPU."));
                let v: u64 = match free {
                    Some(v) => v,
                    None => 0,
                };
                let mut second: String = text::copy_text("  Free VRAM:  ");
                second.append(gib(v).as_str());
                r.push(second);
                let mut third: String = text::copy_text("  Model size: ");
                third.append(gib(file_size).as_str());
                r.push(third);
                let mut fourth: String = text::copy_text("  Computed split: ");
                fourth.append(split_string(*layers, *n_layers).as_str());
                fourth.append(" layers on GPU, rest in RAM (slower).");
                r.push(fourth);
            }
        },
        _ => {},
    }
    assert(text::views(r@) =~~= fit_notices(*decision, strict, asking, free, file_size as int));
    r
}

/// The warnings about a decision; see [`fit_warnings`].
pub fn fit_messages(
    decision: &FitDecision,
    fallback_gpu_layers: i32,
    strict: bool,
    announce: bool,
    asking: bool,
    free: u64,
    file_size: u64,
) -> (r: Vec<String>)
    ensures
        text::views(r@) == fit_warnings(
            *decision,
            fallback_gpu_layers,
            strict,
            announce,
            asking,
            free as int,
            file_size as int,
        ),
{
    let ghost want = fit_warnings(
        *decision,
        fallback_gpu_layers,
        strict,
        announce,
        asking,
        free as int,
        file_size as int,
    );
    let mut r: Vec<String> = Vec::new();
    match decision {
        FitDecision::FitsFully => {},
        FitDecision::Unknown { reason } => {
            if strict || announce {
                let mut first: String = text::copy_text("[EULLM] --fit could not size the model: ");
                first.append(reason.as_str());
                first.append(".");
                r.push(first);
                if strict {
                    r.push(
                        text::copy_text(
                            "[EULLM] --fit-strict set: refusing to load without a reliable estimate.",
                        ),
                    );
                } else {
                    let mut second: String = text::copy_text("[EULLM] Falling back to --gpu-layers ");
                    if fallback_gpu_layers < 0 {
                        second.append("all");
                    } else {
                        second.append(text::signed_text(fallback_gpu_layers as i64).as_str());
                    }
                    second.append(".");
                    r.push(second);
                }
            }
        },
        FitDecision::Partial { layers, n_layers } => {
            if strict {
                let mut first: String = text::copy_text("[EULLM] --fit-strict: model needs ~");
                first.append(gib(file_size).as_str());
                first.append(" but only ");
                first.append(gib(free).as_str());
                first.append(" VRAM is free; not loading.");
                r.push(first);
                let mut second: String = text::copy_text(
                    "[EULLM] Retry without --fit-strict to offload ",
                );
                second.append(split_string(*layers, *n_layers).as_str());
                second.append(" layers (rest in RAM).");
                r.push(second);
            } else if !asking {
                let mut first: String = text::copy_text("[EULLM] Model larger than free VRAM (");
                first.append(gib(free).as_str());
                first.append(" free, model ");
                first.append(gib(file_size).as_str());
                first.append("): offloading ");
                first.append(split_string(*layers, *n_layers).as_str());
                first.append(
                    " layers, the rest runs in RAM (slower). Set --gpu-layers to choose yourself, or --no-fit to disable sizing.",
                );
                r.push(first);
            }
        },
    }
    assert(text::views(r@) =~~= want);
    r
}

proof fn lemma_factor_out(c: int, h: int, x: int, y: int)
    ensures
        c * (h * x + h * y) == c * h * (x + y),
{
    assert(h * x + h * y == h * (x + y)) by (nonlinear_arith);
    let z = x + y;
    assert(c * (h * z) == c * h * z) by (nonlinear_arith);
}

/// A paying layer is charged for its keys and for its values: with `h` KV heads
/// of key length `k` and value length `v`, each token takes `h * k` and `h * v`
/// elements, of which 32 take `bk` and `bv` bytes.
pub proof fn law_a_layer_pays_for_keys_and_values(
    i: GgufInfo,
    ctx: int,
    bk: int,
    bv: int,
    h: u32,
    k: u32,
    v: u32,
)
    requires
        i.n_head_kv == Some(h),
        i.key_length == Some(k),
        i.value_length == Some(v),
        0 < h,
        0 < k,
        0 < v,
    ensures
        i.kv_cost(ctx, bk, bv) * 32 == i.kv_den() * (ctx * h * (k * bk + v * bv)),
{
    let (h, k, v) = (h as int, k as int, v as int);
    lemma_factor_out(ctx, h, k * bk, v * bv);
    assert(h * k * bk == h * (k * bk) && h * v * bv == h * (v * bv)) by (nonlinear_arith);
}

/// Values are as long as keys where no length of their own is given.
pub proof fn law_values_go_by_their_keys(i: GgufInfo, ctx: int, bk: int, bv: int, h: u32, k: u32)
    requires
        i.n_head_kv == Some(h),
        i.key_length == Some(k),
        i.value_length is None || i.value_length == Some(0u32),
        0 < h,
        0 < k,
    ensures
        i.kv_cost(ctx, bk, bv) * 32 == i.kv_den() * (ctx * h * k * (bk + bv)),
{
    let (h, k) = (h as int, k as int);
    assert(ctx * (h * k * bk + h * k * bv) == ctx * h * k * (bk + bv)) by (nonlinear_arith);
}

/// Without a key length of its own a head is the embedding's share: `e` over `n`
/// heads, for keys, and for values that have no length either.
pub proof fn law_a_head_is_its_share_of_the_embedding(
    i: GgufInfo,
    ctx: int,
    bk: int,
    bv: int,
    h: u32,
    e: u32,
    n: u32,
)
    requires
        i.n_head_kv == Some(h),
        i.key_length is None || i.key_length == Some(0u32),
        i.value_length is None || i.value_length == Some(0u32),
        i.n_embd == Some(e),
        i.n_head == Some(n),
        0 < h,
        0 < e,
        0 < n,
    ensures
        i.kv_cost(ctx, bk, bv) * (32 * n) == i.kv_den() * (ctx * h * e * (bk + bv)),
{
    let (h, e, m) = (h as int, e as int, n as int);
    assert(ctx * (h * e * bk + h * e * bv) == ctx * h * e * (bk + bv)) by (nonlinear_arith);
    let x = ctx * h * e * (bk + bv);
    assert(x * (32 * m) == (32 * m) * x) by (nonlinear_arith);
}

/// The same with a value length of its own.
pub proof fn law_a_value_length_of_its_own_counts(
    i: GgufInfo,
    ctx: int,
    bk: int,
    bv: int,
    h: u32,
    e: u32,
    n: u32,
    v: u32,
)
    requires
        i.n_head_kv == Some(h),
        i.key_length is None || i.key_length == Some(0u32),
        i.value_length == Some(v),
        i.n_embd == Some(e),
        i.n_head == Some(n),
        0 < h,
        0 < e,
        0 < n,
        0 < v,
    ensures
        i.kv_cost(ctx, bk, bv) * (32 * n) == i.kv_den() * (ctx * h * (e * bk + v * n * bv)),
{
    let (h, e, m, w) = (h as int, e as int, n as int, v as int);
    lemma_factor_out(ctx, h, e * bk, w * m * bv);
    let y = w * m;
    assert(h * w * m == h * y) by (nonlinear_arith)
        requires
            y == w * m,
    ;
    assert(h * e * bk == h * (e * bk) && h * y * bv == h * (y * bv)) by (nonlinear_arith);
    let x = ctx * h * (e * bk + w * m * bv);
    assert(x * (32 * m) == (32 * m) * x) by (nonlinear_arith);
}

/// A model whose dimensions are not known is charged 128 bytes a token.
pub proof fn law_unknown_dimensions_cost_a_flat_rate(i: GgufInfo, ctx: int, bk: int, bv: int)
    requires
        i.n_head_kv is None || i.n_head_kv == Some(0u32) || ((i.key_length is None || i.key_length
            == Some(0u32)) && (i.n_embd is None || i.n_embd == Some(0u32) || i.n_head is None
            || i.n_head == Some(0u32))),
    ensures
        i.kv_cost(ctx, bk, bv) == i.kv_den() * (ctx * 128),
{
}

/// The two caches are charged one beside the other: each adds its own cost, and
/// a cache of larger elements costs more.
pub proof fn law_the_caches_add_up(i: GgufInfo, ctx: int, bk: int, bv: int)
    requires
        i.kv_shape() is Some,
        0 < ctx,
        0 < bk,
        0 < bv,
    ensures
        i.kv_cost(ctx, bk, bv) == i.kv_cost(ctx, bk, 0) + i.kv_cost(ctx, 0, bv),
        i.kv_cost(ctx, bk, 0) > 0,
        i.kv_cost(ctx, 0, bv) > 0,
{
    let s = i.kv_shape()->0;
    let h = positive(i.n_head_kv)->0;
    assert(s.k > 0 && s.v > 0) by {
        let k = match positive(i.key_length) {
            Some(k) => k,
            None => 1,
        };
        let v = match positive(i.value_length) {
            Some(v) => v,
            None => 1,
        };
        let e = match positive(i.n_embd) {
            Some(e) => e,
            None => 1,
        };
        let n = match positive(i.n_head) {
            Some(n) => n,
            None => 1,
        };
        assert(h * k > 0 && h * v > 0 && h * e > 0 && h * v * n > 0) by (nonlinear_arith)
            requires
                h > 0,
                k > 0,
                v > 0,
                e > 0,
                n > 0,
        ;
    }
    assert(ctx * (s.k * bk + s.v * bv) == ctx * (s.k * bk + s.v * 0) + ctx * (s.k * 0 + s.v * bv))
        by (nonlinear_arith);
    assert(ctx * (s.k * bk + s.v * 0) > 0 && ctx * (s.k * 0 + s.v * bv) > 0) by (nonlinear_arith)
        requires
            s.k > 0,
            s.v > 0,
            ctx > 0,
            bk > 0,
            bv > 0,
    ;
}

/// What `n` layers take, written out: `n` shares of the weights, and the KV cache
/// of the `p` of them that pay, at `num / den` bytes each.
proof fn lemma_fits_written_out(
    i: GgufInfo,
    free: int,
    file: int,
    ctx: int,
    bk: int,
    bv: int,
    n: int,
    num: int,
    den: int,
)
    requires
        i.kv_cost(ctx, bk, bv) * den == i.kv_den() * num,
        0 < den,
    ensures
        i.fits(free, file, ctx, bk, bv, n) <==> 100 * (n * file * den + i.paying(n) * num
            * i.n_layers) <= usable(free) * (i.n_layers * den),
{
    i.lemma_kv_den();
    let (c, d, p, l, u) = (
        i.kv_cost(ctx, bk, bv),
        i.kv_den(),
        i.paying(n),
        i.n_layers as int,
        usable(free),
    );
    let a = n * file;
    let left = 100 * (a * d + p * c * l);
    let right = u * (l * d);
    let plain_left = 100 * (a * den + p * num * l);
    let plain_right = u * (l * den);
    assert(left * den == d * plain_left) by {
        let (x, y) = (c * den, d * num);
        assert(p * c * l * den == p * l * x) by (nonlinear_arith)
            requires
                x == c * den,
        ;
        assert(p * l * y == d * (p * num * l)) by (nonlinear_arith)
            requires
                y == d * num,
        ;
        assert(a * d * den == d * (a * den)) by (nonlinear_arith);
        let (f, g) = (a * d, p * c * l);
        assert(100 * (f + g) * den == 100 * (f * den) + 100 * (g * den)) by (nonlinear_arith);
        let (v, w) = (a * den, p * num * l);
        assert(d * (100 * (v + w)) == 100 * (d * v) + 100 * (d * w)) by (nonlinear_arith);
    }
    assert(right * den == d * plain_right) by (nonlinear_arith)
        requires
            right == u * (l * d),
            plain_right == u * (l * den),
    ;
    assert(left <= right <==> left * den <= right * den) by (nonlinear_arith)
        requires
            0 < den,
    ;
    assert(plain_left <= plain_right <==> d * plain_left <= d * plain_right) by (nonlinear_arith)
        requires
            0 < d,
    ;
}

/// `p` of `n` layers pay for the cache: all of them, or one in every `c`, begun
/// ones counted.
pub open spec fn pays(i: GgufInfo, n: int, p: int) -> bool {
    match i.full_attention_interval {
        Some(c) => if c > 1 {
            c * (p - 1) < n <= c * p
        } else {
            p == n
        },
        None => match i.architecture {
            Some(a) => if (a@.len() >= 6 && a@.take(6) == "qwen35"@) || a@ == "qwen3next"@ {
                4 * (p - 1) < n <= 4 * p
            } else {
                p == n
            },
            None => p == n,
        },
    }
}

/// A layer pays for the cache, or one in every interval does: hybrid models hold
/// a cache in one of four layers unless their header says otherwise.
pub proof fn law_only_attention_layers_pay(i: GgufInfo, n: int, p: int)
    requires
        0 <= n,
        pays(i, n, p),
    ensures
        i.paying(n) == p,
{
    reveal_strlit("qwen35");
    if let Some(c) = i.cadence() {
        if c > 1 {
            let d = c as int;
            assert(d * (p - 1) == p * d - d) by (nonlinear_arith);
            assert(d * p == p * d) by (nonlinear_arith);
            vstd::arithmetic::div_mod::lemma_fundamental_div_mod_converse(
                n + d - 1,
                d,
                p,
                n + d - 1 - p * d,
            );
        }
    }
}

/// The VRAM that may be used, in hundredths of a byte: 97 percent of what is
/// free, less 640 MiB.
pub proof fn law_a_reserve_is_kept(free: int)
    requires
        0 <= free,
    ensures
        usable(free) == if 97 * free - 100 * (640 * 1024 * 1024) > 0 {
            97 * free - 100 * (640 * 1024 * 1024)
        } else {
            0
        },
{
}

/// As many layers are offloaded as fit, and no more: with the KV cost of a layer
/// at `num / den` bytes, `n` layers fit if and only if no more than `n` are
/// asked for. The weights are shared out evenly over the layers.
proof fn lemma_decision_written_out(
    free: u64,
    i: &GgufInfo,
    file: u64,
    ctx: u32,
    bk: u32,
    bv: u32,
    r: FitDecision,
    n: u32,
    p: int,
    num: int,
    den: int,
)
    requires
        decided(Some(free), Some(i), file, ctx, bk, bv, r),
        0 < i.n_layers <= i32::MAX,
        0 < file,
        n <= i.n_layers,
        pays(*i, n as int, p),
        i.kv_cost(ctx as int, bk as int, bv as int) * den == i.kv_den() * num,
        0 < den,
    ensures
        ({
            let fits = 100 * (n * file * den + p * num * i.n_layers) <= usable(free as int) * (
            i.n_layers * den);
            match r {
                FitDecision::FitsFully => fits,
                FitDecision::Partial { layers, n_layers } => n_layers == i.n_layers && 0 <= layers
                    < i.n_layers && (fits <==> n <= layers),
                FitDecision::Unknown { .. } => false,
            }
        }),
{
    law_only_attention_layers_pay(*i, n as int, p);
    lemma_fits_written_out(
        *i,
        free as int,
        file as int,
        ctx as int,
        bk as int,
        bv as int,
        n as int,
        num,
        den,
    );
    law_the_split_is_the_largest_that_fits(*i, free, file, ctx, bk, bv, n);
    lemma_most(
        *i,
        free as int,
        file as int,
        ctx as int,
        bk as int,
        bv as int,
        i.n_layers as int,
    );
}

/// As many layers are offloaded as fit in the free VRAM, and no more. A layer
/// takes its share of the weights and, if it pays for the cache, the keys and
/// values of `h` heads of lengths `k` and `v` for every token; 97 percent of the
/// free VRAM less 640 MiB may be used. `n` layers, of which `p` pay, fit if and
/// only if the split is not smaller.
pub proof fn law_the_most_layers_that_fit_are_offloaded(
    free: u64,
    i: &GgufInfo,
    file: u64,
    ctx: u32,
    bk: u32,
    bv: u32,
    r: FitDecision,
    n: u32,
    p: int,
    h: u32,
    k: u32,
    v: u32,
)
    requires
        decided(Some(free), Some(i), file, ctx, bk, bv, r),
        0 < i.n_layers <= i32::MAX,
        0 < file,
        n <= i.n_layers,
        pays(*i, n as int, p),
        i.n_head_kv == Some(h),
        i.key_length == Some(k),
        i.value_length == Some(v),
        0 < h,
        0 < k,
        0 < v,
    ensures
        ({
            let left = 97 * free - 100 * (640 * 1024 * 1024);
            let room = if left > 0 {
                left
            } else {
                0
            };
            let fits = 100 * (n * file * 32 + p * (ctx * h * (k * bk + v * bv)) * i.n_layers)
                <= room * (i.n_layers * 32);
            match r {
                FitDecision::FitsFully => fits,
                FitDecision::Partial { layers, n_layers } => n_layers == i.n_layers && 0 <= layers
                    < i.n_layers && (fits <==> n <= layers),
                FitDecision::Unknown { .. } => false,
            }
        }),
{
    law_a_layer_pays_for_keys_and_values(*i, ctx as int, bk as int, bv as int, h, k, v);
    lemma_decision_written_out(
        free,
        i,
        file,
        ctx,
        bk,
        bv,
        r,
        n,
        p,
        ctx * h * (k * bk + v * bv),
        32,
    );
}

/// The same for a model that gives its embedding and its heads in place of the
/// lengths.
pub proof fn law_the_most_layers_that_fit_go_by_the_embedding(
    free: u64,
    i: &GgufInfo,
    file: u64,
    ctx: u32,
    bk: u32,
    bv: u32,
    r: FitDecision,
    n: u32,
    p: int,
    h: u32,
    e: u32,
    heads: u32,
)
    requires
        decided(Some(free), Some(i), file, ctx, bk, bv, r),
        0 < i.n_layers <= i32::MAX,
        0 < file,
        n <= i.n_layers,
        pays(*i, n as int, p),
        i.n_head_kv == Some(h),
        i.key_length is None,
        i.value_length is None,
        i.n_embd == Some(e),
        i.n_head == Some(heads),
        0 < h,
        0 < e,
        0 < heads,
    ensures
        ({
            let left = 97 * free - 100 * (640 * 1024 * 1024);
            let room = if left > 0 {
                left
            } else {
                0
            };
            let fits = 100 * (n * file * (32 * heads) + p * (ctx * h * e * (bk + bv)) * i.n_layers)
                <= room * (i.n_layers * (32 * heads));
            match r {
                FitDecision::FitsFully => fits,
                FitDecision::Partial { layers, n_layers } => n_layers == i.n_layers && 0 <= layers
                    < i.n_layers && (fits <==> n <= layers),
                FitDecision::Unknown { .. } => false,
            }
        }),
{
    law_a_head_is_its_share_of_the_embedding(
        *i,
        ctx as int,
        bk as int,
        bv as int,
        h,
        e,
        heads,
    );
    lemma_decision_written_out(
        free,
        i,
        file,
        ctx,
        bk,
        bv,
        r,
        n,
        p,
        ctx * h * e * (bk + bv),
        32 * heads,
    );
}

/// A model is sized exactly where the free VRAM, the layer count and the size of
/// its file are known.
pub proof fn law_a_model_is_sized_where_the_facts_are_known(
    free: Option<u64>,
    info: Option<&GgufInfo>,
    file: u64,
    ctx: u32,
    bk: u32,
    bv: u32,
    r: FitDecision,
)
    requires
        decided(free, info, file, ctx, bk, bv, r),
    ensures
        r is Unknown <==> free is None || file == 0 || !(info matches Some(i) && i.n_layers > 0),
{
}

/// Where nobody can be asked, the flow comes to what was decided: all layers, or
/// those that fit, or the configured count where nothing could be sized. A
/// strict server goes on only with all of them.
pub proof fn law_a_server_goes_on_with_what_was_decided(
    free: Option<u64>,
    info: Option<&GgufInfo>,
    file: u64,
    fallback: i32,
    ctx: u32,
    strict: bool,
    bk: u32,
    bv: u32,
    r: FitDecision,
)
    requires
        decided(free, info, file, ctx, bk, bv, r),
    ensures
        headless(free, info, file, fallback, ctx, strict, bk, bv) == match r {
            FitDecision::FitsFully => FitOutcome::Proceed(-1i32),
            FitDecision::Partial { layers, .. } => if strict {
                FitOutcome::Abort
            } else {
                FitOutcome::Proceed(layers)
            },
            FitDecision::Unknown { .. } => if strict {
                FitOutcome::Abort
            } else {
                FitOutcome::Proceed(fallback)
            },
        },
{
}

/// The user is asked only about a split, and only where they may be.
pub proof fn law_only_a_split_is_asked_about(
    decision: FitDecision,
    fallback: i32,
    strict: bool,
    may_ask: bool,
)
    ensures
        step_for(decision, fallback, strict, may_ask) is Ask <==> decision is Partial && !strict
            && may_ask,
        step_for(decision, fallback, strict, may_ask) matches FitStep::Ask { layers } ==> (
        decision matches FitDecision::Partial { layers: l, .. } && layers == l),
        strict && !(decision is FitsFully) ==> step_for(decision, fallback, strict, may_ask)
            == FitStep::Done(FitOutcome::Abort),
        decision is FitsFully ==> step_for(decision, fallback, strict, may_ask) == FitStep::Done(
            FitOutcome::Proceed(-1i32),
        ),
{
}

/// A ceiling is kept and nothing else changes: the smaller of the two counts, a
/// negative one standing for all layers.
pub proof fn law_the_smaller_layer_count_wins(computed: i32, ceiling: i32)
    ensures
        ceiling < 0 ==> ceiled(computed, ceiling) == computed,
        ceiling >= 0 && computed < 0 ==> ceiled(computed, ceiling) == ceiling,
        0 <= ceiling <= computed ==> ceiled(computed, ceiling) == ceiling,
        0 <= computed <= ceiling ==> ceiled(computed, ceiling) == computed,
{
}

/// A sum of bytes grows by what is added to it.
pub proof fn law_bytes_add_up(v: Seq<u64>, x: u64)
    ensures
        total(Seq::<u64>::empty()) == 0,
        total(v.push(x)) == total(v) + x,
{
    assert(v.push(x).drop_last() =~= v);
}

proof fn lemma_evicted_no_more(per: Seq<u64>, i: int, kept: int, kv: int, d: int, u: int)
    requires
        0 <= i <= per.len(),
    ensures
        ({
            let n = evicted(per, i, kept, kv, d, u);
            n > 0 ==> !within(kept + total(per.subrange(n - 1, i)), 1, kv, d, u)
        }),
    decreases i,
{
    let n = evicted(per, i, kept, kv, d, u);
    lemma_evicted_range(per, i, kept, kv, d, u);
    if i > 0 {
        if within(kept + per[i - 1], 1, kv, d, u) {
            lemma_evicted_range(per, i - 1, kept + per[i - 1], kv, d, u);
            lemma_evicted_no_more(per, i - 1, kept + per[i - 1], kv, d, u);
            if n > 0 {
                assert(per.subrange(n - 1, i).drop_last() =~= per.subrange(n - 1, i - 1));
            }
        } else {
            let one = per.subrange(i - 1, i);
            assert(one.drop_last() =~= Seq::empty());
            assert(total(one.drop_last()) == 0);
            assert(one.last() == per[i - 1]);
            assert(total(one) == per[i - 1]);
        }
    }
}

proof fn lemma_within_written_out(x: int, kv: int, d: int, u: int, c: int, p: int, num: int, den: int)
    requires
        0 < d,
        0 < den,
        kv == p * c,
        c * den == d * num,
    ensures
        within(x, 1, kv, d, u) <==> 100 * (x * den + p * num) <= u * den,
        below(x, 1, kv, d, u) <==> 100 * (x * den + p * num) < u * den,
{
    let left = 100 * (x * d + kv * 1);
    let right = u * (1 * d);
    let plain_left = 100 * (x * den + p * num);
    let plain_right = u * den;
    assert(left * den == d * plain_left) by (nonlinear_arith)
        requires
            left == 100 * (x * d + kv * 1),
            plain_left == 100 * (x * den + p * num),
            kv == p * c,
            c * den == d * num,
    ;
    assert(right * den == d * plain_right) by (nonlinear_arith)
        requires
            right == u * (1 * d),
            plain_right == u * den,
    ;
    assert((left <= right <==> left * den <= right * den) && (left < right <==> left * den < right
        * den)) by (nonlinear_arith)
        requires
            0 < den,
    ;
    assert((plain_left <= plain_right <==> d * plain_left <= d * plain_right) && (plain_left
        < plain_right <==> d * plain_left < d * plain_right)) by (nonlinear_arith)
        requires
            0 < d,
    ;
}

/// Experts leave the GPU only as far as they must: with the experts of the first
/// `n` layers on the CPU everything else fits beside the whole KV cache, and
/// with those of one layer less it would not. Where not even the rest fits, all
/// experts go and the layers are split. `p` of the layers pay for the cache.
pub proof fn law_experts_leave_only_as_far_as_they_must(
    free: u64,
    i: &GgufInfo,
    l: &MoeLayout,
    ctx: u32,
    bk: u32,
    bv: u32,
    p: int,
    h: u32,
    k: u32,
    v: u32,
)
    requires
        pays(*i, i.n_layers as int, p),
        i.n_head_kv == Some(h),
        i.key_length == Some(k),
        i.value_length == Some(v),
        0 < h,
        0 < k,
        0 < v,
        l.expert_bytes_per_layer@.len() <= u32::MAX,
        exists|j: int|
            0 <= j < l.expert_bytes_per_layer@.len() && #[trigger] l.expert_bytes_per_layer@[j] > 0,
    ensures
        ({
            let left = 97 * free - 100 * (640 * 1024 * 1024);
            let room = if left > 0 {
                left
            } else {
                0
            };
            let per = l.expert_bytes_per_layer@;
            let cost = |x: int| 100 * (x * 32 + p * (ctx * h * (k * bk + v * bv)));
            let rest = l.non_expert_bytes as int;
            match moe_fit(Some(free), Some(i), Some(l), ctx, bk, bv) {
                MoeFitDecision::Proceed { n_cpu_moe: n } => {
                    &&& n <= per.len()
                    &&& cost(rest) < room * 32
                    &&& cost(rest + total(per.subrange(n as int, per.len() as int))) <= room * 32
                    &&& n > 0 ==> cost(rest + total(per.subrange(n - 1, per.len() as int))) > room
                        * 32
                },
                MoeFitDecision::ProceedCpuMoeAndPartial { .. } => cost(rest) >= room * 32,
                MoeFitDecision::NotMoe => false,
            }
        }),
{
    let (c, d) = (i.kv_cost(ctx as int, bk as int, bv as int), i.kv_den());
    let num = ctx * h * (k * bk + v * bv);
    let u = usable(free as int);
    let per = l.expert_bytes_per_layer@;
    let rest = l.non_expert_bytes as int;
    let len = per.len() as int;
    let kv = i.all_kv(ctx as int, bk as int, bv as int);
    law_a_layer_pays_for_keys_and_values(*i, ctx as int, bk as int, bv as int, h, k, v);
    law_only_attention_layers_pay(*i, i.n_layers as int, p);
    i.lemma_kv_den();
    assert(has_experts(per));
    let n = evicted(per, len, rest, kv, d, u);
    lemma_evicted_range(per, len, rest, kv, d, u);
    lemma_within_written_out(rest, kv, d, u, c, p, num, 32);
    lemma_within_written_out(rest + total(per.subrange(n, len)), kv, d, u, c, p, num, 32);
    lemma_evicted_no_more(per, len, rest, kv, d, u);
    if n > 0 {
        lemma_within_written_out(rest + total(per.subrange(n - 1, len)), kv, d, u, c, p, num, 32);
    }
    if below(rest, 1, kv, d, u) {
        law_kept_experts_fit(per, len, rest, kv, d, u);
    }
}

/// Only a model with expert bytes is placed by its experts.
pub proof fn law_a_model_without_experts_is_no_moe(
    free: Option<u64>,
    info: Option<&GgufInfo>,
    layout: Option<&MoeLayout>,
    ctx: u32,
    bk: u32,
    bv: u32,
)
    ensures
        moe_fit(free, info, layout, ctx, bk, bv) is NotMoe <==> free is None || info is None || !(
        layout matches Some(l) && exists|j: int|
            0 <= j < l.expert_bytes_per_layer@.len() && #[trigger] l.expert_bytes_per_layer@[j]
                > 0),
{
}

/// Where not even the rest of a MoE model fits, it is split as a model of that
/// size is.
pub proof fn law_the_rest_of_a_moe_model_is_split_like_any_other(
    free: u64,
    i: &GgufInfo,
    l: &MoeLayout,
    ctx: u32,
    bk: u32,
    bv: u32,
    r: FitDecision,
)
    requires
        decided(Some(free), Some(i), l.non_expert_bytes, ctx, bk, bv, r),
        moe_fit(Some(free), Some(i), Some(l), ctx, bk, bv) is ProceedCpuMoeAndPartial,
    ensures
        moe_fit(Some(free), Some(i), Some(l), ctx, bk, bv)
            == (MoeFitDecision::ProceedCpuMoeAndPartial {
            gpu_layers: match r {
                FitDecision::FitsFully => -1i32,
                FitDecision::Partial { layers, .. } => layers,
                FitDecision::Unknown { .. } => 0,
            },
        }),
{
}

/// The experts of a layer are those in tensors named `blk.<layer>.` with one of
/// the eight expert names in them.
pub proof fn law_experts_are_counted_for_their_layer(
    digits: Seq<char>,
    before: Seq<char>,
    after: Seq<char>,
    m: int,
    n_layers: int,
)
    requires
        0 < digits.len(),
        text::all_digits(digits),
        text::digits_value(digits) < n_layers <= u32::MAX,
        0 <= m < 8,
    ensures
        ({
            let markers = seq![
                "ffn_up_exps"@,
                "ffn_down_exps"@,
                "ffn_gate_exps"@,
                "ffn_gate_up_exps"@,
                "ffn_up_chexps"@,
                "ffn_down_chexps"@,
                "ffn_gate_chexps"@,
                "ffn_gate_up_chexps"@,
            ];
            expert_layer(
                "blk."@ + digits + "."@ + before + markers[m] + after,
                n_layers,
            ) == Some(text::digits_value(digits) as int)
        }),
{
    let markers = seq![
        "ffn_up_exps"@,
        "ffn_down_exps"@,
        "ffn_gate_exps"@,
        "ffn_gate_up_exps"@,
        "ffn_up_chexps"@,
        "ffn_down_chexps"@,
        "ffn_gate_chexps"@,
        "ffn_gate_up_chexps"@,
    ];
    assert(EXPERT_TENSOR_MARKERS@[m]@ == markers[m]);
    let name = "blk."@ + digits + "."@ + before + markers[m] + after;
    let at = ("blk."@ + digits + "."@ + before).len() as int;
    assert(name.subrange(at, at + markers[m].len()) =~= markers[m]);
    assert(text::occurs_at(name, EXPERT_TENSOR_MARKERS@[m]@, at));
    reveal_strlit("blk.");
    reveal_strlit(".");
    assert(name.take("blk."@.len() as int) =~= "blk."@);
    let rest = name.skip("blk."@.len() as int);
    assert forall|j: int| 0 <= j < digits.len() implies rest[j] != '.' by {
        assert(rest[j] == digits[j]);
        assert(text::is_digit(digits[j]));
    }
    assert(rest[digits.len() as int] == '.');
    text::lemma_index_of_is(rest, '.', digits.len() as int);
    assert(rest.take(digits.len() as int) =~= digits);
    assert(text::is_digit(digits[0]));
}

/// The bytes of a layout are those of its tensors: a tensor that counts for a
/// layer adds its size there, and any other to the rest.
pub proof fn law_each_tensor_counts_once(
    ts: Seq<(Seq<char>, u64)>,
    end: int,
    n_layers: int,
    of: Option<int>,
    k: int,
)
    requires
        0 <= k < ts.len(),
    ensures
        bytes_for(ts, end, n_layers, of, k + 1) - bytes_for(ts, end, n_layers, of, k) == if expert_layer(
            ts[k].0,
            n_layers,
        ) != of {
            0
        } else if k + 1 < ts.len() {
            ts[k + 1].1 - ts[k].1
        } else {
            end - ts[k].1
        },
        bytes_for(ts, end, n_layers, of, 0) == 0,
{
}

/// A key cannot end in two texts of ASCII letters that differ `t` places before
/// their ends.
proof fn lemma_one_ending(key: Seq<u8>, x: Seq<char>, y: Seq<char>, t: int)
    requires
        vstd::utf8::is_ascii_chars(x),
        vstd::utf8::is_ascii_chars(y),
        0 <= t < x.len(),
        t < y.len(),
        x[x.len() - 1 - t] != y[y.len() - 1 - t],
        gguf::bytes_end_with(key, encode_utf8(x)),
    ensures
        !gguf::bytes_end_with(key, encode_utf8(y)),
{
    vstd::utf8::is_ascii_chars_encode_utf8(x);
    vstd::utf8::is_ascii_chars_encode_utf8(y);
    let (a, b) = (encode_utf8(x), encode_utf8(y));
    let (c, d) = (x[x.len() - 1 - t], y[y.len() - 1 - t]);
    if gguf::bytes_end_with(key, b) {
        let at = key.len() - 1 - t;
        assert(key.skip(key.len() - a.len())[a.len() - 1 - t] == key[at]);
        assert(key.skip(key.len() - b.len())[b.len() - 1 - t] == key[at]);
        assert(c as u8 == d as u8);
        assert(c as u32 == d as u32) by {
            assert(c <= '\u{7f}' && d <= '\u{7f}');
        }
    }
}

/// The texts that the keys of the integer fields end in.
spec fn endings() -> Seq<Seq<char>> {
    seq![
        ".block_count"@,
        ".embedding_length"@,
        ".attention.head_count_kv"@,
        ".attention.head_count"@,
        ".attention.key_length"@,
        ".attention.value_length"@,
        ".full_attention_interval"@,
    ]
}

proof fn lemma_endings_ascii()
    ensures
        forall|i: int| 0 <= i < 7 ==> vstd::utf8::is_ascii_chars(#[trigger] endings()[i]),
{
    reveal_strlit(".block_count");
    reveal_strlit(".embedding_length");
    reveal_strlit(".attention.head_count_kv");
    reveal_strlit(".attention.head_count");
    reveal_strlit(".attention.key_length");
    reveal_strlit(".attention.value_length");
    reveal_strlit(".full_attention_interval");
}

proof fn lemma_endings_apart(key: Seq<u8>, i: int, j: int)
    requires
        0 <= j < i < 7,
        gguf::bytes_end_with(key, encode_utf8(endings()[i])),
    ensures
        !gguf::bytes_end_with(key, encode_utf8(endings()[j])),
{
    lemma_endings_ascii();
    reveal_strlit(".block_count");
    reveal_strlit(".embedding_length");
    reveal_strlit(".attention.head_count_kv");
    reveal_strlit(".attention.head_count");
    reveal_strlit(".attention.key_length");
    reveal_strlit(".attention.value_length");
    reveal_strlit(".full_attention_interval");
    let t = if i == 3 && j == 0 {
        6int
    } else if (i == 4 && j == 1) || (i == 5 && j == 1) || (i == 5 && j == 4) {
        7
    } else {
        0
    };
    lemma_one_ending(key, endings()[i], endings()[j], t);
}

/// Each dimension is read under the key that names it: an entry whose key ends
/// in the name of a field, with a 32-bit number behind it, sets that field to
/// the number and leaves the others; a 64-bit number is cut to what fits.
pub proof fn law_fields_are_read_under_their_keys(d: Seq<u8>, p: int, k: int, m: Meta, v: u32)
    requires
        gguf::string_end(d, p) == Some(k),
        0 <= k,
        gguf::room(d, k, 4),
        (gguf::le4(d, k) == 4 && gguf::room(d, k + 4, 4) && v == gguf::le4(d, k + 4)) || (gguf::le4(
            d,
            k,
        ) == 10 && gguf::room(d, k + 4, 8) && v == if gguf::le8(d, k + 4) > 0xFFFF_FFFF {
            0xFFFF_FFFF
        } else {
            gguf::le8(d, k + 4)
        }),
    ensures
        ({
            let key = gguf::string_bytes(d, p);
            let ends = |s: Seq<char>|
                encode_utf8(s).len() <= key.len() && key.skip(key.len() - encode_utf8(s).len())
                    == encode_utf8(s);
            &&& entry(d, p, m) matches Some((n, e)) && e == k + 4 + (if gguf::le4(d, k) == 4 {
                4int
            } else {
                8int
            }) && {
                &&& ends(".block_count"@) ==> n == Meta { n_layers: Some(v), ..m }
                &&& ends(".embedding_length"@) ==> n == Meta { n_embd: Some(v), ..m }
                &&& ends(".attention.head_count_kv"@) ==> n == Meta { n_head_kv: Some(v), ..m }
                &&& ends(".attention.head_count"@) ==> n == Meta { n_head: Some(v), ..m }
                &&& ends(".attention.key_length"@) ==> n == Meta { key_length: Some(v), ..m }
                &&& ends(".attention.value_length"@) ==> n == Meta { value_length: Some(v), ..m }
                &&& ends(".full_attention_interval"@) ==> n == Meta { interval: Some(v), ..m }
            }
        }),
{
    let key = gguf::string_bytes(d, p);
    assert forall|i: int, j: int|
        0 <= j < i < 7 && gguf::bytes_end_with(
            key,
            #[trigger] encode_utf8(endings()[i]),
        ) implies !gguf::bytes_end_with(key, #[trigger] encode_utf8(endings()[j])) by {
        lemma_endings_apart(key, i, j);
    }
    let e = endings();
    assert(encode_utf8(e[0]) == encode_utf8(".block_count"@));
    assert(encode_utf8(e[1]) == encode_utf8(".embedding_length"@));
    assert(encode_utf8(e[2]) == encode_utf8(".attention.head_count_kv"@));
    assert(encode_utf8(e[3]) == encode_utf8(".attention.head_count"@));
    assert(encode_utf8(e[4]) == encode_utf8(".attention.key_length"@));
    assert(encode_utf8(e[5]) == encode_utf8(".attention.value_length"@));
    assert(encode_utf8(e[6]) == encode_utf8(".full_attention_interval"@));
}

/// The architecture is read under its key, as text.
pub proof fn law_the_architecture_is_read_under_its_key(d: Seq<u8>, p: int, k: int, e: int, m: Meta)
    requires
        gguf::string_end(d, p) == Some(k),
        gguf::string_bytes(d, p) == encode_utf8("general.architecture"@),
        gguf::room(d, k, 4),
        gguf::le4(d, k) == 8,
        gguf::string_end(d, k + 4) == Some(e),
    ensures
        entry(d, p, m) == Some(
            (
                Meta {
                    architecture: Some(
                        gguf::lossy(d.subrange(k + 12, k + 12 + gguf::le8(d, k + 4))),
                    ),
                    ..m
                },
                e,
            ),
        ),
{
}

/// A header is its entries, read one after the other: an entry that can be read
/// is followed by the next, until every field is in hand.
pub proof fn law_entries_are_read_in_order(d: Seq<u8>, p: int, count: int, m: Meta, n: Meta, e: int)
    requires
        0 < count,
        entry(d, p, m) == Some((n, e)),
    ensures
        entries(d, p, count, m) == n || entries(d, p, count, m) == entries(d, e, count - 1, n),
        !(n.n_layers is Some && n.n_embd is Some && n.n_head is Some && n.n_head_kv is Some
            && n.key_length is Some && n.value_length is Some && n.interval is Some) ==> entries(
            d,
            p,
            count,
            m,
        ) == entries(d, e, count - 1, n),
{
}

/// A tensor belongs to the layer whose number stands behind `blk.` in its name,
/// and one that is named otherwise to none.
pub proof fn law_a_tensor_name_tells_its_layer(n: nat, rest: Seq<char>, name: Seq<char>)
    requires
        n <= u32::MAX,
    ensures
        layer_named("blk."@ + text::decimal(n) + seq!['.'] + rest) == Some(n),
        name.len() < 4 || name.take(4) != "blk."@ ==> layer_named(name) is None,
{
    reveal_strlit("blk.");
    let front = "blk."@;
    let digits = text::decimal(n);
    let all = front + digits + seq!['.'] + rest;
    text::law_numbers_read_as_they_are_written(n);
    assert(all.take(4) =~= front);
    let tail = all.skip(4);
    assert(tail =~= digits + seq!['.'] + rest);
    assert forall|i: int| 0 <= i < digits.len() implies tail[i] != '.' by {
        assert(text::is_digit(digits[i]));
        assert(tail[i] == digits[i]);
    }
    text::lemma_index_of_is(tail, '.', digits.len() as int);
    assert(tail.take(digits.len() as int) =~= digits);
    assert(text::is_digit(digits[0]));
}

/// A name with one of the expert markers in it is an expert tensor's, whatever
/// stands around it, and a name without `exps` is none.
pub proof fn law_experts_are_told_by_their_names(
    before: Seq<char>,
    marker: Seq<char>,
    after: Seq<char>,
    name: Seq<char>,
)
    requires
        marker == "ffn_up_exps"@ || marker == "ffn_down_exps"@ || marker == "ffn_gate_exps"@
            || marker == "ffn_gate_up_exps"@ || marker == "ffn_up_chexps"@ || marker
            == "ffn_down_chexps"@ || marker == "ffn_gate_chexps"@ || marker
            == "ffn_gate_up_chexps"@,
    ensures
        names_expert(before + marker + after),
        names_expert(name) ==> text::occurs(name, "exps"@),
{
    let all = before + marker + after;
    assert(all.subrange(before.len() as int, before.len() as int + marker.len()) =~= marker);
    assert(text::occurs_at(all, marker, before.len() as int));
    assert(text::occurs(all, marker));
    let m = EXPERT_TENSOR_MARKERS@;
    assert(m[0]@ == "ffn_up_exps"@ && m[1]@ == "ffn_down_exps"@ && m[2]@ == "ffn_gate_exps"@
        && m[3]@ == "ffn_gate_up_exps"@);
    assert(m[4]@ == "ffn_up_chexps"@ && m[5]@ == "ffn_down_chexps"@ && m[6]@ == "ffn_gate_chexps"@
        && m[7]@ == "ffn_gate_up_chexps"@);
    if names_expert(name) {
        let i = choose|i: int| 0 <= i < 8 && text::occurs(name, #[trigger] m[i]@);
        lemma_marker_ends_in_exps(i);
        let w = m[i]@;
        let p = choose|p: int| text::occurs_at(name, w, p);
        let n = w.len() as int;
        assert(name.subrange(p, p + n) == w);
        assert(name.subrange(p + n - 4, p + n) =~= w.subrange(n - 4, n));
        assert(text::occurs_at(name, "exps"@, p + n - 4));
    }
}

proof fn lemma_marker_ends_in_exps(i: int)
    requires
        0 <= i < 8,
    ensures
        ({
            let w = EXPERT_TENSOR_MARKERS@[i]@;
            w.len() >= 4 && w.subrange(w.len() - 4, w.len() as int) == "exps"@
        }),
        "exps"@.len() == 4,
{
    reveal_strlit("exps");
    reveal_strlit("ffn_up_exps");
    reveal_strlit("ffn_down_exps");
    reveal_strlit("ffn_gate_exps");
    reveal_strlit("ffn_gate_up_exps");
    reveal_strlit("ffn_up_chexps");
    reveal_strlit("ffn_down_chexps");
    reveal_strlit("ffn_gate_chexps");
    reveal_strlit("ffn_gate_up_chexps");
    let w = EXPERT_TENSOR_MARKERS@[i]@;
    assert(w.subrange(w.len() - 4, w.len() as int) =~= "exps"@);
}

/// The alignment of the tensor data is the one that the header sets, in 32 bits
/// or in 64, and no other entry changes it; what sets none of its own leaves
/// what was there before.
pub proof fn law_the_header_sets_the_alignment(
    d: Seq<u8>,
    p: int,
    k: int,
    e: int,
    count: int,
    before: int,
)
    requires
        count > 0,
        gguf::string_end(d, p) == Some(k),
        gguf::room(d, k, 4),
        gguf::value_end(d, k + 4, gguf::le4(d, k) as u32) == Some(e),
    ensures
        ({
            let named = gguf::string_bytes(d, p) == encode_utf8("general.alignment"@);
            let set = |v: int|
                alignment_after(d, p, count, before) == alignment_after(
                    d,
                    e,
                    count - 1,
                    if v > 0 {
                        v
                    } else {
                        before
                    },
                );
            &&& !named ==> alignment_after(d, p, count, before) == alignment_after(
                d,
                e,
                count - 1,
                before,
            )
            &&& named && gguf::le4(d, k) == 4 ==> set(gguf::le4(d, k + 4))
            &&& named && gguf::le4(d, k) == 10 ==> set(gguf::le8(d, k + 4))
        }),
        alignment_after(d, p, 0, before) == Some((before, p)),
{
}

/// The tensor data starts at the first multiple of the alignment behind the
/// table; where the header sets no alignment, it is 32.
pub proof fn law_the_tensor_data_is_aligned(
    d: Seq<u8>,
    alignment: int,
    p: int,
    ts: Seq<(Seq<char>, u64)>,
    q: int,
)
    requires
        gguf::room(d, 0, 24),
        gguf::le4(d, 0) == 0x4655_4747,
        alignment_after(d, 24, gguf::le8(d, 16), 32) == Some((alignment, p)),
        alignment > 0,
        tensors_at(d, p, gguf::le8(d, 8)) == Some((ts, q)),
        q >= 0,
    ensures
        tensor_table(d) matches Some((t, start)) && t == ts && start % alignment == 0 && q <= start
            < q + alignment,
{
    law_aligned(q, alignment);
}

/// A size in GiB is shown to the nearest hundredth, with two decimals.
pub proof fn law_a_size_is_shown_to_the_nearest_hundredth(bytes: int)
    requires
        bytes >= 0,
    ensures
        2 * (gib_hundredths(bytes) * 0x4000_0000 - 100 * bytes) <= 0x4000_0000,
        2 * (100 * bytes - gib_hundredths(bytes) * 0x4000_0000) <= 0x4000_0000,
        gib_text(bytes) == text::decimal((gib_hundredths(bytes) / 100) as nat) + "."@
            + text::decimal((gib_hundredths(bytes) % 100 / 10) as nat) + text::decimal(
            (gib_hundredths(bytes) % 10) as nat,
        ) + " GiB"@,
{
    let h = gib_hundredths(bytes);
    assert(h >= 0);
    assert(h / 10 % 10 == h % 100 / 10);
}

/// Only a clear word goes on or stops, and no word at all stops.
pub proof fn law_an_answer_is_a_word(word: Seq<char>)
    ensures
        answer_for(word) is Continue <==> word == "c"@ || word == "continue"@ || word == "y"@
            || word == "yes"@,
        answer_for(word) is Abort ==> !(answer_for(word) is Continue),
        word == "a"@ || word == "abort"@ || word == "n"@ || word == "no"@ || word == "q"@
            ==> answer_for(word) is Abort,
        answer_for(Seq::empty()) is Abort,
        answer_for(word) is Abort ==> word == "a"@ || word == "abort"@ || word == "n"@ || word
            == "no"@ || word == "q"@ || word.len() == 0,
{
    reveal_strlit("c");
    reveal_strlit("continue");
    reveal_strlit("y");
    reveal_strlit("yes");
    reveal_strlit("a");
    reveal_strlit("abort");
    reveal_strlit("n");
    reveal_strlit("no");
    reveal_strlit("q");
    assert("c"@[0] == 'c' && "continue"@[0] == 'c' && "y"@[0] == 'y' && "yes"@[0] == 'y');
    assert("c"@.len() == 1 && "continue"@.len() == 8 && "y"@.len() == 1 && "yes"@.len() == 3);
    assert("a"@[0] == 'a' && "abort"@[0] == 'a' && "n"@[0] == 'n' && "no"@[0] == 'n' && "q"@[0]
        == 'q');
}

/// A model that fits is loaded without a warning; one that is split or cannot be
/// sized is warned about, unless the user is asked; and a refusal always says
/// why.
pub proof fn law_a_split_is_warned_about(
    decision: FitDecision,
    fallback: i32,
    strict: bool,
    announce: bool,
    asking: bool,
    free: int,
    file_size: int,
)
    ensures
        ({
            let w = fit_warnings(decision, fallback, strict, announce, asking, free, file_size);
            match decision {
                FitDecision::FitsFully => w.len() == 0,
                FitDecision::Partial { layers, n_layers } => {
                    &&& strict ==> w.len() == 2 && w[0] == "[EULLM] --fit-strict: model needs ~"@
                        + gib_text(file_size) + " but only "@ + gib_text(free)
                        + " VRAM is free; not loading."@
                    &&& !strict && asking ==> w.len() == 0
                    &&& !strict && !asking ==> w.len() == 1 && w[0]
                        == "[EULLM] Model larger than free VRAM ("@ + gib_text(free)
                        + " free, model "@ + gib_text(file_size) + "): offloading "@ + (
                    text::signed_decimal(layers as int) + "/"@ + text::decimal(n_layers as nat))
                        + " layers, the rest runs in RAM (slower). Set --gpu-layers to choose yourself, or --no-fit to disable sizing."@
                },
                FitDecision::Unknown { reason } => {
                    &&& strict || announce ==> w.len() == 2 && w[0]
                        == "[EULLM] --fit could not size the model: "@ + reason@ + "."@
                    &&& !strict && !announce ==> w.len() == 0
                },
            }
        }),
{
}

/// An expert tensor counts for one of the model's layers, and one that is named
/// for none of them counts as any other.
pub proof fn law_other_tensors_are_no_experts(name: Seq<char>, n_layers: int)
    ensures
        expert_layer(name, n_layers) matches Some(l) ==> 0 <= l < n_layers && names_expert(name)
            && layer_named(name) == Some(l as nat),
        !text::occurs(name, "exps"@) ==> expert_layer(name, n_layers) is None,
        name.len() < 4 || name.take(4) != "blk."@ ==> expert_layer(name, n_layers) is None,
{
    law_experts_are_told_by_their_names(
        Seq::empty(),
        "ffn_up_exps"@,
        Seq::empty(),
        name,
    );
    law_a_tensor_name_tells_its_layer(0, Seq::empty(), name);
}

} // verus!
