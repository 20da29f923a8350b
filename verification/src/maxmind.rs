//! Decoder for the binary-trie IP-intelligence database: the self-describing
//! structured-value encoding used for its metadata and its per-record
//! payloads, and the trie walk that turns its search tree into
//! (address-range, payload-offset) pairs.
//!
//! The specification functions in this module state the byte format
//! directly: a control byte whose top 3 bits select the type (0 meaning an
//! extended type read from the next byte) and whose bottom 5 bits hold a
//! size field, extended sizes read from 1 to 3 extra bytes, and pointers
//! resolved and dereferenced recursively. The executable decoder is proved
//! to return exactly what the specification decoder reads.

use vstd::prelude::*;
use vstd::utf8::{valid_utf8, decode_utf8};
use vstd::slice::{slice_subrange, slice_to_vec};

verus! {

/// Recursion bound for the structured-value decoder: a malformed or cyclic
/// pointer chain would otherwise exhaust the call stack, so dereferencing
/// a pointer or descending into a container costs one unit of depth.
pub const DECODE_DEPTH: u32 = 512;

/// How a decode can fail; every failure is fatal for the enclosing load.
#[derive(Clone, Copy, PartialEq, Eq, Structural, Debug)]
pub enum MmdbError {
    /// The metadata marker was not found.
    NoMetadata,
    /// The metadata lacks a required field or is not a map.
    BadMetadata,
    /// The record size is not one of 24, 28 or 32 bits.
    BadRecordSize,
    /// A read fell outside the buffer.
    OutOfBounds,
    /// An unknown type tag.
    UnknownType,
    /// A value's size field is impossible for its type.
    BadValueSize,
    /// A string value is not valid UTF-8.
    BadString,
    /// The pointer-dereference depth bound was exhausted.
    DepthLimit,
}

/// A decoded structured value. Floating-point payloads are carried as
/// their big-endian IEEE 754 bit patterns; turning them into numbers is
/// the caller's part.
#[derive(Debug)]
pub enum Value {
    String(String),
    Int(i32),
    UInt(u64),
    /// The 32 bits of a single-precision value.
    Float(u32),
    /// The 64 bits of a double-precision value.
    Double(u64),
    Bool(bool),
    /// Map entries in encoding order; a reader keeps the last entry of a
    /// repeated key.
    Dict(Vec<(String, Value)>),
    Array(Vec<Value>),
    Bytes(Vec<u8>),
}

/// The mathematical form of a structured value.
pub enum ValueModel {
    Str(Seq<char>),
    Int(i32),
    UInt(u64),
    FloatBits(u32),
    DoubleBits(u64),
    Bool(bool),
    Dict(Seq<(Seq<char>, ValueModel)>),
    Arr(Seq<ValueModel>),
    Bytes(Seq<u8>),
}

/// Whether the decoded value `v` carries exactly the mathematical value `m`.
pub open spec fn value_models(v: Value, m: ValueModel) -> bool
    decreases m,
{
    match m {
        ValueModel::Str(cs) => match v {
            Value::String(s) => s@ == cs,
            _ => false,
        },
        ValueModel::Int(n) => match v {
            Value::Int(x) => x == n,
            _ => false,
        },
        ValueModel::UInt(n) => match v {
            Value::UInt(x) => x == n,
            _ => false,
        },
        ValueModel::FloatBits(n) => match v {
            Value::Float(x) => x == n,
            _ => false,
        },
        ValueModel::DoubleBits(n) => match v {
            Value::Double(x) => x == n,
            _ => false,
        },
        ValueModel::Bool(b) => match v {
            Value::Bool(x) => x == b,
            _ => false,
        },
        ValueModel::Bytes(bs) => match v {
            Value::Bytes(x) => x@ == bs,
            _ => false,
        },
        ValueModel::Dict(fs) => match v {
            Value::Dict(fields) => dict_models(fields@, fs),
            _ => false,
        },
        ValueModel::Arr(es) => match v {
            Value::Array(elems) => arr_models(elems@, es),
            _ => false,
        },
    }
}

/// Whether decoded map entries carry exactly the mathematical entries.
pub open spec fn dict_models(fields: Seq<(String, Value)>, fs: Seq<(Seq<char>, ValueModel)>) -> bool
    decreases fs,
{
    fields.len() == fs.len() && (forall|i: int|
        0 <= i < fs.len() ==> (#[trigger] fields[i]).0@ == fs[i].0 && value_models(
            fields[i].1,
            fs[i].1,
        ))
}

/// Whether decoded array elements carry exactly the mathematical elements.
pub open spec fn arr_models(elems: Seq<Value>, es: Seq<ValueModel>) -> bool
    decreases es,
{
    elems.len() == es.len() && (forall|i: int|
        0 <= i < es.len() ==> value_models(#[trigger] elems[i], es[i]))
}

/// The value of big-endian bytes.
pub open spec fn be_val(s: Seq<u8>) -> nat
    decreases s.len(),
{
    if s.len() == 0 {
        0
    } else {
        be_val(s.drop_last()) * 256 + s.last() as nat
    }
}

/// The size field read from a control byte: sizes below 29 are literal;
/// 29, 30 and 31 extend with 1, 2 or 3 big-endian bytes plus the fixed
/// offsets 29, 285 and 65821. Pointers (type 1) never extend: their size
/// field is a sub-encoding selector. Returns the size and the offset after
/// any extension bytes, or nothing when the extension bytes run out of the
/// buffer.
pub open spec fn spec_size(buf: Seq<u8>, ctrl: u8, offset: int, type_num: nat) -> Option<
    (nat, int),
> {
    let size = (ctrl & 0x1f) as nat;
    if type_num == 1 || size < 29 {
        Some((size, offset))
    } else if size == 29 {
        if offset + 1 <= buf.len() {
            Some((29 + buf[offset] as nat, offset + 1))
        } else {
            None
        }
    } else if size == 30 {
        if offset + 2 <= buf.len() {
            Some((285 + be_val(buf.subrange(offset, offset + 2)), offset + 2))
        } else {
            None
        }
    } else {
        if offset + 3 <= buf.len() {
            Some((65821 + be_val(buf.subrange(offset, offset + 3)), offset + 3))
        } else {
            None
        }
    }
}

/// A resolved pointer: the selector is the size field's top 2 of 5 bits,
/// choosing 1 to 4 payload bytes; the low 3 bits join the payload for the
/// 1-, 2- and 3-byte widths, which also add the fixed offsets 0, 2048 and
/// 526336; `base` is the pointer base of the decoding context.
pub open spec fn spec_pointer_target(buf: Seq<u8>, size: nat, offset: int, base: int) -> int {
    let psize = size / 8 + 1;
    if psize == 1 {
        (size % 8) * 256 + buf[offset] + base
    } else if psize == 2 {
        (size % 8) * 65536 + be_val(buf.subrange(offset, offset + 2)) + 2048 + base
    } else if psize == 3 {
        (size % 8) * 16777216 + be_val(buf.subrange(offset, offset + 3)) + 526336 + base
    } else {
        be_val(buf.subrange(offset, offset + 4)) + base
    }
}

/// The string value of `size` bytes at `offset`: its UTF-8 decoding.
pub open spec fn spec_string(buf: Seq<u8>, size: nat, offset: int) -> Option<(ValueModel, int)> {
    if offset + size > buf.len() {
        None
    } else {
        let bs = buf.subrange(offset, offset + size);
        if valid_utf8(bs) {
            Some((ValueModel::Str(decode_utf8(bs)), offset + size))
        } else {
            None
        }
    }
}

/// A double: exactly 8 big-endian bytes of IEEE 754 bits.
pub open spec fn spec_double(buf: Seq<u8>, size: nat, offset: int) -> Option<(ValueModel, int)> {
    if size != 8 || offset + 8 > buf.len() {
        None
    } else {
        Some((ValueModel::DoubleBits(be_val(buf.subrange(offset, offset + 8)) as u64), offset + 8))
    }
}

/// A float: exactly 4 big-endian bytes of IEEE 754 bits.
pub open spec fn spec_float(buf: Seq<u8>, size: nat, offset: int) -> Option<(ValueModel, int)> {
    if size != 4 || offset + 4 > buf.len() {
        None
    } else {
        Some((ValueModel::FloatBits(be_val(buf.subrange(offset, offset + 4)) as u32), offset + 4))
    }
}

/// A raw blob of `size` bytes.
pub open spec fn spec_bytes(buf: Seq<u8>, size: nat, offset: int) -> Option<(ValueModel, int)> {
    if offset + size > buf.len() {
        None
    } else {
        Some((ValueModel::Bytes(buf.subrange(offset, offset + size)), offset + size))
    }
}

/// An unsigned integer of `size` big-endian bytes, kept to 64 bits.
pub open spec fn spec_uint(buf: Seq<u8>, size: nat, offset: int) -> Option<(ValueModel, int)> {
    if offset + size > buf.len() {
        None
    } else {
        Some(
            (
                ValueModel::UInt(
                    (be_val(buf.subrange(offset, offset + size)) % 0x1_0000_0000_0000_0000) as u64,
                ),
                offset + size,
            ),
        )
    }
}

/// A signed 32-bit integer of 0 to 4 big-endian bytes, sign-extended; zero
/// bytes read as zero and consume nothing.
pub open spec fn spec_int32(buf: Seq<u8>, size: nat, offset: int) -> Option<(ValueModel, int)> {
    if size > 4 {
        None
    } else if size == 0 {
        Some((ValueModel::Int(0), offset))
    } else if offset + size > buf.len() {
        None
    } else {
        let raw = be_val(buf.subrange(offset, offset + size));
        let v: int = if buf[offset] >= 128 {
            raw - pow256(size)
        } else {
            raw as int
        };
        Some((ValueModel::Int(v as i32), offset + size))
    }
}

/// The structured value at `offset`, and the offset just after it.
/// Nothing is returned when the value is malformed: a read outside the
/// buffer, an unknown type tag, an impossible size, a non-UTF-8 string, or
/// a pointer chain deeper than `fuel`.
pub open spec fn spec_decode(buf: Seq<u8>, offset: int, base: int, fuel: nat) -> Option<
    (ValueModel, int),
>
    decreases fuel, 0nat, 0nat,
{
    if fuel == 0 {
        None
    } else if !(0 <= offset < buf.len()) {
        None
    } else {
        let ctrl = buf[offset];
        let tn0 = (ctrl >> 5) as nat;
        if tn0 == 0 && !(offset + 1 < buf.len()) {
            None
        } else {
            let tn = if tn0 == 0 {
                buf[offset + 1] as nat + 7
            } else {
                tn0
            };
            let off1 = if tn0 == 0 {
                offset + 2
            } else {
                offset + 1
            };
            match spec_size(buf, ctrl, off1, tn) {
                None => None,
                Some((size, off2)) => {
                    if tn == 1 {
                        spec_decode_pointer(buf, size, off2, base, (fuel - 1) as nat)
                    } else if tn == 2 {
                        spec_string(buf, size, off2)
                    } else if tn == 3 {
                        spec_double(buf, size, off2)
                    } else if tn == 4 {
                        spec_bytes(buf, size, off2)
                    } else if tn == 5 || tn == 6 || tn == 9 || tn == 10 {
                        spec_uint(buf, size, off2)
                    } else if tn == 7 {
                        match spec_entries(buf, off2, base, (fuel - 1) as nat, size) {
                            Some((fs, end)) => Some((ValueModel::Dict(fs), end)),
                            None => None,
                        }
                    } else if tn == 8 {
                        spec_int32(buf, size, off2)
                    } else if tn == 11 {
                        match spec_elems(buf, off2, base, (fuel - 1) as nat, size) {
                            Some((es, end)) => Some((ValueModel::Arr(es), end)),
                            None => None,
                        }
                    } else if tn == 14 {
                        Some((ValueModel::Bool(size != 0), off2))
                    } else if tn == 15 {
                        spec_float(buf, size, off2)
                    } else {
                        None
                    }
                },
            }
        }
    }
}

/// A pointer value: resolved to its target, which is decoded recursively;
/// the caller sees the pointee and the offset just after the pointer bytes.
pub open spec fn spec_decode_pointer(
    buf: Seq<u8>,
    size: nat,
    offset: int,
    base: int,
    inner_fuel: nat,
) -> Option<(ValueModel, int)>
    decreases inner_fuel, 1nat, 0nat,
{
    let psize = size / 8 + 1;
    if offset + psize > buf.len() {
        None
    } else {
        let target = spec_pointer_target(buf, size, offset, base);
        match spec_decode(buf, target, base, inner_fuel) {
            Some((v, _)) => Some((v, offset + psize)),
            None => None,
        }
    }
}

/// `count` map entries starting at `offset`: each a string key followed by
/// a value, both decoded recursively; entries whose key is not a string are
/// left out. Returns the kept entries and the offset after the last one.
pub open spec fn spec_entries(buf: Seq<u8>, offset: int, base: int, fuel: nat, count: nat) -> Option<
    (Seq<(Seq<char>, ValueModel)>, int),
>
    decreases fuel, 1nat, count,
{
    if count == 0 {
        Some((Seq::empty(), offset))
    } else {
        match spec_decode(buf, offset, base, fuel) {
            None => None,
            Some((k, off1)) => match spec_decode(buf, off1, base, fuel) {
                None => None,
                Some((v, off2)) => match spec_entries(buf, off2, base, fuel, (count - 1) as nat) {
                    None => None,
                    Some((rest, end)) => match k {
                        ValueModel::Str(key) => Some((seq![(key, v)] + rest, end)),
                        _ => Some((rest, end)),
                    },
                },
            },
        }
    }
}

/// `count` array elements starting at `offset`, each decoded recursively.
pub open spec fn spec_elems(buf: Seq<u8>, offset: int, base: int, fuel: nat, count: nat) -> Option<
    (Seq<ValueModel>, int),
>
    decreases fuel, 1nat, count,
{
    if count == 0 {
        Some((Seq::empty(), offset))
    } else {
        match spec_decode(buf, offset, base, fuel) {
            None => None,
            Some((v, off1)) => match spec_elems(buf, off1, base, fuel, (count - 1) as nat) {
                None => None,
                Some((rest, end)) => Some((seq![v] + rest, end)),
            },
        }
    }
}

/// 256 to the `n`.
pub open spec fn pow256(n: nat) -> nat
    decreases n,
{
    if n == 0 {
        1
    } else {
        256 * pow256((n - 1) as nat)
    }
}

/// The decoder's contract on success: the specification decoder reads a
/// value at this offset, the returned value carries it, and the returned
/// offset is the one just after it.
pub open spec fn decode_ok(
    buf: Seq<u8>,
    offset: int,
    base: int,
    fuel: nat,
    v: Value,
    end: int,
) -> bool {
    match spec_decode(buf, offset, base, fuel) {
        Some((m, e)) => value_models(v, m) && e == end,
        None => false,
    }
}

/// A decoder positioned over a buffer, resolving pointers relative to
/// `pointer_base`.
pub struct Decoder<'a> {
    pub buffer: &'a [u8],
    pub pointer_base: usize,
}

impl<'a> Decoder<'a> {
    /// Creates a decoder over `buffer` whose pointers resolve relative to
    /// `pointer_base`.
    pub fn new(buffer: &'a [u8], pointer_base: usize) -> (r: Decoder<'a>)
        ensures
            r.buffer@ == buffer@,
            r.pointer_base == pointer_base,
    {
        Decoder { buffer, pointer_base }
    }

    /// Reads the size field of `ctrl_byte`, extending it from the bytes at
    /// `offset` when the field is 29, 30 or 31 and the type is not a
    /// pointer: 1, 2 or 3 extra big-endian bytes plus the fixed offsets
    /// 29, 285 and 65821. Returns the size and the offset after any
    /// extension bytes.
    pub fn size_from_ctrl_byte(&self, ctrl_byte: u8, offset: usize, type_num: usize) -> (r: Result<
        (usize, usize),
        MmdbError,
    >)
        ensures
            match r {
                Ok((size, end)) => spec_size(self.buffer@, ctrl_byte, offset as int, type_num as nat)
                    == Some((size as nat, end as int)),
                Err(_) => spec_size(self.buffer@, ctrl_byte, offset as int, type_num as nat)
                    is None,
            },
    {
        let size = (ctrl_byte & 0x1f) as usize;
        assert(ctrl_byte & 0x1f < 32) by (bit_vector);
        if type_num == 1 || size < 29 {
            return Ok((size, offset));
        }
        if size == 29 {
            if offset >= self.buffer.len() {
                return Err(MmdbError::OutOfBounds);
            }
            let b0 = self.buffer[offset];
            return Ok((29 + b0 as usize, offset + 1));
        }
        if size == 30 {
            if self.buffer.len() < 2 || offset >= self.buffer.len() - 1 {
                return Err(MmdbError::OutOfBounds);
            }
            let b0 = self.buffer[offset];
            let b1 = self.buffer[offset + 1];
            proof {
                reveal_with_fuel(be_val, 3);
                let s = self.buffer@.subrange(offset as int, offset + 2);
                assert(s.drop_last() =~= seq![b0]);
                assert(seq![b0].drop_last() =~= Seq::<u8>::empty());
                assert(s.last() == b1 && seq![b0].last() == b0);
                assert(be_val(s) == b0 as nat * 256 + b1 as nat);
            }
            return Ok((285 + b0 as usize * 256 + b1 as usize, offset + 2));
        }
        if self.buffer.len() < 3 || offset >= self.buffer.len() - 2 {
            return Err(MmdbError::OutOfBounds);
        }
        let b0 = self.buffer[offset];
        let b1 = self.buffer[offset + 1];
        let b2 = self.buffer[offset + 2];
        proof {
            reveal_with_fuel(be_val, 4);
            let s = self.buffer@.subrange(offset as int, offset + 3);
            assert(s.drop_last() =~= seq![b0, b1]);
            assert(seq![b0, b1].drop_last() =~= seq![b0]);
            assert(seq![b0].drop_last() =~= Seq::<u8>::empty());
            assert(s.last() == b2 && seq![b0, b1].last() == b1 && seq![b0].last() == b0);
            assert(be_val(s) == (b0 as nat * 65536 + b1 as nat * 256) + b2 as nat);
        }
        Ok((65821 + b0 as usize * 65536 + b1 as usize * 256 + b2 as usize, offset + 3))
    }

    /// Decodes the structured value at `offset`, spending one unit of
    /// `depth` on every pointer dereference and every descent into a map
    /// or array. Returns the value and the offset just after it; fails
    /// exactly where the specification decoder reads nothing.
    pub fn decode(&self, offset: usize, depth: u32) -> (r: Result<(Value, usize), MmdbError>)
        ensures
            match r {
                Ok(p) => decode_ok(
                    self.buffer@,
                    offset as int,
                    self.pointer_base as int,
                    depth as nat,
                    p.0,
                    p.1 as int,
                ),
                Err(_) => spec_decode(
                    self.buffer@,
                    offset as int,
                    self.pointer_base as int,
                    depth as nat,
                ) is None,
            },
        decreases depth, 0nat,
    {
        let len = self.buffer.len();
        if depth == 0 {
            return Err(MmdbError::DepthLimit);
        }
        if offset >= len {
            return Err(MmdbError::OutOfBounds);
        }
        let ctrl_byte = self.buffer[offset];
        let tn0 = (ctrl_byte >> 5) as usize;
        let (type_num, off1) = if tn0 == 0 {
            if offset + 1 >= len {
                return Err(MmdbError::OutOfBounds);
            }
            (self.buffer[offset + 1] as usize + 7, offset + 2)
        } else {
            (tn0, offset + 1)
        };
        let (size, off2) = match self.size_from_ctrl_byte(ctrl_byte, off1, type_num) {
            Ok(p) => p,
            Err(e) => {
                return Err(e);
            },
        };
        if type_num == 1 {
            assert(ctrl_byte & 0x1f < 32) by (bit_vector);
            self.decode_pointer(size, off2, depth - 1)
        } else if type_num == 2 {
            self.decode_string(size, off2)
        } else if type_num == 3 {
            self.decode_double(size, off2)
        } else if type_num == 4 {
            self.decode_bytes(size, off2)
        } else if type_num == 5 || type_num == 6 || type_num == 9 || type_num == 10 {
            self.decode_uint(size, off2)
        } else if type_num == 7 {
            match self.decode_map(size, off2, depth - 1) {
                Ok((fields, end)) => Ok((Value::Dict(fields), end)),
                Err(e) => Err(e),
            }
        } else if type_num == 8 {
            self.decode_int32(size, off2)
        } else if type_num == 11 {
            match self.decode_array(size, off2, depth - 1) {
                Ok((elems, end)) => Ok((Value::Array(elems), end)),
                Err(e) => Err(e),
            }
        } else if type_num == 14 {
            Ok((Value::Bool(size != 0), off2))
        } else if type_num == 15 {
            self.decode_float(size, off2)
        } else {
            Err(MmdbError::UnknownType)
        }
    }

    /// Resolves a pointer and decodes its target; the returned offset is
    /// the one just after the pointer bytes.
    fn decode_pointer(&self, size: usize, offset: usize, depth: u32) -> (r: Result<
        (Value, usize),
        MmdbError,
    >)
        requires
            size < 32,
        ensures
            match r {
                Ok(p) => match spec_decode_pointer(
                    self.buffer@,
                    size as nat,
                    offset as int,
                    self.pointer_base as int,
                    depth as nat,
                ) {
                    Some((m, e)) => value_models(p.0, m) && e == p.1 as int,
                    None => false,
                },
                Err(_) => spec_decode_pointer(
                    self.buffer@,
                    size as nat,
                    offset as int,
                    self.pointer_base as int,
                    depth as nat,
                ) is None,
            },
        decreases depth, 1nat,
    {
        let ghost buf = self.buffer@;
        let ghost base = self.pointer_base as int;
        let len = self.buffer.len();
        let psize = size / 8 + 1;
        if !span_in(len, offset, psize) {
            return Err(MmdbError::OutOfBounds);
        }
        let payload = be_u64(self.buffer, offset, psize);
        let target128: u128 = if psize == 1 {
            ((size % 8) as u128) * 256 + payload as u128 + self.pointer_base as u128
        } else if psize == 2 {
            ((size % 8) as u128) * 65536 + payload as u128 + 2048 + self.pointer_base as u128
        } else if psize == 3 {
            ((size % 8) as u128) * 16777216 + payload as u128 + 526336
                + self.pointer_base as u128
        } else {
            payload as u128 + self.pointer_base as u128
        };
        proof {
            assert(target128 as int == spec_pointer_target(buf, size as nat, offset as int, base))
            by {
                reveal_with_fuel(be_val, 2);
                if psize == 1 {
                    let s = buf.subrange(offset as int, offset + 1);
                    assert(s.drop_last() =~= Seq::<u8>::empty());
                    assert(s.last() == buf[offset as int]);
                }
            }
        }
        if target128 >= len as u128 {
            return Err(MmdbError::OutOfBounds);
        }
        let target = target128 as usize;
        match self.decode(target, depth) {
            Ok((v, _inner_end)) => Ok((v, offset + psize)),
            Err(e) => Err(e),
        }
    }

    /// Decodes a string of `size` UTF-8 bytes.
    fn decode_string(&self, size: usize, offset: usize) -> (r: Result<(Value, usize), MmdbError>)
        ensures
            match r {
                Ok(p) => match spec_string(self.buffer@, size as nat, offset as int) {
                    Some((m, e)) => value_models(p.0, m) && e == p.1 as int,
                    None => false,
                },
                Err(_) => spec_string(self.buffer@, size as nat, offset as int) is None,
            },
    {
        let len = self.buffer.len();
        if !span_in(len, offset, size) {
            return Err(MmdbError::OutOfBounds);
        }
        let bytes = slice_to_vec(slice_subrange(self.buffer, offset, offset + size));
        match utf8_to_string(bytes) {
            Some(s) => Ok((Value::String(s), offset + size)),
            None => Err(MmdbError::BadString),
        }
    }

    /// Decodes a double: 8 big-endian bytes of IEEE 754 bits.
    fn decode_double(&self, size: usize, offset: usize) -> (r: Result<(Value, usize), MmdbError>)
        ensures
            match r {
                Ok(p) => match spec_double(self.buffer@, size as nat, offset as int) {
                    Some((m, e)) => value_models(p.0, m) && e == p.1 as int,
                    None => false,
                },
                Err(_) => spec_double(self.buffer@, size as nat, offset as int) is None,
            },
    {
        let len = self.buffer.len();
        if size != 8 {
            return Err(MmdbError::BadValueSize);
        }
        if !span_in(len, offset, 8) {
            return Err(MmdbError::OutOfBounds);
        }
        let v = be_u64(self.buffer, offset, 8);
        proof {
            lemma_be_val_bound(self.buffer@.subrange(offset as int, offset + 8));
            reveal_with_fuel(pow256, 9);
        }
        Ok((Value::Double(v), offset + 8))
    }

    /// Decodes a float: 4 big-endian bytes of IEEE 754 bits.
    fn decode_float(&self, size: usize, offset: usize) -> (r: Result<(Value, usize), MmdbError>)
        ensures
            match r {
                Ok(p) => match spec_float(self.buffer@, size as nat, offset as int) {
                    Some((m, e)) => value_models(p.0, m) && e == p.1 as int,
                    None => false,
                },
                Err(_) => spec_float(self.buffer@, size as nat, offset as int) is None,
            },
    {
        let len = self.buffer.len();
        if size != 4 {
            return Err(MmdbError::BadValueSize);
        }
        if !span_in(len, offset, 4) {
            return Err(MmdbError::OutOfBounds);
        }
        let v = be_u64(self.buffer, offset, 4);
        proof {
            lemma_be_val_bound(self.buffer@.subrange(offset as int, offset + 4));
            reveal_with_fuel(pow256, 9);
        }
        Ok((Value::Float(v as u32), offset + 4))
    }

    /// Decodes a raw blob of `size` bytes.
    fn decode_bytes(&self, size: usize, offset: usize) -> (r: Result<(Value, usize), MmdbError>)
        ensures
            match r {
                Ok(p) => match spec_bytes(self.buffer@, size as nat, offset as int) {
                    Some((m, e)) => value_models(p.0, m) && e == p.1 as int,
                    None => false,
                },
                Err(_) => spec_bytes(self.buffer@, size as nat, offset as int) is None,
            },
    {
        let len = self.buffer.len();
        if !span_in(len, offset, size) {
            return Err(MmdbError::OutOfBounds);
        }
        let bytes = slice_to_vec(slice_subrange(self.buffer, offset, offset + size));
        Ok((Value::Bytes(bytes), offset + size))
    }

    /// Decodes an unsigned integer of `size` big-endian bytes.
    fn decode_uint(&self, size: usize, offset: usize) -> (r: Result<(Value, usize), MmdbError>)
        ensures
            match r {
                Ok(p) => match spec_uint(self.buffer@, size as nat, offset as int) {
                    Some((m, e)) => value_models(p.0, m) && e == p.1 as int,
                    None => false,
                },
                Err(_) => spec_uint(self.buffer@, size as nat, offset as int) is None,
            },
    {
        let len = self.buffer.len();
        if !span_in(len, offset, size) {
            return Err(MmdbError::OutOfBounds);
        }
        let v = be_u64_wrap(self.buffer, offset, size);
        Ok((Value::UInt(v), offset + size))
    }

    /// Decodes a signed 32-bit integer of 0 to 4 big-endian bytes,
    /// sign-extending from its first byte.
    fn decode_int32(&self, size: usize, offset: usize) -> (r: Result<(Value, usize), MmdbError>)
        ensures
            match r {
                Ok(p) => match spec_int32(self.buffer@, size as nat, offset as int) {
                    Some((m, e)) => value_models(p.0, m) && e == p.1 as int,
                    None => false,
                },
                Err(_) => spec_int32(self.buffer@, size as nat, offset as int) is None,
            },
    {
        let ghost buf = self.buffer@;
        let len = self.buffer.len();
        if size > 4 {
            return Err(MmdbError::BadValueSize);
        }
        if size == 0 {
            return Ok((Value::Int(0), offset));
        }
        if !span_in(len, offset, size) {
            return Err(MmdbError::OutOfBounds);
        }
        let raw = be_u64(self.buffer, offset, size);
        let b0 = self.buffer[offset];
        let pw: i64 = if size == 1 {
            0x100
        } else if size == 2 {
            0x1_0000
        } else if size == 3 {
            0x100_0000
        } else {
            0x1_0000_0000
        };
        proof {
            reveal_with_fuel(pow256, 5);
            assert(pw as nat == pow256(size as nat));
            let s = buf.subrange(offset as int, offset + size);
            lemma_be_val_bound(s);
            lemma_be_val_first(s);
            assert(s[0] == buf[offset as int]);
            assert(pow256((size - 1) as nat) * 256 == pow256(size as nat)) by (nonlinear_arith)
                requires pow256(size as nat) == 256 * pow256((size - 1) as nat);
            if b0 >= 128 {
                assert(128 * pow256((size - 1) as nat) <= s[0] as nat * pow256(
                    (size - 1) as nat,
                )) by (nonlinear_arith)
                    requires s[0] >= 128;
            }
            if b0 < 128 {
                assert(be_val(s) < (s[0] as nat + 1) * pow256((size - 1) as nat));
                assert((s[0] as nat + 1) * pow256((size - 1) as nat) <= 128 * pow256(
                    (size - 1) as nat,
                )) by (nonlinear_arith)
                    requires s[0] as nat + 1 <= 128;
            }
            assert(128 * pow256((size - 1) as nat) * 2 == pow256(size as nat))
                by (nonlinear_arith)
                requires pow256(size as nat) == 256 * pow256((size - 1) as nat);
        }
        let v: i64 = if b0 >= 128 {
            raw as i64 - pw
        } else {
            raw as i64
        };
        Ok((Value::Int(v as i32), offset + size))
    }

    /// Decodes `count` map entries starting at `offset`, keeping the
    /// string-keyed ones.
    fn decode_map(&self, count: usize, offset: usize, f: u32) -> (r: Result<
        (Vec<(String, Value)>, usize),
        MmdbError,
    >)
        ensures
            match r {
                Ok(p) => match spec_entries(
                    self.buffer@,
                    offset as int,
                    self.pointer_base as int,
                    f as nat,
                    count as nat,
                ) {
                    Some((fs, e)) => dict_models(p.0@, fs) && e == p.1 as int,
                    None => false,
                },
                Err(_) => spec_entries(
                    self.buffer@,
                    offset as int,
                    self.pointer_base as int,
                    f as nat,
                    count as nat,
                ) is None,
            },
        decreases f, 1nat,
    {
        let ghost buf = self.buffer@;
        let ghost base = self.pointer_base as int;
        let mut fields: Vec<(String, Value)> = Vec::new();
        let ghost mut mfs = Seq::<(Seq<char>, ValueModel)>::empty();
        let mut off = offset;
        let mut k: usize = 0;
        proof {
            assert(fields@ =~= Seq::<(String, Value)>::empty());
        }
        while k < count
            invariant
                0 <= k <= count,
                buf == self.buffer@,
                base == self.pointer_base as int,
                dict_models(fields@, mfs),
                match spec_entries(buf, off as int, base, f as nat, (count - k) as nat) {
                    Some(q) => spec_entries(buf, offset as int, base, f as nat, count as nat)
                        == Some((mfs + q.0, q.1)),
                    None => spec_entries(buf, offset as int, base, f as nat, count as nat)
                        is None,
                },
            decreases count - k,
        {
            let (key, koff) = match self.decode(off, f) {
                Ok(p) => p,
                Err(e) => {
                    return Err(e);
                },
            };
            let (val, voff) = match self.decode(koff, f) {
                Ok(p) => p,
                Err(e) => {
                    return Err(e);
                },
            };
            let ghost km = spec_decode(buf, off as int, base, f as nat).unwrap().0;
            let ghost vm = spec_decode(buf, koff as int, base, f as nat).unwrap().0;
            let ghost mfs0 = mfs;
            match key {
                Value::String(ks) => {
                    proof {
                        let cs = km->Str_0;
                        mfs = mfs.push((ks@, vm));
                        assert(value_models(val, vm));
                        assert(ks@ == cs);
                        assert forall|i: int| 0 <= i < mfs.len() implies (#[trigger] fields@.push(
                            (ks, val),
                        )[i]).0@ == mfs[i].0 && value_models(
                            fields@.push((ks, val))[i].1,
                            mfs[i].1,
                        ) by {
                            if i < mfs0.len() {
                                assert(fields@[i].0@ == mfs0[i].0);
                            }
                        }
                    }
                    fields.push((ks, val));
                },
                other => {
                    proof {
                        assert(!(km is Str));
                    }
                },
            }
            proof {
                match spec_entries(buf, voff as int, base, f as nat, (count - k - 1) as nat) {
                    Some(q) => {
                        assert(mfs0 + (if km is Str {
                            seq![(km->Str_0, vm)] + q.0
                        } else {
                            q.0
                        }) =~= mfs + q.0);
                    },
                    None => {},
                }
            }
            off = voff;
            k = k + 1;
        }
        proof {
            assert(spec_entries(buf, off as int, base, f as nat, 0) == Some(
                (Seq::<(Seq<char>, ValueModel)>::empty(), off as int),
            ));
            assert(mfs + Seq::<(Seq<char>, ValueModel)>::empty() =~= mfs);
        }
        Ok((fields, off))
    }

    /// Decodes `count` array elements starting at `offset`.
    fn decode_array(&self, count: usize, offset: usize, f: u32) -> (r: Result<
        (Vec<Value>, usize),
        MmdbError,
    >)
        ensures
            match r {
                Ok(p) => match spec_elems(
                    self.buffer@,
                    offset as int,
                    self.pointer_base as int,
                    f as nat,
                    count as nat,
                ) {
                    Some((es, e)) => arr_models(p.0@, es) && e == p.1 as int,
                    None => false,
                },
                Err(_) => spec_elems(
                    self.buffer@,
                    offset as int,
                    self.pointer_base as int,
                    f as nat,
                    count as nat,
                ) is None,
            },
        decreases f, 1nat,
    {
        let ghost buf = self.buffer@;
        let ghost base = self.pointer_base as int;
        let mut elems: Vec<Value> = Vec::new();
        let ghost mut mes = Seq::<ValueModel>::empty();
        let mut off = offset;
        let mut k: usize = 0;
        proof {
            assert(elems@ =~= Seq::<Value>::empty());
        }
        while k < count
            invariant
                0 <= k <= count,
                buf == self.buffer@,
                base == self.pointer_base as int,
                arr_models(elems@, mes),
                match spec_elems(buf, off as int, base, f as nat, (count - k) as nat) {
                    Some(q) => spec_elems(buf, offset as int, base, f as nat, count as nat)
                        == Some((mes + q.0, q.1)),
                    None => spec_elems(buf, offset as int, base, f as nat, count as nat)
                        is None,
                },
            decreases count - k,
        {
            let (val, voff) = match self.decode(off, f) {
                Ok(p) => p,
                Err(e) => {
                    return Err(e);
                },
            };
            let ghost vm = spec_decode(buf, off as int, base, f as nat).unwrap().0;
            let ghost mes0 = mes;
            proof {
                mes = mes.push(vm);
                assert forall|i: int| 0 <= i < mes.len() implies value_models(
                    #[trigger] elems@.push(val)[i],
                    mes[i],
                ) by {
                    if i < mes0.len() {
                        assert(value_models(elems@[i], mes0[i]));
                    }
                }
            }
            elems.push(val);
            proof {
                match spec_elems(buf, voff as int, base, f as nat, (count - k - 1) as nat) {
                    Some(q) => {
                        assert(mes0 + (seq![vm] + q.0) =~= mes + q.0);
                    },
                    None => {},
                }
            }
            off = voff;
            k = k + 1;
        }
        proof {
            assert(spec_elems(buf, off as int, base, f as nat, 0) == Some(
                (Seq::<ValueModel>::empty(), off as int),
            ));
            assert(mes + Seq::<ValueModel>::empty() =~= mes);
        }
        Ok((elems, off))
    }
}

/// Whether `n` bytes starting at `off` lie inside a buffer of length `len`.
fn span_in(len: usize, off: usize, n: usize) -> (r: bool)
    ensures
        r == (off + n <= len),
{
    off <= len && n <= len - off
}

/// A big-endian run of bytes is bounded by 256 to its length.
proof fn lemma_be_val_bound(s: Seq<u8>)
    ensures
        be_val(s) < pow256(s.len()),
    decreases s.len(),
{
    if s.len() == 0 {
    } else {
        lemma_be_val_bound(s.drop_last());
        assert(be_val(s.drop_last()) * 256 <= (pow256((s.len() - 1) as nat) - 1) * 256)
            by (nonlinear_arith)
            requires be_val(s.drop_last()) <= pow256((s.len() - 1) as nat) - 1;
    }
}

/// The first byte of a big-endian run pins its value within a window of
/// 256 to the remaining length.
proof fn lemma_be_val_first(s: Seq<u8>)
    requires
        s.len() > 0,
    ensures
        s[0] as nat * pow256((s.len() - 1) as nat) <= be_val(s),
        be_val(s) < (s[0] as nat + 1) * pow256((s.len() - 1) as nat),
    decreases s.len(),
{
    if s.len() == 1 {
        reveal_with_fuel(be_val, 2);
        assert(s.drop_last() =~= Seq::<u8>::empty());
        assert(be_val(s) == s[0] as nat);
        assert(pow256((s.len() - 1) as nat) == 1);
    } else {
        lemma_be_val_first(s.drop_last());
        lemma_pow256_pos((s.len() - 2) as nat);
        assert(s.drop_last()[0] == s[0]);
        let p = pow256((s.len() - 2) as nat);
        let b = s[0] as nat;
        assert(pow256((s.len() - 1) as nat) == 256 * p);
        assert(be_val(s) == be_val(s.drop_last()) * 256 + s.last() as nat);
        assert(b * p * 256 <= be_val(s.drop_last()) * 256) by (nonlinear_arith)
            requires b * p <= be_val(s.drop_last());
        assert(b * (256 * p) == b * p * 256) by (nonlinear_arith);
        assert(be_val(s.drop_last()) * 256 <= ((b + 1) * p - 1) * 256) by (nonlinear_arith)
            requires be_val(s.drop_last()) <= (b + 1) * p - 1;
        assert(((b + 1) * p - 1) * 256 + 255 < (b + 1) * (256 * p)) by (nonlinear_arith)
            requires p >= 1;
        assert(b * pow256((s.len() - 1) as nat) == b * p * 256) by (nonlinear_arith)
            requires pow256((s.len() - 1) as nat) == 256 * p;
        assert((b + 1) * pow256((s.len() - 1) as nat) == (b + 1) * (256 * p)) by (nonlinear_arith)
            requires pow256((s.len() - 1) as nat) == 256 * p;
        assert(be_val(s) >= be_val(s.drop_last()) * 256);
        assert(b * pow256((s.len() - 1) as nat) <= be_val(s));
        assert(be_val(s) < (b + 1) * pow256((s.len() - 1) as nat));
    }
}

proof fn lemma_pow256_pos(n: nat)
    ensures
        pow256(n) >= 1,
    decreases n,
{
    if n > 0 {
        lemma_pow256_pos((n - 1) as nat);
    }
}

/// Reads `n` bytes big-endian, exactly.
fn be_u64(buffer: &[u8], off: usize, n: usize) -> (r: u64)
    requires
        off + n <= buffer@.len(),
        n <= 8,
    ensures
        r as nat == be_val(buffer@.subrange(off as int, off + n)),
{
    proof {
        reveal_with_fuel(pow256, 9);
    }
    let blen = buffer.len();
    let mut r: u64 = 0;
    let mut i: usize = 0;
    while i < n
        invariant
            0 <= i <= n,
            off + n <= blen,
            blen == buffer@.len(),
            n <= 8,
            r as nat == be_val(buffer@.subrange(off as int, off + i)),
            (r as nat) < pow256(i as nat),
            pow256(8) == 0x1_0000_0000_0000_0000,
        decreases n - i,
    {
        let b = buffer[off + i];
        proof {
            reveal_with_fuel(pow256, 9);
            let s = buffer@.subrange(off as int, off + i + 1);
            assert(s.drop_last() =~= buffer@.subrange(off as int, off + i));
            assert(s.last() == buffer@[off + i]);
            assert(r as nat * 256 + 255 < pow256((i + 1) as nat)) by (nonlinear_arith)
                requires (r as nat) < pow256(i as nat) && pow256((i + 1) as nat) == 256 * pow256(
                    i as nat,
                );
            assert(pow256((i + 1) as nat) <= pow256(8)) by {
                lemma_pow256_le((i + 1) as nat, 8);
            }
        }
        r = r * 256 + b as u64;
        i = i + 1;
    }
    proof {
        assert(buffer@.subrange(off as int, off + n) =~= buffer@.subrange(off as int, off + n));
    }
    r
}

proof fn lemma_pow256_le(a: nat, b: nat)
    requires
        a <= b,
    ensures
        pow256(a) <= pow256(b),
    decreases b,
{
    if a < b {
        lemma_pow256_le(a, (b - 1) as nat);
        assert(pow256(b) == 256 * pow256((b - 1) as nat));
    }
}

/// Reads `n` bytes big-endian, keeping the low 64 bits.
fn be_u64_wrap(buffer: &[u8], off: usize, n: usize) -> (r: u64)
    requires
        off + n <= buffer@.len(),
    ensures
        r as nat == be_val(buffer@.subrange(off as int, off + n)) % 0x1_0000_0000_0000_0000,
{
    let ghost m: nat = 0x1_0000_0000_0000_0000;
    let blen = buffer.len();
    let mut r: u64 = 0;
    let mut i: usize = 0;
    proof {
        assert(buffer@.subrange(off as int, off as int).len() == 0);
    }
    while i < n
        invariant
            0 <= i <= n,
            off + n <= blen,
            blen == buffer@.len(),
            m == 0x1_0000_0000_0000_0000,
            r as nat == be_val(buffer@.subrange(off as int, off + i)) % m,
        decreases n - i,
    {
        let b = buffer[off + i];
        let ghost prev = be_val(buffer@.subrange(off as int, off + i));
        r = ((r as u128 * 256 + b as u128) % 0x1_0000_0000_0000_0000) as u64;
        proof {
            let s = buffer@.subrange(off as int, off + i + 1);
            assert(s.drop_last() =~= buffer@.subrange(off as int, off + i));
            assert(s.last() == buffer@[off + i]);
            assert(be_val(s) == prev * 256 + b as nat);
            vstd::arithmetic::div_mod::lemma_mul_mod_noop_left(prev as int, 256int, m as int);
            vstd::arithmetic::div_mod::lemma_add_mod_noop(
                ((prev % m) * 256) as int,
                b as int,
                m as int,
            );
            vstd::arithmetic::div_mod::lemma_mod_twice(((prev % m) * 256 + b as nat) as int,
                m as int);
            vstd::arithmetic::div_mod::lemma_small_mod(b as nat, m);
        }
        i = i + 1;
    }
    proof {
        assert(buffer@.subrange(off as int, off + n) =~= buffer@.subrange(off as int, off + n));
    }
    r
}

/// Relies on String::from_utf8: it succeeds exactly on valid UTF-8 and
/// decodes it.
#[verifier::external_body]
fn utf8_to_string(bytes: Vec<u8>) -> (r: Option<String>)
    ensures
        match r {
            Some(s) => valid_utf8(bytes@) && s@ == decode_utf8(bytes@),
            None => !valid_utf8(bytes@),
        },
{
    String::from_utf8(bytes).ok()
}

/// The marker bytes that precede the metadata: three tag bytes and the
/// format vendor's name.
pub open spec fn marker_spec() -> Seq<u8> {
    seq![0xab, 0xcd, 0xef, 0x4d, 0x61, 0x78, 0x4d, 0x69, 0x6e, 0x64, 0x2e, 0x63, 0x6f, 0x6d]
}

/// Whether the marker stands at position `i`.
pub open spec fn marker_at(buf: Seq<u8>, i: int) -> bool {
    0 <= i && i + 14 <= buf.len() && buf.subrange(i, i + 14) == marker_spec()
}

/// The metadata marker as bytes.
fn metadata_marker() -> (r: Vec<u8>)
    ensures
        r@ == marker_spec(),
{
    let mut v: Vec<u8> = Vec::new();
    v.push(0xab);
    v.push(0xcd);
    v.push(0xef);
    v.push(0x4d);
    v.push(0x61);
    v.push(0x78);
    v.push(0x4d);
    v.push(0x69);
    v.push(0x6e);
    v.push(0x64);
    v.push(0x2e);
    v.push(0x63);
    v.push(0x6f);
    v.push(0x6d);
    proof {
        assert(v@ =~= marker_spec());
    }
    v
}

/// Whether the marker stands at position `i` of `buffer`.
fn marker_matches_at(buffer: &[u8], i: usize) -> (r: bool)
    requires
        i + 14 <= buffer@.len(),
    ensures
        r == marker_at(buffer@, i as int),
{
    let marker = metadata_marker();
    let blen = buffer.len();
    let mut k: usize = 0;
    while k < 14
        invariant
            0 <= k <= 14,
            i + 14 <= blen,
            blen == buffer@.len(),
            marker@ == marker_spec(),
            forall|m: int| 0 <= m < k ==> buffer@[i + m] == marker_spec()[m],
        decreases 14 - k,
    {
        if buffer[i + k] != marker[k] {
            proof {
                assert(buffer@.subrange(i as int, i + 14)[k as int] == buffer@[i + k]);
            }
            return false;
        }
        k = k + 1;
    }
    proof {
        assert(buffer@.subrange(i as int, i + 14) =~= marker_spec());
    }
    true
}

/// The parsed essentials of the metadata map.
#[derive(Clone, Copy, PartialEq, Eq, Structural, Debug)]
pub struct Metadata {
    pub node_count: u32,
    /// Bits per node field: 24, 28 or 32.
    pub record_size: u16,
    /// 4 or 6; 6 when the metadata leaves it out.
    pub ip_version: u16,
    /// `node_count * record_size / 4`: the bytes the search tree occupies.
    pub search_tree_size: u64,
}

/// The last entry of `fields` under `key`, mirroring how a reader of the
/// format keeps the latest occurrence of a repeated key.
pub open spec fn model_map_get(fields: Seq<(Seq<char>, ValueModel)>, key: Seq<char>) -> Option<
    ValueModel,
>
    decreases fields.len(),
{
    if fields.len() == 0 {
        None
    } else if fields.last().0 == key {
        Some(fields.last().1)
    } else {
        model_map_get(fields.drop_last(), key)
    }
}

/// A model value read as an unsigned 64-bit number: unsigned values as
/// they are, signed ones by their two's-complement bits.
pub open spec fn model_as_u64(m: ValueModel) -> Option<u64> {
    match m {
        ValueModel::UInt(n) => Some(n),
        ValueModel::Int(n) => Some(
            if n >= 0 {
                n as u64
            } else {
                (n + 0x1_0000_0000_0000_0000) as u64
            },
        ),
        _ => None,
    }
}

/// The last entry of decoded map fields under `key`.
pub open spec fn map_get_spec(fields: Seq<(String, Value)>, key: Seq<char>) -> Option<Value>
    decreases fields.len(),
{
    if fields.len() == 0 {
        None
    } else if fields.last().0@ == key {
        Some(fields.last().1)
    } else {
        map_get_spec(fields.drop_last(), key)
    }
}

/// A value-level map lookup finds what the model-level lookup finds.
proof fn lemma_map_get_models(
    fields: Seq<(String, Value)>,
    fs: Seq<(Seq<char>, ValueModel)>,
    key: Seq<char>,
)
    requires
        dict_models(fields, fs),
    ensures
        match model_map_get(fs, key) {
            Some(m) => map_get_spec(fields, key) matches Some(v) && value_models(v, m),
            None => map_get_spec(fields, key) is None,
        },
    decreases fields.len(),
{
    if fields.len() > 0 {
        assert(fields[fields.len() - 1].0@ == fs[fs.len() - 1].0);
        if fields.last().0@ != key {
            assert(dict_models(fields.drop_last(), fs.drop_last())) by {
                assert(forall|i: int|
                    0 <= i < fs.len() - 1 ==> (#[trigger] fields.drop_last()[i]) == fields[i]
                        && fs.drop_last()[i] == fs[i]);
            }
            lemma_map_get_models(fields.drop_last(), fs.drop_last(), key);
        }
    }
}

/// Looks a key up in decoded map fields, the last occurrence winning.
pub fn map_get<'v>(fields: &'v Vec<(String, Value)>, key: &str) -> (r: Option<&'v Value>)
    ensures
        match r {
            Some(v) => map_get_spec(fields@, key@) == Some(*v),
            None => map_get_spec(fields@, key@) is None,
        },
{
    let owned = key.to_owned();
    let mut k = fields.len();
    proof {
        assert(fields@.take(fields@.len() as int) =~= fields@);
    }
    while k > 0
        invariant
            0 <= k <= fields@.len(),
            owned@ == key@,
            map_get_spec(fields@, key@) == map_get_spec(fields@.take(k as int), key@),
        decreases k,
    {
        proof {
            assert(fields@.take(k as int).last() == fields@[k - 1]);
            assert(fields@.take(k as int).drop_last() =~= fields@.take(k - 1));
        }
        if fields[k - 1].0 == owned {
            return Some(&fields[k - 1].1);
        }
        k = k - 1;
    }
    proof {
        assert(fields@.take(0).len() == 0);
    }
    None
}

/// A decoded value read as an unsigned 64-bit number: unsigned values as
/// they are, signed ones by their two's-complement bits.
pub open spec fn value_as_u64(v: Value) -> Option<u64> {
    match v {
        Value::UInt(n) => Some(n),
        Value::Int(n) => Some(
            if n >= 0 {
                n as u64
            } else {
                (n + 0x1_0000_0000_0000_0000) as u64
            },
        ),
        _ => None,
    }
}

impl Value {
    /// The map fields when the value is a map.
    pub fn as_map(&self) -> (r: Option<&Vec<(String, Value)>>)
        ensures
            match r {
                Some(m) => *self is Dict && *m == self->Dict_0,
                None => !(*self is Dict),
            },
    {
        match self {
            Value::Dict(m) => Some(m),
            _ => None,
        }
    }

    /// The value as an unsigned 64-bit number, if it is numeric.
    pub fn as_u64(&self) -> (r: Option<u64>)
        ensures
            r == value_as_u64(*self),
    {
        match self {
            Value::UInt(n) => Some(*n),
            Value::Int(n) => {
                if *n >= 0 {
                    Some(*n as u64)
                } else {
                    let mag = (-(*n as i64)) as u64;
                    Some(u64::MAX - mag + 1)
                }
            },
            _ => None,
        }
    }
}

/// Follows `keys` through nested maps, the last step's value.
pub fn get_nested<'v>(map: &'v Vec<(String, Value)>, keys: &[&str]) -> (r: Option<&'v Value>)
    requires
        keys@.len() > 0,
    ensures
        match r {
            Some(v) => get_nested_spec(map@, keys.deep_view()) == Some(*v),
            None => get_nested_spec(map@, keys.deep_view()) is None,
        },
{
    proof {
        assert(keys.deep_view()[0] == keys@[0]@);
    }
    let mut current = match map_get(map, keys[0]) {
        Some(v) => v,
        None => {
            return None;
        },
    };
    let mut i: usize = 1;
    while i < keys.len()
        invariant
            1 <= i <= keys@.len(),
            get_nested_spec(map@, keys.deep_view()) == get_nested_from(
                Some(*current),
                keys.deep_view(),
                i as int,
            ),
        decreases keys@.len() - i,
    {
        proof {
            assert(keys.deep_view()[i as int] == keys@[i as int]@);
        }
        let fields = match current.as_map() {
            Some(f) => f,
            None => {
                return None;
            },
        };
        current = match map_get(fields, keys[i]) {
            Some(v) => v,
            None => {
                proof {
                    reveal_with_fuel(get_nested_from, 2);
                }
                return None;
            },
        };
        i = i + 1;
    }
    Some(current)
}

/// The rest of a nested lookup: the value reached so far, then the keys
/// from position `i` on, each read in the map the previous step reached.
pub open spec fn get_nested_from(cur: Option<Value>, keys: Seq<Seq<char>>, i: int) -> Option<Value>
    decreases keys.len() - i,
{
    match cur {
        None => None,
        Some(v) => if i >= keys.len() {
            Some(v)
        } else {
            match v {
                Value::Dict(fields) => get_nested_from(map_get_spec(fields@, keys[i]), keys, i + 1),
                _ => None,
            }
        },
    }
}

/// A nested lookup: the first key read in `map`, each further key in the
/// map the previous value holds.
pub open spec fn get_nested_spec(map: Seq<(String, Value)>, keys: Seq<Seq<char>>) -> Option<Value> {
    get_nested_from(map_get_spec(map, keys[0]), keys, 1)
}

/// Bytes between the search tree and the data section.
pub const DATA_SEPARATOR_SIZE: u64 = 16;

/// The rightmost marker position at or below `i`.
pub open spec fn rightmost_marker_from(buf: Seq<u8>, i: int) -> Option<int>
    decreases i + 1,
{
    if i < 0 {
        None
    } else if marker_at(buf, i) {
        Some(i)
    } else {
        rightmost_marker_from(buf, i - 1)
    }
}

/// The rightmost marker position in the whole buffer.
pub open spec fn rightmost_marker(buf: Seq<u8>) -> Option<int> {
    rightmost_marker_from(buf, buf.len() - 14)
}

/// The rightmost marker is a marker position with none to its right, and
/// there is none at all exactly when the scan finds none.
pub proof fn lemma_rightmost_marker(buf: Seq<u8>)
    ensures
        match rightmost_marker(buf) {
            Some(i) => marker_at(buf, i) && forall|j: int| j > i ==> !marker_at(buf, j),
            None => forall|j: int| !marker_at(buf, j),
        },
{
    lemma_rightmost_marker_from(buf, buf.len() - 14);
}

proof fn lemma_rightmost_marker_from(buf: Seq<u8>, i: int)
    requires
        i <= buf.len() - 14,
    ensures
        match rightmost_marker_from(buf, i) {
            Some(k) => marker_at(buf, k) && forall|j: int| j > k && j <= i ==> !marker_at(buf, j),
            None => forall|j: int| j <= i ==> !marker_at(buf, j),
        },
        forall|j: int| j > buf.len() - 14 ==> !marker_at(buf, j),
    decreases i + 1,
{
    if i >= 0 && !marker_at(buf, i) {
        lemma_rightmost_marker_from(buf, i - 1);
    }
}

/// Finds the metadata boundary: the position just after the rightmost
/// occurrence of the marker.
pub fn find_metadata_start(buffer: &[u8]) -> (r: Result<usize, MmdbError>)
    ensures
        match r {
            Ok(pos) => pos >= 14 && rightmost_marker(buffer@) == Some(pos - 14),
            Err(_) => rightmost_marker(buffer@) is None,
        },
{
    let len = buffer.len();
    if len < 14 {
        return Err(MmdbError::NoMetadata);
    }
    let mut i = len - 13;
    while i > 0
        invariant
            0 <= i <= len - 13,
            len == buffer@.len(),
            14 <= len,
            rightmost_marker(buffer@) == rightmost_marker_from(buffer@, i - 1),
        decreases i,
    {
        i = i - 1;
        if marker_matches_at(buffer, i) {
            return Ok(i + 14);
        }
    }
    Err(MmdbError::NoMetadata)
}

/// What the metadata at `start` reads as: the structured value there must
/// be a map holding numeric `node_count` and `record_size` entries, the
/// record size one of 24, 28 or 32 bits and the node count within 32 bits;
/// `ip_version` defaults to 6 when absent or non-numeric.
pub open spec fn metadata_spec(buf: Seq<u8>, start: int) -> Option<Metadata> {
    match spec_decode(buf, start, start, DECODE_DEPTH as nat) {
        Some((ValueModel::Dict(fields), _)) => {
            let nc = match model_map_get(fields, "node_count"@) {
                Some(m) => model_as_u64(m),
                None => None,
            };
            let rs = match model_map_get(fields, "record_size"@) {
                Some(m) => model_as_u64(m),
                None => None,
            };
            let ipv: u16 = match model_map_get(fields, "ip_version"@) {
                Some(m) => match model_as_u64(m) {
                    Some(v) => (v % 0x10000) as u16,
                    None => 6,
                },
                None => 6,
            };
            match (nc, rs) {
                (Some(nc), Some(rs)) => {
                    if nc < 0x1_0000_0000 && (rs == 24 || rs == 28 || rs == 32) {
                        Some(
                            Metadata {
                                node_count: nc as u32,
                                record_size: rs as u16,
                                ip_version: ipv,
                                search_tree_size: (nc * (rs / 4)) as u64,
                            },
                        )
                    } else {
                        None
                    }
                },
                _ => None,
            }
        },
        _ => None,
    }
}

/// Parses the metadata map at `start`: requires `node_count` and
/// `record_size`, defaults `ip_version` to 6 when absent, and fails when a
/// required field is missing or the record size is not 24, 28 or 32.
pub fn parse_metadata(buffer: &[u8], start: usize) -> (r: Result<Metadata, MmdbError>)
    ensures
        match r {
            Ok(m) => metadata_spec(buffer@, start as int) == Some(m),
            Err(_) => metadata_spec(buffer@, start as int) is None,
        },
{
    let decoder = Decoder::new(buffer, start);
    let value = match decoder.decode(start, DECODE_DEPTH) {
        Ok((v, _)) => v,
        Err(_) => {
            return Err(MmdbError::BadMetadata);
        },
    };
    let ghost vm = spec_decode(buffer@, start as int, start as int, DECODE_DEPTH as nat).unwrap().0;
    let fields = match value {
        Value::Dict(f) => f,
        _ => {
            proof {
                assert(!(vm is Dict));
            }
            return Err(MmdbError::BadMetadata);
        },
    };
    let ghost fs = vm->Dict_0;
    proof {
        lemma_map_get_models(fields@, fs, "node_count"@);
        lemma_map_get_models(fields@, fs, "record_size"@);
        lemma_map_get_models(fields@, fs, "ip_version"@);
    }
    let node_count = match map_get(&fields, "node_count") {
        Some(v) => match v.as_u64() {
            Some(n) => n,
            None => {
                return Err(MmdbError::BadMetadata);
            },
        },
        None => {
            return Err(MmdbError::BadMetadata);
        },
    };
    let record_size = match map_get(&fields, "record_size") {
        Some(v) => match v.as_u64() {
            Some(n) => n,
            None => {
                return Err(MmdbError::BadMetadata);
            },
        },
        None => {
            return Err(MmdbError::BadMetadata);
        },
    };
    let ip_version: u16 = match map_get(&fields, "ip_version") {
        Some(v) => match v.as_u64() {
            Some(n) => (n % 0x10000) as u16,
            None => 6,
        },
        None => 6,
    };
    if node_count >= 0x1_0000_0000 {
        return Err(MmdbError::BadMetadata);
    }
    if !(record_size == 24 || record_size == 28 || record_size == 32) {
        return Err(MmdbError::BadRecordSize);
    }
    assert(node_count * (record_size / 4) < 0x10_0000_0000) by (nonlinear_arith)
        requires node_count < 0x1_0000_0000 && record_size / 4 <= 8;
    Ok(
        Metadata {
            node_count: node_count as u32,
            record_size: record_size as u16,
            ip_version,
            search_tree_size: node_count * (record_size / 4),
        },
    )
}

/// The node field at slot `index` of node `node`, by the packed layout the
/// record size selects; nothing on an out-of-range read or an unsupported
/// record size.
pub open spec fn spec_read_node(buf: Seq<u8>, node: u32, index: int, record_size: u16) -> Option<
    u32,
> {
    let nbs = record_size as int / 4;
    let base = node as int * nbs;
    if record_size == 24 {
        let o = base + index * 3;
        if o + 3 <= buf.len() {
            Some(be_val(buf.subrange(o, o + 3)) as u32)
        } else {
            None
        }
    } else if record_size == 28 {
        let o = base + index * 3;
        if o + 4 <= buf.len() {
            let b = buf.subrange(o, o + 4);
            if index == 1 {
                Some(((b[0] as nat % 16) * 0x1000000 + be_val(b.subrange(1, 4))) as u32)
            } else {
                Some(((b[3] as nat / 16) * 0x1000000 + be_val(b.subrange(0, 3))) as u32)
            }
        } else {
            None
        }
    } else if record_size == 32 {
        let o = base + index * 4;
        if o + 4 <= buf.len() {
            Some(be_val(buf.subrange(o, o + 4)) as u32)
        } else {
            None
        }
    } else {
        None
    }
}

/// Reads a 24-bit node field: 3 plain big-endian bytes per slot.
pub fn read_24bit(buffer: &[u8], base: usize, index: usize) -> (r: u32)
    requires
        index <= 1,
        base + index * 3 + 3 <= buffer@.len(),
    ensures
        r == be_val(buffer@.subrange((base + index * 3) as int, (base + index * 3 + 3) as int)),
{
    let len = buffer.len();
    let offset = base + index * 3;
    let v = be_u64(buffer, offset, 3);
    proof {
        lemma_be_val_bound(buffer@.subrange(offset as int, offset + 3));
        reveal_with_fuel(pow256, 4);
    }
    v as u32
}

/// Reads a 28-bit node field: slot 1 is its own 4 bytes with the high
/// nibble masked off; slot 0 takes the low nibble of the packed block's
/// fourth byte as its most significant bits, followed by the first three.
pub fn read_28bit(buffer: &[u8], base: usize, index: usize) -> (r: u32)
    requires
        index <= 1,
        base + index * 3 + 4 <= buffer@.len(),
    ensures
        Some(r) == spec_read_node_28(buffer@, (base + index * 3) as int, index as int),
{
    let len = buffer.len();
    let offset = base + 3 * index;
    let b0 = buffer[offset];
    let b1 = buffer[offset + 1];
    let b2 = buffer[offset + 2];
    let b3 = buffer[offset + 3];
    proof {
        reveal_with_fuel(be_val, 4);
        let s = buffer@.subrange(offset as int, offset + 4);
        assert(s[0] == b0 && s[1] == b1 && s[2] == b2 && s[3] == b3);
        if index == 1 {
            let inner = s.subrange(1, 4);
            assert(inner.drop_last() =~= seq![b1, b2]);
            assert(seq![b1, b2].drop_last() =~= seq![b1]);
            assert(seq![b1].drop_last() =~= Seq::<u8>::empty());
            assert(inner.last() == b3 && seq![b1, b2].last() == b2 && seq![b1].last() == b1);
            assert(be_val(inner) == (b1 as nat * 0x10000 + b2 as nat * 0x100) + b3 as nat);
        } else {
            let inner = s.subrange(0, 3);
            assert(inner.drop_last() =~= seq![b0, b1]);
            assert(seq![b0, b1].drop_last() =~= seq![b0]);
            assert(seq![b0].drop_last() =~= Seq::<u8>::empty());
            assert(inner.last() == b2 && seq![b0, b1].last() == b1 && seq![b0].last() == b0);
            assert(be_val(inner) == (b0 as nat * 0x10000 + b1 as nat * 0x100) + b2 as nat);
        }
    }
    if index == 1 {
        ((b0 % 16) as u32) * 0x1000000 + (b1 as u32) * 0x10000 + (b2 as u32) * 0x100 + b3 as u32
    } else {
        ((b3 / 16) as u32) * 0x1000000 + (b0 as u32) * 0x10000 + (b1 as u32) * 0x100 + b2 as u32
    }
}

/// The 28-bit layout at block offset `o`, as the slot reads it.
pub open spec fn spec_read_node_28(buf: Seq<u8>, o: int, index: int) -> Option<u32> {
    if o + 4 <= buf.len() {
        let b = buf.subrange(o, o + 4);
        if index == 1 {
            Some(((b[0] as nat % 16) * 0x1000000 + be_val(b.subrange(1, 4))) as u32)
        } else {
            Some(((b[3] as nat / 16) * 0x1000000 + be_val(b.subrange(0, 3))) as u32)
        }
    } else {
        None
    }
}

/// Reads a 32-bit node field: 4 plain big-endian bytes per slot.
pub fn read_32bit(buffer: &[u8], base: usize, index: usize) -> (r: u32)
    requires
        index <= 1,
        base + index * 4 + 4 <= buffer@.len(),
    ensures
        r == be_val(buffer@.subrange((base + index * 4) as int, (base + index * 4 + 4) as int)),
{
    let len = buffer.len();
    let offset = base + index * 4;
    let v = be_u64(buffer, offset, 4);
    proof {
        lemma_be_val_bound(buffer@.subrange(offset as int, offset + 4));
        reveal_with_fuel(pow256, 5);
    }
    v as u32
}

/// Reads node field `index` of node `node_number` under the given record
/// size, failing on an out-of-range read or an unsupported record size.
pub fn read_node_static(
    buffer: &[u8],
    node_number: u32,
    index: usize,
    record_size: u16,
    node_byte_size: u16,
) -> (r: Result<u32, MmdbError>)
    requires
        index <= 1,
        node_byte_size == record_size / 4,
    ensures
        match r {
            Ok(v) => spec_read_node(buffer@, node_number, index as int, record_size) == Some(v),
            Err(_) => spec_read_node(buffer@, node_number, index as int, record_size) is None,
        },
{
    let len = buffer.len();
    assert((node_number as u64) * (node_byte_size as u64) < 0x1_0000_0000_0000)
        by (nonlinear_arith)
        requires node_number < 0x1_0000_0000 && node_byte_size < 0x1_0000;
    let base64 = node_number as u64 * node_byte_size as u64;
    if record_size == 24 {
        if base64 + index as u64 * 3 + 3 > len as u64 {
            return Err(MmdbError::OutOfBounds);
        }
        let base = base64 as usize;
        Ok(read_24bit(buffer, base, index))
    } else if record_size == 28 {
        if base64 + index as u64 * 3 + 4 > len as u64 {
            return Err(MmdbError::OutOfBounds);
        }
        let base = base64 as usize;
        Ok(read_28bit(buffer, base, index))
    } else if record_size == 32 {
        if base64 + index as u64 * 4 + 4 > len as u64 {
            return Err(MmdbError::OutOfBounds);
        }
        let base = base64 as usize;
        Ok(read_32bit(buffer, base, index))
    } else {
        Err(MmdbError::BadRecordSize)
    }
}

/// The node reached from `node` by following child slot 0 for `steps`
/// steps, stopping early at or past the node count; nothing on a failed
/// node read.
pub open spec fn spec_follow_left(buf: Seq<u8>, node: u32, nc: u32, rs: u16, steps: nat) -> Option<
    u32,
>
    decreases steps,
{
    if node >= nc || steps == 0 {
        Some(node)
    } else {
        match spec_read_node(buf, node, 0, rs) {
            Some(c) => spec_follow_left(buf, c, nc, rs, (steps - 1) as nat),
            None => None,
        }
    }
}

/// Finds the subtree root for 32-bit addresses: from node 0, child slot 0
/// is followed 96 times (the depth of the region they map into), stopping
/// early at a leaf. Databases not in 6-mode keep the whole tree: root 0.
pub fn find_ipv4_start(buffer: &[u8], node_count: u32, record_size: u16, ip_version: u16) -> (r:
    Result<u32, MmdbError>)
    requires
        record_size == 24 || record_size == 28 || record_size == 32,
    ensures
        match r {
            Ok(v) => (ip_version != 6 ==> v == 0) && (ip_version == 6 ==> spec_follow_left(
                buffer@,
                0,
                node_count,
                record_size,
                96,
            ) == Some(v)),
            Err(_) => ip_version == 6 && spec_follow_left(buffer@, 0, node_count, record_size, 96)
                is None,
        },
{
    if ip_version != 6 {
        return Ok(0);
    }
    let node_byte_size = record_size / 4;
    let mut node: u32 = 0;
    let mut i: usize = 0;
    while i < 96
        invariant
            0 <= i <= 96,
            ip_version == 6,
            record_size == 24 || record_size == 28 || record_size == 32,
            node_byte_size == record_size / 4,
            spec_follow_left(buffer@, 0, node_count, record_size, 96) == spec_follow_left(
                buffer@,
                node,
                node_count,
                record_size,
                (96 - i) as nat,
            ),
        ensures
            0 <= i <= 96,
            spec_follow_left(buffer@, 0, node_count, record_size, 96) == spec_follow_left(
                buffer@,
                node,
                node_count,
                record_size,
                (96 - i) as nat,
            ),
            i == 96 || node >= node_count,
        decreases 96 - i,
    {
        if node >= node_count {
            break;
        }
        node = match read_node_static(buffer, node, 0, record_size, node_byte_size) {
            Ok(n) => n,
            Err(e) => {
                return Err(e);
            },
        };
        i = i + 1;
    }
    proof {
        assert(spec_follow_left(buffer@, node, node_count, record_size, (96 - i) as nat) == Some(
            node,
        ));
    }
    Ok(node)
}

/// 3 to the `n`: the weight ladder for the walk's termination measure.
pub open spec fn pow3(n: nat) -> nat
    decreases n,
{
    if n == 0 {
        1
    } else {
        3 * pow3((n - 1) as nat)
    }
}

proof fn lemma_pow3_pos(n: nat)
    ensures
        pow3(n) >= 1,
    decreases n,
{
    if n > 0 {
        lemma_pow3_pos((n - 1) as nat);
    }
}

/// What one stack entry contributes to the walk's termination measure.
pub open spec fn entry_weight(depth: u32, bits: u32) -> nat {
    if depth <= bits {
        pow3((bits + 1 - depth) as nat)
    } else {
        1
    }
}

/// The walk's termination measure over a whole stack.
pub open spec fn stack_measure(s: Seq<(u32, u32, u128)>, bits: u32) -> nat
    decreases s.len(),
{
    if s.len() == 0 {
        0
    } else {
        stack_measure(s.drop_last(), bits) + entry_weight(s.last().1, bits)
    }
}

proof fn lemma_stack_measure_push(s: Seq<(u32, u32, u128)>, x: (u32, u32, u128), bits: u32)
    ensures
        stack_measure(s.push(x), bits) == stack_measure(s, bits) + entry_weight(x.1, bits),
{
    assert(s.push(x).drop_last() =~= s);
    assert(s.push(x).last() == x);
}

/// The number of address bits the tree indexes.
pub open spec fn spec_bits(ip_version: u16) -> u32 {
    if ip_version == 6 {
        128
    } else {
        32
    }
}

/// The range a tree path stands for: the path bits form the high bits of
/// the first address and the remaining low bits run free. A path of the
/// 128-bit tree that stays at or below the mapped 32-bit region is read as
/// a 32-bit-family prefix: only the bits beyond its 96-bit region prefix
/// count against the 32 low bits.
pub open spec fn spec_calc_range(bits: u32, depth: u32, prefix: u128) -> (u128, u128)
    recommends
        1 <= depth <= bits,
{
    let start = prefix << ((bits - depth) as u128);
    if bits == 128 && start <= 0x1_0000_0000u128 {
        let plen: u32 = if depth > 96 {
            (depth - 96) as u32
        } else {
            0
        };
        (start, start | (((1u128 << ((32 - plen) as u128)) - 1) as u128))
    } else {
        (start, start | (((1u128 << ((bits - depth) as u128)) - 1) as u128))
    }
}

/// The stack after visiting an internal node: its child in slot 1 then its
/// child in slot 0 go on top (so slot 0 is walked first), each one level
/// deeper, the path bit appended; a child whose node field cannot be read
/// is left out.
pub open spec fn spec_push_children(
    buf: Seq<u8>,
    rs: u16,
    stack: Seq<(u32, u32, u128)>,
    node: u32,
    depth: u32,
    prefix: u128,
) -> Seq<(u32, u32, u128)> {
    let s1 = match spec_read_node(buf, node, 1, rs) {
        Some(c1) => stack.push((c1, (depth + 1) as u32, (prefix << 1) | 1)),
        None => stack,
    };
    match spec_read_node(buf, node, 0, rs) {
        Some(c0) => s1.push((c0, (depth + 1) as u32, prefix << 1)),
        None => s1,
    }
}

proof fn lemma_push_children_measure(
    buf: Seq<u8>,
    rs: u16,
    stack: Seq<(u32, u32, u128)>,
    node: u32,
    depth: u32,
    prefix: u128,
    bits: u32,
)
    requires
        depth < bits,
    ensures
        stack_measure(spec_push_children(buf, rs, stack, node, depth, prefix), bits)
            < stack_measure(stack, bits) + entry_weight(depth, bits),
{
    let w1 = entry_weight((depth + 1) as u32, bits);
    assert(w1 == pow3((bits - depth) as nat));
    assert((bits + 1 - depth) as nat == (bits - depth) as nat + 1);
    assert(entry_weight(depth, bits) == pow3((bits - depth) as nat + 1));
    assert(pow3((bits - depth) as nat + 1) == 3 * pow3((bits - depth) as nat));
    lemma_pow3_pos((bits - depth) as nat);
    let s1 = match spec_read_node(buf, node, 1, rs) {
        Some(c1) => stack.push((c1, (depth + 1) as u32, (prefix << 1) | 1)),
        None => stack,
    };
    match spec_read_node(buf, node, 1, rs) {
        Some(c1) => {
            lemma_stack_measure_push(stack, (c1, (depth + 1) as u32, (prefix << 1) | 1), bits);
        },
        None => {},
    }
    match spec_read_node(buf, node, 0, rs) {
        Some(c0) => {
            lemma_stack_measure_push(s1, (c0, (depth + 1) as u32, prefix << 1), bits);
        },
        None => {},
    }
}

/// The (data-offset, range) pairs the walk emits from `stack`, top entry
/// first: a re-descent into the 32-bit subtree root along a non-empty path
/// is skipped so its records are not counted twice; a node field above the
/// node count is a data pointer and emits its offset and range; one equal
/// to the node count is a dead end; one below it descends to both
/// children. Paths are followed only to the tree's bit width, and a data
/// pointer at the root emits nothing.
pub open spec fn spec_walk(
    buf: Seq<u8>,
    nc: u32,
    rs: u16,
    sts: u64,
    v4: u32,
    bits: u32,
    stack: Seq<(u32, u32, u128)>,
) -> Seq<(u64, u128, u128)>
    decreases stack_measure(stack, bits),
    via spec_walk_decreases
{
    if stack.len() == 0 {
        Seq::empty()
    } else {
        let e = stack.last();
        let rest = stack.drop_last();
        let node = e.0;
        let depth = e.1;
        let prefix = e.2;
        if prefix != 0 && node == v4 {
            spec_walk(buf, nc, rs, sts, v4, bits, rest)
        } else if node > nc {
            if 1 <= depth <= bits {
                seq![
                    (
                        ((node - nc) + sts) as u64,
                        spec_calc_range(bits, depth, prefix).0,
                        spec_calc_range(bits, depth, prefix).1,
                    ),
                ] + spec_walk(buf, nc, rs, sts, v4, bits, rest)
            } else {
                spec_walk(buf, nc, rs, sts, v4, bits, rest)
            }
        } else if node == nc {
            spec_walk(buf, nc, rs, sts, v4, bits, rest)
        } else if depth < bits {
            spec_walk(
                buf,
                nc,
                rs,
                sts,
                v4,
                bits,
                spec_push_children(buf, rs, rest, node, depth, prefix),
            )
        } else {
            spec_walk(buf, nc, rs, sts, v4, bits, rest)
        }
    }
}

#[via_fn]
proof fn spec_walk_decreases(
    buf: Seq<u8>,
    nc: u32,
    rs: u16,
    sts: u64,
    v4: u32,
    bits: u32,
    stack: Seq<(u32, u32, u128)>,
) {
    if stack.len() > 0 {
        let e = stack.last();
        let rest = stack.drop_last();
        assert(stack_measure(stack, bits) == stack_measure(rest, bits) + entry_weight(e.1, bits));
        assert(entry_weight(e.1, bits) >= 1) by {
            if e.1 <= bits {
                lemma_pow3_pos((bits + 1 - e.1) as nat);
            }
        }
        if !(e.2 != 0 && e.0 == v4) && !(e.0 > nc) && !(e.0 == nc) && e.1 < bits {
            lemma_push_children_measure(buf, rs, rest, e.0, e.1, e.2, bits);
        }
    }
}

/// A loaded trie database: its bytes, its parsed metadata, and the root of
/// the subtree that 32-bit addresses map into.
pub struct MaxMindReader {
    pub buffer: Vec<u8>,
    pub metadata: Metadata,
    pub ipv4_start: u32,
}

/// What loading a buffer yields: the metadata parsed just after the
/// rightmost marker, and the 32-bit subtree root reached from node 0 by 96
/// left steps (node 0 itself when the database is not in 6-mode).
pub open spec fn load_spec(buf: Seq<u8>) -> Option<(Metadata, u32)> {
    match rightmost_marker(buf) {
        None => None,
        Some(i) => match metadata_spec(buf, i + 14) {
            None => None,
            Some(md) => if md.ip_version == 6 {
                match spec_follow_left(buf, 0, md.node_count, md.record_size, 96) {
                    Some(s) => Some((md, s)),
                    None => None,
                }
            } else {
                Some((md, 0))
            },
        },
    }
}

impl MaxMindReader {
    /// The metadata is internally consistent: a supported record size and
    /// the search-tree size it implies.
    pub open spec fn wf(&self) -> bool {
        &&& self.metadata.record_size == 24 || self.metadata.record_size == 28
            || self.metadata.record_size == 32
        &&& self.metadata.search_tree_size == self.metadata.node_count as int * (
        self.metadata.record_size as int / 4)
    }

    /// Loads a database from its bytes: locates the metadata by the
    /// rightmost marker, parses it, and finds the 32-bit subtree root.
    pub fn from_buffer(buffer: Vec<u8>) -> (r: Result<MaxMindReader, MmdbError>)
        ensures
            match r {
                Ok(rd) => rd.buffer@ == buffer@ && rd.wf() && load_spec(buffer@) == Some(
                    (rd.metadata, rd.ipv4_start),
                ),
                Err(_) => load_spec(buffer@) is None,
            },
    {
        let metadata_start = match find_metadata_start(buffer.as_slice()) {
            Ok(p) => p,
            Err(e) => {
                return Err(e);
            },
        };
        let metadata = match parse_metadata(buffer.as_slice(), metadata_start) {
            Ok(m) => m,
            Err(e) => {
                return Err(e);
            },
        };
        let ipv4_start = match find_ipv4_start(
            buffer.as_slice(),
            metadata.node_count,
            metadata.record_size,
            metadata.ip_version,
        ) {
            Ok(s) => s,
            Err(e) => {
                return Err(e);
            },
        };
        proof {
            assert((metadata.node_count as int) * (metadata.record_size as int / 4)
                < 0x10_0000_0000) by (nonlinear_arith)
                requires metadata.node_count < 0x1_0000_0000 && metadata.record_size as int / 4
                    <= 8;
        }
        Ok(MaxMindReader { buffer, metadata, ipv4_start })
    }

    /// Reads node field `index` of node `node_number` under this
    /// database's record size.
    pub fn read_node(&self, node_number: u32, index: usize) -> (r: Result<u32, MmdbError>)
        requires
            index <= 1,
        ensures
            match r {
                Ok(v) => spec_read_node(self.buffer@, node_number, index as int,
                    self.metadata.record_size) == Some(v),
                Err(_) => spec_read_node(self.buffer@, node_number, index as int,
                    self.metadata.record_size) is None,
            },
    {
        read_node_static(
            self.buffer.as_slice(),
            node_number,
            index,
            self.metadata.record_size,
            self.metadata.record_size / 4,
        )
    }

    /// The range a walk path stands for.
    pub fn calculate_range(&self, depth: u32, ip_acc: u128) -> (r: (u128, u128))
        requires
            1 <= depth <= spec_bits(self.metadata.ip_version),
        ensures
            r == spec_calc_range(spec_bits(self.metadata.ip_version), depth, ip_acc),
    {
        let bits: u32 = if self.metadata.ip_version == 6 {
            128
        } else {
            32
        };
        let start = ip_acc << ((bits - depth) as u128);
        if bits == 128 && start <= 0x1_0000_0000u128 {
            let plen: u32 = if depth > 96 {
                depth - 96
            } else {
                0
            };
            let sh = (32 - plen) as u128;
            assert(1u128 << sh >= 1) by (bit_vector)
                requires sh < 128;
            (start, start | ((1u128 << sh) - 1))
        } else {
            let sh = (bits - depth) as u128;
            assert(1u128 << sh >= 1) by (bit_vector)
                requires sh < 128;
            (start, start | ((1u128 << sh) - 1))
        }
    }

    /// Where a data pointer's payload lives: its distance past the node
    /// count, from the end of the search tree.
    pub fn node_to_offset(&self, node: u32) -> (r: u64)
        requires
            node >= self.metadata.node_count,
            self.wf(),
        ensures
            r == (node - self.metadata.node_count) + self.metadata.search_tree_size,
    {
        proof {
            self.lemma_sts_bound();
        }
        (node - self.metadata.node_count) as u64 + self.metadata.search_tree_size
    }

    proof fn lemma_sts_bound(&self)
        requires
            self.wf(),
        ensures
            self.metadata.search_tree_size <= 0x8_0000_0000,
    {
        assert(self.metadata.node_count as int * (self.metadata.record_size as int / 4)
            <= 0x8_0000_0000) by (nonlinear_arith)
            requires self.metadata.node_count < 0x1_0000_0000 && self.metadata.record_size as int
                / 4 <= 8;
    }

    /// Pushes an internal node's children: slot 1 then slot 0, so slot 0
    /// is walked first; a child whose field cannot be read is left out.
    pub fn push_children(
        &self,
        stack: &mut Vec<(u32, u32, u128)>,
        node: u32,
        depth: u32,
        ip_acc: u128,
    )
        requires
            depth < 128,
        ensures
            final(stack)@ == spec_push_children(
                self.buffer@,
                self.metadata.record_size,
                old(stack)@,
                node,
                depth,
                ip_acc,
            ),
    {
        match self.read_node(node, 1) {
            Ok(right) => {
                stack.push((right, depth + 1, (ip_acc << 1) | 1));
            },
            Err(_) => {},
        }
        match self.read_node(node, 0) {
            Ok(left) => {
                stack.push((left, depth + 1, ip_acc << 1));
            },
            Err(_) => {},
        }
    }

    /// Walks the search tree depth-first and collects every data pointer
    /// as (payload offset, range start, range end).
    pub fn collect_pointers(&self) -> (r: Vec<(u64, u128, u128)>)
        requires
            self.wf(),
        ensures
            r@ == spec_walk(
                self.buffer@,
                self.metadata.node_count,
                self.metadata.record_size,
                self.metadata.search_tree_size,
                self.ipv4_start,
                spec_bits(self.metadata.ip_version),
                seq![(0u32, 0u32, 0u128)],
            ),
    {
        let ghost buf = self.buffer@;
        let ghost nc = self.metadata.node_count;
        let ghost rs = self.metadata.record_size;
        let ghost sts = self.metadata.search_tree_size;
        let ghost v4 = self.ipv4_start;
        let bits: u32 = if self.metadata.ip_version == 6 {
            128
        } else {
            32
        };
        let mut pointers: Vec<(u64, u128, u128)> = Vec::new();
        let mut stack: Vec<(u32, u32, u128)> = Vec::new();
        stack.push((0u32, 0u32, 0u128));
        let ghost init = stack@;
        proof {
            assert(pointers@ + spec_walk(buf, nc, rs, sts, v4, bits, stack@) =~= spec_walk(
                buf, nc, rs, sts, v4, bits, init,
            ));
        }
        while stack.len() > 0
            invariant
                self.wf(),
                buf == self.buffer@,
                nc == self.metadata.node_count,
                rs == self.metadata.record_size,
                sts == self.metadata.search_tree_size,
                v4 == self.ipv4_start,
                bits == spec_bits(self.metadata.ip_version),
                pointers@ + spec_walk(buf, nc, rs, sts, v4, bits, stack@) == spec_walk(
                    buf, nc, rs, sts, v4, bits, init,
                ),
            decreases stack_measure(stack@, bits),
        {
            let ghost st0 = stack@;
            let top = stack.pop().unwrap();
            let (node, depth, prefix) = top;
            proof {
                assert(st0.drop_last() =~= stack@);
                assert(st0.last() == top);
                assert(stack_measure(st0, bits) == stack_measure(stack@, bits) + entry_weight(
                    depth, bits,
                ));
                assert(entry_weight(depth, bits) >= 1) by {
                    if depth <= bits {
                        lemma_pow3_pos((bits + 1 - depth) as nat);
                    }
                }
            }
            if prefix != 0 && node == self.ipv4_start {
                // a re-descent into the 32-bit subtree: already counted
            } else if node > self.metadata.node_count {
                if 1 <= depth && depth <= bits {
                    let (start, end) = self.calculate_range(depth, prefix);
                    let offset = self.node_to_offset(node);
                    let ghost ptrs0 = pointers@;
                    pointers.push((offset, start, end));
                    proof {
                        assert(ptrs0 + (seq![(offset, start, end)] + spec_walk(
                            buf, nc, rs, sts, v4, bits, stack@,
                        )) =~= pointers@ + spec_walk(buf, nc, rs, sts, v4, bits, stack@));
                    }
                }
            } else if node == self.metadata.node_count {
                // dead end: no data
            } else {
                if depth < bits {
                    self.push_children(&mut stack, node, depth, prefix);
                    proof {
                        lemma_push_children_measure(
                            buf, rs, st0.drop_last(), node, depth, prefix, bits,
                        );
                    }
                }
            }
        }
        proof {
            assert(pointers@ + Seq::<(u64, u128, u128)>::empty() =~= pointers@);
        }
        pointers
    }

    /// Decodes every collected pointer's payload: entries whose payload
    /// fails to decode or is not a map are skipped, one by one.
    pub fn decode_all(&self, pointers: Vec<(u64, u128, u128)>) -> (r: Vec<
        (u128, u128, Vec<(String, Value)>),
    >)
        requires
            self.wf(),
            self.metadata.search_tree_size + DATA_SEPARATOR_SIZE <= usize::MAX,
        ensures
            decoded_models(
                r@,
                spec_decode_all(
                    self.buffer@,
                    pointers@,
                    self.metadata.search_tree_size + DATA_SEPARATOR_SIZE,
                ),
            ),
    {
        let ghost buf = self.buffer@;
        let data_base: usize = (self.metadata.search_tree_size + DATA_SEPARATOR_SIZE) as usize;
        let ghost base = data_base as int;
        let blen = self.buffer.len();
        let mut results: Vec<(u128, u128, Vec<(String, Value)>)> = Vec::new();
        let decoder = Decoder::new(self.buffer.as_slice(), data_base);
        let ghost ms0 = Seq::<(u128, u128, Seq<(Seq<char>, ValueModel)>)>::empty();
        let mut i: usize = 0;
        let ghost mut ms = ms0;
        proof {
            assert(results@ =~= Seq::<(u128, u128, Vec<(String, Value)>)>::empty());
            assert(pointers@.skip(0) =~= pointers@);
            assert(ms + spec_decode_all(buf, pointers@, base) =~= spec_decode_all(
                buf,
                pointers@,
                base,
            ));
        }
        while i < pointers.len()
            invariant
                0 <= i <= pointers@.len(),
                buf == self.buffer@,
                blen == buf.len(),
                base == self.metadata.search_tree_size + DATA_SEPARATOR_SIZE,
                base <= usize::MAX,
                data_base == base,
                decoder.buffer@ == buf,
                decoder.pointer_base == data_base,
                decoded_models(results@, ms),
                spec_decode_all(buf, pointers@, base) == ms + spec_decode_all(
                    buf,
                    pointers@.skip(i as int),
                    base,
                ),
            decreases pointers@.len() - i,
        {
            let (offset, start, end) = pointers[i];
            let ghost ms1 = ms;
            let ghost rest = pointers@.skip(i as int);
            proof {
                assert(rest[0] == pointers@[i as int]);
                assert(rest.skip(1) =~= pointers@.skip(i + 1));
            }
            if offset <= blen as u64 {
                let off = offset as usize;
                match decoder.decode(off, DECODE_DEPTH) {
                    Ok((value, _)) => {
                        let ghost vm = spec_decode(buf, offset as int, base,
                            DECODE_DEPTH as nat).unwrap().0;
                        match value {
                            Value::Dict(fields) => {
                                proof {
                                    ms = ms.push((start, end, vm->Dict_0));
                                    assert forall|k: int| 0 <= k < ms.len() implies (
                                    #[trigger] results@.push((start, end, fields))[k]).0 == ms[k].0
                                        && results@.push((start, end, fields))[k].1 == ms[k].1
                                        && dict_models(
                                        results@.push((start, end, fields))[k].2@,
                                        ms[k].2,
                                    ) by {
                                        if k < ms1.len() {
                                            assert(results@[k].0 == ms1[k].0 && dict_models(
                                                results@[k].2@,
                                                ms1[k].2,
                                            ));
                                        }
                                    }
                                }
                                results.push((start, end, fields));
                            },
                            _ => {
                                proof {
                                    assert(!(vm is Dict));
                                }
                            },
                        }
                    },
                    Err(_) => {},
                }
            } else {
                proof {
                    assert(spec_decode(buf, offset as int, base, DECODE_DEPTH as nat) is None);
                }
            }
            proof {
                match spec_decode_all(buf, pointers@.skip(i + 1), base) {
                    q => {
                        assert(ms1 + spec_decode_all(buf, rest, base) =~= ms + spec_decode_all(
                            buf,
                            pointers@.skip(i + 1),
                            base,
                        ));
                    },
                }
            }
            i = i + 1;
        }
        proof {
            assert(pointers@.skip(pointers@.len() as int) =~= Seq::<(u64, u128, u128)>::empty());
            assert(ms + Seq::<(u128, u128, Seq<(Seq<char>, ValueModel)>)>::empty() =~= ms);
        }
        results
    }

    /// Walks the whole tree and decodes every record: the (range,
    /// map-payload) list in walk order.
    pub fn load_all(&self) -> (r: Vec<(u128, u128, Vec<(String, Value)>)>)
        requires
            self.wf(),
            self.metadata.search_tree_size + DATA_SEPARATOR_SIZE <= usize::MAX,
        ensures
            decoded_models(
                r@,
                spec_decode_all(
                    self.buffer@,
                    spec_walk(
                        self.buffer@,
                        self.metadata.node_count,
                        self.metadata.record_size,
                        self.metadata.search_tree_size,
                        self.ipv4_start,
                        spec_bits(self.metadata.ip_version),
                        seq![(0u32, 0u32, 0u128)],
                    ),
                    self.metadata.search_tree_size + DATA_SEPARATOR_SIZE,
                ),
            ),
    {
        let pointers = self.collect_pointers();
        self.decode_all(pointers)
    }

    /// Walks the tree bit by bit for a packed address: the data pointer it
    /// ends at with the bits consumed; 0 at a dead end; nothing when the
    /// bits run out inside the tree or a node read fails. The walk starts
    /// at the 32-bit subtree root for a 32-bit query of a 6-mode database.
    pub fn find_in_tree(&self, packed: &[u8], bit_count: usize) -> (r: Option<(u32, usize)>)
        requires
            bit_count <= packed@.len() * 8,
        ensures
            ({
                let start_node = if self.metadata.ip_version == 6 && bit_count == 32 {
                    self.ipv4_start
                } else {
                    0
                };
                match r {
                    Some(p) => spec_find(
                        self.buffer@,
                        self.metadata.node_count,
                        self.metadata.record_size,
                        packed@,
                        start_node,
                        0,
                        bit_count as int,
                    ) == Some((p.0, p.1 as int)),
                    None => spec_find(
                        self.buffer@,
                        self.metadata.node_count,
                        self.metadata.record_size,
                        packed@,
                        start_node,
                        0,
                        bit_count as int,
                    ) is None,
                }
            }),
    {
        let ghost buf = self.buffer@;
        let ghost nc = self.metadata.node_count;
        let ghost rs = self.metadata.record_size;
        let mut node: u32 = if self.metadata.ip_version == 6 && bit_count == 32 {
            self.ipv4_start
        } else {
            0
        };
        let ghost start_node = node;
        let mut i: usize = 0;
        while i < bit_count && node < self.metadata.node_count
            invariant
                0 <= i <= bit_count,
                bit_count <= packed@.len() * 8,
                buf == self.buffer@,
                nc == self.metadata.node_count,
                rs == self.metadata.record_size,
                start_node == (if self.metadata.ip_version == 6 && bit_count == 32 {
                    self.ipv4_start
                } else {
                    0u32
                }),
                spec_find(buf, nc, rs, packed@, start_node, 0, bit_count as int) == spec_find(
                    buf,
                    nc,
                    rs,
                    packed@,
                    node,
                    i as int,
                    bit_count as int,
                ),
            decreases bit_count - i,
        {
            proof {
                vstd::arithmetic::div_mod::lemma_fundamental_div_mod(i as int, 8);
                assert(i / 8 < packed@.len()) by (nonlinear_arith)
                    requires i < bit_count <= packed@.len() * 8 && i == 8 * (i / 8) + i % 8 && 0
                        <= i % 8 < 8;
            }
            let byte = packed[i / 8];
            let sh = (7 - (i % 8)) as u8;
            let bit = (byte >> sh) & 1;
            assert((byte >> sh) & 1 <= 1) by (bit_vector);
            proof {
                assert(bit == (packed@[i as int / 8] >> ((7 - (i as int % 8)) as u8)) & 1);
            }
            node = match self.read_node(node, bit as usize) {
                Ok(n) => n,
                Err(_) => {
                    proof {
                        assert(spec_read_node(buf, node, bit as int, rs) is None);
                        assert(spec_find(buf, nc, rs, packed@, node, i as int, bit_count as int)
                            is None);
                    }
                    return None;
                },
            };
            i = i + 1;
        }
        if node == self.metadata.node_count {
            return Some((0, i));
        }
        if node > self.metadata.node_count {
            return Some((node, i));
        }
        None
    }

    /// Resolves a packed address to its record's map payload: nothing at a
    /// dead end, on a failed walk, or when the payload is not a map.
    pub fn lookup(&self, packed: &[u8], bit_count: usize) -> (r: Option<Vec<(String, Value)>>)
        requires
            self.wf(),
            bit_count <= packed@.len() * 8,
            self.metadata.search_tree_size + DATA_SEPARATOR_SIZE <= usize::MAX,
        ensures
            match lookup_spec(
                self.buffer@,
                self.metadata,
                self.ipv4_start,
                packed@,
                bit_count as int,
            ) {
                Some(ms) => r matches Some(f) && dict_models(f@, ms),
                None => r is None,
            },
    {
        let ghost buf = self.buffer@;
        let pointer = match self.find_in_tree(packed, bit_count) {
            Some((p, _)) => p,
            None => {
                return None;
            },
        };
        if pointer == 0 {
            return None;
        }
        proof {
            // a dead end reports node 0; a data pointer is above the node
            // count, which node 0 never is
            let start_node = if self.metadata.ip_version == 6 && bit_count == 32 {
                self.ipv4_start
            } else {
                0u32
            };
            lemma_spec_find_ge(
                buf,
                self.metadata.node_count,
                self.metadata.record_size,
                packed@,
                start_node,
                0,
                bit_count as int,
            );
            assert(pointer > self.metadata.node_count);
        }
        let offset = self.node_to_offset(pointer);
        let data_base: usize = (self.metadata.search_tree_size + DATA_SEPARATOR_SIZE) as usize;
        let blen = self.buffer.len();
        if offset > blen as u64 {
            proof {
                assert(spec_decode(buf, offset as int, data_base as int, DECODE_DEPTH as nat)
                    is None);
            }
            return None;
        }
        let decoder = Decoder::new(self.buffer.as_slice(), data_base);
        let value = match decoder.decode(offset as usize, DECODE_DEPTH) {
            Ok((v, _)) => v,
            Err(_) => {
                return None;
            },
        };
        let ghost vm = spec_decode(buf, offset as int, data_base as int,
            DECODE_DEPTH as nat).unwrap().0;
        match value {
            Value::Dict(fields) => Some(fields),
            _ => {
                proof {
                    assert(!(vm is Dict));
                }
                None
            },
        }
    }
}

/// Whether a decoded record list carries exactly the mathematical one:
/// same ranges in the same order, each payload carrying its model map.
pub open spec fn decoded_models(
    rs: Seq<(u128, u128, Vec<(String, Value)>)>,
    ms: Seq<(u128, u128, Seq<(Seq<char>, ValueModel)>)>,
) -> bool {
    rs.len() == ms.len() && (forall|k: int|
        0 <= k < ms.len() ==> (#[trigger] rs[k]).0 == ms[k].0 && rs[k].1 == ms[k].1
            && dict_models(rs[k].2@, ms[k].2))
}

/// The decoded records for a pointer list: each data offset's payload,
/// kept when it decodes to a map, skipped otherwise.
pub open spec fn spec_decode_all(
    buf: Seq<u8>,
    ptrs: Seq<(u64, u128, u128)>,
    base: int,
) -> Seq<(u128, u128, Seq<(Seq<char>, ValueModel)>)>
    decreases ptrs.len(),
{
    if ptrs.len() == 0 {
        Seq::empty()
    } else {
        let rest = spec_decode_all(buf, ptrs.skip(1), base);
        match spec_decode(buf, ptrs[0].0 as int, base, DECODE_DEPTH as nat) {
            Some((ValueModel::Dict(fs), _)) => seq![(ptrs[0].1, ptrs[0].2, fs)] + rest,
            _ => rest,
        }
    }
}

/// One step of the bit walk: the data pointer reached, with the bits
/// consumed; 0 with the bits consumed at a dead end; nothing when the bits
/// run out inside the tree or a node read fails.
pub open spec fn spec_find(
    buf: Seq<u8>,
    nc: u32,
    rs: u16,
    packed: Seq<u8>,
    node: u32,
    i: int,
    bit_count: int,
) -> Option<(u32, int)>
    decreases bit_count - i,
{
    if !(i < bit_count && node < nc) {
        if node == nc {
            Some((0, i))
        } else if node > nc {
            Some((node, i))
        } else {
            None
        }
    } else {
        let bit = (packed[i / 8] >> ((7 - (i % 8)) as u8)) & 1;
        match spec_read_node(buf, node, bit as int, rs) {
            Some(c) => spec_find(buf, nc, rs, packed, c, i + 1, bit_count),
            None => None,
        }
    }
}

/// The bit walk only reports a dead end as 0 or a node field above the
/// node count.
proof fn lemma_spec_find_ge(
    buf: Seq<u8>,
    nc: u32,
    rs: u16,
    packed: Seq<u8>,
    node: u32,
    i: int,
    bit_count: int,
)
    ensures
        match spec_find(buf, nc, rs, packed, node, i, bit_count) {
            Some(p) => p.0 == 0 || p.0 > nc,
            None => true,
        },
    decreases bit_count - i,
{
    if i < bit_count && node < nc {
        let bit = (packed[i / 8] >> ((7 - (i % 8)) as u8)) & 1;
        match spec_read_node(buf, node, bit as int, rs) {
            Some(c) => {
                lemma_spec_find_ge(buf, nc, rs, packed, c, i + 1, bit_count);
            },
            None => {},
        }
    }
}

/// What a point lookup yields: the map payload of the data pointer the bit
/// walk ends at; nothing at a dead end, on a failed walk, or when the
/// payload is not a map.
pub open spec fn lookup_spec(
    buf: Seq<u8>,
    md: Metadata,
    v4: u32,
    packed: Seq<u8>,
    bit_count: int,
) -> Option<Seq<(Seq<char>, ValueModel)>> {
    let start_node = if md.ip_version == 6 && bit_count == 32 {
        v4
    } else {
        0
    };
    match spec_find(buf, md.node_count, md.record_size, packed, start_node, 0, bit_count) {
        Some((p, _)) => if p == 0 {
            None
        } else {
            let offset = (p - md.node_count) + md.search_tree_size;
            let base = md.search_tree_size + DATA_SEPARATOR_SIZE;
            match spec_decode(buf, offset as int, base as int, DECODE_DEPTH as nat) {
                Some((ValueModel::Dict(fs), _)) => Some(fs),
                _ => None,
            }
        },
        None => None,
    }
}

} // verus!
