use vstd::prelude::*;

verus! {

/// The id of the EBML header element.
pub const EBML_HEAD_ID: u64 = 0x0A45DFA3;

/// The id of the document type element inside the EBML header.
pub const DOC_TYPE_ID: u64 = 0x0282;

/// The id of the padding element.
pub const VOID_ID: u64 = 0x6C;

/// Errors met while reading EBML.
#[derive(Debug, Clone, Copy, PartialEq, Eq, Structural)]
pub enum EbmlError {
    CorruptVarint,
    UnknownElementId,
    UnknownElementLength,
    CorruptPayload,
}

impl EbmlError {
    /// A sentence that says what went wrong.
    pub fn description(&self) -> (r: &'static str)
        ensures
            *self == EbmlError::CorruptVarint ==> r@ == "EBML Varint could not be parsed"@,
            *self == EbmlError::UnknownElementId ==> r@ == "EBML element ID was \"unknown\""@,
            *self == EbmlError::UnknownElementLength ==> r@
                == "EBML element length was \"unknown\" for an element not allowing that"@,
            *self == EbmlError::CorruptPayload ==> r@ == "EBML element payload could not be parsed"@,
    {
        proof {
            reveal_strlit("EBML Varint could not be parsed");
            reveal_strlit("EBML element ID was \"unknown\"");
            reveal_strlit("EBML element length was \"unknown\" for an element not allowing that");
            reveal_strlit("EBML element payload could not be parsed");
        }
        match self {
            EbmlError::CorruptVarint => "EBML Varint could not be parsed",
            EbmlError::UnknownElementId => "EBML element ID was \"unknown\"",
            EbmlError::UnknownElementLength => "EBML element length was \"unknown\" for an element not allowing that",
            EbmlError::CorruptPayload => "EBML element payload could not be parsed",
        }
    }
}

/// Errors met while writing EBML.
#[derive(Debug, Clone, Copy, PartialEq, Eq, Structural)]
pub enum WriteError {
    OutOfRange,
}

impl WriteError {
    /// A sentence that says what went wrong.
    pub fn description(&self) -> (r: &'static str)
        ensures
            r@ == "EBML Varint out of range"@,
    {
        proof {
            reveal_strlit("EBML Varint out of range");
        }
        "EBML Varint out of range"
    }
}

/// An EBML variable-length integer.
#[derive(Debug, Clone, Copy, PartialEq, Eq, Structural)]
pub enum Varint {
    /// a numeric value
    Value(u64),
    /// the reserved "unknown" value
    Unknown,
}

/// 256 to the power `n`.
pub open spec fn pow256(n: nat) -> nat
    decreases n,
{
    if n == 0 {
        1
    } else {
        256 * pow256((n - 1) as nat)
    }
}

/// 128 to the power `n`: one past the largest payload of an `n`-byte varint.
pub open spec fn pow128(n: nat) -> nat
    decreases n,
{
    if n == 0 {
        1
    } else {
        128 * pow128((n - 1) as nat)
    }
}

/// The number `head` followed by the bytes of `tail`, read big-endian.
pub open spec fn be_concat(head: nat, tail: Seq<u8>) -> nat
    decreases tail.len(),
{
    if tail.len() == 0 {
        head
    } else {
        be_concat(head, tail.drop_last()) * 256 + tail.last() as nat
    }
}

/// The width of a varint, from the position of the first set bit of its first byte
/// (0 when that byte is zero).
pub open spec fn varint_width(first: u8) -> nat {
    if first >= 0x80 {
        1
    } else if first >= 0x40 {
        2
    } else if first >= 0x20 {
        3
    } else if first >= 0x10 {
        4
    } else if first >= 0x08 {
        5
    } else if first >= 0x04 {
        6
    } else if first >= 0x02 {
        7
    } else if first >= 0x01 {
        8
    } else {
        0
    }
}

/// The length-marker bit of the first byte of a varint of the given width.
pub open spec fn width_marker(width: nat) -> nat {
    if width == 1 {
        0x80
    } else if width == 2 {
        0x40
    } else if width == 3 {
        0x20
    } else if width == 4 {
        0x10
    } else if width == 5 {
        0x08
    } else if width == 6 {
        0x04
    } else if width == 7 {
        0x02
    } else {
        0x01
    }
}

/// The payload bits of the varint at the start of `bytes` that has the given width.
pub open spec fn varint_payload(bytes: Seq<u8>, width: nat) -> nat {
    be_concat((bytes[0] - width_marker(width)) as nat, bytes.subrange(1, width as int))
}

/// What reading a varint from the start of `bytes` yields.
pub open spec fn varint_result(bytes: Seq<u8>) -> Result<Option<(Varint, usize)>, EbmlError> {
    if bytes.len() == 0 {
        Ok(None)
    } else if bytes[0] == 0 {
        Err(EbmlError::CorruptVarint)
    } else if bytes.len() < varint_width(bytes[0]) {
        Ok(None)
    } else {
        let width = varint_width(bytes[0]);
        let payload = varint_payload(bytes, width);
        if payload == pow128(width) - 1 {
            Ok(Some((Varint::Unknown, width as usize)))
        } else {
            Ok(Some((Varint::Value(payload as u64), width as usize)))
        }
    }
}

proof fn lemma_marker_span(width: nat)
    requires
        1 <= width <= 8,
    ensures
        width_marker(width) * pow256((width - 1) as nat) == pow128(width),
        pow128(width) <= pow128(8),
        pow128(8) == 0x100_0000_0000_0000,
        2 * pow128(width) <= pow256(width),
{
    reveal_with_fuel(pow256, 9);
    reveal_with_fuel(pow128, 9);
    if width == 1 {
    } else if width == 2 {
    } else if width == 3 {
    } else if width == 4 {
    } else if width == 5 {
    } else if width == 6 {
    } else if width == 7 {
    } else {
    }
}

proof fn lemma_pow128_mono(a: nat, b: nat)
    requires
        a <= b,
    ensures
        1 <= pow128(a) <= pow128(b),
    decreases b - a,
{
    if a < b {
        lemma_pow128_mono(a, (b - 1) as nat);
    } else {
        lemma_pow128_positive(a);
    }
}

proof fn lemma_pow128_positive(a: nat)
    ensures
        pow128(a) >= 1,
    decreases a,
{
    if a > 0 {
        lemma_pow128_positive((a - 1) as nat);
    }
}

proof fn lemma_pow256_step(n: nat)
    ensures
        pow256(n + 1) == 256 * pow256(n),
        pow256(n) >= 1,
    decreases n,
{
    if n > 0 {
        lemma_pow256_step((n - 1) as nat);
    }
}

fn width_of(first: u8) -> (r: (usize, u8))
    ensures
        r.0 == varint_width(first),
        first != 0 ==> r.1 == width_marker(r.0 as nat),
{
    if first >= 0x80 {
        (1, 0x80)
    } else if first >= 0x40 {
        (2, 0x40)
    } else if first >= 0x20 {
        (3, 0x20)
    } else if first >= 0x10 {
        (4, 0x10)
    } else if first >= 0x08 {
        (5, 0x08)
    } else if first >= 0x04 {
        (6, 0x04)
    } else if first >= 0x02 {
        (7, 0x02)
    } else if first >= 0x01 {
        (8, 0x01)
    } else {
        (0, 0)
    }
}

/// Try to parse an EBML varint at the start of the given slice.
/// Returns an Err() if the format is corrupt.
/// Returns Ok(None) if more bytes are needed to get a result.
/// Returns Ok(Some((varint, size))) to return a varint value and
/// the size of the parsed varint.
pub fn decode_varint(bytes: &[u8]) -> (r: Result<Option<(Varint, usize)>, EbmlError>)
    ensures
        r == varint_result(bytes@),
{
    if bytes.len() == 0 {
        return Ok(None);
    }
    let first = bytes[0];
    let (width, marker) = width_of(first);
    if width == 0 {
        return Err(EbmlError::CorruptVarint);
    }
    if width > bytes.len() {
        return Ok(None);
    }
    proof {
        lemma_marker_span(width as nat);
    }
    let mut value: u64 = (first - marker) as u64;
    // one less than the smallest number that no payload of the bytes read so far reaches
    let mut all_ones: u64 = (marker - 1) as u64;
    let mut i: usize = 1;
    while i < width
        invariant
            1 <= i <= width <= 8,
            width <= bytes@.len(),
            width == varint_width(first),
            first == bytes@[0],
            marker == width_marker(width as nat),
            value == be_concat((first - marker) as nat, bytes@.subrange(1, i as int)),
            value <= all_ones,
            (all_ones + 1) * pow256((width - i) as nat) == pow128(width as nat),
            pow128(width as nat) <= 0x100_0000_0000_0000,
        decreases width - i,
    {
        let b = bytes[i];
        proof {
            lemma_pow256_step((width - i - 1) as nat);
            let p = pow256((width - i - 1) as nat);
            assert((all_ones + 1) * (256 * p) == ((all_ones + 1) * 256) * p) by (nonlinear_arith);
            assert(p >= 1 && (all_ones + 1) * 256 * p <= 0x100_0000_0000_0000 ==> (all_ones + 1) * 256 <= 0x100_0000_0000_0000) by (nonlinear_arith);
            let s = bytes@.subrange(1, i as int + 1);
            assert(s.drop_last() =~= bytes@.subrange(1, i as int));
        }
        value = value * 256 + b as u64;
        all_ones = all_ones * 256 + 255;
        i = i + 1;
    }
    proof {
        assert(pow256((width - i) as nat) == 1);
        assert((all_ones + 1) * 1 == all_ones + 1);
    }
    if value == all_ones {
        Ok(Some((Varint::Unknown, width)))
    } else {
        Ok(Some((Varint::Value(value), width)))
    }
}

/// What reading an element header (an id varint, then a size varint) from the
/// start of `bytes` yields: the id, the payload size and the header length.
pub open spec fn tag_result(bytes: Seq<u8>) -> Result<Option<(u64, Varint, usize)>, EbmlError> {
    match varint_result(bytes) {
        Err(e) => Err(e),
        Ok(None) => Ok(None),
        Ok(Some((Varint::Unknown, _))) => Err(EbmlError::UnknownElementId),
        Ok(Some((Varint::Value(id), id_size))) => match varint_result(
            bytes.subrange(id_size as int, bytes.len() as int),
        ) {
            Err(e) => Err(e),
            Ok(None) => Ok(None),
            Ok(Some((size, size_size))) => Ok(Some((id, size, (id_size + size_size) as usize))),
        },
    }
}

proof fn lemma_varint_width_bound(bytes: Seq<u8>)
    ensures
        varint_result(bytes) matches Ok(Some((_, n))) ==> 1 <= n <= 8 && n <= bytes.len(),
{
}

/// Try to parse an EBML element header at the start of the given slice.
/// Returns an Err() if the format is corrupt.
/// Returns Ok(None) if more bytes are needed to get a result.
/// Returns Ok(Some((id, varint, size))) to return the element id,
/// the size of the payload, and the size of the parsed header.
pub fn decode_tag(bytes: &[u8]) -> (r: Result<Option<(u64, Varint, usize)>, EbmlError>)
    ensures
        r == tag_result(bytes@),
        r matches Ok(Some((_, _, n))) ==> n <= bytes@.len(),
{
    proof {
        lemma_varint_width_bound(bytes@);
    }
    match decode_varint(bytes) {
        Err(e) => Err(e),
        Ok(None) => Ok(None),
        Ok(Some((Varint::Unknown, _))) => Err(EbmlError::UnknownElementId),
        Ok(Some((Varint::Value(element_id), id_size))) => {
            let rest = slice_from(bytes, id_size);
            proof {
                lemma_varint_width_bound(rest@);
            }
            match decode_varint(rest) {
                Err(e) => Err(e),
                Ok(None) => Ok(None),
                Ok(Some((element_length, length_size))) => Ok(
                    Some((element_id, element_length, id_size + length_size)),
                ),
            }
        },
    }
}

/// The bytes of `bytes` from index `start` on.
pub fn slice_from(bytes: &[u8], start: usize) -> (r: &[u8])
    requires
        start <= bytes@.len(),
    ensures
        r@ == bytes@.subrange(start as int, bytes@.len() as int),
{
    slice_range(bytes, start, bytes.len())
}

/// The bytes of `bytes` from index `start` up to index `end`.
pub fn slice_range(bytes: &[u8], start: usize, end: usize) -> (r: &[u8])
    requires
        start <= end <= bytes@.len(),
    ensures
        r@ == bytes@.subrange(start as int, end as int),
{
    vstd::slice::slice_subrange(bytes, start, end)
}

proof fn lemma_be_concat_bound(head: nat, tail: Seq<u8>, limit: nat)
    requires
        head < limit,
    ensures
        be_concat(head, tail) < limit * pow256(tail.len()),
    decreases tail.len(),
{
    if tail.len() > 0 {
        let t = tail.drop_last();
        lemma_be_concat_bound(head, t, limit);
        let x = be_concat(head, t);
        let y = limit * pow256(t.len());
        let l = tail.last() as nat;
        let p = pow256(t.len());
        assert(x < y && l < 256 ==> x * 256 + l < y * 256) by (nonlinear_arith);
        assert(limit * (256 * p) == y * 256) by (nonlinear_arith)
            requires
                y == limit * p,
        ;
    } else {
        assert(pow256(0) == 1);
        assert(limit * 1 == limit);
    }
}

/// Reads an unsigned integer stored big-endian in one to eight bytes.
pub fn decode_uint(bytes: &[u8]) -> (r: Result<u64, EbmlError>)
    ensures
        bytes@.len() < 1 || bytes@.len() > 8 ==> r == Err::<u64, EbmlError>(EbmlError::CorruptPayload),
        1 <= bytes@.len() <= 8 ==> r == Ok::<u64, EbmlError>(be_concat(0, bytes@) as u64),
{
    if bytes.len() < 1 || bytes.len() > 8 {
        return Err(EbmlError::CorruptPayload);
    }
    let mut value: u64 = 0;
    let mut i: usize = 0;
    while i < bytes.len()
        invariant
            i <= bytes@.len() <= 8,
            value == be_concat(0, bytes@.subrange(0, i as int)),
        decreases bytes@.len() - i,
    {
        proof {
            lemma_be_concat_bound(0, bytes@.subrange(0, i as int + 1), 1);
            reveal_with_fuel(pow256, 9);
            assert(bytes@.subrange(0, i as int + 1).drop_last() =~= bytes@.subrange(0, i as int));
            assert(pow256(i as nat) <= pow256(7)) by {
                lemma_pow256_mono(i as nat, 7);
            }
        }
        value = value * 256 + bytes[i] as u64;
        i = i + 1;
    }
    proof {
        assert(bytes@.subrange(0, i as int) =~= bytes@);
    }
    Ok(value)
}

proof fn lemma_pow256_mono(a: nat, b: nat)
    requires
        a <= b,
    ensures
        pow256(a) <= pow256(b),
    decreases b - a,
{
    if a < b {
        lemma_pow256_mono(a, (b - 1) as nat);
        lemma_pow256_step((b - 1) as nat);
    }
}

/// `n` written big-endian in `count` bytes (higher bytes of `n` are cut off).
pub open spec fn be_bytes(n: nat, count: nat) -> Seq<u8>
    decreases count,
{
    if count == 0 {
        Seq::empty()
    } else {
        be_bytes(n / 256, (count - 1) as nat).push((n % 256) as u8)
    }
}

/// The length of a big-endian encoding is its byte count.
pub proof fn lemma_be_bytes_len(n: nat, count: nat)
    ensures
        #[trigger] be_bytes(n, count).len() == count,
    decreases count,
{
    if count > 0 {
        lemma_be_bytes_len(n / 256, (count - 1) as nat);
    }
}

/// A value is written in one to seven bytes.
pub proof fn lemma_width_from_range(v: nat, from: nat)
    requires
        1 <= from <= 7,
    ensures
        from <= #[trigger] width_from(v, from) <= 7,
    decreases 7 - from,
{
    if from < 7 && v + 1 >= pow128(from) {
        lemma_width_from_range(v, from + 1);
    }
}

/// The smallest width from `from` up to 7 whose payloads hold `v` without
/// reaching the reserved all-ones pattern.
pub open spec fn width_from(v: nat, from: nat) -> nat
    decreases 7 - from,
{
    if from >= 7 || v + 1 < pow128(from) {
        from
    } else {
        width_from(v, from + 1)
    }
}

/// The width `encode_varint` gives to the value `v`.
pub open spec fn encoded_width(v: nat) -> nat {
    width_from(v, 1)
}

/// Whether `encode_varint` can write the varint (values up to `2^49 - 2`).
pub open spec fn encodable(v: Varint) -> bool {
    match v {
        Varint::Unknown => true,
        Varint::Value(n) => n + 1 < pow128(7),
    }
}

/// The bytes that `encode_varint` writes for an encodable varint.
pub open spec fn varint_encoding(v: Varint) -> Seq<u8> {
    match v {
        Varint::Unknown => seq![0xFFu8],
        Varint::Value(n) => be_bytes((pow128(encoded_width(n as nat)) + n) as nat, encoded_width(n as nat)),
    }
}

/// A varint is written in one to seven bytes.
pub proof fn lemma_varint_encoding_len(v: Varint)
    ensures
        1 <= #[trigger] varint_encoding(v).len() <= 7,
        v matches Varint::Value(n) ==> varint_encoding(v).len() == encoded_width(n as nat),
{
    if let Varint::Value(n) = v {
        lemma_width_from_range(n as nat, 1);
        lemma_be_bytes_len(
            (pow128(encoded_width(n as nat)) + n) as nat,
            encoded_width(n as nat),
        );
    }
}

/// Whether `encode_varint_4` can write the varint (values up to `2^28 - 2`).
pub open spec fn encodable_4(v: Varint) -> bool {
    match v {
        Varint::Unknown => true,
        Varint::Value(n) => n + 1 < pow128(4),
    }
}

/// The bytes that `encode_varint_4` writes for an encodable varint.
pub open spec fn varint_4_encoding(v: Varint) -> Seq<u8> {
    match v {
        Varint::Unknown => be_bytes((2 * pow128(4) - 1) as nat, 4),
        Varint::Value(n) => be_bytes((pow128(4) + n) as nat, 4),
    }
}

/// Appends `n` written big-endian in `count` bytes.
pub(crate) fn push_be(n: u64, count: usize, output: &mut Vec<u8>)
    ensures
        final(output)@ == old(output)@ + be_bytes(n as nat, count as nat),
    decreases count,
{
    if count > 0 {
        push_be(n / 256, count - 1, output);
        output.push((n % 256) as u8);
        proof {
            assert(final(output)@ =~= old(output)@ + be_bytes(n as nat, count as nat));
        }
    } else {
        proof {
            assert(final(output)@ =~= old(output)@ + be_bytes(n as nat, count as nat));
        }
    }
}

/// Tries to write an EBML varint using minimal space.
/// Fails with `OutOfRange`, writing nothing, for values from `2^49 - 1` on.
pub fn encode_varint(varint: Varint, output: &mut Vec<u8>) -> (r: Result<(), WriteError>)
    ensures
        encodable(varint) ==> r is Ok
            && final(output)@ == old(output)@ + varint_encoding(varint),
        !encodable(varint) ==> r == Err::<(), WriteError>(WriteError::OutOfRange)
            && final(output)@ == old(output)@,
{
    proof {
        reveal_with_fuel(pow128, 8);
    }
    match varint {
        Varint::Unknown => {
            output.push(0xFF);
            proof {
                assert(final(output)@ =~= old(output)@ + varint_encoding(varint));
            }
            Ok(())
        },
        Varint::Value(value) => {
            if value >= SEVEN_FLAG - 1 {
                return Err(WriteError::OutOfRange);
            }
            let mut flag: u64 = SMALL_FLAG;
            let mut size: usize = 1;
            while value >= flag - 1
                invariant
                    1 <= size <= 7,
                    flag == pow128(size as nat),
                    flag >= 1,
                    value + 1 < pow128(7),
                    width_from(value as nat, 1) == width_from(value as nat, size as nat),
                decreases 7 - size,
            {
                proof {
                    if size == 7 {
                        assert(false);
                    }
                    lemma_pow128_mono(size as nat + 1, 7);
                    reveal_with_fuel(pow128, 8);
                    assert(pow128(size as nat + 1) == 128 * pow128(size as nat));
                }
                flag = flag * 128;
                size = size + 1;
            }
            push_be(flag + value, size, output);
            Ok(())
        },
    }
}

const SMALL_FLAG: u64 = 0x80;

const SEVEN_FLAG: u64 = 0x2_0000_0000_0000;

const FOUR_FLAG: u64 = 0x1000_0000;

const FOUR_MAX: u64 = 0x0FFF_FFFE;

/// Tries to write a varint with a fixed 4-byte representation.
/// Fails with `OutOfRange`, writing nothing, for values from `2^28 - 1` on.
pub fn encode_varint_4(varint: Varint, output: &mut Vec<u8>) -> (r: Result<(), WriteError>)
    ensures
        encodable_4(varint) ==> r is Ok
            && final(output)@ == old(output)@ + varint_4_encoding(varint),
        !encodable_4(varint) ==> r == Err::<(), WriteError>(WriteError::OutOfRange)
            && final(output)@ == old(output)@,
{
    proof {
        reveal_with_fuel(pow128, 5);
    }
    let number = match varint {
        Varint::Unknown => FOUR_FLAG + (FOUR_FLAG - 1),
        Varint::Value(value) => {
            if value > FOUR_MAX {
                return Err(WriteError::OutOfRange);
            }
            FOUR_FLAG + value
        },
    };
    push_be(number, 4, output);
    Ok(())
}

/// Whether `varint` can be written by `encode_varint`.
pub fn is_encodable(varint: Varint) -> (r: bool)
    ensures
        r == encodable(varint),
{
    proof {
        reveal_with_fuel(pow128, 8);
    }
    match varint {
        Varint::Unknown => true,
        Varint::Value(n) => n < SEVEN_FLAG - 1,
    }
}

/// A vector holding the bytes of `bytes`.
pub fn to_vec(bytes: &[u8]) -> (r: Vec<u8>)
    ensures
        r@ == bytes@,
{
    let mut v: Vec<u8> = Vec::new();
    push_all(bytes, &mut v);
    proof {
        assert(v@ =~= bytes@);
    }
    v
}

/// Appends every byte of `bytes`.
pub fn push_all(bytes: &[u8], output: &mut Vec<u8>)
    ensures
        final(output)@ == old(output)@ + bytes@,
{
    let mut i: usize = 0;
    while i < bytes.len()
        invariant
            i <= bytes@.len(),
            output@ == old(output)@ + bytes@.subrange(0, i as int),
        decreases bytes@.len() - i,
    {
        output.push(bytes[i]);
        i = i + 1;
        proof {
            assert(output@ =~= old(output)@ + bytes@.subrange(0, i as int));
        }
    }
    proof {
        assert(bytes@.subrange(0, i as int) =~= bytes@);
    }
}

/// Writes an element header: the id as a varint, then the payload size.
/// Fails with `OutOfRange` where either cannot be written: an id that cannot be
/// written writes nothing; a size that cannot be written leaves the id written.
pub fn encode_tag_header(tag: u64, size: Varint, output: &mut Vec<u8>) -> (r: Result<(), WriteError>)
    ensures
        encodable(Varint::Value(tag)) && encodable(size) ==> r is Ok
            && final(output)@ == old(output)@ + varint_encoding(Varint::Value(tag))
            + varint_encoding(size),
        encodable(Varint::Value(tag)) && !encodable(size) ==> r == Err::<(), WriteError>(
            WriteError::OutOfRange,
        ) && final(output)@ == old(output)@ + varint_encoding(Varint::Value(tag)),
        !encodable(Varint::Value(tag)) ==> r == Err::<(), WriteError>(WriteError::OutOfRange)
            && final(output)@ == old(output)@,
{
    match encode_varint(Varint::Value(tag), output) {
        Err(e) => Err(e),
        Ok(()) => encode_varint(size, output),
    }
}

/// The bytes of an element with the given id and payload, its size written minimally.
pub open spec fn element_encoding(tag: u64, payload: Seq<u8>) -> Seq<u8> {
    varint_encoding(Varint::Value(tag)) + varint_encoding(Varint::Value(payload.len() as u64))
        + payload
}

/// Tries to write a simple EBML tag with a string or binary value.
/// Fails with `OutOfRange` where the id or the length cannot be written: an id
/// that cannot be written writes nothing; a length that cannot be written
/// leaves the id written.
pub fn encode_bytes(tag: u64, bytes: &[u8], output: &mut Vec<u8>) -> (r: Result<(), WriteError>)
    ensures
        encodable(Varint::Value(tag)) && encodable(Varint::Value(bytes@.len() as u64)) ==> r is Ok
            && final(output)@ == old(output)@ + element_encoding(tag, bytes@),
        encodable(Varint::Value(tag)) && !encodable(Varint::Value(bytes@.len() as u64)) ==> r
            == Err::<(), WriteError>(WriteError::OutOfRange) && final(output)@ == old(output)@
            + varint_encoding(Varint::Value(tag)),
        !encodable(Varint::Value(tag)) ==> r == Err::<(), WriteError>(WriteError::OutOfRange)
            && final(output)@ == old(output)@,
{
    let r = encode_tag_header(tag, Varint::Value(bytes.len() as u64), output);
    if r.is_ok() {
        push_all(bytes, output);
        proof {
            assert(final(output)@ =~= old(output)@ + element_encoding(tag, bytes@));
        }
    }
    r
}

/// Tries to write a simple EBML tag with an integer value, always in eight bytes.
/// Fails with `OutOfRange`, writing nothing, where the id cannot be written.
pub fn encode_integer(tag: u64, value: u64, output: &mut Vec<u8>) -> (r: Result<(), WriteError>)
    ensures
        encodable(Varint::Value(tag)) ==> r is Ok && final(output)@ == old(output)@
            + element_encoding(tag, be_bytes(value as nat, 8)),
        !encodable(Varint::Value(tag)) ==> r == Err::<(), WriteError>(WriteError::OutOfRange)
            && final(output)@ == old(output)@,
{
    proof {
        reveal_with_fuel(pow128, 8);
        reveal_with_fuel(be_bytes, 9);
    }
    let r = encode_tag_header(tag, Varint::Value(8), output);
    if r.is_ok() {
        push_be(value, 8, output);
        proof {
            assert(final(output)@ =~= old(output)@ + element_encoding(tag, be_bytes(value as nat, 8)));
        }
    }
    r
}

/// Writes an element whose size field takes a fixed four bytes: the id, a
/// placeholder size, `body`, and then the size of `body` over the placeholder.
/// Fails with `OutOfRange` where the id or the size cannot be written: an id
/// that cannot be written writes nothing; a size that cannot be written leaves
/// the id, the "unknown" placeholder and the body written.
pub fn encode_element(tag: u64, output: &mut Vec<u8>, body: &[u8]) -> (r: Result<(), WriteError>)
    ensures
        encodable(Varint::Value(tag)) && encodable_4(Varint::Value(body@.len() as u64)) ==> r is Ok
            && final(output)@ == old(output)@ + varint_encoding(Varint::Value(tag))
            + varint_4_encoding(Varint::Value(body@.len() as u64)) + body@,
        encodable(Varint::Value(tag)) && !encodable_4(Varint::Value(body@.len() as u64)) ==> r
            == Err::<(), WriteError>(WriteError::OutOfRange) && final(output)@ == old(output)@
            + varint_encoding(Varint::Value(tag)) + varint_4_encoding(Varint::Unknown) + body@,
        !encodable(Varint::Value(tag)) ==> r == Err::<(), WriteError>(WriteError::OutOfRange)
            && final(output)@ == old(output)@,
{
    proof {
        reveal_with_fuel(pow128, 5);
    }
    match encode_varint(Varint::Value(tag), output) {
        Err(e) => Err(e),
        Ok(()) => {
            let _ = encode_varint_4(Varint::Unknown, output);
            let start = output.len();
            push_all(body, output);
            let size = body.len() as u64;
            let mut patch: Vec<u8> = Vec::new();
            let r = encode_varint_4(Varint::Value(size), &mut patch);
            proof {
                lemma_be_bytes_len((2 * pow128(4) - 1) as nat, 4);
                lemma_be_bytes_len((pow128(4) + size) as nat, 4);
                lemma_varint_encoding_len(Varint::Value(tag));
                assert(output@ == old(output)@ + varint_encoding(Varint::Value(tag))
                    + varint_4_encoding(Varint::Unknown) + body@);
            }
            if r.is_ok() {
                let mut k: usize = 0;
                while k < 4
                    invariant
                        start >= 4,
                        start + body@.len() == output@.len(),
                        patch@.len() == 4,
                        k <= 4,
                        output@.len() == old(output)@.len() + varint_encoding(
                            Varint::Value(tag),
                        ).len() + 4 + body@.len(),
                        forall|j: int|
                            0 <= j < output@.len() ==> #[trigger] output@[j] == if start - 4 <= j
                                < start - 4 + k {
                                patch@[j - (start - 4)]
                            } else {
                                (old(output)@ + varint_encoding(Varint::Value(tag))
                                    + varint_4_encoding(Varint::Unknown) + body@)[j]
                            },
                    decreases 4 - k,
                {
                    output.set(start - 4 + k, patch[k]);
                    k = k + 1;
                }
                proof {
                    assert(output@ =~= old(output)@ + varint_encoding(Varint::Value(tag))
                        + varint_4_encoding(Varint::Value(body@.len() as u64)) + body@);
                }
            } else {
                proof {
                    assert(output@ =~= old(output)@ + varint_encoding(Varint::Value(tag))
                        + varint_4_encoding(Varint::Unknown) + body@);
                }
            }
            r
        },
    }
}

/// The length of the element at the start of `bytes`, as an event source reads it:
/// the header alone where `unwrap` holds of the id, else the header and the payload.
/// `Ok(None)` where more bytes are needed.
pub open spec fn space_result(bytes: Seq<u8>, unwrap: spec_fn(u64) -> bool) -> Result<
    Option<usize>,
    EbmlError,
> {
    match tag_result(bytes) {
        Err(e) => Err(e),
        Ok(None) => Ok(None),
        Ok(Some((id, size, tag_size))) => {
            if !unwrap(id) && size is Unknown {
                Err(EbmlError::UnknownElementLength)
            } else {
                let payload = if unwrap(id) {
                    0
                } else {
                    size->Value_0 as int
                };
                if tag_size + payload > bytes.len() {
                    Ok(None)
                } else {
                    Ok(Some((tag_size + payload) as usize))
                }
            }
        },
    }
}

/// How a schema turns EBML elements into values of its own.
pub trait FromEbml: Sized {
    /// Whether an element with this id is reported as an event of its own, its
    /// payload parsed further as the elements that follow.
    spec fn unwraps(element_id: u64) -> bool;

    /// Whether `r` is what decoding an element with this id and payload gives.
    spec fn decodes_as(element_id: u64, bytes: Seq<u8>, r: Result<Self, EbmlError>) -> bool;

    /// Indicates if this tag's contents should be treated as a blob,
    /// or if the tag header should be reported as an event and with further
    /// parsing descending into its content.
    ///
    /// Unknown-size tags can *only* be parsed if unwrapped, and will error otherwise.
    fn should_unwrap(element_id: u64) -> (r: bool)
        ensures
            r == Self::unwraps(element_id),
    ;

    /// Given an element's ID and its binary payload, if any, construct a suitable
    /// instance of this type to represent the event.
    fn decode(element_id: u64, bytes: &[u8]) -> (r: Result<Self, EbmlError>)
        ensures
            Self::decodes_as(element_id, bytes@, r),
    ;

    /// Check if enough space exists in the given buffer for decode_element() to
    /// be successful; parsing errors will be returned eagerly.
    fn check_space(bytes: &[u8]) -> (r: Result<Option<usize>, EbmlError>)
        ensures
            r == space_result(bytes@, |id: u64| Self::unwraps(id)),
            r matches Ok(Some(n)) ==> n <= bytes@.len() && (tag_result(bytes@) matches Ok(
                Some((_, _, t)),
            ) && t <= n),
    {
        match decode_tag(bytes) {
            Err(err) => Err(err),
            Ok(None) => Ok(None),
            Ok(Some((element_id, payload_size_tag, tag_size))) => {
                let should_unwrap = Self::should_unwrap(element_id);
                let payload_size: u64 = match (should_unwrap, payload_size_tag) {
                    (true, _) => 0,
                    (false, Varint::Unknown) => return Err(EbmlError::UnknownElementLength),
                    (false, Varint::Value(size)) => size,
                };
                if payload_size > (bytes.len() - tag_size) as u64 {
                    Ok(None)
                } else {
                    Ok(Some(tag_size + payload_size as usize))
                }
            },
        }
    }

    /// Attempt to construct an instance of this type from the given byte slice,
    /// with the number of bytes it took.
    fn decode_element(bytes: &[u8]) -> (r: Result<Option<(Self, usize)>, EbmlError>)
        ensures
            r matches Ok(Some((_, m))) ==> m <= bytes@.len(),
            match space_result(bytes@, |id: u64| Self::unwraps(id)) {
                Err(e) => r == Err::<Option<(Self, usize)>, EbmlError>(e),
                Ok(None) => r == Ok::<Option<(Self, usize)>, EbmlError>(None),
                Ok(Some(n)) => {
                    let (id, _, tag_size) = tag_result(bytes@)->Ok_0->Some_0;
                    let payload = bytes@.subrange(tag_size as int, n as int);
                    match r {
                        Err(e) => Self::decodes_as(id, payload, Err(e)),
                        Ok(Some((element, m))) => m == n && Self::decodes_as(
                            id,
                            payload,
                            Ok(element),
                        ),
                        Ok(None) => false,
                    }
                },
            },
    {
        match Self::check_space(bytes) {
            Err(err) => Err(err),
            Ok(None) => Ok(None),
            Ok(Some(element_size)) => {
                let tag = decode_tag(bytes);
                match tag {
                    Ok(Some((element_id, _, tag_size))) => {
                        match Self::decode(element_id, slice_range(bytes, tag_size, element_size)) {
                            Ok(element) => Ok(Some((element, element_size))),
                            Err(error) => Err(error),
                        }
                    },
                    _ => Err(EbmlError::CorruptPayload),
                }
            },
        }
    }
}

/// A source of EBML events that arrive over time: `Ok(Some(event))` for the
/// next event, `Ok(None)` where the source has to wait for more input.
pub trait EbmlEventSource {
    type Error;

    /// Whether the source is in a state in which it can be polled.
    spec fn source_wf(&self) -> bool;

    fn poll_event<T: FromEbml>(&mut self) -> (r: Result<Option<T>, Self::Error>)
        requires
            old(self).source_wf(),
        ensures
            final(self).source_wf(),
    ;
}

/// An element seen only by its id and the length of its payload; no element is unwrapped.
#[derive(Debug, Clone, Copy, PartialEq, Eq)]
pub struct GenericElement(pub u64, pub usize);

impl FromEbml for GenericElement {
    open spec fn unwraps(element_id: u64) -> bool {
        false
    }

    open spec fn decodes_as(
        element_id: u64,
        bytes: Seq<u8>,
        r: Result<GenericElement, EbmlError>,
    ) -> bool {
        r == Ok::<GenericElement, EbmlError>(GenericElement(element_id, bytes.len() as usize))
    }

    fn should_unwrap(element_id: u64) -> (r: bool) {
        false
    }

    fn decode(element_id: u64, bytes: &[u8]) -> (r: Result<GenericElement, EbmlError>) {
        Ok(GenericElement(element_id, bytes.len()))
    }
}

proof fn lemma_be_concat_push(h: nat, s: Seq<u8>, x: u8)
    ensures
        be_concat(h, s.push(x)) == be_concat(h, s) * 256 + x as nat,
{
    assert(s.push(x).drop_last() =~= s);
}

proof fn lemma_be_concat_be_bytes(h: nat, n: nat, c: nat)
    ensures
        be_concat(h, be_bytes(n, c)) == h * pow256(c) + n % pow256(c),
    decreases c,
{
    if c == 0 {
        assert(n % 1 == 0);
        assert(h * 1 == h);
    } else {
        let p = pow256((c - 1) as nat);
        lemma_pow256_step((c - 1) as nat);
        lemma_be_concat_be_bytes(h, n / 256, (c - 1) as nat);
        lemma_be_concat_push(h, be_bytes(n / 256, (c - 1) as nat), (n % 256) as u8);
        vstd::arithmetic::div_mod::lemma_mod_breakdown(n as int, 256, p as int);
        let q = (n / 256) % p;
        assert((h * p + q) * 256 + n % 256 == h * (256 * p) + (256 * q + n % 256)) by (nonlinear_arith);
    }
}

proof fn lemma_be_concat_split(h: nat, t: Seq<u8>)
    ensures
        be_concat(h, t) == h * pow256(t.len()) + be_concat(0, t),
    decreases t.len(),
{
    if t.len() == 0 {
        assert(h * 1 == h);
    } else {
        let u = t.drop_last();
        lemma_be_concat_split(h, u);
        lemma_pow256_step(u.len());
        let p = pow256(u.len());
        let b = be_concat(0, u);
        assert((h * p + b) * 256 + t.last() == h * (256 * p) + (b * 256 + t.last())) by (nonlinear_arith);
    }
}

proof fn lemma_be_concat_first(h: nat, a: u8, t: Seq<u8>)
    ensures
        be_concat(h, seq![a] + t) == be_concat((h * 256 + a) as nat, t),
    decreases t.len(),
{
    let s = seq![a] + t;
    if t.len() == 0 {
        assert(s.drop_last() =~= Seq::<u8>::empty());
        assert(s.last() == a);
        assert(be_concat(h, s.drop_last()) == h);
    } else {
        lemma_be_concat_first(h, a, t.drop_last());
        assert(s.drop_last() =~= seq![a] + t.drop_last());
        assert(s.last() == t.last());
    }
}

proof fn lemma_width_from_fits(v: nat, from: nat)
    requires
        1 <= from <= 7,
        v + 1 < pow128(7),
    ensures
        v + 1 < pow128(width_from(v, from)),
        width_from(v, from) > from ==> v + 1 >= pow128((width_from(v, from) - 1) as nat),
    decreases 7 - from,
{
    if from < 7 && v + 1 >= pow128(from) {
        lemma_width_from_fits(v, from + 1);
    }
}

/// Reading back what `encode_varint` wrote for a value gives that value and the
/// width it was written in, whatever bytes follow; that width is the smallest
/// from one to seven whose payloads hold the value without reaching all ones.
pub proof fn lemma_varint_round_trip(v: u64, rest: Seq<u8>)
    requires
        encodable(Varint::Value(v)),
    ensures
        varint_result(varint_encoding(Varint::Value(v)) + rest) == Ok::<
            Option<(Varint, usize)>,
            EbmlError,
        >(Some((Varint::Value(v), encoded_width(v as nat) as usize))),
        1 <= encoded_width(v as nat) <= 7,
        v + 1 < pow128(encoded_width(v as nat)),
        encoded_width(v as nat) > 1 ==> v + 1 >= pow128((encoded_width(v as nat) - 1) as nat),
{
    let w = encoded_width(v as nat);
    lemma_width_from_range(v as nat, 1);
    lemma_width_from_fits(v as nat, 1);
    lemma_marker_span(w);
    let m = width_marker(w);
    let p = pow256((w - 1) as nat);
    let n: nat = (pow128(w) + v) as nat;
    let e = be_bytes(n, w);
    lemma_be_bytes_len(n, w);
    lemma_pow256_step((w - 1) as nat);
    // the whole encoding read as a number is n
    lemma_be_concat_be_bytes(0, n, w);
    assert(0 * pow256(w) == 0);
    vstd::arithmetic::div_mod::lemma_small_mod(n, pow256(w));
    let t = e.subrange(1, w as int);
    assert(e =~= seq![e[0]] + t);
    lemma_be_concat_first(0, e[0], t);
    lemma_be_concat_split(e[0] as nat, t);
    lemma_be_concat_bound(0, t, 1);
    let r = be_concat(0, t);
    assert(n == e[0] * p + r);
    assert(m * p <= n < 2 * m * p) by (nonlinear_arith)
        requires
            m * p == pow128(w),
            n == pow128(w) + v,
            v + 1 < pow128(w),
    ;
    assert(m <= e[0] < 2 * m) by (nonlinear_arith)
        requires
            n == e[0] * p + r,
            0 <= r < 1 * p,
            m * p <= n < 2 * m * p,
            p >= 1,
    ;
    assert(varint_width(e[0]) == w);
    // the payload is the value
    lemma_be_concat_split((e[0] - m) as nat, t);
    assert((e[0] - m) * p == e[0] * p - m * p) by (nonlinear_arith);
    assert(varint_payload(e, w) == v);
    let f = e + rest;
    assert(f[0] == e[0]);
    assert(f.subrange(1, w as int) =~= t);
    assert(varint_payload(f, w) == varint_payload(e, w));
}

/// Reading back the "unknown" varint gives it, in one byte.
pub proof fn lemma_unknown_round_trip(rest: Seq<u8>)
    ensures
        varint_result(varint_encoding(Varint::Unknown) + rest) == Ok::<
            Option<(Varint, usize)>,
            EbmlError,
        >(Some((Varint::Unknown, 1))),
{
    let f = varint_encoding(Varint::Unknown) + rest;
    assert(f[0] == 0xFF);
    assert(f.subrange(1, 1) =~= Seq::<u8>::empty());
    reveal_with_fuel(pow128, 2);
}

proof fn lemma_varint_result_extends(bytes: Seq<u8>, more: Seq<u8>)
    ensures
        !(varint_result(bytes) matches Ok(None)) ==> varint_result(bytes + more) == varint_result(
            bytes,
        ),
{
    let f = bytes + more;
    if bytes.len() > 0 {
        assert(f[0] == bytes[0]);
        let w = varint_width(bytes[0]);
        if bytes[0] != 0 && w <= bytes.len() {
            assert(f.subrange(1, w as int) =~= bytes.subrange(1, w as int));
        }
    }
}

proof fn lemma_tag_result_extends(bytes: Seq<u8>, more: Seq<u8>)
    ensures
        !(tag_result(bytes) matches Ok(None)) ==> tag_result(bytes + more) == tag_result(bytes),
        tag_result(bytes) matches Ok(Some((_, _, n))) ==> n <= bytes.len(),
{
    let f = bytes + more;
    lemma_varint_result_extends(bytes, more);
    lemma_varint_width_bound(bytes);
    if let Ok(Some((Varint::Value(_), n))) = varint_result(bytes) {
        let rest = bytes.subrange(n as int, bytes.len() as int);
        assert(f.subrange(n as int, f.len() as int) =~= rest + more);
        lemma_varint_result_extends(rest, more);
        lemma_varint_width_bound(rest);
    }
}

/// Bytes that arrive later never change what the bytes already there decided:
/// where they hold a whole element (or its header, for a container that is
/// unwrapped) or an error, more bytes give the same element, read from the
/// same bytes, or the same error. So the events that a source yields do not
/// depend on how its input was split into pieces.
pub proof fn lemma_space_result_extends(bytes: Seq<u8>, more: Seq<u8>, unwrap: spec_fn(u64) -> bool)
    ensures
        !(space_result(bytes, unwrap) matches Ok(None)) ==> space_result(bytes + more, unwrap)
            == space_result(bytes, unwrap),
        space_result(bytes, unwrap) matches Ok(Some(n)) ==> {
            &&& tag_result(bytes + more) == tag_result(bytes)
            &&& (bytes + more).subrange(0, n as int) == bytes.subrange(0, n as int)
            &&& n <= bytes.len()
        },
{
    lemma_tag_result_extends(bytes, more);
    if let Ok(Some(n)) = space_result(bytes, unwrap) {
        assert((bytes + more).subrange(0, n as int) =~= bytes.subrange(0, n as int));
    }
}

} // verus!
