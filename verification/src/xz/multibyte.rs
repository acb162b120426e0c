//! Integers of variable length: seven bits a byte, the least significant first, with the highest
//! bit set in all bytes but the last.

use vstd::arithmetic::power::{lemma_pow_positive, lemma_pow_strictly_increases, pow};
use vstd::prelude::*;

use crate::error::Error;
use crate::io::{read_u8, Read};

verus! {

/// The largest number that can be encoded.
pub const VALUE_MAX: u64 = 0x7FFF_FFFF_FFFF_FFFF;

/// The largest number of bytes of an encoded number.
pub const SIZE_MAX: usize = 9;

/// How many bytes it takes to encode `value`.
pub open spec fn size_of_value(value: nat) -> nat
    decreases value,
{
    if value < 0x80 {
        1
    } else {
        1 + size_of_value(value / 0x80)
    }
}

/// The encoding of `value`.
pub open spec fn encoded(value: nat) -> Seq<u8>
    decreases value,
{
    if value < 0x80 {
        seq![value as u8]
    } else {
        seq![(value % 0x80 + 0x80) as u8] + encoded(value / 0x80)
    }
}

/// The position of the first byte whose highest bit is not set, or the length.
pub open spec fn last_byte(data: Seq<u8>) -> int
    decreases data.len(),
{
    if data.len() == 0 || data[0] < 0x80 {
        0
    } else {
        1 + last_byte(data.skip(1))
    }
}

/// The number that the low bits of all bytes make up.
pub open spec fn value_of(data: Seq<u8>) -> int
    decreases data.len(),
{
    if data.len() == 0 {
        0
    } else {
        data[0] % 0x80 + 0x80 * value_of(data.skip(1))
    }
}

/// How much the low bits of the byte at position `n` count.
pub open spec fn weight(n: nat) -> int
    decreases n,
{
    if n == 0 {
        1
    } else {
        0x80 * weight((n - 1) as nat)
    }
}

/// The number at the start of `data`.
pub open spec fn parsed(data: Seq<u8>) -> Result<u64, Error> {
    let last = last_byte(data);
    if last < data.len() && last < SIZE_MAX {
        Ok(value_of(data.take(last + 1)) as u64)
    } else if data.len() > SIZE_MAX {
        Err(Error::InvalidData("XZ multibyte integer too large"))
    } else {
        Err(Error::InvalidData("incomplete XZ multibyte integer"))
    }
}

/// The number that comes next from a reader.
pub open spec fn parsed_from(bytes: Seq<u8>) -> Result<u64, Error> {
    let last = last_byte(bytes);
    if last >= SIZE_MAX {
        Err(Error::InvalidData("XZ multibyte integer too long"))
    } else if last >= bytes.len() {
        Err(Error::Eof)
    } else {
        Ok(value_of(bytes.take(last + 1)) as u64)
    }
}

/// The last byte of a number is the first one below 0x80.
pub proof fn lemma_last_byte(data: Seq<u8>)
    ensures
        0 <= last_byte(data) <= data.len(),
        forall|i: int| 0 <= i < last_byte(data) ==> data[i] >= 0x80,
        last_byte(data) < data.len() ==> data[last_byte(data)] < 0x80,
    decreases data.len(),
{
    if data.len() > 0 && data[0] >= 0x80 {
        lemma_last_byte(data.skip(1));
        let l = last_byte(data.skip(1));
        assert forall|i: int| 0 <= i < last_byte(data) implies data[i] >= 0x80 by {
            if i > 0 {
                assert(data.skip(1)[i - 1] >= 0x80);
            }
        }
        if l < data.skip(1).len() {
            assert(data.skip(1)[l] < 0x80);
        }
    }
}

/// The first byte without its highest bit set is the last one of the number.
proof fn lemma_last_byte_is(data: Seq<u8>, n: int)
    requires
        0 <= n <= data.len(),
        forall|i: int| 0 <= i < n ==> data[i] >= 0x80,
    ensures
        n <= last_byte(data),
        n < data.len() && data[n] < 0x80 ==> last_byte(data) == n,
{
    lemma_last_byte(data);
    let l = last_byte(data);
    if l < n {
        assert(data[l] >= 0x80);
    }
}

proof fn lemma_value_push(data: Seq<u8>, byte: u8)
    ensures
        value_of(data.push(byte)) == value_of(data) + (byte % 0x80) * weight(data.len()),
    decreases data.len(),
{
    if data.len() == 0 {
        assert(data.push(byte).skip(1) =~= Seq::<u8>::empty());
        assert(value_of(Seq::<u8>::empty()) == 0);
        assert(value_of(data.push(byte)) == byte % 0x80);
        assert(weight(0) == 1);
    } else {
        assert(data.push(byte).skip(1) =~= data.skip(1).push(byte));
        lemma_value_push(data.skip(1), byte);
        let w = weight((data.len() - 1) as nat);
        let b = (byte % 0x80) as int;
        let v = value_of(data.skip(1));
        assert(0x80 * (v + b * w) == 0x80 * v + b * (0x80 * w)) by (nonlinear_arith);
        assert(value_of(data.push(byte)) == data[0] % 0x80 + 0x80 * value_of(
            data.skip(1).push(byte),
        ));
    }
}

proof fn lemma_value_bounds(data: Seq<u8>)
    ensures
        0 <= value_of(data) < weight(data.len()),
    decreases data.len(),
{
    if data.len() > 0 {
        lemma_value_bounds(data.skip(1));
    }
}

proof fn lemma_weights()
    ensures
        weight(0) == 1,
        weight(1) == 0x80,
        weight(2) == 0x4000,
        weight(3) == 0x20_0000,
        weight(4) == 0x1000_0000,
        weight(5) == 0x8_0000_0000,
        weight(6) == 0x400_0000_0000,
        weight(7) == 0x2_0000_0000_0000,
        weight(8) == 0x100_0000_0000_0000,
        weight(9) == 0x8000_0000_0000_0000,
{
    reveal_with_fuel(weight, 10);
}

/// An encoded number has the size it should have, and reads as itself whatever follows.
pub proof fn lemma_encoded(value: nat, rest: Seq<u8>)
    ensures
        encoded(value).len() == size_of_value(value),
        last_byte(encoded(value) + rest) == size_of_value(value) - 1,
        value_of(encoded(value)) == value,
    decreases value,
{
    let all = encoded(value) + rest;
    if value < 0x80 {
        assert(encoded(value).skip(1) =~= Seq::<u8>::empty());
        assert(value_of(Seq::<u8>::empty()) == 0);
        assert(all[0] == value as u8);
    } else {
        lemma_encoded(value / 0x80, rest);
        assert(all.skip(1) =~= encoded(value / 0x80) + rest);
        assert(encoded(value).skip(1) =~= encoded(value / 0x80));
        assert(all[0] == (value % 0x80 + 0x80) as u8);
        assert(encoded(value)[0] % 0x80 == value % 0x80);
    }
}

proof fn lemma_size_at_most(value: nat, n: nat)
    requires
        n >= 1,
        value < weight(n),
    ensures
        size_of_value(value) <= n,
    decreases n,
{
    if value >= 0x80 {
        if n == 1 {
            lemma_weights();
        } else {
            lemma_size_at_most(value / 0x80, (n - 1) as nat);
        }
    }
}

/// Parsing gives back the number that was encoded, whatever follows it.
pub proof fn lemma_round_trip(value: u64, rest: Seq<u8>)
    requires
        value <= VALUE_MAX,
    ensures
        encoded(value as nat).len() <= SIZE_MAX,
        parsed(encoded(value as nat) + rest) == Ok::<u64, Error>(value),
        parsed_from(encoded(value as nat) + rest) == Ok::<u64, Error>(value),
{
    lemma_encoded(value as nat, rest);
    lemma_weights();
    lemma_size_at_most(value as nat, 9);
    let all = encoded(value as nat) + rest;
    assert(all.take(last_byte(all) + 1) =~= encoded(value as nat));
}

proof fn lemma_next_digit(value: int, i: nat)
    requires
        value >= 0,
        i > 0,
    ensures
        value / pow(0x80, i) == value / 0x80 / pow(0x80, (i - 1) as nat),
{
    lemma_pow_positive(0x80, (i - 1) as nat);
    reveal(pow);
    vstd::arithmetic::div_mod::lemma_div_denominator(value, 0x80, pow(0x80, (i - 1) as nat));
}

/// The low bits of the byte at position `i` of an encoded number are its digit `i` to the base 128,
/// and the highest bit says whether more bytes follow. No byte is wasted.
pub proof fn lemma_encoded_digits(value: nat, i: int)
    requires
        0 <= i < encoded(value).len(),
    ensures
        encoded(value)[i] % 0x80 == value as int / pow(0x80, i as nat) % 0x80,
        encoded(value)[i] >= 0x80 <==> i < encoded(value).len() - 1,
        value < pow(0x80, encoded(value).len()),
        encoded(value).len() > 1 ==> value >= pow(0x80, (encoded(value).len() - 1) as nat),
    decreases value,
{
    reveal(pow);
    let bytes = encoded(value);
    assert(pow(0x80, 0) == 1);
    assert(pow(0x80, 1) == 0x80 * pow(0x80, 0));
    if value >= 0x80 {
        let more = encoded(value / 0x80);
        let n = more.len();
        lemma_encoded(value / 0x80, Seq::empty());
        let j = if i > 0 {
            i - 1
        } else {
            0
        };
        lemma_encoded_digits(value / 0x80, j);
        assert(bytes =~= seq![(value % 0x80 + 0x80) as u8] + more);
        assert(pow(0x80, n + 1) == 0x80 * pow(0x80, n));
        if n > 1 {
            assert(pow(0x80, n) == 0x80 * pow(0x80, (n - 1) as nat));
        }
        if i > 0 {
            assert(bytes[i] == more[i - 1]);
            lemma_next_digit(value as int, i as nat);
        } else {
            assert(bytes[0] == value % 0x80 + 0x80);
        }
    } else {
        assert(bytes[0] == value);
    }
}

/// The number that bytes make up has their low bits as its digits to the base 128, and no others.
pub proof fn lemma_number_digits(data: Seq<u8>, i: int)
    requires
        0 <= i < data.len(),
    ensures
        value_of(data) / pow(0x80, i as nat) % 0x80 == data[i] % 0x80,
        0 <= value_of(data) < pow(0x80, data.len()),
    decreases data.len(),
{
    reveal(pow);
    let n = data.len();
    let rest = data.skip(1);
    assert(pow(0x80, 0) == 1);
    assert(pow(0x80, n) == 0x80 * pow(0x80, (n - 1) as nat));
    if n > 1 {
        let j = if i > 0 {
            i - 1
        } else {
            0
        };
        lemma_number_digits(rest, j);
    } else {
        assert(value_of(rest) == 0);
    }
    if i > 0 {
        lemma_next_digit(value_of(data), i as nat);
        assert(value_of(data) / 0x80 == value_of(rest));
        assert(rest[i - 1] == data[i]);
    } else {
        assert(value_of(data) / pow(0x80, 0) == value_of(data));
        assert(value_of(data) == data[0] % 0x80 + 0x80 * value_of(rest));
        assert(value_of(data) % 0x80 == data[0] % 0x80);
    }
}

/// A number ends with the first byte below 0x80, and that has to be among the first nine. Its
/// digits to the base 128 are the low bits of the bytes up to there, the lowest first.
pub proof fn lemma_parsed_digits(data: Seq<u8>, last: int, i: int)
    requires
        0 <= i <= last < data.len(),
        forall|k: int| 0 <= k < last ==> #[trigger] data[k] >= 0x80,
        data[last] < 0x80,
    ensures
        last < 9 ==> {
            &&& parsed(data) is Ok
            &&& parsed(data)->Ok_0 as int / pow(0x80, i as nat) % 0x80 == data[i] % 0x80
            &&& parsed(data)->Ok_0 < pow(0x80, (last + 1) as nat)
            &&& parsed_from(data) == parsed(data)
        },
        last >= 9 ==> parsed(data) is Err && parsed_from(data) is Err,
{
    lemma_last_byte_is(data, last);
    if last < 9 {
        let digits = data.take(last + 1);
        lemma_number_digits(digits, i);
        lemma_weights();
        lemma_value_bounds(digits);
        assert(pow(0x80, 9) == 0x8000_0000_0000_0000) by {
            reveal_with_fuel(pow, 10);
        }
        if last < 8 {
            lemma_pow_strictly_increases(0x80, (last + 1) as nat, 9);
        }
    }
}

/// Bytes among which none is below 0x80 are no number.
pub proof fn lemma_unfinished_is_refused(data: Seq<u8>)
    requires
        forall|k: int| 0 <= k < data.len() ==> #[trigger] data[k] >= 0x80,
    ensures
        parsed(data) is Err,
        parsed_from(data) is Err,
{
    lemma_last_byte(data);
}

/// Parse XZ multibyte integer (variable length encoding).
pub fn parse_multibyte_integer(data: &[u8]) -> (result: Result<u64, Error>)
    ensures
        result == parsed(data@),
{
    let mut total: u64 = 0;
    let mut scale: u64 = 1;
    let mut i: usize = 0;
    proof {
        lemma_weights();
    }
    while i < data.len()
        invariant
            i <= data@.len(),
            i <= SIZE_MAX,
            scale == weight(i as nat),
            total == value_of(data@.take(i as int)),
            forall|j: int| 0 <= j < i ==> data@[j] >= 0x80,
        decreases data@.len() - i,
    {
        if i >= SIZE_MAX {
            proof {
                lemma_last_byte_is(data@, i as int);
            }
            return Err(Error::InvalidData("XZ multibyte integer too large"));
        }
        let byte: u8 = data[i];
        let low: u64 = (byte % 0x80) as u64;
        proof {
            lemma_weights();
            lemma_value_bounds(data@.take(i as int));
            lemma_value_push(data@.take(i as int), byte);
            assert(data@.take(i as int).push(byte) =~= data@.take(i + 1));
            lemma_value_bounds(data@.take(i + 1));
            assert(low * scale <= 0x7F * scale) by (nonlinear_arith)
                requires
                    low <= 0x7F,
                    scale >= 0,
            ;
        }
        total = total + low * scale;
        if byte < 0x80 {
            proof {
                lemma_last_byte_is(data@, i as int);
            }
            return Ok(total);
        }
        scale = scale * 0x80;
        i += 1;
    }
    proof {
        lemma_last_byte_is(data@, i as int);
        lemma_last_byte(data@);
    }
    Err(Error::InvalidData("incomplete XZ multibyte integer"))
}

/// Count the number of bytes used by a multibyte integer.
pub fn count_multibyte_integer_size(data: &[u8]) -> (size: usize)
    ensures
        size == if last_byte(data@) < data@.len() {
            last_byte(data@) + 1
        } else {
            data@.len() as int
        },
{
    let mut i: usize = 0;
    while i < data.len()
        invariant
            i <= data@.len(),
            forall|j: int| 0 <= j < i ==> data@[j] >= 0x80,
        decreases data@.len() - i,
    {
        if data[i] < 0x80 {
            proof {
                lemma_last_byte_is(data@, i as int);
            }
            return i + 1;
        }
        i += 1;
    }
    proof {
        lemma_last_byte_is(data@, i as int);
        lemma_last_byte(data@);
    }
    data.len()
}

/// Parse multibyte integer directly.
pub fn parse_multibyte_integer_from_reader<R: Read>(reader: &mut R) -> (result: Result<u64, Error>)
    ensures
        final(reader).errors() == old(reader).errors(),
        match result {
            Ok(value) => {
                let bytes = old(reader).remaining();
                &&& parsed_from(bytes) == Ok::<u64, Error>(value)
                &&& final(reader).remaining() == bytes.skip(last_byte(bytes) + 1)
            },
            Err(error) => old(reader).errors().contains(error) || {
                let bytes = old(reader).remaining();
                &&& parsed_from(bytes) == Err::<u64, Error>(error)
                &&& last_byte(bytes) >= SIZE_MAX ==> final(reader).remaining() == bytes.skip(
                    SIZE_MAX as int,
                )
            },
        },
{
    let mut total: u64 = 0;
    let mut scale: u64 = 1;
    let mut i: usize = 0;
    let ghost bytes = reader.remaining();
    proof {
        lemma_weights();
        assert(bytes.skip(0) =~= bytes);
    }
    // At most nine bytes for a value of 63 bits.
    while i < SIZE_MAX
        invariant
            i <= SIZE_MAX,
            i <= bytes.len(),
            bytes == old(reader).remaining(),
            reader.remaining() == bytes.skip(i as int),
            reader.errors() == old(reader).errors(),
            scale == weight(i as nat),
            total == value_of(bytes.take(i as int)),
            forall|j: int| 0 <= j < i ==> bytes[j] >= 0x80,
        decreases SIZE_MAX - i,
    {
        let byte: u8 = match read_u8(reader) {
            Ok(byte) => byte,
            Err(error) => {
                proof {
                    lemma_last_byte_is(bytes, i as int);
                    lemma_last_byte(bytes);
                }
                return Err(error);
            },
        };
        let low: u64 = (byte % 0x80) as u64;
        proof {
            lemma_weights();
            lemma_value_bounds(bytes.take(i as int));
            lemma_value_push(bytes.take(i as int), byte);
            assert(bytes.take(i as int).push(byte) =~= bytes.take(i + 1));
            lemma_value_bounds(bytes.take(i + 1));
            assert(bytes.skip(i as int).skip(1) =~= bytes.skip(i + 1));
            assert(low * scale <= 0x7F * scale) by (nonlinear_arith)
                requires
                    low <= 0x7F,
                    scale >= 0,
            ;
        }
        total = total + low * scale;
        if byte < 0x80 {
            proof {
                lemma_last_byte_is(bytes, i as int);
            }
            return Ok(total);
        }
        scale = scale * 0x80;
        i += 1;
    }
    proof {
        lemma_last_byte_is(bytes, i as int);
    }
    Err(Error::InvalidData("XZ multibyte integer too long"))
}

/// Count the number of bytes needed to encode a multibyte integer value.
pub fn count_multibyte_integer_size_for_value(value: u64) -> (size: usize)
    ensures
        size == size_of_value(value as nat),
{
    let mut left: u64 = value;
    let mut count: usize = 1;
    proof {
        lemma_size_of_any(value);
    }
    while left >= 0x80
        invariant
            count + size_of_value(left as nat) == 1 + size_of_value(value as nat),
            size_of_value(value as nat) <= 10,
        decreases left,
    {
        left = left / 0x80;
        count += 1;
    }
    count
}

proof fn lemma_size_of_any(value: u64)
    ensures
        size_of_value(value as nat) <= 10,
{
    lemma_weights();
    assert(weight(10) == 0x80 * weight(9));
    lemma_size_at_most(value as nat, 10);
}

/// Encode a multibyte integer into a buffer. What does not fit is left out.
pub fn encode_multibyte_integer(value: u64, buf: &mut [u8]) -> (result: Result<usize, Error>)
    ensures
        match result {
            Ok(size) => {
                let code = encoded(value as nat);
                &&& value <= VALUE_MAX
                &&& size == if code.len() < old(buf)@.len() {
                    code.len()
                } else {
                    old(buf)@.len()
                }
                &&& final(buf)@ == code.take(size as int) + old(buf)@.skip(size as int)
            },
            Err(error) => {
                &&& error == Error::InvalidData("value too big to encode")
                &&& value > VALUE_MAX
                &&& final(buf)@ == old(buf)@
            },
        },
{
    if value > u64::MAX / 2 {
        return Err(Error::InvalidData("value too big to encode"));
    }
    let mut left: u64 = value;
    let mut i: usize = 0;
    let ghost code = encoded(value as nat);
    assert(Seq::<u8>::empty() + code =~= code);
    assert(code.take(0) =~= Seq::<u8>::empty());
    assert(old(buf)@ =~= code.take(0) + old(buf)@.skip(0));
    while left >= 0x80 && i < buf.len()
        invariant
            i <= buf@.len(),
            buf@.len() == old(buf)@.len(),
            i < code.len(),
            code == code.take(i as int) + encoded(left as nat),
            buf@ == code.take(i as int) + old(buf)@.skip(i as int),
        decreases left,
    {
        let ghost before = code.take(i as int);
        proof {
            lemma_encoded((left / 0x80) as nat, Seq::empty());
        }
        buf[i] = (left % 0x80 + 0x80) as u8;
        proof {
            assert(code[i as int] == encoded(left as nat)[0]);
            assert(code.take(i + 1) =~= before.push(code[i as int]));
            assert(buf@ =~= code.take(i + 1) + old(buf)@.skip(i + 1));
            assert(code =~= code.take(i + 1) + encoded((left / 0x80) as nat));
        }
        left = left / 0x80;
        i += 1;
    }
    if i < buf.len() {
        buf[i] = left as u8;
        proof {
            assert(code[i as int] == encoded(left as nat)[0]);
            assert(code.take(i + 1) =~= code.take(i as int).push(code[i as int]));
            assert(buf@ =~= code.take(i + 1) + old(buf)@.skip(i + 1));
        }
        i += 1;
    }
    Ok(i)
}

/// What is encoded into a buffer that is large enough is parsed back from it, and counted right.
pub proof fn lemma_encode_then_parse(
    value: u64,
    buf: &mut [u8],
    written: Result<usize, Error>,
    data: &[u8],
    parsed_back: Result<u64, Error>,
    counted: usize,
    counted_before: usize,
)
    requires
        old(buf)@.len() >= 9,
        call_ensures(encode_multibyte_integer, (value, buf), written),
        data@ == final(buf)@,
        call_ensures(parse_multibyte_integer, (data,), parsed_back),
        call_ensures(count_multibyte_integer_size, (data,), counted),
        call_ensures(count_multibyte_integer_size_for_value, (value,), counted_before),
    ensures
        written is Ok <==> value < 0x8000_0000_0000_0000,
        written is Ok ==> {
            &&& parsed_back == Ok::<u64, Error>(value)
            &&& counted == written->Ok_0
            &&& counted_before == written->Ok_0
            &&& final(buf)@.skip(counted as int) == old(buf)@.skip(counted as int)
        },
{
    if written is Ok {
        let code = encoded(value as nat);
        let n = code.len() as int;
        lemma_round_trip(value, old(buf)@.skip(n));
        lemma_encoded(value as nat, old(buf)@.skip(n));
        assert(code.take(n) =~= code);
        assert(final(buf)@ =~= code + old(buf)@.skip(n));
        assert(final(buf)@.skip(n) =~= old(buf)@.skip(n));
    }
}

/// The bytes that are encoded hold the digits of the number to the base 128, the lowest first, and
/// all but the last have their highest bit set.
pub proof fn lemma_encode_writes_digits(
    value: u64,
    buf: &mut [u8],
    written: Result<usize, Error>,
    i: int,
)
    requires
        old(buf)@.len() >= 9,
        call_ensures(encode_multibyte_integer, (value, buf), written),
        written is Ok,
        0 <= i < written->Ok_0,
    ensures
        final(buf)@[i] % 0x80 == value as int / pow(0x80, i as nat) % 0x80,
        final(buf)@[i] >= 0x80 <==> i < written->Ok_0 - 1,
        value < pow(0x80, written->Ok_0 as nat),
{
    let code = encoded(value as nat);
    lemma_round_trip(value, Seq::empty());
    lemma_encoded_digits(value as nat, i);
    assert(code.take(code.len() as int) =~= code);
}

/// A number is parsed from its digits to the base 128, which end with the first byte below 0x80.
pub proof fn lemma_parse_reads_digits(data: &[u8], last: int, i: int, result: Result<u64, Error>)
    requires
        call_ensures(parse_multibyte_integer, (data,), result),
        0 <= i <= last < data@.len(),
        forall|k: int| 0 <= k < last ==> #[trigger] data@[k] >= 0x80,
        data@[last] < 0x80,
    ensures
        result is Ok <==> last < 9,
        result is Ok ==> result->Ok_0 as int / pow(0x80, i as nat) % 0x80 == data@[i] % 0x80,
        result is Ok ==> result->Ok_0 < pow(0x80, (last + 1) as nat),
{
    lemma_parsed_digits(data@, last, i);
}

} // verus!
