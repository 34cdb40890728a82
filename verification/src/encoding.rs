//! Script numbers and data pushes as bytes.
//!
//! The byte formats are those of the `bitcoin` crate; this module states them
//! as functions on sequences and reaches the crate's encoders through small
//! trusted functions.

use vstd::prelude::*;
use bitcoin::script::{PushBytes, ScriptBuf};

verus! {

/// The value of `bytes` read as a little-endian natural number.
pub open spec fn le_value(bytes: Seq<u8>) -> nat
    decreases bytes.len(),
{
    if bytes.len() == 0 {
        0
    } else {
        bytes[0] as nat + 256 * le_value(bytes.skip(1))
    }
}

/// The little-endian bytes of `m`, without leading zero bytes at the high end.
pub open spec fn magnitude_bytes(m: nat) -> Seq<u8>
    decreases m,
{
    if m == 0 {
        Seq::<u8>::empty()
    } else {
        seq![(m % 256) as u8] + magnitude_bytes(m / 256)
    }
}

/// The weight of the sign bit in a script number of `len` bytes.
pub open spec fn sign_weight(len: nat) -> int {
    if len == 1 {
        0x80
    } else if len == 2 {
        0x8000
    } else if len == 3 {
        0x80_0000
    } else {
        0x8000_0000
    }
}

/// The minimal script-number encoding of `n`: sign and magnitude, little
/// endian, the sign in the high bit of the last byte. Zero is the empty
/// sequence.
pub open spec fn scriptint_bytes(n: int) -> Seq<u8> {
    if n == 0 {
        Seq::<u8>::empty()
    } else {
        let mag = magnitude_bytes((if n < 0 { -n } else { n }) as nat);
        let top = mag[mag.len() - 1];
        if top >= 0x80 {
            mag.push(if n < 0 { 0x80u8 } else { 0u8 })
        } else {
            mag.update(mag.len() - 1, if n < 0 { (top + 0x80) as u8 } else { top })
        }
    }
}

/// The number that `bytes` stand for as a minimally encoded script number of
/// at most four bytes, and `None` where they are longer or not minimal.
pub open spec fn scriptint_value(bytes: Seq<u8>) -> Option<int> {
    let n = bytes.len();
    if n == 0 {
        Some(0)
    } else if n > 4 {
        None
    } else {
        let last = bytes[n - 1];
        if (last == 0 || last == 0x80) && (n == 1 || bytes[n - 2] < 0x80) {
            None
        } else if last >= 0x80 {
            Some(sign_weight(n) - le_value(bytes))
        } else {
            Some(le_value(bytes) as int)
        }
    }
}

/// The bytes that announce a data push of `len` bytes: the shortest of the
/// four forms the script format has.
pub open spec fn push_header(len: nat) -> Seq<u8> {
    if len < 0x4c {
        seq![len as u8]
    } else if len < 0x100 {
        seq![0x4cu8, len as u8]
    } else if len < 0x1_0000 {
        seq![0x4du8, (len % 0x100) as u8, (len / 0x100) as u8]
    } else {
        seq![
            0x4eu8,
            (len % 0x100) as u8,
            ((len / 0x100) % 0x100) as u8,
            ((len / 0x1_0000) % 0x100) as u8,
            (len / 0x100_0000) as u8,
        ]
    }
}

/// A data push of `data` as script bytes.
pub open spec fn push_encoding(data: Seq<u8>) -> Seq<u8> {
    push_header(data.len()) + data
}

/// Two hundred and fifty-six to the power `k`.
pub open spec fn radix_power(k: nat) -> nat
    decreases k,
{
    if k == 0 {
        1
    } else {
        256 * radix_power((k - 1) as nat)
    }
}

/// A magnitude below 256^k takes at most `k` bytes.
pub proof fn lemma_magnitude_len(m: nat, k: nat)
    requires
        m < radix_power(k),
    ensures
        magnitude_bytes(m).len() <= k,
        m > 0 ==> magnitude_bytes(m).len() > 0,
    decreases m,
{
    if m > 0 {
        if k == 0 {
        } else {
            lemma_magnitude_len(m / 256, (k - 1) as nat);
        }
    }
}

/// The encoding of a 64-bit number other than the least one takes at most
/// nine bytes, and none only for zero.
pub proof fn lemma_scriptint_len(n: int)
    requires
        i64::MIN < n <= i64::MAX,
    ensures
        scriptint_bytes(n).len() <= 9,
        n != 0 ==> scriptint_bytes(n).len() > 0,
{
    if n != 0 {
        let m = (if n < 0 {
            -n
        } else {
            n
        }) as nat;
        reveal_with_fuel(radix_power, 9);
        assert(radix_power(8) == 0x1_0000_0000_0000_0000);
        lemma_magnitude_len(m, 8);
    }
}

/// A little-endian value of up to four bytes, written out byte by byte.
pub proof fn lemma_le_value_short(bytes: Seq<u8>)
    requires
        bytes.len() <= 4,
    ensures
        bytes.len() == 0 ==> le_value(bytes) == 0,
        bytes.len() == 1 ==> le_value(bytes) == bytes[0],
        bytes.len() == 2 ==> le_value(bytes) == bytes[0] + 0x100 * bytes[1],
        bytes.len() == 3 ==> le_value(bytes) == bytes[0] + 0x100 * bytes[1] + 0x1_0000 * bytes[2],
        bytes.len() == 4 ==> le_value(bytes) == bytes[0] + 0x100 * bytes[1] + 0x1_0000 * bytes[2]
            + 0x100_0000 * bytes[3],
    decreases bytes.len(),
{
    if bytes.len() > 0 {
        let rest = bytes.skip(1);
        lemma_le_value_short(rest);
        assert(forall|i: int| 0 <= i < rest.len() ==> rest[i] == bytes[i + 1]);
    }
}

/// A script number of at most four bytes lies strictly between -2^31 and
/// 2^31.
pub proof fn lemma_scriptint_value_range(bytes: Seq<u8>)
    ensures
        match scriptint_value(bytes) {
            Some(v) => -0x7fff_ffff <= v <= 0x7fff_ffff,
            None => true,
        },
{
    if bytes.len() <= 4 {
        lemma_le_value_short(bytes);
    }
}

/// The bytes of a magnitude below 2^32, written out by its size.
pub proof fn lemma_magnitude_short(m: nat)
    requires
        m < 0x1_0000_0000,
    ensures
        m == 0 ==> magnitude_bytes(m) == Seq::<u8>::empty(),
        0 < m < 0x100 ==> magnitude_bytes(m) == seq![m as u8],
        0x100 <= m < 0x1_0000 ==> magnitude_bytes(m) == seq![(m % 256) as u8, (m / 256) as u8],
        0x1_0000 <= m < 0x100_0000 ==> magnitude_bytes(m) == seq![
            (m % 256) as u8,
            ((m / 256) % 256) as u8,
            (m / 0x1_0000) as u8,
        ],
        0x100_0000 <= m ==> magnitude_bytes(m) == seq![
            (m % 256) as u8,
            ((m / 256) % 256) as u8,
            ((m / 0x1_0000) % 256) as u8,
            (m / 0x100_0000) as u8,
        ],
    decreases m,
{
    if m > 0 {
        let rest = m / 256;
        lemma_magnitude_short(rest);
        assert(magnitude_bytes(m) == seq![(m % 256) as u8] + magnitude_bytes(rest));
        assert(rest / 256 == m / 0x1_0000);
        assert(rest / 0x1_0000 == m / 0x100_0000);
        if m < 0x100 {
            assert(seq![(m % 256) as u8] + Seq::<u8>::empty() =~= seq![m as u8]);
        } else if m < 0x1_0000 {
            assert(seq![(m % 256) as u8] + seq![rest as u8] =~= seq![
                (m % 256) as u8,
                (m / 256) as u8,
            ]);
        } else if m < 0x100_0000 {
            assert(seq![(m % 256) as u8] + seq![(rest % 256) as u8, (rest / 256) as u8] =~= seq![
                (m % 256) as u8,
                ((m / 256) % 256) as u8,
                (m / 0x1_0000) as u8,
            ]);
        } else {
            assert(seq![(m % 256) as u8] + seq![
                (rest % 256) as u8,
                ((rest / 256) % 256) as u8,
                (rest / 0x1_0000) as u8,
            ] =~= seq![
                (m % 256) as u8,
                ((m / 256) % 256) as u8,
                ((m / 0x1_0000) % 256) as u8,
                (m / 0x100_0000) as u8,
            ]);
        }
    }
}

/// A number that fits four bytes of sign and magnitude is read back from
/// its encoding: reading is the inverse of writing there. Beyond that range
/// the encoding is longer than four bytes and is not read as a number.
pub proof fn lemma_scriptint_round_trip(n: int)
    requires
        -0x7fff_ffff <= n <= 0x7fff_ffff,
    ensures
        scriptint_value(scriptint_bytes(n)) == Some(n),
        scriptint_bytes(n).len() <= 4,
{
    if n != 0 {
        let m = (if n < 0 {
            -n
        } else {
            n
        }) as nat;
        lemma_magnitude_short(m);
        let mag = magnitude_bytes(m);
        let bytes = scriptint_bytes(n);
        lemma_le_value_short(bytes);
        if m < 0x80 {
        } else if m < 0x100 {
        } else if m < 0x8000 {
        } else if m < 0x1_0000 {
        } else if m < 0x80_0000 {
        } else if m < 0x100_0000 {
        } else {
        }
    }
}

/// Calls `bitcoin::script::write_scriptint` and hands back the bytes it
/// wrote. Trusted: that those bytes are `scriptint_bytes(n)`. The crate's
/// function writes past its buffer for `i64::MIN`, which is left out.
#[verifier::external_body]
pub(crate) fn write_scriptint(n: i64) -> (out: Vec<u8>)
    requires
        n != i64::MIN,
    ensures
        out@ == scriptint_bytes(n as int),
{
    let mut buf = [0u8; 8];
    let len = bitcoin::script::write_scriptint(&mut buf, n);
    buf[..len].to_vec()
}

/// Calls `bitcoin::script::read_scriptint`. Trusted: that it accepts exactly
/// the byte strings on which `scriptint_value` is defined and returns that
/// value.
#[verifier::external_body]
pub(crate) fn read_scriptint(bytes: &[u8]) -> (out: Option<i64>)
    ensures
        out == match scriptint_value(bytes@) {
            Some(v) => Some(v as i64),
            None => None,
        },
{
    bitcoin::script::read_scriptint(bytes).ok()
}

/// Calls `bitcoin::script::ScriptBuf::push_slice` on an empty script and
/// hands back the script's bytes. Trusted: that they are the shortest push
/// header for the length of `data`, followed by `data`.
#[verifier::external_body]
pub(crate) fn encode_push(data: &[u8]) -> (out: Vec<u8>)
    requires
        data@.len() < 0x1_0000_0000,
    ensures
        out@ == push_encoding(data@),
{
    let mut script = ScriptBuf::new();
    script.push_slice(<&PushBytes>::try_from(data).unwrap());
    script.into_bytes()
}

} // verus!
