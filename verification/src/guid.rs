//! GUID text parsing in the mixed-endian layout of on-disk partition
//! tables: the first three groups are stored least significant byte
//! first, the final two big-endian.

use vstd::prelude::*;

use crate::errors::InstallerError;
use crate::strutil::is_digit;

verus! {

use vstd::array::ArrayAdditionalExecFns;
use vstd::string::StrSliceExecFns;
use vstd::string::StringExecFns;

/// A 128-bit GUID in its on-disk byte order.
#[derive(Debug, Clone, Copy)]
pub struct PartitionGUID {
    pub bytes: [u8; 16],
}

/// A hexadecimal digit, either case.
pub open spec fn is_hex_char(c: char) -> bool {
    is_digit(c) || (65 <= c as u32 <= 70) || (97 <= c as u32 <= 102)
}

/// Numeric value of a hexadecimal digit, either case.
pub open spec fn hex_val(c: char) -> nat
    recommends
        is_hex_char(c),
{
    if is_digit(c) {
        (c as u32 - 48) as nat
    } else if 65 <= c as u32 <= 70 {
        (c as u32 - 55) as nat
    } else {
        (c as u32 - 87) as nat
    }
}

/// `s` with every `'-'` removed.
pub open spec fn strip_dashes(s: Seq<char>) -> Seq<char>
    decreases s.len(),
{
    if s.len() == 0 {
        Seq::empty()
    } else if s.last() == '-' {
        strip_dashes(s.drop_last())
    } else {
        strip_dashes(s.drop_last()).push(s.last())
    }
}

/// GUID text is accepted when, after removing hyphens, exactly 32
/// hexadecimal digits remain.
pub open spec fn guid_text_ok(s: Seq<char>) -> bool {
    let h = strip_dashes(s);
    h.len() == 32 && (forall|k: int| 0 <= k < h.len() ==> is_hex_char(#[trigger] h[k]))
}

/// Which pair of hex digits byte `i` of the mixed-endian value comes
/// from: the four-byte group and the two two-byte groups are stored
/// least significant byte first, the remaining eight bytes in text
/// order.
pub open spec fn guid_pair_index(i: int) -> int {
    if i < 4 {
        3 - i
    } else if i < 6 {
        9 - i
    } else if i < 8 {
        13 - i
    } else {
        i
    }
}

/// The byte denoted by hex-digit pair `p` of `h`.
pub open spec fn hex_pair_val(h: Seq<char>, p: int) -> u8
    recommends
        0 <= p,
        2 * p + 1 < h.len(),
{
    (hex_val(h[2 * p]) * 16 + hex_val(h[2 * p + 1])) as u8
}

/// The sixteen bytes denoted by 32 hex digits, in mixed-endian order.
pub open spec fn guid_bytes(h: Seq<char>) -> Seq<u8>
    recommends
        h.len() == 32,
{
    Seq::new(16, |i: int| hex_pair_val(h, guid_pair_index(i)))
}

/// `vals` holds exactly the numeric values of the hex digits `h`.
pub open spec fn vals_match(vals: Seq<u8>, h: Seq<char>) -> bool {
    vals.len() == h.len() && forall|k: int|
        0 <= k < h.len() ==> is_hex_char(#[trigger] h[k]) && vals[k] as nat == hex_val(h[k])
}

proof fn lemma_vals_match_push(vals: Seq<u8>, h: Seq<char>, v: u8, c: char)
    requires
        vals_match(vals, h),
        is_hex_char(c),
        v as nat == hex_val(c),
    ensures
        vals_match(vals.push(v), h.push(c)),
{
    let h2 = h.push(c);
    assert forall|k: int|
        0 <= k < h2.len() implies is_hex_char(#[trigger] h2[k]) && vals.push(v)[k] as nat
        == hex_val(h2[k]) by {
        if k < h.len() {
            assert(h2[k] == h[k]);
            assert(vals.push(v)[k] == vals[k]);
        }
    }
}

/// A non-dash character of `s` appears in `strip_dashes(s)`.
proof fn lemma_strip_dashes_mem(s: Seq<char>, i: int)
    requires
        0 <= i < s.len(),
        s[i] != '-',
    ensures
        exists|k: int| 0 <= k < strip_dashes(s).len() && strip_dashes(s)[k] == s[i],
    decreases s.len(),
{
    if i == s.len() - 1 {
        let h = strip_dashes(s);
        assert(h[h.len() - 1] == s[i]);
    } else {
        lemma_strip_dashes_mem(s.drop_last(), i);
        let hd = strip_dashes(s.drop_last());
        let k = choose|k: int| 0 <= k < hd.len() && hd[k] == s.drop_last()[i];
        assert(strip_dashes(s)[k] == hd[k]);
    }
}

/// Value of a hexadecimal digit character, if it is one.
fn hex_digit_value(c: char) -> (r: Option<u8>)
    ensures
        r is Some <==> is_hex_char(c),
        r is Some ==> r->Some_0 as nat == hex_val(c),
{
    let cv = c as u32;
    if 48 <= cv && cv <= 57 {
        Some((cv - 48) as u8)
    } else if 65 <= cv && cv <= 70 {
        Some((cv - 55) as u8)
    } else if 97 <= cv && cv <= 102 {
        Some((cv - 87) as u8)
    } else {
        None
    }
}

impl PartitionGUID {
    /// Parses GUID text into its mixed-endian byte form. Hyphens may
    /// stand anywhere; any character that is neither a hyphen nor a
    /// hex digit, and any count of hex digits other than 32, is a
    /// parse error.
    pub fn parse_guid_mixed_endian(guid: &str) -> (r: Result<PartitionGUID, InstallerError>)
        ensures
            r is Ok <==> guid_text_ok(guid@),
            r is Ok ==> r->Ok_0.bytes@ == guid_bytes(strip_dashes(guid@)),
            r is Err ==> r->Err_0 is Parse,
    {
        let len = guid.unicode_len();
        let ghost whole = guid@;
        let mut vals: Vec<u8> = Vec::new();
        let mut i: usize = 0;
        while i < len
            invariant
                0 <= i <= len,
                len == guid@.len(),
                vals_match(vals@, strip_dashes(guid@.subrange(0, i as int))),
            decreases len - i,
        {
            let ghost prefix = guid@.subrange(0, i as int);
            let c = guid.get_char(i);
            proof {
                assert(guid@.subrange(0, (i + 1) as int).drop_last() =~= prefix);
            }
            if c != '-' {
                match hex_digit_value(c) {
                    Some(v) => {
                        let ghost old_vals = vals@;
                        vals.push(v);
                        proof {
                            let newh = strip_dashes(guid@.subrange(0, (i + 1) as int));
                            assert(newh == strip_dashes(prefix).push(c));
                            lemma_vals_match_push(old_vals, strip_dashes(prefix), v, c);
                        }
                    },
                    None => {
                        proof {
                            lemma_strip_dashes_mem(guid@, i as int);
                        }
                        return Err(Self::guid_parse_error(guid));
                    },
                }
            } else {
                proof {
                    assert(strip_dashes(guid@.subrange(0, (i + 1) as int)) == strip_dashes(prefix));
                }
            }
            i = i + 1;
        }
        proof {
            assert(guid@.subrange(0, len as int) =~= guid@);
        }
        if vals.len() != 32 {
            return Err(Self::guid_parse_error(guid));
        }
        let ghost h = strip_dashes(guid@);
        proof {
            assert forall|k: int| 0 <= k < 32 implies #[trigger] vals@[k] < 16 by {
                assert(is_hex_char(h[k]) && vals@[k] as nat == hex_val(h[k]));
            }
        }
        let mut bytes: [u8; 16] = [0u8; 16];
        bytes[0] = vals[6] * 16 + vals[7];
        bytes[1] = vals[4] * 16 + vals[5];
        bytes[2] = vals[2] * 16 + vals[3];
        bytes[3] = vals[0] * 16 + vals[1];
        bytes[4] = vals[10] * 16 + vals[11];
        bytes[5] = vals[8] * 16 + vals[9];
        bytes[6] = vals[14] * 16 + vals[15];
        bytes[7] = vals[12] * 16 + vals[13];
        bytes[8] = vals[16] * 16 + vals[17];
        bytes[9] = vals[18] * 16 + vals[19];
        bytes[10] = vals[20] * 16 + vals[21];
        bytes[11] = vals[22] * 16 + vals[23];
        bytes[12] = vals[24] * 16 + vals[25];
        bytes[13] = vals[26] * 16 + vals[27];
        bytes[14] = vals[28] * 16 + vals[29];
        bytes[15] = vals[30] * 16 + vals[31];
        proof {
            assert(bytes@ =~= guid_bytes(h));
        }
        Ok(PartitionGUID { bytes })
    }

    /// The parse error naming the offending string.
    fn guid_parse_error(s: &str) -> (r: InstallerError)
        ensures
            r is Parse,
    {
        let mut m = String::new();
        m.append("couldn't parse GUID from ");
        m.append(s);
        InstallerError::Parse(m)
    }
}

} // verus!
