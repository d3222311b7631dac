//! Kernel device-number identity: the (major, minor) pair, its text
//! form `"MAJ:MIN"`, its sysfs path, and its derivation from a raw
//! file-status record.

use vstd::prelude::*;

use crate::errors::InstallerError;
use crate::strutil::{
    all_digits, contains_seq, dec_digits, digits_to_nat, is_digit, lemma_concat_contains_suffix,
    lemma_dec_digits_roundtrip, lemma_dec_digits_wf, parse_u32_range, parse_u32_spec, str_eq,
    u32_to_string,
};

verus! {

use vstd::string::StrSliceExecFns;
use vstd::string::StringExecFns;

/// The kernel's major:minor device-number identity.
/// Equality is exact-tuple.
#[derive(Debug, Clone, Copy, PartialEq, Eq, Structural)]
pub struct MajMin {
    pub maj: u32,
    pub min: u32,
}

/// The transport a block device is attached through.
#[derive(Debug, Clone, Copy, PartialEq, Eq, Structural)]
pub enum BlkTransport {
    Sata,
    Nvme,
}

/// `s` has the shape `MAJ:MIN` with the colon at position `i`: a
/// non-empty run of decimal digits on each side and nothing else.
pub open spec fn majmin_shape(s: Seq<char>, i: int) -> bool {
    &&& 1 <= i
    &&& i + 2 <= s.len()
    &&& s[i] == ':'
    &&& all_digits(s.subrange(0, i))
    &&& all_digits(s.subrange(i + 1, s.len() as int))
}

/// The device identity denoted by `s`, if `s` is two decimal runs
/// separated by one colon and both runs fit in 32 bits.
pub open spec fn parse_majmin_spec(s: Seq<char>) -> Option<MajMin> {
    if exists|i: int| majmin_shape(s, i) {
        let i = choose|i: int| majmin_shape(s, i);
        match (
            parse_u32_spec(s.subrange(0, i)),
            parse_u32_spec(s.subrange(i + 1, s.len() as int)),
        ) {
            (Option::Some(maj), Option::Some(min)) => Option::Some(MajMin { maj, min }),
            _ => Option::None,
        }
    } else {
        Option::None
    }
}

/// Only one colon position can carry the `MAJ:MIN` shape.
pub proof fn lemma_majmin_shape_unique(s: Seq<char>, i: int, j: int)
    requires
        majmin_shape(s, i),
        majmin_shape(s, j),
    ensures
        i == j,
{
    if i < j {
        assert(s.subrange(0, j)[i] == s[i]);
        assert(is_digit(s[i]));
    }
    if j < i {
        assert(s.subrange(0, i)[j] == s[j]);
        assert(is_digit(s[j]));
    }
}

impl MajMin {
    /// A device identity from its two numbers.
    pub fn new(maj: u32, min: u32) -> (r: MajMin)
        ensures
            r == (MajMin { maj, min }),
    {
        MajMin { maj, min }
    }

    /// The text form of this identity: `"MAJ:MIN"` in decimal.
    pub open spec fn text(self) -> Seq<char> {
        dec_digits(self.maj as nat) + seq![':'] + dec_digits(self.min as nat)
    }

    /// Renders the identity in its text form `"MAJ:MIN"`.
    pub fn to_text(&self) -> (r: String)
        ensures
            r@ == self.text(),
    {
        proof {
            reveal_strlit(":");
        }
        let mut s = u32_to_string(self.maj);
        s.append(":");
        s.append(u32_to_string(self.min).as_str());
        proof {
            assert(dec_digits(self.maj as nat) + ":"@ + dec_digits(self.min as nat)
                =~= self.text());
        }
        s
    }

    /// The canonical sysfs location of this device's metadata:
    /// `/sys/dev/block/MAJ:MIN`.
    pub fn device_path(&self) -> (r: String)
        ensures
            r@ == "/sys/dev/block/"@ + self.text(),
    {
        let mut s = String::new();
        s.append("/sys/dev/block/");
        s.append(self.to_text().as_str());
        proof {
            assert(Seq::<char>::empty() + "/sys/dev/block/"@ + self.text() =~= "/sys/dev/block/"@
                + self.text());
        }
        s
    }

    /// Parses the exact pattern of two decimal runs separated by `:`.
    /// Any other shape, and a run over 32 bits, fails with a parse
    /// error naming the offending string.
    pub fn from_str(s: &str) -> (r: Result<MajMin, InstallerError>)
        ensures
            r is Ok <==> parse_majmin_spec(s@) is Some,
            r is Ok ==> parse_majmin_spec(s@) == Some(r->Ok_0),
            r matches Err(e) ==> e is Parse && contains_seq(e.message_spec(), s@),
    {
        let len = s.unicode_len();
        // find the colon
        let mut i: usize = 0;
        while i < len && s.get_char(i) != ':'
            invariant
                0 <= i <= len,
                len == s@.len(),
                forall|k: int| 0 <= k < i ==> s@[k] != ':',
            decreases len - i,
        {
            i = i + 1;
        }
        if i == 0 || len - i < 2 {
            proof {
                assert forall|j: int| !majmin_shape(s@, j) by {
                    if majmin_shape(s@, j) {
                        assert(s@[j] == ':');
                        assert(j >= i);
                        if i == 0 {
                            assert(s@.subrange(0, j)[0] == s@[0]);
                        }
                    }
                }
            }
            return Err(Self::parse_error(s));
        }
        // every character before the colon must be a digit
        let mut k: usize = 0;
        while k < i
            invariant
                0 <= k <= i,
                1 <= i,
                i < len == s@.len(),
                forall|x: int| 0 <= x < i ==> s@[x] != ':',
                all_digits(s@.subrange(0, k as int)),
            decreases i - k,
        {
            let c = s.get_char(k);
            let cv = c as u32;
            if cv < 48 || cv > 57 {
                proof {
                    lemma_no_shape_bad_left(s@, k as int, i as int);
                }
                return Err(Self::parse_error(s));
            }
            proof {
                assert(s@.subrange(0, (k + 1) as int) =~= s@.subrange(0, k as int).push(
                    s@[k as int],
                ));
            }
            k = k + 1;
        }
        // every character after the colon must be a digit
        let mut k2: usize = i + 1;
        while k2 < len
            invariant
                i + 1 <= k2 <= len,
                1 <= i,
                i < len == s@.len(),
                s@[i as int] == ':',
                forall|x: int| 0 <= x < i ==> s@[x] != ':',
                all_digits(s@.subrange(i + 1, k2 as int)),
            decreases len - k2,
        {
            let c = s.get_char(k2);
            let cv = c as u32;
            if cv < 48 || cv > 57 {
                proof {
                    lemma_no_shape_bad_right(s@, i as int, k2 as int);
                }
                return Err(Self::parse_error(s));
            }
            proof {
                assert(s@.subrange(i + 1, (k2 + 1) as int) =~= s@.subrange(i + 1, k2 as int).push(
                    s@[k2 as int],
                ));
            }
            k2 = k2 + 1;
        }
        proof {
            assert(s@.subrange(0, i as int) =~= s@.subrange(0, i as int));
            assert(majmin_shape(s@, i as int));
            let w = choose|w: int| majmin_shape(s@, w);
            lemma_majmin_shape_unique(s@, w, i as int);
        }
        let maj = match parse_u32_range(s, 0, i) {
            Some(v) => v,
            None => {
                return Err(Self::parse_error(s));
            },
        };
        let min = match parse_u32_range(s, i + 1, len) {
            Some(v) => v,
            None => {
                return Err(Self::parse_error(s));
            },
        };
        Ok(MajMin { maj, min })
    }

    /// The parse error naming the offending string.
    fn parse_error(s: &str) -> (r: InstallerError)
        ensures
            r is Parse,
            contains_seq(r.message_spec(), s@),
    {
        let mut m = String::new();
        m.append("couldn't parse MAJ:MIN from ");
        m.append(s);
        proof {
            assert(m@ =~= "couldn't parse MAJ:MIN from "@ + s@);
            lemma_concat_contains_suffix("couldn't parse MAJ:MIN from "@, s@);
        }
        InstallerError::Parse(m)
    }

    /// Derives the identity from a raw file status, given as the plain
    /// mode word and the two device-number fields of the record. A
    /// block-special file carries its own device number in `rdev`;
    /// any other path uses the number of the filesystem containing it,
    /// in `dev`.
    pub fn from_stat(mode: u32, dev: u64, rdev: u64) -> (r: MajMin)
        ensures
            r == MajMin::from_stat_spec(mode, dev, rdev),
    {
        let chosen: u64 = if mode & 0o170000 == 0o60000 {
            rdev
        } else {
            dev
        };
        let maj64: u64 = ((chosen >> 32) & 0xffff_f000) | ((chosen >> 8) & 0xfff);
        let min64: u64 = ((chosen >> 12) & 0xffff_ff00) | (chosen & 0xff);
        proof {
            assert(((chosen >> 32) & 0xffff_f000) | ((chosen >> 8) & 0xfff) < 0x1_0000_0000) by (bit_vector);
            assert(((chosen >> 12) & 0xffff_ff00) | (chosen & 0xff) < 0x1_0000_0000) by (bit_vector);
        }
        MajMin { maj: maj64 as u32, min: min64 as u32 }
    }

    /// What `from_stat` returns: the major and minor numbers extracted
    /// from the device number the mode word selects, in the layout the
    /// kernel uses for `dev_t`.
    pub open spec fn from_stat_spec(mode: u32, dev: u64, rdev: u64) -> MajMin {
        let chosen = if mode & 0o170000 == 0o60000 {
            rdev
        } else {
            dev
        };
        MajMin {
            maj: (((chosen >> 32) & 0xffff_f000) | ((chosen >> 8) & 0xfff)) as u32,
            min: (((chosen >> 12) & 0xffff_ff00) | (chosen & 0xff)) as u32,
        }
    }
}

proof fn lemma_no_shape_bad_left(s: Seq<char>, k: int, i: int)
    requires
        0 <= k < i < s.len(),
        !is_digit(s[k]),
        forall|x: int| 0 <= x < i ==> s[x] != ':',
    ensures
        forall|j: int| !majmin_shape(s, j),
{
    assert forall|j: int| !majmin_shape(s, j) by {
        if majmin_shape(s, j) {
            assert(s[j] == ':');
            assert(j >= i);
            assert(s.subrange(0, j)[k] == s[k]);
        }
    }
}

proof fn lemma_no_shape_bad_right(s: Seq<char>, i: int, k: int)
    requires
        0 < i < k < s.len(),
        s[i] == ':',
        !is_digit(s[k]),
        forall|x: int| 0 <= x < i ==> s[x] != ':',
    ensures
        forall|j: int| !majmin_shape(s, j),
{
    assert forall|j: int| !majmin_shape(s, j) by {
        if majmin_shape(s, j) {
            assert(s[j] == ':');
            assert(j >= i);
            if j == i {
                assert(s.subrange(i + 1, s.len() as int)[k - i - 1] == s[k]);
            } else {
                // the colon at i would stand inside j's left-hand digit run
                assert(s.subrange(0, j)[i] == s[i]);
            }
        }
    }
}

/// Parsing the text form gives back the identity: for every valid
/// (major, minor) pair, `parse(to_text(mm)) == mm`.
pub proof fn lemma_majmin_text_roundtrip(mm: MajMin)
    ensures
        parse_majmin_spec(mm.text()) == Some(mm),
{
    let left = dec_digits(mm.maj as nat);
    let right = dec_digits(mm.min as nat);
    let s = mm.text();
    lemma_dec_digits_wf(mm.maj as nat);
    lemma_dec_digits_wf(mm.min as nat);
    lemma_dec_digits_roundtrip(mm.maj as nat);
    lemma_dec_digits_roundtrip(mm.min as nat);
    let i = left.len() as int;
    assert(s.subrange(0, i) =~= left);
    assert(s.subrange(i + 1, s.len() as int) =~= right);
    assert(s[i] == ':');
    assert(majmin_shape(s, i));
    let w = choose|w: int| majmin_shape(s, w);
    lemma_majmin_shape_unique(s, w, i);
    assert(parse_u32_spec(left) == Some(mm.maj));
    assert(parse_u32_spec(right) == Some(mm.min));
}

impl BlkTransport {
    /// Parses a transport name: `"nvme"` or `"sata"`; anything else is
    /// a parse error.
    pub fn from_str(s: &str) -> (r: Result<BlkTransport, InstallerError>)
        ensures
            r is Ok <==> (s@ == "nvme"@ || s@ == "sata"@),
            s@ == "nvme"@ ==> r == Ok::<BlkTransport, InstallerError>(BlkTransport::Nvme),
            s@ == "sata"@ ==> r == Ok::<BlkTransport, InstallerError>(BlkTransport::Sata),
            r is Err ==> r->Err_0 is Parse,
    {
        proof {
            reveal_strlit("nvme");
            reveal_strlit("sata");
            assert(("nvme"@)[0] == 'n' && ("sata"@)[0] == 's');
        }
        if str_eq(s, "nvme") {
            Ok(BlkTransport::Nvme)
        } else if str_eq(s, "sata") {
            Ok(BlkTransport::Sata)
        } else {
            let mut m = String::new();
            m.append("unknown transport type ");
            m.append(s);
            Err(InstallerError::Parse(m))
        }
    }
}

} // verus!
