//! The partition-table planner: a mathematical model of a GUID
//! Partition Table under construction, first-fit placement with sector
//! alignment, and slot population. Reading a table from a disk and
//! writing one back are the surrounding program's work; the planner
//! decides where every partition goes.

use vstd::prelude::*;

use crate::errors::InstallerError;
use crate::strutil::{contains_seq, lemma_concat_contains_suffix};
use vstd::arithmetic::div_mod::{
    lemma_fundamental_div_mod, lemma_fundamental_div_mod_converse, lemma_mod_division_less_than_divisor,
};

verus! {

use vstd::string::StringExecFns;

/// One planned slot of the table.
#[derive(Debug)]
pub struct GptEntry {
    /// The slot number the entry occupies, starting at 1.
    pub index: u32,
    /// First sector of the partition.
    pub starting_lba: u64,
    /// Last sector of the partition, inclusive.
    pub ending_lba: u64,
    /// The partition-type GUID, in on-disk byte order.
    pub partition_type_guid: [u8; 16],
    /// The partition's own unique GUID.
    pub unique_partition_guid: [u8; 16],
    /// The slot's attribute bits.
    pub attribute_bits: u64,
    /// The partition name downstream lookups match exactly.
    pub partition_name: String,
}

/// The mathematical value of a planned slot.
#[verifier::ext_equal]
pub ghost struct GptEntryView {
    pub index: u32,
    pub starting_lba: u64,
    pub ending_lba: u64,
    pub partition_type_guid: Seq<u8>,
    pub unique_partition_guid: Seq<u8>,
    pub attribute_bits: u64,
    pub partition_name: Seq<char>,
}

/// The mathematical value of a planned slot.
pub open spec fn entry_view(e: GptEntry) -> GptEntryView {
    GptEntryView {
        index: e.index,
        starting_lba: e.starting_lba,
        ending_lba: e.ending_lba,
        partition_type_guid: e.partition_type_guid@,
        unique_partition_guid: e.unique_partition_guid@,
        attribute_bits: e.attribute_bits,
        partition_name: e.partition_name@,
    }
}

impl View for GptEntry {
    type V = GptEntryView;

    open spec fn view(&self) -> GptEntryView {
        entry_view(*self)
    }
}

/// A partition table being planned: the disk's geometry and the slots
/// populated so far.
#[derive(Debug)]
pub struct GptTable {
    /// Bytes per sector of the disk the table is planned for.
    pub sector_size: u64,
    /// The alignment unit, in sectors, that every partition start is
    /// rounded up to.
    pub align: u64,
    /// First sector usable for partitions.
    pub first_usable: u64,
    /// Last sector usable for partitions, inclusive.
    pub last_usable: u64,
    /// The populated slots.
    pub entries: Vec<GptEntry>,
}

/// The mathematical value of a table.
#[verifier::ext_equal]
pub ghost struct GptTableView {
    pub sector_size: u64,
    pub align: u64,
    pub first_usable: u64,
    pub last_usable: u64,
    pub entries: Seq<GptEntryView>,
}

impl View for GptTable {
    type V = GptTableView;

    open spec fn view(&self) -> GptTableView {
        GptTableView {
            sector_size: self.sector_size,
            align: self.align,
            first_usable: self.first_usable,
            last_usable: self.last_usable,
            entries: Seq::new(self.entries@.len(), |i: int| self.entries@[i]@),
        }
    }
}

/// A well-formed table: sane geometry, headroom against arithmetic
/// overflow, and every slot a valid sector range within bounds (an
/// entry's end may overhang the usable span by up to one alignment
/// unit plus one sector, the planner's inclusive-end convention).
pub open spec fn table_wf(t: GptTableView) -> bool {
    &&& 512 <= t.sector_size
    &&& 1 <= t.align
    &&& 1 <= t.first_usable <= t.last_usable
    &&& t.last_usable + 2 * t.align + 2 <= u64::MAX
    &&& forall|i: int|
        0 <= i < t.entries.len() ==> {
            let e = #[trigger] t.entries[i];
            &&& 1 <= e.index <= 128
            &&& t.first_usable <= e.starting_lba
            &&& e.starting_lba <= e.ending_lba
            &&& e.ending_lba <= t.last_usable + t.align + 1
        }
    &&& forall|i: int, j: int|
        0 <= i < j < t.entries.len() ==> (#[trigger] t.entries[i]).index
            != (#[trigger] t.entries[j]).index
}

/// The sector range `[a, b]` intersects the sectors of entry `e`.
pub open spec fn range_overlaps_entry(e: GptEntryView, a: int, b: int) -> bool {
    !(e.ending_lba < a || b < e.starting_lba)
}

/// No populated slot claims any sector of `[a, b]`.
pub open spec fn range_free(t: GptTableView, a: int, b: int) -> bool {
    forall|i: int|
        0 <= i < t.entries.len() ==> !range_overlaps_entry(#[trigger] t.entries[i], a, b)
}

/// A partition of `size` sectors could start at sector `s`: the start
/// is a positive multiple of the alignment unit, the whole range lies
/// in the usable span, and no populated slot claims any of it.
pub open spec fn fits_at(t: GptTableView, size: u64, s: u64) -> bool {
    &&& s % t.align == 0
    &&& t.first_usable <= s
    &&& s + size - 1 <= t.last_usable
    &&& range_free(t, s as int, s + size - 1)
}

/// `s` is the first gap, by ascending start sector, where `size`
/// sectors fit.
pub open spec fn is_first_fit(t: GptTableView, size: u64, s: u64) -> bool {
    &&& fits_at(t, size, s)
    &&& forall|u: u64| u % t.align == 0 && u < s ==> !fits_at(t, size, u)
}

/// The first gap where `size` sectors fit, if any.
pub open spec fn first_fit(t: GptTableView, size: u64) -> Option<u64> {
    if exists|s: u64| is_first_fit(t, size, s) {
        Option::Some(choose|s: u64| is_first_fit(t, size, s))
    } else {
        Option::None
    }
}

/// The first fit is unique.
pub proof fn lemma_first_fit_unique(t: GptTableView, size: u64, s: u64)
    requires
        is_first_fit(t, size, s),
    ensures
        first_fit(t, size) == Some(s),
{
    let w = choose|w: u64| is_first_fit(t, size, w);
    if w < s {
        assert(!fits_at(t, size, w));
    }
    if s < w {
        assert(!fits_at(t, size, s));
    }
}

/// `x` rounded up to the next multiple of `align`.
pub open spec fn spec_round_up(x: u64, align: u64) -> int {
    ((x - 1) as int / align as int + 1) * align as int
}

/// How many sectors a byte count takes, rounding up.
pub open spec fn spec_sector_count(size: u64, sector_size: u64) -> u64
    recommends
        1 <= size,
        1 <= sector_size,
{
    ((size - 1) as int / sector_size as int + 1) as u64
}

/// The rounded value is the least multiple of the alignment unit that
/// is no less than `x`.
pub proof fn lemma_round_up(x: u64, align: u64)
    requires
        1 <= x,
        1 <= align,
    ensures
        spec_round_up(x, align) % (align as int) == 0,
        x <= spec_round_up(x, align) < x + align,
        forall|t: u64| #[trigger] (t % align) == 0 && (t as int) < spec_round_up(x, align) ==> t < x,
{
    let a = align as int;
    let xi = x as int;
    let q = (xi - 1) / a;
    let rem = (xi - 1) % a;
    lemma_fundamental_div_mod(xi - 1, a);
    lemma_mod_division_less_than_divisor(xi - 1, a);
    assert(q >= 0) by {
        vstd::arithmetic::div_mod::lemma_div_pos_is_pos(xi - 1, a);
    }
    let r = (q + 1) * a;
    assert(r == a * q + rem + (a - rem)) by (nonlinear_arith)
        requires
            r == (q + 1) * a,
            xi - 1 == a * q + rem,
    ;
    assert(r % a == 0) by {
        lemma_fundamental_div_mod_converse(r, a, q + 1, 0);
    }
    assert forall|t: u64| #[trigger] (t % align) == 0 && (t as int) < r implies t < x by {
        let ti = t as int;
        lemma_fundamental_div_mod(ti, a);
        let k = ti / a;
        assert(k >= 0) by {
            vstd::arithmetic::div_mod::lemma_div_pos_is_pos(ti, a);
        }
        if ti >= xi {
            assert(a * k >= a * q + rem + 1);
            assert(a * k > a * q) by (nonlinear_arith)
                requires
                    a * k >= a * q + rem + 1,
                    rem >= 0,
            ;
            assert(k > q) by (nonlinear_arith)
                requires
                    a * k > a * q,
                    a >= 1,
            ;
            assert(a * k >= a * (q + 1)) by (nonlinear_arith)
                requires
                    k >= q + 1,
                    a >= 1,
            ;
            assert((q + 1) * a == a * (q + 1)) by (nonlinear_arith);
        }
    }
}

/// Rounds `x` up to the next multiple of `align`.
fn round_up_align(x: u64, align: u64) -> (r: u64)
    requires
        1 <= x,
        1 <= align,
        x + align <= u64::MAX,
    ensures
        r as int == spec_round_up(x, align),
        r % align == 0,
        x <= r < x + align,
{
    proof {
        lemma_round_up(x, align);
    }
    ((x - 1) / align + 1) * align
}

/// Smaller sizes fit wherever larger ones do.
pub proof fn lemma_fits_monotone(t: GptTableView, w: u64, w2: u64, s: u64)
    requires
        fits_at(t, w, s),
        1 <= w2 <= w,
    ensures
        fits_at(t, w2, s),
{
    assert forall|i: int| 0 <= i < t.entries.len() implies !range_overlaps_entry(
        #[trigger] t.entries[i],
        s as int,
        s + w2 - 1,
    ) by {
        assert(!range_overlaps_entry(t.entries[i], s as int, s + w - 1));
    }
}

/// Planning two sequential slots of equal size never overlaps: with
/// the first slot planned into the table, the second slot's first-fit
/// start sector lies strictly beyond the first slot's end sector.
pub proof fn lemma_sequential_plans_disjoint(
    t0: GptTableView,
    t1: GptTableView,
    size: u64,
    s1: u64,
    s2: u64,
)
    requires
        1 <= size,
        t1.align == t0.align,
        t1.first_usable == t0.first_usable,
        t1.last_usable == t0.last_usable,
        is_first_fit(t0, size, s1),
        t1.entries.len() == t0.entries.len() + 1,
        forall|k: int| 0 <= k < t0.entries.len() ==> t1.entries[k] == t0.entries[k],
        t1.entries.last().starting_lba == s1,
        s1 <= t1.entries.last().ending_lba,
        is_first_fit(t1, size, s2),
    ensures
        s2 > t1.entries.last().ending_lba,
        s2 >= t1.entries.last().ending_lba,
{
    let last = t1.entries.last();
    // the second fit would also fit in the table before the first plan
    assert(fits_at(t0, size, s2)) by {
        assert forall|i: int| 0 <= i < t0.entries.len() implies !range_overlaps_entry(
            #[trigger] t0.entries[i],
            s2 as int,
            s2 + size - 1,
        ) by {
            assert(t0.entries[i] == t1.entries[i]);
            assert(!range_overlaps_entry(t1.entries[i], s2 as int, s2 + size - 1));
        }
    }
    // so the first plan's minimality puts it at or after the first start
    if s2 < s1 {
        assert(!fits_at(t0, size, s2));
    }
    // and it avoids the first slot's sectors, which begin at or before it
    assert(!range_overlaps_entry(last, s2 as int, s2 + size - 1));
}

impl GptTable {
    /// A blank table for a disk of `disk_len` bytes with the given
    /// sector size, with the geometry the on-disk layout implies: two
    /// header sectors and the 128-slot, 128-byte-per-entry partition
    /// array reserved at each end of the disk, and the default
    /// alignment unit of 2048 sectors.
    pub fn new_blank(sector_size: u64, disk_len: u64) -> (r: GptTable)
        requires
            512 <= sector_size,
            disk_len / sector_size >= 2 * (16383u64 / sector_size + 1) + 4,
        ensures
            table_wf(r@),
            r@.sector_size == sector_size,
            r@.align == 2048,
            r@.first_usable == 2 + (16383u64 / sector_size + 1),
            r@.last_usable == disk_len / sector_size - (16383u64 / sector_size + 1) - 2,
            r@.entries =~= Seq::<GptEntryView>::empty(),
    {
        let array_sectors = (128 * 128 - 1) / sector_size + 1;
        let len_sectors = disk_len / sector_size;
        let t = GptTable {
            sector_size,
            align: 2048,
            first_usable: 2 + array_sectors,
            last_usable: len_sectors - array_sectors - 2,
            entries: Vec::new(),
        };
        proof {
            assert(disk_len / sector_size <= u64::MAX as int / 512) by {
                vstd::arithmetic::div_mod::lemma_div_is_ordered_by_denominator(
                    disk_len as int,
                    512,
                    sector_size as int,
                );
            }
            assert(t@.entries =~= Seq::<GptEntryView>::empty());
        }
        t
    }

    /// The first gap in the table, by ascending start sector, where
    /// `size` sectors fit, the start aligned to the table's unit; or
    /// nothing, when no gap is large enough.
    pub fn find_first_place(&self, size: u64) -> (r: Option<u64>)
        requires
            table_wf(self@),
            1 <= size,
        ensures
            r == first_fit(self@, size),
    {
        let ghost t = self@;
        proof {
            lemma_round_up(self.first_usable, self.align);
        }
        let mut c = round_up_align(self.first_usable, self.align);
        loop
            invariant
                table_wf(t),
                t == self@,
                1 <= size,
                c % t.align == 0,
                t.first_usable <= c,
                c <= t.last_usable + 2 * t.align + 1,
                forall|u: u64|
                    #[trigger] (u % t.align) == 0 && u < c ==> !fits_at(t, size, u),
            decreases t.last_usable + 2 * t.align + 2 - c,
        {
            if c > self.last_usable || size - 1 > self.last_usable - c {
                proof {
                    assert forall|u: u64| !is_first_fit(t, size, u) by {
                        if fits_at(t, size, u) {
                            assert(u >= c);
                            assert(u + size - 1 > t.last_usable);
                        }
                    }
                }
                return None;
            }
            let mut k: usize = 0;
            let mut hit: Option<usize> = None;
            while k < self.entries.len()
                invariant
                    0 <= k <= self.entries@.len(),
                    t == self@,
                    1 <= size,
                    t.entries.len() == self.entries@.len(),
                    hit is None ==> forall|x: int|
                        0 <= x < k ==> !range_overlaps_entry(
                            #[trigger] t.entries[x],
                            c as int,
                            c + size - 1,
                        ),
                    hit matches Some(h) ==> 0 <= h < t.entries.len() && range_overlaps_entry(
                        t.entries[h as int],
                        c as int,
                        c + size - 1,
                    ),
                    c + size - 1 <= t.last_usable,
                ensures
                    hit is None ==> range_free(t, c as int, c + size - 1),
                    hit matches Some(h) ==> 0 <= h < t.entries.len() && range_overlaps_entry(
                        t.entries[h as int],
                        c as int,
                        c + size - 1,
                    ),
                decreases self.entries@.len() - k,
            {
                proof {
                    assert(t.entries[k as int] == self.entries@[k as int]@);
                }
                if !(self.entries[k].ending_lba < c || c + (size - 1)
                    < self.entries[k].starting_lba) {
                    hit = Some(k);
                    break;
                }
                proof {
                    assert(!range_overlaps_entry(t.entries[k as int], c as int, c + size - 1));
                }
                k = k + 1;
            }
            match hit {
                None => {
                    proof {
                        assert(range_free(t, c as int, c + size - 1));
                        assert(is_first_fit(t, size, c));
                        lemma_first_fit_unique(t, size, c);
                    }
                    return Some(c);
                },
                Some(h) => {
                    let e_end = self.entries[h].ending_lba;
                    proof {
                        assert(t.entries[h as int] == self.entries@[h as int]@);
                        assert(e_end >= c);
                        lemma_round_up((e_end + 1) as u64, self.align);
                    }
                    let ghost old_c = c;
                    c = round_up_align(e_end + 1, self.align);
                    proof {
                        assert forall|u: u64|
                            #[trigger] (u % t.align) == 0 && u < c implies !fits_at(
                            t,
                            size,
                            u,
                        ) by {
                            if u >= old_c {
                                // such a start would still overlap the entry just hit
                                assert(u <= e_end);
                                assert(u + size - 1 >= old_c + size - 1);
                                assert(range_overlaps_entry(
                                    t.entries[h as int],
                                    u as int,
                                    u + size - 1,
                                ));
                            }
                        }
                    }
                },
            }
        }
    }

    /// Populates slot `idx` with a partition of `sec_count` sectors at
    /// the first gap that fits, the start aligned and the end sector
    /// `start + aligned_length + 1` in the table's inclusive
    /// convention. No gap large enough is a "not found" error naming
    /// the label, and leaves the table unchanged.
    pub fn create_partition_sectors(
        &mut self,
        idx: u32,
        label: &str,
        sec_count: u64,
        type_guid: [u8; 16],
        attribute_bits: u64,
    ) -> (r: Result<(), InstallerError>)
        requires
            table_wf(old(self)@),
            1 <= sec_count,
            1 <= idx <= 128,
            forall|i: int|
                0 <= i < old(self)@.entries.len() ==> (#[trigger] old(
                    self,
                )@.entries[i]).index != idx,
        ensures
            table_wf(final(self)@),
            final(self)@.sector_size == old(self)@.sector_size,
            final(self)@.align == old(self)@.align,
            final(self)@.first_usable == old(self)@.first_usable,
            final(self)@.last_usable == old(self)@.last_usable,
            r is Ok <==> first_fit(old(self)@, sec_count) is Some,
            r matches Err(e) ==> final(self)@ == old(self)@ && e is NotFound,
            r is Ok ==> ({
                let s = first_fit(old(self)@, sec_count)->Some_0;
                let e = final(self)@.entries.last();
                &&& final(self)@.entries =~= old(self)@.entries.push(e)
                &&& e.index == idx
                &&& e.starting_lba == s
                &&& e.ending_lba as int == s + spec_round_up(sec_count, old(self)@.align) + 1
                &&& e.partition_type_guid == type_guid@
                &&& e.attribute_bits == attribute_bits
                &&& e.partition_name == label@
            }),
    {
        let ghost t0 = self@;
        let start = match self.find_first_place(sec_count) {
            Some(s) => s,
            None => {
                let mut m = String::new();
                m.append("couldn't find a place for partition ");
                m.append(label);
                proof {
                    assert(self@ =~= t0);
                }
                return Err(InstallerError::NotFound(m));
            },
        };
        proof {
            lemma_first_fit_witness(t0, sec_count);
            lemma_round_up(sec_count, self.align);
        }
        let aligned = round_up_align(sec_count, self.align);
        let mut name = String::new();
        name.append(label);
        let e = GptEntry {
            index: idx,
            starting_lba: start,
            ending_lba: start + aligned + 1,
            partition_type_guid: type_guid,
            unique_partition_guid: crate::rng::generate_random_uuid(),
            attribute_bits,
            partition_name: name,
        };
        let ghost ev = e@;
        self.entries.push(e);
        proof {
            assert(final(self)@.entries =~= t0.entries.push(ev));
            assert(final(self)@.entries.last() == ev);
        }
        Ok(())
    }

    /// Populates slot `idx` with a partition of `size` bytes: the byte
    /// count is converted to sectors, rounding up, and placed as
    /// `create_partition_sectors` places it.
    pub fn create_partition(
        &mut self,
        idx: u32,
        label: &str,
        size: u64,
        type_guid: [u8; 16],
        attribute_bits: u64,
    ) -> (r: Result<(), InstallerError>)
        requires
            table_wf(old(self)@),
            1 <= size,
            1 <= idx <= 128,
            forall|i: int|
                0 <= i < old(self)@.entries.len() ==> (#[trigger] old(
                    self,
                )@.entries[i]).index != idx,
        ensures
            table_wf(final(self)@),
            final(self)@.sector_size == old(self)@.sector_size,
            final(self)@.align == old(self)@.align,
            final(self)@.first_usable == old(self)@.first_usable,
            final(self)@.last_usable == old(self)@.last_usable,
            r is Ok <==> first_fit(old(self)@, spec_sector_count(size, old(self)@.sector_size))
                is Some,
            r matches Err(e) ==> final(self)@ == old(self)@ && e is NotFound,
            r is Ok ==> ({
                let sec = spec_sector_count(size, old(self)@.sector_size);
                let s = first_fit(old(self)@, sec)->Some_0;
                let e = final(self)@.entries.last();
                &&& final(self)@.entries =~= old(self)@.entries.push(e)
                &&& e.index == idx
                &&& e.starting_lba == s
                &&& e.ending_lba as int == s + spec_round_up(sec, old(self)@.align) + 1
                &&& e.partition_type_guid == type_guid@
                &&& e.attribute_bits == attribute_bits
                &&& e.partition_name == label@
            }),
    {
        let sec = (size - 1) / self.sector_size + 1;
        proof {
            vstd::arithmetic::div_mod::lemma_div_nonincreasing(
                (size - 1) as int,
                self.sector_size as int,
            );
            vstd::arithmetic::div_mod::lemma_div_pos_is_pos(
                (size - 1) as int,
                self.sector_size as int,
            );
            assert(sec as int == spec_sector_count(size, self@.sector_size) as int);
        }
        self.create_partition_sectors(idx, label, sec, type_guid, attribute_bits)
    }

    /// The largest aligned sector count that still fits in one gap of
    /// the table; an error when not even one alignment unit fits
    /// anywhere.
    pub fn get_maximum_partition_size(&self) -> (r: Result<u64, InstallerError>)
        requires
            table_wf(self@),
        ensures
            r matches Ok(v) ==> v % self@.align == 0 && 1 <= v && first_fit(self@, v) is Some
                && (forall|w: u64|
                #[trigger] (w % self@.align) == 0 && w > v ==> first_fit(self@, w) is None),
            r is Err <==> first_fit(self@, self@.align) is None,
            r matches Err(e) ==> e is NotFound,
    {
        let ghost t = self@;
        let span = self.last_usable - self.first_usable + 1;
        let q = span / self.align;
        proof {
            lemma_fundamental_div_mod(span as int, self.align as int);
            lemma_mod_division_less_than_divisor(span as int, self.align as int);
            vstd::arithmetic::div_mod::lemma_div_pos_is_pos(span as int, self.align as int);
            assert(q * self.align <= span) by (nonlinear_arith)
                requires
                    span as int == self.align as int * (q as int) + span as int % self.align as int,
                    span as int % self.align as int >= 0,
                    q == span as int / self.align as int,
            ;
        }
        let v0 = q * self.align;
        proof {
            lemma_fundamental_div_mod_converse(v0 as int, self.align as int, q as int, 0);
            assert forall|w: u64|
                #[trigger] (w % t.align) == 0 && w > v0 implies first_fit(t, w) is None by {
                lemma_no_fit_beyond_span(t, w, v0, q);
            }
        }
        let mut v = v0;
        while v >= self.align
            invariant
                table_wf(t),
                t == self@,
                v % t.align == 0,
                v <= v0,
                forall|w: u64| #[trigger] (w % t.align) == 0 && w > v ==> first_fit(t, w) is None,
            decreases v,
        {
            match self.find_first_place(v) {
                Some(_) => {
                    proof {
                        lemma_first_fit_witness(t, v);
                        let s = first_fit(t, v)->Some_0;
                        lemma_fits_monotone(t, v, t.align, s);
                        lemma_first_fit_exists(t, t.align, s);
                    }
                    return Ok(v);
                },
                None => {
                    proof {
                        assert forall|w: u64|
                            #[trigger] (w % t.align) == 0 && w > v - t.align implies first_fit(
                            t,
                            w,
                        ) is None by {
                            if w <= v {
                                lemma_aligned_step(w, v, t.align);
                            }
                        }
                    }
                },
            }
            proof {
                lemma_fundamental_div_mod(v as int, t.align as int);
                let kv = (v as int) / (t.align as int);
                assert((v - t.align) as int == (kv - 1) * (t.align as int) + 0) by (nonlinear_arith)
                    requires
                        v as int == (t.align as int) * kv + (v as int) % (t.align as int),
                        (v as int) % (t.align as int) == 0,
                ;
                lemma_fundamental_div_mod_converse(
                    (v - t.align) as int,
                    t.align as int,
                    kv - 1,
                    0,
                );
            }
            v = v - self.align;
        }
        proof {
            vstd::arithmetic::div_mod::lemma_mod_self_0(t.align as int);
            assert(t.align % t.align == 0);
            assert(first_fit(t, t.align) is None);
        }
        let mut m = String::new();
        m.append("no space left in the table");
        Err(InstallerError::NotFound(m))
    }
}

/// Wherever some start fits, there is a first one.
pub proof fn lemma_first_fit_exists(t: GptTableView, size: u64, s: u64)
    requires
        fits_at(t, size, s),
    ensures
        first_fit(t, size) is Some,
    decreases s,
{
    if forall|u: u64| #[trigger] (u % t.align) == 0 && u < s ==> !fits_at(t, size, u) {
        assert(is_first_fit(t, size, s));
    } else {
        let u = choose|u: u64| #[trigger] (u % t.align) == 0 && u < s && fits_at(t, size, u);
        lemma_first_fit_exists(t, size, u);
    }
}

/// When the first-fit is some start, that start satisfies the
/// first-fit characterization.
pub proof fn lemma_first_fit_witness(t: GptTableView, size: u64)
    requires
        first_fit(t, size) is Some,
    ensures
        is_first_fit(t, size, first_fit(t, size)->Some_0),
{
    assert(exists|s: u64| is_first_fit(t, size, s));
}

/// A fitting size never exceeds the usable span rounded down to the
/// alignment unit.
proof fn lemma_no_fit_beyond_span(t: GptTableView, w: u64, v0: u64, q: u64)
    requires
        table_wf(t),
        w % t.align == 0,
        w > v0,
        v0 == q * t.align,
        q == (t.last_usable - t.first_usable + 1) as int / t.align as int,
    ensures
        first_fit(t, w) is None,
{
    let a = t.align as int;
    let span = (t.last_usable - t.first_usable + 1) as int;
    if first_fit(t, w) is Some {
        let s = choose|s: u64| is_first_fit(t, w, s);
        assert(fits_at(t, w, s));
        // the whole range lies in the span, so w <= span
        assert(w <= span);
        // w is a multiple of the unit no larger than span, so at most v0
        lemma_fundamental_div_mod(w as int, a);
        lemma_fundamental_div_mod(span, a);
        lemma_mod_division_less_than_divisor(span, a);
        let kw = (w as int) / a;
        assert(w as int == a * kw + w as int % a);
        assert(w as int == a * kw) by {
            assert((w as int) % a == 0);
        }
        assert(kw <= q) by (nonlinear_arith)
            requires
                a * kw <= span,
                span == a * (q as int) + span % a,
                0 <= span % a < a,
                a >= 1,
        ;
        assert(a * kw <= a * (q as int)) by (nonlinear_arith)
            requires
                kw <= q as int,
                a >= 1,
        ;
        assert((q as int) * a == a * (q as int)) by (nonlinear_arith);
    }
}

/// The well-known EFI System partition-type GUID, in on-disk
/// mixed-endian byte order (text form `C12A7328-F81F-11D2-BA4B-00A0C93EC93B`).
pub open spec fn efi_system_guid() -> Seq<u8> {
    seq![0x28u8, 0x73, 0x2A, 0xC1, 0x1F, 0xF8, 0xD2, 0x11, 0xBA, 0x4B, 0x00, 0xA0, 0xC9, 0x3E, 0xC9, 0x3B]
}

/// The well-known Linux usr/x86-64 partition-type GUID, mixed-endian
/// (text form `5dfbf5f4-2848-4bac-aa5e-0d9a20b745a6`).
pub open spec fn usr_x86_64_guid() -> Seq<u8> {
    seq![0xF4u8, 0xF5, 0xFB, 0x5D, 0x48, 0x28, 0xAC, 0x4B, 0xAA, 0x5E, 0x0D, 0x9A, 0x20, 0xB7, 0x45, 0xA6]
}

/// The appliance's private CONFIG partition-type GUID, mixed-endian
/// (text form `13307e62-cd9c-4920-8f9b-91b45828b798`).
pub open spec fn config_guid() -> Seq<u8> {
    seq![0x62u8, 0x7E, 0x30, 0x13, 0x9C, 0xCD, 0x20, 0x49, 0x8F, 0x9B, 0x91, 0xB4, 0x58, 0x28, 0xB7, 0x98]
}

/// The appliance's private P3 (persist) partition-type GUID,
/// mixed-endian (text form `5f24425a-2dfa-11e8-a270-7b663faccc2c`).
pub open spec fn p3_guid() -> Seq<u8> {
    seq![0x5Au8, 0x42, 0x24, 0x5F, 0xFA, 0x2D, 0xE8, 0x11, 0xA2, 0x70, 0x7B, 0x66, 0x3F, 0xAC, 0xCC, 0x2C]
}

/// The EFI System partition-type GUID as bytes.
pub fn efi_system_guid_bytes() -> (r: [u8; 16])
    ensures
        r@ == efi_system_guid(),
{
    let r: [u8; 16] = [
        0x28u8, 0x73, 0x2A, 0xC1, 0x1F, 0xF8, 0xD2, 0x11, 0xBA, 0x4B, 0x00, 0xA0, 0xC9, 0x3E, 0xC9,
        0x3B,
    ];
    proof {
        assert(r@ =~= efi_system_guid());
    }
    r
}

/// The Linux usr/x86-64 partition-type GUID as bytes.
pub fn usr_x86_64_guid_bytes() -> (r: [u8; 16])
    ensures
        r@ == usr_x86_64_guid(),
{
    let r: [u8; 16] = [
        0xF4u8, 0xF5, 0xFB, 0x5D, 0x48, 0x28, 0xAC, 0x4B, 0xAA, 0x5E, 0x0D, 0x9A, 0x20, 0xB7, 0x45,
        0xA6,
    ];
    proof {
        assert(r@ =~= usr_x86_64_guid());
    }
    r
}

/// The CONFIG partition-type GUID as bytes.
pub fn config_guid_bytes() -> (r: [u8; 16])
    ensures
        r@ == config_guid(),
{
    let r: [u8; 16] = [
        0x62u8, 0x7E, 0x30, 0x13, 0x9C, 0xCD, 0x20, 0x49, 0x8F, 0x9B, 0x91, 0xB4, 0x58, 0x28, 0xB7,
        0x98,
    ];
    proof {
        assert(r@ =~= config_guid());
    }
    r
}

/// The P3 partition-type GUID as bytes.
pub fn p3_guid_bytes() -> (r: [u8; 16])
    ensures
        r@ == p3_guid(),
{
    let r: [u8; 16] = [
        0x5Au8, 0x42, 0x24, 0x5F, 0xFA, 0x2D, 0xE8, 0x11, 0xA2, 0x70, 0x7B, 0x66, 0x3F, 0xAC, 0xCC,
        0x2C,
    ];
    proof {
        assert(r@ =~= p3_guid());
    }
    r
}

/// The slots lie left to right: each one ends before the next begins,
/// so no two planned slots overlap.
pub open spec fn slots_ordered(t: GptTableView) -> bool {
    forall|i: int, j: int|
        0 <= i < j < t.entries.len() ==> (#[trigger] t.entries[i]).ending_lba
            < (#[trigger] t.entries[j]).starting_lba
}

/// A packed layout, as first-fit planning builds it: the slots lie in
/// order, every slot starts at an aligned sector in the usable span,
/// and no aligned sector below the layout's top was skipped — any
/// aligned sector at or below some slot's end lies inside a slot.
pub open spec fn slots_packed(t: GptTableView) -> bool {
    &&& slots_ordered(t)
    &&& forall|k: int|
        0 <= k < t.entries.len() ==> (#[trigger] t.entries[k]).starting_lba % t.align == 0
            && t.first_usable <= t.entries[k].starting_lba && t.entries[k].starting_lba
            <= t.entries[k].ending_lba
    &&& forall|u: u64, k: int|
        #![trigger u % t.align, t.entries[k]]
        u % t.align == 0 && t.first_usable <= u && 0 <= k < t.entries.len() && u
            <= t.entries[k].ending_lba ==> exists|j: int|
            0 <= j < t.entries.len() && (#[trigger] t.entries[j]).starting_lba <= u
                <= t.entries[j].ending_lba
}

/// Placing one more slot at its first fit keeps the layout packed, and
/// the new slot starts beyond every slot already placed.
pub proof fn lemma_place_keeps_packed(t0: GptTableView, t1: GptTableView, sec: u64, s: u64)
    requires
        1 <= sec,
        slots_packed(t0),
        is_first_fit(t0, sec, s),
        t1.align == t0.align,
        t1.first_usable == t0.first_usable,
        t1.last_usable == t0.last_usable,
        t1.entries.len() == t0.entries.len() + 1,
        forall|k: int| 0 <= k < t0.entries.len() ==> t1.entries[k] == t0.entries[k],
        t1.entries.last().starting_lba == s,
        s <= t1.entries.last().ending_lba,
    ensures
        slots_packed(t1),
        forall|k: int| 0 <= k < t0.entries.len() ==> (#[trigger] t0.entries[k]).ending_lba < s,
{
    let n = t0.entries.len() as int;
    // every slot already placed ends before the new start: the new
    // range is free, and an aligned sector at or below a slot's end
    // would lie inside a slot
    assert forall|k: int| 0 <= k < n implies (#[trigger] t0.entries[k]).ending_lba < s by {
        if t0.entries[k].ending_lba >= s {
            assert(s % t0.align == 0 && s <= t0.entries[k].ending_lba);
            let j = choose|j: int|
                0 <= j < n && (#[trigger] t0.entries[j]).starting_lba <= s
                    <= t0.entries[j].ending_lba;
            assert(range_overlaps_entry(t0.entries[j], s as int, s + sec - 1));
        }
    }
    assert forall|i: int, j: int|
        0 <= i < j < t1.entries.len() implies (#[trigger] t1.entries[i]).ending_lba
        < (#[trigger] t1.entries[j]).starting_lba by {
        if j < n {
            assert(t1.entries[i] == t0.entries[i] && t1.entries[j] == t0.entries[j]);
        } else {
            assert(t1.entries[i] == t0.entries[i]);
            assert(t0.entries[i].ending_lba < s);
        }
    }
    // coverage: an aligned sector at or below the new top either lies
    // in the new slot, or failed to fit below the new start and so
    // met a slot already placed
    assert forall|u: u64, k: int|
        #![trigger u % t1.align, t1.entries[k]]
        u % t1.align == 0 && t1.first_usable <= u && 0 <= k < t1.entries.len() && u
            <= t1.entries[k].ending_lba implies exists|j: int|
        0 <= j < t1.entries.len() && (#[trigger] t1.entries[j]).starting_lba <= u
            <= t1.entries[j].ending_lba by {
        if k < n && u <= t0.entries[k].ending_lba {
            assert(u % t0.align == 0 && u <= t0.entries[k].ending_lba);
            let j = choose|j: int|
                0 <= j < n && (#[trigger] t0.entries[j]).starting_lba <= u
                    <= t0.entries[j].ending_lba;
            assert(t1.entries[j].starting_lba <= u <= t1.entries[j].ending_lba);
        } else {
            // u is at or below the new slot's end
            if u >= s {
                assert(t1.entries[n].starting_lba <= u <= t1.entries[n].ending_lba);
            } else {
                // below the new start nothing fit, so some old slot
                // overlaps [u, u + sec - 1], putting u at or below its
                // end, where coverage of the old layout places it
                assert(!fits_at(t0, sec, u));
                assert(u + sec - 1 <= t0.last_usable);
                assert(!range_free(t0, u as int, u + sec - 1));
                let e = choose|e: int|
                    0 <= e < n && range_overlaps_entry(
                        #[trigger] t0.entries[e],
                        u as int,
                        u + sec - 1,
                    );
                assert(u <= t0.entries[e].ending_lba);
                assert(u % t0.align == 0);
                let j = choose|j: int|
                    0 <= j < n && (#[trigger] t0.entries[j]).starting_lba <= u
                        <= t0.entries[j].ending_lba;
                assert(t1.entries[j].starting_lba <= u <= t1.entries[j].ending_lba);
            }
        }
    }
}

/// Whether a size fits, and where it first fits, depends only on the
/// table's geometry: its bounds, its alignment unit, and the sector
/// ranges of its entries.
pub proof fn lemma_first_fit_geometry(t1: GptTableView, t2: GptTableView, size: u64)
    requires
        t1.align == t2.align,
        t1.first_usable == t2.first_usable,
        t1.last_usable == t2.last_usable,
        t1.entries.len() == t2.entries.len(),
        forall|k: int|
            0 <= k < t1.entries.len() ==> (#[trigger] t1.entries[k]).starting_lba
                == (#[trigger] t2.entries[k]).starting_lba && t1.entries[k].ending_lba
                == t2.entries[k].ending_lba,
    ensures
        forall|s: u64| #[trigger] fits_at(t1, size, s) <==> fits_at(t2, size, s),
        first_fit(t1, size) == first_fit(t2, size),
{
    assert forall|s: u64| #[trigger] fits_at(t1, size, s) <==> fits_at(t2, size, s) by {
        if fits_at(t1, size, s) {
            assert forall|i: int|
                0 <= i < t2.entries.len() implies !range_overlaps_entry(
                #[trigger] t2.entries[i],
                s as int,
                s + size - 1,
            ) by {
                assert(t1.entries[i].starting_lba == t2.entries[i].starting_lba);
                assert(!range_overlaps_entry(t1.entries[i], s as int, s + size - 1));
            }
            assert(fits_at(t2, size, s));
        }
        if fits_at(t2, size, s) {
            assert forall|i: int|
                0 <= i < t1.entries.len() implies !range_overlaps_entry(
                #[trigger] t1.entries[i],
                s as int,
                s + size - 1,
            ) by {
                assert(t1.entries[i].starting_lba == t2.entries[i].starting_lba);
                assert(!range_overlaps_entry(t2.entries[i], s as int, s + size - 1));
            }
            assert(fits_at(t1, size, s));
        }
    }
    if first_fit(t1, size) is Some {
        lemma_first_fit_witness(t1, size);
        let s = first_fit(t1, size)->Some_0;
        assert forall|u: u64| u % t2.align == 0 && u < s implies !fits_at(t2, size, u) by {
            assert(!fits_at(t1, size, u));
        }
        assert(is_first_fit(t2, size, s));
        lemma_first_fit_unique(t2, size, s);
    } else if first_fit(t2, size) is Some {
        lemma_first_fit_witness(t2, size);
        let s = first_fit(t2, size)->Some_0;
        assert forall|u: u64| u % t1.align == 0 && u < s implies !fits_at(t1, size, u) by {
            assert(!fits_at(t2, size, u));
        }
        assert(is_first_fit(t1, size, s));
        lemma_first_fit_unique(t1, size, s);
    }
}

/// A placeholder entry carrying only a sector range: what placement
/// depends on.
pub open spec fn geom_entry(s: u64, e: u64) -> GptEntryView {
    GptEntryView {
        index: 1,
        starting_lba: s,
        ending_lba: e,
        partition_type_guid: Seq::empty(),
        unique_partition_guid: Seq::empty(),
        attribute_bits: 0,
        partition_name: Seq::empty(),
    }
}

/// The geometry of a blank table for a disk of `disk_len` bytes.
pub open spec fn blank_geometry(sector_size: u64, disk_len: u64) -> GptTableView {
    GptTableView {
        sector_size,
        align: 2048,
        first_usable: (2 + (16383u64 / sector_size + 1)) as u64,
        last_usable: (disk_len / sector_size - (16383u64 / sector_size + 1) - 2) as u64,
        entries: Seq::empty(),
    }
}

/// The geometry after placing `sec` sectors at their first fit.
pub open spec fn after_place(t: GptTableView, sec: u64) -> GptTableView {
    let s = first_fit(t, sec)->Some_0;
    GptTableView {
        entries: t.entries.push(
            geom_entry(s, (s + spec_round_up(sec, t.align) + 1) as u64),
        ),
        ..t
    }
}

impl crate::block::BlkDevice {
    /// A blank table for this disk, whose byte length the caller
    /// measured. Only whole disks may be partitioned: a device that
    /// carries a partition index is refused with a state error.
    pub fn new_gpt(&self, disk_len: u64) -> (r: Result<GptTable, InstallerError>)
        requires
            512 <= self@.sector_size,
            disk_len / self@.sector_size >= 2 * (16383u64 / self@.sector_size + 1) + 4,
        ensures
            r is Ok <==> self@.part_index is None,
            r matches Ok(t) ==> {
                &&& table_wf(t@)
                &&& t@.sector_size == self@.sector_size
                &&& t@.align == 2048
                &&& t@.first_usable == 2 + (16383u64 / self@.sector_size + 1)
                &&& t@.last_usable == disk_len / self@.sector_size - (16383u64 / self@.sector_size
                    + 1) - 2
                &&& t@.entries =~= Seq::<GptEntryView>::empty()
            },
            r matches Err(e) ==> e is State && contains_seq(
                e.message_spec(),
                self@.device_path,
            ),
    {
        if self.part_index.is_some() {
            let mut m = String::new();
            m.append("cannot create a partition table on a partition: ");
            m.append(self.device_path.as_str());
            proof {
                assert(m@ =~= "cannot create a partition table on a partition: "@
                    + self@.device_path);
                lemma_concat_contains_suffix(
                    "cannot create a partition table on a partition: "@,
                    self@.device_path,
                );
            }
            return Err(InstallerError::State(m));
        }
        Ok(GptTable::new_blank(self.sector_size, disk_len))
    }
}

/// Rounding an already-aligned count up changes nothing.
pub proof fn lemma_round_up_of_multiple(v: u64, align: u64)
    requires
        1 <= v,
        1 <= align,
        v % align == 0,
    ensures
        spec_round_up(v, align) == v,
{
    lemma_round_up(v, align);
    if spec_round_up(v, align) > v {
        assert(v % align == 0 && (v as int) < spec_round_up(v, align));
        assert(v < v);
    }
}

/// Two multiples of the unit within one unit of each other coincide.
proof fn lemma_aligned_step(w: u64, v: u64, a: u64)
    requires
        1 <= a,
        w % a == 0,
        v % a == 0,
        v - a < w <= v,
        a <= v,
    ensures
        w == v,
{
    let ai = a as int;
    lemma_fundamental_div_mod(w as int, ai);
    lemma_fundamental_div_mod(v as int, ai);
    let kw = (w as int) / ai;
    let kv = (v as int) / ai;
    assert(w as int == ai * kw);
    assert(v as int == ai * kv);
    assert(kw == kv) by (nonlinear_arith)
        requires
            w as int == ai * kw,
            v as int == ai * kv,
            v - a < w <= v,
            ai == a,
            ai >= 1,
    ;
}

} // verus!
