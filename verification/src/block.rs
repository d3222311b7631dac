//! Block devices: one whole disk or one partition, and the assembly of
//! an inventory snapshot from plain observations of the sysfs tree.

use vstd::prelude::*;

use crate::device::{parse_majmin_spec, BlkTransport, MajMin};
use crate::errors::InstallerError;
use crate::strutil::{contains_seq, lemma_concat_contains_middle, lemma_concat_contains_suffix, str_contains, str_eq, str_starts_with, trim, trim_spec};

verus! {

use vstd::string::StringExecFns;

/// One whole disk or one partition.
///
/// A device with a partition index is a partition and never has
/// children; a device without one is a whole disk, and its children,
/// if any, each carry a partition index.
#[derive(Debug)]
pub struct BlkDevice {
    pub transport: BlkTransport,
    pub device_path: String,
    pub is_virtual: bool,
    pub majmin: MajMin,
    pub partitions: Option<Vec<BlkDevice>>,
    pub part_index: Option<u32>,
    pub sector_size: u64,
    pub label: Option<String>,
    pub uuid: Option<[u8; 16]>,
}

/// The mathematical value of a `BlkDevice`: the same attributes with
/// text as character sequences.
#[verifier::ext_equal]
pub ghost struct BlkDeviceView {
    pub transport: BlkTransport,
    pub device_path: Seq<char>,
    pub is_virtual: bool,
    pub majmin: MajMin,
    pub partitions: Option<Seq<BlkDeviceView>>,
    pub part_index: Option<u32>,
    pub sector_size: u64,
    pub label: Option<Seq<char>>,
    pub uuid: Option<Seq<u8>>,
}

/// The mathematical value of a device.
pub open spec fn dev_view(d: BlkDevice) -> BlkDeviceView
    decreases d,
{
    BlkDeviceView {
        transport: d.transport,
        device_path: d.device_path@,
        is_virtual: d.is_virtual,
        majmin: d.majmin,
        partitions: match d.partitions {
            Option::None => Option::None,
            Option::Some(ps) => Option::Some(devs_view(ps@)),
        },
        part_index: d.part_index,
        sector_size: d.sector_size,
        label: match d.label {
            Option::None => Option::None,
            Option::Some(l) => Option::Some(l@),
        },
        uuid: match d.uuid {
            Option::None => Option::None,
            Option::Some(u) => Option::Some(u@),
        },
    }
}

/// The views of a sequence of devices, in order.
pub open spec fn devs_view(ds: Seq<BlkDevice>) -> Seq<BlkDeviceView>
    decreases ds,
{
    if ds.len() == 0 {
        Seq::empty()
    } else {
        seq![dev_view(ds[0])] + devs_view(ds.subrange(1, ds.len() as int))
    }
}

/// `devs_view` maps `dev_view` over the sequence, index by index.
pub broadcast proof fn lemma_devs_view_index(ds: Seq<BlkDevice>, i: int)
    requires
        0 <= i < ds.len(),
    ensures
        devs_view(ds).len() == ds.len(),
        #[trigger] devs_view(ds)[i] == dev_view(ds[i]),
    decreases ds,
{
    lemma_devs_view_len(ds);
    if i > 0 {
        lemma_devs_view_index(ds.subrange(1, ds.len() as int), i - 1);
    }
}

pub proof fn lemma_devs_view_len(ds: Seq<BlkDevice>)
    ensures
        devs_view(ds).len() == ds.len(),
    decreases ds,
{
    if ds.len() > 0 {
        lemma_devs_view_len(ds.subrange(1, ds.len() as int));
    }
}

impl View for BlkDevice {
    type V = BlkDeviceView;

    open spec fn view(&self) -> BlkDeviceView {
        dev_view(*self)
    }
}

/// The partition carries exactly the label `label`.
pub open spec fn part_label_matches(p: BlkDeviceView, label: Seq<char>) -> bool {
    p.label matches Some(l) && l == label
}

/// Index of the first partition carrying `label`, if any.
pub open spec fn find_part_spec(ps: Seq<BlkDeviceView>, label: Seq<char>) -> Option<int>
    decreases ps.len(),
{
    if ps.len() == 0 {
        Option::None
    } else if part_label_matches(ps[0], label) {
        Option::Some(0)
    } else {
        match find_part_spec(ps.drop_first(), label) {
            Option::Some(i) => Option::Some(i + 1),
            Option::None => Option::None,
        }
    }
}

pub proof fn lemma_find_part_spec_first(ps: Seq<BlkDeviceView>, label: Seq<char>, i: int)
    requires
        0 <= i < ps.len(),
        part_label_matches(ps[i], label),
        forall|k: int| 0 <= k < i ==> !part_label_matches(ps[k], label),
    ensures
        find_part_spec(ps, label) == Some(i),
    decreases i,
{
    if i == 0 {
    } else {
        lemma_find_part_spec_first(ps.drop_first(), label, i - 1);
        assert(!part_label_matches(ps[0], label));
    }
}

pub proof fn lemma_find_part_spec_none(ps: Seq<BlkDeviceView>, label: Seq<char>)
    requires
        forall|k: int| 0 <= k < ps.len() ==> !part_label_matches(ps[k], label),
    ensures
        find_part_spec(ps, label) is None,
    decreases ps.len(),
{
    if ps.len() > 0 {
        lemma_find_part_spec_none(ps.drop_first(), label);
    }
}

impl BlkDevice {
    /// The device-node path as text.
    pub fn device_path_str(&self) -> (r: String)
        ensures
            r@ == self@.device_path,
    {
        self.device_path.clone()
    }

    /// The first of this disk's partitions that carries exactly the
    /// given label, if there is one.
    pub fn find_part(&self, label: &str) -> (r: Option<&BlkDevice>)
        ensures
            r is Some <==> (self@.partitions matches Some(ps) && find_part_spec(ps, label@)
                is Some),
            r matches Some(p) ==> p@ == self@.partitions->Some_0[find_part_spec(
                self@.partitions->Some_0,
                label@,
            )->Some_0],
    {
        let ghost vps = self@.partitions->Some_0;
        proof {
            broadcast use lemma_devs_view_index;

            if self.partitions is Some {
                lemma_devs_view_len(self.partitions->Some_0@);
            }
        }
        match &self.partitions {
            None => None,
            Some(ps) => {
                let mut i: usize = 0;
                while i < ps.len()
                    invariant
                        0 <= i <= ps@.len(),
                        self.partitions matches Some(v) && v@ == ps@,
                        vps == self@.partitions->Some_0,
                        vps == devs_view(ps@),
                        vps.len() == ps@.len(),
                        forall|k: int| 0 <= k < i ==> !part_label_matches(vps[k], label@),
                    decreases ps@.len() - i,
                {
                    broadcast use lemma_devs_view_index;
                    let matched = match &ps[i].label {
                        Some(l) => str_eq(l.as_str(), label),
                        None => false,
                    };
                    if matched {
                        proof {
                            assert(vps[i as int] == dev_view(ps@[i as int]));
                            assert(part_label_matches(vps[i as int], label@));
                            lemma_find_part_spec_first(vps, label@, i as int);
                        }
                        return Some(&ps[i]);
                    }
                    proof {
                        assert(vps[i as int] == dev_view(ps@[i as int]));
                    }
                    i = i + 1;
                }
                proof {
                    lemma_find_part_spec_none(vps, label@);
                }
                None
            },
        }
    }

    /// An owned copy of this device, with the same value.
    pub fn duplicate(&self) -> (r: BlkDevice)
        ensures
            r@ == self@,
        decreases *self,
    {
        let partitions: Option<Vec<BlkDevice>> = match &self.partitions {
            None => None,
            Some(ps) => {
                let mut out: Vec<BlkDevice> = Vec::new();
                let mut i: usize = 0;
                while i < ps.len()
                    invariant
                        0 <= i <= ps@.len(),
                        self.partitions matches Some(v) && v == *ps,
                        out@.len() == i,
                        forall|k: int| 0 <= k < i ==> (#[trigger] out@[k])@ == ps@[k]@,
                    decreases ps@.len() - i,
                {
                    out.push(ps[i].duplicate());
                    i = i + 1;
                }
                proof {
                    broadcast use lemma_devs_view_index;

                    lemma_devs_view_len(out@);
                    lemma_devs_view_len(ps@);
                    assert(devs_view(out@) =~= devs_view(ps@));
                }
                Some(out)
            },
        };
        let label: Option<String> = match &self.label {
            Some(l) => Some(l.clone()),
            None => None,
        };
        let r = BlkDevice {
            transport: self.transport,
            device_path: self.device_path.clone(),
            is_virtual: self.is_virtual,
            majmin: self.majmin,
            partitions,
            part_index: self.part_index,
            sector_size: self.sector_size,
            label,
            uuid: self.uuid,
        };
        proof {
            assert(r@.partitions =~= self@.partitions);
            assert(r@ =~= self@);
        }
        r
    }
}

/// One in-use row of an existing partition table, as the surrounding
/// program read it from the disk.
#[derive(Debug)]
pub struct RawGptEntry {
    /// The row's slot number in the table.
    pub index: u32,
    /// Whether the row is in use.
    pub used: bool,
    /// The partition name the row carries.
    pub name: String,
    /// The row's unique partition GUID.
    pub unique_guid: [u8; 16],
}

/// An existing partition table, as read from a disk.
#[derive(Debug)]
pub struct RawGpt {
    /// The disk's own unique GUID.
    pub guid: [u8; 16],
    /// The rows of the partition array.
    pub entries: Vec<RawGptEntry>,
}

/// The plain observations the surrounding program gathers for one
/// entry of the sysfs block-device directory. The library assembles a
/// `BlkDevice` from these values alone.
#[derive(Debug)]
pub struct RawBlkDevice {
    /// The directory entry's name, e.g. `sda`.
    pub name: String,
    /// The canonical target the entry's symlink resolves to.
    pub link_path: String,
    /// The contents of the entry's `dev` attribute file.
    pub dev_content: String,
    /// The contents of its `partition` attribute file, when that file
    /// exists; whole disks have none.
    pub part_index_content: Option<String>,
    /// The sector size queried from the opened device node.
    pub sector_size: u64,
    /// An existing partition table, when one could be read.
    pub gpt: Option<RawGpt>,
    /// The sibling directories found under the device's sysfs block
    /// path; those prefixed by the device's own name are partitions.
    pub children: Vec<RawBlkDevice>,
}

/// One entry of the devices directory: its path and its identity.
#[derive(Debug)]
pub struct DevNode {
    pub path: String,
    pub majmin: MajMin,
}

/// The identity a raw entry's `dev` attribute denotes.
pub open spec fn raw_majmin(r: RawBlkDevice) -> Option<MajMin> {
    parse_majmin_spec(trim_spec(r.dev_content@))
}

/// The partition index a raw entry's `partition` attribute denotes.
pub open spec fn raw_part_index(r: RawBlkDevice) -> Option<u32> {
    match r.part_index_content {
        Option::Some(c) => crate::strutil::parse_u32_spec(trim_spec(c@)),
        Option::None => Option::None,
    }
}

/// A device is virtual when its resolved sysfs path has a "virtual"
/// segment.
pub open spec fn raw_is_virtual(r: RawBlkDevice) -> bool {
    contains_seq(r.link_path@, "virtual"@)
}

/// Index of the first devices-directory entry with this identity.
pub open spec fn node_for(nodes: Seq<DevNode>, mm: MajMin) -> Option<int>
    decreases nodes.len(),
{
    if nodes.len() == 0 {
        Option::None
    } else if nodes[0].majmin == mm {
        Option::Some(0)
    } else {
        match node_for(nodes.drop_first(), mm) {
            Option::Some(i) => Option::Some(i + 1),
            Option::None => Option::None,
        }
    }
}

proof fn lemma_node_for_first(nodes: Seq<DevNode>, mm: MajMin, i: int)
    requires
        0 <= i < nodes.len(),
        nodes[i].majmin == mm,
        forall|k: int| 0 <= k < i ==> nodes[k].majmin != mm,
    ensures
        node_for(nodes, mm) == Some(i),
    decreases i,
{
    if i > 0 {
        lemma_node_for_first(nodes.drop_first(), mm, i - 1);
    }
}

proof fn lemma_node_for_none(nodes: Seq<DevNode>, mm: MajMin)
    requires
        forall|k: int| 0 <= k < nodes.len() ==> nodes[k].majmin != mm,
    ensures
        node_for(nodes, mm) is None,
    decreases nodes.len(),
{
    if nodes.len() > 0 {
        lemma_node_for_none(nodes.drop_first(), mm);
    }
}

/// Index of the first in-use table row with slot number `idx`.
pub open spec fn gpt_entry_for(entries: Seq<RawGptEntry>, idx: u32) -> Option<int>
    decreases entries.len(),
{
    if entries.len() == 0 {
        Option::None
    } else if entries[0].used && entries[0].index == idx {
        Option::Some(0)
    } else {
        match gpt_entry_for(entries.drop_first(), idx) {
            Option::Some(i) => Option::Some(i + 1),
            Option::None => Option::None,
        }
    }
}

proof fn lemma_gpt_entry_for_first(entries: Seq<RawGptEntry>, idx: u32, i: int)
    requires
        0 <= i < entries.len(),
        entries[i].used && entries[i].index == idx,
        forall|k: int| 0 <= k < i ==> !(entries[k].used && entries[k].index == idx),
    ensures
        gpt_entry_for(entries, idx) == Some(i),
    decreases i,
{
    if i > 0 {
        lemma_gpt_entry_for_first(entries.drop_first(), idx, i - 1);
    }
}

proof fn lemma_gpt_entry_for_none(entries: Seq<RawGptEntry>, idx: u32)
    requires
        forall|k: int| 0 <= k < entries.len() ==> !(entries[k].used && entries[k].index == idx),
    ensures
        gpt_entry_for(entries, idx) is None,
    decreases entries.len(),
{
    if entries.len() > 0 {
        lemma_gpt_entry_for_none(entries.drop_first(), idx);
    }
}

/// Whether a sibling directory belongs to this device: its name is
/// prefixed by the device's own name.
pub open spec fn child_selected(parent: Seq<char>, c: RawBlkDevice) -> bool {
    parent.len() <= c.name@.len() && c.name@.subrange(0, parent.len() as int) == parent
}

/// The entries of `cs` whose names are prefixed by `parent`, in order.
pub open spec fn select_children(parent: Seq<char>, cs: Seq<RawBlkDevice>) -> Seq<RawBlkDevice>
    decreases cs.len(),
{
    if cs.len() == 0 {
        Seq::empty()
    } else {
        let rest = select_children(parent, cs.drop_last());
        if child_selected(parent, cs.last()) {
            rest.push(cs.last())
        } else {
            rest
        }
    }
}

/// The raw children that are this device's partitions, in order.
pub open spec fn selected_children(r: RawBlkDevice) -> Seq<RawBlkDevice> {
    select_children(r.name@, r.children@)
}

/// Every selected entry passes the prefix test and comes from `cs`.
pub proof fn lemma_select_children_elem(parent: Seq<char>, cs: Seq<RawBlkDevice>, i: int)
    requires
        0 <= i < select_children(parent, cs).len(),
    ensures
        child_selected(parent, select_children(parent, cs)[i]),
        exists|k: int| 0 <= k < cs.len() && cs[k] == select_children(parent, cs)[i],
    decreases cs.len(),
{
    let sel = select_children(parent, cs);
    if cs.len() > 0 {
        let rest = select_children(parent, cs.drop_last());
        if child_selected(parent, cs.last()) && i == rest.len() {
            assert(cs[cs.len() - 1] == sel[i]);
        } else {
            lemma_select_children_elem(parent, cs.drop_last(), i);
            let k = choose|k: int|
                0 <= k < cs.drop_last().len() && cs.drop_last()[k] == rest[i];
            assert(cs[k] == sel[i]);
        }
    }
}

/// Selection distributes over concatenation.
pub proof fn lemma_select_children_add(
    parent: Seq<char>,
    a: Seq<RawBlkDevice>,
    b: Seq<RawBlkDevice>,
)
    ensures
        select_children(parent, a + b) == select_children(parent, a) + select_children(parent, b),
    decreases b.len(),
{
    if b.len() == 0 {
        assert(a + b =~= a);
        assert(select_children(parent, a) + select_children(parent, b) =~= select_children(
            parent,
            a,
        ));
    } else {
        lemma_select_children_add(parent, a, b.drop_last());
        assert((a + b).drop_last() =~= a + b.drop_last());
        assert((a + b).last() == b.last());
        if child_selected(parent, b.last()) {
            assert((select_children(parent, a) + select_children(parent, b.drop_last())).push(
                b.last(),
            ) =~= select_children(parent, a) + select_children(parent, b.drop_last()).push(
                b.last(),
            ));
        }
    }
}

/// Where a selected child stands in the selection: the child at
/// position `j` of the children list, when it passes the prefix test,
/// is the selection's entry right after those of the prefix before `j`.
pub proof fn lemma_child_position(r: RawBlkDevice, j: int)
    requires
        0 <= j < r.children@.len(),
        child_selected(r.name@, r.children@[j]),
    ensures
        select_children(r.name@, r.children@.subrange(0, j + 1)) == select_children(
            r.name@,
            r.children@.subrange(0, j),
        ).push(r.children@[j]),
        select_children(r.name@, r.children@.subrange(0, j)).len() < selected_children(r).len(),
        selected_children(r)[select_children(r.name@, r.children@.subrange(0, j)).len() as int]
            == r.children@[j],
        forall|k: int|
            0 <= k < select_children(r.name@, r.children@.subrange(0, j)).len()
                ==> #[trigger] selected_children(r)[k] == select_children(
                r.name@,
                r.children@.subrange(0, j),
            )[k],
{
    let a = r.children@.subrange(0, j + 1);
    let b = r.children@.subrange(j + 1, r.children@.len() as int);
    assert(a.drop_last() =~= r.children@.subrange(0, j));
    assert(a.last() == r.children@[j]);
    lemma_select_children_add(r.name@, a, b);
    assert(a + b =~= r.children@);
}

/// A raw partition can be fully read: its identity parses, its device
/// node exists, and it carries a partition index.
pub open spec fn child_ok(c: RawBlkDevice, nodes: Seq<DevNode>) -> bool {
    &&& raw_majmin(c) is Some
    &&& node_for(nodes, raw_majmin(c)->Some_0) is Some
    &&& raw_part_index(c) is Some
}

/// The partition `BlkDevice` a raw child denotes, with its label and
/// unique GUID copied from the matching in-use row of the disk's
/// table, when there is one.
pub open spec fn child_view(c: RawBlkDevice, nodes: Seq<DevNode>, gpt: Option<RawGpt>) -> BlkDeviceView
    recommends
        child_ok(c, nodes),
{
    let mm = raw_majmin(c)->Some_0;
    let idx = raw_part_index(c)->Some_0;
    BlkDeviceView {
        transport: BlkTransport::Sata,
        device_path: nodes[node_for(nodes, mm)->Some_0].path@,
        is_virtual: raw_is_virtual(c),
        majmin: mm,
        partitions: Option::None,
        part_index: Option::Some(idx),
        sector_size: c.sector_size,
        label: match gpt {
            Option::None => Option::None,
            Option::Some(g) => match gpt_entry_for(g.entries@, idx) {
                Option::None => Option::None,
                Option::Some(e) => Option::Some(g.entries@[e].name@),
            },
        },
        uuid: match gpt {
            Option::None => Option::None,
            Option::Some(g) => match gpt_entry_for(g.entries@, idx) {
                Option::None => Option::None,
                Option::Some(e) => Option::Some(g.entries@[e].unique_guid@),
            },
        },
    }
}

/// A raw top-level entry can be assembled into a whole-disk
/// `BlkDevice`: it carries no partition index of its own, its identity
/// parses, its device node exists, each of its partitions can be fully
/// read, and no two of the device numbers involved coincide.
pub open spec fn device_ok(r: RawBlkDevice, nodes: Seq<DevNode>) -> bool {
    let sel = selected_children(r);
    &&& r.part_index_content is None
    &&& raw_majmin(r) is Some
    &&& node_for(nodes, raw_majmin(r)->Some_0) is Some
    &&& forall|j: int| 0 <= j < sel.len() ==> child_ok(#[trigger] sel[j], nodes)
    &&& forall|j: int|
        0 <= j < sel.len() ==> raw_majmin(#[trigger] sel[j]) != raw_majmin(r)
    &&& forall|j1: int, j2: int|
        0 <= j1 < j2 < sel.len() ==> raw_majmin(#[trigger] sel[j1]) != raw_majmin(
            #[trigger] sel[j2],
        )
}

/// The whole-disk `BlkDevice` a raw entry denotes.
pub open spec fn device_view_of_raw(r: RawBlkDevice, nodes: Seq<DevNode>) -> BlkDeviceView
    recommends
        device_ok(r, nodes),
{
    let mm = raw_majmin(r)->Some_0;
    let sel = selected_children(r);
    BlkDeviceView {
        transport: BlkTransport::Sata,
        device_path: nodes[node_for(nodes, mm)->Some_0].path@,
        is_virtual: raw_is_virtual(r),
        majmin: mm,
        partitions: if sel.len() == 0 {
            Option::None
        } else {
            Option::Some(sel.map_values(|c: RawBlkDevice| child_view(c, nodes, r.gpt)))
        },
        part_index: Option::None,
        sector_size: r.sector_size,
        label: Option::None,
        uuid: match r.gpt {
            Option::None => Option::None,
            Option::Some(g) => Option::Some(g.guid@),
        },
    }
}

/// The device-node path of the entry whose identity matches, scanning
/// the devices directory in order; no match is a "not found" error for
/// the device being read.
pub fn find_dev_node(mm: &MajMin, nodes: &Vec<DevNode>) -> (r: Result<String, InstallerError>)
    ensures
        r is Ok <==> node_for(nodes@, *mm) is Some,
        r matches Ok(p) ==> p@ == nodes@[node_for(nodes@, *mm)->Some_0].path@,
        r matches Err(e) ==> e is NotFound && contains_seq(e.message_spec(), mm.text()),
{
    let mut i: usize = 0;
    while i < nodes.len()
        invariant
            0 <= i <= nodes@.len(),
            forall|k: int| 0 <= k < i ==> nodes@[k].majmin != *mm,
        decreases nodes@.len() - i,
    {
        if nodes[i].majmin == *mm {
            proof {
                lemma_node_for_first(nodes@, *mm, i as int);
            }
            return Ok(nodes[i].path.clone());
        }
        i = i + 1;
    }
    proof {
        lemma_node_for_none(nodes@, *mm);
    }
    let mut m = String::new();
    m.append("no node under /dev for ");
    m.append(mm.to_text().as_str());
    proof {
        assert(m@ =~= "no node under /dev for "@ + mm.text());
        lemma_concat_contains_suffix("no node under /dev for "@, mm.text());
    }
    Err(InstallerError::NotFound(m))
}

/// Looks up the label and unique GUID the table holds for slot `idx`.
fn gpt_lookup(gpt: &Option<RawGpt>, idx: u32) -> (r: Option<(String, [u8; 16])>)
    ensures
        match *gpt {
            Option::None => r is None,
            Option::Some(g) => {
                match gpt_entry_for(g.entries@, idx) {
                    Option::None => r is None,
                    Option::Some(e) => r matches Some(p) && p.0@ == g.entries@[e].name@ && p.1@
                        == g.entries@[e].unique_guid@,
                }
            },
        },
{
    match gpt {
        None => None,
        Some(g) => {
            let mut i: usize = 0;
            while i < g.entries.len()
                invariant
                    0 <= i <= g.entries@.len(),
                    *gpt == Some(*g),
                    forall|k: int|
                        0 <= k < i ==> !((#[trigger] g.entries@[k]).used && g.entries@[k].index
                            == idx),
                decreases g.entries@.len() - i,
            {
                if g.entries[i].used && g.entries[i].index == idx {
                    proof {
                        lemma_gpt_entry_for_first(g.entries@, idx, i as int);
                    }
                    return Some((g.entries[i].name.clone(), g.entries[i].unique_guid));
                }
                i = i + 1;
            }
            proof {
                lemma_gpt_entry_for_none(g.entries@, idx);
            }
            None
        },
    }
}

/// Assembles one partition from its raw observations. Every failure
/// names the sibling entry that could not be read.
fn build_child(c: &RawBlkDevice, nodes: &Vec<DevNode>, gpt: &Option<RawGpt>) -> (r: Result<
    BlkDevice,
    InstallerError,
>)
    ensures
        r is Ok <==> child_ok(*c, nodes@),
        r matches Ok(d) ==> d@ == child_view(*c, nodes@, *gpt),
        r matches Err(e) ==> (e is Parse || e is NotFound) && contains_seq(
            e.message_spec(),
            c.name@,
        ),
{
    let mm = match MajMin::from_str(trim(c.dev_content.as_str())) {
        Ok(mm) => mm,
        Err(e) => {
            return Err(named_after_child(e, c));
        },
    };
    let device_path = match find_dev_node(&mm, nodes) {
        Ok(p) => p,
        Err(e) => {
            return Err(named_after_child(e, c));
        },
    };
    proof {
        reveal_strlit("virtual");
    }
    let is_virtual = str_contains(c.link_path.as_str(), "virtual");
    let idx = match &c.part_index_content {
        None => {
            let mut m = String::new();
            m.append("partition attribute missing under ");
            m.append(c.name.as_str());
            proof {
                assert(m@ =~= "partition attribute missing under "@ + c.name@);
                lemma_concat_contains_suffix("partition attribute missing under "@, c.name@);
            }
            return Err(InstallerError::NotFound(m));
        },
        Some(content) => {
            let t = trim(content.as_str());
            let tl = t.unicode_len();
            proof {
                assert(t@.subrange(0, tl as int) =~= t@);
            }
            match crate::strutil::parse_u32_range(t, 0, tl) {
                Some(v) => v,
                None => {
                    let mut m = String::new();
                    m.append("couldn't parse partition index of ");
                    m.append(c.name.as_str());
                    proof {
                        assert(m@ =~= "couldn't parse partition index of "@ + c.name@);
                        lemma_concat_contains_suffix(
                            "couldn't parse partition index of "@,
                            c.name@,
                        );
                    }
                    return Err(InstallerError::Parse(m));
                },
            }
        },
    };
    let (label, uuid) = match gpt_lookup(gpt, idx) {
        Some((l, u)) => (Some(l), Some(u)),
        None => (None, None),
    };
    let d = BlkDevice {
        transport: BlkTransport::Sata,
        device_path,
        is_virtual,
        majmin: mm,
        partitions: None,
        part_index: Some(idx),
        sector_size: c.sector_size,
        label,
        uuid,
    };
    proof {
        assert(d@ =~= child_view(*c, nodes@, *gpt));
    }
    Ok(d)
}

/// The same failure, its message put after the name of the sibling
/// entry being read.
fn named_after_child(e: InstallerError, c: &RawBlkDevice) -> (r: InstallerError)
    ensures
        r is Parse <==> e is Parse,
        r is NotFound <==> e is NotFound,
        r is Io <==> e is Io,
        r is State <==> e is State,
        r is ExternalCommand <==> e is ExternalCommand,
        contains_seq(r.message_spec(), c.name@),
{
    let mut prefix = String::new();
    prefix.append("cannot read partition ");
    prefix.append(c.name.as_str());
    prefix.append(": ");
    let r = e.prefixed(prefix.as_str());
    proof {
        assert(prefix@ =~= "cannot read partition "@ + c.name@ + ": "@);
        assert(r.message_spec() =~= "cannot read partition "@ + c.name@ + (": "@
            + e.message_spec()));
        lemma_concat_contains_middle(
            "cannot read partition "@,
            c.name@,
            ": "@ + e.message_spec(),
        );
    }
    r
}

/// Assembles one whole disk, with its partitions, from its raw
/// observations. A disk whose own entry carries a partition index, or
/// any of whose partitions cannot be fully read, or whose device
/// numbers collide, fails as a whole.
pub fn build_device(r: &RawBlkDevice, nodes: &Vec<DevNode>) -> (res: Result<
    BlkDevice,
    InstallerError,
>)
    ensures
        res is Ok <==> device_ok(*r, nodes@),
        res matches Ok(d) ==> d@ == device_view_of_raw(*r, nodes@),
        res matches Err(e) ==> (e is Parse || e is NotFound || e is State),
{
    if r.part_index_content.is_some() {
        let mut m = String::new();
        m.append("not a whole disk: ");
        m.append(r.name.as_str());
        return Err(InstallerError::State(m));
    }
    let mm = match MajMin::from_str(trim(r.dev_content.as_str())) {
        Ok(mm) => mm,
        Err(e) => {
            return Err(e);
        },
    };
    let device_path = match find_dev_node(&mm, nodes) {
        Ok(p) => p,
        Err(e) => {
            return Err(e);
        },
    };
    proof {
        reveal_strlit("virtual");
    }
    let is_virtual = str_contains(r.link_path.as_str(), "virtual");
    let ghost sel_all = selected_children(*r);
    let ghost cview = |c: RawBlkDevice| child_view(c, nodes@, r.gpt);
    let mut parts: Vec<BlkDevice> = Vec::new();
    let mut j: usize = 0;
    while j < r.children.len()
        invariant
            0 <= j <= r.children@.len(),
            raw_majmin(*r) == Some(mm),
            sel_all == selected_children(*r),
            cview == (|c: RawBlkDevice| child_view(c, nodes@, r.gpt)),
            devs_view(parts@) == select_children(r.name@, r.children@.subrange(0, j as int)).map_values(cview),
            parts@.len() == select_children(r.name@, r.children@.subrange(0, j as int)).len(),
            forall|k: int|
                0 <= k < parts@.len() ==> raw_majmin(
                    #[trigger] select_children(r.name@, r.children@.subrange(0, j as int))[k],
                ) == Some(parts@[k].majmin),
            forall|k: int|
                0 <= k < j ==> (child_selected(r.name@, #[trigger] r.children@[k]) ==> child_ok(
                    r.children@[k],
                    nodes@,
                )),
            forall|k: int| 0 <= k < parts@.len() ==> #[trigger] parts@[k].majmin != mm,
            forall|k1: int, k2: int|
                0 <= k1 < k2 < parts@.len() ==> #[trigger] parts@[k1].majmin
                    != #[trigger] parts@[k2].majmin,
        decreases r.children@.len() - j,
    {
        let ghost fsel = select_children(r.name@, r.children@.subrange(0, j as int));
        let child = &r.children[j];
        if str_starts_with(child.name.as_str(), r.name.as_str()) {
            proof {
                lemma_child_position(*r, j as int);
            }
            let d = match build_child(child, nodes, &r.gpt) {
                Ok(d) => d,
                Err(e) => {
                    proof {
                        assert(!device_ok(*r, nodes@)) by {
                            if device_ok(*r, nodes@) {
                                assert(child_ok(sel_all[fsel.len() as int], nodes@));
                            }
                        }
                    }
                    return Err(e);
                },
            };
            proof {
                assert(raw_majmin(r.children@[j as int]) == Some(d.majmin));
            }
            if d.majmin == mm {
                proof {
                    assert(!device_ok(*r, nodes@)) by {
                        if device_ok(*r, nodes@) {
                            assert(raw_majmin(sel_all[fsel.len() as int]) != raw_majmin(*r));
                        }
                    }
                }
                let mut m = String::new();
                m.append("duplicate device number under ");
                m.append(r.name.as_str());
                return Err(InstallerError::State(m));
            }
            proof {
                assert forall|x: int| 0 <= x < parts@.len() implies raw_majmin(
                    #[trigger] sel_all[x],
                ) == Some(parts@[x].majmin) by {
                    assert(sel_all[x] == select_children(
                        r.name@,
                        r.children@.subrange(0, j as int),
                    )[x]);
                }
            }
            let mut k: usize = 0;
            while k < parts.len()
                invariant
                    0 <= k <= parts@.len(),
                    sel_all == selected_children(*r),
                    0 <= j < r.children@.len(),
                    parts@.len() == fsel.len(),
                    fsel.len() < sel_all.len(),
                    sel_all[fsel.len() as int] == r.children@[j as int],
                    raw_majmin(r.children@[j as int]) == Some(d.majmin),
                    forall|x: int|
                        0 <= x < parts@.len() ==> raw_majmin(#[trigger] sel_all[x]) == Some(
                            parts@[x].majmin,
                        ),
                    forall|x: int| 0 <= x < k ==> #[trigger] parts@[x].majmin != d.majmin,
                decreases parts@.len() - k,
            {
                if parts[k].majmin == d.majmin {
                    proof {
                        assert(!device_ok(*r, nodes@)) by {
                            if device_ok(*r, nodes@) {
                                assert(raw_majmin(sel_all[k as int]) != raw_majmin(
                                    sel_all[fsel.len() as int],
                                ));
                            }
                        }
                    }
                    let mut m = String::new();
                    m.append("duplicate device number under ");
                    m.append(r.name.as_str());
                    return Err(InstallerError::State(m));
                }
                k = k + 1;
            }
            let ghost old_parts = parts@;
            parts.push(d);
            proof {
                lemma_devs_view_push(old_parts, parts@.last());
                assert(devs_view(parts@) =~= select_children(
                    r.name@,
                    r.children@.subrange(0, (j + 1) as int),
                ).map_values(cview));
            }
        } else {
            proof {
                assert(r.children@.subrange(0, (j + 1) as int).drop_last() =~= r.children@.subrange(
                    0,
                    j as int,
                ));
                assert(r.children@.subrange(0, (j + 1) as int).last() == r.children@[j as int]);
                assert(select_children(r.name@, r.children@.subrange(0, (j + 1) as int)) == fsel);
            }
        }
        j = j + 1;
    }
    proof {
        assert(r.children@.subrange(0, r.children@.len() as int) =~= r.children@);
    }
    let uuid = match &r.gpt {
        Some(g) => Some(g.guid),
        None => None,
    };
    let partitions = if parts.len() == 0 {
        None
    } else {
        Some(parts)
    };
    let d = BlkDevice {
        transport: BlkTransport::Sata,
        device_path,
        is_virtual,
        majmin: mm,
        partitions,
        part_index: None,
        sector_size: r.sector_size,
        label: None,
        uuid,
    };
    proof {
        assert forall|j2: int| 0 <= j2 < sel_all.len() implies child_ok(
            #[trigger] sel_all[j2],
            nodes@,
        ) by {
            lemma_select_children_elem(r.name@, r.children@, j2);
            let k = choose|k: int| 0 <= k < r.children@.len() && r.children@[k] == sel_all[j2];
            assert(child_selected(r.name@, r.children@[k]));
        }
        assert forall|j2: int| 0 <= j2 < sel_all.len() implies raw_majmin(
            #[trigger] sel_all[j2],
        ) != raw_majmin(*r) by {
            assert(sel_all[j2] == select_children(
                r.name@,
                r.children@.subrange(0, r.children@.len() as int),
            )[j2]);
            assert(raw_majmin(sel_all[j2]) == Some(parts@[j2].majmin));
        }
        assert forall|j1: int, j2: int|
            0 <= j1 < j2 < sel_all.len() implies raw_majmin(#[trigger] sel_all[j1]) != raw_majmin(
            #[trigger] sel_all[j2],
        ) by {
            assert(sel_all[j1] == select_children(
                r.name@,
                r.children@.subrange(0, r.children@.len() as int),
            )[j1]);
            assert(sel_all[j2] == select_children(
                r.name@,
                r.children@.subrange(0, r.children@.len() as int),
            )[j2]);
            assert(raw_majmin(sel_all[j1]) == Some(parts@[j1].majmin));
            assert(raw_majmin(sel_all[j2]) == Some(parts@[j2].majmin));
        }
        assert(device_ok(*r, nodes@));
        assert(d@ =~= device_view_of_raw(*r, nodes@));
    }
    Ok(d)
}

pub proof fn lemma_devs_view_push(ds: Seq<BlkDevice>, d: BlkDevice)
    ensures
        devs_view(ds.push(d)) =~= devs_view(ds).push(dev_view(d)),
    decreases ds,
{
    broadcast use lemma_devs_view_index;

    lemma_devs_view_len(ds.push(d));
    lemma_devs_view_len(ds);
    assert forall|i: int| 0 <= i < ds.len() + 1 implies devs_view(ds.push(d))[i] == devs_view(
        ds,
    ).push(dev_view(d))[i] by {
        if i < ds.len() {
            assert(ds.push(d)[i] == ds[i]);
        } else {
            assert(ds.push(d)[i] == d);
        }
    }
}

/// Every device number a device entry carries: its own and those of
/// its partitions.
pub open spec fn view_majmins(v: BlkDeviceView) -> Set<MajMin> {
    Set::new(
        |m: MajMin|
            m == v.majmin || (v.partitions matches Some(ps) && exists|j: int|
                0 <= j < ps.len() && (#[trigger] ps[j]).majmin == m),
    )
}

/// Two device entries share some device number.
pub open spec fn views_conflict(a: BlkDeviceView, b: BlkDeviceView) -> bool {
    !view_majmins(a).disjoint(view_majmins(b))
}

/// One emitted entry is well formed: it is a whole disk, its
/// partitions each carry an index and no further children, and no two
/// of its device numbers coincide.
pub open spec fn view_wf(v: BlkDeviceView) -> bool {
    &&& v.part_index is None
    &&& (v.partitions matches Some(ps) ==> ps.len() > 0)
    &&& (v.partitions matches Some(ps) ==> forall|k: int|
        0 <= k < ps.len() ==> (#[trigger] ps[k]).part_index is Some && ps[k].partitions is None)
    &&& (v.partitions matches Some(ps) ==> forall|k: int|
        0 <= k < ps.len() ==> (#[trigger] ps[k]).majmin != v.majmin)
    &&& (v.partitions matches Some(ps) ==> forall|k1: int, k2: int|
        0 <= k1 < k2 < ps.len() ==> (#[trigger] ps[k1]).majmin != (#[trigger] ps[k2]).majmin)
}

/// A well-formed inventory snapshot: every entry is a well-formed
/// whole disk and no device number appears under two entries.
pub open spec fn inventory_wf(out: Seq<BlkDeviceView>) -> bool {
    &&& forall|i: int| 0 <= i < out.len() ==> view_wf(#[trigger] out[i])
    &&& forall|i: int, j: int|
        0 <= i < j < out.len() ==> view_majmins(#[trigger] out[i]).disjoint(
            view_majmins(#[trigger] out[j]),
        )
}

/// What enumeration yields from the raw observations, in order: each
/// entry that can be fully assembled, passes the virtual-device
/// filter, and introduces no device number already emitted.
pub open spec fn enumerate_spec(
    raws: Seq<RawBlkDevice>,
    nodes: Seq<DevNode>,
    include_virtual: bool,
) -> Seq<BlkDeviceView>
    decreases raws.len(),
{
    if raws.len() == 0 {
        Seq::empty()
    } else {
        let prev = enumerate_spec(raws.drop_last(), nodes, include_virtual);
        if device_ok(raws.last(), nodes) {
            let v = device_view_of_raw(raws.last(), nodes);
            if (include_virtual || !v.is_virtual) && (forall|k: int|
                0 <= k < prev.len() ==> !views_conflict(#[trigger] prev[k], v)) {
                prev.push(v)
            } else {
                prev
            }
        } else {
            prev
        }
    }
}

/// A device that meets `device_ok` assembles into a well-formed entry.
proof fn lemma_device_view_wf(r: RawBlkDevice, nodes: Seq<DevNode>)
    requires
        device_ok(r, nodes),
    ensures
        view_wf(device_view_of_raw(r, nodes)),
{
    let v = device_view_of_raw(r, nodes);
    let sel = selected_children(r);
    if sel.len() > 0 {
        let ps = v.partitions->Some_0;
        assert forall|k: int| 0 <= k < ps.len() implies (#[trigger] ps[k]).part_index is Some
            && ps[k].partitions is None by {
            assert(ps[k] == child_view(sel[k], nodes, r.gpt));
        }
        assert forall|k: int| 0 <= k < ps.len() implies (#[trigger] ps[k]).majmin != v.majmin by {
            assert(ps[k] == child_view(sel[k], nodes, r.gpt));
            assert(raw_majmin(sel[k]) != raw_majmin(r));
        }
        assert forall|k1: int, k2: int|
            0 <= k1 < k2 < ps.len() implies (#[trigger] ps[k1]).majmin
            != (#[trigger] ps[k2]).majmin by {
            assert(ps[k1] == child_view(sel[k1], nodes, r.gpt));
            assert(ps[k2] == child_view(sel[k2], nodes, r.gpt));
            assert(raw_majmin(sel[k1]) != raw_majmin(sel[k2]));
        }
    }
}

/// What enumeration emits is a well-formed inventory: no two entries
/// share a device number, and a partition appears only inside the
/// whole-disk entry that carries it.
pub proof fn lemma_enumerate_inventory_wf(
    raws: Seq<RawBlkDevice>,
    nodes: Seq<DevNode>,
    include_virtual: bool,
)
    ensures
        inventory_wf(enumerate_spec(raws, nodes, include_virtual)),
    decreases raws.len(),
{
    if raws.len() > 0 {
        lemma_enumerate_inventory_wf(raws.drop_last(), nodes, include_virtual);
        let prev = enumerate_spec(raws.drop_last(), nodes, include_virtual);
        let out = enumerate_spec(raws, nodes, include_virtual);
        if device_ok(raws.last(), nodes) {
            let v = device_view_of_raw(raws.last(), nodes);
            if (include_virtual || !v.is_virtual) && (forall|k: int|
                0 <= k < prev.len() ==> !views_conflict(#[trigger] prev[k], v)) {
                lemma_device_view_wf(raws.last(), nodes);
                assert forall|i: int, j: int|
                    0 <= i < j < out.len() implies view_majmins(#[trigger] out[i]).disjoint(
                    view_majmins(#[trigger] out[j]),
                ) by {
                    if j < prev.len() {
                        assert(out[i] == prev[i] && out[j] == prev[j]);
                    } else {
                        assert(out[i] == prev[i] && out[j] == v);
                        assert(!views_conflict(prev[i], v));
                    }
                }
            }
        }
    }
}

/// The device numbers a device holds, its own first.
fn dev_majmins(d: &BlkDevice) -> (r: Vec<MajMin>)
    ensures
        forall|m: MajMin| r@.contains(m) <==> view_majmins(d@).contains(m),
{
    let mut out: Vec<MajMin> = Vec::new();
    out.push(d.majmin);
    match &d.partitions {
        None => {},
        Some(ps) => {
            let mut i: usize = 0;
            while i < ps.len()
                invariant
                    0 <= i <= ps@.len(),
                    d.partitions matches Some(v) && v == *ps,
                    out@.len() == 1 + i,
                    out@[0] == d.majmin,
                    forall|k: int| 0 <= k < i ==> out@[k + 1] == ps@[k].majmin,
                decreases ps@.len() - i,
            {
                out.push(ps[i].majmin);
                i = i + 1;
            }
        },
    }
    proof {
        broadcast use lemma_devs_view_index;

        assert forall|m: MajMin| out@.contains(m) <==> view_majmins(d@).contains(m) by {
            match d.partitions {
                Option::None => {
                    if out@.contains(m) {
                        let k = choose|k: int| 0 <= k < out@.len() && out@[k] == m;
                        assert(m == d.majmin);
                    }
                    if view_majmins(d@).contains(m) {
                        assert(out@[0] == m);
                    }
                },
                Option::Some(ps) => {
                    lemma_devs_view_len(ps@);
                    if out@.contains(m) {
                        let k = choose|k: int| 0 <= k < out@.len() && out@[k] == m;
                        if k == 0 {
                            assert(view_majmins(d@).contains(m));
                        } else {
                            assert(d@.partitions->Some_0[k - 1].majmin == m);
                            assert(view_majmins(d@).contains(m));
                        }
                    }
                    if view_majmins(d@).contains(m) {
                        if m == d.majmin {
                            assert(out@[0] == m);
                        } else {
                            let j = choose|j: int|
                                0 <= j < d@.partitions->Some_0.len()
                                    && (#[trigger] d@.partitions->Some_0[j]).majmin == m;
                            assert(out@[j + 1] == m);
                        }
                    }
                },
            }
        }
    }
    out
}

/// Whether two devices share any device number.
fn devices_conflict(a: &BlkDevice, b: &BlkDevice) -> (r: bool)
    ensures
        r == views_conflict(a@, b@),
{
    let am = dev_majmins(a);
    let bm = dev_majmins(b);
    let mut x: usize = 0;
    while x < am.len()
        invariant
            0 <= x <= am@.len(),
            forall|m: MajMin| am@.contains(m) <==> view_majmins(a@).contains(m),
            forall|m: MajMin| bm@.contains(m) <==> view_majmins(b@).contains(m),
            forall|i: int, j: int|
                0 <= i < x && 0 <= j < bm@.len() ==> #[trigger] am@[i] != #[trigger] bm@[j],
        decreases am@.len() - x,
    {
        let mut y: usize = 0;
        while y < bm.len()
            invariant
                0 <= y <= bm@.len(),
                x < am@.len(),
                forall|m: MajMin| am@.contains(m) <==> view_majmins(a@).contains(m),
                forall|m: MajMin| bm@.contains(m) <==> view_majmins(b@).contains(m),
                forall|j: int| 0 <= j < y ==> am@[x as int] != #[trigger] bm@[j],
            decreases bm@.len() - y,
        {
            if am[x] == bm[y] {
                proof {
                    let m = am@[x as int];
                    assert(am@.contains(m));
                    assert(bm@.contains(m));
                    assert(view_majmins(a@).contains(m) && view_majmins(b@).contains(m));
                    assert(!view_majmins(a@).disjoint(view_majmins(b@)));
                }
                return true;
            }
            y = y + 1;
        }
        x = x + 1;
    }
    proof {
        assert forall|m: MajMin|
            !(view_majmins(a@).contains(m) && view_majmins(b@).contains(m)) by {
            if view_majmins(a@).contains(m) && view_majmins(b@).contains(m) {
                assert(am@.contains(m));
                assert(bm@.contains(m));
                let i = choose|i: int| 0 <= i < am@.len() && am@[i] == m;
                let j = choose|j: int| 0 <= j < bm@.len() && bm@[j] == m;
                assert(am@[i] != bm@[j]);
            }
        }
        assert(view_majmins(a@).disjoint(view_majmins(b@)));
    }
    false
}

/// Builds the inventory snapshot from the raw observations of every
/// top-level sysfs block entry. An entry that cannot be fully read is
/// dropped and enumeration of the others continues; a virtual disk is
/// dropped unless asked for; an entry that would repeat a device
/// number already emitted is dropped. The result holds whole disks
/// only, partitions nested inside them.
pub fn get_blk_devices(
    include_virtual: bool,
    raws: &Vec<RawBlkDevice>,
    nodes: &Vec<DevNode>,
) -> (result: Vec<BlkDevice>)
    ensures
        devs_view(result@) == enumerate_spec(raws@, nodes@, include_virtual),
        inventory_wf(devs_view(result@)),
{
    let mut out: Vec<BlkDevice> = Vec::new();
    let mut i: usize = 0;
    proof {
        assert(raws@.subrange(0, 0) =~= Seq::<RawBlkDevice>::empty());
        assert(devs_view(out@) =~= Seq::<BlkDeviceView>::empty());
    }
    while i < raws.len()
        invariant
            0 <= i <= raws@.len(),
            devs_view(out@) == enumerate_spec(raws@.subrange(0, i as int), nodes@, include_virtual),
            out@.len() == devs_view(out@).len(),
        decreases raws@.len() - i,
    {
        let ghost prefix = raws@.subrange(0, i as int);
        let ghost prev = enumerate_spec(prefix, nodes@, include_virtual);
        proof {
            assert(raws@.subrange(0, (i + 1) as int).drop_last() =~= prefix);
            assert(raws@.subrange(0, (i + 1) as int).last() == raws@[i as int]);
        }
        match build_device(&raws[i], nodes) {
            Err(_) => {
                proof {
                    assert(enumerate_spec(
                        raws@.subrange(0, (i + 1) as int),
                        nodes@,
                        include_virtual,
                    ) == prev);
                }
            },
            Ok(d) => {
                if !include_virtual && d.is_virtual {
                    proof {
                        assert(device_view_of_raw(raws@[i as int], nodes@).is_virtual);
                    }
                } else {
                    let mut conflict = false;
                    let mut k: usize = 0;
                    while k < out.len()
                        invariant
                            0 <= k <= out@.len(),
                            prev == devs_view(out@),
                            out@.len() == prev.len(),
                            d@ == device_view_of_raw(raws@[i as int], nodes@),
                            conflict ==> exists|x: int|
                                0 <= x < prev.len() && views_conflict(#[trigger] prev[x], d@),
                            !conflict ==> forall|x: int|
                                0 <= x < k ==> !views_conflict(#[trigger] prev[x], d@),
                        decreases out@.len() - k,
                    {
                        if devices_conflict(&out[k], &d) {
                            proof {
                                broadcast use lemma_devs_view_index;

                                assert(prev[k as int] == out@[k as int]@);
                            }
                            conflict = true;
                        }
                        proof {
                            broadcast use lemma_devs_view_index;

                            assert(prev[k as int] == out@[k as int]@);
                        }
                        k = k + 1;
                    }
                    if conflict {
                        proof {
                            assert(enumerate_spec(
                                raws@.subrange(0, (i + 1) as int),
                                nodes@,
                                include_virtual,
                            ) == prev);
                        }
                    } else {
                        let ghost old_out = out@;
                        out.push(d);
                        proof {
                            lemma_devs_view_push(old_out, out@.last());
                            assert(enumerate_spec(
                                raws@.subrange(0, (i + 1) as int),
                                nodes@,
                                include_virtual,
                            ) == prev.push(device_view_of_raw(raws@[i as int], nodes@)));
                        }
                    }
                }
            },
        }
        i = i + 1;
    }
    proof {
        assert(raws@.subrange(0, raws@.len() as int) =~= raws@);
        lemma_enumerate_inventory_wf(raws@, nodes@, include_virtual);
    }
    out
}

} // verus!
