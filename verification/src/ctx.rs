//! The installation orchestrator's state and decisions: boot-device
//! detection, target- and persist-disk selection, and partition-table
//! planning for the chosen install disk.

use vstd::prelude::*;

use crate::actions::{actions_view, ActionView, InstallAction};
use crate::block::{dev_view, devs_view, find_part_spec, lemma_devs_view_index, lemma_devs_view_len, BlkDevice, BlkDeviceView};
use crate::cmdline::{config_from_params, params_view, token_pair, InstallerConfig, KernelCmdline};
use crate::device::MajMin;
use crate::errors::InstallerError;
use crate::strutil::{contains_seq, lemma_concat_contains_suffix, split_by, str_eq, trim_spec};

verus! {

use vstd::string::StringExecFns;

/// The orchestrator's state: the resolved configuration, the detected
/// boot device, and the current inventory snapshot.
#[derive(Debug)]
pub struct InstallerCtx {
    pub config: InstallerConfig,
    pub boot_device: Option<BlkDevice>,
    pub block_devices: Vec<BlkDevice>,
    pub json_config: Option<String>,
}

/// The disk's partition list holds an entry with this exact identity.
pub open spec fn disk_has_part(v: BlkDeviceView, mm: MajMin) -> bool {
    v.partitions matches Some(ps) && exists|j: int| 0 <= j < ps.len() && (#[trigger] ps[j]).majmin
        == mm
}

/// Exactly one disk of the inventory holds a partition with this
/// identity.
pub open spec fn unique_boot_disk(vs: Seq<BlkDeviceView>, mm: MajMin) -> bool {
    exists|i: int|
        0 <= i < vs.len() && disk_has_part(#[trigger] vs[i], mm) && (forall|j: int|
            0 <= j < vs.len() && j != i ==> !disk_has_part(#[trigger] vs[j], mm))
}

/// The index of that one disk.
pub open spec fn boot_disk_index(vs: Seq<BlkDeviceView>, mm: MajMin) -> int {
    choose|i: int|
        0 <= i < vs.len() && disk_has_part(#[trigger] vs[i], mm) && (forall|j: int|
            0 <= j < vs.len() && j != i ==> !disk_has_part(#[trigger] vs[j], mm))
}

/// A disk is an install-target candidate: not the boot disk, and, with
/// an install-disk override configured, exactly the named device node.
pub open spec fn is_target(v: BlkDeviceView, boot_mm: MajMin, filter: Option<Seq<char>>) -> bool {
    &&& v.majmin != boot_mm
    &&& match filter {
        Option::Some(f) => v.device_path == f,
        Option::None => true,
    }
}

/// The target candidates of an inventory, in enumeration order.
pub open spec fn select_targets(
    vs: Seq<BlkDeviceView>,
    boot_mm: MajMin,
    filter: Option<Seq<char>>,
) -> Seq<BlkDeviceView>
    decreases vs.len(),
{
    if vs.len() == 0 {
        Seq::empty()
    } else {
        let rest = select_targets(vs.drop_last(), boot_mm, filter);
        if is_target(vs.last(), boot_mm, filter) {
            rest.push(vs.last())
        } else {
            rest
        }
    }
}

/// A disk is a persist candidate: not the boot disk, and, with an
/// allow-list configured, one of the listed device nodes.
pub open spec fn is_persist(
    v: BlkDeviceView,
    boot_mm: MajMin,
    allow: Option<Seq<Seq<char>>>,
) -> bool {
    &&& v.majmin != boot_mm
    &&& match allow {
        Option::Some(l) => exists|k: int| 0 <= k < l.len() && #[trigger] l[k] == v.device_path,
        Option::None => true,
    }
}

/// The persist candidates of an inventory, in enumeration order.
pub open spec fn select_persist(
    vs: Seq<BlkDeviceView>,
    boot_mm: MajMin,
    allow: Option<Seq<Seq<char>>>,
) -> Seq<BlkDeviceView>
    decreases vs.len(),
{
    if vs.len() == 0 {
        Seq::empty()
    } else {
        let rest = select_persist(vs.drop_last(), boot_mm, allow);
        if is_persist(vs.last(), boot_mm, allow) {
            rest.push(vs.last())
        } else {
            rest
        }
    }
}

/// The entries whose identity differs from `mm`, in order.
pub open spec fn select_not_majmin(vs: Seq<BlkDeviceView>, mm: MajMin) -> Seq<BlkDeviceView>
    decreases vs.len(),
{
    if vs.len() == 0 {
        Seq::empty()
    } else {
        let rest = select_not_majmin(vs.drop_last(), mm);
        if vs.last().majmin != mm {
            rest.push(vs.last())
        } else {
            rest
        }
    }
}

/// The configured install-disk override, as text.
pub open spec fn install_filter(c: InstallerConfig) -> Option<Seq<char>> {
    match c.eve_install_disk {
        Option::Some(f) => Option::Some(f@),
        Option::None => Option::None,
    }
}

/// The configured persist-disk allow-list, as text.
pub open spec fn persist_allow(c: InstallerConfig) -> Option<Seq<Seq<char>>> {
    match c.eve_persist_disk {
        Option::Some(l) => Option::Some(l.deep_view()),
        Option::None => Option::None,
    }
}

impl InstallerCtx {
    /// A fresh context from raw kernel command-line text: the
    /// configuration is resolved from the line, and no boot device or
    /// inventory is known yet.
    pub fn build(cmdline_text: &str) -> (r: Result<InstallerCtx, InstallerError>)
        ensures
            r is Ok,
            r matches Ok(c) ==> {
                &&& config_from_params(
                    c.config,
                    split_by(trim_spec(cmdline_text@), ' ').map_values(
                        |tok: Seq<char>| token_pair(tok),
                    ),
                )
                &&& c.boot_device is None
                &&& c.block_devices@.len() == 0
                &&& c.json_config is None
            },
    {
        let cmd_line = match KernelCmdline::new().parse(cmdline_text) {
            Ok(c) => c,
            Err(e) => {
                return Err(e);
            },
        };
        proof {
            assert(Seq::<crate::cmdline::ParamView>::empty() + split_by(
                trim_spec(cmdline_text@),
                ' ',
            ).map_values(|tok: Seq<char>| token_pair(tok)) =~= split_by(
                trim_spec(cmdline_text@),
                ' ',
            ).map_values(|tok: Seq<char>| token_pair(tok)));
            assert(params_view(Seq::<crate::cmdline::Param>::empty()) =~= Seq::<
                crate::cmdline::ParamView,
            >::empty());
        }
        let config = InstallerConfig::from_cmdline(&cmd_line);
        Ok(InstallerCtx {
            config,
            boot_device: None,
            block_devices: Vec::new(),
            json_config: None,
        })
    }

    /// Takes the fresh inventory and finds the unique whole disk one of
    /// whose partitions carries the boot medium's identity. Zero or
    /// several such disks is a fatal "cannot detect boot device" error;
    /// the caller must not guess.
    pub fn detect_boot_device(&mut self, boot_majmin: MajMin, devices: Vec<BlkDevice>) -> (r:
        Result<(), InstallerError>)
        ensures
            devs_view(final(self).block_devices@) == devs_view(devices@),
            final(self).config == old(self).config,
            final(self).json_config == old(self).json_config,
            r is Ok <==> unique_boot_disk(devs_view(devices@), boot_majmin),
            r is Ok ==> (final(self).boot_device matches Some(b) && b@ == devs_view(devices@)[
                boot_disk_index(devs_view(devices@), boot_majmin)
            ]),
            r is Err ==> final(self).boot_device == old(self).boot_device && r->Err_0
                is NotFound,
    {
        let ghost vs = devs_view(devices@);
        proof {
            lemma_devs_view_len(devices@);
        }
        self.block_devices = devices;
        let n = self.block_devices.len();
        // first disk holding the partition
        let mut f: usize = 0;
        while f < n && !Self::device_has_partition(&self.block_devices[f], &boot_majmin)
            invariant
                0 <= f <= n,
                n == self.block_devices@.len(),
                vs == devs_view(self.block_devices@),
                vs == devs_view(devices@),
                vs.len() == n,
                self.config == old(self).config,
                self.json_config == old(self).json_config,
                self.boot_device == old(self).boot_device,
                forall|j: int| 0 <= j < f ==> !disk_has_part(#[trigger] vs[j], boot_majmin),
            decreases n - f,
        {
            proof {
                broadcast use lemma_devs_view_index;

                assert(vs[f as int] == self.block_devices@[f as int]@);
            }
            f = f + 1;
        }
        proof {
            broadcast use lemma_devs_view_index;

            if f < n {
                assert(vs[f as int] == self.block_devices@[f as int]@);
            }
        }
        if f == n {
            proof {
                if unique_boot_disk(vs, boot_majmin) {
                    let w = boot_disk_index(vs, boot_majmin);
                    assert(disk_has_part(vs[w], boot_majmin));
                }
            }
            let mut m = String::new();
            m.append("cannot detect boot device");
            return Err(InstallerError::NotFound(m));
        }
        // any second disk holding it makes detection ambiguous
        let mut j: usize = f + 1;
        while j < n && !Self::device_has_partition(&self.block_devices[j], &boot_majmin)
            invariant
                f < j <= n,
                f < n,
                n == self.block_devices@.len(),
                vs == devs_view(self.block_devices@),
                vs == devs_view(devices@),
                vs.len() == n,
                self.config == old(self).config,
                self.json_config == old(self).json_config,
                self.boot_device == old(self).boot_device,
                disk_has_part(vs[f as int], boot_majmin),
                forall|k: int| 0 <= k < f ==> !disk_has_part(#[trigger] vs[k], boot_majmin),
                forall|k: int| f < k < j ==> !disk_has_part(#[trigger] vs[k], boot_majmin),
            decreases n - j,
        {
            proof {
                broadcast use lemma_devs_view_index;

                assert(vs[j as int] == self.block_devices@[j as int]@);
            }
            j = j + 1;
        }
        proof {
            broadcast use lemma_devs_view_index;

            if j < n {
                assert(vs[j as int] == self.block_devices@[j as int]@);
            }
        }
        if j < n {
            proof {
                if unique_boot_disk(vs, boot_majmin) {
                    let w = boot_disk_index(vs, boot_majmin);
                    assert(disk_has_part(vs[f as int], boot_majmin));
                    assert(disk_has_part(vs[j as int], boot_majmin));
                    if w != f as int {
                        assert(!disk_has_part(vs[f as int], boot_majmin));
                    }
                    if w != j as int {
                        assert(!disk_has_part(vs[j as int], boot_majmin));
                    }
                }
            }
            let mut m = String::new();
            m.append("cannot detect boot device");
            return Err(InstallerError::NotFound(m));
        }
        proof {
            assert(unique_boot_disk(vs, boot_majmin)) by {
                assert(disk_has_part(vs[f as int], boot_majmin) && (forall|k: int|
                    0 <= k < vs.len() && k != f ==> !disk_has_part(#[trigger] vs[k], boot_majmin)));
            }
            let w = boot_disk_index(vs, boot_majmin);
            if w != f as int {
                assert(!disk_has_part(vs[w], boot_majmin));
            }
            broadcast use lemma_devs_view_index;

        }
        let b = self.block_devices[f].duplicate();
        self.boot_device = Some(b);
        Ok(())
    }

    /// Whether one of the disk's partitions carries this identity.
    fn device_has_partition(dev: &BlkDevice, mm: &MajMin) -> (r: bool)
        ensures
            r == disk_has_part(dev@, *mm),
    {
        match &dev.partitions {
            None => false,
            Some(ps) => {
                let ghost vps = dev@.partitions->Some_0;
                proof {
                    lemma_devs_view_len(ps@);
                }
                let mut j: usize = 0;
                while j < ps.len()
                    invariant
                        0 <= j <= ps@.len(),
                        dev.partitions matches Some(v) && v == *ps,
                        vps == dev@.partitions->Some_0,
                        vps == devs_view(ps@),
                        vps.len() == ps@.len(),
                        forall|k: int| 0 <= k < j ==> (#[trigger] vps[k]).majmin != *mm,
                    decreases ps@.len() - j,
                {
                    proof {
                        broadcast use lemma_devs_view_index;

                        assert(vps[j as int] == dev_view(ps@[j as int]));
                    }
                    if ps[j].majmin == *mm {
                        return true;
                    }
                    j = j + 1;
                }
                false
            },
        }
    }

    /// The install-target candidates: every disk of the inventory but
    /// the boot disk, narrowed to the named device when an install-disk
    /// override is configured. Without a detected boot device there are
    /// no candidates.
    pub fn get_target_disks(&self) -> (r: Vec<BlkDevice>)
        ensures
            self.boot_device is None ==> r@.len() == 0,
            self.boot_device matches Some(b) ==> devs_view(r@) == select_targets(
                devs_view(self.block_devices@),
                b@.majmin,
                install_filter(self.config),
            ),
    {
        let boot = match &self.boot_device {
            None => {
                return Vec::new();
            },
            Some(b) => b,
        };
        let ghost vs = devs_view(self.block_devices@);
        let ghost filter = install_filter(self.config);
        proof {
            lemma_devs_view_len(self.block_devices@);
        }
        let mut out: Vec<BlkDevice> = Vec::new();
        let mut i: usize = 0;
        proof {
            assert(self.block_devices@.subrange(0, 0) =~= Seq::<BlkDevice>::empty());
            assert(devs_view(out@) =~= Seq::<BlkDeviceView>::empty());
            assert(vs.subrange(0, 0) =~= Seq::<BlkDeviceView>::empty());
        }
        while i < self.block_devices.len()
            invariant
                0 <= i <= self.block_devices@.len(),
                vs == devs_view(self.block_devices@),
                vs.len() == self.block_devices@.len(),
                self.boot_device matches Some(b) && b@.majmin == boot@.majmin,
                filter == install_filter(self.config),
                devs_view(out@) == select_targets(vs.subrange(0, i as int), boot@.majmin, filter),
            decreases self.block_devices@.len() - i,
        {
            proof {
                broadcast use lemma_devs_view_index;

                assert(vs.subrange(0, (i + 1) as int).drop_last() =~= vs.subrange(0, i as int));
                assert(vs.subrange(0, (i + 1) as int).last() == vs[i as int]);
            }
            let d = &self.block_devices[i];
            let keep = if d.majmin == boot.majmin {
                false
            } else {
                match &self.config.eve_install_disk {
                    Some(f) => str_eq(d.device_path.as_str(), f.as_str()),
                    None => true,
                }
            };
            proof {
                assert(vs[i as int] == d@);
            }
            if keep {
                let ghost old_out = out@;
                out.push(d.duplicate());
                proof {
                    crate::block::lemma_devs_view_push(old_out, out@.last());
                    assert(out@ == old_out.push(out@.last()));
                    assert(out@.last()@ == vs[i as int]);
                    assert(devs_view(out@) =~= devs_view(old_out).push(vs[i as int]));
                }
            }
            i = i + 1;
        }
        proof {
            assert(vs.subrange(0, vs.len() as int) =~= vs);
        }
        out
    }

    /// The persist-disk candidates: every disk of the inventory but the
    /// boot disk, narrowed to the configured allow-list when one is
    /// given; without a list, every remaining disk is eligible. Without
    /// a detected boot device there are no candidates.
    pub fn get_persist_disks(&self) -> (r: Vec<BlkDevice>)
        ensures
            self.boot_device is None ==> r@.len() == 0,
            self.boot_device matches Some(b) ==> devs_view(r@) == select_persist(
                devs_view(self.block_devices@),
                b@.majmin,
                persist_allow(self.config),
            ),
    {
        let boot = match &self.boot_device {
            None => {
                return Vec::new();
            },
            Some(b) => b,
        };
        let ghost vs = devs_view(self.block_devices@);
        let ghost allow = persist_allow(self.config);
        proof {
            lemma_devs_view_len(self.block_devices@);
        }
        let mut out: Vec<BlkDevice> = Vec::new();
        let mut i: usize = 0;
        proof {
            assert(devs_view(out@) =~= Seq::<BlkDeviceView>::empty());
            assert(vs.subrange(0, 0) =~= Seq::<BlkDeviceView>::empty());
        }
        while i < self.block_devices.len()
            invariant
                0 <= i <= self.block_devices@.len(),
                vs == devs_view(self.block_devices@),
                vs.len() == self.block_devices@.len(),
                self.boot_device matches Some(b) && b@.majmin == boot@.majmin,
                allow == persist_allow(self.config),
                devs_view(out@) == select_persist(vs.subrange(0, i as int), boot@.majmin, allow),
            decreases self.block_devices@.len() - i,
        {
            proof {
                broadcast use lemma_devs_view_index;

                assert(vs.subrange(0, (i + 1) as int).drop_last() =~= vs.subrange(0, i as int));
                assert(vs.subrange(0, (i + 1) as int).last() == vs[i as int]);
            }
            let d = &self.block_devices[i];
            let keep = if d.majmin == boot.majmin {
                false
            } else {
                match &self.config.eve_persist_disk {
                    Some(disks) => Self::path_listed(disks, d),
                    None => true,
                }
            };
            proof {
                assert(vs[i as int] == d@);
            }
            if keep {
                let ghost old_out = out@;
                out.push(d.duplicate());
                proof {
                    crate::block::lemma_devs_view_push(old_out, out@.last());
                    assert(out@ == old_out.push(out@.last()));
                    assert(out@.last()@ == vs[i as int]);
                    assert(devs_view(out@) =~= devs_view(old_out).push(vs[i as int]));
                }
            }
            i = i + 1;
        }
        proof {
            assert(vs.subrange(0, vs.len() as int) =~= vs);
        }
        out
    }

    /// The persist disks of this run: the persist candidates with the
    /// chosen install target itself taken out, so that storage managed
    /// by an external volume manager never claims the disk being
    /// installed onto.
    pub fn select_persist_disks(&self, install: &BlkDevice) -> (r: Vec<BlkDevice>)
        ensures
            self.boot_device is None ==> r@.len() == 0,
            self.boot_device matches Some(b) ==> devs_view(r@) == select_not_majmin(
                select_persist(
                    devs_view(self.block_devices@),
                    b@.majmin,
                    persist_allow(self.config),
                ),
                install@.majmin,
            ),
    {
        let candidates = self.get_persist_disks();
        let ghost vs = devs_view(candidates@);
        proof {
            lemma_devs_view_len(candidates@);
        }
        let mut out: Vec<BlkDevice> = Vec::new();
        let mut i: usize = 0;
        proof {
            assert(devs_view(out@) =~= Seq::<BlkDeviceView>::empty());
            assert(vs.subrange(0, 0) =~= Seq::<BlkDeviceView>::empty());
        }
        while i < candidates.len()
            invariant
                0 <= i <= candidates@.len(),
                vs == devs_view(candidates@),
                vs.len() == candidates@.len(),
                devs_view(out@) == select_not_majmin(vs.subrange(0, i as int), install@.majmin),
            decreases candidates@.len() - i,
        {
            proof {
                broadcast use lemma_devs_view_index;

                assert(vs.subrange(0, (i + 1) as int).drop_last() =~= vs.subrange(0, i as int));
                assert(vs.subrange(0, (i + 1) as int).last() == vs[i as int]);
            }
            let d = &candidates[i];
            proof {
                assert(vs[i as int] == d@);
            }
            if d.majmin != install.majmin {
                let ghost old_out = out@;
                out.push(d.duplicate());
                proof {
                    crate::block::lemma_devs_view_push(old_out, out@.last());
                    assert(out@ == old_out.push(out@.last()));
                    assert(out@.last()@ == vs[i as int]);
                    assert(devs_view(out@) =~= devs_view(old_out).push(vs[i as int]));
                }
            }
            i = i + 1;
        }
        proof {
            assert(vs.subrange(0, vs.len() as int) =~= vs);
        }
        out
    }

    /// Whether the device's node path stands in the list.
    fn path_listed(disks: &Vec<String>, d: &BlkDevice) -> (r: bool)
        ensures
            r == exists|k: int|
                0 <= k < disks.deep_view().len() && #[trigger] disks.deep_view()[k]
                    == d@.device_path,
    {
        let mut k: usize = 0;
        while k < disks.len()
            invariant
                0 <= k <= disks@.len(),
                disks.deep_view().len() == disks@.len(),
                forall|x: int| 0 <= x < k ==> #[trigger] disks.deep_view()[x] != d@.device_path,
            decreases disks@.len() - k,
        {
            if str_eq(disks[k].as_str(), d.device_path.as_str()) {
                proof {
                    assert(disks.deep_view()[k as int] == disks@[k as int]@);
                }
                return true;
            }
            proof {
                assert(disks.deep_view()[k as int] == disks@[k as int]@);
            }
            k = k + 1;
        }
        false
    }

    /// The install disk: the first target candidate in enumeration
    /// order; no candidate at all is a fatal "not found" error.
    pub fn select_install_disk(&self) -> (r: Result<BlkDevice, InstallerError>)
        ensures
            self.boot_device matches Some(b) ==> {
                let targets = select_targets(
                    devs_view(self.block_devices@),
                    b@.majmin,
                    install_filter(self.config),
                );
                &&& (r is Ok <==> targets.len() > 0)
                &&& (r matches Ok(d) ==> d@ == targets[0])
            },
            self.boot_device is None ==> r is Err,
            r is Err ==> r->Err_0 is NotFound,
    {
        let targets = self.get_target_disks();
        if targets.len() == 0 {
            let mut m = String::new();
            m.append("no target disk to install onto");
            return Err(InstallerError::NotFound(m));
        }
        proof {
            lemma_devs_view_len(targets@);
            broadcast use lemma_devs_view_index;

        }
        Ok(targets[0].duplicate())
    }
}

/// EFI System partition size in bytes.
pub const EFI_PART_SIZE: u64 = 36 * 1024 * 1024;

/// Root-filesystem partition size in bytes.
pub const ROOTFS_PART_SIZE: u64 = 300 * 1024 * 1024;

/// CONFIG partition size in bytes.
pub const CONF_PART_SIZE: u64 = 1024 * 1024;

/// A planned slot carries the role's fixed attributes: its table slot,
/// its label, its partition-type GUID, its attribute bits, and a
/// length of the role's byte size in sectors, rounded up to the
/// table's alignment unit.
pub open spec fn role_entry_ok(
    e: crate::plan::GptEntryView,
    idx: u32,
    name: Seq<char>,
    guid: Seq<u8>,
    attrs: u64,
    size_bytes: u64,
    t: crate::plan::GptTableView,
) -> bool {
    &&& e.index == idx
    &&& e.partition_name == name
    &&& e.partition_type_guid == guid
    &&& e.attribute_bits == attrs
    &&& e.ending_lba as int - e.starting_lba - 1 == crate::plan::spec_round_up(
        crate::plan::spec_sector_count(size_bytes, t.sector_size),
        t.align,
    )
}

/// P3 is planned on this disk exactly when the persist configuration
/// names it as the sole persist target. With other disks configured,
/// or with no explicit disk configured, persistent storage lives
/// elsewhere and P3 is omitted here.
pub open spec fn persist_on_this_disk(c: InstallerConfig, path: Seq<char>) -> bool {
    match c.eve_persist_disk {
        Option::None => false,
        Option::Some(l) => l.deep_view().len() == 1 && l.deep_view()[0] == path,
    }
}

/// Two tables agree on everything placement depends on: bounds,
/// alignment, and the sector range of every slot.
pub open spec fn geometry_match(a: crate::plan::GptTableView, b: crate::plan::GptTableView) -> bool {
    &&& a.sector_size == b.sector_size
    &&& a.align == b.align
    &&& a.first_usable == b.first_usable
    &&& a.last_usable == b.last_usable
    &&& a.entries.len() == b.entries.len()
    &&& forall|k: int|
        0 <= k < a.entries.len() ==> (#[trigger] a.entries[k]).starting_lba
            == (#[trigger] b.entries[k]).starting_lba && a.entries[k].ending_lba
            == b.entries[k].ending_lba
}

/// The geometry of the table once the four fixed-size roles are
/// placed, in planning order, on a blank disk of this geometry.
pub open spec fn planned_geometry(sector_size: u64, disk_len: u64) -> crate::plan::GptTableView {
    let t0 = crate::plan::blank_geometry(sector_size, disk_len);
    let sec_efi = crate::plan::spec_sector_count(EFI_PART_SIZE, sector_size);
    let sec_root = crate::plan::spec_sector_count(ROOTFS_PART_SIZE, sector_size);
    let sec_conf = crate::plan::spec_sector_count(CONF_PART_SIZE, sector_size);
    crate::plan::after_place(
        crate::plan::after_place(
            crate::plan::after_place(crate::plan::after_place(t0, sec_efi), sec_root),
            sec_root,
        ),
        sec_conf,
    )
}

/// Every role of the table plan finds a gap, in planning order, on a
/// blank table of this geometry: EFI System, then the two root slots,
/// then CONFIG, and, when P3 is planned here, at least one alignment
/// unit for it.
pub open spec fn plan_fits(t0: crate::plan::GptTableView, persist_here: bool) -> bool {
    let ss = t0.sector_size;
    let sec_efi = crate::plan::spec_sector_count(EFI_PART_SIZE, ss);
    let sec_root = crate::plan::spec_sector_count(ROOTFS_PART_SIZE, ss);
    let sec_conf = crate::plan::spec_sector_count(CONF_PART_SIZE, ss);
    crate::plan::first_fit(t0, sec_efi) is Some && {
        let t1 = crate::plan::after_place(t0, sec_efi);
        crate::plan::first_fit(t1, sec_root) is Some && {
            let t2 = crate::plan::after_place(t1, sec_root);
            crate::plan::first_fit(t2, sec_root) is Some && {
                let t3 = crate::plan::after_place(t2, sec_root);
                crate::plan::first_fit(t3, sec_conf) is Some && (persist_here
                    ==> crate::plan::first_fit(crate::plan::after_place(t3, sec_conf), t0.align)
                    is Some)
            }
        }
    }
}

impl InstallerCtx {
    /// Plans the EFI System slot: table slot 1, the well-known EFI
    /// partition-type GUID, and the legacy-bootable attribute bit.
    pub fn create_efi_partition(&self, gpt: &mut crate::plan::GptTable) -> (r: Result<
        (),
        InstallerError,
    >)
        requires
            crate::plan::table_wf(old(gpt)@),
            forall|i: int|
                0 <= i < old(gpt)@.entries.len() ==> (#[trigger] old(gpt)@.entries[i]).index != 1,
        ensures
            crate::plan::table_wf(final(gpt)@),
            final(gpt)@.sector_size == old(gpt)@.sector_size,
            final(gpt)@.align == old(gpt)@.align,
            final(gpt)@.first_usable == old(gpt)@.first_usable,
            final(gpt)@.last_usable == old(gpt)@.last_usable,
            r is Ok <==> crate::plan::first_fit(
                old(gpt)@,
                crate::plan::spec_sector_count(EFI_PART_SIZE, old(gpt)@.sector_size),
            ) is Some,
            r matches Err(e) ==> final(gpt)@ == old(gpt)@ && e is NotFound,
            r is Ok ==> final(gpt)@.entries =~= old(gpt)@.entries.push(
                final(gpt)@.entries.last(),
            ) && role_entry_ok(
                final(gpt)@.entries.last(),
                1,
                "EFI System"@,
                crate::plan::efi_system_guid(),
                1u64 << 2,
                EFI_PART_SIZE,
                final(gpt)@,
            ) && final(gpt)@.entries.last().starting_lba == crate::plan::first_fit(
                old(gpt)@,
                crate::plan::spec_sector_count(EFI_PART_SIZE, old(gpt)@.sector_size),
            )->Some_0,
    {
        // the legacy-bootable attribute bit
        gpt.create_partition(
            1,
            "EFI System",
            EFI_PART_SIZE,
            crate::plan::efi_system_guid_bytes(),
            1u64 << 2,
        )
    }

    /// Plans one root-filesystem slot: IMGA in slot 2 with the bits
    /// marking it the active, bootable half of the failover pair, or
    /// the deliberately empty IMGB in slot 3 with no attribute bits.
    pub fn create_rootfs_partition(
        &self,
        gpt: &mut crate::plan::GptTable,
        label: &str,
        primary: bool,
    ) -> (r: Result<(), InstallerError>)
        requires
            crate::plan::table_wf(old(gpt)@),
            forall|i: int|
                0 <= i < old(gpt)@.entries.len() ==> (#[trigger] old(gpt)@.entries[i]).index != (
                if primary {
                    2u32
                } else {
                    3u32
                }),
        ensures
            crate::plan::table_wf(final(gpt)@),
            final(gpt)@.sector_size == old(gpt)@.sector_size,
            final(gpt)@.align == old(gpt)@.align,
            final(gpt)@.first_usable == old(gpt)@.first_usable,
            final(gpt)@.last_usable == old(gpt)@.last_usable,
            r is Ok <==> crate::plan::first_fit(
                old(gpt)@,
                crate::plan::spec_sector_count(ROOTFS_PART_SIZE, old(gpt)@.sector_size),
            ) is Some,
            r matches Err(e) ==> final(gpt)@ == old(gpt)@ && e is NotFound,
            r is Ok ==> final(gpt)@.entries =~= old(gpt)@.entries.push(
                final(gpt)@.entries.last(),
            ) && role_entry_ok(
                final(gpt)@.entries.last(),
                if primary {
                    2u32
                } else {
                    3u32
                },
                label@,
                crate::plan::usr_x86_64_guid(),
                if primary {
                    (1u64 << 49) | (1u64 << 56)
                } else {
                    0u64
                },
                ROOTFS_PART_SIZE,
                final(gpt)@,
            ) && final(gpt)@.entries.last().starting_lba == crate::plan::first_fit(
                old(gpt)@,
                crate::plan::spec_sector_count(ROOTFS_PART_SIZE, old(gpt)@.sector_size),
            )->Some_0,
    {
        let index: u32 = if primary {
            2
        } else {
            3
        };
        // the active/bootable bits of the A/B scheme, on the primary only
        let attrs: u64 = if primary {
            (1u64 << 49) | (1u64 << 56)
        } else {
            0
        };
        gpt.create_partition(
            index,
            label,
            ROOTFS_PART_SIZE,
            crate::plan::usr_x86_64_guid_bytes(),
            attrs,
        )
    }

    /// Plans the CONFIG slot: table slot 4 with the appliance's private
    /// CONFIG partition-type GUID.
    pub fn create_config_partition(&self, gpt: &mut crate::plan::GptTable) -> (r: Result<
        (),
        InstallerError,
    >)
        requires
            crate::plan::table_wf(old(gpt)@),
            forall|i: int|
                0 <= i < old(gpt)@.entries.len() ==> (#[trigger] old(gpt)@.entries[i]).index != 4,
        ensures
            crate::plan::table_wf(final(gpt)@),
            final(gpt)@.sector_size == old(gpt)@.sector_size,
            final(gpt)@.align == old(gpt)@.align,
            final(gpt)@.first_usable == old(gpt)@.first_usable,
            final(gpt)@.last_usable == old(gpt)@.last_usable,
            r is Ok <==> crate::plan::first_fit(
                old(gpt)@,
                crate::plan::spec_sector_count(CONF_PART_SIZE, old(gpt)@.sector_size),
            ) is Some,
            r matches Err(e) ==> final(gpt)@ == old(gpt)@ && e is NotFound,
            r is Ok ==> final(gpt)@.entries =~= old(gpt)@.entries.push(
                final(gpt)@.entries.last(),
            ) && role_entry_ok(
                final(gpt)@.entries.last(),
                4,
                "CONFIG"@,
                crate::plan::config_guid(),
                0,
                CONF_PART_SIZE,
                final(gpt)@,
            ) && final(gpt)@.entries.last().starting_lba == crate::plan::first_fit(
                old(gpt)@,
                crate::plan::spec_sector_count(CONF_PART_SIZE, old(gpt)@.sector_size),
            )->Some_0,
    {
        gpt.create_partition(4, "CONFIG", CONF_PART_SIZE, crate::plan::config_guid_bytes(), 0)
    }

    /// Plans the P3 (persist) slot: table slot 9 with the appliance's
    /// private persist partition-type GUID, sized to the entire
    /// remaining free space of the table.
    pub fn create_persist_partition(&self, gpt: &mut crate::plan::GptTable) -> (r: Result<
        (),
        InstallerError,
    >)
        requires
            crate::plan::table_wf(old(gpt)@),
            forall|i: int|
                0 <= i < old(gpt)@.entries.len() ==> (#[trigger] old(gpt)@.entries[i]).index != 9,
        ensures
            crate::plan::table_wf(final(gpt)@),
            final(gpt)@.sector_size == old(gpt)@.sector_size,
            final(gpt)@.align == old(gpt)@.align,
            final(gpt)@.first_usable == old(gpt)@.first_usable,
            final(gpt)@.last_usable == old(gpt)@.last_usable,
            r is Ok <==> crate::plan::first_fit(old(gpt)@, old(gpt)@.align) is Some,
            r matches Err(e) ==> final(gpt)@ == old(gpt)@ && e is NotFound,
            r is Ok ==> final(gpt)@.entries =~= old(gpt)@.entries.push(
                final(gpt)@.entries.last(),
            ) && ({
                let e = final(gpt)@.entries.last();
                &&& e.index == 9
                &&& e.partition_name == "P3"@
                &&& e.partition_type_guid == crate::plan::p3_guid()
                &&& e.attribute_bits == 0
            }),
            // the slot takes the entire remaining free space: the
            // largest aligned sector count that still fit anywhere,
            // placed at its first fit
            r is Ok ==> ({
                let e = final(gpt)@.entries.last();
                let len = (e.ending_lba - e.starting_lba - 1) as u64;
                &&& len % old(gpt)@.align == 0
                &&& 1 <= len
                &&& crate::plan::first_fit(old(gpt)@, len) is Some
                &&& e.starting_lba == crate::plan::first_fit(old(gpt)@, len)->Some_0
                &&& forall|w: u64|
                    #[trigger] (w % old(gpt)@.align) == 0 && w > len ==> crate::plan::first_fit(
                        old(gpt)@,
                        w,
                    ) is None
            }),
    {
        let max_sectors = match gpt.get_maximum_partition_size() {
            Ok(v) => v,
            Err(e) => {
                return Err(e);
            },
        };
        proof {
            crate::plan::lemma_first_fit_witness(gpt@, max_sectors);
        }
        match gpt.create_partition_sectors(9, "P3", max_sectors, crate::plan::p3_guid_bytes(), 0) {
            Ok(()) => {
                proof {
                    crate::plan::lemma_round_up_of_multiple(max_sectors, gpt.align);
                    let e = gpt@.entries.last();
                    assert(e.ending_lba - e.starting_lba - 1 == max_sectors);
                }
                Ok(())
            },
            Err(e) => Err(e),
        }
    }

    /// Plans the whole table for the chosen install disk, whose byte
    /// length the caller measured: the fixed roles in their fixed
    /// slots, EFI System then IMGA, IMGB and CONFIG, and P3 only when
    /// the persist configuration names exactly this disk as the sole
    /// persist target. Only a whole disk may be partitioned. Writing
    /// the planned table to the disk, and re-enumerating afterwards,
    /// is the surrounding program's work.
    #[verifier::rlimit(60)]
    pub fn create_partition_table(&self, dev: &BlkDevice, disk_len: u64) -> (r: Result<
        crate::plan::GptTable,
        InstallerError,
    >)
        requires
            512 <= dev@.sector_size,
            disk_len / dev@.sector_size >= 2 * (16383u64 / dev@.sector_size + 1) + 4,
        ensures
            dev@.part_index is Some ==> r is Err,
            r matches Err(e) ==> (e is State || e is NotFound),
            r is Ok <==> dev@.part_index is None && plan_fits(
                crate::plan::blank_geometry(dev@.sector_size, disk_len),
                persist_on_this_disk(self.config, dev@.device_path),
            ),
            r matches Ok(t) ==> {
                let here = persist_on_this_disk(self.config, dev@.device_path);
                &&& crate::plan::table_wf(t@)
                &&& t@.sector_size == dev@.sector_size
                &&& t@.align == 2048
                &&& t@.entries.len() == if here {
                    5int
                } else {
                    4int
                }
                &&& role_entry_ok(
                    t@.entries[0],
                    1,
                    "EFI System"@,
                    crate::plan::efi_system_guid(),
                    1u64 << 2,
                    EFI_PART_SIZE,
                    t@,
                )
                &&& role_entry_ok(
                    t@.entries[1],
                    2,
                    "IMGA"@,
                    crate::plan::usr_x86_64_guid(),
                    (1u64 << 49) | (1u64 << 56),
                    ROOTFS_PART_SIZE,
                    t@,
                )
                &&& role_entry_ok(
                    t@.entries[2],
                    3,
                    "IMGB"@,
                    crate::plan::usr_x86_64_guid(),
                    0,
                    ROOTFS_PART_SIZE,
                    t@,
                )
                &&& role_entry_ok(
                    t@.entries[3],
                    4,
                    "CONFIG"@,
                    crate::plan::config_guid(),
                    0,
                    CONF_PART_SIZE,
                    t@,
                )
                &&& (here ==> t@.entries[4].index == 9 && t@.entries[4].partition_name == "P3"@
                    && t@.entries[4].partition_type_guid == crate::plan::p3_guid()
                    && t@.entries[4].attribute_bits == 0)
                &&& (here ==> ({
                    // P3 takes the entire remaining free space: the
                    // largest aligned count that still fit once the
                    // four fixed roles were placed
                    let e = t@.entries[4];
                    let len = (e.ending_lba - e.starting_lba - 1) as u64;
                    let g = planned_geometry(dev@.sector_size, disk_len);
                    &&& len % 2048 == 0
                    &&& 1 <= len
                    &&& crate::plan::first_fit(g, len) is Some
                    &&& forall|w: u64|
                        #[trigger] (w % 2048u64) == 0 && w > len ==> crate::plan::first_fit(g, w)
                            is None
                }))
                // the planned slots never overlap: each ends before
                // the next begins
                &&& crate::plan::slots_ordered(t@)
            },
    {
        let ghost here = persist_on_this_disk(self.config, dev@.device_path);
        let ghost g0 = crate::plan::blank_geometry(dev@.sector_size, disk_len);
        let ghost sec_efi = crate::plan::spec_sector_count(EFI_PART_SIZE, dev@.sector_size);
        let ghost sec_root = crate::plan::spec_sector_count(ROOTFS_PART_SIZE, dev@.sector_size);
        let ghost sec_conf = crate::plan::spec_sector_count(CONF_PART_SIZE, dev@.sector_size);
        let mut gpt = match dev.new_gpt(disk_len) {
            Ok(t) => t,
            Err(e) => {
                return Err(e);
            },
        };
        proof {
            assert(geometry_match(gpt@, g0));
            assert(crate::plan::slots_packed(gpt@));
            vstd::arithmetic::div_mod::lemma_div_pos_is_pos(
                (EFI_PART_SIZE - 1) as int,
                dev@.sector_size as int,
            );
            vstd::arithmetic::div_mod::lemma_div_pos_is_pos(
                (ROOTFS_PART_SIZE - 1) as int,
                dev@.sector_size as int,
            );
            vstd::arithmetic::div_mod::lemma_div_pos_is_pos(
                (CONF_PART_SIZE - 1) as int,
                dev@.sector_size as int,
            );
            assert(1 <= sec_efi && 1 <= sec_root && 1 <= sec_conf);
        }
        let ghost t0 = gpt@;
        if let Err(e) = self.create_efi_partition(&mut gpt) {
            proof {
                crate::plan::lemma_first_fit_geometry(t0, g0, sec_efi);
            }
            return Err(e);
        }
        let ghost g1 = crate::plan::after_place(g0, sec_efi);
        proof {
            reveal_strlit("EFI System");
            reveal_strlit("IMGA");
            reveal_strlit("IMGB");
            reveal_strlit("CONFIG");
            reveal_strlit("P3");
            crate::plan::lemma_first_fit_geometry(t0, g0, sec_efi);
            assert(geometry_match(gpt@, g1));
            crate::plan::lemma_first_fit_witness(t0, sec_efi);
            crate::plan::lemma_place_keeps_packed(
                t0,
                gpt@,
                sec_efi,
                gpt@.entries.last().starting_lba,
            );
        }
        let ghost t1 = gpt@;
        if let Err(e) = self.create_rootfs_partition(&mut gpt, "IMGA", true) {
            proof {
                crate::plan::lemma_first_fit_geometry(t1, g1, sec_root);
            }
            return Err(e);
        }
        let ghost g2 = crate::plan::after_place(g1, sec_root);
        proof {
            crate::plan::lemma_first_fit_geometry(t1, g1, sec_root);
            assert(geometry_match(gpt@, g2));
            crate::plan::lemma_first_fit_witness(t1, sec_root);
            crate::plan::lemma_place_keeps_packed(
                t1,
                gpt@,
                sec_root,
                gpt@.entries.last().starting_lba,
            );
        }
        let ghost t2 = gpt@;
        if let Err(e) = self.create_rootfs_partition(&mut gpt, "IMGB", false) {
            proof {
                crate::plan::lemma_first_fit_geometry(t2, g2, sec_root);
            }
            return Err(e);
        }
        let ghost g3 = crate::plan::after_place(g2, sec_root);
        proof {
            crate::plan::lemma_first_fit_geometry(t2, g2, sec_root);
            assert(geometry_match(gpt@, g3));
            crate::plan::lemma_first_fit_witness(t2, sec_root);
            crate::plan::lemma_place_keeps_packed(
                t2,
                gpt@,
                sec_root,
                gpt@.entries.last().starting_lba,
            );
        }
        let ghost t3 = gpt@;
        if let Err(e) = self.create_config_partition(&mut gpt) {
            proof {
                crate::plan::lemma_first_fit_geometry(t3, g3, sec_conf);
            }
            return Err(e);
        }
        let ghost g4 = crate::plan::after_place(g3, sec_conf);
        proof {
            crate::plan::lemma_first_fit_geometry(t3, g3, sec_conf);
            assert(geometry_match(gpt@, g4));
            crate::plan::lemma_first_fit_witness(t3, sec_conf);
            crate::plan::lemma_place_keeps_packed(
                t3,
                gpt@,
                sec_conf,
                gpt@.entries.last().starting_lba,
            );
        }
        let ghost t4 = gpt@;
        // persist on this disk only when it is the sole configured
        // target; by default persistent storage lives on other disks
        let persist_here = match &self.config.eve_persist_disk {
            Some(p) => p.len() == 1 && {
                let ghost dv = p.deep_view();
                proof {
                    assert(dv[0] == p@[0]@);
                }
                str_eq(p[0].as_str(), dev.device_path.as_str())
            },
            None => false,
        };
        proof {
            assert(persist_here == here);
        }
        if persist_here {
            if let Err(e) = self.create_persist_partition(&mut gpt) {
                proof {
                    crate::plan::lemma_first_fit_geometry(t4, g4, t4.align);
                }
                return Err(e);
            }
            proof {
                crate::plan::lemma_first_fit_geometry(t4, g4, t4.align);
                assert(g4 == planned_geometry(dev@.sector_size, disk_len));
                let e = gpt@.entries.last();
                let len = (e.ending_lba - e.starting_lba - 1) as u64;
                crate::plan::lemma_first_fit_geometry(t4, g4, len);
                assert forall|w: u64|
                    #[trigger] (w % 2048u64) == 0 && w > len implies crate::plan::first_fit(
                    g4,
                    w,
                ) is None by {
                    crate::plan::lemma_first_fit_geometry(t4, g4, w);
                    assert(crate::plan::first_fit(t4, w) is None);
                }
                crate::plan::lemma_first_fit_witness(t4, len);
                crate::plan::lemma_place_keeps_packed(t4, gpt@, len, e.starting_lba);
            }
        }
        Ok(gpt)
    }
}

/// The configured install-server override, as text.
pub open spec fn server_view(c: InstallerConfig) -> Option<Seq<char>> {
    match c.eve_install_server {
        Option::Some(s) => Option::Some(s@),
        Option::None => Option::None,
    }
}

/// The actions that copy the boot medium's CONFIG contents onto the
/// new CONFIG partition: format the destination, mount both sides,
/// copy the tree, optionally overwrite the server field, unmount both.
pub open spec fn config_plan(
    src: Seq<char>,
    dst: Seq<char>,
    src_mnt: Seq<char>,
    dst_mnt: Seq<char>,
    server: Option<Seq<char>>,
) -> Seq<ActionView> {
    seq![
        ActionView::RunCommand(crate::actions::mkfs_vfat_cmd(dst, "EVE"@)),
        ActionView::RunCommand(crate::actions::mount_vfat_cmd(dst, dst_mnt)),
        ActionView::RunCommand(crate::actions::mount_vfat_cmd(src, src_mnt)),
        ActionView::CopyTree(src_mnt, dst_mnt),
    ] + (match server {
        Option::Some(v) => seq![ActionView::WriteFile(dst_mnt + "/server"@, v)],
        Option::None => Seq::empty(),
    }) + seq![
        ActionView::RunCommand(crate::actions::umount_cmd(dst)),
        ActionView::RunCommand(crate::actions::umount_cmd(src)),
    ]
}

/// The actions that stage the EFI bootloader on the new EFI System
/// partition: format, mount, create the boot directory, copy the
/// bootloader tree, write the rewritten grub configuration, unmount.
pub open spec fn efi_plan(
    dst: Seq<char>,
    efi_mnt: Seq<char>,
    template: Seq<char>,
    names: Seq<Seq<char>>,
) -> Seq<ActionView> {
    seq![
        ActionView::RunCommand(crate::actions::mkfs_vfat_cmd(dst, "EVE"@)),
        ActionView::RunCommand(crate::actions::mount_vfat_cmd(dst, efi_mnt)),
        ActionView::MakeDirAll(efi_mnt + "/EFI/BOOT"@),
        ActionView::CopyTree("/hostfs/media/boot/EFI/BOOT/"@, efi_mnt + "/EFI/BOOT"@),
        ActionView::WriteFile(
            efi_mnt + "/EFI/BOOT/grub.cfg"@,
            crate::actions::grub_config_of(template, names),
        ),
        ActionView::RunCommand(crate::actions::umount_cmd(dst)),
    ]
}

/// The actions that format and mount the persist partition as ext4
/// with encryption support.
pub open spec fn persist_plan(dst: Seq<char>) -> Seq<ActionView> {
    seq![
        ActionView::RunCommand(crate::actions::mkfs_ext4_cmd(dst)),
        ActionView::RunCommand(crate::actions::tune2fs_cmd(dst)),
        ActionView::RunCommand(crate::actions::mount_ext4_cmd(dst, "/persist"@)),
    ]
}

impl InstallerCtx {
    /// The actions that populate the new CONFIG partition from the
    /// boot medium's, overwriting the server field when an install
    /// server is configured.
    pub fn populate_config(
        &self,
        src_part: &str,
        dst_part: &str,
        src_mnt: &str,
        dst_mnt: &str,
    ) -> (r: Vec<InstallAction>)
        ensures
            actions_view(r@) == config_plan(
                src_part@,
                dst_part@,
                src_mnt@,
                dst_mnt@,
                server_view(self.config),
            ),
    {
        let mut out: Vec<InstallAction> = Vec::new();
        out.push(InstallAction::RunCommand(crate::actions::mkfs_vfat(dst_part, "EVE")));
        out.push(InstallAction::RunCommand(crate::actions::mount_vfat(dst_part, dst_mnt)));
        out.push(InstallAction::RunCommand(crate::actions::mount_vfat(src_part, src_mnt)));
        let mut src_mnt_s = String::new();
        src_mnt_s.append(src_mnt);
        let mut dst_mnt_s = String::new();
        dst_mnt_s.append(dst_mnt);
        out.push(InstallAction::CopyTree(src_mnt_s, dst_mnt_s));
        if let Some(server) = &self.config.eve_install_server {
            let mut p = String::new();
            p.append(dst_mnt);
            p.append("/server");
            out.push(InstallAction::WriteFile(p, server.clone()));
        }
        out.push(InstallAction::RunCommand(crate::actions::umount(dst_part)));
        out.push(InstallAction::RunCommand(crate::actions::umount(src_part)));
        proof {
            assert(actions_view(out@) =~= config_plan(
                src_part@,
                dst_part@,
                src_mnt@,
                dst_mnt@,
                server_view(self.config),
            ));
        }
        out
    }

    /// The actions that stage the bootloader on the new EFI System
    /// partition; no bootloader in the boot medium's listing is a
    /// "not found" error.
    pub fn populate_efi(
        &self,
        dst_part: &str,
        efi_mnt: &str,
        grub_template: &str,
        names: &Vec<String>,
    ) -> (r: Result<Vec<InstallAction>, InstallerError>)
        ensures
            r is Ok <==> crate::actions::bootloader_index(names.deep_view()) is Some,
            r matches Ok(acts) ==> actions_view(acts@) == efi_plan(
                dst_part@,
                efi_mnt@,
                grub_template@,
                names.deep_view(),
            ),
            r matches Err(e) ==> e is NotFound && contains_seq(e.message_spec(), "bootloader"@),
    {
        let cfg = match crate::actions::generate_grub_config(grub_template, names) {
            Ok(c) => c,
            Err(e) => {
                return Err(e);
            },
        };
        let mut out: Vec<InstallAction> = Vec::new();
        out.push(InstallAction::RunCommand(crate::actions::mkfs_vfat(dst_part, "EVE")));
        out.push(InstallAction::RunCommand(crate::actions::mount_vfat(dst_part, efi_mnt)));
        let mut boot_dir = String::new();
        boot_dir.append(efi_mnt);
        boot_dir.append("/EFI/BOOT");
        let mut boot_dir2 = String::new();
        boot_dir2.append(efi_mnt);
        boot_dir2.append("/EFI/BOOT");
        let mut src_tree = String::new();
        src_tree.append("/hostfs/media/boot/EFI/BOOT/");
        out.push(InstallAction::MakeDirAll(boot_dir));
        out.push(InstallAction::CopyTree(src_tree, boot_dir2));
        let mut cfg_path = String::new();
        cfg_path.append(efi_mnt);
        cfg_path.append("/EFI/BOOT/grub.cfg");
        out.push(InstallAction::WriteFile(cfg_path, cfg));
        out.push(InstallAction::RunCommand(crate::actions::umount(dst_part)));
        proof {
            assert(actions_view(out@) =~= efi_plan(
                dst_part@,
                efi_mnt@,
                grub_template@,
                names.deep_view(),
            ));
        }
        Ok(out)
    }

    /// The actions that format the persist partition as ext4, enable
    /// its encryption feature, and mount it at `/persist`.
    pub fn populate_persist_ext4(&self, dst_part: &str) -> (r: Vec<InstallAction>)
        ensures
            actions_view(r@) == persist_plan(dst_part@),
    {
        let mut out: Vec<InstallAction> = Vec::new();
        out.push(InstallAction::RunCommand(crate::actions::mkfs_ext4(dst_part)));
        out.push(InstallAction::RunCommand(crate::actions::tune2fs_encrypt(dst_part)));
        out.push(InstallAction::RunCommand(crate::actions::mount_ext4(dst_part, "/persist")));
        proof {
            assert(actions_view(out@) =~= persist_plan(dst_part@));
        }
        out
    }
}

/// All the labels the provisioning sequence needs can be located: the
/// install disk carries IMGA, CONFIG and EFI System, the boot disk
/// carries CONFIG, and the boot medium's listing holds a bootloader.
pub open spec fn populate_ready(
    iv: BlkDeviceView,
    bv: BlkDeviceView,
    names: Seq<Seq<char>>,
) -> bool {
    &&& iv.partitions matches Some(ips) && find_part_spec(ips, "IMGA"@) is Some && find_part_spec(
        ips,
        "CONFIG"@,
    ) is Some && find_part_spec(ips, "EFI System"@) is Some
    &&& bv.partitions matches Some(bps) && find_part_spec(bps, "CONFIG"@) is Some
    &&& crate::actions::bootloader_index(names) is Some
}

/// The whole provisioning plan for a freshly partitioned install disk:
/// copy CONFIG from the boot medium, stage the EFI bootloader, write
/// the root-filesystem image onto IMGA only (IMGB stays empty for a
/// future update image), format and mount P3 when the install disk has
/// one, and finally mount the new CONFIG at its well-known path.
pub open spec fn populate_plan(
    iv: BlkDeviceView,
    bv: BlkDeviceView,
    src_mnt: Seq<char>,
    dst_mnt: Seq<char>,
    efi_mnt: Seq<char>,
    template: Seq<char>,
    names: Seq<Seq<char>>,
    server: Option<Seq<char>>,
) -> Seq<ActionView>
    recommends
        populate_ready(iv, bv, names),
{
    let ips = iv.partitions->Some_0;
    let bps = bv.partitions->Some_0;
    let imga = ips[find_part_spec(ips, "IMGA"@)->Some_0].device_path;
    let dst_config = ips[find_part_spec(ips, "CONFIG"@)->Some_0].device_path;
    let dst_efi = ips[find_part_spec(ips, "EFI System"@)->Some_0].device_path;
    let src_config = bps[find_part_spec(bps, "CONFIG"@)->Some_0].device_path;
    config_plan(src_config, dst_config, src_mnt, dst_mnt, server) + efi_plan(
        dst_efi,
        efi_mnt,
        template,
        names,
    ) + seq![ActionView::RunCommand(crate::actions::dd_cmd("/hostfs/media/boot/rootfs.img"@, imga))]
        + (match find_part_spec(ips, "P3"@) {
        Option::Some(pi) => persist_plan(ips[pi].device_path) + seq![
            ActionView::WriteFile("/run/eve.persist_type"@, "ext4"@),
        ],
        Option::None => Seq::empty(),
    }) + seq![ActionView::RunCommand(crate::actions::mount_vfat_cmd(dst_config, "/config"@))]
}

impl InstallerCtx {
    /// The ordered actions that provision the freshly partitioned
    /// install disk. The required partitions are located by their
    /// exact labels; a missing one is a fatal "not found" error naming
    /// it, as is a boot medium without a bootloader.
    pub fn populate_partitions(
        &self,
        install_dev: &BlkDevice,
        boot_dev: &BlkDevice,
        src_mnt: &str,
        dst_mnt: &str,
        efi_mnt: &str,
        grub_template: &str,
        names: &Vec<String>,
    ) -> (r: Result<Vec<InstallAction>, InstallerError>)
        ensures
            r is Ok <==> populate_ready(install_dev@, boot_dev@, names.deep_view()),
            r matches Ok(acts) ==> actions_view(acts@) == populate_plan(
                install_dev@,
                boot_dev@,
                src_mnt@,
                dst_mnt@,
                efi_mnt@,
                grub_template@,
                names.deep_view(),
                server_view(self.config),
            ),
            // a failure names the label, or the bootloader, that could
            // not be located
            r matches Err(e) ==> e is NotFound && (contains_seq(e.message_spec(), "IMGA"@)
                || contains_seq(e.message_spec(), "CONFIG"@) || contains_seq(
                e.message_spec(),
                "EFI System"@,
            ) || contains_seq(e.message_spec(), "bootloader"@)),
    {
        let imga = match install_dev.find_part("IMGA") {
            Some(p) => p,
            None => {
                return Err(Self::missing_label("IMGA"));
            },
        };
        let dst_config = match install_dev.find_part("CONFIG") {
            Some(p) => p,
            None => {
                return Err(Self::missing_label("CONFIG"));
            },
        };
        let src_config = match boot_dev.find_part("CONFIG") {
            Some(p) => p,
            None => {
                return Err(Self::missing_label("CONFIG"));
            },
        };
        let dst_efi = match install_dev.find_part("EFI System") {
            Some(p) => p,
            None => {
                return Err(Self::missing_label("EFI System"));
            },
        };
        let dst_persist = install_dev.find_part("P3");
        let imga_path = imga.device_path_str();
        let dst_config_path = dst_config.device_path_str();
        let src_config_path = src_config.device_path_str();
        let dst_efi_path = dst_efi.device_path_str();
        let persist_path: Option<String> = match dst_persist {
            Some(p) => Some(p.device_path_str()),
            None => None,
        };

        let mut out = self.populate_config(
            src_config_path.as_str(),
            dst_config_path.as_str(),
            src_mnt,
            dst_mnt,
        );
        let ghost part1 = actions_view(out@);
        let mut efi_actions = match self.populate_efi(
            dst_efi_path.as_str(),
            efi_mnt,
            grub_template,
            names,
        ) {
            Ok(a) => a,
            Err(e) => {
                return Err(e);
            },
        };
        let ghost part2 = actions_view(efi_actions@);
        out.append(&mut efi_actions);
        proof {
            assert(actions_view(out@) =~= part1 + part2);
        }
        out.push(
            InstallAction::RunCommand(
                crate::actions::dd("/hostfs/media/boot/rootfs.img", imga_path.as_str()),
            ),
        );
        let ghost part3 = actions_view(out@);
        proof {
            assert(part3 =~= part1 + part2 + seq![
                ActionView::RunCommand(
                    crate::actions::dd_cmd(
                        "/hostfs/media/boot/rootfs.img"@,
                        install_dev@.partitions->Some_0[find_part_spec(
                            install_dev@.partitions->Some_0,
                            "IMGA"@,
                        )->Some_0].device_path,
                    ),
                ),
            ]);
        }
        if let Some(pp) = &persist_path {
            let mut persist_actions = self.populate_persist_ext4(pp.as_str());
            out.append(&mut persist_actions);
            let mut marker = String::new();
            marker.append("/run/eve.persist_type");
            let mut kind = String::new();
            kind.append("ext4");
            out.push(InstallAction::WriteFile(marker, kind));
            proof {
                let ips = install_dev@.partitions->Some_0;
                assert(actions_view(out@) =~= part3 + (persist_plan(
                    ips[find_part_spec(ips, "P3"@)->Some_0].device_path,
                ) + seq![ActionView::WriteFile("/run/eve.persist_type"@, "ext4"@)]));
            }
        }
        out.push(
            InstallAction::RunCommand(crate::actions::mount_vfat(dst_config_path.as_str(), "/config")),
        );
        proof {
            let ips = install_dev@.partitions->Some_0;
            let tail = match find_part_spec(ips, "P3"@) {
                Option::Some(pi) => persist_plan(ips[pi].device_path) + seq![
                    ActionView::WriteFile("/run/eve.persist_type"@, "ext4"@),
                ],
                Option::None => Seq::<ActionView>::empty(),
            };
            assert(actions_view(out@) =~= part3 + tail + seq![
                ActionView::RunCommand(
                    crate::actions::mount_vfat_cmd(dst_config@.device_path, "/config"@),
                ),
            ]);
            assert(actions_view(out@) =~= populate_plan(
                install_dev@,
                boot_dev@,
                src_mnt@,
                dst_mnt@,
                efi_mnt@,
                grub_template@,
                names.deep_view(),
                server_view(self.config),
            ));
        }
        Ok(out)
    }

    /// The error naming a partition label that could not be located.
    fn missing_label(label: &str) -> (r: InstallerError)
        ensures
            r is NotFound,
            contains_seq(r.message_spec(), label@),
    {
        let mut m = String::new();
        m.append("couldn't find ");
        m.append(label);
        proof {
            assert(m@ =~= "couldn't find "@ + label@);
            lemma_concat_contains_suffix("couldn't find "@, label@);
        }
        InstallerError::NotFound(m)
    }
}

/// Index of the first device whose node path is exactly `path`.
pub open spec fn find_path_index(vs: Seq<BlkDeviceView>, path: Seq<char>) -> Option<int>
    decreases vs.len(),
{
    if vs.len() == 0 {
        Option::None
    } else if vs[0].device_path == path {
        Option::Some(0)
    } else {
        match find_path_index(vs.drop_first(), path) {
            Option::Some(i) => Option::Some(i + 1),
            Option::None => Option::None,
        }
    }
}

proof fn lemma_find_path_first(vs: Seq<BlkDeviceView>, path: Seq<char>, i: int)
    requires
        0 <= i < vs.len(),
        vs[i].device_path == path,
        forall|k: int| 0 <= k < i ==> (#[trigger] vs[k]).device_path != path,
    ensures
        find_path_index(vs, path) == Some(i),
    decreases i,
{
    if i > 0 {
        lemma_find_path_first(vs.drop_first(), path, i - 1);
    }
}

proof fn lemma_find_path_none(vs: Seq<BlkDeviceView>, path: Seq<char>)
    requires
        forall|k: int| 0 <= k < vs.len() ==> (#[trigger] vs[k]).device_path != path,
    ensures
        find_path_index(vs, path) is None,
    decreases vs.len(),
{
    if vs.len() > 0 {
        lemma_find_path_none(vs.drop_first(), path);
    }
}

/// After a partition-table write, every handle from the old snapshot
/// is stale: this relocates a disk in the freshly enumerated inventory
/// by its device-node path, and failure to find it again is a fatal
/// internal-consistency error.
pub fn find_by_path(devices: &Vec<BlkDevice>, path: &str) -> (r: Result<BlkDevice, InstallerError>)
    ensures
        r is Ok <==> find_path_index(devs_view(devices@), path@) is Some,
        r matches Ok(d) ==> d@ == devs_view(devices@)[find_path_index(devs_view(devices@), path@)
            ->Some_0],
        r is Err ==> r->Err_0 is NotFound,
{
    let ghost vs = devs_view(devices@);
    proof {
        lemma_devs_view_len(devices@);
    }
    let mut i: usize = 0;
    while i < devices.len()
        invariant
            0 <= i <= devices@.len(),
            vs == devs_view(devices@),
            vs.len() == devices@.len(),
            forall|k: int| 0 <= k < i ==> (#[trigger] vs[k]).device_path != path@,
        decreases devices@.len() - i,
    {
        proof {
            broadcast use lemma_devs_view_index;

        }
        if str_eq(devices[i].device_path.as_str(), path) {
            proof {
                lemma_find_path_first(vs, path@, i as int);
            }
            return Ok(devices[i].duplicate());
        }
        i = i + 1;
    }
    proof {
        lemma_find_path_none(vs, path@);
    }
    let mut m = String::new();
    m.append("could not relocate the install disk after the table write: ");
    m.append(path);
    Err(InstallerError::NotFound(m))
}

} // verus!
