//! The kernel command line as key/value parameters, and the installer
//! configuration resolved from it.

use vstd::prelude::*;

use crate::errors::InstallerError;
use crate::strutil::{contains_seq, find_from, first_occurrence, split_by, split_string, str_contains, trim, trim_spec};

verus! {

use vstd::string::StrSliceExecFns;
use vstd::string::StringExecFns;

/// One parameter: its key and, after `key=value`, its value.
pub type Param = (String, Option<String>);

/// The mathematical value of a parameter.
pub type ParamView = (Seq<char>, Option<Seq<char>>);

/// The mathematical value of one parameter.
pub open spec fn param_view(p: Param) -> ParamView {
    (
        p.0@,
        match p.1 {
            Option::Some(v) => Option::Some(v@),
            Option::None => Option::None,
        },
    )
}

/// The views of a parameter list, in order.
pub open spec fn params_view(ps: Seq<Param>) -> Seq<ParamView> {
    Seq::new(ps.len(), |i: int| param_view(ps[i]))
}

/// The key and value a raw token denotes: split at the first `=`, or
/// the whole token as a key with no value.
pub open spec fn token_pair(tok: Seq<char>) -> ParamView {
    match first_occurrence(tok, seq!['=']) {
        Option::Some(i) => (tok.subrange(0, i), Option::Some(tok.subrange(i + 1, tok.len() as int))),
        Option::None => (tok, Option::None),
    }
}

/// The value stored for `key`: the value of the last parameter with
/// that key, or nothing when no parameter carries it.
pub open spec fn lookup(ps: Seq<ParamView>, key: Seq<char>) -> Option<Option<Seq<char>>>
    decreases ps.len(),
{
    if ps.len() == 0 {
        Option::None
    } else if ps.last().0 == key {
        Option::Some(ps.last().1)
    } else {
        lookup(ps.drop_last(), key)
    }
}

/// The kernel command line, parsed into parameters. A key given twice
/// counts by its last occurrence.
#[derive(Debug)]
pub struct KernelCmdline {
    pub params: Vec<Param>,
}

impl KernelCmdline {
    /// An empty command line.
    pub fn new() -> (r: Self)
        ensures
            r.params@.len() == 0,
    {
        KernelCmdline { params: Vec::new() }
    }

    /// Parses raw command-line text: the trimmed text splits at each
    /// space into tokens, and each token becomes one parameter, split
    /// at its first `=` when it has one.
    pub fn parse(self, s: &str) -> (r: Result<Self, InstallerError>)
        ensures
            r is Ok,
            r matches Ok(c) ==> params_view(c.params@) == params_view(self.params@) + split_by(
                trim_spec(s@),
                ' ',
            ).map_values(|tok: Seq<char>| token_pair(tok)),
    {
        proof {
            reveal_strlit("=");
        }
        let mut me = self;
        let trimmed = trim(s);
        let tokens = split_string(trimmed, ' ');
        let ghost toks = split_by(trim_spec(s@), ' ');
        let ghost base = params_view(me.params@);
        let mut i: usize = 0;
        proof {
            assert(params_view(me.params@) =~= base + toks.map_values(
                |tok: Seq<char>| token_pair(tok),
            ).subrange(0, 0));
        }
        while i < tokens.len()
            invariant
                0 <= i <= tokens@.len(),
                tokens.deep_view() == toks,
                toks.len() == tokens@.len(),
                params_view(me.params@) == base + toks.map_values(
                    |tok: Seq<char>| token_pair(tok),
                ).subrange(0, i as int),
            decreases tokens@.len() - i,
        {
            let tok = &tokens[i];
            proof {
                reveal_strlit("=");
                assert(tok@ == toks[i as int]);
                assert(("="@)[0] == '=');
                assert("="@ =~= seq!['=']);
            }
            let pair: Param = match find_from(tok.as_str(), "=", 0) {
                Some(p) => {
                    proof {
                        crate::strutil::lemma_first_occurrence_unique(tok@, seq!['='], p as int);
                    }
                    let tl = tok.as_str().unicode_len();
                    let key = tok.as_str().substring_char(0, p);
                    let val = tok.as_str().substring_char(p + 1, tl);
                    let mut key_s = String::new();
                    key_s.append(key);
                    let mut val_s = String::new();
                    val_s.append(val);
                    (key_s, Some(val_s))
                },
                None => {
                    proof {
                        if contains_seq(tok@, seq!['=']) {
                            let w = choose|w: int| crate::strutil::occurs_at(tok@, seq!['='], w);
                            assert(0 <= w && w + 1 <= tok@.len());
                        }
                        assert(first_occurrence(tok@, seq!['=']) is None);
                    }
                    let mut key_s = String::new();
                    key_s.append(tok.as_str());
                    (key_s, None)
                },
            };
            let ghost pv = param_view(pair);
            let ghost before = params_view(me.params@);
            me.params.push(pair);
            proof {
                assert(pv == token_pair(toks[i as int]));
                assert(params_view(me.params@) =~= before.push(pv));
                assert(toks.map_values(|tok: Seq<char>| token_pair(tok)).subrange(
                    0,
                    (i + 1) as int,
                ) =~= toks.map_values(|tok: Seq<char>| token_pair(tok)).subrange(0, i as int).push(
                    token_pair(toks[i as int]),
                ));
                assert(base + toks.map_values(|tok: Seq<char>| token_pair(tok)).subrange(
                    0,
                    (i + 1) as int,
                ) =~= before.push(pv));
            }
            i = i + 1;
        }
        proof {
            assert(toks.map_values(|tok: Seq<char>| token_pair(tok)).subrange(
                0,
                toks.len() as int,
            ) =~= toks.map_values(|tok: Seq<char>| token_pair(tok)));
        }
        Ok(me)
    }

    /// Parses the given text as a command line.
    pub fn from_str(self, s: &str) -> (r: Result<Self, InstallerError>)
        ensures
            r is Ok,
            r matches Ok(c) ==> params_view(c.params@) == params_view(self.params@) + split_by(
                trim_spec(s@),
                ' ',
            ).map_values(|tok: Seq<char>| token_pair(tok)),
    {
        self.parse(s)
    }

    /// Whether the key stands on the command line, with or without a
    /// value.
    pub fn get_bool(&self, key: &str) -> (r: bool)
        ensures
            r == (lookup(params_view(self.params@), key@) is Some),
    {
        self.find_param(key).is_some()
    }

    /// The value of the key's last occurrence, when the key stands on
    /// the command line with a value.
    pub fn get_str(&self, key: &str) -> (r: Option<String>)
        ensures
            r is Some <==> lookup(params_view(self.params@), key@) matches Some(Some(_)),
            r matches Some(v) ==> lookup(params_view(self.params@), key@) == Some(Some(v@)),
    {
        match self.find_param(key) {
            None => None,
            Some(p) => match &self.params[p].1 {
                Some(v) => Some(v.clone()),
                None => None,
            },
        }
    }

    /// Index of the last parameter carrying `key`, if any.
    fn find_param(&self, key: &str) -> (r: Option<usize>)
        ensures
            r is None ==> lookup(params_view(self.params@), key@) is None,
            r matches Some(p) ==> 0 <= p < self.params@.len() && self.params@[p as int].0@ == key@
                && lookup(params_view(self.params@), key@) == Some(
                params_view(self.params@)[p as int].1,
            ),
    {
        let ghost pv = params_view(self.params@);
        let mut i: usize = self.params.len();
        while i > 0
            invariant
                0 <= i <= self.params@.len(),
                pv == params_view(self.params@),
                forall|j: int| i <= j < pv.len() ==> (#[trigger] pv[j]).0 != key@,
            decreases i,
        {
            i = i - 1;
            if crate::strutil::str_eq(self.params[i].0.as_str(), key) {
                proof {
                    lemma_lookup_found(pv, key@, i as int);
                }
                return Some(i);
            }
        }
        proof {
            lemma_lookup_none(pv, key@);
        }
        None
    }
}

/// The last parameter carrying the key decides the lookup.
proof fn lemma_lookup_found(ps: Seq<ParamView>, key: Seq<char>, i: int)
    requires
        0 <= i < ps.len(),
        ps[i].0 == key,
        forall|j: int| i < j < ps.len() ==> (#[trigger] ps[j]).0 != key,
    ensures
        lookup(ps, key) == Some(ps[i].1),
    decreases ps.len(),
{
    if i == ps.len() - 1 {
    } else {
        lemma_lookup_found(ps.drop_last(), key, i);
    }
}

/// Without the key, the lookup yields nothing.
proof fn lemma_lookup_none(ps: Seq<ParamView>, key: Seq<char>)
    requires
        forall|j: int| 0 <= j < ps.len() ==> (#[trigger] ps[j]).0 != key,
    ensures
        lookup(ps, key) is None,
    decreases ps.len(),
{
    if ps.len() > 0 {
        lemma_lookup_none(ps.drop_last(), key);
    }
}

/// The resolved installer configuration. Flags come from the kernel
/// command line; an unattended run later replaces the whole value from
/// the staged configuration file.
#[derive(Debug)]
pub struct InstallerConfig {
    pub eve_nuke_disks: Option<Vec<String>>,
    pub eve_nuke_all_disks: bool,
    pub eve_install_disk: Option<String>,
    pub eve_persist_disk: Option<Vec<String>>,
    pub eve_install_server: Option<String>,
    pub eve_install_skip_rootfs: bool,
    pub eve_install_skip_config: bool,
    pub eve_install_skip_persist: bool,
    pub eve_pause_before_install: bool,
    pub eve_pause_after_install: bool,
    pub eve_blackbox: bool,
    pub eve_soft_serial: Option<String>,
    pub eve_reboot_after_install: bool,
    pub eve_install_skip_zfs_checks: bool,
    pub persist_fs_zfs: bool,
}

impl Default for InstallerConfig {
    /// A configuration with nothing set.
    fn default() -> (r: Self)
        ensures
            r.eve_nuke_disks is None,
            !r.eve_nuke_all_disks,
            r.eve_install_disk is None,
            r.eve_persist_disk is None,
            r.eve_install_server is None,
            !r.eve_install_skip_rootfs,
            !r.eve_install_skip_config,
            !r.eve_install_skip_persist,
            !r.eve_pause_before_install,
            !r.eve_pause_after_install,
            !r.eve_blackbox,
            r.eve_soft_serial is None,
            !r.eve_reboot_after_install,
            !r.eve_install_skip_zfs_checks,
            !r.persist_fs_zfs,
    {
        InstallerConfig {
            eve_nuke_disks: None,
            eve_nuke_all_disks: false,
            eve_install_disk: None,
            eve_persist_disk: None,
            eve_install_server: None,
            eve_install_skip_rootfs: false,
            eve_install_skip_config: false,
            eve_install_skip_persist: false,
            eve_pause_before_install: false,
            eve_pause_after_install: false,
            eve_blackbox: false,
            eve_soft_serial: None,
            eve_reboot_after_install: false,
            eve_install_skip_zfs_checks: false,
            persist_fs_zfs: false,
        }
    }
}

/// The disk list a comma-separated parameter value denotes.
pub open spec fn disk_list_of(v: Seq<char>) -> Seq<Seq<char>> {
    split_by(trim_spec(v), ',')
}

/// The configuration `c` is exactly what the parameters `pv` resolve
/// to: each boolean flag set when its key stands on the line, each
/// string option its key's value, the persist and nuke disk lists the
/// comma-split values, and ZFS persistence exactly when the
/// persist-disk value holds a comma.
pub open spec fn config_from_params(c: InstallerConfig, pv: Seq<ParamView>) -> bool {

        &&& c.eve_nuke_all_disks == (lookup(pv, "eve_nuke_all_disks"@) is Some)
        &&& c.eve_blackbox == (lookup(pv, "eve_blackbox"@) is Some)
        &&& c.eve_install_skip_config == (lookup(pv, "eve_install_skip_config"@) is Some)
        &&& c.eve_install_skip_persist == (lookup(pv, "eve_install_skip_persist"@)
            is Some)
        &&& c.eve_install_skip_rootfs == (lookup(pv, "eve_install_skip_rootfs"@) is Some)
        &&& c.eve_pause_after_install == (lookup(pv, "eve_pause_after_install"@) is Some)
        &&& c.eve_pause_before_install == (lookup(pv, "eve_pause_before_install"@)
            is Some)
        &&& c.eve_reboot_after_install == (lookup(pv, "eve_reboot_after_install"@)
            is Some)
        &&& c.eve_install_skip_zfs_checks == (lookup(pv, "eve_install_skip_zfs_checks"@)
            is Some)
        &&& (c.eve_soft_serial is Some <==> lookup(pv, "eve_soft_serial"@) matches Some(
            Some(_),
        ))
        &&& (c.eve_soft_serial matches Some(v) ==> lookup(pv, "eve_soft_serial"@) == Some(
            Some(v@),
        ))
        &&& (c.eve_install_server is Some <==> lookup(pv, "eve_install_server"@)
            matches Some(Some(_)))
        &&& (c.eve_install_server matches Some(v) ==> lookup(pv, "eve_install_server"@)
            == Some(Some(v@)))
        &&& (c.eve_install_disk is Some <==> lookup(pv, "eve_install_disk"@)
            matches Some(Some(_)))
        &&& (c.eve_install_disk matches Some(v) ==> lookup(pv, "eve_install_disk"@)
            == Some(Some(v@)))
        &&& (c.eve_persist_disk is Some <==> lookup(pv, "eve_persist_disk"@)
            matches Some(Some(_)))
        &&& (lookup(pv, "eve_persist_disk"@) matches Some(Some(v))
            ==> c.eve_persist_disk matches Some(pd) && pd.deep_view() == disk_list_of(v))
        &&& c.persist_fs_zfs == (lookup(pv, "eve_persist_disk"@) matches Some(Some(v))
            && contains_seq(v, ","@))
        &&& (c.eve_nuke_disks is Some <==> lookup(pv, "eve_nuke_disks"@) matches Some(
            Some(_),
        ))
        &&& (lookup(pv, "eve_nuke_disks"@) matches Some(Some(v))
            ==> c.eve_nuke_disks matches Some(nd) && nd.deep_view() == disk_list_of(v))
}

impl InstallerConfig {
    /// Resolves the configuration the kernel command line carries.
    pub fn from_cmdline(cmdline: &KernelCmdline) -> (c: Self)
        ensures
            config_from_params(c, params_view(cmdline.params@)),
    {
        proof {
            reveal_strlit(",");
        }
        let mut config = InstallerConfig::default();
        config.eve_nuke_all_disks = cmdline.get_bool("eve_nuke_all_disks");
        config.eve_blackbox = cmdline.get_bool("eve_blackbox");
        config.eve_install_skip_config = cmdline.get_bool("eve_install_skip_config");
        config.eve_install_skip_persist = cmdline.get_bool("eve_install_skip_persist");
        config.eve_install_skip_rootfs = cmdline.get_bool("eve_install_skip_rootfs");
        config.eve_pause_after_install = cmdline.get_bool("eve_pause_after_install");
        config.eve_pause_before_install = cmdline.get_bool("eve_pause_before_install");
        config.eve_reboot_after_install = cmdline.get_bool("eve_reboot_after_install");
        config.eve_install_skip_zfs_checks = cmdline.get_bool("eve_install_skip_zfs_checks");
        config.eve_soft_serial = cmdline.get_str("eve_soft_serial");
        config.eve_install_server = cmdline.get_str("eve_install_server");
        config.eve_install_disk = cmdline.get_str("eve_install_disk");

        let eve_persist_disk = cmdline.get_str("eve_persist_disk");
        config.eve_persist_disk = match &eve_persist_disk {
            Some(e) => Some(split_string(trim(e.as_str()), ',')),
            None => None,
        };
        // one disk and a comma, more than one disk, or a bare comma:
        // persistence lives on ZFS
        config.persist_fs_zfs = match &eve_persist_disk {
            Some(e) => {
                let z = str_contains(e.as_str(), ",");
                proof {
                    assert(("," @).len() == 1);
                }
                z
            },
            None => false,
        };

        config.eve_nuke_disks = match cmdline.get_str("eve_nuke_disks") {
            Some(e) => Some(split_string(trim(e.as_str()), ',')),
            None => None,
        };

        config
    }
}

} // verus!
