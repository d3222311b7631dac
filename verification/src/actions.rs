//! What the installer asks the outside world to do: command lines for
//! the external tools, and the ordered action plans that populate the
//! freshly partitioned disk. The surrounding program executes each
//! action; the library only decides them.

use vstd::prelude::*;

use crate::errors::InstallerError;
use crate::strutil::{contains_seq, lemma_concat_contains_middle, occurs_at, replace_spec};

verus! {

use vstd::string::StrSliceExecFns;
use vstd::string::StringExecFns;

/// One step of an installation plan, for the surrounding program to
/// perform: run an external command, copy a directory tree, write a
/// file, or create a directory path.
#[derive(Debug)]
pub enum InstallAction {
    RunCommand(String),
    CopyTree(String, String),
    WriteFile(String, String),
    MakeDirAll(String),
}

/// The mathematical value of an action.
#[verifier::ext_equal]
pub ghost enum ActionView {
    RunCommand(Seq<char>),
    CopyTree(Seq<char>, Seq<char>),
    WriteFile(Seq<char>, Seq<char>),
    MakeDirAll(Seq<char>),
}

/// The mathematical value of an action.
pub open spec fn action_view(a: InstallAction) -> ActionView {
    match a {
        InstallAction::RunCommand(c) => ActionView::RunCommand(c@),
        InstallAction::CopyTree(f, t) => ActionView::CopyTree(f@, t@),
        InstallAction::WriteFile(p, c) => ActionView::WriteFile(p@, c@),
        InstallAction::MakeDirAll(p) => ActionView::MakeDirAll(p@),
    }
}

impl View for InstallAction {
    type V = ActionView;

    open spec fn view(&self) -> ActionView {
        action_view(*self)
    }
}

/// The views of an action list, in order.
pub open spec fn actions_view(actions: Seq<InstallAction>) -> Seq<ActionView> {
    Seq::new(actions.len(), |i: int| actions[i]@)
}

/// The block-copy command for the root-filesystem image.
pub open spec fn dd_cmd(inf: Seq<char>, of: Seq<char>) -> Seq<char> {
    "dd if="@ + inf + " of="@ + of + " bs=1M"@
}

/// The FAT-formatting command.
pub open spec fn mkfs_vfat_cmd(dev: Seq<char>, label: Seq<char>) -> Seq<char> {
    "mkfs.vfat -n "@ + label + " "@ + dev
}

/// The ext4-formatting command.
pub open spec fn mkfs_ext4_cmd(dev: Seq<char>) -> Seq<char> {
    "mkfs -t ext4 -v -F -F -O encrypt "@ + dev
}

/// The plain mount command.
pub open spec fn mount_cmd(dev: Seq<char>, path: Seq<char>) -> Seq<char> {
    "mount "@ + dev + " "@ + path
}

/// The FAT mount command.
pub open spec fn mount_vfat_cmd(dev: Seq<char>, path: Seq<char>) -> Seq<char> {
    "mount -t vfat -o iocharset=iso8859-1 "@ + dev + " "@ + path
}

/// The ext4 mount command.
pub open spec fn mount_ext4_cmd(dev: Seq<char>, path: Seq<char>) -> Seq<char> {
    "mount -t ext4 -o dirsync,noatime "@ + dev + " "@ + path
}

/// The unmount command.
pub open spec fn umount_cmd(dev: Seq<char>) -> Seq<char> {
    "umount "@ + dev
}

/// The filesystem-feature toggle enabling encryption support.
pub open spec fn tune2fs_cmd(dev: Seq<char>) -> Seq<char> {
    "tune2fs -O encrypt "@ + dev
}

/// The block-copy command line from `inf` onto `of`.
pub fn dd(inf: &str, of: &str) -> (r: String)
    ensures
        r@ == dd_cmd(inf@, of@),
{
    let mut s = String::new();
    s.append("dd if=");
    s.append(inf);
    s.append(" of=");
    s.append(of);
    s.append(" bs=1M");
    proof {
        assert(s@ =~= dd_cmd(inf@, of@));
    }
    s
}

/// The command formatting `dev` as FAT with the given label.
pub fn mkfs_vfat(dev: &str, label: &str) -> (r: String)
    ensures
        r@ == mkfs_vfat_cmd(dev@, label@),
{
    let mut s = String::new();
    s.append("mkfs.vfat -n ");
    s.append(label);
    s.append(" ");
    s.append(dev);
    proof {
        assert(s@ =~= mkfs_vfat_cmd(dev@, label@));
    }
    s
}

/// The command formatting `dev` as ext4 with encryption support.
pub fn mkfs_ext4(dev: &str) -> (r: String)
    ensures
        r@ == mkfs_ext4_cmd(dev@),
{
    let mut s = String::new();
    s.append("mkfs -t ext4 -v -F -F -O encrypt ");
    s.append(dev);
    proof {
        assert(s@ =~= mkfs_ext4_cmd(dev@));
    }
    s
}

/// The command mounting `dev` at `path`.
pub fn mount(dev: &str, path: &str) -> (r: String)
    ensures
        r@ == mount_cmd(dev@, path@),
{
    let mut s = String::new();
    s.append("mount ");
    s.append(dev);
    s.append(" ");
    s.append(path);
    proof {
        assert(s@ =~= mount_cmd(dev@, path@));
    }
    s
}

/// The command mounting the FAT filesystem on `dev` at `path`.
pub fn mount_vfat(dev: &str, path: &str) -> (r: String)
    ensures
        r@ == mount_vfat_cmd(dev@, path@),
{
    let mut s = String::new();
    s.append("mount -t vfat -o iocharset=iso8859-1 ");
    s.append(dev);
    s.append(" ");
    s.append(path);
    proof {
        assert(s@ =~= mount_vfat_cmd(dev@, path@));
    }
    s
}

/// The command mounting the ext4 filesystem on `dev` at `path`.
pub fn mount_ext4(dev: &str, path: &str) -> (r: String)
    ensures
        r@ == mount_ext4_cmd(dev@, path@),
{
    let mut s = String::new();
    s.append("mount -t ext4 -o dirsync,noatime ");
    s.append(dev);
    s.append(" ");
    s.append(path);
    proof {
        assert(s@ =~= mount_ext4_cmd(dev@, path@));
    }
    s
}

/// The command unmounting `dev`.
pub fn umount(dev: &str) -> (r: String)
    ensures
        r@ == umount_cmd(dev@),
{
    let mut s = String::new();
    s.append("umount ");
    s.append(dev);
    proof {
        assert(s@ =~= umount_cmd(dev@));
    }
    s
}

/// The command enabling the encryption feature on `dev`.
pub fn tune2fs_encrypt(dev: &str) -> (r: String)
    ensures
        r@ == tune2fs_cmd(dev@),
{
    let mut s = String::new();
    s.append("tune2fs -O encrypt ");
    s.append(dev);
    proof {
        assert(s@ =~= tune2fs_cmd(dev@));
    }
    s
}

/// The file name looks like an EFI bootloader: it holds `BOOT`
/// followed, at least four characters later, by `.EFI`.
pub open spec fn is_bootloader_name(s: Seq<char>) -> bool {
    exists|i: int, j: int| occurs_at(s, "BOOT"@, i) && occurs_at(s, ".EFI"@, j) && j >= i + 4
}

/// Index of the first bootloader-looking name, if any.
pub open spec fn bootloader_index(names: Seq<Seq<char>>) -> Option<int>
    decreases names.len(),
{
    if names.len() == 0 {
        Option::None
    } else if is_bootloader_name(names[0]) {
        Option::Some(0)
    } else {
        match bootloader_index(names.drop_first()) {
            Option::Some(i) => Option::Some(i + 1),
            Option::None => Option::None,
        }
    }
}

proof fn lemma_bootloader_index_first(names: Seq<Seq<char>>, i: int)
    requires
        0 <= i < names.len(),
        is_bootloader_name(names[i]),
        forall|k: int| 0 <= k < i ==> !is_bootloader_name(#[trigger] names[k]),
    ensures
        bootloader_index(names) == Some(i),
    decreases i,
{
    if i > 0 {
        lemma_bootloader_index_first(names.drop_first(), i - 1);
    }
}

proof fn lemma_bootloader_index_none(names: Seq<Seq<char>>)
    requires
        forall|k: int| 0 <= k < names.len() ==> !is_bootloader_name(#[trigger] names[k]),
    ensures
        bootloader_index(names) is None,
    decreases names.len(),
{
    if names.len() > 0 {
        lemma_bootloader_index_none(names.drop_first());
    }
}

/// Whether the file name looks like an EFI bootloader.
fn name_is_bootloader(s: &str) -> (r: bool)
    ensures
        r == is_bootloader_name(s@),
{
    proof {
        reveal_strlit("BOOT");
        reveal_strlit(".EFI");
    }
    let sl = s.unicode_len();
    let i0 = match crate::strutil::find_from(s, "BOOT", 0) {
        Some(i) => i,
        None => {
            proof {
                assert forall|i: int, j: int|
                    !(occurs_at(s@, "BOOT"@, i) && occurs_at(s@, ".EFI"@, j) && j >= i + 4) by {}
            }
            return false;
        },
    };
    proof {
        assert(i0 + 4 <= sl);
    }
    match crate::strutil::find_from(s, ".EFI", i0 + 4) {
        Some(j) => {
            proof {
                assert(occurs_at(s@, "BOOT"@, i0 as int) && occurs_at(s@, ".EFI"@, j as int) && j
                    >= i0 + 4);
            }
            true
        },
        None => {
            proof {
                assert forall|i: int, j: int|
                    !(occurs_at(s@, "BOOT"@, i) && occurs_at(s@, ".EFI"@, j) && j >= i + 4) by {
                    if occurs_at(s@, "BOOT"@, i) && occurs_at(s@, ".EFI"@, j) && j >= i + 4 {
                        assert(i >= i0);
                        assert(j >= i0 + 4);
                        assert(!occurs_at(s@, ".EFI"@, j));
                    }
                }
            }
            false
        },
    }
}

/// Picks the bootloader out of the boot medium's EFI directory
/// listing: the first file whose name holds `BOOT` and later `.EFI`.
/// Returns its path under `/EFI/BOOT`; no such file is a "not found"
/// error.
pub fn find_grub_efi_app(names: &Vec<String>) -> (r: Result<String, InstallerError>)
    ensures
        r is Ok <==> bootloader_index(names.deep_view()) is Some,
        r matches Ok(p) ==> p@ == "/EFI/BOOT/"@ + names.deep_view()[bootloader_index(
            names.deep_view(),
        )->Some_0],
        r matches Err(e) ==> e is NotFound && contains_seq(e.message_spec(), "bootloader"@),
{
    let ghost nv = names.deep_view();
    let mut i: usize = 0;
    while i < names.len()
        invariant
            0 <= i <= names@.len(),
            nv == names.deep_view(),
            nv.len() == names@.len(),
            forall|k: int| 0 <= k < i ==> !is_bootloader_name(#[trigger] nv[k]),
        decreases names@.len() - i,
    {
        proof {
            assert(nv[i as int] == names@[i as int]@);
        }
        if name_is_bootloader(names[i].as_str()) {
            proof {
                lemma_bootloader_index_first(nv, i as int);
            }
            let mut p = String::new();
            p.append("/EFI/BOOT/");
            p.append(names[i].as_str());
            proof {
                assert(p@ =~= "/EFI/BOOT/"@ + nv[i as int]);
            }
            return Ok(p);
        }
        i = i + 1;
    }
    proof {
        lemma_bootloader_index_none(nv);
    }
    let mut m = String::new();
    m.append("couldn't get ");
    m.append("bootloader");
    m.append(" path");
    proof {
        assert(m@ =~= "couldn't get "@ + "bootloader"@ + " path"@);
        lemma_concat_contains_middle("couldn't get "@, "bootloader"@, " path"@);
    }
    Err(InstallerError::NotFound(m))
}

/// The grub configuration written for the new EFI partition: the
/// template with its placeholder replaced by the located bootloader
/// path, relative to the filesystem root.
pub open spec fn grub_config_of(template: Seq<char>, names: Seq<Seq<char>>) -> Seq<char> {
    let name = names[bootloader_index(names)->Some_0];
    replace_spec(template, "@PATH_TO_GRUB@"@, "EFI/BOOT/"@ + name)
}

/// Rewrites the configuration template's placeholder with the located
/// bootloader path; no bootloader in the listing is a "not found"
/// error.
pub fn generate_grub_config(template: &str, names: &Vec<String>) -> (r: Result<
    String,
    InstallerError,
>)
    ensures
        r is Ok <==> bootloader_index(names.deep_view()) is Some,
        r matches Ok(c) ==> c@ == grub_config_of(template@, names.deep_view()),
        r matches Err(e) ==> e is NotFound && contains_seq(e.message_spec(), "bootloader"@),
{
    let app = match find_grub_efi_app(names) {
        Ok(p) => p,
        Err(e) => {
            return Err(e);
        },
    };
    // drop the leading slash: grub paths are relative to the
    // filesystem root
    proof {
        reveal_strlit("/EFI/BOOT/");
        reveal_strlit("EFI/BOOT/");
        reveal_strlit("@PATH_TO_GRUB@");
        assert(("@PATH_TO_GRUB@"@).len() >= 1);
    }
    let al = app.as_str().unicode_len();
    let rel = app.as_str().substring_char(1, al);
    let out = crate::strutil::replace_all(template, "@PATH_TO_GRUB@", rel);
    proof {
        let name = names.deep_view()[bootloader_index(names.deep_view())->Some_0];
        assert(rel@ =~= "EFI/BOOT/"@ + name);
    }
    Ok(out)
}

} // verus!
