//! What the daemon is asked to do on its command line.

use vstd::prelude::*;

use crate::config::same_text;
use crate::fs::DEFAULT_CACHE_BYTES;
use crate::text::{is_number, parse_u64, texts};

verus! {

/// The position of a flag among the arguments; their number where it is not
/// there.
pub open spec fn flag_at(args: Seq<Seq<char>>, flag: Seq<char>) -> int
    decreases args.len(),
{
    if args.len() == 0 {
        0
    } else if args[0] == flag {
        0
    } else {
        1 + flag_at(args.drop_first(), flag)
    }
}

/// The argument behind a flag.
pub open spec fn value_behind(args: Seq<Seq<char>>, flag: Seq<char>) -> Option<Seq<char>> {
    let i = flag_at(args, flag);
    if i + 1 < args.len() {
        Some(args[i + 1])
    } else {
        None
    }
}

fn find_flag(args: &Vec<String>, flag: &str) -> (i: usize)
    ensures
        i == flag_at(texts(args@), flag@),
        i <= args@.len(),
{
    let ghost all = texts(args@);
    let mut i: usize = 0;
    assert(all.skip(0) =~= all);
    while i < args.len()
        invariant
            all == texts(args@),
            i <= args@.len(),
            flag_at(all, flag@) == i + flag_at(all.skip(i as int), flag@),
        decreases args@.len() - i,
    {
        proof {
            assert(all.skip(i as int)[0] == args@[i as int]@);
            assert(all.skip(i as int).drop_first() =~= all.skip(i + 1));
        }
        if same_text(args[i].as_str(), flag) {
            return i;
        }
        i = i + 1;
    }
    i
}

/// Extract the value following `--flag` in the argument list.
pub fn flag_value(args: &Vec<String>, flag: &str) -> (r: Option<String>)
    ensures
        crate::protocol::optional_text(r) == value_behind(texts(args@), flag@),
{
    let i: usize = find_flag(args, flag);
    if args.len() > 0 && i < args.len() - 1 {
        Some(args[i + 1].clone())
    } else {
        None
    }
}

/// A flag is among the arguments.
pub open spec fn has_flag(args: Seq<Seq<char>>, flag: Seq<char>) -> bool {
    flag_at(args, flag) < args.len()
}

/// What the daemon is to do.
pub enum Mode {
    /// Print the brand and the version.
    Version,
    /// Start at every logon.
    Install,
    /// Do not start at every logon any more.
    Uninstall,
    /// Serve a mount.
    Mount { mountpoint: String },
    /// Serve a drive letter.
    MountDrive { drive: String },
    /// See whether a drive letter can be served.
    Probe,
    /// Serve requests.
    Serve,
}

/// `m` is what the arguments ask for.
pub open spec fn asks_for(args: Seq<Seq<char>>, m: Mode) -> bool {
    if has_flag(args, "--version"@) {
        m is Version
    } else if has_flag(args, "--install"@) {
        m is Install
    } else if has_flag(args, "--uninstall"@) {
        m is Uninstall
    } else if value_behind(args, "--mount"@) is Some {
        m matches Mode::Mount { mountpoint } && Some(mountpoint@) == value_behind(args, "--mount"@)
    } else if value_behind(args, "--mount-winfsp"@) is Some {
        m matches Mode::MountDrive { drive } && Some(drive@) == value_behind(
            args,
            "--mount-winfsp"@,
        )
    } else if has_flag(args, "--winfsp-probe"@) {
        m is Probe
    } else {
        m is Serve
    }
}

/// What the arguments ask for.
pub fn mode_of(args: &Vec<String>) -> (m: Mode)
    ensures
        asks_for(texts(args@), m),
{
    assert(texts(args@).len() == args@.len());
    if find_flag(args, "--version") < args.len() {
        return Mode::Version;
    }
    if find_flag(args, "--install") < args.len() {
        return Mode::Install;
    }
    if find_flag(args, "--uninstall") < args.len() {
        return Mode::Uninstall;
    }
    if let Some(mountpoint) = flag_value(args, "--mount") {
        return Mode::Mount { mountpoint };
    }
    if let Some(drive) = flag_value(args, "--mount-winfsp") {
        return Mode::MountDrive { drive };
    }
    if find_flag(args, "--winfsp-probe") < args.len() {
        return Mode::Probe;
    }
    Mode::Serve
}

/// The RAM budget that a number of MiB stands for: the default where there is
/// none or it is no number, `None` where it is too large.
pub fn cache_budget(mib: Option<String>) -> (r: Option<u64>)
    ensures
        match mib {
            None => r == Some(DEFAULT_CACHE_BYTES),
            Some(s) => {
                &&& forall|n: int|
                    is_number(s@, n) && n <= u64::MAX ==> r == if n * 1_048_576 <= u64::MAX {
                        Some((n * 1_048_576) as u64)
                    } else {
                        None
                    }
                &&& (forall|n: int| is_number(s@, n) ==> n > u64::MAX) ==> r == Some(
                    DEFAULT_CACHE_BYTES,
                )
            },
        },
{
    match mib {
        None => Some(DEFAULT_CACHE_BYTES),
        Some(s) => match parse_u64(s.as_str()) {
            Some(n) => {
                proof {
                    crate::text::lemma_number_unique(s@, n as int);
                }
                n.checked_mul(1_048_576)
            },
            None => Some(DEFAULT_CACHE_BYTES),
        },
    }
}

} // verus!
