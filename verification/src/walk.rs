use vstd::prelude::*;
use std::collections::BTreeSet;
use std::path::PathBuf;
use crate::units::{ByteUnit, SizeText};

verus! {

#[verifier::external_type_specification]
#[verifier::external_body]
pub struct ExPathBuf(PathBuf);

/// How sizes are written in scan reports.
#[derive(Debug, Clone, Copy, PartialEq, Eq)]
pub enum ByteFormat {
    Metric,
    Binary,
    Bytes,
    GB,
    GiB,
    MB,
    MiB,
}

/// A size of `bytes` to be written in the format `format`.
#[derive(Debug, Clone, Copy, PartialEq, Eq)]
pub struct ByteFormatDisplay {
    pub format: ByteFormat,
    pub bytes: u128,
}

/// The unit ladder of the automatic formats: the largest unit (terabyte
/// down to byte, decimal or binary) that does not exceed the size; a size
/// of zero is written exactly.
pub open spec fn auto_size_text(bytes: u128, binary: bool) -> SizeText {
    if binary {
        if bytes >= 1_099_511_627_776 {
            SizeText::Scaled { divisor: 1_099_511_627_776, unit: ByteUnit::TiB }
        } else if bytes >= 1_073_741_824 {
            SizeText::Scaled { divisor: 1_073_741_824, unit: ByteUnit::GiB }
        } else if bytes >= 1_048_576 {
            SizeText::Scaled { divisor: 1_048_576, unit: ByteUnit::MiB }
        } else if bytes >= 1024 {
            SizeText::Scaled { divisor: 1024, unit: ByteUnit::KiB }
        } else if bytes >= 1 {
            SizeText::Scaled { divisor: 1, unit: ByteUnit::B }
        } else {
            SizeText::Exact
        }
    } else {
        if bytes >= 1_000_000_000_000 {
            SizeText::Scaled { divisor: 1_000_000_000_000, unit: ByteUnit::TB }
        } else if bytes >= 1_000_000_000 {
            SizeText::Scaled { divisor: 1_000_000_000, unit: ByteUnit::GB }
        } else if bytes >= 1_000_000 {
            SizeText::Scaled { divisor: 1_000_000, unit: ByteUnit::MB }
        } else if bytes >= 1000 {
            SizeText::Scaled { divisor: 1000, unit: ByteUnit::KB }
        } else if bytes >= 1 {
            SizeText::Scaled { divisor: 1, unit: ByteUnit::B }
        } else {
            SizeText::Exact
        }
    }
}

/// How a size of `bytes` is written in the format `format`.
pub open spec fn format_size_spec(format: ByteFormat, bytes: u128) -> SizeText {
    match format {
        ByteFormat::Bytes => SizeText::Exact,
        ByteFormat::GB => SizeText::Scaled { divisor: 1_000_000_000, unit: ByteUnit::GB },
        ByteFormat::GiB => SizeText::Scaled { divisor: 1_073_741_824, unit: ByteUnit::GiB },
        ByteFormat::MB => SizeText::Scaled { divisor: 1_000_000, unit: ByteUnit::MB },
        ByteFormat::MiB => SizeText::Scaled { divisor: 1_048_576, unit: ByteUnit::MiB },
        ByteFormat::Metric => auto_size_text(bytes, false),
        ByteFormat::Binary => auto_size_text(bytes, true),
    }
}

fn auto_text(bytes: u128, binary: bool) -> (text: SizeText)
    ensures
        text == auto_size_text(bytes, binary),
{
    let ladder: [(u64, ByteUnit); 5] = if binary {
        [
            (1_099_511_627_776, ByteUnit::TiB),
            (1_073_741_824, ByteUnit::GiB),
            (1_048_576, ByteUnit::MiB),
            (1024, ByteUnit::KiB),
            (1, ByteUnit::B),
        ]
    } else {
        [
            (1_000_000_000_000, ByteUnit::TB),
            (1_000_000_000, ByteUnit::GB),
            (1_000_000, ByteUnit::MB),
            (1000, ByteUnit::KB),
            (1, ByteUnit::B),
        ]
    };
    let mut i: usize = 0;
    while i < 5
        invariant
            0 <= i <= 5,
            ladder@ == if binary {
                seq![
                    (1_099_511_627_776u64, ByteUnit::TiB),
                    (1_073_741_824u64, ByteUnit::GiB),
                    (1_048_576u64, ByteUnit::MiB),
                    (1024u64, ByteUnit::KiB),
                    (1u64, ByteUnit::B),
                ]
            } else {
                seq![
                    (1_000_000_000_000u64, ByteUnit::TB),
                    (1_000_000_000u64, ByteUnit::GB),
                    (1_000_000u64, ByteUnit::MB),
                    (1000u64, ByteUnit::KB),
                    (1u64, ByteUnit::B),
                ]
            },
            forall|j: int| 0 <= j < i ==> bytes < ladder@[j].0,
        decreases 5 - i,
    {
        let (divisor, unit) = ladder[i];
        if bytes >= divisor as u128 {
            return SizeText::Scaled { divisor, unit };
        }
        i = i + 1;
    }
    SizeText::Exact
}

/// The automatic formats write a size in the largest unit that does not
/// exceed it: a power of 1000 (metric) or of 1024 (binary) up to the
/// fourth, or the byte itself, with the matching unit; zero is written
/// exactly.
pub proof fn auto_unit_is_largest_not_above(bytes: u128)
    ensures
        bytes == 0 ==> auto_size_text(bytes, false) == SizeText::Exact && auto_size_text(bytes, true)
            == SizeText::Exact,
        bytes >= 1 ==> match auto_size_text(bytes, false) {
            SizeText::Scaled { divisor, unit } => {
                &&& divisor <= bytes
                &&& (bytes < 1000 * divisor || divisor == 1000 * 1000 * 1000 * 1000)
                &&& (divisor == 1 && unit == ByteUnit::B)
                    || (divisor == 1000 && unit == ByteUnit::KB)
                    || (divisor == 1000 * 1000 && unit == ByteUnit::MB)
                    || (divisor == 1000 * 1000 * 1000 && unit == ByteUnit::GB)
                    || (divisor == 1000 * 1000 * 1000 * 1000 && unit == ByteUnit::TB)
            },
            SizeText::Exact => false,
        },
        bytes >= 1 ==> match auto_size_text(bytes, true) {
            SizeText::Scaled { divisor, unit } => {
                &&& divisor <= bytes
                &&& (bytes < 1024 * divisor || divisor == 1024 * 1024 * 1024 * 1024)
                &&& (divisor == 1 && unit == ByteUnit::B)
                    || (divisor == 1024 && unit == ByteUnit::KiB)
                    || (divisor == 1024 * 1024 && unit == ByteUnit::MiB)
                    || (divisor == 1024 * 1024 * 1024 && unit == ByteUnit::GiB)
                    || (divisor == 1024 * 1024 * 1024 * 1024 && unit == ByteUnit::TiB)
            },
            SizeText::Exact => false,
        },
{
}

impl ByteFormat {
    /// Pairs a size with this format, for writing.
    pub fn display(self, bytes: u128) -> (shown: ByteFormatDisplay)
        ensures
            shown == (ByteFormatDisplay { format: self, bytes }),
    {
        ByteFormatDisplay { format: self, bytes }
    }
}

impl ByteFormatDisplay {
    /// How this size is written: the fixed formats always use their own
    /// unit, the automatic ones the largest unit that does not exceed the
    /// size.
    pub fn text(&self) -> (text: SizeText)
        ensures
            text == format_size_spec(self.format, self.bytes),
            (self.format == ByteFormat::Metric || self.format == ByteFormat::Binary) ==> match text {
                SizeText::Scaled { divisor, .. } => divisor <= self.bytes,
                SizeText::Exact => self.bytes == 0,
            },
            self.format == ByteFormat::Metric ==> match text {
                SizeText::Scaled { divisor, .. } => self.bytes < 1000 * divisor || divisor == 1000 * 1000
                    * 1000 * 1000,
                SizeText::Exact => true,
            },
            self.format == ByteFormat::Binary ==> match text {
                SizeText::Scaled { divisor, .. } => self.bytes < 1024 * divisor || divisor == 1024 * 1024
                    * 1024 * 1024,
                SizeText::Exact => true,
            },
    {
        proof {
            auto_unit_is_largest_not_above(self.bytes);
        }
        match self.format {
            ByteFormat::Bytes => SizeText::Exact,
            ByteFormat::GB => SizeText::Scaled { divisor: 1_000_000_000, unit: ByteUnit::GB },
            ByteFormat::GiB => SizeText::Scaled { divisor: 1_073_741_824, unit: ByteUnit::GiB },
            ByteFormat::MB => SizeText::Scaled { divisor: 1_000_000, unit: ByteUnit::MB },
            ByteFormat::MiB => SizeText::Scaled { divisor: 1_048_576, unit: ByteUnit::MiB },
            ByteFormat::Metric => auto_text(self.bytes, false),
            ByteFormat::Binary => auto_text(self.bytes, true),
        }
    }
}

/// The order in which a directory's entries are walked.
#[derive(Debug, Clone, Copy, PartialEq, Eq)]
pub enum TraversalSorting {
    Unsorted,
    AlphabeticalByFileName,
}

/// The outcome of a walk.
#[derive(Debug)]
pub struct WalkResult {
    pub num_errors: u64,
}

impl Default for WalkResult {
    fn default() -> (result: Self)
        ensures
            result.num_errors == 0,
    {
        WalkResult { num_errors: 0 }
    }
}

impl WalkResult {
    /// The process exit code: 1 when the walk met errors, 0 otherwise.
    pub fn to_exit_code(&self) -> (code: i32)
        ensures
            code == (if self.num_errors > 0 { 1i32 } else { 0i32 }),
    {
        if self.num_errors > 0 {
            1
        } else {
            0
        }
    }
}

/// The settings of a directory walk.
#[derive(Debug)]
pub struct WalkOptions {
    pub threads: usize,
    pub count_hard_links: bool,
    pub apparent_size: bool,
    pub sorting: TraversalSorting,
    pub cross_filesystems: bool,
    pub ignore_dirs: BTreeSet<PathBuf>,
}

/// The number of logical CPUs available to this process (from
/// `num_cpus::get`); the crate documents that it is always at least 1.
#[verifier::external_body]
fn available_cpus() -> (cpus: usize)
    ensures
        cpus >= 1,
{
    num_cpus::get()
}

impl Default for WalkOptions {
    /// One walker thread per available CPU, everything else off, and no
    /// directory ignored.
    fn default() -> (options: Self)
        ensures
            options.threads >= 1,
            !options.count_hard_links,
            !options.apparent_size,
            options.sorting == TraversalSorting::Unsorted,
            !options.cross_filesystems,
            options.ignore_dirs@ == Set::<PathBuf>::empty(),
    {
        WalkOptions {
            threads: available_cpus(),
            count_hard_links: false,
            apparent_size: false,
            sorting: TraversalSorting::Unsorted,
            cross_filesystems: false,
            ignore_dirs: BTreeSet::new(),
        }
    }
}

/// The thread pool a walk runs on.
#[derive(Debug, Clone, Copy, PartialEq, Eq)]
pub enum Parallelism {
    /// The shared pool, waiting at most `busy_timeout_secs` for it.
    SharedPool { busy_timeout_secs: u64 },
    /// The calling thread alone.
    Serial,
    /// A pool of its own with `threads` threads of `stack_size` bytes.
    OwnPool { threads: usize, stack_size: usize },
}

/// What a directory walk is asked to do.
#[derive(Debug, Clone, Copy, PartialEq, Eq)]
pub struct WalkPlan {
    /// Entries above this depth are not reported (1 skips the root).
    pub min_depth: usize,
    /// Whether each directory's entries are sorted by name.
    pub sort: bool,
    /// Whether symbolic links are followed.
    pub follow_links: bool,
    /// Whether hidden entries are skipped.
    pub skip_hidden: bool,
    pub parallelism: Parallelism,
}

impl WalkOptions {
    /// The walk these options ask for, from `root` or below it.
    pub fn walk_plan(&self, skip_root: bool) -> (plan: WalkPlan)
        ensures
            plan.min_depth == (if skip_root { 1usize } else { 0usize }),
            plan.sort == (self.sorting == TraversalSorting::AlphabeticalByFileName),
            !plan.follow_links,
            !plan.skip_hidden,
            plan.parallelism == (if self.threads == 0 {
                Parallelism::SharedPool { busy_timeout_secs: 1 }
            } else if self.threads == 1 {
                Parallelism::Serial
            } else {
                Parallelism::OwnPool { threads: self.threads, stack_size: 131072 }
            }),
    {
        let parallelism = match self.threads {
            0 => Parallelism::SharedPool { busy_timeout_secs: 1 },
            1 => Parallelism::Serial,
            _ => Parallelism::OwnPool { threads: self.threads, stack_size: 128 * 1024 },
        };
        WalkPlan {
            min_depth: if skip_root { 1 } else { 0 },
            sort: match self.sorting {
                TraversalSorting::Unsorted => false,
                TraversalSorting::AlphabeticalByFileName => true,
            },
            follow_links: false,
            skip_hidden: false,
            parallelism,
        }
    }

    /// Whether the walk reads the entries of a directory it has reached:
    /// not when it lies on another device (unless crossing file systems is
    /// allowed; a directory whose device is unknown counts as the same
    /// one), and not when it is one of the ignored directories.
    pub fn descends_into(&self, same_device: Option<bool>, ignored: bool) -> (descend: bool)
        ensures
            descend == ((self.cross_filesystems || same_device != Some(false)) && !ignored),
    {
        let ok_for_fs = self.cross_filesystems || match same_device {
            Some(same) => same,
            None => true,
        };
        ok_for_fs && !ignored
    }
}

} // verus!
