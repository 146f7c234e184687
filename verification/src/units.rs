use vstd::prelude::*;

verus! {

/// A unit in which a size in bytes is shown.
#[derive(Debug, Clone, Copy, PartialEq, Eq)]
pub enum ByteUnit {
    B,
    KB,
    MB,
    GB,
    TB,
    KiB,
    MiB,
    GiB,
    TiB,
}

/// The text written after a scaled size.
pub open spec fn unit_symbol(unit: ByteUnit) -> Seq<char> {
    match unit {
        ByteUnit::B => "B"@,
        ByteUnit::KB => "KB"@,
        ByteUnit::MB => "MB"@,
        ByteUnit::GB => "GB"@,
        ByteUnit::TB => "TB"@,
        ByteUnit::KiB => "KiB"@,
        ByteUnit::MiB => "MiB"@,
        ByteUnit::GiB => "GiB"@,
        ByteUnit::TiB => "TiB"@,
    }
}

impl ByteUnit {
    /// The text written after a size shown in this unit.
    pub fn symbol(&self) -> (text: &'static str)
        ensures
            text@ == unit_symbol(*self),
    {
        match self {
            ByteUnit::B => "B",
            ByteUnit::KB => "KB",
            ByteUnit::MB => "MB",
            ByteUnit::GB => "GB",
            ByteUnit::TB => "TB",
            ByteUnit::KiB => "KiB",
            ByteUnit::MiB => "MiB",
            ByteUnit::GiB => "GiB",
            ByteUnit::TiB => "TiB",
        }
    }
}

/// How a size is written: either as the exact number of bytes followed by
/// ` B`, or as the size divided by `divisor`, with two decimals, followed
/// by the unit's symbol.
#[derive(Debug, Clone, Copy, PartialEq, Eq)]
pub enum SizeText {
    Exact,
    Scaled { divisor: u64, unit: ByteUnit },
}

pub open spec fn kib() -> u64 {
    1024
}

pub open spec fn mib() -> u64 {
    1_048_576
}

pub open spec fn gib() -> u64 {
    1_073_741_824
}

pub open spec fn tib() -> u64 {
    1_099_511_627_776
}

/// The way the tree panel and the legend write a size: the largest power
/// of 1024 (up to the fourth) that does not exceed it, labelled `KB`,
/// `MB`, `GB` or `TB`; sizes under 1024 bytes are written exactly.
pub open spec fn panel_size_text(bytes: u128) -> SizeText {
    if bytes >= tib() {
        SizeText::Scaled { divisor: tib(), unit: ByteUnit::TB }
    } else if bytes >= gib() {
        SizeText::Scaled { divisor: gib(), unit: ByteUnit::GB }
    } else if bytes >= mib() {
        SizeText::Scaled { divisor: mib(), unit: ByteUnit::MB }
    } else if bytes >= kib() {
        SizeText::Scaled { divisor: kib(), unit: ByteUnit::KB }
    } else {
        SizeText::Exact
    }
}

const KB: u128 = 1024;

const MB: u128 = 1_048_576;

const GB: u128 = 1_073_741_824;

const TB: u128 = 1_099_511_627_776;

/// Chooses how the tree panel and the legend write a size of `bytes`.
pub fn format_size_text(bytes: u128) -> (text: SizeText)
    ensures
        text == panel_size_text(bytes),
        bytes < 1024 ==> text == SizeText::Exact,
        bytes >= 1024 ==> match text {
            SizeText::Scaled { divisor, .. } => divisor <= bytes && (bytes < 1024 * divisor || divisor
                == 1024 * 1024 * 1024 * 1024),
            SizeText::Exact => false,
        },
{
    proof {
        panel_unit_is_largest_not_above(bytes);
    }
    if bytes >= TB {
        SizeText::Scaled { divisor: 1_099_511_627_776, unit: ByteUnit::TB }
    } else if bytes >= GB {
        SizeText::Scaled { divisor: 1_073_741_824, unit: ByteUnit::GB }
    } else if bytes >= MB {
        SizeText::Scaled { divisor: 1_048_576, unit: ByteUnit::MB }
    } else if bytes >= KB {
        SizeText::Scaled { divisor: 1024, unit: ByteUnit::KB }
    } else {
        SizeText::Exact
    }
}

/// The tree panel and the legend write a size in the largest power of 1024,
/// up to the fourth, that does not exceed it, with the matching unit; a
/// size under 1024 bytes is written exactly.
pub proof fn panel_unit_is_largest_not_above(bytes: u128)
    ensures
        bytes < 1024 ==> panel_size_text(bytes) == SizeText::Exact,
        bytes >= 1024 ==> match panel_size_text(bytes) {
            SizeText::Scaled { divisor, unit } => {
                &&& divisor <= bytes
                &&& (bytes < 1024 * divisor || divisor == 1024 * 1024 * 1024 * 1024)
                &&& (divisor == 1024 && unit == ByteUnit::KB)
                    || (divisor == 1024 * 1024 && unit == ByteUnit::MB)
                    || (divisor == 1024 * 1024 * 1024 && unit == ByteUnit::GB)
                    || (divisor == 1024 * 1024 * 1024 * 1024 && unit == ByteUnit::TB)
            },
            SizeText::Exact => false,
        },
{
}

} // verus!
