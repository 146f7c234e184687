use rustdirstat::units::{format_size_text, ByteUnit, SizeText};

#[test]
fn panel_sizes_pick_the_largest_unit() {
    assert_eq!(format_size_text(0), SizeText::Exact);
    assert_eq!(format_size_text(1023), SizeText::Exact);
    assert_eq!(format_size_text(1024), SizeText::Scaled { divisor: 1024, unit: ByteUnit::KB });
    assert_eq!(format_size_text(1_048_575), SizeText::Scaled { divisor: 1024, unit: ByteUnit::KB });
    assert_eq!(format_size_text(1_048_576), SizeText::Scaled { divisor: 1_048_576, unit: ByteUnit::MB });
    assert_eq!(
        format_size_text(5 * 1_073_741_824),
        SizeText::Scaled { divisor: 1_073_741_824, unit: ByteUnit::GB }
    );
    assert_eq!(
        format_size_text(u128::MAX),
        SizeText::Scaled { divisor: 1_099_511_627_776, unit: ByteUnit::TB }
    );
}

#[test]
fn unit_symbols() {
    assert_eq!(ByteUnit::B.symbol(), "B");
    assert_eq!(ByteUnit::KB.symbol(), "KB");
    assert_eq!(ByteUnit::MiB.symbol(), "MiB");
    assert_eq!(ByteUnit::TiB.symbol(), "TiB");
}
