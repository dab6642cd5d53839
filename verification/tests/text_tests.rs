use rpkg_rs::text::{trim, trim_start, white_space};

#[test]
fn white_space_is_what_the_standard_library_calls_so() {
    for n in 0..=0x10FFFFu32 {
        if let Some(c) = char::from_u32(n) {
            assert_eq!(white_space(c), c.is_whitespace(), "U+{:04X}", n);
        }
    }
}

#[test]
fn trim_takes_white_space_off_the_ends() {
    for text in [
        "",
        " ",
        "a",
        " a",
        "a ",
        "  a b \t\n",
        "\r\n",
        "\u{3000}x y\u{a0}",
        "\u{2003}\u{2003}",
        "\u{200b}a\u{200b}",
        "\u{feff} a",
    ] {
        assert_eq!(trim(text), text.trim(), "{:?}", text);
        assert_eq!(trim_start(text), text.trim_start(), "{:?}", text);
    }
    assert_eq!(trim("\t #chunk patchlevel=3 \r"), "#chunk patchlevel=3");
    assert_eq!(trim_start("  System config  "), "System config  ");
}

#[test]
fn compressor_bound_is_that_of_the_format() {
    for size in [0usize, 1, 254, 255, 256, 1 << 20, 0x7E00_0000, 0x7E00_0001, 0x8000_0000] {
        assert_eq!(
            rpkg_rs::lz4_block::lz4_max_compressed_size(size),
            lzzzz::lz4::max_compressed_size(size),
            "{}",
            size
        );
    }
}
