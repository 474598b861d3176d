use mirzam::image::{by_filters, from_samples, image_space, read_bits, read_space, to_rgb, Space, SpaceEntry, Stored};

/// Four grey pixels at one bit each, in a row that is padded to a byte.
#[test]
fn a_bilevel_row_is_read_bit_by_bit() {
    let rgb = to_rgb(&[0b1010_0000], 4, 1, 1, &Space::Gray, false).unwrap();
    assert_eq!(rgb, vec![255, 255, 255, 0, 0, 0, 255, 255, 255, 0, 0, 0]);
}

#[test]
fn a_palette_becomes_the_colour_it_points_at() {
    let space = Space::Indexed(vec![10, 20, 30, 40, 50, 60]);
    // Two four-bit samples in one byte: entry 0, then entry 1.
    let rgb = to_rgb(&[0b0000_0001], 2, 1, 4, &space, false).unwrap();
    assert_eq!(rgb, vec![10, 20, 30, 40, 50, 60]);
}

/// A sample pointing past the end of the palette is a broken file, and
/// black is the one answer that cannot panic or leak the next entry.
#[test]
fn an_index_past_the_palette_is_black() {
    let space = Space::Indexed(vec![10, 20, 30]);
    let rgb = to_rgb(&[0b0100_0000], 1, 1, 4, &space, false).unwrap();
    assert_eq!(rgb, vec![0, 0, 0]);
}

#[test]
fn too_few_samples_is_an_error_that_counts_them() {
    assert_eq!(
        to_rgb(&[1, 2, 3], 2, 1, 8, &Space::Rgb, false).unwrap_err(),
        "3 bytes of samples for a 2×1 image that needs 6"
    );
}

#[test]
fn two_bit_grey_is_stretched_and_may_be_inverted() {
    // 0, 1, 2, 3 of 3 is 0, 85, 170, 255.
    let rgb = to_rgb(&[0b0001_1011], 4, 1, 2, &Space::Gray, false).unwrap();
    assert_eq!(rgb, vec![0, 0, 0, 85, 85, 85, 170, 170, 170, 255, 255, 255]);
    let rgb = to_rgb(&[0b0001_1011], 4, 1, 2, &Space::Gray, true).unwrap();
    assert_eq!(rgb, vec![255, 255, 255, 170, 170, 170, 85, 85, 85, 0, 0, 0]);
}

#[test]
fn rows_start_on_a_byte() {
    // Three one-bit pixels a row: each row takes a whole byte.
    let rgb = to_rgb(&[0b1110_0000, 0b0100_0000], 3, 2, 1, &Space::Gray, false).unwrap();
    assert_eq!(
        rgb,
        vec![
            255, 255, 255, 255, 255, 255, 255, 255, 255, 0, 0, 0, 255, 255, 255, 0, 0, 0
        ]
    );
    assert_eq!(read_bits(&[0b0110_0000], 1, 2), 2);
    assert_eq!(read_bits(&[7, 9], 1, 8), 9);
    assert_eq!(read_bits(&[7], 4, 8), 0);
}

#[test]
fn a_png_carries_its_own_size_and_checksums() {
    let pixels = vec![255u8, 0, 0, 0, 255, 0, 0, 0, 255, 255, 255, 255];
    let png = mirzam::image::png(2, 2, mirzam::image::Colour::Rgb, &pixels).unwrap();
    assert_eq!(&png[..8], &[0x89, b'P', b'N', b'G', 0x0d, 0x0a, 0x1a, 0x0a]);
    assert_eq!(&png[12..16], b"IHDR");
    assert_eq!(&png[16..20], &2u32.to_be_bytes());
    assert_eq!(&png[20..24], &2u32.to_be_bytes());
    assert_eq!(png[24], 8, "eight bits a channel");
    assert_eq!(png[25], 2, "true colour");
    assert!(png.ends_with(&[0xae, 0x42, 0x60, 0x82]), "the IEND checksum");
}

#[test]
fn a_png_refuses_pixels_short_of_its_size() {
    let err = mirzam::image::png(2, 2, mirzam::image::Colour::Rgba, &[0u8; 15]).unwrap_err();
    assert_eq!(err, "an image shorter than its own size");
    let png = mirzam::image::png(1, 1, mirzam::image::Colour::Rgba, &[1, 2, 3, 4]).unwrap();
    assert_eq!(png[25], 6, "true colour with alpha");
    // The IHDR chunk's CRC covers its kind and its data.
    assert_eq!(&png[29..33], &[0x1f, 0x15, 0xc4, 0x89]);
}

#[test]
fn a_filter_chain_says_what_can_be_lifted() {
    let f = |v: &[&str]| v.iter().map(|s| s.to_string()).collect::<Vec<String>>();
    assert_eq!(by_filters(&f(&["DCTDecode"])), Stored::Jpeg);
    assert_eq!(
        by_filters(&f(&["FlateDecode", "DCTDecode"])),
        Stored::Refused("a JPEG behind another filter, which is not unwrapped here".to_string())
    );
    assert_eq!(
        by_filters(&f(&["JPXDecode"])),
        Stored::Refused("JPEG 2000, which no browser but Safari shows".to_string())
    );
    assert_eq!(
        by_filters(&f(&["CCITTFaxDecode", "FlateDecode"])),
        Stored::Refused("a fax-coded scan, which is not decoded here".to_string())
    );
    assert_eq!(by_filters(&f(&["FlateDecode"])), Stored::Samples);
    assert_eq!(by_filters(&f(&[])), Stored::Samples);
    let j = mirzam::image::jpeg(vec![0xff, 0xd8]);
    assert_eq!((j.bytes, j.extension, j.what.as_str()), (vec![0xff, 0xd8], "jpg", "JPEG"));
}

#[test]
fn samples_become_a_png_with_their_transparency() {
    let x = from_samples(&[0, 255], Some(2), Some(1), 8, Some(Space::Gray), false, None).unwrap();
    assert_eq!(x.extension, "png");
    assert_eq!(x.what, "2×1 image");
    let plain = mirzam::image::png(2, 1, mirzam::image::Colour::Rgb, &[0, 0, 0, 255, 255, 255]);
    assert_eq!(x.bytes, plain.unwrap());
    let y = from_samples(&[0, 255], Some(2), Some(1), 8, Some(Space::Gray), false, Some(vec![9, 8]))
        .unwrap();
    assert_eq!(y.what, "2×1 image with its transparency");
    let rgba = mirzam::image::png(2, 1, mirzam::image::Colour::Rgba, &[0, 0, 0, 9, 255, 255, 255, 8]);
    assert_eq!(y.bytes, rgba.unwrap());
    assert_eq!(
        from_samples(&[0], None, Some(1), 8, Some(Space::Gray), false, None).err(),
        Some("an image with no width".to_string())
    );
    assert_eq!(
        from_samples(&[0], Some(1), None, 8, Some(Space::Gray), false, None).err(),
        Some("an image with no height".to_string())
    );
    assert_eq!(
        from_samples(&[0], Some(1), Some(1), 8, None, false, None).err(),
        Some("a colour space this cannot read".to_string())
    );
    assert_eq!(
        from_samples(&[0], Some(3), Some(2), 16, Some(Space::Rgb), false, None).err(),
        Some("3×2 at 16 bits, which is not read here".to_string())
    );
}

#[test]
fn a_mask_gives_one_alpha_byte_a_pixel() {
    assert_eq!(mirzam::image::alpha_of(&[0b1010_0000], 4, 1, 1), Some(vec![255, 0, 255, 0]));
    assert_eq!(mirzam::image::alpha_of(&[1, 2], 3, 1, 8), None);
    assert_eq!(mirzam::image::with_alpha(&vec![1, 2, 3, 4, 5, 6], &vec![7]), vec![1, 2, 3, 7]);
}

fn name(n: &str) -> SpaceEntry {
    SpaceEntry::Name(n.to_string())
}

fn array(head: &str, n: Option<i64>, base: Option<SpaceEntry>, lookup: Option<Vec<u8>>) -> SpaceEntry {
    SpaceEntry::Array { head: Some(head.to_string()), n, base: base.map(Box::new), lookup }
}

#[test]
fn a_colour_space_reads_by_name_profile_or_palette() {
    assert_eq!(read_space(&name("DeviceGray")), Some(Space::Gray));
    assert_eq!(read_space(&name("G")), Some(Space::Gray));
    assert_eq!(read_space(&name("CalRGB")), Some(Space::Rgb));
    assert_eq!(read_space(&name("DeviceCMYK")), None);
    assert_eq!(read_space(&array("ICCBased", Some(3), None, None)), Some(Space::Rgb));
    assert_eq!(read_space(&array("ICCBased", Some(1), None, None)), Some(Space::Gray));
    assert_eq!(read_space(&array("ICCBased", Some(4), None, None)), None);
    assert_eq!(read_space(&array("ICCBased", None, None, None)), None);
    assert_eq!(read_space(&array("CalGray", None, None, None)), Some(Space::Gray));
    assert_eq!(read_space(&SpaceEntry::Other), None);
    assert_eq!(
        read_space(&SpaceEntry::Array { head: None, n: None, base: None, lookup: None }),
        None
    );
}

#[test]
fn a_grey_palette_is_widened_to_rgb() {
    let grey = array("Indexed", None, Some(name("DeviceGray")), Some(vec![0, 128, 255]));
    assert_eq!(
        read_space(&grey),
        Some(Space::Indexed(vec![0, 0, 0, 128, 128, 128, 255, 255, 255]))
    );
    let rgb = array("I", None, Some(name("DeviceRGB")), Some(vec![1, 2, 3, 4, 5, 6]));
    assert_eq!(read_space(&rgb), Some(Space::Indexed(vec![1, 2, 3, 4, 5, 6])));
    // A palette over a palette, or one without its bytes, is not read.
    let nested = array("Indexed", None, Some(rgb), Some(vec![0]));
    assert_eq!(read_space(&nested), None);
    assert_eq!(read_space(&array("Indexed", None, Some(name("DeviceRGB")), None)), None);
}

#[test]
fn a_stencil_mask_is_grey_whatever_its_space_says() {
    assert_eq!(image_space(true, Some(&name("DeviceRGB"))), Some(Space::Gray));
    assert_eq!(image_space(true, None), Some(Space::Gray));
    assert_eq!(image_space(false, Some(&name("DeviceRGB"))), Some(Space::Rgb));
    assert_eq!(image_space(false, None), None);
}
