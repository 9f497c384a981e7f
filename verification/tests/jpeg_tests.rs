//! End-to-end tests of the JPEG parser, classifier and rewriter.

use jpeg2pdf::jpeg::{ColorSpace, DensityUnit, Image, Marker, ParseError, UnsupportedFeature};

/// A segment with a length field: 0xFF, the code, big-endian payload length
/// + 2, then the payload.
fn seg(code: u8, payload: &[u8]) -> Vec<u8> {
    let mut v = vec![0xFF, code];
    let l = payload.len() + 2;
    v.push((l / 256) as u8);
    v.push((l % 256) as u8);
    v.extend_from_slice(payload);
    v
}

/// An APP0 payload with the JFIF signature, a density unit code, and the two
/// big-endian densities.
fn jfif_payload(unit: u8, dx: u16, dy: u16) -> Vec<u8> {
    let mut p = vec![0x4A, 0x46, 0x49, 0x46, 0x00];
    p.push(unit);
    p.extend_from_slice(&dx.to_be_bytes());
    p.extend_from_slice(&dy.to_be_bytes());
    p.push(0);
    p
}

/// A baseline frame header: 8-bit precision, the dimensions, one component
/// count byte.
fn sof_payload(precision: u8, height: u16, width: u16, components: u8) -> Vec<u8> {
    let mut p = vec![precision];
    p.extend_from_slice(&height.to_be_bytes());
    p.extend_from_slice(&width.to_be_bytes());
    p.push(components);
    p
}

/// A small but complete JPEG stream: SOI, APP0/JFIF, SOF0, DQT, SOS with two
/// entropy bytes, EOI.
fn sample_jpeg() -> Vec<u8> {
    let mut v = vec![0xFF, 0xD8];
    v.extend_from_slice(&seg(0xE0, &jfif_payload(1, 72, 72)));
    v.extend_from_slice(&seg(0xC0, &sof_payload(8, 1, 1, 1)));
    v.extend_from_slice(&seg(0xDB, &[0x11, 0x22]));
    v.extend_from_slice(&seg(0xDA, &[0x01, 0x02]));
    v.extend_from_slice(&[0x12, 0x34, 0xFF, 0xD9]);
    v
}

#[test]
fn parses_metadata_from_sample() {
    let data = sample_jpeg();
    let img = Image::try_read(&data).unwrap();
    assert_eq!(img.width, 1);
    assert_eq!(img.height, 1);
    assert_eq!(img.bit_depth, 8);
    assert_eq!(img.color_space, ColorSpace::Grayscale);
    assert_eq!(img.density_unit, DensityUnit::DotsPerInch);
    assert_eq!(img.density_x, 72);
    assert_eq!(img.density_y, 72);
    assert_eq!(img.leading_blocks.len(), 3);
    assert_eq!(img.leading_blocks[0].marker, Marker::App(0));
    assert_eq!(img.leading_blocks[1].marker, Marker::StartOfFrame(0xC0));
    assert_eq!(img.leading_blocks[2].marker, Marker::QuantizationTable);
    // the scan range starts at the start-of-scan marker and runs to the end
    assert_eq!(img.scan_data, vec![0xFF, 0xDA, 0x00, 0x04, 0x01, 0x02, 0x12, 0x34, 0xFF, 0xD9]);
}

#[test]
fn round_trip_reproduces_input() {
    let data = sample_jpeg();
    let img = Image::try_read(&data).unwrap();
    assert_eq!(img.write(false), data);
}

#[test]
fn round_trip_keeps_unrecognized_segments() {
    let mut data = vec![0xFF, 0xD8];
    data.extend_from_slice(&seg(0xC0, &sof_payload(8, 2, 3, 3)));
    data.extend_from_slice(&seg(0xE7, &[1, 2, 3])); // APP7
    data.extend_from_slice(&seg(0xF0, &[9])); // an unrecognized marker
    data.extend_from_slice(&seg(0xDA, &[0x00]));
    data.extend_from_slice(&[0xAB, 0xFF, 0xD9]);
    let img = Image::try_read(&data).unwrap();
    assert_eq!(img.leading_blocks[2].marker, Marker::Other(0xF0));
    assert_eq!(img.write(false), data);
    assert_eq!(img.color_space, ColorSpace::Rgb);
}

#[test]
fn filtering_twice_equals_filtering_once() {
    let data = sample_jpeg();
    let img = Image::try_read(&data).unwrap();
    let once = img.write(true);
    let img2 = Image::try_read(&once).unwrap();
    let twice = img2.write(true);
    assert_eq!(twice, once);
}

#[test]
fn filtering_keeps_required_segments_and_scan() {
    let data = sample_jpeg();
    let mut img = Image::try_read(&data).unwrap();
    img.retain_required();
    // APP0 is optional and gone; SOF and DQT are required and stay, in order
    assert_eq!(img.leading_blocks.len(), 2);
    assert_eq!(img.leading_blocks[0].marker, Marker::StartOfFrame(0xC0));
    assert_eq!(img.leading_blocks[1].marker, Marker::QuantizationTable);
    let out = img.write(false);
    // start-of-image still leads, and the scan range (with its end-of-image)
    // is still the tail, byte for byte
    assert_eq!(&out[..2], &[0xFF, 0xD8]);
    assert!(out.ends_with(&img.scan_data));
    assert_eq!(out, img.write(true));
}

#[test]
fn fill_bytes_before_marker_are_consumed() {
    let mut data = vec![0xFF, 0xD8];
    data.extend_from_slice(&[0xFF, 0xFF, 0xFF]); // fill bytes, then the marker's own 0xFF
    data.extend_from_slice(&seg(0xC0, &sof_payload(8, 1, 1, 1))[1..].to_vec());
    data.extend_from_slice(&seg(0xDA, &[0x00]));
    data.extend_from_slice(&[0xFF, 0xD9]);
    let img = Image::try_read(&data).unwrap();
    assert_eq!(img.leading_blocks.len(), 1);
    assert_eq!(img.width, 1);
}

#[test]
fn missing_frame_header_is_rejected() {
    let mut data = vec![0xFF, 0xD8];
    data.extend_from_slice(&seg(0xDB, &[0x11, 0x22]));
    data.extend_from_slice(&seg(0xDA, &[0x00]));
    data.extend_from_slice(&[0xFF, 0xD9]);
    assert_eq!(Image::try_read(&data).unwrap_err(), ParseError::MissingRequiredSegment);
}

#[test]
fn missing_start_of_image_is_rejected() {
    assert_eq!(Image::try_read(&[0x00, 0x01, 0x02]).unwrap_err(), ParseError::MalformedStructure);
    assert_eq!(Image::try_read(&[0xFF]).unwrap_err(), ParseError::UnexpectedEndOfData);
}

#[test]
fn truncated_segment_is_rejected() {
    let mut data = vec![0xFF, 0xD8];
    data.extend_from_slice(&[0xFF, 0xC0, 0x00, 0x40, 0x08]); // declares 0x40, has 1
    assert_eq!(Image::try_read(&data).unwrap_err(), ParseError::UnexpectedEndOfData);
}

#[test]
fn non_marker_byte_is_rejected() {
    let mut data = vec![0xFF, 0xD8];
    data.extend_from_slice(&[0x12, 0x34]);
    assert_eq!(Image::try_read(&data).unwrap_err(), ParseError::MalformedStructure);
}

#[test]
fn twelve_bit_precision_is_rejected_before_output() {
    let mut data = vec![0xFF, 0xD8];
    data.extend_from_slice(&seg(0xC0, &sof_payload(12, 1, 1, 1)));
    data.extend_from_slice(&seg(0xDA, &[0x00]));
    data.extend_from_slice(&[0xFF, 0xD9]);
    let img = Image::try_read(&data).unwrap();
    assert_eq!(img.check_supported(), Err(UnsupportedFeature::BitDepth(12)));
}

#[test]
fn unresolved_color_space_is_rejected() {
    let mut data = vec![0xFF, 0xD8];
    data.extend_from_slice(&seg(0xC0, &sof_payload(8, 1, 1, 2)));
    data.extend_from_slice(&seg(0xDA, &[0x00]));
    data.extend_from_slice(&[0xFF, 0xD9]);
    let img = Image::try_read(&data).unwrap();
    assert_eq!(img.color_space, ColorSpace::Other(2));
    assert_eq!(img.check_supported(), Err(UnsupportedFeature::ColorSpace(2)));
}

#[test]
fn four_components_resolve_to_cmyk() {
    let mut data = vec![0xFF, 0xD8];
    data.extend_from_slice(&seg(0xC2, &sof_payload(8, 7, 9, 4)));
    data.extend_from_slice(&seg(0xDA, &[0x00]));
    data.extend_from_slice(&[0xFF, 0xD9]);
    let img = Image::try_read(&data).unwrap();
    assert_eq!(img.color_space, ColorSpace::Cmyk);
    assert_eq!(img.check_supported(), Ok(()));
    assert_eq!((img.width, img.height), (9, 7));
}

#[test]
fn zero_dimension_is_rejected() {
    let mut data = vec![0xFF, 0xD8];
    data.extend_from_slice(&seg(0xC0, &sof_payload(8, 0, 1, 1)));
    data.extend_from_slice(&seg(0xDA, &[0x00]));
    data.extend_from_slice(&[0xFF, 0xD9]);
    assert_eq!(Image::try_read(&data).unwrap_err(), ParseError::MalformedStructure);
}

#[test]
fn density_defaults_to_no_unit_without_jfif() {
    let mut data = vec![0xFF, 0xD8];
    data.extend_from_slice(&seg(0xC0, &sof_payload(8, 1, 1, 1)));
    data.extend_from_slice(&seg(0xDA, &[0x00]));
    data.extend_from_slice(&[0xFF, 0xD9]);
    let img = Image::try_read(&data).unwrap();
    assert_eq!(img.density_unit, DensityUnit::NoUnit);
}

#[test]
fn unknown_density_unit_code_is_kept() {
    let mut data = vec![0xFF, 0xD8];
    data.extend_from_slice(&seg(0xE0, &jfif_payload(7, 10, 20)));
    data.extend_from_slice(&seg(0xC0, &sof_payload(8, 1, 1, 1)));
    data.extend_from_slice(&seg(0xDA, &[0x00]));
    data.extend_from_slice(&[0xFF, 0xD9]);
    let img = Image::try_read(&data).unwrap();
    assert_eq!(img.density_unit, DensityUnit::Other(7));
    assert_eq!((img.density_x, img.density_y), (10, 20));
}
