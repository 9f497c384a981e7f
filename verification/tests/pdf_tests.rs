//! Tests of the PDF serializer: exact object records, the page-size
//! computation, and the cross-reference offsets.

use jpeg2pdf::jpeg::{DensityUnit, Image, UnsupportedFeature};
use jpeg2pdf::pdf::{
    content_commands, page_size_pt, Catalog, Document, ImageXObject, ObjectData, Page,
    PageContents, PageResources, Pages,
};

fn seg(code: u8, payload: &[u8]) -> Vec<u8> {
    let mut v = vec![0xFF, code];
    let l = payload.len() + 2;
    v.push((l / 256) as u8);
    v.push((l % 256) as u8);
    v.extend_from_slice(payload);
    v
}

fn jpeg_with_density(width: u16, height: u16, unit: u8, dx: u16, dy: u16) -> Vec<u8> {
    let mut p = vec![0x4A, 0x46, 0x49, 0x46, 0x00, unit];
    p.extend_from_slice(&dx.to_be_bytes());
    p.extend_from_slice(&dy.to_be_bytes());
    let mut sof = vec![8];
    sof.extend_from_slice(&height.to_be_bytes());
    sof.extend_from_slice(&width.to_be_bytes());
    sof.push(1);
    let mut v = vec![0xFF, 0xD8];
    v.extend_from_slice(&seg(0xE0, &p));
    v.extend_from_slice(&seg(0xC0, &sof));
    v.extend_from_slice(&seg(0xDA, &[0x00]));
    v.extend_from_slice(&[0x77, 0xFF, 0xD9]);
    v
}

#[test]
fn one_inch_square_at_72_dpi_is_one_point() {
    let data = jpeg_with_density(1, 1, 1, 72, 72);
    let img = Image::try_read(&data).unwrap();
    assert_eq!(page_size_pt(&img), Ok((1, 1)));
}

#[test]
fn dots_per_centimeter_density_uses_the_7200_over_254_rule() {
    let data = jpeg_with_density(100, 100, 2, 100, 100);
    let img = Image::try_read(&data).unwrap();
    // floor(100 * 7200 / (100 * 254)) = floor(720000 / 25400)
    assert_eq!(page_size_pt(&img), Ok((720000 / 25400, 720000 / 25400)));
    assert_eq!(page_size_pt(&img), Ok((28, 28)));
}

#[test]
fn missing_density_unit_cannot_size_a_page() {
    let data = jpeg_with_density(1, 1, 0, 0, 0);
    let img = Image::try_read(&data).unwrap();
    assert_eq!(img.density_unit, DensityUnit::NoUnit);
    assert_eq!(page_size_pt(&img), Err(UnsupportedFeature::NoDensityUnit));
}

#[test]
fn unknown_density_unit_cannot_size_a_page() {
    let data = jpeg_with_density(1, 1, 9, 5, 5);
    let img = Image::try_read(&data).unwrap();
    assert_eq!(page_size_pt(&img), Err(UnsupportedFeature::DensityUnit(9)));
}

#[test]
fn catalog_record_bytes() {
    let mut out = Vec::new();
    Catalog { root_page_id: 2 }.write_to_pdf(&mut out);
    assert_eq!(out, b"<< /Type /Catalog /Pages 2 0 R >>\n".to_vec());
}

#[test]
fn pages_record_bytes() {
    let mut out = Vec::new();
    Pages { page_ids: vec![3, 17] }.write_to_pdf(&mut out);
    assert_eq!(out, b"<< /Type /Pages /Kids [ 3 0 R 17 0 R ] /Count 2 >>\n".to_vec());
}

#[test]
fn page_record_bytes() {
    let mut out = Vec::new();
    Page { parent_id: 2, resources_id: 4, contents_id: 5, width_pt: 612, height_pt: 792 }
        .write_to_pdf(&mut out);
    assert_eq!(
        out,
        b"<< /Type /Page /Parent 2 0 R /Resources 4 0 R /MediaBox [ 0 0 612 792 ] /Contents 5 0 R >>\n"
            .to_vec()
    );
}

#[test]
fn resources_record_bytes() {
    let mut out = Vec::new();
    PageResources { image_xobject_ids: vec![6] }.write_to_pdf(&mut out);
    assert_eq!(
        out,
        b"<< /ProcSet [ /PDF /Text /ImageB /ImageC /ImageI ] /XObject << /Im0 6 0 R >> >>\n"
            .to_vec()
    );
}

#[test]
fn contents_record_bytes() {
    let commands = content_commands(10, 20);
    assert_eq!(commands, b"q 10 0 0 20 0 0 cm /Im0 Do Q".to_vec());
    let mut out = Vec::new();
    PageContents { commands }.write_to_pdf(&mut out);
    assert_eq!(
        out,
        b"<< /Length 28 >>\nstream\nq 10 0 0 20 0 0 cm /Im0 Do Q\nendstream\n".to_vec()
    );
}

#[test]
fn image_object_mirrors_the_descriptor() {
    let data = jpeg_with_density(1, 1, 1, 72, 72);
    let img = Image::try_read(&data).unwrap();
    let x = ImageXObject::from_jpeg_image(&img).unwrap();
    assert_eq!(x.width, 1);
    assert_eq!(x.height, 1);
    assert_eq!(x.bits_per_component, 8);
    assert_eq!(x.data, img.write(false));
    let mut out = Vec::new();
    x.write_to_pdf(&mut out);
    let mut expect = Vec::new();
    expect.extend_from_slice(
        b"<< /Type /XObject /Subtype /Image /Width 1 /Height 1 /ColorSpace /DeviceGray /BitsPerComponent 8 /Filter [ /DCTDecode ] /Length ",
    );
    expect.extend_from_slice(x.data.len().to_string().as_bytes());
    expect.extend_from_slice(b" >>\nstream\n");
    expect.extend_from_slice(&x.data);
    expect.extend_from_slice(b"\nendstream\n");
    assert_eq!(out, expect);
}

#[test]
fn unresolved_color_space_yields_no_image_object() {
    let sof = vec![8, 0, 1, 0, 1, 2];
    let mut data = vec![0xFF, 0xD8];
    data.extend_from_slice(&seg(0xC0, &sof));
    data.extend_from_slice(&seg(0xDA, &[0x00]));
    data.extend_from_slice(&[0xFF, 0xD9]);
    let img = Image::try_read(&data).unwrap();
    assert!(ImageXObject::from_jpeg_image(&img).is_none());
}

/// Builds the six-object document of a whole conversion run.
fn sample_document() -> Document {
    let data = jpeg_with_density(1, 1, 1, 72, 72);
    let img = Image::try_read(&data).unwrap();
    let (w, h) = page_size_pt(&img).unwrap();
    let mut doc = Document { objects: Vec::new() };
    doc.insert(1, ObjectData::Catalog(Catalog { root_page_id: 2 }));
    doc.insert(2, ObjectData::Pages(Pages { page_ids: vec![3] }));
    doc.insert(
        3,
        ObjectData::Page(Page {
            parent_id: 2,
            resources_id: 4,
            contents_id: 5,
            width_pt: w,
            height_pt: h,
        }),
    );
    doc.insert(4, ObjectData::PageResources(PageResources { image_xobject_ids: vec![6] }));
    doc.insert(5, ObjectData::PageContents(PageContents { commands: content_commands(w, h) }));
    doc.insert(
        6,
        ObjectData::ImageXObject(ImageXObject::from_jpeg_image(&img).unwrap()),
    );
    doc
}

#[test]
fn document_layout_and_trailer() {
    let doc = sample_document();
    let out = doc.write();
    let text = String::from_utf8_lossy(&out);
    assert!(out.starts_with(b"%PDF-1.5\n"));
    assert!(out.len() > 15);
    assert_eq!(&out[9..15], &[b'%', 0xE2, 0xE3, 0xCF, 0xD3, b'\n']);
    assert!(text.contains("1 0 obj\n<< /Type /Catalog /Pages 2 0 R >>\nendobj\n"));
    assert!(text.contains("xref\n0 7\n"));
    assert!(text.contains("trailer\n<< /Size 7 /Root 1 0 R >>\nstartxref\n"));
    assert!(text.ends_with("%%EOF\n"));
    // the startxref value points at the "xref" keyword
    let startxref = text.rfind("startxref\n").unwrap();
    let num: usize = text[startxref + 10..].lines().next().unwrap().parse().unwrap();
    assert_eq!(&out[num..num + 5], b"xref\n");
}

#[test]
fn xref_offsets_point_at_object_records() {
    let doc = sample_document();
    let out = doc.write();
    let marker: &[u8] = b"xref\n0 7\n";
    let table = out.windows(marker.len()).position(|w| w == marker).unwrap() + marker.len();
    // one free entry for object number zero, then entries 1 to 6
    for id in 1..=6usize {
        let line = &out[table + 20 * id..table + 20 * id + 20];
        assert!(line.ends_with(b" 00000 n\r\n"));
        let off: usize = String::from_utf8(line[..10].to_vec()).unwrap().parse().unwrap();
        let header = format!("{} 0 obj\n", id);
        assert_eq!(&out[off..off + header.len()], header.as_bytes());
    }
    // the free entry for object number zero carries the next record's offset
    let free = &out[table..table + 20];
    assert!(free.ends_with(b" 65535 f\r\n"));
    let off0: usize = String::from_utf8(free[..10].to_vec()).unwrap().parse().unwrap();
    assert_eq!(&out[off0..off0 + 8], b"1 0 obj\n");
}
