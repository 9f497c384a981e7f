//! JPEG container parsing and selective rewriting.
//!
//! The scanner walks the marker-segment structure of a JPEG byte stream up to
//! and including the first start-of-scan marker; everything from that marker
//! on (the entropy-coded scan and the terminal end-of-image) is kept as one
//! opaque byte range and is never inspected or altered.  The classifier tags
//! each leading segment as required for decoding or as optional metadata and
//! extracts the frame and density fields; the rewriter re-serializes the
//! result, optionally omitting the optional segments.
//!
//! The whole grammar is stated as spec functions over byte sequences
//! (`scan_from`, `parse_image`, `write_bytes`); the executable parser and
//! writer are proved to match them exactly.

use vstd::prelude::*;

verus! {

/// The recognized JPEG marker kinds; the second byte of every marker code is
/// kept recoverable so that unrecognized markers still round-trip.
#[derive(Clone, Copy, Debug, PartialEq, Eq, Structural)]
pub enum Marker {
    StartOfImage,
    EndOfImage,
    /// Application segment 0 to 15.
    App(u8),
    Comment,
    QuantizationTable,
    HuffmanTable,
    /// Start-of-frame; the field is the raw marker code, one of the baseline
    /// (0xC0), extended sequential (0xC1) or progressive (0xC2) variants.
    StartOfFrame(u8),
    StartOfScan,
    RestartInterval,
    /// Restart marker 0 to 7.
    Restart(u8),
    /// Fallback for any other code, so unrecognized segments round-trip.
    Other(u8),
}

/// The marker denoted by the byte following a 0xFF prefix.
pub open spec fn marker_of_code(b: u8) -> Marker {
    if b == 0xD8 {
        Marker::StartOfImage
    } else if b == 0xD9 {
        Marker::EndOfImage
    } else if 0xE0 <= b && b <= 0xEF {
        Marker::App((b - 0xE0) as u8)
    } else if b == 0xFE {
        Marker::Comment
    } else if b == 0xDB {
        Marker::QuantizationTable
    } else if b == 0xC4 {
        Marker::HuffmanTable
    } else if b == 0xC0 || b == 0xC1 || b == 0xC2 {
        Marker::StartOfFrame(b)
    } else if b == 0xDA {
        Marker::StartOfScan
    } else if b == 0xDD {
        Marker::RestartInterval
    } else if 0xD0 <= b && b <= 0xD7 {
        Marker::Restart((b - 0xD0) as u8)
    } else {
        Marker::Other(b)
    }
}

/// The byte that encodes a marker (after the 0xFF prefix).
pub open spec fn marker_code(m: Marker) -> u8 {
    match m {
        Marker::StartOfImage => 0xD8,
        Marker::EndOfImage => 0xD9,
        Marker::App(n) => (0xE0 + n) as u8,
        Marker::Comment => 0xFE,
        Marker::QuantizationTable => 0xDB,
        Marker::HuffmanTable => 0xC4,
        Marker::StartOfFrame(c) => c,
        Marker::StartOfScan => 0xDA,
        Marker::RestartInterval => 0xDD,
        Marker::Restart(n) => (0xD0 + n) as u8,
        Marker::Other(c) => c,
    }
}

/// A marker value the scanner can actually produce: variant payloads in
/// range, and `Other` only for codes no other variant claims.
pub open spec fn marker_wf(m: Marker) -> bool {
    match m {
        Marker::App(n) => n < 16,
        Marker::Restart(n) => n < 8,
        Marker::StartOfFrame(c) => c == 0xC0 || c == 0xC1 || c == 0xC2,
        Marker::Other(c) => c != 0x00 && c != 0xFF && marker_of_code(c) == Marker::Other(c),
        _ => true,
    }
}

/// Markers that carry no length field and hence no payload: start-of-image,
/// end-of-image, the restart markers, and the lone no-payload marker 0x01.
pub open spec fn spec_standalone(m: Marker) -> bool {
    match m {
        Marker::StartOfImage => true,
        Marker::EndOfImage => true,
        Marker::Restart(_) => true,
        Marker::Other(c) => c == 0x01,
        _ => false,
    }
}

/// Whether a segment with this marker is required for decoding.  Frame
/// headers, table definitions and the restart-interval definition are
/// required; standalone markers are structural and never filtered;
/// application segments, comments and unrecognized segments are optional.
pub open spec fn spec_required(m: Marker) -> bool {
    match m {
        Marker::StartOfFrame(_) => true,
        Marker::QuantizationTable => true,
        Marker::HuffmanTable => true,
        Marker::RestartInterval => true,
        Marker::StartOfImage => true,
        Marker::EndOfImage => true,
        Marker::StartOfScan => true,
        Marker::Restart(_) => true,
        Marker::App(_) => false,
        Marker::Comment => false,
        Marker::Other(c) => c == 0x01,
    }
}

pub proof fn lemma_code_of_marker_of_code(b: u8)
    requires
        b != 0x00,
        b != 0xFF,
    ensures
        marker_code(marker_of_code(b)) == b,
        marker_wf(marker_of_code(b)),
{
}

pub proof fn lemma_marker_of_code_of_marker(m: Marker)
    requires
        marker_wf(m),
    ensures
        marker_of_code(marker_code(m)) == m,
        marker_code(m) != 0x00,
        marker_code(m) != 0xFF,
{
}

/// Classifies the byte following a 0xFF marker prefix.
pub fn marker_from_code(b: u8) -> (m: Marker)
    ensures
        m == marker_of_code(b),
{
    if b == 0xD8 {
        Marker::StartOfImage
    } else if b == 0xD9 {
        Marker::EndOfImage
    } else if 0xE0 <= b && b <= 0xEF {
        Marker::App(b - 0xE0)
    } else if b == 0xFE {
        Marker::Comment
    } else if b == 0xDB {
        Marker::QuantizationTable
    } else if b == 0xC4 {
        Marker::HuffmanTable
    } else if b == 0xC0 || b == 0xC1 || b == 0xC2 {
        Marker::StartOfFrame(b)
    } else if b == 0xDA {
        Marker::StartOfScan
    } else if b == 0xDD {
        Marker::RestartInterval
    } else if 0xD0 <= b && b <= 0xD7 {
        Marker::Restart(b - 0xD0)
    } else {
        Marker::Other(b)
    }
}

/// The byte that encodes a marker.
pub fn code_of_marker(m: Marker) -> (b: u8)
    requires
        marker_wf(m),
    ensures
        b == marker_code(m),
{
    match m {
        Marker::StartOfImage => 0xD8,
        Marker::EndOfImage => 0xD9,
        Marker::App(n) => 0xE0 + n,
        Marker::Comment => 0xFE,
        Marker::QuantizationTable => 0xDB,
        Marker::HuffmanTable => 0xC4,
        Marker::StartOfFrame(c) => c,
        Marker::StartOfScan => 0xDA,
        Marker::RestartInterval => 0xDD,
        Marker::Restart(n) => 0xD0 + n,
        Marker::Other(c) => c,
    }
}

/// Whether this marker carries no length field and no payload.
pub fn marker_standalone(m: Marker) -> (r: bool)
    ensures
        r == spec_standalone(m),
{
    match m {
        Marker::StartOfImage => true,
        Marker::EndOfImage => true,
        Marker::Restart(_) => true,
        Marker::Other(c) => c == 0x01,
        _ => false,
    }
}

/// One marker segment: the marker and its (possibly empty) payload, without
/// the two length bytes, which are recomputed on output.
#[derive(Debug)]
pub struct Segment {
    pub marker: Marker,
    pub payload: Vec<u8>,
}

/// The mathematical value of a [`Segment`].
#[verifier::ext_equal]
pub struct SegmentModel {
    pub marker: Marker,
    pub payload: Seq<u8>,
}

impl View for Segment {
    type V = SegmentModel;

    open spec fn view(&self) -> SegmentModel {
        SegmentModel { marker: self.marker, payload: self.payload@ }
    }
}

impl Segment {
    /// Whether this segment must be kept for the image to stay decodable.
    pub fn is_required(&self) -> (r: bool)
        ensures
            r == spec_required(self.marker),
    {
        match self.marker {
            Marker::StartOfFrame(_) => true,
            Marker::QuantizationTable => true,
            Marker::HuffmanTable => true,
            Marker::RestartInterval => true,
            Marker::StartOfImage => true,
            Marker::EndOfImage => true,
            Marker::StartOfScan => true,
            Marker::Restart(_) => true,
            Marker::App(_) => false,
            Marker::Comment => false,
            Marker::Other(c) => c == 0x01,
        }
    }
}

/// A segment the scanner can produce: a well-formed non-start-of-scan marker,
/// a payload short enough for the two length bytes, and no payload at all on
/// a standalone marker.
pub open spec fn seg_wf(s: SegmentModel) -> bool {
    &&& marker_wf(s.marker)
    &&& s.marker != Marker::StartOfScan
    &&& s.payload.len() + 2 <= 0xFFFF
    &&& (spec_standalone(s.marker) ==> s.payload.len() == 0)
}

/// The big-endian 16-bit value of two bytes.
pub open spec fn be16(hi: u8, lo: u8) -> int {
    (hi as int) * 256 + (lo as int)
}

/// The bytes of one re-serialized segment: 0xFF, the marker code, and — for
/// markers with a length field — the recomputed big-endian length
/// (payload length + 2) followed by the payload.
pub open spec fn enc_seg(s: SegmentModel) -> Seq<u8> {
    if spec_standalone(s.marker) {
        seq![0xFFu8, marker_code(s.marker)]
    } else {
        seq![
            0xFFu8,
            marker_code(s.marker),
            (((s.payload.len() + 2) as int / 256) as u8),
            (((s.payload.len() + 2) as int % 256) as u8),
        ] + s.payload
    }
}

/// The bytes of a re-serialized segment list, keeping a segment exactly when
/// it is required or optional segments are not being dropped.
pub open spec fn enc_segs(segs: Seq<SegmentModel>, drop_optional: bool) -> Seq<u8>
    decreases segs.len(),
{
    if segs.len() == 0 {
        Seq::empty()
    } else {
        (if spec_required(segs[0].marker) || !drop_optional {
            enc_seg(segs[0])
        } else {
            Seq::empty()
        }) + enc_segs(segs.drop_first(), drop_optional)
    }
}

pub proof fn lemma_enc_segs_push(segs: Seq<SegmentModel>, x: SegmentModel, drop_optional: bool)
    ensures
        enc_segs(segs.push(x), drop_optional) == enc_segs(segs, drop_optional) + (
        if spec_required(x.marker) || !drop_optional {
            enc_seg(x)
        } else {
            Seq::<u8>::empty()
        }),
    decreases segs.len(),
{
    let tail = if spec_required(x.marker) || !drop_optional {
        enc_seg(x)
    } else {
        Seq::<u8>::empty()
    };
    if segs.len() == 0 {
        assert(segs.push(x).drop_first() =~= Seq::<SegmentModel>::empty());
        assert(enc_segs(Seq::<SegmentModel>::empty(), drop_optional) == Seq::<u8>::empty());
        assert(segs.push(x)[0] == x);
        assert(enc_segs(segs.push(x), drop_optional) == tail + enc_segs(
            Seq::<SegmentModel>::empty(),
            drop_optional,
        ));
        assert(enc_segs(segs.push(x), drop_optional) =~= enc_segs(segs, drop_optional) + tail);
    } else {
        assert(segs.push(x).drop_first() =~= segs.drop_first().push(x));
        lemma_enc_segs_push(segs.drop_first(), x, drop_optional);
        assert(segs.push(x)[0] == segs[0]);
        let head = if spec_required(segs[0].marker) || !drop_optional {
            enc_seg(segs[0])
        } else {
            Seq::<u8>::empty()
        };
        assert(enc_segs(segs.push(x), drop_optional) == head + enc_segs(
            segs.drop_first().push(x),
            drop_optional,
        ));
        assert(enc_segs(segs.drop_first().push(x), drop_optional) == enc_segs(
            segs.drop_first(),
            drop_optional,
        ) + tail);
        assert(enc_segs(segs.push(x), drop_optional) =~= enc_segs(segs, drop_optional) + tail);
    }
}

/// The color space an image's component count resolves to.
#[derive(Clone, Copy, Debug, PartialEq, Eq, Structural)]
pub enum ColorSpace {
    Grayscale,
    Rgb,
    Cmyk,
    /// An unresolved component count.
    Other(u8),
}

/// The unit of the JFIF pixel-density fields.
#[derive(Clone, Copy, Debug, PartialEq, Eq, Structural)]
pub enum DensityUnit {
    NoUnit,
    DotsPerInch,
    DotsPerCentimeter,
    /// An unrecognized density-unit code.
    Other(u8),
}

/// A structural failure of the marker-segment walk.
#[derive(Clone, Copy, Debug, PartialEq, Eq, Structural)]
pub enum ParseError {
    /// The stream does not begin with start-of-image, a non-marker byte
    /// stands where a marker is expected, a length field is below two, or a
    /// frame header is too short or declares a zero dimension.
    MalformedStructure,
    /// A declared segment length exceeds the remaining bytes, or the stream
    /// truncates mid-segment.
    UnexpectedEndOfData,
    /// No start-of-frame segment occurs among the leading segments.
    MissingRequiredSegment,
}

/// A feature of a structurally valid image that this converter does not
/// accept.
#[derive(Clone, Copy, Debug, PartialEq, Eq, Structural)]
pub enum UnsupportedFeature {
    /// A sample precision other than 8 bits per component.
    BitDepth(u8),
    /// A component count that resolves to no known color space.
    ColorSpace(u8),
    /// No density unit was specified, so no page size can be derived.
    NoDensityUnit,
    /// An unrecognized density-unit code.
    DensityUnit(u8),
}

/// Everything needed to re-emit a JPEG stream and to describe the embedded
/// image: the frame and density metadata, the leading segments in file
/// order (start-of-image and the start-of-scan segment excluded), and the
/// untouched bytes from the start-of-scan marker to the end of the stream.
#[derive(Debug)]
pub struct Image {
    pub width: u32,
    pub height: u32,
    pub bit_depth: u8,
    pub color_space: ColorSpace,
    pub density_unit: DensityUnit,
    pub density_x: u16,
    pub density_y: u16,
    pub leading_blocks: Vec<Segment>,
    pub scan_data: Vec<u8>,
}

/// The mathematical value of an [`Image`].
#[verifier::ext_equal]
pub struct ImageModel {
    pub width: u32,
    pub height: u32,
    pub bit_depth: u8,
    pub color_space: ColorSpace,
    pub density_unit: DensityUnit,
    pub density_x: u16,
    pub density_y: u16,
    pub leading_blocks: Seq<SegmentModel>,
    pub scan_data: Seq<u8>,
}

impl View for Image {
    type V = ImageModel;

    open spec fn view(&self) -> ImageModel {
        ImageModel {
            width: self.width,
            height: self.height,
            bit_depth: self.bit_depth,
            color_space: self.color_space,
            density_unit: self.density_unit,
            density_x: self.density_x,
            density_y: self.density_y,
            leading_blocks: self.leading_blocks@.map_values(|s: Segment| s@),
            scan_data: self.scan_data@,
        }
    }
}

/// The scan range as the parser leaves it: it starts with a start-of-scan
/// marker whose declared length fits within the range.
pub open spec fn scan_wf(sd: Seq<u8>) -> bool {
    &&& sd.len() >= 4
    &&& sd[0] == 0xFF
    &&& sd[1] == 0xDA
    &&& be16(sd[2], sd[3]) >= 2
    &&& 2 + be16(sd[2], sd[3]) <= sd.len()
}

/// Well-formedness of a parsed image: every leading segment is one the
/// scanner can produce, and the scan range starts with a start-of-scan
/// segment.
pub open spec fn image_wf(m: ImageModel) -> bool {
    &&& (forall|i: int| 0 <= i < m.leading_blocks.len() ==> seg_wf(#[trigger] m.leading_blocks[i]))
    &&& scan_wf(m.scan_data)
}

/// The rewriter's output: start-of-image, the kept leading segments in their
/// original order, then the scan range verbatim (it carries its own
/// start-of-scan marker and terminal end-of-image).
pub open spec fn write_bytes(m: ImageModel, drop_optional: bool) -> Seq<u8> {
    seq![0xFFu8, 0xD8u8] + enc_segs(m.leading_blocks, drop_optional) + m.scan_data
}

/// What the marker scanner yields from one walk: the leading segments, the
/// opaque scan range, and whether the walk met no fill bytes (so that
/// re-serialization reproduces the input byte-for-byte).
#[verifier::ext_equal]
pub struct ScanOut {
    pub segs: Seq<SegmentModel>,
    pub scan_data: Seq<u8>,
    pub canonical: bool,
}

/// The marker scanner, from position `i` (which must hold the 0xFF of the
/// next marker) to the first start-of-scan segment.  Runs of 0xFF fill bytes
/// before a marker byte are consumed one per step, clearing `canonical`.
pub open spec fn scan_from(s: Seq<u8>, i: int) -> Result<ScanOut, ParseError>
    decreases s.len() - i,
    when 0 <= i <= s.len()
{
    if i + 2 > s.len() {
        Err(ParseError::UnexpectedEndOfData)
    } else if s[i] != 0xFF {
        Err(ParseError::MalformedStructure)
    } else if s[i + 1] == 0xFF {
        // a fill byte: skip it
        match scan_from(s, i + 1) {
            Ok(o) => Ok(ScanOut { segs: o.segs, scan_data: o.scan_data, canonical: false }),
            Err(e) => Err(e),
        }
    } else if s[i + 1] == 0x00 {
        Err(ParseError::MalformedStructure)
    } else {
        let m = marker_of_code(s[i + 1]);
        if spec_standalone(m) {
            match scan_from(s, i + 2) {
                Ok(o) => Ok(
                    ScanOut {
                        segs: seq![SegmentModel { marker: m, payload: Seq::empty() }] + o.segs,
                        scan_data: o.scan_data,
                        canonical: o.canonical,
                    },
                ),
                Err(e) => Err(e),
            }
        } else if i + 4 > s.len() {
            Err(ParseError::UnexpectedEndOfData)
        } else {
            let l = be16(s[i + 2], s[i + 3]);
            if l < 2 {
                Err(ParseError::MalformedStructure)
            } else if i + 2 + l > s.len() {
                Err(ParseError::UnexpectedEndOfData)
            } else if m == Marker::StartOfScan {
                Ok(
                    ScanOut {
                        segs: Seq::empty(),
                        scan_data: seq![0xFFu8, 0xDAu8] + s.skip(i + 2),
                        canonical: true,
                    },
                )
            } else {
                match scan_from(s, i + 2 + l) {
                    Ok(o) => Ok(
                        ScanOut {
                            segs: seq![
                                SegmentModel { marker: m, payload: s.subrange(i + 4, i + 2 + l) },
                            ] + o.segs,
                            scan_data: o.scan_data,
                            canonical: o.canonical,
                        },
                    ),
                    Err(e) => Err(e),
                }
            }
        }
    }
}

/// The component-count to color-space mapping: 1 component is grayscale,
/// 3 components the usual YCbCr-coded RGB, 4 components CMYK.
pub open spec fn color_of(n: u8) -> ColorSpace {
    if n == 1 {
        ColorSpace::Grayscale
    } else if n == 3 {
        ColorSpace::Rgb
    } else if n == 4 {
        ColorSpace::Cmyk
    } else {
        ColorSpace::Other(n)
    }
}

/// The JFIF density-unit codes.
pub open spec fn unit_of(n: u8) -> DensityUnit {
    if n == 0 {
        DensityUnit::NoUnit
    } else if n == 1 {
        DensityUnit::DotsPerInch
    } else if n == 2 {
        DensityUnit::DotsPerCentimeter
    } else {
        DensityUnit::Other(n)
    }
}

/// The five-byte JFIF signature at the head of an application-segment-0
/// payload.
pub open spec fn jfif_sig() -> Seq<u8> {
    seq![0x4Au8, 0x46u8, 0x49u8, 0x46u8, 0x00u8]
}

/// The metadata fields as the classifier accumulates them over the leading
/// segments.
#[verifier::ext_equal]
pub struct MetaAcc {
    pub width: u32,
    pub height: u32,
    pub bit_depth: u8,
    pub color_space: ColorSpace,
    pub density_unit: DensityUnit,
    pub density_x: u16,
    pub density_y: u16,
    pub have_frame: bool,
}

/// The state before any segment is seen: no frame yet, and no density unit.
pub open spec fn init_meta() -> MetaAcc {
    MetaAcc {
        width: 0,
        height: 0,
        bit_depth: 0,
        color_space: ColorSpace::Other(0),
        density_unit: DensityUnit::NoUnit,
        density_x: 0,
        density_y: 0,
        have_frame: false,
    }
}

/// One classifier step.  A start-of-frame segment must carry at least the
/// precision byte, two dimensions and the component count, and its
/// dimensions must be nonzero; an application-segment-0 payload that begins
/// with the JFIF signature and is long enough contributes the density
/// fields; everything else changes nothing.
pub open spec fn apply_seg(m: MetaAcc, s: SegmentModel) -> Result<MetaAcc, ParseError> {
    match s.marker {
        Marker::StartOfFrame(_) => {
            if s.payload.len() < 6 {
                Err(ParseError::MalformedStructure)
            } else {
                let h = be16(s.payload[1], s.payload[2]);
                let w = be16(s.payload[3], s.payload[4]);
                if w == 0 || h == 0 {
                    Err(ParseError::MalformedStructure)
                } else {
                    Ok(
                        MetaAcc {
                            width: w as u32,
                            height: h as u32,
                            bit_depth: s.payload[0],
                            color_space: color_of(s.payload[5]),
                            density_unit: m.density_unit,
                            density_x: m.density_x,
                            density_y: m.density_y,
                            have_frame: true,
                        },
                    )
                }
            }
        },
        Marker::App(n) => {
            if n == 0 && s.payload.len() >= 10 && s.payload.subrange(0, 5) == jfif_sig() {
                Ok(
                    MetaAcc {
                        width: m.width,
                        height: m.height,
                        bit_depth: m.bit_depth,
                        color_space: m.color_space,
                        density_unit: unit_of(s.payload[5]),
                        density_x: be16(s.payload[6], s.payload[7]) as u16,
                        density_y: be16(s.payload[8], s.payload[9]) as u16,
                        have_frame: m.have_frame,
                    },
                )
            } else {
                Ok(m)
            }
        },
        _ => Ok(m),
    }
}

/// The classifier folded over a segment list.
pub open spec fn fold_meta(m: MetaAcc, segs: Seq<SegmentModel>) -> Result<MetaAcc, ParseError>
    decreases segs.len(),
{
    if segs.len() == 0 {
        Ok(m)
    } else {
        match apply_seg(m, segs[0]) {
            Ok(m2) => fold_meta(m2, segs.drop_first()),
            Err(e) => Err(e),
        }
    }
}

/// The whole parse: the stream must begin with start-of-image, the scanner
/// walks the leading segments up to the first start-of-scan, the classifier
/// extracts the metadata, and a start-of-frame segment must have occurred.
pub open spec fn parse_image(s: Seq<u8>) -> Result<ImageModel, ParseError> {
    if s.len() < 2 {
        Err(ParseError::UnexpectedEndOfData)
    } else if s[0] != 0xFF || s[1] != 0xD8 {
        Err(ParseError::MalformedStructure)
    } else {
        match scan_from(s, 2) {
            Err(e) => Err(e),
            Ok(o) => match fold_meta(init_meta(), o.segs) {
                Err(e) => Err(e),
                Ok(meta) => {
                    if !meta.have_frame {
                        Err(ParseError::MissingRequiredSegment)
                    } else {
                        Ok(
                            ImageModel {
                                width: meta.width,
                                height: meta.height,
                                bit_depth: meta.bit_depth,
                                color_space: meta.color_space,
                                density_unit: meta.density_unit,
                                density_x: meta.density_x,
                                density_y: meta.density_y,
                                leading_blocks: o.segs,
                                scan_data: o.scan_data,
                            },
                        )
                    }
                },
            },
        }
    }
}

/// The color space a component count resolves to.
pub fn color_from(n: u8) -> (c: ColorSpace)
    ensures
        c == color_of(n),
{
    if n == 1 {
        ColorSpace::Grayscale
    } else if n == 3 {
        ColorSpace::Rgb
    } else if n == 4 {
        ColorSpace::Cmyk
    } else {
        ColorSpace::Other(n)
    }
}

/// The density unit a JFIF unit code resolves to.
pub fn unit_from(n: u8) -> (u: DensityUnit)
    ensures
        u == unit_of(n),
{
    if n == 0 {
        DensityUnit::NoUnit
    } else if n == 1 {
        DensityUnit::DotsPerInch
    } else if n == 2 {
        DensityUnit::DotsPerCentimeter
    } else {
        DensityUnit::Other(n)
    }
}

/// Whether a payload is long enough to carry JFIF density fields and begins
/// with the JFIF signature.
fn is_jfif(p: &Vec<u8>) -> (r: bool)
    ensures
        r == (p@.len() >= 10 && p@.subrange(0, 5) == jfif_sig()),
{
    if p.len() < 10 {
        return false;
    }
    let r = p[0] == 0x4A && p[1] == 0x46 && p[2] == 0x49 && p[3] == 0x46 && p[4] == 0x00;
    proof {
        assert(jfif_sig()[0] == 0x4A && jfif_sig()[1] == 0x46 && jfif_sig()[2] == 0x49
            && jfif_sig()[3] == 0x46 && jfif_sig()[4] == 0x00);
        if r {
            assert(p@.subrange(0, 5) =~= jfif_sig());
        } else {
            if p@.subrange(0, 5) == jfif_sig() {
                assert(p@[0] == p@.subrange(0, 5)[0]);
                assert(p@[1] == p@.subrange(0, 5)[1]);
                assert(p@[2] == p@.subrange(0, 5)[2]);
                assert(p@[3] == p@.subrange(0, 5)[3]);
                assert(p@[4] == p@.subrange(0, 5)[4]);
            }
        }
    }
    r
}

/// The classifier: folds [`apply_seg`] over the scanned segments.
fn extract_meta(segs: &Vec<Segment>) -> (r: Result<MetaAcc, ParseError>)
    ensures
        r == fold_meta(init_meta(), segs@.map_values(|x: Segment| x@)),
{
    let ghost models = segs@.map_values(|x: Segment| x@);
    let mut acc = MetaAcc {
        width: 0,
        height: 0,
        bit_depth: 0,
        color_space: ColorSpace::Other(0),
        density_unit: DensityUnit::NoUnit,
        density_x: 0,
        density_y: 0,
        have_frame: false,
    };
    assert(acc =~= init_meta());
    assert(models.skip(0) =~= models);
    let mut k: usize = 0;
    while k < segs.len()
        invariant
            k <= models.len(),
            models == segs@.map_values(|x: Segment| x@),
            fold_meta(init_meta(), models) == fold_meta(acc, models.skip(k as int)),
        decreases models.len() - k,
    {
        let seg = &segs[k];
        let ghost acc0 = acc;
        match seg.marker {
            Marker::StartOfFrame(_) => {
                if seg.payload.len() < 6 {
                    proof {
                        assert(models.skip(k as int)[0] == seg@);
                        assert(fold_meta(acc, models.skip(k as int)) == Err::<
                            MetaAcc,
                            ParseError,
                        >(ParseError::MalformedStructure));
                    }
                    return Err(ParseError::MalformedStructure);
                }
                let h = (seg.payload[1] as u32) * 256 + (seg.payload[2] as u32);
                let w = (seg.payload[3] as u32) * 256 + (seg.payload[4] as u32);
                if w == 0 || h == 0 {
                    proof {
                        assert(models.skip(k as int)[0] == seg@);
                        assert(fold_meta(acc, models.skip(k as int)) == Err::<
                            MetaAcc,
                            ParseError,
                        >(ParseError::MalformedStructure));
                    }
                    return Err(ParseError::MalformedStructure);
                }
                acc = MetaAcc {
                    width: w,
                    height: h,
                    bit_depth: seg.payload[0],
                    color_space: color_from(seg.payload[5]),
                    density_unit: acc.density_unit,
                    density_x: acc.density_x,
                    density_y: acc.density_y,
                    have_frame: true,
                };
            },
            Marker::App(n) => {
                if n == 0 && is_jfif(&seg.payload) {
                    let du = unit_from(seg.payload[5]);
                    let dx = (seg.payload[6] as u16) * 256 + (seg.payload[7] as u16);
                    let dy = (seg.payload[8] as u16) * 256 + (seg.payload[9] as u16);
                    acc = MetaAcc {
                        width: acc.width,
                        height: acc.height,
                        bit_depth: acc.bit_depth,
                        color_space: acc.color_space,
                        density_unit: du,
                        density_x: dx,
                        density_y: dy,
                        have_frame: acc.have_frame,
                    };
                }
            },
            _ => {},
        }
        proof {
            assert(models.skip(k as int)[0] == seg@);
            assert(apply_seg(acc0, seg@) == Ok::<MetaAcc, ParseError>(acc));
            assert(models.skip(k as int).drop_first() =~= models.skip(k as int + 1));
        }
        k = k + 1;
    }
    proof {
        assert(models.skip(k as int) =~= Seq::<SegmentModel>::empty());
    }
    Ok(acc)
}

impl Image {
    /// Parses a JPEG byte stream into an image descriptor: exactly the parse
    /// that [`parse_image`] describes, including which error each rejected
    /// stream produces.
    pub fn try_read(data: &[u8]) -> (r: Result<Image, ParseError>)
        ensures
            match r {
                Ok(img) => parse_image(data@) == Ok::<ImageModel, ParseError>(img@) && image_wf(
                    img@,
                ),
                Err(e) => parse_image(data@) == Err::<ImageModel, ParseError>(e),
            },
    {
        let ghost s = data@;
        let n = data.len();
        if n < 2 {
            return Err(ParseError::UnexpectedEndOfData);
        }
        if data[0] != 0xFF || data[1] != 0xD8 {
            return Err(ParseError::MalformedStructure);
        }
        let mut segs: Vec<Segment> = Vec::new();
        let mut i: usize = 2;
        proof {
            assert(segs@.map_values(|x: Segment| x@) =~= Seq::<SegmentModel>::empty());
        }
        loop
            invariant
                2 <= i <= n,
                n == s.len(),
                s == data@,
                s[0] == 0xFF,
                s[1] == 0xD8,
                forall|k: int| 0 <= k < segs@.len() ==> seg_wf(#[trigger] segs@[k]@),
                match (scan_from(s, i as int), scan_from(s, 2)) {
                    (Ok(o), Ok(o0)) => o0.segs == segs@.map_values(|x: Segment| x@) + o.segs
                        && o0.scan_data == o.scan_data,
                    (Err(e), Err(e0)) => e == e0,
                    _ => false,
                },
            decreases n - i,
        {
            let ghost models = segs@.map_values(|x: Segment| x@);
            if i >= n - 1 {
                return Err(ParseError::UnexpectedEndOfData);
            }
            if data[i] != 0xFF {
                return Err(ParseError::MalformedStructure);
            }
            let b = data[i + 1];
            if b == 0xFF {
                // a fill byte before the marker byte: consume it
                i = i + 1;
                continue;
            }
            if b == 0x00 {
                return Err(ParseError::MalformedStructure);
            }
            let m = marker_from_code(b);
            proof {
                lemma_code_of_marker_of_code(b);
            }
            if marker_standalone(m) {
                segs.push(Segment { marker: m, payload: Vec::new() });
                proof {
                    let x = SegmentModel { marker: m, payload: Seq::<u8>::empty() };
                    assert(segs@.map_values(|q: Segment| q@) =~= models.push(x));
                    if let Ok(o2) = scan_from(s, i as int + 2) {
                        assert(models.push(x) + o2.segs =~= models + (seq![x] + o2.segs));
                    }
                }
                i = i + 2;
                continue;
            }
            if n - i < 4 {
                return Err(ParseError::UnexpectedEndOfData);
            }
            let l: usize = (data[i + 2] as usize) * 256 + (data[i + 3] as usize);
            if l < 2 {
                return Err(ParseError::MalformedStructure);
            }
            if l > n - (i + 2) {
                return Err(ParseError::UnexpectedEndOfData);
            }
            if matches!(m, Marker::StartOfScan) {
                // everything from the start-of-scan marker on is the scan range
                let mut sc: Vec<u8> = Vec::new();
                sc.push(0xFF);
                sc.push(0xDA);
                let rest = vstd::slice::slice_subrange(data, i + 2, n);
                crate::bytes::push_bytes(&mut sc, rest);
                proof {
                    assert(sc@ =~= seq![0xFFu8, 0xDAu8] + s.skip(i as int + 2));
                    assert(models + Seq::<SegmentModel>::empty() =~= models);
                }
                match extract_meta(&segs) {
                    Err(e) => {
                        return Err(e);
                    },
                    Ok(meta) => {
                        if !meta.have_frame {
                            return Err(ParseError::MissingRequiredSegment);
                        }
                        let img = Image {
                            width: meta.width,
                            height: meta.height,
                            bit_depth: meta.bit_depth,
                            color_space: meta.color_space,
                            density_unit: meta.density_unit,
                            density_x: meta.density_x,
                            density_y: meta.density_y,
                            leading_blocks: segs,
                            scan_data: sc,
                        };
                        proof {
                            assert(scan_wf(img@.scan_data));
                            if let Ok(mi) = parse_image(s) {
                                assert(mi =~= img@);
                            }
                        }
                        return Ok(img);
                    },
                }
            }
            let payload = vstd::slice::slice_to_vec(
                vstd::slice::slice_subrange(data, i + 4, i + 2 + l),
            );
            segs.push(Segment { marker: m, payload });
            proof {
                let x = SegmentModel {
                    marker: m,
                    payload: s.subrange(i as int + 4, i as int + 2 + l as int),
                };
                assert(segs@.map_values(|q: Segment| q@) =~= models.push(x));
                if let Ok(o2) = scan_from(s, i as int + 2 + l as int) {
                    assert(models.push(x) + o2.segs =~= models + (seq![x] + o2.segs));
                }
            }
            i = i + 2 + l;
        }
    }
}

/// The leading segments that survive filtering: exactly those marked
/// required, in their original order.
pub open spec fn kept_segs(segs: Seq<SegmentModel>) -> Seq<SegmentModel>
    decreases segs.len(),
{
    if segs.len() == 0 {
        Seq::empty()
    } else if spec_required(segs[0].marker) {
        seq![segs[0]] + kept_segs(segs.drop_first())
    } else {
        kept_segs(segs.drop_first())
    }
}

pub proof fn lemma_kept_segs_push(segs: Seq<SegmentModel>, x: SegmentModel)
    ensures
        kept_segs(segs.push(x)) == kept_segs(segs) + (if spec_required(x.marker) {
            seq![x]
        } else {
            Seq::<SegmentModel>::empty()
        }),
    decreases segs.len(),
{
    let tail = if spec_required(x.marker) {
        seq![x]
    } else {
        Seq::<SegmentModel>::empty()
    };
    if segs.len() == 0 {
        assert(segs.push(x).drop_first() =~= Seq::<SegmentModel>::empty());
        assert(kept_segs(Seq::<SegmentModel>::empty()) == Seq::<SegmentModel>::empty());
        assert(segs.push(x)[0] == x);
        assert(kept_segs(segs.push(x)) =~= kept_segs(segs) + tail);
    } else {
        assert(segs.push(x).drop_first() =~= segs.drop_first().push(x));
        lemma_kept_segs_push(segs.drop_first(), x);
        assert(segs.push(x)[0] == segs[0]);
        assert(kept_segs(segs.push(x)) =~= kept_segs(segs) + tail);
    }
}

impl Image {
    /// Re-serializes the descriptor: start-of-image, the leading segments in
    /// original order — all of them, or only the required ones when
    /// `drop_optional` is set, each with its length field recomputed as
    /// payload length + 2 — then the scan range verbatim.
    pub fn write(&self, drop_optional: bool) -> (out: Vec<u8>)
        requires
            image_wf(self@),
        ensures
            out@ == write_bytes(self@, drop_optional),
    {
        let ghost models = self.leading_blocks@.map_values(|x: Segment| x@);
        let mut out: Vec<u8> = Vec::new();
        out.push(0xFF);
        out.push(0xD8);
        proof {
            assert(models.take(0) =~= Seq::<SegmentModel>::empty());
            assert(out@ =~= seq![0xFFu8, 0xD8u8] + enc_segs(models.take(0), drop_optional));
        }
        let mut k: usize = 0;
        while k < self.leading_blocks.len()
            invariant
                k <= models.len(),
                models == self.leading_blocks@.map_values(|x: Segment| x@),
                image_wf(self@),
                out@ == seq![0xFFu8, 0xD8u8] + enc_segs(models.take(k as int), drop_optional),
            decreases models.len() - k,
        {
            let seg = &self.leading_blocks[k];
            assert(seg@ == models[k as int]);
            assert(seg@ == self@.leading_blocks[k as int]);
            assert(seg_wf(seg@));
            let ghost out0 = out@;
            if seg.is_required() || !drop_optional {
                out.push(0xFF);
                out.push(code_of_marker(seg.marker));
                if !marker_standalone(seg.marker) {
                    let l = seg.payload.len() + 2;
                    out.push((l / 256) as u8);
                    out.push((l % 256) as u8);
                    crate::bytes::push_bytes(&mut out, seg.payload.as_slice());
                }
                assert(out@ =~= out0 + enc_seg(seg@));
            }
            proof {
                lemma_enc_segs_push(models.take(k as int), models[k as int], drop_optional);
                assert(models.take(k as int).push(models[k as int]) =~= models.take(k as int + 1));
                assert(out@ =~= seq![0xFFu8, 0xD8u8] + enc_segs(
                    models.take(k as int + 1),
                    drop_optional,
                ));
            }
            k = k + 1;
        }
        proof {
            assert(models.take(models.len() as int) =~= models);
        }
        crate::bytes::push_bytes(&mut out, self.scan_data.as_slice());
        proof {
            assert(out@ =~= write_bytes(self@, drop_optional));
        }
        out
    }

    /// Drops every optional leading segment in place, keeping the required
    /// ones in their original order; nothing else changes.
    pub fn retain_required(&mut self)
        ensures
            final(self).width == old(self).width,
            final(self).height == old(self).height,
            final(self).bit_depth == old(self).bit_depth,
            final(self).color_space == old(self).color_space,
            final(self).density_unit == old(self).density_unit,
            final(self).density_x == old(self).density_x,
            final(self).density_y == old(self).density_y,
            final(self).scan_data == old(self).scan_data,
            final(self)@.leading_blocks == kept_segs(old(self)@.leading_blocks),
            image_wf(old(self)@) ==> image_wf(final(self)@),
    {
        let ghost models = self.leading_blocks@.map_values(|x: Segment| x@);
        let mut kept: Vec<Segment> = Vec::new();
        proof {
            assert(models.take(0) =~= Seq::<SegmentModel>::empty());
            assert(kept@.map_values(|x: Segment| x@) =~= kept_segs(models.take(0)));
        }
        let mut k: usize = 0;
        while k < self.leading_blocks.len()
            invariant
                k <= models.len(),
                models == self.leading_blocks@.map_values(|x: Segment| x@),
                kept@.map_values(|x: Segment| x@) == kept_segs(models.take(k as int)),
                forall|j: int|
                    0 <= j < kept@.len() ==> exists|i: int|
                        0 <= i < models.len() && #[trigger] kept@[j]@ == models[i],
            decreases models.len() - k,
        {
            let seg = &self.leading_blocks[k];
            assert(seg@ == models[k as int]);
            let ghost kept0 = kept@;
            if seg.is_required() {
                let copy = Segment { marker: seg.marker, payload: clone_bytes(&seg.payload) };
                assert(copy@ == seg@);
                kept.push(copy);
                assert(kept@.map_values(|x: Segment| x@) =~= kept0.map_values(|x: Segment| x@).push(
                    seg@,
                ));
            }
            proof {
                lemma_kept_segs_push(models.take(k as int), models[k as int]);
                assert(models.take(k as int).push(models[k as int]) =~= models.take(k as int + 1));
                assert(kept@.map_values(|x: Segment| x@) =~= kept_segs(models.take(k as int + 1)));
            }
            k = k + 1;
        }
        proof {
            assert(models.take(models.len() as int) =~= models);
            if image_wf(old(self)@) {
                assert forall|j: int| 0 <= j < kept@.len() implies seg_wf(
                    #[trigger] kept@[j]@,
                ) by {
                    let i = choose|i: int| 0 <= i < models.len() && kept@[j]@ == models[i];
                    assert(seg_wf(old(self)@.leading_blocks[i]));
                }
            }
        }
        self.leading_blocks = kept;
        proof {
            if image_wf(old(self)@) {
                assert(forall|j: int|
                    0 <= j < self@.leading_blocks.len() ==> seg_wf(
                        #[trigger] self@.leading_blocks[j],
                    ));
            }
        }
    }

    /// Accepts exactly the images this converter can embed: 8 bits per
    /// component and a resolved color space.
    pub fn check_supported(&self) -> (r: Result<(), UnsupportedFeature>)
        ensures
            r == spec_supported(self@),
    {
        if self.bit_depth != 8 {
            return Err(UnsupportedFeature::BitDepth(self.bit_depth));
        }
        match self.color_space {
            ColorSpace::Other(c) => Err(UnsupportedFeature::ColorSpace(c)),
            _ => Ok(()),
        }
    }
}

/// A private byte-for-byte copy of a payload.
fn clone_bytes(v: &Vec<u8>) -> (r: Vec<u8>)
    ensures
        r@ == v@,
{
    vstd::slice::slice_to_vec(v.as_slice())
}

/// Ok exactly when the image is 8 bits per component with a resolved color
/// space; otherwise the offending value.
pub open spec fn spec_supported(m: ImageModel) -> Result<(), UnsupportedFeature> {
    if m.bit_depth != 8 {
        Err(UnsupportedFeature::BitDepth(m.bit_depth))
    } else {
        match m.color_space {
            ColorSpace::Other(c) => Err(UnsupportedFeature::ColorSpace(c)),
            _ => Ok(()),
        }
    }
}

/// A stream the scanner walks without meeting a fill byte; exactly these
/// streams are reproduced byte-for-byte by re-serialization.
pub open spec fn parse_canonical(s: Seq<u8>) -> bool {
    &&& s.len() >= 2
    &&& s[0] == 0xFF
    &&& s[1] == 0xD8
    &&& match scan_from(s, 2) {
        Ok(o) => o.canonical,
        Err(_) => false,
    }
}

} // verus!
