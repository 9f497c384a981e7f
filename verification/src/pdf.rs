//! A minimal single-page PDF serializer.  Every object is rendered into a
//! byte buffer; the spec functions below state the emitted bytes exactly, so
//! the cross-reference table's offsets can be proved to point at the start
//! of each object record.

use vstd::prelude::*;

use crate::bytes::{dec10_bytes, dec_bytes, push_byte, push_bytes, push_dec, push_dec10, push_str,
    str_bytes};
use crate::jpeg;
use crate::jpeg::ColorSpace;

verus! {

pub type PdfObjectId = u64;

/// The numbered objects of a document, in ascending id order.
#[derive(Debug)]
pub struct Document {
    pub objects: Vec<(PdfObjectId, ObjectData)>,
}

#[derive(Debug)]
pub enum ObjectData {
    Catalog(Catalog),
    Pages(Pages),
    Page(Page),
    PageResources(PageResources),
    PageContents(PageContents),
    ImageXObject(ImageXObject),
}

#[derive(Debug)]
pub struct Catalog {
    pub root_page_id: PdfObjectId,
}

#[derive(Debug)]
pub struct Pages {
    pub page_ids: Vec<PdfObjectId>,
}

#[derive(Debug)]
pub struct Page {
    pub parent_id: PdfObjectId,
    pub resources_id: PdfObjectId,
    pub contents_id: PdfObjectId,
    pub width_pt: u64,
    pub height_pt: u64,
}

#[derive(Debug)]
pub struct PageResources {
    pub image_xobject_ids: Vec<PdfObjectId>,
}

#[derive(Debug)]
pub struct PageContents {
    pub commands: Vec<u8>,
}

/// A declared stream filter; the embedded JPEG keeps its own compression, so
/// the only filter ever declared is the pass-through DCT decoder.
#[derive(Clone, Copy, Debug, PartialEq, Eq, Structural)]
pub enum DataFilter {
    DctDecode,
}

#[derive(Debug)]
pub struct ImageXObject {
    pub width: u64,
    pub height: u64,
    pub color_space: ColorSpace,
    pub bits_per_component: u8,
    pub interpolate: bool,
    pub data_filters: Vec<DataFilter>,
    pub data: Vec<u8>,
}

// ---------------------------------------------------------------------------
// the emitted bytes of each object kind
// ---------------------------------------------------------------------------

pub open spec fn catalog_bytes(c: Catalog) -> Seq<u8> {
    str_bytes("<< /Type /Catalog") + str_bytes(" /Pages ") + dec_bytes(c.root_page_id as nat)
        + str_bytes(" 0 R") + str_bytes(" >>\n")
}

/// One entry of the kids array.
pub open spec fn kid_bytes(id: PdfObjectId) -> Seq<u8> {
    str_bytes(" ") + dec_bytes(id as nat) + str_bytes(" 0 R")
}

pub open spec fn kids_bytes(ids: Seq<PdfObjectId>) -> Seq<u8>
    decreases ids.len(),
{
    if ids.len() == 0 {
        Seq::empty()
    } else {
        kids_bytes(ids.drop_last()) + kid_bytes(ids.last())
    }
}

pub open spec fn pages_bytes(p: Pages) -> Seq<u8> {
    str_bytes("<< /Type /Pages") + str_bytes(" /Kids [") + kids_bytes(p.page_ids@) + str_bytes(
        " ]",
    ) + str_bytes(" /Count ") + dec_bytes(p.page_ids@.len()) + str_bytes(" >>\n")
}

pub open spec fn page_bytes(p: Page) -> Seq<u8> {
    str_bytes("<< /Type /Page") + str_bytes(" /Parent ") + dec_bytes(p.parent_id as nat)
        + str_bytes(" 0 R") + str_bytes(" /Resources ") + dec_bytes(p.resources_id as nat)
        + str_bytes(" 0 R") + str_bytes(" /MediaBox [ 0 0 ") + dec_bytes(p.width_pt as nat)
        + str_bytes(" ") + dec_bytes(p.height_pt as nat) + str_bytes(" ]") + str_bytes(
        " /Contents ",
    ) + dec_bytes(p.contents_id as nat) + str_bytes(" 0 R") + str_bytes(" >>\n")
}

/// One image entry of the XObject dictionary, at its position in the list.
pub open spec fn xobj_entry_bytes(index: nat, id: PdfObjectId) -> Seq<u8> {
    str_bytes(" /Im") + dec_bytes(index) + str_bytes(" ") + dec_bytes(id as nat) + str_bytes(
        " 0 R",
    )
}

pub open spec fn xobj_entries_bytes(ids: Seq<PdfObjectId>) -> Seq<u8>
    decreases ids.len(),
{
    if ids.len() == 0 {
        Seq::empty()
    } else {
        xobj_entries_bytes(ids.drop_last()) + xobj_entry_bytes(
            (ids.len() - 1) as nat,
            ids.last(),
        )
    }
}

pub open spec fn resources_bytes(r: PageResources) -> Seq<u8> {
    str_bytes("<< /ProcSet [ /PDF /Text /ImageB /ImageC /ImageI ]") + str_bytes(" /XObject <<")
        + xobj_entries_bytes(r.image_xobject_ids@) + str_bytes(" >>") + str_bytes(" >>\n")
}

pub open spec fn contents_bytes(c: PageContents) -> Seq<u8> {
    str_bytes("<< /Length ") + dec_bytes(c.commands@.len()) + str_bytes(" >>\n") + str_bytes(
        "stream\n",
    ) + c.commands@ + str_bytes("\nendstream\n")
}

/// The content stream that paints the lone image scaled to the page.
pub open spec fn commands_spec(width_pt: u64, height_pt: u64) -> Seq<u8> {
    str_bytes("q ") + dec_bytes(width_pt as nat) + str_bytes(" 0 0 ") + dec_bytes(
        height_pt as nat,
    ) + str_bytes(" 0 0 cm /Im0 Do Q")
}

/// The PDF name of a resolved color space.
pub open spec fn color_space_bytes(c: ColorSpace) -> Seq<u8> {
    match c {
        ColorSpace::Grayscale => str_bytes("/DeviceGray"),
        ColorSpace::Rgb => str_bytes("/DeviceRGB"),
        ColorSpace::Cmyk => str_bytes("/DeviceCMYK"),
        ColorSpace::Other(_) => Seq::empty(),
    }
}

pub open spec fn filter_bytes(f: DataFilter) -> Seq<u8> {
    str_bytes(" ") + str_bytes("/DCTDecode")
}

pub open spec fn filters_bytes(fs: Seq<DataFilter>) -> Seq<u8>
    decreases fs.len(),
{
    if fs.len() == 0 {
        Seq::empty()
    } else {
        filters_bytes(fs.drop_last()) + filter_bytes(fs.last())
    }
}

pub open spec fn image_bytes(x: ImageXObject) -> Seq<u8> {
    str_bytes("<< /Type /XObject /Subtype /Image") + str_bytes(" /Width ") + dec_bytes(
        x.width as nat,
    ) + str_bytes(" /Height ") + dec_bytes(x.height as nat) + str_bytes(" /ColorSpace ")
        + color_space_bytes(x.color_space) + str_bytes(" /BitsPerComponent ") + dec_bytes(
        x.bits_per_component as nat,
    ) + (if x.data_filters@.len() > 0 {
        str_bytes(" /Filter [") + filters_bytes(x.data_filters@) + str_bytes(" ]")
    } else {
        Seq::empty()
    }) + str_bytes(" /Length ") + dec_bytes(x.data@.len()) + str_bytes(" >>\nstream\n") + x.data@
        + str_bytes("\nendstream\n")
}

pub open spec fn object_data_bytes(d: ObjectData) -> Seq<u8> {
    match d {
        ObjectData::Catalog(o) => catalog_bytes(o),
        ObjectData::Pages(o) => pages_bytes(o),
        ObjectData::Page(o) => page_bytes(o),
        ObjectData::PageResources(o) => resources_bytes(o),
        ObjectData::PageContents(o) => contents_bytes(o),
        ObjectData::ImageXObject(o) => image_bytes(o),
    }
}

/// Whether an image dictionary can be emitted: its color space is resolved.
pub open spec fn object_data_wf(d: ObjectData) -> bool {
    match d {
        ObjectData::ImageXObject(o) => !(o.color_space matches ColorSpace::Other(_)),
        _ => true,
    }
}

// ---------------------------------------------------------------------------
// the emitters
// ---------------------------------------------------------------------------

impl Catalog {
    pub fn write_to_pdf(&self, out: &mut Vec<u8>)
        ensures
            final(out)@ == old(out)@ + catalog_bytes(*self),
    {
        push_str(out, "<< /Type /Catalog");
        push_str(out, " /Pages ");
        push_dec(out, self.root_page_id);
        push_str(out, " 0 R");
        push_str(out, " >>\n");
        assert(out@ =~= old(out)@ + catalog_bytes(*self));
    }
}

impl Pages {
    pub fn write_to_pdf(&self, out: &mut Vec<u8>)
        ensures
            final(out)@ == old(out)@ + pages_bytes(*self),
    {
        push_str(out, "<< /Type /Pages");
        push_str(out, " /Kids [");
        let ghost mid = out@;
        let mut k: usize = 0;
        while k < self.page_ids.len()
            invariant
                k <= self.page_ids@.len(),
                out@ == mid + kids_bytes(self.page_ids@.take(k as int)),
            decreases self.page_ids@.len() - k,
        {
            push_str(out, " ");
            push_dec(out, self.page_ids[k]);
            push_str(out, " 0 R");
            proof {
                let pre = self.page_ids@.take(k as int + 1);
                assert(pre.drop_last() =~= self.page_ids@.take(k as int));
                assert(pre.last() == self.page_ids@[k as int]);
                assert(out@ =~= mid + kids_bytes(pre));
            }
            k = k + 1;
        }
        proof {
            assert(self.page_ids@.take(self.page_ids@.len() as int) =~= self.page_ids@);
        }
        push_str(out, " ]");
        push_str(out, " /Count ");
        push_dec(out, self.page_ids.len() as u64);
        push_str(out, " >>\n");
        assert(out@ =~= old(out)@ + pages_bytes(*self));
    }
}

impl Page {
    #[verifier::rlimit(100)]
    pub fn write_to_pdf(&self, out: &mut Vec<u8>)
        ensures
            final(out)@ == old(out)@ + page_bytes(*self),
    {
        push_str(out, "<< /Type /Page");
        push_str(out, " /Parent ");
        push_dec(out, self.parent_id);
        push_str(out, " 0 R");
        push_str(out, " /Resources ");
        push_dec(out, self.resources_id);
        push_str(out, " 0 R");
        push_str(out, " /MediaBox [ 0 0 ");
        push_dec(out, self.width_pt);
        push_str(out, " ");
        push_dec(out, self.height_pt);
        push_str(out, " ]");
        push_str(out, " /Contents ");
        push_dec(out, self.contents_id);
        push_str(out, " 0 R");
        push_str(out, " >>\n");
        assert(out@ =~= old(out)@ + page_bytes(*self));
    }
}

impl PageResources {
    pub fn write_to_pdf(&self, out: &mut Vec<u8>)
        ensures
            final(out)@ == old(out)@ + resources_bytes(*self),
    {
        push_str(out, "<< /ProcSet [ /PDF /Text /ImageB /ImageC /ImageI ]");
        push_str(out, " /XObject <<");
        let ghost mid = out@;
        let mut k: usize = 0;
        while k < self.image_xobject_ids.len()
            invariant
                k <= self.image_xobject_ids@.len(),
                out@ == mid + xobj_entries_bytes(self.image_xobject_ids@.take(k as int)),
            decreases self.image_xobject_ids@.len() - k,
        {
            push_str(out, " /Im");
            push_dec(out, k as u64);
            push_str(out, " ");
            push_dec(out, self.image_xobject_ids[k]);
            push_str(out, " 0 R");
            proof {
                let pre = self.image_xobject_ids@.take(k as int + 1);
                assert(pre.drop_last() =~= self.image_xobject_ids@.take(k as int));
                assert(pre.last() == self.image_xobject_ids@[k as int]);
                assert(out@ =~= mid + xobj_entries_bytes(pre));
            }
            k = k + 1;
        }
        proof {
            assert(self.image_xobject_ids@.take(self.image_xobject_ids@.len() as int)
                =~= self.image_xobject_ids@);
        }
        push_str(out, " >>");
        push_str(out, " >>\n");
        assert(out@ =~= old(out)@ + resources_bytes(*self));
    }
}

impl PageContents {
    pub fn write_to_pdf(&self, out: &mut Vec<u8>)
        ensures
            final(out)@ == old(out)@ + contents_bytes(*self),
    {
        push_str(out, "<< /Length ");
        push_dec(out, self.commands.len() as u64);
        push_str(out, " >>\n");
        push_str(out, "stream\n");
        push_bytes(out, self.commands.as_slice());
        push_str(out, "\nendstream\n");
        assert(out@ =~= old(out)@ + contents_bytes(*self));
    }
}

/// The content stream that paints image zero scaled to the whole page.
pub fn content_commands(width_pt: u64, height_pt: u64) -> (r: Vec<u8>)
    ensures
        r@ == commands_spec(width_pt, height_pt),
{
    let mut out: Vec<u8> = Vec::new();
    push_str(&mut out, "q ");
    push_dec(&mut out, width_pt);
    push_str(&mut out, " 0 0 ");
    push_dec(&mut out, height_pt);
    push_str(&mut out, " 0 0 cm /Im0 Do Q");
    assert(out@ =~= commands_spec(width_pt, height_pt));
    out
}

impl ImageXObject {
    /// Builds the image dictionary for a parsed JPEG: its dimensions and
    /// bit depth, the matching device color space, the pass-through filter,
    /// and the re-serialized JPEG stream (all segments kept) as the data.
    /// An unresolved color space yields nothing.
    pub fn from_jpeg_image(jpeg_image: &jpeg::Image) -> (r: Option<ImageXObject>)
        requires
            jpeg::image_wf(jpeg_image@),
        ensures
            match r {
                Some(x) => {
                    &&& !(jpeg_image.color_space matches ColorSpace::Other(_))
                    &&& x.width == jpeg_image.width as u64
                    &&& x.height == jpeg_image.height as u64
                    &&& x.color_space == jpeg_image.color_space
                    &&& x.bits_per_component == jpeg_image.bit_depth
                    &&& x.interpolate == false
                    &&& x.data_filters@ == seq![DataFilter::DctDecode]
                    &&& x.data@ == jpeg::write_bytes(jpeg_image@, false)
                },
                None => jpeg_image.color_space matches ColorSpace::Other(_),
            },
    {
        if let ColorSpace::Other(_) = jpeg_image.color_space {
            return None;
        }
        let data = jpeg_image.write(false);
        let mut data_filters: Vec<DataFilter> = Vec::new();
        data_filters.push(DataFilter::DctDecode);
        assert(data_filters@ =~= seq![DataFilter::DctDecode]);
        Some(
            ImageXObject {
                width: jpeg_image.width as u64,
                height: jpeg_image.height as u64,
                color_space: jpeg_image.color_space,
                bits_per_component: jpeg_image.bit_depth,
                interpolate: false,
                data_filters,
                data,
            },
        )
    }

    #[verifier::rlimit(100)]
    pub fn write_to_pdf(&self, out: &mut Vec<u8>)
        requires
            !(self.color_space matches ColorSpace::Other(_)),
        ensures
            final(out)@ == old(out)@ + image_bytes(*self),
    {
        let ghost head = str_bytes("<< /Type /XObject /Subtype /Image") + str_bytes(" /Width ")
            + dec_bytes(self.width as nat) + str_bytes(" /Height ") + dec_bytes(self.height as nat)
            + str_bytes(" /ColorSpace ") + color_space_bytes(self.color_space) + str_bytes(
            " /BitsPerComponent ",
        ) + dec_bytes(self.bits_per_component as nat);
        push_str(out, "<< /Type /XObject /Subtype /Image");
        push_str(out, " /Width ");
        push_dec(out, self.width);
        push_str(out, " /Height ");
        push_dec(out, self.height);
        push_str(out, " /ColorSpace ");
        match self.color_space {
            ColorSpace::Grayscale => push_str(out, "/DeviceGray"),
            ColorSpace::Rgb => push_str(out, "/DeviceRGB"),
            ColorSpace::Cmyk => push_str(out, "/DeviceCMYK"),
            ColorSpace::Other(_) => {},
        }
        push_str(out, " /BitsPerComponent ");
        push_dec(out, self.bits_per_component as u64);
        assert(out@ =~= old(out)@ + head);
        let ghost head2 = head + (if self.data_filters@.len() > 0 {
            str_bytes(" /Filter [") + filters_bytes(self.data_filters@) + str_bytes(" ]")
        } else {
            Seq::<u8>::empty()
        });
        if self.data_filters.len() > 0 {
            push_str(out, " /Filter [");
            let ghost mid = out@;
            let mut k: usize = 0;
            while k < self.data_filters.len()
                invariant
                    k <= self.data_filters@.len(),
                    out@ == mid + filters_bytes(self.data_filters@.take(k as int)),
                decreases self.data_filters@.len() - k,
            {
                push_str(out, " ");
                push_str(out, "/DCTDecode");
                proof {
                    let pre = self.data_filters@.take(k as int + 1);
                    assert(pre.drop_last() =~= self.data_filters@.take(k as int));
                    assert(out@ =~= mid + filters_bytes(pre));
                }
                k = k + 1;
            }
            proof {
                assert(self.data_filters@.take(self.data_filters@.len() as int)
                    =~= self.data_filters@);
            }
            push_str(out, " ]");
        }
        assert(out@ =~= old(out)@ + head2);
        let ghost head3 = head2 + str_bytes(" /Length ") + dec_bytes(self.data@.len()) + str_bytes(
            " >>\nstream\n",
        ) + self.data@;
        push_str(out, " /Length ");
        push_dec(out, self.data.len() as u64);
        push_str(out, " >>\nstream\n");
        push_bytes(out, self.data.as_slice());
        assert(out@ =~= old(out)@ + head3);
        push_str(out, "\nendstream\n");
        assert(out@ =~= old(out)@ + image_bytes(*self));
    }
}

// ---------------------------------------------------------------------------
// the whole document
// ---------------------------------------------------------------------------

/// The file header: the version line and the binary-detection comment line.
pub open spec fn header_bytes() -> Seq<u8> {
    str_bytes("%PDF-1.5\n") + seq![0x25u8, 0xE2u8, 0xE3u8, 0xCFu8, 0xD3u8, 0x0Au8]
}

/// One numbered object record.
pub open spec fn obj_bytes(id: PdfObjectId, d: ObjectData) -> Seq<u8> {
    dec_bytes(id as nat) + str_bytes(" 0 obj\n") + object_data_bytes(d) + str_bytes("endobj\n")
}

/// The object records from position `k` on, in order.
pub open spec fn records_from(objs: Seq<(PdfObjectId, ObjectData)>, k: int) -> Seq<u8>
    decreases objs.len() - k,
    when 0 <= k <= objs.len()
{
    if k >= objs.len() {
        Seq::empty()
    } else {
        obj_bytes(objs[k].0, objs[k].1) + records_from(objs, k + 1)
    }
}

/// The byte offset at which object record `k` starts (for `k` equal to the
/// object count: where the cross-reference table starts).
pub open spec fn obj_offset(objs: Seq<(PdfObjectId, ObjectData)>, k: int) -> int
    decreases k,
    when k >= 0
{
    if k <= 0 {
        header_bytes().len() as int
    } else {
        obj_offset(objs, k - 1) + obj_bytes(objs[k - 1].0, objs[k - 1].1).len()
    }
}

/// A cross-reference line for a free object number; it repeats the offset of
/// the next present object.
pub open spec fn xref_free_line(off: int) -> Seq<u8> {
    dec10_bytes(off as nat) + str_bytes(" 65535 f\r\n")
}

/// A cross-reference line for a present object.
pub open spec fn xref_used_line(off: int) -> Seq<u8> {
    dec10_bytes(off as nat) + str_bytes(" 00000 n\r\n")
}

/// The free lines for the object numbers from `cur` up to (excluding) `id`.
pub open spec fn free_lines(cur: int, id: int, off: int) -> Seq<u8>
    decreases id - cur,
    when cur <= id
{
    if cur >= id {
        Seq::empty()
    } else {
        xref_free_line(off) + free_lines(cur + 1, id, off)
    }
}

/// The object number right after the entries before position `k`.
pub open spec fn prev_id_plus(objs: Seq<(PdfObjectId, ObjectData)>, k: int) -> int {
    if k <= 0 {
        0
    } else {
        objs[k - 1].0 as int + 1
    }
}

/// The cross-reference lines for the first `k` objects, free lines for the
/// gaps included.
pub open spec fn xref_lines_upto(objs: Seq<(PdfObjectId, ObjectData)>, k: int) -> Seq<u8>
    decreases k,
    when k >= 0
{
    if k <= 0 {
        Seq::empty()
    } else {
        xref_lines_upto(objs, k - 1) + free_lines(
            prev_id_plus(objs, k - 1),
            objs[k - 1].0 as int,
            obj_offset(objs, k - 1),
        ) + xref_used_line(obj_offset(objs, k - 1))
    }
}

/// The id of the first catalog object at or after position `k`.
pub open spec fn root_from(objs: Seq<(PdfObjectId, ObjectData)>, k: int) -> PdfObjectId
    decreases objs.len() - k,
    when 0 <= k <= objs.len()
{
    if k >= objs.len() {
        0
    } else if objs[k].1 matches ObjectData::Catalog(_) {
        objs[k].0
    } else {
        root_from(objs, k + 1)
    }
}

/// The highest object id (the objects are sorted).
pub open spec fn max_id(objs: Seq<(PdfObjectId, ObjectData)>) -> PdfObjectId {
    objs[objs.len() - 1].0
}

/// Everything after the object records: the cross-reference table and the
/// trailer.
pub open spec fn tail_bytes(objs: Seq<(PdfObjectId, ObjectData)>) -> Seq<u8> {
    str_bytes("xref\n") + str_bytes("0 ") + dec_bytes((max_id(objs) + 1) as nat) + str_bytes("\n")
        + xref_lines_upto(objs, objs.len() as int) + str_bytes("trailer\n") + str_bytes(
        "<< /Size ",
    ) + dec_bytes((max_id(objs) + 1) as nat) + str_bytes(" /Root ") + dec_bytes(
        root_from(objs, 0) as nat,
    ) + str_bytes(" 0 R") + str_bytes(" >>\n") + str_bytes("startxref\n") + dec_bytes(
        obj_offset(objs, objs.len() as int) as nat,
    ) + str_bytes("\n") + str_bytes("%%EOF\n")
}

/// The whole serialized document.
pub open spec fn doc_bytes(objs: Seq<(PdfObjectId, ObjectData)>) -> Seq<u8> {
    header_bytes() + records_from(objs, 0) + tail_bytes(objs)
}

impl Document {
    /// The representation invariant: object ids strictly ascending.
    pub open spec fn sorted(&self) -> bool {
        forall|a: int, b: int|
            0 <= a < b < self.objects@.len() ==> (#[trigger] self.objects@[a]).0 < (
            #[trigger] self.objects@[b]).0
    }

    /// What serialization needs: sorted ids with room for the count line,
    /// at least one object, a catalog among them, and emittable objects.
    pub open spec fn wf(&self) -> bool {
        &&& self.sorted()
        &&& self.objects@.len() > 0
        &&& max_id(self.objects@) < u64::MAX
        &&& (exists|k: int|
            0 <= k < self.objects@.len() && (#[trigger] self.objects@[k]).1 matches
                ObjectData::Catalog(_))
        &&& (forall|k: int|
            0 <= k < self.objects@.len() ==> object_data_wf((#[trigger] self.objects@[k]).1))
    }

    /// Adds an object under an id above every id already present.
    pub fn insert(&mut self, id: PdfObjectId, data: ObjectData)
        requires
            forall|j: int|
                0 <= j < old(self).objects@.len() ==> (#[trigger] old(self).objects@[j]).0 < id,
        ensures
            final(self).objects@ == old(self).objects@.push((id, data)),
            old(self).sorted() ==> final(self).sorted(),
    {
        self.objects.push((id, data));
    }

    /// Serializes the document: header, the object records in id order, the
    /// cross-reference table (one line per object number from zero to the
    /// highest id), and the trailer naming the first catalog as root.
    #[verifier::rlimit(100)]
    pub fn write(&self) -> (out: Vec<u8>)
        requires
            self.wf(),
        ensures
            out@ == doc_bytes(self.objects@),
    {
        let ghost objs = self.objects@;
        let n = self.objects.len();
        let mut out: Vec<u8> = Vec::new();
        push_str(&mut out, "%PDF-1.5\n");
        push_byte(&mut out, 0x25);
        push_byte(&mut out, 0xE2);
        push_byte(&mut out, 0xE3);
        push_byte(&mut out, 0xCF);
        push_byte(&mut out, 0xD3);
        push_byte(&mut out, 0x0A);
        assert(out@ =~= header_bytes());
        let mut offs: Vec<u64> = Vec::new();
        let mut k: usize = 0;
        while k < n
            invariant
                k <= n,
                n == objs.len(),
                objs == self.objects@,
                self.wf(),
                offs@.len() == k,
                forall|j: int| 0 <= j < k ==> #[trigger] offs@[j] as int == obj_offset(objs, j),
                out@.len() == obj_offset(objs, k as int),
                header_bytes() + records_from(objs, 0) == out@ + records_from(objs, k as int),
            decreases n - k,
        {
            offs.push(out.len() as u64);
            let ghost out0 = out@;
            let entry = &self.objects[k];
            push_dec(&mut out, entry.0);
            push_str(&mut out, " 0 obj\n");
            entry.1.write_to_pdf(&mut out);
            push_str(&mut out, "endobj\n");
            proof {
                assert(out@ =~= out0 + obj_bytes(objs[k as int].0, objs[k as int].1));
                assert(records_from(objs, k as int) == obj_bytes(objs[k as int].0, objs[k as int].1)
                    + records_from(objs, k as int + 1));
                assert(out0 + (obj_bytes(objs[k as int].0, objs[k as int].1) + records_from(
                    objs,
                    k as int + 1,
                )) =~= out@ + records_from(objs, k as int + 1));
                assert(obj_offset(objs, k as int + 1) == obj_offset(objs, k as int) + obj_bytes(
                    objs[k as int].0,
                    objs[k as int].1,
                ).len());
            }
            k = k + 1;
        }
        proof {
            assert(records_from(objs, n as int) == Seq::<u8>::empty());
            assert(out@ =~= header_bytes() + records_from(objs, 0));
        }
        let ghost body = out@;
        let xref_pos = out.len() as u64;
        let last = &self.objects[n - 1];
        let maxid = last.0;
        push_str(&mut out, "xref\n");
        push_str(&mut out, "0 ");
        push_dec(&mut out, maxid + 1);
        push_str(&mut out, "\n");
        let ghost t1 = str_bytes("xref\n") + str_bytes("0 ") + dec_bytes((maxid + 1) as nat)
            + str_bytes("\n");
        assert(out@ =~= body + t1);
        let ghost xref_base = out@;
        proof {
            assert(xref_lines_upto(objs, 0) == Seq::<u8>::empty());
            assert(out@ =~= xref_base + xref_lines_upto(objs, 0));
        }
        let mut cur: u64 = 0;
        let mut k: usize = 0;
        while k < n
            invariant
                k <= n,
                n == objs.len(),
                objs == self.objects@,
                self.wf(),
                offs@.len() == n,
                forall|j: int| 0 <= j < n ==> #[trigger] offs@[j] as int == obj_offset(objs, j),
                cur as int == prev_id_plus(objs, k as int),
                out@ == xref_base + xref_lines_upto(objs, k as int),
            decreases n - k,
        {
            let entry = &self.objects[k];
            let id = entry.0;
            let off = offs[k];
            proof {
                if k > 0 {
                    assert(objs[k as int - 1].0 < objs[k as int].0);
                }
                assert(objs[k as int].0 <= objs[n - 1].0) by {
                    if k < n - 1 {
                        assert(objs[k as int].0 < objs[n - 1].0);
                    }
                }
            }
            let ghost free_target = out@ + free_lines(cur as int, id as int, off as int);
            while cur < id
                invariant
                    cur <= id,
                    out@ + free_lines(cur as int, id as int, off as int) == free_target,
                decreases id - cur,
            {
                let ghost out0 = out@;
                push_dec10(&mut out, off);
                push_str(&mut out, " 65535 f\r\n");
                cur = cur + 1;
                proof {
                    assert(out@ =~= out0 + xref_free_line(off as int));
                    assert(out0 + (xref_free_line(off as int) + free_lines(
                        cur as int,
                        id as int,
                        off as int,
                    )) =~= out@ + free_lines(cur as int, id as int, off as int));
                }
            }
            proof {
                assert(free_lines(cur as int, id as int, off as int) == Seq::<u8>::empty());
                assert(out@ =~= free_target);
            }
            let ghost out1 = out@;
            push_dec10(&mut out, off);
            push_str(&mut out, " 00000 n\r\n");
            cur = id + 1;
            proof {
                assert(out@ =~= out1 + xref_used_line(off as int));
                assert(out@ =~= xref_base + xref_lines_upto(objs, k as int + 1));
            }
            k = k + 1;
        }
        let ghost t2 = t1 + xref_lines_upto(objs, n as int);
        assert(out@ =~= body + t2);
        push_str(&mut out, "trailer\n");
        push_str(&mut out, "<< /Size ");
        push_dec(&mut out, maxid + 1);
        push_str(&mut out, " /Root ");
        let ghost t3 = t2 + str_bytes("trailer\n") + str_bytes("<< /Size ") + dec_bytes(
            (maxid + 1) as nat,
        ) + str_bytes(" /Root ");
        assert(out@ =~= body + t3);
        let root = self.find_root();
        push_dec(&mut out, root);
        push_str(&mut out, " 0 R");
        push_str(&mut out, " >>\n");
        push_str(&mut out, "startxref\n");
        let ghost t4 = t3 + dec_bytes(root as nat) + str_bytes(" 0 R") + str_bytes(" >>\n")
            + str_bytes("startxref\n");
        assert(out@ =~= body + t4);
        push_dec(&mut out, xref_pos);
        push_str(&mut out, "\n");
        push_str(&mut out, "%%EOF\n");
        let ghost t5 = t4 + dec_bytes(xref_pos as nat) + str_bytes("\n") + str_bytes("%%EOF\n");
        assert(out@ =~= body + t5);
        proof {
            assert(root == root_from(objs, 0));
            assert(xref_pos as int == obj_offset(objs, n as int));
            assert(maxid == max_id(objs));
            assert(t5 =~= tail_bytes(objs));
            assert(out@ =~= body + tail_bytes(objs));
            assert(out@ =~= doc_bytes(objs));
        }
        out
    }
}

impl Document {
    /// The id of the first catalog object, which the trailer names as root.
    fn find_root(&self) -> (r: PdfObjectId)
        requires
            self.wf(),
        ensures
            r == root_from(self.objects@, 0),
    {
        let ghost objs = self.objects@;
        let n = self.objects.len();
        let mut r: usize = 0;
        while r < n
            invariant
                r <= n,
                n == objs.len(),
                objs == self.objects@,
                self.wf(),
                root_from(objs, 0) == root_from(objs, r as int),
                forall|j: int| 0 <= j < r ==> !((#[trigger] objs[j]).1 matches ObjectData::Catalog(
                    _,
                )),
            decreases n - r,
        {
            let entry = &self.objects[r];
            if matches!(entry.1, ObjectData::Catalog(_)) {
                return entry.0;
            }
            r = r + 1;
        }
        proof {
            let c = choose|c: int|
                0 <= c < objs.len() && (#[trigger] objs[c]).1 matches ObjectData::Catalog(_);
            assert(false);
        }
        0
    }
}

// ---------------------------------------------------------------------------
// the page size, in 1/72-inch user-space units
// ---------------------------------------------------------------------------

/// The page size the density metadata implies: for dots per inch,
/// floor(px * 72 / density); for dots per centimeter,
/// floor(px * 7200 / (density * 254)); no density unit or an unrecognized
/// one is an unsupported feature.
pub open spec fn spec_page_size(m: jpeg::ImageModel) -> Result<
    (u64, u64),
    jpeg::UnsupportedFeature,
> {
    match m.density_unit {
        jpeg::DensityUnit::NoUnit => Err(jpeg::UnsupportedFeature::NoDensityUnit),
        jpeg::DensityUnit::Other(u) => Err(jpeg::UnsupportedFeature::DensityUnit(u)),
        jpeg::DensityUnit::DotsPerInch => Ok(
            (
                (((m.width as int) * 72) / (m.density_x as int)) as u64,
                (((m.height as int) * 72) / (m.density_y as int)) as u64,
            ),
        ),
        jpeg::DensityUnit::DotsPerCentimeter => Ok(
            (
                (((m.width as int) * 7200) / ((m.density_x as int) * 254)) as u64,
                (((m.height as int) * 7200) / ((m.density_y as int) * 254)) as u64,
            ),
        ),
    }
}

/// Computes the page size from the descriptor's pixel dimensions and
/// density metadata.
pub fn page_size_pt(img: &jpeg::Image) -> (r: Result<(u64, u64), jpeg::UnsupportedFeature>)
    requires
        (img.density_unit matches jpeg::DensityUnit::DotsPerInch || img.density_unit matches
            jpeg::DensityUnit::DotsPerCentimeter) ==> img.density_x > 0 && img.density_y > 0,
    ensures
        r == spec_page_size(img@),
{
    match img.density_unit {
        jpeg::DensityUnit::NoUnit => Err(jpeg::UnsupportedFeature::NoDensityUnit),
        jpeg::DensityUnit::Other(u) => Err(jpeg::UnsupportedFeature::DensityUnit(u)),
        jpeg::DensityUnit::DotsPerInch => {
            let w = (img.width as u64) * 72 / (img.density_x as u64);
            let h = (img.height as u64) * 72 / (img.density_y as u64);
            Ok((w, h))
        },
        jpeg::DensityUnit::DotsPerCentimeter => {
            let w = (img.width as u64) * 7200 / ((img.density_x as u64) * 254);
            let h = (img.height as u64) * 7200 / ((img.density_y as u64) * 254);
            Ok((w, h))
        },
    }
}

/// Every cross-reference offset points at the start of its object record:
/// the document's bytes at the offset recorded for the object at position
/// `k` are exactly that object's record, which begins with its own id.
pub proof fn lemma_xref_offsets(d: Document, k: int)
    requires
        d.wf(),
        0 <= k < d.objects@.len(),
    ensures
        ({
            let objs = d.objects@;
            let off = obj_offset(objs, k);
            let record = obj_bytes(objs[k].0, objs[k].1);
            &&& 0 <= off
            &&& off + record.len() <= doc_bytes(objs).len()
            &&& doc_bytes(objs).subrange(off, off + record.len()) == record
            &&& record.subrange(0, dec_bytes(objs[k].0 as nat).len() as int) == dec_bytes(
                objs[k].0 as nat,
            )
        }),
{
    let objs = d.objects@;
    let off = obj_offset(objs, k);
    let record = obj_bytes(objs[k].0, objs[k].1);
    lemma_records_split(objs, k);
    let hdr = header_bytes().len() as int;
    let t = doc_bytes(objs);
    assert(records_from(objs, k) == record + records_from(objs, k + 1));
    assert(record.len() <= records_from(objs, k).len());
    assert(off - hdr + records_from(objs, k).len() == records_from(objs, 0).len());
    assert forall|j: int| 0 <= j < record.len() implies t[off + j] == record[j] by {
        assert(t[off + j] == records_from(objs, 0)[off - hdr + j]);
        assert(records_from(objs, 0)[off - hdr + j] == records_from(objs, k)[j]);
        assert(records_from(objs, k)[j] == record[j]);
    }
    assert(off + record.len() <= t.len());
    assert(t.subrange(off, off + record.len()) =~= record);
    assert(record.subrange(0, dec_bytes(objs[k].0 as nat).len() as int) =~= dec_bytes(
        objs[k].0 as nat,
    ));
}

/// The records before position `k` sit, in order, at the head of the record
/// region, so record `k` starts `obj_offset` bytes into the document.
proof fn lemma_records_split(objs: Seq<(PdfObjectId, ObjectData)>, k: int)
    requires
        0 <= k <= objs.len(),
    ensures
        header_bytes().len() <= obj_offset(objs, k),
        obj_offset(objs, k) - header_bytes().len() + records_from(objs, k).len() == records_from(
            objs,
            0,
        ).len(),
        forall|j: int|
            0 <= j < records_from(objs, k).len() ==> #[trigger] records_from(objs, 0)[obj_offset(
                objs,
                k,
            ) - header_bytes().len() + j] == records_from(objs, k)[j],
    decreases k,
{
    if k == 0 {
    } else {
        lemma_records_split(objs, k - 1);
        let prev = records_from(objs, k - 1);
        let rec = obj_bytes(objs[k - 1].0, objs[k - 1].1);
        assert(prev == rec + records_from(objs, k));
        let base = obj_offset(objs, k - 1) - header_bytes().len();
        assert forall|j: int| 0 <= j < records_from(objs, k).len() implies #[trigger] records_from(
            objs,
            0,
        )[obj_offset(objs, k) - header_bytes().len() + j] == records_from(objs, k)[j] by {
            assert(records_from(objs, 0)[base + (rec.len() + j)] == prev[rec.len() + j]);
            assert(prev[rec.len() + j] == records_from(objs, k)[j]);
        }
    }
}

impl ObjectData {
    pub fn write_to_pdf(&self, out: &mut Vec<u8>)
        requires
            object_data_wf(*self),
        ensures
            final(out)@ == old(out)@ + object_data_bytes(*self),
    {
        match self {
            Self::Catalog(o) => o.write_to_pdf(out),
            Self::Pages(o) => o.write_to_pdf(out),
            Self::Page(o) => o.write_to_pdf(out),
            Self::PageResources(o) => o.write_to_pdf(out),
            Self::PageContents(o) => o.write_to_pdf(out),
            Self::ImageXObject(o) => o.write_to_pdf(out),
        }
    }
}

} // verus!
