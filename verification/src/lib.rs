//! Converts one JPEG image into a minimal single-page PDF that embeds the
//! original compressed data unchanged.  The JPEG container is parsed into a
//! descriptor (`jpeg`), optionally stripped of optional metadata segments,
//! and re-serialized byte-for-byte around the untouched scan data; the PDF
//! side (`pdf`) renders the document object graph around it.  The `laws`
//! module proves the round-trip and filtering guarantees once and for all.

pub mod bytes;
pub mod jpeg;
pub mod laws;
pub mod pdf;
