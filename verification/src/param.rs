//! The OCR request body: a fixed header/parameter scaffold around one
//! base64-encoded image. The caller reads the image file and hands the
//! raw bytes in; serialization to JSON happens outside the library.
use vstd::prelude::*;

verus! {

/// Request header: the caller's application id and a fixed status.
pub struct Header<'a> {
    pub app_id: &'a str,
    pub status: usize,
}

impl<'a> Header<'a> {
    /// A header for the given application id; the status is always 3.
    pub fn new(app_id: &'a str) -> (h: Header<'a>)
        ensures
            h.app_id@ == app_id@,
            h.status == 3,
    {
        Header { app_id, status: 3 }
    }
}

/// The result encoding that the request asks the service for.
pub struct Res<'a> {
    pub encoding: &'a str,
    pub compress: &'a str,
    pub format: &'a str,
}

impl<'a> Res<'a> {
    /// The fixed result encoding: uncompressed JSON in UTF-8.
    pub fn new() -> (r: Res<'a>)
        ensures
            r.encoding@ == "utf8"@,
            r.compress@ == "raw"@,
            r.format@ == "json"@,
    {
        Res { encoding: "utf8", compress: "raw", format: "json" }
    }
}

/// The service parameter block for the OCR endpoint.
pub struct Param<'a> {
    pub category: &'a str,
    pub result: Res<'a>,
}

/// Wrapper naming the OCR service instance the parameters belong to.
pub struct Parameter<'a> {
    pub sf8e6aca1: Param<'a>,
}

impl<'a> Parameter<'a> {
    /// The fixed parameter block: the public Chinese/English OCR model
    /// with the fixed result encoding.
    pub fn new() -> (p: Parameter<'a>)
        ensures
            p.sf8e6aca1.category@ == "ch_en_public_cloud"@,
            p.sf8e6aca1.result.encoding@ == "utf8"@,
            p.sf8e6aca1.result.compress@ == "raw"@,
            p.sf8e6aca1.result.format@ == "json"@,
    {
        Parameter { sf8e6aca1: Param { category: "ch_en_public_cloud", result: Res::new() } }
    }
}

/// One image to be recognized: its encoding (the file extension), a
/// fixed status, and the image bytes rendered as base64.
pub struct ImgData {
    pub encoding: String,
    pub status: usize,
    pub image: String,
}

impl ImgData {
    /// Package raw image bytes for the request: the image is carried as
    /// its base64 rendering; the status is always 3.
    pub fn new(encoding: String, bytes: &Vec<u8>) -> (d: ImgData)
        ensures
            d.encoding@ == encoding@,
            d.status == 3,
            d.image@ == crate::outside::b64_of(bytes@),
    {
        let image = crate::outside::b64_encode(bytes.as_slice());
        ImgData { encoding, status: 3, image }
    }
}

/// The request payload: exactly one image.
pub struct Payload {
    pub sf8e6aca1_data_1: ImgData,
}

impl Payload {
    /// A payload carrying the given image.
    pub fn new(img: ImgData) -> (p: Payload)
        ensures
            p.sf8e6aca1_data_1 == img,
    {
        Payload { sf8e6aca1_data_1: img }
    }
}

/// The complete OCR request body.
pub struct XFData<'a> {
    pub header: Header<'a>,
    pub parameter: Parameter<'a>,
    pub payload: Payload,
}

impl<'a> XFData<'a> {
    /// The request body for one image under the given application id.
    pub fn new(app_id: &'a str, img: ImgData) -> (d: XFData<'a>)
        ensures
            d.header.app_id@ == app_id@,
            d.header.status == 3,
            d.parameter.sf8e6aca1.category@ == "ch_en_public_cloud"@,
            d.payload.sf8e6aca1_data_1 == img,
    {
        XFData { header: Header::new(app_id), parameter: Parameter::new(), payload: Payload::new(img) }
    }
}

} // verus!
