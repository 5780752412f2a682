//! The OCR response envelope. The recognized text arrives base64-encoded
//! inside the payload; `text` recovers it. Deserializing the envelope
//! from JSON, and digging the sign-in fields out of the recognized text,
//! happen outside the library.
use vstd::prelude::*;

verus! {

/// Response header: service status code, message and session id.
pub struct Header<'a> {
    pub code: usize,
    pub message: &'a str,
    pub sid: &'a str,
}

/// The result block of the response.
pub struct Res<'a> {
    pub compress: &'a str,
    pub encoding: &'a str,
    pub format: &'a str,
    pub text: &'a str,
}

/// The response payload holding the result block.
pub struct Payload<'a> {
    pub result: Res<'a>,
}

/// The complete OCR response envelope.
pub struct XFResponse<'a> {
    pub header: Header<'a>,
    pub payload: Payload<'a>,
}

impl<'a> XFResponse<'a> {
    /// The response header.
    pub fn headers(&self) -> (h: &Header<'a>)
        ensures
            h == &self.header,
    {
        &self.header
    }

    /// The result block of the payload.
    pub fn response_body(&self) -> (r: &Res<'a>)
        ensures
            r == &self.payload.result,
    {
        &self.payload.result
    }

    /// The recognized text: the payload's `text` field decoded from
    /// base64, then read as UTF-8. Nothing when the field is not valid
    /// base64 or the decoded bytes are not valid UTF-8.
    pub fn text(&self) -> (r: Option<String>)
        ensures
            ({
                let dec = crate::outside::b64_decode_of(self.payload.result.text@);
                match r {
                    Some(s) => dec is Some && vstd::utf8::valid_utf8(dec.unwrap()) && s@
                        == vstd::utf8::decode_utf8(dec.unwrap()),
                    None => dec is None || !vstd::utf8::valid_utf8(dec.unwrap()),
                }
            }),
    {
        match crate::outside::b64_decode(self.payload.result.text) {
            Some(buf) => crate::outside::string_from_utf8(buf),
            None => None,
        }
    }
}

} // verus!
