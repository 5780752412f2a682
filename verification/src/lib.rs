pub mod download;
pub mod filemodel;
pub mod outside;
pub mod param;
pub mod response;
pub mod text;

use vstd::prelude::*;
use vstd::string::StringExecFns;

verus! {

/// The authorization source line that is signed: the request host, the
/// request date, and the fixed request line of the OCR endpoint.
pub open spec fn signature_source_spec(host: Seq<char>, date: Seq<char>, path: Seq<char>) -> Seq<
    char,
> {
    "host: "@ + host + "\ndate: "@ + date + "\nPOST "@ + path + " HTTP/1.1"@
}

/// The `authorization` parameter before base64: the caller's api key,
/// the fixed algorithm and header list, and the computed signature.
pub open spec fn authorization_source_spec(app_key: Seq<char>, sig: Seq<char>) -> Seq<char> {
    "api_key=\""@ + app_key
        + "\", algorithm=\"hmac-sha256\", headers=\"host date request-line\", signature=\""@ + sig
        + "\""@
}

/// Credentials for the OCR service, with the signing context for one
/// request.
pub struct App<'a> {
    pub app_id: &'a str,
    pub app_secret: &'a str,
    pub app_key: &'a str,
    pub signature: Signature,
}

impl<'a> App<'a> {
    /// Credentials bundled with a fresh signing context (endpoint URL and
    /// the current date).
    pub fn new(app_id: &'a str, app_secret: &'a str, app_key: &'a str) -> (a: App<'a>)
        ensures
            a.app_id@ == app_id@,
            a.app_secret@ == app_secret@,
            a.app_key@ == app_key@,
            a.signature.wf(),
    {
        App { app_id, app_key, app_secret, signature: Signature::new() }
    }

    /// The base64 HMAC-SHA256 signature of this request's source line
    /// under the app secret.
    fn compute(&self) -> (r: String)
        ensures
            r@ == crate::outside::b64_of(
                crate::outside::hmac_sha256_of(
                    vstd::utf8::encode_utf8(
                        signature_source_spec(
                            self.signature.host@,
                            self.signature.date@,
                            self.signature.path@,
                        ),
                    ),
                    vstd::utf8::encode_utf8(self.app_secret@),
                ),
            ),
    {
        self.signature.compute(self)
    }

    /// The complete `authorization` value: the api key, algorithm and
    /// header list around the computed signature, base64-encoded.
    pub fn signature(&self) -> (r: String)
        ensures
            r@ == crate::outside::b64_of(
                vstd::utf8::encode_utf8(
                    authorization_source_spec(
                        self.app_key@,
                        crate::outside::b64_of(
                            crate::outside::hmac_sha256_of(
                                vstd::utf8::encode_utf8(
                                    signature_source_spec(
                                        self.signature.host@,
                                        self.signature.date@,
                                        self.signature.path@,
                                    ),
                                ),
                                vstd::utf8::encode_utf8(self.app_secret@),
                            ),
                        ),
                    ),
                ),
            ),
    {
        let sig = self.compute();
        let mut source = String::new();
        source.append("api_key=\"");
        source.append(self.app_key);
        source.append(
            "\", algorithm=\"hmac-sha256\", headers=\"host date request-line\", signature=\"",
        );
        source.append(sig.as_str());
        source.append("\"");
        proof {
            assert(source@ =~= authorization_source_spec(self.app_key@, sig@));
        }
        crate::outside::b64_encode(source.as_str().as_bytes())
    }

    /// The string form of the signed request URL: the endpoint followed
    /// by the `authorization`, `host` and `date` query parameters.
    pub open spec fn signed_url_spec(self) -> Seq<char> {
        self.signature.url@ + "?authorization="@ + crate::outside::b64_of(
            vstd::utf8::encode_utf8(
                authorization_source_spec(
                    self.app_key@,
                    crate::outside::b64_of(
                        crate::outside::hmac_sha256_of(
                            vstd::utf8::encode_utf8(
                                signature_source_spec(
                                    self.signature.host@,
                                    self.signature.date@,
                                    self.signature.path@,
                                ),
                            ),
                            vstd::utf8::encode_utf8(self.app_secret@),
                        ),
                    ),
                ),
            ),
        ) + "&host="@ + self.signature.host@ + "&date="@ + self.signature.date@
    }

    /// Render the signed request URL as a string.
    fn build_url_string(&self) -> (r: String)
        ensures
            r@ == self.signed_url_spec(),
    {
        let mut s = String::new();
        s.append(self.signature.url.as_str());
        s.append("?authorization=");
        let auth = self.signature();
        s.append(auth.as_str());
        s.append("&host=");
        s.append(self.signature.host.as_str());
        s.append("&date=");
        s.append(self.signature.date.as_str());
        proof {
            assert(s@ =~= self.signed_url_spec());
        }
        s
    }

    /// The signed request URL: exactly the string of `signed_url_spec`,
    /// handed to the `url` crate for parsing; what `Url::parse` makes of
    /// it is up to that crate.
    pub fn build_url(&self) -> (r: Result<url::Url, url::ParseError>) {
        let s = self.build_url_string();
        url::Url::parse(s.as_str())
    }

    /// The application id these credentials belong to.
    pub fn app_id(&self) -> (r: &'a str)
        ensures
            r@ == self.app_id@,
    {
        self.app_id
    }
}

/// The signing context of one request: the endpoint URL (with its host
/// and path components held as plain strings) and the request date.
pub struct Signature {
    pub date: String,
    pub url: String,
    pub host: String,
    pub path: String,
}

impl Signature {
    /// The context's host and path are exactly the components of its
    /// endpoint URL.
    pub open spec fn wf(&self) -> bool {
        &&& self.url@ == "https://"@ + self.host@ + self.path@
        &&& self.host@ == "api.xf-yun.com"@
        &&& self.path@ == "/v1/private/sf8e6aca1"@
    }

    /// A fresh signing context for the OCR endpoint, dated now. The date
    /// string comes from the system clock, so nothing is known of it.
    pub fn new() -> (s: Signature)
        ensures
            s.wf(),
    {
        let s = Signature {
            date: crate::outside::now_http_date(),
            url: String::from_str("https://api.xf-yun.com/v1/private/sf8e6aca1"),
            host: String::from_str("api.xf-yun.com"),
            path: String::from_str("/v1/private/sf8e6aca1"),
        };
        proof {
            reveal_strlit("https://api.xf-yun.com/v1/private/sf8e6aca1");
            reveal_strlit("https://");
            reveal_strlit("api.xf-yun.com");
            reveal_strlit("/v1/private/sf8e6aca1");
            assert(s.url@ =~= "https://"@ + s.host@ + s.path@);
        }
        s
    }

    /// The endpoint's host component.
    fn host(&self) -> (r: &str)
        ensures
            r@ == self.host@,
    {
        self.host.as_str()
    }

    /// The endpoint's path component.
    fn path(&self) -> (r: &str)
        ensures
            r@ == self.path@,
    {
        self.path.as_str()
    }

    /// The source line that is signed, rendered for this context.
    fn signature_source(&self) -> (r: String)
        ensures
            r@ == signature_source_spec(self.host@, self.date@, self.path@),
    {
        let mut s = String::new();
        s.append("host: ");
        s.append(self.host());
        s.append("\ndate: ");
        s.append(self.date.as_str());
        s.append("\nPOST ");
        s.append(self.path());
        s.append(" HTTP/1.1");
        proof {
            assert(s@ =~= signature_source_spec(self.host@, self.date@, self.path@));
        }
        s
    }

    /// The base64 HMAC-SHA256 tag of this context's source line under
    /// the app's secret.
    fn compute(&self, app: &App) -> (r: String)
        ensures
            r@ == crate::outside::b64_of(
                crate::outside::hmac_sha256_of(
                    vstd::utf8::encode_utf8(
                        signature_source_spec(self.host@, self.date@, self.path@),
                    ),
                    vstd::utf8::encode_utf8(app.app_secret@),
                ),
            ),
    {
        let source = self.signature_source();
        let sha = crate::outside::hmac_mac(source.as_str().as_bytes(), app.app_secret.as_bytes());
        crate::outside::b64_encode(sha.as_slice())
    }
}

} // verus!
