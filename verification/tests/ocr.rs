use xunfei_ocr::param::{ImgData, XFData};
use xunfei_ocr::response::{Header, Payload, Res, XFResponse};
use xunfei_ocr::App;

#[test]
fn img_data_carries_base64_of_the_bytes() {
    let d = ImgData::new("jpg".to_string(), &b"abc".to_vec());
    assert_eq!(d.encoding, "jpg");
    assert_eq!(d.status, 3);
    assert_eq!(d.image, "YWJj");
    let empty = ImgData::new("png".to_string(), &Vec::new());
    assert_eq!(empty.image, "");
}

#[test]
fn request_body_has_the_fixed_scaffold() {
    let img = ImgData::new("jpg".to_string(), &b"xy".to_vec());
    let d = XFData::new("my_app", img);
    assert_eq!(d.header.app_id, "my_app");
    assert_eq!(d.header.status, 3);
    assert_eq!(d.parameter.sf8e6aca1.category, "ch_en_public_cloud");
    assert_eq!(d.parameter.sf8e6aca1.result.encoding, "utf8");
    assert_eq!(d.parameter.sf8e6aca1.result.compress, "raw");
    assert_eq!(d.parameter.sf8e6aca1.result.format, "json");
    assert_eq!(d.payload.sf8e6aca1_data_1.image, base64::encode(b"xy"));
}

fn response_with_text(text: &str) -> XFResponse<'_> {
    XFResponse {
        header: Header { code: 0, message: "success", sid: "sid0" },
        payload: Payload {
            result: Res { compress: "raw", encoding: "utf8", format: "json", text },
        },
    }
}

#[test]
fn response_text_decodes_base64_utf8() {
    let r = response_with_text("aGVsbG8=");
    assert_eq!(r.text(), Some("hello".to_string()));
}

#[test]
fn response_text_rejects_bad_base64() {
    let r = response_with_text("not base64!!");
    assert_eq!(r.text(), None);
}

#[test]
fn response_text_rejects_invalid_utf8() {
    let bad = base64::encode([0xffu8, 0xfe]);
    let r = response_with_text(&bad);
    assert_eq!(r.text(), None);
}

#[test]
fn response_accessors_hand_out_the_parts() {
    let r = response_with_text("aGVsbG8=");
    assert_eq!(r.headers().code, 0);
    assert_eq!(r.headers().message, "success");
    assert_eq!(r.response_body().text, "aGVsbG8=");
}

#[test]
fn authorization_matches_a_direct_computation() {
    let app = App::new("the_id", "the_secret", "the_key");
    assert_eq!(app.app_id(), "the_id");
    let date = app.signature.date.clone();
    let source = format!(
        "host: api.xf-yun.com\ndate: {}\nPOST /v1/private/sf8e6aca1 HTTP/1.1",
        date
    );
    let tag = hmac_sha256::HMAC::mac(source.as_bytes(), "the_secret".as_bytes());
    let expected = base64::encode(format!(
        "api_key=\"the_key\", algorithm=\"hmac-sha256\", headers=\"host date request-line\", signature=\"{}\"",
        base64::encode(tag)
    ));
    assert_eq!(app.signature(), expected);
}

#[test]
fn build_url_targets_the_ocr_endpoint() {
    let app = App::new("id", "secret", "key");
    let url = app.build_url().unwrap();
    assert_eq!(url.host_str(), Some("api.xf-yun.com"));
    assert_eq!(url.path(), "/v1/private/sf8e6aca1");
    assert!(url.query().unwrap_or("").starts_with("authorization="));
}
