use see_core::config::Config;
use see_core::dispatch::{
    deliver, error_response, event_fits_check, validate_config, ApiRequest, ApiResponse, CallEvent,
    FileInfo, ShortenInfo, TextInfo, TextType,
};
use see_core::error::AppError;

fn all_requests() -> Vec<ApiRequest> {
    vec![
        ApiRequest::GetUrlDomains,
        ApiRequest::GetTextDomains,
        ApiRequest::GetFileDomains,
        ApiRequest::ShortenUrl {
            url: String::from("https://example.com/a"),
            domain: Some(String::from("s.ee")),
            slug: None,
        },
        ApiRequest::DeleteUrl { domain: String::from("s.ee"), slug: String::from("x") },
        ApiRequest::CreateText {
            content: String::from("hello"),
            title: String::from("t"),
            domain: None,
            text_type: Some(TextType::PlainText),
        },
        ApiRequest::DeleteText { domain: String::from("p.s.ee"), slug: String::from("y") },
        ApiRequest::UploadFile { path: String::from("/tmp/a.png") },
        ApiRequest::DeleteFile { key: String::from("k") },
    ]
}

fn success_event(req: &ApiRequest) -> CallEvent {
    match req {
        ApiRequest::GetUrlDomains | ApiRequest::GetTextDomains | ApiRequest::GetFileDomains => {
            CallEvent::Domains(Ok(vec![String::from("s.ee")]))
        }
        ApiRequest::ShortenUrl { .. } => CallEvent::Shortened(Ok(ShortenInfo {
            short_url: String::from("https://s.ee/x"),
            slug: String::from("x"),
        })),
        ApiRequest::CreateText { .. } => CallEvent::TextCreated(Ok(TextInfo {
            short_url: String::from("https://p.s.ee/y"),
            slug: String::from("y"),
        })),
        ApiRequest::UploadFile { .. } => CallEvent::Uploaded(Ok(FileInfo {
            url: String::from("https://i.s.ee/h.png"),
            page: Some(String::from("https://i.s.ee/p/h")),
            hash: String::from("h"),
            filename: String::from("a.png"),
            size: 3,
        })),
        ApiRequest::DeleteUrl { .. }
        | ApiRequest::DeleteText { .. }
        | ApiRequest::DeleteFile { .. } => CallEvent::Deleted(Ok(())),
    }
}

fn error_event(req: &ApiRequest) -> CallEvent {
    let e = AppError::Api(String::from("boom"));
    match req {
        ApiRequest::GetUrlDomains | ApiRequest::GetTextDomains | ApiRequest::GetFileDomains => {
            CallEvent::Domains(Err(e))
        }
        ApiRequest::ShortenUrl { .. } => CallEvent::Shortened(Err(e)),
        ApiRequest::CreateText { .. } => CallEvent::TextCreated(Err(e)),
        ApiRequest::UploadFile { .. } => CallEvent::Uploaded(Err(e)),
        ApiRequest::DeleteUrl { .. }
        | ApiRequest::DeleteText { .. }
        | ApiRequest::DeleteFile { .. } => CallEvent::Deleted(Err(e)),
    }
}

fn response_matches(req: &ApiRequest, resp: &ApiResponse) -> bool {
    match (req, resp) {
        (ApiRequest::GetUrlDomains, ApiResponse::GetUrlDomains(_)) => true,
        (ApiRequest::GetTextDomains, ApiResponse::GetTextDomains(_)) => true,
        (ApiRequest::GetFileDomains, ApiResponse::GetFileDomains(_)) => true,
        (ApiRequest::ShortenUrl { .. }, ApiResponse::ShortenUrl(_)) => true,
        (ApiRequest::DeleteUrl { .. }, ApiResponse::DeleteUrl(_)) => true,
        (ApiRequest::CreateText { .. }, ApiResponse::CreateText(_)) => true,
        (ApiRequest::DeleteText { .. }, ApiResponse::DeleteText(_)) => true,
        (ApiRequest::UploadFile { .. }, ApiResponse::UploadFile(_)) => true,
        (ApiRequest::DeleteFile { .. }, ApiResponse::DeleteFile(_)) => true,
        _ => false,
    }
}

fn response_is_ok(resp: &ApiResponse) -> bool {
    match resp {
        ApiResponse::GetUrlDomains(r) => r.is_ok(),
        ApiResponse::GetTextDomains(r) => r.is_ok(),
        ApiResponse::GetFileDomains(r) => r.is_ok(),
        ApiResponse::ShortenUrl(r) => r.is_ok(),
        ApiResponse::DeleteUrl(r) => r.is_ok(),
        ApiResponse::CreateText(r) => r.is_ok(),
        ApiResponse::DeleteText(r) => r.is_ok(),
        ApiResponse::UploadFile(r) => r.is_ok(),
        ApiResponse::DeleteFile(r) => r.is_ok(),
    }
}

#[test]
fn every_request_kind_gets_its_success_response() {
    for req in all_requests() {
        let ev = success_event(&req);
        assert!(event_fits_check(&req, &ev));
        let resp = deliver(&req, ev);
        assert!(response_matches(&req, &resp));
        assert!(response_is_ok(&resp));
    }
}

#[test]
fn every_request_kind_gets_its_remote_error_response() {
    for req in all_requests() {
        let ev = error_event(&req);
        assert!(event_fits_check(&req, &ev));
        let resp = deliver(&req, ev);
        assert!(response_matches(&req, &resp));
        assert!(!response_is_ok(&resp));
    }
}

#[test]
fn every_request_kind_gets_its_config_error_response() {
    for req in all_requests() {
        let resp = error_response(&req, AppError::NoApiKey);
        assert!(response_matches(&req, &resp));
        assert!(!response_is_ok(&resp));
    }
}

#[test]
fn deliver_hands_the_payload_through_unchanged() {
    let req = ApiRequest::ShortenUrl {
        url: String::from("https://example.com"),
        domain: None,
        slug: None,
    };
    let ev = CallEvent::Shortened(Ok(ShortenInfo {
        short_url: String::from("https://s.ee/zz"),
        slug: String::from("zz"),
    }));
    match deliver(&req, ev) {
        ApiResponse::ShortenUrl(Ok(info)) => {
            assert_eq!(info.short_url, String::from("https://s.ee/zz"));
            assert_eq!(info.slug, String::from("zz"));
        }
        _ => panic!("wrong response kind"),
    }
}

#[test]
fn deliver_hands_the_error_through_unchanged() {
    let req = ApiRequest::GetUrlDomains;
    let ev = CallEvent::Domains(Err(AppError::Api(String::from("boom"))));
    match deliver(&req, ev) {
        ApiResponse::GetUrlDomains(Err(AppError::Api(m))) => {
            assert_eq!(m, String::from("boom"));
        }
        _ => panic!("wrong response kind or error"),
    }
}

#[test]
fn event_fits_rejects_mismatched_shapes() {
    let req = ApiRequest::GetUrlDomains;
    let ev = CallEvent::Deleted(Ok(()));
    assert!(!event_fits_check(&req, &ev));
}

#[test]
fn missing_credential_is_rejected_before_any_network_io() {
    let config = Config::default();
    let r = validate_config(&config);
    assert!(matches!(r, Err(AppError::NoApiKey)));
}

#[test]
fn complete_config_resolves_to_client_settings() {
    let mut config = Config::default();
    config.api_key = Some(String::from("test-key"));
    let settings = validate_config(&config).unwrap();
    assert_eq!(settings.api_key, String::from("test-key"));
    assert_eq!(settings.base_url, String::from("https://s.ee/api/v1"));
    assert_eq!(settings.timeout, 30);
}

#[test]
fn text_type_wire_names() {
    assert_eq!(TextType::PlainText.as_str(), "plain_text");
    assert_eq!(TextType::SourceCode.as_str(), "source_code");
    assert_eq!(TextType::Markdown.as_str(), "markdown");
}

#[test]
fn the_default_text_kind_is_plain_text() {
    assert_eq!(TextType::default().as_str(), "plain_text");
}
