use crate::config::Config;
use crate::error::AppError;
use vstd::prelude::*;

verus! {

/// Kind of a published text, as the remote service names it.
#[derive(Debug, Clone, Copy, PartialEq, Eq, Structural)]
pub enum TextType {
    PlainText,
    SourceCode,
    Markdown,
}

impl Default for TextType {
    /// The kind assumed when none is chosen: plain text.
    fn default() -> (r: TextType)
        ensures
            r is PlainText,
    {
        TextType::PlainText
    }
}

impl TextType {
    /// The wire name of this text kind.
    pub fn as_str(&self) -> (r: &'static str)
        ensures
            match self {
                TextType::PlainText => r@ == "plain_text"@,
                TextType::SourceCode => r@ == "source_code"@,
                TextType::Markdown => r@ == "markdown"@,
            },
    {
        match self {
            TextType::PlainText => "plain_text",
            TextType::SourceCode => "source_code",
            TextType::Markdown => "markdown",
        }
    }
}

/// One unit of work against the remote service. Immutable once built;
/// owned by the submission that carries it.
#[derive(Debug)]
pub enum ApiRequest {
    GetUrlDomains,
    GetTextDomains,
    GetFileDomains,
    ShortenUrl { url: String, domain: Option<String>, slug: Option<String> },
    DeleteUrl { domain: String, slug: String },
    CreateText { content: String, title: String, domain: Option<String>, text_type: Option<TextType> },
    DeleteText { domain: String, slug: String },
    UploadFile { path: String },
    DeleteFile { key: String },
}

/// Success payload of a link shortening.
#[derive(Debug)]
pub struct ShortenInfo {
    pub short_url: String,
    pub slug: String,
}

/// Success payload of a text creation.
#[derive(Debug)]
pub struct TextInfo {
    pub short_url: String,
    pub slug: String,
}

/// Success payload of a file upload.
#[derive(Debug)]
pub struct FileInfo {
    pub url: String,
    pub page: Option<String>,
    pub hash: String,
    pub filename: String,
    pub size: u64,
}

/// The one outcome of a request, case for case: each request kind has
/// exactly one matching response kind, wrapping success or error.
#[derive(Debug)]
pub enum ApiResponse {
    GetUrlDomains(Result<Vec<String>, AppError>),
    GetTextDomains(Result<Vec<String>, AppError>),
    GetFileDomains(Result<Vec<String>, AppError>),
    ShortenUrl(Result<ShortenInfo, AppError>),
    DeleteUrl(Result<(), AppError>),
    CreateText(Result<TextInfo, AppError>),
    DeleteText(Result<(), AppError>),
    UploadFile(Result<FileInfo, AppError>),
    DeleteFile(Result<(), AppError>),
}

/// What the worker brought back from the remote call, grouped by the shape
/// of the payload.
#[derive(Debug)]
pub enum CallEvent {
    Domains(Result<Vec<String>, AppError>),
    Shortened(Result<ShortenInfo, AppError>),
    TextCreated(Result<TextInfo, AppError>),
    Uploaded(Result<FileInfo, AppError>),
    Deleted(Result<(), AppError>),
}

/// The response kind that answers a request kind: the variant-to-variant
/// mapping that must be exhaustive for every outcome path.
pub open spec fn corresponds(req: ApiRequest, resp: ApiResponse) -> bool {
    match req {
        ApiRequest::GetUrlDomains => resp is GetUrlDomains,
        ApiRequest::GetTextDomains => resp is GetTextDomains,
        ApiRequest::GetFileDomains => resp is GetFileDomains,
        ApiRequest::ShortenUrl { .. } => resp is ShortenUrl,
        ApiRequest::DeleteUrl { .. } => resp is DeleteUrl,
        ApiRequest::CreateText { .. } => resp is CreateText,
        ApiRequest::DeleteText { .. } => resp is DeleteText,
        ApiRequest::UploadFile { .. } => resp is UploadFile,
        ApiRequest::DeleteFile { .. } => resp is DeleteFile,
    }
}

/// Whether an event carries the payload shape that a request calls for.
pub open spec fn event_fits(req: ApiRequest, ev: CallEvent) -> bool {
    match req {
        ApiRequest::GetUrlDomains => ev is Domains,
        ApiRequest::GetTextDomains => ev is Domains,
        ApiRequest::GetFileDomains => ev is Domains,
        ApiRequest::ShortenUrl { .. } => ev is Shortened,
        ApiRequest::DeleteUrl { .. } => ev is Deleted,
        ApiRequest::CreateText { .. } => ev is TextCreated,
        ApiRequest::DeleteText { .. } => ev is Deleted,
        ApiRequest::UploadFile { .. } => ev is Uploaded,
        ApiRequest::DeleteFile { .. } => ev is Deleted,
    }
}

/// The response owed for a request and a fitting event: the event's
/// payload, success or error, wrapped in the request's response kind.
pub open spec fn response_for(req: ApiRequest, ev: CallEvent) -> ApiResponse
    recommends
        event_fits(req, ev),
{
    match req {
        ApiRequest::GetUrlDomains => ApiResponse::GetUrlDomains(ev->Domains_0),
        ApiRequest::GetTextDomains => ApiResponse::GetTextDomains(ev->Domains_0),
        ApiRequest::GetFileDomains => ApiResponse::GetFileDomains(ev->Domains_0),
        ApiRequest::ShortenUrl { .. } => ApiResponse::ShortenUrl(ev->Shortened_0),
        ApiRequest::DeleteUrl { .. } => ApiResponse::DeleteUrl(ev->Deleted_0),
        ApiRequest::CreateText { .. } => ApiResponse::CreateText(ev->TextCreated_0),
        ApiRequest::DeleteText { .. } => ApiResponse::DeleteText(ev->Deleted_0),
        ApiRequest::UploadFile { .. } => ApiResponse::UploadFile(ev->Uploaded_0),
        ApiRequest::DeleteFile { .. } => ApiResponse::DeleteFile(ev->Deleted_0),
    }
}

/// Whether an event fits a request; the runtime twin of [`event_fits`],
/// for callers that must check before delivering.
pub fn event_fits_check(req: &ApiRequest, ev: &CallEvent) -> (r: bool)
    ensures
        r == event_fits(*req, *ev),
{
    match req {
        ApiRequest::GetUrlDomains => matches!(ev, CallEvent::Domains(_)),
        ApiRequest::GetTextDomains => matches!(ev, CallEvent::Domains(_)),
        ApiRequest::GetFileDomains => matches!(ev, CallEvent::Domains(_)),
        ApiRequest::ShortenUrl { .. } => matches!(ev, CallEvent::Shortened(_)),
        ApiRequest::DeleteUrl { .. } => matches!(ev, CallEvent::Deleted(_)),
        ApiRequest::CreateText { .. } => matches!(ev, CallEvent::TextCreated(_)),
        ApiRequest::DeleteText { .. } => matches!(ev, CallEvent::Deleted(_)),
        ApiRequest::UploadFile { .. } => matches!(ev, CallEvent::Uploaded(_)),
        ApiRequest::DeleteFile { .. } => matches!(ev, CallEvent::Deleted(_)),
    }
}

/// Wraps what the worker brought back into the one response owed for the
/// request: the success path of the dispatch mapping.
pub fn deliver(req: &ApiRequest, ev: CallEvent) -> (r: ApiResponse)
    requires
        event_fits(*req, ev),
    ensures
        r == response_for(*req, ev),
        corresponds(*req, r),
{
    // In every arm the precondition rules the fallback pattern out; its
    // arms only complete the match.
    match req {
        ApiRequest::GetUrlDomains => {
            let result = match ev {
                CallEvent::Domains(d) => d,
                _ => Err(AppError::NoApiKey),
            };
            ApiResponse::GetUrlDomains(result)
        },
        ApiRequest::GetTextDomains => {
            let result = match ev {
                CallEvent::Domains(d) => d,
                _ => Err(AppError::NoApiKey),
            };
            ApiResponse::GetTextDomains(result)
        },
        ApiRequest::GetFileDomains => {
            let result = match ev {
                CallEvent::Domains(d) => d,
                _ => Err(AppError::NoApiKey),
            };
            ApiResponse::GetFileDomains(result)
        },
        ApiRequest::ShortenUrl { .. } => {
            let result = match ev {
                CallEvent::Shortened(d) => d,
                _ => Err(AppError::NoApiKey),
            };
            ApiResponse::ShortenUrl(result)
        },
        ApiRequest::DeleteUrl { .. } => {
            let result = match ev {
                CallEvent::Deleted(d) => d,
                _ => Err(AppError::NoApiKey),
            };
            ApiResponse::DeleteUrl(result)
        },
        ApiRequest::CreateText { .. } => {
            let result = match ev {
                CallEvent::TextCreated(d) => d,
                _ => Err(AppError::NoApiKey),
            };
            ApiResponse::CreateText(result)
        },
        ApiRequest::DeleteText { .. } => {
            let result = match ev {
                CallEvent::Deleted(d) => d,
                _ => Err(AppError::NoApiKey),
            };
            ApiResponse::DeleteText(result)
        },
        ApiRequest::UploadFile { .. } => {
            let result = match ev {
                CallEvent::Uploaded(d) => d,
                _ => Err(AppError::NoApiKey),
            };
            ApiResponse::UploadFile(result)
        },
        ApiRequest::DeleteFile { .. } => {
            let result = match ev {
                CallEvent::Deleted(d) => d,
                _ => Err(AppError::NoApiKey),
            };
            ApiResponse::DeleteFile(result)
        },
    }
}

/// Answers a request that never reached the remote service: the error path
/// of the dispatch mapping. Every request kind still gets exactly its own
/// response kind, carrying the error.
pub fn error_response(req: &ApiRequest, err: AppError) -> (r: ApiResponse)
    ensures
        corresponds(*req, r),
        match r {
            ApiResponse::GetUrlDomains(x) => x == Result::<Vec<String>, AppError>::Err(err),
            ApiResponse::GetTextDomains(x) => x == Result::<Vec<String>, AppError>::Err(err),
            ApiResponse::GetFileDomains(x) => x == Result::<Vec<String>, AppError>::Err(err),
            ApiResponse::ShortenUrl(x) => x == Result::<ShortenInfo, AppError>::Err(err),
            ApiResponse::DeleteUrl(x) => x == Result::<(), AppError>::Err(err),
            ApiResponse::CreateText(x) => x == Result::<TextInfo, AppError>::Err(err),
            ApiResponse::DeleteText(x) => x == Result::<(), AppError>::Err(err),
            ApiResponse::UploadFile(x) => x == Result::<FileInfo, AppError>::Err(err),
            ApiResponse::DeleteFile(x) => x == Result::<(), AppError>::Err(err),
        },
{
    match req {
        ApiRequest::GetUrlDomains => ApiResponse::GetUrlDomains(Err(err)),
        ApiRequest::GetTextDomains => ApiResponse::GetTextDomains(Err(err)),
        ApiRequest::GetFileDomains => ApiResponse::GetFileDomains(Err(err)),
        ApiRequest::ShortenUrl { .. } => ApiResponse::ShortenUrl(Err(err)),
        ApiRequest::DeleteUrl { .. } => ApiResponse::DeleteUrl(Err(err)),
        ApiRequest::CreateText { .. } => ApiResponse::CreateText(Err(err)),
        ApiRequest::DeleteText { .. } => ApiResponse::DeleteText(Err(err)),
        ApiRequest::UploadFile { .. } => ApiResponse::UploadFile(Err(err)),
        ApiRequest::DeleteFile { .. } => ApiResponse::DeleteFile(Err(err)),
    }
}

/// What the worker needs to reach the remote service, captured by value
/// at submission time.
#[derive(Debug)]
pub struct ClientSettings {
    pub base_url: String,
    pub api_key: String,
    pub timeout: u64,
}

/// Checks a configuration snapshot before any network I/O: a missing
/// credential is answered with `NoApiKey`, and nothing else is rejected.
pub fn validate_config(config: &Config) -> (r: Result<ClientSettings, AppError>)
    ensures
        config.api_key is None <==> (r matches Err(e) && e is NoApiKey),
        r matches Err(e) ==> e is NoApiKey,
        r matches Ok(s) ==> {
            &&& config.api_key matches Some(k) && s.api_key@ == k@
            &&& s.base_url@ == (match config.base_url {
                Some(u) => u@,
                None => "https://s.ee/api/v1"@,
            })
            &&& s.timeout == (match config.timeout {
                Some(t) => t,
                None => 30u64,
            })
        },
{
    match config.api_key() {
        None => Err(AppError::NoApiKey),
        Some(k) => {
            let api_key = String::from_str(k);
            let base_url = String::from_str(config.base_url());
            let timeout = config.timeout();
            Ok(ClientSettings { base_url, api_key, timeout })
        },
    }
}

/// Exactly one response kind answers each request kind, on both paths of
/// the dispatch: a fitting remote event is wrapped in the matching kind,
/// and an error short-circuit also lands in the matching kind.
pub proof fn lemma_response_matches_request(req: ApiRequest, ev: CallEvent)
    requires
        event_fits(req, ev),
    ensures
        corresponds(req, response_for(req, ev)),
{
}

} // verus!
