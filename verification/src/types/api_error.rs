use vstd::prelude::*;

verus! {

/// What an outside allocation or installation call reported when it refused.
#[derive(Debug, PartialEq, Eq)]
pub struct CanisterFailedError {
    pub code: u32,
    pub message: String,
}

/// The typed failure of a public operation. Each variant carries a short
/// machine-readable message.
#[derive(Debug, PartialEq, Eq)]
pub enum ApiError {
    /// The caller is anonymous or not on the allow-list.
    Unauthorized(String),
    /// The entity does not exist or does not belong to the caller.
    NotFound(String),
    /// The entity was registered before.
    AlreadyExists(String),
    /// An outside allocation or installation call refused.
    CanisterFailed(CanisterFailedError),
}

/// The mathematical value of an [`ApiError`].
pub enum ApiErrorView {
    Unauthorized(Seq<char>),
    NotFound(Seq<char>),
    AlreadyExists(Seq<char>),
    CanisterFailed { code: u32, message: Seq<char> },
}

impl View for ApiError {
    type V = ApiErrorView;

    open spec fn view(&self) -> ApiErrorView {
        match *self {
            ApiError::Unauthorized(m) => ApiErrorView::Unauthorized(m@),
            ApiError::NotFound(m) => ApiErrorView::NotFound(m@),
            ApiError::AlreadyExists(m) => ApiErrorView::AlreadyExists(m@),
            ApiError::CanisterFailed(e) => ApiErrorView::CanisterFailed {
                code: e.code,
                message: e.message@,
            },
        }
    }
}

/// The error every access check answers with.
pub open spec fn unauthorized() -> ApiErrorView {
    ApiErrorView::Unauthorized("UNAUTHORIZED"@)
}

/// The error for a node that is absent or owned by someone else.
pub open spec fn asset_not_found() -> ApiErrorView {
    ApiErrorView::NotFound("ASSET_NOT_FOUND"@)
}

/// The error for a chunk that is absent or owned by someone else.
pub open spec fn chunks_not_found() -> ApiErrorView {
    ApiErrorView::NotFound("CHUNKS_NOT_FOUND"@)
}

/// The error for an identity without a tenant record.
pub open spec fn user_not_found() -> ApiErrorView {
    ApiErrorView::NotFound("USER_NOT_FOUND"@)
}

/// The error for an identity that already has a tenant record.
pub open spec fn user_exists() -> ApiErrorView {
    ApiErrorView::AlreadyExists("USER_EXISTS"@)
}

impl ApiError {
    pub fn unauthorized() -> (e: ApiError)
        ensures
            e@ == unauthorized(),
    {
        ApiError::Unauthorized("UNAUTHORIZED".to_string())
    }

    pub fn asset_not_found() -> (e: ApiError)
        ensures
            e@ == asset_not_found(),
    {
        ApiError::NotFound("ASSET_NOT_FOUND".to_string())
    }

    pub fn chunks_not_found() -> (e: ApiError)
        ensures
            e@ == chunks_not_found(),
    {
        ApiError::NotFound("CHUNKS_NOT_FOUND".to_string())
    }

    pub fn user_not_found() -> (e: ApiError)
        ensures
            e@ == user_not_found(),
    {
        ApiError::NotFound("USER_NOT_FOUND".to_string())
    }

    pub fn user_exists() -> (e: ApiError)
        ensures
            e@ == user_exists(),
    {
        ApiError::AlreadyExists("USER_EXISTS".to_string())
    }

    /// The failure of an outside call, its code and message passed through.
    pub fn canister_failed(code: u32, message: String) -> (e: ApiError)
        ensures
            e@ == (ApiErrorView::CanisterFailed { code, message: message@ }),
    {
        ApiError::CanisterFailed(CanisterFailedError { code, message })
    }
}

impl Clone for ApiError {
    fn clone(&self) -> (r: ApiError)
        ensures
            r@ == self@,
    {
        match self {
            ApiError::Unauthorized(m) => ApiError::Unauthorized(m.clone()),
            ApiError::NotFound(m) => ApiError::NotFound(m.clone()),
            ApiError::AlreadyExists(m) => ApiError::AlreadyExists(m.clone()),
            ApiError::CanisterFailed(e) => ApiError::CanisterFailed(
                CanisterFailedError { code: e.code, message: e.message.clone() },
            ),
        }
    }
}

} // verus!
