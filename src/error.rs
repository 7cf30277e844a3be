//! Error kinds, grouped by layer, each with a stable code.

use vstd::prelude::*;

verus! {

/// Every failure the library reports.
#[derive(Debug)]
pub enum OasError {
    ConnectionFailed(String),
    Timeout(u64),
    HttpError { status: u16, message: String },
    SslError(String),
    InvalidJson(String),
    InvalidYaml(String),
    InvalidOpenApi(String),
    UnsupportedVersion(String),
    UnresolvedRef(String),
    CircularRef(String),
    UnsupportedFeature(String),
    FileNotFound(String),
    PermissionDenied(String),
    ReadError(String),
    WriteError(String),
    PathTraversal(String),
    PatternDetectionFailed(String),
    TemplateError(String),
    InvalidIdentifier(String),
    DuplicateIdentifier(String),
    ConfigNotFound(String),
    InvalidConfig(String),
    MissingField(String),
    CacheNotFound,
    CacheCorrupted(String),
    CacheWriteFailed(String),
}

/// The stable code of an error kind.
pub open spec fn code_spec(e: OasError) -> Seq<char> {
    match e {
        OasError::ConnectionFailed(_) => "E101"@,
        OasError::Timeout(_) => "E102"@,
        OasError::HttpError { .. } => "E103"@,
        OasError::SslError(_) => "E104"@,
        OasError::InvalidJson(_) => "E201"@,
        OasError::InvalidYaml(_) => "E202"@,
        OasError::InvalidOpenApi(_) => "E203"@,
        OasError::UnsupportedVersion(_) => "E204"@,
        OasError::UnresolvedRef(_) => "E205"@,
        OasError::CircularRef(_) => "E206"@,
        OasError::UnsupportedFeature(_) => "E207"@,
        OasError::FileNotFound(_) => "E301"@,
        OasError::PermissionDenied(_) => "E302"@,
        OasError::ReadError(_) => "E303"@,
        OasError::WriteError(_) => "E304"@,
        OasError::PathTraversal(_) => "E305"@,
        OasError::PatternDetectionFailed(_) => "E401"@,
        OasError::TemplateError(_) => "E402"@,
        OasError::InvalidIdentifier(_) => "E403"@,
        OasError::DuplicateIdentifier(_) => "E404"@,
        OasError::ConfigNotFound(_) => "E501"@,
        OasError::InvalidConfig(_) => "E502"@,
        OasError::MissingField(_) => "E503"@,
        OasError::CacheNotFound => "E601"@,
        OasError::CacheCorrupted(_) => "E602"@,
        OasError::CacheWriteFailed(_) => "E603"@,
    }
}

/// Kinds that callers should not retry with the same input.
pub open spec fn non_recoverable_spec(e: OasError) -> bool {
    match e {
        OasError::ConnectionFailed(_) => true,
        OasError::SslError(_) => true,
        OasError::InvalidOpenApi(_) => true,
        OasError::FileNotFound(_) => true,
        OasError::PermissionDenied(_) => true,
        OasError::PathTraversal(_) => true,
        _ => false,
    }
}

impl OasError {
    /// The stable code of this error, such as "E101".
    pub fn code(&self) -> (r: &'static str)
        ensures
            r@ == code_spec(*self),
    {
        match self {
            OasError::ConnectionFailed(_) => "E101",
            OasError::Timeout(_) => "E102",
            OasError::HttpError { .. } => "E103",
            OasError::SslError(_) => "E104",
            OasError::InvalidJson(_) => "E201",
            OasError::InvalidYaml(_) => "E202",
            OasError::InvalidOpenApi(_) => "E203",
            OasError::UnsupportedVersion(_) => "E204",
            OasError::UnresolvedRef(_) => "E205",
            OasError::CircularRef(_) => "E206",
            OasError::UnsupportedFeature(_) => "E207",
            OasError::FileNotFound(_) => "E301",
            OasError::PermissionDenied(_) => "E302",
            OasError::ReadError(_) => "E303",
            OasError::WriteError(_) => "E304",
            OasError::PathTraversal(_) => "E305",
            OasError::PatternDetectionFailed(_) => "E401",
            OasError::TemplateError(_) => "E402",
            OasError::InvalidIdentifier(_) => "E403",
            OasError::DuplicateIdentifier(_) => "E404",
            OasError::ConfigNotFound(_) => "E501",
            OasError::InvalidConfig(_) => "E502",
            OasError::MissingField(_) => "E503",
            OasError::CacheNotFound => "E601",
            OasError::CacheCorrupted(_) => "E602",
            OasError::CacheWriteFailed(_) => "E603",
        }
    }

    /// Whether a retry with the same input may succeed. Connection and TLS
    /// failures, invalid documents, missing or forbidden files and blocked
    /// paths are not recoverable.
    pub fn is_recoverable(&self) -> (r: bool)
        ensures
            r == !non_recoverable_spec(*self),
    {
        match self {
            OasError::ConnectionFailed(_) => false,
            OasError::SslError(_) => false,
            OasError::InvalidOpenApi(_) => false,
            OasError::FileNotFound(_) => false,
            OasError::PermissionDenied(_) => false,
            OasError::PathTraversal(_) => false,
            _ => true,
        }
    }

    /// The message shown to users: the code, then what went wrong.
    pub fn message(&self) -> (r: String)
        ensures
            r@ == code_spec(*self) + ": "@ + detail_spec(*self),
    {
        let mut r = String::from_str(self.code());
        r.append(": ");
        match self {
            OasError::ConnectionFailed(s) => {
                r.append("Connection failed - ");
                r.append(s.as_str());
            },
            OasError::SslError(s) => {
                r.append("SSL/TLS error - ");
                r.append(s.as_str());
            },
            OasError::InvalidJson(s) => {
                r.append("Invalid JSON - ");
                r.append(s.as_str());
            },
            OasError::InvalidYaml(s) => {
                r.append("Invalid YAML - ");
                r.append(s.as_str());
            },
            OasError::InvalidOpenApi(s) => {
                r.append("Invalid OpenAPI spec - ");
                r.append(s.as_str());
            },
            OasError::UnsupportedVersion(s) => {
                r.append("Unsupported OpenAPI version: ");
                r.append(s.as_str());
            },
            OasError::UnresolvedRef(s) => {
                r.append("Unresolved reference: ");
                r.append(s.as_str());
            },
            OasError::CircularRef(s) => {
                r.append("Circular reference detected: ");
                r.append(s.as_str());
            },
            OasError::UnsupportedFeature(s) => {
                r.append("Unsupported feature: ");
                r.append(s.as_str());
            },
            OasError::FileNotFound(s) => {
                r.append("File not found: ");
                r.append(s.as_str());
            },
            OasError::PermissionDenied(s) => {
                r.append("Permission denied: ");
                r.append(s.as_str());
            },
            OasError::ReadError(s) => {
                r.append("Failed to read file: ");
                r.append(s.as_str());
            },
            OasError::WriteError(s) => {
                r.append("Failed to write file: ");
                r.append(s.as_str());
            },
            OasError::PathTraversal(s) => {
                r.append("Path traversal attempt blocked: ");
                r.append(s.as_str());
            },
            OasError::PatternDetectionFailed(s) => {
                r.append("Pattern detection failed - ");
                r.append(s.as_str());
            },
            OasError::TemplateError(s) => {
                r.append("Template error - ");
                r.append(s.as_str());
            },
            OasError::InvalidIdentifier(s) => {
                r.append("Invalid identifier: ");
                r.append(s.as_str());
            },
            OasError::DuplicateIdentifier(s) => {
                r.append("Duplicate identifier: ");
                r.append(s.as_str());
            },
            OasError::ConfigNotFound(s) => {
                r.append("Configuration not found at ");
                r.append(s.as_str());
            },
            OasError::InvalidConfig(s) => {
                r.append("Invalid configuration - ");
                r.append(s.as_str());
            },
            OasError::MissingField(s) => {
                r.append("Missing required field: ");
                r.append(s.as_str());
            },
            OasError::CacheCorrupted(s) => {
                r.append("Cache corrupted - ");
                r.append(s.as_str());
            },
            OasError::CacheWriteFailed(s) => {
                r.append("Cache write failed - ");
                r.append(s.as_str());
            },
            OasError::Timeout(ms) => {
                r.append("Request timeout after ");
                write_decimal(&mut r, *ms);
                r.append("ms");
            },
            OasError::HttpError { status, message } => {
                r.append("HTTP error ");
                write_decimal(&mut r, *status as u64);
                r.append(": ");
                r.append(message.as_str());
            },
            OasError::CacheNotFound => r.append("Cache not found"),
        }
        r
    }
}

/// Decimal digits of `n`, without leading zeros.
pub open spec fn decimal(n: nat) -> Seq<char>
    decreases n,
{
    if n < 10 {
        seq!["0123456789"@[n as int]]
    } else {
        decimal(n / 10) + seq!["0123456789"@[(n % 10) as int]]
    }
}

/// Appends the decimal digits of `n`.
fn write_decimal(out: &mut String, n: u64)
    ensures
        final(out)@ == old(out)@ + decimal(n as nat),
    decreases n,
{
    let digits = "0123456789";
    proof {
        reveal_strlit("0123456789");
    }
    if n >= 10 {
        write_decimal(out, n / 10);
    }
    let d = (n % 10) as usize;
    let c = digits.substring_char(d, d + 1);
    assert(c@ =~= seq![digits@[d as int]]);
    out.append(c);
    proof {
        if n < 10 {
            assert(d == n);
        }
    }
}

/// What went wrong, after the code.
pub open spec fn detail_spec(e: OasError) -> Seq<char> {
    match e {
        OasError::ConnectionFailed(s) => "Connection failed - "@ + s@,
        OasError::SslError(s) => "SSL/TLS error - "@ + s@,
        OasError::InvalidJson(s) => "Invalid JSON - "@ + s@,
        OasError::InvalidYaml(s) => "Invalid YAML - "@ + s@,
        OasError::InvalidOpenApi(s) => "Invalid OpenAPI spec - "@ + s@,
        OasError::UnsupportedVersion(s) => "Unsupported OpenAPI version: "@ + s@,
        OasError::UnresolvedRef(s) => "Unresolved reference: "@ + s@,
        OasError::CircularRef(s) => "Circular reference detected: "@ + s@,
        OasError::UnsupportedFeature(s) => "Unsupported feature: "@ + s@,
        OasError::FileNotFound(s) => "File not found: "@ + s@,
        OasError::PermissionDenied(s) => "Permission denied: "@ + s@,
        OasError::ReadError(s) => "Failed to read file: "@ + s@,
        OasError::WriteError(s) => "Failed to write file: "@ + s@,
        OasError::PathTraversal(s) => "Path traversal attempt blocked: "@ + s@,
        OasError::PatternDetectionFailed(s) => "Pattern detection failed - "@ + s@,
        OasError::TemplateError(s) => "Template error - "@ + s@,
        OasError::InvalidIdentifier(s) => "Invalid identifier: "@ + s@,
        OasError::DuplicateIdentifier(s) => "Duplicate identifier: "@ + s@,
        OasError::ConfigNotFound(s) => "Configuration not found at "@ + s@,
        OasError::InvalidConfig(s) => "Invalid configuration - "@ + s@,
        OasError::MissingField(s) => "Missing required field: "@ + s@,
        OasError::CacheCorrupted(s) => "Cache corrupted - "@ + s@,
        OasError::CacheWriteFailed(s) => "Cache write failed - "@ + s@,
        OasError::Timeout(ms) => "Request timeout after "@ + decimal(ms as nat) + "ms"@,
        OasError::HttpError { status, message } => "HTTP error "@ + decimal(status as nat) + ": "@ + message@,
        OasError::CacheNotFound => "Cache not found"@,
    }
}

} // verus!
