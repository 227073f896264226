//! The error taxonomy of the service and its uniform JSON envelope.
use vstd::prelude::*;
use vstd::string::*;

verus! {

/// Per-field validation messages, as plain values.
pub type FieldErrors = Vec<(String, Vec<String>)>;

/// Everything a request can fail with. Verification and interception
/// collapse every credential failure into `Unauthorized`, deliberately:
/// callers never learn why a token was rejected.
pub enum ApiError {
    UniqueViolation { field: String },
    NotFound(String),
    Unauthorized(String),
    Validation(FieldErrors),
    InternalServer(String),
    Other(String),
}

/// The uniform error envelope: HTTP code, status text, message, and
/// per-field details for validation failures only.
pub struct ErrorResponseBody {
    pub code: u16,
    pub error: String,
    pub message: String,
    pub details: Option<FieldErrors>,
}

impl ApiError {
    /// The HTTP status this error maps to.
    pub fn status_code(&self) -> (r: u16)
        ensures
            r == self.spec_status_code(),
    {
        match self {
            ApiError::UniqueViolation { .. } => 409,
            ApiError::NotFound(_) => 404,
            ApiError::Unauthorized(_) => 401,
            ApiError::Validation(..) => 400,
            ApiError::InternalServer(_) => 500,
            ApiError::Other(_) => 400,
        }
    }

    pub open spec fn spec_status_code(&self) -> u16 {
        match self {
            ApiError::UniqueViolation { .. } => 409,
            ApiError::NotFound(_) => 404,
            ApiError::Unauthorized(_) => 401,
            ApiError::Validation(..) => 400,
            ApiError::InternalServer(_) => 500,
            ApiError::Other(_) => 400,
        }
    }

    pub open spec fn spec_message(&self) -> Seq<char> {
        match self {
            ApiError::UniqueViolation { field } => "Entity with such "@ + field@
                + " already exists"@,
            ApiError::NotFound(m) => m@,
            ApiError::Unauthorized(m) => m@,
            ApiError::Validation(_) => "Validation Error"@,
            ApiError::InternalServer(e) => "Database error: "@ + e@,
            ApiError::Other(m) => m@,
        }
    }

    /// The human-readable message of the error.
    pub fn message(&self) -> (r: String)
        ensures
            r@ == self.spec_message(),
    {
        match self {
            ApiError::UniqueViolation { field } => {
                let mut s = String::from_str("Entity with such ");
                s.append(field.as_str());
                s.append(" already exists");
                s
            },
            ApiError::NotFound(m) => m.clone(),
            ApiError::Unauthorized(m) => m.clone(),
            ApiError::Validation(_) => String::from_str("Validation Error"),
            ApiError::InternalServer(e) => {
                let mut s = String::from_str("Database error: ");
                s.append(e.as_str());
                s
            },
            ApiError::Other(m) => m.clone(),
        }
    }

    /// The canonical reason phrase of the mapped status code.
    pub open spec fn spec_status_text(&self) -> Seq<char> {
        match self {
            ApiError::UniqueViolation { .. } => "Conflict"@,
            ApiError::NotFound(_) => "Not Found"@,
            ApiError::Unauthorized(_) => "Unauthorized"@,
            ApiError::Validation(..) => "Bad Request"@,
            ApiError::InternalServer(_) => "Internal Server Error"@,
            ApiError::Other(_) => "Bad Request"@,
        }
    }

    /// The canonical reason phrase, as text.
    pub fn status_text(&self) -> (r: String)
        ensures
            r@ == self.spec_status_text(),
    {
        match self {
            ApiError::UniqueViolation { .. } => String::from_str("Conflict"),
            ApiError::NotFound(_) => String::from_str("Not Found"),
            ApiError::Unauthorized(_) => String::from_str("Unauthorized"),
            ApiError::Validation(..) => String::from_str("Bad Request"),
            ApiError::InternalServer(_) => String::from_str("Internal Server Error"),
            ApiError::Other(_) => String::from_str("Bad Request"),
        }
    }

    /// Build the uniform envelope: details appear exactly for validation
    /// failures, carrying the per-field messages.
    pub fn error_response(self) -> (r: ErrorResponseBody)
        ensures
            r.code == self.spec_status_code(),
            r.error@ == self.spec_status_text(),
            r.message@ == self.spec_message(),
            match self {
                ApiError::Validation(d) => r.details matches Some(got) && got == d,
                _ => r.details is None,
            },
    {
        let code = self.status_code();
        let error = self.status_text();
        let message = self.message();
        let details = match self {
            ApiError::Validation(d) => Some(d),
            _ => None,
        };
        ErrorResponseBody { code, error, message, details }
    }
}

/// The last underscore of `s` that leaves a nonempty capture before a
/// final `_key` stands at `i`.
pub open spec fn constraint_field_at(s: Seq<char>, i: int) -> bool {
    &&& 0 <= i <= s.len() - 6
    &&& s[i] == '_'
    &&& s.subrange(s.len() - 4, s.len() as int) == "_key"@
    &&& forall|k: int| i < k <= s.len() - 6 ==> s[k] != '_'
}

pub open spec fn has_newline(s: Seq<char>) -> bool {
    exists|k: int| 0 <= k < s.len() && s[k] == '\n'
}

/// How the extraction's result relates to the constraint name: the
/// captured segment where one is found; `field` only where no underscore
/// qualifies, or a newline kept the pattern from matching.
pub open spec fn extracted_field(s: Seq<char>, r: Seq<char>) -> bool {
    ||| (exists|i: int|
        #![auto]
        constraint_field_at(s, i) && r == s.subrange(i + 1, s.len() - 4))
    ||| (r == "field"@ && (!(exists|i: int| #![auto] constraint_field_at(s, i)) || has_newline(
        s,
    )))
}

/// Relies on `regex::Regex::captures` with the pattern `.*_(.+)_key$`:
/// on a match, the greedy prefix leaves the capture running from just
/// after the last qualifying underscore up to the `_key` suffix. `.`
/// never matches a newline, so on a newline-free name a match exists
/// exactly when some underscore qualifies; a newline can additionally
/// prevent one.
#[verifier::external_body]
fn capture_constraint_field(s: &str) -> (r: Option<String>)
    ensures
        match r {
            Some(f) => exists|i: int|
                #![auto]
                constraint_field_at(s@, i) && f@ == s@.subrange(i + 1, s@.len() - 4),
            None => !(exists|i: int| #![auto] constraint_field_at(s@, i)) || has_newline(s@),
        },
{
    let re = regex::Regex::new(r".*_(.+)_key$").unwrap();
    match re.captures(s) {
        Some(captures) => Some(captures[1].to_string()),
        None => None,
    }
}

/// The field a unique-constraint name points at: the captured segment, or
/// `field` when the name has no recognisable shape.
pub fn extract_field_from_constraint(constraint: &str) -> (r: String)
    ensures
        extracted_field(constraint@, r@),
{
    match capture_constraint_field(constraint) {
        Some(field) => field,
        None => String::from_str("field"),
    }
}

/// Classify what the database reported: a unique violation (code 23505)
/// with a named constraint becomes `UniqueViolation` on the extracted
/// field; everything else is internal, carrying the description.
pub fn classify_database_error(
    code: Option<&String>,
    constraint: Option<&String>,
    description: &String,
) -> (r: ApiError)
    ensures
        match (code, constraint) {
            (Some(c), Some(con)) => if c@ == "23505"@ {
                r matches ApiError::UniqueViolation { field } && extracted_field(con@, field@)
            } else {
                r matches ApiError::InternalServer(m) && m@ == description@
            },
            _ => r matches ApiError::InternalServer(m) && m@ == description@,
        },
{
    if let Some(c) = code {
        if let Some(con) = constraint {
            let unique = String::from_str("23505");
            if c.eq(&unique) {
                let field = extract_field_from_constraint(con.as_str());
                return ApiError::UniqueViolation { field };
            }
        }
    }
    ApiError::InternalServer(description.clone())
}

} // verus!
