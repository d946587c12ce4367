use vstd::prelude::*;

verus! {

/// Errors of the persistence layer.
#[derive(Debug)]
pub enum DatabaseError {
    /// An entity that an operation needs is missing.
    NotFound { entity_type: String, id: String, suggestions: Vec<String> },
    /// The store reported a failure.
    Backend { message: String },
}

/// Errors about malformed input.
#[derive(Debug)]
pub enum ValidationError {
    /// A field does not have the expected form.
    InvalidFormat { field: String, expected: String, actual: String, examples: Vec<String> },
}

/// Errors of the language-model back end.
#[derive(Debug)]
pub enum ProcessingError {
    /// A model failed to produce a result.
    ModelError {
        service: String,
        model_name: String,
        reason: String,
        model_version: Option<String>,
        fallback_available: bool,
    },
}

/// Errors of the service.
#[derive(Debug)]
pub enum NodeSpaceError {
    /// A failure inside the service itself.
    InternalError { message: String, service: String },
    /// A failure of the persistence layer.
    Database(DatabaseError),
    /// Malformed input.
    Validation(ValidationError),
    /// A failure of the language-model back end.
    Processing(ProcessingError),
}

/// Result type of the service.
pub type NodeSpaceResult<T> = Result<T, NodeSpaceError>;

impl ProcessingError {
    /// A model failure without version information and without fallback.
    pub fn model_error(service: &str, model_name: &str, reason: String) -> (r: ProcessingError)
        ensures
            r matches ProcessingError::ModelError {
                service: s,
                model_name: m,
                reason: why,
                model_version: v,
                fallback_available: f,
            } && s@ == service@ && m@ == model_name@ && why@ == reason@ && v is None && !f,
    {
        ProcessingError::ModelError {
            service: service.to_string(),
            model_name: model_name.to_string(),
            reason,
            model_version: None,
            fallback_available: false,
        }
    }
}

/// The missing-entity error for the entity kind `entity_type` and identifier `id`.
pub open spec fn is_not_found(e: NodeSpaceError, entity_type: Seq<char>, id: Seq<char>) -> bool {
    e matches NodeSpaceError::Database(DatabaseError::NotFound { entity_type: t, id: i, .. })
        && t@ == entity_type && i@ == id
}

/// Builds a missing-entity error with one suggestion (or none).
pub fn not_found(entity_type: &str, id: &str, suggestion: Option<&str>) -> (r: NodeSpaceError)
    ensures
        is_not_found(r, entity_type@, id@),
        r matches NodeSpaceError::Database(DatabaseError::NotFound { suggestions, .. }) && match
            suggestion {
            Some(s) => suggestions@.len() == 1 && suggestions@[0]@ == s@,
            None => suggestions@.len() == 0,
        },
{
    let mut suggestions: Vec<String> = Vec::new();
    if let Some(s) = suggestion {
        suggestions.push(s.to_string());
    }
    NodeSpaceError::Database(
        DatabaseError::NotFound { entity_type: entity_type.to_string(), id: id.to_string(), suggestions },
    )
}

/// Whether `e` is a service-internal error with the given message.
pub open spec fn is_internal(e: NodeSpaceError, message: Seq<char>) -> bool {
    e matches NodeSpaceError::InternalError { message: m, service: s } && m@ == message
        && s@ == "core-logic"@
}

/// Builds a service-internal error of the core logic.
pub fn internal(message: String) -> (r: NodeSpaceError)
    ensures
        is_internal(r, message@),
{
    proof {
        reveal_strlit("core-logic");
    }
    NodeSpaceError::InternalError { message, service: "core-logic".to_string() }
}

} // verus!

verus! {

/// A one-line description of an error, as the service reports it in texts.
pub open spec fn error_text(e: NodeSpaceError) -> Seq<char> {
    match e {
        NodeSpaceError::InternalError { message, service } => service@ + ": "@ + message@,
        NodeSpaceError::Database(DatabaseError::NotFound { entity_type, id, .. }) => entity_type@
            + " not found: "@ + id@,
        NodeSpaceError::Database(DatabaseError::Backend { message }) => "database error: "@ + message@,
        NodeSpaceError::Validation(ValidationError::InvalidFormat { field, expected, actual, .. }) =>
            "invalid "@ + field@ + ": expected "@ + expected@ + ", got "@ + actual@,
        NodeSpaceError::Processing(ProcessingError::ModelError { service, model_name, reason, .. }) =>
            service@ + "/"@ + model_name@ + ": "@ + reason@,
    }
}

impl NodeSpaceError {
    /// A one-line description of the error (see `error_text`).
    pub fn describe(&self) -> (r: String)
        ensures
            r@ == error_text(*self),
    {
        let mut s = String::new();
        match self {
            NodeSpaceError::InternalError { message, service } => {
                crate::text::push_str(&mut s, service.as_str());
                crate::text::push_str(&mut s, ": ");
                crate::text::push_str(&mut s, message.as_str());
            },
            NodeSpaceError::Database(DatabaseError::NotFound { entity_type, id, .. }) => {
                crate::text::push_str(&mut s, entity_type.as_str());
                crate::text::push_str(&mut s, " not found: ");
                crate::text::push_str(&mut s, id.as_str());
            },
            NodeSpaceError::Database(DatabaseError::Backend { message }) => {
                crate::text::push_str(&mut s, "database error: ");
                crate::text::push_str(&mut s, message.as_str());
            },
            NodeSpaceError::Validation(ValidationError::InvalidFormat { field, expected, actual, .. }) => {
                crate::text::push_str(&mut s, "invalid ");
                crate::text::push_str(&mut s, field.as_str());
                crate::text::push_str(&mut s, ": expected ");
                crate::text::push_str(&mut s, expected.as_str());
                crate::text::push_str(&mut s, ", got ");
                crate::text::push_str(&mut s, actual.as_str());
            },
            NodeSpaceError::Processing(ProcessingError::ModelError { service, model_name, reason, .. }) => {
                crate::text::push_str(&mut s, service.as_str());
                crate::text::push_str(&mut s, "/");
                crate::text::push_str(&mut s, model_name.as_str());
                crate::text::push_str(&mut s, ": ");
                crate::text::push_str(&mut s, reason.as_str());
            },
        }
        s
    }
}

/// Whether `e` is a validation error on `field`.
pub open spec fn is_invalid(e: NodeSpaceError, field: Seq<char>, expected: Seq<char>, actual: Seq<char>) -> bool {
    e matches NodeSpaceError::Validation(ValidationError::InvalidFormat { field: f, expected: x, actual: a, .. })
        && f@ == field && x@ == expected && a@ == actual
}

/// Builds a validation error.
pub fn invalid(field: &str, expected: String, actual: String, examples: Vec<String>) -> (r: NodeSpaceError)
    ensures
        is_invalid(r, field@, expected@, actual@),
        r matches NodeSpaceError::Validation(ValidationError::InvalidFormat { examples: ex, .. })
            && ex@ == examples@,
{
    NodeSpaceError::Validation(
        ValidationError::InvalidFormat { field: field.to_string(), expected, actual, examples },
    )
}

} // verus!
