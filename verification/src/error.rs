use vstd::prelude::*;
use crate::session::{decimal_chars, decimal_digits};
use crate::text::{chars_of, push_all, string_from_chars};

verus! {

/// An I/O failure reported by the operating system.
#[verifier::external_type_specification]
#[verifier::external_body]
pub struct ExIoError(std::io::Error);

/// Everything that can go wrong in the editor core.
#[derive(Debug)]
pub enum EditorError {
    Io(std::io::Error),
    InvalidPosition { line: usize, column: usize },
    InvalidOperation(String),
    FileNotFound(String),
    EncodingError(String),
    ReadOnlyFile(String),
    BinaryFile(String),
    Git(String),
    Parse(String),
    FileTooLarge { path: String, size: u64, limit: u64 },
}

/// The text of an I/O error as the operating system reports it (`io::Error`'s `Display`).
/// What the text says is not stated: it comes from the operating system.
#[verifier::external_body]
fn io_error_text(e: &std::io::Error) -> (s: String) {
    e.to_string()
}

/// The human-readable text of `e`, where `io_text` is the text of the wrapped I/O error.
pub open spec fn error_text(e: EditorError, io_text: Seq<char>) -> Seq<char> {
    match e {
        EditorError::Io(_) => "I/O error: "@ + io_text,
        EditorError::InvalidPosition { line, column } => "Invalid position: line "@ + decimal_digits(
            line as nat,
        ) + ", column "@ + decimal_digits(column as nat),
        EditorError::InvalidOperation(msg) => "Invalid operation: "@ + msg@,
        EditorError::FileNotFound(path) => "File not found: "@ + path@,
        EditorError::EncodingError(msg) => "Encoding error: "@ + msg@,
        EditorError::ReadOnlyFile(path) => "Cannot modify read-only file: "@ + path@,
        EditorError::BinaryFile(path) => "Cannot edit binary file: "@ + path@,
        EditorError::Git(msg) => "Git error: "@ + msg@,
        EditorError::Parse(msg) => "Parse error: "@ + msg@,
        EditorError::FileTooLarge { path, size, limit } => "File too large: "@ + path@ + " ("@
            + decimal_digits(size as nat) + " bytes, limit "@ + decimal_digits(limit as nat)
            + " bytes)"@,
    }
}

impl EditorError {
    /// The text shown to the user for this error.
    pub fn message(&self) -> (r: String)
        ensures
            exists|t: Seq<char>| r@ == error_text(*self, t),
            !(self is Io) ==> r@ == error_text(*self, Seq::empty()),
    {
        let mut out: Vec<char>;
        let ghost mut io_t: Seq<char> = Seq::empty();
        match self {
            EditorError::Io(err) => {
                out = chars_of("I/O error: ");
                let t = io_error_text(err);
                let tv = chars_of(t.as_str());
                push_all(&mut out, &tv);
                proof {
                    io_t = tv@;
                }
            },
            EditorError::InvalidPosition { line, column } => {
                out = chars_of("Invalid position: line ");
                let l = decimal_chars(*line as u64);
                push_all(&mut out, &l);
                let sep = chars_of(", column ");
                push_all(&mut out, &sep);
                let c = decimal_chars(*column as u64);
                push_all(&mut out, &c);
            },
            EditorError::InvalidOperation(msg) => {
                out = chars_of("Invalid operation: ");
                let m = chars_of(msg.as_str());
                push_all(&mut out, &m);
            },
            EditorError::FileNotFound(path) => {
                out = chars_of("File not found: ");
                let m = chars_of(path.as_str());
                push_all(&mut out, &m);
            },
            EditorError::EncodingError(msg) => {
                out = chars_of("Encoding error: ");
                let m = chars_of(msg.as_str());
                push_all(&mut out, &m);
            },
            EditorError::ReadOnlyFile(path) => {
                out = chars_of("Cannot modify read-only file: ");
                let m = chars_of(path.as_str());
                push_all(&mut out, &m);
            },
            EditorError::BinaryFile(path) => {
                out = chars_of("Cannot edit binary file: ");
                let m = chars_of(path.as_str());
                push_all(&mut out, &m);
            },
            EditorError::Git(msg) => {
                out = chars_of("Git error: ");
                let m = chars_of(msg.as_str());
                push_all(&mut out, &m);
            },
            EditorError::Parse(msg) => {
                out = chars_of("Parse error: ");
                let m = chars_of(msg.as_str());
                push_all(&mut out, &m);
            },
            EditorError::FileTooLarge { path, size, limit } => {
                out = chars_of("File too large: ");
                let m = chars_of(path.as_str());
                push_all(&mut out, &m);
                let a = chars_of(" (");
                push_all(&mut out, &a);
                let s = decimal_chars(*size);
                push_all(&mut out, &s);
                let b = chars_of(" bytes, limit ");
                push_all(&mut out, &b);
                let l = decimal_chars(*limit);
                push_all(&mut out, &l);
                let c = chars_of(" bytes)");
                push_all(&mut out, &c);
            },
        }
        assert(out@ == error_text(*self, io_t));
        string_from_chars(&out)
    }
}

/// Result type used throughout the editor core.
pub type Result<T> = core::result::Result<T, EditorError>;

/// Builds an `InvalidOperation` error carrying `msg`.
pub fn invalid_operation(msg: &str) -> (e: EditorError)
    ensures
        e matches EditorError::InvalidOperation(m) && m@ == msg@,
{
    EditorError::InvalidOperation(msg.to_owned())
}

} // verus!
