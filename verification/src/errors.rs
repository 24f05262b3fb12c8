//! Non-fatal per-path error records and the append-only collector that
//! gathers them from traversal and hashing without ever aborting a run.

use vstd::prelude::*;

verus! {

/// Why a path could not be processed.
#[derive(Debug, Clone, Copy, PartialEq, Eq, Structural)]
pub enum ErrorKind {
    NotFound,
    PermissionDenied,
    InvalidData,
    UnexpectedEof,
    Interrupted,
    Other,
}

/// Mathematical model of an error record.
pub ghost struct ErrorModel {
    pub path: Seq<char>,
    pub kind: ErrorKind,
}

/// One failing path and the reason it was skipped.
pub struct ErrorRecord {
    pub file_path: String,
    pub kind: ErrorKind,
}

impl View for ErrorRecord {
    type V = ErrorModel;

    open spec fn view(&self) -> ErrorModel {
        ErrorModel { path: self.file_path@, kind: self.kind }
    }
}

pub open spec fn errors_model(s: Seq<ErrorRecord>) -> Seq<ErrorModel> {
    s.map_values(|e: ErrorRecord| e@)
}

/// Append-only accumulator of per-path failures. Recording never drops or
/// reorders what was already gathered.
pub struct ErrorLog {
    errors: Vec<ErrorRecord>,
}

impl View for ErrorLog {
    type V = Seq<ErrorModel>;

    closed spec fn view(&self) -> Seq<ErrorModel> {
        errors_model(self.errors@)
    }
}

impl ErrorLog {
    /// A collector holding nothing yet.
    pub fn new() -> (log: ErrorLog)
        ensures
            log@ == Seq::<ErrorModel>::empty(),
    {
        let log = ErrorLog { errors: Vec::new() };
        proof {
            assert(log@ =~= Seq::<ErrorModel>::empty());
        }
        log
    }

    /// Record one failing path; everything gathered before stays in place.
    pub fn record(&mut self, path: String, kind: ErrorKind)
        ensures
            final(self)@ == old(self)@.push(ErrorModel { path: path@, kind: kind }),
    {
        let ghost before = self@;
        self.errors.push(ErrorRecord { file_path: path, kind });
        proof {
            assert(self@ =~= before.push(ErrorModel { path: self.errors@.last().file_path@, kind }));
        }
    }

    /// How many failures were gathered.
    pub fn len(&self) -> (n: usize)
        ensures
            n == self@.len(),
    {
        self.errors.len()
    }

    /// Hand the gathered failures out, in recording order.
    pub fn into_errors(self) -> (errors: Vec<ErrorRecord>)
        ensures
            errors_model(errors@) == self@,
    {
        self.errors
    }
}

} // verus!
