//! What a caller asks of the service and what it is told.

use vstd::prelude::*;
use vstd::string::StringExecFns;

verus! {

/// A request that names a directory or a file. A request for a directory
/// that names none means the current directory.
#[derive(Debug)]
pub struct DirectoryQuery {
    pub path: Option<String>,
}

/// A request for the contents of several files.
#[derive(Debug)]
pub struct FilesRequest {
    pub paths: Vec<String>,
}

/// What became of reading one file: its contents, or why it could not be
/// read.
#[derive(Debug)]
pub struct FileResult {
    pub success: bool,
    pub content: Option<String>,
    pub error: Option<String>,
}

impl DirectoryQuery {
    /// The directory that the request is about: the path it names, or `.`
    /// where it names none.
    pub open spec fn directory(self) -> Seq<char> {
        match self.path {
            Some(path) => path@,
            None => "."@,
        }
    }

    /// The directory that the request is about.
    pub fn requested_directory(&self) -> (r: String)
        ensures
            r@ == self.directory(),
    {
        match &self.path {
            Some(path) => path.clone(),
            None => ".".to_owned(),
        }
    }

    /// The file that the request is about. A request that names none is
    /// refused.
    pub fn requested_file(&self) -> (r: Result<String, String>)
        ensures
            match r {
                Ok(path) => self.path matches Some(named) && path@ == named@,
                Err(error) => self.path is None && error@ == "Path is required"@,
            },
    {
        match &self.path {
            Some(path) => Ok(path.clone()),
            None => Err("Path is required".to_owned()),
        }
    }
}

impl FileResult {
    /// A result holds contents where it is a success, and a reason where it
    /// is none.
    pub open spec fn wf(&self) -> bool {
        &&& self.success <==> self.content is Some
        &&& self.success <==> self.error is None
    }

    /// The result of a read that gave `content`.
    pub fn read(content: String) -> (r: FileResult)
        ensures
            r.wf(),
            r.success,
            r.content == Some(content),
    {
        FileResult { success: true, content: Some(content), error: None }
    }

    /// The result of a read that failed for the reason `error`.
    pub fn failed(error: String) -> (r: FileResult)
        ensures
            r.wf(),
            !r.success,
            r.error == Some(error),
    {
        FileResult { success: false, content: None, error: Some(error) }
    }

    /// The result for the outcome of a read.
    pub fn of(outcome: Result<String, String>) -> (r: FileResult)
        ensures
            r.wf(),
            r.success == outcome is Ok,
            outcome matches Ok(content) ==> r.content == Some(content),
            outcome matches Err(error) ==> r.error == Some(error),
    {
        match outcome {
            Ok(content) => FileResult::read(content),
            Err(error) => FileResult::failed(error),
        }
    }
}

/// Decides on a requested path from what the disk says of it: whether it
/// exists, and what it is in canonical form or why it has none. A path
/// that does not exist is refused before its canonical form is looked at.
pub fn validate_path(requested_path: &str, exists: bool, canonical: Result<String, String>) -> (r:
    Result<String, String>)
    ensures
        match r {
            Ok(path) => exists && canonical == Ok::<String, String>(path),
            Err(message) => if !exists {
                message@ == "Path does not exist: "@ + requested_path@
            } else {
                canonical matches Err(reason) && message@ == "Failed to canonicalize path: "@
                    + reason@
            },
        },
{
    if !exists {
        return Err("Path does not exist: ".to_owned().concat(requested_path));
    }
    match canonical {
        Ok(path) => Ok(path),
        Err(reason) => Err("Failed to canonicalize path: ".to_owned().concat(reason.as_str())),
    }
}

} // verus!
