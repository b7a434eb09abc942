//! Errors of the pipeline.

use vstd::prelude::*;

verus! {

/// A condition that ends the run before any file is fetched.
#[derive(Debug, PartialEq, Eq)]
pub enum FatalError {
    /// No extension list was given on the command line.
    MissingArgument,
    /// The catalog request could not be sent.
    CatalogRequest { detail: String },
    /// The catalog answered with a status other than 200.
    CatalogStatus { status: u16 },
    /// The catalog body could not be read.
    CatalogBody { detail: String },
    /// None of the requested extensions is offered by the catalog.
    NoValidExtensions,
}

/// The failure of one task of the resolution or the download stage.
#[derive(Debug, PartialEq, Eq)]
pub enum StageError {
    /// The request for `extension` could not be sent.
    Request { extension: String, detail: String },
    /// The request for `extension` answered with a status other than 200.
    Status { extension: String, status: u16 },
    /// The response body for `extension` could not be read.
    Body { extension: String, detail: String },
    /// A download link on the landing page of `extension` has no `href`.
    MissingLink { extension: String },
    /// The file `name` could not be created.
    FileCreate { name: String, detail: String },
    /// The file `name` could not be written.
    FileWrite { name: String, detail: String },
}

/// Success of a response status: only 200 is accepted.
pub fn check_status(extension: &String, status: u16) -> (r: Result<(), StageError>)
    ensures
        r is Ok <==> status == 200,
        r is Err ==> (r matches Err(StageError::Status { extension: e, status: s }) && e@
            == extension@ && s == status),
{
    if status == 200 {
        Ok(())
    } else {
        Err(StageError::Status { extension: extension.clone(), status })
    }
}

/// Success of the catalog's response status: only 200 is accepted.
pub fn check_catalog_status(status: u16) -> (r: Result<(), FatalError>)
    ensures
        r is Ok <==> status == 200,
        r is Err ==> r == Err::<(), FatalError>(FatalError::CatalogStatus { status }),
{
    if status == 200 {
        Ok(())
    } else {
        Err(FatalError::CatalogStatus { status })
    }
}

} // verus!
