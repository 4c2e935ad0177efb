//! The commands that talk to a session-sharing service, written against the
//! service's two operations so that any service can stand behind them.
use vstd::prelude::*;

verus! {

/// A service that can link this machine to an account and store recordings.
pub trait ApiService {
    /// Tells the user how to link this machine to an account.
    fn auth(&self);

    /// Uploads the recording at `filepath`; gives its address when the
    /// service accepted it.
    fn upload(&self, filepath: &str) -> Option<String>;
}

/// Why an upload cannot start.
#[derive(PartialEq, Eq, Structural, Clone, Copy, Debug)]
pub enum UploadError {
    /// The recording file does not exist.
    Missing,
}

/// The `auth` command.
pub struct Auth<S: ApiService> {
    api_service: S,
}

impl<S: ApiService> Auth<S> {
    pub fn new(api_service: S) -> (r: Auth<S>)
        ensures
            r.service() == api_service,
    {
        Auth { api_service }
    }

    pub closed spec fn service(&self) -> S {
        self.api_service
    }

    /// Asks the service to link this machine to an account.
    pub fn execute(&self) {
        self.api_service.auth();
    }
}

/// The `upload` command, for a recording that exists.
pub struct Upload<S: ApiService> {
    api_service: S,
    filepath: String,
}

impl<S: ApiService> Upload<S> {
    /// Prepares the upload of the recording at `filepath`; `exists` says
    /// whether that file exists.
    pub fn new(api_service: S, filepath: String, exists: bool) -> (r: Result<Upload<S>, UploadError>)
        ensures
            r is Ok <==> exists,
            r is Err ==> r == Err::<Upload<S>, UploadError>(UploadError::Missing),
            r matches Ok(u) ==> u.spec_filepath() == filepath@ && u.service() == api_service,
    {
        if exists {
            Ok(Upload { api_service, filepath })
        } else {
            Err(UploadError::Missing)
        }
    }

    pub closed spec fn service(&self) -> S {
        self.api_service
    }

    pub closed spec fn spec_filepath(&self) -> Seq<char> {
        self.filepath@
    }

    pub fn filepath(&self) -> (r: &String)
        ensures
            r@ == self.spec_filepath(),
    {
        &self.filepath
    }

    /// Uploads the recording; gives the address the service returned, if any.
    pub fn execute(&self) -> Option<String> {
        self.api_service.upload(self.filepath.as_str())
    }
}

} // verus!
