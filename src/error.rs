use vstd::prelude::*;

verus! {

#[verifier::external_type_specification]
#[verifier::external_body]
pub struct ExIoError(std::io::Error);

#[verifier::external_type_specification]
#[verifier::external_body]
pub struct ExDecodeError(base64::DecodeError);

/// What can go wrong while finding, fetching and decoding subtitles.
#[derive(Debug)]
pub enum Error {
    /// The catalog answered with a status other than `200 OK`.
    BadStatus(String),
    /// Local file access failed.
    Io(std::io::Error),
    /// The remote call itself failed; the transport's message.
    Xmlrpc(String),
    /// The login answer carried no token.
    NoToken,
    /// A payload was not valid base64.
    Base64,
    /// A payload did not hold a valid gzip stream.
    Gzip(std::io::Error),
    /// A response lacked a field or held one of the wrong type.
    Malformed,
    /// No video had a fingerprint, so there was nothing to ask for.
    NothingToSearch,
    /// No candidate of the video carried a payload.
    NothingToSave,
    /// No subtitle file name can be derived from the video's path.
    BadPath,
    /// The video is shorter than one checksum window.
    ShortFile,
}

impl From<std::io::Error> for Error {
    fn from(error: std::io::Error) -> (r: Self) {
        Error::Io(error)
    }
}

impl vstd::std_specs::convert::FromSpecImpl<std::io::Error> for Error {
    open spec fn obeys_from_spec() -> bool {
        true
    }

    open spec fn from_spec(v: std::io::Error) -> Error {
        Error::Io(v)
    }
}

impl From<base64::DecodeError> for Error {
    fn from(_error: base64::DecodeError) -> (r: Self) {
        Error::Base64
    }
}

impl vstd::std_specs::convert::FromSpecImpl<base64::DecodeError> for Error {
    open spec fn obeys_from_spec() -> bool {
        true
    }

    open spec fn from_spec(v: base64::DecodeError) -> Error {
        Error::Base64
    }
}

} // verus!
