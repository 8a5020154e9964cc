use vstd::prelude::*;
use vstd::string::StringExecFns;

verus! {

/// The errors that the plugin reports to its caller.
///
/// `Raw` carries a message composed by the plugin itself; every other
/// variant carries the rendered message of an error raised by the system or
/// by a library the plugin relies on.
#[derive(Debug)]
pub enum Error {
    Raw(String),
    Io(String),
    Utf8(String),
    ParseInt(String),
    Tauri(String),
    TauriHttpHeaderToStr(String),
    SerdeJson(String),
    Base64Decode(String),
}

pub type Result<T> = std::result::Result<T, Error>;

/// The text that an error renders to.
pub open spec fn error_text(e: Error) -> Seq<char> {
    match e {
        Error::Raw(m) => m@,
        Error::Io(m) => m@,
        Error::Utf8(m) => m@,
        Error::ParseInt(m) => m@,
        Error::Tauri(m) => m@,
        Error::TauriHttpHeaderToStr(m) => m@,
        Error::SerdeJson(m) => m@,
        Error::Base64Decode(m) => m@,
    }
}

/// Whether `e` is a plugin-composed error whose message is `msg`.
pub open spec fn is_raw_error(e: Error, msg: Seq<char>) -> bool {
    e matches Error::Raw(m) && m@ == msg
}

impl Error {
    /// An error that carries the given message.
    pub fn with(msg: &str) -> (e: Error)
        ensures
            is_raw_error(e, msg@),
    {
        Error::Raw(msg.to_owned())
    }

    /// `missing value: {value_name}`
    pub fn missing_value(value_name: &str) -> (e: Error)
        ensures
            is_raw_error(e, "missing value: "@ + value_name@),
    {
        let mut msg = "missing value: ".to_owned();
        msg.append(value_name);
        Error::Raw(msg)
    }

    /// `invalid type for {value_name}`
    pub fn invalid_type(value_name: &str) -> (e: Error)
        ensures
            is_raw_error(e, "invalid type for "@ + value_name@),
    {
        let mut msg = "invalid type for ".to_owned();
        msg.append(value_name);
        Error::Raw(msg)
    }

    /// `invalid value: {value} for {value_name}`
    pub fn invalid_value(value_name: &str, value: &str) -> (e: Error)
        ensures
            is_raw_error(e, "invalid value: "@ + value@ + " for "@ + value_name@),
    {
        let mut msg = "invalid value: ".to_owned();
        msg.append(value);
        msg.append(" for ");
        msg.append(value_name);
        Error::Raw(msg)
    }

    /// The message this error renders to: the text it carries.
    pub fn message(&self) -> (m: String)
        ensures
            m@ == error_text(*self),
    {
        match self {
            Error::Raw(m) => m.clone(),
            Error::Io(m) => m.clone(),
            Error::Utf8(m) => m.clone(),
            Error::ParseInt(m) => m.clone(),
            Error::Tauri(m) => m.clone(),
            Error::TauriHttpHeaderToStr(m) => m.clone(),
            Error::SerdeJson(m) => m.clone(),
            Error::Base64Decode(m) => m.clone(),
        }
    }
}

} // verus!
