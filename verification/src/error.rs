//! The one error type of the library.

use clang::SourceError;
use std::io::Error as IoError;
use vstd::prelude::*;
use vstd::std_specs::convert::FromSpecImpl;
use vstd::string::*;
use xml::writer::Error as XmlError;

verus! {

/// `clang::SourceError`, with its variants.
#[verifier::external_type_specification]
pub struct ExSourceError(SourceError);

/// `std::io::Error`, opaque to the verifier.
#[verifier::external_type_specification]
#[verifier::external_body]
pub struct ExIoError(IoError);

/// Why a run failed. The first failure of a run is its outcome.
#[derive(Debug)]
pub enum AstXmlError {
    /// A source file could not be parsed; which one is not known.
    Clang(SourceError),
    /// The precompiled syntax tree at this path could not be loaded.
    AstLoad(String),
    /// The source file at this path could not be parsed, for this cause.
    SourceLoad(String, SourceError),
    /// The parsing context of the process could not be had, for this reason.
    Unavailable(String),
    /// The XML writer refused an event.
    Xml(XmlError),
    /// The output could not be written.
    Io(IoError),
}

impl From<XmlError> for AstXmlError {
    fn from(e: XmlError) -> (error: Self) {
        AstXmlError::Xml(e)
    }
}

impl FromSpecImpl<XmlError> for AstXmlError {
    open spec fn obeys_from_spec() -> bool {
        true
    }

    open spec fn from_spec(e: XmlError) -> Self {
        AstXmlError::Xml(e)
    }
}

impl From<SourceError> for AstXmlError {
    fn from(e: SourceError) -> (error: Self) {
        AstXmlError::Clang(e)
    }
}

impl FromSpecImpl<SourceError> for AstXmlError {
    open spec fn obeys_from_spec() -> bool {
        true
    }

    open spec fn from_spec(e: SourceError) -> Self {
        AstXmlError::Clang(e)
    }
}

impl From<IoError> for AstXmlError {
    fn from(e: IoError) -> (error: Self) {
        AstXmlError::Io(e)
    }
}

impl FromSpecImpl<IoError> for AstXmlError {
    open spec fn obeys_from_spec() -> bool {
        true
    }

    open spec fn from_spec(e: IoError) -> Self {
        AstXmlError::Io(e)
    }
}

/// How a cause of a failed parse is shown: by the name of its variant.
pub open spec fn source_error_name(e: SourceError) -> Seq<char> {
    match e {
        SourceError::AstDeserialization => "AstDeserialization"@,
        SourceError::Crash => "Crash"@,
        SourceError::Unknown => "Unknown"@,
    }
}

/// How a refusal of the XML writer is shown: by the name of its variant.
/// Of a failure of the output beneath the writer this says nothing.
pub open spec fn xml_error_name(e: XmlError) -> Seq<char> {
    match e {
        XmlError::Io(_) => Seq::empty(),
        XmlError::DocumentStartAlreadyEmitted => "DocumentStartAlreadyEmitted"@,
        XmlError::LastElementNameNotAvailable => "LastElementNameNotAvailable"@,
        XmlError::EndElementNameIsNotEqualToLastStartElementName => "EndElementNameIsNotEqualToLastStartElementName"@,
        XmlError::EndElementNameIsNotSpecified => "EndElementNameIsNotSpecified"@,
    }
}

/// The `Debug` text of a `clang::SourceError`, by `format!`. The type
/// derives `Debug` and its variants hold nothing, so the text is the name
/// of the variant.
#[verifier::external_body]
fn source_error_debug(e: &SourceError) -> (text: String)
    ensures
        text@ == source_error_name(*e),
{
    format!("{:?}", e)
}

/// The `Debug` text of an `xml::writer::Error`, by `format!`. The type
/// derives `Debug`: a variant that holds nothing is shown by its name.
/// What is shown of an output failure is left open.
#[verifier::external_body]
fn xml_error_debug(e: &XmlError) -> (text: String)
    ensures
        !(e is Io) ==> text@ == xml_error_name(*e),
{
    format!("{:?}", e)
}

/// The `Debug` text of a `std::io::Error`, by `format!`.
#[verifier::external_body]
fn io_error_debug(e: &IoError) -> (text: String) {
    format!("{:?}", e)
}

/// What is said of a precompiled syntax tree that could not be loaded.
pub open spec fn load_error_message(path: Seq<char>) -> Seq<char> {
    "ast file \""@ + path + "\" load error"@
}

/// What is said of a source file that could not be parsed.
pub open spec fn source_load_error_message(path: Seq<char>, cause: SourceError) -> Seq<char> {
    "source file \""@ + path + "\" load error: "@ + source_error_name(cause)
}

/// What is said where the parsing context could not be had.
pub open spec fn unavailable_message(reason: Seq<char>) -> Seq<char> {
    "parsing context unavailable: "@ + reason
}

impl AstXmlError {
    /// The error in words. A load failure names the file. A parsing
    /// context that could not be had gives its reason. Every other failure
    /// is a dollar sign and then the cause as its own type shows it.
    pub fn message(&self) -> (text: String)
        ensures
            match self {
                AstXmlError::AstLoad(path) => text@ == load_error_message(path@),
                AstXmlError::SourceLoad(path, cause) => text@ == source_load_error_message(
                    path@,
                    *cause,
                ),
                AstXmlError::Unavailable(reason) => text@ == unavailable_message(reason@),
                AstXmlError::Clang(e) => text@ == seq!['$'] + source_error_name(*e),
                AstXmlError::Xml(e) => text@.len() > 0 && text@[0] == '$' && (!(e is Io) ==> text@
                    == seq!['$'] + xml_error_name(*e)),
                AstXmlError::Io(_) => text@.len() > 0 && text@[0] == '$',
            },
    {
        let cause = match self {
            AstXmlError::AstLoad(path) => {
                let mut text = String::from_str("ast file \"");
                text.append(path.as_str());
                text.append("\" load error");
                return text;
            },
            AstXmlError::SourceLoad(path, cause) => {
                let mut text = String::from_str("source file \"");
                text.append(path.as_str());
                text.append("\" load error: ");
                let shown = source_error_debug(cause);
                text.append(shown.as_str());
                return text;
            },
            AstXmlError::Unavailable(reason) => {
                let mut text = String::from_str("parsing context unavailable: ");
                text.append(reason.as_str());
                return text;
            },
            AstXmlError::Clang(e) => source_error_debug(e),
            AstXmlError::Xml(e) => xml_error_debug(e),
            AstXmlError::Io(e) => io_error_debug(e),
        };
        proof {
            reveal_strlit("$");
        }
        let text = String::from_str("$").concat(cause.as_str());
        assert(text@ =~= seq!['$'] + cause@);
        text
    }
}

} // verus!
