use vstd::prelude::*;
use vstd::string::StringExecFns;

verus! {

/// The failure taxonomy of the pipeline. Every failure is surfaced to the
/// caller and none is retried.
#[derive(Clone, Copy, Debug, PartialEq, Eq, Structural)]
pub enum ErrorKind {
    /// The supplied input path does not exist.
    InputNotFound,
    /// The supplied path is neither a document file nor a directory.
    InvalidInputKind,
    /// A directory scan yielded no eligible documents.
    EmptyInput,
    /// A selected document could not be read as text.
    Read,
    /// The external fixed-layout exporter could not be started.
    ExportUnavailable,
    /// The exporter started but failed to navigate or render.
    ExportFailure,
    /// The output artifact could not be written.
    Write,
}

/// How an input path is to be processed.
#[derive(Clone, Copy, Debug, PartialEq, Eq, Structural)]
pub enum InputPlan {
    /// Render the one named document.
    SingleFile,
    /// Scan the named directory tree for documents.
    DirectoryScan,
}

/// Decides, from what the filesystem reports about the input path, whether the
/// run renders a single file, scans a directory, or fails — and with which
/// error. A file is checked before a directory, and a file without the
/// document extension is rejected.
pub fn plan_input(exists: bool, is_file: bool, is_dir: bool, has_md_ext: bool) -> (r: Result<
    InputPlan,
    ErrorKind,
>)
    ensures
        !exists ==> r == Err::<InputPlan, ErrorKind>(ErrorKind::InputNotFound),
        exists && is_file && has_md_ext ==> r == Ok::<InputPlan, ErrorKind>(InputPlan::SingleFile),
        exists && is_file && !has_md_ext ==> r == Err::<InputPlan, ErrorKind>(
            ErrorKind::InvalidInputKind,
        ),
        exists && !is_file && is_dir ==> r == Ok::<InputPlan, ErrorKind>(InputPlan::DirectoryScan),
        exists && !is_file && !is_dir ==> r == Err::<InputPlan, ErrorKind>(
            ErrorKind::InvalidInputKind,
        ),
{
    if !exists {
        Err(ErrorKind::InputNotFound)
    } else if is_file {
        if has_md_ext {
            Ok(InputPlan::SingleFile)
        } else {
            Err(ErrorKind::InvalidInputKind)
        }
    } else if is_dir {
        Ok(InputPlan::DirectoryScan)
    } else {
        Err(ErrorKind::InvalidInputKind)
    }
}

/// The standard base64 rendering (with padding) of the UTF-8 bytes of a text.
/// The result is a pure function of the text alone.
pub uninterp spec fn base64_of_text(s: Seq<char>) -> Seq<char>;

/// Relies on base64's `engine::general_purpose::STANDARD.encode`: the encoding
/// of the argument's bytes, a pure function of the input, empty exactly for
/// empty input.
#[verifier::external_body]
fn base64_standard(s: &str) -> (r: String)
    ensures
        r@ == base64_of_text(s@),
        s@.len() == 0 <==> r@.len() == 0,
{
    base64::Engine::encode(&base64::engine::general_purpose::STANDARD, s)
}

/// The content-addressed transport handed to the fixed-layout exporter: a data
/// URI carrying the page as base64-encoded UTF-8.
pub fn data_uri_of(html: &str) -> (r: String)
    ensures
        r@ == "data:text/html;charset=utf-8;base64,"@ + base64_of_text(html@),
{
    let mut out = String::new();
    out.append("data:text/html;charset=utf-8;base64,");
    let enc = base64_standard(html);
    out.append(enc.as_str());
    proof {
        assert(out@ =~= "data:text/html;charset=utf-8;base64,"@ + base64_of_text(html@));
    }
    out
}

} // verus!
