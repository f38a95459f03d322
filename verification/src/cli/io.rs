//! Which stream an optional path argument stands for.

use vstd::prelude::*;
use crate::error::Error;

verus! {

/// Where input comes from or output goes to.
#[derive(Debug)]
pub enum Stream {
    /// Standard input or standard output.
    Standard,
    /// The file at this path.
    File(String),
}

/// What a stream says.
pub enum StreamView {
    Standard,
    File(Seq<char>),
}

impl View for Stream {
    type V = StreamView;

    open spec fn view(&self) -> StreamView {
        match self {
            Stream::Standard => StreamView::Standard,
            Stream::File(path) => StreamView::File(path@),
        }
    }
}

/// The stream that a path argument stands for: the standard stream where
/// the argument is absent or a single dash, the file at the path
/// otherwise.
pub open spec fn stream_of(path: Option<Seq<char>>) -> StreamView {
    match path {
        Some(p) => if p == seq!['-'] {
            StreamView::Standard
        } else {
            StreamView::File(p)
        },
        None => StreamView::Standard,
    }
}

/// The name of a stream, where the standard stream is called `standard`.
pub open spec fn stream_name(stream: StreamView, standard: Seq<char>) -> Seq<char> {
    match stream {
        StreamView::Standard => standard,
        StreamView::File(path) => path,
    }
}

/// What an optional path says.
pub open spec fn path_view(path: Option<String>) -> Option<Seq<char>> {
    match path {
        Some(p) => Some(p@),
        None => None,
    }
}

/// Whether `s` is a single dash.
fn is_dash(s: &str) -> (b: bool)
    ensures
        b == (s@ == seq!['-']),
{
    let b = s.unicode_len() == 1 && s.get_char(0) == '-';
    proof {
        if b {
            assert(s@ =~= seq!['-']);
        }
    }
    b
}

/// The stream that a path argument stands for.
pub fn stream(path: &Option<String>) -> (s: Stream)
    ensures
        s@ == stream_of(path_view(*path)),
{
    match path {
        Some(p) => if is_dash(p.as_str()) {
            Stream::Standard
        } else {
            Stream::File(p.clone())
        },
        None => Stream::Standard,
    }
}

/// The name under which the input is spoken of: `stdin` for standard
/// input, the path for a file.
pub fn reader_name(path: &Option<String>) -> (r: Result<String, Error>)
    ensures
        r matches Ok(name) && name@ == stream_name(stream_of(path_view(*path)), "stdin"@),
{
    match stream(path) {
        Stream::Standard => Ok(String::from_str("stdin")),
        Stream::File(p) => Ok(p),
    }
}

/// The name under which the output is spoken of: `stdout` for standard
/// output, the path for a file.
pub fn writer_name(path: &Option<String>) -> (r: Result<String, Error>)
    ensures
        r matches Ok(name) && name@ == stream_name(stream_of(path_view(*path)), "stdout"@),
{
    match stream(path) {
        Stream::Standard => Ok(String::from_str("stdout")),
        Stream::File(p) => Ok(p),
    }
}

/// The name under which a directory is spoken of: the path, or `pwd` for
/// the working directory, which an absent path stands for.
pub fn dir_name(path: &Option<String>) -> (r: Result<String, Error>)
    ensures
        r matches Ok(name) && name@ == (match path_view(*path) {
            Some(p) => p,
            None => "pwd"@,
        }),
{
    match path {
        Some(p) => Ok(p.clone()),
        None => Ok(String::from_str("pwd")),
    }
}

} // verus!
