//! The whole run on one text: parse, resolve, render.

use vstd::prelude::*;
use vstd::utf8::encode_utf8;
use crate::ast::{File, file_view, strings_view};
use crate::parser::{ParseError, ParseErrorView, parse, parse_spec};
use crate::render::{Serialize, file_text};
use crate::resolver::{
    DefectKind, ResolveError, file_diagnostics, file_index, resolve, rewrite_file, walk_file,
};

verus! {

/// Why a text could not be converted.
#[derive(Debug, PartialEq)]
pub enum ConvertError {
    /// The text is not a file.
    Parse(ParseError),
    /// A node declares its handle in a malformed way.
    Resolve(ResolveError),
}

/// The result of a conversion: the new text, and one diagnostic line
/// for each property whose cells became paths.
#[derive(Debug, PartialEq)]
pub struct Converted {
    pub text: String,
    pub log: Vec<String>,
}

/// Mathematical value of a [`ConvertError`].
pub enum ConvertErrorView {
    Parse(ParseErrorView),
    Resolve((DefectKind, Seq<char>)),
}

impl View for ConvertError {
    type V = ConvertErrorView;

    open spec fn view(&self) -> ConvertErrorView {
        match self {
            ConvertError::Parse(e) => ConvertErrorView::Parse(e@),
            ConvertError::Resolve(e) => ConvertErrorView::Resolve(e@),
        }
    }
}

/// What a text converts to for some targets: the rendering of its file
/// after both passes, with the diagnostic lines; or the first failure.
pub open spec fn convert_spec(bytes: Seq<u8>, targets: Seq<Seq<char>>) -> Result<
    (Seq<char>, Seq<Seq<char>>),
    ConvertErrorView,
> {
    match parse_spec(bytes) {
        Err(e) => Err(ConvertErrorView::Parse(e)),
        Ok(file) => match walk_file(file, file.len() as int).failure {
            Some(defect) => Err(ConvertErrorView::Resolve(defect)),
            None => Ok(
                (
                    file_text(rewrite_file(file_index(file), file, targets), 0),
                    file_diagnostics(file, file.len() as int, targets),
                ),
            ),
        },
    }
}

/// Renders a file from the top: every top-level entry at level zero.
pub fn render(file: &File) -> (text: String)
    ensures
        text@ == file_text(file_view(file@), 0),
{
    file.serialize(0)
}

/// Converts a source text: parses it, resolves the handles of the
/// properties whose names hold one of `targets`, and renders the result.
///
/// Nothing is rendered where the text does not parse or a handle
/// declaration is malformed: the failure is returned instead.
pub fn convert(data: &str, targets: &[String]) -> (result: Result<Converted, ConvertError>)
    ensures
        match result {
            Ok(done) => convert_spec(encode_utf8(data@), strings_view(targets@)) == Ok::<
                (Seq<char>, Seq<Seq<char>>),
                ConvertErrorView,
            >((done.text@, strings_view(done.log@))),
            Err(e) => convert_spec(encode_utf8(data@), strings_view(targets@)) == Err::<
                (Seq<char>, Seq<Seq<char>>),
                ConvertErrorView,
            >(e@),
        },
{
    let mut file = match parse(data) {
        Ok(file) => file,
        Err(e) => {
            return Err(ConvertError::Parse(e));
        },
    };
    match resolve(&mut file, targets) {
        Ok(log) => Ok(Converted { text: render(&file), log }),
        Err(e) => Err(ConvertError::Resolve(e)),
    }
}

/// The number of line feeds among the first `upto` bytes.
pub open spec fn line_feeds(s: Seq<u8>, upto: int) -> nat
    decreases upto,
{
    if upto <= 0 || upto > s.len() {
        0
    } else {
        line_feeds(s, upto - 1) + if s[upto - 1] == 10 {
            1nat
        } else {
            0nat
        }
    }
}

/// The offset of the last line feed among the first `upto` bytes, or
/// zero where there is none.
pub open spec fn last_line_feed(s: Seq<u8>, upto: int) -> int
    decreases upto,
{
    if upto <= 0 || upto > s.len() {
        0
    } else if s[upto - 1] == 10 {
        upto - 1
    } else {
        last_line_feed(s, upto - 1)
    }
}

/// The line and the column of a byte of the text, for a diagnostic: the
/// line is one more than the number of line feeds before the byte, the
/// column is its distance from the last of them (from the start of the
/// text, on the first line).
pub fn line_column(data: &[u8], offset: usize) -> (place: (usize, usize))
    requires
        offset < data@.len(),
    ensures
        place.0 == line_feeds(data@, offset as int) + 1,
        place.1 == offset - last_line_feed(data@, offset as int),
{
    let count = data.len();
    let mut feeds: usize = 0;
    let mut last: usize = 0;
    let mut i: usize = 0;
    while i < offset
        invariant
            i <= offset < count == data@.len(),
            feeds == line_feeds(data@, i as int),
            feeds <= i,
            last == last_line_feed(data@, i as int),
            last <= i,
        decreases offset - i,
    {
        if data[i] == 10 {
            feeds += 1;
            last = i;
        }
        i += 1;
    }
    (feeds + 1, offset - last)
}

} // verus!
