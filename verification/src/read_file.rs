//! Reading a log file: what it holds is taken out of its gzip stream where its
//! name ends in `.gz`, and parted into lines.
use crate::text::{
    count_between, ends_with, find, finishes_with, free_of, lemma_count_free, lemma_count_split,
    lemma_find, CARRIAGE_RETURN, LINE_FEED,
};
use vstd::prelude::*;
use vstd::slice::*;
use vstd::string::*;
use vstd::utf8::*;

verus! {

/// The error of `std::io`.
#[verifier::external_type_specification]
#[verifier::external_body]
pub struct ExIoError(std::io::Error);

/// The error of `core::str::from_utf8`.
#[verifier::external_type_specification]
#[verifier::external_body]
pub struct ExUtf8Error(core::str::Utf8Error);

/// What `flate2::read::GzDecoder` reads out of the gzip stream `data` up to
/// its end, or nothing where it reports an error.
pub uninterp spec fn gunzip(data: Seq<u8>) -> Option<Seq<u8>>;

/// Reads the gzip stream `data` to its end with `flate2::read::GzDecoder`
/// (`GzDecoder::new` and `read_to_end`).
///
/// Trusted: what is read, or that the decoder fails, depends on `data` alone.
#[verifier::external_body]
fn decompress(data: &[u8]) -> (r: Result<Vec<u8>, std::io::Error>)
    ensures
        r matches Ok(text) ==> gunzip(data@) == Some(text@),
        r is Err ==> gunzip(data@) is None,
{
    let mut text = Vec::new();
    let mut decoder = flate2::read::GzDecoder::new(data);
    std::io::Read::read_to_end(&mut decoder, &mut text)?;
    Ok(text)
}

/// `core::str::from_utf8` takes valid UTF-8 as the text that it encodes, and
/// nothing else.
pub assume_specification[ core::str::from_utf8 ](v: &[u8]) -> (r: Result<
    &str,
    core::str::Utf8Error,
>)
    ensures
        r is Ok <==> valid_utf8(v@),
        r matches Ok(text) ==> text.spec_bytes() == v@,
;

/// Why a file could not be read.
#[derive(Debug, PartialEq, Eq, Clone, Copy)]
pub enum ReadError {
    /// The name ends in `.gz` and the file is no sound gzip stream.
    CorruptStream,
    /// The line with this number, counted from 0, is not UTF-8.
    InvalidText { line: usize },
}

/// The bytes of a file, as they are or taken out of a gzip stream.
pub enum Reader<'a> {
    Plain(&'a [u8]),
    Decompressed(Vec<u8>),
}

impl<'a> View for Reader<'a> {
    type V = Seq<u8>;

    open spec fn view(&self) -> Seq<u8> {
        match self {
            Reader::Plain(data) => data@,
            Reader::Decompressed(data) => data@,
        }
    }
}

impl<'a> Reader<'a> {
    /// The bytes to read.
    pub fn bytes(&self) -> (r: &[u8])
        ensures
            r@ == self@,
    {
        match self {
            Reader::Plain(data) => data,
            Reader::Decompressed(data) => data.as_slice(),
        }
    }
}

/// A file to read: its path, and the bytes that it holds.
pub struct LogFile {
    pub pathname: String,
    pub content: Vec<u8>,
}

/// A file to read, as bytes.
pub struct FileText {
    pub pathname: Seq<u8>,
    pub content: Seq<u8>,
}

impl View for LogFile {
    type V = FileText;

    open spec fn view(&self) -> FileText {
        FileText { pathname: encode_utf8(self.pathname@), content: self.content@ }
    }
}

/// The suffix of a compressed file's name.
pub open spec fn gz_suffix() -> Seq<u8> {
    ".gz".spec_bytes()
}

/// The bytes to part into lines, for a file named `pathname` that holds
/// `content`; nothing where they cannot be had.
pub open spec fn text_in(pathname: Seq<u8>, content: Seq<u8>) -> Option<Seq<u8>> {
    if ends_with(pathname, gz_suffix()) {
        gunzip(content)
    } else {
        Some(content)
    }
}

/// `line` without the carriage return at its end, if there is one.
pub open spec fn without_return(line: Seq<u8>) -> Seq<u8> {
    if line.len() > 0 && line.last() == CARRIAGE_RETURN {
        line.drop_last()
    } else {
        line
    }
}

/// The lines of `data` from index `from` on. A line ends with a line feed, or
/// with a carriage return and a line feed, which are no part of it; what stands
/// behind the last line feed is a line too, unless it is empty.
pub open spec fn lines_from(data: Seq<u8>, from: int) -> Seq<Seq<u8>>
    decreases data.len() - from,
{
    let end = find(data, LINE_FEED, from);
    if from < 0 || from >= data.len() || end < from {
        Seq::empty()
    } else if end >= data.len() {
        seq![data.subrange(from, data.len() as int)]
    } else {
        seq![without_return(data.subrange(from, end))] + lines_from(data, end + 1)
    }
}

/// The lines of `data`.
pub open spec fn lines_of(data: Seq<u8>) -> Seq<Seq<u8>> {
    lines_from(data, 0)
}

/// The number of the first of `lines` that is not UTF-8, counted from 0; the
/// number of lines where all are.
pub open spec fn first_invalid(lines: Seq<Seq<u8>>) -> int
    decreases lines.len(),
{
    if lines.len() == 0 {
        0
    } else if first_invalid(lines.drop_last()) < lines.len() - 1 {
        first_invalid(lines.drop_last())
    } else if valid_utf8(lines.last()) {
        lines.len() as int
    } else {
        lines.len() - 1
    }
}

/// The texts in `lines`, each as its bytes.
pub open spec fn texts_of(lines: Seq<String>) -> Seq<Seq<u8>> {
    lines.map_values(|line: String| encode_utf8(line@))
}

/// What reading `data` line by line gives: the lines, or the first that is
/// not UTF-8.
pub open spec fn lines_read(data: Seq<u8>) -> Result<Seq<Seq<u8>>, ReadError> {
    let lines = lines_of(data);
    if first_invalid(lines) == lines.len() {
        Ok(lines)
    } else {
        Err(ReadError::InvalidText { line: first_invalid(lines) as usize })
    }
}

/// What reading the file named `pathname` that holds `content` gives.
pub open spec fn lines_in_file(pathname: Seq<u8>, content: Seq<u8>) -> Result<
    Seq<Seq<u8>>,
    ReadError,
> {
    match text_in(pathname, content) {
        Some(data) => lines_read(data),
        None => Err(ReadError::CorruptStream),
    }
}

/// `first_invalid` is the number of a line that is not UTF-8 with only UTF-8
/// before it, or the number of lines.
pub proof fn lemma_first_invalid(lines: Seq<Seq<u8>>)
    ensures
        0 <= first_invalid(lines) <= lines.len(),
        forall|i: int| 0 <= i < first_invalid(lines) ==> valid_utf8(#[trigger] lines[i]),
        first_invalid(lines) < lines.len() ==> !valid_utf8(lines[first_invalid(lines)]),
    decreases lines.len(),
{
    if lines.len() > 0 {
        let front = lines.drop_last();
        lemma_first_invalid(front);
        assert forall|i: int| 0 <= i < first_invalid(lines) implies valid_utf8(
            #[trigger] lines[i],
        ) by {
            if i < front.len() {
                assert(lines[i] == front[i]);
            }
        }
    }
}

/// Each line feed ends a line, and what stands behind the last one is a line
/// of its own: there are as many lines as line feeds, and one more where the
/// data does not end with a line feed.
pub proof fn lemma_lines_count(data: Seq<u8>, from: int)
    requires
        0 <= from <= data.len(),
    ensures
        lines_from(data, from).len() == count_between(data, LINE_FEED, from, data.len() as int)
            + if from < data.len() && data.last() != LINE_FEED {
            1nat
        } else {
            0nat
        },
    decreases data.len() - from,
{
    let all = data.len() as int;
    if from < all {
        let end = find(data, LINE_FEED, from);
        lemma_find(data, LINE_FEED, from);
        lemma_count_free(data, LINE_FEED, from, end);
        if end < all {
            lemma_lines_count(data, end + 1);
            lemma_count_split(data, LINE_FEED, from, end, all);
            lemma_count_split(data, LINE_FEED, end, end + 1, all);
            reveal_with_fuel(count_between, 2);
        }
    }
}

/// No line holds a line feed.
pub proof fn lemma_lines_hold_no_line_feed(data: Seq<u8>, from: int, i: int)
    requires
        0 <= from <= data.len(),
        0 <= i < lines_from(data, from).len(),
    ensures
        free_of(lines_from(data, from)[i], LINE_FEED),
    decreases data.len() - from,
{
    if from < data.len() {
        let end = find(data, LINE_FEED, from);
        lemma_find(data, LINE_FEED, from);
        if i > 0 {
            lemma_lines_hold_no_line_feed(data, end + 1, i - 1);
        }
    }
}

/// Opens the file named `pathname` that holds `content`: where the name ends
/// in `.gz`, the content is taken out of its gzip stream.
pub fn get_file_reader<'a>(pathname: &str, content: &'a [u8]) -> (r: Result<Reader<'a>, ReadError>)
    ensures
        match text_in(pathname.spec_bytes(), content@) {
            Some(data) => r is Ok && r->Ok_0@ == data,
            None => r == Err::<Reader<'a>, ReadError>(ReadError::CorruptStream),
        },
{
    if finishes_with(pathname.as_bytes(), ".gz".as_bytes()) {
        match decompress(content) {
            Ok(text) => Ok(Reader::Decompressed(text)),
            Err(_) => Err(ReadError::CorruptStream),
        }
    } else {
        Ok(Reader::Plain(content))
    }
}

/// Parts `data` into its lines.
pub fn read_lines(data: &[u8]) -> (r: Result<Vec<String>, ReadError>)
    ensures
        match lines_read(data@) {
            Ok(lines) => r is Ok && texts_of(r->Ok_0@) == lines,
            Err(e) => r == Err::<Vec<String>, ReadError>(e),
        },
{
    let mut lines: Vec<String> = Vec::new();
    let mut from: usize = 0;
    proof {
        assert(texts_of(lines@) =~= Seq::<Seq<u8>>::empty());
    }
    while from < data.len()
        invariant
            from <= data.len(),
            lines_of(data@) == texts_of(lines@) + lines_from(data@, from as int),
            first_invalid(texts_of(lines@)) == lines@.len(),
        decreases data.len() - from,
    {
        let mut end: usize = from;
        while end < data.len() && data[end] != LINE_FEED
            invariant
                from <= end <= data.len(),
                find(data@, LINE_FEED, from as int) == find(data@, LINE_FEED, end as int),
            decreases data.len() - end,
        {
            end += 1;
        }
        let last: bool = end == data.len();
        let mut stop: usize = end;
        if !last && from < end && data[end - 1] == CARRIAGE_RETURN {
            stop = end - 1;
        }
        let part = slice_subrange(data, from, stop);
        proof {
            let whole = data@.subrange(from as int, end as int);
            assert(part@ == if last {
                whole
            } else {
                without_return(whole)
            });
        }
        let ghost before = texts_of(lines@);
        let ghost rest = if last {
            Seq::<Seq<u8>>::empty()
        } else {
            lines_from(data@, end + 1)
        };
        proof {
            assert(lines_from(data@, from as int) =~= seq![part@] + rest);
            assert(first_invalid(before.push(part@).drop_last()) == before.len()) by {
                assert(before.push(part@).drop_last() =~= before);
            }
        }
        match core::str::from_utf8(part) {
            Ok(text) => {
                lines.push(text.to_owned());
                proof {
                    assert(texts_of(lines@) =~= before.push(part@));
                    assert(lines_of(data@) =~= texts_of(lines@) + rest);
                }
            },
            Err(_) => {
                proof {
                    let all = lines_of(data@);
                    lemma_first_invalid_found(before.push(part@), rest);
                    assert(all =~= before.push(part@) + rest);
                }
                return Err(ReadError::InvalidText { line: lines.len() });
            },
        }
        from = if last {
            end
        } else {
            end + 1
        };
        proof {
            if last {
                assert(lines_from(data@, from as int) =~= Seq::<Seq<u8>>::empty());
            }
        }
    }
    proof {
        assert(lines_from(data@, from as int) =~= Seq::<Seq<u8>>::empty());
        assert(lines_of(data@) =~= texts_of(lines@));
    }
    Ok(lines)
}

/// A line that is not UTF-8 stays the first such line when more lines follow.
proof fn lemma_first_invalid_found(lines: Seq<Seq<u8>>, more: Seq<Seq<u8>>)
    requires
        first_invalid(lines) < lines.len(),
    ensures
        first_invalid(lines + more) == first_invalid(lines),
    decreases more.len(),
{
    if more.len() == 0 {
        assert(lines + more =~= lines);
    } else {
        lemma_first_invalid_found(lines, more.drop_last());
        assert((lines + more).drop_last() =~= lines + more.drop_last());
    }
}

/// The lines of the file named `pathname` that holds `content`.
pub fn get_lines_in_file(pathname: &str, content: &[u8]) -> (r: Result<Vec<String>, ReadError>)
    ensures
        match lines_in_file(pathname.spec_bytes(), content@) {
            Ok(lines) => r is Ok && texts_of(r->Ok_0@) == lines,
            Err(e) => r == Err::<Vec<String>, ReadError>(e),
        },
{
    match get_file_reader(pathname, content) {
        Ok(reader) => read_lines(reader.bytes()),
        Err(e) => Err(e),
    }
}

} // verus!
