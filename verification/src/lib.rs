//! Exports web-server access logs in the combined format to a comma-separated
//! table, and keeps the lines that do not fit the format in a text of their own.
//!
//! Text is modelled throughout as the sequence of its UTF-8 bytes.
use crate::create_file::{
    get_result_writers, header, joined, lemma_joined_ends, ExportSinks,
};
use crate::filter_file::{is_log_name, lemma_gz_suffix, log_name, ordered};
use crate::filter_file_laws::{lemma_order_ignores_listing, lemma_ordered_names};
use crate::m_log::{fields_of, get_log, matches_format};
use crate::read_file::{
    get_lines_in_file, gz_suffix, lines_in_file, texts_of, FileText, LogFile, ReadError,
};
use crate::text::{ends_with, LINE_FEED};
use crate::write_file::{csv_row, write_to_file_error, write_to_file_result, WriteError};
use vstd::prelude::*;
use vstd::string::*;
use vstd::utf8::*;

pub mod create_file;
pub mod filter_file;
pub mod filter_file_laws;
pub mod m_log;
pub mod m_log_laws;
pub mod read_file;
pub mod text;
pub mod write_file;

verus! {

/// What a run is asked to work on: the path given on the command line.
pub struct Config {
    pathname: String,
}

impl View for Config {
    type V = Seq<u8>;

    /// The bytes of the path.
    closed spec fn view(&self) -> Seq<u8> {
        encode_utf8(self.pathname@)
    }
}

impl Config {
    /// Reads the configuration from the program's arguments: the argument
    /// after the program's name is the path, anything after it is ignored.
    pub fn new(args: Vec<String>) -> (r: Result<Config, &'static str>)
        ensures
            args@.len() >= 2 ==> r is Ok && r->Ok_0@ == encode_utf8(args@[1]@),
            args@.len() < 2 ==> r is Err && r->Err_0@ == "No pathname provided"@,
    {
        if args.len() < 2 {
            return Err("No pathname provided");
        }
        Ok(Config { pathname: args[1].clone() })
    }

    /// The path to work on.
    pub fn pathname(&self) -> (r: &str)
        ensures
            r.spec_bytes() == self@,
    {
        self.pathname.as_str()
    }
}

/// Why a run stopped.
#[derive(Debug, PartialEq, Eq, Clone, Copy)]
pub enum ExportError {
    /// A file could not be read.
    Read(ReadError),
    /// A row could not be written.
    Write(WriteError),
}

/// A run that stopped: at which file, counted from 0 in the order of reading,
/// and why.
#[derive(Debug, PartialEq, Eq, Clone, Copy)]
pub struct Failure {
    pub file: usize,
    pub cause: ExportError,
}

/// Those of `lines` that are records, in their order.
pub open spec fn records(lines: Seq<Seq<u8>>) -> Seq<Seq<u8>> {
    lines.filter(|line: Seq<u8>| matches_format(line))
}

/// Those of `lines` that are no records, in their order.
pub open spec fn rejected(lines: Seq<Seq<u8>>) -> Seq<Seq<u8>> {
    lines.filter(|line: Seq<u8>| !matches_format(line))
}

/// The rows that `lines` add to the table: one for each record, in the order
/// of the lines.
#[verifier::opaque]
pub open spec fn rows_of(lines: Seq<Seq<u8>>) -> Seq<u8> {
    records(lines).flat_map(|line: Seq<u8>| csv_row(fields_of(line)))
}

/// What `lines` add to the rejected lines: each line that is no record, as it
/// is and with a line feed behind it, in the order of the lines.
#[verifier::opaque]
pub open spec fn rejects_of(lines: Seq<Seq<u8>>) -> Seq<u8> {
    rejected(lines).flat_map(|line: Seq<u8>| line + seq![LINE_FEED])
}

/// What one line adds to the table.
pub open spec fn row_of(line: Seq<u8>) -> Seq<u8> {
    if matches_format(line) {
        csv_row(fields_of(line))
    } else {
        Seq::empty()
    }
}

/// What one line adds to the rejected lines.
pub open spec fn reject_of(line: Seq<u8>) -> Seq<u8> {
    if matches_format(line) {
        Seq::empty()
    } else {
        line + seq![LINE_FEED]
    }
}

/// The files in `files`, each as bytes.
pub open spec fn files_of(files: Seq<LogFile>) -> Seq<FileText> {
    files.map_values(|file: LogFile| file@)
}

/// The number of the first of `files` that cannot be read, counted from 0; the
/// number of files where all can.
pub open spec fn first_unreadable(files: Seq<FileText>) -> int
    decreases files.len(),
{
    if files.len() == 0 {
        0
    } else if first_unreadable(files.drop_last()) < files.len() - 1 {
        first_unreadable(files.drop_last())
    } else if lines_in_file(files.last().pathname, files.last().content) is Ok {
        files.len() as int
    } else {
        files.len() - 1
    }
}

/// The lines of all `files`, file after file.
pub open spec fn lines_of_all(files: Seq<FileText>) -> Seq<Seq<u8>>
    decreases files.len(),
{
    if files.len() == 0 {
        Seq::empty()
    } else {
        lines_of_all(files.drop_last()) + match lines_in_file(
            files.last().pathname,
            files.last().content,
        ) {
            Ok(lines) => lines,
            Err(_) => Seq::empty(),
        }
    }
}

/// What a run on `files` comes to: the table and the rejected lines, or the
/// first file that cannot be read with what is wrong with it.
pub open spec fn exported(files: Seq<FileText>) -> Result<(Seq<u8>, Seq<u8>), Failure> {
    let stop = first_unreadable(files);
    if stop == files.len() {
        Ok((csv_row(header()) + rows_of(lines_of_all(files)), rejects_of(lines_of_all(files))))
    } else {
        Err(
            Failure {
                file: stop as usize,
                cause: ExportError::Read(
                    lines_in_file(files[stop].pathname, files[stop].content)->Err_0,
                ),
            },
        )
    }
}

/// True when `r` is what a run on `files` comes to.
pub open spec fn is_outcome(files: Seq<FileText>, r: Result<ExportSinks, Failure>) -> bool {
    match exported(files) {
        Ok((table, errors)) => {
            &&& r is Ok
            &&& r->Ok_0.writer_csv@ == table
            &&& r->Ok_0.writer_error@ == errors
        },
        Err(failure) => r == Err::<ExportSinks, Failure>(failure),
    }
}

/// One more line adds its row and its rejected line to those of the lines
/// before it.
pub proof fn lemma_one_more_line(lines: Seq<Seq<u8>>, line: Seq<u8>)
    ensures
        rows_of(lines.push(line)) == rows_of(lines) + row_of(line),
        rejects_of(lines.push(line)) == rejects_of(lines) + reject_of(line),
        records(lines.push(line)).len() + rejected(lines.push(line)).len() == records(lines).len()
            + rejected(lines).len() + 1,
{
    reveal(rows_of);
    reveal(rejects_of);
    let is_record = |line: Seq<u8>| matches_format(line);
    let is_none = |line: Seq<u8>| !matches_format(line);
    let row = |line: Seq<u8>| csv_row(fields_of(line));
    let reject = |line: Seq<u8>| line + seq![LINE_FEED];
    lines.lemma_filter_push(line, is_record);
    lines.lemma_filter_push(line, is_none);
    if matches_format(line) {
        records(lines).lemma_flat_map_push(row, line);
        assert(rejects_of(lines.push(line)) =~= rejects_of(lines) + reject_of(line));
    } else {
        rejected(lines).lemma_flat_map_push(reject, line);
        assert(rows_of(lines.push(line)) =~= rows_of(lines) + row_of(line));
    }
}

/// No lines add nothing.
pub proof fn lemma_no_lines()
    ensures
        rows_of(Seq::empty()) == Seq::<u8>::empty(),
        rejects_of(Seq::empty()) == Seq::<u8>::empty(),
        records(Seq::empty()).len() == 0,
        rejected(Seq::empty()).len() == 0,
{
    reveal(Seq::filter);
    reveal(rows_of);
    reveal(rejects_of);
    let none = Seq::<Seq<u8>>::empty();
    assert(records(none) =~= none);
    assert(rejected(none) =~= none);
    assert(rows_of(none) =~= Seq::<u8>::empty());
    assert(rejects_of(none) =~= Seq::<u8>::empty());
}

/// More lines add their rows and their rejected lines to those of the lines
/// before them.
pub proof fn lemma_more_lines(lines: Seq<Seq<u8>>, more: Seq<Seq<u8>>)
    ensures
        rows_of(lines + more) == rows_of(lines) + rows_of(more),
        rejects_of(lines + more) == rejects_of(lines) + rejects_of(more),
    decreases more.len(),
{
    if more.len() == 0 {
        lemma_no_lines();
        assert(lines + more =~= lines);
        assert(more =~= Seq::<Seq<u8>>::empty());
        assert(rows_of(lines) + rows_of(more) =~= rows_of(lines));
        assert(rejects_of(lines) + rejects_of(more) =~= rejects_of(lines));
    } else {
        let front = more.drop_last();
        lemma_more_lines(lines, front);
        lemma_one_more_line(lines + front, more.last());
        lemma_one_more_line(front, more.last());
        assert((lines + front).push(more.last()) =~= lines + more);
        assert(front.push(more.last()) =~= more);
        assert(rows_of(lines) + rows_of(front) + row_of(more.last()) =~= rows_of(lines) + (rows_of(
            front,
        ) + row_of(more.last())));
        assert(rejects_of(lines) + rejects_of(front) + reject_of(more.last()) =~= rejects_of(lines)
            + (rejects_of(front) + reject_of(more.last())));
    }
}

/// Every line of the input is a row of the table or a rejected line, and
/// never both.
pub proof fn lemma_every_line_counts(lines: Seq<Seq<u8>>)
    ensures
        records(lines).len() + rejected(lines).len() == lines.len(),
    decreases lines.len(),
{
    if lines.len() == 0 {
        lemma_no_lines();
        assert(lines =~= Seq::<Seq<u8>>::empty());
    } else {
        lemma_every_line_counts(lines.drop_last());
        lemma_one_more_line(lines.drop_last(), lines.last());
        assert(lines.drop_last().push(lines.last()) =~= lines);
    }
}

/// Reads one line and writes what it is: the row of a record to the table, a
/// line that is no record to the rejected lines.
pub fn export_line(line: &str, sinks: &mut ExportSinks) -> (r: Result<(), WriteError>)
    ensures
        r is Ok,
        final(sinks).writer_csv@ == old(sinks).writer_csv@ + row_of(line.spec_bytes()),
        final(sinks).writer_error@ == old(sinks).writer_error@ + reject_of(line.spec_bytes()),
{
    match get_log(line) {
        Some(log_csv) => {
            let written = write_to_file_result(&log_csv, &mut sinks.writer_csv);
            proof {
                assert(sinks.writer_error@ + reject_of(line.spec_bytes()) =~= sinks.writer_error@);
            }
            written
        },
        None => {
            write_to_file_error(line, &mut sinks.writer_error);
            proof {
                assert(sinks.writer_csv@ + row_of(line.spec_bytes()) =~= sinks.writer_csv@);
            }
            Ok(())
        },
    }
}

/// Reads the file named `pathname` that holds `content`, and writes each of
/// its lines to the table or to the rejected lines. Where the file cannot be
/// read, nothing is written.
pub fn export_to_csv(pathname: &str, content: &[u8], sinks: &mut ExportSinks) -> (r: Result<
    (),
    ExportError,
>)
    ensures
        match lines_in_file(pathname.spec_bytes(), content@) {
            Ok(lines) => {
                &&& r is Ok
                &&& final(sinks).writer_csv@ == old(sinks).writer_csv@ + rows_of(lines)
                &&& final(sinks).writer_error@ == old(sinks).writer_error@ + rejects_of(lines)
            },
            Err(e) => {
                &&& r == Err::<(), ExportError>(ExportError::Read(e))
                &&& final(sinks).writer_csv@ == old(sinks).writer_csv@
                &&& final(sinks).writer_error@ == old(sinks).writer_error@
            },
        },
{
    let lines = match get_lines_in_file(pathname, content) {
        Ok(lines) => lines,
        Err(e) => {
            return Err(ExportError::Read(e));
        },
    };
    let ghost all = texts_of(lines@);
    let mut i: usize = 0;
    proof {
        lemma_no_lines();
        assert(all.take(0) =~= Seq::<Seq<u8>>::empty());
        assert(sinks.writer_csv@ + rows_of(all.take(0)) =~= sinks.writer_csv@);
        assert(sinks.writer_error@ + rejects_of(all.take(0)) =~= sinks.writer_error@);
    }
    while i < lines.len()
        invariant
            i <= lines.len(),
            all == texts_of(lines@),
            sinks.writer_csv@ == old(sinks).writer_csv@ + rows_of(all.take(i as int)),
            sinks.writer_error@ == old(sinks).writer_error@ + rejects_of(all.take(i as int)),
        decreases lines.len() - i,
    {
        proof {
            lemma_one_more_line(all.take(i as int), all[i as int]);
            assert(all.take(i + 1) =~= all.take(i as int).push(all[i as int]));
            assert(all[i as int] == encode_utf8(lines@[i as int]@));
        }
        match export_line(lines[i].as_str(), sinks) {
            Ok(()) => {},
            Err(e) => {
                return Err(ExportError::Write(e));
            },
        }
        proof {
            assert(sinks.writer_csv@ =~= old(sinks).writer_csv@ + rows_of(all.take(i + 1)));
            assert(sinks.writer_error@ =~= old(sinks).writer_error@ + rejects_of(all.take(i + 1)));
        }
        i += 1;
    }
    proof {
        assert(all.take(i as int) =~= all);
    }
    Ok(())
}

/// A file that cannot be read stays the first such file when more files
/// follow.
proof fn lemma_first_unreadable_found(files: Seq<FileText>, more: Seq<FileText>)
    requires
        first_unreadable(files) < files.len(),
    ensures
        first_unreadable(files + more) == first_unreadable(files),
    decreases more.len(),
{
    if more.len() == 0 {
        assert(files + more =~= files);
    } else {
        lemma_first_unreadable_found(files, more.drop_last());
        assert((files + more).drop_last() =~= files + more.drop_last());
    }
}

/// Reads `files` one after the other and writes the table and the rejected
/// lines. A file that cannot be read stops the run.
pub fn run(files: &Vec<LogFile>) -> (r: Result<ExportSinks, Failure>)
    ensures
        is_outcome(files_of(files@), r),
{
    let mut sinks = match get_result_writers() {
        Ok(sinks) => sinks,
        Err(e) => {
            return Err(Failure { file: 0, cause: ExportError::Write(e) });
        },
    };
    let ghost all = files_of(files@);
    let mut i: usize = 0;
    proof {
        lemma_no_lines();
        assert(all.take(0) =~= Seq::<FileText>::empty());
        assert(sinks.writer_csv@ =~= csv_row(header()) + rows_of(lines_of_all(all.take(0))));
    }
    while i < files.len()
        invariant
            i <= files.len(),
            all == files_of(files@),
            first_unreadable(all.take(i as int)) == i,
            sinks.writer_csv@ == csv_row(header()) + rows_of(lines_of_all(all.take(i as int))),
            sinks.writer_error@ == rejects_of(lines_of_all(all.take(i as int))),
        decreases files.len() - i,
    {
        let file = &files[i];
        let ghost read = all.take(i as int);
        let ghost next = all.take(i + 1);
        proof {
            assert(all[i as int] == file@);
            assert(next.drop_last() =~= read);
            assert(next.last() == all[i as int]);
        }
        match export_to_csv(file.pathname.as_str(), file.content.as_slice(), &mut sinks) {
            Ok(()) => {
                proof {
                    let lines = lines_in_file(file@.pathname, file@.content)->Ok_0;
                    lemma_more_lines(lines_of_all(read), lines);
                    assert(sinks.writer_csv@ =~= csv_row(header()) + rows_of(lines_of_all(next)));
                }
            },
            Err(cause) => {
                proof {
                    assert(first_unreadable(next) == i);
                    lemma_first_unreadable_found(next, all.skip(i + 1));
                    assert(next + all.skip(i + 1) =~= all);
                }
                return Err(Failure { file: i, cause });
            },
        }
        i += 1;
    }
    proof {
        assert(all.take(i as int) =~= all);
    }
    Ok(sinks)
}

/// A run on the same files comes to the same bytes again, or stops at the same
/// file for the same reason.
pub proof fn lemma_run_again(
    files: Seq<FileText>,
    first: Result<ExportSinks, Failure>,
    second: Result<ExportSinks, Failure>,
)
    requires
        is_outcome(files, first),
        is_outcome(files, second),
    ensures
        first is Ok <==> second is Ok,
        first is Ok ==> first->Ok_0.writer_csv@ == second->Ok_0.writer_csv@,
        first is Ok ==> first->Ok_0.writer_error@ == second->Ok_0.writer_error@,
        first is Err ==> first->Err_0 == second->Err_0,
{
}

/// True when two files are read alike: they hold the same bytes, and the name
/// of both or of neither ends in `.gz`.
pub open spec fn read_alike(first: FileText, second: FileText) -> bool {
    &&& first.content == second.content
    &&& ends_with(first.pathname, gz_suffix()) == ends_with(second.pathname, gz_suffix())
}

/// Files that are read alike have the same lines, and stop at the same file.
proof fn lemma_read_alike(first: Seq<FileText>, second: Seq<FileText>)
    requires
        first.len() == second.len(),
        forall|i: int| 0 <= i < first.len() ==> read_alike(#[trigger] first[i], second[i]),
    ensures
        first_unreadable(first) == first_unreadable(second),
        lines_of_all(first) == lines_of_all(second),
    decreases first.len(),
{
    if first.len() > 0 {
        let front = first.drop_last();
        let other = second.drop_last();
        assert forall|i: int| 0 <= i < front.len() implies read_alike(
            #[trigger] front[i],
            other[i],
        ) by {
            assert(read_alike(first[i], second[i]));
        }
        lemma_read_alike(front, other);
        assert(read_alike(first[first.len() - 1], second[first.len() - 1]));
    }
}

/// What a run comes to goes by the bytes of the files and by which of their
/// names end in `.gz`, and by nothing else: not by where the files lie.
pub proof fn lemma_run_goes_by_bytes(first: Seq<FileText>, second: Seq<FileText>)
    requires
        first.len() == second.len(),
        forall|i: int| 0 <= i < first.len() ==> read_alike(#[trigger] first[i], second[i]),
    ensures
        exported(first) == exported(second),
{
    lemma_read_alike(first, second);
    lemma_first_unreadable(first);
    let stop = first_unreadable(first);
    if stop < first.len() {
        assert(read_alike(first[stop], second[stop]));
    }
}

/// The number of the first file that cannot be read lies within the files or
/// is their number.
proof fn lemma_first_unreadable(files: Seq<FileText>)
    ensures
        0 <= first_unreadable(files) <= files.len(),
    decreases files.len(),
{
    if files.len() > 0 {
        lemma_first_unreadable(files.drop_last());
    }
}

/// The files that a run on the directory `pathname` reads, where the
/// directory holds `names` and the file of each name holds `content_of` it:
/// the logs in their order.
pub open spec fn files_in(
    pathname: Seq<u8>,
    names: Seq<Seq<u8>>,
    content_of: spec_fn(Seq<u8>) -> Seq<u8>,
) -> Seq<FileText> {
    ordered(names).map_values(
        |name: Seq<u8>| FileText { pathname: joined(pathname, name), content: content_of(name) },
    )
}

/// What a run on a directory comes to goes by the names of its logs and by
/// their bytes, and by nothing else: two directories that hold the same names
/// with the same bytes give the same table and the same rejected lines,
/// wherever they lie and in whatever order their names are listed.
pub proof fn lemma_run_goes_by_names_and_bytes(
    pathname: Seq<u8>,
    names: Seq<Seq<u8>>,
    other_pathname: Seq<u8>,
    listed: Seq<Seq<u8>>,
    content_of: spec_fn(Seq<u8>) -> Seq<u8>,
)
    requires
        names.to_multiset() == listed.to_multiset(),
    ensures
        exported(files_in(pathname, names, content_of)) == exported(
            files_in(other_pathname, listed, content_of),
        ),
{
    let first = files_in(pathname, names, content_of);
    let second = files_in(other_pathname, listed, content_of);
    lemma_order_ignores_listing(names, listed);
    lemma_gz_suffix();
    assert(log_name().len() == 10) by {
        reveal_strlit("access.log");
        vstd::utf8::is_ascii_chars_encode_utf8("access.log"@);
    }
    assert forall|i: int| 0 <= i < first.len() implies read_alike(
        #[trigger] first[i],
        second[i],
    ) by {
        let name = ordered(names)[i];
        lemma_ordered_names(names, i);
        assert(is_log_name(name));
        lemma_joined_ends(pathname, name, gz_suffix());
        lemma_joined_ends(other_pathname, name, gz_suffix());
    }
    lemma_run_goes_by_bytes(first, second);
}

/// A run on one log that can be read writes the header and a row for each
/// record among its lines, and each other line to the rejected lines, all in
/// the order of the lines; no line is left out and none is written twice.
pub proof fn lemma_run_on_one_log(file: FileText)
    requires
        lines_in_file(file.pathname, file.content) is Ok,
    ensures
        ({
            let lines = lines_in_file(file.pathname, file.content)->Ok_0;
            &&& exported(seq![file]) == Ok::<(Seq<u8>, Seq<u8>), Failure>(
                (csv_row(header()) + rows_of(lines), rejects_of(lines)),
            )
            &&& rows_of(lines) == records(lines).flat_map(
                |line: Seq<u8>| csv_row(fields_of(line)),
            )
            &&& rejects_of(lines) == rejected(lines).flat_map(
                |line: Seq<u8>| line + seq![LINE_FEED],
            )
            &&& records(lines).len() + rejected(lines).len() == lines.len()
        }),
{
    reveal(rows_of);
    reveal(rejects_of);
    let files = seq![file];
    let lines = lines_in_file(file.pathname, file.content)->Ok_0;
    assert(files.drop_last() =~= Seq::<FileText>::empty());
    assert(files.last() == file);
    assert(first_unreadable(files.drop_last()) == 0);
    assert(first_unreadable(files) == 1);
    assert(lines_of_all(files.drop_last()) =~= Seq::<Seq<u8>>::empty());
    assert(lines_of_all(files) =~= lines);
    lemma_every_line_counts(lines);
}

} // verus!
