//! Where the two results of a run are written: beside the file that was read,
//! or in the directory that was read.
use crate::m_log::{Log, LogText};
use crate::text::{
    ends_with, lemma_ascii_literal, lemma_boundary, lemma_boundary_around_ascii, push_text,
    slice, SLASH,
};
use crate::write_file::{csv_row, write_to_file_result, WriteError};
use vstd::prelude::*;
use vstd::string::*;
use vstd::utf8::*;

verus! {

/// The name of the table.
pub open spec fn table_name() -> Seq<u8> {
    "result.csv".spec_bytes()
}

/// The name of the text of rejected lines.
pub open spec fn rejects_name() -> Seq<u8> {
    "error.txt".spec_bytes()
}

/// The path of `name` in the directory `directory`: the two with a slash
/// between them, unless the directory is the empty path or ends in a slash.
pub open spec fn joined(directory: Seq<u8>, name: Seq<u8>) -> Seq<u8> {
    if directory.len() == 0 || directory.last() == SLASH {
        directory + name
    } else {
        directory + seq![SLASH] + name
    }
}

/// The length of the directory part of `path`: all up to its last slash, the
/// slash included; nothing where `path` has no slash.
pub open spec fn directory_len(path: Seq<u8>) -> int
    decreases path.len(),
{
    if path.len() == 0 {
        0
    } else if path.last() == SLASH {
        path.len() as int
    } else {
        directory_len(path.drop_last())
    }
}

/// The directory that holds `path`, with the slash at its end.
pub open spec fn directory_of(path: Seq<u8>) -> Seq<u8> {
    path.subrange(0, directory_len(path))
}

/// Where a run on `path` writes `name`: beside `path` where that is a file,
/// else in it.
pub open spec fn result_path(path: Seq<u8>, is_file: bool, name: Seq<u8>) -> Seq<u8> {
    if is_file {
        joined(directory_of(path), name)
    } else {
        joined(path, name)
    }
}

/// A path in a directory ends as the name in it ends.
pub proof fn lemma_joined_ends(directory: Seq<u8>, name: Seq<u8>, suffix: Seq<u8>)
    requires
        suffix.len() <= name.len(),
    ensures
        ends_with(joined(directory, name), suffix) == ends_with(name, suffix),
{
    let path = joined(directory, name);
    assert(path.subrange(path.len() - suffix.len(), path.len() as int) =~= name.subrange(
        name.len() - suffix.len(),
        name.len() as int,
    ));
}

/// The directory part of a path ends within it, behind a slash or at 0.
pub proof fn lemma_directory_len(path: Seq<u8>)
    ensures
        0 <= directory_len(path) <= path.len(),
        directory_len(path) > 0 ==> path[directory_len(path) - 1] == SLASH,
        forall|i: int| directory_len(path) <= i < path.len() ==> path[i] != SLASH,
    decreases path.len(),
{
    if path.len() > 0 && path.last() != SLASH {
        let front = path.drop_last();
        lemma_directory_len(front);
        assert forall|i: int| directory_len(path) <= i < path.len() implies path[i] != SLASH by {
            if i < front.len() {
                assert(path[i] == front[i]);
            }
        }
    }
}

/// The path of `name` in `directory`.
pub fn join(directory: &str, name: &str) -> (r: String)
    ensures
        encode_utf8(r@) == joined(directory.spec_bytes(), name.spec_bytes()),
{
    let bytes = directory.as_bytes();
    let mut r = directory.to_owned();
    if bytes.len() > 0 && bytes[bytes.len() - 1] != SLASH {
        proof {
            reveal_strlit("/");
            lemma_ascii_literal("/", SLASH);
        }
        push_text(&mut r, "/");
    }
    push_text(&mut r, name);
    r
}

/// The directory that holds `path`, with the slash at its end.
pub fn directory<'a>(path: &'a str) -> (r: &'a str)
    ensures
        r.spec_bytes() == directory_of(path.spec_bytes()),
{
    broadcast use encode_utf8_valid_utf8;

    let bytes = path.as_bytes();
    let mut end: usize = bytes.len();
    proof {
        assert(bytes@.subrange(0, end as int) =~= bytes@);
    }
    while end > 0 && bytes[end - 1] != SLASH
        invariant
            end <= bytes.len(),
            directory_len(bytes@) == directory_len(bytes@.subrange(0, end as int)),
        decreases end,
    {
        proof {
            let front = bytes@.subrange(0, end as int);
            assert(front.drop_last() =~= bytes@.subrange(0, end - 1));
        }
        end -= 1;
    }
    proof {
        let front = bytes@.subrange(0, end as int);
        lemma_boundary(bytes@, 0);
        is_char_boundary_start_end_of_seq(bytes@);
        if end > 0 {
            assert(front.last() == SLASH);
            lemma_boundary_around_ascii(bytes@, end - 1);
        }
    }
    slice(path, 0, end)
}

/// The paths of the table and of the rejected lines for a run on `pathname`,
/// which names a file if `is_file` and is taken for a directory if not.
pub fn get_paths_to_work_with(pathname: &str, is_file: bool) -> (r: (String, String))
    ensures
        encode_utf8(r.0@) == result_path(pathname.spec_bytes(), is_file, table_name()),
        encode_utf8(r.1@) == result_path(pathname.spec_bytes(), is_file, rejects_name()),
{
    let path_without_filename = if is_file {
        directory(pathname)
    } else {
        pathname
    };
    (join(path_without_filename, "result.csv"), join(path_without_filename, "error.txt"))
}

/// The two results of a run while it goes on: the table, and the lines that
/// are no records.
pub struct ExportSinks {
    pub writer_csv: Vec<u8>,
    pub writer_error: Vec<u8>,
}

/// The names of the eight fields, in their order.
pub open spec fn header() -> LogText {
    LogText {
        remote_addr: "remote_addr".spec_bytes(),
        remote_user: "remote_user".spec_bytes(),
        time_local: "time_local".spec_bytes(),
        request: "request".spec_bytes(),
        status: "status".spec_bytes(),
        body_bytes_sent: "body_bytes_sent".spec_bytes(),
        http_referer: "http_referer".spec_bytes(),
        http_user_agent: "http_user_agent".spec_bytes(),
    }
}

/// The results of a run that has read nothing yet: a table that holds the row
/// of the fields' names, and no rejected line.
pub fn get_result_writers() -> (r: Result<ExportSinks, WriteError>)
    ensures
        r is Ok,
        r->Ok_0.writer_csv@ == csv_row(header()),
        r->Ok_0.writer_error@ == Seq::<u8>::empty(),
{
    let names = Log {
        remote_addr: "remote_addr",
        remote_user: "remote_user",
        time_local: "time_local",
        request: "request",
        status: "status",
        body_bytes_sent: "body_bytes_sent",
        http_referer: "http_referer",
        http_user_agent: "http_user_agent",
    };
    let mut writer_csv: Vec<u8> = Vec::new();
    match write_to_file_result(&names, &mut writer_csv) {
        Ok(()) => {
            proof {
                assert(writer_csv@ =~= csv_row(header()));
            }
            Ok(ExportSinks { writer_csv, writer_error: Vec::new() })
        },
        Err(e) => Err(e),
    }
}

} // verus!
