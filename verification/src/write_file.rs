//! Writing what a run finds: a row of the table for each record, and each line
//! that is no record as it was read.
use crate::m_log::{Log, LogText};
use crate::text::{CARRIAGE_RETURN, COMMA, LINE_FEED, QUOTE};
use vstd::prelude::*;
use vstd::string::*;

verus! {

/// The error of the `csv` crate.
#[verifier::external_type_specification]
#[verifier::external_body]
pub struct ExCsvError(csv::Error);

/// Why a row could not be written.
#[derive(Debug, PartialEq, Eq, Clone, Copy)]
pub enum WriteError {
    /// The encoder of the table refused the record.
    Refused,
}

/// True when a field that holds `byte` has to be written in quotes: the byte
/// is a comma, a quote or the end of a line.
pub open spec fn is_special(byte: u8) -> bool {
    byte == COMMA || byte == QUOTE || byte == CARRIAGE_RETURN || byte == LINE_FEED
}

/// True when `field` has to be written in quotes.
pub open spec fn needs_quotes(field: Seq<u8>) -> bool {
    exists|i: int| 0 <= i < field.len() && is_special(#[trigger] field[i])
}

/// `field` with each quote in it written twice.
pub open spec fn doubled_quotes(field: Seq<u8>) -> Seq<u8>
    decreases field.len(),
{
    if field.len() == 0 {
        Seq::empty()
    } else if field.last() == QUOTE {
        doubled_quotes(field.drop_last()) + seq![QUOTE, QUOTE]
    } else {
        doubled_quotes(field.drop_last()).push(field.last())
    }
}

/// How `field` stands in a row: as it is, or between quotes with its own quotes
/// doubled where it has to be quoted.
pub open spec fn csv_field(field: Seq<u8>) -> Seq<u8> {
    if needs_quotes(field) {
        seq![QUOTE] + doubled_quotes(field) + seq![QUOTE]
    } else {
        field
    }
}

/// The row of a record: its eight fields with a comma between each two, and a
/// line feed at the end.
pub open spec fn csv_row(fields: LogText) -> Seq<u8> {
    csv_field(fields.remote_addr) + seq![COMMA] + csv_field(fields.remote_user) + seq![COMMA]
        + csv_field(fields.time_local) + seq![COMMA] + csv_field(fields.request) + seq![COMMA]
        + csv_field(fields.status) + seq![COMMA] + csv_field(fields.body_bytes_sent) + seq![COMMA]
        + csv_field(fields.http_referer) + seq![COMMA] + csv_field(fields.http_user_agent) + seq![
        LINE_FEED,
    ]
}

/// The record that eight fields make, in their order.
pub open spec fn record_of(fields: Seq<&str>) -> LogText {
    LogText {
        remote_addr: fields[0].spec_bytes(),
        remote_user: fields[1].spec_bytes(),
        time_local: fields[2].spec_bytes(),
        request: fields[3].spec_bytes(),
        status: fields[4].spec_bytes(),
        body_bytes_sent: fields[5].spec_bytes(),
        http_referer: fields[6].spec_bytes(),
        http_user_agent: fields[7].spec_bytes(),
    }
}

/// Writes `fields` as one record through a new `csv::Writer` of the default
/// configuration on `writer` (`csv::Writer::from_writer`, `write_record`,
/// `flush`).
///
/// Trusted: the writer puts the fields out in their order, with commas between
/// them and a line feed behind the last; a field that holds a comma, a quote,
/// a carriage return or a line feed goes between quotes with each quote of its
/// own doubled. A new writer takes a record of any width and a `Vec` takes
/// every byte, so the call does not fail.
#[verifier::external_body]
fn write_record(fields: [&str; 8], writer: &mut Vec<u8>) -> (r: Result<(), csv::Error>)
    ensures
        r is Ok,
        final(writer)@ == old(writer)@ + csv_row(record_of(fields@)),
{
    let mut table = csv::Writer::from_writer(writer);
    table.write_record(fields)?;
    table.flush()?;
    Ok(())
}

/// Adds the row of `line` to the table in `writer`.
pub fn write_to_file_result(line: &Log, writer: &mut Vec<u8>) -> (r: Result<(), WriteError>)
    ensures
        r is Ok,
        final(writer)@ == old(writer)@ + csv_row(line@),
{
    let fields = [
        line.remote_addr,
        line.remote_user,
        line.time_local,
        line.request,
        line.status,
        line.body_bytes_sent,
        line.http_referer,
        line.http_user_agent,
    ];
    proof {
        assert(record_of(fields@) == line@);
    }
    match write_record(fields, writer) {
        Ok(()) => Ok(()),
        Err(_) => Err(WriteError::Refused),
    }
}

/// Adds `line` and a line feed to the text in `writer`.
pub fn write_line_to_file(line: &str, writer: &mut Vec<u8>)
    ensures
        final(writer)@ == old(writer)@ + line.spec_bytes() + seq![LINE_FEED],
{
    writer.extend_from_slice(line.as_bytes());
    writer.push(LINE_FEED);
    assert(writer@ =~= old(writer)@ + line.spec_bytes() + seq![LINE_FEED]);
}

/// Adds a line that is no record to the rejected lines in `writer`, as it was
/// read and with a line feed behind it.
pub fn write_to_file_error(line: &str, writer: &mut Vec<u8>)
    ensures
        final(writer)@ == old(writer)@ + line.spec_bytes() + seq![LINE_FEED],
{
    write_line_to_file(line, writer)
}

} // verus!
