//! What holds of the combined format and of the way its lines are read: the
//! lines that the format writes are read back as they were written, and lines
//! that lack a delimiter or have a quote too many are no records.
use crate::m_log::{
    delimiter, lemma_located, lemma_located_order, lemma_located_run_out, located, matches_format,
    parse, LogText, DELIMITERS,
};
use crate::text::{
    count, count_between, find, free_between, free_of, lemma_count_found, lemma_count_free,
    lemma_count_more, lemma_count_one, lemma_count_some, lemma_count_split, lemma_find,
    lemma_find_from, CLOSING_BRACKET, DASH, OPENING_BRACKET, QUOTE, SPACE,
};
use vstd::prelude::*;

verus! {

/// True when each field keeps clear of the delimiter that ends it: no space in
/// the address and the status, no `[` in the user, no `]` in the time, no quote
/// in the request, the status, the size, the referer and the user agent.
pub open spec fn well_formed(fields: LogText) -> bool {
    &&& free_of(fields.remote_addr, SPACE)
    &&& free_of(fields.remote_user, OPENING_BRACKET)
    &&& free_of(fields.time_local, CLOSING_BRACKET)
    &&& free_of(fields.request, QUOTE)
    &&& free_of(fields.status, SPACE)
    &&& free_of(fields.status, QUOTE)
    &&& free_of(fields.body_bytes_sent, QUOTE)
    &&& free_of(fields.http_referer, QUOTE)
    &&& free_of(fields.http_user_agent, QUOTE)
}

/// The line that the combined format writes for `fields`:
/// `addr - user [time] "request" status size "referer" "agent"`.
pub open spec fn combined_line(fields: LogText) -> Seq<u8> {
    fields.remote_addr + seq![SPACE] + seq![DASH] + seq![SPACE] + fields.remote_user + seq![SPACE]
        + seq![OPENING_BRACKET] + fields.time_local + seq![CLOSING_BRACKET] + seq![SPACE] + seq![
        QUOTE,
    ] + fields.request + seq![QUOTE] + seq![SPACE] + fields.status + seq![SPACE]
        + fields.body_bytes_sent + seq![SPACE] + seq![QUOTE] + fields.http_referer + seq![QUOTE]
        + seq![SPACE] + seq![QUOTE] + fields.http_user_agent + seq![QUOTE]
}

/// True when the scan, having read all of `read`, has found delimiters at
/// `places`, and no more.
#[verifier::opaque]
spec fn has_found(read: Seq<u8>, places: Seq<int>) -> bool {
    &&& located(read, places.len()) == read.len()
    &&& forall|j: int|
        0 <= j < places.len() ==> located(read, j as nat) == #[trigger] places[j] < read.len()
}

/// A byte found in `read` is found at the same place in any longer line.
proof fn lemma_find_in_longer(read: Seq<u8>, more: Seq<u8>, byte: u8, from: int)
    requires
        0 <= from <= read.len(),
        find(read, byte, from) < read.len(),
    ensures
        find(read + more, byte, from) == find(read, byte, from),
    decreases read.len() - from,
{
    if read[from] != byte {
        lemma_find_in_longer(read, more, byte, from + 1);
    }
}

/// A search behind `read` is a search in what follows it.
proof fn lemma_find_behind(read: Seq<u8>, more: Seq<u8>, byte: u8, from: int)
    requires
        0 <= from <= more.len(),
    ensures
        find(read + more, byte, read.len() + from) == read.len() + find(more, byte, from),
    decreases more.len() - from,
{
    if from < more.len() && more[from] != byte {
        lemma_find_behind(read, more, byte, from + 1);
    }
}

/// A byte not found in `read` is looked for in what follows it.
proof fn lemma_find_goes_on(read: Seq<u8>, more: Seq<u8>, byte: u8, from: int)
    requires
        0 <= from <= read.len(),
        find(read, byte, from) == read.len(),
    ensures
        find(read + more, byte, from) == read.len() + find(more, byte, 0),
{
    lemma_find(read, byte, from);
    lemma_find_from(read + more, byte, from, read.len() as int);
    lemma_find_behind(read, more, byte, 0);
}

/// A delimiter found in `read` is found at the same place in any longer line.
proof fn lemma_located_in_longer(read: Seq<u8>, more: Seq<u8>, k: nat)
    requires
        located(read, k) < read.len(),
    ensures
        located(read + more, k) == located(read, k),
    decreases k,
{
    lemma_located(read, k);
    if k == 0 {
        lemma_find_in_longer(read, more, delimiter(0), 0);
    } else {
        let before = (k - 1) as nat;
        lemma_located(read, before);
        lemma_located_in_longer(read, more, before);
        lemma_find_in_longer(read, more, delimiter(k as int), located(read, before) + 1);
    }
}

/// Reading on through bytes that are not the delimiter looked for finds nothing
/// new.
proof fn lemma_scan_passes(read: Seq<u8>, more: Seq<u8>, places: Seq<int>)
    requires
        has_found(read, places),
        free_of(more, delimiter(places.len() as int)),
    ensures
        has_found(read + more, places),
{
    reveal(has_found);
    let k = places.len();
    assert forall|j: int| 0 <= j < k implies located(read + more, j as nat)
        == #[trigger] places[j] by {
        assert(places[j] < read.len());
        lemma_located_in_longer(read, more, j as nat);
    }
    lemma_find(more, delimiter(k as int), 0);
    if k == 0 {
        lemma_find_goes_on(read, more, delimiter(0), 0);
    } else {
        let before = (k - 1) as nat;
        assert(places[before as int] < read.len());
        lemma_located(read, before);
        lemma_located_in_longer(read, more, before);
        lemma_find_goes_on(read, more, delimiter(k as int), located(read, before) + 1);
    }
}

/// Reading the delimiter looked for finds it where it stands.
proof fn lemma_scan_finds(read: Seq<u8>, places: Seq<int>)
    requires
        has_found(read, places),
    ensures
        has_found(read + seq![delimiter(places.len() as int)], places.push(read.len() as int)),
{
    reveal(has_found);
    let k = places.len();
    let more = seq![delimiter(k as int)];
    assert forall|j: int| 0 <= j < k implies located(read + more, j as nat)
        == #[trigger] places[j] by {
        assert(places[j] < read.len());
        lemma_located_in_longer(read, more, j as nat);
    }
    if k == 0 {
        lemma_find_goes_on(read, more, delimiter(0), 0);
    } else {
        let before = (k - 1) as nat;
        assert(places[before as int] < read.len());
        lemma_located(read, before);
        lemma_located_in_longer(read, more, before);
        lemma_find_goes_on(read, more, delimiter(k as int), located(read, before) + 1);
    }
    assert(located(read + more, k) == read.len());
    assert(located(read + more, k + 1) == find(
        read + more,
        delimiter(k + 1 as int),
        located(read + more, k) + 1,
    ));
}

/// A line that lacks one of the delimiters of the format is no record: so one
/// without a `]`, without a `[`, with no space or with no quote.
pub proof fn lemma_missing_delimiter(line: Seq<u8>, k: nat)
    requires
        k < DELIMITERS,
        free_of(line, delimiter(k as int)),
    ensures
        parse(line) is None,
{
    lemma_located(line, k);
    lemma_located_run_out(line, k, 11);
}

/// A line with a quote behind the one that closes the user agent is no record.
pub proof fn lemma_quote_too_many(line: Seq<u8>, at: int)
    requires
        located(line, 11) < at < line.len(),
        line[at] == QUOTE,
    ensures
        parse(line) is None,
{
    lemma_located(line, 11);
    lemma_find(line, QUOTE, located(line, 11) + 1);
}

/// From `from` up to and with the next quote at `at` there is one quote.
proof fn lemma_one_quote(line: Seq<u8>, from: int, at: int)
    requires
        0 <= from <= at < line.len(),
        free_between(line, QUOTE, from, at),
        line[at] == QUOTE,
    ensures
        count_between(line, QUOTE, from, at + 1) == 1,
{
    lemma_count_free(line, QUOTE, from, at);
}

/// A record's line holds six quotes behind the `]` at the end of the time and
/// no more: those round the request, the referer and the user agent.
pub proof fn lemma_record_quotes(line: Seq<u8>)
    requires
        matches_format(line),
    ensures
        count_between(line, QUOTE, located(line, 3), line.len() as int) == 6,
{
    let end = line.len() as int;
    let d3 = located(line, 3);
    let d4 = located(line, 4);
    let d5 = located(line, 5);
    let d7 = located(line, 7);
    let d8 = located(line, 8);
    let d9 = located(line, 9);
    let d10 = located(line, 10);
    let d11 = located(line, 11);
    lemma_located_order(line, 10, 11);
    lemma_located_order(line, 9, 10);
    lemma_located_order(line, 8, 9);
    lemma_located_order(line, 7, 8);
    lemma_located_order(line, 5, 7);
    lemma_located_order(line, 4, 5);
    lemma_located_order(line, 3, 4);
    lemma_located(line, 3);
    lemma_located(line, 4);
    lemma_located(line, 5);
    lemma_located(line, 7);
    lemma_located(line, 8);
    lemma_located(line, 9);
    lemma_located(line, 10);
    lemma_located(line, 11);
    lemma_find(line, QUOTE, d3 + 1);
    lemma_find(line, QUOTE, d4 + 1);
    lemma_find(line, QUOTE, d7 + 1);
    lemma_find(line, QUOTE, d8 + 1);
    lemma_find(line, QUOTE, d9 + 1);
    lemma_find(line, QUOTE, d10 + 1);
    lemma_find(line, QUOTE, d11 + 1);
    assert(located(line, 12) == find(line, QUOTE, d11 + 1));
    lemma_one_quote(line, d3, d4);
    lemma_one_quote(line, d4 + 1, d5);
    lemma_one_quote(line, d5 + 1, d8);
    lemma_one_quote(line, d8 + 1, d9);
    lemma_one_quote(line, d9 + 1, d10);
    lemma_one_quote(line, d10 + 1, d11);
    lemma_count_free(line, QUOTE, d11 + 1, end);
    lemma_count_split(line, QUOTE, d3, d4 + 1, end);
    lemma_count_split(line, QUOTE, d4 + 1, d5 + 1, end);
    lemma_count_split(line, QUOTE, d5 + 1, d8 + 1, end);
    lemma_count_split(line, QUOTE, d8 + 1, d9 + 1, end);
    lemma_count_split(line, QUOTE, d9 + 1, d10 + 1, end);
    lemma_count_split(line, QUOTE, d10 + 1, d11 + 1, end);
}

/// A line with fewer than six quotes is no record.
pub proof fn lemma_too_few_quotes(line: Seq<u8>)
    requires
        count(line, QUOTE) < 6,
    ensures
        parse(line) is None,
{
    if matches_format(line) {
        lemma_record_quotes(line);
        lemma_located(line, 3);
        lemma_count_split(line, QUOTE, 0, located(line, 3), line.len() as int);
    }
}

/// A line with fewer than four spaces is no record.
pub proof fn lemma_too_few_spaces(line: Seq<u8>)
    requires
        count(line, SPACE) < 4,
    ensures
        parse(line) is None,
{
    if matches_format(line) {
        let end = line.len() as int;
        let d0 = located(line, 0);
        let d1 = located(line, 1);
        let d6 = located(line, 6);
        let d7 = located(line, 7);
        lemma_located_order(line, 7, 11);
        lemma_located_order(line, 6, 7);
        lemma_located_order(line, 1, 6);
        lemma_located_order(line, 0, 1);
        lemma_located(line, 0);
        lemma_located(line, 1);
        lemma_located(line, 6);
        lemma_located(line, 7);
        lemma_count_found(line, SPACE, 0, d0, d0 + 1);
        lemma_count_found(line, SPACE, d0 + 1, d1, d1 + 1);
        lemma_count_found(line, SPACE, d1 + 1, d6, d6 + 1);
        lemma_count_found(line, SPACE, d6 + 1, d7, d7 + 1);
        lemma_count_split(line, SPACE, 0, d0 + 1, end);
        lemma_count_split(line, SPACE, d0 + 1, d1 + 1, end);
        lemma_count_split(line, SPACE, d1 + 1, d6 + 1, end);
        lemma_count_split(line, SPACE, d6 + 1, d7 + 1, end);
    }
}

/// The line written for `fields` up to and with the `]` behind the time.
spec fn line_to_time(fields: LogText) -> Seq<u8> {
    fields.remote_addr + seq![SPACE] + seq![DASH] + seq![SPACE] + fields.remote_user + seq![SPACE]
        + seq![OPENING_BRACKET] + fields.time_local + seq![CLOSING_BRACKET]
}

/// Where the first four delimiters stand in the line written for `fields`.
spec fn places_to_time(fields: LogText) -> Seq<int> {
    let d0 = fields.remote_addr.len() as int;
    let d1 = d0 + 2;
    let d2 = d1 + fields.remote_user.len() + 2;
    let d3 = d2 + fields.time_local.len() + 1;
    seq![d0, d1, d2, d3]
}

/// In a line written up to the time the scan finds the first four delimiters,
/// the `]` at the end.
proof fn lemma_scan_to_time(fields: LogText)
    requires
        free_of(fields.remote_addr, SPACE),
        free_of(fields.remote_user, OPENING_BRACKET),
        free_of(fields.time_local, CLOSING_BRACKET),
    ensures
        has_found(line_to_time(fields), places_to_time(fields)),
        places_to_time(fields)[3] == line_to_time(fields).len() - 1,
{
    let sp = seq![SPACE];
    let none = Seq::<u8>::empty();
    let s0 = none + fields.remote_addr;
    let s1 = s0 + sp;
    let s2 = s1 + seq![DASH];
    let s3 = s2 + sp;
    let s4 = s3 + fields.remote_user;
    let s5 = s4 + sp;
    let s6 = s5 + seq![OPENING_BRACKET];
    let s7 = s6 + fields.time_local;
    let s8 = s7 + seq![CLOSING_BRACKET];
    let at0 = Seq::<int>::empty();
    let at1 = at0.push(s0.len() as int);
    let at2 = at1.push(s2.len() as int);
    let at3 = at2.push(s5.len() as int);
    let at4 = at3.push(s7.len() as int);
    assert(has_found(none, at0)) by {
        reveal(has_found);
    }
    lemma_scan_passes(none, fields.remote_addr, at0);
    lemma_scan_finds(s0, at0);
    lemma_scan_passes(s1, seq![DASH], at1);
    lemma_scan_finds(s2, at1);
    lemma_scan_passes(s3, fields.remote_user, at2);
    lemma_scan_passes(s4, sp, at2);
    lemma_scan_finds(s5, at2);
    lemma_scan_passes(s6, fields.time_local, at3);
    lemma_scan_finds(s7, at3);
    assert(s0 == fields.remote_addr);
    assert(line_to_time(fields) == s8);
    assert(at4 =~= places_to_time(fields));
}

/// The line written for `fields` behind the `]` that ends the time.
spec fn line_from_request(fields: LogText) -> Seq<u8> {
    seq![SPACE] + seq![QUOTE] + fields.request + seq![QUOTE] + seq![SPACE] + fields.status + seq![
        SPACE,
    ] + fields.body_bytes_sent + seq![SPACE] + seq![QUOTE] + fields.http_referer + seq![QUOTE]
        + seq![SPACE] + seq![QUOTE] + fields.http_user_agent + seq![QUOTE]
}

/// Behind the time a written line holds six quotes and those of its fields.
proof fn lemma_quotes_from_request(fields: LogText)
    ensures
        count(line_from_request(fields), QUOTE) == 6 + count(fields.request, QUOTE) + count(
            fields.status,
            QUOTE,
        ) + count(fields.body_bytes_sent, QUOTE) + count(fields.http_referer, QUOTE) + count(
            fields.http_user_agent,
            QUOTE,
        ),
{
    let sp = seq![SPACE];
    let qu = seq![QUOTE];
    let t0 = Seq::<u8>::empty() + sp;
    let t1 = t0 + qu;
    let t2 = t1 + fields.request;
    let t3 = t2 + qu;
    let t4 = t3 + sp;
    let t5 = t4 + fields.status;
    let t6 = t5 + sp;
    let t7 = t6 + fields.body_bytes_sent;
    let t8 = t7 + sp;
    let t9 = t8 + qu;
    let t10 = t9 + fields.http_referer;
    let t11 = t10 + qu;
    let t12 = t11 + sp;
    let t13 = t12 + qu;
    let t14 = t13 + fields.http_user_agent;
    let t15 = t14 + qu;
    lemma_count_one(SPACE, QUOTE);
    lemma_count_one(QUOTE, QUOTE);
    lemma_count_more(Seq::<u8>::empty(), sp, QUOTE, 0);
    lemma_count_more(t0, qu, QUOTE, 0);
    lemma_count_more(t1, fields.request, QUOTE, 0);
    lemma_count_more(t2, qu, QUOTE, 0);
    lemma_count_more(t3, sp, QUOTE, 0);
    lemma_count_more(t4, fields.status, QUOTE, 0);
    lemma_count_more(t5, sp, QUOTE, 0);
    lemma_count_more(t6, fields.body_bytes_sent, QUOTE, 0);
    lemma_count_more(t7, sp, QUOTE, 0);
    lemma_count_more(t8, qu, QUOTE, 0);
    lemma_count_more(t9, fields.http_referer, QUOTE, 0);
    lemma_count_more(t10, qu, QUOTE, 0);
    lemma_count_more(t11, sp, QUOTE, 0);
    lemma_count_more(t12, qu, QUOTE, 0);
    lemma_count_more(t13, fields.http_user_agent, QUOTE, 0);
    lemma_count_more(t14, qu, QUOTE, 0);
    assert(t0 == sp);
    assert(line_from_request(fields) == t15);
}

/// A line written with a quote inside the request, the referer or the user
/// agent is no record.
pub proof fn lemma_quote_in_quoted_field(fields: LogText)
    requires
        free_of(fields.remote_addr, SPACE),
        free_of(fields.remote_user, OPENING_BRACKET),
        free_of(fields.time_local, CLOSING_BRACKET),
        !free_of(fields.request, QUOTE) || !free_of(fields.http_referer, QUOTE) || !free_of(
            fields.http_user_agent,
            QUOTE,
        ),
    ensures
        parse(combined_line(fields)) is None,
{
    let line = combined_line(fields);
    let front = line_to_time(fields);
    let back = line_from_request(fields);
    assert(line =~= front + back);
    lemma_scan_to_time(fields);
    assert(located(front, 3) == front.len() - 1) by {
        reveal(has_found);
    }
    lemma_located_in_longer(front, back, 3);
    lemma_quotes_from_request(fields);
    lemma_count_more(front, back, QUOTE, front.len() - 1);
    if !free_of(fields.request, QUOTE) {
        lemma_count_some(fields.request, QUOTE);
    } else if !free_of(fields.http_referer, QUOTE) {
        lemma_count_some(fields.http_referer, QUOTE);
    } else {
        lemma_count_some(fields.http_user_agent, QUOTE);
    }
    if matches_format(line) {
        lemma_record_quotes(line);
    }
}

/// Where the delimiters stand in the line that the combined format writes for
/// `fields`.
spec fn places_in(fields: LogText) -> Seq<int> {
    let d0 = fields.remote_addr.len() as int;
    let d1 = d0 + 2;
    let d2 = d1 + fields.remote_user.len() + 2;
    let d3 = d2 + fields.time_local.len() + 1;
    let d4 = d3 + 2;
    let d5 = d4 + fields.request.len() + 1;
    let d6 = d5 + 1;
    let d7 = d6 + fields.status.len() + 1;
    let d8 = d7 + fields.body_bytes_sent.len() + 2;
    let d9 = d8 + fields.http_referer.len() + 1;
    let d10 = d9 + 2;
    let d11 = d10 + fields.http_user_agent.len() + 1;
    seq![d0, d1, d2, d3, d4, d5, d6, d7, d8, d9, d10, d11]
}

/// In the line written for well-formed fields the scan finds the twelve
/// delimiters that the format put there.
proof fn lemma_scan_of_combined_line(fields: LogText)
    requires
        well_formed(fields),
    ensures
        has_found(combined_line(fields), places_in(fields)),
{
    let sp = seq![SPACE];
    let qu = seq![QUOTE];
    let s8 = line_to_time(fields);
    let s9 = s8 + sp;
    let s10 = s9 + qu;
    let s11 = s10 + fields.request;
    let s12 = s11 + qu;
    let s13 = s12 + sp;
    let s14 = s13 + fields.status;
    let s15 = s14 + sp;
    let s16 = s15 + fields.body_bytes_sent;
    let s17 = s16 + sp;
    let s18 = s17 + qu;
    let s19 = s18 + fields.http_referer;
    let s20 = s19 + qu;
    let s21 = s20 + sp;
    let s22 = s21 + qu;
    let s23 = s22 + fields.http_user_agent;
    let s24 = s23 + qu;
    let at4 = places_to_time(fields);
    let at5 = at4.push(s9.len() as int);
    let at6 = at5.push(s11.len() as int);
    let at7 = at6.push(s12.len() as int);
    let at8 = at7.push(s14.len() as int);
    let at9 = at8.push(s17.len() as int);
    let at10 = at9.push(s19.len() as int);
    let at11 = at10.push(s21.len() as int);
    let at12 = at11.push(s23.len() as int);
    lemma_scan_to_time(fields);
    lemma_scan_passes(s8, sp, at4);
    lemma_scan_finds(s9, at4);
    lemma_scan_passes(s10, fields.request, at5);
    lemma_scan_finds(s11, at5);
    lemma_scan_finds(s12, at6);
    lemma_scan_passes(s13, fields.status, at7);
    lemma_scan_finds(s14, at7);
    lemma_scan_passes(s15, fields.body_bytes_sent, at8);
    lemma_scan_passes(s16, sp, at8);
    lemma_scan_finds(s17, at8);
    lemma_scan_passes(s18, fields.http_referer, at9);
    lemma_scan_finds(s19, at9);
    lemma_scan_passes(s20, sp, at10);
    lemma_scan_finds(s21, at10);
    lemma_scan_passes(s22, fields.http_user_agent, at11);
    lemma_scan_finds(s23, at11);
    assert(combined_line(fields) == s24);
    assert(at12 =~= places_in(fields));
}

/// True when `fields` are what stands in `line` between the delimiters at
/// `at`, with a space in front of the third and the ninth, and the last
/// delimiter ends the line.
#[verifier::opaque]
spec fn stand_at(line: Seq<u8>, at: Seq<int>, fields: LogText) -> bool {
    &&& at.len() == DELIMITERS
    &&& line.len() == at[11] + 1
    &&& line.subrange(0, at[0]) == fields.remote_addr
    &&& line.subrange(at[1] + 1, at[2] - 1) == fields.remote_user
    &&& line.subrange(at[2] + 1, at[3]) == fields.time_local
    &&& line.subrange(at[4] + 1, at[5]) == fields.request
    &&& line.subrange(at[6] + 1, at[7]) == fields.status
    &&& line.subrange(at[7] + 1, at[8] - 1) == fields.body_bytes_sent
    &&& line.subrange(at[8] + 1, at[9]) == fields.http_referer
    &&& line.subrange(at[10] + 1, at[11]) == fields.http_user_agent
    &&& at[1] + 1 <= at[2] - 1
    &&& at[7] + 1 <= at[8] - 1
    &&& line[at[2] - 1] == SPACE
    &&& line[at[8] - 1] == SPACE
    &&& free_between(line, QUOTE, at[5] + 1, at[7])
}

/// The fields stand in the line written for them between the places of the
/// delimiters.
proof fn lemma_fields_in_combined_line(fields: LogText)
    requires
        free_of(fields.status, QUOTE),
    ensures
        stand_at(combined_line(fields), places_in(fields), fields),
{
    reveal(stand_at);
    let line = combined_line(fields);
    let at = places_in(fields);
    assert(line.len() == at[11] + 1);
    assert(line.subrange(0, at[0]) =~= fields.remote_addr);
    assert(line.subrange(at[1] + 1, at[2] - 1) =~= fields.remote_user);
    assert(line.subrange(at[2] + 1, at[3]) =~= fields.time_local);
    assert(line.subrange(at[4] + 1, at[5]) =~= fields.request);
    assert(line.subrange(at[6] + 1, at[7]) =~= fields.status);
    assert(line.subrange(at[7] + 1, at[8] - 1) =~= fields.body_bytes_sent);
    assert(line.subrange(at[8] + 1, at[9]) =~= fields.http_referer);
    assert(line.subrange(at[10] + 1, at[11]) =~= fields.http_user_agent);
    assert forall|i: int| at[5] + 1 <= i < at[7] implies line[i] != QUOTE by {
        if i > at[6] {
            assert(line[i] == fields.status[i - at[6] - 1]);
        }
    }
}

/// A line in which the scan finds twelve delimiters, with the fields between
/// them, is read as those fields.
proof fn lemma_read_at(line: Seq<u8>, at: Seq<int>, fields: LogText)
    requires
        has_found(line, at),
        stand_at(line, at, fields),
    ensures
        parse(line) == Some(fields),
{
    reveal(has_found);
    reveal(stand_at);
    assert(located(line, 0) == at[0]);
    assert(located(line, 1) == at[1]);
    assert(located(line, 2) == at[2]);
    assert(located(line, 3) == at[3]);
    assert(located(line, 4) == at[4]);
    assert(located(line, 5) == at[5]);
    assert(located(line, 6) == at[6]);
    assert(located(line, 7) == at[7]);
    assert(located(line, 8) == at[8]);
    assert(located(line, 9) == at[9]);
    assert(located(line, 10) == at[10]);
    assert(located(line, 11) == at[11]);
    assert(located(line, 12) == line.len());
    assert(matches_format(line));
}

/// Every line that the combined format writes for well-formed fields is read
/// back as exactly those fields.
pub proof fn lemma_well_formed_line(fields: LogText)
    requires
        well_formed(fields),
    ensures
        parse(combined_line(fields)) == Some(fields),
{
    lemma_scan_of_combined_line(fields);
    lemma_fields_in_combined_line(fields);
    lemma_read_at(combined_line(fields), places_in(fields), fields);
}

} // verus!
