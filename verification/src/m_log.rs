//! One line of an access log in the combined format, taken apart into its
//! eight fields by a single scan for the format's delimiters.
use crate::text::{
    at_boundary, find, free_between, lemma_ascii_literal, lemma_boundary,
    lemma_boundary_around_ascii, lemma_find, push_text, slice, CLOSING_BRACKET, COMMA,
    OPENING_BRACKET, QUOTE, SPACE,
};
use vstd::prelude::*;
use vstd::string::*;
use vstd::utf8::*;

verus! {

/// The number of delimiters that the scan finds in a line of the format.
pub const DELIMITERS: usize = 12;

/// The fields of one line, each a part of the line it was read from.
#[derive(Debug, PartialEq)]
pub struct Log<'a> {
    pub remote_addr: &'a str,
    pub remote_user: &'a str,
    pub time_local: &'a str,
    pub request: &'a str,
    pub status: &'a str,
    pub body_bytes_sent: &'a str,
    pub http_referer: &'a str,
    pub http_user_agent: &'a str,
}

/// The eight fields of a record as bytes.
pub struct LogText {
    pub remote_addr: Seq<u8>,
    pub remote_user: Seq<u8>,
    pub time_local: Seq<u8>,
    pub request: Seq<u8>,
    pub status: Seq<u8>,
    pub body_bytes_sent: Seq<u8>,
    pub http_referer: Seq<u8>,
    pub http_user_agent: Seq<u8>,
}

impl<'a> View for Log<'a> {
    type V = LogText;

    open spec fn view(&self) -> LogText {
        LogText {
            remote_addr: self.remote_addr.spec_bytes(),
            remote_user: self.remote_user.spec_bytes(),
            time_local: self.time_local.spec_bytes(),
            request: self.request.spec_bytes(),
            status: self.status.spec_bytes(),
            body_bytes_sent: self.body_bytes_sent.spec_bytes(),
            http_referer: self.http_referer.spec_bytes(),
            http_user_agent: self.http_user_agent.spec_bytes(),
        }
    }
}

impl<'a> Log<'a> {
    /// The fields as they stand, with a comma between each two.
    pub fn to_text(&self) -> (r: String)
        ensures
            encode_utf8(r@) == self@.remote_addr + seq![COMMA] + self@.remote_user + seq![COMMA]
                + self@.time_local + seq![COMMA] + self@.request + seq![COMMA] + self@.status
                + seq![COMMA] + self@.body_bytes_sent + seq![COMMA] + self@.http_referer + seq![
                COMMA,
            ] + self@.http_user_agent,
    {
        proof {
            reveal_strlit(",");
            lemma_ascii_literal(",", COMMA);
        }
        let mut r = String::new();
        assert(encode_utf8(r@) =~= Seq::<u8>::empty());
        push_text(&mut r, self.remote_addr);
        assert(encode_utf8(r@) =~= self@.remote_addr);
        push_text(&mut r, ",");
        push_text(&mut r, self.remote_user);
        push_text(&mut r, ",");
        push_text(&mut r, self.time_local);
        push_text(&mut r, ",");
        push_text(&mut r, self.request);
        push_text(&mut r, ",");
        push_text(&mut r, self.status);
        push_text(&mut r, ",");
        push_text(&mut r, self.body_bytes_sent);
        push_text(&mut r, ",");
        push_text(&mut r, self.http_referer);
        push_text(&mut r, ",");
        push_text(&mut r, self.http_user_agent);
        r
    }
}

/// The byte that the scan looks for once it has found `k` delimiters: two
/// spaces, the brackets round the time, the quotes round the request, two
/// spaces, and from then on quotes.
pub open spec fn delimiter(k: int) -> u8 {
    if k == 0 || k == 1 || k == 6 || k == 7 {
        SPACE
    } else if k == 2 {
        OPENING_BRACKET
    } else if k == 3 {
        CLOSING_BRACKET
    } else {
        QUOTE
    }
}

/// Where the scan finds delimiter `k` (counted from 0): the first
/// `delimiter(k)` behind the delimiter before it. It is the length of `line`
/// where the line has run out.
pub open spec fn located(line: Seq<u8>, k: nat) -> int
    decreases k,
{
    if k == 0 {
        find(line, delimiter(0), 0)
    } else {
        find(line, delimiter(k as int), located(line, (k - 1) as nat) + 1)
    }
}

/// True when the field that starts behind the delimiter at `before` is set off
/// by a space from the delimiter at `at`.
pub open spec fn set_off(line: Seq<u8>, before: int, at: int) -> bool {
    before + 1 < at && line[at - 1] == SPACE
}

/// True when `line` has the combined format: the scan finds exactly twelve
/// delimiters, a space sets the user off from the `[` and the size from the
/// quote that opens the referer, and no quote stands between the request and
/// the size.
pub open spec fn matches_format(line: Seq<u8>) -> bool {
    &&& located(line, 11) < line.len()
    &&& located(line, 12) >= line.len()
    &&& set_off(line, located(line, 1), located(line, 2))
    &&& set_off(line, located(line, 7), located(line, 8))
    &&& free_between(line, QUOTE, located(line, 5) + 1, located(line, 7))
}

/// The fields that the delimiters of `line` mark out.
pub open spec fn fields_of(line: Seq<u8>) -> LogText {
    LogText {
        remote_addr: line.subrange(0, located(line, 0)),
        remote_user: line.subrange(located(line, 1) + 1, located(line, 2) - 1),
        time_local: line.subrange(located(line, 2) + 1, located(line, 3)),
        request: line.subrange(located(line, 4) + 1, located(line, 5)),
        status: line.subrange(located(line, 6) + 1, located(line, 7)),
        body_bytes_sent: line.subrange(located(line, 7) + 1, located(line, 8) - 1),
        http_referer: line.subrange(located(line, 8) + 1, located(line, 9)),
        http_user_agent: line.subrange(located(line, 10) + 1, located(line, 11)),
    }
}

/// What a line is read as: its fields, or nothing where it has not the format.
pub open spec fn parse(line: Seq<u8>) -> Option<LogText> {
    if matches_format(line) {
        Some(fields_of(line))
    } else {
        None
    }
}

/// The delimiters are found from left to right, each on its byte, until the
/// line runs out.
pub proof fn lemma_located(line: Seq<u8>, k: nat)
    ensures
        0 <= located(line, k) <= line.len(),
        located(line, k) < line.len() ==> line[located(line, k)] == delimiter(k as int),
        k > 0 && located(line, k) < line.len() ==> located(line, (k - 1) as nat) < located(
            line,
            k,
        ),
        k > 0 && located(line, (k - 1) as nat) >= line.len() ==> located(line, k) == line.len(),
    decreases k,
{
    if k == 0 {
        lemma_find(line, delimiter(0), 0);
    } else {
        lemma_located(line, (k - 1) as nat);
        let from = located(line, (k - 1) as nat) + 1;
        if from <= line.len() {
            lemma_find(line, delimiter(k as int), from);
        }
    }
}

/// Once the line has run out for one delimiter, it has for all later ones.
pub proof fn lemma_located_run_out(line: Seq<u8>, k: nat, later: nat)
    requires
        k <= later,
        located(line, k) >= line.len(),
    ensures
        located(line, later) == line.len(),
    decreases later - k,
{
    lemma_located(line, k);
    if k < later {
        lemma_located(line, k + 1);
        lemma_located_run_out(line, k + 1, later);
    }
}

/// A delimiter that was found stands behind all those before it.
pub proof fn lemma_located_order(line: Seq<u8>, k: nat, later: nat)
    requires
        k < later,
        located(line, later) < line.len(),
    ensures
        located(line, k) < located(line, later),
    decreases later - k,
{
    lemma_located(line, later);
    if k + 1 < later {
        lemma_located(line, (later - 1) as nat);
        if located(line, (later - 1) as nat) >= line.len() {
            lemma_located_run_out(line, (later - 1) as nat, later);
        }
        lemma_located_order(line, k, (later - 1) as nat);
    }
}

/// The byte that the scan looks for once it has found `k` delimiters.
fn delimiter_at(k: usize) -> (byte: u8)
    ensures
        byte == delimiter(k as int),
{
    if k == 0 || k == 1 || k == 6 || k == 7 {
        SPACE
    } else if k == 2 {
        OPENING_BRACKET
    } else if k == 3 {
        CLOSING_BRACKET
    } else {
        QUOTE
    }
}

/// What a scan of a line comes to.
struct Scan {
    /// Where the delimiters were found, the first `count` entries in order.
    found: [usize; 13],
    /// How many delimiters were found; the thirteenth is one too many and ends
    /// the scan.
    count: usize,
    /// Whether no quote stood between the request and the size.
    clean: bool,
}

/// Scans `line` once from left to right for the delimiters.
fn locate(line: &[u8]) -> (r: Scan)
    ensures
        r.count <= DELIMITERS + 1,
        forall|k: int|
            0 <= k < r.count ==> r.found@[k] == located(line@, k as nat) && r.found@[k]
                < line@.len(),
        r.count <= DELIMITERS ==> located(line@, r.count as nat) >= line@.len(),
        r.count >= 8 ==> r.clean == free_between(
            line@,
            QUOTE,
            located(line@, 5) + 1,
            located(line@, 7),
        ),
{
    let mut found: [usize; 13] = [0, 0, 0, 0, 0, 0, 0, 0, 0, 0, 0, 0, 0];
    let mut count: usize = 0;
    let mut clean: bool = true;
    let mut i: usize = 0;
    while i < line.len() && count <= DELIMITERS
        invariant
            i <= line.len(),
            count <= DELIMITERS + 1,
            forall|k: int|
                0 <= k < count ==> found@[k] == located(line@, k as nat) && found@[k] < i,
            located(line@, count as nat) == find(line@, delimiter(count as int), i as int),
            count <= 5 ==> clean,
            6 <= count <= 7 ==> clean == free_between(
                line@,
                QUOTE,
                located(line@, 5) + 1,
                i as int,
            ),
            count >= 8 ==> clean == free_between(
                line@,
                QUOTE,
                located(line@, 5) + 1,
                located(line@, 7),
            ),
        decreases line.len() - i,
    {
        let wanted = delimiter_at(count);
        proof {
            if count >= 6 {
                assert(found@[5] == located(line@, 5));
            }
            let from = located(line@, 5) + 1;
            if 6 <= count <= 7 {
                if line@[i as int] == QUOTE {
                    assert(!free_between(line@, QUOTE, from, i + 1));
                } else {
                    assert(free_between(line@, QUOTE, from, i + 1) == free_between(
                        line@,
                        QUOTE,
                        from,
                        i as int,
                    ));
                }
            }
        }
        if line[i] == wanted {
            proof {
                assert(located(line@, count as nat) == i);
                assert(located(line@, (count + 1) as nat) == find(
                    line@,
                    delimiter(count + 1 as int),
                    located(line@, count as nat) + 1,
                ));
            }
            found[count] = i;
            count += 1;
        } else if line[i] == QUOTE && (count == 6 || count == 7) {
            clean = false;
        }
        i += 1;
    }
    Scan { found, count, clean }
}

/// Reads one line of an access log (without its line break).
///
/// The line is scanned once for two spaces, `[`, `]`, two quotes, two spaces
/// and then quotes. It is a record when exactly twelve delimiters turn up, so
/// that a quote too many or a delimiter too few makes it none. The fields are
/// the text between the delimiters, as it stands. The user ends at the space
/// in front of the `[` and the size at the space in front of the quote that
/// opens the referer: a line without these spaces is no record, nor is one with
/// a quote between the request and the size.
pub fn get_log<'a>(text: &'a str) -> (r: Option<Log<'a>>)
    ensures
        r is Some <==> matches_format(text.spec_bytes()),
        r matches Some(log) ==> log@ == fields_of(text.spec_bytes()),
{
    broadcast use encode_utf8_valid_utf8;

    let line = text.as_bytes();
    let Scan { found, count, clean } = locate(line);
    proof {
        if count < DELIMITERS {
            lemma_located_run_out(line@, count as nat, 11);
        } else if count > DELIMITERS {
            assert(found@[12] == located(line@, 12));
        }
    }
    if count != DELIMITERS || !clean {
        return None;
    }
    proof {
        assert(found@[0] == located(line@, 0));
        assert(found@[1] == located(line@, 1));
        assert(found@[2] == located(line@, 2));
        assert(found@[3] == located(line@, 3));
        assert(found@[4] == located(line@, 4));
        assert(found@[5] == located(line@, 5));
        assert(found@[6] == located(line@, 6));
        assert(found@[7] == located(line@, 7));
        assert(found@[8] == located(line@, 8));
        assert(found@[9] == located(line@, 9));
        assert(found@[10] == located(line@, 10));
        assert(found@[11] == located(line@, 11));
        lemma_located_order(line@, 1, 2);
        lemma_located_order(line@, 7, 8);
    }
    if found[2] - found[1] < 2 || found[8] - found[7] < 2 {
        return None;
    }
    if line[found[2] - 1] != SPACE || line[found[8] - 1] != SPACE {
        return None;
    }
    proof {
        assert forall|k: nat| k < DELIMITERS implies at_boundary(line@, located(line@, k))
            && at_boundary(line@, located(line@, k) + 1) by {
            lemma_located(line@, k);
            lemma_boundary_around_ascii(line@, located(line@, k));
        }
        lemma_located_order(line@, 2, 3);
        lemma_located_order(line@, 4, 5);
        lemma_located_order(line@, 6, 7);
        lemma_located_order(line@, 8, 9);
        lemma_located_order(line@, 10, 11);
        lemma_located(line@, 0);
        lemma_boundary(line@, 0);
        is_char_boundary_start_end_of_seq(line@);
        lemma_boundary_around_ascii(line@, found@[2] - 1);
        lemma_boundary_around_ascii(line@, found@[8] - 1);
    }
    Some(
        Log {
            remote_addr: slice(text, 0, found[0]),
            remote_user: slice(text, found[1] + 1, found[2] - 1),
            time_local: slice(text, found[2] + 1, found[3]),
            request: slice(text, found[4] + 1, found[5]),
            status: slice(text, found[6] + 1, found[7]),
            body_bytes_sent: slice(text, found[7] + 1, found[8] - 1),
            http_referer: slice(text, found[8] + 1, found[9]),
            http_user_agent: slice(text, found[10] + 1, found[11]),
        },
    )
}

} // verus!
