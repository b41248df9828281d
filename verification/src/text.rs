//! Text as UTF-8 bytes: where a text may be cut, and how parts of it compare.
use vstd::prelude::*;
use vstd::string::*;
use vstd::utf8::*;

verus! {

pub const LINE_FEED: u8 = 0x0a;

pub const CARRIAGE_RETURN: u8 = 0x0d;

pub const SPACE: u8 = 0x20;

pub const QUOTE: u8 = 0x22;

pub const PLUS: u8 = 0x2b;

pub const COMMA: u8 = 0x2c;

pub const DASH: u8 = 0x2d;

pub const DOT: u8 = 0x2e;

pub const SLASH: u8 = 0x2f;

pub const OPENING_BRACKET: u8 = 0x5b;

pub const CLOSING_BRACKET: u8 = 0x5d;

/// True when `bytes` can be cut in front of index `i` without parting the
/// bytes of one character: `i` is the end, or the byte there begins a character.
pub open spec fn at_boundary(bytes: Seq<u8>, i: int) -> bool {
    0 <= i <= bytes.len() && (i < bytes.len() ==> !is_continuation_byte(bytes[i]))
}

/// True when `prefix` is what `bytes` begins with.
pub open spec fn begins_with(bytes: Seq<u8>, prefix: Seq<u8>) -> bool {
    prefix.len() <= bytes.len() && bytes.subrange(0, prefix.len() as int) == prefix
}

/// True when `suffix` is what `bytes` ends with.
pub open spec fn ends_with(bytes: Seq<u8>, suffix: Seq<u8>) -> bool {
    suffix.len() <= bytes.len() && bytes.subrange(bytes.len() - suffix.len(), bytes.len() as int)
        == suffix
}

/// The index of the first `byte` in `line` at or after `from`; the length of
/// `line` where there is none.
pub open spec fn find(line: Seq<u8>, byte: u8, from: int) -> int
    decreases line.len() - from,
{
    if from < 0 || from >= line.len() {
        line.len() as int
    } else if line[from] == byte {
        from
    } else {
        find(line, byte, from + 1)
    }
}

/// True when `byte` does not occur in `field`.
pub open spec fn free_of(field: Seq<u8>, byte: u8) -> bool {
    forall|i: int| 0 <= i < field.len() ==> field[i] != byte
}

/// True when `byte` does not occur in `bytes` from index `from` up to, not
/// including, index `to`.
pub open spec fn free_between(bytes: Seq<u8>, byte: u8, from: int, to: int) -> bool {
    forall|i: int| from <= i < to ==> bytes[i] != byte
}

/// `find` stays within the line, stops on the byte it looks for, and passes
/// over none.
pub proof fn lemma_find(line: Seq<u8>, byte: u8, from: int)
    requires
        0 <= from <= line.len(),
    ensures
        from <= find(line, byte, from) <= line.len(),
        find(line, byte, from) < line.len() ==> line[find(line, byte, from)] == byte,
        forall|j: int| from <= j < find(line, byte, from) ==> line[j] != byte,
    decreases line.len() - from,
{
    if from < line.len() && line[from] != byte {
        lemma_find(line, byte, from + 1);
    }
}

/// A search that meets no `byte` before `to` goes on from `to`.
pub proof fn lemma_find_from(line: Seq<u8>, byte: u8, from: int, to: int)
    requires
        0 <= from <= to <= line.len(),
        forall|j: int| from <= j < to ==> line[j] != byte,
    ensures
        find(line, byte, from) == find(line, byte, to),
    decreases to - from,
{
    if from < to {
        lemma_find_from(line, byte, from + 1, to);
    }
}

/// How often `byte` occurs in `bytes` from index `from` up to, not including,
/// index `to`.
pub open spec fn count_between(bytes: Seq<u8>, byte: u8, from: int, to: int) -> nat
    decreases to - from,
{
    if from >= to {
        0
    } else if bytes[to - 1] == byte {
        count_between(bytes, byte, from, to - 1) + 1
    } else {
        count_between(bytes, byte, from, to - 1)
    }
}

/// How often `byte` occurs in `bytes`.
pub open spec fn count(bytes: Seq<u8>, byte: u8) -> nat {
    count_between(bytes, byte, 0, bytes.len() as int)
}

/// A byte that does not occur is counted 0 times.
pub proof fn lemma_count_free(bytes: Seq<u8>, byte: u8, from: int, to: int)
    requires
        free_between(bytes, byte, from, to),
    ensures
        count_between(bytes, byte, from, to) == 0,
    decreases to - from,
{
    if from < to {
        lemma_count_free(bytes, byte, from, to - 1);
    }
}

/// A byte that occurs is counted once at least.
pub proof fn lemma_count_found(bytes: Seq<u8>, byte: u8, from: int, at: int, to: int)
    requires
        from <= at < to,
        bytes[at] == byte,
    ensures
        count_between(bytes, byte, from, to) >= 1,
    decreases to - from,
{
    if at < to - 1 {
        lemma_count_found(bytes, byte, from, at, to - 1);
    }
}

/// What is counted in a stretch is what is counted in its two parts.
pub proof fn lemma_count_split(bytes: Seq<u8>, byte: u8, from: int, mid: int, to: int)
    requires
        from <= mid <= to,
    ensures
        count_between(bytes, byte, from, to) == count_between(bytes, byte, from, mid)
            + count_between(bytes, byte, mid, to),
    decreases to - mid,
{
    if mid < to {
        lemma_count_split(bytes, byte, from, mid, to - 1);
    }
}

/// What is counted in bytes is counted in them where more bytes follow.
pub proof fn lemma_count_in_longer(bytes: Seq<u8>, more: Seq<u8>, byte: u8, from: int, to: int)
    requires
        0 <= from,
        to <= bytes.len(),
    ensures
        count_between(bytes + more, byte, from, to) == count_between(bytes, byte, from, to),
    decreases to - from,
{
    if from < to {
        lemma_count_in_longer(bytes, more, byte, from, to - 1);
    }
}

/// What is counted behind bytes is what is counted in the bytes that follow
/// them.
pub proof fn lemma_count_behind(bytes: Seq<u8>, more: Seq<u8>, byte: u8, to: int)
    requires
        0 <= to <= more.len(),
    ensures
        count_between(bytes + more, byte, bytes.len() as int, bytes.len() + to) == count_between(
            more,
            byte,
            0,
            to,
        ),
    decreases to,
{
    if 0 < to {
        lemma_count_behind(bytes, more, byte, to - 1);
    }
}

/// Bytes that follow add what is counted in them.
pub proof fn lemma_count_more(bytes: Seq<u8>, more: Seq<u8>, byte: u8, from: int)
    requires
        0 <= from <= bytes.len(),
    ensures
        count_between(bytes + more, byte, from, (bytes + more).len() as int) == count_between(
            bytes,
            byte,
            from,
            bytes.len() as int,
        ) + count(more, byte),
{
    lemma_count_split(bytes + more, byte, from, bytes.len() as int, (bytes + more).len() as int);
    lemma_count_in_longer(bytes, more, byte, from, bytes.len() as int);
    lemma_count_behind(bytes, more, byte, more.len() as int);
}

/// One byte is counted once if it is the byte looked for, else not at all.
pub proof fn lemma_count_one(one: u8, byte: u8)
    ensures
        count(seq![one], byte) == if one == byte {
            1nat
        } else {
            0nat
        },
{
    reveal_with_fuel(count_between, 2);
}

/// A byte that occurs in bytes is counted in them.
pub proof fn lemma_count_some(bytes: Seq<u8>, byte: u8)
    requires
        !free_of(bytes, byte),
    ensures
        count(bytes, byte) >= 1,
{
    let at = choose|at: int| 0 <= at < bytes.len() && bytes[at] == byte;
    lemma_count_found(bytes, byte, 0, at, bytes.len() as int);
}

/// In valid UTF-8, the cuts that `at_boundary` allows are the character
/// boundaries.
pub proof fn lemma_boundary(bytes: Seq<u8>, i: int)
    requires
        valid_utf8(bytes),
    ensures
        at_boundary(bytes, i) <==> is_char_boundary(bytes, i),
{
    if 0 <= i < bytes.len() {
        is_char_boundary_iff_not_is_continuation_byte(bytes, i);
    } else if i == bytes.len() {
        is_char_boundary_start_end_of_seq(bytes);
    } else {
        if i != 0 {
            reveal_with_fuel(is_char_boundary, 1);
        }
    }
}

/// A byte below 128 is a character of its own, so valid UTF-8 can be cut on
/// both sides of it.
pub proof fn lemma_boundary_around_ascii(bytes: Seq<u8>, i: int)
    requires
        valid_utf8(bytes),
        0 <= i < bytes.len(),
        bytes[i] < 0x80,
    ensures
        at_boundary(bytes, i),
        at_boundary(bytes, i + 1),
{
    if i + 1 < bytes.len() {
        lemma_boundary(bytes, i);
        valid_utf8_split(bytes, i);
        let rest = bytes.subrange(i, bytes.len() as int);
        assert(rest[0] == bytes[i]);
        assert(valid_first_scalar(rest));
        assert(length_of_first_scalar(rest) == 1);
        let after = pop_first_scalar(rest);
        assert(valid_utf8(after));
        assert(after.len() > 0);
        assert(after[0] == bytes[i + 1]);
        assert(valid_first_scalar(after));
    }
}

/// The part of `text` from byte `from` up to, not including, byte `to`.
pub(crate) fn slice<'a>(text: &'a str, from: usize, to: usize) -> (part: &'a str)
    requires
        from <= to,
        at_boundary(text.spec_bytes(), from as int),
        at_boundary(text.spec_bytes(), to as int),
    ensures
        part.spec_bytes() == text.spec_bytes().subrange(from as int, to as int),
{
    broadcast use encode_utf8_valid_utf8;

    proof {
        lemma_boundary(text.spec_bytes(), to as int);
    }
    let (head, _) = text.split_at(to);
    proof {
        let all = text.spec_bytes();
        let front = head.spec_bytes();
        assert(front == all.subrange(0, to as int));
        if from < to {
            assert(front[from as int] == all[from as int]);
        }
        lemma_boundary(front, from as int);
    }
    let (_, part) = head.split_at(from);
    proof {
        assert(part.spec_bytes() == text.spec_bytes().subrange(from as int, to as int));
    }
    part
}

/// Tells whether `bytes` begins with `prefix`.
pub fn starts_with(bytes: &[u8], prefix: &[u8]) -> (r: bool)
    ensures
        r == begins_with(bytes@, prefix@),
{
    if prefix.len() > bytes.len() {
        return false;
    }
    let mut i: usize = 0;
    while i < prefix.len()
        invariant
            i <= prefix.len() <= bytes.len(),
            bytes@.subrange(0, i as int) == prefix@.subrange(0, i as int),
        decreases prefix.len() - i,
    {
        if bytes[i] != prefix[i] {
            proof {
                let n = prefix@.len() as int;
                assert(bytes@.subrange(0, n)[i as int] != prefix@[i as int]);
            }
            return false;
        }
        proof {
            assert(bytes@.subrange(0, i + 1) == bytes@.subrange(0, i as int).push(
                bytes@[i as int],
            ));
            assert(prefix@.subrange(0, i + 1) == prefix@.subrange(0, i as int).push(
                prefix@[i as int],
            ));
        }
        i += 1;
    }
    proof {
        assert(prefix@.subrange(0, prefix@.len() as int) == prefix@);
    }
    true
}

/// Tells whether `bytes` ends with `suffix`.
pub fn finishes_with(bytes: &[u8], suffix: &[u8]) -> (r: bool)
    ensures
        r == ends_with(bytes@, suffix@),
{
    if suffix.len() > bytes.len() {
        return false;
    }
    let shift: usize = bytes.len() - suffix.len();
    let mut i: usize = 0;
    while i < suffix.len()
        invariant
            i <= suffix.len() <= bytes.len(),
            shift == bytes.len() - suffix.len(),
            bytes@.subrange(shift as int, shift + i) == suffix@.subrange(0, i as int),
        decreases suffix.len() - i,
    {
        if bytes[shift + i] != suffix[i] {
            proof {
                assert(bytes@.subrange(shift as int, bytes@.len() as int)[i as int]
                    != suffix@[i as int]);
            }
            return false;
        }
        proof {
            assert(bytes@.subrange(shift as int, shift + i + 1) == bytes@.subrange(
                shift as int,
                shift + i,
            ).push(bytes@[shift + i]));
            assert(suffix@.subrange(0, i + 1) == suffix@.subrange(0, i as int).push(
                suffix@[i as int],
            ));
        }
        i += 1;
    }
    proof {
        assert(suffix@.subrange(0, suffix@.len() as int) == suffix@);
    }
    true
}

/// The bytes of two texts written one behind the other are the bytes of the
/// first followed by those of the second.
pub proof fn lemma_encode_concat(first: Seq<char>, second: Seq<char>)
    ensures
        encode_utf8(first + second) == encode_utf8(first) + encode_utf8(second),
    decreases first.len(),
{
    if first.len() == 0 {
        assert(first + second =~= second);
        assert(encode_utf8(first) + encode_utf8(second) =~= encode_utf8(second));
    } else {
        lemma_encode_concat(first.drop_first(), second);
        assert((first + second).drop_first() =~= first.drop_first() + second);
        assert(encode_utf8(first + second) =~= encode_utf8(first) + encode_utf8(second));
    }
}

/// Texts with the same bytes are the same text.
pub proof fn lemma_same_bytes(first: Seq<char>, second: Seq<char>)
    requires
        encode_utf8(first) == encode_utf8(second),
    ensures
        first == second,
{
    encode_utf8_decode_utf8(first);
    encode_utf8_decode_utf8(second);
}

/// Writes `part` behind what `out` holds.
pub fn push_text(out: &mut String, part: &str)
    ensures
        encode_utf8(final(out)@) == encode_utf8(old(out)@) + part.spec_bytes(),
{
    proof {
        lemma_encode_concat(out@, part@);
    }
    out.append(part);
}

/// A text of one character below 128 is the one byte of that character.
pub proof fn lemma_ascii_literal(text: &str, byte: u8)
    requires
        text@.len() == 1,
        is_ascii_chars(text@),
        text@[0] as u8 == byte,
    ensures
        text.spec_bytes() == seq![byte],
{
    is_ascii_chars_encode_utf8(text@);
    assert(text.spec_bytes() =~= seq![byte]);
}

} // verus!
