//! Which files of a directory are logs, and in which order they are read: by
//! the number of their rotation from the highest down, names of one number by
//! their bytes from the highest down, so that the log in use comes last.
use crate::create_file::{join, joined};
use crate::read_file::{gz_suffix, texts_of};
use crate::text::{
    begins_with, ends_with, finishes_with, lemma_boundary, lemma_boundary_around_ascii, slice,
    starts_with, DOT, PLUS,
};
use vstd::prelude::*;
use vstd::relations::*;
use vstd::seq_lib::*;
use vstd::string::*;
use vstd::utf8::*;

verus! {

/// The name of the log in use, with which the name of every log begins.
pub open spec fn log_name() -> Seq<u8> {
    "access.log".spec_bytes()
}

/// The number that stands for the log in use.
pub open spec fn zero() -> Seq<u8> {
    "0".spec_bytes()
}

/// True when `name` is the name of a log.
pub open spec fn is_log_name(name: Seq<u8>) -> bool {
    begins_with(name, log_name())
}

/// Those of `names` that are names of logs, in their order.
pub open spec fn log_names(names: Seq<Seq<u8>>) -> Seq<Seq<u8>> {
    names.filter(|name: Seq<u8>| is_log_name(name))
}

/// The names in `filenames`, each as its bytes.
pub open spec fn names_of(filenames: Seq<&str>) -> Seq<Seq<u8>> {
    filenames.map_values(|name: &str| name.spec_bytes())
}

/// The index behind the last dot of `name`; 0 where it has none.
pub open spec fn segment_start(name: Seq<u8>) -> int
    decreases name.len(),
{
    if name.len() == 0 {
        0
    } else if name.last() == DOT {
        name.len() as int
    } else {
        segment_start(name.drop_last())
    }
}

/// What stands behind the last dot of `name`; all of it where it has none.
pub open spec fn last_segment(name: Seq<u8>) -> Seq<u8> {
    name.subrange(segment_start(name), name.len() as int)
}

/// The part of a log's name in which the number of its rotation is looked
/// for: `0` for the log in use, else what stands behind the last dot, a `.gz`
/// at the end set aside.
pub open spec fn possible_number(name: Seq<u8>) -> Seq<u8> {
    if name == log_name() {
        zero()
    } else if ends_with(name, gz_suffix()) {
        last_segment(name.subrange(0, name.len() - gz_suffix().len()))
    } else {
        last_segment(name)
    }
}

/// True when `byte` is a decimal digit.
pub open spec fn is_digit(byte: u8) -> bool {
    0x30 <= byte <= 0x39
}

/// True when `text` holds decimal digits only.
pub open spec fn all_digits(text: Seq<u8>) -> bool {
    forall|i: int| 0 <= i < text.len() ==> is_digit(#[trigger] text[i])
}

/// The number that the decimal digits in `digits` write.
pub open spec fn value_of(digits: Seq<u8>) -> nat
    decreases digits.len(),
{
    if digits.len() == 0 {
        0
    } else {
        (value_of(digits.drop_last()) * 10 + (digits.last() - 0x30)) as nat
    }
}

/// The digits of a number: `text` without the `+` that may stand in front.
pub open spec fn digits_of(text: Seq<u8>) -> Seq<u8> {
    if text.len() > 0 && text[0] == PLUS {
        text.drop_first()
    } else {
        text
    }
}

/// The number that `text` writes: one digit at least, with or without a `+`
/// in front and nothing else, and no more than the highest `u64`; else there
/// is none.
pub open spec fn number_in(text: Seq<u8>) -> Option<u64> {
    let digits = digits_of(text);
    if digits.len() > 0 && all_digits(digits) && value_of(digits) <= u64::MAX {
        Some(value_of(digits) as u64)
    } else {
        None
    }
}

/// The number of the rotation of the log named `name`, if its name has one.
pub open spec fn number_of(name: Seq<u8>) -> Option<u64> {
    number_in(possible_number(name))
}

/// Those of `names` that are read: the names of logs that have a number, in
/// their order.
pub open spec fn candidates(names: Seq<Seq<u8>>) -> Seq<Seq<u8>> {
    log_names(names).filter(|name: Seq<u8>| number_of(name) is Some)
}

/// A name with its number in front.
pub open spec fn with_number(name: Seq<u8>) -> (u64, Seq<u8>) {
    (number_of(name)->0, name)
}

/// Those of `names` that have a number, each with its number, in their order.
pub open spec fn paired(names: Seq<Seq<u8>>) -> Seq<(u64, Seq<u8>)> {
    names.filter(|name: Seq<u8>| number_of(name) is Some).map_values(
        |name: Seq<u8>| with_number(name),
    )
}

/// The names in `pairs`.
pub open spec fn names_in(pairs: Seq<(u64, Seq<u8>)>) -> Seq<Seq<u8>> {
    pairs.map_values(|pair: (u64, Seq<u8>)| pair.1)
}

/// The numbers and names in `pairs`, each name as its bytes.
pub open spec fn pairs_of(pairs: Seq<(u64, String)>) -> Seq<(u64, Seq<u8>)> {
    pairs.map_values(|pair: (u64, String)| (pair.0, encode_utf8(pair.1@)))
}

/// True when `first` is no higher than `second` in the order of the bytes:
/// where the two part, `first` has ended or has the lower byte.
pub open spec fn lex_le(first: Seq<u8>, second: Seq<u8>) -> bool
    decreases first.len(),
{
    if first.len() == 0 {
        true
    } else if second.len() == 0 {
        false
    } else if first[0] != second[0] {
        first[0] < second[0]
    } else {
        lex_le(first.drop_first(), second.drop_first())
    }
}

/// True when `first` is read no later than `second`: it has the higher number,
/// or the same number and bytes that are no lower.
pub open spec fn reads_first(first: (u64, Seq<u8>), second: (u64, Seq<u8>)) -> bool {
    first.0 > second.0 || (first.0 == second.0 && lex_le(second.1, first.1))
}

/// The order of reading, as a relation.
pub open spec fn order() -> spec_fn((u64, Seq<u8>), (u64, Seq<u8>)) -> bool {
    |first: (u64, Seq<u8>), second: (u64, Seq<u8>)| reads_first(first, second)
}

/// The logs among `names` in the order in which they are read: every name of
/// a log that has a number, as often as it is given, from the highest number
/// down, and names of one number from the highest bytes down. The log in use
/// has the number 0 and the lowest bytes of all logs, and so comes last.
pub open spec fn ordered(names: Seq<Seq<u8>>) -> Seq<Seq<u8>> {
    names_in(paired(log_names(names)).sort_by(order()))
}

/// The paths to read for a run on `pathname`: the path itself where it names a
/// file, else the logs among `names` in their order, each in the directory
/// `pathname`.
pub open spec fn pathnames_to_analyze(pathname: Seq<u8>, is_file: bool, names: Seq<Seq<u8>>) -> Seq<
    Seq<u8>,
> {
    if is_file {
        seq![pathname]
    } else {
        ordered(names).map_values(|name: Seq<u8>| joined(pathname, name))
    }
}

/// The digits read so far write no more than all of them.
proof fn lemma_value_grows(digits: Seq<u8>, read: int)
    requires
        all_digits(digits),
        0 <= read <= digits.len(),
    ensures
        value_of(digits.subrange(0, read)) <= value_of(digits),
    decreases digits.len() - read,
{
    if read < digits.len() {
        let front = digits.drop_last();
        assert(is_digit(digits.last()));
        assert(all_digits(front)) by {
            assert forall|i: int| 0 <= i < front.len() implies is_digit(#[trigger] front[i]) by {
                assert(front[i] == digits[i]);
            }
        }
        if read < front.len() {
            lemma_value_grows(front, read);
            assert(front.subrange(0, read) =~= digits.subrange(0, read));
        } else {
            assert(front =~= digits.subrange(0, read));
        }
    } else {
        assert(digits.subrange(0, read) =~= digits);
    }
}

/// Tells whether two texts are the same.
fn same(first: &[u8], second: &[u8]) -> (r: bool)
    ensures
        r == (first@ == second@),
{
    let r = first.len() == second.len() && starts_with(first, second);
    proof {
        if first@.len() == second@.len() {
            assert(first@.subrange(0, second@.len() as int) =~= first@);
        }
    }
    r
}

/// Reads a number from `text`.
pub fn parse_number(text: &str) -> (r: Option<u64>)
    ensures
        r == number_in(text.spec_bytes()),
{
    let bytes = text.as_bytes();
    let first: usize = if bytes.len() > 0 && bytes[0] == PLUS {
        1
    } else {
        0
    };
    let ghost digits = digits_of(bytes@);
    proof {
        assert(digits =~= bytes@.subrange(first as int, bytes@.len() as int));
    }
    if first == bytes.len() {
        return None;
    }
    let mut value: u64 = 0;
    let mut i: usize = first;
    proof {
        assert(digits.subrange(0, 0) =~= Seq::<u8>::empty());
    }
    while i < bytes.len()
        invariant
            first <= i <= bytes.len(),
            bytes@ == text.spec_bytes(),
            digits == digits_of(bytes@),
            digits == bytes@.subrange(first as int, bytes@.len() as int),
            all_digits(digits.subrange(0, i - first)),
            value == value_of(digits.subrange(0, i - first)),
        decreases bytes.len() - i,
    {
        let byte = bytes[i];
        let ghost read = digits.subrange(0, i - first);
        let ghost next = digits.subrange(0, i - first + 1);
        proof {
            assert(digits[i - first] == byte);
            assert(next.drop_last() =~= read);
            assert(next.last() == byte);
        }
        if byte < 0x30 || byte > 0x39 {
            proof {
                assert(!is_digit(digits[i - first]));
            }
            return None;
        }
        let digit: u64 = (byte - 0x30) as u64;
        proof {
            assert(all_digits(next)) by {
                assert forall|j: int| 0 <= j < next.len() implies is_digit(#[trigger] next[j]) by {
                    if j < read.len() {
                        assert(next[j] == read[j]);
                    }
                }
            }
            assert(value_of(next) == value * 10 + digit);
        }
        if value > (u64::MAX - digit) / 10 {
            proof {
                if all_digits(digits) {
                    lemma_value_grows(digits, i - first + 1);
                }
            }
            return None;
        }
        value = value * 10 + digit;
        i += 1;
    }
    proof {
        assert(digits.subrange(0, i - first) =~= digits);
    }
    Some(value)
}

/// The part of `filename` in which the number of its rotation is looked for.
pub fn get_filename_possible_number(filename: &str) -> (r: String)
    ensures
        encode_utf8(r@) == possible_number(filename.spec_bytes()),
{
    broadcast use encode_utf8_valid_utf8;

    let bytes = filename.as_bytes();
    if same(bytes, "access.log".as_bytes()) {
        return "0".to_owned();
    }
    let suffix = ".gz".as_bytes();
    let end: usize = if finishes_with(bytes, suffix) {
        bytes.len() - suffix.len()
    } else {
        bytes.len()
    };
    let ghost stem = bytes@.subrange(0, end as int);
    let mut start: usize = end;
    proof {
        assert(stem.subrange(0, start as int) =~= stem);
    }
    while start > 0 && bytes[start - 1] != DOT
        invariant
            start <= end <= bytes.len(),
            stem == bytes@.subrange(0, end as int),
            segment_start(stem) == segment_start(stem.subrange(0, start as int)),
        decreases start,
    {
        proof {
            let front = stem.subrange(0, start as int);
            assert(front.last() == bytes@[start - 1]);
            assert(front.drop_last() =~= stem.subrange(0, start - 1));
        }
        start -= 1;
    }
    proof {
        let front = stem.subrange(0, start as int);
        lemma_boundary(bytes@, 0);
        lemma_boundary(bytes@, bytes@.len() as int);
        is_char_boundary_start_end_of_seq(bytes@);
        if start > 0 {
            assert(front.last() == DOT);
            lemma_boundary_around_ascii(bytes@, start - 1);
        }
        if end < bytes.len() {
            lemma_gz_suffix();
            assert(bytes@.subrange(bytes@.len() - 3, bytes@.len() as int)[0] == DOT);
            lemma_boundary_around_ascii(bytes@, end as int);
        }
        assert(last_segment(stem) =~= bytes@.subrange(start as int, end as int));
        if end == bytes.len() {
            assert(stem =~= bytes@);
        }
    }
    slice(filename, start, end).to_owned()
}

/// The suffix `.gz` is a dot and two letters.
pub proof fn lemma_gz_suffix()
    ensures
        gz_suffix() == seq![DOT, 0x67u8, 0x7au8],
{
    reveal_strlit(".gz");
    is_ascii_chars_encode_utf8(".gz"@);
    assert(gz_suffix() =~= seq![DOT, 0x67u8, 0x7au8]);
}

/// Those of `filenames` that are names of logs.
pub fn get_filenames_with_logs(filenames: &[&str]) -> (r: Vec<String>)
    ensures
        texts_of(r@) == log_names(names_of(filenames@)),
{
    let mut result: Vec<String> = Vec::new();
    let ghost names = names_of(filenames@);
    let mut i: usize = 0;
    proof {
        assert(names.take(0) =~= Seq::<Seq<u8>>::empty());
        reveal(Seq::filter);
        assert(texts_of(result@) =~= log_names(names.take(0)));
    }
    while i < filenames.len()
        invariant
            i <= filenames.len(),
            names == names_of(filenames@),
            texts_of(result@) == log_names(names.take(i as int)),
        decreases filenames.len() - i,
    {
        let filename = filenames[i];
        let ghost before = texts_of(result@);
        proof {
            assert(names.take(i + 1) =~= names.take(i as int).push(names[i as int]));
            names.take(i as int).lemma_filter_push(
                names[i as int],
                |name: Seq<u8>| is_log_name(name),
            );
        }
        if starts_with(filename.as_bytes(), "access.log".as_bytes()) {
            result.push(filename.to_owned());
            proof {
                assert(texts_of(result@) =~= before.push(names[i as int]));
            }
        }
        i += 1;
    }
    proof {
        assert(names.take(i as int) =~= names);
    }
    result
}

/// Bytes are no higher than themselves.
pub proof fn lemma_lex_reflexive(bytes: Seq<u8>)
    ensures
        lex_le(bytes, bytes),
    decreases bytes.len(),
{
    if bytes.len() > 0 {
        lemma_lex_reflexive(bytes.drop_first());
    }
}

/// Of two texts one is no higher than the other.
pub proof fn lemma_lex_total(first: Seq<u8>, second: Seq<u8>)
    ensures
        lex_le(first, second) || lex_le(second, first),
    decreases first.len(),
{
    if first.len() > 0 && second.len() > 0 && first[0] == second[0] {
        lemma_lex_total(first.drop_first(), second.drop_first());
    }
}

/// Two texts of which each is no higher than the other are the same.
pub proof fn lemma_lex_antisymmetric(first: Seq<u8>, second: Seq<u8>)
    requires
        lex_le(first, second),
        lex_le(second, first),
    ensures
        first == second,
    decreases first.len(),
{
    if first.len() > 0 {
        lemma_lex_antisymmetric(first.drop_first(), second.drop_first());
        assert(first =~= seq![first[0]] + first.drop_first());
        assert(second =~= seq![second[0]] + second.drop_first());
    } else {
        assert(first =~= second);
    }
}

/// What is no higher than a text is no higher than what that text is no
/// higher than.
pub proof fn lemma_lex_transitive(first: Seq<u8>, second: Seq<u8>, third: Seq<u8>)
    requires
        lex_le(first, second),
        lex_le(second, third),
    ensures
        lex_le(first, third),
    decreases first.len(),
{
    if first.len() > 0 && first[0] == second[0] && second[0] == third[0] {
        lemma_lex_transitive(first.drop_first(), second.drop_first(), third.drop_first());
    }
}

/// What a text begins with is no higher than the text.
pub proof fn lemma_lex_prefix(prefix: Seq<u8>, bytes: Seq<u8>)
    requires
        begins_with(bytes, prefix),
    ensures
        lex_le(prefix, bytes),
    decreases prefix.len(),
{
    if prefix.len() > 0 {
        let n = prefix.len() as int;
        assert(bytes.subrange(0, n)[0] == prefix[0]);
        assert(bytes.drop_first().subrange(0, n - 1) =~= bytes.subrange(0, n).drop_first());
        lemma_lex_prefix(prefix.drop_first(), bytes.drop_first());
    }
}

/// The order of reading is a total order: it has every pair before or behind
/// every other, and only the same pair both before and behind.
pub proof fn lemma_order_total()
    ensures
        total_ordering(order()),
{
    let r = order();
    assert forall|x: (u64, Seq<u8>)| #[trigger] r(x, x) by {
        lemma_lex_reflexive(x.1);
    }
    assert forall|x: (u64, Seq<u8>), y: (u64, Seq<u8>)| #[trigger]
        r(x, y) && #[trigger] r(y, x) implies x == y by {
        lemma_lex_antisymmetric(x.1, y.1);
    }
    assert forall|x: (u64, Seq<u8>), y: (u64, Seq<u8>), z: (u64, Seq<u8>)| #[trigger]
        r(x, y) && #[trigger] r(y, z) implies r(x, z) by {
        if x.0 == y.0 && y.0 == z.0 {
            lemma_lex_transitive(z.1, y.1, x.1);
        }
    }
    assert forall|x: (u64, Seq<u8>), y: (u64, Seq<u8>)| #[trigger]
        r(x, y) || #[trigger] r(y, x) by {
        lemma_lex_total(x.1, y.1);
    }
}

/// Tells whether `first` is no higher than `second` in the order of the bytes.
pub fn lex_before(first: &[u8], second: &[u8]) -> (r: bool)
    ensures
        r == lex_le(first@, second@),
{
    let mut i: usize = 0;
    proof {
        assert(first@.skip(0) =~= first@);
        assert(second@.skip(0) =~= second@);
    }
    while i < first.len() && i < second.len() && first[i] == second[i]
        invariant
            i <= first.len(),
            i <= second.len(),
            lex_le(first@, second@) == lex_le(first@.skip(i as int), second@.skip(i as int)),
        decreases first.len() - i,
    {
        proof {
            assert(first@.skip(i as int).drop_first() =~= first@.skip(i + 1));
            assert(second@.skip(i as int).drop_first() =~= second@.skip(i + 1));
        }
        i += 1;
    }
    if i == first.len() {
        true
    } else if i == second.len() {
        false
    } else {
        first[i] < second[i]
    }
}

/// Tells whether `first` is read no later than `second`.
fn comes_first(first: &(u64, String), second: &(u64, String)) -> (r: bool)
    ensures
        r == reads_first(
            (first.0, encode_utf8(first.1@)),
            (second.0, encode_utf8(second.1@)),
        ),
{
    first.0 > second.0 || (first.0 == second.0 && lex_before(
        second.1.as_str().as_bytes(),
        first.1.as_str().as_bytes(),
    ))
}

/// Those of `filenames` that have the number of a rotation, each with its
/// number, in their order.
pub fn get_numbers_and_filenames(filenames: Vec<String>) -> (r: Vec<(u64, String)>)
    ensures
        pairs_of(r@) == paired(texts_of(filenames@)),
{
    let mut result: Vec<(u64, String)> = Vec::new();
    let ghost names = texts_of(filenames@);
    let mut i: usize = 0;
    proof {
        assert(names.take(0) =~= Seq::<Seq<u8>>::empty());
        reveal(Seq::filter);
        assert(pairs_of(result@) =~= paired(names.take(0)));
    }
    while i < filenames.len()
        invariant
            i <= filenames.len(),
            names == texts_of(filenames@),
            pairs_of(result@) == paired(names.take(i as int)),
        decreases filenames.len() - i,
    {
        let filename = filenames[i].clone();
        let possible_number = get_filename_possible_number(filename.as_str());
        let ghost before = pairs_of(result@);
        proof {
            assert(names.take(i + 1) =~= names.take(i as int).push(names[i as int]));
            names.take(i as int).lemma_filter_push(
                names[i as int],
                |name: Seq<u8>| number_of(name) is Some,
            );
        }
        if let Some(number) = parse_number(possible_number.as_str()) {
            result.push((number, filename));
            proof {
                assert(pairs_of(result@) =~= before.push(with_number(names[i as int])));
                assert(paired(names.take(i + 1)) =~= before.push(with_number(names[i as int])));
            }
        }
        i += 1;
    }
    proof {
        assert(names.take(i as int) =~= names);
    }
    result
}

/// The names in `numbers_and_filenames` in the order of reading: from the
/// highest number down, and names of one number from the highest bytes down.
pub fn get_filenames_sorted(numbers_and_filenames: Vec<(u64, String)>) -> (r: Vec<String>)
    ensures
        texts_of(r@) == names_in(pairs_of(numbers_and_filenames@).sort_by(order())),
{
    broadcast use group_to_multiset_ensures;

    let mut sorted: Vec<(u64, String)> = Vec::new();
    let ghost all = pairs_of(numbers_and_filenames@);
    let mut i: usize = 0;
    proof {
        assert(all.take(0) =~= Seq::<(u64, Seq<u8>)>::empty());
        assert(pairs_of(sorted@) =~= all.take(0));
    }
    while i < numbers_and_filenames.len()
        invariant
            i <= numbers_and_filenames.len(),
            all == pairs_of(numbers_and_filenames@),
            sorted@.len() == i,
            pairs_of(sorted@).to_multiset() == all.take(i as int).to_multiset(),
            forall|j: int, k: int|
                0 <= j < k < sorted@.len() ==> reads_first(
                    #[trigger] pairs_of(sorted@)[j],
                    #[trigger] pairs_of(sorted@)[k],
                ),
        decreases numbers_and_filenames.len() - i,
    {
        let pair = (numbers_and_filenames[i].0, numbers_and_filenames[i].1.clone());
        let ghost new = all[i as int];
        let ghost before = pairs_of(sorted@);
        proof {
            assert(new == (pair.0, encode_utf8(pair.1@)));
        }
        let mut at: usize = sorted.len();
        while at > 0 && !comes_first(&sorted[at - 1], &pair)
            invariant
                at <= sorted.len(),
                before == pairs_of(sorted@),
                new == (pair.0, encode_utf8(pair.1@)),
                forall|k: int| at <= k < sorted@.len() ==> !reads_first(#[trigger] before[k], new),
            decreases at,
        {
            at -= 1;
        }
        sorted.insert(at, pair);
        proof {
            let after = pairs_of(sorted@);
            assert(after =~= before.insert(at as int, new));
            assert(all.take(i + 1) =~= all.take(i as int).push(new));
            to_multiset_insert(before, at as int, new);
            to_multiset_build(all.take(i as int), new);
            assert(after.to_multiset() == all.take(i + 1).to_multiset());
            assert forall|j: int, k: int| 0 <= j < k < after.len() implies reads_first(
                #[trigger] after[j],
                #[trigger] after[k],
            ) by {
                if k == at {
                    assert(after[j] == before[j]);
                    assert(reads_first(before[at - 1], new));
                    if j < at - 1 {
                        assert(reads_first(before[j], before[at - 1]));
                        lemma_reads_first_transitive(before[j], before[at - 1], new);
                    }
                } else if j == at {
                    assert(after[k] == before[k - 1]);
                    lemma_reads_first_total(before[k - 1], new);
                } else {
                    let from = if j < at { j } else { j - 1 };
                    let to = if k < at { k } else { k - 1 };
                    assert(after[j] == before[from]);
                    assert(after[k] == before[to]);
                }
            }
        }
        i += 1;
    }
    let ghost pairs = pairs_of(sorted@);
    proof {
        assert(all.take(i as int) =~= all);
        lemma_order_total();
        all.lemma_sort_by_ensures(order());
        assert(sorted_by(pairs, order()));
        lemma_sorted_unique(pairs, all.sort_by(order()), order());
    }
    let mut result: Vec<String> = Vec::new();
    let mut k: usize = 0;
    while k < sorted.len()
        invariant
            k <= sorted.len(),
            pairs == pairs_of(sorted@),
            texts_of(result@) == names_in(pairs).take(k as int),
        decreases sorted.len() - k,
    {
        let ghost before = texts_of(result@);
        result.push(sorted[k].1.clone());
        proof {
            assert(texts_of(result@) =~= before.push(names_in(pairs)[k as int]));
            assert(names_in(pairs).take(k + 1) =~= names_in(pairs).take(k as int).push(
                names_in(pairs)[k as int],
            ));
        }
        k += 1;
    }
    proof {
        assert(names_in(pairs).take(k as int) =~= names_in(pairs));
    }
    result
}

/// A pair read no later than one that is read no later than a third is read
/// no later than the third.
pub proof fn lemma_reads_first_transitive(
    first: (u64, Seq<u8>),
    second: (u64, Seq<u8>),
    third: (u64, Seq<u8>),
)
    requires
        reads_first(first, second),
        reads_first(second, third),
    ensures
        reads_first(first, third),
{
    if first.0 == second.0 && second.0 == third.0 {
        lemma_lex_transitive(third.1, second.1, first.1);
    }
}

/// Of two pairs one is read no later than the other.
pub proof fn lemma_reads_first_total(first: (u64, Seq<u8>), second: (u64, Seq<u8>))
    ensures
        reads_first(first, second) || reads_first(second, first),
{
    lemma_lex_total(first.1, second.1);
}

/// The logs among `filenames` in the order in which they are read.
pub fn get_log_filenames_sort_reverse(filenames: &[&str]) -> (r: Vec<String>)
    ensures
        texts_of(r@) == ordered(names_of(filenames@)),
{
    let filenames_with_logs = get_filenames_with_logs(filenames);
    let numbers_and_log_filenames = get_numbers_and_filenames(filenames_with_logs);
    get_filenames_sorted(numbers_and_log_filenames)
}

/// The paths of the files to read for a run on `pathname`, which names a file
/// if `is_file`, and else a directory that holds `filenames`.
pub fn get_pathnames_to_analyze(pathname: &str, is_file: bool, filenames: &[&str]) -> (r: Vec<
    String,
>)
    ensures
        texts_of(r@) == pathnames_to_analyze(
            pathname.spec_bytes(),
            is_file,
            names_of(filenames@),
        ),
{
    let mut result: Vec<String> = Vec::new();
    if is_file {
        result.push(pathname.to_owned());
        proof {
            assert(texts_of(result@) =~= seq![pathname.spec_bytes()]);
        }
        return result;
    }
    let names = get_log_filenames_sort_reverse(filenames);
    let ghost wanted = pathnames_to_analyze(pathname.spec_bytes(), is_file, names_of(filenames@));
    let mut i: usize = 0;
    while i < names.len()
        invariant
            i <= names.len(),
            !is_file,
            texts_of(names@) == ordered(names_of(filenames@)),
            wanted == pathnames_to_analyze(pathname.spec_bytes(), is_file, names_of(filenames@)),
            texts_of(result@) == wanted.take(i as int),
        decreases names.len() - i,
    {
        let ghost before = texts_of(result@);
        result.push(join(pathname, names[i].as_str()));
        proof {
            assert(texts_of(names@)[i as int] == encode_utf8(names@[i as int]@));
            assert(texts_of(result@) =~= before.push(wanted[i as int]));
            assert(wanted.take(i + 1) =~= wanted.take(i as int).push(wanted[i as int]));
        }
        i += 1;
    }
    proof {
        assert(wanted.take(i as int) =~= wanted);
    }
    result
}

} // verus!
