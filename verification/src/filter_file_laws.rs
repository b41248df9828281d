//! What holds of the order in which logs are read: it holds every log that has
//! a number, as often as it is given and nothing else; the numbers never rise
//! in it; the log in use stands behind all others; and it does not depend on
//! the order in which the names are given.
use crate::filter_file::{
    candidates, digits_of, is_log_name, lemma_lex_antisymmetric, lemma_lex_prefix,
    lemma_order_total, log_name, log_names, names_in, number_of, order, ordered, paired,
    pathnames_to_analyze, reads_first, value_of, with_number, zero,
};
use crate::text::lemma_ascii_literal;
use vstd::multiset::*;
use vstd::prelude::*;
use vstd::relations::*;
use vstd::seq_lib::*;
use vstd::string::*;

verus! {

/// What is kept of a sequence holds each value that is to be kept as often as
/// the sequence does, and nothing else.
pub proof fn lemma_filter_count<A>(all: Seq<A>, keep: spec_fn(A) -> bool, value: A)
    ensures
        all.filter(keep).to_multiset().count(value) == if keep(value) {
            all.to_multiset().count(value)
        } else {
            0
        },
    decreases all.len(),
{
    broadcast use group_multiset_axioms;
    broadcast use group_to_multiset_ensures;

    if all.len() == 0 {
        reveal(Seq::filter);
        assert(all.filter(keep) =~= all);
    } else {
        let front = all.drop_last();
        let last = all.last();
        assert(all =~= front.push(last));
        lemma_filter_count(front, keep, value);
        front.lemma_filter_push(last, keep);
        to_multiset_build(front, last);
        if keep(last) {
            to_multiset_build(front.filter(keep), last);
        }
    }
}

/// What is kept of two sequences that hold the same values equally often
/// holds the same values equally often.
pub proof fn lemma_filter_permutation<A>(first: Seq<A>, second: Seq<A>, keep: spec_fn(A) -> bool)
    requires
        first.to_multiset() == second.to_multiset(),
    ensures
        first.filter(keep).to_multiset() == second.filter(keep).to_multiset(),
{
    broadcast use group_multiset_axioms;

    assert forall|value: A|
        first.filter(keep).to_multiset().count(value) == second.filter(keep).to_multiset().count(
            value,
        ) by {
        lemma_filter_count(first, keep, value);
        lemma_filter_count(second, keep, value);
    }
    assert(first.filter(keep).to_multiset() =~= second.filter(keep).to_multiset());
}

/// What is made of each value of two sequences that hold the same values
/// equally often holds the same values equally often.
pub proof fn lemma_map_permutation<A, B>(first: Seq<A>, second: Seq<A>, make: spec_fn(A) -> B)
    requires
        first.to_multiset() == second.to_multiset(),
    ensures
        first.map_values(make).to_multiset() == second.map_values(make).to_multiset(),
    decreases first.len(),
{
    broadcast use group_multiset_axioms;
    broadcast use group_to_multiset_ensures;

    to_multiset_len(first);
    to_multiset_len(second);
    if first.len() == 0 {
        assert(second.len() == 0);
        assert(first.map_values(make) =~= second.map_values(make));
    } else {
        let last = first.last();
        let front = first.drop_last();
        assert(first =~= front.push(last));
        to_multiset_build(front, last);
        assert(first.to_multiset().count(last) > 0);
        to_multiset_contains(second, last);
        assert(second.contains(last));
        let at = choose|at: int| 0 <= at < second.len() && second[at] == last;
        let rest = second.remove(at);
        to_multiset_remove(second, at);
        assert(front.to_multiset() =~= rest.to_multiset());
        lemma_map_permutation(front, rest, make);
        assert(first.map_values(make) =~= front.map_values(make).push(make(last)));
        assert(second.map_values(make) =~= rest.map_values(make).insert(at, make(last)));
        to_multiset_build(front.map_values(make), make(last));
        to_multiset_insert(rest.map_values(make), at, make(last));
    }
}

/// The log in use is a log and has the number 0.
pub proof fn lemma_log_in_use()
    ensures
        is_log_name(log_name()),
        number_of(log_name()) == Some(0u64),
{
    reveal_strlit("0");
    lemma_ascii_literal("0", 0x30);
    assert(digits_of(zero()) == zero());
    assert(value_of(zero()) == 0) by {
        assert(zero().drop_last() =~= Seq::<u8>::empty());
        reveal_with_fuel(value_of, 2);
    }
    assert(log_name().subrange(0, log_name().len() as int) =~= log_name());
}

/// Each name in the order stands there with its own number, sorted: it is one
/// of the names given, the name of a log, and has a number.
proof fn lemma_sorted_pairs(names: Seq<Seq<u8>>)
    ensures
        ({
            let pairs = paired(log_names(names)).sort_by(order());
            &&& ordered(names).len() == pairs.len()
            &&& sorted_by(pairs, order())
            &&& forall|i: int|
                0 <= i < pairs.len() ==> {
                    &&& (#[trigger] ordered(names)[i]) == pairs[i].1
                    &&& pairs[i] == with_number(pairs[i].1)
                    &&& number_of(pairs[i].1) is Some
                    &&& is_log_name(pairs[i].1)
                    &&& names.contains(pairs[i].1)
                }
        }),
{
    broadcast use group_filter_ensures;

    let logs = log_names(names);
    let has_number = |name: Seq<u8>| number_of(name) is Some;
    let is_log = |name: Seq<u8>| is_log_name(name);
    let kept = logs.filter(has_number);
    let given = paired(logs);
    let pairs = given.sort_by(order());
    lemma_order_total();
    given.lemma_sort_by_ensures(order());
    assert forall|i: int| 0 <= i < pairs.len() implies {
        &&& (#[trigger] ordered(names)[i]) == pairs[i].1
        &&& pairs[i] == with_number(pairs[i].1)
        &&& number_of(pairs[i].1) is Some
        &&& is_log_name(pairs[i].1)
        &&& names.contains(pairs[i].1)
    } by {
        assert(pairs.contains(pairs[i]));
        assert(given.contains(pairs[i]));
        let k = choose|k: int| 0 <= k < given.len() && given[k] == pairs[i];
        assert(given[k] == with_number(kept[k]));
        assert(has_number(kept[k]));
        assert(kept.contains(kept[k]));
        logs.lemma_filter_contains_rev(has_number, kept[k]);
        let l = choose|l: int| 0 <= l < logs.len() && logs[l] == kept[k];
        assert(is_log(logs[l]));
        names.lemma_filter_contains_rev(is_log, kept[k]);
    }
    assert(ordered(names).len() == pairs.len());
    assert(sorted_by(pairs, order()));
}

/// The order holds every log that has a number as often as the names given
/// hold it, and nothing else.
pub proof fn lemma_ordered_counts(names: Seq<Seq<u8>>, name: Seq<u8>)
    ensures
        ordered(names).to_multiset() == candidates(names).to_multiset(),
        ordered(names).to_multiset().count(name) == if is_log_name(name) && number_of(name)
            is Some {
            names.to_multiset().count(name)
        } else {
            0
        },
{
    let logs = log_names(names);
    let has_number = |name: Seq<u8>| number_of(name) is Some;
    let is_log = |name: Seq<u8>| is_log_name(name);
    let name_of = |pair: (u64, Seq<u8>)| pair.1;
    let given = paired(logs);
    let pairs = given.sort_by(order());
    lemma_order_total();
    given.lemma_sort_by_ensures(order());
    lemma_map_permutation(pairs, given, name_of);
    assert(names_in(given) =~= candidates(names));
    lemma_filter_count(logs, has_number, name);
    lemma_filter_count(names, is_log, name);
}

/// The order is the only one of its kind: names that are the logs with a
/// number among the names given, each as often, and in which no name is read
/// later than one behind it, are the order.
pub proof fn lemma_ordered_is(names: Seq<Seq<u8>>, read: Seq<Seq<u8>>)
    requires
        read.to_multiset() == candidates(names).to_multiset(),
        forall|i: int, j: int|
            0 <= i < j < read.len() ==> reads_first(
                with_number(#[trigger] read[i]),
                with_number(#[trigger] read[j]),
            ),
    ensures
        ordered(names) == read,
{
    let number_it = |name: Seq<u8>| with_number(name);
    let given = paired(log_names(names));
    let pairs = read.map_values(number_it);
    lemma_map_permutation(read, candidates(names), number_it);
    assert(given =~= candidates(names).map_values(number_it));
    lemma_order_total();
    given.lemma_sort_by_ensures(order());
    assert(sorted_by(pairs, order())) by {
        assert forall|i: int, j: int| 0 <= i < j < pairs.len() implies #[trigger] order()(
            pairs[i],
            pairs[j],
        ) by {
            assert(reads_first(with_number(read[i]), with_number(read[j])));
        }
    }
    lemma_sorted_unique(pairs, given.sort_by(order()), order());
    assert(names_in(pairs) =~= read);
}

/// The numbers never rise in the order: of two names in it the one read first
/// has the higher number, or the same number and bytes that are no lower.
pub proof fn lemma_ordered_descends(names: Seq<Seq<u8>>, i: int, j: int)
    requires
        0 <= i < j < ordered(names).len(),
    ensures
        number_of(ordered(names)[i]) is Some,
        number_of(ordered(names)[j]) is Some,
        number_of(ordered(names)[i])->0 >= number_of(ordered(names)[j])->0,
        reads_first(with_number(ordered(names)[i]), with_number(ordered(names)[j])),
{
    lemma_sorted_pairs(names);
    let pairs = paired(log_names(names)).sort_by(order());
    assert(order()(pairs[i], pairs[j]));
    assert(ordered(names)[i] == pairs[i].1);
    assert(ordered(names)[j] == pairs[j].1);
}

/// Only logs with a number are read: each name in the order is one of the
/// names given, begins as a log's name does and has a number.
pub proof fn lemma_ordered_names(names: Seq<Seq<u8>>, i: int)
    requires
        0 <= i < ordered(names).len(),
    ensures
        names.contains(ordered(names)[i]),
        is_log_name(ordered(names)[i]),
        number_of(ordered(names)[i]) is Some,
{
    lemma_sorted_pairs(names);
    let pairs = paired(log_names(names)).sort_by(order());
    assert(ordered(names)[i] == pairs[i].1);
}

/// The log in use is read where it is among the names.
pub proof fn lemma_log_in_use_read(names: Seq<Seq<u8>>)
    requires
        names.contains(log_name()),
    ensures
        ordered(names).contains(log_name()),
{
    broadcast use group_to_multiset_ensures;

    lemma_log_in_use();
    lemma_ordered_counts(names, log_name());
    assert(names.to_multiset().count(log_name()) > 0);
    assert(ordered(names).to_multiset().count(log_name()) > 0);
}

/// The log in use stands behind all other logs: what is read behind it is the
/// log in use again.
pub proof fn lemma_log_in_use_last(names: Seq<Seq<u8>>, i: int, j: int)
    requires
        0 <= i < j < ordered(names).len(),
        ordered(names)[i] == log_name(),
    ensures
        ordered(names)[j] == log_name(),
{
    lemma_log_in_use();
    lemma_ordered_descends(names, i, j);
    lemma_ordered_names(names, j);
    let behind = ordered(names)[j];
    lemma_lex_prefix(log_name(), behind);
    lemma_lex_antisymmetric(behind, log_name());
}

/// The order does not depend on the order in which the names are given: names
/// that are the same, each as often, are read in the same order.
pub proof fn lemma_order_ignores_listing(names: Seq<Seq<u8>>, listed: Seq<Seq<u8>>)
    requires
        names.to_multiset() == listed.to_multiset(),
    ensures
        ordered(names) == ordered(listed),
{
    let has_number = |name: Seq<u8>| number_of(name) is Some;
    let is_log = |name: Seq<u8>| is_log_name(name);
    let number_it = |name: Seq<u8>| with_number(name);
    lemma_filter_permutation(names, listed, is_log);
    lemma_filter_permutation(log_names(names), log_names(listed), has_number);
    lemma_map_permutation(
        log_names(names).filter(has_number),
        log_names(listed).filter(has_number),
        number_it,
    );
    let first = paired(log_names(names));
    let second = paired(log_names(listed));
    assert(first.to_multiset() == second.to_multiset());
    lemma_order_total();
    first.lemma_sort_by_ensures(order());
    second.lemma_sort_by_ensures(order());
    lemma_sorted_unique(first.sort_by(order()), second.sort_by(order()), order());
}

/// The paths to read in a directory do not depend on the order in which its
/// names are listed.
pub proof fn lemma_pathnames_ignore_listing(
    pathname: Seq<u8>,
    names: Seq<Seq<u8>>,
    listed: Seq<Seq<u8>>,
)
    requires
        names.to_multiset() == listed.to_multiset(),
    ensures
        pathnames_to_analyze(pathname, false, names) == pathnames_to_analyze(
            pathname,
            false,
            listed,
        ),
{
    lemma_order_ignores_listing(names, listed);
}

} // verus!
