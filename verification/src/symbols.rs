//! Sequences of terrain symbols: the mathematical vocabulary in which the
//! contracts of domains and rule tables are written, and the string helpers
//! that compute it.

use vstd::prelude::*;

verus! {

/// The symbols of `domain` that also occur in `options`, in the order they
/// have in `domain`.
pub open spec fn restrict(domain: Seq<char>, options: Seq<char>) -> Seq<char> {
    domain.filter(|c: char| options.contains(c))
}

/// `s` without its repetitions: every symbol stays where it first occurs.
pub open spec fn first_occurrences(s: Seq<char>) -> Seq<char>
    decreases s.len(),
{
    if s.len() == 0 {
        s
    } else {
        let head = first_occurrences(s.drop_last());
        if head.contains(s.last()) {
            head
        } else {
            head.push(s.last())
        }
    }
}

/// Every symbol of `inner` occurs in `outer`, and none occurs twice in `inner`.
pub open spec fn within(inner: Seq<char>, outer: Seq<char>) -> bool {
    &&& inner.no_duplicates()
    &&& forall|i: int| 0 <= i < inner.len() ==> outer.contains(#[trigger] inner[i])
}

/// A symbol survives `restrict` exactly when both sequences hold it.
pub proof fn lemma_restrict_contains(domain: Seq<char>, options: Seq<char>, x: char)
    ensures
        restrict(domain, options).contains(x) <==> domain.contains(x) && options.contains(x),
{
    let pred = |c: char| options.contains(c);
    let kept = domain.filter(pred);
    if kept.contains(x) {
        domain.lemma_filter_contains_rev(pred, x);
        let i = choose|i: int| 0 <= i < kept.len() && kept[i] == x;
        domain.lemma_filter_pred(pred, i);
    }
    if domain.contains(x) && options.contains(x) {
        let i = choose|i: int| 0 <= i < domain.len() && domain[i] == x;
        domain.lemma_filter_contains(pred, i);
    }
}

/// `restrict` never lengthens a domain, and restricting again by the same
/// options changes nothing: to prune twice by one mask is to prune once.
pub proof fn lemma_restrict_idempotent(domain: Seq<char>, options: Seq<char>)
    ensures
        restrict(domain, options).len() <= domain.len(),
        restrict(restrict(domain, options), options) == restrict(domain, options),
    decreases domain.len(),
{
    let pred = |c: char| options.contains(c);
    domain.lemma_filter_len(pred);
    if domain.len() > 0 {
        let front = domain.drop_last();
        lemma_restrict_idempotent(front, options);
        assert(domain =~= front.push(domain.last()));
        front.lemma_filter_push(domain.last(), pred);
        if pred(domain.last()) {
            front.filter(pred).lemma_filter_push(domain.last(), pred);
        }
    } else {
        assert(domain.filter(pred) =~= domain);
    }
}

/// A domain without repetitions keeps none under `restrict`.
pub proof fn lemma_restrict_within(domain: Seq<char>, options: Seq<char>)
    requires
        domain.no_duplicates(),
    ensures
        within(restrict(domain, options), domain),
    decreases domain.len(),
{
    let pred = |c: char| options.contains(c);
    let kept = restrict(domain, options);
    assert forall|i: int| 0 <= i < kept.len() implies domain.contains(#[trigger] kept[i]) by {
        assert(kept.contains(kept[i]));
        lemma_restrict_contains(domain, options, kept[i]);
    }
    if domain.len() > 0 {
        let front = domain.drop_last();
        let last = domain.last();
        lemma_restrict_within(front, options);
        assert(domain =~= front.push(last));
        front.lemma_filter_push(last, pred);
        if pred(last) {
            let before = restrict(front, options);
            if before.contains(last) {
                lemma_restrict_contains(front, options, last);
                let j = choose|j: int| 0 <= j < front.len() && front[j] == last;
                assert(domain[j] == domain[domain.len() - 1]);
            }
        }
    }
}

/// What `first_occurrences` keeps: the same symbols, each once, so never more
/// than it was given.
pub proof fn lemma_first_occurrences(s: Seq<char>)
    ensures
        first_occurrences(s).no_duplicates(),
        first_occurrences(s).len() <= s.len(),
        forall|x: char| first_occurrences(s).contains(x) <==> s.contains(x),
    decreases s.len(),
{
    if s.len() > 0 {
        let front = s.drop_last();
        let last = s.last();
        let head = first_occurrences(front);
        lemma_first_occurrences(front);
        assert(s =~= front.push(last));
        assert forall|x: char| first_occurrences(s).contains(x) <==> s.contains(x) by {
            vstd::seq_lib::lemma_seq_contains_after_push(front, last, x);
            vstd::seq_lib::lemma_seq_contains_after_push(head, last, x);
        }
    }
}

/// Where nothing is repeated, `first_occurrences` drops nothing.
pub proof fn lemma_first_occurrences_keeps_unique(s: Seq<char>)
    requires
        s.no_duplicates(),
    ensures
        first_occurrences(s) == s,
    decreases s.len(),
{
    if s.len() > 0 {
        let front = s.drop_last();
        lemma_first_occurrences_keeps_unique(front);
        if front.contains(s.last()) {
            let j = choose|j: int| 0 <= j < front.len() && front[j] == s.last();
            assert(s[j] == s[s.len() - 1]);
        }
        assert(front.push(s.last()) =~= s);
    }
}

/// A sequence without repetitions is no longer than any sequence that holds
/// all its symbols.
pub proof fn lemma_within_len(inner: Seq<char>, outer: Seq<char>)
    requires
        within(inner, outer),
    ensures
        inner.len() <= outer.len(),
{
    inner.unique_seq_to_set();
    outer.lemma_cardinality_of_set();
    assert(inner.to_set().subset_of(outer.to_set())) by {
        assert forall|x: char| inner.to_set().contains(x) implies outer.to_set().contains(x) by {
            let i = choose|i: int| 0 <= i < inner.len() && inner[i] == x;
            assert(outer.contains(inner[i]));
        }
    }
    vstd::seq_lib::seq_to_set_is_finite(outer);
    vstd::set_lib::lemma_len_subset(inner.to_set(), outer.to_set());
}

/// `String::push` of the standard library: the string gains `c` as its last
/// character and is otherwise unchanged.
pub assume_specification[ String::push ](s: &mut String, c: char)
    ensures
        final(s)@ == old(s)@.push(c),
;

/// Whether `c` occurs in `s`.
pub fn contains_char(s: &str, c: char) -> (found: bool)
    ensures
        found == s@.contains(c),
{
    let mut found = false;
    for x in it: s.chars()
        invariant
            it.seq() == s@,
            found == s@.take(it.index() as int).contains(c),
    {
        proof {
            let i = it.index() as int;
            assert(s@.take(i + 1) =~= s@.take(i).push(x));
            vstd::seq_lib::lemma_seq_contains_after_push(s@.take(i), x, c);
        }
        if x == c {
            found = true;
        }
    }
    proof {
        assert(s@.take(s@.len() as int) =~= s@);
    }
    found
}

} // verus!
