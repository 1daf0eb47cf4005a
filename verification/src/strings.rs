//! Helpers over lists of strings, stated over their character sequences.

use vstd::prelude::*;

verus! {

/// Number of positions of `list` that hold `item`.
pub open spec fn occurrences(list: Seq<Seq<char>>, item: Seq<char>) -> nat
    decreases list.len(),
{
    if list.len() == 0 {
        0
    } else {
        occurrences(list.drop_last(), item) + if list.last() == item {
            1nat
        } else {
            0nat
        }
    }
}

/// An item occurs in a list exactly when its number of occurrences is positive.
pub proof fn lemma_occurrences_contains(list: Seq<Seq<char>>, item: Seq<char>)
    ensures
        occurrences(list, item) > 0 <==> list.contains(item),
        occurrences(list, item) <= list.len(),
    decreases list.len(),
{
    if list.len() > 0 {
        let front = list.drop_last();
        lemma_occurrences_contains(front, item);
        if front.contains(item) {
            let i = choose|i: int| 0 <= i < front.len() && front[i] == item;
            assert(list[i] == item);
        }
        if list.contains(item) && list.last() != item {
            let i = choose|i: int| 0 <= i < list.len() && list[i] == item;
            assert(front[i] == item);
        }
        if list.last() == item {
            assert(list[list.len() - 1] == item);
        }
    }
}

/// A prefix of a list holds an item no more often than the whole list.
pub proof fn lemma_occurrences_prefix(list: Seq<Seq<char>>, n: int, item: Seq<char>)
    requires
        0 <= n <= list.len(),
    ensures
        occurrences(list.subrange(0, n), item) <= occurrences(list, item),
    decreases list.len() - n,
{
    if n < list.len() {
        assert(list.subrange(0, n + 1).drop_last() =~= list.subrange(0, n));
        lemma_occurrences_prefix(list, n + 1, item);
    } else {
        assert(list.subrange(0, n) =~= list);
    }
}

/// Extending a prefix by one position counts that position's item once more.
pub proof fn lemma_occurrences_step(list: Seq<Seq<char>>, n: int, item: Seq<char>)
    requires
        0 <= n < list.len(),
    ensures
        occurrences(list.subrange(0, n + 1), item) == occurrences(list.subrange(0, n), item) + (
        if list[n] == item {
            1nat
        } else {
            0nat
        }),
{
    assert(list.subrange(0, n + 1).drop_last() =~= list.subrange(0, n));
    assert(list.subrange(0, n + 1).last() == list[n]);
}

/// A copy of a list of strings with the same characters in the same order.
pub fn clone_strings(list: &Vec<String>) -> (res: Vec<String>)
    ensures
        res.deep_view() == list.deep_view(),
{
    let mut out: Vec<String> = Vec::new();
    let mut i: usize = 0;
    while i < list.len()
        invariant
            i <= list.len(),
            out.len() == i,
            forall|j: int| 0 <= j < i ==> out@[j]@ == list@[j]@,
        decreases list.len() - i,
    {
        out.push(list[i].clone());
        i += 1;
    }
    assert(out.deep_view() =~= list.deep_view());
    out
}

/// Position of the first string of `list` equal to `item`.
pub fn position_of(list: &Vec<String>, item: &String) -> (res: Option<usize>)
    ensures
        match res {
            Some(i) => i < list.len() && list@[i as int]@ == item@ && forall|j: int|
                0 <= j < i ==> (#[trigger] list@[j])@ != item@,
            None => !list.deep_view().contains(item@),
        },
{
    let mut i: usize = 0;
    while i < list.len()
        invariant
            i <= list.len(),
            forall|j: int| 0 <= j < i ==> (#[trigger] list@[j])@ != item@,
        decreases list.len() - i,
    {
        if list[i] == *item {
            return Some(i);
        }
        i += 1;
    }
    assert(!list.deep_view().contains(item@)) by {
        if list.deep_view().contains(item@) {
            let j = choose|j: int| 0 <= j < list.deep_view().len() && list.deep_view()[j] == item@;
            assert(list@[j]@ == item@);
        }
    }
    None
}

/// Whether `list` holds a string equal to `item`.
pub fn contains_string(list: &Vec<String>, item: &String) -> (res: bool)
    ensures
        res == list.deep_view().contains(item@),
{
    match position_of(list, item) {
        Some(i) => {
            assert(list.deep_view()[i as int] == item@);
            true
        },
        None => false,
    }
}

} // verus!
