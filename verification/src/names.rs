//! Names of a store: how a text is matched against them, and which of them is
//! closest to a text that matches none.

use vstd::prelude::*;
use crate::outputs::StepType;
use crate::text::{chars_text, rows, same_chars, text_chars};

verus! {

/// The lower-case form of a text, as `str::to_lowercase` of std gives it.
pub uninterp spec fn lowercase(s: Seq<char>) -> Seq<char>;

/// `str::to_lowercase` of std returns the lower-case form of the text. The
/// form follows the tables of Unicode and depends on the text alone.
pub assume_specification[ str::to_lowercase ](s: &str) -> (lower: String)
    ensures
        lower@ == lowercase(s@),
;

/// The lower-case form of the characters of `s`.
pub fn lower_chars(s: &Vec<char>) -> (lower: Vec<char>)
    ensures
        lower@ == lowercase(s@),
{
    let text = chars_text(s);
    let lower = text.as_str().to_lowercase();
    text_chars(lower.as_str())
}

/// Two texts are the same name if their lower-case forms are equal.
pub open spec fn same_name(a: Seq<char>, b: Seq<char>) -> bool {
    lowercase(a) == lowercase(b)
}

/// The index of the first name of `list`, at or after `from`, that is the same
/// name as `t`; the length of `list` if there is none.
pub open spec fn first_match(list: Seq<Seq<char>>, t: Seq<char>, from: int) -> int
    decreases list.len() - from,
{
    if 0 <= from < list.len() && !same_name(list[from], t) {
        first_match(list, t, from + 1)
    } else {
        from
    }
}

/// `first_match` lies between `from` and the length, is the same name as `t`
/// if it lies below the length, and no name between `from` and it is.
pub proof fn lemma_first_match(list: Seq<Seq<char>>, t: Seq<char>, from: int)
    requires
        0 <= from <= list.len(),
    ensures
        from <= first_match(list, t, from) <= list.len(),
        first_match(list, t, from) < list.len() ==> same_name(list[first_match(list, t, from)], t),
        forall|j: int| from <= j < first_match(list, t, from) ==> !same_name(list[j], t),
    decreases list.len() - from,
{
    if from < list.len() && !same_name(list[from], t) {
        lemma_first_match(list, t, from + 1);
    }
}

/// The index of the first text of `list`, at or after `from`, that equals `t`;
/// the length of `list` if there is none.
pub open spec fn first_equal(list: Seq<Seq<char>>, t: Seq<char>, from: int) -> int
    decreases list.len() - from,
{
    if 0 <= from < list.len() && list[from] != t {
        first_equal(list, t, from + 1)
    } else {
        from
    }
}

/// `first_equal` lies between `from` and the length, equals `t` if it lies
/// below the length, and no text between `from` and it does.
pub proof fn lemma_first_equal(list: Seq<Seq<char>>, t: Seq<char>, from: int)
    requires
        0 <= from <= list.len(),
    ensures
        from <= first_equal(list, t, from) <= list.len(),
        first_equal(list, t, from) < list.len() ==> list[first_equal(list, t, from)] == t,
        forall|j: int| from <= j < first_equal(list, t, from) ==> list[j] != t,
    decreases list.len() - from,
{
    if from < list.len() && list[from] != t {
        lemma_first_equal(list, t, from + 1);
    }
}

/// A text is in a list exactly if it is found there.
pub proof fn lemma_found_is_contained(list: Seq<Seq<char>>, t: Seq<char>)
    ensures
        list.contains(t) <==> first_equal(list, t, 0) < list.len(),
{
    lemma_first_equal(list, t, 0);
    if list.contains(t) {
        let k = choose|k: int| 0 <= k < list.len() && #[trigger] list[k] == t;
        assert(first_equal(list, t, 0) <= k);
    }
}

/// The place in a list of `n` entries that is one step from `at`: the next one
/// on a step up, the previous one on a step down, going round at both ends.
pub open spec fn cycle(at: int, n: int, step: StepType) -> int {
    match step {
        StepType::StepUp => (at + 1) % n,
        StepType::StepDown => if at == 0 {
            n - 1
        } else {
            at - 1
        },
    }
}

/// Gives the place one step from `at` in a list of `n` entries.
pub(crate) fn cycle_index(at: usize, n: usize, step: StepType) -> (next: usize)
    requires
        at < n,
    ensures
        next == cycle(at as int, n as int, step),
        next < n,
{
    proof {
        if at + 1 == n {
            assert((at + 1) % (n as int) == 0) by (nonlinear_arith)
                requires
                    at + 1 == n,
                    n > 0,
            ;
        } else {
            assert((at + 1) % (n as int) == at + 1) by (nonlinear_arith)
                requires
                    0 <= at + 1 < n,
            ;
        }
    }
    match step {
        StepType::StepUp => if at + 1 == n {
            0
        } else {
            at + 1
        },
        StepType::StepDown => if at == 0 {
            n - 1
        } else {
            at - 1
        },
    }
}

/// Finds the first name of `list` that is the same name as `t`.
pub fn find_match(list: &Vec<Vec<char>>, t: &Vec<char>) -> (at: usize)
    ensures
        at == first_match(rows(list@), t@, 0),
        at <= list.len(),
{
    let wanted = lower_chars(t);
    let mut at: usize = 0;
    while at < list.len()
        invariant
            at <= list.len(),
            wanted@ == lowercase(t@),
            first_match(rows(list@), t@, 0) == first_match(
                rows(list@),
                t@,
                at as int,
            ),
        decreases list.len() - at,
    {
        let lower = lower_chars(&list[at]);
        if same_chars(&lower, &wanted) {
            return at;
        }
        at += 1;
    }
    at
}

/// Finds the first text of `list` that equals `t`.
pub fn find_equal(list: &Vec<Vec<char>>, t: &Vec<char>) -> (at: usize)
    ensures
        at == first_equal(rows(list@), t@, 0),
        at <= list.len(),
{
    let mut at: usize = 0;
    while at < list.len()
        invariant
            at <= list.len(),
            first_equal(rows(list@), t@, 0) == first_equal(
                rows(list@),
                t@,
                at as int,
            ),
        decreases list.len() - at,
    {
        if same_chars(&list[at], t) {
            return at;
        }
        at += 1;
    }
    at
}

/// The smallest of three numbers.
pub open spec fn least(a: nat, b: nat, c: nat) -> nat {
    if a <= b && a <= c {
        a
    } else if b <= c {
        b
    } else {
        c
    }
}

/// The edit distance of two texts: the least number of characters to insert,
/// to delete or to replace by another that turns one text into the other.
pub open spec fn distance(a: Seq<char>, b: Seq<char>) -> nat
    decreases a.len() + b.len(),
{
    if a.len() == 0 {
        b.len()
    } else if b.len() == 0 {
        a.len()
    } else {
        least(
            distance(a.drop_last(), b) + 1,
            distance(a, b.drop_last()) + 1,
            distance(a.drop_last(), b.drop_last()) + if a.last() == b.last() {
                0nat
            } else {
                1nat
            },
        )
    }
}

/// The edit distance is at most the sum of the lengths.
pub proof fn lemma_distance_bound(a: Seq<char>, b: Seq<char>)
    ensures
        distance(a, b) <= a.len() + b.len(),
    decreases a.len() + b.len(),
{
    if a.len() > 0 && b.len() > 0 {
        lemma_distance_bound(a.drop_last(), b);
        lemma_distance_bound(a, b.drop_last());
        lemma_distance_bound(a.drop_last(), b.drop_last());
    }
}

/// Computes the edit distance of two texts.
pub fn edit_distance(a: &Vec<char>, b: &Vec<char>) -> (d: u128)
    ensures
        d == distance(a@, b@),
{
    let mut row: Vec<u128> = Vec::new();
    let mut j: usize = 0;
    while j < b.len()
        invariant
            j <= b.len(),
            row.len() == j,
            forall|k: int| 0 <= k < j ==> row@[k] == distance(a@.take(0), b@.take(k)),
        decreases b.len() - j,
    {
        row.push(j as u128);
        j += 1;
    }
    row.push(b.len() as u128);
    let mut i: usize = 0;
    while i < a.len()
        invariant
            i <= a.len(),
            row.len() == b.len() + 1,
            forall|k: int| 0 <= k <= b.len() ==> row@[k] == distance(a@.take(i as int), b@.take(k)),
        decreases a.len() - i,
    {
        let ghost upper = a@.take(i + 1);
        assert(upper.drop_last() == a@.take(i as int));
        let mut next: Vec<u128> = Vec::new();
        next.push((i + 1) as u128);
        assert(distance(upper, b@.take(0)) == i + 1);
        let mut j: usize = 0;
        while j < b.len()
            invariant
                j <= b.len(),
                i < a.len(),
                row.len() == b.len() + 1,
                next.len() == j + 1,
                upper == a@.take(i + 1),
                upper.drop_last() == a@.take(i as int),
                forall|k: int|
                    0 <= k <= b.len() ==> row@[k] == distance(a@.take(i as int), b@.take(k)),
                forall|k: int| 0 <= k <= j ==> next@[k] == distance(upper, b@.take(k)),
            decreases b.len() - j,
        {
            let ghost across = b@.take(j + 1);
            proof {
                assert(across.drop_last() == b@.take(j as int));
                lemma_distance_bound(a@.take(i as int), across);
                lemma_distance_bound(upper, b@.take(j as int));
                lemma_distance_bound(a@.take(i as int), b@.take(j as int));
            }
            let step: u128 = if a[i] == b[j] {
                0
            } else {
                1
            };
            let change: u128 = row[j] + step;
            let shorten: u128 = row[j + 1] + 1;
            let extend: u128 = next[j] + 1;
            let best: u128 = if shorten <= extend && shorten <= change {
                shorten
            } else if extend <= change {
                extend
            } else {
                change
            };
            assert(best == distance(upper, across));
            next.push(best);
            j += 1;
        }
        row = next;
        i += 1;
    }
    assert(a@.take(a.len() as int) == a@);
    assert(b@.take(b.len() as int) == b@);
    row[b.len()]
}

/// The index of the name among the first `n` of `list` that is closest to `t`
/// by edit distance; of several at the same distance, the first.
pub open spec fn closest(list: Seq<Seq<char>>, t: Seq<char>, n: int) -> int
    decreases n,
{
    if n <= 1 {
        0
    } else {
        let before = closest(list, t, n - 1);
        if distance(list[n - 1], t) < distance(list[before], t) {
            n - 1
        } else {
            before
        }
    }
}

/// No name is closer to `t` than the closest one, and none before it is as
/// close.
pub proof fn lemma_closest(list: Seq<Seq<char>>, t: Seq<char>, n: int)
    requires
        1 <= n <= list.len(),
    ensures
        0 <= closest(list, t, n) < n,
        forall|j: int|
            0 <= j < n ==> distance(list[closest(list, t, n)], t) <= distance(#[trigger] list[j], t),
        forall|j: int|
            0 <= j < closest(list, t, n) ==> distance(list[closest(list, t, n)], t) < distance(
                #[trigger] list[j],
                t,
            ),
    decreases n,
{
    if n > 1 {
        lemma_closest(list, t, n - 1);
    }
}

/// Finds the name of `list` that is closest to `t`.
pub(crate) fn find_closest(list: &Vec<Vec<char>>, t: &Vec<char>) -> (at: usize)
    requires
        list.len() > 0,
    ensures
        at == closest(rows(list@), t@, list.len() as int),
        at < list.len(),
{
    let mut at: usize = 0;
    let mut least_distance: u128 = edit_distance(&list[0], t);
    let mut n: usize = 1;
    while n < list.len()
        invariant
            1 <= n <= list.len(),
            at < n,
            at == closest(rows(list@), t@, n as int),
            least_distance == distance(list@[at as int]@, t@),
        decreases list.len() - n,
    {
        let d: u128 = edit_distance(&list[n], t);
        if d < least_distance {
            at = n;
            least_distance = d;
        }
        n += 1;
    }
    at
}

} // verus!
