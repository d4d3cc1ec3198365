//! Tags: a list of names with commas between them.

use vstd::prelude::*;
use crate::names::{
    cycle, cycle_index, find_equal, find_match, first_match, lemma_found_is_contained,
};
use crate::outputs::{AType, NAType, StepType, SteppingError, VerifyingOutput};
use crate::text::{
    copy_chars, is_space, is_tight, join, join_chars, lemma_split, lemma_split_around,
    lemma_trim_end_shape, lemma_trim_start, lemma_trim_start_shape, lemma_trim_tight, rows, split,
    split_chars, trim, trim_chars, trim_start,
};

verus! {

/// What stands between two tags of a list: a comma and a space.
pub open spec fn separator() -> Seq<char> {
    seq![',', ' ']
}

/// The tags among the given parts: each part trimmed, without the empty ones
/// and without those that stand further to the front already.
pub open spec fn collect(parts: Seq<Seq<char>>) -> Seq<Seq<char>>
    decreases parts.len(),
{
    if parts.len() == 0 {
        Seq::empty()
    } else {
        let before = collect(parts.drop_last());
        let tag = trim(parts.last());
        if tag.len() == 0 || before.contains(tag) {
            before
        } else {
            before.push(tag)
        }
    }
}

/// The tags of a text, in the order in which they first stand there.
pub open spec fn tag_list(s: Seq<char>) -> Seq<Seq<char>> {
    collect(split(s, ','))
}

/// The text of a list of tags made tidy: its tags with a comma and a space
/// between each two.
pub open spec fn tidy_tags(s: Seq<char>) -> Seq<char> {
    join(tag_list(s), separator())
}

/// Those of the given tags that the store holds, in their order.
pub open spec fn known(tags: Seq<Seq<char>>, store: Seq<Seq<char>>) -> Seq<Seq<char>>
    decreases tags.len(),
{
    if tags.len() == 0 {
        Seq::empty()
    } else if store.contains(tags.last()) {
        known(tags.drop_last(), store).push(tags.last())
    } else {
        known(tags.drop_last(), store)
    }
}

/// What validation against the store makes of the text of a list of tags.
///
/// An empty text is left alone. Otherwise the text becomes the tidy list of
/// those of its tags that the store holds, written as the text has them. It is
/// accepted if the store holds all of its tags.
pub open spec fn tags_check(s: Seq<char>, store: Seq<Seq<char>>) -> (VerifyingOutput, Seq<char>) {
    let kept = known(tag_list(s), store);
    if s.len() == 0 {
        (VerifyingOutput::Nothing(AType::Tags), s)
    } else if kept.len() == tag_list(s).len() {
        (VerifyingOutput::Accepted(AType::Tags), join(kept, separator()))
    } else {
        (VerifyingOutput::NotAccepted(NAType::NonExistingTag), join(kept, separator()))
    }
}

/// Each part trimmed.
pub open spec fn trimmed(parts: Seq<Seq<char>>) -> Seq<Seq<char>> {
    Seq::new(parts.len(), |i: int| trim(parts[i]))
}

/// What stepping makes of the text of a list of tags, given a suggestion for
/// the tag that is being typed and the tags of the store in their order.
///
/// An empty text becomes the first tag of the store; with no tag in the store
/// the step fails. Otherwise only what stands behind the last comma is worked
/// on, and what stands in front is kept, each part trimmed:
/// - if the store holds the last part, whatever the case of its letters, the
///   part gives way to the tag after or before the first such tag of the store,
///   going round at both ends;
/// - else, if the last part is empty, the first tag of the store takes its
///   place, or nothing does if the store has no tag;
/// - else the suggestion takes its place and the step fails.
pub open spec fn tags_step(
    s: Seq<char>,
    autofill: Seq<char>,
    step: StepType,
    store: Seq<Seq<char>>,
) -> (Result<(), SteppingError>, Seq<char>) {
    let parts = trimmed(split(s, ','));
    let rest = parts.drop_last();
    let last = parts.last();
    let at = first_match(store, last, 0);
    if s.len() == 0 {
        if store.len() > 0 {
            (Ok(()), store[0])
        } else {
            (Err(SteppingError::InvalidTags), s)
        }
    } else if at < store.len() {
        (Ok(()), join(rest.push(store[cycle(at, store.len() as int, step)]), separator()))
    } else if last.len() == 0 {
        if store.len() > 0 {
            (Ok(()), join(rest.push(store[0]), separator()))
        } else {
            (Ok(()), join(rest, separator()))
        }
    } else {
        (Err(SteppingError::InvalidTags), join(rest.push(autofill), separator()))
    }
}

/// The separator of a tidy list.
fn comma_space() -> (sep: Vec<char>)
    ensures
        sep@ == separator(),
{
    let mut sep: Vec<char> = Vec::new();
    sep.push(',');
    sep.push(' ');
    assert(sep@ =~= separator());
    sep
}

/// The tags of a text.
pub fn list_tags(text: &Vec<char>) -> (tags: Vec<Vec<char>>)
    ensures
        rows(tags@) == tag_list(text@),
{
    let parts = split_chars(text, ',');
    let mut tags: Vec<Vec<char>> = Vec::new();
    let mut i: usize = 0;
    while i < parts.len()
        invariant
            i <= parts.len(),
            rows(tags@) == collect(rows(parts@).take(i as int)),
        decreases parts.len() - i,
    {
        let ghost next = rows(parts@).take(i + 1);
        assert(next.drop_last() == rows(parts@).take(i as int));
        assert(next.last() == parts@[i as int]@);
        let tag = trim_chars(&parts[i]);
        proof {
            lemma_found_is_contained(rows(tags@), tag@);
        }
        if tag.len() != 0 && find_equal(&tags, &tag) == tags.len() {
            let ghost before = rows(tags@);
            tags.push(tag);
            assert(rows(tags@) =~= before.push(tag@));
        }
        i += 1;
    }
    assert(rows(parts@).take(parts.len() as int) == rows(parts@));
    tags
}

/// Makes the text of a list of tags tidy.
pub fn tidy(text: &Vec<char>) -> (fixed: Vec<char>)
    ensures
        fixed@ == tidy_tags(text@),
{
    let tags = list_tags(text);
    join_chars(&tags, &comma_space())
}

/// Validates the text of a list of tags against the store.
pub fn check_tags(text: &Vec<char>, store: &Vec<Vec<char>>) -> (r: (VerifyingOutput, Vec<char>))
    ensures
        (r.0, r.1@) == tags_check(text@, rows(store@)),
{
    if text.len() == 0 {
        return (VerifyingOutput::Nothing(AType::Tags), Vec::new());
    }
    let tags = list_tags(text);
    let mut kept: Vec<Vec<char>> = Vec::new();
    let mut i: usize = 0;
    while i < tags.len()
        invariant
            i <= tags.len(),
            kept.len() <= i,
            rows(kept@) == known(rows(tags@).take(i as int), rows(store@)),
        decreases tags.len() - i,
    {
        let ghost next = rows(tags@).take(i + 1);
        assert(next.drop_last() == rows(tags@).take(i as int));
        assert(next.last() == tags@[i as int]@);
        proof {
            lemma_found_is_contained(rows(store@), tags@[i as int]@);
        }
        if find_equal(store, &tags[i]) < store.len() {
            let ghost before = rows(kept@);
            kept.push(copy_chars(&tags[i]));
            assert(rows(kept@) =~= before.push(tags@[i as int]@));
        }
        i += 1;
    }
    assert(rows(tags@).take(tags.len() as int) == rows(tags@));
    let fixed = join_chars(&kept, &comma_space());
    if kept.len() == tags.len() {
        (VerifyingOutput::Accepted(AType::Tags), fixed)
    } else {
        (VerifyingOutput::NotAccepted(NAType::NonExistingTag), fixed)
    }
}

/// Steps the text of a list of tags.
pub fn move_tags(text: &Vec<char>, autofill: &Vec<char>, step: StepType, store: &Vec<Vec<char>>) -> (r:
    (Result<(), SteppingError>, Vec<char>))
    ensures
        (r.0, r.1@) == tags_step(text@, autofill@, step, rows(store@)),
{
    if text.len() == 0 {
        if store.len() > 0 {
            return (Ok(()), copy_chars(&store[0]));
        } else {
            return (Err(SteppingError::InvalidTags), Vec::new());
        }
    }
    let parts = split_chars(text, ',');
    proof {
        lemma_split(text@, ',');
    }
    let mut rest: Vec<Vec<char>> = Vec::new();
    let mut i: usize = 0;
    while i + 1 < parts.len()
        invariant
            i + 1 <= parts.len(),
            rest.len() == i,
            rows(rest@) == trimmed(rows(parts@)).take(i as int),
        decreases parts.len() - i,
    {
        let ghost before = rows(rest@);
        rest.push(trim_chars(&parts[i]));
        i += 1;
        assert(rows(rest@) =~= trimmed(rows(parts@)).take(i as int));
    }
    assert(rows(rest@) =~= trimmed(rows(parts@)).drop_last());
    let last = trim_chars(&parts[parts.len() - 1]);
    assert(last@ == trimmed(rows(parts@)).last());
    let at: usize = find_match(store, &last);
    let sep = comma_space();
    let ghost kept = rows(rest@);
    if at < store.len() {
        let next: usize = cycle_index(at, store.len(), step);
        rest.push(copy_chars(&store[next]));
        assert(rows(rest@) =~= kept.push(store@[next as int]@));
        (Ok(()), join_chars(&rest, &sep))
    } else if last.len() == 0 {
        if store.len() > 0 {
            rest.push(copy_chars(&store[0]));
            assert(rows(rest@) =~= kept.push(store@[0]@));
        }
        (Ok(()), join_chars(&rest, &sep))
    } else {
        rest.push(copy_chars(autofill));
        assert(rows(rest@) =~= kept.push(autofill@));
        (Err(SteppingError::InvalidTags), join_chars(&rest, &sep))
    }
}

/// A tag as validation writes it: not empty, without white space at its ends
/// and without a comma.
pub open spec fn is_tag(t: Seq<char>) -> bool {
    t.len() > 0 && is_tight(t) && !t.contains(',')
}

/// A list of tags as validation writes it: each a tag, none twice.
pub open spec fn is_tag_list(tags: Seq<Seq<char>>) -> bool {
    &&& forall|i: int| 0 <= i < tags.len() ==> is_tag(#[trigger] tags[i])
    &&& forall|i: int, j: int| 0 <= i < j < tags.len() ==> tags[i] != tags[j]
}

/// Trimming brings no comma into a text.
proof fn lemma_trim_no_comma(s: Seq<char>)
    requires
        !s.contains(','),
    ensures
        !trim(s).contains(','),
{
    lemma_trim_start_shape(s);
    lemma_trim_end_shape(trim_start(s));
    let t = trim(s);
    let lead = s.len() - trim_start(s).len();
    assert forall|i: int| 0 <= i < t.len() implies t[i] != ',' by {
        assert(t[i] == trim_start(s)[i]);
        assert(trim_start(s)[i] == s[i + lead]);
        assert(s.contains(s[i + lead]));
    }
}

/// What is collected from parts without commas is a list of tags.
proof fn lemma_collect(parts: Seq<Seq<char>>)
    requires
        forall|i: int| 0 <= i < parts.len() ==> !(#[trigger] parts[i]).contains(','),
    ensures
        is_tag_list(collect(parts)),
    decreases parts.len(),
{
    if parts.len() > 0 {
        let front = parts.drop_last();
        assert forall|i: int| 0 <= i < front.len() implies !(#[trigger] front[i]).contains(',') by {
            assert(front[i] == parts[i]);
        }
        lemma_collect(front);
        lemma_trim_tight(parts.last());
        lemma_trim_no_comma(parts.last());
    }
}

/// The tags of a text are a list of tags.
pub proof fn lemma_tag_list(s: Seq<char>)
    ensures
        is_tag_list(tag_list(s)),
{
    lemma_split(s, ',');
    let parts = split(s, ',');
    assert forall|i: int| 0 <= i < parts.len() implies !(#[trigger] parts[i]).contains(',') by {
        if parts[i].contains(',') {
            let j = choose|j: int| 0 <= j < parts[i].len() && parts[i][j] == ',';
            assert(false);
        }
    }
    lemma_collect(parts);
}

/// Those of a list of tags that the store holds are a list of tags, each in
/// the store; if none was left out, they are the list itself.
proof fn lemma_known(tags: Seq<Seq<char>>, store: Seq<Seq<char>>)
    requires
        is_tag_list(tags),
    ensures
        is_tag_list(known(tags, store)),
        known(tags, store).len() <= tags.len(),
        forall|i: int| 0 <= i < known(tags, store).len() ==> tags.contains(#[trigger] known(tags, store)[i]),
        forall|i: int| 0 <= i < known(tags, store).len() ==> store.contains(#[trigger] known(tags, store)[i]),
        known(tags, store).len() == tags.len() ==> known(tags, store) == tags,
    decreases tags.len(),
{
    if tags.len() > 0 {
        let front = tags.drop_last();
        assert(is_tag_list(front)) by {
            assert forall|i: int| 0 <= i < front.len() implies is_tag(#[trigger] front[i]) by {
                assert(front[i] == tags[i]);
            }
            assert forall|i: int, j: int| 0 <= i < j < front.len() implies front[i] != front[j] by {
                assert(front[i] == tags[i] && front[j] == tags[j]);
            }
        }
        lemma_known(front, store);
        let k = known(tags, store);
        let kf = known(front, store);
        assert forall|i: int| 0 <= i < k.len() implies tags.contains(#[trigger] k[i]) by {
            if i < kf.len() {
                assert(front.contains(kf[i]));
                let j = choose|j: int| 0 <= j < front.len() && front[j] == kf[i];
                assert(tags[j] == kf[i]);
            } else {
                assert(tags[tags.len() - 1] == k[i]);
            }
        }
        if store.contains(tags.last()) {
            assert forall|i: int, j: int| 0 <= i < j < k.len() implies k[i] != k[j] by {
                if j == k.len() - 1 {
                    assert(front.contains(kf[i]));
                    let m = choose|m: int| 0 <= m < front.len() && front[m] == kf[i];
                    assert(tags[m] == kf[i]);
                    assert(tags[m] != tags[tags.len() - 1]);
                } else {
                    assert(kf[i] != kf[j]);
                }
            }
            assert forall|i: int| 0 <= i < k.len() implies is_tag(#[trigger] k[i]) by {
                if i < kf.len() {
                    assert(is_tag(kf[i]));
                } else {
                    assert(k[i] == tags[tags.len() - 1]);
                }
            }
            if k.len() == tags.len() {
                assert(kf == front);
                assert(front.push(tags.last()) == tags);
            }
        } else {
            assert(k == kf);
        }
    }
}

/// A list of tags, each but the first with a space in front: the parts that
/// the joined list has between its commas.
pub open spec fn spaced(tags: Seq<Seq<char>>) -> Seq<Seq<char>> {
    Seq::new(
        tags.len(),
        |i: int|
            if i == 0 {
                tags[i]
            } else {
                seq![' '] + tags[i]
            },
    )
}

/// The parts of the joined text of a list of tags are the tags, each but the
/// first with a space in front.
proof fn lemma_split_joined(tags: Seq<Seq<char>>)
    requires
        tags.len() > 0,
        is_tag_list(tags),
    ensures
        split(join(tags, separator()), ',') == spaced(tags),
    decreases tags.len(),
{
    if tags.len() == 1 {
        lemma_split(tags[0], ',');
        assert(spaced(tags) =~= seq![tags[0]]);
    } else {
        let front = tags.drop_last();
        assert(is_tag_list(front)) by {
            assert forall|i: int| 0 <= i < front.len() implies is_tag(#[trigger] front[i]) by {
                assert(front[i] == tags[i]);
            }
            assert forall|i: int, j: int| 0 <= i < j < front.len() implies front[i] != front[j] by {
                assert(front[i] == tags[i] && front[j] == tags[j]);
            }
        }
        lemma_split_joined(front);
        let head = join(front, separator());
        let tail = seq![' '] + tags.last();
        assert(is_tag(tags[tags.len() - 1]));
        assert(!tail.contains(',')) by {
            if tail.contains(',') {
                let j = choose|j: int| 0 <= j < tail.len() && tail[j] == ',';
                assert(tags.last()[j - 1] == ',');
                assert(tags.last().contains(','));
            }
        }
        lemma_split(tail, ',');
        lemma_split_around(head, tail, ',');
        assert(join(tags, separator()) =~= head + seq![','] + tail);
        assert(spaced(tags) =~= spaced(front) + seq![tail]);
    }
}

/// Trimming a tag, with or without a space in front, gives the tag.
proof fn lemma_trim_spaced(t: Seq<char>)
    requires
        is_tag(t),
    ensures
        trim(t) == t,
        trim(seq![' '] + t) == t,
{
    lemma_trim_tight(t);
    let padded = seq![' '] + t;
    assert(is_space(' '));
    assert(padded[1] == t[0]);
    lemma_trim_start(padded, 1);
    assert(padded.skip(1) =~= t);
}

/// What is collected from the spaced tags of a list of tags is the list.
proof fn lemma_collect_spaced(tags: Seq<Seq<char>>)
    requires
        is_tag_list(tags),
    ensures
        collect(spaced(tags)) == tags,
    decreases tags.len(),
{
    if tags.len() == 0 {
        assert(spaced(tags) =~= Seq::empty());
        assert(tags =~= Seq::empty());
    } else {
        let front = tags.drop_last();
        assert(is_tag_list(front)) by {
            assert forall|i: int| 0 <= i < front.len() implies is_tag(#[trigger] front[i]) by {
                assert(front[i] == tags[i]);
            }
            assert forall|i: int, j: int| 0 <= i < j < front.len() implies front[i] != front[j] by {
                assert(front[i] == tags[i] && front[j] == tags[j]);
            }
        }
        lemma_collect_spaced(front);
        assert(spaced(tags).drop_last() =~= spaced(front));
        assert(is_tag(tags[tags.len() - 1]));
        lemma_trim_spaced(tags.last());
        assert(trim(spaced(tags).last()) == tags.last());
        assert(!front.contains(tags.last())) by {
            if front.contains(tags.last()) {
                let j = choose|j: int| 0 <= j < front.len() && front[j] == tags.last();
                assert(tags[j] == tags[tags.len() - 1]);
            }
        }
        assert(front.push(tags.last()) == tags);
    }
}

/// Of tags that the store holds, all are known.
proof fn lemma_known_all(tags: Seq<Seq<char>>, store: Seq<Seq<char>>)
    requires
        forall|i: int| 0 <= i < tags.len() ==> store.contains(#[trigger] tags[i]),
    ensures
        known(tags, store) == tags,
    decreases tags.len(),
{
    if tags.len() > 0 {
        let front = tags.drop_last();
        assert forall|i: int| 0 <= i < front.len() implies store.contains(#[trigger] front[i]) by {
            assert(front[i] == tags[i]);
        }
        lemma_known_all(front, store);
        assert(store.contains(tags[tags.len() - 1]));
        assert(front.push(tags.last()) == tags);
    } else {
        assert(tags =~= Seq::empty());
    }
}

/// The tags of the joined text of a list of tags are that list.
pub proof fn lemma_tags_of_joined(tags: Seq<Seq<char>>)
    requires
        is_tag_list(tags),
    ensures
        tag_list(join(tags, separator())) == tags,
{
    if tags.len() == 0 {
        assert(tags =~= Seq::empty());
        assert(split(Seq::<char>::empty(), ',') =~= seq![Seq::<char>::empty()]);
        let parts = split(join(tags, separator()), ',');
        assert(parts.drop_last() =~= Seq::empty());
        assert(trim(parts.last()) =~= Seq::empty());
        assert(collect(parts.drop_last()) =~= Seq::empty());
    } else {
        lemma_split_joined(tags);
        lemma_collect_spaced(tags);
    }
}

/// Making a list of tags tidy a second time changes nothing.
pub proof fn tidying_tags_is_idempotent(s: Seq<char>)
    ensures
        tidy_tags(tidy_tags(s)) == tidy_tags(s),
{
    lemma_tag_list(s);
    lemma_tags_of_joined(tag_list(s));
}

/// Validating an accepted list of tags again accepts it and leaves it as it
/// is, unless the list holds no tag: the text of such a list is empty, and an
/// empty text is not validated.
pub proof fn tags_validation_is_idempotent(s: Seq<char>, store: Seq<Seq<char>>)
    requires
        tags_check(s, store).0 is Accepted,
        tags_check(s, store).1.len() > 0,
    ensures
        tags_check(tags_check(s, store).1, store) == tags_check(s, store),
{
    let tags = tag_list(s);
    lemma_tag_list(s);
    lemma_known(tags, store);
    assert(known(tags, store) == tags);
    lemma_tags_of_joined(tags);
    lemma_known_all(tags, store);
}

} // verus!
