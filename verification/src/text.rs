//! Sequences of characters: the operations that every field shares.

use vstd::prelude::*;

verus! {

/// `String::push` of std appends the character to the end of the string.
pub assume_specification[ String::push ](text: &mut String, c: char)
    ensures
        final(text)@ == old(text)@.push(c),
;

/// The characters of a string slice, in order.
pub fn text_chars(text: &str) -> (chars: Vec<char>)
    ensures
        chars@ == text@,
{
    let mut chars: Vec<char> = Vec::new();
    for c in it: text.chars()
        invariant
            chars@ == it.seq().take(it.index() as int),
            it.seq() == text@,
    {
        chars.push(c);
    }
    chars
}

/// The string made of the given characters, in order.
pub fn chars_text(chars: &Vec<char>) -> (text: String)
    ensures
        text@ == chars@,
{
    let mut text = String::new();
    let mut i: usize = 0;
    while i < chars.len()
        invariant
            i <= chars.len(),
            text@ == chars@.take(i as int),
        decreases chars.len() - i,
    {
        text.push(chars[i]);
        i += 1;
    }
    text
}

/// Whether `c` is one of the ten decimal digits.
pub open spec fn is_digit(c: char) -> bool {
    '0' <= c <= '9'
}

/// Tells whether `c` is a decimal digit.
#[verifier::when_used_as_spec(is_digit)]
pub fn is_digit_char(c: char) -> (yes: bool)
    ensures
        yes == is_digit(c),
{
    '0' <= c && c <= '9'
}

/// Whether `c` is a numeric character, as `char::is_numeric` of std tells.
pub uninterp spec fn numeric(c: char) -> bool;

/// `char::is_numeric` of std tells whether the character has one of the
/// general categories of Unicode for numbers. The answer depends on the
/// character alone.
pub assume_specification[ char::is_numeric ](c: char) -> (yes: bool)
    ensures
        yes == numeric(c),
;

/// Whether `c` counts as a digit when a text is cleaned: the ten decimal
/// digits do, and so does every other numeric character.
pub open spec fn is_numeral(c: char) -> bool {
    is_digit(c) || numeric(c)
}

/// Tells whether `c` counts as a digit when a text is cleaned.
pub fn is_numeral_char(c: char) -> (yes: bool)
    ensures
        yes == is_numeral(c),
{
    is_digit_char(c) || c.is_numeric()
}

/// Whether `c` has the Unicode property White_Space.
pub open spec fn is_space(c: char) -> bool {
    let n = c as u32;
    ||| 0x09 <= n <= 0x0D
    ||| n == 0x20
    ||| n == 0x85
    ||| n == 0xA0
    ||| n == 0x1680
    ||| 0x2000 <= n <= 0x200A
    ||| n == 0x2028
    ||| n == 0x2029
    ||| n == 0x202F
    ||| n == 0x205F
    ||| n == 0x3000
}

/// Tells whether `c` is white space.
pub fn is_space_char(c: char) -> (yes: bool)
    ensures
        yes == is_space(c),
{
    let n: u32 = c as u32;
    (0x09 <= n && n <= 0x0D) || n == 0x20 || n == 0x85 || n == 0xA0 || n == 0x1680 || (0x2000 <= n
        && n <= 0x200A) || n == 0x2028 || n == 0x2029 || n == 0x202F || n == 0x205F || n == 0x3000
}

/// Whether two vectors hold the same characters.
pub fn same_chars(a: &Vec<char>, b: &Vec<char>) -> (same: bool)
    ensures
        same == (a@ == b@),
{
    if a.len() != b.len() {
        return false;
    }
    let mut i: usize = 0;
    while i < a.len()
        invariant
            i <= a.len(),
            a.len() == b.len(),
            a@.take(i as int) == b@.take(i as int),
        decreases a.len() - i,
    {
        if a[i] != b[i] {
            return false;
        }
        assert(a@.take(i + 1) == a@.take(i as int).push(a@[i as int]));
        assert(b@.take(i + 1) == b@.take(i as int).push(b@[i as int]));
        i += 1;
    }
    assert(a@.take(a.len() as int) == a@);
    assert(b@.take(b.len() as int) == b@);
    true
}

/// The views of the rows of a table of characters.
pub open spec fn rows(table: Seq<Vec<char>>) -> Seq<Seq<char>> {
    Seq::new(table.len(), |i: int| table[i]@)
}

/// The views of a list of strings.
pub open spec fn names(list: Seq<String>) -> Seq<Seq<char>> {
    Seq::new(list.len(), |i: int| list[i]@)
}

/// A list of strings as a table of characters.
pub fn name_rows(list: &Vec<String>) -> (table: Vec<Vec<char>>)
    ensures
        rows(table@) == names(list@),
{
    let mut table: Vec<Vec<char>> = Vec::new();
    let mut i: usize = 0;
    while i < list.len()
        invariant
            i <= list.len(),
            table.len() == i,
            rows(table@) == names(list@.take(i as int)),
        decreases list.len() - i,
    {
        let row = text_chars(list[i].as_str());
        let ghost before = table@;
        table.push(row);
        i += 1;
        assert forall|j: int| 0 <= j < table@.len() implies rows(table@)[j] == names(
            list@.take(i as int),
        )[j] by {
            if j < before.len() {
                assert(rows(before)[j] == names(list@.take(i - 1))[j]);
            }
        }
        assert(rows(table@) =~= names(list@.take(i as int)));
    }
    assert(list@.take(list.len() as int) == list@);
    table
}

/// The index of the first `c` in `s` at or after `from`, or the length of `s`
/// if there is none.
pub open spec fn first_at(s: Seq<char>, c: char, from: int) -> int
    decreases s.len() - from,
{
    if 0 <= from < s.len() && s[from] != c {
        first_at(s, c, from + 1)
    } else {
        from
    }
}

/// `first_at` lies between `from` and the length, holds `c` if it lies below
/// the length, and no index between `from` and it holds `c`.
pub proof fn lemma_first_at(s: Seq<char>, c: char, from: int)
    requires
        0 <= from <= s.len(),
    ensures
        from <= first_at(s, c, from) <= s.len(),
        first_at(s, c, from) < s.len() ==> s[first_at(s, c, from)] == c,
        forall|j: int| from <= j < first_at(s, c, from) ==> s[j] != c,
    decreases s.len() - from,
{
    if from < s.len() && s[from] != c {
        lemma_first_at(s, c, from + 1);
    }
}

/// Any index at or after `from` that holds the first `c` is `first_at`.
pub proof fn lemma_first_at_is(s: Seq<char>, c: char, from: int, k: int)
    requires
        0 <= from <= k <= s.len(),
        forall|j: int| from <= j < k ==> s[j] != c,
        k < s.len() ==> s[k] == c,
    ensures
        first_at(s, c, from) == k,
    decreases k - from,
{
    if from < k {
        lemma_first_at_is(s, c, from + 1, k);
    }
}

/// Finds the first `c` in `s` at or after `from`.
pub(crate) fn find_from(s: &Vec<char>, c: char, from: usize) -> (k: usize)
    requires
        from <= s.len(),
    ensures
        k == first_at(s@, c, from as int),
        from <= k <= s.len(),
{
    let mut k: usize = from;
    while k < s.len() && s[k] != c
        invariant
            from <= k <= s.len(),
            first_at(s@, c, from as int) == first_at(s@, c, k as int),
        decreases s.len() - k,
    {
        k += 1;
    }
    k
}

/// `s` without the characters that `wanted` does not hold.
pub open spec fn keep(s: Seq<char>, wanted: Set<char>) -> Seq<char>
    decreases s.len(),
{
    if s.len() == 0 {
        Seq::empty()
    } else if wanted.contains(s.last()) {
        keep(s.drop_last(), wanted).push(s.last())
    } else {
        keep(s.drop_last(), wanted)
    }
}

/// What is kept is wanted, and is no longer than the text. A text of wanted
/// characters is kept whole, and of one without any nothing is kept.
pub proof fn lemma_keep(s: Seq<char>, wanted: Set<char>)
    ensures
        keep(s, wanted).len() <= s.len(),
        forall|i: int| 0 <= i < keep(s, wanted).len() ==> wanted.contains(#[trigger] keep(s, wanted)[i]),
        (forall|i: int| 0 <= i < s.len() ==> wanted.contains(s[i])) ==> keep(s, wanted) == s,
        (forall|i: int| 0 <= i < s.len() ==> !wanted.contains(s[i])) ==> keep(s, wanted).len() == 0,
    decreases s.len(),
{
    if s.len() > 0 {
        lemma_keep(s.drop_last(), wanted);
        if forall|i: int| 0 <= i < s.len() ==> !wanted.contains(s[i]) {
            assert forall|i: int| 0 <= i < s.drop_last().len() implies !wanted.contains(
                s.drop_last()[i],
            ) by {
                assert(s.drop_last()[i] == s[i]);
            }
        }
        if forall|i: int| 0 <= i < s.len() ==> wanted.contains(s[i]) {
            assert forall|i: int| 0 <= i < s.drop_last().len() implies wanted.contains(
                s.drop_last()[i],
            ) by {
                assert(s.drop_last()[i] == s[i]);
            }
            assert(s.drop_last().push(s.last()) == s);
        }
    }
}

/// The parts of `s` between the occurrences of `sep`. There is always at least
/// one part, and one more part than there are separators.
pub open spec fn split(s: Seq<char>, sep: char) -> Seq<Seq<char>>
    decreases s.len(),
{
    if s.len() == 0 {
        seq![Seq::empty()]
    } else {
        let before = split(s.drop_last(), sep);
        if s.last() == sep {
            before.push(Seq::empty())
        } else {
            before.drop_last().push(before.last().push(s.last()))
        }
    }
}

/// There is at least one part, no part holds the separator, and a text
/// without the separator is its own single part.
pub proof fn lemma_split(s: Seq<char>, sep: char)
    ensures
        split(s, sep).len() >= 1,
        forall|i: int, j: int|
            0 <= i < split(s, sep).len() && 0 <= j < split(s, sep)[i].len() ==> split(
                s,
                sep,
            )[i][j] != sep,
        !s.contains(sep) ==> split(s, sep) == seq![s],
    decreases s.len(),
{
    if s.len() > 0 {
        let front = s.drop_last();
        lemma_split(front, sep);
        if !s.contains(sep) {
            assert forall|i: int| 0 <= i < front.len() implies front[i] != sep by {
                assert(front[i] == s[i]);
            }
            assert(!front.contains(sep));
            assert(s.last() == s[s.len() - 1]);
            assert(front.push(s.last()) == s);
            assert(split(s, sep) =~= seq![s]);
        }
    } else {
        assert(s =~= Seq::empty());
    }
}

/// Splitting a text that has a separator between `a` and `b` gives the parts of
/// `a` followed by the parts of `b`.
pub proof fn lemma_split_around(a: Seq<char>, b: Seq<char>, sep: char)
    ensures
        split(a + seq![sep] + b, sep) == split(a, sep) + split(b, sep),
    decreases b.len(),
{
    let whole = a + seq![sep] + b;
    lemma_split(a, sep);
    if b.len() == 0 {
        assert(whole.drop_last() == a);
        assert(split(whole, sep) =~= split(a, sep) + split(b, sep));
    } else {
        let front = b.drop_last();
        lemma_split_around(a, front, sep);
        lemma_split(front, sep);
        assert(whole.drop_last() == a + seq![sep] + front);
        assert(whole.last() == b.last());
        assert(split(whole, sep) =~= split(a, sep) + split(b, sep));
    }
}

/// Splits the characters of `s` at each `sep`.
pub fn split_chars(s: &Vec<char>, sep: char) -> (parts: Vec<Vec<char>>)
    ensures
        rows(parts@) == split(s@, sep),
{
    let mut parts: Vec<Vec<char>> = Vec::new();
    let mut current: Vec<char> = Vec::new();
    let mut i: usize = 0;
    while i < s.len()
        invariant
            i <= s.len(),
            rows(parts@).push(current@) == split(s@.take(i as int), sep),
        decreases s.len() - i,
    {
        let ghost done = rows(parts@).push(current@);
        assert(s@.take(i + 1).drop_last() == s@.take(i as int));
        if s[i] == sep {
            let ghost before = parts@;
            parts.push(current);
            current = Vec::new();
            assert(rows(parts@) =~= done);
        } else {
            current.push(s[i]);
            assert(rows(parts@).push(current@) =~= done.drop_last().push(
                done.last().push(s@[i as int]),
            ));
        }
        i += 1;
    }
    assert(s@.take(s.len() as int) == s@);
    let ghost done = rows(parts@).push(current@);
    parts.push(current);
    assert(rows(parts@) =~= done);
    parts
}

/// The parts in order, with `sep` between each two.
pub open spec fn join(parts: Seq<Seq<char>>, sep: Seq<char>) -> Seq<char>
    decreases parts.len(),
{
    if parts.len() == 0 {
        Seq::empty()
    } else if parts.len() == 1 {
        parts[0]
    } else {
        join(parts.drop_last(), sep) + sep + parts.last()
    }
}

/// Joins the parts, with `sep` between each two.
pub fn join_chars(parts: &Vec<Vec<char>>, sep: &Vec<char>) -> (joined: Vec<char>)
    ensures
        joined@ == join(rows(parts@), sep@),
{
    let mut joined: Vec<char> = Vec::new();
    let mut i: usize = 0;
    while i < parts.len()
        invariant
            i <= parts.len(),
            joined@ == join(rows(parts@).take(i as int), sep@),
        decreases parts.len() - i,
    {
        let ghost so_far = rows(parts@).take(i as int);
        let ghost next = rows(parts@).take(i + 1);
        assert(next.drop_last() == so_far);
        assert(next.last() == parts@[i as int]@);
        if i > 0 {
            push_all(&mut joined, sep);
        }
        push_all(&mut joined, &parts[i]);
        i += 1;
    }
    assert(rows(parts@).take(parts.len() as int) == rows(parts@));
    joined
}

/// Appends the characters of `more` to `target`.
pub fn push_all(target: &mut Vec<char>, more: &Vec<char>)
    ensures
        final(target)@ == old(target)@ + more@,
{
    let mut i: usize = 0;
    while i < more.len()
        invariant
            i <= more.len(),
            target@ == old(target)@ + more@.take(i as int),
        decreases more.len() - i,
    {
        target.push(more[i]);
        i += 1;
        assert(target@ =~= old(target)@ + more@.take(i as int));
    }
    assert(more@.take(more.len() as int) == more@);
}

/// The characters of `s` from `from` up to, not including, `to`.
pub(crate) fn slice_chars(s: &Vec<char>, from: usize, to: usize) -> (part: Vec<char>)
    requires
        from <= to <= s.len(),
    ensures
        part@ == s@.subrange(from as int, to as int),
{
    let mut part: Vec<char> = Vec::new();
    let mut i: usize = from;
    while i < to
        invariant
            from <= i <= to <= s.len(),
            part@ == s@.subrange(from as int, i as int),
        decreases to - i,
    {
        part.push(s[i]);
        i += 1;
        assert(part@ =~= s@.subrange(from as int, i as int));
    }
    part
}

/// A copy of the characters of `s`.
pub fn copy_chars(s: &Vec<char>) -> (copy: Vec<char>)
    ensures
        copy@ == s@,
{
    let copy = slice_chars(s, 0, s.len());
    assert(copy@ =~= s@);
    copy
}

/// `s` without the white space at its start.
pub open spec fn trim_start(s: Seq<char>) -> Seq<char>
    decreases s.len(),
{
    if s.len() > 0 && is_space(s[0]) {
        trim_start(s.drop_first())
    } else {
        s
    }
}

/// `s` without the white space at its end.
pub open spec fn trim_end(s: Seq<char>) -> Seq<char>
    decreases s.len(),
{
    if s.len() > 0 && is_space(s.last()) {
        trim_end(s.drop_last())
    } else {
        s
    }
}

/// `s` without the white space at its start and at its end.
pub open spec fn trim(s: Seq<char>) -> Seq<char> {
    trim_end(trim_start(s))
}

/// Neither the first nor the last character of `s` is white space.
pub open spec fn is_tight(s: Seq<char>) -> bool {
    s.len() > 0 ==> !is_space(s[0]) && !is_space(s.last())
}

/// If the first `k` characters are white space and the next one is not, then
/// `trim_start` drops exactly those `k`.
pub proof fn lemma_trim_start(s: Seq<char>, k: int)
    requires
        0 <= k <= s.len(),
        forall|j: int| 0 <= j < k ==> is_space(s[j]),
        k < s.len() ==> !is_space(s[k]),
    ensures
        trim_start(s) == s.skip(k),
    decreases k,
{
    if k == 0 {
        assert(s.skip(0) == s);
    } else {
        let rest = s.drop_first();
        assert forall|j: int| 0 <= j < k - 1 implies is_space(rest[j]) by {
            assert(rest[j] == s[j + 1]);
        }
        lemma_trim_start(rest, k - 1);
        assert(rest.skip(k - 1) == s.skip(k));
    }
}

/// If the characters from index `k` on are white space and the one before is
/// not, then `trim_end` keeps exactly the first `k`.
pub proof fn lemma_trim_end(s: Seq<char>, k: int)
    requires
        0 <= k <= s.len(),
        forall|j: int| k <= j < s.len() ==> is_space(s[j]),
        k > 0 ==> !is_space(s[k - 1]),
    ensures
        trim_end(s) == s.take(k),
    decreases s.len() - k,
{
    if k == s.len() {
        assert(s.take(k) == s);
    } else {
        let rest = s.drop_last();
        lemma_trim_end(rest, k);
        assert(rest.take(k) == s.take(k));
    }
}

/// `trim_start` gives an end of the text that does not begin with white
/// space.
pub proof fn lemma_trim_start_shape(s: Seq<char>)
    ensures
        trim_start(s).len() <= s.len(),
        trim_start(s).len() > 0 ==> !is_space(trim_start(s)[0]),
        trim_start(s) == s.skip(s.len() - trim_start(s).len()),
    decreases s.len(),
{
    if s.len() > 0 && is_space(s[0]) {
        let rest = s.drop_first();
        lemma_trim_start_shape(rest);
        assert(rest.skip(rest.len() - trim_start(rest).len()) == s.skip(
            s.len() - trim_start(s).len(),
        ));
    } else {
        assert(s.skip(0) == s);
    }
}

/// `trim_end` gives a start of the text that does not end with white space.
pub proof fn lemma_trim_end_shape(s: Seq<char>)
    ensures
        trim_end(s).len() <= s.len(),
        trim_end(s).len() > 0 ==> !is_space(trim_end(s).last()),
        trim_end(s) == s.take(trim_end(s).len() as int),
    decreases s.len(),
{
    if s.len() > 0 && is_space(s.last()) {
        let rest = s.drop_last();
        lemma_trim_end_shape(rest);
        assert(rest.take(trim_end(rest).len() as int) == s.take(trim_end(s).len() as int));
    } else {
        assert(s.take(s.len() as int) == s);
    }
}

/// Trimming gives a tight text, and leaves a tight text as it is.
pub proof fn lemma_trim_tight(s: Seq<char>)
    ensures
        is_tight(trim(s)),
        is_tight(s) ==> trim(s) == s,
        trim(s).len() <= s.len(),
{
    lemma_trim_start_shape(s);
    lemma_trim_end_shape(trim_start(s));
    if trim(s).len() > 0 {
        assert(trim(s)[0] == trim_start(s)[0]);
    }
}

/// Trims the characters of `s`.
pub fn trim_chars(s: &Vec<char>) -> (trimmed: Vec<char>)
    ensures
        trimmed@ == trim(s@),
{
    let mut start: usize = 0;
    while start < s.len() && is_space_char(s[start])
        invariant
            start <= s.len(),
            forall|j: int| 0 <= j < start ==> is_space(s@[j]),
        decreases s.len() - start,
    {
        start += 1;
    }
    let mut end: usize = s.len();
    while end > start && is_space_char(s[end - 1])
        invariant
            start <= end <= s.len(),
            forall|j: int| end <= j < s.len() ==> is_space(s@[j]),
        decreases end,
    {
        end -= 1;
    }
    proof {
        lemma_trim_start(s@, start as int);
        let mid = s@.skip(start as int);
        assert forall|j: int| end - start <= j < mid.len() implies is_space(mid[j]) by {
            assert(mid[j] == s@[j + start]);
        }
        if end > start {
            assert(mid[end - start - 1] == s@[end - 1]);
        }
        lemma_trim_end(mid, end - start);
        assert(mid.take(end - start) == s@.subrange(start as int, end as int));
    }
    slice_chars(s, start, end)
}

/// Keeping the wanted characters a second time changes nothing.
pub proof fn lemma_keep_twice(s: Seq<char>, wanted: Set<char>)
    ensures
        keep(keep(s, wanted), wanted) == keep(s, wanted),
{
    lemma_keep(s, wanted);
    lemma_keep(keep(s, wanted), wanted);
}

/// Putting the separator back between the parts of a text gives the text.
pub proof fn lemma_split_join(s: Seq<char>, sep: char)
    ensures
        join(split(s, sep), seq![sep]) == s,
    decreases s.len(),
{
    if s.len() == 0 {
        assert(s =~= Seq::empty());
    } else {
        let front = s.drop_last();
        let before = split(front, sep);
        lemma_split(front, sep);
        lemma_split_join(front, sep);
        if s.last() == sep {
            let parts = before.push(Seq::empty());
            assert(parts.drop_last() == before);
            assert(join(parts, seq![sep]) =~= front.push(sep));
        } else {
            let parts = before.drop_last().push(before.last().push(s.last()));
            assert(parts.drop_last() == before.drop_last());
            if before.len() == 1 {
                assert(join(parts, seq![sep]) =~= front.push(s.last()));
            } else {
                assert(join(parts, seq![sep]) =~= join(before, seq![sep]).push(s.last()));
            }
        }
        assert(front.push(s.last()) == s);
    }
}

/// Whether `pattern` stands in `w` at index `k`.
pub open spec fn stands_at(w: Seq<char>, pattern: Seq<char>, k: int) -> bool {
    0 <= k && k + pattern.len() <= w.len() && w.subrange(k, k + pattern.len()) == pattern
}

/// What stands in `w` from index `k` on, with `with` in place of every
/// `pattern`: the places are looked for from left to right, and the search
/// goes on behind each place that was found. The pattern is not empty.
pub open spec fn replaced_from(w: Seq<char>, pattern: Seq<char>, with: Seq<char>, k: int) -> Seq<
    char,
>
    decreases w.len() - k,
{
    if pattern.len() == 0 || k < 0 || k >= w.len() {
        Seq::empty()
    } else if stands_at(w, pattern, k) {
        with + replaced_from(w, pattern, with, k + pattern.len())
    } else {
        seq![w[k]] + replaced_from(w, pattern, with, k + 1)
    }
}

/// `w` with `with` in place of every `pattern`. An empty pattern stands
/// nowhere.
pub open spec fn replaced(w: Seq<char>, pattern: Seq<char>, with: Seq<char>) -> Seq<char> {
    if pattern.len() == 0 {
        w
    } else {
        replaced_from(w, pattern, with, 0)
    }
}

/// Tells whether `pattern` stands in `w` at index `k`.
pub fn found_at(w: &Vec<char>, pattern: &Vec<char>, k: usize) -> (yes: bool)
    ensures
        yes == stands_at(w@, pattern@, k as int),
{
    if k > w.len() || pattern.len() > w.len() - k {
        return false;
    }
    let mut i: usize = 0;
    while i < pattern.len()
        invariant
            i <= pattern.len(),
            k + pattern.len() <= w.len(),
            forall|j: int| 0 <= j < i ==> w@[k + j] == pattern@[j],
        decreases pattern.len() - i,
    {
        if w[k + i] != pattern[i] {
            assert(w@.subrange(k as int, k + pattern.len())[i as int] != pattern@[i as int]);
            return false;
        }
        i += 1;
    }
    assert(w@.subrange(k as int, k + pattern.len()) =~= pattern@);
    true
}

/// Puts `with` in place of every `pattern` in `w`.
pub fn replace_chars(w: &Vec<char>, pattern: &Vec<char>, with: &Vec<char>) -> (out: Vec<char>)
    ensures
        out@ == replaced(w@, pattern@, with@),
{
    if pattern.len() == 0 {
        return copy_chars(w);
    }
    let mut out: Vec<char> = Vec::new();
    let mut k: usize = 0;
    while k < w.len()
        invariant
            k <= w.len(),
            pattern.len() > 0,
            out@ + replaced_from(w@, pattern@, with@, k as int) == replaced(w@, pattern@, with@),
        decreases w.len() - k,
    {
        let ghost before = out@;
        let ghost rest = replaced_from(w@, pattern@, with@, k as int);
        if found_at(w, pattern, k) {
            push_all(&mut out, with);
            k += pattern.len();
            assert(out@ + replaced_from(w@, pattern@, with@, k as int) =~= before + rest);
        } else {
            out.push(w[k]);
            k += 1;
            assert(out@ + replaced_from(w@, pattern@, with@, k as int) =~= before + rest);
        }
    }
    assert(out@ + Seq::<char>::empty() =~= out@);
    out
}

} // verus!
