//! Characters, lines and surrounding whitespace of a recipe's text.
//!
//! Strings are viewed as sequences of characters. The functions here turn a
//! string into its characters and back, split a text into lines and strip the
//! whitespace around a line.

use vstd::prelude::*;

verus! {

/// `String::push` appends one character to the end of the string.
pub assume_specification[ String::push ](s: &mut String, c: char)
    ensures
        final(s)@ == old(s)@.push(c),
;

/// Whether `c` is whitespace: one of the characters with the Unicode property
/// `White_Space`, which are the ASCII controls from tab to carriage return, the
/// space, the next-line control, the no-break space and the spaces and
/// separators beyond them.
pub open spec fn white_space(c: char) -> bool {
    ||| '\u{9}' <= c <= '\u{d}'
    ||| c == ' '
    ||| c == '\u{85}'
    ||| c == '\u{a0}'
    ||| c == '\u{1680}'
    ||| '\u{2000}' <= c <= '\u{200a}'
    ||| c == '\u{2028}'
    ||| c == '\u{2029}'
    ||| c == '\u{202f}'
    ||| c == '\u{205f}'
    ||| c == '\u{3000}'
}

/// A line without the carriage return that stood before its line feed.
pub open spec fn without_carriage_return(line: Seq<char>) -> Seq<char> {
    if line.len() > 0 && line.last() == '\r' {
        line.drop_last()
    } else {
        line
    }
}

/// The lines of `text`. A line ends at a line feed; the line feed, and a
/// carriage return right before it, belong to no line. Text after the last line
/// feed is a line of its own, unless it is empty.
pub open spec fn lines_of(text: Seq<char>) -> Seq<Seq<char>>
    decreases text.len(),
{
    if text.len() == 0 {
        Seq::empty()
    } else {
        match text.index_of_first('\n') {
            Some(end) if 0 <= end < text.len() => seq![
                without_carriage_return(text.take(end)),
            ] + lines_of(text.skip(end + 1)),
            _ => seq![text],
        }
    }
}

/// `text` without its leading whitespace.
pub open spec fn trimmed_start(text: Seq<char>) -> Seq<char>
    decreases text.len(),
{
    if text.len() > 0 && white_space(text.first()) {
        trimmed_start(text.drop_first())
    } else {
        text
    }
}

/// `text` without its trailing whitespace.
pub open spec fn trimmed_end(text: Seq<char>) -> Seq<char>
    decreases text.len(),
{
    if text.len() > 0 && white_space(text.last()) {
        trimmed_end(text.drop_last())
    } else {
        text
    }
}

/// `text` without the whitespace around it.
pub open spec fn trimmed(text: Seq<char>) -> Seq<char> {
    trimmed_end(trimmed_start(text))
}

/// The first occurrence of `needle` is at `at` when it occurs there and nowhere
/// before.
pub proof fn lemma_first_occurrence(text: Seq<char>, needle: char, at: int)
    requires
        0 <= at < text.len(),
        text[at] == needle,
        forall|j: int| 0 <= j < at ==> text[j] != needle,
    ensures
        text.index_of_first(needle) == Some(at),
{
    text.index_of_first_ensures(needle);
    assert(text.contains(needle));
    let found = text.index_of_first(needle).unwrap();
    if found < at {
        assert(text[found] != needle);
    }
    if at < found {
        assert(text[at] != needle);
    }
}

/// A text in which `needle` does not occur has no first occurrence of it.
pub proof fn lemma_no_occurrence(text: Seq<char>, needle: char)
    requires
        forall|j: int| 0 <= j < text.len() ==> text[j] != needle,
    ensures
        text.index_of_first(needle) is None,
{
    text.index_of_first_ensures(needle);
}

/// Leading whitespace up to `start` is what `trimmed_start` removes.
pub proof fn lemma_trimmed_start(text: Seq<char>, start: int)
    requires
        0 <= start <= text.len(),
        forall|j: int| 0 <= j < start ==> white_space(text[j]),
        start < text.len() ==> !white_space(text[start]),
    ensures
        trimmed_start(text) == text.skip(start),
    decreases start,
{
    if start == 0 {
        assert(text.skip(0) == text);
    } else {
        let rest = text.drop_first();
        assert forall|j: int| 0 <= j < start - 1 implies white_space(rest[j]) by {
            assert(rest[j] == text[j + 1]);
        }
        lemma_trimmed_start(rest, start - 1);
        assert(rest.skip(start - 1) == text.skip(start));
    }
}

/// Trailing whitespace from `end` on is what `trimmed_end` removes.
pub proof fn lemma_trimmed_end(text: Seq<char>, end: int)
    requires
        0 <= end <= text.len(),
        forall|j: int| end <= j < text.len() ==> white_space(text[j]),
        end > 0 ==> !white_space(text[end - 1]),
    ensures
        trimmed_end(text) == text.take(end),
    decreases text.len() - end,
{
    if end == text.len() {
        assert(text.take(end) == text);
    } else {
        let rest = text.drop_last();
        lemma_trimmed_end(rest, end);
        assert(rest.take(end) == text.take(end));
    }
}

/// Tells whether `c` is whitespace.
pub fn is_white_space(c: char) -> (yes: bool)
    ensures
        yes == white_space(c),
{
    ('\u{9}' <= c && c <= '\u{d}') || c == ' ' || c == '\u{85}' || c == '\u{a0}' || c == '\u{1680}'
        || ('\u{2000}' <= c && c <= '\u{200a}') || c == '\u{2028}' || c == '\u{2029}' || c
        == '\u{202f}' || c == '\u{205f}' || c == '\u{3000}'
}

/// The characters of `s`, in order.
pub fn chars_of(s: &str) -> (out: Vec<char>)
    ensures
        out@ == s@,
{
    let mut out: Vec<char> = Vec::new();
    for c in it: s.chars()
        invariant
            it.seq() == s@,
            out@ == s@.take(it.index() as int),
    {
        out.push(c);
    }
    assert(s@.take(s@.len() as int) == s@);
    out
}

/// The string made of the characters `chars[from..to]`.
pub fn string_of(chars: &Vec<char>, from: usize, to: usize) -> (out: String)
    requires
        from <= to <= chars@.len(),
    ensures
        out@ == chars@.subrange(from as int, to as int),
{
    let mut out: String = String::new();
    let mut i: usize = from;
    while i < to
        invariant
            from <= i <= to <= chars@.len(),
            out@ == chars@.subrange(from as int, i as int),
        decreases to - i,
    {
        out.push(chars[i]);
        i = i + 1;
    }
    out
}

/// Removes the whitespace around `text`.
pub fn trim(text: &str) -> (out: String)
    ensures
        out@ == trimmed(text@),
{
    let chars: Vec<char> = chars_of(text);
    let n: usize = chars.len();
    let mut start: usize = 0;
    while start < n && is_white_space(chars[start])
        invariant
            start <= n == chars@.len(),
            forall|j: int| 0 <= j < start ==> white_space(chars@[j]),
        decreases n - start,
    {
        start = start + 1;
    }
    let mut end: usize = n;
    while end > start && is_white_space(chars[end - 1])
        invariant
            start <= end <= n == chars@.len(),
            forall|j: int| end <= j < n ==> white_space(chars@[j]),
        decreases end,
    {
        end = end - 1;
    }
    proof {
        let rest = chars@.skip(start as int);
        lemma_trimmed_start(chars@, start as int);
        assert forall|j: int| end - start <= j < rest.len() implies white_space(rest[j]) by {
            assert(rest[j] == chars@[j + start]);
        }
        lemma_trimmed_end(rest, end - start);
        assert(rest.take(end - start) == chars@.subrange(start as int, end as int));
    }
    string_of(&chars, start, end)
}

/// Splits `text` into its lines.
pub fn lines(text: &str) -> (out: Vec<String>)
    ensures
        out.deep_view() == lines_of(text@),
{
    let chars: Vec<char> = chars_of(text);
    let n: usize = chars.len();
    let mut out: Vec<String> = Vec::new();
    let mut start: usize = 0;
    proof {
        assert(chars@.skip(0) == chars@);
        assert(out.deep_view() == Seq::<Seq<char>>::empty());
        assert(Seq::<Seq<char>>::empty() + lines_of(chars@) == lines_of(chars@));
    }
    while start < n
        invariant
            start <= n == chars@.len(),
            lines_of(chars@) == out.deep_view() + lines_of(chars@.skip(start as int)),
        decreases n - start,
    {
        let ghost rest = chars@.skip(start as int);
        let ghost before = out.deep_view();
        let mut end: usize = start;
        while end < n && chars[end] != '\n'
            invariant
                start <= end <= n == chars@.len(),
                forall|j: int| start <= j < end ==> chars@[j] != '\n',
            decreases n - end,
        {
            end = end + 1;
        }
        if end < n {
            let stop: usize = if end > start && chars[end - 1] == '\r' {
                end - 1
            } else {
                end
            };
            let line: String = string_of(&chars, start, stop);
            proof {
                assert forall|j: int| 0 <= j < end - start implies rest[j] != '\n' by {
                    assert(rest[j] == chars@[j + start]);
                }
                lemma_first_occurrence(rest, '\n', end - start);
                assert(rest.take(end - start) == chars@.subrange(start as int, end as int));
                assert(rest.skip(end - start + 1) == chars@.skip(end + 1));
                assert(line@ == without_carriage_return(rest.take(end - start))) by {
                    let whole = chars@.subrange(start as int, end as int);
                    if end > start && chars@[end - 1] == '\r' {
                        assert(whole.last() == '\r');
                        assert(whole.drop_last() == chars@.subrange(start as int, stop as int));
                    } else if end > start {
                        assert(whole.last() != '\r');
                    }
                }
            }
            out.push(line);
            start = end + 1;
            proof {
                assert(out.deep_view() == before.push(line@));
                assert(before.push(line@) + lines_of(chars@.skip(start as int)) == before + (
                seq![line@] + lines_of(chars@.skip(start as int))));
            }
        } else {
            let line: String = string_of(&chars, start, n);
            proof {
                assert forall|j: int| 0 <= j < rest.len() implies rest[j] != '\n' by {
                    assert(rest[j] == chars@[j + start]);
                }
                lemma_no_occurrence(rest, '\n');
                assert(rest == chars@.subrange(start as int, n as int));
                assert(lines_of(rest) == seq![rest]);
            }
            out.push(line);
            start = n;
            proof {
                assert(out.deep_view() == before.push(line@));
                assert(chars@.skip(n as int).len() == 0);
                assert(before.push(line@) + Seq::<Seq<char>>::empty() == before + seq![line@]);
            }
        }
    }
    proof {
        assert(chars@.skip(n as int).len() == 0);
        assert(out.deep_view() + Seq::<Seq<char>>::empty() == out.deep_view());
    }
    out
}

} // verus!
