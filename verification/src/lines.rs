//! The lines of the two input texts: a dictionary of one word per line, and
//! test cases of the form `letters, label:expected`.

use vstd::prelude::*;
use vstd::string::StrSliceExecFns;
use vstd::utf8::encode_utf8;

verus! {

/// `c` is white space: one of the characters that Unicode gives the property
/// `White_Space`.
pub open spec fn is_white_space(c: char) -> bool {
    let code = c as u32;
    ||| 0x09 <= code <= 0x0D
    ||| code == 0x20
    ||| code == 0x85
    ||| code == 0xA0
    ||| code == 0x1680
    ||| 0x2000 <= code <= 0x200A
    ||| code == 0x2028
    ||| code == 0x2029
    ||| code == 0x202F
    ||| code == 0x205F
    ||| code == 0x3000
}

/// Tells whether `c` is white space.
pub fn white_space(c: char) -> (space: bool)
    ensures
        space == is_white_space(c),
{
    let code = c as u32;
    (0x09 <= code && code <= 0x0D) || code == 0x20 || code == 0x85 || code == 0xA0 || code
        == 0x1680 || (0x2000 <= code && code <= 0x200A) || code == 0x2028 || code == 0x2029
        || code == 0x202F || code == 0x205F || code == 0x3000
}

/// `text` without the white space at its start.
pub open spec fn trim_start(text: Seq<char>) -> Seq<char>
    decreases text.len(),
{
    if text.len() > 0 && is_white_space(text.first()) {
        trim_start(text.drop_first())
    } else {
        text
    }
}

/// `text` without the white space at its end.
pub open spec fn trim_end(text: Seq<char>) -> Seq<char>
    decreases text.len(),
{
    if text.len() > 0 && is_white_space(text.last()) {
        trim_end(text.drop_last())
    } else {
        text
    }
}

/// `text` without the white space at its start and at its end.
pub open spec fn trimmed(text: Seq<char>) -> Seq<char> {
    trim_end(trim_start(text))
}

/// Trimming at the start drops exactly the white space before the first
/// character that is none.
proof fn lemma_trim_start(text: Seq<char>, start: int)
    requires
        0 <= start <= text.len(),
        forall|k: int| 0 <= k < start ==> is_white_space(text[k]),
        start < text.len() ==> !is_white_space(text[start]),
    ensures
        trim_start(text) == text.skip(start),
    decreases text.len(),
{
    if start == 0 {
        assert(text.skip(0) == text);
    } else {
        assert(is_white_space(text[0]));
        lemma_trim_start(text.drop_first(), start - 1);
        assert(text.drop_first().skip(start - 1) == text.skip(start));
    }
}

/// Trimming at the end drops exactly the white space after the last
/// character that is none.
proof fn lemma_trim_end(text: Seq<char>, end: int)
    requires
        0 <= end <= text.len(),
        forall|k: int| end <= k < text.len() ==> is_white_space(text[k]),
        0 < end ==> !is_white_space(text[end - 1]),
    ensures
        trim_end(text) == text.take(end),
    decreases text.len(),
{
    if end == text.len() {
        assert(text.take(end) == text);
    } else {
        assert(is_white_space(text[text.len() - 1]));
        lemma_trim_end(text.drop_last(), end);
        assert(text.drop_last().take(end) == text.take(end));
    }
}

/// A text has at most as many characters as its UTF-8 form has bytes.
pub proof fn lemma_chars_within_bytes(text: Seq<char>)
    ensures
        text.len() <= encode_utf8(text).len(),
    decreases text.len(),
{
    if text.len() > 0 {
        lemma_chars_within_bytes(text.drop_first());
    }
}

/// `text` without the white space at its start and at its end.
pub fn trim(text: &str) -> (inner: &str)
    ensures
        inner@ == trimmed(text@),
{
    let bytes = text.as_bytes().len();
    proof {
        lemma_chars_within_bytes(text@);
    }
    let mut start: usize = 0;
    let mut end: usize = 0;
    let mut i: usize = 0;
    for c in it: text.chars()
        invariant
            it.seq() == text@,
            text@.len() <= bytes,
            i == it.index(),
            start <= end <= i,
            forall|k: int| 0 <= k < start ==> is_white_space(text@[k]),
            forall|k: int| end <= k < i ==> is_white_space(text@[k]),
            start < end ==> !is_white_space(text@[start as int]) && !is_white_space(
                text@[end - 1],
            ),
            start == end ==> start == i,
    {
        if white_space(c) {
            if start == end {
                start = i + 1;
                end = i + 1;
            }
        } else {
            if start == end {
                start = i;
            }
            end = i + 1;
        }
        i += 1;
    }
    proof {
        let whole = text@;
        let tail = whole.skip(start as int);
        lemma_trim_start(whole, start as int);
        assert forall|k: int| end - start <= k < tail.len() implies is_white_space(tail[k]) by {
            assert(tail[k] == whole[k + start]);
        }
        lemma_trim_end(tail, end - start);
        assert(tail.take(end - start) == whole.subrange(start as int, end as int));
    }
    text.substring_char(start, end)
}

/// The words of a dictionary: each line without the white space around it,
/// in the order of the lines. No line is left out, and none is merged with
/// another that reads the same.
pub open spec fn dictionary_of(lines: Seq<Seq<char>>) -> Seq<Seq<char>> {
    Seq::new(lines.len(), |i: int| trimmed(lines[i]))
}

/// The dictionary that the lines of a text give: see `dictionary_of`.
pub fn dictionary_from_lines(lines: &Vec<String>) -> (words: Vec<String>)
    ensures
        words.deep_view() == dictionary_of(lines.deep_view()),
{
    let mut words: Vec<String> = Vec::new();
    let mut i: usize = 0;
    while i < lines.len()
        invariant
            i <= lines@.len(),
            words@.len() == i,
            forall|k: int| 0 <= k < i ==> (#[trigger] words@[k])@ == trimmed(lines@[k]@),
        decreases lines@.len() - i,
    {
        words.push(trim(lines[i].as_str()).to_owned());
        i += 1;
    }
    assert(words.deep_view() =~= dictionary_of(lines.deep_view()));
    words
}

/// The part of `text` that follows its first colon; nothing where it holds
/// no colon.
pub open spec fn text_after_colon(text: Seq<char>) -> Seq<char>
    decreases text.len(),
{
    if text.len() == 0 {
        text
    } else if text.first() == ':' {
        text.drop_first()
    } else {
        text_after_colon(text.drop_first())
    }
}

/// What follows the first colon starts right after the first place that
/// holds one.
proof fn lemma_text_after_colon(text: Seq<char>, at: int)
    requires
        0 <= at <= text.len(),
        forall|k: int| 0 <= k < at ==> text[k] != ':',
        at < text.len() ==> text[at] == ':',
    ensures
        text_after_colon(text) == if at < text.len() {
            text.skip(at + 1)
        } else {
            Seq::<char>::empty()
        },
    decreases text.len(),
{
    if text.len() == 0 {
    } else if at == 0 {
        assert(text.skip(1) == text.drop_first());
    } else {
        lemma_text_after_colon(text.drop_first(), at - 1);
        if at < text.len() {
            assert(text.drop_first().skip(at) == text.skip(at + 1));
        }
    }
}

/// The part of `text` that follows its first colon: see `text_after_colon`.
pub fn after_colon(text: &str) -> (rest: &str)
    ensures
        rest@ == text_after_colon(text@),
{
    let bytes = text.as_bytes().len();
    proof {
        lemma_chars_within_bytes(text@);
    }
    let mut colon: Option<usize> = None;
    let mut i: usize = 0;
    for c in it: text.chars()
        invariant
            it.seq() == text@,
            text@.len() <= bytes,
            i == it.index(),
            match colon {
                Some(at) => at < i && text@[at as int] == ':' && forall|k: int|
                    0 <= k < at ==> text@[k] != ':',
                None => forall|k: int| 0 <= k < i ==> text@[k] != ':',
            },
    {
        if colon.is_none() && c == ':' {
            colon = Some(i);
        }
        i += 1;
    }
    match colon {
        Some(at) => {
            proof {
                lemma_text_after_colon(text@, at as int);
                assert(text@.skip(at + 1) == text@.subrange(at + 1, i as int));
            }
            text.substring_char(at + 1, i)
        },
        None => {
            proof {
                lemma_text_after_colon(text@, i as int);
                assert(text@.subrange(i as int, i as int) == Seq::<char>::empty());
            }
            text.substring_char(i, i)
        },
    }
}

/// A separator, a comma and a blank, stands in `text` at `at`.
pub open spec fn is_separator(text: Seq<char>, at: int) -> bool {
    0 <= at && at + 1 < text.len() && text[at] == ',' && text[at + 1] == ' '
}

/// The number of separators that start before place `n` of `text`.
pub open spec fn separators(text: Seq<char>, n: int) -> nat
    decreases n,
{
    if n <= 0 {
        0
    } else {
        separators(text, n - 1) + if is_separator(text, n - 1) {
            1nat
        } else {
            0nat
        }
    }
}

/// The first separator of `text` stands at `at`.
pub open spec fn is_first_separator(text: Seq<char>, at: int) -> bool {
    is_separator(text, at) && forall|k: int| 0 <= k < at ==> !is_separator(text, k)
}

/// The place of the first separator of `text`.
pub open spec fn first_separator(text: Seq<char>) -> int {
    choose|at: int| is_first_separator(text, at)
}

/// The test case that a line gives. The line is trimmed; it gives a test case
/// where it then holds exactly one separator. What stands before the
/// separator describes the letter bag; of what stands after it, the part that
/// follows the first colon is the expected word.
pub open spec fn test_case_of(line: Seq<char>) -> Option<(Seq<char>, Seq<char>)> {
    let text = trimmed(line);
    if separators(text, text.len() as int) == 1 {
        let at = first_separator(text);
        Some((text.take(at), text_after_colon(text.skip(at + 2))))
    } else {
        None
    }
}

/// A test case as a pair of texts.
pub open spec fn test_case_view(case: Option<(String, String)>) -> Option<(Seq<char>, Seq<char>)> {
    match case {
        Some(pair) => Some((pair.0@, pair.1@)),
        None => None,
    }
}

/// Reads a test case from a line: see `test_case_of`. A line that gives none
/// is one to pass over.
pub fn parse_test_case(line: &str) -> (case: Option<(String, String)>)
    ensures
        test_case_view(case) == test_case_of(line@),
{
    let text = trim(line);
    let bytes = text.as_bytes().len();
    proof {
        lemma_chars_within_bytes(text@);
    }
    let mut found: usize = 0;
    let mut at: usize = 0;
    let mut after_comma = false;
    let mut i: usize = 0;
    for c in it: text.chars()
        invariant
            it.seq() == text@,
            text@.len() <= bytes,
            i == it.index(),
            found == separators(text@, i - 1),
            found <= i,
            after_comma == (i > 0 && text@[i - 1] == ','),
            found > 0 ==> at + 1 < i && is_first_separator(text@, at as int),
            found == 0 ==> forall|k: int| 0 <= k < i - 1 ==> !is_separator(text@, k),
    {
        if after_comma && c == ' ' {
            if found == 0 {
                at = i - 1;
            }
            found += 1;
        }
        after_comma = c == ',';
        i += 1;
    }
    assert(separators(text@, i as int) == separators(text@, i - 1));
    if found != 1 {
        return None;
    }
    let letters = text.substring_char(0, at);
    let expected = after_colon(text.substring_char(at + 2, i));
    proof {
        assert(text@.take(at as int) == text@.subrange(0, at as int));
        assert(text@.skip(at + 2) == text@.subrange(at + 2, i as int));
    }
    Some((letters.to_owned(), expected.to_owned()))
}

/// The test cases that the lines of a text give, in the order of the lines.
pub open spec fn test_cases_of(lines: Seq<Seq<char>>) -> Seq<(Seq<char>, Seq<char>)>
    decreases lines.len(),
{
    if lines.len() == 0 {
        Seq::empty()
    } else {
        let before = test_cases_of(lines.drop_last());
        match test_case_of(lines.last()) {
            Some(case) => before.push(case),
            None => before,
        }
    }
}

/// Reads the test cases from the lines of a text, passing over the lines that
/// give none: see `test_cases_of`.
pub fn parse_test_cases(lines: &Vec<String>) -> (cases: Vec<(String, String)>)
    ensures
        cases.deep_view() == test_cases_of(lines.deep_view()),
{
    let ghost all = lines.deep_view();
    let mut cases: Vec<(String, String)> = Vec::new();
    let mut i: usize = 0;
    while i < lines.len()
        invariant
            i <= lines@.len(),
            all == lines.deep_view(),
            cases.deep_view() == test_cases_of(all.take(i as int)),
        decreases lines@.len() - i,
    {
        let ghost before = cases.deep_view();
        proof {
            assert(all.take(i + 1).drop_last() == all.take(i as int));
            assert(all.take(i + 1).last() == lines@[i as int]@);
        }
        match parse_test_case(lines[i].as_str()) {
            Some(case) => {
                let ghost pair = (case.0@, case.1@);
                cases.push(case);
                assert(cases.deep_view() =~= before.push(pair));
            },
            None => {},
        }
        i += 1;
    }
    assert(all.take(i as int) == all);
    cases
}

} // verus!
