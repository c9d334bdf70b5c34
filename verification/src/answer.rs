//! What the user answers when asked whether to go ahead.
use vstd::prelude::*;

use crate::text::to_chars;

verus! {

/// An answer to a yes-or-no question.
#[derive(Clone, Copy, PartialEq, Eq, Structural, Debug)]
pub enum Answer {
    Yes,
    No,
    Unclear,
}

/// Whether `c` is white space, as Unicode has it.
pub open spec fn is_space(c: char) -> bool {
    let n = c as u32;
    ||| 0x09 <= n <= 0x0d
    ||| n == 0x20
    ||| n == 0x85
    ||| n == 0xa0
    ||| n == 0x1680
    ||| 0x2000 <= n <= 0x200a
    ||| n == 0x2028
    ||| n == 0x2029
    ||| n == 0x202f
    ||| n == 0x205f
    ||| n == 0x3000
}

fn is_space_exec(c: char) -> (out: bool)
    ensures
        out == is_space(c),
{
    let n: u32 = c as u32;
    (0x09 <= n && n <= 0x0d) || n == 0x20 || n == 0x85 || n == 0xa0 || n == 0x1680 || (0x2000 <= n
        && n <= 0x200a) || n == 0x2028 || n == 0x2029 || n == 0x202f || n == 0x205f || n == 0x3000
}

/// `text` without the white space at its start.
pub open spec fn trim_start(text: Seq<char>) -> Seq<char>
    decreases text.len(),
{
    if text.len() > 0 && is_space(text[0]) {
        trim_start(text.drop_first())
    } else {
        text
    }
}

/// `text` without the white space at its end.
pub open spec fn trim_end(text: Seq<char>) -> Seq<char>
    decreases text.len(),
{
    if text.len() > 0 && is_space(text.last()) {
        trim_end(text.drop_last())
    } else {
        text
    }
}

/// Whether `c` is the lower-case letter or its upper-case form.
pub open spec fn same_letter(c: char, letter: char) -> bool {
    c == letter || (c as u32) < 0x80 && c as u32 + 32 == letter as u32
}

/// Whether `text` spells the lower-case word in letters of either case.
pub open spec fn spells(text: Seq<char>, word: Seq<char>) -> bool {
    &&& text.len() == word.len()
    &&& forall|i: int|
        0 <= i < text.len() ==> same_letter(#[trigger] text[i], word[i])
}

/// The answer that a line of input gives: `y` or `yes`, `n` or `no`, in letters of either
/// case and with white space around it.
pub open spec fn answer_of(input: Seq<char>) -> Answer {
    let text = trim_end(trim_start(input));
    if spells(text, "y"@) || spells(text, "yes"@) {
        Answer::Yes
    } else if spells(text, "n"@) || spells(text, "no"@) {
        Answer::No
    } else {
        Answer::Unclear
    }
}

fn spells_exec(chars: &Vec<char>, from: usize, to: usize, word: &str) -> (out: bool)
    requires
        from <= to <= chars.len(),
    ensures
        out == spells(chars@.subrange(from as int, to as int), word@),
{
    let ghost text = chars@.subrange(from as int, to as int);
    let letters = to_chars(word);
    if letters.len() != to - from {
        return false;
    }
    let mut i: usize = 0;
    while i < letters.len()
        invariant
            from <= to <= chars.len(),
            text == chars@.subrange(from as int, to as int),
            letters@ == word@,
            letters.len() == to - from,
            i <= letters.len(),
            forall|k: int|
                0 <= k < i ==> same_letter(#[trigger] text[k], word@[k]),
        decreases letters.len() - i,
    {
        let c = chars[from + i];
        let letter = letters[i];
        assert(text[i as int] == c);
        let n: u32 = c as u32;
        if c != letter && !(n < 0x80 && n + 32 == letter as u32) {
            return false;
        }
        i += 1;
    }
    true
}

/// The answer that a line of input gives.
pub fn parse_answer(input: &str) -> (answer: Answer)
    ensures
        answer == answer_of(input@),
{
    let chars = to_chars(input);
    let mut from: usize = 0;
    let len: usize = chars.len();
    assert(chars@.skip(0) =~= input@);
    while from < len && is_space_exec(chars[from])
        invariant
            from <= len == chars.len(),
            chars@ == input@,
            trim_start(input@) == trim_start(chars@.skip(from as int)),
        decreases len - from,
    {
        assert(chars@.skip(from as int).drop_first() =~= chars@.skip(from + 1));
        from += 1;
    }
    let ghost rest = chars@.skip(from as int);
    assert(trim_start(input@) == rest);
    let mut to: usize = len;
    assert(chars@.subrange(from as int, to as int) =~= rest);
    while from < to && is_space_exec(chars[to - 1])
        invariant
            from <= to <= chars.len(),
            trim_end(rest) == trim_end(chars@.subrange(from as int, to as int)),
        decreases to,
    {
        assert(chars@.subrange(from as int, to as int).drop_last() =~= chars@.subrange(
            from as int,
            to - 1,
        ));
        to -= 1;
    }
    assert(trim_end(rest) == chars@.subrange(from as int, to as int));
    if spells_exec(&chars, from, to, "y") || spells_exec(&chars, from, to, "yes") {
        Answer::Yes
    } else if spells_exec(&chars, from, to, "n") || spells_exec(&chars, from, to, "no") {
        Answer::No
    } else {
        Answer::Unclear
    }
}

proof fn spaces_in_front(front: Seq<char>, text: Seq<char>)
    requires
        forall|i: int| 0 <= i < front.len() ==> is_space(#[trigger] front[i]),
    ensures
        trim_start(front + text) == trim_start(text),
    decreases front.len(),
{
    let whole = front + text;
    if front.len() > 0 {
        spaces_in_front(front.drop_first(), text);
        assert(whole[0] == front[0]);
        assert(whole.drop_first() =~= front.drop_first() + text);
    } else {
        assert(whole =~= text);
    }
}

proof fn spaces_behind(text: Seq<char>, back: Seq<char>)
    requires
        forall|i: int| 0 <= i < back.len() ==> is_space(#[trigger] back[i]),
    ensures
        trim_end(text + back) == trim_end(text),
    decreases back.len(),
{
    let whole = text + back;
    if back.len() > 0 {
        spaces_behind(text, back.drop_last());
        assert(whole.last() == back[back.len() - 1]);
        assert(whole.drop_last() =~= text + back.drop_last());
    } else {
        assert(whole =~= text);
    }
}

proof fn start_is_trimmed_first(text: Seq<char>, back: Seq<char>)
    requires
        forall|i: int| 0 <= i < back.len() ==> is_space(#[trigger] back[i]),
    ensures
        trim_end(trim_start(text + back)) == trim_end(trim_start(text)),
    decreases text.len(),
{
    if text.len() > 0 && is_space(text[0]) {
        start_is_trimmed_first(text.drop_first(), back);
        assert((text + back).drop_first() =~= text.drop_first() + back);
    } else if text.len() > 0 {
        spaces_behind(text, back);
    } else {
        assert(text + back =~= back + text);
        spaces_in_front(back, text);
    }
}

/// White space around an answer counts for nothing.
pub proof fn white_space_around_counts_for_nothing(
    front: Seq<char>,
    text: Seq<char>,
    back: Seq<char>,
)
    requires
        forall|i: int| 0 <= i < front.len() ==> is_space(#[trigger] front[i]),
        forall|i: int| 0 <= i < back.len() ==> is_space(#[trigger] back[i]),
    ensures
        answer_of(front + text + back) == answer_of(text),
{
    assert(front + text + back =~= front + (text + back));
    spaces_in_front(front, text + back);
    start_is_trimmed_first(text, back);
}

/// Without white space around it, an answer is yes exactly if it is the word or its first
/// letter, small or capital, and likewise for no; everything else is unclear.
pub proof fn only_the_words_answer(text: Seq<char>)
    requires
        text.len() > 0 ==> !is_space(text[0]) && !is_space(text.last()),
    ensures
        answer_of(text) == Answer::Yes <==> (text.len() == 1 && (text[0] == 'y' || text[0] == 'Y'))
            || (text.len() == 3 && (text[0] == 'y' || text[0] == 'Y') && (text[1] == 'e' || text[1]
            == 'E') && (text[2] == 's' || text[2] == 'S')),
        answer_of(text) == Answer::No <==> (text.len() == 1 && (text[0] == 'n' || text[0] == 'N'))
            || (text.len() == 2 && (text[0] == 'n' || text[0] == 'N') && (text[1] == 'o' || text[1]
            == 'O')),
{
    reveal_strlit("y");
    reveal_strlit("yes");
    reveal_strlit("n");
    reveal_strlit("no");
    assert(trim_end(trim_start(text)) == text);
    let (y, yes, n, no) = ("y"@, "yes"@, "n"@, "no"@);
    two_cases(text[0]);
    two_cases(text[1]);
    two_cases(text[2]);
    assert(spells(text, y) <==> text.len() == 1 && same_letter(text[0], 'y')) by {
        assert(y.len() == 1 && y[0] == 'y');
        if text.len() == 1 && same_letter(text[0], 'y') {
            assert forall|i: int| 0 <= i < text.len() implies same_letter(#[trigger] text[i], y[i]) by {}
        }
    }
    assert(spells(text, yes) <==> text.len() == 3 && same_letter(text[0], 'y') && same_letter(
        text[1],
        'e',
    ) && same_letter(text[2], 's')) by {
        assert(yes.len() == 3 && yes[0] == 'y' && yes[1] == 'e' && yes[2] == 's');
        if spells(text, yes) {
            assert(same_letter(text[0], yes[0]) && same_letter(text[1], yes[1]) && same_letter(
                text[2],
                yes[2],
            ));
        }
    }
    assert(spells(text, n) <==> text.len() == 1 && same_letter(text[0], 'n')) by {
        assert(n.len() == 1 && n[0] == 'n');
    }
    assert(spells(text, no) <==> text.len() == 2 && same_letter(text[0], 'n') && same_letter(
        text[1],
        'o',
    )) by {
        assert(no.len() == 2 && no[0] == 'n' && no[1] == 'o');
        if spells(text, no) {
            assert(same_letter(text[0], no[0]) && same_letter(text[1], no[1]));
        }
    }
}

/// The letters of the words in both cases.
proof fn two_cases(c: char)
    ensures
        same_letter(c, 'y') <==> c == 'y' || c == 'Y',
        same_letter(c, 'e') <==> c == 'e' || c == 'E',
        same_letter(c, 's') <==> c == 's' || c == 'S',
        same_letter(c, 'n') <==> c == 'n' || c == 'N',
        same_letter(c, 'o') <==> c == 'o' || c == 'O',
{
}

/// White space is the tabs, line ends, spaces and separators that Unicode calls so.
pub proof fn white_space_is_that_of_unicode(c: char)
    ensures
        is_space(c) <==> '\t' <= c <= '\r' || c == ' ' || c == '\u{85}' || c == '\u{a0}' || c
            == '\u{1680}' || '\u{2000}' <= c <= '\u{200a}' || c == '\u{2028}' || c == '\u{2029}' || c
            == '\u{202f}' || c == '\u{205f}' || c == '\u{3000}',
{
}

} // verus!
