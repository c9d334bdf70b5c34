//! Lines as the terminal gets them, in colours where the terminal is to show any.
use colored::Colorize;
use vstd::prelude::*;
use vstd::string::*;

use crate::display::{Line, Tone};

verus! {

/// The sequence that ends every colour and style.
pub open spec fn reset() -> Seq<char> {
    seq!['\u{1b}', '[', '0', 'm']
}

/// The sequence that begins the look with the given codes.
pub open spec fn opening(codes: Seq<char>) -> Seq<char> {
    seq!['\u{1b}', '['] + codes + seq!['m']
}

/// `text` with the look begun again after each sequence in it that ends one.
pub open spec fn reopened(text: Seq<char>, begin: Seq<char>) -> Seq<char>
    decreases text.len(),
{
    if text.len() < reset().len() {
        text
    } else if text.take(4) == reset() {
        reset() + begin + reopened(text.skip(4), begin)
    } else {
        seq![text[0]] + reopened(text.skip(1), begin)
    }
}

/// `text` in the look with the given codes.
pub open spec fn coloured(text: Seq<char>, codes: Seq<char>) -> Seq<char> {
    opening(codes) + reopened(text, opening(codes)) + reset()
}

/// Whether `out` is `text` as it stands, which is what comes out where colours are off, or
/// in the look with the given codes.
pub open spec fn may_show(out: Seq<char>, text: Seq<char>, codes: Seq<char>) -> bool {
    out == text || out == coloured(text, codes)
}

/// `Colorize::bold` on a string, turned into a string. Whether colours are on is read from
/// the environment, and is taken not to be switched while the string is made: the result is
/// the text as it stands, or the text between the codes for bold and the reset sequence,
/// with the codes repeated after each reset sequence in the text.
#[verifier::external_body]
fn bold(text: &str) -> (out: String)
    ensures
        may_show(out@, text@, "1"@),
{
    text.bold().to_string()
}

/// `Colorize::dimmed` on a string, turned into a string, as for `bold`.
#[verifier::external_body]
fn dimmed(text: &str) -> (out: String)
    ensures
        may_show(out@, text@, "2"@),
{
    text.dimmed().to_string()
}

/// `Colorize::cyan` on a string, turned into a string, as for `bold`.
#[verifier::external_body]
fn cyan(text: &str) -> (out: String)
    ensures
        may_show(out@, text@, "36"@),
{
    text.cyan().to_string()
}

/// `Colorize::green` on a string, turned into a string, as for `bold`.
#[verifier::external_body]
fn green(text: &str) -> (out: String)
    ensures
        may_show(out@, text@, "32"@),
{
    text.green().to_string()
}

/// `Colorize::yellow` on a string, turned into a string, as for `bold`.
#[verifier::external_body]
fn yellow(text: &str) -> (out: String)
    ensures
        may_show(out@, text@, "33"@),
{
    text.yellow().to_string()
}

/// `Colorize::red` on a string, turned into a string, as for `bold`.
#[verifier::external_body]
fn red(text: &str) -> (out: String)
    ensures
        may_show(out@, text@, "31"@),
{
    text.red().to_string()
}

/// `Colorize::green` on a string and `Colorize::bold` on what that gives, turned into a
/// string, as for `bold`. The code of the style stands before that of the colour.
#[verifier::external_body]
fn green_bold(text: &str) -> (out: String)
    ensures
        may_show(out@, text@, "1;32"@),
{
    text.green().bold().to_string()
}

/// `Colorize::yellow` on a string and `Colorize::bold` on what that gives, turned into a
/// string, as for `green_bold`.
#[verifier::external_body]
fn yellow_bold(text: &str) -> (out: String)
    ensures
        may_show(out@, text@, "1;33"@),
{
    text.yellow().bold().to_string()
}

/// `Colorize::red` on a string and `Colorize::bold` on what that gives, turned into a
/// string, as for `green_bold`.
#[verifier::external_body]
fn red_bold(text: &str) -> (out: String)
    ensures
        may_show(out@, text@, "1;31"@),
{
    text.red().bold().to_string()
}

/// The codes for a tone, if it has any.
pub open spec fn tone_codes(tone: Tone) -> Option<Seq<char>> {
    match tone {
        Tone::Plain => None,
        Tone::Bold => Some("1"@),
        Tone::Dimmed => Some("2"@),
        Tone::Cyan => Some("36"@),
        Tone::Green => Some("32"@),
        Tone::Yellow => Some("33"@),
        Tone::Red => Some("31"@),
        Tone::GreenBold => Some("1;32"@),
        Tone::YellowBold => Some("1;33"@),
        Tone::RedBold => Some("1;31"@),
    }
}

/// Whether `out` is how a piece of a line may come out.
pub open spec fn paints(out: Seq<char>, piece: (Tone, Seq<char>)) -> bool {
    match tone_codes(piece.0) {
        None => out == piece.1,
        Some(codes) => may_show(out, piece.1, codes),
    }
}

/// `text` in the given tone.
pub fn paint(tone: Tone, text: &str) -> (out: String)
    ensures
        paints(out@, (tone, text@)),
{
    match tone {
        Tone::Plain => text.to_string(),
        Tone::Bold => bold(text),
        Tone::Dimmed => dimmed(text),
        Tone::Cyan => cyan(text),
        Tone::Green => green(text),
        Tone::Yellow => yellow(text),
        Tone::Red => red(text),
        Tone::GreenBold => green_bold(text),
        Tone::YellowBold => yellow_bold(text),
        Tone::RedBold => red_bold(text),
    }
}

/// The texts of a list, one after the other.
pub open spec fn joined(parts: Seq<Seq<char>>) -> Seq<char>
    decreases parts.len(),
{
    if parts.len() == 0 {
        Seq::empty()
    } else {
        joined(parts.drop_last()) + parts.last()
    }
}

/// Whether `parts` are how the pieces of a line may come out, one for each.
pub open spec fn paints_all(parts: Seq<Seq<char>>, pieces: Seq<(Tone, Seq<char>)>) -> bool {
    &&& parts.len() == pieces.len()
    &&& forall|i: int| 0 <= i < parts.len() ==> paints(#[trigger] parts[i], pieces[i])
}

/// A line as the terminal gets it: its pieces, each in its tone.
pub fn render(line: &Line) -> (out: String)
    ensures
        exists|parts: Seq<Seq<char>>| #[trigger] paints_all(parts, line@) && out@ == joined(parts),
{
    let mut out = String::new();
    let ghost mut parts: Seq<Seq<char>> = Seq::empty();
    let mut i: usize = 0;
    assert(line@.take(0) =~= Seq::empty());
    while i < line.spans.len()
        invariant
            i <= line.spans.len(),
            paints_all(parts, line@.take(i as int)),
            out@ == joined(parts),
        decreases line.spans.len() - i,
    {
        let piece = paint(line.spans[i].tone, line.spans[i].text.as_str());
        out.append(piece.as_str());
        proof {
            let longer = parts.push(piece@);
            assert(longer.drop_last() =~= parts);
            let pieces = line@.take(i + 1);
            assert(line@[i as int] == line.spans@[i as int]@);
            assert forall|k: int| 0 <= k < longer.len() implies paints(
                #[trigger] longer[k],
                pieces[k],
            ) by {
                if k < parts.len() {
                    assert(paints(parts[k], line@.take(i as int)[k]));
                }
            }
            parts = longer;
        }
        i += 1;
    }
    assert(line@.take(i as int) =~= line@);
    out
}

/// A piece of a line comes out as it stands, or in the look of its tone; a plain one always
/// as it stands.
pub proof fn tones_have_their_looks(out: Seq<char>, text: Seq<char>)
    ensures
        paints(out, (Tone::Plain, text)) <==> out == text,
        paints(out, (Tone::Bold, text)) <==> out == text || out == coloured(text, "1"@),
        paints(out, (Tone::Dimmed, text)) <==> out == text || out == coloured(text, "2"@),
        paints(out, (Tone::Cyan, text)) <==> out == text || out == coloured(text, "36"@),
        paints(out, (Tone::Green, text)) <==> out == text || out == coloured(text, "32"@),
        paints(out, (Tone::Yellow, text)) <==> out == text || out == coloured(text, "33"@),
        paints(out, (Tone::Red, text)) <==> out == text || out == coloured(text, "31"@),
        paints(out, (Tone::GreenBold, text)) <==> out == text || out == coloured(text, "1;32"@),
        paints(out, (Tone::YellowBold, text)) <==> out == text || out == coloured(text, "1;33"@),
        paints(out, (Tone::RedBold, text)) <==> out == text || out == coloured(text, "1;31"@),
{
}

/// Text without escape characters stands between the sequence that begins its look and the
/// one that ends every look.
pub proof fn look_begins_and_ends(text: Seq<char>, codes: Seq<char>)
    requires
        !text.contains('\u{1b}'),
    ensures
        coloured(text, codes) == seq!['\u{1b}', '['] + codes + seq!['m'] + text + seq![
            '\u{1b}',
            '[',
            '0',
            'm',
        ],
{
    plain_text_is_kept(text, opening(codes));
}

proof fn plain_text_is_kept(text: Seq<char>, begin: Seq<char>)
    requires
        !text.contains('\u{1b}'),
    ensures
        reopened(text, begin) == text,
    decreases text.len(),
{
    if text.len() >= 4 {
        assert(text.contains(text[0]));
        assert(text.take(4)[0] == text[0] && reset()[0] == '\u{1b}');
        let rest = text.skip(1);
        assert(!rest.contains('\u{1b}')) by {
            if rest.contains('\u{1b}') {
                let i = choose|i: int| 0 <= i < rest.len() && rest[i] == '\u{1b}';
                assert(text[i + 1] == '\u{1b}');
            }
        }
        plain_text_is_kept(rest, begin);
        assert(seq![text[0]] + rest =~= text);
    }
}

/// Where the text holds a sequence that ends every look, the look begins again behind it.
pub proof fn look_begins_again(before: Seq<char>, after: Seq<char>, begin: Seq<char>)
    requires
        !before.contains('\u{1b}'),
    ensures
        ({
            let end = seq!['\u{1b}', '[', '0', 'm'];
            reopened(before + end + after, begin) == before + end + begin + reopened(after, begin)
        }),
    decreases before.len(),
{
    let end = seq!['\u{1b}', '[', '0', 'm'];
    let text = before + end + after;
    if before.len() == 0 {
        assert(text.take(4) =~= reset());
        assert(text.skip(4) =~= after);
        assert(before + end + begin + reopened(after, begin) =~= reset() + begin + reopened(
            after,
            begin,
        ));
    } else {
        assert(before.contains(before[0]));
        assert(text.take(4)[0] == before[0] && reset()[0] == '\u{1b}');
        let rest = before.skip(1);
        assert(!rest.contains('\u{1b}')) by {
            if rest.contains('\u{1b}') {
                let i = choose|i: int| 0 <= i < rest.len() && rest[i] == '\u{1b}';
                assert(before[i + 1] == '\u{1b}');
            }
        }
        look_begins_again(rest, after, begin);
        assert(text.skip(1) =~= rest + end + after);
        assert(seq![text[0]] + (rest + end + begin + reopened(after, begin)) =~= before + end
            + begin + reopened(after, begin));
    }
}

/// Joining leaves nothing out and adds nothing: one text joined is the text, and two lists
/// one after the other give what they give each.
pub proof fn joining_keeps_every_part(
    part: Seq<char>,
    xs: Seq<Seq<char>>,
    ys: Seq<Seq<char>>,
)
    ensures
        joined(Seq::empty()) == Seq::<char>::empty(),
        joined(seq![part]) == part,
        joined(xs + ys) == joined(xs) + joined(ys),
    decreases ys.len(),
{
    reveal_with_fuel(joined, 2);
    assert(seq![part].drop_last() =~= Seq::empty());
    assert(Seq::<char>::empty() + part =~= part);
    if ys.len() > 0 {
        joining_keeps_every_part(part, xs, ys.drop_last());
        assert((xs + ys).drop_last() =~= xs + ys.drop_last());
        assert(joined(xs) + (joined(ys.drop_last()) + ys.last()) =~= joined(xs) + joined(
            ys.drop_last(),
        ) + ys.last());
    } else {
        assert(xs + ys =~= xs);
        assert(joined(xs) + joined(ys) =~= joined(xs));
    }
}

/// A line has one part for each of its pieces, in their order.
pub proof fn every_piece_is_painted(parts: Seq<Seq<char>>, pieces: Seq<(Tone, Seq<char>)>)
    ensures
        paints_all(parts, pieces) <==> parts.len() == pieces.len() && forall|i: int|
            0 <= i < pieces.len() ==> #[trigger] paints(parts[i], pieces[i]),
{
    if parts.len() == pieces.len() && forall|i: int|
        0 <= i < pieces.len() ==> #[trigger] paints(parts[i], pieces[i]) {
        assert forall|i: int| 0 <= i < parts.len() implies paints(#[trigger] parts[i], pieces[i]) by {
            assert(paints(parts[i], pieces[i]));
        }
    }
}

} // verus!
