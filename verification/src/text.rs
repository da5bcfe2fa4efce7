//! Text as a sequence of characters: words and lines, widths in bytes,
//! greedy wrapping, decimal numbers, and joining with separators.
//!
//! A word is a maximal run of characters other than the space; its width
//! is the number of bytes that it takes in UTF-8.

use vstd::prelude::*;

verus! {

/// The longest line, in bytes, that the wrapping lets two or more words
/// share, the separator behind the last word included.
pub const LINE_LIMIT: usize = 70;

/// The number of bytes that `c` takes in UTF-8.
pub open spec fn utf8_width(c: char) -> int {
    let code = c as u32;
    if code < 0x80 {
        1
    } else if code < 0x800 {
        2
    } else if code < 0x10000 {
        3
    } else {
        4
    }
}

/// The number of bytes that `text` takes in UTF-8.
pub open spec fn width(text: Seq<char>) -> int
    decreases text.len(),
{
    if text.len() == 0 {
        0
    } else {
        width(text.drop_last()) + utf8_width(text.last())
    }
}

/// The pieces of `text` between its occurrences of `sep`, in order. There
/// is always one piece more than there are separators, and a piece may be
/// empty.
pub open spec fn split(text: Seq<char>, sep: char) -> Seq<Seq<char>>
    decreases text.len(),
{
    if text.len() == 0 {
        seq![Seq::empty()]
    } else {
        let before = split(text.drop_last(), sep);
        if text.last() == sep {
            before.push(Seq::empty())
        } else {
            before.drop_last().push(before.last().push(text.last()))
        }
    }
}

/// The words of `text`: the pieces between its spaces.
pub open spec fn words(text: Seq<char>) -> Seq<Seq<char>> {
    split(text, ' ')
}

/// The lines of `text`: the pieces between its line breaks.
pub open spec fn lines(text: Seq<char>) -> Seq<Seq<char>> {
    split(text, '\n')
}

/// `text` without its last character, if it has one.
pub open spec fn without_last(text: Seq<char>) -> Seq<char> {
    if text.len() > 0 {
        text.drop_last()
    } else {
        text
    }
}

/// Sets one more word. `laid` is the text so far, every word in it followed
/// by a separator, and the number of bytes on its last line. Where the word
/// and its separator no longer fit on that line, the separator before the
/// word becomes a line break and the word starts a new line.
pub open spec fn place(laid: (Seq<char>, int), word: Seq<char>) -> (Seq<char>, int) {
    let need = width(word) + 1;
    if laid.1 + need > LINE_LIMIT {
        (without_last(laid.0).push('\n') + word.push(' '), need)
    } else {
        (laid.0 + word.push(' '), laid.1 + need)
    }
}

/// The words set one after another, starting from nothing.
pub open spec fn laid_out(ws: Seq<Seq<char>>) -> (Seq<char>, int)
    decreases ws.len(),
{
    if ws.len() == 0 {
        (Seq::empty(), 0)
    } else {
        place(laid_out(ws.drop_last()), ws.last())
    }
}

/// `text` with its words wrapped greedily: each word goes on the current
/// line if it fits there with its separator, else on a new one.
pub open spec fn wrapped(text: Seq<char>) -> Seq<char> {
    without_last(laid_out(words(text)).0)
}

/// The decimal digit for `d`, where `0 <= d <= 9`.
pub open spec fn digit(d: int) -> char {
    if d == 0 {
        '0'
    } else if d == 1 {
        '1'
    } else if d == 2 {
        '2'
    } else if d == 3 {
        '3'
    } else if d == 4 {
        '4'
    } else if d == 5 {
        '5'
    } else if d == 6 {
        '6'
    } else if d == 7 {
        '7'
    } else if d == 8 {
        '8'
    } else {
        '9'
    }
}

/// `n` written in decimal, without leading zeros.
pub open spec fn decimal(n: nat) -> Seq<char>
    decreases n,
{
    if n < 10 {
        seq![digit(n as int)]
    } else {
        decimal(n / 10).push(digit((n % 10) as int))
    }
}

/// The parts one after another, with `sep` between each two.
pub open spec fn joined(parts: Seq<Seq<char>>, sep: char) -> Seq<char>
    decreases parts.len(),
{
    if parts.len() == 0 {
        Seq::empty()
    } else if parts.len() == 1 {
        parts[0]
    } else {
        joined(parts.drop_last(), sep).push(sep) + parts.last()
    }
}

/// The width of a text is at least its number of characters and at most
/// four times that.
pub proof fn lemma_width_bounds(text: Seq<char>)
    ensures
        text.len() <= width(text) <= 4 * text.len(),
    decreases text.len(),
{
    if text.len() > 0 {
        lemma_width_bounds(text.drop_last());
    }
}

/// The words one after another, each followed by a space.
pub open spec fn spaced(ws: Seq<Seq<char>>) -> Seq<char>
    decreases ws.len(),
{
    if ws.len() == 0 {
        Seq::empty()
    } else {
        spaced(ws.drop_last()) + ws.last().push(' ')
    }
}

/// `to` is `from` behind `lead` extra characters, except that spaces of
/// `from` may have become line breaks in `to`.
pub open spec fn breaks_only(from: Seq<char>, to: Seq<char>, lead: int) -> bool {
    &&& to.len() == from.len() + lead
    &&& forall|k: int|
        0 <= k < from.len() ==> #[trigger] to[k + lead] == from[k] || (from[k] == ' ' && to[k
            + lead] == '\n')
}

/// The number of characters that wrapping puts in front of a text whose
/// words are `ws`: one line break where the first word alone is too long
/// for a line, nothing otherwise.
pub open spec fn lead_of(ws: Seq<Seq<char>>) -> int {
    if ws.len() > 0 && width(ws[0]) + 1 > LINE_LIMIT {
        1
    } else {
        0
    }
}

/// A text has at least one piece, even where it is empty.
pub proof fn lemma_split_len(text: Seq<char>, sep: char)
    ensures
        split(text, sep).len() >= 1,
    decreases text.len(),
{
    if text.len() > 0 {
        lemma_split_len(text.drop_last(), sep);
    }
}

/// Putting a space behind every word of a text gives the text back, with
/// one space at its end.
pub proof fn lemma_spaced_words(text: Seq<char>)
    ensures
        spaced(words(text)) == text.push(' '),
    decreases text.len(),
{
    if text.len() == 0 {
        let ws = words(text);
        assert(ws.drop_last() =~= Seq::empty());
        assert(spaced(ws.drop_last()) =~= Seq::empty());
        assert(spaced(ws) =~= text.push(' '));
    } else {
        let shorter = text.drop_last();
        let before = words(shorter);
        lemma_spaced_words(shorter);
        lemma_split_len(shorter, ' ');
        let ws = words(text);
        assert(text =~= shorter.push(text.last()));
        if text.last() == ' ' {
            assert(ws.drop_last() =~= before);
            assert(ws.last() =~= Seq::empty());
            assert(spaced(ws) == spaced(before) + ws.last().push(' '));
            assert(spaced(ws) =~= text.push(' '));
        } else {
            let head = before.drop_last();
            assert(ws.drop_last() =~= head);
            assert(ws.last() =~= before.last().push(text.last()));
            assert(spaced(ws) == spaced(head) + ws.last().push(' '));
            assert(spaced(before) == spaced(head) + before.last().push(' '));
            assert(spaced(head) + before.last() =~= shorter) by {
                assert((spaced(head) + before.last().push(' ')).drop_last() =~= spaced(head)
                    + before.last());
                assert(shorter.push(' ').drop_last() =~= shorter);
            }
            assert(spaced(ws) =~= text.push(' '));
        }
    }
}

/// What the layout of some words looks like: it is the words with a space
/// behind each, except that some of those spaces are line breaks and that
/// a line break stands in front where the first word is too long for a
/// line. It ends in a space.
pub proof fn lemma_laid_out_breaks_only(ws: Seq<Seq<char>>)
    ensures
        breaks_only(spaced(ws), laid_out(ws).0, lead_of(ws)),
        lead_of(ws) == 1 ==> laid_out(ws).0[0] == '\n',
        ws.len() > 0 ==> laid_out(ws).0.len() > 0 && laid_out(ws).0.last() == ' ',
        ws.len() == 0 ==> laid_out(ws).0.len() == 0,
        laid_out(ws).1 >= 0,
    decreases ws.len(),
{
    if ws.len() > 0 {
        let head = ws.drop_last();
        let word = ws.last();
        lemma_laid_out_breaks_only(head);
        lemma_width_bounds(word);
        let laid = laid_out(head);
        let next = laid_out(ws);
        let from = spaced(ws);
        assert(next == place(laid, word));
        assert(from == spaced(head) + word.push(' '));
        if head.len() > 0 {
            assert(head[0] == ws[0]);
            assert(lead_of(head) == lead_of(ws));
        } else {
            assert(spaced(head) =~= Seq::empty());
            assert(ws[0] == word);
        }
        let lead = lead_of(ws);
        assert(next.0.len() == from.len() + lead);
        assert forall|k: int| 0 <= k < from.len() implies #[trigger] next.0[k + lead] == from[k]
            || (from[k] == ' ' && next.0[k + lead] == '\n') by {
            if k < spaced(head).len() {
                assert(from[k] == spaced(head)[k]);
                assert(laid.0[k + lead] == spaced(head)[k] || (spaced(head)[k] == ' '
                    && laid.0[k + lead] == '\n'));
                if k + lead == laid.0.len() - 1 {
                    assert(laid.0[k + lead] == ' ');
                }
            }
        }
    }
}

/// Wrapping changes nothing in a text but this: some of its spaces become
/// line breaks, and one line break is put in front of it where its first
/// word alone is too long for a line. No character is lost, none is added
/// elsewhere, and no word is split.
pub proof fn lemma_wrapped_breaks_only(text: Seq<char>)
    ensures
        breaks_only(text, wrapped(text), lead_of(words(text))),
        lead_of(words(text)) == 1 ==> wrapped(text)[0] == '\n',
{
    let ws = words(text);
    lemma_split_len(text, ' ');
    lemma_spaced_words(text);
    lemma_laid_out_breaks_only(ws);
    let laid = laid_out(ws).0;
    let lead = lead_of(ws);
    assert(wrapped(text) == laid.drop_last());
    assert forall|k: int| 0 <= k < text.len() implies #[trigger] wrapped(text)[k + lead] == text[k]
        || (text[k] == ' ' && wrapped(text)[k + lead] == '\n') by {
        assert(text.push(' ')[k] == text[k]);
        assert(laid[k + lead] == text.push(' ')[k] || (text.push(' ')[k] == ' ' && laid[k + lead]
            == '\n'));
    }
}

/// A line is within the limit, or, where `strict` does not forbid it, it
/// is a single word that no line could hold.
pub open spec fn fits_in(line: Seq<char>, strict: bool) -> bool {
    width(line) < LINE_LIMIT || (!strict && !line.contains(' '))
}

/// A line is within the limit, or it is a single word that no line could
/// hold.
pub open spec fn fits(line: Seq<char>) -> bool {
    fits_in(line, false)
}

/// Every word is short enough to stand on a line with its separator.
pub open spec fn short_words(ws: Seq<Seq<char>>) -> bool {
    forall|i: int| 0 <= i < ws.len() ==> width(#[trigger] ws[i]) < LINE_LIMIT
}

/// Neither a space nor a line break occurs in any of the words.
pub open spec fn plain_words(ws: Seq<Seq<char>>) -> bool {
    forall|i: int|
        0 <= i < ws.len() ==> !(#[trigger] ws[i]).contains(' ') && !ws[i].contains('\n')
}

/// The width of two texts in a row is the sum of their widths.
pub proof fn lemma_width_concat(a: Seq<char>, b: Seq<char>)
    ensures
        width(a + b) == width(a) + width(b),
    decreases b.len(),
{
    if b.len() == 0 {
        assert(a + b =~= a);
    } else {
        lemma_width_concat(a, b.drop_last());
        assert((a + b).drop_last() =~= a + b.drop_last());
    }
}

/// Text without a separator, put behind another text, goes to that text's
/// last piece.
pub proof fn lemma_split_append(a: Seq<char>, b: Seq<char>, sep: char)
    requires
        !b.contains(sep),
    ensures
        split(a + b, sep) == split(a, sep).drop_last().push(split(a, sep).last() + b),
    decreases b.len(),
{
    lemma_split_len(a, sep);
    let pieces = split(a, sep);
    if b.len() == 0 {
        assert(a + b =~= a);
        assert(pieces.last() + b =~= pieces.last());
        assert(pieces.drop_last().push(pieces.last()) =~= pieces);
    } else {
        let shorter = b.drop_last();
        assert(b[b.len() - 1] == b.last());
        assert forall|k: int| 0 <= k < shorter.len() implies shorter[k] != sep by {
            assert(b[k] == shorter[k]);
        }
        lemma_split_append(a, shorter, sep);
        assert((a + b).drop_last() =~= a + shorter);
        assert((a + b).last() == b.last());
        let before = split(a + shorter, sep);
        assert(before.drop_last() =~= pieces.drop_last());
        assert(before.last().push(b.last()) =~= pieces.last() + b);
    }
}

/// No piece of a text holds the separator, and every character of a piece
/// is a character of the text.
pub proof fn lemma_split_pieces(text: Seq<char>, sep: char)
    ensures
        forall|i: int|
            0 <= i < split(text, sep).len() ==> !(#[trigger] split(text, sep)[i]).contains(sep),
        forall|i: int, c: char|
            0 <= i < split(text, sep).len() && (#[trigger] split(text, sep)[i]).contains(c)
                ==> #[trigger] text.contains(c),
    decreases text.len(),
{
    let pieces = split(text, sep);
    if text.len() > 0 {
        let shorter = text.drop_last();
        let before = split(shorter, sep);
        lemma_split_pieces(shorter, sep);
        lemma_split_len(shorter, sep);
        assert forall|c: char| shorter.contains(c) implies text.contains(c) by {
            let k = choose|k: int| 0 <= k < shorter.len() && shorter[k] == c;
            assert(text[k] == c);
        }
        assert(text[text.len() - 1] == text.last());
        assert forall|i: int| 0 <= i < pieces.len() implies !(#[trigger] pieces[i]).contains(
            sep,
        ) by {
            if i < before.len() - 1 {
                assert(pieces[i] == before[i]);
            } else if text.last() != sep && i == before.len() - 1 {
                let grown = before.last().push(text.last());
                assert(pieces[i] == grown);
                assert forall|k: int| 0 <= k < grown.len() implies grown[k] != sep by {
                    if k < before.last().len() {
                        assert(before.last()[k] == grown[k]);
                        assert(before.last().contains(grown[k]));
                    }
                }
            } else if text.last() != sep {
            } else if i == before.len() - 1 {
                assert(pieces[i] == before[i]);
            } else {
                assert(pieces[i] =~= Seq::empty());
            }
        }
        assert forall|i: int, c: char|
            0 <= i < pieces.len() && (#[trigger] pieces[i]).contains(c) implies #[trigger] text.contains(
            c,
        ) by {
            let k = choose|k: int| 0 <= k < pieces[i].len() && pieces[i][k] == c;
            if i < before.len() - 1 {
                assert(pieces[i] == before[i]);
                assert(before[i].contains(c));
            } else if text.last() != sep {
                assert(pieces[i] == before.last().push(text.last()));
                if k < before.last().len() {
                    assert(before.last()[k] == c);
                    assert(before[before.len() - 1].contains(c));
                    assert(shorter.contains(c));
                }
            } else if i == before.len() - 1 {
                assert(pieces[i] == before[i]);
                assert(before[i].contains(c));
            }
        }
    } else {
        assert(pieces[0] =~= Seq::empty());
    }
}

/// The layout so far keeps to the limit: every line that is closed fits,
/// and the open line, which is `column` bytes wide with the space at its
/// end, either keeps to the limit or, where `strict` does not forbid it,
/// holds one word only.
pub open spec fn keeps_limit(laid: (Seq<char>, int), strict: bool) -> bool {
    let ls = lines(laid.0);
    &&& forall|i: int| 0 <= i < ls.len() - 1 ==> fits_in(#[trigger] ls[i], strict)
    &&& width(ls.last()) == laid.1
    &&& laid.1 <= LINE_LIMIT || (!strict && !without_last(ls.last()).contains(' '))
}

/// Setting words that hold neither space nor line break keeps the layout
/// to the limit, and strictly so where every word is short.
pub proof fn lemma_laid_out_keeps_limit(ws: Seq<Seq<char>>, strict: bool)
    requires
        plain_words(ws),
        strict ==> short_words(ws),
    ensures
        keeps_limit(laid_out(ws), strict),
    decreases ws.len(),
{
    if ws.len() == 0 {
        let ls = lines(laid_out(ws).0);
        assert(ls.last() =~= Seq::empty());
    } else {
        let head = ws.drop_last();
        let word = ws.last();
        assert forall|i: int| 0 <= i < head.len() implies !(#[trigger] head[i]).contains(' ')
            && !head[i].contains('\n') by {
            assert(head[i] == ws[i]);
        }
        assert(strict ==> short_words(head)) by {
            if strict {
                assert forall|i: int| 0 <= i < head.len() implies width(#[trigger] head[i])
                    < LINE_LIMIT by {
                    assert(head[i] == ws[i]);
                }
            }
        }
        assert(strict ==> width(word) < LINE_LIMIT);
        lemma_laid_out_keeps_limit(head, strict);
        lemma_laid_out_breaks_only(head);
        lemma_width_bounds(word);
        let laid = laid_out(head);
        let next = laid_out(ws);
        assert(next == place(laid, word));
        let text = laid.0;
        let ls = lines(text);
        lemma_split_len(text, '\n');
        let tail = word.push(' ');
        assert forall|k: int| 0 <= k < tail.len() implies tail[k] != '\n' by {
            if k < word.len() {
                assert(word[k] == tail[k]);
                assert(word.contains(tail[k]));
            }
        }
        assert(width(tail) == width(word) + 1) by {
            assert(tail.drop_last() =~= word);
            assert(tail.last() == ' ');
            assert(utf8_width(' ') == 1);
        }
        assert(without_last(tail) =~= word);
        if laid.1 + width(word) + 1 > LINE_LIMIT {
            let cut = without_last(text).push('\n');
            let closed = lines(cut);
            lemma_split_len(cut, '\n');
            if text.len() == 0 {
                assert(cut.drop_last() =~= Seq::<char>::empty());
                assert(closed =~= seq![Seq::<char>::empty(), Seq::<char>::empty()]);
                assert(width(closed[0]) == 0);
            } else {
                let kept = text.drop_last();
                assert(text =~= kept.push(' '));
                lemma_split_len(kept, '\n');
                let inner = lines(kept);
                assert(ls == inner.drop_last().push(inner.last().push(' ')));
                assert(ls.last() == inner.last().push(' '));
                assert(without_last(ls.last()) =~= inner.last());
                assert(width(ls.last()) == width(inner.last()) + 1) by {
                    assert(ls.last().drop_last() =~= inner.last());
                }
                assert(cut.drop_last() =~= kept);
                assert(closed == inner.push(Seq::<char>::empty()));
                assert(fits_in(inner.last(), strict));
                assert forall|i: int| 0 <= i < closed.len() - 1 implies fits_in(
                    #[trigger] closed[i],
                    strict,
                ) by {
                    if i < inner.len() - 1 {
                        assert(closed[i] == ls[i]);
                    }
                }
            }
            lemma_split_append(cut, tail, '\n');
            let after = lines(cut + tail);
            assert(next.0 == cut + tail);
            assert(after.last() =~= tail) by {
                assert(closed.last() =~= Seq::<char>::empty());
            }
            assert forall|i: int| 0 <= i < after.len() - 1 implies fits_in(
                #[trigger] after[i],
                strict,
            ) by {
                assert(after[i] == closed[i]);
            }
        } else {
            lemma_split_append(text, tail, '\n');
            let after = lines(text + tail);
            assert(next.0 == text + tail);
            assert(after.last() == ls.last() + tail);
            lemma_width_concat(ls.last(), tail);
            assert forall|i: int| 0 <= i < after.len() - 1 implies fits_in(
                #[trigger] after[i],
                strict,
            ) by {
                assert(after[i] == ls[i]);
            }
        }
    }
}

/// Where a text holds no line break of its own, every line of the wrapped
/// text is shorter than the limit, except, where `strict` does not forbid
/// it, a line that holds a single word which is too long for any line.
proof fn lemma_wrapped_lines(text: Seq<char>, strict: bool)
    requires
        !text.contains('\n'),
        strict ==> short_words(words(text)),
    ensures
        forall|i: int|
            0 <= i < lines(wrapped(text)).len() ==> fits_in(
                #[trigger] lines(wrapped(text))[i],
                strict,
            ),
{
    let ws = words(text);
    lemma_split_len(text, ' ');
    lemma_split_pieces(text, ' ');
    assert(plain_words(ws)) by {
        assert forall|i: int| 0 <= i < ws.len() implies !(#[trigger] ws[i]).contains(' ')
            && !ws[i].contains('\n') by {
            if ws[i].contains('\n') {
                assert(text.contains('\n'));
            }
        }
    }
    lemma_laid_out_keeps_limit(ws, strict);
    lemma_laid_out_breaks_only(ws);
    let laid = laid_out(ws);
    let kept = laid.0.drop_last();
    assert(wrapped(text) == kept);
    assert(laid.0 =~= kept.push(' '));
    lemma_split_len(kept, '\n');
    let inner = lines(kept);
    let ls = lines(laid.0);
    assert(ls == inner.drop_last().push(inner.last().push(' ')));
    assert(without_last(ls.last()) =~= inner.last());
    assert(width(ls.last()) == width(inner.last()) + 1) by {
        assert(ls.last().drop_last() =~= inner.last());
    }
    assert forall|i: int| 0 <= i < inner.len() implies fits_in(#[trigger] inner[i], strict) by {
        if i < inner.len() - 1 {
            assert(inner[i] == ls[i]);
        }
    }
}

/// Where a text holds no line break of its own, every line of the wrapped
/// text is shorter than the limit, except a line that holds a single word
/// which is too long for any line.
pub proof fn lemma_wrapped_lines_fit(text: Seq<char>)
    requires
        !text.contains('\n'),
    ensures
        forall|i: int|
            0 <= i < lines(wrapped(text)).len() ==> fits(#[trigger] lines(wrapped(text))[i]),
{
    lemma_wrapped_lines(text, false);
}

/// Where a text holds no line break of its own and each of its words is
/// shorter than the limit, every line of the wrapped text is shorter than
/// the limit.
pub proof fn lemma_wrapped_lines_short(text: Seq<char>)
    requires
        !text.contains('\n'),
        short_words(words(text)),
    ensures
        forall|i: int|
            0 <= i < lines(wrapped(text)).len() ==> width(#[trigger] lines(wrapped(text))[i])
                < LINE_LIMIT,
{
    lemma_wrapped_lines(text, true);
}

/// Two texts with a separator between them have the pieces of the first
/// and then the pieces of the second.
pub proof fn lemma_split_concat(a: Seq<char>, b: Seq<char>, sep: char)
    ensures
        split(a.push(sep) + b, sep) == split(a, sep) + split(b, sep),
    decreases b.len(),
{
    let whole = a.push(sep) + b;
    if b.len() == 0 {
        assert(whole =~= a.push(sep));
        assert(whole.drop_last() =~= a);
        assert(split(whole, sep) =~= split(a, sep) + split(b, sep));
    } else {
        let shorter = b.drop_last();
        lemma_split_concat(a, shorter, sep);
        lemma_split_len(shorter, sep);
        assert(whole.drop_last() =~= a.push(sep) + shorter);
        assert(whole.last() == b.last());
        let left = split(a, sep);
        let right = split(shorter, sep);
        if b.last() == sep {
            assert(split(whole, sep) =~= left + split(b, sep));
        } else {
            assert((left + right).drop_last() =~= left + right.drop_last());
            assert((left + right).last() == right.last());
            assert(split(whole, sep) =~= left + split(b, sep));
        }
    }
}

/// A text made of characters of one byte each is as wide as it is long.
pub proof fn lemma_width_of_ascii(text: Seq<char>)
    requires
        forall|k: int| 0 <= k < text.len() ==> utf8_width(#[trigger] text[k]) == 1,
    ensures
        width(text) == text.len(),
    decreases text.len(),
{
    if text.len() > 0 {
        assert forall|k: int| 0 <= k < text.len() - 1 implies utf8_width(
            #[trigger] text.drop_last()[k],
        ) == 1 by {
            assert(text.drop_last()[k] == text[k]);
        }
        lemma_width_of_ascii(text.drop_last());
        assert(text.last() == text[text.len() - 1]);
    }
}

/// A decimal number is made of digits only, so it holds neither space nor
/// line break, and it has as many digits as the size of the number asks
/// for.
pub proof fn lemma_decimal(n: nat)
    ensures
        decimal(n).len() >= 1,
        forall|k: int|
            0 <= k < decimal(n).len() ==> '0' <= (#[trigger] decimal(n)[k]) <= '9',
        !decimal(n).contains(' '),
        !decimal(n).contains('\n'),
        width(decimal(n)) == decimal(n).len(),
        n < 10 ==> decimal(n).len() == 1,
        n < 100 ==> decimal(n).len() <= 2,
        n < 1_000 ==> decimal(n).len() <= 3,
        n < 10_000 ==> decimal(n).len() <= 4,
        n < 100_000 ==> decimal(n).len() <= 5,
        n < 1_000_000 ==> decimal(n).len() <= 6,
        n < 10_000_000 ==> decimal(n).len() <= 7,
        n < 100_000_000 ==> decimal(n).len() <= 8,
        n < 1_000_000_000 ==> decimal(n).len() <= 9,
        n < 10_000_000_000 ==> decimal(n).len() <= 10,
    decreases n,
{
    let d = decimal(n);
    if n >= 10 {
        lemma_decimal(n / 10);
        assert forall|k: int| 0 <= k < d.len() implies '0' <= (#[trigger] d[k]) <= '9' by {
            if k < d.len() - 1 {
                assert(d[k] == decimal(n / 10)[k]);
            }
        }
    }
    assert forall|k: int| 0 <= k < d.len() implies utf8_width(#[trigger] d[k]) == 1 by {
        assert('0' <= d[k] <= '9');
    }
    lemma_width_of_ascii(d);
}

} // verus!
