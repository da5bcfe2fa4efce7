//! The text of a plain-text image: what it holds, and that none of its
//! lines is too long.

use crate::canvas::Rgb;
use crate::text::{
    decimal, joined, lemma_decimal, lemma_split_append, lemma_split_concat, lemma_width_concat,
    lemma_width_of_ascii, lemma_wrapped_lines_short, lines, short_words, utf8_width, width,
    words, wrapped, LINE_LIMIT,
};
use vstd::prelude::*;

verus! {

/// A text that wrapping can set without a line as long as the limit: it
/// holds no line break, and each of its words is shorter than the limit.
pub open spec fn sets_short(text: Seq<char>) -> bool {
    !text.contains('\n') && short_words(words(text))
}

/// A text made of digits only, and shorter than the limit.
pub open spec fn is_number(d: Seq<char>) -> bool {
    &&& d.len() < LINE_LIMIT
    &&& forall|k: int| 0 <= k < d.len() ==> '0' <= (#[trigger] d[k]) <= '9'
}

/// A number is shorter than the limit and holds no separator.
proof fn lemma_number(d: Seq<char>)
    requires
        is_number(d),
    ensures
        width(d) < LINE_LIMIT,
        !d.contains(' '),
        !d.contains('\n'),
{
    assert forall|k: int| 0 <= k < d.len() implies utf8_width(#[trigger] d[k])
        == 1 by {
        assert('0' <= d[k] <= '9');
    }
    lemma_width_of_ascii(d);
}

/// A number behind a text and a space is one more word of that text.
proof fn lemma_sets_short_extend(a: Seq<char>, d: Seq<char>)
    requires
        sets_short(a),
        is_number(d),
    ensures
        sets_short(a.push(' ') + d),
        sets_short(d),
{
    lemma_number(d);
    let whole = a.push(' ') + d;
    lemma_split_append(a.push(' '), d, ' ');
    assert(a.push(' ').drop_last() =~= a);
    assert(words(a.push(' ')) == words(a).push(Seq::empty()));
    assert(words(whole) =~= words(a).push(d)) by {
        assert(words(a).push(Seq::<char>::empty()).drop_last() =~= words(a));
        assert(Seq::<char>::empty() + d =~= d);
    }
    assert forall|k: int| 0 <= k < whole.len() implies whole[k] != '\n' by {
        if k < a.len() {
            assert(a[k] == whole[k]);
            assert(a.contains(whole[k]));
        } else if k > a.len() {
            assert(d[k - a.len() - 1] == whole[k]);
            assert(d.contains(whole[k]));
        }
    }
    let alone = Seq::<char>::empty() + d;
    lemma_split_append(Seq::<char>::empty(), d, ' ');
    assert(alone =~= d);
    assert(words(d) =~= seq![d]);
}

/// The three levels of `c` in decimal, separated by spaces.
pub open spec fn rgb_text(c: Rgb) -> Seq<char> {
    decimal(c.r as nat).push(' ') + decimal(c.g as nat).push(' ') + decimal(c.b as nat)
}

/// The colours of a row in decimal, separated by spaces.
pub open spec fn row_line(row: Seq<Rgb>) -> Seq<char> {
    joined(row.map_values(|c: Rgb| rgb_text(c)), ' ')
}

/// One row of an image as text: its colours separated by spaces, wrapped.
pub open spec fn row_text(row: Seq<Rgb>) -> Seq<char> {
    wrapped(row_line(row))
}

/// The plain-text image of `rows`: the format's mark, the two dimensions,
/// the highest level, then one line per row, and a line break at the end.
pub open spec fn ppm_text(width: nat, height: nat, rows: Seq<Seq<Rgb>>) -> Seq<char> {
    seq!['P', '3', '\n'] + decimal(width).push(' ') + decimal(height).push('\n')
        + seq!['2', '5', '5', '\n'] + joined(rows.map_values(|row: Seq<Rgb>| row_text(row)), '\n').push(
        '\n',
    )
}

/// A level in decimal is a number of at most three digits.
proof fn lemma_level(level: u8)
    ensures
        is_number(decimal(level as nat)),
        decimal(level as nat).len() <= 3,
{
    lemma_decimal(level as nat);
}

/// The colours of a row, separated by spaces, can be set without a line as
/// long as the limit.
proof fn lemma_row_line(row: Seq<Rgb>)
    ensures
        sets_short(row_line(row)),
    decreases row.len(),
{
    let texts = row.map_values(|c: Rgb| rgb_text(c));
    if row.len() == 0 {
        let none = row_line(row);
        assert(none =~= Seq::<char>::empty());
        assert(words(none) =~= seq![Seq::<char>::empty()]);
    } else {
        let c = row.last();
        let r = decimal(c.r as nat);
        let g = decimal(c.g as nat);
        let b = decimal(c.b as nat);
        lemma_level(c.r);
        lemma_level(c.g);
        lemma_level(c.b);
        assert(texts.last() == rgb_text(c));
        if row.len() == 1 {
            lemma_sets_short_extend(Seq::empty(), r);
            lemma_sets_short_extend(r, g);
            lemma_sets_short_extend(r.push(' ') + g, b);
            assert(row_line(row) =~= (r.push(' ') + g).push(' ') + b);
        } else {
            let head = row.drop_last();
            lemma_row_line(head);
            let before = row_line(head);
            assert(texts.drop_last() =~= head.map_values(|c: Rgb| rgb_text(c)));
            lemma_sets_short_extend(before, r);
            lemma_sets_short_extend(before.push(' ') + r, g);
            lemma_sets_short_extend((before.push(' ') + r).push(' ') + g, b);
            assert(row_line(row) =~= ((before.push(' ') + r).push(' ') + g).push(' ') + b);
        }
    }
}

/// No line of a row's text is as long as the limit.
pub proof fn lemma_row_text_lines(row: Seq<Rgb>)
    ensures
        short_words(lines(row_text(row))),
{
    lemma_row_line(row);
    lemma_wrapped_lines_short(row_line(row));
}

/// A text without a line break is its own single line.
proof fn lemma_one_line(text: Seq<char>)
    requires
        !text.contains('\n'),
    ensures
        lines(text) == seq![text],
{
    lemma_split_append(Seq::<char>::empty(), text, '\n');
    assert(Seq::<char>::empty() + text =~= text);
    assert(lines(text) =~= seq![text]);
}

/// Texts joined by line breaks have the lines of each of them, so where
/// each has short lines only, so has the whole.
proof fn lemma_joined_lines(parts: Seq<Seq<char>>)
    requires
        forall|i: int| 0 <= i < parts.len() ==> short_words(lines(#[trigger] parts[i])),
    ensures
        short_words(lines(joined(parts, '\n'))),
    decreases parts.len(),
{
    if parts.len() == 0 {
        assert(lines(joined(parts, '\n')) =~= seq![Seq::<char>::empty()]);
    } else if parts.len() == 1 {
        assert(short_words(lines(parts[0])));
    } else {
        let head = parts.drop_last();
        assert forall|i: int| 0 <= i < head.len() implies short_words(lines(#[trigger] head[i])) by {
            assert(head[i] == parts[i]);
        }
        lemma_joined_lines(head);
        lemma_split_concat(joined(head, '\n'), parts.last(), '\n');
        assert(short_words(lines(parts[parts.len() - 1])));
    }
}

/// No line of an image's text is as long as the limit.
pub proof fn lemma_ppm_lines(across: nat, down: nat, rows: Seq<Seq<Rgb>>)
    requires
        across < 10_000_000_000,
        down < 10_000_000_000,
    ensures
        short_words(lines(ppm_text(across, down, rows))),
{
    let mark = seq!['P', '3'];
    let w = decimal(across);
    let h = decimal(down);
    let dims = w.push(' ') + h;
    let top = seq!['2', '5', '5'];
    let texts = rows.map_values(|row: Seq<Rgb>| row_text(row));
    let body = joined(texts, '\n');
    let whole = ppm_text(across, down, rows);
    lemma_decimal(across);
    lemma_decimal(down);
    assert forall|k: int| 0 <= k < dims.len() implies dims[k] != '\n' by {
        if k < w.len() {
            assert(dims[k] == w[k]);
        } else if k > w.len() {
            assert(dims[k] == h[k - w.len() - 1]);
        }
    }
    lemma_width_concat(w.push(' '), h);
    assert(width(w.push(' ')) == width(w) + 1) by {
        assert(w.push(' ').drop_last() =~= w);
    }
    lemma_one_line(mark);
    lemma_one_line(dims);
    lemma_one_line(top);
    assert(width(mark) == 2) by {
        lemma_width_of_ascii(mark);
    }
    assert(width(top) == 3) by {
        lemma_width_of_ascii(top);
    }
    assert forall|i: int| 0 <= i < texts.len() implies short_words(lines(#[trigger] texts[i])) by {
        lemma_row_text_lines(rows[i]);
    }
    lemma_joined_lines(texts);
    let first = mark.push('\n') + dims;
    let second = first.push('\n') + top;
    let closed = body.push('\n');
    assert(whole =~= second.push('\n') + closed);
    lemma_split_concat(mark, dims, '\n');
    lemma_split_concat(first, top, '\n');
    lemma_split_concat(second, closed, '\n');
    assert(closed.drop_last() =~= body);
    assert(lines(closed) == lines(body).push(Seq::empty()));
    assert(width(Seq::<char>::empty()) == 0);
    let all = lines(whole);
    assert(all == ((seq![mark] + seq![dims]) + seq![top]) + lines(body).push(Seq::empty()));
    assert forall|i: int| 0 <= i < all.len() implies width(#[trigger] all[i]) < LINE_LIMIT by {
        if i >= 3 && i < all.len() - 1 {
            assert(all[i] == lines(body)[i - 3]);
        }
    }
}

} // verus!
