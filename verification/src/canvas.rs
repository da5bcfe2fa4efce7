//! A rectangular pixel buffer, and its dump as a plain-text image.
//!
//! The buffer holds any copyable pixel type and is modelled as the sequence
//! of its rows. The dump is defined for pixels of three 8-bit levels: a
//! header, then one line of decimal numbers per row, each line wrapped so
//! that it fits the line length that the format asks for.

use crate::ppm::{lemma_ppm_lines, ppm_text, rgb_text, row_text};
use crate::text::{
    breaks_only, decimal, digit, fits, joined, laid_out, lead_of, lemma_width_bounds,
    lemma_wrapped_breaks_only, lemma_wrapped_lines_fit, lines, place, utf8_width, width, words,
    wrapped, LINE_LIMIT,
};
use vstd::prelude::*;

verus! {

/// A colour as three levels from 0 to 255.
#[derive(Clone, Copy, Debug, PartialEq, Eq, Structural)]
pub struct Rgb {
    pub r: u8,
    pub g: u8,
    pub b: u8,
}

impl Default for Rgb {
    /// Black.
    fn default() -> (c: Rgb)
        ensures
            c == (Rgb { r: 0, g: 0, b: 0 }),
    {
        Rgb { r: 0, g: 0, b: 0 }
    }
}

/// `rows` is a grid of `height` rows of `width` pixels each.
pub open spec fn is_grid<P>(rows: Seq<Seq<P>>, width: int, height: int) -> bool {
    &&& 0 <= width
    &&& rows.len() == height
    &&& forall|y: int| 0 <= y < height ==> (#[trigger] rows[y]).len() == width
}

/// The rows of a stored grid as sequences.
pub open spec fn rows_of<P>(pixels: Seq<Vec<P>>) -> Seq<Seq<P>> {
    Seq::new(pixels.len(), |y: int| pixels[y]@)
}

/// A buffer of `height` rows of `width` pixels.
pub struct Canvas<P> {
    width: i32,
    height: i32,
    pixels: Vec<Vec<P>>,
}

impl<P> View for Canvas<P> {
    type V = Seq<Seq<P>>;

    /// The rows from top to bottom, each from left to right.
    closed spec fn view(&self) -> Seq<Seq<P>> {
        rows_of(self.pixels@)
    }
}

impl<P> Canvas<P> {
    #[verifier::type_invariant]
    spec fn shaped(&self) -> bool {
        is_grid(self@, self.width as int, self.height as int)
    }

    /// The number of pixels in a row.
    pub closed spec fn spec_width(&self) -> int {
        self.width as int
    }

    /// The number of rows.
    pub closed spec fn spec_height(&self) -> int {
        self.height as int
    }
}

/// `String::push` of the standard library, which appends the character to
/// the end of the string and changes nothing else in it.
pub assume_specification[ String::push ](s: &mut String, ch: char)
    ensures
        final(s)@ == old(s)@.push(ch),
;

/// The string made of `chars`, in order.
fn string_of(chars: &Vec<char>) -> (s: String)
    ensures
        s@ == chars@,
{
    let mut s = String::new();
    let mut k: usize = 0;
    while k < chars.len()
        invariant
            k <= chars.len(),
            s@ == chars@.take(k as int),
        decreases chars.len() - k,
    {
        s.push(chars[k]);
        k += 1;
        assert(chars@.take(k as int) =~= chars@.take(k - 1).push(chars@[k - 1]));
    }
    assert(chars@.take(k as int) =~= chars@);
    s
}

/// The characters of `s`, in order.
fn letters(s: &String) -> (v: Vec<char>)
    ensures
        v@ == s@,
{
    let mut v: Vec<char> = Vec::new();
    for c in it: s.as_str().chars()
        invariant
            it.seq() == s@,
            v@ == s@.take(it.index() as int),
    {
        v.push(c);
    }
    assert(v@ =~= s@);
    v
}

/// Appends `extra` to `out`.
fn push_all(out: &mut Vec<char>, extra: &Vec<char>)
    ensures
        final(out)@ == old(out)@ + extra@,
{
    let mut k: usize = 0;
    while k < extra.len()
        invariant
            k <= extra.len(),
            out@ == old(out)@ + extra@.take(k as int),
        decreases extra.len() - k,
    {
        out.push(extra[k]);
        k += 1;
        assert(out@ =~= old(out)@ + extra@.take(k as int));
    }
    assert(extra@.take(k as int) =~= extra@);
}

/// The UTF-8 width of `c` as a machine integer.
fn char_width(c: char) -> (n: usize)
    ensures
        n as int == utf8_width(c),
{
    let code = c as u32;
    if code < 0x80 {
        1
    } else if code < 0x800 {
        2
    } else if code < 0x10000 {
        3
    } else {
        4
    }
}

/// A count that stops at `cap`: enough to decide whether a line is full
/// without ever leaving the machine's range.
spec fn capped(n: int, cap: int) -> int {
    if n < cap {
        n
    } else {
        cap
    }
}

/// Appends `word` and a separator to `out`, breaking the line first where
/// the word does not fit. `col` and `word_width` are the bytes on the last
/// line and the word's width, both capped; the new capped column is
/// returned.
fn place_word(
    out: &mut Vec<char>,
    col: usize,
    word: &Vec<char>,
    word_width: usize,
    Ghost(column): Ghost<int>,
) -> (next: usize)
    requires
        column >= 0,
        col as int == capped(column, LINE_LIMIT + 1),
        word_width as int == capped(width(word@), LINE_LIMIT as int),
    ensures
        final(out)@ == place((old(out)@, column), word@).0,
        next as int == capped(place((old(out)@, column), word@).1, LINE_LIMIT + 1),
        place((old(out)@, column), word@).1 >= 0,
{
    proof {
        lemma_width_bounds(word@);
    }
    let need = word_width + 1;
    let mut col = col;
    if col + need > LINE_LIMIT {
        out.pop();
        out.push('\n');
        col = 0;
    }
    push_all(out, word);
    out.push(' ');
    assert(out@ =~= place((old(out)@, column), word@).0);
    col + need
}

/// The characters of `text`, wrapped.
fn wrap(text: &Vec<char>) -> (out: Vec<char>)
    ensures
        out@ == wrapped(text@),
{
    let mut out: Vec<char> = Vec::new();
    let mut col: usize = 0;
    let mut word: Vec<char> = Vec::new();
    let mut word_width: usize = 0;
    let ghost mut done: Seq<Seq<char>> = Seq::empty();
    let ghost mut column: int = 0;
    proof {
        assert(text@.take(0) =~= Seq::empty());
        assert(words(text@.take(0)) =~= done.push(word@));
    }
    let mut i: usize = 0;
    while i < text.len()
        invariant
            i <= text.len(),
            words(text@.take(i as int)) == done.push(word@),
            laid_out(done) == (out@, column),
            column >= 0,
            col as int == capped(column, LINE_LIMIT + 1),
            word_width as int == capped(width(word@), LINE_LIMIT as int),
        decreases text.len() - i,
    {
        let c = text[i];
        let ghost seen = text@.take(i as int);
        let ghost next_seen = text@.take(i + 1);
        proof {
            assert(next_seen.drop_last() =~= seen);
            assert(next_seen.last() == c);
            lemma_width_bounds(word@);
        }
        if c == ' ' {
            let ghost laid = (out@, column);
            col = place_word(&mut out, col, &word, word_width, Ghost(column));
            proof {
                let ghost earlier = done;
                done = done.push(word@);
                column = place(laid, word@).1;
                assert(done.drop_last() =~= earlier);
                assert(laid_out(done) == place(laid_out(earlier), word@));
            }
            word = Vec::new();
            word_width = 0;
            assert(words(next_seen) =~= done.push(word@));
        } else {
            let ghost old_word = word@;
            let n = char_width(c);
            word.push(c);
            word_width = if word_width + n < LINE_LIMIT {
                word_width + n
            } else {
                LINE_LIMIT
            };
            proof {
                assert(word@.drop_last() =~= old_word);
                assert(words(seen).drop_last() =~= done);
                assert(words(next_seen) =~= done.push(word@));
            }
        }
        i += 1;
    }
    proof {
        assert(text@.take(i as int) =~= text@);
    }
    let ghost laid = (out@, column);
    let _ = place_word(&mut out, col, &word, word_width, Ghost(column));
    proof {
        let all = done.push(word@);
        assert(all.drop_last() =~= done);
        assert(laid_out(all) == place(laid, word@));
    }
    out.pop();
    out
}

/// `s` with its words wrapped greedily. Line breaks take the place of
/// some of its spaces, so that no line on which two or more words stand is
/// longer than 69 bytes. Words are never split: one that is too long has a
/// line to itself, and where it is the first word a line break stands in
/// front of it.
pub fn limit_string_to_70(s: String) -> (r: String)
    ensures
        r@ == wrapped(s@),
        breaks_only(s@, r@, lead_of(words(s@))),
        !s@.contains('\n') ==> forall|i: int|
            0 <= i < lines(r@).len() ==> fits(#[trigger] lines(r@)[i]),
{
    proof {
        lemma_wrapped_breaks_only(s@);
        if !s@.contains('\n') {
            lemma_wrapped_lines_fit(s@);
        }
    }
    string_of(&wrap(&letters(&s)))
}

/// The digit character for `d`.
fn digit_char(d: u32) -> (c: char)
    requires
        d <= 9,
    ensures
        c == digit(d as int),
{
    if d == 0 {
        '0'
    } else if d == 1 {
        '1'
    } else if d == 2 {
        '2'
    } else if d == 3 {
        '3'
    } else if d == 4 {
        '4'
    } else if d == 5 {
        '5'
    } else if d == 6 {
        '6'
    } else if d == 7 {
        '7'
    } else if d == 8 {
        '8'
    } else {
        '9'
    }
}

/// Appends `n` in decimal to `out`.
fn push_decimal(out: &mut Vec<char>, n: u32)
    ensures
        final(out)@ == old(out)@ + decimal(n as nat),
    decreases n,
{
    if n >= 10 {
        push_decimal(out, n / 10);
    }
    out.push(digit_char(n % 10));
    assert(out@ =~= old(out)@ + decimal(n as nat));
}

/// Appends the three levels of `c` to `out`.
fn push_rgb(out: &mut Vec<char>, c: &Rgb)
    ensures
        final(out)@ == old(out)@ + rgb_text(*c),
{
    push_decimal(out, c.r as u32);
    out.push(' ');
    push_decimal(out, c.g as u32);
    out.push(' ');
    push_decimal(out, c.b as u32);
    assert(out@ =~= old(out)@ + rgb_text(*c));
}

/// The three levels of `c` in decimal, separated by spaces.
pub fn color_to_255_str(c: &Rgb) -> (s: String)
    ensures
        s@ == rgb_text(*c),
{
    let mut out: Vec<char> = Vec::new();
    push_rgb(&mut out, c);
    string_of(&out)
}

/// One row of an image as wrapped text.
fn ppm_row(row: &Vec<Rgb>) -> (out: Vec<char>)
    ensures
        out@ == row_text(row@),
{
    let mut line: Vec<char> = Vec::new();
    let ghost texts = row@.map_values(|c: Rgb| rgb_text(c));
    let mut x: usize = 0;
    while x < row.len()
        invariant
            x <= row.len(),
            texts == row@.map_values(|c: Rgb| rgb_text(c)),
            line@ == joined(texts.take(x as int), ' '),
        decreases row.len() - x,
    {
        if x > 0 {
            line.push(' ');
        }
        push_rgb(&mut line, &row[x]);
        proof {
            let now = texts.take(x + 1);
            assert(now.drop_last() =~= texts.take(x as int));
            assert(now.last() == rgb_text(row@[x as int]));
            if x == 0 {
                assert(line@ =~= now[0]);
            }
        }
        x += 1;
    }
    assert(texts.take(x as int) =~= texts);
    wrap(&line)
}

impl<P: Copy + Default> Canvas<P> {
    /// A canvas of `w` by `h` pixels, each of them the default pixel.
    pub fn new(w: i32, h: i32) -> (c: Canvas<P>)
        requires
            0 <= w,
            0 <= h,
        ensures
            c.spec_width() == w,
            c.spec_height() == h,
            is_grid(c@, w as int, h as int),
            forall|x: int, y: int|
                0 <= x < w && 0 <= y < h ==> call_ensures(P::default, (), #[trigger] c@[y][x]),
            forall|x: int, y: int| 0 <= x < w && 0 <= y < h ==> #[trigger] c@[y][x] == c@[0][0],
    {
        let blank = P::default();
        let mut pixels: Vec<Vec<P>> = Vec::new();
        let mut y: i32 = 0;
        while y < h
            invariant
                0 <= y <= h,
                0 <= w,
                call_ensures(P::default, (), blank),
                is_grid(rows_of(pixels@), w as int, y as int),
                forall|i: int, j: int|
                    0 <= i < w && 0 <= j < y ==> #[trigger] rows_of(pixels@)[j][i] == blank,
            decreases h - y,
        {
            let mut row: Vec<P> = Vec::new();
            let mut x: i32 = 0;
            while x < w
                invariant
                    0 <= x <= w,
                    row@.len() == x,
                    forall|i: int| 0 <= i < x ==> #[trigger] row@[i] == blank,
                decreases w - x,
            {
                row.push(blank);
                x += 1;
            }
            let ghost before = rows_of(pixels@);
            pixels.push(row);
            proof {
                let after = rows_of(pixels@);
                assert(after =~= before.push(row@));
            }
            y += 1;
        }
        Canvas { width: w, height: h, pixels }
    }
}

/// Writes `c` at column `x` of row `y`.
fn put<P: Copy>(pixels: &mut Vec<Vec<P>>, x: usize, y: usize, c: P)
    requires
        y < old(pixels)@.len(),
        x < old(pixels)@[y as int]@.len(),
    ensures
        rows_of(final(pixels)@) == rows_of(old(pixels)@).update(
            y as int,
            rows_of(old(pixels)@)[y as int].update(x as int, c),
        ),
    no_unwind
{
    pixels[y][x] = c;
    assert(rows_of(pixels@) =~~= rows_of(old(pixels)@).update(
        y as int,
        rows_of(old(pixels)@)[y as int].update(x as int, c),
    ));
}

impl<P: Copy> Canvas<P> {
    /// The number of pixels in a row.
    pub fn width(&self) -> (w: i32)
        ensures
            w == self.spec_width(),
            is_grid(self@, self.spec_width(), self.spec_height()),
    {
        proof {
            use_type_invariant(self);
        }
        self.width
    }

    /// The number of rows.
    pub fn height(&self) -> (h: i32)
        ensures
            h == self.spec_height(),
            is_grid(self@, self.spec_width(), self.spec_height()),
    {
        proof {
            use_type_invariant(self);
        }
        self.height
    }

    /// The pixel at column `w` of row `h`.
    pub fn get(&self, w: i32, h: i32) -> (p: P)
        requires
            0 <= w < self.spec_width(),
            0 <= h < self.spec_height(),
        ensures
            p == self@[h as int][w as int],
    {
        proof {
            use_type_invariant(self);
        }
        assert(self@[h as int].len() == self.width);
        self.pixels[h as usize][w as usize]
    }

    /// Puts `c` at column `w` of row `h` and leaves every other pixel as
    /// it was.
    pub fn set(&mut self, w: i32, h: i32, c: P)
        requires
            0 <= w < old(self).spec_width(),
            0 <= h < old(self).spec_height(),
        ensures
            final(self).spec_width() == old(self).spec_width(),
            final(self).spec_height() == old(self).spec_height(),
            final(self)@ == old(self)@.update(h as int, old(self)@[h as int].update(w as int, c)),
    {
        proof {
            use_type_invariant(&*self);
        }
        assert(self@[h as int].len() == self.width);
        put(&mut self.pixels, w as usize, h as usize, c);
    }
}

impl Canvas<Rgb> {
    /// The canvas as a plain-text image.
    pub fn to_ppm(&self) -> (s: String)
        ensures
            s@ == ppm_text(self.spec_width() as nat, self.spec_height() as nat, self@),
            forall|i: int| 0 <= i < lines(s@).len() ==> width(#[trigger] lines(s@)[i]) < LINE_LIMIT,
    {
        proof {
            use_type_invariant(self);
            lemma_ppm_lines(self.width as nat, self.height as nat, self@);
        }
        let mut out: Vec<char> = Vec::new();
        out.push('P');
        out.push('3');
        out.push('\n');
        push_decimal(&mut out, self.width as u32);
        out.push(' ');
        push_decimal(&mut out, self.height as u32);
        out.push('\n');
        out.push('2');
        out.push('5');
        out.push('5');
        out.push('\n');
        let ghost header = out@;
        let ghost lines = self@.map_values(|row: Seq<Rgb>| row_text(row));
        let mut y: usize = 0;
        while y < self.pixels.len()
            invariant
                y <= self.pixels@.len(),
                lines == self@.map_values(|row: Seq<Rgb>| row_text(row)),
                out@ == header + joined(lines.take(y as int), '\n'),
            decreases self.pixels@.len() - y,
        {
            if y > 0 {
                out.push('\n');
            }
            let line = ppm_row(&self.pixels[y]);
            push_all(&mut out, &line);
            proof {
                let now = lines.take(y + 1);
                assert(now.drop_last() =~= lines.take(y as int));
                assert(now.last() == row_text(self@[y as int]));
                if y == 0 {
                    assert(joined(now, '\n') =~= now[0]);
                }
                assert(out@ =~= header + joined(now, '\n'));
            }
            y += 1;
        }
        assert(lines.take(y as int) =~= lines);
        out.push('\n');
        assert(out@ =~= ppm_text(self.spec_width() as nat, self.spec_height() as nat, self@));
        string_of(&out)
    }
}

} // verus!
