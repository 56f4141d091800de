//! The plain-text portable pixel map format: a three-line header, then
//! every channel of every pixel as a decimal number, row by row, with the
//! numbers of a row wrapped so that no line reaches the line-length limit.
use vstd::prelude::*;
use vstd::seq_lib::lemma_flatten_concat;
use crate::grid_text::{is_white_space, scan_words, words};

verus! {

/// A line, with its separating spaces, is flushed before it would reach this length.
pub const MAX_LINE_LENGTH: usize = 70;

/// The largest channel value; written as the header's third line.
pub const MAX_CHANNEL_VALUE: u8 = 255;

/// A pixel whose channels are already quantised to `0..=255`.
#[derive(Clone, Copy, Debug, PartialEq, Eq, Structural)]
pub struct Rgb8 {
    pub red: u8,
    pub green: u8,
    pub blue: u8,
}

impl Rgb8 {
    pub fn new(red: u8, green: u8, blue: u8) -> (r: Rgb8)
        ensures
            r == (Rgb8 { red, green, blue }),
    {
        Rgb8 { red, green, blue }
    }
}

/// The character of a decimal digit.
pub open spec fn digit_char(d: nat) -> char
    recommends
        d < 10,
{
    ((d + 48) as u8) as char
}

/// The value of a decimal digit character.
pub open spec fn digit_value(c: char) -> nat {
    ((c as u32) - 48) as nat
}

/// The number that the decimal digits `s` denote.
pub open spec fn decimal_value(s: Seq<char>) -> nat
    decreases s.len(),
{
    if s.len() == 0 {
        0
    } else {
        decimal_value(s.drop_last()) * 10 + digit_value(s.last())
    }
}

/// `n` written in decimal, without sign or leading zeros.
pub open spec fn decimal(n: nat) -> Seq<char>
    decreases n,
{
    if n < 10 {
        seq![digit_char(n)]
    } else {
        decimal(n / 10).push(digit_char(n % 10))
    }
}

/// Each line followed by a carriage return, all joined.
pub open spec fn terminated(lines: Seq<Seq<char>>) -> Seq<char> {
    lines.map_values(|l: Seq<char>| l.push('\r')).flatten()
}

/// `line` joined by one space to the number `token`, or `token` alone when
/// `line` is empty.
pub open spec fn append_token(line: Seq<char>, token: Seq<char>) -> Seq<char> {
    if line.len() == 0 {
        token
    } else {
        line.push(' ') + token
    }
}

/// The width a line takes once a further number has to follow it: its
/// length and the separating space, or nothing for an empty line.
pub open spec fn pending_width(line: Seq<char>) -> nat {
    if line.len() == 0 {
        0
    } else {
        line.len() + 1
    }
}

/// Places one more number after `lines`, whose last line is still open: on
/// that line, or on a fresh one when the open line would reach the limit.
pub open spec fn wrap_step(lines: Seq<Seq<char>>, token: Seq<char>) -> Seq<Seq<char>> {
    let line = lines.last();
    if pending_width(line) + token.len() >= MAX_LINE_LENGTH {
        lines.push(token)
    } else {
        lines.update(lines.len() - 1, append_token(line, token))
    }
}

/// The lines that the numbers `tokens` of one pixel row are wrapped into.
pub open spec fn wrap(tokens: Seq<Seq<char>>) -> Seq<Seq<char>>
    decreases tokens.len(),
{
    if tokens.len() == 0 {
        seq![Seq::<char>::empty()]
    } else {
        wrap_step(wrap(tokens.drop_last()), tokens.last())
    }
}

/// The channel values of `pixels`: red, green and blue of each pixel in turn.
pub open spec fn channel_values(pixels: Seq<Rgb8>) -> Seq<u8> {
    pixels.map_values(|p: Rgb8| seq![p.red, p.green, p.blue]).flatten()
}

/// The channel values of `pixels`, each written in decimal.
pub open spec fn channel_tokens(pixels: Seq<Rgb8>) -> Seq<Seq<char>> {
    channel_values(pixels).map_values(|c: u8| decimal(c as nat))
}

/// The pixels of row `y` of a row-major image `width` pixels wide.
pub open spec fn image_row(pixels: Seq<Rgb8>, width: nat, y: nat) -> Seq<Rgb8> {
    pixels.subrange((y * width) as int, (y * width + width) as int)
}

/// The lines that row `y` of the image is written as.
pub open spec fn row_lines(pixels: Seq<Rgb8>, width: nat, y: nat) -> Seq<Seq<char>> {
    wrap(channel_tokens(image_row(pixels, width, y)))
}

/// The three header lines: the format's magic number, the dimensions and
/// the largest channel value.
pub open spec fn header_lines(width: nat, height: nat) -> Seq<Seq<char>> {
    seq![seq!['P', '3'], decimal(width) + seq![' '] + decimal(height), decimal(MAX_CHANNEL_VALUE as nat)]
}

/// Every line of the image: the header, then the lines of each row in turn.
pub open spec fn ppm_lines(width: nat, height: nat, pixels: Seq<Rgb8>) -> Seq<Seq<char>> {
    header_lines(width, height) + Seq::new(height, |y: int| row_lines(pixels, width, y as nat)).flatten()
}

/// The whole image as text, each line ended by a carriage return.
pub open spec fn ppm_text(width: nat, height: nat, pixels: Seq<Rgb8>) -> Seq<char> {
    terminated(ppm_lines(width, height, pixels))
}

/// Appends the digit `d` to `out`.
fn append_digit(out: &mut String, d: usize)
    requires
        d < 10,
    ensures
        final(out)@ == old(out)@.push(digit_char(d as nat)),
{
    let digits = "0123456789";
    proof {
        reveal_strlit("0123456789");
    }
    assert(digits.is_ascii());
    let one = digits.substring_ascii(d, d + 1);
    assert(one@ =~= seq![digit_char(d as nat)]);
    out.append(one);
}

/// Appends `n` in decimal to `out`.
fn append_decimal(out: &mut String, n: usize)
    ensures
        final(out)@ == old(out)@ + decimal(n as nat),
    decreases n,
{
    if n >= 10 {
        append_decimal(out, n / 10);
    }
    append_digit(out, n % 10);
    assert(out@ =~= old(out)@ + decimal(n as nat));
}

/// How many digits the channel value `n` has in decimal.
fn decimal_len(n: u8) -> (r: usize)
    ensures
        r == decimal(n as nat).len(),
        1 <= r <= 3,
{
    reveal_with_fuel(decimal, 3);
    if n < 10 {
        1
    } else if n < 100 {
        2
    } else {
        3
    }
}

/// The carriage returns of `terminated` distribute over joining line lists.
proof fn lemma_terminated_concat(a: Seq<Seq<char>>, b: Seq<Seq<char>>)
    ensures
        terminated(a + b) == terminated(a) + terminated(b),
{
    let f = |l: Seq<char>| l.push('\r');
    assert((a + b).map_values(f) =~= a.map_values(f) + b.map_values(f));
    lemma_flatten_concat(a.map_values(f), b.map_values(f));
}

/// Ending one more line appends it and its carriage return.
proof fn lemma_terminated_push(lines: Seq<Seq<char>>, line: Seq<char>)
    ensures
        terminated(lines.push(line)) == terminated(lines) + line.push('\r'),
{
    let f = |l: Seq<char>| l.push('\r');
    assert(lines.push(line).map_values(f) =~= lines.map_values(f).push(f(line)));
    lines.map_values(f).lemma_flatten_push(f(line));
}

/// Wrapping one more number takes one step from the wrapping of the others.
proof fn lemma_wrap_push(tokens: Seq<Seq<char>>, token: Seq<char>)
    ensures
        wrap(tokens.push(token)) == wrap_step(wrap(tokens), token),
{
    assert(tokens.push(token).drop_last() =~= tokens);
}

/// One more pixel adds its three channels, in order.
proof fn lemma_channel_values_push(pixels: Seq<Rgb8>, p: Rgb8)
    ensures
        channel_values(pixels.push(p)) == channel_values(pixels) + seq![p.red, p.green, p.blue],
{
    let f = |q: Rgb8| seq![q.red, q.green, q.blue];
    assert(pixels.push(p).map_values(f) =~= pixels.map_values(f).push(f(p)));
    pixels.map_values(f).lemma_flatten_push(f(p));
}

/// One more pixel adds the decimal text of its three channels, in order.
proof fn lemma_channel_tokens_push(pixels: Seq<Rgb8>, p: Rgb8)
    ensures
        channel_tokens(pixels.push(p)) == channel_tokens(pixels).push(decimal(p.red as nat)).push(
            decimal(p.green as nat),
        ).push(decimal(p.blue as nat)),
{
    lemma_channel_values_push(pixels, p);
    assert(channel_tokens(pixels.push(p)) =~= channel_tokens(pixels).push(decimal(p.red as nat)).push(
        decimal(p.green as nat),
    ).push(decimal(p.blue as nat)));
}

/// No pixels, no channels.
proof fn lemma_channel_values_empty()
    ensures
        channel_values(Seq::<Rgb8>::empty()) == Seq::<u8>::empty(),
{
    let f = |q: Rgb8| seq![q.red, q.green, q.blue];
    assert(Seq::<Rgb8>::empty().map_values(f) =~= Seq::<Seq<u8>>::empty());
}

/// The serialised text built so far, together with the row line still open.
struct LineWriter {
    text: String,
    line: String,
    line_len: usize,
}

impl LineWriter {
    /// `text` is `base` followed by every line of `lines` but the last, which
    /// is the open line.
    spec fn holds(&self, base: Seq<char>, lines: Seq<Seq<char>>) -> bool {
        &&& lines.len() > 0
        &&& self.text@ == base + terminated(lines.drop_last())
        &&& self.line@ == lines.last()
        &&& self.line_len == lines.last().len()
        &&& self.line_len < MAX_LINE_LENGTH
    }

    /// Places the number `token` as `wrap_step` does.
    fn push_token(
        &mut self,
        token: &String,
        token_len: usize,
        Ghost(base): Ghost<Seq<char>>,
        Ghost(lines): Ghost<Seq<Seq<char>>>,
    )
        requires
            old(self).holds(base, lines),
            token_len == token@.len(),
            0 < token_len < MAX_LINE_LENGTH,
        ensures
            final(self).holds(base, wrap_step(lines, token@)),
    {
        let pending: usize = if self.line_len == 0 {
            0
        } else {
            self.line_len + 1
        };
        proof {
            reveal_strlit("\r");
            reveal_strlit(" ");
        }
        if pending + token_len >= MAX_LINE_LENGTH {
            self.text.append(self.line.as_str());
            self.text.append("\r");
            let mut line = String::new();
            line.append(token.as_str());
            self.line = line;
            self.line_len = token_len;
            proof {
                lemma_terminated_push(lines.drop_last(), lines.last());
                assert(lines.drop_last().push(lines.last()) =~= lines);
                assert(wrap_step(lines, token@).drop_last() =~= lines);
                assert(self.text@ =~= base + terminated(lines));
            }
        } else {
            if self.line_len > 0 {
                self.line.append(" ");
            }
            self.line.append(token.as_str());
            self.line_len = pending + token_len;
            proof {
                assert(wrap_step(lines, token@).drop_last() =~= lines.drop_last());
                assert(self.line@ =~= append_token(lines.last(), token@));
            }
        }
    }

    /// Writes the channel value `c` as the next number of the row.
    fn push_channel(&mut self, c: u8, Ghost(base): Ghost<Seq<char>>, Ghost(lines): Ghost<Seq<Seq<char>>>)
        requires
            old(self).holds(base, lines),
        ensures
            final(self).holds(base, wrap_step(lines, decimal(c as nat))),
    {
        let mut token = String::new();
        append_decimal(&mut token, c as usize);
        assert(token@ =~= decimal(c as nat));
        let token_len = decimal_len(c);
        self.push_token(&token, token_len, Ghost(base), Ghost(lines));
    }

    /// Ends the open line.
    fn end_line(&mut self, Ghost(base): Ghost<Seq<char>>, Ghost(lines): Ghost<Seq<Seq<char>>>)
        requires
            old(self).holds(base, lines),
        ensures
            final(self).holds(base + terminated(lines), seq![Seq::<char>::empty()]),
    {
        proof {
            reveal_strlit("\r");
        }
        self.text.append(self.line.as_str());
        self.text.append("\r");
        self.line = String::new();
        self.line_len = 0;
        proof {
            lemma_terminated_push(lines.drop_last(), lines.last());
            assert(lines.drop_last().push(lines.last()) =~= lines);
            assert(terminated(seq![Seq::<char>::empty()].drop_last()) =~= Seq::<char>::empty()) by {
                assert(seq![Seq::<char>::empty()].drop_last().map_values(
                    |l: Seq<char>| l.push('\r'),
                ) =~= Seq::<Seq<char>>::empty());
            }
            assert(self.text@ =~= base + terminated(lines) + terminated(
                seq![Seq::<char>::empty()].drop_last(),
            ));
        }
    }
}

/// Serialises a `width` × `height` image, given row-major, as plain-text
/// portable pixel map.
pub fn encode_ppm(width: usize, height: usize, pixels: &Vec<Rgb8>) -> (r: String)
    requires
        pixels@.len() == width * height,
    ensures
        r@ == ppm_text(width as nat, height as nat, pixels@),
{
    let len = pixels.len();
    let mut text = String::new();
    proof {
        reveal_strlit("P3\r");
        reveal_strlit(" ");
        reveal_strlit("\r");
    }
    text.append("P3\r");
    append_decimal(&mut text, width);
    text.append(" ");
    append_decimal(&mut text, height);
    text.append("\r");
    append_decimal(&mut text, MAX_CHANNEL_VALUE as usize);
    text.append("\r");
    let ghost header = header_lines(width as nat, height as nat);
    proof {
        let h0 = Seq::<Seq<char>>::empty();
        assert(terminated(h0) =~= Seq::<char>::empty()) by {
            assert(h0.map_values(|l: Seq<char>| l.push('\r')) =~= Seq::<Seq<char>>::empty());
        }
        lemma_terminated_push(h0, header[0]);
        lemma_terminated_push(h0.push(header[0]), header[1]);
        lemma_terminated_push(h0.push(header[0]).push(header[1]), header[2]);
        assert(h0.push(header[0]).push(header[1]).push(header[2]) =~= header);
        assert(text@ =~= terminated(header));
    }
    let ghost rows = |y: int| row_lines(pixels@, width as nat, y as nat);
    let mut w = LineWriter { text, line: String::new(), line_len: 0 };
    proof {
        assert(Seq::new(0, rows).flatten() =~= Seq::<Seq<char>>::empty());
        assert(header + Seq::new(0, rows).flatten() =~= header);
        assert(terminated(seq![Seq::<char>::empty()].drop_last()) =~= Seq::<char>::empty()) by {
            assert(seq![Seq::<char>::empty()].drop_last().map_values(
                |l: Seq<char>| l.push('\r'),
            ) =~= Seq::<Seq<char>>::empty());
        }
        assert(w.text@ =~= terminated(header + Seq::new(0, rows).flatten()) + terminated(
            seq![Seq::<char>::empty()].drop_last(),
        ));
    }
    for y in 0..height
        invariant
            pixels@.len() == width * height,
            len == width * height,
            header == header_lines(width as nat, height as nat),
            rows == (|y: int| row_lines(pixels@, width as nat, y as nat)),
            w.holds(
                terminated(header + Seq::new(y as nat, rows).flatten()),
                seq![Seq::<char>::empty()],
            ),
    {
        let ghost base = terminated(header + Seq::new(y as nat, rows).flatten());
        let ghost row = image_row(pixels@, width as nat, y as nat);
        assert(y * width + width <= width * height) by (nonlinear_arith)
            requires
                y < height,
        ;
        let row_start = y * width;
        proof {
            lemma_channel_values_empty();
            assert(row.take(0) =~= Seq::<Rgb8>::empty());
            assert(channel_tokens(row.take(0)) =~= Seq::<Seq<char>>::empty());
        }
        for x in 0..width
            invariant
                pixels@.len() == width * height,
                len == width * height,
                row_start == y * width,
                row_start + width <= width * height,
                row == image_row(pixels@, width as nat, y as nat),
                w.holds(base, wrap(channel_tokens(row.take(x as int)))),
        {
            let p = pixels[row_start + x];
            let ghost before = channel_tokens(row.take(x as int));
            proof {
                assert(row.take(x + 1) =~= row.take(x as int).push(p));
                lemma_channel_tokens_push(row.take(x as int), p);
                lemma_wrap_push(before, decimal(p.red as nat));
                lemma_wrap_push(before.push(decimal(p.red as nat)), decimal(p.green as nat));
                lemma_wrap_push(
                    before.push(decimal(p.red as nat)).push(decimal(p.green as nat)),
                    decimal(p.blue as nat),
                );
            }
            w.push_channel(p.red, Ghost(base), Ghost(wrap(before)));
            w.push_channel(
                p.green,
                Ghost(base),
                Ghost(wrap(before.push(decimal(p.red as nat)))),
            );
            w.push_channel(
                p.blue,
                Ghost(base),
                Ghost(wrap(before.push(decimal(p.red as nat)).push(decimal(p.green as nat)))),
            );
        }
        proof {
            assert(row.take(width as int) =~= row);
        }
        w.end_line(Ghost(base), Ghost(rows(y as int)));
        proof {
            let prefix = Seq::new(y as nat, rows);
            assert(Seq::new((y + 1) as nat, rows) =~= prefix.push(rows(y as int)));
            prefix.lemma_flatten_push(rows(y as int));
            lemma_terminated_concat(header + prefix.flatten(), rows(y as int));
            assert(header + Seq::new((y + 1) as nat, rows).flatten() =~= header + prefix.flatten()
                + rows(y as int));
        }
    }
    proof {
        assert(terminated(seq![Seq::<char>::empty()].drop_last()) =~= Seq::<char>::empty()) by {
            assert(seq![Seq::<char>::empty()].drop_last().map_values(
                |l: Seq<char>| l.push('\r'),
            ) =~= Seq::<Seq<char>>::empty());
        }
        assert(w.text@ =~= ppm_text(width as nat, height as nat, pixels@));
    }
    w.text
}

/// Ten to the power `k`.
spec fn pow10(k: nat) -> nat
    decreases k,
{
    if k == 0 {
        1
    } else {
        10 * pow10((k - 1) as nat)
    }
}

/// A line that the format accepts: shorter than the limit and without a
/// carriage return.
pub open spec fn fits_line(l: Seq<char>) -> bool {
    &&& l.len() < MAX_LINE_LENGTH
    &&& forall|i: int| 0 <= i < l.len() ==> l[i] != '\r'
}

/// A number as the pixel lines hold it: digits only, at least one, and no
/// more than three.
spec fn is_channel_token(t: Seq<char>) -> bool {
    &&& 0 < t.len() <= 3
    &&& forall|i: int| 0 <= i < t.len() ==> 48 <= (#[trigger] t[i]) as u32 <= 57
}

/// Decimal text is made of digits and reads back as the number written.
proof fn lemma_decimal(n: nat)
    ensures
        decimal(n).len() >= 1,
        forall|i: int| 0 <= i < decimal(n).len() ==> 48 <= (#[trigger] decimal(n)[i]) as u32 <= 57,
        decimal_value(decimal(n)) == n,
    decreases n,
{
    if n >= 10 {
        lemma_decimal(n / 10);
        assert(decimal(n).drop_last() =~= decimal(n / 10));
        assert(digit_value(digit_char(n % 10)) == n % 10);
        assert(decimal_value(decimal(n)) == decimal_value(decimal(n / 10)) * 10 + n % 10);
    } else {
        let d = decimal(n);
        assert(d.drop_last() =~= Seq::<char>::empty());
        assert(decimal_value(Seq::<char>::empty()) == 0);
        assert(digit_value(digit_char(n)) == n);
    }
}

/// Decimal text of a number below `10^k` has at most `k` digits.
proof fn lemma_decimal_len(n: nat, k: nat)
    requires
        k >= 1,
        n < pow10(k),
    ensures
        decimal(n).len() <= k,
    decreases n,
{
    if n >= 10 {
        assert(k >= 2) by {
            if k == 1 {
                reveal_with_fuel(pow10, 2);
            }
        }
        assert(n / 10 < pow10((k - 1) as nat));
        lemma_decimal_len(n / 10, (k - 1) as nat);
    }
}

/// Each channel value is written as a channel token.
proof fn lemma_channel_token(c: u8)
    ensures
        is_channel_token(decimal(c as nat)),
{
    lemma_decimal(c as nat);
    reveal_with_fuel(pow10, 4);
    lemma_decimal_len(c as nat, 3);
}

/// Characters that follow a completed word and hold no white space extend
/// the word being read and complete none.
proof fn lemma_scan_word(a: Seq<char>, t: Seq<char>)
    requires
        forall|i: int| 0 <= i < t.len() ==> !is_white_space(#[trigger] t[i]),
    ensures
        scan_words(a + t) == (scan_words(a).0, scan_words(a).1 + t),
    decreases t.len(),
{
    if t.len() == 0 {
        assert(a + t =~= a);
        assert(scan_words(a).1 + t =~= scan_words(a).1);
    } else {
        lemma_scan_word(a, t.drop_last());
        assert((a + t).drop_last() =~= a + t.drop_last());
        assert((a + t).last() == t.last());
        assert(scan_words(a).1 + t =~= (scan_words(a).1 + t.drop_last()).push(t.last()));
    }
}

/// A line of one number is one word.
proof fn lemma_words_single(t: Seq<char>)
    requires
        is_channel_token(t),
    ensures
        words(t) == seq![t],
{
    assert forall|i: int| 0 <= i < t.len() implies !is_white_space(#[trigger] t[i]) by {
        assert(48 <= t[i] as u32 <= 57);
    }
    lemma_scan_word(Seq::empty(), t);
    assert(Seq::<char>::empty() + t =~= t);
}

/// A number joined by a space to a line adds one word to the line's words.
proof fn lemma_words_append(line: Seq<char>, t: Seq<char>)
    requires
        is_channel_token(t),
    ensures
        words(append_token(line, t)) == (if line.len() == 0 {
            seq![t]
        } else {
            words(line).push(t)
        }),
{
    assert forall|i: int| 0 <= i < t.len() implies !is_white_space(#[trigger] t[i]) by {
        assert(48 <= t[i] as u32 <= 57);
    }
    if line.len() == 0 {
        lemma_words_single(t);
    } else {
        let spaced = line.push(' ');
        assert(spaced.drop_last() =~= line);
        assert(scan_words(spaced) == (words(line), Seq::<char>::empty()));
        lemma_scan_word(spaced, t);
        assert(Seq::<char>::empty() + t =~= t);
    }
}

/// Reading the words of every line back, in order, gives the numbers that
/// were wrapped.
proof fn lemma_wrap_words(tokens: Seq<Seq<char>>)
    requires
        forall|i: int| 0 <= i < tokens.len() ==> is_channel_token(#[trigger] tokens[i]),
    ensures
        wrap(tokens).len() >= 1,
        wrap(tokens).map_values(|l: Seq<char>| words(l)).flatten() == tokens,
    decreases tokens.len(),
{
    let f = |l: Seq<char>| words(l);
    if tokens.len() == 0 {
        let w = wrap(tokens);
        assert(w == seq![Seq::<char>::empty()]);
        assert(scan_words(Seq::<char>::empty()) == (
            Seq::<Seq<char>>::empty(),
            Seq::<char>::empty(),
        ));
        assert(w.map_values(f) =~= seq![Seq::<Seq<char>>::empty()]);
        seq![Seq::<Seq<char>>::empty()].lemma_flatten_singleton();
        assert(tokens =~= Seq::<Seq<char>>::empty());
    } else {
        let prev = tokens.drop_last();
        let t = tokens.last();
        lemma_wrap_words(prev);
        let lines = wrap(prev);
        let last = lines.last();
        let rest = lines.drop_last();
        assert(rest.push(last) =~= lines);
        rest.map_values(f).lemma_flatten_push(f(last));
        assert(lines.map_values(f) =~= rest.map_values(f).push(f(last)));
        assert(rest.map_values(f).flatten() + words(last) == prev);
        if pending_width(last) + t.len() >= MAX_LINE_LENGTH {
            lemma_words_single(t);
            assert(wrap(tokens) == lines.push(t));
            assert(lines.push(t).map_values(f) =~= lines.map_values(f).push(f(t)));
            lines.map_values(f).lemma_flatten_push(f(t));
            assert(prev.push(t) =~= tokens);
        } else {
            lemma_words_append(last, t);
            let next = append_token(last, t);
            assert(wrap(tokens) == lines.update(lines.len() - 1, next));
            assert(lines.update(lines.len() - 1, next).map_values(f) =~= rest.map_values(f).push(
                f(next),
            ));
            rest.map_values(f).lemma_flatten_push(f(next));
            if last.len() == 0 {
                assert(words(last) == scan_words(last).0);
                assert(scan_words(last).0 =~= Seq::<Seq<char>>::empty()) by {
                    assert(last =~= Seq::<char>::empty());
                }
                assert(rest.map_values(f).flatten() + seq![t] =~= prev.push(t));
            } else {
                assert(rest.map_values(f).flatten() + words(last).push(t) =~= prev.push(t));
            }
            assert(prev.push(t) =~= tokens);
        }
    }
}

/// Every line that wrapping makes fits.
proof fn lemma_wrap_fits(tokens: Seq<Seq<char>>)
    requires
        forall|i: int| 0 <= i < tokens.len() ==> is_channel_token(#[trigger] tokens[i]),
    ensures
        wrap(tokens).len() >= 1,
        forall|k: int| 0 <= k < wrap(tokens).len() ==> fits_line(#[trigger] wrap(tokens)[k]),
    decreases tokens.len(),
{
    if tokens.len() > 0 {
        let prev = tokens.drop_last();
        let t = tokens.last();
        lemma_wrap_fits(prev);
        let lines = wrap(prev);
        let last = lines.last();
        assert(fits_line(last));
        assert(forall|i: int| 0 <= i < t.len() ==> 48 <= (#[trigger] t[i]) as u32 <= 57);
        if pending_width(last) + t.len() < MAX_LINE_LENGTH {
            let next = append_token(last, t);
            assert(fits_line(next)) by {
                if last.len() > 0 {
                    assert forall|i: int| 0 <= i < next.len() implies next[i] != '\r' by {
                        if i < last.len() {
                            assert(next[i] == last[i]);
                        } else if i > last.len() {
                            assert(next[i] == t[i - last.len() - 1]);
                        }
                    }
                }
            }
            assert forall|k: int| 0 <= k < wrap(tokens).len() implies fits_line(
                #[trigger] wrap(tokens)[k],
            ) by {
                if k < lines.len() - 1 {
                    assert(wrap(tokens)[k] == lines[k]);
                }
            }
        }
    }
}

/// The channel tokens of any pixels are channel tokens.
proof fn lemma_channel_tokens_valid(pixels: Seq<Rgb8>)
    ensures
        forall|i: int|
            0 <= i < channel_tokens(pixels).len() ==> is_channel_token(
                #[trigger] channel_tokens(pixels)[i],
            ),
{
    assert forall|i: int| 0 <= i < channel_tokens(pixels).len() implies is_channel_token(
        #[trigger] channel_tokens(pixels)[i],
    ) by {
        lemma_channel_token(channel_values(pixels)[i]);
    }
}

/// Every element of a flattened sequence satisfies what every element of
/// every part satisfies.
proof fn lemma_flatten_all(parts: Seq<Seq<Seq<char>>>)
    requires
        forall|i: int, j: int|
            0 <= i < parts.len() && 0 <= j < parts[i].len() ==> fits_line(#[trigger] parts[i][j]),
    ensures
        forall|k: int| 0 <= k < parts.flatten().len() ==> fits_line(#[trigger] parts.flatten()[k]),
    decreases parts.len(),
{
    if parts.len() > 0 {
        lemma_flatten_all(parts.drop_first());
        assert forall|k: int| 0 <= k < parts.flatten().len() implies fits_line(
            #[trigger] parts.flatten()[k],
        ) by {
            let first = parts.first();
            if k < first.len() {
                assert(parts.flatten()[k] == parts[0][k]);
            } else {
                assert(parts.flatten()[k] == parts.drop_first().flatten()[k - first.len()]);
            }
        }
    }
}

/// Every line of a serialised image, header included, is shorter than
/// `MAX_LINE_LENGTH` and holds no carriage return, so the lines that the
/// text's carriage returns end are exactly these.
pub proof fn lemma_ppm_lines_fit(width: usize, height: usize, pixels: Seq<Rgb8>)
    requires
        pixels.len() == width * height,
    ensures
        ppm_text(width as nat, height as nat, pixels) == terminated(
            ppm_lines(width as nat, height as nat, pixels),
        ),
        forall|k: int|
            0 <= k < ppm_lines(width as nat, height as nat, pixels).len() ==> fits_line(
                #[trigger] ppm_lines(width as nat, height as nat, pixels)[k],
            ),
{
    let header = header_lines(width as nat, height as nat);
    let rows = Seq::new(height as nat, |y: int| row_lines(pixels, width as nat, y as nat));
    assert forall|i: int, j: int| 0 <= i < rows.len() && 0 <= j < rows[i].len() implies fits_line(
        #[trigger] rows[i][j],
    ) by {
        let row = image_row(pixels, width as nat, i as nat);
        lemma_channel_tokens_valid(row);
        lemma_wrap_fits(channel_tokens(row));
    }
    lemma_flatten_all(rows);
    reveal_with_fuel(pow10, 21);
    lemma_decimal(width as nat);
    lemma_decimal(height as nat);
    lemma_decimal(MAX_CHANNEL_VALUE as nat);
    lemma_decimal_len(width as nat, 20);
    lemma_decimal_len(height as nat, 20);
    lemma_decimal_len(MAX_CHANNEL_VALUE as nat, 20);
    assert forall|k: int| 0 <= k < 3 implies fits_line(#[trigger] header[k]) by {
        if k == 1 {
            let l = header[1];
            assert forall|i: int| 0 <= i < l.len() implies l[i] != '\r' by {
                if i < decimal(width as nat).len() {
                    assert(l[i] == decimal(width as nat)[i]);
                } else if i > decimal(width as nat).len() {
                    assert(l[i] == decimal(height as nat)[i - decimal(width as nat).len() - 1]);
                }
            }
        }
    }
    assert forall|k: int|
        0 <= k < ppm_lines(width as nat, height as nat, pixels).len() implies fits_line(
        #[trigger] ppm_lines(width as nat, height as nat, pixels)[k],
    ) by {
        if k >= 3 {
            assert(ppm_lines(width as nat, height as nat, pixels)[k] == rows.flatten()[k - 3]);
        }
    }
}

/// Reading a row's lines back — splitting them at white space and each word
/// as a decimal number — gives the row's channel values, in order.
pub proof fn lemma_row_round_trip(width: usize, height: usize, pixels: Seq<Rgb8>, y: usize)
    requires
        pixels.len() == width * height,
        y < height,
    ensures
        row_lines(pixels, width as nat, y as nat).map_values(|l: Seq<char>| words(l)).flatten().map_values(
            |t: Seq<char>| decimal_value(t),
        ) == channel_values(image_row(pixels, width as nat, y as nat)).map_values(|c: u8| c as nat),
{
    let row = image_row(pixels, width as nat, y as nat);
    lemma_channel_tokens_valid(row);
    lemma_wrap_words(channel_tokens(row));
    assert forall|i: int| 0 <= i < channel_values(row).len() implies decimal_value(
        #[trigger] channel_tokens(row)[i],
    ) == channel_values(row)[i] as nat by {
        lemma_decimal(channel_values(row)[i] as nat);
    }
    assert(channel_tokens(row).map_values(|t: Seq<char>| decimal_value(t)) =~= channel_values(
        row,
    ).map_values(|c: u8| c as nat));
}

} // verus!
