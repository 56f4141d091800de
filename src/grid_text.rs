//! The textual form of a matrix: one row per line, the values of a row
//! separated by white space.
use vstd::prelude::*;

verus! {

/// White space as Unicode's `White_Space` property lists it; it separates
/// the values of a row.
pub open spec fn is_white_space(c: char) -> bool {
    let u = c as u32;
    ||| 0x09 <= u <= 0x0D
    ||| u == 0x20
    ||| u == 0x85
    ||| u == 0xA0
    ||| u == 0x1680
    ||| 0x2000 <= u <= 0x200A
    ||| u == 0x2028
    ||| u == 0x2029
    ||| u == 0x202F
    ||| u == 0x205F
    ||| u == 0x3000
}

/// Reads `s` left to right: the words that are complete, and the word that
/// is still being read (empty after white space).
pub open spec fn scan_words(s: Seq<char>) -> (Seq<Seq<char>>, Seq<char>)
    decreases s.len(),
{
    if s.len() == 0 {
        (Seq::empty(), Seq::empty())
    } else {
        let (done, word) = scan_words(s.drop_last());
        if is_white_space(s.last()) {
            if word.len() > 0 {
                (done.push(word), Seq::empty())
            } else {
                (done, Seq::empty())
            }
        } else {
            (done, word.push(s.last()))
        }
    }
}

/// The maximal runs of characters of `line` that are not white space.
pub open spec fn words(line: Seq<char>) -> Seq<Seq<char>> {
    let (done, word) = scan_words(line);
    if word.len() > 0 {
        done.push(word)
    } else {
        done
    }
}

/// `s` cut at each line feed; the line feeds themselves are dropped.
pub open spec fn line_pieces(s: Seq<char>) -> Seq<Seq<char>>
    decreases s.len(),
{
    if s.len() == 0 {
        seq![Seq::<char>::empty()]
    } else {
        let p = line_pieces(s.drop_last());
        if s.last() == '\n' {
            p.push(Seq::empty())
        } else {
            p.update(p.len() - 1, p.last().push(s.last()))
        }
    }
}

/// The lines of `s`: a line feed ends a line, and a last line without one
/// counts only when it is not empty.
pub open spec fn text_lines(s: Seq<char>) -> Seq<Seq<char>> {
    let p = line_pieces(s);
    if p.last().len() == 0 {
        p.drop_last()
    } else {
        p
    }
}

/// The words of each line of `s`.
pub open spec fn text_grid(s: Seq<char>) -> Seq<Seq<Seq<char>>> {
    text_lines(s).map_values(|l: Seq<char>| words(l))
}

/// No line holds a word.
pub open spec fn holds_no_value(grid: Seq<Seq<Seq<char>>>) -> bool {
    forall|i: int| 0 <= i < grid.len() ==> (#[trigger] grid[i]).len() == 0
}

/// Every line holds as many words as the first.
pub open spec fn is_rectangular<A>(grid: Seq<Seq<A>>) -> bool {
    forall|i: int| 0 <= i < grid.len() ==> (#[trigger] grid[i]).len() == grid[0].len()
}

/// The parts of `s` that the index ranges `spans` mark.
pub open spec fn span_texts(s: Seq<char>, spans: Seq<(usize, usize)>) -> Seq<Seq<char>> {
    spans.map_values(|sp: (usize, usize)| s.subrange(sp.0 as int, sp.1 as int))
}

/// Every range of `spans` is non-empty and lies within the first `n` characters.
pub open spec fn spans_within(spans: Seq<(usize, usize)>, n: nat) -> bool {
    forall|k: int| 0 <= k < spans.len() ==> {
        let sp = #[trigger] spans[k];
        sp.0 < sp.1 <= n
    }
}

/// There is always at least one piece.
proof fn lemma_line_pieces_len(s: Seq<char>)
    ensures
        line_pieces(s).len() >= 1,
    decreases s.len(),
{
    if s.len() > 0 {
        lemma_line_pieces_len(s.drop_last());
    }
}

/// Whether `c` is white space.
pub fn is_white_space_char(c: char) -> (r: bool)
    ensures
        r == is_white_space(c),
{
    let u = c as u32;
    (0x09 <= u && u <= 0x0D) || u == 0x20 || u == 0x85 || u == 0xA0 || u == 0x1680 || (0x2000
        <= u && u <= 0x200A) || u == 0x2028 || u == 0x2029 || u == 0x202F || u == 0x205F || u
        == 0x3000
}

/// The characters of `s`.
pub(crate) fn chars_of(s: &str) -> (r: Vec<char>)
    ensures
        r@ == s@,
{
    let mut r: Vec<char> = Vec::new();
    for c in it: s.chars()
        invariant
            r@ == it.seq().take(it.index() as int),
            it.seq() == s@,
    {
        r.push(c);
    }
    r
}

/// Reading one more character of a line that is not a line feed.
proof fn lemma_pieces_push(s: Seq<char>, i: int)
    requires
        0 <= i < s.len(),
        s[i] != '\n',
    ensures
        line_pieces(s.take(i + 1)) == line_pieces(s.take(i)).update(
            line_pieces(s.take(i)).len() - 1,
            line_pieces(s.take(i)).last().push(s[i]),
        ),
{
    assert(s.take(i + 1).drop_last() =~= s.take(i));
}

/// The index ranges of the words of each line of `s`.
pub fn grid_spans(s: &Vec<char>) -> (r: Vec<Vec<(usize, usize)>>)
    ensures
        r@.len() == text_grid(s@).len(),
        forall|k: int|
            0 <= k < r@.len() ==> {
                &&& span_texts(s@, (#[trigger] r@[k])@) == text_grid(s@)[k]
                &&& spans_within(r@[k]@, s@.len())
            },
{
    let n = s.len();
    let mut rows: Vec<Vec<(usize, usize)>> = Vec::new();
    let mut row: Vec<(usize, usize)> = Vec::new();
    let mut line_start: usize = 0;
    let mut word_start: usize = 0;
    let mut in_word = false;
    proof {
        assert(s@.take(0) =~= Seq::<char>::empty());
        assert(s@.subrange(0, 0) =~= Seq::<char>::empty());
    }
    let mut i: usize = 0;
    while i < n
        invariant
            n == s@.len(),
            i <= n,
            line_start <= i,
            rows@.len() + 1 == line_pieces(s@.take(i as int)).len(),
            forall|k: int|
                0 <= k < rows@.len() ==> {
                    &&& span_texts(s@, (#[trigger] rows@[k])@) == words(
                        line_pieces(s@.take(i as int))[k],
                    )
                    &&& spans_within(rows@[k]@, n as nat)
                },
            line_pieces(s@.take(i as int)).last() == s@.subrange(line_start as int, i as int),
            span_texts(s@, row@) == scan_words(s@.subrange(line_start as int, i as int)).0,
            spans_within(row@, n as nat),
            in_word ==> line_start <= word_start < i,
            in_word ==> scan_words(s@.subrange(line_start as int, i as int)).1 == s@.subrange(
                word_start as int,
                i as int,
            ),
            !in_word ==> scan_words(s@.subrange(line_start as int, i as int)).1.len() == 0,
        decreases n - i,
    {
        let c = s[i];
        let ghost line = s@.subrange(line_start as int, i as int);
        let ghost pieces = line_pieces(s@.take(i as int));
        proof {
            lemma_line_pieces_len(s@.take(i as int));
            assert(s@.take(i + 1).drop_last() =~= s@.take(i as int));
            assert(s@.subrange(line_start as int, i + 1).drop_last() =~= line);
        }
        if in_word && is_white_space_char(c) {
            row.push((word_start, i));
            in_word = false;
            proof {
                assert(span_texts(s@, row@) =~= scan_words(line).0.push(scan_words(line).1));
            }
        }
        if c == '\n' {
            let done = row;
            rows.push(done);
            row = Vec::new();
            line_start = i + 1;
            proof {
                assert(line_pieces(s@.take(i + 1)) == pieces.push(Seq::empty()));
                assert(span_texts(s@, done@) == words(line));
                assert(s@.subrange(i + 1, i + 1) =~= Seq::<char>::empty());
                assert(span_texts(s@, row@) =~= Seq::<Seq<char>>::empty());
                assert forall|k: int| 0 <= k < rows@.len() implies {
                    &&& span_texts(s@, (#[trigger] rows@[k])@) == words(
                        line_pieces(s@.take(i + 1))[k],
                    )
                    &&& spans_within(rows@[k]@, n as nat)
                } by {
                    if k == rows@.len() - 1 {
                        assert(pieces[k] == line);
                    }
                }
            }
        } else {
            if !in_word && !is_white_space_char(c) {
                word_start = i;
                in_word = true;
            }
            proof {
                lemma_pieces_push(s@, i as int);
                assert(s@.subrange(line_start as int, i + 1) =~= line.push(c));
                assert(line_pieces(s@.take(i + 1)).last() == line.push(c));
                if in_word {
                    assert(s@.subrange(word_start as int, i + 1) =~= scan_words(line).1.push(c));
                }
                assert forall|k: int| 0 <= k < rows@.len() implies span_texts(
                    s@,
                    (#[trigger] rows@[k])@,
                ) == words(line_pieces(s@.take(i + 1))[k]) by {
                    assert(line_pieces(s@.take(i + 1))[k] == pieces[k]);
                }
            }
        }
        i = i + 1;
    }
    let ghost line = s@.subrange(line_start as int, n as int);
    proof {
        assert(s@.take(n as int) =~= s@);
        lemma_line_pieces_len(s@);
    }
    if in_word {
        row.push((word_start, n));
        proof {
            assert(span_texts(s@, row@) =~= scan_words(line).0.push(scan_words(line).1));
        }
    }
    if line_start < n {
        rows.push(row);
        proof {
            assert(text_lines(s@) == line_pieces(s@));
            assert forall|k: int| 0 <= k < rows@.len() implies span_texts(
                s@,
                (#[trigger] rows@[k])@,
            ) == text_grid(s@)[k] by {
                if k == rows@.len() - 1 {
                    assert(line_pieces(s@)[k] == line);
                }
            }
        }
    } else {
        proof {
            assert(line =~= Seq::<char>::empty());
            assert(text_lines(s@) == line_pieces(s@).drop_last());
            assert forall|k: int| 0 <= k < rows@.len() implies span_texts(
                s@,
                (#[trigger] rows@[k])@,
            ) == text_grid(s@)[k] by {
                assert(text_lines(s@)[k] == line_pieces(s@)[k]);
            }
        }
    }
    rows
}

} // verus!
