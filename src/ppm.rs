//! The plain-text PPM image format: header, decimal channel levels, and
//! rows wrapped to seventy columns.

use vstd::prelude::*;

verus! {

/// ASCII line feed.
pub const NEWLINE: u8 = 10;

/// ASCII space.
pub const SPACE: u8 = 32;

/// ASCII `0`.
pub const DIGIT_ZERO: u8 = 48;

/// The widest line of pixel data, in columns.
pub const MAX_LINE_LENGTH: usize = 70;

/// The decimal digits of `n` in ASCII, most significant first.
pub open spec fn digits(n: nat) -> Seq<u8>
    decreases n,
{
    if n < 10 {
        seq![(DIGIT_ZERO + n) as u8]
    } else {
        digits(n / 10).push((DIGIT_ZERO + n % 10) as u8)
    }
}

/// The channel levels of a row, each written as a decimal word.
pub open spec fn words_of(levels: Seq<u8>) -> Seq<Seq<u8>> {
    levels.map_values(|l: u8| digits(l as nat))
}

/// The first `k` words separated by single spaces.
pub open spec fn joined(words: Seq<Seq<u8>>, k: nat) -> Seq<u8>
    decreases k,
{
    if k == 0 {
        Seq::empty()
    } else if k == 1 {
        words[0]
    } else {
        joined(words, (k - 1) as nat) + seq![SPACE] + words[k - 1]
    }
}

/// The first `k` words filled greedily into lines, together with the columns
/// the last line takes when each of its words is counted with a space after
/// it. A word after the first starts a new line when it would take that count
/// past the line width.
pub open spec fn filled(words: Seq<Seq<u8>>, k: nat) -> (Seq<u8>, nat)
    decreases k,
{
    if k == 0 {
        (Seq::empty(), 0)
    } else if k == 1 {
        (words[0], words[0].len() + 1)
    } else {
        let (text, used) = filled(words, (k - 1) as nat);
        let w = words[k - 1];
        if used + w.len() + 1 > MAX_LINE_LENGTH {
            (text + seq![NEWLINE] + w, w.len() + 1)
        } else {
            (text + seq![SPACE] + w, used + w.len() + 1)
        }
    }
}

/// The text of one row of pixel data (without its line feed): the words on
/// one line when that fits in the line width, else filled greedily.
pub open spec fn row_text(levels: Seq<u8>) -> Seq<u8> {
    let words = words_of(levels);
    if joined(words, levels.len()).len() <= MAX_LINE_LENGTH {
        joined(words, levels.len())
    } else {
        filled(words, levels.len()).0
    }
}

/// The pixel data of the first `k` rows, each row followed by a line feed.
pub open spec fn rows_text(rows: Seq<Seq<u8>>, k: nat) -> Seq<u8>
    decreases k,
{
    if k == 0 {
        Seq::empty()
    } else {
        rows_text(rows, (k - 1) as nat) + row_text(rows[k - 1]) + seq![NEWLINE]
    }
}

/// The plain PPM header: the magic number of the plain format, the size,
/// and the largest channel level.
pub open spec fn header(width: nat, height: nat) -> Seq<u8> {
    seq![80u8, 51u8, NEWLINE] + digits(width) + seq![SPACE] + digits(height) + seq![NEWLINE]
        + digits(255) + seq![NEWLINE]
}

/// A whole plain PPM file: header, rows, and a closing line feed.
pub open spec fn ppm(width: nat, height: nat, rows: Seq<Seq<u8>>) -> Seq<u8> {
    header(width, height) + rows_text(rows, rows.len()) + seq![NEWLINE]
}

/// How many bytes before position `j` of `text` follow the last line feed
/// (or the start): the column that position `j` is at.
pub open spec fn column_at(text: Seq<u8>, j: int) -> nat
    decreases j,
{
    if j <= 0 {
        0
    } else if text[j - 1] == NEWLINE {
        0
    } else {
        column_at(text, j - 1) + 1
    }
}

/// No line of `text` is wider than `width` columns.
pub open spec fn lines_fit(text: Seq<u8>, width: nat) -> bool {
    forall|j: int| 0 <= j <= text.len() ==> #[trigger] column_at(text, j) <= width
}

proof fn lemma_column_at_most(text: Seq<u8>, j: int)
    requires
        0 <= j,
    ensures
        column_at(text, j) <= j,
    decreases j,
{
    if j > 0 {
        lemma_column_at_most(text, j - 1);
    }
}

proof fn lemma_column_prefix(a: Seq<u8>, b: Seq<u8>, j: int)
    requires
        0 <= j <= a.len(),
    ensures
        column_at(a + b, j) == column_at(a, j),
    decreases j,
{
    if j > 0 {
        lemma_column_prefix(a, b, j - 1);
    }
}

proof fn lemma_column_run(t: Seq<u8>, p: int, m: int)
    requires
        0 <= p,
        0 <= m,
        p + m <= t.len(),
        forall|q: int| p <= q < p + m ==> t[q] != NEWLINE,
    ensures
        column_at(t, p + m) == column_at(t, p) + m,
    decreases m,
{
    if m > 0 {
        lemma_column_run(t, p, m - 1);
    }
}

proof fn lemma_digits_are_digits(n: nat)
    ensures
        forall|i: int| 0 <= i < digits(n).len() ==> #[trigger] digits(n)[i] >= DIGIT_ZERO,
    decreases n,
{
    if n >= 10 {
        lemma_digits_are_digits(n / 10);
        let d = digits(n / 10);
        assert(digits(n) == d.push((DIGIT_ZERO + n % 10) as u8));
        assert(((DIGIT_ZERO + n % 10) as u8) >= DIGIT_ZERO);
        assert forall|i: int| 0 <= i < digits(n).len() implies #[trigger] digits(n)[i] >= DIGIT_ZERO by {
            if i < d.len() {
                assert(digits(n)[i] == d[i]);
            }
        }
    } else {
        assert(((DIGIT_ZERO + n) as u8) >= DIGIT_ZERO);
    }
}

/// The text of a row of pixel data never runs past the line width.
pub proof fn lemma_row_lines_fit(levels: Seq<u8>)
    ensures
        lines_fit(row_text(levels), MAX_LINE_LENGTH as nat),
{
    let words = words_of(levels);
    let n = levels.len();
    if joined(words, n).len() <= MAX_LINE_LENGTH {
        assert forall|j: int| 0 <= j <= joined(words, n).len() implies #[trigger] column_at(
            joined(words, n),
            j,
        ) <= MAX_LINE_LENGTH by {
            lemma_column_at_most(joined(words, n), j);
        }
    } else {
        lemma_filled_fit(words, n, levels);
    }
}

proof fn lemma_filled_fit(words: Seq<Seq<u8>>, k: nat, levels: Seq<u8>)
    requires
        words == words_of(levels),
        k <= levels.len(),
    ensures
        lines_fit(filled(words, k).0, (MAX_LINE_LENGTH - 1) as nat),
        k >= 1 ==> column_at(filled(words, k).0, filled(words, k).0.len() as int) + 1 == filled(words, k).1,
        filled(words, k).1 <= MAX_LINE_LENGTH,
    decreases k,
{
    if k == 0 {
        assert forall|j: int| 0 <= j <= filled(words, k).0.len() implies #[trigger] column_at(
            filled(words, k).0,
            j,
        ) <= MAX_LINE_LENGTH - 1 by {}
    } else {
        let w = words[k - 1];
        assert(w == digits(levels[k - 1] as nat));
        lemma_digits_short(levels[k - 1] as nat);
        lemma_digits_are_digits(levels[k - 1] as nat);
        if k == 1 {
            let t = filled(words, k).0;
            assert(t == w);
            assert forall|j: int| 0 <= j <= t.len() implies #[trigger] column_at(t, j) <= MAX_LINE_LENGTH
                - 1 by {
                lemma_column_at_most(t, j);
            }
            lemma_column_run(t, 0, t.len() as int);
        } else {
            lemma_filled_fit(words, (k - 1) as nat, levels);
            let (text, used) = filled(words, (k - 1) as nat);
            let len = text.len() as int;
            if used + w.len() + 1 > MAX_LINE_LENGTH {
                let t = text + seq![NEWLINE] + w;
                assert(filled(words, k).0 == t);
                assert(t == text + (seq![NEWLINE] + w));
                assert forall|j: int| 0 <= j <= t.len() implies #[trigger] column_at(t, j) <= MAX_LINE_LENGTH
                    - 1 by {
                    if j <= len {
                        lemma_column_prefix(text, seq![NEWLINE] + w, j);
                    } else {
                        assert(column_at(t, len + 1) == 0);
                        lemma_column_run(t, len + 1, j - len - 1);
                    }
                }
                assert(column_at(t, len + 1) == 0);
                lemma_column_run(t, len + 1, w.len() as int);
            } else {
                let t = text + seq![SPACE] + w;
                assert(filled(words, k).0 == t);
                assert(t == text + (seq![SPACE] + w));
                lemma_column_prefix(text, seq![SPACE] + w, len);
                assert forall|j: int| 0 <= j <= t.len() implies #[trigger] column_at(t, j) <= MAX_LINE_LENGTH
                    - 1 by {
                    if j <= len {
                        lemma_column_prefix(text, seq![SPACE] + w, j);
                    } else {
                        lemma_column_run(t, len, j - len);
                    }
                }
                lemma_column_run(t, len, w.len() as int + 1);
            }
        }
    }
}

proof fn lemma_digits_short(n: nat)
    requires
        n < 1000,
    ensures
        1 <= digits(n).len() <= 3,
{
    reveal_with_fuel(digits, 3);
}

/// Appends the decimal digits of `n`.
fn push_decimal(out: &mut Vec<u8>, n: u32)
    ensures
        final(out)@ == old(out)@ + digits(n as nat),
    decreases n,
{
    if n >= 10 {
        push_decimal(out, n / 10);
    }
    out.push(DIGIT_ZERO + (n % 10) as u8);
    proof {
        if n >= 10 {
            assert(old(out)@ + digits(n as nat) == old(out)@ + digits((n / 10) as nat) + seq![(DIGIT_ZERO + n % 10) as u8]);
        }
    }
}

fn push_all(out: &mut Vec<u8>, more: &Vec<u8>)
    ensures
        final(out)@ == old(out)@ + more@,
{
    let mut i: usize = 0;
    while i < more.len()
        invariant
            i <= more.len(),
            out@ == old(out)@ + more@.subrange(0, i as int),
        decreases more.len() - i,
    {
        out.push(more[i]);
        i = i + 1;
        assert(out@ =~= old(out)@ + more@.subrange(0, i as int));
    }
    assert(more@.subrange(0, more.len() as int) == more@);
}

/// The decimal digits of a channel level.
fn word(level: u8) -> (r: Vec<u8>)
    ensures
        r@ == digits(level as nat),
        1 <= r@.len() <= 3,
{
    let mut r: Vec<u8> = Vec::new();
    push_decimal(&mut r, level as u32);
    proof {
        assert(r@ =~= digits(level as nat));
        lemma_digits_short(level as nat);
    }
    r
}

/// Appends the text of one row of channel levels.
fn push_row(out: &mut Vec<u8>, levels: &Vec<u8>)
    ensures
        final(out)@ == old(out)@ + row_text(levels@),
{
    let ghost words = words_of(levels@);
    let mut line: Vec<u8> = Vec::new();
    let mut i: usize = 0;
    while i < levels.len()
        invariant
            i <= levels.len(),
            words == words_of(levels@),
            line@ == joined(words, i as nat),
        decreases levels.len() - i,
    {
        if i > 0 {
            line.push(SPACE);
        }
        let w = word(levels[i]);
        push_all(&mut line, &w);
        i = i + 1;
        proof {
            assert(words[i - 1] == w@);
            if i > 1 {
                assert(line@ =~= joined(words, (i - 1) as nat) + seq![SPACE] + words[i - 1]);
            } else {
                assert(line@ =~= words[0]);
            }
        }
    }
    if line.len() <= MAX_LINE_LENGTH {
        push_all(out, &line);
        return;
    }
    let mut text: Vec<u8> = Vec::new();
    let mut used: usize = 0;
    let mut j: usize = 0;
    while j < levels.len()
        invariant
            j <= levels.len(),
            words == words_of(levels@),
            text@ == filled(words, j as nat).0,
            used == filled(words, j as nat).1,
            used <= MAX_LINE_LENGTH,
        decreases levels.len() - j,
    {
        let w = word(levels[j]);
        if j == 0 {
            push_all(&mut text, &w);
            used = w.len() + 1;
        } else if used + w.len() + 1 > MAX_LINE_LENGTH {
            text.push(NEWLINE);
            push_all(&mut text, &w);
            used = w.len() + 1;
        } else {
            text.push(SPACE);
            push_all(&mut text, &w);
            used = used + w.len() + 1;
        }
        j = j + 1;
        proof {
            assert(words[j - 1] == w@);
            if j > 1 {
                let prev = filled(words, (j - 1) as nat);
                if prev.1 + w@.len() + 1 > MAX_LINE_LENGTH {
                    assert(text@ =~= prev.0 + seq![NEWLINE] + w@);
                } else {
                    assert(text@ =~= prev.0 + seq![SPACE] + w@);
                }
            } else {
                assert(text@ =~= w@);
            }
        }
    }
    push_all(out, &text);
}

/// The plain PPM text (as ASCII bytes) of an image `width` pixels wide and
/// `height` high, given its rows of channel levels (red, green and blue of
/// each pixel in turn). Each row's levels are written on one line when they
/// fit in seventy columns, else wrapped so that no line passes that width
/// (see `lemma_row_lines_fit`).
pub fn ppm_bytes(width: u32, height: u32, rows: &Vec<Vec<u8>>) -> (r: Vec<u8>)
    ensures
        r@ == ppm(width as nat, height as nat, rows@.map_values(|row: Vec<u8>| row@)),
{
    let ghost rs = rows@.map_values(|row: Vec<u8>| row@);
    let mut out: Vec<u8> = Vec::new();
    out.push(80);
    out.push(51);
    out.push(NEWLINE);
    push_decimal(&mut out, width);
    out.push(SPACE);
    push_decimal(&mut out, height);
    out.push(NEWLINE);
    push_decimal(&mut out, 255);
    out.push(NEWLINE);
    assert(out@ =~= header(width as nat, height as nat));
    let mut i: usize = 0;
    while i < rows.len()
        invariant
            i <= rows.len(),
            rs == rows@.map_values(|row: Vec<u8>| row@),
            out@ == header(width as nat, height as nat) + rows_text(rs, i as nat),
        decreases rows.len() - i,
    {
        push_row(&mut out, &rows[i]);
        out.push(NEWLINE);
        i = i + 1;
        assert(out@ =~= header(width as nat, height as nat) + rows_text(rs, i as nat));
    }
    out.push(NEWLINE);
    out
}

} // verus!
