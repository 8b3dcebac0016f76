//! The record of earlier games: a text that holds the seconds each won game
//! took, one number on a line.

use vstd::prelude::*;
use vstd::slice::slice_subrange;

verus! {

/// The line feed, which ends a line.
pub const LINE_FEED: u8 = 10;

/// The plus sign.
pub const PLUS: u8 = 43;

/// The digit zero; the other digits follow it.
pub const ZERO: u8 = 48;

/// The byte is an ASCII decimal digit.
pub open spec fn is_digit(b: u8) -> bool {
    ZERO <= b <= ZERO + 9
}

/// The byte alone is a white space character: a blank, a tab, a line feed,
/// a vertical tab, a form feed or a carriage return.
pub open spec fn is_space(b: u8) -> bool {
    b == 32 || 9 <= b <= 13
}

/// The two bytes are the UTF-8 form of a white space character: the next
/// line U+0085 or the no-break space U+00A0.
pub open spec fn is_space_pair(a: u8, b: u8) -> bool {
    a == 0xC2 && (b == 0x85 || b == 0xA0)
}

/// The three bytes are the UTF-8 form of a white space character: U+1680,
/// U+2000 to U+200A, U+2028, U+2029, U+202F, U+205F or U+3000.
pub open spec fn is_space_triple(a: u8, b: u8, c: u8) -> bool {
    ||| a == 0xE1 && b == 0x9A && c == 0x80
    ||| a == 0xE2 && b == 0x80 && (0x80 <= c <= 0x8A || c == 0xA8 || c == 0xA9 || c == 0xAF)
    ||| a == 0xE2 && b == 0x81 && c == 0x9F
    ||| a == 0xE3 && b == 0x80 && c == 0x80
}

/// The number of bytes of the white space character that the text starts
/// with, and zero where it starts with none.
pub open spec fn leading_space(text: Seq<u8>) -> int {
    if text.len() >= 1 && is_space(text[0]) {
        1
    } else if text.len() >= 2 && is_space_pair(text[0], text[1]) {
        2
    } else if text.len() >= 3 && is_space_triple(text[0], text[1], text[2]) {
        3
    } else {
        0
    }
}

/// The number of bytes of the white space character that the text ends
/// with, and zero where it ends with none.
pub open spec fn trailing_space(text: Seq<u8>) -> int {
    let n = text.len() as int;
    if n >= 1 && is_space(text[n - 1]) {
        1
    } else if n >= 2 && is_space_pair(text[n - 2], text[n - 1]) {
        2
    } else if n >= 3 && is_space_triple(text[n - 3], text[n - 2], text[n - 1]) {
        3
    } else {
        0
    }
}

/// The number that a run of decimal digits stands for.
pub open spec fn decimal(digits: Seq<u8>) -> nat
    decreases digits.len(),
{
    if digits.len() == 0 {
        0
    } else {
        decimal(digits.drop_last()) * 10 + (digits.last() - ZERO) as nat
    }
}

/// The decimal digits of a number, without leading zeros.
pub open spec fn digits(n: nat) -> Seq<u8>
    decreases n,
{
    if n < 10 {
        seq![(ZERO + n) as u8]
    } else {
        digits(n / 10).push((ZERO + n % 10) as u8)
    }
}

/// The digits of a line: the line itself, without the plus sign that may
/// stand in front.
pub open spec fn unsigned(line: Seq<u8>) -> Seq<u8> {
    if line.len() > 0 && line[0] == PLUS {
        line.skip(1)
    } else {
        line
    }
}

/// The line holds nothing but decimal digits, and at least one.
pub open spec fn all_digits(line: Seq<u8>) -> bool {
    line.len() > 0 && forall|i: int| 0 <= i < line.len() ==> is_digit(#[trigger] line[i])
}

/// The line holds a score: decimal digits, with or without a plus sign in
/// front, that stand for a number of at most `u64::MAX`.
pub open spec fn is_score(line: Seq<u8>) -> bool {
    all_digits(unsigned(line)) && decimal(unsigned(line)) <= u64::MAX
}

/// The score that a line holds.
pub open spec fn score_of(line: Seq<u8>) -> nat {
    decimal(unsigned(line))
}

/// The lines of a text: what stands between its line feeds. A text without a
/// line feed is one line; the empty text is one empty line.
pub open spec fn lines(text: Seq<u8>) -> Seq<Seq<u8>>
    decreases text.len(),
{
    if text.len() == 0 {
        seq![Seq::empty()]
    } else {
        let before = lines(text.drop_last());
        if text.last() == LINE_FEED {
            before.push(Seq::empty())
        } else {
            before.drop_last().push(before.last().push(text.last()))
        }
    }
}

/// Every line holds a score.
pub open spec fn all_scores(lines: Seq<Seq<u8>>) -> bool {
    forall|i: int| 0 <= i < lines.len() ==> is_score(#[trigger] lines[i])
}

/// The least of the scores on the lines, and `u64::MAX` where there is no
/// line.
pub open spec fn least(lines: Seq<Seq<u8>>) -> nat
    decreases lines.len(),
{
    if lines.len() == 0 {
        u64::MAX as nat
    } else {
        let before = least(lines.drop_last());
        let last = score_of(lines.last());
        if last < before {
            last
        } else {
            before
        }
    }
}

/// The text without the white space characters at its start.
pub open spec fn trim_start(text: Seq<u8>) -> Seq<u8>
    decreases text.len(),
{
    if leading_space(text) > 0 {
        trim_start(text.skip(leading_space(text)))
    } else {
        text
    }
}

/// The text without the white space characters at its end.
pub open spec fn trim_end(text: Seq<u8>) -> Seq<u8>
    decreases text.len(),
{
    if trailing_space(text) > 0 {
        trim_end(text.take(text.len() - trailing_space(text)))
    } else {
        text
    }
}

/// The text without the white space characters at its start and at its end.
///
/// White space is every character that Unicode gives the property
/// White_Space, in its UTF-8 form. In a text that is UTF-8 these are the
/// characters themselves; in any other text they are these runs of bytes.
pub open spec fn trimmed(text: Seq<u8>) -> Seq<u8> {
    trim_end(trim_start(text))
}

/// The record with one more score: the trimmed text, a line feed and the
/// score's digits, trimmed as a whole.
pub open spec fn with_score(text: Seq<u8>, score: nat) -> Seq<u8> {
    trimmed(trimmed(text).push(LINE_FEED) + digits(score))
}

/// The best score of a record, or nothing where a line of it holds no
/// score. The empty record has the best score `u64::MAX`: any game beats it.
pub open spec fn best(text: Seq<u8>) -> Option<nat> {
    if text.len() == 0 {
        Some(u64::MAX as nat)
    } else if all_scores(lines(text)) {
        Some(least(lines(text)))
    } else {
        None
    }
}

/// A text trimmed at its start starts with no white space.
pub proof fn lemma_trim_start_clean(text: Seq<u8>)
    ensures
        leading_space(trim_start(text)) == 0,
    decreases text.len(),
{
    if leading_space(text) > 0 {
        lemma_trim_start_clean(text.skip(leading_space(text)));
    }
}

/// A text trimmed at its end ends with no white space, and starts with none
/// if it started with none before.
pub proof fn lemma_trim_end_clean(text: Seq<u8>)
    ensures
        trailing_space(trim_end(text)) == 0,
        leading_space(text) == 0 ==> leading_space(trim_end(text)) == 0,
    decreases text.len(),
{
    let n = trailing_space(text);
    if n > 0 {
        let front = text.take(text.len() - n);
        lemma_trim_end_clean(front);
        if leading_space(text) == 0 {
            if front.len() >= 1 {
                assert(front[0] == text[0]);
            }
            if front.len() >= 2 {
                assert(front[1] == text[1]);
            }
            if front.len() >= 3 {
                assert(front[2] == text[2]);
            }
            assert(leading_space(front) == 0);
        }
    }
}

/// A trimmed text neither starts nor ends with white space, and trimming it
/// again changes nothing.
pub proof fn lemma_trimmed_clean(text: Seq<u8>)
    ensures
        leading_space(trimmed(text)) == 0,
        trailing_space(trimmed(text)) == 0,
        trimmed(trimmed(text)) == trimmed(text),
{
    lemma_trim_start_clean(text);
    lemma_trim_end_clean(trim_start(text));
}

/// A record with one more score is the trimmed text, a line feed and the
/// score's digits, or the digits alone where the text holds nothing but
/// white space.
pub proof fn lemma_with_score_form(text: Seq<u8>, score: nat)
    ensures
        with_score(text, score) == (if trimmed(text).len() == 0 {
            digits(score)
        } else {
            trimmed(text).push(LINE_FEED) + digits(score)
        }),
{
    let kept = trimmed(text);
    let tail = digits(score);
    let whole = kept.push(LINE_FEED) + tail;
    let n = kept.len() as int;
    lemma_trimmed_clean(text);
    lemma_digits_decimal(score);
    assert(is_digit(tail[0]));
    assert(is_digit(tail[tail.len() - 1]));
    assert(whole.len() == n + 1 + tail.len());
    assert(whole[n] == LINE_FEED);
    assert(whole[n + 1] == tail[0]);
    assert(whole[whole.len() - 1] == tail[tail.len() - 1]);
    assert(trailing_space(tail) == 0);
    assert(leading_space(tail) == 0);
    if n == 0 {
        assert(leading_space(whole) == 1);
        assert(whole.skip(1) =~= tail);
        assert(trim_start(whole) == trim_start(tail));
        assert(trim_start(tail) == tail);
        assert(trim_end(tail) == tail);
    } else {
        assert(whole[0] == kept[0]);
        if n >= 2 {
            assert(whole[1] == kept[1]);
        }
        if n >= 3 {
            assert(whole[2] == kept[2]);
        }
        assert(leading_space(whole) == 0);
        assert(trailing_space(whole) == 0);
        assert(trim_start(whole) == whole);
        assert(trim_end(whole) == whole);
    }
}

/// The digits of the front of a run stand for no more than the whole run.
pub proof fn lemma_decimal_grows(run: Seq<u8>, n: int)
    requires
        0 <= n <= run.len(),
        forall|i: int| 0 <= i < run.len() ==> is_digit(#[trigger] run[i]),
    ensures
        decimal(run.take(n)) <= decimal(run),
    decreases run.len() - n,
{
    if n == run.len() {
        assert(run.take(n) =~= run);
    } else {
        let front = run.drop_last();
        assert(is_digit(run[run.len() - 1]));
        lemma_decimal_grows(front, n);
        assert(front.take(n) =~= run.take(n));
    }
}

/// The digits of a number are decimal digits that stand for it.
pub proof fn lemma_digits_decimal(n: nat)
    ensures
        all_digits(digits(n)),
        decimal(digits(n)) == n,
        unsigned(digits(n)) == digits(n),
        forall|i: int| 0 <= i < digits(n).len() ==> !is_space(#[trigger] digits(n)[i]),
        forall|i: int| 0 <= i < digits(n).len() ==> digits(n)[i] != LINE_FEED,
    decreases n,
{
    if n < 10 {
        let d = digits(n);
        assert(d.drop_last() =~= Seq::<u8>::empty());
        assert(decimal(d.drop_last()) == 0);
    } else {
        lemma_digits_decimal(n / 10);
        let d = digits(n);
        let front = digits(n / 10);
        assert(d.drop_last() =~= front);
        assert(d[0] == front[0]);
        assert forall|i: int| 0 <= i < d.len() implies is_digit(#[trigger] d[i]) by {
            if i < front.len() {
                assert(d[i] == front[i]);
                assert(is_digit(front[i]));
            }
        }
        assert forall|i: int| 0 <= i < d.len() implies !is_space(#[trigger] d[i]) && d[i]
            != LINE_FEED by {
            assert(is_digit(d[i]));
        }
    }
}

/// A text without a line feed is one line.
pub proof fn lemma_lines_single(line: Seq<u8>)
    requires
        forall|i: int| 0 <= i < line.len() ==> #[trigger] line[i] != LINE_FEED,
    ensures
        lines(line) == seq![line],
    decreases line.len(),
{
    if line.len() == 0 {
        assert(line =~= Seq::<u8>::empty());
    } else {
        let front = line.drop_last();
        lemma_lines_single(front);
        assert(line[line.len() - 1] != LINE_FEED);
        assert(front.push(line.last()) =~= line);
        assert(seq![front].last() == front);
        assert(seq![front].drop_last() =~= Seq::<Seq<u8>>::empty());
        assert(Seq::<Seq<u8>>::empty().push(line) =~= seq![line]);
    }
}

/// A text, a line feed and a tail without a line feed have the lines of the
/// text and then the tail as one more line.
pub proof fn lemma_lines_append(text: Seq<u8>, tail: Seq<u8>)
    requires
        forall|i: int| 0 <= i < tail.len() ==> #[trigger] tail[i] != LINE_FEED,
    ensures
        lines(text.push(LINE_FEED) + tail) == lines(text).push(tail),
    decreases tail.len(),
{
    let whole = text.push(LINE_FEED) + tail;
    if tail.len() == 0 {
        assert(whole =~= text.push(LINE_FEED));
        assert(whole.drop_last() =~= text);
        assert(tail =~= Seq::<u8>::empty());
    } else {
        let front = tail.drop_last();
        lemma_lines_append(text, front);
        assert(whole.drop_last() =~= text.push(LINE_FEED) + front);
        assert(whole.last() == tail.last());
        assert(tail[tail.len() - 1] != LINE_FEED);
        assert(lines(text).push(front).drop_last() =~= lines(text));
        assert(front.push(tail.last()) =~= tail);
    }
}

/// Adding a score to a record that has a best score leaves the lesser of the
/// two as the best score.
pub proof fn lemma_best_with_score(text: Seq<u8>, score: nat)
    requires
        score <= u64::MAX,
        best(trimmed(text)) is Some,
    ensures
        best(with_score(text, score)) == Some(
            if score < best(trimmed(text))->0 {
                score
            } else {
                best(trimmed(text))->0
            },
        ),
{
    let kept = trimmed(text);
    let tail = digits(score);
    lemma_with_score_form(text, score);
    lemma_digits_decimal(score);
    assert(is_score(tail));
    assert(score_of(tail) == score);
    if kept.len() == 0 {
        lemma_lines_single(tail);
        let all = lines(tail);
        assert(all.drop_last() =~= Seq::<Seq<u8>>::empty());
        assert(all.last() == tail);
        assert(is_score(all[0]));
        assert(least(Seq::<Seq<u8>>::empty()) == u64::MAX);
        assert(least(all) == score);
        assert(best(kept) == Some(u64::MAX as nat));
    } else {
        lemma_lines_append(kept, tail);
        let all = lines(kept.push(LINE_FEED) + tail);
        assert(all.drop_last() =~= lines(kept));
        assert(all.last() == tail);
        assert forall|i: int| 0 <= i < all.len() implies is_score(#[trigger] all[i]) by {
            if i < all.len() - 1 {
                assert(all[i] == lines(kept)[i]);
            }
        }
        assert((kept.push(LINE_FEED) + tail).len() > 0);
        assert(all_scores(all));
        assert(best(kept) == Some(least(lines(kept))));
    }
}

/// The best score of a record is no greater than the score on any of its
/// lines.
pub proof fn lemma_least_is_lower(lines: Seq<Seq<u8>>, i: int)
    requires
        0 <= i < lines.len(),
    ensures
        least(lines) <= score_of(lines[i]),
        least(lines) <= u64::MAX,
    decreases lines.len(),
{
    if i < lines.len() - 1 {
        lemma_least_is_lower(lines.drop_last(), i);
    } else if lines.len() > 1 {
        lemma_least_is_lower(lines.drop_last(), 0);
    }
}

/// The best score of a record is the score on one of its lines, unless no
/// line holds less than `u64::MAX`.
pub proof fn lemma_least_is_reached(lines: Seq<Seq<u8>>)
    ensures
        least(lines) == u64::MAX || exists|i: int|
            0 <= i < lines.len() && least(lines) == score_of(#[trigger] lines[i]),
    decreases lines.len(),
{
    if lines.len() > 0 {
        let front = lines.drop_last();
        lemma_least_is_reached(front);
        if least(lines) == score_of(lines.last()) {
            assert(lines[lines.len() - 1] == lines.last());
        } else if least(lines) != u64::MAX {
            let i = choose|i: int|
                0 <= i < front.len() && least(front) == score_of(#[trigger] front[i]);
            assert(front[i] == lines[i]);
        }
    }
}

/// Whether the byte alone is a white space character.
pub fn is_space_byte(b: u8) -> (r: bool)
    ensures
        r == is_space(b),
{
    b == 32 || (9 <= b && b <= 13)
}

/// The number of bytes of the white space character that the part of the
/// text from `from` up to `to` starts with, and zero where it starts with
/// none.
pub fn leading_space_len(text: &[u8], from: usize, to: usize) -> (n: usize)
    requires
        from <= to <= text.len(),
    ensures
        n == leading_space(text@.subrange(from as int, to as int)),
        from + n <= to,
{
    let ghost part = text@.subrange(from as int, to as int);
    let len = to - from;
    if len >= 1 {
        assert(part[0] == text@[from as int]);
        if is_space_byte(text[from]) {
            return 1;
        }
    }
    if len >= 2 {
        assert(part[1] == text@[from + 1]);
        if text[from] == 0xC2 && (text[from + 1] == 0x85 || text[from + 1] == 0xA0) {
            return 2;
        }
    }
    if len >= 3 {
        assert(part[2] == text@[from + 2]);
        if is_space_three(text[from], text[from + 1], text[from + 2]) {
            return 3;
        }
    }
    0
}

/// The number of bytes of the white space character that the part of the
/// text from `from` up to `to` ends with, and zero where it ends with none.
pub fn trailing_space_len(text: &[u8], from: usize, to: usize) -> (n: usize)
    requires
        from <= to <= text.len(),
    ensures
        n == trailing_space(text@.subrange(from as int, to as int)),
        from + n <= to,
{
    let ghost part = text@.subrange(from as int, to as int);
    let len = to - from;
    if len >= 1 {
        assert(part[len - 1] == text@[to - 1]);
        if is_space_byte(text[to - 1]) {
            return 1;
        }
    }
    if len >= 2 {
        assert(part[len - 2] == text@[to - 2]);
        if text[to - 2] == 0xC2 && (text[to - 1] == 0x85 || text[to - 1] == 0xA0) {
            return 2;
        }
    }
    if len >= 3 {
        assert(part[len - 3] == text@[to - 3]);
        if is_space_three(text[to - 3], text[to - 2], text[to - 1]) {
            return 3;
        }
    }
    0
}

/// Whether the three bytes are the UTF-8 form of a white space character.
fn is_space_three(a: u8, b: u8, c: u8) -> (r: bool)
    ensures
        r == is_space_triple(a, b, c),
{
    if a == 0xE1 {
        b == 0x9A && c == 0x80
    } else if a == 0xE2 {
        (b == 0x80 && ((0x80 <= c && c <= 0x8A) || c == 0xA8 || c == 0xA9 || c == 0xAF)) || (b
            == 0x81 && c == 0x9F)
    } else if a == 0xE3 {
        b == 0x80 && c == 0x80
    } else {
        false
    }
}

/// The text without the white space characters at its start and at its end.
pub fn trim(text: &[u8]) -> (out: Vec<u8>)
    ensures
        out@ == trimmed(text@),
{
    let len = text.len();
    let mut a: usize = 0;
    let mut n = leading_space_len(text, a, len);
    assert(text@.subrange(0, len as int) =~= text@);
    while n > 0
        invariant
            len == text.len(),
            a + n <= len,
            n == leading_space(text@.subrange(a as int, len as int)),
            trim_start(text@) == trim_start(text@.subrange(a as int, len as int)),
        decreases len - a,
    {
        assert(text@.subrange(a as int, len as int).skip(n as int) =~= text@.subrange(
            a + n,
            len as int,
        ));
        a += n;
        n = leading_space_len(text, a, len);
    }
    let ghost front = text@.subrange(a as int, len as int);
    let mut b: usize = len;
    let mut m = trailing_space_len(text, a, b);
    while m > 0
        invariant
            len == text.len(),
            a + m <= b <= len,
            front == text@.subrange(a as int, len as int),
            m == trailing_space(text@.subrange(a as int, b as int)),
            trim_end(front) == trim_end(text@.subrange(a as int, b as int)),
        decreases b,
    {
        assert(text@.subrange(a as int, b as int).take(b - a - m) =~= text@.subrange(
            a as int,
            b - m,
        ));
        b -= m;
        m = trailing_space_len(text, a, b);
    }
    let mut out: Vec<u8> = Vec::new();
    let mut i: usize = a;
    while i < b
        invariant
            a <= i <= b <= text.len(),
            out@ == text@.subrange(a as int, i as int),
        decreases b - i,
    {
        out.push(text[i]);
        assert(text@.subrange(a as int, i + 1) =~= text@.subrange(a as int, i as int).push(
            text@[i as int],
        ));
        i += 1;
    }
    out
}

/// The score on a line, or nothing where the line holds none.
pub fn parse_score(line: &[u8]) -> (r: Option<u64>)
    ensures
        r is Some <==> is_score(line@),
        r matches Some(n) ==> n == score_of(line@),
{
    let start: usize = if line.len() > 0 && line[0] == PLUS {
        1
    } else {
        0
    };
    let ghost run = unsigned(line@);
    assert(run =~= line@.skip(start as int));
    if start == line.len() {
        return None;
    }
    let mut value: u64 = 0;
    let mut i: usize = start;
    assert(run.take(0) =~= Seq::<u8>::empty());
    while i < line.len()
        invariant
            start <= i <= line.len(),
            start < line.len(),
            run == line@.skip(start as int),
            run == unsigned(line@),
            forall|k: int| 0 <= k < i - start ==> is_digit(#[trigger] run[k]),
            value == decimal(run.take(i - start)),
        decreases line.len() - i,
    {
        let b = line[i];
        assert(run[i - start] == b);
        if b < ZERO || b > ZERO + 9 {
            return None;
        }
        assert(run.take(i - start + 1).drop_last() =~= run.take(i - start));
        assert(decimal(run.take(i - start + 1)) == value * 10 + (b - ZERO));
        let tens = value.checked_mul(10);
        let next = match tens {
            Some(t) => t.checked_add((b - ZERO) as u64),
            None => None,
        };
        match next {
            Some(n) => {
                value = n;
            },
            None => {
                proof {
                    assert(decimal(run.take(i - start + 1)) > u64::MAX);
                    if all_digits(run) {
                        lemma_decimal_grows(run, i - start + 1);
                    }
                }
                return None;
            },
        }
        i += 1;
    }
    assert(run.take(i - start) =~= run);
    Some(value)
}

/// The best score of a record: the least number on its lines.
///
/// The empty record gives `u64::MAX`. A record with a line that holds no
/// score gives nothing.
pub fn get_highscore(text: &[u8]) -> (r: Option<u64>)
    ensures
        r is Some <==> best(text@) is Some,
        r matches Some(n) ==> best(text@) == Some(n as nat),
{
    if text.len() == 0 {
        return Some(u64::MAX);
    }
    let mut least_so_far: u64 = u64::MAX;
    let mut from: usize = 0;
    let mut i: usize = 0;
    assert(text@.take(0) =~= Seq::<u8>::empty());
    assert(text@.subrange(0, 0) =~= Seq::<u8>::empty());
    assert(lines(text@.take(0)).drop_last() =~= Seq::<Seq<u8>>::empty());
    while i < text.len()
        invariant
            from <= i <= text.len(),
            lines(text@.take(i as int)).len() > 0,
            lines(text@.take(i as int)).last() == text@.subrange(from as int, i as int),
            all_scores(lines(text@.take(i as int)).drop_last()),
            least_so_far == least(lines(text@.take(i as int)).drop_last()),
        decreases text.len() - i,
    {
        let ghost before = lines(text@.take(i as int));
        let ghost after = lines(text@.take(i + 1));
        assert(text@.take(i + 1).drop_last() =~= text@.take(i as int));
        if text[i] == LINE_FEED {
            let line = slice_subrange(text, from, i);
            assert(after == before.push(Seq::empty()));
            assert(after.drop_last() =~= before);
            assert(before.drop_last().push(before.last()) =~= before);
            match parse_score(line) {
                Some(n) => {
                    if n < least_so_far {
                        least_so_far = n;
                    }
                    assert forall|k: int| 0 <= k < before.len() implies is_score(
                        #[trigger] before[k],
                    ) by {
                        if k < before.len() - 1 {
                            assert(before.drop_last()[k] == before[k]);
                        }
                    }
                },
                None => {
                    proof {
                        lemma_lines_stay(text@, i + 1, before.len() - 1);
                        assert(text@.take(text@.len() as int) =~= text@);
                    }
                    return None;
                },
            }
            from = i + 1;
            assert(text@.subrange(from as int, from as int) =~= Seq::<u8>::empty());
        } else {
            assert(after == before.drop_last().push(before.last().push(text@[i as int])));
            assert(after.drop_last() =~= before.drop_last());
            assert(text@.subrange(from as int, i + 1) =~= text@.subrange(
                from as int,
                i as int,
            ).push(text@[i as int]));
        }
        i += 1;
    }
    assert(text@.take(i as int) =~= text@);
    let ghost all = lines(text@);
    let line = slice_subrange(text, from, i);
    assert(all.drop_last().push(all.last()) =~= all);
    match parse_score(line) {
        Some(n) => {
            if n < least_so_far {
                least_so_far = n;
            }
            assert forall|k: int| 0 <= k < all.len() implies is_score(#[trigger] all[k]) by {
                if k < all.len() - 1 {
                    assert(all.drop_last()[k] == all[k]);
                }
            }
            Some(least_so_far)
        },
        None => None,
    }
}

/// A line that is closed by a line feed stays as it is however the text goes
/// on.
pub proof fn lemma_lines_stay(text: Seq<u8>, n: int, k: int)
    requires
        0 <= n <= text.len(),
        0 <= k < lines(text.take(n)).len() - 1,
    ensures
        k < lines(text).len() - 1,
        lines(text)[k] == lines(text.take(n))[k],
    decreases text.len() - n,
{
    if n == text.len() {
        assert(text.take(n) =~= text);
    } else {
        let front = text.drop_last();
        assert(front.take(n) =~= text.take(n));
        lemma_lines_stay(front, n, k);
    }
}

/// Writes the decimal digits of a number after what the buffer holds.
fn push_digits(n: u64, out: &mut Vec<u8>)
    ensures
        final(out)@ == old(out)@ + digits(n as nat),
    decreases n,
{
    if n >= 10 {
        push_digits(n / 10, out);
    }
    let d: u8 = (n % 10) as u8;
    out.push(ZERO + d);
    assert(out@ =~= old(out)@ + digits(n as nat));
}

/// The record with one more score: the trimmed text, a line feed and the
/// score's digits, trimmed as a whole. That is the trimmed text with the
/// digits on a new line, or the digits alone where the text holds nothing
/// but white space.
pub fn add_record(text: &[u8], score: u64) -> (out: Vec<u8>)
    ensures
        out@ == with_score(text@, score as nat),
{
    let mut out = trim(text);
    if out.len() > 0 {
        out.push(LINE_FEED);
    }
    push_digits(score, &mut out);
    proof {
        lemma_with_score_form(text@, score as nat);
        if trimmed(text@).len() == 0 {
            assert(out@ =~= digits(score as nat));
        }
    }
    out
}

} // verus!
