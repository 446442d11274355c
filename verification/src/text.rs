//! Text handling shared by the solvers: characters, lines and decimal numbers.

use vstd::prelude::*;

verus! {

/// The character sequences held by a vector of rows.
pub open spec fn views(rows: Seq<Vec<char>>) -> Seq<Seq<char>> {
    Seq::new(rows.len(), |i: int| rows[i]@)
}

/// The pieces of `s` between occurrences of `sep`. There is always at least
/// one piece, and a separator at the very end leaves an empty last piece.
pub open spec fn split_on(s: Seq<char>, sep: char) -> Seq<Seq<char>>
    decreases s.len(),
{
    if s.len() == 0 {
        seq![Seq::<char>::empty()]
    } else {
        let rest = split_on(s.drop_last(), sep);
        if s.last() == sep {
            rest.push(Seq::<char>::empty())
        } else {
            rest.drop_last().push(rest.last().push(s.last()))
        }
    }
}

/// A line without the carriage return that ended it, if it had one.
pub open spec fn strip_cr(line: Seq<char>) -> Seq<char> {
    if line.len() > 0 && line.last() == '\r' {
        line.drop_last()
    } else {
        line
    }
}

/// The lines of a text. A line ends at a line feed, or at a carriage return
/// followed by a line feed. What follows the last line feed is a line of its
/// own unless it is empty, and keeps a carriage return at its end.
pub open spec fn lines_of(s: Seq<char>) -> Seq<Seq<char>> {
    let pieces = split_on(s, '\n');
    let ended = Seq::new((pieces.len() - 1) as nat, |i: int| strip_cr(pieces[i]));
    if pieces.last().len() == 0 {
        ended
    } else {
        ended.push(pieces.last())
    }
}

pub proof fn lemma_split_on_nonempty(s: Seq<char>, sep: char)
    ensures
        split_on(s, sep).len() >= 1,
    decreases s.len(),
{
    if s.len() > 0 {
        lemma_split_on_nonempty(s.drop_last(), sep);
    }
}

/// The characters of `text`, in order.
pub fn chars_of(text: &str) -> (chars: Vec<char>)
    ensures
        chars@ == text@,
{
    let mut chars: Vec<char> = Vec::new();
    for c in iter: text.chars()
        invariant
            chars@ == iter.seq().take(iter.index()),
            iter.seq() == text@,
    {
        chars.push(c);
    }
    chars
}

/// The character at place `i`.
pub fn char_at(chars: &Vec<char>, i: usize) -> (c: char)
    requires
        i < chars.len(),
    ensures
        c == chars[i as int],
{
    chars[i]
}

/// A copy of the characters of `source` from `from` up to `to`.
pub fn copy_range(source: &Vec<char>, from: usize, to: usize) -> (piece: Vec<char>)
    requires
        from <= to <= source.len(),
    ensures
        piece@ == source@.subrange(from as int, to as int),
{
    let mut piece: Vec<char> = Vec::new();
    let mut i: usize = from;
    while i < to
        invariant
            from <= i <= to <= source.len(),
            piece@ == source@.subrange(from as int, i as int),
        decreases to - i,
    {
        piece.push(source[i]);
        i += 1;
    }
    piece
}

/// The place of the first `c` in `chars`, if there is one.
pub fn first_index_of(chars: &Vec<char>, c: char) -> (found: Option<usize>)
    ensures
        match found {
            Some(i) => i < chars.len() && chars[i as int] == c && forall|j: int|
                0 <= j < i ==> chars[j] != c,
            None => forall|j: int| 0 <= j < chars.len() ==> chars[j] != c,
        },
{
    let mut i: usize = 0;
    while i < chars.len()
        invariant
            i <= chars.len(),
            forall|j: int| 0 <= j < i ==> chars[j] != c,
        decreases chars.len() - i,
    {
        if chars[i] == c {
            return Some(i);
        }
        i += 1;
    }
    None
}

/// The characters of `a` followed by those of `b`.
pub fn chained(a: &Vec<char>, b: &Vec<char>) -> (both: Vec<char>)
    ensures
        both@ == a@ + b@,
{
    let mut both = copy_range(a, 0, a.len());
    assert(a@.subrange(0, a@.len() as int) == a@);
    let mut i: usize = 0;
    while i < b.len()
        invariant
            i <= b.len(),
            both@ == a@ + b@.take(i as int),
        decreases b.len() - i,
    {
        both.push(b[i]);
        assert(b@.take(i + 1) == b@.take(i as int).push(b@[i as int]));
        i += 1;
    }
    assert(b@.take(b.len() as int) == b@);
    both
}

/// Puts the characters of `more` at the end of `chars`.
pub fn append(chars: &mut Vec<char>, more: &Vec<char>)
    ensures
        final(chars)@ == old(chars)@ + more@,
{
    let mut i: usize = 0;
    assert(more@.take(0) == Seq::<char>::empty());
    while i < more.len()
        invariant
            i <= more.len(),
            chars@ == old(chars)@ + more@.take(i as int),
        decreases more.len() - i,
    {
        chars.push(more[i]);
        assert(more@.take(i + 1) == more@.take(i as int).push(more@[i as int]));
        i += 1;
    }
    assert(more@.take(more.len() as int) == more@);
}

/// Whether two sequences of characters are the same.
pub fn same_chars(a: &Vec<char>, b: &Vec<char>) -> (same: bool)
    ensures
        same == (a@ == b@),
{
    if a.len() != b.len() {
        return false;
    }
    let mut i: usize = 0;
    while i < a.len()
        invariant
            i <= a.len(),
            a.len() == b.len(),
            a@.take(i as int) == b@.take(i as int),
        decreases a.len() - i,
    {
        if a[i] != b[i] {
            return false;
        }
        assert(a@.take(i + 1) == a@.take(i as int).push(a@[i as int]));
        assert(b@.take(i + 1) == b@.take(i as int).push(b@[i as int]));
        i += 1;
    }
    assert(a@.take(a.len() as int) == a@);
    assert(b@.take(b.len() as int) == b@);
    true
}

/// Splits `chars` at every occurrence of `sep`.
pub fn split(chars: &Vec<char>, sep: char) -> (pieces: Vec<Vec<char>>)
    ensures
        views(pieces@) == split_on(chars@, sep),
{
    let mut done: Vec<Vec<char>> = Vec::new();
    let mut current: Vec<char> = Vec::new();
    let mut i: usize = 0;
    while i < chars.len()
        invariant
            i <= chars.len(),
            views(done@).push(current@) == split_on(chars@.take(i as int), sep),
        decreases chars.len() - i,
    {
        let ghost before = split_on(chars@.take(i as int), sep);
        let ghost old_done = views(done@);
        let ghost old_current = current@;
        proof {
            assert(chars@.take(i + 1).drop_last() == chars@.take(i as int));
            assert(chars@.take(i + 1).last() == chars@[i as int]);
            assert(before.drop_last() == old_done);
            assert(before.last() == old_current);
        }
        let c = chars[i];
        if c == sep {
            done.push(current);
            current = Vec::new();
            proof {
                assert(views(done@) == before);
            }
        } else {
            current.push(c);
        }
        i += 1;
    }
    proof {
        assert(chars@.take(i as int) == chars@);
    }
    done.push(current);
    proof {
        pieces_view_push(done@);
    }
    done
}

proof fn pieces_view_push(rows: Seq<Vec<char>>)
    requires
        rows.len() > 0,
    ensures
        views(rows) == views(rows.drop_last()).push(rows.last()@),
{
}

/// Splits a text into its lines, as `lines_of` describes.
pub fn lines(text: &str) -> (result: Vec<Vec<char>>)
    ensures
        views(result@) == lines_of(text@),
{
    let chars = chars_of(text);
    lines_of_chars(&chars)
}

/// Splits a character sequence into its lines, as `lines_of` describes.
pub fn lines_of_chars(chars: &Vec<char>) -> (result: Vec<Vec<char>>)
    ensures
        views(result@) == lines_of(chars@),
{
    let pieces = split(chars, '\n');
    proof {
        lemma_split_on_nonempty(chars@, '\n');
    }
    let ghost spec_pieces = split_on(chars@, '\n');
    let ghost ended = Seq::new((spec_pieces.len() - 1) as nat, |i: int| strip_cr(spec_pieces[i]));
    let n = pieces.len();
    assert(n == spec_pieces.len());
    let mut result: Vec<Vec<char>> = Vec::new();
    let mut i: usize = 0;
    while i + 1 < n
        invariant
            n == pieces.len(),
            n >= 1,
            i + 1 <= n,
            views(pieces@) == spec_pieces,
            ended == Seq::new((spec_pieces.len() - 1) as nat, |i: int| strip_cr(spec_pieces[i])),
            views(result@) == ended.take(i as int),
        decreases n - i,
    {
        let piece = &pieces[i];
        assert(piece@ == spec_pieces[i as int]);
        let len = piece.len();
        let line = if len > 0 && piece[len - 1] == '\r' {
            let line = copy_range(piece, 0, len - 1);
            assert(line@ == strip_cr(piece@));
            line
        } else {
            let line = copy_range(piece, 0, len);
            assert(line@ == strip_cr(piece@));
            line
        };
        let ghost before = views(result@);
        result.push(line);
        assert(views(result@) == before.push(line@));
        assert(ended[i as int] == strip_cr(spec_pieces[i as int]));
        assert(ended.take(i + 1) == ended.take(i as int).push(ended[i as int]));
        i += 1;
    }
    assert(ended.take(i as int) == ended);
    let last = &pieces[n - 1];
    assert(last@ == spec_pieces.last());
    if last.len() > 0 {
        let line = copy_range(last, 0, last.len());
        assert(line@ == last@);
        let ghost before = views(result@);
        result.push(line);
        assert(views(result@) == before.push(line@));
    }
    result
}

/// Whether `c` is one of the ten decimal digits.
pub open spec fn is_digit(c: char) -> bool {
    '0' <= c <= '9'
}

/// The value of a decimal digit.
pub open spec fn digit_value(c: char) -> nat {
    (c as nat - '0' as nat) as nat
}

/// Whether `s` is made of decimal digits only.
pub open spec fn all_digits(s: Seq<char>) -> bool {
    forall|i: int| 0 <= i < s.len() ==> is_digit(#[trigger] s[i])
}

/// The number that a sequence of decimal digits writes.
pub open spec fn decimal_value(s: Seq<char>) -> nat
    decreases s.len(),
{
    if s.len() == 0 {
        0
    } else {
        decimal_value(s.drop_last()) * 10 + digit_value(s.last())
    }
}

/// The value of `c` when it is a decimal digit.
pub fn digit_of(c: char) -> (value: Option<u8>)
    ensures
        value is Some <==> is_digit(c),
        value matches Some(v) ==> v == digit_value(c) && v <= 9,
{
    if '0' <= c && c <= '9' {
        Some(((c as u32) - ('0' as u32)) as u8)
    } else {
        None
    }
}

pub proof fn lemma_decimal_value_monotone(s: Seq<char>, n: int)
    requires
        0 <= n <= s.len(),
    ensures
        decimal_value(s.take(n)) <= decimal_value(s),
    decreases s.len() - n,
{
    if n == s.len() {
        assert(s.take(n) == s);
    } else {
        lemma_decimal_value_monotone(s, n + 1);
        assert(s.take(n + 1).drop_last() == s.take(n));
    }
}

/// Reads an unsigned decimal number. The result is `Some` exactly when `s`
/// is a non-empty run of digits whose value fits in 64 bits.
pub fn parse_decimal(s: &Vec<char>) -> (value: Option<u64>)
    ensures
        value is Some <==> s@.len() > 0 && all_digits(s@) && decimal_value(s@) <= u64::MAX,
        value matches Some(v) ==> v == decimal_value(s@),
{
    if s.len() == 0 {
        return None;
    }
    let mut total: u64 = 0;
    let mut i: usize = 0;
    while i < s.len()
        invariant
            i <= s.len(),
            all_digits(s@.take(i as int)),
            total == decimal_value(s@.take(i as int)),
        decreases s.len() - i,
    {
        proof {
            assert(s@.take(i + 1).drop_last() == s@.take(i as int));
            assert(s@.take(i + 1).last() == s@[i as int]);
        }
        match digit_of(s[i]) {
            None => {
                return None;
            },
            Some(d) => {
                if total > (u64::MAX - d as u64) / 10 {
                    proof {
                        lemma_decimal_value_monotone(s@, i + 1);
                    }
                    return None;
                }
                total = total * 10 + d as u64;
                proof {
                    assert forall|j: int| 0 <= j < i + 1 implies is_digit(
                        #[trigger] s@.take(i + 1)[j],
                    ) by {
                        if j < i {
                            assert(s@.take(i as int)[j] == s@[j]);
                        }
                    }
                }
            },
        }
        i += 1;
    }
    proof {
        assert(s@.take(i as int) == s@);
    }
    Some(total)
}

/// Whether `c` is white space, as the Unicode property `White_Space` has it.
pub open spec fn is_space(c: char) -> bool {
    ||| ('\u{9}' <= c <= '\u{d}')
    ||| c == ' '
    ||| c == '\u{85}'
    ||| c == '\u{a0}'
    ||| c == '\u{1680}'
    ||| ('\u{2000}' <= c <= '\u{200a}')
    ||| c == '\u{2028}'
    ||| c == '\u{2029}'
    ||| c == '\u{202f}'
    ||| c == '\u{205f}'
    ||| c == '\u{3000}'
}

/// Whether `c` is white space.
pub fn is_white_space(c: char) -> (space: bool)
    ensures
        space == is_space(c),
{
    ('\u{9}' <= c && c <= '\u{d}') || c == ' ' || c == '\u{85}' || c == '\u{a0}' || c == '\u{1680}'
        || ('\u{2000}' <= c && c <= '\u{200a}') || c == '\u{2028}' || c == '\u{2029}' || c
        == '\u{202f}' || c == '\u{205f}' || c == '\u{3000}'
}

/// The words of a text: its longest runs of characters that are not white
/// space.
pub open spec fn words_of(s: Seq<char>) -> Seq<Seq<char>>
    decreases s.len(),
{
    if s.len() == 0 {
        Seq::empty()
    } else {
        let rest = words_of(s.drop_last());
        if is_space(s.last()) {
            rest
        } else if s.len() >= 2 && !is_space(s[s.len() - 2]) {
            rest.drop_last().push(rest.last().push(s.last()))
        } else {
            rest.push(seq![s.last()])
        }
    }
}

/// A text that ends in a character that is not white space has a last word.
pub proof fn lemma_words_of_nonempty(s: Seq<char>)
    requires
        s.len() > 0,
        !is_space(s.last()),
    ensures
        words_of(s).len() > 0,
    decreases s.len(),
{
    if s.len() >= 2 && !is_space(s[s.len() - 2]) {
        lemma_words_of_nonempty(s.drop_last());
    }
}

/// The words of `chars`.
pub fn split_whitespace(chars: &Vec<char>) -> (words: Vec<Vec<char>>)
    ensures
        views(words@) == words_of(chars@),
{
    let mut done: Vec<Vec<char>> = Vec::new();
    let mut current: Vec<char> = Vec::new();
    let mut i: usize = 0;
    assert(chars@.take(0) == Seq::<char>::empty());
    while i < chars.len()
        invariant
            i <= chars.len(),
            current.len() > 0 <==> (i > 0 && !is_space(chars[i - 1])),
            current.len() > 0 ==> views(done@).push(current@) == words_of(chars@.take(i as int)),
            current.len() == 0 ==> views(done@) == words_of(chars@.take(i as int)),
        decreases chars.len() - i,
    {
        let ghost before = words_of(chars@.take(i as int));
        let ghost old_done = views(done@);
        let ghost old_current = current@;
        proof {
            let longer = chars@.take(i + 1);
            assert(longer.drop_last() == chars@.take(i as int));
            assert(longer.last() == chars@[i as int]);
            if i > 0 {
                assert(longer[longer.len() - 2] == chars@[i - 1]);
            }
            if current.len() > 0 {
                assert(before.drop_last() == old_done);
                assert(before.last() == old_current);
            }
        }
        let c = chars[i];
        if is_white_space(c) {
            if current.len() > 0 {
                done.push(current);
                current = Vec::new();
                assert(views(done@) == before);
            }
        } else {
            current.push(c);
            assert(old_current.len() == 0 ==> current@ == seq![c]);
        }
        i += 1;
    }
    assert(chars@.take(i as int) == chars@);
    if current.len() > 0 {
        let ghost old_done = views(done@);
        let ghost last = current@;
        done.push(current);
        assert(views(done@) == old_done.push(last));
    }
    done
}

/// Whether `s` writes a whole number: digits, with or without a sign before
/// them.
pub open spec fn is_signed_number(s: Seq<char>) -> bool {
    if s.len() > 0 && (s[0] == '-' || s[0] == '+') {
        s.len() > 1 && all_digits(s.drop_first())
    } else {
        s.len() > 0 && all_digits(s)
    }
}

/// The whole number that `s` writes.
pub open spec fn signed_value(s: Seq<char>) -> int {
    if s.len() > 0 && s[0] == '-' {
        -(decimal_value(s.drop_first()) as int)
    } else if s.len() > 0 && s[0] == '+' {
        decimal_value(s.drop_first()) as int
    } else {
        decimal_value(s) as int
    }
}

/// Reads a whole number between `-limit` and `limit`. The result is `Some`
/// exactly when `s` writes such a number.
pub fn parse_signed(s: &Vec<char>, limit: u64) -> (value: Option<i64>)
    requires
        limit <= i64::MAX,
    ensures
        value is Some <==> is_signed_number(s@) && -limit <= signed_value(s@) <= limit,
        value matches Some(v) ==> v == signed_value(s@),
{
    if s.len() == 0 {
        return None;
    }
    let first = s[0];
    if first == '-' || first == '+' {
        let digits = copy_range(s, 1, s.len());
        assert(digits@ == s@.drop_first());
        match parse_decimal(&digits) {
            None => None,
            Some(size) => {
                if size > limit {
                    None
                } else if first == '-' {
                    Some(-(size as i64))
                } else {
                    Some(size as i64)
                }
            },
        }
    } else {
        match parse_decimal(s) {
            None => None,
            Some(size) => {
                if size > limit {
                    None
                } else {
                    Some(size as i64)
                }
            },
        }
    }
}

/// Reads an unsigned decimal number of up to 128 bits. The result is `Some`
/// exactly when `s` is a non-empty run of digits whose value fits.
pub fn parse_decimal_wide(s: &Vec<char>) -> (value: Option<u128>)
    ensures
        value is Some <==> s@.len() > 0 && all_digits(s@) && decimal_value(s@) <= u128::MAX,
        value matches Some(v) ==> v == decimal_value(s@),
{
    if s.len() == 0 {
        return None;
    }
    let mut total: u128 = 0;
    let mut i: usize = 0;
    while i < s.len()
        invariant
            i <= s.len(),
            all_digits(s@.take(i as int)),
            total == decimal_value(s@.take(i as int)),
        decreases s.len() - i,
    {
        proof {
            assert(s@.take(i + 1).drop_last() == s@.take(i as int));
            assert(s@.take(i + 1).last() == s@[i as int]);
        }
        match digit_of(s[i]) {
            None => {
                return None;
            },
            Some(d) => {
                if total > (u128::MAX - d as u128) / 10 {
                    proof {
                        lemma_decimal_value_monotone(s@, i + 1);
                    }
                    return None;
                }
                total = total * 10 + d as u128;
                proof {
                    assert forall|j: int| 0 <= j < i + 1 implies is_digit(
                        #[trigger] s@.take(i + 1)[j],
                    ) by {
                        if j < i {
                            assert(s@.take(i as int)[j] == s@[j]);
                        }
                    }
                }
            },
        }
        i += 1;
    }
    proof {
        assert(s@.take(i as int) == s@);
    }
    Some(total)
}

/// Whether `sep` stands in `s` at place `i`.
pub open spec fn stands_at(s: Seq<char>, sep: Seq<char>, i: int) -> bool {
    0 <= i && i + sep.len() <= s.len() && s.subrange(i, i + sep.len()) == sep
}

/// Whether `sep` stands in `s` at place `i` and nowhere before.
pub open spec fn first_stands_at(s: Seq<char>, sep: Seq<char>, i: int) -> bool {
    stands_at(s, sep, i) && forall|j: int| 0 <= j < i ==> !stands_at(s, sep, j)
}

/// The pieces of `s` between the places where `sep`, which is not empty,
/// stands: the first place is looked for from the left, and the next after
/// the end of the one before.
pub open spec fn split_by(s: Seq<char>, sep: Seq<char>) -> Seq<Seq<char>>
    decreases s.len(),
{
    if sep.len() > 0 && exists|i: int| first_stands_at(s, sep, i) {
        let i = choose|i: int| first_stands_at(s, sep, i);
        seq![s.take(i)] + split_by(s.skip(i + sep.len()), sep)
    } else {
        seq![s]
    }
}

/// Whether `sep` stands in `chars` at place `i`.
pub fn is_at(chars: &Vec<char>, sep: &Vec<char>, i: usize) -> (stands: bool)
    ensures
        stands == stands_at(chars@, sep@, i as int),
{
    if sep.len() > chars.len() || i > chars.len() - sep.len() {
        return false;
    }
    let mut n: usize = 0;
    while n < sep.len()
        invariant
            n <= sep.len(),
            i + sep.len() <= chars.len(),
            forall|j: int| 0 <= j < n ==> chars[i + j] == sep[j],
        decreases sep.len() - n,
    {
        if chars[i + n] != sep[n] {
            assert(chars@.subrange(i as int, i + sep.len())[n as int] != sep@[n as int]);
            return false;
        }
        n += 1;
    }
    assert(chars@.subrange(i as int, i + sep.len()) == sep@);
    true
}

/// The pieces of `chars` between the places where `sep` stands.
pub fn split_str(chars: &Vec<char>, sep: &Vec<char>) -> (pieces: Vec<Vec<char>>)
    requires
        sep.len() > 0,
    ensures
        views(pieces@) == split_by(chars@, sep@),
{
    let mut pieces: Vec<Vec<char>> = Vec::new();
    let mut start: usize = 0;
    let mut i: usize = 0;
    assert(chars@.skip(0) == chars@);
    while i < chars.len()
        invariant
            start <= i <= chars.len(),
            sep.len() > 0,
            views(pieces@) + split_by(chars@.skip(start as int), sep@) == split_by(chars@, sep@),
            forall|j: int| start <= j < i ==> !stands_at(chars@, sep@, j),
        decreases chars.len() - i,
    {
        if is_at(chars, sep, i) {
            let ghost rest = chars@.skip(start as int);
            let ghost at = i - start;
            proof {
                assert(rest.subrange(at, at + sep.len()) == chars@.subrange(i as int, i + sep.len()));
                assert(stands_at(rest, sep@, at));
                assert forall|j: int| 0 <= j < at implies !stands_at(rest, sep@, j) by {
                    if stands_at(rest, sep@, j) {
                        assert(rest.subrange(j, j + sep.len()) == chars@.subrange(
                            start + j,
                            start + j + sep.len(),
                        ));
                        assert(stands_at(chars@, sep@, start + j));
                    }
                }
                assert(first_stands_at(rest, sep@, at));
                let chosen = choose|c: int| first_stands_at(rest, sep@, c);
                assert(chosen == at) by {
                    if chosen < at {
                        assert(!stands_at(rest, sep@, chosen));
                    } else if chosen > at {
                        assert(!stands_at(rest, sep@, at));
                    }
                }
                assert(rest.take(at) == chars@.subrange(start as int, i as int));
                assert(rest.skip(at + sep.len()) == chars@.skip(i + sep.len()));
            }
            let piece = copy_range(chars, start, i);
            let ghost before = views(pieces@);
            pieces.push(piece);
            assert(views(pieces@) == before + seq![piece@]);
            start = i + sep.len();
            i = start;
        } else {
            i += 1;
        }
    }
    let ghost rest = chars@.skip(start as int);
    proof {
        assert forall|j: int| !first_stands_at(rest, sep@, j) by {
            if stands_at(rest, sep@, j) {
                assert(rest.subrange(j, j + sep.len()) == chars@.subrange(
                    start + j,
                    start + j + sep.len(),
                ));
                assert(stands_at(chars@, sep@, start + j));
            }
        }
        assert(split_by(rest, sep@) == seq![rest]);
    }
    let piece = copy_range(chars, start, chars.len());
    assert(piece@ == rest);
    let ghost before = views(pieces@);
    pieces.push(piece);
    assert(views(pieces@) == before + seq![piece@]);
    pieces
}

/// The character that writes a number below 10.
pub open spec fn digit_char(d: nat) -> char {
    ('0' as nat + d % 10) as char
}

/// The digits that write a number, without zeros before it.
pub open spec fn decimal_of(n: nat) -> Seq<char>
    decreases n,
{
    if n < 10 {
        seq![digit_char(n)]
    } else {
        decimal_of(n / 10).push(digit_char(n % 10))
    }
}

/// The digits of a number write that number.
pub proof fn lemma_decimal_roundtrip(n: nat)
    ensures
        all_digits(decimal_of(n)),
        decimal_value(decimal_of(n)) == n,
        decimal_of(n).len() >= 1,
    decreases n,
{
    let digits = decimal_of(n);
    if n < 10 {
        assert(digits.drop_last() == Seq::<char>::empty());
        assert(decimal_value(digits.drop_last()) == 0);
        assert(digit_value(digits.last()) == n);
    } else {
        lemma_decimal_roundtrip(n / 10);
        assert(digits.drop_last() == decimal_of(n / 10));
        assert(digit_value(digits.last()) == n % 10);
        assert forall|i: int| 0 <= i < digits.len() implies is_digit(#[trigger] digits[i]) by {
            if i < digits.len() - 1 {
                assert(digits[i] == decimal_of(n / 10)[i]);
            }
        }
    }
}

/// The digits that write `n`.
pub fn to_decimal(n: u64) -> (digits: Vec<char>)
    ensures
        digits@ == decimal_of(n as nat),
    decreases n,
{
    let last = (('0' as u8) + (n % 10) as u8) as char;
    if n < 10 {
        let mut digits: Vec<char> = Vec::new();
        digits.push(last);
        digits
    } else {
        let mut digits = to_decimal(n / 10);
        digits.push(last);
        digits
    }
}

/// Whether `a` comes before `b` in the order of a dictionary, in which a
/// character counts by its number and a text comes after its beginnings.
pub open spec fn comes_first(a: Seq<char>, b: Seq<char>) -> bool
    decreases a.len(),
{
    if b.len() == 0 {
        false
    } else if a.len() == 0 {
        true
    } else if a[0] != b[0] {
        a[0] < b[0]
    } else {
        comes_first(a.drop_first(), b.drop_first())
    }
}

/// Whether `a` comes before `b` in the order of a dictionary.
pub fn is_before(a: &Vec<char>, b: &Vec<char>) -> (before: bool)
    ensures
        before == comes_first(a@, b@),
{
    let mut i: usize = 0;
    assert(a@.skip(0) == a@ && b@.skip(0) == b@);
    while i < a.len() && i < b.len()
        invariant
            i <= a.len(),
            i <= b.len(),
            comes_first(a@, b@) == comes_first(a@.skip(i as int), b@.skip(i as int)),
        decreases a.len() - i,
    {
        proof {
            assert(a@.skip(i as int)[0] == a@[i as int]);
            assert(b@.skip(i as int)[0] == b@[i as int]);
            assert(a@.skip(i as int).drop_first() == a@.skip(i + 1));
            assert(b@.skip(i as int).drop_first() == b@.skip(i + 1));
        }
        if a[i] != b[i] {
            return a[i] < b[i];
        }
        i += 1;
    }
    i < b.len()
}

/// Whether `text` starts with `start`.
pub open spec fn begins_with(text: Seq<char>, start: Seq<char>) -> bool {
    start.len() <= text.len() && text.take(start.len() as int) == start
}

/// Whether `text` starts with `start`.
pub fn starts_with(text: &Vec<char>, start: &Vec<char>) -> (begins: bool)
    ensures
        begins == begins_with(text@, start@),
{
    if start.len() > text.len() {
        return false;
    }
    let head = copy_range(text, 0, start.len());
    assert(head@ == text@.take(start.len() as int));
    same_chars(&head, start)
}

/// The text without the white space at its start and at its end.
pub open spec fn trimmed(s: Seq<char>) -> Seq<char>
    decreases s.len(),
{
    if s.len() > 0 && is_space(s[0]) {
        trimmed(s.drop_first())
    } else {
        trimmed_end(s)
    }
}

/// The text without the white space at its end.
pub open spec fn trimmed_end(s: Seq<char>) -> Seq<char>
    decreases s.len(),
{
    if s.len() > 0 && is_space(s.last()) {
        trimmed_end(s.drop_last())
    } else {
        s
    }
}

/// The characters of `chars` without the white space at their start and at
/// their end.
pub fn trim(chars: &Vec<char>) -> (rest: Vec<char>)
    ensures
        rest@ == trimmed(chars@),
{
    let mut from: usize = 0;
    assert(chars@.skip(0) == chars@);
    while from < chars.len() && is_white_space(chars[from])
        invariant
            from <= chars.len(),
            trimmed(chars@) == trimmed(chars@.skip(from as int)),
        decreases chars.len() - from,
    {
        proof {
            assert(chars@.skip(from as int)[0] == chars@[from as int]);
            assert(chars@.skip(from as int).drop_first() == chars@.skip(from + 1));
        }
        from += 1;
    }
    proof {
        if from < chars.len() {
            assert(chars@.skip(from as int)[0] == chars@[from as int]);
        }
    }
    let mut to: usize = chars.len();
    assert(chars@.subrange(from as int, to as int) == chars@.skip(from as int));
    while to > from && is_white_space(chars[to - 1])
        invariant
            from <= to <= chars.len(),
            trimmed(chars@) == trimmed_end(chars@.subrange(from as int, to as int)),
        decreases to,
    {
        proof {
            assert(chars@.subrange(from as int, to as int).last() == chars@[to - 1]);
            assert(chars@.subrange(from as int, to as int).drop_last() == chars@.subrange(
                from as int,
                to - 1,
            ));
        }
        to -= 1;
    }
    proof {
        if to > from {
            assert(chars@.subrange(from as int, to as int).last() == chars@[to - 1]);
        }
    }
    copy_range(chars, from, to)
}

/// Of two texts at most one comes before the other.
pub proof fn lemma_comes_first_one_way(a: Seq<char>, b: Seq<char>)
    requires
        comes_first(a, b),
    ensures
        !comes_first(b, a),
        a != b,
    decreases a.len(),
{
    if a.len() > 0 && b.len() > 0 && a[0] == b[0] {
        lemma_comes_first_one_way(a.drop_first(), b.drop_first());
        if a == b {
            assert(a.drop_first() == b.drop_first());
        }
    }
}

/// Of two different texts one comes before the other.
pub proof fn lemma_comes_first_total(a: Seq<char>, b: Seq<char>)
    ensures
        a == b || comes_first(a, b) || comes_first(b, a),
    decreases a.len(),
{
    if a.len() > 0 && b.len() > 0 && a[0] == b[0] {
        lemma_comes_first_total(a.drop_first(), b.drop_first());
        if a.drop_first() == b.drop_first() {
            assert(a == seq![a[0]] + a.drop_first());
            assert(b == seq![b[0]] + b.drop_first());
        }
    } else if a.len() == 0 && b.len() == 0 {
        assert(a == b);
    }
}

/// What comes before a text comes before all that the text comes before.
pub proof fn lemma_comes_first_chain(a: Seq<char>, b: Seq<char>, c: Seq<char>)
    requires
        comes_first(a, b),
        comes_first(b, c),
    ensures
        comes_first(a, c),
    decreases a.len(),
{
    if a.len() > 0 && b.len() > 0 && c.len() > 0 && a[0] == b[0] && b[0] == c[0] {
        lemma_comes_first_chain(a.drop_first(), b.drop_first(), c.drop_first());
    }
}

} // verus!
