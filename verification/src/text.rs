//! Plain text handling shared by the puzzle modules: characters, pieces, lines and numbers.
//!
//! Every puzzle reads its input as a `&str`. The text is first turned into its
//! characters; all further work is done on character sequences, and the
//! contracts speak of `Seq<char>`.
use vstd::prelude::*;

verus! {

/// The views of a vector of character vectors.
pub open spec fn texts(v: Seq<Vec<char>>) -> Seq<Seq<char>> {
    Seq::new(v.len(), |i: int| v[i]@)
}

/// The characters of `s`, in order.
pub fn to_chars(s: &str) -> (out: Vec<char>)
    ensures
        out@ == s@,
{
    let mut out: Vec<char> = Vec::new();
    for c in it: s.chars()
        invariant
            it.seq() == s@,
            out@ =~= it.seq().take(it.index() as int),
    {
        out.push(c);
    }
    assert(out@ =~= s@);
    out
}

/// A copy of the characters of `s` from `from` up to, not including, `to`.
pub fn copy_range(s: &[char], from: usize, to: usize) -> (out: Vec<char>)
    requires
        from <= to <= s@.len(),
    ensures
        out@ == s@.subrange(from as int, to as int),
{
    let mut out: Vec<char> = Vec::new();
    let mut i: usize = from;
    while i < to
        invariant
            from <= i <= to <= s@.len(),
            out@ =~= s@.subrange(from as int, i as int),
        decreases to - i,
    {
        out.push(s[i]);
        i += 1;
    }
    out
}

/// Whether two character sequences are the same.
pub fn same_chars(a: &[char], b: &[char]) -> (r: bool)
    ensures
        r == (a@ == b@),
{
    if a.len() != b.len() {
        return false;
    }
    let mut i: usize = 0;
    while i < a.len()
        invariant
            i <= a@.len(),
            a@.len() == b@.len(),
            a@.take(i as int) =~= b@.take(i as int),
        decreases a@.len() - i,
    {
        if a[i] != b[i] {
            return false;
        }
        proof {
            assert(a@.take(i + 1) =~= a@.take(i as int).push(a@[i as int]));
            assert(b@.take(i + 1) =~= b@.take(i as int).push(b@[i as int]));
        }
        i += 1;
    }
    proof {
        assert(a@.take(a@.len() as int) =~= a@);
        assert(b@.take(b@.len() as int) =~= b@);
    }
    true
}

/// Whether `a` holds exactly the characters of the text `word`.
pub fn is_word(a: &[char], word: &str) -> (r: bool)
    ensures
        r == (a@ == word@),
{
    let w = to_chars(word);
    same_chars(a, w.as_slice())
}

/// The pieces of `s` that lie between the occurrences of `sep`, in order.
///
/// There is always at least one piece: a text without `sep` is its own single
/// piece, and `n` separators give `n + 1` pieces, some of which may be empty.
/// It is defined by the last character: a separator opens a new, empty piece,
/// any other character is added to the last piece.
pub open spec fn split(s: Seq<char>, sep: char) -> Seq<Seq<char>>
    decreases s.len(),
{
    if s.len() == 0 {
        seq![Seq::<char>::empty()]
    } else {
        let before = split(s.drop_last(), sep);
        if s.last() == sep {
            before.push(Seq::<char>::empty())
        } else {
            before.drop_last().push(before.last().push(s.last()))
        }
    }
}

/// A split always has at least one piece.
pub proof fn split_is_not_empty(s: Seq<char>, sep: char)
    ensures
        split(s, sep).len() >= 1,
    decreases s.len(),
{
    if s.len() > 0 {
        split_is_not_empty(s.drop_last(), sep);
    }
}

/// No piece of a split holds the separator.
pub proof fn split_pieces_lack_separator(s: Seq<char>, sep: char)
    ensures
        forall|k: int, j: int|
            0 <= k < split(s, sep).len() && 0 <= j < split(s, sep)[k].len() ==> split(
                s,
                sep,
            )[k][j] != sep,
    decreases s.len(),
{
    if s.len() > 0 {
        split_pieces_lack_separator(s.drop_last(), sep);
        split_is_not_empty(s.drop_last(), sep);
    }
}

/// The sum of the lengths of the pieces.
pub open spec fn total_len(pieces: Seq<Seq<char>>) -> nat
    decreases pieces.len(),
{
    if pieces.len() == 0 {
        0
    } else {
        total_len(pieces.drop_last()) + pieces.last().len()
    }
}

/// The pieces of a split and the separators between them make up the whole text.
pub proof fn split_covers_text(s: Seq<char>, sep: char)
    ensures
        total_len(split(s, sep)) + split(s, sep).len() == s.len() + 1,
    decreases s.len(),
{
    if s.len() == 0 {
        assert(split(s, sep).drop_last() =~= Seq::<Seq<char>>::empty());
        assert(total_len(split(s, sep).drop_last()) == 0);
    } else {
        let before = split(s.drop_last(), sep);
        split_covers_text(s.drop_last(), sep);
        split_is_not_empty(s.drop_last(), sep);
        if s.last() == sep {
            assert(before.push(Seq::<char>::empty()).drop_last() =~= before);
        } else {
            let after = before.drop_last().push(before.last().push(s.last()));
            assert(after.drop_last() =~= before.drop_last());
        }
    }
}

/// Splits `s` at every occurrence of `sep`.
pub fn split_at_char(s: &[char], sep: char) -> (out: Vec<Vec<char>>)
    ensures
        texts(out@) == split(s@, sep),
{
    let mut out: Vec<Vec<char>> = Vec::new();
    let mut piece: Vec<char> = Vec::new();
    let mut i: usize = 0;
    while i < s.len()
        invariant
            i <= s@.len(),
            texts(out@).push(piece@) =~= split(s@.take(i as int), sep),
        decreases s@.len() - i,
    {
        let c = s[i];
        proof {
            assert(s@.take(i + 1).drop_last() =~= s@.take(i as int));
            assert(s@.take(i + 1).last() == c);
        }
        let ghost done = texts(out@);
        let ghost last = piece@;
        if c == sep {
            out.push(piece);
            piece = Vec::new();
            assert(texts(out@) =~= done.push(last));
        } else {
            piece.push(c);
            assert(done.push(last).drop_last() =~= done);
        }
        i += 1;
    }
    proof {
        assert(s@.take(s@.len() as int) =~= s@);
    }
    let ghost done = texts(out@);
    let ghost last = piece@;
    out.push(piece);
    assert(texts(out@) =~= done.push(last));
    out
}

/// A line without the carriage return that may end it.
pub open spec fn without_return(line: Seq<char>) -> Seq<char> {
    if line.len() > 0 && line.last() == '\r' {
        line.drop_last()
    } else {
        line
    }
}

/// The lines of a text.
///
/// A line ends with a line feed, or with a carriage return followed by a line
/// feed; neither belongs to the line. What follows the last line feed is a
/// line too, unless it is empty.
pub open spec fn lines(s: Seq<char>) -> Seq<Seq<char>> {
    let pieces = split(s, '\n');
    let ended = Seq::new((pieces.len() - 1) as nat, |i: int| without_return(pieces[i]));
    if pieces.last().len() == 0 {
        ended
    } else {
        ended.push(pieces.last())
    }
}

/// The lines of a text are never longer, taken together, than the text.
pub proof fn lines_fit_in_text(s: Seq<char>)
    ensures
        total_len(lines(s)) <= s.len(),
{
    let pieces = split(s, '\n');
    split_is_not_empty(s, '\n');
    split_covers_text(s, '\n');
    let ended = Seq::new((pieces.len() - 1) as nat, |i: int| without_return(pieces[i]));
    shorter_pieces_are_shorter(ended, pieces.drop_last());
    if pieces.last().len() != 0 {
        assert(ended.push(pieces.last()).drop_last() =~= ended);
    }
}

/// Pieces that are each no longer than their counterparts are no longer in total.
pub proof fn shorter_pieces_are_shorter(a: Seq<Seq<char>>, b: Seq<Seq<char>>)
    requires
        a.len() == b.len(),
        forall|i: int| 0 <= i < a.len() ==> a[i].len() <= b[i].len(),
    ensures
        total_len(a) <= total_len(b),
    decreases a.len(),
{
    if a.len() > 0 {
        shorter_pieces_are_shorter(a.drop_last(), b.drop_last());
    }
}

/// The lines of `s`.
pub fn split_lines(s: &[char]) -> (out: Vec<Vec<char>>)
    ensures
        texts(out@) == lines(s@),
{
    let pieces = split_at_char(s, '\n');
    proof {
        split_is_not_empty(s@, '\n');
    }
    let ghost all = split(s@, '\n');
    let mut out: Vec<Vec<char>> = Vec::new();
    let ended = pieces.len() - 1;
    let mut i: usize = 0;
    while i < ended
        invariant
            i <= ended == pieces@.len() - 1,
            texts(pieces@) == all,
            texts(out@) =~= Seq::new(i as nat, |k: int| without_return(all[k])),
        decreases ended - i,
    {
        let piece = &pieces[i];
        assert(piece@ == all[i as int]);
        let n = piece.len();
        let line = if n > 0 && piece[n - 1] == '\r' {
            copy_range(piece.as_slice(), 0, n - 1)
        } else {
            copy_range(piece.as_slice(), 0, n)
        };
        assert(line@ =~= without_return(all[i as int]));
        let ghost before = texts(out@);
        out.push(line);
        assert(texts(out@) =~= before.push(line@));
        i += 1;
    }
    let last = &pieces[ended];
    assert(last@ == all.last());
    if last.len() > 0 {
        let line = copy_range(last.as_slice(), 0, last.len());
        assert(line@ =~= all.last());
        let ghost before = texts(out@);
        out.push(line);
        assert(texts(out@) =~= before.push(line@));
    }
    assert(texts(out@) =~= lines(s@));
    out
}

/// The pieces that are not empty, in order.
pub open spec fn non_empty(pieces: Seq<Seq<char>>) -> Seq<Seq<char>>
    decreases pieces.len(),
{
    if pieces.len() == 0 {
        pieces
    } else if pieces.last().len() > 0 {
        non_empty(pieces.drop_last()).push(pieces.last())
    } else {
        non_empty(pieces.drop_last())
    }
}

/// The words of `s`: the pieces between occurrences of `sep` that are not empty.
pub open spec fn words(s: Seq<char>, sep: char) -> Seq<Seq<char>> {
    non_empty(split(s, sep))
}

/// Leaves out the empty pieces.
pub fn keep_non_empty(pieces: Vec<Vec<char>>) -> (out: Vec<Vec<char>>)
    ensures
        texts(out@) == non_empty(texts(pieces@)),
{
    let ghost all = texts(pieces@);
    let mut out: Vec<Vec<char>> = Vec::new();
    let mut i: usize = 0;
    while i < pieces.len()
        invariant
            i <= pieces@.len(),
            all == texts(pieces@),
            texts(out@) =~= non_empty(all.take(i as int)),
        decreases pieces@.len() - i,
    {
        proof {
            assert(all.take(i + 1).drop_last() =~= all.take(i as int));
            assert(all.take(i + 1).last() == pieces@[i as int]@);
        }
        if pieces[i].len() > 0 {
            let piece = copy_range(pieces[i].as_slice(), 0, pieces[i].len());
            assert(piece@ =~= pieces@[i as int]@);
            let ghost before = texts(out@);
            out.push(piece);
            assert(texts(out@) =~= before.push(piece@));
        }
        i += 1;
    }
    proof {
        assert(all.take(pieces@.len() as int) =~= all);
    }
    out
}

/// The words of `s`: the pieces between occurrences of `sep` that are not empty.
pub fn split_words(s: &[char], sep: char) -> (out: Vec<Vec<char>>)
    ensures
        texts(out@) == words(s@, sep),
{
    keep_non_empty(split_at_char(s, sep))
}

/// Whether `c` is one of the ten decimal digits.
pub open spec fn is_digit(c: char) -> bool {
    '0' <= c <= '9'
}

/// The number that a decimal digit stands for.
pub open spec fn digit_value(c: char) -> nat {
    (c as u32 - '0' as u32) as nat
}

/// Whether the text is made of decimal digits, and of at least one.
pub open spec fn is_number(s: Seq<char>) -> bool {
    s.len() > 0 && forall|i: int| 0 <= i < s.len() ==> is_digit(#[trigger] s[i])
}

/// The number that a text of decimal digits stands for.
pub open spec fn decimal(s: Seq<char>) -> nat
    decreases s.len(),
{
    if s.len() == 0 {
        0
    } else {
        decimal(s.drop_last()) * 10 + digit_value(s.last())
    }
}

/// The digits of the text of an unsigned number: a plus sign may stand before them.
pub open spec fn unsigned_digits(s: Seq<char>) -> Seq<char> {
    if s.len() > 0 && s[0] == '+' {
        s.skip(1)
    } else {
        s
    }
}

/// Whether the text stands for an unsigned number that is not above `max`:
/// decimal digits, at least one, with or without a plus sign before them.
pub open spec fn is_unsigned(s: Seq<char>, max: nat) -> bool {
    is_number(unsigned_digits(s)) && decimal(unsigned_digits(s)) <= max
}

/// The number that the text of an unsigned number stands for.
pub open spec fn unsigned_value(s: Seq<char>) -> nat {
    decimal(unsigned_digits(s))
}

/// A number does not get smaller when digits are added to its text.
pub proof fn decimal_grows(s: Seq<char>, n: int)
    requires
        0 <= n <= s.len(),
    ensures
        decimal(s.take(n)) <= decimal(s),
    decreases s.len() - n,
{
    if n < s.len() {
        decimal_grows(s, n + 1);
        assert(s.take(n + 1).drop_last() =~= s.take(n));
    } else {
        assert(s.take(n) =~= s);
    }
}

/// The number that the decimal digits `s` stand for, if it is not above `u64::MAX`.
pub fn parse_digits(s: &[char]) -> (r: Option<u64>)
    ensures
        r is Some == (is_number(s@) && decimal(s@) <= u64::MAX),
        r is Some ==> r.unwrap() == decimal(s@),
{
    if s.len() == 0 {
        return None;
    }
    let mut value: u64 = 0;
    let mut i: usize = 0;
    while i < s.len()
        invariant
            i <= s@.len(),
            forall|k: int| 0 <= k < i ==> is_digit(#[trigger] s@[k]),
            value == decimal(s@.take(i as int)),
        decreases s@.len() - i,
    {
        let c = s[i];
        if !(c >= '0' && c <= '9') {
            return None;
        }
        let digit = (c as u32 - '0' as u32) as u64;
        proof {
            assert(s@.take(i + 1).drop_last() =~= s@.take(i as int));
            decimal_grows(s@, i + 1);
        }
        if value > (u64::MAX - digit) / 10 {
            return None;
        }
        value = value * 10 + digit;
        i += 1;
    }
    proof {
        assert(s@.take(s@.len() as int) =~= s@);
    }
    Some(value)
}

/// The unsigned number that the text stands for, if it stands for one that
/// is not above `max`.
pub fn parse_unsigned(s: &[char], max: u64) -> (r: Option<u64>)
    ensures
        r is Some == is_unsigned(s@, max as nat),
        r is Some ==> r.unwrap() == unsigned_value(s@),
{
    let digits = if s.len() > 0 && s[0] == '+' {
        copy_range(s, 1, s.len())
    } else {
        copy_range(s, 0, s.len())
    };
    assert(digits@ =~= unsigned_digits(s@));
    match parse_digits(digits.as_slice()) {
        Some(value) => if value <= max {
            Some(value)
        } else {
            None
        },
        None => None,
    }
}

/// Whether `c` is white space, as `char::is_whitespace` tells.
pub uninterp spec fn white_space(c: char) -> bool;

/// Whether `c` is white space. This is `char::is_whitespace`: it tells whether
/// the character has the Unicode property White_Space. The contract only
/// gives that answer its name.
#[verifier::external_body]
pub(crate) fn is_white_space(c: char) -> (b: bool)
    ensures
        b == white_space(c),
{
    c.is_whitespace()
}

/// The text without the characters at its end that `drop` holds of.
pub open spec fn strip_end(s: Seq<char>, drop: spec_fn(char) -> bool) -> Seq<char>
    decreases s.len(),
{
    if s.len() > 0 && drop(s.last()) {
        strip_end(s.drop_last(), drop)
    } else {
        s
    }
}

/// The text without the characters at its start that `drop` holds of.
pub open spec fn strip_start(s: Seq<char>, drop: spec_fn(char) -> bool) -> Seq<char>
    decreases s.len(),
{
    if s.len() > 0 && drop(s.first()) {
        strip_start(s.drop_first(), drop)
    } else {
        s
    }
}

/// The text without the white space at its start and at its end.
pub open spec fn trimmed(s: Seq<char>) -> Seq<char> {
    strip_end(strip_start(s, |c: char| white_space(c)), |c: char| white_space(c))
}

/// The text without the white space at its start and at its end.
pub fn trim(s: &[char]) -> (out: Vec<char>)
    ensures
        out@ == trimmed(s@),
{
    let ghost drop = |c: char| white_space(c);
    let mut from: usize = 0;
    proof {
        assert(s@.skip(0) =~= s@);
    }
    while from < s.len() && is_white_space(s[from])
        invariant
            from <= s@.len(),
            drop == |c: char| white_space(c),
            strip_start(s@, drop) == strip_start(s@.skip(from as int), drop),
        decreases s@.len() - from,
    {
        proof {
            assert(s@.skip(from as int).drop_first() =~= s@.skip(from + 1));
        }
        from += 1;
    }
    assert(strip_start(s@, drop) =~= s@.skip(from as int));
    let mut to: usize = s.len();
    proof {
        assert(s@.subrange(from as int, to as int) =~= s@.skip(from as int));
    }
    while to > from && is_white_space(s[to - 1])
        invariant
            from <= to <= s@.len(),
            drop == |c: char| white_space(c),
            strip_end(s@.skip(from as int), drop) == strip_end(s@.subrange(from as int, to as int), drop),
        decreases to,
    {
        proof {
            assert(s@.subrange(from as int, to as int).drop_last() =~= s@.subrange(
                from as int,
                to - 1,
            ));
        }
        to -= 1;
    }
    copy_range(s, from, to)
}

/// The text without the characters `c` at its start.
pub fn trim_start_matches(s: &[char], c: char) -> (out: Vec<char>)
    ensures
        out@ == strip_start(s@, |x: char| x == c),
{
    let ghost drop = |x: char| x == c;
    let mut from: usize = 0;
    proof {
        assert(s@.skip(0) =~= s@);
    }
    while from < s.len() && s[from] == c
        invariant
            from <= s@.len(),
            drop == |x: char| x == c,
            strip_start(s@, drop) == strip_start(s@.skip(from as int), drop),
        decreases s@.len() - from,
    {
        proof {
            assert(s@.skip(from as int).drop_first() =~= s@.skip(from + 1));
        }
        from += 1;
    }
    assert(strip_start(s@, drop) =~= s@.skip(from as int));
    copy_range(s, from, s.len())
}

/// The text without the characters `c` at its end.
pub fn trim_end_matches(s: &[char], c: char) -> (out: Vec<char>)
    ensures
        out@ == strip_end(s@, |x: char| x == c),
{
    let ghost drop = |x: char| x == c;
    let mut to: usize = s.len();
    proof {
        assert(s@.take(to as int) =~= s@);
    }
    while to > 0 && s[to - 1] == c
        invariant
            to <= s@.len(),
            drop == |x: char| x == c,
            strip_end(s@, drop) == strip_end(s@.take(to as int), drop),
        decreases to,
    {
        proof {
            assert(s@.take(to as int).drop_last() =~= s@.take(to - 1));
        }
        to -= 1;
    }
    copy_range(s, 0, to)
}

/// Whether an empty line begins at position `i` of the text: a line feed
/// there, and another one behind it.
pub open spec fn gap_at(s: Seq<char>, i: int) -> bool {
    0 <= i && i + 1 < s.len() && s[i] == '\n' && s[i + 1] == '\n'
}

/// The first position from `i` on at which a gap begins, or the length of the
/// text if there is none.
pub open spec fn next_gap(s: Seq<char>, i: int) -> int
    decreases s.len() - i,
{
    if i < 0 || i >= s.len() {
        s.len() as int
    } else if gap_at(s, i) {
        i
    } else {
        next_gap(s, i + 1)
    }
}

/// The blocks of a text: what stands between two line feeds in a row. The line
/// feeds are taken in pairs from the front, so of three in a row the third
/// begins the next block.
pub open spec fn blocks(s: Seq<char>) -> Seq<Seq<char>>
    decreases s.len(),
{
    let i = next_gap(s, 0);
    if 0 <= i && i + 1 < s.len() {
        seq![s.take(i)] + blocks(s.skip(i + 2))
    } else {
        seq![s]
    }
}

/// Where a gap begins, there is the next gap.
pub proof fn next_gap_is_a_gap(s: Seq<char>, i: int)
    requires
        0 <= i,
    ensures
        i <= next_gap(s, i) || i >= s.len(),
        next_gap(s, i) <= s.len(),
        next_gap(s, i) < s.len() ==> gap_at(s, next_gap(s, i)),
        forall|k: int| i <= k < next_gap(s, i) ==> !gap_at(s, k),
    decreases s.len() - i,
{
    if i < s.len() && !gap_at(s, i) {
        next_gap_is_a_gap(s, i + 1);
    }
}

/// The first gap of what follows position `from` is the first gap from there on.
proof fn next_gap_of_the_rest(s: Seq<char>, from: int, i: int)
    requires
        0 <= from <= i <= s.len(),
    ensures
        next_gap(s.skip(from), i - from) == next_gap(s, i) - from,
    decreases s.len() - i,
{
    let rest = s.skip(from);
    if i < s.len() {
        assert(gap_at(rest, i - from) == gap_at(s, i));
        if !gap_at(s, i) {
            next_gap_of_the_rest(s, from, i + 1);
        }
    }
}

/// The blocks of `s`.
pub fn split_blocks(s: &[char]) -> (out: Vec<Vec<char>>)
    ensures
        texts(out@) == blocks(s@),
{
    let mut out: Vec<Vec<char>> = Vec::new();
    let mut from: usize = 0;
    let mut i: usize = 0;
    proof {
        assert(s@.skip(0) =~= s@);
    }
    while i < s.len()
        invariant
            from <= i <= s@.len(),
            forall|k: int| from <= k < i ==> !gap_at(s@, k),
            blocks(s@) == texts(out@) + blocks(s@.skip(from as int)),
        decreases s@.len() - i,
    {
        if s[i] == '\n' && i + 1 < s.len() && s[i + 1] == '\n' {
            let ghost rest = s@.skip(from as int);
            let ghost done = texts(out@);
            proof {
                assert(gap_at(s@, i as int));
                next_gap_is_a_gap(s@, from as int);
                next_gap_of_the_rest(s@, from as int, from as int);
                assert(next_gap(s@, from as int) == i);
                assert(rest.take(i - from) =~= s@.subrange(from as int, i as int));
                assert(rest.skip(i - from + 2) =~= s@.skip(i + 2));
            }
            let block = copy_range(s, from, i);
            out.push(block);
            proof {
                assert(texts(out@) =~= done + seq![rest.take(i - from)]);
                assert(done + (seq![rest.take(i - from)] + blocks(s@.skip(i + 2))) =~= (done
                    + seq![rest.take(i - from)]) + blocks(s@.skip(i + 2)));
            }
            from = i + 2;
            i = i + 2;
        } else {
            i += 1;
        }
    }
    let ghost rest = s@.skip(from as int);
    let ghost done = texts(out@);
    proof {
        next_gap_is_a_gap(s@, from as int);
        next_gap_of_the_rest(s@, from as int, from as int);
        assert(next_gap(s@, from as int) == s@.len());
        assert(rest =~= s@.subrange(from as int, s@.len() as int));
    }
    let block = copy_range(s, from, s.len());
    out.push(block);
    proof {
        assert(texts(out@) =~= done + seq![rest]);
    }
    out
}

/// The number that the text of a signed number stands for: decimal digits with
/// or without a plus or a minus sign before them.
pub open spec fn signed_value(s: Seq<char>) -> int {
    if s.len() > 0 && s[0] == '-' {
        -(decimal(s.skip(1)) as int)
    } else {
        decimal(unsigned_digits(s)) as int
    }
}

/// Whether the text stands for a signed number of 64 bits: decimal digits, at
/// least one, with or without a plus or a minus sign before them, and a value
/// from `i64::MIN` to `i64::MAX`.
pub open spec fn is_signed(s: Seq<char>) -> bool {
    &&& if s.len() > 0 && s[0] == '-' {
        is_number(s.skip(1))
    } else {
        is_number(unsigned_digits(s))
    }
    &&& i64::MIN <= signed_value(s) <= i64::MAX
}

/// The signed number that the text stands for, if it stands for one of 64 bits.
pub fn parse_signed(s: &[char]) -> (r: Option<i64>)
    ensures
        r is Some == is_signed(s@),
        r is Some ==> r.unwrap() == signed_value(s@),
{
    if s.len() > 0 && s[0] == '-' {
        let digits = copy_range(s, 1, s.len());
        assert(digits@ =~= s@.skip(1));
        match parse_digits(digits.as_slice()) {
            Some(value) => {
                if value <= 0x7fff_ffff_ffff_ffff {
                    Some(-(value as i64))
                } else if value == 0x8000_0000_0000_0000 {
                    Some(i64::MIN)
                } else {
                    None
                }
            },
            None => None,
        }
    } else {
        match parse_unsigned(s, 0x7fff_ffff_ffff_ffff) {
            Some(value) => Some(value as i64),
            None => None,
        }
    }
}

/// Whether `c` is numeric, as `char::is_numeric` tells.
pub uninterp spec fn numeric(c: char) -> bool;

/// Whether `c` is numeric. This is `char::is_numeric`: it tells whether the
/// character has one of the general categories for numbers of Unicode. The
/// contract only gives that answer its name.
#[verifier::external_body]
pub(crate) fn is_numeric(c: char) -> (b: bool)
    ensures
        b == numeric(c),
{
    c.is_numeric()
}

/// Whether `c` is alphanumeric, as `char::is_alphanumeric` tells.
pub uninterp spec fn alphanumeric(c: char) -> bool;

/// Whether `c` is alphanumeric. This is `char::is_alphanumeric`: it tells
/// whether the character is alphabetic or numeric by the categories of
/// Unicode. The contract only gives that answer its name.
#[verifier::external_body]
pub(crate) fn is_alphanumeric(c: char) -> (b: bool)
    ensures
        b == alphanumeric(c),
{
    c.is_alphanumeric()
}

/// Whether all characters of the text are numeric.
pub open spec fn all_numeric(s: Seq<char>) -> bool {
    forall|i: int| 0 <= i < s.len() ==> numeric(#[trigger] s[i])
}

/// Whether all characters of the text are numeric.
pub fn is_all_numeric(s: &[char]) -> (b: bool)
    ensures
        b == all_numeric(s@),
{
    let mut i: usize = 0;
    while i < s.len()
        invariant
            i <= s@.len(),
            forall|k: int| 0 <= k < i ==> numeric(#[trigger] s@[k]),
        decreases s@.len() - i,
    {
        if !is_numeric(s[i]) {
            return false;
        }
        i += 1;
    }
    true
}

} // verus!
