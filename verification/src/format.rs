use crate::error::MazeParseError;
use crate::tile::Tile;
use vstd::prelude::*;

verus! {

/// What a well-formed description says: the four numbers of its header and
/// the tiles of its grid, row by row.
pub struct Description {
    pub width: nat,
    pub height: nat,
    pub start: nat,
    pub goal: nat,
    pub tiles: Seq<Tile>,
}

/// `c` is one of the ten decimal digits.
pub open spec fn is_digit(c: char) -> bool {
    '0' <= c <= '9'
}

/// The number that a run of decimal digits denotes.
pub open spec fn decimal(digits: Seq<char>) -> nat
    decreases digits.len(),
{
    if digits.len() == 0 {
        0
    } else {
        decimal(digits.drop_last()) * 10 + (digits.last() as nat - '0' as nat) as nat
    }
}

/// Where the digits that begin at `at` end: the first place from `at` on that
/// holds no digit.
pub open spec fn digits_end(s: Seq<char>, at: int) -> int
    decreases s.len() - at,
{
    if 0 <= at < s.len() && is_digit(s[at]) {
        digits_end(s, at + 1)
    } else {
        at
    }
}

/// One field of the header, read at `at`: the letter `marker`, then at least
/// one digit and as many as follow, which denote a number that fits the
/// machine's word. The result is that number and the place where the field ends.
pub open spec fn field(s: Seq<char>, at: int, marker: char) -> Option<(nat, int)> {
    let end = digits_end(s, at + 1);
    if 0 <= at < s.len() && s[at] == marker && end > at + 1 && decimal(s.subrange(at + 1, end))
        <= usize::MAX {
        Some((decimal(s.subrange(at + 1, end)), end))
    } else {
        None
    }
}

/// The first `#` of the description is its last character.
pub open spec fn stops_at_hash(s: Seq<char>) -> bool {
    &&& s.len() > 0
    &&& s.last() == '#'
    &&& forall|i: int| 0 <= i < s.len() - 1 ==> s[i] != '#'
}

/// The tiles that a run of tile characters stands for, if each of them is
/// `'0'` or `'1'`.
pub open spec fn tiles_of(run: Seq<char>) -> Option<Seq<Tile>> {
    if forall|i: int| 0 <= i < run.len() ==> Tile::of_char(#[trigger] run[i]) is Some {
        Some(Seq::new(run.len(), |i: int| Tile::of_char(run[i])->0))
    } else {
        None
    }
}

/// The header of a description: its four numbers, and the place where it ends.
pub struct Header {
    pub width: nat,
    pub height: nat,
    pub start: nat,
    pub goal: nat,
    pub end: int,
}

/// The header that a description begins with: the fields `w`, `h`, `s` and
/// `g`, one after the other from the first character on.
pub open spec fn header(s: Seq<char>) -> Option<Header> {
    match field(s, 0, 'w') {
        None => None,
        Some((width, a)) => match field(s, a, 'h') {
            None => None,
            Some((height, b)) => match field(s, b, 's') {
                None => None,
                Some((start, c)) => match field(s, c, 'g') {
                    None => None,
                    Some((goal, end)) => Some(Header { width, height, start, goal, end }),
                },
            },
        },
    }
}

/// What the part of a description after its header `h` gives: a `#` is due
/// where the header ends, and tile characters from there to the end.
pub open spec fn describe_grid(s: Seq<char>, h: Header) -> Result<Description, MazeParseError> {
    if !(0 <= h.end < s.len() && s[h.end] == '#') {
        Err(MazeParseError::InvalidToken)
    } else {
        match tiles_of(s.subrange(h.end + 1, s.len() as int)) {
            None => Err(MazeParseError::InvalidToken),
            Some(tiles) => if tiles.len() != h.width * h.height {
                Err(MazeParseError::InvalidSize)
            } else {
                Ok(
                    Description {
                        width: h.width,
                        height: h.height,
                        start: h.start,
                        goal: h.goal,
                        tiles,
                    },
                )
            },
        }
    }
}

/// What a description of the form `w<W>h<H>s<S>g<G>#<tiles>` gives.
///
/// A description whose first `#` is its last character ends unexpectedly,
/// whatever stands before. Otherwise the four fields, the `#` and the tile
/// characters are read from left to right, and the first that is not as the
/// form asks is an invalid token. The number of tiles is compared with width
/// times height last.
pub open spec fn describe(s: Seq<char>) -> Result<Description, MazeParseError> {
    if stops_at_hash(s) {
        Err(MazeParseError::UnexpectedEnding)
    } else {
        match header(s) {
            None => Err(MazeParseError::InvalidToken),
            Some(h) => describe_grid(s, h),
        }
    }
}

/// A description that ends with its only `#` ends unexpectedly.
pub proof fn lemma_ends_at_hash(s: Seq<char>)
    requires
        s.len() > 0,
        s.last() == '#',
        forall|i: int| 0 <= i < s.len() - 1 ==> s[i] != '#',
    ensures
        describe(s) == Err::<Description, MazeParseError>(MazeParseError::UnexpectedEnding),
{
}

/// After a good header and `#`, a tile run whose characters are all good but
/// whose length is not width times height has an invalid size.
pub proof fn lemma_wrong_length(s: Seq<char>, h: Header)
    requires
        !stops_at_hash(s),
        header(s) == Some(h),
        0 <= h.end < s.len(),
        s[h.end] == '#',
        forall|i: int| h.end < i < s.len() ==> Tile::of_char(#[trigger] s[i]) is Some,
        s.len() - h.end - 1 != h.width * h.height,
    ensures
        describe(s) == Err::<Description, MazeParseError>(MazeParseError::InvalidSize),
{
    let at = h.end;
    let run = s.subrange(at + 1, s.len() as int);
    assert forall|i: int| 0 <= i < run.len() implies Tile::of_char(#[trigger] run[i]) is Some by {
        assert(run[i] == s[at + 1 + i]);
    }
}

/// A character other than `'0'` and `'1'` after the first `#` is an invalid
/// token, whatever stands before the `#` and however long the run is.
pub proof fn lemma_wrong_tile(s: Seq<char>, hash: int, i: int)
    requires
        0 <= hash < i < s.len(),
        s[hash] == '#',
        forall|k: int| 0 <= k < hash ==> s[k] != '#',
        s[i] != '0' && s[i] != '1',
    ensures
        describe(s) == Err::<Description, MazeParseError>(MazeParseError::InvalidToken),
{
    assert(!stops_at_hash(s));
    if header(s) is Some {
        let at = (header(s)->0).end;
        lemma_header_has_no_hash(s);
        if at < s.len() && s[at] == '#' {
            assert(at == hash);
            let run = s.subrange(at + 1, s.len() as int);
            assert(run[i - at - 1] == s[i]);
            assert(Tile::of_char(run[i - at - 1]) is None);
        }
    }
}

/// `digits` is a number as a header holds it: at least one digit, nothing but
/// digits, and of a value that fits the machine's word.
pub open spec fn is_number(digits: Seq<char>) -> bool {
    &&& digits.len() > 0
    &&& forall|i: int| 0 <= i < digits.len() ==> is_digit(#[trigger] digits[i])
    &&& decimal(digits) <= usize::MAX
}

/// One field as it is written: the marker, then the digits.
pub open spec fn written_field(marker: char, digits: Seq<char>) -> Seq<char> {
    seq![marker] + digits
}

/// A description as it is written, from the digits of its four numbers and
/// its tile characters.
pub open spec fn written(
    width: Seq<char>,
    height: Seq<char>,
    start: Seq<char>,
    goal: Seq<char>,
    run: Seq<char>,
) -> Seq<char> {
    written_field('w', width) + written_field('h', height) + written_field('s', start)
        + written_field('g', goal) + seq!['#'] + run
}

/// A field that is written at `at`, and followed by something other than a
/// digit, is read back as its number.
proof fn lemma_reads_field(s: Seq<char>, at: int, marker: char, digits: Seq<char>)
    requires
        is_number(digits),
        0 <= at,
        at + 1 + digits.len() < s.len(),
        s.subrange(at, at + 1 + digits.len()) == written_field(marker, digits),
        !is_digit(s[at + 1 + digits.len()]),
    ensures
        field(s, at, marker) == Some((decimal(digits), at + 1 + digits.len())),
{
    let end = at + 1 + digits.len();
    let part = s.subrange(at, end);
    assert(part[0] == marker);
    assert forall|k: int| at + 1 <= k < end implies is_digit(#[trigger] s[k]) by {
        assert(part[k - at] == digits[k - at - 1]);
    }
    lemma_digits_end(s, at + 1, end);
    assert(s.subrange(at + 1, end) =~= digits) by {
        assert forall|k: int| 0 <= k < digits.len() implies s.subrange(at + 1, end)[k]
            == digits[k] by {
            assert(part[k + 1] == digits[k]);
        }
    }
}

/// Every description that is written as the form asks, with as many tile
/// characters as width times height and at least one, is accepted, and gives
/// the numbers and tiles that were written.
pub proof fn lemma_accepts_written(
    width: Seq<char>,
    height: Seq<char>,
    start: Seq<char>,
    goal: Seq<char>,
    run: Seq<char>,
)
    requires
        is_number(width),
        is_number(height),
        is_number(start),
        is_number(goal),
        tiles_of(run) is Some,
        run.len() > 0,
        run.len() == decimal(width) * decimal(height),
    ensures
        describe(written(width, height, start, goal, run)) == Ok::<Description, MazeParseError>(
            Description {
                width: decimal(width),
                height: decimal(height),
                start: decimal(start),
                goal: decimal(goal),
                tiles: tiles_of(run)->0,
            },
        ),
{
    let s = written(width, height, start, goal, run);
    let a = 1 + width.len() as int;
    let b = a + 1 + height.len();
    let c = b + 1 + start.len();
    let d = c + 1 + goal.len();
    assert(s.subrange(0, a) =~= written_field('w', width));
    assert(s.subrange(a, b) =~= written_field('h', height));
    assert(s.subrange(b, c) =~= written_field('s', start));
    assert(s.subrange(c, d) =~= written_field('g', goal));
    assert(s[a] == 'h' && s[b] == 's' && s[c] == 'g' && s[d] == '#');
    assert(s.subrange(d + 1, s.len() as int) =~= run);
    lemma_reads_field(s, 0, 'w', width);
    lemma_reads_field(s, a, 'h', height);
    lemma_reads_field(s, b, 's', start);
    lemma_reads_field(s, c, 'g', goal);
    assert(!stops_at_hash(s));
}

/// `s` is written as the form asks, from the digits of four numbers and a
/// run of tile characters that is as long as width times height.
pub open spec fn is_written_from(
    s: Seq<char>,
    width: Seq<char>,
    height: Seq<char>,
    start: Seq<char>,
    goal: Seq<char>,
    run: Seq<char>,
) -> bool {
    &&& s == written(width, height, start, goal, run)
    &&& is_number(width)
    &&& is_number(height)
    &&& is_number(start)
    &&& is_number(goal)
    &&& tiles_of(run) is Some
    &&& run.len() == decimal(width) * decimal(height)
}

/// Only descriptions that are written as the form asks are accepted.
pub proof fn lemma_accepted_is_written(s: Seq<char>)
    requires
        describe(s) is Ok,
    ensures
        exists|
            width: Seq<char>,
            height: Seq<char>,
            start: Seq<char>,
            goal: Seq<char>,
            run: Seq<char>,
        | #[trigger] is_written_from(s, width, height, start, goal, run),
{
    let a = digits_end(s, 1);
    let b = digits_end(s, a + 1);
    let c = digits_end(s, b + 1);
    let d = digits_end(s, c + 1);
    assert(field(s, 0, 'w') is Some);
    assert(field(s, a, 'h') is Some);
    assert(field(s, b, 's') is Some);
    assert(field(s, c, 'g') is Some);
    let width = s.subrange(1, a);
    let height = s.subrange(a + 1, b);
    let start = s.subrange(b + 1, c);
    let goal = s.subrange(c + 1, d);
    let run = s.subrange(d + 1, s.len() as int);
    assert forall|k: int| 0 <= k < width.len() implies is_digit(#[trigger] width[k]) by {
        lemma_digits_run(s, 1, k + 1);
    }
    assert forall|k: int| 0 <= k < height.len() implies is_digit(#[trigger] height[k]) by {
        lemma_digits_run(s, a + 1, k + a + 1);
    }
    assert forall|k: int| 0 <= k < start.len() implies is_digit(#[trigger] start[k]) by {
        lemma_digits_run(s, b + 1, k + b + 1);
    }
    assert forall|k: int| 0 <= k < goal.len() implies is_digit(#[trigger] goal[k]) by {
        lemma_digits_run(s, c + 1, k + c + 1);
    }
    assert(s =~= written(width, height, start, goal, run));
    assert(is_written_from(s, width, height, start, goal, run));
}

/// A description is accepted only with a grid of at least one cell, of
/// positive width and height.
pub proof fn lemma_described_grid(s: Seq<char>)
    requires
        describe(s) is Ok,
    ensures
        describe(s)->Ok_0.tiles.len() == describe(s)->Ok_0.width * describe(s)->Ok_0.height,
        describe(s)->Ok_0.tiles.len() > 0,
        describe(s)->Ok_0.width > 0,
        describe(s)->Ok_0.height > 0,
{
    let h = header(s)->0;
    lemma_header_has_no_hash(s);
    let d = describe(s)->Ok_0;
    assert(d.width > 0 && d.height > 0) by (nonlinear_arith)
        requires
            d.width * d.height > 0,
    ;
}

/// Between its marker and its end a field holds digits only.
proof fn lemma_field_is_digits(s: Seq<char>, at: int, marker: char, k: int)
    requires
        field(s, at, marker) is Some,
        at < k < digits_end(s, at + 1),
    ensures
        is_digit(s[k]),
        k < s.len(),
{
    lemma_digits_run(s, at + 1, k);
}

/// What stands before the end of a run of digits is a digit.
proof fn lemma_digits_run(s: Seq<char>, from: int, k: int)
    requires
        0 <= from <= k < digits_end(s, from),
    ensures
        k < s.len() && is_digit(s[k]),
    decreases k - from,
{
    if from < k {
        lemma_digits_run(s, from + 1, k);
    }
}

/// No `#` stands inside a header.
proof fn lemma_header_has_no_hash(s: Seq<char>)
    requires
        header(s) is Some,
    ensures
        0 < (header(s)->0).end <= s.len(),
        forall|k: int| 0 <= k < (header(s)->0).end ==> (#[trigger] s[k]) != '#',
{
    let a = digits_end(s, 1);
    let b = digits_end(s, a + 1);
    let c = digits_end(s, b + 1);
    let d = digits_end(s, c + 1);
    assert(field(s, 0, 'w') is Some);
    assert(field(s, a, 'h') is Some);
    assert(field(s, b, 's') is Some);
    assert(field(s, c, 'g') is Some);
    assert((header(s)->0).end == d);
    lemma_digits_end_bound(s, c + 1);
    assert forall|k: int| 0 <= k < d implies (#[trigger] s[k]) != '#' by {
        if 0 < k < a {
            lemma_field_is_digits(s, 0, 'w', k);
        } else if a < k < b {
            lemma_field_is_digits(s, a, 'h', k);
        } else if b < k < c {
            lemma_field_is_digits(s, b, 's', k);
        } else if c < k < d {
            lemma_field_is_digits(s, c, 'g', k);
        }
    }
}

/// More digits denote no smaller a number.
pub proof fn lemma_decimal_grows(s: Seq<char>, at: int, mid: int, end: int)
    requires
        0 <= at <= mid <= end <= s.len(),
    ensures
        decimal(s.subrange(at, mid)) <= decimal(s.subrange(at, end)),
    decreases end - mid,
{
    if mid < end {
        lemma_decimal_grows(s, at, mid, end - 1);
        assert(s.subrange(at, end).drop_last() =~= s.subrange(at, end - 1));
    }
}

/// A run of digits ends where the run that begins further on in it ends.
pub proof fn lemma_digits_end(s: Seq<char>, at: int, i: int)
    requires
        0 <= at <= i <= s.len(),
        forall|k: int| at <= k < i ==> is_digit(#[trigger] s[k]),
    ensures
        digits_end(s, at) == digits_end(s, i),
        i <= digits_end(s, i) <= s.len(),
    decreases s.len() - at,
{
    if at < i {
        assert(is_digit(s[at]));
        lemma_digits_end(s, at + 1, i);
    } else {
        lemma_digits_end_bound(s, i);
    }
}

/// A run of digits ends at or after its beginning, and inside the text.
pub proof fn lemma_digits_end_bound(s: Seq<char>, i: int)
    requires
        0 <= i <= s.len(),
    ensures
        i <= digits_end(s, i) <= s.len(),
    decreases s.len() - i,
{
    if i < s.len() && is_digit(s[i]) {
        lemma_digits_end_bound(s, i + 1);
    }
}

} // verus!
