//! Reading a map from text.
//!
//! Trailing white space is dropped, then one leading line feed. What is left
//! is split into lines at each line feed, a carriage return before a line feed
//! being dropped with it. The map has one row per line and is as wide as the
//! longest line; shorter lines are filled with vacant cells.

use vstd::prelude::*;
use vstd::arithmetic::div_mod::lemma_fundamental_div_mod_converse;
use crate::cell::{CellKind, CellsError};
use crate::cells::Cells;
use crate::grid::{Grid, MAX_SIDE};

verus! {

broadcast use vstd::string::axiom_spec_iter;

/// The characters with the Unicode `White_Space` property.
pub open spec fn spec_is_white_space(c: char) -> bool {
    let u = c as u32;
    ||| 0x09 <= u <= 0x0d
    ||| u == 0x20
    ||| u == 0x85
    ||| u == 0xa0
    ||| u == 0x1680
    ||| 0x2000 <= u <= 0x200a
    ||| u == 0x2028
    ||| u == 0x2029
    ||| u == 0x202f
    ||| u == 0x205f
    ||| u == 0x3000
}

/// `s` without its trailing white space.
pub open spec fn trim_end(s: Seq<char>) -> Seq<char>
    decreases s.len(),
{
    if s.len() > 0 && spec_is_white_space(s.last()) {
        trim_end(s.drop_last())
    } else {
        s
    }
}

/// `s` without one leading line feed.
pub open spec fn skip_line_feed(s: Seq<char>) -> Seq<char> {
    if s.len() > 0 && s[0] == '\n' {
        s.drop_first()
    } else {
        s
    }
}

/// `line` without one trailing carriage return.
pub open spec fn strip_cr(line: Seq<char>) -> Seq<char> {
    if line.len() > 0 && line.last() == '\r' {
        line.drop_last()
    } else {
        line
    }
}

/// `s` cut at each line feed; every piece but the last loses a trailing
/// carriage return.
pub open spec fn split_lines(s: Seq<char>) -> Seq<Seq<char>>
    decreases s.len(),
{
    if s.len() == 0 {
        seq![Seq::empty()]
    } else {
        let pieces = split_lines(s.drop_last());
        if s.last() == '\n' {
            pieces.update(pieces.len() - 1, strip_cr(pieces.last())).push(Seq::empty())
        } else {
            pieces.update(pieces.len() - 1, pieces.last().push(s.last()))
        }
    }
}

/// The lines of a map's text.
pub open spec fn lines_of(text: Seq<char>) -> Seq<Seq<char>> {
    let body = skip_line_feed(trim_end(text));
    if body.len() == 0 {
        Seq::empty()
    } else {
        split_lines(body)
    }
}

/// The length of the longest of `lines`.
pub open spec fn max_len(lines: Seq<Seq<char>>) -> nat
    decreases lines.len(),
{
    if lines.len() == 0 {
        0
    } else {
        let m = max_len(lines.drop_last());
        if lines.last().len() > m {
            lines.last().len()
        } else {
            m
        }
    }
}

/// The kind of cell a character stands for.
pub open spec fn kind_of(c: char) -> Option<CellKind> {
    if c == ' ' || c == '.' {
        Some(CellKind::Vacant)
    } else if c == '#' {
        Some(CellKind::Wall)
    } else if c == ',' || c == 'p' || c == 'P' {
        Some(CellKind::Pit)
    } else if c == '~' || c == 'w' || c == 'W' {
        Some(CellKind::Water)
    } else if c == 'b' || c == 'B' {
        Some(CellKind::BouncyWall)
    } else {
        None
    }
}

/// Some line holds a character that stands for no kind of cell.
pub open spec fn has_invalid_char(lines: Seq<Seq<char>>) -> bool {
    exists|y: int, x: int|
        0 <= y < lines.len() && 0 <= x < lines[y].len() && (#[trigger] kind_of(lines[y][x])) is None
}

/// The cell in row `y` and column `x`: the kind of the line's character, or
/// vacant past the end of the line.
pub open spec fn cell_in_lines(lines: Seq<Seq<char>>, y: int, x: int) -> CellKind {
    if x < lines[y].len() {
        kind_of(lines[y][x])->0
    } else {
        CellKind::Vacant
    }
}

/// The cells of the lines, `width` to a row, in row-major order.
pub open spec fn kinds_of_lines(lines: Seq<Seq<char>>, width: nat) -> Seq<CellKind> {
    Seq::new(
        lines.len() * width,
        |i: int| cell_in_lines(lines, i / (width as int), i % (width as int)),
    )
}

/// The map that a text describes, or why it describes none.
pub open spec fn parse_spec(text: Seq<char>) -> Result<Grid, CellsError> {
    let lines = lines_of(text);
    if lines.len() > MAX_SIDE || max_len(lines) > MAX_SIDE {
        Err(CellsError::TooLarge)
    } else if has_invalid_char(lines) {
        Err(CellsError::InvalidChar)
    } else {
        Ok(
            Grid {
                height: lines.len(),
                width: max_len(lines),
                kinds: kinds_of_lines(lines, max_len(lines)),
            },
        )
    }
}

/// Whether `c` has the Unicode `White_Space` property.
#[verifier::when_used_as_spec(spec_is_white_space)]
pub fn is_white_space(c: char) -> (r: bool)
    ensures
        r == spec_is_white_space(c),
{
    let u = c as u32;
    (0x09 <= u && u <= 0x0d) || u == 0x20 || u == 0x85 || u == 0xa0 || u == 0x1680 || (0x2000
        <= u && u <= 0x200a) || u == 0x2028 || u == 0x2029 || u == 0x202f || u == 0x205f || u
        == 0x3000
}

/// The kind of cell that `c` stands for, if any.
pub fn cell_kind_of(c: char) -> (r: Option<CellKind>)
    ensures
        r == kind_of(c),
{
    if c == ' ' || c == '.' {
        Some(CellKind::Vacant)
    } else if c == '#' {
        Some(CellKind::Wall)
    } else if c == ',' || c == 'p' || c == 'P' {
        Some(CellKind::Pit)
    } else if c == '~' || c == 'w' || c == 'W' {
        Some(CellKind::Water)
    } else if c == 'b' || c == 'B' {
        Some(CellKind::BouncyWall)
    } else {
        None
    }
}

/// The characters of `text`, in order.
pub(crate) fn chars_of(text: &str) -> (r: Vec<char>)
    ensures
        r@ == text@,
{
    let mut r: Vec<char> = Vec::new();
    for c in it: text.chars()
        invariant
            r@ == it.seq().take(it.index() as int),
    {
        r.push(c);
    }
    r
}

/// Each line is at most as long as the longest.
proof fn lemma_max_len(lines: Seq<Seq<char>>)
    ensures
        forall|y: int| 0 <= y < lines.len() ==> #[trigger] lines[y].len() <= max_len(lines),
    decreases lines.len(),
{
    if lines.len() > 0 {
        lemma_max_len(lines.drop_last());
        assert forall|y: int| 0 <= y < lines.len() implies #[trigger] lines[y].len() <= max_len(
            lines,
        ) by {
            if y < lines.len() - 1 {
                assert(lines.drop_last()[y] == lines[y]);
            }
        }
    }
}

/// The lines of `text`, as `lines_of` describes them.
fn split_text(text: &str) -> (r: Vec<Vec<char>>)
    ensures
        r@.map_values(|l: Vec<char>| l@) == lines_of(text@),
{
    let s = chars_of(text);
    let mut end = s.len();
    proof {
        assert(s@.subrange(0, end as int) =~= s@);
    }
    while end > 0 && is_white_space(s[end - 1])
        invariant
            end <= s.len(),
            trim_end(s@.subrange(0, end as int)) == trim_end(s@),
        decreases end,
    {
        proof {
            assert(s@.subrange(0, end as int).drop_last() =~= s@.subrange(0, end - 1));
        }
        end -= 1;
    }
    proof {
        assert(trim_end(s@) == s@.subrange(0, end as int));
    }
    let start: usize = if end > 0 && s[0] == '\n' {
        1
    } else {
        0
    };
    let ghost body = s@.subrange(start as int, end as int);
    proof {
        assert(body =~= skip_line_feed(trim_end(s@)));
    }
    let mut lines: Vec<Vec<char>> = Vec::new();
    if start == end {
        proof {
            assert(lines@.map_values(|l: Vec<char>| l@) =~= lines_of(text@));
        }
        return lines;
    }
    let mut cur: Vec<char> = Vec::new();
    let mut j = start;
    proof {
        assert(s@.subrange(start as int, j as int) =~= Seq::<char>::empty());
        assert(lines@.map_values(|l: Vec<char>| l@).push(cur@) =~= seq![Seq::<char>::empty()]);
    }
    while j < end
        invariant
            start <= j <= end,
            end <= s.len(),
            lines@.map_values(|l: Vec<char>| l@).push(cur@) == split_lines(
                s@.subrange(start as int, j as int),
            ),
        decreases end - j,
    {
        let ghost prev = lines@.map_values(|l: Vec<char>| l@);
        let c = s[j];
        proof {
            assert(s@.subrange(start as int, j + 1).drop_last() =~= s@.subrange(start as int, j as int));
        }
        if c == '\n' {
            if cur.len() > 0 && cur[cur.len() - 1] == '\r' {
                cur.pop();
            }
            let ghost stripped = cur@;
            lines.push(cur);
            cur = Vec::new();
            proof {
                assert(lines@.map_values(|l: Vec<char>| l@) =~= prev.push(stripped));
                assert(lines@.map_values(|l: Vec<char>| l@).push(cur@) =~= split_lines(
                    s@.subrange(start as int, j + 1),
                ));
            }
        } else {
            cur.push(c);
            proof {
                assert(lines@.map_values(|l: Vec<char>| l@).push(cur@) =~= split_lines(
                    s@.subrange(start as int, j + 1),
                ));
            }
        }
        j += 1;
    }
    let ghost prev = lines@.map_values(|l: Vec<char>| l@);
    let ghost last = cur@;
    lines.push(cur);
    proof {
        assert(lines@.map_values(|l: Vec<char>| l@) =~= prev.push(last));
        assert(s@.subrange(start as int, end as int) == body);
    }
    lines
}

impl Cells {
    /// Reads a map from text: one row per line, as wide as the longest line,
    /// with shorter lines filled with vacant cells. Fails with `TooLarge` when
    /// there are more than 24 lines or a line is longer than 24 characters,
    /// and otherwise with `InvalidChar` when a character stands for no kind of
    /// cell.
    pub fn parse(text: &str) -> (r: Result<Cells, CellsError>)
        ensures
            match r {
                Ok(c) => parse_spec(text@) == Ok::<Grid, CellsError>(c@),
                Err(e) => parse_spec(text@) == Err::<Grid, CellsError>(e),
            },
    {
        let lines = split_text(text);
        let ghost ls = lines@.map_values(|l: Vec<char>| l@);
        let height = lines.len();
        let mut width: usize = 0;
        let mut y: usize = 0;
        proof {
            assert(ls.take(0) =~= Seq::<Seq<char>>::empty());
        }
        while y < height
            invariant
                y <= height,
                height == ls.len(),
                ls == lines@.map_values(|l: Vec<char>| l@),
                width == max_len(ls.take(y as int)),
            decreases height - y,
        {
            proof {
                assert(ls.take(y + 1).drop_last() =~= ls.take(y as int));
                assert(ls[y as int] == lines@[y as int]@);
            }
            if lines[y].len() > width {
                width = lines[y].len();
            }
            y += 1;
        }
        proof {
            assert(ls.take(height as int) =~= ls);
            lemma_max_len(ls);
        }
        if height > MAX_SIDE || width > MAX_SIDE {
            return Err(CellsError::TooLarge);
        }
        let mut kinds: Vec<CellKind> = Vec::new();
        let mut y: usize = 0;
        while y < height
            invariant
                y <= height <= MAX_SIDE,
                width <= MAX_SIDE,
                height == ls.len(),
                width == max_len(ls),
                ls == lines@.map_values(|l: Vec<char>| l@),
                ls == lines_of(text@),
                forall|yy: int| 0 <= yy < ls.len() ==> #[trigger] ls[yy].len() <= width,
                kinds@.len() == y * width,
                forall|i: int|
                    0 <= i < kinds@.len() ==> #[trigger] kinds@[i] == cell_in_lines(
                        ls,
                        i / (width as int),
                        i % (width as int),
                    ),
                forall|yy: int, x: int|
                    0 <= yy < y && 0 <= x < ls[yy].len() ==> (#[trigger] kind_of(ls[yy][x])) is Some,
            decreases height - y,
        {
            let line = &lines[y];
            proof {
                assert(ls[y as int] == line@);
            }
            let mut x: usize = 0;
            while x < width
                invariant
                    y < height <= MAX_SIDE,
                    x <= width <= MAX_SIDE,
                    height == ls.len(),
                    width == max_len(ls),
                    ls == lines@.map_values(|l: Vec<char>| l@),
                    ls == lines_of(text@),
                    ls[y as int] == line@,
                    line@.len() <= width,
                    kinds@.len() == y * width + x,
                    forall|i: int|
                        0 <= i < kinds@.len() ==> #[trigger] kinds@[i] == cell_in_lines(
                            ls,
                            i / (width as int),
                            i % (width as int),
                        ),
                    forall|yy: int, xx: int|
                        0 <= yy < y && 0 <= xx < ls[yy].len() ==> (#[trigger] kind_of(ls[yy][xx])) is Some,
                    forall|xx: int| 0 <= xx < x && xx < line@.len() ==> (#[trigger] kind_of(line@[xx])) is Some,
                decreases width - x,
            {
                let c = if x < line.len() {
                    line[x]
                } else {
                    '.'
                };
                match cell_kind_of(c) {
                    Some(k) => {
                        proof {
                            lemma_fundamental_div_mod_converse(
                                kinds@.len() as int,
                                width as int,
                                y as int,
                                x as int,
                            );
                        }
                        kinds.push(k);
                    },
                    None => {
                        proof {
                            assert(x < line@.len());
                            assert(kind_of(ls[y as int][x as int]) is None);
                            assert(has_invalid_char(ls));
                        }
                        return Err(CellsError::InvalidChar);
                    },
                }
                x += 1;
            }
            proof {
                assert(y * width + width == (y + 1) * width) by (nonlinear_arith);
                assert forall|yy: int, xx: int|
                    0 <= yy < y + 1 && 0 <= xx < ls[yy].len() implies (#[trigger] kind_of(
                        ls[yy][xx],
                    )) is Some by {
                    if yy == y {
                        assert(kind_of(line@[xx]) is Some);
                    }
                }
            }
            y += 1;
        }
        proof {
            assert(!has_invalid_char(ls)) by {
                if has_invalid_char(ls) {
                    let (yy, xx) = choose|yy: int, xx: int|
                        0 <= yy < ls.len() && 0 <= xx < ls[yy].len() && (#[trigger] kind_of(
                            ls[yy][xx],
                        )) is None;
                }
            }
            assert(kinds@ =~= kinds_of_lines(ls, width as nat));
        }
        Ok(Cells::from_kinds(kinds, height, width))
    }
}

} // verus!
