use vstd::prelude::*;
use vstd::string::StrSliceExecFns;
use vstd::string::StringExecFns;
use crate::space::{Space, space_at, space_idx, lemma_space_at};
use crate::board::{Board, SudokuBoard};
use crate::choices::SudokuChoices;
use vstd::arithmetic::div_mod::lemma_fundamental_div_mod_converse;

verus! {

/// Why a board literal was refused.
#[derive(Clone, Copy, Debug, PartialEq, Eq, Structural)]
pub enum ParseError {
    /// A character other than a digit 1 to 9, a space or a line break.
    InvalidCharacter(char),
    /// The literal does not hold 81 cells; the number it holds.
    WrongCellCount(usize),
}

/// The value a digit character stands for.
pub open spec fn digit_value(c: char) -> Option<Space> {
    if '1' <= c && c <= '9' {
        Some(space_at(c as int - '1' as int))
    } else {
        None
    }
}

/// The character that shows a cell: its digit, or a space.
pub open spec fn cell_char(c: Option<Space>) -> char {
    match c {
        Some(s) => (space_idx(s) + '1' as int) as char,
        None => ' ',
    }
}

/// The cells read from the first `n` characters of `s`, or the first character
/// there that is not allowed. Line breaks only separate rows.
pub open spec fn scan(s: Seq<char>, n: int) -> Result<Seq<Option<Space>>, char>
    decreases n,
{
    if n <= 0 {
        Ok(Seq::empty())
    } else {
        match scan(s, n - 1) {
            Err(c) => Err(c),
            Ok(cells) => {
                let c = s[n - 1];
                if c == '\n' {
                    Ok(cells)
                } else if c == ' ' {
                    Ok(cells.push(None))
                } else if digit_value(c) is Some {
                    Ok(cells.push(digit_value(c)))
                } else {
                    Err(c)
                }
            },
        }
    }
}

/// The board a literal stands for: rows of digits and spaces, separated by line
/// breaks, 81 cells in all.
pub open spec fn parse_spec(s: Seq<char>) -> Result<Seq<Option<Space>>, ParseError> {
    match scan(s, s.len() as int) {
        Err(c) => Err(ParseError::InvalidCharacter(c)),
        Ok(cells) => if cells.len() == 81 {
            Ok(cells)
        } else {
            Err(ParseError::WrongCellCount(cells.len() as usize))
        },
    }
}

/// The text of the first `n` cells of `b`: nine per line, lines separated by a line break.
pub open spec fn render_spec(b: Seq<Option<Space>>, n: int) -> Seq<char>
    decreases n,
{
    if n <= 0 {
        Seq::empty()
    } else {
        let prev = render_spec(b, n - 1);
        let prev = if n - 1 > 0 && (n - 1) % 9 == 0 {
            prev.push('\n')
        } else {
            prev
        };
        prev.push(cell_char(b[n - 1]))
    }
}

/// The value of a digit character, if it is one of 1 to 9.
fn digit_of(c: char) -> (r: Option<Space>)
    ensures
        r == digit_value(c),
{
    if '1' <= c && c <= '9' {
        let k = (c as u32 - '1' as u32) as usize;
        Some(Space::at(k))
    } else {
        None
    }
}

/// Reads a board literal: nine rows of nine characters, each a digit 1 to 9 (a
/// determined cell) or a space (an undetermined one), rows separated by line breaks.
pub fn parse(s: &str) -> (r: Result<SudokuBoard, ParseError>)
    ensures
        match (r, parse_spec(s@)) {
            (Ok(b), Ok(cells)) => b@ == cells,
            (Err(e), Err(f)) => e == f,
            _ => false,
        },
{
    let len = s.unicode_len();
    let mut cells: [Option<Space>; 81] = [None; 81];
    let mut count: usize = 0;
    let mut i: usize = 0;
    while i < len
        invariant
            len == s@.len(),
            i <= len,
            scan(s@, i as int) is Ok,
            count == scan(s@, i as int)->Ok_0.len(),
            count <= i,
            forall|j: int| 0 <= j < count && j < 81 ==> cells@[j] == scan(s@, i as int)->Ok_0[j],
        decreases len - i,
    {
        let c = s.get_char(i);
        if c == '\n' {
        } else if c == ' ' {
            if count < 81 {
                cells[count] = None;
            }
            count = count + 1;
        } else {
            match digit_of(c) {
                Some(v) => {
                    if count < 81 {
                        cells[count] = Some(v);
                    }
                    count = count + 1;
                },
                None => {
                    proof {
                        assert(scan(s@, (i + 1) as int) == Err::<Seq<Option<Space>>, char>(c));
                        lemma_scan_err(s@, (i + 1) as int, s@.len() as int);
                    }
                    return Err(ParseError::InvalidCharacter(c));
                },
            }
        }
        i = i + 1;
    }
    if count != 81 {
        return Err(ParseError::WrongCellCount(count));
    }
    proof {
        assert(cells@ =~= scan(s@, len as int)->Ok_0);
    }
    Ok(Board(cells))
}

/// Once a character is refused, the scan stays refused.
proof fn lemma_scan_err(s: Seq<char>, n: int, m: int)
    requires
        0 < n <= m,
        scan(s, n) is Err,
    ensures
        scan(s, m) == scan(s, n),
    decreases m - n,
{
    if m > n {
        lemma_scan_err(s, n, m - 1);
    }
}

/// The text of one cell.
fn cell_str(c: Option<Space>) -> (r: &'static str)
    ensures
        r@ == seq![cell_char(c)],
{
    match c {
        None => {
            proof {
                reveal_strlit(" ");
            }
            " "
        },
        Some(Space::One) => {
            proof {
                reveal_strlit("1");
            }
            "1"
        },
        Some(Space::Two) => {
            proof {
                reveal_strlit("2");
            }
            "2"
        },
        Some(Space::Three) => {
            proof {
                reveal_strlit("3");
            }
            "3"
        },
        Some(Space::Four) => {
            proof {
                reveal_strlit("4");
            }
            "4"
        },
        Some(Space::Five) => {
            proof {
                reveal_strlit("5");
            }
            "5"
        },
        Some(Space::Six) => {
            proof {
                reveal_strlit("6");
            }
            "6"
        },
        Some(Space::Seven) => {
            proof {
                reveal_strlit("7");
            }
            "7"
        },
        Some(Space::Eight) => {
            proof {
                reveal_strlit("8");
            }
            "8"
        },
        Some(Space::Nine) => {
            proof {
                reveal_strlit("9");
            }
            "9"
        },
    }
}

/// A board literal in the form that `render` writes: nine lines of nine digits or
/// spaces, separated by single line breaks.
pub open spec fn literal_form(s: Seq<char>) -> bool {
    &&& s.len() == 89
    &&& forall|i: int| 0 <= i < 89 ==> if i % 10 == 9 {
        s[i] == '\n'
    } else {
        s[i] == ' ' || ('1' <= #[trigger] s[i] && s[i] <= '9')
    }
}

proof fn lemma_render_prefix(b1: Seq<Option<Space>>, b2: Seq<Option<Space>>, n: int)
    requires
        forall|i: int| 0 <= i < n ==> b1[i] == b2[i],
    ensures
        render_spec(b1, n) == render_spec(b2, n),
    decreases n,
{
    if n > 0 {
        lemma_render_prefix(b1, b2, n - 1);
    }
}

/// The scan of the first `n` characters of a literal in render form, and the text
/// it renders back to.
proof fn lemma_scan_literal(s: Seq<char>, n: int)
    requires
        literal_form(s),
        0 <= n <= 89,
    ensures
        scan(s, n) is Ok,
        scan(s, n)->Ok_0.len() == n - n / 10,
        n > 0 && n % 10 == 0 ==> render_spec(scan(s, n)->Ok_0, n - n / 10).push('\n') == s.subrange(0, n),
        !(n > 0 && n % 10 == 0) ==> render_spec(scan(s, n)->Ok_0, n - n / 10) == s.subrange(0, n),
    decreases n,
{
    if n > 0 {
        let k = n - 1;
        lemma_scan_literal(s, k);
        let c = scan(s, k)->Ok_0;
        let m = k - k / 10;
        let ch = s[k];
        lemma_fundamental_div_mod_converse(k, 10, k / 10, k % 10);
        if k % 10 == 9 {
            lemma_fundamental_div_mod_converse(n, 10, k / 10 + 1, 0);
            assert(s.subrange(0, n) =~= s.subrange(0, k).push('\n'));
        } else {
            lemma_fundamental_div_mod_converse(n, 10, k / 10, k % 10 + 1);
            lemma_fundamental_div_mod_converse(m, 9, k / 10, k % 10);
            let cell = if ch == ' ' { None } else { digit_value(ch) };
            if ch != ' ' {
                lemma_space_at(ch as int - '1' as int);
            }
            assert(cell_char(cell) == ch);
            let c2 = c.push(cell);
            assert(scan(s, n) == Ok::<Seq<Option<Space>>, char>(c2));
            lemma_render_prefix(c, c2, m);
            assert(s.subrange(0, n) =~= s.subrange(0, k).push(ch));
            if k > 0 && k % 10 == 0 {
                assert(m > 0 && m % 9 == 0);
            } else {
                assert(!(m > 0 && m % 9 == 0));
            }
        }
    }
}

/// Rendering a parsed literal gives the literal back, for every literal of nine lines
/// of nine digits or spaces.
pub proof fn lemma_render_parse(s: Seq<char>)
    requires
        literal_form(s),
    ensures
        parse_spec(s) is Ok,
        render_spec(parse_spec(s)->Ok_0, 81) == s,
{
    lemma_scan_literal(s, 89);
    assert(s.subrange(0, 89) =~= s);
}

/// The text of a candidate set: in brackets, for each value in order its digit where
/// the value is a candidate and a space where it is not.
pub open spec fn choices_text(c: Seq<bool>) -> Seq<char> {
    seq!['['] + Seq::new(9, |k: int| if c[k] { cell_char(Some(space_at(k))) } else { ' ' }) + seq![']']
}

/// The text of the first `n` candidate sets of `p`: nine per line separated by a
/// space, lines separated by a line break.
pub open spec fn choices_board_text(p: Seq<SudokuChoices>, n: int) -> Seq<char>
    decreases n,
{
    if n <= 0 {
        Seq::empty()
    } else {
        let prev = choices_board_text(p, n - 1);
        let prev = if n - 1 > 0 && (n - 1) % 9 == 0 {
            prev.push('\n')
        } else if n - 1 > 0 {
            prev.push(' ')
        } else {
            prev
        };
        prev + choices_text(p[n - 1]@)
    }
}

impl SudokuChoices {
    /// The set as text, such as `[1 3      ]` for `{1, 3}`.
    pub fn render(&self) -> (r: String)
        ensures
            r@ == choices_text(self@),
    {
        proof {
            reveal_strlit("[");
            reveal_strlit("]");
        }
        let mut r = String::from_str("[");
        let mut k: usize = 0;
        while k < 9
            invariant
                k <= 9,
                r@ == seq!['['] + Seq::new(k as nat, |j: int| if self@[j] { cell_char(Some(space_at(j))) } else { ' ' }),
            decreases 9 - k,
        {
            let ghost prev = r@;
            if self.0[k] {
                r.append(cell_str(Some(Space::at(k))));
            } else {
                r.append(cell_str(None));
            }
            assert(r@ =~= seq!['['] + Seq::new((k + 1) as nat, |j: int| if self@[j] { cell_char(Some(space_at(j))) } else { ' ' }));
            k = k + 1;
        }
        r.append("]");
        assert(r@ =~= choices_text(self@));
        r
    }
}

impl Board<SudokuChoices> {
    /// The candidate sets as text: nine per line separated by a space, lines
    /// separated by a line break.
    pub fn render(&self) -> (r: String)
        ensures
            r@ == choices_board_text(self@, 81),
    {
        let mut r = String::new();
        let mut i: usize = 0;
        while i < 81
            invariant
                i <= 81,
                r@ == choices_board_text(self@, i as int),
            decreases 81 - i,
        {
            if i > 0 && i % 9 == 0 {
                proof {
                    reveal_strlit("\n");
                }
                r.append("\n");
            } else if i > 0 {
                proof {
                    reveal_strlit(" ");
                }
                r.append(" ");
            }
            let cell = self.0[i].render();
            r.append(cell.as_str());
            i = i + 1;
        }
        r
    }
}

impl core::str::FromStr for Board<Option<Space>> {
    type Err = ParseError;

    fn from_str(s: &str) -> Result<Self, ParseError> {
        parse(s)
    }
}

impl Board<Option<Space>> {
    /// The board as text: nine lines of nine characters, a digit for each determined
    /// cell and a space for each undetermined one, lines separated by line breaks.
    pub fn render(&self) -> (r: String)
        ensures
            r@ == render_spec(self@, 81),
    {
        let mut r = String::new();
        let mut i: usize = 0;
        while i < 81
            invariant
                i <= 81,
                r@ == render_spec(self@, i as int),
            decreases 81 - i,
        {
            if i > 0 && i % 9 == 0 {
                proof {
                    reveal_strlit("\n");
                }
                r.append("\n");
            }
            r.append(cell_str(self.0[i]));
            i = i + 1;
        }
        r
    }
}

} // verus!
