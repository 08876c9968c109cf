//! Textual board coordinates: SGF point names ("dd") and human labels ("D4").
use vstd::prelude::*;
use crate::config::BoardSize;

verus! {

/// Column letters of human labels: A to T without I.
pub open spec fn column_letters() -> Seq<char> {
    seq!['A', 'B', 'C', 'D', 'E', 'F', 'G', 'H', 'J', 'K', 'L', 'M', 'N', 'O', 'P', 'Q', 'R', 'S', 'T']
}

pub open spec fn decimal_digits() -> Seq<char> {
    seq!['0', '1', '2', '3', '4', '5', '6', '7', '8', '9']
}

/// The decimal digits of `v`, most significant first.
pub open spec fn nat_text(v: nat) -> Seq<char>
    decreases v,
{
    if v < 10 {
        seq![decimal_digits()[v as int]]
    } else {
        nat_text(v / 10) + seq![decimal_digits()[(v % 10) as int]]
    }
}

/// `v` in decimal, with a minus sign when negative.
pub open spec fn int_text(v: int) -> Seq<char> {
    if v < 0 {
        seq!['-'] + nat_text((-v) as nat)
    } else {
        nat_text(v as nat)
    }
}

/// The SGF letter of coordinate `v`: 'a' for 0, 'b' for 1, and so on.
pub open spec fn sgf_letter(v: int) -> char {
    ((97 + v) as u32) as char
}

/// The SGF name of `(x, y)`: the letter of `x`, then that of `y`.
pub open spec fn sgf_text(x: int, y: int) -> Seq<char> {
    seq![sgf_letter(x), sgf_letter(y)]
}

/// The point an SGF name denotes: two letters from 'a' to 's', the first
/// giving `x`, the second `y`.
pub open spec fn sgf_point(s: Seq<char>) -> Option<(i32, i32)> {
    if s.len() == 2 && 97 <= s[0] as u32 <= 115 && 97 <= s[1] as u32 <= 115 {
        Some(((s[0] as u32 - 97) as i32, (s[1] as u32 - 97) as i32))
    } else {
        None
    }
}

/// The human label of `(x, y)` on a board of `size` lines: the column
/// letter and the row counted from the far edge; "(x,y)" when `x` has no
/// column letter.
pub open spec fn human_text(x: int, y: int, size: int) -> Seq<char> {
    if 0 <= x < 19 {
        seq![column_letters()[x]] + int_text(size - y)
    } else {
        seq!['('] + int_text(x) + seq![','] + int_text(y) + seq![')']
    }
}

/// Relies on `<String as FromIterator<&char>>::from_iter`: the string holds
/// the given characters in order.
#[verifier::external_body]
fn string_of(chars: &Vec<char>) -> (r: String)
    ensures
        r@ == chars@,
{
    chars.iter().collect()
}

/// Appends the decimal digits of `v` to `out`.
fn push_digits(out: &mut Vec<char>, v: u64)
    ensures
        final(out)@ == old(out)@ + nat_text(v as nat),
    decreases v,
{
    let digits = vec!['0', '1', '2', '3', '4', '5', '6', '7', '8', '9'];
    assert(digits@ =~= decimal_digits());
    if v >= 10 {
        push_digits(out, v / 10);
    }
    out.push(digits[(v % 10) as usize]);
    proof {
        if v >= 10 {
            assert(final(out)@ =~= old(out)@ + nat_text(v as nat));
        } else {
            assert(final(out)@ =~= old(out)@ + nat_text(v as nat));
        }
    }
}

/// Appends `v` in decimal to `out`.
fn push_int(out: &mut Vec<char>, v: i64)
    requires
        v > i64::MIN,
    ensures
        final(out)@ == old(out)@ + int_text(v as int),
{
    if v < 0 {
        out.push('-');
        push_digits(out, (-v) as u64);
        assert(final(out)@ =~= old(out)@ + int_text(v as int));
    } else {
        push_digits(out, v as u64);
    }
}

/// Conversions between board points and their textual names.
pub struct CoordinateUtils;

impl CoordinateUtils {
    /// The SGF name of `(x, y)`, one lower-case letter for each coordinate
    /// ('a' for 0).
    pub fn board_to_sgf(x: i32, y: i32) -> (r: String)
        requires
            0 <= x <= 158,
            0 <= y <= 158,
        ensures
            r@ == sgf_text(x as int, y as int),
    {
        let col = (97u8 + x as u8) as char;
        let row = (97u8 + y as u8) as char;
        let chars = vec![col, row];
        assert(chars@ =~= sgf_text(x as int, y as int));
        string_of(&chars)
    }

    /// The point named by an SGF point name; `None` unless the name is two
    /// letters from 'a' to 's'.
    pub fn sgf_to_board(sgf: &str) -> (r: Option<(i32, i32)>)
        ensures
            r == sgf_point(sgf@),
    {
        if sgf.unicode_len() != 2 {
            return None;
        }
        let c0 = sgf.get_char(0) as u32;
        let c1 = sgf.get_char(1) as u32;
        if 97 <= c0 && c0 <= 115 && 97 <= c1 && c1 <= 115 {
            Some(((c0 - 97) as i32, (c1 - 97) as i32))
        } else {
            None
        }
    }

    /// The human label of `(x, y)`, such as "D4": the column letter (A to T,
    /// without I) and the row number `size - y`. A column past T gives
    /// "(x,y)" instead.
    pub fn board_to_human(x: i32, y: i32, board_size: BoardSize) -> (r: String)
        ensures
            r@ == human_text(x as int, y as int, board_size.spec_value()),
    {
        let mut chars: Vec<char> = Vec::new();
        if 0 <= x && x < 19 {
            let letters = vec![
                'A', 'B', 'C', 'D', 'E', 'F', 'G', 'H', 'J', 'K', 'L', 'M', 'N', 'O', 'P', 'Q',
                'R', 'S', 'T',
            ];
            assert(letters@ =~= column_letters());
            chars.push(letters[x as usize]);
            let row = board_size.get_value() as i64 - y as i64;
            push_int(&mut chars, row);
        } else {
            chars.push('(');
            push_int(&mut chars, x as i64);
            chars.push(',');
            push_int(&mut chars, y as i64);
            chars.push(')');
        }
        assert(chars@ =~= human_text(x as int, y as int, board_size.spec_value()));
        string_of(&chars)
    }
}

} // verus!
