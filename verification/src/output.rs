use vstd::prelude::*;

use crate::model::Position;
use crate::visualizer::{all_digit_chars, char_digits_value, parse_i64_spec};

verus! {

/// The character of a decimal digit.
pub open spec fn digit_char(d: int) -> char {
    if d == 0 {
        '0'
    } else if d == 1 {
        '1'
    } else if d == 2 {
        '2'
    } else if d == 3 {
        '3'
    } else if d == 4 {
        '4'
    } else if d == 5 {
        '5'
    } else if d == 6 {
        '6'
    } else if d == 7 {
        '7'
    } else if d == 8 {
        '8'
    } else {
        '9'
    }
}

/// The decimal digits of `n`, most significant first, without leading zeros.
pub open spec fn nat_decimal(n: nat) -> Seq<char>
    decreases n,
{
    if n < 10 {
        seq![digit_char(n as int)]
    } else {
        nat_decimal(n / 10) + seq![digit_char((n % 10) as int)]
    }
}

/// `n` in decimal, with a leading `-` when negative.
pub open spec fn int_decimal(n: int) -> Seq<char> {
    if n < 0 {
        seq!['-'] + nat_decimal((-n) as nat)
    } else {
        nat_decimal(n as nat)
    }
}

/// The engine's move line: `X Y` and a line feed.
pub open spec fn move_text(p: Position) -> Seq<char> {
    int_decimal(p.x as int) + seq![' '] + int_decimal(p.y as int) + seq!['\n']
}

proof fn lemma_digit_char_value(d: int)
    requires
        0 <= d < 10,
    ensures
        (digit_char(d) as u32) - 48 == d,
        '0' <= digit_char(d) <= '9',
{
}

proof fn lemma_nat_decimal_digits(n: nat)
    ensures
        nat_decimal(n).len() > 0,
        all_digit_chars(nat_decimal(n)),
        char_digits_value(nat_decimal(n)) == n,
    decreases n,
{
    lemma_digit_char_value((n % 10) as int);
    if n < 10 {
        assert(n % 10 == n);
        let t = nat_decimal(n);
        assert(t.drop_last() =~= Seq::<char>::empty());
        assert(char_digits_value(t) == char_digits_value(t.drop_last()) * 10 + ((t.last() as u32)
            - 48));
    } else {
        lemma_nat_decimal_digits(n / 10);
        assert(n == (n / 10) * 10 + n % 10);
        let t = nat_decimal(n);
        assert(t.drop_last() =~= nat_decimal(n / 10));
        assert(t.last() == digit_char((n % 10) as int));
        assert(char_digits_value(t) == char_digits_value(t.drop_last()) * 10 + ((t.last() as u32)
            - 48));
        assert forall|i: int| 0 <= i < t.len() implies '0' <= #[trigger] t[i] && t[i] <= '9' by {
            if i < t.len() - 1 {
                assert(t[i] == nat_decimal(n / 10)[i]);
            }
        }
    }
}

proof fn lemma_int_decimal_reads_back(v: int)
    requires
        i64::MIN < v <= i64::MAX,
    ensures
        parse_i64_spec(int_decimal(v)) == Some(v as i64),
        forall|i: int|
            0 <= i < int_decimal(v).len() ==> #[trigger] int_decimal(v)[i] != ' '
                && int_decimal(v)[i] != '\n',
{
    let m: nat = if v < 0 {
        (-v) as nat
    } else {
        v as nat
    };
    lemma_nat_decimal_digits(m);
    let t = int_decimal(v);
    if v < 0 {
        assert(t.drop_first() =~= nat_decimal(m));
    } else {
        assert(t[0] != '-' && t[0] != '+');
    }
    assert forall|i: int| 0 <= i < t.len() implies #[trigger] t[i] != ' ' && t[i] != '\n' by {
        if v < 0 && i > 0 {
            assert(t[i] == nat_decimal(m)[i - 1]);
        }
    }
}

/// The move line holds one line feed, at its end, and one space; the text
/// before the space and the text between the space and the line feed read
/// back, as `str::parse` reads integers, as the move's two coordinates.
pub proof fn law_move_line_reads_back(p: Position)
    ensures
        move_text(p).len() > 0 && move_text(p).last() == '\n',
        forall|i: int| 0 <= i < move_text(p).len() - 1 ==> #[trigger] move_text(p)[i] != '\n',
        exists|k: int|
            0 <= k < move_text(p).len() - 1 && move_text(p)[k] == ' ' && (forall|i: int|
                0 <= i < move_text(p).len() && i != k ==> #[trigger] move_text(p)[i] != ' ')
                && parse_i64_spec(move_text(p).subrange(0, k)) == Some(p.x as i64) && parse_i64_spec(
                move_text(p).subrange(k + 1, move_text(p).len() - 1),
            ) == Some(p.y as i64),
{
    let a = int_decimal(p.x as int);
    let b = int_decimal(p.y as int);
    let s = move_text(p);
    lemma_int_decimal_reads_back(p.x as int);
    lemma_int_decimal_reads_back(p.y as int);
    let k = a.len() as int;
    assert(s.subrange(0, k) =~= a);
    assert(s.subrange(k + 1, s.len() - 1) =~= b);
    assert(s[k] == ' ');
    assert forall|i: int| 0 <= i < s.len() && i != k implies #[trigger] s[i] != ' ' by {
        if i < k {
            assert(s[i] == a[i]);
        } else if i < s.len() - 1 {
            assert(s[i] == b[i - k - 1]);
        }
    }
    assert forall|i: int| 0 <= i < s.len() - 1 implies #[trigger] s[i] != '\n' by {
        if i < k {
            assert(s[i] == a[i]);
        } else if i > k {
            assert(s[i] == b[i - k - 1]);
        }
    }
}

/// Appends one character (`String::push`).
#[verifier::external_body]
pub(crate) fn push_char(s: &mut String, c: char)
    ensures
        final(s)@ == old(s)@.push(c),
{
    s.push(c);
}

fn digit_to_char(d: u64) -> (c: char)
    requires
        d < 10,
    ensures
        c == digit_char(d as int),
{
    match d {
        0 => '0',
        1 => '1',
        2 => '2',
        3 => '3',
        4 => '4',
        5 => '5',
        6 => '6',
        7 => '7',
        8 => '8',
        _ => '9',
    }
}

pub(crate) fn push_decimal(s: &mut String, n: u128)
    ensures
        final(s)@ == old(s)@ + nat_decimal(n as nat),
    decreases n,
{
    if n >= 10 {
        push_decimal(s, n / 10);
    }
    let ghost mid = s@;
    push_char(s, digit_to_char((n % 10) as u64));
    proof {
        if n >= 10 {
            assert(s@ =~= old(s)@ + nat_decimal(n as nat));
        } else {
            assert(mid == old(s)@);
            assert(s@ =~= old(s)@ + nat_decimal(n as nat));
        }
    }
}

fn push_int(s: &mut String, v: i32)
    ensures
        final(s)@ == old(s)@ + int_decimal(v as int),
{
    if v < 0 {
        push_char(s, '-');
        let magnitude = (-(v as i64)) as u64;
        let ghost mid = s@;
        push_decimal(s, magnitude as u128);
        proof {
            assert(s@ =~= old(s)@ + int_decimal(v as int));
        }
    } else {
        push_decimal(s, v as u128);
    }
}

pub(crate) fn push_i64(s: &mut String, v: i64)
    ensures
        final(s)@ == old(s)@ + int_decimal(v as int),
{
    if v < 0 {
        push_char(s, '-');
        let magnitude = (-(v as i128)) as u64;
        push_decimal(s, magnitude as u128);
        proof {
            assert(s@ =~= old(s)@ + int_decimal(v as int));
        }
    } else {
        push_decimal(s, v as u128);
    }
}

/// The line that answers the engine: `X Y\n`.
pub fn format_move(position: Position) -> (line: String)
    ensures
        line@ == move_text(position),
{
    let mut line = String::new();
    push_int(&mut line, position.x);
    push_char(&mut line, ' ');
    push_int(&mut line, position.y);
    push_char(&mut line, '\n');
    proof {
        assert(line@ =~= move_text(position));
    }
    line
}

} // verus!
