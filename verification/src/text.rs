//! Numbers and lists as text.

use vstd::prelude::*;

verus! {

/// `String::push`: appends one character.
pub assume_specification[ String::push ](s: &mut String, c: char)
    ensures
        final(s)@ == old(s)@.push(c),
;

/// The digit of a number below ten.
pub open spec fn digit(n: nat) -> char {
    ('0' as u32 + n) as char
}

/// A number in decimal notation, without leading zeros.
pub open spec fn decimal(n: nat) -> Seq<char>
    decreases n,
{
    if n < 10 {
        seq![digit(n)]
    } else {
        decimal(n / 10).push(digit(n % 10))
    }
}

/// The parts one after the other, with `separator` between them.
pub open spec fn joined(parts: Seq<Seq<char>>, separator: Seq<char>) -> Seq<char>
    decreases parts.len(),
{
    if parts.len() == 0 {
        Seq::empty()
    } else if parts.len() == 1 {
        parts[0]
    } else {
        joined(parts.drop_last(), separator) + separator + parts.last()
    }
}

/// The numbers in decimal notation.
pub open spec fn decimals(values: Seq<usize>) -> Seq<Seq<char>> {
    Seq::new(values.len(), |i: int| decimal(values[i] as nat))
}

/// The digit of a number below ten.
fn digit_of(n: usize) -> (c: char)
    requires
        n < 10,
    ensures
        c == digit(n as nat),
{
    match n {
        0 => '0',
        1 => '1',
        2 => '2',
        3 => '3',
        4 => '4',
        5 => '5',
        6 => '6',
        7 => '7',
        8 => '8',
        _ => '9',
    }
}

/// Appends `n` in decimal notation.
pub fn push_decimal(s: &mut String, n: usize)
    ensures
        final(s)@ == old(s)@ + decimal(n as nat),
    decreases n,
{
    if n >= 10 {
        push_decimal(s, n / 10);
    }
    s.push(digit_of(n % 10));
    assert(s@ =~= old(s)@ + decimal(n as nat));
}

/// Appends the numbers in decimal notation, with `separator` between them.
pub fn push_joined(s: &mut String, values: &Vec<usize>, separator: &str)
    ensures
        final(s)@ == old(s)@ + joined(decimals(values@), separator@),
{
    assert(s@ =~= old(s)@ + joined(decimals(values@.take(0)), separator@));
    for i in 0..values.len()
        invariant
            s@ == old(s)@ + joined(decimals(values@.take(i as int)), separator@),
    {
        let ghost so_far = s@;
        if i > 0 {
            s.append(separator);
        }
        push_decimal(s, values[i]);
        proof {
            let parts = decimals(values@.take(i + 1));
            assert(parts.drop_last() =~= decimals(values@.take(i as int)));
            assert(parts.last() == decimal(values@[i as int] as nat));
            if i == 0 {
                assert(joined(decimals(values@.take(0)), separator@) =~= Seq::empty());
                assert(s@ =~= old(s)@ + joined(parts, separator@));
            } else {
                assert(s@ =~= old(s)@ + joined(parts, separator@));
            }
        }
    }
    assert(values@.take(values@.len() as int) == values@);
}

/// The number that decimal digits stand for.
pub open spec fn number(digits: Seq<char>) -> int
    decreases digits.len(),
{
    if digits.len() == 0 {
        0
    } else {
        10 * number(digits.drop_last()) + (digits.last() as int - '0' as int)
    }
}

/// Decimal notation has digits alone, which stand for the number, and no zero in front
/// but for zero itself.
pub proof fn law_decimal(n: nat)
    ensures
        number(decimal(n)) == n,
        decimal(n).len() > 0,
        forall|i: int| 0 <= i < decimal(n).len() ==> '0' <= (#[trigger] decimal(n)[i]) <= '9',
        n > 0 ==> decimal(n)[0] != '0',
    decreases n,
{
    if n >= 10 {
        law_decimal(n / 10);
        assert(decimal(n).drop_last() =~= decimal(n / 10));
        assert(decimal(n).last() == digit(n % 10));
    } else {
        assert(decimal(n).drop_last() =~= Seq::empty());
        assert(number(decimal(n).drop_last()) == 0);
        assert(decimal(n).last() == digit(n));
    }
}

/// Nothing stands before the first part, and the separator before each other one.
pub proof fn law_joined(parts: Seq<Seq<char>>, part: Seq<char>, separator: Seq<char>)
    ensures
        joined(Seq::empty(), separator) == Seq::<char>::empty(),
        joined(seq![part], separator) == part,
        parts.len() > 0 ==> joined(parts.push(part), separator) == joined(parts, separator)
            + separator + part,
{
    assert(parts.push(part).drop_last() =~= parts);
}

} // verus!
