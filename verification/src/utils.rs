//! Small helpers for rendering charts and labels.
use vstd::prelude::*;

verus! {

/// `String::push` appends one character to the end of the string.
pub assume_specification[ String::push ](s: &mut String, ch: char)
    ensures
        final(s)@ == old(s)@.push(ch),
;

/// The character drawn for a count of `n`: that many dots up to 8, `9` for nine and `*` above.
pub open spec fn unicode_num_spec(n: int) -> char {
    if n == 0 {
        ' '
    } else if n == 1 {
        '·'
    } else if n == 2 {
        ':'
    } else if n == 3 {
        '∴'
    } else if n == 4 {
        '⁘'
    } else if n == 5 {
        '⁙'
    } else if n == 6 {
        '⠿'
    } else if n == 7 {
        '⡿'
    } else if n == 8 {
        '⣿'
    } else if n == 9 {
        '9'
    } else {
        '*'
    }
}

/// Given an `n: usize`, return a UTF-8 character that best depicts this number. If `n < 9`, then
/// this is a UTF-8 when `n` many dots. If `n = 9`, then this is the number `9`. Otherwise, it is
/// `*`.
pub fn unicode_num(n: usize) -> (c: char)
    ensures
        c == unicode_num_spec(n as int),
{
    match n {
        0 => ' ',
        1 => '·',
        2 => ':',
        3 => '∴',
        4 => '⁘',
        5 => '⁙',
        6 => '⠿',
        7 => '⡿',
        8 => '⣿',
        9 => '9',
        _ => '*',
    }
}

/// The decimal digit `d` as a character.
pub open spec fn digit_char(d: int) -> char {
    if d == 0 {
        '0'
    } else if d == 1 {
        '1'
    } else if d == 2 {
        '2'
    } else if d == 3 {
        '3'
    } else if d == 4 {
        '4'
    } else if d == 5 {
        '5'
    } else if d == 6 {
        '6'
    } else if d == 7 {
        '7'
    } else if d == 8 {
        '8'
    } else {
        '9'
    }
}

/// The decimal representation of `n`, most significant digit first, without leading zeros.
pub open spec fn decimal(n: nat) -> Seq<char>
    decreases n,
{
    if n < 10 {
        seq![digit_char(n as int)]
    } else {
        decimal(n / 10).push(digit_char((n % 10) as int))
    }
}

fn digit(d: u64) -> (c: char)
    requires
        d < 10,
    ensures
        c == digit_char(d as int),
{
    match d {
        0 => '0',
        1 => '1',
        2 => '2',
        3 => '3',
        4 => '4',
        5 => '5',
        6 => '6',
        7 => '7',
        8 => '8',
        _ => '9',
    }
}

/// Append the decimal representation of `n` to `s`.
pub fn push_decimal(s: &mut String, n: u64)
    ensures
        final(s)@ == old(s)@ + decimal(n as nat),
    decreases n,
{
    if n >= 10 {
        push_decimal(s, n / 10);
    }
    s.push(digit(n % 10));
    proof {
        if n < 10 {
            assert(decimal(n as nat) == seq![digit_char(n as int)]);
            assert(old(s)@ + decimal(n as nat) =~= old(s)@.push(digit_char(n as int)));
        } else {
            assert(old(s)@ + decimal(n as nat) =~= (old(s)@ + decimal((n / 10) as nat)).push(
                digit_char((n % 10) as int),
            ));
        }
    }
}

/// The superscript form of the decimal digit `d`.
pub open spec fn superscript_char(d: int) -> char {
    if d == 0 {
        '⁰'
    } else if d == 1 {
        '¹'
    } else if d == 2 {
        '²'
    } else if d == 3 {
        '³'
    } else if d == 4 {
        '⁴'
    } else if d == 5 {
        '⁵'
    } else if d == 6 {
        '⁶'
    } else if d == 7 {
        '⁷'
    } else if d == 8 {
        '⁸'
    } else {
        '⁹'
    }
}

/// The decimal representation of `n` in superscript digits, most significant first, without
/// leading zeros.
pub open spec fn superscript(n: nat) -> Seq<char>
    decreases n,
{
    if n < 10 {
        seq![superscript_char(n as int)]
    } else {
        superscript(n / 10).push(superscript_char((n % 10) as int))
    }
}

fn superscript_digit(d: u64) -> (c: char)
    requires
        d < 10,
    ensures
        c == superscript_char(d as int),
{
    match d {
        0 => '⁰',
        1 => '¹',
        2 => '²',
        3 => '³',
        4 => '⁴',
        5 => '⁵',
        6 => '⁶',
        7 => '⁷',
        8 => '⁸',
        _ => '⁹',
    }
}

/// Append the decimal representation of `n` in superscript digits to `s`.
pub fn push_superscript(s: &mut String, n: u64)
    ensures
        final(s)@ == old(s)@ + superscript(n as nat),
    decreases n,
{
    if n >= 10 {
        push_superscript(s, n / 10);
    }
    s.push(superscript_digit(n % 10));
    proof {
        if n < 10 {
            assert(superscript(n as nat) == seq![superscript_char(n as int)]);
            assert(old(s)@ + superscript(n as nat) =~= old(s)@.push(superscript_char(n as int)));
        } else {
            assert(old(s)@ + superscript(n as nat) =~= (old(s)@ + superscript((n / 10) as nat)).push(
                superscript_char((n % 10) as int),
            ));
        }
    }
}

} // verus!

verus! {

/// The entries of `v` in ascending order.
pub fn sort_ascending(v: Vec<u32>) -> (out: Vec<u32>)
    ensures
        out@.to_multiset() == v@.to_multiset(),
        out@.len() == v@.len(),
        forall|i: int, j: int| 0 <= i < j < out@.len() ==> out@[i] <= out@[j],
{
    broadcast use vstd::seq_lib::to_multiset_insert, vstd::seq_lib::to_multiset_build;

    let mut out: Vec<u32> = Vec::new();
    let mut i: usize = 0;
    proof {
        assert(v@.subrange(0, 0) =~= out@);
    }
    while i < v.len()
        invariant
            i <= v.len(),
            out@.to_multiset() == v@.subrange(0, i as int).to_multiset(),
            out@.len() == i,
            forall|a: int, b: int| 0 <= a < b < out@.len() ==> out@[a] <= out@[b],
        decreases v.len() - i,
    {
        let x = v[i];
        let mut k: usize = 0;
        while k < out.len() && out[k] <= x
            invariant
                k <= out@.len(),
                forall|a: int| 0 <= a < k ==> out@[a] <= x,
            decreases out@.len() - k,
        {
            k += 1;
        }
        let ghost before = out@;
        out.insert(k, x);
        proof {
            assert(v@.subrange(0, i + 1) == v@.subrange(0, i as int).push(x));
            vstd::seq_lib::to_multiset_insert(before, k as int, x);
            vstd::seq_lib::to_multiset_build(v@.subrange(0, i as int), x);
            assert(out@ == before.insert(k as int, x));
            assert forall|a: int, b: int| 0 <= a < b < out@.len() implies out@[a] <= out@[b] by {
                if b < k {
                } else if b == k {
                } else if a < k {
                    assert(out@[b] == before[b - 1]);
                    if k < before.len() {
                        assert(before[k as int] > x);
                    }
                } else if a == k {
                    assert(out@[b] == before[b - 1]);
                    assert(before[k as int] > x);
                } else {
                    assert(out@[a] == before[a - 1]);
                    assert(out@[b] == before[b - 1]);
                }
            }
        }
        i += 1;
    }
    proof {
        assert(v@.subrange(0, v@.len() as int) == v@);
    }
    out
}

} // verus!

verus! {

/// The decimal representation of `n` with a leading `-` when negative.
pub open spec fn signed_decimal(n: int) -> Seq<char> {
    if n < 0 {
        seq!['-'] + decimal((-n) as nat)
    } else {
        decimal(n as nat)
    }
}

/// Append the decimal representation of `n`, with a leading `-` when negative.
pub fn push_signed_decimal(s: &mut String, n: i32)
    ensures
        final(s)@ == old(s)@ + signed_decimal(n as int),
{
    if n < 0 {
        s.push('-');
        let ghost mid = s@;
        push_decimal(s, (-(n as i64)) as u64);
        proof {
            assert(s@ =~= old(s)@ + signed_decimal(n as int));
        }
    } else {
        push_decimal(s, n as u64);
    }
}

} // verus!
