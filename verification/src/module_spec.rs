//! The grammar of module specifications: `name[shift]@algebra`, where `name` names a module
//! file, the optional `[shift]` shifts the module by an integer degree, and the optional
//! `@algebra` names the basis of the Steenrod algebra.
use vstd::prelude::*;
use crate::utils::{decimal, digit_char};

verus! {

/// The characters of `s` before the first `c` (all of `s` when there is none).
pub open spec fn before_char(s: Seq<char>, c: char) -> Seq<char>
    decreases s.len(),
{
    if s.len() == 0 {
        Seq::empty()
    } else if s[0] == c {
        Seq::empty()
    } else {
        seq![s[0]] + before_char(s.drop_first(), c)
    }
}

/// The characters of `s` after the first `c`, when there is one.
pub open spec fn after_char(s: Seq<char>, c: char) -> Option<Seq<char>>
    decreases s.len(),
{
    if s.len() == 0 {
        None
    } else if s[0] == c {
        Some(s.drop_first())
    } else {
        after_char(s.drop_first(), c)
    }
}

/// `c` is an ASCII decimal digit.
pub open spec fn is_digit(c: char) -> bool {
    '0' <= c <= '9'
}

/// The value of a string of decimal digits.
pub open spec fn digits_value(d: Seq<char>) -> int
    decreases d.len(),
{
    if d.len() == 0 {
        0
    } else {
        10 * digits_value(d.drop_last()) + (d.last() as int - '0' as int)
    }
}

/// Reading the decimal form of `n` gives `n` back: every character is a digit and the
/// digits' value is `n`.
pub proof fn lemma_decimal_reads_back(n: nat)
    ensures
        forall|i: int| 0 <= i < decimal(n).len() ==> is_digit(#[trigger] decimal(n)[i]),
        digits_value(decimal(n)) == n,
    decreases n,
{
    let d = decimal(n);
    let k = (n % 10) as int;
    assert(digit_char(k) as int - '0' as int == k) by {
        if k == 0 {} else if k == 1 {} else if k == 2 {} else if k == 3 {} else if k == 4 {}
        else if k == 5 {} else if k == 6 {} else if k == 7 {} else if k == 8 {} else {}
    }
    if n < 10 {
        assert(d.drop_last() =~= Seq::<char>::empty());
        assert(digits_value(d.drop_last()) == 0);
        assert(n % 10 == n);
        assert(d.last() == digit_char(k));
        assert(digits_value(d) == 10 * digits_value(d.drop_last()) + (d.last() as int - '0' as int));
    } else {
        lemma_decimal_reads_back(n / 10);
        let init = decimal(n / 10);
        assert(d.drop_last() == init);
        assert(d.last() == digit_char(k));
        assert(digits_value(d) == 10 * digits_value(init) + (d.last() as int - '0' as int));
        assert(10 * (n / 10) + n % 10 == n);
        assert forall|i: int| 0 <= i < d.len() implies is_digit(#[trigger] d[i]) by {
            if i < init.len() {
                assert(d[i] == init[i]);
            }
        }
    }
}

/// What an `i64` written in decimal reads as: an optional `+` or `-`, then one or more digits,
/// the value in range.
pub open spec fn parse_i64_spec(s: Seq<char>) -> Option<i64> {
    let neg = s.len() > 0 && s[0] == '-';
    let digits = unsigned_part(s);
    if digits.len() == 0 || !all_digits(digits) {
        None
    } else {
        let v = if neg {
            -digits_value(digits)
        } else {
            digits_value(digits)
        };
        if i64::MIN <= v <= i64::MAX {
            Some(v as i64)
        } else {
            None
        }
    }
}

/// What follows the sign, if any, of a written integer.
pub open spec fn unsigned_part(s: Seq<char>) -> Seq<char> {
    if s.len() > 0 && (s[0] == '-' || s[0] == '+') {
        s.drop_first()
    } else {
        s
    }
}

/// Every character is a decimal digit.
pub open spec fn all_digits(d: Seq<char>) -> bool {
    forall|i: int| 0 <= i < d.len() ==> is_digit(#[trigger] d[i])
}

/// Why a module name could not be read.
#[derive(Debug, Clone, Copy, PartialEq, Eq, Structural)]
pub enum ModuleNameError {
    /// A `[` without the `]` that ends the shift.
    UnterminatedShift,
    /// A shift that is not an integer.
    InvalidShift,
}

/// A module name: the module file, and the degree by which to shift the module, if any.
pub struct ModuleName {
    pub file: String,
    pub shift: Option<i64>,
}

/// What a module name reads as: the file is what precedes the first `[`; what follows it, up
/// to the next `[`, must be an integer followed by `]`.
pub open spec fn parse_module_name_spec(name: Seq<char>) -> Result<
    (Seq<char>, Option<i64>),
    ModuleNameError,
> {
    let file = before_char(name, '[');
    match after_char(name, '[') {
        None => Ok((file, None)),
        Some(rest) => {
            let piece = before_char(rest, '[');
            if piece.len() == 0 || piece.last() != ']' {
                Err(ModuleNameError::UnterminatedShift)
            } else {
                match parse_i64_spec(piece.drop_last()) {
                    Some(v) => Ok((file, Some(v))),
                    None => Err(ModuleNameError::InvalidShift),
                }
            }
        },
    }
}

/// What a module specification reads as: the module name is what precedes the first `@`; the
/// algebra, when there is an `@`, is what follows it up to the next `@`.
pub open spec fn split_algebra_spec(spec: Seq<char>) -> (Seq<char>, Option<Seq<char>>) {
    (
        before_char(spec, '@'),
        match after_char(spec, '@') {
            Some(rest) => Some(before_char(rest, '@')),
            None => None,
        },
    )
}

/// The first `c` of `s` from position `from` on sits at `i`, or there is none and `i` is the end.
proof fn lemma_split_at(s: Seq<char>, c: char, from: int, i: int)
    requires
        0 <= from <= i <= s.len(),
        forall|k: int| from <= k < i ==> s[k] != c,
        i == s.len() || s[i] == c,
    ensures
        before_char(s.subrange(from, s.len() as int), c) == s.subrange(from, i),
        after_char(s.subrange(from, s.len() as int), c) == if i == s.len() {
            None
        } else {
            Some(s.subrange(i + 1, s.len() as int))
        },
    decreases i - from,
{
    let t = s.subrange(from, s.len() as int);
    if from == i {
        if i < s.len() {
            assert(t[0] == c);
            assert(t.drop_first() =~= s.subrange(i + 1, s.len() as int));
        }
        assert(s.subrange(from, i) =~= Seq::<char>::empty());
    } else {
        lemma_split_at(s, c, from + 1, i);
        assert(t.drop_first() =~= s.subrange(from + 1, s.len() as int));
        assert(t[0] == s[from]);
        assert(s.subrange(from, i) =~= seq![s[from]] + s.subrange(from + 1, i));
    }
}

/// The characters of `s` from `from` up to the first `c` after it (or the end), and where that
/// piece ends.
fn piece_until(s: &str, len: usize, from: usize, c: char) -> (r: (String, usize))
    requires
        len == s@.len(),
        from <= len,
    ensures
        from <= r.1 <= len,
        r.0@ == s@.subrange(from as int, r.1 as int),
        forall|k: int| from <= k < r.1 ==> s@[k] != c,
        r.1 == len || s@[r.1 as int] == c,
{
    let mut out = String::new();
    let mut i = from;
    while i < len
        invariant
            len == s@.len(),
            from <= i <= len,
            out@ == s@.subrange(from as int, i as int),
            forall|k: int| from <= k < i ==> s@[k] != c,
        decreases len - i,
    {
        let ch = s.get_char(i);
        if ch == c {
            return (out, i);
        }
        out.push(ch);
        i += 1;
        proof {
            assert(out@ =~= s@.subrange(from as int, i as int));
        }
    }
    (out, i)
}

/// The value of a string of digits does not drop when more digits follow.
proof fn lemma_digits_value_prefix(d: Seq<char>, k: int)
    requires
        0 <= k <= d.len(),
        forall|i: int| 0 <= i < d.len() ==> is_digit(#[trigger] d[i]),
    ensures
        0 <= digits_value(d.subrange(0, k)) <= digits_value(d),
    decreases d.len(),
{
    if k < d.len() {
        let init = d.drop_last();
        assert forall|i: int| 0 <= i < init.len() implies is_digit(#[trigger] init[i]) by {
            assert(init[i] == d[i]);
        }
        lemma_digits_value_prefix(init, k);
        assert(init.subrange(0, k) == d.subrange(0, k));
        lemma_digits_value_nonneg(init);
        assert(is_digit(d[d.len() - 1]));
    } else {
        assert(d.subrange(0, k) == d);
        lemma_digits_value_nonneg(d);
    }
}

proof fn lemma_digits_value_nonneg(d: Seq<char>)
    requires
        forall|i: int| 0 <= i < d.len() ==> is_digit(#[trigger] d[i]),
    ensures
        digits_value(d) >= 0,
    decreases d.len(),
{
    if d.len() > 0 {
        let init = d.drop_last();
        assert forall|i: int| 0 <= i < init.len() implies is_digit(#[trigger] init[i]) by {
            assert(init[i] == d[i]);
        }
        lemma_digits_value_nonneg(init);
        assert(is_digit(d[d.len() - 1]));
    }
}

proof fn lemma_parse_i64_non_digit(s: Seq<char>, digits: Seq<char>)
    requires
        digits == unsigned_part(s),
        exists|k: int| 0 <= k < digits.len() && !is_digit(#[trigger] digits[k]),
    ensures
        parse_i64_spec(s) == None::<i64>,
{
}

proof fn lemma_parse_i64_too_large(s: Seq<char>, digits: Seq<char>)
    requires
        digits == unsigned_part(s),
        digits_value(digits) > 0xffff_ffff_ffff_ffffu64,
    ensures
        parse_i64_spec(s) == None::<i64>,
{
}

/// Read an `i64` written in decimal (see [`parse_i64_spec`]).
pub fn parse_i64(s: &str) -> (r: Option<i64>)
    ensures
        r == parse_i64_spec(s@),
{
    let len = s.unicode_len();
    let ghost v = s@;
    let mut start: usize = 0;
    let mut neg = false;
    if len > 0 {
        let first = s.get_char(0);
        if first == '-' {
            neg = true;
            start = 1;
        } else if first == '+' {
            start = 1;
        }
    }
    let ghost digits = v.subrange(start as int, len as int);
    proof {
        if len > 0 && (v[0] == '-' || v[0] == '+') {
            assert(digits =~= v.drop_first());
        } else {
            assert(digits =~= v);
        }
    }
    if start == len {
        return None;
    }
    // The magnitude, which fits a `u64` for every value in range.
    let mut mag: u64 = 0;
    let mut i = start;
    while i < len
        invariant
            len == v.len(),
            v == s@,
            start <= i <= len,
            digits == v.subrange(start as int, len as int),
            digits == unsigned_part(v),
            neg == (v.len() > 0 && v[0] == '-'),
            forall|k: int| 0 <= k < i - start ==> is_digit(#[trigger] digits[k]),
            mag == digits_value(digits.subrange(0, i - start)),
        decreases len - i,
    {
        let ch = s.get_char(i);
        proof {
            assert(digits[i - start] == ch);
        }
        if !('0' <= ch && ch <= '9') {
            proof {
                assert(!is_digit(digits[i - start]));
                assert(exists|k: int| 0 <= k < digits.len() && !is_digit(#[trigger] digits[k]));
                lemma_parse_i64_non_digit(v, digits);
            }
            return None;
        }
        let d = (ch as u32 - '0' as u32) as u64;
        proof {
            let p = digits.subrange(0, i - start + 1);
            assert(p.drop_last() =~= digits.subrange(0, i - start));
            assert(p.last() == ch);
        }
        if mag > (u64::MAX - d) / 10 {
            proof {
                // The prefix read so far already exceeds every `i64`: either a later character
                // is not a digit, or the whole value is at least this large.
                let big = 0xffff_ffff_ffff_ffffu64 as int;
                assert(mag * 10 + d > big) by (nonlinear_arith)
                    requires
                        mag > (big - d) / 10,
                        0 <= d <= 9,
                        big > 9,
                ;
                if all_digits(digits) {
                    lemma_digits_value_prefix(digits, i - start + 1);
                    assert(digits_value(digits) > big);
                    lemma_parse_i64_too_large(v, digits);
                } else {
                    lemma_parse_i64_non_digit(v, digits);
                }
            }
            return None;
        }
        mag = mag * 10 + d;
        i += 1;
    }
    proof {
        assert(digits.subrange(0, len - start) == digits);
    }
    if neg {
        if mag > 0x8000_0000_0000_0000u64 {
            None
        } else if mag == 0x8000_0000_0000_0000u64 {
            Some(i64::MIN)
        } else {
            Some(-(mag as i64))
        }
    } else {
        if mag > 0x7fff_ffff_ffff_ffffu64 {
            None
        } else {
            Some(mag as i64)
        }
    }
}

/// Read a module name (see [`parse_module_name_spec`]).
pub fn parse_module_name(name: &str) -> (r: Result<ModuleName, ModuleNameError>)
    ensures
        match r {
            Ok(m) => parse_module_name_spec(name@) == Ok::<(Seq<char>, Option<i64>), ModuleNameError>(
                (m.file@, m.shift),
            ),
            Err(e) => parse_module_name_spec(name@) == Err::<(Seq<char>, Option<i64>), ModuleNameError>(e),
        },
{
    let len = name.unicode_len();
    let (file, i) = piece_until(name, len, 0, '[');
    proof {
        lemma_split_at(name@, '[', 0, i as int);
        assert(name@.subrange(0, len as int) == name@);
    }
    if i == len {
        return Ok(ModuleName { file, shift: None });
    }
    let (piece, j) = piece_until(name, len, i + 1, '[');
    proof {
        lemma_split_at(name@, '[', i + 1, j as int);
    }
    let plen = piece.as_str().unicode_len();
    if plen == 0 || piece.as_str().get_char(plen - 1) != ']' {
        return Err(ModuleNameError::UnterminatedShift);
    }
    let inner = piece.as_str().substring_char(0, plen - 1);
    proof {
        assert(inner@ =~= piece@.drop_last());
    }
    match parse_i64(inner) {
        Some(v) => Ok(ModuleName { file, shift: Some(v) }),
        None => Err(ModuleNameError::InvalidShift),
    }
}

/// Split a module specification into the module name and the algebra (see
/// [`split_algebra_spec`]).
pub fn split_algebra(spec: &str) -> (r: (String, Option<String>))
    ensures
        (r.0@, match r.1 {
            Some(a) => Some(a@),
            None => None,
        }) == split_algebra_spec(spec@),
{
    let len = spec.unicode_len();
    let (module, i) = piece_until(spec, len, 0, '@');
    proof {
        lemma_split_at(spec@, '@', 0, i as int);
        assert(spec@.subrange(0, len as int) == spec@);
    }
    if i == len {
        return (module, None);
    }
    let (algebra, j) = piece_until(spec, len, i + 1, '@');
    proof {
        lemma_split_at(spec@, '@', i + 1, j as int);
    }
    (module, Some(algebra))
}

} // verus!
