use vstd::prelude::*;
use vstd::string::StrSliceExecFns;
use vstd::string::StringExecFns;

verus! {

/// The decimal digit character for `d`.
pub open spec fn dec_digit(d: nat) -> char {
    if d == 0 {
        '0'
    } else if d == 1 {
        '1'
    } else if d == 2 {
        '2'
    } else if d == 3 {
        '3'
    } else if d == 4 {
        '4'
    } else if d == 5 {
        '5'
    } else if d == 6 {
        '6'
    } else if d == 7 {
        '7'
    } else if d == 8 {
        '8'
    } else {
        '9'
    }
}

/// The decimal rendering of `n`, most significant digit first, no sign, no
/// leading zeros (a single `0` for zero).
pub open spec fn dec_seq(n: nat) -> Seq<char>
    decreases n,
{
    if n < 10 {
        seq![dec_digit(n)]
    } else {
        dec_seq(n / 10) + seq![dec_digit(n % 10)]
    }
}

/// The lowercase hexadecimal digit character for `d`.
pub open spec fn hex_digit(d: nat) -> char {
    if d < 10 {
        dec_digit(d)
    } else if d == 10 {
        'a'
    } else if d == 11 {
        'b'
    } else if d == 12 {
        'c'
    } else if d == 13 {
        'd'
    } else if d == 14 {
        'e'
    } else {
        'f'
    }
}

/// The lowercase hexadecimal rendering of `n`, no leading zeros.
pub open spec fn hex_seq(n: nat) -> Seq<char>
    decreases n,
{
    if n < 16 {
        seq![hex_digit(n)]
    } else {
        hex_seq(n / 16) + seq![hex_digit(n % 16)]
    }
}

pub open spec fn is_dec_digit(c: char) -> bool {
    48 <= c as u32 <= 57
}

pub open spec fn dec_digit_val(c: char) -> nat {
    (c as u32 - 48) as nat
}

pub open spec fn all_dec(s: Seq<char>) -> bool {
    forall|i: int| 0 <= i < s.len() ==> is_dec_digit(#[trigger] s[i])
}

/// The value of a decimal digit string.
pub open spec fn dec_val(s: Seq<char>) -> nat
    decreases s.len(),
{
    if s.len() == 0 {
        0
    } else {
        dec_val(s.drop_last()) * 10 + dec_digit_val(s.last())
    }
}

pub open spec fn is_hex_digit(c: char) -> bool {
    ||| 48 <= c as u32 <= 57
    ||| 97 <= c as u32 <= 102
    ||| 65 <= c as u32 <= 70
}

pub open spec fn hex_digit_val(c: char) -> nat {
    if 48 <= c as u32 <= 57 {
        (c as u32 - 48) as nat
    } else if 97 <= c as u32 <= 102 {
        (c as u32 - 87) as nat
    } else {
        (c as u32 - 55) as nat
    }
}

pub open spec fn all_hex(s: Seq<char>) -> bool {
    forall|i: int| 0 <= i < s.len() ==> is_hex_digit(#[trigger] s[i])
}

/// The value of a hexadecimal digit string.
pub open spec fn hex_val(s: Seq<char>) -> nat
    decreases s.len(),
{
    if s.len() == 0 {
        0
    } else {
        hex_val(s.drop_last()) * 16 + hex_digit_val(s.last())
    }
}

/// Append the single decimal digit `d`.
fn append_dec_digit(s: &mut String, d: u64)
    requires
        d < 10,
    ensures
        final(s)@ == old(s)@ + seq![dec_digit(d as nat)],
{
    proof {
        reveal_strlit("0");
        reveal_strlit("1");
        reveal_strlit("2");
        reveal_strlit("3");
        reveal_strlit("4");
        reveal_strlit("5");
        reveal_strlit("6");
        reveal_strlit("7");
        reveal_strlit("8");
        reveal_strlit("9");
    }
    if d == 0 {
        s.append("0");
    } else if d == 1 {
        s.append("1");
    } else if d == 2 {
        s.append("2");
    } else if d == 3 {
        s.append("3");
    } else if d == 4 {
        s.append("4");
    } else if d == 5 {
        s.append("5");
    } else if d == 6 {
        s.append("6");
    } else if d == 7 {
        s.append("7");
    } else if d == 8 {
        s.append("8");
    } else {
        s.append("9");
    }
}

/// Append the decimal rendering of `n`.
pub fn append_dec(s: &mut String, n: u64)
    ensures
        final(s)@ == old(s)@ + dec_seq(n as nat),
    decreases n,
{
    if n < 10 {
        append_dec_digit(s, n);
    } else {
        append_dec(s, n / 10);
        append_dec_digit(s, n % 10);
        assert(old(s)@ + dec_seq((n / 10) as nat) + seq![dec_digit((n % 10) as nat)] =~= old(s)@
            + dec_seq(n as nat));
    }
}

/// Append the single lowercase hexadecimal digit `d`.
fn append_hex_digit(s: &mut String, d: u64)
    requires
        d < 16,
    ensures
        final(s)@ == old(s)@ + seq![hex_digit(d as nat)],
{
    proof {
        reveal_strlit("a");
        reveal_strlit("b");
        reveal_strlit("c");
        reveal_strlit("d");
        reveal_strlit("e");
        reveal_strlit("f");
    }
    if d < 10 {
        append_dec_digit(s, d);
    } else if d == 10 {
        s.append("a");
    } else if d == 11 {
        s.append("b");
    } else if d == 12 {
        s.append("c");
    } else if d == 13 {
        s.append("d");
    } else if d == 14 {
        s.append("e");
    } else {
        s.append("f");
    }
}

/// Append the lowercase hexadecimal rendering of `n`.
pub fn append_hex(s: &mut String, n: u128)
    ensures
        final(s)@ == old(s)@ + hex_seq(n as nat),
    decreases n,
{
    if n < 16 {
        append_hex_digit(s, n as u64);
    } else {
        append_hex(s, n / 16);
        append_hex_digit(s, (n % 16) as u64);
        assert(old(s)@ + hex_seq((n / 16) as nat) + seq![hex_digit((n % 16) as nat)] =~= old(s)@
            + hex_seq(n as nat));
    }
}

/// Once a prefix of digits exceeds a bound, every extension does too.
proof fn lemma_dec_val_grows(s: Seq<char>, i: int, bound: nat)
    requires
        0 <= i <= s.len(),
        dec_val(s.take(i)) > bound,
    ensures
        dec_val(s) > bound,
    decreases s.len() - i,
{
    if i < s.len() {
        assert(s.take(i + 1).drop_last() =~= s.take(i));
        assert(dec_val(s.take(i + 1)) == dec_val(s.take(i)) * 10 + dec_digit_val(s.take(i + 1).last()));
        lemma_dec_val_grows(s, i + 1, bound);
    } else {
        assert(s.take(i) =~= s);
    }
}

proof fn lemma_hex_val_grows(s: Seq<char>, i: int, bound: nat)
    requires
        0 <= i <= s.len(),
        hex_val(s.take(i)) > bound,
    ensures
        hex_val(s) > bound,
    decreases s.len() - i,
{
    if i < s.len() {
        assert(s.take(i + 1).drop_last() =~= s.take(i));
        assert(hex_val(s.take(i + 1)) == hex_val(s.take(i)) * 16 + hex_digit_val(s.take(i + 1).last()));
        lemma_hex_val_grows(s, i + 1, bound);
    } else {
        assert(s.take(i) =~= s);
    }
}

/// Parse an unsigned decimal number, as publisher entity ids are written:
/// one or more decimal digits whose value fits.
pub fn parse_dec_u32(s: &str) -> (r: Option<u32>)
    ensures
        r is Some <==> s@.len() >= 1 && all_dec(s@) && dec_val(s@) <= u32::MAX,
        r is Some ==> r->Some_0 == dec_val(s@),
{
    let n = s.unicode_len();
    if n == 0 {
        return None;
    }
    let mut acc: u32 = 0;
    let mut i: usize = 0;
    while i < n
        invariant
            0 <= i <= n,
            n == s@.len(),
            all_dec(s@.take(i as int)),
            acc == dec_val(s@.take(i as int)),
        decreases n - i,
    {
        let c = s.get_char(i);
        let v = c as u32;
        if v < 48 || v > 57 {
            assert(!is_dec_digit(s@[i as int]));
            return None;
        }
        let d = v - 48;
        if acc > (u32::MAX - d) / 10 {
            proof {
                assert(s@.take(i as int + 1).drop_last() =~= s@.take(i as int));
                assert(dec_val(s@.take(i as int + 1)) > u32::MAX) by (nonlinear_arith)
                    requires
                        dec_val(s@.take(i as int + 1)) == dec_val(s@.take(i as int)) * 10
                            + dec_digit_val(s@.take(i as int + 1).last()),
                        dec_val(s@.take(i as int)) > (u32::MAX - dec_digit_val(
                            s@.take(i as int + 1).last(),
                        )) / 10,
                        dec_digit_val(s@.take(i as int + 1).last()) <= 9,
                ;
                lemma_dec_val_grows(s@, i as int + 1, u32::MAX as nat);
            }
            return None;
        }
        proof {
            assert(s@.take(i as int + 1).drop_last() =~= s@.take(i as int));
            assert(acc * 10 + d <= u32::MAX) by (nonlinear_arith)
                requires
                    acc <= (u32::MAX - d) / 10,
                    d <= 9,
            ;
            assert(forall|j: int|
                0 <= j < i + 1 ==> is_dec_digit(#[trigger] s@.take(i as int + 1)[j]));
        }
        acc = acc * 10 + d;
        i = i + 1;
    }
    proof {
        assert(s@.take(n as int) =~= s@);
    }
    Some(acc)
}

/// Parse a node id, as node ids are written: one or more hexadecimal digits
/// with no leading zero, whose value fits.
pub fn parse_hex_u128(s: &str) -> (r: Option<u128>)
    ensures
        r is Some <==> s@.len() >= 1 && s@[0] != '0' && all_hex(s@) && hex_val(s@) <= u128::MAX,
        r is Some ==> r->Some_0 == hex_val(s@),
{
    let n = s.unicode_len();
    if n == 0 {
        return None;
    }
    if s.get_char(0) == '0' {
        return None;
    }
    let mut acc: u128 = 0;
    let mut i: usize = 0;
    while i < n
        invariant
            0 <= i <= n,
            n == s@.len(),
            all_hex(s@.take(i as int)),
            acc == hex_val(s@.take(i as int)),
        decreases n - i,
    {
        let c = s.get_char(i);
        let v = c as u32;
        let d: u128 = if 48 <= v && v <= 57 {
            (v - 48) as u128
        } else if 97 <= v && v <= 102 {
            (v - 87) as u128
        } else if 65 <= v && v <= 70 {
            (v - 55) as u128
        } else {
            assert(!is_hex_digit(s@[i as int]));
            return None;
        };
        if acc > (u128::MAX - d) / 16 {
            proof {
                assert(s@.take(i as int + 1).drop_last() =~= s@.take(i as int));
                assert(hex_val(s@.take(i as int + 1)) > u128::MAX) by (nonlinear_arith)
                    requires
                        hex_val(s@.take(i as int + 1)) == hex_val(s@.take(i as int)) * 16
                            + hex_digit_val(s@.take(i as int + 1).last()),
                        hex_val(s@.take(i as int)) > (u128::MAX - hex_digit_val(
                            s@.take(i as int + 1).last(),
                        )) / 16,
                        hex_digit_val(s@.take(i as int + 1).last()) <= 15,
                ;
                lemma_hex_val_grows(s@, i as int + 1, u128::MAX as nat);
            }
            return None;
        }
        proof {
            assert(s@.take(i as int + 1).drop_last() =~= s@.take(i as int));
            assert(acc * 16 + d <= u128::MAX) by (nonlinear_arith)
                requires
                    acc <= (u128::MAX - d) / 16,
                    d <= 15,
            ;
            assert(forall|j: int|
                0 <= j < i + 1 ==> is_hex_digit(#[trigger] s@.take(i as int + 1)[j]));
        }
        acc = acc * 16 + d;
        i = i + 1;
    }
    proof {
        assert(s@.take(n as int) =~= s@);
    }
    Some(acc)
}

} // verus!
