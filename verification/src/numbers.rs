//! Decimal text: rendering unsigned numbers, and parsing the decimal
//! seconds the media probe prints into whole milliseconds.

use vstd::prelude::*;

use crate::text::{push_char, str_chars};

verus! {

/// The character of one decimal digit.
pub open spec fn digit_char(d: nat) -> char {
    if d == 0 {
        '0'
    } else if d == 1 {
        '1'
    } else if d == 2 {
        '2'
    } else if d == 3 {
        '3'
    } else if d == 4 {
        '4'
    } else if d == 5 {
        '5'
    } else if d == 6 {
        '6'
    } else if d == 7 {
        '7'
    } else if d == 8 {
        '8'
    } else {
        '9'
    }
}

/// Whether a character is a decimal digit.
pub open spec fn is_digit(c: char) -> bool {
    ('0' as u32) <= (c as u32) && (c as u32) <= ('9' as u32)
}

/// The value of one decimal digit character.
pub open spec fn digit_val(c: char) -> nat {
    ((c as u32) - ('0' as u32)) as nat
}

/// The usual decimal rendering of a number, most significant digit first
/// and without leading zeros.
pub open spec fn dec_rep(n: nat) -> Seq<char>
    decreases n,
{
    if n < 10 {
        seq![digit_char(n)]
    } else {
        dec_rep(n / 10).push(digit_char(n % 10))
    }
}

/// The value of a sequence of decimal digit characters.
pub open spec fn digits_val(ds: Seq<char>) -> nat
    decreases ds.len(),
{
    if ds.len() == 0 {
        0
    } else {
        digits_val(ds.drop_last()) * 10 + digit_val(ds.last())
    }
}

/// The powers of ten.
pub open spec fn pow10(k: nat) -> nat
    decreases k,
{
    if k == 0 {
        1nat
    } else {
        10 * pow10((k - 1) as nat)
    }
}

/// A digit sequence is worth less than ten to its length.
pub proof fn lemma_digits_val_bound(ds: Seq<char>)
    requires
        forall|k: int| 0 <= k < ds.len() ==> is_digit(#[trigger] ds[k]),
    ensures
        digits_val(ds) < pow10(ds.len() as nat),
    decreases ds.len(),
{
    if ds.len() > 0 {
        assert forall|k: int| 0 <= k < ds.drop_last().len() implies is_digit(
            #[trigger] ds.drop_last()[k],
        ) by {
            assert(ds.drop_last()[k] == ds[k]);
        }
        lemma_digits_val_bound(ds.drop_last());
        assert(is_digit(ds.last())) by {
            assert(ds[ds.len() - 1] == ds.last());
        }
        assert(digit_val(ds.last()) <= 9);
    }
}

/// One decimal digit, as a character.
fn digit_to_char(d: u64) -> (c: char)
    requires
        d < 10,
    ensures
        c == digit_char(d as nat),
{
    if d == 0 {
        '0'
    } else if d == 1 {
        '1'
    } else if d == 2 {
        '2'
    } else if d == 3 {
        '3'
    } else if d == 4 {
        '4'
    } else if d == 5 {
        '5'
    } else if d == 6 {
        '6'
    } else if d == 7 {
        '7'
    } else if d == 8 {
        '8'
    } else {
        '9'
    }
}

/// Renders a number in decimal.
pub fn u64_to_string(n: u64) -> (r: String)
    ensures
        r@ == dec_rep(n as nat),
{
    let mut digits: Vec<char> = Vec::new();
    let mut m = n;
    while m >= 10
        invariant
            dec_rep(n as nat) == dec_rep(m as nat) + digits@.reverse(),
        decreases m,
    {
        let d = m % 10;
        let ghost digits_pre = digits@;
        let ghost m_pre = m;
        digits.push(digit_to_char(d));
        m = m / 10;
        proof {
            assert(m < m_pre) by (nonlinear_arith)
                requires
                    m_pre >= 10,
                    m == m_pre / 10,
            ;
            assert(dec_rep(m_pre as nat) == dec_rep(m as nat).push(digit_char(
                (m_pre % 10) as nat,
            )));
            assert(digits@.reverse() =~= seq![digit_char((m_pre % 10) as nat)]
                + digits_pre.reverse());
            assert(dec_rep(m as nat).push(digit_char((m_pre % 10) as nat)) + digits_pre.reverse()
                =~= dec_rep(m as nat) + digits@.reverse());
        }
    }
    let ghost digits_pre = digits@;
    digits.push(digit_to_char(m));
    proof {
        assert(dec_rep(m as nat) == seq![digit_char(m as nat)]);
        assert(digits@.reverse() =~= seq![digit_char(m as nat)] + digits_pre.reverse());
        assert(digits@.reverse() =~= dec_rep(n as nat));
    }
    let mut r = String::new();
    let mut i = digits.len();
    while i > 0
        invariant
            0 <= i <= digits@.len(),
            r@ =~= digits@.reverse().take(digits@.len() - i),
            digits@.reverse() =~= dec_rep(n as nat),
        decreases i,
    {
        i = i - 1;
        push_char(&mut r, digits[i]);
        proof {
            assert(digits@.reverse()[digits@.len() - 1 - i] == digits@[i as int]);
            assert(r@ =~= digits@.reverse().take(digits@.len() - i));
        }
    }
    proof {
        assert(digits@.reverse().take(digits@.len() as int) =~= digits@.reverse());
        assert(r@ == dec_rep(n as nat));
    }
    r
}

/// The position of the first `.` in the sequence, or its length where
/// there is none.
pub open spec fn find_dot(s: Seq<char>) -> int
    decreases s.len(),
{
    if s.len() == 0 {
        0
    } else if s[0] == '.' {
        0
    } else {
        1 + find_dot(s.skip(1))
    }
}

/// The dot position is where the scan finds it.
proof fn lemma_find_dot_at(s: Seq<char>, i: int)
    requires
        0 <= i <= s.len(),
        forall|k: int| 0 <= k < i ==> s[k] != '.',
        i < s.len() ==> s[i] == '.',
    ensures
        find_dot(s) == i,
    decreases i,
{
    if s.len() > 0 && s[0] != '.' {
        assert(i > 0);
        assert forall|k: int| 0 <= k < i - 1 implies s.skip(1)[k] != '.' by {
            assert(s.skip(1)[k] == s[k + 1]);
        }
        assert(i - 1 < s.skip(1).len() ==> s.skip(1)[i - 1] == '.') by {
            if i - 1 < s.skip(1).len() {
                assert(s.skip(1)[i - 1] == s[i]);
            }
        }
        lemma_find_dot_at(s.skip(1), i - 1);
    }
}

/// The digits before the dot.
pub open spec fn whole_part(s: Seq<char>) -> Seq<char> {
    s.take(find_dot(s))
}

/// The digits after the dot, or nothing where there is no dot.
pub open spec fn frac_part(s: Seq<char>) -> Seq<char> {
    if find_dot(s) < s.len() {
        s.skip(find_dot(s) + 1)
    } else {
        Seq::empty()
    }
}

/// The texts this parser accepts as a duration: decimal digits, at most
/// one dot, at least one digit in all, and no more than fifteen digits
/// before the dot.
pub open spec fn valid_duration(s: Seq<char>) -> bool {
    &&& forall|k: int| 0 <= k < whole_part(s).len() ==> is_digit(#[trigger] whole_part(s)[k])
    &&& forall|k: int| 0 <= k < frac_part(s).len() ==> is_digit(#[trigger] frac_part(s)[k])
    &&& whole_part(s).len() + frac_part(s).len() > 0
    &&& whole_part(s).len() <= 15
}

/// The number of fractional digits that count towards milliseconds.
pub open spec fn frac_used(fs: Seq<char>) -> int {
    if fs.len() < 3 {
        fs.len() as int
    } else {
        3
    }
}

/// The milliseconds contributed by the fractional digits: the first three
/// of them, padded with zeros on the right.
pub open spec fn frac_ms(fs: Seq<char>) -> nat {
    digits_val(fs.take(frac_used(fs))) * pow10((3 - frac_used(fs)) as nat)
}

/// The duration in whole milliseconds, rounded down.
pub open spec fn duration_ms_of(s: Seq<char>) -> nat {
    digits_val(whole_part(s)) * 1000 + frac_ms(frac_part(s))
}

/// The position of the first `.` in the vector, or its length where
/// there is none.
fn find_dot_exec(chars: &Vec<char>) -> (dot: usize)
    ensures
        dot <= chars@.len(),
        forall|m: int| 0 <= m < dot ==> chars@[m] != '.',
        dot < chars@.len() ==> chars@[dot as int] == '.',
{
    let mut k: usize = 0;
    while k < chars.len()
        invariant
            0 <= k <= chars@.len(),
            forall|m: int| 0 <= m < k ==> chars@[m] != '.',
        decreases chars@.len() - k,
    {
        if chars[k] == '.' {
            return k;
        }
        k = k + 1;
    }
    k
}

/// Decides whether a character is a decimal digit.
fn is_digit_exec(c: char) -> (r: bool)
    ensures
        r == is_digit(c),
{
    ('0' as u32) <= (c as u32) && (c as u32) <= ('9' as u32)
}

/// The value of a digit character.
fn digit_val_exec(c: char) -> (r: u64)
    requires
        is_digit(c),
    ensures
        r as nat == digit_val(c),
        r < 10,
{
    ((c as u32) - ('0' as u32)) as u64
}

/// Parses the decimal seconds the media probe prints (digits with at most
/// one dot) into whole milliseconds, rounding down; texts of any other
/// shape, and whole parts beyond fifteen digits, are rejected. The probe's
/// raw output ends in a newline: the caller must trim surrounding
/// whitespace before handing the text here, or it is rejected.
pub fn parse_duration_ms(s: &str) -> (r: Option<u64>)
    ensures
        r is Some <==> valid_duration(s@),
        r matches Some(v) ==> v as nat == duration_ms_of(s@),
{
    let chars = str_chars(s);
    let n = chars.len();
    let dot = find_dot_exec(&chars);
    proof {
        lemma_find_dot_at(s@, dot as int);
        assert(find_dot(s@) == dot as int);
        assert(whole_part(s@) == s@.take(dot as int));
        if dot < n {
            assert(frac_part(s@) == s@.skip(dot as int + 1));
        } else {
            assert(frac_part(s@) == Seq::<char>::empty());
        }
    }
    let frac_len = if dot < n {
        n - dot - 1
    } else {
        0
    };
    if dot + frac_len == 0 {
        proof {
            assert(!valid_duration(s@));
        }
        return None;
    }
    if dot > 15 {
        proof {
            assert(!valid_duration(s@));
        }
        return None;
    }
    let mut k: usize = 0;
    while k < dot
        invariant
            0 <= k <= dot,
            dot <= n,
            n == chars@.len(),
            chars@ == s@,
            find_dot(s@) == dot as int,
            forall|m: int| 0 <= m < k ==> is_digit(#[trigger] s@[m]),
        decreases dot - k,
    {
        if !is_digit_exec(chars[k]) {
            proof {
                assert(whole_part(s@)[k as int] == s@[k as int]);
                assert(!valid_duration(s@));
            }
            return None;
        }
        k = k + 1;
    }
    let mut k: usize = 0;
    while k < frac_len
        invariant
            0 <= k <= frac_len,
            dot < n || frac_len == 0,
            frac_len == if dot < n {
                n - dot - 1
            } else {
                0
            },
            n == chars@.len(),
            chars@ == s@,
            find_dot(s@) == dot as int,
            forall|m: int| 0 <= m < k ==> is_digit(#[trigger] s@[dot + 1 + m]),
        decreases frac_len - k,
    {
        if !is_digit_exec(chars[dot + 1 + k]) {
            proof {
                assert(frac_part(s@)[k as int] == s@[dot + 1 + k]);
                assert(!valid_duration(s@));
            }
            return None;
        }
        k = k + 1;
    }
    proof {
        assert forall|m: int| 0 <= m < whole_part(s@).len() implies is_digit(
            #[trigger] whole_part(s@)[m],
        ) by {
            assert(whole_part(s@)[m] == s@[m]);
        }
        assert forall|m: int| 0 <= m < frac_part(s@).len() implies is_digit(
            #[trigger] frac_part(s@)[m],
        ) by {
            assert(frac_part(s@)[m] == s@[dot + 1 + m]);
        }
        assert(valid_duration(s@));
        assert(pow10(15) == 1000000000000000) by {
            reveal_with_fuel(pow10, 16);
        }
        lemma_digits_val_bound(whole_part(s@));
        assert(pow10((dot) as nat) <= pow10(15)) by {
            lemma_pow10_increases(dot as nat, 15);
        }
    }
    let mut acc: u64 = 0;
    let mut k: usize = 0;
    while k < dot
        invariant
            0 <= k <= dot,
            dot <= 15,
            dot <= n,
            n == chars@.len(),
            chars@ == s@,
            find_dot(s@) == dot as int,
            forall|m: int| 0 <= m < whole_part(s@).len() ==> is_digit(#[trigger] whole_part(s@)[m]),
            acc as nat == digits_val(whole_part(s@).take(k as int)),
            (acc as nat) < pow10(k as nat),
            pow10(15) == 1000000000000000,
        decreases dot - k,
    {
        proof {
            lemma_pow10_increases(k as nat, 14);
            assert(pow10(14) * 10 == pow10(15)) by {
                reveal_with_fuel(pow10, 16);
            }
            assert(acc * 10 < pow10(15)) by (nonlinear_arith)
                requires
                    (acc as nat) < pow10(14 as nat),
                    pow10(14) * 10 == pow10(15),
            ;
        }
        proof {
            assert(whole_part(s@)[k as int] == s@[k as int]);
        }
        let d = digit_val_exec(chars[k]);
        let ghost pre = whole_part(s@).take(k as int);
        acc = acc * 10 + d;
        proof {
            let cur = whole_part(s@).take(k as int + 1);
            assert(cur.drop_last() =~= pre);
            assert(cur.last() == whole_part(s@)[k as int]);
            assert(whole_part(s@)[k as int] == s@[k as int]);
            assert(digits_val(cur) == digits_val(pre) * 10 + digit_val(s@[k as int]));
            assert((acc as nat) < pow10((k + 1) as nat)) by {
                lemma_digits_val_bound_take(whole_part(s@), k as int + 1);
            }
        }
        k = k + 1;
    }
    proof {
        assert(whole_part(s@).take(dot as int) =~= whole_part(s@));
    }
    let mut fms: u64 = 0;
    let fused = if frac_len < 3 {
        frac_len
    } else {
        3
    };
    let mut k: usize = 0;
    while k < fused
        invariant
            0 <= k <= fused,
            fused == frac_used(frac_part(s@)),
            fused <= frac_len,
            find_dot(s@) == dot as int,
            frac_len == if dot < n {
                n - dot - 1
            } else {
                0
            },
            dot < n || frac_len == 0,
            n == chars@.len(),
            chars@ == s@,
            forall|m: int| 0 <= m < frac_part(s@).len() ==> is_digit(#[trigger] frac_part(s@)[m]),
            fms as nat == digits_val(frac_part(s@).take(k as int)),
            fms < 1000,
        decreases fused - k,
    {
        proof {
            assert(frac_part(s@)[k as int] == s@[dot + 1 + k]);
        }
        let d = digit_val_exec(chars[dot + 1 + k]);
        let ghost pre = frac_part(s@).take(k as int);
        proof {
            lemma_digits_val_bound_take(frac_part(s@), k as int);
            assert(pow10(2) == 100) by {
                reveal_with_fuel(pow10, 3);
            }
            assert(digits_val(pre) < 100) by {
                lemma_pow10_increases((k as nat), 2);
            }
        }
        fms = fms * 10 + d;
        proof {
            let cur = frac_part(s@).take(k as int + 1);
            assert(cur.drop_last() =~= pre);
            assert(cur.last() == frac_part(s@)[k as int]);
            assert(frac_part(s@)[k as int] == s@[dot + 1 + k]);
        }
        k = k + 1;
    }
    let scaled = if fused == 0 {
        0
    } else if fused == 1 {
        fms * 100
    } else if fused == 2 {
        fms * 10
    } else {
        fms
    };
    proof {
        let fp = frac_part(s@);
        assert(pow10(0) == 1 && pow10(1) == 10 && pow10(2) == 100 && pow10(3) == 1000) by {
            reveal_with_fuel(pow10, 4);
        }
        assert(digits_val(fp.take(frac_used(fp))) == fms as nat);
        if fused == 0 {
            assert(frac_used(fp) == 0);
            assert(fp.take(0).len() == 0);
            assert(digits_val(fp.take(0)) == 0);
            assert(frac_ms(fp) == 0);
        } else if fused == 1 {
            assert(frac_ms(fp) == digits_val(fp.take(1)) * pow10(2));
            assert(frac_ms(fp) == (fms as nat) * 100);
        } else if fused == 2 {
            assert(frac_ms(fp) == digits_val(fp.take(2)) * pow10(1));
            assert(frac_ms(fp) == (fms as nat) * 10);
        } else {
            assert(frac_ms(fp) == digits_val(fp.take(3)) * pow10(0));
            assert(frac_ms(fp) == (fms as nat) * 1);
        }
        assert(scaled as nat == frac_ms(fp));
        assert(scaled < 100000);
        assert((acc as nat) <= pow10(15));
    }
    Some(acc * 1000 + scaled)
}

/// Ten to a smaller power is no more than ten to a larger one.
proof fn lemma_pow10_increases(a: nat, b: nat)
    requires
        a <= b,
    ensures
        pow10(a) <= pow10(b),
    decreases b,
{
    if a < b {
        lemma_pow10_increases(a, (b - 1) as nat);
        assert(pow10(b) == 10 * pow10((b - 1) as nat));
        assert(pow10((b - 1) as nat) >= 1) by {
            lemma_pow10_pos((b - 1) as nat);
        }
    }
}

/// Every power of ten is positive.
proof fn lemma_pow10_pos(k: nat)
    ensures
        pow10(k) >= 1,
    decreases k,
{
    if k > 0 {
        lemma_pow10_pos((k - 1) as nat);
    }
}

/// A prefix of a digit sequence is worth less than ten to its length.
proof fn lemma_digits_val_bound_take(ds: Seq<char>, i: int)
    requires
        0 <= i <= ds.len(),
        forall|k: int| 0 <= k < ds.len() ==> is_digit(#[trigger] ds[k]),
    ensures
        digits_val(ds.take(i)) < pow10(i as nat),
{
    assert forall|k: int| 0 <= k < ds.take(i).len() implies is_digit(#[trigger] ds.take(i)[k]) by {
        assert(ds.take(i)[k] == ds[k]);
    }
    lemma_digits_val_bound(ds.take(i));
}

/// The decimal rendering of a number of milliseconds as seconds, with
/// exactly three fractional digits.
pub open spec fn seconds_text(ms: u64) -> Seq<char> {
    dec_rep((ms / 1000) as nat) + seq!['.'] + seq![
        digit_char(((ms % 1000) / 100) as nat),
        digit_char((((ms % 1000) / 10) % 10) as nat),
        digit_char(((ms % 1000) % 10) as nat),
    ]
}

/// Renders a number of milliseconds as decimal seconds with exactly three
/// fractional digits.
pub fn format_seconds_ms(ms: u64) -> (r: String)
    ensures
        r@ == seconds_text(ms),
{
    let mut r = u64_to_string(ms / 1000);
    let f = ms % 1000;
    push_char(&mut r, '.');
    push_char(&mut r, digit_to_char(f / 100));
    push_char(&mut r, digit_to_char((f / 10) % 10));
    push_char(&mut r, digit_to_char(f % 10));
    proof {
        assert(r@ =~= seconds_text(ms));
    }
    r
}

} // verus!
