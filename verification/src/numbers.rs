//! Numbers as decimal text: written without a sign and without leading
//! zeros, and read back from the place where such a number stands.

use vstd::prelude::*;

verus! {

/// Whether `c` is a decimal digit.
pub open spec fn is_digit(c: char) -> bool {
    '0' <= c && c <= '9'
}

/// The digit that stands for `d`.
pub open spec fn digit_of(d: int) -> char {
    (d + 48) as char
}

/// The value of the digit `c`.
pub open spec fn value_of(c: char) -> int {
    c as int - 48
}

/// The decimal digits of `n`, the highest first, without leading zeros.
pub open spec fn digits(n: nat) -> Seq<char>
    decreases n,
{
    if n < 10 {
        seq![digit_of(n as int)]
    } else {
        digits(n / 10).push(digit_of((n % 10) as int))
    }
}

/// The number that a sequence of digits stands for.
pub open spec fn number(s: Seq<char>) -> nat
    decreases s.len(),
{
    if s.len() == 0 {
        0
    } else {
        (number(s.drop_last()) * 10 + value_of(s.last())) as nat
    }
}

/// Whether `s` holds digits only.
pub open spec fn all_digits(s: Seq<char>) -> bool {
    forall|i: int| 0 <= i < s.len() ==> is_digit(#[trigger] s[i])
}

/// Whether `s` is a number as it is written: at least one digit, digits
/// only, and no zero in front of another digit.
pub open spec fn canonical(s: Seq<char>) -> bool {
    s.len() >= 1 && all_digits(s) && (s.len() > 1 ==> s[0] != '0')
}

/// Whether `s` is empty or begins with something else than a digit: what
/// may follow a number.
pub open spec fn ends_number(s: Seq<char>) -> bool {
    s.len() == 0 || !is_digit(s[0])
}

/// A number is written as it should be.
pub proof fn lemma_digits_canonical(n: nat)
    ensures
        canonical(digits(n)),
        n == 0 <==> digits(n) == seq!['0'],
    decreases n,
{
    let s = digits(n);
    if n >= 10 {
        let front = digits(n / 10);
        lemma_digits_canonical(n / 10);
        assert(front[0] == s[0]);
        if front.len() == 1 && front[0] == '0' {
            assert(front =~= seq!['0']);
        }
        assert(s.len() >= 2);
        assert(s != seq!['0']);
        assert forall|i: int| 0 <= i < s.len() implies is_digit(#[trigger] s[i]) by {
            if i < s.len() - 1 {
                assert(s[i] == front[i]);
            }
        }
    } else {
        assert(is_digit(s[0]));
        if n != 0 {
            assert(s[0] != '0');
        } else {
            assert(s =~= seq!['0']);
        }
    }
}

/// What is written stands for the number that was written.
pub proof fn lemma_number_digits(n: nat)
    ensures
        number(digits(n)) == n,
    decreases n,
{
    if n >= 10 {
        lemma_number_digits(n / 10);
        assert(digits(n).drop_last() == digits(n / 10));
    } else {
        assert(digits(n).drop_last() =~= Seq::<char>::empty());
        assert(number(digits(n).drop_last()) == 0);
    }
}

/// A written number with more than one digit is at least ten; with a first
/// digit that is no zero, at least one.
pub proof fn lemma_number_size(s: Seq<char>)
    requires
        canonical(s),
    ensures
        s.len() > 1 ==> number(s) >= 10,
        s[0] != '0' ==> number(s) >= 1,
    decreases s.len(),
{
    if s.len() > 1 {
        let front = s.drop_last();
        assert(front[0] == s[0]);
        assert(is_digit(s[s.len() - 1]));
        assert forall|i: int| 0 <= i < front.len() implies is_digit(#[trigger] front[i]) by {
            assert(front[i] == s[i]);
        }
        lemma_number_size(front);
    } else {
        assert(s.drop_last() =~= Seq::<char>::empty());
        assert(number(s.drop_last()) == 0);
        assert(is_digit(s[0]));
    }
}

/// A number as it is written is what writing its value gives.
pub proof fn lemma_digits_number(s: Seq<char>)
    requires
        canonical(s),
    ensures
        digits(number(s)) == s,
    decreases s.len(),
{
    assert(is_digit(s[s.len() - 1]));
    if s.len() > 1 {
        let front = s.drop_last();
        assert(front[0] == s[0]);
        assert forall|i: int| 0 <= i < front.len() implies is_digit(#[trigger] front[i]) by {
            assert(front[i] == s[i]);
        }
        lemma_digits_number(front);
        lemma_number_size(front);
        let v = value_of(s.last());
        assert(number(s) == number(front) * 10 + v);
        assert(number(s) / 10 == number(front) && number(s) % 10 == v) by (nonlinear_arith)
            requires
                number(s) == number(front) * 10 + v,
                0 <= v < 10,
        ;
        assert(digit_of(v) == s.last());
        assert(digits(number(s)) =~= s);
    } else {
        assert(s.drop_last() =~= Seq::<char>::empty());
        assert(number(s.drop_last()) == 0);
        assert(digits(number(s)) =~= s);
    }
}

/// The digits in front of a number stand for no more than the number.
pub proof fn lemma_number_grows(s: Seq<char>, k: int)
    requires
        all_digits(s),
        0 <= k <= s.len(),
    ensures
        number(s.take(k)) <= number(s),
    decreases s.len() - k,
{
    if k < s.len() {
        lemma_number_grows(s, k + 1);
        assert(s.take(k + 1).drop_last() == s.take(k));
        assert(is_digit(s.take(k + 1)[k]));
    } else {
        assert(s.take(k) == s);
    }
}

/// Two written numbers, each followed by something that ends it, that give
/// the same text are the same number, followed by the same.
pub proof fn lemma_number_unique(a: nat, y: Seq<char>, b: nat, z: Seq<char>)
    requires
        ends_number(y),
        ends_number(z),
        digits(a) + y == digits(b) + z,
    ensures
        a == b,
        y == z,
{
    let s = digits(a);
    let t = digits(b);
    lemma_digits_canonical(a);
    lemma_digits_canonical(b);
    lemma_number_digits(a);
    lemma_number_digits(b);
    assert((s + y).len() == (t + z).len());
    if s.len() < t.len() {
        assert((s + y)[s.len() as int] == y[0]);
        assert((t + z)[s.len() as int] == t[s.len() as int]);
        assert(false);
    }
    if t.len() < s.len() {
        assert((t + z)[t.len() as int] == z[0]);
        assert((s + y)[t.len() as int] == s[t.len() as int]);
        assert(false);
    }
    assert(s =~= t) by {
        assert forall|i: int| 0 <= i < s.len() implies s[i] == t[i] by {
            assert((s + y)[i] == s[i]);
            assert((t + z)[i] == t[i]);
        }
    }
    assert(y =~= z) by {
        assert forall|i: int| 0 <= i < y.len() implies y[i] == z[i] by {
            assert((s + y)[s.len() + i] == y[i]);
            assert((t + z)[t.len() + i] == z[i]);
        }
    }
}

/// The digit that stands for `d`.
pub fn digit_char(d: u64) -> (c: char)
    requires
        d < 10,
    ensures
        c == digit_of(d as int),
{
    if d == 0 {
        '0'
    } else if d == 1 {
        '1'
    } else if d == 2 {
        '2'
    } else if d == 3 {
        '3'
    } else if d == 4 {
        '4'
    } else if d == 5 {
        '5'
    } else if d == 6 {
        '6'
    } else if d == 7 {
        '7'
    } else if d == 8 {
        '8'
    } else {
        '9'
    }
}

/// Writes `n` behind what `out` holds.
pub fn write_number(out: &mut Vec<char>, n: u64)
    ensures
        final(out)@ == old(out)@ + digits(n as nat),
    decreases n,
{
    if n >= 10 {
        write_number(out, n / 10);
    }
    out.push(digit_char(n % 10));
    assert(final(out)@ =~= old(out)@ + digits(n as nat));
}

/// Reads the number that stands at `pos`: its value and the place behind
/// it. There is none where no digit stands at `pos`, where a zero stands in
/// front of another digit, and where the digits stand for more than 64 bits
/// hold.
pub fn read_number(text: &Vec<char>, pos: usize) -> (r: Option<(u64, usize)>)
    ensures
        match r {
            Some((value, next)) => pos < next <= text.len() && text@.subrange(
                pos as int,
                next as int,
            ) == digits(value as nat) && ends_number(text@.skip(next as int)),
            None => forall|n: nat, y: Seq<char>|
                n <= u64::MAX && ends_number(y) && pos <= text.len() ==> text@.skip(pos as int)
                    != #[trigger] (digits(n) + y),
        },
{
    let len = text.len();
    if pos >= len || !('0' <= text[pos] && text[pos] <= '9') {
        assert forall|n: nat, y: Seq<char>|
            n <= u64::MAX && ends_number(y) && pos <= text.len() implies text@.skip(pos as int)
            != #[trigger] (digits(n) + y) by {
            lemma_digits_canonical(n);
            assert((digits(n) + y)[0] == digits(n)[0]);
            assert(is_digit(digits(n)[0]));
            if pos < len {
                assert(text@.skip(pos as int)[0] == text@[pos as int]);
            } else {
                assert(text@.skip(pos as int).len() == 0);
            }
        }
        return None;
    }
    let mut value: u64 = 0;
    let mut k: usize = pos;
    assert(text@.subrange(pos as int, k as int) =~= Seq::<char>::empty());
    while k < len && '0' <= text[k] && text[k] <= '9'
        invariant
            pos <= k <= len == text.len(),
            all_digits(text@.subrange(pos as int, k as int)),
            value == number(text@.subrange(pos as int, k as int)),
            pos < len && is_digit(text@[pos as int]),
        decreases len - k,
    {
        let d: u64 = (text[k] as u32 - 48) as u64;
        let ghost run = text@.subrange(pos as int, k + 1);
        assert(run.drop_last() == text@.subrange(pos as int, k as int));
        assert(all_digits(run)) by {
            assert forall|i: int| 0 <= i < run.len() implies is_digit(#[trigger] run[i]) by {
                if i < run.len() - 1 {
                    assert(run[i] == run.drop_last()[i]);
                }
            }
        }
        if value > (u64::MAX - d) / 10 {
            assert(number(run) > u64::MAX);
            assert forall|n: nat, y: Seq<char>|
                n <= u64::MAX && ends_number(y) && pos <= text.len() implies text@.skip(pos as int)
                != #[trigger] (digits(n) + y) by {
                if text@.skip(pos as int) == digits(n) + y {
                    let s = digits(n);
                    lemma_digits_canonical(n);
                    lemma_number_digits(n);
                    if s.len() < run.len() {
                        assert((s + y)[s.len() as int] == y[0]);
                        assert(text@.skip(pos as int)[s.len() as int] == run[s.len() as int]);
                        assert(false);
                    }
                    assert(s.take(run.len() as int) =~= run) by {
                        assert forall|i: int| 0 <= i < run.len() implies s[i] == run[i] by {
                            assert((s + y)[i] == s[i]);
                        }
                    }
                    lemma_number_grows(s, run.len() as int);
                    assert(false);
                }
            }
            return None;
        }
        value = value * 10 + d;
        k += 1;
    }
    let ghost run = text@.subrange(pos as int, k as int);
    assert(run[0] == text@[pos as int]);
    if text[pos] == '0' && k > pos + 1 {
        assert forall|n: nat, y: Seq<char>|
            n <= u64::MAX && ends_number(y) && pos <= text.len() implies text@.skip(pos as int)
            != #[trigger] (digits(n) + y) by {
            if text@.skip(pos as int) == digits(n) + y {
                let s = digits(n);
                lemma_digits_canonical(n);
                assert((s + y)[0] == s[0]);
                assert(s.len() == 1);
                assert((s + y)[1] == y[0]);
                assert(text@.skip(pos as int)[1] == run[1]);
                assert(is_digit(run[1]));
                assert(false);
            }
        }
        return None;
    }
    proof {
        lemma_digits_number(run);
    }
    Some((value, k))
}

} // verus!
