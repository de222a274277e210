//! The time segment: a timestamp written as fixed-width big-endian base32.
use vstd::prelude::*;

use crate::alphabet::{all_symbols, digit, index_of, is_symbol, symbol, symbol_at, lemma_symbol_digit, lemma_digit_symbol};
use crate::error::UlidError;
use crate::text::{chars_of, string_of};

verus! {

/// The largest timestamp: 2^48 - 1 milliseconds.
pub const TIME_MAX: u64 = 281474976710655;

/// Number of symbols in the time segment.
pub const TIME_LEN: usize = 10;

/// Number of symbols in the random segment.
pub const RANDOM_LEN: usize = 16;

/// Number of symbols in a whole identifier.
pub const ULID_LEN: usize = 26;

/// 32 to the power `n`.
pub open spec fn pow32(n: nat) -> nat
    decreases n,
{
    if n == 0 {
        1
    } else {
        32 * pow32((n - 1) as nat)
    }
}

/// The lowest `len` base32 digits of `t`, most significant first.
pub open spec fn time_chars(t: nat, len: nat) -> Seq<char>
    decreases len,
{
    if len == 0 {
        Seq::empty()
    } else {
        time_chars(t / 32, (len - 1) as nat).push(symbol((t % 32) as int))
    }
}

/// The number that the symbols of `s` write in big-endian base32.
pub open spec fn value(s: Seq<char>) -> nat
    decreases s.len(),
{
    if s.len() == 0 {
        0
    } else {
        value(s.drop_last()) * 32 + digit(s.last()) as nat
    }
}

/// The rightmost character of `s` that is not a symbol, if there is one.
pub open spec fn last_invalid(s: Seq<char>) -> Option<char>
    decreases s.len(),
{
    if s.len() == 0 {
        None
    } else if !is_symbol(s.last()) {
        Some(s.last())
    } else {
        last_invalid(s.drop_last())
    }
}

/// What decoding the time segment of `id` gives.
pub open spec fn decoded(id: Seq<char>) -> Result<u64, UlidError> {
    if id.len() != ULID_LEN {
        Err(UlidError::MalformedInput)
    } else {
        let t = id.take(TIME_LEN as int);
        match last_invalid(t) {
            Some(c) => Err(UlidError::InvalidCharacter(c)),
            None => if value(t) > TIME_MAX {
                Err(UlidError::TimeTooLarge)
            } else {
                Ok(value(t) as u64)
            },
        }
    }
}

/// `time_chars` writes only symbols, `len` of them.
pub proof fn lemma_time_chars_symbols(t: nat, len: nat)
    ensures
        time_chars(t, len).len() == len,
        all_symbols(time_chars(t, len)),
    decreases len,
{
    if len > 0 {
        lemma_time_chars_symbols(t / 32, (len - 1) as nat);
        lemma_symbol_digit((t % 32) as int);
        let s = time_chars(t, len);
        assert forall|i: int| 0 <= i < s.len() implies #[trigger] is_symbol(s[i]) by {
            if i < len - 1 {
                assert(s[i] == time_chars(t / 32, (len - 1) as nat)[i]);
            }
        }
    }
}

/// A number below 32^len is read back from its `len` digits.
pub proof fn lemma_value_time_chars(t: nat, len: nat)
    requires
        t < pow32(len),
    ensures
        value(time_chars(t, len)) == t,
    decreases len,
{
    if len > 0 {
        let p = pow32((len - 1) as nat);
        assert(t / 32 < p) by (nonlinear_arith)
            requires
                t < 32 * p,
        ;
        lemma_value_time_chars(t / 32, (len - 1) as nat);
        lemma_symbol_digit((t % 32) as int);
        let s = time_chars(t, len);
        assert(s.drop_last() == time_chars(t / 32, (len - 1) as nat));
    }
}

/// A string of symbols writes a number below 32^len.
pub proof fn lemma_value_bound(s: Seq<char>)
    requires
        all_symbols(s),
    ensures
        value(s) < pow32(s.len()),
    decreases s.len(),
{
    if s.len() > 0 {
        let p = s.drop_last();
        assert(all_symbols(p)) by {
            assert forall|i: int| 0 <= i < p.len() implies #[trigger] is_symbol(p[i]) by {
                assert(is_symbol(s[i]));
            }
        }
        lemma_value_bound(p);
        assert(is_symbol(s[s.len() - 1]));
        lemma_digit_symbol(s.last());
        let v = value(p);
        let d = digit(s.last());
        let q = pow32(p.len());
        assert(v * 32 + d < 32 * q) by (nonlinear_arith)
            requires
                v < q,
                0 <= d < 32,
        ;
    }
}

/// `last_invalid` finds nothing exactly in strings of symbols.
pub proof fn lemma_last_invalid(s: Seq<char>)
    ensures
        last_invalid(s) is None <==> all_symbols(s),
    decreases s.len(),
{
    if s.len() > 0 {
        let p = s.drop_last();
        lemma_last_invalid(p);
        if all_symbols(s) {
            assert(is_symbol(s[s.len() - 1]));
            assert forall|i: int| 0 <= i < p.len() implies #[trigger] is_symbol(p[i]) by {
                assert(is_symbol(s[i]));
            }
        }
        if last_invalid(s) is None {
            assert forall|i: int| 0 <= i < s.len() implies #[trigger] is_symbol(s[i]) by {
                if i < p.len() {
                    assert(is_symbol(p[i]));
                }
            }
        }
    }
}

/// Decoding the time segment of an identifier returns the timestamp that was
/// encoded into it, whatever symbols the random segment holds.
pub proof fn lemma_decode_encode(t: u64, r: Seq<char>)
    requires
        t <= TIME_MAX,
        r.len() == RANDOM_LEN,
        all_symbols(r),
    ensures
        decoded(time_chars(t as nat, TIME_LEN as nat) + r) == Ok::<u64, UlidError>(t),
{
    let tc = time_chars(t as nat, TIME_LEN as nat);
    let id = tc + r;
    lemma_time_chars_symbols(t as nat, TIME_LEN as nat);
    lemma_pow32_ten();
    lemma_value_time_chars(t as nat, TIME_LEN as nat);
    assert(id.take(TIME_LEN as int) == tc);
    lemma_last_invalid(tc);
}

/// The lowest `len` base32 digits of `now`, most significant first, or
/// `TimeTooLarge` where `now` does not fit in 48 bits.
pub fn encode_time(now: u64, len: usize) -> (r: Result<String, UlidError>)
    ensures
        now > TIME_MAX ==> r == Err::<String, UlidError>(UlidError::TimeTooLarge),
        now <= TIME_MAX ==> (r matches Ok(s) && s@ == time_chars(now as nat, len as nat)),
{
    if now > TIME_MAX {
        return Err(UlidError::TimeTooLarge);
    }
    // Digits from the least significant one up.
    let mut low: Vec<char> = Vec::new();
    let mut cur: u64 = now;
    let mut i: usize = 0;
    while i < len
        invariant
            i <= len,
            low@.len() == i,
            time_chars(now as nat, len as nat) == time_chars(cur as nat, (len - i) as nat)
                + low@.reverse(),
        decreases len - i,
    {
        proof {
            lemma_symbol_digit((cur % 32) as int);
        }
        let c = symbol_at((cur % 32) as u8);
        let ghost before = low@;
        low.push(c);
        proof {
            let rest = time_chars(cur as nat / 32, (len - i - 1) as nat);
            assert(time_chars(cur as nat, (len - i) as nat) == rest.push(c));
            assert(rest.push(c) + before.reverse() =~= rest + low@.reverse());
        }
        cur = cur / 32;
        i = i + 1;
    }
    let mut out: Vec<char> = Vec::new();
    let mut j: usize = 0;
    while j < len
        invariant
            j <= len,
            low@.len() == len,
            out@ == low@.reverse().take(j as int),
        decreases len - j,
    {
        out.push(low[len - 1 - j]);
        j = j + 1;
        assert(out@ =~= low@.reverse().take(j as int));
    }
    assert(out@ =~= low@.reverse());
    assert(time_chars(cur as nat, 0) + low@.reverse() =~= low@.reverse());
    Ok(string_of(&out))
}

/// The timestamp written in the first ten symbols of the 26-character identifier
/// `id`. Fails with `MalformedInput` on another length, with `InvalidCharacter`
/// naming the rightmost of those ten that is no symbol, and with `TimeTooLarge`
/// where the value does not fit in 48 bits. The random segment is not looked at.
pub fn decode_time(id: &str) -> (r: Result<u64, UlidError>)
    ensures
        r == decoded(id@),
{
    let chars = chars_of(id);
    if chars.len() != ULID_LEN {
        return Err(UlidError::MalformedInput);
    }
    let ghost t = id@.take(TIME_LEN as int);
    // Check the time segment from its least significant symbol down.
    let mut k: usize = TIME_LEN;
    assert(t.take(TIME_LEN as int) =~= t);
    while k > 0
        invariant
            k <= TIME_LEN,
            chars@ == id@,
            chars@.len() == ULID_LEN,
            t == id@.take(TIME_LEN as int),
            last_invalid(t) == last_invalid(t.take(k as int)),
        decreases k,
    {
        let c = chars[k - 1];
        let ghost tk = t.take(k as int);
        assert(tk.last() == c);
        assert(tk.drop_last() =~= t.take(k - 1));
        match index_of(c) {
            Ok(_) => {},
            Err(e) => {
                return Err(e);
            },
        }
        k = k - 1;
    }
    assert(t.take(0) =~= Seq::<char>::empty());
    proof {
        lemma_last_invalid(t);
        lemma_value_bound(t);
        lemma_pow32_ten();
    }
    // Sum the digits, most significant first.
    let mut time: u64 = 0;
    let mut i: usize = 0;
    while i < TIME_LEN
        invariant
            i <= TIME_LEN,
            chars@ == id@,
            chars@.len() == ULID_LEN,
            t == id@.take(TIME_LEN as int),
            all_symbols(t),
            time == value(t.take(i as int)),
            value(t.take(i as int)) < pow32(i as nat),
            pow32(10) == 1125899906842624,
        decreases TIME_LEN - i,
    {
        let c = chars[i];
        assert(is_symbol(t[i as int]));
        let d = match index_of(c) {
            Ok(d) => d,
            Err(e) => {
                return Err(e);
            },
        };
        let ghost ti = t.take(i + 1);
        assert(ti.drop_last() =~= t.take(i as int));
        assert(all_symbols(ti));
        proof {
            lemma_value_bound(ti);
            assert(pow32((i + 1) as nat) <= pow32(10)) by {
                lemma_pow32_mono((i + 1) as nat, 10);
            }
        }
        time = time * 32 + d as u64;
        i = i + 1;
    }
    assert(t.take(10) =~= t);
    if time > TIME_MAX {
        return Err(UlidError::TimeTooLarge);
    }
    Ok(time)
}

/// 32^10 is 2^50.
pub proof fn lemma_pow32_ten()
    ensures
        pow32(10) == 1125899906842624,
{
    reveal_with_fuel(pow32, 11);
}

/// Powers of 32 grow with the exponent.
pub proof fn lemma_pow32_mono(a: nat, b: nat)
    requires
        a <= b,
    ensures
        pow32(a) <= pow32(b),
    decreases b,
{
    if a < b {
        lemma_pow32_mono(a, (b - 1) as nat);
    }
}

} // verus!
