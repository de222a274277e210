//! Adding one to a base32 string, and the order in which strings sort.
use vstd::prelude::*;

use crate::alphabet::{
    all_symbols, digit, index_of, is_symbol, symbol, symbol_at, lemma_digit_symbol,
    lemma_symbol_digit, lemma_symbol_order, MAX_DIGIT,
};
use crate::error::UlidError;
use crate::text::{chars_of, string_of};
use crate::time::value;

verus! {

/// `a` sorts strictly before `b`, comparing code points from the left; a proper
/// prefix sorts first. This is the order of `<` on Rust strings.
pub open spec fn lex_lt(a: Seq<char>, b: Seq<char>) -> bool
    decreases a.len(),
{
    if a.len() == 0 || b.len() == 0 {
        a.len() == 0 && b.len() > 0
    } else if a[0] != b[0] {
        (a[0] as u32) < (b[0] as u32)
    } else {
        lex_lt(a.drop_first(), b.drop_first())
    }
}

/// `s` read as a big-endian base32 number, plus one: the rightmost symbol that is
/// not the largest one steps up, those right of it wrap to the first symbol.
/// Fails with `InvalidCharacter` at the first character met from the right that
/// is no symbol, and with `Overflow` where every symbol is the largest one.
pub open spec fn incremented(s: Seq<char>) -> Result<Seq<char>, UlidError>
    decreases s.len(),
{
    if s.len() == 0 {
        Err(UlidError::Overflow)
    } else {
        let c = s.last();
        if !is_symbol(c) {
            Err(UlidError::InvalidCharacter(c))
        } else if digit(c) == 31 {
            match incremented(s.drop_last()) {
                Ok(p) => Ok(p.push(symbol(0))),
                Err(e) => Err(e),
            }
        } else {
            Ok(s.drop_last().push(symbol(digit(c) + 1)))
        }
    }
}

/// `incremented` applied `n` times, stopping at the first failure.
pub open spec fn incremented_times(s: Seq<char>, n: nat) -> Result<Seq<char>, UlidError>
    decreases n,
{
    if n == 0 {
        Ok(s)
    } else {
        match incremented_times(s, (n - 1) as nat) {
            Ok(p) => incremented(p),
            Err(e) => Err(e),
        }
    }
}

/// Every character of `s` is the largest symbol.
pub open spec fn all_max(s: Seq<char>) -> bool {
    forall|i: int| 0 <= i < s.len() ==> #[trigger] s[i] == symbol(31)
}

/// A common prefix keeps the order.
pub proof fn lemma_lex_prefix(p: Seq<char>, a: Seq<char>, b: Seq<char>)
    requires
        lex_lt(a, b),
    ensures
        lex_lt(p + a, p + b),
    decreases p.len(),
{
    if p.len() > 0 {
        lemma_lex_prefix(p.drop_first(), a, b);
        assert((p + a).drop_first() =~= p.drop_first() + a);
        assert((p + b).drop_first() =~= p.drop_first() + b);
    } else {
        assert(p + a =~= a);
        assert(p + b =~= b);
    }
}

/// Of two strings of one length, the smaller stays smaller whatever follows each.
pub proof fn lemma_lex_suffix(a: Seq<char>, b: Seq<char>, c: Seq<char>, d: Seq<char>)
    requires
        a.len() == b.len(),
        lex_lt(a, b),
    ensures
        lex_lt(a + c, b + d),
    decreases a.len(),
{
    assert((a + c)[0] == a[0]);
    assert((b + d)[0] == b[0]);
    if a[0] == b[0] {
        lemma_lex_suffix(a.drop_first(), b.drop_first(), c, d);
        assert((a + c).drop_first() =~= a.drop_first() + c);
        assert((b + d).drop_first() =~= b.drop_first() + d);
    }
}

/// What a successful increment gives: a string of symbols of the same length,
/// sorting after the input, whose value is one more.
pub proof fn lemma_incremented(s: Seq<char>)
    requires
        all_symbols(s),
        incremented(s) is Ok,
    ensures
        incremented(s)->Ok_0.len() == s.len(),
        all_symbols(incremented(s)->Ok_0),
        value(incremented(s)->Ok_0) == value(s) + 1,
        lex_lt(s, incremented(s)->Ok_0),
    decreases s.len(),
{
    let q = s.drop_last();
    let c = s.last();
    assert(is_symbol(s[s.len() - 1]));
    lemma_digit_symbol(c);
    assert(all_symbols(q)) by {
        assert forall|i: int| 0 <= i < q.len() implies #[trigger] is_symbol(q[i]) by {
            assert(is_symbol(s[i]));
        }
    }
    assert(s =~= q.push(c));
    if digit(c) == 31 {
        lemma_incremented(q);
        let p = incremented(q)->Ok_0;
        let t = p.push(symbol(0));
        lemma_symbol_digit(0);
        assert(t.drop_last() =~= p);
        assert forall|i: int| 0 <= i < t.len() implies #[trigger] is_symbol(t[i]) by {
            if i < p.len() {
                assert(t[i] == p[i]);
            }
        }
        lemma_lex_suffix(q, p, seq![c], seq![symbol(0)]);
        assert(q + seq![c] =~= s);
        assert(p + seq![symbol(0)] =~= t);
    } else {
        let d = digit(c) + 1;
        let t = q.push(symbol(d));
        lemma_symbol_digit(d);
        lemma_symbol_order(digit(c), d);
        assert(t.drop_last() =~= q);
        assert forall|i: int| 0 <= i < t.len() implies #[trigger] is_symbol(t[i]) by {
            if i < q.len() {
                assert(t[i] == q[i]);
            }
        }
        assert(lex_lt(seq![c], seq![symbol(d)]));
        lemma_lex_prefix(q, seq![c], seq![symbol(d)]);
        assert(q + seq![c] =~= s);
        assert(q + seq![symbol(d)] =~= t);
    }
}

/// On strings of symbols, increment fails exactly when every symbol is the
/// largest one, and then with `Overflow`.
pub proof fn lemma_overflow(s: Seq<char>)
    requires
        all_symbols(s),
    ensures
        incremented(s) is Err <==> all_max(s),
        incremented(s) is Err ==> incremented(s) == Err::<Seq<char>, UlidError>(UlidError::Overflow),
    decreases s.len(),
{
    if s.len() > 0 {
        let q = s.drop_last();
        let c = s.last();
        assert(is_symbol(s[s.len() - 1]));
        lemma_digit_symbol(c);
        assert(all_symbols(q)) by {
            assert forall|i: int| 0 <= i < q.len() implies #[trigger] is_symbol(q[i]) by {
                assert(is_symbol(s[i]));
            }
        }
        lemma_overflow(q);
        if all_max(s) {
            assert(s[s.len() - 1] == symbol(31));
            lemma_symbol_digit(31);
            assert forall|i: int| 0 <= i < q.len() implies #[trigger] q[i] == symbol(31) by {
                assert(s[i] == symbol(31));
            }
        }
        if digit(c) == 31 && all_max(q) {
            assert forall|i: int| 0 <= i < s.len() implies #[trigger] s[i] == symbol(31) by {
                if i < q.len() {
                    assert(q[i] == symbol(31));
                }
            }
        }
    }
}

/// Incrementing a string of symbols that is not all largest symbols succeeds and
/// gives a string that sorts strictly after it.
pub proof fn lemma_increment_sorts_after(s: Seq<char>)
    requires
        all_symbols(s),
        !all_max(s),
    ensures
        incremented(s) is Ok,
        lex_lt(s, incremented(s)->Ok_0),
{
    lemma_overflow(s);
    lemma_incremented(s);
}

/// Each successful step of repeated increment adds one to the value.
pub proof fn lemma_incremented_times_value(s: Seq<char>, n: nat)
    requires
        all_symbols(s),
        incremented_times(s, n) is Ok,
    ensures
        all_symbols(incremented_times(s, n)->Ok_0),
        incremented_times(s, n)->Ok_0.len() == s.len(),
        value(incremented_times(s, n)->Ok_0) == value(s) + n,
    decreases n,
{
    if n > 0 {
        lemma_incremented_times_value(s, (n - 1) as nat);
        lemma_incremented(incremented_times(s, (n - 1) as nat)->Ok_0);
    }
}

/// Repeated increment never comes back to a string it gave before: the results
/// after `i` and after `j` steps differ whenever both steps succeed and `i != j`.
pub proof fn lemma_increment_never_revisits(s: Seq<char>, i: nat, j: nat)
    requires
        all_symbols(s),
        i < j,
        incremented_times(s, j) is Ok,
    ensures
        incremented_times(s, i) is Ok,
        incremented_times(s, i)->Ok_0 != incremented_times(s, j)->Ok_0,
{
    lemma_incremented_times_prefix(s, i, j);
    lemma_incremented_times_value(s, i);
    lemma_incremented_times_value(s, j);
}

/// Where `j` steps succeed, so do fewer.
proof fn lemma_incremented_times_prefix(s: Seq<char>, i: nat, j: nat)
    requires
        i <= j,
        incremented_times(s, j) is Ok,
    ensures
        incremented_times(s, i) is Ok,
    decreases j,
{
    if i < j {
        lemma_incremented_times_prefix(s, i, (j - 1) as nat);
    }
}

/// `s` with the character at `index` replaced by `c`; `s` unchanged where `index`
/// is not below the number of characters.
pub fn replace_char_at(s: &str, index: usize, c: char) -> (r: String)
    ensures
        index >= s@.len() ==> r@ == s@,
        index < s@.len() ==> r@ == s@.update(index as int, c),
{
    let mut chars = chars_of(s);
    if index < chars.len() {
        chars.set(index, c);
    }
    string_of(&chars)
}

/// `s` read as a big-endian base32 number, plus one, at the same width.
pub fn increment_base32(s: &str) -> (r: Result<String, UlidError>)
    ensures
        r matches Ok(t) ==> incremented(s@) == Ok::<Seq<char>, UlidError>(t@),
        r matches Err(e) ==> incremented(s@) == Err::<Seq<char>, UlidError>(e),
{
    let mut chars = chars_of(s);
    let n = chars.len();
    let mut i: usize = n;
    proof {
        assert(s@.take(n as int) =~= s@);
        lemma_lifted_zero(incremented(s@));
    }
    while i > 0
        invariant
            n == s@.len(),
            i <= n,
            chars@.len() == n,
            chars@.take(i as int) == s@.take(i as int),
            forall|k: int| i <= k < n ==> #[trigger] chars@[k] == symbol(0),
            forall|k: int| i <= k < n ==> #[trigger] s@[k] == symbol(31),
            incremented(s@) == lifted(incremented(s@.take(i as int)), (n - i) as nat),
        decreases i,
    {
        let c = chars[i - 1];
        let ghost p = s@.take(i as int);
        assert(p.last() == c);
        assert(p.drop_last() =~= s@.take(i - 1));
        let d = match index_of(c) {
            Ok(d) => d,
            Err(e) => {
                return Err(e);
            },
        };
        if d == MAX_DIGIT {
            proof {
                lemma_digit_symbol(c);
                lemma_lifted_carry(incremented(s@.take(i - 1)), (n - i) as nat);
            }
            chars.set(i - 1, symbol_at(0));
            i = i - 1;
            assert(chars@.take(i as int) =~= s@.take(i as int));
        } else {
            let ghost before = chars@;
            chars.set(i - 1, symbol_at(d + 1));
            proof {
                let t = p.drop_last().push(symbol(d + 1));
                assert(incremented(p) == Ok::<Seq<char>, UlidError>(t));
                lemma_lifted_ok(t, (n - i) as nat);
                assert(t + Seq::new((n - i) as nat, |k: int| symbol(0)) =~= chars@);
            }
            return Ok(string_of(&chars));
        }
    }
    proof {
        assert(s@.take(0) =~= Seq::<char>::empty());
    }
    Err(UlidError::Overflow)
}

/// An increment result on a prefix, followed by `k` first symbols.
pub open spec fn lifted(r: Result<Seq<char>, UlidError>, k: nat) -> Result<Seq<char>, UlidError> {
    match r {
        Ok(p) => Ok(p + Seq::new(k, |j: int| symbol(0))),
        Err(e) => Err(e),
    }
}

proof fn lemma_lifted_carry(r: Result<Seq<char>, UlidError>, k: nat)
    ensures
        lifted(
            match r {
                Ok(p) => Ok(p.push(symbol(0))),
                Err(e) => Err(e),
            },
            k,
        ) == lifted(r, k + 1),
{
    if let Ok(p) = r {
        assert(p.push(symbol(0)) + Seq::new(k, |j: int| symbol(0)) =~= p + Seq::new(
            k + 1,
            |j: int| symbol(0),
        ));
    }
}

proof fn lemma_lifted_zero(r: Result<Seq<char>, UlidError>)
    ensures
        lifted(r, 0) == r,
{
    if let Ok(p) = r {
        assert(p + Seq::new(0, |j: int| symbol(0)) =~= p);
    }
}

proof fn lemma_lifted_ok(t: Seq<char>, k: nat)
    ensures
        lifted(Ok(t), k) == Ok::<Seq<char>, UlidError>(t + Seq::new(k, |j: int| symbol(0))),
{
}

} // verus!
