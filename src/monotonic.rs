//! Identifiers that strictly increase within one sequence, also when several
//! are asked for in one millisecond or the clock steps back.
use vstd::prelude::*;

use crate::alphabet::{all_symbols, lemma_symbol_digit, lemma_symbol_order, symbol};
use crate::error::UlidError;
use crate::increment::{
    increment_base32, incremented, lemma_incremented, lemma_lex_prefix, lemma_lex_suffix, lex_lt,
};
use crate::random::{encode_random, encode_random_default, lemma_random_chars, random_chars};
use crate::time::{
    encode_time, lemma_pow32_ten, lemma_time_chars_symbols, pow32, time_chars, RANDOM_LEN,
    TIME_LEN, TIME_MAX,
};

verus! {

/// The state of a monotonic sequence: the timestamp and the random segment of
/// the last identifier it made.
pub struct MonotonicContext {
    last_time: u64,
    last_random: String,
}

impl View for MonotonicContext {
    /// The last timestamp and the last random segment.
    type V = (u64, Seq<char>);

    closed spec fn view(&self) -> (u64, Seq<char>) {
        (self.last_time, self.last_random@)
    }
}

/// The identifier that the state `v` stands for.
pub open spec fn current_id(v: (u64, Seq<char>)) -> Seq<char> {
    time_chars(v.0 as nat, TIME_LEN as nat) + v.1
}

/// The state `v` stands for an identifier that was handed out.
pub open spec fn has_emitted(v: (u64, Seq<char>)) -> bool {
    &&& v.0 <= TIME_MAX
    &&& v.1.len() == RANDOM_LEN
    &&& all_symbols(v.1)
}

/// The states a sequence can reach: the fresh one, or one with a random segment
/// of sixteen symbols.
pub open spec fn well_formed(v: (u64, Seq<char>)) -> bool {
    (v.0 == 0 && v.1.len() == 0) || (v.1.len() == RANDOM_LEN && all_symbols(v.1))
}

/// Time segments sort as the timestamps they encode.
pub proof fn lemma_time_chars_order(a: nat, b: nat, len: nat)
    requires
        a < b < pow32(len),
    ensures
        lex_lt(time_chars(a, len), time_chars(b, len)),
    decreases len,
{
    let k = (len - 1) as nat;
    let p = pow32(k);
    assert(a / 32 <= b / 32 < p) by (nonlinear_arith)
        requires
            a < b < 32 * p,
    ;
    let sa = symbol((a % 32) as int);
    let sb = symbol((b % 32) as int);
    crate::time::lemma_time_chars_symbols(a / 32, k);
    crate::time::lemma_time_chars_symbols(b / 32, k);
    if a / 32 < b / 32 {
        lemma_time_chars_order(a / 32, b / 32, k);
        lemma_lex_suffix(time_chars(a / 32, k), time_chars(b / 32, k), seq![sa], seq![sb]);
    } else {
        assert(a % 32 < b % 32) by (nonlinear_arith)
            requires
                a < b,
                a / 32 == b / 32,
        ;
        lemma_symbol_order((a % 32) as int, (b % 32) as int);
        lemma_symbol_digit((a % 32) as int);
        lemma_symbol_digit((b % 32) as int);
        assert(lex_lt(seq![sa], seq![sb]));
        lemma_lex_prefix(time_chars(a / 32, k), seq![sa], seq![sb]);
    }
    assert(time_chars(a / 32, k) + seq![sa] =~= time_chars(a, len));
    assert(time_chars(b / 32, k) + seq![sb] =~= time_chars(b, len));
}

impl MonotonicContext {
    /// A fresh sequence: last timestamp 0, empty random segment.
    pub fn new() -> (r: MonotonicContext)
        ensures
            r@ == (0u64, Seq::<char>::empty()),
            well_formed(r@),
    {
        MonotonicContext { last_time: 0, last_random: String::new() }
    }

    /// The timestamp of the last identifier made.
    pub fn last_time(&self) -> (r: u64)
        ensures
            r == self@.0,
    {
        self.last_time
    }

    /// Whether `seed_time` is later than the last timestamp, so that the next
    /// identifier for it takes a new random segment.
    pub fn is_fresh(&self, seed_time: u64) -> (r: bool)
        ensures
            r == (seed_time > self@.0),
    {
        seed_time > self.last_time
    }

    /// The next identifier of the sequence for `seed_time`.
    ///
    /// A timestamp later than the last one is stored with a new random segment,
    /// picked by `draws` (sixteen of them) where given, else by the default
    /// generator. Otherwise the last timestamp stays and the last random segment
    /// is incremented. Every identifier handed out sorts strictly after the one
    /// handed out before it.
    pub fn ulid(&mut self, seed_time: u64, draws: Option<Vec<u64>>) -> (r: Result<String, UlidError>)
        requires
            well_formed(old(self)@),
            draws matches Some(v) ==> v@.len() == RANDOM_LEN,
        ensures
            well_formed(final(self)@),
            seed_time > old(self)@.0 ==> {
                &&& final(self)@.0 == seed_time
                &&& final(self)@.1.len() == RANDOM_LEN
                &&& all_symbols(final(self)@.1)
                &&& (draws matches Some(v) ==> final(self)@.1 == random_chars(v@))
                &&& seed_time > TIME_MAX ==> r == Err::<String, UlidError>(UlidError::TimeTooLarge)
                &&& seed_time <= TIME_MAX ==> (r matches Ok(id) && id@ == current_id(final(self)@))
            },
            seed_time <= old(self)@.0 ==> match incremented(old(self)@.1) {
                Err(e) => r == Err::<String, UlidError>(e) && final(self)@ == old(self)@,
                Ok(t) => {
                    &&& final(self)@ == (old(self)@.0, t)
                    &&& old(self)@.0 > TIME_MAX ==> r == Err::<String, UlidError>(
                        UlidError::TimeTooLarge,
                    )
                    &&& old(self)@.0 <= TIME_MAX ==> (r matches Ok(id) && id@ == current_id(
                        final(self)@,
                    ))
                },
            },
            r matches Ok(id) ==> {
                &&& id@ == current_id(final(self)@)
                &&& has_emitted(final(self)@)
                &&& has_emitted(old(self)@) ==> lex_lt(current_id(old(self)@), id@)
            },
    {
        let ghost prev = self@;
        if seed_time <= self.last_time {
            let next = match increment_base32(self.last_random.as_str()) {
                Ok(t) => t,
                Err(e) => {
                    return Err(e);
                },
            };
            proof {
                if prev.1.len() == 0 {
                    assert(incremented(prev.1) is Err);
                }
                lemma_incremented(prev.1);
            }
            self.last_random = next;
            let time = match encode_time(self.last_time, TIME_LEN) {
                Ok(t) => t,
                Err(e) => {
                    return Err(e);
                },
            };
            let id = time.concat(self.last_random.as_str());
            proof {
                assert(id@ == current_id(self@));
                if has_emitted(prev) {
                    lemma_lex_prefix(time@, prev.1, self@.1);
                }
            }
            return Ok(id);
        }
        self.last_time = seed_time;
        self.last_random = match draws {
            Some(v) => {
                proof {
                    lemma_random_chars(v@);
                }
                encode_random(&v)
            },
            None => encode_random_default(RANDOM_LEN),
        };
        let time = match encode_time(seed_time, TIME_LEN) {
            Ok(t) => t,
            Err(e) => {
                return Err(e);
            },
        };
        let id = time.concat(self.last_random.as_str());
        proof {
            assert(id@ == current_id(self@));
            if has_emitted(prev) {
                lemma_pow32_ten();
                lemma_time_chars_order(prev.0 as nat, seed_time as nat, TIME_LEN as nat);
                lemma_time_chars_symbols(prev.0 as nat, TIME_LEN as nat);
                lemma_time_chars_symbols(seed_time as nat, TIME_LEN as nat);
                lemma_lex_suffix(
                    time_chars(prev.0 as nat, TIME_LEN as nat),
                    time@,
                    prev.1,
                    self@.1,
                );
            }
        }
        Ok(id)
    }
}

} // verus!
