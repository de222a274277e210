//! Whole identifiers: the time segment followed by the random segment.
use vstd::prelude::*;

use crate::alphabet::all_symbols;
use crate::error::UlidError;
use crate::random::{encode_random, encode_random_default, lemma_random_chars, random_chars};
use crate::time::{
    decoded, encode_time, lemma_decode_encode, time_chars, RANDOM_LEN, TIME_LEN, TIME_MAX, ULID_LEN,
};

verus! {

/// `id` is an identifier for the timestamp `t`: its ten time symbols encode `t`,
/// and its sixteen random ones are symbols.
pub open spec fn generated_by(id: Seq<char>, t: u64) -> bool {
    &&& id.len() == ULID_LEN
    &&& id.take(TIME_LEN as int) == time_chars(t as nat, TIME_LEN as nat)
    &&& all_symbols(id.skip(TIME_LEN as int))
}

/// Decoding an identifier made for a timestamp that fits in 48 bits gives that
/// timestamp back exactly.
pub proof fn lemma_generated_decodes(id: Seq<char>, t: u64)
    requires
        t <= TIME_MAX,
        generated_by(id, t),
    ensures
        decoded(id) == Ok::<u64, UlidError>(t),
{
    assert(id =~= time_chars(t as nat, TIME_LEN as nat) + id.skip(TIME_LEN as int));
    lemma_decode_encode(t, id.skip(TIME_LEN as int));
}

/// A new identifier for `seed_time`. The random segment is picked by `draws`,
/// sixteen of them, where given, else by the default generator. Fails with
/// `TimeTooLarge` where `seed_time` does not fit in 48 bits.
pub fn ulid(seed_time: u64, draws: Option<Vec<u64>>) -> (r: Result<String, UlidError>)
    requires
        draws matches Some(v) ==> v@.len() == RANDOM_LEN,
    ensures
        seed_time > TIME_MAX ==> r == Err::<String, UlidError>(UlidError::TimeTooLarge),
        seed_time <= TIME_MAX ==> (r matches Ok(id) && generated_by(id@, seed_time)),
        r matches Ok(id) ==> (draws matches Some(v) ==> id@ == time_chars(
            seed_time as nat,
            TIME_LEN as nat,
        ) + random_chars(v@)),
{
    let time = match encode_time(seed_time, TIME_LEN) {
        Ok(t) => t,
        Err(e) => {
            return Err(e);
        },
    };
    let random = match draws {
        Some(v) => {
            proof {
                lemma_random_chars(v@);
            }
            encode_random(&v)
        },
        None => encode_random_default(RANDOM_LEN),
    };
    let id = time.concat(random.as_str());
    proof {
        crate::time::lemma_time_chars_symbols(seed_time as nat, TIME_LEN as nat);
        assert(id@.take(TIME_LEN as int) =~= time@);
        assert(id@.skip(TIME_LEN as int) =~= random@);
    }
    Ok(id)
}

} // verus!
