//! The random segment: symbols picked by random draws.
use vstd::prelude::*;

use crate::alphabet::{all_symbols, is_symbol, symbol, symbol_at, lemma_symbol_digit, ENCODING_LEN};
use crate::text::string_of;

verus! {

/// The symbols that the draws `draws` pick, one each: a draw picks the symbol of
/// its remainder modulo 32.
pub open spec fn random_chars(draws: Seq<u64>) -> Seq<char> {
    draws.map_values(|v: u64| symbol((v % 32) as int))
}

/// What draws pick is symbols, one per draw.
pub proof fn lemma_random_chars(draws: Seq<u64>)
    ensures
        random_chars(draws).len() == draws.len(),
        all_symbols(random_chars(draws)),
{
    assert forall|i: int| 0 <= i < random_chars(draws).len() implies #[trigger] is_symbol(
        random_chars(draws)[i],
    ) by {
        lemma_symbol_digit((draws[i] % 32) as int);
    }
}

/// Relies on `rand::random::<u64>`: a draw from the thread-local generator, which
/// the operating system seeds. Nothing is known of the value.
#[verifier::external_body]
fn draw() -> u64 {
    rand::random::<u64>()
}

/// The symbol that the draw `value` picks.
pub fn random_char(value: u64) -> (c: char)
    ensures
        c == symbol((value % 32) as int),
{
    symbol_at((value % ENCODING_LEN) as u8)
}

/// The symbols that `draws` pick, one per draw, in order.
pub fn encode_random(draws: &Vec<u64>) -> (r: String)
    ensures
        r@ == random_chars(draws@),
{
    let mut out: Vec<char> = Vec::new();
    let mut i: usize = 0;
    while i < draws.len()
        invariant
            i <= draws@.len(),
            out@ == random_chars(draws@).take(i as int),
        decreases draws@.len() - i,
    {
        out.push(random_char(draws[i]));
        i = i + 1;
        assert(out@ =~= random_chars(draws@).take(i as int));
    }
    assert(out@ =~= random_chars(draws@));
    string_of(&out)
}

/// `len` draws from the default generator.
pub fn default_draws(len: usize) -> (r: Vec<u64>)
    ensures
        r@.len() == len,
{
    let mut out: Vec<u64> = Vec::new();
    let mut i: usize = 0;
    while i < len
        invariant
            i <= len,
            out@.len() == i,
        decreases len - i,
    {
        out.push(draw());
        i = i + 1;
    }
    out
}

/// `len` symbols picked with the default generator.
pub fn encode_random_default(len: usize) -> (r: String)
    ensures
        r@.len() == len,
        all_symbols(r@),
{
    let draws = default_draws(len);
    proof {
        lemma_random_chars(draws@);
    }
    encode_random(&draws)
}

} // verus!
