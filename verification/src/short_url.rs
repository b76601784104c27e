//! Bijective conversion between link identities and short aliases.
//!
//! An alias is the base-64 numeral of `id + seed`, most significant symbol
//! first, over a fixed alphabet of digits, lower-case letters, upper-case
//! letters, `-` and `_`. The seed is a deployment-wide offset: it keeps small
//! identities away from one-symbol aliases and makes two deployments with
//! different seeds hand out different aliases for the same identity.

use crate::text::{parse_decimal, parsed_decimal};
use vstd::prelude::*;
use vstd::string::*;

verus! {

/// The symbols of an alias, in the order of their digit values.
pub const ALPHABET: &'static str =
    "0123456789abcdefghijklmnopqrstuvwxyzABCDEFGHIJKLMNOPQRSTUVWXYZ-_";

/// The radix of the numeral system: the number of symbols in [`ALPHABET`].
pub const BASE: usize = 64;

/// The seed of a deployment that configures none.
pub const DEFAULT_SEED: usize = 1000;

/// The seed that the setting of a deployment asks for: the number that the
/// setting denotes as a decimal numeral, or [`DEFAULT_SEED`] where there is
/// no setting or the setting denotes no number.
pub open spec fn configured_seed(setting: Option<Seq<char>>) -> usize {
    match setting {
        Some(text) => match parsed_decimal(text) {
            Some(seed) => seed,
            None => DEFAULT_SEED,
        },
        None => DEFAULT_SEED,
    }
}

/// Reads the seed out of the setting of a deployment; see
/// [`configured_seed`]. A deployment reads its seed once, when it starts.
pub fn seed_from(setting: Option<&str>) -> (seed: usize)
    ensures
        seed == configured_seed(setting.deep_view()),
{
    match setting {
        Some(text) => match parse_decimal(text) {
            Some(seed) => seed,
            None => DEFAULT_SEED,
        },
        None => DEFAULT_SEED,
    }
}

/// Why a string is not the alias of any identity.
#[derive(Debug, Clone, Copy, PartialEq, Eq, Structural)]
pub enum InvalidAliasError {
    /// Some character of the string is not a symbol of the alphabet.
    UnknownSymbol,
    /// Every character is a symbol, but the numeral exceeds `usize::MAX`.
    OutOfRange,
    /// The numeral is a number below the seed.
    BelowSeed,
}

/// The digit value of `c`, if `c` is a symbol of the alphabet.
pub open spec fn digit_of(c: char) -> Option<nat> {
    let u = c as u32;
    if 48 <= u <= 57 {
        Some((u - 48) as nat)
    } else if 97 <= u <= 122 {
        Some((u - 97 + 10) as nat)
    } else if 65 <= u <= 90 {
        Some((u - 65 + 36) as nat)
    } else if u == 45 {
        Some(62)
    } else if u == 95 {
        Some(63)
    } else {
        None
    }
}

/// The symbol whose digit value is `d`, for `d < 64`.
pub open spec fn symbol(d: nat) -> char {
    ALPHABET@[d as int]
}

/// Whether every character of `s` is a symbol of the alphabet.
pub open spec fn all_symbols(s: Seq<char>) -> bool {
    forall|i: int| 0 <= i < s.len() ==> (#[trigger] digit_of(s[i])) is Some
}

/// The base-64 numeral of `n`, most significant symbol first. Zero has the
/// empty numeral.
pub open spec fn numeral(n: nat) -> Seq<char>
    decreases n,
{
    if n == 0 {
        Seq::empty()
    } else {
        numeral(n / 64).push(symbol(n % 64))
    }
}

/// The number that the symbols of `s` denote, read as a base-64 numeral with
/// the most significant symbol first. A character outside the alphabet
/// counts as zero.
pub open spec fn numeral_value(s: Seq<char>) -> nat
    decreases s.len(),
{
    if s.len() == 0 {
        0
    } else {
        let d = match digit_of(s.last()) {
            Some(d) => d,
            None => 0,
        };
        numeral_value(s.drop_last()) * 64 + d
    }
}

/// The alias of identity `id` under `seed`.
pub open spec fn alias_of(id: usize, seed: usize) -> Seq<char> {
    numeral((id + seed) as nat)
}

/// What [`decode`] makes of `s` under `seed`.
pub open spec fn decoded(s: Seq<char>, seed: usize) -> Result<usize, InvalidAliasError> {
    if !all_symbols(s) {
        Err(InvalidAliasError::UnknownSymbol)
    } else if numeral_value(s) > usize::MAX {
        Err(InvalidAliasError::OutOfRange)
    } else if numeral_value(s) < seed {
        Err(InvalidAliasError::BelowSeed)
    } else {
        Ok((numeral_value(s) - seed) as usize)
    }
}

/// The alphabet holds 64 symbols, each sits at the position of its digit
/// value, and nothing else has a digit value.
pub proof fn lemma_alphabet()
    ensures
        ALPHABET@.len() == 64,
        forall|d: nat| d < 64 ==> digit_of(#[trigger] symbol(d)) == Some(d),
        forall|c: char|
            (#[trigger] digit_of(c)) is Some ==> digit_of(c)->0 < 64 && symbol(digit_of(c)->0) == c,
{
    reveal_strlit("0123456789abcdefghijklmnopqrstuvwxyzABCDEFGHIJKLMNOPQRSTUVWXYZ-_");
    assert forall|c: char| (#[trigger] digit_of(c)) is Some implies digit_of(c)->0 < 64 && symbol(
        digit_of(c)->0,
    ) == c by {
        let d = digit_of(c)->0;
        assert(digit_of(symbol(d)) == Some(d));
        vstd::utf8::char_u32_cast(c, c as u32);
        vstd::utf8::char_u32_cast(symbol(d), symbol(d) as u32);
    }
}

/// Reading a numeral one symbol further multiplies by the base and adds the
/// new digit.
proof fn lemma_value_step(s: Seq<char>, k: int)
    requires
        0 <= k < s.len(),
        digit_of(s[k]) is Some,
    ensures
        numeral_value(s.take(k + 1)) == numeral_value(s.take(k)) * 64 + digit_of(s[k])->0,
{
    assert(s.take(k + 1).drop_last() == s.take(k));
}

/// The numeral of `n` consists of symbols only and denotes `n`.
pub proof fn lemma_numeral_value(n: nat)
    ensures
        all_symbols(numeral(n)),
        numeral_value(numeral(n)) == n,
        n > 0 ==> numeral(n).len() > 0,
    decreases n,
{
    if n > 0 {
        lemma_alphabet();
        lemma_numeral_value(n / 64);
        let rest = numeral(n / 64);
        let s = numeral(n);
        assert(s.drop_last() == rest);
        assert(s.last() == symbol(n % 64));
        assert forall|i: int| 0 <= i < s.len() implies (#[trigger] digit_of(s[i])) is Some by {
            if i < rest.len() {
                assert(s[i] == rest[i]);
            }
        }
    }
}

/// The symbol at position `d` of the alphabet, as a string of its own.
fn symbol_str(d: usize) -> (piece: &'static str)
    requires
        d < 64,
    ensures
        piece@ == seq![symbol(d as nat)],
{
    proof {
        lemma_alphabet();
    }
    ALPHABET.substring_char(d, d + 1)
}

/// The digit value of `c`, or `None` where `c` is no symbol of the alphabet.
fn digit(c: char) -> (d: Option<usize>)
    ensures
        match d {
            Some(v) => digit_of(c) == Some(v as nat) && v < 64,
            None => digit_of(c) is None,
        },
{
    let u: u32 = c as u32;
    if 48 <= u && u <= 57 {
        Some((u - 48) as usize)
    } else if 97 <= u && u <= 122 {
        Some((u - 97 + 10) as usize)
    } else if 65 <= u && u <= 90 {
        Some((u - 65 + 36) as usize)
    } else if u == 45 {
        Some(62)
    } else if u == 95 {
        Some(63)
    } else {
        None
    }
}

/// Turns an identity into its alias: the numeral of `id + seed`.
///
/// The sum has to fit the machine word; the alias of zero under seed zero is
/// the empty string.
pub fn encode(id: usize, seed: usize) -> (alias: String)
    requires
        encodable(id, seed),
    ensures
        alias@ == alias_of(id, seed),
{
    let total: usize = id + seed;
    let mut n: usize = total;
    let mut out = String::new();
    while n > 0
        invariant
            numeral(total as nat) == numeral(n as nat) + out@,
        decreases n,
    {
        let piece = symbol_str(n % BASE);
        let mut longer = String::from_str(piece);
        longer.append(out.as_str());
        proof {
            assert(numeral(n as nat) == numeral((n / 64) as nat).push(symbol((n % 64) as nat)));
            assert(numeral((n / 64) as nat).push(symbol((n % 64) as nat)) + out@ == numeral(
                (n / 64) as nat,
            ) + longer@);
        }
        out = longer;
        n = n / BASE;
    }
    out
}

/// Turns an alias back into the identity it was made from.
///
/// Fails where a character is no symbol of the alphabet, where the numeral
/// does not fit the machine word, and where it denotes a number below the
/// seed; each in that order of precedence.
pub fn decode(string: &str, seed: usize) -> (id: Result<usize, InvalidAliasError>)
    ensures
        id == decoded(string@, seed),
{
    let mut number: usize = 0;
    let mut fits = true;
    for c in it: string.chars()
        invariant
            it.seq() == string@,
            all_symbols(string@.take(it.index() as int)),
            fits ==> number == numeral_value(string@.take(it.index() as int)),
            !fits ==> numeral_value(string@.take(it.index() as int)) > usize::MAX,
    {
        let ghost k = it.index() as int;
        match digit(c) {
            None => {
                assert(!all_symbols(string@)) by {
                    assert(digit_of(string@[k]) is None);
                }
                return Err(InvalidAliasError::UnknownSymbol);
            },
            Some(d) => {
                proof {
                    lemma_value_step(string@, k);
                    assert forall|i: int| 0 <= i < k + 1 implies (#[trigger] digit_of(
                        string@.take(k + 1)[i],
                    )) is Some by {
                        if i < k {
                            assert(string@.take(k)[i] == string@[i]);
                        }
                    }
                }
                if fits {
                    if number > (usize::MAX - d) / BASE {
                        fits = false;
                    } else {
                        number = number * BASE + d;
                    }
                }
            },
        }
    }
    assert(string@.take(string@.len() as int) == string@);
    if !fits {
        Err(InvalidAliasError::OutOfRange)
    } else if number < seed {
        Err(InvalidAliasError::BelowSeed)
    } else {
        Ok(number - seed)
    }
}

/// Decoding undoes encoding: the alias of `id` decodes to `id`, under the
/// seed it was made with.
pub proof fn lemma_decode_inverts_encode(id: usize, seed: usize)
    requires
        encodable(id, seed),
    ensures
        decoded(alias_of(id, seed), seed) == Ok::<usize, InvalidAliasError>(id),
{
    lemma_numeral_value((id + seed) as nat);
}

/// Two different numbers have different numerals.
pub proof fn lemma_numeral_injective(a: nat, b: nat)
    requires
        a != b,
    ensures
        numeral(a) != numeral(b),
{
    lemma_numeral_value(a);
    lemma_numeral_value(b);
}

/// Under one seed, different identities never share an alias.
pub proof fn lemma_aliases_distinct(a: usize, b: usize, seed: usize)
    requires
        a != b,
    ensures
        alias_of(a, seed) != alias_of(b, seed),
{
    lemma_numeral_injective((a + seed) as nat, (b + seed) as nat);
}

/// Whether `id` can be encoded under `seed`: their sum fits the machine word.
pub open spec fn encodable(id: usize, seed: usize) -> bool {
    id + seed <= usize::MAX
}

/// The seed changes the output: under two different seeds every identity has
/// two different aliases, and some identity (zero, for one) can be encoded
/// under both and shows the difference.
pub proof fn lemma_seed_changes_alias(s1: usize, s2: usize)
    requires
        s1 != s2,
    ensures
        forall|id: usize| #[trigger] alias_of(id, s1) != alias_of(id, s2),
        exists|id: usize|
            encodable(id, s1) && encodable(id, s2) && #[trigger] alias_of(id, s1) != alias_of(
                id,
                s2,
            ),
{
    assert forall|id: usize| #[trigger] alias_of(id, s1) != alias_of(id, s2) by {
        lemma_numeral_injective((id + s1) as nat, (id + s2) as nat);
    }
    assert(encodable(0, s1) && encodable(0, s2) && alias_of(0, s1) != alias_of(0, s2));
}

/// An alias is empty only for identity zero under seed zero.
pub proof fn lemma_alias_nonempty(id: usize, seed: usize)
    requires
        id + seed > 0,
    ensures
        alias_of(id, seed).len() > 0,
{
    lemma_numeral_value((id + seed) as nat);
}

} // verus!
