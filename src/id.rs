//! Session identifiers: a serial number that a manager never hands out twice,
//! paired with a random token that makes the identifier hard to guess.
use vstd::prelude::*;

verus! {

/// Length of the random part of a session identifier.
pub const SESSION_TOKEN_LEN: usize = 32;

/// Letters and digits, the characters a token is drawn from.
pub open spec fn is_token_char(c: char) -> bool {
    ('A' <= c && c <= 'Z') || ('a' <= c && c <= 'z') || ('0' <= c && c <= '9')
}

/// Relies on `String::push`, which appends one character.
pub assume_specification[ String::push ](s: &mut String, ch: char)
    ensures
        final(s)@ == old(s)@.push(ch),
;

/// Relies on rand's `thread_rng` and `Rng::gen_range`, which draws from
/// `0..bound` and panics on an empty range.
#[verifier::external_body]
fn random_below(bound: usize) -> (r: usize)
    requires
        bound > 0,
    ensures
        r < bound,
{
    rand::Rng::gen_range(&mut rand::thread_rng(), 0..bound)
}

/// The character that draw `d` selects: the 62 letters and digits, upper
/// case first, then lower case, then digits.
pub open spec fn token_char_of(d: int) -> char {
    if d < 26 {
        ((65 + d) as u8) as char
    } else if d < 52 {
        ((97 + (d - 26)) as u8) as char
    } else {
        ((48 + (d - 52)) as u8) as char
    }
}

/// The alphabet of tokens, in draw order.
pub open spec fn token_alphabet() -> Seq<char> {
    Seq::new(62, |d: int| token_char_of(d))
}

/// The token that a run of draws, each below 62, spells.
pub open spec fn token_of_draws(draws: Seq<usize>) -> Seq<char> {
    draws.map_values(|d: usize| token_alphabet()[d as int])
}

/// Every character of the alphabet is a letter or a digit.
pub proof fn lemma_token_alphabet()
    ensures
        token_alphabet().len() == 62,
        forall|d: int| 0 <= d < 62 ==> is_token_char(#[trigger] token_alphabet()[d]),
{
    assert forall|d: int| 0 <= d < 62 implies is_token_char(#[trigger] token_alphabet()[d]) by {
        lemma_token_char_of(d);
    }
}

proof fn lemma_token_char_of(d: int)
    requires
        0 <= d < 62,
    ensures
        is_token_char(token_char_of(d)),
{
    let c = token_char_of(d);
    if d < 26 {
        assert(('A' as u32) == 65);
        assert((c as u32) == 65 + d);
    } else if d < 52 {
        assert((c as u32) == 97 + (d - 26));
    } else {
        assert((c as u32) == 48 + (d - 52));
    }
}

/// The character that draw `i` selects.
fn token_char(i: usize) -> (c: char)
    requires
        i < 62,
    ensures
        c == token_alphabet()[i as int],
{
    let i = i as u8;
    if i < 26 {
        (65u8 + i) as char
    } else if i < 52 {
        (97u8 + (i - 26)) as char
    } else {
        (48u8 + (i - 52)) as char
    }
}

/// The token that `draws` spell: draw `d` becomes the `d`th character of
/// the alphabet.
pub fn token_from_draws(draws: &Vec<usize>) -> (r: String)
    requires
        forall|i: int| 0 <= i < draws@.len() ==> #[trigger] draws@[i] < 62,
    ensures
        r@ == token_of_draws(draws@),
{
    let mut token = String::new();
    let mut n: usize = 0;
    while n < draws.len()
        invariant
            n <= draws@.len(),
            forall|i: int| 0 <= i < draws@.len() ==> #[trigger] draws@[i] < 62,
            token@ == token_of_draws(draws@.take(n as int)),
        decreases draws@.len() - n,
    {
        let c = token_char(draws[n]);
        token.push(c);
        proof {
            assert(token_of_draws(draws@.take(n as int + 1)) =~= token_of_draws(
                draws@.take(n as int),
            ).push(c));
        }
        n += 1;
    }
    assert(draws@.take(draws@.len() as int) =~= draws@);
    token
}

/// A fresh random token of letters and digits: the token that some run of
/// random draws spells.
pub fn generate_session_id() -> (r: String)
    ensures
        exists|draws: Seq<usize>|
            {
                &&& draws.len() == SESSION_TOKEN_LEN
                &&& forall|i: int| 0 <= i < draws.len() ==> #[trigger] draws[i] < 62
                &&& r@ == token_of_draws(draws)
            },
        r@.len() == SESSION_TOKEN_LEN,
        forall|i: int| 0 <= i < r@.len() ==> is_token_char(#[trigger] r@[i]),
{
    let mut draws: Vec<usize> = Vec::new();
    while draws.len() < SESSION_TOKEN_LEN
        invariant
            draws@.len() <= SESSION_TOKEN_LEN,
            forall|i: int| 0 <= i < draws@.len() ==> #[trigger] draws@[i] < 62,
        decreases SESSION_TOKEN_LEN - draws@.len(),
    {
        draws.push(random_below(62));
    }
    let token = token_from_draws(&draws);
    proof {
        lemma_token_alphabet();
        assert forall|i: int| 0 <= i < token@.len() implies is_token_char(#[trigger] token@[i]) by {
            assert(token@[i] == token_alphabet()[draws@[i] as int]);
        }
    }
    token
}

/// Names one session of a manager.
#[derive(Debug, Clone)]
pub struct SessionId {
    serial: u64,
    token: String,
}

impl View for SessionId {
    type V = (u64, Seq<char>);

    closed spec fn view(&self) -> (u64, Seq<char>) {
        (self.serial, self.token@)
    }
}

impl SessionId {
    pub fn new(serial: u64, token: String) -> (r: SessionId)
        ensures
            r@ == (serial, token@),
    {
        SessionId { serial, token }
    }

    /// The serial number, unique among the identifiers of one manager.
    pub fn serial(&self) -> (r: u64)
        ensures
            r == self@.0,
    {
        self.serial
    }

    /// The random part.
    pub fn token(&self) -> (r: &String)
        ensures
            r@ == self@.1,
    {
        &self.token
    }
}

impl PartialEq for SessionId {
    fn eq(&self, other: &SessionId) -> (r: bool)
        ensures
            r == (self@ == other@),
    {
        self.serial == other.serial && self.token == other.token
    }
}

impl vstd::std_specs::cmp::PartialEqSpecImpl for SessionId {
    open spec fn obeys_eq_spec() -> bool {
        true
    }

    open spec fn eq_spec(&self, other: &SessionId) -> bool {
        self@ == other@
    }
}

impl Eq for SessionId {
}

} // verus!
