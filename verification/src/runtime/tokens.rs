//! Capability tokens: a broker's secret and a grant's number, mixed so that no two grants of one
//! broker share a token.
use vstd::prelude::*;

verus! {

/// One step of the SplitMix64 sequence.
pub open spec fn step(state: u64) -> u64 {
    state.wrapping_add(0x9E37_79B9_7F4A_7C15u64)
}

/// The output mix of SplitMix64.
pub open spec fn mixed(z: u64) -> u64 {
    let a = (z ^ (z >> 30)).wrapping_mul(0xBF58_476D_1CE4_E5B9u64);
    let b = (a ^ (a >> 27)).wrapping_mul(0x94D0_49BB_1331_11EBu64);
    b ^ (b >> 31)
}

/// SplitMix64: advances the state and returns its mix.
fn splitmix64(state: &mut u64) -> (r: u64)
    ensures
        *final(state) == step(*old(state)),
        r == mixed(step(*old(state))),
{
    *state = state.wrapping_add(0x9E37_79B9_7F4A_7C15);
    let z: u64 = *state;
    let a: u64 = (z ^ (z >> 30)).wrapping_mul(0xBF58_476D_1CE4_E5B9);
    let b: u64 = (a ^ (a >> 27)).wrapping_mul(0x94D0_49BB_1331_11EB);
    b ^ (b >> 31)
}

/// The state that a grant's token is mixed from.
pub open spec fn token_state(secret: u64, grant: u64) -> u64 {
    secret ^ grant.wrapping_mul(0x2545_F491_4F6C_DD1Du64)
}

/// The token of a grant.
#[verifier::opaque]
pub open spec fn token_of(secret: u64, grant: u64) -> u128 {
    let s = step(token_state(secret, grant));
    ((mixed(step(s)) as u128) << 64u128) | (mixed(s) as u128)
}

/// Mints the token of a grant.
pub fn mint(secret: u64, grant: u64) -> (t: u128)
    ensures
        t == token_of(secret, grant),
{
    proof {
        reveal(token_of);
    }
    let mut state: u64 = secret ^ grant.wrapping_mul(0x2545_F491_4F6C_DD1D);
    let lo = splitmix64(&mut state);
    let hi = splitmix64(&mut state);
    ((hi as u128) << 64u128) | (lo as u128)
}

proof fn lemma_wrapping_mul(a: u64, c: u64)
    ensures
        a.wrapping_mul(c) == (a * c) as u64,
{
    assert((a * c) as u64 == (a * c) % 0x1_0000_0000_0000_0000) by (bit_vector);
}

proof fn lemma_wrapping_add(a: u64, c: u64)
    ensures
        a.wrapping_add(c) == (a + c) as u64,
{
    assert((a + c) as u64 == if a + c > 0xffff_ffff_ffff_ffff {
        a + c - 0x1_0000_0000_0000_0000
    } else {
        a + c
    }) by (bit_vector);
}

proof fn lemma_first_factor(a: u64, b: u64)
    requires
        a.wrapping_mul(0xBF58_476D_1CE4_E5B9u64) == b.wrapping_mul(0xBF58_476D_1CE4_E5B9u64),
    ensures
        a == b,
{
    lemma_wrapping_mul(a, 0xBF58_476D_1CE4_E5B9u64);
    lemma_wrapping_mul(b, 0xBF58_476D_1CE4_E5B9u64);
    let x = (a * 0xBF58_476D_1CE4_E5B9u64) as u64;
    let y = (b * 0xBF58_476D_1CE4_E5B9u64) as u64;
    assert((x * 0x96de1b173f119089u64) as u64 == a) by (bit_vector)
        requires
            x == (a * 0xBF58_476D_1CE4_E5B9u64) as u64,
    ;
    assert((y * 0x96de1b173f119089u64) as u64 == b) by (bit_vector)
        requires
            y == (b * 0xBF58_476D_1CE4_E5B9u64) as u64,
    ;
}

proof fn lemma_second_factor(a: u64, b: u64)
    requires
        a.wrapping_mul(0x94D0_49BB_1331_11EBu64) == b.wrapping_mul(0x94D0_49BB_1331_11EBu64),
    ensures
        a == b,
{
    lemma_wrapping_mul(a, 0x94D0_49BB_1331_11EBu64);
    lemma_wrapping_mul(b, 0x94D0_49BB_1331_11EBu64);
    let x = (a * 0x94D0_49BB_1331_11EBu64) as u64;
    let y = (b * 0x94D0_49BB_1331_11EBu64) as u64;
    assert((x * 0x319642b2d24d8ec3u64) as u64 == a) by (bit_vector)
        requires
            x == (a * 0x94D0_49BB_1331_11EBu64) as u64,
    ;
    assert((y * 0x319642b2d24d8ec3u64) as u64 == b) by (bit_vector)
        requires
            y == (b * 0x94D0_49BB_1331_11EBu64) as u64,
    ;
}

proof fn lemma_grant_factor(a: u64, b: u64)
    requires
        a.wrapping_mul(0x2545_F491_4F6C_DD1Du64) == b.wrapping_mul(0x2545_F491_4F6C_DD1Du64),
    ensures
        a == b,
{
    lemma_wrapping_mul(a, 0x2545_F491_4F6C_DD1Du64);
    lemma_wrapping_mul(b, 0x2545_F491_4F6C_DD1Du64);
    let x = (a * 0x2545_F491_4F6C_DD1Du64) as u64;
    let y = (b * 0x2545_F491_4F6C_DD1Du64) as u64;
    assert((x * 0x59071d96d81ecd35u64) as u64 == a) by (bit_vector)
        requires
            x == (a * 0x2545_F491_4F6C_DD1Du64) as u64,
    ;
    assert((y * 0x59071d96d81ecd35u64) as u64 == b) by (bit_vector)
        requires
            y == (b * 0x2545_F491_4F6C_DD1Du64) as u64,
    ;
}

proof fn lemma_mixed_injective(x: u64, y: u64)
    requires
        mixed(x) == mixed(y),
    ensures
        x == y,
{
    let a = (x ^ (x >> 30)).wrapping_mul(0xBF58_476D_1CE4_E5B9u64);
    let b = (a ^ (a >> 27)).wrapping_mul(0x94D0_49BB_1331_11EBu64);
    let c = (y ^ (y >> 30)).wrapping_mul(0xBF58_476D_1CE4_E5B9u64);
    let d = (c ^ (c >> 27)).wrapping_mul(0x94D0_49BB_1331_11EBu64);
    assert(b == d) by (bit_vector)
        requires
            b ^ (b >> 31) == d ^ (d >> 31),
    ;
    lemma_second_factor(a ^ (a >> 27), c ^ (c >> 27));
    assert(a == c) by (bit_vector)
        requires
            a ^ (a >> 27) == c ^ (c >> 27),
    ;
    lemma_first_factor(x ^ (x >> 30), y ^ (y >> 30));
    assert(x == y) by (bit_vector)
        requires
            x ^ (x >> 30) == y ^ (y >> 30),
    ;
}

/// A token belongs to one grant: two grants of one broker never share a token.
pub proof fn law_tokens_are_distinct(secret: u64, a: u64, b: u64)
    requires
        token_of(secret, a) == token_of(secret, b),
    ensures
        a == b,
{
    reveal(token_of);
    let sa = step(token_state(secret, a));
    let sb = step(token_state(secret, b));
    let (la, ha, lb, hb) = (mixed(sa), mixed(step(sa)), mixed(sb), mixed(step(sb)));
    assert(la == lb) by (bit_vector)
        requires
            ((ha as u128) << 64u128) | (la as u128) == ((hb as u128) << 64u128) | (lb as u128),
    ;
    lemma_mixed_injective(sa, sb);
    let ta = token_state(secret, a);
    let tb = token_state(secret, b);
    assert(ta == tb) by {
        lemma_wrapping_add(ta, 0x9E37_79B9_7F4A_7C15u64);
        lemma_wrapping_add(tb, 0x9E37_79B9_7F4A_7C15u64);
        assert(ta == tb) by (bit_vector)
            requires
                (ta + 0x9E37_79B9_7F4A_7C15u64) as u64 == (tb + 0x9E37_79B9_7F4A_7C15u64) as u64,
        ;
    }
    let ma = a.wrapping_mul(0x2545_F491_4F6C_DD1Du64);
    let mb = b.wrapping_mul(0x2545_F491_4F6C_DD1Du64);
    assert(ma == mb) by (bit_vector)
        requires
            secret ^ ma == secret ^ mb,
    ;
    lemma_grant_factor(a, b);
}

} // verus!
