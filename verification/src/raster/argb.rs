//! Packed 32-bit pixels: alpha, red, green and blue, from the high byte down.
use vstd::prelude::*;

verus! {

pub open spec fn alpha(p: u32) -> nat {
    p as nat / 0x1000000
}

pub open spec fn red(p: u32) -> nat {
    (p as nat / 0x10000) % 256
}

pub open spec fn green(p: u32) -> nat {
    (p as nat / 0x100) % 256
}

pub open spec fn blue(p: u32) -> nat {
    p as nat % 256
}

/// The pixel with these channels.
pub open spec fn argb(a: nat, r: nat, g: nat, b: nat) -> u32 {
    (a * 0x1000000 + r * 0x10000 + g * 0x100 + b) as u32
}

pub fn pack(a: u32, r: u32, g: u32, b: u32) -> (p: u32)
    requires
        a < 256,
        r < 256,
        g < 256,
        b < 256,
    ensures
        p == argb(a as nat, r as nat, g as nat, b as nat),
{
    a * 0x1000000 + r * 0x10000 + g * 0x100 + b
}

/// A pixel has the channels it was packed from.
pub proof fn law_pack_channels(a: nat, r: nat, g: nat, b: nat)
    requires
        a < 256,
        r < 256,
        g < 256,
        b < 256,
    ensures
        alpha(argb(a, r, g, b)) == a,
        red(argb(a, r, g, b)) == r,
        green(argb(a, r, g, b)) == g,
        blue(argb(a, r, g, b)) == b,
{
    let p = a * 0x1000000 + r * 0x10000 + g * 0x100 + b;
    assert(p <= u32::MAX);
    assert(argb(a, r, g, b) as nat == p);
    assert(p / 0x100 == a * 0x10000 + r * 0x100 + g);
    assert(p / 0x10000 == a * 0x100 + r);
    assert(p / 0x1000000 == a);
}

/// A pixel is what its channels pack into.
pub proof fn law_channels_pack(p: u32)
    ensures
        alpha(p) < 256,
        argb(alpha(p), red(p), green(p), blue(p)) == p,
{
}

/// Channel-wise sum, modulo 256.
pub open spec fn sum_of(p: u32, q: u32) -> u32 {
    argb(
        (alpha(p) + alpha(q)) % 256,
        (red(p) + red(q)) % 256,
        (green(p) + green(q)) % 256,
        (blue(p) + blue(q)) % 256,
    )
}

/// Add two pixels channel by channel.
pub fn add_argb(a: u32, b: u32) -> (p: u32)
    ensures
        p == sum_of(a, b),
{
    pack(
        (a / 0x1000000 + b / 0x1000000) % 256,
        (a / 0x10000 % 256 + b / 0x10000 % 256) % 256,
        (a / 0x100 % 256 + b / 0x100 % 256) % 256,
        (a % 256 + b % 256) % 256,
    )
}

/// Channel-wise difference, modulo 256.
pub open spec fn difference(p: u32, q: u32) -> u32 {
    argb(
        ((alpha(p) + 256 - alpha(q)) % 256) as nat,
        ((red(p) + 256 - red(q)) % 256) as nat,
        ((green(p) + 256 - green(q)) % 256) as nat,
        ((blue(p) + 256 - blue(q)) % 256) as nat,
    )
}

/// Adding undoes a channel-wise difference.
pub proof fn law_add_undoes_difference(p: u32, q: u32)
    ensures
        sum_of(difference(p, q), q) == p,
{
    law_pack_channels(
        ((alpha(p) + 256 - alpha(q)) % 256) as nat,
        ((red(p) + 256 - red(q)) % 256) as nat,
        ((green(p) + 256 - green(q)) % 256) as nat,
        ((blue(p) + 256 - blue(q)) % 256) as nat,
    );
    law_channels_pack(p);
    law_channels_pack(q);
    lemma_mod_back(alpha(p), alpha(q));
    lemma_mod_back(red(p), red(q));
    lemma_mod_back(green(p), green(q));
    lemma_mod_back(blue(p), blue(q));
}

pub proof fn lemma_mod_back(x: nat, y: nat)
    requires
        x < 256,
        y < 256,
    ensures
        ((x + 256 - y) % 256 + y) % 256 == x,
{
}

} // verus!
