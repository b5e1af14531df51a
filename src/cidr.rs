//! IPv4 address blocks given by a base address and a prefix length.
use vstd::prelude::*;
use crate::marks::Mark;

verus! {

/// Two to the power `n`.
pub open spec fn pow2(n: nat) -> nat
    decreases n,
{
    if n == 0 {
        1
    } else {
        2 * pow2((n - 1) as nat)
    }
}

/// Number of addresses in a block with `bits` prefix bits.
pub open spec fn block_size(bits: u8) -> nat {
    pow2((32 - bits) as nat)
}

/// Number of IPv4 addresses.
pub open spec fn space() -> int {
    0x1_0000_0000
}

pub proof fn lemma_pow2_bounds(n: nat)
    requires
        n <= 32,
    ensures
        1 <= pow2(n) <= pow2(32),
        pow2(32) == space(),
    decreases n,
{
    if n > 0 {
        lemma_pow2_bounds((n - 1) as nat);
    }
    if n < 32 {
        lemma_pow2_le(n, 32);
    }
    reveal_with_fuel(pow2, 33);
    assert(pow2(32) == 0x1_0000_0000);
}

pub proof fn lemma_pow2_le(a: nat, b: nat)
    requires
        a <= b,
    ensures
        pow2(a) <= pow2(b),
        pow2(b) % pow2(a) == 0,
    decreases b,
{
    lemma_pow2_pos(a);
    if a < b {
        lemma_pow2_le(a, (b - 1) as nat);
        let p = pow2(a) as int;
        let q = pow2((b - 1) as nat) as int;
        let k = q / p;
        vstd::arithmetic::div_mod::lemma_fundamental_div_mod(q, p);
        assert(q == p * k);
        assert(pow2(b) == 2 * q);
        assert(pow2(b) as int == (2 * k) * p) by (nonlinear_arith)
            requires
                pow2(b) == 2 * q,
                q == p * k,
        ;
        vstd::arithmetic::div_mod::lemma_mod_multiples_basic(2 * k, p);
    } else {
        vstd::arithmetic::div_mod::lemma_mod_multiples_basic(1, pow2(a) as int);
    }
}

pub proof fn lemma_pow2_add(a: nat, b: nat)
    ensures
        pow2(a) * pow2(b) == pow2(a + b),
    decreases b,
{
    if b > 0 {
        lemma_pow2_add(a, (b - 1) as nat);
        assert(pow2(a + b) == 2 * pow2((a + b - 1) as nat));
        assert((a + b - 1) as nat == a + (b - 1) as nat);
        assert(pow2(a) * pow2(b) == 2 * (pow2(a) * pow2((b - 1) as nat))) by (nonlinear_arith)
            requires
                pow2(b) == 2 * pow2((b - 1) as nat),
        ;
    } else {
        assert(pow2(0) == 1);
    }
}

pub proof fn lemma_pow2_pos(a: nat)
    ensures
        pow2(a) >= 1,
    decreases a,
{
    if a > 0 {
        lemma_pow2_pos((a - 1) as nat);
    }
}

/// An IPv4 block: `ip` is the first address, `subnet_bits` the prefix length.
#[derive(Clone, Copy, Debug)]
pub struct Cidrv4 {
    pub ip: u32,
    pub subnet_bits: u8,
}

impl Cidrv4 {
    /// The prefix length is at most 32 and the address is aligned to the block.
    pub open spec fn wf(&self) -> bool {
        self.subnet_bits <= 32 && (self.ip as nat) % block_size(self.subnet_bits) == 0
    }

    /// Whether address `a` lies in the block.
    pub open spec fn contains(&self, a: int) -> bool {
        self.ip <= a < self.ip + block_size(self.subnet_bits)
    }

    /// Makes a block; the address must be aligned to the prefix length.
    pub fn new(ip: u32, subnet_bits: u8) -> (r: Cidrv4)
        requires
            subnet_bits <= 32,
            (ip as nat) % block_size(subnet_bits) == 0,
        ensures
            r.wf(),
            r.ip == ip,
            r.subnet_bits == subnet_bits,
    {
        Cidrv4 { ip, subnet_bits }
    }

    /// Makes a block, or `None` when the prefix length exceeds 32 or the
    /// address has bits set below the prefix.
    pub fn try_new(ip: u32, subnet_bits: u8) -> (r: Option<Cidrv4>)
        ensures
            r is Some <==> (subnet_bits <= 32 && (ip as nat) % block_size(subnet_bits) == 0),
            r is Some ==> r->0.ip == ip && r->0.subnet_bits == subnet_bits,
    {
        if subnet_bits > 32 {
            return None;
        }
        let blk = block_len(subnet_bits);
        if ip as u64 % blk == 0 {
            Some(Cidrv4 { ip, subnet_bits })
        } else {
            None
        }
    }

    /// The address just past the block, if it is below the top of the space.
    pub fn after(&self) -> (r: Option<u32>)
        requires
            self.subnet_bits <= 32,
        ensures
            self.ip + block_size(self.subnet_bits) < space() ==> r == Some(
                (self.ip + block_size(self.subnet_bits)) as u32,
            ),
            self.ip + block_size(self.subnet_bits) >= space() ==> r is None,
    {
        let blk = block_len(self.subnet_bits);
        let end: u64 = self.ip as u64 + blk;
        if end < 0x1_0000_0000u64 {
            Some(end as u32)
        } else {
            None
        }
    }

    /// The block of prefix length `min(32, bits)` that holds address `raw`.
    pub fn aligned(raw: u32, bits: u8) -> (r: Cidrv4)
        ensures
            r.wf(),
            r.subnet_bits == if bits > 32 { 32 } else { bits },
            r.ip as int == raw as int - (raw as int) % (block_size(r.subnet_bits) as int),
            r.contains(raw as int),
    {
        let subnet_bits: u8 = if bits > 32 { 32 } else { bits };
        let blk = block_len(subnet_bits);
        proof {
            vstd::arithmetic::div_mod::lemma_mod_decreases(raw as nat, blk as nat);
        }
        let ip: u64 = raw as u64 - raw as u64 % blk;
        proof {
            vstd::arithmetic::div_mod::lemma_fundamental_div_mod(raw as int, blk as int);
            vstd::arithmetic::div_mod::lemma_mod_multiples_basic(raw as int / blk as int, blk as int);
            assert(raw as int - raw as int % blk as int == blk * (raw as int / blk as int));
            assert((blk * (raw as int / blk as int)) % (blk as int) == 0) by (nonlinear_arith)
                requires
                    ((raw as int / blk as int) * blk) % (blk as int) == 0,
            ;
        }
        Cidrv4 { ip: ip as u32, subnet_bits }
    }

    /// A block of prefix length `min(32, bits)` at a random aligned address.
    pub fn random(bits: u8) -> (r: Cidrv4)
        ensures
            r.wf(),
            r.subnet_bits == if bits > 32 { 32 } else { bits },
    {
        Cidrv4::aligned(random_u32(), bits)
    }
}

/// A well-formed block ends at or below the top of the address space.
pub proof fn lemma_cidr_end(cidr: Cidrv4)
    requires
        cidr.wf(),
    ensures
        cidr.ip + block_size(cidr.subnet_bits) <= space(),
{
    let b = block_size(cidr.subnet_bits) as int;
    lemma_pow2_bounds((32 - cidr.subnet_bits) as nat);
    lemma_pow2_le((32 - cidr.subnet_bits) as nat, 32);
    vstd::arithmetic::div_mod::lemma_fundamental_div_mod(cidr.ip as int, b);
    vstd::arithmetic::div_mod::lemma_fundamental_div_mod(space(), b);
    let q = cidr.ip as int / b;
    let t = space() / b;
    assert(cidr.ip as int == b * q);
    assert(space() == b * t);
    assert(q < t) by (nonlinear_arith)
        requires
            b * q < b * t,
            b >= 1,
    ;
    assert(b * q + b <= b * t) by (nonlinear_arith)
        requires
            q < t,
            b >= 1,
    ;
}

/// `pow2(32 - bits)` as a machine integer.
pub fn block_len(bits: u8) -> (r: u64)
    requires
        bits <= 32,
    ensures
        r == block_size(bits),
        1 <= r <= space(),
{
    let mut r: u64 = 1;
    let mut i: u8 = 0;
    while i < 32 - bits
        invariant
            bits <= 32,
            i <= 32 - bits,
            r == pow2(i as nat),
        decreases 32 - bits - i,
    {
        proof {
            lemma_pow2_bounds((i + 1) as nat);
        }
        r = r * 2;
        i = i + 1;
    }
    proof {
        lemma_pow2_bounds((32 - bits) as nat);
    }
    r
}

/// Numbers the blocks `0..n`; block `i` has prefix length `min(32, bits[i])`
/// and a random aligned address.
pub fn random_routers(n: Mark, bits: &Vec<u8>) -> (r: Vec<(Mark, Cidrv4)>)
    requires
        bits.len() == n,
    ensures
        r.len() == n,
        forall|i: int|
            0 <= i < n ==> {
                &&& #[trigger] r@[i].0 == i
                &&& r@[i].1.wf()
                &&& r@[i].1.subnet_bits == if bits@[i] > 32 { 32 } else { bits@[i] }
            },
{
    let mut r: Vec<(Mark, Cidrv4)> = Vec::new();
    let mut i: u32 = 0;
    while i < n
        invariant
            bits.len() == n,
            i <= n,
            r.len() == i,
            forall|k: int|
                0 <= k < i ==> {
                    &&& #[trigger] r@[k].0 == k
                    &&& r@[k].1.wf()
                    &&& r@[k].1.subnet_bits == if bits@[k] > 32 { 32 } else { bits@[k] }
                },
        decreases n - i,
    {
        let c = Cidrv4::random(bits[i as usize]);
        let ghost old_r = r@;
        r.push((i, c));
        assert(r@[i as int] == (i, c));
        assert forall|k: int| 0 <= k < i + 1 implies {
            &&& #[trigger] r@[k].0 == k
            &&& r@[k].1.wf()
            &&& r@[k].1.subnet_bits == if bits@[k] > 32 { 32 } else { bits@[k] }
        } by {
            if k < i {
                assert(r@[k] == old_r[k]);
            }
        }
        i = i + 1;
    }
    r
}

/// Relies on rand::random::<u32>: it draws a value from the thread-local
/// generator; nothing is known of the value.
#[verifier::external_body]
fn random_u32() -> (r: u32) {
    rand::random::<u32>()
}

} // verus!
