use vstd::prelude::*;

verus! {

use vstd::arithmetic::power2::pow2;
use vstd::arithmetic::power2::lemma_pow2_adds;
use vstd::arithmetic::power2::lemma_pow2_pos;
use vstd::arithmetic::power2::lemma_pow2_strictly_increases;
use vstd::arithmetic::power2::lemma2_to64;
use vstd::arithmetic::div_mod::lemma_fundamental_div_mod;
use vstd::arithmetic::div_mod::lemma_mod_multiples_basic;

/// Address family of a block: IPv4 or IPv6.
#[derive(Clone, Copy, PartialEq, Eq, Structural, Debug, Hash)]
pub enum Family {
    V4,
    V6,
}

/// An IP network prefix: an address family, a base address and a prefix
/// length.  The base address is held as an integer (for IPv4, the four
/// octets read big-endian; for IPv6, the sixteen).  A well-formed block's
/// base address is aligned to the block size, so the block stands for the
/// address range `[addr, addr + 2^host_bits)`.
#[derive(Clone, Copy, PartialEq, Eq, Structural, Debug, Hash)]
pub struct IpBlock {
    pub family: Family,
    pub addr: u128,
    pub prefix: u8,
}

impl IpBlock {
    /// Width in bits of an address of this block's family.
    pub open spec fn total_bits(self) -> nat {
        match self.family {
            Family::V4 => 32,
            Family::V6 => 128,
        }
    }

    /// Number of address bits not fixed by the prefix.
    pub open spec fn host_bits(self) -> nat {
        (self.total_bits() - self.prefix) as nat
    }

    /// Number of addresses the block spans.
    pub open spec fn size(self) -> nat {
        pow2(self.host_bits())
    }

    /// One past the last address of the block.
    pub open spec fn end(self) -> int {
        self.addr + self.size()
    }

    /// Well-formed: the prefix length fits the family, the address fits the
    /// family, and the host part of the address is zero.
    pub open spec fn wf(self) -> bool {
        &&& self.prefix as nat <= self.total_bits()
        &&& (self.addr as nat) < pow2(self.total_bits())
        &&& (self.addr as nat) % self.size() == 0
    }

    /// The range of `o` is a subset of the range of `self`.
    pub open spec fn contains_spec(self, o: IpBlock) -> bool {
        &&& self.family == o.family
        &&& self.addr <= o.addr
        &&& o.end() <= self.end()
    }

    /// The ranges of `self` and `o` intersect.
    pub open spec fn overlaps(self, o: IpBlock) -> bool {
        &&& self.family == o.family
        &&& self.addr < o.end()
        &&& o.addr < self.end()
    }

    /// First half of the block, at prefix length + 1.
    pub open spec fn low_half(self) -> IpBlock {
        IpBlock { family: self.family, addr: self.addr, prefix: (self.prefix + 1) as u8 }
    }

    /// Second half of the block, at prefix length + 1.
    pub open spec fn high_half(self) -> IpBlock {
        IpBlock {
            family: self.family,
            addr: (self.addr + pow2((self.host_bits() - 1) as nat)) as u128,
            prefix: (self.prefix + 1) as u8,
        }
    }

    /// The lowest-addressed sub-block of `self` with host width `n`.
    pub open spec fn first_sub(self, n: u8) -> IpBlock {
        IpBlock { family: self.family, addr: self.addr, prefix: (self.total_bits() - n) as u8 }
    }
}

/// 2^128, written out.
pub proof fn lemma_pow2_128()
    ensures
        pow2(128) == 0x100000000000000000000000000000000,
{
    lemma2_to64();
    lemma_pow2_adds(64, 64);
}

/// A well-formed block's range stays within the address space of its family.
pub proof fn lemma_end_bound(b: IpBlock)
    requires
        b.wf(),
    ensures
        b.end() <= pow2(b.total_bits()),
        b.size() >= 1,
{
    lemma_pow2_pos(b.host_bits());
    lemma_pow2_pos(b.prefix as nat);
    lemma_pow2_adds(b.host_bits(), b.prefix as nat);
    let s = b.size() as int;
    let p = pow2(b.prefix as nat) as int;
    let a = b.addr as int;
    lemma_fundamental_div_mod(a, s);
    let q = a / s;
    assert(a == s * q);
    assert(q < p) by (nonlinear_arith)
        requires
            a == s * q,
            a < s * p,
            s > 0,
            q >= 0,
    ;
    assert(s * q + s <= s * p) by (nonlinear_arith)
        requires
            q < p,
            s > 0,
    ;
}

/// Splitting a well-formed block of nonzero host width yields two
/// well-formed halves that tile its range exactly.
pub proof fn lemma_halves(b: IpBlock)
    requires
        b.wf(),
        b.host_bits() >= 1,
    ensures
        b.low_half().wf(),
        b.high_half().wf(),
        b.low_half().family == b.family,
        b.high_half().family == b.family,
        b.low_half().host_bits() == b.host_bits() - 1,
        b.high_half().host_bits() == b.host_bits() - 1,
        b.low_half().addr == b.addr,
        b.low_half().end() == b.high_half().addr,
        b.high_half().end() == b.end(),
        b.contains_spec(b.low_half()),
        b.contains_spec(b.high_half()),
        !b.low_half().overlaps(b.high_half()),
        b.low_half() != b.high_half(),
{
    let h = (b.host_bits() - 1) as nat;
    let s = pow2(h) as int;
    let a = b.addr as int;
    lemma_pow2_pos(h);
    lemma_pow2_adds(h, 1);
    lemma2_to64();
    lemma_pow2_128();
    assert(b.size() == 2 * s);
    lemma_end_bound(b);
    lemma_fundamental_div_mod(a, 2 * s);
    let q = a / (2 * s);
    assert(a == (2 * s) * q);
    assert(a == (2 * q) * s && a + s == (2 * q + 1) * s) by (nonlinear_arith)
        requires
            a == (2 * s) * q,
            s > 0,
    ;
    lemma_mod_multiples_basic(2 * q, s);
    lemma_mod_multiples_basic(2 * q + 1, s);
    assert(a % s == 0);
    assert((a + s) % s == 0);
    // The high half's base address fits in a u128.
    assert(a + 2 * s <= pow2(b.total_bits()));
    assert(pow2(b.total_bits()) <= 0x100000000000000000000000000000000);
    assert(b.high_half().addr == a + s);
    assert((b.high_half().addr as nat) % (s as nat) == 0);
    assert((b.low_half().addr as nat) % (s as nat) == 0);
}

/// Containment of well-formed blocks is antisymmetric: mutual containment
/// means equality.
pub proof fn lemma_contains_antisym(a: IpBlock, b: IpBlock)
    requires
        a.wf(),
        b.wf(),
        a.contains_spec(b),
        b.contains_spec(a),
    ensures
        a == b,
{
    assert(a.addr == b.addr);
    assert(a.size() == b.size());
    if a.prefix != b.prefix {
        if a.host_bits() < b.host_bits() {
            lemma_pow2_strictly_increases(a.host_bits(), b.host_bits());
        } else {
            lemma_pow2_strictly_increases(b.host_bits(), a.host_bits());
        }
    }
}

/// A proper sub-block of a well-formed block lies entirely within exactly
/// one of its halves.
pub proof fn lemma_sub_in_half(p: IpBlock, b: IpBlock)
    requires
        p.wf(),
        b.wf(),
        p.contains_spec(b),
        b != p,
    ensures
        p.host_bits() >= 1,
        b.host_bits() < p.host_bits(),
        p.low_half().contains_spec(b) || p.high_half().contains_spec(b),
        !(p.low_half().contains_spec(b) && p.high_half().contains_spec(b)),
{
    lemma_end_bound(p);
    lemma_end_bound(b);
    // b's size cannot exceed p's, and equality of sizes would force b == p.
    if b.host_bits() >= p.host_bits() {
        if b.host_bits() > p.host_bits() {
            lemma_pow2_strictly_increases(p.host_bits(), b.host_bits());
            assert(false);
        }
        assert(b.size() == p.size());
        lemma_contains_antisym(p, b);
        assert(false);
    }
    lemma_pow2_strictly_increases(b.host_bits(), p.host_bits());
    lemma_halves(p);
    let h = (p.host_bits() - 1) as nat;
    let half = pow2(h) as int;
    let bs = b.size() as int;
    lemma_pow2_pos(h);
    lemma_pow2_pos(b.host_bits());
    // b's size divides the half size.
    let k = pow2((h - b.host_bits()) as nat) as int;
    lemma_pow2_adds(b.host_bits(), (h - b.host_bits()) as nat);
    lemma_pow2_pos((h - b.host_bits()) as nat);
    assert(half == bs * k);
    // Both p.addr and b.addr are multiples of b's size.
    let pk = pow2((p.host_bits() - b.host_bits()) as nat) as int;
    lemma_pow2_adds(b.host_bits(), (p.host_bits() - b.host_bits()) as nat);
    assert(p.size() == bs * pk);
    let a = p.addr as int;
    let c = b.addr as int;
    lemma_fundamental_div_mod(a, bs * pk);
    let qa = a / (bs * pk);
    assert(a == (bs * pk) * qa);
    assert(a == bs * (pk * qa)) by (nonlinear_arith)
        requires
            a == (bs * pk) * qa,
    ;
    lemma_fundamental_div_mod(c, bs);
    let qc = c / bs;
    assert(c == bs * qc);
    // The offset of b within p is a multiple of b's size.
    let rel = c - a;
    assert(rel == bs * (qc - pk * qa)) by (nonlinear_arith)
        requires
            c == bs * qc,
            a == bs * (pk * qa),
            rel == c - a,
    ;
    let m = qc - pk * qa;
    assert(rel >= 0);
    assert(m >= 0) by (nonlinear_arith)
        requires
            rel == bs * m,
            rel >= 0,
            bs > 0,
    ;
    if rel < half {
        // rel = bs * m < half = bs * k, so m < k, so rel + bs <= half.
        assert(m < k) by (nonlinear_arith)
            requires
                rel == bs * m,
                half == bs * k,
                rel < half,
                bs > 0,
                m >= 0,
        ;
        assert(bs * m + bs <= bs * k) by (nonlinear_arith)
            requires
                m < k,
                bs > 0,
        ;
        assert(p.low_half().contains_spec(b));
    } else {
        assert(p.high_half().contains_spec(b));
    }
}

/// The lowest-addressed sub-block of a given host width is a well-formed
/// sub-block sharing the base address.
pub proof fn lemma_first_sub(b: IpBlock, n: u8)
    requires
        b.wf(),
        n as nat <= b.host_bits(),
    ensures
        b.first_sub(n).wf(),
        b.contains_spec(b.first_sub(n)),
        b.first_sub(n).host_bits() == n as nat,
        b.first_sub(n).family == b.family,
        b.first_sub(n).addr == b.addr,
{
    let s = b.first_sub(n);
    let k = pow2((b.host_bits() - n) as nat) as int;
    lemma_pow2_adds(n as nat, (b.host_bits() - n) as nat);
    lemma_pow2_pos(n as nat);
    lemma_pow2_pos((b.host_bits() - n) as nat);
    lemma_pow2_pos(b.host_bits());
    let a = b.addr as int;
    let sn = pow2(n as nat) as int;
    assert(sn * k == pow2(b.host_bits()));
    lemma_fundamental_div_mod(a, sn * k);
    let q = a / (sn * k);
    assert(a == (sn * k) * q);
    assert(a == (k * q) * sn) by (nonlinear_arith)
        requires
            a == (sn * k) * q,
    ;
    lemma_mod_multiples_basic(k * q, sn);
    assert(sn <= sn * k) by (nonlinear_arith)
        requires
            k >= 1,
            sn > 0,
    ;
}

/// No well-formed block fits inside both halves of a block.
pub proof fn lemma_halves_exclusive(p: IpBlock, b: IpBlock)
    requires
        p.wf(),
        b.wf(),
        p.host_bits() >= 1,
    ensures
        !(p.low_half().contains_spec(b) && p.high_half().contains_spec(b)),
{
    lemma_halves(p);
    lemma_end_bound(b);
}

/// A block contains itself.
pub proof fn lemma_contains_refl(a: IpBlock)
    ensures
        a.contains_spec(a),
{
}

/// Sub-blocks of non-overlapping blocks do not overlap.
pub proof fn lemma_disjoint_sub(a: IpBlock, b: IpBlock, x: IpBlock, y: IpBlock)
    requires
        !a.overlaps(b),
        a.contains_spec(x),
        b.contains_spec(y),
        x.size() >= 1,
        y.size() >= 1,
    ensures
        !x.overlaps(y),
{
}

/// A well-formed block overlaps every block it contains.
pub proof fn lemma_contains_overlaps(a: IpBlock, b: IpBlock)
    requires
        a.contains_spec(b),
        b.size() >= 1,
    ensures
        a.overlaps(b),
        b.overlaps(a),
{
}

impl IpBlock {
    /// Number of host bits, as a machine integer.
    pub fn host_len(&self) -> (r: u8)
        requires
            self.wf(),
        ensures
            r as nat == self.host_bits(),
    {
        let total: u8 = match self.family {
            Family::V4 => 32,
            Family::V6 => 128,
        };
        total - self.prefix
    }

    /// Containment test: does `self`'s range include all of `o`'s?
    pub fn contains_block(&self, o: &IpBlock) -> (r: bool)
        requires
            self.wf(),
            o.wf(),
        ensures
            r == self.contains_spec(*o),
    {
        proof {
            lemma_end_bound(*self);
            lemma_end_bound(*o);
            lemma2_to64();
            lemma_pow2_128();
        }
        if self.family != o.family {
            return false;
        }
        let self_last: u128 = self.addr + pow2m1_u128(self.host_len());
        let o_last: u128 = o.addr + pow2m1_u128(o.host_len());
        self.addr <= o.addr && o_last <= self_last
    }

    /// The first half of the block, at prefix length + 1.
    pub fn split_low(&self) -> (r: IpBlock)
        requires
            self.wf(),
            self.host_bits() >= 1,
        ensures
            r == self.low_half(),
            r.wf(),
    {
        proof {
            lemma_halves(*self);
        }
        IpBlock { family: self.family, addr: self.addr, prefix: self.prefix + 1 }
    }

    /// The second half of the block, at prefix length + 1.
    pub fn split_high(&self) -> (r: IpBlock)
        requires
            self.wf(),
            self.host_bits() >= 1,
        ensures
            r == self.high_half(),
            r.wf(),
    {
        proof {
            lemma_halves(*self);
            lemma_end_bound(*self);
        }
        let half: u128 = pow2_u128(self.host_len() - 1);
        IpBlock { family: self.family, addr: self.addr + half, prefix: self.prefix + 1 }
    }
}

/// The integer value of an IPv4 address given as four octets.
pub open spec fn v4_addr(o1: u8, o2: u8, o3: u8, o4: u8) -> int {
    o1 * 0x1000000 + o2 * 0x10000 + o3 * 0x100 + o4
}

/// The integer value of an IPv6 address given as eight 16-bit segments.
pub open spec fn v6_addr(s: Seq<u16>) -> int
    decreases s.len(),
{
    if s.len() == 0 {
        0
    } else {
        v6_addr(s.drop_last()) * 0x10000 + s.last()
    }
}

impl IpBlock {
    /// Build an IPv4 block from four address octets and a prefix length.
    /// Fails exactly when the prefix length exceeds 32 or the host part of
    /// the address is not zero.
    pub fn v4(o1: u8, o2: u8, o3: u8, o4: u8, prefix: u8) -> (r: Option<IpBlock>)
        ensures
            match r {
                Some(b) => {
                    &&& b.wf()
                    &&& b.family == Family::V4
                    &&& b.addr == v4_addr(o1, o2, o3, o4)
                    &&& b.prefix == prefix
                },
                None => {
                    prefix > 32 || v4_addr(o1, o2, o3, o4) % pow2((32 - prefix) as nat) as int
                        != 0
                },
            },
    {
        if prefix > 32 {
            return None;
        }
        let addr: u128 = (o1 as u128) * 0x1000000 + (o2 as u128) * 0x10000 + (o3 as u128) * 0x100
            + (o4 as u128);
        let align: u128 = pow2_u128(32 - prefix);
        proof {
            lemma2_to64();
            lemma_pow2_pos((32 - prefix) as nat);
        }
        if addr % align != 0 {
            return None;
        }
        Some(IpBlock { family: Family::V4, addr, prefix })
    }

    /// Build an IPv6 block from eight 16-bit address segments and a prefix
    /// length.  Fails exactly when the prefix length exceeds 128 or the host
    /// part of the address is not zero.
    pub fn v6(segs: &[u16; 8], prefix: u8) -> (r: Option<IpBlock>)
        ensures
            match r {
                Some(b) => {
                    &&& b.wf()
                    &&& b.family == Family::V6
                    &&& b.addr == v6_addr(segs@)
                    &&& b.prefix == prefix
                },
                None => {
                    prefix > 128 || v6_addr(segs@) % pow2((128 - prefix) as nat) as int != 0
                },
            },
    {
        if prefix > 128 {
            return None;
        }
        let mut addr: u128 = 0;
        let mut i: usize = 0;
        proof {
            lemma2_to64();
        }
        while i < 8
            invariant
                i <= 8,
                addr == v6_addr(segs@.take(i as int)),
                addr < pow2((16 * i) as nat),
            decreases 8 - i,
        {
            proof {
                lemma2_to64();
                lemma_pow2_128();
                lemma_pow2_adds((16 * i) as nat, 16);
                if 16 * (i + 1) < 128 {
                    lemma_pow2_strictly_increases((16 * (i + 1)) as nat, 128);
                }
                assert(addr * 0x10000 <= (pow2((16 * i) as nat) - 1) * 0x10000);
                assert(segs@.take(i + 1).drop_last() =~= segs@.take(i as int));
            }
            addr = addr * 0x10000 + (segs[i] as u128);
            i = i + 1;
        }
        proof {
            assert(segs@.take(8) =~= segs@);
            lemma_pow2_128();
        }
        if prefix == 0 {
            proof {
                lemma_pow2_128();
                if addr as int % pow2(128) as int == 0 && addr != 0 {
                    lemma_fundamental_div_mod(addr as int, pow2(128) as int);
                }
            }
            if addr != 0 {
                return None;
            }
            return Some(IpBlock { family: Family::V6, addr: 0, prefix: 0 });
        }
        let align: u128 = pow2_u128(128 - prefix);
        proof {
            lemma_pow2_pos((128 - prefix) as nat);
        }
        if addr % align != 0 {
            return None;
        }
        Some(IpBlock { family: Family::V6, addr, prefix })
    }
}

/// 2^k as a u128, for k up to 127.
pub fn pow2_u128(k: u8) -> (r: u128)
    requires
        k <= 127,
    ensures
        r as nat == pow2(k as nat),
{
    proof {
        lemma2_to64();
    }
    let mut r: u128 = 1;
    let mut i: u8 = 0;
    while i < k
        invariant
            i <= k,
            k <= 127,
            r as nat == pow2(i as nat),
        decreases k - i,
    {
        proof {
            lemma_pow2_128();
            lemma_pow2_strictly_increases((i + 1) as nat, 128);
            lemma_pow2_adds(i as nat, 1);
            lemma2_to64();
        }
        r = r * 2;
        i = i + 1;
    }
    r
}

/// 2^k - 1 as a u128, for k up to 128.
pub fn pow2m1_u128(k: u8) -> (r: u128)
    requires
        k <= 128,
    ensures
        r as nat == pow2(k as nat) - 1,
{
    proof {
        lemma_pow2_pos(k as nat);
        lemma_pow2_128();
    }
    if k == 128 {
        u128::MAX
    } else {
        pow2_u128(k) - 1
    }
}

} // verus!
