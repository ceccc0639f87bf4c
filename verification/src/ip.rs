//! IP addresses and networks as plain numbers.

use vstd::prelude::*;
use vstd::arithmetic::power2::pow2;

use crate::text::{decimal, lowercase, push_decimal};

verus! {

/// An IP address by its number: the octets in network order, read as one
/// big-endian integer.
#[derive(Debug, Clone, Copy, PartialEq, Eq, Hash, PartialOrd, Ord, Structural)]
pub enum IpAddr {
    V4(u32),
    V6(u128),
}

/// An address with a prefix length.
#[derive(Debug, Clone, Copy, PartialEq, Eq, Hash, Structural)]
pub struct IpNet {
    pub address: IpAddr,
    pub prefix: u8,
}

/// An address and a port.
#[derive(Debug, Clone, Copy, PartialEq, Eq, Hash, Structural)]
pub struct SocketAddr {
    pub ip: IpAddr,
    pub port: u16,
}

// ---------------------------------------------------------------------------
// Text
// ---------------------------------------------------------------------------

/// The address that a text writes, as `core::net::IpAddr`'s `FromStr` reads it.
pub uninterp spec fn ip_from_text(text: Seq<char>) -> Option<IpAddr>;

/// The text of an address, as `core::net::IpAddr`'s `Display` writes it.
pub uninterp spec fn ip_text(address: IpAddr) -> Seq<char>;

/// The network that a text writes, as `ipnet::IpNet`'s `FromStr` reads it.
pub uninterp spec fn net_from_text(text: Seq<char>) -> Option<IpNet>;

/// `<core::net::IpAddr as FromStr>::from_str`: the address that `text` writes,
/// or `None` where it writes none. The address is written without a slash, and
/// reading what is written gives it back. Hexadecimal digits are read in either
/// case. Which texts write an address is left to the standard library.
#[verifier::external_body]
pub(crate) fn read_ip(text: &str) -> (r: Option<IpAddr>)
    ensures
        r == ip_from_text(text@),
        r == ip_from_text(lowercase(text@)),
        r matches Some(address) ==> ip_from_text(ip_text(address)) == Some(address) && !ip_text(
            address,
        ).contains('/'),
{
    match text.parse::<core::net::IpAddr>() {
        Ok(core::net::IpAddr::V4(address)) => Some(IpAddr::V4(u32::from(address))),
        Ok(core::net::IpAddr::V6(address)) => Some(IpAddr::V6(u128::from(address))),
        Err(_) => None,
    }
}

/// `core::net::IpAddr`'s `Display`: the text of an address, a function of the
/// address alone. Reading it gives the address back.
#[verifier::external_body]
pub(crate) fn write_ip(address: IpAddr) -> (r: String)
    ensures
        r@ == ip_text(address),
        ip_from_text(r@) == Some(address),
{
    match address {
        IpAddr::V4(number) => core::net::Ipv4Addr::from(number).to_string(),
        IpAddr::V6(number) => core::net::Ipv6Addr::from(number).to_string(),
    }
}

/// `<ipnet::IpNet as FromStr>::from_str`: the address and prefix length that
/// `text` writes, or `None`. The prefix length fits the address family. The
/// address as the standard library writes it, a slash and the prefix length write
/// the network again.
#[verifier::external_body]
pub(crate) fn read_net(text: &str) -> (r: Option<IpNet>)
    ensures
        r == net_from_text(text@),
        r matches Some(net) ==> net.well_formed() && net_from_text(net.spec_text()) == Some(net),
{
    match text.parse::<ipnet::IpNet>() {
        Ok(ipnet::IpNet::V4(net)) => Some(
            IpNet { address: IpAddr::V4(u32::from(net.addr())), prefix: net.prefix_len() },
        ),
        Ok(ipnet::IpNet::V6(net)) => Some(
            IpNet { address: IpAddr::V6(u128::from(net.addr())), prefix: net.prefix_len() },
        ),
        Err(_) => None,
    }
}

// ---------------------------------------------------------------------------
// Octets
// ---------------------------------------------------------------------------

/// The number that bytes in network order write.
pub open spec fn be_value(bytes: Seq<u8>) -> nat
    decreases bytes.len(),
{
    if bytes.len() == 0 {
        0
    } else {
        be_value(bytes.drop_last()) * 256 + bytes.last() as nat
    }
}

/// The lowest `len` bytes of `n` in network order.
pub open spec fn be_bytes(n: nat, len: nat) -> Seq<u8>
    decreases len,
{
    if len == 0 {
        Seq::empty()
    } else {
        be_bytes(n / 256, (len - 1) as nat).push((n % 256) as u8)
    }
}

pub open spec fn pow256(len: nat) -> nat
    decreases len,
{
    if len == 0 {
        1
    } else {
        256 * pow256((len - 1) as nat)
    }
}

pub proof fn lemma_be_bytes(n: nat, len: nat)
    requires
        n < pow256(len),
    ensures
        be_bytes(n, len).len() == len,
        be_value(be_bytes(n, len)) == n,
    decreases len,
{
    if len > 0 {
        lemma_be_bytes(n / 256, (len - 1) as nat);
        assert(be_bytes(n, len).drop_last() =~= be_bytes(n / 256, (len - 1) as nat));
    }
}

pub proof fn lemma_be_value(bytes: Seq<u8>)
    ensures
        be_value(bytes) < pow256(bytes.len()),
        be_bytes(be_value(bytes), bytes.len()) == bytes,
    decreases bytes.len(),
{
    if bytes.len() > 0 {
        lemma_be_value(bytes.drop_last());
        let n = be_value(bytes);
        assert(n / 256 == be_value(bytes.drop_last()));
        assert(n % 256 == bytes.last() as nat);
        assert(bytes.drop_last().push(bytes.last()) =~= bytes);
    } else {
        assert(bytes =~= be_bytes(0, 0));
    }
}

pub proof fn lemma_pow256()
    ensures
        pow256(2) == 0x1_0000,
        pow256(4) == 0x1_0000_0000,
        pow256(16) == 0x1_0000_0000_0000_0000_0000_0000_0000_0000,
{
    reveal_with_fuel(pow256, 17);
    assert(pow256(2) == 0x1_0000);
    assert(pow256(4) == 0x1_0000_0000);
    assert(pow256(8) == 0x1_0000_0000_0000_0000);
    assert(pow256(12) == 0x1_0000_0000_0000_0000_0000_0000);
}

proof fn lemma_pow256_grows(small: nat, large: nat)
    requires
        small <= large,
    ensures
        1 <= pow256(small) <= pow256(large),
    decreases large,
{
    if small < large {
        lemma_pow256_grows(small, (large - 1) as nat);
    } else if large > 0 {
        lemma_pow256_grows((small - 1) as nat, (large - 1) as nat);
    }
}

/// Append the lowest `len` bytes of `n` in network order.
pub fn push_be(out: &mut Vec<u8>, n: u128, len: u8)
    ensures
        final(out)@ == old(out)@ + be_bytes(n as nat, len as nat),
    decreases len,
{
    if len > 0 {
        push_be(out, n / 256, len - 1);
        out.push((n % 256) as u8);
    }
    assert(out@ =~= old(out)@ + be_bytes(n as nat, len as nat));
}

/// The number that `bytes[from..to]` write in network order.
pub fn read_be(bytes: &[u8], from: usize, to: usize) -> (r: u128)
    requires
        from <= to <= bytes@.len(),
        to - from <= 16,
    ensures
        r == be_value(bytes@.subrange(from as int, to as int)),
        r < pow256((to - from) as nat),
{
    let mut n: u128 = 0;
    let mut i: usize = from;
    assert(bytes@.subrange(from as int, from as int) =~= Seq::empty());
    while i < to
        invariant
            from <= i <= to <= bytes@.len(),
            to - from <= 16,
            n == be_value(bytes@.subrange(from as int, i as int)),
        decreases to - i,
    {
        let ghost next = bytes@.subrange(from as int, i + 1);
        assert(next.drop_last() =~= bytes@.subrange(from as int, i as int));
        proof {
            lemma_be_value(next);
            lemma_pow256_grows(next.len(), 16);
            lemma_pow256();
        }
        n = n * 256 + bytes[i] as u128;
        i += 1;
    }
    proof {
        lemma_be_value(bytes@.subrange(from as int, to as int));
    }
    n
}

// ---------------------------------------------------------------------------
// Addresses
// ---------------------------------------------------------------------------

impl IpAddr {
    pub open spec fn octets(self) -> Seq<u8> {
        match self {
            IpAddr::V4(n) => be_bytes(n as nat, 4),
            IpAddr::V6(n) => be_bytes(n as nat, 16),
        }
    }

    /// An IPv4-mapped IPv6 address (`::ffff:a.b.c.d`) as the IPv4 address it
    /// stands for; every other address as it is.
    pub open spec fn canonical(self) -> IpAddr {
        match self {
            IpAddr::V4(n) => self,
            IpAddr::V6(n) => if n / 0x1_0000_0000 == 0xffff {
                IpAddr::V4((n % 0x1_0000_0000) as u32)
            } else {
                self
            },
        }
    }

    /// Loopback, as `127.0.0.0/8` and `::1`.
    pub open spec fn loopback(self) -> bool {
        match self {
            IpAddr::V4(n) => n / 0x100_0000 == 127,
            IpAddr::V6(n) => n == 1,
        }
    }

    pub fn to_octets(&self) -> (r: Vec<u8>)
        ensures
            r@ == self.octets(),
    {
        let mut out: Vec<u8> = Vec::new();
        match *self {
            IpAddr::V4(n) => push_be(&mut out, n as u128, 4),
            IpAddr::V6(n) => push_be(&mut out, n, 16),
        }
        assert(out@ =~= self.octets());
        out
    }

    pub fn to_canonical(&self) -> (r: IpAddr)
        ensures
            r == self.canonical(),
    {
        match *self {
            IpAddr::V4(n) => IpAddr::V4(n),
            IpAddr::V6(n) => {
                if n / 0x1_0000_0000 == 0xffff {
                    IpAddr::V4((n % 0x1_0000_0000) as u32)
                } else {
                    IpAddr::V6(n)
                }
            },
        }
    }

    pub fn is_loopback(&self) -> (r: bool)
        ensures
            r == self.loopback(),
    {
        match *self {
            IpAddr::V4(n) => n / 0x100_0000 == 127,
            IpAddr::V6(n) => n == 1,
        }
    }

    /// The address that a text writes; its own text writes it too.
    pub fn parse(text: &str) -> (r: Option<IpAddr>)
        ensures
            r == ip_from_text(text@),
            r matches Some(address) ==> ip_from_text(ip_text(address)) == Some(address),
    {
        read_ip(text)
    }

    pub fn text(&self) -> (r: String)
        ensures
            r@ == ip_text(*self),
    {
        write_ip(*self)
    }
}

/// Canonicalizing twice is canonicalizing once.
pub proof fn lemma_canonical_idempotent(address: IpAddr)
    ensures
        address.canonical().canonical() == address.canonical(),
{
}

// ---------------------------------------------------------------------------
// Networks
// ---------------------------------------------------------------------------

/// The number without its `host` lowest bits.
pub open spec fn network_part(n: nat, host: nat) -> nat {
    (n / pow2(host)) * pow2(host)
}

impl IpNet {
    pub open spec fn bits(self) -> nat {
        match self.address {
            IpAddr::V4(_) => 32,
            IpAddr::V6(_) => 128,
        }
    }

    pub open spec fn well_formed(self) -> bool {
        self.prefix <= self.bits()
    }

    /// How many bits number the hosts of the network: none where the prefix
    /// covers the whole address.
    pub open spec fn host_bits(self) -> nat {
        if self.prefix <= self.bits() {
            (self.bits() - self.prefix) as nat
        } else {
            0
        }
    }

    /// The network itself: the same prefix with every host bit zero.
    pub open spec fn truncated(self) -> IpNet {
        IpNet {
            address: match self.address {
                IpAddr::V4(n) => IpAddr::V4(network_part(n as nat, self.host_bits()) as u32),
                IpAddr::V6(n) => IpAddr::V6(network_part(n as nat, self.host_bits()) as u128),
            },
            prefix: self.prefix,
        }
    }

    /// Whether an address of the same family has the network's leading bits.
    pub open spec fn holds(self, address: IpAddr) -> bool {
        match (self.address, address) {
            (IpAddr::V4(n), IpAddr::V4(a)) => n as nat / pow2(self.host_bits()) == a as nat / pow2(
                self.host_bits(),
            ),
            (IpAddr::V6(n), IpAddr::V6(a)) => n as nat / pow2(self.host_bits()) == a as nat / pow2(
                self.host_bits(),
            ),
            _ => false,
        }
    }

    pub open spec fn spec_text(self) -> Seq<char> {
        ip_text(self.address) + "/"@ + decimal(self.prefix as nat)
    }

    fn host_len(&self) -> (r: u8)
        ensures
            r == self.host_bits(),
            r <= self.bits(),
    {
        let bits: u8 = match self.address {
            IpAddr::V4(_) => 32,
            IpAddr::V6(_) => 128,
        };
        if self.prefix <= bits {
            bits - self.prefix
        } else {
            0
        }
    }

    pub fn trunc(&self) -> (r: IpNet)
        ensures
            r == self.truncated(),
    {
        let host: u8 = self.host_len();
        match self.address {
            IpAddr::V4(n) => {
                let part: u128 = clear_low(n as u128, host);
                IpNet { address: IpAddr::V4(part as u32), prefix: self.prefix }
            },
            IpAddr::V6(n) => {
                let part: u128 = clear_low(n, host);
                IpNet { address: IpAddr::V6(part), prefix: self.prefix }
            },
        }
    }

    pub fn contains(&self, address: IpAddr) -> (r: bool)
        ensures
            r == self.holds(address),
    {
        let host: u8 = self.host_len();
        match (self.address, address) {
            (IpAddr::V4(n), IpAddr::V4(a)) => high_part(n as u128, host) == high_part(
                a as u128,
                host,
            ),
            (IpAddr::V6(n), IpAddr::V6(a)) => high_part(n, host) == high_part(
                a,
                host,
            ),
            _ => false,
        }
    }

    pub fn text(&self) -> (r: String)
        ensures
            r@ == self.spec_text(),
    {
        let mut r = write_ip(self.address);
        r.push_str("/");
        push_decimal(&mut r, self.prefix as u64);
        r
    }
}

proof fn lemma_pow2_128()
    ensures
        pow2(128) == 0x1_0000_0000_0000_0000_0000_0000_0000_0000,
{
    vstd::arithmetic::power2::lemma2_to64();
    vstd::arithmetic::power2::lemma_pow2_adds(64, 64);
    assert(pow2(64) * pow2(64) == 0x1_0000_0000_0000_0000 * 0x1_0000_0000_0000_0000) by {
        vstd::arithmetic::power2::lemma2_to64_rest();
        assert(pow2(64) == 0x1_0000_0000_0000_0000);
    }
}

/// `n` without its `host` lowest bits, shifted down.
fn high_part(n: u128, host: u8) -> (r: u128)
    requires
        host <= 128,
    ensures
        r == n as nat / pow2(host as nat),
{
    if host == 128 {
        proof {
            lemma_pow2_128();
            vstd::arithmetic::div_mod::lemma_basic_div(n as int, pow2(128) as int);
        }
        0
    } else {
        proof {
            vstd::bits::lemma_u128_shr_is_div(n, host as u128);
        }
        n >> (host as u128)
    }
}

fn clear_low(n: u128, host: u8) -> (r: u128)
    requires
        host <= 128,
    ensures
        r == network_part(n as nat, host as nat),
        r <= n,
{
    proof {
        vstd::arithmetic::power2::lemma_pow2_pos(host as nat);
        vstd::arithmetic::div_mod::lemma_fundamental_div_mod(n as int, pow2(host as nat) as int);
        vstd::arithmetic::div_mod::lemma_mod_bound(n as int, pow2(host as nat) as int);
        vstd::arithmetic::mul::lemma_mul_is_commutative(
            pow2(host as nat) as int,
            n as nat as int / pow2(host as nat) as int,
        );
    }
    if host == 128 {
        proof {
            lemma_pow2_128();
            vstd::arithmetic::div_mod::lemma_basic_div(n as int, pow2(128) as int);
        }
        return 0;
    }
    let mut size: u128 = 1;
    let mut i: u8 = 0;
    proof {
        vstd::arithmetic::power2::lemma2_to64();
    }
    while i < host
        invariant
            i <= host < 128,
            size == pow2(i as nat),
        decreases host - i,
    {
        proof {
            lemma_pow2_128();
            vstd::arithmetic::power2::lemma_pow2_unfold((i + 1) as nat);
            vstd::arithmetic::power2::lemma_pow2_strictly_increases((i + 1) as nat, 128);
        }
        size = size * 2;
        i += 1;
    }
    n - n % size
}

/// An address is in a network exactly where truncating it to the network's
/// prefix gives the truncated network.
pub proof fn law_networks_hold_what_truncates_alike(net: IpNet, address: IpAddr)
    requires
        net.address is V4 <==> address is V4,
    ensures
        net.holds(address) <==> (IpNet { address, prefix: net.prefix }).truncated()
            == net.truncated(),
{
    let h = net.host_bits();
    let other = IpNet { address, prefix: net.prefix };
    vstd::arithmetic::power2::lemma_pow2_pos(h);
    let p = pow2(h) as int;
    let (n, a): (nat, nat) = match (net.address, address) {
        (IpAddr::V4(n), IpAddr::V4(a)) => (n as nat, a as nat),
        (IpAddr::V6(n), IpAddr::V6(a)) => (n as nat, a as nat),
        _ => (0, 0),
    };
    assert(other.host_bits() == h);
    vstd::arithmetic::div_mod::lemma_fundamental_div_mod(n as int, p);
    vstd::arithmetic::div_mod::lemma_fundamental_div_mod(a as int, p);
    vstd::arithmetic::div_mod::lemma_mod_bound(n as int, p);
    vstd::arithmetic::div_mod::lemma_mod_bound(a as int, p);
    vstd::arithmetic::mul::lemma_mul_is_commutative(p, n as int / p);
    vstd::arithmetic::mul::lemma_mul_is_commutative(p, a as int / p);
    vstd::arithmetic::mul::lemma_mul_nonnegative(p, n as int / p);
    vstd::arithmetic::mul::lemma_mul_nonnegative(p, a as int / p);
    assert(network_part(n, h) <= n);
    assert(network_part(a, h) <= a);
    if network_part(n, h) == network_part(a, h) {
        assert(n as int / p == a as int / p) by (nonlinear_arith)
            requires
                (n as int / p) * p == (a as int / p) * p,
                p > 0,
        ;
    }
}

/// A mapped address stands for the address that it maps, and every other address for
/// itself.
pub proof fn law_mapped_addresses_are_the_same(address: IpAddr, n: u32)
    ensures
        IpAddr::V6((0xffff_0000_0000 + n) as u128).canonical() == IpAddr::V4(n),
        address is V4 ==> address.canonical() == address,
        address matches IpAddr::V6(m) && !(0xffff_0000_0000 <= m <= 0xffff_ffff_ffff)
            ==> address.canonical() == address,
{
    let m = (0xffff_0000_0000 + n) as u128;
    assert(m == 0xffff_0000_0000 + n);
    assert(m / 0x1_0000_0000 == 0xffff && m % 0x1_0000_0000 == n);
}

/// The loopback addresses are `127.0.0.0` to `127.255.255.255` and `::1`.
pub proof fn law_loopback_addresses(address: IpAddr)
    ensures
        address.loopback() <==> match address {
            IpAddr::V4(n) => 2130706432 <= n < 2147483648,
            IpAddr::V6(n) => n == 1,
        },
{
}

/// The octets of an address are its number in base 256, the highest first.
pub proof fn law_octets_give_the_number(address: IpAddr)
    ensures
        match address {
            IpAddr::V4(n) => address.octets().len() == 4 && n == 0x100_0000 * address.octets()[0]
                + 0x1_0000 * address.octets()[1] + 0x100 * address.octets()[2]
                + address.octets()[3],
            IpAddr::V6(n) => address.octets().len() == 16 && be_value(address.octets()) == n,
        },
{
    match address {
        IpAddr::V4(n) => {
            reveal_with_fuel(be_bytes, 5);
            let o = address.octets();
            let m = n as nat;
            assert(o.len() == 4);
            assert(o[3] == m % 256 && o[2] == m / 256 % 256 && o[1] == m / 256 / 256 % 256 && o[0]
                == m / 256 / 256 / 256 % 256);
        },
        IpAddr::V6(n) => {
            assert(pow256(16) == 0x1_0000_0000_0000_0000_0000_0000_0000_0000) by {
                reveal_with_fuel(pow256, 17);
            }
            lemma_be_bytes(n as nat, 16);
        },
    }
}

/// A network's own address has no host bits, and lies at most that far below the
/// address that it was made of.
pub proof fn law_networks_start_at_their_address(n: nat, host: nat)
    ensures
        network_part(n, host) <= n < network_part(n, host) + pow2(host),
        network_part(n, host) % pow2(host) == 0,
{
    vstd::arithmetic::power2::lemma_pow2_pos(host);
    let p = pow2(host) as int;
    vstd::arithmetic::div_mod::lemma_fundamental_div_mod(n as int, p);
    vstd::arithmetic::div_mod::lemma_mod_multiples_basic(n as int / p, p);
    assert(n as int / p * p == p * (n as int / p)) by (nonlinear_arith);
    assert(0 <= n as int % p < p) by {
        vstd::arithmetic::div_mod::lemma_mod_bound(n as int, p);
    }
}

} // verus!
