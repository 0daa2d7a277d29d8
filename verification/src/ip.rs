//! CIDR network arithmetic for the template filter library.
//!
//! A network is modelled as plain address bits with a prefix length; parsing
//! the CIDR text and printing IPv6 addresses are the only steps left to the
//! `ipnet` crate, behind trusted wrappers. All address arithmetic — network
//! address, n-th host, n-th subnet — is verified here.

use vstd::prelude::*;
use vstd::arithmetic::power2::{
    pow2, lemma_pow2_adds, lemma_pow2_pos, lemma_pow2_strictly_increases, lemma_pow2_unfold,
    lemma2_to64,
};
use vstd::arithmetic::div_mod::{lemma_small_mod, lemma_fundamental_div_mod};
use crate::text::{dec_digits, dec_string};

verus! {

/// A parsed CIDR network: address bits, prefix length, and family.
#[derive(Debug, Clone, Copy, PartialEq, Eq, Structural)]
pub struct IpNetwork {
    pub addr: u128,
    pub prefix: u8,
    pub v6: bool,
}

/// What `ipnet::IpNet::from_str` yields for a given string: `None` on parse
/// failure, else the address bits, prefix length and family.
pub uninterp spec fn net_of(s: Seq<char>) -> Option<IpNetwork>;

/// The text form of an IPv6 address for given address bits.
pub uninterp spec fn ipv6_text(addr: u128) -> Seq<char>;

/// Relies on `ipnet::IpNet::from_str`, which parses `address/prefix` CIDR
/// text (and nothing else), and on the `addr` and `prefix_len` accessors.
/// A parsed network's prefix never exceeds the family's maximum, and v4
/// address bits fit 32 bits.
#[verifier::external_body]
pub(crate) fn parse_net(s: &str) -> (r: Option<IpNetwork>)
    ensures
        r == net_of(s@),
        r matches Some(net) ==> net.wf(),
{
    match s.parse::<ipnet::IpNet>() {
        Ok(ipnet::IpNet::V4(n)) => Some(
            IpNetwork { addr: u32::from(n.addr()) as u128, prefix: n.prefix_len(), v6: false },
        ),
        Ok(ipnet::IpNet::V6(n)) => Some(
            IpNetwork { addr: u128::from(n.addr()), prefix: n.prefix_len(), v6: true },
        ),
        Err(_) => None,
    }
}

/// Relies on the display form of IPv6 addresses, reached through
/// `ipnet::Ipv6Net`'s address accessor; the text depends on the address bits
/// alone.
#[verifier::external_body]
pub(crate) fn ipv6_string(addr: u128) -> (r: String)
    ensures
        r@ == ipv6_text(addr),
{
    match ipnet::Ipv6Net::new(addr.into(), 128) {
        Ok(n) => format!("{}", n.addr()),
        Err(_) => String::new(),
    }
}

impl IpNetwork {
    /// The maximum prefix length of this network's family.
    pub open spec fn max_prefix(self) -> int {
        if self.v6 {
            128
        } else {
            32
        }
    }

    /// A well-formed network: the prefix fits the family, and v4 address
    /// bits fit 32 bits.
    pub open spec fn wf(self) -> bool {
        self.prefix <= self.max_prefix() && (self.v6 || self.addr < 0x1_0000_0000)
    }

    /// The number of host bits.
    pub open spec fn host_bits(self) -> nat {
        (self.max_prefix() - self.prefix) as nat
    }

    /// The number of addresses in the network.
    pub open spec fn block(self) -> int {
        pow2(self.host_bits()) as int
    }

    /// The network address: the address bits with the host bits cleared.
    pub open spec fn network(self) -> int {
        self.addr - (self.addr as int) % self.block()
    }

    /// The highest address of the network.
    pub open spec fn broadcast(self) -> int {
        self.network() + self.block() - 1
    }

    /// The first host address, as the `ipnet` crate enumerates hosts: the
    /// network address is skipped for v4 prefixes below 31.
    pub open spec fn first_host(self) -> int {
        if !self.v6 && self.prefix < 31 {
            self.network() + 1
        } else {
            self.network()
        }
    }

    /// How many host addresses the network has: for v4 prefixes below 31
    /// the network and broadcast addresses are excluded.
    pub open spec fn host_count(self) -> int {
        if !self.v6 && self.prefix < 31 {
            self.block() - 2
        } else {
            self.block()
        }
    }

    /// The maximum prefix length, computed.
    pub fn max_prefix_len(&self) -> (r: u8)
        ensures
            r == self.max_prefix(),
    {
        if self.v6 {
            128
        } else {
            32
        }
    }

    /// Clears the host bits of the address.
    pub fn network_addr(&self) -> (r: u128)
        requires
            self.wf(),
        ensures
            r == self.network(),
    {
        proof {
            lemma_pow2_128();
        }
        if self.prefix == 0 {
            proof {
                if self.v6 {
                    lemma_small_mod(self.addr as nat, pow2(128));
                } else {
                    lemma_small_mod(self.addr as nat, pow2(32));
                    lemma2_to64();
                }
            }
            0
        } else {
            let maxp = self.max_prefix_len();
            let hb: u8 = maxp - self.prefix;
            let block = pow2_u128(hb);
            proof {
                lemma_pow2_pos(hb as nat);
            }
            let rem = self.addr % block;
            proof {
                assert(rem <= self.addr) by {
                    assert(self.addr % block <= self.addr) by (nonlinear_arith)
                        requires
                            block > 0,
                    ;
                }
            }
            self.addr - rem
        }
    }
}

/// `pow2(32)` and `pow2(128)` as numerals.
pub proof fn lemma_pow2_128()
    ensures
        pow2(32) == 0x1_0000_0000,
        pow2(64) == 0x1_0000_0000_0000_0000,
        pow2(128) == 0x1_0000_0000_0000_0000_0000_0000_0000_0000,
{
    lemma2_to64();
    lemma_pow2_adds(64, 64);
}

/// Computes a power of two.
pub fn pow2_u128(k: u8) -> (r: u128)
    requires
        k < 128,
    ensures
        r == pow2(k as nat),
{
    let mut i: u8 = 0;
    let mut r: u128 = 1;
    proof {
        assert(pow2(0) == 1) by {
            lemma2_to64();
        }
    }
    while i < k
        invariant
            i <= k < 128,
            r == pow2(i as nat),
        decreases k - i,
    {
        proof {
            lemma_pow2_unfold((i + 1) as nat);
            assert(pow2((i + 1) as nat) < pow2(128)) by {
                lemma_pow2_strictly_increases((i + 1) as nat, 128);
            }
            lemma_pow2_128();
        }
        r = r * 2;
        i = i + 1;
    }
    r
}

/// The dotted-decimal text of an IPv4 address.
pub open spec fn ipv4_text(a: int) -> Seq<char> {
    dec_digits(((a / 0x100_0000) % 256) as nat) + seq!['.'] + dec_digits(
        ((a / 0x1_0000) % 256) as nat,
    ) + seq!['.'] + dec_digits(((a / 0x100) % 256) as nat) + seq!['.'] + dec_digits((a % 256) as nat)
}

/// The text of an address of either family.
pub open spec fn addr_text(a: u128, v6: bool) -> Seq<char> {
    if v6 {
        ipv6_text(a)
    } else {
        ipv4_text(a as int)
    }
}

/// The text of a network: the address, a slash, and the prefix length.
pub open spec fn net_text(a: u128, p: u8, v6: bool) -> Seq<char> {
    addr_text(a, v6) + seq!['/'] + dec_digits(p as nat)
}

/// Writes an address as text.
pub fn addr_string(a: u128, v6: bool) -> (r: String)
    requires
        !v6 ==> a < 0x1_0000_0000,
    ensures
        r@ == addr_text(a, v6),
{
    if v6 {
        ipv6_string(a)
    } else {
        let mut s = dec_string((a / 0x100_0000) % 256);
        let dot = ".";
        proof {
            reveal_strlit(".");
            assert(dot@ =~= seq!['.']);
        }
        s.append(dot);
        let s1 = dec_string((a / 0x1_0000) % 256);
        s.append(s1.as_str());
        s.append(dot);
        let s2 = dec_string((a / 0x100) % 256);
        s.append(s2.as_str());
        s.append(dot);
        let s3 = dec_string(a % 256);
        s.append(s3.as_str());
        s
    }
}

/// Writes a network as text.
pub fn net_string(a: u128, p: u8, v6: bool) -> (r: String)
    requires
        !v6 ==> a < 0x1_0000_0000,
    ensures
        r@ == net_text(a, p, v6),
{
    let mut s = addr_string(a, v6);
    let slash = "/";
    proof {
        reveal_strlit("/");
        assert(slash@ =~= seq!['/']);
    }
    s.append(slash);
    let sp = dec_string(p as u128);
    s.append(sp.as_str());
    s
}

/// A well-formed network's address range: the network address is a multiple
/// of the block size and the whole block stays within the address family.
pub proof fn lemma_network_bounds(net: IpNetwork)
    requires
        net.wf(),
    ensures
        0 <= net.network() <= net.addr,
        net.network() % net.block() == 0,
        net.network() + net.block() <= pow2(net.max_prefix() as nat),
{
    let b = net.block();
    let a = net.addr as int;
    lemma_pow2_pos(net.host_bits());
    lemma_fundamental_div_mod(a, b);
    assert(a % b >= 0 && a % b < b) by (nonlinear_arith)
        requires
            b > 0,
    ;
    let q = a / b;
    assert(net.network() == b * q);
    assert(b * q % b == 0) by (nonlinear_arith)
        requires
            b > 0,
    ;
    // the whole address space is pow2(prefix) blocks
    lemma_pow2_adds(net.host_bits(), net.prefix as nat);
    lemma_pow2_128();
    assert(a < pow2((net.max_prefix()) as nat)) by {
        if net.v6 {
        } else {
        }
    }
    let p = pow2(net.prefix as nat) as int;
    assert(b * q < b * p) by (nonlinear_arith)
        requires
            b > 0,
            b * q <= a,
            a < b * p,
    ;
    assert(q < p) by (nonlinear_arith)
        requires
            b > 0,
            b * q < b * p,
    ;
    assert(b * q + b <= b * p) by (nonlinear_arith)
        requires
            b > 0,
            q < p,
    ;
}

/// A filter rejected its input: bad network syntax, an out-of-range index,
/// or non-numeric text.
#[derive(Debug)]
pub struct FilterError {
    msg: String,
}

impl View for FilterError {
    type V = Seq<char>;

    closed spec fn view(&self) -> Seq<char> {
        self.msg@
    }
}

impl FilterError {
    /// An error with the given text.
    pub fn new(m: &str) -> (r: FilterError)
        ensures
            r@ == m@,
    {
        FilterError { msg: m.to_owned() }
    }

    /// The error text.
    pub fn message(&self) -> (r: &String)
        ensures
            r@ == self@,
    {
        &self.msg
    }
}

/// What `nthhost` returns: `None` where it fails. For `n == 0` the network
/// address; otherwise the `n`-th host address, 1-indexed, where the hosts of
/// a v4 network with prefix below 31 exclude the network and broadcast
/// addresses.
pub open spec fn nthhost_res(s: Seq<char>, n: int) -> Option<Seq<char>> {
    match net_of(s) {
        None => None,
        Some(net) => if n == 0 {
            Some(addr_text(net.network() as u128, net.v6))
        } else if n <= net.host_count() {
            Some(addr_text((net.first_host() + n - 1) as u128, net.v6))
        } else {
            None
        },
    }
}

/// The n-th address of a network: its base address for `n == 0`, else the
/// n-th usable host address, 1-indexed.
pub fn nthhost(network: String, n: usize) -> (r: Result<String, FilterError>)
    ensures
        r is Ok <==> nthhost_res(network@, n as int) is Some,
        r matches Ok(s) ==> Some(s@) == nthhost_res(network@, n as int),
{
    let net = match parse_net(network.as_str()) {
        None => {
            return Err(FilterError::new("cannot get nthhost"));
        },
        Some(net) => net,
    };
    let netaddr = net.network_addr();
    proof {
        lemma_network_bounds(net);
        lemma_pow2_128();
    }
    if n == 0 {
        return Ok(addr_string(netaddr, net.v6));
    }
    let maxp = net.max_prefix_len();
    let hb: u8 = maxp - net.prefix;
    if hb >= 65 {
        // a v6 network with at least 2^65 hosts: any index fits
        proof {
            lemma2_to64();
            lemma_pow2_adds(1, 64);
            if hb > 65 {
                lemma_pow2_strictly_increases(65, hb as nat);
            }
            assert(n < pow2(hb as nat));
        }
        let ip = netaddr + ((n - 1) as u128);
        return Ok(addr_string(ip, net.v6));
    }
    let block = pow2_u128(hb);
    let first: u128;
    let count: u128;
    if !net.v6 && net.prefix < 31 {
        proof {
            lemma_pow2_strictly_increases(1, hb as nat);
            lemma2_to64();
        }
        first = netaddr + 1;
        count = block - 2;
    } else {
        first = netaddr;
        count = block;
    }
    if (n as u128) <= count {
        let ip = first + ((n - 1) as u128);
        Ok(addr_string(ip, net.v6))
    } else {
        Err(FilterError::new("cannot get nthhost"))
    }
}

/// What `ipaddr` returns. A numeric action behaves as `nthhost`; the action
/// `address` yields the network's base address, falling back to the input
/// where it does not parse; any other action returns the input unchanged.
pub open spec fn ipaddr_res(s: Seq<char>, action: Option<Seq<char>>) -> Option<Seq<char>> {
    match action {
        Some(a) => if crate::text::usize_dec_spec(a) is Some {
            nthhost_res(s, crate::text::usize_dec_spec(a).unwrap() as int)
        } else if a == "address"@ {
            match net_of(s) {
                Some(net) => Some(addr_text(net.network() as u128, net.v6)),
                None => Some(s),
            }
        } else {
            Some(s)
        },
        None => Some(s),
    }
}

/// Dispatches on an action text: a number selects the n-th host, `address`
/// the base address, and anything else (or an unparseable network) is a
/// lenient fallback returning the network text unchanged.
pub fn ipaddr(network: String, action: Option<&str>) -> (r: Result<String, FilterError>)
    ensures
        r is Ok <==> ipaddr_res(network@, spec_action(action)) is Some,
        r matches Ok(s) ==> Some(s@) == ipaddr_res(network@, spec_action(action)),
{
    let a = match action {
        None => {
            return Ok(network);
        },
        Some(a) => a,
    };
    match crate::text::parse_usize(a) {
        Some(n) => nthhost(network, n),
        None => {
            if crate::text::str_eq(a, "address") {
                match parse_net(network.as_str()) {
                    Some(net) => {
                        let netaddr = net.network_addr();
                        proof {
                            lemma_network_bounds(net);
                        }
                        Ok(addr_string(netaddr, net.v6))
                    },
                    None => Ok(network),
                }
            } else {
                Ok(network)
            }
        },
    }
}

/// The view of an optional action text.
pub open spec fn spec_action(action: Option<&str>) -> Option<Seq<char>> {
    match action {
        Some(a) => Some(a@),
        None => None,
    }
}

/// The network that `ipsubnet` carves from: the parsed CIDR text, or a bare
/// address promoted to a network at the requested prefix length.
pub open spec fn promoted(s: Seq<char>, p: u8) -> Option<IpNetwork> {
    if net_of(s) is Some {
        net_of(s)
    } else {
        net_of(s + seq!['/'] + dec_digits(p as nat))
    }
}

/// What `ipsubnet` returns: the `incr`-th (0-indexed) subnet of length `p`,
/// or `None` where the base does not parse, `p` is no valid subdivision, or
/// `incr` is out of range.
pub open spec fn ipsubnet_res(s: Seq<char>, p: u8, incr: int) -> Option<Seq<char>> {
    match promoted(s, p) {
        None => None,
        Some(net) => if net.prefix <= p <= net.max_prefix() {
            if incr < pow2((p - net.prefix) as nat) {
                Some(
                    net_text(
                        (net.network() + incr * pow2((net.max_prefix() - p) as nat)) as u128,
                        p,
                        net.v6,
                    ),
                )
            } else {
                None
            }
        } else {
            None
        },
    }
}

/// The `incr`-th subnet of length `prefix_len` carved from a network, or
/// from a bare address promoted to a network at that length.
pub fn ipsubnet(ip_network: String, prefix_len: u8, incr: usize) -> (r: Result<String, FilterError>)
    ensures
        r is Ok <==> ipsubnet_res(ip_network@, prefix_len, incr as int) is Some,
        r matches Ok(s) ==> Some(s@) == ipsubnet_res(ip_network@, prefix_len, incr as int),
{
    let net = match parse_net(ip_network.as_str()) {
        Some(n) => n,
        None => {
            let mut t = ip_network.clone();
            let slash = "/";
            proof {
                reveal_strlit("/");
                assert(slash@ =~= seq!['/']);
            }
            t.append(slash);
            let ds = dec_string(prefix_len as u128);
            t.append(ds.as_str());
            proof {
                assert(t@ =~= ip_network@ + seq!['/'] + dec_digits(prefix_len as nat));
            }
            match parse_net(t.as_str()) {
                Some(n) => n,
                None => {
                    return Err(FilterError::new("invalid IP network"));
                },
            }
        },
    };
    let maxp = net.max_prefix_len();
    if prefix_len < net.prefix || prefix_len > maxp {
        return Err(FilterError::new("cannot get subnets"));
    }
    let d: u8 = prefix_len - net.prefix;
    let ok = if d >= 65 {
        proof {
            lemma2_to64();
            lemma_pow2_adds(1, 64);
            if d > 65 {
                lemma_pow2_strictly_increases(65, d as nat);
            }
        }
        true
    } else {
        (incr as u128) < pow2_u128(d)
    };
    if !ok {
        return Err(FilterError::new("cannot get subnet"));
    }
    let netaddr = net.network_addr();
    proof {
        lemma_network_bounds(net);
        lemma_pow2_128();
    }
    let sub: u128 = if incr == 0 {
        netaddr
    } else {
        let sb: u8 = maxp - prefix_len;
        proof {
            // an index of at least 1 forces at least one subdivision bit
            lemma2_to64();
            assert(d >= 1) by {
                if d == 0 {
                    assert((incr as u128) < 1);
                }
            }
        }
        let step = pow2_u128(sb);
        proof {
            lemma_pow2_pos(sb as nat);
            lemma_pow2_adds(sb as nat, d as nat);
            assert((incr as int) * (step as int) + (step as int) <= net.block()) by (nonlinear_arith)
                requires
                    (incr as int) < pow2(d as nat),
                    step == pow2(sb as nat),
                    step > 0,
                    net.block() == pow2(sb as nat) * pow2(d as nat),
            ;
        }
        netaddr + (incr as u128) * step
    };
    Ok(net_string(sub, prefix_len, net.v6))
}

} // verus!
