//! Which client addresses are let in.
//!
//! Loopback always is. Everything else has to be configured, and configuration
//! that does not parse adds nothing.
use crate::api::auth::{filled, opt_view};
use crate::api::env_file;
use crate::text;
use vstd::prelude::*;

verus! {

/// An IP address by its bits.
#[derive(Debug, Clone, Copy, PartialEq, Eq, Structural)]
pub enum IpAddress {
    V4(u32),
    V6(u128),
}

/// A subnet: the addresses that agree with `addr` in the first `prefix` bits.
#[derive(Debug, Clone, Copy, PartialEq, Eq, Structural)]
pub struct IpNetwork {
    pub addr: IpAddress,
    pub prefix: u8,
}

impl IpAddress {
    /// The address as plain values: whether it is version 6, and its bits.
    pub open spec fn plain(self) -> (bool, u128) {
        match self {
            IpAddress::V4(a) => (false, a as u128),
            IpAddress::V6(a) => (true, a),
        }
    }
}

impl IpNetwork {
    /// The prefix is no longer than the address.
    pub open spec fn wf(self) -> bool {
        match self.addr {
            IpAddress::V4(_) => self.prefix <= 32,
            IpAddress::V6(_) => self.prefix <= 128,
        }
    }

    /// The subnet as plain values.
    pub open spec fn plain(self) -> (bool, u128, u8) {
        (self.addr.plain().0, self.addr.plain().1, self.prefix)
    }

    /// The address lies in the subnet.
    pub open spec fn covers(self, ip: IpAddress) -> bool {
        match (self.addr, ip) {
            (IpAddress::V4(a), IpAddress::V4(b)) => (a as u64) >> ((32 - self.prefix) as u64) == (
            b as u64) >> ((32 - self.prefix) as u64),
            (IpAddress::V6(a), IpAddress::V6(b)) => self.prefix == 0 || a >> ((128
                - self.prefix) as u128) == b >> ((128 - self.prefix) as u128),
            _ => false,
        }
    }

    /// Whether the address lies in the subnet.
    pub fn contains(&self, ip: IpAddress) -> (r: bool)
        requires
            self.wf(),
        ensures
            r == self.covers(ip),
    {
        match self.addr {
            IpAddress::V4(a) => match ip {
                IpAddress::V4(b) => {
                    let n: u64 = 32 - self.prefix as u64;
                    (a as u64) >> n == (b as u64) >> n
                },
                IpAddress::V6(_) => false,
            },
            IpAddress::V6(a) => match ip {
                IpAddress::V4(_) => false,
                IpAddress::V6(b) => {
                    if self.prefix == 0 {
                        true
                    } else {
                        let n: u128 = 128 - self.prefix as u128;
                        a >> n == b >> n
                    }
                },
            },
        }
    }
}

/// The subnet that a text in CIDR notation spells, as plain values.
pub uninterp spec fn cidr(s: Seq<char>) -> Option<(bool, u128, u8)>;

/// The address that a text spells, as plain values.
pub uninterp spec fn address(s: Seq<char>) -> Option<(bool, u128)>;

/// How a version 6 subnet, by its bits and prefix length, is written.
pub uninterp spec fn v6_text(bits: u128, prefix: u8) -> Seq<char>;

/// `IpNet::from_str` of the crate ipnet: the subnet that a text in CIDR notation
/// spells, host bits kept. Its prefix is never longer than the address.
#[verifier::external_body]
fn parse_cidr(s: &str) -> (r: Option<IpNetwork>)
    ensures
        match r {
            Some(n) => cidr(s@) == Some(n.plain()) && n.wf(),
            None => cidr(s@) is None,
        },
{
    match s.parse::<ipnet::IpNet>() {
        Ok(ipnet::IpNet::V4(n)) => Some(
            IpNetwork { addr: IpAddress::V4(n.addr().into()), prefix: n.prefix_len() },
        ),
        Ok(ipnet::IpNet::V6(n)) => Some(
            IpNetwork { addr: IpAddress::V6(n.addr().into()), prefix: n.prefix_len() },
        ),
        Err(_) => None,
    }
}

/// The standard library's parser of IP addresses, reached through `IpNet::new` of
/// the crate ipnet, which takes such an address: the address that a text spells.
#[verifier::external_body]
fn parse_address(s: &str) -> (r: Option<IpAddress>)
    ensures
        match r {
            Some(a) => address(s@) == Some(a.plain()),
            None => address(s@) is None,
        },
{
    match ipnet::IpNet::new(s.parse().ok()?, 0).ok()? {
        ipnet::IpNet::V4(n) => Some(IpAddress::V4(n.addr().into())),
        ipnet::IpNet::V6(n) => Some(IpAddress::V6(n.addr().into())),
    }
}

/// A version 4 subnet in CIDR notation.
pub open spec fn v4_text(bits: u32, prefix: u8) -> Seq<char> {
    text::decimal((bits / 0x100_0000) as nat) + "."@ + text::decimal(
        (bits / 0x1_0000 % 256) as nat,
    ) + "."@ + text::decimal((bits / 0x100 % 256) as nat) + "."@ + text::decimal(
        (bits % 256) as nat,
    ) + "/"@ + text::decimal(prefix as nat)
}

/// A subnet in CIDR notation.
pub open spec fn net_text(n: IpNetwork) -> Seq<char> {
    match n.addr {
        IpAddress::V4(a) => v4_text(a, n.prefix),
        IpAddress::V6(a) => v6_text(a, n.prefix),
    }
}

/// `Ipv6Net::new` and its `Display` of the crate ipnet: a version 6 subnet in CIDR
/// notation, host bits kept.
#[verifier::external_body]
fn format_v6(bits: u128, prefix: u8) -> (r: String)
    requires
        prefix <= 128,
    ensures
        r@ == v6_text(bits, prefix),
{
    ipnet::Ipv6Net::new(bits.into(), prefix).unwrap().to_string()
}

/// The text of a subnet.
pub fn format_net(n: IpNetwork) -> (r: String)
    requires
        n.wf(),
    ensures
        r@ == net_text(n),
{
    match n.addr {
        IpAddress::V4(a) => {
            let mut r: String = text::decimal_text((a / 0x100_0000) as u64);
            r.append(".");
            r.append(text::decimal_text((a / 0x1_0000 % 256) as u64).as_str());
            r.append(".");
            r.append(text::decimal_text((a / 0x100 % 256) as u64).as_str());
            r.append(".");
            r.append(text::decimal_text((a % 256) as u64).as_str());
            r.append("/");
            r.append(text::decimal_text(n.prefix as u64).as_str());
            r
        },
        IpAddress::V6(a) => format_v6(a, n.prefix),
    }
}

/// The subnet that an entry stands for: what it spells in CIDR notation, or else
/// the one address that it spells.
pub open spec fn entry_net(
    net: Option<(bool, u128, u8)>,
    addr: Option<(bool, u128)>,
) -> Option<(bool, u128, u8)> {
    match (net, addr) {
        (Some(n), _) => Some(n),
        (None, Some((v6, bits))) => Some(
            (
                v6,
                bits,
                if v6 {
                    128u8
                } else {
                    32u8
                },
            ),
        ),
        (None, None) => None,
    }
}

/// The subnet of a bare address: only itself.
pub open spec fn host_net(a: IpAddress) -> IpNetwork {
    match a {
        IpAddress::V4(_) => IpNetwork { addr: a, prefix: 32 },
        IpAddress::V6(_) => IpNetwork { addr: a, prefix: 128 },
    }
}

/// The subnet for what was parsed of an entry.
pub fn choose_net(net: Option<IpNetwork>, addr: Option<IpAddress>) -> (r: Option<IpNetwork>)
    requires
        net matches Some(n) ==> n.wf(),
    ensures
        match (net, addr) {
            (Some(n), _) => r == Some(n),
            (None, Some(a)) => r == Some(host_net(a)),
            (None, None) => r is None,
        },
        r matches Some(n) ==> n.wf(),
{
    match net {
        Some(n) => Some(n),
        None => match addr {
            Some(a) => match a {
                IpAddress::V4(_) => Some(IpNetwork { addr: a, prefix: 32 }),
                IpAddress::V6(_) => Some(IpNetwork { addr: a, prefix: 128 }),
            },
            None => None,
        },
    }
}

/// The subnets of a list of entries, blanks left out, or the first entry that is
/// none.
pub open spec fn nets_in(entries: Seq<Seq<char>>) -> Result<Seq<(bool, u128, u8)>, Seq<char>>
    decreases entries.len(),
{
    if entries.len() == 0 {
        Ok(Seq::empty())
    } else {
        match nets_in(entries.drop_last()) {
            Err(e) => Err(e),
            Ok(nets) => {
                let e = text::trimmed(entries.last());
                if e.len() == 0 {
                    Ok(nets)
                } else {
                    match entry_net(cidr(e), address(e)) {
                        Some(n) => Ok(nets.push(n)),
                        None => Err("'"@ + e + "' is not a valid IP address or CIDR subnet"@),
                    }
                }
            },
        }
    }
}

proof fn lemma_nets_error(entries: Seq<Seq<char>>, k: int)
    requires
        0 <= k <= entries.len(),
        nets_in(entries.take(k)) is Err,
    ensures
        nets_in(entries) == nets_in(entries.take(k)),
    decreases entries.len(),
{
    if k < entries.len() {
        assert(entries.drop_last().take(k) =~= entries.take(k));
        lemma_nets_error(entries.drop_last(), k);
    } else {
        assert(entries.take(k) =~= entries);
    }
}

pub open spec fn plain_nets(v: Seq<IpNetwork>) -> Seq<(bool, u128, u8)> {
    v.map_values(|n: IpNetwork| n.plain())
}

pub open spec fn all_wf(v: Seq<IpNetwork>) -> bool {
    forall|i: int| 0 <= i < v.len() ==> (#[trigger] v[i]).wf()
}

/// Parse a comma-separated list of bare IPs and/or CIDR subnets, e.g.
/// `"203.0.113.5,192.168.0.0/24,::1"`. A bare IP is treated as an exact
/// match (implicit /32 or /128).
pub fn parse_allowlist(spec_text: &str) -> (r: Result<Vec<IpNetwork>, String>)
    ensures
        match nets_in(text::pieces(spec_text@, ',')) {
            Ok(nets) => r matches Ok(v) && plain_nets(v@) == nets && all_wf(v@),
            Err(e) => r matches Err(m) && m@ == e,
        },
{
    let chars: Vec<char> = text::to_chars(spec_text);
    let entries: Vec<Vec<char>> = text::split(&chars, ',');
    let ghost all = text::rows(entries@);
    let mut nets: Vec<IpNetwork> = Vec::new();
    let mut i: usize = 0;
    assert(all.take(0) =~= Seq::empty());
    assert(plain_nets(nets@) =~= Seq::empty());
    while i < entries.len()
        invariant
            i <= entries@.len(),
            all == text::rows(entries@),
            all == text::pieces(spec_text@, ','),
            nets_in(all.take(i as int)) == Ok::<Seq<(bool, u128, u8)>, Seq<char>>(plain_nets(nets@)),
            all_wf(nets@),
        decreases entries.len() - i,
    {
        proof {
            assert(all.take(i + 1).drop_last() =~= all.take(i as int));
            assert(all.take(i + 1).last() == entries@[i as int]@);
            if nets_in(all.take(i + 1)) is Err {
                lemma_nets_error(all, i + 1);
            }
        }
        let entry: &[char] = text::trim(&entries[i]);
        if entry.len() > 0 {
            let e: String = text::from_chars(entry);
            match choose_net(parse_cidr(e.as_str()), parse_address(e.as_str())) {
                Some(n) => {
                    let ghost before = plain_nets(nets@);
                    nets.push(n);
                    assert(plain_nets(nets@) =~= before.push(n.plain()));
                },
                None => {
                    let mut m: String = text::copy_text("'");
                    m.append(e.as_str());
                    m.append("' is not a valid IP address or CIDR subnet");
                    return Err(m);
                },
            }
        }
        i = i + 1;
    }
    assert(all.take(i as int) =~= all);
    Ok(nets)
}

/// A parsed, ready-to-check IP allowlist.
#[derive(Debug, Clone)]
pub struct IpAllowlist {
    pub nets: Vec<IpNetwork>,
    /// Human-readable origin of the non-loopback entries.
    pub source: String,
}

/// The two loopback addresses, as subnets.
pub open spec fn loopback() -> Seq<IpNetwork> {
    seq![
        IpNetwork { addr: IpAddress::V4(0x7F00_0001), prefix: 32 },
        IpNetwork { addr: IpAddress::V6(1), prefix: 128 },
    ]
}

/// What an allowlist is made of: the configured subnets and where they came from.
pub open spec fn allowlist_from(
    env_spec: Option<Seq<char>>,
    file: Option<Seq<char>>,
    label: Seq<char>,
) -> (Seq<(bool, u128, u8)>, Seq<char>) {
    let fallback = match file {
        Some(contents) => match env_file::variable(contents, "EULLM_ALLOWED_IPS"@) {
            Some(t) => match nets_in(text::pieces(t, ',')) {
                Ok(nets) => (nets, "EULLM_ALLOWED_IPS ("@ + label + ")"@),
                Err(_) => (Seq::empty(), "default (loopback only — nothing configured)"@),
            },
            None => (Seq::empty(), "default (loopback only — nothing configured)"@),
        },
        None => (Seq::empty(), "default (loopback only — nothing configured)"@),
    };
    match filled(env_spec) {
        Some(t) => match nets_in(text::pieces(t, ',')) {
            Ok(nets) => (nets, "EULLM_ALLOWED_IPS (environment)"@),
            Err(_) => fallback,
        },
        None => fallback,
    }
}

/// What is said of configuration that does not parse, line by line.
pub open spec fn malformed(
    env_spec: Option<Seq<char>>,
    file: Option<Seq<char>>,
    label: Seq<char>,
) -> Seq<Seq<char>> {
    let in_file = match file {
        Some(contents) => match env_file::variable(contents, "EULLM_ALLOWED_IPS"@) {
            Some(t) => match nets_in(text::pieces(t, ',')) {
                Ok(_) => seq![],
                Err(e) => seq![
                    "EULLM_ALLOWED_IPS in "@ + label + " is malformed ("@ + e
                        + ") — ignoring, loopback-only stays in effect"@,
                ],
            },
            None => seq![],
        },
        None => seq![],
    };
    match filled(env_spec) {
        Some(t) => match nets_in(text::pieces(t, ',')) {
            Ok(_) => seq![],
            Err(e) => seq![
                "EULLM_ALLOWED_IPS in the environment is malformed ("@ + e
                    + ") — ignoring it; falling back to "@ + label,
            ] + in_file,
        },
        None => in_file,
    }
}

/// One of the subnets covers the address.
pub open spec fn covered(nets: Seq<IpNetwork>, ip: IpAddress) -> bool {
    exists|i: int| 0 <= i < nets.len() && (#[trigger] nets[i]).covers(ip)
}

impl IpAllowlist {
    /// Every subnet is in order.
    pub open spec fn wf(self) -> bool {
        all_wf(self.nets@)
    }

    /// Loopback-only — the default when nothing is configured.
    pub fn loopback_only() -> (r: Self)
        ensures
            r.wf(),
            r.nets@ == loopback(),
            r.source@ == "default (loopback only — nothing configured)"@,
    {
        let mut nets: Vec<IpNetwork> = Vec::new();
        nets.push(IpNetwork { addr: IpAddress::V4(0x7F00_0001), prefix: 32 });
        nets.push(IpNetwork { addr: IpAddress::V6(1), prefix: 128 });
        assert(nets@ =~= loopback());
        IpAllowlist {
            nets,
            source: text::copy_text("default (loopback only — nothing configured)"),
        }
    }

    fn extended(nets: &Vec<IpNetwork>, source: String) -> (r: Self)
        requires
            all_wf(nets@),
        ensures
            r.wf(),
            r.nets@ == loopback() + nets@,
            r.source == source,
    {
        let mut r: IpAllowlist = Self::loopback_only();
        let mut i: usize = 0;
        assert(nets@.take(0) =~= Seq::empty());
        assert(r.nets@ =~= loopback() + nets@.take(0));
        while i < nets.len()
            invariant
                i <= nets@.len(),
                all_wf(nets@),
                r.wf(),
                r.nets@ == loopback() + nets@.take(i as int),
            decreases nets.len() - i,
        {
            r.nets.push(nets[i]);
            assert(r.nets@ =~= loopback() + nets@.take(i + 1));
            i = i + 1;
        }
        assert(nets@.take(i as int) =~= nets@);
        r.source = source;
        r
    }

    /// Resolves the allowlist from the environment, or else from a `.env` file:
    /// loopback and what is configured. Configuration that does not parse is
    /// ignored.
    pub fn resolve(
        env_spec: Option<&str>,
        file_contents: Option<&str>,
        file_label: &str,
    ) -> (r: Self)
        ensures
            r.wf(),
            ({
                let (nets, source) = allowlist_from(
                    opt_view(env_spec),
                    opt_view(file_contents),
                    file_label@,
                );
                &&& r.nets@.take(2) == loopback()
                &&& r.nets@.len() >= 2
                &&& plain_nets(r.nets@.skip(2)) == nets
                &&& r.source@ == source
            }),
    {
        if let Some(t) = env_spec {
            let chars: Vec<char> = text::to_chars(t);
            let trimmed: &[char] = text::trim(&chars);
            if trimmed.len() > 0 {
                let own: String = text::from_chars(trimmed);
                if let Ok(nets) = parse_allowlist(own.as_str()) {
                    let r: IpAllowlist = Self::extended(
                        &nets,
                        text::copy_text("EULLM_ALLOWED_IPS (environment)"),
                    );
                    proof {
                        assert(r.nets@.take(2) =~= loopback());
                        assert(r.nets@.skip(2) =~= nets@);
                    }
                    return r;
                }
            }
        }
        if let Some(contents) = file_contents {
            if let Some(t) = env_file::env_file_var(contents, "EULLM_ALLOWED_IPS") {
                if let Ok(nets) = parse_allowlist(t.as_str()) {
                    let mut source: String = text::copy_text("EULLM_ALLOWED_IPS (");
                    source.append(file_label);
                    source.append(")");
                    let r: IpAllowlist = Self::extended(&nets, source);
                    proof {
                        assert(r.nets@.take(2) =~= loopback());
                        assert(r.nets@.skip(2) =~= nets@);
                    }
                    return r;
                }
            }
        }
        let r: IpAllowlist = Self::loopback_only();
        proof {
            assert(r.nets@.take(2) =~= loopback());
            assert(plain_nets(r.nets@.skip(2)) =~= Seq::empty());
        }
        r
    }

    /// The warnings about configuration that [`IpAllowlist::resolve`] ignores.
    pub fn warnings(
        env_spec: Option<&str>,
        file_contents: Option<&str>,
        file_label: &str,
    ) -> (r: Vec<String>)
        ensures
            text::views(r@) == malformed(opt_view(env_spec), opt_view(file_contents), file_label@),
    {
        let ghost want = malformed(opt_view(env_spec), opt_view(file_contents), file_label@);
        let mut r: Vec<String> = Vec::new();
        if let Some(t) = env_spec {
            let chars: Vec<char> = text::to_chars(t);
            let trimmed: &[char] = text::trim(&chars);
            if trimmed.len() > 0 {
                let own: String = text::from_chars(trimmed);
                match parse_allowlist(own.as_str()) {
                    Ok(_) => {
                        assert(text::views(r@) =~= want);
                        return r;
                    },
                    Err(e) => {
                        let mut m: String = text::copy_text(
                            "EULLM_ALLOWED_IPS in the environment is malformed (",
                        );
                        m.append(e.as_str());
                        m.append(") — ignoring it; falling back to ");
                        m.append(file_label);
                        r.push(m);
                    },
                }
            }
        }
        if let Some(contents) = file_contents {
            if let Some(t) = env_file::env_file_var(contents, "EULLM_ALLOWED_IPS") {
                if let Err(e) = parse_allowlist(t.as_str()) {
                    let mut m: String = text::copy_text("EULLM_ALLOWED_IPS in ");
                    m.append(file_label);
                    m.append(" is malformed (");
                    m.append(e.as_str());
                    m.append(") — ignoring, loopback-only stays in effect");
                    r.push(m);
                }
            }
        }
        assert(text::views(r@) =~= want);
        r
    }

    /// Where the non-loopback entries came from.
    pub fn source(&self) -> (r: &str)
        ensures
            r@ == self.source@,
    {
        self.source.as_str()
    }

    /// Whether `ip` is covered by this allowlist.
    pub fn is_allowed(&self, ip: IpAddress) -> (r: bool)
        requires
            self.wf(),
        ensures
            r == covered(self.nets@, ip),
    {
        let mut i: usize = 0;
        while i < self.nets.len()
            invariant
                self.wf(),
                i <= self.nets@.len(),
                forall|j: int| 0 <= j < i ==> !(#[trigger] self.nets@[j]).covers(ip),
            decreases self.nets.len() - i,
        {
            if self.nets[i].contains(ip) {
                assert(self.nets@[i as int].covers(ip));
                return true;
            }
            i = i + 1;
        }
        false
    }

    /// Human-readable summary for the startup banner/logs.
    pub fn describe(&self) -> (r: String)
        requires
            self.wf(),
        ensures
            r@ == text::joined(self.nets@.map_values(|n: IpNetwork| net_text(n)), ", "@),
    {
        let mut parts: Vec<String> = Vec::new();
        let mut i: usize = 0;
        while i < self.nets.len()
            invariant
                self.wf(),
                i <= self.nets@.len(),
                parts@.len() == i,
                forall|j: int| 0 <= j < i ==> (#[trigger] parts@[j])@ == net_text(self.nets@[j]),
            decreases self.nets.len() - i,
        {
            parts.push(format_net(self.nets[i]));
            i = i + 1;
        }
        assert(text::views(parts@) =~= self.nets@.map_values(|n: IpNetwork| net_text(n)));
        text::join(&parts, ", ")
    }
}

/// Loopback is always let in, whatever is configured.
pub proof fn law_loopback_is_always_allowed(nets: Seq<IpNetwork>)
    requires
        nets.len() >= 2,
        nets.take(2) == loopback(),
    ensures
        covered(nets, IpAddress::V4(0x7F00_0001)),
        covered(nets, IpAddress::V6(1)),
{
    assert(nets[0] == loopback()[0] && nets[1] == loopback()[1]) by {
        assert(nets.take(2)[0] == nets[0] && nets.take(2)[1] == nets[1]);
    }
    assert(nets[0].covers(IpAddress::V4(0x7F00_0001)));
    assert(nets[1].covers(IpAddress::V6(1)));
}

/// Where nothing is configured, no address but loopback is let in.
pub proof fn law_by_default_only_loopback_is_allowed(ip: IpAddress)
    requires
        covered(loopback(), ip),
    ensures
        ip == IpAddress::V4(0x7F00_0001) || ip == IpAddress::V6(1),
{
    let i = choose|i: int| 0 <= i < loopback().len() && (#[trigger] loopback()[i]).covers(ip);
    match ip {
        IpAddress::V4(b) => {
            let w = b as u64;
            assert(w >> 0u64 == w) by (bit_vector);
            assert(0x7F00_0001u64 >> 0u64 == 0x7F00_0001u64) by (bit_vector);
        },
        IpAddress::V6(b) => {
            assert(b >> 0u128 == b) by (bit_vector);
            assert(1u128 >> 0u128 == 1u128) by (bit_vector);
        },
    }
}

/// A subnet holds the addresses that begin as it does. A prefix of no bits holds
/// every address of its version, one of all bits only its own; in between, the
/// leading bytes are compared.
pub proof fn law_a_subnet_holds_what_begins_as_it_does(a: u32, b: u32)
    ensures
        ({
            let holds = |p: u8| (IpNetwork { addr: IpAddress::V4(a), prefix: p }).covers(
                IpAddress::V4(b),
            );
            &&& holds(0)
            &&& holds(8) <==> a / 0x100_0000 == b / 0x100_0000
            &&& holds(16) <==> a / 0x1_0000 == b / 0x1_0000
            &&& holds(24) <==> a / 0x100 == b / 0x100
            &&& holds(32) <==> a == b
        }),
{
    assert(((a as u64) >> 32u64) == ((b as u64) >> 32u64)) by (bit_vector);
    assert((((a as u64) >> 24u64) == ((b as u64) >> 24u64)) == (a / 0x100_0000 == b / 0x100_0000))
        by (bit_vector);
    assert((((a as u64) >> 16u64) == ((b as u64) >> 16u64)) == (a / 0x1_0000 == b / 0x1_0000))
        by (bit_vector);
    assert((((a as u64) >> 8u64) == ((b as u64) >> 8u64)) == (a / 0x100 == b / 0x100))
        by (bit_vector);
    assert((((a as u64) >> 0u64) == ((b as u64) >> 0u64)) == (a == b)) by (bit_vector);
}

/// A longer prefix holds less: what lies in a subnet of version 4 lies in every
/// wider one around the same address, and the address itself in all of them.
pub proof fn law_a_wider_subnet_holds_no_less(a: u32, b: u32, p: u8, q: u8)
    requires
        q <= p <= 32,
    ensures
        (IpNetwork { addr: IpAddress::V4(a), prefix: p }).covers(IpAddress::V4(b)) ==> (IpNetwork {
            addr: IpAddress::V4(a),
            prefix: q,
        }).covers(IpAddress::V4(b)),
        (IpNetwork { addr: IpAddress::V4(a), prefix: p }).covers(IpAddress::V4(a)),
{
    let (x, y) = (a as u64, b as u64);
    let (m, n) = ((32 - p) as u64, (32 - q) as u64);
    lemma_shifted_further(x, m, n);
    lemma_shifted_further(y, m, n);
}

/// Shifting further is shifting again.
proof fn lemma_shifted_further(x: u64, m: u64, n: u64)
    requires
        m <= n <= 32,
    ensures
        (x >> n) as int == (x >> m) as int / vstd::arithmetic::power2::pow2((n - m) as nat) as int,
{
    let k = (n - m) as nat;
    vstd::bits::lemma_u64_shr_is_div(x, m);
    vstd::bits::lemma_u64_shr_is_div(x, n);
    vstd::arithmetic::power2::lemma_pow2_adds(m as nat, k);
    vstd::arithmetic::power2::lemma_pow2_pos(m as nat);
    vstd::arithmetic::power2::lemma_pow2_pos(k);
    vstd::arithmetic::div_mod::lemma_div_denominator(
        x as int,
        vstd::arithmetic::power2::pow2(m as nat) as int,
        vstd::arithmetic::power2::pow2(k) as int,
    );
}

/// The same of version 6; no subnet holds an address of the other version.
pub proof fn law_versions_do_not_mix(a: u128, b: u128, c: u32, p: u8)
    ensures
        (IpNetwork { addr: IpAddress::V6(a), prefix: 0 }).covers(IpAddress::V6(b)),
        (IpNetwork { addr: IpAddress::V6(a), prefix: 128 }).covers(IpAddress::V6(b)) <==> a == b,
        (IpNetwork { addr: IpAddress::V6(a), prefix: 64 }).covers(IpAddress::V6(b)) <==> a
            / 0x1_0000_0000_0000_0000 == b / 0x1_0000_0000_0000_0000,
        !(IpNetwork { addr: IpAddress::V6(a), prefix: p }).covers(IpAddress::V4(c)),
        !(IpNetwork { addr: IpAddress::V4(c), prefix: p }).covers(IpAddress::V6(a)),
{
    assert((a >> 0u128 == b >> 0u128) == (a == b)) by (bit_vector);
    assert((a >> 64u128 == b >> 64u128) == (a / 0x1_0000_0000_0000_0000u128 == b
        / 0x1_0000_0000_0000_0000u128)) by (bit_vector);
}

/// A list is its entries in order, blank ones left out: each a subnet, or else an
/// address, which stands for itself alone. One that is neither spoils the list.
pub proof fn law_entries_are_subnets_or_addresses(
    entries: Seq<Seq<char>>,
    x: Seq<char>,
    nets: Seq<(bool, u128, u8)>,
)
    requires
        nets_in(entries) == Ok::<Seq<(bool, u128, u8)>, Seq<char>>(nets),
    ensures
        ({
            let e = text::trimmed(x);
            let all = nets_in(entries.push(x));
            let ok = |n: (bool, u128, u8)| Ok::<Seq<(bool, u128, u8)>, Seq<char>>(nets.push(n));
            if e.len() == 0 {
                all == Ok::<Seq<(bool, u128, u8)>, Seq<char>>(nets)
            } else {
                match (cidr(e), address(e)) {
                    (Some(n), _) => all == ok(n),
                    (None, Some((true, bits))) => all == ok((true, bits, 128u8)),
                    (None, Some((false, bits))) => all == ok((false, bits, 32u8)),
                    (None, None) => all is Err,
                }
            }
        }),
{
    assert(entries.push(x).drop_last() =~= entries);
}

/// The environment decides where it is set and can be read, and else the file;
/// what cannot be read adds nothing.
pub proof fn law_the_environment_wins_over_the_file(
    env: Option<Seq<char>>,
    file: Option<Seq<char>>,
    label: Seq<char>,
)
    ensures
        ({
            let nets = allowlist_from(env, file, label).0;
            let own = match env {
                Some(t) => if text::trimmed(t).len() > 0 {
                    nets_in(text::pieces(text::trimmed(t), ','))
                } else {
                    Err(Seq::empty())
                },
                None => Err(Seq::empty()),
            };
            let fallback = match file {
                Some(c) => match env_file::variable(c, "EULLM_ALLOWED_IPS"@) {
                    Some(t) => nets_in(text::pieces(t, ',')),
                    None => Err(Seq::empty()),
                },
                None => Err(Seq::empty()),
            };
            &&& own matches Ok(n) ==> nets == n
            &&& own is Err ==> (fallback matches Ok(n) ==> nets == n)
            &&& own is Err && fallback is Err ==> nets.len() == 0
        }),
{
}

/// A version 4 subnet is written as its four bytes, the first one first, and its
/// prefix.
pub proof fn law_a_subnet_is_written_byte_by_byte(a: u8, b: u8, c: u8, d: u8, prefix: u8)
    ensures
        net_text(
            IpNetwork {
                addr: IpAddress::V4((0x100_0000 * a + 0x1_0000 * b + 0x100 * c + d) as u32),
                prefix,
            },
        ) == text::decimal(a as nat) + "."@ + text::decimal(b as nat) + "."@ + text::decimal(
            c as nat,
        ) + "."@ + text::decimal(d as nat) + "/"@ + text::decimal(prefix as nat),
{
    let bits = (0x100_0000 * a + 0x1_0000 * b + 0x100 * c + d) as u32;
    assert(bits == 0x100_0000 * a + 0x1_0000 * b + 0x100 * c + d);
    assert(bits / 0x100_0000 == a);
    assert(bits / 0x1_0000 == 0x100 * a + b);
    assert(bits / 0x1_0000 % 256 == b);
    assert(bits / 0x100 == 0x1_0000 * a + 0x100 * b + c);
    assert(bits / 0x100 % 256 == c);
    assert(bits % 256 == d);
}

} // verus!
