//! Cover-domain normalisation and `host[:port]` parsing for resolvers and targets.

use vstd::prelude::*;

verus! {

#[derive(Debug, Clone, Copy, PartialEq, Eq, Structural)]
pub enum AddressFamily {
    V4,
    V6,
}

/// A parsed endpoint: `host` is non-empty, `port` is non-zero, and `family`
/// is fixed by the syntax it was written in.
#[derive(Debug, Clone)]
pub struct HostPort {
    pub host: String,
    pub port: u16,
    pub family: AddressFamily,
}

impl HostPort {
    pub open spec fn wf(&self) -> bool {
        self.host@.len() > 0 && self.port != 0
    }
}

#[derive(Debug, Clone)]
pub struct ConfigError {
    message: String,
}

impl ConfigError {
    pub fn new(message: String) -> (r: ConfigError)
        ensures
            r.spec_message() == message@,
    {
        ConfigError { message }
    }

    pub closed spec fn spec_message(&self) -> Seq<char> {
        self.message@
    }

    /// The human-readable text of this error.
    pub fn message(&self) -> (r: String)
        ensures
            r@ == self.spec_message(),
    {
        self.message.clone()
    }
}

#[derive(Debug, Clone, Copy, PartialEq, Eq, Structural)]
pub enum AddressKind {
    Resolver,
    Target,
}

pub open spec fn kind_label(k: AddressKind) -> Seq<char> {
    match k {
        AddressKind::Resolver => "resolver"@,
        AddressKind::Target => "target"@,
    }
}

impl AddressKind {
    pub fn label(self) -> (r: &'static str)
        ensures
            r@ == kind_label(self),
    {
        match self {
            AddressKind::Resolver => "resolver",
            AddressKind::Target => "target",
        }
    }
}

/// Settings a client runs with: the local port it accepts connections on, the
/// resolvers and cover domain it tunnels through, and transport tuning.
#[derive(Debug)]
pub struct ClientConfig<'a> {
    pub tcp_listen_port: u16,
    pub resolvers: &'a [HostPort],
    pub domain: &'a str,
    pub congestion_control: &'a str,
    pub gso: bool,
    pub keep_alive_interval: usize,
    pub debug_poll: bool,
    pub debug_streams: bool,
}

// ---------------------------------------------------------------------------
// Domain normalisation
// ---------------------------------------------------------------------------

/// Unicode `White_Space`, the set that `str::trim` removes.
pub open spec fn is_ws(c: char) -> bool {
    let u = c as u32;
    (0x9 <= u <= 0xd) || u == 0x20 || u == 0x85 || u == 0xa0 || u == 0x1680 || (0x2000 <= u
        <= 0x200a) || u == 0x2028 || u == 0x2029 || u == 0x202f || u == 0x205f || u == 0x3000
}

fn char_is_ws(c: char) -> (r: bool)
    ensures
        r == is_ws(c),
{
    let u = c as u32;
    (0x9 <= u && u <= 0xd) || u == 0x20 || u == 0x85 || u == 0xa0 || u == 0x1680 || (0x2000 <= u
        && u <= 0x200a) || u == 0x2028 || u == 0x2029 || u == 0x202f || u == 0x205f || u == 0x3000
}

/// Index of the first non-whitespace character at or after `i`.
pub open spec fn skip_ws_front(s: Seq<char>, i: int) -> int
    decreases s.len() - i,
{
    if 0 <= i < s.len() && is_ws(s[i]) {
        skip_ws_front(s, i + 1)
    } else {
        i
    }
}

/// One past the last non-whitespace character before `j`, not going below `lo`.
pub open spec fn skip_ws_back(s: Seq<char>, lo: int, j: int) -> int
    decreases j - lo,
{
    if lo < j && j <= s.len() && is_ws(s[j - 1]) {
        skip_ws_back(s, lo, j - 1)
    } else {
        j
    }
}

/// `s` without leading and trailing whitespace.
pub open spec fn trim_ws(s: Seq<char>) -> Seq<char> {
    let a = skip_ws_front(s, 0);
    s.subrange(a, skip_ws_back(s, a, s.len() as int))
}

/// The cover domain written as `s`: trimmed, one trailing dot removed;
/// `None` when nothing is left.
pub open spec fn normalized(s: Seq<char>) -> Option<Seq<char>> {
    let t = trim_ws(s);
    let u = if t.len() > 0 && t.last() == '.' {
        t.drop_last()
    } else {
        t
    };
    if u.len() == 0 {
        None
    } else {
        Some(u)
    }
}

pub open spec fn empty_domain_msg() -> Seq<char> {
    "Domain must not be empty"@
}

proof fn lemma_skip_ws_front(s: Seq<char>, i: int)
    requires
        0 <= i <= s.len(),
    ensures
        i <= skip_ws_front(s, i) <= s.len(),
        skip_ws_front(s, i) < s.len() ==> !is_ws(s[skip_ws_front(s, i)]),
    decreases s.len() - i,
{
    if i < s.len() && is_ws(s[i]) {
        lemma_skip_ws_front(s, i + 1);
    }
}

proof fn lemma_skip_ws_back(s: Seq<char>, lo: int, j: int)
    requires
        0 <= lo <= j <= s.len(),
    ensures
        lo <= skip_ws_back(s, lo, j) <= j,
        lo < skip_ws_back(s, lo, j) ==> !is_ws(s[skip_ws_back(s, lo, j) - 1]),
    decreases j - lo,
{
    if lo < j && is_ws(s[j - 1]) {
        lemma_skip_ws_back(s, lo, j - 1);
    }
}

/// Normalising a normalised domain changes nothing, provided the first pass left
/// no whitespace or dot at its end (a second trailing dot, or whitespace before the
/// one dot that was removed, would be taken off by the next pass).
pub proof fn lemma_normalize_idempotent(s: Seq<char>)
    requires
        normalized(s) is Some,
        !is_ws(normalized(s).unwrap().last()),
        normalized(s).unwrap().last() != '.',
    ensures
        normalized(normalized(s).unwrap()) == normalized(s),
{
    let d = normalized(s).unwrap();
    let a = skip_ws_front(s, 0);
    lemma_skip_ws_front(s, 0);
    lemma_skip_ws_back(s, a, s.len() as int);
    assert(d[0] == s[a]);
    assert(skip_ws_front(d, 0) == 0);
    assert(skip_ws_back(d, 0, d.len() as int) == d.len());
    assert(trim_ws(d) =~= d);
}

/// The characters of `s`, one by one.
fn chars_of(s: &str) -> (r: Vec<char>)
    ensures
        r@ == s@,
{
    let n = s.unicode_len();
    let mut r: Vec<char> = Vec::new();
    let mut i: usize = 0;
    while i < n
        invariant
            n == s@.len(),
            i <= n,
            r@ == s@.subrange(0, i as int),
        decreases n - i,
    {
        r.push(s.get_char(i));
        i += 1;
    }
    assert(r@ =~= s@);
    r
}

/// Trims whitespace and a single trailing dot from a cover domain.
pub fn normalize_domain(input: &str) -> (r: Result<String, ConfigError>)
    ensures
        match normalized(input@) {
            Some(d) => r matches Ok(s) && s@ == d,
            None => r matches Err(e) && e.spec_message() == empty_domain_msg(),
        },
{
    let cs = chars_of(input);
    let n = cs.len();
    let mut a: usize = 0;
    while a < n && char_is_ws(cs[a])
        invariant
            cs@ == input@,
            n == cs@.len(),
            a <= n,
            skip_ws_front(input@, 0) == skip_ws_front(input@, a as int),
        decreases n - a,
    {
        a += 1;
    }
    let mut b: usize = n;
    while b > a && char_is_ws(cs[b - 1])
        invariant
            cs@ == input@,
            n == cs@.len(),
            a <= b <= n,
            skip_ws_back(input@, a as int, n as int) == skip_ws_back(input@, a as int, b as int),
        decreases b - a,
    {
        b -= 1;
    }
    let ghost t = trim_ws(input@);
    assert(t =~= input@.subrange(a as int, b as int));
    if b > a && cs[b - 1] == '.' {
        b -= 1;
    }
    if b == a {
        return Err(ConfigError::new(String::from_str("Domain must not be empty")));
    }
    let d = input.substring_char(a, b);
    let ghost u = normalized(input@);
    assert(d@ =~= u.unwrap());
    Ok(String::from_str(d))
}


// ---------------------------------------------------------------------------
// host[:port] parsing
// ---------------------------------------------------------------------------

/// Index of the first `c` in `s` at or after `i`, or `s.len()` when there is none.
pub open spec fn find_char(s: Seq<char>, c: char, i: int) -> int
    decreases s.len() - i,
{
    if i < 0 || i >= s.len() {
        s.len() as int
    } else if s[i] == c {
        i
    } else {
        find_char(s, c, i + 1)
    }
}

pub open spec fn is_digit(c: char) -> bool {
    '0' <= c && c <= '9'
}

pub open spec fn digit_value(c: char) -> nat {
    (c as u32 - '0' as u32) as nat
}

/// The decimal number written by the digits `s`.
pub open spec fn dec_value(s: Seq<char>) -> nat
    decreases s.len(),
{
    if s.len() == 0 {
        0
    } else {
        dec_value(s.drop_last()) * 10 + digit_value(s.last())
    }
}

/// The port written as `s`: one or more decimal digits, a value in 1..=65535.
pub open spec fn port_of(s: Seq<char>) -> Option<u16> {
    if s.len() > 0 && (forall|i: int| 0 <= i < s.len() ==> is_digit(#[trigger] s[i])) && 0
        < dec_value(s) <= 65535 {
        Some(dec_value(s) as u16)
    } else {
        None
    }
}

pub open spec fn bracket_msg(input: Seq<char>) -> Seq<char> {
    "Invalid IPv6 address format (missing closing bracket): "@ + input
}

pub open spec fn ipv6_msg(kind: AddressKind, input: Seq<char>) -> Seq<char> {
    "Invalid IPv6 address in "@ + kind_label(kind) + ": "@ + input
}

pub open spec fn port_msg(kind: AddressKind, input: Seq<char>) -> Seq<char> {
    "Invalid port number in "@ + kind_label(kind) + " address: "@ + input
}

pub open spec fn addr_msg(kind: AddressKind, input: Seq<char>) -> Seq<char> {
    "Invalid "@ + kind_label(kind) + " address: "@ + input
}

/// What `input` denotes as an endpoint: `(host, port, family)`, or the error message.
pub open spec fn host_port_of(input: Seq<char>, default_port: u16, kind: AddressKind) -> Result<
    (Seq<char>, u16, AddressFamily),
    Seq<char>,
> {
    if input.len() > 0 && input[0] == '[' {
        let rest = input.drop_first();
        let e = find_char(rest, ']', 0);
        if e == rest.len() {
            Err(bracket_msg(input))
        } else if e == 0 {
            Err(ipv6_msg(kind, input))
        } else {
            let host = rest.subrange(0, e);
            let rem = rest.subrange(e + 1, rest.len() as int);
            if rem.len() == 0 {
                Ok((host, default_port, AddressFamily::V6))
            } else if rem[0] == ':' {
                match port_of(rem.drop_first()) {
                    Some(p) => Ok((host, p, AddressFamily::V6)),
                    None => Err(port_msg(kind, input)),
                }
            } else {
                Err(bracket_msg(input))
            }
        }
    } else {
        let c = find_char(input, ':', 0);
        if c < input.len() {
            let left = input.subrange(0, c);
            match port_of(input.subrange(c + 1, input.len() as int)) {
                None => Err(port_msg(kind, input)),
                Some(p) => if left.len() == 0 {
                    Err(addr_msg(kind, input))
                } else {
                    Ok((left, p, AddressFamily::V4))
                },
            }
        } else if input.len() == 0 {
            Err(addr_msg(kind, input))
        } else {
            Ok((input, default_port, AddressFamily::V4))
        }
    }
}

pub open spec fn host_port_matches(
    r: Result<HostPort, ConfigError>,
    s: Result<(Seq<char>, u16, AddressFamily), Seq<char>>,
) -> bool {
    match s {
        Ok((h, p, f)) => r matches Ok(hp) && hp.host@ == h && hp.port == p && hp.family == f,
        Err(m) => r matches Err(e) && e.spec_message() == m,
    }
}

fn cat4(a: &str, b: &str, c: &str, d: &str) -> (r: String)
    ensures
        r@ == a@ + b@ + c@ + d@,
{
    let mut r = String::from_str(a);
    r.append(b);
    r.append(c);
    r.append(d);
    r
}

fn bracket_error(input: &str) -> (r: ConfigError)
    ensures
        r.spec_message() == bracket_msg(input@),
{
    let mut m = String::from_str("Invalid IPv6 address format (missing closing bracket): ");
    m.append(input);
    ConfigError::new(m)
}

fn find_in(cs: &Vec<char>, c: char, start: usize) -> (r: usize)
    requires
        start <= cs@.len(),
    ensures
        r as int == find_char(cs@, c, start as int),
        start <= r <= cs@.len(),
{
    let mut i = start;
    while i < cs.len() && cs[i] != c
        invariant
            start <= i <= cs@.len(),
            find_char(cs@, c, start as int) == find_char(cs@, c, i as int),
        decreases cs@.len() - i,
    {
        i += 1;
    }
    i
}

proof fn lemma_dec_value_grows(s: Seq<char>, i: int)
    requires
        0 <= i < s.len(),
        is_digit(s[i]),
    ensures
        dec_value(s.subrange(0, i + 1)) == dec_value(s.subrange(0, i)) * 10 + digit_value(s[i]),
        dec_value(s.subrange(0, i + 1)) >= dec_value(s.subrange(0, i)),
{
    assert(s.subrange(0, i + 1).drop_last() =~= s.subrange(0, i));
}

proof fn lemma_dec_value_mono(s: Seq<char>, i: int)
    requires
        0 <= i <= s.len(),
        forall|k: int| 0 <= k < s.len() ==> is_digit(#[trigger] s[k]),
    ensures
        dec_value(s) >= dec_value(s.subrange(0, i)),
    decreases s.len() - i,
{
    if i < s.len() {
        lemma_dec_value_grows(s, i);
        lemma_dec_value_mono(s, i + 1);
    } else {
        assert(s.subrange(0, i) =~= s);
    }
}

/// The port written by `cs`, or `None`: digits only, value in 1..=65535.
fn port_value(cs: &Vec<char>) -> (r: Option<u16>)
    ensures
        r == port_of(cs@),
{
    if cs.len() == 0 {
        return None;
    }
    let mut acc: u32 = 0;
    let mut i: usize = 0;
    while i < cs.len()
        invariant
            i <= cs@.len(),
            acc as nat == dec_value(cs@.subrange(0, i as int)),
            acc <= 65535,
            forall|k: int| 0 <= k < i ==> is_digit(#[trigger] cs@[k]),
        decreases cs@.len() - i,
    {
        let c = cs[i];
        if !('0' <= c && c <= '9') {
            return None;
        }
        proof {
            lemma_dec_value_grows(cs@, i as int);
        }
        acc = acc * 10 + (c as u32 - '0' as u32);
        if acc > 65535 {
            proof {
                if forall|k: int| 0 <= k < cs@.len() ==> is_digit(#[trigger] cs@[k]) {
                    lemma_dec_value_mono(cs@, i as int + 1);
                }
            }
            return None;
        }
        i += 1;
    }
    assert(cs@.subrange(0, i as int) =~= cs@);
    if acc == 0 {
        None
    } else {
        Some(acc as u16)
    }
}


fn parse_port(port_str: &str, input: &str, kind: AddressKind) -> (r: Result<u16, ConfigError>)
    ensures
        match port_of(port_str@) {
            Some(p) => r == Ok::<u16, ConfigError>(p),
            None => r matches Err(e) && e.spec_message() == port_msg(kind, input@),
        },
{
    match port_value(&chars_of(port_str)) {
        Some(p) => Ok(p),
        None => Err(ConfigError::new(cat4("Invalid port number in ", kind.label(), " address: ", input))),
    }
}

/// Parses `[v6]`, `[v6]:port`, `host` or `host:port`; a missing port is `default_port`.
pub fn parse_host_port(input: &str, default_port: u16, kind: AddressKind) -> (r: Result<
    HostPort,
    ConfigError,
>)
    ensures
        host_port_matches(r, host_port_of(input@, default_port, kind)),
        default_port != 0 ==> (r matches Ok(hp) ==> hp.wf()),
{
    let cs = chars_of(input);
    let n = cs.len();
    if n > 0 && cs[0] == '[' {
        let ghost rest = input@.drop_first();
        let e = find_in(&cs, ']', 1);
        proof {
            lemma_find_shift(input@, ']', 1);
        }
        if e == n {
            return Err(bracket_error(input));
        }
        if e == 1 {
            return Err(ConfigError::new(cat4("Invalid IPv6 address in ", kind.label(), ": ", input)));
        }
        let host = input.substring_char(1, e);
        assert(host@ =~= rest.subrange(0, e - 1));
        let port: u16;
        if e + 1 == n {
            port = default_port;
        } else if cs[e + 1] == ':' {
            let port_str = input.substring_char(e + 2, n);
            assert(port_str@ =~= rest.subrange(e as int, rest.len() as int).drop_first());
            port = match parse_port(port_str, input, kind) {
                Ok(p) => p,
                Err(err) => return Err(err),
            };
        } else {
            return Err(bracket_error(input));
        }
        return Ok(HostPort { host: String::from_str(host), port, family: AddressFamily::V6 });
    }
    let c = find_in(&cs, ':', 0);
    let mut host = input;
    let mut port = default_port;
    if c < n {
        let right = input.substring_char(c + 1, n);
        port = match parse_port(right, input, kind) {
            Ok(p) => p,
            Err(err) => return Err(err),
        };
        host = input.substring_char(0, c);
    }
    if host.unicode_len() == 0 {
        return Err(ConfigError::new(cat4("Invalid ", kind.label(), " address: ", input)));
    }
    Ok(HostPort { host: String::from_str(host), port, family: AddressFamily::V4 })
}

proof fn lemma_find_shift(s: Seq<char>, c: char, i: int)
    requires
        1 <= i <= s.len(),
    ensures
        find_char(s, c, i) == find_char(s.drop_first(), c, i - 1) + 1,
    decreases s.len() - i,
{
    if i < s.len() && s[i] != c {
        lemma_find_shift(s, c, i + 1);
    }
}


pub open spec fn mix_msg() -> Seq<char> {
    "Cannot mix IPv4 and IPv6 resolver addresses"@
}

pub open spec fn no_resolver_msg() -> Seq<char> {
    "At least one resolver address is required"@
}

/// The resolver endpoints written as `addrs`, in order, each with default port 53;
/// the first error in order otherwise. An empty list is no resolver set.
pub open spec fn resolver_set(addrs: Seq<Seq<char>>) -> Result<
    Seq<(Seq<char>, u16, AddressFamily)>,
    Seq<char>,
> {
    if addrs.len() == 0 {
        Err(no_resolver_msg())
    } else {
        resolvers_in_order(addrs)
    }
}

/// The endpoints of `addrs` parsed one after the other, or the first error.
pub open spec fn resolvers_in_order(addrs: Seq<Seq<char>>) -> Result<
    Seq<(Seq<char>, u16, AddressFamily)>,
    Seq<char>,
>
    decreases addrs.len(),
{
    if addrs.len() == 0 {
        Ok(Seq::empty())
    } else {
        match resolvers_in_order(addrs.drop_last()) {
            Err(m) => Err(m),
            Ok(prev) => match host_port_of(addrs.last(), 53, AddressKind::Resolver) {
                Err(m) => Err(m),
                Ok(hp) => if prev.len() > 0 && prev[0].2 != hp.2 {
                    Err(mix_msg())
                } else {
                    Ok(prev.push(hp))
                },
            },
        }
    }
}

pub open spec fn host_port_view(h: HostPort) -> (Seq<char>, u16, AddressFamily) {
    (h.host@, h.port, h.family)
}

/// Parses every resolver address (default port 53); all must share one family.
pub fn parse_resolver_addresses(addrs: &[String]) -> (r: Result<Vec<HostPort>, ConfigError>)
    ensures
        match resolver_set(addrs@.map_values(|a: String| a@)) {
            Ok(v) => r matches Ok(hs) && hs@.map_values(|h: HostPort| host_port_view(h)) == v,
            Err(m) => r matches Err(e) && e.spec_message() == m,
        },
{
    let ghost all = addrs@.map_values(|a: String| a@);
    if addrs.len() == 0 {
        return Err(ConfigError::new(String::from_str("At least one resolver address is required")));
    }
    let mut family: Option<AddressFamily> = None;
    let mut parsed: Vec<HostPort> = Vec::with_capacity(addrs.len());
    let mut i: usize = 0;
    assert(all.subrange(0, 0) =~= Seq::<Seq<char>>::empty());
    assert(parsed@.map_values(|h: HostPort| host_port_view(h)) =~= Seq::empty());
    while i < addrs.len()
        invariant
            i <= addrs@.len(),
            all == addrs@.map_values(|a: String| a@),
            resolvers_in_order(all.subrange(0, i as int)) == Ok::<
                Seq<(Seq<char>, u16, AddressFamily)>,
                Seq<char>,
            >(parsed@.map_values(|h: HostPort| host_port_view(h))),
            family == (if i == 0 {
                None
            } else {
                Some(parsed@[0].family)
            }),
            parsed@.len() == i,
        decreases addrs@.len() - i,
    {
        let ghost pre = all.subrange(0, i as int);
        let ghost next = all.subrange(0, i as int + 1);
        assert(next.drop_last() =~= pre);
        assert(next.last() == addrs@[i as int]@);
        let parsed_addr = match parse_host_port(addrs[i].as_str(), 53, AddressKind::Resolver) {
            Ok(hp) => hp,
            Err(e) => {
                proof {
                    lemma_resolver_err_persists(all, i as int + 1);
                }
                return Err(e);
            },
        };
        match family {
            Some(existing) => {
                if existing != parsed_addr.family {
                    proof {
                        lemma_resolver_err_persists(all, i as int + 1);
                    }
                    return Err(ConfigError::new(String::from_str("Cannot mix IPv4 and IPv6 resolver addresses")));
                }
            },
            None => {
                family = Some(parsed_addr.family);
            },
        }
        let ghost before = parsed@;
        parsed.push(parsed_addr);
        assert(parsed@.map_values(|h: HostPort| host_port_view(h)) =~= before.map_values(
            |h: HostPort| host_port_view(h),
        ).push(host_port_view(parsed_addr)));
        i += 1;
    }
    assert(all.subrange(0, i as int) =~= all);
    Ok(parsed)
}

proof fn lemma_resolver_err_persists(all: Seq<Seq<char>>, k: int)
    requires
        0 <= k <= all.len(),
        resolvers_in_order(all.subrange(0, k)) is Err,
    ensures
        resolvers_in_order(all) == resolvers_in_order(all.subrange(0, k)),
    decreases all.len(),
{
    if all.len() == k {
        assert(all.subrange(0, k) =~= all);
    } else {
        assert(all.drop_last().subrange(0, k) =~= all.subrange(0, k));
        lemma_resolver_err_persists(all.drop_last(), k);
    }
}

proof fn lemma_in_order_uniform(addrs: Seq<Seq<char>>)
    ensures
        resolvers_in_order(addrs) matches Ok(v) ==> v.len() == addrs.len() && forall|i: int, j: int|
            0 <= i < v.len() && 0 <= j < v.len() ==> (#[trigger] v[i]).2 == (#[trigger] v[j]).2,
    decreases addrs.len(),
{
    if addrs.len() > 0 {
        lemma_in_order_uniform(addrs.drop_last());
    }
}

/// A resolver set is never empty and never mixes address families.
pub proof fn lemma_resolver_family_uniform(addrs: Seq<Seq<char>>)
    ensures
        resolver_set(addrs) matches Ok(v) ==> v.len() >= 1 && forall|i: int, j: int|
            0 <= i < v.len() && 0 <= j < v.len() ==> (#[trigger] v[i]).2 == (#[trigger] v[j]).2,
{
    lemma_in_order_uniform(addrs);
}


// ---------------------------------------------------------------------------
// Resolution results
// ---------------------------------------------------------------------------

/// Index of the first address of `family` among the families of looked-up
/// addresses, in the order the lookup returned them.
pub fn first_of_family(families: &[AddressFamily], family: AddressFamily) -> (r: Option<usize>)
    ensures
        match r {
            Some(i) => i < families@.len() && families@[i as int] == family && forall|j: int|
                0 <= j < i ==> families@[j] != family,
            None => forall|j: int| 0 <= j < families@.len() ==> families@[j] != family,
        },
{
    let mut i: usize = 0;
    while i < families.len()
        invariant
            i <= families@.len(),
            forall|j: int| 0 <= j < i ==> families@[j] != family,
        decreases families@.len() - i,
    {
        if families[i] == family {
            return Some(i);
        }
        i += 1;
    }
    None
}

pub open spec fn family_name(f: AddressFamily) -> Seq<char> {
    match f {
        AddressFamily::V4 => "IPv4"@,
        AddressFamily::V6 => "IPv6"@,
    }
}

pub open spec fn digit_char(d: nat) -> char {
    if d == 0 {
        '0'
    } else if d == 1 {
        '1'
    } else if d == 2 {
        '2'
    } else if d == 3 {
        '3'
    } else if d == 4 {
        '4'
    } else if d == 5 {
        '5'
    } else if d == 6 {
        '6'
    } else if d == 7 {
        '7'
    } else if d == 8 {
        '8'
    } else {
        '9'
    }
}

/// `n` in decimal, without leading zeros.
pub open spec fn dec_str(n: nat) -> Seq<char>
    decreases n,
{
    if n < 10 {
        seq![digit_char(n)]
    } else {
        dec_str(n / 10).push(digit_char(n % 10))
    }
}

/// The text a name lookup is asked for: `host:port`, or `[host]:port` for IPv6.
pub open spec fn lookup_text(host: Seq<char>, port: u16, family: AddressFamily) -> Seq<char> {
    match family {
        AddressFamily::V4 => host + ":"@ + dec_str(port as nat),
        AddressFamily::V6 => "["@ + host + "]:"@ + dec_str(port as nat),
    }
}

fn digit_str(d: u16) -> (r: &'static str)
    requires
        d < 10,
    ensures
        r@ == seq![digit_char(d as nat)],
{
    proof {
        reveal_strlit("0");
        reveal_strlit("1");
        reveal_strlit("2");
        reveal_strlit("3");
        reveal_strlit("4");
        reveal_strlit("5");
        reveal_strlit("6");
        reveal_strlit("7");
        reveal_strlit("8");
        reveal_strlit("9");
    }
    if d == 0 {
        "0"
    } else if d == 1 {
        "1"
    } else if d == 2 {
        "2"
    } else if d == 3 {
        "3"
    } else if d == 4 {
        "4"
    } else if d == 5 {
        "5"
    } else if d == 6 {
        "6"
    } else if d == 7 {
        "7"
    } else if d == 8 {
        "8"
    } else {
        "9"
    }
}

fn append_dec(s: &mut String, n: u16)
    ensures
        final(s)@ == old(s)@ + dec_str(n as nat),
    decreases n,
{
    if n >= 10 {
        append_dec(s, n / 10);
    }
    s.append(digit_str(n % 10));
    assert(final(s)@ =~= old(s)@ + dec_str(n as nat));
}

/// The text to hand a name lookup for `address`.
pub fn lookup_target(address: &HostPort) -> (r: String)
    ensures
        r@ == lookup_text(address.host@, address.port, address.family),
{
    let mut s = match address.family {
        AddressFamily::V4 => {
            let mut s = String::from_str(address.host.as_str());
            s.append(":");
            s
        },
        AddressFamily::V6 => {
            let mut s = String::from_str("[");
            s.append(address.host.as_str());
            s.append("]:");
            s
        },
    };
    append_dec(&mut s, address.port);
    s
}

/// The error for a host whose lookup failed.
pub fn cannot_resolve_error(host: &str) -> (r: ConfigError)
    ensures
        r.spec_message() == "Cannot resolve "@ + host@,
{
    let mut m = String::from_str("Cannot resolve ");
    m.append(host);
    ConfigError::new(m)
}

/// The error for a host whose lookup gave no address of `family`.
pub fn no_address_error(family: AddressFamily, host: &str) -> (r: ConfigError)
    ensures
        r.spec_message() == "No "@ + family_name(family) + " address found for "@ + host@,
{
    let f = match family {
        AddressFamily::V4 => "IPv4",
        AddressFamily::V6 => "IPv6",
    };
    ConfigError::new(cat4("No ", f, " address found for ", host))
}

} // verus!
