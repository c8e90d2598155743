//! Startup options: the configuration file's fields, and the parsing of
//! the addresses, prefixes and ports written in it.
use vstd::prelude::*;
use vstd::arithmetic::power2::pow2;
use vstd::string::StringSliceAdditionalSpecFns;
use vstd::utf8::encode_utf8;
use crate::endpoint::Endpoint;
use crate::routing::host_span;

verus! {

/// Why an option could not be read.
#[derive(Clone, Copy, Debug, PartialEq, Eq, Structural)]
pub enum ParseError {
    /// Not a dotted-quad IPv4 address.
    BadAddress,
    /// Not a prefix length from 0 to 32.
    BadPrefix,
    /// Not a port number.
    BadPort,
    /// Not an MTU.
    BadMtu,
}

pub open spec fn is_digit(b: u8) -> bool {
    48 <= b <= 57
}

pub open spec fn all_digits(s: Seq<u8>) -> bool {
    forall|i: int| 0 <= i < s.len() ==> is_digit(#[trigger] s[i])
}

/// The number that a string of decimal digits writes.
pub open spec fn dec_value(s: Seq<u8>) -> int
    decreases s.len(),
{
    if s.len() == 0 {
        0
    } else {
        dec_value(s.drop_last()) * 10 + (s.last() - 48)
    }
}

/// A non-empty run of decimal digits writing a number up to `bound`.
pub open spec fn digits_field(s: Seq<u8>, bound: int) -> Option<int> {
    if s.len() > 0 && all_digits(s) && dec_value(s) <= bound {
        Some(dec_value(s))
    } else {
        None
    }
}

/// A decimal number up to `bound`, with an optional leading `+`.
pub open spec fn dec_field(s: Seq<u8>, bound: int) -> Option<int> {
    if s.len() > 0 && s[0] == 43 {
        digits_field(s.skip(1), bound)
    } else {
        digits_field(s, bound)
    }
}

/// An MTU as written: a decimal number from `i32::MIN` to `i32::MAX`, with
/// an optional leading `+` or `-`.
pub open spec fn mtu_of(s: Seq<u8>) -> Option<int> {
    if s.len() > 0 && s[0] == 45 {
        match digits_field(s.skip(1), 0x8000_0000) {
            Some(v) => Some(-v),
            None => None,
        }
    } else {
        dec_field(s, 0x7fff_ffff)
    }
}

/// An octet of a dotted quad: one to three digits, no leading zero, at most 255.
pub open spec fn octet(s: Seq<u8>) -> Option<int> {
    if s.len() <= 3 && !(s.len() > 1 && s[0] == 48) {
        digits_field(s, 255)
    } else {
        None
    }
}

/// The first index from `from` on that holds `c`, or the length.
pub open spec fn find_from(s: Seq<u8>, from: int, c: u8) -> int
    decreases s.len() - from,
{
    if from < 0 || from >= s.len() {
        s.len() as int
    } else if s[from] == c {
        from
    } else {
        find_from(s, from + 1, c)
    }
}

/// The IPv4 address that a dotted quad writes.
pub open spec fn ipv4_of(s: Seq<u8>) -> Option<u32> {
    let dot1 = find_from(s, 0, 46);
    let dot2 = find_from(s, dot1 + 1, 46);
    let dot3 = find_from(s, dot2 + 1, 46);
    let dot4 = find_from(s, dot3 + 1, 46);
    if dot3 < s.len() && dot4 == s.len() {
        match (
            octet(s.subrange(0, dot1)),
            octet(s.subrange(dot1 + 1, dot2)),
            octet(s.subrange(dot2 + 1, dot3)),
            octet(s.subrange(dot3 + 1, dot4)),
        ) {
            (Some(a), Some(b), Some(c), Some(d)) => Some(
                (a * 0x100_0000 + b * 0x1_0000 + c * 0x100 + d) as u32,
            ),
            _ => None,
        }
    } else {
        None
    }
}

/// The address and netmask that `ip[/prefix]` writes; without a prefix
/// the netmask is that of a single host.
pub open spec fn ip_cidr_of(s: Seq<u8>) -> Result<(u32, u32), ParseError> {
    let p = find_from(s, 0, 47);
    match ipv4_of(s.subrange(0, p)) {
        None => Err(ParseError::BadAddress),
        Some(ip) => if p < s.len() {
            match dec_field(s.subrange(p + 1, find_from(s, p + 1, 47)), 32) {
                Some(c) => Ok((ip, netmask(c as nat) as u32)),
                None => Err(ParseError::BadPrefix),
            }
        } else {
            Ok((ip, netmask(32) as u32))
        },
    }
}

/// The IPv4 endpoint that `ip:port` writes; a bare `port` stands for
/// `0.0.0.0:port`.
pub open spec fn ip_port_of(s: Seq<u8>) -> Result<Endpoint, ParseError> {
    let p = find_from(s, 0, 58);
    if p < s.len() {
        match ipv4_of(s.subrange(0, p)) {
            None => Err(ParseError::BadAddress),
            Some(ip) => match dec_field(s.subrange(p + 1, find_from(s, p + 1, 58)), 65535) {
                Some(port) => Ok(Endpoint::v4_spec(ip, port as u16)),
                None => Err(ParseError::BadPort),
            },
        }
    } else {
        match dec_field(s, 65535) {
            Some(port) => Ok(Endpoint::v4_spec(0, port as u16)),
            None => Err(ParseError::BadPort),
        }
    }
}

/// The netmask of a prefix length: its `cidr` high bits set.
pub open spec fn netmask(cidr: nat) -> int {
    pow2(32) - pow2((32 - cidr) as nat)
}

proof fn lemma_dec_nonneg(s: Seq<u8>)
    requires
        all_digits(s),
    ensures
        dec_value(s) >= 0,
    decreases s.len(),
{
    if s.len() > 0 {
        let t = s.drop_last();
        assert forall|i: int| 0 <= i < t.len() implies is_digit(#[trigger] t[i]) by {
            assert(t[i] == s[i]);
        }
        lemma_dec_nonneg(t);
        assert(is_digit(s[s.len() - 1]));
    }
}

/// A run of digits writes at least what any of its prefixes writes.
proof fn lemma_dec_grows(s: Seq<u8>, n: int, bound: int)
    requires
        all_digits(s),
        0 <= n <= s.len(),
        dec_value(s.subrange(0, n)) > bound,
    ensures
        dec_value(s) > bound,
    decreases s.len(),
{
    if n == s.len() {
        assert(s.subrange(0, n) =~= s);
    } else {
        let t = s.drop_last();
        assert(t.subrange(0, n) =~= s.subrange(0, n));
        assert(all_digits(t)) by {
            assert forall|i: int| 0 <= i < t.len() implies is_digit(#[trigger] t[i]) by {
                assert(t[i] == s[i]);
            }
        }
        lemma_dec_grows(t, n, bound);
        lemma_dec_nonneg(t);
        assert(is_digit(s[s.len() - 1]));
    }
}

/// The position of the first `c` in `s` at or after `from`, or its length.
fn find_byte(s: &[u8], from: usize, c: u8) -> (r: usize)
    requires
        from <= s@.len(),
    ensures
        r == find_from(s@, from as int, c),
        from <= r <= s@.len(),
{
    let mut i = from;
    while i < s.len()
        invariant
            from <= i <= s@.len(),
            find_from(s@, from as int, c) == find_from(s@, i as int, c),
        decreases s.len() - i,
    {
        if s[i] == c {
            return i;
        }
        i = i + 1;
    }
    i
}

/// Reads the decimal number in `s[lo..hi]`, an optional `+` then digits,
/// if it is one up to `bound`.
fn parse_dec(s: &[u8], lo: usize, hi: usize, bound: u32) -> (r: Option<u32>)
    requires
        lo <= hi <= s@.len(),
        bound >= 9,
    ensures
        r matches Some(v) ==> dec_field(s@.subrange(lo as int, hi as int), bound as int) == Some(v as int),
        r is None ==> dec_field(s@.subrange(lo as int, hi as int), bound as int) is None,
{
    if lo < hi && s[lo] == 43 {
        proof {
            assert(s@.subrange(lo as int, hi as int).skip(1) =~= s@.subrange(lo + 1, hi as int));
        }
        parse_digits(s, lo + 1, hi, bound)
    } else {
        parse_digits(s, lo, hi, bound)
    }
}

/// Reads the run of digits in `s[lo..hi]`, if it writes a number up to `bound`.
fn parse_digits(s: &[u8], lo: usize, hi: usize, bound: u32) -> (r: Option<u32>)
    requires
        lo <= hi <= s@.len(),
        bound >= 9,
    ensures
        r matches Some(v) ==> digits_field(s@.subrange(lo as int, hi as int), bound as int) == Some(v as int),
        r is None ==> digits_field(s@.subrange(lo as int, hi as int), bound as int) is None,
{
    if lo == hi {
        return None;
    }
    let mut acc: u32 = 0;
    let mut i = lo;
    while i < hi
        invariant
            lo <= i <= hi <= s@.len(),
            all_digits(s@.subrange(lo as int, i as int)),
            acc <= bound,
            bound >= 9,
            acc == dec_value(s@.subrange(lo as int, i as int)),
        decreases hi - i,
    {
        let b = s[i];
        let ghost pre = s@.subrange(lo as int, i as int);
        let ghost next = s@.subrange(lo as int, i + 1);
        assert(next.drop_last() =~= pre);
        if b < 48 || b > 57 {
            assert(!all_digits(s@.subrange(lo as int, hi as int)) ) by {
                assert(s@.subrange(lo as int, hi as int)[i - lo] == b);
            }
            return None;
        }
        let d: u32 = (b - 48) as u32;
        assert(d <= 9);
        if acc > (bound - d) / 10 {
            assert(dec_value(next) > bound) by (nonlinear_arith)
                requires
                    dec_value(next) == acc * 10 + d,
                    acc > (bound - d) / 10,
                    d <= 9,
                    d <= bound,
            {
            }
            proof {
                if all_digits(s@.subrange(lo as int, hi as int)) {
                    assert(s@.subrange(lo as int, hi as int).subrange(0, i + 1 - lo) =~= next);
                    lemma_dec_grows(s@.subrange(lo as int, hi as int), (i + 1 - lo) as int, bound as int);
                }
            }
            return None;
        }
        acc = acc * 10 + d;
        i = i + 1;
    }
    Some(acc)
}

/// Reads an octet of a dotted quad in `s[lo..hi]`.
fn parse_octet(s: &[u8], lo: usize, hi: usize) -> (r: Option<u32>)
    requires
        lo <= hi <= s@.len(),
    ensures
        r matches Some(v) ==> octet(s@.subrange(lo as int, hi as int)) == Some(v as int),
        r is None ==> octet(s@.subrange(lo as int, hi as int)) is None,
        r matches Some(v) ==> v <= 255,
{
    if hi - lo > 3 || (hi - lo > 1 && s[lo] == 48) {
        return None;
    }
    parse_digits(s, lo, hi, 255)
}

/// Reads a dotted-quad IPv4 address.
pub fn parse_ipv4(s: &[u8]) -> (r: Option<u32>)
    ensures
        r == ipv4_of(s@),
{
    let dot1 = find_byte(s, 0, 46);
    if dot1 >= s.len() {
        return None;
    }
    let dot2 = find_byte(s, dot1 + 1, 46);
    if dot2 >= s.len() {
        return None;
    }
    let dot3 = find_byte(s, dot2 + 1, 46);
    if dot3 >= s.len() {
        return None;
    }
    let dot4 = find_byte(s, dot3 + 1, 46);
    if dot4 < s.len() {
        return None;
    }
    let a = parse_octet(s, 0, dot1);
    let b = parse_octet(s, dot1 + 1, dot2);
    let c = parse_octet(s, dot2 + 1, dot3);
    let d = parse_octet(s, dot3 + 1, dot4);
    match (a, b, c, d) {
        (Some(a), Some(b), Some(c), Some(d)) => Some(a * 0x100_0000 + b * 0x1_0000 + c * 0x100 + d),
        _ => None,
    }
}

/// The netmask of a prefix length of at most 32.
pub fn cidr_to_netmask(cidr: u8) -> (r: u32)
    requires
        cidr <= 32,
    ensures
        r == netmask(cidr as nat),
{
    let d = host_span(cidr);
    proof {
        vstd::arithmetic::power2::lemma2_to64();
        vstd::arithmetic::power2::lemma_pow2_strictly_increases((32 - cidr) as nat, 33);
    }
    (0x1_0000_0000u64 - d) as u32
}

/// Reads `ip[/prefix]`: an IPv4 address and the netmask of its prefix.
pub fn split_ip_cidr(s: &str) -> (r: Result<(u32, u32), ParseError>)
    ensures
        r == ip_cidr_of(s.spec_bytes()),
{
    let b = s.as_bytes();
    let p = find_byte(b, 0, 47);
    let ip = match parse_ipv4(vstd::slice::slice_subrange(b, 0, p)) {
        None => return Err(ParseError::BadAddress),
        Some(ip) => ip,
    };
    if p < b.len() {
        let q = find_byte(b, p + 1, 47);
        match parse_dec(b, p + 1, q, 32) {
            Some(c) => Ok((ip, cidr_to_netmask(c as u8))),
            None => Err(ParseError::BadPrefix),
        }
    } else {
        Ok((ip, cidr_to_netmask(32)))
    }
}

/// Reads `ip:port`, or a bare `port` on the unspecified address.
pub fn split_ip_port(s: &str) -> (r: Result<Endpoint, ParseError>)
    ensures
        r == ip_port_of(s.spec_bytes()),
{
    let b = s.as_bytes();
    let p = find_byte(b, 0, 58);
    if p < b.len() {
        let ip = match parse_ipv4(vstd::slice::slice_subrange(b, 0, p)) {
            None => return Err(ParseError::BadAddress),
            Some(ip) => ip,
        };
        let q = find_byte(b, p + 1, 58);
        match parse_dec(b, p + 1, q, 65535) {
            Some(port) => Ok(Endpoint::v4(ip, port as u16)),
            None => Err(ParseError::BadPort),
        }
    } else {
        proof {
            assert(b@.subrange(0, b@.len() as int) =~= b@);
        }
        match parse_dec(b, 0, b.len(), 65535) {
            Some(port) => Ok(Endpoint::v4(0, port as u16)),
            None => Err(ParseError::BadPort),
        }
    }
}

/// The default interface mode: `tun`.
pub fn tun_mode_default() -> (r: String)
    ensures
        r@ == seq!['t', 'u', 'n'],
{
    let r = "tun".to_owned();
    proof {
        reveal_strlit("tun");
    }
    r
}

/// The default interface name: empty, so that the system picks one.
pub fn tun_name_default() -> (r: String)
    ensures
        r@ == Seq::<char>::empty(),
{
    String::new()
}

/// The fields of a configuration file, as written.
#[derive(Clone, Debug)]
pub struct Config {
    pub tun_name: String,
    pub tun_ip_cidr: Option<String>,
    pub tun_mode: String,
    pub listen: String,
    pub mtu: Option<i32>,
}

/// The options a tunnel starts with.
#[derive(Debug)]
pub struct Command {
    pub tun_name: String,
    /// Address and netmask of the interface, if any.
    pub tun_ip_cidr: Option<(u32, u32)>,
    pub tun_mode: String,
    pub listen: Endpoint,
    pub mtu: i32,
}

/// The error in a configuration, if any: first its address, then its
/// listening address.
pub open spec fn config_error(config: &Config) -> Option<ParseError> {
    match config.tun_ip_cidr {
        Some(c) if ip_cidr_of(encode_utf8(c@)) is Err => Some(ip_cidr_of(encode_utf8(c@))->Err_0),
        _ => match ip_port_of(encode_utf8(config.listen@)) {
            Err(e) => Some(e),
            Ok(_) => None,
        },
    }
}

/// The error in command-line options, if any, in the order they are read.
pub open spec fn args_error(tun_ip: Option<String>, listen: Option<String>, mtu: Option<String>) -> Option<ParseError> {
    match tun_ip {
        Some(c) if ip_cidr_of(encode_utf8(c@)) is Err => Some(ip_cidr_of(encode_utf8(c@))->Err_0),
        _ => match listen {
            Some(l) if ip_port_of(encode_utf8(l@)) is Err => Some(ip_port_of(encode_utf8(l@))->Err_0),
            _ => match mtu {
                Some(m) if mtu_of(encode_utf8(m@)) is None => Some(ParseError::BadMtu),
                _ => None,
            },
        },
    }
}

/// Whether the bytes spell `tap`.
pub open spec fn is_tap(s: Seq<u8>) -> bool {
    s == seq![116u8, 97u8, 112u8]
}

/// Reads an MTU: a decimal number that fits in an `i32`, with an optional sign.
pub fn parse_mtu(s: &str) -> (r: Result<i32, ParseError>)
    ensures
        r matches Ok(m) ==> mtu_of(s.spec_bytes()) == Some(m as int),
        r is Err ==> r == Err::<i32, ParseError>(ParseError::BadMtu) && mtu_of(s.spec_bytes()) is None,
{
    let b = s.as_bytes();
    proof {
        assert(b@.subrange(0, b@.len() as int) =~= b@);
        assert(b@.skip(1) =~= b@.subrange(1, b@.len() as int));
    }
    if b.len() > 0 && b[0] == 45 {
        match parse_digits(b, 1, b.len(), 0x8000_0000) {
            Some(m) => Ok((0i64 - m as i64) as i32),
            None => Err(ParseError::BadMtu),
        }
    } else {
        match parse_dec(b, 0, b.len(), 0x7fff_ffff) {
            Some(m) => Ok(m as i32),
            None => Err(ParseError::BadMtu),
        }
    }
}

fn spells_tap(s: &str) -> (r: bool)
    ensures
        r == is_tap(s.spec_bytes()),
{
    let b = s.as_bytes();
    if b.len() != 3 {
        return false;
    }
    let r = b[0] == 116 && b[1] == 97 && b[2] == 112;
    proof {
        if r {
            assert(b@ =~= seq![116u8, 97u8, 112u8]);
        }
    }
    r
}

impl Command {
    /// The defaults: an interface named by the system, in `tun` mode and
    /// without an address, listening on 0.0.0.0:55001, MTU 1400.
    pub fn new() -> (r: Command)
        ensures
            r.tun_name@ == Seq::<char>::empty(),
            r.tun_ip_cidr is None,
            r.tun_mode@ == seq!['t', 'u', 'n'],
            r.listen == Endpoint::v4_spec(0, 55001),
            r.mtu == 1400,
    {
        Command {
            tun_name: tun_name_default(),
            tun_ip_cidr: None,
            tun_mode: tun_mode_default(),
            listen: Endpoint::v4(0, 55001),
            mtu: 1400,
        }
    }

    /// Takes the options of a configuration file: its name, mode and
    /// listening address replace the current ones, its address and MTU do
    /// where they are given.
    pub fn apply_config(self, config: &Config) -> (r: Result<Command, ParseError>)
        ensures
            r is Err <==> config_error(config) is Some,
            r matches Err(e) ==> config_error(config) == Some(e),
            r matches Ok(c) ==> {
                &&& c.tun_name@ == config.tun_name@
                &&& c.tun_mode@ == config.tun_mode@
                &&& c.mtu == match config.mtu {
                    Some(m) => m,
                    None => self.mtu,
                }
                &&& c.tun_ip_cidr == match config.tun_ip_cidr {
                    Some(s) => Some(ip_cidr_of(encode_utf8(s@))->Ok_0),
                    None => self.tun_ip_cidr,
                }
                &&& ip_port_of(encode_utf8(config.listen@)) == Ok::<Endpoint, ParseError>(c.listen)
            },
    {
        let tun_ip_cidr = match &config.tun_ip_cidr {
            Some(c) => match split_ip_cidr(c.as_str()) {
                Ok(v) => Some(v),
                Err(e) => return Err(e),
            },
            None => self.tun_ip_cidr,
        };
        let listen = match split_ip_port(config.listen.as_str()) {
            Ok(e) => e,
            Err(e) => return Err(e),
        };
        let mtu = match config.mtu {
            Some(m) => m,
            None => self.mtu,
        };
        Ok(Command {
            tun_name: config.tun_name.clone(),
            tun_ip_cidr,
            tun_mode: config.tun_mode.clone(),
            listen,
            mtu,
        })
    }

    /// Takes the command-line options that were given: each replaces the
    /// current value; a mode other than `tap` leaves the mode as it is.
    pub fn apply_args(
        self,
        tun_name: Option<String>,
        tun_ip: Option<String>,
        mode: Option<String>,
        listen: Option<String>,
        mtu: Option<String>,
    ) -> (r: Result<Command, ParseError>)
        ensures
            r is Err <==> args_error(tun_ip, listen, mtu) is Some,
            r matches Err(e) ==> args_error(tun_ip, listen, mtu) == Some(e),
            r matches Ok(c) ==> {
                &&& c.tun_name@ == match tun_name {
                    Some(n) => n@,
                    None => self.tun_name@,
                }
                &&& c.tun_ip_cidr == match tun_ip {
                    Some(t) => Some(ip_cidr_of(encode_utf8(t@))->Ok_0),
                    None => self.tun_ip_cidr,
                }
                &&& c.tun_mode@ == match mode {
                    Some(m) if is_tap(encode_utf8(m@)) => m@,
                    _ => self.tun_mode@,
                }
                &&& c.listen == match listen {
                    Some(l) => ip_port_of(encode_utf8(l@))->Ok_0,
                    None => self.listen,
                }
                &&& c.mtu as int == match mtu {
                    Some(m) => mtu_of(encode_utf8(m@))->Some_0,
                    None => self.mtu as int,
                }
            },
    {
        let mut cmd = self;
        if let Some(n) = tun_name {
            cmd.tun_name = n;
        }
        if let Some(t) = &tun_ip {
            match split_ip_cidr(t.as_str()) {
                Ok(v) => {
                    cmd.tun_ip_cidr = Some(v);
                },
                Err(e) => return Err(e),
            }
        }
        if let Some(m) = mode {
            if spells_tap(m.as_str()) {
                cmd.tun_mode = m;
            }
        }
        if let Some(l) = &listen {
            match split_ip_port(l.as_str()) {
                Ok(e) => {
                    cmd.listen = e;
                },
                Err(e) => return Err(e),
            }
        }
        if let Some(m) = &mtu {
            match parse_mtu(m.as_str()) {
                Ok(v) => {
                    cmd.mtu = v;
                },
                Err(e) => return Err(e),
            }
        }
        Ok(cmd)
    }
}

} // verus!
