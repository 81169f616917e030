//! Addresses of NATS servers and of their monitoring endpoints.
use vstd::prelude::*;
use vstd::string::*;

verus! {

/// The decimal digit for a number below ten.
pub open spec fn digit(n: nat) -> char {
    (48 + n) as char
}

/// A number in decimal notation, without leading zeros.
pub open spec fn decimal(n: nat) -> Seq<char>
    decreases n,
{
    if n < 10 {
        seq![digit(n)]
    } else {
        decimal(n / 10).push(digit(n % 10))
    }
}

/// The number that a sequence of decimal digits denotes.
pub open spec fn decimal_value(s: Seq<char>) -> int
    decreases s.len(),
{
    if s.len() == 0 {
        0
    } else {
        10 * decimal_value(s.drop_last()) + (s.last() as int - 48)
    }
}

/// A host and a port, as `host:port`.
pub open spec fn host_port(host: Seq<char>, port: nat) -> Seq<char> {
    host + ":"@ + decimal(port)
}

/// The URL of a monitoring endpoint of a server.
pub open spec fn endpoint_url(host: Seq<char>, port: nat, endpoint: Seq<char>) -> Seq<char> {
    "http://"@ + host_port(host, port) + "/"@ + endpoint
}

fn decimal_string(n: u16) -> (s: String)
    ensures
        s@ == decimal(n as nat),
    decreases n,
{
    let mut s = if n < 10 {
        String::new()
    } else {
        decimal_string(n / 10)
    };
    let last: u16 = n % 10;
    let ghost before = s@;
    let d = match last {
        0 => "0",
        1 => "1",
        2 => "2",
        3 => "3",
        4 => "4",
        5 => "5",
        6 => "6",
        7 => "7",
        8 => "8",
        _ => "9",
    };
    proof {
        reveal_strlit("0");
        reveal_strlit("1");
        reveal_strlit("2");
        reveal_strlit("3");
        reveal_strlit("4");
        reveal_strlit("5");
        reveal_strlit("6");
        reveal_strlit("7");
        reveal_strlit("8");
        reveal_strlit("9");
        assert(d@ == seq![digit(last as nat)]);
        assert(before + d@ == before.push(digit(last as nat)));
    }
    s.append(d);
    assert(n < 10 ==> s@ == seq![digit(n as nat)]);
    s
}

/// The address under which a client reaches a server.
pub fn server_address(hostname: &str, port: u16) -> (address: String)
    ensures
        address@ == host_port(hostname@, port as nat),
{
    let mut address = hostname.to_owned();
    address.append(":");
    address.append(decimal_string(port).as_str());
    address
}

/// The URL of a monitoring endpoint.
pub fn monitoring_url(host: &str, port: u16, endpoint: &str) -> (url: String)
    ensures
        url@ == endpoint_url(host@, port as nat, endpoint@),
{
    let mut url = "http://".to_owned();
    url.append(server_address(host, port).as_str());
    url.append("/");
    url.append(endpoint);
    url
}

/// The URL that lists the subscriptions of a server.
pub fn subsz_url(host: &str, port: u16) -> (url: String)
    ensures
        url@ == endpoint_url(host@, port as nat, "subsz?subs=true"@),
{
    monitoring_url(host, port, "subsz?subs=true")
}

/// A number can be read back from its decimal notation, which holds digits only.
pub proof fn law_decimal_reads_back(n: nat)
    ensures
        decimal_value(decimal(n)) == n,
        decimal(n).len() > 0,
        forall|i: int| 0 <= i < decimal(n).len() ==> '0' <= #[trigger] decimal(n)[i] <= '9',
    decreases n,
{
    if n < 10 {
        assert(decimal(n).drop_last() == Seq::<char>::empty());
        assert(decimal_value(Seq::empty()) == 0);
    } else {
        law_decimal_reads_back(n / 10);
        assert(decimal(n).drop_last() == decimal(n / 10));
        assert forall|i: int| 0 <= i < decimal(n).len() implies '0' <= #[trigger] decimal(n)[i]
            <= '9' by {
            if i < decimal(n / 10).len() {
                assert(decimal(n)[i] == decimal(n / 10)[i]);
            }
        }
    }
}

/// The decimal notation of a number has no leading zero, but for zero itself, which is one digit.
pub proof fn law_decimal_has_no_leading_zero(n: nat)
    ensures
        n == 0 ==> decimal(n) == seq!['0'],
        n > 0 ==> decimal(n)[0] != '0',
    decreases n,
{
    if n >= 10 {
        law_decimal_has_no_leading_zero(n / 10);
        law_decimal_reads_back(n / 10);
    }
}

/// An address begins with the host, whatever it is; then comes a colon, and then the port, in
/// digits that read back as the port and do not begin with a needless zero.
pub proof fn law_address_is_host_colon_port(host: Seq<char>, port: nat)
    ensures
        ({
            let address = host_port(host, port);
            let n = host.len() as int;
            let digits = address.skip(n + 1);
            &&& address.len() > n + 1
            &&& address.take(n) == host
            &&& address[n] == ':'
            &&& forall|i: int| 0 <= i < digits.len() ==> '0' <= #[trigger] digits[i] <= '9'
            &&& decimal_value(digits) == port
            &&& digits.len() > 1 ==> digits[0] != '0'
        }),
{
    reveal_strlit(":");
    law_decimal_reads_back(port);
    law_decimal_has_no_leading_zero(port);
    let address = host_port(host, port);
    let n = host.len() as int;
    assert(address.take(n) == host);
    assert(address.skip(n + 1) == decimal(port));
}

/// The URL of an endpoint is that of plain HTTP at the address of the server, with the endpoint,
/// whatever it is, as its path.
pub proof fn law_url_is_address_and_endpoint(host: Seq<char>, port: nat, endpoint: Seq<char>)
    ensures
        ({
            let url = endpoint_url(host, port, endpoint);
            let address = host_port(host, port);
            let n = address.len() as int;
            &&& url.len() == n + 8 + endpoint.len()
            &&& url.take(7) == seq!['h', 't', 't', 'p', ':', '/', '/']
            &&& url.subrange(7, 7 + n) == address
            &&& url[7 + n] == '/'
            &&& url.skip(8 + n) == endpoint
        }),
{
    reveal_strlit("http://");
    reveal_strlit("/");
    let url = endpoint_url(host, port, endpoint);
    let address = host_port(host, port);
    let n = address.len() as int;
    assert(url.take(7) == seq!['h', 't', 't', 'p', ':', '/', '/']);
    assert(url.subrange(7, 7 + n) == address);
    assert(url.skip(8 + n) == endpoint);
}

/// No two pairs of a host and a port share an address.
pub proof fn law_address_determines_host_and_port(
    host1: Seq<char>,
    port1: nat,
    host2: Seq<char>,
    port2: nat,
)
    requires
        host_port(host1, port1) == host_port(host2, port2),
    ensures
        host1 == host2,
        port1 == port2,
{
    reveal_strlit(":");
    law_decimal_reads_back(port1);
    law_decimal_reads_back(port2);
    let d1 = decimal(port1);
    let d2 = decimal(port2);
    let a1 = host_port(host1, port1);
    let a2 = host_port(host2, port2);
    assert(a1.len() == host1.len() + 1 + d1.len());
    assert(a2.len() == host2.len() + 1 + d2.len());
    if host1.len() < host2.len() {
        assert(a2[host2.len() as int] == ':');
        assert(a1[host2.len() as int] == d1[host2.len() - host1.len() - 1]);
    } else if host2.len() < host1.len() {
        assert(a1[host1.len() as int] == ':');
        assert(a2[host1.len() as int] == d2[host1.len() - host2.len() - 1]);
    }
    assert(host1 == a1.take(host1.len() as int));
    assert(host2 == a2.take(host2.len() as int));
    assert(d1 == a1.skip(host1.len() as int + 1));
    assert(d2 == a2.skip(host2.len() as int + 1));
}

} // verus!
