//! Node addresses: the `NODE_ADDRESS:PORT` grammar, the optional `http://`
//! and `https://` prefixes, and the order in which a bare address is tried.

use vstd::prelude::*;
use crate::number::{decimal, decimal_reads_back, lemma_decimal_chars, parse_unsigned, push_decimal, parse_unsigned_chars};
use crate::text::{
    chars_of, copy_range, is_white_space, last_index_of, lemma_last_index_of, rfind_char,
    starts_with, starts_with_chars, string_from_chars, trim, trim_chars, trim_end, trim_end_char,
    trim_end_char_chars, trim_start,
};

verus! {

/// How a node is reached.
#[derive(Clone, Copy, Debug, PartialEq, Eq, Structural)]
pub enum Scheme {
    Tls,
    Plain,
}

/// One way of reaching a node: a transport, a host name and a port.
#[derive(Clone, Debug)]
pub struct Endpoint {
    pub scheme: Scheme,
    pub host: String,
    pub port: u16,
}

/// An endpoint as plain values: transport, host name, port.
pub type EndpointModel = (Scheme, Seq<char>, u16);

impl View for Endpoint {
    type V = EndpointModel;

    open spec fn view(&self) -> EndpointModel {
        (self.scheme, self.host@, self.port)
    }
}

/// The name of a transport as it appears in a label.
pub open spec fn scheme_name(scheme: Scheme) -> Seq<char> {
    match scheme {
        Scheme::Tls => "tls"@,
        Scheme::Plain => "tcp"@,
    }
}

/// `scheme://host:port`, with `tls` or `tcp` as the scheme.
pub open spec fn endpoint_label(e: EndpointModel) -> Seq<char> {
    scheme_name(e.0) + "://"@ + e.1 + ":"@ + decimal(e.2 as nat)
}

impl Endpoint {
    /// The endpoint's label, `scheme://host:port`.
    pub fn label(&self) -> (r: String)
        ensures
            r@ == endpoint_label(self@),
    {
        let mut r = match self.scheme {
            Scheme::Tls => String::from_str("tls"),
            Scheme::Plain => String::from_str("tcp"),
        };
        r.append("://");
        r.append(self.host.as_str());
        r.append(":");
        push_decimal(&mut r, self.port as u64);
        r
    }

    /// The address a connection is opened to, `host:port`.
    pub fn socket_address(&self) -> (r: String)
        ensures
            r@ == self.host@ + ":"@ + decimal(self.port as nat),
    {
        let mut r = String::from_str(self.host.as_str());
        r.append(":");
        push_decimal(&mut r, self.port as u64);
        r
    }

    /// A copy of the endpoint.
    pub fn duplicate(&self) -> (r: Endpoint)
        ensures
            r@ == self@,
    {
        Endpoint { scheme: self.scheme, host: self.host.clone(), port: self.port }
    }
}

/// What `parse_host_port` gives for `input`: the host before the last `:` and
/// the port after it, once trailing slashes are removed; or the error text.
pub open spec fn host_port(input: Seq<char>) -> Result<(Seq<char>, u16), Seq<char>> {
    let input = trim_end_char(input, '/');
    match last_index_of(input, ':') {
        None => Err("expected NODE_ADDRESS:PORT, got "@ + input),
        Some(i) => {
            let host = input.take(i);
            if host.len() == 0 {
                Err("host is empty"@)
            } else {
                match parse_unsigned(input.skip(i + 1), 10, 0xffff) {
                    Ok(port) => Ok((host, port as u16)),
                    Err(_) => Err("invalid port in "@ + input),
                }
            }
        },
    }
}

/// Splits `NODE_ADDRESS:PORT` (trailing slashes ignored) at its last `:`.
pub fn parse_host_port(input: &str) -> (r: Result<(String, u16), String>)
    ensures
        match r {
            Ok((host, port)) => host_port(input@) == Ok::<(Seq<char>, u16), Seq<char>>((host@, port)),
            Err(e) => host_port(input@) == Err::<(Seq<char>, u16), Seq<char>>(e@),
        },
{
    let chars = chars_of(input);
    let input = trim_end_char_chars(&chars, '/');
    match rfind_char(&input, ':') {
        None => {
            let mut e = String::from_str("expected NODE_ADDRESS:PORT, got ");
            let rest = string_from_chars(&input);
            e.append(rest.as_str());
            Err(e)
        },
        Some(i) => {
            proof {
                crate::text::lemma_last_index_of(input@, ':');
            }
            if i == 0 {
                assert(input@.take(0) =~= Seq::<char>::empty());
                return Err(String::from_str("host is empty"));
            }
            let port_chars = copy_range(&input, i + 1, input.len());
            assert(port_chars@ =~= input@.skip(i + 1));
            match parse_unsigned_chars(&port_chars, 10, 0xffff) {
                Ok(port) => {
                    let host = copy_range(&input, 0, i);
                    assert(host@ =~= input@.take(i as int));
                    Ok((string_from_chars(&host), port as u16))
                },
                Err(_) => {
                    let mut e = String::from_str("invalid port in ");
                    let rest = string_from_chars(&input);
                    e.append(rest.as_str());
                    Err(e)
                },
            }
        },
    }
}

/// The endpoints to try for a node address, in order: with `https://` or
/// `http://` in front, just that one; for a bare `localhost` or `127.0.0.1`,
/// plain TCP on the given port, then TLS on 443; for any other bare host,
/// TLS on 443 first, then plain TCP on the given port.
pub open spec fn endpoints_for(node: Seq<char>) -> Result<Seq<EndpointModel>, Seq<char>> {
    let node = trim_end_char(trim(node), '/');
    if starts_with(node, "https://"@) {
        match host_port(node.skip("https://"@.len() as int)) {
            Ok((host, port)) => Ok(seq![(Scheme::Tls, host, port)]),
            Err(e) => Err(e),
        }
    } else if starts_with(node, "http://"@) {
        match host_port(node.skip("http://"@.len() as int)) {
            Ok((host, port)) => Ok(seq![(Scheme::Plain, host, port)]),
            Err(e) => Err(e),
        }
    } else {
        match host_port(node) {
            Ok((host, port)) => {
                if host == "localhost"@ || host == "127.0.0.1"@ {
                    Ok(seq![(Scheme::Plain, host, port), (Scheme::Tls, host, 443u16)])
                } else {
                    Ok(seq![(Scheme::Tls, host, 443u16), (Scheme::Plain, host, port)])
                }
            },
            Err(e) => Err(e),
        }
    }
}

/// The models of a list of endpoints.
pub open spec fn endpoint_models(v: Seq<Endpoint>) -> Seq<EndpointModel> {
    v.map_values(|e: Endpoint| e@)
}

/// The endpoints to try for the node address `node`, in order.
pub fn node_endpoints(node: &str) -> (r: Result<Vec<Endpoint>, String>)
    ensures
        match r {
            Ok(v) => endpoints_for(node@) == Ok::<Seq<EndpointModel>, Seq<char>>(endpoint_models(v@)),
            Err(e) => endpoints_for(node@) == Err::<Seq<EndpointModel>, Seq<char>>(e@),
        },
{
    let chars = chars_of(node);
    let trimmed = trim_chars(&chars);
    let node_chars = trim_end_char_chars(&trimmed, '/');
    let tls_prefix = chars_of("https://");
    let plain_prefix = chars_of("http://");
    if starts_with_chars(&node_chars, &tls_prefix) {
        let rest = copy_range(&node_chars, tls_prefix.len(), node_chars.len());
        assert(rest@ =~= node_chars@.skip("https://"@.len() as int));
        let rest_str = string_from_chars(&rest);
        let (host, port) = parse_host_port(rest_str.as_str())?;
        let mut v = Vec::new();
        v.push(Endpoint { scheme: Scheme::Tls, host, port });
        assert(endpoint_models(v@) =~= seq![(Scheme::Tls, host@, port)]);
        return Ok(v);
    }
    if starts_with_chars(&node_chars, &plain_prefix) {
        let rest = copy_range(&node_chars, plain_prefix.len(), node_chars.len());
        assert(rest@ =~= node_chars@.skip("http://"@.len() as int));
        let rest_str = string_from_chars(&rest);
        let (host, port) = parse_host_port(rest_str.as_str())?;
        let mut v = Vec::new();
        v.push(Endpoint { scheme: Scheme::Plain, host, port });
        assert(endpoint_models(v@) =~= seq![(Scheme::Plain, host@, port)]);
        return Ok(v);
    }
    let node_str = string_from_chars(&node_chars);
    let (host, port) = parse_host_port(node_str.as_str())?;
    let local = String::from_str("localhost");
    let loopback = String::from_str("127.0.0.1");
    let is_local = host == local || host == loopback;
    let plain = Endpoint { scheme: Scheme::Plain, host: host.clone(), port };
    let tls = Endpoint { scheme: Scheme::Tls, host: host.clone(), port: 443 };
    let mut v = Vec::new();
    if is_local {
        v.push(plain);
        v.push(tls);
        assert(endpoint_models(v@) =~= seq![(Scheme::Plain, host@, port), (Scheme::Tls, host@, 443u16)]);
    } else {
        v.push(tls);
        v.push(plain);
        assert(endpoint_models(v@) =~= seq![(Scheme::Tls, host@, 443u16), (Scheme::Plain, host@, port)]);
    }
    Ok(v)
}

/// A host and a port written as `host:port` read back as that host and port,
/// whatever the host holds (colons included), as long as it is not empty.
pub proof fn host_port_reads_back(host: Seq<char>, port: u16)
    requires
        host.len() > 0,
    ensures
        host_port(host + ":"@ + decimal(port as nat)) == Ok::<(Seq<char>, u16), Seq<char>>((host, port)),
{
    let digits = decimal(port as nat);
    let input = host + ":"@ + digits;
    reveal_strlit(":");
    lemma_decimal_chars(port as nat);
    let h = host.len() as int;
    assert(input.last() == digits.last());
    assert(trim_end_char(input, '/') == input);
    assert(input[h] == ':');
    assert forall|j: int| h < j < input.len() implies input[j] != ':' by {
        assert(input[j] == digits[j - h - 1]);
    }
    lemma_last_index_of(input, ':');
    match last_index_of(input, ':') {
        Some(i) => {
            if i < h {
                assert(input[h] != ':');
            }
        },
        None => {
            assert(input[h] != ':');
        },
    }
    assert(input.take(h) =~= host);
    assert(input.skip(h + 1) =~= digits);
    decimal_reads_back(port as nat, 0xffff);
}

/// A bare address `host:port` (nothing in front, no white space around) is
/// tried over TLS on port 443 first and then over plain TCP on the port given,
/// except for `localhost` and `127.0.0.1`, which are tried the other way round.
pub proof fn bare_address_order(host: Seq<char>, port: u16)
    requires
        host.len() > 0,
        !is_white_space(host[0]),
        !starts_with(host + ":"@ + decimal(port as nat), "https://"@),
        !starts_with(host + ":"@ + decimal(port as nat), "http://"@),
    ensures
        endpoints_for(host + ":"@ + decimal(port as nat)) == Ok::<Seq<EndpointModel>, Seq<char>>(
            if host == "localhost"@ || host == "127.0.0.1"@ {
                seq![(Scheme::Plain, host, port), (Scheme::Tls, host, 443u16)]
            } else {
                seq![(Scheme::Tls, host, 443u16), (Scheme::Plain, host, port)]
            },
        ),
{
    let digits = decimal(port as nat);
    let node = host + ":"@ + digits;
    lemma_decimal_chars(port as nat);
    assert(node[0] == host[0]);
    assert(trim_start(node) == node);
    assert(node.last() == digits.last());
    assert(trim_end(node) == node);
    assert(trim_end_char(node, '/') == node);
    host_port_reads_back(host, port);
}

/// An address written with `http://` in front is reached over plain TCP on
/// the port given and nothing else; one with `https://` in front, over TLS on
/// the port given and nothing else: no other transport or port is tried.
pub proof fn prefixed_address_is_taken_as_given(host: Seq<char>, port: u16)
    requires
        host.len() > 0,
    ensures
        endpoints_for("http://"@ + host + ":"@ + decimal(port as nat)) == Ok::<Seq<EndpointModel>, Seq<char>>(
            seq![(Scheme::Plain, host, port)],
        ),
        endpoints_for("https://"@ + host + ":"@ + decimal(port as nat)) == Ok::<Seq<EndpointModel>, Seq<char>>(
            seq![(Scheme::Tls, host, port)],
        ),
{
    let digits = decimal(port as nat);
    let rest = host + ":"@ + digits;
    lemma_decimal_chars(port as nat);
    host_port_reads_back(host, port);
    reveal_strlit("http://");
    reveal_strlit("https://");
    let plain = "http://"@ + host + ":"@ + digits;
    assert(plain =~= "http://"@ + rest);
    assert(plain[0] == 'h');
    assert(trim_start(plain) == plain);
    assert(plain.last() == digits.last());
    assert(trim_end(plain) == plain);
    assert(trim_end_char(plain, '/') == plain);
    assert(plain.subrange(0, 7) =~= "http://"@);
    assert(starts_with(plain, "http://"@));
    assert(plain[4] == ':');
    assert(!starts_with(plain, "https://"@)) by {
        if starts_with(plain, "https://"@) {
            assert(plain.subrange(0, 8)[4] == 's');
        }
    }
    assert(plain.skip(7) =~= rest);
    let tls = "https://"@ + host + ":"@ + digits;
    assert(tls =~= "https://"@ + rest);
    assert(tls[0] == 'h');
    assert(trim_start(tls) == tls);
    assert(tls.last() == digits.last());
    assert(trim_end(tls) == tls);
    assert(trim_end_char(tls, '/') == tls);
    assert(tls.subrange(0, 8) =~= "https://"@);
    assert(starts_with(tls, "https://"@));
    assert(tls.skip(8) =~= rest);
}

} // verus!
