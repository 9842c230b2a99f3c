//! Fetching work from a node that may be reachable in several ways: the
//! endpoints are tried in order, the first template obtained wins, and when
//! every endpoint fails the failures are reported together; a solved nonce
//! is submitted as a small JSON object.

use vstd::prelude::*;
use crate::endpoint::{bare_address_order, endpoint_label, endpoints_for, Endpoint, EndpointModel, Scheme};
use crate::mining::{Template, TemplateModel};
use crate::number::{decimal, hex_digit_char, push_decimal};
use crate::text::{is_white_space, join, lemma_join_push, starts_with};

verus! {

impl Template {
    /// A copy of the template.
    pub fn duplicate(&self) -> (r: Template)
        ensures
            r@ == self@,
    {
        Template {
            block_height: self.block_height,
            previous_block_hash: self.previous_block_hash.clone(),
            merkle_root: self.merkle_root.clone(),
            difficulty_bits: self.difficulty_bits,
        }
    }
}

/// The outcome of asking one endpoint for a template, as plain values.
pub open spec fn outcome_model(o: Result<Template, String>) -> Result<TemplateModel, Seq<char>> {
    match o {
        Ok(t) => Ok(t@),
        Err(e) => Err(e@),
    }
}

/// How a failed attempt is reported: the endpoint's label, a colon, the error.
pub open spec fn attempt_error(e: EndpointModel, err: Seq<char>) -> Seq<char> {
    endpoint_label(e) + ": "@ + err
}

/// The reports of the first `n` attempts, all of which failed.
pub open spec fn attempt_errors(
    endpoints: Seq<EndpointModel>,
    outcomes: Seq<Result<TemplateModel, Seq<char>>>,
    n: int,
) -> Seq<Seq<char>> {
    Seq::new(n as nat, |i: int| attempt_error(endpoints[i], outcomes[i]->Err_0))
}

/// The first of the first `n` attempts that obtained a template.
pub open spec fn first_success(outcomes: Seq<Result<TemplateModel, Seq<char>>>, n: int) -> Option<int> {
    if exists|i: int| 0 <= i < n && i < outcomes.len() && #[trigger] outcomes[i] is Ok {
        Some(choose|i: int| 0 <= i < n && i < outcomes.len() && #[trigger] outcomes[i] is Ok
            && forall|j: int| 0 <= j < i ==> !(outcomes[j] is Ok))
    } else {
        None
    }
}

/// What to do next while looking for a template.
pub enum TemplateStep {
    /// Ask the endpoint at this position.
    Fetch(usize),
    /// This endpoint gave this template.
    Found(Endpoint, Template),
    /// Every endpoint failed; the failures, joined with " | ".
    Failed(String),
}

/// A step of the template search as plain values.
pub enum TemplateStepModel {
    Fetch(int),
    Found(EndpointModel, TemplateModel),
    Failed(Seq<char>),
}

impl View for TemplateStep {
    type V = TemplateStepModel;

    open spec fn view(&self) -> TemplateStepModel {
        match self {
            TemplateStep::Fetch(i) => TemplateStepModel::Fetch(*i as int),
            TemplateStep::Found(e, t) => TemplateStepModel::Found(e@, t@),
            TemplateStep::Failed(m) => TemplateStepModel::Failed(m@),
        }
    }
}

/// The next step of the search over the endpoints `es`, given the outcomes
/// `os` of the attempts so far: the first attempt that obtained a template
/// ends it; otherwise the next endpoint is asked; when none is left, the
/// failures are reported, each as `label: error`, joined with " | ".
pub open spec fn template_step(
    es: Seq<EndpointModel>,
    os: Seq<Result<TemplateModel, Seq<char>>>,
) -> TemplateStepModel {
    let n = if os.len() < es.len() {
        os.len() as int
    } else {
        es.len() as int
    };
    match first_success(os, n) {
        Some(i) => TemplateStepModel::Found(es[i], os[i]->Ok_0),
        None => if os.len() < es.len() {
            TemplateStepModel::Fetch(os.len() as int)
        } else {
            TemplateStepModel::Failed(join(attempt_errors(es, os, n), " | "@))
        },
    }
}

/// The next step, given the endpoints in the order to try and the outcomes of
/// the attempts so far, in the same order.
pub fn get_template_from_any(endpoints: &[Endpoint], outcomes: &[Result<Template, String>]) -> (r: TemplateStep)
    ensures
        r@ == template_step(
            endpoints@.map_values(|e: Endpoint| e@),
            outcomes@.map_values(|o: Result<Template, String>| outcome_model(o)),
        ),
{
    let ghost es = endpoints@.map_values(|e: Endpoint| e@);
    let ghost os = outcomes@.map_values(|o: Result<Template, String>| outcome_model(o));
    let n = if outcomes.len() < endpoints.len() {
        outcomes.len()
    } else {
        endpoints.len()
    };
    let mut errors = String::new();
    let mut i: usize = 0;
    assert(attempt_errors(es, os, 0) =~= Seq::<Seq<char>>::empty());
    while i < n
        invariant
            n <= outcomes@.len(),
            n <= endpoints@.len(),
            n == if os.len() < es.len() { os.len() as int } else { es.len() as int },
            es == endpoints@.map_values(|e: Endpoint| e@),
            os == outcomes@.map_values(|o: Result<Template, String>| outcome_model(o)),
            i <= n,
            forall|j: int| 0 <= j < i ==> !(#[trigger] os[j] is Ok),
            errors@ == join(attempt_errors(es, os, i as int), " | "@),
        decreases n - i,
    {
        match &outcomes[i] {
            Ok(t) => {
                proof {
                    assert(os[i as int] is Ok);
                    let w = first_success(os, n as int);
                    assert(w is Some);
                    let k = w->Some_0;
                    if k < i {
                        assert(!(os[k] is Ok));
                    } else if k > i {
                        assert(!(os[i as int] is Ok));
                    }
                }
                return TemplateStep::Found(endpoints[i].duplicate(), t.duplicate());
            },
            Err(err) => {
                proof {
                    lemma_join_push(attempt_errors(es, os, i as int), " | "@, attempt_error(es[i as int], err@));
                    assert(attempt_errors(es, os, i + 1) =~= attempt_errors(es, os, i as int).push(
                        attempt_error(es[i as int], err@),
                    ));
                }
                if i > 0 {
                    errors.append(" | ");
                }
                let label = endpoints[i].label();
                errors.append(label.as_str());
                errors.append(": ");
                errors.append(err.as_str());
                i = i + 1;
            },
        }
    }
    proof {
        if first_success(os, n as int) is Some {
            let k = choose|k: int| 0 <= k < n && k < os.len() && #[trigger] os[k] is Ok;
            assert(!(os[k] is Ok));
        }
    }
    if outcomes.len() < endpoints.len() {
        TemplateStep::Fetch(outcomes.len())
    } else {
        TemplateStep::Failed(errors)
    }
}

/// A bare remote address `host:port` is asked for a template over TLS on
/// port 443 first; a template obtained there ends the search; when that
/// attempt fails, plain TCP on the port given is asked next, and a template
/// obtained there is the result.
pub proof fn tls_first_then_plain(
    host: Seq<char>,
    port: u16,
    over_tls: Result<TemplateModel, Seq<char>>,
    over_plain: Result<TemplateModel, Seq<char>>,
)
    requires
        host.len() > 0,
        !is_white_space(host[0]),
        !starts_with(host + ":"@ + decimal(port as nat), "https://"@),
        !starts_with(host + ":"@ + decimal(port as nat), "http://"@),
        host != "localhost"@,
        host != "127.0.0.1"@,
    ensures
        ({
            let es = endpoints_for(host + ":"@ + decimal(port as nat))->Ok_0;
            &&& endpoints_for(host + ":"@ + decimal(port as nat)) is Ok
            &&& template_step(es, seq![]) == TemplateStepModel::Fetch(0)
            &&& es[0] == (Scheme::Tls, host, 443u16)
            &&& over_tls matches Ok(t) ==> template_step(es, seq![over_tls])
                == TemplateStepModel::Found((Scheme::Tls, host, 443u16), t)
            &&& over_tls is Err ==> template_step(es, seq![over_tls]) == TemplateStepModel::Fetch(1)
                && es[1] == (Scheme::Plain, host, port)
            &&& over_tls is Err ==> (over_plain matches Ok(t) ==> template_step(es, seq![over_tls, over_plain])
                == TemplateStepModel::Found((Scheme::Plain, host, port), t))
        }),
{
    bare_address_order(host, port);
    let es = endpoints_for(host + ":"@ + decimal(port as nat))->Ok_0;
    assert(es.len() == 2);
    let none = Seq::<Result<TemplateModel, Seq<char>>>::empty();
    assert(first_success(none, 0) is None);
    let one = seq![over_tls];
    if over_tls is Ok {
        assert(one[0] is Ok);
        let k = first_success(one, 1)->Some_0;
        assert(first_success(one, 1) is Some);
        assert(k == 0);
    } else {
        assert(first_success(one, 1) is None) by {
            if exists|i: int| 0 <= i < 1 && i < one.len() && #[trigger] one[i] is Ok {
                assert(one[0] is Ok);
            }
        }
        let two = seq![over_tls, over_plain];
        if over_plain is Ok {
            assert(two[1] is Ok);
            assert(first_success(two, 2) is Some);
            let k = first_success(two, 2)->Some_0;
            assert(k == 1) by {
                if k == 0 {
                    assert(two[0] is Err);
                }
            }
        }
    }
}

/// The first of the first `n` connection attempts that succeeded.
pub open spec fn first_connected(outcomes: Seq<Result<(), String>>, n: int) -> Option<int> {
    if exists|i: int| 0 <= i < n && i < outcomes.len() && #[trigger] outcomes[i] is Ok {
        Some(choose|i: int| 0 <= i < n && i < outcomes.len() && #[trigger] outcomes[i] is Ok
            && forall|j: int| 0 <= j < i ==> !(outcomes[j] is Ok))
    } else {
        None
    }
}

/// The messages of the first `n` connection attempts, all of which failed.
pub open spec fn connect_errors(outcomes: Seq<Result<(), String>>, n: int) -> Seq<Seq<char>> {
    Seq::new(n as nat, |i: int| outcomes[i]->Err_0@)
}

/// What to do next while connecting to one of the addresses a host name resolved to.
pub enum ConnectStep {
    /// Try the address at this position.
    Attempt(usize),
    /// The address at this position accepted the connection.
    Connected(usize),
    /// No address is left; the message says so.
    Failed(String),
}

/// The next step in connecting to `address`, which resolved to `candidates`
/// socket addresses, given the outcomes of the attempts so far in order (each
/// failure as `socket address: error`): no address at all is reported as
/// such; the first attempt that succeeded ends the search; otherwise the next
/// address is tried; when none is left, the failures are reported together,
/// with the timeout in seconds.
pub fn connect_tcp(address: &str, candidates: usize, outcomes: &[Result<(), String>], timeout_secs: u64) -> (r: ConnectStep)
    ensures
        ({
            let os = outcomes@;
            let n = if os.len() < candidates {
                os.len() as int
            } else {
                candidates as int
            };
            match r {
                ConnectStep::Attempt(i) => candidates > 0 && first_connected(os, n) is None && os.len() < candidates
                    && i == os.len(),
                ConnectStep::Connected(i) => candidates > 0 && first_connected(os, n) == Some(i as int),
                ConnectStep::Failed(m) => if candidates == 0 {
                    m@ == "resolve "@ + address@ + ": no addresses"@
                } else {
                    first_connected(os, n) is None && os.len() >= candidates && m@ == "tcp connect "@ + address@
                        + " timed out/failed after "@ + decimal(timeout_secs as nat) + "s: "@ + join(
                        connect_errors(os, n),
                        " | "@,
                    )
                },
            }
        }),
{
    if candidates == 0 {
        let mut m = String::from_str("resolve ");
        m.append(address);
        m.append(": no addresses");
        return ConnectStep::Failed(m);
    }
    let ghost os = outcomes@;
    let n = if outcomes.len() < candidates {
        outcomes.len()
    } else {
        candidates
    };
    let mut errors = String::new();
    let mut i: usize = 0;
    assert(connect_errors(os, 0) =~= Seq::<Seq<char>>::empty());
    while i < n
        invariant
            n <= outcomes@.len(),
            n <= candidates,
            n == if os.len() < candidates { os.len() as int } else { candidates as int },
            os == outcomes@,
            i <= n,
            forall|j: int| 0 <= j < i ==> !(#[trigger] os[j] is Ok),
            errors@ == join(connect_errors(os, i as int), " | "@),
        decreases n - i,
    {
        match &outcomes[i] {
            Ok(_) => {
                proof {
                    assert(os[i as int] is Ok);
                    let w = first_connected(os, n as int);
                    assert(w is Some);
                    let k = w->Some_0;
                    if k < i {
                        assert(!(os[k] is Ok));
                    } else if k > i {
                        assert(!(os[i as int] is Ok));
                    }
                }
                return ConnectStep::Connected(i);
            },
            Err(err) => {
                proof {
                    lemma_join_push(connect_errors(os, i as int), " | "@, err@);
                    assert(connect_errors(os, i + 1) =~= connect_errors(os, i as int).push(err@));
                }
                if i > 0 {
                    errors.append(" | ");
                }
                errors.append(err.as_str());
                i = i + 1;
            },
        }
    }
    proof {
        if first_connected(os, n as int) is Some {
            let k = choose|k: int| 0 <= k < n && k < os.len() && #[trigger] os[k] is Ok;
            assert(!(os[k] is Ok));
        }
    }
    if outcomes.len() < candidates {
        ConnectStep::Attempt(outcomes.len())
    } else {
        let mut m = String::from_str("tcp connect ");
        m.append(address);
        m.append(" timed out/failed after ");
        push_decimal(&mut m, timeout_secs);
        m.append("s: ");
        m.append(errors.as_str());
        ConnectStep::Failed(m)
    }
}

/// How a JSON string literal writes the character `c`: the quote, the
/// backslash and the control characters are escaped (the five with a short
/// form by it, the others as `\u00` and two lower-case hexadecimal digits);
/// every other character stands for itself.
pub open spec fn json_escaped_char(c: char) -> Seq<char> {
    if c == '"' {
        seq!['\\', '"']
    } else if c == '\\' {
        seq!['\\', '\\']
    } else if c == '\u{8}' {
        seq!['\\', 'b']
    } else if c == '\t' {
        seq!['\\', 't']
    } else if c == '\n' {
        seq!['\\', 'n']
    } else if c == '\u{c}' {
        seq!['\\', 'f']
    } else if c == '\r' {
        seq!['\\', 'r']
    } else if (c as u32) < 32 {
        seq!['\\', 'u', '0', '0', hex_digit_char((c as u32 / 16) as nat), hex_digit_char((c as u32 % 16) as nat)]
    } else {
        seq![c]
    }
}

/// The JSON string literal of `s`: its characters escaped, between quotes.
pub open spec fn json_string(s: Seq<char>) -> Seq<char> {
    seq!['"'] + s.map_values(|c: char| json_escaped_char(c)).flatten() + seq!['"']
}

/// Calls `serde_json::to_string` on a string. Trusted: serialising a string
/// into memory always succeeds, and gives the string's JSON literal, with the
/// escapes that `json_escaped_char` lists.
#[verifier::external_body]
fn json_string_of(s: &str) -> (r: Result<String, String>)
    ensures
        r is Ok,
        r matches Ok(t) ==> t@ == json_string(s@),
{
    match serde_json::to_string(s) {
        Ok(t) => Ok(t),
        Err(e) => Err(e.to_string()),
    }
}

/// The body of a submission: a JSON object whose key `miner` holds the
/// wallet address and whose key `nonce` holds the nonce, keys in sorted order
/// and no white space.
pub open spec fn submit_body_text(wallet: Seq<char>, nonce: u64) -> Seq<char> {
    "{\"miner\":"@ + json_string(wallet) + ",\"nonce\":"@ + decimal(nonce as nat) + "}"@
}

/// The JSON body that submits `nonce` as solved by the miner `wallet`.
pub fn submit_body(wallet: &str, nonce: u64) -> (r: String)
    ensures
        r@ == submit_body_text(wallet@, nonce),
{
    let quoted = match json_string_of(wallet) {
        Ok(t) => t,
        Err(_) => String::new(),
    };
    let mut r = String::from_str("{\"miner\":");
    r.append(quoted.as_str());
    r.append(",\"nonce\":");
    push_decimal(&mut r, nonce);
    r.append("}");
    r
}

} // verus!
