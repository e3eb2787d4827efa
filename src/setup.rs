//! The data of the guardian setup flow, and the reading of connection
//! strings (`address:port:name:cert`).
use vstd::prelude::*;

use crate::hex::{hex_decode, hex_decoded, is_hex_text};
use crate::text::{decimal, parse_u16, push_decimal, u16_of_text};

verus! {

/// A guardian of the federation being set up.
#[derive(Debug, Clone)]
pub struct Guardian {
    pub name: String,
    pub config_string: String,
}

/// The connection strings of all guardians, as a JSON list.
#[derive(Debug, Clone)]
pub struct GuardiansForm {
    pub connection_strings: String,
}

/// The parameters of a new federation.
#[derive(Debug, Clone)]
pub struct ParamsForm {
    pub guardian_name: String,
    pub federation_name: String,
    pub ip_addr: String,
    pub bitcoin_rpc: String,
    pub password: String,
    pub guardians_count: u32,
}

/// What the setup flow tells the daemon.
#[derive(Debug, Clone, Copy, PartialEq, Eq, Structural)]
pub enum UiMessage {
    SetupComplete,
}

/// The number of `:` in `s`.
pub open spec fn count_colons(s: Seq<char>) -> nat
    decreases s.len(),
{
    if s.len() == 0 {
        0
    } else {
        count_colons(s.drop_last()) + if s.last() == ':' {
            1nat
        } else {
            0nat
        }
    }
}

/// `s[a..b]` is the field of `s` after its `n`-th `:`, up to the next `:`
/// or the end.
pub open spec fn is_colon_field(s: Seq<char>, n: nat, a: int, b: int) -> bool {
    &&& 0 <= a <= b <= s.len()
    &&& count_colons(s.take(a)) == n
    &&& (a == 0 || s[a - 1] == ':')
    &&& (b == s.len() || s[b] == ':')
    &&& forall|i: int| a <= i < b ==> s[i] != ':'
}

/// `r` is the text of field `n` of `s`.
pub open spec fn is_field_text(s: Seq<char>, n: nat, r: Seq<char>) -> bool {
    exists|a: int, b: int| is_colon_field(s, n, a, b) && r == s.subrange(a, b)
}

proof fn lemma_count_colons_step(s: Seq<char>, i: int)
    requires
        0 <= i < s.len(),
    ensures
        count_colons(s.take(i + 1)) == count_colons(s.take(i)) + if s[i] == ':' {
            1nat
        } else {
            0nat
        },
{
    assert(s.take(i + 1).drop_last() =~= s.take(i));
}

/// The field after the `n`-th `:` of `s`. `s` must have at least `n` of
/// them.
fn colon_field(s: &str, n: usize) -> (r: String)
    requires
        count_colons(s@) >= n,
    ensures
        is_field_text(s@, n as nat, r@),
{
    let len = s.unicode_len();
    let mut i: usize = 0;
    let mut seen: usize = 0;
    assert(s@.take(len as int) =~= s@);
    while seen < n
        invariant
            len == s@.len(),
            i <= len,
            seen <= n,
            count_colons(s@.take(i as int)) == seen,
            count_colons(s@) >= n,
            i == 0 || s@[i - 1] == ':',
            seen == 0 ==> i == 0,
        decreases n - seen,
    {
        let mut k: usize = i;
        while k < len && s.get_char(k) != ':'
            invariant
                len == s@.len(),
                i <= k <= len,
                count_colons(s@.take(k as int)) == seen,
            decreases len - k,
        {
            proof {
                lemma_count_colons_step(s@, k as int);
            }
            k += 1;
        }
        if k == len {
            assert(s@.take(len as int) =~= s@);
            assert(false);
        }
        proof {
            lemma_count_colons_step(s@, k as int);
        }
        seen += 1;
        i = k + 1;
    }
    let start = i;
    let mut j: usize = start;
    while j < len && s.get_char(j) != ':'
        invariant
            len == s@.len(),
            start <= j <= len,
            forall|k: int| start <= k < j ==> s@[k] != ':',
        decreases len - j,
    {
        j += 1;
    }
    let field = s.substring_char(start, j);
    let r = String::from_str(field);
    assert(is_colon_field(s@, n as nat, start as int, j as int));
    r
}

/// The name in a connection string: its third field.
pub fn parse_name_from_connection_string(connection_string: &String) -> (r: String)
    requires
        count_colons(connection_string@) >= 2,
    ensures
        is_field_text(connection_string@, 2, r@),
{
    colon_field(connection_string.as_str(), 2)
}

/// The certificate in a connection string: its fourth field.
pub fn parse_cert_from_connection_string(connection_string: &String) -> (r: String)
    requires
        count_colons(connection_string@) >= 3,
    ensures
        is_field_text(connection_string@, 3, r@),
{
    colon_field(connection_string.as_str(), 3)
}

/// The placeholder name of the `n`-th guardian, counting from one.
pub open spec fn placeholder_name(n: nat) -> Seq<char> {
    "Guardian-"@ + decimal(n)
}

/// The guardians of a new federation: this one, named and with its
/// connection string, then placeholders `Guardian-2`, `Guardian-3`, ...
/// up to `guardians_count` (at least this one).
pub fn initial_guardians(guardian_name: String, config_string: String, guardians_count: u32) -> (r: Vec<Guardian>)
    ensures
        r@.len() == if guardians_count == 0 { 1 } else { guardians_count as int },
        r@[0].name@ == guardian_name@,
        r@[0].config_string@ == config_string@,
        forall|i: int| 1 <= i < r@.len() ==> (#[trigger] r@[i]).name@ == placeholder_name((i + 1) as nat)
            && r@[i].config_string@.len() == 0,
{
    let mut guardians: Vec<Guardian> = Vec::new();
    guardians.push(Guardian { name: guardian_name, config_string });
    let mut i: u32 = 1;
    while i < guardians_count
        invariant
            1 <= i,
            i <= guardians_count || guardians_count == 0,
            guardians_count == 0 ==> i == 1,
            guardians@.len() == i,
            guardians@[0].name@ == guardian_name@,
            guardians@[0].config_string@ == config_string@,
            forall|j: int| 1 <= j < guardians@.len() ==> (#[trigger] guardians@[j]).name@ == placeholder_name(
                (j + 1) as nat,
            ) && guardians@[j].config_string@.len() == 0,
        decreases guardians_count - i,
    {
        let mut name = String::from_str("Guardian-");
        push_decimal(&mut name, (i + 1) as u64);
        guardians.push(Guardian { name, config_string: String::new() });
        i += 1;
    }
    guardians
}

/// The guardians after their connection strings arrived: the `i`-th
/// string replaces the `i`-th guardian, named by the string's third
/// field; the others stay.
pub fn assign_connection_strings(guardians: Vec<Guardian>, connection_strings: Vec<String>) -> (r: Vec<Guardian>)
    requires
        connection_strings@.len() <= guardians@.len(),
        forall|i: int| 0 <= i < connection_strings@.len() ==> count_colons(#[trigger] connection_strings@[i]@) >= 2,
    ensures
        r@.len() == guardians@.len(),
        forall|i: int|
            0 <= i < connection_strings@.len() ==> (#[trigger] r@[i]).config_string@ == connection_strings@[i]@
                && is_field_text(connection_strings@[i]@, 2, r@[i].name@),
        forall|i: int| connection_strings@.len() <= i < guardians@.len() ==> #[trigger] r@[i] == guardians@[i],
{
    let mut out: Vec<Guardian> = Vec::new();
    let mut i: usize = 0;
    let mut rest = guardians;
    let ghost original = rest@;
    while i < connection_strings.len()
        invariant
            original == rest@,
            connection_strings@.len() <= original.len(),
            forall|j: int| 0 <= j < connection_strings@.len() ==> count_colons(#[trigger] connection_strings@[j]@) >= 2,
            i <= connection_strings@.len(),
            out@.len() == i,
            forall|j: int|
                0 <= j < i ==> (#[trigger] out@[j]).config_string@ == connection_strings@[j]@ && is_field_text(
                    connection_strings@[j]@,
                    2,
                    out@[j].name@,
                ),
        decreases connection_strings@.len() - i,
    {
        let s = &connection_strings[i];
        let name = parse_name_from_connection_string(s);
        let config_string = s.clone();
        out.push(Guardian { name, config_string });
        i += 1;
    }
    assert(i == connection_strings@.len());
    let mut k: usize = i;
    while k < rest.len()
        invariant
            original == rest@,
            connection_strings@.len() <= k <= original.len(),
            out@.len() == k,
            forall|j: int|
                0 <= j < connection_strings@.len() ==> (#[trigger] out@[j]).config_string@ == connection_strings@[j]@
                    && is_field_text(connection_strings@[j]@, 2, out@[j].name@),
            forall|j: int| connection_strings@.len() <= j < k ==> #[trigger] out@[j] == original[j],
        decreases original.len() - k,
    {
        let g = Guardian { name: rest[k].name.clone(), config_string: rest[k].config_string.clone() };
        out.push(g);
        k += 1;
    }
    out
}

/// What a peer's connection string says: where it listens, its name, and
/// its TLS certificate.
#[derive(Debug, Clone)]
pub struct PeerServerParams {
    pub cert: Vec<u8>,
    pub address: String,
    pub base_port: u16,
    pub name: String,
}

/// Why a connection string could not be read.
#[derive(Debug, Clone, Copy, PartialEq, Eq, Structural)]
pub enum PeerParamsError {
    /// Not four `:`-separated fields.
    WrongFieldCount,
    /// The second field is not a port number.
    InvalidPort,
    /// The fourth field is not hex.
    InvalidCert,
}

/// Reads a connection string `address:port:name:hexcert`.
pub fn parse_peer_params(url: &str) -> (r: Result<PeerServerParams, PeerParamsError>)
    ensures
        (count_colons(url@) != 3) <==> r == Err::<PeerServerParams, _>(PeerParamsError::WrongFieldCount),
        r == Err::<PeerServerParams, _>(PeerParamsError::InvalidPort) ==> exists|t: Seq<char>|
            is_field_text(url@, 1, t) && u16_of_text(t) is None,
        r == Err::<PeerServerParams, _>(PeerParamsError::InvalidCert) ==> exists|t: Seq<char>|
            is_field_text(url@, 3, t) && !is_hex_text(t),
        (count_colons(url@) == 3 && (forall|t: Seq<char>| is_field_text(url@, 1, t) ==> u16_of_text(t) is Some)
            && (forall|t: Seq<char>| is_field_text(url@, 3, t) ==> is_hex_text(t))) ==> r is Ok,
        r is Ok ==> ({
            let p = r->Ok_0;
            &&& is_field_text(url@, 0, p.address@)
            &&& is_field_text(url@, 2, p.name@)
            &&& exists|t: Seq<char>| is_field_text(url@, 1, t) && u16_of_text(t) == Some(p.base_port)
            &&& exists|t: Seq<char>| is_field_text(url@, 3, t) && is_hex_text(t) && p.cert@ == hex_decoded(t)
        }),
{
    if colon_count(url) != 3 {
        return Err(PeerParamsError::WrongFieldCount);
    }
    let address = colon_field(url, 0);
    let port_text = colon_field(url, 1);
    let name = colon_field(url, 2);
    let cert_text = colon_field(url, 3);
    let base_port = match parse_u16(port_text.as_str()) {
        Some(p) => p,
        None => {
            return Err(PeerParamsError::InvalidPort);
        },
    };
    let cert = match hex_decode(cert_text.as_str()) {
        Some(c) => c,
        None => {
            return Err(PeerParamsError::InvalidCert);
        },
    };
    Ok(PeerServerParams { cert, address, base_port, name })
}

/// The number of `:` in a string, so a caller can meet the parsers'
/// precondition.
pub fn colon_count(s: &str) -> (r: usize)
    ensures
        r == count_colons(s@),
{
    let len = s.unicode_len();
    let mut i: usize = 0;
    let mut n: usize = 0;
    while i < len
        invariant
            len == s@.len(),
            i <= len,
            n == count_colons(s@.take(i as int)),
            n <= i,
        decreases len - i,
    {
        proof {
            lemma_count_colons_step(s@, i as int);
        }
        if s.get_char(i) == ':' {
            n += 1;
        }
        i += 1;
    }
    assert(s@.take(len as int) =~= s@);
    n
}

} // verus!
