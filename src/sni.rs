//! Extraction of the server name from the first bytes of a TLS connection.
use vstd::prelude::*;
use vstd::utf8::*;

verus! {

/// Why no server name could be taken from the captured bytes.
#[derive(Debug, Clone, Copy, PartialEq, Eq)]
pub enum SniError {
    /// A length field declares more bytes than were captured, or a field
    /// needed to go on lies past the captured bytes.
    TooShort,
    /// The server name bytes are not valid UTF-8.
    MalformedExtension,
}

/// The big-endian 16-bit value stored at `b[i]`, `b[i + 1]`.
pub open spec fn be16_at(b: Seq<u8>, i: int) -> nat {
    (b[i] as nat) * 256 + (b[i + 1] as nat)
}

/// The host name carried by the body of a server_name extension: the bytes
/// after the list length (2), the entry type (1) and the entry length (2).
pub open spec fn server_name_of(body: Seq<u8>) -> Result<Seq<char>, SniError> {
    if body.len() < 5 {
        Err(SniError::TooShort)
    } else if valid_utf8(body.skip(5)) {
        Ok(decode_utf8(body.skip(5)))
    } else {
        Err(SniError::MalformedExtension)
    }
}

/// Walks the extension list from position `cur` while it is before `end`;
/// each extension is `type(2) || length(2) || body(length)`.
pub open spec fn scan_extensions(b: Seq<u8>, cur: int, end: int) -> Result<Seq<char>, SniError>
    decreases b.len() - cur,
{
    if cur >= end {
        Ok(Seq::empty())
    } else if b.len() < cur + 4 {
        Err(SniError::TooShort)
    } else if b.len() < cur + 4 + be16_at(b, cur + 2) {
        Err(SniError::TooShort)
    } else if be16_at(b, cur) == 0 {
        server_name_of(b.subrange(cur + 4, cur + 4 + be16_at(b, cur + 2)))
    } else {
        scan_extensions(b, cur + 4 + be16_at(b, cur + 2), end)
    }
}

/// The outcome of extracting the server name from the captured bytes `b`.
///
/// The fixed record header, handshake header, version and random fill bytes
/// 0 to 42; byte 43 is the session id length. Then come the session id, the
/// cipher suites with a 2-byte length, the compression methods with a 1-byte
/// length, and the extension block with a 2-byte length. No server_name
/// extension gives the empty name.
pub open spec fn sni_of(b: Seq<u8>) -> Result<Seq<char>, SniError> {
    if b.len() < 44 {
        Err(SniError::TooShort)
    } else {
        let c0 = 44 + b[43] as nat;
        if b.len() < c0 + 2 || b.len() < c0 + 2 + be16_at(b, c0 as int) {
            Err(SniError::TooShort)
        } else {
            let c1 = c0 + 2 + be16_at(b, c0 as int);
            if b.len() < c1 + 1 || b.len() < c1 + 1 + b[c1 as int] as nat {
                Err(SniError::TooShort)
            } else {
                let c2 = c1 + 1 + b[c1 as int] as nat;
                if b.len() < c2 + 2 || b.len() < c2 + be16_at(b, c2 as int) {
                    Err(SniError::TooShort)
                } else {
                    scan_extensions(b, (c2 + 2) as int, (c2 + 2 + be16_at(b, c2 as int)) as int)
                }
            }
        }
    }
}

/// Relies on `String::from_utf8`: it accepts exactly the valid UTF-8 byte
/// strings and keeps the characters they encode.
#[verifier::external_body]
fn string_from_utf8(bytes: Vec<u8>) -> (r: Option<String>)
    ensures
        r.is_some() <==> valid_utf8(bytes@),
        r matches Some(s) ==> s@ == decode_utf8(bytes@),
{
    String::from_utf8(bytes).ok()
}

fn read_be16(buf: &[u8], i: usize) -> (r: usize)
    requires
        i + 1 < buf@.len(),
    ensures
        r as nat == be16_at(buf@, i as int),
        r < 65536,
{
    (buf[i] as usize) * 256 + (buf[i + 1] as usize)
}

/// Decodes the host name of a server_name extension whose body is
/// `buf[start..end]`.
fn server_name(buf: &[u8], start: usize, end: usize) -> (r: Result<String, SniError>)
    requires
        start <= end <= buf@.len(),
    ensures
        match r {
            Ok(s) => server_name_of(buf@.subrange(start as int, end as int)) == Ok::<
                Seq<char>,
                SniError,
            >(s@),
            Err(e) => server_name_of(buf@.subrange(start as int, end as int)) == Err::<
                Seq<char>,
                SniError,
            >(e),
        },
{
    if end - start < 5 {
        return Err(SniError::TooShort);
    }
    let mut name: Vec<u8> = Vec::new();
    let mut i: usize = start + 5;
    while i < end
        invariant
            start + 5 <= i <= end <= buf@.len(),
            name@ == buf@.subrange(start + 5, i as int),
        decreases end - i,
    {
        name.push(buf[i]);
        i = i + 1;
    }
    proof {
        assert(buf@.subrange(start as int, end as int).skip(5) =~= name@);
    }
    match string_from_utf8(name) {
        Some(s) => Ok(s),
        None => Err(SniError::MalformedExtension),
    }
}

/// Extracts the server name from the first `n` bytes of `buf`, the bytes
/// captured from a connection. The empty name means that the ClientHello
/// carries no server_name extension.
pub fn parse_sni(buf: &[u8], n: usize) -> (r: Result<String, SniError>)
    requires
        n <= buf@.len(),
    ensures
        match r {
            Ok(s) => sni_of(buf@.take(n as int)) == Ok::<Seq<char>, SniError>(s@),
            Err(e) => sni_of(buf@.take(n as int)) == Err::<Seq<char>, SniError>(e),
        },
{
    let ghost b = buf@.take(n as int);
    if n < 44 {
        return Err(SniError::TooShort);
    }
    let c0: usize = 44 + buf[43] as usize;
    if n < c0 + 2 {
        return Err(SniError::TooShort);
    }
    let suites = read_be16(buf, c0);
    if n < c0 + 2 + suites {
        return Err(SniError::TooShort);
    }
    let c1: usize = c0 + 2 + suites;
    if n == c1 || n - c1 - 1 < buf[c1] as usize {
        return Err(SniError::TooShort);
    }
    let c2: usize = c1 + 1 + buf[c1] as usize;
    if n - c2 < 2 {
        return Err(SniError::TooShort);
    }
    let block = read_be16(buf, c2);
    if n - c2 < block {
        return Err(SniError::TooShort);
    }
    let start: usize = c2 + 2;
    let ghost end: int = start + block;
    assert(sni_of(b) == scan_extensions(b, start as int, end));
    let mut cur: usize = start;
    while cur - start < block
        invariant
            n <= buf@.len(),
            b == buf@.take(n as int),
            start <= cur <= n,
            end == start + block,
            scan_extensions(b, cur as int, end) == sni_of(b),
        decreases n - cur,
    {
        if n - cur < 4 {
            return Err(SniError::TooShort);
        }
        let kind = read_be16(buf, cur);
        let len = read_be16(buf, cur + 2);
        if n - cur - 4 < len {
            return Err(SniError::TooShort);
        }
        if kind == 0 {
            proof {
                assert(b.subrange(cur + 4, cur + 4 + len) =~= buf@.subrange(
                    cur + 4,
                    cur + 4 + len,
                ));
            }
            return server_name(buf, cur + 4, cur + 4 + len);
        }
        cur = cur + 4 + len;
    }
    Ok(String::new())
}

} // verus!
