//! How a well-formed ClientHello is laid out, and what extraction yields on
//! one.
use vstd::prelude::*;
use vstd::utf8::*;
use crate::sni::{be16_at, scan_extensions, server_name_of, sni_of, SniError};

verus! {

/// An extension as its type and its body.
pub type ExtensionSpec = (u16, Seq<u8>);

/// The big-endian encoding of `x`, for `x < 65536`.
pub open spec fn be16_bytes(x: nat) -> Seq<u8> {
    seq![(x / 256) as u8, (x % 256) as u8]
}

/// `type(2) || length(2) || body`.
pub open spec fn extension_bytes(ext: ExtensionSpec) -> Seq<u8> {
    be16_bytes(ext.0 as nat) + be16_bytes(ext.1.len()) + ext.1
}

/// The extensions one after another.
pub open spec fn extensions_bytes(exts: Seq<ExtensionSpec>) -> Seq<u8>
    decreases exts.len(),
{
    if exts.len() == 0 {
        Seq::empty()
    } else {
        extensions_bytes(exts.drop_last()) + extension_bytes(exts.last())
    }
}

/// The body of a server_name extension naming `host`: the list length, the
/// entry type (host name, 0), the name length, and the name.
pub open spec fn server_name_body(host: Seq<u8>) -> Seq<u8> {
    be16_bytes(host.len() + 3) + seq![0u8] + be16_bytes(host.len()) + host
}

/// A ClientHello: the 43 bytes of record header, handshake header, version
/// and random in `head`, then the session id, cipher suites, compression
/// methods and extensions, each behind its length.
pub open spec fn client_hello(
    head: Seq<u8>,
    session_id: Seq<u8>,
    suites: Seq<u8>,
    compression: Seq<u8>,
    exts: Seq<ExtensionSpec>,
) -> Seq<u8> {
    head + seq![session_id.len() as u8] + session_id + be16_bytes(suites.len()) + suites + seq![
        compression.len() as u8,
    ] + compression + be16_bytes(extensions_bytes(exts).len()) + extensions_bytes(exts)
}

/// Every length of a ClientHello fits its length field.
pub open spec fn hello_fits(
    head: Seq<u8>,
    session_id: Seq<u8>,
    suites: Seq<u8>,
    compression: Seq<u8>,
    exts: Seq<ExtensionSpec>,
) -> bool {
    &&& head.len() == 43
    &&& session_id.len() < 256
    &&& suites.len() < 65536
    &&& compression.len() < 256
    &&& extensions_bytes(exts).len() < 65536
    &&& forall|i: int| 0 <= i < exts.len() ==> #[trigger] exts[i].1.len() < 65536
}

/// What the extension list from the `i`-th extension on yields: the name in
/// the first server_name extension, or the empty name where there is none.
pub open spec fn name_from(exts: Seq<ExtensionSpec>, i: int) -> Result<Seq<char>, SniError>
    decreases exts.len() - i,
{
    if i < 0 || i >= exts.len() {
        Ok(Seq::empty())
    } else if exts[i].0 == 0 {
        server_name_of(exts[i].1)
    } else {
        name_from(exts, i + 1)
    }
}

proof fn lemma_be16(x: nat)
    requires
        x < 65536,
    ensures
        be16_at(be16_bytes(x), 0) == x,
        be16_bytes(x).len() == 2,
{
    assert((x / 256) * 256 + x % 256 == x) by (nonlinear_arith);
    assert(x / 256 < 256) by (nonlinear_arith)
        requires
            x < 65536,
    ;
}

proof fn lemma_extensions_prefix(exts: Seq<ExtensionSpec>, j: int)
    requires
        0 <= j <= exts.len(),
    ensures
        extensions_bytes(exts.take(j)).len() <= extensions_bytes(exts).len(),
        extensions_bytes(exts).take(extensions_bytes(exts.take(j)).len() as int)
            == extensions_bytes(exts.take(j)),
    decreases exts.len() - j,
{
    if j == exts.len() {
        assert(exts.take(j) =~= exts);
        assert(extensions_bytes(exts).take(extensions_bytes(exts).len() as int) =~= extensions_bytes(
            exts,
        ));
    } else {
        lemma_extensions_prefix(exts, j + 1);
        let t1 = exts.take(j + 1);
        assert(t1.drop_last() =~= exts.take(j));
        let whole = extensions_bytes(exts);
        let short = extensions_bytes(exts.take(j));
        let long = extensions_bytes(t1);
        assert(long == short + extension_bytes(t1.last()));
        assert(whole.take(short.len() as int) =~= long.take(short.len() as int));
        assert(long.take(short.len() as int) =~= short);
    }
}

proof fn lemma_extension_at(exts: Seq<ExtensionSpec>, i: int)
    requires
        0 <= i < exts.len(),
    ensures
        extensions_bytes(exts.take(i + 1)) == extensions_bytes(exts.take(i)) + extension_bytes(
            exts[i],
        ),
{
    assert(exts.take(i + 1).drop_last() =~= exts.take(i));
}

proof fn lemma_scan(b: Seq<u8>, p: int, exts: Seq<ExtensionSpec>, i: int)
    requires
        0 <= p,
        p + extensions_bytes(exts).len() <= b.len(),
        b.subrange(p, p + extensions_bytes(exts).len()) == extensions_bytes(exts),
        forall|k: int| 0 <= k < exts.len() ==> #[trigger] exts[k].1.len() < 65536,
        0 <= i <= exts.len(),
    ensures
        scan_extensions(b, p + extensions_bytes(exts.take(i)).len(), p + extensions_bytes(exts).len())
            == name_from(exts, i),
    decreases exts.len() - i,
{
    let whole = extensions_bytes(exts);
    let end = p + whole.len();
    let off = extensions_bytes(exts.take(i)).len() as int;
    if i == exts.len() {
        assert(exts.take(i) =~= exts);
    } else {
        lemma_extensions_prefix(exts, i + 1);
        lemma_extension_at(exts, i);
        let ext = exts[i];
        let eb = extension_bytes(ext);
        let cur = p + off;
        lemma_be16(ext.0 as nat);
        lemma_be16(ext.1.len());
        assert(eb.len() == 4 + ext.1.len());
        assert forall|t: int| 0 <= t < eb.len() implies b[cur + t] == #[trigger] eb[t] by {
            assert(b[cur + t] == b.subrange(p, end)[off + t]);
            assert(whole.take(off + eb.len())[off + t] == extensions_bytes(exts.take(i + 1))[off
                + t]);
        }
        assert(be16_at(b, cur) == be16_at(eb, 0));
        assert(be16_at(eb, 0) == ext.0 as nat);
        assert(be16_at(b, cur + 2) == be16_at(eb.skip(2), 0));
        assert(be16_at(b, cur + 2) == ext.1.len());
        assert forall|t: int| 0 <= t < ext.1.len() implies #[trigger] ext.1[t] == b[cur + 4 + t] by {
            assert(eb[4 + t] == ext.1[t]);
        }
        assert(b.subrange(cur + 4, cur + 4 + ext.1.len()) =~= ext.1);
        lemma_scan(b, p, exts, i + 1);
    }
}

proof fn lemma_hello_scan(
    head: Seq<u8>,
    session_id: Seq<u8>,
    suites: Seq<u8>,
    compression: Seq<u8>,
    exts: Seq<ExtensionSpec>,
)
    requires
        hello_fits(head, session_id, suites, compression, exts),
    ensures
        sni_of(client_hello(head, session_id, suites, compression, exts)) == name_from(exts, 0),
{
    let e = extensions_bytes(exts);
    let s1 = head + seq![session_id.len() as u8] + session_id;
    let s2 = s1 + be16_bytes(suites.len()) + suites;
    let s3 = s2 + seq![compression.len() as u8] + compression;
    let s4 = s3 + be16_bytes(e.len());
    let b = s4 + e;
    assert(b =~= client_hello(head, session_id, suites, compression, exts));
    lemma_be16(suites.len());
    lemma_be16(e.len());
    let c0: int = 44 + session_id.len() as int;
    let c1: int = c0 + 2 + suites.len();
    let c2: int = c1 + 1 + compression.len();
    let p: int = c2 + 2;
    assert(s1.len() == c0);
    assert(s2.len() == c1);
    assert(s3.len() == c2);
    assert(s4.len() == p);
    assert(b[43] == s1[43]);
    assert(b[c0] == s2[c0] && b[c0 + 1] == s2[c0 + 1]);
    assert(be16_at(b, c0) == suites.len());
    assert(b[c1] == s3[c1]);
    assert(b[c2] == s4[c2] && b[c2 + 1] == s4[c2 + 1]);
    assert(be16_at(b, c2) == e.len());
    assert(b.subrange(p, p + e.len()) =~= e);
    assert(exts.take(0) =~= Seq::<ExtensionSpec>::empty());
    lemma_scan(b, p, exts, 0);
}

proof fn lemma_name_from_skips(exts: Seq<ExtensionSpec>, i: int, k: int)
    requires
        0 <= i <= k <= exts.len(),
        forall|j: int| i <= j < k ==> #[trigger] exts[j].0 != 0,
    ensures
        name_from(exts, i) == name_from(exts, k),
    decreases k - i,
{
    if i < k {
        lemma_name_from_skips(exts, i + 1, k);
    }
}

/// Extraction fails with `TooShort` on fewer than 42 captured bytes.
pub proof fn lemma_short_input(b: Seq<u8>)
    requires
        b.len() < 42,
    ensures
        sni_of(b) == Err::<Seq<char>, SniError>(SniError::TooShort),
{
}

/// On a well-formed ClientHello whose first server_name extension names
/// `host`, extraction gives exactly the characters that `host` encodes.
pub proof fn lemma_hello_names_host(
    head: Seq<u8>,
    session_id: Seq<u8>,
    suites: Seq<u8>,
    compression: Seq<u8>,
    exts: Seq<ExtensionSpec>,
    k: int,
    host: Seq<u8>,
)
    requires
        hello_fits(head, session_id, suites, compression, exts),
        0 <= k < exts.len(),
        exts[k] == (0u16, server_name_body(host)),
        forall|j: int| 0 <= j < k ==> #[trigger] exts[j].0 != 0,
        valid_utf8(host),
    ensures
        sni_of(client_hello(head, session_id, suites, compression, exts)) == Ok::<
            Seq<char>,
            SniError,
        >(decode_utf8(host)),
        encode_utf8(decode_utf8(host)) == host,
{
    lemma_hello_scan(head, session_id, suites, compression, exts);
    lemma_name_from_skips(exts, 0, k);
    lemma_be16(host.len() + 3);
    lemma_be16(host.len());
    assert(server_name_body(host).skip(5) =~= host);
    decode_utf8_encode_utf8(host);
}

/// On a well-formed ClientHello with no server_name extension, extraction
/// succeeds with the empty name.
pub proof fn lemma_hello_without_server_name(
    head: Seq<u8>,
    session_id: Seq<u8>,
    suites: Seq<u8>,
    compression: Seq<u8>,
    exts: Seq<ExtensionSpec>,
)
    requires
        hello_fits(head, session_id, suites, compression, exts),
        forall|j: int| 0 <= j < exts.len() ==> #[trigger] exts[j].0 != 0,
    ensures
        sni_of(client_hello(head, session_id, suites, compression, exts)) == Ok::<
            Seq<char>,
            SniError,
        >(Seq::empty()),
{
    lemma_hello_scan(head, session_id, suites, compression, exts);
    lemma_name_from_skips(exts, 0, exts.len() as int);
}

} // verus!
