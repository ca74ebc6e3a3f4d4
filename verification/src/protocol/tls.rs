//! TLS ClientHello records and the server name (SNI) they carry.

use vstd::prelude::*;
use vstd::slice::slice_subrange;
use vstd::utf8::{decode_utf8, valid_utf8};

use crate::text::utf8_str;

verus! {

/// A ClientHello record larger than this is refused.
pub const MAX_TLS_CLIENT_HELLO_SIZE: usize = 16384;

/// Why a TLS record was refused.
#[derive(Clone, Copy, Debug, PartialEq, Eq)]
pub enum TlsError {
    /// The record header does not announce a handshake record.
    NotHandshakeRecord,
    /// The record length is 0 or above the limit.
    InvalidRecordLength(usize),
    /// Fewer than five bytes: no record header.
    ShortRecord,
    /// The record holds no handshake message.
    MissingHandshakeType,
    /// The first handshake message is not a ClientHello.
    NotClientHello,
    /// A one-byte field runs past the end of its data.
    UnexpectedEofU8,
    /// A two-byte field runs past the end of its data.
    UnexpectedEofU16,
    /// A three-byte field runs past the end of its data.
    UnexpectedEofU24,
    /// The ClientHello is longer than the record holds.
    TruncatedClientHello,
    /// The ClientHello ends before any extension.
    NoExtensions,
    /// The extensions block runs past the ClientHello.
    TruncatedExtensionsBlock,
    /// An extension runs past the extensions block.
    TruncatedExtension,
    /// No server_name extension.
    MissingSni,
    /// The server name list runs past its extension.
    TruncatedServerNameList,
    /// A server name runs past its extension.
    TruncatedServerName,
    /// The server_name extension holds no host_name entry.
    NoHostName,
    /// The host name is not valid UTF-8.
    SniNotUtf8,
    /// The host name is empty.
    EmptySni,
}

/// The big-endian 16-bit number at `i`.
pub open spec fn be16(s: Seq<u8>, i: int) -> int {
    s[i] as int * 256 + s[i + 1] as int
}

/// The big-endian 24-bit number at `i`.
pub open spec fn be24(s: Seq<u8>, i: int) -> int {
    s[i] as int * 65536 + s[i + 1] as int * 256 + s[i + 2] as int
}

// ---------------------------------------------------------------------------
// The record header
// ---------------------------------------------------------------------------

/// The payload length that a five-byte record header announces, when it is
/// the header of a handshake record of acceptable size.
pub open spec fn spec_record_len(header: Seq<u8>) -> Result<usize, TlsError> {
    if header[0] != 0x16u8 {
        Err(TlsError::NotHandshakeRecord)
    } else if be16(header, 3) == 0 || be16(header, 3) > MAX_TLS_CLIENT_HELLO_SIZE {
        Err(TlsError::InvalidRecordLength(be16(header, 3) as usize))
    } else {
        Ok(be16(header, 3) as usize)
    }
}

/// Checks the five-byte header of the record that should carry the
/// ClientHello, and gives the length of the payload to read next.
pub fn client_hello_record_len(header: &[u8]) -> (r: Result<usize, TlsError>)
    requires
        header@.len() == 5,
    ensures
        r == spec_record_len(header@),
{
    if header[0] != 0x16u8 {
        return Err(TlsError::NotHandshakeRecord);
    }
    let record_len = (header[3] as usize) * 256 + header[4] as usize;
    if record_len == 0 || record_len > MAX_TLS_CLIENT_HELLO_SIZE {
        return Err(TlsError::InvalidRecordLength(record_len));
    }
    Ok(record_len)
}

// ---------------------------------------------------------------------------
// The server name
// ---------------------------------------------------------------------------

/// The first host_name entry of a server name list, scanning entries from
/// `c`; each entry is a type byte and a 16-bit length, then the name.
pub open spec fn find_host_name(ext: Seq<u8>, c: int) -> Result<Seq<u8>, TlsError>
    decreases ext.len() - c,
{
    if c < 0 || c + 3 > ext.len() {
        Err(TlsError::NoHostName)
    } else {
        let n = be16(ext, c + 1);
        if c + 3 + n > ext.len() {
            Err(TlsError::TruncatedServerName)
        } else if ext[c] == 0 {
            Ok(ext.subrange(c + 3, c + 3 + n))
        } else {
            find_host_name(ext, c + 3 + n)
        }
    }
}

/// The host name that a server_name extension body names.
pub open spec fn spec_sni_extension(ext: Seq<u8>) -> Result<Seq<char>, TlsError> {
    if ext.len() < 2 {
        Err(TlsError::UnexpectedEofU16)
    } else if 2 + be16(ext, 0) > ext.len() {
        Err(TlsError::TruncatedServerNameList)
    } else {
        match find_host_name(ext, 2) {
            Err(e) => Err(e),
            Ok(name) => if !valid_utf8(name) {
                Err(TlsError::SniNotUtf8)
            } else if name.len() == 0 {
                Err(TlsError::EmptySni)
            } else {
                Ok(decode_utf8(name))
            },
        }
    }
}

/// The host name of the first server_name extension in `p[c..end]`; each
/// extension is a 16-bit type and a 16-bit length, then its body.
pub open spec fn find_sni_ext(p: Seq<u8>, c: int, end: int) -> Result<Seq<char>, TlsError>
    decreases end - c,
{
    if c < 0 || c + 4 > end {
        Err(TlsError::MissingSni)
    } else {
        let n = be16(p, c + 2);
        if c + 4 + n > end {
            Err(TlsError::TruncatedExtension)
        } else if be16(p, c) == 0 {
            spec_sni_extension(p.subrange(c + 4, c + 4 + n))
        } else {
            find_sni_ext(p, c + 4 + n, end)
        }
    }
}

/// The host name that a TLS record holding a ClientHello names in its SNI
/// extension. After the record header come the handshake type (1 for a
/// ClientHello) and a 24-bit length, then a 2-byte version, 32 random bytes,
/// the session id, cipher suites and compression methods, each behind its
/// length, and finally the extensions block behind its 16-bit length.
pub open spec fn spec_parse_sni(record: Seq<u8>) -> Result<Seq<char>, TlsError> {
    if record.len() < 5 {
        Err(TlsError::ShortRecord)
    } else {
        let p = record.subrange(5, record.len() as int);
        if p.len() < 1 {
            Err(TlsError::MissingHandshakeType)
        } else if p[0] != 1 {
            Err(TlsError::NotClientHello)
        } else if p.len() < 4 {
            Err(TlsError::UnexpectedEofU24)
        } else if p.len() - 4 < be24(p, 1) {
            Err(TlsError::TruncatedClientHello)
        } else {
            let body_end = 4 + be24(p, 1);
            if p.len() < 39 {
                Err(TlsError::UnexpectedEofU8)
            } else {
                let cs = 39 + p[38];
                if cs + 2 > p.len() {
                    Err(TlsError::UnexpectedEofU16)
                } else {
                    let cm = cs + 2 + be16(p, cs);
                    if cm + 1 > p.len() {
                        Err(TlsError::UnexpectedEofU8)
                    } else {
                        let el = cm + 1 + p[cm];
                        if el == body_end {
                            Err(TlsError::NoExtensions)
                        } else if el + 2 > p.len() {
                            Err(TlsError::UnexpectedEofU16)
                        } else if el + 2 + be16(p, el) > body_end {
                            Err(TlsError::TruncatedExtensionsBlock)
                        } else {
                            find_sni_ext(p, el + 2, el + 2 + be16(p, el))
                        }
                    }
                }
            }
        }
    }
}

fn read_u8(data: &[u8], cursor: &mut usize) -> (r: Result<u8, TlsError>)
    ensures
        match r {
            Ok(v) => *old(cursor) < data@.len() && v == data@[*old(cursor) as int] && *final(cursor) == *old(cursor) + 1,
            Err(e) => *old(cursor) >= data@.len() && e == TlsError::UnexpectedEofU8 && *final(cursor) == *old(cursor),
        },
{
    if *cursor >= data.len() {
        return Err(TlsError::UnexpectedEofU8);
    }
    let value = data[*cursor];
    *cursor += 1;
    Ok(value)
}

fn read_u16(data: &[u8], cursor: &mut usize) -> (r: Result<u16, TlsError>)
    ensures
        match r {
            Ok(v) => *old(cursor) + 2 <= data@.len() && v == be16(data@, *old(cursor) as int)
                && *final(cursor) == *old(cursor) + 2,
            Err(e) => *old(cursor) + 2 > data@.len() && e == TlsError::UnexpectedEofU16
                && *final(cursor) == *old(cursor),
        },
{
    if data.len() < 2 || *cursor > data.len() - 2 {
        return Err(TlsError::UnexpectedEofU16);
    }
    let value = (data[*cursor] as u16) * 256 + data[*cursor + 1] as u16;
    *cursor += 2;
    Ok(value)
}

fn read_u24(data: &[u8], cursor: &mut usize) -> (r: Result<u32, TlsError>)
    ensures
        match r {
            Ok(v) => *old(cursor) + 3 <= data@.len() && v == be24(data@, *old(cursor) as int)
                && *final(cursor) == *old(cursor) + 3,
            Err(e) => *old(cursor) + 3 > data@.len() && e == TlsError::UnexpectedEofU24
                && *final(cursor) == *old(cursor),
        },
{
    if data.len() < 3 || *cursor > data.len() - 3 {
        return Err(TlsError::UnexpectedEofU24);
    }
    let value = (data[*cursor] as u32) * 65536 + (data[*cursor + 1] as u32) * 256
        + data[*cursor + 2] as u32;
    *cursor += 3;
    Ok(value)
}

/// Moves `cursor` on by `n`; past the end of the data any position behaves
/// alike, so positions beyond `len` are held at `len + 1`.
fn advance(cursor: usize, n: usize, len: usize) -> (r: usize)
    requires
        len < usize::MAX,
    ensures
        cursor + n <= len ==> r == cursor + n,
        cursor + n > len ==> r == len + 1,
{
    if cursor > len || n > len - cursor {
        len + 1
    } else {
        cursor + n
    }
}

/// The host name of a server_name extension body; see
/// [`spec_sni_extension`].
fn parse_sni_extension(ext: &[u8]) -> (r: Result<String, TlsError>)
    ensures
        match r {
            Ok(h) => spec_sni_extension(ext@) == Ok::<Seq<char>, TlsError>(h@),
            Err(e) => spec_sni_extension(ext@) == Err::<Seq<char>, TlsError>(e),
        },
{
    let mut cursor: usize = 0;
    let list_len = match read_u16(ext, &mut cursor) {
        Ok(v) => v as usize,
        Err(e) => return Err(e),
    };
    if list_len > ext.len() - cursor {
        return Err(TlsError::TruncatedServerNameList);
    }
    while ext.len() >= 3 && cursor <= ext.len() - 3
        invariant
            2 <= cursor <= ext@.len(),
            2 + be16(ext@, 0) <= ext@.len(),
            ext@.len() >= 2,
            find_host_name(ext@, 2) == find_host_name(ext@, cursor as int),
        decreases ext@.len() - cursor,
    {
        let name_type = match read_u8(ext, &mut cursor) {
            Ok(v) => v,
            Err(e) => return Err(e),
        };
        let name_len = match read_u16(ext, &mut cursor) {
            Ok(v) => v as usize,
            Err(e) => return Err(e),
        };
        if name_len > ext.len() - cursor {
            return Err(TlsError::TruncatedServerName);
        }
        if name_type == 0 {
            let name = slice_subrange(ext, cursor, cursor + name_len);
            let host = match utf8_str(name) {
                Some(h) => h,
                None => return Err(TlsError::SniNotUtf8),
            };
            if name_len == 0 {
                return Err(TlsError::EmptySni);
            }
            return Ok(host.to_owned());
        }
        cursor += name_len;
    }
    Err(TlsError::NoHostName)
}

/// The host name of the SNI extension of a record holding a ClientHello; see
/// [`spec_parse_sni`].
pub fn parse_sni(record: &[u8]) -> (r: Result<String, TlsError>)
    ensures
        match r {
            Ok(h) => spec_parse_sni(record@) == Ok::<Seq<char>, TlsError>(h@),
            Err(e) => spec_parse_sni(record@) == Err::<Seq<char>, TlsError>(e),
        },
{
    if record.len() < 5 {
        return Err(TlsError::ShortRecord);
    }
    let p = slice_subrange(record, 5, record.len());
    let len = p.len();
    let mut cursor: usize = 0;
    let handshake_type = match read_u8(p, &mut cursor) {
        Ok(v) => v,
        Err(_) => return Err(TlsError::MissingHandshakeType),
    };
    if handshake_type != 1 {
        return Err(TlsError::NotClientHello);
    }
    let hello_len = match read_u24(p, &mut cursor) {
        Ok(v) => v as usize,
        Err(e) => return Err(e),
    };
    if len - cursor < hello_len {
        return Err(TlsError::TruncatedClientHello);
    }
    let body_end = cursor + hello_len;
    cursor = cursor + 34;
    let session_id_len = match read_u8(p, &mut cursor) {
        Ok(v) => v as usize,
        Err(e) => return Err(e),
    };
    cursor = advance(cursor, session_id_len, len);
    let cipher_suites_len = match read_u16(p, &mut cursor) {
        Ok(v) => v as usize,
        Err(e) => return Err(e),
    };
    cursor = advance(cursor, cipher_suites_len, len);
    let compression_methods_len = match read_u8(p, &mut cursor) {
        Ok(v) => v as usize,
        Err(e) => return Err(e),
    };
    cursor = advance(cursor, compression_methods_len, len);
    if cursor == body_end {
        return Err(TlsError::NoExtensions);
    }
    let extensions_len = match read_u16(p, &mut cursor) {
        Ok(v) => v as usize,
        Err(e) => return Err(e),
    };
    if cursor > body_end || extensions_len > body_end - cursor {
        return Err(TlsError::TruncatedExtensionsBlock);
    }
    let extensions_end = cursor + extensions_len;
    let ghost ext_start = cursor;
    while cursor <= extensions_end && extensions_end - cursor >= 4
        invariant
            ext_start <= cursor <= extensions_end <= body_end <= p@.len(),
            p@ == record@.subrange(5, record@.len() as int),
            spec_parse_sni(record@) == find_sni_ext(p@, cursor as int, extensions_end as int),
        decreases extensions_end - cursor,
    {
        let ext_type = match read_u16(p, &mut cursor) {
            Ok(v) => v,
            Err(e) => return Err(e),
        };
        let ext_len = match read_u16(p, &mut cursor) {
            Ok(v) => v as usize,
            Err(e) => return Err(e),
        };
        if ext_len > extensions_end - cursor {
            return Err(TlsError::TruncatedExtension);
        }
        if ext_type == 0 {
            return parse_sni_extension(slice_subrange(p, cursor, cursor + ext_len));
        }
        cursor += ext_len;
    }
    Err(TlsError::MissingSni)
}


// ---------------------------------------------------------------------------
// A ClientHello carrying a server name
// ---------------------------------------------------------------------------

/// `n` as two big-endian bytes.
pub open spec fn u16_be(n: nat) -> Seq<u8> {
    seq![(n / 256) as u8, (n % 256) as u8]
}

/// `n` as three big-endian bytes.
pub open spec fn u24_be(n: nat) -> Seq<u8> {
    seq![(n / 65536) as u8, ((n / 256) % 256) as u8, (n % 256) as u8]
}

/// A server_name extension holding one host_name entry for `name`.
pub open spec fn sni_extension(name: Seq<u8>) -> Seq<u8> {
    let entry = seq![0u8] + u16_be(name.len()) + name;
    let list = u16_be(entry.len()) + entry;
    seq![0u8, 0u8] + u16_be(list.len()) + list
}

/// The body of a ClientHello whose only extension is the server name: TLS
/// 1.2 version, zero random bytes, no session id, one cipher suite, null
/// compression.
pub open spec fn client_hello_body(name: Seq<u8>) -> Seq<u8> {
    let exts = sni_extension(name);
    seq![3u8, 3u8] + Seq::new(32, |i: int| 0u8) + seq![0u8, 0u8, 2u8, 0x13u8, 0x01u8, 1u8, 0u8]
        + u16_be(exts.len()) + exts
}

/// A TLS handshake record holding such a ClientHello.
pub open spec fn client_hello_record(name: Seq<u8>) -> Seq<u8> {
    let body = client_hello_body(name);
    let handshake = seq![1u8] + u24_be(body.len()) + body;
    seq![0x16u8, 3u8, 1u8] + u16_be(handshake.len()) + handshake
}

proof fn lemma_u16_be(n: nat)
    requires
        n < 65536,
    ensures
        be16(u16_be(n), 0) == n,
        u16_be(n).len() == 2,
{
    assert(((n / 256) as u8) as int == n / 256);
    assert(((n % 256) as u8) as int == n % 256);
}

proof fn lemma_u24_be(n: nat)
    requires
        n < 16777216,
    ensures
        be24(u24_be(n), 0) == n,
        u24_be(n).len() == 3,
{
    assert(((n / 65536) as u8) as int == n / 65536);
    assert((((n / 256) % 256) as u8) as int == (n / 256) % 256);
    assert(((n % 256) as u8) as int == n % 256);
    assert(n == (n / 65536) * 65536 + ((n / 256) % 256) * 256 + n % 256) by (nonlinear_arith);
}

/// Reading inside the second part of a concatenation.
proof fn lemma_be16_in_tail(a: Seq<u8>, b: Seq<u8>, i: int)
    requires
        0 <= i,
        i + 2 <= b.len(),
    ensures
        be16(a + b, a.len() + i) == be16(b, i),
{
    assert((a + b)[a.len() + i] == b[i]);
    assert((a + b)[a.len() + i + 1] == b[i + 1]);
}

/// The server name list for `name` gives `name` back.
proof fn lemma_name_list(name: Seq<u8>)
    requires
        valid_utf8(name),
        0 < name.len() <= 65526,
    ensures
        spec_sni_extension(u16_be(name.len() + 3) + (seq![0u8] + u16_be(name.len()) + name))
            == Ok::<Seq<char>, TlsError>(decode_utf8(name)),
{
    let n = name.len();
    let entry = seq![0u8] + u16_be(n) + name;
    let list = u16_be(n + 3) + entry;
    lemma_u16_be(n);
    lemma_u16_be(n + 3);
    assert(entry.len() == n + 3);
    assert(be16(list, 0) == n + 3) by {
        assert(list[0] == u16_be(n + 3)[0]);
        assert(list[1] == u16_be(n + 3)[1]);
    }
    assert(list[2] == 0u8);
    assert(be16(list, 3) == n) by {
        assert(list[3] == u16_be(n)[0]);
        assert(list[4] == u16_be(n)[1]);
    }
    assert(list.subrange(5, 5 + n as int) =~= name);
    assert(find_host_name(list, 2) == Ok::<Seq<u8>, TlsError>(name));
}

/// The extensions block holding the server name gives `name` back.
proof fn lemma_extensions(pre: Seq<u8>, name: Seq<u8>)
    requires
        valid_utf8(name),
        0 < name.len() <= 65526,
    ensures
        find_sni_ext(
            pre + sni_extension(name),
            pre.len() as int,
            pre.len() + sni_extension(name).len() as int,
        ) == Ok::<Seq<char>, TlsError>(decode_utf8(name)),
{
    let n = name.len();
    let entry = seq![0u8] + u16_be(n) + name;
    let list = u16_be(entry.len()) + entry;
    let exts = sni_extension(name);
    let q = pre + exts;
    let c = pre.len() as int;
    lemma_u16_be(list.len());
    assert(entry.len() == n + 3);
    assert(list.len() == n + 5);
    assert(exts =~= seq![0u8, 0u8] + u16_be(list.len()) + list);
    assert(exts.len() == n + 9);
    assert(be16(exts, 0) == 0);
    assert(be16(exts, 2) == list.len()) by {
        assert(exts[2] == u16_be(list.len())[0]);
        assert(exts[3] == u16_be(list.len())[1]);
    }
    lemma_be16_in_tail(pre, exts, 0);
    lemma_be16_in_tail(pre, exts, 2);
    assert(q.subrange(c + 4, c + 4 + list.len()) =~= list);
    lemma_name_list(name);
}

/// The server name of a ClientHello that carries one is read back as it was
/// written, for every non-empty UTF-8 name short enough for the 16-bit
/// length fields.
#[verifier::rlimit(40)]
pub proof fn law_sni_roundtrip(name: Seq<u8>)
    requires
        valid_utf8(name),
        0 < name.len() <= 65526,
    ensures
        spec_parse_sni(client_hello_record(name)) == Ok::<Seq<char>, TlsError>(decode_utf8(name)),
{
    let n = name.len();
    let exts = sni_extension(name);
    let body = client_hello_body(name);
    let handshake = seq![1u8] + u24_be(body.len()) + body;
    let record = client_hello_record(name);
    assert(exts.len() == n + 9);
    let fixed = seq![3u8, 3u8] + Seq::new(32, |i: int| 0u8) + seq![
        0u8,
        0u8,
        2u8,
        0x13u8,
        0x01u8,
        1u8,
        0u8,
    ];
    assert(fixed.len() == 41);
    let pre = seq![1u8] + u24_be(body.len()) + fixed + u16_be(exts.len());
    lemma_u24_be(body.len());
    lemma_u16_be(exts.len());
    assert(body =~= fixed + u16_be(exts.len()) + exts);
    assert(handshake =~= pre + exts);
    assert(pre.len() == 47);
    let p = record.subrange(5, record.len() as int);
    assert(p =~= handshake);
    assert(p[0] == 1u8);
    assert(be24(p, 1) == body.len()) by {
        assert(p[1] == u24_be(body.len())[0]);
        assert(p[2] == u24_be(body.len())[1]);
        assert(p[3] == u24_be(body.len())[2]);
    }
    assert(p.len() == body.len() + 4);
    assert(p[38] == fixed[34]);
    assert(be16(p, 39) == 2) by {
        assert(p[39] == fixed[35]);
        assert(p[40] == fixed[36]);
    }
    assert(p[43] == fixed[39]);
    assert(be16(p, 45) == exts.len()) by {
        assert(p[45] == u16_be(exts.len())[0]);
        assert(p[46] == u16_be(exts.len())[1]);
    }
    lemma_extensions(pre, name);
}


/// Reading extensions within `p[..end]` looks at no byte at or past `end`.
proof fn lemma_find_sni_ext_prefix(p: Seq<u8>, q: Seq<u8>, c: int, end: int)
    requires
        end <= p.len() <= q.len(),
        forall|i: int| 0 <= i < p.len() ==> p[i] == q[i],
    ensures
        find_sni_ext(q, c, end) == find_sni_ext(p, c, end),
    decreases end - c,
{
    if c >= 0 && c + 4 <= end {
        let n = be16(p, c + 2);
        assert(be16(q, c + 2) == n);
        assert(be16(q, c) == be16(p, c));
        if c + 4 + n <= end {
            assert(q.subrange(c + 4, c + 4 + n) =~= p.subrange(c + 4, c + 4 + n));
            lemma_find_sni_ext_prefix(p, q, c + 4 + n, end);
        }
    }
}

/// Bytes that follow a record whose server name can be read never change
/// what is read: the parse looks at no byte past the ClientHello.
pub proof fn law_sni_ignores_trailing_bytes(record: Seq<u8>, extra: Seq<u8>)
    requires
        spec_parse_sni(record) is Ok,
    ensures
        spec_parse_sni(record + extra) == spec_parse_sni(record),
{
    let longer = record + extra;
    let p = record.subrange(5, record.len() as int);
    let q = longer.subrange(5, longer.len() as int);
    assert(q =~= p + extra);
    assert forall|i: int| 0 <= i < p.len() implies p[i] == q[i] by {}
    let body_end = 4 + be24(p, 1);
    let cs = 39 + p[38];
    let cm = cs + 2 + be16(p, cs);
    let el = cm + 1 + p[cm];
    assert(q[0] == p[0]);
    assert(be24(q, 1) == be24(p, 1));
    assert(q[38] == p[38]);
    assert(be16(q, cs) == be16(p, cs));
    assert(q[cm] == p[cm]);
    assert(be16(q, el) == be16(p, el));
    lemma_find_sni_ext_prefix(p, q, el + 2, el + 2 + be16(p, el));
}


/// One extension: its 16-bit type, the 16-bit length of its body, the body.
pub open spec fn extension(ty: u16, body: Seq<u8>) -> Seq<u8> {
    u16_be(ty as nat) + u16_be(body.len()) + body
}

/// The extensions `es`, one after the other.
pub open spec fn extensions(es: Seq<(u16, Seq<u8>)>) -> Seq<u8>
    decreases es.len(),
{
    if es.len() == 0 {
        seq![]
    } else {
        extension(es[0].0, es[0].1) + extensions(es.drop_first())
    }
}

/// Extensions other than server_name, each short enough for its length field.
pub open spec fn other_extensions(es: Seq<(u16, Seq<u8>)>) -> bool {
    forall|i: int| 0 <= i < es.len() ==> (#[trigger] es[i]).0 != 0 && es[i].1.len() < 65536
}

/// A ClientHello like [`client_hello_record`] whose extensions block holds
/// the bytes `others` before the server_name extension for `name`.
pub open spec fn client_hello_record_with(others: Seq<u8>, name: Seq<u8>) -> Seq<u8> {
    let exts = others + sni_extension(name);
    let body = seq![3u8, 3u8] + Seq::new(32, |i: int| 0u8) + seq![
        0u8,
        0u8,
        2u8,
        0x13u8,
        0x01u8,
        1u8,
        0u8,
    ] + u16_be(exts.len()) + exts;
    let handshake = seq![1u8] + u24_be(body.len()) + body;
    seq![0x16u8, 3u8, 1u8] + u16_be(handshake.len()) + handshake
}

/// The search for the server_name extension steps over other extensions,
/// whatever their length, an empty body included.
proof fn lemma_skip_other_extensions(pre: Seq<u8>, es: Seq<(u16, Seq<u8>)>, rest: Seq<u8>)
    requires
        other_extensions(es),
    ensures
        ({
            let q = pre + extensions(es) + rest;
            let end = q.len() as int;
            find_sni_ext(q, pre.len() as int, end) == find_sni_ext(
                q,
                (pre.len() + extensions(es).len()) as int,
                end,
            )
        }),
    decreases es.len(),
{
    if es.len() > 0 {
        let (ty, body) = es[0];
        assert(ty != 0 && body.len() < 65536);
        let e = extension(ty, body);
        let tail_es = es.drop_first();
        assert forall|i: int| 0 <= i < tail_es.len() implies (#[trigger] tail_es[i]).0 != 0
            && tail_es[i].1.len() < 65536 by {
            assert(tail_es[i] == es[i + 1]);
        }
        let tail = extensions(tail_es);
        let q = pre + extensions(es) + rest;
        assert(q =~= (pre + e) + tail + rest);
        lemma_u16_be(ty as nat);
        lemma_u16_be(body.len());
        let c = pre.len() as int;
        assert(be16(e, 0) == ty) by {
            assert(e[0] == u16_be(ty as nat)[0]);
            assert(e[1] == u16_be(ty as nat)[1]);
        }
        assert(be16(e, 2) == body.len()) by {
            assert(e[2] == u16_be(body.len())[0]);
            assert(e[3] == u16_be(body.len())[1]);
        }
        assert(be16(q, c) == be16(e, 0)) by {
            assert(q[c] == e[0]);
            assert(q[c + 1] == e[1]);
        }
        assert(be16(q, c + 2) == be16(e, 2)) by {
            assert(q[c + 2] == e[2]);
            assert(q[c + 3] == e[3]);
        }
        assert(e.len() == 4 + body.len());
        lemma_skip_other_extensions(pre + e, tail_es, rest);
    }
}

/// The server name is found behind any other extensions that come before
/// it, of any type and any length, empty ones included.
#[verifier::rlimit(40)]
pub proof fn law_sni_after_other_extensions(es: Seq<(u16, Seq<u8>)>, name: Seq<u8>)
    requires
        valid_utf8(name),
        0 < name.len(),
        other_extensions(es),
        extensions(es).len() + sni_extension(name).len() < 65536,
    ensures
        spec_parse_sni(client_hello_record_with(extensions(es), name)) == Ok::<
            Seq<char>,
            TlsError,
        >(decode_utf8(name)),
{
    let n = name.len();
    let others = extensions(es);
    let exts = others + sni_extension(name);
    let fixed = seq![3u8, 3u8] + Seq::new(32, |i: int| 0u8) + seq![
        0u8,
        0u8,
        2u8,
        0x13u8,
        0x01u8,
        1u8,
        0u8,
    ];
    let body = fixed + u16_be(exts.len()) + exts;
    let handshake = seq![1u8] + u24_be(body.len()) + body;
    let record = client_hello_record_with(others, name);
    assert(sni_extension(name).len() == n + 9);
    assert(fixed.len() == 41);
    let pre = seq![1u8] + u24_be(body.len()) + fixed + u16_be(exts.len());
    lemma_u24_be(body.len());
    lemma_u16_be(exts.len());
    assert(handshake =~= pre + exts);
    assert(pre.len() == 47);
    let p = record.subrange(5, record.len() as int);
    assert(p =~= handshake);
    assert(p[0] == 1u8);
    assert(be24(p, 1) == body.len()) by {
        assert(p[1] == u24_be(body.len())[0]);
        assert(p[2] == u24_be(body.len())[1]);
        assert(p[3] == u24_be(body.len())[2]);
    }
    assert(p.len() == body.len() + 4);
    assert(p[38] == fixed[34]);
    assert(be16(p, 39) == 2) by {
        assert(p[39] == fixed[35]);
        assert(p[40] == fixed[36]);
    }
    assert(p[43] == fixed[39]);
    assert(be16(p, 45) == exts.len()) by {
        assert(p[45] == u16_be(exts.len())[0]);
        assert(p[46] == u16_be(exts.len())[1]);
    }
    assert(p =~= pre + others + sni_extension(name));
    lemma_skip_other_extensions(pre, es, sni_extension(name));
    assert(pre + others + sni_extension(name) =~= (pre + others) + sni_extension(name));
    lemma_extensions(pre + others, name);
}

} // verus!
