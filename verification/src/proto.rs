//! Cheap first-hop protocol checks that do not require decrypting mail TLS.
//!
//! * 993 / 465 (implicit TLS): the first client bytes must be a TLS ClientHello
//!   whose server name is the destination's.
//! * 143 (IMAP STARTTLS): the server greeting must look like IMAP (`* ...`).
//! * 587 (SMTP submission): the server greeting must start with `220`.
use vstd::prelude::*;
use vstd::slice::slice_subrange;

use crate::dest;
use crate::text;

verus! {

/// The longest TLS record body that is looked at.
pub const MAX_TLS_RECORD: usize = 16384;

/// How much of a greeting is read while waiting for its end of line.
pub const MAX_GREETING: usize = 512;

#[derive(Debug, Clone, Copy, PartialEq, Eq, Structural)]
pub enum ProbeKind {
    TlsSni,
    ImapGreeting,
    SmtpGreeting,
}

#[derive(Debug, Clone, Copy, PartialEq, Eq, Structural)]
pub enum ProtoError {
    NotTls,
    Malformed,
    SniMismatch,
    MissingSni,
    BadGreeting,
}

impl ProtoError {
    /// The name of the error in log lines.
    pub open spec fn label(self) -> Seq<char> {
        match self {
            ProtoError::NotTls => "not_tls"@,
            ProtoError::Malformed => "malformed"@,
            ProtoError::SniMismatch => "sni_mismatch"@,
            ProtoError::MissingSni => "missing_sni"@,
            ProtoError::BadGreeting => "bad_greeting"@,
        }
    }

    /// The name of the error in log lines.
    pub fn as_str(&self) -> (r: &'static str)
        ensures
            r@ == self.label(),
    {
        match self {
            ProtoError::NotTls => "not_tls",
            ProtoError::Malformed => "malformed",
            ProtoError::SniMismatch => "sni_mismatch",
            ProtoError::MissingSni => "missing_sni",
            ProtoError::BadGreeting => "bad_greeting",
        }
    }
}

/// The probe that belongs to a mail port.
pub open spec fn probe_of(port: u16) -> Option<ProbeKind> {
    if port == 993 || port == 465 {
        Some(ProbeKind::TlsSni)
    } else if port == 143 {
        Some(ProbeKind::ImapGreeting)
    } else if port == 587 {
        Some(ProbeKind::SmtpGreeting)
    } else {
        None
    }
}

/// The probe that belongs to a mail port; other ports have none.
pub fn probe_for_port(port: u16) -> (r: Option<ProbeKind>)
    ensures
        r == probe_of(port),
{
    match port {
        993 | 465 => Some(ProbeKind::TlsSni),
        143 => Some(ProbeKind::ImapGreeting),
        587 => Some(ProbeKind::SmtpGreeting),
        _ => None,
    }
}

/// The two-byte number at place `i`, most significant byte first.
pub open spec fn be16(s: Seq<u8>, i: int) -> int {
    s[i] * 256 + s[i + 1]
}

/// The three-byte number at place `i`, most significant byte first.
pub open spec fn be24(s: Seq<u8>, i: int) -> int {
    s[i] * 0x1_0000 + s[i + 1] * 256 + s[i + 2]
}

/// How many bytes a TLS handshake record that begins with `buf` still lacks.
pub open spec fn record_lacks(buf: Seq<u8>) -> Result<int, ProtoError> {
    if buf.len() == 0 {
        Ok(5)
    } else if buf[0] != 0x16 {
        Err(ProtoError::NotTls)
    } else if buf.len() < 5 {
        Ok(5 - buf.len())
    } else if buf[1] != 0x03 {
        Err(ProtoError::NotTls)
    } else if be16(buf, 3) == 0 || be16(buf, 3) > MAX_TLS_RECORD {
        Err(ProtoError::Malformed)
    } else if buf.len() >= 5 + be16(buf, 3) {
        Ok(0)
    } else {
        Ok(5 + be16(buf, 3) - buf.len())
    }
}

/// How many more bytes are needed before the TLS record is complete, or the
/// error if the prefix is already invalid.
pub fn tls_record_needed(buf: &[u8]) -> (r: Result<usize, ProtoError>)
    ensures
        match r {
            Ok(n) => record_lacks(buf@) == Ok::<int, ProtoError>(n as int),
            Err(e) => record_lacks(buf@) == Err::<int, ProtoError>(e),
        },
{
    if buf.len() == 0 {
        return Ok(5);
    }
    if buf[0] != 0x16 {
        return Err(ProtoError::NotTls);
    }
    if buf.len() < 5 {
        return Ok(5 - buf.len());
    }
    if buf[1] != 0x03 {
        return Err(ProtoError::NotTls);
    }
    let record_len: usize = buf[3] as usize * 256 + buf[4] as usize;
    if record_len == 0 || record_len > MAX_TLS_RECORD {
        return Err(ProtoError::Malformed);
    }
    let total: usize = 5 + record_len;
    if buf.len() >= total {
        Ok(0)
    } else {
        Ok(total - buf.len())
    }
}

/// The first host name in a server name list.
pub open spec fn first_name(list: Seq<u8>) -> Result<Option<Seq<char>>, ProtoError>
    decreases list.len(),
{
    if list.len() < 3 {
        Ok(None)
    } else {
        let end = 3 + be16(list, 1);
        if list.len() < end {
            Err(ProtoError::Malformed)
        } else if list[0] != 0 {
            first_name(list.skip(end))
        } else if end == 3 || !vstd::utf8::valid_utf8(list.subrange(3, end)) {
            Err(ProtoError::Malformed)
        } else {
            Ok(Some(vstd::utf8::decode_utf8(list.subrange(3, end))))
        }
    }
}

/// The host name in the body of a server name extension: a length, then the list.
pub open spec fn name_in_extension(data: Seq<u8>) -> Result<Option<Seq<char>>, ProtoError> {
    if data.len() < 2 || data.len() < 2 + be16(data, 0) {
        Err(ProtoError::Malformed)
    } else {
        first_name(data.subrange(2, 2 + be16(data, 0)))
    }
}

/// The host name in a list of extensions, each a type, a length and a body. Type
/// 0 is the server name extension; the first one counts.
pub open spec fn name_in_extensions(exts: Seq<u8>) -> Result<Option<Seq<char>>, ProtoError>
    decreases exts.len(),
{
    if exts.len() < 4 {
        Ok(None)
    } else {
        let end = 4 + be16(exts, 2);
        if exts.len() < end {
            Err(ProtoError::Malformed)
        } else if be16(exts, 0) == 0 {
            name_in_extension(exts.subrange(4, end))
        } else {
            name_in_extensions(exts.skip(end))
        }
    }
}

/// The place behind the session id of a ClientHello: version, random, then the
/// id with its length.
pub open spec fn after_session(hello: Seq<u8>) -> Option<int> {
    if hello.len() > 34 {
        Some(35 + hello[34])
    } else {
        None
    }
}

/// The place behind the cipher suites, which carry a two-byte length.
pub open spec fn after_suites(hello: Seq<u8>) -> Option<int> {
    match after_session(hello) {
        Some(i) if i + 2 <= hello.len() => Some(i + 2 + be16(hello, i)),
        _ => None,
    }
}

/// The place behind the compression methods, which carry a one-byte length.
pub open spec fn after_compression(hello: Seq<u8>) -> Option<int> {
    match after_suites(hello) {
        Some(i) if i < hello.len() => Some(i + 1 + hello[i]),
        _ => None,
    }
}

/// The host name in a ClientHello. Without an extensions block there is none.
pub open spec fn name_in_hello(hello: Seq<u8>) -> Result<Option<Seq<char>>, ProtoError> {
    match after_compression(hello) {
        None => Err(ProtoError::Malformed),
        Some(i) => if i == hello.len() {
            Ok(None)
        } else if i + 2 > hello.len() || i + 2 + be16(hello, i) > hello.len() {
            Err(ProtoError::Malformed)
        } else {
            name_in_extensions(hello.subrange(i + 2, i + 2 + be16(hello, i)))
        },
    }
}

/// The host name in a handshake message: type 1, a three-byte length, a ClientHello.
pub open spec fn name_in_handshake(body: Seq<u8>) -> Result<Option<Seq<char>>, ProtoError> {
    if body.len() < 4 || body[0] != 0x01 {
        Err(ProtoError::NotTls)
    } else if body.len() < 4 + be24(body, 1) {
        Err(ProtoError::Malformed)
    } else {
        name_in_hello(body.subrange(4, 4 + be24(body, 1)))
    }
}

/// The host name in a handshake record: a five-byte header, then the message.
pub open spec fn name_in_record(record: Seq<u8>) -> Result<Option<Seq<char>>, ProtoError> {
    if record.len() < 5 || record[0] != 0x16 {
        Err(ProtoError::NotTls)
    } else if record.len() < 5 + be16(record, 3) {
        Err(ProtoError::Malformed)
    } else {
        name_in_handshake(record.subrange(5, 5 + be16(record, 3)))
    }
}

/// The answer to a first client record: it must be a complete ClientHello, and
/// unless the destination is an IP literal its server name must be the
/// destination's host name.
pub open spec fn hello_verdict(buf: Seq<u8>, host: Seq<char>, ip_literal: bool) -> Result<
    (),
    ProtoError,
> {
    match record_lacks(buf) {
        Err(e) => Err(e),
        Ok(n) => if n != 0 {
            Err(ProtoError::Malformed)
        } else {
            match name_in_record(buf) {
                Err(e) => Err(e),
                Ok(name) => if ip_literal {
                    Ok(())
                } else {
                    match name {
                        None => Err(ProtoError::MissingSni),
                        Some(name) => if dest::normal_hostname(name) == dest::normal_hostname(
                            host,
                        ) {
                            Ok(())
                        } else {
                            Err(ProtoError::SniMismatch)
                        },
                    }
                },
            }
        },
    }
}

/// Checks the first client record against the destination.
pub fn validate_tls_client_hello(
    buf: &[u8],
    expected_host: &str,
    dest_is_ip_literal: bool,
) -> (r: Result<(), ProtoError>)
    ensures
        r == hello_verdict(buf@, expected_host@, dest_is_ip_literal),
{
    match tls_record_needed(buf) {
        Err(e) => {
            return Err(e);
        },
        Ok(n) => {
            if n != 0 {
                return Err(ProtoError::Malformed);
            }
        },
    }
    let sni = match parse_sni(buf) {
        Ok(sni) => sni,
        Err(e) => {
            return Err(e);
        },
    };
    if dest_is_ip_literal {
        return Ok(());
    }
    match sni {
        None => Err(ProtoError::MissingSni),
        Some(name) => {
            let got = dest::normalize_hostname(name.as_str());
            let want = dest::normalize_hostname(expected_host);
            if text::same_text(got.as_str(), want.as_str()) {
                Ok(())
            } else {
                Err(ProtoError::SniMismatch)
            }
        },
    }
}

/// What a name result says as text.
pub open spec fn name_view(r: Result<Option<String>, ProtoError>) -> Result<
    Option<Seq<char>>,
    ProtoError,
> {
    match r {
        Ok(Some(s)) => Ok(Some(s@)),
        Ok(None) => Ok(None),
        Err(e) => Err(e),
    }
}

/// Parses the server name from a complete TLS handshake record containing a
/// ClientHello.
pub fn parse_sni(record: &[u8]) -> (r: Result<Option<String>, ProtoError>)
    ensures
        name_view(r) == name_in_record(record@),
{
    if record.len() < 5 || record[0] != 0x16 {
        return Err(ProtoError::NotTls);
    }
    let record_len: usize = record[3] as usize * 256 + record[4] as usize;
    if record.len() - 5 < record_len {
        return Err(ProtoError::Malformed);
    }
    let body = slice_subrange(record, 5, 5 + record_len);

    // Handshake: type (1) + length (3) + ClientHello
    if body.len() < 4 || body[0] != 0x01 {
        return Err(ProtoError::NotTls);
    }
    let hs_len: usize = u24(body, 1);
    if body.len() - 4 < hs_len {
        return Err(ProtoError::Malformed);
    }
    let hello = slice_subrange(body, 4, 4 + hs_len);

    // client_version (2) + random (32) + session_id
    if hello.len() <= 34 {
        return Err(ProtoError::Malformed);
    }
    let mut i: usize = 35 + hello[34] as usize;
    let cs_len: usize = match u16_at(hello, i) {
        Ok(n) => n as usize,
        Err(e) => {
            return Err(e);
        },
    };
    i = i + 2 + cs_len;
    if i >= hello.len() {
        return Err(ProtoError::Malformed);
    }
    i = i + 1 + hello[i] as usize;

    if i == hello.len() {
        return Ok(None);
    }
    let ext_len: usize = match u16_at(hello, i) {
        Ok(n) => n as usize,
        Err(e) => {
            return Err(e);
        },
    };
    i = i + 2;
    if hello.len() - i < ext_len {
        return Err(ProtoError::Malformed);
    }
    let exts = slice_subrange(hello, i, i + ext_len);

    let mut j: usize = 0;
    assert(exts@.skip(0) =~= exts@);
    while exts.len() - j >= 4
        invariant
            j <= exts@.len(),
            name_in_extensions(exts@) == name_in_extensions(exts@.skip(j as int)),
            name_in_extensions(exts@) == name_in_record(record@),
        decreases exts@.len() - j,
    {
        let typ: usize = exts[j] as usize * 256 + exts[j + 1] as usize;
        let len: usize = exts[j + 2] as usize * 256 + exts[j + 3] as usize;
        let ghost rest = exts@.skip(j as int);
        j = j + 4;
        if exts.len() - j < len {
            return Err(ProtoError::Malformed);
        }
        let data = slice_subrange(exts, j, j + len);
        assert(data@ =~= rest.subrange(4, 4 + be16(rest, 2)));
        j = j + len;
        if typ == 0 {
            return parse_sni_extension(data);
        }
        assert(exts@.skip(j as int) =~= rest.skip(4 + be16(rest, 2)));
    }
    Ok(None)
}

/// `std::str::from_utf8`: the text that the bytes encode, if they are valid UTF-8.
#[verifier::external_body]
fn utf8_text(bytes: &[u8]) -> (r: Option<&str>)
    ensures
        r is Some <==> vstd::utf8::valid_utf8(bytes@),
        r matches Some(s) ==> s@ == vstd::utf8::decode_utf8(bytes@),
{
    std::str::from_utf8(bytes).ok()
}

/// Parses the body of a server name extension.
fn parse_sni_extension(data: &[u8]) -> (r: Result<Option<String>, ProtoError>)
    ensures
        name_view(r) == name_in_extension(data@),
{
    if data.len() < 2 {
        return Err(ProtoError::Malformed);
    }
    let list_len: usize = data[0] as usize * 256 + data[1] as usize;
    if data.len() - 2 < list_len {
        return Err(ProtoError::Malformed);
    }
    let list = slice_subrange(data, 2, 2 + list_len);
    let mut i: usize = 0;
    assert(list@.skip(0) =~= list@);
    while list.len() - i >= 3
        invariant
            i <= list@.len(),
            first_name(list@) == first_name(list@.skip(i as int)),
            first_name(list@) == name_in_extension(data@),
        decreases list@.len() - i,
    {
        let ghost rest = list@.skip(i as int);
        let name_type = list[i];
        let name_len: usize = list[i + 1] as usize * 256 + list[i + 2] as usize;
        i = i + 3;
        if list.len() - i < name_len {
            return Err(ProtoError::Malformed);
        }
        let name = slice_subrange(list, i, i + name_len);
        assert(name@ =~= rest.subrange(3, 3 + be16(rest, 1)));
        i = i + name_len;
        if name_type == 0 {
            if name_len == 0 {
                return Err(ProtoError::Malformed);
            }
            return match utf8_text(name) {
                Some(s) => Ok(Some(s.to_owned())),
                None => Err(ProtoError::Malformed),
            };
        }
        assert(list@.skip(i as int) =~= rest.skip(3 + be16(rest, 1)));
    }
    Ok(None)
}

/// The three-byte number at place `i`.
fn u24(b: &[u8], i: usize) -> (r: usize)
    requires
        i + 3 <= b@.len(),
    ensures
        r == be24(b@, i as int),
        r < 0x100_0000,
{
    b[i] as usize * 0x1_0000 + b[i + 1] as usize * 256 + b[i + 2] as usize
}

/// The two-byte number at place `i`, if it is there.
fn u16_at(buf: &[u8], i: usize) -> (r: Result<u16, ProtoError>)
    requires
        i <= usize::MAX - 2,
    ensures
        match r {
            Ok(n) => i + 2 <= buf@.len() && n == be16(buf@, i as int),
            Err(e) => i + 2 > buf@.len() && e == ProtoError::Malformed,
        },
{
    if i + 2 > buf.len() {
        return Err(ProtoError::Malformed);
    }
    Ok(buf[i] as u16 * 256 + buf[i + 1] as u16)
}

/// Carriage return, line feed, space and tab.
pub open spec fn is_blank(b: u8) -> bool {
    b == 13 || b == 10 || b == 32 || b == 9
}

/// `buf` from its first byte on that is not blank.
pub open spec fn skip_blank(buf: Seq<u8>) -> Seq<u8>
    decreases buf.len(),
{
    if buf.len() > 0 && is_blank(buf.first()) {
        skip_blank(buf.drop_first())
    } else {
        buf
    }
}

/// Whether a greeting's first line is the one that the protocol begins with:
/// `* ` for IMAP, `220 ` or `220-` for SMTP.
pub open spec fn greeting_fits(line: Seq<u8>, kind: ProbeKind) -> bool {
    match kind {
        ProbeKind::ImapGreeting => line.len() >= 2 && line[0] == 42 && line[1] == 32,
        ProbeKind::SmtpGreeting => line.len() >= 4 && line[0] == 50 && line[1] == 50 && line[2]
            == 48 && (line[3] == 32 || line[3] == 45),
        ProbeKind::TlsSni => false,
    }
}

/// Checks a server greeting.
pub fn validate_greeting(buf: &[u8], kind: ProbeKind) -> (r: Result<(), ProtoError>)
    ensures
        r == if greeting_fits(skip_blank(buf@), kind) {
            Ok::<(), ProtoError>(())
        } else {
            Err::<(), ProtoError>(ProtoError::BadGreeting)
        },
{
    // Skip leading CR/LF/whitespace so we look at the first real line.
    let mut start: usize = 0;
    assert(buf@.skip(0) =~= buf@);
    while start < buf.len() && (buf[start] == 13 || buf[start] == 10 || buf[start] == 32
        || buf[start] == 9)
        invariant
            start <= buf@.len(),
            skip_blank(buf@) == skip_blank(buf@.skip(start as int)),
        decreases buf@.len() - start,
    {
        assert(buf@.skip(start as int).drop_first() =~= buf@.skip(start + 1));
        start = start + 1;
    }
    let line = slice_subrange(buf, start, buf.len());
    assert(line@ =~= buf@.skip(start as int));
    let fits = match kind {
        // RFC 3501: greeting is untagged OK / PREAUTH / BYE.
        ProbeKind::ImapGreeting => line.len() >= 2 && line[0] == 42 && line[1] == 32,
        ProbeKind::SmtpGreeting => line.len() >= 4 && line[0] == 50 && line[1] == 50 && line[2]
            == 48 && (line[3] == 32 || line[3] == 45),
        ProbeKind::TlsSni => false,
    };
    if fits {
        Ok(())
    } else {
        Err(ProtoError::BadGreeting)
    }
}

/// Whether enough of a greeting has come: a line feed, or as much as is ever read.
pub fn greeting_complete(buf: &[u8]) -> (r: bool)
    ensures
        r == (buf@.contains(10u8) || buf@.len() >= MAX_GREETING),
{
    let mut i: usize = 0;
    while i < buf.len()
        invariant
            i <= buf@.len(),
            forall|k: int| 0 <= k < i ==> buf@[k] != 10,
        decreases buf@.len() - i,
    {
        if buf[i] == 10 {
            assert(buf@[i as int] == 10u8);
            return true;
        }
        i += 1;
    }
    buf.len() >= MAX_GREETING
}

/// How much of a greeting is ever read while waiting for its end of line.
pub fn max_greeting_bytes() -> (r: usize)
    ensures
        r == MAX_GREETING,
{
    MAX_GREETING
}

/// Once the header of a record is there, what it lacks shrinks by what comes.
pub proof fn law_record_lacks_less(buf: Seq<u8>, more: Seq<u8>)
    requires
        buf.len() >= 5,
        record_lacks(buf) is Ok,
    ensures
        record_lacks(buf + more) == Ok::<int, ProtoError>(
            if more.len() >= record_lacks(buf)->Ok_0 {
                0
            } else {
                record_lacks(buf)->Ok_0 - more.len()
            },
        ),
{
}

/// What begins like no TLS record never becomes one.
pub proof fn law_rejected_stays_rejected(buf: Seq<u8>, more: Seq<u8>)
    requires
        record_lacks(buf) is Err,
    ensures
        record_lacks(buf + more) == record_lacks(buf),
{
}

/// Until a record is complete it lacks something, so it is never accepted early.
pub proof fn law_incomplete_is_not_accepted(buf: Seq<u8>, host: Seq<char>, ip_literal: bool)
    requires
        hello_verdict(buf, host, ip_literal) is Ok,
    ensures
        record_lacks(buf) == Ok::<int, ProtoError>(0),
        buf.len() >= 5 + be16(buf, 3),
        !ip_literal ==> (name_in_record(buf) matches Ok(Some(name)) && dest::normal_hostname(name)
            == dest::normal_hostname(host)),
{
}

/// What follows the first complete record changes nothing: neither the name in it
/// nor the answer to it.
pub proof fn law_rest_is_ignored(
    record: Seq<u8>,
    rest: Seq<u8>,
    host: Seq<char>,
    ip_literal: bool,
)
    requires
        record_lacks(record) == Ok::<int, ProtoError>(0),
    ensures
        record_lacks(record + rest) == Ok::<int, ProtoError>(0),
        name_in_record(record + rest) == name_in_record(record),
        hello_verdict(record + rest, host, ip_literal) == hello_verdict(record, host, ip_literal),
{
    let n = 5 + be16(record, 3);
    assert((record + rest).subrange(5, n) =~= record.subrange(5, n));
}

/// Carriage returns, line feeds, spaces and tabs before a greeting change nothing.
pub proof fn law_leading_blanks_are_ignored(blanks: Seq<u8>, greet: Seq<u8>, kind: ProbeKind)
    requires
        forall|i: int| 0 <= i < blanks.len() ==> is_blank(#[trigger] blanks[i]),
    ensures
        skip_blank(blanks + greet) == skip_blank(greet),
        greeting_fits(skip_blank(blanks + greet), kind) == greeting_fits(skip_blank(greet), kind),
    decreases blanks.len(),
{
    if blanks.len() == 0 {
        assert(blanks + greet =~= greet);
    } else {
        let rest = blanks.drop_first();
        assert(is_blank(blanks[0]));
        assert forall|i: int| 0 <= i < rest.len() implies is_blank(#[trigger] rest[i]) by {
            assert(rest[i] == blanks[i + 1]);
        }
        law_leading_blanks_are_ignored(rest, greet, kind);
        assert((blanks + greet).drop_first() =~= rest + greet);
    }
}

/// A number in two bytes, most significant byte first.
pub open spec fn bytes16(n: int) -> Seq<u8> {
    seq![(n / 256) as u8, (n % 256) as u8]
}

/// A number in three bytes, most significant byte first.
pub open spec fn bytes24(n: int) -> Seq<u8> {
    seq![(n / 0x1_0000) as u8, (n / 256 % 256) as u8, (n % 256) as u8]
}

/// Bytes with their length in one byte before them.
pub open spec fn vector8(data: Seq<u8>) -> Seq<u8> {
    seq![data.len() as u8] + data
}

/// Bytes with their length in two bytes before them.
pub open spec fn vector16(data: Seq<u8>) -> Seq<u8> {
    bytes16(data.len() as int) + data
}

/// Bytes with their length in three bytes before them.
pub open spec fn vector24(data: Seq<u8>) -> Seq<u8> {
    bytes24(data.len() as int) + data
}

/// The entries of a server name list, each a type and a name.
pub open spec fn name_entries(list: Seq<(u8, Seq<u8>)>) -> Seq<u8>
    decreases list.len(),
{
    if list.len() == 0 {
        Seq::empty()
    } else {
        seq![list[0].0] + vector16(list[0].1) + name_entries(list.drop_first())
    }
}

/// Extensions, each a type and a body.
pub open spec fn extensions(list: Seq<(int, Seq<u8>)>) -> Seq<u8>
    decreases list.len(),
{
    if list.len() == 0 {
        Seq::empty()
    } else {
        bytes16(list[0].0) + vector16(list[0].1) + extensions(list.drop_first())
    }
}

/// What stands in a ClientHello before its extensions.
pub struct HelloStart {
    pub version: Seq<u8>,
    pub random: Seq<u8>,
    pub session: Seq<u8>,
    pub suites: Seq<u8>,
    pub compression: Seq<u8>,
}

impl HelloStart {
    /// Whether each field has a length that it may have.
    pub open spec fn valid(self) -> bool {
        &&& self.version.len() == 2
        &&& self.random.len() == 32
        &&& self.session.len() < 256
        &&& self.suites.len() < 0x1_0000
        &&& self.compression.len() < 256
    }

    /// The bytes of these fields.
    pub open spec fn bytes(self) -> Seq<u8> {
        self.version + self.random + vector8(self.session) + vector16(self.suites) + vector8(
            self.compression,
        )
    }
}

/// The handshake record of a message of type `kind`.
pub open spec fn handshake_record(minor: u8, kind: u8, message: Seq<u8>) -> Seq<u8> {
    seq![22u8, 3u8, minor] + vector16(seq![kind] + vector24(message))
}

/// Whether each of `list` has a type other than 0, and a body whose length can be
/// written.
pub open spec fn are_other_extensions(list: Seq<(int, Seq<u8>)>) -> bool {
    forall|i: int|
        0 <= i < list.len() ==> 0 < (#[trigger] list[i]).0 < 0x1_0000 && list[i].1.len()
            < 0x1_0000
}

/// Whether each of `list` is a name of a type other than that of host names, whose
/// length can be written.
pub open spec fn are_other_names(list: Seq<(u8, Seq<u8>)>) -> bool {
    forall|i: int|
        0 <= i < list.len() ==> (#[trigger] list[i]).0 != 0 && list[i].1.len() < 0x1_0000
}

proof fn lemma_vector16(data: Seq<u8>, before: Seq<u8>, after: Seq<u8>)
    requires
        data.len() < 0x1_0000,
    ensures
        be16(before + vector16(data) + after, before.len() as int) == data.len(),
        (before + vector16(data) + after).subrange(
            before.len() as int + 2,
            before.len() as int + 2 + data.len(),
        ) == data,
        (before + vector16(data) + after).skip(before.len() as int + 2 + data.len()) == after,
        (before + vector16(data) + after).len() == before.len() + 2 + data.len() + after.len(),
{
    let n = data.len() as int;
    let s = before + vector16(data) + after;
    let k = before.len() as int;
    assert(s[k] == (n / 256) as u8 && s[k + 1] == (n % 256) as u8);
    assert(s.subrange(k + 2, k + 2 + n) =~= data);
    assert(s.skip(k + 2 + n) =~= after);
}

/// The first host name counts, whatever other names stand before it.
proof fn lemma_name_entries(others: Seq<(u8, Seq<u8>)>, name: Seq<char>, rest: Seq<u8>)
    requires
        are_other_names(others),
        name.len() > 0,
        vstd::utf8::encode_utf8(name).len() < 0x1_0000,
    ensures
        first_name(
            name_entries(others) + (seq![0u8] + vector16(vstd::utf8::encode_utf8(name)) + rest),
        ) == Ok::<Option<Seq<char>>, ProtoError>(Some(name)),
    decreases others.len(),
{
    let text = vstd::utf8::encode_utf8(name);
    let tail = seq![0u8] + vector16(text) + rest;
    let s = name_entries(others) + tail;
    if others.len() == 0 {
        assert(s =~= tail);
        lemma_vector16(text, seq![0u8], rest);
        vstd::utf8::encode_utf8_valid_utf8(name);
        vstd::utf8::encode_utf8_decode_utf8(name);
        assert(text.len() > 0) by {
            vstd::utf8::encode_utf8_first_scalar(name);
        }
    } else {
        let (kind, body) = others[0];
        let more = others.drop_first();
        assert forall|i: int| 0 <= i < more.len() implies (#[trigger] more[i]).0 != 0
            && more[i].1.len() < 0x1_0000 by {
            assert(more[i] == others[i + 1]);
        }
        lemma_name_entries(more, name, rest);
        let after = name_entries(more) + tail;
        assert(s =~= seq![kind] + vector16(body) + after);
        lemma_vector16(body, seq![kind], after);
    }
}

/// Extensions of other types are passed over.
proof fn lemma_other_extensions(others: Seq<(int, Seq<u8>)>, rest: Seq<u8>)
    requires
        are_other_extensions(others),
    ensures
        name_in_extensions(extensions(others) + rest) == name_in_extensions(rest),
    decreases others.len(),
{
    let s = extensions(others) + rest;
    if others.len() == 0 {
        assert(s =~= rest);
    } else {
        let (kind, body) = others[0];
        let more = others.drop_first();
        assert forall|i: int| 0 <= i < more.len() implies 0 < (#[trigger] more[i]).0 < 0x1_0000
            && more[i].1.len() < 0x1_0000 by {
            assert(more[i] == others[i + 1]);
        }
        lemma_other_extensions(more, rest);
        let after = extensions(more) + rest;
        assert(s =~= bytes16(kind) + vector16(body) + after);
        lemma_vector16(body, bytes16(kind), after);
        assert(be16(s, 0) == kind);
    }
}

/// A ClientHello whose extensions are `exts`, or that has no extensions block, has
/// the name that these have.
proof fn lemma_hello_name(start: HelloStart, exts: Seq<u8>)
    requires
        start.valid(),
        exts.len() < 0x1_0000,
    ensures
        name_in_hello(start.bytes() + vector16(exts)) == name_in_extensions(exts),
        name_in_hello(start.bytes()) == Ok::<Option<Seq<char>>, ProtoError>(None),
{
    let a = start.version + start.random;
    let b = a + vector8(start.session);
    let c = b + vector16(start.suites);
    let d = c + vector8(start.compression);
    assert(d == start.bytes());
    let s = d + vector16(exts);
    assert(s[34] == start.session.len() && d[34] == start.session.len());
    assert(s =~= b + vector16(start.suites) + (vector8(start.compression) + vector16(exts)));
    assert(d =~= b + vector16(start.suites) + vector8(start.compression));
    lemma_vector16(start.suites, b, vector8(start.compression) + vector16(exts));
    lemma_vector16(start.suites, b, vector8(start.compression));
    assert(s[c.len() as int] == start.compression.len());
    assert(d[c.len() as int] == start.compression.len());
    assert(s =~= d + vector16(exts) + Seq::<u8>::empty());
    lemma_vector16(exts, d, Seq::empty());
}

/// A record lacks what has not come of it, and is complete with its last byte, if its
/// message is no longer than a record may be.
pub proof fn law_record_is_complete_at_its_end(minor: u8, kind: u8, message: Seq<u8>, k: int)
    requires
        message.len() + 4 <= 16384,
        0 <= k <= 9 + message.len(),
    ensures
        handshake_record(minor, kind, message).len() == 9 + message.len(),
        record_lacks(handshake_record(minor, kind, message).take(k)) == Ok::<int, ProtoError>(
            if k < 5 {
                5 - k
            } else {
                9 + message.len() - k
            },
        ),
{
    let body = seq![kind] + vector24(message);
    let r = handshake_record(minor, kind, message);
    assert(r =~= seq![22u8, 3u8, minor] + vector16(body) + Seq::<u8>::empty());
    lemma_vector16(body, seq![22u8, 3u8, minor], Seq::empty());
    if k >= 5 {
        assert(be16(r.take(k), 3) == be16(r, 3));
    }
}

/// The name in a record is that of the message in it, if the message is a ClientHello,
/// and a message of another type is refused.
proof fn lemma_record_name(minor: u8, kind: u8, message: Seq<u8>)
    requires
        message.len() + 4 < 0x1_0000,
    ensures
        name_in_record(handshake_record(minor, kind, message)) == if kind == 1 {
            name_in_hello(message)
        } else {
            Err(ProtoError::NotTls)
        },
{
    let n = message.len() as int;
    let body = seq![kind] + vector24(message);
    let r = handshake_record(minor, kind, message);
    assert(r =~= seq![22u8, 3u8, minor] + vector16(body) + Seq::<u8>::empty());
    lemma_vector16(body, seq![22u8, 3u8, minor], Seq::empty());
    assert(body[1] == (n / 0x1_0000) as u8 && body[2] == (n / 256 % 256) as u8 && body[3] == (n
        % 256) as u8);
    assert(be24(body, 1) == n);
    assert(body.subrange(4, 4 + n) =~= message);
}

/// A server name list with a host name behind other names.
pub open spec fn name_list(others: Seq<(u8, Seq<u8>)>, name: Seq<char>) -> Seq<u8> {
    name_entries(others) + (seq![0u8] + vector16(vstd::utf8::encode_utf8(name)))
}

/// Extensions with a server name list behind others and before anything else.
pub open spec fn naming_extensions(
    before: Seq<(int, Seq<u8>)>,
    list: Seq<u8>,
    rest: Seq<u8>,
) -> Seq<u8> {
    extensions(before) + (bytes16(0) + vector16(vector16(list)) + rest)
}

proof fn lemma_naming_extensions(before: Seq<(int, Seq<u8>)>, list: Seq<u8>, rest: Seq<u8>)
    requires
        are_other_extensions(before),
        list.len() + 2 < 0x1_0000,
    ensures
        name_in_extensions(naming_extensions(before, list, rest)) == first_name(list),
{
    let data = vector16(list);
    let here = bytes16(0) + vector16(data) + rest;
    assert(data =~= Seq::<u8>::empty() + vector16(list) + Seq::<u8>::empty());
    lemma_vector16(list, Seq::empty(), Seq::empty());
    assert(name_in_extension(data) == first_name(list));
    lemma_vector16(data, bytes16(0), rest);
    assert(be16(here, 0) == 0);
    assert(name_in_extensions(here) == name_in_extension(data));
    lemma_other_extensions(before, here);
}

proof fn lemma_name_list(others: Seq<(u8, Seq<u8>)>, name: Seq<char>)
    requires
        are_other_names(others),
        name.len() > 0,
        vstd::utf8::encode_utf8(name).len() < 0x1_0000,
    ensures
        first_name(name_list(others, name)) == Ok::<Option<Seq<char>>, ProtoError>(Some(name)),
{
    let entry = seq![0u8] + vector16(vstd::utf8::encode_utf8(name));
    lemma_name_entries(others, name, Seq::empty());
    assert(entry + Seq::<u8>::empty() =~= entry);
}

/// The server name that a ClientHello writes is read back, whatever stands in the
/// fields before it, before it in the list of names, and around it in the list of
/// extensions. The record is accepted for a destination exactly if that is an IP
/// literal or has this name.
pub proof fn law_server_name_reads_back(
    minor: u8,
    start: HelloStart,
    before: Seq<(int, Seq<u8>)>,
    others: Seq<(u8, Seq<u8>)>,
    name: Seq<char>,
    rest: Seq<u8>,
    host: Seq<char>,
    ip_literal: bool,
)
    requires
        start.valid(),
        are_other_extensions(before),
        are_other_names(others),
        name.len() > 0,
        vstd::utf8::encode_utf8(name).len() < 0x1_0000,
        name_list(others, name).len() + 2 < 0x1_0000,
        start.bytes().len() + 2 + naming_extensions(before, name_list(others, name), rest).len()
            + 4 <= 16384,
    ensures
        ({
            let exts = naming_extensions(before, name_list(others, name), rest);
            let record = handshake_record(minor, 1, start.bytes() + vector16(exts));
            &&& name_in_record(record) == Ok::<Option<Seq<char>>, ProtoError>(Some(name))
            &&& hello_verdict(record, host, ip_literal) == if ip_literal
                || dest::normal_hostname(name) == dest::normal_hostname(host) {
                Ok::<(), ProtoError>(())
            } else {
                Err::<(), ProtoError>(ProtoError::SniMismatch)
            }
        }),
{
    let exts = naming_extensions(before, name_list(others, name), rest);
    let message = start.bytes() + vector16(exts);
    let record = handshake_record(minor, 1, message);
    lemma_name_list(others, name);
    lemma_naming_extensions(before, name_list(others, name), rest);
    lemma_hello_name(start, exts);
    assert(message.len() == start.bytes().len() + 2 + exts.len());
    lemma_record_name(minor, 1, message);
    law_record_is_complete_at_its_end(minor, 1, message, 9 + message.len() as int);
    assert(record.take(9 + message.len() as int) =~= record);
}

/// A ClientHello without a server name, with other extensions or with none, has no
/// name: it is accepted for an IP literal and refused for a name. A handshake message
/// of another type is no ClientHello.
pub proof fn law_hello_without_a_name(
    minor: u8,
    start: HelloStart,
    others: Seq<(int, Seq<u8>)>,
    host: Seq<char>,
    kind: u8,
    message: Seq<u8>,
    ip_literal: bool,
)
    requires
        start.valid(),
        are_other_extensions(others),
        start.bytes().len() + 2 + extensions(others).len() + 4 <= 16384,
        kind != 1,
        message.len() + 4 <= 16384,
    ensures
        ({
            let none = Ok::<Option<Seq<char>>, ProtoError>(None);
            let bare = handshake_record(minor, 1, start.bytes());
            let full = handshake_record(minor, 1, start.bytes() + vector16(extensions(others)));
            let verdict = if ip_literal {
                Ok::<(), ProtoError>(())
            } else {
                Err::<(), ProtoError>(ProtoError::MissingSni)
            };
            &&& name_in_record(bare) == none
            &&& name_in_record(full) == none
            &&& hello_verdict(bare, host, ip_literal) == verdict
            &&& hello_verdict(full, host, ip_literal) == verdict
        }),
        hello_verdict(handshake_record(minor, kind, message), host, ip_literal) == Err::<
            (),
            ProtoError,
        >(ProtoError::NotTls),
{
    let exts = extensions(others);
    let bare = start.bytes();
    let full = start.bytes() + vector16(exts);
    lemma_other_extensions(others, Seq::empty());
    assert(exts + Seq::<u8>::empty() =~= exts);
    lemma_hello_name(start, exts);
    lemma_record_name(minor, 1, bare);
    lemma_record_name(minor, 1, full);
    lemma_record_name(minor, kind, message);
    law_record_is_complete_at_its_end(minor, 1, bare, 9 + bare.len() as int);
    law_record_is_complete_at_its_end(minor, 1, full, 9 + full.len() as int);
    law_record_is_complete_at_its_end(minor, kind, message, 9 + message.len() as int);
    let a = handshake_record(minor, 1, bare);
    let b = handshake_record(minor, 1, full);
    let c = handshake_record(minor, kind, message);
    assert(a.take(a.len() as int) =~= a);
    assert(b.take(b.len() as int) =~= b);
    assert(c.take(c.len() as int) =~= c);
}

/// Greetings of the protocols are accepted behind any blanks, and no other: `* ` for
/// IMAP, `220` with a space or a hyphen for SMTP.
pub proof fn law_greetings(blanks: Seq<u8>, first: u8, rest: Seq<u8>)
    requires
        forall|i: int| 0 <= i < blanks.len() ==> is_blank(#[trigger] blanks[i]),
        !is_blank(first),
    ensures
        ({
            let line = seq![first] + rest;
            let greet = skip_blank(blanks + line);
            &&& greeting_fits(greet, ProbeKind::ImapGreeting) <==> line.len() >= 2 && line.take(2)
                == seq!['*' as u8, ' ' as u8]
            &&& greeting_fits(greet, ProbeKind::SmtpGreeting) <==> line.len() >= 4 && (line.take(4)
                == seq!['2' as u8, '2' as u8, '0' as u8, ' ' as u8] || line.take(4)
                == seq!['2' as u8, '2' as u8, '0' as u8, '-' as u8])
            &&& !greeting_fits(greet, ProbeKind::TlsSni)
        }),
{
    let line = seq![first] + rest;
    law_leading_blanks_are_ignored(blanks, line, ProbeKind::ImapGreeting);
    assert(skip_blank(line) == line);
    if line.len() >= 2 {
        assert(line.take(2) =~= seq![line[0], line[1]]);
        assert(line.take(2)[0] == line[0] && line.take(2)[1] == line[1]);
    }
    if line.len() >= 4 {
        let four = line.take(4);
        assert(four =~= seq![line[0], line[1], line[2], line[3]]);
        assert(four[0] == line[0] && four[1] == line[1] && four[2] == line[2] && four[3]
            == line[3]);
    }
}

/// The blanks are the carriage return, the line feed, the space and the tab.
pub proof fn law_blanks(b: u8)
    ensures
        is_blank(b) <==> b == '\r' as u8 || b == '\n' as u8 || b == ' ' as u8 || b == '\t' as u8,
{
}

/// What begins with another byte than that of a handshake is no TLS. Once the five
/// bytes of the header are there, neither is what has another version than 3, and a
/// record that is empty or longer than 16384 bytes is malformed.
pub proof fn law_other_records_are_refused(buf: Seq<u8>, host: Seq<char>, ip_literal: bool)
    requires
        buf.len() > 0,
    ensures
        ({
            let n = 256 * buf[3] + buf[4];
            let lacks = record_lacks(buf);
            &&& buf[0] != 22 ==> lacks == Err::<int, ProtoError>(ProtoError::NotTls)
            &&& buf[0] == 22 && buf.len() >= 5 && buf[1] != 3 ==> lacks == Err::<int, ProtoError>(
                ProtoError::NotTls,
            )
            &&& buf[0] == 22 && buf.len() >= 5 && buf[1] == 3 && (n == 0 || n > 16384) ==> lacks
                == Err::<int, ProtoError>(ProtoError::Malformed)
            &&& lacks matches Ok(more) ==> buf.len() + more >= 5 && (more > 0
                ==> hello_verdict(buf, host, ip_literal) == Err::<(), ProtoError>(
                ProtoError::Malformed,
            ))
        }),
{
}

}
