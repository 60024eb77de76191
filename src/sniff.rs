use vstd::prelude::*;

verus! {

/// TLS handshake message type of a ClientHello.
pub const HANDSHAKE_TYPE_CLIENT_HELLO: u8 = 1;

/// Largest handshake length, exclusive, that still looks like a ClientHello.
pub const MAX_HELLO_LEN: u32 = 10000;

/// Why the first bytes of a connection do not look like a TLS ClientHello.
#[derive(Clone, Copy, Debug, PartialEq, Eq, Structural)]
pub enum SniffError {
    /// Fewer than the nine bytes needed.
    Truncated,
    /// The handshake message has this type, not ClientHello.
    NotClientHello(u8),
    /// The handshake message declares this length, too long for a ClientHello.
    BadLength(u32),
}

/// Big-endian value of three bytes.
pub open spec fn be24(a: u8, b: u8, c: u8) -> nat {
    (a as nat) * 65536 + (b as nat) * 256 + (c as nat)
}

/// Reads a big-endian 24-bit integer from the first three bytes of `buf`.
pub fn read_u24(buf: &[u8]) -> (r: Option<u32>)
    ensures
        buf@.len() < 3 ==> r.is_none(),
        buf@.len() >= 3 ==> r == Some(be24(buf@[0], buf@[1], buf@[2]) as u32),
{
    if buf.len() < 3 {
        None
    } else {
        Some((buf[0] as u32) * 65536 + (buf[1] as u32) * 256 + (buf[2] as u32))
    }
}

/// What sniffing the first bytes `b` of a connection finds: past the 5-byte record header
/// comes the handshake type, then its 24-bit length.
pub open spec fn sniff_result(b: Seq<u8>) -> Result<(), SniffError> {
    if b.len() < 6 {
        Err(SniffError::Truncated)
    } else if b[5] != HANDSHAKE_TYPE_CLIENT_HELLO {
        Err(SniffError::NotClientHello(b[5]))
    } else if b.len() < 9 {
        Err(SniffError::Truncated)
    } else if be24(b[6], b[7], b[8]) < MAX_HELLO_LEN {
        Ok(())
    } else {
        Err(SniffError::BadLength(be24(b[6], b[7], b[8]) as u32))
    }
}

/// Guesses whether the first bytes of a TCP connection are a TLS ClientHello.
pub fn guess_client_hello(buf: &[u8]) -> (r: Result<(), SniffError>)
    ensures
        r == sniff_result(buf@),
{
    if buf.len() < 6 {
        return Err(SniffError::Truncated);
    }
    let typ = buf[5];
    if typ != HANDSHAKE_TYPE_CLIENT_HELLO {
        return Err(SniffError::NotClientHello(typ));
    }
    let rest = vstd::slice::slice_subrange(buf, 6, buf.len());
    match read_u24(rest) {
        None => Err(SniffError::Truncated),
        Some(len) => {
            if len < MAX_HELLO_LEN {
                Ok(())
            } else {
                Err(SniffError::BadLength(len))
            }
        },
    }
}

} // verus!
