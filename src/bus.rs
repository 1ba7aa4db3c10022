//! The bytes exchanged with the bus over its command connection: the
//! commands sent, and the checks of its replies when connecting.

use crate::receiver::RedisCmd;
use vstd::prelude::*;
use vstd::string::*;

verus! {

/// Why a connection to the bus is refused.
#[derive(Clone, Copy, Debug, PartialEq, Eq, Structural)]
pub enum RedisConnErr {
    /// The password was not accepted.
    IncorrectPassword,
    /// The bus wants a password and none was given.
    MissingPassword,
    /// The server answered as an HTTP server.
    NotRedis,
    /// Any other answer to `PING`.
    InvalidRedisReply,
}

/// The ASCII digits of `n`.
pub open spec fn dec_bytes(n: nat) -> Seq<u8>
    decreases n,
{
    if n < 10 {
        seq![(48 + n) as u8]
    } else {
        dec_bytes(n / 10).push((48 + n % 10) as u8)
    }
}

pub open spec fn crlf() -> Seq<u8> {
    seq![13u8, 10u8]
}

/// A bulk string: `$`, the length in digits, `\r\n`, the bytes, `\r\n`.
pub open spec fn bulk(b: Seq<u8>) -> Seq<u8> {
    seq![36u8] + dec_bytes(b.len()) + crlf() + b + crlf()
}

/// A command of two words, as the bus reads it.
pub open spec fn command_frame(op: Seq<u8>, arg: Seq<u8>) -> Seq<u8> {
    seq![42u8, 50u8] + crlf() + bulk(op) + bulk(arg)
}

pub open spec fn op_word(cmd: RedisCmd) -> Seq<u8> {
    match cmd {
        RedisCmd::Subscribe => "subscribe"@.map_values(|c: char| c as u8),
        RedisCmd::Unsubscribe => "unsubscribe"@.map_values(|c: char| c as u8),
    }
}

fn push_dec_bytes(out: &mut Vec<u8>, n: u64)
    ensures
        final(out)@ == old(out)@ + dec_bytes(n as nat),
    decreases n,
{
    if n >= 10 {
        push_dec_bytes(out, n / 10);
    }
    out.push((48 + n % 10) as u8);
    proof {
        assert(final(out)@ =~= old(out)@ + dec_bytes(n as nat));
    }
}

fn push_bulk(out: &mut Vec<u8>, b: &[u8])
    ensures
        final(out)@ == old(out)@ + bulk(b@),
{
    out.push(36);
    push_dec_bytes(out, b.len() as u64);
    out.push(13);
    out.push(10);
    out.extend_from_slice(b);
    out.push(13);
    out.push(10);
    assert(final(out)@ =~= old(out)@ + bulk(b@));
}

fn frame2(op: &[u8], arg: &[u8]) -> (r: Vec<u8>)
    ensures
        r@ == command_frame(op@, arg@),
{
    let mut out: Vec<u8> = Vec::new();
    out.push(42);
    out.push(50);
    out.push(13);
    out.push(10);
    push_bulk(&mut out, op);
    push_bulk(&mut out, arg);
    assert(out@ =~= command_frame(op@, arg@));
    out
}

/// The bytes that ask the bus to subscribe to, or unsubscribe from, a
/// channel.
pub fn command_bytes(cmd: RedisCmd, channel: &str) -> (r: Vec<u8>)
    ensures
        r@ == command_frame(op_word(cmd), channel.spec_bytes()),
{
    let op: &str = match cmd {
        RedisCmd::Subscribe => "subscribe",
        RedisCmd::Unsubscribe => "unsubscribe",
    };
    proof {
        reveal_strlit("subscribe");
        reveal_strlit("unsubscribe");
        assert(is_ascii(op));
        assert(op.spec_bytes() =~= op_word(cmd));
    }
    frame2(op.as_bytes(), channel.as_bytes())
}

/// The bytes that authenticate with `pass`.
pub fn auth_bytes(pass: &str) -> (r: Vec<u8>)
    ensures
        r@ == command_frame(seq![97u8, 117u8, 116u8, 104u8], pass.spec_bytes()),
{
    let op: [u8; 4] = [97, 117, 116, 104];
    let v = frame2(op.as_slice(), pass.as_bytes());
    proof {
        assert(op@ =~= seq![97u8, 117u8, 116u8, 104u8]);
    }
    v
}

/// `+OK\r\n`
pub open spec fn ok_reply() -> Seq<u8> {
    seq![43u8, 79u8, 75u8, 13u8, 10u8]
}

/// `+PONG\r\n`
pub open spec fn pong_reply() -> Seq<u8> {
    seq![43u8, 80u8, 79u8, 78u8, 71u8, 13u8, 10u8]
}

/// `-NOAUTH`
pub open spec fn noauth_reply() -> Seq<u8> {
    seq![45u8, 78u8, 79u8, 65u8, 85u8, 84u8, 72u8]
}

/// `HTTP/1.`
pub open spec fn http_reply() -> Seq<u8> {
    seq![72u8, 84u8, 84u8, 80u8, 47u8, 49u8, 46u8]
}

fn bytes_eq(a: &[u8], b: &[u8]) -> (r: bool)
    ensures
        r == (a@ == b@),
{
    if a.len() != b.len() {
        return false;
    }
    let mut i: usize = 0;
    while i < a.len()
        invariant
            a@.len() == b@.len(),
            0 <= i <= a@.len(),
            forall|k: int| 0 <= k < i ==> a@[k] == b@[k],
        decreases a@.len() - i,
    {
        if a[i] != b[i] {
            return false;
        }
        i = i + 1;
    }
    assert(a@ =~= b@);
    true
}

/// Checks the bus's answer to `AUTH`.
pub fn check_auth_reply(reply: &[u8]) -> (r: Result<(), RedisConnErr>)
    ensures
        r is Ok <==> reply@ == ok_reply(),
        r is Err ==> r->Err_0 == RedisConnErr::IncorrectPassword,
{
    let ok: [u8; 5] = [43, 79, 75, 13, 10];
    proof {
        assert(ok@ =~= ok_reply());
    }
    if bytes_eq(reply, ok.as_slice()) {
        Ok(())
    } else {
        Err(RedisConnErr::IncorrectPassword)
    }
}

/// Checks the bus's answer to `PING`.
pub fn check_ping_reply(reply: &[u8]) -> (r: Result<(), RedisConnErr>)
    ensures
        r is Ok <==> reply@ == pong_reply(),
        r is Err ==> r->Err_0 == if reply@ == noauth_reply() {
            RedisConnErr::MissingPassword
        } else if reply@ == http_reply() {
            RedisConnErr::NotRedis
        } else {
            RedisConnErr::InvalidRedisReply
        },
{
    let pong: [u8; 7] = [43, 80, 79, 78, 71, 13, 10];
    let noauth: [u8; 7] = [45, 78, 79, 65, 85, 84, 72];
    let http: [u8; 7] = [72, 84, 84, 80, 47, 49, 46];
    proof {
        assert(pong@ =~= pong_reply());
        assert(noauth@ =~= noauth_reply());
        assert(http@ =~= http_reply());
        assert(pong_reply() != noauth_reply()) by {
            assert(pong_reply()[0] != noauth_reply()[0]);
        }
        assert(pong_reply() != http_reply()) by {
            assert(pong_reply()[0] != http_reply()[0]);
        }
    }
    if bytes_eq(reply, pong.as_slice()) {
        Ok(())
    } else if bytes_eq(reply, noauth.as_slice()) {
        Err(RedisConnErr::MissingPassword)
    } else if bytes_eq(reply, http.as_slice()) {
        Err(RedisConnErr::NotRedis)
    } else {
        Err(RedisConnErr::InvalidRedisReply)
    }
}

} // verus!
