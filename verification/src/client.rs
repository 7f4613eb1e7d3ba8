//! The client's side of the protocol: turning operator input lines into
//! frames, and reading the server's single-byte replies. A line is split at
//! its first space into a command name and an optional remainder; `ping`
//! takes no remainder, `send` sends its remainder (empty if missing), and
//! anything else is a local error with nothing transmitted.

use vstd::prelude::*;
use crate::be::{be_to_int, int_to_be, lemma_be_round_trip, pow256};
use crate::codec::{encoding_of, ClientMessage};

verus! {

/// A local input error: reported to the operator, nothing is transmitted.
#[derive(Debug)]
pub enum CommandError {
    /// `ping` was given a remainder.
    PingWithArgument,
    /// The command name is not `ping` or `send`.
    Unrecognized,
}

/// What the server can say back: a single 0x01 byte is a pong, any other
/// byte is unknown data.
pub enum ServerReply {
    Pong,
    Unknown,
}

/// The index of the first space in a line, or its length if there is none.
pub open spec fn first_space(s: Seq<u8>) -> int
    decreases s.len(),
{
    if s.len() == 0 {
        0
    } else if s[0] == 32 {
        0
    } else {
        1 + first_space(s.skip(1))
    }
}

/// The command name: everything before the first space.
pub open spec fn head_of(s: Seq<u8>) -> Seq<u8> {
    s.take(first_space(s))
}

/// The remainder: everything after the first space, or nothing if the line
/// has no space.
pub open spec fn rest_of(s: Seq<u8>) -> Option<Seq<u8>> {
    if first_space(s) == s.len() {
        None
    } else {
        Some(s.skip(first_space(s) + 1))
    }
}

pub open spec fn ping_word() -> Seq<u8> {
    seq![112u8, 105u8, 110u8, 103u8]
}

pub open spec fn send_word() -> Seq<u8> {
    seq![115u8, 101u8, 110u8, 100u8]
}

proof fn lemma_first_space(s: Seq<u8>)
    ensures
        0 <= first_space(s) <= s.len(),
        first_space(s) < s.len() ==> s[first_space(s)] == 32,
        forall|k: int| 0 <= k < first_space(s) ==> s[k] != 32,
    decreases s.len(),
{
    if s.len() > 0 && s[0] != 32 {
        lemma_first_space(s.skip(1));
        let f = first_space(s);
        assert(f == 1 + first_space(s.skip(1)));
        if f < s.len() {
            assert(s.skip(1)[f - 1] == s[f]);
        }
        assert forall|k: int| 0 <= k < f implies s[k] != 32 by {
            if k > 0 {
                assert(s.skip(1)[k - 1] == s[k]);
            }
        }
    }
}

/// Parses one operator input line, split at its first space, into the frame
/// to transmit or a local error.
pub fn parse_command(line: &[u8]) -> (r: Result<ClientMessage, CommandError>)
    ensures
        head_of(line@) == ping_word() && rest_of(line@) is None ==> r == Ok::<
            ClientMessage,
            CommandError,
        >(ClientMessage::Ping),
        head_of(line@) == ping_word() && rest_of(line@) is Some ==> r == Err::<
            ClientMessage,
            CommandError,
        >(CommandError::PingWithArgument),
        head_of(line@) == send_word() ==> (r matches Ok(m) && m matches ClientMessage::Send(p)
            && p@ == (match rest_of(line@) {
            Some(t) => t,
            None => Seq::<u8>::empty(),
        })),
        head_of(line@) != ping_word() && head_of(line@) != send_word() ==> r == Err::<
            ClientMessage,
            CommandError,
        >(CommandError::Unrecognized),
{
    let n = line.len();
    let mut sp: usize = 0;
    while sp < n && line[sp] != 32
        invariant
            sp <= n,
            n == line@.len(),
            forall|k: int| 0 <= k < sp ==> line@[k] != 32,
        decreases n - sp,
    {
        sp = sp + 1;
    }
    proof {
        lemma_first_space(line@);
        let f = first_space(line@);
        if f < sp {
            assert(line@[f] == 32);
            assert(false);
        }
        if sp < f {
            assert(line@[sp as int] != 32);
            assert(false);
        }
        assert(f == sp as int);
    }
    let is_ping = sp == 4 && line[0] == 112 && line[1] == 105 && line[2] == 110 && line[3] == 103;
    let is_send = sp == 4 && line[0] == 115 && line[1] == 101 && line[2] == 110 && line[3] == 100;
    proof {
        let h = head_of(line@);
        assert(h.len() == sp as int);
        if h == ping_word() {
            assert(h[0] == 112 && h[1] == 105 && h[2] == 110 && h[3] == 103);
            assert(line@[0] == 112 && line@[1] == 105 && line@[2] == 110 && line@[3] == 103);
        }
        if h == send_word() {
            assert(h[0] == 115 && h[1] == 101 && h[2] == 110 && h[3] == 100);
            assert(line@[0] == 115 && line@[1] == 101 && line@[2] == 110 && line@[3] == 100);
        }
        if is_ping {
            assert(h =~= ping_word());
        }
        if is_send {
            assert(h =~= send_word());
        }
    }
    if is_ping {
        if sp == n {
            Ok(ClientMessage::Ping)
        } else {
            Err(CommandError::PingWithArgument)
        }
    } else if is_send {
        let mut p: Vec<u8> = Vec::new();
        if sp < n {
            let mut k: usize = sp + 1;
            while k < n
                invariant
                    sp + 1 <= k <= n,
                    n == line@.len(),
                    p@ == line@.subrange(sp + 1, k as int),
                decreases n - k,
            {
                p.push(line[k]);
                proof {
                    assert(p@ =~= line@.subrange(sp + 1, k + 1));
                }
                k = k + 1;
            }
            proof {
                assert(line@.subrange(sp + 1, n as int) =~= line@.skip(sp + 1));
            }
        } else {
            proof {
                assert(p@ =~= Seq::<u8>::empty());
            }
        }
        Ok(ClientMessage::Send(p))
    } else {
        Err(CommandError::Unrecognized)
    }
}

/// A decimal digit byte.
pub open spec fn is_digit(c: u8) -> bool {
    48 <= c <= 57
}

pub open spec fn all_digits(s: Seq<u8>) -> bool {
    forall|i: int| 0 <= i < s.len() ==> is_digit(#[trigger] s[i])
}

/// The number a decimal digit string denotes.
pub open spec fn dec_value(s: Seq<u8>) -> int
    decreases s.len(),
{
    if s.len() == 0 {
        0
    } else {
        dec_value(s.drop_last()) * 10 + (s.last() - 48)
    }
}

proof fn lemma_dec_value_nonneg(s: Seq<u8>)
    requires
        all_digits(s),
    ensures
        dec_value(s) >= 0,
    decreases s.len(),
{
    if s.len() > 0 {
        assert forall|i: int| 0 <= i < s.drop_last().len() implies is_digit(
            #[trigger] s.drop_last()[i],
        ) by {
            assert(s.drop_last()[i] == s[i]);
        }
        lemma_dec_value_nonneg(s.drop_last());
        assert(is_digit(s[s.len() - 1]));
    }
}

/// Digits to the right never shrink the value: a prefix denotes at most the
/// whole string.
proof fn lemma_dec_value_prefix(s: Seq<u8>, i: int)
    requires
        all_digits(s),
        0 <= i <= s.len(),
    ensures
        dec_value(s.take(i)) <= dec_value(s),
    decreases s.len() - i,
{
    if i < s.len() {
        lemma_dec_value_prefix(s, i + 1);
        let t = s.take(i + 1);
        assert(t.drop_last() =~= s.take(i));
        assert(t.last() == s[i]);
        assert forall|k: int| 0 <= k < s.take(i).len() implies is_digit(
            #[trigger] s.take(i)[k],
        ) by {
            assert(s.take(i)[k] == s[k]);
        }
        lemma_dec_value_nonneg(s.take(i));
        assert(is_digit(s[i]));
        assert(dec_value(t) == dec_value(s.take(i)) * 10 + (s[i] - 48));
        assert(dec_value(s.take(i)) <= dec_value(t));
    } else {
        assert(s.take(i) =~= s);
    }
}

/// The client's local id validation: a nonempty all-digit line that fits in
/// 64 bits parses to its decimal value; everything else reprompts.
pub fn parse_client_id(line: &[u8]) -> (r: Option<u64>)
    ensures
        r matches Some(v) ==> line@.len() > 0 && all_digits(line@) && v == dec_value(line@),
        r is None ==> line@.len() == 0 || !all_digits(line@) || dec_value(line@) > u64::MAX,
{
    let n = line.len();
    if n == 0 {
        return None;
    }
    let mut acc: u64 = 0;
    let mut i: usize = 0;
    proof {
        assert(line@.take(0) =~= Seq::<u8>::empty());
    }
    while i < n
        invariant
            i <= n,
            n == line@.len(),
            all_digits(line@.take(i as int)),
            acc == dec_value(line@.take(i as int)),
        decreases n - i,
    {
        let c = line[i];
        if c < 48 || c > 57 {
            proof {
                assert(!is_digit(line@[i as int]));
            }
            return None;
        }
        let d = (c - 48) as u64;
        if acc > (u64::MAX - d) / 10 {
            proof {
                vstd::arithmetic::div_mod::lemma_fundamental_div_mod((u64::MAX - d) as int, 10);
                vstd::arithmetic::div_mod::lemma_mod_bound((u64::MAX - d) as int, 10);
                assert(acc * 10 + d > u64::MAX);
                if all_digits(line@) {
                    let t = line@.take(i + 1);
                    assert(t.drop_last() =~= line@.take(i as int));
                    assert(t.last() == line@[i as int]);
                    assert(dec_value(t) == acc * 10 + d);
                    lemma_dec_value_prefix(line@, i + 1);
                }
            }
            return None;
        }
        proof {
            vstd::arithmetic::div_mod::lemma_fundamental_div_mod((u64::MAX - d) as int, 10);
            vstd::arithmetic::div_mod::lemma_mod_bound((u64::MAX - d) as int, 10);
            assert(acc * 10 + d <= u64::MAX);
            let t = line@.take(i + 1);
            assert(t.drop_last() =~= line@.take(i as int));
            assert(t.last() == line@[i as int]);
            assert forall|k: int| 0 <= k < t.len() implies is_digit(#[trigger] t[k]) by {
                assert(t[k] == line@[k]);
                if k < i as int {
                    assert(line@.take(i as int)[k] == line@[k]);
                }
            }
        }
        acc = acc * 10 + d;
        i = i + 1;
    }
    proof {
        assert(line@.take(n as int) =~= line@);
    }
    Some(acc)
}

/// The client's receive step: how one reply byte reads. Exactly the pong
/// byte reports a pong; everything else is unknown data.
pub fn interpret_response(b: u8) -> (r: ServerReply)
    ensures
        r == ServerReply::Pong <==> b == 1,
{
    if b == 1 {
        ServerReply::Pong
    } else {
        ServerReply::Unknown
    }
}

/// Appends every byte of a slice to a vector.
pub fn push_all(dst: &mut Vec<u8>, src: &[u8])
    ensures
        final(dst)@ == old(dst)@ + src@,
{
    let n = src.len();
    let mut i: usize = 0;
    proof {
        assert(dst@ =~= old(dst)@ + src@.take(0));
    }
    while i < n
        invariant
            i <= n,
            n == src@.len(),
            dst@ == old(dst)@ + src@.take(i as int),
        decreases n - i,
    {
        dst.push(src[i]);
        proof {
            assert(old(dst)@ + src@.take(i as int) + seq![src@[i as int]] =~= old(dst)@
                + src@.take(i + 1));
        }
        i = i + 1;
    }
    proof {
        assert(src@.take(n as int) =~= src@);
    }
}

impl ClientMessage {
    /// The wire bytes of this frame, as the codec's grammar gives them.
    pub fn encode(&self) -> (r: Vec<u8>)
        ensures
            r@ == encoding_of(self@),
    {
        match self {
            ClientMessage::Ping => {
                let mut v: Vec<u8> = Vec::new();
                v.push(1u8);
                proof {
                    assert(v@ =~= seq![1u8]);
                }
                v
            },
            ClientMessage::Send(p) => {
                let mut v: Vec<u8> = Vec::new();
                v.push(2u8);
                let len_bytes = crate::be::u64_to_be(p.len() as u64);
                push_all(&mut v, len_bytes.as_slice());
                push_all(&mut v, p.as_slice());
                proof {
                    assert(v@ =~= seq![2u8] + int_to_be(p@.len(), 8) + p@);
                }
                v
            },
        }
    }
}

/// The 8 handshake bytes a client sends first: its id, big-endian.
pub fn encode_client_id(id: u64) -> (r: Vec<u8>)
    ensures
        r@ == int_to_be(id as nat, 8),
        r@.len() == 8,
{
    crate::be::u64_to_be(id)
}

/// The id a client encodes into its handshake is the id the server reads
/// out of it: identification attributes traffic to the id the client chose.
pub proof fn lemma_handshake_round_trip(id: u64)
    ensures
        be_to_int(int_to_be(id as nat, 8)) == id,
{
    assert(pow256(8) == 0x10000000000000000) by {
        reveal_with_fuel(pow256, 9);
    }
    lemma_be_round_trip(id as nat, 8);
}

} // verus!
