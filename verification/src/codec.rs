//! The wire codec for the worker protocol: update requests and responses
//! as flat byte strings, and the length-prefixed frames they travel in.
//!
//! Every integer is 8 bytes little-endian; a byte string or list is its
//! length followed by its items. The decoder accepts exactly what the
//! encoder produces: the round-trip laws at the end of this module state
//! that decoding an encoded value yields the value back.

use vstd::bytes::{
    lemma_auto_spec_u64_to_from_le_bytes, spec_u64_from_le_bytes, spec_u64_to_le_bytes,
    u64_from_le_bytes, u64_to_le_bytes,
};
use vstd::prelude::*;
use vstd::slice::slice_subrange;

use crate::nitro_clock::{NitroEnclavesClock, Update, UpdateOk};
use crate::ordinary_clock::{entries_fold, KeyId, OrdinaryClock};

verus! {

/// A wire-level failure: the bytes do not carry a whole, well-formed value.
#[derive(Debug, Clone, Copy, PartialEq, Eq, Structural)]
pub enum ProtocolError {
    /// The buffer ends before the announced length.
    Truncated,
    /// The payload does not decode to a value.
    Malformed,
}

// ---------------------------------------------------------------------
// The encoding, as spec functions over plain values.
// ---------------------------------------------------------------------
/// An integer on the wire: 8 bytes, little-endian.
pub open spec fn enc_u64(x: u64) -> Seq<u8> {
    spec_u64_to_le_bytes(x)
}

/// A byte string on the wire: its length, then its bytes.
pub open spec fn enc_bytes(b: Seq<u8>) -> Seq<u8> {
    enc_u64(b.len() as u64) + b
}

/// Clock entries on the wire: each key and counter in order.
pub open spec fn enc_pairs(s: Seq<(KeyId, u64)>) -> Seq<u8>
    decreases s.len(),
{
    if s.len() == 0 {
        Seq::empty()
    } else {
        enc_u64(s[0].0) + enc_u64(s[0].1) + enc_pairs(s.drop_first())
    }
}

/// An entry list on the wire: its length, then the entries.
pub open spec fn enc_entries(s: Seq<(KeyId, u64)>) -> Seq<u8> {
    enc_u64(s.len() as u64) + enc_pairs(s)
}

/// An attested clock on the wire: the entry list, then the document bytes.
pub open spec fn enc_clock(e: Seq<(KeyId, u64)>, d: Seq<u8>) -> Seq<u8> {
    enc_entries(e) + enc_bytes(d)
}

/// A clock list's items on the wire, in order.
pub open spec fn enc_clocks(v: Seq<NitroEnclavesClock>) -> Seq<u8>
    decreases v.len(),
{
    if v.len() == 0 {
        Seq::empty()
    } else {
        enc_clock(v[0].plain@, v[0].document@) + enc_clocks(v.drop_first())
    }
}

/// An update request on the wire: the previous clock, the dependency list
/// with its length, and the dimension id to advance.
pub open spec fn enc_update(u: &Update<NitroEnclavesClock>) -> Seq<u8> {
    enc_clock(u.0.plain@, u.0.document@) + enc_u64(u.1@.len() as u64) + enc_clocks(u.1@) + enc_u64(
        u.2,
    )
}

/// Latency samples on the wire, in order.
pub open spec fn enc_u64s(s: Seq<u64>) -> Seq<u8>
    decreases s.len(),
{
    if s.len() == 0 {
        Seq::empty()
    } else {
        enc_u64(s[0]) + enc_u64s(s.drop_first())
    }
}

/// An update response on the wire: the correlation id, the resulting
/// clock, and the latency samples with their count.
pub open spec fn enc_update_ok(ok: &UpdateOk<NitroEnclavesClock>) -> Seq<u8> {
    enc_u64(ok.0) + enc_clock(ok.1.plain@, ok.1.document@) + enc_u64(ok.2@.len() as u64) + enc_u64s(
        ok.2@,
    )
}

// ---------------------------------------------------------------------
// The decoding, as spec functions: each consumes a prefix and yields the
// value and the remaining bytes, or nothing when the prefix is not there.
// ---------------------------------------------------------------------
/// Reads an integer off the front.
pub open spec fn dec_u64(b: Seq<u8>) -> Option<(u64, Seq<u8>)> {
    if b.len() >= 8 {
        Some((spec_u64_from_le_bytes(b.take(8)), b.skip(8)))
    } else {
        None
    }
}

/// Reads a length-prefixed byte string off the front.
pub open spec fn dec_bytes(b: Seq<u8>) -> Option<(Seq<u8>, Seq<u8>)> {
    match dec_u64(b) {
        None => None,
        Some((n, rest)) => if rest.len() >= n {
            Some((rest.take(n as int), rest.skip(n as int)))
        } else {
            None
        },
    }
}

/// Reads `n` clock entries off the front.
pub open spec fn dec_pairs(b: Seq<u8>, n: nat) -> Option<(Seq<(KeyId, u64)>, Seq<u8>)>
    decreases n,
{
    if n == 0 {
        Some((Seq::empty(), b))
    } else {
        match dec_u64(b) {
            None => None,
            Some((k, rest1)) => match dec_u64(rest1) {
                None => None,
                Some((v, rest2)) => match dec_pairs(rest2, (n - 1) as nat) {
                    None => None,
                    Some((s, rest)) => Some((seq![(k, v)] + s, rest)),
                },
            },
        }
    }
}

/// Reads an entry list (length, then entries) off the front.
pub open spec fn dec_entries(b: Seq<u8>) -> Option<(Seq<(KeyId, u64)>, Seq<u8>)> {
    match dec_u64(b) {
        None => None,
        Some((n, rest)) => dec_pairs(rest, n as nat),
    }
}

/// Reads an attested clock off the front. The entries are brought into
/// canonical form, as the decoder's clock constructor does.
pub open spec fn dec_clock(b: Seq<u8>) -> Option<((Seq<(KeyId, u64)>, Seq<u8>), Seq<u8>)> {
    match dec_entries(b) {
        None => None,
        Some((e, rest1)) => match dec_bytes(rest1) {
            None => None,
            Some((d, rest)) => Some(((entries_fold(e), d), rest)),
        },
    }
}

/// Reads `n` attested clocks off the front.
pub open spec fn dec_clocks(b: Seq<u8>, n: nat) -> Option<
    (Seq<(Seq<(KeyId, u64)>, Seq<u8>)>, Seq<u8>),
>
    decreases n,
{
    if n == 0 {
        Some((Seq::empty(), b))
    } else {
        match dec_clock(b) {
            None => None,
            Some((c, rest1)) => match dec_clocks(rest1, (n - 1) as nat) {
                None => None,
                Some((v, rest)) => Some((seq![c] + v, rest)),
            },
        }
    }
}

/// Reads `n` latency samples off the front.
pub open spec fn dec_u64s(b: Seq<u8>, n: nat) -> Option<(Seq<u64>, Seq<u8>)>
    decreases n,
{
    if n == 0 {
        Some((Seq::empty(), b))
    } else {
        match dec_u64(b) {
            None => None,
            Some((x, rest1)) => match dec_u64s(rest1, (n - 1) as nat) {
                None => None,
                Some((s, rest)) => Some((seq![x] + s, rest)),
            },
        }
    }
}

/// What an update request's bytes carry: the previous clock, the
/// dependency clocks and the dimension id. The whole buffer must be
/// consumed.
pub open spec fn dec_update(b: Seq<u8>) -> Option<
    ((Seq<(KeyId, u64)>, Seq<u8>), Seq<(Seq<(KeyId, u64)>, Seq<u8>)>, u64),
> {
    match dec_clock(b) {
        None => None,
        Some((prev, rest1)) => match dec_u64(rest1) {
            None => None,
            Some((n, rest2)) => match dec_clocks(rest2, n as nat) {
                None => None,
                Some((deps, rest3)) => match dec_u64(rest3) {
                    None => None,
                    Some((id, rest)) => if rest.len() == 0 {
                        Some((prev, deps, id))
                    } else {
                        None
                    },
                },
            },
        },
    }
}

/// What an update response's bytes carry: the correlation id, the clock
/// and the latency samples. The whole buffer must be consumed.
pub open spec fn dec_update_ok(b: Seq<u8>) -> Option<
    (u64, (Seq<(KeyId, u64)>, Seq<u8>), Seq<u64>),
> {
    match dec_u64(b) {
        None => None,
        Some((id, rest1)) => match dec_clock(rest1) {
            None => None,
            Some((c, rest2)) => match dec_u64(rest2) {
                None => None,
                Some((n, rest3)) => match dec_u64s(rest3, n as nat) {
                    None => None,
                    Some((timers, rest)) => if rest.len() == 0 {
                        Some((id, c, timers))
                    } else {
                        None
                    },
                },
            },
        },
    }
}

// ---------------------------------------------------------------------
// Executable encoders.
// ---------------------------------------------------------------------
/// Appends an integer to the output.
fn push_u64_le(out: &mut Vec<u8>, x: u64)
    ensures
        final(out)@ == old(out)@ + enc_u64(x),
{
    let mut b = u64_to_le_bytes(x);
    out.append(&mut b);
}

/// Appends a length-prefixed byte string to the output.
fn push_bytes(out: &mut Vec<u8>, src: &Vec<u8>)
    ensures
        final(out)@ == old(out)@ + enc_bytes(src@),
{
    push_u64_le(out, src.len() as u64);
    let n = src.len();
    let mut i: usize = 0;
    while i < n
        invariant
            n == src@.len(),
            0 <= i <= n,
            out@ == old(out)@ + enc_u64(n as u64) + src@.take(i as int),
        decreases n - i,
    {
        out.push(src[i]);
        proof {
            assert(old(out)@ + enc_u64(n as u64) + src@.take(i as int + 1) =~= (old(out)@ + enc_u64(
                n as u64,
            ) + src@.take(i as int)).push(src@[i as int]));
        }
        i += 1;
    }
    proof {
        assert(src@.take(n as int) =~= src@);
        assert(old(out)@ + enc_u64(n as u64) + src@ =~= old(out)@ + enc_bytes(src@));
    }
}

/// Appends a clock's entry list to the output.
fn push_entries(out: &mut Vec<u8>, c: &OrdinaryClock)
    ensures
        final(out)@ == old(out)@ + enc_entries(c@),
{
    let n = c.len();
    push_u64_le(out, n as u64);
    let mut i: usize = 0;
    proof {
        assert(enc_pairs(c@.skip(0)) == enc_pairs(c@)) by {
            assert(c@.skip(0) =~= c@);
        }
    }
    while i < n
        invariant
            n == c@.len(),
            0 <= i <= n,
            out@ + enc_pairs(c@.skip(i as int)) == old(out)@ + enc_entries(c@),
        decreases n - i,
    {
        let (k, v) = c.entry(i);
        let ghost before = out@;
        push_u64_le(out, k);
        push_u64_le(out, v);
        proof {
            let r = c@.skip(i as int);
            assert(r[0] == c@[i as int]);
            assert(r.drop_first() =~= c@.skip(i as int + 1));
            assert(enc_pairs(r) == enc_u64(k) + enc_u64(v) + enc_pairs(c@.skip(i as int + 1)));
            assert(out@ + enc_pairs(c@.skip(i as int + 1)) =~= before + enc_pairs(r));
        }
        i += 1;
    }
    proof {
        assert(c@.skip(n as int) =~= Seq::<(KeyId, u64)>::empty());
        assert(out@ =~= out@ + enc_pairs(c@.skip(n as int)));
    }
}

/// Appends an attested clock to the output.
fn push_clock(out: &mut Vec<u8>, c: &NitroEnclavesClock)
    ensures
        final(out)@ == old(out)@ + enc_clock(c.plain@, c.document@),
{
    push_entries(out, &c.plain);
    push_bytes(out, &c.document);
    proof {
        assert(old(out)@ + enc_entries(c.plain@) + enc_bytes(c.document@) =~= old(out)@ + enc_clock(
            c.plain@,
            c.document@,
        ));
    }
}

/// Encodes an update request for the wire.
pub fn encode_update(u: &Update<NitroEnclavesClock>) -> (r: Vec<u8>)
    ensures
        r@ == enc_update(u),
{
    let mut out: Vec<u8> = Vec::new();
    push_clock(&mut out, &u.0);
    push_u64_le(&mut out, u.1.len() as u64);
    let n = u.1.len();
    let mut i: usize = 0;
    proof {
        assert(enc_clocks(u.1@.skip(0)) == enc_clocks(u.1@)) by {
            assert(u.1@.skip(0) =~= u.1@);
        }
        assert(out@ =~= Seq::<u8>::empty() + enc_clock(u.0.plain@, u.0.document@) + enc_u64(
            n as u64,
        ));
    }
    while i < n
        invariant
            n == u.1@.len(),
            0 <= i <= n,
            out@ + enc_clocks(u.1@.skip(i as int)) == enc_clock(u.0.plain@, u.0.document@)
                + enc_u64(n as u64) + enc_clocks(u.1@),
        decreases n - i,
    {
        let ghost before = out@;
        push_clock(&mut out, &u.1[i]);
        proof {
            let r = u.1@.skip(i as int);
            assert(r[0] == u.1@[i as int]);
            assert(r.drop_first() =~= u.1@.skip(i as int + 1));
            assert(enc_clocks(r) == enc_clock(r[0].plain@, r[0].document@) + enc_clocks(
                u.1@.skip(i as int + 1),
            ));
            assert(out@ + enc_clocks(u.1@.skip(i as int + 1)) =~= before + enc_clocks(r));
        }
        i += 1;
    }
    push_u64_le(&mut out, u.2);
    proof {
        assert(u.1@.skip(n as int) =~= Seq::<NitroEnclavesClock>::empty());
        assert(out@ =~= enc_update(u));
    }
    out
}

/// Encodes an update response for the wire.
pub fn encode_update_ok(ok: &UpdateOk<NitroEnclavesClock>) -> (r: Vec<u8>)
    ensures
        r@ == enc_update_ok(ok),
{
    let mut out: Vec<u8> = Vec::new();
    push_u64_le(&mut out, ok.0);
    push_clock(&mut out, &ok.1);
    push_u64_le(&mut out, ok.2.len() as u64);
    let n = ok.2.len();
    let mut i: usize = 0;
    proof {
        assert(enc_u64s(ok.2@.skip(0)) == enc_u64s(ok.2@)) by {
            assert(ok.2@.skip(0) =~= ok.2@);
        }
        assert(out@ =~= Seq::<u8>::empty() + enc_u64(ok.0) + enc_clock(ok.1.plain@, ok.1.document@)
            + enc_u64(n as u64));
    }
    while i < n
        invariant
            n == ok.2@.len(),
            0 <= i <= n,
            out@ + enc_u64s(ok.2@.skip(i as int)) == enc_u64(ok.0) + enc_clock(
                ok.1.plain@,
                ok.1.document@,
            ) + enc_u64(n as u64) + enc_u64s(ok.2@),
        decreases n - i,
    {
        let ghost before = out@;
        push_u64_le(&mut out, ok.2[i]);
        proof {
            let r = ok.2@.skip(i as int);
            assert(r[0] == ok.2@[i as int]);
            assert(r.drop_first() =~= ok.2@.skip(i as int + 1));
            assert(enc_u64s(r) == enc_u64(r[0]) + enc_u64s(ok.2@.skip(i as int + 1)));
            assert(out@ + enc_u64s(ok.2@.skip(i as int + 1)) =~= before + enc_u64s(r));
        }
        i += 1;
    }
    proof {
        assert(ok.2@.skip(n as int) =~= Seq::<u64>::empty());
        assert(out@ =~= enc_update_ok(ok));
    }
    out
}

/// Encodes one wire frame: the payload's length, then the payload.
pub fn encode_frame(payload: &Vec<u8>) -> (r: Vec<u8>)
    ensures
        r@ == enc_bytes(payload@),
{
    let mut out: Vec<u8> = Vec::new();
    push_bytes(&mut out, payload);
    proof {
        assert(out@ =~= enc_bytes(payload@));
    }
    out
}

// ---------------------------------------------------------------------
// Executable decoders. Each reader takes the buffer and a position and
// yields the value with the next position, mirroring the spec parser on
// the buffer's tail.
// ---------------------------------------------------------------------
/// Reads an integer at `pos`.
fn read_u64(buf: &Vec<u8>, pos: usize) -> (r: Option<(u64, usize)>)
    requires
        pos <= buf@.len(),
    ensures
        match r {
            Some(xp) => pos <= xp.1 <= buf@.len() && dec_u64(buf@.skip(pos as int)) == Some(
                (xp.0, buf@.skip(xp.1 as int)),
            ),
            None => dec_u64(buf@.skip(pos as int)) is None,
        },
{
    if buf.len() - pos >= 8 {
        let s = slice_subrange(buf.as_slice(), pos, pos + 8);
        let x = u64_from_le_bytes(s);
        proof {
            assert(buf@.skip(pos as int).take(8) =~= buf@.subrange(pos as int, pos as int + 8));
            assert(buf@.skip(pos as int).skip(8) =~= buf@.skip(pos as int + 8));
        }
        Some((x, pos + 8))
    } else {
        None
    }
}

/// Reads a length-prefixed byte string at `pos`.
fn read_bytes(buf: &Vec<u8>, pos: usize) -> (r: Option<(Vec<u8>, usize)>)
    requires
        pos <= buf@.len(),
    ensures
        match r {
            Some(vp) => pos <= vp.1 <= buf@.len() && dec_bytes(buf@.skip(pos as int)) == Some(
                (vp.0@, buf@.skip(vp.1 as int)),
            ),
            None => dec_bytes(buf@.skip(pos as int)) is None,
        },
{
    match read_u64(buf, pos) {
        None => None,
        Some((n, p1)) => {
            let remaining = buf.len() - p1;
            if n > remaining as u64 {
                None
            } else {
                let n_us = n as usize;
                let out = vstd::slice::slice_to_vec(
                    slice_subrange(buf.as_slice(), p1, p1 + n_us),
                );
                proof {
                    assert(buf@.skip(p1 as int).take(n as int) =~= buf@.subrange(
                        p1 as int,
                        p1 as int + n as int,
                    ));
                    assert(buf@.skip(p1 as int).skip(n as int) =~= buf@.skip(p1 as int + n as int));
                }
                Some((out, p1 + n_us))
            }
        },
    }
}

/// Reads an entry list (length, then entries) at `pos`.
fn read_entries(buf: &Vec<u8>, pos: usize) -> (r: Option<(Vec<(KeyId, u64)>, usize)>)
    requires
        pos <= buf@.len(),
    ensures
        match r {
            Some(vp) => pos <= vp.1 <= buf@.len() && dec_entries(buf@.skip(pos as int)) == Some(
                (vp.0@, buf@.skip(vp.1 as int)),
            ),
            None => dec_entries(buf@.skip(pos as int)) is None,
        },
{
    match read_u64(buf, pos) {
        None => None,
        Some((n, p1)) => {
            let ghost start = p1 as int;
            let mut acc: Vec<(KeyId, u64)> = Vec::new();
            let mut p = p1;
            let mut k: u64 = 0;
            while k < n
                invariant
                    k <= n,
                    pos <= p1 <= p <= buf@.len(),
                    start == p1 as int,
                    dec_u64(buf@.skip(pos as int)) == Some((n, buf@.skip(start))),
                    match dec_pairs(buf@.skip(p as int), (n - k) as nat) {
                        Some(sr) => dec_pairs(buf@.skip(start), n as nat) == Some(
                            (acc@ + sr.0, sr.1),
                        ),
                        None => dec_pairs(buf@.skip(start), n as nat) is None,
                    },
                decreases n - k,
            {
                let key = match read_u64(buf, p) {
                    Some(kp) => kp,
                    None => {
                        proof {
                            assert(dec_pairs(buf@.skip(p as int), (n - k) as nat) is None);
                        }
                        return None;
                    },
                };
                let val = match read_u64(buf, key.1) {
                    Some(vp) => vp,
                    None => {
                        proof {
                            assert(dec_pairs(buf@.skip(p as int), (n - k) as nat) is None);
                        }
                        return None;
                    },
                };
                proof {
                    let before = acc@;
                    let tail = dec_pairs(buf@.skip(val.1 as int), (n - k - 1) as nat);
                    if tail is Some {
                        assert(before.push((key.0, val.0)) + tail->Some_0.0 =~= before + (seq![
                            (key.0, val.0),
                        ] + tail->Some_0.0));
                    }
                }
                acc.push((key.0, val.0));
                p = val.1;
                k += 1;
            }
            proof {
                assert(acc@ + Seq::<(KeyId, u64)>::empty() =~= acc@);
            }
            Some((acc, p))
        },
    }
}

/// Reads an attested clock at `pos`; the entries come back in canonical
/// sorted form.
fn read_clock(buf: &Vec<u8>, pos: usize) -> (r: Option<(NitroEnclavesClock, usize)>)
    requires
        pos <= buf@.len(),
    ensures
        match r {
            Some(cp) => pos <= cp.1 <= buf@.len() && cp.0.wf() && dec_clock(buf@.skip(pos as int))
                == Some(((cp.0.plain@, cp.0.document@), buf@.skip(cp.1 as int))),
            None => dec_clock(buf@.skip(pos as int)) is None,
        },
{
    match read_entries(buf, pos) {
        None => None,
        Some((raw, p1)) => {
            let plain = OrdinaryClock::from_entries(&raw);
            match read_bytes(buf, p1) {
                None => None,
                Some((document, p2)) => Some((NitroEnclavesClock { plain, document }, p2)),
            }
        },
    }
}

/// The wire content a clock value stands for.
pub open spec fn clock_repr(c: NitroEnclavesClock) -> (Seq<(KeyId, u64)>, Seq<u8>) {
    (c.plain@, c.document@)
}

/// The wire content a clock list stands for.
pub open spec fn clocks_repr(v: Seq<NitroEnclavesClock>) -> Seq<(Seq<(KeyId, u64)>, Seq<u8>)> {
    v.map_values(|c: NitroEnclavesClock| clock_repr(c))
}

/// The wire content an update request stands for.
pub open spec fn update_repr(u: &Update<NitroEnclavesClock>) -> (
    (Seq<(KeyId, u64)>, Seq<u8>),
    Seq<(Seq<(KeyId, u64)>, Seq<u8>)>,
    u64,
) {
    (clock_repr(u.0), clocks_repr(u.1@), u.2)
}

/// The wire content an update response stands for.
pub open spec fn update_ok_repr(ok: &UpdateOk<NitroEnclavesClock>) -> (
    u64,
    (Seq<(KeyId, u64)>, Seq<u8>),
    Seq<u64>,
) {
    (ok.0, clock_repr(ok.1), ok.2@)
}

/// Decodes an update request from a whole payload. Every clock in the
/// result is in canonical form; any leftover or missing bytes make the
/// payload malformed.
pub fn decode_update(buf: &Vec<u8>) -> (r: Result<Update<NitroEnclavesClock>, ProtocolError>)
    ensures
        match r {
            Ok(u) => dec_update(buf@) == Some(update_repr(&u)) && u.0.wf() && forall|i: int|
                0 <= i < u.1@.len() ==> (#[trigger] u.1@[i]).wf(),
            Err(e) => dec_update(buf@) is None && e == ProtocolError::Malformed,
        },
{
    proof {
        assert(buf@.skip(0) =~= buf@);
    }
    let prev = match read_clock(buf, 0) {
        Some(cp) => cp,
        None => {
            return Err(ProtocolError::Malformed);
        },
    };
    let count = match read_u64(buf, prev.1) {
        Some(np) => np,
        None => {
            return Err(ProtocolError::Malformed);
        },
    };
    let n = count.0;
    let ghost start = count.1 as int;
    let mut deps: Vec<NitroEnclavesClock> = Vec::new();
    let mut p = count.1;
    let mut k: u64 = 0;
    proof {
        assert(clocks_repr(deps@) =~= Seq::<(Seq<(KeyId, u64)>, Seq<u8>)>::empty());
    }
    while k < n
        invariant
            k <= n,
            count.1 <= p <= buf@.len(),
            start == count.1 as int,
            prev.1 <= buf@.len(),
            prev.0.wf(),
            dec_clock(buf@) == Some((clock_repr(prev.0), buf@.skip(prev.1 as int))),
            dec_u64(buf@.skip(prev.1 as int)) == Some((n, buf@.skip(start))),
            forall|i: int| 0 <= i < deps@.len() ==> (#[trigger] deps@[i]).wf(),
            match dec_clocks(buf@.skip(p as int), (n - k) as nat) {
                Some(vr) => dec_clocks(buf@.skip(start), n as nat) == Some(
                    (clocks_repr(deps@) + vr.0, vr.1),
                ),
                None => dec_clocks(buf@.skip(start), n as nat) is None,
            },
        decreases n - k,
    {
        let c = match read_clock(buf, p) {
            Some(cp) => cp,
            None => {
                proof {
                    assert(dec_clocks(buf@.skip(p as int), (n - k) as nat) is None);
                }
                return Err(ProtocolError::Malformed);
            },
        };
        proof {
            let tail = dec_clocks(buf@.skip(c.1 as int), (n - k - 1) as nat);
            if tail is Some {
                assert(clocks_repr(deps@.push(c.0)) =~= clocks_repr(deps@) + seq![
                    clock_repr(c.0),
                ]);
                assert(clocks_repr(deps@.push(c.0)) + tail->Some_0.0 =~= clocks_repr(deps@) + (seq![
                    clock_repr(c.0),
                ] + tail->Some_0.0));
            }
        }
        deps.push(c.0);
        p = c.1;
        k += 1;
    }
    proof {
        assert(clocks_repr(deps@) + Seq::<(Seq<(KeyId, u64)>, Seq<u8>)>::empty() =~= clocks_repr(
            deps@,
        ));
    }
    let id = match read_u64(buf, p) {
        Some(ip) => ip,
        None => {
            return Err(ProtocolError::Malformed);
        },
    };
    if id.1 != buf.len() {
        proof {
            assert(buf@.skip(id.1 as int).len() != 0);
        }
        return Err(ProtocolError::Malformed);
    }
    proof {
        assert(buf@.skip(id.1 as int).len() == 0);
    }
    Ok(Update(prev.0, deps, id.0))
}

/// Decodes an update response from a whole payload. The correlation id in
/// the result is exactly the id the payload carries, so a response can be
/// attributed to its request whatever order responses arrive in.
pub fn decode_update_ok(buf: &Vec<u8>) -> (r: Result<UpdateOk<NitroEnclavesClock>, ProtocolError>)
    ensures
        match r {
            Ok(ok) => dec_update_ok(buf@) == Some(update_ok_repr(&ok)) && ok.1.wf(),
            Err(e) => dec_update_ok(buf@) is None && e == ProtocolError::Malformed,
        },
{
    proof {
        assert(buf@.skip(0) =~= buf@);
    }
    let id = match read_u64(buf, 0) {
        Some(ip) => ip,
        None => {
            return Err(ProtocolError::Malformed);
        },
    };
    let clock = match read_clock(buf, id.1) {
        Some(cp) => cp,
        None => {
            return Err(ProtocolError::Malformed);
        },
    };
    let count = match read_u64(buf, clock.1) {
        Some(np) => np,
        None => {
            return Err(ProtocolError::Malformed);
        },
    };
    let n = count.0;
    let ghost start = count.1 as int;
    let mut timers: Vec<u64> = Vec::new();
    let mut p = count.1;
    let mut k: u64 = 0;
    while k < n
        invariant
            k <= n,
            count.1 <= p <= buf@.len(),
            start == count.1 as int,
            id.1 <= buf@.len(),
            clock.1 <= buf@.len(),
            clock.0.wf(),
            dec_u64(buf@) == Some((id.0, buf@.skip(id.1 as int))),
            dec_clock(buf@.skip(id.1 as int)) == Some((clock_repr(clock.0), buf@.skip(
                clock.1 as int,
            ))),
            dec_u64(buf@.skip(clock.1 as int)) == Some((n, buf@.skip(start))),
            match dec_u64s(buf@.skip(p as int), (n - k) as nat) {
                Some(sr) => dec_u64s(buf@.skip(start), n as nat) == Some(
                    (timers@ + sr.0, sr.1),
                ),
                None => dec_u64s(buf@.skip(start), n as nat) is None,
            },
        decreases n - k,
    {
        let x = match read_u64(buf, p) {
            Some(xp) => xp,
            None => {
                proof {
                    assert(dec_u64s(buf@.skip(p as int), (n - k) as nat) is None);
                }
                return Err(ProtocolError::Malformed);
            },
        };
        proof {
            let tail = dec_u64s(buf@.skip(x.1 as int), (n - k - 1) as nat);
            if tail is Some {
                assert(timers@.push(x.0) + tail->Some_0.0 =~= timers@ + (seq![x.0]
                    + tail->Some_0.0));
            }
        }
        timers.push(x.0);
        p = x.1;
        k += 1;
    }
    proof {
        assert(timers@ + Seq::<u64>::empty() =~= timers@);
    }
    if p != buf.len() {
        proof {
            assert(buf@.skip(p as int).len() != 0);
        }
        return Err(ProtocolError::Malformed);
    }
    proof {
        assert(buf@.skip(p as int).len() == 0);
    }
    Ok((id.0, clock.0, timers))
}

/// Splits one length-prefixed frame off the front of a buffer: the
/// payload, and how many bytes the frame occupied. A buffer that ends
/// before the announced payload length is truncated.
pub fn decode_frame(buf: &Vec<u8>) -> (r: Result<(Vec<u8>, usize), ProtocolError>)
    ensures
        match r {
            Ok(pc) => pc.1 <= buf@.len() && dec_bytes(buf@) == Some(
                (pc.0@, buf@.skip(pc.1 as int)),
            ),
            Err(e) => dec_bytes(buf@) is None && e == ProtocolError::Truncated,
        },
{
    proof {
        assert(buf@.skip(0) =~= buf@);
    }
    match read_bytes(buf, 0) {
        Some(vp) => Ok(vp),
        None => Err(ProtocolError::Truncated),
    }
}

// ---------------------------------------------------------------------
// Round-trip laws: decoding an encoded value yields the value back.
// ---------------------------------------------------------------------
/// An encoded integer decodes to itself, leaving the rest untouched.
pub proof fn lemma_dec_enc_u64(x: u64, rest: Seq<u8>)
    ensures
        dec_u64(enc_u64(x) + rest) == Some((x, rest)),
{
    lemma_auto_spec_u64_to_from_le_bytes();
    let b = enc_u64(x) + rest;
    assert(b.take(8) =~= enc_u64(x));
    assert(b.skip(8) =~= rest);
}

/// An encoded byte string decodes to itself.
pub proof fn lemma_dec_enc_bytes(b: Seq<u8>, rest: Seq<u8>)
    requires
        b.len() <= u64::MAX,
    ensures
        dec_bytes(enc_bytes(b) + rest) == Some((b, rest)),
{
    let n = b.len() as u64;
    assert(enc_bytes(b) + rest =~= enc_u64(n) + (b + rest));
    lemma_dec_enc_u64(n, b + rest);
    assert((b + rest).take(n as int) =~= b);
    assert((b + rest).skip(n as int) =~= rest);
}

/// Encoded clock entries decode to themselves, given their count.
pub proof fn lemma_dec_enc_pairs(s: Seq<(KeyId, u64)>, rest: Seq<u8>)
    ensures
        dec_pairs(enc_pairs(s) + rest, s.len()) == Some((s, rest)),
    decreases s.len(),
{
    if s.len() == 0 {
        assert(enc_pairs(s) + rest =~= rest);
    } else {
        let tail = s.drop_first();
        assert(enc_pairs(s) + rest =~= enc_u64(s[0].0) + (enc_u64(s[0].1) + (enc_pairs(tail)
            + rest)));
        lemma_dec_enc_u64(s[0].0, enc_u64(s[0].1) + (enc_pairs(tail) + rest));
        lemma_dec_enc_u64(s[0].1, enc_pairs(tail) + rest);
        lemma_dec_enc_pairs(tail, rest);
        assert(seq![(s[0].0, s[0].1)] + tail =~= s);
    }
}

/// An encoded entry list decodes to itself.
pub proof fn lemma_dec_enc_entries(s: Seq<(KeyId, u64)>, rest: Seq<u8>)
    requires
        s.len() <= u64::MAX,
    ensures
        dec_entries(enc_entries(s) + rest) == Some((s, rest)),
{
    let n = s.len() as u64;
    assert(enc_entries(s) + rest =~= enc_u64(n) + (enc_pairs(s) + rest));
    lemma_dec_enc_u64(n, enc_pairs(s) + rest);
    lemma_dec_enc_pairs(s, rest);
}

/// An encoded clock decodes to itself: entries already in canonical form
/// come back unchanged.
pub proof fn lemma_dec_enc_clock(e: Seq<(KeyId, u64)>, d: Seq<u8>, rest: Seq<u8>)
    requires
        crate::ordinary_clock::sorted(e),
        e.len() <= u64::MAX,
        d.len() <= u64::MAX,
    ensures
        dec_clock(enc_clock(e, d) + rest) == Some(((e, d), rest)),
{
    assert(enc_clock(e, d) + rest =~= enc_entries(e) + (enc_bytes(d) + rest));
    lemma_dec_enc_entries(e, enc_bytes(d) + rest);
    lemma_dec_enc_bytes(d, rest);
    crate::ordinary_clock::lemma_entries_fold_sorted_id(e);
}

/// An encoded clock list decodes to the list's wire content, given its
/// count.
pub proof fn lemma_dec_enc_clocks(v: Seq<NitroEnclavesClock>, rest: Seq<u8>)
    requires
        forall|i: int| 0 <= i < v.len() ==> (#[trigger] v[i]).wf(),
    ensures
        dec_clocks(enc_clocks(v) + rest, v.len()) == Some((clocks_repr(v), rest)),
    decreases v.len(),
{
    if v.len() == 0 {
        assert(enc_clocks(v) + rest =~= rest);
        assert(clocks_repr(v) =~= Seq::<(Seq<(KeyId, u64)>, Seq<u8>)>::empty());
    } else {
        let tail = v.drop_first();
        assert(enc_clocks(v) + rest =~= enc_clock(v[0].plain@, v[0].document@) + (enc_clocks(tail)
            + rest));
        crate::ordinary_clock::lemma_clock_len_bound(&v[0].plain);
        vstd::std_specs::vec::axiom_spec_len(&v[0].document);
        lemma_dec_enc_clock(v[0].plain@, v[0].document@, enc_clocks(tail) + rest);
        assert forall|i: int| 0 <= i < tail.len() implies (#[trigger] tail[i]).wf() by {
            assert(tail[i] == v[i + 1]);
        }
        lemma_dec_enc_clocks(tail, rest);
        assert(seq![clock_repr(v[0])] + clocks_repr(tail) =~= clocks_repr(v));
    }
}

/// Encoded latency samples decode to themselves, given their count.
pub proof fn lemma_dec_enc_u64s(s: Seq<u64>, rest: Seq<u8>)
    ensures
        dec_u64s(enc_u64s(s) + rest, s.len()) == Some((s, rest)),
    decreases s.len(),
{
    if s.len() == 0 {
        assert(enc_u64s(s) + rest =~= rest);
    } else {
        let tail = s.drop_first();
        assert(enc_u64s(s) + rest =~= enc_u64(s[0]) + (enc_u64s(tail) + rest));
        lemma_dec_enc_u64(s[0], enc_u64s(tail) + rest);
        lemma_dec_enc_u64s(tail, rest);
        assert(seq![s[0]] + tail =~= s);
    }
}

/// The request round trip: an encoded update request decodes to exactly
/// the request's content, field for field.
pub proof fn lemma_update_round_trip(u: &Update<NitroEnclavesClock>)
    requires
        u.0.wf(),
        forall|i: int| 0 <= i < u.1@.len() ==> (#[trigger] u.1@[i]).wf(),
    ensures
        dec_update(enc_update(u)) == Some(update_repr(u)),
{
    let n = u.1@.len() as u64;
    let b = enc_update(u);
    assert(b =~= enc_clock(u.0.plain@, u.0.document@) + (enc_u64(n) + (enc_clocks(u.1@) + (enc_u64(
        u.2,
    ) + Seq::<u8>::empty()))));
    crate::ordinary_clock::lemma_clock_len_bound(&u.0.plain);
    vstd::std_specs::vec::axiom_spec_len(&u.0.document);
    vstd::std_specs::vec::axiom_spec_len(&u.1);
    lemma_dec_enc_clock(
        u.0.plain@,
        u.0.document@,
        enc_u64(n) + (enc_clocks(u.1@) + (enc_u64(u.2) + Seq::<u8>::empty())),
    );
    lemma_dec_enc_u64(n, enc_clocks(u.1@) + (enc_u64(u.2) + Seq::<u8>::empty()));
    lemma_dec_enc_clocks(u.1@, enc_u64(u.2) + Seq::<u8>::empty());
    lemma_dec_enc_u64(u.2, Seq::<u8>::empty());
}

/// The response round trip: an encoded update response decodes to exactly
/// the response's content, its correlation id included.
pub proof fn lemma_update_ok_round_trip(ok: &UpdateOk<NitroEnclavesClock>)
    requires
        ok.1.wf(),
    ensures
        dec_update_ok(enc_update_ok(ok)) == Some(update_ok_repr(ok)),
{
    let n = ok.2@.len() as u64;
    let b = enc_update_ok(ok);
    assert(b =~= enc_u64(ok.0) + (enc_clock(ok.1.plain@, ok.1.document@) + (enc_u64(n) + (enc_u64s(
        ok.2@,
    ) + Seq::<u8>::empty()))));
    crate::ordinary_clock::lemma_clock_len_bound(&ok.1.plain);
    vstd::std_specs::vec::axiom_spec_len(&ok.1.document);
    vstd::std_specs::vec::axiom_spec_len(&ok.2);
    lemma_dec_enc_u64(
        ok.0,
        enc_clock(ok.1.plain@, ok.1.document@) + (enc_u64(n) + (enc_u64s(ok.2@)
            + Seq::<u8>::empty())),
    );
    lemma_dec_enc_clock(
        ok.1.plain@,
        ok.1.document@,
        enc_u64(n) + (enc_u64s(ok.2@) + Seq::<u8>::empty()),
    );
    lemma_dec_enc_u64(n, enc_u64s(ok.2@) + Seq::<u8>::empty());
    lemma_dec_enc_u64s(ok.2@, Seq::<u8>::empty());
}

/// The frame round trip: a framed payload is split back off whatever
/// follows it on the stream.
pub proof fn lemma_frame_round_trip(payload: Seq<u8>, rest: Seq<u8>)
    requires
        payload.len() <= u64::MAX,
    ensures
        dec_bytes(enc_bytes(payload) + rest) == Some((payload, rest)),
{
    lemma_dec_enc_bytes(payload, rest);
}

} // verus!
