//! The canonical byte form of a vault's contents: its name and its
//! credentials, each number as eight little-endian bytes and each text as its
//! UTF-8 length followed by its UTF-8 bytes.
use vstd::prelude::*;
use vstd::utf8::{decode_utf8, encode_utf8, valid_utf8};
use crate::credential::{views, Credential, CredentialView};
use crate::primitives::string_from_utf8;

verus! {

/// The eight little-endian bytes of `n`.
pub open spec fn u64_bytes(n: u64) -> Seq<u8> {
    seq![
        n as u8,
        (n >> 8) as u8,
        (n >> 16) as u8,
        (n >> 24) as u8,
        (n >> 32) as u8,
        (n >> 40) as u8,
        (n >> 48) as u8,
        (n >> 56) as u8,
    ]
}

/// The number whose little-endian bytes begin `b`.
pub open spec fn u64_of_bytes(b: Seq<u8>) -> u64
    recommends
        b.len() >= 8,
{
    (b[0] as u64) | ((b[1] as u64) << 8) | ((b[2] as u64) << 16) | ((b[3] as u64) << 24) | ((
    b[4] as u64) << 32) | ((b[5] as u64) << 40) | ((b[6] as u64) << 48) | ((b[7] as u64) << 56)
}

/// A text: the length of its UTF-8 form, then that form.
pub open spec fn text_bytes(s: Seq<char>) -> Seq<u8> {
    u64_bytes(encode_utf8(s).len() as u64) + encode_utf8(s)
}

/// A credential: its identifier, then username, password, service and notes.
#[verifier::opaque]
pub open spec fn credential_bytes(c: CredentialView) -> Seq<u8> {
    u64_bytes(c.id) + text_bytes(c.username) + text_bytes(c.password) + text_bytes(c.service)
        + text_bytes(c.notes)
}

/// Credentials one after another, in order.
pub open spec fn credentials_bytes(cs: Seq<CredentialView>) -> Seq<u8>
    decreases cs.len(),
{
    if cs.len() == 0 {
        Seq::empty()
    } else {
        credential_bytes(cs[0]) + credentials_bytes(cs.drop_first())
    }
}

/// A whole payload: the vault name, the number of credentials, the credentials.
pub open spec fn payload_bytes(name: Seq<char>, cs: Seq<CredentialView>) -> Seq<u8> {
    text_bytes(name) + u64_bytes(cs.len() as u64) + credentials_bytes(cs)
}

/// Whether every length that the payload records fits in its eight bytes.
pub open spec fn text_fits(s: Seq<char>) -> bool {
    encode_utf8(s).len() <= u64::MAX
}

pub open spec fn credential_fits(c: CredentialView) -> bool {
    text_fits(c.username) && text_fits(c.password) && text_fits(c.service) && text_fits(c.notes)
}

pub open spec fn payload_fits(name: Seq<char>, cs: Seq<CredentialView>) -> bool {
    text_fits(name) && cs.len() <= u64::MAX && forall|i: int|
        0 <= i < cs.len() ==> credential_fits(#[trigger] cs[i])
}

/// Reads a number from the front of `b`, with what follows it.
pub open spec fn parse_u64(b: Seq<u8>) -> Option<(u64, Seq<u8>)> {
    if b.len() >= 8 {
        Some((u64_of_bytes(b), b.skip(8)))
    } else {
        None
    }
}

/// Reads a text from the front of `b`, with what follows it.
#[verifier::opaque]
pub open spec fn parse_text(b: Seq<u8>) -> Option<(Seq<char>, Seq<u8>)> {
    match parse_u64(b) {
        None => None,
        Some((n, rest)) => if n <= rest.len() && valid_utf8(rest.take(n as int)) {
            Some((decode_utf8(rest.take(n as int)), rest.skip(n as int)))
        } else {
            None
        },
    }
}

/// Reads a credential from the front of `b`, with what follows it.
#[verifier::opaque]
pub open spec fn parse_credential(b: Seq<u8>) -> Option<(CredentialView, Seq<u8>)> {
    match parse_u64(b) {
        None => None,
        Some((id, r0)) => match parse_text(r0) {
            None => None,
            Some((username, r1)) => match parse_text(r1) {
                None => None,
                Some((password, r2)) => match parse_text(r2) {
                    None => None,
                    Some((service, r3)) => match parse_text(r3) {
                        None => None,
                        Some((notes, r4)) => Some(
                            (CredentialView { id, username, password, service, notes }, r4),
                        ),
                    },
                },
            },
        },
    }
}

/// Reads `n` credentials from the front of `b`, with what follows them.
pub open spec fn parse_credentials(b: Seq<u8>, n: nat) -> Option<(Seq<CredentialView>, Seq<u8>)>
    decreases n,
{
    if n == 0 {
        Some((Seq::empty(), b))
    } else {
        match parse_credential(b) {
            None => None,
            Some((c, r)) => match parse_credentials(r, (n - 1) as nat) {
                None => None,
                Some((cs, r2)) => Some((seq![c] + cs, r2)),
            },
        }
    }
}

/// `found` with `acc` put before the credentials it read.
pub open spec fn prepend_found(
    acc: Seq<CredentialView>,
    found: Option<(Seq<CredentialView>, Seq<u8>)>,
) -> Option<(Seq<CredentialView>, Seq<u8>)> {
    match found {
        None => None,
        Some((cs, r)) => Some((acc + cs, r)),
    }
}

/// Reads a whole payload; nothing may follow it.
pub open spec fn parse_payload(b: Seq<u8>) -> Option<(Seq<char>, Seq<CredentialView>)> {
    match parse_text(b) {
        None => None,
        Some((name, r0)) => match parse_u64(r0) {
            None => None,
            Some((n, r1)) => match parse_credentials(r1, n as nat) {
                None => None,
                Some((cs, r2)) => if r2.len() == 0 {
                    Some((name, cs))
                } else {
                    None
                },
            },
        },
    }
}

proof fn lemma_u64_round_trip(n: u64, rest: Seq<u8>)
    ensures
        parse_u64(u64_bytes(n) + rest) == Some((n, rest)),
{
    let b = u64_bytes(n) + rest;
    assert(b.skip(8) =~= rest);
    assert(((n as u8) as u64) | ((((n >> 8) as u8) as u64) << 8) | ((((n >> 16) as u8) as u64)
        << 16) | ((((n >> 24) as u8) as u64) << 24) | ((((n >> 32) as u8) as u64) << 32) | ((((n
        >> 40) as u8) as u64) << 40) | ((((n >> 48) as u8) as u64) << 48) | ((((n >> 56) as u8)
        as u64) << 56) == n) by (bit_vector);
}

proof fn lemma_text_round_trip(s: Seq<char>, rest: Seq<u8>)
    requires
        text_fits(s),
    ensures
        parse_text(text_bytes(s) + rest) == Some((s, rest)),
{
    reveal(parse_text);
    let e = encode_utf8(s);
    let b = text_bytes(s) + rest;
    assert(b =~= u64_bytes(e.len() as u64) + (e + rest));
    lemma_u64_round_trip(e.len() as u64, e + rest);
    vstd::utf8::encode_utf8_valid_utf8(s);
    vstd::utf8::encode_utf8_decode_utf8(s);
    assert((e + rest).take(e.len() as int) =~= e);
    assert((e + rest).skip(e.len() as int) =~= rest);
}

proof fn lemma_credential_round_trip(c: CredentialView, rest: Seq<u8>)
    requires
        credential_fits(c),
    ensures
        parse_credential(credential_bytes(c) + rest) == Some((c, rest)),
{
    reveal(parse_credential);
    reveal(credential_bytes);
    let r4 = rest;
    let r3 = text_bytes(c.notes) + r4;
    let r2 = text_bytes(c.service) + r3;
    let r1 = text_bytes(c.password) + r2;
    let r0 = text_bytes(c.username) + r1;
    assert(credential_bytes(c) + rest =~= u64_bytes(c.id) + r0);
    lemma_u64_round_trip(c.id, r0);
    lemma_text_round_trip(c.username, r1);
    lemma_text_round_trip(c.password, r2);
    lemma_text_round_trip(c.service, r3);
    lemma_text_round_trip(c.notes, r4);
}

proof fn lemma_credentials_round_trip(cs: Seq<CredentialView>, rest: Seq<u8>)
    requires
        forall|i: int| 0 <= i < cs.len() ==> credential_fits(#[trigger] cs[i]),
    ensures
        parse_credentials(credentials_bytes(cs) + rest, cs.len()) == Some((cs, rest)),
    decreases cs.len(),
{
    if cs.len() > 0 {
        let tail = cs.drop_first();
        assert forall|i: int| 0 <= i < tail.len() implies credential_fits(#[trigger] tail[i]) by {
            assert(tail[i] == cs[i + 1]);
        }
        lemma_credentials_round_trip(tail, rest);
        assert(credentials_bytes(cs) + rest =~= credential_bytes(cs[0]) + (credentials_bytes(tail)
            + rest));
        lemma_credential_round_trip(cs[0], credentials_bytes(tail) + rest);
        assert(seq![cs[0]] + tail =~= cs);
    } else {
        assert(credentials_bytes(cs) + rest =~= rest);
    }
}

/// Reading back the payload of a name and credentials gives that name and
/// those credentials, whenever every recorded length fits.
pub proof fn lemma_payload_round_trip(name: Seq<char>, cs: Seq<CredentialView>)
    requires
        payload_fits(name, cs),
    ensures
        parse_payload(payload_bytes(name, cs)) == Some((name, cs)),
{
    let empty = Seq::<u8>::empty();
    let r1 = credentials_bytes(cs) + empty;
    let r0 = u64_bytes(cs.len() as u64) + r1;
    assert(payload_bytes(name, cs) =~= text_bytes(name) + r0);
    lemma_text_round_trip(name, r0);
    lemma_u64_round_trip(cs.len() as u64, r1);
    lemma_credentials_round_trip(cs, empty);
}


proof fn lemma_credentials_bytes_push(cs: Seq<CredentialView>, c: CredentialView)
    ensures
        credentials_bytes(cs.push(c)) == credentials_bytes(cs) + credential_bytes(c),
    decreases cs.len(),
{
    if cs.len() == 0 {
        assert(cs.push(c).drop_first() =~= Seq::<CredentialView>::empty());
        assert(cs.push(c)[0] == c);
        assert(credentials_bytes(cs.push(c)) == credential_bytes(c) + credentials_bytes(
            Seq::<CredentialView>::empty(),
        ));
        assert(credentials_bytes(cs.push(c)) =~= credentials_bytes(cs) + credential_bytes(c));
    } else {
        assert(cs.push(c).drop_first() =~= cs.drop_first().push(c));
        assert(cs.push(c)[0] == cs[0]);
        lemma_credentials_bytes_push(cs.drop_first(), c);
        assert(credentials_bytes(cs.push(c)) == credential_bytes(cs[0]) + credentials_bytes(
            cs.drop_first().push(c),
        ));
        assert(credentials_bytes(cs.push(c)) =~= credentials_bytes(cs) + credential_bytes(c));
    }
}

fn push_u64(out: &mut Vec<u8>, n: u64)
    ensures
        final(out)@ == old(out)@ + u64_bytes(n),
{
    out.push(n as u8);
    out.push((n >> 8) as u8);
    out.push((n >> 16) as u8);
    out.push((n >> 24) as u8);
    out.push((n >> 32) as u8);
    out.push((n >> 40) as u8);
    out.push((n >> 48) as u8);
    out.push((n >> 56) as u8);
    assert(final(out)@ =~= old(out)@ + u64_bytes(n));
}

fn push_text(out: &mut Vec<u8>, s: &str)
    ensures
        final(out)@ == old(out)@ + text_bytes(s@),
{
    let b = s.as_bytes();
    push_u64(out, b.len() as u64);
    let ghost start = out@;
    let mut i: usize = 0;
    while i < b.len()
        invariant
            0 <= i <= b@.len(),
            b@ == encode_utf8(s@),
            start == old(out)@ + u64_bytes(b@.len() as u64),
            out@ == start + b@.take(i as int),
        decreases b@.len() - i,
    {
        out.push(b[i]);
        assert(b@.take(i + 1) =~= b@.take(i as int).push(b@[i as int]));
        i = i + 1;
    }
    assert(b@.take(i as int) =~= b@);
    assert(out@ =~= old(out)@ + text_bytes(s@));
}

fn push_credential(out: &mut Vec<u8>, c: &Credential)
    ensures
        final(out)@ == old(out)@ + credential_bytes(c@),
{
    push_u64(out, *c.get_id());
    push_text(out, c.get_username());
    push_text(out, c.get_password());
    push_text(out, c.get_service());
    push_text(out, c.get_notes());
    reveal(credential_bytes);
    assert(out@ =~= old(out)@ + credential_bytes(c@));
}

/// The canonical payload of a vault name and its credentials.
pub fn encode_payload(name: &str, creds: &[Credential]) -> (r: Vec<u8>)
    ensures
        r@ == payload_bytes(name@, views(creds@)),
{
    let mut out: Vec<u8> = Vec::new();
    push_text(&mut out, name);
    push_u64(&mut out, creds.len() as u64);
    let ghost head = out@;
    let mut i: usize = 0;
    while i < creds.len()
        invariant
            0 <= i <= creds@.len(),
            head == text_bytes(name@) + u64_bytes(creds@.len() as u64),
            out@ == head + credentials_bytes(views(creds@).take(i as int)),
        decreases creds@.len() - i,
    {
        push_credential(&mut out, &creds[i]);
        proof {
            let vs = views(creds@);
            assert(vs.take(i + 1) =~= vs.take(i as int).push(vs[i as int]));
            lemma_credentials_bytes_push(vs.take(i as int), vs[i as int]);
        }
        i = i + 1;
    }
    assert(views(creds@).take(i as int) =~= views(creds@));
    out
}

fn read_u64(b: &[u8], pos: usize) -> (r: Option<(u64, usize)>)
    requires
        pos <= b@.len(),
    ensures
        match parse_u64(b@.skip(pos as int)) {
            None => r is None,
            Some((v, rest)) => r matches Some((x, p)) && x == v && pos <= p <= b@.len() && rest
                == b@.skip(p as int),
        },
{
    if b.len() - pos < 8 {
        return None;
    }
    let v: u64 = (b[pos] as u64) | ((b[pos + 1] as u64) << 8) | ((b[pos + 2] as u64) << 16) | ((
    b[pos + 3] as u64) << 24) | ((b[pos + 4] as u64) << 32) | ((b[pos + 5] as u64) << 40) | ((b[pos
        + 6] as u64) << 48) | ((b[pos + 7] as u64) << 56);
    assert(b@.skip(pos as int).skip(8) =~= b@.skip(pos + 8));
    Some((v, pos + 8))
}

fn read_text(b: &[u8], pos: usize) -> (r: Option<(String, usize)>)
    requires
        pos <= b@.len(),
    ensures
        match parse_text(b@.skip(pos as int)) {
            None => r is None,
            Some((v, rest)) => r matches Some((x, p)) && x@ == v && pos <= p <= b@.len() && rest
                == b@.skip(p as int),
        },
{
    reveal(parse_text);
    let (n, start) = match read_u64(b, pos) {
        None => return None,
        Some(x) => x,
    };
    if n > (b.len() - start) as u64 {
        return None;
    }
    let end: usize = start + n as usize;
    let mut bytes: Vec<u8> = Vec::new();
    let mut i: usize = start;
    while i < end
        invariant
            start <= i <= end <= b@.len(),
            bytes@ == b@.subrange(start as int, i as int),
        decreases end - i,
    {
        bytes.push(b[i]);
        assert(b@.subrange(start as int, i + 1) =~= b@.subrange(start as int, i as int).push(
            b@[i as int],
        ));
        i = i + 1;
    }
    let ghost rest = b@.skip(start as int);
    assert(rest.take(n as int) =~= bytes@);
    assert(rest.skip(n as int) =~= b@.skip(end as int));
    match string_from_utf8(bytes) {
        None => None,
        Some(s) => Some((s, end)),
    }
}

fn read_credential(b: &[u8], pos: usize) -> (r: Option<(Credential, usize)>)
    requires
        pos <= b@.len(),
    ensures
        match parse_credential(b@.skip(pos as int)) {
            None => r is None,
            Some((v, rest)) => r matches Some((x, p)) && x@ == v && pos <= p <= b@.len() && rest
                == b@.skip(p as int),
        },
{
    reveal(parse_credential);
    let (id, p0) = match read_u64(b, pos) {
        None => return None,
        Some(x) => x,
    };
    let (username, p1) = match read_text(b, p0) {
        None => return None,
        Some(x) => x,
    };
    let (password, p2) = match read_text(b, p1) {
        None => return None,
        Some(x) => x,
    };
    let (service, p3) = match read_text(b, p2) {
        None => return None,
        Some(x) => x,
    };
    let (notes, p4) = match read_text(b, p3) {
        None => return None,
        Some(x) => x,
    };
    Some((Credential::new(id, username, password, service, notes), p4))
}

/// Reads a payload back into a vault name and its credentials; `None` exactly
/// when the bytes are not a payload.
pub fn decode_payload(b: &[u8]) -> (r: Option<(String, Vec<Credential>)>)
    ensures
        match parse_payload(b@) {
            None => r is None,
            Some((name, cs)) => r matches Some((s, v)) && s@ == name && views(v@) == cs,
        },
{
    assert(b@.skip(0) =~= b@);
    let (name, p0) = match read_text(b, 0) {
        None => return None,
        Some(x) => x,
    };
    let (n, p1) = match read_u64(b, p0) {
        None => return None,
        Some(x) => x,
    };
    let mut creds: Vec<Credential> = Vec::new();
    let mut pos: usize = p1;
    let mut i: u64 = 0;
    while i < n
        invariant
            i <= n,
            p1 <= pos <= b@.len(),
            parse_text(b@) == Some((name@, b@.skip(p0 as int))),
            parse_u64(b@.skip(p0 as int)) == Some((n, b@.skip(p1 as int))),
            parse_credentials(b@.skip(p1 as int), n as nat) == prepend_found(
                views(creds@),
                parse_credentials(b@.skip(pos as int), (n - i) as nat),
            ),
        decreases n - i,
    {
        let ghost old_views = views(creds@);
        match read_credential(b, pos) {
            None => {
                assert(parse_credentials(b@.skip(pos as int), (n - i) as nat) is None);
                return None;
            },
            Some((c, p)) => {
                let ghost cv = c@;
                creds.push(c);
                proof {
                    assert(views(creds@) =~= old_views + seq![cv]);
                    let later = parse_credentials(b@.skip(p as int), (n - i - 1) as nat);
                    assert(parse_credentials(b@.skip(pos as int), (n - i) as nat)
                        == prepend_found(seq![cv], later));
                    match later {
                        None => {},
                        Some((cs, r)) => {
                            assert(views(creds@) + cs =~= old_views + (seq![cv] + cs));
                        },
                    }
                }
                pos = p;
            },
        }
        i = i + 1;
    }
    assert(views(creds@) + Seq::<CredentialView>::empty() =~= views(creds@));
    if pos != b.len() {
        return None;
    }
    Some((name, creds))
}

} // verus!
