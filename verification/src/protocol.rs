//! The share-exchange protocol: a tagged union of requests and responses
//! with a deterministic, self-describing binary encoding.
//!
//! A message is encoded as a one-byte variant tag followed by its fields in
//! declaration order. Byte strings and UTF-8 strings carry a little-endian
//! 8-byte length prefix; a polynomial list carries an 8-byte count followed
//! by each polynomial's length-prefixed coefficient bytes; a boolean is one
//! byte, zero or one. Decoding accepts exactly the encodings and consumes
//! the whole input; the round-trip laws are proved below.

use vstd::bytes::lemma_auto_spec_u64_to_from_le_bytes;
use vstd::bytes::spec_u64_from_le_bytes;
use vstd::bytes::spec_u64_to_le_bytes;
use vstd::bytes::u64_from_le_bytes;
use vstd::bytes::u64_to_le_bytes;
use vstd::prelude::*;
use vstd::slice::slice_index_get;
use vstd::slice::slice_subrange;
use vstd::slice::slice_to_vec;
use vstd::utf8::decode_utf8;
use vstd::utf8::encode_utf8;
use vstd::utf8::encode_utf8_decode_utf8;
use vstd::utf8::encode_utf8_valid_utf8;
use vstd::utf8::valid_utf8;

use crate::poly::Polynomial;

verus! {

/// A request to fetch the share stored under a key.
#[derive(Debug, Clone, PartialEq, Eq)]
pub struct GetShareRequest {
    /// The key the share is stored under.
    pub key: String,
    /// The identity bytes of the peer asked for the share.
    pub peer: Vec<u8>,
    /// The identity bytes of the requesting peer.
    pub sender: Vec<u8>,
}

/// The reply to a [`GetShareRequest`].
#[derive(Debug, PartialEq, Eq)]
pub struct GetShareResponse {
    /// The share point; (0, empty) when the request is denied.
    pub share: (u8, Vec<u8>),
    /// Whether the share was handed out.
    pub success: bool,
}

/// A request to store a share under a key.
#[derive(Debug, PartialEq, Eq)]
pub struct RegisterShareRequest {
    /// The key to store the share under.
    pub key: String,
    /// The share point to store.
    pub share: (u8, Vec<u8>),
    /// The threshold the secret was split with.
    pub threshold: u64,
    /// The identity bytes of the peer asked to store the share.
    pub peer: Vec<u8>,
    /// The identity bytes of the registering peer.
    pub sender: Vec<u8>,
}

/// The reply to a [`RegisterShareRequest`].
#[derive(Debug, Clone, PartialEq, Eq)]
pub struct RegisterShareResponse {
    /// Whether the share was stored.
    pub success: bool,
}

/// A request to apply a refresh key to the share stored under a key.
#[derive(Debug, Clone, PartialEq, Eq)]
pub struct RefreshShareRequest {
    /// The key whose share is refreshed.
    pub key: String,
    /// The refresh key: one zero-constant polynomial per share byte.
    pub refresh_key: Vec<Polynomial>,
    /// The identity bytes of the peer asked to refresh.
    pub peer: Vec<u8>,
    /// The identity bytes of the requesting peer.
    pub sender: Vec<u8>,
}

/// The reply to a [`RefreshShareRequest`].
#[derive(Debug, Clone, PartialEq, Eq)]
pub struct RefreshShareResponse {
    /// Whether the refresh was applied.
    pub success: bool,
}

/// A request of the share-exchange protocol.
#[derive(Debug, Clone, PartialEq, Eq)]
pub enum Request {
    GetShare(GetShareRequest),
    RegisterShare(RegisterShareRequest),
    RefreshShare(RefreshShareRequest),
}

/// A response of the share-exchange protocol.
#[derive(Debug, Clone, PartialEq, Eq)]
pub enum Response {
    GetShare(GetShareResponse),
    RegisterShare(RegisterShareResponse),
    RefreshShares(RefreshShareResponse),
}

impl Clone for GetShareResponse {
    /// Cloning keeps the message's value.
    fn clone(&self) -> (r: Self)
        ensures
            r.share.0 == self.share.0,
            r.share.1@ == self.share.1@,
            r.success == self.success,
    {
        let r = GetShareResponse {
            share: (self.share.0, self.share.1.clone()),
            success: self.success,
        };
        proof {
            assert(r.share.1@ =~= self.share.1@);
        }
        r
    }
}

impl Clone for RegisterShareRequest {
    /// Cloning keeps the message's value.
    fn clone(&self) -> (r: Self)
        ensures
            r.key@ == self.key@,
            r.share.0 == self.share.0,
            r.share.1@ == self.share.1@,
            r.threshold == self.threshold,
            r.peer@ == self.peer@,
            r.sender@ == self.sender@,
    {
        let r = RegisterShareRequest {
            key: self.key.clone(),
            share: (self.share.0, self.share.1.clone()),
            threshold: self.threshold,
            peer: self.peer.clone(),
            sender: self.sender.clone(),
        };
        proof {
            assert(r.share.1@ =~= self.share.1@);
            assert(r.peer@ =~= self.peer@);
            assert(r.sender@ =~= self.sender@);
        }
        r
    }
}

/// The mathematical value of a request.
pub enum RequestV {
    GetShare { key: Seq<char>, peer: Seq<u8>, sender: Seq<u8> },
    RegisterShare {
        key: Seq<char>,
        share: (u8, Seq<u8>),
        threshold: u64,
        peer: Seq<u8>,
        sender: Seq<u8>,
    },
    RefreshShare { key: Seq<char>, refresh_key: Seq<Seq<u8>>, peer: Seq<u8>, sender: Seq<u8> },
}

/// The mathematical value of a response.
pub enum ResponseV {
    GetShare { share: (u8, Seq<u8>), success: bool },
    RegisterShare { success: bool },
    RefreshShares { success: bool },
}

impl View for Request {
    type V = RequestV;

    open spec fn view(&self) -> RequestV {
        match self {
            Request::GetShare(m) => RequestV::GetShare {
                key: m.key@,
                peer: m.peer@,
                sender: m.sender@,
            },
            Request::RegisterShare(m) => RequestV::RegisterShare {
                key: m.key@,
                share: (m.share.0, m.share.1@),
                threshold: m.threshold,
                peer: m.peer@,
                sender: m.sender@,
            },
            Request::RefreshShare(m) => RequestV::RefreshShare {
                key: m.key@,
                refresh_key: m.refresh_key@.map_values(|p: Polynomial| p@),
                peer: m.peer@,
                sender: m.sender@,
            },
        }
    }
}

impl View for Response {
    type V = ResponseV;

    open spec fn view(&self) -> ResponseV {
        match self {
            Response::GetShare(m) => ResponseV::GetShare {
                share: (m.share.0, m.share.1@),
                success: m.success,
            },
            Response::RegisterShare(m) => ResponseV::RegisterShare { success: m.success },
            Response::RefreshShares(m) => ResponseV::RefreshShares { success: m.success },
        }
    }
}

/// A byte string on the wire: 8-byte little-endian length, then the bytes.
pub open spec fn spec_enc_bytes(b: Seq<u8>) -> Seq<u8> {
    spec_u64_to_le_bytes(b.len() as u64) + b
}

/// Read one length-prefixed byte string; what follows is returned unread.
pub open spec fn spec_dec_bytes(b: Seq<u8>) -> Option<(Seq<u8>, Seq<u8>)> {
    if b.len() < 8 {
        None
    } else {
        let n = spec_u64_from_le_bytes(b.take(8)) as int;
        let rest = b.skip(8);
        if rest.len() < n {
            None
        } else {
            Some((rest.take(n), rest.skip(n)))
        }
    }
}

/// A 64-bit number on the wire: 8 bytes, little-endian.
pub open spec fn spec_enc_u64(v: u64) -> Seq<u8> {
    spec_u64_to_le_bytes(v)
}

/// Read one 64-bit number.
pub open spec fn spec_dec_u64(b: Seq<u8>) -> Option<(u64, Seq<u8>)> {
    if b.len() < 8 {
        None
    } else {
        Some((spec_u64_from_le_bytes(b.take(8)), b.skip(8)))
    }
}

/// A string on the wire: its UTF-8 bytes, length-prefixed.
pub open spec fn spec_enc_string(s: Seq<char>) -> Seq<u8> {
    spec_enc_bytes(encode_utf8(s))
}

/// Read one string; bytes that are not valid UTF-8 are rejected.
pub open spec fn spec_dec_string(b: Seq<u8>) -> Option<(Seq<char>, Seq<u8>)> {
    match spec_dec_bytes(b) {
        Some((bs, rest)) => if valid_utf8(bs) {
            Some((decode_utf8(bs), rest))
        } else {
            None
        },
        None => None,
    }
}

/// A boolean on the wire: one byte, one or zero.
pub open spec fn spec_enc_bool(v: bool) -> Seq<u8> {
    seq![if v { 1u8 } else { 0u8 }]
}

/// Read one boolean; any byte besides one and zero is rejected.
pub open spec fn spec_dec_bool(b: Seq<u8>) -> Option<(bool, Seq<u8>)> {
    if b.len() < 1 {
        None
    } else if b[0] == 1 {
        Some((true, b.skip(1)))
    } else if b[0] == 0 {
        Some((false, b.skip(1)))
    } else {
        None
    }
}

/// A share point on the wire: the index byte, then the length-prefixed data.
pub open spec fn spec_enc_share(share: (u8, Seq<u8>)) -> Seq<u8> {
    seq![share.0] + spec_enc_bytes(share.1)
}

/// Read one share point.
pub open spec fn spec_dec_share(b: Seq<u8>) -> Option<((u8, Seq<u8>), Seq<u8>)> {
    if b.len() < 1 {
        None
    } else {
        match spec_dec_bytes(b.skip(1)) {
            Some((y, rest)) => Some(((b[0], y), rest)),
            None => None,
        }
    }
}

/// Reading a byte string finds what was written, and leaves the rest.
pub proof fn lemma_dec_enc_bytes(data: Seq<u8>, tail: Seq<u8>)
    requires
        data.len() <= u64::MAX,
    ensures
        spec_dec_bytes(spec_enc_bytes(data) + tail) == Some((data, tail)),
{
    lemma_auto_spec_u64_to_from_le_bytes();
    let whole = spec_enc_bytes(data) + tail;
    let lenb = spec_u64_to_le_bytes(data.len() as u64);
    assert(whole.take(8) =~= lenb);
    assert(whole.skip(8) =~= data + tail);
    assert((data + tail).take(data.len() as int) =~= data);
    assert((data + tail).skip(data.len() as int) =~= tail);
}

/// Reading a number finds what was written, and leaves the rest.
pub proof fn lemma_dec_enc_u64(v: u64, tail: Seq<u8>)
    ensures
        spec_dec_u64(spec_enc_u64(v) + tail) == Some((v, tail)),
{
    lemma_auto_spec_u64_to_from_le_bytes();
    let whole = spec_enc_u64(v) + tail;
    assert(whole.take(8) =~= spec_u64_to_le_bytes(v));
    assert(whole.skip(8) =~= tail);
}

/// Reading a string finds what was written, and leaves the rest.
pub proof fn lemma_dec_enc_string(s: Seq<char>, tail: Seq<u8>)
    requires
        encode_utf8(s).len() <= u64::MAX,
    ensures
        spec_dec_string(spec_enc_string(s) + tail) == Some((s, tail)),
{
    lemma_dec_enc_bytes(encode_utf8(s), tail);
    encode_utf8_valid_utf8(s);
    encode_utf8_decode_utf8(s);
}

/// Reading a boolean finds what was written, and leaves the rest.
pub proof fn lemma_dec_enc_bool(v: bool, tail: Seq<u8>)
    ensures
        spec_dec_bool(spec_enc_bool(v) + tail) == Some((v, tail)),
{
    let whole = spec_enc_bool(v) + tail;
    assert(whole[0] == (if v { 1u8 } else { 0u8 }));
    assert(whole.skip(1) =~= tail);
}

/// Reading a share point finds what was written, and leaves the rest.
pub proof fn lemma_dec_enc_share(share: (u8, Seq<u8>), tail: Seq<u8>)
    requires
        share.1.len() <= u64::MAX,
    ensures
        spec_dec_share(spec_enc_share(share) + tail) == Some((share, tail)),
{
    let whole = spec_enc_share(share) + tail;
    assert(whole[0] == share.0);
    assert(whole.skip(1) =~= spec_enc_bytes(share.1) + tail);
    lemma_dec_enc_bytes(share.1, tail);
}

} // verus!

verus! {

/// The concatenated length-prefixed coefficient strings of a polynomial
/// list.
pub open spec fn spec_enc_poly_items(ps: Seq<Seq<u8>>) -> Seq<u8>
    decreases ps.len(),
{
    if ps.len() == 0 {
        Seq::empty()
    } else {
        spec_enc_bytes(ps[0]) + spec_enc_poly_items(ps.drop_first())
    }
}

/// A polynomial list on the wire: an 8-byte count, then each polynomial's
/// length-prefixed coefficients.
pub open spec fn spec_enc_poly_list(ps: Seq<Seq<u8>>) -> Seq<u8> {
    spec_u64_to_le_bytes(ps.len() as u64) + spec_enc_poly_items(ps)
}

/// Read `n` length-prefixed coefficient strings.
pub open spec fn spec_dec_poly_items(b: Seq<u8>, n: nat) -> Option<(Seq<Seq<u8>>, Seq<u8>)>
    decreases n,
{
    if n == 0 {
        Some((Seq::empty(), b))
    } else {
        match spec_dec_bytes(b) {
            Some((p, rest)) => match spec_dec_poly_items(rest, (n - 1) as nat) {
                Some((ps, r2)) => Some((seq![p] + ps, r2)),
                None => None,
            },
            None => None,
        }
    }
}

/// Read one polynomial list.
pub open spec fn spec_dec_poly_list(b: Seq<u8>) -> Option<(Seq<Seq<u8>>, Seq<u8>)> {
    if b.len() < 8 {
        None
    } else {
        spec_dec_poly_items(b.skip(8), spec_u64_from_le_bytes(b.take(8)) as nat)
    }
}

/// Appending a polynomial extends the item encoding at the end.
pub proof fn lemma_enc_poly_items_push(ps: Seq<Seq<u8>>, p: Seq<u8>)
    ensures
        spec_enc_poly_items(ps.push(p)) == spec_enc_poly_items(ps) + spec_enc_bytes(p),
    decreases ps.len(),
{
    if ps.len() == 0 {
        assert(ps.push(p)[0] == p);
        assert(ps.push(p).drop_first() =~= Seq::<Seq<u8>>::empty());
        assert(spec_enc_poly_items(Seq::<Seq<u8>>::empty()) =~= Seq::<u8>::empty());
        assert(spec_enc_poly_items(ps.push(p)) =~= spec_enc_bytes(p) + Seq::<u8>::empty());
        assert(spec_enc_bytes(p) + Seq::<u8>::empty() =~= Seq::<u8>::empty() + spec_enc_bytes(p));
        assert(spec_enc_poly_items(ps.push(p)) =~= spec_enc_poly_items(ps) + spec_enc_bytes(p));
    } else {
        assert(ps.push(p)[0] == ps[0]);
        assert(ps.push(p).drop_first() =~= ps.drop_first().push(p));
        lemma_enc_poly_items_push(ps.drop_first(), p);
        assert(spec_enc_poly_items(ps.push(p)) =~= spec_enc_poly_items(ps) + spec_enc_bytes(p));
    }
}

/// Reading the items of a polynomial list finds what was written.
pub proof fn lemma_dec_enc_poly_items(ps: Seq<Seq<u8>>, tail: Seq<u8>)
    requires
        forall|i: int| 0 <= i < ps.len() ==> (#[trigger] ps[i]).len() <= u64::MAX,
    ensures
        spec_dec_poly_items(spec_enc_poly_items(ps) + tail, ps.len()) == Some((ps, tail)),
    decreases ps.len(),
{
    if ps.len() == 0 {
        assert(spec_enc_poly_items(ps) + tail =~= tail);
    } else {
        let rest_enc = spec_enc_poly_items(ps.drop_first());
        assert(spec_enc_poly_items(ps) + tail =~= spec_enc_bytes(ps[0]) + (rest_enc + tail));
        lemma_dec_enc_bytes(ps[0], rest_enc + tail);
        assert forall|i: int| 0 <= i < ps.drop_first().len() implies (
        #[trigger] ps.drop_first()[i]).len() <= u64::MAX by {
            assert(ps[i + 1].len() <= u64::MAX);
        }
        lemma_dec_enc_poly_items(ps.drop_first(), tail);
        assert(seq![ps[0]] + ps.drop_first() =~= ps);
    }
}

/// Reading a polynomial list finds what was written, and leaves the rest.
pub proof fn lemma_dec_enc_poly_list(ps: Seq<Seq<u8>>, tail: Seq<u8>)
    requires
        ps.len() <= u64::MAX,
        forall|i: int| 0 <= i < ps.len() ==> (#[trigger] ps[i]).len() <= u64::MAX,
    ensures
        spec_dec_poly_list(spec_enc_poly_list(ps) + tail) == Some((ps, tail)),
{
    lemma_auto_spec_u64_to_from_le_bytes();
    let whole = spec_enc_poly_list(ps) + tail;
    assert(whole.take(8) =~= spec_u64_to_le_bytes(ps.len() as u64));
    assert(whole.skip(8) =~= spec_enc_poly_items(ps) + tail);
    lemma_dec_enc_poly_items(ps, tail);
}

/// The wire form of a request: a tag byte, then the fields in order.
pub open spec fn spec_enc_request(r: RequestV) -> Seq<u8> {
    match r {
        RequestV::GetShare { key, peer, sender } => seq![0u8] + spec_enc_string(key)
            + spec_enc_bytes(peer) + spec_enc_bytes(sender),
        RequestV::RegisterShare { key, share, threshold, peer, sender } => seq![1u8]
            + spec_enc_string(key) + spec_enc_share(share) + spec_enc_u64(threshold)
            + spec_enc_bytes(peer) + spec_enc_bytes(sender),
        RequestV::RefreshShare { key, refresh_key, peer, sender } => seq![2u8] + spec_enc_string(
            key,
        ) + spec_enc_poly_list(refresh_key) + spec_enc_bytes(peer) + spec_enc_bytes(sender),
    }
}

/// Read one request; the input must be consumed exactly.
pub open spec fn spec_dec_request(b: Seq<u8>) -> Option<RequestV> {
    if b.len() < 1 {
        None
    } else {
        let rest0 = b.skip(1);
        if b[0] == 0 {
            match spec_dec_string(rest0) {
                Some((key, r1)) => match spec_dec_bytes(r1) {
                    Some((peer, r2)) => match spec_dec_bytes(r2) {
                        Some((sender, r3)) => if r3.len() == 0 {
                            Some(RequestV::GetShare { key, peer, sender })
                        } else {
                            None
                        },
                        None => None,
                    },
                    None => None,
                },
                None => None,
            }
        } else if b[0] == 1 {
            match spec_dec_string(rest0) {
                Some((key, r1)) => match spec_dec_share(r1) {
                    Some((share, r2)) => match spec_dec_u64(r2) {
                        Some((threshold, r3)) => match spec_dec_bytes(r3) {
                            Some((peer, r4)) => match spec_dec_bytes(r4) {
                                Some((sender, r5)) => if r5.len() == 0 {
                                    Some(
                                        RequestV::RegisterShare {
                                            key,
                                            share,
                                            threshold,
                                            peer,
                                            sender,
                                        },
                                    )
                                } else {
                                    None
                                },
                                None => None,
                            },
                            None => None,
                        },
                        None => None,
                    },
                    None => None,
                },
                None => None,
            }
        } else if b[0] == 2 {
            match spec_dec_string(rest0) {
                Some((key, r1)) => match spec_dec_poly_list(r1) {
                    Some((refresh_key, r2)) => match spec_dec_bytes(r2) {
                        Some((peer, r3)) => match spec_dec_bytes(r3) {
                            Some((sender, r4)) => if r4.len() == 0 {
                                Some(RequestV::RefreshShare { key, refresh_key, peer, sender })
                            } else {
                                None
                            },
                            None => None,
                        },
                        None => None,
                    },
                    None => None,
                },
                None => None,
            }
        } else {
            None
        }
    }
}

/// The wire form of a response: a tag byte, then the fields in order.
pub open spec fn spec_enc_response(r: ResponseV) -> Seq<u8> {
    match r {
        ResponseV::GetShare { share, success } => seq![0u8] + spec_enc_share(share)
            + spec_enc_bool(success),
        ResponseV::RegisterShare { success } => seq![1u8] + spec_enc_bool(success),
        ResponseV::RefreshShares { success } => seq![2u8] + spec_enc_bool(success),
    }
}

/// Read one response; the input must be consumed exactly.
pub open spec fn spec_dec_response(b: Seq<u8>) -> Option<ResponseV> {
    if b.len() < 1 {
        None
    } else {
        let rest0 = b.skip(1);
        if b[0] == 0 {
            match spec_dec_share(rest0) {
                Some((share, r1)) => match spec_dec_bool(r1) {
                    Some((success, r2)) => if r2.len() == 0 {
                        Some(ResponseV::GetShare { share, success })
                    } else {
                        None
                    },
                    None => None,
                },
                None => None,
            }
        } else if b[0] == 1 || b[0] == 2 {
            match spec_dec_bool(rest0) {
                Some((success, r1)) => if r1.len() == 0 {
                    if b[0] == 1 {
                        Some(ResponseV::RegisterShare { success })
                    } else {
                        Some(ResponseV::RefreshShares { success })
                    }
                } else {
                    None
                },
                None => None,
            }
        } else {
            None
        }
    }
}

/// A request whose components fit under the wire format's length prefixes.
/// Only inputs past 2^64 bytes fall outside.
pub open spec fn request_fits(r: RequestV) -> bool {
    match r {
        RequestV::GetShare { key, peer, sender } => encode_utf8(key).len() <= u64::MAX
            && peer.len() <= u64::MAX && sender.len() <= u64::MAX,
        RequestV::RegisterShare { key, share, threshold, peer, sender } => encode_utf8(key).len()
            <= u64::MAX && share.1.len() <= u64::MAX && peer.len() <= u64::MAX && sender.len()
            <= u64::MAX,
        RequestV::RefreshShare { key, refresh_key, peer, sender } => encode_utf8(key).len()
            <= u64::MAX && refresh_key.len() <= u64::MAX && (forall|i: int|
            0 <= i < refresh_key.len() ==> (#[trigger] refresh_key[i]).len() <= u64::MAX)
            && peer.len() <= u64::MAX && sender.len() <= u64::MAX,
    }
}

/// The round-trip law for requests: decoding an encoded request gives the
/// request back.
pub proof fn lemma_request_round_trip(r: RequestV)
    requires
        request_fits(r),
    ensures
        spec_dec_request(spec_enc_request(r)) == Some(r),
{
    let whole = spec_enc_request(r);
    match r {
        RequestV::GetShare { key, peer, sender } => {
            let e_key = spec_enc_string(key);
            let e_peer = spec_enc_bytes(peer);
            let e_send = spec_enc_bytes(sender);
            assert(whole[0] == 0);
            assert(whole.skip(1) =~= e_key + (e_peer + e_send));
            lemma_dec_enc_string(key, e_peer + e_send);
            assert(e_peer + e_send =~= e_peer + (e_send + Seq::<u8>::empty()));
            lemma_dec_enc_bytes(peer, e_send + Seq::<u8>::empty());
            assert(e_send + Seq::<u8>::empty() =~= e_send + Seq::<u8>::empty());
            lemma_dec_enc_bytes(sender, Seq::<u8>::empty());
        },
        RequestV::RegisterShare { key, share, threshold, peer, sender } => {
            let e_key = spec_enc_string(key);
            let e_share = spec_enc_share(share);
            let e_thr = spec_enc_u64(threshold);
            let e_peer = spec_enc_bytes(peer);
            let e_send = spec_enc_bytes(sender);
            assert(whole[0] == 1);
            assert(whole.skip(1) =~= e_key + (e_share + (e_thr + (e_peer + e_send))));
            lemma_dec_enc_string(key, e_share + (e_thr + (e_peer + e_send)));
            lemma_dec_enc_share(share, e_thr + (e_peer + e_send));
            lemma_dec_enc_u64(threshold, e_peer + e_send);
            assert(e_peer + e_send =~= e_peer + (e_send + Seq::<u8>::empty()));
            lemma_dec_enc_bytes(peer, e_send + Seq::<u8>::empty());
            lemma_dec_enc_bytes(sender, Seq::<u8>::empty());
        },
        RequestV::RefreshShare { key, refresh_key, peer, sender } => {
            let e_key = spec_enc_string(key);
            let e_rk = spec_enc_poly_list(refresh_key);
            let e_peer = spec_enc_bytes(peer);
            let e_send = spec_enc_bytes(sender);
            assert(whole[0] == 2);
            assert(whole.skip(1) =~= e_key + (e_rk + (e_peer + e_send)));
            lemma_dec_enc_string(key, e_rk + (e_peer + e_send));
            lemma_dec_enc_poly_list(refresh_key, e_peer + e_send);
            assert(e_peer + e_send =~= e_peer + (e_send + Seq::<u8>::empty()));
            lemma_dec_enc_bytes(peer, e_send + Seq::<u8>::empty());
            lemma_dec_enc_bytes(sender, Seq::<u8>::empty());
        },
    }
}

/// A response whose share data fits under the wire format's length prefix.
pub open spec fn response_fits(r: ResponseV) -> bool {
    match r {
        ResponseV::GetShare { share, success } => share.1.len() <= u64::MAX,
        ResponseV::RegisterShare { success } => true,
        ResponseV::RefreshShares { success } => true,
    }
}

/// The round-trip law for responses: decoding an encoded response gives the
/// response back.
pub proof fn lemma_response_round_trip(r: ResponseV)
    requires
        response_fits(r),
    ensures
        spec_dec_response(spec_enc_response(r)) == Some(r),
{
    let whole = spec_enc_response(r);
    match r {
        ResponseV::GetShare { share, success } => {
            let e_share = spec_enc_share(share);
            let e_b = spec_enc_bool(success);
            assert(whole[0] == 0);
            assert(whole.skip(1) =~= e_share + e_b);
            assert(e_share + e_b =~= e_share + (e_b + Seq::<u8>::empty()));
            lemma_dec_enc_share(share, e_b + Seq::<u8>::empty());
            lemma_dec_enc_bool(success, Seq::<u8>::empty());
        },
        ResponseV::RegisterShare { success } => {
            assert(whole[0] == 1);
            assert(whole.skip(1) =~= spec_enc_bool(success) + Seq::<u8>::empty());
            lemma_dec_enc_bool(success, Seq::<u8>::empty());
        },
        ResponseV::RefreshShares { success } => {
            assert(whole[0] == 2);
            assert(whole.skip(1) =~= spec_enc_bool(success) + Seq::<u8>::empty());
            lemma_dec_enc_bool(success, Seq::<u8>::empty());
        },
    }
}

} // verus!

verus! {

/// Append raw bytes to an output buffer.
fn append_bytes(out: &mut Vec<u8>, data: &[u8])
    ensures
        final(out)@ == old(out)@ + data@,
{
    let mut i: usize = 0;
    while i < data.len()
        invariant
            i <= data@.len(),
            out@ == old(out)@ + data@.take(i as int),
        decreases data@.len() - i,
    {
        let b = *slice_index_get(data, i);
        out.push(b);
        proof {
            assert(old(out)@ + data@.take(i as int) + seq![data@[i as int]] =~= old(out)@
                + data@.take(i + 1));
        }
        i = i + 1;
    }
    proof {
        assert(data@.take(data@.len() as int) =~= data@);
    }
}

/// Append one length-prefixed byte string to an output buffer.
fn append_chunk(out: &mut Vec<u8>, data: &[u8])
    ensures
        final(out)@ == old(out)@ + spec_enc_bytes(data@),
{
    let lenb = u64_to_le_bytes(data.len() as u64);
    append_bytes(out, lenb.as_slice());
    append_bytes(out, data);
    proof {
        assert(old(out)@ + spec_u64_to_le_bytes(data@.len() as u64) + data@ =~= old(out)@
            + spec_enc_bytes(data@));
    }
}

/// Read one byte at the cursor.
fn read_u8(bytes: &[u8], pos: usize) -> (r: Option<(u8, usize)>)
    requires
        pos <= bytes@.len(),
    ensures
        match r {
            Some((v, np)) => pos < bytes@.len() && np == pos + 1 && v == bytes@[pos as int],
            None => pos == bytes@.len(),
        },
{
    if pos < bytes.len() {
        Some((*slice_index_get(bytes, pos), pos + 1))
    } else {
        None
    }
}

/// Read one 8-byte little-endian number at the cursor.
fn read_u64(bytes: &[u8], pos: usize) -> (r: Option<(u64, usize)>)
    requires
        pos <= bytes@.len(),
    ensures
        match r {
            Some((v, np)) => np <= bytes@.len() && spec_dec_u64(bytes@.skip(pos as int)) == Some(
                (v, bytes@.skip(np as int)),
            ),
            None => spec_dec_u64(bytes@.skip(pos as int)) is None,
        },
{
    if bytes.len() - pos < 8 {
        return None;
    }
    let lenb = slice_subrange(bytes, pos, pos + 8);
    proof {
        assert(lenb@ =~= bytes@.skip(pos as int).take(8));
        assert(bytes@.skip(pos as int).skip(8) =~= bytes@.skip(pos + 8));
    }
    let v = u64_from_le_bytes(lenb);
    Some((v, pos + 8))
}

/// Read one length-prefixed byte string at the cursor.
fn read_chunk(bytes: &[u8], pos: usize) -> (r: Option<(Vec<u8>, usize)>)
    requires
        pos <= bytes@.len(),
    ensures
        match r {
            Some((v, np)) => np <= bytes@.len() && spec_dec_bytes(bytes@.skip(pos as int)) == Some(
                (v@, bytes@.skip(np as int)),
            ),
            None => spec_dec_bytes(bytes@.skip(pos as int)) is None,
        },
{
    let remaining = bytes.len() - pos;
    if remaining < 8 {
        return None;
    }
    let lenb = slice_subrange(bytes, pos, pos + 8);
    proof {
        assert(lenb@ =~= bytes@.skip(pos as int).take(8));
    }
    let n64 = u64_from_le_bytes(lenb);
    let after_len = remaining - 8;
    if n64 > after_len as u64 {
        proof {
            assert(bytes@.skip(pos as int).skip(8).len() < n64);
        }
        return None;
    }
    let n = n64 as usize;
    let v = slice_to_vec(slice_subrange(bytes, pos + 8, pos + 8 + n));
    let np = pos + 8 + n;
    proof {
        let tail = bytes@.skip(pos as int).skip(8);
        assert(tail =~= bytes@.skip(pos + 8));
        assert(v@ =~= tail.take(n as int));
        assert(tail.skip(n as int) =~= bytes@.skip(np as int));
    }
    Some((v, np))
}

/// Encode a response for the wire.
pub fn encode_response(r: &Response) -> (out: Vec<u8>)
    ensures
        out@ == spec_enc_response(r@),
{
    let mut out: Vec<u8> = Vec::new();
    match r {
        Response::GetShare(m) => {
            out.push(0u8);
            out.push(m.share.0);
            append_chunk(&mut out, m.share.1.as_slice());
            out.push(if m.success {
                1u8
            } else {
                0u8
            });
            proof {
                assert(out@ =~= spec_enc_response(r@));
            }
        },
        Response::RegisterShare(m) => {
            out.push(1u8);
            out.push(if m.success {
                1u8
            } else {
                0u8
            });
            proof {
                assert(out@ =~= spec_enc_response(r@));
            }
        },
        Response::RefreshShares(m) => {
            out.push(2u8);
            out.push(if m.success {
                1u8
            } else {
                0u8
            });
            proof {
                assert(out@ =~= spec_enc_response(r@));
            }
        },
    }
    out
}

/// Decode a response from the wire; exactly the encodings are accepted.
pub fn decode_response(bytes: &[u8]) -> (r: Option<Response>)
    ensures
        match r {
            Some(m) => spec_dec_response(bytes@) == Some(m@),
            None => spec_dec_response(bytes@) is None,
        },
{
    if bytes.len() < 1 {
        return None;
    }
    let tag = *slice_index_get(bytes, 0);
    proof {
        assert(bytes@.skip(1).len() == bytes@.len() - 1);
    }
    if tag == 0 {
        let (x, p1) = match read_u8(bytes, 1) {
            Some(v) => v,
            None => {
                proof {
                    assert(bytes@.skip(1) =~= Seq::<u8>::empty());
                }
                return None;
            },
        };
        proof {
            assert(bytes@.skip(1)[0] == x);
            assert(bytes@.skip(1).skip(1) =~= bytes@.skip(2));
        }
        let (y, p2) = match read_chunk(bytes, p1) {
            Some(v) => v,
            None => {
                return None;
            },
        };
        let (succ, p3) = match read_u8(bytes, p2) {
            Some(v) => v,
            None => {
                proof {
                    assert(bytes@.skip(p2 as int) =~= Seq::<u8>::empty());
                }
                return None;
            },
        };
        if succ > 1 {
            proof {
                assert(bytes@.skip(p2 as int)[0] == succ);
            }
            return None;
        }
        if p3 != bytes.len() {
            proof {
                assert(bytes@.skip(p2 as int)[0] == succ);
                assert(bytes@.skip(p2 as int).skip(1) =~= bytes@.skip(p3 as int));
            }
            return None;
        }
        let m = Response::GetShare(GetShareResponse { share: (x, y), success: succ == 1 });
        proof {
            assert(bytes@.skip(p2 as int)[0] == succ);
            assert(bytes@.skip(p2 as int).skip(1) =~= bytes@.skip(p3 as int));
            assert(bytes@.skip(p3 as int).len() == 0);
        }
        Some(m)
    } else if tag == 1 || tag == 2 {
        let (succ, p1) = match read_u8(bytes, 1) {
            Some(v) => v,
            None => {
                proof {
                    assert(bytes@.skip(1) =~= Seq::<u8>::empty());
                }
                return None;
            },
        };
        if succ > 1 {
            proof {
                assert(bytes@.skip(1)[0] == succ);
            }
            return None;
        }
        if p1 != bytes.len() {
            proof {
                assert(bytes@.skip(1)[0] == succ);
                assert(bytes@.skip(1).skip(1) =~= bytes@.skip(p1 as int));
            }
            return None;
        }
        proof {
            assert(bytes@.skip(1)[0] == succ);
            assert(bytes@.skip(1).skip(1) =~= bytes@.skip(p1 as int));
            assert(bytes@.skip(p1 as int).len() == 0);
        }
        if tag == 1 {
            Some(Response::RegisterShare(RegisterShareResponse { success: succ == 1 }))
        } else {
            Some(Response::RefreshShares(RefreshShareResponse { success: succ == 1 }))
        }
    } else {
        None
    }
}

} // verus!

verus! {

/// Relies on String::from_utf8: it accepts exactly the valid UTF-8 byte
/// sequences and returns the string carrying those very bytes.
#[verifier::external_body]
fn bytes_to_string(v: Vec<u8>) -> (r: Option<String>)
    ensures
        match r {
            Some(s) => valid_utf8(v@) && encode_utf8(s@) == v@,
            None => !valid_utf8(v@),
        },
{
    String::from_utf8(v).ok()
}

/// Read one string at the cursor.
fn read_string(bytes: &[u8], pos: usize) -> (r: Option<(String, usize)>)
    requires
        pos <= bytes@.len(),
    ensures
        match r {
            Some((s, np)) => np <= bytes@.len() && spec_dec_string(bytes@.skip(pos as int))
                == Some((s@, bytes@.skip(np as int))),
            None => spec_dec_string(bytes@.skip(pos as int)) is None,
        },
{
    let (v, np) = match read_chunk(bytes, pos) {
        Some(v) => v,
        None => {
            return None;
        },
    };
    match bytes_to_string(v) {
        Some(s) => {
            proof {
                encode_utf8_decode_utf8(s@);
            }
            Some((s, np))
        },
        None => None,
    }
}

/// Read one polynomial list at the cursor.
fn read_poly_list(bytes: &[u8], pos: usize) -> (r: Option<(Vec<Polynomial>, usize)>)
    requires
        pos <= bytes@.len(),
    ensures
        match r {
            Some((ps, np)) => np <= bytes@.len() && spec_dec_poly_list(bytes@.skip(pos as int))
                == Some((ps@.map_values(|p: Polynomial| p@), bytes@.skip(np as int))),
            None => spec_dec_poly_list(bytes@.skip(pos as int)) is None,
        },
{
    let remaining = bytes.len() - pos;
    if remaining < 8 {
        return None;
    }
    let lenb = slice_subrange(bytes, pos, pos + 8);
    proof {
        assert(lenb@ =~= bytes@.skip(pos as int).take(8));
    }
    let total = u64_from_le_bytes(lenb);
    let ghost items_total = spec_dec_poly_items(bytes@.skip(pos + 8), total as nat);
    proof {
        assert(bytes@.skip(pos as int).skip(8) =~= bytes@.skip(pos + 8));
        assert(spec_dec_poly_list(bytes@.skip(pos as int)) == items_total);
    }
    let mut done: u64 = 0;
    let mut cur: usize = pos + 8;
    let mut acc: Vec<Polynomial> = Vec::new();
    proof {
        assert(acc@.map_values(|p: Polynomial| p@) =~= Seq::<Seq<u8>>::empty());
        assert(match spec_dec_poly_items(bytes@.skip(cur as int), (total - done) as nat) {
            Some((ps, rest)) => items_total == Some(
                (acc@.map_values(|p: Polynomial| p@) + ps, rest),
            ),
            None => items_total is None,
        }) by {
            if spec_dec_poly_items(bytes@.skip(cur as int), (total - done) as nat) is Some {
                let (ps, rest) = spec_dec_poly_items(
                    bytes@.skip(cur as int),
                    (total - done) as nat,
                )->0;
                assert(acc@.map_values(|p: Polynomial| p@) + ps =~= ps);
            }
        }
    }
    while done < total
        invariant
            pos + 8 <= cur <= bytes@.len(),
            done <= total,
            acc@.len() == done,
            items_total == spec_dec_poly_items(bytes@.skip(pos + 8), total as nat),
            spec_dec_poly_list(bytes@.skip(pos as int)) == items_total,
            match spec_dec_poly_items(bytes@.skip(cur as int), (total - done) as nat) {
                Some((ps, rest)) => items_total == Some(
                    (acc@.map_values(|p: Polynomial| p@) + ps, rest),
                ),
                None => items_total is None,
            },
        decreases total - done,
    {
        let ghost rem = (total - done) as nat;
        let ghost cur_tail = bytes@.skip(cur as int);
        match read_chunk(bytes, cur) {
            None => {
                proof {
                    assert(spec_dec_poly_items(cur_tail, rem) is None);
                }
                return None;
            },
            Some((v, np)) => {
                let p = Polynomial::from_bytes(v.as_slice());
                proof {
                    let old_views = acc@.map_values(|pp: Polynomial| pp@);
                    let new_views = acc@.push(p).map_values(|pp: Polynomial| pp@);
                    assert(new_views =~= old_views.push(v@));
                    let next = spec_dec_poly_items(bytes@.skip(np as int), (rem - 1) as nat);
                    if next is Some {
                        let (ps2, rest2) = next->0;
                        assert(spec_dec_poly_items(cur_tail, rem) == Some(
                            (seq![v@] + ps2, rest2),
                        ));
                        assert(old_views + (seq![v@] + ps2) =~= new_views + ps2);
                    } else {
                        assert(spec_dec_poly_items(cur_tail, rem) is None);
                    }
                }
                acc.push(p);
                cur = np;
                done = done + 1;
            },
        }
    }
    proof {
        let views = acc@.map_values(|p: Polynomial| p@);
        assert(spec_dec_poly_items(bytes@.skip(cur as int), 0) == Some(
            (Seq::<Seq<u8>>::empty(), bytes@.skip(cur as int)),
        ));
        assert(views + Seq::<Seq<u8>>::empty() =~= views);
    }
    Some((acc, cur))
}

/// Encode a request for the wire.
pub fn encode_request(r: &Request) -> (out: Vec<u8>)
    ensures
        out@ == spec_enc_request(r@),
{
    let mut out: Vec<u8> = Vec::new();
    match r {
        Request::GetShare(m) => {
            out.push(0u8);
            append_chunk(&mut out, m.key.as_str().as_bytes());
            append_chunk(&mut out, m.peer.as_slice());
            append_chunk(&mut out, m.sender.as_slice());
            proof {
                assert(out@ =~= spec_enc_request(r@));
            }
        },
        Request::RegisterShare(m) => {
            out.push(1u8);
            append_chunk(&mut out, m.key.as_str().as_bytes());
            out.push(m.share.0);
            append_chunk(&mut out, m.share.1.as_slice());
            let thr = u64_to_le_bytes(m.threshold);
            append_bytes(&mut out, thr.as_slice());
            append_chunk(&mut out, m.peer.as_slice());
            append_chunk(&mut out, m.sender.as_slice());
            proof {
                assert(out@ =~= spec_enc_request(r@));
            }
        },
        Request::RefreshShare(m) => {
            out.push(2u8);
            append_chunk(&mut out, m.key.as_str().as_bytes());
            let ghost views = m.refresh_key@.map_values(|p: Polynomial| p@);
            let ghost before_list = out@;
            let lenb = u64_to_le_bytes(m.refresh_key.len() as u64);
            append_bytes(&mut out, lenb.as_slice());
            let mut i: usize = 0;
            proof {
                assert(spec_enc_poly_items(views.take(0)) =~= Seq::<u8>::empty());
                assert(out@ =~= before_list + spec_u64_to_le_bytes(views.len() as u64)
                    + spec_enc_poly_items(views.take(0)));
            }
            while i < m.refresh_key.len()
                invariant
                    i <= m.refresh_key@.len(),
                    views == m.refresh_key@.map_values(|p: Polynomial| p@),
                    views.len() == m.refresh_key@.len(),
                    out@ == before_list + spec_u64_to_le_bytes(views.len() as u64)
                        + spec_enc_poly_items(views.take(i as int)),
                decreases m.refresh_key@.len() - i,
            {
                append_chunk(&mut out, m.refresh_key[i].coefficients.as_slice());
                proof {
                    assert(views[i as int] == m.refresh_key@[i as int]@);
                    lemma_enc_poly_items_push(views.take(i as int), views[i as int]);
                    assert(views.take(i + 1) =~= views.take(i as int).push(views[i as int]));
                }
                i = i + 1;
            }
            append_chunk(&mut out, m.peer.as_slice());
            append_chunk(&mut out, m.sender.as_slice());
            proof {
                assert(views.take(views.len() as int) =~= views);
                assert(out@ =~= spec_enc_request(r@));
            }
        },
    }
    out
}

/// Decode a request from the wire; exactly the encodings are accepted.
pub fn decode_request(bytes: &[u8]) -> (r: Option<Request>)
    ensures
        match r {
            Some(m) => spec_dec_request(bytes@) == Some(m@),
            None => spec_dec_request(bytes@) is None,
        },
{
    if bytes.len() < 1 {
        return None;
    }
    let tag = *slice_index_get(bytes, 0);
    proof {
        assert(bytes@.skip(1).len() == bytes@.len() - 1);
    }
    if tag == 0 {
        let (key, p1) = match read_string(bytes, 1) {
            Some(v) => v,
            None => {
                return None;
            },
        };
        let (peer, p2) = match read_chunk(bytes, p1) {
            Some(v) => v,
            None => {
                return None;
            },
        };
        let (sender, p3) = match read_chunk(bytes, p2) {
            Some(v) => v,
            None => {
                return None;
            },
        };
        if p3 != bytes.len() {
            proof {
                assert(bytes@.skip(p3 as int).len() != 0);
            }
            return None;
        }
        proof {
            assert(bytes@.skip(p3 as int).len() == 0);
        }
        Some(Request::GetShare(GetShareRequest { key, peer, sender }))
    } else if tag == 1 {
        let (key, p1) = match read_string(bytes, 1) {
            Some(v) => v,
            None => {
                return None;
            },
        };
        let (x, p2) = match read_u8(bytes, p1) {
            Some(v) => v,
            None => {
                proof {
                    assert(bytes@.skip(p1 as int) =~= Seq::<u8>::empty());
                }
                return None;
            },
        };
        proof {
            assert(bytes@.skip(p1 as int)[0] == x);
            assert(bytes@.skip(p1 as int).skip(1) =~= bytes@.skip(p2 as int));
        }
        let (y, p3) = match read_chunk(bytes, p2) {
            Some(v) => v,
            None => {
                return None;
            },
        };
        let (threshold, p4) = match read_u64(bytes, p3) {
            Some(v) => v,
            None => {
                return None;
            },
        };
        let (peer, p5) = match read_chunk(bytes, p4) {
            Some(v) => v,
            None => {
                return None;
            },
        };
        let (sender, p6) = match read_chunk(bytes, p5) {
            Some(v) => v,
            None => {
                return None;
            },
        };
        if p6 != bytes.len() {
            proof {
                assert(bytes@.skip(p6 as int).len() != 0);
            }
            return None;
        }
        proof {
            assert(bytes@.skip(p6 as int).len() == 0);
        }
        Some(
            Request::RegisterShare(
                RegisterShareRequest { key, share: (x, y), threshold, peer, sender },
            ),
        )
    } else if tag == 2 {
        let (key, p1) = match read_string(bytes, 1) {
            Some(v) => v,
            None => {
                return None;
            },
        };
        let (refresh_key, p2) = match read_poly_list(bytes, p1) {
            Some(v) => v,
            None => {
                return None;
            },
        };
        let (peer, p3) = match read_chunk(bytes, p2) {
            Some(v) => v,
            None => {
                return None;
            },
        };
        let (sender, p4) = match read_chunk(bytes, p3) {
            Some(v) => v,
            None => {
                return None;
            },
        };
        if p4 != bytes.len() {
            proof {
                assert(bytes@.skip(p4 as int).len() != 0);
            }
            return None;
        }
        proof {
            assert(bytes@.skip(p4 as int).len() == 0);
        }
        Some(Request::RefreshShare(RefreshShareRequest { key, refresh_key, peer, sender }))
    } else {
        None
    }
}

} // verus!
