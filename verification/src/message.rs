//! The wire protocol: requests and responses, their encoding to bytes and
//! their decoding back.
//!
//! Every frame starts with one tag byte.  Text is carried as a 4-byte
//! big-endian length followed by that many bytes of UTF-8; document
//! identifiers are 8 big-endian bytes; an identifier list is a 4-byte count
//! followed by that many 8-byte identifiers.
//!
//! Decoding is the exact inverse of encoding: the contracts below state that
//! a buffer beginning with a valid encoding decodes to exactly that value,
//! that whatever decodes successfully was a valid encoding, and that a strict
//! prefix of a valid encoding is rejected.

use vstd::prelude::*;

use crate::wire::{
    lemma_u32_be_bytes_round_trip,
    lemma_u64_be_bytes_round_trip,
    push_bytes,
    push_u32_be,
    push_u64_be,
    read_u32_be,
    read_u64_be,
    spec_u32_from_be_bytes,
    spec_u32_to_be_bytes,
    spec_u64_from_be_bytes,
    spec_u64_to_be_bytes,
};
use vstd::slice::{slice_subrange, slice_to_vec};
use vstd::utf8::{
    decode_utf8,
    decode_utf8_encode_utf8,
    encode_utf8,
    encode_utf8_decode_utf8,
    encode_utf8_valid_utf8,
    valid_utf8,
};

verus! {

/// A request from a client to the server.
#[derive(Debug)]
pub enum Request {
    /// Add the document `doc` to the archive.
    Publish { doc: String },
    /// Search for the word `word` in the archive.
    Search { word: String },
    /// Retrieve the document with identifier `id` from the archive.
    Retrieve { id: u64 },
}

/// The mathematical value of a [`Request`]: its text as character sequences.
pub enum RequestView {
    Publish { doc: Seq<char> },
    Search { word: Seq<char> },
    Retrieve { id: u64 },
}

impl View for Request {
    type V = RequestView;

    open spec fn view(&self) -> RequestView {
        match self {
            Request::Publish { doc } => RequestView::Publish { doc: doc@ },
            Request::Search { word } => RequestView::Search { word: word@ },
            Request::Retrieve { id } => RequestView::Retrieve { id: *id },
        }
    }
}

impl PartialEq for Request {
    fn eq(&self, other: &Request) -> (r: bool) {
        match (self, other) {
            (Request::Publish { doc: a }, Request::Publish { doc: b }) => *a == *b,
            (Request::Search { word: a }, Request::Search { word: b }) => *a == *b,
            (Request::Retrieve { id: a }, Request::Retrieve { id: b }) => *a == *b,
            _ => false,
        }
    }
}

impl vstd::std_specs::cmp::PartialEqSpecImpl for Request {
    open spec fn obeys_eq_spec() -> bool {
        true
    }

    open spec fn eq_spec(&self, other: &Request) -> bool {
        self@ == other@
    }
}

/// A tagged frame carrying text: the tag byte, then the UTF-8 byte length as
/// four big-endian bytes, then the UTF-8 bytes themselves.
pub open spec fn spec_text_frame(tag: u8, text: Seq<char>) -> Seq<u8> {
    seq![tag] + spec_u32_to_be_bytes(encode_utf8(text).len() as u32) + encode_utf8(text)
}

/// A text frame is encodable only while its UTF-8 byte length fits the
/// 4-byte length field.
pub open spec fn text_fits(text: Seq<char>) -> bool {
    encode_utf8(text).len() <= u32::MAX
}

/// The encoding of a request: tag byte 0 (publish) or 1 (search) followed by
/// the text frame, or tag byte 2 (retrieve) followed by the 8-byte identifier.
pub open spec fn spec_encode_request(r: RequestView) -> Seq<u8> {
    match r {
        RequestView::Publish { doc } => spec_text_frame(0, doc),
        RequestView::Search { word } => spec_text_frame(1, word),
        RequestView::Retrieve { id } => seq![2u8] + spec_u64_to_be_bytes(id),
    }
}

/// Whether a request fits the wire format's 4-byte length fields.
pub open spec fn request_encodable(r: RequestView) -> bool {
    match r {
        RequestView::Publish { doc } => text_fits(doc),
        RequestView::Search { word } => text_fits(word),
        RequestView::Retrieve { id: _ } => true,
    }
}

/// Shape facts about a text frame, shared by the encoding and decoding proofs.
proof fn lemma_text_frame_shape(tag: u8, text: Seq<char>)
    ensures
        spec_text_frame(tag, text).len() == 5 + encode_utf8(text).len(),
        spec_text_frame(tag, text)[0] == tag,
        spec_text_frame(tag, text).subrange(1, 5) == spec_u32_to_be_bytes(
            encode_utf8(text).len() as u32,
        ),
        spec_text_frame(tag, text).subrange(5, 5 + encode_utf8(text).len() as int) == encode_utf8(text),
{
    let frame = spec_text_frame(tag, text);
    assert(frame.subrange(1, 5) =~= spec_u32_to_be_bytes(encode_utf8(text).len() as u32));
    assert(frame.subrange(5, 5 + encode_utf8(text).len() as int) =~= encode_utf8(text));
}

/// Relies on `String::from_utf8`: it succeeds exactly on valid UTF-8 input
/// and returns the string those bytes encode.
#[verifier::external_body]
fn string_from_utf8(bytes: Vec<u8>) -> (r: Option<String>)
    ensures
        match r {
            Some(s) => valid_utf8(bytes@) && s@ == decode_utf8(bytes@),
            None => !valid_utf8(bytes@),
        },
{
    String::from_utf8(bytes).ok()
}

/// Check at run time whether a string's UTF-8 byte length fits the 4-byte
/// length field of the wire format.
fn text_len_fits(text: &str) -> (r: bool)
    ensures
        r == text_fits(text@),
{
    text.as_bytes().len() <= u32::MAX as usize
}

/// Append a text frame for `text` to `out`: the tag byte, the 4-byte
/// big-endian UTF-8 length, then the UTF-8 bytes.
fn push_text_frame(out: &mut Vec<u8>, tag: u8, text: &str)
    requires
        text_fits(text@),
    ensures
        final(out)@ == old(out)@ + spec_text_frame(tag, text@),
{
    out.push(tag);
    let tb = text.as_bytes();
    push_u32_be(out, tb.len() as u32);
    push_bytes(out, tb);
    assert(out@ =~= old(out)@ + spec_text_frame(tag, text@));
}

/// Read the text frame that begins at the start of `bytes` (whose tag byte
/// has already been inspected): the 4-byte length at offset 1, then that many
/// UTF-8 bytes.  `None` when the buffer is too short or the bytes are not
/// valid UTF-8 — and then no text frame with this buffer's tag byte is a
/// prefix of the buffer.
fn read_text_frame(bytes: &[u8]) -> (res: Option<String>)
    requires
        bytes@.len() >= 1,
    ensures
        res matches Some(s) ==> {
            &&& text_fits(s@)
            &&& 5 + encode_utf8(s@).len() <= bytes@.len()
            &&& bytes@.subrange(1, 5) == spec_u32_to_be_bytes(encode_utf8(s@).len() as u32)
            &&& bytes@.subrange(5, 5 + encode_utf8(s@).len() as int) == encode_utf8(s@)
        },
        res is None ==> forall|t: Seq<char>|
            text_fits(t) ==> !(#[trigger] spec_text_frame(bytes@[0], t)).is_prefix_of(bytes@),
{
    proof {
        lemma_u32_be_bytes_round_trip();
    }
    if bytes.len() < 5 {
        proof {
            assert forall|t: Seq<char>|
                text_fits(t) implies !(#[trigger] spec_text_frame(
                bytes@[0],
                t,
            )).is_prefix_of(bytes@) by {
                lemma_text_frame_shape(bytes@[0], t);
            }
        }
        return None;
    }
    let n32 = read_u32_be(bytes, 1);
    let n = n32 as usize;
    if bytes.len() - 5 < n {
        proof {
            assert forall|t: Seq<char>|
                text_fits(t) implies !(#[trigger] spec_text_frame(
                bytes@[0],
                t,
            )).is_prefix_of(bytes@) by {
                lemma_text_frame_shape(bytes@[0], t);
                let frame = spec_text_frame(bytes@[0], t);
                if frame.is_prefix_of(bytes@) {
                    assert(frame.subrange(1, 5) =~= bytes@.subrange(1, 5));
                    assert(encode_utf8(t).len() as u32 == n32);
                }
            }
        }
        return None;
    }
    let tb = slice_subrange(bytes, 5, 5 + n);
    let v = slice_to_vec(tb);
    match string_from_utf8(v) {
        Some(s) => {
            proof {
                decode_utf8_encode_utf8(tb@);
            }
            Some(s)
        },
        None => {
            proof {
                assert forall|t: Seq<char>|
                    text_fits(t) implies !(#[trigger] spec_text_frame(
                    bytes@[0],
                    t,
                )).is_prefix_of(bytes@) by {
                    lemma_text_frame_shape(bytes@[0], t);
                    let frame = spec_text_frame(bytes@[0], t);
                    if frame.is_prefix_of(bytes@) {
                        assert(frame.subrange(1, 5) =~= bytes@.subrange(1, 5));
                        assert(encode_utf8(t).len() as u32 == n32);
                        assert(encode_utf8(t).len() == n);
                        assert(frame.subrange(5, 5 + n) =~= bytes@.subrange(5, 5 + n));
                        encode_utf8_valid_utf8(t);
                    }
                }
            }
            None
        },
    }
}

impl Request {
    /// Encode this request into the wire format.
    pub fn to_bytes(&self) -> (out: Vec<u8>)
        requires
            request_encodable(self@),
        ensures
            out@ == spec_encode_request(self@),
    {
        let mut out: Vec<u8> = Vec::new();
        match self {
            Request::Publish { doc } => {
                push_text_frame(&mut out, 0, doc.as_str());
            },
            Request::Search { word } => {
                push_text_frame(&mut out, 1, word.as_str());
            },
            Request::Retrieve { id } => {
                out.push(2u8);
                push_u64_be(&mut out, *id);
                assert(out@ =~= seq![2u8] + spec_u64_to_be_bytes(*id));
            },
        }
        out
    }

    /// Encode this request if it fits the wire format's length fields, which
    /// only an absurdly large text can fail to do.
    pub fn try_to_bytes(&self) -> (res: Option<Vec<u8>>)
        ensures
            match res {
                Some(out) => request_encodable(self@) && out@ == spec_encode_request(self@),
                None => !request_encodable(self@),
            },
    {
        let fits = match self {
            Request::Publish { doc } => text_len_fits(doc.as_str()),
            Request::Search { word } => text_len_fits(word.as_str()),
            Request::Retrieve { id: _ } => true,
        };
        if fits {
            Some(self.to_bytes())
        } else {
            None
        }
    }

    /// Decode the request that begins at the start of `bytes`, ignoring any
    /// bytes past its encoded length.
    ///
    /// A buffer that begins with the encoding of a request decodes to exactly
    /// that request; whatever decodes successfully was such a buffer; and a
    /// strict prefix of an encoding — a truncated frame — is rejected.
    pub fn from_bytes(bytes: &[u8]) -> (res: Option<Request>)
        ensures
            res matches Some(req) ==> request_encodable(req@) && spec_encode_request(
                req@,
            ).is_prefix_of(bytes@),
            forall|rv: RequestView|
                request_encodable(rv) && (#[trigger] spec_encode_request(rv)).is_prefix_of(bytes@)
                    ==> (res matches Some(req) && req@ == rv),
            forall|rv: RequestView|
                request_encodable(rv) && bytes@.len() < spec_encode_request(rv).len() && bytes@
                    == (#[trigger] spec_encode_request(rv)).take(bytes@.len() as int) ==> res
                    is None,
    {
        proof {
            lemma_u32_be_bytes_round_trip();
            lemma_u64_be_bytes_round_trip();
        }
        if bytes.len() == 0 {
            proof {
                assert forall|rv: RequestView|
                    request_encodable(rv) implies !(#[trigger] spec_encode_request(
                    rv,
                )).is_prefix_of(bytes@) by {
                    lemma_request_shape(rv);
                }
            }
            return None;
        }
        let tag = bytes[0];
        if tag == 0 || tag == 1 {
            match read_text_frame(bytes) {
                Some(s) => {
                    proof {
                        lemma_text_frame_decoded(bytes@, s@);
                    }
                    let req = if tag == 0 {
                        Request::Publish { doc: s }
                    } else {
                        Request::Search { word: s }
                    };
                    proof {
                        lemma_request_shape(req@);
                        assert forall|rv: RequestView|
                            request_encodable(rv) && (#[trigger] spec_encode_request(
                            rv,
                        )).is_prefix_of(bytes@) implies rv == req@ by {
                            lemma_request_shape(rv);
                            lemma_request_prefix_forces(bytes@, rv, req@);
                        }
                        assert forall|rv: RequestView|
                            request_encodable(rv) && bytes@.len() < spec_encode_request(rv).len()
                                && bytes@ == (#[trigger] spec_encode_request(rv)).take(
                                bytes@.len() as int,
                            ) implies spec_encode_request(rv).len() <= bytes@.len() by {
                            lemma_request_shape(rv);
                            lemma_request_no_truncation(bytes@, rv, req@);
                        }
                    }
                    Some(req)
                },
                None => {
                    proof {
                        assert forall|rv: RequestView|
                            request_encodable(rv) implies !(#[trigger] spec_encode_request(
                            rv,
                        )).is_prefix_of(bytes@) by {
                            lemma_request_shape(rv);
                        }
                    }
                    None
                },
            }
        } else if tag == 2 {
            if bytes.len() < 9 {
                proof {
                    assert forall|rv: RequestView|
                        request_encodable(rv) implies !(#[trigger] spec_encode_request(
                        rv,
                    )).is_prefix_of(bytes@) by {
                        lemma_request_shape(rv);
                    }
                }
                return None;
            }
            let id = read_u64_be(bytes, 1);
            let req = Request::Retrieve { id };
            proof {
                lemma_request_shape(req@);
                assert(spec_encode_request(req@).subrange(1, 9) =~= bytes@.subrange(1, 9));
                assert(spec_encode_request(req@) =~= bytes@.subrange(0, 9));
                assert forall|rv: RequestView|
                    request_encodable(rv) && (#[trigger] spec_encode_request(rv)).is_prefix_of(
                    bytes@) implies rv == req@ by {
                    lemma_request_shape(rv);
                    if rv is Retrieve {
                        let enc = spec_encode_request(rv);
                        assert(enc.subrange(1, 9) =~= bytes@.subrange(1, 9));
                    }
                }
                assert forall|rv: RequestView|
                    request_encodable(rv) && bytes@.len() < spec_encode_request(rv).len() && bytes@
                        == (#[trigger] spec_encode_request(rv)).take(
                    bytes@.len() as int) implies spec_encode_request(rv).len()
                    <= bytes@.len() by {
                    lemma_request_shape(rv);
                    lemma_request_no_truncation(bytes@, rv, req@);
                }
            }
            Some(req)
        } else {
            proof {
                assert forall|rv: RequestView|
                    request_encodable(rv) implies !(#[trigger] spec_encode_request(
                    rv,
                )).is_prefix_of(bytes@) by {
                    lemma_request_shape(rv);
                }
            }
            None
        }
    }
}

/// The length, tag byte and field positions of each request encoding.
proof fn lemma_request_shape(rv: RequestView)
    ensures
        spec_encode_request(rv).len() >= 1,
        rv matches RequestView::Publish { doc } ==> spec_encode_request(rv) == spec_text_frame(
            0,
            doc,
        ) && spec_encode_request(rv)[0] == 0 && spec_encode_request(rv).len() == 5 + encode_utf8(
            doc,
        ).len() && spec_encode_request(rv).subrange(1, 5) == spec_u32_to_be_bytes(
            encode_utf8(doc).len() as u32,
        ) && spec_encode_request(rv).subrange(5, 5 + encode_utf8(doc).len() as int) == encode_utf8(doc),
        rv matches RequestView::Search { word } ==> spec_encode_request(rv) == spec_text_frame(
            1,
            word,
        ) && spec_encode_request(rv)[0] == 1 && spec_encode_request(rv).len() == 5 + encode_utf8(
            word,
        ).len() && spec_encode_request(rv).subrange(1, 5) == spec_u32_to_be_bytes(
            encode_utf8(word).len() as u32,
        ) && spec_encode_request(rv).subrange(5, 5 + encode_utf8(word).len() as int) == encode_utf8(word),
        rv matches RequestView::Retrieve { id } ==> spec_encode_request(rv)[0] == 2
            && spec_encode_request(rv).len() == 9 && spec_encode_request(rv).subrange(1, 9)
            == spec_u64_to_be_bytes(id),
{
    match rv {
        RequestView::Publish { doc } => {
            lemma_text_frame_shape(0, doc);
        },
        RequestView::Search { word } => {
            lemma_text_frame_shape(1, word);
        },
        RequestView::Retrieve { id } => {
            let enc = spec_encode_request(rv);
            assert(enc.subrange(1, 9) =~= spec_u64_to_be_bytes(id));
        },
    }
}

/// What `read_text_frame`'s postcondition says about the text it returned,
/// restated over the whole buffer: the buffer begins with the text frame.
proof fn lemma_text_frame_decoded(bytes: Seq<u8>, text: Seq<char>)
    requires
        bytes.len() >= 1,
        text_fits(text),
        5 + encode_utf8(text).len() <= bytes.len(),
        bytes.subrange(1, 5) == spec_u32_to_be_bytes(encode_utf8(text).len() as u32),
        bytes.subrange(5, 5 + encode_utf8(text).len() as int) == encode_utf8(text),
    ensures
        spec_text_frame(bytes[0], text).is_prefix_of(bytes),
{
    lemma_text_frame_shape(bytes[0], text);
    let n: int = encode_utf8(text).len() as int;
    let frame = spec_text_frame(bytes[0], text);
    assert forall|i: int| 0 <= i < frame.len() implies frame[i] == bytes[i] by {
        if 1 <= i < 5 {
            assert(frame[i] == frame.subrange(1, 5)[i - 1]);
            assert(bytes[i] == bytes.subrange(1, 5)[i - 1]);
        } else if 5 <= i {
            assert(frame[i] == frame.subrange(5, 5 + n)[i - 5]);
            assert(bytes[i] == bytes.subrange(5, 5 + n)[i - 5]);
        }
    }
    assert(frame =~= bytes.subrange(0, frame.len() as int));
}

/// Two encodable requests whose encodings both begin the same buffer are the
/// same request: the tag fixes the variant, the length field fixes the text
/// length, and UTF-8 decoding fixes the text.
proof fn lemma_request_prefix_forces(bytes: Seq<u8>, rv: RequestView, found: RequestView)
    requires
        request_encodable(rv),
        request_encodable(found),
        spec_encode_request(rv).is_prefix_of(bytes),
        spec_encode_request(found).is_prefix_of(bytes),
    ensures
        rv == found,
{
    lemma_request_shape(rv);
    lemma_request_shape(found);
    lemma_u32_be_bytes_round_trip();
    lemma_u64_be_bytes_round_trip();
    let enc_a = spec_encode_request(rv);
    let enc_b = spec_encode_request(found);
    match rv {
        RequestView::Publish { doc } => {
            assert(bytes[0] == 0);
            match found {
                RequestView::Publish { doc: doc_b } => {
                    lemma_same_text_frame(bytes, doc, doc_b);
                },
                RequestView::Search { .. } => {
                    assert(false);
                },
                RequestView::Retrieve { .. } => {
                    assert(false);
                },
            }
        },
        RequestView::Search { word } => {
            assert(bytes[0] == 1);
            match found {
                RequestView::Search { word: word_b } => {
                    lemma_same_text_frame(bytes, word, word_b);
                },
                RequestView::Publish { .. } => {
                    assert(false);
                },
                RequestView::Retrieve { .. } => {
                    assert(false);
                },
            }
        },
        RequestView::Retrieve { id } => {
            assert(bytes[0] == 2);
            match found {
                RequestView::Retrieve { id: id_b } => {
                    assert(enc_a.subrange(1, 9) =~= bytes.subrange(1, 9));
                    assert(enc_b.subrange(1, 9) =~= bytes.subrange(1, 9));
                    assert(id == spec_u64_from_be_bytes(spec_u64_to_be_bytes(id)));
                    assert(id_b == spec_u64_from_be_bytes(spec_u64_to_be_bytes(id_b)));
                },
                RequestView::Publish { .. } => {
                    assert(false);
                },
                RequestView::Search { .. } => {
                    assert(false);
                },
            }
        },
    }
}

/// Two text frames that fit their length fields and begin the same buffer
/// carry the same text.
proof fn lemma_same_text_frame(bytes: Seq<u8>, a: Seq<char>, b: Seq<char>)
    requires
        text_fits(a),
        text_fits(b),
        bytes.len() >= 1,
        spec_text_frame(bytes[0], a).is_prefix_of(bytes),
        spec_text_frame(bytes[0], b).is_prefix_of(bytes),
    ensures
        a == b,
{
    let tag = bytes[0];
    lemma_text_frame_shape(tag, a);
    lemma_text_frame_shape(tag, b);
    lemma_u32_be_bytes_round_trip();
    let fa = spec_text_frame(tag, a);
    let fb = spec_text_frame(tag, b);
    assert(fa.subrange(1, 5) =~= bytes.subrange(1, 5));
    assert(fb.subrange(1, 5) =~= bytes.subrange(1, 5));
    let na: int = encode_utf8(a).len() as int;
    let nb: int = encode_utf8(b).len() as int;
    assert(na as u32 == spec_u32_from_be_bytes(bytes.subrange(1, 5)));
    assert(nb as u32 == spec_u32_from_be_bytes(bytes.subrange(1, 5)));
    assert(na == nb);
    assert(fa.subrange(5, 5 + na) =~= bytes.subrange(5, 5 + na));
    assert(fb.subrange(5, 5 + nb) =~= bytes.subrange(5, 5 + nb));
    assert(encode_utf8(a) == encode_utf8(b));
    encode_utf8_decode_utf8(a);
    encode_utf8_decode_utf8(b);
}

/// A buffer that already begins with the encoding of `found` holds at least
/// the whole encoding of any encodable request it agrees with: a successful
/// decode rules out a truncated frame.
proof fn lemma_request_no_truncation(bytes: Seq<u8>, rv: RequestView, found: RequestView)
    requires
        request_encodable(rv),
        request_encodable(found),
        spec_encode_request(found).is_prefix_of(bytes),
        bytes.len() <= spec_encode_request(rv).len(),
        bytes == spec_encode_request(rv).take(bytes.len() as int),
    ensures
        spec_encode_request(rv).len() <= bytes.len(),
{
    lemma_request_shape(rv);
    lemma_request_shape(found);
    lemma_u32_be_bytes_round_trip();
    let enc = spec_encode_request(rv);
    let enc_f = spec_encode_request(found);
    assert(bytes.len() >= enc_f.len() >= 1);
    assert(bytes[0] == enc.take(bytes.len() as int)[0]);
    assert(bytes[0] == enc[0]);
    assert(bytes[0] == enc_f[0]);
    match rv {
        RequestView::Publish { doc } => {
            match found {
                RequestView::Publish { doc: doc_f } => {
                    assert(bytes.len() >= 5 + encode_utf8(doc_f).len() >= 5);
                    assert(enc.subrange(1, 5) =~= bytes.subrange(1, 5));
                    assert(enc_f.subrange(1, 5) =~= bytes.subrange(1, 5));
                    assert(encode_utf8(doc).len() == encode_utf8(doc_f).len());
                    assert(enc.len() == enc_f.len());
                },
                _ => {
                    assert(false);
                },
            }
        },
        RequestView::Search { word } => {
            match found {
                RequestView::Search { word: word_f } => {
                    assert(bytes.len() >= 5 + encode_utf8(word_f).len() >= 5);
                    assert(enc.subrange(1, 5) =~= bytes.subrange(1, 5));
                    assert(enc_f.subrange(1, 5) =~= bytes.subrange(1, 5));
                    assert(encode_utf8(word).len() == encode_utf8(word_f).len());
                    assert(enc.len() == enc_f.len());
                },
                _ => {
                    assert(false);
                },
            }
        },
        RequestView::Retrieve { .. } => {
            match found {
                RequestView::Retrieve { .. } => {
                    assert(enc.len() == 9 && enc_f.len() == 9);
                },
                _ => {
                    assert(false);
                },
            }
        },
    }
}

/// A response from the server to a client.
#[derive(Debug)]
pub enum Response {
    /// The document was added to the archive under the returned identifier.
    PublishSuccess(u64),
    /// The identifiers of the documents containing the word, in the order
    /// the search produced them.
    SearchSuccess(Vec<u64>),
    /// The retrieved document.
    RetrieveSuccess(String),
    /// The request failed.
    Failure,
}

/// The mathematical value of a [`Response`].
pub enum ResponseView {
    PublishSuccess(u64),
    SearchSuccess(Seq<u64>),
    RetrieveSuccess(Seq<char>),
    Failure,
}

impl View for Response {
    type V = ResponseView;

    open spec fn view(&self) -> ResponseView {
        match self {
            Response::PublishSuccess(id) => ResponseView::PublishSuccess(*id),
            Response::SearchSuccess(ids) => ResponseView::SearchSuccess(ids@),
            Response::RetrieveSuccess(doc) => ResponseView::RetrieveSuccess(doc@),
            Response::Failure => ResponseView::Failure,
        }
    }
}

impl PartialEq for Response {
    fn eq(&self, other: &Response) -> (r: bool) {
        match (self, other) {
            (Response::PublishSuccess(a), Response::PublishSuccess(b)) => *a == *b,
            (Response::SearchSuccess(a), Response::SearchSuccess(b)) => {
                let r = *a == *b;
                proof {
                    if r {
                        assert(a@ =~= b@);
                    }
                }
                r
            },
            (Response::RetrieveSuccess(a), Response::RetrieveSuccess(b)) => *a == *b,
            (Response::Failure, Response::Failure) => true,
            _ => false,
        }
    }
}

impl vstd::std_specs::cmp::PartialEqSpecImpl for Response {
    open spec fn obeys_eq_spec() -> bool {
        true
    }

    open spec fn eq_spec(&self, other: &Response) -> bool {
        self@ == other@
    }
}

/// The concatenated 8-byte big-endian encodings of a sequence of identifiers.
pub open spec fn spec_ids_bytes(ids: Seq<u64>) -> Seq<u8>
    decreases ids.len(),
{
    if ids.len() == 0 {
        seq![]
    } else {
        spec_u64_to_be_bytes(ids[0]) + spec_ids_bytes(ids.drop_first())
    }
}

/// The encoding of a response: tag byte 0 (publish succeeded) with the 8-byte
/// identifier; tag 1 (search succeeded) with a 4-byte count and the 8-byte
/// identifiers in search order; tag 2 (retrieve succeeded) with the document
/// as a text frame; tag 3 (failure) alone.
pub open spec fn spec_encode_response(r: ResponseView) -> Seq<u8> {
    match r {
        ResponseView::PublishSuccess(id) => seq![0u8] + spec_u64_to_be_bytes(id),
        ResponseView::SearchSuccess(ids) => seq![1u8] + spec_u32_to_be_bytes(ids.len() as u32)
            + spec_ids_bytes(ids),
        ResponseView::RetrieveSuccess(doc) => spec_text_frame(2, doc),
        ResponseView::Failure => seq![3u8],
    }
}

/// Whether a response fits the wire format's 4-byte length and count fields.
pub open spec fn response_encodable(r: ResponseView) -> bool {
    match r {
        ResponseView::PublishSuccess(_) => true,
        ResponseView::SearchSuccess(ids) => ids.len() <= u32::MAX,
        ResponseView::RetrieveSuccess(doc) => text_fits(doc),
        ResponseView::Failure => true,
    }
}

/// An identifier list encodes to 8 bytes per identifier.
proof fn lemma_ids_bytes_len(ids: Seq<u64>)
    ensures
        spec_ids_bytes(ids).len() == 8 * ids.len(),
    decreases ids.len(),
{
    if ids.len() > 0 {
        lemma_ids_bytes_len(ids.drop_first());
    }
}

/// Appending one identifier appends its 8 bytes.
proof fn lemma_ids_bytes_push(ids: Seq<u64>, x: u64)
    ensures
        spec_ids_bytes(ids.push(x)) == spec_ids_bytes(ids) + spec_u64_to_be_bytes(x),
    decreases ids.len(),
{
    if ids.len() == 0 {
        assert(ids.push(x)[0] == x);
        assert(ids.push(x).drop_first() =~= Seq::<u64>::empty());
        assert(spec_ids_bytes(ids.push(x)) =~= spec_ids_bytes(ids) + spec_u64_to_be_bytes(x));
    } else {
        assert(ids.push(x)[0] == ids[0]);
        assert(ids.push(x).drop_first() =~= ids.drop_first().push(x));
        lemma_ids_bytes_push(ids.drop_first(), x);
        assert(spec_ids_bytes(ids.push(x)) == spec_u64_to_be_bytes(ids.push(x)[0])
            + spec_ids_bytes(ids.push(x).drop_first()));
        assert(spec_ids_bytes(ids.push(x)) == spec_u64_to_be_bytes(ids[0]) + (spec_ids_bytes(
            ids.drop_first(),
        ) + spec_u64_to_be_bytes(x)));
        assert(spec_ids_bytes(ids) == spec_u64_to_be_bytes(ids[0]) + spec_ids_bytes(
            ids.drop_first(),
        ));
        assert(spec_ids_bytes(ids.push(x)) =~= spec_ids_bytes(ids) + spec_u64_to_be_bytes(x));
    }
}

/// The `i`-th identifier's bytes sit at offset `8 * i` of the encoded list.
proof fn lemma_ids_bytes_block(ids: Seq<u64>, i: int)
    requires
        0 <= i < ids.len(),
    ensures
        spec_ids_bytes(ids).subrange(8 * i, 8 * i + 8) == spec_u64_to_be_bytes(ids[i]),
    decreases i,
{
    lemma_ids_bytes_len(ids);
    lemma_ids_bytes_len(ids.drop_first());
    if i == 0 {
        assert(spec_ids_bytes(ids).subrange(0, 8) =~= spec_u64_to_be_bytes(ids[0]));
    } else {
        lemma_ids_bytes_block(ids.drop_first(), i - 1);
        assert(spec_ids_bytes(ids).subrange(8 * i, 8 * i + 8) =~= spec_ids_bytes(
            ids.drop_first(),
        ).subrange(8 * (i - 1), 8 * (i - 1) + 8));
    }
}

/// A byte segment whose 8-byte blocks each read back one identifier is the
/// encoding of those identifiers.
proof fn lemma_ids_bytes_matches(ids: Seq<u64>, seg: Seq<u8>)
    requires
        seg.len() == 8 * ids.len(),
        forall|j: int|
            0 <= j < ids.len() ==> #[trigger] ids[j] == spec_u64_from_be_bytes(
                seg.subrange(8 * j, 8 * j + 8),
            ),
    ensures
        spec_ids_bytes(ids) == seg,
    decreases ids.len(),
{
    lemma_u64_be_bytes_round_trip();
    if ids.len() == 0 {
        assert(spec_ids_bytes(ids) =~= seg);
    } else {
        let rest = seg.subrange(8, seg.len() as int);
        assert forall|j: int|
            0 <= j < ids.drop_first().len() implies #[trigger] ids.drop_first()[j]
            == spec_u64_from_be_bytes(rest.subrange(8 * j, 8 * j + 8)) by {
            assert(ids.drop_first()[j] == ids[j + 1]);
            assert(rest.subrange(8 * j, 8 * j + 8) =~= seg.subrange(
                8 * (j + 1),
                8 * (j + 1) + 8,
            ));
        }
        lemma_ids_bytes_matches(ids.drop_first(), rest);
        assert(ids[0] == spec_u64_from_be_bytes(seg.subrange(8 * 0int, 8 * 0int + 8)));
        assert(seg.subrange(8 * 0int, 8 * 0int + 8) =~= seg.subrange(0, 8));
        assert(spec_u64_to_be_bytes(ids[0]) == seg.subrange(0, 8));
        assert(spec_ids_bytes(ids) =~= seg);
    }
}

/// Each identifier of an encoded list reads back from its 8-byte block.
proof fn lemma_ids_bytes_determined(ids: Seq<u64>, seg: Seq<u8>)
    requires
        spec_ids_bytes(ids) == seg,
    ensures
        forall|j: int|
            0 <= j < ids.len() ==> #[trigger] ids[j] == spec_u64_from_be_bytes(
                seg.subrange(8 * j, 8 * j + 8),
            ),
{
    lemma_u64_be_bytes_round_trip();
    assert forall|j: int|
        0 <= j < ids.len() implies #[trigger] ids[j] == spec_u64_from_be_bytes(
        seg.subrange(8 * j, 8 * j + 8)) by {
        lemma_ids_bytes_block(ids, j);
    }
}

/// The length, tag byte and field positions of each response encoding.
proof fn lemma_response_shape(rv: ResponseView)
    ensures
        spec_encode_response(rv).len() >= 1,
        rv matches ResponseView::PublishSuccess(id) ==> spec_encode_response(rv)[0] == 0
            && spec_encode_response(rv).len() == 9 && spec_encode_response(rv).subrange(1, 9)
            == spec_u64_to_be_bytes(id),
        rv matches ResponseView::SearchSuccess(ids) ==> spec_encode_response(rv)[0] == 1
            && spec_encode_response(rv).len() == 5 + 8 * ids.len() && spec_encode_response(
            rv,
        ).subrange(1, 5) == spec_u32_to_be_bytes(ids.len() as u32) && spec_encode_response(
            rv,
        ).subrange(5, 5 + 8 * ids.len() as int) == spec_ids_bytes(ids),
        rv matches ResponseView::RetrieveSuccess(doc) ==> spec_encode_response(rv)
            == spec_text_frame(2, doc) && spec_encode_response(rv)[0] == 2 && spec_encode_response(
            rv,
        ).len() == 5 + encode_utf8(doc).len() && spec_encode_response(rv).subrange(1, 5)
            == spec_u32_to_be_bytes(encode_utf8(doc).len() as u32) && spec_encode_response(
            rv,
        ).subrange(5, 5 + encode_utf8(doc).len() as int) == encode_utf8(doc),
        rv matches ResponseView::Failure ==> spec_encode_response(rv)[0] == 3
            && spec_encode_response(rv).len() == 1,
{
    match rv {
        ResponseView::PublishSuccess(id) => {
            assert(spec_encode_response(rv).subrange(1, 9) =~= spec_u64_to_be_bytes(id));
        },
        ResponseView::SearchSuccess(ids) => {
            lemma_ids_bytes_len(ids);
            assert(spec_encode_response(rv).subrange(1, 5) =~= spec_u32_to_be_bytes(
                ids.len() as u32,
            ));
            assert(spec_encode_response(rv).subrange(5, 5 + 8 * ids.len() as int) =~= spec_ids_bytes(
                ids,
            ));
        },
        ResponseView::RetrieveSuccess(doc) => {
            lemma_text_frame_shape(2, doc);
        },
        ResponseView::Failure => {},
    }
}

/// A buffer that already begins with the encoding of `found` holds at least
/// the whole encoding of any encodable response it agrees with: a successful
/// decode rules out a truncated frame.
proof fn lemma_response_no_truncation(bytes: Seq<u8>, rv: ResponseView, found: ResponseView)
    requires
        response_encodable(rv),
        response_encodable(found),
        spec_encode_response(found).is_prefix_of(bytes),
        bytes.len() <= spec_encode_response(rv).len(),
        bytes == spec_encode_response(rv).take(bytes.len() as int),
    ensures
        spec_encode_response(rv).len() <= bytes.len(),
{
    lemma_response_shape(rv);
    lemma_response_shape(found);
    lemma_u32_be_bytes_round_trip();
    let enc = spec_encode_response(rv);
    let enc_f = spec_encode_response(found);
    assert(bytes.len() >= enc_f.len() >= 1);
    assert(bytes[0] == enc.take(bytes.len() as int)[0]);
    assert(bytes[0] == enc[0]);
    assert(bytes[0] == enc_f[0]);
    match rv {
        ResponseView::PublishSuccess(_) => {
            match found {
                ResponseView::PublishSuccess(_) => {
                    assert(enc.len() == 9 && enc_f.len() == 9);
                },
                _ => {
                    assert(false);
                },
            }
        },
        ResponseView::SearchSuccess(ids) => {
            match found {
                ResponseView::SearchSuccess(ids_f) => {
                    assert(bytes.len() >= 5 + 8 * ids_f.len() >= 5);
                    assert(enc.subrange(1, 5) =~= bytes.subrange(1, 5));
                    assert(enc_f.subrange(1, 5) =~= bytes.subrange(1, 5));
                    assert(ids.len() as u32 == ids_f.len() as u32);
                    assert(enc.len() == enc_f.len());
                },
                _ => {
                    assert(false);
                },
            }
        },
        ResponseView::RetrieveSuccess(doc) => {
            match found {
                ResponseView::RetrieveSuccess(doc_f) => {
                    assert(bytes.len() >= 5 + encode_utf8(doc_f).len() >= 5);
                    assert(enc.subrange(1, 5) =~= bytes.subrange(1, 5));
                    assert(enc_f.subrange(1, 5) =~= bytes.subrange(1, 5));
                    assert(encode_utf8(doc).len() == encode_utf8(doc_f).len());
                    assert(enc.len() == enc_f.len());
                },
                _ => {
                    assert(false);
                },
            }
        },
        ResponseView::Failure => {
            match found {
                ResponseView::Failure => {
                    assert(enc.len() == 1 && enc_f.len() == 1);
                },
                _ => {
                    assert(false);
                },
            }
        },
    }
}

/// Two encodable responses whose encodings both begin the same buffer are the
/// same response.
proof fn lemma_response_prefix_forces(bytes: Seq<u8>, rv: ResponseView, found: ResponseView)
    requires
        response_encodable(rv),
        response_encodable(found),
        spec_encode_response(rv).is_prefix_of(bytes),
        spec_encode_response(found).is_prefix_of(bytes),
    ensures
        rv == found,
{
    lemma_response_shape(rv);
    lemma_response_shape(found);
    lemma_u32_be_bytes_round_trip();
    lemma_u64_be_bytes_round_trip();
    let enc_a = spec_encode_response(rv);
    let enc_b = spec_encode_response(found);
    assert(bytes.len() >= 1 && enc_a[0] == bytes[0] && enc_b[0] == bytes[0]);
    match rv {
        ResponseView::PublishSuccess(id) => {
            match found {
                ResponseView::PublishSuccess(id_b) => {
                    assert(enc_a.subrange(1, 9) =~= bytes.subrange(1, 9));
                    assert(enc_b.subrange(1, 9) =~= bytes.subrange(1, 9));
                    assert(id == spec_u64_from_be_bytes(spec_u64_to_be_bytes(id)));
                    assert(id_b == spec_u64_from_be_bytes(spec_u64_to_be_bytes(id_b)));
                },
                _ => {
                    assert(false);
                },
            }
        },
        ResponseView::SearchSuccess(ids) => {
            match found {
                ResponseView::SearchSuccess(ids_b) => {
                    assert(enc_a.subrange(1, 5) =~= bytes.subrange(1, 5));
                    assert(enc_b.subrange(1, 5) =~= bytes.subrange(1, 5));
                    assert(ids.len() as u32 == ids_b.len() as u32);
                    assert(ids.len() == ids_b.len());
                    let n = ids.len() as int;
                    assert(enc_a.subrange(5, 5 + 8 * n) =~= bytes.subrange(5, 5 + 8 * n));
                    assert(enc_b.subrange(5, 5 + 8 * n) =~= bytes.subrange(5, 5 + 8 * n));
                    assert(spec_ids_bytes(ids) == spec_ids_bytes(ids_b));
                    lemma_ids_bytes_determined(ids, spec_ids_bytes(ids));
                    lemma_ids_bytes_determined(ids_b, spec_ids_bytes(ids));
                    assert(ids =~= ids_b);
                },
                _ => {
                    assert(false);
                },
            }
        },
        ResponseView::RetrieveSuccess(doc) => {
            match found {
                ResponseView::RetrieveSuccess(doc_b) => {
                    lemma_same_text_frame(bytes, doc, doc_b);
                },
                _ => {
                    assert(false);
                },
            }
        },
        ResponseView::Failure => {
            match found {
                ResponseView::Failure => {},
                _ => {
                    assert(false);
                },
            }
        },
    }
}

impl Response {
    /// Encode this response into the wire format.
    pub fn to_bytes(&self) -> (out: Vec<u8>)
        requires
            response_encodable(self@),
        ensures
            out@ == spec_encode_response(self@),
    {
        let mut out: Vec<u8> = Vec::new();
        match self {
            Response::PublishSuccess(id) => {
                out.push(0u8);
                push_u64_be(&mut out, *id);
                assert(out@ =~= seq![0u8] + spec_u64_to_be_bytes(*id));
            },
            Response::SearchSuccess(ids) => {
                out.push(1u8);
                push_u32_be(&mut out, ids.len() as u32);
                let header: Ghost<Seq<u8>> = Ghost(out@);
                assert(out@ =~= header@ + spec_ids_bytes(ids@.take(0)));
                let mut i: usize = 0;
                while i < ids.len()
                    invariant
                        i <= ids@.len(),
                        out@ == header@ + spec_ids_bytes(ids@.take(i as int)),
                    decreases ids@.len() - i,
                {
                    push_u64_be(&mut out, ids[i]);
                    proof {
                        lemma_ids_bytes_push(ids@.take(i as int), ids@[i as int]);
                        assert(ids@.take(i + 1) =~= ids@.take(i as int).push(ids@[i as int]));
                    }
                    i = i + 1;
                }
                assert(ids@.take(ids@.len() as int) =~= ids@);
            },
            Response::RetrieveSuccess(doc) => {
                push_text_frame(&mut out, 2, doc.as_str());
            },
            Response::Failure => {
                out.push(3u8);
                assert(out@ =~= seq![3u8]);
            },
        }
        out
    }

    /// Encode this response if it fits the wire format's length and count
    /// fields, which only an absurdly large text or identifier list can fail
    /// to do.
    pub fn try_to_bytes(&self) -> (res: Option<Vec<u8>>)
        ensures
            match res {
                Some(out) => response_encodable(self@) && out@ == spec_encode_response(self@),
                None => !response_encodable(self@),
            },
    {
        let fits = match self {
            Response::PublishSuccess(_) => true,
            Response::SearchSuccess(ids) => ids.len() <= u32::MAX as usize,
            Response::RetrieveSuccess(doc) => text_len_fits(doc.as_str()),
            Response::Failure => true,
        };
        if fits {
            Some(self.to_bytes())
        } else {
            None
        }
    }

    /// Decode the response that begins at the start of `bytes`, ignoring any
    /// bytes past its encoded length.
    ///
    /// A buffer that begins with the encoding of a response decodes to
    /// exactly that response; whatever decodes successfully was such a
    /// buffer; and a strict prefix of an encoding — a truncated frame — is
    /// rejected.
    pub fn from_bytes(bytes: &[u8]) -> (res: Option<Response>)
        ensures
            res matches Some(resp) ==> response_encodable(resp@) && spec_encode_response(
                resp@,
            ).is_prefix_of(bytes@),
            forall|rv: ResponseView|
                response_encodable(rv) && (#[trigger] spec_encode_response(rv)).is_prefix_of(
                    bytes@,
                ) ==> (res matches Some(resp) && resp@ == rv),
            forall|rv: ResponseView|
                response_encodable(rv) && bytes@.len() < spec_encode_response(rv).len() && bytes@
                    == (#[trigger] spec_encode_response(rv)).take(bytes@.len() as int) ==> res
                    is None,
    {
        proof {
            lemma_u32_be_bytes_round_trip();
            lemma_u64_be_bytes_round_trip();
        }
        if bytes.len() == 0 {
            proof {
                assert forall|rv: ResponseView|
                    response_encodable(rv) implies !(#[trigger] spec_encode_response(
                    rv,
                )).is_prefix_of(bytes@) by {
                    lemma_response_shape(rv);
                }
            }
            return None;
        }
        let tag = bytes[0];
        if tag == 0 {
            if bytes.len() < 9 {
                proof {
                    assert forall|rv: ResponseView|
                        response_encodable(rv) implies !(#[trigger] spec_encode_response(
                        rv,
                    )).is_prefix_of(bytes@) by {
                        lemma_response_shape(rv);
                    }
                }
                return None;
            }
            let id = read_u64_be(bytes, 1);
            let resp = Response::PublishSuccess(id);
            proof {
                lemma_response_shape(resp@);
                assert(spec_encode_response(resp@).subrange(1, 9) =~= bytes@.subrange(1, 9));
                assert(spec_encode_response(resp@) =~= bytes@.subrange(0, 9));
                lemma_response_decode_clauses(bytes@, resp@);
            }
            Some(resp)
        } else if tag == 1 {
            if bytes.len() < 5 {
                proof {
                    assert forall|rv: ResponseView|
                        response_encodable(rv) implies !(#[trigger] spec_encode_response(
                        rv,
                    )).is_prefix_of(bytes@) by {
                        lemma_response_shape(rv);
                    }
                }
                return None;
            }
            let n32 = read_u32_be(bytes, 1);
            let n = n32 as usize;
            if ((bytes.len() - 5) as u64) < 8u64 * (n as u64) {
                proof {
                    assert forall|rv: ResponseView|
                        response_encodable(rv) implies !(#[trigger] spec_encode_response(
                        rv,
                    )).is_prefix_of(bytes@) by {
                        lemma_response_shape(rv);
                        let enc = spec_encode_response(rv);
                        match rv {
                            ResponseView::SearchSuccess(ids) => {
                                if enc.is_prefix_of(bytes@) {
                                    assert(enc.subrange(1, 5) =~= bytes@.subrange(1, 5));
                                    assert(ids.len() as u32 == n32);
                                }
                            },
                            _ => {},
                        }
                    }
                }
                return None;
            }
            let mut ids: Vec<u64> = Vec::new();
            let mut i: usize = 0;
            while i < n
                invariant
                    i <= n,
                    5 + 8 * n <= bytes@.len(),
                    bytes@.len() <= usize::MAX,
                    ids@.len() == i,
                    forall|j: int|
                        0 <= j < i ==> #[trigger] ids@[j] == spec_u64_from_be_bytes(
                            bytes@.subrange(5 + 8 * j, 5 + 8 * j + 8),
                        ),
                decreases n - i,
            {
                let id = read_u64_be(bytes, 5 + 8 * i);
                ids.push(id);
                i = i + 1;
            }
            let ghost ids_view = ids@;
            let resp = Response::SearchSuccess(ids);
            proof {
                let seg = bytes@.subrange(5, 5 + 8 * n);
                assert forall|j: int|
                    0 <= j < ids_view.len() implies #[trigger] ids_view[j]
                    == spec_u64_from_be_bytes(seg.subrange(8 * j, 8 * j + 8)) by {
                    assert(ids_view[j] == spec_u64_from_be_bytes(
                        bytes@.subrange(5 + 8 * j, 5 + 8 * j + 8),
                    ));
                    assert(seg.subrange(8 * j, 8 * j + 8) =~= bytes@.subrange(
                        5 + 8 * j,
                        5 + 8 * j + 8,
                    ));
                }
                lemma_ids_bytes_matches(ids_view, seg);
                lemma_response_shape(resp@);
                assert(spec_encode_response(resp@).subrange(1, 5) =~= bytes@.subrange(1, 5));
                assert(spec_encode_response(resp@) =~= bytes@.subrange(0, 5 + 8 * n));
                lemma_response_decode_clauses(bytes@, resp@);
            }
            Some(resp)
        } else if tag == 2 {
            match read_text_frame(bytes) {
                Some(s) => {
                    proof {
                        lemma_text_frame_decoded(bytes@, s@);
                    }
                    let resp = Response::RetrieveSuccess(s);
                    proof {
                        lemma_response_shape(resp@);
                        lemma_response_decode_clauses(bytes@, resp@);
                    }
                    Some(resp)
                },
                None => {
                    proof {
                        assert forall|rv: ResponseView|
                            response_encodable(rv) implies !(#[trigger] spec_encode_response(
                            rv,
                        )).is_prefix_of(bytes@) by {
                            lemma_response_shape(rv);
                        }
                    }
                    None
                },
            }
        } else if tag == 3 {
            let resp = Response::Failure;
            proof {
                lemma_response_shape(resp@);
                assert(spec_encode_response(resp@) =~= bytes@.subrange(0, 1));
                lemma_response_decode_clauses(bytes@, resp@);
            }
            Some(resp)
        } else {
            proof {
                assert forall|rv: ResponseView|
                    response_encodable(rv) implies !(#[trigger] spec_encode_response(
                    rv,
                )).is_prefix_of(bytes@) by {
                    lemma_response_shape(rv);
                }
            }
            None
        }
    }
}

/// Once one response encoding is known to begin the buffer, the decoder's
/// completeness and truncation-rejection clauses follow.
proof fn lemma_response_decode_clauses(bytes: Seq<u8>, found: ResponseView)
    requires
        response_encodable(found),
        spec_encode_response(found).is_prefix_of(bytes),
    ensures
        forall|rv: ResponseView|
            response_encodable(rv) && (#[trigger] spec_encode_response(rv)).is_prefix_of(bytes)
                ==> rv == found,
        forall|rv: ResponseView|
            response_encodable(rv) && bytes.len() < spec_encode_response(rv).len() && bytes
                == (#[trigger] spec_encode_response(rv)).take(bytes.len() as int)
                ==> spec_encode_response(rv).len() <= bytes.len(),
{
    assert forall|rv: ResponseView|
        response_encodable(rv) && (#[trigger] spec_encode_response(rv)).is_prefix_of(
        bytes) implies rv == found by {
        lemma_response_prefix_forces(bytes, rv, found);
    }
    assert forall|rv: ResponseView|
        response_encodable(rv) && bytes.len() < spec_encode_response(rv).len() && bytes
            == (#[trigger] spec_encode_response(rv)).take(
        bytes.len() as int) implies spec_encode_response(rv).len() <= bytes.len() by {
        lemma_response_no_truncation(bytes, rv, found);
    }
}

/// The wire format is unambiguous: one encodable request's encoding is a
/// prefix of another's only when they are the same request.  Together with
/// the decoder's contract this is the round trip: a buffer holding
/// `spec_encode_request(r)` decodes to `r` and to nothing else, and no
/// strict prefix of it decodes at all.
pub proof fn lemma_request_encoding_unambiguous(a: RequestView, b: RequestView)
    requires
        request_encodable(a),
        request_encodable(b),
        spec_encode_request(a).is_prefix_of(spec_encode_request(b)),
    ensures
        a == b,
{
    assert(spec_encode_request(b).is_prefix_of(spec_encode_request(b)));
    lemma_request_prefix_forces(spec_encode_request(b), a, b);
}

/// The wire format is unambiguous: one encodable response's encoding is a
/// prefix of another's only when they are the same response.  Together with
/// the decoder's contract this is the round trip: a buffer holding
/// `spec_encode_response(r)` decodes to `r` and to nothing else, and no
/// strict prefix of it decodes at all.
pub proof fn lemma_response_encoding_unambiguous(a: ResponseView, b: ResponseView)
    requires
        response_encodable(a),
        response_encodable(b),
        spec_encode_response(a).is_prefix_of(spec_encode_response(b)),
    ensures
        a == b,
{
    assert(spec_encode_response(b).is_prefix_of(spec_encode_response(b)));
    lemma_response_prefix_forces(spec_encode_response(b), a, b);
}

} // verus!
