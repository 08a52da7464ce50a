//! The connection handler's decision: which store operation a request
//! demands, and which response its outcome yields.
//!
//! The handler a worker runs reads one request from its connection, calls
//! `handle_request`, writes the response back and closes the connection.
//! Reading and writing are the runtime's; the mapping in the middle is
//! verified here.  On bytes that do not decode, the handler's policy is to
//! answer `Failure` — see [`failure_reply_bytes`].

use crate::message::{Request, Response, ResponseView, spec_encode_response};
use crate::store::DocumentStore;
use vstd::prelude::*;

verus! {

/// Serve one decoded request against the store.
///
/// A publish stores the document under the next identifier and answers
/// `PublishSuccess` with it; a search answers `SearchSuccess` with exactly
/// the identifiers indexed under the word; a retrieval answers
/// `RetrieveSuccess` with the stored body, or `Failure` when no document
/// has the identifier.  Only a publish changes the store.  `doc_words` is
/// the caller's tokenization of the published document (the server splits
/// on whitespace); for other requests it is ignored.
pub fn handle_request(store: &mut DocumentStore, req: Request, doc_words: Vec<String>) -> (resp:
    Response)
    requires
        old(store).wf(),
        old(store).documents().len() < u64::MAX,
    ensures
        final(store).wf(),
        req matches Request::Publish { doc } ==> {
            &&& resp matches Response::PublishSuccess(id) && id == old(store).documents().len()
            &&& final(store).documents() == old(store).documents().push(doc@)
            &&& forall|q: (Seq<char>, u64)| #[trigger]
                final(store).index_pairs().contains(q) <==> (old(store).index_pairs().contains(q)
                    || (q.1 == old(store).documents().len() && exists|k: int|
                    0 <= k < doc_words@.len() && (#[trigger] doc_words@[k])@ == q.0))
        },
        req matches Request::Search { word } ==> {
            &&& *final(store) == *old(store)
            &&& resp matches Response::SearchSuccess(ids)
            &&& forall|v: u64| #[trigger]
                ids@.contains(v) <==> old(store).index_pairs().contains((word@, v))
            &&& resp->SearchSuccess_0@.no_duplicates()
        },
        req matches Request::Retrieve { id } ==> {
            &&& *final(store) == *old(store)
            &&& id < old(store).documents().len() ==> (resp matches Response::RetrieveSuccess(d)
                && d@ == old(store).documents()[id as int])
            &&& id >= old(store).documents().len() ==> resp == Response::Failure
        },
{
    match req {
        Request::Publish { doc } => {
            let id = store.publish(doc, doc_words);
            Response::PublishSuccess(id)
        },
        Request::Search { word } => {
            let ids = store.search(&word);
            Response::SearchSuccess(ids)
        },
        Request::Retrieve { id } => {
            match store.retrieve(id) {
                Some(doc) => Response::RetrieveSuccess(doc),
                None => Response::Failure,
            }
        },
    }
}

/// The handler's one policy on bytes that do not decode as a request: the
/// peer is answered with an encoded `Failure` response, never left hanging.
pub fn failure_reply_bytes() -> (out: Vec<u8>)
    ensures
        out@ == spec_encode_response(ResponseView::Failure),
{
    Response::Failure.to_bytes()
}

} // verus!
