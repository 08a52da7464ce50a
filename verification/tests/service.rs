//! The full request/response cycle a served connection goes through, without
//! the sockets: client-encoded bytes in, handler, encoded response out.

use ngram::handler::{failure_reply_bytes, handle_request};
use ngram::message::{Request, Response};
use ngram::store::DocumentStore;

fn tokenize(text: &str) -> Vec<String> {
    text.split_whitespace().map(String::from).collect()
}

/// Carry one request through the wire format and the handler, as a worker
/// serving a connection would.
fn serve(store: &mut DocumentStore, request: &Request) -> Response {
    let wire = request.to_bytes();
    let decoded = Request::from_bytes(&wire).expect("a fresh encoding must decode");
    let words = match &decoded {
        Request::Publish { doc } => tokenize(doc),
        _ => Vec::new(),
    };
    let reply = handle_request(store, decoded, words);
    let reply_wire = reply.try_to_bytes().expect("reply must fit the wire format");
    Response::from_bytes(&reply_wire).expect("a fresh encoding must decode")
}

#[test]
fn publish_search_retrieve_scenario() {
    let mut store = DocumentStore::new();

    let published = serve(
        &mut store,
        &Request::Publish {
            doc: String::from("the quick fox"),
        },
    );
    assert_eq!(published, Response::PublishSuccess(0));

    let found = serve(
        &mut store,
        &Request::Search {
            word: String::from("fox"),
        },
    );
    assert_eq!(found, Response::SearchSuccess(vec![0]));

    let not_found = serve(
        &mut store,
        &Request::Search {
            word: String::from("dog"),
        },
    );
    assert_eq!(not_found, Response::SearchSuccess(vec![]));

    let body = serve(&mut store, &Request::Retrieve { id: 0 });
    assert_eq!(body, Response::RetrieveSuccess(String::from("the quick fox")));

    let missing = serve(&mut store, &Request::Retrieve { id: 99 });
    assert_eq!(missing, Response::Failure);
}

#[test]
fn two_documents_share_a_word() {
    let mut store = DocumentStore::new();
    let first = serve(
        &mut store,
        &Request::Publish {
            doc: String::from("red fox"),
        },
    );
    let second = serve(
        &mut store,
        &Request::Publish {
            doc: String::from("grey fox"),
        },
    );
    assert_eq!(first, Response::PublishSuccess(0));
    assert_eq!(second, Response::PublishSuccess(1));

    match serve(
        &mut store,
        &Request::Search {
            word: String::from("fox"),
        },
    ) {
        Response::SearchSuccess(mut ids) => {
            ids.sort();
            assert_eq!(ids, vec![0, 1]);
        }
        other => panic!("expected a search success, got {:?}", other),
    }
    match serve(
        &mut store,
        &Request::Search {
            word: String::from("red"),
        },
    ) {
        Response::SearchSuccess(ids) => assert_eq!(ids, vec![0]),
        other => panic!("expected a search success, got {:?}", other),
    }
}

#[test]
fn duplicate_words_indexed_once() {
    let mut store = DocumentStore::new();
    serve(
        &mut store,
        &Request::Publish {
            doc: String::from("fox fox fox"),
        },
    );
    let found = serve(
        &mut store,
        &Request::Search {
            word: String::from("fox"),
        },
    );
    assert_eq!(found, Response::SearchSuccess(vec![0]));
}

#[test]
fn undecodable_bytes_get_failure_reply() {
    // The handler's policy on a frame that does not decode: answer Failure.
    let garbage = [42u8, 0, 1, 2];
    assert_eq!(Request::from_bytes(&garbage), None);
    let reply = failure_reply_bytes();
    assert_eq!(Response::from_bytes(&reply), Some(Response::Failure));
}

#[test]
fn store_retrieve_without_wire() {
    let mut store = DocumentStore::new();
    let id = store.publish(String::from("a lone page"), tokenize("a lone page"));
    assert_eq!(id, 0);
    assert_eq!(store.retrieve(0), Some(String::from("a lone page")));
    assert_eq!(store.retrieve(1), None);
    assert_eq!(store.search(&String::from("lone")), vec![0]);
}
