use ngram::message::{Request, Response};

#[test]
fn request_publish_round_trip() {
    let r = Request::Publish {
        doc: String::from("the quick fox"),
    };
    let bytes = r.to_bytes();
    assert_eq!(Request::from_bytes(&bytes), Some(r));
}

#[test]
fn request_search_round_trip() {
    let r = Request::Search {
        word: String::from("fox"),
    };
    let bytes = r.to_bytes();
    assert_eq!(Request::from_bytes(&bytes), Some(r));
}

#[test]
fn request_retrieve_round_trip() {
    let r = Request::Retrieve { id: 12345678901234 };
    let bytes = r.to_bytes();
    assert_eq!(Request::from_bytes(&bytes), Some(r));
}

#[test]
fn request_empty_doc_round_trip() {
    let r = Request::Publish { doc: String::new() };
    let bytes = r.to_bytes();
    assert_eq!(bytes, vec![0, 0, 0, 0, 0]);
    assert_eq!(Request::from_bytes(&bytes), Some(r));
}

#[test]
fn request_unicode_round_trip() {
    let r = Request::Publish {
        doc: String::from("naïve café — 日本語"),
    };
    let bytes = r.to_bytes();
    assert_eq!(Request::from_bytes(&bytes), Some(r));
}

#[test]
fn request_exact_bytes() {
    let r = Request::Publish {
        doc: String::from("ab"),
    };
    assert_eq!(r.to_bytes(), vec![0, 0, 0, 0, 2, 97, 98]);
    let s = Request::Search {
        word: String::from("ab"),
    };
    assert_eq!(s.to_bytes(), vec![1, 0, 0, 0, 2, 97, 98]);
    let t = Request::Retrieve { id: 0x0102030405060708 };
    assert_eq!(t.to_bytes(), vec![2, 1, 2, 3, 4, 5, 6, 7, 8]);
}

#[test]
fn request_truncation_fails() {
    let r = Request::Publish {
        doc: String::from("the quick fox"),
    };
    let bytes = r.to_bytes();
    for cut in 0..bytes.len() {
        assert_eq!(Request::from_bytes(&bytes[..cut]), None);
    }
}

#[test]
fn request_retrieve_truncation_fails() {
    let r = Request::Retrieve { id: 99 };
    let bytes = r.to_bytes();
    for cut in 0..bytes.len() {
        assert_eq!(Request::from_bytes(&bytes[..cut]), None);
    }
}

#[test]
fn request_unknown_tag_fails() {
    assert_eq!(Request::from_bytes(&[3, 0, 0, 0, 0]), None);
    assert_eq!(Request::from_bytes(&[255]), None);
}

#[test]
fn request_invalid_utf8_fails() {
    // A publish frame declaring two bytes of text that are not valid UTF-8.
    assert_eq!(Request::from_bytes(&[0, 0, 0, 0, 2, 0xff, 0xfe]), None);
}

#[test]
fn request_trailing_bytes_ignored() {
    let r = Request::Search {
        word: String::from("fox"),
    };
    let mut bytes = r.to_bytes();
    bytes.extend([9, 9, 9]);
    assert_eq!(Request::from_bytes(&bytes), Some(r));
}

#[test]
fn request_try_to_bytes_matches() {
    let r = Request::Search {
        word: String::from("fox"),
    };
    assert_eq!(r.try_to_bytes(), Some(r.to_bytes()));
}

#[test]
fn response_publish_success_round_trip() {
    let r = Response::PublishSuccess(0);
    let bytes = r.to_bytes();
    assert_eq!(bytes, vec![0, 0, 0, 0, 0, 0, 0, 0, 0]);
    assert_eq!(Response::from_bytes(&bytes), Some(r));
}

#[test]
fn response_search_success_round_trip() {
    let r = Response::SearchSuccess(vec![0, 1, 0x0102030405060708]);
    let bytes = r.to_bytes();
    assert_eq!(Response::from_bytes(&bytes), Some(r));
}

#[test]
fn response_search_success_exact_bytes() {
    let r = Response::SearchSuccess(vec![1, 2]);
    assert_eq!(
        r.to_bytes(),
        vec![1, 0, 0, 0, 2, 0, 0, 0, 0, 0, 0, 0, 1, 0, 0, 0, 0, 0, 0, 0, 2]
    );
}

#[test]
fn response_search_success_empty_round_trip() {
    let r = Response::SearchSuccess(vec![]);
    let bytes = r.to_bytes();
    assert_eq!(bytes, vec![1, 0, 0, 0, 0]);
    assert_eq!(Response::from_bytes(&bytes), Some(r));
}

#[test]
fn response_retrieve_success_round_trip() {
    let r = Response::RetrieveSuccess(String::from("the quick fox"));
    let bytes = r.to_bytes();
    assert_eq!(Response::from_bytes(&bytes), Some(r));
}

#[test]
fn response_failure_round_trip() {
    let r = Response::Failure;
    let bytes = r.to_bytes();
    assert_eq!(bytes, vec![3]);
    assert_eq!(Response::from_bytes(&bytes), Some(r));
}

#[test]
fn response_truncation_fails() {
    let r = Response::SearchSuccess(vec![5, 6, 7]);
    let bytes = r.to_bytes();
    for cut in 0..bytes.len() {
        assert_eq!(Response::from_bytes(&bytes[..cut]), None);
    }
    let r = Response::RetrieveSuccess(String::from("body"));
    let bytes = r.to_bytes();
    for cut in 0..bytes.len() {
        assert_eq!(Response::from_bytes(&bytes[..cut]), None);
    }
}

#[test]
fn response_unknown_tag_fails() {
    assert_eq!(Response::from_bytes(&[4]), None);
    assert_eq!(Response::from_bytes(&[200, 1, 2, 3]), None);
}

#[test]
fn response_invalid_utf8_fails() {
    assert_eq!(Response::from_bytes(&[2, 0, 0, 0, 1, 0x80]), None);
}

#[test]
fn response_empty_buffer_fails() {
    assert_eq!(Response::from_bytes(&[]), None);
    assert_eq!(Request::from_bytes(&[]), None);
}

#[test]
fn request_equality_distinguishes() {
    let a = Request::Publish {
        doc: String::from("x"),
    };
    let b = Request::Publish {
        doc: String::from("y"),
    };
    let c = Request::Search {
        word: String::from("x"),
    };
    assert_ne!(a, b);
    assert_ne!(a, c);
    assert_eq!(
        a,
        Request::Publish {
            doc: String::from("x")
        }
    );
}

#[test]
fn response_equality_distinguishes() {
    assert_ne!(Response::PublishSuccess(1), Response::PublishSuccess(2));
    assert_ne!(
        Response::SearchSuccess(vec![1]),
        Response::SearchSuccess(vec![1, 2])
    );
    assert_eq!(Response::Failure, Response::Failure);
    assert_ne!(Response::Failure, Response::PublishSuccess(0));
}
