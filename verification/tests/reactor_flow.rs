use reactor_http::client::{ClassTag, Client};
use reactor_http::http_parse::{decode_request, encode_response};
use reactor_http::reactor::{ConnType, Outcome, Reactor};
use reactor_http::ErrKind;

const SIG: &str = "python-requests/2.31.0";

fn sig() -> Vec<u8> {
    SIG.as_bytes().to_vec()
}

fn req(s: &str) -> reactor_http::http_parse::Request {
    decode_request(&s.as_bytes().to_vec()).unwrap()
}

fn browser_get(path: &str) -> reactor_http::http_parse::Request {
    req(&format!("GET {} HTTP/1.1\r\nUser-Agent: Mozilla/5.0\r\n\r\n", path))
}

fn script_upload(payload: &str) -> reactor_http::http_parse::Request {
    req(&format!("POST /upload HTTP/1.1\r\nUser-Agent: {}\r\n\r\n{}", SIG, payload))
}

#[test]
fn upload_then_stats_returns_payload() {
    let mut r = Reactor::new(sig());
    let ts = r.on_accept();
    let out = r.handle_request(ts, &script_upload("hello"));
    assert!(matches!(out, Outcome::Respond(_)));
    assert_eq!(r.class_of(ts), Some(ClassTag::Script));
    assert_eq!(r.upload_data(), b"hello".to_vec());

    let tb = r.on_accept();
    let out = r.handle_request(tb, &browser_get("/stats"));
    match out {
        Outcome::Respond(resp) => {
            assert_eq!(resp.status, 200);
            assert_eq!(resp.body, b"hello".to_vec());
        },
        _ => panic!("stats after an upload must be answered at once"),
    }
}

#[test]
fn reupload_replaces_buffer_entirely() {
    let mut r = Reactor::new(sig());
    let ts = r.on_accept();
    r.handle_request(ts, &script_upload("first payload"));
    r.handle_request(ts, &script_upload("2nd"));
    assert_eq!(r.upload_data(), b"2nd".to_vec());

    let tb = r.on_accept();
    let out = r.handle_request(tb, &browser_get("/stats"));
    match out {
        Outcome::Respond(resp) => assert_eq!(resp.body, b"2nd".to_vec()),
        _ => panic!("stats after an upload must be answered at once"),
    }
}

#[test]
fn deferred_stats_scenario() {
    let mut r = Reactor::new(sig());
    let tb = r.on_accept();
    assert_eq!(tb, 1);
    assert_eq!(r.client_count(), 1);

    // GET /stats with no prior upload: no immediate write, the connection
    // stays open, one deferred task is queued.
    let out = r.handle_request(tb, &browser_get("/stats"));
    assert!(matches!(out, Outcome::Deferred));
    assert!(r.pending_response(tb).is_none());
    assert_eq!(r.client_count(), 1);
    assert_eq!(r.task_count(), 1);
    assert_eq!(r.serviceable_count(), 0);

    // A drain before any upload answers nothing and keeps the task.
    let fired = r.drain_tasks();
    assert!(fired.is_empty());
    assert_eq!(r.task_count(), 1);

    // A script uploads b"42".
    let ts = r.on_accept();
    let out = r.handle_request(ts, &script_upload("42"));
    assert!(matches!(out, Outcome::Respond(_)));
    assert_eq!(r.serviceable_count(), 1);

    // On the next dispatcher iteration the queued task fires and the
    // original browser connection gets a 200 with body "42".
    let fired = r.drain_tasks();
    assert_eq!(fired.len(), 1);
    assert_eq!(fired[0].0, tb);
    assert_eq!(fired[0].1.status, 200);
    assert_eq!(fired[0].1.body, b"42".to_vec());
    assert_eq!(r.task_count(), 0);
    assert_eq!(r.serviceable_count(), 0);
}

#[test]
fn classification_is_sticky() {
    let mut r = Reactor::new(sig());
    let ts = r.on_accept();
    r.handle_request(ts, &script_upload("p"));
    assert_eq!(r.class_of(ts), Some(ClassTag::Script));
    // A later request with a browser-looking header does not change the class.
    r.handle_request(ts, &browser_get("/stats"));
    assert_eq!(r.class_of(ts), Some(ClassTag::Script));

    let tb = r.on_accept();
    r.handle_request(tb, &browser_get("/page.html"));
    assert_eq!(r.class_of(tb), Some(ClassTag::Browser));
    // A later request with the script signature does not change the class.
    r.handle_request(tb, &script_upload("q"));
    assert_eq!(r.class_of(tb), Some(ClassTag::Browser));
}

#[test]
fn script_header_request_stays_upload_even_after_sticky() {
    // The request sent on the browser connection in the sticky test above
    // must not have landed in the buffer.
    let mut r = Reactor::new(sig());
    let tb = r.on_accept();
    r.handle_request(tb, &browser_get("/page.html"));
    let out = r.handle_request(tb, &req(&format!(
        "GET /stats HTTP/1.1\r\nUser-Agent: {}\r\n\r\n",
        SIG
    )));
    // Still a browser: the stats read is deferred, nothing was uploaded.
    assert!(matches!(out, Outcome::Deferred));
    assert!(!r.upload_fresh());
}

#[test]
fn browser_get_routed_to_blob_store() {
    let mut r = Reactor::new(sig());
    let tb = r.on_accept();
    let out = r.handle_request(tb, &browser_get("/home.html"));
    match out {
        Outcome::NeedFile(path) => assert_eq!(path, b"/home.html".to_vec()),
        _ => panic!("an ordinary GET must be routed to the blob store"),
    }
}

#[test]
fn non_get_on_browser_rejected() {
    let mut r = Reactor::new(sig());
    let tb = r.on_accept();
    let out = r.handle_request(
        tb,
        &req("PUT /x HTTP/1.1\r\nUser-Agent: Mozilla/5.0\r\n\r\nbody"),
    );
    match out {
        Outcome::Reject(k) => assert_eq!(k, ErrKind::UnsupportedMethod),
        _ => panic!("a browser connection accepts GET only"),
    }
}

#[test]
fn static_get_is_idempotent() {
    // Two sequential GETs for the same stored bytes produce byte-identical
    // responses.
    let blob = b"<html>home</html>".to_vec();
    let first = encode_response(&Client::build_response(Some(blob.clone())));
    let second = encode_response(&Client::build_response(Some(blob)));
    assert_eq!(first, second);
}

#[test]
fn pending_response_cycle() {
    let mut r = Reactor::new(sig());
    let tb = r.on_accept();
    assert!(r.pending_response(tb).is_none());
    r.store_pending(tb, b"partial".to_vec());
    assert_eq!(r.pending_response(tb), Some(b"partial".to_vec()));
    r.mark_written(tb);
    assert!(r.pending_response(tb).is_none());
}

#[test]
fn removed_connection_drops_its_task() {
    let mut r = Reactor::new(sig());
    let tb = r.on_accept();
    r.handle_request(tb, &browser_get("/stats"));
    assert_eq!(r.task_count(), 1);
    r.remove_client(tb);
    assert_eq!(r.client_count(), 0);

    let ts = r.on_accept();
    r.handle_request(ts, &script_upload("late"));
    let fired = r.drain_tasks();
    // The task was consumed, but nothing was answered: its connection is gone.
    assert!(fired.is_empty());
    assert_eq!(r.task_count(), 0);
}

#[test]
fn tokens_count_up_from_one() {
    let mut r = Reactor::new(sig());
    assert_eq!(r.on_accept(), 1);
    assert_eq!(r.on_accept(), 2);
    assert_eq!(r.on_accept(), 3);
    assert_eq!(r.client_count(), 3);
}

#[test]
fn write_interest_added_at_identification() {
    let mut r = Reactor::new(sig());
    let t = r.on_accept();
    // Freshly accepted: read interest only.
    assert_eq!(r.write_interest_of(t), Some(false));
    assert_eq!(r.class_of(t), Some(ClassTag::Unidentified));
    // The classifying request adds write interest, whatever the class.
    r.handle_request(t, &browser_get("/x"));
    assert_eq!(r.write_interest_of(t), Some(true));

    let t2 = r.on_accept();
    r.handle_request(t2, &script_upload("p"));
    assert_eq!(r.write_interest_of(t2), Some(true));
    assert_eq!(r.write_interest_of(99), None);
}

#[test]
fn conn_type_token_space() {
    assert_eq!(usize::from(ConnType::Server), 0);
    assert_eq!(usize::from(ConnType::Client(5)), 5);
}

#[test]
fn missing_identification_is_a_browser() {
    let mut r = Reactor::new(sig());
    let t = r.on_accept();
    let out = r.handle_request(t, &req("GET /p HTTP/1.1\r\n\r\n"));
    assert_eq!(r.class_of(t), Some(ClassTag::Browser));
    assert!(matches!(out, Outcome::NeedFile(_)));
}
