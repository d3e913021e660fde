use localhost::conn::{bad_request, plan_event, Conn, EventPlan};
use localhost::http::{HttpError, Method, Response};

#[test]
fn connection_reads_requests_and_queues_responses() {
    let mut c = Conn::new(100);
    assert_eq!(c.last_active(), 100);
    assert!(!c.wants_write());
    c.received(b"GET /a HTTP/1.1\r\n", 150);
    assert!(c.next_request().is_none());
    c.received(b"\r\n", 200);
    assert_eq!(c.last_active(), 200);
    let req = c.next_request().unwrap().unwrap();
    assert_eq!(req.method, Method::GET);
    assert_eq!(req.path, "/a");
    c.queue(&Response::new(204, "No Content"));
    assert!(c.wants_write());
    assert_eq!(c.pending(), b"HTTP/1.1 204 No Content\r\nContent-Length: 0\r\n\r\n");
    c.sent(9);
    assert_eq!(c.pending(), b"204 No Content\r\nContent-Length: 0\r\n\r\n");
    let rest = c.pending().len();
    c.sent(rest);
    assert!(!c.wants_write());
}

#[test]
fn connection_reports_bad_heads() {
    let mut c = Conn::new(0);
    c.received(b"BREW /pot HTTP/1.1\r\n\r\n", 1);
    assert!(matches!(c.next_request(), Some(Err(HttpError::UnsupportedMethod))));
}

#[test]
fn connection_serves_a_second_request() {
    let mut c = Conn::new(0);
    c.received(b"GET /one HTTP/1.1\r\n\r\nGET /two HTTP/1.1\r\n\r\n", 1);
    assert_eq!(c.next_request().unwrap().unwrap().path, "/one");
    assert_eq!(c.next_request().unwrap().unwrap().path, "/two");
    assert!(c.next_request().is_none());
}

#[test]
fn event_plans() {
    assert_eq!(plan_event(true, true, true, true), EventPlan::Accept);
    assert_eq!(plan_event(false, true, false, true), EventPlan::Close);
    assert_eq!(plan_event(false, true, false, false), EventPlan::Service { read: true, write: false });
    assert_eq!(plan_event(false, false, true, false), EventPlan::Service { read: false, write: true });
    let r = bad_request();
    assert_eq!((r.code, r.reason), (400, "Bad Request"));
    assert_eq!(r.to_bytes(), b"HTTP/1.1 400 Bad Request\r\nContent-Length: 0\r\n\r\n".to_vec());
}

#[test]
fn connection_close_is_honoured_after_sending() {
    let mut c = Conn::new(0);
    c.received(b"GET /x HTTP/1.1\r\nConnection: Close\r\n\r\nGET /y HTTP/1.1\r\n\r\n", 1);
    let req = c.next_request().unwrap().unwrap();
    assert!(req.wants_close());
    c.answer(&req, &Response::new(200, "OK"));
    assert!(!c.should_close());
    let n = c.pending().len();
    c.sent(n);
    assert!(c.should_close());
    assert!(c.next_request().is_none());
}

#[test]
fn keep_alive_connection_stays_open() {
    let mut c = Conn::new(0);
    c.received(b"GET /x HTTP/1.1\r\nConnection: keep-alive\r\n\r\n", 1);
    let req = c.next_request().unwrap().unwrap();
    assert!(!req.wants_close());
    c.answer(&req, &Response::new(200, "OK"));
    let n = c.pending().len();
    c.sent(n);
    assert!(!c.should_close());
}
