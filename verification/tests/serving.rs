use localhost::cgi::{cgi_env, cgi_response, cgi_response_from_text, cgi_script_path};
use localhost::config::{CgiCfg, Redirect, RouteCfg, ServerCfg};
use localhost::http::{Method, Request};
use localhost::router::FileRead;
use localhost::server::{
    cgi_rel, concat3, created_response, deleted_response, dir_with_cookie, dispatch,
    echo_response, error_from_cfg, error_page_path, gate_request, multipart_boundary, ok_file_with_cookie,
    redirect_response, sanitize, session_cookie, timed_out, with_cgi_cookie, with_cookie, with_date, Action,
    FsFacts, Gate,
};
use localhost::session::SessionStore;
use localhost::strmap::StrMap;
use localhost::util::http_date_of;

fn route(path: &str, root: &str) -> RouteCfg {
    RouteCfg {
        path: path.to_string(),
        root: root.to_string(),
        index: Vec::new(),
        methods: Vec::new(),
        dir_listing: false,
        upload_enabled: false,
        redirect: None,
        cgi: None,
    }
}

fn server(routes: Vec<RouteCfg>, max_body: usize) -> ServerCfg {
    ServerCfg {
        server_address: "0.0.0.0".to_string(),
        ports: vec![8080, 8081],
        server_name: vec!["demo".to_string()],
        client_max_body_size: max_body,
        error_pages: StrMap::new(),
        routes,
    }
}

fn request(method: Method, path: &str, headers: &[(&str, &str)], body: &[u8]) -> Request {
    let mut h = StrMap::new();
    for (k, v) in headers {
        h.insert(k.to_string(), v.to_string());
    }
    Request {
        method,
        path: path.to_string(),
        version: "HTTP/1.1".to_string(),
        headers: h,
        body: body.to_vec(),
        chunked: false,
    }
}

fn facts(is_dir: bool, is_file: bool, index_present: Vec<bool>) -> FsFacts {
    FsFacts { is_dir, is_file, index_present }
}

#[test]
fn session_id_from_cookie_header() {
    assert_eq!(session_cookie("a=1; SID=abc123; b=2"), Some("abc123".to_string()));
    assert_eq!(session_cookie("SID=first;SID=second"), Some("first".to_string()));
    assert_eq!(session_cookie("  SID=x  "), Some("x".to_string()));
    assert_eq!(session_cookie("sid=abc"), None);
    assert_eq!(session_cookie("SESSIONID=abc"), None);
    assert_eq!(session_cookie(""), None);
}

#[test]
fn set_cookie_value_reads_back_as_the_session_id() {
    let r = with_cookie(redirect_response(302, "/"), "tok42");
    let v = r.headers.get("Set-Cookie").unwrap().to_string();
    assert_eq!(v, "SID=tok42; Path=/; HttpOnly");
    assert_eq!(session_cookie(&v), Some("tok42".to_string()));
}

#[test]
fn boundary_from_content_type() {
    assert_eq!(multipart_boundary("multipart/form-data; boundary=XyZ"), Some("XyZ".to_string()));
    assert_eq!(multipart_boundary("multipart/form-data; boundary=\"q q\"; charset=x"), Some("q q".to_string()));
    assert_eq!(multipart_boundary("text/plain"), None);
}

#[test]
fn sanitize_keeps_only_safe_characters() {
    assert_eq!(sanitize("../etc/pass wd.txt"), "..etcpasswd.txt");
    assert_eq!(sanitize("ok-name_1.bin"), "ok-name_1.bin");
    assert_eq!(sanitize(&sanitize("a b/c")), sanitize("a b/c"));
    assert_eq!(sanitize("żółw"), "w");
}

#[test]
fn concat_and_cookie_headers() {
    assert_eq!(concat3("a", "bc", ""), "abc");
    let r = with_cgi_cookie(echo_response(b"x".to_vec(), "s1"), "s2");
    assert_eq!(r.headers.get("Set-Cookie"), Some("SID=s2; HttpOnly; Path=/"));
    assert_eq!(r.headers.get("Content-Type"), Some("application/json"));
    assert_eq!(r.body, b"x".to_vec());
}

#[test]
fn date_is_added_only_once() {
    let r = with_date(deleted_response("s"), "Mon, 01 Jan 2024 00:00:00 GMT");
    assert_eq!(r.headers.get("Date"), Some("Mon, 01 Jan 2024 00:00:00 GMT"));
    let r = with_date(r, "later");
    assert_eq!(r.headers.get("Date"), Some("Mon, 01 Jan 2024 00:00:00 GMT"));
    assert_eq!(r.code, 200);
}

#[test]
fn simple_responses() {
    let r = redirect_response(301, "/new");
    assert_eq!((r.code, r.reason), (301, ""));
    assert_eq!(r.headers.get("Location"), Some("/new"));
    let r = created_response("sid");
    assert_eq!((r.code, r.reason), (201, "Created"));
    assert_eq!(r.body, b"uploaded".to_vec());
    assert_eq!(r.headers.get("Set-Cookie"), Some("SID=sid; Path=/; HttpOnly"));
    let r = echo_response(b"{\"a\":1}".to_vec(), "sid");
    assert_eq!((r.code, r.reason), (200, "OK"));
    assert_eq!(r.body, b"{\"a\":1}".to_vec());
}

#[test]
fn error_pages_by_status() {
    let mut s = server(vec![], 0);
    s.error_pages.insert("404".to_string(), "errors/404.html".to_string());
    assert_eq!(error_page_path(&s, 404), Some("errors/404.html".to_string()));
    assert_eq!(error_page_path(&s, 500), None);
    let r = error_from_cfg(404, Some(b"<h1>nope</h1>".to_vec()));
    assert_eq!((r.code, r.reason), (404, ""));
    assert_eq!(r.headers.get("Content-Type"), Some("text/html; charset=utf-8"));
    assert_eq!(r.body, b"<h1>nope</h1>".to_vec());
    let r = error_from_cfg(500, None);
    assert_eq!(r.code, 500);
    assert_eq!(r.headers.len(), 0);
    assert!(r.body.is_empty());
}

#[test]
fn gate_checks_in_order() {
    let mut limited = route("/api", "api");
    limited.methods = vec!["POST".to_string()];
    let mut moved = route("/old", "x");
    moved.redirect = Some(Redirect { status: 301, to: "/new".to_string() });
    let s = server(vec![route("/files", "www"), limited, moved], 4);
    assert!(matches!(gate_request(&s, &request(Method::POST, "/api", &[], b"12345")), Gate::Error(413)));
    assert!(matches!(gate_request(&s, &request(Method::GET, "/nothing", &[], b"")), Gate::Error(404)));
    assert!(matches!(gate_request(&s, &request(Method::GET, "/api/x", &[], b"")), Gate::Error(405)));
    match gate_request(&s, &request(Method::GET, "/old/page", &[], b"")) {
        Gate::Redirect(st, to) => {
            assert_eq!(st, 301);
            assert_eq!(to, "/new");
        }
        _ => panic!("expected a redirect"),
    }
    match gate_request(&s, &request(Method::GET, "/files/a.txt", &[], b"")) {
        Gate::Route(m) => {
            assert_eq!(m.route.root, "www");
            assert_eq!(m.local_path, "www/a.txt");
        }
        _ => panic!("expected a route"),
    }
}

#[test]
fn dispatch_get_file_index_listing_and_forbidden() {
    let mut r = route("/", "www");
    r.index = vec!["index.html".to_string()];
    let req = request(Method::GET, "/", &[], b"");
    assert!(matches!(dispatch(&r, "www/a.txt", &req, &facts(false, true, vec![false])), Action::ServeFile(p) if p == "www/a.txt"));
    assert!(matches!(dispatch(&r, "www/", &req, &facts(true, false, vec![true])), Action::ServeFile(p) if p == "www/index.html"));
    assert!(matches!(dispatch(&r, "www/", &req, &facts(true, false, vec![false])), Action::Error(403)));
    r.dir_listing = true;
    assert!(matches!(dispatch(&r, "www/", &req, &facts(true, false, vec![false])), Action::ListDir));
}

#[test]
fn dispatch_delete_and_echo() {
    let r = route("/", "www");
    let del = request(Method::DELETE, "/x", &[], b"");
    assert!(matches!(dispatch(&r, "www/x", &del, &facts(false, true, vec![])), Action::Delete));
    assert!(matches!(dispatch(&r, "www/x", &del, &facts(false, false, vec![])), Action::Error(404)));
    let post = request(Method::POST, "/x", &[], b"data");
    assert!(matches!(dispatch(&r, "www/x", &post, &facts(false, false, vec![])), Action::Echo));
}

#[test]
fn dispatch_uploads() {
    let mut r = route("/up", "store");
    r.upload_enabled = true;
    let body = b"--B\r\nContent-Disposition: form-data; filename=\"f.txt\"\r\n\r\nabc\r\n--B--";
    let ok = request(Method::POST, "/up", &[("content-type", "multipart/form-data; boundary=B")], body);
    let f = facts(true, false, vec![]);
    match dispatch(&r, "store/", &ok, &f) {
        Action::Upload(parts) => {
            assert_eq!(parts.len(), 1);
            assert_eq!(parts[0].filename, "f.txt");
            assert_eq!(parts[0].content, b"abc".to_vec());
        }
        _ => panic!("expected an upload"),
    }
    let no_boundary = request(Method::POST, "/up", &[("content-type", "text/plain")], body);
    assert!(matches!(dispatch(&r, "store/", &no_boundary, &f), Action::BadRequest));
    let empty = request(Method::POST, "/up", &[("content-type", "multipart/form-data; boundary=Q")], body);
    assert!(matches!(dispatch(&r, "store/", &empty, &f), Action::BadRequest));
    let bad = request(Method::POST, "/up", &[("content-type", "multipart/form-data; boundary=B")], b"--B\r\nX: y\r\n\r\n--B--");
    match dispatch(&r, "store/", &bad, &f) {
        Action::Upload(parts) => {
            assert_eq!(parts.len(), 1);
            assert!(parts[0].content.is_empty());
        }
        _ => panic!("expected an upload"),
    }
}

#[test]
fn dispatch_cgi_by_extension() {
    let mut r = route("/cgi", "cgi-bin");
    r.cgi = Some(CgiCfg { ext: ".py".to_string(), runner: "python3".to_string() });
    let req = request(Method::GET, "/cgi/tools/run.py", &[], b"");
    assert!(matches!(dispatch(&r, "cgi-bin/tools/run.py", &req, &facts(false, true, vec![])), Action::Cgi(rel) if rel == "tools/run.py"));
    assert!(matches!(dispatch(&r, "elsewhere/run.py", &req, &facts(false, true, vec![])), Action::Cgi(rel) if rel == "elsewhere/run.py"));
    assert!(matches!(dispatch(&r, "cgi-bin/page.html", &req, &facts(false, true, vec![])), Action::ServeFile(_)));
    assert_eq!(cgi_rel("/abs/x.py", None), "abs/x.py");
    assert_eq!(cgi_rel("ignored", Some("//y.py".to_string())), "y.py");
}

#[test]
fn file_and_listing_with_cookie_and_date() {
    let r = ok_file_with_cookie("www/i.html", FileRead::Bytes(b"<p/>".to_vec()), "sid", "D");
    assert_eq!(r.code, 200);
    assert_eq!(r.headers.get("Content-Type"), Some("text/html; charset=utf-8"));
    assert_eq!(r.headers.get("Set-Cookie"), Some("SID=sid; Path=/; HttpOnly"));
    assert_eq!(r.headers.get("Date"), Some("D"));
    let r = ok_file_with_cookie("www/none", FileRead::NotFound, "sid", "D");
    assert_eq!(r.code, 404);
    let r = dir_with_cookie("/d", Some(vec![]), "sid", "D");
    assert_eq!(r.code, 200);
    assert_eq!(String::from_utf8(r.body).unwrap(), "<html><body><h1>Index of /d</h1><ul></ul></body></html>");
    assert_eq!(r.headers.get("Date"), Some("D"));
}

#[test]
fn idle_connections_time_out() {
    let conns = vec![(3, 1000u128), (4, 5000u128), (5, 100u128)];
    assert_eq!(timed_out(&conns, 6001, 5000), vec![3, 5]);
    assert_eq!(timed_out(&conns, 6000, 5000), vec![5]);
    assert_eq!(timed_out(&[], 10, 1), Vec::<i32>::new());
    assert_eq!(timed_out(&[(7, 9000u128), (8, 0u128)], 6000, 5000), vec![8]);
}

#[test]
fn sessions_live_for_their_ttl() {
    let mut store = SessionStore::new_ttl(10);
    let id = {
        let (id, s) = store.get_or_create_at(None, 1000, "tok".to_string());
        assert_eq!(s.exp, 11000);
        assert_eq!(s.data.len(), 0);
        s.data.insert("user".to_string(), "ann".to_string());
        id
    };
    assert_eq!(id, "tok");
    {
        let (id2, s) = store.get_or_create_at(Some("tok"), 2000, "unused".to_string());
        assert_eq!(id2, "tok");
        assert_eq!(s.exp, 12000);
        assert_eq!(s.data.get("user"), Some("ann"));
    }
    store.touch_at("tok", 5000);
    store.gc_at(14999);
    {
        let (_, s) = store.get_or_create_at(Some("tok"), 15000, "x".to_string());
        assert_eq!(s.data.get("user"), Some("ann"));
    }
    store.gc_at(25000);
    let (_, s) = store.get_or_create_at(Some("tok"), 26000, "x".to_string());
    assert_eq!(s.data.len(), 0);
    assert_eq!(s.exp, 36000);
}

#[test]
fn cgi_output_becomes_a_response() {
    let r = cgi_response(b"Content-Type: text/html\r\nX-A:  b \r\n\r\n<p>hi</p>");
    assert_eq!((r.code, r.reason), (200, "OK"));
    assert_eq!(r.headers.get("Content-Type"), Some("text/html"));
    assert_eq!(r.headers.get("X-A"), Some("b"));
    assert_eq!(r.body, b"<p>hi</p>".to_vec());
    let r = cgi_response_from_text("no head at all");
    assert_eq!(r.headers.get("Content-Type"), Some("text/plain"));
    assert_eq!(r.body, b"no head at all".to_vec());
}

#[test]
fn cgi_output_that_is_not_utf8_is_replaced() {
    let r = cgi_response(b"ok\xff");
    assert_eq!(r.body, "ok\u{FFFD}".as_bytes().to_vec());
}

#[test]
fn cgi_environment() {
    assert_eq!(cgi_script_path("cgi-bin", "tools/run.py"), "cgi-bin/tools/run.py");
    let req = request(Method::POST, "/cgi/run.py", &[("content-type", "text/plain"), ("content-length", "3")], b"abc");
    let env = cgi_env(&req, "cgi-bin/run.py");
    assert_eq!(
        env,
        vec![
            ("REQUEST_METHOD".to_string(), "POST".to_string()),
            ("PATH_INFO".to_string(), "cgi-bin/run.py".to_string()),
            ("CONTENT_TYPE".to_string(), "text/plain".to_string()),
            ("CONTENT_LENGTH".to_string(), "3".to_string()),
        ]
    );
    let get = request(Method::GET, "/cgi/run.py", &[], b"");
    assert_eq!(cgi_env(&get, "p").len(), 2);
}

#[test]
fn sessions_on_the_clock() {
    let mut store = SessionStore::new_ttl(3600);
    let (id, s) = store.get_or_create(None);
    assert_eq!(id.len(), 24);
    assert!(id.chars().all(|c| c.is_ascii_digit() || ('a'..='f').contains(&c)));
    // Deadlines count from the store's creation on its monotonic clock.
    assert!(s.exp >= 3_600_000 && s.exp < 3_660_000);
    s.data.insert("k".to_string(), "v".to_string());
    store.touch(&id);
    store.gc();
    let (id2, s) = store.get_or_create(Some(&id));
    assert_eq!(id2, id);
    assert_eq!(s.data.get("k"), Some("v"));
}

#[test]
fn tokens_are_hex_of_the_asked_length() {
    let a = localhost::util::gen_token(24);
    let b = localhost::util::gen_token(40);
    assert_eq!(a.len(), 24);
    assert_eq!(b.len(), 40);
    assert!(b.chars().all(|c| c.is_ascii_hexdigit() && !c.is_ascii_uppercase()));
    assert_ne!(localhost::util::gen_token(24), localhost::util::gen_token(24));
    assert_eq!(localhost::util::gen_token(0), "");
}

#[test]
fn http_dates() {
    assert_eq!(http_date_of(0), "Thu, 01 Jan 1970 00:00:00 GMT");
    assert_eq!(http_date_of(784111777), "Sun, 06 Nov 1994 08:49:37 GMT");
    assert_eq!(http_date_of(951782400), "Tue, 29 Feb 2000 00:00:00 GMT");
    assert_eq!(http_date_of(1709251199), "Thu, 29 Feb 2024 23:59:59 GMT");
    assert_eq!(http_date_of(4102444800), "Fri, 01 Jan 2100 00:00:00 GMT");
    assert_eq!(http_date_of(253402300799), "Fri, 31 Dec 9999 23:59:59 GMT");
    let now = localhost::util::http_date_now();
    assert!(now.ends_with(" GMT"));
    assert_eq!(now.len(), 29);
    assert_eq!(localhost::util::http_date(std::time::UNIX_EPOCH), "Thu, 01 Jan 1970 00:00:00 GMT");
}

#[test]
fn sessions_with_no_time_to_live_are_collected() {
    let mut store = SessionStore::new_ttl(0);
    {
        let (id, s) = store.get_or_create(Some("a"));
        assert_eq!(id, "a");
        s.data.insert("k".to_string(), "v".to_string());
    }
    store.gc();
    let (_, s) = store.get_or_create(Some("a"));
    assert_eq!(s.data.len(), 0);
}

#[test]
fn token_digits_are_the_words_in_hex() {
    assert_eq!(localhost::util::token_digits(&[0x0123456789abcdef], 16), "fedcba9876543210");
    assert_eq!(localhost::util::token_digits(&[0x0123456789abcdef, 0x21], 18), "fedcba987654321012");
    assert_eq!(localhost::util::token_digits(&[0, 0], 3), "000");
}

#[test]
fn server_section_by_port() {
    let mut a = server(vec![route("/", "a")], 0);
    a.ports = vec![80, 81];
    let mut b = server(vec![route("/", "b")], 0);
    b.ports = vec![81];
    let cfg = localhost::config::Config { servers: vec![a, b], request_timeout_ms: 5000, epoll_max_events: 16 };
    assert_eq!(localhost::server::server_for_port(&cfg, 80).unwrap().routes[0].root, "a");
    assert_eq!(localhost::server::server_for_port(&cfg, 81).unwrap().routes[0].root, "b");
    assert!(localhost::server::server_for_port(&cfg, 82).is_none());
    let r = localhost::server::server_error();
    assert_eq!((r.code, r.reason), (500, "Internal Server Error"));
}
