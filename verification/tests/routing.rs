use localhost::config::{default_max_events, default_timeout, CgiCfg, Redirect, RouteCfg, ServerCfg};
use localhost::http::Method;
use localhost::router::{
    allow_method, dir_listing_html, guess_mime, index_candidates, join_strs, match_route, resolve_index,
    static_file, FileRead,
};
use localhost::strmap::StrMap;

fn route(path: &str, root: &str) -> RouteCfg {
    RouteCfg {
        path: path.to_string(),
        root: root.to_string(),
        index: Vec::new(),
        methods: Vec::new(),
        dir_listing: false,
        upload_enabled: false,
        redirect: None,
        cgi: None,
    }
}

fn server(routes: Vec<RouteCfg>) -> ServerCfg {
    ServerCfg {
        server_address: "127.0.0.1".to_string(),
        ports: vec![8080],
        server_name: Vec::new(),
        client_max_body_size: 0,
        error_pages: StrMap::new(),
        routes,
    }
}

#[test]
fn defaults_of_the_configuration() {
    assert_eq!(default_timeout(), 5000);
    assert_eq!(default_max_events(), 1024);
}

#[test]
fn longest_route_prefix_wins() {
    let s = server(vec![route("/", "www"), route("/static", "assets"), route("/static/img", "images")]);
    let m = match_route(&s, "/static/css/a.css").unwrap();
    assert_eq!(m.route.path, "/static");
    assert_eq!(m.local_path, "assets/css/a.css");
    let m = match_route(&s, "/static/img/logo.png").unwrap();
    assert_eq!(m.route.path, "/static/img");
    assert_eq!(m.local_path, "images/logo.png");
}

#[test]
fn route_matches_only_whole_segments() {
    let s = server(vec![route("/static", "assets")]);
    assert!(match_route(&s, "/staticfoo").is_none());
    let m = match_route(&s, "/static").unwrap();
    assert_eq!(m.local_path, "assets/");
}

#[test]
fn root_route_serves_every_path() {
    let s = server(vec![route("/", "www")]);
    let m = match_route(&s, "/").unwrap();
    assert_eq!(m.local_path, "www/");
    let m = match_route(&s, "/index.html").unwrap();
    assert_eq!(m.route.path, "/");
    assert_eq!(m.local_path, "www/index.html");
    let m = match_route(&s, "/a/b.txt").unwrap();
    assert_eq!(m.local_path, "www/a/b.txt");
    assert!(match_route(&s, "index.html").is_none());
}

#[test]
fn route_ending_in_slash_serves_below_it() {
    let s = server(vec![route("/", "www"), route("/docs/", "manual")]);
    let m = match_route(&s, "/docs/intro.html").unwrap();
    assert_eq!(m.route.root, "manual");
    assert_eq!(m.local_path, "manual/intro.html");
    let m = match_route(&s, "/docs").unwrap();
    assert_eq!(m.route.root, "www");
}

#[test]
fn first_of_equally_long_routes_wins() {
    let s = server(vec![route("/a", "first"), route("/a", "second")]);
    let m = match_route(&s, "/a/x").unwrap();
    assert_eq!(m.route.root, "first");
    assert_eq!(m.local_path, "first/x");
}

#[test]
fn path_join_follows_unix_rules() {
    assert_eq!(join_strs("www", "a/b"), "www/a/b");
    assert_eq!(join_strs("www/", "a"), "www/a");
    assert_eq!(join_strs("", "a"), "a");
    assert_eq!(join_strs("www", "/etc/x"), "/etc/x");
}

#[test]
fn methods_are_checked_against_the_list() {
    let mut r = route("/", "www");
    assert!(allow_method(&r, &Method::DELETE));
    r.methods = vec!["GET".to_string(), "POST".to_string()];
    assert!(allow_method(&r, &Method::GET));
    assert!(allow_method(&r, &Method::POST));
    assert!(!allow_method(&r, &Method::DELETE));
}

#[test]
fn first_existing_index_file_is_chosen() {
    let mut r = route("/", "www");
    r.index = vec!["index.html".to_string(), "index.htm".to_string()];
    let cands = index_candidates(&r, "www/docs");
    assert_eq!(cands, vec!["www/docs/index.html".to_string(), "www/docs/index.htm".to_string()]);
    assert_eq!(resolve_index(&r, "www/docs", &[false, true]), Some("www/docs/index.htm".to_string()));
    assert_eq!(resolve_index(&r, "www/docs", &[true, true]), Some("www/docs/index.html".to_string()));
    assert_eq!(resolve_index(&r, "www/docs", &[false, false]), None);
}

#[test]
fn mime_types_by_extension() {
    assert_eq!(guess_mime("www/index.html"), "text/html; charset=utf-8");
    assert_eq!(guess_mime("a/b.css"), "text/css");
    assert_eq!(guess_mime("a/b.JS"), "application/octet-stream");
    assert_eq!(guess_mime("a/b.js"), "application/javascript");
    assert_eq!(guess_mime("pic.jpeg"), "image/jpeg");
    assert_eq!(guess_mime("a/.hidden"), "application/octet-stream");
    assert_eq!(guess_mime("a/noext"), "application/octet-stream");
    assert_eq!(guess_mime("a/b.txt/"), "text/plain; charset=utf-8");
    assert_eq!(guess_mime("a/b.png/."), "image/png");
}

#[test]
fn static_file_responses() {
    let r = static_file("www/a.css", FileRead::Bytes(b"body{}".to_vec()));
    assert_eq!(r.code, 200);
    assert_eq!(r.reason, "OK");
    assert_eq!(r.headers.get("Content-Type"), Some("text/css"));
    assert_eq!(r.body, b"body{}".to_vec());
    let r = static_file("www/missing", FileRead::NotFound);
    assert_eq!(r.code, 404);
    assert_eq!(r.reason, "Not Found");
    assert!(r.body.is_empty());
    let r = static_file("www/secret", FileRead::Failed);
    assert_eq!(r.code, 403);
    assert_eq!(r.reason, "Forbidden");
}

#[test]
fn directory_listing_page() {
    let r = dir_listing_html("/files", Some(vec![("a.txt".to_string(), false), ("sub".to_string(), true)]));
    assert_eq!(r.code, 200);
    assert_eq!(r.headers.get("Content-Type"), Some("text/html; charset=utf-8"));
    let expected = "<html><body><h1>Index of /files</h1><ul>\
<li><a href=\"a.txt\">a.txt</a></li><li><a href=\"sub/\">sub/</a></li></ul></body></html>";
    assert_eq!(String::from_utf8(r.body).unwrap(), expected);
    let r = dir_listing_html("/files", None);
    assert_eq!(r.code, 403);
    assert!(r.body.is_empty());
}

#[test]
fn config_types_hold_their_values() {
    let r = RouteCfg {
        redirect: Some(Redirect { status: 301, to: "/new".to_string() }),
        cgi: Some(CgiCfg { ext: ".py".to_string(), runner: "python3".to_string() }),
        ..route("/old", "www")
    };
    assert_eq!(r.redirect.as_ref().unwrap().status, 301);
    assert_eq!(r.cgi.as_ref().unwrap().ext, ".py");
}
