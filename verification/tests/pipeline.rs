use hyper::header::HeaderValue;
use hyper::HeaderMap;
use sso_adapter::assoc::OrderedMap;
use sso_adapter::body::{convert_body, map_to_form_body, map_to_json_body, read_form_body, read_json_body};
use sso_adapter::config::{
    AppConfig, BodyConversion, MethodMapping, MixAction, MixMapping, MixSource, MixTarget,
    PathConfig, RequestMapConfig, ResponseMapConfig, ServiceType, Transformation, UseMode,
};
use sso_adapter::dispatch::{get_method, select_route, sse_selector_holds, target_url, Method, RuleSet};
use sso_adapter::egress::{finish_headers, headers_chunked};
use sso_adapter::json::Scalar;
use sso_adapter::pipeline::{
    check_config, check_rules, classify_response, prepare_request, rewrite_response,
    stream_headers, try_prepare_request, try_rewrite_response, Disposition, Forward, Inbound,
    Outcome,
};
use sso_adapter::rules::WorkingState;

fn s(text: &str) -> String {
    text.to_string()
}

fn settings(mode: UseMode) -> AppConfig {
    AppConfig {
        dify_url: s("http://dify.local:8000"),
        sso_url: Some(s("http://sso.local")),
        config_path: s("rules.yaml"),
        use_mode: mode,
        dify_host: Some(s("example.com")),
        self_host: s("adapter.local"),
    }
}

fn config(target_service: ServiceType) -> PathConfig {
    PathConfig {
        request: RequestMapConfig { target_service, method_mapping: None, body_conversion: None, mix_mappings: vec![] },
        response: ResponseMapConfig { method_mapping: None, body_conversion: None, mix_mappings: vec![] },
    }
}

fn rules(entries: Vec<(&str, PathConfig)>) -> RuleSet {
    OrderedMap { entries: entries.into_iter().map(|(k, v)| (s(k), v)).collect() }
}

fn headers(list: Vec<(&'static str, &'static str)>) -> HeaderMap {
    let mut map = HeaderMap::new();
    for (k, v) in list {
        map.append(k, HeaderValue::from_static(v));
    }
    map
}

fn inbound(method: Method, path: &str, query: Option<&str>, list: Vec<(&'static str, &'static str)>, body: &[u8]) -> Inbound {
    Inbound {
        method,
        path: s(path),
        query: query.map(s),
        host: Some(s("adapter.local")),
        scheme: Some(s("http")),
        headers: headers(list),
        body: body.to_vec(),
    }
}

fn forward(outcome: Result<Outcome, sso_adapter::body::Rejection>) -> Forward {
    match outcome {
        Ok(Outcome::Forward(f)) => f,
        other => panic!("expected a forward, got {:?}", other),
    }
}

fn header(map: &HeaderMap, name: &str) -> Option<String> {
    map.get(name).map(|v| v.to_str().unwrap().to_string())
}

#[test]
fn header_move_with_base64_decode() {
    let mut c = config(ServiceType::Dify);
    c.request.mix_mappings = vec![MixMapping {
        source: MixSource::Header(s("X-Token")),
        target: MixTarget::BodyField(s("auth.token")),
        action: MixAction::Move,
        transformations: Some(vec![Transformation::Base64Decode]),
    }];
    let rs = rules(vec![("/login", c)]);
    let req = inbound(Method::Post, "/login", None, vec![("x-token", "YWJj"), ("content-type", "application/json")], b"{}");
    let f = forward(prepare_request(&settings(UseMode::Normal), &rs, req));
    assert_eq!(f.method, Method::Post);
    assert_eq!(f.url, "http://dify.local:8000/login");
    assert_eq!(header(&f.headers, "x-token"), None);
    assert_eq!(f.body, br#"{"auth":{"token":"abc"}}"#.to_vec());
    assert_eq!(header(&f.headers, "content-type"), Some(s("application/json")));
    assert_eq!(header(&f.headers, "content-length"), Some(s("24")));
    assert_eq!(header(&f.headers, "host"), Some(s("dify.local")));
    assert!(!f.is_sse);
}

#[test]
fn method_flip() {
    let mut c = config(ServiceType::Dify);
    c.request.method_mapping = Some(MethodMapping::GetToPost);
    let rs = rules(vec![("/x", c)]);
    let req = inbound(Method::Get, "/x", Some("a=1"), vec![], b"");
    let f = forward(prepare_request(&settings(UseMode::Normal), &rs, req));
    assert_eq!(f.method, Method::Post);
    assert_eq!(f.url, "http://dify.local:8000/x?a=1");
    assert_eq!(f.body.len(), 0);
    assert_eq!(header(&f.headers, "content-length"), Some(s("0")));
}

#[test]
fn redirect_with_copied_query() {
    let mut c = config(ServiceType::Redirect(None));
    c.request.mix_mappings = vec![MixMapping {
        source: MixSource::Query(s("uid")),
        target: MixTarget::Query(s("user")),
        action: MixAction::Copy,
        transformations: None,
    }];
    let rs = rules(vec![("/go", c)]);
    let req = inbound(Method::Get, "/go", Some("uid=42"), vec![], b"");
    match prepare_request(&settings(UseMode::Normal), &rs, req) {
        Ok(Outcome::Redirect(location)) => assert_eq!(location, "http://sso.local/go?uid=42&user=42"),
        other => panic!("expected a redirect, got {:?}", other),
    }
}

#[test]
fn sse_passthrough() {
    let c = config(ServiceType::SSE(s("bodyfield-stream")));
    let rs = rules(vec![("/chat", c.clone())]);
    let req = inbound(Method::Post, "/chat", None, vec![("content-type", "application/json")], br#"{"stream":true,"q":"hi"}"#);
    let f = forward(prepare_request(&settings(UseMode::Normal), &rs, req));
    assert!(f.is_sse);
    assert_eq!(f.url, "http://sso.local/chat");
    assert_eq!(f.body, br#"{"q":"hi","stream":true}"#.to_vec());
    assert_eq!(classify_response(200, f.is_sse, &Some(&c)), Disposition::Stream);
    let mut upstream = headers(vec![("content-type", "text/plain")]);
    assert!(stream_headers(&mut upstream).is_ok());
    assert_eq!(header(&upstream, "content-type"), Some(s("text/event-stream")));
}

#[test]
fn sse_is_off_where_the_field_says_false() {
    let c = config(ServiceType::SSE(s("bodyfield-stream")));
    let rs = rules(vec![("/chat", c)]);
    let req = inbound(Method::Post, "/chat", None, vec![("content-type", "application/json")], br#"{"stream":false}"#);
    assert!(!forward(prepare_request(&settings(UseMode::Normal), &rs, req)).is_sse);
}

#[test]
fn form_to_json_request_and_json_to_form_response() {
    let mut c = config(ServiceType::Dify);
    c.request.body_conversion = Some(BodyConversion::FormToJson);
    c.response.body_conversion = Some(BodyConversion::JsonToForm);
    let rs = rules(vec![("/f", c.clone())]);
    let req = inbound(Method::Post, "/f", None, vec![("content-type", "application/x-www-form-urlencoded")], b"a=1&b=2");
    let f = forward(prepare_request(&settings(UseMode::Normal), &rs, req));
    assert_eq!(f.body, br#"{"a":"1","b":"2"}"#.to_vec());
    assert_eq!(header(&f.headers, "content-type"), Some(s("application/json")));
    assert_eq!(classify_response(200, false, &Some(&c)), Disposition::Rewrite);
    let reply = rewrite_response(&settings(UseMode::Normal), &c, headers(vec![("content-type", "application/json")]), br#"{"ok":true}"#.to_vec()).unwrap();
    assert_eq!(reply.body, b"ok=true".to_vec());
    assert_eq!(header(&reply.headers, "content-type"), Some(s("application/x-www-form-urlencoded")));
    assert_eq!(header(&reply.headers, "content-length"), Some(s("7")));
    assert_eq!(header(&reply.headers, "host"), Some(s("adapter.local")));
}

#[test]
fn unknown_path_in_proxy_mode_outbound() {
    let rs = rules(vec![]);
    let mut req = inbound(Method::Get, "/y", None, vec![("accept", "*/*")], b"");
    req.host = Some(s("other.com"));
    req.scheme = None;
    let f = forward(prepare_request(&settings(UseMode::Proxy), &rs, req));
    assert_eq!(f.method, Method::Get);
    assert_eq!(f.url, "https://other.com/y");
    assert_eq!(f.body.len(), 0);
    assert_eq!(header(&f.headers, "accept"), Some(s("*/*")));
    assert_eq!(header(&f.headers, "host"), None);
    assert_eq!(classify_response(200, f.is_sse, &None), Disposition::Verbatim);
}

#[test]
fn unknown_path_in_proxy_mode_keeps_the_scheme_of_the_request() {
    let rs = rules(vec![]);
    let mut req = inbound(Method::Get, "/y", None, vec![], b"");
    req.host = Some(s("other.com"));
    req.scheme = Some(s("http"));
    assert_eq!(forward(prepare_request(&settings(UseMode::Proxy), &rs, req)).url, "http://other.com/y");
}

#[test]
fn unknown_path_in_proxy_mode_inbound() {
    let rs = rules(vec![]);
    let mut req = inbound(Method::Get, "/v1/x", Some("k=v"), vec![], b"");
    req.host = Some(s("example.com"));
    assert_eq!(forward(prepare_request(&settings(UseMode::Proxy), &rs, req)).url, "http://dify.local:8000/v1/x?k=v");
}

#[test]
fn unknown_path_in_normal_mode_is_404() {
    let e = prepare_request(&settings(UseMode::Normal), &rules(vec![]), inbound(Method::Get, "/none", None, vec![], b"")).unwrap_err();
    assert_eq!(e.status, 404);
    assert_eq!(e.message, "Path /none not configured");
}

#[test]
fn routes_by_mode_and_service() {
    let st = settings(UseMode::Proxy);
    let rs = rules(vec![("/d", config(ServiceType::Dify)), ("/s", config(ServiceType::SSO))]);
    let host = Some(s("origin.example"));
    let (c, base) = select_route(&st, &rs, "/d", &host, &None).unwrap();
    assert!(c.is_some());
    assert_eq!(base, "http://dify.local:8000");
    let (_, base) = select_route(&st, &rs, "/s", &host, &None).unwrap();
    assert_eq!(base, "origin.example");
    let e = select_route(&st, &rs, "/s", &None, &None).unwrap_err();
    assert_eq!((e.status, e.message.as_str()), (400, "Host header missing"));
    let e = select_route(&st, &rs, "/zz", &None, &None).unwrap_err();
    assert_eq!(e.status, 400);
    let mut normal = settings(UseMode::Normal);
    let (_, base) = select_route(&normal, &rs, "/s", &host, &None).unwrap();
    assert_eq!(base, "http://sso.local");
    normal.sso_url = None;
    let e = select_route(&normal, &rs, "/s", &host, &None).unwrap_err();
    assert_eq!((e.status, e.message.as_str()), (500, "SSO URL not configured"));
    assert!(!normal.is_mode_complete());
    assert!(settings(UseMode::Normal).is_mode_complete());
    let mut proxy = settings(UseMode::Proxy);
    assert!(proxy.is_mode_complete());
    proxy.dify_host = None;
    assert!(!proxy.is_mode_complete());
}

#[test]
fn method_mapping_overrides_the_inbound_method() {
    let mut c = config(ServiceType::Dify);
    assert_eq!(get_method(&Some(&c), &Method::Put), Method::Put);
    c.request.method_mapping = Some(MethodMapping::PostToGet);
    assert_eq!(get_method(&Some(&c), &Method::Post), Method::Get);
    assert_eq!(get_method(&Some(&c), &Method::Other(s("DELETE"))), Method::Get);
    assert_eq!(get_method(&None, &Method::Other(s("DELETE"))), Method::Other(s("DELETE")));
}

#[test]
fn post_without_content_type_is_400() {
    let rs = rules(vec![("/p", config(ServiceType::Dify))]);
    let e = prepare_request(&settings(UseMode::Normal), &rs, inbound(Method::Post, "/p", None, vec![], b"{}")).unwrap_err();
    assert_eq!((e.status, e.message.as_str()), (400, "Missing Header: content-type"));
}

#[test]
fn body_that_is_no_json_is_400() {
    let rs = rules(vec![("/p", config(ServiceType::Dify))]);
    let req = inbound(Method::Put, "/p", None, vec![("content-type", "application/json")], b"{oops");
    assert_eq!(prepare_request(&settings(UseMode::Normal), &rs, req).unwrap_err().status, 400);
}

#[test]
fn body_with_an_array_of_scalars_is_500() {
    let rs = rules(vec![("/p", config(ServiceType::Dify))]);
    let req = inbound(Method::Post, "/p", None, vec![("content-type", "application/json")], br#"{"tags":["a"]}"#);
    assert_eq!(prepare_request(&settings(UseMode::Normal), &rs, req).unwrap_err().status, 500);
}

#[test]
fn body_of_another_type_passes_as_it_is() {
    let rs = rules(vec![("/p", config(ServiceType::Dify))]);
    let req = inbound(Method::Post, "/p", None, vec![("content-type", "text/csv"), ("accept-encoding", "gzip")], b"a,b\n1,2\n");
    let f = forward(prepare_request(&settings(UseMode::Normal), &rs, req));
    assert_eq!(f.body, b"a,b\n1,2\n".to_vec());
    assert_eq!(header(&f.headers, "content-type"), Some(s("text/csv")));
    assert_eq!(header(&f.headers, "content-length"), Some(s("8")));
    assert_eq!(header(&f.headers, "accept-encoding"), None);
}

#[test]
fn chunked_request_has_no_content_length() {
    let rs = rules(vec![("/p", config(ServiceType::Dify))]);
    let req = inbound(Method::Get, "/p", None, vec![("transfer-encoding", "gzip, chunked"), ("content-length", "5")], b"");
    let f = forward(prepare_request(&settings(UseMode::Normal), &rs, req));
    assert_eq!(header(&f.headers, "content-length"), None);
    assert!(headers_chunked(&f.headers));
}

#[test]
fn upstream_url_without_a_host_is_500() {
    let mut st = settings(UseMode::Normal);
    st.dify_url = s("not a url");
    let rs = rules(vec![("/p", config(ServiceType::Dify))]);
    assert_eq!(prepare_request(&st, &rs, inbound(Method::Get, "/p", None, vec![], b"")).unwrap_err().status, 500);
    st.dify_url = s("http://dify.local:8000/base");
    let f = forward(prepare_request(&st, &rs, inbound(Method::Get, "/p", None, vec![], b"")));
    assert_eq!(header(&f.headers, "host"), Some(s("dify.local")));
    st.dify_url = s("/only/a/path");
    assert_eq!(prepare_request(&st, &rs, inbound(Method::Get, "/p", None, vec![], b"")).unwrap_err().status, 500);
}

#[test]
fn target_url_has_a_query_only_where_there_is_one() {
    let q = OrderedMap { entries: vec![(s("a"), vec![s("1"), s("2")])] };
    assert_eq!(target_url("http://h", "/p", &q), "http://h/p?a=1&a=2");
    assert_eq!(target_url("http://h", "/p", &OrderedMap::new()), "http://h/p");
}

#[test]
fn sse_selectors_of_each_kind() {
    let state = WorkingState {
        headers: headers(vec![("x-stream", "true"), ("x-off", "false")]),
        query: OrderedMap { entries: vec![(s("stream"), vec![s("true")]), (s("two"), vec![s("true"), s("true")])] },
        body: OrderedMap { entries: vec![(s("stream"), Scalar::Bool(true)), (s("text"), Scalar::Str(s("true"))), (s("n"), Scalar::Number(s("1"))), (s("a-b"), Scalar::Bool(true))] },
    };
    assert!(sse_selector_holds("bodyfield-stream", &state));
    assert!(sse_selector_holds("BodyField-text", &state));
    assert!(sse_selector_holds("bodyfield-a-b", &state));
    assert!(!sse_selector_holds("bodyfield-n", &state));
    assert!(!sse_selector_holds("bodyfield-none", &state));
    assert!(sse_selector_holds("header-X-Stream", &state));
    assert!(!sse_selector_holds("header-x-off", &state));
    assert!(sse_selector_holds("query-stream", &state));
    assert!(!sse_selector_holds("query-two", &state));
    assert!(!sse_selector_holds("cookie-stream", &state));
    assert!(!sse_selector_holds("bodyfield", &state));
}

#[test]
fn answers_are_classified() {
    let mut c = config(ServiceType::Dify);
    assert_eq!(classify_response(302, true, &Some(&c)), Disposition::Redirect);
    assert_eq!(classify_response(399, false, &None), Disposition::Redirect);
    assert_eq!(classify_response(400, false, &Some(&c)), Disposition::Verbatim);
    assert_eq!(classify_response(200, false, &None), Disposition::Verbatim);
    c.response.mix_mappings = vec![MixMapping {
        source: MixSource::Header(s("x-a")),
        target: MixTarget::BodyField(s("a")),
        action: MixAction::Copy,
        transformations: None,
    }];
    assert_eq!(classify_response(200, false, &Some(&c)), Disposition::Rewrite);
}

#[test]
fn response_rules_move_between_headers_and_body() {
    let mut c = config(ServiceType::Dify);
    c.response.mix_mappings = vec![
        MixMapping { source: MixSource::BodyField(s("token")), target: MixTarget::Header(s("x-token")), action: MixAction::Move, transformations: None },
        MixMapping { source: MixSource::Header(s("x-request-id")), target: MixTarget::BodyField(s("meta.id")), action: MixAction::Copy, transformations: None },
        MixMapping { source: MixSource::Query(s("q")), target: MixTarget::BodyField(s("q")), action: MixAction::AddTarget(s("skipped")), transformations: None },
        MixMapping { source: MixSource::Header(s("x-request-id")), target: MixTarget::Query(s("q")), action: MixAction::Move, transformations: None },
    ];
    let up = headers(vec![("content-type", "application/json; charset=utf-8"), ("x-request-id", "r1")]);
    let reply = rewrite_response(&settings(UseMode::Proxy), &c, up, br#"{"token":"t","data":{"n":1}}"#.to_vec()).unwrap();
    assert_eq!(reply.body, br#"{"data":{"n":1},"meta":{"id":"r1"}}"#.to_vec());
    assert_eq!(header(&reply.headers, "x-token"), Some(s("t")));
    assert_eq!(header(&reply.headers, "x-request-id"), Some(s("r1")));
    assert_eq!(header(&reply.headers, "content-type"), Some(s("application/json")));
    assert_eq!(header(&reply.headers, "content-length"), Some(s("35")));
    assert_eq!(header(&reply.headers, "host"), None);
}

#[test]
fn response_without_content_type_is_400() {
    let mut c = config(ServiceType::Dify);
    c.response.body_conversion = Some(BodyConversion::FormToJson);
    let e = rewrite_response(&settings(UseMode::Proxy), &c, headers(vec![]), b"{}".to_vec()).unwrap_err();
    assert_eq!((e.status, e.message.as_str()), (400, "Missing Header: content-type"));
}

#[test]
fn response_of_plain_text_is_read_as_json() {
    let mut c = config(ServiceType::Dify);
    c.response.body_conversion = Some(BodyConversion::JsonToForm);
    let ok = rewrite_response(&settings(UseMode::Proxy), &c, headers(vec![("content-type", "text/plain")]), br#"{"a":"b c"}"#.to_vec()).unwrap();
    assert_eq!(ok.body, b"a=b+c".to_vec());
    let e = rewrite_response(&settings(UseMode::Proxy), &c, headers(vec![("content-type", "text/plain")]), b"hello".to_vec()).unwrap_err();
    assert_eq!(e.status, 400);
}

#[test]
fn chunked_response_has_no_content_length() {
    let mut c = config(ServiceType::Dify);
    c.response.body_conversion = Some(BodyConversion::FormToJson);
    let up = headers(vec![("content-type", "application/x-www-form-urlencoded"), ("transfer-encoding", "chunked"), ("content-length", "3")]);
    let reply = rewrite_response(&settings(UseMode::Proxy), &c, up, b"a=1".to_vec()).unwrap();
    assert_eq!(reply.body, br#"{"a":"1"}"#.to_vec());
    assert_eq!(header(&reply.headers, "content-length"), None);
}

#[test]
fn bodies_are_read_and_written() {
    let form = read_form_body(b"a=1&b=x+y&a=2").unwrap();
    assert_eq!(form.entries, vec![(s("a"), Scalar::Str(s("2"))), (s("b"), Scalar::Str(s("x y")))]);
    let json = read_json_body(br#"{"a":{"b":1.5},"c":null}"#).unwrap();
    assert_eq!(json.entries, vec![(s("a.b"), Scalar::Number(s("1.5"))), (s("c"), Scalar::Null)]);
    assert!(read_json_body(b"nope").is_none());
    assert_eq!(map_to_json_body(&json).unwrap(), (Some(s("application/json")), br#"{"a":{"b":1.5},"c":null}"#.to_vec()));
    assert_eq!(map_to_form_body(&form).unwrap(), (Some(s("application/x-www-form-urlencoded")), b"a=2&b=x+y".to_vec()));
    assert_eq!(map_to_form_body(&json).unwrap_err().status, 500);
    let numbers = OrderedMap { entries: vec![(s("n"), Scalar::Number(s("7"))), (s("t"), Scalar::Bool(false))] };
    assert_eq!(map_to_form_body(&numbers).unwrap().1, b"n=7&t=false".to_vec());
    let empty = OrderedMap::new();
    assert_eq!(convert_body(&empty, None, Some(s("text/csv")), b"raw".to_vec()).unwrap(), (Some(s("text/csv")), b"raw".to_vec()));
    assert_eq!(convert_body(&empty, Some(BodyConversion::FormToJson), None, b"raw".to_vec()).unwrap().1, b"{}".to_vec());
    assert_eq!(convert_body(&empty, Some(BodyConversion::JsonToForm), None, b"raw".to_vec()).unwrap().1, b"".to_vec());
    assert_eq!(convert_body(&form, None, None, b"raw".to_vec()).unwrap().1, br#"{"a":"2","b":"x y"}"#.to_vec());
}

#[test]
fn finishing_headers_sets_type_host_and_length() {
    let mut h = headers(vec![("accept-encoding", "gzip"), ("content-type", "a/b"), ("content-type", "c/d")]);
    assert!(finish_headers(&mut h, &Some(s("application/json")), &Some(s("up.local")), 12, true).is_ok());
    assert_eq!(h.get_all("content-type").iter().count(), 1);
    assert_eq!(header(&h, "content-type"), Some(s("application/json")));
    assert_eq!(header(&h, "host"), Some(s("up.local")));
    assert_eq!(header(&h, "content-length"), Some(s("12")));
    assert_eq!(header(&h, "accept-encoding"), None);
    let mut h = headers(vec![("accept-encoding", "gzip")]);
    assert!(finish_headers(&mut h, &None, &None, 0, false).is_ok());
    assert_eq!(header(&h, "accept-encoding"), Some(s("gzip")));
    assert_eq!(finish_headers(&mut h, &Some(s("bad\nvalue")), &None, 0, false).unwrap_err().status, 500);
}

#[test]
fn rules_with_reserved_transformations_are_refused() {
    let mut c = config(ServiceType::Dify);
    assert!(check_config(&c));
    c.response.mix_mappings = vec![MixMapping {
        source: MixSource::Header(s("x-a")),
        target: MixTarget::BodyField(s("a")),
        action: MixAction::Copy,
        transformations: Some(vec![Transformation::If]),
    }];
    assert!(!check_config(&c));
    assert!(!check_rules(&rules(vec![("/a", config(ServiceType::Dify)), ("/b", c)])));
    assert!(!check_rules(&rules(vec![("/a", config(ServiceType::Dify)), ("/a", config(ServiceType::SSO))])));
    assert!(check_rules(&rules(vec![("/a", config(ServiceType::Dify)), ("/b", config(ServiceType::SSO))])));
}

#[test]
fn the_checked_entry_points_refuse_rules_without_a_meaning() {
    let mut bad = config(ServiceType::Dify);
    bad.request.mix_mappings = vec![MixMapping {
        source: MixSource::Header(s("x-a")),
        target: MixTarget::BodyField(s("a")),
        action: MixAction::Copy,
        transformations: Some(vec![Transformation::Merge]),
    }];
    let rs = rules(vec![("/p", bad.clone())]);
    assert!(try_prepare_request(&settings(UseMode::Normal), &rs, inbound(Method::Get, "/p", None, vec![], b"")).is_none());
    assert!(try_rewrite_response(&settings(UseMode::Normal), &bad, headers(vec![]), vec![]).is_none());
    let good = config(ServiceType::Dify);
    let rs = rules(vec![("/p", good.clone())]);
    let f = forward(try_prepare_request(&settings(UseMode::Normal), &rs, inbound(Method::Get, "/p", None, vec![], b"")).unwrap());
    assert_eq!(f.url, "http://dify.local:8000/p");
    let e = try_rewrite_response(&settings(UseMode::Normal), &good, headers(vec![]), vec![]).unwrap().unwrap_err();
    assert_eq!(e.status, 400);
}
