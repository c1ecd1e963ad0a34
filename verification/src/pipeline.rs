//! The forwarding pipeline: what goes upstream for a request, and what goes
//! back for an answer.

use crate::assoc::OrderedMap;
use crate::body::{
    convert_body, converted, form_body_map, form_type, json_body_map, json_type, read_form_body,
    read_json_body, BodyModel, Rejection,
};
use crate::config::{AppConfig, BodyConversion, MixMapping, PathConfig, ServiceType, UseMode};
use crate::dispatch::{
    config_of, get_method, is_sse_request, is_sse_spec, method_spec, route_spec, select_route,
    target_url, target_url_spec, Method, Route, RuleSet,
};
use crate::egress::{egress_headers, finish_headers, host_of_url, lemma_egress_headers, uri_host};
use crate::flat::{FlatMap, FlatModel};
use crate::egress::set_text_header;
use crate::headers::{
    bytes_to_text, first_value, has_room, header_get, header_values, more_by, text_as_bytes,
    text_value, value_text, with_value, HeaderModel,
};
use crate::query::{grouped, form_pairs, query_to_multimap, MultimapModel, QueryMultimap};
use crate::rules::{
    apply_mapping, apply_mappings, mapping_spec, mapping_supported, mappings_spec,
    mappings_supported, writes_header, RuleError, StateModel, WorkingState,
};
use crate::text::{decimal, is_prefix, starts_with, str_eq};
use vstd::prelude::*;

verus! {

/// A request as it came in, in plain values.
#[derive(Debug)]
pub struct Inbound {
    pub method: Method,
    pub path: String,
    pub query: Option<String>,
    /// The host of the request URI.
    pub host: Option<String>,
    /// The scheme of the request URI.
    pub scheme: Option<String>,
    pub headers: hyper::HeaderMap,
    pub body: Vec<u8>,
}

/// A request that goes upstream.
#[derive(Debug)]
pub struct Forward {
    pub method: Method,
    pub url: String,
    pub headers: hyper::HeaderMap,
    pub body: Vec<u8>,
    /// The answer is streamed to the client as it comes.
    pub is_sse: bool,
}

/// What is done with a request.
#[derive(Debug)]
pub enum Outcome {
    /// Answer 302 with this `Location` and an empty body; nothing goes
    /// upstream.
    Redirect(String),
    Forward(Forward),
}

/// What a [`Forward`] holds.
pub struct ForwardModel {
    pub method: Method,
    pub url: Seq<char>,
    pub headers: HeaderModel,
    pub body: Seq<u8>,
    pub is_sse: bool,
}

/// What an [`Outcome`] holds.
pub enum OutcomeModel {
    Redirect(Seq<char>),
    Forward(ForwardModel),
}

impl View for Outcome {
    type V = OutcomeModel;

    open spec fn view(&self) -> OutcomeModel {
        match self {
            Outcome::Redirect(location) => OutcomeModel::Redirect(location@),
            Outcome::Forward(f) => OutcomeModel::Forward(
                ForwardModel {
                    method: f.method,
                    url: f.url@,
                    headers: header_values(f.headers),
                    body: f.body@,
                    is_sse: f.is_sse,
                },
            ),
        }
    }
}

/// The rules of every path have only transformations with a defined meaning.
pub open spec fn config_supported(config: PathConfig) -> bool {
    mappings_supported(config.request.mix_mappings@) && mappings_supported(
        config.response.mix_mappings@,
    )
}

pub open spec fn rules_supported(rules: Seq<(Seq<char>, PathConfig)>) -> bool {
    forall|i: int| 0 <= i < rules.len() ==> config_supported((#[trigger] rules[i]).1)
}

/// The content type that decides how a request body is read: the header of a
/// `POST` or `PUT`, which must be there; none for another method.
pub open spec fn request_content_type(method: Method, h: HeaderModel) -> Result<
    Option<Seq<u8>>,
    u16,
> {
    if method is Post || method is Put {
        match first_value(h, "content-type"@) {
            Some(value) => Ok(Some(value)),
            None => Err(400u16),
        }
    } else {
        Ok(None)
    }
}

/// A header value as text, where there is a value and it is text.
pub open spec fn optional_text(value: Option<Seq<u8>>) -> Option<Seq<char>> {
    match value {
        Some(bytes) => value_text(bytes),
        None => None,
    }
}

/// The flat map of a request body: read as JSON or as a form where the content
/// type is exactly that, empty for any other; 400 where the body cannot be
/// read.
pub open spec fn request_body_map(content_type: Option<Seq<char>>, body: Seq<u8>) -> Result<
    FlatModel,
    u16,
> {
    if content_type == Some(json_type()) {
        match json_body_map(body) {
            Some(map) => Ok(map),
            None => Err(400u16),
        }
    } else if content_type == Some(form_type()) {
        match form_body_map(body) {
            Some(map) => Ok(map),
            None => Err(400u16),
        }
    } else {
        Ok(Seq::empty())
    }
}

/// The query of a request as a multimap.
pub open spec fn request_query(query: Option<Seq<char>>) -> MultimapModel {
    match query {
        Some(q) => grouped(form_pairs(q)),
        None => Seq::empty(),
    }
}

/// The status that a failed rule is answered with.
pub open spec fn rule_status(e: RuleError) -> u16 {
    match e {
        RuleError::HeaderNotText => 500,
        RuleError::HeaderRejected => 500,
    }
}

/// The state after the request rules of a path; the state itself where the
/// path has no rules.
pub open spec fn rewritten(s: StateModel, config: Option<PathConfig>) -> Result<StateModel, u16> {
    match config {
        Some(c) => match mappings_spec(s, c.request.mix_mappings@, c.request.mix_mappings@.len()) {
            Ok(after) => Ok(after),
            Err(e) => Err(rule_status(e)),
        },
        None => Ok(s),
    }
}

/// The request rules of a path; none where the path has no rules.
pub open spec fn request_rules(rules: Seq<(Seq<char>, PathConfig)>, path: Seq<char>) -> Seq<
    MixMapping,
> {
    match crate::assoc::lookup(rules, path) {
        Some(c) => c.request.mix_mappings@,
        None => Seq::empty(),
    }
}

/// The rules answer with a redirect.
pub open spec fn redirects(config: Option<PathConfig>) -> bool {
    match config {
        Some(c) => c.request.target_service is Redirect,
        None => false,
    }
}

/// The body conversion of the request side.
pub open spec fn request_conversion(config: Option<PathConfig>) -> Option<BodyConversion> {
    match config {
        Some(c) => c.request.body_conversion,
        None => None,
    }
}

/// The `Host` that goes upstream: in normal mode the host of the base URL,
/// which must have one; in proxy mode the header is left alone.
pub open spec fn upstream_host(settings: AppConfig, base_url: Seq<char>) -> Result<
    Option<Seq<char>>,
    u16,
> {
    match settings.use_mode {
        UseMode::Normal => match uri_host(base_url) {
            Some(h) => Ok(Some(h)),
            None => Err(500u16),
        },
        UseMode::Proxy => Ok(None),
    }
}

/// What is done with a request whose route is known.
pub open spec fn routed_request(
    settings: AppConfig,
    route: Route,
    method: Method,
    path: Seq<char>,
    query: Option<Seq<char>>,
    headers: HeaderModel,
    body: Seq<u8>,
) -> Result<OutcomeModel, u16> {
    match request_content_type(method, headers) {
        Err(status) => Err(status),
        Ok(content_type) => match request_body_map(optional_text(content_type), body) {
            Err(status) => Err(status),
            Ok(map) => match rewritten(
                StateModel { headers, query: request_query(query), body: map },
                route.config,
            ) {
                Err(status) => Err(status),
                Ok(state) => {
                    let url = target_url_spec(route.base_url, path, state.query);
                    if redirects(route.config) {
                        Ok(OutcomeModel::Redirect(url))
                    } else {
                        match converted(
                            state.body,
                            request_conversion(route.config),
                            BodyModel {
                                content_type: optional_text(first_value(headers, "content-type"@)),
                                bytes: body,
                            },
                        ) {
                            None => Err(500u16),
                            Some(out) => match upstream_host(settings, route.base_url) {
                                Err(status) => Err(status),
                                Ok(host) => match egress_headers(
                                    state.headers,
                                    out.content_type,
                                    host,
                                    out.bytes.len(),
                                    true,
                                ) {
                                    None => Err(500u16),
                                    Some(h) => Ok(
                                        OutcomeModel::Forward(
                                            ForwardModel {
                                                method: method_spec(route.config, method),
                                                url,
                                                headers: h,
                                                body: out.bytes,
                                                is_sse: is_sse_spec(
                                                    route.config,
                                                    StateModel {
                                                        headers: h,
                                                        query: state.query,
                                                        body: state.body,
                                                    },
                                                ),
                                            },
                                        ),
                                    ),
                                },
                            },
                        }
                    }
                },
            },
        },
    }
}

/// What is done with a request.
pub open spec fn request_spec(
    settings: AppConfig,
    rules: Seq<(Seq<char>, PathConfig)>,
    method: Method,
    path: Seq<char>,
    query: Option<Seq<char>>,
    host: Option<Seq<char>>,
    scheme: Option<Seq<char>>,
    headers: HeaderModel,
    body: Seq<u8>,
) -> Result<OutcomeModel, u16> {
    match route_spec(settings, rules, path, host, scheme) {
        Err(e) => Err(e.status),
        Ok(route) => routed_request(settings, route, method, path, query, headers, body),
    }
}

/// Reads the body of a request into a flat map, as its content type says.
pub fn read_request_body(content_type: &Option<String>, body: &[u8]) -> (r: Result<
    FlatMap,
    Rejection,
>)
    ensures
        match r {
            Ok(map) => request_body_map(content_type.deep_view(), body@) == Ok::<FlatModel, u16>(
                map@,
            ) && map.wf(),
            Err(e) => request_body_map(content_type.deep_view(), body@) == Err::<FlatModel, u16>(
                e.status,
            ),
        },
{
    let is_json = match content_type {
        Some(t) => str_eq(t.as_str(), "application/json"),
        None => false,
    };
    let is_form = match content_type {
        Some(t) => str_eq(t.as_str(), "application/x-www-form-urlencoded"),
        None => false,
    };
    if is_json {
        match read_json_body(body) {
            Some(map) => Ok(map),
            None => Err(Rejection { status: 400, message: "JSON parse error".to_owned() }),
        }
    } else if is_form {
        match read_form_body(body) {
            Some(map) => Ok(map),
            None => Err(Rejection { status: 400, message: "Form parse error".to_owned() }),
        }
    } else {
        Ok(OrderedMap::new())
    }
}

/// The text of a header, where the header is there and is text.
pub fn header_text(headers: &hyper::HeaderMap, name: &str) -> (r: Option<String>)
    ensures
        r.deep_view() == optional_text(first_value(header_values(*headers), name@)),
{
    match header_get(headers, name) {
        Some(bytes) => bytes_to_text(&bytes),
        None => None,
    }
}

/// The answer to a rule that failed.
pub fn rule_rejection(e: RuleError) -> (r: Rejection)
    ensures
        r.status == rule_status(e),
{
    match e {
        RuleError::HeaderNotText => Rejection {
            status: 500,
            message: "A header that a rule reads is no text".to_owned(),
        },
        RuleError::HeaderRejected => Rejection {
            status: 500,
            message: "A header that a rule writes was not accepted".to_owned(),
        },
    }
}

/// Decides what is done with a request: which upstream it goes to, and with
/// which method, URL, headers and body; or that it is answered at once.
///
/// `Ok` with the outcome that [`request_spec`] describes. An error carries the
/// status that [`request_spec`] gives. Where [`request_spec`] gives none, the
/// header map did not take a value and the status is 500; that does not happen
/// while the map has room for one name for each rule of the path and three
/// more, nor for a redirect whose rules write no header. For a request that
/// goes upstream, `Accept-Encoding` is not among its headers, and
/// `Content-Length` says the length of its body unless the body is sent in
/// chunks, in which case there is no `Content-Length`.
pub fn prepare_request(settings: &AppConfig, rules: &RuleSet, inbound: Inbound) -> (r: Result<
    Outcome,
    Rejection,
>)
    requires
        rules.wf(),
        rules_supported(rules@),
    ensures
        r matches Ok(outcome) ==> request_spec(
            *settings,
            rules@,
            inbound.method,
            inbound.path@,
            inbound.query.deep_view(),
            inbound.host.deep_view(),
            inbound.scheme.deep_view(),
            header_values(inbound.headers),
            inbound.body@,
        ) == Ok::<OutcomeModel, u16>(outcome@),
        r matches Err(e) ==> match request_spec(
            *settings,
            rules@,
            inbound.method,
            inbound.path@,
            inbound.query.deep_view(),
            inbound.host.deep_view(),
            inbound.scheme.deep_view(),
            header_values(inbound.headers),
            inbound.body@,
        ) {
            Err(status) => e.status == status,
            Ok(outcome) => {
                &&& e.status == 500
                &&& !has_room(
                    header_values(inbound.headers),
                    request_rules(rules@, inbound.path@).len() + 3,
                )
                &&& outcome is Redirect ==> writes_header(request_rules(rules@, inbound.path@))
            },
        },
        r matches Ok(Outcome::Forward(f)) ==> {
            &&& first_value(header_values(f.headers), "accept-encoding"@) is None
            &&& crate::egress::is_chunked(header_values(f.headers)) ==> first_value(
                header_values(f.headers),
                "content-length"@,
            ) is None
            &&& !crate::egress::is_chunked(header_values(f.headers)) ==> first_value(
                header_values(f.headers),
                "content-length"@,
            ) == Some(text_as_bytes(decimal(f.body@.len())))
        },
{
    let Inbound { method, path, query, host, scheme, headers, body } = inbound;
    let (config, base_url) = match select_route(settings, rules, path.as_str(), &host, &scheme) {
        Ok(found) => found,
        Err(e) => {
            return Err(e);
        },
    };
    proof {
        match config {
            Some(c) => {
                crate::assoc::lemma_key_index(rules@, path@);
                assert(config_supported(*c));
            },
            None => {},
        }
    }
    let target_method = get_method(&config, &method);
    let query_map: QueryMultimap = match &query {
        Some(q) => query_to_multimap(q.as_str()),
        None => OrderedMap::new(),
    };
    let needs_type = match method {
        Method::Post => true,
        Method::Put => true,
        _ => false,
    };
    let original_type = header_text(&headers, "content-type");
    let content_type = if needs_type {
        match header_get(&headers, "content-type") {
            Some(value) => bytes_to_text(&value),
            None => {
                return Err(
                    Rejection { status: 400, message: "Missing Header: content-type".to_owned() },
                );
            },
        }
    } else {
        None
    };
    let map = match read_request_body(&content_type, body.as_slice()) {
        Ok(map) => map,
        Err(e) => {
            return Err(e);
        },
    };
    let mut state = WorkingState { headers, query: query_map, body: map };
    match config {
        Some(c) => match apply_mappings(&mut state, &c.request.mix_mappings) {
            Ok(()) => {},
            Err(e) => {
                return Err(rule_rejection(e));
            },
        },
        None => {},
    }
    let url = target_url(base_url.as_str(), path.as_str(), &state.query);
    let redirect = match config {
        Some(c) => match c.request.target_service {
            ServiceType::Redirect(_) => true,
            _ => false,
        },
        None => false,
    };
    if redirect {
        return Ok(Outcome::Redirect(url));
    }
    let conversion = match config {
        Some(c) => c.request.body_conversion,
        None => None,
    };
    let (out_type, out_body) = match convert_body(&state.body, conversion, original_type, body) {
        Ok(out) => out,
        Err(e) => {
            return Err(e);
        },
    };
    let upstream = match settings.use_mode {
        UseMode::Normal => match host_of_url(base_url.as_str()) {
            Some(h) => Some(h),
            None => {
                return Err(
                    Rejection { status: 500, message: "Upstream URL has no host".to_owned() },
                );
            },
        },
        UseMode::Proxy => None,
    };
    let ghost before = header_values(state.headers);
    match finish_headers(&mut state.headers, &out_type, &upstream, out_body.len(), true) {
        Ok(()) => {},
        Err(e) => {
            return Err(e);
        },
    }
    proof {
        lemma_egress_headers(
            before,
            out_type.deep_view(),
            upstream.deep_view(),
            out_body@.len(),
            true,
        );
    }
    let is_sse = is_sse_request(&config, &state);
    Ok(
        Outcome::Forward(
            Forward {
                method: target_method,
                url,
                headers: state.headers,
                body: out_body,
                is_sse,
            },
        ),
    )
}


/// What is done with an answer from upstream.
#[derive(Debug, Clone, Copy, PartialEq, Eq, Structural)]
pub enum Disposition {
    /// A 3xx: status and headers go back as they are, with an empty body.
    Redirect,
    /// The body is streamed back chunk by chunk, as an event stream.
    Stream,
    /// Status, headers and body go back as they are.
    Verbatim,
    /// The answer is rewritten by the response rules.
    Rewrite,
}

/// Nothing is to be rewritten in the answers of this path: it has no rules, or
/// its response side has neither rules nor a body conversion.
pub open spec fn passes_verbatim(config: Option<PathConfig>) -> bool {
    match config {
        Some(c) => c.response.mix_mappings@.len() == 0 && c.response.body_conversion is None,
        None => true,
    }
}

/// What is done with an answer: a redirect is passed on; else a streamed
/// exchange is streamed; else the answer is passed on or rewritten.
pub open spec fn disposition_spec(status: u16, is_sse: bool, config: Option<PathConfig>)
    -> Disposition {
    if 300 <= status < 400 {
        Disposition::Redirect
    } else if is_sse {
        Disposition::Stream
    } else if passes_verbatim(config) {
        Disposition::Verbatim
    } else {
        Disposition::Rewrite
    }
}

/// Decides what is done with an answer from upstream.
pub fn classify_response(status: u16, is_sse: bool, config: &Option<&PathConfig>) -> (d:
    Disposition)
    ensures
        d == disposition_spec(status, is_sse, config_of(*config)),
{
    if 300 <= status && status < 400 {
        Disposition::Redirect
    } else if is_sse {
        Disposition::Stream
    } else {
        let verbatim = match config {
            Some(c) => c.response.mix_mappings.len() == 0 && c.response.body_conversion.is_none(),
            None => true,
        };
        if verbatim {
            Disposition::Verbatim
        } else {
            Disposition::Rewrite
        }
    }
}

/// `text/event-stream` can stand in a header as it is written.
pub proof fn lemma_event_stream_text()
    ensures
        text_value("text/event-stream"@) == Some(text_as_bytes("text/event-stream"@)),
{
    reveal_strlit("text/event-stream");
    let t = "text/event-stream"@;
    assert(t =~= seq![
        't',
        'e',
        'x',
        't',
        '/',
        'e',
        'v',
        'e',
        'n',
        't',
        '-',
        's',
        't',
        'r',
        'e',
        'a',
        'm',
    ]);
    assert forall|i: int| 0 <= i < t.len() implies crate::headers::is_text_char(
        #[trigger] t[i],
    ) by {}
    crate::headers::lemma_text_value_text(t);
}

/// Marks the headers of a streamed answer: `Content-Type` becomes
/// `text/event-stream`. Status 500 where the header map does not take it,
/// which does not happen while the map has room for one name.
pub fn stream_headers(headers: &mut hyper::HeaderMap) -> (r: Result<(), Rejection>)
    ensures
        r is Ok ==> first_value(header_values(*final(headers)), "content-type"@) == Some(
            text_as_bytes("text/event-stream"@),
        ),
        r is Ok ==> header_values(*final(headers)) == with_value(
            header_values(*old(headers)),
            "content-type"@,
            text_as_bytes("text/event-stream"@),
        ),
        r matches Err(e) ==> e.status == 500 && !has_room(header_values(*old(headers)), 1),
{
    proof {
        lemma_event_stream_text();
        crate::egress::lemma_own_names();
    }
    if set_text_header(headers, "content-type", "text/event-stream") {
        Ok(())
    } else {
        Err(Rejection { status: 500, message: "Content-Type was not accepted".to_owned() })
    }
}

/// The flat map of a response body: read as JSON where the content type
/// starts with that of JSON or with `text/plain`, as a form where it starts
/// with that of a form, empty for any other; 400 where the body cannot be
/// read.
pub open spec fn response_body_map(content_type: Option<Seq<char>>, body: Seq<u8>) -> Result<
    FlatModel,
    u16,
> {
    match content_type {
        Some(t) => if is_prefix(json_type(), t) || is_prefix("text/plain"@, t) {
            match json_body_map(body) {
                Some(map) => Ok(map),
                None => Err(400u16),
            }
        } else if is_prefix(form_type(), t) {
            match form_body_map(body) {
                Some(map) => Ok(map),
                None => Err(400u16),
            }
        } else {
            Ok(Seq::empty())
        },
        None => Ok(Seq::empty()),
    }
}

/// A rule that the response side applies: it neither reads nor writes a
/// query.
pub open spec fn response_rule(m: MixMapping) -> bool {
    !(m.source is Query) && !(m.target is Query)
}

/// The state after the first `n` rules of the response side; a rule that
/// names a query is passed over.
pub open spec fn response_mappings(s: StateModel, rules: Seq<MixMapping>, n: nat) -> Result<
    StateModel,
    RuleError,
>
    decreases n,
{
    if n == 0 || n > rules.len() {
        Ok(s)
    } else {
        match response_mappings(s, rules, (n - 1) as nat) {
            Ok(before) => if response_rule(rules[n - 1]) {
                mapping_spec(before, rules[n - 1])
            } else {
                Ok(before)
            },
            Err(e) => Err(e),
        }
    }
}

/// What goes back to the client.
#[derive(Debug)]
pub struct Reply {
    pub headers: hyper::HeaderMap,
    pub body: Vec<u8>,
}

/// What a [`Reply`] holds.
pub struct ReplyModel {
    pub headers: HeaderModel,
    pub body: Seq<u8>,
}

impl View for Reply {
    type V = ReplyModel;

    open spec fn view(&self) -> ReplyModel {
        ReplyModel { headers: header_values(self.headers), body: self.body@ }
    }
}

/// The `Host` of an answer: the own host in normal mode, left alone in proxy
/// mode.
pub open spec fn reply_host(settings: AppConfig) -> Option<Seq<char>> {
    match settings.use_mode {
        UseMode::Normal => Some(settings.self_host@),
        UseMode::Proxy => None,
    }
}

/// The rewritten answer.
///
/// The answer must name its content type (400 else). Its body is read into a
/// flat map, the response rules run on headers and map, the map is written as
/// the body conversion says, and the headers are made to describe the new
/// body.
pub open spec fn response_spec(
    settings: AppConfig,
    config: PathConfig,
    headers: HeaderModel,
    body: Seq<u8>,
) -> Result<ReplyModel, u16> {
    match first_value(headers, "content-type"@) {
        None => Err(400u16),
        Some(value) => match response_body_map(value_text(value), body) {
            Err(status) => Err(status),
            Ok(map) => match response_mappings(
                StateModel { headers, query: Seq::empty(), body: map },
                config.response.mix_mappings@,
                config.response.mix_mappings@.len(),
            ) {
                Err(e) => Err(rule_status(e)),
                Ok(state) => match converted(
                    state.body,
                    config.response.body_conversion,
                    BodyModel { content_type: value_text(value), bytes: body },
                ) {
                    None => Err(500u16),
                    Some(out) => match egress_headers(
                        state.headers,
                        out.content_type,
                        reply_host(settings),
                        out.bytes.len(),
                        false,
                    ) {
                        None => Err(500u16),
                        Some(h) => Ok(ReplyModel { headers: h, body: out.bytes }),
                    },
                },
            },
        },
    }
}

/// Reads the body of an answer into a flat map, as its content type says.
pub fn read_response_body(content_type: &Option<String>, body: &[u8]) -> (r: Result<
    FlatMap,
    Rejection,
>)
    ensures
        match r {
            Ok(map) => response_body_map(content_type.deep_view(), body@) == Ok::<FlatModel, u16>(
                map@,
            ) && map.wf(),
            Err(e) => response_body_map(content_type.deep_view(), body@) == Err::<FlatModel, u16>(
                e.status,
            ),
        },
{
    let t = match content_type {
        Some(t) => t,
        None => {
            return Ok(OrderedMap::new());
        },
    };
    if starts_with(t.as_str(), "application/json") || starts_with(t.as_str(), "text/plain") {
        match read_json_body(body) {
            Some(map) => Ok(map),
            None => Err(Rejection { status: 400, message: "JSON parse error".to_owned() }),
        }
    } else if starts_with(t.as_str(), "application/x-www-form-urlencoded") {
        match read_form_body(body) {
            Some(map) => Ok(map),
            None => Err(Rejection { status: 400, message: "Form parse error".to_owned() }),
        }
    } else {
        Ok(OrderedMap::new())
    }
}

/// Applies the rules of the response side in their order; a rule that names a
/// query is passed over.
pub fn apply_response_mappings(state: &mut WorkingState, rules: &Vec<MixMapping>) -> (r: Result<
    (),
    RuleError,
>)
    requires
        mappings_supported(rules@),
    ensures
        r is Ok ==> response_mappings(old(state)@, rules@, rules@.len()) == Ok::<
            StateModel,
            RuleError,
        >(final(state)@),
        r matches Err(e) ==> response_mappings(old(state)@, rules@, rules@.len()) == Err::<
            StateModel,
            RuleError,
        >(e) || (e == RuleError::HeaderRejected && writes_header(rules@) && !has_room(
            old(state)@.headers,
            rules@.len(),
        )),
        r is Ok ==> more_by(old(state)@.headers, final(state)@.headers, rules@.len()),
        old(state).wf() ==> final(state).wf(),
{
    let mut i: usize = 0;
    while i < rules.len()
        invariant
            i <= rules.len(),
            mappings_supported(rules@),
            response_mappings(old(state)@, rules@, i as nat) == Ok::<StateModel, RuleError>(
                state@,
            ),
            more_by(old(state)@.headers, state@.headers, i as nat),
            old(state).wf() ==> state.wf(),
        decreases rules.len() - i,
    {
        let applies = match (&rules[i].source, &rules[i].target) {
            (crate::config::MixSource::Query(_), _) => false,
            (_, crate::config::MixTarget::Query(_)) => false,
            _ => true,
        };
        if applies {
            let ghost before = state@;
            match apply_mapping(state, &rules[i]) {
                Ok(()) => {},
                Err(e) => {
                    proof {
                        if mapping_spec(before, rules@[i as int]) is Err {
                            lemma_response_error_stays(
                                old(state)@,
                                rules@,
                                (i + 1) as nat,
                                rules@.len(),
                            );
                        }
                    }
                    return Err(e);
                },
            }
        }
        i += 1;
    }
    Ok(())
}

/// Once the response rules have failed, more rules do not mend it.
pub proof fn lemma_response_error_stays(s: StateModel, rules: Seq<MixMapping>, n: nat, k: nat)
    requires
        n <= k <= rules.len(),
        response_mappings(s, rules, n) is Err,
    ensures
        response_mappings(s, rules, k) == response_mappings(s, rules, n),
    decreases k - n,
{
    if n < k {
        lemma_response_error_stays(s, rules, n, (k - 1) as nat);
    }
}

/// Rewrites an answer from upstream by the response rules of its path.
///
/// `Ok` with the answer that [`response_spec`] describes. An error carries the
/// status that [`response_spec`] gives. Where [`response_spec`] gives none,
/// the header map did not take a value and the status is 500; that does not
/// happen while the map has room for one name for each rule and three more. In the answer,
/// `Content-Length` says the length of the body unless the body is sent in
/// chunks, in which case there is no `Content-Length`.
pub fn rewrite_response(
    settings: &AppConfig,
    config: &PathConfig,
    headers: hyper::HeaderMap,
    body: Vec<u8>,
) -> (r: Result<Reply, Rejection>)
    requires
        config_supported(*config),
    ensures
        r matches Ok(reply) ==> response_spec(*settings, *config, header_values(headers), body@)
            == Ok::<ReplyModel, u16>(reply@),
        r matches Err(e) ==> match response_spec(*settings, *config, header_values(headers), body@) {
            Err(status) => e.status == status,
            Ok(_) => e.status == 500 && !has_room(
                header_values(headers),
                config.response.mix_mappings@.len() + 3,
            ),
        },
        r matches Ok(reply) ==> {
            &&& crate::egress::is_chunked(header_values(reply.headers)) ==> first_value(
                header_values(reply.headers),
                "content-length"@,
            ) is None
            &&& !crate::egress::is_chunked(header_values(reply.headers)) ==> first_value(
                header_values(reply.headers),
                "content-length"@,
            ) == Some(text_as_bytes(decimal(reply.body@.len())))
        },
{
    let content_type = match header_get(&headers, "content-type") {
        Some(value) => bytes_to_text(&value),
        None => {
            return Err(
                Rejection { status: 400, message: "Missing Header: content-type".to_owned() },
            );
        },
    };
    let map = match read_response_body(&content_type, body.as_slice()) {
        Ok(map) => map,
        Err(e) => {
            return Err(e);
        },
    };
    let mut state = WorkingState { headers, query: OrderedMap::new(), body: map };
    match apply_response_mappings(&mut state, &config.response.mix_mappings) {
        Ok(()) => {},
        Err(e) => {
            return Err(rule_rejection(e));
        },
    }
    let (out_type, out_body) = match convert_body(
        &state.body,
        config.response.body_conversion,
        content_type,
        body,
    ) {
        Ok(out) => out,
        Err(e) => {
            return Err(e);
        },
    };
    let own = match settings.use_mode {
        UseMode::Normal => Some(settings.self_host.clone()),
        UseMode::Proxy => None,
    };
    let ghost before = header_values(state.headers);
    match finish_headers(&mut state.headers, &out_type, &own, out_body.len(), false) {
        Ok(()) => {},
        Err(e) => {
            return Err(e);
        },
    }
    proof {
        lemma_egress_headers(before, out_type.deep_view(), own.deep_view(), out_body@.len(), false);
    }
    Ok(Reply { headers: state.headers, body: out_body })
}

/// Whether every rule of a path has only transformations with a defined
/// meaning.
pub fn check_config(config: &PathConfig) -> (ok: bool)
    ensures
        ok == config_supported(*config),
{
    check_mappings(&config.request.mix_mappings) && check_mappings(&config.response.mix_mappings)
}

/// Whether every rule of the list has only transformations with a defined
/// meaning.
pub fn check_mappings(rules: &Vec<MixMapping>) -> (ok: bool)
    ensures
        ok == mappings_supported(rules@),
{
    let mut i: usize = 0;
    while i < rules.len()
        invariant
            i <= rules.len(),
            forall|j: int| 0 <= j < i ==> mapping_supported(#[trigger] rules@[j]),
        decreases rules.len() - i,
    {
        let ok = match &rules[i].transformations {
            Some(list) => crate::transform::transformations_supported(list.as_slice()),
            None => true,
        };
        if !ok {
            return false;
        }
        i += 1;
    }
    true
}

/// Whether the rule set is one that the pipeline accepts: no path occurs
/// twice, and every rule has only transformations with a defined meaning.
pub fn check_rules(rules: &RuleSet) -> (ok: bool)
    ensures
        ok == (rules.wf() && rules_supported(rules@)),
{
    let mut i: usize = 0;
    while i < rules.entries.len()
        invariant
            i <= rules.entries.len(),
            forall|j: int| 0 <= j < i ==> config_supported((#[trigger] rules@[j]).1),
            forall|a: int, b: int|
                0 <= a < b < i ==> (#[trigger] rules@[a]).0 != (#[trigger] rules@[b]).0,
        decreases rules.entries.len() - i,
    {
        proof {
            assert(rules@[i as int].1 == rules.entries@[i as int].1);
            assert(rules@[i as int].0 == rules.entries@[i as int].0@);
        }
        if !check_config(&rules.entries[i].1) {
            return false;
        }
        let mut j: usize = 0;
        while j < i
            invariant
                j <= i,
                i < rules.entries.len(),
                forall|a: int| 0 <= a < j ==> (#[trigger] rules@[a]).0 != rules@[i as int].0,
            decreases i - j,
        {
            proof {
                assert(rules@[j as int].0 == rules.entries@[j as int].0@);
                assert(rules@[i as int].0 == rules.entries@[i as int].0@);
            }
            if str_eq(rules.entries[j].0.as_str(), rules.entries[i].0.as_str()) {
                return false;
            }
            j += 1;
        }
        i += 1;
    }
    true
}


/// [`prepare_request`] where the rule set is one that the pipeline accepts;
/// `None`, and nothing done, where it is not.
pub fn try_prepare_request(settings: &AppConfig, rules: &RuleSet, inbound: Inbound) -> (r: Option<
    Result<Outcome, Rejection>,
>)
    ensures
        r.is_some() == (rules.wf() && rules_supported(rules@)),
        r matches Some(Ok(outcome)) ==> request_spec(
            *settings,
            rules@,
            inbound.method,
            inbound.path@,
            inbound.query.deep_view(),
            inbound.host.deep_view(),
            inbound.scheme.deep_view(),
            header_values(inbound.headers),
            inbound.body@,
        ) == Ok::<OutcomeModel, u16>(outcome@),
        r matches Some(Err(e)) ==> match request_spec(
            *settings,
            rules@,
            inbound.method,
            inbound.path@,
            inbound.query.deep_view(),
            inbound.host.deep_view(),
            inbound.scheme.deep_view(),
            header_values(inbound.headers),
            inbound.body@,
        ) {
            Err(status) => e.status == status,
            Ok(outcome) => {
                &&& e.status == 500
                &&& !has_room(
                    header_values(inbound.headers),
                    request_rules(rules@, inbound.path@).len() + 3,
                )
                &&& outcome is Redirect ==> writes_header(request_rules(rules@, inbound.path@))
            },
        },
{
    if check_rules(rules) {
        Some(prepare_request(settings, rules, inbound))
    } else {
        None
    }
}

/// [`rewrite_response`] where the rules of the path are ones that the
/// pipeline accepts; `None`, and nothing done, where they are not.
pub fn try_rewrite_response(
    settings: &AppConfig,
    config: &PathConfig,
    headers: hyper::HeaderMap,
    body: Vec<u8>,
) -> (r: Option<Result<Reply, Rejection>>)
    ensures
        r.is_some() == config_supported(*config),
        r matches Some(Ok(reply)) ==> response_spec(
            *settings,
            *config,
            header_values(headers),
            body@,
        ) == Ok::<ReplyModel, u16>(reply@),
        r matches Some(Err(e)) ==> match response_spec(
            *settings,
            *config,
            header_values(headers),
            body@,
        ) {
            Err(status) => e.status == status,
            Ok(_) => e.status == 500 && !has_room(
                header_values(headers),
                config.response.mix_mappings@.len() + 3,
            ),
        },
{
    if check_config(config) {
        Some(rewrite_response(settings, config, headers, body))
    } else {
        None
    }
}

} // verus!
