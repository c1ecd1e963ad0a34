//! The dispatcher: which upstream a request goes to, with which method, and
//! whether its answer is streamed.

use crate::assoc::{lookup, OrderedMap};
use crate::body::Rejection;
use crate::config::{AppConfig, MethodMapping, PathConfig, ServiceType, UseMode};
use crate::headers::{bytes_to_text, first_value, header_get, value_text};
use crate::json::{Scalar, ScalarModel};
use crate::query::{form_text, multimap_pairs, multimap_to_query, QueryMultimap};
use crate::rules::{StateModel, WorkingState};
use crate::text::{
    concat_str, is_prefix, join, join_spec, lower_ascii, split_nth, split_nth_spec, str_eq,
    strip_prefix, to_lower_ascii,
};
use vstd::prelude::*;

verus! {

/// A request method.
#[derive(Debug, PartialEq, Eq)]
pub enum Method {
    Get,
    Post,
    Put,
    /// Any other method, by its name.
    Other(String),
}

impl Clone for Method {
    fn clone(&self) -> (r: Self)
        ensures
            r == *self,
    {
        match self {
            Method::Get => Method::Get,
            Method::Post => Method::Post,
            Method::Put => Method::Put,
            Method::Other(name) => Method::Other(name.clone()),
        }
    }
}

impl DeepView for PathConfig {
    type V = PathConfig;

    open spec fn deep_view(&self) -> PathConfig {
        *self
    }
}

/// The rules, by URL path.
pub type RuleSet = OrderedMap<PathConfig>;

/// The rules behind an optional reference.
pub open spec fn config_of(config: Option<&PathConfig>) -> Option<PathConfig> {
    match config {
        Some(c) => Some(*c),
        None => None,
    }
}

/// The method that goes upstream: the one that the rules of the path name, or
/// the inbound one.
pub open spec fn method_spec(config: Option<PathConfig>, method: Method) -> Method {
    match config {
        Some(c) => match c.request.method_mapping {
            Some(MethodMapping::GetToPost) => Method::Post,
            Some(MethodMapping::PostToGet) => Method::Get,
            None => method,
        },
        None => method,
    }
}

/// Chooses the upstream method.
pub fn get_method(config: &Option<&PathConfig>, method: &Method) -> (r: Method)
    ensures
        r == method_spec(config_of(*config), *method),
{
    match config {
        Some(config) => match config.request.method_mapping {
            Some(MethodMapping::GetToPost) => Method::Post,
            Some(MethodMapping::PostToGet) => Method::Get,
            None => method.clone(),
        },
        None => method.clone(),
    }
}

/// A status code with its message.
pub struct RejectionModel {
    pub status: u16,
    pub message: Seq<char>,
}

impl View for Rejection {
    type V = RejectionModel;

    open spec fn view(&self) -> RejectionModel {
        RejectionModel { status: self.status, message: self.message@ }
    }
}

/// The rules of a path, if it has any, and the base URL of its upstream.
pub struct Route {
    pub config: Option<PathConfig>,
    pub base_url: Seq<char>,
}

/// The base URL for a path that has rules.
pub open spec fn base_for(settings: AppConfig, config: PathConfig, host: Option<Seq<char>>)
    -> Result<Seq<char>, RejectionModel> {
    if config.request.target_service is Dify {
        Ok(settings.dify_url@)
    } else {
        match settings.use_mode {
            UseMode::Proxy => match host {
                Some(h) => Ok(h),
                None => Err(RejectionModel { status: 400, message: "Host header missing"@ }),
            },
            UseMode::Normal => match settings.sso_url {
                Some(url) => Ok(url@),
                None => Err(RejectionModel { status: 500, message: "SSO URL not configured"@ }),
            },
        }
    }
}

/// The request is inbound: its host is the host that the settings name.
pub open spec fn is_inbound(settings: AppConfig, host: Option<Seq<char>>) -> bool {
    match (settings.dify_host, host) {
        (Some(own), Some(h)) => own@ == h,
        _ => false,
    }
}

/// The scheme of the request, `https` where it has none.
pub open spec fn scheme_or_default(scheme: Option<Seq<char>>) -> Seq<char> {
    match scheme {
        Some(s) => s,
        None => "https"@,
    }
}

/// Where a request goes.
///
/// A path with rules goes to the primary upstream where the rules say `Dify`;
/// else to the secondary upstream in normal mode and to the request's own host
/// in proxy mode. A path without rules is answered with 404 in normal mode; in
/// proxy mode it goes to the primary upstream where the request is inbound and
/// to `<scheme>://<host>` where it is not. A request without a host, where the
/// host is needed, is answered with 400.
pub open spec fn route_spec(
    settings: AppConfig,
    rules: Seq<(Seq<char>, PathConfig)>,
    path: Seq<char>,
    host: Option<Seq<char>>,
    scheme: Option<Seq<char>>,
) -> Result<Route, RejectionModel> {
    match lookup(rules, path) {
        Some(config) => match base_for(settings, config, host) {
            Ok(base_url) => Ok(Route { config: Some(config), base_url }),
            Err(e) => Err(e),
        },
        None => match settings.use_mode {
            UseMode::Normal => Err(
                RejectionModel { status: 404, message: "Path "@ + path + " not configured"@ },
            ),
            UseMode::Proxy => if is_inbound(settings, host) {
                Ok(Route { config: None, base_url: settings.dify_url@ })
            } else {
                match host {
                    Some(h) => Ok(
                        Route { config: None, base_url: scheme_or_default(scheme) + "://"@ + h },
                    ),
                    None => Err(RejectionModel { status: 400, message: "Host header missing"@ }),
                }
            },
        },
    }
}

/// Chooses the rules and the base URL for a request.
pub fn select_route<'a>(
    settings: &AppConfig,
    rules: &'a RuleSet,
    path: &str,
    host: &Option<String>,
    scheme: &Option<String>,
) -> (r: Result<(Option<&'a PathConfig>, String), Rejection>)
    ensures
        match r {
            Ok((config, base_url)) => route_spec(
                *settings,
                rules@,
                path@,
                host.deep_view(),
                scheme.deep_view(),
            ) == Ok::<Route, RejectionModel>(
                Route { config: config_of(config), base_url: base_url@ },
            ),
            Err(e) => route_spec(*settings, rules@, path@, host.deep_view(), scheme.deep_view())
                == Err::<Route, RejectionModel>(e@),
        },
{
    match rules.get(path) {
        Some(config) => {
            let base_url = match config.request.target_service {
                ServiceType::Dify => settings.dify_url.clone(),
                _ => match settings.use_mode {
                    UseMode::Proxy => match host {
                        Some(h) => h.clone(),
                        None => {
                            return Err(
                                Rejection {
                                    status: 400,
                                    message: "Host header missing".to_owned(),
                                },
                            );
                        },
                    },
                    UseMode::Normal => match &settings.sso_url {
                        Some(url) => url.clone(),
                        None => {
                            return Err(
                                Rejection {
                                    status: 500,
                                    message: "SSO URL not configured".to_owned(),
                                },
                            );
                        },
                    },
                },
            };
            Ok((Some(config), base_url))
        },
        None => match settings.use_mode {
            UseMode::Normal => {
                let head = concat_str("Path ", path);
                let message = concat_str(head.as_str(), " not configured");
                Err(Rejection { status: 404, message })
            },
            UseMode::Proxy => {
                let inbound = match (&settings.dify_host, host) {
                    (Some(own), Some(h)) => str_eq(own.as_str(), h.as_str()),
                    _ => false,
                };
                if inbound {
                    Ok((None, settings.dify_url.clone()))
                } else {
                    match host {
                        Some(h) => {
                            let head = match scheme {
                                Some(s) => concat_str(s.as_str(), "://"),
                                None => concat_str("https", "://"),
                            };
                            Ok((None, concat_str(head.as_str(), h.as_str())))
                        },
                        None => Err(
                            Rejection { status: 400, message: "Host header missing".to_owned() },
                        ),
                    }
                }
            },
        },
    }
}

/// The URL that goes upstream: base and path, and the query after a `?` where
/// the query holds any name.
pub open spec fn target_url_spec(
    base_url: Seq<char>,
    path: Seq<char>,
    query: Seq<(Seq<char>, Seq<Seq<char>>)>,
) -> Seq<char> {
    if query.len() > 0 {
        base_url + path + "?"@ + form_text(multimap_pairs(query))
    } else {
        base_url + path
    }
}

/// Builds the upstream URL.
pub fn target_url(base_url: &str, path: &str, query: &QueryMultimap) -> (url: String)
    ensures
        url@ == target_url_spec(base_url@, path@, query@),
{
    let head = concat_str(base_url, path);
    if query.len() > 0 {
        let with_mark = concat_str(head.as_str(), "?");
        let text = multimap_to_query(query);
        concat_str(with_mark.as_str(), text.as_str())
    } else {
        head
    }
}

/// A leaf that says `true`: the boolean, or the string `true`.
pub open spec fn leaf_is_true(v: ScalarModel) -> bool {
    match v {
        ScalarModel::Bool(b) => b,
        ScalarModel::Str(s) => s == "true"@,
        _ => false,
    }
}

/// Whether the selector `<kind>-<name>` finds `true` in the state. The kind,
/// in any case, is `bodyfield`, `header` or `query`; the name is all that
/// follows the first `-`. A header and a query name say `true` where their
/// text is `true`, the values of a query name joined by `,`. A selector
/// without `-`, another kind, or a name that is not there: `false`.
pub open spec fn sse_selected(selector: Seq<char>, s: StateModel) -> bool {
    match split_nth_spec(selector, "-"@, 0) {
        Some(kind) => if is_prefix(kind + "-"@, selector) {
            let name = selector.skip(kind.len() as int + 1);
            let lower = lower_ascii(kind);
            if lower == "bodyfield"@ {
                match lookup(s.body, name) {
                    Some(v) => leaf_is_true(v),
                    None => false,
                }
            } else if lower == "header"@ {
                match first_value(s.headers, name) {
                    Some(bytes) => value_text(bytes) == Some("true"@),
                    None => false,
                }
            } else if lower == "query"@ {
                match lookup(s.query, name) {
                    Some(values) => join_spec(values, ","@) == "true"@,
                    None => false,
                }
            } else {
                false
            }
        } else {
            false
        },
        None => false,
    }
}

/// Whether the exchange is streamed: the rules ask for it and their selector
/// finds `true` in the rewritten request.
pub open spec fn is_sse_spec(config: Option<PathConfig>, s: StateModel) -> bool {
    match config {
        Some(c) => match c.request.target_service {
            ServiceType::SSE(selector) => sse_selected(selector@, s),
            _ => false,
        },
        None => false,
    }
}

/// Evaluates an SSE selector on the rewritten request.
pub fn sse_selector_holds(selector: &str, state: &WorkingState) -> (r: bool)
    ensures
        r == sse_selected(selector@, state@),
{
    proof {
        reveal_strlit("-");
    }
    let kind = match split_nth(selector, "-", 0) {
        Some(kind) => kind,
        None => {
            return false;
        },
    };
    let marked = concat_str(kind.as_str(), "-");
    let name = match strip_prefix(selector, marked.as_str()) {
        Some(name) => name,
        None => {
            return false;
        },
    };
    proof {
        assert("-"@.len() == 1);
        assert(marked@.len() == kind@.len() + 1);
    }
    let lower = to_lower_ascii(kind.as_str());
    if str_eq(lower.as_str(), "bodyfield") {
        match state.body.get(name.as_str()) {
            Some(Scalar::Bool(b)) => *b,
            Some(Scalar::Str(s)) => str_eq(s.as_str(), "true"),
            _ => false,
        }
    } else if str_eq(lower.as_str(), "header") {
        match header_get(&state.headers, name.as_str()) {
            Some(bytes) => match bytes_to_text(&bytes) {
                Some(text) => str_eq(text.as_str(), "true"),
                None => false,
            },
            None => false,
        }
    } else if str_eq(lower.as_str(), "query") {
        match state.query.get(name.as_str()) {
            Some(values) => {
                let text = join(values, ",");
                str_eq(text.as_str(), "true")
            },
            None => false,
        }
    } else {
        false
    }
}

/// Whether the exchange is streamed.
pub fn is_sse_request(config: &Option<&PathConfig>, state: &WorkingState) -> (r: bool)
    ensures
        r == is_sse_spec(config_of(*config), state@),
{
    match config {
        Some(c) => match &c.request.target_service {
            ServiceType::SSE(selector) => sse_selector_holds(selector.as_str(), state),
            _ => false,
        },
        None => false,
    }
}

} // verus!
