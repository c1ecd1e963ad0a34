//! The configuration model: process-wide settings and the path-scoped rule set.
//!
//! Everything here is plain data. The rest of the crate reads these values and
//! never changes them.

use vstd::prelude::*;

verus! {

/// Process-wide settings.
#[derive(Debug, Clone)]
pub struct AppConfig {
    /// Absolute URL of the primary upstream.
    pub dify_url: String,
    /// Absolute URL of the secondary upstream; needed in [`UseMode::Normal`].
    pub sso_url: Option<String>,
    /// Where the rule file lives.
    pub config_path: String,
    pub use_mode: UseMode,
    /// Host name that marks a request as inbound; needed in [`UseMode::Proxy`].
    pub dify_host: Option<String>,
    /// Host name this service answers under.
    pub self_host: String,
}

#[derive(Debug, Clone, Copy, PartialEq, Eq, Structural)]
pub enum UseMode {
    Proxy,
    Normal,
}

/// The rules of one URL path.
#[derive(Debug, Clone)]
pub struct PathConfig {
    pub request: RequestMapConfig,
    pub response: ResponseMapConfig,
}

#[derive(Debug, Clone)]
pub struct RequestMapConfig {
    pub target_service: ServiceType,
    pub method_mapping: Option<MethodMapping>,
    pub body_conversion: Option<BodyConversion>,
    pub mix_mappings: Vec<MixMapping>,
}

#[derive(Debug, Clone)]
pub struct ResponseMapConfig {
    pub method_mapping: Option<MethodMapping>,
    pub body_conversion: Option<BodyConversion>,
    pub mix_mappings: Vec<MixMapping>,
}

#[derive(Debug, Clone, PartialEq)]
pub enum ServiceType {
    Dify,
    SSO,
    /// Answer with a 302 whose `Location` is the rewritten URL.
    Redirect(Option<String>),
    /// Forward and stream the answer; the payload is `"<kind>-<name>"`.
    SSE(String),
}

#[derive(Debug, Clone, Copy, PartialEq, Eq, Structural)]
pub enum MethodMapping {
    GetToPost,
    PostToGet,
}

/// One rewrite rule.
#[derive(Debug, Clone)]
pub struct MixMapping {
    pub source: MixSource,
    pub target: MixTarget,
    pub action: MixAction,
    pub transformations: Option<Vec<Transformation>>,
}

#[derive(Debug, Clone, PartialEq)]
pub enum Transformation {
    Base64Decode,
    Base64Encode,
    Split { separator: String, index: usize },
    Replace { from: String, to: String },
    Format { format: String },
    Append { value: String },
    Extract { regex: String },
    /// Reserved; no behaviour is defined for it.
    If,
    /// Reserved; no behaviour is defined for it.
    Merge,
}

#[derive(Debug, Clone, PartialEq)]
pub enum MixAction {
    Move,
    Copy,
    DeleteSrc,
    AddTarget(String),
}

#[derive(Debug, Clone, PartialEq)]
pub enum MixSource {
    Header(String),
    BodyField(String),
    Query(String),
}

#[derive(Debug, Clone, PartialEq)]
pub enum MixTarget {
    Header(String),
    BodyField(String),
    Query(String),
}

#[derive(Debug, Clone, Copy, PartialEq, Eq, Structural)]
pub enum BodyConversion {
    FormToJson,
    JsonToForm,
}

impl AppConfig {
    /// The setting that the active mode cannot do without is there.
    pub open spec fn mode_complete(&self) -> bool {
        match self.use_mode {
            UseMode::Normal => self.sso_url is Some,
            UseMode::Proxy => self.dify_host is Some,
        }
    }

    /// Tests [`Self::mode_complete`]: `sso_url` in normal mode, `dify_host` in
    /// proxy mode.
    pub fn is_mode_complete(&self) -> (ok: bool)
        ensures
            ok == self.mode_complete(),
    {
        match self.use_mode {
            UseMode::Normal => self.sso_url.is_some(),
            UseMode::Proxy => self.dify_host.is_some(),
        }
    }
}

} // verus!
