//! Plain data carried between the HTTP layer and the engine: request
//! metadata, template configuration, language extraction and route paths.
//! The transport itself lives outside the library.

use vstd::prelude::*;
use vstd::string::StringExecFns;

verus! {

/// Caller-supplied trace fields attached to every command.
#[derive(Debug, Clone)]
pub struct RequestMetadata {
    pub id: String,
    pub user_id: String,
    pub user_owner_id: Option<String>,
}

/// Trace fields of one request, as older routes shaped them.
#[derive(Debug, Clone)]
pub struct Metadata {
    pub request_id: String,
    pub request_by: String,
    pub request_as: Option<String>,
}

/// Where the served assets live.
#[derive(Debug, Clone)]
pub struct TemplateConfig {
    pub assets_base_url: String,
}

impl TemplateConfig {
    /// A template configuration rooted at `assets_base_url`.
    pub fn new(assets_base_url: &str) -> (r: Self)
        ensures
            r.assets_base_url@ == assets_base_url@,
    {
        TemplateConfig { assets_base_url: assets_base_url.to_owned() }
    }
}

/// A page about to be rendered: the template value, the negotiated language,
/// and the configuration the renderer needs.
pub struct Template<T> {
    pub template: Option<T>,
    pub preferred_language: String,
    pub preferred_language_iso: String,
    pub config: TemplateConfig,
}

impl<T> Template<T> {
    /// Attach the template value to render.
    pub fn template(self, t: T) -> (r: Self)
        ensures
            r.template is Some,
            r.preferred_language@ == self.preferred_language@,
            r.preferred_language_iso@ == self.preferred_language_iso@,
            r.config.assets_base_url@ == self.config.assets_base_url@,
    {
        Template { template: Some(t), ..self }
    }
}

/// Reads a user's language from one named path segment.
#[derive(Debug, Clone)]
pub struct PathSource {
    pub name: String,
}

impl PathSource {
    /// A language source reading the path segment called `name`.
    pub fn new(name: &str) -> (r: Self)
        ensures
            r.name@ == name@,
    {
        PathSource { name: name.to_owned() }
    }
}

/// The page shown when no route matches.
#[derive(Debug, Clone, Copy, PartialEq, Eq, Structural)]
pub struct NotFoundTemplate;

/// The web server's configuration.
#[derive(Debug, Clone)]
pub struct Serve {
    pub addr: String,
    pub region: String,
    pub assets_base_url: String,
    pub data_dir: String,
    pub dsn: String,
}

/// The product status route, for a given id or as a route pattern.
pub fn s_create_status(id: Option<String>) -> (r: String)
    ensures
        r@ == "/product/-/create-status/"@ + match id {
            Some(ref s) => s@,
            None => "{id}"@,
        },
{
    let base = "/product/-/create-status/".to_owned();
    match id {
        Some(s) => base.concat(s.as_str()),
        None => base.concat("{id}"),
    }
}

/// The market's product status route, for a given id or as a route pattern.
pub fn market_s_create_status(id: Option<String>) -> (r: String)
    ensures
        r@ == "/market/-/create-status/"@ + match id {
            Some(ref s) => s@,
            None => "{id}"@,
        },
{
    let base = "/market/-/create-status/".to_owned();
    match id {
        Some(s) => base.concat(s.as_str()),
        None => base.concat("{id}"),
    }
}

} // verus!
