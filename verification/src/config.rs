//! The configuration: routes, webhooks and the settings around them.

use vstd::prelude::*;
use vstd::string::*;

use crate::names::NameMap;
use crate::raw;
use crate::render;
use crate::text;

verus! {

/// A chat, by its id.
#[derive(Debug, Clone, Copy, PartialEq, Eq, Hash, Structural)]
pub struct ChatId(pub i64);

/// The name under which the configuration knows a webhook.
#[derive(Debug)]
pub struct WebhookName(pub String);

/// The address of a webhook, which carries its token.
pub struct WebhookUrl(pub String);

impl DeepView for ChatId {
    type V = i64;

    open spec fn deep_view(&self) -> i64 {
        self.0
    }
}

impl DeepView for WebhookName {
    type V = Seq<char>;

    open spec fn deep_view(&self) -> Seq<char> {
        self.0@
    }
}

impl DeepView for WebhookUrl {
    type V = Seq<char>;

    open spec fn deep_view(&self) -> Seq<char> {
        self.0@
    }
}

impl Clone for WebhookName {
    fn clone(&self) -> (r: Self)
        ensures
            r == *self,
    {
        WebhookName(self.0.clone())
    }
}

impl Clone for WebhookUrl {
    fn clone(&self) -> (r: Self)
        ensures
            r == *self,
    {
        WebhookUrl(self.0.clone())
    }
}

impl WebhookUrl {
    /// The address in a form that is fit for a log: without the token.
    pub fn redacted(&self) -> (r: String)
        ensures
            r@ == "WebhookUrl(«redacted»)"@,
    {
        "WebhookUrl(«redacted»)".to_owned()
    }
}

/// Where a route takes its posts from.
#[derive(Debug)]
pub enum ChatRef {
    /// A public name, without the leading `@`.
    Username(String),
    Id(ChatId),
}

pub enum ChatRefView {
    Username(Seq<char>),
    Id(i64),
}

impl DeepView for ChatRef {
    type V = ChatRefView;

    open spec fn deep_view(&self) -> ChatRefView {
        match self {
            ChatRef::Username(u) => ChatRefView::Username(u@),
            ChatRef::Id(id) => ChatRefView::Id(id.0),
        }
    }
}

impl Clone for ChatRef {
    fn clone(&self) -> (r: Self)
        ensures
            r == *self,
    {
        match self {
            ChatRef::Username(u) => ChatRef::Username(u.clone()),
            ChatRef::Id(id) => ChatRef::Id(*id),
        }
    }
}

/// Which posts a route lets through.
#[derive(Debug)]
pub struct Filter {
    pub any_keywords: Vec<String>,
    pub exclude_hashtags: Vec<String>,
}

impl DeepView for Filter {
    type V = raw::FilterView;

    open spec fn deep_view(&self) -> raw::FilterView {
        raw::FilterView {
            any_keywords: self.any_keywords.deep_view(),
            exclude_hashtags: self.exclude_hashtags.deep_view(),
        }
    }
}

impl Default for Filter {
    fn default() -> (r: Self)
        ensures
            r.any_keywords@.len() == 0,
            r.exclude_hashtags@.len() == 0,
    {
        Filter { any_keywords: Vec::new(), exclude_hashtags: Vec::new() }
    }
}

impl Clone for Filter {
    fn clone(&self) -> (r: Self)
        ensures
            r.deep_view() == self.deep_view(),
    {
        let r: Filter = Filter {
            any_keywords: self.any_keywords.clone(),
            exclude_hashtags: self.exclude_hashtags.clone(),
        };
        assert(r.any_keywords.deep_view() =~= self.any_keywords.deep_view());
        assert(r.exclude_hashtags.deep_view() =~= self.exclude_hashtags.deep_view());
        r
    }
}

/// One route: from a chat to some webhooks.
#[derive(Debug)]
pub struct RouteCfg {
    pub name: String,
    /// A friendly name of the source, for the wiring diagram.
    pub label: Option<String>,
    pub from: ChatRef,
    pub to: Vec<WebhookName>,
    pub filter: Option<Filter>,
    /// The stripe colour of the route's embeds, as a 24-bit RGB number.
    pub color: u32,
    /// What to do with media, where it differs from the global setting.
    pub media_mode: Option<MediaMode>,
}

pub struct RouteCfgView {
    pub name: Seq<char>,
    pub label: Option<Seq<char>>,
    pub from: ChatRefView,
    pub to: Seq<Seq<char>>,
    pub filter: Option<raw::FilterView>,
    pub color: u32,
    pub media_mode: Option<MediaMode>,
}

impl DeepView for RouteCfg {
    type V = RouteCfgView;

    open spec fn deep_view(&self) -> RouteCfgView {
        RouteCfgView {
            name: self.name@,
            label: self.label.deep_view(),
            from: self.from.deep_view(),
            to: self.to.deep_view(),
            filter: self.filter.deep_view(),
            color: self.color,
            media_mode: self.media_mode,
        }
    }
}

/// What becomes of media.
#[derive(Debug, Clone, Copy, PartialEq, Eq, Structural)]
pub enum MediaMode {
    /// Download it and attach it to the relayed message.
    Reupload,
    /// Leave a notice in its place.
    Placeholder,
}

/// The media mode that a setting names, if it is one of the two words.
pub open spec fn mode_of(s: Seq<char>) -> Option<MediaMode> {
    if s == "placeholder"@ {
        Some(MediaMode::Placeholder)
    } else if s == "reupload"@ {
        Some(MediaMode::Reupload)
    } else {
        None
    }
}

fn parse_mode(s: &str) -> (r: Option<MediaMode>)
    ensures
        r == mode_of(s@),
{
    if text::same_text(s, "placeholder") {
        Some(MediaMode::Placeholder)
    } else if text::same_text(s, "reupload") {
        Some(MediaMode::Reupload)
    } else {
        None
    }
}

/// The media mode of a route: its own, else the global one.
pub fn effective_media_mode(route: Option<MediaMode>, global: MediaMode) -> (r: MediaMode)
    ensures
        r == (match route {
            Some(m) => m,
            None => global,
        }),
{
    match route {
        Some(m) => m,
        None => global,
    }
}

#[derive(Debug, Clone, Copy)]
pub struct MediaCfg {
    pub mode: MediaMode,
    pub max_bytes: u64,
}

/// How often posts are looked at again, and for how long.
///
/// Edits and deletions are looked for every `interval_mins` until a post is
/// `horizon_hours` old. Reactions and comments are looked for at three ages only:
/// `reaction_early_check_secs`, `interval_mins` and `reaction_horizon_mins`.
#[derive(Debug, Clone, Copy)]
pub struct RefreshCfg {
    pub interval_mins: u64,
    pub horizon_hours: u64,
    pub reaction_horizon_mins: u64,
    pub reaction_early_check_secs: u64,
}

/// The settings that hold where the file gives none.
pub open spec fn default_refresh() -> RefreshCfg {
    RefreshCfg {
        interval_mins: 30,
        horizon_hours: 48,
        reaction_horizon_mins: 60,
        reaction_early_check_secs: 60,
    }
}

impl Default for RefreshCfg {
    fn default() -> (r: Self)
        ensures
            r == default_refresh(),
    {
        RefreshCfg {
            interval_mins: 30,
            horizon_hours: 48,
            reaction_horizon_mins: 60,
            reaction_early_check_secs: 60,
        }
    }
}

/// Where the message store lives.
#[derive(Debug)]
pub struct StoreCfg {
    pub path: String,
}

impl Default for StoreCfg {
    fn default() -> (r: Self)
        ensures
            r.path@ == "relay.db"@,
    {
        StoreCfg { path: "relay.db".to_owned() }
    }
}

/// A checked configuration.
pub struct Config {
    pub routes: Vec<RouteCfg>,
    pub webhooks: NameMap<WebhookUrl>,
    /// A friendly name for every webhook: its label, else its own name.
    pub webhook_labels: NameMap<String>,
    pub ops_webhook: Option<WebhookUrl>,
    pub media: MediaCfg,
    pub refresh: RefreshCfg,
    pub store: StoreCfg,
    pub contract_passthrough: bool,
}

#[verifier::ext_equal]
pub struct ConfigView {
    pub routes: Seq<RouteCfgView>,
    pub webhooks: Map<Seq<char>, Seq<char>>,
    pub webhook_labels: Map<Seq<char>, Seq<char>>,
    pub ops_webhook: Option<Seq<char>>,
    pub media: MediaCfg,
    pub refresh: RefreshCfg,
    pub store_path: Seq<char>,
    pub contract_passthrough: bool,
}

/// The address under each name.
pub open spec fn urls(m: Map<Seq<char>, WebhookUrl>) -> Map<Seq<char>, Seq<char>> {
    m.map_values(|u: WebhookUrl| u.0@)
}

impl DeepView for Config {
    type V = ConfigView;

    open spec fn deep_view(&self) -> ConfigView {
        ConfigView {
            routes: self.routes.deep_view(),
            webhooks: urls(self.webhooks@),
            webhook_labels: self.webhook_labels@.map_values(|s: String| s@),
            ops_webhook: self.ops_webhook.deep_view(),
            media: self.media,
            refresh: self.refresh,
            store_path: self.store.path@,
            contract_passthrough: self.contract_passthrough,
        }
    }
}

/// Why a configuration was refused.
#[derive(Debug)]
pub enum ConfigError {
    /// The file could not be read.
    Io { path: String, source: String },
    /// The file is no YAML document of the expected shape.
    Yaml(String),
    MissingEnv { name: String, env: String },
    UnknownWebhook { route: String, hook: String },
    EmptyTo { route: String },
    InvalidFrom { route: String, got: String },
    InvalidColor { route: String, got: String },
    /// A media mode that does not exist, in this field.
    InvalidMode { field: String, got: String },
}

pub enum ConfigErrorView {
    Io { path: Seq<char>, source: Seq<char> },
    Yaml(Seq<char>),
    MissingEnv { name: Seq<char>, env: Seq<char> },
    UnknownWebhook { route: Seq<char>, hook: Seq<char> },
    EmptyTo { route: Seq<char> },
    InvalidFrom { route: Seq<char>, got: Seq<char> },
    InvalidColor { route: Seq<char>, got: Seq<char> },
    InvalidMode { field: Seq<char>, got: Seq<char> },
}

impl DeepView for ConfigError {
    type V = ConfigErrorView;

    open spec fn deep_view(&self) -> ConfigErrorView {
        match self {
            ConfigError::Io { path, source } => ConfigErrorView::Io { path: path@, source: source@ },
            ConfigError::Yaml(s) => ConfigErrorView::Yaml(s@),
            ConfigError::MissingEnv { name, env } => ConfigErrorView::MissingEnv {
                name: name@,
                env: env@,
            },
            ConfigError::UnknownWebhook { route, hook } => ConfigErrorView::UnknownWebhook {
                route: route@,
                hook: hook@,
            },
            ConfigError::EmptyTo { route } => ConfigErrorView::EmptyTo { route: route@ },
            ConfigError::InvalidFrom { route, got } => ConfigErrorView::InvalidFrom {
                route: route@,
                got: got@,
            },
            ConfigError::InvalidColor { route, got } => ConfigErrorView::InvalidColor {
                route: route@,
                got: got@,
            },
            ConfigError::InvalidMode { field, got } => ConfigErrorView::InvalidMode {
                field: field@,
                got: got@,
            },
        }
    }
}

/// What is said of an error.
pub open spec fn error_message(e: ConfigErrorView) -> Seq<char> {
    match e {
        ConfigErrorView::Io { path, source } => "cannot read "@ + path + ": "@ + source,
        ConfigErrorView::Yaml(s) => "invalid YAML: "@ + s,
        ConfigErrorView::MissingEnv { name, env } => "webhook '"@ + name + "': env var "@ + env
            + " is not set"@,
        ConfigErrorView::UnknownWebhook { route, hook } => "route '"@ + route
            + "' references unknown webhook '"@ + hook + "'"@,
        ConfigErrorView::EmptyTo { route } => "route '"@ + route
            + "': 'to' must list at least one webhook"@,
        ConfigErrorView::InvalidFrom { route, got } => "route '"@ + route
            + "': 'from' must be a string or integer, got "@ + got,
        ConfigErrorView::InvalidColor { route, got } => "route '"@ + route + "': invalid color '"@
            + got + "'; expected a quoted \"#RRGGBB\" hex string"@,
        ConfigErrorView::InvalidMode { field, got } => field + ": invalid mode '"@ + got
            + "'; expected 'reupload' or 'placeholder'"@,
    }
}

impl ConfigError {
    /// The error in words.
    pub fn message(&self) -> (r: String)
        ensures
            r@ == error_message(self.deep_view()),
    {
        let mut out: String = String::new();
        match self {
            ConfigError::Io { path, source } => {
                out.append("cannot read ");
                out.append(path.as_str());
                out.append(": ");
                out.append(source.as_str());
            },
            ConfigError::Yaml(s) => {
                out.append("invalid YAML: ");
                out.append(s.as_str());
            },
            ConfigError::MissingEnv { name, env } => {
                out.append("webhook '");
                out.append(name.as_str());
                out.append("': env var ");
                out.append(env.as_str());
                out.append(" is not set");
            },
            ConfigError::UnknownWebhook { route, hook } => {
                out.append("route '");
                out.append(route.as_str());
                out.append("' references unknown webhook '");
                out.append(hook.as_str());
                out.append("'");
            },
            ConfigError::EmptyTo { route } => {
                out.append("route '");
                out.append(route.as_str());
                out.append("': 'to' must list at least one webhook");
            },
            ConfigError::InvalidFrom { route, got } => {
                out.append("route '");
                out.append(route.as_str());
                out.append("': 'from' must be a string or integer, got ");
                out.append(got.as_str());
            },
            ConfigError::InvalidColor { route, got } => {
                out.append("route '");
                out.append(route.as_str());
                out.append("': invalid color '");
                out.append(got.as_str());
                out.append("'; expected a quoted \"#RRGGBB\" hex string");
            },
            ConfigError::InvalidMode { field, got } => {
                out.append(field.as_str());
                out.append(": invalid mode '");
                out.append(got.as_str());
                out.append("'; expected 'reupload' or 'placeholder'");
            },
        }
        assert(out@ =~= error_message(self.deep_view()));
        out
    }
}

/// The value of a hexadecimal digit of either case.
pub open spec fn hex_digit_value(c: char) -> Option<int> {
    if '0' <= c <= '9' {
        Some(c as int - '0' as int)
    } else if 'a' <= c <= 'f' {
        Some(c as int - 'a' as int + 10)
    } else if 'A' <= c <= 'F' {
        Some(c as int - 'A' as int + 10)
    } else {
        None
    }
}

/// The number that hexadecimal digits stand for, if they all are such digits.
pub open spec fn hex_value(s: Seq<char>) -> Option<int>
    decreases s.len(),
{
    if s.len() == 0 {
        Some(0)
    } else {
        match (hex_value(s.drop_last()), hex_digit_value(s.last())) {
            (Some(v), Some(d)) => Some(16 * v + d),
            _ => None,
        }
    }
}

/// The colour that a `#RRGGBB` or `RRGGBB` stands for: exactly six digits.
pub open spec fn color_of(s: Seq<char>) -> Option<int> {
    let hex = if s.len() > 0 && s[0] == '#' {
        s.skip(1)
    } else {
        s
    };
    if hex.len() == 6 {
        hex_value(hex)
    } else {
        None
    }
}

/// Read a `#RRGGBB` (or bare `RRGGBB`) colour as a 24-bit RGB number.
///
/// Exactly six hexadecimal digits: no shorthand, no alpha channel, no names.
pub fn parse_hex_color(s: &str) -> (r: Option<u32>)
    ensures
        match r {
            Some(c) => color_of(s@) == Some(c as int),
            None => color_of(s@) is None,
        },
{
    let v: Vec<char> = text::chars_of(s);
    let start: usize = if v.len() > 0 && v[0] == '#' {
        1
    } else {
        0
    };
    if v.len() - start != 6 {
        return None;
    }
    let ghost hex = v@.skip(start as int);
    assert(start == 0 ==> hex =~= s@);
    let mut value: u32 = 0;
    let mut i: usize = 0;
    assert(hex.take(0) =~= Seq::<char>::empty());
    while i < 6
        invariant
            i <= 6,
            start <= 1,
            v@.len() == start + 6,
            hex == v@.skip(start as int),
            hex_value(hex.take(i as int)) == Some(value as int),
            color_of(s@) == hex_value(hex),
            i == 0 ==> value == 0,
            i == 1 ==> value < 0x10,
            i == 2 ==> value < 0x100,
            i == 3 ==> value < 0x1000,
            i == 4 ==> value < 0x1_0000,
            i == 5 ==> value < 0x10_0000,
        decreases 6 - i,
    {
        let c: char = v[start + i];
        assert(hex[i as int] == c);
        let ghost next = hex.take(i + 1);
        assert(next.drop_last() =~= hex.take(i as int));
        assert(next.last() == c);
        let d: u32 = if '0' <= c && c <= '9' {
            c as u32 - '0' as u32
        } else if 'a' <= c && c <= 'f' {
            c as u32 - 'a' as u32 + 10
        } else if 'A' <= c && c <= 'F' {
            c as u32 - 'A' as u32 + 10
        } else {
            proof {
                lemma_hex_prefix(hex, i + 1);
            }
            return None;
        };
        value = 16 * value + d;
        i = i + 1;
    }
    assert(hex.take(6) =~= hex);
    Some(value)
}

proof fn lemma_hex_prefix(s: Seq<char>, n: int)
    requires
        0 <= n <= s.len(),
        hex_value(s.take(n)) is None,
    ensures
        hex_value(s) is None,
    decreases s.len() - n,
{
    if n == s.len() {
        assert(s.take(n) =~= s);
    } else {
        assert(s.take(n + 1).drop_last() =~= s.take(n));
        lemma_hex_prefix(s, n + 1);
    }
}

/// `s` without the `@` signs that it starts with.
pub open spec fn without_at(s: Seq<char>) -> Seq<char>
    decreases s.len(),
{
    if s.len() > 0 && s[0] == '@' {
        without_at(s.skip(1))
    } else {
        s
    }
}

fn strip_at(s: &str) -> (r: String)
    ensures
        r@ == without_at(s@),
{
    let v: Vec<char> = text::chars_of(s);
    let mut i: usize = 0;
    assert(v@.skip(0) =~= v@);
    while i < v.len() && v[i] == '@'
        invariant
            v@ == s@,
            i <= v@.len(),
            without_at(s@) == without_at(v@.skip(i as int)),
        decreases v@.len() - i,
    {
        assert(v@.skip(i as int).skip(1) =~= v@.skip(i + 1));
        i = i + 1;
    }
    assert(v@.subrange(i as int, v@.len() as int) =~= v@.skip(i as int));
    text::text_between(&v, i, v.len())
}

/// The error for the first webhook whose variable is not set.
pub open spec fn missing_env(hooks: Seq<raw::WebhookView>) -> Option<ConfigErrorView>
    decreases hooks.len(),
{
    if hooks.len() == 0 {
        None
    } else {
        match missing_env(hooks.drop_last()) {
            Some(e) => Some(e),
            None => if hooks.last().url.value is None {
                Some(ConfigErrorView::MissingEnv { name: hooks.last().name, env: hooks.last().url.env })
            } else {
                None
            },
        }
    }
}

/// The address under each webhook name; a later entry takes the place of an earlier one.
pub open spec fn hook_urls(hooks: Seq<raw::WebhookView>) -> Map<Seq<char>, Seq<char>>
    decreases hooks.len(),
{
    if hooks.len() == 0 {
        Map::empty()
    } else {
        hook_urls(hooks.drop_last()).insert(hooks.last().name, hooks.last().url.value->0)
    }
}

/// The friendly name under each webhook name.
pub open spec fn hook_labels(hooks: Seq<raw::WebhookView>) -> Map<Seq<char>, Seq<char>>
    decreases hooks.len(),
{
    if hooks.len() == 0 {
        Map::empty()
    } else {
        hook_labels(hooks.drop_last()).insert(
            hooks.last().name,
            match hooks.last().label {
                Some(l) => l,
                None => hooks.last().name,
            },
        )
    }
}

/// The first of some names that no webhook has.
pub open spec fn first_unknown(to: Seq<Seq<char>>, known: Set<Seq<char>>) -> Option<Seq<char>>
    decreases to.len(),
{
    if to.len() == 0 {
        None
    } else {
        match first_unknown(to.drop_last(), known) {
            Some(h) => Some(h),
            None => if known.contains(to.last()) {
                None
            } else {
                Some(to.last())
            },
        }
    }
}

/// The source that a route names, or what stands there instead of one.
pub open spec fn source_of(from: raw::FromView) -> Result<ChatRefView, Seq<char>> {
    match from {
        raw::FromView::Int(n) => Ok(ChatRefView::Id(n)),
        raw::FromView::Text(s) => Ok(ChatRefView::Username(without_at(s))),
        raw::FromView::OtherNumber(s) => Err("number "@ + s),
        raw::FromView::Bool(b) => Err(if b { "boolean true"@ } else { "boolean false"@ }),
        raw::FromView::Null => Err("null"@),
        raw::FromView::Sequence => Err("sequence/array"@),
        raw::FromView::Mapping => Err("mapping/object"@),
        raw::FromView::Other(s) => Err(s),
    }
}

/// The field that holds the media mode of a route.
pub open spec fn mode_field(route: Seq<char>) -> Seq<char> {
    "routes["@ + route + "].mode"@
}

/// A checked route, or the first thing that is wrong with it.
pub open spec fn route_of(r: raw::RouteView, known: Set<Seq<char>>) -> Result<
    RouteCfgView,
    ConfigErrorView,
> {
    if r.to.len() == 0 {
        Err(ConfigErrorView::EmptyTo { route: r.name })
    } else {
        match first_unknown(r.to, known) {
            Some(hook) => Err(ConfigErrorView::UnknownWebhook { route: r.name, hook }),
            None => match source_of(r.from) {
                Err(got) => Err(ConfigErrorView::InvalidFrom { route: r.name, got }),
                Ok(from) => match r.color {
                    Some(c) if color_of(c) is None => Err(
                        ConfigErrorView::InvalidColor { route: r.name, got: c },
                    ),
                    _ => match r.mode {
                        Some(m) if mode_of(m) is None => Err(
                            ConfigErrorView::InvalidMode { field: mode_field(r.name), got: m },
                        ),
                        _ => Ok(
                            RouteCfgView {
                                name: r.name,
                                label: r.label,
                                from,
                                to: r.to,
                                filter: r.filter,
                                color: match r.color {
                                    Some(c) => color_of(c)->0 as u32,
                                    None => render::DEFAULT_EMBED_COLOR,
                                },
                                media_mode: match r.mode {
                                    Some(m) => mode_of(m),
                                    None => None,
                                },
                            },
                        ),
                    },
                },
            },
        }
    }
}

/// The checked routes in their order, or the error of the first route that has one.
pub open spec fn routes_of(rs: Seq<raw::RouteView>, known: Set<Seq<char>>) -> Result<
    Seq<RouteCfgView>,
    ConfigErrorView,
>
    decreases rs.len(),
{
    if rs.len() == 0 {
        Ok(Seq::empty())
    } else {
        match routes_of(rs.drop_last(), known) {
            Err(e) => Err(e),
            Ok(done) => match route_of(rs.last(), known) {
                Err(e) => Err(e),
                Ok(r) => Ok(done.push(r)),
            },
        }
    }
}

/// The refresh settings of a file, with the defaults for those that it leaves out.
pub open spec fn refresh_of(r: Option<raw::Refresh>) -> RefreshCfg {
    let d = default_refresh();
    match r {
        None => d,
        Some(r) => RefreshCfg {
            interval_mins: r.interval_mins.unwrap_or(d.interval_mins),
            horizon_hours: r.horizon_hours.unwrap_or(d.horizon_hours),
            reaction_horizon_mins: r.reaction_horizon_mins.unwrap_or(d.reaction_horizon_mins),
            reaction_early_check_secs: r.reaction_early_check_secs.unwrap_or(
                d.reaction_early_check_secs,
            ),
        },
    }
}

/// The configuration that a file stands for, or the first thing that is wrong with it:
/// the webhooks are looked at first, then the ops webhook, then the routes, then the media
/// mode.
pub open spec fn config_of(root: raw::RootView) -> Result<ConfigView, ConfigErrorView> {
    match missing_env(root.webhooks) {
        Some(e) => Err(e),
        None => match root.ops_webhook {
            Some(r) if r.value is None => Err(
                ConfigErrorView::MissingEnv { name: "ops_webhook"@, env: r.env },
            ),
            _ => match routes_of(root.routes, hook_urls(root.webhooks).dom()) {
                Err(e) => Err(e),
                Ok(routes) => match mode_of(root.media_mode) {
                    None => Err(
                        ConfigErrorView::InvalidMode { field: "media.mode"@, got: root.media_mode },
                    ),
                    Some(mode) => Ok(
                        ConfigView {
                            routes,
                            webhooks: hook_urls(root.webhooks),
                            webhook_labels: hook_labels(root.webhooks),
                            ops_webhook: match root.ops_webhook {
                                Some(r) => r.value,
                                None => None,
                            },
                            media: MediaCfg { mode, max_bytes: root.max_bytes },
                            refresh: refresh_of(root.refresh),
                            store_path: match root.store_path {
                                Some(p) => p,
                                None => "relay.db"@,
                            },
                            contract_passthrough: root.contract_passthrough == Some(true),
                        },
                    ),
                },
            },
        },
    }
}

fn copy_names(v: &Vec<String>) -> (r: Vec<WebhookName>)
    ensures
        r.deep_view() == v.deep_view(),
{
    let mut out: Vec<WebhookName> = Vec::new();
    let mut i: usize = 0;
    while i < v.len()
        invariant
            i <= v@.len(),
            out@.len() == i,
            forall|j: int| 0 <= j < i ==> (#[trigger] out@[j]).0@ == v@[j]@,
        decreases v@.len() - i,
    {
        out.push(WebhookName(v[i].clone()));
        i = i + 1;
    }
    assert(out.deep_view() =~= v.deep_view());
    out
}

fn load_source(from: &raw::From) -> (r: Result<ChatRef, String>)
    ensures
        match r {
            Ok(c) => source_of(from.deep_view()) == Ok::<ChatRefView, Seq<char>>(c.deep_view()),
            Err(got) => source_of(from.deep_view()) == Err::<ChatRefView, Seq<char>>(got@),
        },
{
    match from {
        raw::From::Int(n) => Ok(ChatRef::Id(ChatId(*n))),
        raw::From::Text(s) => Ok(ChatRef::Username(strip_at(s.as_str()))),
        raw::From::OtherNumber(s) => {
            let mut got: String = "number ".to_owned();
            got.append(s.as_str());
            Err(got)
        },
        raw::From::Bool(b) => if *b {
            Err("boolean true".to_owned())
        } else {
            Err("boolean false".to_owned())
        },
        raw::From::Null => Err("null".to_owned()),
        raw::From::Sequence => Err("sequence/array".to_owned()),
        raw::From::Mapping => Err("mapping/object".to_owned()),
        raw::From::Other(s) => Err(s.clone()),
    }
}

fn load_route(r: &raw::Route, webhooks: &NameMap<WebhookUrl>) -> (res: Result<RouteCfg, ConfigError>)
    ensures
        match res {
            Ok(c) => route_of(r.deep_view(), webhooks@.dom()) == Ok::<RouteCfgView, ConfigErrorView>(
                c.deep_view(),
            ),
            Err(e) => route_of(r.deep_view(), webhooks@.dom()) == Err::<
                RouteCfgView,
                ConfigErrorView,
            >(e.deep_view()),
        },
{
    let ghost to = r.to.deep_view();
    if r.to.len() == 0 {
        return Err(ConfigError::EmptyTo { route: r.name.clone() });
    }
    let mut i: usize = 0;
    assert(to.take(0) =~= Seq::<Seq<char>>::empty());
    while i < r.to.len()
        invariant
            to == r.to.deep_view(),
            to.len() > 0,
            i <= to.len(),
            first_unknown(to.take(i as int), webhooks@.dom()) is None,
        decreases to.len() - i,
    {
        let ghost next = to.take(i + 1);
        assert(next.drop_last() =~= to.take(i as int));
        assert(next.last() == r.to@[i as int]@);
        if webhooks.get(r.to[i].as_str()).is_none() {
            proof {
                lemma_unknown_prefix(to, i + 1, webhooks@.dom());
            }
            return Err(
                ConfigError::UnknownWebhook { route: r.name.clone(), hook: r.to[i].clone() },
            );
        }
        i = i + 1;
    }
    assert(to.take(to.len() as int) =~= to);
    let from: ChatRef = match load_source(&r.from) {
        Ok(f) => f,
        Err(got) => {
            return Err(ConfigError::InvalidFrom { route: r.name.clone(), got });
        },
    };
    let color: u32 = match &r.color {
        None => render::DEFAULT_EMBED_COLOR,
        Some(c) => match parse_hex_color(c.as_str()) {
            Some(n) => n,
            None => {
                return Err(
                    ConfigError::InvalidColor { route: r.name.clone(), got: c.clone() },
                );
            },
        },
    };
    let filter: Option<Filter> = match &r.filter {
        Some(f) => {
            let copy: Filter = Filter {
                any_keywords: f.any_keywords.clone(),
                exclude_hashtags: f.exclude_hashtags.clone(),
            };
            assert(copy.any_keywords.deep_view() =~= f.any_keywords.deep_view());
            assert(copy.exclude_hashtags.deep_view() =~= f.exclude_hashtags.deep_view());
            Some(copy)
        },
        None => None,
    };
    let media_mode: Option<MediaMode> = match &r.mode {
        Some(m) => match parse_mode(m.as_str()) {
            Some(mode) => Some(mode),
            None => {
                let mut field: String = "routes[".to_owned();
                field.append(r.name.as_str());
                field.append("].mode");
                return Err(ConfigError::InvalidMode { field, got: m.clone() });
            },
        },
        None => None,
    };
    Ok(
        RouteCfg {
            name: r.name.clone(),
            label: r.label.clone(),
            from,
            to: copy_names(&r.to),
            filter,
            color,
            media_mode,
        },
    )
}

proof fn lemma_unknown_prefix(to: Seq<Seq<char>>, n: int, known: Set<Seq<char>>)
    requires
        0 <= n <= to.len(),
        first_unknown(to.take(n), known) is Some,
    ensures
        first_unknown(to, known) == first_unknown(to.take(n), known),
    decreases to.len() - n,
{
    if n == to.len() {
        assert(to.take(n) =~= to);
    } else {
        assert(to.take(n + 1).drop_last() =~= to.take(n));
        lemma_unknown_prefix(to, n + 1, known);
    }
}

proof fn lemma_missing_prefix(hooks: Seq<raw::WebhookView>, n: int)
    requires
        0 <= n <= hooks.len(),
        missing_env(hooks.take(n)) is Some,
    ensures
        missing_env(hooks) == missing_env(hooks.take(n)),
    decreases hooks.len() - n,
{
    if n == hooks.len() {
        assert(hooks.take(n) =~= hooks);
    } else {
        assert(hooks.take(n + 1).drop_last() =~= hooks.take(n));
        lemma_missing_prefix(hooks, n + 1);
    }
}

proof fn lemma_routes_prefix(rs: Seq<raw::RouteView>, n: int, known: Set<Seq<char>>)
    requires
        0 <= n <= rs.len(),
        routes_of(rs.take(n), known) is Err,
    ensures
        routes_of(rs, known) == routes_of(rs.take(n), known),
    decreases rs.len() - n,
{
    if n == rs.len() {
        assert(rs.take(n) =~= rs);
    } else {
        assert(rs.take(n + 1).drop_last() =~= rs.take(n));
        lemma_routes_prefix(rs, n + 1, known);
    }
}

/// A configuration that was accepted sends every route somewhere: each route names at
/// least one webhook, and every webhook that it names has an address.
pub proof fn lemma_routes_have_targets(root: raw::RootView, i: int, j: int)
    requires
        config_of(root) is Ok,
        0 <= i < config_of(root)->Ok_0.routes.len(),
        0 <= j < config_of(root)->Ok_0.routes[i].to.len(),
    ensures
        config_of(root)->Ok_0.routes.len() == root.routes.len(),
        config_of(root)->Ok_0.routes[i].to.len() > 0,
        config_of(root)->Ok_0.webhooks.dom().contains(config_of(root)->Ok_0.routes[i].to[j]),
{
    let known = hook_urls(root.webhooks).dom();
    lemma_route_at(root.routes, known, i);
    let to = root.routes[i].to;
    lemma_known_at(to, known, j);
}

/// A configuration that was accepted names only media modes that exist, in `media.mode` and
/// in every route.
pub proof fn lemma_modes_are_checked(root: raw::RootView, i: int)
    requires
        config_of(root) is Ok,
    ensures
        mode_of(root.media_mode) == Some(config_of(root)->Ok_0.media.mode),
        0 <= i < root.routes.len() ==> (root.routes[i].mode matches Some(m) ==> mode_of(m)
            is Some),
{
    if 0 <= i < root.routes.len() {
        lemma_route_at(root.routes, hook_urls(root.webhooks).dom(), i);
    }
}

proof fn lemma_route_at(rs: Seq<raw::RouteView>, known: Set<Seq<char>>, i: int)
    requires
        routes_of(rs, known) is Ok,
        0 <= i < rs.len() || 0 <= i < routes_of(rs, known)->Ok_0.len(),
    ensures
        routes_of(rs, known)->Ok_0.len() == rs.len(),
        route_of(rs[i], known) == Ok::<RouteCfgView, ConfigErrorView>(
            routes_of(rs, known)->Ok_0[i],
        ),
    decreases rs.len(),
{
    if rs.len() > 0 {
        let init = rs.drop_last();
        if init.len() == 0 {
            assert(routes_of(init, known)->Ok_0.len() == 0);
        }
        if i < rs.len() - 1 {
            lemma_route_at(init, known, i);
        } else if init.len() > 0 {
            lemma_route_at(init, known, 0);
        }
    }
}

proof fn lemma_known_at(to: Seq<Seq<char>>, known: Set<Seq<char>>, j: int)
    requires
        first_unknown(to, known) is None,
        0 <= j < to.len(),
    ensures
        known.contains(to[j]),
    decreases to.len(),
{
    if j < to.len() - 1 {
        lemma_known_at(to.drop_last(), known, j);
    }
}

impl Config {
    /// Check a file that was read, with what the environment holds under the variables
    /// that it names.
    pub fn load(root: &raw::Root) -> (r: Result<Config, ConfigError>)
        ensures
            match r {
                Ok(c) => config_of(root.deep_view()) == Ok::<ConfigView, ConfigErrorView>(
                    c.deep_view(),
                ),
                Err(e) => config_of(root.deep_view()) == Err::<ConfigView, ConfigErrorView>(
                    e.deep_view(),
                ),
            },
    {
        let ghost hooks = root.webhooks.deep_view();
        let mut webhooks: NameMap<WebhookUrl> = NameMap::new();
        let mut webhook_labels: NameMap<String> = NameMap::new();
        let mut i: usize = 0;
        assert(hooks.take(0) =~= Seq::<raw::WebhookView>::empty());
        assert(urls(webhooks@) =~= hook_urls(hooks.take(0)));
        assert(webhook_labels@.map_values(|s: String| s@) =~= hook_labels(hooks.take(0)));
        while i < root.webhooks.len()
            invariant
                hooks == root.webhooks.deep_view(),
                i <= hooks.len(),
                missing_env(hooks.take(i as int)) is None,
                urls(webhooks@) == hook_urls(hooks.take(i as int)),
                webhook_labels@.map_values(|s: String| s@) == hook_labels(hooks.take(i as int)),
            decreases hooks.len() - i,
        {
            let h: &raw::Webhook = &root.webhooks[i];
            let ghost next = hooks.take(i + 1);
            assert(next.drop_last() =~= hooks.take(i as int));
            assert(next.last() == h.deep_view());
            match &h.url.value {
                None => {
                    proof {
                        lemma_missing_prefix(hooks, i + 1);
                    }
                    return Err(
                        ConfigError::MissingEnv { name: h.name.clone(), env: h.url.env.clone() },
                    );
                },
                Some(url) => {
                    let ghost m = webhooks@;
                    let ghost l = webhook_labels@;
                    webhooks.insert(h.name.clone(), WebhookUrl(url.clone()));
                    let label: String = match &h.label {
                        Some(s) => s.clone(),
                        None => h.name.clone(),
                    };
                    webhook_labels.insert(h.name.clone(), label);
                    assert(urls(webhooks@) =~= urls(m).insert(h.name@, url@));
                    assert(webhook_labels@.map_values(|s: String| s@) =~= l.map_values(
                        |s: String| s@,
                    ).insert(h.name@, label@));
                },
            }
            i = i + 1;
        }
        assert(hooks.take(hooks.len() as int) =~= hooks);
        let ops_webhook: Option<WebhookUrl> = match &root.ops_webhook {
            None => None,
            Some(r) => match &r.value {
                None => {
                    return Err(
                        ConfigError::MissingEnv {
                            name: "ops_webhook".to_owned(),
                            env: r.env.clone(),
                        },
                    );
                },
                Some(url) => Some(WebhookUrl(url.clone())),
            },
        };
        let ghost known = webhooks@.dom();
        assert(known =~= hook_urls(hooks).dom());
        let ghost rs = root.routes.deep_view();
        let mut routes: Vec<RouteCfg> = Vec::new();
        let mut k: usize = 0;
        assert(rs.take(0) =~= Seq::<raw::RouteView>::empty());
        assert(routes.deep_view() =~= Seq::<RouteCfgView>::empty());
        while k < root.routes.len()
            invariant
                rs == root.routes.deep_view(),
                k <= rs.len(),
                known == webhooks@.dom(),
                routes_of(rs.take(k as int), known) == Ok::<Seq<RouteCfgView>, ConfigErrorView>(
                    routes.deep_view(),
                ),
                missing_env(root.webhooks.deep_view()) is None,
                !(root.ops_webhook.deep_view() matches Some(r) && r.value is None),
                known == hook_urls(root.webhooks.deep_view()).dom(),
            decreases rs.len() - k,
        {
            let ghost next = rs.take(k + 1);
            assert(next.drop_last() =~= rs.take(k as int));
            assert(next.last() == root.routes@[k as int].deep_view());
            match load_route(&root.routes[k], &webhooks) {
                Ok(r) => {
                    let ghost done = routes.deep_view();
                    routes.push(r);
                    assert(routes.deep_view() =~= done.push(r.deep_view()));
                },
                Err(e) => {
                    proof {
                        lemma_routes_prefix(rs, k + 1, known);
                    }
                    return Err(e);
                },
            }
            k = k + 1;
        }
        assert(rs.take(rs.len() as int) =~= rs);
        let mode: MediaMode = match parse_mode(root.media.mode.as_str()) {
            Some(mode) => mode,
            None => {
                return Err(
                    ConfigError::InvalidMode {
                        field: "media.mode".to_owned(),
                        got: root.media.mode.clone(),
                    },
                );
            },
        };
        let d: RefreshCfg = RefreshCfg::default();
        let refresh: RefreshCfg = match root.refresh {
            None => d,
            Some(r) => RefreshCfg {
                interval_mins: r.interval_mins.unwrap_or(d.interval_mins),
                horizon_hours: r.horizon_hours.unwrap_or(d.horizon_hours),
                reaction_horizon_mins: r.reaction_horizon_mins.unwrap_or(d.reaction_horizon_mins),
                reaction_early_check_secs: r.reaction_early_check_secs.unwrap_or(
                    d.reaction_early_check_secs,
                ),
            },
        };
        let store: StoreCfg = match &root.store {
            None => StoreCfg::default(),
            Some(s) => match &s.path {
                None => StoreCfg::default(),
                Some(p) => StoreCfg { path: p.clone() },
            },
        };
        let contract_passthrough: bool = match root.contract_passthrough {
            Some(b) => b,
            None => false,
        };
        let c: Config = Config {
            routes,
            webhooks,
            webhook_labels,
            ops_webhook,
            media: MediaCfg { mode, max_bytes: root.media.max_bytes },
            refresh,
            store,
            contract_passthrough,
        };
        assert(c.deep_view() =~= config_of(root.deep_view())->Ok_0);
        Ok(c)
    }
}

/// A webhook with a name is configured.
pub open spec fn is_hook(hooks: Seq<raw::WebhookView>, name: Seq<char>) -> bool {
    exists|i: int| 0 <= i < hooks.len() && (#[trigger] hooks[i]).name == name
}

proof fn lemma_hook_dom(hooks: Seq<raw::WebhookView>, name: Seq<char>)
    ensures
        hook_urls(hooks).dom().contains(name) <==> is_hook(hooks, name),
        hook_labels(hooks).dom().contains(name) <==> is_hook(hooks, name),
    decreases hooks.len(),
{
    if hooks.len() > 0 {
        let init = hooks.drop_last();
        lemma_hook_dom(init, name);
        assert(hooks[hooks.len() - 1] == hooks.last());
        if is_hook(init, name) {
            let i = choose|i: int| 0 <= i < init.len() && (#[trigger] init[i]).name == name;
            assert(hooks[i].name == name);
        }
        if is_hook(hooks, name) {
            let i = choose|i: int| 0 <= i < hooks.len() && (#[trigger] hooks[i]).name == name;
            if i < init.len() {
                assert(init[i].name == name);
            }
        }
    }
}

proof fn lemma_hook_value(hooks: Seq<raw::WebhookView>, i: int)
    requires
        0 <= i < hooks.len(),
        forall|j: int| i < j < hooks.len() ==> (#[trigger] hooks[j]).name != hooks[i].name,
    ensures
        hook_urls(hooks)[hooks[i].name] == hooks[i].url.value->0,
        hooks[i].label is Some ==> hook_labels(hooks)[hooks[i].name] == hooks[i].label->0,
        hooks[i].label is None ==> hook_labels(hooks)[hooks[i].name] == hooks[i].name,
    decreases hooks.len(),
{
    if i < hooks.len() - 1 {
        let init = hooks.drop_last();
        assert(hooks[hooks.len() - 1].name != hooks[i].name);
        assert forall|j: int| i < j < init.len() implies (#[trigger] init[j]).name
            != init[i].name by {
            assert(hooks[j].name != hooks[i].name);
        }
        lemma_hook_value(init, i);
        lemma_hook_dom(init, hooks[i].name);
    }
}

proof fn lemma_missing_env(hooks: Seq<raw::WebhookView>)
    ensures
        match missing_env(hooks) {
            None => forall|i: int| 0 <= i < hooks.len() ==> (#[trigger] hooks[i]).url.value is Some,
            Some(e) => exists|i: int|
                0 <= i < hooks.len() && (#[trigger] hooks[i]).url.value is None && e
                    == (ConfigErrorView::MissingEnv { name: hooks[i].name, env: hooks[i].url.env }),
        },
    decreases hooks.len(),
{
    if hooks.len() > 0 {
        let init = hooks.drop_last();
        lemma_missing_env(init);
        assert(hooks[hooks.len() - 1] == hooks.last());
        match missing_env(init) {
            Some(e) => {
                let i = choose|i: int|
                    0 <= i < init.len() && (#[trigger] init[i]).url.value is None && e
                        == (ConfigErrorView::MissingEnv {
                        name: init[i].name,
                        env: init[i].url.env,
                    });
                assert(hooks[i] == init[i]);
            },
            None => {
                assert forall|i: int| 0 <= i < init.len() implies (
                #[trigger] hooks[i]).url.value is Some by {
                    assert(init[i].url.value is Some);
                }
            },
        }
    }
}

proof fn lemma_first_unknown(to: Seq<Seq<char>>, known: Set<Seq<char>>)
    ensures
        match first_unknown(to, known) {
            None => forall|j: int| 0 <= j < to.len() ==> known.contains(#[trigger] to[j]),
            Some(h) => to.contains(h) && !known.contains(h),
        },
    decreases to.len(),
{
    if to.len() > 0 {
        let init = to.drop_last();
        lemma_first_unknown(init, known);
        assert(to[to.len() - 1] == to.last());
        match first_unknown(init, known) {
            Some(h) => {
                let j = choose|j: int| 0 <= j < init.len() && init[j] == h;
                assert(to[j] == h);
            },
            None => {
                assert forall|j: int| 0 <= j < init.len() implies known.contains(
                    #[trigger] to[j],
                ) by {
                    assert(known.contains(init[j]));
                }
            },
        }
    }
}

/// A media mode has one of the two names.
pub open spec fn is_mode(s: Seq<char>) -> bool {
    s == "reupload"@ || s == "placeholder"@
}

/// Nothing is wrong with a route: it has targets, all of them are webhooks, its source is a
/// number or a name, and its colour and its media mode are such, where it has any.
pub open spec fn route_is_valid(r: raw::RouteView, hooks: Seq<raw::WebhookView>) -> bool {
    &&& r.to.len() > 0
    &&& forall|j: int| 0 <= j < r.to.len() ==> is_hook(hooks, #[trigger] r.to[j])
    &&& r.from is Int || r.from is Text
    &&& r.color is Some ==> color_of(r.color->0) is Some
    &&& r.mode is Some ==> is_mode(r.mode->0)
}

proof fn lemma_route_valid(r: raw::RouteView, hooks: Seq<raw::WebhookView>)
    ensures
        route_of(r, hook_urls(hooks).dom()) is Ok <==> route_is_valid(r, hooks),
{
    let known = hook_urls(hooks).dom();
    lemma_first_unknown(r.to, known);
    if first_unknown(r.to, known) is None {
        assert forall|j: int| 0 <= j < r.to.len() implies is_hook(hooks, #[trigger] r.to[j]) by {
            lemma_hook_dom(hooks, r.to[j]);
        }
    } else {
        let h = first_unknown(r.to, known)->0;
        lemma_hook_dom(hooks, h);
        let j = choose|j: int| 0 <= j < r.to.len() && r.to[j] == h;
        assert(!is_hook(hooks, r.to[j]));
    }
}

proof fn lemma_routes_valid(rs: Seq<raw::RouteView>, hooks: Seq<raw::WebhookView>)
    ensures
        routes_of(rs, hook_urls(hooks).dom()) is Ok <==> forall|i: int|
            0 <= i < rs.len() ==> route_is_valid(#[trigger] rs[i], hooks),
    decreases rs.len(),
{
    if rs.len() > 0 {
        let init = rs.drop_last();
        lemma_routes_valid(init, hooks);
        lemma_route_valid(rs.last(), hooks);
        assert(rs[rs.len() - 1] == rs.last());
        if routes_of(rs, hook_urls(hooks).dom()) is Ok {
            assert forall|i: int| 0 <= i < rs.len() implies route_is_valid(
                #[trigger] rs[i],
                hooks,
            ) by {
                if i < init.len() {
                    assert(init[i] == rs[i]);
                }
            }
        }
        if forall|i: int| 0 <= i < rs.len() ==> route_is_valid(#[trigger] rs[i], hooks) {
            assert(route_is_valid(rs[rs.len() - 1], hooks));
            assert forall|i: int| 0 <= i < init.len() implies route_is_valid(
                #[trigger] init[i],
                hooks,
            ) by {
                assert(route_is_valid(rs[i], hooks));
            }
        }
    }
}

/// A configuration is accepted exactly if nothing is wrong with it: every variable that it
/// names is set, every route is valid, and the media mode is one of the two words.
pub proof fn lemma_accepted(root: raw::RootView)
    ensures
        config_of(root) is Ok <==> {
            &&& forall|i: int|
                0 <= i < root.webhooks.len() ==> (#[trigger] root.webhooks[i]).url.value is Some
            &&& root.ops_webhook is Some ==> root.ops_webhook->0.value is Some
            &&& forall|i: int|
                0 <= i < root.routes.len() ==> route_is_valid(
                    #[trigger] root.routes[i],
                    root.webhooks,
                )
            &&& is_mode(root.media_mode)
        },
{
    lemma_missing_env(root.webhooks);
    lemma_routes_valid(root.routes, root.webhooks);
}

/// An accepted configuration is what the file says, and has the defaults where the file says
/// nothing: posts are looked at every thirty minutes for two days, their reactions after a
/// minute and for an hour; the record is kept in `relay.db`; contract addresses are handed on
/// only where that is asked for.
pub proof fn lemma_config_as_written(root: raw::RootView)
    requires
        config_of(root) is Ok,
    ensures
        ({
            let c = config_of(root)->Ok_0;
            &&& c.routes.len() == root.routes.len()
            &&& c.media.max_bytes == root.max_bytes
            &&& root.media_mode == "reupload"@ ==> c.media.mode == MediaMode::Reupload
            &&& root.media_mode == "placeholder"@ ==> c.media.mode == MediaMode::Placeholder
            &&& root.ops_webhook is None ==> c.ops_webhook is None
            &&& root.ops_webhook is Some ==> c.ops_webhook == root.ops_webhook->0.value
            &&& root.store_path is Some ==> c.store_path == root.store_path->0
            &&& root.store_path is None ==> c.store_path == "relay.db"@
            &&& c.contract_passthrough <==> root.contract_passthrough == Some(true)
            &&& root.refresh is None ==> c.refresh.interval_mins == 30 && c.refresh.horizon_hours
                == 48 && c.refresh.reaction_horizon_mins == 60
                && c.refresh.reaction_early_check_secs == 60
            &&& root.refresh matches Some(r) ==> {
                &&& r.interval_mins is Some ==> c.refresh.interval_mins == r.interval_mins->0
                &&& r.interval_mins is None ==> c.refresh.interval_mins == 30
                &&& r.horizon_hours is Some ==> c.refresh.horizon_hours == r.horizon_hours->0
                &&& r.horizon_hours is None ==> c.refresh.horizon_hours == 48
                &&& r.reaction_horizon_mins is Some ==> c.refresh.reaction_horizon_mins
                    == r.reaction_horizon_mins->0
                &&& r.reaction_horizon_mins is None ==> c.refresh.reaction_horizon_mins == 60
                &&& r.reaction_early_check_secs is Some ==> c.refresh.reaction_early_check_secs
                    == r.reaction_early_check_secs->0
                &&& r.reaction_early_check_secs is None ==> c.refresh.reaction_early_check_secs
                    == 60
            }
        }),
{
    reveal_strlit("reupload");
    reveal_strlit("placeholder");
    assert("reupload"@.len() == 8);
    assert("placeholder"@.len() == 11);
    if root.routes.len() > 0 {
        lemma_route_at(root.routes, hook_urls(root.webhooks).dom(), 0);
    }
}

/// Every route of an accepted configuration is the one that the file has in its place: under
/// its name and its label, from its source without the `@` before a name, to its webhooks, with
/// its filter, its colour and its media mode. A route without a colour is light blue.
pub proof fn lemma_route_as_written(root: raw::RootView, i: int)
    requires
        config_of(root) is Ok,
        0 <= i < root.routes.len(),
    ensures
        ({
            let c = config_of(root)->Ok_0.routes[i];
            let r = root.routes[i];
            &&& c.name == r.name
            &&& c.label == r.label
            &&& c.to == r.to
            &&& c.filter == r.filter
            &&& r.from matches raw::FromView::Int(n) ==> c.from == ChatRefView::Id(n)
            &&& r.from matches raw::FromView::Text(s) ==> (c.from matches ChatRefView::Username(u)
                && (u.len() == 0 || u[0] != '@') && exists|k: int|
                0 <= k <= s.len() && u == #[trigger] s.skip(k) && forall|j: int|
                    0 <= j < k ==> s[j] == '@')
            &&& r.color is None ==> c.color == 0x29B6F6
            &&& r.color is Some ==> color_of(r.color->0) == Some(c.color as int)
            &&& r.mode is None ==> c.media_mode is None
            &&& r.mode == Some("reupload"@) ==> c.media_mode == Some(MediaMode::Reupload)
            &&& r.mode == Some("placeholder"@) ==> c.media_mode == Some(MediaMode::Placeholder)
        }),
{
    let known = hook_urls(root.webhooks).dom();
    lemma_route_at(root.routes, known, i);
    reveal_strlit("reupload");
    reveal_strlit("placeholder");
    assert("reupload"@.len() == 8);
    assert("placeholder"@.len() == 11);
    let r = root.routes[i];
    if let raw::FromView::Text(s) = r.from {
        lemma_without_at(s);
    }
    if let Some(c) = r.color {
        let hex = if c.len() > 0 && c[0] == '#' {
            c.skip(1)
        } else {
            c
        };
        lemma_hex_bound(hex);
    }
}

proof fn lemma_without_at(s: Seq<char>)
    ensures
        without_at(s).len() == 0 || without_at(s)[0] != '@',
        exists|k: int|
            0 <= k <= s.len() && without_at(s) == #[trigger] s.skip(k) && forall|j: int|
                0 <= j < k ==> s[j] == '@',
    decreases s.len(),
{
    if s.len() > 0 && s[0] == '@' {
        let rest = s.skip(1);
        lemma_without_at(rest);
        let k = choose|k: int|
            0 <= k <= rest.len() && without_at(rest) == #[trigger] rest.skip(k) && forall|j: int|
                0 <= j < k ==> rest[j] == '@';
        assert(rest.skip(k) =~= s.skip(k + 1));
        assert forall|j: int| 0 <= j < k + 1 implies s[j] == '@' by {
            if j > 0 {
                assert(rest[j - 1] == s[j]);
            }
        }
    } else {
        assert(s.skip(0) =~= s);
    }
}

proof fn lemma_hex_bound(s: Seq<char>)
    ensures
        hex_value(s) matches Some(v) ==> {
            &&& 0 <= v
            &&& s.len() == 0 ==> v < 1
            &&& s.len() == 1 ==> v < 0x10
            &&& s.len() == 2 ==> v < 0x100
            &&& s.len() == 3 ==> v < 0x1000
            &&& s.len() == 4 ==> v < 0x10000
            &&& s.len() == 5 ==> v < 0x100000
            &&& s.len() == 6 ==> v < 0x1000000
        },
    decreases s.len(),
{
    if s.len() > 0 {
        lemma_hex_bound(s.drop_last());
    }
}

proof fn lemma_no_hash(n: nat, width: nat)
    requires
        width > 0,
    ensures
        text::hex_digits(n, width)[0] != '#',
    decreases width,
{
    text::lemma_hex_digits_len(n, width);
    text::lemma_hex_digits_len(n / 16, (width - 1) as nat);
    if width > 1 {
        lemma_no_hash(n / 16, (width - 1) as nat);
    }
}

/// A colour has six digits, behind a hash sign or without one: nothing else is one.
pub proof fn lemma_color_has_six_digits(s: Seq<char>)
    ensures
        color_of(s) is Some ==> s.len() == 6 || (s.len() == 7 && s[0] == '#'),
        s.len() == 6 && color_of(s) is Some ==> forall|i: int|
            0 <= i < 6 ==> ('0' <= #[trigger] s[i] <= '9' || 'a' <= s[i] <= 'f' || 'A' <= s[i]
                <= 'F'),
{
    if s.len() == 6 && s[0] != '#' {
        lemma_hex_digits_only(s);
    }
}

proof fn lemma_hex_digits_only(s: Seq<char>)
    ensures
        hex_value(s) is Some ==> forall|i: int|
            0 <= i < s.len() ==> ('0' <= #[trigger] s[i] <= '9' || 'a' <= s[i] <= 'f' || 'A'
                <= s[i] <= 'F'),
    decreases s.len(),
{
    if s.len() > 0 && hex_value(s) is Some {
        let init = s.drop_last();
        lemma_hex_digits_only(init);
        assert forall|i: int| 0 <= i < s.len() implies ('0' <= #[trigger] s[i] <= '9' || 'a'
            <= s[i] <= 'f' || 'A' <= s[i] <= 'F') by {
            if i < init.len() {
                assert(init[i] == s[i]);
            } else {
                assert(hex_digit_value(s.last()) is Some);
            }
        }
    }
}

/// A colour is written with its six hexadecimal digits, behind a hash sign or without one, and
/// is read as the number that they stand for.
pub proof fn lemma_color_is_read(n: nat)
    requires
        n < 0x1000000,
    ensures
        color_of(text::hex_digits(n, 6)) == Some(n as int),
        color_of(seq!['#'] + text::hex_digits(n, 6)) == Some(n as int),
{
    let s = text::hex_digits(n, 6);
    text::lemma_hex_digits_len(n, 6);
    assert(hex_bound(6) == 0x1000000) by {
        reveal_with_fuel(hex_bound, 7);
    }
    lemma_hex_is_read(n, 6);
    let t = seq!['#'] + s;
    assert(t.skip(1) =~= s);
    lemma_no_hash(n, 6);
}

spec fn hex_bound(width: nat) -> nat
    decreases width,
{
    if width == 0 {
        1
    } else {
        16 * hex_bound((width - 1) as nat)
    }
}

proof fn lemma_hex_is_read(n: nat, width: nat)
    requires
        n < hex_bound(width),
    ensures
        hex_value(text::hex_digits(n, width)) == Some(n as int),
    decreases width,
{
    if width > 0 {
        let w = (width - 1) as nat;
        lemma_hex_step(n, w);
        lemma_hex_is_read(n / 16, w);
    }
}

proof fn lemma_hex_step(n: nat, width: nat)
    ensures
        hex_value(text::hex_digits(n, width + 1)) == (match hex_value(
            text::hex_digits(n / 16, width),
        ) {
            Some(v) => Some(16 * v + n % 16),
            None => None,
        }),
{
    let s = text::hex_digits(n, width + 1);
    assert(s.drop_last() =~= text::hex_digits(n / 16, width));
    assert(s.last() == text::digit_char((n % 16) as int));
}

/// Under the name of each webhook stands the address that its variable holds, and its label, or
/// its name where it has none. Where a name comes twice, the later entry counts.
pub proof fn lemma_webhook_as_written(root: raw::RootView, i: int)
    requires
        config_of(root) is Ok,
        0 <= i < root.webhooks.len(),
        forall|j: int|
            i < j < root.webhooks.len() ==> (#[trigger] root.webhooks[j]).name
                != root.webhooks[i].name,
    ensures
        ({
            let c = config_of(root)->Ok_0;
            let w = root.webhooks[i];
            &&& c.webhooks.dom().contains(w.name)
            &&& w.url.value == Some(c.webhooks[w.name])
            &&& c.webhook_labels.dom().contains(w.name)
            &&& w.label is Some ==> c.webhook_labels[w.name] == w.label->0
            &&& w.label is None ==> c.webhook_labels[w.name] == w.name
        }),
{
    lemma_missing_env(root.webhooks);
    assert(root.webhooks[i].url.value is Some);
    lemma_hook_dom(root.webhooks, root.webhooks[i].name);
    lemma_hook_value(root.webhooks, i);
}

proof fn lemma_routes_error(rs: Seq<raw::RouteView>, known: Set<Seq<char>>)
    ensures
        routes_of(rs, known) matches Err(e) ==> exists|i: int|
            0 <= i < rs.len() && route_of(#[trigger] rs[i], known) == Err::<
                RouteCfgView,
                ConfigErrorView,
            >(e) && forall|j: int| 0 <= j < i ==> route_of(#[trigger] rs[j], known) is Ok,
    decreases rs.len(),
{
    if rs.len() > 0 {
        let init = rs.drop_last();
        lemma_routes_error(init, known);
        assert(rs[rs.len() - 1] == rs.last());
        match routes_of(init, known) {
            Err(e) => {
                let i = choose|i: int|
                    0 <= i < init.len() && route_of(#[trigger] init[i], known) == Err::<
                        RouteCfgView,
                        ConfigErrorView,
                    >(e) && forall|j: int| 0 <= j < i ==> route_of(#[trigger] init[j], known) is Ok;
                assert(rs[i] == init[i]);
                assert forall|j: int| 0 <= j < i implies route_of(#[trigger] rs[j], known) is Ok by {
                    assert(route_of(init[j], known) is Ok);
                }
            },
            Ok(done) => {
                assert forall|j: int| 0 <= j < init.len() implies route_of(
                    #[trigger] rs[j],
                    known,
                ) is Ok by {
                    lemma_route_at(init, known, j);
                    assert(init[j] == rs[j]);
                }
            },
        }
    }
}

/// What is said to be wrong with a configuration is wrong with it.
pub proof fn lemma_error_is_real(root: raw::RootView)
    requires
        config_of(root) is Err,
    ensures
        match config_of(root)->Err_0 {
            ConfigErrorView::MissingEnv { name, env } => (exists|i: int|
                0 <= i < root.webhooks.len() && (#[trigger] root.webhooks[i]).name == name
                    && root.webhooks[i].url.env == env && root.webhooks[i].url.value is None) || (
            name == "ops_webhook"@ && root.ops_webhook is Some && root.ops_webhook->0.env == env
                && root.ops_webhook->0.value is None),
            ConfigErrorView::EmptyTo { route } => exists|i: int|
                0 <= i < root.routes.len() && (#[trigger] root.routes[i]).name == route
                    && root.routes[i].to.len() == 0,
            ConfigErrorView::UnknownWebhook { route, hook } => !is_hook(root.webhooks, hook)
                && exists|i: int|
                0 <= i < root.routes.len() && (#[trigger] root.routes[i]).name == route
                    && root.routes[i].to.contains(hook),
            ConfigErrorView::InvalidFrom { route, .. } => exists|i: int|
                0 <= i < root.routes.len() && (#[trigger] root.routes[i]).name == route && !(
                root.routes[i].from is Int) && !(root.routes[i].from is Text),
            ConfigErrorView::InvalidColor { route, got } => color_of(got) is None && exists|i: int|
                0 <= i < root.routes.len() && (#[trigger] root.routes[i]).name == route
                    && root.routes[i].color == Some(got),
            ConfigErrorView::InvalidMode { got, .. } => !is_mode(got) && (root.media_mode == got
                || exists|i: int|
                0 <= i < root.routes.len() && (#[trigger] root.routes[i]).mode == Some(got)),
            _ => false,
        },
{
    let known = hook_urls(root.webhooks).dom();
    lemma_missing_env(root.webhooks);
    lemma_routes_error(root.routes, known);
    if missing_env(root.webhooks) is None && !(root.ops_webhook is Some
        && root.ops_webhook->0.value is None) && routes_of(root.routes, known) is Err {
        let e = routes_of(root.routes, known)->Err_0;
        let i = choose|i: int|
            0 <= i < root.routes.len() && route_of(#[trigger] root.routes[i], known) == Err::<
                RouteCfgView,
                ConfigErrorView,
            >(e) && forall|j: int| 0 <= j < i ==> route_of(#[trigger] root.routes[j], known) is Ok;
        let r = root.routes[i];
        lemma_first_unknown(r.to, known);
        if let Some(h) = first_unknown(r.to, known) {
            lemma_hook_dom(root.webhooks, h);
        }
        assert(root.routes[i].name == r.name);
    }
}

/// Every webhook is known under its name at its address.
pub proof fn lemma_urls(m: Map<Seq<char>, WebhookUrl>, name: Seq<char>)
    ensures
        urls(m).dom().contains(name) <==> m.dom().contains(name),
        m.dom().contains(name) ==> urls(m)[name] == m[name].0@,
{
}

/// What is said of a mistake names where it is and what stands there.
pub proof fn lemma_error_message(a: Seq<char>, b: Seq<char>)
    ensures
        error_message(ConfigErrorView::MissingEnv { name: a, env: b }) == "webhook '"@ + a
            + "': env var "@ + b + " is not set"@,
        error_message(ConfigErrorView::UnknownWebhook { route: a, hook: b }) == "route '"@ + a
            + "' references unknown webhook '"@ + b + "'"@,
        error_message(ConfigErrorView::EmptyTo { route: a }) == "route '"@ + a
            + "': 'to' must list at least one webhook"@,
        error_message(ConfigErrorView::InvalidFrom { route: a, got: b }) == "route '"@ + a
            + "': 'from' must be a string or integer, got "@ + b,
        error_message(ConfigErrorView::InvalidColor { route: a, got: b }) == "route '"@ + a
            + "': invalid color '"@ + b + "'; expected a quoted \"#RRGGBB\" hex string"@,
        error_message(ConfigErrorView::InvalidMode { field: a, got: b }) == a
            + ": invalid mode '"@ + b + "'; expected 'reupload' or 'placeholder'"@,
{
}

/// What stands in the place of a source is named by what it is.
pub proof fn lemma_wrong_source_is_named(s: Seq<char>)
    ensures
        source_of(raw::FromView::OtherNumber(s)) == Err::<ChatRefView, Seq<char>>("number "@ + s),
        source_of(raw::FromView::Bool(true)) == Err::<ChatRefView, Seq<char>>("boolean true"@),
        source_of(raw::FromView::Bool(false)) == Err::<ChatRefView, Seq<char>>("boolean false"@),
        source_of(raw::FromView::Null) == Err::<ChatRefView, Seq<char>>("null"@),
        source_of(raw::FromView::Sequence) == Err::<ChatRefView, Seq<char>>("sequence/array"@),
        source_of(raw::FromView::Mapping) == Err::<ChatRefView, Seq<char>>("mapping/object"@),
        source_of(raw::FromView::Other(s)) == Err::<ChatRefView, Seq<char>>(s),
{
}

} // verus!
