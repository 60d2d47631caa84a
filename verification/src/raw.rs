//! The configuration file as it is written down, before anything in it is checked.

use vstd::prelude::*;

verus! {

/// The source chat of a route, as the file gives it.
pub enum From {
    /// A whole number that fits in 64 bits.
    Int(i64),
    /// Any other number, in the notation of the file.
    OtherNumber(String),
    Text(String),
    Bool(bool),
    Null,
    Sequence,
    Mapping,
    /// Anything else, in some notation.
    Other(String),
}

pub enum FromView {
    Int(i64),
    OtherNumber(Seq<char>),
    Text(Seq<char>),
    Bool(bool),
    Null,
    Sequence,
    Mapping,
    Other(Seq<char>),
}

impl DeepView for From {
    type V = FromView;

    open spec fn deep_view(&self) -> FromView {
        match self {
            From::Int(n) => FromView::Int(*n),
            From::OtherNumber(s) => FromView::OtherNumber(s@),
            From::Text(s) => FromView::Text(s@),
            From::Bool(b) => FromView::Bool(*b),
            From::Null => FromView::Null,
            From::Sequence => FromView::Sequence,
            From::Mapping => FromView::Mapping,
            From::Other(s) => FromView::Other(s@),
        }
    }
}

pub struct Filter {
    pub any_keywords: Vec<String>,
    pub exclude_hashtags: Vec<String>,
}

pub struct FilterView {
    pub any_keywords: Seq<Seq<char>>,
    pub exclude_hashtags: Seq<Seq<char>>,
}

impl DeepView for Filter {
    type V = FilterView;

    open spec fn deep_view(&self) -> FilterView {
        FilterView {
            any_keywords: self.any_keywords.deep_view(),
            exclude_hashtags: self.exclude_hashtags.deep_view(),
        }
    }
}

pub struct Route {
    pub name: String,
    pub label: Option<String>,
    pub from: From,
    pub to: Vec<String>,
    pub filter: Option<Filter>,
    pub color: Option<String>,
    pub mode: Option<String>,
}

pub struct RouteView {
    pub name: Seq<char>,
    pub label: Option<Seq<char>>,
    pub from: FromView,
    pub to: Seq<Seq<char>>,
    pub filter: Option<FilterView>,
    pub color: Option<Seq<char>>,
    pub mode: Option<Seq<char>>,
}

impl DeepView for Route {
    type V = RouteView;

    open spec fn deep_view(&self) -> RouteView {
        RouteView {
            name: self.name@,
            label: self.label.deep_view(),
            from: self.from.deep_view(),
            to: self.to.deep_view(),
            filter: self.filter.deep_view(),
            color: self.color.deep_view(),
            mode: self.mode.deep_view(),
        }
    }
}

/// A reference to an environment variable, with what the environment holds under it.
pub struct EnvRef {
    pub env: String,
    pub value: Option<String>,
}

pub struct EnvRefView {
    pub env: Seq<char>,
    pub value: Option<Seq<char>>,
}

impl DeepView for EnvRef {
    type V = EnvRefView;

    open spec fn deep_view(&self) -> EnvRefView {
        EnvRefView { env: self.env@, value: self.value.deep_view() }
    }
}

pub struct Webhook {
    pub name: String,
    pub label: Option<String>,
    pub url: EnvRef,
}

pub struct WebhookView {
    pub name: Seq<char>,
    pub label: Option<Seq<char>>,
    pub url: EnvRefView,
}

impl DeepView for Webhook {
    type V = WebhookView;

    open spec fn deep_view(&self) -> WebhookView {
        WebhookView {
            name: self.name@,
            label: self.label.deep_view(),
            url: self.url.deep_view(),
        }
    }
}

pub struct Media {
    pub mode: String,
    pub max_bytes: u64,
}

#[derive(Clone, Copy)]
pub struct Refresh {
    pub interval_mins: Option<u64>,
    pub horizon_hours: Option<u64>,
    pub reaction_horizon_mins: Option<u64>,
    pub reaction_early_check_secs: Option<u64>,
}

pub struct Store {
    pub path: Option<String>,
}

/// The whole file.
pub struct Root {
    pub routes: Vec<Route>,
    pub webhooks: Vec<Webhook>,
    pub ops_webhook: Option<EnvRef>,
    pub media: Media,
    pub refresh: Option<Refresh>,
    pub store: Option<Store>,
    pub contract_passthrough: Option<bool>,
}

pub struct RootView {
    pub routes: Seq<RouteView>,
    pub webhooks: Seq<WebhookView>,
    pub ops_webhook: Option<EnvRefView>,
    pub media_mode: Seq<char>,
    pub max_bytes: u64,
    pub refresh: Option<Refresh>,
    pub store_path: Option<Seq<char>>,
    pub contract_passthrough: Option<bool>,
}

impl DeepView for Root {
    type V = RootView;

    open spec fn deep_view(&self) -> RootView {
        RootView {
            routes: self.routes.deep_view(),
            webhooks: self.webhooks.deep_view(),
            ops_webhook: self.ops_webhook.deep_view(),
            media_mode: self.media.mode@,
            max_bytes: self.media.max_bytes,
            refresh: self.refresh,
            store_path: match self.store {
                Some(s) => s.path.deep_view(),
                None => None,
            },
            contract_passthrough: self.contract_passthrough,
        }
    }
}

} // verus!
