//! What is made of Telegram messages: whether and how each is relayed.

use vstd::prelude::*;
use vstd::string::*;

use crate::config::{ChatId, ChatRef, Filter, RouteCfg, WebhookName};
use crate::config;
use crate::router;
use crate::router::ResolvedRoute;
use crate::text;

verus! {

/// The title and the photo of a channel.
pub struct ChannelIdentity {
    pub title: String,
    pub photo: Option<Vec<u8>>,
}

pub struct ChannelIdentityView {
    pub title: Seq<char>,
    pub photo: Option<Seq<u8>>,
}

impl DeepView for ChannelIdentity {
    type V = ChannelIdentityView;

    open spec fn deep_view(&self) -> ChannelIdentityView {
        ChannelIdentityView { title: self.title@, photo: self.photo.deep_view() }
    }
}

/// Media as far as it decides what becomes of a message. Coordinates are decimal numbers.
pub enum ParsedMedia {
    Photo,
    Document { name: Option<String> },
    Sticker,
    WebPage,
    Poll { question: String, options: Vec<String> },
    Geo { lat: String, lng: String },
    GeoLive { coords: Option<(String, String)> },
    Venue { title: String, address: String },
    Contact { first_name: String, last_name: String, phone: String },
    Dice { emoji: String, value: i32 },
    /// Any other kind.
    Other,
}

pub enum ParsedMediaView {
    Photo,
    Document { name: Option<Seq<char>> },
    Sticker,
    WebPage,
    Poll { question: Seq<char>, options: Seq<Seq<char>> },
    Geo { lat: Seq<char>, lng: Seq<char> },
    GeoLive { coords: Option<(Seq<char>, Seq<char>)> },
    Venue { title: Seq<char>, address: Seq<char> },
    Contact { first_name: Seq<char>, last_name: Seq<char>, phone: Seq<char> },
    Dice { emoji: Seq<char>, value: i32 },
    Other,
}

impl DeepView for ParsedMedia {
    type V = ParsedMediaView;

    open spec fn deep_view(&self) -> ParsedMediaView {
        match self {
            ParsedMedia::Photo => ParsedMediaView::Photo,
            ParsedMedia::Document { name } => ParsedMediaView::Document { name: name.deep_view() },
            ParsedMedia::Sticker => ParsedMediaView::Sticker,
            ParsedMedia::WebPage => ParsedMediaView::WebPage,
            ParsedMedia::Poll { question, options } => ParsedMediaView::Poll {
                question: question@,
                options: options.deep_view(),
            },
            ParsedMedia::Geo { lat, lng } => ParsedMediaView::Geo { lat: lat@, lng: lng@ },
            ParsedMedia::GeoLive { coords } => ParsedMediaView::GeoLive {
                coords: coords.deep_view(),
            },
            ParsedMedia::Venue { title, address } => ParsedMediaView::Venue {
                title: title@,
                address: address@,
            },
            ParsedMedia::Contact { first_name, last_name, phone } => ParsedMediaView::Contact {
                first_name: first_name@,
                last_name: last_name@,
                phone: phone@,
            },
            ParsedMedia::Dice { emoji, value } => ParsedMediaView::Dice {
                emoji: emoji@,
                value: *value,
            },
            ParsedMedia::Other => ParsedMediaView::Other,
        }
    }
}

/// What is said in place of media that has no file.
#[derive(Debug)]
pub enum MediaNotice {
    Poll { question: String, options: Vec<String> },
    Location { lat: String, lng: String },
    LiveLocation { coords: Option<(String, String)> },
    Venue { title: String, address: String },
    Contact { name: String, phone: String },
    Dice { emoji: String, value: i32 },
    /// Media of a kind that is not known.
    Unsupported,
}

pub enum MediaNoticeView {
    Poll { question: Seq<char>, options: Seq<Seq<char>> },
    Location { lat: Seq<char>, lng: Seq<char> },
    LiveLocation { coords: Option<(Seq<char>, Seq<char>)> },
    Venue { title: Seq<char>, address: Seq<char> },
    Contact { name: Seq<char>, phone: Seq<char> },
    Dice { emoji: Seq<char>, value: i32 },
    Unsupported,
}

impl DeepView for MediaNotice {
    type V = MediaNoticeView;

    open spec fn deep_view(&self) -> MediaNoticeView {
        match self {
            MediaNotice::Poll { question, options } => MediaNoticeView::Poll {
                question: question@,
                options: options.deep_view(),
            },
            MediaNotice::Location { lat, lng } => MediaNoticeView::Location { lat: lat@, lng: lng@ },
            MediaNotice::LiveLocation { coords } => MediaNoticeView::LiveLocation {
                coords: coords.deep_view(),
            },
            MediaNotice::Venue { title, address } => MediaNoticeView::Venue {
                title: title@,
                address: address@,
            },
            MediaNotice::Contact { name, phone } => MediaNoticeView::Contact {
                name: name@,
                phone: phone@,
            },
            MediaNotice::Dice { emoji, value } => MediaNoticeView::Dice {
                emoji: emoji@,
                value: *value,
            },
            MediaNotice::Unsupported => MediaNoticeView::Unsupported,
        }
    }
}

/// The options of a poll, each on a line of its own.
pub open spec fn option_lines(options: Seq<Seq<char>>) -> Seq<char>
    decreases options.len(),
{
    if options.len() == 0 {
        Seq::empty()
    } else {
        option_lines(options.drop_last()) + "\n• "@ + options.last()
    }
}

/// A notice in words.
pub open spec fn notice_text(n: MediaNoticeView) -> Seq<char> {
    match n {
        MediaNoticeView::Poll { question, options } => "[poll] "@ + question + option_lines(options),
        MediaNoticeView::Location { lat, lng } => "[location] "@ + lat + ", "@ + lng,
        MediaNoticeView::LiveLocation { coords } => match coords {
            Some(c) => "[live location] "@ + c.0 + ", "@ + c.1,
            None => "[live location]"@,
        },
        MediaNoticeView::Venue { title, address } => if text::is_blank(address) {
            "[venue] "@ + title
        } else {
            "[venue] "@ + title + " — "@ + address
        },
        MediaNoticeView::Contact { name, phone } => {
            let who = text::trimmed(name);
            if who.len() > 0 && !text::is_blank(phone) {
                "[contact] "@ + who + " — "@ + phone
            } else if who.len() > 0 {
                "[contact] "@ + who
            } else if !text::is_blank(phone) {
                "[contact] "@ + phone
            } else {
                "[contact]"@
            }
        },
        MediaNoticeView::Dice { emoji, value } => "[dice] "@ + emoji + " "@ + text::decimal(
            value as int,
        ),
        MediaNoticeView::Unsupported => "[unsupported media]"@,
    }
}

impl MediaNotice {
    /// The notice in words.
    pub fn render(&self) -> (r: String)
        ensures
            r@ == notice_text(self.deep_view()),
    {
        let mut out: String = String::new();
        match self {
            MediaNotice::Poll { question, options } => {
                out.append("[poll] ");
                out.append(question.as_str());
                let ghost head = out@;
                let ghost all = options.deep_view();
                let mut i: usize = 0;
                assert(all.take(0) =~= Seq::<Seq<char>>::empty());
                assert(out@ =~= head + option_lines(all.take(0)));
                while i < options.len()
                    invariant
                        all == options.deep_view(),
                        i <= all.len(),
                        out@ == head + option_lines(all.take(i as int)),
                    decreases all.len() - i,
                {
                    assert(all.take(i + 1).drop_last() =~= all.take(i as int));
                    assert(all.take(i + 1).last() == options@[i as int]@);
                    out.append("\n• ");
                    out.append(options[i].as_str());
                    assert(out@ =~= head + option_lines(all.take(i + 1)));
                    i = i + 1;
                }
                assert(all.take(all.len() as int) =~= all);
            },
            MediaNotice::Location { lat, lng } => {
                out.append("[location] ");
                out.append(lat.as_str());
                out.append(", ");
                out.append(lng.as_str());
            },
            MediaNotice::LiveLocation { coords } => match coords {
                Some(c) => {
                    out.append("[live location] ");
                    out.append(c.0.as_str());
                    out.append(", ");
                    out.append(c.1.as_str());
                },
                None => {
                    out.append("[live location]");
                },
            },
            MediaNotice::Venue { title, address } => {
                out.append("[venue] ");
                out.append(title.as_str());
                if !text::blank(address.as_str()) {
                    out.append(" — ");
                    out.append(address.as_str());
                }
            },
            MediaNotice::Contact { name, phone } => {
                let who: String = text::trim(name.as_str());
                let some_phone: bool = !text::blank(phone.as_str());
                if !who.as_str().is_empty() {
                    out.append("[contact] ");
                    out.append(who.as_str());
                    if some_phone {
                        out.append(" — ");
                        out.append(phone.as_str());
                    }
                } else if some_phone {
                    out.append("[contact] ");
                    out.append(phone.as_str());
                } else {
                    out.append("[contact]");
                }
            },
            MediaNotice::Dice { emoji, value } => {
                out.append("[dice] ");
                out.append(emoji.as_str());
                out.append(" ");
                text::push_int(&mut out, *value as i64);
            },
            MediaNotice::Unsupported => {
                out.append("[unsupported media]");
            },
        }
        assert(out@ =~= notice_text(self.deep_view()));
        out
    }
}

/// How media is relayed.
#[derive(Debug)]
pub enum MediaClass {
    /// As a file.
    File,
    /// As text: with a notice, or without one for a link preview, whose link already
    /// stands in the text.
    AsText(Option<MediaNotice>),
}

pub enum MediaClassView {
    File,
    AsText(Option<MediaNoticeView>),
}

impl DeepView for MediaClass {
    type V = MediaClassView;

    open spec fn deep_view(&self) -> MediaClassView {
        match self {
            MediaClass::File => MediaClassView::File,
            MediaClass::AsText(n) => MediaClassView::AsText(n.deep_view()),
        }
    }
}

/// How media of each kind is relayed: photos, documents and stickers are files; all the
/// rest is text.
pub open spec fn media_class(m: ParsedMediaView) -> MediaClassView {
    match m {
        ParsedMediaView::Photo | ParsedMediaView::Document { .. } | ParsedMediaView::Sticker => {
            MediaClassView::File
        },
        ParsedMediaView::WebPage => MediaClassView::AsText(None),
        ParsedMediaView::Poll { question, options } => MediaClassView::AsText(
            Some(MediaNoticeView::Poll { question, options }),
        ),
        ParsedMediaView::Geo { lat, lng } => MediaClassView::AsText(
            Some(MediaNoticeView::Location { lat, lng }),
        ),
        ParsedMediaView::GeoLive { coords } => MediaClassView::AsText(
            Some(MediaNoticeView::LiveLocation { coords }),
        ),
        ParsedMediaView::Venue { title, address } => MediaClassView::AsText(
            Some(MediaNoticeView::Venue { title, address }),
        ),
        ParsedMediaView::Contact { first_name, last_name, phone } => MediaClassView::AsText(
            Some(
                MediaNoticeView::Contact {
                    name: text::trimmed(first_name + " "@ + last_name),
                    phone,
                },
            ),
        ),
        ParsedMediaView::Dice { emoji, value } => MediaClassView::AsText(
            Some(MediaNoticeView::Dice { emoji, value }),
        ),
        ParsedMediaView::Other => MediaClassView::AsText(Some(MediaNoticeView::Unsupported)),
    }
}

fn copy_pair(c: &Option<(String, String)>) -> (r: Option<(String, String)>)
    ensures
        r == *c,
{
    match c {
        Some(p) => Some((p.0.clone(), p.1.clone())),
        None => None,
    }
}

/// Decide how media is relayed.
pub fn classify_media(media: &ParsedMedia) -> (r: MediaClass)
    ensures
        r.deep_view() == media_class(media.deep_view()),
{
    match media {
        ParsedMedia::Photo => MediaClass::File,
        ParsedMedia::Document { .. } => MediaClass::File,
        ParsedMedia::Sticker => MediaClass::File,
        ParsedMedia::WebPage => MediaClass::AsText(None),
        ParsedMedia::Poll { question, options } => {
            let copy: Vec<String> = options.clone();
            assert(copy.deep_view() =~= options.deep_view());
            MediaClass::AsText(
                Some(MediaNotice::Poll { question: question.clone(), options: copy }),
            )
        },
        ParsedMedia::Geo { lat, lng } => MediaClass::AsText(
            Some(MediaNotice::Location { lat: lat.clone(), lng: lng.clone() }),
        ),
        ParsedMedia::GeoLive { coords } => MediaClass::AsText(
            Some(MediaNotice::LiveLocation { coords: copy_pair(coords) }),
        ),
        ParsedMedia::Venue { title, address } => MediaClass::AsText(
            Some(MediaNotice::Venue { title: title.clone(), address: address.clone() }),
        ),
        ParsedMedia::Contact { first_name, last_name, phone } => {
            let mut name: String = first_name.clone();
            name.append(" ");
            name.append(last_name.as_str());
            MediaClass::AsText(
                Some(
                    MediaNotice::Contact { name: text::trim(name.as_str()), phone: phone.clone() },
                ),
            )
        },
        ParsedMedia::Dice { emoji, value } => MediaClass::AsText(
            Some(MediaNotice::Dice { emoji: emoji.clone(), value: *value }),
        ),
        ParsedMedia::Other => MediaClass::AsText(Some(MediaNotice::Unsupported)),
    }
}

/// The name of a file that is attached.
pub open spec fn filename_of(m: ParsedMediaView, msg_id: i32) -> Seq<char> {
    match m {
        ParsedMediaView::Document { name: Some(n) } if n.len() > 0 => n,
        ParsedMediaView::Document { .. } => "file_"@ + text::decimal(msg_id as int) + ".bin"@,
        ParsedMediaView::Photo => "photo_"@ + text::decimal(msg_id as int) + ".jpg"@,
        ParsedMediaView::Sticker => "sticker_"@ + text::decimal(msg_id as int) + ".webp"@,
        _ => "media_"@ + text::decimal(msg_id as int) + ".bin"@,
    }
}

fn numbered(head: &str, msg_id: i32, tail: &str) -> (r: String)
    ensures
        r@ == head@ + text::decimal(msg_id as int) + tail@,
{
    let mut out: String = head.to_owned();
    text::push_int(&mut out, msg_id as i64);
    out.append(tail);
    out
}

/// The name under which a file is attached: its own, or one made from the message.
pub fn media_filename(media: &ParsedMedia, msg_id: i32) -> (r: String)
    ensures
        r@ == filename_of(media.deep_view(), msg_id),
{
    match media {
        ParsedMedia::Document { name } => match name {
            Some(n) => if n.as_str().is_empty() {
                numbered("file_", msg_id, ".bin")
            } else {
                n.clone()
            },
            None => numbered("file_", msg_id, ".bin"),
        },
        ParsedMedia::Photo => numbered("photo_", msg_id, ".jpg"),
        ParsedMedia::Sticker => numbered("sticker_", msg_id, ".webp"),
        _ => numbered("media_", msg_id, ".bin"),
    }
}

/// Whether a message carries anything that is worth relaying. Messages that only report
/// an action have neither text nor media.
pub fn has_relayable_content(text: &str, has_media: bool) -> (r: bool)
    ensures
        r == (has_media || !text::is_blank(text@)),
{
    has_media || !text::blank(text)
}

/// How a message is relayed.
#[derive(Debug)]
pub enum Routing {
    /// Not at all.
    Skip,
    /// As text, with this body.
    Text(String),
    /// As a file.
    File,
}

pub enum RoutingView {
    Skip,
    Text(Seq<char>),
    File,
}

impl DeepView for Routing {
    type V = RoutingView;

    open spec fn deep_view(&self) -> RoutingView {
        match self {
            Routing::Skip => RoutingView::Skip,
            Routing::Text(s) => RoutingView::Text(s@),
            Routing::File => RoutingView::File,
        }
    }
}

/// A caption with a notice below it, or the notice alone.
pub open spec fn combined(caption: Seq<char>, notice: Seq<char>) -> Seq<char> {
    if text::is_blank(caption) {
        notice
    } else {
        caption + "\n"@ + notice
    }
}

/// Put a notice below a caption; a blank caption leaves no empty line.
pub fn combine_body(caption: &str, notice: &str) -> (r: String)
    ensures
        r@ == combined(caption@, notice@),
{
    if text::blank(caption) {
        notice.to_owned()
    } else {
        let mut out: String = caption.to_owned();
        out.append("\n");
        out.append(notice);
        out
    }
}

/// How a message is relayed, from its text and its media: `raw_media` says that it has
/// media at all, known or not.
pub open spec fn routing_of(caption: Seq<char>, media: Option<ParsedMediaView>, raw_media: bool) -> RoutingView {
    if media is None && !raw_media && text::is_blank(caption) {
        RoutingView::Skip
    } else {
        match media {
            Some(m) => match media_class(m) {
                MediaClassView::File => RoutingView::File,
                MediaClassView::AsText(None) => RoutingView::Text(caption),
                MediaClassView::AsText(Some(n)) => RoutingView::Text(
                    combined(caption, notice_text(n)),
                ),
            },
            None => if raw_media {
                RoutingView::Text(combined(caption, notice_text(MediaNoticeView::Unsupported)))
            } else {
                RoutingView::Text(caption)
            },
        }
    }
}

/// Decide how a message is relayed.
pub fn route_message(caption: &str, media: &Option<ParsedMedia>, raw_media: bool) -> (r: Routing)
    ensures
        r.deep_view() == routing_of(caption@, media.deep_view(), raw_media),
{
    if !has_relayable_content(caption, media.is_some() || raw_media) {
        return Routing::Skip;
    }
    match media {
        Some(m) => match classify_media(m) {
            MediaClass::File => Routing::File,
            MediaClass::AsText(None) => Routing::Text(caption.to_owned()),
            MediaClass::AsText(Some(n)) => Routing::Text(
                combine_body(caption, n.render().as_str()),
            ),
        },
        None => if raw_media {
            Routing::Text(combine_body(caption, MediaNotice::Unsupported.render().as_str()))
        } else {
            Routing::Text(caption.to_owned())
        },
    }
}

/// Nothing that has content is passed over: a message is skipped exactly if it has no
/// media and its text is blank. A file is what the media is, and every other message
/// keeps its text.
pub proof fn lemma_nothing_passed_over(
    caption: Seq<char>,
    media: Option<ParsedMediaView>,
    raw_media: bool,
)
    ensures
        routing_of(caption, media, raw_media) is Skip <==> media is None && !raw_media
            && text::is_blank(caption),
        routing_of(caption, media, raw_media) is File ==> media is Some,
        routing_of(caption, media, raw_media) matches RoutingView::Text(b) ==> b == caption
            || text::is_blank(caption) || text::matches_at(b, caption, 0),
{
    if let RoutingView::Text(b) = routing_of(caption, media, raw_media) {
        if b != caption && !text::is_blank(caption) {
            assert(b.subrange(0, caption.len() as int) =~= caption);
        }
    }
}

/// A message.
pub struct Message {
    pub chat: ChatId,
    pub msg_id: i32,
    pub grouped_id: Option<i64>,
    pub text: String,
    pub media: Option<ParsedMedia>,
    /// Whether the message has media at all, known or not.
    pub raw_media: bool,
    pub sender: Option<String>,
    /// The title of the chat.
    pub title: Option<String>,
    /// The public name of the chat.
    pub username: Option<String>,
    /// How large the file is, as far as that is known.
    pub size: Option<u64>,
    /// When the message was published.
    pub date: String,
}

pub struct MessageView {
    pub chat: i64,
    pub msg_id: i32,
    pub grouped_id: Option<i64>,
    pub text: Seq<char>,
    pub media: Option<ParsedMediaView>,
    pub raw_media: bool,
    pub sender: Option<Seq<char>>,
    pub title: Option<Seq<char>>,
    pub username: Option<Seq<char>>,
    pub size: Option<u64>,
    pub date: Seq<char>,
}

impl DeepView for Message {
    type V = MessageView;

    open spec fn deep_view(&self) -> MessageView {
        MessageView {
            chat: self.chat.0,
            msg_id: self.msg_id,
            grouped_id: self.grouped_id,
            text: self.text@,
            media: self.media.deep_view(),
            raw_media: self.raw_media,
            sender: self.sender.deep_view(),
            title: self.title.deep_view(),
            username: self.username.deep_view(),
            size: self.size,
            date: self.date@,
        }
    }
}

/// Something that happened.
pub enum Event {
    NewMessage(Message),
    MessageEdited(Message),
    Other,
}

pub enum EventView {
    NewMessage(MessageView),
    MessageEdited(MessageView),
    Other,
}

impl DeepView for Event {
    type V = EventView;

    open spec fn deep_view(&self) -> EventView {
        match self {
            Event::NewMessage(m) => EventView::NewMessage(m.deep_view()),
            Event::MessageEdited(m) => EventView::MessageEdited(m.deep_view()),
            Event::Other => EventView::Other,
        }
    }
}

/// A message that is to be relayed.
pub enum Incoming {
    Text {
        chat: ChatId,
        msg_id: i32,
        sender: Option<String>,
        body: String,
        reply_quote: Option<String>,
        edited: bool,
        title: Option<String>,
        deep_link: Option<String>,
        date: String,
    },
    Media {
        chat: ChatId,
        msg_id: i32,
        grouped_id: Option<i64>,
        /// The name under which the file is attached.
        filename: String,
        caption: String,
        sender: Option<String>,
        approx_size: u64,
        deep_link: Option<String>,
        title: Option<String>,
        date: String,
    },
}

pub enum IncomingView {
    Text {
        chat: i64,
        msg_id: i32,
        sender: Option<Seq<char>>,
        body: Seq<char>,
        reply_quote: Option<Seq<char>>,
        edited: bool,
        title: Option<Seq<char>>,
        deep_link: Option<Seq<char>>,
        date: Seq<char>,
    },
    Media {
        chat: i64,
        msg_id: i32,
        grouped_id: Option<i64>,
        filename: Seq<char>,
        caption: Seq<char>,
        sender: Option<Seq<char>>,
        approx_size: u64,
        deep_link: Option<Seq<char>>,
        title: Option<Seq<char>>,
        date: Seq<char>,
    },
}

impl DeepView for Incoming {
    type V = IncomingView;

    open spec fn deep_view(&self) -> IncomingView {
        match self {
            Incoming::Text {
                chat,
                msg_id,
                sender,
                body,
                reply_quote,
                edited,
                title,
                deep_link,
                date,
            } => IncomingView::Text {
                chat: chat.0,
                msg_id: *msg_id,
                sender: sender.deep_view(),
                body: body@,
                reply_quote: reply_quote.deep_view(),
                edited: *edited,
                title: title.deep_view(),
                deep_link: deep_link.deep_view(),
                date: date@,
            },
            Incoming::Media {
                chat,
                msg_id,
                grouped_id,
                filename,
                caption,
                sender,
                approx_size,
                deep_link,
                title,
                date,
            } => IncomingView::Media {
                chat: chat.0,
                msg_id: *msg_id,
                grouped_id: *grouped_id,
                filename: filename@,
                caption: caption@,
                sender: sender.deep_view(),
                approx_size: *approx_size,
                deep_link: deep_link.deep_view(),
                title: title.deep_view(),
                date: date@,
            },
        }
    }
}

/// The link to a message of a chat with a public name.
pub open spec fn deep_link_of(username: Option<Seq<char>>, msg_id: i32) -> Option<Seq<char>> {
    match username {
        Some(u) => Some("https://t.me/"@ + u + "/"@ + text::decimal(msg_id as int)),
        None => None,
    }
}

/// The link to a message of a chat with a public name.
pub fn deep_link(username: &Option<String>, msg_id: i32) -> (r: Option<String>)
    ensures
        r.deep_view() == deep_link_of(username.deep_view(), msg_id),
{
    match username {
        Some(u) => {
            let mut out: String = "https://t.me/".to_owned();
            out.append(u.as_str());
            out.append("/");
            text::push_int(&mut out, msg_id as i64);
            Some(out)
        },
        None => None,
    }
}

/// What is to be relayed of a message.
pub open spec fn incoming_of(m: MessageView, edited: bool) -> Option<IncomingView> {
    match routing_of(m.text, m.media, m.raw_media) {
        RoutingView::Skip => None,
        RoutingView::Text(body) => Some(
            IncomingView::Text {
                chat: m.chat,
                msg_id: m.msg_id,
                sender: m.sender,
                body,
                reply_quote: None,
                edited,
                title: m.title,
                deep_link: deep_link_of(m.username, m.msg_id),
                date: m.date,
            },
        ),
        RoutingView::File => Some(
            IncomingView::Media {
                chat: m.chat,
                msg_id: m.msg_id,
                grouped_id: m.grouped_id,
                filename: filename_of(m.media->0, m.msg_id),
                caption: m.text,
                sender: m.sender,
                approx_size: match m.size {
                    Some(n) => n,
                    None => 0,
                },
                deep_link: deep_link_of(m.username, m.msg_id),
                title: m.title,
                date: m.date,
            },
        ),
    }
}

/// What is to be relayed of an event: only messages, new or edited, and only those with
/// content.
pub open spec fn classified(e: EventView) -> Option<IncomingView> {
    match e {
        EventView::NewMessage(m) => incoming_of(m, false),
        EventView::MessageEdited(m) => incoming_of(m, true),
        EventView::Other => None,
    }
}

/// Decide what is to be relayed of an event.
pub fn classify(event: &Event) -> (r: Option<Incoming>)
    ensures
        r.deep_view() == classified(event.deep_view()),
{
    let (m, edited): (&Message, bool) = match event {
        Event::NewMessage(m) => (m, false),
        Event::MessageEdited(m) => (m, true),
        Event::Other => {
            return None;
        },
    };
    match route_message(m.text.as_str(), &m.media, m.raw_media) {
        Routing::Skip => None,
        Routing::Text(body) => Some(
            Incoming::Text {
                chat: m.chat,
                msg_id: m.msg_id,
                sender: m.sender.clone(),
                body,
                reply_quote: None,
                edited,
                title: m.title.clone(),
                deep_link: deep_link(&m.username, m.msg_id),
                date: m.date.clone(),
            },
        ),
        Routing::File => match &m.media {
            Some(media) => {
                let approx_size: u64 = match m.size {
                    Some(n) => n,
                    None => 0,
                };
                Some(
                    Incoming::Media {
                        chat: m.chat,
                        msg_id: m.msg_id,
                        grouped_id: m.grouped_id,
                        filename: media_filename(media, m.msg_id),
                        caption: m.text.clone(),
                        sender: m.sender.clone(),
                        approx_size,
                        deep_link: deep_link(&m.username, m.msg_id),
                        title: m.title.clone(),
                        date: m.date.clone(),
                    },
                )
            },
            None => None,
        },
    }
}

/// What came of looking up the public name that a route gives as its source.
pub enum Lookup {
    Found { id: i64, title: Option<String> },
    NotFound,
    /// The lookup itself failed, for this reason.
    Failed(String),
}

pub enum LookupView {
    Found { id: i64, title: Option<Seq<char>> },
    NotFound,
    Failed(Seq<char>),
}

impl DeepView for Lookup {
    type V = LookupView;

    open spec fn deep_view(&self) -> LookupView {
        match self {
            Lookup::Found { id, title } => LookupView::Found { id: *id, title: title.deep_view() },
            Lookup::NotFound => LookupView::NotFound,
            Lookup::Failed(e) => LookupView::Failed(e@),
        }
    }
}

/// The routes whose sources are known, and why the others were left out.
pub struct Resolution {
    pub routes: Vec<ResolvedRoute>,
    pub failures: Vec<String>,
}

pub struct ResolutionView {
    pub routes: Seq<router::ResolvedRouteView>,
    pub failures: Seq<Seq<char>>,
}

impl DeepView for Resolution {
    type V = ResolutionView;

    open spec fn deep_view(&self) -> ResolutionView {
        ResolutionView { routes: self.routes.deep_view(), failures: self.failures.deep_view() }
    }
}

/// A route with its source: a chat id stands for itself, a public name for the chat that
/// was found under it.
pub open spec fn resolved_route(r: config::RouteCfgView, found: LookupView) -> Result<
    router::ResolvedRouteView,
    Seq<char>,
> {
    let chat: Result<i64, Seq<char>> = match r.from {
        config::ChatRefView::Id(id) => Ok(id),
        config::ChatRefView::Username(u) => match found {
            LookupView::Found { id, .. } => Ok(id),
            LookupView::NotFound => Err(
                "route '"@ + r.name + "': username '@"@ + u + "' not found"@,
            ),
            LookupView::Failed(e) => Err("route '"@ + r.name + "': "@ + e),
        },
    };
    match chat {
        Err(e) => Err(e),
        Ok(chat) => Ok(
            router::ResolvedRouteView {
                name: r.name,
                chat,
                to: r.to,
                filter: r.filter,
                color: r.color,
                media_mode: r.media_mode,
            },
        ),
    }
}

fn resolve_route(r: &RouteCfg, found: &Lookup) -> (res: Result<ResolvedRoute, String>)
    ensures
        match res {
            Ok(x) => resolved_route(r.deep_view(), found.deep_view()) == Ok::<
                router::ResolvedRouteView,
                Seq<char>,
            >(x.deep_view()),
            Err(e) => resolved_route(r.deep_view(), found.deep_view()) == Err::<
                router::ResolvedRouteView,
                Seq<char>,
            >(e@),
        },
{
    let chat: ChatId = match &r.from {
        ChatRef::Id(id) => *id,
        ChatRef::Username(u) => match found {
            Lookup::Found { id, .. } => ChatId(*id),
            Lookup::NotFound => {
                let mut e: String = "route '".to_owned();
                e.append(r.name.as_str());
                e.append("': username '@");
                e.append(u.as_str());
                e.append("' not found");
                return Err(e);
            },
            Lookup::Failed(why) => {
                let mut e: String = "route '".to_owned();
                e.append(r.name.as_str());
                e.append("': ");
                e.append(why.as_str());
                return Err(e);
            },
        },
    };
    let to: Vec<WebhookName> = r.to.clone();
    assert(to.deep_view() =~= r.to.deep_view());
    let filter: Option<Filter> = match &r.filter {
        Some(f) => Some(f.clone()),
        None => None,
    };
    Ok(
        ResolvedRoute {
            name: r.name.clone(),
            chat,
            to,
            filter,
            color: r.color,
            media_mode: r.media_mode,
        },
    )
}

/// The routes whose sources are known, in their order, and why the others were left out.
pub open spec fn resolution_of(routes: Seq<config::RouteCfgView>, found: Seq<LookupView>) -> ResolutionView
    decreases routes.len(),
{
    if routes.len() == 0 {
        ResolutionView { routes: Seq::empty(), failures: Seq::empty() }
    } else {
        let before = resolution_of(routes.drop_last(), found);
        match resolved_route(routes.last(), found[routes.len() - 1]) {
            Ok(r) => ResolutionView { routes: before.routes.push(r), ..before },
            Err(e) => ResolutionView { failures: before.failures.push(e), ..before },
        }
    }
}

/// Resolve all routes, from what came of the lookups. Fails only if there are routes and
/// the source of none is known; a route whose source is not known is left out otherwise.
pub fn resolve_routes(routes: &Vec<RouteCfg>, found: &Vec<Lookup>) -> (r: Result<Resolution, String>)
    requires
        routes@.len() == found@.len(),
    ensures
        ({
            let all = resolution_of(routes.deep_view(), found.deep_view());
            match r {
                Ok(x) => x.deep_view() == all && (all.routes.len() > 0 || routes@.len() == 0),
                Err(e) => {
                    &&& all.routes.len() == 0 && routes@.len() > 0
                    &&& e@ == "no route could be resolved: "@ + text::joined(all.failures, "; "@)
                },
            }
        }),
{
    let ghost rs = routes.deep_view();
    let ghost fs = found.deep_view();
    let mut out: Vec<ResolvedRoute> = Vec::new();
    let mut failures: Vec<String> = Vec::new();
    let mut i: usize = 0;
    assert(rs.take(0) =~= Seq::<config::RouteCfgView>::empty());
    assert(out.deep_view() =~= Seq::<router::ResolvedRouteView>::empty());
    assert(failures.deep_view() =~= Seq::<Seq<char>>::empty());
    while i < routes.len()
        invariant
            rs == routes.deep_view(),
            fs == found.deep_view(),
            rs.len() == fs.len(),
            i <= rs.len(),
            resolution_of(rs.take(i as int), fs) == (ResolutionView {
                routes: out.deep_view(),
                failures: failures.deep_view(),
            }),
        decreases rs.len() - i,
    {
        let ghost done = out.deep_view();
        let ghost failed = failures.deep_view();
        assert(rs.take(i + 1).drop_last() =~= rs.take(i as int));
        assert(rs.take(i + 1).last() == routes@[i as int].deep_view());
        assert(fs[i as int] == found@[i as int].deep_view());
        match resolve_route(&routes[i], &found[i]) {
            Ok(x) => {
                out.push(x);
                assert(out.deep_view() =~= done.push(x.deep_view()));
            },
            Err(e) => {
                failures.push(e);
                assert(failures.deep_view() =~= failed.push(e@));
            },
        }
        i = i + 1;
    }
    assert(rs.take(rs.len() as int) =~= rs);
    assert(out.deep_view().len() == out@.len());
    if out.len() == 0 && routes.len() > 0 {
        let mut e: String = "no route could be resolved: ".to_owned();
        e.append(text::join(&failures, "; ").as_str());
        return Err(e);
    }
    Ok(Resolution { routes: out, failures })
}

/// Every route is either resolved or reported.
pub proof fn lemma_resolution_complete(routes: Seq<config::RouteCfgView>, found: Seq<LookupView>)
    ensures
        resolution_of(routes, found).routes.len() + resolution_of(routes, found).failures.len()
            == routes.len(),
    decreases routes.len(),
{
    if routes.len() > 0 {
        lemma_resolution_complete(routes.drop_last(), found);
    }
}

/// The title under which a source is reported.
pub fn source_title(from: &ChatRef, found: &Lookup) -> (r: String)
    ensures
        r@ == (match from.deep_view() {
            config::ChatRefView::Id(id) => "id:"@ + text::decimal(id as int),
            config::ChatRefView::Username(u) => match found.deep_view() {
                LookupView::Found { title: Some(t), .. } => t,
                _ => u,
            },
        }),
{
    match from {
        ChatRef::Id(id) => {
            let mut out: String = "id:".to_owned();
            text::push_int(&mut out, id.0);
            out
        },
        ChatRef::Username(u) => match found {
            Lookup::Found { title, .. } => match title {
                Some(t) => t.clone(),
                None => u.clone(),
            },
            _ => u.clone(),
        },
    }
}

/// A text message is relayed with its text as it is, and with the chat, the number, the
/// sender, the title, the link and the time that it has. It counts as edited exactly if it
/// came as an edit.
pub proof fn lemma_text_is_taken(m: MessageView)
    requires
        m.media is None || m.media == Some(ParsedMediaView::WebPage),
        m.media is None ==> !m.raw_media && !text::is_blank(m.text),
    ensures
        classified(EventView::NewMessage(m)) matches Some(i) && is_text_of(i, m, m.text)
            && !i->edited,
        classified(EventView::MessageEdited(m)) matches Some(i) && is_text_of(i, m, m.text)
            && i->edited,
{
}

/// A text to relay, with this body, is that of a message.
pub open spec fn is_text_of(i: IncomingView, m: MessageView, body: Seq<char>) -> bool {
    &&& i is Text
    &&& i->Text_chat == m.chat
    &&& i->Text_msg_id == m.msg_id
    &&& i->Text_sender == m.sender
    &&& i->body == body
    &&& i->reply_quote is None
    &&& i->Text_title == m.title
    &&& i->Text_date == m.date
    &&& m.username is None ==> i->Text_deep_link is None
    &&& m.username is Some ==> i->Text_deep_link == Some(
        "https://t.me/"@ + m.username->0 + "/"@ + text::decimal(m.msg_id as int),
    )
}

/// Photos, documents and stickers are relayed as files: with the text as caption, the album,
/// the size as far as it is known, and everything else that the message has.
pub proof fn lemma_file_is_taken(m: MessageView, edited: bool)
    requires
        m.media is Some,
        m.media->0 is Photo || m.media->0 is Document || m.media->0 is Sticker,
    ensures
        incoming_of(m, edited) matches Some(i) && {
            &&& i is Media
            &&& i->Media_chat == m.chat
            &&& i->Media_msg_id == m.msg_id
            &&& i->grouped_id == m.grouped_id
            &&& i->caption == m.text
            &&& i->Media_sender == m.sender
            &&& i->Media_title == m.title
            &&& i->Media_date == m.date
            &&& m.size is Some ==> i->approx_size == m.size->0
            &&& m.size is None ==> i->approx_size == 0
            &&& m.username is None ==> i->Media_deep_link is None
            &&& m.username is Some ==> i->Media_deep_link == Some(
                "https://t.me/"@ + m.username->0 + "/"@ + text::decimal(m.msg_id as int),
            )
            &&& m.media->0 is Photo ==> i->filename == "photo_"@ + text::decimal(m.msg_id as int)
                + ".jpg"@
            &&& m.media->0 is Sticker ==> i->filename == "sticker_"@ + text::decimal(
                m.msg_id as int,
            ) + ".webp"@
            &&& m.media->0 is Document && m.media->0->name is Some
                && m.media->0->name->0.len() > 0 ==> i->filename
                == m.media->0->name->0
            &&& m.media->0 is Document && (m.media->0->name is None
                || m.media->0->name->0.len() == 0) ==> i->filename == "file_"@
                + text::decimal(m.msg_id as int) + ".bin"@
        },
{
}

/// Media that is no file is relayed as text: its text, where it is not blank, and below it a
/// notice that says what the media is.
pub proof fn lemma_notice_is_taken(m: MessageView, edited: bool, notice: Seq<char>)
    requires
        m.media is None ==> m.raw_media && notice == "[unsupported media]"@,
        m.media is Some ==> match m.media->0 {
            ParsedMediaView::Poll { question, options } => notice == "[poll] "@ + question
                + option_lines(options),
            ParsedMediaView::Geo { lat, lng } => notice == "[location] "@ + lat + ", "@ + lng,
            ParsedMediaView::GeoLive { coords: Some(c) } => notice == "[live location] "@ + c.0
                + ", "@ + c.1,
            ParsedMediaView::GeoLive { coords: None } => notice == "[live location]"@,
            ParsedMediaView::Venue { title, address } => if text::is_blank(address) {
                notice == "[venue] "@ + title
            } else {
                notice == "[venue] "@ + title + " — "@ + address
            },
            ParsedMediaView::Dice { emoji, value } => notice == "[dice] "@ + emoji + " "@
                + text::decimal(value as int),
            ParsedMediaView::Other => notice == "[unsupported media]"@,
            _ => false,
        },
    ensures
        text::is_blank(m.text) ==> (incoming_of(m, edited) matches Some(i) && is_text_of(
            i,
            m,
            notice,
        )),
        !text::is_blank(m.text) ==> (incoming_of(m, edited) matches Some(i) && is_text_of(
            i,
            m,
            m.text + "\n"@ + notice,
        )),
{
}

/// A contact is named by what is known of it: the two names without white space around them,
/// and the number behind them where there is one.
pub proof fn lemma_contact_is_named(first: Seq<char>, last: Seq<char>, phone: Seq<char>)
    requires
        first.len() > 0,
        !text::is_white_space(first[0]),
        last.len() > 0,
        !text::is_white_space(last.last()),
    ensures
        routing_of(
            Seq::empty(),
            Some(ParsedMediaView::Contact { first_name: first, last_name: last, phone }),
            true,
        ) == RoutingView::Text(
            if text::is_blank(phone) {
                "[contact] "@ + (first + " "@ + last)
            } else {
                "[contact] "@ + (first + " "@ + last) + " — "@ + phone
            },
        ),
{
    let who = first + " "@ + last;
    assert(who[0] == first[0]);
    assert(who.last() == last.last());
    assert(text::trimmed(who) == who);
}

/// Every option of a poll stands on a line of its own, in their order.
pub proof fn lemma_option_lines(options: Seq<Seq<char>>, i: int)
    requires
        0 <= i < options.len(),
    ensures
        text::contains_text(option_lines(options), "\n• "@ + options[i]),
        option_lines(options.take(i + 1)) == option_lines(options.take(i)) + "\n• "@ + options[i],
    decreases options.len(),
{
    let all = option_lines(options);
    assert(options.take(i + 1).drop_last() =~= options.take(i));
    assert(options.take(i + 1).last() == options[i]);
    let part = "\n• "@ + options[i];
    if i == options.len() - 1 {
        let at = all.len() - part.len();
        assert(all.subrange(at, at + part.len()) =~= part);
        assert(text::matches_at(all, part, at));
    } else {
        let init = options.drop_last();
        assert(init.take(i + 1) =~= options.take(i + 1));
        assert(init.take(i) =~= options.take(i));
        lemma_option_lines(init, i);
        let before = option_lines(init);
        let at = choose|at: int| text::matches_at(before, part, at);
        assert(all.subrange(at, at + part.len()) =~= before.subrange(at, at + part.len()));
        assert(text::matches_at(all, part, at));
    }
}

/// A route starts where it says: a chat id stands for itself, a public name for the chat that
/// was found under it. Everything else of the route stays as it is configured. A route whose
/// name was not found is reported with both names, and one whose lookup failed with the
/// reason.
pub proof fn lemma_resolved_route(r: config::RouteCfgView, found: LookupView)
    ensures
        r.from is Id ==> resolves_to(r, found, r.from->Id_0),
        r.from is Username && found is Found ==> resolves_to(r, found, found->id),
        r.from is Username && found is NotFound ==> resolved_route(r, found) == Err::<
            router::ResolvedRouteView,
            Seq<char>,
        >("route '"@ + r.name + "': username '@"@ + r.from->Username_0 + "' not found"@),
        r.from is Username && found is Failed ==> resolved_route(r, found) == Err::<
            router::ResolvedRouteView,
            Seq<char>,
        >("route '"@ + r.name + "': "@ + found->Failed_0),
{
}

/// A route resolves to one that starts at a chat and is the same otherwise.
pub open spec fn resolves_to(r: config::RouteCfgView, found: LookupView, chat: i64) -> bool {
    resolved_route(r, found) matches Ok(x) && {
        &&& x.chat == chat
        &&& x.name == r.name
        &&& x.to == r.to
        &&& x.filter == r.filter
        &&& x.color == r.color
        &&& x.media_mode == r.media_mode
    }
}

/// Every route that resolves is among the resolved ones, and every other one is reported.
pub proof fn lemma_resolution(routes: Seq<config::RouteCfgView>, found: Seq<LookupView>, i: int)
    requires
        0 <= i < routes.len(),
    ensures
        resolved_route(routes[i], found[i]) matches Ok(r) ==> resolution_of(
            routes,
            found,
        ).routes.contains(r),
        resolved_route(routes[i], found[i]) matches Err(e) ==> resolution_of(
            routes,
            found,
        ).failures.contains(e),
    decreases routes.len(),
{
    let init = routes.drop_last();
    let before = resolution_of(init, found);
    let all = resolution_of(routes, found);
    if i == routes.len() - 1 {
        match resolved_route(routes.last(), found[routes.len() - 1]) {
            Ok(r) => {
                assert(all.routes[before.routes.len() as int] == r);
            },
            Err(e) => {
                assert(all.failures[before.failures.len() as int] == e);
            },
        }
    } else {
        lemma_resolution(init, found, i);
        assert(init[i] == routes[i]);
        match resolved_route(routes[i], found[i]) {
            Ok(r) => {
                let k = choose|k: int| 0 <= k < before.routes.len() && before.routes[k] == r;
                assert(all.routes[k] == r);
            },
            Err(e) => {
                let k = choose|k: int| 0 <= k < before.failures.len() && before.failures[k] == e;
                assert(all.failures[k] == e);
            },
        }
    }
}

/// Resolved routes keep the order of the configuration: where all of them resolve, each stands
/// in its place and nothing is reported.
pub proof fn lemma_resolution_in_order(
    routes: Seq<config::RouteCfgView>,
    found: Seq<LookupView>,
)
    requires
        forall|i: int| 0 <= i < routes.len() ==> resolved_route(#[trigger] routes[i], found[i]) is Ok,
    ensures
        resolution_of(routes, found).failures.len() == 0,
        resolution_of(routes, found).routes.len() == routes.len(),
        forall|i: int|
            0 <= i < routes.len() ==> resolved_route(#[trigger] routes[i], found[i]) == Ok::<
                router::ResolvedRouteView,
                Seq<char>,
            >(resolution_of(routes, found).routes[i]),
    decreases routes.len(),
{
    if routes.len() > 0 {
        let init = routes.drop_last();
        assert forall|i: int| 0 <= i < init.len() implies resolved_route(
            #[trigger] init[i],
            found[i],
        ) is Ok by {
            assert(resolved_route(routes[i], found[i]) is Ok);
        }
        lemma_resolution_in_order(init, found);
        assert(resolved_route(routes[routes.len() - 1], found[routes.len() - 1]) is Ok);
        assert forall|i: int| 0 <= i < routes.len() implies resolved_route(
            #[trigger] routes[i],
            found[i],
        ) == Ok::<router::ResolvedRouteView, Seq<char>>(
            resolution_of(routes, found).routes[i],
        ) by {
            if i < init.len() {
                assert(init[i] == routes[i]);
                assert(resolved_route(init[i], found[i]) is Ok);
            }
        }
    }
}

/// A contact without a name is given by its number alone, and one without either by the word.
pub proof fn lemma_contact_without_name(phone: Seq<char>)
    ensures
        notice_text(MediaNoticeView::Contact { name: Seq::empty(), phone }) == (if text::is_blank(
            phone,
        ) {
            "[contact]"@
        } else {
            "[contact] "@ + phone
        }),
{
    assert(text::trimmed(Seq::<char>::empty()) == Seq::<char>::empty());
}

} // verus!
