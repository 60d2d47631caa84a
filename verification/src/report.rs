//! What the commands print: whether the webhooks can be reached, and the figures of the
//! store.

use vstd::prelude::*;
use vstd::string::*;

use crate::config;
use crate::config::WebhookUrl;
use crate::deliver;
use crate::deliver::Reply;
use crate::diagram;
use crate::json;
use crate::names::NameMap;
use crate::store::StoreStats;
use crate::text;

verus! {

/// The webhooks that are looked at: all those with a name, in dictionary order, then the
/// one for notices, if there is one.
pub open spec fn check_targets_of(
    names: Seq<Seq<char>>,
    urls: Map<Seq<char>, Seq<char>>,
    ops_webhook: Option<Seq<char>>,
) -> Seq<(Seq<char>, Seq<char>)> {
    let named = diagram::text_set(names).map_values(|n: Seq<char>| (n, urls[n]));
    match ops_webhook {
        Some(url) => named.push(("ops_webhook"@, url)),
        None => named,
    }
}

/// The webhooks that are looked at, by name.
pub fn check_targets(webhooks: &NameMap<WebhookUrl>, ops_webhook: &Option<WebhookUrl>) -> (r: Vec<
    (String, WebhookUrl),
>)
    ensures
        r.deep_view() == check_targets_of(
            webhooks.names(),
            config::urls(webhooks@),
            ops_webhook.deep_view(),
        ),
{
    let ghost urls = config::urls(webhooks@);
    let keys: Vec<String> = webhooks.keys();
    let ghost all = keys.deep_view();
    let mut sorted: Vec<String> = Vec::new();
    let mut i: usize = 0;
    assert(all.take(0) =~= Seq::<Seq<char>>::empty());
    assert(sorted.deep_view() =~= Seq::<Seq<char>>::empty());
    while i < keys.len()
        invariant
            all == keys.deep_view(),
            i <= all.len(),
            sorted.deep_view() == diagram::text_set(all.take(i as int)),
        decreases all.len() - i,
    {
        assert(all.take(i + 1).drop_last() =~= all.take(i as int));
        assert(all.take(i + 1).last() == keys@[i as int]@);
        diagram::add_text(&mut sorted, keys[i].as_str());
        i = i + 1;
    }
    assert(all.take(all.len() as int) =~= all);
    let ghost names = sorted.deep_view();
    proof {
        diagram::lemma_text_set(all);
    }
    let mut out: Vec<(String, WebhookUrl)> = Vec::new();
    let mut k: usize = 0;
    while k < sorted.len()
        invariant
            urls == config::urls(webhooks@),
            names == sorted.deep_view(),
            all == webhooks.names(),
            forall|y: Seq<char>| #[trigger] names.contains(y) <==> all.contains(y),
            forall|n: Seq<char>| #[trigger]
                webhooks.names().contains(n) <==> webhooks@.dom().contains(n),
            k <= names.len(),
            out@.len() == k,
            forall|j: int|
                0 <= j < k ==> (#[trigger] out@[j]).deep_view() == (names[j], urls[names[j]]),
        decreases names.len() - k,
    {
        assert(names[k as int] == sorted@[k as int]@);
        assert(names.contains(names[k as int]));
        assert(all.contains(names[k as int]));
        match webhooks.get(sorted[k].as_str()) {
            Some(url) => out.push((sorted[k].clone(), url.clone())),
            None => {
                assert(false);
            },
        }
        k = k + 1;
    }
    let ghost named = names.map_values(|n: Seq<char>| (n, urls[n]));
    assert(out.deep_view() =~= named);
    match ops_webhook {
        Some(url) => {
            out.push(("ops_webhook".to_owned(), url.clone()));
            assert(out.deep_view() =~= named.push(("ops_webhook"@, url.0@)));
        },
        None => {},
    }
    out
}

/// A webhook in words, by what Discord says of it.
pub open spec fn webhook_label_of(described: Option<json::Json>) -> Seq<char> {
    match described {
        Some(j) => {
            let name = match json::as_text(json::member(j, "name"@)) {
                Some(s) => s,
                None => "?"@,
            };
            let channel = match json::as_text(json::member(j, "channel_id"@)) {
                Some(s) => s,
                None => "?"@,
            };
            "\""@ + name + "\" (channel "@ + channel + ")"@
        },
        None => "reachable"@,
    }
}

fn text_under<'a>(v: &'a serde_json::Value, key: &str) -> (r: Option<&'a str>)
    ensures
        match r {
            Some(s) => json::as_text(json::member(json::json_of(*v), key@)) == Some(s@),
            None => json::as_text(json::member(json::json_of(*v), key@)) is None,
        },
{
    match json::get(v, key) {
        Some(m) => json::str_of(m),
        None => None,
    }
}

/// A webhook in words, where what Discord says of it has been read.
pub fn describe_webhook(described: Option<&serde_json::Value>) -> (r: String)
    ensures
        r@ == webhook_label_of(
            match described {
                Some(v) => Some(json::json_of(*v)),
                None => None,
            },
        ),
{
    match described {
        Some(v) => {
            let name: &str = match text_under(v, "name") {
                Some(s) => s,
                None => "?",
            };
            let channel: &str = match text_under(v, "channel_id") {
                Some(s) => s,
                None => "?",
            };
            let mut out: String = "\"".to_owned();
            out.append(name);
            out.append("\" (channel ");
            out.append(channel);
            out.append(")");
            out
        },
        None => "reachable".to_owned(),
    }
}

/// A webhook in words, by the response that describes it.
pub fn webhook_label(body: &str) -> (r: String)
    ensures
        r@ == webhook_label_of(json::parsed(body@)),
{
    match json::parse(body) {
        Some(v) => describe_webhook(Some(&v)),
        None => describe_webhook(None),
    }
}

/// One row of a table: a name, a status and the rest.
pub open spec fn row_of(name: Seq<char>, status: Seq<char>, detail: Seq<char>) -> Seq<char> {
    diagram::padded(name, 24) + "  "@ + diagram::padded(status, 8) + "  "@ + detail
}

/// One row of a table.
pub fn check_row(name: &str, status: &str, detail: &str) -> (r: String)
    ensures
        r@ == row_of(name@, status@, detail@),
{
    let mut out: String = String::new();
    diagram::push_padded(&mut out, name, 24);
    out.append("  ");
    diagram::push_padded(&mut out, status, 8);
    out.append("  ");
    out.append(detail);
    assert(out@ =~= row_of(name@, status@, detail@));
    out
}

/// What the answer of a webhook means: whether all is well, and its row.
pub open spec fn checked(name: Seq<char>, reply: deliver::ReplyView) -> (bool, Seq<char>) {
    match reply {
        deliver::ReplyView::Response { code, body, .. } => if deliver::is_success(code) {
            (true, row_of(name, "ok"@, webhook_label_of(json::parsed(body))))
        } else {
            (false, row_of(name, "FAIL"@, "HTTP "@ + text::decimal(code as int)))
        },
        deliver::ReplyView::Network(e) => (false, row_of(name, "FAIL"@, e)),
    }
}

/// What the answer of a webhook means: whether all is well, and its row in the table.
pub fn check_webhook(name: &str, reply: &Reply) -> (r: (bool, String))
    ensures
        (r.0, r.1@) == checked(name@, reply.deep_view()),
{
    match reply {
        Reply::Response { code, body, .. } => if 200 <= *code && *code < 300 {
            (true, check_row(name, "ok", webhook_label(body.as_str()).as_str()))
        } else {
            let mut detail: String = "HTTP ".to_owned();
            text::push_int(&mut detail, *code as i64);
            (false, check_row(name, "FAIL", detail.as_str()))
        },
        Reply::Network(e) => (false, check_row(name, "FAIL", e.as_str())),
    }
}

/// One line of the figures.
pub open spec fn figure(name: Seq<char>, n: int, unit: Seq<char>) -> Seq<char> {
    diagram::padded(name, 18) + text::decimal(n) + unit + "\n"@
}

/// The figures of the store.
pub open spec fn stats_text_of(s: StoreStats) -> Seq<char> {
    figure("tracked posts"@, s.tracked_posts as int, Seq::empty()) + figure(
        "deleted"@,
        s.deleted as int,
        Seq::empty(),
    ) + (match s.latency {
        Some(l) => figure("latency samples"@, l.count as int, Seq::empty()) + figure(
            "latency p50"@,
            l.p50 as int,
            " ms"@,
        ) + figure("latency p95"@, l.p95 as int, " ms"@) + figure(
            "latency min"@,
            l.min as int,
            " ms"@,
        ) + figure("latency max"@, l.max as int, " ms"@),
        None => diagram::padded("latency"@, 18) + "(no live relays recorded yet)\n"@,
    })
}

fn push_count(out: &mut String, name: &str, n: usize)
    ensures
        final(out)@ == old(out)@ + figure(name@, n as int, Seq::empty()),
{
    diagram::push_padded(out, name, 18);
    text::push_nat(out, n as u64);
    out.append("\n");
    assert(out@ =~= old(out)@ + figure(name@, n as int, Seq::empty()));
}

fn push_millis(out: &mut String, name: &str, n: i64)
    ensures
        final(out)@ == old(out)@ + figure(name@, n as int, " ms"@),
{
    diagram::push_padded(out, name, 18);
    text::push_int(out, n);
    out.append(" ms");
    out.append("\n");
    assert(out@ =~= old(out)@ + figure(name@, n as int, " ms"@));
}

/// The figures of the store, a line each.
pub fn stats_text(s: &StoreStats) -> (r: String)
    ensures
        r@ == stats_text_of(*s),
{
    let mut out: String = String::new();
    push_count(&mut out, "tracked posts", s.tracked_posts);
    push_count(&mut out, "deleted", s.deleted);
    match &s.latency {
        Some(l) => {
            push_count(&mut out, "latency samples", l.count);
            push_millis(&mut out, "latency p50", l.p50);
            push_millis(&mut out, "latency p95", l.p95);
            push_millis(&mut out, "latency min", l.min);
            push_millis(&mut out, "latency max", l.max);
        },
        None => {
            diagram::push_padded(&mut out, "latency", 18);
            out.append("(no live relays recorded yet)\n");
        },
    }
    assert(out@ =~= stats_text_of(*s));
    out
}

/// Every webhook that is configured is looked at, at its address, in dictionary order; the one
/// for notices comes last.
pub proof fn lemma_all_are_checked(
    names: Seq<Seq<char>>,
    urls: Map<Seq<char>, Seq<char>>,
    ops_webhook: Option<Seq<char>>,
    name: Seq<char>,
)
    ensures
        ({
            let r = check_targets_of(names, urls, ops_webhook);
            let n = if ops_webhook is Some {
                r.len() - 1
            } else {
                r.len() as int
            };
            &&& n >= 0
            &&& ops_webhook is Some ==> r[n] == ("ops_webhook"@, ops_webhook->0)
            &&& names.contains(name) <==> exists|i: int| 0 <= i < n && (#[trigger] r[i]).0 == name
            &&& forall|i: int| 0 <= i < n ==> (#[trigger] r[i]).1 == urls[r[i].0]
            &&& forall|i: int, j: int|
                #![trigger r[i], r[j]]
                0 <= i < j < n ==> text::text_less(r[i].0, r[j].0)
        }),
{
    diagram::lemma_text_set(names);
    let set = diagram::text_set(names);
    let r = check_targets_of(names, urls, ops_webhook);
    let n = set.len() as int;
    if names.contains(name) {
        assert(set.contains(name));
        let i = choose|i: int| 0 <= i < set.len() && set[i] == name;
        assert(r[i].0 == name);
    }
    if exists|i: int| 0 <= i < n && (#[trigger] r[i]).0 == name {
        let i = choose|i: int| 0 <= i < n && (#[trigger] r[i]).0 == name;
        assert(set[i] == name);
        assert(set.contains(name));
    }
    assert forall|i: int, j: int|
        #![trigger r[i], r[j]]
        0 <= i < j < n implies text::text_less(r[i].0, r[j].0) by {
        assert(text::text_less(set[i], set[j]));
    }
}

/// All is well with a webhook exactly if it answers with success. Its row starts with its name
/// and ends with what Discord calls it, or else with the code of the answer or with what went
/// wrong.
pub proof fn lemma_checked(name: Seq<char>, reply: deliver::ReplyView)
    ensures
        checked(name, reply).0 <==> reply is Response && 200 <= reply->code <= 299,
        text::matches_at(checked(name, reply).1, name, 0),
        checked(name, reply).0 ==> text::contains_text(checked(name, reply).1, "  ok"@)
            && text::ends_with(checked(name, reply).1, webhook_label_of(json::parsed(reply->body))),
        reply is Response && !checked(name, reply).0 ==> text::contains_text(
            checked(name, reply).1,
            "  FAIL"@,
        ) && text::ends_with(
            checked(name, reply).1,
            "HTTP "@ + text::decimal(reply->code as int),
        ),
        reply is Network ==> text::contains_text(checked(name, reply).1, "  FAIL"@)
            && text::ends_with(checked(name, reply).1, reply->Network_0),
{
    match reply {
        deliver::ReplyView::Response { code, body, .. } => {
            if deliver::is_success(code) {
                lemma_row(name, "ok"@, webhook_label_of(json::parsed(body)));
                reveal_strlit("  ok");
                reveal_strlit("ok");
                reveal_strlit("  ");
                assert("  "@ + "ok"@ =~= "  ok"@);
            } else {
                lemma_row(name, "FAIL"@, "HTTP "@ + text::decimal(code as int));
                lemma_fail();
            }
        },
        deliver::ReplyView::Network(e) => {
            lemma_row(name, "FAIL"@, e);
            lemma_fail();
        },
    }
}

proof fn lemma_fail()
    ensures
        "  "@ + "FAIL"@ == "  FAIL"@,
{
    reveal_strlit("  FAIL");
    reveal_strlit("FAIL");
    reveal_strlit("  ");
    assert("  "@ + "FAIL"@ =~= "  FAIL"@);
}

/// A row has its three parts in their order.
pub proof fn lemma_row(name: Seq<char>, status: Seq<char>, detail: Seq<char>)
    ensures
        text::matches_at(row_of(name, status, detail), name, 0),
        text::contains_text(row_of(name, status, detail), "  "@ + status),
        text::ends_with(row_of(name, status, detail), detail),
        row_of(name, status, detail).len() >= 36 + detail.len(),
{
    let r = row_of(name, status, detail);
    reveal_strlit("  ");
    assert("  "@.len() == 2);
    assert(r.subrange(0, name.len() as int) =~= name);
    let at = diagram::padded(name, 24).len() as int;
    let part = "  "@ + status;
    assert(r.subrange(at, at + part.len()) =~= part);
    assert(text::matches_at(r, part, at));
    assert(r.subrange(r.len() - detail.len(), r.len() as int) =~= detail);
}

/// A webhook is described by the name and the channel that Discord gives, each with a question
/// mark in its place where it is missing; one that is not described is at least reachable.
pub proof fn lemma_webhook_label(m: Map<Seq<char>, json::Json>)
    ensures
        webhook_label_of(None) == "reachable"@,
        m.dom().contains("name"@) && m["name"@] is Text && m.dom().contains("channel_id"@)
            && m["channel_id"@] is Text ==> webhook_label_of(Some(json::Json::Object(m))) == "\""@
            + m["name"@]->Text_0 + "\" (channel "@ + m["channel_id"@]->Text_0 + ")"@,
        !m.dom().contains("name"@) && m.dom().contains("channel_id"@) && m["channel_id"@] is Text
            ==> webhook_label_of(Some(json::Json::Object(m))) == "\""@ + "?"@ + "\" (channel "@
            + m["channel_id"@]->Text_0 + ")"@,
        m.dom().contains("name"@) && m["name"@] is Text && !m.dom().contains("channel_id"@)
            ==> webhook_label_of(Some(json::Json::Object(m))) == "\""@ + m["name"@]->Text_0
            + "\" (channel "@ + "?"@ + ")"@,
{
}

proof fn lemma_in_sum(a: Seq<char>, b: Seq<char>, part: Seq<char>)
    ensures
        text::contains_text(a, part) ==> text::contains_text(a + b, part),
        text::contains_text(b, part) ==> text::contains_text(a + b, part),
        text::contains_text(part, part),
{
    let s = a + b;
    let n = part.len() as int;
    if text::contains_text(a, part) {
        let i = choose|i: int| text::matches_at(a, part, i);
        assert(s.subrange(i, i + n) =~= a.subrange(i, i + n));
        assert(text::matches_at(s, part, i));
    }
    if text::contains_text(b, part) {
        let i = choose|i: int| text::matches_at(b, part, i);
        let k = a.len() + i;
        assert(s.subrange(k, k + n) =~= b.subrange(i, i + n));
        assert(text::matches_at(s, part, k));
    }
    assert(part.subrange(0, n) =~= part);
    assert(text::matches_at(part, part, 0));
}

/// A figure stands behind its name, with its unit, on a line of its own.
pub proof fn lemma_figure(name: Seq<char>, n: int, unit: Seq<char>)
    ensures
        text::matches_at(figure(name, n, unit), name, 0),
        text::ends_with(figure(name, n, unit), text::decimal(n) + unit + "\n"@),
        figure(name, n, unit).len() >= 18 + text::decimal(n).len() + unit.len(),
{
    let f = figure(name, n, unit);
    let tail = text::decimal(n) + unit + "\n"@;
    assert(f.subrange(0, name.len() as int) =~= name);
    assert(f.subrange(f.len() - tail.len(), f.len() as int) =~= tail);
}

/// All the figures of the record are reported: how many posts and deletions there are, and,
/// where latencies were measured, how many and each of their figures.
pub proof fn lemma_stats_text(s: StoreStats)
    ensures
        text::contains_text(
            stats_text_of(s),
            figure("tracked posts"@, s.tracked_posts as int, Seq::empty()),
        ),
        text::contains_text(stats_text_of(s), figure("deleted"@, s.deleted as int, Seq::empty())),
        s.latency matches Some(l) ==> {
            &&& text::contains_text(
                stats_text_of(s),
                figure("latency samples"@, l.count as int, Seq::empty()),
            )
            &&& text::contains_text(
                stats_text_of(s),
                figure("latency p50"@, l.p50 as int, " ms"@),
            )
            &&& text::contains_text(
                stats_text_of(s),
                figure("latency p95"@, l.p95 as int, " ms"@),
            )
            &&& text::contains_text(
                stats_text_of(s),
                figure("latency min"@, l.min as int, " ms"@),
            )
            &&& text::contains_text(
                stats_text_of(s),
                figure("latency max"@, l.max as int, " ms"@),
            )
        },
        s.latency is None ==> text::contains_text(
            stats_text_of(s),
            "(no live relays recorded yet)\n"@,
        ),
{
    let none = Seq::<char>::empty();
    let f1 = figure("tracked posts"@, s.tracked_posts as int, none);
    let f2 = figure("deleted"@, s.deleted as int, none);
    match s.latency {
        Some(l) => {
            let f3 = figure("latency samples"@, l.count as int, none);
            let f4 = figure("latency p50"@, l.p50 as int, " ms"@);
            let f5 = figure("latency p95"@, l.p95 as int, " ms"@);
            let f6 = figure("latency min"@, l.min as int, " ms"@);
            let f7 = figure("latency max"@, l.max as int, " ms"@);
            let rest = f3 + f4 + f5 + f6 + f7;
            lemma_in_sum(f1, f2, f1);
            lemma_in_sum(f1, f2, f2);
            lemma_in_sum(f1 + f2, rest, f1);
            lemma_in_sum(f1 + f2, rest, f2);
            lemma_in_sum(f3, f4, f3);
            lemma_in_sum(f3, f4, f4);
            lemma_in_sum(f3 + f4, f5, f3);
            lemma_in_sum(f3 + f4, f5, f4);
            lemma_in_sum(f3 + f4, f5, f5);
            lemma_in_sum(f3 + f4 + f5, f6, f3);
            lemma_in_sum(f3 + f4 + f5, f6, f4);
            lemma_in_sum(f3 + f4 + f5, f6, f5);
            lemma_in_sum(f3 + f4 + f5, f6, f6);
            lemma_in_sum(f3 + f4 + f5 + f6, f7, f3);
            lemma_in_sum(f3 + f4 + f5 + f6, f7, f4);
            lemma_in_sum(f3 + f4 + f5 + f6, f7, f5);
            lemma_in_sum(f3 + f4 + f5 + f6, f7, f6);
            lemma_in_sum(f3 + f4 + f5 + f6, f7, f7);
            lemma_in_sum(f1 + f2, rest, f3);
            lemma_in_sum(f1 + f2, rest, f4);
            lemma_in_sum(f1 + f2, rest, f5);
            lemma_in_sum(f1 + f2, rest, f6);
            lemma_in_sum(f1 + f2, rest, f7);
        },
        None => {
            let p = diagram::padded("latency"@, 18);
            let q = "(no live relays recorded yet)\n"@;
            lemma_in_sum(f1, f2, f1);
            lemma_in_sum(f1, f2, f2);
            lemma_in_sum(f1 + f2, p + q, f1);
            lemma_in_sum(f1 + f2, p + q, f2);
            lemma_in_sum(p, q, q);
            lemma_in_sum(f1 + f2, p + q, q);
        },
    }
}

} // verus!
