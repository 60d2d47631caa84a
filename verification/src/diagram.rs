//! The wiring diagram: which source goes where, and what each destination receives.

use vstd::prelude::*;
use vstd::string::*;

use crate::config;
use crate::config::{ChatRef, RouteCfg};
use crate::deliver;
use crate::names::NameMap;
use crate::text;

verus! {

/// A text among others in dictionary order, unless it is there already.
pub open spec fn insert_text(sorted: Seq<Seq<char>>, x: Seq<char>) -> Seq<Seq<char>>
    decreases sorted.len(),
{
    if sorted.len() == 0 {
        seq![x]
    } else if sorted.last() == x {
        sorted
    } else if text::text_less(sorted.last(), x) {
        sorted.push(x)
    } else {
        insert_text(sorted.drop_last(), x).push(sorted.last())
    }
}

/// The texts of a list in dictionary order, each once.
pub open spec fn text_set(l: Seq<Seq<char>>) -> Seq<Seq<char>>
    decreases l.len(),
{
    if l.len() == 0 {
        Seq::empty()
    } else {
        insert_text(text_set(l.drop_last()), l.last())
    }
}

/// Each text stands before the ones behind it in dictionary order.
pub open spec fn ascending_texts(l: Seq<Seq<char>>) -> bool {
    forall|i: int, j: int|
        #![trigger l[i], l[j]]
        0 <= i < j < l.len() ==> text::text_less(l[i], l[j])
}

proof fn lemma_insert_text(sorted: Seq<Seq<char>>, x: Seq<char>)
    requires
        ascending_texts(sorted),
    ensures
        ascending_texts(insert_text(sorted, x)),
        forall|y: Seq<char>| #[trigger]
            insert_text(sorted, x).contains(y) <==> sorted.contains(y) || y == x,
    decreases sorted.len(),
{
    let q = insert_text(sorted, x);
    if sorted.len() == 0 {
        assert(q[0] == x);
    } else {
        let last = sorted.last();
        let init = sorted.drop_last();
        assert(sorted[sorted.len() - 1] == last);
        text::lemma_text_less_total(last, x);
        if last == x {
        } else if text::text_less(last, x) {
            assert(q[sorted.len() as int] == x);
            assert forall|i: int, j: int|
                #![trigger q[i], q[j]]
                0 <= i < j < q.len() implies text::text_less(q[i], q[j]) by {
                if j == sorted.len() && i < sorted.len() - 1 {
                    assert(text::text_less(sorted[i], sorted[sorted.len() - 1]));
                    text::lemma_text_less_transitive(q[i], last, x);
                } else if j < sorted.len() {
                    assert(text::text_less(sorted[i], sorted[j]));
                }
            }
            assert forall|y: Seq<char>| #[trigger] q.contains(y) implies sorted.contains(y) || y
                == x by {
                let i = choose|i: int| 0 <= i < q.len() && q[i] == y;
                if i < sorted.len() {
                    assert(sorted[i] == y);
                }
            }
            assert forall|y: Seq<char>| sorted.contains(y) || y == x implies #[trigger] q.contains(
                y,
            ) by {
                if sorted.contains(y) {
                    let i = choose|i: int| 0 <= i < sorted.len() && sorted[i] == y;
                    assert(q[i] == y);
                }
            }
        } else {
            assert(ascending_texts(init)) by {
                assert forall|i: int, j: int|
                    #![trigger init[i], init[j]]
                    0 <= i < j < init.len() implies text::text_less(init[i], init[j]) by {
                    assert(text::text_less(sorted[i], sorted[j]));
                }
            }
            lemma_insert_text(init, x);
            let p = insert_text(init, x);
            assert(q[p.len() as int] == last);
            assert forall|i: int, j: int|
                #![trigger q[i], q[j]]
                0 <= i < j < q.len() implies text::text_less(q[i], q[j]) by {
                if j == p.len() {
                    assert(p.contains(p[i]));
                    if p[i] != x {
                        let k = choose|k: int| 0 <= k < init.len() && init[k] == p[i];
                        assert(text::text_less(sorted[k], sorted[sorted.len() - 1]));
                    }
                } else {
                    assert(text::text_less(p[i], p[j]));
                }
            }
            assert forall|y: Seq<char>| #[trigger] q.contains(y) implies sorted.contains(y) || y
                == x by {
                let i = choose|i: int| 0 <= i < q.len() && q[i] == y;
                if i < p.len() {
                    assert(p.contains(y));
                    if y != x {
                        let k = choose|k: int| 0 <= k < init.len() && init[k] == y;
                        assert(sorted[k] == y);
                    }
                }
            }
            assert forall|y: Seq<char>| sorted.contains(y) || y == x implies #[trigger] q.contains(
                y,
            ) by {
                if y != last {
                    if sorted.contains(y) {
                        let i = choose|i: int| 0 <= i < sorted.len() && sorted[i] == y;
                        assert(init[i] == y);
                    }
                    assert(p.contains(y));
                    let i = choose|i: int| 0 <= i < p.len() && p[i] == y;
                    assert(q[i] == y);
                }
            }
        }
    }
}

/// A list as a set: in dictionary order, nothing twice, nothing left out, nothing added.
pub proof fn lemma_text_set(l: Seq<Seq<char>>)
    ensures
        ascending_texts(text_set(l)),
        forall|y: Seq<char>| #[trigger] text_set(l).contains(y) <==> l.contains(y),
    decreases l.len(),
{
    if l.len() > 0 {
        let init = l.drop_last();
        lemma_text_set(init);
        lemma_insert_text(text_set(init), l.last());
        assert(l[l.len() - 1] == l.last());
        assert forall|y: Seq<char>| init.contains(y) || y == l.last() implies l.contains(y) by {
            if init.contains(y) {
                let i = choose|i: int| 0 <= i < init.len() && init[i] == y;
                assert(l[i] == y);
            }
        }
        assert forall|y: Seq<char>| l.contains(y) implies init.contains(y) || y == l.last() by {
            let i = choose|i: int| 0 <= i < l.len() && l[i] == y;
            if i < init.len() {
                assert(init[i] == y);
            }
        }
    }
}

/// Put a text where it belongs, unless it is there already.
pub fn add_text(sorted: &mut Vec<String>, x: &str)
    ensures
        final(sorted).deep_view() == insert_text(old(sorted).deep_view(), x@),
{
    let ghost all = sorted.deep_view();
    let mut at: usize = sorted.len();
    let ghost tail = Seq::<Seq<char>>::empty();
    assert(all.take(all.len() as int) =~= all);
    assert(all.skip(all.len() as int) =~= tail);
    assert(insert_text(all, x@) + tail =~= insert_text(all, x@));
    while at > 0 && !text::same_text(sorted[at - 1].as_str(), x) && !text::text_before(
        sorted[at - 1].as_str(),
        x,
    )
        invariant
            all == sorted.deep_view(),
            at <= all.len(),
            insert_text(all, x@) == insert_text(all.take(at as int), x@) + all.skip(at as int),
        decreases at,
    {
        let ghost front = all.take(at as int);
        assert(front.last() == sorted@[at - 1]@);
        assert(front.drop_last() =~= all.take(at - 1));
        assert(all.skip(at - 1) =~= seq![front.last()] + all.skip(at as int));
        assert(insert_text(front, x@) + all.skip(at as int) =~= insert_text(all.take(at - 1), x@)
            + all.skip(at - 1));
        at = at - 1;
    }
    let ghost front = all.take(at as int);
    if at > 0 {
        assert(front.last() == sorted@[at - 1]@);
    }
    if at > 0 && text::same_text(sorted[at - 1].as_str(), x) {
        assert(front + all.skip(at as int) =~= all);
        return ;
    }
    sorted.insert(at, x.to_owned());
    assert(sorted.deep_view() =~= insert_text(front, x@) + all.skip(at as int));
}

/// A chat as it is written in the configuration: by its public name, or by its number.
pub open spec fn source_of(from: config::ChatRefView) -> Seq<char> {
    match from {
        config::ChatRefView::Username(u) => "@"@ + u,
        config::ChatRefView::Id(id) => text::decimal(id as int),
    }
}

/// A chat as it is written in the configuration.
pub fn source_label(from: &ChatRef) -> (r: String)
    ensures
        r@ == source_of(from.deep_view()),
{
    match from {
        ChatRef::Username(u) => {
            let mut out: String = "@".to_owned();
            out.append(u.as_str());
            out
        },
        ChatRef::Id(id) => text::int_text(id.0),
    }
}

/// A source in short: its label, else as it is written in the configuration.
pub open spec fn short_source(r: config::RouteCfgView) -> Seq<char> {
    match r.label {
        Some(l) => l,
        None => source_of(r.from),
    }
}

/// A source in full: its label with what is written in the configuration.
pub open spec fn long_source(r: config::RouteCfgView) -> Seq<char> {
    match r.label {
        Some(l) => l + " ("@ + source_of(r.from) + ")"@,
        None => source_of(r.from),
    }
}

fn short_label(r: &RouteCfg) -> (s: String)
    ensures
        s@ == short_source(r.deep_view()),
{
    match &r.label {
        Some(l) => l.clone(),
        None => source_label(&r.from),
    }
}

fn long_label(r: &RouteCfg) -> (s: String)
    ensures
        s@ == long_source(r.deep_view()),
{
    match &r.label {
        Some(l) => {
            let mut out: String = l.clone();
            out.append(" (");
            out.append(source_label(&r.from).as_str());
            out.append(")");
            out
        },
        None => source_label(&r.from),
    }
}

/// A destination: its label, else its name.
pub open spec fn hook_label(labels: Map<Seq<char>, Seq<char>>, webhook: Seq<char>) -> Seq<char> {
    if labels.dom().contains(webhook) {
        labels[webhook]
    } else {
        webhook
    }
}

/// The text of each label.
pub open spec fn label_texts(m: Map<Seq<char>, String>) -> Map<Seq<char>, Seq<char>> {
    m.map_values(|s: String| s@)
}

fn label_of(labels: &NameMap<String>, webhook: &str) -> (r: String)
    ensures
        r@ == hook_label(label_texts(labels@), webhook@),
{
    match labels.get(webhook) {
        Some(l) => l.clone(),
        None => webhook.to_owned(),
    }
}

/// All the webhooks that routes lead to, as often as they do.
pub open spec fn all_hooks(routes: Seq<config::RouteCfgView>) -> Seq<Seq<char>>
    decreases routes.len(),
{
    if routes.len() == 0 {
        Seq::empty()
    } else {
        all_hooks(routes.drop_last()) + routes.last().to
    }
}

/// The sources of some routes, as they are written in the configuration.
pub open spec fn sources(routes: Seq<config::RouteCfgView>) -> Seq<Seq<char>> {
    routes.map_values(|r: config::RouteCfgView| source_of(r.from))
}

/// The sources in short of the routes that lead to a webhook.
pub open spec fn sources_into(routes: Seq<config::RouteCfgView>, webhook: Seq<char>) -> Seq<Seq<char>>
    decreases routes.len(),
{
    if routes.len() == 0 {
        Seq::empty()
    } else if routes.last().to.contains(webhook) {
        sources_into(routes.drop_last(), webhook).push(short_source(routes.last()))
    } else {
        sources_into(routes.drop_last(), webhook)
    }
}

pub open spec fn blanks(n: nat) -> Seq<char> {
    Seq::new(n, |i: int| ' ')
}

/// A text with blanks behind it, up to a width.
pub open spec fn padded(s: Seq<char>, width: nat) -> Seq<char> {
    if s.len() < width {
        s + blanks((width - s.len()) as nat)
    } else {
        s
    }
}

/// Put a text behind what `out` holds, with blanks up to a width.
pub fn push_padded(out: &mut String, s: &str, width: usize)
    ensures
        final(out)@ == old(out)@ + padded(s@, width as nat),
{
    let n: usize = text::chars_of(s).len();
    out.append(s);
    let mut i: usize = n;
    assert(blanks(0) =~= Seq::<char>::empty());
    assert(out@ + blanks(0) =~= out@);
    let ghost start = out@;
    while i < width
        invariant
            n <= i,
            n <= width ==> i <= width,
            n > width ==> i == n,
            out@ == start + blanks((i - n) as nat),
        decreases width - i,
    {
        out.push(' ');
        i = i + 1;
        assert(blanks((i - n) as nat) =~= blanks((i - 1 - n) as nat).push(' '));
        assert(out@ =~= start + blanks((i - n) as nat));
    }
    assert(out@ =~= old(out)@ + padded(s@, width as nat));
}

/// The line of a source.
pub open spec fn source_line(
    r: config::RouteCfgView,
    labels: Map<Seq<char>, Seq<char>>,
    width: nat,
) -> Seq<char> {
    "  "@ + padded(long_source(r), width) + "  ──▶  "@ + text::joined(
        r.to.map_values(|w: Seq<char>| hook_label(labels, w)),
        " · "@,
    ) + "\n"@
}

pub open spec fn source_lines(
    routes: Seq<config::RouteCfgView>,
    labels: Map<Seq<char>, Seq<char>>,
    width: nat,
) -> Seq<char>
    decreases routes.len(),
{
    if routes.len() == 0 {
        Seq::empty()
    } else {
        source_lines(routes.drop_last(), labels, width) + source_line(routes.last(), labels, width)
    }
}

/// The sources of the routes that lead to a webhook, as they are written in the
/// configuration.
pub open spec fn feeding(routes: Seq<config::RouteCfgView>, webhook: Seq<char>) -> Seq<Seq<char>>
    decreases routes.len(),
{
    if routes.len() == 0 {
        Seq::empty()
    } else if routes.last().to.contains(webhook) {
        feeding(routes.drop_last(), webhook).push(source_of(routes.last().from))
    } else {
        feeding(routes.drop_last(), webhook)
    }
}

/// There are several sources, and every one of them leads to a webhook.
pub open spec fn fed_by_all(routes: Seq<config::RouteCfgView>, webhook: Seq<char>) -> bool {
    &&& text_set(sources(routes)).len() > 1
    &&& forall|i: int|
        0 <= i < routes.len() ==> feeding(routes, webhook).contains(
            source_of((#[trigger] routes[i]).from),
        )
}

/// The line of a destination, which says where every source leads to it.
pub open spec fn hook_line(
    routes: Seq<config::RouteCfgView>,
    labels: Map<Seq<char>, Seq<char>>,
    webhook: Seq<char>,
    width: nat,
) -> Seq<char> {
    let srcs = text_set(sources_into(routes, webhook));
    "  "@ + padded(hook_label(labels, webhook), width) + "  ◀──  "@ + text::joined(srcs, " · "@) + (
    if fed_by_all(routes, webhook) {
        "   (all sources)"@
    } else {
        Seq::empty()
    }) + "\n"@
}

pub open spec fn hook_lines(
    routes: Seq<config::RouteCfgView>,
    labels: Map<Seq<char>, Seq<char>>,
    hooks: Seq<Seq<char>>,
    width: nat,
) -> Seq<char>
    decreases hooks.len(),
{
    if hooks.len() == 0 {
        Seq::empty()
    } else {
        hook_lines(routes, labels, hooks.drop_last(), width) + hook_line(
            routes,
            labels,
            hooks.last(),
            width,
        )
    }
}

/// The whole diagram. Sources count once however many routes they have; destinations are
/// told apart by their names, whatever their labels.
pub open spec fn diagram_of(
    routes: Seq<config::RouteCfgView>,
    labels: Map<Seq<char>, Seq<char>>,
) -> Seq<char> {
    let hooks = text_set(all_hooks(routes));
    "telegram-relay — routing ("@ + text::decimal(text_set(sources(routes)).len() as int)
        + " source(s) → "@ + text::decimal(hooks.len() as int) + " destination(s))\n\n"@
        + "by source — where each telegram channel goes:\n"@ + source_lines(
        routes,
        labels,
        text::longest(routes.map_values(|r: config::RouteCfgView| long_source(r))),
    ) + "\nby destination — what each discord channel receives:\n"@ + hook_lines(
        routes,
        labels,
        hooks,
        text::longest(hooks.map_values(|w: Seq<char>| hook_label(labels, w))),
    )
}

fn longest_of(l: &Vec<String>) -> (r: usize)
    ensures
        r == text::longest(l.deep_view()),
{
    let ghost all = l.deep_view();
    let mut r: usize = 0;
    let mut i: usize = 0;
    assert(all.take(0) =~= Seq::<Seq<char>>::empty());
    while i < l.len()
        invariant
            all == l.deep_view(),
            i <= all.len(),
            r == text::longest(all.take(i as int)),
        decreases all.len() - i,
    {
        assert(all.take(i + 1).drop_last() =~= all.take(i as int));
        assert(all.take(i + 1).last() == l@[i as int]@);
        let n: usize = text::chars_of(l[i].as_str()).len();
        if n > r {
            r = n;
        }
        i = i + 1;
    }
    assert(all.take(all.len() as int) =~= all);
    r
}

fn collect_sources(routes: &Vec<RouteCfg>) -> (r: Vec<String>)
    ensures
        r.deep_view() == text_set(sources(routes.deep_view())),
{
    let ghost all = sources(routes.deep_view());
    let mut out: Vec<String> = Vec::new();
    let mut i: usize = 0;
    assert(all.take(0) =~= Seq::<Seq<char>>::empty());
    assert(out.deep_view() =~= Seq::<Seq<char>>::empty());
    while i < routes.len()
        invariant
            all == sources(routes.deep_view()),
            all.len() == routes@.len(),
            i <= all.len(),
            out.deep_view() == text_set(all.take(i as int)),
        decreases all.len() - i,
    {
        assert(all.take(i + 1).drop_last() =~= all.take(i as int));
        assert(all.take(i + 1).last() == source_of(routes@[i as int].from.deep_view()));
        add_text(&mut out, source_label(&routes[i].from).as_str());
        i = i + 1;
    }
    assert(all.take(all.len() as int) =~= all);
    out
}

proof fn lemma_text_set_more(a: Seq<Seq<char>>, b: Seq<Seq<char>>, n: int)
    requires
        0 <= n < b.len(),
    ensures
        text_set(a + b.take(n + 1)) == insert_text(text_set(a + b.take(n)), b[n]),
{
    let l = a + b.take(n + 1);
    assert(l.drop_last() =~= a + b.take(n));
    assert(l.last() == b[n]);
}

fn collect_hooks(routes: &Vec<RouteCfg>) -> (r: Vec<String>)
    ensures
        r.deep_view() == text_set(all_hooks(routes.deep_view())),
{
    let ghost all = routes.deep_view();
    let mut out: Vec<String> = Vec::new();
    let mut i: usize = 0;
    assert(all.take(0) =~= Seq::<config::RouteCfgView>::empty());
    assert(out.deep_view() =~= Seq::<Seq<char>>::empty());
    while i < routes.len()
        invariant
            all == routes.deep_view(),
            i <= all.len(),
            out.deep_view() == text_set(all_hooks(all.take(i as int))),
        decreases all.len() - i,
    {
        let ghost before = all_hooks(all.take(i as int));
        let route: &RouteCfg = &routes[i];
        let ghost to = route.to.deep_view();
        let mut j: usize = 0;
        assert(before + to.take(0) =~= before);
        while j < route.to.len()
            invariant
                to == route.to.deep_view(),
                j <= to.len(),
                out.deep_view() == text_set(before + to.take(j as int)),
            decreases to.len() - j,
        {
            proof {
                lemma_text_set_more(before, to, j as int);
            }
            assert(to[j as int] == route.to@[j as int].0@);
            add_text(&mut out, route.to[j].0.as_str());
            j = j + 1;
        }
        assert(to.take(to.len() as int) =~= to);
        assert(all.take(i + 1).drop_last() =~= all.take(i as int));
        assert(all.take(i + 1).last() == route.deep_view());
        i = i + 1;
    }
    assert(all.take(all.len() as int) =~= all);
    out
}

fn leads_to(route: &RouteCfg, webhook: &str) -> (r: bool)
    ensures
        r == route.deep_view().to.contains(webhook@),
{
    let ghost to = route.to.deep_view();
    let mut i: usize = 0;
    while i < route.to.len()
        invariant
            to == route.to.deep_view(),
            i <= to.len(),
            forall|j: int| 0 <= j < i ==> #[trigger] to[j] != webhook@,
        decreases to.len() - i,
    {
        assert(to[i as int] == route.to@[i as int].0@);
        if text::same_text(route.to[i].0.as_str(), webhook) {
            return true;
        }
        i = i + 1;
    }
    false
}

fn collect_sources_into(routes: &Vec<RouteCfg>, webhook: &str) -> (r: Vec<String>)
    ensures
        r.deep_view() == text_set(sources_into(routes.deep_view(), webhook@)),
{
    let ghost all = routes.deep_view();
    let mut out: Vec<String> = Vec::new();
    let mut i: usize = 0;
    assert(all.take(0) =~= Seq::<config::RouteCfgView>::empty());
    assert(out.deep_view() =~= Seq::<Seq<char>>::empty());
    while i < routes.len()
        invariant
            all == routes.deep_view(),
            i <= all.len(),
            out.deep_view() == text_set(sources_into(all.take(i as int), webhook@)),
        decreases all.len() - i,
    {
        let ghost before = sources_into(all.take(i as int), webhook@);
        assert(all.take(i + 1).drop_last() =~= all.take(i as int));
        assert(all.take(i + 1).last() == routes@[i as int].deep_view());
        if leads_to(&routes[i], webhook) {
            add_text(&mut out, short_label(&routes[i]).as_str());
            let ghost x = short_source(routes@[i as int].deep_view());
            assert(before.push(x).drop_last() =~= before);
        }
        i = i + 1;
    }
    assert(all.take(all.len() as int) =~= all);
    out
}

fn collect_feeding(routes: &Vec<RouteCfg>, webhook: &str) -> (r: Vec<String>)
    ensures
        r.deep_view() == feeding(routes.deep_view(), webhook@),
{
    let ghost all = routes.deep_view();
    let mut out: Vec<String> = Vec::new();
    let mut i: usize = 0;
    assert(all.take(0) =~= Seq::<config::RouteCfgView>::empty());
    assert(out.deep_view() =~= Seq::<Seq<char>>::empty());
    while i < routes.len()
        invariant
            all == routes.deep_view(),
            i <= all.len(),
            out.deep_view() == feeding(all.take(i as int), webhook@),
        decreases all.len() - i,
    {
        let ghost before = out.deep_view();
        assert(all.take(i + 1).drop_last() =~= all.take(i as int));
        assert(all.take(i + 1).last() == routes@[i as int].deep_view());
        if leads_to(&routes[i], webhook) {
            out.push(source_label(&routes[i].from));
            assert(out.deep_view() =~= before.push(source_of(routes@[i as int].from.deep_view())));
        }
        i = i + 1;
    }
    assert(all.take(all.len() as int) =~= all);
    out
}

/// Whether every source leads to a webhook; `total` is how many sources there are.
fn takes_all(routes: &Vec<RouteCfg>, webhook: &str, total: usize) -> (r: bool)
    requires
        total == text_set(sources(routes.deep_view())).len(),
    ensures
        r == fed_by_all(routes.deep_view(), webhook@),
{
    let ghost all = routes.deep_view();
    if total <= 1 {
        return false;
    }
    let fed: Vec<String> = collect_feeding(routes, webhook);
    let mut i: usize = 0;
    while i < routes.len()
        invariant
            all == routes.deep_view(),
            fed.deep_view() == feeding(all, webhook@),
            i <= all.len(),
            forall|j: int|
                0 <= j < i ==> feeding(all, webhook@).contains(
                    source_of((#[trigger] all[j]).from),
                ),
        decreases all.len() - i,
    {
        assert(all[i as int] == routes@[i as int].deep_view());
        if !deliver::listed(&fed, source_label(&routes[i].from).as_str()) {
            return false;
        }
        i = i + 1;
    }
    true
}

fn push_source_line(out: &mut String, r: &RouteCfg, labels: &NameMap<String>, width: usize)
    ensures
        final(out)@ == old(out)@ + source_line(
            r.deep_view(),
            label_texts(labels@),
            width as nat,
        ),
{
    let ghost texts = label_texts(labels@);
    let mut dests: Vec<String> = Vec::new();
    let mut i: usize = 0;
    while i < r.to.len()
        invariant
            texts == label_texts(labels@),
            i <= r.to@.len(),
            dests@.len() == i,
            forall|j: int|
                0 <= j < i ==> (#[trigger] dests@[j])@ == hook_label(texts, r.to@[j].0@),
        decreases r.to@.len() - i,
    {
        dests.push(label_of(labels, r.to[i].0.as_str()));
        i = i + 1;
    }
    assert(dests.deep_view() =~= r.deep_view().to.map_values(
        |w: Seq<char>| hook_label(texts, w),
    ));
    out.append("  ");
    push_padded(out, long_label(r).as_str(), width);
    out.append("  ──▶  ");
    out.append(text::join(&dests, " · ").as_str());
    out.append("\n");
    assert(out@ =~= old(out)@ + source_line(r.deep_view(), texts, width as nat));
}

fn push_hook_line(
    out: &mut String,
    routes: &Vec<RouteCfg>,
    labels: &NameMap<String>,
    webhook: &str,
    width: usize,
    total: usize,
)
    requires
        total == text_set(sources(routes.deep_view())).len(),
    ensures
        final(out)@ == old(out)@ + hook_line(
            routes.deep_view(),
            label_texts(labels@),
            webhook@,
            width as nat,
        ),
{
    let srcs: Vec<String> = collect_sources_into(routes, webhook);
    assert(srcs.deep_view().len() == srcs@.len());
    out.append("  ");
    push_padded(out, label_of(labels, webhook).as_str(), width);
    out.append("  ◀──  ");
    out.append(text::join(&srcs, " · ").as_str());
    if takes_all(routes, webhook, total) {
        out.append("   (all sources)");
    }
    out.append("\n");
    assert(out@ =~= old(out)@ + hook_line(
        routes.deep_view(),
        label_texts(labels@),
        webhook@,
        width as nat,
    ));
}

/// Draw the wiring: first every source with where it goes, then every destination with
/// what it receives. Friendly names are used where there are some.
pub fn render_routes_ascii(routes: &Vec<RouteCfg>, webhook_labels: &NameMap<String>) -> (r: String)
    ensures
        r@ == diagram_of(routes.deep_view(), label_texts(webhook_labels@)),
{
    let ghost all = routes.deep_view();
    let ghost texts = label_texts(webhook_labels@);
    let srcs: Vec<String> = collect_sources(routes);
    let hooks: Vec<String> = collect_hooks(routes);
    let ghost keys = hooks.deep_view();
    assert(srcs.deep_view().len() == srcs@.len());
    let mut out: String = "telegram-relay — routing (".to_owned();
    text::push_nat(&mut out, srcs.len() as u64);
    out.append(" source(s) → ");
    text::push_nat(&mut out, hooks.len() as u64);
    out.append(" destination(s))\n\n");
    out.append("by source — where each telegram channel goes:\n");

    let mut names: Vec<String> = Vec::new();
    let mut i: usize = 0;
    while i < routes.len()
        invariant
            all == routes.deep_view(),
            i <= all.len(),
            names@.len() == i,
            forall|j: int| 0 <= j < i ==> (#[trigger] names@[j])@ == long_source(all[j]),
        decreases all.len() - i,
    {
        assert(all[i as int] == routes@[i as int].deep_view());
        names.push(long_label(&routes[i]));
        i = i + 1;
    }
    assert(names.deep_view() =~= all.map_values(|r: config::RouteCfgView| long_source(r)));
    let swidth: usize = longest_of(&names);

    let ghost head = out@;
    i = 0;
    assert(all.take(0) =~= Seq::<config::RouteCfgView>::empty());
    assert(out@ =~= head + source_lines(all.take(0), texts, swidth as nat));
    while i < routes.len()
        invariant
            all == routes.deep_view(),
            texts == label_texts(webhook_labels@),
            i <= all.len(),
            out@ == head + source_lines(all.take(i as int), texts, swidth as nat),
        decreases all.len() - i,
    {
        assert(all.take(i + 1).drop_last() =~= all.take(i as int));
        assert(all.take(i + 1).last() == routes@[i as int].deep_view());
        push_source_line(&mut out, &routes[i], webhook_labels, swidth);
        i = i + 1;
        assert(out@ =~= head + source_lines(all.take(i as int), texts, swidth as nat));
    }
    assert(all.take(all.len() as int) =~= all);
    out.append("\nby destination — what each discord channel receives:\n");

    let mut shown: Vec<String> = Vec::new();
    let mut k: usize = 0;
    while k < hooks.len()
        invariant
            texts == label_texts(webhook_labels@),
            keys == hooks.deep_view(),
            k <= keys.len(),
            shown@.len() == k,
            forall|j: int| 0 <= j < k ==> (#[trigger] shown@[j])@ == hook_label(texts, keys[j]),
        decreases keys.len() - k,
    {
        assert(keys[k as int] == hooks@[k as int]@);
        shown.push(label_of(webhook_labels, hooks[k].as_str()));
        k = k + 1;
    }
    assert(shown.deep_view() =~= keys.map_values(|w: Seq<char>| hook_label(texts, w)));
    let dwidth: usize = longest_of(&shown);

    let ghost upper = out@;
    k = 0;
    assert(keys.take(0) =~= Seq::<Seq<char>>::empty());
    assert(out@ =~= upper + hook_lines(all, texts, keys.take(0), dwidth as nat));
    while k < hooks.len()
        invariant
            all == routes.deep_view(),
            texts == label_texts(webhook_labels@),
            keys == hooks.deep_view(),
            k <= keys.len(),
            srcs@.len() == text_set(sources(all)).len(),
            out@ == upper + hook_lines(all, texts, keys.take(k as int), dwidth as nat),
        decreases keys.len() - k,
    {
        assert(keys.take(k + 1).drop_last() =~= keys.take(k as int));
        assert(keys.take(k + 1).last() == hooks@[k as int]@);
        push_hook_line(
            &mut out,
            routes,
            webhook_labels,
            hooks[k].as_str(),
            dwidth,
            srcs.len(),
        );
        k = k + 1;
        assert(out@ =~= upper + hook_lines(all, texts, keys.take(k as int), dwidth as nat));
    }
    assert(keys.take(keys.len() as int) =~= keys);
    assert(out@ =~= diagram_of(all, texts));
    out
}

proof fn lemma_in_sum(a: Seq<char>, b: Seq<char>, part: Seq<char>)
    ensures
        text::contains_text(a, part) ==> text::contains_text(a + b, part),
        text::contains_text(b, part) ==> text::contains_text(a + b, part),
        text::contains_text(part, part),
{
    let s = a + b;
    let n = part.len() as int;
    if text::contains_text(a, part) {
        let i = choose|i: int| text::matches_at(a, part, i);
        assert(s.subrange(i, i + n) =~= a.subrange(i, i + n));
        assert(text::matches_at(s, part, i));
    }
    if text::contains_text(b, part) {
        let i = choose|i: int| text::matches_at(b, part, i);
        let k = a.len() + i;
        assert(s.subrange(k, k + n) =~= b.subrange(i, i + n));
        assert(text::matches_at(s, part, k));
    }
    assert(part.subrange(0, n) =~= part);
    assert(text::matches_at(part, part, 0));
}

proof fn lemma_source_line_in(
    routes: Seq<config::RouteCfgView>,
    labels: Map<Seq<char>, Seq<char>>,
    width: nat,
    i: int,
)
    requires
        0 <= i < routes.len(),
    ensures
        text::contains_text(
            source_lines(routes, labels, width),
            source_line(routes[i], labels, width),
        ),
    decreases routes.len(),
{
    let init = routes.drop_last();
    let line = source_line(routes[i], labels, width);
    let before = source_lines(init, labels, width);
    lemma_in_sum(before, source_line(routes.last(), labels, width), line);
    if i < routes.len() - 1 {
        assert(init[i] == routes[i]);
        lemma_source_line_in(init, labels, width, i);
    }
}

proof fn lemma_hook_line_in(
    routes: Seq<config::RouteCfgView>,
    labels: Map<Seq<char>, Seq<char>>,
    hooks: Seq<Seq<char>>,
    width: nat,
    i: int,
)
    requires
        0 <= i < hooks.len(),
    ensures
        text::contains_text(
            hook_lines(routes, labels, hooks, width),
            hook_line(routes, labels, hooks[i], width),
        ),
    decreases hooks.len(),
{
    let init = hooks.drop_last();
    let line = hook_line(routes, labels, hooks[i], width);
    let before = hook_lines(routes, labels, init, width);
    lemma_in_sum(before, hook_line(routes, labels, hooks.last(), width), line);
    if i < hooks.len() - 1 {
        assert(init[i] == hooks[i]);
        lemma_hook_line_in(routes, labels, init, width, i);
    }
}

proof fn lemma_padded(s: Seq<char>, width: nat)
    requires
        s.len() <= width,
    ensures
        padded(s, width) == s + Seq::new((width - s.len()) as nat, |i: int| ' '),
{
    assert(padded(s, width) =~= s + Seq::new((width - s.len()) as nat, |i: int| ' '));
}

/// The two halves of the diagram: the lines of the sources and those of the destinations.
proof fn lemma_halves(
    routes: Seq<config::RouteCfgView>,
    labels: Map<Seq<char>, Seq<char>>,
    part: Seq<char>,
)
    ensures
        text::contains_text(
            source_lines(
                routes,
                labels,
                text::longest(routes.map_values(|r: config::RouteCfgView| long_source(r))),
            ),
            part,
        ) ==> text::contains_text(diagram_of(routes, labels), part),
        text::contains_text(
            hook_lines(
                routes,
                labels,
                text_set(all_hooks(routes)),
                text::longest(
                    text_set(all_hooks(routes)).map_values(
                        |w: Seq<char>| hook_label(labels, w),
                    ),
                ),
            ),
            part,
        ) ==> text::contains_text(diagram_of(routes, labels), part),
{
    let hooks = text_set(all_hooks(routes));
    let a = "telegram-relay — routing ("@ + text::decimal(text_set(sources(routes)).len() as int)
        + " source(s) → "@ + text::decimal(hooks.len() as int) + " destination(s))\n\n"@
        + "by source — where each telegram channel goes:\n"@;
    let b = source_lines(
        routes,
        labels,
        text::longest(routes.map_values(|r: config::RouteCfgView| long_source(r))),
    );
    let c = "\nby destination — what each discord channel receives:\n"@;
    let d = hook_lines(
        routes,
        labels,
        hooks,
        text::longest(hooks.map_values(|w: Seq<char>| hook_label(labels, w))),
    );
    lemma_in_sum(a, b, part);
    lemma_in_sum(a + b, c, part);
    lemma_in_sum(a + b + c, d, part);
}

/// Every route has a line in the diagram that says where its source goes: the source by its
/// label and as it is configured, and behind an arrow all its destinations in their order, each
/// by its label, or by its name where it has none. The arrows stand below each other.
pub proof fn lemma_source_shows(
    routes: Seq<config::RouteCfgView>,
    labels: Map<Seq<char>, Seq<char>>,
    i: int,
    source: Seq<char>,
)
    requires
        0 <= i < routes.len(),
        routes[i].from matches config::ChatRefView::Username(u) ==> source == "@"@ + u,
        routes[i].from matches config::ChatRefView::Id(id) ==> source == text::decimal(id as int),
    ensures
        ({
            let shown = match routes[i].label {
                Some(l) => l + " ("@ + source + ")"@,
                None => source,
            };
            let to = routes[i].to.map_values(
                |w: Seq<char>|
                    if labels.dom().contains(w) {
                        labels[w]
                    } else {
                        w
                    },
            );
            let width = text::longest(
                routes.map_values(
                    |r: config::RouteCfgView|
                        match r.label {
                            Some(l) => l + " ("@ + source_of(r.from) + ")"@,
                            None => source_of(r.from),
                        },
                ),
            );
            &&& shown.len() <= width
            &&& text::contains_text(
                diagram_of(routes, labels),
                "  "@ + (shown + Seq::new((width - shown.len()) as nat, |i: int| ' ')) + "  ──▶  "@
                    + text::joined(to, " · "@) + "\n"@,
            )
        }),
{
    let width = text::longest(routes.map_values(|r: config::RouteCfgView| long_source(r)));
    let line = source_line(routes[i], labels, width);
    lemma_source_line_in(routes, labels, width, i);
    lemma_halves(routes, labels, line);
    let all = routes.map_values(|r: config::RouteCfgView| long_source(r));
    let stated = routes.map_values(
        |r: config::RouteCfgView|
            match r.label {
                Some(l) => l + " ("@ + source_of(r.from) + ")"@,
                None => source_of(r.from),
            },
    );
    assert(all =~= stated);
    assert(all[i] == long_source(routes[i]));
    assert(all.contains(all[i]));
    text::lemma_longest(all, all[i]);
    lemma_padded(long_source(routes[i]), width);
    let to = routes[i].to.map_values(
        |w: Seq<char>|
            if labels.dom().contains(w) {
                labels[w]
            } else {
                w
            },
    );
    assert(routes[i].to.map_values(|w: Seq<char>| hook_label(labels, w)) =~= to);
}

proof fn lemma_all_hooks(routes: Seq<config::RouteCfgView>, webhook: Seq<char>)
    ensures
        all_hooks(routes).contains(webhook) <==> exists|i: int|
            0 <= i < routes.len() && (#[trigger] routes[i]).to.contains(webhook),
    decreases routes.len(),
{
    if routes.len() > 0 {
        let init = routes.drop_last();
        let to = routes.last().to;
        lemma_all_hooks(init, webhook);
        let before = all_hooks(init);
        let all = all_hooks(routes);
        assert(routes[routes.len() - 1] == routes.last());
        if all.contains(webhook) {
            let k = choose|k: int| 0 <= k < all.len() && all[k] == webhook;
            if k < before.len() {
                assert(before[k] == webhook);
                let i = choose|i: int|
                    0 <= i < init.len() && (#[trigger] init[i]).to.contains(webhook);
                assert(routes[i].to.contains(webhook));
            } else {
                assert(to[k - before.len()] == webhook);
            }
        }
        if exists|i: int| 0 <= i < routes.len() && (#[trigger] routes[i]).to.contains(webhook) {
            let i = choose|i: int|
                0 <= i < routes.len() && (#[trigger] routes[i]).to.contains(webhook);
            if i < init.len() {
                assert(init[i].to.contains(webhook));
                let k = choose|k: int| 0 <= k < before.len() && before[k] == webhook;
                assert(all[k] == webhook);
            } else {
                let k = choose|k: int| 0 <= k < to.len() && to[k] == webhook;
                assert(all[before.len() + k] == webhook);
            }
        }
    }
}

proof fn lemma_sources_into(
    routes: Seq<config::RouteCfgView>,
    webhook: Seq<char>,
    y: Seq<char>,
)
    ensures
        sources_into(routes, webhook).contains(y) <==> exists|i: int|
            0 <= i < routes.len() && (#[trigger] routes[i]).to.contains(webhook) && short_source(
                routes[i],
            ) == y,
        feeding(routes, webhook).contains(y) <==> exists|i: int|
            0 <= i < routes.len() && (#[trigger] routes[i]).to.contains(webhook) && source_of(
                routes[i].from,
            ) == y,
    decreases routes.len(),
{
    if routes.len() > 0 {
        let init = routes.drop_last();
        lemma_sources_into(init, webhook, y);
        assert(routes[routes.len() - 1] == routes.last());
        let a0 = sources_into(init, webhook);
        let a = sources_into(routes, webhook);
        let b0 = feeding(init, webhook);
        let b = feeding(routes, webhook);
        assert forall|i: int| 0 <= i < init.len() implies init[i] == #[trigger] routes[i] by {}
        if routes.last().to.contains(webhook) {
            assert(a[a0.len() as int] == short_source(routes.last()));
            assert(b[b0.len() as int] == source_of(routes.last().from));
            if a0.contains(y) {
                let k = choose|k: int| 0 <= k < a0.len() && a0[k] == y;
                assert(a[k] == y);
            }
            if b0.contains(y) {
                let k = choose|k: int| 0 <= k < b0.len() && b0[k] == y;
                assert(b[k] == y);
            }
            if a.contains(y) {
                let k = choose|k: int| 0 <= k < a.len() && a[k] == y;
                if k < a0.len() {
                    assert(a0[k] == y);
                }
            }
            if b.contains(y) {
                let k = choose|k: int| 0 <= k < b.len() && b[k] == y;
                if k < b0.len() {
                    assert(b0[k] == y);
                }
            }
        }
        if exists|i: int|
            0 <= i < init.len() && (#[trigger] init[i]).to.contains(webhook) && short_source(
                init[i],
            ) == y {
            let i = choose|i: int|
                0 <= i < init.len() && (#[trigger] init[i]).to.contains(webhook) && short_source(
                    init[i],
                ) == y;
            assert(routes[i].to.contains(webhook));
        }
        if exists|i: int|
            0 <= i < init.len() && (#[trigger] init[i]).to.contains(webhook) && source_of(
                init[i].from,
            ) == y {
            let i = choose|i: int|
                0 <= i < init.len() && (#[trigger] init[i]).to.contains(webhook) && source_of(
                    init[i].from,
                ) == y;
            assert(routes[i].to.contains(webhook));
        }
        if exists|i: int|
            0 <= i < routes.len() && (#[trigger] routes[i]).to.contains(webhook) && short_source(
                routes[i],
            ) == y {
            let i = choose|i: int|
                0 <= i < routes.len() && (#[trigger] routes[i]).to.contains(webhook)
                    && short_source(routes[i]) == y;
            if i < init.len() {
                assert(init[i].to.contains(webhook));
            }
        }
        if exists|i: int|
            0 <= i < routes.len() && (#[trigger] routes[i]).to.contains(webhook) && source_of(
                routes[i].from,
            ) == y {
            let i = choose|i: int|
                0 <= i < routes.len() && (#[trigger] routes[i]).to.contains(webhook) && source_of(
                    routes[i].from,
                ) == y;
            if i < init.len() {
                assert(init[i].to.contains(webhook));
            }
        }
    }
}

/// Some route leads from a source to a webhook.
pub open spec fn leads_from(
    routes: Seq<config::RouteCfgView>,
    webhook: Seq<char>,
    source: Seq<char>,
) -> bool {
    exists|j: int|
        0 <= j < routes.len() && (#[trigger] routes[j]).to.contains(webhook) && source_of(
            routes[j].from,
        ) == source
}

/// There are different sources.
pub open spec fn several_sources(routes: Seq<config::RouteCfgView>) -> bool {
    exists|i: int, j: int|
        #![trigger routes[i], routes[j]]
        0 <= i < j < routes.len() && source_of(routes[i].from) != source_of(routes[j].from)
}

/// There are different sources, and from each of them some route leads to a webhook.
pub open spec fn all_lead_to(routes: Seq<config::RouteCfgView>, webhook: Seq<char>) -> bool {
    &&& several_sources(routes)
    &&& forall|i: int|
        0 <= i < routes.len() ==> leads_from(
            routes,
            webhook,
            source_of((#[trigger] routes[i]).from),
        )
}

proof fn lemma_several_sources(routes: Seq<config::RouteCfgView>)
    ensures
        text_set(sources(routes)).len() > 1 <==> several_sources(routes),
{
    let l = sources(routes);
    let set = text_set(l);
    lemma_text_set(l);
    if set.len() > 1 {
        assert(text::text_less(set[0], set[1]));
        text::lemma_text_less_total(set[0], set[1]);
        assert(set.contains(set[0]) && set.contains(set[1]));
        assert(l.contains(set[0]) && l.contains(set[1]));
        let i = choose|i: int| 0 <= i < l.len() && l[i] == set[0];
        let j = choose|j: int| 0 <= j < l.len() && l[j] == set[1];
        assert(source_of(routes[i].from) != source_of(routes[j].from));
        if i < j {
            assert(0 <= i < j < routes.len());
        } else {
            assert(0 <= j < i < routes.len());
        }
    }
    if several_sources(routes) {
        let (i, j) = choose|i: int, j: int|
            #![trigger routes[i], routes[j]]
            0 <= i < j < routes.len() && source_of(routes[i].from) != source_of(routes[j].from);
        assert(l[i] == source_of(routes[i].from));
        assert(l[j] == source_of(routes[j].from));
        assert(l.contains(l[i]) && l.contains(l[j]));
        assert(set.contains(l[i]) && set.contains(l[j]));
        let a = choose|a: int| 0 <= a < set.len() && set[a] == l[i];
        let b = choose|b: int| 0 <= b < set.len() && set[b] == l[j];
        assert(a != b);
    }
}

proof fn lemma_fed_by_all(routes: Seq<config::RouteCfgView>, webhook: Seq<char>)
    ensures
        fed_by_all(routes, webhook) <==> all_lead_to(routes, webhook),
{
    lemma_several_sources(routes);
    assert forall|i: int| 0 <= i < routes.len() implies (feeding(routes, webhook).contains(
        source_of((#[trigger] routes[i]).from),
    ) <==> leads_from(routes, webhook, source_of(routes[i].from))) by {
        lemma_sources_into(routes, webhook, source_of(routes[i].from));
    }
}

/// No destination is shown by a longer text than this, and one is shown by a text so long.
pub open spec fn is_hook_width(
    routes: Seq<config::RouteCfgView>,
    labels: Map<Seq<char>, Seq<char>>,
    width: int,
) -> bool {
    &&& forall|w: Seq<char>| #[trigger]
        all_hooks(routes).contains(w) ==> hook_label(labels, w).len() <= width
    &&& exists|w: Seq<char>| #[trigger]
        all_hooks(routes).contains(w) && hook_label(labels, w).len() == width
}

proof fn lemma_hook_width(
    routes: Seq<config::RouteCfgView>,
    labels: Map<Seq<char>, Seq<char>>,
)
    requires
        all_hooks(routes).len() > 0,
    ensures
        is_hook_width(
            routes,
            labels,
            text::longest(
                text_set(all_hooks(routes)).map_values(|w: Seq<char>| hook_label(labels, w)),
            ) as int,
        ),
{
    let l = all_hooks(routes);
    let set = text_set(l);
    lemma_text_set(l);
    let shown = set.map_values(|w: Seq<char>| hook_label(labels, w));
    assert forall|w: Seq<char>| #[trigger] l.contains(w) implies hook_label(labels, w).len()
        <= text::longest(shown) by {
        assert(set.contains(w));
        let k = choose|k: int| 0 <= k < set.len() && set[k] == w;
        assert(shown[k] == hook_label(labels, w));
        assert(shown.contains(shown[k]));
        text::lemma_longest(shown, shown[k]);
    }
    assert(l.contains(l[0]));
    assert(set.contains(l[0]));
    assert(set.len() > 0);
    text::lemma_longest_is_there(shown);
    let i = choose|i: int|
        0 <= i < shown.len() && (#[trigger] shown[i]).len() == text::longest(shown);
    assert(set.contains(set[i]));
    assert(l.contains(set[i]));
}

/// Every destination has a line in the diagram that says what it receives: its label, or its
/// name where it has none, and behind an arrow exactly the sources that lead to it, in
/// dictionary order and each once. The line says so where every source leads to it.
pub proof fn lemma_destination_shows(
    routes: Seq<config::RouteCfgView>,
    labels: Map<Seq<char>, Seq<char>>,
    r: int,
    webhook: Seq<char>,
)
    requires
        0 <= r < routes.len(),
        routes[r].to.contains(webhook),
    ensures
        ({
            let shown = if labels.dom().contains(webhook) {
                labels[webhook]
            } else {
                webhook
            };
            let note = if all_lead_to(routes, webhook) {
                "   (all sources)"@
            } else {
                Seq::empty()
            };
            exists|width: int, srcs: Seq<Seq<char>>|
                {
                    &&& #[trigger] is_hook_width(routes, labels, width)
                    &&& shown.len() <= width
                    &&& text::contains_text(
                        diagram_of(routes, labels),
                        "  "@ + (shown + Seq::new((width - shown.len()) as nat, |i: int| ' '))
                            + "  ◀──  "@ + #[trigger] text::joined(srcs, " · "@) + note + "\n"@,
                    )
                    &&& ascending_texts(srcs)
                    &&& forall|y: Seq<char>| #[trigger]
                        srcs.contains(y) <==> exists|i: int|
                            0 <= i < routes.len() && (#[trigger] routes[i]).to.contains(webhook)
                                && y == (match routes[i].label {
                                Some(l) => l,
                                None => source_of(routes[i].from),
                            })
                }
        }),
{
    let hooks = text_set(all_hooks(routes));
    let width = text::longest(hooks.map_values(|w: Seq<char>| hook_label(labels, w)));
    lemma_text_set(all_hooks(routes));
    lemma_all_hooks(routes, webhook);
    assert(hooks.contains(webhook));
    let k = choose|k: int| 0 <= k < hooks.len() && hooks[k] == webhook;
    let line = hook_line(routes, labels, webhook, width);
    lemma_hook_line_in(routes, labels, hooks, width, k);
    lemma_halves(routes, labels, line);
    let shown_all = hooks.map_values(|w: Seq<char>| hook_label(labels, w));
    assert(shown_all[k] == hook_label(labels, webhook));
    assert(shown_all.contains(shown_all[k]));
    text::lemma_longest(shown_all, shown_all[k]);
    lemma_padded(hook_label(labels, webhook), width);
    lemma_hook_width(routes, labels);
    assert(is_hook_width(routes, labels, width as int));
    let srcs = text_set(sources_into(routes, webhook));
    lemma_text_set(sources_into(routes, webhook));
    lemma_fed_by_all(routes, webhook);
    assert forall|y: Seq<char>| #[trigger] srcs.contains(y) <==> exists|i: int|
        0 <= i < routes.len() && (#[trigger] routes[i]).to.contains(webhook) && y == (
        match routes[i].label {
            Some(l) => l,
            None => source_of(routes[i].from),
        }) by {
        lemma_sources_into(routes, webhook, y);
    }
    let shown = hook_label(labels, webhook);
    let note = if all_lead_to(routes, webhook) {
        "   (all sources)"@
    } else {
        Seq::empty()
    };
    let spaces = Seq::new((width - shown.len()) as nat, |i: int| ' ');
    assert(line == "  "@ + (shown + spaces) + "  ◀──  "@ + text::joined(srcs, " · "@) + note
        + "\n"@);
}

/// The diagram starts with how many different sources and destinations there are.
pub proof fn lemma_diagram_counts(
    routes: Seq<config::RouteCfgView>,
    labels: Map<Seq<char>, Seq<char>>,
)
    ensures
        text::matches_at(
            diagram_of(routes, labels),
            "telegram-relay — routing ("@ + text::decimal(sources(routes).to_set().len() as int)
                + " source(s) → "@ + text::decimal(all_hooks(routes).to_set().len() as int)
                + " destination(s))\n\n"@,
            0,
        ),
{
    lemma_set_len(sources(routes));
    lemma_set_len(all_hooks(routes));
    let head = "telegram-relay — routing ("@ + text::decimal(
        sources(routes).to_set().len() as int,
    ) + " source(s) → "@ + text::decimal(all_hooks(routes).to_set().len() as int)
        + " destination(s))\n\n"@;
    let all = diagram_of(routes, labels);
    assert(all.subrange(0, head.len() as int) =~= head);
}

proof fn lemma_set_len(l: Seq<Seq<char>>)
    ensures
        text_set(l).len() == l.to_set().len(),
{
    let set = text_set(l);
    lemma_text_set(l);
    assert forall|i: int, j: int| 0 <= i < set.len() && 0 <= j < set.len() && i != j implies set[i]
        != set[j] by {
        if i < j {
            assert(text::text_less(set[i], set[j]));
            text::lemma_text_less_total(set[i], set[j]);
        } else {
            assert(text::text_less(set[j], set[i]));
            text::lemma_text_less_total(set[j], set[i]);
        }
    }
    set.unique_seq_to_set();
    assert(set.to_set() =~= l.to_set()) by {
        assert forall|y: Seq<char>| set.to_set().contains(y) <==> l.to_set().contains(y) by {
            assert(set.contains(y) <==> l.contains(y));
        }
    }
}

} // verus!
