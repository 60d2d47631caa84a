//! Contract addresses in the text of a post.
//!
//! Bots that scan a channel read the plain content of a message and not its embeds, so
//! the addresses in a post are repeated there.

use vstd::prelude::*;

use crate::deliver;
use crate::text;

verus! {

pub open spec fn is_word_char(c: char) -> bool {
    ('0' <= c && c <= '9') || ('a' <= c && c <= 'z') || ('A' <= c && c <= 'Z')
}

/// Where the word that covers position `i` ends; `i` itself where no word covers it.
pub open spec fn word_end(s: Seq<char>, i: int) -> int
    decreases s.len() - i,
{
    if 0 <= i < s.len() && is_word_char(s[i]) {
        word_end(s, i + 1)
    } else {
        i
    }
}

/// A word goes as far as it can: what follows it is no character of a word.
pub proof fn lemma_word_end(s: Seq<char>, i: int)
    requires
        0 <= i <= s.len(),
    ensures
        i <= word_end(s, i) <= s.len(),
        word_end(s, i) < s.len() ==> !is_word_char(s[word_end(s, i)]),
        forall|j: int| i <= j < word_end(s, i) ==> is_word_char(#[trigger] s[j]),
    decreases s.len() - i,
{
    if i < s.len() && is_word_char(s[i]) {
        lemma_word_end(s, i + 1);
    }
}

/// The words of `s` from `i` on: runs of ASCII letters and digits, as long as they go.
pub open spec fn words(s: Seq<char>, i: int) -> Seq<Seq<char>>
    decreases s.len() - i,
{
    if i < 0 || i >= s.len() {
        Seq::empty()
    } else if is_word_char(s[i]) {
        let end = word_end(s, i + 1);
        proof {
            lemma_word_end(s, i + 1);
        }
        seq![s.subrange(i, end)] + words(s, end)
    } else {
        words(s, i + 1)
    }
}

pub open spec fn is_hex(c: char) -> bool {
    ('0' <= c && c <= '9') || ('a' <= c && c <= 'f') || ('A' <= c && c <= 'F')
}

/// A character of base 58: a letter or digit, but none that looks like another.
pub open spec fn is_base58(c: char) -> bool {
    is_word_char(c) && c != '0' && c != 'O' && c != 'I' && c != 'l'
}

/// An Ethereum address: `0x` and forty hexadecimal digits.
pub open spec fn is_eth_address(w: Seq<char>) -> bool {
    &&& w.len() == 42
    &&& w[0] == '0'
    &&& w[1] == 'x'
    &&& forall|i: int| 2 <= i < w.len() ==> is_hex(#[trigger] w[i])
}

/// A Solana address: 32 to 44 characters of base 58.
pub open spec fn is_solana_address(w: Seq<char>) -> bool {
    &&& 32 <= w.len() <= 44
    &&& forall|i: int| 0 <= i < w.len() ==> is_base58(#[trigger] w[i])
}

/// The addresses among some words, in their order, each once.
pub open spec fn addresses(ws: Seq<Seq<char>>) -> Seq<Seq<char>>
    decreases ws.len(),
{
    if ws.len() == 0 {
        Seq::empty()
    } else {
        let before = addresses(ws.drop_last());
        let w = ws.last();
        if (is_eth_address(w) || is_solana_address(w)) && !before.contains(w) {
            before.push(w)
        } else {
            before
        }
    }
}

/// The addresses in a text, one on each line; nothing where there is none.
pub open spec fn contract_content_of(body: Seq<char>) -> Option<Seq<char>> {
    let found = addresses(words(body, 0));
    if found.len() == 0 {
        None
    } else {
        Some(text::joined(found, "\n"@))
    }
}

fn word_char(c: char) -> (r: bool)
    ensures
        r == is_word_char(c),
{
    ('0' <= c && c <= '9') || ('a' <= c && c <= 'z') || ('A' <= c && c <= 'Z')
}

fn eth_address(w: &Vec<char>) -> (r: bool)
    ensures
        r == is_eth_address(w@),
{
    if w.len() != 42 || w[0] != '0' || w[1] != 'x' {
        return false;
    }
    let mut i: usize = 2;
    while i < w.len()
        invariant
            2 <= i <= w@.len(),
            forall|j: int| 2 <= j < i ==> is_hex(#[trigger] w@[j]),
        decreases w@.len() - i,
    {
        let c: char = w[i];
        if !(('0' <= c && c <= '9') || ('a' <= c && c <= 'f') || ('A' <= c && c <= 'F')) {
            assert(!is_hex(w@[i as int]));
            return false;
        }
        i = i + 1;
    }
    true
}

fn solana_address(w: &Vec<char>) -> (r: bool)
    ensures
        r == is_solana_address(w@),
{
    if w.len() < 32 || w.len() > 44 {
        return false;
    }
    let mut i: usize = 0;
    while i < w.len()
        invariant
            i <= w@.len(),
            forall|j: int| 0 <= j < i ==> is_base58(#[trigger] w@[j]),
        decreases w@.len() - i,
    {
        let c: char = w[i];
        if !word_char(c) || c == '0' || c == 'O' || c == 'I' || c == 'l' {
            assert(!is_base58(w@[i as int]));
            return false;
        }
        i = i + 1;
    }
    true
}

fn split_words(body: &str) -> (r: Vec<String>)
    ensures
        r.deep_view() == words(body@, 0),
{
    let v: Vec<char> = text::chars_of(body);
    let mut out: Vec<String> = Vec::new();
    let mut i: usize = 0;
    assert(out.deep_view() + words(body@, 0) =~= words(body@, 0));
    while i < v.len()
        invariant
            v@ == body@,
            i <= v@.len(),
            out.deep_view() + words(body@, i as int) == words(body@, 0),
        decreases v@.len() - i,
    {
        if word_char(v[i]) {
            let mut end: usize = i + 1;
            while end < v.len() && word_char(v[end])
                invariant
                    v@ == body@,
                    i < end <= v@.len(),
                    word_end(body@, i + 1) == word_end(body@, end as int),
                decreases v@.len() - end,
            {
                end = end + 1;
            }
            let ghost so_far = out.deep_view();
            let w: String = text::text_between(&v, i, end);
            assert(w@ == body@.subrange(i as int, end as int));
            out.push(w);
            assert(out.deep_view() =~= so_far.push(w@));
            assert(out.deep_view() + words(body@, end as int) =~= so_far + words(body@, i as int));
            i = end;
        } else {
            i = i + 1;
        }
    }
    assert(out.deep_view() + words(body@, i as int) =~= out.deep_view());
    out
}

/// The contract addresses in a text, one on each line, for the plain content of a message.
pub fn contract_content(body: &str) -> (r: Option<String>)
    ensures
        r.deep_view() == contract_content_of(body@),
{
    let ws: Vec<String> = split_words(body);
    let ghost all = ws.deep_view();
    let mut found: Vec<String> = Vec::new();
    let mut i: usize = 0;
    assert(all.take(0) =~= Seq::<Seq<char>>::empty());
    assert(found.deep_view() =~= Seq::<Seq<char>>::empty());
    while i < ws.len()
        invariant
            all == ws.deep_view(),
            i <= all.len(),
            found.deep_view() == addresses(all.take(i as int)),
        decreases all.len() - i,
    {
        let ghost before = found.deep_view();
        assert(all.take(i + 1).drop_last() =~= all.take(i as int));
        assert(all.take(i + 1).last() == ws@[i as int]@);
        let w: Vec<char> = text::chars_of(ws[i].as_str());
        if (eth_address(&w) || solana_address(&w)) && !deliver::listed(&found, ws[i].as_str()) {
            found.push(ws[i].clone());
            assert(found.deep_view() =~= before.push(ws@[i as int]@));
        }
        i = i + 1;
    }
    assert(all.take(all.len() as int) =~= all);
    assert(found.deep_view().len() == found@.len());
    if found.len() == 0 {
        None
    } else {
        Some(text::join(&found, "\n"))
    }
}

/// A word stands in a text from `from` to `to`: letters and digits only, and neither before
/// nor behind them a further one.
pub open spec fn word_at(s: Seq<char>, from: int, to: int) -> bool {
    &&& 0 <= from < to <= s.len()
    &&& forall|j: int| from <= j < to ==> is_word_char(#[trigger] s[j])
    &&& from > 0 ==> !is_word_char(s[from - 1])
    &&& to < s.len() ==> !is_word_char(s[to])
}

proof fn lemma_word_found(s: Seq<char>, i: int, from: int, to: int)
    requires
        word_at(s, from, to),
        0 <= i <= from,
    ensures
        words(s, i).contains(s.subrange(from, to)),
    decreases s.len() - i,
{
    let w = s.subrange(from, to);
    if i == from {
        lemma_word_end(s, i + 1);
        let end = word_end(s, i + 1);
        if end < to {
            assert(is_word_char(s[end]));
        } else if end > to {
            assert(is_word_char(s[to]));
        }
        assert(is_word_char(s[from]));
        assert(words(s, i)[0] == w);
    } else if is_word_char(s[i]) {
        lemma_word_end(s, i + 1);
        let end = word_end(s, i + 1);
        if end >= from {
            assert(is_word_char(s[from - 1]));
        }
        lemma_word_found(s, end, from, to);
        let k = choose|k: int| 0 <= k < words(s, end).len() && words(s, end)[k] == w;
        assert(words(s, i)[k + 1] == w);
    } else {
        lemma_word_found(s, i + 1, from, to);
    }
}

proof fn lemma_word_from(s: Seq<char>, i: int, w: Seq<char>)
    requires
        0 <= i,
        words(s, i).contains(w),
        i > 0 && i < s.len() && is_word_char(s[i]) ==> !is_word_char(s[i - 1]),
    ensures
        exists|from: int, to: int| #[trigger] word_at(s, from, to) && w == s.subrange(from, to),
    decreases s.len() - i,
{
    if i < s.len() {
        if is_word_char(s[i]) {
            lemma_word_end(s, i + 1);
            let end = word_end(s, i + 1);
            let k = choose|k: int| 0 <= k < words(s, i).len() && words(s, i)[k] == w;
            if k == 0 {
                assert(word_at(s, i, end));
            } else {
                assert(words(s, end)[k - 1] == w);
                lemma_word_from(s, end, w);
            }
        } else {
            lemma_word_from(s, i + 1, w);
        }
    }
}

proof fn lemma_addresses(ws: Seq<Seq<char>>, w: Seq<char>)
    ensures
        addresses(ws).contains(w) <==> ws.contains(w) && (is_eth_address(w) || is_solana_address(
            w,
        )),
        addresses(ws).no_duplicates(),
    decreases ws.len(),
{
    if ws.len() > 0 {
        let init = ws.drop_last();
        lemma_addresses(init, w);
        let before = addresses(init);
        let all = addresses(ws);
        assert(ws[ws.len() - 1] == ws.last());
        if ws.contains(w) {
            let i = choose|i: int| 0 <= i < ws.len() && ws[i] == w;
            if i < init.len() {
                assert(init[i] == w);
            }
        }
        if init.contains(w) {
            let i = choose|i: int| 0 <= i < init.len() && init[i] == w;
            assert(ws[i] == w);
        }
        if all.len() > before.len() {
            assert(all == before.push(ws.last()));
            assert(all[before.len() as int] == ws.last());
            if before.contains(w) {
                let i = choose|i: int| 0 <= i < before.len() && before[i] == w;
                assert(all[i] == w);
            }
            if all.contains(w) {
                let i = choose|i: int| 0 <= i < all.len() && all[i] == w;
                if i < before.len() {
                    assert(before[i] == w);
                }
            }
        }
    }
}

/// Every contract address that stands in a text as a word is handed on: one on Ethereum is
/// `0x` with forty hexadecimal digits, one on Solana has 32 to 44 characters of base 58.
pub proof fn lemma_address_is_handed_on(body: Seq<char>, from: int, to: int)
    requires
        word_at(body, from, to),
        (to - from == 42 && body[from] == '0' && body[from + 1] == 'x' && forall|j: int|
            from + 2 <= j < to ==> ('0' <= #[trigger] body[j] <= '9' || 'a' <= body[j] <= 'f'
                || 'A' <= body[j] <= 'F')) || (32 <= to - from <= 44 && forall|j: int|
            from <= j < to ==> #[trigger] body[j] != '0' && body[j] != 'O' && body[j] != 'I'
                && body[j] != 'l'),
    ensures
        contract_content_of(body) matches Some(c) && text::contains_text(
            c,
            body.subrange(from, to),
        ),
{
    let w = body.subrange(from, to);
    if to - from == 42 && body[from] == '0' && body[from + 1] == 'x' && forall|j: int|
        from + 2 <= j < to ==> ('0' <= #[trigger] body[j] <= '9' || 'a' <= body[j] <= 'f' || 'A'
            <= body[j] <= 'F') {
        assert forall|i: int| 2 <= i < w.len() implies is_hex(#[trigger] w[i]) by {
            assert(w[i] == body[from + i]);
        }
        assert(is_eth_address(w));
    } else {
        assert forall|i: int| 0 <= i < w.len() implies is_base58(#[trigger] w[i]) by {
            assert(w[i] == body[from + i]);
            assert(is_word_char(body[from + i]));
        }
        assert(is_solana_address(w));
    }
    lemma_word_found(body, 0, from, to);
    lemma_addresses(words(body, 0), w);
    let found = addresses(words(body, 0));
    let k = choose|k: int| 0 <= k < found.len() && found[k] == w;
    text::lemma_joined_has_part(found, "\n"@, k);
}

/// What is handed on are addresses out of the text and nothing else, each once and on a line
/// of its own.
pub proof fn lemma_only_addresses(body: Seq<char>)
    ensures
        contract_content_of(body) matches Some(c) ==> exists|l: Seq<Seq<char>>|
            {
                &&& c == #[trigger] text::joined(l, "\n"@)
                &&& l.len() > 0
                &&& l.no_duplicates()
                &&& forall|k: int|
                    0 <= k < l.len() ==> ((#[trigger] l[k]).len() == 42 || 32 <= l[k].len() <= 44)
                        && exists|from: int, to: int|
                        #[trigger] word_at(body, from, to) && l[k] == body.subrange(from, to)
            },
{
    let ws = words(body, 0);
    let l = addresses(ws);
    if contract_content_of(body) is Some {
        lemma_addresses(ws, l[0]);
        assert forall|k: int| 0 <= k < l.len() implies ((#[trigger] l[k]).len() == 42 || 32
            <= l[k].len() <= 44) && exists|from: int, to: int|
            #[trigger] word_at(body, from, to) && l[k] == body.subrange(from, to) by {
            lemma_addresses(ws, l[k]);
            assert(l.contains(l[k]));
            lemma_word_from(body, 0, l[k]);
        }
        assert(contract_content_of(body) == Some(text::joined(l, "\n"@)));
    }
}

proof fn lemma_words_of_both(head: Seq<char>, sep: char, tail: Seq<char>, i: int)
    requires
        !is_word_char(sep),
        0 <= i <= head.len(),
    ensures
        words(head.push(sep) + tail, i) == words(head, i) + words(tail, 0),
    decreases head.len() - i,
{
    let s = head.push(sep) + tail;
    if i == head.len() {
        assert(s[i] == sep);
        lemma_words_behind(head.push(sep), tail, 0);
        assert(words(head, i) =~= Seq::<Seq<char>>::empty());
    } else if is_word_char(head[i]) {
        assert(s[i] == head[i]);
        lemma_word_end_before(head, sep, tail, i + 1);
        lemma_word_end(head, i + 1);
        let end = word_end(head, i + 1);
        assert(s.subrange(i, end) =~= head.subrange(i, end));
        lemma_words_of_both(head, sep, tail, end);
        assert(words(s, i) =~= words(head, i) + words(tail, 0));
    } else {
        assert(s[i] == head[i]);
        lemma_words_of_both(head, sep, tail, i + 1);
    }
}

proof fn lemma_word_end_before(head: Seq<char>, sep: char, tail: Seq<char>, i: int)
    requires
        !is_word_char(sep),
        0 <= i <= head.len(),
    ensures
        word_end(head.push(sep) + tail, i) == word_end(head, i),
    decreases head.len() - i,
{
    let s = head.push(sep) + tail;
    if i < head.len() {
        assert(s[i] == head[i]);
        if is_word_char(head[i]) {
            lemma_word_end_before(head, sep, tail, i + 1);
        }
    } else {
        assert(s[i] == sep);
    }
}

proof fn lemma_word_end_behind(front: Seq<char>, tail: Seq<char>, i: int)
    requires
        0 <= i <= tail.len(),
    ensures
        word_end(front + tail, front.len() + i) == front.len() + word_end(tail, i),
    decreases tail.len() - i,
{
    if i < tail.len() {
        assert((front + tail)[front.len() + i] == tail[i]);
        if is_word_char(tail[i]) {
            lemma_word_end_behind(front, tail, i + 1);
        }
    }
}

proof fn lemma_words_behind(front: Seq<char>, tail: Seq<char>, i: int)
    requires
        0 <= i <= tail.len(),
    ensures
        words(front + tail, front.len() + i) == words(tail, i),
    decreases tail.len() - i,
{
    let s = front + tail;
    let n = front.len() as int;
    if i < tail.len() {
        assert(s[n + i] == tail[i]);
        if is_word_char(tail[i]) {
            lemma_word_end_behind(front, tail, i + 1);
            lemma_word_end(tail, i + 1);
            let end = word_end(tail, i + 1);
            assert(s.subrange(n + i, n + end) =~= tail.subrange(i, end));
            lemma_words_behind(front, tail, end);
        } else {
            lemma_words_behind(front, tail, i + 1);
        }
    }
}

proof fn lemma_addresses_of_both(a: Seq<Seq<char>>, b: Seq<Seq<char>>)
    ensures
        addresses(a).len() <= addresses(a + b).len(),
        addresses(a + b).take(addresses(a).len() as int) == addresses(a),
    decreases b.len(),
{
    let l = addresses(a);
    if b.len() == 0 {
        assert(a + b =~= a);
        assert(l.take(l.len() as int) =~= l);
    } else {
        let init = b.drop_last();
        lemma_addresses_of_both(a, init);
        assert((a + b).drop_last() =~= a + init);
        let before = addresses(a + init);
        let all = addresses(a + b);
        assert(all == before || all == before.push((a + b).last()));
        assert(all.take(l.len() as int) =~= before.take(l.len() as int));
    }
}

proof fn lemma_joined_front_part(l: Seq<Seq<char>>, sep: Seq<char>, n: int)
    requires
        0 < n <= l.len(),
    ensures
        text::matches_at(text::joined(l, sep), text::joined(l.take(n), sep), 0),
    decreases l.len(),
{
    let all = text::joined(l, sep);
    let part = text::joined(l.take(n), sep);
    if n == l.len() {
        assert(l.take(n) =~= l);
        assert(all.subrange(0, all.len() as int) =~= all);
    } else {
        let init = l.drop_last();
        assert(init.take(n) =~= l.take(n));
        lemma_joined_front_part(init, sep, n);
        let before = text::joined(init, sep);
        assert(all == before + sep + l.last());
        assert(all.subrange(0, part.len() as int) =~= before.subrange(0, part.len() as int));
    }
}

/// Addresses are handed on in the order in which they stand in the text: what a beginning of
/// the text hands on comes first, whatever follows.
pub proof fn lemma_addresses_in_order(head: Seq<char>, sep: char, tail: Seq<char>)
    requires
        !(('a' <= sep <= 'z') || ('A' <= sep <= 'Z') || ('0' <= sep <= '9')),
    ensures
        contract_content_of(head) matches Some(c) ==> (contract_content_of(
            head.push(sep) + tail,
        ) matches Some(all) && text::matches_at(all, c, 0)),
        contract_content_of(head) is None ==> contract_content_of(head.push(sep) + tail)
            == contract_content_of(tail),
{
    let a = words(head, 0);
    let b = words(tail, 0);
    lemma_words_of_both(head, sep, tail, 0);
    lemma_addresses_of_both(a, b);
    if contract_content_of(head) is Some {
        lemma_joined_front_part(addresses(a + b), "\n"@, addresses(a).len() as int);
    } else {
        lemma_addresses_of_none(a, b);
    }
}

proof fn lemma_addresses_of_none(a: Seq<Seq<char>>, b: Seq<Seq<char>>)
    requires
        addresses(a).len() == 0,
    ensures
        addresses(a + b) == addresses(b),
    decreases b.len(),
{
    if b.len() == 0 {
        assert(a + b =~= a);
        assert(addresses(a) =~= addresses(b));
    } else {
        assert((a + b).drop_last() =~= a + b.drop_last());
        lemma_addresses_of_none(a, b.drop_last());
    }
}

} // verus!
