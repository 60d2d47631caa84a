//! Removal of webhook tokens from texts that leave the relay.

use vstd::prelude::*;
use vstd::string::*;

use crate::text;

verus! {

/// What stands before the id of a webhook in its address.
pub open spec fn mark() -> Seq<char> {
    "/webhooks/"@
}

/// What stands in the place of a token.
pub open spec fn redacted() -> Seq<char> {
    "«redacted»"@
}

/// How many characters `s` starts with that are no white space.
pub open spec fn token_run(s: Seq<char>) -> nat
    decreases s.len(),
{
    if s.len() > 0 && !text::is_white_space(s[0]) {
        1 + token_run(s.skip(1))
    } else {
        0
    }
}

/// `s` from a position on, with every token replaced. A token is what follows the id of
/// a webhook and a slash, up to the next white space. The slash at the end of a mark that no
/// token follows can begin the next mark.
pub open spec fn scrubbed(s: Seq<char>, from: int) -> Seq<char>
    decreases s.len() - from,
{
    match text::find_text(s, mark(), from) {
        Some(i) if from <= i && i + 10 <= s.len() => {
            proof {
                lemma_digit_run(s.skip(i + 10));
            }
            let id_end = i + 10 + text::digit_run(s.skip(i + 10));
            if id_end < s.len() && s[id_end] == '/' {
                proof {
                    lemma_token_run(s.skip(id_end + 1));
                }
                let end = id_end + 1 + token_run(s.skip(id_end + 1));
                s.subrange(from, id_end) + "/"@ + redacted() + scrubbed(s, end)
            } else {
                s.subrange(from, i + 9) + scrubbed(s, i + 9)
            }
        },
        _ => s.skip(from),
    }
}

/// The run of digits at the start of a text ends where the first other character stands.
pub proof fn lemma_digit_run(s: Seq<char>)
    ensures
        text::digit_run(s) <= s.len(),
        forall|i: int| 0 <= i < text::digit_run(s) ==> text::is_digit(#[trigger] s[i]),
        text::digit_run(s) < s.len() ==> !text::is_digit(s[text::digit_run(s) as int]),
    decreases s.len(),
{
    if s.len() > 0 && text::is_digit(s[0]) {
        let rest = s.skip(1);
        lemma_digit_run(rest);
        assert forall|i: int| 0 <= i < text::digit_run(s) implies text::is_digit(#[trigger] s[i]) by {
            if i > 0 {
                assert(rest[i - 1] == s[i]);
            }
        }
        if text::digit_run(s) < s.len() {
            assert(rest[text::digit_run(rest) as int] == s[text::digit_run(s) as int]);
        }
    }
}

proof fn lemma_digit_run_is(s: Seq<char>, n: int)
    requires
        0 <= n <= s.len(),
        forall|i: int| 0 <= i < n ==> text::is_digit(#[trigger] s[i]),
        n == s.len() || !text::is_digit(s[n]),
    ensures
        text::digit_run(s) == n,
    decreases n,
{
    if n > 0 {
        let rest = s.skip(1);
        assert(text::is_digit(s[0]));
        assert forall|i: int| 0 <= i < n - 1 implies text::is_digit(#[trigger] rest[i]) by {
            assert(rest[i] == s[i + 1]);
        }
        assert(n < s.len() ==> rest[n - 1] == s[n]);
        lemma_digit_run_is(rest, n - 1);
    }
}

/// A token ends where the first white space stands.
pub proof fn lemma_token_run(s: Seq<char>)
    ensures
        token_run(s) <= s.len(),
        token_run(s) < s.len() ==> text::is_white_space(s[token_run(s) as int]),
    decreases s.len(),
{
    if s.len() > 0 && !text::is_white_space(s[0]) {
        let rest = s.skip(1);
        lemma_token_run(rest);
        if token_run(s) < s.len() {
            assert(rest[token_run(rest) as int] == s[token_run(s) as int]);
        }
    }
}

proof fn lemma_token_run_is(s: Seq<char>, n: int)
    requires
        0 <= n <= s.len(),
        forall|i: int| 0 <= i < n ==> !text::is_white_space(#[trigger] s[i]),
        n == s.len() || text::is_white_space(s[n]),
    ensures
        token_run(s) == n,
    decreases n,
{
    if n > 0 {
        let rest = s.skip(1);
        assert(!text::is_white_space(s[0]));
        assert forall|i: int| 0 <= i < n - 1 implies !text::is_white_space(#[trigger] rest[i]) by {
            assert(rest[i] == s[i + 1]);
        }
        assert(n < s.len() ==> rest[n - 1] == s[n]);
        lemma_token_run_is(rest, n - 1);
    }
}

fn digits_end(v: &Vec<char>, from: usize) -> (r: usize)
    requires
        from <= v@.len(),
    ensures
        r == from + text::digit_run(v@.skip(from as int)),
        from <= r <= v@.len(),
{
    let mut i: usize = from;
    while i < v.len() && '0' <= v[i] && v[i] <= '9'
        invariant
            from <= i <= v@.len(),
            forall|j: int| from <= j < i ==> text::is_digit(#[trigger] v@[j]),
        decreases v@.len() - i,
    {
        i = i + 1;
    }
    proof {
        let s = v@.skip(from as int);
        assert forall|j: int| 0 <= j < i - from implies text::is_digit(#[trigger] s[j]) by {
            assert(s[j] == v@[j + from]);
        }
        assert(i < v@.len() ==> s[i - from] == v@[i as int]);
        lemma_digit_run_is(s, i - from);
    }
    i
}

fn token_end(v: &Vec<char>, from: usize) -> (r: usize)
    requires
        from <= v@.len(),
    ensures
        r == from + token_run(v@.skip(from as int)),
        from <= r <= v@.len(),
{
    let mut i: usize = from;
    while i < v.len() && !text::char_is_white_space(v[i])
        invariant
            from <= i <= v@.len(),
            forall|j: int| from <= j < i ==> !text::is_white_space(#[trigger] v@[j]),
        decreases v@.len() - i,
    {
        i = i + 1;
    }
    proof {
        let s = v@.skip(from as int);
        assert forall|j: int| 0 <= j < i - from implies !text::is_white_space(#[trigger] s[j]) by {
            assert(s[j] == v@[j + from]);
        }
        assert(i < v@.len() ==> s[i - from] == v@[i as int]);
        lemma_token_run_is(s, i - from);
    }
    i
}

/// Replace every webhook token in a text: `.../webhooks/{id}/{token}` becomes
/// `.../webhooks/{id}/«redacted»`.
pub fn scrub_webhook_tokens(s: &str) -> (r: String)
    ensures
        r@ == scrubbed(s@, 0),
        !leaks(r@),
{
    let v: Vec<char> = text::chars_of(s);
    let needle: Vec<char> = text::chars_of("/webhooks/");
    proof {
        reveal_strlit("/webhooks/");
    }
    let mut out: String = String::new();
    let mut from: usize = 0;
    let mut next: Option<usize> = text::find_in(&v, &needle, 0);
    assert(out@ + scrubbed(v@, 0) =~= scrubbed(s@, 0));
    while next.is_some()
        invariant
            v@ == s@,
            needle@ == mark(),
            mark().len() == 10,
            from <= v@.len(),
            match next {
                Some(i) => text::find_text(v@, mark(), from as int) == Some(i as int),
                None => text::find_text(v@, mark(), from as int) is None,
            },
            out@ + scrubbed(v@, from as int) == scrubbed(s@, 0),
        decreases v@.len() - from,
    {
        let i: usize = next.unwrap();
        proof {
            text::lemma_find_text(v@, mark(), from as int);
        }
        assert(i + 10 <= v.len());
        let id_end: usize = digits_end(&v, i + 10);
        let ghost done = out@;
        if id_end < v.len() && v[id_end] == '/' {
            out.append(text::text_between(&v, from, id_end).as_str());
            out.append("/");
            out.append("«redacted»");
            let end: usize = token_end(&v, id_end + 1);
            assert(out@ + scrubbed(v@, end as int) =~= done + scrubbed(v@, from as int));
            from = end;
        } else {
            out.append(text::text_between(&v, from, i + 9).as_str());
            assert(out@ + scrubbed(v@, i + 9) =~= done + scrubbed(v@, from as int));
            from = i + 9;
        }
        next = text::find_in(&v, &needle, from);
    }
    out.append(text::text_between(&v, from, v.len()).as_str());
    assert(v@.skip(from as int) =~= v@.subrange(from as int, v@.len() as int));
    assert(out@ =~= scrubbed(s@, 0));
    proof {
        lemma_no_token_gets_through(s@);
    }
    out
}

/// What follows the mark names a webhook by its id and goes on with a token.
pub open spec fn shows_token(rest: Seq<char>) -> bool {
    let d = text::digit_run(rest) as int;
    &&& d < rest.len()
    &&& rest[d] == '/'
    &&& ({
        let token = rest.skip(d + 1);
        token.take(token_run(token) as int) != redacted()
    })
}

/// A token stands in `s`.
pub open spec fn leaks(s: Seq<char>) -> bool {
    exists|p: int| #[trigger] text::matches_at(s, mark(), p) && shows_token(s.skip(p + 10))
}

/// A text without the mark is left as it is.
pub proof fn lemma_plain_text_untouched(s: Seq<char>)
    requires
        !text::contains_text(s, mark()),
    ensures
        scrubbed(s, 0) == s,
{
    text::lemma_find_text(s, mark(), 0);
    if let Some(i) = text::find_text(s, mark(), 0) {
        assert(text::matches_at(s, mark(), i));
    }
    assert(s.skip(0) =~= s);
}

/// What comes before the last character of the next mark is never replaced.
proof fn lemma_front(s: Seq<char>, from: int)
    requires
        0 <= from <= s.len(),
        mark().len() == 10,
    ensures
        match text::find_text(s, mark(), from) {
            Some(i) => {
                &&& scrubbed(s, from).len() >= i + 9 - from
                &&& forall|k: int| 0 <= k < i + 9 - from ==> #[trigger] scrubbed(s, from)[k] == s[from
                    + k]
            },
            None => scrubbed(s, from) == s.skip(from),
        },
{
    text::lemma_find_text(s, mark(), from);
    let out = scrubbed(s, from);
    if let Some(i) = text::find_text(s, mark(), from) {
        lemma_digit_run(s.skip(i + 10));
        let id_end = i + 10 + text::digit_run(s.skip(i + 10));
        assert forall|k: int| 0 <= k < i + 9 - from implies #[trigger] out[k] == s[from + k] by {
            assert(s.subrange(from, id_end)[k] == s[from + k]);
            assert(s.subrange(from, i + 9)[k] == s[from + k]);
        }
    }
}

proof fn lemma_marks()
    ensures
        mark().len() == 10,
        mark()[0] == '/',
        mark()[9] == '/',
        mark()[1] == 'w',
        forall|k: int| 1 <= k <= 8 ==> #[trigger] mark()[k] != '/',
        redacted().len() == 10,
        redacted()[0] == '«',
        forall|k: int| 0 <= k < 10 ==> !text::is_white_space(#[trigger] redacted()[k]) && redacted()[k] != '/',
        "/"@ == seq!['/'],
{
    reveal_strlit("/webhooks/");
    reveal_strlit("«redacted»");
    reveal_strlit("/");
    assert("/"@ =~= seq!['/']);
}

/// The mark stands at `i`, behind it `d` digits and then no further digit.
spec fn address_at(s: Seq<char>, i: int, d: int) -> bool {
    &&& 0 <= i
    &&& 0 <= d
    &&& i + 10 + d <= s.len()
    &&& forall|k: int| 0 <= k < 10 ==> s[i + k] == #[trigger] mark()[k]
    &&& forall|q: int| i + 10 <= q < i + 10 + d ==> text::is_digit(#[trigger] s[q])
    &&& i + 10 + d < s.len() ==> !text::is_digit(s[i + 10 + d])
}

proof fn lemma_match_chars(s: Seq<char>, p: int)
    requires
        text::matches_at(s, mark(), p),
        mark().len() == 10,
    ensures
        0 <= p,
        p + 10 <= s.len(),
        forall|k: int| 0 <= k < 10 ==> s[p + k] == #[trigger] mark()[k],
{
    assert forall|k: int| 0 <= k < 10 implies s[p + k] == #[trigger] mark()[k] by {
        assert(s.subrange(p, p + 10)[k] == s[p + k]);
    }
}

proof fn lemma_chars_match(s: Seq<char>, p: int)
    requires
        0 <= p,
        p + 10 <= s.len(),
        mark().len() == 10,
        forall|k: int| 0 <= k < 10 ==> s[p + k] == #[trigger] mark()[k],
    ensures
        text::matches_at(s, mark(), p),
{
    assert(s.subrange(p, p + 10) =~= mark());
}

/// Behind its first character, an address has a slash only at the end of the mark.
proof fn lemma_slash_in_address(s: Seq<char>, i: int, d: int, q: int)
    requires
        address_at(s, i, d),
        i < q < i + 10 + d,
        s[q] == '/',
    ensures
        q == i + 9,
{
    lemma_marks();
    if q < i + 9 {
        assert(s[i + (q - i)] == mark()[q - i]);
    } else if q > i + 9 {
        assert(text::is_digit(s[q]));
    }
}

/// A mark that starts in the copied part of the result is the one that was found, or starts
/// with its last slash.
proof fn lemma_mark_in_copy(
    s: Seq<char>,
    from: int,
    i: int,
    d: int,
    to: int,
    more: Seq<char>,
    p: int,
)
    requires
        0 <= from <= i,
        address_at(s, i, d),
        i + 9 <= to <= i + 10 + d,
        forall|j: int| from <= j < i ==> !#[trigger] text::matches_at(s, mark(), j),
        0 <= p < to - from,
        text::matches_at(s.subrange(from, to) + more, mark(), p),
    ensures
        from + p == i || from + p == i + 9,
{
    lemma_marks();
    let head = s.subrange(from, to);
    let out = head + more;
    lemma_match_chars(out, p);
    let q = from + p;
    assert(out[p] == mark()[0]);
    assert(out[p] == s[q]);
    if q < i {
        assert forall|k: int| 0 <= k < 10 implies s[q + k] == #[trigger] mark()[k] by {
            assert(out[p + k] == head[p + k]);
        }
        lemma_chars_match(s, q);
        assert(false);
    } else if q > i {
        lemma_slash_in_address(s, i, d, q);
    }
}

/// Where a token was replaced, no mark of the result is followed by another one.
proof fn lemma_replaced_is_clean(
    s: Seq<char>,
    from: int,
    i: int,
    d: int,
    rest: Seq<char>,
    p: int,
)
    requires
        0 <= from <= i,
        address_at(s, i, d),
        i + 10 + d < s.len(),
        s[i + 10 + d] == '/',
        forall|j: int| from <= j < i ==> !#[trigger] text::matches_at(s, mark(), j),
        rest.len() > 0 ==> text::is_white_space(rest[0]),
        !leaks(rest),
        text::matches_at(s.subrange(from, i + 10 + d) + "/"@ + redacted() + rest, mark(), p),
    ensures
        !shows_token((s.subrange(from, i + 10 + d) + "/"@ + redacted() + rest).skip(p + 10)),
{
    lemma_marks();
    let head = s.subrange(from, i + 10 + d);
    let mid = "/"@ + redacted();
    let out = head + "/"@ + redacted() + rest;
    assert(out =~= head + mid + rest);
    let m = mark();
    let first = (head + mid).len() as int;
    assert(mid =~= seq!['/'] + redacted());
    lemma_match_chars(out, p);
    assert(out[p] == m[0]);
    assert(out[p + 1] == m[1]);
    if p >= first {
        assert(rest.subrange(p - first, p - first + 10) =~= out.subrange(p, p + 10));
        assert(text::matches_at(rest, m, p - first));
        assert(rest.skip(p - first + 10) =~= out.skip(p + 10));
    } else if p >= head.len() {
        assert(out[p] == mid[p - head.len()]);
        if p > head.len() {
            assert(mid[p - head.len()] == redacted()[p - head.len() - 1]);
        }
        assert(p == head.len());
        assert(out[p + 1] == mid[1]);
        assert(false);
    } else {
        assert(out =~= head + (mid + rest));
        lemma_mark_in_copy(s, from, i, d, i + 10 + d, mid + rest, p);
        if from + p == i + 9 {
            if d > 0 {
                assert(out[p + 1] == s[i + 10]);
                assert(text::is_digit(s[i + 10]));
            } else {
                assert(out[p + 1] == mid[0]);
            }
            assert(false);
        }
        let shown = out.skip(p + 10);
        assert(shown =~= s.subrange(i + 10, i + 10 + d) + mid + rest);
        assert forall|k: int| 0 <= k < d implies text::is_digit(#[trigger] shown[k]) by {
            assert(shown[k] == s[i + 10 + k]);
        }
        assert(shown[d] == '/');
        lemma_digit_run_is(shown, d);
        let token = shown.skip(d + 1);
        assert(token =~= redacted() + rest);
        assert forall|k: int| 0 <= k < 10 implies !text::is_white_space(#[trigger] token[k]) by {
            assert(token[k] == redacted()[k]);
        }
        if rest.len() > 0 {
            assert(token[10] == rest[0]);
        }
        lemma_token_run_is(token, 10);
        assert(token.take(10) =~= redacted());
    }
}

/// Where no token follows a mark, none does in the result.
proof fn lemma_kept_is_clean(s: Seq<char>, from: int, i: int, d: int, p: int)
    requires
        0 <= from <= i,
        address_at(s, i, d),
        i + 10 + d < s.len() ==> s[i + 10 + d] != '/',
        forall|j: int| from <= j < i ==> !#[trigger] text::matches_at(s, mark(), j),
        !leaks(scrubbed(s, i + 9)),
        text::matches_at(s.subrange(from, i + 9) + scrubbed(s, i + 9), mark(), p),
    ensures
        !shows_token((s.subrange(from, i + 9) + scrubbed(s, i + 9)).skip(p + 10)),
{
    lemma_marks();
    let head = s.subrange(from, i + 9);
    let rest = scrubbed(s, i + 9);
    let out = head + rest;
    let m = mark();
    lemma_match_chars(out, p);
    if p >= head.len() {
        let at = p - head.len();
        assert(rest.subrange(at, at + 10) =~= out.subrange(p, p + 10));
        assert(text::matches_at(rest, m, at));
        assert(rest.skip(at + 10) =~= out.skip(p + 10));
    } else {
        lemma_mark_in_copy(s, from, i, d, i + 9, rest, p);
        assert(from + p == i);
        let shown = out.skip(p + 10);
        assert(shown =~= rest.skip(1));
        lemma_front(s, i + 9);
        text::lemma_find_text(s, m, i + 9);
        // What is copied behind the mark reaches to the end of the digits and one further.
        if let Some(j) = text::find_text(s, m, i + 9) {
            lemma_match_chars(s, j);
            assert(s[j + 0] == m[0]);
            assert(s[j + 1] == m[1]);
            if i + 9 < j < i + 10 + d {
                lemma_slash_in_address(s, i, d, j);
            }
            if j == i + 9 {
                if d > 0 {
                    assert(text::is_digit(s[i + 10]));
                }
                assert(d == 0);
            } else {
                assert(j > i + 10 + d);
            }
            assert forall|k: int| 0 <= k < d implies text::is_digit(#[trigger] shown[k]) by {
                assert(rest[k + 1] == s[i + 9 + (k + 1)]);
                assert(text::is_digit(s[i + 10 + k]));
            }
            assert(rest[d + 1] == s[i + 9 + (d + 1)]);
            assert(shown[d] == s[i + 10 + d]);
        } else {
            assert(shown =~= s.skip(i + 10));
            assert forall|k: int| 0 <= k < d implies text::is_digit(#[trigger] shown[k]) by {
                assert(text::is_digit(s[i + 10 + k]));
            }
        }
        lemma_digit_run_is(shown, d);
    }
}

proof fn lemma_no_leak_from(s: Seq<char>, from: int)
    requires
        0 <= from <= s.len(),
    ensures
        !leaks(scrubbed(s, from)),
    decreases s.len() - from,
{
    lemma_marks();
    text::lemma_find_text(s, mark(), from);
    let out = scrubbed(s, from);
    let m = mark();
    if let Some(i) = text::find_text(s, m, from) {
        let tail = s.skip(i + 10);
        lemma_digit_run(tail);
        lemma_match_chars(s, i);
        let d = text::digit_run(tail) as int;
        let id_end = i + 10 + d;
        assert(address_at(s, i, d)) by {
            assert forall|q: int| i + 10 <= q < i + 10 + d implies text::is_digit(#[trigger] s[q]) by {
                assert(tail[q - i - 10] == s[q]);
            }
            if id_end < s.len() {
                assert(tail[d] == s[id_end]);
            }
        }
        if id_end < s.len() && s[id_end] == '/' {
            let after = s.skip(id_end + 1);
            let end = id_end + 1 + token_run(after);
            lemma_token_run(after);
            lemma_no_leak_from(s, end);
            lemma_front(s, end);
            text::lemma_find_text(s, m, end);
            let rest = scrubbed(s, end);
            if rest.len() > 0 {
                assert(end < s.len());
                assert(rest[0] == s[end + 0]);
                assert(after[end - id_end - 1] == s[end]);
            }
            assert forall|p: int| #[trigger] text::matches_at(out, m, p) implies !shows_token(
                out.skip(p + 10),
            ) by {
                lemma_replaced_is_clean(s, from, i, d, rest, p);
            }
        } else {
            lemma_no_leak_from(s, i + 9);
            assert forall|p: int| #[trigger] text::matches_at(out, m, p) implies !shows_token(
                out.skip(p + 10),
            ) by {
                lemma_kept_is_clean(s, from, i, d, p);
            }
        }
    } else {
        assert(out =~= s.skip(from));
        assert forall|p: int| #[trigger] text::matches_at(out, m, p) implies !shows_token(
            out.skip(p + 10),
        ) by {
            assert(s.subrange(from + p, from + p + 10) =~= out.subrange(p, p + 10));
            assert(text::matches_at(s, m, from + p));
        }
    }
}

/// No token gets through: nothing that follows an address of a webhook in the result is
/// anything but the replacement.
pub proof fn lemma_no_token_gets_through(s: Seq<char>)
    ensures
        !leaks(scrubbed(s, 0)),
{
    lemma_no_leak_from(s, 0);
}

proof fn lemma_find_shift(s: Seq<char>, needle: Seq<char>, by: int, from: int)
    requires
        0 <= by,
        0 <= from,
        by + from <= s.len(),
    ensures
        text::find_text(s, needle, by + from) == (match text::find_text(
            s.skip(by),
            needle,
            from,
        ) {
            Some(i) => Some(by + i),
            None => None,
        }),
    decreases s.len() - from,
{
    let t = s.skip(by);
    if by + from + needle.len() <= s.len() {
        assert(s.subrange(by + from, by + from + needle.len()) =~= t.subrange(
            from,
            from + needle.len(),
        ));
        if !text::matches_at(t, needle, from) && by + from + 1 <= s.len() {
            lemma_find_shift(s, needle, by, from + 1);
        }
    }
}

proof fn lemma_scrub_shift(s: Seq<char>, by: int, from: int)
    requires
        0 <= by,
        0 <= from,
        by + from <= s.len(),
    ensures
        scrubbed(s, by + from) == scrubbed(s.skip(by), from),
    decreases s.len() - from,
{
    let t = s.skip(by);
    lemma_marks();
    lemma_find_shift(s, mark(), by, from);
    text::lemma_find_text(t, mark(), from);
    match text::find_text(t, mark(), from) {
        Some(i) => {
            assert(t.skip(i + 10) =~= s.skip(by + i + 10));
            lemma_digit_run(t.skip(i + 10));
            let id_end = i + 10 + text::digit_run(t.skip(i + 10));
            if id_end < t.len() && t[id_end] == '/' {
                assert(t.skip(id_end + 1) =~= s.skip(by + id_end + 1));
                lemma_token_run(t.skip(id_end + 1));
                let end = id_end + 1 + token_run(t.skip(id_end + 1));
                assert(s.subrange(by + from, by + id_end) =~= t.subrange(from, id_end));
                lemma_scrub_shift(s, by, end);
            } else {
                assert(s.subrange(by + from, by + i + 9) =~= t.subrange(from, i + 9));
                lemma_scrub_shift(s, by, i + 9);
            }
        },
        None => {
            assert(s.skip(by + from) =~= t.skip(from));
        },
    }
}

/// The token of an address is replaced, and nothing else of the text: what stands before the
/// address stays, and so do the address itself and the id of the webhook. Behind the token the
/// text is dealt with in the same way.
pub proof fn lemma_only_the_token_goes(
    head: Seq<char>,
    id: Seq<char>,
    token: Seq<char>,
    tail: Seq<char>,
)
    requires
        !text::contains_text(head + "/webhooks"@, "/webhooks/"@),
        forall|i: int| 0 <= i < id.len() ==> '0' <= #[trigger] id[i] <= '9',
        forall|i: int| 0 <= i < token.len() ==> !text::is_white_space(#[trigger] token[i]),
        tail.len() == 0 || text::is_white_space(tail[0]),
    ensures
        scrubbed(head + "/webhooks/"@ + id + "/"@ + token + tail, 0) == head + "/webhooks/"@ + id
            + "/"@ + "«redacted»"@ + scrubbed(tail, 0),
{
    lemma_marks();
    reveal_strlit("/webhooks/");
    reveal_strlit("/webhooks");
    let m = "/webhooks/"@;
    let short = "/webhooks"@;
    assert(short.len() == 9);
    assert(short + seq!['/'] =~= m);
    let s = head + m + id + "/"@ + token + tail;
    let n = head.len() as int;
    let front = head + short;
    assert(s.subrange(n, n + 10) =~= m);
    assert(text::matches_at(s, m, n));
    text::lemma_find_text(s, m, 0);
    let i = text::find_text(s, m, 0)->0;
    assert(i <= n) by {
        if i > n {
            assert(!text::matches_at(s, m, n));
        }
    }
    if i < n {
        assert(front.subrange(i, i + 10) =~= s.subrange(i, i + 10));
        assert(text::matches_at(front, m, i));
    }
    let d = id.len() as int;
    let rest = s.skip(n + 10);
    assert(rest =~= id + "/"@ + token + tail);
    assert forall|k: int| 0 <= k < d implies text::is_digit(#[trigger] rest[k]) by {
        assert('0' <= id[k] <= '9');
    }
    assert(rest[d] == '/');
    lemma_digit_run_is(rest, d);
    let id_end = n + 10 + d;
    assert(s[id_end] == '/');
    let after = s.skip(id_end + 1);
    assert(after =~= token + tail);
    let t = token.len() as int;
    assert forall|k: int| 0 <= k < t implies !text::is_white_space(#[trigger] after[k]) by {
        assert(after[k] == token[k]);
    }
    if t < after.len() {
        assert(after[t] == tail[0]);
    }
    lemma_token_run_is(after, t);
    let end = id_end + 1 + t;
    assert(s.skip(end) =~= tail);
    lemma_scrub_shift(s, end, 0);
    assert(s.subrange(0, id_end) =~= head + m + id);
    assert(scrubbed(s, 0) == s.subrange(0, id_end) + "/"@ + redacted() + scrubbed(s, end));
}

} // verus!
