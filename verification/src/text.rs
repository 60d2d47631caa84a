//! Text as sequences of characters: the vocabulary that the other modules use
//! to say what a rendered string is, and the executable functions that build
//! and search such strings.

use vstd::prelude::*;
use vstd::string::*;

verus! {

/// Appending one character puts it behind the characters that are there.
pub assume_specification[ String::push ](s: &mut String, c: char)
    ensures
        final(s)@ == old(s)@.push(c),
;

/// The characters with the Unicode property `White_Space`.
pub open spec fn is_white_space(c: char) -> bool {
    let u = c as u32;
    ||| 0x09 <= u <= 0x0D
    ||| u == 0x20
    ||| u == 0x85
    ||| u == 0xA0
    ||| u == 0x1680
    ||| 0x2000 <= u <= 0x200A
    ||| u == 0x2028
    ||| u == 0x2029
    ||| u == 0x202F
    ||| u == 0x205F
    ||| u == 0x3000
}

/// Nothing but white space.
pub open spec fn is_blank(s: Seq<char>) -> bool {
    forall|i: int| 0 <= i < s.len() ==> is_white_space(#[trigger] s[i])
}

/// `s` without its leading white space.
pub open spec fn trimmed_start(s: Seq<char>) -> Seq<char>
    decreases s.len(),
{
    if s.len() > 0 && is_white_space(s[0]) {
        trimmed_start(s.skip(1))
    } else {
        s
    }
}

/// `s` without its trailing white space.
pub open spec fn trimmed_end(s: Seq<char>) -> Seq<char>
    decreases s.len(),
{
    if s.len() > 0 && is_white_space(s.last()) {
        trimmed_end(s.drop_last())
    } else {
        s
    }
}

/// `s` without leading and trailing white space.
pub open spec fn trimmed(s: Seq<char>) -> Seq<char> {
    trimmed_end(trimmed_start(s))
}

pub open spec fn is_digit(c: char) -> bool {
    '0' <= c <= '9'
}

/// How many digits `s` starts with.
pub open spec fn digit_run(s: Seq<char>) -> nat
    decreases s.len(),
{
    if s.len() > 0 && is_digit(s[0]) {
        1 + digit_run(s.skip(1))
    } else {
        0
    }
}

/// `needle` stands in `hay` at position `i`.
pub open spec fn matches_at(hay: Seq<char>, needle: Seq<char>, i: int) -> bool {
    &&& 0 <= i
    &&& i + needle.len() <= hay.len()
    &&& hay.subrange(i, i + needle.len()) == needle
}

/// `needle` stands somewhere in `hay`.
pub open spec fn contains_text(hay: Seq<char>, needle: Seq<char>) -> bool {
    exists|i: int| matches_at(hay, needle, i)
}

/// The first position from `from` on at which `needle` stands in `hay`.
pub open spec fn find_text(hay: Seq<char>, needle: Seq<char>, from: int) -> Option<int>
    decreases hay.len() - from + 1,
{
    if from < 0 || from + needle.len() > hay.len() {
        None
    } else if matches_at(hay, needle, from) {
        Some(from)
    } else {
        find_text(hay, needle, from + 1)
    }
}

pub open spec fn ends_with(s: Seq<char>, suffix: Seq<char>) -> bool {
    matches_at(s, suffix, s.len() - suffix.len())
}

/// The ASCII capitals in lower case, every other character as it is.
pub open spec fn ascii_lower_char(c: char) -> char {
    if 'A' <= c <= 'Z' {
        ((c as u8) + 32) as char
    } else {
        c
    }
}

pub open spec fn ascii_lower(s: Seq<char>) -> Seq<char> {
    s.map_values(|c: char| ascii_lower_char(c))
}

/// The digit for a value below ten, and from `a` on for ten and above.
pub open spec fn digit_char(d: int) -> char {
    if d < 10 {
        (('0' as u8) + d) as char
    } else {
        (('a' as u8) + (d - 10)) as char
    }
}

/// Decimal digits without leading zeros.
pub open spec fn nat_decimal(n: nat) -> Seq<char>
    decreases n,
{
    if n < 10 {
        seq![digit_char(n as int)]
    } else {
        nat_decimal(n / 10).push(digit_char((n % 10) as int))
    }
}

/// A number in decimal notation.
pub open spec fn decimal(n: int) -> Seq<char> {
    if n < 0 {
        seq!['-'] + nat_decimal((-n) as nat)
    } else {
        nat_decimal(n as nat)
    }
}

/// The low `width` hexadecimal digits of `n`, in lower case.
pub open spec fn hex_digits(n: nat, width: nat) -> Seq<char>
    decreases width,
{
    if width == 0 {
        Seq::empty()
    } else {
        hex_digits(n / 16, (width - 1) as nat).push(digit_char((n % 16) as int))
    }
}

pub proof fn lemma_hex_digits_len(n: nat, width: nat)
    ensures
        hex_digits(n, width).len() == width,
    decreases width,
{
    if width > 0 {
        lemma_hex_digits_len(n / 16, (width - 1) as nat);
    }
}

/// The parts one behind the other, with `sep` between neighbours.
pub open spec fn joined(parts: Seq<Seq<char>>, sep: Seq<char>) -> Seq<char>
    decreases parts.len(),
{
    if parts.len() == 0 {
        Seq::empty()
    } else if parts.len() == 1 {
        parts[0]
    } else {
        joined(parts.drop_last(), sep) + sep + parts.last()
    }
}

/// The parts one behind the other.
pub open spec fn concat(parts: Seq<Seq<char>>) -> Seq<char>
    decreases parts.len(),
{
    if parts.len() == 0 {
        Seq::empty()
    } else {
        concat(parts.drop_last()) + parts.last()
    }
}

/// Dictionary order by code point.
pub open spec fn text_less(a: Seq<char>, b: Seq<char>) -> bool
    decreases a.len(),
{
    if b.len() == 0 {
        false
    } else if a.len() == 0 {
        true
    } else if a[0] != b[0] {
        a[0] < b[0]
    } else {
        text_less(a.skip(1), b.skip(1))
    }
}

pub fn char_is_white_space(c: char) -> (r: bool)
    ensures
        r == is_white_space(c),
{
    let u: u32 = c as u32;
    (0x09 <= u && u <= 0x0D) || u == 0x20 || u == 0x85 || u == 0xA0 || u == 0x1680 || (0x2000 <= u
        && u <= 0x200A) || u == 0x2028 || u == 0x2029 || u == 0x202F || u == 0x205F || u == 0x3000
}

/// The characters of `s` as a list.
pub fn chars_of(s: &str) -> (r: Vec<char>)
    ensures
        r@ == s@,
{
    let mut out: Vec<char> = Vec::new();
    for c in it: s.chars()
        invariant
            it.seq() == s@,
            out@ == s@.take(it.index()),
    {
        assert(s@.take(it.index() + 1) =~= s@.take(it.index()).push(c));
        out.push(c);
    }
    assert(s@.take(s@.len() as int) =~= s@);
    out
}

/// The characters of `v` between two positions as a string.
pub fn text_between(v: &Vec<char>, from: usize, to: usize) -> (r: String)
    requires
        from <= to <= v@.len(),
    ensures
        r@ == v@.subrange(from as int, to as int),
{
    let mut out: String = String::new();
    let mut i: usize = from;
    while i < to
        invariant
            from <= i <= to <= v@.len(),
            out@ == v@.subrange(from as int, i as int),
        decreases to - i,
    {
        out.push(v[i]);
        i = i + 1;
        assert(v@.subrange(from as int, i as int) =~= v@.subrange(from as int, i - 1).push(
            v@[i - 1],
        ));
    }
    out
}

/// The characters of `v` as a string.
pub fn text_of(v: &Vec<char>) -> (r: String)
    ensures
        r@ == v@,
{
    let r: String = text_between(v, 0, v.len());
    assert(v@.subrange(0, v@.len() as int) =~= v@);
    r
}

/// Whether two strings hold the same characters.
pub fn same_text(a: &str, b: &str) -> (r: bool)
    ensures
        r == (a@ == b@),
{
    let x: String = a.to_owned();
    let y: String = b.to_owned();
    x == y
}

/// Whether `s` holds nothing but white space.
pub fn blank(s: &str) -> (r: bool)
    ensures
        r == is_blank(s@),
{
    let v: Vec<char> = chars_of(s);
    let mut i: usize = 0;
    while i < v.len()
        invariant
            v@ == s@,
            i <= v@.len(),
            forall|j: int| 0 <= j < i ==> is_white_space(#[trigger] v@[j]),
        decreases v@.len() - i,
    {
        if !char_is_white_space(v[i]) {
            return false;
        }
        i = i + 1;
    }
    true
}

/// `s` without leading and trailing white space.
pub fn trim(s: &str) -> (r: String)
    ensures
        r@ == trimmed(s@),
{
    let v: Vec<char> = chars_of(s);
    let mut from: usize = 0;
    assert(v@.skip(0) =~= v@);
    while from < v.len() && char_is_white_space(v[from])
        invariant
            v@ == s@,
            from <= v@.len(),
            trimmed_start(s@) == trimmed_start(v@.skip(from as int)),
        decreases v@.len() - from,
    {
        assert(v@.skip(from as int).skip(1) =~= v@.skip(from + 1));
        from = from + 1;
    }
    let ghost start = v@.skip(from as int);
    let mut to: usize = v.len();
    assert(trimmed_start(s@) == start);
    assert(v@.subrange(from as int, to as int) =~= start);
    while to > from && char_is_white_space(v[to - 1])
        invariant
            from <= to <= v@.len(),
            trimmed_end(start) == trimmed_end(v@.subrange(from as int, to as int)),
        decreases to,
    {
        assert(v@.subrange(from as int, to as int).drop_last() =~= v@.subrange(
            from as int,
            to - 1,
        ));
        to = to - 1;
    }
    text_between(&v, from, to)
}

/// Whether `needle` stands in `hay` at position `i`.
pub fn stands_at(hay: &Vec<char>, needle: &Vec<char>, i: usize) -> (r: bool)
    ensures
        r == matches_at(hay@, needle@, i as int),
{
    if needle.len() > hay.len() || i > hay.len() - needle.len() {
        return false;
    }
    let mut k: usize = 0;
    while k < needle.len()
        invariant
            k <= needle@.len(),
            needle@.len() == needle.len(),
            hay@.len() == hay.len(),
            i + needle@.len() <= hay@.len(),
            forall|j: int| 0 <= j < k ==> hay@[i + j] == #[trigger] needle@[j],
        decreases needle@.len() - k,
    {
        if hay[i + k] != needle[k] {
            assert(hay@.subrange(i as int, i + needle@.len())[k as int] != needle@[k as int]);
            return false;
        }
        k = k + 1;
    }
    assert(hay@.subrange(i as int, i + needle@.len()) =~= needle@);
    true
}

/// The first position from `from` on at which `needle` stands in `hay`.
pub fn find_in(hay: &Vec<char>, needle: &Vec<char>, from: usize) -> (r: Option<usize>)
    ensures
        match r {
            Some(i) => find_text(hay@, needle@, from as int) == Some(i as int),
            None => find_text(hay@, needle@, from as int) is None,
        },
{
    let mut i: usize = from;
    while needle.len() <= hay.len() && i <= hay.len() - needle.len()
        invariant
            from <= i,
            from < i ==> i <= hay@.len() - needle@.len() + 1,
            find_text(hay@, needle@, from as int) == find_text(hay@, needle@, i as int),
        decreases hay@.len() - i + 1,
    {
        if stands_at(hay, needle, i) {
            return Some(i);
        }
        assert(needle@.len() == 0 ==> hay@.subrange(i as int, i as int) =~= needle@);
        i = i + 1;
    }
    None
}

/// A search from `from` on finds the first match, and fails only where there is none.
pub proof fn lemma_find_text(hay: Seq<char>, needle: Seq<char>, from: int)
    requires
        0 <= from,
    ensures
        match find_text(hay, needle, from) {
            Some(i) => {
                &&& from <= i
                &&& matches_at(hay, needle, i)
                &&& forall|j: int| from <= j < i ==> !#[trigger] matches_at(hay, needle, j)
            },
            None => forall|j: int| from <= j ==> !#[trigger] matches_at(hay, needle, j),
        },
    decreases hay.len() - from + 1,
{
    if from + needle.len() <= hay.len() && !matches_at(hay, needle, from) {
        lemma_find_text(hay, needle, from + 1);
    }
}

/// Whether `needle` stands somewhere in `hay`.
pub fn contains(hay: &str, needle: &str) -> (r: bool)
    ensures
        r == contains_text(hay@, needle@),
{
    let h: Vec<char> = chars_of(hay);
    let n: Vec<char> = chars_of(needle);
    proof {
        lemma_find_text(h@, n@, 0);
    }
    find_in(&h, &n, 0).is_some()
}

/// Whether `s` ends with `suffix`.
pub fn has_suffix(s: &str, suffix: &str) -> (r: bool)
    ensures
        r == ends_with(s@, suffix@),
{
    let h: Vec<char> = chars_of(s);
    let n: Vec<char> = chars_of(suffix);
    if n.len() > h.len() {
        return false;
    }
    stands_at(&h, &n, h.len() - n.len())
}

/// `s` with its ASCII capitals in lower case.
pub fn to_ascii_lower(s: &str) -> (r: String)
    ensures
        r@ == ascii_lower(s@),
{
    let v: Vec<char> = chars_of(s);
    let mut out: String = String::new();
    let mut i: usize = 0;
    while i < v.len()
        invariant
            v@ == s@,
            i <= v@.len(),
            out@ == ascii_lower(v@.take(i as int)),
        decreases v@.len() - i,
    {
        let c: char = v[i];
        let l: char = if 'A' <= c && c <= 'Z' {
            ((c as u8) + 32) as char
        } else {
            c
        };
        out.push(l);
        i = i + 1;
        assert(out@ =~= ascii_lower(v@.take(i as int)));
    }
    assert(v@.take(i as int) =~= v@);
    out
}

/// The digit for a value below sixteen.
pub fn digit_of(d: u8) -> (r: char)
    requires
        d < 16,
    ensures
        r == digit_char(d as int),
{
    if d < 10 {
        (('0' as u8) + d) as char
    } else {
        (('a' as u8) + (d - 10)) as char
    }
}

/// Put the decimal digits of `n` behind what `out` holds.
pub fn push_nat(out: &mut String, n: u64)
    ensures
        final(out)@ == old(out)@ + nat_decimal(n as nat),
    decreases n,
{
    if n >= 10 {
        push_nat(out, n / 10);
    }
    out.push(digit_of((n % 10) as u8));
    proof {
        assert(out@ =~= old(out)@ + nat_decimal(n as nat));
    }
}

/// Put the decimal notation of `n` behind what `out` holds.
pub fn push_int(out: &mut String, n: i64)
    ensures
        final(out)@ == old(out)@ + decimal(n as int),
{
    if n < 0 {
        out.push('-');
        if n == i64::MIN {
            push_nat(out, 9_223_372_036_854_775_808);
        } else {
            push_nat(out, (-n) as u64);
        }
    } else {
        push_nat(out, n as u64);
    }
    proof {
        assert(out@ =~= old(out)@ + decimal(n as int));
    }
}

/// `n` in decimal notation.
pub fn int_text(n: i64) -> (r: String)
    ensures
        r@ == decimal(n as int),
{
    let mut out: String = String::new();
    push_int(&mut out, n);
    assert(out@ =~= decimal(n as int));
    out
}

/// Put the low `width` hexadecimal digits of `n` behind what `out` holds.
pub fn push_hex(out: &mut String, n: u64, width: u8)
    ensures
        final(out)@ == old(out)@ + hex_digits(n as nat, width as nat),
    decreases width,
{
    if width > 0 {
        push_hex(out, n / 16, width - 1);
        out.push(digit_of((n % 16) as u8));
    }
    proof {
        assert(out@ =~= old(out)@ + hex_digits(n as nat, width as nat));
    }
}

/// The strings one behind the other, with `sep` between neighbours.
pub fn join(parts: &Vec<String>, sep: &str) -> (r: String)
    ensures
        r@ == joined(parts.deep_view(), sep@),
{
    let mut out: String = String::new();
    let mut i: usize = 0;
    while i < parts.len()
        invariant
            i <= parts@.len(),
            out@ == joined(parts.deep_view().take(i as int), sep@),
        decreases parts@.len() - i,
    {
        let ghost before = parts.deep_view().take(i as int);
        if i > 0 {
            out.append(sep);
        }
        out.append(parts[i].as_str());
        i = i + 1;
        proof {
            let now = parts.deep_view().take(i as int);
            assert(now.drop_last() =~= before);
            assert(now.last() == parts@[i - 1]@);
            assert(out@ =~= joined(now, sep@));
        }
    }
    assert(parts.deep_view().take(i as int) =~= parts.deep_view());
    out
}

/// Whether `a` stands before `b` in dictionary order by code point.
pub fn text_before(a: &str, b: &str) -> (r: bool)
    ensures
        r == text_less(a@, b@),
{
    let x: Vec<char> = chars_of(a);
    let y: Vec<char> = chars_of(b);
    let mut i: usize = 0;
    assert(x@.skip(0) =~= x@);
    assert(y@.skip(0) =~= y@);
    while i < x.len() && i < y.len() && x[i] == y[i]
        invariant
            x@ == a@,
            y@ == b@,
            i <= x@.len(),
            i <= y@.len(),
            text_less(a@, b@) == text_less(x@.skip(i as int), y@.skip(i as int)),
        decreases x@.len() - i,
    {
        assert(x@.skip(i as int).skip(1) =~= x@.skip(i + 1));
        assert(y@.skip(i as int).skip(1) =~= y@.skip(i + 1));
        i = i + 1;
    }
    if i >= y.len() {
        false
    } else if i >= x.len() {
        true
    } else {
        x[i] < y[i]
    }
}

/// Joined lists of parts hold what the lists hold.
pub proof fn lemma_concat_add(a: Seq<Seq<char>>, b: Seq<Seq<char>>)
    ensures
        concat(a + b) == concat(a) + concat(b),
    decreases b.len(),
{
    if b.len() == 0 {
        assert(a + b =~= a);
        assert(concat(a) + concat(b) =~= concat(a));
    } else {
        lemma_concat_add(a, b.drop_last());
        assert((a + b).drop_last() =~= a + b.drop_last());
        assert(concat(a + b) =~= concat(a) + concat(b));
    }
}

/// A single part is all there is.
pub proof fn lemma_concat_one(part: Seq<char>)
    ensures
        concat(seq![part]) == part,
{
    assert(seq![part].drop_last() =~= Seq::<Seq<char>>::empty());
    assert(concat(Seq::<Seq<char>>::empty()) == Seq::<char>::empty());
    assert(concat(seq![part]) =~= part);
}

/// The first part stands in front of what the others hold.
pub proof fn lemma_concat_front(first: Seq<char>, rest: Seq<Seq<char>>)
    ensures
        concat(seq![first] + rest) == first + concat(rest),
{
    lemma_concat_add(seq![first], rest);
    lemma_concat_one(first);
}

/// Dictionary order is strict: of two different texts exactly one stands before
/// the other, and no text stands before itself.
pub proof fn lemma_text_less_total(a: Seq<char>, b: Seq<char>)
    ensures
        text_less(a, b) ==> a != b && !text_less(b, a),
        a != b ==> text_less(a, b) || text_less(b, a),
    decreases a.len(),
{
    if a.len() > 0 && b.len() > 0 {
        if a[0] == b[0] {
            lemma_text_less_total(a.skip(1), b.skip(1));
            assert(a =~= seq![a[0]] + a.skip(1));
            assert(b =~= seq![b[0]] + b.skip(1));
        }
    } else {
        if a.len() == 0 && b.len() == 0 {
            assert(a =~= b);
        }
    }
}

/// Dictionary order is transitive.
pub proof fn lemma_text_less_transitive(a: Seq<char>, b: Seq<char>, c: Seq<char>)
    requires
        text_less(a, b),
        text_less(b, c),
    ensures
        text_less(a, c),
    decreases a.len(),
{
    if a.len() > 0 && a[0] == b[0] && b[0] == c[0] {
        lemma_text_less_transitive(a.skip(1), b.skip(1), c.skip(1));
    }
}

/// The length of the longest text.
pub open spec fn longest(l: Seq<Seq<char>>) -> nat
    decreases l.len(),
{
    if l.len() == 0 {
        0
    } else {
        let before = longest(l.drop_last());
        if l.last().len() > before {
            l.last().len()
        } else {
            before
        }
    }
}

proof fn lemma_longest_bounds(l: Seq<Seq<char>>, i: int)
    requires
        0 <= i < l.len(),
    ensures
        l[i].len() <= longest(l),
    decreases l.len(),
{
    if i < l.len() - 1 {
        lemma_longest_bounds(l.drop_last(), i);
    }
}

/// No text of a list is longer than the longest.
pub proof fn lemma_longest(l: Seq<Seq<char>>, x: Seq<char>)
    requires
        l.contains(x),
    ensures
        x.len() <= longest(l),
{
    let i = choose|i: int| 0 <= i < l.len() && l[i] == x;
    lemma_longest_bounds(l, i);
}

/// Every part stands in what the parts make together.
pub proof fn lemma_joined_has_part(parts: Seq<Seq<char>>, sep: Seq<char>, i: int)
    requires
        0 <= i < parts.len(),
    ensures
        contains_text(joined(parts, sep), parts[i]),
    decreases parts.len(),
{
    let all = joined(parts, sep);
    if parts.len() == 1 {
        assert(all.subrange(0, all.len() as int) =~= parts[i]);
        assert(matches_at(all, parts[i], 0));
    } else if i == parts.len() - 1 {
        let at = all.len() - parts[i].len();
        assert(all.subrange(at, all.len() as int) =~= parts[i]);
        assert(matches_at(all, parts[i], at));
    } else {
        let init = parts.drop_last();
        lemma_joined_has_part(init, sep, i);
        let before = joined(init, sep);
        let at = choose|at: int| matches_at(before, init[i], at);
        assert(all.subrange(at, at + parts[i].len()) =~= before.subrange(at, at + init[i].len()));
        assert(matches_at(all, parts[i], at));
    }
}

/// The last part ends what the parts make together.
pub proof fn lemma_joined_ends(parts: Seq<Seq<char>>, sep: Seq<char>)
    requires
        parts.len() > 0,
    ensures
        ends_with(joined(parts, sep), parts.last()),
{
    let all = joined(parts, sep);
    assert(all.subrange(all.len() - parts.last().len(), all.len() as int) =~= parts.last());
}

/// The number that decimal digits stand for.
pub open spec fn digits_value(s: Seq<char>) -> nat
    decreases s.len(),
{
    if s.len() == 0 {
        0
    } else {
        10 * digits_value(s.drop_last()) + (s.last() as nat - '0' as nat) as nat
    }
}

/// Decimal digits stand for the number that they were written for.
pub proof fn lemma_nat_decimal_value(n: nat)
    ensures
        nat_decimal(n).len() > 0,
        digits_value(nat_decimal(n)) == n,
        forall|i: int| 0 <= i < nat_decimal(n).len() ==> is_digit(#[trigger] nat_decimal(n)[i]),
    decreases n,
{
    reveal_with_fuel(digits_value, 2);
    if n < 10 {
        assert(nat_decimal(n).drop_last() =~= Seq::<char>::empty());
        assert(nat_decimal(n).last() == digit_char(n as int));
    } else {
        lemma_nat_decimal_value(n / 10);
        assert(nat_decimal(n).drop_last() =~= nat_decimal(n / 10));
        assert(nat_decimal(n).last() == digit_char((n % 10) as int));
    }
}

/// Trimming takes away white space at both ends, and nothing else.
pub proof fn lemma_trimmed(s: Seq<char>)
    ensures
        exists|from: int, to: int|
            {
                &&& 0 <= from <= to <= s.len()
                &&& trimmed(s) == #[trigger] s.subrange(from, to)
                &&& is_blank(s.take(from))
                &&& is_blank(s.skip(to))
                &&& from < to ==> !is_white_space(s[from]) && !is_white_space(s[to - 1])
            },
{
    let from = lemma_trimmed_start(s);
    let rest = trimmed_start(s);
    let n = lemma_trimmed_end(rest);
    let to = from + n;
    assert(trimmed(s) =~= s.subrange(from, to));
    assert forall|i: int| 0 <= i < s.skip(to).len() implies is_white_space(
        #[trigger] s.skip(to)[i],
    ) by {
        assert(rest.skip(n)[i] == s.skip(to)[i]);
    }
    if from < to {
        assert(rest[n - 1] == s[to - 1]);
        assert(rest[0] == s[from]);
    }
}

proof fn lemma_trimmed_start(s: Seq<char>) -> (from: int)
    ensures
        0 <= from <= s.len(),
        trimmed_start(s) == s.skip(from),
        is_blank(s.take(from)),
        from < s.len() ==> !is_white_space(s[from]),
    decreases s.len(),
{
    if s.len() > 0 && is_white_space(s[0]) {
        let rest = s.skip(1);
        let n = lemma_trimmed_start(rest);
        assert(rest.skip(n) =~= s.skip(n + 1));
        assert forall|i: int| 0 <= i < s.take(n + 1).len() implies is_white_space(
            #[trigger] s.take(n + 1)[i],
        ) by {
            if i > 0 {
                assert(rest.take(n)[i - 1] == s.take(n + 1)[i]);
            }
        }
        n + 1
    } else {
        assert(s.skip(0) =~= s);
        0
    }
}

proof fn lemma_trimmed_end(s: Seq<char>) -> (to: int)
    ensures
        0 <= to <= s.len(),
        trimmed_end(s) == s.take(to),
        is_blank(s.skip(to)),
        to > 0 ==> !is_white_space(s[to - 1]),
    decreases s.len(),
{
    if s.len() > 0 && is_white_space(s.last()) {
        let init = s.drop_last();
        let n = lemma_trimmed_end(init);
        assert(init.take(n) =~= s.take(n));
        assert forall|i: int| 0 <= i < s.skip(n).len() implies is_white_space(
            #[trigger] s.skip(n)[i],
        ) by {
            if i < init.skip(n).len() {
                assert(init.skip(n)[i] == s.skip(n)[i]);
            }
        }
        n
    } else {
        assert(s.take(s.len() as int) =~= s);
        s.len() as int
    }
}

/// Some text of a list is as long as the longest.
pub proof fn lemma_longest_is_there(l: Seq<Seq<char>>)
    requires
        l.len() > 0,
    ensures
        exists|i: int| 0 <= i < l.len() && (#[trigger] l[i]).len() == longest(l),
    decreases l.len(),
{
    let init = l.drop_last();
    assert(l[l.len() - 1] == l.last());
    if l.last().len() <= longest(init) && init.len() > 0 {
        lemma_longest_is_there(init);
        let i = choose|i: int| 0 <= i < init.len() && (#[trigger] init[i]).len() == longest(init);
        assert(l[i].len() == longest(l));
    }
}

} // verus!
