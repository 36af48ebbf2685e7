//! Characters, lines and white space in texts that people edit.
use vstd::prelude::*;
use vstd::string::*;

verus! {

/// The white space of Unicode.
pub open spec fn is_white(c: char) -> bool {
    ||| '\t' <= c <= '\r'
    ||| c == ' '
    ||| c == '\u{85}'
    ||| c == '\u{a0}'
    ||| c == '\u{1680}'
    ||| '\u{2000}' <= c <= '\u{200a}'
    ||| c == '\u{2028}'
    ||| c == '\u{2029}'
    ||| c == '\u{202f}'
    ||| c == '\u{205f}'
    ||| c == '\u{3000}'
}

/// How many characters of white space `s` starts with.
pub open spec fn lead(s: Seq<char>) -> nat
    decreases s.len(),
{
    if s.len() == 0 || !is_white(s[0]) {
        0
    } else {
        1 + lead(s.skip(1))
    }
}

/// How many characters of white space `s` ends with.
pub open spec fn trail(s: Seq<char>) -> nat
    decreases s.len(),
{
    if s.len() == 0 || !is_white(s.last()) {
        0
    } else {
        1 + trail(s.drop_last())
    }
}

/// `s` without white space at its ends.
pub open spec fn trim(s: Seq<char>) -> Seq<char> {
    let t = s.skip(lead(s) as int);
    t.take(t.len() - trail(t))
}

/// Where `c` first occurs in `s`; the length of `s` when it does not.
pub open spec fn first(s: Seq<char>, c: char) -> nat
    decreases s.len(),
{
    if s.len() == 0 || s[0] == c {
        0
    } else {
        1 + first(s.skip(1), c)
    }
}

/// The parts of `s` between the occurrences of `c`; one more than those.
pub open spec fn split(s: Seq<char>, c: char) -> Seq<Seq<char>>
    decreases s.len(),
{
    let i = first(s, c) as int;
    if i >= s.len() {
        seq![s]
    } else {
        seq![s.take(i)] + split(s.skip(i + 1), c)
    }
}

/// The lines of a text, each with the line feed that ends it. Only the last
/// may lack one.
pub open spec fn raw_lines(t: Seq<char>) -> Seq<Seq<char>>
    decreases t.len(),
{
    let i = first(t, '\n') as int;
    if t.len() == 0 {
        Seq::empty()
    } else if i >= t.len() {
        seq![t]
    } else {
        seq![t.take(i + 1)] + raw_lines(t.skip(i + 1))
    }
}

/// A line without its line ending, a line feed or a carriage return with one.
pub open spec fn without_ending(raw: Seq<char>) -> Seq<char> {
    if raw.len() == 0 || raw.last() != '\n' {
        raw
    } else {
        let l = raw.drop_last();
        if l.len() == 0 || l.last() != '\r' {
            l
        } else {
            l.drop_last()
        }
    }
}

/// The decimal digits of `n`.
pub open spec fn decimal(n: nat) -> Seq<char>
    decreases n,
{
    let digit = ('0' as nat + n % 10) as char;
    if n < 10 {
        seq![digit]
    } else {
        decimal(n / 10).push(digit)
    }
}

/// The number that a run of decimal digits stands for.
pub open spec fn digits_value(s: Seq<char>) -> nat
    decreases s.len(),
{
    if s.len() == 0 {
        0
    } else {
        10 * digits_value(s.drop_last()) + (s.last() as nat - '0' as nat) as nat
    }
}

pub open spec fn all_digits(s: Seq<char>) -> bool {
    forall|i: int| 0 <= i < s.len() ==> '0' <= #[trigger] s[i] <= '9'
}

/// A number as texts write it: digits, with a plus sign before them or not.
pub open spec fn unsigned(s: Seq<char>) -> Option<nat> {
    let d = if s.len() > 0 && s[0] == '+' {
        s.skip(1)
    } else {
        s
    };
    if d.len() == 0 || !all_digits(d) {
        None
    } else {
        Some(digits_value(d))
    }
}

/// `String::push` adds one character at the end.
pub assume_specification[ String::push ](s: &mut String, c: char)
    ensures
        final(s)@ == old(s)@.push(c),
;

pub proof fn lemma_lead_bound(s: Seq<char>)
    ensures
        lead(s) <= s.len(),
        forall|i: int| 0 <= i < lead(s) ==> is_white(#[trigger] s[i]),
        lead(s) < s.len() ==> !is_white(s[lead(s) as int]),
    decreases s.len(),
{
    if s.len() > 0 && is_white(s[0]) {
        let r = s.skip(1);
        lemma_lead_bound(r);
        assert forall|i: int| 0 <= i < lead(s) implies is_white(#[trigger] s[i]) by {
            if i > 0 {
                assert(r[i - 1] == s[i]);
            }
        }
        if lead(s) < s.len() {
            assert(r[lead(r) as int] == s[lead(s) as int]);
        }
    }
}

pub proof fn lemma_trail_bound(s: Seq<char>)
    ensures
        trail(s) <= s.len(),
        forall|i: int| s.len() - trail(s) <= i < s.len() ==> is_white(#[trigger] s[i]),
        trail(s) < s.len() ==> !is_white(s[s.len() - trail(s) - 1]),
    decreases s.len(),
{
    if s.len() > 0 && is_white(s.last()) {
        let r = s.drop_last();
        lemma_trail_bound(r);
        assert forall|i: int| s.len() - trail(s) <= i < s.len() implies is_white(
            #[trigger] s[i],
        ) by {
            if i < s.len() - 1 {
                assert(r[i] == s[i]);
            }
        }
        if trail(s) < s.len() {
            assert(r[r.len() - trail(r) - 1] == s[s.len() - trail(s) - 1]);
        }
    }
}

/// The count of leading white space is settled by where it stops.
pub proof fn lemma_lead_is(s: Seq<char>, n: nat)
    requires
        n <= s.len(),
        forall|i: int| 0 <= i < n ==> is_white(#[trigger] s[i]),
        n < s.len() ==> !is_white(s[n as int]),
    ensures
        lead(s) == n,
{
    lemma_lead_bound(s);
    if lead(s) < n {
        assert(is_white(s[lead(s) as int]));
    } else if n < lead(s) {
        assert(is_white(s[n as int]));
    }
}

pub proof fn lemma_trail_is(s: Seq<char>, n: nat)
    requires
        n <= s.len(),
        forall|i: int| s.len() - n <= i < s.len() ==> is_white(#[trigger] s[i]),
        n < s.len() ==> !is_white(s[s.len() - n - 1]),
    ensures
        trail(s) == n,
{
    lemma_trail_bound(s);
    if trail(s) < n {
        assert(is_white(s[s.len() - trail(s) - 1]));
    } else if n < trail(s) {
        assert(is_white(s[s.len() - n - 1]));
    }
}

pub proof fn lemma_first_bound(s: Seq<char>, c: char)
    ensures
        first(s, c) <= s.len(),
        forall|i: int| 0 <= i < first(s, c) ==> #[trigger] s[i] != c,
        first(s, c) < s.len() ==> s[first(s, c) as int] == c,
    decreases s.len(),
{
    if s.len() > 0 && s[0] != c {
        let r = s.skip(1);
        lemma_first_bound(r, c);
        assert forall|i: int| 0 <= i < first(s, c) implies #[trigger] s[i] != c by {
            if i > 0 {
                assert(r[i - 1] == s[i]);
            }
        }
        if first(s, c) < s.len() {
            assert(r[first(r, c) as int] == s[first(s, c) as int]);
        }
    }
}

/// The first occurrence is settled by having none before it.
pub proof fn lemma_first_is(s: Seq<char>, c: char, n: nat)
    requires
        n <= s.len(),
        forall|i: int| 0 <= i < n ==> #[trigger] s[i] != c,
        n < s.len() ==> s[n as int] == c,
    ensures
        first(s, c) == n,
{
    lemma_first_bound(s, c);
    if first(s, c) < n {
        assert(s[first(s, c) as int] != c);
    } else if n < first(s, c) {
        assert(s[n as int] != c);
    }
}

pub fn white(c: char) -> (r: bool)
    ensures
        r == is_white(c),
{
    ('\t' <= c && c <= '\r') || c == ' ' || c == '\u{85}' || c == '\u{a0}' || c == '\u{1680}' || (
    '\u{2000}' <= c && c <= '\u{200a}') || c == '\u{2028}' || c == '\u{2029}' || c == '\u{202f}'
        || c == '\u{205f}' || c == '\u{3000}'
}

/// The characters of a text.
pub fn chars_of(s: &str) -> (r: Vec<char>)
    ensures
        r@ == s@,
{
    let mut r: Vec<char> = Vec::new();
    for c in it: s.chars()
        invariant
            r@ == it.seq().take(it.index()),
            it.seq() == s@,
    {
        r.push(c);
        assert(it.seq().take(it.index() + 1) =~= it.seq().take(it.index()).push(c));
    }
    assert(s@.take(s@.len() as int) =~= s@);
    r
}

/// The text of some characters.
pub fn string_of(cs: &[char]) -> (r: String)
    ensures
        r@ == cs@,
{
    let mut r: String = String::new();
    push_chars(&mut r, cs);
    assert(r@ =~= cs@);
    r
}

pub fn push_chars(out: &mut String, cs: &[char])
    ensures
        final(out)@ == old(out)@ + cs@,
{
    let mut i: usize = 0;
    while i < cs.len()
        invariant
            i <= cs.len(),
            out@ == old(out)@ + cs@.take(i as int),
        decreases cs.len() - i,
    {
        out.push(cs[i]);
        assert(cs@.take(i + 1) =~= cs@.take(i as int).push(cs@[i as int]));
        i += 1;
    }
    assert(cs@.take(i as int) =~= cs@);
}

/// Whether two texts are the same.
pub fn same(a: &str, b: &str) -> (r: bool)
    ensures
        r == (a@ == b@),
{
    let x: Vec<char> = chars_of(a);
    let y: Vec<char> = chars_of(b);
    if x.len() != y.len() {
        return false;
    }
    let mut i: usize = 0;
    while i < x.len()
        invariant
            i <= x.len(),
            x@.len() == y@.len(),
            x@ == a@,
            y@ == b@,
            forall|j: int| 0 <= j < i ==> x@[j] == y@[j],
        decreases x.len() - i,
    {
        if x[i] != y[i] {
            return false;
        }
        i += 1;
    }
    assert(x@ =~= y@);
    true
}

pub fn lead_of(s: &[char]) -> (r: usize)
    ensures
        r == lead(s@),
        r <= s@.len(),
{
    let mut i: usize = 0;
    while i < s.len() && white(s[i])
        invariant
            i <= s.len(),
            forall|j: int| 0 <= j < i ==> is_white(#[trigger] s@[j]),
        decreases s.len() - i,
    {
        i += 1;
    }
    proof {
        lemma_lead_is(s@, i as nat);
    }
    i
}

pub fn trail_of(s: &[char]) -> (r: usize)
    ensures
        r == trail(s@),
        r <= s@.len(),
{
    let mut n: usize = 0;
    while n < s.len() && white(s[s.len() - 1 - n])
        invariant
            n <= s.len(),
            forall|j: int| s@.len() - n <= j < s@.len() ==> is_white(#[trigger] s@[j]),
        decreases s.len() - n,
    {
        n += 1;
    }
    proof {
        lemma_trail_is(s@, n as nat);
    }
    n
}

pub fn first_of(s: &[char], c: char) -> (r: usize)
    ensures
        r == first(s@, c),
        r <= s@.len(),
{
    let mut i: usize = 0;
    while i < s.len() && s[i] != c
        invariant
            i <= s.len(),
            forall|j: int| 0 <= j < i ==> #[trigger] s@[j] != c,
        decreases s.len() - i,
    {
        i += 1;
    }
    proof {
        lemma_first_is(s@, c, i as nat);
    }
    i
}

/// A text without white space at its ends.
pub fn trimmed(s: &str) -> (r: &str)
    ensures
        r@ == trim(s@),
{
    let cs: Vec<char> = chars_of(s);
    let from: usize = lead_of(cs.as_slice());
    let rest: &[char] = vstd::slice::slice_subrange(cs.as_slice(), from, cs.len());
    let to: usize = cs.len() - trail_of(rest);
    assert(rest@ =~= s@.skip(from as int));
    let r: &str = s.substring_char(from, to);
    assert(r@ =~= trim(s@));
    r
}

/// Adds the decimal digits of `n`.
pub fn push_decimal(out: &mut String, n: u64)
    ensures
        final(out)@ == old(out)@ + decimal(n as nat),
    decreases n,
{
    if n >= 10 {
        push_decimal(out, n / 10);
    }
    let d: u8 = (n % 10) as u8;
    let c: char = (48u8 + d) as char;
    out.push(c);
    assert(out@ =~= old(out)@ + decimal(n as nat));
}

/// The number a text writes, when it fits in 32 bits.
pub fn parse_u32(s: &str) -> (r: Option<u32>)
    ensures
        r == match unsigned(s@) {
            Some(n) => if n <= u32::MAX {
                Some(n as u32)
            } else {
                None
            },
            None => None,
        },
{
    let cs: Vec<char> = chars_of(s);
    let from: usize = if cs.len() > 0 && cs[0] == '+' {
        1
    } else {
        0
    };
    if from == cs.len() {
        return None;
    }
    let ghost d = cs@.skip(from as int);
    assert(from == 0 ==> d =~= s@);
    let mut i: usize = from;
    let mut n: u64 = 0;
    let mut fits: bool = true;
    while i < cs.len()
        invariant
            from <= i <= cs.len(),
            d == cs@.skip(from as int),
            all_digits(d.take(i - from)),
            fits ==> n == digits_value(d.take(i - from)) && n <= u32::MAX,
            !fits ==> digits_value(d.take(i - from)) > u32::MAX,
            s@ == cs@,
            d == if s@.len() > 0 && s@[0] == '+' {
                s@.skip(1)
            } else {
                s@
            },
            d.len() > 0,
        decreases cs.len() - i,
    {
        let c: char = cs[i];
        let ghost next = d.take(i - from + 1);
        assert(next.drop_last() =~= d.take(i - from));
        assert(next.last() == c);
        if c < '0' || '9' < c {
            assert(d[i - from] == c);
            return None;
        }
        assert(all_digits(next));
        if fits {
            n = n * 10 + (c as u64 - 48);
            if n > 0xffff_ffff {
                fits = false;
            }
        }
        i += 1;
    }
    assert(d.take(d.len() as int) =~= d);
    if fits {
        Some(n as u32)
    } else {
        None
    }
}

/// A text trims to the part whose ends are not white space and around which
/// nothing else stands.
pub proof fn lemma_trim_is(s: Seq<char>, a: int, b: int)
    requires
        0 <= a <= b <= s.len(),
        forall|i: int| 0 <= i < a ==> is_white(#[trigger] s[i]),
        forall|i: int| b <= i < s.len() ==> is_white(#[trigger] s[i]),
        a < b ==> !is_white(s[a]) && !is_white(s[b - 1]),
    ensures
        trim(s) == s.subrange(a, b),
{
    if a < b {
        lemma_lead_is(s, a as nat);
        let t = s.skip(a);
        assert forall|i: int| b - a <= i < t.len() implies is_white(#[trigger] t[i]) by {
            assert(t[i] == s[a + i]);
        }
        assert(t[b - a - 1] == s[b - 1]);
        lemma_trail_is(t, (s.len() - b) as nat);
        assert(trim(s) =~= s.subrange(a, b));
    } else {
        lemma_lead_is(s, s.len());
        assert(s.skip(s.len() as int) =~= Seq::empty());
        assert(trim(s) =~= s.subrange(a, b));
    }
}

/// Where the trimmed part of a text stands in it.
pub open spec fn trim_from(s: Seq<char>) -> int {
    lead(s) as int
}

pub open spec fn trim_to(s: Seq<char>) -> int {
    s.len() - trail(s.skip(lead(s) as int))
}

/// What is known of the trimmed part of a text.
pub proof fn lemma_trim_bound(s: Seq<char>)
    ensures
        0 <= trim_from(s) <= trim_to(s) <= s.len(),
        trim(s) == s.subrange(trim_from(s), trim_to(s)),
        forall|i: int| 0 <= i < trim_from(s) ==> is_white(#[trigger] s[i]),
        forall|i: int| trim_to(s) <= i < s.len() ==> is_white(#[trigger] s[i]),
        trim_from(s) < trim_to(s) ==> !is_white(s[trim_from(s)]) && !is_white(s[trim_to(s) - 1]),
{
    lemma_lead_bound(s);
    let t = s.skip(lead(s) as int);
    lemma_trail_bound(t);
    assert forall|i: int| trim_to(s) <= i < s.len() implies is_white(#[trigger] s[i]) by {
        assert(t[i - lead(s)] == s[i]);
    }
    if trim_from(s) < trim_to(s) {
        assert(t[t.len() - trail(t) - 1] == s[trim_to(s) - 1]);
    }
    assert(trim(s) =~= s.subrange(trim_from(s), trim_to(s)));
}

/// White space around a text does not matter to its trimmed part.
pub proof fn lemma_trim_of_padded(before: Seq<char>, s: Seq<char>, after: Seq<char>)
    requires
        forall|i: int| 0 <= i < before.len() ==> is_white(#[trigger] before[i]),
        forall|i: int| 0 <= i < after.len() ==> is_white(#[trigger] after[i]),
    ensures
        trim(before + s + after) == trim(s),
{
    lemma_trim_bound(s);
    let w = before + s + after;
    let (a, b) = (trim_from(s), trim_to(s));
    assert forall|i: int| 0 <= i < before.len() + a implies is_white(#[trigger] w[i]) by {
        if i >= before.len() {
            assert(w[i] == s[i - before.len()]);
        } else {
            assert(w[i] == before[i]);
        }
    }
    assert forall|i: int| before.len() + b <= i < w.len() implies is_white(#[trigger] w[i]) by {
        if i < before.len() + s.len() {
            assert(w[i] == s[i - before.len()]);
        } else {
            assert(w[i] == after[i - before.len() - s.len()]);
        }
    }
    if a < b {
        assert(w[before.len() + a] == s[a]);
        assert(w[before.len() + b - 1] == s[b - 1]);
    }
    lemma_trim_is(w, before.len() + a, before.len() + b);
    assert(w.subrange(before.len() + a, before.len() + b) =~= s.subrange(a, b));
}

/// Trimming a text that is trimmed changes nothing.
pub proof fn lemma_trim_of_trimmed(s: Seq<char>)
    requires
        s.len() > 0 ==> !is_white(s[0]) && !is_white(s.last()),
    ensures
        trim(s) == s,
{
    lemma_trim_is(s, 0, s.len() as int);
    assert(s.subrange(0, s.len() as int) =~= s);
}

/// Lines put together again.
pub open spec fn joined(ls: Seq<Seq<char>>) -> Seq<char>
    decreases ls.len(),
{
    if ls.len() == 0 {
        Seq::empty()
    } else {
        joined(ls.drop_last()) + ls.last()
    }
}

/// A line feed stands in `l` at its end or nowhere, and something stands there.
pub open spec fn one_line(l: Seq<char>) -> bool {
    l.len() > 0 && forall|i: int| 0 <= i < l.len() - 1 ==> #[trigger] l[i] != '\n'
}

/// Sequences that are lines: each is one line and only the last may be open.
pub open spec fn are_lines(ls: Seq<Seq<char>>) -> bool {
    forall|i: int|
        0 <= i < ls.len() ==> one_line(#[trigger] ls[i]) && (i < ls.len() - 1 ==> ls[i].last()
            == '\n')
}

proof fn lemma_joined_push_front(l: Seq<char>, ls: Seq<Seq<char>>)
    ensures
        joined(seq![l] + ls) == l + joined(ls),
    decreases ls.len(),
{
    let all = seq![l] + ls;
    if ls.len() == 0 {
        reveal_with_fuel(joined, 2);
        assert(all.drop_last() =~= Seq::empty());
        assert(joined(all) =~= l + joined(ls));
    } else {
        assert(all.drop_last() =~= seq![l] + ls.drop_last());
        assert(all.last() == ls.last());
        lemma_joined_push_front(l, ls.drop_last());
        assert(joined(all) =~= l + joined(ls));
    }
}

/// Taking a text apart into lines and putting them together gives the text.
pub proof fn law_lines_make_the_text(t: Seq<char>)
    ensures
        joined(raw_lines(t)) == t,
        are_lines(raw_lines(t)),
    decreases t.len(),
{
    lemma_first_bound(t, '\n');
    let i = first(t, '\n') as int;
    if t.len() == 0 {
        assert(joined(raw_lines(t)) =~= t);
    } else if i >= t.len() {
        let ls = seq![t];
        reveal_with_fuel(joined, 2);
        assert(ls.drop_last() =~= Seq::empty());
        assert(joined(ls) =~= t);
        assert(one_line(t));
    } else {
        let l = t.take(i + 1);
        let rest = raw_lines(t.skip(i + 1));
        law_lines_make_the_text(t.skip(i + 1));
        lemma_joined_push_front(l, rest);
        assert(l + t.skip(i + 1) =~= t);
        let ls = seq![l] + rest;
        assert(one_line(l)) by {
            assert forall|k: int| 0 <= k < l.len() - 1 implies #[trigger] l[k] != '\n' by {
                assert(l[k] == t[k]);
            }
        }
        assert forall|k: int| 0 <= k < ls.len() implies one_line(#[trigger] ls[k]) && (k < ls.len()
            - 1 ==> ls[k].last() == '\n') by {
            if k > 0 {
                assert(ls[k] == rest[k - 1]);
            }
        }
    }
}

/// The text of some lines has those lines.
pub proof fn law_text_of_lines_has_them(ls: Seq<Seq<char>>)
    requires
        are_lines(ls),
    ensures
        raw_lines(joined(ls)) == ls,
    decreases ls.len(),
{
    if ls.len() == 0 {
        assert(raw_lines(joined(ls)) =~= ls);
    } else {
        let l = ls[0];
        let rest = ls.skip(1);
        assert(ls =~= seq![l] + rest);
        assert forall|k: int| 0 <= k < rest.len() implies one_line(#[trigger] rest[k]) && (k
            < rest.len() - 1 ==> rest[k].last() == '\n') by {
            assert(rest[k] == ls[k + 1]);
        }
        law_text_of_lines_has_them(rest);
        lemma_joined_push_front(l, rest);
        let t = joined(ls);
        assert(one_line(ls[0]));
        if rest.len() == 0 {
            assert(joined(rest) =~= Seq::empty());
            assert(t =~= l);
            if l.last() == '\n' {
                lemma_first_is(t, '\n', (l.len() - 1) as nat);
                assert(t.take(l.len() as int) =~= l);
                assert(t.skip(l.len() as int) =~= Seq::empty());
                assert(raw_lines(t) =~= ls);
            } else {
                assert forall|i: int| 0 <= i < t.len() implies #[trigger] t[i] != '\n' by {
                    if i == t.len() - 1 {
                        assert(t[i] == l.last());
                    }
                }
                lemma_first_is(t, '\n', t.len());
                assert(raw_lines(t) =~= ls);
            }
        } else {
            assert forall|i: int| 0 <= i < l.len() - 1 implies #[trigger] t[i] != '\n' by {
                assert(t[i] == l[i]);
            }
            assert(t[l.len() - 1] == l.last());
            lemma_first_is(t, '\n', (l.len() - 1) as nat);
            assert(t.take(l.len() as int) =~= l);
            assert(t.skip(l.len() as int) =~= joined(rest));
            assert(raw_lines(t) =~= ls);
        }
    }
}

/// No line feed stands among the first `n` characters.
pub open spec fn no_feed(s: Seq<char>, n: nat) -> bool
    decreases n,
{
    n == 0 || s[n - 1] != '\n' && no_feed(s, (n - 1) as nat)
}

pub proof fn lemma_no_feed(s: Seq<char>, n: nat)
    requires
        no_feed(s, n),
    ensures
        forall|i: int| 0 <= i < n ==> #[trigger] s[i] != '\n',
    decreases n,
{
    if n > 0 {
        lemma_no_feed(s, (n - 1) as nat);
    }
}

/// A text with one line feed, at its end, is a line.
pub proof fn lemma_is_line(s: Seq<char>)
    requires
        s.len() > 0,
        no_feed(s, (s.len() - 1) as nat),
    ensures
        one_line(s),
{
    lemma_no_feed(s, (s.len() - 1) as nat);
}

/// Lines behind lines.
pub proof fn lemma_joined_add(a: Seq<Seq<char>>, b: Seq<Seq<char>>)
    ensures
        joined(a + b) == joined(a) + joined(b),
    decreases b.len(),
{
    if b.len() == 0 {
        assert(a + b =~= a);
        assert(joined(a) + joined(b) =~= joined(a));
    } else {
        assert((a + b).drop_last() =~= a + b.drop_last());
        lemma_joined_add(a, b.drop_last());
        assert(joined(a + b) =~= joined(a) + joined(b));
    }
}

/// White space is what separates words: spaces, tabs and line endings, and none
/// of the signs, digits and letters of ASCII.
pub proof fn law_signs_are_no_white_space(c: char)
    ensures
        c == ' ' || c == '\t' || c == '\n' || c == '\r' ==> is_white(c),
        '!' <= c <= '~' ==> !is_white(c),
        is_white(c) && (c as u32) < 128 ==> c == ' ' || 9 <= c as u32 <= 13,
        9 <= c as u32 <= 13 ==> is_white(c),
        c as u32 >= 128 ==> (is_white(c) <==> c as u32 == 0x85 || c as u32 == 0xa0 || c as u32
            == 0x1680 || 0x2000 <= c as u32 <= 0x200a || c as u32 == 0x2028 || c as u32 == 0x2029
            || c as u32 == 0x202f || c as u32 == 0x205f || c as u32 == 0x3000),
{
}

/// Trimming takes away all white space at both ends, and nothing else.
pub proof fn law_trimming_takes_the_ends(before: Seq<char>, s: Seq<char>, after: Seq<char>)
    requires
        forall|i: int| 0 <= i < before.len() ==> is_white(#[trigger] before[i]),
        forall|i: int| 0 <= i < after.len() ==> is_white(#[trigger] after[i]),
        s.len() > 0 ==> !is_white(s[0]) && !is_white(s.last()),
    ensures
        trim(before + s + after) == s,
{
    lemma_trim_of_padded(before, s, after);
    lemma_trim_of_trimmed(s);
}

/// Parts with a sign between each two.
pub open spec fn with_between(parts: Seq<Seq<char>>, c: char) -> Seq<char>
    decreases parts.len(),
{
    if parts.len() == 0 {
        Seq::empty()
    } else if parts.len() == 1 {
        parts[0]
    } else {
        parts[0] + seq![c] + with_between(parts.skip(1), c)
    }
}

/// Splitting a text at a sign loses nothing: the parts do not have the sign, and
/// with it between them they are the text.
pub proof fn law_parts_make_the_text(s: Seq<char>, c: char)
    ensures
        split(s, c).len() >= 1,
        with_between(split(s, c), c) == s,
        forall|i: int| 0 <= i < split(s, c).len() ==> !(#[trigger] split(s, c)[i]).contains(c),
    decreases s.len(),
{
    lemma_first_bound(s, c);
    let i = first(s, c) as int;
    let parts = split(s, c);
    if i >= s.len() {
        assert(!s.contains(c));
    } else {
        let rest = split(s.skip(i + 1), c);
        law_parts_make_the_text(s.skip(i + 1), c);
        assert(parts.skip(1) =~= rest);
        assert(s =~= s.take(i) + seq![c] + s.skip(i + 1));
        assert(!s.take(i).contains(c)) by {
            if s.take(i).contains(c) {
                let k = choose|k: int| 0 <= k < i && s.take(i)[k] == c;
                assert(s[k] == c);
            }
        }
        assert forall|k: int| 0 <= k < parts.len() implies !(#[trigger] parts[k]).contains(c) by {
            if k > 0 {
                assert(parts[k] == rest[k - 1]);
            }
        }
    }
}

/// A line loses the line feed that ends it, with the carriage return before it
/// if there is one, and nothing else.
pub proof fn law_lines_lose_their_ending(l: Seq<char>)
    ensures
        without_ending(l + seq!['\r', '\n']) == l,
        l.len() == 0 || l.last() != '\r' ==> without_ending(l + seq!['\n']) == l,
        l.len() == 0 || l.last() != '\n' ==> without_ending(l) == l,
{
    let long = l + seq!['\r', '\n'];
    assert(long.drop_last() =~= l.push('\r'));
    assert(l.push('\r').drop_last() =~= l);
    assert((l + seq!['\n']).drop_last() =~= l);
}

/// A number is written with one digit more for every factor of ten, the last
/// digit being what is left over, and zero is the one number that starts with a
/// zero.
pub proof fn law_digits_are_decimal(n: nat, d: nat)
    requires
        d < 10,
    ensures
        decimal(d) == seq![(48 + d) as char],
        n > 0 ==> decimal(10 * n + d) == decimal(n).push((48 + d) as char),
        n > 0 ==> decimal(n)[0] != '0',
        all_digits(decimal(n)),
        decimal(n).len() > 0,
    decreases n,
{
    assert((10 * n + d) / 10 == n && (10 * n + d) % 10 == d);
    if n >= 10 {
        law_digits_are_decimal(n / 10, d);
    }
}

/// What is written of a number reads as the number, with a plus sign or without.
pub proof fn law_numbers_are_read_back(n: nat)
    ensures
        unsigned(decimal(n)) == Some(n),
        unsigned(seq!['+'] + decimal(n)) == Some(n),
    decreases n,
{
    law_digits_are_decimal(n, 0);
    lemma_value_of_decimal(n);
    let d = decimal(n);
    assert('0' <= d[0] <= '9');
    assert((seq!['+'] + d).skip(1) =~= d);
}

proof fn lemma_value_of_decimal(n: nat)
    ensures
        digits_value(decimal(n)) == n,
    decreases n,
{
    reveal_with_fuel(digits_value, 2);
    if n >= 10 {
        lemma_value_of_decimal(n / 10);
        assert(decimal(n).drop_last() =~= decimal(n / 10));
    } else {
        assert(decimal(n).drop_last() =~= Seq::empty());
    }
}

/// Nothing but digits, with or without a plus sign before them, is a number.
pub proof fn law_only_digits_are_numbers(s: Seq<char>, i: int)
    requires
        0 <= i < s.len(),
        !('0' <= s[i] <= '9'),
    ensures
        i > 0 || s[0] != '+' ==> unsigned(s) is None,
        s.len() == 1 ==> unsigned(s) is None,
{
    if s[0] == '+' {
        if i > 0 {
            assert(s.skip(1)[i - 1] == s[i]);
        }
    }
}

} // verus!
