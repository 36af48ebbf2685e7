//! Player-editable config files: a flat `key = value` subset of TOML.
//!
//! Values are scalars or arrays of strings. A bad line is a warning and leaves
//! its key alone, never an error.
use vstd::prelude::*;
use vstd::string::*;

use crate::text;

verus! {

/// Whether an odd number of quotes stands before place `i`.
pub open spec fn in_quotes(l: Seq<char>, i: int) -> bool
    decreases i,
{
    if i <= 0 {
        false
    } else {
        in_quotes(l, i - 1) != (l[i - 1] == '"')
    }
}

/// A `#` outside quotes stands at `i`.
pub open spec fn comment_here(l: Seq<char>, i: int) -> bool {
    l[i] == '#' && !in_quotes(l, i)
}

/// The first place from `i` on where a comment starts, or the line's end.
pub open spec fn comment_from(l: Seq<char>, i: int) -> int
    decreases l.len() - i,
{
    if i >= l.len() {
        l.len() as int
    } else if comment_here(l, i) {
        i
    } else {
        comment_from(l, i + 1)
    }
}

/// Where the comment of a line starts, or the line's end.
pub open spec fn comment_at(l: Seq<char>) -> int {
    comment_from(l, 0)
}

/// The part of a line before its comment, without white space around it.
pub open spec fn code_of(l: Seq<char>) -> Seq<char> {
    text::trim(l.take(comment_at(l)))
}

/// What a line says.
#[verifier::ext_equal]
pub enum Item {
    Blank,
    Table,
    Junk,
    Pair(Seq<char>, Seq<char>),
}

/// What the code part of a line says.
pub open spec fn item_of(c: Seq<char>) -> Item {
    let eq = text::first(c, '=') as int;
    if c.len() == 0 {
        Item::Blank
    } else if c[0] == '[' {
        Item::Table
    } else if eq >= c.len() {
        Item::Junk
    } else {
        Item::Pair(text::trim(c.take(eq)), text::trim(c.skip(eq + 1)))
    }
}

/// The lines of a text, without their endings.
pub open spec fn lines_of(t: Seq<char>) -> Seq<Seq<char>> {
    let raw = text::raw_lines(t);
    Seq::new(raw.len(), |i: int| text::without_ending(raw[i]))
}

/// A `key = value` line, by its number in the file.
#[verifier::ext_equal]
pub struct EntryModel {
    pub line: nat,
    pub key: Seq<char>,
    pub value: Seq<char>,
}

/// The `key = value` lines among `ls`, in order.
pub open spec fn entries_of(ls: Seq<Seq<char>>) -> Seq<EntryModel>
    decreases ls.len(),
{
    if ls.len() == 0 {
        Seq::empty()
    } else {
        let before = entries_of(ls.drop_last());
        match item_of(code_of(ls.last())) {
            Item::Pair(key, value) => before.push(EntryModel { line: ls.len(), key, value }),
            _ => before,
        }
    }
}

/// The text of a warning about a line.
pub open spec fn warning_text(line: nat, msg: Seq<char>) -> Seq<char> {
    "line "@ + text::decimal(line) + ": "@ + msg + "; ignored"@
}

pub open spec fn table_text(c: Seq<char>) -> Seq<char> {
    "tables are not supported (`"@ + c + "`)"@
}

pub open spec fn junk_text(c: Seq<char>) -> Seq<char> {
    "expected `key = value`, got `"@ + c + "`"@
}

/// The warnings about lines that are neither blank nor `key = value`.
pub open spec fn complaints_of(ls: Seq<Seq<char>>) -> Seq<Seq<char>>
    decreases ls.len(),
{
    if ls.len() == 0 {
        Seq::empty()
    } else {
        let before = complaints_of(ls.drop_last());
        let c = code_of(ls.last());
        match item_of(c) {
            Item::Table => before.push(warning_text(ls.len(), table_text(c))),
            Item::Junk => before.push(warning_text(ls.len(), junk_text(c))),
            _ => before,
        }
    }
}

/// What a quoted string holds; nothing when it is not one. There are no
/// escapes.
pub open spec fn quoted(v: Seq<char>) -> Option<Seq<char>> {
    if v.len() >= 2 && v[0] == '"' && v.last() == '"' && !v.subrange(1, v.len() - 1).contains('"')
        && !v.subrange(1, v.len() - 1).contains('\\') {
        Some(v.subrange(1, v.len() - 1))
    } else {
        None
    }
}

/// What each of some items holds; nothing unless each is a quoted string.
pub open spec fn all_quoted(items: Seq<Seq<char>>) -> Option<Seq<Seq<char>>>
    decreases items.len(),
{
    if items.len() == 0 {
        Some(Seq::empty())
    } else {
        match (all_quoted(items.drop_last()), quoted(text::trim(items.last()))) {
            (Some(init), Some(s)) => Some(init.push(s)),
            _ => None,
        }
    }
}

/// What stands between the brackets of a list, without a last comma.
pub open spec fn list_inside(v: Seq<char>) -> Seq<char> {
    let inner = text::trim(v.subrange(1, v.len() - 1));
    if inner.len() > 0 && inner.last() == ',' {
        inner.drop_last()
    } else {
        inner
    }
}

/// The strings of a list, or the one of a lone quoted string.
pub open spec fn list_of(v: Seq<char>) -> Option<Seq<Seq<char>>> {
    if v.len() >= 2 && v[0] == '[' && v.last() == ']' {
        if text::trim(list_inside(v)).len() == 0 {
            Some(Seq::empty())
        } else {
            all_quoted(text::split(list_inside(v), ','))
        }
    } else {
        match quoted(v) {
            Some(s) => Some(seq![s]),
            None => None,
        }
    }
}

/// One `key = value` line.
pub struct Entry<'a> {
    /// Counted from 1.
    pub line: usize,
    pub key: &'a str,
    pub value: &'a str,
}

impl<'a> View for Entry<'a> {
    type V = EntryModel;

    open spec fn view(&self) -> EntryModel {
        EntryModel { line: self.line as nat, key: self.key@, value: self.value@ }
    }
}

pub open spec fn entry_views(v: Seq<Entry>) -> Seq<EntryModel> {
    Seq::new(v.len(), |i: int| v[i]@)
}

pub open spec fn str_views(v: Seq<&str>) -> Seq<Seq<char>> {
    Seq::new(v.len(), |i: int| v[i]@)
}

pub open spec fn string_views(v: Seq<String>) -> Seq<Seq<char>> {
    Seq::new(v.len(), |i: int| v[i]@)
}

proof fn lemma_comment_from(l: Seq<char>, i: int)
    requires
        0 <= i <= l.len(),
    ensures
        i <= comment_from(l, i) <= l.len(),
        forall|j: int| i <= j < comment_from(l, i) ==> !#[trigger] comment_here(l, j),
        comment_from(l, i) < l.len() ==> comment_here(l, comment_from(l, i)),
    decreases l.len() - i,
{
    if i < l.len() && !comment_here(l, i) {
        lemma_comment_from(l, i + 1);
    }
}

/// What is known of where a comment starts.
pub proof fn lemma_comment_at(l: Seq<char>)
    ensures
        0 <= comment_at(l) <= l.len(),
        forall|j: int| 0 <= j < comment_at(l) ==> !#[trigger] comment_here(l, j),
        comment_at(l) < l.len() ==> comment_here(l, comment_at(l)),
{
    lemma_comment_from(l, 0);
}

/// Where a comment starts is settled by there being none before.
pub proof fn lemma_comment_is(l: Seq<char>, n: int)
    requires
        0 <= n <= l.len(),
        forall|j: int| 0 <= j < n ==> !#[trigger] comment_here(l, j),
        n < l.len() ==> comment_here(l, n),
    ensures
        comment_at(l) == n,
{
    lemma_comment_at(l);
    if comment_at(l) < n {
        assert(!comment_here(l, comment_at(l)));
    } else if n < comment_at(l) {
        assert(!comment_here(l, n));
    }
}

/// The place, in characters, where the comment of a line starts.
pub fn comment_place(l: &[char]) -> (r: usize)
    ensures
        r == comment_at(l@),
        r <= l@.len(),
{
    let mut quoted: bool = false;
    let mut i: usize = 0;
    while i < l.len()
        invariant
            i <= l.len(),
            quoted == in_quotes(l@, i as int),
            forall|j: int| 0 <= j < i ==> !#[trigger] comment_here(l@, j),
        decreases l.len() - i,
    {
        let c: char = l[i];
        if c == '#' && !quoted {
            proof {
                lemma_comment_is(l@, i as int);
            }
            return i;
        }
        if c == '"' {
            quoted = !quoted;
        }
        i += 1;
    }
    proof {
        lemma_comment_is(l@, i as int);
    }
    i
}

/// The `key = value` part of a line: comment stripped, trimmed.
pub fn code(line: &str) -> (r: &str)
    ensures
        r@ == code_of(line@),
{
    let cs: Vec<char> = text::chars_of(line);
    let end: usize = comment_place(cs.as_slice());
    let before: &str = line.substring_char(0, end);
    assert(before@ =~= line@.take(end as int));
    text::trimmed(before)
}

/// A warning about a line, in the one format all files use.
pub fn warning(line: usize, msg: &str) -> (r: String)
    ensures
        r@ == warning_text(line as nat, msg@),
{
    let mut r: String = String::from_str("line ");
    text::push_decimal(&mut r, line as u64);
    r.append(": ");
    r.append(msg);
    r.append("; ignored");
    r
}

/// The lines of a text, with their endings.
pub fn split_lines<'a>(t: &'a str) -> (r: Vec<&'a str>)
    ensures
        str_views(r@) == text::raw_lines(t@),
        r@.len() <= t@.len(),
{
    let cs: Vec<char> = text::chars_of(t);
    let mut r: Vec<&'a str> = Vec::new();
    let mut at: usize = 0;
    assert(t@.skip(0) =~= t@);
    assert(str_views(r@) =~= Seq::empty());
    while at < cs.len()
        invariant
            at <= cs.len(),
            cs@ == t@,
            text::raw_lines(t@) == str_views(r@) + text::raw_lines(t@.skip(at as int)),
            r@.len() <= at,
        decreases cs.len() - at,
    {
        let rest: &[char] = vstd::slice::slice_subrange(cs.as_slice(), at, cs.len());
        assert(rest@ =~= t@.skip(at as int));
        let i: usize = text::first_of(rest, '\n');
        let end: usize = if i < cs.len() - at {
            at + i + 1
        } else {
            cs.len()
        };
        let line: &'a str = t.substring_char(at, end);
        let ghost before = str_views(r@);
        r.push(line);
        proof {
            assert(str_views(r@) =~= before.push(line@));
            assert(line@ =~= rest@.take(end - at));
            assert(t@.skip(end as int) =~= rest@.skip(end - at));
            assert(line@ =~= rest@ || i < rest@.len());
            let tail = text::raw_lines(t@.skip(end as int));
            if i >= rest@.len() {
                assert(tail =~= Seq::empty());
            }
            assert(text::raw_lines(rest@) =~= seq![line@] + tail);
            assert(before + (seq![line@] + tail) =~= before.push(line@) + tail);
        }
        at = end;
    }
    assert(t@.skip(at as int).len() == 0);
    assert(str_views(r@) + text::raw_lines(t@.skip(at as int)) =~= str_views(r@));
    r
}

/// A line without its ending.
pub fn line_body(raw: &str) -> (r: &str)
    ensures
        r@ == text::without_ending(raw@),
{
    let cs: Vec<char> = text::chars_of(raw);
    let n: usize = cs.len();
    let mut end: usize = n;
    if n > 0 && cs[n - 1] == '\n' {
        end = n - 1;
        if end > 0 && cs[end - 1] == '\r' {
            end = end - 1;
        }
    }
    let r: &str = raw.substring_char(0, end);
    assert(r@ =~= text::without_ending(raw@));
    r
}

/// A text with something around it.
pub fn around(before: &str, middle: &str, after: &str) -> (r: String)
    ensures
        r@ == before@ + middle@ + after@,
{
    let mut r: String = String::from_str(before);
    r.append(middle);
    r.append(after);
    r
}

/// Every `key = value` line of `text`, keys and values trimmed and comments
/// dropped, and a warning for each line that is neither that nor blank.
pub fn entries<'a>(text: &'a str) -> (r: (Vec<Entry<'a>>, Vec<String>))
    ensures
        entry_views(r.0@) == entries_of(lines_of(text@)),
        string_views(r.1@) == complaints_of(lines_of(text@)),
{
    let mut out: Vec<Entry<'a>> = Vec::new();
    let mut warnings: Vec<String> = Vec::new();
    let raw: Vec<&'a str> = split_lines(text);
    let ghost ls = lines_of(text@);
    let mut i: usize = 0;
    assert(ls.take(0) =~= Seq::empty());
    assert(entry_views(out@) =~= Seq::empty());
    assert(string_views(warnings@) =~= Seq::empty());
    let total: usize = text::chars_of(text).len();
    while i < raw.len()
        invariant
            i <= raw.len() <= total,
            str_views(raw@) == text::raw_lines(text@),
            ls == lines_of(text@),
            entry_views(out@) == entries_of(ls.take(i as int)),
            string_views(warnings@) == complaints_of(ls.take(i as int)),
        decreases raw.len() - i,
    {
        let ghost out0 = entry_views(out@);
        let ghost warnings0 = string_views(warnings@);
        proof {
            assert(str_views(raw@)[i as int] == raw@[i as int]@);
            assert(ls.take(i + 1).drop_last() =~= ls.take(i as int));
            assert(ls.take(i + 1).last() == text::without_ending(raw@[i as int]@));
        }
        let line: &'a str = code(line_body(raw[i]));
        let cs: Vec<char> = text::chars_of(line);
        let eq: usize = text::first_of(cs.as_slice(), '=');
        if cs.len() == 0 {
        } else if cs[0] == '[' {
            warnings.push(
                warning(i + 1, around("tables are not supported (`", line, "`)").as_str()),
            );
        } else if eq < cs.len() {
            let k: &'a str = line.substring_char(0, eq);
            let v: &'a str = line.substring_char(eq + 1, cs.len());
            proof {
                assert(k@ =~= line@.take(eq as int));
                assert(v@ =~= line@.skip(eq + 1));
            }
            out.push(Entry { line: i + 1, key: text::trimmed(k), value: text::trimmed(v) });
        } else {
            warnings.push(
                warning(i + 1, around("expected `key = value`, got `", line, "`").as_str()),
            );
        }
        proof {
            assert(entry_views(out@) =~= entries_of(ls.take(i + 1)));
            assert(string_views(warnings@) =~= complaints_of(ls.take(i + 1)));
        }
        i += 1;
    }
    assert(ls.take(i as int) =~= ls) by {
        assert(str_views(raw@).len() == raw@.len());
    }
    (out, warnings)
}

/// Byte index where a `#` comment starts outside a quoted string, if any.
pub fn comment_start(line: &str) -> (r: Option<usize>)
    ensures
        r is None <==> comment_at(line@) == line@.len(),
        r matches Some(i) ==> i == vstd::utf8::encode_utf8(line@.take(comment_at(line@))).len(),
{
    let cs: Vec<char> = text::chars_of(line);
    let at: usize = comment_place(cs.as_slice());
    if at == cs.len() {
        return None;
    }
    let before: &str = line.substring_char(0, at);
    assert(before@ =~= line@.take(at as int));
    Some(before.as_bytes().len())
}

fn holds(s: &[char], c: char) -> (r: bool)
    ensures
        r == s@.contains(c),
{
    let i: usize = text::first_of(s, c);
    proof {
        text::lemma_first_bound(s@, c);
        if i < s@.len() {
            assert(s@[i as int] == c);
        }
    }
    i < s.len()
}

/// The contents of a `"quoted"` string.
pub fn string(v: &str) -> (r: Option<&str>)
    ensures
        match r {
            Some(s) => quoted(v@) == Some(s@),
            None => quoted(v@) is None,
        },
{
    let cs: Vec<char> = text::chars_of(v);
    let n: usize = cs.len();
    if n < 2 || cs[0] != '"' || cs[n - 1] != '"' {
        return None;
    }
    let inside: &[char] = vstd::slice::slice_subrange(cs.as_slice(), 1, n - 1);
    if holds(inside, '"') || holds(inside, '\\') {
        return None;
    }
    Some(v.substring_char(1, n - 1))
}

/// The parts of a text between the occurrences of a character.
fn split_text<'a>(s: &'a str, c: char) -> (r: Vec<&'a str>)
    ensures
        str_views(r@) == text::split(s@, c),
{
    let cs: Vec<char> = text::chars_of(s);
    let mut r: Vec<&'a str> = Vec::new();
    let mut at: usize = 0;
    assert(s@.skip(0) =~= s@);
    loop
        invariant
            at <= cs.len(),
            cs@ == s@,
            text::split(s@, c) =~= str_views(r@) + text::split(s@.skip(at as int), c),
        decreases cs.len() - at,
    {
        let rest: &[char] = vstd::slice::slice_subrange(cs.as_slice(), at, cs.len());
        assert(rest@ =~= s@.skip(at as int));
        let i: usize = text::first_of(rest, c);
        let ghost before = str_views(r@);
        if i >= cs.len() - at {
            let last: &'a str = s.substring_char(at, cs.len());
            r.push(last);
            proof {
                assert(last@ =~= rest@);
                assert(str_views(r@) =~= before + seq![last@]);
            }
            return r;
        }
        let part: &'a str = s.substring_char(at, at + i);
        r.push(part);
        proof {
            assert(part@ =~= rest@.take(i as int));
            assert(s@.skip(at + i + 1) =~= rest@.skip(i + 1));
            assert(str_views(r@) =~= before.push(part@));
            let tail = text::split(rest@.skip(i + 1), c);
            assert(before + (seq![part@] + tail) =~= before.push(part@) + tail);
        }
        at = at + i + 1;
    }
}

/// `["a", "b"]`, where a last comma is allowed and `[]` is empty, or a lone
/// `"a"`.
pub fn string_list<'a>(v: &'a str) -> (r: Option<Vec<&'a str>>)
    ensures
        match r {
            Some(l) => list_of(v@) == Some(str_views(l@)),
            None => list_of(v@) is None,
        },
{
    let cs: Vec<char> = text::chars_of(v);
    let n: usize = cs.len();
    if n >= 2 && cs[0] == '[' && cs[n - 1] == ']' {
        let inner: &'a str = text::trimmed(v.substring_char(1, n - 1));
        let ics: Vec<char> = text::chars_of(inner);
        let m: usize = ics.len();
        let inside: &'a str = if m > 0 && ics[m - 1] == ',' {
            inner.substring_char(0, m - 1)
        } else {
            inner
        };
        assert(inside@ =~= list_inside(v@));
        if text::chars_of(text::trimmed(inside)).len() == 0 {
            let none: Vec<&'a str> = Vec::new();
            assert(str_views(none@) =~= Seq::empty());
            return Some(none);
        }
        let items: Vec<&'a str> = split_text(inside, ',');
        let ghost all = str_views(items@);
        let mut out: Vec<&'a str> = Vec::new();
        let mut i: usize = 0;
        assert(all.take(0) =~= Seq::empty());
        assert(str_views(out@) =~= Seq::empty());
        while i < items.len()
            invariant
                i <= items.len(),
                all == str_views(items@),
                all == text::split(list_inside(v@), ','),
                v@.len() >= 2 && v@[0] == '[' && v@.last() == ']',
                text::trim(list_inside(v@)).len() != 0,
                all_quoted(all.take(i as int)) == Some(str_views(out@)),
            decreases items.len() - i,
        {
            let ghost next = all.take(i + 1);
            assert(next.drop_last() =~= all.take(i as int));
            assert(next.last() == items@[i as int]@);
            match string(text::trimmed(items[i])) {
                Some(s) => {
                    let ghost before = str_views(out@);
                    out.push(s);
                    assert(str_views(out@) =~= before.push(s@));
                },
                None => {
                    proof {
                        lemma_not_all_quoted(all, i + 1);
                    }
                    return None;
                },
            }
            i += 1;
        }
        assert(all.take(i as int) =~= all);
        return Some(out);
    }
    match string(v) {
        Some(s) => {
            let mut one: Vec<&'a str> = Vec::new();
            one.push(s);
            assert(str_views(one@) =~= seq![s@]);
            Some(one)
        },
        None => None,
    }
}

proof fn lemma_not_all_quoted(items: Seq<Seq<char>>, n: int)
    requires
        0 <= n <= items.len(),
        all_quoted(items.take(n)) is None,
    ensures
        all_quoted(items) is None,
    decreases items.len() - n,
{
    if n == items.len() {
        assert(items.take(n) =~= items);
    } else {
        assert(items.take(n + 1).drop_last() =~= items.take(n));
        lemma_not_all_quoted(items, n + 1);
    }
}

/// A string in quotes.
pub open spec fn in_marks(x: Seq<char>) -> Seq<char> {
    seq!['"'] + x + seq!['"']
}

/// Strings in quotes, one after the other, with a comma and a space between.
pub open spec fn items_text(items: Seq<Seq<char>>) -> Seq<char>
    decreases items.len(),
{
    if items.len() == 0 {
        Seq::empty()
    } else if items.len() == 1 {
        in_marks(items[0])
    } else {
        items_text(items.drop_last()) + seq![',', ' '] + in_marks(items.last())
    }
}

/// A list of strings as files write it.
pub open spec fn list_text(items: Seq<Seq<char>>) -> Seq<char> {
    seq!['['] + items_text(items) + seq![']']
}

/// A string that can stand in a list: without quotes, backslashes and commas.
pub open spec fn listable(x: Seq<char>) -> bool {
    forall|i: int| 0 <= i < x.len() ==> #[trigger] x[i] != '"' && x[i] != '\\' && x[i] != ','
}

proof fn lemma_in_marks(x: Seq<char>)
    requires
        listable(x),
    ensures
        quoted(in_marks(x)) == Some(x),
        text::trim(in_marks(x)) == in_marks(x),
        text::trim(seq![' '] + in_marks(x)) == in_marks(x),
        forall|i: int| 0 <= i < in_marks(x).len() ==> #[trigger] in_marks(x)[i] != ',',
{
    let q = in_marks(x);
    assert(q.subrange(1, q.len() - 1) =~= x);
    text::lemma_trim_of_trimmed(q);
    text::lemma_trim_of_padded(seq![' '], q, Seq::empty());
    assert(seq![' '] + q + Seq::<char>::empty() =~= seq![' '] + q);
    assert forall|i: int| 0 <= i < q.len() implies #[trigger] q[i] != ',' by {
        if 0 < i < q.len() - 1 {
            assert(q[i] == x[i - 1]);
        }
    }
}

/// A part behind a last separator is the last part.
proof fn lemma_split_push(a: Seq<char>, c: char, b: Seq<char>)
    requires
        forall|i: int| 0 <= i < b.len() ==> #[trigger] b[i] != c,
    ensures
        text::split(a + seq![c] + b, c) == text::split(a, c).push(b),
    decreases a.len(),
{
    let s = a + seq![c] + b;
    text::lemma_first_bound(a, c);
    let i = text::first(a, c) as int;
    assert forall|j: int| 0 <= j < i implies #[trigger] s[j] != c by {
        assert(s[j] == a[j]);
    }
    if i < a.len() {
        assert(s[i] == a[i]);
        text::lemma_first_is(s, c, i as nat);
        let rest = a.skip(i + 1);
        lemma_split_push(rest, c, b);
        assert(s.skip(i + 1) =~= rest + seq![c] + b);
        assert(s.take(i) =~= a.take(i));
        assert(seq![a.take(i)] + text::split(rest, c).push(b) =~= (seq![a.take(i)] + text::split(
            rest,
            c,
        )).push(b));
    } else {
        assert(s[i] == c);
        text::lemma_first_is(s, c, i as nat);
        assert(s.take(i) =~= a);
        assert(s.skip(i + 1) =~= b);
        text::lemma_first_is(b, c, b.len());
        assert(text::split(b, c) =~= seq![b]);
        assert(text::split(a, c) =~= seq![a]);
        assert(text::split(s, c) =~= seq![a].push(b));
    }
}

proof fn lemma_items_text(items: Seq<Seq<char>>)
    requires
        items.len() > 0,
        forall|i: int| 0 <= i < items.len() ==> listable(#[trigger] items[i]),
    ensures
        items_text(items).len() >= 2,
        items_text(items)[0] == '"',
        items_text(items).last() == '"',
        all_quoted(text::split(items_text(items), ',')) == Some(items),
    decreases items.len(),
{
    let last = items.last();
    assert(listable(items[items.len() - 1]));
    lemma_in_marks(last);
    if items.len() == 1 {
        let q = in_marks(last);
        text::lemma_first_is(q, ',', q.len());
        let parts = text::split(q, ',');
        assert(parts =~= seq![q]);
        assert(parts.drop_last() =~= Seq::empty());
        reveal_with_fuel(all_quoted, 2);
        assert(Seq::<Seq<char>>::empty().push(last) =~= items);
    } else {
        let init = items.drop_last();
        assert forall|i: int| 0 <= i < init.len() implies listable(#[trigger] init[i]) by {
            assert(init[i] == items[i]);
        }
        lemma_items_text(init);
        let before = items_text(init);
        let part = seq![' '] + in_marks(last);
        assert forall|i: int| 0 <= i < part.len() implies #[trigger] part[i] != ',' by {
            if i > 0 {
                assert(part[i] == in_marks(last)[i - 1]);
            }
        }
        lemma_split_push(before, ',', part);
        assert(items_text(items) =~= before + seq![','] + part);
        let parts = text::split(before, ',').push(part);
        assert(parts.drop_last() =~= text::split(before, ','));
        assert(parts.last() == part);
        assert(init.push(last) =~= items);
    }
}

/// A list of strings in quotes reads as those strings, in order and with the
/// white space inside the quotes; an empty list reads as no strings, and a lone
/// string in quotes as a list of it.
pub proof fn law_lists_are_read_back(items: Seq<Seq<char>>)
    requires
        forall|i: int| 0 <= i < items.len() ==> listable(#[trigger] items[i]),
    ensures
        list_of(list_text(items)) == Some(items),
        items.len() == 1 ==> list_of(in_marks(items[0])) == Some(items),
{
    let v = list_text(items);
    let body = items_text(items);
    assert(v.subrange(1, v.len() - 1) =~= body);
    if items.len() == 0 {
        text::lemma_trim_of_trimmed(body);
        assert(items =~= Seq::empty());
    } else {
        lemma_items_text(items);
        text::lemma_trim_of_trimmed(body);
    }
    if items.len() == 1 {
        assert(listable(items[0]));
        lemma_in_marks(items[0]);
        assert(seq![items[0]] =~= items);
    }
}

/// Adds lines to a text.
pub fn append_lines(out: &mut String, ls: &Vec<&str>)
    ensures
        final(out)@ == old(out)@ + text::joined(str_views(ls@)),
{
    let ghost views = str_views(ls@);
    assert(views.take(0) =~= Seq::empty());
    assert(out@ =~= old(out)@ + text::joined(views.take(0)));
    let mut i: usize = 0;
    while i < ls.len()
        invariant
            i <= ls.len(),
            views == str_views(ls@),
            out@ == old(out)@ + text::joined(views.take(i as int)),
        decreases ls.len() - i,
    {
        let ghost before = out@;
        out.append(ls[i]);
        proof {
            assert(views.take(i + 1).drop_last() =~= views.take(i as int));
            assert(views.take(i + 1).last() == ls@[i as int]@);
            assert(out@ =~= old(out)@ + text::joined(views.take(i + 1)));
        }
        i += 1;
    }
    assert(views.take(i as int) =~= views);
}

/// A whole line that says nothing.
pub open spec fn is_silent(raw: Seq<char>) -> bool {
    &&& text::one_line(raw)
    &&& raw.last() == '\n'
    &&& item_of(code_of(text::without_ending(raw))) is Blank
}

/// A whole line that says `key = value`.
pub open spec fn says(raw: Seq<char>, key: Seq<char>, value: Seq<char>) -> bool {
    &&& text::one_line(raw)
    &&& raw.last() == '\n'
    &&& item_of(code_of(text::without_ending(raw))) == Item::Pair(key, value)
}

pub open spec fn all_silent(ls: Seq<Seq<char>>) -> bool {
    forall|i: int| 0 <= i < ls.len() ==> is_silent(#[trigger] ls[i])
}

/// Lines without their endings.
pub open spec fn bodies(raw: Seq<Seq<char>>) -> Seq<Seq<char>> {
    Seq::new(raw.len(), |i: int| text::without_ending(raw[i]))
}

/// A line that is a comment and nothing else says nothing.
pub proof fn lemma_comment_line(raw: Seq<char>)
    requires
        raw.len() >= 2,
        raw[0] == '#',
        raw.last() == '\n',
        text::no_feed(raw, (raw.len() - 1) as nat),
    ensures
        is_silent(raw),
{
    let l = text::without_ending(raw);
    text::lemma_is_line(raw);
    if l.len() == 0 {
        assert(raw.drop_last()[0] == '#');
    }
    assert(l[0] == '#');
    assert(comment_here(l, 0));
    lemma_comment_is(l, 0);
    assert(l.take(0) =~= Seq::empty());
    text::lemma_trim_of_trimmed(Seq::empty());
}

/// A line with nothing on it says nothing.
pub proof fn lemma_empty_line()
    ensures
        is_silent("\n"@),
{
    reveal_strlit("\n");
    let l = text::without_ending("\n"@);
    assert(l =~= Seq::empty());
    lemma_comment_is(l, 0);
    assert(l.take(0) =~= Seq::empty());
    text::lemma_trim_of_trimmed(Seq::empty());
}

/// A key that a line can set and a comment or a table cannot be taken for.
pub open spec fn plain_key(k: Seq<char>) -> bool {
    &&& k.len() > 0
    &&& k[0] != '['
    &&& forall|i: int|
        0 <= i < k.len() ==> #[trigger] k[i] != '=' && k[i] != '#' && k[i] != '"' && k[i] != '\n'
            && !text::is_white(k[i])
}

/// A value on one line that does not open a comment or a quote.
pub open spec fn plain_value(v: Seq<char>) -> bool {
    &&& v.len() > 0
    &&& !text::is_white(v[0])
    &&& !text::is_white(v.last())
    &&& forall|i: int| 0 <= i < v.len() ==> #[trigger] v[i] != '#' && v[i] != '\n'
    &&& !in_quotes(v, v.len() as int)
}

/// Quotes before a place depend on what stands before it only.
pub proof fn lemma_in_quotes_prefix(a: Seq<char>, b: Seq<char>, i: int)
    requires
        0 <= i <= a.len(),
        i <= b.len(),
        forall|j: int| 0 <= j < i ==> a[j] == b[j],
    ensures
        in_quotes(a, i) == in_quotes(b, i),
    decreases i,
{
    if i > 0 {
        lemma_in_quotes_prefix(a, b, i - 1);
    }
}

/// Where no quote has stood, places are outside quotes.
pub proof fn lemma_no_quotes(a: Seq<char>, from: int, i: int)
    requires
        0 <= from <= i <= a.len(),
        forall|j: int| from <= j < i ==> a[j] != '"',
    ensures
        in_quotes(a, i) == in_quotes(a, from),
    decreases i - from,
{
    if i > from {
        lemma_no_quotes(a, from, i - 1);
    }
}

/// Inside a part that starts outside quotes, quotes count from its start.
pub proof fn lemma_in_quotes_of_part(a: Seq<char>, from: int, v: Seq<char>, i: int)
    requires
        0 <= from,
        0 <= i <= v.len(),
        from + v.len() <= a.len(),
        forall|j: int| 0 <= j < v.len() ==> a[from + j] == v[j],
        !in_quotes(a, from),
    ensures
        in_quotes(a, from + i) == in_quotes(v, i),
    decreases i,
{
    if i > 0 {
        lemma_in_quotes_of_part(a, from, v, i - 1);
        assert(a[from + (i - 1)] == v[i - 1]);
    }
}

/// A line that sets a key, with what stands behind the value.
pub open spec fn setting_line(key: Seq<char>, value: Seq<char>, rest: Seq<char>) -> Seq<char> {
    key + " = "@ + value + rest + "\n"@
}

/// What stands behind a value is `n` spaces, and then a comment or nothing.
pub open spec fn is_aside(rest: Seq<char>, n: int) -> bool {
    &&& 0 <= n <= rest.len()
    &&& forall|i: int| 0 <= i < n ==> #[trigger] rest[i] == ' '
    &&& n < rest.len() ==> rest[n] == '#'
    &&& forall|i: int| 0 <= i < rest.len() ==> #[trigger] rest[i] != '\n'
    &&& rest.len() > 0 ==> rest.last() != '\r'
}

/// A line that sets a key says so, whatever is noted behind the value.
#[verifier::spinoff_prover]
#[verifier::rlimit(40)]
pub proof fn lemma_setting_line(key: Seq<char>, value: Seq<char>, rest: Seq<char>, n: int)
    requires
        plain_key(key),
        plain_value(value),
        is_aside(rest, n),
    ensures
        says(setting_line(key, value, rest), key, value),
{
    reveal_strlit(" = ");
    reveal_strlit("\n");
    let raw = setting_line(key, value, rest);
    let (k, w) = (key.len() as int, value.len() as int);
    let l = key + " = "@ + value + rest;
    assert(raw.drop_last() =~= l);
    assert(l.last() != '\r') by {
        if rest.len() == 0 {
            assert(l.last() == value.last());
        } else {
            assert(l.last() == rest.last());
        }
    }
    assert(text::without_ending(raw) == l);
    assert forall|i: int| 0 <= i < raw.len() - 1 implies #[trigger] raw[i] != '\n' by {
        if i < k {
            assert(raw[i] == key[i]);
        } else if k + 3 <= i < k + 3 + w {
            assert(raw[i] == value[i - k - 3]);
        } else if i >= k + 3 + w {
            assert(raw[i] == rest[i - k - 3 - w]);
        }
    }
    let c = k + 3 + w + n;
    assert forall|j: int| 0 <= j < k + 3 implies l[j] != '"' && l[j] != '#' by {
        if j < k {
            assert(l[j] == key[j]);
        }
    }
    lemma_no_quotes(l, 0, k + 3);
    assert forall|j: int| 0 <= j < w implies l[k + 3 + j] == value[j] by {}
    lemma_in_quotes_of_part(l, k + 3, value, w);
    assert forall|j: int| k + 3 + w <= j < c implies l[j] == ' ' by {
        assert(l[j] == rest[j - k - 3 - w]);
    }
    lemma_no_quotes(l, k + 3 + w, c);
    assert forall|j: int| 0 <= j < c implies !#[trigger] comment_here(l, j) by {
        if k + 3 <= j < k + 3 + w {
            assert(l[j] == value[j - k - 3]);
        }
    }
    if c < l.len() {
        assert(l[c] == rest[n]);
    }
    lemma_comment_is(l, c);
    let code = key + " = "@ + value;
    let spaces = rest.take(n);
    assert(l.take(c) =~= Seq::<char>::empty() + code + spaces);
    text::lemma_trim_of_padded(Seq::empty(), code, spaces);
    assert(code[0] == key[0]);
    assert(code.last() == value.last());
    text::lemma_trim_of_trimmed(code);
    assert forall|j: int| 0 <= j < k + 1 implies #[trigger] code[j] != '=' by {
        if j < k {
            assert(code[j] == key[j]);
        }
    }
    text::lemma_first_is(code, '=', (k + 1) as nat);
    text::lemma_trim_of_padded(Seq::empty(), key, seq![' ']);
    assert(code.take(k + 1) =~= Seq::<char>::empty() + key + seq![' ']);
    assert(!text::is_white(key[k - 1]));
    text::lemma_trim_of_trimmed(key);
    text::lemma_trim_of_padded(seq![' '], value, Seq::empty());
    assert(code.skip(k + 2) =~= seq![' '] + value + Seq::<char>::empty());
    text::lemma_trim_of_trimmed(value);
}

/// Lines that say nothing are no entries, and nothing is complained about.
pub proof fn lemma_silent_entries(before: Seq<Seq<char>>, ls: Seq<Seq<char>>)
    requires
        all_silent(ls),
    ensures
        entries_of(before + bodies(ls)) == entries_of(before),
        complaints_of(before + bodies(ls)) == complaints_of(before),
    decreases ls.len(),
{
    let all = before + bodies(ls);
    if ls.len() == 0 {
        assert(all =~= before);
    } else {
        let init = ls.drop_last();
        assert(is_silent(ls[ls.len() - 1]));
        assert forall|i: int| 0 <= i < init.len() implies is_silent(#[trigger] init[i]) by {
            assert(init[i] == ls[i]);
        }
        lemma_silent_entries(before, init);
        assert(all.drop_last() =~= before + bodies(init));
        assert(all.last() == text::without_ending(ls.last()));
    }
}

/// A line that sets a key is one more entry.
pub proof fn lemma_saying_entry(
    before: Seq<Seq<char>>,
    raw: Seq<char>,
    key: Seq<char>,
    value: Seq<char>,
)
    requires
        says(raw, key, value),
    ensures
        entries_of(before.push(text::without_ending(raw))) == entries_of(before).push(
            EntryModel { line: before.len() + 1, key, value },
        ),
        complaints_of(before.push(text::without_ending(raw))) == complaints_of(before),
{
    let all = before.push(text::without_ending(raw));
    assert(all.drop_last() =~= before);
}

/// A line that sets a key.
pub fn line_of(key: &str, value: &str) -> (r: String)
    ensures
        r@ == setting_line(key@, value@, Seq::empty()),
{
    let mut r: String = String::from_str(key);
    r.append(" = ");
    r.append(value);
    r.append("\n");
    assert(r@ =~= setting_line(key@, value@, Seq::empty()));
    r
}

/// A place is inside quotes just where an odd number of quotes stands before it.
pub proof fn law_quotes_pair_up(l: Seq<char>, i: int)
    requires
        0 <= i <= l.len(),
    ensures
        in_quotes(l, i) <==> l.take(i).filter(|c: char| c == '"').len() % 2 == 1,
    decreases i,
{
    reveal(Seq::filter);
    if i > 0 {
        law_quotes_pair_up(l, i - 1);
        assert(l.take(i).drop_last() =~= l.take(i - 1));
        assert(l.take(i).last() == l[i - 1]);
    }
}

/// The comment of a line starts at its first `#` outside quotes. A line without
/// one has no comment.
pub proof fn law_comments_start_outside_quotes(l: Seq<char>, j: int)
    ensures
        0 <= comment_at(l) <= l.len(),
        comment_at(l) < l.len() ==> l[comment_at(l)] == '#' && !in_quotes(l, comment_at(l)),
        0 <= j < comment_at(l) && l[j] == '#' ==> in_quotes(l, j),
{
    lemma_comment_start(l, 0, j);
}

proof fn lemma_comment_start(l: Seq<char>, i: int, j: int)
    requires
        0 <= i <= l.len(),
    ensures
        i <= comment_from(l, i) <= l.len(),
        comment_from(l, i) < l.len() ==> l[comment_from(l, i)] == '#' && !in_quotes(
            l,
            comment_from(l, i),
        ),
        i <= j < comment_from(l, i) && l[j] == '#' ==> in_quotes(l, j),
    decreases l.len() - i,
{
    if i < l.len() && !comment_here(l, i) {
        lemma_comment_start(l, i + 1, j);
    }
}

/// What stands before the first `=` is the key, and all that stands behind it is
/// the value, white space aside. Without `=` a line is junk, and one that starts
/// with a bracket opens a table.
pub proof fn law_pairs_are_split_at_the_first_sign(k: Seq<char>, v: Seq<char>)
    ensures
        item_of(Seq::empty()) is Blank,
        k.len() > 0 && k[0] == '[' ==> item_of(k) is Table,
        k.len() > 0 && k[0] != '[' && !k.contains('=') ==> item_of(k) is Junk,
        !k.contains('=') && (k.len() == 0 || k[0] != '[') ==> item_of(k + seq!['='] + v)
            == Item::Pair(text::trim(k), text::trim(v)),
{
    text::lemma_first_bound(k, '=');
    let c = k + seq!['='] + v;
    if !k.contains('=') {
        assert forall|i: int| 0 <= i < k.len() implies #[trigger] c[i] != '=' by {
            assert(c[i] == k[i]);
            assert(k.contains(k[i]));
        }
        text::lemma_first_is(c, '=', k.len());
        assert(c.take(k.len() as int) =~= k);
        assert(c.skip(k.len() as int + 1) =~= v);
        assert(c[0] == if k.len() == 0 {
            '='
        } else {
            k[0]
        });
        assert(text::first(k, '=') == k.len()) by {
            if text::first(k, '=') < k.len() {
                assert(k.contains(k[text::first(k, '=') as int]));
            }
        }
    }
}

/// A line that is a key, ` = `, a value and a comment behind it or nothing says
/// that key and that value.
pub proof fn law_settings_say_key_and_value(
    key: Seq<char>,
    value: Seq<char>,
    rest: Seq<char>,
    n: int,
)
    requires
        plain_key(key),
        plain_value(value),
        is_aside(rest, n),
    ensures
        item_of(code_of(key + seq![' ', '=', ' '] + value + rest)) == Item::Pair(key, value),
        setting_line(key, value, rest) == key + seq![' ', '=', ' '] + value + rest + seq!['\n'],
{
    lemma_setting_line(key, value, rest, n);
    reveal_strlit(" = ");
    reveal_strlit("\n");
    assert(" = "@ =~= seq![' ', '=', ' ']);
    assert("\n"@ =~= seq!['\n']);
    let raw = setting_line(key, value, rest);
    let l = key + seq![' ', '=', ' '] + value + rest;
    assert(raw.drop_last() =~= l);
    assert(l.last() != '\r') by {
        if rest.len() == 0 {
            assert(l.last() == value.last());
        } else {
            assert(l.last() == rest.last());
        }
    }
    assert(text::without_ending(raw) == l);
}

/// Each line is one entry more, with its number counted from one, or one
/// complaint more, or says nothing.
pub proof fn law_every_line_counts_once(ls: Seq<Seq<char>>, l: Seq<char>)
    ensures
        entries_of(Seq::empty()).len() == 0,
        complaints_of(Seq::empty()).len() == 0,
        match item_of(code_of(l)) {
            Item::Pair(key, value) => {
                let es = entries_of(ls.push(l));
                &&& es.drop_last() == entries_of(ls) && es.len() == entries_of(ls).len() + 1
                &&& es.last().line == ls.len() + 1
                &&& es.last().key == key
                &&& es.last().value == value
                &&& complaints_of(ls.push(l)) == complaints_of(ls)
            },
            Item::Blank => entries_of(ls.push(l)) == entries_of(ls) && complaints_of(ls.push(l))
                == complaints_of(ls),
            _ => entries_of(ls.push(l)) == entries_of(ls) && complaints_of(ls.push(l)).len()
                == complaints_of(ls).len() + 1 && complaints_of(ls.push(l)).drop_last()
                == complaints_of(ls),
        },
{
    assert(ls.push(l).drop_last() =~= ls);
    if let Item::Pair(key, value) = item_of(code_of(l)) {
        assert(entries_of(ls.push(l)).drop_last() =~= entries_of(ls));
    } else if !(item_of(code_of(l)) is Blank) {
        assert(complaints_of(ls.push(l)).drop_last() =~= complaints_of(ls));
    }
}

/// A string in quotes holds what stands between them, where that has neither
/// quote nor backslash. Nothing else is one.
pub proof fn law_strings_stand_between_quotes(v: Seq<char>, x: Seq<char>)
    ensures
        quoted(v) matches Some(y) ==> v == seq!['"'] + y + seq!['"'] && !y.contains('"')
            && !y.contains('\\'),
        !x.contains('"') && !x.contains('\\') ==> quoted(seq!['"'] + x + seq!['"']) == Some(x),
{
    if let Some(y) = quoted(v) {
        assert(v =~= seq!['"'] + y + seq!['"']);
    }
    let w = seq!['"'] + x + seq!['"'];
    assert(w.subrange(1, w.len() - 1) =~= x);
}

/// What is said of entries and texts is said of each of them, in order.
pub proof fn law_entries_are_seen_whole(
    es: Seq<Entry>,
    strs: Seq<&str>,
    strings: Seq<String>,
    i: int,
)
    ensures
        entry_views(es).len() == es.len(),
        0 <= i < es.len() ==> entry_views(es)[i].line == es[i].line && entry_views(es)[i].key
            == es[i].key@ && entry_views(es)[i].value == es[i].value@,
        str_views(strs).len() == strs.len(),
        0 <= i < strs.len() ==> str_views(strs)[i] == strs[i]@,
        string_views(strings).len() == strings.len(),
        0 <= i < strings.len() ==> string_views(strings)[i] == strings[i]@,
{
}

/// A warning names the line and says that it is ignored.
pub proof fn law_warnings_name_their_line(line: nat, msg: Seq<char>)
    ensures
        warning_text(line, msg) == "line "@ + text::decimal(line) + ": "@ + msg + "; ignored"@,
{
}

/// A list may end with a comma and have white space inside its brackets.
pub proof fn law_lists_may_end_with_a_comma(
    items: Seq<Seq<char>>,
    before: Seq<char>,
    after: Seq<char>,
)
    requires
        items.len() > 0,
        forall|i: int| 0 <= i < items.len() ==> listable(#[trigger] items[i]),
        forall|i: int| 0 <= i < before.len() ==> text::is_white(#[trigger] before[i]),
        forall|i: int| 0 <= i < after.len() ==> text::is_white(#[trigger] after[i]),
    ensures
        list_of(seq!['['] + before + items_text(items) + seq![','] + after + seq![']']) == Some(
            items,
        ),
        list_of(seq!['['] + before + items_text(items) + after + seq![']']) == Some(items),
{
    let body = items_text(items);
    lemma_items_text(items);
    let v = seq!['['] + before + body + seq![','] + after + seq![']'];
    let u = seq!['['] + before + body + after + seq![']'];
    let w = body + seq![','];
    assert(v.subrange(1, v.len() - 1) =~= before + w + after);
    assert(u.subrange(1, u.len() - 1) =~= before + body + after);
    text::lemma_trim_of_padded(before, w, after);
    text::lemma_trim_of_padded(before, body, after);
    text::lemma_trim_of_trimmed(body);
    assert(w[0] == body[0]);
    text::lemma_trim_of_trimmed(w);
    assert(w.drop_last() =~= body);
    assert(list_inside(v) == body);
    assert(list_inside(u) == body);
}

/// A line that opens a table is told that there are none, and any other that is
/// no setting what one looks like, each with what it says.
pub proof fn law_complaints_say_why(ls: Seq<Seq<char>>, l: Seq<char>)
    ensures
        ({
            let c = code_of(l);
            let all = complaints_of(ls.push(l));
            &&& item_of(c) is Table ==> all.last() == "line "@ + text::decimal(ls.len() + 1) + ": "@
                + ("tables are not supported (`"@ + c + "`)"@) + "; ignored"@
            &&& item_of(c) is Junk ==> all.last() == "line "@ + text::decimal(ls.len() + 1) + ": "@
                + ("expected `key = value`, got `"@ + c + "`"@) + "; ignored"@
        }),
{
    assert(ls.push(l).drop_last() =~= ls);
}

} // verus!
