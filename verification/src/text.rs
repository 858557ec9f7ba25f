//! Character classes and trimming, as `char::is_whitespace`,
//! `char::is_ascii_whitespace` and `str::trim` define them.
use vstd::prelude::*;

verus! {

/// The character views of a sequence of strings.
pub open spec fn string_views(v: Seq<String>) -> Seq<Seq<char>> {
    v.map_values(|s: String| s@)
}

/// Unicode whitespace (the `White_Space` property), as `char::is_whitespace`
/// defines it.
pub open spec fn is_unicode_ws(c: char) -> bool {
    let u = c as int;
    ||| 0x09 <= u <= 0x0D
    ||| u == 0x20
    ||| u == 0x85
    ||| u == 0xA0
    ||| u == 0x1680
    ||| 0x2000 <= u <= 0x200A
    ||| u == 0x2028
    ||| u == 0x2029
    ||| u == 0x202F
    ||| u == 0x205F
    ||| u == 0x3000
}

/// ASCII whitespace, as `char::is_ascii_whitespace` defines it: space,
/// horizontal tab, line feed, form feed and carriage return.
pub open spec fn is_ascii_ws_char(c: char) -> bool {
    c == ' ' || c == '\t' || c == '\n' || c == '\x0C' || c == '\r'
}

/// Whether `c` is Unicode whitespace.
pub fn is_whitespace(c: char) -> (b: bool)
    ensures
        b == is_unicode_ws(c),
{
    let u = c as u32;
    (0x09 <= u && u <= 0x0D) || u == 0x20 || u == 0x85 || u == 0xA0 || u == 0x1680 || (0x2000
        <= u && u <= 0x200A) || u == 0x2028 || u == 0x2029 || u == 0x202F || u == 0x205F || u
        == 0x3000
}

/// Whether `c` is ASCII whitespace.
pub fn is_ascii_whitespace(c: char) -> (b: bool)
    ensures
        b == is_ascii_ws_char(c),
{
    c == ' ' || c == '\t' || c == '\n' || c == '\x0C' || c == '\r'
}

/// `s` without its leading Unicode whitespace.
pub open spec fn trim_start(s: Seq<char>) -> Seq<char>
    decreases s.len(),
{
    if s.len() > 0 && is_unicode_ws(s[0]) {
        trim_start(s.drop_first())
    } else {
        s
    }
}

/// `s` without its trailing Unicode whitespace.
pub open spec fn trim_end(s: Seq<char>) -> Seq<char>
    decreases s.len(),
{
    if s.len() > 0 && is_unicode_ws(s.last()) {
        trim_end(s.drop_last())
    } else {
        s
    }
}

/// `s` without leading and trailing Unicode whitespace, as `str::trim` gives it.
pub open spec fn trim(s: Seq<char>) -> Seq<char> {
    trim_end(trim_start(s))
}

/// Unicode whitespace is exactly the `White_Space` characters: tab, line
/// feed, vertical tab, form feed, carriage return, space, next line,
/// no-break space, ogham space mark, the eleven spaces from en quad to hair
/// space, line separator, paragraph separator, narrow no-break space,
/// medium mathematical space and ideographic space.
pub proof fn lemma_unicode_whitespace_members(c: char)
    ensures
        is_unicode_ws(c) <==> (c == '\t' || c == '\n' || c == '\u{0B}' || c == '\u{0C}' || c
            == '\r' || c == ' ' || c == '\u{85}' || c == '\u{A0}' || c == '\u{1680}' || c
            == '\u{2000}' || c == '\u{2001}' || c == '\u{2002}' || c == '\u{2003}' || c
            == '\u{2004}' || c == '\u{2005}' || c == '\u{2006}' || c == '\u{2007}' || c
            == '\u{2008}' || c == '\u{2009}' || c == '\u{200A}' || c == '\u{2028}' || c
            == '\u{2029}' || c == '\u{202F}' || c == '\u{205F}' || c == '\u{3000}'),
{
}

/// ASCII whitespace is exactly the characters 0x20, 0x09, 0x0A, 0x0C and
/// 0x0D; in particular vertical tab (0x0B), `.` and every non-ASCII
/// character are not.
pub proof fn lemma_ascii_whitespace_members(c: char)
    ensures
        is_ascii_ws_char(c) <==> ((c as int) == 0x20 || (c as int) == 0x09 || (c as int) == 0x0A
            || (c as int) == 0x0C || (c as int) == 0x0D),
{
}

proof fn lemma_trim_start_all_ws(t: Seq<char>)
    requires
        forall|i: int| 0 <= i < t.len() ==> is_unicode_ws(#[trigger] t[i]),
    ensures
        trim_start(t) == Seq::<char>::empty(),
    decreases t.len(),
{
    if t.len() > 0 {
        lemma_trim_start_all_ws(t.drop_first());
    } else {
        assert(t =~= Seq::<char>::empty());
    }
}

proof fn lemma_trim_start_append(s: Seq<char>, t: Seq<char>)
    ensures
        trim_start(s + t) == if trim_start(s).len() == 0 {
            trim_start(t)
        } else {
            trim_start(s) + t
        },
    decreases s.len(),
{
    if s.len() == 0 {
        assert(s + t =~= t);
    } else {
        assert((s + t)[0] == s[0]);
        if is_unicode_ws(s[0]) {
            assert((s + t).drop_first() =~= s.drop_first() + t);
            lemma_trim_start_append(s.drop_first(), t);
        }
    }
}

proof fn lemma_trim_start_prepend(t: Seq<char>, s: Seq<char>)
    requires
        forall|i: int| 0 <= i < t.len() ==> is_unicode_ws(#[trigger] t[i]),
    ensures
        trim_start(t + s) == trim_start(s),
    decreases t.len(),
{
    if t.len() == 0 {
        assert(t + s =~= s);
    } else {
        assert((t + s)[0] == t[0]);
        assert((t + s).drop_first() =~= t.drop_first() + s);
        lemma_trim_start_prepend(t.drop_first(), s);
    }
}

proof fn lemma_trim_end_append(x: Seq<char>, t: Seq<char>)
    requires
        forall|i: int| 0 <= i < t.len() ==> is_unicode_ws(#[trigger] t[i]),
    ensures
        trim_end(x + t) == trim_end(x),
    decreases t.len(),
{
    if t.len() == 0 {
        assert(x + t =~= x);
    } else {
        assert((x + t).last() == t.last());
        assert((x + t).drop_last() =~= x + t.drop_last());
        lemma_trim_end_append(x, t.drop_last());
    }
}

/// Whitespace before or after a text changes nothing of it once trimmed.
pub proof fn lemma_trim_ignores_surrounding_whitespace(s: Seq<char>, t: Seq<char>)
    requires
        forall|i: int| 0 <= i < t.len() ==> is_unicode_ws(#[trigger] t[i]),
    ensures
        trim(s + t) == trim(s),
        trim(t + s) == trim(s),
{
    lemma_trim_start_append(s, t);
    if trim_start(s).len() == 0 {
        lemma_trim_start_all_ws(t);
        assert(trim_end(Seq::<char>::empty()) == Seq::<char>::empty());
        assert(trim_start(s) =~= Seq::<char>::empty());
    } else {
        lemma_trim_end_append(trim_start(s), t);
    }
    lemma_trim_start_prepend(t, s);
}

/// A line ending, `\n` or `\r\n`, is removed by trimming.
pub proof fn lemma_trim_line_ending(s: Seq<char>)
    ensures
        trim(s + seq!['\r', '\n']) == trim(s),
        trim(s + seq!['\n']) == trim(s),
{
    lemma_unicode_whitespace_members('\r');
    lemma_unicode_whitespace_members('\n');
    let crlf = seq!['\r', '\n'];
    assert forall|i: int| 0 <= i < crlf.len() implies is_unicode_ws(#[trigger] crlf[i]) by {
        assert(crlf[i] == '\r' || crlf[i] == '\n');
    }
    lemma_trim_ignores_surrounding_whitespace(s, crlf);
    let lf = seq!['\n'];
    assert forall|i: int| 0 <= i < lf.len() implies is_unicode_ws(#[trigger] lf[i]) by {
        assert(lf[i] == '\n');
    }
    lemma_trim_ignores_surrounding_whitespace(s, lf);
}

proof fn lemma_trim_start_skip(s: Seq<char>, i: int)
    requires
        0 <= i <= s.len(),
        forall|k: int| 0 <= k < i ==> is_unicode_ws(#[trigger] s[k]),
    ensures
        trim_start(s) == trim_start(s.skip(i)),
    decreases i,
{
    if i > 0 {
        assert(s.skip(1) =~= s.drop_first());
        lemma_trim_start_skip(s.drop_first(), i - 1);
        assert(s.drop_first().skip(i - 1) =~= s.skip(i));
    } else {
        assert(s.skip(0) =~= s);
    }
}

proof fn lemma_trim_end_take(s: Seq<char>, j: int)
    requires
        0 <= j <= s.len(),
        forall|k: int| j <= k < s.len() ==> is_unicode_ws(#[trigger] s[k]),
    ensures
        trim_end(s) == trim_end(s.take(j)),
    decreases s.len() - j,
{
    if j < s.len() {
        assert(s.take(s.len() - 1) =~= s.drop_last());
        lemma_trim_end_take(s.drop_last(), j);
        assert(s.drop_last().take(j) =~= s.take(j));
    } else {
        assert(s.take(j) =~= s);
    }
}

/// The character positions `(from, to)` of `s` between which `trim(s@)` lies.
pub fn trim_bounds(s: &str) -> (r: (usize, usize))
    ensures
        r.0 <= r.1 <= s@.len(),
        s@.subrange(r.0 as int, r.1 as int) == trim(s@),
{
    let len = s.unicode_len();
    let mut i: usize = 0;
    while i < len && is_whitespace(s.get_char(i))
        invariant
            len == s@.len(),
            i <= len,
            forall|k: int| 0 <= k < i ==> is_unicode_ws(#[trigger] s@[k]),
        decreases len - i,
    {
        i = i + 1;
    }
    proof {
        lemma_trim_start_skip(s@, i as int);
    }
    let ghost rest = s@.skip(i as int);
    assert(trim_start(rest) == rest) by {
        if rest.len() > 0 {
            assert(rest[0] == s@[i as int]);
        }
    }
    let mut j: usize = len;
    while j > i && is_whitespace(s.get_char(j - 1))
        invariant
            len == s@.len(),
            i <= j <= len,
            forall|k: int| j <= k < len ==> is_unicode_ws(#[trigger] s@[k]),
        decreases j,
    {
        j = j - 1;
    }
    proof {
        let t = s@.skip(i as int);
        assert forall|k: int| j - i <= k < t.len() implies is_unicode_ws(#[trigger] t[k]) by {
            assert(t[k] == s@[k + i]);
        }
        lemma_trim_end_take(t, j - i);
        let u = t.take(j - i);
        assert(u =~= s@.subrange(i as int, j as int));
        if u.len() > 0 {
            assert(u.last() == s@[j - 1]);
        }
        assert(trim_end(u) == u);
    }
    (i, j)
}

/// Separators at the end of a text add no field and change none.
pub proof fn lemma_fields_ignore_trailing_separators(s: Seq<char>, t: Seq<char>, ascii: bool)
    requires
        forall|i: int| 0 <= i < t.len() ==> is_separator(#[trigger] t[i], ascii),
    ensures
        split_fields(s + t, ascii) == split_fields(s, ascii),
    decreases t.len(),
{
    if t.len() == 0 {
        assert(s + t =~= s);
    } else {
        assert((s + t).last() == t.last());
        assert((s + t).drop_last() =~= s + t.drop_last());
        lemma_fields_ignore_trailing_separators(s, t.drop_last(), ascii);
    }
}

/// A line ending, `\r\n`, adds no field and changes none, whether fields
/// are separated by ASCII or by Unicode whitespace.
pub proof fn lemma_fields_ignore_line_ending(s: Seq<char>, ascii: bool)
    ensures
        split_fields(s + seq!['\r', '\n'], ascii) == split_fields(s, ascii),
{
    lemma_unicode_whitespace_members('\r');
    lemma_unicode_whitespace_members('\n');
    let crlf = seq!['\r', '\n'];
    assert forall|i: int| 0 <= i < crlf.len() implies is_separator(#[trigger] crlf[i], ascii) by {
        assert(crlf[i] == '\r' || crlf[i] == '\n');
    }
    lemma_fields_ignore_trailing_separators(s, crlf, ascii);
}

proof fn lemma_one_field(s: Seq<char>, ascii: bool)
    requires
        s.len() > 0,
        forall|i: int| 0 <= i < s.len() ==> !is_separator(#[trigger] s[i], ascii),
    ensures
        split_fields(s, ascii) == seq![s],
    decreases s.len(),
{
    let before = split_fields(s.drop_last(), ascii);
    assert(!is_separator(s.last(), ascii));
    if s.len() == 1 {
        assert(s.drop_last().len() == 0);
        assert(before == Seq::<Seq<char>>::empty());
        assert(seq![s.last()] =~= s);
        assert(split_fields(s, ascii) == before.push(seq![s.last()]));
        assert(before.push(seq![s.last()]) =~= seq![s]);
    } else {
        lemma_one_field(s.drop_last(), ascii);
        assert(s[s.len() - 2] == s.drop_last()[s.len() - 2]);
        assert(!is_separator(s[s.len() - 2], ascii));
        assert(split_fields(s, ascii) == before.drop_last().push(before.last().push(s.last())));
        assert(s.drop_last().push(s.last()) =~= s);
        assert(before.drop_last().push(before.last().push(s.last())) =~= seq![s]);
    }
}

/// A text with no ASCII whitespace (no space, tab, line feed, form feed or
/// carriage return) is one field when fields are separated by ASCII
/// whitespace: a file name with a dot stays one argument.
pub proof fn lemma_one_ascii_field(s: Seq<char>)
    requires
        s.len() > 0,
        forall|i: int|
            0 <= i < s.len() ==> !(#[trigger] s[i] == ' ' || s[i] == '\t' || s[i] == '\n' || s[i]
                == '\x0C' || s[i] == '\r'),
    ensures
        split_fields(s, true) == seq![s],
{
    lemma_one_field(s, true);
}

/// A text with no Unicode whitespace is one field when fields are separated
/// by Unicode whitespace.
pub proof fn lemma_one_unicode_field(s: Seq<char>)
    requires
        s.len() > 0,
        forall|i: int| 0 <= i < s.len() ==> !is_unicode_ws(#[trigger] s[i]),
    ensures
        split_fields(s, false) == seq![s],
{
    lemma_one_field(s, false);
}

/// Whether `c` separates fields: ASCII whitespace when `ascii` holds,
/// Unicode whitespace otherwise.
pub open spec fn is_separator(c: char, ascii: bool) -> bool {
    if ascii {
        is_ascii_ws_char(c)
    } else {
        is_unicode_ws(c)
    }
}

/// The fields of `s`: maximal runs of characters that are not separators,
/// in order, as `str::split_ascii_whitespace` (when `ascii` holds) or
/// `str::split_whitespace` yields them.
pub open spec fn split_fields(s: Seq<char>, ascii: bool) -> Seq<Seq<char>>
    decreases s.len(),
{
    if s.len() == 0 {
        Seq::empty()
    } else {
        let before = split_fields(s.drop_last(), ascii);
        let c = s.last();
        if is_separator(c, ascii) {
            before
        } else if s.len() >= 2 && !is_separator(s[s.len() - 2], ascii) {
            before.drop_last().push(before.last().push(c))
        } else {
            before.push(seq![c])
        }
    }
}

fn is_separator_char(c: char, ascii: bool) -> (b: bool)
    ensures
        b == is_separator(c, ascii),
{
    if ascii {
        is_ascii_whitespace(c)
    } else {
        is_whitespace(c)
    }
}

/// The fields of `s`, separated by ASCII whitespace when `ascii` holds and
/// by Unicode whitespace otherwise.
pub fn fields_of(s: &str, ascii: bool) -> (fields: Vec<String>)
    ensures
        string_views(fields@) == split_fields(s@, ascii),
{
    let n = s.unicode_len();
    let mut fields: Vec<String> = Vec::new();
    let mut start: usize = 0;
    let mut i: usize = 0;
    while i < n
        invariant
            n == s@.len(),
            start <= i <= n,
            start < i ==> !is_separator(s@[i - 1], ascii),
            start == i ==> i == 0 || is_separator(s@[i - 1], ascii),
            split_fields(s@.take(i as int), ascii) == string_views(fields@) + if start < i {
                seq![s@.subrange(start as int, i as int)]
            } else {
                Seq::<Seq<char>>::empty()
            },
        decreases n - i,
    {
        let c = s.get_char(i);
        let ghost prev = s@.take(i as int);
        let ghost next = s@.take(i + 1);
        assert(next.drop_last() =~= prev);
        let ghost old_fields = string_views(fields@);
        if is_separator_char(c, ascii) {
            if start < i {
                let f = s.substring_char(start, i).to_owned();
                fields.push(f);
                assert(string_views(fields@) =~= old_fields.push(s@.subrange(start as int, i as int)));
            }
            start = i + 1;
            assert(split_fields(next, ascii) =~= string_views(fields@));
        } else {
            if start < i {
                assert(next[i - 1] == s@[i - 1]);
                assert(s@.subrange(start as int, i + 1) =~= s@.subrange(start as int, i as int).push(c));
                assert(split_fields(next, ascii) =~= string_views(fields@) + seq![s@.subrange(start as int, i + 1)]);
            } else {
                if i > 0 {
                    assert(next[i - 1] == s@[i - 1]);
                }
                assert(s@.subrange(start as int, i + 1) =~= seq![c]);
                assert(split_fields(next, ascii) =~= string_views(fields@) + seq![s@.subrange(start as int, i + 1)]);
            }
        }
        i = i + 1;
    }
    if start < n {
        let ghost old_fields = string_views(fields@);
        let f = s.substring_char(start, n).to_owned();
        fields.push(f);
        assert(string_views(fields@) =~= old_fields.push(s@.subrange(start as int, n as int)));
    }
    assert(s@.take(n as int) =~= s@);
    assert(string_views(fields@) =~= split_fields(s@, ascii));
    fields
}

/// Whether two strings hold the same characters.
pub fn str_equals(a: &str, b: &str) -> (eq: bool)
    ensures
        eq == (a@ == b@),
{
    let n = a.unicode_len();
    if n != b.unicode_len() {
        return false;
    }
    let mut i: usize = 0;
    while i < n
        invariant
            n == a@.len(),
            n == b@.len(),
            i <= n,
            forall|k: int| 0 <= k < i ==> a@[k] == b@[k],
        decreases n - i,
    {
        if a.get_char(i) != b.get_char(i) {
            return false;
        }
        i = i + 1;
    }
    assert(a@ =~= b@);
    true
}

} // verus!
