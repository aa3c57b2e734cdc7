//! Text building blocks: sequences of characters on the specification side, `String` and `&str`
//! on the executable side.

use vstd::prelude::*;
use vstd::string::*;

verus! {

/// `String::push` appends one character.
pub assume_specification[ String::push ](s: &mut String, c: char)
    ensures
        final(s)@ == old(s)@.push(c),
;

/// An ASCII letter in lower case; any other character as it is.
pub open spec fn lower(c: char) -> char {
    if 'A' <= c <= 'Z' {
        (c as u32 + 32) as char
    } else {
        c
    }
}

/// The text in lower case, as Unicode has it.
pub uninterp spec fn lowercased(s: Seq<char>) -> Seq<char>;

/// `str::to_lowercase`: the result is named [`lowercased`]. An ASCII text is lowered letter by
/// letter.
#[verifier::external_body]
fn to_lower(s: &str) -> (r: String)
    ensures
        r@ == lowercased(s@),
        (forall|i: int| 0 <= i < s@.len() ==> (#[trigger] s@[i] as u32) < 128) ==> r@
            == s@.map_values(|c: char| lower(c)),
{
    s.to_lowercase()
}

/// Whether a text is all ASCII.
pub open spec fn is_plain(s: Seq<char>) -> bool {
    forall|i: int| 0 <= i < s.len() ==> (#[trigger] s[i] as u32) < 128
}

/// The text in lower case: letter by letter where it is all ASCII.
pub open spec fn in_lower_case(s: Seq<char>) -> Seq<char> {
    if is_plain(s) {
        s.map_values(|c: char| lower(c))
    } else {
        lowercased(s)
    }
}

/// Puts a text in lower case.
pub fn lower_case(s: &str) -> (r: String)
    ensures
        r@ == in_lower_case(s@),
{
    to_lower(s)
}

/// The texts of a list of strings.
pub open spec fn texts(list: Seq<String>) -> Seq<Seq<char>> {
    list.map_values(|s: String| s@)
}

/// The text of an optional string slice.
pub open spec fn text_of(value: Option<&str>) -> Option<Seq<char>> {
    match value {
        Some(s) => Some(s@),
        None => None,
    }
}

/// The text of an optional owned string.
pub open spec fn string_of(value: Option<String>) -> Option<Seq<char>> {
    match value {
        Some(s) => Some(s@),
        None => None,
    }
}

/// `value`, or the empty text in its place.
pub open spec fn or_empty(value: Option<Seq<char>>) -> Seq<char> {
    match value {
        Some(s) => s,
        None => Seq::empty(),
    }
}

/// `value`, unless it is empty: then `fallback`.
pub open spec fn or_default(value: Seq<char>, fallback: Seq<char>) -> Seq<char> {
    if value.len() == 0 {
        fallback
    } else {
        value
    }
}

/// The parts in order, with `sep` between neighbours.
pub open spec fn joined(parts: Seq<Seq<char>>, sep: Seq<char>) -> Seq<char>
    decreases parts.len(),
{
    if parts.len() == 0 {
        Seq::empty()
    } else if parts.len() == 1 {
        parts[0]
    } else {
        joined(parts.drop_last(), sep) + sep + parts.last()
    }
}

/// `unit` written `n` times.
pub open spec fn repeated(unit: Seq<char>, n: nat) -> Seq<char>
    decreases n,
{
    if n == 0 {
        Seq::empty()
    } else {
        repeated(unit, (n - 1) as nat) + unit
    }
}

/// The characters that Unicode gives the property `White_Space`.
pub open spec fn is_white_space(c: char) -> bool {
    let p = c as u32;
    ||| 0x09 <= p <= 0x0d
    ||| p == 0x20
    ||| p == 0x85
    ||| p == 0xa0
    ||| p == 0x1680
    ||| 0x2000 <= p <= 0x200a
    ||| p == 0x2028
    ||| p == 0x2029
    ||| p == 0x202f
    ||| p == 0x205f
    ||| p == 0x3000
}

/// What may be trimmed off the ends of a text.
#[derive(Clone, Copy)]
pub enum Edge {
    WhiteSpace,
    Dots,
    Slashes,
}

/// Whether `edge` covers the character.
pub open spec fn covers(edge: Edge, c: char) -> bool {
    match edge {
        Edge::WhiteSpace => is_white_space(c),
        Edge::Dots => c == '.',
        Edge::Slashes => c == '/',
    }
}

/// `s` without the covered characters in front.
pub open spec fn trim_front(s: Seq<char>, edge: Edge) -> Seq<char>
    decreases s.len(),
{
    if s.len() > 0 && covers(edge, s[0]) {
        trim_front(s.skip(1), edge)
    } else {
        s
    }
}

/// `s` without the covered characters at its end.
pub open spec fn trim_back(s: Seq<char>, edge: Edge) -> Seq<char>
    decreases s.len(),
{
    if s.len() > 0 && covers(edge, s.last()) {
        trim_back(s.drop_last(), edge)
    } else {
        s
    }
}

/// `s` without the covered characters at both ends.
pub open spec fn trim(s: Seq<char>, edge: Edge) -> Seq<char> {
    trim_back(trim_front(s, edge), edge)
}

/// The parts of a text between its slashes.
pub open spec fn pieces(s: Seq<char>) -> Seq<Seq<char>>
    decreases s.len(),
{
    if s.len() == 0 {
        seq![Seq::empty()]
    } else {
        let before = pieces(s.drop_last());
        if s.last() == '/' {
            before.push(Seq::empty())
        } else {
            before.drop_last().push(before.last().push(s.last()))
        }
    }
}

/// The parts that name something: all but the empty ones and `.`.
pub open spec fn naming(parts: Seq<Seq<char>>) -> Seq<Seq<char>>
    decreases parts.len(),
{
    if parts.len() == 0 {
        Seq::empty()
    } else {
        let before = naming(parts.drop_last());
        if parts.last().len() == 0 || parts.last() == "."@ {
            before
        } else {
            before.push(parts.last())
        }
    }
}

/// Whether a path starts at the root of the file system.
pub open spec fn is_absolute(path: Seq<char>) -> bool {
    path.len() > 0 && path[0] == '/'
}

/// The names that a text comes to as a path, seen from some directory: it is split at its slashes.
pub open spec fn components(s: Seq<char>) -> Seq<Seq<char>> {
    naming(pieces(s))
}

/// The decimal digit for a number below ten.
pub open spec fn digit(d: nat) -> char {
    (48 + d) as char
}

/// The decimal writing of a number.
pub open spec fn decimal(n: nat) -> Seq<char>
    decreases n,
{
    if n < 10 {
        seq![digit(n)]
    } else {
        decimal(n / 10).push(digit(n % 10))
    }
}

/// Whether `a` comes before `b`, or is equal to it, in the order of their code points.
pub open spec fn precedes(a: Seq<char>, b: Seq<char>) -> bool
    decreases a.len(),
{
    if a.len() == 0 {
        true
    } else if b.len() == 0 {
        false
    } else if a[0] != b[0] {
        a[0] < b[0]
    } else {
        precedes(a.drop_first(), b.drop_first())
    }
}

/// Joining one more part puts the separator in front of it, unless it is the first.
pub proof fn lemma_joined_push(parts: Seq<Seq<char>>, part: Seq<char>, sep: Seq<char>)
    ensures
        joined(parts.push(part), sep) == if parts.len() == 0 {
            part
        } else {
            joined(parts, sep) + sep + part
        },
{
    let all = parts.push(part);
    assert(all.drop_last() =~= parts);
    assert(all.last() == part);
}

proof fn lemma_trim_front_at(s: Seq<char>, edge: Edge, i: int)
    requires
        0 <= i <= s.len(),
        forall|j: int| 0 <= j < i ==> covers(edge, #[trigger] s[j]),
        i < s.len() ==> !covers(edge, s[i]),
    ensures
        trim_front(s, edge) == s.skip(i),
    decreases i,
{
    if i == 0 {
        assert(s.skip(0) =~= s);
    } else {
        assert(covers(edge, s[0]));
        let t = s.skip(1);
        assert forall|j: int| 0 <= j < i - 1 implies covers(edge, #[trigger] t[j]) by {
            assert(t[j] == s[j + 1]);
        }
        lemma_trim_front_at(t, edge, i - 1);
        assert(t.skip(i - 1) =~= s.skip(i));
    }
}

proof fn lemma_trim_back_at(s: Seq<char>, edge: Edge, i: int)
    requires
        0 <= i <= s.len(),
        forall|j: int| i <= j < s.len() ==> covers(edge, #[trigger] s[j]),
        i > 0 ==> !covers(edge, s[i - 1]),
    ensures
        trim_back(s, edge) == s.take(i),
    decreases s.len() - i,
{
    if i == s.len() {
        assert(s.take(i) =~= s);
    } else {
        assert(covers(edge, s.last()));
        lemma_trim_back_at(s.drop_last(), edge, i);
        assert(s.drop_last().take(i) =~= s.take(i));
    }
}

/// Trimming leaves a stretch of the text, with nothing to trim at its ends.
pub proof fn lemma_trim_range(s: Seq<char>, edge: Edge) -> (r: (int, int))
    ensures
        0 <= r.0 <= r.1 <= s.len(),
        trim(s, edge) == s.subrange(r.0, r.1),
        r.0 < r.1 ==> !covers(edge, s[r.0]) && !covers(edge, s[r.1 - 1]),
{
    let i = lemma_trim_front_range(s, edge);
    let t = s.skip(i);
    let j = lemma_trim_back_range(t, edge);
    assert(t.take(j) =~= s.subrange(i, i + j));
    if j > 0 {
        assert(t[j - 1] == s[i + j - 1]);
    }
    (i, i + j)
}

proof fn lemma_trim_front_range(s: Seq<char>, edge: Edge) -> (i: int)
    ensures
        0 <= i <= s.len(),
        trim_front(s, edge) == s.skip(i),
        i < s.len() ==> !covers(edge, s[i]),
    decreases s.len(),
{
    if s.len() > 0 && covers(edge, s[0]) {
        let i = lemma_trim_front_range(s.skip(1), edge);
        assert(s.skip(1).skip(i) =~= s.skip(i + 1));
        i + 1
    } else {
        assert(s.skip(0) =~= s);
        0
    }
}

proof fn lemma_trim_back_range(s: Seq<char>, edge: Edge) -> (i: int)
    ensures
        0 <= i <= s.len(),
        trim_back(s, edge) == s.take(i),
        i > 0 ==> !covers(edge, s[i - 1]),
    decreases s.len(),
{
    if s.len() > 0 && covers(edge, s.last()) {
        let i = lemma_trim_back_range(s.drop_last(), edge);
        assert(s.drop_last().take(i) =~= s.take(i));
        i
    } else {
        assert(s.take(s.len() as int) =~= s);
        s.len() as int
    }
}

/// The characters of a text, by position.
pub fn chars_of(s: &str) -> (r: Vec<char>)
    ensures
        r@ == s@,
{
    let mut out: Vec<char> = Vec::new();
    for c in it: s.chars()
        invariant
            out@ == it.seq().take(it.index()),
            it.seq() == s@,
    {
        out.push(c);
    }
    out
}

/// The text of the characters from position `from` up to `to`.
pub fn text_between(chars: &Vec<char>, from: usize, to: usize) -> (r: String)
    requires
        from <= to <= chars@.len(),
    ensures
        r@ == chars@.subrange(from as int, to as int),
{
    let mut out: String = String::new();
    let mut i: usize = from;
    while i < to
        invariant
            from <= i <= to <= chars@.len(),
            out@ == chars@.subrange(from as int, i as int),
        decreases to - i,
    {
        out.push(chars[i]);
        i += 1;
        assert(chars@.subrange(from as int, i as int) =~= chars@.subrange(
            from as int,
            i - 1,
        ).push(chars@[i - 1]));
    }
    out
}

/// Whether the two slices hold the same text.
pub fn same(a: &str, b: &str) -> (r: bool)
    ensures
        r == (a@ == b@),
{
    let x: &[u8] = a.as_bytes();
    let y: &[u8] = b.as_bytes();
    if x.len() != y.len() {
        return false;
    }
    let mut i: usize = 0;
    while i < x.len()
        invariant
            i <= x@.len(),
            x@.len() == y@.len(),
            x@ == a.spec_bytes(),
            y@ == b.spec_bytes(),
            forall|j: int| 0 <= j < i ==> x@[j] == y@[j],
        decreases x@.len() - i,
    {
        if x[i] != y[i] {
            return false;
        }
        i += 1;
    }
    proof {
        assert(x@ =~= y@);
        vstd::utf8::encode_utf8_decode_utf8(a@);
        vstd::utf8::encode_utf8_decode_utf8(b@);
    }
    true
}

/// Whether `list` holds `text`.
pub fn holds(list: &Vec<String>, text: &str) -> (r: bool)
    ensures
        r == texts(list@).contains(text@),
{
    let mut i: usize = 0;
    while i < list.len()
        invariant
            i <= list@.len(),
            forall|j: int| 0 <= j < i ==> list@[j]@ != text@,
        decreases list@.len() - i,
    {
        if same(&list[i], text) {
            assert(texts(list@)[i as int] == text@);
            return true;
        }
        i += 1;
    }
    assert forall|j: int| 0 <= j < texts(list@).len() implies texts(list@)[j] != text@ by {
        assert(texts(list@)[j] == list@[j]@);
    }
    false
}

/// The two texts, one after the other.
pub fn cat2(a: &str, b: &str) -> (r: String)
    ensures
        r@ == a@ + b@,
{
    let mut out: String = a.to_owned();
    out.append(b);
    out
}

/// The three texts, one after the other.
pub fn cat3(a: &str, b: &str, c: &str) -> (r: String)
    ensures
        r@ == a@ + b@ + c@,
{
    let mut out: String = cat2(a, b);
    out.append(c);
    out
}

/// The four texts, one after the other.
pub fn cat4(a: &str, b: &str, c: &str, d: &str) -> (r: String)
    ensures
        r@ == a@ + b@ + c@ + d@,
{
    let mut out: String = cat3(a, b, c);
    out.append(d);
    out
}

/// The five texts, one after the other.
pub fn cat5(a: &str, b: &str, c: &str, d: &str, e: &str) -> (r: String)
    ensures
        r@ == a@ + b@ + c@ + d@ + e@,
{
    let mut out: String = cat4(a, b, c, d);
    out.append(e);
    out
}

/// Joins the parts with `sep` between neighbours.
pub fn join(parts: &Vec<String>, sep: &str) -> (r: String)
    ensures
        r@ == joined(texts(parts@), sep@),
{
    let mut out: String = String::new();
    let mut i: usize = 0;
    while i < parts.len()
        invariant
            i <= parts@.len(),
            out@ == joined(texts(parts@.take(i as int)), sep@),
        decreases parts@.len() - i,
    {
        if i > 0 {
            out.append(sep);
        }
        out.append(&parts[i]);
        proof {
            let before = texts(parts@.take(i as int));
            lemma_joined_push(before, parts@[i as int]@, sep@);
            assert(texts(parts@.take(i + 1)) =~= before.push(parts@[i as int]@));
        }
        i += 1;
    }
    assert(parts@.take(i as int) =~= parts@);
    out
}

/// Writes `unit` `n` times.
pub fn repeat(unit: &str, n: usize) -> (r: String)
    ensures
        r@ == repeated(unit@, n as nat),
{
    let mut out: String = String::new();
    let mut i: usize = 0;
    while i < n
        invariant
            i <= n,
            out@ == repeated(unit@, i as nat),
        decreases n - i,
    {
        out.append(unit);
        i += 1;
    }
    out
}

/// Whether `edge` covers the character.
pub fn is_covered(edge: Edge, c: char) -> (r: bool)
    ensures
        r == covers(edge, c),
{
    match edge {
        Edge::WhiteSpace => {
            let p: u32 = c as u32;
            (0x09 <= p && p <= 0x0d) || p == 0x20 || p == 0x85 || p == 0xa0 || p == 0x1680 || (
            0x2000 <= p && p <= 0x200a) || p == 0x2028 || p == 0x2029 || p == 0x202f || p == 0x205f
                || p == 0x3000
        },
        Edge::Dots => c == '.',
        Edge::Slashes => c == '/',
    }
}

/// Takes the covered characters off the end.
pub fn trimmed_back(s: &str, edge: Edge) -> (r: String)
    ensures
        r@ == trim_back(s@, edge),
{
    let chars: Vec<char> = chars_of(s);
    let end: usize = back_edge(&chars, 0, edge);
    proof {
        lemma_trim_back_at(s@, edge, end as int);
        assert(s@.take(end as int) =~= s@.subrange(0, end as int));
    }
    text_between(&chars, 0, end)
}

/// Takes the covered characters off both ends.
pub fn trimmed(s: &str, edge: Edge) -> (r: String)
    ensures
        r@ == trim(s@, edge),
{
    let chars: Vec<char> = chars_of(s);
    let mut start: usize = 0;
    while start < chars.len() && is_covered(edge, chars[start])
        invariant
            start <= chars@.len(),
            forall|j: int| 0 <= j < start ==> covers(edge, #[trigger] chars@[j]),
        decreases chars@.len() - start,
    {
        start += 1;
    }
    let end: usize = back_edge(&chars, start, edge);
    proof {
        lemma_trim_front_at(s@, edge, start as int);
        let t = s@.skip(start as int);
        assert forall|j: int| end - start <= j < t.len() implies covers(edge, #[trigger] t[j]) by {
            assert(t[j] == s@[start + j]);
        }
        if end > start {
            assert(t[end - start - 1] == s@[end - 1]);
        }
        lemma_trim_back_at(t, edge, end - start);
        assert(t.take(end - start) =~= s@.subrange(start as int, end as int));
    }
    text_between(&chars, start, end)
}

/// The position behind the last character, from `start` on, that `edge` does not cover.
fn back_edge(chars: &Vec<char>, start: usize, edge: Edge) -> (end: usize)
    requires
        start <= chars@.len(),
    ensures
        start <= end <= chars@.len(),
        forall|j: int| end <= j < chars@.len() ==> covers(edge, #[trigger] chars@[j]),
        end > start ==> !covers(edge, chars@[end - 1]),
{
    let mut end: usize = chars.len();
    while end > start && is_covered(edge, chars[end - 1])
        invariant
            start <= end <= chars@.len(),
            forall|j: int| end <= j < chars@.len() ==> covers(edge, #[trigger] chars@[j]),
        decreases end,
    {
        end -= 1;
    }
    end
}

/// Puts a part of a path behind the others, where it names something.
fn push_name(out: &mut Vec<String>, part: String)
    ensures
        texts(final(out)@) == if part@.len() == 0 || part@ == "."@ {
            texts(old(out)@)
        } else {
            texts(old(out)@).push(part@)
        },
{
    let ghost before = texts(out@);
    if !part.as_str().is_empty() && !same(&part, ".") {
        out.push(part);
        assert(texts(out@) =~= before.push(part@));
    }
}

/// Whether a path starts at the root of the file system.
pub fn starts_at_root(path: &str) -> (r: bool)
    ensures
        r == is_absolute(path@),
{
    let chars: Vec<char> = chars_of(path);
    chars.len() > 0 && chars[0] == '/'
}

/// Splits a path into the names that it is made of.
pub fn split_path(path: &str) -> (r: Vec<String>)
    ensures
        texts(r@) == components(path@),
{
    let chars: Vec<char> = chars_of(path);
    let mut out: Vec<String> = Vec::new();
    let mut part: String = String::new();
    let mut i: usize = 0;
    proof {
        assert(pieces(chars@.take(0)).drop_last() =~= Seq::empty());
        assert(texts(out@) =~= Seq::empty());
        assert(part@ =~= Seq::empty());
    }
    while i < chars.len()
        invariant
            i <= chars@.len(),
            pieces(chars@.take(i as int)).len() > 0,
            texts(out@) == naming(pieces(chars@.take(i as int)).drop_last()),
            part@ == pieces(chars@.take(i as int)).last(),
        decreases chars@.len() - i,
    {
        let ghost before = pieces(chars@.take(i as int));
        proof {
            let grown = chars@.take(i + 1);
            assert(grown.drop_last() =~= chars@.take(i as int));
            assert(grown.last() == chars@[i as int]);
            assert(before.push(Seq::empty()).drop_last() =~= before);
            assert(before.drop_last().push(before.last().push(chars@[i as int])).drop_last()
                =~= before.drop_last());
        }
        if chars[i] == '/' {
            push_name(&mut out, part);
            part = String::new();
            assert(part@ =~= Seq::empty());
        } else {
            part.push(chars[i]);
        }
        i += 1;
    }
    assert(chars@.take(i as int) =~= path@);
    push_name(&mut out, part);
    out
}

/// Writes a number in decimal.
pub fn to_decimal(n: usize) -> (r: String)
    ensures
        r@ == decimal(n as nat),
    decreases n,
{
    if n < 10 {
        let mut out: String = String::new();
        out.push((48u8 + n as u8) as char);
        out
    } else {
        let mut out: String = to_decimal(n / 10);
        out.push((48u8 + (n % 10) as u8) as char);
        out
    }
}

/// Whether `a` comes before `b`, or is equal to it, in the order of their code points.
pub fn comes_first(a: &str, b: &str) -> (r: bool)
    ensures
        r == precedes(a@, b@),
{
    let x: Vec<char> = chars_of(a);
    let y: Vec<char> = chars_of(b);
    let mut i: usize = 0;
    assert(a@.skip(0) =~= a@);
    assert(b@.skip(0) =~= b@);
    while i < x.len() && i < y.len()
        invariant
            i <= x@.len(),
            i <= y@.len(),
            x@ == a@,
            y@ == b@,
            precedes(a@, b@) == precedes(a@.skip(i as int), b@.skip(i as int)),
        decreases x@.len() - i,
    {
        assert(a@.skip(i as int).drop_first() =~= a@.skip(i + 1));
        assert(b@.skip(i as int).drop_first() =~= b@.skip(i + 1));
        if x[i] != y[i] {
            return x[i] < y[i];
        }
        i += 1;
    }
    i >= x.len()
}

/// `value`, unless it is empty: then `fallback`.
pub fn or_untitled(title: String, fallback: &str) -> (r: String)
    ensures
        r@ == or_default(title@, fallback@),
{
    if title.as_str().is_empty() {
        fallback.to_owned()
    } else {
        title
    }
}

} // verus!
