//! The texts that a rendered tree is made of: escaped values, link paths, tables, front matter and
//! CSV records.

use vstd::prelude::*;
use vstd::string::*;

use crate::json::{entry_views, Json, JsonView};
use crate::text::{
    cat2, cat3, cat4, cat5, chars_of, holds, join, joined, or_default, or_empty, or_untitled, same,
    texts,
};
use crate::util::{
    is_title, is_title_property, page_title, properties, properties_of, property_text,
    property_to_text, title_of_page,
};

verus! {

// ---------------------------------------------------------------------------
// Escaping
// ---------------------------------------------------------------------------
/// Where a value is going to stand.
#[derive(Clone, Copy)]
pub enum Escape {
    /// In a cell of a Markdown table: on one line, its bars escaped. No backslash that stands for
    /// itself may stand in front of a bar.
    Cell,
    /// In the text of a Markdown link: its brackets escaped. No backslash that stands for itself may
    /// stand in front of a bracket or at the end.
    Label,
    /// In a double-quoted YAML scalar: on one line, and all of it printable.
    Yaml,
    /// In a quoted CSV field: its quotes doubled.
    Csv,
}

/// Whether a character may not stand in a YAML text as it is, or breaks a line there.
pub open spec fn is_unprintable(c: char) -> bool {
    let p = c as u32;
    ||| p < 0x20 && p != 0x09
    ||| 0x7f <= p <= 0x9f
    ||| p == 0x2028
    ||| p == 0x2029
    ||| p == 0xfffe
    ||| p == 0xffff
}

/// The four hexadecimal digits of a number.
pub open spec fn hex_digits(p: nat) -> Seq<char> {
    seq![
        hex_digit(p / 4096 % 16),
        hex_digit(p / 256 % 16),
        hex_digit(p / 16 % 16),
        hex_digit(p % 16),
    ]
}

/// What stands for a character.
pub open spec fn escaped_char(c: char, place: Escape) -> Seq<char> {
    match place {
        Escape::Cell => if c == '\r' || c == '\n' {
            seq![' ']
        } else if c == '|' {
            seq!['\\', '|']
        } else {
            seq![c]
        },
        Escape::Label => if c == '[' || c == ']' {
            seq!['\\', c]
        } else {
            seq![c]
        },
        Escape::Yaml => if c == '\\' || c == '"' {
            seq!['\\', c]
        } else if c == '\r' {
            seq!['\\', 'r']
        } else if c == '\n' {
            seq!['\\', 'n']
        } else if c == '\t' {
            seq!['\\', 't']
        } else if is_unprintable(c) {
            seq!['\\', 'u'] + hex_digits(c as nat)
        } else {
            seq![c]
        },
        Escape::Csv => if c == '"' {
            seq!['"', '"']
        } else {
            seq![c]
        },
    }
}

/// What stands for a text.
pub open spec fn escaped(s: Seq<char>, place: Escape) -> Seq<char>
    decreases s.len(),
{
    if s.len() == 0 {
        Seq::empty()
    } else {
        escaped(s.drop_last(), place) + escaped_char(s.last(), place)
    }
}

/// Whether a character would end the place it stands in.
pub open spec fn is_stop(c: char, place: Escape) -> bool {
    match place {
        Escape::Cell => c == '|',
        Escape::Label => c == '[' || c == ']',
        _ => false,
    }
}

/// Whether a text starts with what would end its place, or with backslashes and then that. A label
/// ends with its text; a cell does not, as a blank follows.
pub open spec fn leads_to_stop(s: Seq<char>, place: Escape) -> bool
    decreases s.len(),
{
    if s.len() == 0 {
        place is Label
    } else {
        is_stop(s[0], place) || s[0] == '\\' && leads_to_stop(s.skip(1), place)
    }
}

/// A text with the backslashes in front of what would end its place doubled, so that they do not
/// take the meaning from what is written there.
pub open spec fn guarded(s: Seq<char>, place: Escape) -> Seq<char>
    decreases s.len(),
{
    if s.len() == 0 {
        Seq::empty()
    } else if s[0] == '\\' && leads_to_stop(s.skip(1), place) {
        seq!['\\', '\\'] + guarded(s.skip(1), place)
    } else {
        seq![s[0]] + guarded(s.skip(1), place)
    }
}

/// The text of a cell of a Markdown table.
pub open spec fn cell_text(s: Seq<char>) -> Seq<char> {
    escaped(guarded(s, Escape::Cell), Escape::Cell)
}

/// The text of a Markdown link.
pub open spec fn label_text(s: Seq<char>) -> Seq<char> {
    escaped(guarded(s, Escape::Label), Escape::Label)
}

/// A double-quoted YAML scalar.
pub open spec fn yaml_text(s: Seq<char>) -> Seq<char> {
    "\""@ + escaped(s, Escape::Yaml) + "\""@
}

/// Whether a CSV field needs quotes.
pub open spec fn needs_quotes(s: Seq<char>) -> bool {
    s.contains(',') || s.contains('"') || s.contains('\n') || s.contains('\r')
}

/// A CSV field.
pub open spec fn csv_text(s: Seq<char>) -> Seq<char> {
    if needs_quotes(s) {
        "\""@ + escaped(s, Escape::Csv) + "\""@
    } else {
        s
    }
}

/// A CSV record. One that is a single empty field is quoted, to tell it from a blank line.
pub open spec fn csv_record(fields: Seq<Seq<char>>) -> Seq<char> {
    if fields.len() == 1 && fields[0].len() == 0 {
        "\"\"\r\n"@
    } else {
        joined(fields.map_values(|f: Seq<char>| csv_text(f)), ","@) + "\r\n"@
    }
}

fn has_no_glyph(c: char) -> (r: bool)
    ensures
        r == is_unprintable(c),
{
    let p: u32 = c as u32;
    (p < 0x20 && p != 0x09) || (0x7f <= p && p <= 0x9f) || p == 0x2028 || p == 0x2029 || p == 0xfffe
        || p == 0xffff
}

fn push_digits(out: &mut String, p: u32)
    ensures
        final(out)@ == old(out)@ + hex_digits(p as nat),
{
    let ghost before = out@;
    out.push(hex_upper((p / 4096 % 16) as u8));
    out.push(hex_upper((p / 256 % 16) as u8));
    out.push(hex_upper((p / 16 % 16) as u8));
    out.push(hex_upper((p % 16) as u8));
    assert(out@ =~= before + hex_digits(p as nat));
}

fn push_escaped(out: &mut String, c: char, place: Escape)
    ensures
        final(out)@ == old(out)@ + escaped_char(c, place),
{
    let ghost before = out@;
    match place {
        Escape::Cell => {
            if c == '\r' || c == '\n' {
                out.push(' ');
            } else {
                if c == '|' {
                    out.push('\\');
                }
                out.push(c);
            }
        },
        Escape::Label => {
            if c == '[' || c == ']' {
                out.push('\\');
            }
            out.push(c);
        },
        Escape::Yaml => {
            if c == '\r' {
                out.push('\\');
                out.push('r');
            } else if c == '\n' {
                out.push('\\');
                out.push('n');
            } else if c == '\t' {
                out.push('\\');
                out.push('t');
            } else if has_no_glyph(c) {
                out.push('\\');
                out.push('u');
                push_digits(out, c as u32);
            } else {
                if c == '\\' || c == '"' {
                    out.push('\\');
                }
                out.push(c);
            }
        },
        Escape::Csv => {
            if c == '"' {
                out.push('"');
            }
            out.push(c);
        },
    }
    assert(out@ =~= before + escaped_char(c, place));
}

/// Escapes a text for its place.
pub fn escape(s: &str, place: Escape) -> (r: String)
    ensures
        r@ == escaped(s@, place),
{
    let chars: Vec<char> = chars_of(s);
    let mut out: String = String::new();
    let mut i: usize = 0;
    while i < chars.len()
        invariant
            i <= chars@.len(),
            out@ == escaped(chars@.take(i as int), place),
        decreases chars@.len() - i,
    {
        push_escaped(&mut out, chars[i], place);
        proof {
            let grown = chars@.take(i + 1);
            assert(grown.drop_last() =~= chars@.take(i as int));
            assert(grown.last() == chars@[i as int]);
        }
        i += 1;
    }
    assert(chars@.take(i as int) =~= s@);
    out
}

fn stops(c: char, place: Escape) -> (r: bool)
    ensures
        r == is_stop(c, place),
{
    match place {
        Escape::Cell => c == '|',
        Escape::Label => c == '[' || c == ']',
        _ => false,
    }
}

fn guard(text: &str, place: Escape) -> (r: String)
    ensures
        r@ == guarded(text@, place),
{
    let chars: Vec<char> = chars_of(text);
    let mut back: Vec<char> = Vec::new();
    let mut leads: bool = match place {
        Escape::Label => true,
        _ => false,
    };
    let mut i: usize = chars.len();
    proof {
        assert(chars@.skip(i as int).len() == 0);
        assert(back@.reverse() =~= guarded(chars@.skip(i as int), place));
    }
    while i > 0
        invariant
            i <= chars@.len(),
            back@.reverse() == guarded(chars@.skip(i as int), place),
            leads == leads_to_stop(chars@.skip(i as int), place),
        decreases i,
    {
        let ghost rest = back@.reverse();
        let c: char = chars[i - 1];
        proof {
            assert(chars@.skip(i - 1)[0] == c);
            assert(chars@.skip(i - 1).skip(1) =~= chars@.skip(i as int));
        }
        back.push(c);
        if c == '\\' && leads {
            back.push(c);
            assert(back@.reverse() =~= seq!['\\', '\\'] + rest);
        } else {
            assert(back@.reverse() =~= seq![c] + rest);
        }
        leads = stops(c, place) || (c == '\\' && leads);
        i -= 1;
    }
    assert(chars@.skip(0) =~= text@);
    let ghost whole = back@.reverse();
    let mut out: String = String::new();
    let mut n: usize = back.len();
    assert(out@ =~= whole.take(0));
    while n > 0
        invariant
            n <= back@.len(),
            whole == back@.reverse(),
            out@ == whole.take(back@.len() - n),
        decreases n,
    {
        out.push(back[n - 1]);
        n -= 1;
        assert(out@ =~= whole.take(back@.len() - n));
    }
    assert(whole.take(back@.len() as int) =~= whole);
    out
}

/// Escapes a value for use inside a Markdown table cell.
pub fn cell(text: &str) -> (r: String)
    ensures
        r@ == cell_text(text@),
{
    escape(&guard(text, Escape::Cell), Escape::Cell)
}

/// Escapes brackets so that a value is safe as Markdown link text.
pub fn md_label(text: &str) -> (r: String)
    ensures
        r@ == label_text(text@),
{
    escape(&guard(text, Escape::Label), Escape::Label)
}

/// Renders a value as a safely double-quoted YAML scalar: on one line, and without a character that
/// YAML does not take as it is.
pub fn yaml_scalar(value: &str) -> (r: String)
    ensures
        r@ == yaml_text(value@),
{
    cat3("\"", &escape(value, Escape::Yaml), "\"")
}

/// Renders one CSV field, quoted where that is needed.
pub fn csv_field(field: &str) -> (r: String)
    ensures
        r@ == csv_text(field@),
{
    let chars: Vec<char> = chars_of(field);
    let mut quote: bool = false;
    let mut i: usize = 0;
    while i < chars.len()
        invariant
            i <= chars@.len(),
            quote == needs_quotes(chars@.take(i as int)),
        decreases chars@.len() - i,
    {
        let c: char = chars[i];
        proof {
            let before = chars@.take(i as int);
            let grown = chars@.take(i + 1);
            assert(grown =~= before.push(c));
            lemma_contains_push(before, c, ',');
            lemma_contains_push(before, c, '"');
            lemma_contains_push(before, c, '\n');
            lemma_contains_push(before, c, '\r');
        }
        quote = quote || c == ',' || c == '"' || c == '\n' || c == '\r';
        i += 1;
    }
    assert(chars@.take(i as int) =~= field@);
    if quote {
        cat3("\"", &escape(field, Escape::Csv), "\"")
    } else {
        field.to_owned()
    }
}

proof fn lemma_contains_push(s: Seq<char>, c: char, x: char)
    ensures
        s.push(c).contains(x) == (s.contains(x) || c == x),
{
    let t = s.push(c);
    if s.contains(x) {
        let k = choose|k: int| 0 <= k < s.len() && s[k] == x;
        assert(t[k] == x);
    }
    if c == x {
        assert(t[s.len() as int] == x);
    }
    if t.contains(x) && c != x {
        let k = choose|k: int| 0 <= k < t.len() && t[k] == x;
        assert(s[k] == x);
    }
}

/// Formats one CSV record as CSV writers do by default: closed by `\r\n`, a field quoted only where
/// its text needs it, the quotes in it doubled, and a record of one empty field written as `""`.
pub fn csv_row(fields: &Vec<String>) -> (r: String)
    ensures
        r@ == csv_record(texts(fields@)),
{
    assert(texts(fields@).len() == fields@.len());
    if fields.len() == 1 && fields[0].as_str().is_empty() {
        assert(texts(fields@)[0].len() == 0);
        return "\"\"\r\n".to_owned();
    }
    assert(fields@.len() == 1 ==> texts(fields@)[0].len() != 0);
    let mut parts: Vec<String> = Vec::new();
    let mut i: usize = 0;
    while i < fields.len()
        invariant
            i <= fields@.len(),
            parts@.len() == i,
            forall|j: int| 0 <= j < i ==> (#[trigger] parts@[j])@ == csv_text(fields@[j]@),
        decreases fields@.len() - i,
    {
        parts.push(csv_field(&fields[i]));
        i += 1;
    }
    assert(texts(parts@) =~= texts(fields@).map_values(|f: Seq<char>| csv_text(f)));
    cat2(&join(&parts, ","), "\r\n")
}

// ---------------------------------------------------------------------------
// Links
// ---------------------------------------------------------------------------
/// Whether a byte of a link path stands for itself.
pub open spec fn is_kept(b: u8) -> bool {
    ||| 48 <= b <= 57
    ||| 65 <= b <= 90
    ||| 97 <= b <= 122
    ||| b == 95
    ||| b == 46
    ||| b == 45
    ||| b == 126
    ||| b == 47
}

/// The hexadecimal digit for a number below sixteen, in upper case.
pub open spec fn hex_digit(d: nat) -> char {
    if d < 10 {
        (48 + d) as char
    } else {
        (55 + d) as char
    }
}

/// What stands for a byte.
pub open spec fn encoded_byte(b: u8) -> Seq<char> {
    if is_kept(b) {
        seq![b as char]
    } else {
        seq!['%', hex_digit(b as nat / 16), hex_digit(b as nat % 16)]
    }
}

/// What stands for the bytes.
pub open spec fn encoded_bytes(bytes: Seq<u8>) -> Seq<char>
    decreases bytes.len(),
{
    if bytes.len() == 0 {
        Seq::empty()
    } else {
        encoded_bytes(bytes.drop_last()) + encoded_byte(bytes.last())
    }
}

/// A link path with every byte that is not safe written as `%` and two digits.
pub open spec fn encoded(path: Seq<char>) -> Seq<char> {
    encoded_bytes(vstd::utf8::encode_utf8(path))
}

/// How many leading components two paths share.
pub open spec fn shared(a: Seq<Seq<char>>, b: Seq<Seq<char>>) -> nat
    decreases a.len(),
{
    if a.len() > 0 && b.len() > 0 && a[0] == b[0] {
        1 + shared(a.skip(1), b.skip(1))
    } else {
        0
    }
}

/// The components of the way from a directory to a target: up to the last directory that both have,
/// then down.
pub open spec fn way(from: Seq<Seq<char>>, to: Seq<Seq<char>>) -> Seq<Seq<char>> {
    let common = shared(from, to);
    Seq::new((from.len() - common) as nat, |i: int| ".."@) + to.skip(common as int)
}

/// The way from a directory to a target as a text.
pub open spec fn relative(from: Seq<Seq<char>>, to: Seq<Seq<char>>) -> Seq<char> {
    if way(from, to).len() == 0 {
        "."@
    } else {
        joined(way(from, to), "/"@)
    }
}

fn hex_upper(d: u8) -> (r: char)
    requires
        d < 16,
    ensures
        r == hex_digit(d as nat),
{
    if d < 10 {
        (48u8 + d) as char
    } else {
        (55u8 + d) as char
    }
}

/// Percent-encodes a relative link path so that blanks and specials are Markdown-safe.
pub fn encode_path(path: &str) -> (r: String)
    ensures
        r@ == encoded(path@),
{
    let bytes: &[u8] = path.as_bytes();
    let mut out: String = String::new();
    let mut i: usize = 0;
    while i < bytes.len()
        invariant
            i <= bytes@.len(),
            out@ == encoded_bytes(bytes@.take(i as int)),
        decreases bytes@.len() - i,
    {
        let b: u8 = bytes[i];
        let ghost before = out@;
        proof {
            let grown = bytes@.take(i + 1);
            assert(grown.drop_last() =~= bytes@.take(i as int));
            assert(grown.last() == b);
        }
        if (48 <= b && b <= 57) || (65 <= b && b <= 90) || (97 <= b && b <= 122) || b == 95 || b
            == 46 || b == 45 || b == 126 || b == 47 {
            out.push(b as char);
        } else {
            out.push('%');
            out.push(hex_upper(b / 16));
            out.push(hex_upper(b % 16));
        }
        assert(out@ =~= before + encoded_byte(b));
        i += 1;
    }
    assert(bytes@.take(i as int) =~= bytes@);
    out
}

proof fn lemma_shared_at(a: Seq<Seq<char>>, b: Seq<Seq<char>>, i: int)
    requires
        0 <= i <= a.len(),
        i <= b.len(),
        forall|j: int| 0 <= j < i ==> #[trigger] a[j] == b[j],
        i < a.len() && i < b.len() ==> a[i] != b[i],
    ensures
        shared(a, b) == i,
    decreases i,
{
    if i > 0 {
        assert(a[0] == b[0]);
        let x = a.skip(1);
        let y = b.skip(1);
        assert forall|j: int| 0 <= j < i - 1 implies #[trigger] x[j] == y[j] by {
            assert(x[j] == a[j + 1]);
        }
        lemma_shared_at(x, y, i - 1);
    }
}

/// Computes a relative path from a directory to a target, with `/` between the components.
pub fn relative_path(base: &Vec<String>, target: &Vec<String>) -> (r: String)
    ensures
        r@ == relative(texts(base@), texts(target@)),
{
    let ghost from = texts(base@);
    let ghost to = texts(target@);
    let mut common: usize = 0;
    while common < base.len() && common < target.len() && same(&base[common], &target[common])
        invariant
            common <= base@.len(),
            common <= target@.len(),
            from == texts(base@),
            to == texts(target@),
            forall|j: int| 0 <= j < common ==> #[trigger] from[j] == to[j],
        decreases base@.len() - common,
    {
        assert(from[common as int] == to[common as int]);
        common += 1;
    }
    proof {
        lemma_shared_at(from, to, common as int);
    }
    let mut parts: Vec<String> = Vec::new();
    let mut i: usize = common;
    while i < base.len()
        invariant
            common <= i <= base@.len(),
            parts@.len() == i - common,
            forall|j: int| 0 <= j < parts@.len() ==> (#[trigger] parts@[j])@ == ".."@,
        decreases base@.len() - i,
    {
        parts.push("..".to_owned());
        i += 1;
    }
    let ghost up = parts@.len();
    i = common;
    while i < target.len()
        invariant
            common <= i <= target@.len(),
            parts@.len() == up + i - common,
            forall|j: int| 0 <= j < up ==> (#[trigger] parts@[j])@ == ".."@,
            forall|j: int|
                up <= j < parts@.len() ==> (#[trigger] parts@[j])@ == target@[j - up + common]@,
        decreases target@.len() - i,
    {
        parts.push(target[i].clone());
        i += 1;
    }
    assert(texts(parts@) =~= way(from, to));
    if parts.len() == 0 {
        ".".to_owned()
    } else {
        join(&parts, "/")
    }
}

// ---------------------------------------------------------------------------
// Tables
// ---------------------------------------------------------------------------
/// The columns with one more, unless it is there already.
pub open spec fn with_column(columns: Seq<Seq<char>>, name: Seq<char>) -> Seq<Seq<char>> {
    if columns.contains(name) {
        columns
    } else {
        columns.push(name)
    }
}

/// The columns with those of one object. Title properties count only where `titles`.
pub open spec fn with_columns(
    columns: Seq<Seq<char>>,
    props: Seq<(Seq<char>, JsonView)>,
    titles: bool,
) -> Seq<Seq<char>>
    decreases props.len(),
{
    if props.len() == 0 {
        columns
    } else {
        let before = with_columns(columns, props.drop_last(), titles);
        if !titles && is_title(props.last().1) {
            before
        } else {
            with_column(before, props.last().0)
        }
    }
}

/// The property names over all objects, each at its first occurrence.
pub open spec fn columns_of(data: Seq<JsonView>, titles: bool) -> Seq<Seq<char>>
    decreases data.len(),
{
    if data.len() == 0 {
        Seq::empty()
    } else {
        with_columns(
            columns_of(data.drop_last(), titles),
            properties(data.last()),
            titles,
        )
    }
}

/// The text of a property; empty where the object does not have it.
pub open spec fn value_in(data: JsonView, name: Seq<char>) -> Seq<char> {
    match data.get("properties"@) {
        Some(props) => match props.get(name) {
            Some(prop) => property_text(prop),
            None => Seq::empty(),
        },
        None => Seq::empty(),
    }
}

/// The texts of the properties, column by column.
pub open spec fn values_in(data: JsonView, columns: Seq<Seq<char>>) -> Seq<Seq<char>> {
    columns.map_values(|c: Seq<char>| value_in(data, c))
}

/// One line of a Markdown table.
pub open spec fn bar_line(cells: Seq<Seq<char>>) -> Seq<char> {
    "| "@ + joined(cells, " | "@) + " |"@
}

/// Every text escaped for a table cell.
pub open spec fn in_cells(list: Seq<Seq<char>>) -> Seq<Seq<char>> {
    list.map_values(|t: Seq<char>| cell_text(t))
}

/// The link to the page of a row.
pub open spec fn row_link(name: Seq<char>, data: JsonView) -> Seq<char> {
    let title = or_default(title_of_page(data), "Untitled"@);
    "["@ + label_text(cell_text(title)) + "]("@ + encoded(
        name + "/index.md"@,
    ) + ")"@
}

/// The data of the rows, without their names.
pub open spec fn row_data(rows: Seq<(Seq<char>, JsonView)>) -> Seq<JsonView> {
    rows.map_values(|r: (Seq<char>, JsonView)| r.1)
}

/// The lines of the table of some rows.
pub open spec fn row_lines(rows: Seq<(Seq<char>, JsonView)>) -> Seq<Seq<char>> {
    let columns = columns_of(row_data(rows), false);
    let header = seq!["Name"@] + columns;
    seq![
        bar_line(in_cells(header)),
        bar_line(header.map_values(|h: Seq<char>| "---"@)),
    ] + rows.map_values(
        |row: (Seq<char>, JsonView)|
            bar_line(seq![row_link(row.0, row.1)] + in_cells(values_in(row.1, columns))),
    )
}

/// The rows of a database as a Markdown table.
pub open spec fn rows_md(rows: Seq<(Seq<char>, JsonView)>) -> Seq<char> {
    if rows.len() == 0 {
        "_No rows._"@
    } else {
        joined(row_lines(rows), "\n"@)
    }
}

/// The records, one after the other.
pub open spec fn csv_records(records: Seq<Seq<Seq<char>>>) -> Seq<char>
    decreases records.len(),
{
    if records.len() == 0 {
        Seq::empty()
    } else {
        csv_records(records.drop_last()) + csv_record(records.last())
    }
}

/// The header and the rows of a CSV index.
pub open spec fn csv_cells(data: Seq<JsonView>) -> Seq<Seq<Seq<char>>> {
    let columns = columns_of(data, true);
    seq![seq!["_url"@] + columns] + data.map_values(
        |row: JsonView| seq![or_empty(row.text_at("url"@))] + values_in(row, columns),
    )
}

/// The CSV index of the rows of a database; empty where there is no row.
pub open spec fn csv_index(data: Seq<JsonView>) -> Seq<char> {
    if data.len() == 0 {
        Seq::empty()
    } else {
        csv_records(csv_cells(data))
    }
}

fn add_columns(columns: Vec<String>, data: &Json, titles: bool) -> (r: Vec<String>)
    ensures
        texts(r@) == with_columns(texts(columns@), properties(data@), titles),
{
    let ghost start = texts(columns@);
    let mut out: Vec<String> = columns;
    if let Some(props) = properties_of(data) {
        let ghost all = props@;
        let mut i: usize = 0;
        assert(all.take(0).len() == 0);
        while i < props.len()
            invariant
                i <= props@.len(),
                all == props@,
                texts(out@) == with_columns(start, all.take(i as int), titles),
            decreases props@.len() - i,
        {
            let ghost before = texts(out@);
            proof {
                let grown = all.take(i + 1);
                assert(grown.drop_last() =~= all.take(i as int));
                assert(grown.last() == all[i as int]);
            }
            if titles || !is_title_property(props.value(i)) {
                let name: &str = props.key(i);
                if !holds(&out, name) {
                    out.push(name.to_owned());
                    assert(texts(out@) =~= before.push(name@));
                }
            }
            i += 1;
        }
        assert(all.take(i as int) =~= all);
    }
    out
}

/// The ordered union of property names across all rows. Title properties count only where
/// `titles`.
pub fn value_columns(rows: &Vec<(String, Json)>, titles: bool) -> (r: Vec<String>)
    ensures
        texts(r@) == columns_of(row_data(entry_views(rows@)), titles),
{
    let ghost all = row_data(entry_views(rows@));
    let mut out: Vec<String> = Vec::new();
    let mut i: usize = 0;
    assert(texts(out@) =~= columns_of(all.take(0), titles));
    while i < rows.len()
        invariant
            i <= rows@.len(),
            all == row_data(entry_views(rows@)),
            texts(out@) == columns_of(all.take(i as int), titles),
        decreases rows@.len() - i,
    {
        proof {
            let grown = all.take(i + 1);
            assert(grown.drop_last() =~= all.take(i as int));
            assert(grown.last() == rows@[i as int].1@);
        }
        out = add_columns(out, &rows[i].1, titles);
        i += 1;
    }
    assert(all.take(i as int) =~= all);
    out
}

fn value_of(data: &Json, name: &str) -> (r: String)
    ensures
        r@ == value_in(data@, name@),
{
    match data.get("properties") {
        Some(props) => match props.get(name) {
            Some(prop) => property_to_text(prop),
            None => String::new(),
        },
        None => String::new(),
    }
}

fn bars(cells: &Vec<String>) -> (r: String)
    ensures
        r@ == bar_line(texts(cells@)),
{
    cat3("| ", &join(cells, " | "), " |")
}

fn link_to_row(name: &str, data: &Json) -> (r: String)
    ensures
        r@ == row_link(name@, data@),
{
    let title: String = or_untitled(page_title(data), "Untitled");
    let link: String = encode_path(&cat2(name, "/index.md"));
    cat5("[", &md_label(&cell(&title)), "](", &link, ")")
}

fn row_line(name: &str, data: &Json, columns: &Vec<String>) -> (r: String)
    ensures
        r@ == bar_line(
            seq![row_link(name@, data@)] + in_cells(values_in(data@, texts(columns@))),
        ),
{
    let mut cells: Vec<String> = Vec::new();
    cells.push(link_to_row(name, data));
    let mut i: usize = 0;
    while i < columns.len()
        invariant
            i <= columns@.len(),
            cells@.len() == i + 1,
            cells@[0]@ == row_link(name@, data@),
            forall|j: int|
                1 <= j <= i ==> (#[trigger] cells@[j])@ == cell_text(
                    value_in(data@, columns@[j - 1]@),
                ),
        decreases columns@.len() - i,
    {
        cells.push(cell(&value_of(data, &columns[i])));
        i += 1;
    }
    assert(texts(cells@) =~= seq![row_link(name@, data@)] + in_cells(
        values_in(data@, texts(columns@)),
    ));
    bars(&cells)
}

fn header_lines(columns: &Vec<String>) -> (r: Vec<String>)
    ensures
        texts(r@) == ({
            let header = seq!["Name"@] + texts(columns@);
            seq![
                bar_line(in_cells(header)),
                bar_line(header.map_values(|h: Seq<char>| "---"@)),
            ]
        }),
{
    let ghost header = seq!["Name"@] + texts(columns@);
    let mut names: Vec<String> = Vec::new();
    let mut rules: Vec<String> = Vec::new();
    names.push(cell("Name"));
    rules.push("---".to_owned());
    let mut i: usize = 0;
    while i < columns.len()
        invariant
            i <= columns@.len(),
            header == seq!["Name"@] + texts(columns@),
            names@.len() == i + 1,
            rules@.len() == i + 1,
            forall|j: int|
                0 <= j <= i ==> (#[trigger] names@[j])@ == cell_text(header[j]),
            forall|j: int| 0 <= j <= i ==> (#[trigger] rules@[j])@ == "---"@,
        decreases columns@.len() - i,
    {
        names.push(cell(&columns[i]));
        rules.push("---".to_owned());
        i += 1;
    }
    assert(texts(names@) =~= in_cells(header));
    assert(texts(rules@) =~= header.map_values(|h: Seq<char>| "---"@));
    let mut out: Vec<String> = Vec::new();
    out.push(bars(&names));
    out.push(bars(&rules));
    assert(texts(out@) =~= seq![
        bar_line(in_cells(header)),
        bar_line(header.map_values(|h: Seq<char>| "---"@)),
    ]);
    out
}

/// Renders database rows as a Markdown table, linking each row to its page.
pub fn render_table(rows: &Vec<(String, Json)>) -> (r: String)
    ensures
        r@ == rows_md(entry_views(rows@)),
{
    if rows.len() == 0 {
        return "_No rows._".to_owned();
    }
    let ghost all = entry_views(rows@);
    let columns: Vec<String> = value_columns(rows, false);
    let mut lines: Vec<String> = header_lines(&columns);
    let ghost wanted = row_lines(all);
    let mut i: usize = 0;
    assert(texts(lines@) =~= wanted.take(2));
    while i < rows.len()
        invariant
            i <= rows@.len(),
            all == entry_views(rows@),
            texts(columns@) == columns_of(row_data(all), false),
            wanted == row_lines(all),
            texts(lines@) == wanted.take(i + 2),
        decreases rows@.len() - i,
    {
        let ghost before = texts(lines@);
        let line: String = row_line(&rows[i].0, &rows[i].1, &columns);
        let ghost l = line@;
        lines.push(line);
        assert(texts(lines@) =~= before.push(l));
        assert(all[i as int] == (rows@[i as int].0@, rows@[i as int].1@));
        assert(wanted[i + 2] == l);
        i += 1;
        assert(wanted.take(i + 2) =~= before.push(l));
    }
    assert(wanted.take(i + 2) =~= wanted);
    join(&lines, "\n")
}

/// The text of the CSV index of database rows: a column for the URL, then one for every property
/// that some row has.
pub fn csv_of_rows(rows: &Vec<(String, Json)>) -> (r: String)
    ensures
        r@ == csv_index(row_data(entry_views(rows@))),
{
    if rows.len() == 0 {
        return String::new();
    }
    let ghost data = row_data(entry_views(rows@));
    let columns: Vec<String> = value_columns(rows, true);
    let ghost wanted = csv_cells(data);
    let mut header: Vec<String> = Vec::new();
    header.push("_url".to_owned());
    let mut i: usize = 0;
    while i < columns.len()
        invariant
            i <= columns@.len(),
            header@.len() == i + 1,
            header@[0]@ == "_url"@,
            forall|j: int| 1 <= j <= i ==> (#[trigger] header@[j])@ == columns@[j - 1]@,
        decreases columns@.len() - i,
    {
        header.push(columns[i].clone());
        i += 1;
    }
    assert(texts(header@) =~= seq!["_url"@] + texts(columns@));
    let mut out: String = csv_row(&header);
    proof {
        assert(wanted.take(1).drop_last() =~= Seq::empty());
        assert(csv_records(wanted.take(1).drop_last()) =~= Seq::empty());
        assert(wanted.take(1).last() == wanted[0]);
        assert(out@ =~= Seq::<char>::empty() + csv_record(wanted[0]));
    }
    let mut n: usize = 0;
    while n < rows.len()
        invariant
            n <= rows@.len(),
            data == row_data(entry_views(rows@)),
            texts(columns@) == columns_of(data, true),
            wanted == csv_cells(data),
            out@ == csv_records(wanted.take(n + 1)),
        decreases rows@.len() - n,
    {
        let record: Vec<String> = csv_of_row(&rows[n].1, &columns);
        proof {
            let grown = wanted.take(n + 2);
            assert(grown.drop_last() =~= wanted.take(n + 1));
            assert(data[n as int] == rows@[n as int].1@);
            assert(grown.last() == texts(record@));
        }
        out.append(&csv_row(&record));
        n += 1;
    }
    assert(wanted.take(n + 1) =~= wanted);
    out
}

fn csv_of_row(row: &Json, columns: &Vec<String>) -> (r: Vec<String>)
    ensures
        texts(r@) == seq![or_empty(row@.text_at("url"@))] + values_in(row@, texts(columns@)),
{
    let mut out: Vec<String> = Vec::new();
    out.push(field_text(row, "url"));
    let mut i: usize = 0;
    while i < columns.len()
        invariant
            i <= columns@.len(),
            out@.len() == i + 1,
            out@[0]@ == or_empty(row@.text_at("url"@)),
            forall|j: int|
                1 <= j <= i ==> (#[trigger] out@[j])@ == value_in(row@, columns@[j - 1]@),
        decreases columns@.len() - i,
    {
        out.push(value_of(row, &columns[i]));
        i += 1;
    }
    assert(texts(out@) =~= seq![or_empty(row@.text_at("url"@))] + values_in(
        row@,
        texts(columns@),
    ));
    out
}

fn field_text(data: &Json, key: &str) -> (r: String)
    ensures
        r@ == or_empty(data@.text_at(key@)),
{
    match data.text_at(key) {
        Some(t) => t.to_owned(),
        None => String::new(),
    }
}

// ---------------------------------------------------------------------------
// Front matter
// ---------------------------------------------------------------------------
/// A line of front matter for a field of an object.
pub open spec fn field_line(data: JsonView, key: Seq<char>) -> Seq<char> {
    key + ": "@ + yaml_text(or_empty(data.text_at(key)))
}

/// The lines of front matter for the properties, but for the title.
pub open spec fn property_lines(props: Seq<(Seq<char>, JsonView)>) -> Seq<Seq<char>>
    decreases props.len(),
{
    if props.len() == 0 {
        Seq::empty()
    } else {
        let before = property_lines(props.drop_last());
        if is_title(props.last().1) {
            before
        } else {
            before.push(
                "  "@ + yaml_text(props.last().0) + ": "@ + yaml_text(
                    property_text(props.last().1),
                ),
            )
        }
    }
}

/// The section of the properties. Pages carry property values; databases hold only a schema.
pub open spec fn property_section(data: JsonView) -> Seq<Seq<char>> {
    let lines = property_lines(properties(data));
    if data.text_at("object"@) == Some("page"@) && lines.len() > 0 {
        seq!["properties:"@] + lines
    } else {
        Seq::empty()
    }
}

/// The front matter of an object.
pub open spec fn front_matter_text(data: JsonView, title: Seq<char>) -> Seq<char> {
    joined(
        seq![
            "---"@,
            "title: "@ + yaml_text(title),
            field_line(data, "id"@),
            field_line(data, "object"@),
            field_line(data, "url"@),
            field_line(data, "created_time"@),
            field_line(data, "last_edited_time"@),
        ] + property_section(data) + seq!["---"@],
        "\n"@,
    )
}

fn line_for(data: &Json, key: &str) -> (r: String)
    ensures
        r@ == field_line(data@, key@),
{
    cat3(key, ": ", &yaml_scalar(&field_text(data, key)))
}

fn lines_for(data: &Json) -> (r: Vec<String>)
    ensures
        texts(r@) == property_lines(properties(data@)),
{
    let mut out: Vec<String> = Vec::new();
    assert(texts(out@) =~= Seq::empty());
    if let Some(props) = properties_of(data) {
        let ghost all = props@;
        let mut i: usize = 0;
        while i < props.len()
            invariant
                i <= props@.len(),
                all == props@,
                texts(out@) == property_lines(all.take(i as int)),
            decreases props@.len() - i,
        {
            let ghost before = texts(out@);
            proof {
                let grown = all.take(i + 1);
                assert(grown.drop_last() =~= all.take(i as int));
                assert(grown.last() == all[i as int]);
            }
            if !is_title_property(props.value(i)) {
                let line: String = cat4(
                    "  ",
                    &yaml_scalar(props.key(i)),
                    ": ",
                    &yaml_scalar(&property_to_text(props.value(i))),
                );
                let ghost l = line@;
                out.push(line);
                assert(texts(out@) =~= before.push(l));
            }
            i += 1;
        }
        assert(all.take(i as int) =~= all);
    }
    out
}

/// Renders the YAML front matter of an object.
pub fn front_matter(data: &Json, title: &str) -> (r: String)
    ensures
        r@ == front_matter_text(data@, title@),
{
    let mut lines: Vec<String> = Vec::new();
    lines.push("---".to_owned());
    lines.push(cat2("title: ", &yaml_scalar(title)));
    lines.push(line_for(data, "id"));
    lines.push(line_for(data, "object"));
    lines.push(line_for(data, "url"));
    lines.push(line_for(data, "created_time"));
    lines.push(line_for(data, "last_edited_time"));
    let ghost top = seq![
        "---"@,
        "title: "@ + yaml_text(title@),
        field_line(data@, "id"@),
        field_line(data@, "object"@),
        field_line(data@, "url"@),
        field_line(data@, "created_time"@),
        field_line(data@, "last_edited_time"@),
    ];
    assert(texts(lines@) =~= top);
    let is_page: bool = match data.text_at("object") {
        Some(kind) => same(kind, "page"),
        None => false,
    };
    if is_page {
        let mut props: Vec<String> = lines_for(data);
        assert(texts(props@).len() == props@.len());
        if props.len() > 0 {
            let ghost p = texts(props@);
            lines.push("properties:".to_owned());
            lines.append(&mut props);
            assert(texts(lines@) =~= top + (seq!["properties:"@] + p));
        }
    }
    assert(texts(lines@) =~= top + property_section(data@));
    lines.push("---".to_owned());
    assert(texts(lines@) =~= top + property_section(data@) + seq!["---"@]);
    join(&lines, "\n")
}

} // verus!
