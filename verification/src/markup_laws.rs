//! What holds of the texts of a rendered tree: they can be read back.

use vstd::prelude::*;

use crate::json::JsonView;
use crate::markup::{
    bar_line, cell_text, columns_of, csv_cells, csv_index, csv_record, csv_records, csv_text,
    encoded, encoded_byte, encoded_bytes, escaped, escaped_char, guarded, hex_digit, hex_digits,
    in_cells, is_kept, is_unprintable, label_text, leads_to_stop, needs_quotes, row_data, row_lines,
    row_link, shared, values_in, way, yaml_text, Escape,
};
use crate::text::{joined, or_default};
use crate::util::title_of_page;

verus! {

// ---------------------------------------------------------------------------
// CSV
// ---------------------------------------------------------------------------
/// Where a reader of CSV stands.
pub enum CsvMode {
    /// At the start of a field.
    Start,
    /// In a field without quotes.
    Plain,
    /// In a quoted field.
    Quoted,
    /// Behind a quote in a quoted field: the field is at its end, or a quote follows.
    Closing,
    /// Behind the carriage return that ends a record.
    Return,
}

/// A reader of CSV as RFC 4180 has it: the records so far, the fields of the record at hand, and the
/// field at hand.
pub struct CsvReader {
    pub records: Seq<Seq<Seq<char>>>,
    pub fields: Seq<Seq<char>>,
    pub field: Seq<char>,
    pub mode: CsvMode,
}

impl CsvReader {
    /// Behind the end of a field.
    pub open spec fn next_field(self) -> CsvReader {
        CsvReader {
            fields: self.fields.push(self.field),
            field: Seq::empty(),
            mode: CsvMode::Start,
            ..self
        }
    }

    /// With one more character in the field.
    pub open spec fn grown(self, c: char, mode: CsvMode) -> CsvReader {
        CsvReader { field: self.field.push(c), mode, ..self }
    }

    /// Behind one more character.
    pub open spec fn step(self, c: char) -> CsvReader {
        match self.mode {
            CsvMode::Start => if c == '"' {
                CsvReader { mode: CsvMode::Quoted, ..self }
            } else if c == ',' {
                self.next_field()
            } else if c == '\r' {
                CsvReader { mode: CsvMode::Return, ..self }
            } else {
                self.grown(c, CsvMode::Plain)
            },
            CsvMode::Plain => if c == ',' {
                self.next_field()
            } else if c == '\r' {
                CsvReader { mode: CsvMode::Return, ..self }
            } else {
                self.grown(c, CsvMode::Plain)
            },
            CsvMode::Quoted => if c == '"' {
                CsvReader { mode: CsvMode::Closing, ..self }
            } else {
                self.grown(c, CsvMode::Quoted)
            },
            CsvMode::Closing => if c == '"' {
                self.grown(c, CsvMode::Quoted)
            } else if c == ',' {
                self.next_field()
            } else if c == '\r' {
                CsvReader { mode: CsvMode::Return, ..self }
            } else {
                self.grown(c, CsvMode::Plain)
            },
            CsvMode::Return => CsvReader {
                records: self.records.push(self.fields.push(self.field)),
                fields: Seq::empty(),
                field: Seq::empty(),
                mode: CsvMode::Start,
            },
        }
    }

    /// Behind a text.
    pub open spec fn read(self, s: Seq<char>) -> CsvReader
        decreases s.len(),
    {
        if s.len() == 0 {
            self
        } else {
            self.read(s.drop_last()).step(s.last())
        }
    }
}

/// A reader at the start of a record.
pub open spec fn csv_reader(records: Seq<Seq<Seq<char>>>) -> CsvReader {
    CsvReader { records, fields: Seq::empty(), field: Seq::empty(), mode: CsvMode::Start }
}

proof fn lemma_csv_read_cat(r: CsvReader, a: Seq<char>, b: Seq<char>)
    ensures
        r.read(a + b) == r.read(a).read(b),
    decreases b.len(),
{
    if b.len() == 0 {
        assert(a + b =~= a);
    } else {
        assert((a + b).drop_last() =~= a + b.drop_last());
        lemma_csv_read_cat(r, a, b.drop_last());
    }
}

proof fn lemma_csv_read_one(r: CsvReader, c: char)
    ensures
        r.read(seq![c]) == r.step(c),
{
    let s = seq![c];
    assert(s.drop_last() =~= Seq::empty());
    assert(r.read(s.drop_last()) == r);
}

proof fn lemma_csv_quoted(r: CsvReader, s: Seq<char>)
    requires
        r.mode is Quoted,
        r.field.len() == 0,
    ensures
        r.read(escaped(s, Escape::Csv)) == (CsvReader { field: s, ..r }),
    decreases s.len(),
{
    if s.len() == 0 {
        assert(r.field =~= s);
    } else {
        let front = s.drop_last();
        let c = s.last();
        lemma_csv_quoted(r, front);
        lemma_csv_read_cat(r, escaped(front, Escape::Csv), escaped_char(c, Escape::Csv));
        let mid = CsvReader { field: front, ..r };
        if c == '"' {
            assert(escaped_char(c, Escape::Csv) =~= seq!['"'] + seq!['"']);
            lemma_csv_read_cat(mid, seq!['"'], seq!['"']);
            lemma_csv_read_one(mid, '"');
            lemma_csv_read_one(mid.step('"'), '"');
        } else {
            lemma_csv_read_one(mid, c);
        }
        assert(front.push(c) =~= s);
    }
}

proof fn lemma_csv_plain(r: CsvReader, s: Seq<char>)
    requires
        r.mode is Start,
        r.field.len() == 0,
        !needs_quotes(s),
    ensures
        r.read(s) == (CsvReader {
            field: s,
            mode: if s.len() == 0 {
                CsvMode::Start
            } else {
                CsvMode::Plain
            },
            ..r
        }),
    decreases s.len(),
{
    if s.len() == 0 {
        assert(r.field =~= s);
    } else {
        let front = s.drop_last();
        let c = s[s.len() - 1];
        assert(s.contains(c));
        assert(!needs_quotes(front)) by {
            assert forall|x: char| front.contains(x) implies s.contains(x) by {
                let k = choose|k: int| 0 <= k < front.len() && front[k] == x;
                assert(s[k] == x);
            }
        }
        lemma_csv_plain(r, front);
        assert(front.push(c) =~= s);
    }
}

/// Behind a field, its text is the field at hand, and the field is at its end.
proof fn lemma_csv_field(r: CsvReader, s: Seq<char>)
    requires
        r.mode is Start,
        r.field.len() == 0,
    ensures
        ({
            let t = r.read(csv_text(s));
            &&& t.records == r.records
            &&& t.fields == r.fields
            &&& t.field == s
            &&& t.mode is Start || t.mode is Plain || t.mode is Closing
        }),
{
    if needs_quotes(s) {
        reveal_strlit("\"");
        let body = escaped(s, Escape::Csv);
        assert("\""@ =~= seq!['"']);
        assert(csv_text(s) == seq!['"'] + body + seq!['"']);
        lemma_csv_read_cat(r, seq!['"'] + body, seq!['"']);
        lemma_csv_read_cat(r, seq!['"'], body);
        lemma_csv_read_one(r, '"');
        lemma_csv_quoted(r.step('"'), s);
        lemma_csv_read_one(CsvReader { field: s, ..r.step('"') }, '"');
    } else {
        lemma_csv_plain(r, s);
    }
}

/// Behind the fields of a record, all but the last are read, and the last is at hand.
proof fn lemma_csv_fields(r: CsvReader, fields: Seq<Seq<char>>)
    requires
        r.mode is Start,
        r.field.len() == 0,
        r.fields.len() == 0,
        fields.len() > 0,
    ensures
        ({
            let t = r.read(joined(fields.map_values(|f: Seq<char>| csv_text(f)), ","@));
            &&& t.records == r.records
            &&& t.fields == fields.drop_last()
            &&& t.field == fields.last()
            &&& t.mode is Start || t.mode is Plain || t.mode is Closing
        }),
    decreases fields.len(),
{
    let parts = fields.map_values(|f: Seq<char>| csv_text(f));
    if fields.len() == 1 {
        lemma_csv_field(r, fields[0]);
        assert(r.fields =~= fields.drop_last());
    } else {
        let front = fields.drop_last();
        let before = front.map_values(|f: Seq<char>| csv_text(f));
        assert(parts.drop_last() =~= before);
        lemma_csv_fields(r, front);
        let head = joined(before, ","@);
        let last = csv_text(fields.last());
        assert(joined(parts, ","@) == head + ","@ + last);
        reveal_strlit(",");
        assert(","@ =~= seq![',']);
        lemma_csv_read_cat(r, head + ","@, last);
        lemma_csv_read_cat(r, head, ","@);
        let t = r.read(head);
        lemma_csv_read_one(t, ',');
        let u = t.step(',');
        assert(u.fields =~= front);
        lemma_csv_field(u, fields.last());
    }
}

proof fn lemma_csv_record(records: Seq<Seq<Seq<char>>>, fields: Seq<Seq<char>>)
    requires
        fields.len() > 0,
    ensures
        csv_reader(records).read(csv_record(fields)) == csv_reader(records.push(fields)),
{
    let r = csv_reader(records);
    let alone = fields.len() == 1 && fields[0].len() == 0;
    let head = if alone {
        seq!['"'] + seq!['"']
    } else {
        joined(fields.map_values(|f: Seq<char>| csv_text(f)), ","@)
    };
    reveal_strlit("\r\n");
    assert("\r\n"@ =~= seq!['\r'] + seq!['\n']);
    if alone {
        reveal_strlit("\"\"\r\n");
        assert("\"\"\r\n"@ =~= head + "\r\n"@);
        lemma_csv_read_cat(r, seq!['"'], seq!['"']);
        lemma_csv_read_one(r, '"');
        lemma_csv_read_one(r.step('"'), '"');
        assert(fields.drop_last() =~= r.fields);
        assert(fields.last() =~= r.field);
    } else {
        lemma_csv_fields(r, fields);
    }
    lemma_csv_read_cat(r, head, "\r\n"@);
    let t = r.read(head);
    lemma_csv_read_cat(t, seq!['\r'], seq!['\n']);
    lemma_csv_read_one(t, '\r');
    lemma_csv_read_one(t.step('\r'), '\n');
    assert(fields.drop_last().push(fields.last()) =~= fields);
}

/// CSV records are read back as they were, whatever their fields hold.
pub proof fn law_csv_reads_back(records: Seq<Seq<Seq<char>>>)
    requires
        forall|i: int| 0 <= i < records.len() ==> (#[trigger] records[i]).len() > 0,
    ensures
        csv_reader(Seq::empty()).read(csv_records(records)) == csv_reader(records),
    decreases records.len(),
{
    if records.len() == 0 {
        assert(records =~= Seq::empty());
    } else {
        let front = records.drop_last();
        assert forall|i: int| 0 <= i < front.len() implies (#[trigger] front[i]).len() > 0 by {
            assert(front[i] == records[i]);
        }
        law_csv_reads_back(front);
        lemma_csv_read_cat(
            csv_reader(Seq::empty()),
            csv_records(front),
            csv_record(records.last()),
        );
        assert(records[records.len() - 1].len() > 0);
        lemma_csv_record(front, records.last());
        assert(front.push(records.last()) =~= records);
    }
}

/// The CSV index of a database is read back as its header and one record for every row, each with a
/// field for every column.
pub proof fn law_csv_index_reads_back(data: Seq<JsonView>)
    requires
        data.len() > 0,
    ensures
        csv_reader(Seq::empty()).read(csv_index(data)) == csv_reader(csv_cells(data)),
        csv_cells(data).len() == data.len() + 1,
        forall|i: int|
            0 <= i < csv_cells(data).len() ==> (#[trigger] csv_cells(data)[i]).len() == columns_of(
                data,
                true,
            ).len() + 1,
{
    let cells = csv_cells(data);
    assert forall|i: int| 0 <= i < cells.len() implies (#[trigger] cells[i]).len() == columns_of(
        data,
        true,
    ).len() + 1 by {}
    law_csv_reads_back(cells);
}

// ---------------------------------------------------------------------------
// Digits
// ---------------------------------------------------------------------------
/// The number that a hexadecimal digit in upper case stands for.
pub open spec fn hex_value(c: char) -> int {
    if '0' <= c <= '9' {
        c as int - 48
    } else {
        c as int - 55
    }
}

/// The number that hexadecimal digits stand for.
pub open spec fn hex_number(digits: Seq<char>) -> int
    decreases digits.len(),
{
    if digits.len() == 0 {
        0
    } else {
        16 * hex_number(digits.drop_last()) + hex_value(digits.last())
    }
}

proof fn lemma_hex_number(p: nat)
    requires
        p < 65536,
    ensures
        hex_number(hex_digits(p)) == p,
{
    let d = hex_digits(p);
    lemma_hex_digit(p / 4096 % 16);
    lemma_hex_digit(p / 256 % 16);
    lemma_hex_digit(p / 16 % 16);
    lemma_hex_digit(p % 16);
    reveal_with_fuel(hex_number, 5);
    assert(d.drop_last() =~= seq![d[0], d[1], d[2]]);
    assert(d.drop_last().drop_last() =~= seq![d[0], d[1]]);
    assert(d.drop_last().drop_last().drop_last() =~= seq![d[0]]);
    assert(d.drop_last().drop_last().drop_last().drop_last() =~= Seq::empty());
}

// ---------------------------------------------------------------------------
// YAML
// ---------------------------------------------------------------------------
/// Where a reader of a double-quoted YAML scalar stands.
pub enum YamlMode {
    Before,
    Inside,
    Escaped,
    /// Behind `\u` and some of the four digits of a character.
    Code(Seq<char>),
    Closed,
    /// The text is no scalar on one line, or holds what YAML does not take.
    Broken,
}

/// A reader of a double-quoted YAML scalar: the value so far.
pub struct YamlReader {
    pub value: Seq<char>,
    pub mode: YamlMode,
}

impl YamlReader {
    /// Behind an escape that stands for a character.
    pub open spec fn grown(self, c: char) -> YamlReader {
        YamlReader { value: self.value.push(c), mode: YamlMode::Inside }
    }

    /// Behind one more character.
    pub open spec fn step(self, c: char) -> YamlReader {
        match self.mode {
            YamlMode::Before => YamlReader {
                mode: if c == '"' {
                    YamlMode::Inside
                } else {
                    YamlMode::Broken
                },
                ..self
            },
            YamlMode::Inside => if c == '"' {
                YamlReader { mode: YamlMode::Closed, ..self }
            } else if c == '\\' {
                YamlReader { mode: YamlMode::Escaped, ..self }
            } else if is_unprintable(c) {
                YamlReader { mode: YamlMode::Broken, ..self }
            } else {
                YamlReader { value: self.value.push(c), ..self }
            },
            YamlMode::Escaped => if c == 'r' {
                self.grown('\r')
            } else if c == 'n' {
                self.grown('\n')
            } else if c == 't' {
                self.grown('\t')
            } else if c == '"' || c == '\\' {
                self.grown(c)
            } else if c == 'u' {
                YamlReader { mode: YamlMode::Code(Seq::empty()), ..self }
            } else {
                YamlReader { mode: YamlMode::Broken, ..self }
            },
            YamlMode::Code(digits) => if digits.len() < 3 {
                YamlReader { mode: YamlMode::Code(digits.push(c)), ..self }
            } else {
                self.grown(hex_number(digits.push(c)) as char)
            },
            _ => YamlReader { mode: YamlMode::Broken, ..self },
        }
    }

    /// Behind a text.
    pub open spec fn read(self, s: Seq<char>) -> YamlReader
        decreases s.len(),
    {
        if s.len() == 0 {
            self
        } else {
            self.read(s.drop_last()).step(s.last())
        }
    }
}

/// A reader in front of a scalar.
pub open spec fn yaml_reader() -> YamlReader {
    YamlReader { value: Seq::empty(), mode: YamlMode::Before }
}

proof fn lemma_yaml_read_cat(r: YamlReader, a: Seq<char>, b: Seq<char>)
    ensures
        r.read(a + b) == r.read(a).read(b),
    decreases b.len(),
{
    if b.len() == 0 {
        assert(a + b =~= a);
    } else {
        assert((a + b).drop_last() =~= a + b.drop_last());
        lemma_yaml_read_cat(r, a, b.drop_last());
    }
}

proof fn lemma_yaml_read_one(r: YamlReader, c: char)
    ensures
        r.read(seq![c]) == r.step(c),
{
    let s = seq![c];
    assert(s.drop_last() =~= Seq::empty());
    assert(r.read(s.drop_last()) == r);
}

proof fn lemma_yaml_char(r: YamlReader, c: char)
    requires
        r.mode is Inside,
    ensures
        r.read(escaped_char(c, Escape::Yaml)) == (YamlReader { value: r.value.push(c), ..r }),
{
    let code = escaped_char(c, Escape::Yaml);
    if code.len() == 6 {
        let p = c as nat;
        let digits = hex_digits(p);
        let d0 = seq![digits[0]];
        let d1 = seq![digits[1]];
        let d2 = seq![digits[2]];
        let d3 = seq![digits[3]];
        assert(code =~= seq!['\\'] + seq!['u'] + d0 + d1 + d2 + d3);
        lemma_yaml_read_cat(r, seq!['\\'] + seq!['u'] + d0 + d1 + d2, d3);
        lemma_yaml_read_cat(r, seq!['\\'] + seq!['u'] + d0 + d1, d2);
        lemma_yaml_read_cat(r, seq!['\\'] + seq!['u'] + d0, d1);
        lemma_yaml_read_cat(r, seq!['\\'] + seq!['u'], d0);
        lemma_yaml_read_cat(r, seq!['\\'], seq!['u']);
        lemma_yaml_read_one(r, '\\');
        let s = r.step('\\');
        lemma_yaml_read_one(s, 'u');
        let t0 = s.step('u');
        lemma_yaml_read_one(t0, digits[0]);
        let t1 = t0.step(digits[0]);
        lemma_yaml_read_one(t1, digits[1]);
        let t2 = t1.step(digits[1]);
        lemma_yaml_read_one(t2, digits[2]);
        let t3 = t2.step(digits[2]);
        lemma_yaml_read_one(t3, digits[3]);
        let read = Seq::<char>::empty().push(digits[0]).push(digits[1]).push(digits[2]).push(
            digits[3],
        );
        assert(read =~= digits);
        lemma_hex_number(p);
    } else if code.len() == 2 {
        assert(code =~= seq![code[0]] + seq![code[1]]);
        lemma_yaml_read_cat(r, seq![code[0]], seq![code[1]]);
        lemma_yaml_read_one(r, code[0]);
        lemma_yaml_read_one(r.step(code[0]), code[1]);
    } else {
        lemma_yaml_read_one(r, c);
    }
}

proof fn lemma_yaml_body(r: YamlReader, s: Seq<char>)
    requires
        r.mode is Inside,
        r.value.len() == 0,
    ensures
        r.read(escaped(s, Escape::Yaml)) == (YamlReader { value: s, ..r }),
    decreases s.len(),
{
    if s.len() == 0 {
        assert(r.value =~= s);
    } else {
        let front = s.drop_last();
        lemma_yaml_body(r, front);
        lemma_yaml_read_cat(
            r,
            escaped(front, Escape::Yaml),
            escaped_char(s.last(), Escape::Yaml),
        );
        lemma_yaml_char(YamlReader { value: front, ..r }, s.last());
        assert(front.push(s.last()) =~= s);
    }
}

/// A YAML scalar is read back as the value that it was made of, whatever that holds, and ends with
/// its last character.
pub proof fn law_yaml_reads_back(s: Seq<char>)
    ensures
        yaml_reader().read(yaml_text(s)) == (YamlReader { value: s, mode: YamlMode::Closed }),
{
    reveal_strlit("\"");
    let body = escaped(s, Escape::Yaml);
    assert("\""@ =~= seq!['"']);
    lemma_yaml_read_cat(yaml_reader(), seq!['"'] + body, seq!['"']);
    lemma_yaml_read_cat(yaml_reader(), seq!['"'], body);
    lemma_yaml_read_one(yaml_reader(), '"');
    let inside = yaml_reader().step('"');
    lemma_yaml_body(inside, s);
    lemma_yaml_read_one(YamlReader { value: s, ..inside }, '"');
}

// ---------------------------------------------------------------------------
// Link labels
// ---------------------------------------------------------------------------
/// Where a reader of the text of a Markdown link stands.
pub enum LabelMode {
    Open,
    /// Behind a backslash.
    Escaped,
    /// Behind the bracket that ends the text.
    Closed,
    /// A bare bracket opened another text, or something follows the end.
    Broken,
}

/// A reader of the text of a Markdown link, behind its opening bracket: the text so far.
pub struct LabelReader {
    pub text: Seq<char>,
    pub mode: LabelMode,
}

impl LabelReader {
    /// Behind one more character. A backslash takes the meaning from a bracket, a bar and another
    /// backslash; in front of anything else it stands for itself.
    pub open spec fn step(self, c: char) -> LabelReader {
        match self.mode {
            LabelMode::Open => if c == ']' {
                LabelReader { mode: LabelMode::Closed, ..self }
            } else if c == '[' {
                LabelReader { mode: LabelMode::Broken, ..self }
            } else if c == '\\' {
                LabelReader { mode: LabelMode::Escaped, ..self }
            } else {
                LabelReader { text: self.text.push(c), ..self }
            },
            LabelMode::Escaped => LabelReader {
                text: if c == '[' || c == ']' || c == '|' || c == '\\' {
                    self.text.push(c)
                } else {
                    self.text.push('\\').push(c)
                },
                mode: LabelMode::Open,
            },
            _ => LabelReader { mode: LabelMode::Broken, ..self },
        }
    }

    /// Behind a text.
    pub open spec fn read(self, s: Seq<char>) -> LabelReader
        decreases s.len(),
    {
        if s.len() == 0 {
            self
        } else {
            self.read(s.drop_last()).step(s.last())
        }
    }
}

/// A reader that has read some text and is not at its end.
pub open spec fn label_reader(text: Seq<char>) -> LabelReader {
    LabelReader { text, mode: LabelMode::Open }
}

proof fn lemma_label_read_cat(r: LabelReader, a: Seq<char>, b: Seq<char>)
    ensures
        r.read(a + b) == r.read(a).read(b),
    decreases b.len(),
{
    if b.len() == 0 {
        assert(a + b =~= a);
    } else {
        assert((a + b).drop_last() =~= a + b.drop_last());
        lemma_label_read_cat(r, a, b.drop_last());
    }
}

proof fn lemma_label_read_one(r: LabelReader, c: char)
    ensures
        r.read(seq![c]) == r.step(c),
{
    let s = seq![c];
    assert(s.drop_last() =~= Seq::empty());
    assert(r.read(s.drop_last()) == r);
}

proof fn lemma_escaped_cat(a: Seq<char>, b: Seq<char>, place: Escape)
    ensures
        escaped(a + b, place) == escaped(a, place) + escaped(b, place),
    decreases b.len(),
{
    if b.len() == 0 {
        assert(a + b =~= a);
        assert(escaped(a, place) + escaped(b, place) =~= escaped(a, place));
    } else {
        assert((a + b).drop_last() =~= a + b.drop_last());
        lemma_escaped_cat(a, b.drop_last(), place);
        let code = escaped_char(b.last(), place);
        assert(escaped(a, place) + escaped(b.drop_last(), place) + code =~= escaped(a, place) + (
        escaped(b.drop_last(), place) + code));
    }
}

/// What stands in front of a text in a label, and then the text.
proof fn lemma_label_front(r: LabelReader, front: Seq<char>, rest: Seq<char>)
    ensures
        r.read(escaped(front + rest, Escape::Label)) == r.read(escaped(front, Escape::Label)).read(
            escaped(rest, Escape::Label),
        ),
{
    lemma_escaped_cat(front, rest, Escape::Label);
    lemma_label_read_cat(r, escaped(front, Escape::Label), escaped(rest, Escape::Label));
}

proof fn lemma_label_char(r: LabelReader, c: char)
    ensures
        r.read(escaped(seq![c], Escape::Label)) == if c == '[' || c == ']' {
            r.step('\\').step(c)
        } else {
            r.step(c)
        },
{
    reveal_with_fuel(escaped, 2);
    assert(seq![c].drop_last() =~= Seq::empty());
    assert(escaped(seq![c], Escape::Label) =~= escaped_char(c, Escape::Label));
    lemma_label_read_one(r, c);
    assert(seq!['\\', c] =~= seq!['\\'] + seq![c]);
    lemma_label_read_cat(r, seq!['\\'], seq![c]);
    lemma_label_read_one(r, '\\');
    lemma_label_read_one(r.step('\\'), c);
}

/// A guarded text does not end its label, neither at the start of it nor behind a backslash that is
/// followed by neither a bracket nor the end; and what has no backslash is read back.
proof fn lemma_label_body(r: LabelReader, s: Seq<char>)
    requires
        r.mode is Open || r.mode is Escaped && !leads_to_stop(s, Escape::Label),
    ensures
        r.read(label_text(s)).mode is Open,
        r.mode is Open && !s.contains('\\') ==> r.read(label_text(s)).text == r.text + s,
    decreases s.len(),
{
    if s.len() == 0 {
        assert(r.text + s =~= r.text);
    } else {
        let rest = s.skip(1);
        let doubled = s[0] == '\\' && leads_to_stop(rest, Escape::Label);
        let front = if doubled {
            seq!['\\', '\\']
        } else {
            seq![s[0]]
        };
        let next = r.read(escaped(front, Escape::Label));
        lemma_label_front(r, front, guarded(rest, Escape::Label));
        lemma_label_char(r, s[0]);
        if doubled {
            assert(front =~= seq!['\\'] + seq!['\\']);
            lemma_label_front(r, seq!['\\'], seq!['\\']);
            lemma_label_char(r.step('\\'), '\\');
        }
        lemma_label_body(next, rest);
        if !s.contains('\\') {
            assert(s.contains(s[0]));
            assert(!rest.contains('\\')) by {
                if rest.contains('\\') {
                    let k = choose|k: int| 0 <= k < rest.len() && rest[k] == '\\';
                    assert(s[k + 1] == '\\');
                }
            }
            assert(r.text.push(s[0]) + rest =~= r.text + s);
        }
    }
}

/// A link label stays closed, whatever its text holds: the bracket behind it is what ends it. A text
/// without backslashes is read back as it was.
pub proof fn law_labels_stay_closed(s: Seq<char>)
    ensures
        label_reader(Seq::empty()).read(label_text(s)).mode is Open,
        label_reader(Seq::empty()).read(label_text(s) + "]"@).mode is Closed,
        !s.contains('\\') ==> label_reader(Seq::empty()).read(label_text(s) + "]"@).text == s,
{
    reveal_strlit("]");
    assert("]"@ =~= seq![']']);
    let r = label_reader(Seq::empty());
    lemma_label_body(r, s);
    lemma_label_read_cat(r, label_text(s), "]"@);
    lemma_label_read_one(r.read(label_text(s)), ']');
    assert(Seq::<char>::empty() + s =~= s);
}

// ---------------------------------------------------------------------------
// Links
// ---------------------------------------------------------------------------

/// A reader of a percent-encoded path: the bytes so far, and the digits behind a `%`.
pub struct LinkReader {
    pub bytes: Seq<u8>,
    pub digits: Option<Seq<char>>,
}

impl LinkReader {
    /// Behind one more character.
    pub open spec fn step(self, c: char) -> LinkReader {
        match self.digits {
            Some(digits) => if digits.len() == 0 {
                LinkReader { digits: Some(seq![c]), ..self }
            } else {
                LinkReader {
                    bytes: self.bytes.push((16 * hex_value(digits[0]) + hex_value(c)) as u8),
                    digits: None,
                }
            },
            None => if c == '%' {
                LinkReader { digits: Some(Seq::empty()), ..self }
            } else {
                LinkReader { bytes: self.bytes.push(c as u8), ..self }
            },
        }
    }

    /// Behind a text.
    pub open spec fn read(self, s: Seq<char>) -> LinkReader
        decreases s.len(),
    {
        if s.len() == 0 {
            self
        } else {
            self.read(s.drop_last()).step(s.last())
        }
    }
}

/// A reader that has read some bytes.
pub open spec fn link_reader(bytes: Seq<u8>) -> LinkReader {
    LinkReader { bytes, digits: None }
}

/// Whether a character is safe in a Markdown link.
pub open spec fn is_link_safe(c: char) -> bool {
    ||| '0' <= c <= '9'
    ||| 'A' <= c <= 'Z'
    ||| 'a' <= c <= 'z'
    ||| c == '_'
    ||| c == '.'
    ||| c == '-'
    ||| c == '~'
    ||| c == '/'
    ||| c == '%'
}

proof fn lemma_link_read_cat(r: LinkReader, a: Seq<char>, b: Seq<char>)
    ensures
        r.read(a + b) == r.read(a).read(b),
    decreases b.len(),
{
    if b.len() == 0 {
        assert(a + b =~= a);
    } else {
        assert((a + b).drop_last() =~= a + b.drop_last());
        lemma_link_read_cat(r, a, b.drop_last());
    }
}

proof fn lemma_link_read_one(r: LinkReader, c: char)
    ensures
        r.read(seq![c]) == r.step(c),
{
    let s = seq![c];
    assert(s.drop_last() =~= Seq::empty());
    assert(r.read(s.drop_last()) == r);
}

proof fn lemma_hex_digit(d: nat)
    requires
        d < 16,
    ensures
        hex_value(hex_digit(d)) == d,
        is_link_safe(hex_digit(d)),
{
}

proof fn lemma_link_byte(bytes: Seq<u8>, b: u8)
    ensures
        link_reader(bytes).read(encoded_byte(b)) == link_reader(bytes.push(b)),
        forall|i: int|
            0 <= i < encoded_byte(b).len() ==> is_link_safe(#[trigger] encoded_byte(b)[i]),
{
    let r = link_reader(bytes);
    let code = encoded_byte(b);
    if is_kept(b) {
        lemma_link_read_one(r, b as char);
    } else {
        let hi = b as nat / 16;
        let lo = b as nat % 16;
        lemma_hex_digit(hi);
        lemma_hex_digit(lo);
        assert(code =~= seq!['%'] + seq![code[1]] + seq![code[2]]);
        lemma_link_read_cat(r, seq!['%'] + seq![code[1]], seq![code[2]]);
        lemma_link_read_cat(r, seq!['%'], seq![code[1]]);
        lemma_link_read_one(r, '%');
        let s = r.step('%');
        lemma_link_read_one(s, code[1]);
        let t = s.step(code[1]);
        lemma_link_read_one(t, code[2]);
        assert(16 * hi + lo == b as nat);
    }
}

proof fn lemma_link_bytes(bytes: Seq<u8>)
    ensures
        link_reader(Seq::empty()).read(encoded_bytes(bytes)) == link_reader(bytes),
        forall|i: int|
            0 <= i < encoded_bytes(bytes).len() ==> is_link_safe(
                #[trigger] encoded_bytes(bytes)[i],
            ),
    decreases bytes.len(),
{
    if bytes.len() == 0 {
        assert(bytes =~= Seq::empty());
    } else {
        let front = bytes.drop_last();
        let head = encoded_bytes(front);
        let code = encoded_byte(bytes.last());
        lemma_link_bytes(front);
        lemma_link_read_cat(link_reader(Seq::empty()), head, code);
        lemma_link_byte(front, bytes.last());
        assert(front.push(bytes.last()) =~= bytes);
        let all = encoded_bytes(bytes);
        assert forall|i: int| 0 <= i < all.len() implies is_link_safe(#[trigger] all[i]) by {
            if i < head.len() {
                assert(all[i] == head[i]);
            } else {
                assert(all[i] == code[i - head.len()]);
            }
        }
    }
}

/// An encoded path is read back as the bytes of the path, and holds nothing that Markdown gives a
/// meaning of its own in a link.
pub proof fn law_links_read_back(path: Seq<char>)
    ensures
        link_reader(Seq::empty()).read(encoded(path)) == link_reader(
            vstd::utf8::encode_utf8(path),
        ),
        forall|i: int| 0 <= i < encoded(path).len() ==> is_link_safe(#[trigger] encoded(path)[i]),
{
    lemma_link_bytes(vstd::utf8::encode_utf8(path));
}

/// Where a way leads from a directory: `..` goes up, any other name goes down.
pub open spec fn walked(from: Seq<Seq<char>>, steps: Seq<Seq<char>>) -> Seq<Seq<char>>
    decreases steps.len(),
{
    if steps.len() == 0 {
        from
    } else {
        let there = walked(from, steps.drop_last());
        if steps.last() == ".."@ {
            there.drop_last()
        } else {
            there.push(steps.last())
        }
    }
}

/// The components that two paths share are the leading ones of both.
pub proof fn lemma_shared(a: Seq<Seq<char>>, b: Seq<Seq<char>>)
    ensures
        shared(a, b) <= a.len(),
        shared(a, b) <= b.len(),
        a.take(shared(a, b) as int) == b.take(shared(a, b) as int),
    decreases a.len(),
{
    let n = shared(a, b) as int;
    if n > 0 {
        let x = a.skip(1);
        let y = b.skip(1);
        lemma_shared(x, y);
        assert(a.take(n) =~= seq![a[0]] + x.take(n - 1));
        assert(b.take(n) =~= seq![b[0]] + y.take(n - 1));
    } else {
        assert(a.take(0) =~= b.take(0));
    }
}

proof fn lemma_walk_up(from: Seq<Seq<char>>, ups: Seq<Seq<char>>)
    requires
        ups.len() <= from.len(),
        forall|i: int| 0 <= i < ups.len() ==> #[trigger] ups[i] == ".."@,
    ensures
        walked(from, ups) == from.take(from.len() - ups.len()),
    decreases ups.len(),
{
    if ups.len() == 0 {
        assert(from.take(from.len() as int) =~= from);
    } else {
        let front = ups.drop_last();
        assert(ups[ups.len() - 1] == ".."@);
        lemma_walk_up(from, front);
        assert(from.take(from.len() - front.len()).drop_last() =~= from.take(
            from.len() - ups.len(),
        ));
    }
}

proof fn lemma_walk_down(from: Seq<Seq<char>>, up: Seq<Seq<char>>, down: Seq<Seq<char>>)
    requires
        forall|i: int| 0 <= i < down.len() ==> #[trigger] down[i] != ".."@,
    ensures
        walked(from, up + down) == walked(from, up) + down,
    decreases down.len(),
{
    if down.len() == 0 {
        assert(up + down =~= up);
        assert(walked(from, up) + down =~= walked(from, up));
    } else {
        let front = down.drop_last();
        assert(down[down.len() - 1] != ".."@);
        assert forall|i: int| 0 <= i < front.len() implies #[trigger] front[i] != ".."@ by {
            assert(front[i] == down[i]);
        }
        assert((up + down).drop_last() =~= up + front);
        lemma_walk_down(from, up, front);
        assert((walked(from, up) + front).push(down.last()) =~= walked(from, up) + down);
    }
}

/// A relative path leads from its directory to its target, as long as no component of the target is
/// `..` itself.
pub proof fn law_relative_paths_lead_to_their_target(from: Seq<Seq<char>>, to: Seq<Seq<char>>)
    requires
        forall|i: int| 0 <= i < to.len() ==> #[trigger] to[i] != ".."@,
    ensures
        walked(from, way(from, to)) == to,
{
    let common = shared(from, to) as int;
    lemma_shared(from, to);
    let up = Seq::new((from.len() - common) as nat, |i: int| ".."@);
    let down = to.skip(common);
    assert forall|i: int| 0 <= i < down.len() implies #[trigger] down[i] != ".."@ by {
        assert(down[i] == to[common + i]);
    }
    lemma_walk_up(from, up);
    lemma_walk_down(from, up, down);
    assert(to.take(common) + down =~= to);
}

// ---------------------------------------------------------------------------
// Tables
// ---------------------------------------------------------------------------
/// Whether a text stands on one line.
pub open spec fn is_one_line(s: Seq<char>) -> bool {
    forall|i: int| 0 <= i < s.len() ==> #[trigger] s[i] != '\n' && s[i] != '\r'
}

/// Whether a backslash stands in front of every bar.
pub open spec fn has_no_bare_bar(s: Seq<char>) -> bool {
    forall|i: int| 0 <= i < s.len() && #[trigger] s[i] == '|' ==> i > 0 && s[i - 1] == '\\'
}

/// Where a reader of a table cell stands.
pub enum CellMode {
    Open,
    /// Behind a backslash.
    Escaped,
    /// Behind a bar that ends the cell.
    Ended,
}

/// Behind one more character: a bar ends the cell, unless a backslash takes its meaning.
pub open spec fn cell_step(mode: CellMode, c: char) -> CellMode {
    match mode {
        CellMode::Open => if c == '|' {
            CellMode::Ended
        } else if c == '\\' {
            CellMode::Escaped
        } else {
            CellMode::Open
        },
        CellMode::Escaped => CellMode::Open,
        CellMode::Ended => CellMode::Ended,
    }
}

/// Behind a text.
pub open spec fn cell_read(mode: CellMode, s: Seq<char>) -> CellMode
    decreases s.len(),
{
    if s.len() == 0 {
        mode
    } else {
        cell_step(cell_read(mode, s.drop_last()), s.last())
    }
}

proof fn lemma_cell_read_cat(mode: CellMode, a: Seq<char>, b: Seq<char>)
    ensures
        cell_read(mode, a + b) == cell_read(cell_read(mode, a), b),
    decreases b.len(),
{
    if b.len() == 0 {
        assert(a + b =~= a);
    } else {
        assert((a + b).drop_last() =~= a + b.drop_last());
        lemma_cell_read_cat(mode, a, b.drop_last());
    }
}

proof fn lemma_cell_read_few(mode: CellMode, a: char, b: char)
    ensures
        cell_read(mode, seq![a]) == cell_step(mode, a),
        cell_read(mode, seq![a, b]) == cell_step(cell_step(mode, a), b),
{
    reveal_with_fuel(cell_read, 3);
    assert(seq![a].drop_last() =~= Seq::empty());
    assert(seq![a, b].drop_last() =~= seq![a]);
}

/// What stands in front of a text in a cell, and then the text.
proof fn lemma_cell_front(mode: CellMode, front: Seq<char>, rest: Seq<char>)
    ensures
        cell_read(mode, escaped(front + rest, Escape::Cell)) == cell_read(
            cell_read(mode, escaped(front, Escape::Cell)),
            escaped(rest, Escape::Cell),
        ),
{
    lemma_escaped_cat(front, rest, Escape::Cell);
    lemma_cell_read_cat(mode, escaped(front, Escape::Cell), escaped(rest, Escape::Cell));
}

proof fn lemma_cell_char(mode: CellMode, c: char)
    ensures
        cell_read(mode, escaped(seq![c], Escape::Cell)) == if c == '|' {
            cell_step(cell_step(mode, '\\'), '|')
        } else if c == '\r' || c == '\n' {
            cell_step(mode, ' ')
        } else {
            cell_step(mode, c)
        },
{
    reveal_with_fuel(escaped, 2);
    assert(seq![c].drop_last() =~= Seq::empty());
    assert(escaped(seq![c], Escape::Cell) =~= escaped_char(c, Escape::Cell));
    lemma_cell_read_few(mode, c, c);
    lemma_cell_read_few(mode, ' ', c);
    lemma_cell_read_few(mode, '\\', '|');
}

/// A guarded text does not end its cell, neither at the start of it nor behind a backslash that is
/// not followed by a bar.
proof fn lemma_cell_body(mode: CellMode, s: Seq<char>)
    requires
        mode is Open || mode is Escaped && !leads_to_stop(s, Escape::Cell),
    ensures
        !(cell_read(mode, cell_text(s)) is Ended),
    decreases s.len(),
{
    if s.len() > 0 {
        let rest = s.skip(1);
        let doubled = s[0] == '\\' && leads_to_stop(rest, Escape::Cell);
        let front = if doubled {
            seq!['\\', '\\']
        } else {
            seq![s[0]]
        };
        let next = cell_read(mode, escaped(front, Escape::Cell));
        lemma_cell_front(mode, front, guarded(rest, Escape::Cell));
        lemma_cell_char(mode, s[0]);
        if doubled {
            assert(front =~= seq!['\\'] + seq!['\\']);
            lemma_cell_front(mode, seq!['\\'], seq!['\\']);
            lemma_cell_char(cell_step(mode, '\\'), '\\');
        }
        lemma_cell_body(next, rest);
    }
}

proof fn lemma_ended(s: Seq<char>)
    ensures
        cell_read(CellMode::Ended, s) is Ended,
    decreases s.len(),
{
    if s.len() > 0 {
        lemma_ended(s.drop_last());
    }
}

/// Where a text does not end its cell, it does not as a label either: what a label adds are
/// backslashes in front of brackets and at the end.
proof fn lemma_label_in_cell(before: CellMode, now: CellMode, s: Seq<char>)
    requires
        !(cell_read(before, s) is Ended),
        if leads_to_stop(s, Escape::Label) {
            now is Open
        } else {
            now == before
        },
    ensures
        !(cell_read(now, label_text(s)) is Ended),
    decreases s.len(),
{
    if before is Ended {
        lemma_ended(s);
    } else if s.len() > 0 {
        let c = s[0];
        let rest = s.skip(1);
        let tail = escaped(guarded(rest, Escape::Label), Escape::Label);
        assert(s =~= seq![c] + rest);
        lemma_cell_read_cat(before, seq![c], rest);
        lemma_cell_read_few(before, c, c);
        let doubled = c == '\\' && leads_to_stop(rest, Escape::Label);
        let front = if doubled {
            seq!['\\', '\\']
        } else {
            seq![c]
        };
        lemma_escaped_cat(front, guarded(rest, Escape::Label), Escape::Label);
        lemma_cell_read_cat(now, escaped(front, Escape::Label), tail);
        reveal_with_fuel(escaped, 3);
        assert(front.drop_last().len() + 1 == front.len());
        lemma_cell_read_few(now, '\\', '\\');
        lemma_cell_read_few(now, '\\', c);
        lemma_cell_read_few(now, c, c);
        if doubled {
            assert(front.drop_last() =~= seq!['\\']);
            assert(seq!['\\'].drop_last() =~= Seq::empty());
            assert(escaped(front, Escape::Label) =~= seq!['\\', '\\']);
        } else {
            assert(front.drop_last() =~= Seq::empty());
            assert(escaped(front, Escape::Label) =~= escaped_char(c, Escape::Label));
        }
        if cell_step(before, c) is Ended {
            lemma_ended(rest);
        }
        lemma_label_in_cell(
            cell_step(before, c),
            cell_read(now, escaped(front, Escape::Label)),
            rest,
        );
    }
}

/// A table cell stands on one line, and no bar in it ends the cell, whatever its value holds; nor
/// does one in the label of a link there.
pub proof fn law_cells_stay_closed(s: Seq<char>)
    ensures
        is_one_line(cell_text(s)),
        has_no_bare_bar(cell_text(s)),
        !(cell_read(CellMode::Open, cell_text(s)) is Ended),
        !(cell_read(CellMode::Open, label_text(cell_text(s))) is Ended),
{
    lemma_bars(guarded(s, Escape::Cell));
    lemma_cell_body(CellMode::Open, s);
    lemma_label_in_cell(CellMode::Open, CellMode::Open, cell_text(s));
}

proof fn lemma_bars(s: Seq<char>)
    ensures
        is_one_line(escaped(s, Escape::Cell)),
        has_no_bare_bar(escaped(s, Escape::Cell)),
    decreases s.len(),
{
    if s.len() > 0 {
        let head = escaped(s.drop_last(), Escape::Cell);
        let code = escaped_char(s.last(), Escape::Cell);
        let all = escaped(s, Escape::Cell);
        lemma_bars(s.drop_last());
        assert forall|i: int| 0 <= i < all.len() implies #[trigger] all[i] != '\n' && all[i]
            != '\r' && (all[i] == '|' ==> i > 0 && all[i - 1] == '\\') by {
            if i < head.len() {
                assert(all[i] == head[i]);
                if i > 0 {
                    assert(all[i - 1] == head[i - 1]);
                }
            } else {
                assert(all[i] == code[i - head.len()]);
                if i > head.len() {
                    assert(all[i - 1] == code[i - 1 - head.len()]);
                }
            }
        }
    }
}

proof fn lemma_one_line_cat(a: Seq<char>, b: Seq<char>)
    requires
        is_one_line(a),
        is_one_line(b),
    ensures
        is_one_line(a + b),
{
    let c = a + b;
    assert forall|i: int| 0 <= i < c.len() implies #[trigger] c[i] != '\n' && c[i] != '\r' by {
        if i < a.len() {
            assert(c[i] == a[i]);
        } else {
            assert(c[i] == b[i - a.len()]);
        }
    }
}

proof fn lemma_one_line_joined(parts: Seq<Seq<char>>, sep: Seq<char>)
    requires
        is_one_line(sep),
        forall|i: int| 0 <= i < parts.len() ==> is_one_line(#[trigger] parts[i]),
    ensures
        is_one_line(joined(parts, sep)),
    decreases parts.len(),
{
    if parts.len() == 1 {
        assert(is_one_line(parts[0]));
    } else if parts.len() > 1 {
        let front = parts.drop_last();
        assert forall|i: int| 0 <= i < front.len() implies is_one_line(#[trigger] front[i]) by {
            assert(front[i] == parts[i]);
        }
        lemma_one_line_joined(front, sep);
        lemma_one_line_cat(joined(front, sep), sep);
        assert(is_one_line(parts[parts.len() - 1]));
        lemma_one_line_cat(joined(front, sep) + sep, parts.last());
    }
}

proof fn lemma_one_line_bars(cells: Seq<Seq<char>>)
    requires
        forall|i: int| 0 <= i < cells.len() ==> is_one_line(#[trigger] cells[i]),
    ensures
        is_one_line(bar_line(cells)),
{
    reveal_strlit("| ");
    reveal_strlit(" | ");
    reveal_strlit(" |");
    lemma_one_line_joined(cells, " | "@);
    lemma_one_line_cat("| "@, joined(cells, " | "@));
    lemma_one_line_cat("| "@ + joined(cells, " | "@), " |"@);
}

proof fn lemma_one_line_guarded(s: Seq<char>)
    requires
        is_one_line(s),
    ensures
        is_one_line(guarded(s, Escape::Label)),
    decreases s.len(),
{
    if s.len() > 0 {
        let rest = s.skip(1);
        assert forall|i: int| 0 <= i < rest.len() implies #[trigger] rest[i] != '\n' && rest[i]
            != '\r' by {
            assert(rest[i] == s[i + 1]);
        }
        lemma_one_line_guarded(rest);
        assert(s[0] != '\n' && s[0] != '\r');
        lemma_one_line_cat(seq!['\\', '\\'], guarded(rest, Escape::Label));
        lemma_one_line_cat(seq![s[0]], guarded(rest, Escape::Label));
    }
}

proof fn lemma_one_line_escaped(s: Seq<char>)
    requires
        is_one_line(s),
    ensures
        is_one_line(escaped(s, Escape::Label)),
    decreases s.len(),
{
    if s.len() > 0 {
        let front = s.drop_last();
        assert forall|i: int| 0 <= i < front.len() implies #[trigger] front[i] != '\n' && front[i]
            != '\r' by {
            assert(front[i] == s[i]);
        }
        lemma_one_line_escaped(front);
        assert(s[s.len() - 1] != '\n' && s[s.len() - 1] != '\r');
        let code = escaped_char(s.last(), Escape::Label);
        assert(is_one_line(code));
        lemma_one_line_cat(escaped(front, Escape::Label), code);
    }
}

proof fn lemma_one_line_label(s: Seq<char>)
    requires
        is_one_line(s),
    ensures
        is_one_line(label_text(s)),
{
    lemma_one_line_guarded(s);
    lemma_one_line_escaped(guarded(s, Escape::Label));
}

proof fn lemma_one_line_link(name: Seq<char>, data: JsonView)
    ensures
        is_one_line(row_link(name, data)),
{
    let title = or_default(title_of_page(data), "Untitled"@);
    let label = label_text(cell_text(title));
    let link = encoded(name + "/index.md"@);
    law_cells_stay_closed(title);
    lemma_one_line_label(cell_text(title));
    law_links_read_back(name + "/index.md"@);
    assert forall|i: int| 0 <= i < link.len() implies #[trigger] link[i] != '\n' && link[i]
        != '\r' by {
        assert(is_link_safe(link[i]));
    }
    reveal_strlit("[");
    reveal_strlit("](");
    reveal_strlit(")");
    lemma_one_line_cat("["@, label);
    lemma_one_line_cat("["@ + label, "]("@);
    lemma_one_line_cat("["@ + label + "]("@, link);
    lemma_one_line_cat("["@ + label + "]("@ + link, ")"@);
}

proof fn lemma_in_cells(list: Seq<Seq<char>>)
    ensures
        forall|i: int| 0 <= i < list.len() ==> is_one_line(#[trigger] in_cells(list)[i]),
{
    assert forall|i: int| 0 <= i < list.len() implies is_one_line(#[trigger] in_cells(list)[i]) by {
        law_cells_stay_closed(list[i]);
    }
}

/// The table of a database has a header, a rule and one line for every row, and every one of them
/// stands on a line of its own, whatever the values hold.
pub proof fn law_every_row_is_one_line(rows: Seq<(Seq<char>, JsonView)>)
    ensures
        row_lines(rows).len() == rows.len() + 2,
        forall|i: int| 0 <= i < row_lines(rows).len() ==> is_one_line(#[trigger] row_lines(rows)[i]),
{
    let columns = columns_of(row_data(rows), false);
    let header = seq!["Name"@] + columns;
    let rules = header.map_values(|h: Seq<char>| "---"@);
    let lines = row_lines(rows);
    lemma_in_cells(header);
    lemma_one_line_bars(in_cells(header));
    reveal_strlit("---");
    assert forall|i: int| 0 <= i < rules.len() implies is_one_line(#[trigger] rules[i]) by {}
    lemma_one_line_bars(rules);
    assert forall|i: int| 0 <= i < lines.len() implies is_one_line(#[trigger] lines[i]) by {
        if i >= 2 {
            let row = rows[i - 2];
            let values = in_cells(values_in(row.1, columns));
            let cells = seq![row_link(row.0, row.1)] + values;
            lemma_one_line_link(row.0, row.1);
            lemma_in_cells(values_in(row.1, columns));
            assert forall|k: int| 0 <= k < cells.len() implies is_one_line(#[trigger] cells[k]) by {
                if k > 0 {
                    assert(cells[k] == values[k - 1]);
                }
            }
            lemma_one_line_bars(cells);
            assert(lines[i] == bar_line(cells));
        }
    }
}

} // verus!
