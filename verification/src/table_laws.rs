//! What holds of front matter, of the table and the CSV index of a database, and of the values in
//! them.

use vstd::prelude::*;

use crate::json::{distinct_keys, JsonView};
use crate::markup::{
    bar_line, cell_text, columns_of, csv_cells, csv_index, csv_record, csv_text, encoded,
    encoded_byte, encoded_bytes, escaped, escaped_char, field_line, front_matter_text, guarded,
    in_cells, is_stop, label_text, leads_to_stop, property_lines, property_section, relative,
    row_data, row_lines, row_link, rows_md, value_in, values_in, way, with_columns, yaml_text,
    Escape,
};
use crate::markup_laws::{
    csv_reader, law_csv_index_reads_back, law_relative_paths_lead_to_their_target, walked,
};
use crate::text::{components, joined};
use crate::text_laws::law_paths_are_split_at_slashes;
use crate::util::{properties, property_text, title_of_page};
use crate::util_laws::text_or_nothing;

verus! {

// ---------------------------------------------------------------------------
// Front matter
// ---------------------------------------------------------------------------
/// The properties but for the title.
pub open spec fn shown(props: Seq<(Seq<char>, JsonView)>) -> Seq<(Seq<char>, JsonView)> {
    props.filter(|p: (Seq<char>, JsonView)| p.1.text_at("type"@) != Some("title"@))
}

proof fn lemma_property_lines(props: Seq<(Seq<char>, JsonView)>)
    ensures
        property_lines(props).len() == shown(props).len(),
        forall|i: int|
            0 <= i < shown(props).len() ==> #[trigger] property_lines(props)[i] == "  "@
                + yaml_text(shown(props)[i].0) + ": "@ + yaml_text(
                property_text(shown(props)[i].1),
            ),
    decreases props.len(),
{
    reveal(Seq::filter);
    if props.len() > 0 {
        let front = props.drop_last();
        lemma_property_lines(front);
        let lines = property_lines(props);
        assert forall|i: int| 0 <= i < shown(props).len() implies #[trigger] lines[i] == "  "@
            + yaml_text(shown(props)[i].0) + ": "@ + yaml_text(
            property_text(shown(props)[i].1),
        ) by {
            if i < shown(front).len() {
                assert(lines[i] == property_lines(front)[i]);
                assert(shown(props)[i] == shown(front)[i]);
            }
        }
    }
}

/// The front matter of a page holds its title, its id, what it is, its URL and its times, and then a
/// line for every property that is not a title: its name and its text, in order.
pub proof fn law_front_matter_holds_every_property(
    data: JsonView,
    title: Seq<char>,
    props: Seq<(Seq<char>, JsonView)>,
) -> (lines: Seq<Seq<char>>)
    requires
        data.text_at("object"@) == Some("page"@),
        data.get("properties"@) == Some(JsonView::Object(props)),
        shown(props).len() > 0,
    ensures
        front_matter_text(data, title) == joined(lines, "\n"@),
        lines.len() == 9 + shown(props).len(),
        is_front(data, title, lines),
        lines[7] == "properties:"@,
        forall|i: int|
            0 <= i < shown(props).len() ==> lines[8 + i] == "  "@ + yaml_text(
                (#[trigger] shown(props)[i]).0,
            ) + ": "@ + yaml_text(property_text(shown(props)[i].1)),
{
    lemma_keys();
    lemma_property_lines(props);
    let section = property_lines(props);
    assert(properties(data) == props);
    let top = seq![
        "---"@,
        "title: "@ + yaml_text(title),
        field_line(data, "id"@),
        field_line(data, "object"@),
        field_line(data, "url"@),
        field_line(data, "created_time"@),
        field_line(data, "last_edited_time"@),
    ];
    let lines = top + (seq!["properties:"@] + section) + seq!["---"@];
    assert(property_section(data) == seq!["properties:"@] + section);
    assert forall|i: int| 0 <= i < shown(props).len() implies lines[8 + i] == "  "@ + yaml_text(
        (#[trigger] shown(props)[i]).0,
    ) + ": "@ + yaml_text(property_text(shown(props)[i].1)) by {
        assert(lines[8 + i] == section[i]);
    }
    lines
}

/// Whether lines open and close front matter, with the fields of an object in it.
pub open spec fn is_front(data: JsonView, title: Seq<char>, lines: Seq<Seq<char>>) -> bool {
    &&& lines.len() >= 8
    &&& lines[0] == "---"@
    &&& lines[1] == "title: "@ + yaml_text(title)
    &&& lines[2] == "id: "@ + yaml_text(text_or_nothing(data.get("id"@)))
    &&& lines[3] == "object: "@ + yaml_text(text_or_nothing(data.get("object"@)))
    &&& lines[4] == "url: "@ + yaml_text(text_or_nothing(data.get("url"@)))
    &&& lines[5] == "created_time: "@ + yaml_text(text_or_nothing(data.get("created_time"@)))
    &&& lines[6] == "last_edited_time: "@ + yaml_text(
        text_or_nothing(data.get("last_edited_time"@)),
    )
    &&& lines.last() == "---"@
}

proof fn lemma_keys()
    ensures
        "id: "@ == "id"@ + ": "@,
        "object: "@ == "object"@ + ": "@,
        "url: "@ == "url"@ + ": "@,
        "created_time: "@ == "created_time"@ + ": "@,
        "last_edited_time: "@ == "last_edited_time"@ + ": "@,
{
    reveal_strlit(": ");
    reveal_strlit("id");
    reveal_strlit("id: ");
    reveal_strlit("object");
    reveal_strlit("object: ");
    reveal_strlit("url");
    reveal_strlit("url: ");
    reveal_strlit("created_time");
    reveal_strlit("created_time: ");
    reveal_strlit("last_edited_time");
    reveal_strlit("last_edited_time: ");
    assert("id: "@ =~= "id"@ + ": "@);
    assert("object: "@ =~= "object"@ + ": "@);
    assert("url: "@ =~= "url"@ + ": "@);
    assert("created_time: "@ =~= "created_time"@ + ": "@);
    assert("last_edited_time: "@ =~= "last_edited_time"@ + ": "@);
}

/// Without properties to show, and for anything but a page, the front matter holds the fields alone.
pub proof fn law_other_front_matter_is_short(data: JsonView, title: Seq<char>) -> (lines: Seq<
    Seq<char>,
>)
    requires
        data.text_at("object"@) != Some("page"@) || data.get("properties"@) is None || (data.get(
            "properties"@,
        ) matches Some(JsonView::Object(props)) && shown(props).len() == 0),
    ensures
        front_matter_text(data, title) == joined(lines, "\n"@),
        lines.len() == 8,
        is_front(data, title, lines),
{
    lemma_keys();
    if let Some(JsonView::Object(props)) = data.get("properties"@) {
        lemma_property_lines(props);
    }
    let top = seq![
        "---"@,
        "title: "@ + yaml_text(title),
        field_line(data, "id"@),
        field_line(data, "object"@),
        field_line(data, "url"@),
        field_line(data, "created_time"@),
        field_line(data, "last_edited_time"@),
    ];
    let lines = top + seq!["---"@];
    assert(property_section(data) =~= Seq::empty());
    assert(top + Seq::empty() + seq!["---"@] =~= lines);
    lines
}

// ---------------------------------------------------------------------------
// Columns
// ---------------------------------------------------------------------------
/// The properties that make columns: those of titles only where `titles`.
pub open spec fn counted(props: Seq<(Seq<char>, JsonView)>, titles: bool) -> Seq<
    (Seq<char>, JsonView),
> {
    props.filter(|p: (Seq<char>, JsonView)| titles || p.1.text_at("type"@) != Some("title"@))
}

/// The names of the properties of an object that make columns, in order.
pub open spec fn names_of(data: JsonView, titles: bool) -> Seq<Seq<char>> {
    match data.get("properties"@) {
        Some(JsonView::Object(props)) => counted(props, titles).map_values(
            |p: (Seq<char>, JsonView)| p.0,
        ),
        _ => Seq::empty(),
    }
}

proof fn lemma_with_columns(
    columns: Seq<Seq<char>>,
    props: Seq<(Seq<char>, JsonView)>,
    titles: bool,
)
    requires
        distinct_keys(props),
    ensures
        with_columns(columns, props, titles) == columns + counted(props, titles).map_values(
            |p: (Seq<char>, JsonView)| p.0,
        ).filter(|n: Seq<char>| !columns.contains(n)),
        forall|i: int|
            0 <= i < counted(props, titles).len() ==> props.contains(
                #[trigger] counted(props, titles)[i],
            ),
    decreases props.len(),
{
    reveal(Seq::filter);
    let keep = |p: (Seq<char>, JsonView)| titles || p.1.text_at("type"@) != Some("title"@);
    let fresh = |n: Seq<char>| !columns.contains(n);
    let name = |p: (Seq<char>, JsonView)| p.0;
    let all = counted(props, titles);
    let kept = all.map_values(name);
    if props.len() == 0 {
        assert(kept =~= Seq::empty());
        assert(columns + kept.filter(fresh) =~= columns);
    } else {
        let front = props.drop_last();
        let last = props.last();
        assert forall|i: int, j: int| 0 <= i < j < front.len() implies (#[trigger] front[i]).0 != (
        #[trigger] front[j]).0 by {
            assert(front[i] == props[i] && front[j] == props[j]);
        }
        lemma_with_columns(columns, front, titles);
        let before = counted(front, titles);
        let names = before.map_values(name);
        let out = with_columns(columns, front, titles);
        assert forall|i: int| 0 <= i < all.len() implies props.contains(#[trigger] all[i]) by {
            if i < before.len() {
                assert(all[i] == before[i]);
                assert(front.contains(before[i]));
                let k = choose|k: int| 0 <= k < front.len() && front[k] == before[i];
                assert(props[k] == all[i]);
            } else {
                assert(props[props.len() - 1] == all[i]);
            }
        }
        if keep(last) {
            assert(all == before.push(last));
            assert(kept =~= names.push(last.0));
            assert(kept.drop_last() =~= names);
            assert(kept.filter(fresh) == if fresh(last.0) {
                names.filter(fresh).push(last.0)
            } else {
                names.filter(fresh)
            });
            // The name is new among the names, as keys differ.
            assert(!names.contains(last.0)) by {
                if names.contains(last.0) {
                    let i = choose|i: int| 0 <= i < names.len() && names[i] == last.0;
                    assert(front.contains(before[i]));
                    let k = choose|k: int| 0 <= k < front.len() && front[k] == before[i];
                    assert(props[k].0 == props[props.len() - 1].0);
                }
            }
            if out.contains(last.0) && !columns.contains(last.0) {
                let i = choose|i: int| 0 <= i < out.len() && out[i] == last.0;
                let tail = names.filter(fresh);
                assert(out[i] == tail[i - columns.len()]);
                lemma_filtered(names, fresh, i - columns.len());
            }
            if columns.contains(last.0) {
                let i = choose|i: int| 0 <= i < columns.len() && columns[i] == last.0;
                assert(out[i] == last.0);
            }
            assert(with_columns(columns, props, titles) =~= columns + kept.filter(fresh));
        } else {
            assert(all == before);
        }
    }
}

proof fn lemma_filtered(names: Seq<Seq<char>>, pred: spec_fn(Seq<char>) -> bool, i: int)
    requires
        0 <= i < names.filter(pred).len(),
    ensures
        names.contains(names.filter(pred)[i]),
    decreases names.len(),
{
    reveal(Seq::filter);
    let front = names.drop_last();
    if i < front.filter(pred).len() {
        lemma_filtered(front, pred, i);
        let k = choose|k: int| 0 <= k < front.len() && front[k] == front.filter(pred)[i];
        assert(names[k] == names.filter(pred)[i]);
    } else {
        assert(names[names.len() - 1] == names.filter(pred)[i]);
    }
}

/// The columns are the names of the properties over all objects, each once, in the order in which
/// they first occur: one more object adds, behind the columns there are, those of its names that are
/// new, in its order.
pub proof fn law_columns_are_the_names_that_occur(data: Seq<JsonView>, more: JsonView, titles: bool)
    requires
        more.get("properties"@) matches Some(JsonView::Object(props)) ==> distinct_keys(props),
    ensures
        columns_of(Seq::empty(), titles) == Seq::<Seq<char>>::empty(),
        columns_of(data.push(more), titles) == columns_of(data, titles) + names_of(
            more,
            titles,
        ).filter(|n: Seq<char>| !columns_of(data, titles).contains(n)),
{
    let columns = columns_of(data, titles);
    assert(data.push(more).drop_last() =~= data);
    assert(data.push(more).last() == more);
    if let Some(JsonView::Object(props)) = more.get("properties"@) {
        lemma_with_columns(columns, props, titles);
        assert(properties(more) == props);
    } else {
        reveal(Seq::filter);
        assert(properties(more) =~= Seq::empty());
        assert(columns + names_of(more, titles).filter(|n: Seq<char>| !columns.contains(n))
            =~= columns);
    }
}

// ---------------------------------------------------------------------------
// Rows
// ---------------------------------------------------------------------------
/// The text under the name of a property; nothing where an object does not have it.
pub open spec fn is_value(data: JsonView, name: Seq<char>, text: Seq<char>) -> bool {
    match data.get("properties"@) {
        Some(props) => match props.get(name) {
            Some(prop) => text == property_text(prop),
            None => text.len() == 0,
        },
        None => text.len() == 0,
    }
}

/// The CSV index is read back as a header and a record for every row, in order: the URL of the row,
/// then its value in every column, whatever the values hold. Without rows it is empty.
pub proof fn law_csv_index_holds_every_value(data: Seq<JsonView>) -> (records: Seq<Seq<Seq<char>>>)
    ensures
        data.len() == 0 ==> csv_index(data).len() == 0,
        data.len() > 0 ==> {
            let columns = columns_of(data, true);
            &&& csv_reader(Seq::empty()).read(csv_index(data)) == csv_reader(records)
            &&& records.len() == data.len() + 1
            &&& records[0] == seq!["_url"@] + columns
            &&& forall|i: int|
                0 <= i < data.len() ==> {
                    &&& (#[trigger] records[i + 1]).len() == columns.len() + 1
                    &&& records[i + 1][0] == text_or_nothing(data[i].get("url"@))
                }
            &&& forall|i: int, j: int|
                0 <= i < data.len() && 0 <= j < columns.len() ==> is_value(
                    data[i],
                    columns[j],
                    #[trigger] records[i + 1][j + 1],
                )
        },
{
    let records = csv_cells(data);
    if data.len() > 0 {
        law_csv_index_reads_back(data);
        let columns = columns_of(data, true);
        assert forall|i: int, j: int| 0 <= i < data.len() && 0 <= j < columns.len() implies is_value(
            data[i],
            columns[j],
            #[trigger] records[i + 1][j + 1],
        ) by {
            assert(records[i + 1][j + 1] == value_in(data[i], columns[j]));
        }
    }
    records
}

/// The table of a database has a header, a rule and a line for every row, in order: the title of the
/// row, or else that it is untitled, linked to its page, then its value in every column but the
/// title's. Without rows it says so.
pub proof fn law_table_shows_every_value(rows: Seq<(Seq<char>, JsonView)>) -> (cells: Seq<
    Seq<Seq<char>>,
>)
    ensures
        rows.len() == 0 ==> rows_md(rows) == "_No rows._"@,
        rows.len() > 0 ==> {
            let columns = columns_of(rows.map_values(|r: (Seq<char>, JsonView)| r.1), false);
            &&& rows_md(rows) == joined(
                cells.map_values(|line: Seq<Seq<char>>| "| "@ + joined(line, " | "@) + " |"@),
                "\n"@,
            )
            &&& cells.len() == rows.len() + 2
            &&& forall|i: int|
                0 <= i < cells.len() ==> (#[trigger] cells[i]).len() == columns.len() + 1
            &&& cells[0][0] == cell_text("Name"@)
            &&& forall|j: int|
                0 <= j < columns.len() ==> #[trigger] cells[0][j + 1] == cell_text(columns[j])
            &&& forall|j: int| 0 <= j <= columns.len() ==> #[trigger] cells[1][j] == "---"@
            &&& forall|i: int| 0 <= i < rows.len() ==> is_row_link(rows[i], #[trigger] cells[i + 2][0])
            &&& forall|i: int, j: int|
                0 <= i < rows.len() && 0 <= j < columns.len() ==> is_cell(
                    rows[i].1,
                    columns[j],
                    #[trigger] cells[i + 2][j + 1],
                )
        },
{
    let columns = columns_of(row_data(rows), false);
    let header = seq!["Name"@] + columns;
    let cells = seq![in_cells(header), header.map_values(|h: Seq<char>| "---"@)]
        + rows.map_values(
        |row: (Seq<char>, JsonView)|
            seq![row_link(row.0, row.1)] + in_cells(values_in(row.1, columns)),
    );
    if rows.len() > 0 {
        let lines = cells.map_values(
            |line: Seq<Seq<char>>| "| "@ + joined(line, " | "@) + " |"@,
        );
        assert forall|i: int| 0 <= i < lines.len() implies lines[i] == row_lines(rows)[i] by {
            assert(lines[i] == bar_line(cells[i]));
            if i >= 2 {
                assert(cells[i] == seq![row_link(rows[i - 2].0, rows[i - 2].1)] + in_cells(
                    values_in(rows[i - 2].1, columns),
                ));
            }
        }
        assert(lines =~= row_lines(rows));
        assert(row_data(rows) =~= rows.map_values(|r: (Seq<char>, JsonView)| r.1));
        assert forall|i: int| 0 <= i < rows.len() implies is_row_link(
            rows[i],
            #[trigger] cells[i + 2][0],
        ) by {
            assert(cells[i + 2][0] == row_link(rows[i].0, rows[i].1));
        }
        assert forall|i: int, j: int| 0 <= i < rows.len() && 0 <= j < columns.len() implies is_cell(
            rows[i].1,
            columns[j],
            #[trigger] cells[i + 2][j + 1],
        ) by {
            assert(cells[i + 2][j + 1] == cell_text(value_in(rows[i].1, columns[j])));
            assert(is_value(rows[i].1, columns[j], value_in(rows[i].1, columns[j])));
        }
    }
    cells
}

/// Whether a cell links to the page of a row, under its title.
pub open spec fn is_row_link(row: (Seq<char>, JsonView), cell: Seq<char>) -> bool {
    let title = if title_of_page(row.1).len() == 0 {
        "Untitled"@
    } else {
        title_of_page(row.1)
    };
    cell == "["@ + label_text(cell_text(title)) + "]("@ + encoded(row.0 + "/index.md"@) + ")"@
}

/// Whether a cell holds the value of a property.
pub open spec fn is_cell(data: JsonView, name: Seq<char>, cell: Seq<char>) -> bool {
    exists|text: Seq<char>| #[trigger] is_value(data, name, text) && cell == cell_text(text)
}

// ---------------------------------------------------------------------------
// Escaped values
// ---------------------------------------------------------------------------
proof fn lemma_not_guarded(s: Seq<char>, place: Escape)
    requires
        forall|i: int| 0 <= i < s.len() && s[i] == '\\' ==> !leads_to_stop(
            #[trigger] s.skip(i + 1),
            place,
        ),
    ensures
        guarded(s, place) == s,
    decreases s.len(),
{
    if s.len() > 0 {
        let rest = s.skip(1);
        assert forall|i: int| 0 <= i < rest.len() && rest[i] == '\\' implies !leads_to_stop(
            #[trigger] rest.skip(i + 1),
            place,
        ) by {
            assert(rest.skip(i + 1) =~= s.skip(i + 2));
            assert(s[i + 1] == rest[i]);
            assert(!leads_to_stop(s.skip((i + 1) + 1), place));
        }
        lemma_not_guarded(rest, place);
        if s[0] == '\\' {
            assert(!leads_to_stop(s.skip(0int + 1), place));
        }
        assert(seq![s[0]] + rest =~= s);
    } else {
        assert(guarded(s, place) =~= s);
    }
}

proof fn lemma_escaped_same(s: Seq<char>, place: Escape)
    requires
        forall|i: int| 0 <= i < s.len() ==> escaped_char(#[trigger] s[i], place) == seq![s[i]],
    ensures
        escaped(s, place) == s,
    decreases s.len(),
{
    if s.len() > 0 {
        let front = s.drop_last();
        assert forall|i: int| 0 <= i < front.len() implies escaped_char(#[trigger] front[i], place)
            == seq![front[i]] by {
            assert(front[i] == s[i]);
        }
        lemma_escaped_same(front, place);
        assert(escaped_char(s[s.len() - 1], place) == seq![s[s.len() - 1]]);
        assert(front + seq![s.last()] =~= s);
    } else {
        assert(escaped(s, place) =~= s);
    }
}

proof fn lemma_no_stop(s: Seq<char>, i: int, place: Escape)
    requires
        0 <= i <= s.len(),
        place is Cell || place is Label,
        place is Cell ==> !s.contains('|'),
        place is Label ==> !s.contains('[') && !s.contains(']') && s.len() > 0 && s.last() != '\\',
        place is Label ==> i < s.len(),
    ensures
        !leads_to_stop(s.skip(i), place),
    decreases s.len() - i,
{
    if i < s.len() {
        let rest = s.skip(i);
        assert(rest[0] == s[i]);
        assert(s.contains(s[i]));
        assert(rest.skip(1) =~= s.skip(i + 1));
        if i + 1 < s.len() || place is Cell {
            lemma_no_stop(s, i + 1, place);
        } else {
            assert(s[i] == s.last());
        }
    }
}

/// A value is written into a cell as it is, unless it holds a bar or breaks the line; a title into a
/// label as it is, unless it holds a bracket or ends with a backslash.
pub proof fn law_harmless_values_stay(s: Seq<char>)
    ensures
        !s.contains('|') && !s.contains('\n') && !s.contains('\r') ==> cell_text(s) == s,
        !s.contains('[') && !s.contains(']') && (s.len() > 0 ==> s.last() != '\\') ==> label_text(s)
            == s,
{
    if !s.contains('|') && !s.contains('\n') && !s.contains('\r') {
        assert forall|i: int| 0 <= i < s.len() && s[i] == '\\' implies !leads_to_stop(
            #[trigger] s.skip(i + 1),
            Escape::Cell,
        ) by {
            lemma_no_stop(s, i + 1, Escape::Cell);
        }
        lemma_not_guarded(s, Escape::Cell);
        assert forall|i: int| 0 <= i < s.len() implies escaped_char(#[trigger] s[i], Escape::Cell)
            == seq![s[i]] by {
            assert(s.contains(s[i]));
        }
        lemma_escaped_same(s, Escape::Cell);
    }
    if !s.contains('[') && !s.contains(']') && (s.len() > 0 ==> s.last() != '\\') {
        assert forall|i: int| 0 <= i < s.len() && s[i] == '\\' implies !leads_to_stop(
            #[trigger] s.skip(i + 1),
            Escape::Label,
        ) by {
            assert(i < s.len() - 1);
            lemma_no_stop(s, i + 1, Escape::Label);
        }
        lemma_not_guarded(s, Escape::Label);
        assert forall|i: int| 0 <= i < s.len() implies escaped_char(#[trigger] s[i], Escape::Label)
            == seq![s[i]] by {
            assert(s.contains(s[i]));
        }
        lemma_escaped_same(s, Escape::Label);
    }
}

proof fn lemma_escaped_cat(a: Seq<char>, b: Seq<char>, place: Escape)
    ensures
        escaped(a + b, place) == escaped(a, place) + escaped(b, place),
    decreases b.len(),
{
    if b.len() == 0 {
        assert(a + b =~= a);
        assert(escaped(a, place) + escaped(b, place) =~= escaped(a, place));
    } else {
        lemma_escaped_cat(a, b.drop_last(), place);
        assert((a + b).drop_last() =~= a + b.drop_last());
        assert((a + b).last() == b.last());
        assert(escaped(a + b, place) =~= escaped(a, place) + escaped(b, place));
    }
}

/// In a cell a bar is written behind a backslash, and a line break as a blank; all that stands
/// around it is written as it would be alone.
pub proof fn law_cells_escape_bars_and_breaks(a: Seq<char>, c: char, b: Seq<char>)
    requires
        !a.contains('\\'),
        !b.contains('\\'),
        c != '\\',
    ensures
        cell_text(a + seq![c] + b) == cell_text(a) + cell_text(seq![c]) + cell_text(b),
        c == '|' ==> cell_text(seq![c]) == "\\|"@,
        c == '\n' || c == '\r' ==> cell_text(seq![c]) == " "@,
{
    reveal_strlit("\\|");
    reveal_strlit(" ");
    let all = a + seq![c] + b;
    assert forall|i: int| 0 <= i < all.len() implies all[i] != '\\' by {
        if i < a.len() {
            assert(a.contains(a[i]));
        } else if i > a.len() {
            assert(b.contains(b[i - a.len() - 1]));
        }
    }
    lemma_not_guarded(all, Escape::Cell);
    assert forall|i: int| 0 <= i < a.len() implies a[i] != '\\' by {
        assert(a.contains(a[i]));
    }
    assert forall|i: int| 0 <= i < b.len() implies b[i] != '\\' by {
        assert(b.contains(b[i]));
    }
    lemma_not_guarded(a, Escape::Cell);
    lemma_not_guarded(b, Escape::Cell);
    lemma_not_guarded(seq![c], Escape::Cell);
    lemma_escaped_cat(a, seq![c], Escape::Cell);
    lemma_escaped_cat(a + seq![c], b, Escape::Cell);
    let one = seq![c];
    assert(one.drop_last() =~= Seq::empty());
    assert(escaped(one.drop_last(), Escape::Cell) =~= Seq::empty());
    assert(escaped(one, Escape::Cell) =~= escaped_char(c, Escape::Cell));
    assert(c == '|' ==> escaped_char(c, Escape::Cell) =~= "\\|"@);
    assert(c == '\n' || c == '\r' ==> escaped_char(c, Escape::Cell) =~= " "@);
}

// ---------------------------------------------------------------------------
// Relative paths
// ---------------------------------------------------------------------------
/// Whether a name can be a directory of its own.
pub open spec fn is_name(name: Seq<char>) -> bool {
    name.len() > 0 && !name.contains('/') && name != "."@
}

proof fn lemma_names_read_back(parts: Seq<Seq<char>>)
    requires
        parts.len() > 0,
        forall|i: int| 0 <= i < parts.len() ==> is_name(#[trigger] parts[i]),
    ensures
        components(joined(parts, "/"@)) == parts,
    decreases parts.len(),
{
    reveal_strlit("/");
    let last = parts.last();
    assert(is_name(parts[parts.len() - 1]));
    law_paths_are_split_at_slashes(last, Seq::empty());
    if parts.len() > 1 {
        let front = parts.drop_last();
        assert forall|i: int| 0 <= i < front.len() implies is_name(#[trigger] front[i]) by {
            assert(front[i] == parts[i]);
        }
        lemma_names_read_back(front);
        law_paths_are_split_at_slashes(joined(front, "/"@), last);
        assert("/"@ =~= seq!['/']);
        assert(front + seq![last] =~= parts);
    } else {
        assert(parts =~= seq![last]);
    }
}

/// A relative path, read as a path, leads from its directory to its target.
pub proof fn law_relative_texts_lead_to_their_target(from: Seq<Seq<char>>, to: Seq<Seq<char>>)
    requires
        forall|i: int| 0 <= i < to.len() ==> #[trigger] to[i] != ".."@ && is_name(to[i]),
    ensures
        walked(from, components(relative(from, to))) == to,
{
    reveal_strlit(".");
    reveal_strlit("..");
    law_relative_paths_lead_to_their_target(from, to);
    let steps = way(from, to);
    if steps.len() == 0 {
        law_paths_are_split_at_slashes("."@, Seq::empty());
        assert(!"."@.contains('/'));
        assert(steps =~= Seq::empty());
    } else {
        crate::markup_laws::lemma_shared(from, to);
        let common = crate::markup::shared(from, to) as int;
        assert forall|i: int| 0 <= i < steps.len() implies is_name(#[trigger] steps[i]) by {
            let up = from.len() - common;
            if i < up {
                assert(steps[i] == ".."@);
                assert(!".."@.contains('/'));
            } else {
                assert(steps[i] == to.skip(common)[i - up]);
                assert(to[common + (i - up)] == steps[i]);
            }
        }
        lemma_names_read_back(steps);
    }
}

// ---------------------------------------------------------------------------
// What needs no escape
// ---------------------------------------------------------------------------
/// A field is written into a CSV record as it is, unless it holds a comma, a quote or a line break;
/// fields stand between commas, and a record ends with a line break.
pub proof fn law_plain_fields_stay(s: Seq<char>, fields: Seq<Seq<char>>)
    requires
        !s.contains(',') && !s.contains('"') && !s.contains('\n') && !s.contains('\r'),
    ensures
        csv_text(s) == s,
        fields.len() > 1 || fields.len() == 1 && fields[0].len() > 0 ==> csv_record(fields)
            == joined(fields.map_values(|f: Seq<char>| csv_text(f)), ","@) + "\r\n"@,
{
}

/// A text is written into YAML as it is, between quotes, unless it holds a quote, a backslash or what
/// cannot be printed.
pub proof fn law_printable_texts_stay(s: Seq<char>)
    requires
        forall|i: int|
            0 <= i < s.len() ==> {
                let p = #[trigger] s[i] as u32;
                &&& 0x20 <= p < 0x7f || 0xa0 <= p < 0x2028 || 0x2029 < p < 0xfffe || p > 0xffff
                &&& s[i] != '"' && s[i] != '\\'
            },
    ensures
        yaml_text(s) == "\""@ + s + "\""@,
{
    assert forall|i: int| 0 <= i < s.len() implies escaped_char(#[trigger] s[i], Escape::Yaml)
        == seq![s[i]] by {
        let p = s[i] as u32;
        assert(0x20 <= p < 0x7f || 0xa0 <= p < 0x2028 || 0x2029 < p < 0xfffe || p > 0xffff);
    }
    lemma_escaped_same(s, Escape::Yaml);
}

/// Whether a character of a link path stands for itself.
pub open spec fn is_unreserved(c: char) -> bool {
    ||| 'a' <= c <= 'z'
    ||| 'A' <= c <= 'Z'
    ||| '0' <= c <= '9'
    ||| c == '-'
    ||| c == '_'
    ||| c == '.'
    ||| c == '~'
    ||| c == '/'
}

proof fn lemma_kept_bytes(bytes: Seq<u8>, path: Seq<char>)
    requires
        bytes.len() == path.len(),
        forall|i: int|
            0 <= i < path.len() ==> is_unreserved(#[trigger] path[i]) && bytes[i] == path[i] as u8,
    ensures
        encoded_bytes(bytes) == path,
    decreases bytes.len(),
{
    if bytes.len() > 0 {
        let front = path.drop_last();
        assert forall|i: int| 0 <= i < front.len() implies is_unreserved(#[trigger] front[i])
            && bytes.drop_last()[i] == front[i] as u8 by {
            assert(front[i] == path[i]);
        }
        lemma_kept_bytes(bytes.drop_last(), front);
        let c = path[path.len() - 1];
        assert(is_unreserved(c));
        assert(encoded_byte(bytes.last()) =~= seq![c]);
        assert(front + seq![c] =~= path);
    } else {
        assert(encoded_bytes(bytes) =~= path);
    }
}

/// A path of letters, digits, dashes, underscores, dots, tildes and slashes is linked as it is.
pub proof fn law_plain_paths_stay(path: Seq<char>)
    requires
        forall|i: int| 0 <= i < path.len() ==> is_unreserved(#[trigger] path[i]),
    ensures
        encoded(path) == path,
{
    assert forall|i: int| 0 <= i < path.len() implies '\0' <= #[trigger] path[i] <= '\u{7f}' by {
        assert(is_unreserved(path[i]));
    }
    vstd::utf8::is_ascii_chars_encode_utf8(path);
    lemma_kept_bytes(vstd::utf8::encode_utf8(path), path);
}

// ---------------------------------------------------------------------------
// Backslashes
// ---------------------------------------------------------------------------
/// `n` backslashes.
pub open spec fn backslashes(n: nat) -> Seq<char> {
    Seq::new(n, |i: int| '\\')
}

proof fn lemma_leads_in_front(a: Seq<char>, b: Seq<char>, place: Escape)
    requires
        a.len() > 0,
        a.last() != '\\',
    ensures
        leads_to_stop(a + b, place) == leads_to_stop(a, place),
    decreases a.len(),
{
    assert((a + b)[0] == a[0]);
    if a.len() > 1 {
        assert((a + b).skip(1) =~= a.skip(1) + b);
        assert(a.skip(1).last() == a.last());
        lemma_leads_in_front(a.skip(1), b, place);
    } else {
        assert(a[0] == a.last());
    }
}

proof fn lemma_guarded_cat(a: Seq<char>, b: Seq<char>, place: Escape)
    requires
        a.len() > 0 ==> a.last() != '\\',
    ensures
        guarded(a + b, place) == guarded(a, place) + guarded(b, place),
    decreases a.len(),
{
    if a.len() == 0 {
        assert(a + b =~= b);
        assert(guarded(a, place) + guarded(b, place) =~= guarded(b, place));
    } else {
        let rest = a.skip(1);
        assert((a + b)[0] == a[0]);
        assert((a + b).skip(1) =~= rest + b);
        if rest.len() > 0 {
            assert(rest.last() == a.last());
            lemma_leads_in_front(rest, b, place);
        } else {
            assert(a[0] == a.last());
        }
        lemma_guarded_cat(rest, b, place);
        let head = if a[0] == '\\' && leads_to_stop(rest, place) {
            seq!['\\', '\\']
        } else {
            seq![a[0]]
        };
        assert(head + (guarded(rest, place) + guarded(b, place)) =~= head + guarded(rest, place)
            + guarded(b, place));
    }
}

proof fn lemma_run(n: nat, tail: Seq<char>, place: Escape)
    requires
        tail.len() > 0 ==> tail[0] != '\\',
    ensures
        leads_to_stop(backslashes(n) + tail, place) == leads_to_stop(tail, place),
        guarded(backslashes(n) + tail, place) == backslashes(
            if leads_to_stop(tail, place) {
                2 * n
            } else {
                n
            },
        ) + guarded(tail, place),
    decreases n,
{
    let all = backslashes(n) + tail;
    let leads = leads_to_stop(tail, place);
    if n == 0 {
        assert(all =~= tail);
        assert(backslashes(0) + guarded(tail, place) =~= guarded(tail, place));
    } else {
        let m = (n - 1) as nat;
        assert(all.skip(1) =~= backslashes(m) + tail);
        assert(all[0] == '\\');
        lemma_run(m, tail, place);
        if leads {
            assert(seq!['\\', '\\'] + (backslashes(2 * m) + guarded(tail, place)) =~= backslashes(
                2 * n,
            ) + guarded(tail, place));
        } else {
            assert(seq!['\\'] + (backslashes(m) + guarded(tail, place)) =~= backslashes(n) + guarded(
                tail,
                place,
            ));
        }
    }
}

proof fn lemma_escaped_backslashes(n: nat, place: Escape)
    requires
        place is Cell || place is Label,
    ensures
        escaped(backslashes(n), place) == backslashes(n),
{
    lemma_escaped_same(backslashes(n), place);
}

proof fn lemma_written_run(n: nat, c: char, place: Escape)
    requires
        c != '\\',
        place is Cell || place is Label,
    ensures
        escaped(guarded(backslashes(n).push(c), place), place) == backslashes(
            if is_stop(c, place) {
                2 * n
            } else {
                n
            },
        ) + escaped_char(c, place),
{
    let one = seq![c];
    let none = Seq::<char>::empty();
    assert(backslashes(n).push(c) =~= backslashes(n) + one);
    assert(leads_to_stop(one, place) == is_stop(c, place));
    lemma_run(n, one, place);
    assert(one.skip(1) =~= none);
    assert(guarded(none, place) =~= none);
    assert(guarded(one, place) =~= one);
    let k = if is_stop(c, place) {
        2 * n
    } else {
        n
    };
    lemma_escaped_cat(backslashes(k), one, place);
    lemma_escaped_backslashes(k, place);
    assert(one.drop_last() =~= none);
    assert(escaped(one.drop_last(), place) =~= none);
    assert(escaped(one, place) =~= escaped_char(c, place));
}

/// Cells and labels are written piece by piece, where a piece does not end with a backslash. In a
/// cell the backslashes in front of a bar are doubled, and no others; in a label those in front of a
/// bracket, and at the end, and no others. All else stays, but for the bars, the brackets and the
/// line breaks themselves.
pub proof fn law_values_are_written_piece_by_piece(a: Seq<char>, b: Seq<char>, n: nat, c: char)
    requires
        a.len() > 0 ==> a.last() != '\\',
        c != '\\',
    ensures
        cell_text(a + b) == cell_text(a) + cell_text(b),
        label_text(a + b) == label_text(a) + label_text(b),
        cell_text(backslashes(n).push('|')) == backslashes(2 * n) + "\\|"@,
        c != '|' && c != '\n' && c != '\r' ==> cell_text(backslashes(n).push(c)) == backslashes(
            n,
        ).push(c),
        c == '\n' || c == '\r' ==> cell_text(backslashes(n).push(c)) == backslashes(n).push(' '),
        cell_text(backslashes(n)) == backslashes(n),
        label_text(backslashes(n).push('[')) == backslashes(2 * n) + "\\["@,
        label_text(backslashes(n).push(']')) == backslashes(2 * n) + "\\]"@,
        c != '[' && c != ']' ==> label_text(backslashes(n).push(c)) == backslashes(n).push(c),
        label_text(backslashes(n)) == backslashes(2 * n),
{
    reveal_strlit("\\|");
    reveal_strlit("\\[");
    reveal_strlit("\\]");
    let none = Seq::<char>::empty();
    lemma_guarded_cat(a, b, Escape::Cell);
    lemma_guarded_cat(a, b, Escape::Label);
    lemma_escaped_cat(guarded(a, Escape::Cell), guarded(b, Escape::Cell), Escape::Cell);
    lemma_escaped_cat(guarded(a, Escape::Label), guarded(b, Escape::Label), Escape::Label);
    lemma_written_run(n, '|', Escape::Cell);
    lemma_written_run(n, c, Escape::Cell);
    lemma_written_run(n, '[', Escape::Label);
    lemma_written_run(n, ']', Escape::Label);
    lemma_written_run(n, c, Escape::Label);
    assert(escaped_char('|', Escape::Cell) =~= "\\|"@);
    assert(escaped_char('[', Escape::Label) =~= "\\["@);
    assert(escaped_char(']', Escape::Label) =~= "\\]"@);
    assert(backslashes(n) + seq![c] =~= backslashes(n).push(c));
    assert(backslashes(n) + seq![' '] =~= backslashes(n).push(' '));
    lemma_run(n, none, Escape::Cell);
    lemma_run(n, none, Escape::Label);
    assert(backslashes(n) + none =~= backslashes(n));
    assert(guarded(none, Escape::Cell) =~= none);
    assert(guarded(none, Escape::Label) =~= none);
    assert(backslashes(2 * n) + none =~= backslashes(2 * n));
    lemma_escaped_backslashes(n, Escape::Cell);
    lemma_escaped_backslashes(2 * n, Escape::Label);
}

} // verus!
