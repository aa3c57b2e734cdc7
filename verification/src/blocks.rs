//! Conversion of Notion block JSON into Markdown.
//!
//! Pure functions only. Child blocks are attached to their parent under [`CHILD_KEY`], which keeps
//! the converter free of API calls. Page references (inline links, mentions, `child_page`,
//! `child_database` and `link_to_page` blocks) are localised through an optional [`Resolve`]: given
//! a Notion id or URL it names the relative URL and the title of the target's rendered file, where
//! the target is known. Without one the Notion URLs and plain titles stay.

use vstd::prelude::*;
use vstd::string::*;

use crate::json::{lemma_items_at_smaller, view_in, views, Json, JsonView};
use crate::text::{
    cat2, cat3, cat4, cat5, join, joined, or_default, or_empty, or_untitled, repeat, repeated, same,
    text_of, texts,
};

verus! {

/// The field under which child blocks are attached to a block.
pub const CHILD_KEY: &'static str = "_children";

/// What a resolver knows: for a reference, the relative URL and the title of its target.
pub type Links = spec_fn(Seq<char>) -> Option<(Seq<char>, Seq<char>)>;

/// Finds the rendered file that a Notion id or URL refers to.
pub trait Resolve {
    /// The relative URL and the title of the target; nothing where the target is unknown. Which
    /// targets those are is left open, unless an implementation says so.
    open spec fn target(&self, reference: Seq<char>) -> Option<(Seq<char>, Seq<char>)> {
        arbitrary::<spec_fn(&Self, Seq<char>) -> Option<(Seq<char>, Seq<char>)>>()(self, reference)
    }

    fn resolve(&self, reference: &str) -> (r: Option<(String, String)>)
        ensures
            match r {
                Some((url, title)) => self.target(reference@) == Some((url@, title@)),
                None => self.target(reference@) is None,
            },
    ;
}

/// What an optional resolver knows: without one, nothing.
pub open spec fn links<R: Resolve>(resolve: Option<&R>) -> Links {
    |reference: Seq<char>|
        match resolve {
            Some(r) => r.target(reference),
            None => None,
        }
}

// ---------------------------------------------------------------------------
// Rich text
// ---------------------------------------------------------------------------
/// Whether an annotation is set.
pub open spec fn annotated(ann: Option<JsonView>, name: Seq<char>) -> bool {
    match ann {
        Some(a) => a.flag_at(name),
        None => false,
    }
}

/// `s` between two copies of `mark`, where `on`.
pub open spec fn marked(on: bool, mark: Seq<char>, s: Seq<char>) -> Seq<char> {
    if on {
        mark + s + mark
    } else {
        s
    }
}

/// A text with its annotations: code innermost, so that the other markers wrap the backticks.
pub open spec fn styled(text: Seq<char>, ann: Option<JsonView>) -> Seq<char> {
    let code = marked(annotated(ann, "code"@), "`"@, text);
    let bold = marked(annotated(ann, "bold"@), "**"@, code);
    let italic = marked(annotated(ann, "italic"@), "*"@, bold);
    marked(annotated(ann, "strikethrough"@), "~~"@, italic)
}

/// What a span refers to: the page that it mentions, else its `href`.
pub open spec fn span_reference(span: JsonView) -> Option<Seq<char>> {
    let href = span.text_at("href"@);
    match span.get("mention"@) {
        Some(mention) => if mention.text_at("type"@) == Some("page"@) {
            match mention.get("page"@) {
                Some(page) => match page.text_at("id"@) {
                    Some(id) => Some(id),
                    None => href,
                },
                None => href,
            }
        } else {
            href
        },
        None => href,
    }
}

/// The URL that a span links to: the target's own where it is known, else its `href`.
pub open spec fn span_target(span: JsonView, links: Links) -> Option<Seq<char>> {
    match span_reference(span) {
        Some(reference) => match links(reference) {
            Some((url, _)) => Some(url),
            None => span.text_at("href"@),
        },
        None => None,
    }
}

/// The Markdown of one span; nothing for an empty one.
pub open spec fn span_md(span: JsonView, links: Links) -> Seq<char> {
    let text = or_empty(span.text_at("plain_text"@));
    if text.len() == 0 {
        Seq::empty()
    } else {
        let out = styled(text, span.get("annotations"@));
        match span_target(span, links) {
            Some(url) => "["@ + out + "]("@ + url + ")"@,
            None => out,
        }
    }
}

/// The Markdown of the spans, in order.
pub open spec fn spans_md(spans: Seq<JsonView>, links: Links) -> Seq<char>
    decreases spans.len(),
{
    if spans.len() == 0 {
        Seq::empty()
    } else {
        spans_md(spans.drop_last(), links) + span_md(spans.last(), links)
    }
}

/// The items of an optional array; none where there is no array.
pub open spec fn items_of(value: Option<JsonView>) -> Seq<JsonView> {
    match value {
        Some(v) => match v.items() {
            Some(items) => items,
            None => Seq::empty(),
        },
        None => Seq::empty(),
    }
}

/// The Markdown of a rich-text array.
pub open spec fn rich_md(rich_text: Option<JsonView>, links: Links) -> Seq<char> {
    spans_md(items_of(rich_text), links)
}

/// The texts of the spans, in order.
pub open spec fn spans_plain(spans: Seq<JsonView>) -> Seq<char>
    decreases spans.len(),
{
    if spans.len() == 0 {
        Seq::empty()
    } else {
        spans_plain(spans.drop_last()) + or_empty(spans.last().text_at("plain_text"@))
    }
}

/// The unformatted text of a rich-text array.
pub open spec fn plain(rich_text: Option<JsonView>) -> Seq<char> {
    spans_plain(items_of(rich_text))
}

/// Takes the items of an optional array.
fn items<'a>(value: Option<&'a Json>) -> (r: Option<&'a Vec<Json>>)
    ensures
        items_of(view_in(value)) == match r {
            Some(list) => views(list@),
            None => Seq::empty(),
        },
{
    match value {
        Some(v) => v.as_array(),
        None => None,
    }
}

fn ann_flag(ann: Option<&Json>, name: &str) -> (r: bool)
    ensures
        r == annotated(view_in(ann), name@),
{
    match ann {
        Some(a) => a.flag_at(name),
        None => false,
    }
}

/// Wraps `s` in two copies of `mark`, where `on`.
fn mark_if(on: bool, mark: &str, s: String) -> (r: String)
    ensures
        r@ == marked(on, mark@, s@),
{
    if on {
        cat3(mark, &s, mark)
    } else {
        s
    }
}

/// The URL that a rich-text span should link to (localised if possible).
fn link_target<R: Resolve>(span: &Json, resolve: Option<&R>) -> (r: Option<String>)
    ensures
        match r {
            Some(url) => span_target(span@, links(resolve)) == Some(url@),
            None => span_target(span@, links(resolve)) is None,
        },
{
    let href: Option<&str> = span.text_at("href");
    // Page mentions carry the id under mention.page even when href is absent.
    let mut reference: Option<&str> = href;
    if let Some(mention) = span.get("mention") {
        if let Some(kind) = mention.text_at("type") {
            if same(kind, "page") {
                if let Some(page) = mention.get("page") {
                    if let Some(id) = page.text_at("id") {
                        reference = Some(id);
                    }
                }
            }
        }
    }
    assert(text_of(reference) == span_reference(span@));
    let target: &str = match reference {
        Some(t) => t,
        None => {
            return None;
        },
    };
    if let Some(resolver) = resolve {
        if let Some((url, _)) = resolver.resolve(target) {
            return Some(url);
        }
    }
    match href {
        Some(h) => Some(h.to_owned()),
        None => None,
    }
}

/// Renders one span of a rich-text array.
fn span_to_md<R: Resolve>(span: &Json, resolve: Option<&R>) -> (r: String)
    ensures
        r@ == span_md(span@, links(resolve)),
{
    let text: &str = match span.text_at("plain_text") {
        Some(t) => t,
        None => "",
    };
    proof {
        reveal_strlit("");
    }
    if text.is_empty() {
        return String::new();
    }
    let ann: Option<&Json> = span.get("annotations");
    let code: String = mark_if(ann_flag(ann, "code"), "`", text.to_owned());
    let bold: String = mark_if(ann_flag(ann, "bold"), "**", code);
    let italic: String = mark_if(ann_flag(ann, "italic"), "*", bold);
    let out: String = mark_if(ann_flag(ann, "strikethrough"), "~~", italic);
    match link_target(span, resolve) {
        Some(url) => cat5("[", &out, "](", &url, ")"),
        None => out,
    }
}

/// Renders a Notion rich-text array to Markdown, honoring annotations and links.
pub fn rich_text_to_md<R: Resolve>(rich_text: Option<&Json>, resolve: Option<&R>) -> (r: String)
    ensures
        r@ == rich_md(view_in(rich_text), links(resolve)),
{
    let mut out: String = String::new();
    if let Some(spans) = items(rich_text) {
        let ghost all = views(spans@);
        let mut i: usize = 0;
        assert(out@ =~= spans_md(all.take(0), links(resolve)));
        while i < spans.len()
            invariant
                i <= spans@.len(),
                all == views(spans@),
                out@ == spans_md(all.take(i as int), links(resolve)),
            decreases spans@.len() - i,
        {
            let part: String = span_to_md(&spans[i], resolve);
            out.append(&part);
            proof {
                let grown = all.take(i + 1);
                assert(grown.drop_last() =~= all.take(i as int));
                assert(grown.last() == spans@[i as int]@);
            }
            i += 1;
        }
        assert(all.take(i as int) =~= all);
    }
    out
}

/// Renders a rich-text array to unformatted plain text.
pub fn plain_text(rich_text: Option<&Json>) -> (r: String)
    ensures
        r@ == plain(view_in(rich_text)),
{
    let mut out: String = String::new();
    if let Some(spans) = items(rich_text) {
        let ghost all = views(spans@);
        let mut i: usize = 0;
        assert(out@ =~= spans_plain(all.take(0)));
        while i < spans.len()
            invariant
                i <= spans@.len(),
                all == views(spans@),
                out@ == spans_plain(all.take(i as int)),
            decreases spans@.len() - i,
        {
            proof {
                let grown = all.take(i + 1);
                assert(grown.drop_last() =~= all.take(i as int));
                assert(grown.last() == spans@[i as int]@);
                assert(out@ + Seq::empty() =~= out@);
            }
            if let Some(text) = spans[i].text_at("plain_text") {
                out.append(text);
            }
            i += 1;
        }
        assert(all.take(i as int) =~= all);
    }
    out
}

// ---------------------------------------------------------------------------
// Single blocks
// ---------------------------------------------------------------------------
/// A reference to another page or database as a list item: a link where the target is known, else
/// the bare title, else nothing.
pub open spec fn reference_md(
    indent: Seq<char>,
    icon: Seq<char>,
    notion_id: Option<Seq<char>>,
    title: Seq<char>,
    links: Links,
) -> Seq<char> {
    let known = match notion_id {
        Some(id) => links(id),
        None => None,
    };
    match known {
        Some((url, target_title)) => {
            let label = or_default(title, or_default(target_title, "Untitled"@));
            indent + "- "@ + icon + " ["@ + label + "]("@ + url + ")"@
        },
        None => if title.len() == 0 {
            Seq::empty()
        } else {
            indent + "- "@ + icon + " "@ + title
        },
    }
}

/// A media block: an image or a link to the file; a comment where it has no URL.
pub open spec fn media_md(btype: Seq<char>, data: JsonView) -> Seq<char> {
    let file = match data.text_at("type"@) {
        Some(t) => data.get(t),
        None => None,
    };
    let url = match file {
        Some(f) => or_empty(f.text_at("url"@)),
        None => Seq::empty(),
    };
    let caption = or_default(plain(data.get("caption"@)), btype);
    if url.len() == 0 {
        "<!-- "@ + btype + " (no url) -->"@
    } else if btype == "image"@ {
        "!["@ + caption + "]("@ + url + ")"@
    } else {
        "["@ + caption + "]("@ + url + ")"@
    }
}

/// A bookmark: its caption, or else its URL, as a link; nothing without a URL.
pub open spec fn bookmark_md(data: JsonView, links: Links) -> Seq<char> {
    let url = or_empty(data.text_at("url"@));
    let caption = or_default(rich_md(data.get("caption"@), links), url);
    if url.len() == 0 {
        Seq::empty()
    } else {
        "["@ + caption + "]("@ + url + ")"@
    }
}

/// The emoji of a callout, followed by a blank; nothing where it has another icon or none.
pub open spec fn callout_prefix(data: JsonView) -> Seq<char> {
    let emoji = match data.get("icon"@) {
        Some(icon) => if icon.text_at("type"@) == Some("emoji"@) {
            or_empty(icon.text_at("emoji"@))
        } else {
            Seq::empty()
        },
        None => Seq::empty(),
    };
    if emoji.len() == 0 {
        Seq::empty()
    } else {
        emoji + " "@
    }
}

/// The page or the database that a `link_to_page` block points to.
pub open spec fn linked_id(data: JsonView) -> Option<Seq<char>> {
    match data.text_at("page_id"@) {
        Some(id) => Some(id),
        None => data.text_at("database_id"@),
    }
}

/// The payload of a block: the object under the name of its type.
pub open spec fn block_data(block: JsonView) -> JsonView {
    match block.get(block_type(block)) {
        Some(v) => if v is Object {
            v
        } else {
            JsonView::Object(Seq::empty())
        },
        None => JsonView::Object(Seq::empty()),
    }
}

/// The type of a block.
pub open spec fn block_type(block: JsonView) -> Seq<char> {
    or_empty(block.text_at("type"@))
}

/// Whether a block type holds a file.
pub open spec fn is_media(btype: Seq<char>) -> bool {
    btype == "image"@ || btype == "file"@ || btype == "video"@ || btype == "pdf"@
}

/// What a block writes for itself, its children left aside. Tables have no such line.
pub open spec fn own_md(block: JsonView, depth: nat, links: Links) -> Seq<char> {
    let btype = block_type(block);
    let data = block_data(block);
    let indent = repeated("  "@, depth);
    let rich = rich_md(data.get("rich_text"@), links);
    if btype == "paragraph"@ {
        indent + rich
    } else if btype == "heading_1"@ {
        "# "@ + rich
    } else if btype == "heading_2"@ {
        "## "@ + rich
    } else if btype == "heading_3"@ {
        "### "@ + rich
    } else if btype == "bulleted_list_item"@ {
        indent + "- "@ + rich
    } else if btype == "numbered_list_item"@ {
        indent + "1. "@ + rich
    } else if btype == "to_do"@ {
        indent + (if data.flag_at("checked"@) {
            "- [x] "@
        } else {
            "- [ ] "@
        }) + rich
    } else if btype == "toggle"@ {
        indent + "- "@ + rich
    } else if btype == "quote"@ {
        indent + "> "@ + rich
    } else if btype == "callout"@ {
        indent + "> "@ + callout_prefix(data) + rich
    } else if btype == "code"@ {
        "```"@ + or_empty(data.text_at("language"@)) + "\n"@ + plain(data.get("rich_text"@))
            + "\n```"@
    } else if btype == "divider"@ {
        "---"@
    } else if is_media(btype) {
        media_md(btype, data)
    } else if btype == "bookmark"@ {
        bookmark_md(data, links)
    } else if btype == "equation"@ {
        "$$\n"@ + or_empty(data.text_at("expression"@)) + "\n$$"@
    } else if btype == "child_page"@ {
        reference_md(
            indent,
            "\u{1F4C4}"@,
            block.text_at("id"@),
            or_empty(data.text_at("title"@)),
            links,
        )
    } else if btype == "child_database"@ {
        reference_md(
            indent,
            "\u{1F4CA}"@,
            block.text_at("id"@),
            or_empty(data.text_at("title"@)),
            links,
        )
    } else if btype == "link_to_page"@ {
        reference_md(indent, "\u{1F517}"@, linked_id(data), Seq::empty(), links)
    } else if btype == "unsupported"@ {
        indent + "<!-- unsupported block -->"@
    } else {
        indent + "<!-- unhandled block type: "@ + btype + " -->"@
    }
}

/// Renders a reference to another page or database as a Markdown list item.
fn ref_link<R: Resolve>(
    indent: &str,
    icon: &str,
    notion_id: Option<&str>,
    title: &str,
    resolve: Option<&R>,
) -> (r: String)
    ensures
        r@ == reference_md(indent@, icon@, text_of(notion_id), title@, links(resolve)),
{
    if let Some(id) = notion_id {
        if let Some(resolver) = resolve {
            if let Some((url, target_title)) = resolver.resolve(id) {
                let label: String = or_untitled(
                    title.to_owned(),
                    &or_untitled(target_title, "Untitled"),
                );
                let head: String = cat4(indent, "- ", icon, " [");
                return cat5(&head, &label, "](", &url, ")");
            }
        }
    }
    if title.is_empty() {
        String::new()
    } else {
        cat5(indent, "- ", icon, " ", title)
    }
}

/// A copy of an optional text, empty where there is none.
fn owned_or_empty(value: Option<&str>) -> (r: String)
    ensures
        r@ == or_empty(text_of(value)),
{
    match value {
        Some(s) => s.to_owned(),
        None => String::new(),
    }
}

fn media_to_md(btype: &str, data: &Json) -> (r: String)
    ensures
        r@ == media_md(btype@, data@),
{
    let file: Option<&Json> = match data.text_at("type") {
        Some(t) => data.get(t),
        None => None,
    };
    let url: String = match file {
        Some(f) => owned_or_empty(f.text_at("url")),
        None => String::new(),
    };
    let caption: String = or_untitled(plain_text(data.get("caption")), btype);
    if url.as_str().is_empty() {
        cat3("<!-- ", btype, " (no url) -->")
    } else if same(btype, "image") {
        cat5("![", &caption, "](", &url, ")")
    } else {
        cat5("[", &caption, "](", &url, ")")
    }
}

fn bookmark_to_md<R: Resolve>(data: &Json, resolve: Option<&R>) -> (r: String)
    ensures
        r@ == bookmark_md(data@, links(resolve)),
{
    let url: String = owned_or_empty(data.text_at("url"));
    let caption: String = or_untitled(rich_text_to_md(data.get("caption"), resolve), &url);
    if url.as_str().is_empty() {
        String::new()
    } else {
        cat5("[", &caption, "](", &url, ")")
    }
}

fn callout_to_prefix(data: &Json) -> (r: String)
    ensures
        r@ == callout_prefix(data@),
{
    if let Some(icon) = data.get("icon") {
        if let Some(kind) = icon.text_at("type") {
            if same(kind, "emoji") {
                let emoji: String = owned_or_empty(icon.text_at("emoji"));
                if emoji.as_str().is_empty() {
                    return String::new();
                }
                return cat2(&emoji, " ");
            }
        }
    }
    String::new()
}

/// Renders what a block writes for itself.
fn own_to_md<R: Resolve>(block: &Json, depth: usize, resolve: Option<&R>) -> (r: String)
    ensures
        r@ == own_md(block@, depth as nat, links(resolve)),
{
    let btype: String = owned_or_empty(block.text_at("type"));
    let empty: Json = Json::object(Vec::new());
    proof {
        assert(empty@->Object_0 =~= Seq::empty());
    }
    let data: &Json = match block.get(&btype) {
        Some(v) => if v.is_object() {
            v
        } else {
            &empty
        },
        None => &empty,
    };
    assert(data@ == block_data(block@));
    let indent: String = repeat("  ", depth);
    let rich: String = rich_text_to_md(data.get("rich_text"), resolve);
    let id: Option<&str> = block.text_at("id");
    let title: String = owned_or_empty(data.text_at("title"));
    proof {
        reveal_strlit("");
        assert(""@ =~= Seq::empty());
    }
    if same(&btype, "paragraph") {
        cat2(&indent, &rich)
    } else if same(&btype, "heading_1") {
        cat2("# ", &rich)
    } else if same(&btype, "heading_2") {
        cat2("## ", &rich)
    } else if same(&btype, "heading_3") {
        cat2("### ", &rich)
    } else if same(&btype, "bulleted_list_item") {
        cat3(&indent, "- ", &rich)
    } else if same(&btype, "numbered_list_item") {
        cat3(&indent, "1. ", &rich)
    } else if same(&btype, "to_do") {
        if data.flag_at("checked") {
            cat3(&indent, "- [x] ", &rich)
        } else {
            cat3(&indent, "- [ ] ", &rich)
        }
    } else if same(&btype, "toggle") {
        cat3(&indent, "- ", &rich)
    } else if same(&btype, "quote") {
        cat3(&indent, "> ", &rich)
    } else if same(&btype, "callout") {
        cat4(&indent, "> ", &callout_to_prefix(data), &rich)
    } else if same(&btype, "code") {
        let language: String = owned_or_empty(data.text_at("language"));
        cat5("```", &language, "\n", &plain_text(data.get("rich_text")), "\n```")
    } else if same(&btype, "divider") {
        "---".to_owned()
    } else if same(&btype, "image") || same(&btype, "file") || same(&btype, "video") || same(
        &btype,
        "pdf",
    ) {
        media_to_md(&btype, data)
    } else if same(&btype, "bookmark") {
        bookmark_to_md(data, resolve)
    } else if same(&btype, "equation") {
        cat3("$$\n", &owned_or_empty(data.text_at("expression")), "\n$$")
    } else if same(&btype, "child_page") {
        ref_link(&indent, "\u{1F4C4}", id, &title, resolve)
    } else if same(&btype, "child_database") {
        ref_link(&indent, "\u{1F4CA}", id, &title, resolve)
    } else if same(&btype, "link_to_page") {
        let target: Option<&str> = match data.text_at("page_id") {
            Some(page) => Some(page),
            None => data.text_at("database_id"),
        };
        ref_link(&indent, "\u{1F517}", target, "", resolve)
    } else if same(&btype, "unsupported") {
        cat2(&indent, "<!-- unsupported block -->")
    } else {
        cat4(&indent, "<!-- unhandled block type: ", &btype, " -->")
    }
}

// ---------------------------------------------------------------------------
// Tables
// ---------------------------------------------------------------------------
/// The rendered cells of a table row.
pub open spec fn row_cells(row: JsonView, links: Links) -> Seq<Seq<char>> {
    let cells = match row.get("table_row"@) {
        Some(table_row) => items_of(table_row.get("cells"@)),
        None => Seq::empty(),
    };
    cells.map_values(|cell: JsonView| rich_md(Some(cell), links))
}

/// The rendered cells of the rows.
pub open spec fn table_cells(rows: Seq<JsonView>, links: Links) -> Seq<Seq<Seq<char>>> {
    rows.map_values(|row: JsonView| row_cells(row, links))
}

/// The number of cells in the longest row.
pub open spec fn table_width(rows: Seq<Seq<Seq<char>>>) -> nat
    decreases rows.len(),
{
    if rows.len() == 0 {
        0
    } else {
        let before = table_width(rows.drop_last());
        if rows.last().len() > before {
            rows.last().len()
        } else {
            before
        }
    }
}

/// One table line of the given cells.
pub open spec fn table_line(cells: Seq<Seq<char>>) -> Seq<char> {
    "| "@ + joined(cells, " | "@) + " |"@
}

/// The cells, filled up with empty ones.
pub open spec fn padded(cells: Seq<Seq<char>>, width: nat) -> Seq<Seq<char>> {
    cells + Seq::new((width - cells.len()) as nat, |i: int| Seq::<char>::empty())
}

/// `width` cells of dashes.
pub open spec fn dashes(width: nat) -> Seq<Seq<char>> {
    Seq::new(width, |i: int| "---"@)
}

/// The lines of a table: every row filled up to the same width, a separator behind the first.
pub open spec fn table_lines(rows: Seq<Seq<Seq<char>>>, width: nat) -> Seq<Seq<char>>
    decreases rows.len(),
{
    if rows.len() == 0 {
        Seq::empty()
    } else {
        let before = table_lines(rows.drop_last(), width);
        let with_row = before.push(table_line(padded(rows.last(), width)));
        if rows.len() == 1 {
            with_row.push(table_line(dashes(width)))
        } else {
            with_row
        }
    }
}

/// The Markdown of a table block.
pub open spec fn table_md(block: JsonView, links: Links) -> Seq<char> {
    let rows = table_cells(items_of(block.get(CHILD_KEY@)), links);
    joined(table_lines(rows, table_width(rows)), "\n"@)
}

/// The texts of a grid of strings.
pub open spec fn grid(rows: Seq<Vec<String>>) -> Seq<Seq<Seq<char>>> {
    rows.map_values(|row: Vec<String>| texts(row@))
}

fn row_to_cells<R: Resolve>(row: &Json, resolve: Option<&R>) -> (r: Vec<String>)
    ensures
        texts(r@) == row_cells(row@, links(resolve)),
{
    let mut out: Vec<String> = Vec::new();
    let cells: Option<&Vec<Json>> = match row.get("table_row") {
        Some(table_row) => items(table_row.get("cells")),
        None => None,
    };
    if let Some(list) = cells {
        let mut i: usize = 0;
        while i < list.len()
            invariant
                i <= list@.len(),
                out@.len() == i,
                forall|j: int|
                    0 <= j < i ==> (#[trigger] out@[j])@ == rich_md(
                        Some(list@[j]@),
                        links(resolve),
                    ),
            decreases list@.len() - i,
        {
            out.push(rich_text_to_md(Some(&list[i]), resolve));
            i += 1;
        }
    }
    assert(texts(out@) =~= row_cells(row@, links(resolve)));
    out
}

fn line_of(cells: &Vec<String>) -> (r: String)
    ensures
        r@ == table_line(texts(cells@)),
{
    cat3("| ", &join(cells, " | "), " |")
}

fn padded_line(cells: &Vec<String>, width: usize) -> (r: String)
    requires
        cells@.len() <= width,
    ensures
        r@ == table_line(padded(texts(cells@), width as nat)),
{
    let mut out: Vec<String> = Vec::new();
    let mut i: usize = 0;
    while i < width
        invariant
            i <= width,
            cells@.len() <= width,
            out@.len() == i,
            forall|j: int|
                0 <= j < i ==> (#[trigger] out@[j])@ == padded(texts(cells@), width as nat)[j],
        decreases width - i,
    {
        if i < cells.len() {
            out.push(cells[i].clone());
        } else {
            out.push(String::new());
        }
        i += 1;
    }
    assert(texts(out@) =~= padded(texts(cells@), width as nat));
    line_of(&out)
}

fn dash_line(width: usize) -> (r: String)
    ensures
        r@ == table_line(dashes(width as nat)),
{
    let mut out: Vec<String> = Vec::new();
    let mut i: usize = 0;
    while i < width
        invariant
            i <= width,
            out@.len() == i,
            forall|j: int| 0 <= j < i ==> (#[trigger] out@[j])@ == "---"@,
        decreases width - i,
    {
        out.push("---".to_owned());
        i += 1;
    }
    assert(texts(out@) =~= dashes(width as nat));
    line_of(&out)
}

/// Lays out the rows of a table, one line each, with a separator behind the first.
fn layout(rows: &Vec<Vec<String>>, width: usize) -> (r: String)
    requires
        forall|i: int| 0 <= i < rows@.len() ==> (#[trigger] rows@[i])@.len() <= width,
    ensures
        r@ == joined(table_lines(grid(rows@), width as nat), "\n"@),
{
    let ghost all = grid(rows@);
    let mut lines: Vec<String> = Vec::new();
    let mut i: usize = 0;
    assert(texts(lines@) =~= table_lines(all.take(0), width as nat));
    while i < rows.len()
        invariant
            i <= rows@.len(),
            all == grid(rows@),
            forall|j: int| 0 <= j < rows@.len() ==> (#[trigger] rows@[j])@.len() <= width,
            texts(lines@) == table_lines(all.take(i as int), width as nat),
        decreases rows@.len() - i,
    {
        let ghost before = texts(lines@);
        let ghost grown = all.take(i + 1);
        assert(grown.drop_last() =~= all.take(i as int));
        assert(grown.last() == texts(rows@[i as int]@));
        lines.push(padded_line(&rows[i], width));
        assert(texts(lines@) =~= before.push(table_line(padded(grown.last(), width as nat))));
        if i == 0 {
            // Always a separator behind the first row, so that the rows render as a table; where
            // there is no real header, the first row acts as one.
            let ghost with_row = texts(lines@);
            lines.push(dash_line(width));
            assert(texts(lines@) =~= with_row.push(table_line(dashes(width as nat))));
        }
        i += 1;
    }
    assert(all.take(i as int) =~= all);
    join(&lines, "\n")
}

proof fn lemma_width_bounds(rows: Seq<Seq<Seq<char>>>, i: int)
    requires
        0 <= i < rows.len(),
    ensures
        rows[i].len() <= table_width(rows),
    decreases rows.len(),
{
    if i < rows.len() - 1 {
        lemma_width_bounds(rows.drop_last(), i);
    }
}

/// Renders a table block from its attached `table_row` children.
fn table_to_md<R: Resolve>(block: &Json, resolve: Option<&R>) -> (r: String)
    ensures
        r@ == table_md(block@, links(resolve)),
{
    let mut rows: Vec<Vec<String>> = Vec::new();
    let mut width: usize = 0;
    let ghost target = table_cells(items_of(block@.get(CHILD_KEY@)), links(resolve));
    if let Some(list) = items(block.get(CHILD_KEY)) {
        let mut i: usize = 0;
        assert(grid(rows@) =~= target.take(0));
        while i < list.len()
            invariant
                i <= list@.len(),
                target.len() == list@.len(),
                forall|j: int|
                    0 <= j < list@.len() ==> #[trigger] target[j] == row_cells(
                        list@[j]@,
                        links(resolve),
                    ),
                grid(rows@) == target.take(i as int),
                width == table_width(grid(rows@)),
            decreases list@.len() - i,
        {
            let ghost before = grid(rows@);
            let cells: Vec<String> = row_to_cells(&list[i], resolve);
            if cells.len() > width {
                width = cells.len();
            }
            rows.push(cells);
            proof {
                assert(grid(rows@) =~= before.push(texts(cells@)));
                assert(grid(rows@).drop_last() =~= before);
                assert(target.take(i + 1) =~= before.push(target[i as int]));
            }
            i += 1;
        }
        assert(target.take(i as int) =~= target);
    } else {
        assert(grid(rows@) =~= target);
    }
    proof {
        assert forall|i: int| 0 <= i < rows@.len() implies (#[trigger] rows@[i])@.len()
            <= width by {
            lemma_width_bounds(grid(rows@), i);
            assert(grid(rows@)[i] == texts(rows@[i]@));
        }
    }
    layout(&rows, width)
}

// ---------------------------------------------------------------------------
// Block trees
// ---------------------------------------------------------------------------
/// One level further in.
pub open spec fn deeper(depth: nat) -> nat {
    if depth < usize::MAX {
        depth + 1
    } else {
        depth
    }
}

/// `head`, then `tail` on the next line; one alone where the other is empty.
pub open spec fn stacked(head: Seq<char>, tail: Seq<char>) -> Seq<char> {
    if tail.len() == 0 {
        head
    } else if head.len() == 0 {
        tail
    } else {
        head + "\n"@ + tail
    }
}

/// The Markdown of a block and of the children attached to it.
pub open spec fn block_md(block: JsonView, depth: nat, links: Links) -> Seq<char>
    decreases block,
{
    if block_type(block) == "table"@ {
        table_md(block, links)
    } else {
        match block.items_at(CHILD_KEY@) {
            Some(children) => {
                proof {
                    lemma_items_at_smaller(block, CHILD_KEY@);
                }
                stacked(
                    own_md(block, depth, links),
                    joined(chunks(children, deeper(depth), links), "\n"@),
                )
            },
            None => own_md(block, depth, links),
        }
    }
}

/// The Markdown of every block that writes anything.
pub open spec fn chunks(blocks: Seq<JsonView>, depth: nat, links: Links) -> Seq<Seq<char>>
    decreases blocks,
{
    if blocks.len() == 0 {
        Seq::empty()
    } else {
        let before = chunks(blocks.drop_last(), depth, links);
        let chunk = block_md(blocks.last(), depth, links);
        if chunk.len() == 0 {
            before
        } else {
            before.push(chunk)
        }
    }
}

/// The Markdown of sibling blocks, one below the other.
pub open spec fn fragment_md(blocks: Seq<JsonView>, depth: nat, links: Links) -> Seq<char> {
    joined(chunks(blocks, depth, links), "\n"@)
}

/// Renders a single block, with its attached children, to Markdown.
pub fn block_to_md<R: Resolve>(block: &Json, depth: usize, resolve: Option<&R>) -> (r: String)
    ensures
        r@ == block_md(block@, depth as nat, links(resolve)),
    decreases block@, 1nat,
{
    let is_table: bool = match block.text_at("type") {
        Some(t) => same(t, "table"),
        None => false,
    };
    proof {
        reveal_strlit("table");
        if block@.text_at("type"@) is None {
            assert(Seq::<char>::empty() != "table"@) by {
                assert("table"@.len() == 5);
            }
        }
    }
    if is_table {
        return table_to_md(block, resolve);
    }
    let line: String = own_to_md(block, depth, resolve);
    match block.items_at(CHILD_KEY) {
        Some(children) => {
            let inner: usize = if depth < usize::MAX {
                depth + 1
            } else {
                depth
            };
            proof {
                lemma_items_at_smaller(block@, CHILD_KEY@);
            }
            let below: String = blocks_to_md(children, inner, resolve);
            if below.as_str().is_empty() {
                line
            } else if line.as_str().is_empty() {
                below
            } else {
                cat3(&line, "\n", &below)
            }
        },
        None => line,
    }
}

/// Renders a list of sibling blocks to a Markdown document fragment.
pub fn blocks_to_md<R: Resolve>(blocks: &Vec<Json>, depth: usize, resolve: Option<&R>) -> (r:
    String)
    ensures
        r@ == fragment_md(views(blocks@), depth as nat, links(resolve)),
    decreases views(blocks@), 0nat,
{
    let ghost all = views(blocks@);
    let mut out: Vec<String> = Vec::new();
    let mut i: usize = 0;
    assert(texts(out@) =~= chunks(all.take(0), depth as nat, links(resolve)));
    while i < blocks.len()
        invariant
            i <= blocks@.len(),
            all == views(blocks@),
            texts(out@) == chunks(all.take(i as int), depth as nat, links(resolve)),
        decreases blocks@.len() - i,
    {
        proof {
            let grown = all.take(i + 1);
            assert(grown.drop_last() =~= all.take(i as int));
            assert(grown.last() == blocks@[i as int]@);
            assert(decreases_to!(all => all[i as int]));
        }
        let ghost before = texts(out@);
        let chunk: String = block_to_md(&blocks[i], depth, resolve);
        if !chunk.as_str().is_empty() {
            out.push(chunk);
            assert(texts(out@) =~= before.push(chunk@));
        }
        i += 1;
    }
    assert(all.take(i as int) =~= all);
    join(&out, "\n")
}

// ---------------------------------------------------------------------------
// What holds of the conversion
// ---------------------------------------------------------------------------
/// What is known without a resolver: nothing.
pub open spec fn no_links() -> Links {
    |reference: Seq<char>| None
}

/// Without a resolver the URLs of spans stay as they are.
pub proof fn law_urls_stay_without_a_resolver(span: JsonView)
    ensures
        span_target(span, no_links()) == span.text_at("href"@),
{
}

/// Without a resolver a reference to a page keeps its plain title.
pub proof fn law_titles_stay_without_a_resolver(
    indent: Seq<char>,
    icon: Seq<char>,
    notion_id: Option<Seq<char>>,
    title: Seq<char>,
)
    requires
        title.len() > 0,
    ensures
        reference_md(indent, icon, notion_id, title, no_links()) == indent + "- "@ + icon + " "@
            + title,
{
}

/// A span without annotations and without a link is its own text: nothing is added to it.
pub proof fn law_plain_spans_stay(span: JsonView, links: Links)
    requires
        span.get("annotations"@) is None,
        span.get("mention"@) is None,
        span.get("href"@) is None,
    ensures
        span_md(span, links) == or_empty(span.text_at("plain_text"@)),
{
    let text = or_empty(span.text_at("plain_text"@));
    assert(text.len() == 0 ==> text =~= Seq::empty());
}

/// The lines of a table: one for every row, and the separator; every row is filled up to the width
/// of the longest.
pub proof fn law_tables_are_rectangular(rows: Seq<Seq<Seq<char>>>, i: int)
    requires
        0 <= i < rows.len(),
    ensures
        table_lines(rows, table_width(rows)).len() == rows.len() + 1,
        padded(rows[i], table_width(rows)).len() == table_width(rows),
        dashes(table_width(rows)).len() == table_width(rows),
        table_lines(rows, table_width(rows))[if i == 0 {
            0
        } else {
            i + 1
        }] == table_line(padded(rows[i], table_width(rows))),
        table_lines(rows, table_width(rows))[1] == table_line(dashes(table_width(rows))),
{
    lemma_width_bounds(rows, i);
    lemma_table_lines(rows, table_width(rows), i);
}

proof fn lemma_table_lines(rows: Seq<Seq<Seq<char>>>, width: nat, i: int)
    requires
        0 <= i < rows.len(),
    ensures
        table_lines(rows, width).len() == rows.len() + 1,
        table_lines(rows, width)[if i == 0 {
            0
        } else {
            i + 1
        }] == table_line(padded(rows[i], width)),
        table_lines(rows, width)[1] == table_line(dashes(width)),
    decreases rows.len(),
{
    let front = rows.drop_last();
    if rows.len() == 1 {
        assert(table_lines(front, width).len() == 0);
    } else if i < rows.len() - 1 {
        lemma_table_lines(front, width, i);
    } else {
        lemma_table_lines(front, width, 0);
    }
}

/// Blocks that write nothing leave no trace between the others.
pub proof fn law_empty_blocks_leave_no_trace(
    blocks: Seq<JsonView>,
    block: JsonView,
    depth: nat,
    links: Links,
)
    requires
        block_md(block, depth, links).len() == 0,
    ensures
        fragment_md(blocks.push(block), depth, links) == fragment_md(blocks, depth, links),
{
    assert(blocks.push(block).drop_last() =~= blocks);
}

} // verus!
