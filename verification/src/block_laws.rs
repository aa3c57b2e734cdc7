//! What holds of the Markdown of rich texts, blocks and block trees.

use vstd::prelude::*;

use crate::blocks::{
    annotated, block_data, block_md, block_type, chunks, dashes, fragment_md,
    law_tables_are_rectangular, links, marked, own_md, padded, plain, rich_md, row_cells, span_md,
    spans_md, styled, table_cells, table_lines, table_md, table_width, Links, Resolve,
};
use crate::json::JsonView;
use crate::text::{joined, repeated};
use crate::text_laws::{blanks, law_joining_keeps_every_part, lemma_blanks, lemma_joined_not_empty};
use crate::util_laws::text_or_nothing;

verus! {

// ---------------------------------------------------------------------------
// Rich text
// ---------------------------------------------------------------------------
proof fn lemma_spans_cat(a: Seq<JsonView>, b: Seq<JsonView>, links: Links)
    ensures
        spans_md(a + b, links) == spans_md(a, links) + spans_md(b, links),
    decreases b.len(),
{
    if b.len() == 0 {
        assert(a + b =~= a);
        assert(spans_md(a, links) + spans_md(b, links) =~= spans_md(a, links));
    } else {
        lemma_spans_cat(a, b.drop_last(), links);
        assert((a + b).drop_last() =~= a + b.drop_last());
        assert((a + b).last() == b.last());
        assert(spans_md(a + b, links) =~= spans_md(a, links) + spans_md(b, links));
    }
}

/// The Markdown of a rich text is that of every span, in order and with nothing between them.
pub proof fn law_every_span_is_written(
    a: Seq<JsonView>,
    b: Seq<JsonView>,
    span: JsonView,
    links: Links,
)
    ensures
        rich_md(Some(JsonView::Array(a + b)), links) == rich_md(Some(JsonView::Array(a)), links)
            + rich_md(Some(JsonView::Array(b)), links),
        rich_md(Some(JsonView::Array(seq![span])), links) == span_md(span, links),
        rich_md(None, links) == Seq::<char>::empty(),
        span.items() is None ==> rich_md(Some(span), links) == Seq::<char>::empty(),
{
    lemma_spans_cat(a, b, links);
    let one = seq![span];
    assert(one.drop_last() =~= Seq::empty());
    assert(one.last() == span);
    assert(spans_md(one.drop_last(), links) =~= Seq::empty());
    assert(Seq::<char>::empty() + span_md(span, links) =~= span_md(span, links));
}

/// A marker, where an annotation is set; else nothing.
pub open spec fn mark(span: JsonView, name: Seq<char>, text: Seq<char>) -> Seq<char> {
    match span.get("annotations"@) {
        Some(ann) => if ann.get(name) == Some(JsonView::Bool(true)) {
            text
        } else {
            Seq::empty()
        },
        None => Seq::empty(),
    }
}

/// Where nothing is linked, a span is its text within the markers of its annotations, each on both
/// sides: struck through outermost, then italic, then bold, and code innermost. A span without a
/// text writes nothing.
pub proof fn law_annotations_wrap_the_text(span: JsonView, links: Links)
    requires
        span.get("href"@) is None,
        span.get("mention"@) is None,
    ensures
        ({
            let text = text_or_nothing(span.get("plain_text"@));
            let strike = mark(span, "strikethrough"@, "~~"@);
            let italic = mark(span, "italic"@, "*"@);
            let bold = mark(span, "bold"@, "**"@);
            let code = mark(span, "code"@, "`"@);
            span_md(span, links) == if text.len() == 0 {
                Seq::<char>::empty()
            } else {
                strike + italic + bold + code + text + code + bold + italic + strike
            }
        }),
{
    let text = text_or_nothing(span.get("plain_text"@));
    let strike = mark(span, "strikethrough"@, "~~"@);
    let italic = mark(span, "italic"@, "*"@);
    let bold = mark(span, "bold"@, "**"@);
    let code = mark(span, "code"@, "`"@);
    if text.len() > 0 {
        let ann = span.get("annotations"@);
        let a = marked(annotated(ann, "code"@), "`"@, text);
        let b = marked(annotated(ann, "bold"@), "**"@, a);
        let c = marked(annotated(ann, "italic"@), "*"@, b);
        lemma_marked(span, "code"@, "`"@, text);
        lemma_marked(span, "bold"@, "**"@, a);
        lemma_marked(span, "italic"@, "*"@, b);
        lemma_marked(span, "strikethrough"@, "~~"@, c);
        lemma_nested(strike, italic, bold, code, text);
        assert(span_md(span, links) == styled(text, ann));
    }
}

proof fn lemma_marked(span: JsonView, name: Seq<char>, text: Seq<char>, s: Seq<char>)
    ensures
        marked(annotated(span.get("annotations"@), name), text, s) == mark(span, name, text) + s
            + mark(span, name, text),
{
    assert(Seq::<char>::empty() + s + Seq::<char>::empty() =~= s);
}

proof fn lemma_nested(a: Seq<char>, b: Seq<char>, c: Seq<char>, d: Seq<char>, t: Seq<char>)
    ensures
        a + (b + (c + (d + t + d) + c) + b) + a == a + b + c + d + t + d + c + b + a,
{
    assert(c + (d + t + d) + c =~= c + d + t + d + c);
    assert(b + (c + d + t + d + c) + b =~= b + c + d + t + d + c + b);
    assert(a + (b + c + d + t + d + c + b) + a =~= a + b + c + d + t + d + c + b + a);
}

/// What a span refers to: the page that it mentions, where it mentions one, else its own URL.
pub open spec fn refers_to(span: JsonView, reference: Seq<char>) -> bool {
    let mentions_page = span.get("mention"@) is Some && span.get("mention"@)->0.text_at("type"@)
        == Some("page"@);
    let mentioned = if mentions_page && span.get("mention"@)->0.get("page"@) is Some {
        span.get("mention"@)->0.get("page"@)->0.text_at("id"@)
    } else {
        None
    };
    if mentioned is Some {
        mentioned == Some(reference)
    } else {
        span.text_at("href"@) == Some(reference)
    }
}

/// A span that refers to something is a link around what it would be without: to the rendered file
/// of the target where that is known, else to the URL that the span has. One that mentions an
/// unknown page and has no URL is no link.
pub proof fn law_references_become_links(
    span: JsonView,
    bare: JsonView,
    reference: Seq<char>,
    links: Links,
)
    requires
        refers_to(span, reference),
        text_or_nothing(span.get("plain_text"@)).len() > 0,
        bare.get("plain_text"@) == span.get("plain_text"@),
        bare.get("annotations"@) == span.get("annotations"@),
        bare.get("href"@) is None,
        bare.get("mention"@) is None,
    ensures
        links(reference) matches Some((url, title)) ==> span_md(span, links) == "["@ + span_md(
            bare,
            links,
        ) + "]("@ + url + ")"@,
        links(reference) is None && span.text_at("href"@) is Some ==> span_md(span, links) == "["@
            + span_md(bare, links) + "]("@ + span.text_at("href"@)->0 + ")"@,
        links(reference) is None && span.text_at("href"@) is None ==> span_md(span, links)
            == span_md(bare, links),
{
}

// ---------------------------------------------------------------------------
// Single blocks
// ---------------------------------------------------------------------------
/// The names of the block types differ.
proof fn lemma_types()
    ensures
        "paragraph"@.len() == 9,
        "heading_1"@.len() == 9,
        "heading_2"@.len() == 9,
        "heading_3"@.len() == 9,
        "bulleted_list_item"@.len() == 18,
        "numbered_list_item"@.len() == 18,
        "to_do"@.len() == 5,
        "toggle"@.len() == 6,
        "quote"@.len() == 5,
        "callout"@.len() == 7,
        "code"@.len() == 4,
        "divider"@.len() == 7,
        "image"@.len() == 5,
        "file"@.len() == 4,
        "video"@.len() == 5,
        "pdf"@.len() == 3,
        "bookmark"@.len() == 8,
        "equation"@.len() == 8,
        "child_page"@.len() == 10,
        "child_database"@.len() == 14,
        "link_to_page"@.len() == 12,
        "unsupported"@.len() == 11,
        "table"@.len() == 5,
        "paragraph"@[8] == 'h',
        "heading_1"@[8] == '1',
        "heading_2"@[8] == '2',
        "heading_3"@[8] == '3',
        "bulleted_list_item"@[0] == 'b',
        "numbered_list_item"@[0] == 'n',
        "to_do"@[1] == 'o',
        "quote"@[1] == 'u',
        "image"@[1] == 'm',
        "video"@[1] == 'i',
        "table"@[1] == 'a',
        "callout"@[0] == 'c',
        "divider"@[0] == 'd',
        "code"@[0] == 'c',
        "file"@[0] == 'f',
        "bookmark"@[0] == 'b',
        "equation"@[0] == 'e',
{
    reveal_strlit("paragraph");
    reveal_strlit("heading_1");
    reveal_strlit("heading_2");
    reveal_strlit("heading_3");
    reveal_strlit("bulleted_list_item");
    reveal_strlit("numbered_list_item");
    reveal_strlit("to_do");
    reveal_strlit("toggle");
    reveal_strlit("quote");
    reveal_strlit("callout");
    reveal_strlit("code");
    reveal_strlit("divider");
    reveal_strlit("image");
    reveal_strlit("file");
    reveal_strlit("video");
    reveal_strlit("pdf");
    reveal_strlit("bookmark");
    reveal_strlit("equation");
    reveal_strlit("child_page");
    reveal_strlit("child_database");
    reveal_strlit("link_to_page");
    reveal_strlit("unsupported");
    reveal_strlit("table");
}

/// Whether a block has a type, and nothing nested in it. `data` is the object under the name of the
/// type, or an empty one where there is none.
pub open spec fn is_leaf(block: JsonView, kind: Seq<char>, data: JsonView) -> bool {
    &&& block.text_at("type"@) == Some(kind)
    &&& block.items_at("_children"@) is None
    &&& match block.get(kind) {
        Some(JsonView::Object(fields)) => data == JsonView::Object(fields),
        _ => data == JsonView::Object(Seq::empty()),
    }
}

proof fn lemma_leaf(block: JsonView, kind: Seq<char>, data: JsonView, depth: nat, links: Links)
    requires
        is_leaf(block, kind, data),
        kind != "table"@,
    ensures
        block_md(block, depth, links) == own_md(block, depth, links),
        block_type(block) == kind,
        block_data(block) == data,
        repeated("  "@, depth) == blanks(2 * depth),
{
    lemma_blanks(depth);
}

/// Text blocks write their text behind the marker of their type, two blanks further in for every
/// level.
pub proof fn law_text_blocks_are_marked_and_indented(
    block: JsonView,
    kind: Seq<char>,
    data: JsonView,
    depth: nat,
    links: Links,
)
    requires
        is_leaf(block, kind, data),
    ensures
        ({
            let md = block_md(block, depth, links);
            let rich = rich_md(data.get("rich_text"@), links);
            let ticked = data.get("checked"@) == Some(JsonView::Bool(true));
            &&& kind == "paragraph"@ ==> md == blanks(2 * depth) + rich
            &&& kind == "bulleted_list_item"@ || kind == "toggle"@ ==> md == blanks(2 * depth)
                + "- "@ + rich
            &&& kind == "numbered_list_item"@ ==> md == blanks(2 * depth) + "1. "@ + rich
            &&& kind == "to_do"@ && ticked ==> md == blanks(2 * depth) + "- [x] "@ + rich
            &&& kind == "to_do"@ && !ticked ==> md == blanks(2 * depth) + "- [ ] "@ + rich
            &&& kind == "quote"@ ==> md == blanks(2 * depth) + "> "@ + rich
        }),
{
    lemma_types();
    if kind != "table"@ {
        lemma_leaf(block, kind, data, depth, links);
    }
}

/// A heading is as many hashes as its level, a blank and its text, at every depth.
pub proof fn law_headings_show_their_level(
    block: JsonView,
    level: nat,
    kind: Seq<char>,
    data: JsonView,
    depth: nat,
    links: Links,
)
    requires
        1 <= level <= 3,
        kind == "heading_"@.push((48 + level) as char),
        is_leaf(block, kind, data),
    ensures
        block_md(block, depth, links) == Seq::new(level, |i: int| '#') + " "@ + rich_md(
            data.get("rich_text"@),
            links,
        ),
{
    lemma_types();
    reveal_strlit("heading_");
    reveal_strlit("heading_1");
    reveal_strlit("heading_2");
    reveal_strlit("heading_3");
    reveal_strlit("# ");
    reveal_strlit("## ");
    reveal_strlit("### ");
    reveal_strlit(" ");
    lemma_leaf(block, kind, data, depth, links);
    let hashes = Seq::new(level, |i: int| '#') + " "@;
    if level == 1 {
        assert(kind =~= "heading_1"@);
        assert(hashes =~= "# "@);
    } else if level == 2 {
        assert(kind =~= "heading_2"@);
        assert(hashes =~= "## "@);
    } else {
        assert(kind =~= "heading_3"@);
        assert(hashes =~= "### "@);
    }
}

/// A callout is quoted, behind its emoji where it has one.
pub proof fn law_callouts_show_their_emoji(
    block: JsonView,
    data: JsonView,
    depth: nat,
    links: Links,
)
    requires
        is_leaf(block, "callout"@, data),
    ensures
        ({
            let md = block_md(block, depth, links);
            let rich = rich_md(data.get("rich_text"@), links);
            let emoji = match data.get("icon"@) {
                Some(icon) => if icon.text_at("type"@) == Some("emoji"@) {
                    text_or_nothing(icon.get("emoji"@))
                } else {
                    Seq::empty()
                },
                None => Seq::empty(),
            };
            &&& emoji.len() > 0 ==> md == blanks(2 * depth) + "> "@ + emoji + " "@ + rich
            &&& emoji.len() == 0 ==> md == blanks(2 * depth) + "> "@ + rich
        }),
{
    lemma_types();
    lemma_leaf(block, "callout"@, data, depth, links);
    let rich = rich_md(data.get("rich_text"@), links);
    let head = blanks(2 * depth) + "> "@;
    let emoji = match data.get("icon"@) {
        Some(icon) => if icon.text_at("type"@) == Some("emoji"@) {
            text_or_nothing(icon.get("emoji"@))
        } else {
            Seq::empty()
        },
        None => Seq::empty(),
    };
    assert(head + (emoji + " "@) + rich =~= head + emoji + " "@ + rich);
    assert(head + Seq::empty() + rich =~= head + rich);
}

/// Code is fenced, behind the name of its language, and holds its text without formatting; an
/// equation stands between its own fences; a divider is a rule. None of them is indented.
pub proof fn law_fenced_blocks_are_verbatim(
    block: JsonView,
    kind: Seq<char>,
    data: JsonView,
    depth: nat,
    links: Links,
)
    requires
        is_leaf(block, kind, data),
    ensures
        ({
            let md = block_md(block, depth, links);
            &&& kind == "code"@ ==> md == "```"@ + text_or_nothing(data.get("language"@)) + "\n"@
                + plain(data.get("rich_text"@)) + "\n```"@
            &&& kind == "equation"@ ==> md == "$$\n"@ + text_or_nothing(data.get("expression"@))
                + "\n$$"@
            &&& kind == "divider"@ ==> md == "---"@
        }),
{
    lemma_types();
    if kind != "table"@ {
        lemma_leaf(block, kind, data, depth, links);
    }
}

/// Whether a media block leads to a URL: under the name that its own type gives.
pub open spec fn leads_to(data: JsonView, url: Seq<char>) -> bool {
    data.text_at("type"@) is Some && data.get(data.text_at("type"@)->0) is Some && data.get(
        data.text_at("type"@)->0,
    )->0.text_at("url"@) == Some(url)
}

/// Media are linked by their URL, under their caption or else the name of their type, images with a
/// mark in front. A bookmark is linked under its caption or else its URL.
pub proof fn law_media_are_linked(
    block: JsonView,
    kind: Seq<char>,
    data: JsonView,
    url: Seq<char>,
    depth: nat,
    links: Links,
)
    requires
        is_leaf(block, kind, data),
        url.len() > 0,
    ensures
        ({
            let md = block_md(block, depth, links);
            let text = plain(data.get("caption"@));
            let caption = if text.len() == 0 {
                kind
            } else {
                text
            };
            let rich = rich_md(data.get("caption"@), links);
            let label = if rich.len() == 0 {
                url
            } else {
                rich
            };
            &&& kind == "image"@ && leads_to(data, url) ==> md == "!["@ + caption + "]("@ + url
                + ")"@
            &&& (kind == "file"@ || kind == "video"@ || kind == "pdf"@) && leads_to(data, url)
                ==> md == "["@ + caption + "]("@ + url + ")"@
            &&& kind == "bookmark"@ && data.text_at("url"@) == Some(url) ==> md == "["@ + label
                + "]("@ + url + ")"@
        }),
{
    lemma_types();
    if kind != "table"@ {
        lemma_leaf(block, kind, data, depth, links);
    }
}

/// A media block without a URL leaves a comment that says so; a bookmark without one writes nothing.
/// A block that is not supported, or is of a type that nobody knows, leaves a comment too.
pub proof fn law_what_cannot_be_shown_is_said(
    block: JsonView,
    kind: Seq<char>,
    data: JsonView,
    depth: nat,
    links: Links,
)
    requires
        is_leaf(block, kind, data),
    ensures
        ({
            let md = block_md(block, depth, links);
            &&& (kind == "image"@ || kind == "file"@ || kind == "video"@ || kind == "pdf"@) && (
            forall|url: Seq<char>| leads_to(data, url) ==> url.len() == 0) ==> md == "<!-- "@ + kind
                + " (no url) -->"@
            &&& kind == "bookmark"@ && text_or_nothing(data.get("url"@)).len() == 0 ==> md.len()
                == 0
            &&& kind == "unsupported"@ ==> md == blanks(2 * depth) + "<!-- unsupported block -->"@
            &&& !seq![
                "paragraph"@,
                "heading_1"@,
                "heading_2"@,
                "heading_3"@,
                "bulleted_list_item"@,
                "numbered_list_item"@,
                "to_do"@,
                "toggle"@,
                "quote"@,
                "callout"@,
                "code"@,
                "divider"@,
                "image"@,
                "file"@,
                "video"@,
                "pdf"@,
                "bookmark"@,
                "equation"@,
                "table"@,
                "child_page"@,
                "child_database"@,
                "link_to_page"@,
                "unsupported"@,
            ].contains(kind) ==> md == blanks(2 * depth) + "<!-- unhandled block type: "@ + kind
                + " -->"@
        }),
{
    lemma_types();
    let known = seq![
        "paragraph"@,
        "heading_1"@,
        "heading_2"@,
        "heading_3"@,
        "bulleted_list_item"@,
        "numbered_list_item"@,
        "to_do"@,
        "toggle"@,
        "quote"@,
        "callout"@,
        "code"@,
        "divider"@,
        "image"@,
        "file"@,
        "video"@,
        "pdf"@,
        "bookmark"@,
        "equation"@,
        "table"@,
        "child_page"@,
        "child_database"@,
        "link_to_page"@,
        "unsupported"@,
    ];
    if kind != "table"@ {
        lemma_leaf(block, kind, data, depth, links);
    } else {
        assert(known[18] == kind);
    }
    let file = match data.text_at("type"@) {
        Some(t) => data.get(t),
        None => None,
    };
    if file is Some && file->0.text_at("url"@) is Some {
        assert(leads_to(data, file->0.text_at("url"@)->0));
    }
    assert forall|j: int| 0 <= j < 23 && known[j] == kind implies known.contains(kind) by {}
    if !known.contains(kind) {
        assert(forall|j: int| 0 <= j < 23 ==> known[j] != kind);
        lemma_known(known, kind);
    }
}

proof fn lemma_known(known: Seq<Seq<char>>, kind: Seq<char>)
    requires
        known.len() == 23,
        forall|j: int| 0 <= j < 23 ==> known[j] != kind,
    ensures
        known[0] != kind && known[1] != kind && known[2] != kind && known[3] != kind && known[4]
            != kind && known[5] != kind && known[6] != kind && known[7] != kind && known[8] != kind
            && known[9] != kind && known[10] != kind && known[11] != kind && known[12] != kind
            && known[13] != kind && known[14] != kind && known[15] != kind && known[16] != kind
            && known[17] != kind && known[18] != kind && known[19] != kind && known[20] != kind
            && known[21] != kind && known[22] != kind,
{
}

/// A block without a type leaves a comment that names none.
pub proof fn law_blocks_without_a_type_are_said(block: JsonView, depth: nat, links: Links)
    requires
        block.text_at("type"@) is None,
        block.items_at("_children"@) is None,
    ensures
        block_md(block, depth, links) == blanks(2 * depth) + "<!-- unhandled block type:  -->"@,
{
    lemma_types();
    lemma_blanks(depth);
    reveal_strlit("<!-- unhandled block type: ");
    reveal_strlit(" -->");
    reveal_strlit("<!-- unhandled block type:  -->");
    let head = blanks(2 * depth);
    let none = Seq::<char>::empty();
    assert(head + "<!-- unhandled block type: "@ + none + " -->"@ =~= head
        + "<!-- unhandled block type:  -->"@);
}

/// A resolver is asked for every reference, and without one nothing is known.
pub proof fn law_resolvers_are_asked<R: Resolve>(resolver: &R, reference: Seq<char>)
    ensures
        links(Some(resolver))(reference) == resolver.target(reference),
        links::<R>(None)(reference) is None,
{
}

/// The object that a reference block stands for: itself for a page or a database placed here, else
/// the page or the database that it points to.
pub open spec fn stands_for(
    block: JsonView,
    kind: Seq<char>,
    data: JsonView,
    id: Seq<char>,
) -> bool {
    if kind == "link_to_page"@ {
        data.text_at("page_id"@) == Some(id) || data.text_at("page_id"@) is None && data.text_at(
            "database_id"@,
        ) == Some(id)
    } else {
        (kind == "child_page"@ || kind == "child_database"@) && block.text_at("id"@) == Some(id)
    }
}

/// The icon of a reference block.
pub open spec fn icon(kind: Seq<char>) -> Seq<char> {
    if kind == "child_page"@ {
        "\u{1F4C4}"@
    } else if kind == "child_database"@ {
        "\u{1F4CA}"@
    } else {
        "\u{1F517}"@
    }
}

/// A block that stands for another page or database becomes a list item with a link to its rendered
/// file, where that is known: under the title in the block, else under that of the target.
pub proof fn law_reference_blocks_become_links(
    block: JsonView,
    kind: Seq<char>,
    data: JsonView,
    id: Seq<char>,
    url: Seq<char>,
    title: Seq<char>,
    depth: nat,
    links: Links,
)
    requires
        is_leaf(block, kind, data),
        stands_for(block, kind, data, id),
        links(id) == Some((url, title)),
    ensures
        ({
            let own = text_or_nothing(data.get("title"@));
            let label = if kind != "link_to_page"@ && own.len() > 0 {
                own
            } else if title.len() > 0 {
                title
            } else {
                "Untitled"@
            };
            block_md(block, depth, links) == blanks(2 * depth) + "- "@ + icon(kind) + " ["@ + label
                + "]("@ + url + ")"@
        }),
{
    lemma_types();
    lemma_leaf(block, kind, data, depth, links);
}

/// Where the target is not known, the title in the block stands alone; without one nothing is
/// written.
pub proof fn law_unknown_references_keep_their_title(
    block: JsonView,
    kind: Seq<char>,
    data: JsonView,
    depth: nat,
    links: Links,
)
    requires
        is_leaf(block, kind, data),
        kind == "child_page"@ || kind == "child_database"@ || kind == "link_to_page"@,
        forall|id: Seq<char>| #[trigger] stands_for(block, kind, data, id) ==> links(id) is None,
    ensures
        ({
            let md = block_md(block, depth, links);
            let own = text_or_nothing(data.get("title"@));
            &&& kind != "link_to_page"@ && own.len() > 0 ==> md == blanks(2 * depth) + "- "@ + icon(
                kind,
            ) + " "@ + own
            &&& kind == "link_to_page"@ || own.len() == 0 ==> md.len() == 0
        }),
{
    lemma_types();
    lemma_leaf(block, kind, data, depth, links);
    if kind == "link_to_page"@ {
        if let Some(id) = data.text_at("page_id"@) {
            assert(stands_for(block, kind, data, id));
        } else if let Some(id) = data.text_at("database_id"@) {
            assert(stands_for(block, kind, data, id));
        }
    } else if let Some(id) = block.text_at("id"@) {
        assert(stands_for(block, kind, data, id));
    }
}

// ---------------------------------------------------------------------------
// Block trees
// ---------------------------------------------------------------------------
/// One text below the other; one alone where the other is empty.
pub open spec fn is_stack(upper: Seq<char>, lower: Seq<char>, all: Seq<char>) -> bool {
    all == if lower.len() == 0 {
        upper
    } else if upper.len() == 0 {
        lower
    } else {
        upper + "\n"@ + lower
    }
}

proof fn lemma_chunks(blocks: Seq<JsonView>, depth: nat, links: Links)
    ensures
        forall|i: int|
            0 <= i < chunks(blocks, depth, links).len() ==> (#[trigger] chunks(
                blocks,
                depth,
                links,
            )[i]).len() > 0,
        fragment_md(blocks, depth, links).len() == 0 <==> chunks(blocks, depth, links).len() == 0,
    decreases blocks.len(),
{
    let all = chunks(blocks, depth, links);
    if blocks.len() > 0 {
        let front = chunks(blocks.drop_last(), depth, links);
        lemma_chunks(blocks.drop_last(), depth, links);
        assert forall|i: int| 0 <= i < all.len() implies (#[trigger] all[i]).len() > 0 by {
            if i < front.len() {
                assert(all[i] == front[i]);
            }
        }
    }
    if all.len() > 0 {
        assert(all[0].len() > 0);
        lemma_joined_not_empty(all, "\n"@, 0);
    }
}

proof fn lemma_chunks_cat(a: Seq<JsonView>, b: Seq<JsonView>, depth: nat, links: Links)
    ensures
        chunks(a + b, depth, links) == chunks(a, depth, links) + chunks(b, depth, links),
    decreases b.len(),
{
    if b.len() == 0 {
        assert(a + b =~= a);
        assert(chunks(a, depth, links) + chunks(b, depth, links) =~= chunks(a, depth, links));
    } else {
        lemma_chunks_cat(a, b.drop_last(), depth, links);
        assert((a + b).drop_last() =~= a + b.drop_last());
        assert((a + b).last() == b.last());
        assert(chunks(a + b, depth, links) =~= chunks(a, depth, links) + chunks(b, depth, links));
    }
}

/// Sibling blocks are written one below the other, in order, and all of them at the same depth;
/// those that write nothing leave no line.
pub proof fn law_siblings_are_stacked(
    a: Seq<JsonView>,
    b: Seq<JsonView>,
    block: JsonView,
    depth: nat,
    links: Links,
)
    ensures
        is_stack(
            fragment_md(a, depth, links),
            fragment_md(b, depth, links),
            fragment_md(a + b, depth, links),
        ),
        fragment_md(seq![block], depth, links) == block_md(block, depth, links),
        fragment_md(Seq::empty(), depth, links) == Seq::<char>::empty(),
{
    lemma_chunks_cat(a, b, depth, links);
    lemma_chunks(a, depth, links);
    lemma_chunks(b, depth, links);
    let x = chunks(a, depth, links);
    let y = chunks(b, depth, links);
    law_joining_keeps_every_part(x, y, Seq::empty(), "\n"@);
    if y.len() == 0 {
        assert(x + y =~= x);
    } else if x.len() == 0 {
        assert(x + y =~= y);
    }
    let one = seq![block];
    assert(one.drop_last() =~= Seq::empty());
    assert(one.last() == block);
    assert(chunks(one.drop_last(), depth, links) =~= Seq::empty());
    let md = block_md(block, depth, links);
    if md.len() > 0 {
        assert(chunks(one, depth, links) =~= seq![md]);
    } else {
        assert(md =~= Seq::empty());
    }
    assert(chunks(Seq::empty(), depth, links) =~= Seq::empty());
}

/// The children of a block stand below what the block would write without them, one level further
/// in, at every depth. Of a table the children are the rows.
pub proof fn law_children_stand_one_level_further_in(
    block: JsonView,
    bare: JsonView,
    children: Seq<JsonView>,
    depth: nat,
    links: Links,
)
    requires
        block.text_at("type"@) != Some("table"@),
        block.items_at("_children"@) == Some(children),
        bare.get("_children"@) is None,
        forall|key: Seq<char>|
            key != "_children"@ ==> #[trigger] bare.get(key) == block.get(key),
        depth < usize::MAX,
    ensures
        is_stack(
            block_md(bare, depth, links),
            fragment_md(children, depth + 1, links),
            block_md(block, depth, links),
        ),
{
    lemma_types();
    reveal_strlit("type");
    reveal_strlit("_children");
    reveal_strlit("id");
    assert("type"@.len() == 4 && "_children"@.len() == 9 && "id"@.len() == 2);
    assert(bare.get("type"@) == block.get("type"@));
    assert(bare.get("id"@) == block.get("id"@));
    let kind = block_type(block);
    assert(bare.get(kind) == block.get(kind) || kind == "_children"@);
    assert(block_data(bare) == block_data(block));
    assert(own_md(bare, depth, links) == own_md(block, depth, links));
}

/// Every child of a block is on lines of its own, one level further in than the block: at every
/// depth a list item that is nested in a block starts with two blanks for each level above it.
pub proof fn law_nested_items_are_indented(
    block: JsonView,
    children: Seq<JsonView>,
    i: int,
    kind: Seq<char>,
    data: JsonView,
    depth: nat,
    links: Links,
) -> (r: (Seq<char>, Seq<char>))
    requires
        block.text_at("type"@) != Some("table"@),
        block.items_at("_children"@) == Some(children),
        0 <= i < children.len(),
        is_leaf(children[i], kind, data),
        kind == "bulleted_list_item"@ || kind == "toggle"@,
        depth < usize::MAX,
    ensures
        ({
            let item = blanks(2 * (depth + 1)) + "- "@ + rich_md(data.get("rich_text"@), links);
            &&& block_md(block, depth, links) == r.0 + item + r.1
            &&& r.0.len() > 0 ==> r.0.last() == '\n'
            &&& r.1.len() > 0 ==> r.1[0] == '\n'
        }),
{
    reveal_strlit("\n");
    reveal_strlit("- ");
    let child = children[i];
    let item = block_md(child, depth + 1, links);
    law_text_blocks_are_marked_and_indented(child, kind, data, depth + 1, links);
    let a = children.take(i);
    let b = children.skip(i + 1);
    assert(children =~= a + seq![child] + b);
    law_siblings_are_stacked(a, seq![child], child, depth + 1, links);
    law_siblings_are_stacked(a + seq![child], b, child, depth + 1, links);
    let fa = fragment_md(a, depth + 1, links);
    let fb = fragment_md(b, depth + 1, links);
    let upper = if fa.len() == 0 {
        Seq::<char>::empty()
    } else {
        fa + "\n"@
    };
    let lower = if fb.len() == 0 {
        Seq::<char>::empty()
    } else {
        "\n"@ + fb
    };
    let below = fragment_md(children, depth + 1, links);
    assert(item.len() > 0);
    assert(fragment_md(a + seq![child], depth + 1, links) =~= upper + item);
    assert(below =~= upper + item + lower);
    let own = own_md(block, depth, links);
    assert(block_md(block, depth, links) == if own.len() == 0 {
        below
    } else {
        own + "\n"@ + below
    }) by {
        lemma_types();
    }
    let front = if own.len() == 0 {
        upper
    } else {
        own + "\n"@ + upper
    };
    assert(block_md(block, depth, links) =~= front + item + lower);
    (front, lower)
}

// ---------------------------------------------------------------------------
// Tables
// ---------------------------------------------------------------------------
/// Whether a line of a table holds the given cells, and no others but empty ones, `width` in all.
pub open spec fn is_table_line(line: Seq<char>, cells: Seq<Seq<char>>, width: nat) -> bool {
    exists|all: Seq<Seq<char>>|
        {
            &&& all.len() == width
            &&& cells.is_prefix_of(all)
            &&& forall|j: int| cells.len() <= j < width ==> (#[trigger] all[j]).len() == 0
            &&& line == "| "@ + #[trigger] joined(all, " | "@) + " |"@
        }
}

proof fn lemma_width_is_met(rows: Seq<Seq<Seq<char>>>)
    ensures
        rows.len() > 0 ==> exists|i: int|
            0 <= i < rows.len() && (#[trigger] rows[i]).len() == table_width(rows),
        forall|i: int| 0 <= i < rows.len() ==> (#[trigger] rows[i]).len() <= table_width(rows),
    decreases rows.len(),
{
    if rows.len() > 0 {
        let front = rows.drop_last();
        lemma_width_is_met(front);
        assert forall|i: int| 0 <= i < rows.len() implies (#[trigger] rows[i]).len() <= table_width(
            rows,
        ) by {
            if i < front.len() {
                assert(front[i] == rows[i]);
            }
        }
        if rows.last().len() > table_width(front) || front.len() == 0 {
            assert(rows[rows.len() - 1].len() == table_width(rows));
        } else {
            let i = choose|i: int|
                0 <= i < front.len() && (#[trigger] front[i]).len() == table_width(front);
            assert(rows[i].len() == table_width(rows));
        }
    }
}

/// The cells of a row of a table; none where it is no such row.
pub open spec fn cells_of(row: JsonView) -> Seq<JsonView> {
    match row.get("table_row"@) {
        Some(table_row) => match table_row.get("cells"@) {
            Some(JsonView::Array(cells)) => cells,
            _ => Seq::empty(),
        },
        None => Seq::empty(),
    }
}

/// A table has a line for every row, in order, with the text of every cell, filled up to the width
/// of the longest row; behind the first line there is a rule. A table without rows writes nothing.
pub proof fn law_tables_show_every_cell(
    block: JsonView,
    rows: Seq<JsonView>,
    cells: Seq<Seq<Seq<char>>>,
    depth: nat,
    links: Links,
) -> (r: (Seq<Seq<char>>, nat))
    requires
        block.text_at("type"@) == Some("table"@),
        block.get("_children"@) == Some(JsonView::Array(rows)),
        cells.len() == rows.len(),
        forall|i: int|
            0 <= i < rows.len() ==> cells[i] == cells_of(#[trigger] rows[i]).map_values(
                |cell: JsonView| rich_md(Some(cell), links),
            ),
    ensures
        rows.len() == 0 ==> block_md(block, depth, links).len() == 0,
        rows.len() > 0 ==> {
            &&& block_md(block, depth, links) == joined(r.0, "\n"@)
            &&& r.0.len() == rows.len() + 1
            &&& exists|i: int| 0 <= i < cells.len() && (#[trigger] cells[i]).len() == r.1
            &&& forall|i: int| 0 <= i < cells.len() ==> (#[trigger] cells[i]).len() <= r.1
            &&& is_table_line(r.0[0], cells[0], r.1)
            &&& is_table_line(r.0[1], Seq::new(r.1, |j: int| "---"@), r.1)
            &&& forall|i: int|
                1 <= i < cells.len() ==> is_table_line(r.0[i + 1], #[trigger] cells[i], r.1)
        },
{
    let all = table_cells(rows, links);
    assert forall|i: int| 0 <= i < rows.len() implies all[i] == cells[i] by {
        assert(cells_of(rows[i]) == cells_of(rows[i]));
        assert(all[i] == row_cells(rows[i], links));
        assert(row_cells(rows[i], links) =~= cells[i]);
    }
    assert(all =~= cells);
    let width = table_width(cells);
    let lines = table_lines(cells, width);
    assert(block_md(block, depth, links) == table_md(block, links));
    assert(table_md(block, links) == joined(lines, "\n"@));
    if rows.len() > 0 {
        lemma_width_is_met(cells);
        assert forall|i: int| 0 <= i < cells.len() implies is_table_line(
            lines[if i == 0 {
                0
            } else {
                i + 1
            }],
            #[trigger] cells[i],
            width,
        ) by {
            law_tables_are_rectangular(cells, i);
            let filled = padded(cells[i], width);
            assert(cells[i] =~= filled.take(cells[i].len() as int));
            assert(lines[if i == 0 {
                0
            } else {
                i + 1
            }] == "| "@ + joined(filled, " | "@) + " |"@);
        }
        law_tables_are_rectangular(cells, 0);
        assert(is_table_line(lines[0], cells[0], width));
        let rule = dashes(width);
        assert(rule =~= Seq::new(width, |j: int| "---"@));
        assert(rule =~= rule.take(rule.len() as int));
        assert(lines[1] == "| "@ + joined(rule, " | "@) + " |"@);
        assert forall|i: int| 1 <= i < cells.len() implies is_table_line(
            lines[i + 1],
            #[trigger] cells[i],
            width,
        ) by {}
    } else {
        assert(lines =~= Seq::empty());
    }
    (lines, width)
}

} // verus!
