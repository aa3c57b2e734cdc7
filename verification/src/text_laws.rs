//! What holds of joined, trimmed, split and numbered texts.

use vstd::prelude::*;

use crate::text::{
    components, covers, decimal, digit, in_lower_case, is_white_space, joined, naming, or_default,
    pieces, precedes, repeated, trim, trim_back, trim_front, Edge,
};

verus! {

// ---------------------------------------------------------------------------
// Joining
// ---------------------------------------------------------------------------
/// Joining keeps every part, in order, with the separator between neighbours and nowhere else.
pub proof fn law_joining_keeps_every_part(
    a: Seq<Seq<char>>,
    b: Seq<Seq<char>>,
    part: Seq<char>,
    sep: Seq<char>,
)
    ensures
        joined(Seq::empty(), sep) == Seq::<char>::empty(),
        joined(seq![part], sep) == part,
        a.len() > 0 && b.len() > 0 ==> joined(a + b, sep) == joined(a, sep) + sep + joined(b, sep),
    decreases b.len(),
{
    if a.len() > 0 && b.len() > 0 {
        let all = a + b;
        assert(all.drop_last() =~= a + b.drop_last());
        assert(all.last() == b.last());
        if b.len() == 1 {
            assert(a + b.drop_last() =~= a);
            assert(b.last() == b[0]);
        } else {
            law_joining_keeps_every_part(a, b.drop_last(), part, sep);
            assert(joined(a, sep) + sep + joined(b.drop_last(), sep) + sep + b.last()
                =~= joined(a, sep) + sep + (joined(b.drop_last(), sep) + sep + b.last()));
        }
    }
}

/// Where some part is not empty, neither is what the parts are joined to.
pub proof fn lemma_joined_not_empty(parts: Seq<Seq<char>>, sep: Seq<char>, i: int)
    requires
        0 <= i < parts.len(),
        parts[i].len() > 0,
    ensures
        joined(parts, sep).len() > 0,
    decreases parts.len(),
{
    if parts.len() > 1 && i < parts.len() - 1 {
        assert(parts.drop_last()[i] == parts[i]);
        lemma_joined_not_empty(parts.drop_last(), sep, i);
    }
}

/// `n` blanks.
pub open spec fn blanks(n: nat) -> Seq<char> {
    Seq::new(n, |i: int| ' ')
}

/// Two blanks written `n` times are `2 n` blanks.
pub proof fn lemma_blanks(n: nat)
    ensures
        repeated("  "@, n) == blanks(2 * n),
    decreases n,
{
    reveal_strlit("  ");
    if n > 0 {
        lemma_blanks((n - 1) as nat);
    }
    assert(repeated("  "@, n) =~= blanks(2 * n));
}

// ---------------------------------------------------------------------------
// Trimming
// ---------------------------------------------------------------------------
/// What is trimmed off at an edge.
pub open spec fn is_edge(edge: Edge, c: char) -> bool {
    match edge {
        Edge::Dots => c == '.',
        Edge::Slashes => c == '/',
        Edge::WhiteSpace => {
            ||| c == ' '
            ||| c == '\t'
            ||| c == '\n'
            ||| c == '\r'
            ||| seq![
                0x0bu32,
                0x0c,
                0x85,
                0xa0,
                0x1680,
                0x2000,
                0x2001,
                0x2002,
                0x2003,
                0x2004,
                0x2005,
                0x2006,
                0x2007,
                0x2008,
                0x2009,
                0x200a,
                0x2028,
                0x2029,
                0x202f,
                0x205f,
                0x3000,
            ].contains(c as u32)
        },
    }
}

/// White space is what Unicode takes for it.
pub proof fn law_white_space_is_that_of_unicode(c: char)
    ensures
        is_white_space(c) == is_edge(Edge::WhiteSpace, c),
{
    let all = seq![
        0x0bu32,
        0x0c,
        0x85,
        0xa0,
        0x1680,
        0x2000,
        0x2001,
        0x2002,
        0x2003,
        0x2004,
        0x2005,
        0x2006,
        0x2007,
        0x2008,
        0x2009,
        0x200a,
        0x2028,
        0x2029,
        0x202f,
        0x205f,
        0x3000,
    ];
    let p = c as u32;
    if is_white_space(c) && !(c == ' ' || c == '\t' || c == '\n' || c == '\r') {
        let i: int = if p == 0x0b {
            0
        } else if p == 0x0c {
            1
        } else if p == 0x85 {
            2
        } else if p == 0xa0 {
            3
        } else if p == 0x1680 {
            4
        } else if 0x2000 <= p <= 0x200a {
            5 + (p - 0x2000)
        } else if p == 0x2028 {
            16
        } else if p == 0x2029 {
            17
        } else if p == 0x202f {
            18
        } else if p == 0x205f {
            19
        } else {
            20
        };
        assert(all[i] == p);
    }
}

/// Trimming takes off everything at the edges that is to be trimmed, and nothing else.
pub proof fn law_trimming_leaves_the_middle(
    front: Seq<char>,
    middle: Seq<char>,
    back: Seq<char>,
    edge: Edge,
)
    requires
        forall|i: int| 0 <= i < front.len() ==> is_edge(edge, #[trigger] front[i]),
        forall|i: int| 0 <= i < back.len() ==> is_edge(edge, #[trigger] back[i]),
        middle.len() > 0 ==> !is_edge(edge, middle[0]) && !is_edge(edge, middle.last()),
    ensures
        trim(front + middle + back, edge) == middle,
    decreases front.len() + back.len(),
{
    let all = front + middle + back;
    assert forall|c: char| covers(edge, c) == is_edge(edge, c) by {
        law_white_space_is_that_of_unicode(c);
    }
    if front.len() > 0 {
        assert(is_edge(edge, front[0]));
        assert(all[0] == front[0]);
        let rest = front.skip(1);
        assert forall|i: int| 0 <= i < rest.len() implies is_edge(edge, #[trigger] rest[i]) by {
            assert(rest[i] == front[i + 1]);
        }
        assert(all.skip(1) =~= rest + middle + back);
        law_trimming_leaves_the_middle(rest, middle, back, edge);
    } else if middle.len() == 0 {
        assert(all =~= back);
        if back.len() > 0 {
            assert(is_edge(edge, back[0]));
            let rest = back.skip(1);
            assert forall|i: int| 0 <= i < rest.len() implies is_edge(edge, #[trigger] rest[i]) by {
                assert(rest[i] == back[i + 1]);
            }
            assert(all.skip(1) =~= front + middle + rest);
            law_trimming_leaves_the_middle(front, middle, rest, edge);
        } else {
            assert(all =~= middle);
        }
    } else {
        assert(all[0] == middle[0]);
        assert(trim_front(all, edge) == all);
        lemma_trim_back(middle, back, edge);
        assert(all =~= middle + back);
    }
}

proof fn lemma_trim_back(middle: Seq<char>, back: Seq<char>, edge: Edge)
    requires
        forall|i: int| 0 <= i < back.len() ==> is_edge(edge, #[trigger] back[i]),
        middle.len() > 0 ==> !is_edge(edge, middle.last()),
    ensures
        trim_back(middle + back, edge) == middle,
    decreases back.len(),
{
    assert forall|c: char| covers(edge, c) == is_edge(edge, c) by {
        law_white_space_is_that_of_unicode(c);
    }
    let all = middle + back;
    if back.len() > 0 {
        assert(is_edge(edge, back[back.len() - 1]));
        assert(all.last() == back.last());
        assert(all.drop_last() =~= middle + back.drop_last());
        let rest = back.drop_last();
        assert forall|i: int| 0 <= i < rest.len() implies is_edge(edge, #[trigger] rest[i]) by {
            assert(rest[i] == back[i]);
        }
        lemma_trim_back(middle, rest, edge);
    } else {
        assert(all =~= middle);
    }
}

/// A fallback stands in for an empty text, and for no other.
pub proof fn law_fallbacks_stand_in_for_nothing(value: Seq<char>, fallback: Seq<char>)
    ensures
        value.len() == 0 ==> or_default(value, fallback) == fallback,
        value.len() > 0 ==> or_default(value, fallback) == value,
{
}

/// In lower case an ASCII text keeps its length and everything but its capitals; these become the
/// small letters.
pub proof fn law_lower_case_changes_capitals_only(s: Seq<char>, i: int)
    requires
        forall|j: int| 0 <= j < s.len() ==> (#[trigger] s[j] as u32) < 128,
        0 <= i < s.len(),
    ensures
        in_lower_case(s).len() == s.len(),
        'A' <= s[i] <= 'Z' ==> in_lower_case(s)[i] as u32 == s[i] as u32 + ('a' as u32 - 'A' as u32),
        !('A' <= s[i] <= 'Z') ==> in_lower_case(s)[i] == s[i],
{
}

// ---------------------------------------------------------------------------
// Paths
// ---------------------------------------------------------------------------
proof fn lemma_pieces_not_empty(s: Seq<char>)
    ensures
        pieces(s).len() > 0,
    decreases s.len(),
{
    if s.len() > 0 {
        lemma_pieces_not_empty(s.drop_last());
    }
}

proof fn lemma_pieces_cat(a: Seq<char>, b: Seq<char>)
    ensures
        pieces(a + seq!['/'] + b) == pieces(a) + pieces(b),
    decreases b.len(),
{
    let all = a + seq!['/'] + b;
    lemma_pieces_not_empty(a);
    lemma_pieces_not_empty(b);
    if b.len() == 0 {
        assert(all.drop_last() =~= a);
        assert(all.last() == '/');
        assert(pieces(all) =~= pieces(a) + pieces(b));
    } else {
        let front = b.drop_last();
        lemma_pieces_cat(a, front);
        lemma_pieces_not_empty(front);
        assert(all.drop_last() =~= a + seq!['/'] + front);
        assert(all.last() == b.last());
        assert((pieces(a) + pieces(front)).drop_last() =~= pieces(a) + pieces(front).drop_last());
        assert(pieces(all) =~= pieces(a) + pieces(b));
    }
}

proof fn lemma_naming_cat(a: Seq<Seq<char>>, b: Seq<Seq<char>>)
    ensures
        naming(a + b) == naming(a) + naming(b),
    decreases b.len(),
{
    if b.len() == 0 {
        assert(a + b =~= a);
        assert(naming(a) + naming(b) =~= naming(a));
    } else {
        lemma_naming_cat(a, b.drop_last());
        assert((a + b).drop_last() =~= a + b.drop_last());
        assert((a + b).last() == b.last());
        assert(naming(a + b) =~= naming(a) + naming(b));
    }
}

proof fn lemma_one_piece(s: Seq<char>)
    requires
        !s.contains('/'),
    ensures
        pieces(s) == seq![s],
    decreases s.len(),
{
    if s.len() > 0 {
        let front = s.drop_last();
        assert forall|i: int| 0 <= i < front.len() implies front[i] != '/' by {
            assert(front[i] == s[i]);
        }
        lemma_one_piece(front);
        assert(s[s.len() - 1] != '/');
        assert(front.push(s.last()) =~= s);
        assert(pieces(s) =~= seq![s]);
    } else {
        assert(s =~= Seq::empty());
    }
}

/// A path is split at its slashes, and only there: the names of two paths with a slash between them
/// are those of the one, then those of the other; and a text without a slash is one name, unless it
/// is empty or a dot.
pub proof fn law_paths_are_split_at_slashes(a: Seq<char>, b: Seq<char>)
    ensures
        components(a + seq!['/'] + b) == components(a) + components(b),
        !a.contains('/') ==> components(a) == if a.len() == 0 || a == "."@ {
            Seq::<Seq<char>>::empty()
        } else {
            seq![a]
        },
{
    lemma_pieces_cat(a, b);
    lemma_naming_cat(pieces(a), pieces(b));
    if !a.contains('/') {
        lemma_one_piece(a);
        let one = seq![a];
        assert(one.drop_last() =~= Seq::empty());
        assert(one.last() == a);
        assert(naming(one.drop_last()) =~= Seq::empty());
        assert(Seq::<Seq<char>>::empty().push(a) =~= seq![a]);
    }
}

// ---------------------------------------------------------------------------
// Numbers and order
// ---------------------------------------------------------------------------
/// The number that decimal digits stand for.
pub open spec fn number_of(digits: Seq<char>) -> nat
    decreases digits.len(),
{
    if digits.len() == 0 {
        0
    } else {
        10 * number_of(digits.drop_last()) + (digits.last() as nat - '0' as nat) as nat
    }
}

/// A number in decimal is read back as it was; it is all digits, and has no zero in front, unless it
/// is zero.
pub proof fn law_decimals_read_back(n: nat)
    ensures
        number_of(decimal(n)) == n,
        decimal(n).len() > 0,
        forall|i: int| 0 <= i < decimal(n).len() ==> '0' <= #[trigger] decimal(n)[i] <= '9',
        decimal(n)[0] == '0' ==> decimal(n).len() == 1,
    decreases n,
{
    let all = decimal(n);
    if n < 10 {
        assert(all.drop_last() =~= Seq::empty());
        assert(number_of(all.drop_last()) == 0);
        assert(all.last() == digit(n));
    } else {
        law_decimals_read_back(n / 10);
        let front = decimal(n / 10);
        assert(all.drop_last() =~= front);
        assert(all.last() == digit(n % 10));
        assert forall|i: int| 0 <= i < all.len() implies '0' <= #[trigger] all[i] <= '9' by {
            if i < front.len() {
                assert(all[i] == front[i]);
            }
        }
        assert(all[0] == front[0]);
        if front[0] == '0' {
            assert(front.len() == 1);
            assert(number_of(front.drop_last()) == 0);
            assert(number_of(front) == 0);
        }
    }
}

/// Texts are in the order of their code points: of two that differ, the first difference decides,
/// and a text comes before every longer one that starts with it.
pub proof fn law_texts_are_ordered_by_code_points(a: Seq<char>, b: Seq<char>, i: int)
    requires
        0 <= i <= a.len(),
        i <= b.len(),
        forall|j: int| 0 <= j < i ==> #[trigger] a[j] == b[j],
        i < a.len() && i < b.len() ==> a[i] != b[i],
    ensures
        i == a.len() ==> precedes(a, b),
        i == b.len() && i < a.len() ==> !precedes(a, b),
        i < a.len() && i < b.len() ==> precedes(a, b) == (a[i] < b[i]),
    decreases i,
{
    if i > 0 {
        assert(a[0] == b[0]);
        let x = a.drop_first();
        let y = b.drop_first();
        assert forall|j: int| 0 <= j < i - 1 implies #[trigger] x[j] == y[j] by {
            assert(x[j] == a[j + 1] && y[j] == b[j + 1]);
        }
        law_texts_are_ordered_by_code_points(x, y, i - 1);
        if i < a.len() && i < b.len() {
            assert(x[i - 1] == a[i] && y[i - 1] == b[i]);
        }
    }
}

} // verus!
