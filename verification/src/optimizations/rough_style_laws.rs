//! Renderings in rough style that differ only in the control points of their
//! curves come out the same once the rough style is removed.
use vstd::prelude::*;
use crate::id_usage::strings_view;
use crate::attributes::PATH_DATA_NAME;
use crate::node::{AttributeView, NodeView, option_string_view};
use crate::optimizations::remove_rough_style::{
    canonical_command, command_letter, command_split, coordinates_read, deduplicated,
    duplicate_decided, duplicate_paths_marked, each_rough_style_removed, is_canonical_form,
    is_deduplication, kept_nodes, last_kept, leading_text, numbers_answered, path_commands_of,
    path_data_rewritten, paths_compared, present, shape_decided, shape_found, rough_style_removed, rough_style_removed_all,
    rough_style_steps, run_end, runs_of_similar, similarity_decided, similarity_found,
};

verus! {

/// `number` reads texts with equal models alike.
pub open spec fn number_deterministic<N: Fn(&String) -> Option<String>>(number: N) -> bool {
    forall|t1: String, t2: String, a1: Option<String>, a2: Option<String>|
        #![trigger call_ensures(number, (&t1,), a1), call_ensures(number, (&t2,), a2)]
        t1@ == t2@ && call_ensures(number, (&t1,), a1) && call_ensures(number, (&t2,), a2)
            ==> option_string_view(a1) == option_string_view(a2)
}

/// `close` answers alike for numbers with equal models.
pub open spec fn close_deterministic<P: Fn(&String, &String) -> bool>(close: P) -> bool {
    forall|a1: String, b1: String, a2: String, b2: String, r1: bool, r2: bool|
        #![trigger call_ensures(close, (&a1, &b1), r1), call_ensures(close, (&a2, &b2), r2)]
        a1@ == a2@ && b1@ == b2@ && call_ensures(close, (&a1, &b1), r1) && call_ensures(
            close,
            (&a2, &b2),
            r2,
        ) ==> r1 == r2
}

/// Whether `letter` starts a curve with control points.
pub open spec fn is_curve_letter(letter: char) -> bool {
    letter == 'C' || letter == 'S' || letter == 'Q'
}

/// The number of coordinates from which a curve command is made a line.
pub open spec fn curve_min(letter: char) -> int {
    if letter == 'C' {
        6
    } else {
        4
    }
}

/// The two commands are the same curve command up to its control points:
/// same letter, `C`, `S` or `Q`; whatever coordinates `number` reads from
/// them, equally many, enough to make the command a line, and with equal end
/// points (the last two).
pub open spec fn control_points_differ<N: Fn(&String) -> Option<String>>(
    c1: Seq<char>,
    c2: Seq<char>,
    number: N,
) -> bool {
    &&& command_letter(c1) == command_letter(c2)
    &&& is_curve_letter(command_letter(c1))
    &&& forall|x1: Seq<String>, x2: Seq<String>|
        #![trigger coordinates_read(c1, x1, number), coordinates_read(c2, x2, number)]
        coordinates_read(c1, x1, number) && coordinates_read(c2, x2, number) ==> {
            let n = x1.len();
            &&& x2.len() == n
            &&& n >= curve_min(command_letter(c1))
            &&& x1[n - 2]@ == x2[n - 2]@
            &&& x1[n - 1]@ == x2[n - 1]@
        }
}

/// The two commands are equal, or differ only in control points.
pub open spec fn commands_variant<N: Fn(&String) -> Option<String>>(
    c1: Seq<char>,
    c2: Seq<char>,
    number: N,
) -> bool {
    c1 == c2 || control_points_differ(c1, c2, number)
}

/// The two path data are renderings of the same path that differ only in the
/// control points of curves: the same text before the first command, and
/// command by command variants of each other.
pub open spec fn path_data_variant<N: Fn(&String) -> Option<String>>(
    p1: Seq<char>,
    p2: Seq<char>,
    number: N,
) -> bool {
    let s1 = command_split(p1);
    let s2 = command_split(p2);
    &&& leading_text(p1) == leading_text(p2)
    &&& s1.len() == s2.len()
    &&& forall|i: int| 0 <= i < s1.len() ==> commands_variant(#[trigger] s1[i], s2[i], number)
}

/// Two lists of coordinates with the same number of elements and equal end
/// points.
pub open spec fn ends_agree(x1: Seq<String>, x2: Seq<String>) -> bool {
    let n = x1.len();
    &&& x2.len() == n
    &&& n >= 1 ==> x1[n - 1]@ == x2[n - 1]@
    &&& n >= 2 ==> x1[n - 2]@ == x2[n - 2]@
}

proof fn lemma_present_alike(a1: Seq<Option<String>>, a2: Seq<Option<String>>)
    requires
        a1.len() == a2.len(),
        forall|i: int| 0 <= i < a1.len() ==> option_string_view(#[trigger] a1[i]) == option_string_view(a2[i]),
    ensures
        strings_view(present(a1)) == strings_view(present(a2)),
    decreases a1.len(),
{
    if a1.len() > 0 {
        let d1 = a1.drop_last();
        let d2 = a2.drop_last();
        assert forall|i: int| 0 <= i < d1.len() implies option_string_view(#[trigger] d1[i])
            == option_string_view(d2[i]) by {
            assert(d1[i] == a1[i] && d2[i] == a2[i]);
        }
        lemma_present_alike(d1, d2);
        assert(option_string_view(a1.last()) == option_string_view(a2.last()));
        match a1.last() {
            Some(v1) => {
                let v2 = a2.last()->0;
                assert(strings_view(present(d1).push(v1)) =~= strings_view(present(d1)).push(v1@));
                assert(strings_view(present(d2).push(v2)) =~= strings_view(present(d2)).push(v2@));
            },
            None => {},
        }
    }
}

/// A deterministic `number` reads the same coordinates from a command each time.
proof fn lemma_coordinates_alike<N: Fn(&String) -> Option<String>>(
    c: Seq<char>,
    x1: Seq<String>,
    x2: Seq<String>,
    number: N,
)
    requires
        number_deterministic(number),
        coordinates_read(c, x1, number),
        coordinates_read(c, x2, number),
    ensures
        strings_view(x1) == strings_view(x2),
{
    let (t1, a1) = choose|t: Seq<String>, a: Seq<Option<String>>|
        #[trigger] numbers_answered(t, a, number) && strings_view(t) == regex_matches_number(c)
            && x1 == present(a);
    let (t2, a2) = choose|t: Seq<String>, a: Seq<Option<String>>|
        #[trigger] numbers_answered(t, a, number) && strings_view(t) == regex_matches_number(c)
            && x2 == present(a);
    assert(strings_view(t1).len() == t1.len() && strings_view(t2).len() == t2.len());
    assert(a1.len() == t1.len() && a2.len() == t2.len());
    assert forall|i: int| 0 <= i < a1.len() implies option_string_view(#[trigger] a1[i])
        == option_string_view(a2[i]) by {
        assert(strings_view(t1)[i] == strings_view(t2)[i]);
        assert(strings_view(t1)[i] == t1[i]@ && strings_view(t2)[i] == t2[i]@);
        assert(t1[i]@ == t2[i]@);
        assert(call_ensures(number, (&t1[i],), a1[i]));
        assert(call_ensures(number, (&t2[i],), a2[i]));
    }
    lemma_present_alike(a1, a2);
}

/// The texts in command `c` that match the number pattern.
pub open spec fn regex_matches_number(c: Seq<char>) -> Seq<Seq<char>> {
    crate::optimizations::remove_rough_style::regex_matches(
        crate::optimizations::remove_rough_style::NUMBER_PATTERN@,
        c,
    )
}

/// Variants read coordinates that agree at the end.
proof fn lemma_variant_ends<N: Fn(&String) -> Option<String>>(
    c1: Seq<char>,
    c2: Seq<char>,
    x1: Seq<String>,
    x2: Seq<String>,
    number: N,
)
    requires
        number_deterministic(number),
        commands_variant(c1, c2, number),
        coordinates_read(c1, x1, number),
        coordinates_read(c2, x2, number),
    ensures
        ends_agree(x1, x2),
        command_letter(c1) == command_letter(c2),
        c1 == c2 ==> strings_view(x1) == strings_view(x2),
        c1 != c2 ==> x1.len() >= curve_min(command_letter(c1)) && is_curve_letter(command_letter(c1)),
{
    if c1 == c2 {
        lemma_coordinates_alike(c1, x1, x2, number);
        let n = x1.len();
        assert(strings_view(x1).len() == n && strings_view(x2).len() == x2.len());
        if n >= 1 {
            assert(strings_view(x1)[n - 1] == x1[n - 1]@ && strings_view(x2)[n - 1] == x2[n - 1]@);
        }
        if n >= 2 {
            assert(strings_view(x1)[n - 2] == x1[n - 2]@ && strings_view(x2)[n - 2] == x2[n - 2]@);
        }
    } else {
        assert(coordinates_read(c1, x1, number) && coordinates_read(c2, x2, number));
    }
}

/// Comparing variants of two commands gives the same answer.
proof fn lemma_similarity_alike<N: Fn(&String) -> Option<String>, P: Fn(&String, &String) -> bool>(
    a1: Seq<char>,
    b1: Seq<char>,
    a2: Seq<char>,
    b2: Seq<char>,
    number: N,
    close: P,
    x: bool,
    y: bool,
)
    requires
        number_deterministic(number),
        close_deterministic(close),
        commands_variant(a1, a2, number),
        commands_variant(b1, b2, number),
        similarity_found(a1, b1, number, close, x),
        similarity_found(a2, b2, number, close, y),
    ensures
        x == y,
{
    let (ca1, cb1) = choose|c1: Seq<String>, c2: Seq<String>|
        coordinates_read(a1, c1, number) && coordinates_read(b1, c2, number)
            && #[trigger] similarity_decided(a1, b1, c1, c2, close, x);
    let (ca2, cb2) = choose|c1: Seq<String>, c2: Seq<String>|
        coordinates_read(a2, c1, number) && coordinates_read(b2, c2, number)
            && #[trigger] similarity_decided(a2, b2, c1, c2, close, y);
    lemma_variant_ends(a1, a2, ca1, ca2, number);
    lemma_variant_ends(b1, b2, cb1, cb2, number);
    let n = ca1.len();
    if !(command_letter(a1) != command_letter(b1) || ca1.len() != cb1.len()) && n >= 2 {
        if x != y {
            if x {
                assert(call_ensures(close, (&ca1[n - 2], &cb1[n - 2]), true));
                assert(call_ensures(close, (&ca1[n - 1], &cb1[n - 1]), true));
            } else {
                assert(call_ensures(close, (&ca2[n - 2], &cb2[n - 2]), true));
                assert(call_ensures(close, (&ca2[n - 1], &cb2[n - 1]), true));
            }
        }
    } else if !(command_letter(a1) != command_letter(b1) || ca1.len() != cb1.len()) && n == 1 {
        assert(call_ensures(close, (&ca1[0], &cb1[0]), x));
        assert(call_ensures(close, (&ca2[0], &cb2[0]), y));
    }
}

/// Two run structures over command lists whose comparisons give the same
/// answers position by position start their runs at the same positions.
proof fn lemma_runs_alike<N: Fn(&String) -> Option<String>, P: Fn(&String, &String) -> bool>(
    cmds1: Seq<Seq<char>>,
    cmds2: Seq<Seq<char>>,
    kept1: Seq<int>,
    kept2: Seq<int>,
    number: N,
    close: P,
)
    requires
        cmds1.len() == cmds2.len(),
        runs_of_similar(cmds1, kept1, number, close),
        runs_of_similar(cmds2, kept2, number, close),
        forall|i: int, j: int, x: bool, y: bool|
            0 <= i < cmds1.len() && 0 <= j < cmds1.len() && similarity_found(
                cmds1[i],
                cmds1[j],
                number,
                close,
                x,
            ) && similarity_found(cmds2[i], cmds2[j], number, close, y) ==> x == y,
    ensures
        kept1 == kept2,
{
    let n = cmds1.len() as int;
    assert forall|k: int| 0 <= k < kept1.len() && k < kept2.len() implies kept1[k] == kept2[k] by {
        lemma_runs_alike_at(cmds1, cmds2, kept1, kept2, number, close, k);
    }
    if kept1.len() != kept2.len() {
        if kept1.len() < kept2.len() {
            lemma_runs_alike_end(cmds1, cmds2, kept1, kept2, number, close);
        } else {
            lemma_runs_alike_end(cmds2, cmds1, kept2, kept1, number, close);
        }
    }
    assert(kept1 =~= kept2);
}

proof fn lemma_runs_alike_at<N: Fn(&String) -> Option<String>, P: Fn(&String, &String) -> bool>(
    cmds1: Seq<Seq<char>>,
    cmds2: Seq<Seq<char>>,
    kept1: Seq<int>,
    kept2: Seq<int>,
    number: N,
    close: P,
    k: int,
)
    requires
        cmds1.len() == cmds2.len(),
        runs_of_similar(cmds1, kept1, number, close),
        runs_of_similar(cmds2, kept2, number, close),
        forall|i: int, j: int, x: bool, y: bool|
            0 <= i < cmds1.len() && 0 <= j < cmds1.len() && similarity_found(
                cmds1[i],
                cmds1[j],
                number,
                close,
                x,
            ) && similarity_found(cmds2[i], cmds2[j], number, close, y) ==> x == y,
        0 <= k < kept1.len(),
        k < kept2.len(),
    ensures
        kept1[k] == kept2[k],
    decreases k,
{
    let n = cmds1.len() as int;
    if k > 0 {
        lemma_runs_alike_at(cmds1, cmds2, kept1, kept2, number, close, k - 1);
        let s = kept1[k - 1];
        assert(run_end(kept1, k - 1, n) == kept1[k]);
        assert(run_end(kept2, k - 1, n) == kept2[k]);
        assert(0 <= kept1[k] < n && 0 <= kept2[k] < n);
        if kept1[k] < kept2[k] {
            let j = kept1[k];
            assert(similarity_found(cmds1[s], cmds1[run_end(kept1, k - 1, n)], number, close, false));
            assert(similarity_found(cmds2[kept2[k - 1]], cmds2[j], number, close, true));
        } else if kept2[k] < kept1[k] {
            let j = kept2[k];
            assert(similarity_found(cmds2[s], cmds2[run_end(kept2, k - 1, n)], number, close, false));
            assert(similarity_found(cmds1[kept1[k - 1]], cmds1[j], number, close, true));
        }
    }
}

proof fn lemma_runs_alike_end<N: Fn(&String) -> Option<String>, P: Fn(&String, &String) -> bool>(
    cmds1: Seq<Seq<char>>,
    cmds2: Seq<Seq<char>>,
    kept1: Seq<int>,
    kept2: Seq<int>,
    number: N,
    close: P,
)
    requires
        cmds1.len() == cmds2.len(),
        runs_of_similar(cmds1, kept1, number, close),
        runs_of_similar(cmds2, kept2, number, close),
        forall|i: int, j: int, x: bool, y: bool|
            0 <= i < cmds1.len() && 0 <= j < cmds1.len() && similarity_found(
                cmds1[i],
                cmds1[j],
                number,
                close,
                x,
            ) && similarity_found(cmds2[i], cmds2[j], number, close, y) ==> x == y,
    ensures
        kept2.len() <= kept1.len(),
{
    let n = cmds1.len() as int;
    if kept1.len() >= kept2.len() {
    } else if kept1.len() == 0 {
        assert(n == 0);
    } else {
        let k = kept1.len() - 1;
        lemma_runs_alike_at(cmds1, cmds2, kept1, kept2, number, close, k);
        let s = kept1[k];
        let j = kept2[k + 1];
        assert(run_end(kept1, k, n) == n);
        assert(run_end(kept2, k, n) == j);
        assert(0 <= j < n);
        assert(similarity_found(cmds2[kept2[k]], cmds2[run_end(kept2, k, n)], number, close, false));
        assert(similarity_found(cmds1[kept1[k]], cmds1[j], number, close, true));
    }
}

/// A command gets the same canonical form whatever its control points: the
/// canonical forms of two commands that are equal, or differ only in the
/// control points of a curve, are equal, as long as reading a number gives
/// the same answer for the same text.
pub proof fn lemma_canonical_alike<N: Fn(&String) -> Option<String>>(
    c1: Seq<char>,
    c2: Seq<char>,
    o1: Seq<char>,
    o2: Seq<char>,
    number: N,
)
    requires
        number_deterministic(number),
        commands_variant(c1, c2, number),
        is_canonical_form(c1, o1, number),
        is_canonical_form(c2, o2, number),
    ensures
        o1 == o2,
{
    let x1 = choose|x: Seq<String>|
        #[trigger] coordinates_read(c1, x, number) && o1 == canonical_command(c1, strings_view(x));
    let x2 = choose|x: Seq<String>|
        #[trigger] coordinates_read(c2, x, number) && o2 == canonical_command(c2, strings_view(x));
    lemma_variant_ends(c1, c2, x1, x2, number);
    if c1 != c2 {
        let n = x1.len();
        assert(strings_view(x1)[n - 2] == x1[n - 2]@ && strings_view(x2)[n - 2] == x2[n - 2]@);
        assert(strings_view(x1)[n - 1] == x1[n - 1]@ && strings_view(x2)[n - 1] == x2[n - 1]@);
    }
}

/// Rough renderings of a path that differ only in the control points of
/// their curves give the same path data once deduplicated, as long as
/// reading a number and comparing two numbers give the same answer for the
/// same texts.
pub proof fn lemma_rough_variants_deduplicate_alike<
    N: Fn(&String) -> Option<String>,
    P: Fn(&String, &String) -> bool,
>(p1: Seq<char>, p2: Seq<char>, o1: Seq<char>, o2: Seq<char>, number: N, close: P)
    requires
        number_deterministic(number),
        close_deterministic(close),
        path_data_variant(p1, p2, number),
        is_deduplication(p1, o1, number, close),
        is_deduplication(p2, o2, number, close),
    ensures
        o1 == o2,
{
    let (kept1, parts1) = choose|kept: Seq<int>, parts: Seq<Seq<char>>|
        #[trigger] deduplicated(p1, o1, kept, parts, number, close);
    let (kept2, parts2) = choose|kept: Seq<int>, parts: Seq<Seq<char>>|
        #[trigger] deduplicated(p2, o2, kept, parts, number, close);
    let cmds1 = command_split(p1);
    let cmds2 = command_split(p2);
    assert forall|i: int, j: int, x: bool, y: bool|
        0 <= i < cmds1.len() && 0 <= j < cmds1.len() && similarity_found(
            cmds1[i],
            cmds1[j],
            number,
            close,
            x,
        ) && similarity_found(cmds2[i], cmds2[j], number, close, y) implies x == y by {
        assert(commands_variant(cmds1[i], cmds2[i], number));
        assert(commands_variant(cmds1[j], cmds2[j], number));
        lemma_similarity_alike(cmds1[i], cmds1[j], cmds2[i], cmds2[j], number, close, x, y);
    }
    lemma_runs_alike(cmds1, cmds2, kept1, kept2, number, close);
    assert forall|k: int| 0 <= k < parts1.len() implies #[trigger] parts1[k] == parts2[k] by {
        assert(0 <= kept1[k] < cmds1.len());
        assert(commands_variant(cmds1[kept1[k]], cmds2[kept1[k]], number));
        assert(is_canonical_form(cmds1[kept1[k]], parts1[k], number));
        assert(is_canonical_form(cmds2[kept2[k]], parts2[k], number));
        lemma_canonical_alike(cmds1[kept1[k]], cmds2[kept2[k]], parts1[k], parts2[k], number);
    }
    assert(parts1 =~= parts2);
}

/// The attributes of two path elements are alike, except that the values of
/// `d` attributes are renderings that differ only in control points.
pub open spec fn path_attributes_variant<N: Fn(&String) -> Option<String>>(
    a1: Seq<AttributeView>,
    a2: Seq<AttributeView>,
    number: N,
) -> bool {
    &&& a1.len() == a2.len()
    &&& forall|i: int|
        0 <= i < a1.len() ==> {
            &&& (#[trigger] a1[i]).name == a2[i].name
            &&& if a1[i].name.local_name == PATH_DATA_NAME@ {
                path_data_variant(a1[i].value, a2[i].value, number)
            } else {
                a1[i].value == a2[i].value
            }
        }
}

/// Two nodes are alike except that the path data of their path elements, at
/// any depth, are renderings that differ only in control points.
pub open spec fn nodes_variant<N: Fn(&String) -> Option<String>>(
    n1: NodeView,
    n2: NodeView,
    number: N,
) -> bool
    decreases n1,
{
    match n1 {
        NodeView::Regular { kind, namespace, attributes, children } => {
            &&& n2 is Regular
            &&& n2->kind == kind
            &&& n2->namespace == namespace
            &&& if kind is Path {
                path_attributes_variant(attributes, n2->attributes, number)
            } else {
                n2->attributes == attributes
            }
            &&& n2->children.len() == children.len()
            &&& forall|i: int|
                0 <= i < children.len() ==> nodes_variant(#[trigger] children[i], n2->children[i], number)
        },
        NodeView::Childless { .. } => n2 == n1,
    }
}

/// Comparing the shapes of two commands never gives both answers.
proof fn lemma_shape_unique<N: Fn(&String) -> Option<String>>(a: Seq<char>, b: Seq<char>, number: N)
    requires
        number_deterministic(number),
    ensures
        !(shape_found(a, b, number, true) && shape_found(a, b, number, false)),
{
    if shape_found(a, b, number, true) && shape_found(a, b, number, false) {
        let (x1, y1) = choose|x1: Seq<String>, x2: Seq<String>|
            coordinates_read(a, x1, number) && coordinates_read(b, x2, number)
                && #[trigger] shape_decided(a, b, x1, x2, true);
        let (x2, y2) = choose|x1: Seq<String>, x2: Seq<String>|
            coordinates_read(a, x1, number) && coordinates_read(b, x2, number)
                && #[trigger] shape_decided(a, b, x1, x2, false);
        lemma_coordinates_alike(a, x1, x2, number);
        lemma_coordinates_alike(b, y1, y2, number);
        assert(strings_view(x1).len() == x1.len() && strings_view(x2).len() == x2.len());
        assert(strings_view(y1).len() == y1.len() && strings_view(y2).len() == y2.len());
    }
}

/// Comparing two paths never gives both answers.
proof fn lemma_paths_compared_unique<N: Fn(&String) -> Option<String>>(
    a: Seq<Seq<char>>,
    b: Seq<Seq<char>>,
    number: N,
)
    requires
        number_deterministic(number),
    ensures
        !(paths_compared(a, b, number, true) && paths_compared(a, b, number, false)),
{
    if paths_compared(a, b, number, true) && paths_compared(a, b, number, false) {
        let k = choose|k: int|
            #![trigger a[k]]
            0 <= k < a.len() && shape_found(a[k], b[k], number, false);
        assert(shape_found(a[k], b[k], number, true));
        lemma_shape_unique(a[k], b[k], number);
    }
}

proof fn lemma_last_kept_prefix(k1: Seq<bool>, k2: Seq<bool>, p: int)
    requires
        forall|q: int| 0 <= q < p ==> k1[q] == k2[q],
    ensures
        last_kept(k1, p) == last_kept(k2, p),
    decreases p,
{
    if p > 0 {
        lemma_last_kept_prefix(k1, k2, p - 1);
    }
}

/// With deterministic steps, which sibling paths stay is decided uniquely.
proof fn lemma_keep_unique<N: Fn(&String) -> Option<String>, P: Fn(&String, &String) -> bool>(
    src: Seq<NodeView>,
    k1: Seq<bool>,
    k2: Seq<bool>,
    number: N,
    close: P,
)
    requires
        number_deterministic(number),
        close_deterministic(close),
        duplicate_paths_marked(src, k1, number),
        duplicate_paths_marked(src, k2, number),
    ensures
        k1 == k2,
{
    assert forall|p: int| 0 <= p < src.len() implies k1[p] == k2[p] by {
        lemma_keep_unique_upto(src, k1, k2, number, close, p);
    }
    assert(k1 =~= k2);
}

proof fn lemma_keep_unique_upto<N: Fn(&String) -> Option<String>, P: Fn(&String, &String) -> bool>(
    src: Seq<NodeView>,
    k1: Seq<bool>,
    k2: Seq<bool>,
    number: N,
    close: P,
    p: int,
)
    requires
        number_deterministic(number),
        close_deterministic(close),
        duplicate_paths_marked(src, k1, number),
        duplicate_paths_marked(src, k2, number),
        0 <= p < src.len(),
    ensures
        forall|q: int| 0 <= q <= p ==> k1[q] == k2[q],
    decreases p,
{
    if p > 0 {
        lemma_keep_unique_upto(src, k1, k2, number, close, p - 1);
    }
    lemma_last_kept_prefix(k1, k2, p);
    assert(duplicate_decided(src, k1, p, number));
    assert(duplicate_decided(src, k2, p, number));
    let q = last_kept(k1, p);
    if q >= 0 && path_commands_of(src[q]) is Some && path_commands_of(src[p]) is Some {
        lemma_paths_compared_unique(
            path_commands_of(src[q])->0,
            path_commands_of(src[p])->0,
            number,
        );
    }
}

/// Rewritten alike nodes, node by node, give equal nodes.
proof fn lemma_each_alike<N: Fn(&String) -> Option<String>, P: Fn(&String, &String) -> bool>(
    b1: Seq<NodeView>,
    b2: Seq<NodeView>,
    m1: Seq<NodeView>,
    m2: Seq<NodeView>,
    number: N,
    close: P,
)
    requires
        number_deterministic(number),
        close_deterministic(close),
        b1.len() == b2.len(),
        forall|i: int| 0 <= i < b1.len() ==> nodes_variant(#[trigger] b1[i], b2[i], number),
        each_rough_style_removed(b1, m1, number, close),
        each_rough_style_removed(b2, m2, number, close),
    ensures
        m1 == m2,
    decreases b1, 1int,
{
    if b1.len() > 0 {
        assert forall|i: int| 0 <= i < b1.drop_last().len() implies nodes_variant(
            #[trigger] b1.drop_last()[i],
            b2.drop_last()[i],
            number,
        ) by {
            assert(b1.drop_last()[i] == b1[i] && b2.drop_last()[i] == b2[i]);
        }
        lemma_each_alike(b1.drop_last(), b2.drop_last(), m1.drop_last(), m2.drop_last(), number, close);
        assert(nodes_variant(b1[b1.len() - 1], b2[b1.len() - 1], number));
        lemma_node_alike(b1.last(), b2.last(), m1.last(), m2.last(), number, close);
        assert(m1 =~= m1.drop_last().push(m1.last()));
        assert(m2 =~= m2.drop_last().push(m2.last()));
    } else {
        assert(m1 =~= m2);
    }
}

/// Removing the rough style from two alike sibling lists gives equal lists.
proof fn lemma_all_alike<N: Fn(&String) -> Option<String>, P: Fn(&String, &String) -> bool>(
    b1: Seq<NodeView>,
    b2: Seq<NodeView>,
    a1: Seq<NodeView>,
    a2: Seq<NodeView>,
    number: N,
    close: P,
)
    requires
        number_deterministic(number),
        close_deterministic(close),
        b1.len() == b2.len(),
        forall|i: int| 0 <= i < b1.len() ==> nodes_variant(#[trigger] b1[i], b2[i], number),
        rough_style_removed_all(b1, a1, number, close),
        rough_style_removed_all(b2, a2, number, close),
    ensures
        a1 == a2,
    decreases b1, 2int,
{
    let (mid1, keep1) = choose|mid: Seq<NodeView>, keep: Seq<bool>|
        #![trigger kept_nodes(mid, keep)]
        rough_style_steps(b1, mid, keep, a1, number, close);
    let (mid2, keep2) = choose|mid: Seq<NodeView>, keep: Seq<bool>|
        #![trigger kept_nodes(mid, keep)]
        rough_style_steps(b2, mid, keep, a2, number, close);
    lemma_each_alike(b1, b2, mid1, mid2, number, close);
    lemma_keep_unique(mid1, keep1, keep2, number, close);
}

/// Removing the rough style from two alike nodes gives equal nodes.
proof fn lemma_node_alike<N: Fn(&String) -> Option<String>, P: Fn(&String, &String) -> bool>(
    n1: NodeView,
    n2: NodeView,
    m1: NodeView,
    m2: NodeView,
    number: N,
    close: P,
)
    requires
        number_deterministic(number),
        close_deterministic(close),
        nodes_variant(n1, n2, number),
        rough_style_removed(n1, m1, number, close),
        rough_style_removed(n2, m2, number, close),
    ensures
        m1 == m2,
    decreases n1, 0int,
{
    match n1 {
        NodeView::Regular { kind, namespace, attributes, children } => {
            let c2 = n2->children;
            lemma_all_alike(children, c2, m1->children, m2->children, number, close);
            let at1 = m1->attributes;
            let at2 = m2->attributes;
            if kind is Path {
                let x2 = n2->attributes;
                assert forall|i: int| 0 <= i < at1.len() implies #[trigger] at1[i] == at2[i] by {
                    assert(attributes[i].name == x2[i].name);
                    if attributes[i].name.local_name == PATH_DATA_NAME@ {
                        lemma_rough_variants_deduplicate_alike(
                            attributes[i].value,
                            x2[i].value,
                            at1[i].value,
                            at2[i].value,
                            number,
                            close,
                        );
                    }
                }
                assert(at1 =~= at2);
            }
            assert(m1 =~= m2);
        },
        NodeView::Childless { .. } => {},
    }
}

/// Two documents drawn in rough style that differ only in the control points
/// of their curves (same commands, same end points) give the same document
/// once the rough style is removed, as long as reading a number and comparing
/// two numbers give the same answer for the same texts.
pub proof fn lemma_rough_variants_removed_alike<
    N: Fn(&String) -> Option<String>,
    P: Fn(&String, &String) -> bool,
>(b1: Seq<NodeView>, b2: Seq<NodeView>, a1: Seq<NodeView>, a2: Seq<NodeView>, number: N, close: P)
    requires
        number_deterministic(number),
        close_deterministic(close),
        b1.len() == b2.len(),
        forall|i: int| 0 <= i < b1.len() ==> nodes_variant(#[trigger] b1[i], b2[i], number),
        rough_style_removed_all(b1, a1, number, close),
        rough_style_removed_all(b2, a2, number, close),
    ensures
        a1 == a2,
{
    lemma_all_alike(b1, b2, a1, a2, number, close);
}

/// `close` answers alike whichever way round it is asked about two numbers.
pub open spec fn close_symmetric<P: Fn(&String, &String) -> bool>(close: P) -> bool {
    forall|a1: String, b1: String, a2: String, b2: String, r1: bool, r2: bool|
        #![trigger call_ensures(close, (&a1, &b1), r1), call_ensures(close, (&a2, &b2), r2)]
        a1@ == b2@ && b1@ == a2@ && call_ensures(close, (&a1, &b1), r1) && call_ensures(
            close,
            (&a2, &b2),
            r2,
        ) ==> r1 == r2
}

/// Comparing two commands gives the same answer either way round, as long
/// as reading a number gives the same answer for the same text and `close`
/// answers alike either way round.
pub proof fn lemma_similarity_symmetric<
    N: Fn(&String) -> Option<String>,
    P: Fn(&String, &String) -> bool,
>(a: Seq<char>, b: Seq<char>, number: N, close: P, x: bool, y: bool)
    requires
        number_deterministic(number),
        close_symmetric(close),
        similarity_found(a, b, number, close, x),
        similarity_found(b, a, number, close, y),
    ensures
        x == y,
{
    let (ca1, cb1) = choose|c1: Seq<String>, c2: Seq<String>|
        coordinates_read(a, c1, number) && coordinates_read(b, c2, number)
            && #[trigger] similarity_decided(a, b, c1, c2, close, x);
    let (cb2, ca2) = choose|c1: Seq<String>, c2: Seq<String>|
        coordinates_read(b, c1, number) && coordinates_read(a, c2, number)
            && #[trigger] similarity_decided(b, a, c1, c2, close, y);
    lemma_variant_ends(a, a, ca1, ca2, number);
    lemma_variant_ends(b, b, cb1, cb2, number);
    let n = ca1.len();
    if !(command_letter(a) != command_letter(b) || ca1.len() != cb1.len()) && n >= 2 {
        if x != y {
            if x {
                assert(call_ensures(close, (&ca1[n - 2], &cb1[n - 2]), true));
                assert(call_ensures(close, (&ca1[n - 1], &cb1[n - 1]), true));
            } else {
                assert(call_ensures(close, (&cb2[n - 2], &ca2[n - 2]), true));
                assert(call_ensures(close, (&cb2[n - 1], &ca2[n - 1]), true));
            }
        }    } else if !(command_letter(a) != command_letter(b) || ca1.len() != cb1.len()) && n == 1 {
        assert(call_ensures(close, (&ca1[0], &cb1[0]), x));
        assert(call_ensures(close, (&cb2[0], &ca2[0]), y));
    }
}

/// `each_rough_style_removed` relates the nodes position by position.
proof fn lemma_each_pointwise<N: Fn(&String) -> Option<String>, P: Fn(&String, &String) -> bool>(
    b: Seq<NodeView>,
    m: Seq<NodeView>,
    number: N,
    close: P,
)
    requires
        each_rough_style_removed(b, m, number, close),
    ensures
        m.len() == b.len(),
        forall|i: int| 0 <= i < b.len() ==> rough_style_removed(#[trigger] b[i], m[i], number, close),
    decreases b.len(),
{
    if b.len() > 0 {
        lemma_each_pointwise(b.drop_last(), m.drop_last(), number, close);
        assert forall|i: int| 0 <= i < b.len() implies rough_style_removed(#[trigger] b[i], m[i], number, close) by {
            if i < b.len() - 1 {
                assert(b.drop_last()[i] == b[i] && m.drop_last()[i] == m[i]);
            }
        }
    }
}

proof fn lemma_kept_nodes_len(src: Seq<NodeView>, keep: Seq<bool>)
    ensures
        kept_nodes(src, keep).len() <= keep.len(),
    decreases keep.len(),
{
    if keep.len() > 0 {
        lemma_kept_nodes_len(src, keep.drop_last());
    }
}

/// Removing the rough style from sibling nodes rewrites each node and then
/// drops only path elements: the result is, in order, the rewritten nodes at
/// the positions that `keep` keeps, and each dropped position holds a path.
pub proof fn lemma_rough_style_drops_only_paths<
    N: Fn(&String) -> Option<String>,
    P: Fn(&String, &String) -> bool,
>(b: Seq<NodeView>, a: Seq<NodeView>, number: N, close: P)
    requires
        rough_style_removed_all(b, a, number, close),
    ensures
        a.len() <= b.len(),
        exists|mid: Seq<NodeView>, keep: Seq<bool>|
            #![trigger kept_nodes(mid, keep)]
            {
                &&& mid.len() == b.len()
                &&& keep.len() == b.len()
                &&& a == kept_nodes(mid, keep)
                &&& forall|i: int| 0 <= i < b.len() ==> rough_style_removed(#[trigger] b[i], mid[i], number, close)
                &&& forall|i: int|
                    0 <= i < b.len() && !keep[i] ==> (#[trigger] b[i] is Regular && b[i]->kind is Path)
            },
{
    let (mid, keep) = choose|mid: Seq<NodeView>, keep: Seq<bool>|
        #![trigger kept_nodes(mid, keep)]
        rough_style_steps(b, mid, keep, a, number, close);
    lemma_each_pointwise(b, mid, number, close);
    lemma_kept_nodes_len(mid, keep);
    assert forall|i: int| 0 <= i < b.len() && !keep[i] implies (#[trigger] b[i] is Regular
        && b[i]->kind is Path) by {
        assert(duplicate_decided(mid, keep, i, number));
        assert(rough_style_removed(b[i], mid[i], number, close));
    }
}

/// Canonicalizing a command with coordinates keeps it as it is unless it is a
/// curve (`C`, `S`, `Q` or `T`) with enough coordinates (six for `C`, four for
/// `S` and `Q`, two for `T`), which becomes a line `L` to its end point, the
/// last two coordinates; a command without coordinates becomes its letter.
pub proof fn lemma_canonical_command_law(cmd: Seq<char>, coords: Seq<Seq<char>>)
    ensures
        coords.len() > 0 && !(cmd.len() > 0 && ((cmd[0] == 'C' && coords.len() >= 6) || ((cmd[0]
            == 'S' || cmd[0] == 'Q') && coords.len() >= 4) || (cmd[0] == 'T' && coords.len() >= 2)))
            ==> canonical_command(cmd, coords) == cmd,
        cmd.len() > 0 && ((cmd[0] == 'C' && coords.len() >= 6) || ((cmd[0] == 'S' || cmd[0] == 'Q')
            && coords.len() >= 4) || (cmd[0] == 'T' && coords.len() >= 2)) ==> canonical_command(
            cmd,
            coords,
        ) == seq!['L'] + coords[coords.len() - 2] + seq![' '] + coords[coords.len() - 1],
        coords.len() == 0 && cmd.len() > 0 ==> canonical_command(cmd, coords) == seq![cmd[0]],
        coords.len() == 0 && cmd.len() == 0 ==> canonical_command(cmd, coords) == seq!['M'],
{
}

/// What canonicalizing gives for a command from which `number` reads
/// coordinates and whose letter is not one of `C`, `S`, `Q`, `T` is the
/// command unchanged.
pub proof fn lemma_canonical_form_keeps_other_commands<N: Fn(&String) -> Option<String>>(
    cmd: Seq<char>,
    out: Seq<char>,
    number: N,
)
    requires
        is_canonical_form(cmd, out, number),
        cmd.len() > 0,
        cmd[0] != 'C' && cmd[0] != 'S' && cmd[0] != 'Q' && cmd[0] != 'T',
        forall|coords: Seq<String>| #[trigger] coordinates_read(cmd, coords, number) ==> coords.len() > 0,
    ensures
        out == cmd,
{
    let x = choose|x: Seq<String>|
        #[trigger] coordinates_read(cmd, x, number) && out == canonical_command(cmd, strings_view(x));
    lemma_canonical_command_law(cmd, strings_view(x));
}

} // verus!
