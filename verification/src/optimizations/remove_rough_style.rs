//! Removes the duplicated strokes that hand-drawn ("rough") rendering puts in
//! path data: of each run of consecutive commands that draw roughly the same
//! segment only the first is kept, in a canonical form; and of each run of
//! consecutive sibling paths that draw the same shape only the first is kept.
//!
//! Two steps work on floating-point numbers, and callers supply them: reading
//! a number written in a command (`number`, which gives the number written
//! out again, or nothing when it cannot be read) and deciding whether two
//! numbers lie close enough together (`close`).
use vstd::prelude::*;
use crate::attributes::{PATH_DATA_NAME, find_attribute, first_named};
use crate::id_usage::strings_view;
use crate::node::{
    Attribute, AttributeView, Node, NodeView, RegularNodeType, attributes_view,
    lemma_children_view, nodes_view,
};
use crate::text::{chars_of, string_is};

verus! {

/// The regular expression that matches one path command: a command letter
/// followed by everything up to the next command letter.
pub const COMMAND_PATTERN: &'static str = "[MLHVCSQTAZ][^MLHVCSQTAZ]*";

/// The regular expression that matches one number in a command: an optional
/// minus sign, digits, and an optional decimal point followed by digits.
pub const NUMBER_PATTERN: &'static str = "-?\\d+\\.?\\d*";

/// Whether `c` is one of the path command letters that start a command.
pub open spec fn is_command_letter(c: char) -> bool {
    c == 'M' || c == 'L' || c == 'H' || c == 'V' || c == 'C' || c == 'S' || c == 'Q' || c == 'T'
        || c == 'A' || c == 'Z'
}

/// The commands of path data `t`, in order: each begins at a command letter
/// and runs up to the next one; text before the first letter belongs to none.
pub open spec fn command_split(t: Seq<char>) -> Seq<Seq<char>>
    decreases t.len(),
{
    if t.len() == 0 {
        Seq::empty()
    } else {
        let s = command_split(t.drop_last());
        let c = t.last();
        if is_command_letter(c) {
            s.push(seq![c])
        } else if s.len() > 0 {
            s.update(s.len() - 1, s.last().push(c))
        } else {
            s
        }
    }
}

/// The successive non-overlapping matches of the regular expression `pattern`
/// in `text`, as the `regex` crate finds them.
pub uninterp spec fn regex_matches(pattern: Seq<char>, text: Seq<char>) -> Seq<Seq<char>>;

/// Calls `Regex::new` (re-exported by `lazy_regex`) and `Regex::find_iter`:
/// when the pattern compiles, returns the text of every match in order, which
/// is `regex_matches(pattern, text)`. Claimed of the crate: `COMMAND_PATTERN`
/// and `NUMBER_PATTERN` compile, and the matches of `COMMAND_PATTERN` in a
/// text are the commands of `command_split` (a negated class matches every
/// other character, newlines included, and matching is leftmost-first and
/// greedy). Which texts `NUMBER_PATTERN` matches is left unsaid (its `\d`
/// matches every Unicode decimal digit).
#[verifier::external_body]
fn regex_find_all(pattern: &str, text: &str) -> (r: Option<Vec<String>>)
    ensures
        r is Some ==> strings_view(r->0@) == regex_matches(pattern@, text@),
        pattern@ == COMMAND_PATTERN@ ==> r is Some && strings_view(r->0@) == command_split(text@),
        pattern@ == NUMBER_PATTERN@ ==> r is Some,
{
    match lazy_regex::Regex::new(pattern) {
        Ok(re) => Some(re.find_iter(text).map(|m| m.as_str().to_string()).collect()),
        Err(_) => None,
    }
}

/// The letter of command `cmd`: its first character, `M` for an empty command.
pub open spec fn command_letter(cmd: Seq<char>) -> char {
    if cmd.len() > 0 {
        cmd[0]
    } else {
        'M'
    }
}

/// The values among `answers`, in order.
pub open spec fn present(answers: Seq<Option<String>>) -> Seq<String>
    decreases answers.len(),
{
    if answers.len() == 0 {
        Seq::empty()
    } else {
        let rest = present(answers.drop_last());
        match answers.last() {
            Some(v) => rest.push(v),
            None => rest,
        }
    }
}

/// `answers[i]` is what `number` gave for `texts[i]`, for each `i`.
pub open spec fn numbers_answered<N: Fn(&String) -> Option<String>>(
    texts: Seq<String>,
    answers: Seq<Option<String>>,
    number: N,
) -> bool {
    &&& answers.len() == texts.len()
    &&& forall|i: int|
        #![trigger texts[i]]
        0 <= i < texts.len() ==> call_ensures(number, (&texts[i],), answers[i])
}

/// `coords` are the coordinates of command `cmd`: of the texts that match
/// `NUMBER_PATTERN` in it, in order, what `number` gave for those it could
/// read.
pub open spec fn coordinates_read<N: Fn(&String) -> Option<String>>(
    cmd: Seq<char>,
    coords: Seq<String>,
    number: N,
) -> bool {
    exists|texts: Seq<String>, answers: Seq<Option<String>>|
        #[trigger] numbers_answered(texts, answers, number) && strings_view(texts)
            == regex_matches(NUMBER_PATTERN@, cmd) && coords == present(answers)
}

/// What `number` gives for each of the number texts `texts`, in order, for
/// those it can read.
pub fn read_numbers<N: Fn(&String) -> Option<String>>(texts: &Vec<String>, number: &N) -> (r: Vec<
    String,
>)
    requires
        forall|a: &String| call_requires(*number, (a,)),
    ensures
        exists|answers: Seq<Option<String>>|
            #[trigger] numbers_answered(texts@, answers, *number) && r@ == present(answers),
{
    let mut values: Vec<String> = Vec::new();
    let ghost mut answers: Seq<Option<String>> = Seq::empty();
    for i in 0..texts.len()
        invariant
            forall|a: &String| call_requires(*number, (a,)),
            numbers_answered(texts@.take(i as int), answers, *number),
            values@ == present(answers),
    {
        let answer = number(&texts[i]);
        let ghost before = answers;
        proof {
            answers = answers.push(answer);
        }
        match answer {
            Some(value) => values.push(value),
            None => {},
        }
        proof {
            assert(answers.drop_last() =~= before);
            assert forall|j: int| 0 <= j <= i implies #[trigger] texts@.take(i + 1)[j] == texts@[j]
                && call_ensures(*number, (&texts@[j],), answers[j]) by {
                if j < i {
                    assert(texts@.take(i as int)[j] == texts@[j]);
                }
            }
        }
    }
    proof {
        assert(texts@.take(texts@.len() as int) =~= texts@);
    }
    values
}

/// Parses a command into its letter and its coordinate values (see
/// `coordinates_read`).
pub fn parse_coords<N: Fn(&String) -> Option<String>>(cmd: &str, number: &N) -> (r: (
    char,
    Vec<String>,
))
    requires
        forall|a: &String| call_requires(*number, (a,)),
    ensures
        r.0 == command_letter(cmd@),
        coordinates_read(cmd@, r.1@, *number),
{
    let chars = chars_of(cmd);
    let letter = if chars.len() > 0 { chars[0] } else { 'M' };
    let texts = match regex_find_all(NUMBER_PATTERN, cmd) {
        Some(texts) => texts,
        None => Vec::new(),
    };
    let coords = read_numbers(&texts, number);
    (letter, coords)
}

/// Whether `close` gave `answer` for the question whether commands `cmd1`
/// (coordinates `c1`) and `cmd2` (coordinates `c2`) draw roughly the same
/// segment, that is, have the same letter and the same end point: commands
/// with different letters or numbers of coordinates do not; commands with at
/// least two coordinates do when `close` found both the next-to-last
/// coordinates and the last coordinates close; commands with one coordinate
/// do when `close` found it close; commands without coordinates do.
pub open spec fn similarity_decided<P: Fn(&String, &String) -> bool>(
    cmd1: Seq<char>,
    cmd2: Seq<char>,
    c1: Seq<String>,
    c2: Seq<String>,
    close: P,
    answer: bool,
) -> bool {
    let n = c1.len();
    if command_letter(cmd1) != command_letter(cmd2) || c1.len() != c2.len() {
        !answer
    } else if n >= 2 {
        if answer {
            &&& call_ensures(close, (&c1[n - 2], &c2[n - 2]), true)
            &&& call_ensures(close, (&c1[n - 1], &c2[n - 1]), true)
        } else {
            ||| call_ensures(close, (&c1[n - 2], &c2[n - 2]), false)
            ||| call_ensures(close, (&c1[n - 1], &c2[n - 1]), false)
        }
    } else if n == 1 {
        call_ensures(close, (&c1[0], &c2[0]), answer)
    } else {
        answer
    }
}

/// Whether `answer` is what comparing commands `cmd1` and `cmd2` gives, for
/// some answers of `number` and `close` (see `similarity_decided`).
pub open spec fn similarity_found<N: Fn(&String) -> Option<String>, P: Fn(&String, &String) -> bool>(
    cmd1: Seq<char>,
    cmd2: Seq<char>,
    number: N,
    close: P,
    answer: bool,
) -> bool {
    exists|c1: Seq<String>, c2: Seq<String>|
        coordinates_read(cmd1, c1, number) && coordinates_read(cmd2, c2, number)
            && #[trigger] similarity_decided(cmd1, cmd2, c1, c2, close, answer)
}

/// Checks whether two commands draw roughly the same segment: they have the
/// same letter and as many coordinates, and their end points are close (see
/// `similarity_decided`).
pub fn commands_are_similar<N: Fn(&String) -> Option<String>, P: Fn(&String, &String) -> bool>(
    cmd1: &str,
    cmd2: &str,
    number: &N,
    close: &P,
) -> (r: bool)
    requires
        forall|a: &String| call_requires(*number, (a,)),
        forall|a: &String, b: &String| call_requires(*close, (a, b)),
    ensures
        similarity_found(cmd1@, cmd2@, *number, *close, r),
{
    let (letter1, coords1) = parse_coords(cmd1, number);
    let (letter2, coords2) = parse_coords(cmd2, number);
    let r = if letter1 != letter2 {
        false
    } else if coords1.len() != coords2.len() {
        false
    } else if coords1.len() >= 2 {
        let n = coords1.len();
        if close(&coords1[n - 2], &coords2[n - 2]) {
            close(&coords1[n - 1], &coords2[n - 1])
        } else {
            false
        }
    } else if coords1.len() == 1 {
        close(&coords1[0], &coords2[0])
    } else {
        true
    };
    assert(similarity_decided(cmd1@, cmd2@, coords1@, coords2@, *close, r));
    r
}

/// The canonical form of command `cmd` whose coordinates, as written out,
/// are `coords`: a curve command (`C` with at least six coordinates, `S` or
/// `Q` with at least four, `T` with at least two) becomes a line `L` to its
/// end point; a command without coordinates becomes its letter; any other
/// command stays as it is.
pub open spec fn canonical_command(cmd: Seq<char>, coords: Seq<Seq<char>>) -> Seq<char> {
    let letter = command_letter(cmd);
    let n = coords.len();
    if n == 0 {
        seq![letter]
    } else if (letter == 'C' && n >= 6) || (letter == 'S' && n >= 4) || (letter == 'Q' && n >= 4)
        || (letter == 'T' && n >= 2) {
        seq!['L'] + coords[n - 2] + seq![' '] + coords[n - 1]
    } else {
        cmd
    }
}

/// The canonical form of command `cmd`, with letter `letter` and coordinates
/// `coords` (see `canonical_command`).
pub fn canonical_form(cmd: &str, letter: char, coords: &[String]) -> (r: String)
    requires
        letter == command_letter(cmd@),
    ensures
        r@ == canonical_command(cmd@, strings_view(coords@)),
{
    proof {
        reveal_strlit("M");
        reveal_strlit("L");
        reveal_strlit(" ");
    }
    let n = coords.len();
    if n == 0 {
        if cmd.unicode_len() > 0 {
            let r = cmd.substring_char(0, 1).to_owned();
            assert(r@ =~= seq![letter]);
            return r;
        } else {
            let r = "M".to_owned();
            assert(r@ =~= seq![letter]);
            return r;
        }
    }
    if (letter == 'C' && n >= 6) || (letter == 'S' && n >= 4) || (letter == 'Q' && n >= 4) || (
    letter == 'T' && n >= 2) {
        let mut r = "L".to_owned();
        r.append(coords[n - 2].as_str());
        r.append(" ");
        r.append(coords[n - 1].as_str());
        proof {
            let cv = strings_view(coords@);
            assert(cv[n - 2] == coords@[n - 2]@);
            assert(cv[n - 1] == coords@[n - 1]@);
            assert(r@ =~= seq!['L'] + cv[n - 2] + seq![' '] + cv[n - 1]);
        }
        r
    } else {
        cmd.to_owned()
    }
}

/// Whether `out` is the canonical form of command `cmd`, for some answers of
/// `number` (see `canonical_command`).
pub open spec fn is_canonical_form<N: Fn(&String) -> Option<String>>(
    cmd: Seq<char>,
    out: Seq<char>,
    number: N,
) -> bool {
    exists|coords: Seq<String>|
        #[trigger] coordinates_read(cmd, coords, number) && out == canonical_command(
            cmd,
            strings_view(coords),
        )
}

/// Canonicalizes a command by converting it to its simplest form (see
/// `canonical_command`).
pub fn canonicalize_command<N: Fn(&String) -> Option<String>>(cmd: &str, number: &N) -> (r: String)
    requires
        forall|a: &String| call_requires(*number, (a,)),
    ensures
        is_canonical_form(cmd@, r@, *number),
{
    let (letter, coords) = parse_coords(cmd, number);
    let r = canonical_form(cmd, letter, coords.as_slice());
    assert(coordinates_read(cmd@, coords@, *number));
    r
}

/// The parts joined into one text, with one space between neighbours.
pub open spec fn join_with_spaces(parts: Seq<Seq<char>>) -> Seq<char>
    decreases parts.len(),
{
    if parts.len() == 0 {
        Seq::empty()
    } else if parts.len() == 1 {
        parts[0]
    } else {
        join_with_spaces(parts.drop_last()) + seq![' '] + parts.last()
    }
}

fn join_parts(parts: &Vec<String>) -> (r: String)
    ensures
        r@ == join_with_spaces(strings_view(parts@)),
{
    proof {
        reveal_strlit(" ");
    }
    let ghost ps = strings_view(parts@);
    let mut r = String::new();
    for i in 0..parts.len()
        invariant
            ps == strings_view(parts@),
            r@ == join_with_spaces(ps.take(i as int)),
    {
        proof {
            assert(ps.take(i + 1).drop_last() =~= ps.take(i as int));
            assert(ps.take(i + 1).last() == parts@[i as int]@);
        }
        let ghost before = r@;
        if i > 0 {
            r.append(" ");
        }
        r.append(parts[i].as_str());
        proof {
            reveal_strlit(" ");
            assert(" "@ =~= seq![' ']);
            if i == 0 {
                assert(r@ =~= join_with_spaces(ps.take(1)));
            } else {
                assert(r@ =~= before + seq![' '] + ps[i as int]);
                assert(r@ =~= join_with_spaces(ps.take(i + 1)));
            }
        }
    }
    assert(ps.take(ps.len() as int) =~= ps);
    r
}

/// The position where the run started at `kept[k]` ends: the next kept
/// position, or `n` after the last one.
pub open spec fn run_end(kept: Seq<int>, k: int, n: int) -> int {
    if k + 1 < kept.len() {
        kept[k + 1]
    } else {
        n
    }
}

/// `kept` holds the positions, among the commands `cmds`, at which a run of
/// commands similar to its first one begins, for some answers of `number`
/// and `close`: the first command starts a run; each command up to the next
/// start was found similar to the start of its run; each next start was found
/// not similar to it.
pub open spec fn runs_of_similar<N: Fn(&String) -> Option<String>, P: Fn(&String, &String) -> bool>(
    cmds: Seq<Seq<char>>,
    kept: Seq<int>,
    number: N,
    close: P,
) -> bool {
    let n = cmds.len() as int;
    &&& (n == 0 <==> kept.len() == 0)
    &&& kept.len() > 0 ==> kept[0] == 0
    &&& forall|k: int| 0 <= k < kept.len() ==> 0 <= #[trigger] kept[k] < n
    &&& forall|k: int| 0 <= k < kept.len() ==> kept[k] < #[trigger] run_end(kept, k, n)
    &&& forall|k: int, j: int|
        #![trigger run_end(kept, k, n), cmds[j]]
        0 <= k < kept.len() && kept[k] < j < run_end(kept, k, n) ==> similarity_found(
            cmds[kept[k]],
            cmds[j],
            number,
            close,
            true,
        )
    &&& forall|k: int|
        0 <= k < kept.len() - 1 ==> similarity_found(
            cmds[kept[k]],
            cmds[#[trigger] run_end(kept, k, n)],
            number,
            close,
            false,
        )
}

/// The runs found among the commands before position `m`: as in
/// `runs_of_similar`, with the last run ending at `m`, and the command at `m`,
/// if any, found not similar to the start of the last run.
#[verifier::opaque]
spec fn runs_so_far<N: Fn(&String) -> Option<String>, P: Fn(&String, &String) -> bool>(
    cmds: Seq<Seq<char>>,
    kept: Seq<int>,
    m: int,
    number: N,
    close: P,
) -> bool {
    &&& (m == 0 <==> kept.len() == 0)
    &&& kept.len() > 0 ==> kept[0] == 0
    &&& forall|k: int| 0 <= k < kept.len() ==> 0 <= #[trigger] kept[k] < m
    &&& forall|k: int| 0 <= k < kept.len() ==> kept[k] < #[trigger] run_end(kept, k, m)
    &&& forall|k: int, j: int|
        #![trigger run_end(kept, k, m), cmds[j]]
        0 <= k < kept.len() && kept[k] < j < run_end(kept, k, m) ==> similarity_found(
            cmds[kept[k]],
            cmds[j],
            number,
            close,
            true,
        )
    &&& forall|k: int|
        0 <= k < kept.len() - 1 ==> similarity_found(
            cmds[kept[k]],
            cmds[#[trigger] run_end(kept, k, m)],
            number,
            close,
            false,
        )
    &&& kept.len() > 0 && m < cmds.len() ==> similarity_found(
        cmds[kept.last()],
        cmds[m],
        number,
        close,
        false,
    )
}

proof fn lemma_runs_start<N: Fn(&String) -> Option<String>, P: Fn(&String, &String) -> bool>(
    cmds: Seq<Seq<char>>,
    number: N,
    close: P,
)
    ensures
        runs_so_far(cmds, Seq::empty(), 0, number, close),
{
    reveal(runs_so_far);
}

proof fn lemma_runs_step<N: Fn(&String) -> Option<String>, P: Fn(&String, &String) -> bool>(
    cmds: Seq<Seq<char>>,
    kept: Seq<int>,
    i: int,
    j: int,
    number: N,
    close: P,
)
    requires
        runs_so_far(cmds, kept, i, number, close),
        0 <= i < j <= cmds.len(),
        forall|l: int|
            #![trigger cmds[l]]
            i < l < j ==> similarity_found(cmds[i], cmds[l], number, close, true),
        j < cmds.len() ==> similarity_found(cmds[i], cmds[j], number, close, false),
    ensures
        runs_so_far(cmds, kept.push(i), j, number, close),
{
    reveal(runs_so_far);
    let nk = kept.push(i);
    assert forall|k: int| 0 <= k < nk.len() implies nk[k] < #[trigger] run_end(nk, k, j) by {
        if k < kept.len() {
            assert(nk[k] == kept[k]);
            if k + 1 >= kept.len() {
                assert(run_end(nk, k, j) == i);
                assert(0 <= kept[k] < i);
            } else {
                assert(run_end(nk, k, j) == run_end(kept, k, i));
            }
        } else {
            assert(nk[k] == i);
            assert(run_end(nk, k, j) == j);
        }
    }
    assert forall|k: int, l: int|
        #![trigger run_end(nk, k, j), cmds[l]]
        0 <= k < nk.len() && nk[k] < l < run_end(nk, k, j) implies similarity_found(
            cmds[nk[k]],
            cmds[l],
            number,
            close,
            true,
        ) by {
        if k < kept.len() {
            assert(nk[k] == kept[k]);
            if k + 1 < kept.len() {
                assert(run_end(nk, k, j) == run_end(kept, k, i));
                assert(kept[k] < l < run_end(kept, k, i));
            } else {
                assert(run_end(nk, k, j) == i);
                assert(kept[k] < l < run_end(kept, k, i));
            }
        }
    }
    assert forall|k: int| 0 <= k < nk.len() - 1 implies similarity_found(
        cmds[nk[k]],
        cmds[#[trigger] run_end(nk, k, j)],
        number,
        close,
        false,
    ) by {
        assert(nk[k] == kept[k]);
        if k + 1 < kept.len() {
            assert(nk[k + 1] == kept[k + 1]);
            assert(run_end(kept, k, i) == kept[k + 1]);
        } else {
            assert(kept.last() == nk[k]);
            assert(nk[k + 1] == i);
        }
    }
}

proof fn lemma_runs_done<N: Fn(&String) -> Option<String>, P: Fn(&String, &String) -> bool>(
    cmds: Seq<Seq<char>>,
    kept: Seq<int>,
    number: N,
    close: P,
)
    requires
        runs_so_far(cmds, kept, cmds.len() as int, number, close),
    ensures
        runs_of_similar(cmds, kept, number, close),
{
    reveal(runs_so_far);
}

/// The text of path data `t` before its first command letter (all of `t`
/// when it has none).
pub open spec fn leading_text(t: Seq<char>) -> Seq<char>
    decreases t.len(),
{
    if t.len() == 0 || is_command_letter(t[0]) {
        Seq::empty()
    } else {
        seq![t[0]] + leading_text(t.drop_first())
    }
}

proof fn lemma_leading_text(t: Seq<char>, k: int)
    requires
        0 <= k <= t.len(),
        forall|j: int| 0 <= j < k ==> !is_command_letter(#[trigger] t[j]),
        k == t.len() || is_command_letter(t[k]),
    ensures
        leading_text(t) == t.take(k),
    decreases k,
{
    if k == 0 {
        assert(t.take(0) =~= Seq::<char>::empty());
    } else {
        assert forall|j: int| 0 <= j < k - 1 implies !is_command_letter(#[trigger] t.drop_first()[j]) by {
            assert(t.drop_first()[j] == t[j + 1]);
        }
        lemma_leading_text(t.drop_first(), k - 1);
        assert(seq![t[0]] + t.drop_first().take(k - 1) =~= t.take(k));
    }
}

/// The text of `path_data` before its first command letter.
fn leading_text_of(path_data: &str) -> (r: String)
    ensures
        r@ == leading_text(path_data@),
{
    let chars = chars_of(path_data);
    let mut k: usize = 0;
    while k < chars.len() && !(chars[k] == 'M' || chars[k] == 'L' || chars[k] == 'H' || chars[k] == 'V'
        || chars[k] == 'C' || chars[k] == 'S' || chars[k] == 'Q' || chars[k] == 'T' || chars[k] == 'A'
        || chars[k] == 'Z')
        invariant
            k <= chars@.len(),
            chars@ == path_data@,
            forall|j: int| 0 <= j < k ==> !is_command_letter(#[trigger] chars@[j]),
        decreases chars.len() - k,
    {
        k = k + 1;
    }
    proof {
        lemma_leading_text(path_data@, k as int);
    }
    let r = path_data.substring_char(0, k).to_owned();
    assert(r@ =~= path_data@.take(k as int));
    r
}

/// `out` is the deduplicated path data of `path`: `kept` are the starts of the
/// runs of similar commands among the commands of `path`, `parts[k]` the
/// canonical form of the command at `kept[k]`, and `out` the text before the
/// first command, unchanged, followed by the parts joined with spaces.
pub open spec fn deduplicated<N: Fn(&String) -> Option<String>, P: Fn(&String, &String) -> bool>(
    path: Seq<char>,
    out: Seq<char>,
    kept: Seq<int>,
    parts: Seq<Seq<char>>,
    number: N,
    close: P,
) -> bool {
    let cmds = command_split(path);
    &&& runs_of_similar(cmds, kept, number, close)
    &&& parts.len() == kept.len()
    &&& forall|k: int|
        0 <= k < kept.len() ==> is_canonical_form(cmds[kept[k]], #[trigger] parts[k], number)
    &&& out == leading_text(path) + join_with_spaces(parts)
}

/// Whether `out` is what deduplicating the path data `path` gives, for some
/// answers of `number` and `close`.
pub open spec fn is_deduplication<N: Fn(&String) -> Option<String>, P: Fn(&String, &String) -> bool>(
    path: Seq<char>,
    out: Seq<char>,
    number: N,
    close: P,
) -> bool {
    exists|kept: Seq<int>, parts: Seq<Seq<char>>|
        #[trigger] deduplicated(path, out, kept, parts, number, close)
}

/// Deduplicate rough-style path commands: of each run of consecutive commands
/// similar to its first one, only the first is kept, in canonical form; text
/// before the first command is kept as it is (see `deduplicated`).
pub fn deduplicate_path_data<N: Fn(&String) -> Option<String>, P: Fn(&String, &String) -> bool>(
    path_data: &str,
    number: &N,
    close: &P,
) -> (r: String)
    requires
        forall|a: &String| call_requires(*number, (a,)),
        forall|a: &String, b: &String| call_requires(*close, (a, b)),
    ensures
        is_deduplication(path_data@, r@, *number, *close),
{
    let found = regex_find_all(COMMAND_PATTERN, path_data);
    let commands = match found {
        Some(commands) => commands,
        None => Vec::new(),
    };
    let ghost cmds = strings_view(commands@);
    let mut r = leading_text_of(path_data);
    let n = commands.len();
    if n == 0 {
        proof {
            let kept = Seq::<int>::empty();
            let parts = Seq::<Seq<char>>::empty();
            assert(r@ =~= leading_text(path_data@) + join_with_spaces(parts));
            assert(deduplicated(path_data@, r@, kept, parts, *number, *close));
        }
        return r;
    }
    let mut result: Vec<String> = Vec::new();
    let ghost mut kept: Seq<int> = Seq::empty();
    let mut i: usize = 0;
    proof {
        lemma_runs_start(cmds, *number, *close);
    }
    while i < n
        invariant
            0 <= i <= n,
            n == cmds.len(),
            cmds == strings_view(commands@),
            cmds == command_split(path_data@),
            forall|a: &String| call_requires(*number, (a,)),
            forall|a: &String, b: &String| call_requires(*close, (a, b)),
            kept.len() == result@.len(),
            runs_so_far(cmds, kept, i as int, *number, *close),
            forall|k: int| 0 <= k < kept.len() ==> 0 <= #[trigger] kept[k] < n,
            forall|k: int|
                0 <= k < kept.len() ==> is_canonical_form(
                    cmds[kept[k]],
                    (#[trigger] result@[k])@,
                    *number,
                ),
        decreases n - i,
    {
        assert(commands@[i as int]@ == cmds[i as int]);
        result.push(canonicalize_command(commands[i].as_str(), number));
        let ghost old_kept = kept;
        proof {
            kept = kept.push(i as int);
        }
        let mut j = i + 1;
        loop
            invariant
                i < j <= n,
                n == cmds.len(),
                cmds == strings_view(commands@),
                forall|a: &String| call_requires(*number, (a,)),
                forall|a: &String, b: &String| call_requires(*close, (a, b)),
                forall|l: int|
                    #![trigger cmds[l]]
                    i < l < j ==> similarity_found(cmds[i as int], cmds[l], *number, *close, true),
            ensures
                i < j <= n,
                forall|l: int|
                    #![trigger cmds[l]]
                    i < l < j ==> similarity_found(cmds[i as int], cmds[l], *number, *close, true),
                j < n ==> similarity_found(cmds[i as int], cmds[j as int], *number, *close, false),
            decreases n - j,
        {
            if j >= n {
                break;
            }
            assert(commands@[j as int]@ == cmds[j as int]);
            let same = commands_are_similar(commands[i].as_str(), commands[j].as_str(), number, close);
            if !same {
                break;
            }
            j = j + 1;
        }
        proof {
            lemma_runs_step(cmds, old_kept, i as int, j as int, *number, *close);
        }
        i = j;
    }
    let joined = join_parts(&result);
    r.append(joined.as_str());
    proof {
        let parts = strings_view(result@);
        lemma_runs_done(cmds, kept, *number, *close);
        assert forall|k: int| 0 <= k < kept.len() implies is_canonical_form(
            cmds[kept[k]],
            #[trigger] parts[k],
            *number,
        ) by {
            assert(parts[k] == result@[k]@);
        }
        assert(deduplicated(path_data@, r@, kept, parts, *number, *close));
    }
    r
}

/// `after` is `before` with the value of every `d` attribute deduplicated.
pub open spec fn path_data_rewritten<N: Fn(&String) -> Option<String>, P: Fn(&String, &String) -> bool>(
    before: Seq<AttributeView>,
    after: Seq<AttributeView>,
    number: N,
    close: P,
) -> bool {
    &&& after.len() == before.len()
    &&& forall|i: int|
        0 <= i < before.len() ==> {
            &&& (#[trigger] after[i]).name == before[i].name
            &&& if before[i].name.local_name == PATH_DATA_NAME@ {
                is_deduplication(before[i].value, after[i].value, number, close)
            } else {
                after[i].value == before[i].value
            }
        }
}

/// The commands of the path data of `node`, when it is a path element with a
/// `d` attribute (the first one counts).
pub open spec fn path_commands_of(node: NodeView) -> Option<Seq<Seq<char>>> {
    match node {
        NodeView::Regular { kind, attributes, .. } => {
            if kind is Path {
                match first_named(attributes, PATH_DATA_NAME@) {
                    Some(a) => Some(command_split(a.value)),
                    None => None,
                }
            } else {
                None
            }
        },
        NodeView::Childless { .. } => None,
    }
}

/// Whether commands `c1` (coordinates `x1`) and `c2` (coordinates `x2`) have
/// the same shape, as `answer` says: the same letter and as many coordinates.
pub open spec fn shape_decided(
    c1: Seq<char>,
    c2: Seq<char>,
    x1: Seq<String>,
    x2: Seq<String>,
    answer: bool,
) -> bool {
    answer == (command_letter(c1) == command_letter(c2) && x1.len() == x2.len())
}

/// Whether `answer` is what comparing the shapes of commands `c1` and `c2`
/// gives, for some answers of `number` (see `shape_decided`).
pub open spec fn shape_found<N: Fn(&String) -> Option<String>>(
    c1: Seq<char>,
    c2: Seq<char>,
    number: N,
    answer: bool,
) -> bool {
    exists|x1: Seq<String>, x2: Seq<String>|
        coordinates_read(c1, x1, number) && coordinates_read(c2, x2, number)
            && #[trigger] shape_decided(c1, c2, x1, x2, answer)
}

/// Whether `answer` is what comparing the path with commands `a` to the path
/// with commands `b` gives, for some answers of `number`: `true` means that
/// both have equally many commands and each has the shape of the command at
/// its position in the other; `false` that their numbers differ or some pair
/// differs in shape.
pub open spec fn paths_compared<N: Fn(&String) -> Option<String>>(
    a: Seq<Seq<char>>,
    b: Seq<Seq<char>>,
    number: N,
    answer: bool,
) -> bool {
    if answer {
        &&& a.len() == b.len()
        &&& forall|k: int|
            #![trigger a[k]]
            0 <= k < a.len() ==> shape_found(a[k], b[k], number, true)
    } else {
        ||| a.len() != b.len()
        ||| exists|k: int|
            #![trigger a[k]]
            0 <= k < a.len() && shape_found(a[k], b[k], number, false)
    }
}

/// The position of the last node before position `p` that `keep` keeps, or
/// -1 when there is none.
pub open spec fn last_kept(keep: Seq<bool>, p: int) -> int
    decreases p,
{
    if p <= 0 {
        -1
    } else if keep[p - 1] {
        p - 1
    } else {
        last_kept(keep, p - 1)
    }
}

/// Whether the node at position `p` of `src` is kept or dropped as the rule
/// says. Rough rendering draws a shape twice, with its points moved at
/// random; so a node is dropped exactly when it and the last node kept
/// before it are both paths with path data whose commands have the same
/// shapes, command by command (see `paths_compared`).
pub open spec fn duplicate_decided<N: Fn(&String) -> Option<String>>(
    src: Seq<NodeView>,
    keep: Seq<bool>,
    p: int,
    number: N,
) -> bool {
    let q = last_kept(keep, p);
    let both = q >= 0 && path_commands_of(src[q]) is Some && path_commands_of(src[p]) is Some;
    if keep[p] {
        both ==> paths_compared(
            path_commands_of(src[q])->0,
            path_commands_of(src[p])->0,
            number,
            false,
        )
    } else {
        both && paths_compared(
            path_commands_of(src[q])->0,
            path_commands_of(src[p])->0,
            number,
            true,
        )
    }
}

/// `keep` marks, node by node, which of the sibling nodes `src` stay: of each
/// run of consecutive paths with the same shape as the first of the run, only
/// that first one stays (see `duplicate_decided`).
pub open spec fn duplicate_paths_marked<N: Fn(&String) -> Option<String>>(
    src: Seq<NodeView>,
    keep: Seq<bool>,
    number: N,
) -> bool {
    &&& keep.len() == src.len()
    &&& forall|p: int| 0 <= p < src.len() ==> #[trigger] duplicate_decided(src, keep, p, number)
}

/// The nodes of `src` that `keep` keeps, among its first `keep.len()`, in
/// order.
pub open spec fn kept_nodes(src: Seq<NodeView>, keep: Seq<bool>) -> Seq<NodeView>
    decreases keep.len(),
{
    if keep.len() == 0 {
        Seq::empty()
    } else {
        let rest = kept_nodes(src, keep.drop_last());
        if keep.last() {
            rest.push(src[keep.len() - 1])
        } else {
            rest
        }
    }
}

/// `after` is the node `before` with the path data of every path element in
/// it deduplicated and the duplicate paths among its descendants dropped,
/// and nothing else changed.
pub open spec fn rough_style_removed<N: Fn(&String) -> Option<String>, P: Fn(&String, &String) -> bool>(
    before: NodeView,
    after: NodeView,
    number: N,
    close: P,
) -> bool
    decreases before, 0int,
{
    match before {
        NodeView::Regular { kind, namespace, attributes, children } => {
            &&& after is Regular
            &&& after->kind == kind
            &&& after->namespace == namespace
            &&& if kind is Path {
                path_data_rewritten(attributes, after->attributes, number, close)
            } else {
                after->attributes == attributes
            }
            &&& rough_style_removed_all(children, after->children, number, close)
        },
        NodeView::Childless { .. } => after == before,
    }
}

/// `mid` is `before`, node by node, as `rough_style_removed` relates them.
pub open spec fn each_rough_style_removed<N: Fn(&String) -> Option<String>, P: Fn(&String, &String) -> bool>(
    before: Seq<NodeView>,
    mid: Seq<NodeView>,
    number: N,
    close: P,
) -> bool
    decreases before, 1int,
{
    &&& mid.len() == before.len()
    &&& before.len() > 0 ==> {
        &&& each_rough_style_removed(before.drop_last(), mid.drop_last(), number, close)
        &&& rough_style_removed(before.last(), mid.last(), number, close)
    }
}

/// The sibling nodes `before` become `after` in two steps: each node is
/// rewritten into `mid` (`each_rough_style_removed`), then the duplicate
/// paths among `mid` are dropped as `keep` marks them.
pub open spec fn rough_style_steps<N: Fn(&String) -> Option<String>, P: Fn(&String, &String) -> bool>(
    before: Seq<NodeView>,
    mid: Seq<NodeView>,
    keep: Seq<bool>,
    after: Seq<NodeView>,
    number: N,
    close: P,
) -> bool
    decreases before, 2int,
{
    &&& each_rough_style_removed(before, mid, number, close)
    &&& duplicate_paths_marked(mid, keep, number)
    &&& after == kept_nodes(mid, keep)
}

/// `after` is what removing the rough style makes of the sibling nodes
/// `before`, for some answers of `number` and `close`.
pub open spec fn rough_style_removed_all<N: Fn(&String) -> Option<String>, P: Fn(&String, &String) -> bool>(
    before: Seq<NodeView>,
    after: Seq<NodeView>,
    number: N,
    close: P,
) -> bool
    decreases before, 3int,
{
    exists|mid: Seq<NodeView>, keep: Seq<bool>|
        #![trigger kept_nodes(mid, keep)]
        rough_style_steps(before, mid, keep, after, number, close)
}

/// Deduplicates the value of every `d` attribute.
fn rewrite_path_data<N: Fn(&String) -> Option<String>, P: Fn(&String, &String) -> bool>(
    attributes: Vec<Attribute>,
    number: &N,
    close: &P,
) -> (r: Vec<Attribute>)
    requires
        forall|a: &String| call_requires(*number, (a,)),
        forall|a: &String, b: &String| call_requires(*close, (a, b)),
    ensures
        path_data_rewritten(attributes_view(attributes@), attributes_view(r@), *number, *close),
{
    let ghost before = attributes_view(attributes@);
    let ghost old_attrs = attributes@;
    let mut out: Vec<Attribute> = Vec::new();
    for attribute in it: attributes.into_iter()
        invariant
            it.seq() == old_attrs,
            before == attributes_view(old_attrs),
            forall|a: &String| call_requires(*number, (a,)),
            forall|a: &String, b: &String| call_requires(*close, (a, b)),
            out@.len() == it.index(),
            forall|i: int|
                0 <= i < out@.len() ==> {
                    &&& (#[trigger] out@[i])@.name == before[i].name
                    &&& if before[i].name.local_name == PATH_DATA_NAME@ {
                        is_deduplication(before[i].value, out@[i]@.value, *number, *close)
                    } else {
                        out@[i]@.value == before[i].value
                    }
                },
    {
        let ghost i = it.index() as int;
        assert(before[i] == attribute@);
        let mut attribute = attribute;
        if string_is(&attribute.name.local_name, PATH_DATA_NAME) {
            let value = deduplicate_path_data(attribute.value.as_str(), number, close);
            attribute = Attribute { name: attribute.name, value };
        }
        out.push(attribute);
    }
    proof {
        let after = attributes_view(out@);
        assert forall|i: int| 0 <= i < before.len() implies {
            &&& (#[trigger] after[i]).name == before[i].name
            &&& if before[i].name.local_name == PATH_DATA_NAME@ {
                is_deduplication(before[i].value, after[i].value, *number, *close)
            } else {
                after[i].value == before[i].value
            }
        } by {
            assert(after[i] == out@[i]@);
        }
    }
    out
}

/// Deduplicates the path data of the node, if it is a path, and of every
/// path below it, and drops the duplicate paths among its descendants; never
/// removes the node itself.
pub fn remove_rough_style_from_node<N: Fn(&String) -> Option<String>, P: Fn(&String, &String) -> bool>(
    node: Node,
    number: &N,
    close: &P,
) -> (r: Option<Node>)
    requires
        forall|a: &String| call_requires(*number, (a,)),
        forall|a: &String, b: &String| call_requires(*close, (a, b)),
    ensures
        r matches Some(n) && rough_style_removed(node.view(), n.view(), *number, *close),
    decreases node,
{
    let ghost old_node = node;
    match node {
        Node::RegularNode { node_type, namespace, attributes, children } => {
            proof {
                assert(decreases_to!(old_node => children));
                lemma_children_view(old_node);
            }
            let attributes = if matches!(node_type, RegularNodeType::Path) {
                rewrite_path_data(attributes, number, close)
            } else {
                attributes
            };
            let processed_children = remove_rough_style(children, number, close);
            let r = Node::RegularNode { node_type, namespace, attributes, children: processed_children };
            proof {
                lemma_children_view(r);
            }
            Some(r)
        },
        childless_node => Some(childless_node),
    }
}

/// The commands of the path data of `node`, when it is a path element with a
/// `d` attribute.
fn path_commands(node: &Node) -> (r: Option<Vec<String>>)
    ensures
        match r {
            Some(v) => path_commands_of(node.view()) == Some(strings_view(v@)),
            None => path_commands_of(node.view()) is None,
        },
{
    match node {
        Node::RegularNode { node_type, attributes, .. } => {
            proof {
                lemma_children_view(*node);
            }
            if matches!(node_type, RegularNodeType::Path) {
                match find_attribute(attributes, PATH_DATA_NAME) {
                    Some(a) => regex_find_all(COMMAND_PATTERN, a.value.as_str()),
                    None => None,
                }
            } else {
                None
            }
        },
        Node::ChildlessNode { .. } => None,
    }
}

/// Checks whether two commands have the same shape: the same letter and as
/// many coordinates (see `shape_decided`).
fn same_shape<N: Fn(&String) -> Option<String>>(cmd1: &str, cmd2: &str, number: &N) -> (r: bool)
    requires
        forall|a: &String| call_requires(*number, (a,)),
    ensures
        shape_found(cmd1@, cmd2@, *number, r),
{
    let (letter1, coords1) = parse_coords(cmd1, number);
    let (letter2, coords2) = parse_coords(cmd2, number);
    let r = letter1 == letter2 && coords1.len() == coords2.len();
    assert(shape_decided(cmd1@, cmd2@, coords1@, coords2@, r));
    r
}

/// Whether two paths with the commands `a` and `b` have the same shape: they
/// have equally many commands, and each has the shape of the command at its
/// position in the other.
fn paths_alike<N: Fn(&String) -> Option<String>>(a: &Vec<String>, b: &Vec<String>, number: &N) -> (r:
    bool)
    requires
        forall|x: &String| call_requires(*number, (x,)),
    ensures
        paths_compared(strings_view(a@), strings_view(b@), *number, r),
{
    let ghost sa = strings_view(a@);
    let ghost sb = strings_view(b@);
    if a.len() != b.len() {
        return false;
    }
    for i in 0..a.len()
        invariant
            a.len() == b.len(),
            sa == strings_view(a@),
            sb == strings_view(b@),
            forall|x: &String| call_requires(*number, (x,)),
            forall|k: int| #![trigger sa[k]] 0 <= k < i ==> shape_found(sa[k], sb[k], *number, true),
    {
        assert(sa[i as int] == a@[i as int]@ && sb[i as int] == b@[i as int]@);
        if !same_shape(a[i].as_str(), b[i].as_str(), number) {
            assert(shape_found(sa[i as int], sb[i as int], *number, false));
            return false;
        }
    }
    true
}

/// Marking one more node leaves the last kept node before each earlier
/// position as it was.
proof fn lemma_last_kept_push(keep: Seq<bool>, b: bool, p: int)
    requires
        p <= keep.len(),
    ensures
        last_kept(keep.push(b), p) == last_kept(keep, p),
    decreases p,
{
    if p > 0 {
        assert(keep.push(b)[p - 1] == keep[p - 1]);
        lemma_last_kept_push(keep, b, p - 1);
    }
}

/// `anchor` holds the commands of the last node that `keep` keeps among the
/// first `keep.len()` of `src`, when that node is a path with path data.
spec fn anchor_matches(src: Seq<NodeView>, keep: Seq<bool>, anchor: Option<Vec<String>>) -> bool {
    let q = last_kept(keep, keep.len() as int);
    match anchor {
        Some(v) => q >= 0 && path_commands_of(src[q]) == Some(strings_view(v@)),
        None => q < 0 || path_commands_of(src[q]) is None,
    }
}

/// Drops each path with the same shape as the last node kept before it,
/// itself a path (see `duplicate_paths_marked`).
fn drop_duplicate_paths<N: Fn(&String) -> Option<String>>(nodes: Vec<Node>, number: &N) -> (r: Vec<
    Node,
>)
    requires
        forall|a: &String| call_requires(*number, (a,)),
    ensures
        exists|keep: Seq<bool>|
            duplicate_paths_marked(nodes_view(nodes@), keep, *number) && #[trigger] kept_nodes(
                nodes_view(nodes@),
                keep,
            ) == nodes_view(r@),
{
    let ghost old_nodes = nodes@;
    let ghost src = nodes_view(old_nodes);
    let mut out: Vec<Node> = Vec::new();
    let mut anchor: Option<Vec<String>> = None;
    let ghost mut keep: Seq<bool> = Seq::empty();
    for node in it: nodes.into_iter()
        invariant
            it.seq() == old_nodes,
            src == nodes_view(old_nodes),
            forall|a: &String| call_requires(*number, (a,)),
            keep.len() == it.index(),
            forall|p: int| 0 <= p < keep.len() ==> #[trigger] duplicate_decided(src, keep, p, *number),
            nodes_view(out@) == kept_nodes(src, keep),
            anchor_matches(src, keep, anchor),
    {
        let ghost i = it.index() as int;
        assert(src[i] == node.view());
        let cmds = path_commands(&node);
        let mut duplicate = false;
        if let Some(a) = &anchor {
            if let Some(c) = &cmds {
                duplicate = paths_alike(a, c, number);
            }
        }
        let ghost old_keep = keep;
        let ghost old_anchor = anchor;
        let ghost found = cmds;
        let ghost q = last_kept(old_keep, i);
        proof {
            lemma_last_kept_push(old_keep, duplicate, i);
            lemma_last_kept_push(old_keep, !duplicate, i);
            assert forall|p: int| 0 <= p < i implies last_kept(old_keep.push(!duplicate), p)
                == last_kept(old_keep, p) && old_keep.push(!duplicate)[p] == old_keep[p] by {
                lemma_last_kept_push(old_keep, !duplicate, p);
            }
        }
        if duplicate {
            proof {
                keep = old_keep.push(false);
                let a = old_anchor->0;
                let c = found->0;
                assert(paths_compared(strings_view(a@), strings_view(c@), *number, true));
                assert(duplicate_decided(src, keep, i, *number));
                assert(keep.drop_last() =~= old_keep);
                assert(last_kept(keep, i + 1) == q);
            }
        } else {
            let ghost prev = nodes_view(out@);
            out.push(node);
            anchor = cmds;
            proof {
                keep = old_keep.push(true);
                if q >= 0 && path_commands_of(src[q]) is Some && path_commands_of(src[i]) is Some {
                    let a = old_anchor->0;
                    let c = found->0;
                    assert(paths_compared(strings_view(a@), strings_view(c@), *number, false));
                }
                assert(keep.drop_last() =~= old_keep);
                assert(nodes_view(out@) =~= prev.push(src[i]));
                assert(last_kept(keep, i + 1) == i);
            }
        }
        proof {
            assert forall|p: int| 0 <= p < keep.len() implies #[trigger] duplicate_decided(
                src,
                keep,
                p,
                *number,
            ) by {
                if p < i {
                    assert(duplicate_decided(src, old_keep, p, *number));
                }
            }
        }
    }
    proof {
        assert(duplicate_paths_marked(src, keep, *number));
    }
    out
}

/// Deduplicates the path data of every path element in the nodes, and drops
/// the duplicate paths among siblings (see `rough_style_removed_all`).
pub fn remove_rough_style<N: Fn(&String) -> Option<String>, P: Fn(&String, &String) -> bool>(
    nodes: Vec<Node>,
    number: &N,
    close: &P,
) -> (r: Vec<Node>)
    requires
        forall|a: &String| call_requires(*number, (a,)),
        forall|a: &String, b: &String| call_requires(*close, (a, b)),
    ensures
        rough_style_removed_all(nodes_view(nodes@), nodes_view(r@), *number, *close),
    decreases nodes,
{
    let ghost old_nodes = nodes@;
    let ghost before = nodes_view(old_nodes);
    proof {
        assert(decreases_to!(nodes => nodes@));
    }
    let mut out: Vec<Node> = Vec::new();
    #[verifier::loop_isolation(false)]
    for node in it: nodes.into_iter()
        invariant
            it.seq() == old_nodes,
            out@.len() == it.index(),
            each_rough_style_removed(before.take(it.index() as int), nodes_view(out@), *number, *close),
    {
        let ghost i = it.index() as int;
        proof {
            assert(old_nodes[i] == node);
            assert(decreases_to!(old_nodes => old_nodes[i]));
        }
        let ghost prev = nodes_view(out@);
        if let Some(n) = remove_rough_style_from_node(node, number, close) {
            out.push(n);
            proof {
                assert(before.take(i + 1).drop_last() =~= before.take(i));
                assert(before.take(i + 1).last() == old_nodes[i].view());
                assert(nodes_view(out@).drop_last() =~= prev);
                assert(nodes_view(out@).last() == n.view());
            }
        }
    }
    assert(before.take(before.len() as int) =~= before);
    let ghost mid = nodes_view(out@);
    let r = drop_duplicate_paths(out, number);
    proof {
        let keep = choose|keep: Seq<bool>|
            duplicate_paths_marked(mid, keep, *number) && #[trigger] kept_nodes(mid, keep)
                == nodes_view(r@);
        assert(rough_style_steps(before, mid, keep, nodes_view(r@), *number, *close));
    }
    r
}

} // verus!
