//! From a cell to its artifact: the prompt that a worker gets, the place that
//! the answer lands at, and the code inside a fenced answer.
use vstd::prelude::*;

use crate::interface::{Cell, ContextFragment, WorkUnit};
use crate::sorted::StrMap;
use crate::text::{
    blank, chars_of, cut, end_trimmed, find, find_from, first_stop, is_blank, joined,
    law_a_text_is_cut_at_the_first, law_trimming, law_trimming_the_end, lemma_find,
    lemma_first_stop, occurs_at, safe, safe_name, split_once, text_of, trim, trim_end, trim_start,
    trimmed, white_space,
};

verus! {

// ---------------------------------------------------------------- the prompt

/// The selected fragments that are in the pool, each followed by a blank line.
pub open spec fn context_part(
    pool: Map<Seq<char>, ContextFragment>,
    refs: Seq<String>,
) -> Seq<char>
    decreases refs.len(),
{
    if refs.len() == 0 {
        Seq::empty()
    } else {
        let before = context_part(pool, refs.drop_last());
        if pool.contains_key(refs.last()@) {
            before + pool[refs.last()@].content@ + "\n\n"@
        } else {
            before
        }
    }
}

/// What the prerequisites produced, each under a line that names its cell.
pub open spec fn prerequisite_part(
    produced: Map<Seq<char>, String>,
    deps: Seq<String>,
) -> Seq<char>
    decreases deps.len(),
{
    if deps.len() == 0 {
        Seq::empty()
    } else {
        let before = prerequisite_part(produced, deps.drop_last());
        let dep = deps.last()@;
        if produced.contains_key(dep) {
            before + "--- artifact produced by prerequisite cell `"@ + dep + "` ---\n"@
                + produced[dep]@ + "\n\n"@
        } else {
            before
        }
    }
}

/// The cell's own prompt, or a label where it is blank.
pub open spec fn own_part(unit_ref: Seq<char>, cell: Cell) -> Seq<char> {
    if blank(cell.prompt@) {
        "unit "@ + unit_ref + " cell "@ + cell.cell_id@
    } else {
        cell.prompt@
    }
}

/// The prompt of a cell: its context, then what its prerequisites produced, then
/// its own prompt.
pub open spec fn prompt_text(
    unit: WorkUnit,
    cell: Cell,
    produced: Map<Seq<char>, String>,
) -> Seq<char> {
    context_part(unit.context_pool@, cell.context_refs@) + prerequisite_part(
        produced,
        cell.depends_on@,
    ) + own_part(unit.unit_ref@, cell)
}

/// Assembles the prompt of a cell from its frozen inputs: the selected context
/// fragments, then the artifacts of its prerequisites in this run, then its own
/// prompt.
pub fn build_prompt(unit: &WorkUnit, cell: &Cell, produced_content: &StrMap<String>) -> (s: String)
    ensures
        s@ == prompt_text(*unit, *cell, produced_content@),
{
    let mut s: String = String::new();
    let mut i: usize = 0;
    while i < cell.context_refs.len()
        invariant
            i <= cell.context_refs@.len(),
            s@ == context_part(unit.context_pool@, cell.context_refs@.take(i as int)),
        decreases cell.context_refs@.len() - i,
    {
        let ghost next = cell.context_refs@.take(i + 1);
        assert(next.drop_last() =~= cell.context_refs@.take(i as int));
        if let Some(fragment) = unit.context_pool.get(cell.context_refs[i].as_str()) {
            s.append(fragment.content.as_str());
            s.append("\n\n");
        }
        i += 1;
    }
    assert(cell.context_refs@.take(i as int) =~= cell.context_refs@);
    let ghost context = s@;
    let mut j: usize = 0;
    while j < cell.depends_on.len()
        invariant
            j <= cell.depends_on@.len(),
            s@ == context + prerequisite_part(
                produced_content@,
                cell.depends_on@.take(j as int),
            ),
        decreases cell.depends_on@.len() - j,
    {
        let ghost next = cell.depends_on@.take(j + 1);
        assert(next.drop_last() =~= cell.depends_on@.take(j as int));
        let dep: &str = cell.depends_on[j].as_str();
        if let Some(content) = produced_content.get(dep) {
            s.append("--- artifact produced by prerequisite cell `");
            s.append(dep);
            s.append("` ---\n");
            s.append(content.as_str());
            s.append("\n\n");
        }
        j += 1;
        assert(s@ =~= context + prerequisite_part(produced_content@, next));
    }
    assert(cell.depends_on@.take(j as int) =~= cell.depends_on@);
    let ghost inputs = s@;
    if is_blank(cell.prompt.as_str()) {
        s.append("unit ");
        s.append(unit.unit_ref.as_str());
        s.append(" cell ");
        s.append(cell.cell_id.as_str());
        assert(s@ =~= inputs + own_part(unit.unit_ref@, *cell));
    } else {
        s.append(cell.prompt.as_str());
    }
    s
}

/// A prompt ends in the cell's own prompt, and what a prerequisite produced
/// changes nothing for a cell that does not depend on it.
pub proof fn law_a_prompt_holds_only_what_the_cell_selects(
    unit: WorkUnit,
    cell: Cell,
    produced: Map<Seq<char>, String>,
    id: Seq<char>,
    content: String,
)
    requires
        forall|j: int| 0 <= j < cell.depends_on@.len() ==> (#[trigger] cell.depends_on@[j])@ != id,
    ensures
        prompt_text(unit, cell, produced.insert(id, content)) == prompt_text(unit, cell, produced),
{
    lemma_unselected(produced, cell.depends_on@, id, content);
}

proof fn lemma_unselected(
    produced: Map<Seq<char>, String>,
    deps: Seq<String>,
    id: Seq<char>,
    content: String,
)
    requires
        forall|j: int| 0 <= j < deps.len() ==> (#[trigger] deps[j])@ != id,
    ensures
        prerequisite_part(produced.insert(id, content), deps) == prerequisite_part(produced, deps),
    decreases deps.len(),
{
    if deps.len() > 0 {
        lemma_unselected(produced, deps.drop_last(), id, content);
        assert(deps.last() == deps[deps.len() - 1]);
    }
}

// ----------------------------------------------------------------- the place

/// The artifact id of a cell: what it declares, or its own id.
pub open spec fn artifact_id(cell: Cell) -> Seq<char> {
    match cell.output {
        Some(o) => o.artifact_id@,
        None => cell.cell_id@,
    }
}

/// The path of a cell's artifact: what it declares, or its id with `.out` behind it.
pub open spec fn artifact_path(cell: Cell) -> Seq<char> {
    match cell.output {
        Some(o) => match o.path {
            Some(p) => p@,
            None => cell.cell_id@ + ".out"@,
        },
        None => cell.cell_id@ + ".out"@,
    }
}

/// The artifact id and the workspace-relative path of a cell's output.
pub fn artifact_id_and_path(cell: &Cell) -> (r: (String, String))
    ensures
        r.0@ == artifact_id(*cell),
        r.1@ == artifact_path(*cell),
{
    let mut fallback: String = cell.cell_id.clone();
    fallback.append(".out");
    match &cell.output {
        Some(o) => {
            let path: String = match &o.path {
                Some(p) => p.clone(),
                None => fallback,
            };
            (o.artifact_id.clone(), path)
        },
        None => (cell.cell_id.clone(), fallback),
    }
}

/// How deep one part of a path leads on from a depth; nowhere if it climbs above
/// the directory that depths are counted from.
pub open spec fn part_depth(from: nat, part: Seq<char>) -> Option<nat> {
    if part.len() == 0 || part == seq!['.'] {
        Some(from)
    } else if part != seq!['.', '.'] {
        Some(from + 1)
    } else if from > 0 {
        Some((from - 1) as nat)
    } else {
        None
    }
}

/// How deep a path leads on from a depth, part by part; nowhere if it climbs above
/// the directory that depths are counted from, be it only on the way.
pub open spec fn path_depth(from: nat, path: Seq<char>) -> Option<nat>
    decreases path.len(),
{
    let end = first_stop(path, '/', '/');
    if 0 <= end < path.len() {
        match part_depth(from, path.take(end)) {
            Some(depth) => path_depth(depth, path.skip(end + 1)),
            None => None,
        }
    } else {
        part_depth(from, path)
    }
}

/// Whether a path names a place inside the directory it is taken from: it is
/// relative, it never climbs above that directory, and it does not end at it.
pub open spec fn stays_inside(path: Seq<char>) -> bool {
    &&& path.len() > 0
    &&& path[0] != '/'
    &&& path_depth(0, path) matches Some(depth) && depth > 0
}

/// Where in the workspace an artifact lands: at its path where that stays inside;
/// any other path is made the name of one file.
pub open spec fn landing(path: Seq<char>) -> Seq<char> {
    if stays_inside(path) {
        path
    } else if path.len() > 0 {
        safe_name(path)
    } else {
        seq!['_']
    }
}

/// How deep the path from `start` on leads from a depth.
fn depth_of(v: &Vec<char>, start: usize, from: usize) -> (r: Option<usize>)
    requires
        from <= start <= v@.len(),
    ensures
        match r {
            Some(depth) => path_depth(from as nat, v@.skip(start as int)) == Some(depth as nat),
            None => path_depth(from as nat, v@.skip(start as int)) is None,
        },
    decreases v@.len() - start,
{
    let n: usize = v.len();
    let mut end: usize = start;
    while end < n && v[end] != '/'
        invariant
            n == v@.len(),
            start <= end <= n,
            forall|k: int| start <= k < end ==> (#[trigger] v@[k]) != '/',
        decreases n - end,
    {
        end += 1;
    }
    let ghost path = v@.skip(start as int);
    let ghost part = path.take(end - start);
    proof {
        lemma_first_stop(path, '/', '/');
        let stop = first_stop(path, '/', '/');
        if stop < end - start {
            assert(path[stop] == v@[start + stop]);
        } else if stop > end - start {
            assert(path[end - start] == v@[end as int]);
        }
        assert(stop == end - start);
        if end == n {
            assert(part =~= path);
        }
    }
    let len: usize = end - start;
    let stays: bool = len == 0 || (len == 1 && v[start] == '.');
    let climbs: bool = len == 2 && v[start] == '.' && v[start + 1] == '.';
    proof {
        assert(part.len() == len);
        assert(part == seq!['.'] <==> len == 1 && v@[start as int] == '.') by {
            if len == 1 && v@[start as int] == '.' {
                assert(part =~= seq!['.']);
            }
            if part == seq!['.'] {
                assert(part[0] == '.');
            }
        }
        assert(part == seq!['.', '.'] <==> climbs) by {
            if climbs {
                assert(part =~= seq!['.', '.']);
            }
            if part == seq!['.', '.'] {
                assert(part[0] == '.' && part[1] == '.');
            }
        }
    }
    if climbs && from == 0 {
        return None;
    }
    let depth: usize = if stays {
        from
    } else if climbs {
        from - 1
    } else {
        from + 1
    };
    assert(part_depth(from as nat, part) == Some(depth as nat));
    if end < n {
        assert(path.skip(len + 1) =~= v@.skip(end + 1));
        depth_of(v, end + 1, depth)
    } else {
        Some(depth)
    }
}

fn is_inside(path: &str) -> (r: bool)
    ensures
        r == stays_inside(path@),
{
    let v: Vec<char> = chars_of(path);
    if v.len() == 0 || v[0] == '/' {
        return false;
    }
    assert(v@.skip(0) =~= path@);
    match depth_of(&v, 0, 0) {
        Some(depth) => depth > 0,
        None => false,
    }
}

/// Where in the workspace an artifact with this path lands.
pub fn landing_path(path: &str) -> (r: String)
    ensures
        r@ == landing(path@),
{
    if is_inside(path) {
        return path.to_owned();
    }
    let mut r: String = safe(path);
    if chars_of(path).len() == 0 {
        assert(r@ =~= Seq::empty());
        r.push('_');
        assert(r@ =~= seq!['_']);
    }
    r
}

/// An artifact lands inside the workspace, whatever path its cell declares.
pub proof fn law_an_artifact_lands_inside(path: Seq<char>)
    ensures
        stays_inside(landing(path)),
{
    if !stays_inside(path) {
        let name = landing(path);
        lemma_first_stop(name, '/', '/');
        assert forall|i: int| 0 <= i < name.len() implies name[i] != '/' && name[i] != '.' by {}
        assert(seq!['.'][0] == '.');
        assert(seq!['.', '.'][0] == '.');
        assert(part_depth(0, name) == Some(1nat));
    }
}

// ---------------------------------------------------------------- the fences

/// What follows the line that opens a fence; the rest of the text where that
/// line does not end.
pub open spec fn after_opening(s: Seq<char>) -> Seq<char> {
    match cut(s, '\n') {
        Some(parts) => parts.1,
        None => s,
    }
}

/// What stands before the closing fence, or all of the text without one; in
/// either case without trailing white space.
pub open spec fn before_closing(s: Seq<char>) -> Seq<char> {
    match find(s, "```"@, 0) {
        Some(end) => trim_end(s.take(end)),
        None => trim_end(s),
    }
}

/// The code of an answer: the body of its first fenced block, or the whole
/// answer where there is none.
pub open spec fn code_of(s: Seq<char>) -> Seq<char> {
    match find(trim(s), "```"@, 0) {
        Some(start) => before_closing(after_opening(trim(s).skip(start + 3))),
        None => s,
    }
}

fn cut_at_fence(s: &str) -> (r: Option<(String, String)>)
    ensures
        match r {
            Some(parts) => find(s@, "```"@, 0) matches Some(i) && 0 <= i && i + 3 <= s@.len()
                && parts.0@ == s@.take(i) && parts.1@ == s@.skip(i + 3),
            None => find(s@, "```"@, 0) is None,
        },
{
    let v: Vec<char> = chars_of(s);
    let fence: Vec<char> = chars_of("```");
    proof {
        reveal_strlit("```");
        lemma_find(s@, "```"@, 0);
    }
    match find_from(&v, &fence, 0) {
        Some(i) => {
            let len: usize = v.len();
            assert(s@.take(i as int) =~= v@.subrange(0, i as int));
            assert(s@.skip(i + 3) =~= v@.subrange(i + 3, len as int));
            Some((text_of(&v, 0, i), text_of(&v, i + 3, len)))
        },
        None => None,
    }
}

/// Extracts the code from an answer: the body of a fenced block if there is one,
/// else the text unchanged.
pub fn strip_code_fences(s: &str) -> (r: String)
    ensures
        r@ == code_of(s@),
{
    let t: String = trimmed(s);
    match cut_at_fence(t.as_str()) {
        Some(parts) => {
            let body: String = match split_once(parts.1.as_str(), '\n') {
                Some(lines) => lines.1,
                None => parts.1,
            };
            match cut_at_fence(body.as_str()) {
                Some(block) => end_trimmed(block.0.as_str()),
                None => end_trimmed(body.as_str()),
            }
        },
        None => s.to_owned(),
    }
}

proof fn lemma_trim_start_range(s: Seq<char>) -> (a: int)
    ensures
        0 <= a <= s.len(),
        trim_start(s) == s.skip(a),
        forall|i: int| 0 <= i < a ==> white_space(#[trigger] s[i]),
    decreases s.len(),
{
    if s.len() > 0 && white_space(s[0]) {
        let rest = s.drop_first();
        let b = lemma_trim_start_range(rest);
        assert(rest.skip(b) =~= s.skip(b + 1));
        assert forall|i: int| 0 <= i < b + 1 implies white_space(#[trigger] s[i]) by {
            if i > 0 {
                assert(rest[i - 1] == s[i]);
            }
        }
        b + 1
    } else {
        assert(s.skip(0) =~= s);
        0
    }
}

proof fn lemma_trim_end_range(s: Seq<char>) -> (b: int)
    ensures
        0 <= b <= s.len(),
        trim_end(s) == s.take(b),
        forall|i: int| b <= i < s.len() ==> white_space(#[trigger] s[i]),
    decreases s.len(),
{
    if s.len() > 0 && white_space(s.last()) {
        let rest = s.drop_last();
        let b = lemma_trim_end_range(rest);
        assert(rest.take(b) =~= s.take(b));
        assert forall|i: int| b <= i < s.len() implies white_space(#[trigger] s[i]) by {
            if i < rest.len() {
                assert(rest[i] == s[i]);
            }
        }
        b
    } else {
        assert(s.take(s.len() as int) =~= s);
        s.len() as int
    }
}

/// A text without a fence has none once it is trimmed, and a trimmed text with a
/// fence had it before.
proof fn lemma_fence_survives_trimming(s: Seq<char>)
    ensures
        find(trim(s), "```"@, 0) is None ==> find(s, "```"@, 0) is None,
{
    reveal_strlit("```");
    let f = "```"@;
    let a = lemma_trim_start_range(s);
    let t = trim_start(s);
    let b = lemma_trim_end_range(t);
    lemma_find(s, f, 0);
    lemma_find(trim(s), f, 0);
    if find(s, f, 0) is Some {
        let i = find(s, f, 0)->0;
        let here = s.subrange(i, i + 3);
        assert(here == f);
        assert(here[0] == '`' && here[1] == '`' && here[2] == '`');
        assert(!white_space(s[i]) && !white_space(s[i + 1]) && !white_space(s[i + 2]));
        assert(i >= a);
        assert(t[i - a] == s[i] && t[i - a + 1] == s[i + 1] && t[i - a + 2] == s[i + 2]);
        assert(i - a + 2 < b);
        assert(trim(s).subrange(i - a, i - a + 3) =~= f);
        assert(occurs_at(trim(s), f, i - a));
    }
}

proof fn lemma_no_fence_in_prefix(s: Seq<char>, n: int)
    requires
        0 <= n <= s.len(),
        find(s, "```"@, 0) is None || find(s, "```"@, 0)->0 >= n,
    ensures
        find(s.take(n), "```"@, 0) is None,
{
    reveal_strlit("```");
    let f = "```"@;
    lemma_find(s, f, 0);
    lemma_find(s.take(n), f, 0);
    if find(s.take(n), f, 0) is Some {
        let i = find(s.take(n), f, 0)->0;
        assert(s.take(n).subrange(i, i + 3) =~= s.subrange(i, i + 3));
        assert(occurs_at(s, f, i));
    }
}

/// The extracted code holds no fence, so extracting it again changes nothing.
pub proof fn law_extracted_code_holds_no_fence(s: Seq<char>)
    ensures
        find(code_of(s), "```"@, 0) is None,
        code_of(code_of(s)) == code_of(s),
{
    let t = trim(s);
    let code = code_of(s);
    match find(t, "```"@, 0) {
        Some(start) => {
            let body = after_opening(t.skip(start + 3));
            lemma_find(body, "```"@, 0);
            match find(body, "```"@, 0) {
                Some(end) => {
                    lemma_no_fence_in_prefix(body, end);
                    let b = lemma_trim_end_range(body.take(end));
                    lemma_no_fence_in_prefix(body.take(end), b);
                },
                None => {
                    let b = lemma_trim_end_range(body);
                    lemma_no_fence_in_prefix(body, b);
                },
            }
        },
        None => {
            lemma_fence_survives_trimming(s);
        },
    }
    lemma_trimming_adds_no_fence(code);
}

proof fn lemma_trimming_adds_no_fence(s: Seq<char>)
    requires
        find(s, "```"@, 0) is None,
    ensures
        find(trim(s), "```"@, 0) is None,
{
    reveal_strlit("```");
    let f = "```"@;
    let a = lemma_trim_start_range(s);
    let t = trim_start(s);
    let b = lemma_trim_end_range(t);
    lemma_find(s, f, 0);
    lemma_find(trim(s), f, 0);
    if find(trim(s), f, 0) is Some {
        let i = find(trim(s), f, 0)->0;
        assert(trim(s).subrange(i, i + 3) =~= s.subrange(a + i, a + i + 3));
        assert(occurs_at(s, f, a + i));
    }
}

// ------------------------------------------------------- laws of the fences

/// A text in which no three backticks stand together.
pub open spec fn fenceless(s: Seq<char>) -> bool {
    forall|i: int|
        0 <= i < s.len() - 2 ==> !((#[trigger] s[i]) == '`' && s[i + 1] == '`' && s[i + 2] == '`')
}

/// Three backticks.
pub open spec fn fence() -> Seq<char> {
    seq!['`', '`', '`']
}

proof fn lemma_fence_text()
    ensures
        "```"@ == fence(),
{
    reveal_strlit("```");
    assert("```"@ =~= fence());
}

/// A search finds the fence at the first place where three backticks stand.
proof fn lemma_first_fence(s: Seq<char>, at: int)
    requires
        0 <= at,
        at + 3 <= s.len(),
        s[at] == '`' && s[at + 1] == '`' && s[at + 2] == '`',
        forall|i: int|
            0 <= i < at ==> !((#[trigger] s[i]) == '`' && s[i + 1] == '`' && s[i + 2] == '`'),
    ensures
        find(s, "```"@, 0) == Some(at),
{
    lemma_fence_text();
    lemma_find(s, fence(), 0);
    assert(s.subrange(at, at + 3) =~= fence());
    assert(occurs_at(s, fence(), at));
    let i = find(s, fence(), 0)->0;
    let here = s.subrange(i, i + 3);
    assert(here[0] == s[i] && here[1] == s[i + 1] && here[2] == s[i + 2]);
}

proof fn lemma_fenceless(s: Seq<char>)
    requires
        fenceless(s),
    ensures
        find(s, "```"@, 0) is None,
{
    lemma_fence_text();
    lemma_find(s, fence(), 0);
    if find(s, fence(), 0) is Some {
        let i = find(s, fence(), 0)->0;
        let here = s.subrange(i, i + 3);
        assert(here[0] == s[i] && here[1] == s[i + 1] && here[2] == s[i + 2]);
    }
}

/// What follows the first fence of an answer, once the answer is trimmed: no more
/// is lost than white space at its end.
proof fn lemma_after_first_fence(before: Seq<char>, rest: Seq<char>) -> (kept: Seq<char>)
    requires
        fenceless(before + seq!['`', '`']),
    ensures
        ({
            let answer = before + fence() + rest;
            &&& kept.len() <= rest.len()
            &&& kept == rest.take(kept.len() as int)
            &&& forall|i: int| kept.len() <= i < rest.len() ==> white_space(#[trigger] rest[i])
            &&& code_of(answer) == before_closing(after_opening(kept))
        }),
{
    let answer = before + fence() + rest;
    let n = before.len() as int;
    let (a, b) = law_trimming(answer);
    let t = trim(answer);
    assert(answer[n] == '`' && answer[n + 1] == '`' && answer[n + 2] == '`');
    assert(a <= n) by {
        if a > n {
            assert(white_space(answer[n]));
        }
    }
    assert(n + 3 <= b) by {
        if b < n + 3 {
            assert(white_space(answer[n + 2]));
        }
    }
    assert forall|i: int| 0 <= i < n - a implies !((#[trigger] t[i]) == '`' && t[i + 1] == '`' && t[i
        + 2] == '`') by {
        let x = before + seq!['`', '`'];
        assert(t[i] == answer[a + i] && t[i + 1] == answer[a + i + 1] && t[i + 2] == answer[a + i
            + 2]);
        assert(x[a + i] == answer[a + i] && x[a + i + 1] == answer[a + i + 1] && x[a + i + 2]
            == answer[a + i + 2]);
    }
    lemma_first_fence(t, n - a);
    let kept = rest.take(b - n - 3);
    assert(t.skip(n - a + 3) =~= kept);
    assert forall|i: int| kept.len() <= i < rest.len() implies white_space(#[trigger] rest[i]) by {
        assert(answer[n + 3 + i] == rest[i]);
    }
    kept
}

proof fn lemma_ends_in_ink(body: Seq<char>, space: Seq<char>)
    requires
        body.len() == 0 || !white_space(body.last()),
        forall|i: int| 0 <= i < space.len() ==> white_space(#[trigger] space[i]),
    ensures
        trim_end(body + space) == body,
{
    let s = body + space;
    let b = law_trimming_the_end(s);
    if b > body.len() {
        assert(s[b - 1] == space[b - 1 - body.len()]);
    } else if b < body.len() {
        assert(s[body.len() - 1] == body.last());
    }
    assert(s.take(b) =~= body);
}

/// A fenced block is extracted whole: of an answer that opens a fence, goes on
/// behind the line that opens it, and closes the fence, the code is all that stands
/// between but for white space at its end, whatever is said before and after.
pub proof fn law_a_fenced_block_is_extracted_whole(
    before: Seq<char>,
    opening: Seq<char>,
    code: Seq<char>,
    space: Seq<char>,
    after: Seq<char>,
)
    requires
        fenceless(before + seq!['`', '`']),
        !opening.contains('\n'),
        fenceless(code + space + seq!['`', '`']),
        code.len() == 0 || !white_space(code.last()),
        forall|i: int| 0 <= i < space.len() ==> white_space(#[trigger] space[i]),
    ensures
        code_of(before + fence() + (opening + seq!['\n'] + (code + space + fence() + after)))
            == code,
{
    let body = code + space;
    let tail = body + fence() + after;
    let rest = opening + seq!['\n'] + tail;
    let kept = lemma_after_first_fence(before, rest);
    let m = opening.len() as int + 1;
    let at = body.len() as int;
    assert(tail[at] == '`' && tail[at + 1] == '`' && tail[at + 2] == '`');
    assert(kept.len() >= m + at + 3) by {
        if kept.len() < m + at + 3 {
            assert(rest[m + at + 2] == tail[at + 2]);
            assert(white_space(rest[m + at + 2]));
        }
    }
    let inner = tail.take(kept.len() - m);
    assert(kept =~= opening + seq!['\n'] + inner);
    law_a_text_is_cut_at_the_first(opening, '\n', inner);
    assert(inner.take(at) =~= body);
    lemma_fence_after_body(body, inner);
    lemma_ends_in_ink(code, space);
}

/// Behind a body in which no fence begins, the next fence is the first.
proof fn lemma_fence_after_body(body: Seq<char>, inner: Seq<char>)
    requires
        fenceless(body + seq!['`', '`']),
        inner.len() >= body.len() + 3,
        inner.take(body.len() as int) == body,
        inner[body.len() as int] == '`',
        inner[body.len() as int + 1] == '`',
        inner[body.len() as int + 2] == '`',
    ensures
        find(inner, "```"@, 0) == Some(body.len() as int),
{
    let n = body.len() as int;
    let x = body + seq!['`', '`'];
    assert forall|i: int| 0 <= i < n implies #[trigger] inner[i] == body[i] by {
        assert(inner.take(n)[i] == inner[i]);
    }
    assert forall|i: int| 0 <= i < n + 2 implies #[trigger] x[i] == inner[i] by {
        if i < n {
            assert(inner[i] == body[i]);
        }
    }
    assert forall|i: int| 0 <= i < n implies !((#[trigger] inner[i]) == '`' && inner[i + 1] == '`'
        && inner[i + 2] == '`') by {
        assert(x[i] == inner[i] && x[i + 1] == inner[i + 1] && x[i + 2] == inner[i + 2]);
    }
    lemma_first_fence(inner, n);
}

/// A fence that is never closed opens a block that goes on to the end.
pub proof fn law_an_open_fence_reaches_to_the_end(
    before: Seq<char>,
    opening: Seq<char>,
    code: Seq<char>,
    space: Seq<char>,
)
    requires
        fenceless(before + seq!['`', '`']),
        !opening.contains('\n'),
        fenceless(code),
        code.len() > 0,
        !white_space(code.last()),
        forall|i: int| 0 <= i < space.len() ==> white_space(#[trigger] space[i]),
    ensures
        code_of(before + fence() + (opening + seq!['\n'] + (code + space))) == code,
{
    let rest = opening + seq!['\n'] + (code + space);
    let kept = lemma_after_first_fence(before, rest);
    let n = opening.len() as int + 1 + code.len();
    assert(kept.len() >= n) by {
        if kept.len() < n {
            assert(rest[n - 1] == code.last());
            assert(white_space(rest[n - 1]));
        }
    }
    let left = space.take(kept.len() - n);
    let body = code + left;
    assert(kept =~= opening + seq!['\n'] + body);
    law_a_text_is_cut_at_the_first(opening, '\n', body);
    assert(fenceless(body)) by {
        assert forall|i: int| 0 <= i < body.len() - 2 implies !((#[trigger] body[i]) == '`' && body[i
            + 1] == '`' && body[i + 2] == '`') by {
            if i + 2 >= code.len() {
                assert(body[i + 2] == space[i + 2 - code.len()]);
                assert(white_space(space[i + 2 - code.len()]));
            } else {
                assert(code[i] == body[i] && code[i + 1] == body[i + 1] && code[i + 2] == body[i
                    + 2]);
            }
        }
    }
    lemma_fenceless(body);
    lemma_ends_in_ink(code, left);
}

/// Code that is fenced within one line is what stands between the fences, or
/// behind the one fence, but for white space at its end.
pub proof fn law_code_may_be_fenced_within_a_line(
    before: Seq<char>,
    code: Seq<char>,
    space: Seq<char>,
    after: Seq<char>,
)
    requires
        fenceless(before + seq!['`', '`']),
        !(code + space).contains('\n'),
        !after.contains('\n'),
        fenceless(code + space + seq!['`', '`']),
        code.len() == 0 || !white_space(code.last()),
        forall|i: int| 0 <= i < space.len() ==> white_space(#[trigger] space[i]),
    ensures
        code_of(before + fence() + (code + space + fence() + after)) == code,
        code_of(before + fence() + (code + space)) == code,
{
    let body = code + space;
    let rest = body + fence() + after;
    let kept = lemma_after_first_fence(before, rest);
    let n = body.len() as int;
    assert(rest[n] == '`' && rest[n + 1] == '`' && rest[n + 2] == '`');
    assert(kept.len() >= n + 3) by {
        if kept.len() < n + 3 {
            assert(white_space(rest[n + 2]));
        }
    }
    assert(!kept.contains('\n')) by {
        if kept.contains('\n') {
            let k = choose|k: int| 0 <= k < kept.len() && kept[k] == '\n';
            assert(rest[k] == '\n');
            if k < n {
                assert(body.contains(body[k]));
            } else if k >= n + 3 {
                assert(after.contains(after[k - n - 3]));
            }
        }
    }
    law_a_text_is_cut_at_the_first(kept, '\n', Seq::empty());
    assert(kept.take(n) =~= body);
    lemma_fence_after_body(body, kept);
    lemma_ends_in_ink(code, space);
    lemma_open_line(before, code, space);
}

proof fn lemma_open_line(before: Seq<char>, code: Seq<char>, space: Seq<char>)
    requires
        fenceless(before + seq!['`', '`']),
        !(code + space).contains('\n'),
        fenceless(code + space + seq!['`', '`']),
        code.len() == 0 || !white_space(code.last()),
        forall|i: int| 0 <= i < space.len() ==> white_space(#[trigger] space[i]),
    ensures
        code_of(before + fence() + (code + space)) == code,
{
    let body = code + space;
    let alone = lemma_after_first_fence(before, body);
    assert(alone.len() >= code.len()) by {
        if alone.len() < code.len() {
            assert(body[code.len() - 1] == code.last());
            assert(white_space(body[code.len() - 1]));
        }
    }
    let left = space.take(alone.len() - code.len());
    assert(alone =~= code + left);
    assert(!alone.contains('\n')) by {
        if alone.contains('\n') {
            let k = choose|k: int| 0 <= k < alone.len() && alone[k] == '\n';
            assert(body[k] == '\n');
            assert(body.contains(body[k]));
        }
    }
    law_a_text_is_cut_at_the_first(alone, '\n', Seq::empty());
    assert(fenceless(alone)) by {
        let x = body + seq!['`', '`'];
        assert forall|i: int| 0 <= i < alone.len() - 2 implies !((#[trigger] alone[i]) == '`'
            && alone[i + 1] == '`' && alone[i + 2] == '`') by {
            assert(x[i] == alone[i] && x[i + 1] == alone[i + 1] && x[i + 2] == alone[i + 2]);
        }
    }
    lemma_fenceless(alone);
    lemma_ends_in_ink(code, left);
}

/// A fence that opens a line with nothing but white space behind that line opens no
/// block: what stands in the line is taken.
pub proof fn law_a_line_with_nothing_behind_it_is_taken(
    before: Seq<char>,
    code: Seq<char>,
    space: Seq<char>,
)
    requires
        fenceless(before + seq!['`', '`']),
        !code.contains('\n'),
        fenceless(code),
        code.len() > 0,
        !white_space(code.last()),
        forall|i: int| 0 <= i < space.len() ==> white_space(#[trigger] space[i]),
    ensures
        code_of(before + fence() + (code + space)) == code,
{
    let body = code + space;
    let n = before.len() as int;
    let answer = before + fence() + body;
    let (a, b) = law_trimming(answer);
    let end = n + 3 + code.len();
    assert(answer[end - 1] == code.last());
    assert(b >= end) by {
        if b < end {
            assert(white_space(answer[end - 1]));
        }
    }
    assert(b <= end) by {
        if b > end {
            assert(a < b) by {
                if a >= b {
                    assert(answer[n] == '`');
                    assert(white_space(answer[n]));
                }
            }
            assert(answer[b - 1] == space[b - 1 - end]);
        }
    }
    let short = before + fence() + code;
    let (c, d) = law_trimming(short);
    assert(short[n] == '`');
    assert(short[end - 1] == code.last());
    assert(d == end) by {
        if d < end {
            assert(white_space(short[end - 1]));
        }
    }
    assert(a == c) by {
        if a < c {
            assert(answer[a] == short[a]);
            assert(white_space(short[a]));
            if a >= b {
                assert(white_space(answer[n]));
            }
        } else if c < a {
            assert(answer[c] == short[c]);
            assert(white_space(answer[c]));
            if c >= d {
                assert(white_space(short[n]));
            }
        }
    }
    assert(trim(answer) =~= trim(short));
    assert(find(trim(short), "```"@, 0) is Some) by {
        lemma_fence_survives_trimming(short);
        lemma_fence_text();
        lemma_find(short, fence(), 0);
        assert(short.subrange(n, n + 3) =~= fence());
        assert(occurs_at(short, fence(), n));
    }
    let kept = lemma_after_first_fence(before, code);
    assert(kept.len() == code.len()) by {
        if kept.len() < code.len() {
            assert(white_space(code[code.len() - 1]));
        }
    }
    assert(kept =~= code);
    law_a_text_is_cut_at_the_first(code, '\n', Seq::empty());
    lemma_fenceless(code);
    lemma_ends_in_ink(code, Seq::empty());
    assert(code + Seq::empty() =~= code);
}

/// An answer without a fence is taken as it is, white space and all.
pub proof fn law_an_answer_without_a_fence_is_kept(s: Seq<char>)
    requires
        fenceless(s),
    ensures
        code_of(s) == s,
{
    lemma_fenceless(s);
    lemma_trimming_adds_no_fence(s);
}

// ------------------------------------------------------- laws of the prompt

/// What a context reference adds to a prompt: the content of the fragment that it
/// names and a blank line, or nothing.
pub open spec fn fragment_block(unit: WorkUnit, reference: Seq<char>) -> Seq<char> {
    if unit.context_pool@.contains_key(reference) {
        unit.context_pool@[reference].content@ + "\n\n"@
    } else {
        Seq::empty()
    }
}

/// What a dependency adds to a prompt: a line that names it, what it produced and a
/// blank line, or nothing.
pub open spec fn artifact_block(produced: Map<Seq<char>, String>, dep: Seq<char>) -> Seq<char> {
    if produced.contains_key(dep) {
        "--- artifact produced by prerequisite cell `"@ + dep + "` ---\n"@ + produced[dep]@
            + "\n\n"@
    } else {
        Seq::empty()
    }
}

/// The blocks of a prompt: one for each context reference, then one for each
/// dependency, in the order in which the cell names them.
pub open spec fn prompt_blocks(
    unit: WorkUnit,
    cell: Cell,
    produced: Map<Seq<char>, String>,
) -> Seq<Seq<char>> {
    Seq::new(
        cell.context_refs@.len(),
        |i: int| fragment_block(unit, cell.context_refs@[i]@),
    ) + Seq::new(cell.depends_on@.len(), |j: int| artifact_block(produced, cell.depends_on@[j]@))
}

proof fn lemma_context_blocks(unit: WorkUnit, refs: Seq<String>)
    ensures
        context_part(unit.context_pool@, refs) == Seq::new(
            refs.len(),
            |i: int| fragment_block(unit, refs[i]@),
        ).flatten(),
    decreases refs.len(),
{
    let blocks = Seq::new(refs.len(), |i: int| fragment_block(unit, refs[i]@));
    if refs.len() > 0 {
        let rest = refs.drop_last();
        lemma_context_blocks(unit, rest);
        let before = Seq::new(rest.len(), |i: int| fragment_block(unit, rest[i]@));
        let last = fragment_block(unit, refs.last()@);
        assert(blocks =~= before.push(last));
        before.lemma_flatten_push(last);
        assert(context_part(unit.context_pool@, refs) =~= before.flatten() + last);
    }
}

proof fn lemma_artifact_blocks(produced: Map<Seq<char>, String>, deps: Seq<String>)
    ensures
        prerequisite_part(produced, deps) == Seq::new(
            deps.len(),
            |j: int| artifact_block(produced, deps[j]@),
        ).flatten(),
    decreases deps.len(),
{
    let blocks = Seq::new(deps.len(), |j: int| artifact_block(produced, deps[j]@));
    if deps.len() > 0 {
        let rest = deps.drop_last();
        lemma_artifact_blocks(produced, rest);
        let before = Seq::new(rest.len(), |j: int| artifact_block(produced, rest[j]@));
        let last = artifact_block(produced, deps.last()@);
        assert(blocks =~= before.push(last));
        before.lemma_flatten_push(last);
        assert(prerequisite_part(produced, deps) =~= before.flatten() + last);
    }
}

/// A prompt is its blocks one behind the other and then the cell's own prompt, or,
/// where that is blank, a label: nothing is left out and nothing is added.
pub proof fn law_a_prompt_is_its_blocks_and_the_cells_own_prompt(
    unit: WorkUnit,
    cell: Cell,
    produced: Map<Seq<char>, String>,
)
    ensures
        (exists|i: int| 0 <= i < cell.prompt@.len() && !white_space(#[trigger] cell.prompt@[i]))
            ==> prompt_text(unit, cell, produced) == prompt_blocks(unit, cell, produced).flatten()
            + cell.prompt@,
        (forall|i: int| 0 <= i < cell.prompt@.len() ==> white_space(#[trigger] cell.prompt@[i]))
            ==> prompt_text(unit, cell, produced) == prompt_blocks(unit, cell, produced).flatten()
            + ("unit "@ + unit.unit_ref@ + " cell "@ + cell.cell_id@),
{
    lemma_prompt_blocks(unit, cell, produced);
}

proof fn lemma_prompt_blocks(unit: WorkUnit, cell: Cell, produced: Map<Seq<char>, String>)
    ensures
        prompt_text(unit, cell, produced) == prompt_blocks(unit, cell, produced).flatten()
            + own_part(unit.unit_ref@, cell),
{
    let a = Seq::new(
        cell.context_refs@.len(),
        |i: int| fragment_block(unit, cell.context_refs@[i]@),
    );
    let b = Seq::new(
        cell.depends_on@.len(),
        |j: int| artifact_block(produced, cell.depends_on@[j]@),
    );
    lemma_context_blocks(unit, cell.context_refs@);
    lemma_artifact_blocks(produced, cell.depends_on@);
    vstd::seq_lib::lemma_flatten_concat(a, b);
}

proof fn lemma_two_blocks(blocks: Seq<Seq<char>>, i: int, k: int)
    requires
        0 <= i < k < blocks.len(),
    ensures
        blocks.flatten() == blocks.take(i).flatten() + blocks[i] + blocks.subrange(
            i + 1,
            k,
        ).flatten() + blocks[k] + blocks.skip(k + 1).flatten(),
{
    let x = blocks.take(i);
    let y = blocks.subrange(i + 1, k);
    let z = blocks.skip(k + 1);
    assert(blocks =~= x.push(blocks[i]) + (y.push(blocks[k]) + z));
    vstd::seq_lib::lemma_flatten_concat(x.push(blocks[i]), y.push(blocks[k]) + z);
    vstd::seq_lib::lemma_flatten_concat(y.push(blocks[k]), z);
    x.lemma_flatten_push(blocks[i]);
    y.lemma_flatten_push(blocks[k]);
    assert(blocks.flatten() =~= x.flatten() + blocks[i] + y.flatten() + blocks[k] + z.flatten());
}

proof fn lemma_one_block(blocks: Seq<Seq<char>>, i: int)
    requires
        0 <= i < blocks.len(),
    ensures
        blocks.flatten() == blocks.take(i).flatten() + blocks[i] + blocks.skip(i + 1).flatten(),
{
    let x = blocks.take(i);
    let z = blocks.skip(i + 1);
    assert(blocks =~= x.push(blocks[i]) + z);
    vstd::seq_lib::lemma_flatten_concat(x.push(blocks[i]), z);
    x.lemma_flatten_push(blocks[i]);
}

/// What each prerequisite produced reaches the worker, under a line that names the
/// prerequisite, before the cell's own prompt.
pub proof fn law_every_artifact_of_a_prerequisite_reaches_the_worker(
    unit: WorkUnit,
    cell: Cell,
    produced: Map<Seq<char>, String>,
    j: int,
)
    requires
        0 <= j < cell.depends_on@.len(),
        produced.contains_key(cell.depends_on@[j]@),
    ensures
        exists|before: Seq<char>, after: Seq<char>|
            prompt_text(unit, cell, produced) == #[trigger] (before + (
            "--- artifact produced by prerequisite cell `"@ + cell.depends_on@[j]@ + "` ---\n"@
                + produced[cell.depends_on@[j]@]@ + "\n\n"@) + after),
{
    let blocks = prompt_blocks(unit, cell, produced);
    let at = cell.context_refs@.len() as int + j;
    lemma_prompt_blocks(unit, cell, produced);
    lemma_one_block(blocks, at);
    let block = artifact_block(produced, cell.depends_on@[j]@);
    assert(blocks[at] == block);
    let after = blocks.skip(at + 1).flatten() + own_part(unit.unit_ref@, cell);
    assert(prompt_text(unit, cell, produced) =~= blocks.take(at).flatten() + block + after);
}

/// What the prerequisites produced stands in the order in which the cell names them.
pub proof fn law_artifacts_stand_in_the_order_of_the_dependencies(
    unit: WorkUnit,
    cell: Cell,
    produced: Map<Seq<char>, String>,
    j: int,
    k: int,
)
    requires
        0 <= j < k < cell.depends_on@.len(),
    ensures
        exists|before: Seq<char>, between: Seq<char>, after: Seq<char>|
            prompt_text(unit, cell, produced) == #[trigger] (before + artifact_block(
                produced,
                cell.depends_on@[j]@,
            ) + between + artifact_block(produced, cell.depends_on@[k]@) + after),
{
    let blocks = prompt_blocks(unit, cell, produced);
    let n = cell.context_refs@.len() as int;
    lemma_prompt_blocks(unit, cell, produced);
    lemma_two_blocks(blocks, n + j, n + k);
    let after = blocks.skip(n + k + 1).flatten() + own_part(unit.unit_ref@, cell);
    let a = artifact_block(produced, cell.depends_on@[j]@);
    let b = artifact_block(produced, cell.depends_on@[k]@);
    assert(blocks[n + j] == a && blocks[n + k] == b);
    assert(prompt_text(unit, cell, produced) =~= blocks.take(n + j).flatten() + a
        + blocks.subrange(n + j + 1, n + k).flatten() + b + after);
}

/// Each selected fragment that is in the pool reaches the worker, before what the
/// prerequisites produced.
pub proof fn law_every_selected_fragment_reaches_the_worker(
    unit: WorkUnit,
    cell: Cell,
    produced: Map<Seq<char>, String>,
    i: int,
)
    requires
        0 <= i < cell.context_refs@.len(),
        unit.context_pool@.contains_key(cell.context_refs@[i]@),
    ensures
        exists|before: Seq<char>, after: Seq<char>|
            prompt_text(unit, cell, produced) == #[trigger] (before + (
            unit.context_pool@[cell.context_refs@[i]@].content@ + "\n\n"@) + after),
{
    let blocks = prompt_blocks(unit, cell, produced);
    lemma_prompt_blocks(unit, cell, produced);
    lemma_one_block(blocks, i);
    let block = fragment_block(unit, cell.context_refs@[i]@);
    assert(blocks[i] == block);
    let after = blocks.skip(i + 1).flatten() + own_part(unit.unit_ref@, cell);
    assert(prompt_text(unit, cell, produced) =~= blocks.take(i).flatten() + block + after);
}

// -------------------------------------------------------- laws of the place

/// An artifact has the id and the path that its cell declares; a cell that declares
/// none lends its own id, and a path that ends in `.out`.
pub proof fn law_an_artifact_is_named_as_declared(cell: Cell)
    ensures
        cell.output matches Some(o) ==> artifact_id(cell) == o.artifact_id@,
        cell.output matches Some(o) ==> (o.path matches Some(p) ==> artifact_path(cell) == p@),
        cell.output is None ==> artifact_id(cell) == cell.cell_id@,
        cell.output is None || cell.output->0.path is None ==> artifact_path(cell) == cell.cell_id@
            + ".out"@,
{
}

/// A name that can stand as one part of a path.
pub open spec fn plain_name(name: Seq<char>) -> bool {
    &&& name.len() > 0
    &&& !name.contains('/')
    &&& name != seq!['.']
    &&& name != seq!['.', '.']
}

proof fn lemma_part(from: nat, part: Seq<char>, rest: Seq<char>)
    requires
        !part.contains('/'),
    ensures
        path_depth(from, part) == part_depth(from, part),
        path_depth(from, part + seq!['/'] + rest) == match part_depth(from, part) {
            Some(depth) => path_depth(depth, rest),
            None => None,
        },
{
    let path = part + seq!['/'] + rest;
    lemma_first_stop(part, '/', '/');
    lemma_first_stop(path, '/', '/');
    let n = part.len() as int;
    assert forall|i: int| 0 <= i < n implies part[i] != '/' && path[i] != '/' by {
        assert(part.contains(part[i]));
        assert(path[i] == part[i]);
    }
    assert(path[n] == '/');
    assert(first_stop(path, '/', '/') == n);
    assert(path.take(n) =~= part);
    assert(path.skip(n + 1) =~= rest);
    if first_stop(part, '/', '/') < n {
        assert(part[first_stop(part, '/', '/')] == '/');
    }
}

/// A path down through named directories is kept as it is, and so is one that
/// comes back up no further than it went down.
pub proof fn law_a_path_that_stays_below_is_kept(
    dir: Seq<char>,
    name: Seq<char>,
    below: Seq<char>,
)
    requires
        plain_name(dir),
        plain_name(name),
        landing(below) == below,
    ensures
        landing(name) == name,
        landing(dir + seq!['/'] + below) == dir + seq!['/'] + below,
        landing(dir + seq!['/'] + (seq!['.', '.'] + seq!['/'] + below)) == dir + seq!['/'] + (seq![
            '.',
            '.',
        ] + seq!['/'] + below),
        landing(seq!['.'] + seq!['/'] + below) == seq!['.'] + seq!['/'] + below,
        landing(dir + seq!['/'] + (Seq::empty() + seq!['/'] + below)) == dir + seq!['/'] + (
        Seq::empty() + seq!['/'] + below),
{
    lemma_part(0, name, Seq::empty());
    assert(!seq!['.'].contains('/')) by {
        if seq!['.'].contains('/') {
            let k = choose|k: int| 0 <= k < 1 && seq!['.'][k] == '/';
        }
    }
    lemma_part(0, seq!['.'], below);
    assert((seq!['.'] + seq!['/'] + below)[0] == '.');
    lemma_part(1, Seq::empty(), below);
    lemma_part(0, dir, Seq::empty() + seq!['/'] + below);
    assert((dir + seq!['/'] + (Seq::empty() + seq!['/'] + below))[0] == dir[0]);
    assert(name[0] != '/') by {
        assert(name.contains(name[0]));
    }
    assert(dir[0] != '/') by {
        assert(dir.contains(dir[0]));
    }
    assert(stays_inside(below)) by {
        if !stays_inside(below) {
            law_an_artifact_lands_inside(below);
        }
    }
    let down = dir + seq!['/'] + below;
    lemma_part(0, dir, below);
    lemma_deeper(0, 1, below);
    assert(down[0] == dir[0]);
    let up = seq!['.', '.'] + seq!['/'] + below;
    assert(!seq!['.', '.'].contains('/')) by {
        if seq!['.', '.'].contains('/') {
            let k = choose|k: int| 0 <= k < 2 && seq!['.', '.'][k] == '/';
        }
    }
    lemma_part(1, seq!['.', '.'], below);
    lemma_part(0, dir, up);
    assert((dir + seq!['/'] + up)[0] == dir[0]);
}

/// What stays below from one depth stays as far below from a greater one.
proof fn lemma_deeper(from: nat, more: nat, path: Seq<char>)
    requires
        path_depth(from, path) is Some,
    ensures
        path_depth(from + more, path) == Some(path_depth(from, path)->0 + more),
    decreases path.len(),
{
    lemma_first_stop(path, '/', '/');
    let end = first_stop(path, '/', '/');
    if end < path.len() {
        let depth = part_depth(from, path.take(end))->0;
        assert(part_depth(from + more, path.take(end)) == Some(depth + more));
        lemma_deeper(depth, more, path.skip(end + 1));
    }
}

/// A path that leaves the workspace is made the name of one file: an absolute one,
/// one that begins by climbing, and one that climbs further than it went down.
pub proof fn law_a_path_that_leaves_becomes_one_name(dir: Seq<char>, rest: Seq<char>)
    requires
        plain_name(dir),
    ensures
        !landing(seq!['/'] + rest).contains('/'),
        !landing(seq!['.', '.'] + seq!['/'] + rest).contains('/'),
        !landing(
            dir + seq!['/'] + (seq!['.', '.'] + seq!['/'] + (seq!['.', '.'] + seq!['/'] + rest)),
        ).contains('/'),
        !landing(dir + seq!['/'] + seq!['.', '.']).contains('/'),
{
    let up = seq!['.', '.'];
    assert(!up.contains('/')) by {
        if up.contains('/') {
            let k = choose|k: int| 0 <= k < 2 && up[k] == '/';
        }
    }
    assert((seq!['/'] + rest)[0] == '/');
    lemma_part(0, up, rest);
    lemma_part(0, dir, up + seq!['/'] + (up + seq!['/'] + rest));
    lemma_part(1, up, up + seq!['/'] + rest);
    lemma_part(0, dir, up);
    lemma_part(1, up, Seq::empty());
    lemma_safe_is_flat(seq!['/'] + rest);
    lemma_safe_is_flat(up + seq!['/'] + rest);
    lemma_safe_is_flat(dir + seq!['/'] + (up + seq!['/'] + (up + seq!['/'] + rest)));
    lemma_safe_is_flat(dir + seq!['/'] + up);
}

/// A path that is not kept becomes its own safe name, and never an empty one.
pub proof fn law_a_path_that_is_not_kept_becomes_its_safe_name(path: Seq<char>)
    ensures
        landing(path) != path && path.len() > 0 ==> landing(path) == safe_name(path),
        path.len() == 0 ==> landing(path) == seq!['_'],
        landing(path).len() > 0,
{
}

proof fn lemma_safe_is_flat(path: Seq<char>)
    ensures
        !safe_name(path).contains('/'),
{
    let name = safe_name(path);
    if name.contains('/') {
        let k = choose|k: int| 0 <= k < name.len() && name[k] == '/';
        assert(name[k] != '/');
    }
}

/// How a part of a path changes the level: a name goes down, `..` up, and an empty
/// part or a dot neither.
pub open spec fn level_change(part: Seq<char>) -> int {
    if part.len() == 0 || part == seq!['.'] {
        0
    } else if part == seq!['.', '.'] {
        -1
    } else {
        1
    }
}

/// The level that some parts lead to.
pub open spec fn level(parts: Seq<Seq<char>>) -> int
    decreases parts.len(),
{
    if parts.len() == 0 {
        0
    } else {
        level(parts.drop_last()) + level_change(parts.last())
    }
}

proof fn lemma_level_front(parts: Seq<Seq<char>>)
    requires
        parts.len() > 0,
    ensures
        level(parts) == level_change(parts[0]) + level(parts.drop_first()),
    decreases parts.len(),
{
    if parts.len() > 1 {
        lemma_level_front(parts.drop_last());
        assert(parts.drop_last().drop_first() =~= parts.drop_first().drop_last());
        assert(parts.drop_first().last() == parts.last());
    } else {
        assert(parts.drop_first() =~= Seq::empty());
        assert(parts.drop_last() =~= Seq::empty());
    }
}

proof fn lemma_joined_front(parts: Seq<Seq<char>>, sep: Seq<char>)
    requires
        parts.len() > 1,
    ensures
        joined(parts, sep) == parts[0] + sep + joined(parts.drop_first(), sep),
    decreases parts.len(),
{
    let front = parts.drop_last();
    let back = parts.drop_first();
    if parts.len() > 2 {
        lemma_joined_front(front, sep);
        assert(front.drop_first() =~= back.drop_last());
        assert(joined(parts, sep) =~= parts[0] + sep + joined(back, sep));
    } else {
        assert(joined(front, sep) == parts[0]);
        assert(joined(back, sep) == parts[1]);
    }
}

proof fn lemma_depth_of_parts(from: nat, parts: Seq<Seq<char>>)
    requires
        parts.len() > 0,
        forall|i: int| 0 <= i < parts.len() ==> !(#[trigger] parts[i]).contains('/'),
    ensures
        (forall|n: int| 0 <= n <= parts.len() ==> from + level(#[trigger] parts.take(n)) >= 0)
            ==> path_depth(from, joined(parts, "/"@)) == Some((from + level(parts)) as nat),
        (exists|n: int| 0 <= n <= parts.len() && from + level(#[trigger] parts.take(n)) < 0)
            ==> path_depth(from, joined(parts, "/"@)) is None,
    decreases parts.len(),
{
    reveal_strlit("/");
    assert("/"@ =~= seq!['/']);
    let first = parts[0];
    let back = parts.drop_first();
    let one = parts.take(1);
    assert(one.drop_last() =~= Seq::<Seq<char>>::empty());
    assert(level(Seq::<Seq<char>>::empty()) == 0);
    assert(one.last() == first);
    assert(level(one) == level(one.drop_last()) + level_change(one.last()));
    assert(level(parts.take(0)) == 0);
    assert(parts.take(parts.len() as int) =~= parts);
    if parts.len() == 1 {
        lemma_part(from, first, Seq::empty());
        assert(joined(parts, "/"@) == first);
        assert(parts.take(1) =~= parts);
        if exists|n: int| 0 <= n <= 1 && from + level(#[trigger] parts.take(n)) < 0 {
            let n = choose|n: int| 0 <= n <= 1 && from + level(#[trigger] parts.take(n)) < 0;
            assert(n == 1);
        }
    } else {
        lemma_joined_front(parts, "/"@);
        lemma_part(from, first, joined(back, "/"@));
        assert forall|n: int| 1 <= n <= parts.len() implies level(#[trigger] parts.take(n))
            == level_change(first) + level(back.take(n - 1)) by {
            lemma_level_front(parts.take(n));
            assert(parts.take(n).drop_first() =~= back.take(n - 1));
        }
        assert(back.take(back.len() as int) =~= back);
        let down = from + level_change(first);
        if down >= 0 {
            assert(part_depth(from, first) == Some(down as nat));
            lemma_depth_of_parts(down as nat, back);
            if forall|n: int| 0 <= n <= parts.len() ==> from + level(#[trigger] parts.take(n)) >= 0 {
                assert forall|n: int| 0 <= n <= back.len() implies down + level(
                    #[trigger] back.take(n),
                ) >= 0 by {
                    assert(from + level(parts.take(n + 1)) >= 0);
                }
            }
            if exists|n: int| 0 <= n <= parts.len() && from + level(#[trigger] parts.take(n)) < 0 {
                let n = choose|n: int|
                    0 <= n <= parts.len() && from + level(#[trigger] parts.take(n)) < 0;
                assert(n >= 1);
                assert(down + level(back.take(n - 1)) < 0);
            }
        } else {
            assert(from + level(parts.take(1)) < 0);
            assert(part_depth(from, first) is None);
        }
    }
}

/// A path is kept exactly if it stays inside: taken part by part it is relative,
/// comes never above the workspace, and ends below it.
pub proof fn law_a_path_is_kept_exactly_if_it_stays_below(parts: Seq<Seq<char>>)
    requires
        parts.len() > 0,
        forall|i: int| 0 <= i < parts.len() ==> !(#[trigger] parts[i]).contains('/'),
    ensures
        landing(joined(parts, "/"@)) == joined(parts, "/"@) <==> {
            &&& parts[0].len() > 0
            &&& forall|n: int| 0 <= n <= parts.len() ==> level(#[trigger] parts.take(n)) >= 0
            &&& level(parts) > 0
        },
{
    let path = joined(parts, "/"@);
    reveal_strlit("/");
    lemma_depth_of_parts(0, parts);
    assert(parts.take(parts.len() as int) =~= parts);
    if parts.len() > 1 {
        lemma_joined_front(parts, "/"@);
        if parts[0].len() == 0 {
            assert(path[0] == '/');
        } else {
            assert(path[0] == parts[0][0]);
            assert(parts[0].contains(parts[0][0]));
        }
    } else if parts[0].len() > 0 {
        assert(parts[0].contains(parts[0][0]));
    }
    if landing(path) == path && !stays_inside(path) {
        law_an_artifact_lands_inside(path);
    }
}

} // verus!
