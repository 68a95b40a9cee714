//! The order in which the cells of a unit are run: Kahn's algorithm over the
//! dependencies of the cell graph.
use vstd::prelude::*;

use crate::execution::indices;
use crate::interface::{names_cell, Cell};
use crate::text::same;

verus! {

/// A dependency on `id` is a dependency on the last cell with that id.
pub open spec fn resolves_to(cells: Seq<Cell>, id: Seq<char>, i: int) -> bool {
    &&& 0 <= i < cells.len()
    &&& cells[i].cell_id@ == id
    &&& forall|k: int| i < k < cells.len() ==> (#[trigger] cells[k]).cell_id@ != id
}

/// Whether cell `j` depends on cell `i`.
pub open spec fn depends(cells: Seq<Cell>, j: int, i: int) -> bool {
    exists|d: int|
        0 <= d < cells[j].depends_on@.len() && resolves_to(
            cells,
            (#[trigger] cells[j].depends_on@[d])@,
            i,
        )
}

/// Whether a dependency on `id` is met once the cells `done` were run. One that
/// names no cell is met only where that is `lenient`.
pub open spec fn satisfied(cells: Seq<Cell>, id: Seq<char>, done: Seq<int>, lenient: bool) -> bool {
    ||| exists|k: int| 0 <= k < done.len() && resolves_to(cells, id, #[trigger] done[k])
    ||| lenient && !names_cell(cells, id)
}

/// Whether every dependency of cell `j` is met once the cells `done` were run.
pub open spec fn ready(cells: Seq<Cell>, j: int, done: Seq<int>, lenient: bool) -> bool {
    forall|d: int|
        0 <= d < cells[j].depends_on@.len() ==> satisfied(
            cells,
            (#[trigger] cells[j].depends_on@[d])@,
            done,
            lenient,
        )
}

/// The cells below `n` that are not queued yet and are ready once the first `q`
/// of the queue were run.
pub open spec fn joining(
    cells: Seq<Cell>,
    queue: Seq<int>,
    q: int,
    lenient: bool,
    n: nat,
) -> Seq<int>
    decreases n,
{
    if n == 0 {
        Seq::empty()
    } else {
        let before = joining(cells, queue, q, lenient, (n - 1) as nat);
        if !queue.contains(n - 1) && ready(cells, n - 1, queue.take(q), lenient) {
            before.push(n - 1)
        } else {
            before
        }
    }
}

/// The queue with the cells at its end that are ready once its first `q` were run.
pub open spec fn joined_by(cells: Seq<Cell>, queue: Seq<int>, q: int, lenient: bool) -> Seq<int> {
    queue + joining(cells, queue, q, lenient, cells.len())
}

/// The cells that can be run, in order, when the first `q` of `queue` were run:
/// each cell that is run makes others ready, which join the end.
pub open spec fn queue_from(cells: Seq<Cell>, queue: Seq<int>, q: int, lenient: bool) -> Seq<int>
    decreases cells.len() - q,
{
    if 0 <= q < queue.len() && q < cells.len() {
        queue_from(cells, joined_by(cells, queue, q + 1, lenient), q + 1, lenient)
    } else {
        queue
    }
}

/// The cells whose dependencies can all be met, in the order in which they are run.
pub open spec fn runnable(cells: Seq<Cell>) -> Seq<int> {
    queue_from(cells, joined_by(cells, Seq::empty(), 0, false), 0, false)
}

/// The runnable cells, and behind them those that can be run once dependencies
/// that name no cell are passed over.
pub open spec fn placed(cells: Seq<Cell>) -> Seq<int> {
    let r = runnable(cells);
    queue_from(cells, joined_by(cells, r, r.len() as int, true), r.len() as int, true)
}

/// The indices below `n` that do not occur in `order`.
pub open spec fn missing_from(order: Seq<int>, n: nat) -> Seq<int>
    decreases n,
{
    if n == 0 {
        Seq::empty()
    } else {
        let before = missing_from(order, (n - 1) as nat);
        if order.contains(n - 1) {
            before
        } else {
            before.push(n - 1)
        }
    }
}

/// The order in which cells are run: those whose dependencies can be met, then
/// those that wait for a dependency that names no cell, then those on or behind
/// a cycle.
pub open spec fn run_order(cells: Seq<Cell>) -> Seq<int> {
    placed(cells) + missing_from(placed(cells), cells.len())
}

// ------------------------------------------------------------ the invariants

/// Different cells, each ready once those before it were run, and all of them
/// once the first `q` were.
spec fn grounded(cells: Seq<Cell>, queue: Seq<int>, q: int, lenient: bool) -> bool {
    &&& 0 <= q <= queue.len()
    &&& queue.no_duplicates()
    &&& forall|k: int| 0 <= k < queue.len() ==> 0 <= (#[trigger] queue[k]) < cells.len()
    &&& forall|k: int|
        0 <= k < queue.len() ==> ready(cells, #[trigger] queue[k], queue.take(k), lenient)
    &&& forall|k: int|
        0 <= k < queue.len() ==> ready(cells, #[trigger] queue[k], queue.take(q), lenient)
}

/// The queue while the first `q` of it have been run: it holds exactly the cells
/// that are ready.
spec fn queue_ok(cells: Seq<Cell>, queue: Seq<int>, q: int, lenient: bool) -> bool {
    &&& grounded(cells, queue, q, lenient)
    &&& forall|j: int|
        #![trigger queue.contains(j)]
        0 <= j < cells.len() && ready(cells, j, queue.take(q), lenient) ==> queue.contains(j)
}

proof fn lemma_distinct_below(s: Seq<int>, n: int)
    requires
        0 <= n,
        s.no_duplicates(),
        forall|k: int| 0 <= k < s.len() ==> 0 <= (#[trigger] s[k]) < n,
    ensures
        s.len() <= n,
{
    let all = vstd::set_lib::set_int_range(0, n);
    vstd::set_lib::lemma_int_range(0, n);
    s.unique_seq_to_set();
    assert forall|x: int| s.to_set().contains(x) implies all.contains(x) by {
        let k = choose|k: int| 0 <= k < s.len() && s[k] == x;
    }
    vstd::set_lib::lemma_len_subset(s.to_set(), all);
}

/// What is ready stays ready as more cells are run, and where more is let pass.
proof fn lemma_ready_stays(
    cells: Seq<Cell>,
    j: int,
    less: Seq<int>,
    more: Seq<int>,
    strict: bool,
    lenient: bool,
)
    requires
        ready(cells, j, less, strict),
        less.len() <= more.len(),
        more.take(less.len() as int) == less,
        strict ==> lenient,
    ensures
        ready(cells, j, more, lenient),
{
    assert forall|d: int| 0 <= d < cells[j].depends_on@.len() implies satisfied(
        cells,
        (#[trigger] cells[j].depends_on@[d])@,
        more,
        lenient,
    ) by {
        let id = cells[j].depends_on@[d]@;
        assert(satisfied(cells, id, less, strict));
        if exists|k: int| 0 <= k < less.len() && resolves_to(cells, id, #[trigger] less[k]) {
            let k = choose|k: int| 0 <= k < less.len() && resolves_to(cells, id, #[trigger] less[k]);
            assert(more.take(less.len() as int)[k] == more[k]);
            assert(resolves_to(cells, id, more[k]));
        }
    }
}

proof fn lemma_joining(cells: Seq<Cell>, queue: Seq<int>, q: int, lenient: bool, n: nat)
    requires
        n <= cells.len(),
    ensures
        joining(cells, queue, q, lenient, n).no_duplicates(),
        forall|k: int|
            0 <= k < joining(cells, queue, q, lenient, n).len() ==> {
                let j = #[trigger] joining(cells, queue, q, lenient, n)[k];
                &&& 0 <= j < n
                &&& !queue.contains(j)
                &&& ready(cells, j, queue.take(q), lenient)
            },
        forall|j: int|
            #![trigger joining(cells, queue, q, lenient, n).contains(j)]
            0 <= j < n && !queue.contains(j) && ready(cells, j, queue.take(q), lenient)
                ==> joining(cells, queue, q, lenient, n).contains(j),
    decreases n,
{
    if n > 0 {
        lemma_joining(cells, queue, q, lenient, (n - 1) as nat);
        let before = joining(cells, queue, q, lenient, (n - 1) as nat);
        let now = joining(cells, queue, q, lenient, n);
        assert forall|j: int|
            #![trigger now.contains(j)]
            0 <= j < n && !queue.contains(j) && ready(
                cells,
                j,
                queue.take(q),
                lenient,
            ) implies now.contains(j) by {
            if j < n - 1 {
                assert(before.contains(j));
                let k = choose|k: int| 0 <= k < before.len() && before[k] == j;
                assert(now[k] == j);
            } else {
                assert(now[before.len() as int] == j);
            }
        }
    }
}

/// A grounded queue, joined by what is ready, holds exactly what is ready.
proof fn lemma_join(cells: Seq<Cell>, queue: Seq<int>, q: int, lenient: bool)
    requires
        grounded(cells, queue, q, lenient),
    ensures
        queue_ok(cells, joined_by(cells, queue, q, lenient), q, lenient),
        joined_by(cells, queue, q, lenient).len() <= cells.len(),
{
    let n = cells.len();
    let more = joining(cells, queue, q, lenient, n);
    let next = joined_by(cells, queue, q, lenient);
    lemma_joining(cells, queue, q, lenient, n);
    assert(next.take(q) =~= queue.take(q));
    assert forall|a: int, b: int|
        0 <= a < next.len() && 0 <= b < next.len() && a != b implies next[a] != next[b] by {
        if a < queue.len() && b >= queue.len() {
            assert(queue.contains(queue[a]));
            assert(!queue.contains(more[b - queue.len()]));
        } else if b < queue.len() && a >= queue.len() {
            assert(queue.contains(queue[b]));
            assert(!queue.contains(more[a - queue.len()]));
        } else if a >= queue.len() {
            assert(more[a - queue.len()] != more[b - queue.len()]);
        }
    }
    assert forall|k: int| 0 <= k < next.len() implies {
        &&& 0 <= #[trigger] next[k] < n
        &&& ready(cells, next[k], next.take(k), lenient)
        &&& ready(cells, next[k], next.take(q), lenient)
    } by {
        if k < queue.len() {
            assert(next[k] == queue[k]);
            assert(next.take(k) =~= queue.take(k));
        } else {
            let j = more[k - queue.len()];
            assert(next[k] == j);
            assert(next.take(k).take(q) =~= queue.take(q));
            lemma_ready_stays(cells, j, queue.take(q), next.take(k), lenient, lenient);
        }
    }
    assert forall|j: int|
        #![trigger next.contains(j)]
        0 <= j < n && ready(cells, j, next.take(q), lenient) implies next.contains(j) by {
        if queue.contains(j) {
            let k = choose|k: int| 0 <= k < queue.len() && queue[k] == j;
            assert(next[k] == j);
        } else {
            assert(more.contains(j));
            let k = choose|k: int| 0 <= k < more.len() && more[k] == j;
            assert(next[queue.len() + k] == j);
        }
    }
    lemma_distinct_below(next, n as int);
}

proof fn lemma_run_one(cells: Seq<Cell>, queue: Seq<int>, q: int, lenient: bool)
    requires
        queue_ok(cells, queue, q, lenient),
        q < queue.len(),
    ensures
        queue_ok(cells, joined_by(cells, queue, q + 1, lenient), q + 1, lenient),
        joined_by(cells, queue, q + 1, lenient).len() <= cells.len(),
{
    assert forall|k: int| 0 <= k < queue.len() implies ready(
        cells,
        #[trigger] queue[k],
        queue.take(q + 1),
        lenient,
    ) by {
        assert(queue.take(q + 1).take(q) =~= queue.take(q));
        lemma_ready_stays(cells, queue[k], queue.take(q), queue.take(q + 1), lenient, lenient);
    }
    lemma_join(cells, queue, q + 1, lenient);
}

proof fn lemma_queue_starts(cells: Seq<Cell>)
    ensures
        queue_ok(cells, joined_by(cells, Seq::empty(), 0, false), 0, false),
        joined_by(cells, Seq::empty(), 0, false).len() <= cells.len(),
{
    lemma_join(cells, Seq::empty(), 0, false);
}

/// Once every runnable cell was run, the queue is taken up again with
/// dependencies that name no cell passed over.
proof fn lemma_queue_resumes(cells: Seq<Cell>)
    ensures
        queue_ok(cells, runnable(cells), runnable(cells).len() as int, false),
        queue_ok(
            cells,
            joined_by(cells, runnable(cells), runnable(cells).len() as int, true),
            runnable(cells).len() as int,
            true,
        ),
        joined_by(cells, runnable(cells), runnable(cells).len() as int, true).len() <= cells.len(),
{
    let r = runnable(cells);
    lemma_queue_starts(cells);
    lemma_queue_ends(cells, joined_by(cells, Seq::empty(), 0, false), 0, false);
    assert forall|k: int| 0 <= k < r.len() implies ready(cells, #[trigger] r[k], r.take(k), true)
        && ready(cells, r[k], r.take(r.len() as int), true) by {
        assert(r.take(k).take(k) =~= r.take(k));
        assert(r.take(r.len() as int).take(r.len() as int) =~= r.take(r.len() as int));
        lemma_ready_stays(cells, r[k], r.take(k), r.take(k), false, true);
        lemma_ready_stays(
            cells,
            r[k],
            r.take(r.len() as int),
            r.take(r.len() as int),
            false,
            true,
        );
    }
    lemma_join(cells, r, r.len() as int, true);
}

proof fn lemma_queue_ends(cells: Seq<Cell>, queue: Seq<int>, q: int, lenient: bool)
    requires
        queue_ok(cells, queue, q, lenient),
    ensures
        ({
            let all = queue_from(cells, queue, q, lenient);
            &&& queue_ok(cells, all, all.len() as int, lenient)
            &&& all.len() >= queue.len()
            &&& all.take(queue.len() as int) == queue
        }),
    decreases cells.len() - q,
{
    lemma_distinct_below(queue, cells.len() as int);
    if q < queue.len() {
        let next = joined_by(cells, queue, q + 1, lenient);
        lemma_run_one(cells, queue, q, lenient);
        lemma_queue_ends(cells, next, q + 1, lenient);
        let all = queue_from(cells, queue, q, lenient);
        assert(all.take(next.len() as int).take(queue.len() as int) =~= all.take(
            queue.len() as int,
        ));
        assert(next.take(queue.len() as int) =~= queue);
    } else {
        assert(queue.take(queue.len() as int) =~= queue);
    }
}

proof fn lemma_missing_from(order: Seq<int>, n: nat)
    ensures
        missing_from(order, n).no_duplicates(),
        forall|k: int|
            0 <= k < missing_from(order, n).len() ==> 0 <= (#[trigger] missing_from(order, n)[k])
                < n && !order.contains(missing_from(order, n)[k]),
        forall|j: int|
            #![trigger missing_from(order, n).contains(j)]
            0 <= j < n && !order.contains(j) ==> missing_from(order, n).contains(j),
    decreases n,
{
    if n > 0 {
        lemma_missing_from(order, (n - 1) as nat);
        let before = missing_from(order, (n - 1) as nat);
        let now = missing_from(order, n);
        assert forall|j: int|
            #![trigger now.contains(j)]
            0 <= j < n && !order.contains(j) implies now.contains(j) by {
            if j < n - 1 {
                assert(before.contains(j));
                let k = choose|k: int| 0 <= k < before.len() && before[k] == j;
                assert(now[k] == j);
            } else {
                assert(now[before.len() as int] == j);
            }
        }
    }
}

// ------------------------------------------------------------------ the code

fn last_with_id(cells: &[Cell], id: &str) -> (r: Option<usize>)
    ensures
        match r {
            Some(i) => resolves_to(cells@, id@, i as int),
            None => !names_cell(cells@, id@),
        },
{
    let mut i: usize = cells.len();
    while i > 0
        invariant
            i <= cells@.len(),
            forall|k: int| i <= k < cells@.len() ==> (#[trigger] cells@[k]).cell_id@ != id@,
        decreases i,
    {
        i -= 1;
        if same(cells[i].cell_id.as_str(), id) {
            return Some(i);
        }
    }
    None
}

/// Whether `x` is among the first `q` of `v`.
fn holds(v: &Vec<usize>, q: usize, x: usize) -> (r: bool)
    requires
        q <= v@.len(),
    ensures
        r == indices(v@).take(q as int).contains(x as int),
{
    let mut k: usize = 0;
    while k < q
        invariant
            k <= q <= v@.len(),
            forall|a: int| 0 <= a < k ==> (#[trigger] v@[a]) != x,
        decreases q - k,
    {
        if v[k] == x {
            assert(indices(v@).take(q as int)[k as int] == x);
            return true;
        }
        k += 1;
    }
    proof {
        let first = indices(v@).take(q as int);
        if first.contains(x as int) {
            let a = choose|a: int| 0 <= a < first.len() && first[a] == x;
            assert(v@[a] == x);
        }
    }
    false
}

/// Whether cell `j` is ready once the first `q` of the queue were run.
fn is_ready(cells: &[Cell], j: usize, queue: &Vec<usize>, q: usize, lenient: bool) -> (r: bool)
    requires
        j < cells@.len(),
        q <= queue@.len(),
    ensures
        r == ready(cells@, j as int, indices(queue@).take(q as int), lenient),
{
    let ghost done = indices(queue@).take(q as int);
    let mut d: usize = 0;
    while d < cells[j].depends_on.len()
        invariant
            j < cells@.len(),
            q <= queue@.len(),
            done == indices(queue@).take(q as int),
            d <= cells@[j as int].depends_on@.len(),
            forall|e: int|
                0 <= e < d ==> satisfied(
                    cells@,
                    (#[trigger] cells@[j as int].depends_on@[e])@,
                    done,
                    lenient,
                ),
        decreases cells@[j as int].depends_on@.len() - d,
    {
        let id: &str = cells[j].depends_on[d].as_str();
        let met: bool = match last_with_id(cells, id) {
            Some(i) => {
                let there: bool = holds(queue, q, i);
                proof {
                    if there {
                        let k = choose|k: int| 0 <= k < done.len() && done[k] == i;
                        assert(resolves_to(cells@, id@, done[k]));
                    } else if satisfied(cells@, id@, done, lenient) {
                        assert(names_cell(cells@, id@));
                        let k = choose|k: int|
                            0 <= k < done.len() && resolves_to(cells@, id@, #[trigger] done[k]);
                        lemma_resolves_once(cells@, id@, i as int, done[k]);
                        assert(done.contains(i as int));
                    }
                }
                there
            },
            None => {
                proof {
                    if exists|k: int|
                        0 <= k < done.len() && resolves_to(cells@, id@, #[trigger] done[k]) {
                        let k = choose|k: int|
                            0 <= k < done.len() && resolves_to(cells@, id@, #[trigger] done[k]);
                        assert(cells@[done[k]].cell_id@ == id@);
                    }
                }
                lenient
            },
        };
        assert(met == satisfied(cells@, cells@[j as int].depends_on@[d as int]@, done, lenient));
        if !met {
            return false;
        }
        d += 1;
    }
    true
}

proof fn lemma_resolves_once(cells: Seq<Cell>, id: Seq<char>, a: int, b: int)
    requires
        resolves_to(cells, id, a),
        resolves_to(cells, id, b),
    ensures
        a == b,
{
    if a < b {
        assert(cells[b].cell_id@ != id);
    } else if b < a {
        assert(cells[a].cell_id@ != id);
    }
}

/// The cells that join the queue once its first `q` were run.
fn joiners(cells: &[Cell], queue: &Vec<usize>, q: usize, lenient: bool) -> (r: Vec<usize>)
    requires
        q <= queue@.len(),
    ensures
        indices(r@) == joining(cells@, indices(queue@), q as int, lenient, cells@.len()),
{
    let mut r: Vec<usize> = Vec::new();
    let mut j: usize = 0;
    while j < cells.len()
        invariant
            q <= queue@.len(),
            j <= cells@.len(),
            indices(r@) == joining(cells@, indices(queue@), q as int, lenient, j as nat),
        decreases cells@.len() - j,
    {
        let ghost before = r@;
        let queued: bool = holds(queue, queue.len(), j);
        assert(indices(queue@).take(queue@.len() as int) =~= indices(queue@));
        if !queued && is_ready(cells, j, queue, q, lenient) {
            r.push(j);
            assert(indices(r@) =~= indices(before).push(j as int));
        }
        j += 1;
    }
    r
}

/// Runs the queue to its end, from its `from`th cell on.
fn run_queue(cells: &[Cell], start: Vec<usize>, from: usize, lenient: bool) -> (r: Vec<usize>)
    requires
        queue_ok(cells@, indices(start@), from as int, lenient),
    ensures
        indices(r@) == queue_from(cells@, indices(start@), from as int, lenient),
        queue_ok(cells@, indices(r@), r@.len() as int, lenient),
{
    let ghost all = queue_from(cells@, indices(start@), from as int, lenient);
    let mut queue: Vec<usize> = start;
    let mut q: usize = from;
    proof {
        lemma_distinct_below(indices(queue@), cells@.len() as int);
    }
    while q < queue.len()
        invariant
            queue@.len() <= cells@.len(),
            queue_ok(cells@, indices(queue@), q as int, lenient),
            all == queue_from(cells@, indices(queue@), q as int, lenient),
        decreases cells@.len() - q,
    {
        let ghost before = indices(queue@);
        let mut more: Vec<usize> = joiners(cells, &queue, q + 1, lenient);
        let ghost added = indices(more@);
        queue.append(&mut more);
        proof {
            assert(indices(queue@) =~= before + added);
            lemma_run_one(cells@, before, q as int, lenient);
        }
        q += 1;
    }
    queue
}

/// A dependency order over the cell graph. Cells with a dependency that is never
/// met, or that names no cell, come last, so that every cell still comes once;
/// those that only wait for what names no cell keep the order of their other
/// dependencies.
pub fn topo_order(cells: &[Cell]) -> (r: Vec<usize>)
    ensures
        indices(r@) == run_order(cells@),
        forall|k: int| 0 <= k < r@.len() ==> (#[trigger] r@[k]) < cells@.len(),
{
    let n: usize = cells.len();
    let none: Vec<usize> = Vec::new();
    let first: Vec<usize> = joiners(cells, &none, 0, false);
    proof {
        assert(indices(none@) =~= Seq::empty());
        assert(joined_by(cells@, Seq::empty(), 0, false) =~= indices(first@));
        lemma_queue_starts(cells@);
    }
    let mut queue: Vec<usize> = run_queue(cells, first, 0, false);
    let ran: usize = queue.len();
    let ghost before = indices(queue@);
    let mut more: Vec<usize> = joiners(cells, &queue, ran, true);
    let ghost added = indices(more@);
    queue.append(&mut more);
    proof {
        assert(indices(queue@) =~= before + added);
        lemma_queue_resumes(cells@);
    }
    let mut order: Vec<usize> = run_queue(cells, queue, ran, true);
    let ghost ordered = indices(order@);
    assert(ordered == placed(cells@));
    assert forall|k: int| 0 <= k < order@.len() implies (#[trigger] order@[k]) < n by {
        assert(ordered[k] == order@[k]);
    }
    let mut i: usize = 0;
    let ghost missing = missing_from(ordered, 0);
    assert(indices(order@) =~= ordered + missing);
    while i < n
        invariant
            n == cells@.len(),
            i <= n,
            missing == missing_from(ordered, i as nat),
            indices(order@) == ordered + missing,
            forall|k: int| 0 <= k < order@.len() ==> (#[trigger] order@[k]) < n,
        decreases n - i,
    {
        let ghost so_far = order@;
        let found: bool = holds(&order, order.len(), i);
        proof {
            lemma_missing_from(ordered, i as nat);
            let all = indices(order@);
            assert(all.take(order@.len() as int) =~= all);
            if ordered.contains(i as int) {
                let k = choose|k: int| 0 <= k < ordered.len() && ordered[k] == i;
                assert(all[k] == i);
            }
            if all.contains(i as int) {
                let k = choose|k: int| 0 <= k < all.len() && all[k] == i;
                if k >= ordered.len() {
                    assert(missing[k - ordered.len()] == i);
                } else {
                    assert(ordered[k] == i);
                }
            }
            missing = missing_from(ordered, (i + 1) as nat);
        }
        if !found {
            order.push(i);
            assert(indices(order@) =~= indices(so_far).push(i as int));
            assert(indices(order@) =~= ordered + missing);
        }
        i += 1;
    }
    order
}

// ---------------------------------------------------------------------- laws

proof fn lemma_placed(cells: Seq<Cell>)
    ensures
        queue_ok(cells, placed(cells), placed(cells).len() as int, true),
        runnable(cells).len() <= placed(cells).len(),
        placed(cells).take(runnable(cells).len() as int) == runnable(cells),
{
    let r = runnable(cells);
    let start = joined_by(cells, r, r.len() as int, true);
    lemma_queue_resumes(cells);
    lemma_queue_ends(cells, start, r.len() as int, true);
    let all = placed(cells);
    assert(all.take(start.len() as int).take(r.len() as int) =~= all.take(r.len() as int));
    assert(start.take(r.len() as int) =~= r);
}

/// Every cell of the unit is run exactly once.
pub proof fn law_each_cell_is_run_once(cells: Seq<Cell>)
    ensures
        run_order(cells).no_duplicates(),
        run_order(cells).len() == cells.len(),
        forall|j: int|
            0 <= j < cells.len() <==> #[trigger] run_order(cells).contains(j),
{
    let r = placed(cells);
    let m = missing_from(r, cells.len());
    let all = run_order(cells);
    lemma_placed(cells);
    lemma_missing_from(r, cells.len());
    assert forall|a: int, b: int|
        0 <= a < all.len() && 0 <= b < all.len() && a != b implies all[a] != all[b] by {
        if a < r.len() && b >= r.len() {
            assert(!r.contains(m[b - r.len()]));
            assert(r.contains(r[a]));
        } else if b < r.len() && a >= r.len() {
            assert(!r.contains(m[a - r.len()]));
            assert(r.contains(r[b]));
        } else if a >= r.len() {
            assert(m[a - r.len()] != m[b - r.len()]);
        }
    }
    assert forall|j: int| 0 <= j < cells.len() <==> #[trigger] all.contains(j) by {
        if 0 <= j < cells.len() {
            if r.contains(j) {
                let k = choose|k: int| 0 <= k < r.len() && r[k] == j;
                assert(all[k] == j);
            } else {
                assert(m.contains(j));
                let k = choose|k: int| 0 <= k < m.len() && m[k] == j;
                assert(all[r.len() + k] == j);
            }
        }
        if all.contains(j) {
            let k = choose|k: int| 0 <= k < all.len() && all[k] == j;
            if k < r.len() {
                assert(0 <= r[k] < cells.len());
            } else {
                assert(0 <= m[k - r.len()] < cells.len());
            }
        }
    }
    let range = vstd::set_lib::set_int_range(0, cells.len() as int);
    vstd::set_lib::lemma_int_range(0, cells.len() as int);
    all.unique_seq_to_set();
    assert(all.to_set() =~= range);
}

/// A cell is run after the cells it depends on: every dependency of a runnable
/// cell names a cell that comes before it in the order.
pub proof fn law_a_cell_is_run_after_its_dependencies(cells: Seq<Cell>, p: int, d: int)
    requires
        0 <= p < runnable(cells).len(),
        0 <= d < cells[runnable(cells)[p]].depends_on@.len(),
    ensures
        exists|q: int|
            0 <= q < p && resolves_to(
                cells,
                cells[runnable(cells)[p]].depends_on@[d]@,
                #[trigger] run_order(cells)[q],
            ),
{
    let r = runnable(cells);
    lemma_queue_resumes(cells);
    lemma_placed(cells);
    let before = r.take(p);
    let id = cells[r[p]].depends_on@[d]@;
    assert(ready(cells, r[p], before, false));
    assert(satisfied(cells, id, before, false));
    let q = choose|q: int| 0 <= q < before.len() && resolves_to(cells, id, #[trigger] before[q]);
    assert(placed(cells).take(r.len() as int)[q] == before[q]);
    assert(run_order(cells)[q] == before[q]);
}

/// The cells that cannot have all their dependencies met come last: the order
/// begins with the runnable cells, and every other cell has a dependency that
/// none of them meets.
pub proof fn law_cells_that_are_never_met_come_last(cells: Seq<Cell>)
    ensures
        runnable(cells).len() <= run_order(cells).len(),
        run_order(cells).take(runnable(cells).len() as int) == runnable(cells),
        forall|j: int|
            0 <= j < cells.len() && !#[trigger] runnable(cells).contains(j) ==> !ready(
                cells,
                j,
                runnable(cells),
                false,
            ),
{
    let r = runnable(cells);
    lemma_queue_resumes(cells);
    lemma_placed(cells);
    assert(r.take(r.len() as int) =~= r);
    assert(run_order(cells).take(r.len() as int) =~= placed(cells).take(r.len() as int));
}

/// Every cell that another depends on has a lower rank: there is no cycle.
pub open spec fn ranked_by(cells: Seq<Cell>, rank: spec_fn(int) -> nat) -> bool {
    forall|j: int, i: int|
        0 <= j < cells.len() && #[trigger] depends(cells, j, i) ==> rank(i) < rank(j)
}

proof fn lemma_last_named(cells: Seq<Cell>, id: Seq<char>, n: int) -> (i: int)
    requires
        0 <= n <= cells.len(),
        exists|k: int| 0 <= k < n && (#[trigger] cells[k]).cell_id@ == id,
        forall|k: int| n <= k < cells.len() ==> (#[trigger] cells[k]).cell_id@ != id,
    ensures
        resolves_to(cells, id, i),
    decreases n,
{
    if cells[n - 1].cell_id@ == id {
        n - 1
    } else {
        lemma_last_named(cells, id, n - 1)
    }
}

proof fn lemma_ranked_cell_is_queued(
    cells: Seq<Cell>,
    queue: Seq<int>,
    lenient: bool,
    rank: spec_fn(int) -> nat,
    j: int,
)
    requires
        ranked_by(cells, rank),
        queue_ok(cells, queue, queue.len() as int, lenient),
        lenient || all_named(cells),
        0 <= j < cells.len(),
    ensures
        queue.contains(j),
    decreases rank(j),
{
    assert(queue.take(queue.len() as int) =~= queue);
    assert forall|d: int| 0 <= d < cells[j].depends_on@.len() implies satisfied(
        cells,
        (#[trigger] cells[j].depends_on@[d])@,
        queue,
        lenient,
    ) by {
        let id = cells[j].depends_on@[d]@;
        if names_cell(cells, id) {
            let i = lemma_last_named(cells, id, cells.len() as int);
            assert(depends(cells, j, i));
            lemma_ranked_cell_is_queued(cells, queue, lenient, rank, i);
            let k = choose|k: int| 0 <= k < queue.len() && queue[k] == i;
            assert(resolves_to(cells, id, queue[k]));
        }
    }
}

/// In a graph without a cycle every cell is run after each cell that it depends
/// on, also where other dependencies of it name no cell, or name one twice.
pub proof fn law_an_acyclic_graph_is_run_in_dependency_order(
    cells: Seq<Cell>,
    rank: spec_fn(int) -> nat,
    p: int,
    i: int,
)
    requires
        ranked_by(cells, rank),
        0 <= p < run_order(cells).len(),
        depends(cells, run_order(cells)[p], i),
    ensures
        exists|q: int| 0 <= q < p && #[trigger] run_order(cells)[q] == i,
{
    let all = placed(cells);
    lemma_placed(cells);
    lemma_missing_from(all, cells.len());
    let m = missing_from(all, cells.len());
    if m.len() > 0 {
        assert(0 <= m[0] < cells.len());
        lemma_ranked_cell_is_queued(cells, all, true, rank, m[0]);
    }
    assert(run_order(cells) =~= all);
    let j = all[p];
    let d = choose|d: int|
        0 <= d < cells[j].depends_on@.len() && resolves_to(
            cells,
            (#[trigger] cells[j].depends_on@[d])@,
            i,
        );
    let id = cells[j].depends_on@[d]@;
    assert(ready(cells, j, all.take(p), true));
    assert(satisfied(cells, id, all.take(p), true));
    assert(cells[i].cell_id@ == id);
    assert(names_cell(cells, id));
    let q = choose|q: int|
        0 <= q < all.take(p).len() && resolves_to(cells, id, #[trigger] all.take(p)[q]);
    lemma_resolves_once(cells, id, i, all.take(p)[q]);
    assert(run_order(cells)[q] == i);
}

/// Every dependency names a cell.
pub open spec fn all_named(cells: Seq<Cell>) -> bool {
    forall|j: int, d: int|
        0 <= j < cells.len() && 0 <= d < cells[j].depends_on@.len() ==> names_cell(
            cells,
            (#[trigger] cells[j].depends_on@[d])@,
        )
}

/// In a graph without a cycle, whose dependencies all name a cell, every cell is
/// runnable, and nothing is left to come last.
pub proof fn law_a_sound_graph_is_runnable(cells: Seq<Cell>, rank: spec_fn(int) -> nat)
    requires
        ranked_by(cells, rank),
        all_named(cells),
    ensures
        run_order(cells) == runnable(cells),
{
    let r = runnable(cells);
    lemma_queue_resumes(cells);
    law_cells_that_are_never_met_come_last(cells);
    law_each_cell_is_run_once(cells);
    let all = run_order(cells);
    if all.len() > r.len() {
        let j = all[r.len() as int];
        assert(all.contains(j));
        lemma_ranked_cell_is_queued(cells, r, false, rank, j);
        let k = choose|k: int| 0 <= k < r.len() && r[k] == j;
        assert(all.take(r.len() as int)[k] == all[k]);
        assert(all[k] == all[r.len() as int]);
    }
    assert(all.take(r.len() as int) =~= all);
}

proof fn lemma_joining_increases(
    cells: Seq<Cell>,
    queue: Seq<int>,
    q: int,
    lenient: bool,
    n: nat,
)
    requires
        n <= cells.len(),
    ensures
        forall|a: int, b: int|
            0 <= a < b < joining(cells, queue, q, lenient, n).len() ==> (#[trigger] joining(
                cells,
                queue,
                q,
                lenient,
                n,
            )[a]) < (#[trigger] joining(cells, queue, q, lenient, n)[b]),
    decreases n,
{
    if n > 0 {
        lemma_joining_increases(cells, queue, q, lenient, (n - 1) as nat);
        lemma_joining(cells, queue, q, lenient, (n - 1) as nat);
    }
}

/// Of two cells in the queue the earlier one was ready as soon as the later one;
/// where both became ready at once, the earlier one comes earlier in the list.
spec fn in_turn(cells: Seq<Cell>, queue: Seq<int>, q: int, lenient: bool) -> bool {
    forall|a: int, b: int, t: int|
        #![trigger queue[a], queue[b], queue.take(t)]
        0 <= a < b < queue.len() && 0 <= t <= q && ready(cells, queue[b], queue.take(t), lenient)
            ==> ready(cells, queue[a], queue.take(t), lenient) && (t == 0 || !ready(
            cells,
            queue[a],
            queue.take(t - 1),
            lenient,
        ) ==> queue[a] < queue[b])
}

proof fn lemma_run_one_in_turn(cells: Seq<Cell>, queue: Seq<int>, q: int, lenient: bool)
    requires
        queue_ok(cells, queue, q, lenient),
        in_turn(cells, queue, q, lenient),
        q < queue.len(),
    ensures
        in_turn(cells, joined_by(cells, queue, q + 1, lenient), q + 1, lenient),
{
    let n = cells.len();
    let more = joining(cells, queue, q + 1, lenient, n);
    let next = joined_by(cells, queue, q + 1, lenient);
    lemma_joining(cells, queue, q + 1, lenient, n);
    lemma_joining_increases(cells, queue, q + 1, lenient, n);
    assert forall|a: int, b: int, t: int|
        #![trigger next[a], next[b], next.take(t)]
        0 <= a < b < next.len() && 0 <= t <= q + 1 && ready(
            cells,
            next[b],
            next.take(t),
            lenient,
        ) implies ready(cells, next[a], next.take(t), lenient) && (t == 0 || !ready(
        cells,
        next[a],
        next.take(t - 1),
        lenient,
    ) ==> next[a] < next[b]) by {
        assert(next.take(t) =~= queue.take(t));
        if t > 0 {
            assert(next.take(t - 1) =~= queue.take(t - 1));
        }
        if b < queue.len() {
            assert(next[a] == queue[a] && next[b] == queue[b]);
            if t <= q {
            } else {
                // Both were ready by the step before.
                assert(ready(cells, queue[a], queue.take(q), lenient));
                assert(queue.take(q + 1).take(q) =~= queue.take(q));
                lemma_ready_stays(
                    cells,
                    queue[a],
                    queue.take(q),
                    queue.take(q + 1),
                    lenient,
                    lenient,
                );
            }
        } else {
            let j = more[b - queue.len()];
            assert(next[b] == j);
            if t <= q {
                // What joins now was not ready before.
                assert(queue.take(q).take(t) =~= queue.take(t));
                lemma_ready_stays(cells, j, queue.take(t), queue.take(q), lenient, lenient);
                assert(queue.contains(j));
            } else if a < queue.len() {
                assert(next[a] == queue[a]);
                assert(ready(cells, queue[a], queue.take(q), lenient));
                assert(queue.take(q + 1).take(q) =~= queue.take(q));
                lemma_ready_stays(
                    cells,
                    queue[a],
                    queue.take(q),
                    queue.take(q + 1),
                    lenient,
                    lenient,
                );
            } else {
                assert(next[a] == more[a - queue.len()]);
            }
        }
    }
}

proof fn lemma_queue_in_turn(cells: Seq<Cell>, queue: Seq<int>, q: int, lenient: bool)
    requires
        queue_ok(cells, queue, q, lenient),
        in_turn(cells, queue, q, lenient),
    ensures
        in_turn(
            cells,
            queue_from(cells, queue, q, lenient),
            queue_from(cells, queue, q, lenient).len() as int,
            lenient,
        ),
    decreases cells.len() - q,
{
    lemma_distinct_below(queue, cells.len() as int);
    if q < queue.len() {
        lemma_run_one(cells, queue, q, lenient);
        lemma_run_one_in_turn(cells, queue, q, lenient);
        lemma_queue_in_turn(cells, joined_by(cells, queue, q + 1, lenient), q + 1, lenient);
    }
}

/// A dependency on `id` names one of the first `t` cells of the order.
pub open spec fn named_among(cells: Seq<Cell>, order: Seq<int>, t: int, id: Seq<char>) -> bool {
    exists|k: int| 0 <= k < t && resolves_to(cells, id, #[trigger] order[k])
}

/// Every dependency of cell `j` names one of the first `t` cells of the order.
pub open spec fn met_by(cells: Seq<Cell>, order: Seq<int>, t: int, j: int) -> bool {
    forall|d: int|
        0 <= d < cells[j].depends_on@.len() ==> named_among(
            cells,
            order,
            t,
            (#[trigger] cells[j].depends_on@[d])@,
        )
}

proof fn lemma_met_by(cells: Seq<Cell>, order: Seq<int>, t: int, j: int)
    requires
        0 <= t <= order.len(),
    ensures
        met_by(cells, order, t, j) <==> ready(cells, j, order.take(t), false),
{
    let done = order.take(t);
    if met_by(cells, order, t, j) {
        assert forall|d: int| 0 <= d < cells[j].depends_on@.len() implies satisfied(
            cells,
            (#[trigger] cells[j].depends_on@[d])@,
            done,
            false,
        ) by {
            assert(named_among(cells, order, t, cells[j].depends_on@[d]@));
            let k = choose|k: int|
                0 <= k < t && resolves_to(
                    cells,
                    cells[j].depends_on@[d]@,
                    #[trigger] order[k],
                );
            assert(done[k] == order[k]);
        }
    }
    if ready(cells, j, done, false) {
        assert forall|d: int| 0 <= d < cells[j].depends_on@.len() implies named_among(
            cells,
            order,
            t,
            (#[trigger] cells[j].depends_on@[d])@,
        ) by {
            assert(satisfied(cells, cells[j].depends_on@[d]@, done, false));
            let k = choose|k: int|
                0 <= k < done.len() && resolves_to(
                    cells,
                    cells[j].depends_on@[d]@,
                    #[trigger] done[k],
                );
            assert(done[k] == order[k]);
        }
    }
}

/// Cells are run in turn: of two runnable cells the one whose dependencies are met
/// first comes first, and of two whose dependencies are met at once, the one that
/// comes first in the list.
pub proof fn law_cells_are_run_in_turn(cells: Seq<Cell>, a: int, b: int, t: int)
    requires
        0 <= a < b < runnable(cells).len(),
        0 <= t <= runnable(cells).len(),
        met_by(cells, runnable(cells), t, runnable(cells)[b]),
    ensures
        met_by(cells, runnable(cells), t, runnable(cells)[a]),
        t == 0 || !met_by(cells, runnable(cells), t - 1, runnable(cells)[a]) ==> runnable(cells)[a]
            < runnable(cells)[b],
{
    let first = joined_by(cells, Seq::empty(), 0, false);
    let r = runnable(cells);
    lemma_queue_starts(cells);
    lemma_joining(cells, Seq::empty(), 0, false, cells.len());
    lemma_joining_increases(cells, Seq::empty(), 0, false, cells.len());
    assert(first =~= joining(cells, Seq::empty(), 0, false, cells.len()));
    assert(in_turn(cells, first, 0, false)) by {
        assert forall|x: int, y: int, s: int|
            #![trigger first[x], first[y], first.take(s)]
            0 <= x < y < first.len() && 0 <= s <= 0 && ready(
                cells,
                first[y],
                first.take(s),
                false,
            ) implies ready(cells, first[x], first.take(s), false) && (s == 0 || !ready(
            cells,
            first[x],
            first.take(s - 1),
            false,
        ) ==> first[x] < first[y]) by {
            assert(first.take(0) =~= Seq::empty());
            assert(Seq::<int>::empty().take(0) =~= Seq::empty());
        }
    }
    lemma_queue_in_turn(cells, first, 0, false);
    lemma_met_by(cells, r, t, r[a]);
    lemma_met_by(cells, r, t, r[b]);
    if t > 0 {
        lemma_met_by(cells, r, t - 1, r[a]);
    }
    assert(r[a] == r[a] && r[b] == r[b] && r.take(t) == r.take(t));
}

/// A cell is runnable exactly if its dependencies are all met by runnable cells.
pub proof fn law_what_can_be_met_is_run_first(cells: Seq<Cell>, j: int)
    requires
        0 <= j < cells.len(),
    ensures
        runnable(cells).contains(j) <==> met_by(
            cells,
            runnable(cells),
            runnable(cells).len() as int,
            j,
        ),
{
    let r = runnable(cells);
    lemma_queue_resumes(cells);
    lemma_met_by(cells, r, r.len() as int, j);
    if r.contains(j) {
        let k = choose|k: int| 0 <= k < r.len() && r[k] == j;
        assert(ready(cells, r[k], r.take(r.len() as int), false));
    }
}

/// Cells on or behind a cycle come at the very end, in the order of the list.
pub proof fn law_the_rest_comes_in_the_order_of_the_list(cells: Seq<Cell>, a: int, b: int)
    requires
        placed(cells).len() <= a < b < run_order(cells).len(),
    ensures
        run_order(cells)[a] < run_order(cells)[b],
{
    lemma_missing_increases(placed(cells), cells.len());
    let m = missing_from(placed(cells), cells.len());
    let n = placed(cells).len() as int;
    assert(run_order(cells)[a] == m[a - n] && run_order(cells)[b] == m[b - n]);
}

proof fn lemma_missing_increases(order: Seq<int>, n: nat)
    ensures
        forall|a: int, b: int|
            0 <= a < b < missing_from(order, n).len() ==> (#[trigger] missing_from(order, n)[a]) < (
            #[trigger] missing_from(order, n)[b]),
    decreases n,
{
    if n > 0 {
        lemma_missing_increases(order, (n - 1) as nat);
        lemma_missing_from(order, (n - 1) as nat);
    }
}

/// A cell is placed before those exactly if each of its dependencies names no cell or
/// one that is placed.
pub proof fn law_only_a_cycle_keeps_a_cell_from_its_place(cells: Seq<Cell>, j: int)
    requires
        0 <= j < cells.len(),
    ensures
        placed(cells).contains(j) <==> forall|d: int|
            0 <= d < cells[j].depends_on@.len() ==> named_among(
                cells,
                placed(cells),
                placed(cells).len() as int,
                (#[trigger] cells[j].depends_on@[d])@,
            ) || forall|k: int|
                0 <= k < cells.len() ==> (#[trigger] cells[k]).cell_id@
                    != cells[j].depends_on@[d]@,
{
    let all = placed(cells);
    lemma_placed(cells);
    assert(all.take(all.len() as int) =~= all);
    assert forall|d: int| 0 <= d < cells[j].depends_on@.len() implies (satisfied(
        cells,
        (#[trigger] cells[j].depends_on@[d])@,
        all,
        true,
    ) <==> named_among(cells, all, all.len() as int, cells[j].depends_on@[d]@) || forall|k: int|
        0 <= k < cells.len() ==> (#[trigger] cells[k]).cell_id@ != cells[j].depends_on@[d]@) by {}
    if all.contains(j) {
        let k = choose|k: int| 0 <= k < all.len() && all[k] == j;
        assert(ready(cells, all[k], all.take(all.len() as int), true));
        assert forall|d: int| 0 <= d < cells[j].depends_on@.len() implies named_among(
            cells,
            all,
            all.len() as int,
            (#[trigger] cells[j].depends_on@[d])@,
        ) || forall|k: int|
            0 <= k < cells.len() ==> (#[trigger] cells[k]).cell_id@ != cells[j].depends_on@[d]@ by {
            assert(satisfied(cells, cells[j].depends_on@[d]@, all, true));
        }
    }
    if forall|d: int|
        0 <= d < cells[j].depends_on@.len() ==> named_among(
            cells,
            all,
            all.len() as int,
            (#[trigger] cells[j].depends_on@[d])@,
        ) || forall|k: int|
            0 <= k < cells.len() ==> (#[trigger] cells[k]).cell_id@ != cells[j].depends_on@[d]@ {
        assert forall|d: int| 0 <= d < cells[j].depends_on@.len() implies satisfied(
            cells,
            (#[trigger] cells[j].depends_on@[d])@,
            all,
            true,
        ) by {}
        assert(ready(cells, j, all, true));
    }
}

/// A dependency is on the last cell with its id, and on no other.
pub proof fn law_a_dependency_is_on_the_last_of_its_id(
    cells: Seq<Cell>,
    id: Seq<char>,
    i: int,
)
    ensures
        resolves_to(cells, id, i) <==> 0 <= i < cells.len() && cells[i].cell_id@ == id && forall|
            k: int,
        |
            i < k < cells.len() ==> (#[trigger] cells[k]).cell_id@ != id,
{
}

} // verus!
