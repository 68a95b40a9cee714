//! Model serving beneath the queue: which bindings are resident, how ready cells
//! are batched by binding, and the seam behind which a model is invoked.
use vstd::prelude::*;

use crate::decider::{one, outcome};
use crate::interface::{Cell, ModelBinding};
use crate::sorted::{increasing, StrSet};
use crate::text::{law_lines_end_at_line_feeds, lines, lines_of, lossy, lossy_text, same, texts};

verus! {

// ---------------------------------------------------------- the resident set

#[derive(Clone, Debug, PartialEq, Eq, Structural)]
pub enum BindingEvent {
    BindingLoaded,
    BindingEvicted,
}

#[derive(Clone, Debug, PartialEq, Eq, Structural)]
pub enum BindingCommand {
    /// `within_budget`: the binding fits into what memory is left.
    Load { within_budget: bool },
    Evict,
}

#[derive(Clone, Debug, PartialEq, Eq, Structural)]
pub struct ResidentState {
    pub resident: bool,
}

impl Default for ResidentState {
    fn default() -> (r: Self)
        ensures
            !r.resident,
    {
        ResidentState { resident: false }
    }
}

impl ResidentState {
    pub open spec fn evolved(self, e: BindingEvent) -> ResidentState {
        ResidentState { resident: e == BindingEvent::BindingLoaded }
    }

    pub open spec fn decided(self, c: BindingCommand) -> Result<Seq<BindingEvent>, Seq<char>> {
        match c {
            BindingCommand::Load { within_budget } => if within_budget {
                Ok(seq![BindingEvent::BindingLoaded])
            } else {
                Err("inv-vram-budget"@)
            },
            BindingCommand::Evict => if self.resident {
                Ok(seq![BindingEvent::BindingEvicted])
            } else {
                Err("inv-nothing-resident"@)
            },
        }
    }

    pub fn evolve(&mut self, e: &BindingEvent)
        ensures
            *final(self) == old(self).evolved(*e),
    {
        match e {
            BindingEvent::BindingLoaded => {
                self.resident = true;
            },
            BindingEvent::BindingEvicted => {
                self.resident = false;
            },
        }
    }

    /// A binding is loaded only within the budget, and only a resident one is evicted.
    pub fn decide(&self, c: &BindingCommand) -> (r: Result<Vec<BindingEvent>, &'static str>)
        ensures
            outcome(r) == self.decided(*c),
    {
        match c {
            BindingCommand::Load { within_budget } => {
                if *within_budget {
                    Ok(one(BindingEvent::BindingLoaded))
                } else {
                    Err("inv-vram-budget")
                }
            },
            BindingCommand::Evict => {
                if self.resident {
                    Ok(one(BindingEvent::BindingEvicted))
                } else {
                    Err("inv-nothing-resident")
                }
            },
        }
    }
}

// --------------------------------------------------------------------- a batch

#[derive(Clone, Copy, Debug, PartialEq, Eq, Structural)]
pub enum BatchPhase {
    New,
    Forming,
    Dispatched,
}

#[derive(Clone, Debug, PartialEq, Eq, Structural)]
pub enum BatchEvent {
    BatchFormed,
    BatchDispatched,
}

#[derive(Clone, Debug, PartialEq, Eq, Structural)]
pub enum BatchCommand {
    Form { homogeneous: bool, nonempty: bool },
    Dispatch,
}

#[derive(Clone, Debug, PartialEq, Eq, Structural)]
pub struct BatchState {
    pub phase: BatchPhase,
}

impl Default for BatchState {
    fn default() -> (r: Self)
        ensures
            r.phase == BatchPhase::New,
    {
        BatchState { phase: BatchPhase::New }
    }
}

impl BatchState {
    pub open spec fn evolved(self, e: BatchEvent) -> BatchState {
        match e {
            BatchEvent::BatchFormed => BatchState { phase: BatchPhase::Forming },
            BatchEvent::BatchDispatched => BatchState { phase: BatchPhase::Dispatched },
        }
    }

    pub open spec fn decided(self, c: BatchCommand) -> Result<Seq<BatchEvent>, Seq<char>> {
        match c {
            BatchCommand::Form { homogeneous, nonempty } => if !homogeneous {
                Err("inv-batch-homogeneous"@)
            } else if !nonempty {
                Err("inv-batch-empty"@)
            } else {
                Ok(seq![BatchEvent::BatchFormed])
            },
            BatchCommand::Dispatch => if self.phase == BatchPhase::Forming {
                Ok(seq![BatchEvent::BatchDispatched])
            } else {
                Err("inv-batch-not-formed"@)
            },
        }
    }

    pub fn evolve(&mut self, e: &BatchEvent)
        ensures
            *final(self) == old(self).evolved(*e),
    {
        match e {
            BatchEvent::BatchFormed => {
                self.phase = BatchPhase::Forming;
            },
            BatchEvent::BatchDispatched => {
                self.phase = BatchPhase::Dispatched;
            },
        }
    }

    /// A batch is formed of cells of one binding, at least one of them, and
    /// dispatched once formed.
    pub fn decide(&self, c: &BatchCommand) -> (r: Result<Vec<BatchEvent>, &'static str>)
        ensures
            outcome(r) == self.decided(*c),
    {
        match c {
            BatchCommand::Form { homogeneous, nonempty } => {
                if !*homogeneous {
                    return Err("inv-batch-homogeneous");
                }
                if !*nonempty {
                    return Err("inv-batch-empty");
                }
                Ok(one(BatchEvent::BatchFormed))
            },
            BatchCommand::Dispatch => {
                if self.phase == BatchPhase::Forming {
                    Ok(one(BatchEvent::BatchDispatched))
                } else {
                    Err("inv-batch-not-formed")
                }
            },
        }
    }
}

/// A batch is dispatched once: after its dispatch another is refused until a
/// batch is formed again.
pub proof fn law_a_batch_is_dispatched_once(s: BatchState)
    requires
        s.decided(BatchCommand::Dispatch) is Ok,
    ensures
        s.evolved(s.decided(BatchCommand::Dispatch)->Ok_0[0]).decided(BatchCommand::Dispatch)
            == Err::<Seq<BatchEvent>, Seq<char>>("inv-batch-not-formed"@),
{
}

/// A binding is evicted once: after its eviction another is refused until one is loaded.
pub proof fn law_a_binding_is_evicted_once(s: ResidentState)
    requires
        s.decided(BindingCommand::Evict) is Ok,
    ensures
        s.evolved(s.decided(BindingCommand::Evict)->Ok_0[0]).decided(BindingCommand::Evict)
            == Err::<Seq<BindingEvent>, Seq<char>>("inv-nothing-resident"@),
{
}

// ------------------------------------------------------------- the scheduler

/// The binding keys of some cells.
pub open spec fn cell_keys(cells: Seq<Cell>) -> Seq<Seq<char>> {
    cells.map_values(|c: Cell| c.binding.key_text())
}

/// The ids of the cells at the binding `key`, in order.
pub open spec fn ids_at(cells: Seq<Cell>, key: Seq<char>) -> Seq<Seq<char>>
    decreases cells.len(),
{
    if cells.len() == 0 {
        Seq::empty()
    } else if cells.last().binding.key_text() == key {
        ids_at(cells.drop_last(), key).push(cells.last().cell_id@)
    } else {
        ids_at(cells.drop_last(), key)
    }
}

/// Whether cell `i` is the first at its binding key.
pub open spec fn first_at_its_key(cells: Seq<Cell>, i: int) -> bool {
    &&& 0 <= i < cells.len()
    &&& forall|j: int|
        0 <= j < i ==> (#[trigger] cells[j]).binding.key_text() != cells[i].binding.key_text()
}

/// The batch at `key`: the binding of its first cell, and the ids of all its cells.
pub open spec fn batch_at(
    cells: Seq<Cell>,
    key: Seq<char>,
    batch: (ModelBinding, Vec<String>),
) -> bool {
    &&& exists|i: int|
        first_at_its_key(cells, i) && (#[trigger] cells[i]).binding.key_text() == key
            && batch.0.same_as(&cells[i].binding)
    &&& texts(batch.1@) == ids_at(cells, key)
}

/// The keys of the batches.
pub open spec fn batch_keys(batches: Seq<(ModelBinding, Vec<String>)>) -> Seq<Seq<char>> {
    batches.map_values(|b: (ModelBinding, Vec<String>)| b.0.key_text())
}

fn collect_batch(ready: &[Cell], key: &str) -> (r: Option<(ModelBinding, Vec<String>)>)
    ensures
        match r {
            Some(batch) => batch_at(ready@, key@, batch),
            None => !cell_keys(ready@).contains(key@),
        },
{
    let mut first: Option<usize> = None;
    let mut ids: Vec<String> = Vec::new();
    let mut i: usize = 0;
    while i < ready.len()
        invariant
            i <= ready@.len(),
            texts(ids@) == ids_at(ready@.take(i as int), key@),
            match first {
                Some(f) => f < i && first_at_its_key(ready@, f as int)
                    && ready@[f as int].binding.key_text() == key@,
                None => forall|j: int|
                    0 <= j < i ==> (#[trigger] ready@[j]).binding.key_text() != key@,
            },
        decreases ready@.len() - i,
    {
        let ghost next = ready@.take(i + 1);
        assert(next.drop_last() =~= ready@.take(i as int));
        assert(next.last() == ready@[i as int]);
        if same(ready[i].binding.key().as_str(), key) {
            let ghost before = ids@;
            ids.push(ready[i].cell_id.clone());
            assert(texts(ids@) =~= texts(before).push(ready@[i as int].cell_id@));
            if first.is_none() {
                first = Some(i);
            }
        }
        i += 1;
    }
    assert(ready@.take(i as int) =~= ready@);
    match first {
        Some(f) => Some((ready[f].binding.clone(), ids)),
        None => {
            proof {
                if cell_keys(ready@).contains(key@) {
                    let j = choose|j: int| 0 <= j < ready@.len() && cell_keys(ready@)[j] == key@;
                    assert(ready@[j].binding.key_text() == key@);
                }
            }
            None
        },
    }
}

fn keys_of(ready: &[Cell]) -> (r: StrSet)
    ensures
        r@ == cell_keys(ready@).to_set(),
{
    let mut keys: StrSet = StrSet::new();
    let mut i: usize = 0;
    while i < ready.len()
        invariant
            i <= ready@.len(),
            forall|k: Seq<char>|
                #![trigger keys@.contains(k)]
                keys@.contains(k) <==> exists|j: int|
                    0 <= j < i && (#[trigger] ready@[j]).binding.key_text() == k,
        decreases ready@.len() - i,
    {
        keys.insert(ready[i].binding.key());
        i += 1;
    }
    proof {
        assert forall|k: Seq<char>|
            #![trigger keys@.contains(k)]
            keys@.contains(k) <==> cell_keys(ready@).to_set().contains(k) by {
            if keys@.contains(k) {
                let j = choose|j: int|
                    0 <= j < i && (#[trigger] ready@[j]).binding.key_text() == k;
                assert(cell_keys(ready@)[j] == k);
            }
            if cell_keys(ready@).contains(k) {
                let j = choose|j: int| 0 <= j < ready@.len() && cell_keys(ready@)[j] == k;
                assert(ready@[j].binding.key_text() == k);
            }
        }
        assert(keys@ =~= cell_keys(ready@).to_set());
    }
    keys
}

/// Groups ready cells by the binding they need: one batch for each distinct
/// binding key, in increasing order of the keys, its cells in their order.
pub fn schedule_batches(ready: &[Cell]) -> (r: Vec<(ModelBinding, Vec<String>)>)
    ensures
        increasing(batch_keys(r@)),
        batch_keys(r@).to_set() == cell_keys(ready@).to_set(),
        forall|b: int|
            0 <= b < r@.len() ==> batch_at(ready@, batch_keys(r@)[b], #[trigger] r@[b]),
{
    let keys: StrSet = keys_of(ready);
    let n: usize = keys.len();
    let mut batches: Vec<(ModelBinding, Vec<String>)> = Vec::new();
    let mut i: usize = 0;
    while i < n
        invariant
            n == keys.listed().len(),
            i <= n,
            keys@ == cell_keys(ready@).to_set(),
            batches@.len() == i,
            forall|b: int|
                0 <= b < i ==> batch_at(ready@, keys.listed()[b], #[trigger] batches@[b])
                    && batches@[b].0.key_text() == keys.listed()[b],
        decreases n - i,
    {
        match collect_batch(ready, keys.item(i).as_str()) {
            Some(batch) => {
                batches.push(batch);
            },
            None => {
                proof {
                    let k = keys.listed()[i as int];
                    assert(keys.listed().contains(k));
                    assert(keys@.contains(k));
                    assert(cell_keys(ready@).to_set().contains(k));
                    assert(false);
                }
            },
        }
        i += 1;
    }
    proof {
        assert(batch_keys(batches@) =~= keys.listed());
    }
    batches
}

/// No batch is empty, and every ready cell is in the batch of its own binding.
pub proof fn law_every_ready_cell_is_in_the_batch_of_its_binding(
    cells: Seq<Cell>,
    batches: Seq<(ModelBinding, Vec<String>)>,
    i: int,
)
    requires
        increasing(batch_keys(batches)),
        batch_keys(batches).to_set() == cell_keys(cells).to_set(),
        forall|b: int|
            0 <= b < batches.len() ==> batch_at(
                cells,
                batch_keys(batches)[b],
                #[trigger] batches[b],
            ),
        0 <= i < cells.len(),
    ensures
        forall|b: int| 0 <= b < batches.len() ==> (#[trigger] batches[b]).1@.len() > 0,
        exists|b: int|
            0 <= b < batches.len() && (#[trigger] batches[b]).0.key_text()
                == cells[i].binding.key_text() && texts(batches[b].1@).contains(
                cells[i].cell_id@,
            ),
{
    let key = cells[i].binding.key_text();
    assert(cell_keys(cells)[i] == key);
    assert(cell_keys(cells).to_set().contains(key));
    assert(batch_keys(batches).to_set().contains(key));
    assert(batch_keys(batches).contains(key));
    let b = choose|b: int| 0 <= b < batches.len() && batch_keys(batches)[b] == key;
    assert(batches[b].0.key_text() == key);
    lemma_ids_at(cells, key, i);
    assert forall|b: int| 0 <= b < batches.len() implies (#[trigger] batches[b]).1@.len() > 0 by {
        let k = batch_keys(batches)[b];
        assert(batch_at(cells, k, batches[b]));
        let f = choose|f: int|
            first_at_its_key(cells, f) && (#[trigger] cells[f]).binding.key_text() == k
                && batches[b].0.same_as(&cells[f].binding);
        lemma_ids_at(cells, k, f);
        assert(texts(batches[b].1@).len() == batches[b].1@.len());
    }
}

proof fn lemma_ids_at(cells: Seq<Cell>, key: Seq<char>, i: int)
    requires
        0 <= i < cells.len(),
        cells[i].binding.key_text() == key,
    ensures
        ids_at(cells, key).contains(cells[i].cell_id@),
        ids_at(cells, key).len() > 0,
    decreases cells.len(),
{
    let rest = cells.drop_last();
    let id = cells[i].cell_id@;
    if i == cells.len() - 1 {
        let ids = ids_at(cells, key);
        assert(ids[ids.len() - 1] == id);
    } else {
        assert(rest[i] == cells[i]);
        lemma_ids_at(rest, key, i);
        let before = ids_at(rest, key);
        let k = choose|k: int| 0 <= k < before.len() && before[k] == id;
        assert(ids_at(cells, key)[k] == id);
    }
}

// ---------------------------------------------------------------- projections

/// How many bindings are resident.
#[derive(Clone, Debug, PartialEq, Eq, Structural)]
pub struct ResidencyView {
    pub resident: i64,
}

impl Default for ResidencyView {
    fn default() -> (r: Self)
        ensures
            r.resident == 0,
    {
        ResidencyView { resident: 0 }
    }
}

/// By how much an event changes the number of resident bindings.
pub open spec fn residency_change(e: BindingEvent) -> int {
    match e {
        BindingEvent::BindingLoaded => 1,
        BindingEvent::BindingEvicted => -1,
    }
}

impl ResidencyView {
    pub fn apply(&mut self, e: &BindingEvent)
        requires
            i64::MIN <= old(self).resident + residency_change(*e) <= i64::MAX,
        ensures
            final(self).resident == old(self).resident + residency_change(*e),
    {
        match e {
            BindingEvent::BindingLoaded => {
                self.resident += 1;
            },
            BindingEvent::BindingEvicted => {
                self.resident -= 1;
            },
        }
    }
}

/// How many batches were dispatched.
#[derive(Clone, Debug, PartialEq, Eq, Structural)]
pub struct BatchThroughputView {
    pub dispatched: i64,
}

impl Default for BatchThroughputView {
    fn default() -> (r: Self)
        ensures
            r.dispatched == 0,
    {
        BatchThroughputView { dispatched: 0 }
    }
}

impl BatchThroughputView {
    pub fn on_dispatched(&mut self)
        requires
            old(self).dispatched < i64::MAX,
        ensures
            final(self).dispatched == old(self).dispatched + 1,
    {
        self.dispatched += 1;
    }
}

// ---------------------------------------------------------------- the workers

/// The seam behind which a model is invoked on a frozen prompt.
pub trait Worker {
    fn invoke(&self, binding: &ModelBinding, prompt: &str) -> Result<String, String>;
}

/// The first line of a text, or the empty text.
pub open spec fn first_line(s: Seq<char>) -> Seq<char> {
    if lines(s).len() == 0 {
        Seq::empty()
    } else {
        lines(s)[0]
    }
}

/// The first line of a text, or the empty text.
pub fn first_line_of(s: &str) -> (r: String)
    ensures
        r@ == first_line(s@),
{
    let all: Vec<String> = lines_of(s);
    if all.len() == 0 {
        assert(texts(all@).len() == 0);
        String::new()
    } else {
        assert(texts(all@)[0] == all@[0]@);
        all[0].clone()
    }
}

/// A worker that needs no model: it answers with the first line of the prompt.
pub struct StubWorker;

impl Worker for StubWorker {
    fn invoke(&self, binding: &ModelBinding, prompt: &str) -> (r: Result<String, String>)
        ensures
            r matches Ok(text) && text@ == "// produced by "@ + binding.model@ + " for: "@
                + first_line(prompt@),
    {
        let mut text: String = "// produced by ".to_owned();
        text.append(binding.model.as_str());
        text.append(" for: ");
        text.append(first_line_of(prompt).as_str());
        Ok(text)
    }
}

/// A worker that hands the prompt to an external command on its standard input.
#[derive(Clone, Debug, PartialEq, Eq)]
pub struct CommandWorker {
    pub command: String,
}

impl CommandWorker {
    /// The answer, given how the command ended: its output as text if it
    /// succeeded, else the status it exited with.
    pub fn reply(&self, success: bool, stdout: &[u8], status: &str) -> (r: Result<String, String>)
        ensures
            match r {
                Ok(text) => success && text@ == lossy_text(stdout@),
                Err(e) => !success && e@ == "worker exited "@ + status@,
            },
    {
        if success {
            Ok(lossy(stdout))
        } else {
            let mut e: String = "worker exited ".to_owned();
            e.append(status);
            Err(e)
        }
    }
}

// ---------------------------------------------------------------------- laws

/// A binding is loaded only within the budget and evicted only while resident; a
/// batch is formed only of cells of one binding, at least one of them, and
/// dispatched only once formed.
pub proof fn law_serving_runs_by_its_rules(
    r: ResidentState,
    b: BatchState,
    fits: bool,
    homogeneous: bool,
    nonempty: bool,
)
    ensures
        match r.decided(BindingCommand::Load { within_budget: fits }) {
            Ok(events) => fits && events.len() == 1 && r.evolved(events[0]).resident,
            Err(rule) => !fits && rule == "inv-vram-budget"@,
        },
        match r.decided(BindingCommand::Evict) {
            Ok(events) => r.resident && events.len() == 1 && !r.evolved(events[0]).resident,
            Err(rule) => !r.resident && rule == "inv-nothing-resident"@,
        },
        match b.decided(BatchCommand::Form { homogeneous, nonempty }) {
            Ok(events) => homogeneous && nonempty && events.len() == 1 && b.evolved(
                events[0],
            ).phase == BatchPhase::Forming,
            Err(rule) => !homogeneous && rule == "inv-batch-homogeneous"@ || homogeneous
                && !nonempty && rule == "inv-batch-empty"@,
        },
        match b.decided(BatchCommand::Dispatch) {
            Ok(events) => b.phase == BatchPhase::Forming && events.len() == 1 && b.evolved(
                events[0],
            ).phase == BatchPhase::Dispatched,
            Err(rule) => b.phase != BatchPhase::Forming && rule == "inv-batch-not-formed"@,
        },
        residency_change(BindingEvent::BindingLoaded) == 1,
        residency_change(BindingEvent::BindingEvicted) == -1,
{
}

/// A batch takes the cells of its binding, in their order, and no others: adding a
/// cell adds its id to the batch at its key and changes no other.
pub proof fn law_a_batch_takes_the_cells_of_its_binding(cells: Seq<Cell>, c: Cell, key: Seq<char>)
    ensures
        ids_at(Seq::<Cell>::empty(), key) == Seq::<Seq<char>>::empty(),
        c.binding.key_text() == key ==> ids_at(cells.push(c), key) == ids_at(cells, key).push(
            c.cell_id@,
        ),
        c.binding.key_text() != key ==> ids_at(cells.push(c), key) == ids_at(cells, key),
        cell_keys(cells.push(c)) == cell_keys(cells).push(c.binding.key_text()),
{
    assert(cells.push(c).drop_last() =~= cells);
    assert(cell_keys(cells.push(c)) =~= cell_keys(cells).push(c.binding.key_text()));
}

/// A batch is served at the binding that its cells want, and holds the ids of all
/// cells at that key.
pub proof fn law_a_batch_is_served_at_the_binding_of_its_cells(
    cells: Seq<Cell>,
    key: Seq<char>,
    batch: (ModelBinding, Vec<String>),
)
    requires
        batch_at(cells, key, batch),
    ensures
        batch.0.key_text() == key,
        texts(batch.1@) == ids_at(cells, key),
        exists|i: int|
            {
                &&& 0 <= i < cells.len()
                &&& (#[trigger] cells[i]).binding.key_text() == key
                &&& batch.0.provider@ == cells[i].binding.provider@
                &&& batch.0.model@ == cells[i].binding.model@
                &&& batch.0.quantization@ == cells[i].binding.quantization@
                &&& batch.0.params.pairs() == cells[i].binding.params.pairs()
            },
{
}

/// The first line of a text is what stands before its first line feed.
pub proof fn law_the_first_line_ends_at_the_line_feed(line: Seq<char>, rest: Seq<char>)
    requires
        !line.contains('\n'),
        line.len() == 0 || line.last() != '\r',
    ensures
        first_line(line + seq!['\n'] + rest) == line,
        first_line(line + seq!['\r', '\n'] + rest) == line,
        first_line(line) == line,
{
    law_lines_end_at_line_feeds(line, rest);
    if line.len() == 0 {
        assert(line =~= Seq::empty());
    }
}

/// The batches are told apart by their keys, in order, and every key has its batch.
pub proof fn law_each_key_has_one_batch(
    cells: Seq<Cell>,
    batches: Seq<(ModelBinding, Vec<String>)>,
    a: int,
    b: int,
)
    requires
        increasing(batch_keys(batches)),
        batch_keys(batches).to_set() == cell_keys(cells).to_set(),
        0 <= a < b < batches.len(),
    ensures
        batches[a].0.key_text() != batches[b].0.key_text(),
        crate::text::lex_lt(batches[a].0.key_text(), batches[b].0.key_text()),
        exists|i: int|
            0 <= i < cells.len() && (#[trigger] cells[i]).binding.key_text()
                == batches[a].0.key_text(),
{
    let keys = batch_keys(batches);
    crate::sorted::law_increasing_is_in_strict_order(keys, a, b);
    assert(keys[a] == batches[a].0.key_text() && keys[b] == batches[b].0.key_text());
    assert(keys.contains(keys[a]));
    assert(keys.to_set().contains(keys[a]));
    assert(cell_keys(cells).contains(keys[a]));
    let i = choose|i: int| 0 <= i < cell_keys(cells).len() && cell_keys(cells)[i] == keys[a];
    assert(cells[i].binding.key_text() == keys[a]);
}

} // verus!
