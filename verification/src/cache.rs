//! A cache of memory in blocks.

use std::collections::HashMap;
use std::sync::Arc;

use vstd::cell::invcell::InvCell;
use vstd::predicate::Predicate;
use vstd::prelude::*;

use crate::mem::{copy_of, fill, read_bytes, Mem, MemError};

verus! {

/// The size of a block. Blocks begin at the multiples of it.
pub const BLOCK_SIZE: u64 = 0x10000;

/// The bytes of a block, or nothing where they could not be read.
pub type Block = Option<Arc<Vec<u8>>>;

/// What is known of a block.
pub enum BlockCell {
    /// It is being loaded.
    InFlight(usize),
    /// It was loaded.
    Ready(Block),
}

/// A block that is being loaded, and the tasks that wait for it.
pub struct Flight {
    pub base: u64,
    pub waiters: Vec<u64>,
}

/// What a task that asks for a block has to do.
pub enum Request {
    /// Load the block and hand it in under this ticket.
    Load(usize),
    /// Wait until the block is handed in under this ticket.
    Wait(usize),
    /// Take the block.
    Ready(Block),
}

/// Which blocks are loaded or being loaded.
#[verifier::ext_equal]
pub struct TableView {
    /// What is known of blocks, by where they begin.
    pub cells: Map<u64, BlockCell>,
    /// The loads by ticket: where the block begins, and who waits for it.
    pub flights: Seq<Option<(u64, Seq<u64>)>>,
}

/// The first ticket from `i` on that no load has.
pub open spec fn free_ticket(flights: Seq<Option<(u64, Seq<u64>)>>, i: int) -> int
    decreases flights.len() - i,
{
    if i < 0 || i >= flights.len() || flights[i] is None {
        i
    } else {
        free_ticket(flights, i + 1)
    }
}

impl TableView {
    /// Nothing is loaded.
    pub open spec fn nothing() -> TableView {
        TableView { cells: Map::empty(), flights: Seq::empty() }
    }

    /// Whether each block that is being loaded is so under its ticket.
    pub open spec fn wf(self) -> bool {
        forall|base: u64|
            #![trigger self.cells[base]]
            self.cells.dom().contains(base) ==> match self.cells[base] {
                BlockCell::InFlight(ticket) => ticket < self.flights.len()
                    && self.flights[ticket as int] is Some && (self.flights[ticket as int]->0).0
                    == base,
                BlockCell::Ready(_) => true,
            }
    }

    /// What a task that asks for a block has to do.
    pub open spec fn answer(self, base: u64) -> Request {
        if self.cells.dom().contains(base) {
            match self.cells[base] {
                BlockCell::InFlight(ticket) => Request::Wait(ticket),
                BlockCell::Ready(block) => Request::Ready(block),
            }
        } else {
            Request::Load(free_ticket(self.flights, 0) as usize)
        }
    }

    /// After a task asked for a block.
    pub open spec fn requested(self, base: u64, task: u64) -> TableView {
        match self.answer(base) {
            Request::Load(ticket) => TableView {
                cells: self.cells.insert(base, BlockCell::InFlight(ticket)),
                flights: if ticket < self.flights.len() {
                    self.flights.update(ticket as int, Some((base, Seq::empty())))
                } else {
                    self.flights.push(Some((base, Seq::empty())))
                },
            },
            Request::Wait(ticket) => TableView {
                cells: self.cells,
                flights: self.flights.update(
                    ticket as int,
                    Some((base, self.waiting(ticket).push(task))),
                ),
            },
            Request::Ready(_) => self,
        }
    }

    /// Who waits for what is loaded under that ticket.
    pub open spec fn waiting(self, ticket: usize) -> Seq<u64> {
        (self.flights[ticket as int]->0).1
    }

    /// Whether something is being loaded under that ticket.
    pub open spec fn loading(self, ticket: usize) -> bool {
        ticket < self.flights.len() && self.flights[ticket as int] is Some
    }

    /// After a block was handed in. It is kept unless what was known of it was forgotten
    /// meanwhile.
    pub open spec fn published(self, ticket: usize, block: Block) -> TableView {
        if !self.loading(ticket) {
            self
        } else {
            let base = (self.flights[ticket as int]->0).0;
            TableView {
                cells: if self.cells.dom().contains(base) && self.cells[base]
                    == BlockCell::InFlight(ticket) {
                    self.cells.insert(base, BlockCell::Ready(block))
                } else {
                    self.cells
                },
                flights: self.flights.update(ticket as int, None),
            }
        }
    }

    /// After the blocks from `first` to `last` were forgotten.
    pub open spec fn invalidated(self, first: u64, last: u64) -> TableView {
        TableView {
            cells: Map::new(
                |base: u64|
                    self.cells.dom().contains(base) && !(first <= base <= last && base % BLOCK_SIZE
                        == 0),
                |base: u64| self.cells[base],
            ),
            flights: self.flights,
        }
    }

    /// After `len` bytes at `address` were written: the blocks that they lie in are forgotten.
    pub open spec fn written(self, address: u64, len: nat) -> TableView {
        if len == 0 {
            self
        } else {
            self.invalidated(
                block_base(address as int) as u64,
                block_base(address + len - 1) as u64,
            )
        }
    }

    /// Whether no block is being loaded.
    pub open spec fn settled(self) -> bool {
        forall|base: u64|
            #![trigger self.cells[base]]
            self.cells.dom().contains(base) ==> self.cells[base] is Ready
    }

    /// After all blocks were forgotten.
    pub open spec fn cleared(self) -> TableView {
        TableView { cells: Map::empty(), flights: self.flights }
    }
}

/// What can happen to the table of blocks.
pub enum TableEvent {
    Request { base: u64, task: u64 },
    Publish { ticket: usize, block: Block },
    Invalidate { first: u64, last: u64 },
    Clear,
}

/// The table after something happened.
pub open spec fn after_event(table: TableView, event: TableEvent) -> TableView {
    match event {
        TableEvent::Request { base, task } => table.requested(base, task),
        TableEvent::Publish { ticket, block } => table.published(ticket, block),
        TableEvent::Invalidate { first, last } => table.invalidated(first, last),
        TableEvent::Clear => table.cleared(),
    }
}

/// The table after many things happened.
pub open spec fn after_events(table: TableView, events: Seq<TableEvent>) -> TableView
    decreases events.len(),
{
    if events.len() == 0 {
        table
    } else {
        after_event(after_events(table, events.drop_last()), events.last())
    }
}

/// Whether something makes the table forget a block.
pub open spec fn forgets(event: TableEvent, base: u64) -> bool {
    match event {
        TableEvent::Invalidate { first, last } => first <= base <= last && base % BLOCK_SIZE == 0,
        TableEvent::Clear => true,
        _ => false,
    }
}

/// A block is loaded once, however many tasks ask for it: once one of them was told to load it,
/// none is told so again until the block is forgotten, whatever else happens meanwhile.
pub proof fn block_is_loaded_once(table: TableView, base: u64, task: u64, events: Seq<TableEvent>)
    requires
        forall|i: int| 0 <= i < events.len() ==> !forgets(#[trigger] events[i], base),
    ensures
        !(after_events(table.requested(base, task), events).answer(base) is Load),
    decreases events.len(),
{
    if events.len() > 0 {
        block_is_loaded_once(table, base, task, events.drop_last());
        assert(!forgets(events[events.len() - 1], base));
        assert forall|i: int| 0 <= i < events.drop_last().len() implies !forgets(
            #[trigger] events.drop_last()[i],
            base,
        ) by {
            assert(!forgets(events[i], base));
        }
    }
}

/// Whether a block is being loaded under a ticket.
pub open spec fn in_flight(table: TableView, base: u64, ticket: usize) -> bool {
    &&& table.cells.dom().contains(base)
    &&& table.cells[base] == BlockCell::InFlight(ticket)
    &&& table.loading(ticket)
    &&& (table.flights[ticket as int]->0).0 == base
}

/// Whether something neither makes the table forget a block nor hands in what is loaded under a
/// ticket.
pub open spec fn leaves_alone(event: TableEvent, base: u64, ticket: usize) -> bool {
    &&& !forgets(event, base)
    &&& match event {
        TableEvent::Publish { ticket: t, .. } => t != ticket,
        _ => true,
    }
}

proof fn lemma_stays_in_flight(
    table: TableView,
    base: u64,
    ticket: usize,
    events: Seq<TableEvent>,
)
    requires
        table.wf(),
        in_flight(table, base, ticket),
        table.flights.len() + events.len() <= usize::MAX,
        forall|i: int| 0 <= i < events.len() ==> leaves_alone(#[trigger] events[i], base, ticket),
    ensures
        after_events(table, events).wf(),
        after_events(table, events).flights.len() <= table.flights.len() + events.len(),
        in_flight(after_events(table, events), base, ticket),
    decreases events.len(),
{
    if events.len() > 0 {
        let rest = events.drop_last();
        assert forall|i: int| 0 <= i < rest.len() implies leaves_alone(
            #[trigger] rest[i],
            base,
            ticket,
        ) by {
            assert(leaves_alone(events[i], base, ticket));
        }
        lemma_stays_in_flight(table, base, ticket, rest);
        let now = after_events(table, rest);
        let next = after_events(table, events);
        assert(leaves_alone(events[events.len() - 1], base, ticket));
        lemma_free_ticket(now.flights, 0);
        assert forall|b: u64|
            #![trigger next.cells[b]]
            next.cells.dom().contains(b) implies match next.cells[b] {
            BlockCell::InFlight(t) => t < next.flights.len() && next.flights[t as int] is Some
                && (next.flights[t as int]->0).0 == b,
            BlockCell::Ready(_) => true,
        } by {
            if now.cells.dom().contains(b) {
                assert(now.cells[b] is Ready || now.cells[b] is InFlight);
            }
        }
        if let TableEvent::Request { base: other, task } = events.last() {
            if now.cells.dom().contains(other) {
                assert(now.cells[other] is Ready || now.cells[other] is InFlight);
            }
        }
    }
}

proof fn lemma_stays_ready(table: TableView, base: u64, block: Block, events: Seq<TableEvent>)
    requires
        table.cells.dom().contains(base),
        table.cells[base] == BlockCell::Ready(block),
        forall|i: int| 0 <= i < events.len() ==> !forgets(#[trigger] events[i], base),
    ensures
        after_events(table, events).cells.dom().contains(base),
        after_events(table, events).cells[base] == BlockCell::Ready(block),
    decreases events.len(),
{
    if events.len() > 0 {
        let rest = events.drop_last();
        assert forall|i: int| 0 <= i < rest.len() implies !forgets(#[trigger] rest[i], base) by {
            assert(!forgets(events[i], base));
        }
        lemma_stays_ready(table, base, block, rest);
        assert(!forgets(events[events.len() - 1], base));
    }
}

/// A block that was forgotten while it was loaded is not kept: handing it in changes nothing that
/// is known of blocks.
pub proof fn forgotten_loads_are_not_kept(
    table: TableView,
    base: u64,
    ticket: usize,
    block: Block,
)
    requires
        table.loading(ticket),
        (table.flights[ticket as int]->0).0 == base,
        table.answer(base) != Request::Wait(ticket),
    ensures
        table.published(ticket, block).cells == table.cells,
        !table.published(ticket, block).loading(ticket),
{
}

/// A task that is told to wait is not lost: it is among those who wait until what it waits for is
/// handed in, whatever else happens, be the block forgotten meanwhile.
pub proof fn who_waits_is_remembered(
    table: TableView,
    base: u64,
    task: u64,
    ticket: usize,
    events: Seq<TableEvent>,
)
    requires
        table.wf(),
        table.answer(base) == Request::Wait(ticket),
        table.flights.len() + events.len() <= usize::MAX,
        forall|i: int|
            0 <= i < events.len() ==> (#[trigger] events[i] matches TableEvent::Publish {
                ticket: t,
                ..
            } ==> t != ticket),
    ensures
        ({
            let later = after_events(table.requested(base, task), events);
            later.loading(ticket) && later.waiting(ticket).contains(task)
        }),
{
    assert(table.cells[base] == BlockCell::InFlight(ticket));
    let asked = table.requested(base, task);
    assert(asked.waiting(ticket).last() == task);
    assert(asked.waiting(ticket).contains(task));
    assert forall|b: u64|
        #![trigger asked.cells[b]]
        asked.cells.dom().contains(b) implies match asked.cells[b] {
        BlockCell::InFlight(t) => t < asked.flights.len() && asked.flights[t as int] is Some && (
        asked.flights[t as int]->0).0 == b,
        BlockCell::Ready(_) => true,
    } by {
        assert(table.cells[b] is Ready || table.cells[b] is InFlight);
    }
    lemma_waiting_stays(asked, ticket, task, events);
}

proof fn lemma_waiting_stays(
    table: TableView,
    ticket: usize,
    task: u64,
    events: Seq<TableEvent>,
)
    requires
        table.wf(),
        table.loading(ticket),
        table.waiting(ticket).contains(task),
        table.flights.len() + events.len() <= usize::MAX,
        forall|i: int|
            0 <= i < events.len() ==> (#[trigger] events[i] matches TableEvent::Publish {
                ticket: t,
                ..
            } ==> t != ticket),
    ensures
        after_events(table, events).wf(),
        after_events(table, events).flights.len() <= table.flights.len() + events.len(),
        after_events(table, events).loading(ticket),
        after_events(table, events).waiting(ticket).contains(task),
    decreases events.len(),
{
    if events.len() > 0 {
        let rest = events.drop_last();
        assert forall|i: int|
            0 <= i < rest.len() implies (#[trigger] rest[i] matches TableEvent::Publish {
            ticket: t,
            ..
        } ==> t != ticket) by {
            assert(rest[i] == events[i]);
        }
        lemma_waiting_stays(table, ticket, task, rest);
        let now = after_events(table, rest);
        let next = after_events(table, events);
        assert(events[events.len() - 1] == events.last());
        lemma_free_ticket(now.flights, 0);
        assert forall|b: u64|
            #![trigger next.cells[b]]
            next.cells.dom().contains(b) implies match next.cells[b] {
            BlockCell::InFlight(t) => t < next.flights.len() && next.flights[t as int] is Some
                && (next.flights[t as int]->0).0 == b,
            BlockCell::Ready(_) => true,
        } by {
            if now.cells.dom().contains(b) {
                assert(now.cells[b] is Ready || now.cells[b] is InFlight);
            }
        }
        if let TableEvent::Request { base: other, task: asking } = events.last() {
            if now.cells.dom().contains(other) {
                assert(now.cells[other] is Ready || now.cells[other] is InFlight);
                if now.cells[other] == BlockCell::InFlight(ticket) {
                    let w = now.waiting(ticket);
                    let k = choose|k: int| 0 <= k < w.len() && w[k] == task;
                    assert(next.waiting(ticket)[k] == task);
                }
            }
        }
    }
}

/// All tasks that ask for a block get one outcome. A task that is told to load it is the only one:
/// until it hands the block in, whatever happens meanwhile, all others are told to wait for that,
/// and from then on all get the block that was handed in, a failed one too, until it is forgotten.
pub proof fn all_tasks_get_one_outcome(
    table: TableView,
    base: u64,
    task: u64,
    ticket: usize,
    meanwhile: Seq<TableEvent>,
    block: Block,
    later: Seq<TableEvent>,
)
    requires
        table.wf(),
        table.answer(base) == Request::Load(ticket),
        table.flights.len() + meanwhile.len() < usize::MAX,
        forall|i: int|
            0 <= i < meanwhile.len() ==> leaves_alone(#[trigger] meanwhile[i], base, ticket),
        forall|i: int| 0 <= i < later.len() ==> !forgets(#[trigger] later[i], base),
    ensures
        ({
            let loading = after_events(table.requested(base, task), meanwhile);
            &&& loading.answer(base) == Request::Wait(ticket)
            &&& after_events(loading.published(ticket, block), later).answer(base)
                == Request::Ready(block)
        }),
{
    lemma_free_ticket(table.flights, 0);
    let asked = table.requested(base, task);
    assert(in_flight(asked, base, ticket));
    assert forall|b: u64|
        #![trigger asked.cells[b]]
        asked.cells.dom().contains(b) implies match asked.cells[b] {
        BlockCell::InFlight(t) => t < asked.flights.len() && asked.flights[t as int] is Some && (
        asked.flights[t as int]->0).0 == b,
        BlockCell::Ready(_) => true,
    } by {
        if table.cells.dom().contains(b) {
            assert(table.cells[b] is Ready || table.cells[b] is InFlight);
        }
    }
    lemma_stays_in_flight(asked, base, ticket, meanwhile);
    let loading = after_events(asked, meanwhile);
    lemma_stays_ready(loading.published(ticket, block), base, block, later);
}

proof fn lemma_free_ticket(flights: Seq<Option<(u64, Seq<u64>)>>, i: int)
    requires
        0 <= i <= flights.len(),
    ensures
        i <= free_ticket(flights, i) <= flights.len(),
        free_ticket(flights, i) < flights.len() ==> flights[free_ticket(flights, i)] is None,
    decreases flights.len() - i,
{
    if i < flights.len() && flights[i] is Some {
        lemma_free_ticket(flights, i + 1);
    }
}

/// Which blocks are loaded or being loaded.
pub struct BlockTable {
    cells: HashMap<u64, BlockCell>,
    flights: Vec<Option<Flight>>,
}

/// A load with its waiting tasks as a sequence.
pub open spec fn flight_view(f: Option<Flight>) -> Option<(u64, Seq<u64>)> {
    match f {
        Some(f) => Some((f.base, f.waiters@)),
        None => None,
    }
}

impl View for BlockTable {
    type V = TableView;

    closed spec fn view(&self) -> TableView {
        TableView {
            cells: self.cells@,
            flights: self.flights@.map_values(|f: Option<Flight>| flight_view(f)),
        }
    }
}

fn same_block(block: &Block) -> (r: Block)
    ensures
        r == *block,
{
    match block {
        Some(data) => Some(data.clone()),
        None => None,
    }
}

impl BlockTable {
    /// Nothing is loaded.
    pub fn new() -> (r: Self)
        ensures
            r@ == TableView::nothing(),
            r@.wf(),
    {
        let r = BlockTable { cells: HashMap::new(), flights: Vec::new() };
        assert(r@.flights =~= Seq::<Option<(u64, Seq<u64>)>>::empty());
        r
    }

    /// Asks for a block.
    pub fn request(&mut self, base: u64, task: u64) -> (r: Request)
        requires
            old(self)@.wf(),
        ensures
            r == old(self)@.answer(base),
            final(self)@ == old(self)@.requested(base, task),
            final(self)@.wf(),
            r matches Request::Load(ticket) ==> final(self)@.loading(ticket),
    {
        let known = match self.cells.get(&base) {
            Some(BlockCell::Ready(block)) => {
                return Request::Ready(same_block(block));
            },
            Some(BlockCell::InFlight(ticket)) => Some(*ticket),
            None => None,
        };
        if let Some(ticket) = known {
            assert(old(self)@.cells[base] == BlockCell::InFlight(ticket));
            assert(self@.flights[ticket as int] == flight_view(self.flights@[ticket as int]));
            if let Some(flight) = &mut self.flights[ticket] {
                flight.waiters.push(task);
            }
            assert(self@.flights =~= old(self)@.requested(base, task).flights);
            return Request::Wait(ticket);
        }
        let mut ticket: usize = 0;
        while ticket < self.flights.len() && self.flights[ticket].is_some()
            invariant
                self@ == old(self)@,
                ticket <= self.flights@.len(),
                free_ticket(self@.flights, 0) == free_ticket(self@.flights, ticket as int),
            decreases self.flights@.len() - ticket,
        {
            assert(self@.flights[ticket as int] == flight_view(self.flights@[ticket as int]));
            ticket = ticket + 1;
        }
        proof {
            lemma_free_ticket(self@.flights, 0);
            if ticket < self.flights@.len() {
                assert(self@.flights[ticket as int] == flight_view(self.flights@[ticket as int]));
            }
            assert(ticket == free_ticket(self@.flights, 0));
        }
        let flight = Flight { base, waiters: Vec::new() };
        assert(flight.waiters@ =~= Seq::<u64>::empty());
        if ticket < self.flights.len() {
            self.flights.set(ticket, Some(flight));
        } else {
            self.flights.push(Some(flight));
        }
        self.cells.insert(base, BlockCell::InFlight(ticket));
        proof {
            assert(self@.flights =~= old(self)@.requested(base, task).flights);
            assert(self@.cells =~= old(self)@.requested(base, task).cells);
            assert(self@.flights[ticket as int] == flight_view(self.flights@[ticket as int]));
        }
        Request::Load(ticket)
    }

    /// Hands in what was loaded under a ticket, and returns who waits for it.
    pub fn publish(&mut self, ticket: usize, block: Block) -> (r: Vec<u64>)
        requires
            old(self)@.wf(),
            old(self)@.loading(ticket),
        ensures
            r@ == old(self)@.waiting(ticket),
            final(self)@ == old(self)@.published(ticket, block),
            final(self)@.wf(),
    {
        assert(self@.flights[ticket as int] == flight_view(self.flights@[ticket as int]));
        let mut taken: Option<Flight> = None;
        std::mem::swap(&mut taken, &mut self.flights[ticket]);
        match taken {
            Some(flight) => {
                let current = match self.cells.get(&flight.base) {
                    Some(BlockCell::InFlight(t)) => *t == ticket,
                    _ => false,
                };
                if current {
                    self.cells.insert(flight.base, BlockCell::Ready(block));
                }
                proof {
                    assert(self@.flights =~= old(self)@.published(ticket, block).flights);
                    assert(self@.cells =~= old(self)@.published(ticket, block).cells);
                }
                flight.waiters
            },
            None => vstd::pervasive::unreached(),
        }
    }

    /// Forgets the blocks from the one that begins at `first` to the one that begins at `last`.
    pub fn invalidate(&mut self, first: u64, last: u64)
        requires
            old(self)@.wf(),
            first % BLOCK_SIZE == 0,
            last % BLOCK_SIZE == 0,
            first <= last,
        ensures
            final(self)@ == old(self)@.invalidated(first, last),
            final(self)@.wf(),
    {
        let mut base: u64 = first;
        loop
            invariant_except_break
                self.cells@ =~= Map::new(
                    |b: u64|
                        old(self)@.cells.dom().contains(b) && !(first <= b < base && b % BLOCK_SIZE
                            == 0),
                    |b: u64| old(self)@.cells[b],
                ),
            invariant
                first <= base <= last,
                base % BLOCK_SIZE == 0,
                last % BLOCK_SIZE == 0,
                self.flights == old(self).flights,
            ensures
                self.cells@ =~= old(self)@.invalidated(first, last).cells,
            decreases last - base,
        {
            self.cells.remove(&base);
            if base == last {
                break;
            }
            assert(last - base >= BLOCK_SIZE) by (nonlinear_arith)
                requires
                    base < last,
                    base % BLOCK_SIZE == 0,
                    last % BLOCK_SIZE == 0,
            ;
            base = base + BLOCK_SIZE;
        }
        proof {
            assert(self@.cells =~= old(self)@.invalidated(first, last).cells);
            assert forall|b: u64|
                #![trigger self@.cells[b]]
                self@.cells.dom().contains(b) implies self@.cells[b] == old(self)@.cells[b] by {}
        }
    }

    /// Forgets all blocks.
    pub fn clear(&mut self)
        ensures
            final(self)@ == old(self)@.cleared(),
            final(self)@.wf(),
    {
        self.cells.clear();
    }
}

/// Where the block of an address begins.
pub open spec fn block_base(address: int) -> int {
    address - address % (BLOCK_SIZE as int)
}

/// How many of `len` bytes at `address` lie in the block of `address`.
pub open spec fn chunk_len(address: int, len: nat) -> nat {
    let rest = BLOCK_SIZE - address % (BLOCK_SIZE as int);
    if len <= rest {
        len
    } else {
        rest as nat
    }
}

/// Whether a read of `n` bytes that lie in one block may give `answer`: those bytes of the block,
/// or, where the block cannot be read, what a read of just those bytes gives.
pub open spec fn may_answer_chunk<M: Mem>(
    inner: M,
    address: int,
    n: nat,
    answer: Result<Seq<u8>, MemError>,
) -> bool {
    let base = block_base(address);
    ||| exists|block: Seq<u8>| #[trigger]
        inner.may_answer(base as u64, BLOCK_SIZE as nat, Ok(block)) && block.len() == BLOCK_SIZE
            && answer == Ok::<Seq<u8>, MemError>(
            block.subrange(address - base, address - base + n),
        )
    ||| inner.may_answer(address as u64, n, answer) && answer_fits(answer, n) && exists|e: MemError|
        #[trigger] inner.may_answer(base as u64, BLOCK_SIZE as nat, Err(e))
}

/// Whether an answer has as many bytes as were asked for.
pub open spec fn answer_fits(answer: Result<Seq<u8>, MemError>, n: nat) -> bool {
    answer matches Ok(bytes) ==> bytes.len() == n
}

/// An answer with bytes in front of it.
pub open spec fn prepend(head: Seq<u8>, tail: Result<Seq<u8>, MemError>) -> Result<
    Seq<u8>,
    MemError,
> {
    match tail {
        Ok(bytes) => Ok(head + bytes),
        Err(e) => Err(e),
    }
}

/// Whether a read of `n` bytes that lie in one block may give `answer` past a table of blocks:
/// those bytes of the block that the table holds, or what the memory behind it gives.
pub open spec fn chunk_through<M: Mem>(
    inner: M,
    table: TableView,
    address: int,
    n: nat,
    answer: Result<Seq<u8>, MemError>,
) -> bool {
    let base = block_base(address);
    match table.answer(base as u64) {
        Request::Ready(Some(data)) => answer == Ok::<Seq<u8>, MemError>(
            data@.subrange(address - base, address - base + n),
        ),
        Request::Ready(None) => inner.may_answer(address as u64, n, answer) && answer_fits(
            answer,
            n,
        ),
        Request::Load(_) => may_answer_chunk(inner, address, n, answer),
        Request::Wait(_) => false,
    }
}

/// Whether a read of `len` bytes past a table of blocks may give `answer`: block by block, up to
/// the first part that cannot be read.
pub open spec fn through<M: Mem>(
    inner: M,
    table: TableView,
    address: int,
    len: nat,
    answer: Result<Seq<u8>, MemError>,
) -> bool
    decreases len,
{
    if len == 0 {
        answer == Ok::<Seq<u8>, MemError>(Seq::empty())
    } else {
        let n = chunk_len(address, len);
        ||| answer is Err && chunk_through(inner, table, address, n, answer)
        ||| exists|head: Seq<u8>, tail: Result<Seq<u8>, MemError>|
            #![trigger prepend(head, tail)]
            chunk_through(inner, table, address, n, Ok(head)) && through(
                inner,
                table,
                address + n,
                (len - n) as nat,
                tail,
            ) && answer == prepend(head, tail)
    }
}

/// Whether a read of `len` bytes through a cache may give `answer`, whatever the cache holds.
pub open spec fn may_answer_from<M: Mem>(
    inner: M,
    address: int,
    len: nat,
    answer: Result<Seq<u8>, MemError>,
) -> bool {
    through(inner, TableView::nothing(), address, len, answer)
}

/// Whether all blocks of a table are as `inner` gives them.
pub open spec fn plausible_table<M: Mem>(inner: M, table: TableView) -> bool {
    forall|base: u64|
        #![trigger table.cells[base]]
        table.cells.dom().contains(base) ==> match table.cells[base] {
            BlockCell::InFlight(_) => false,
            BlockCell::Ready(block) => plausible(inner, base, block),
        }
}

proof fn lemma_chunk_plausible<M: Mem>(
    inner: M,
    table: TableView,
    address: int,
    n: nat,
    answer: Result<Seq<u8>, MemError>,
)
    requires
        plausible_table(inner, table),
        chunk_through(inner, table, address, n, answer),
    ensures
        chunk_through(inner, TableView::nothing(), address, n, answer),
{
    let base = block_base(address) as u64;
    if table.cells.dom().contains(base) {
        assert(table.cells[base] is Ready);
    }
}

proof fn lemma_plausible<M: Mem>(
    inner: M,
    table: TableView,
    address: int,
    len: nat,
    answer: Result<Seq<u8>, MemError>,
)
    requires
        plausible_table(inner, table),
        through(inner, table, address, len, answer),
    ensures
        may_answer_from(inner, address, len, answer),
    decreases len,
{
    if len > 0 {
        let n = chunk_len(address, len);
        if answer is Err && chunk_through(inner, table, address, n, answer) {
            lemma_chunk_plausible(inner, table, address, n, answer);
        } else {
            let (head, tail) = choose|head: Seq<u8>, tail: Result<Seq<u8>, MemError>|
                #![trigger prepend(head, tail)]
                chunk_through(inner, table, address, n, Ok(head)) && through(
                    inner,
                    table,
                    address + n,
                    (len - n) as nat,
                    tail,
                ) && answer == prepend(head, tail);
            lemma_chunk_plausible(inner, table, address, n, Ok(head));
            if n > 0 {
                lemma_plausible(inner, table, address + n, (len - n) as nat, tail);
            }
        }
    }
}

/// Whether a read through a cache that failed `from` bytes in leaves `after` of `before`: the bytes
/// up to there are filled in, and nothing is changed behind the block in which it failed.
pub open spec fn stopped_at<M: Mem>(
    inner: M,
    address: int,
    before: Seq<u8>,
    after: Seq<u8>,
    from: nat,
) -> bool {
    let n = chunk_len(address + from, (before.len() - from) as nat);
    &&& from < before.len()
    &&& from == 0 || (address + from) % (BLOCK_SIZE as int) == 0
    &&& may_answer_from(inner, address, from, Ok(after.take(from as int)))
    &&& forall|k: int| from + n <= k < before.len() ==> #[trigger] after[k] == before[k]
}

/// Whether a read through a cache that failed may leave `after` of `before`.
pub open spec fn stopped<M: Mem>(
    inner: M,
    address: int,
    before: Seq<u8>,
    after: Seq<u8>,
) -> bool {
    exists|from: nat| #[trigger] stopped_at(inner, address, before, after, from)
}

proof fn lemma_append_chunk<M: Mem>(
    inner: M,
    table: TableView,
    address: int,
    len: nat,
    head: Seq<u8>,
    n: nat,
    part: Seq<u8>,
)
    requires
        0 <= address,
        through(inner, table, address, len, Ok(head)),
        len == 0 || (address + len) % (BLOCK_SIZE as int) == 0,
        chunk_through(inner, table, address + len, n, Ok(part)),
        0 < n <= BLOCK_SIZE - (address + len) % (BLOCK_SIZE as int),
    ensures
        through(inner, table, address, len + n, Ok(head + part)),
    decreases len,
{
    let none = Ok::<Seq<u8>, MemError>(Seq::empty());
    if len == 0 {
        assert(through(inner, table, address + n, 0, none));
        assert(prepend(part, none) == Ok::<Seq<u8>, MemError>(part + Seq::empty()));
        assert(part + Seq::empty() =~= part);
        assert(head + part =~= part);
        assert(chunk_len(address, n) == n);
    } else {
        let m = chunk_len(address, len);
        let (first, tail) = choose|first: Seq<u8>, tail: Result<Seq<u8>, MemError>|
            #![trigger prepend(first, tail)]
            chunk_through(inner, table, address, m, Ok(first)) && through(
                inner,
                table,
                address + m,
                (len - m) as nat,
                tail,
            ) && Ok::<Seq<u8>, MemError>(head) == prepend(first, tail);
        let rest = tail->Ok_0;
        assert(chunk_len(address, len + n) == m);
        lemma_append_chunk(inner, table, address + m, (len - m) as nat, rest, n, part);
        assert(first + (rest + part) =~= head + part);
        assert(prepend(first, Ok(rest + part)) == Ok::<Seq<u8>, MemError>(head + part));
    }
}

proof fn lemma_append_error<M: Mem>(
    inner: M,
    table: TableView,
    address: int,
    len: nat,
    head: Seq<u8>,
    total: nat,
    e: MemError,
)
    requires
        0 <= address,
        len < total,
        through(inner, table, address, len, Ok(head)),
        len == 0 || (address + len) % (BLOCK_SIZE as int) == 0,
        chunk_through(
            inner,
            table,
            address + len,
            chunk_len(address + len, (total - len) as nat),
            Err(e),
        ),
    ensures
        through(inner, table, address, total, Err(e)),
    decreases len,
{
    if len > 0 {
        let m = chunk_len(address, len);
        let (first, tail) = choose|first: Seq<u8>, tail: Result<Seq<u8>, MemError>|
            #![trigger prepend(first, tail)]
            chunk_through(inner, table, address, m, Ok(first)) && through(
                inner,
                table,
                address + m,
                (len - m) as nat,
                tail,
            ) && Ok::<Seq<u8>, MemError>(head) == prepend(first, tail);
        assert(chunk_len(address, total) == m);
        lemma_append_error(
            inner,
            table,
            address + m,
            (len - m) as nat,
            tail->Ok_0,
            (total - m) as nat,
            e,
        );
        assert(prepend(first, Err(e)) == Err::<Seq<u8>, MemError>(e));
    }
}

/// Whether some of `len` bytes at `address` lie in the block that begins at `base`.
pub open spec fn touches(address: int, len: nat, base: int) -> bool {
    &&& len > 0
    &&& 0 <= base
    &&& base % (BLOCK_SIZE as int) == 0
    &&& base < address + len
    &&& address < base + BLOCK_SIZE
}

/// The first of `len` bytes at `address` that lies in the block that begins at `base`.
pub open spec fn touched_from(address: int, base: int) -> int {
    if base <= address {
        address
    } else {
        base
    }
}

/// The byte behind the last of `len` bytes at `address` that lies in the block that begins at
/// `base`.
pub open spec fn touched_to(address: int, len: nat, base: int) -> int {
    if address + len <= base + BLOCK_SIZE {
        address + len
    } else {
        base + BLOCK_SIZE
    }
}

/// Whether the memory behind a cache may be asked for the block that begins at `base`, and for the
/// bytes in it that are read.
pub open spec fn admits_block<M: Mem>(inner: M, address: int, len: nat, base: int) -> bool {
    let from = touched_from(address, base);
    &&& inner.admits(base as u64, BLOCK_SIZE as nat)
    &&& inner.admits(from as u64, (touched_to(address, len, base) - from) as nat)
}

/// Whether the memory behind a cache may be asked for all that a read through the cache may ask of
/// it.
pub open spec fn admits_blocks<M: Mem>(inner: M, address: int, len: nat) -> bool {
    forall|base: int| #[trigger]
        touches(address, len, base) ==> admits_block(inner, address, len, base)
}

/// What a cache of `inner` may hold: blocks as `inner` gives them.
pub struct Plausible<M> {
    pub inner: M,
}

impl<M: Mem> Predicate<BlockTable> for Plausible<M> {
    open spec fn predicate(&self, table: BlockTable) -> bool {
        table@.wf() && plausible_table(self.inner, table@)
    }
}

/// Whether a block is as `inner` gives it.
pub open spec fn plausible<M: Mem>(inner: M, base: u64, block: Block) -> bool {
    match block {
        Some(data) => data@.len() == BLOCK_SIZE && inner.may_answer(
            base,
            BLOCK_SIZE as nat,
            Ok(data@),
        ),
        None => exists|e: MemError| #[trigger] inner.may_answer(base, BLOCK_SIZE as nat, Err(e)),
    }
}

/// The block of `inner` that begins at `base`: the one that the table holds, or else what `inner`
/// gives, which the table holds from then on.
pub fn fetch_block<M: Mem>(inner: &M, table: &mut BlockTable, base: u64) -> (r: Block)
    requires
        old(table)@.wf(),
        old(table)@.settled(),
        inner.admits(base, BLOCK_SIZE as nat),
    ensures
        final(table)@.wf(),
        final(table)@.settled(),
        match old(table)@.answer(base) {
            Request::Ready(block) => r == block && final(table)@ == old(table)@,
            Request::Load(ticket) => plausible(*inner, base, r) && final(table)@ == old(
                table,
            )@.requested(base, 0).published(ticket, r),
            Request::Wait(_) => false,
        },
{
    match table.request(base, 0) {
        Request::Ready(block) => block,
        Request::Load(ticket) => {
            let block = match read_bytes(inner, base, BLOCK_SIZE as usize) {
                Ok(bytes) => Some(Arc::new(bytes)),
                Err(_) => None,
            };
            let _ = table.publish(ticket, same_block(&block));
            block
        },
        Request::Wait(_) => vstd::pervasive::unreached(),
    }
}

/// Whether a table went on from an earlier one by loads alone: it holds what that held, and beside
/// it blocks as `inner` gives them.
pub open spec fn loaded<M: Mem>(inner: M, before: TableView, after: TableView) -> bool {
    &&& forall|base: u64| #[trigger]
        before.cells.dom().contains(base) ==> after.cells.dom().contains(base)
            && after.cells[base] == before.cells[base]
    &&& forall|base: u64| #[trigger]
        after.cells.dom().contains(base) && !before.cells.dom().contains(base) ==> base % BLOCK_SIZE
            == 0 && match after.cells[base] {
            BlockCell::InFlight(_) => false,
            BlockCell::Ready(block) => plausible(inner, base, block),
        }
}

proof fn lemma_loaded_twice<M: Mem>(inner: M, a: TableView, b: TableView, c: TableView)
    requires
        loaded(inner, a, b),
        loaded(inner, b, c),
    ensures
        loaded(inner, a, c),
{
}

fn read_chunk<M: Mem>(inner: &M, table: &mut BlockTable, address: u64, buf: &mut [u8]) -> (r:
    Result<(), MemError>)
    requires
        old(table)@.wf(),
        old(table)@.settled(),
        plausible_table(*inner, old(table)@),
        address - block_base(address as int) + old(buf)@.len() <= BLOCK_SIZE,
        inner.admits(block_base(address as int) as u64, BLOCK_SIZE as nat),
        inner.admits(address, old(buf)@.len()),
    ensures
        final(table)@.wf(),
        final(table)@.settled(),
        plausible_table(*inner, final(table)@),
        loaded(*inner, old(table)@, final(table)@),
        forall|b: u64|
            b != block_base(address as int) && final(table)@.cells.dom().contains(b)
                ==> #[trigger] old(table)@.cells.dom().contains(b),
        final(buf)@.len() == old(buf)@.len(),
        chunk_through(
            *inner,
            old(table)@,
            address as int,
            old(buf)@.len(),
            crate::mem::filled(r, final(buf)@),
        ),
{
    let off: u64 = address % BLOCK_SIZE;
    let base: u64 = address - off;
    assert(base == block_base(address as int));
    let block = fetch_block(inner, table, base);
    proof {
        if old(table)@.cells.dom().contains(base) {
            assert(old(table)@.cells[base] is Ready);
        } else {
            let ticket = free_ticket(old(table)@.flights, 0) as usize;
            assert(table@ == old(table)@.requested(base, 0).published(ticket, block));
            assert(table@.cells.dom().contains(base) ==> table@.cells[base] is Ready);
            assert(table@.cells =~= old(table)@.cells.insert(base, BlockCell::Ready(block))
                || table@.cells =~= old(table)@.cells.insert(base, BlockCell::InFlight(ticket)));
        }
        assert(plausible(*inner, base, block));
    }
    match block {
        Some(data) => {
            let n: usize = buf.len();
            let part = copy_of(data.as_slice(), off as usize, n);
            fill(buf, 0, part.as_slice());
            assert(buf@ =~= part@);
            Ok(())
        },
        None => inner.read_buf(address, buf),
    }
}

/// Fills `buf` with the bytes at `address`, block by block: from the blocks that the table holds,
/// and else from `inner`, whose blocks the table holds from then on. Where a part cannot be read,
/// those before it are filled in and `buf` stays as it is behind it.
pub fn read_through<M: Mem>(inner: &M, table: &mut BlockTable, address: u64, buf: &mut [u8]) -> (r:
    Result<(), MemError>)
    requires
        old(table)@.wf(),
        plausible_table(*inner, old(table)@),
        old(buf)@.len() > 0 ==> address + old(buf)@.len() - 1 <= u64::MAX,
        admits_blocks(*inner, address as int, old(buf)@.len()),
    ensures
        final(table)@.wf(),
        plausible_table(*inner, final(table)@),
        loaded(*inner, old(table)@, final(table)@),
        final(buf)@.len() == old(buf)@.len(),
        through(
            *inner,
            old(table)@,
            address as int,
            old(buf)@.len(),
            crate::mem::filled(r, final(buf)@),
        ),
        r is Err ==> stopped(*inner, address as int, old(buf)@, final(buf)@),
{
    let len: usize = buf.len();
    let mut filled: usize = 0;
    let ghost first = table@;
    assert(buf@.take(0) =~= Seq::<u8>::empty());
    assert(table@.settled());
    while filled < len
        invariant
            filled <= len,
            buf@.len() == len,
            old(buf)@.len() == len,
            first == old(table)@,
            table@.wf(),
            table@.settled(),
            plausible_table(*inner, first),
            plausible_table(*inner, table@),
            loaded(*inner, first, table@),
            len > 0 ==> address + len - 1 <= u64::MAX,
            admits_blocks(*inner, address as int, len as nat),
            filled > 0 && filled < len ==> (address + filled) % (BLOCK_SIZE as int) == 0,
            forall|b: u64|
                b >= address + filled - (address + filled) % (BLOCK_SIZE as int)
                    && table@.cells.dom().contains(b) && filled < len
                    ==> #[trigger] first.cells.dom().contains(b),
            through(
                *inner,
                first,
                address as int,
                filled as nat,
                Ok(buf@.take(filled as int)),
            ),
            forall|k: int| filled <= k < len ==> #[trigger] buf@[k] == old(buf)@[k],
        decreases len - filled,
    {
        let cur: u64 = address + filled as u64;
        let off: u64 = cur % BLOCK_SIZE;
        let room: u64 = BLOCK_SIZE - off;
        let n: usize = if (len - filled) as u64 <= room {
            len - filled
        } else {
            room as usize
        };
        let ghost before = buf@;
        let ghost head = before.take(filled as int);
        let ghost earlier = table@;
        assert(touches(address as int, len as nat, block_base(cur as int)));
        assert(n == chunk_len(cur as int, (len - filled) as nat));
        let mut part = copy_of(buf, filled, n);
        let r = read_chunk(inner, table, cur, part.as_mut_slice());
        proof {
            lemma_loaded_twice(*inner, first, earlier, table@);
            let base = block_base(cur as int) as u64;
            if first.cells.dom().contains(base) {
                assert(earlier.cells[base] == first.cells[base]);
            }
            assert(chunk_through(
                *inner,
                first,
                cur as int,
                n as nat,
                crate::mem::filled(r, part@),
            ));
        }
        fill(buf, filled, part.as_slice());
        if let Err(e) = r {
            proof {
                lemma_append_error(
                    *inner,
                    first,
                    address as int,
                    filled as nat,
                    head,
                    len as nat,
                    e,
                );
                assert(buf@.take(filled as int) =~= head);
                lemma_plausible(*inner, first, address as int, filled as nat, Ok(head));
                assert(stopped_at(*inner, address as int, old(buf)@, buf@, filled as nat));
            }
            return Err(e);
        }
        proof {
            lemma_append_chunk(
                *inner,
                first,
                address as int,
                filled as nat,
                head,
                n as nat,
                part@,
            );
            assert(buf@.take(filled + n) =~= head + part@);
        }
        filled = filled + n;
    }
    assert(buf@.take(len as int) =~= buf@);
    Ok(())
}

/// Whether `len` bytes may be written at `address` past the table of blocks of `inner`.
pub open spec fn admits_write_through<M: Mem>(inner: M, address: u64, len: nat) -> bool {
    &&& address + len <= u64::MAX
    &&& inner.admits_write(address, len)
}

/// Forgets the blocks that a write touches, and then writes.
pub fn write_through<M: Mem>(inner: &M, table: &mut BlockTable, address: u64, buf: &[u8]) -> (r:
    Result<(), MemError>)
    requires
        old(table)@.wf(),
        admits_write_through(*inner, address, buf@.len()),
    ensures
        final(table)@.wf(),
        final(table)@ == old(table)@.written(address, buf@.len()),
        inner.may_write(address, buf@, r),
{
    if buf.len() > 0 {
        let last: u64 = address + (buf.len() - 1) as u64;
        table.invalidate(address - address % BLOCK_SIZE, last - last % BLOCK_SIZE);
    }
    inner.write_buf(address, buf)
}

/// Memory that is read in blocks, each of which is kept.
pub struct BlockCache<M: Mem> {
    inner: M,
    blocks: InvCell<BlockTable, Plausible<M>>,
}

impl<M: Mem> BlockCache<M> {
    #[verifier::type_invariant]
    spec fn holds_its_own(&self) -> bool {
        self.blocks.predicate() == (Plausible { inner: self.inner })
    }

    /// The memory behind the cache.
    pub closed spec fn spec_inner(&self) -> M {
        self.inner
    }

    /// A cache of `inner` that holds nothing yet.
    pub fn wrap(inner: M) -> (r: Self)
        ensures
            r.spec_inner() == inner,
    {
        let ghost pred = Plausible { inner };
        BlockCache { inner, blocks: InvCell::new(BlockTable::new(), Ghost(pred)) }
    }
}

impl<M: Mem> Mem for BlockCache<M> {
    open spec fn admits(&self, address: u64, len: nat) -> bool {
        &&& len > 0 ==> address + len - 1 <= u64::MAX
        &&& admits_blocks(self.spec_inner(), address as int, len)
    }

    open spec fn admits_write(&self, address: u64, len: nat) -> bool {
        admits_write_through(self.spec_inner(), address, len)
    }

    open spec fn may_answer(
        &self,
        address: u64,
        len: nat,
        answer: Result<Seq<u8>, MemError>,
    ) -> bool {
        may_answer_from(self.spec_inner(), address as int, len, answer)
    }

    open spec fn may_write(&self, address: u64, bytes: Seq<u8>, r: Result<(), MemError>) -> bool {
        self.spec_inner().may_write(address, bytes, r)
    }

    fn can_read(&self, address: u64, len: usize) -> (r: bool) {
        if len == 0 {
            return true;
        }
        let last: u64 = match address.checked_add((len - 1) as u64) {
            Some(last) => last,
            None => {
                return false;
            },
        };
        let first: u64 = address - address % BLOCK_SIZE;
        let end: u64 = last - last % BLOCK_SIZE;
        let ghost inner = self.spec_inner();
        let mut base: u64 = first;
        loop
            invariant_except_break
                forall|b: int| #[trigger]
                    touches(address as int, len as nat, b) && b < base ==> admits_block(
                        inner,
                        address as int,
                        len as nat,
                        b,
                    ),
            invariant
                inner == self.inner,
                len > 0,
                last == address + len - 1,
                first == block_base(address as int),
                end == block_base(last as int),
                first <= base <= end,
                base % BLOCK_SIZE == 0,
            ensures
                admits_blocks(inner, address as int, len as nat),
            decreases end - base,
        {
            assert(touches(address as int, len as nat, base as int));
            let from: u64 = if base <= address {
                address
            } else {
                base
            };
            let room: u64 = BLOCK_SIZE - (from - base);
            let rest: usize = len - (from - address) as usize;
            let n: usize = if rest as u64 <= room {
                rest
            } else {
                room as usize
            };
            assert(n == touched_to(address as int, len as nat, base as int) - from);
            if !self.inner.can_read(base, BLOCK_SIZE as usize) || !self.inner.can_read(from, n) {
                assert(!admits_block(inner, address as int, len as nat, base as int));
                return false;
            }
            if base == end {
                assert forall|b: int| #[trigger]
                    touches(address as int, len as nat, b) implies admits_block(
                    inner,
                    address as int,
                    len as nat,
                    b,
                ) by {
                    assert(b <= base);
                }
                break;
            }
            base = base + BLOCK_SIZE;
        }
        true
    }

    /// Fills `buf` with the bytes at `address`, block by block. Where a part cannot be read, those
    /// before it are filled in and `buf` stays as it is behind it.
    fn read_buf(&self, address: u64, buf: &mut [u8]) -> (r: Result<(), MemError>)
        ensures
            r is Err ==> stopped(self.spec_inner(), address as int, old(buf)@, final(buf)@),
    {
        proof {
            use_type_invariant(self);
        }
        let mut table = self.blocks.replace(BlockTable::new());
        let ghost held = table@;
        let r = read_through(&self.inner, &mut table, address, buf);
        proof {
            lemma_plausible(
                self.inner,
                held,
                address as int,
                old(buf)@.len(),
                crate::mem::filled(r, buf@),
            );
        }
        self.blocks.set(table);
        r
    }

    fn write_buf(&self, address: u64, buf: &[u8]) -> (r: Result<(), MemError>) {
        proof {
            use_type_invariant(self);
        }
        let mut table = self.blocks.replace(BlockTable::new());
        let r = write_through(&self.inner, &mut table, address, buf);
        self.blocks.set(table);
        r
    }

    fn clear_cache(&self) {
        proof {
            use_type_invariant(self);
        }
        let mut table = self.blocks.replace(BlockTable::new());
        table.clear();
        self.blocks.set(table);
    }
}

/// Whether an answer gives the bytes of a memory that has a byte at some addresses and none at
/// others: all that were asked for, or an error where one of them is none.
pub open spec fn reflects(
    bytes: spec_fn(int) -> Option<u8>,
    address: int,
    len: nat,
    answer: Result<Seq<u8>, MemError>,
) -> bool {
    match answer {
        Ok(given) => given.len() == len && forall|i: int|
            0 <= i < len ==> bytes(address + i) == Some(#[trigger] given[i]),
        Err(_) => exists|i: int| 0 <= i < len && #[trigger] bytes(address + i) is None,
    }
}

/// Whether a memory always has the same bytes.
pub open spec fn steady<M: Mem>(inner: M, bytes: spec_fn(int) -> Option<u8>) -> bool {
    forall|address: u64, len: nat, answer: Result<Seq<u8>, MemError>| #[trigger]
        inner.may_answer(address, len, answer) ==> reflects(bytes, address as int, len, answer)
}

/// Whether all blocks of a table have the bytes of a memory; a block that could not be loaded has
/// one that is none.
pub open spec fn holds_bytes(table: TableView, bytes: spec_fn(int) -> Option<u8>) -> bool {
    forall|base: u64|
        #![trigger table.cells[base]]
        table.cells.dom().contains(base) ==> base % BLOCK_SIZE == 0 && match table.cells[base] {
            BlockCell::InFlight(_) => true,
            BlockCell::Ready(block) => block_holds(block, base, bytes),
        }
}

/// Whether a block has the bytes of a memory.
pub open spec fn block_holds(block: Block, base: u64, bytes: spec_fn(int) -> Option<u8>) -> bool {
    match block {
        Some(data) => reflects(bytes, base as int, BLOCK_SIZE as nat, Ok(data@)),
        None => exists|i: int| 0 <= i < BLOCK_SIZE && #[trigger] bytes(base + i) is None,
    }
}

proof fn lemma_chunk_reflects<M: Mem>(
    inner: M,
    table: TableView,
    bytes: spec_fn(int) -> Option<u8>,
    address: int,
    n: nat,
    answer: Result<Seq<u8>, MemError>,
)
    requires
        steady(inner, bytes),
        holds_bytes(table, bytes),
        0 <= address <= u64::MAX,
        address - block_base(address) + n <= BLOCK_SIZE,
        chunk_through(inner, table, address, n, answer),
    ensures
        reflects(bytes, address, n, answer),
{
    let base = block_base(address);
    let held = table.cells.dom().contains(base as u64) && (table.cells[base as u64] matches
        BlockCell::Ready(Some(_)));
    if held || !(inner.may_answer(address as u64, n, answer) && answer_fits(answer, n)) {
        let block = if held {
            (table.cells[base as u64]->Ready_0->Some_0)@
        } else {
            choose|block: Seq<u8>| #[trigger]
                inner.may_answer(base as u64, BLOCK_SIZE as nat, Ok(block)) && block.len()
                    == BLOCK_SIZE && answer == Ok::<Seq<u8>, MemError>(
                    block.subrange(address - base, address - base + n),
                )
        };
        assert(reflects(bytes, base, BLOCK_SIZE as nat, Ok(block)));
        let given = answer->Ok_0;
        assert forall|i: int| 0 <= i < n implies bytes(address + i) == Some(
            #[trigger] given[i],
        ) by {
            assert(given[i] == block[address - base + i]);
            assert(bytes(base + (address - base + i)) == Some(block[address - base + i]));
        }
    }
}

proof fn lemma_answers_reflect<M: Mem>(
    inner: M,
    table: TableView,
    bytes: spec_fn(int) -> Option<u8>,
    address: int,
    len: nat,
    answer: Result<Seq<u8>, MemError>,
)
    requires
        steady(inner, bytes),
        holds_bytes(table, bytes),
        0 <= address,
        len > 0 ==> address + len - 1 <= u64::MAX,
        through(inner, table, address, len, answer),
    ensures
        reflects(bytes, address, len, answer),
    decreases len,
{
    if len > 0 {
        let n = chunk_len(address, len);
        if answer is Err && chunk_through(inner, table, address, n, answer) {
            lemma_chunk_reflects(inner, table, bytes, address, n, answer);
            let i = choose|i: int| 0 <= i < n && #[trigger] bytes(address + i) is None;
            assert(bytes(address + i) is None);
        } else {
            let (head, tail) = choose|head: Seq<u8>, tail: Result<Seq<u8>, MemError>|
                #![trigger prepend(head, tail)]
                chunk_through(inner, table, address, n, Ok(head)) && through(
                    inner,
                    table,
                    address + n,
                    (len - n) as nat,
                    tail,
                ) && answer == prepend(head, tail);
            lemma_chunk_reflects(inner, table, bytes, address, n, Ok(head));
            lemma_answers_reflect(inner, table, bytes, address + n, (len - n) as nat, tail);
            match tail {
                Ok(rest) => {
                    let given = head + rest;
                    assert forall|i: int| 0 <= i < len implies bytes(address + i) == Some(
                        #[trigger] given[i],
                    ) by {
                        if i < n {
                            assert(given[i] == head[i]);
                        } else {
                            assert(given[i] == rest[i - n]);
                            assert(bytes(address + n + (i - n)) == Some(rest[i - n]));
                        }
                    }
                },
                Err(_) => {
                    let i = choose|i: int|
                        0 <= i < len - n && #[trigger] bytes(address + n + i) is None;
                    assert(bytes(address + (n + i)) is None);
                },
            }
        }
    }
}

/// A cache changes nothing: over a memory that always has the same bytes, what is read through the
/// cache are the bytes of that memory, and a read fails only where one of the bytes is none, though
/// the blocks reach beyond what is read.
pub proof fn cache_is_transparent<M: Mem>(
    cache: BlockCache<M>,
    bytes: spec_fn(int) -> Option<u8>,
    address: u64,
    len: nat,
    answer: Result<Seq<u8>, MemError>,
)
    requires
        steady(cache.spec_inner(), bytes),
        cache.admits(address, len),
        cache.may_answer(address, len, answer),
    ensures
        reflects(bytes, address as int, len, answer),
{
    let table = TableView::nothing();
    lemma_answers_reflect(cache.spec_inner(), table, bytes, address as int, len, answer);
}

/// Whether a read of a memory that has some bytes and no others failed in the block of the byte
/// `from` bytes in, and filled in what lies in front of that block and nothing behind it.
pub open spec fn failed_in_block(
    bytes: spec_fn(int) -> Option<u8>,
    address: u64,
    before: Seq<u8>,
    after: Seq<u8>,
    from: int,
) -> bool {
    &&& 0 <= from < before.len()
    &&& forall|k: int| 0 <= k < from ==> bytes(address + k) == Some(#[trigger] after[k])
    &&& forall|k: int|
        from <= k < before.len() && (address + k) / (BLOCK_SIZE as int) > (address + from) / (
        BLOCK_SIZE as int) ==> #[trigger] after[k] == before[k]
}

/// A read through a cache that fails has filled in the bytes of the memory up to the block in which
/// it failed, and left alone what lies behind that block.
pub proof fn failed_reads_stop_in_a_block<M: Mem>(
    inner: M,
    bytes: spec_fn(int) -> Option<u8>,
    address: u64,
    before: Seq<u8>,
    after: Seq<u8>,
)
    requires
        steady(inner, bytes),
        before.len() == after.len(),
        before.len() > 0 ==> address + before.len() - 1 <= u64::MAX,
        stopped(inner, address as int, before, after),
    ensures
        exists|from: int| #[trigger] failed_in_block(bytes, address, before, after, from),
{
    let from = choose|from: nat| #[trigger]
        stopped_at(inner, address as int, before, after, from);
    let n = chunk_len(address + from, (before.len() - from) as nat);
    let head = after.take(from as int);
    lemma_answers_reflect(
        inner,
        TableView::nothing(),
        bytes,
        address as int,
        from,
        Ok::<Seq<u8>, MemError>(head),
    );
    assert forall|k: int| 0 <= k < from implies bytes(address + k) == Some(
        #[trigger] after[k],
    ) by {
        assert(head[k] == after[k]);
    }
    assert forall|k: int|
        from <= k < before.len() && (address + k) / (BLOCK_SIZE as int) > (address + from) / (
        BLOCK_SIZE as int) implies #[trigger] after[k] == before[k] by {
        let b = BLOCK_SIZE as int;
        assert(address + from + (b - (address + from) % b) <= address + k) by (nonlinear_arith)
            requires
                b > 0,
                (address + k) / b > (address + from) / b,
        ;
    }
    assert(failed_in_block(bytes, address, before, after, from as int));
}

proof fn lemma_block_base(a: int, b: int)
    requires
        0 <= a <= b,
    ensures
        block_base(a) % (BLOCK_SIZE as int) == 0,
        block_base(a) <= a < block_base(a) + BLOCK_SIZE,
        block_base(a) <= block_base(b),
{
}

/// What a write changed is asked for anew: none of the blocks that it touches is held any more,
/// and all other blocks stay as they are.
pub proof fn write_forgets_what_it_touches(table: TableView, address: u64, len: nat, at: int)
    requires
        len > 0,
        address + len <= u64::MAX,
        0 <= at <= u64::MAX,
    ensures
        address <= at < address + len ==> table.written(address, len).answer(
            block_base(at) as u64,
        ) is Load,
        at < block_base(address as int) || at >= block_base(address + len - 1) + BLOCK_SIZE
            ==> table.written(address, len).answer(block_base(at) as u64) == table.answer(
            block_base(at) as u64,
        ),
{
    lemma_block_base(at, at);
    lemma_block_base(address as int, address + len - 1);
    if at >= address {
        lemma_block_base(address as int, at);
    }
    if at < address + len {
        lemma_block_base(at, address + len - 1);
    }
}

/// The bytes of a memory after others were written at `address`.
pub open spec fn bytes_after(
    bytes: spec_fn(int) -> Option<u8>,
    address: u64,
    written: Seq<u8>,
) -> spec_fn(int) -> Option<u8> {
    |at: int|
        if address <= at < address + written.len() {
            Some(written[at - address])
        } else {
            bytes(at)
        }
}

/// A table that forgets what a write touches has the bytes that the memory has after it, where it
/// had those that the memory had before.
pub proof fn writes_keep_blocks_true(
    table: TableView,
    bytes: spec_fn(int) -> Option<u8>,
    address: u64,
    written: Seq<u8>,
)
    requires
        holds_bytes(table, bytes),
        address + written.len() <= u64::MAX,
    ensures
        holds_bytes(table.written(address, written.len()), bytes_after(bytes, address, written)),
{
    let len = written.len();
    let now = table.written(address, len);
    let new = bytes_after(bytes, address, written);
    assert forall|base: u64|
        #![trigger now.cells[base]]
        now.cells.dom().contains(base) implies base % BLOCK_SIZE == 0 && match now.cells[base] {
        BlockCell::InFlight(_) => true,
        BlockCell::Ready(block) => block_holds(block, base, new),
    } by {
        assert(table.cells.dom().contains(base) && now.cells[base] == table.cells[base]);
        assert forall|i: int| 0 <= i < BLOCK_SIZE implies #[trigger] new(base + i) == bytes(
            base + i,
        ) by {
            if address <= base + i < address + len {
                lemma_block_base(base + i, base + i);
                assert(block_base(base + i) == base);
                lemma_block_base(address as int, base + i);
                lemma_block_base(base + i, address + len - 1);
            }
        }
        if let BlockCell::Ready(block) = table.cells[base] {
            match block {
                Some(data) => {
                    assert forall|i: int| 0 <= i < BLOCK_SIZE implies new(base as int + i) == Some(
                        #[trigger] data@[i],
                    ) by {
                        assert(bytes(base as int + i) == Some(data@[i]));
                        assert(new(base + i) == bytes(base + i));
                    }
                },
                None => {
                    let i = choose|i: int|
                        0 <= i < BLOCK_SIZE && #[trigger] bytes(base + i) is None;
                    assert(new(base + i) is None);
                },
            }
        }
    }
}

/// A table keeps the bytes of a memory that always has the same bytes, whatever is read past it.
pub proof fn reads_keep_blocks_true<M: Mem>(
    inner: M,
    bytes: spec_fn(int) -> Option<u8>,
    before: TableView,
    after: TableView,
)
    requires
        steady(inner, bytes),
        holds_bytes(before, bytes),
        loaded(inner, before, after),
    ensures
        holds_bytes(after, bytes),
{
    assert forall|base: u64|
        #![trigger after.cells[base]]
        after.cells.dom().contains(base) implies base % BLOCK_SIZE == 0 && match after.cells[base] {
        BlockCell::InFlight(_) => true,
        BlockCell::Ready(block) => block_holds(block, base, bytes),
    } by {
        if !before.cells.dom().contains(base) {
            if let BlockCell::Ready(block) = after.cells[base] {
                assert(plausible(inner, base, block));
                match block {
                    Some(data) => {
                        assert(reflects(bytes, base as int, BLOCK_SIZE as nat, Ok(data@)));
                    },
                    None => {
                        let e = choose|e: MemError| #[trigger]
                            inner.may_answer(base, BLOCK_SIZE as nat, Err(e));
                        assert(reflects(bytes, base as int, BLOCK_SIZE as nat, Err(e)));
                        let i = choose|i: int|
                            0 <= i < BLOCK_SIZE && #[trigger] bytes(base as int + i) is None;
                        assert(bytes(base + i) is None);
                    },
                }
            }
        } else {
            assert(before.cells[base] == after.cells[base]);
        }
    }
}

/// What is written is read back: where a table had the bytes of a memory, a read past it after a
/// write gives the bytes that were written where the write reached, and those from before
/// elsewhere. None of the bytes is stale.
pub proof fn what_is_written_is_read_back<M: Mem>(
    inner: M,
    table: TableView,
    bytes: spec_fn(int) -> Option<u8>,
    address: u64,
    written: Seq<u8>,
    at: u64,
    len: nat,
    answer: Result<Seq<u8>, MemError>,
)
    requires
        holds_bytes(table, bytes),
        address + written.len() <= u64::MAX,
        steady(inner, bytes_after(bytes, address, written)),
        len > 0 ==> at + len - 1 <= u64::MAX,
        through(inner, table.written(address, written.len()), at as int, len, answer),
    ensures
        reflects(bytes_after(bytes, address, written), at as int, len, answer),
        answer matches Ok(given) ==> forall|i: int|
            0 <= i < len ==> Some(#[trigger] given[i]) == if address <= at + i < address
                + written.len() {
                Some(written[at + i - address])
            } else {
                bytes(at + i)
            },
{
    let new = bytes_after(bytes, address, written);
    writes_keep_blocks_true(table, bytes, address, written);
    lemma_answers_reflect(
        inner,
        table.written(address, written.len()),
        new,
        at as int,
        len,
        answer,
    );
    if let Ok(given) = answer {
        assert forall|i: int| 0 <= i < len implies Some(#[trigger] given[i]) == new(at + i) by {
            assert(new(at as int + i) == Some(given[i]));
        }
    }
}

} // verus!
