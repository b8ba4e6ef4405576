//! The accumulator that both parsers share.
//!
//! A transcript is read line by line. A header line opens a block, the lines
//! that follow it are its body, and the block is closed by the next header,
//! by a noise line or by the end of the input. The accumulator is a machine
//! with two states: it is idle, or it holds the block that is open.
use vstd::prelude::*;
use crate::text::line_views;

verus! {

/// A header line with the lines that followed it.
#[derive(Debug, Clone)]
pub struct Block {
    /// The header line.
    pub head: Vec<char>,
    /// The body lines, in the order in which they came.
    pub body: Vec<Vec<char>>,
}

/// What a block holds.
pub struct BlockView {
    pub head: Seq<char>,
    pub body: Seq<Seq<char>>,
}

impl View for Block {
    type V = BlockView;

    open spec fn view(&self) -> BlockView {
        BlockView { head: self.head@, body: line_views(self.body@) }
    }
}

/// What a list of blocks holds.
pub open spec fn block_views(blocks: Seq<Block>) -> Seq<BlockView> {
    blocks.map_values(|b: Block| b@)
}

/// What one line means to the accumulator.
#[derive(Debug, Clone)]
pub enum Event {
    /// The line starts a diagnostic.
    Header(Vec<char>),
    /// The line belongs to no diagnostic and ends the one before it.
    Noise,
    /// Any other line.
    Body(Vec<char>),
}

/// What an event holds.
pub enum EventView {
    Header(Seq<char>),
    Noise,
    Body(Seq<char>),
}

impl View for Event {
    type V = EventView;

    open spec fn view(&self) -> EventView {
        match self {
            Event::Header(line) => EventView::Header(line@),
            Event::Noise => EventView::Noise,
            Event::Body(line) => EventView::Body(line@),
        }
    }
}

/// The state of the accumulator.
#[derive(Debug, Clone)]
pub enum Scan {
    /// No block is open.
    Idle,
    /// The block that is open.
    Accumulating(Block),
}

/// What a state holds.
pub enum ScanView {
    Idle,
    Accumulating(BlockView),
}

impl View for Scan {
    type V = ScanView;

    open spec fn view(&self) -> ScanView {
        match self {
            Scan::Idle => ScanView::Idle,
            Scan::Accumulating(block) => ScanView::Accumulating(block@),
        }
    }
}

/// The block that a state hands out when it is left for good, if any.
pub open spec fn flushed(state: ScanView) -> Option<BlockView> {
    match state {
        ScanView::Idle => None,
        ScanView::Accumulating(block) => Some(block),
    }
}

/// The state after an event.
///
/// A header opens a new block in either state. Noise leads to the idle
/// state. A body line is added to the open block, and dropped where none is
/// open.
pub open spec fn next_state(state: ScanView, event: EventView) -> ScanView {
    match event {
        EventView::Header(line) => ScanView::Accumulating(
            BlockView { head: line, body: Seq::empty() },
        ),
        EventView::Noise => ScanView::Idle,
        EventView::Body(line) => match state {
            ScanView::Idle => ScanView::Idle,
            ScanView::Accumulating(block) => ScanView::Accumulating(
                BlockView { head: block.head, body: block.body.push(line) },
            ),
        },
    }
}

/// The block that an event closes, if any: a header and noise close the open
/// block, a body line closes nothing.
pub open spec fn emitted(state: ScanView, event: EventView) -> Option<BlockView> {
    match event {
        EventView::Body(_) => None,
        _ => flushed(state),
    }
}

/// A sequence of no block or of one.
pub open spec fn optional(block: Option<BlockView>) -> Seq<BlockView> {
    match block {
        Some(b) => seq![b],
        None => Seq::empty(),
    }
}

/// The blocks that the accumulator hands out when it starts in `state`,
/// takes the events in order and is then told that the input has ended.
pub open spec fn collect(state: ScanView, events: Seq<EventView>) -> Seq<BlockView>
    decreases events.len(),
{
    if events.len() == 0 {
        optional(flushed(state))
    } else {
        optional(emitted(state, events[0])) + collect(
            next_state(state, events[0]),
            events.drop_first(),
        )
    }
}

/// Every block that the accumulator hands out starts with a line that came
/// as a header, or with the header of the block that was open at the start.
pub proof fn lemma_collect_heads(
    state: ScanView,
    events: Seq<EventView>,
    p: spec_fn(Seq<char>) -> bool,
)
    requires
        state matches ScanView::Accumulating(b) ==> p(b.head),
        forall|i: int|
            0 <= i < events.len() ==> (#[trigger] events[i] matches EventView::Header(l) ==> p(l)),
    ensures
        forall|j: int|
            0 <= j < collect(state, events).len() ==> p(#[trigger] collect(state, events)[j].head),
    decreases events.len(),
{
    if events.len() > 0 {
        let rest = events.drop_first();
        assert forall|i: int| 0 <= i < rest.len() implies (#[trigger] rest[i] matches EventView::Header(
            l,
        ) ==> p(l)) by {
            assert(rest[i] == events[i + 1]);
        }
        lemma_collect_heads(next_state(state, events[0]), rest, p);
        let first = optional(emitted(state, events[0]));
        let tail = collect(next_state(state, events[0]), rest);
        assert forall|j: int| 0 <= j < collect(state, events).len() implies p(
            #[trigger] collect(state, events)[j].head,
        ) by {
            if j >= first.len() {
                assert(collect(state, events)[j] == tail[j - first.len()]);
            }
        }
    }
}

impl Scan {
    /// The state in which reading starts.
    pub fn new() -> (state: Scan)
        ensures
            state@ == ScanView::Idle,
    {
        Scan::Idle
    }

    /// Takes one event: gives the next state and the block that the event
    /// closed, if there was one.
    pub fn step(self, event: Event) -> (r: (Scan, Option<Block>))
        ensures
            r.0@ == next_state(self@, event@),
            match r.1 {
                Some(block) => emitted(self@, event@) == Some(block@),
                None => emitted(self@, event@) is None,
            },
    {
        match event {
            Event::Header(line) => {
                let opened = Scan::Accumulating(Block { head: line, body: Vec::new() });
                proof {
                    assert(line_views(Seq::<Vec<char>>::empty()) =~= Seq::<Seq<char>>::empty());
                }
                (opened, self.end())
            },
            Event::Noise => (Scan::Idle, self.end()),
            Event::Body(line) => match self {
                Scan::Idle => (Scan::Idle, None),
                Scan::Accumulating(block) => {
                    let Block { head, mut body } = block;
                    proof {
                        assert(line_views(body@.push(line)) =~= line_views(body@).push(line@));
                    }
                    body.push(line);
                    (Scan::Accumulating(Block { head, body }), None)
                },
            },
        }
    }

    /// Takes the end of the input: gives the block that was open, if there
    /// was one.
    pub fn end(self) -> (r: Option<Block>)
        ensures
            match r {
                Some(block) => flushed(self@) == Some(block@),
                None => flushed(self@) is None,
            },
    {
        match self {
            Scan::Idle => None,
            Scan::Accumulating(block) => Some(block),
        }
    }
}

/// Runs the accumulator over a list of events, from the idle state to the
/// end of the input, and gives the blocks in the order in which they were
/// closed.
pub fn collect_blocks(events: Vec<Event>) -> (blocks: Vec<Block>)
    ensures
        block_views(blocks@) == collect(ScanView::Idle, event_views(events@)),
{
    let mut blocks: Vec<Block> = Vec::new();
    let mut state = Scan::new();
    let ghost all = event_views(events@);
    let mut i: usize = 0;
    let n = events.len();
    let mut events = events;
    proof {
        assert(all.skip(0) =~= all);
        assert(block_views(blocks@) =~= Seq::<BlockView>::empty());
    }
    while i < n
        invariant
            i <= n,
            n == all.len(),
            events.len() == n,
            forall|k: int| i <= k < n ==> (#[trigger] events@[k])@ == all[k],
            collect(ScanView::Idle, all) == block_views(blocks@) + collect(state@, all.skip(i as int)),
        decreases n - i,
    {
        let mut event = Event::Noise;
        std::mem::swap(&mut event, &mut events[i]);
        let ghost before = state@;
        let ghost rest = all.skip(i as int);
        proof {
            assert(rest[0] == all[i as int]);
            assert(rest.drop_first() =~= all.skip(i + 1));
        }
        let (next, closed) = state.step(event);
        state = next;
        match closed {
            Some(block) => {
                proof {
                    assert(block_views(blocks@.push(block)) =~= block_views(blocks@).push(block@));
                    assert(block_views(blocks@).push(block@) + collect(state@, all.skip(i + 1))
                        =~= block_views(blocks@) + (seq![block@] + collect(
                        state@,
                        all.skip(i + 1),
                    )));
                }
                blocks.push(block);
            },
            None => {
                proof {
                    assert(Seq::<BlockView>::empty() + collect(state@, all.skip(i + 1)) =~= collect(
                        state@,
                        all.skip(i + 1),
                    ));
                }
            },
        }
        i += 1;
    }
    let ghost done = block_views(blocks@);
    match state.end() {
        Some(block) => {
            proof {
                assert(block_views(blocks@.push(block)) =~= block_views(blocks@).push(block@));
                assert(done.push(block@) =~= done + seq![block@]);
            }
            blocks.push(block);
        },
        None => {
            proof {
                assert(done + Seq::<BlockView>::empty() =~= done);
            }
        },
    }
    blocks
}

/// What a list of events holds.
pub open spec fn event_views(events: Seq<Event>) -> Seq<EventView> {
    events.map_values(|e: Event| e@)
}

} // verus!
