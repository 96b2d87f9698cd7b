use vstd::prelude::*;

pub mod oscillator;

verus! {

/// A parameter carried by a sequencer message, such as a note number or a velocity.
pub type SeqParameter = usize;

/// A message of the sequencer to an operator.
#[derive(Clone, Copy, Debug, PartialEq, Eq, Structural)]
pub enum SeqMsg {
    NoteOn(SeqParameter, SeqParameter),
    NoteOff,
    SetVel,
    SetSlide,
    SetPan,
}

/// An event of a sequence: a message and the time at which it is due, in the
/// sequence's integer time unit.
#[derive(Clone, Copy, Debug, PartialEq, Eq, Structural)]
pub struct SeqEvent {
    pub time: u32,
    pub message: SeqMsg,
}

impl SeqMsg {
    /// The note that this message starts, if it is a `NoteOn`: the message that
    /// makes an operator restart its phase and retune to the note.
    pub fn note_on_key(&self) -> (key: Option<SeqParameter>)
        ensures
            key == (match *self {
                SeqMsg::NoteOn(k, _) => Some(k),
                _ => None,
            }),
    {
        match self {
            SeqMsg::NoteOn(k, _) => Some(*k),
            _ => None,
        }
    }
}

/// The event at `cursor`, or `None` once the cursor has reached the end of the
/// sequence.
pub fn next_event_option(sequence: &[SeqEvent], cursor: usize) -> (next: Option<SeqEvent>)
    requires
        cursor <= sequence@.len(),
    ensures
        cursor == sequence@.len() ==> next is None,
        cursor < sequence@.len() ==> next == Some(sequence@[cursor as int]),
{
    if cursor == sequence.len() {
        None
    } else {
        Some(sequence[cursor])
    }
}


/// One step of rendering a block: hand the sequence event at an index to the
/// operator, or render the sample at an index of the block.
#[derive(Clone, Copy, Debug, PartialEq, Eq, Structural)]
pub enum BlockAction {
    Dispatch(usize),
    Render(usize),
}

/// Replays `plan` from sample 0 with the sequence cursor at `cursor`: the sample
/// and cursor reached, or `None` where a step is out of turn. A step is in turn
/// when it is the one that rendering a block takes at that point:
/// - the pending event (the one at the cursor) is dispatched when `due` said it
///   is due at the current sample;
/// - otherwise the current sample is rendered: when the sequence is exhausted, or
///   `due` said the pending event is not yet due.
/// No step follows the last sample of the block.
pub open spec fn replay<F: Fn(usize, usize) -> bool>(
    due: F,
    plan: Seq<BlockAction>,
    cursor: int,
    block_len: int,
    sequence_len: int,
) -> Option<(int, int)>
    decreases plan.len(),
{
    if plan.len() == 0 {
        Some((0, cursor))
    } else {
        match replay(due, plan.drop_last(), cursor, block_len, sequence_len) {
            None => None,
            Some((sample, next)) => match plan.last() {
                BlockAction::Dispatch(i) => {
                    if i == next && sample < block_len && next < sequence_len && call_ensures(
                        due,
                        (i, sample as usize),
                        true,
                    ) {
                        Some((sample, next + 1))
                    } else {
                        None
                    }
                },
                BlockAction::Render(s) => {
                    if s == sample && sample < block_len && (next == sequence_len || call_ensures(
                        due,
                        (next as usize, s),
                        false,
                    )) {
                        Some((sample + 1, next))
                    } else {
                        None
                    }
                },
            },
        }
    }
}

/// The samples that `plan` renders, in plan order.
pub open spec fn rendered_samples(plan: Seq<BlockAction>) -> Seq<int>
    decreases plan.len(),
{
    if plan.len() == 0 {
        Seq::empty()
    } else {
        let before = rendered_samples(plan.drop_last());
        match plan.last() {
            BlockAction::Render(s) => before.push(s as int),
            BlockAction::Dispatch(_) => before,
        }
    }
}

/// The sequence events that `plan` dispatches, in plan order.
pub open spec fn dispatched_events(plan: Seq<BlockAction>) -> Seq<int>
    decreases plan.len(),
{
    if plan.len() == 0 {
        Seq::empty()
    } else {
        let before = dispatched_events(plan.drop_last());
        match plan.last() {
            BlockAction::Dispatch(i) => before.push(i as int),
            BlockAction::Render(_) => before,
        }
    }
}

/// A plan that replays in turn renders the samples 0, 1, 2, ... once each and in
/// order, and dispatches the events from the starting cursor on once each, in
/// sequence order, none past the end of the sequence.
pub proof fn lemma_replay_order<F: Fn(usize, usize) -> bool>(
    due: F,
    plan: Seq<BlockAction>,
    cursor: int,
    block_len: int,
    sequence_len: int,
)
    requires
        replay(due, plan, cursor, block_len, sequence_len) is Some,
        0 <= cursor <= sequence_len,
    ensures
        ({
            let (sample, next) = replay(due, plan, cursor, block_len, sequence_len).unwrap();
            &&& 0 <= sample
            &&& sample <= block_len || plan.len() == 0
            &&& cursor <= next <= sequence_len
            &&& plan.len() == sample + (next - cursor)
            &&& rendered_samples(plan) == Seq::new(sample as nat, |k: int| k)
            &&& dispatched_events(plan) == Seq::new((next - cursor) as nat, |k: int| cursor + k)
        }),
    decreases plan.len(),
{
    if plan.len() > 0 {
        lemma_replay_order(due, plan.drop_last(), cursor, block_len, sequence_len);
        let (sample, next) = replay(due, plan.drop_last(), cursor, block_len, sequence_len).unwrap();
        match plan.last() {
            BlockAction::Dispatch(i) => {
                assert(dispatched_events(plan) =~= Seq::new((next + 1 - cursor) as nat, |k: int| cursor + k));
            },
            BlockAction::Render(s) => {
                assert(rendered_samples(plan) =~= Seq::new((sample + 1) as nat, |k: int| k));
            },
        }
    } else {
        assert(rendered_samples(plan) =~= Seq::new(0, |k: int| k));
        assert(dispatched_events(plan) =~= Seq::new(0, |k: int| cursor + k));
    }
}

/// The order in which a render block of `block_len` samples interleaves the
/// sequence events from `cursor` on with its samples. Before each sample, every
/// pending event that `due` finds due at that sample is dispatched, in sequence
/// order; then the sample is rendered. `due(i, s)` says whether event `i` is due
/// at sample `s` of the block.
pub fn plan_block<F: Fn(usize, usize) -> bool>(
    block_len: usize,
    cursor: usize,
    sequence_len: usize,
    due: &F,
) -> (plan: Vec<BlockAction>)
    requires
        cursor <= sequence_len,
        forall|i: usize, s: usize| call_requires(*due, (i, s)),
    ensures
        replay(*due, plan@, cursor as int, block_len as int, sequence_len as int) is Some,
        replay(*due, plan@, cursor as int, block_len as int, sequence_len as int).unwrap().0
            == block_len,
        rendered_samples(plan@) == Seq::new(block_len as nat, |k: int| k),
        ({
            let next = replay(*due, plan@, cursor as int, block_len as int, sequence_len as int).unwrap().1;
            &&& cursor <= next <= sequence_len
            &&& dispatched_events(plan@) == Seq::new((next - cursor) as nat, |k: int| cursor + k)
        }),
        cursor == sequence_len ==> plan@ == Seq::new(
            block_len as nat,
            |k: int| BlockAction::Render(k as usize),
        ),
{
    let mut plan: Vec<BlockAction> = Vec::new();
    let mut sample: usize = 0;
    let mut next: usize = cursor;
    while sample < block_len
        invariant
            sample <= block_len,
            cursor <= next <= sequence_len,
            forall|i: usize, s: usize| call_requires(*due, (i, s)),
            replay(*due, plan@, cursor as int, block_len as int, sequence_len as int) == Some(
                (sample as int, next as int),
            ),
            cursor == sequence_len ==> plan@ == Seq::new(
                sample as nat,
                |k: int| BlockAction::Render(k as usize),
            ),
        decreases (block_len - sample) + (sequence_len - next),
    {
        let ghost before = plan@;
        let is_due = if next < sequence_len {
            due(next, sample)
        } else {
            false
        };
        if is_due {
            plan.push(BlockAction::Dispatch(next));
            assert(plan@.drop_last() == before);
            next = next + 1;
        } else {
            plan.push(BlockAction::Render(sample));
            assert(plan@.drop_last() == before);
            proof {
                if cursor == sequence_len {
                    assert(plan@ =~= Seq::new(
                        (sample + 1) as nat,
                        |k: int| BlockAction::Render(k as usize),
                    ));
                }
            }
            sample = sample + 1;
        }
    }
    proof {
        lemma_replay_order(*due, plan@, cursor as int, block_len as int, sequence_len as int);
    }
    plan
}

} // verus!
