//! Who holds which UMEM frame.
//!
//! AF_XDP leaves it to user space to track which frame is on which ring, and
//! getting it wrong corrupts the data path. The single rule is:
//!
//! > **Every UMEM frame is on at most one ring (or in our hands) at a time.**
//!
//! The frames are numbered from zero. The first half serves receiving, the
//! second half sending, and no frame ever changes sides:
//!
//! - **RX frames** cycle FILL → RX → FILL. Between two receive calls all of them
//!   are with the kernel.
//! - **TX frames** are on a free list that we own. To send, we take one, write a
//!   packet and put it on the TX ring; the kernel returns it on the COMPLETION
//!   ring, and it goes back on the free list.
//!
//! This module is the model of that bookkeeping. It states the rule, and that
//! every step of the socket keeps it as long as the kernel hands back only what
//! it was given.

use vstd::prelude::*;
use vstd::set_lib::{lemma_int_range, lemma_len_subset, set_int_range};

verus! {

/// Which frames are in our hands, and which are with the kernel.
pub struct FramePools {
    /// The number of all frames.
    pub frame_count: nat,
    /// RX frames in our hands, in the order in which they go onto the FILL ring.
    pub rx_held: Seq<usize>,
    /// The free list. The last one is used next.
    pub tx_free: Seq<usize>,
    /// The frame that is being written and handed to the TX ring.
    pub tx_staged: Option<usize>,
    /// The frames that the TX ring took and the kernel has not returned.
    pub tx_inflight: Seq<usize>,
}

impl FramePools {
    /// Whether `frame` is one of the frames for receiving.
    pub open spec fn is_rx(self, frame: usize) -> bool {
        frame < self.frame_count / 2
    }

    /// Whether `frame` is one of the frames for sending.
    pub open spec fn is_tx(self, frame: usize) -> bool {
        self.frame_count / 2 <= frame < self.frame_count
    }

    /// Whether `frame` is on the FILL or the RX ring: an RX frame that we do not
    /// hold.
    pub open spec fn on_rx_rings(self, frame: usize) -> bool {
        self.is_rx(frame) && !self.rx_held.contains(frame)
    }

    /// Whether `frame` is a TX frame that was given to the TX ring with an error,
    /// so that it is neither free nor in flight. It is out of use until the
    /// kernel returns it.
    pub open spec fn stranded(self, frame: usize) -> bool {
        &&& self.is_tx(frame)
        &&& !self.tx_free.contains(frame)
        &&& self.tx_staged != Some(frame)
        &&& !self.tx_inflight.contains(frame)
    }

    /// The number of TX frames that are free, staged or in flight.
    pub open spec fn tx_tracked(self) -> nat {
        self.tx_free.len() + self.tx_inflight.len() + if self.tx_staged is Some {
            1nat
        } else {
            0nat
        }
    }

    /// The rule of the module: no frame is in two places, and no frame is on the
    /// other side's rings.
    pub open spec fn exclusive(self) -> bool {
        &&& self.rx_held.no_duplicates()
        &&& self.tx_free.no_duplicates()
        &&& self.tx_inflight.no_duplicates()
        &&& forall|frame: usize| #[trigger] self.rx_held.contains(frame) ==> self.is_rx(frame)
        &&& forall|frame: usize| #[trigger] self.tx_free.contains(frame) ==> self.is_tx(frame)
        &&& forall|frame: usize| #[trigger]
            self.tx_inflight.contains(frame) ==> self.is_tx(frame) && !self.tx_free.contains(frame)
        &&& self.tx_staged matches Some(frame) ==> {
            &&& self.is_tx(frame)
            &&& !self.tx_free.contains(frame)
            &&& !self.tx_inflight.contains(frame)
        }
    }

    /// The pools of a new socket: every frame is in our hands, the RX frames
    /// ready for the FILL ring and the TX frames on the free list.
    pub open spec fn initial(frame_count: nat) -> FramePools {
        let half = frame_count / 2;
        FramePools {
            frame_count,
            rx_held: Seq::new(half, |i: int| i as usize),
            tx_free: Seq::new((frame_count - half) as nat, |i: int| (half + i) as usize),
            tx_staged: None,
            tx_inflight: Seq::empty(),
        }
    }

    /// The FILL ring took the next `accepted` of the RX frames that we hold.
    pub open spec fn filled(self, accepted: nat) -> FramePools {
        let taken = if accepted < self.rx_held.len() {
            accepted
        } else {
            self.rx_held.len()
        };
        FramePools { rx_held: self.rx_held.skip(taken as int), ..self }
    }

    /// The RX ring handed us `frames`.
    pub open spec fn received(self, frames: Seq<usize>) -> FramePools {
        FramePools { rx_held: frames, ..self }
    }

    /// We took the last frame off the free list, to write a packet into it.
    pub open spec fn staged(self) -> FramePools {
        FramePools {
            tx_free: self.tx_free.drop_last(),
            tx_staged: Some(self.tx_free.last()),
            ..self
        }
    }

    /// The TX ring took the staged frame.
    pub open spec fn sent(self) -> FramePools {
        match self.tx_staged {
            Some(frame) => FramePools {
                tx_staged: None,
                tx_inflight: self.tx_inflight.push(frame),
                ..self
            },
            None => self,
        }
    }

    /// Handing the staged frame to the TX ring failed.
    pub open spec fn send_failed(self) -> FramePools {
        FramePools { tx_staged: None, ..self }
    }

    /// The COMPLETION ring handed us `frame`.
    pub open spec fn completed_one(self, frame: usize) -> FramePools {
        FramePools {
            tx_free: self.tx_free.push(frame),
            tx_inflight: self.tx_inflight.remove_value(frame),
            ..self
        }
    }

    /// The COMPLETION ring handed us `frames`. They go onto the free list last
    /// one first.
    pub open spec fn completed(self, frames: Seq<usize>) -> FramePools
        decreases frames.len(),
    {
        if frames.len() == 0 {
            self
        } else {
            self.completed_one(frames.last()).completed(frames.drop_last())
        }
    }

    /// Whether the kernel, given only what these pools say, can have handed
    /// `frames` back on the RX ring: each was on the FILL ring, and each comes
    /// once.
    pub open spec fn may_receive(self, frames: Seq<usize>) -> bool {
        &&& frames.no_duplicates()
        &&& forall|frame: usize| #[trigger] frames.contains(frame) ==> self.on_rx_rings(frame)
    }

    /// Whether the kernel, given only what these pools say, can have handed
    /// `frames` back on the COMPLETION ring: each was given to the TX ring, and
    /// each comes once.
    pub open spec fn may_complete(self, frames: Seq<usize>) -> bool {
        &&& frames.no_duplicates()
        &&& forall|frame: usize| #[trigger]
            frames.contains(frame) ==> self.tx_inflight.contains(frame) || self.stranded(frame)
    }
}

/// One thing that happens to the pools of a socket.
pub enum Step {
    /// The FILL ring took this many of the RX frames that we hold.
    Filled(nat),
    /// The RX ring handed us these frames.
    Received(Seq<usize>),
    /// A frame was taken off the free list.
    Staged,
    /// The TX ring took the staged frame.
    Sent,
    /// Handing the staged frame to the TX ring failed.
    SendFailed,
    /// The COMPLETION ring handed us these frames.
    Completed(Seq<usize>),
}

impl FramePools {
    /// The pools after `step`.
    pub open spec fn after(self, step: Step) -> FramePools {
        match step {
            Step::Filled(accepted) => self.filled(accepted),
            Step::Received(frames) => self.received(frames),
            Step::Staged => self.staged(),
            Step::Sent => self.sent(),
            Step::SendFailed => self.send_failed(),
            Step::Completed(frames) => self.completed(frames),
        }
    }

    /// Whether `step` can happen: we receive only once the last batch is back on
    /// the FILL ring, stage only a frame that is free and only one at a time, and
    /// the kernel hands back only what it was given.
    pub open spec fn permits(self, step: Step) -> bool {
        match step {
            Step::Received(frames) => self.rx_held.len() == 0 && self.may_receive(frames),
            Step::Staged => self.tx_free.len() > 0 && self.tx_staged is None,
            Step::Completed(frames) => self.may_complete(frames),
            _ => true,
        }
    }

    /// The pools after all of `steps`.
    pub open spec fn after_all(self, steps: Seq<Step>) -> FramePools
        decreases steps.len(),
    {
        if steps.len() == 0 {
            self
        } else {
            self.after_all(steps.drop_last()).after(steps.last())
        }
    }

    /// Whether `steps` can happen one after the other.
    pub open spec fn permits_all(self, steps: Seq<Step>) -> bool
        decreases steps.len(),
    {
        steps.len() > 0 ==> {
            &&& self.permits_all(steps.drop_last())
            &&& self.after_all(steps.drop_last()).permits(steps.last())
        }
    }
}

proof fn lemma_remove_value<A>(s: Seq<A>, value: A)
    requires
        s.no_duplicates(),
    ensures
        s.remove_value(value).no_duplicates(),
        !s.remove_value(value).contains(value),
        forall|x: A| #[trigger]
            s.remove_value(value).contains(x) <==> s.contains(x) && x != value,
        s.remove_value(value).len() == s.len() - if s.contains(value) {
            1int
        } else {
            0int
        },
{
    s.index_of_first_ensures(value);
    let rest = s.remove_value(value);
    if s.contains(value) {
        let at = s.index_of_first(value)->0;
        assert forall|x: A| #[trigger] rest.contains(x) implies s.contains(x) && x != value by {
            let i = choose|i: int| 0 <= i < rest.len() && rest[i] == x;
            if i < at {
                assert(s[i] == x);
            } else {
                assert(s[i + 1] == x);
            }
        }
        assert forall|x: A| s.contains(x) && x != value implies #[trigger] rest.contains(x) by {
            let i = choose|i: int| 0 <= i < s.len() && s[i] == x;
            if i < at {
                assert(rest[i] == x);
            } else {
                assert(rest[i - 1] == x);
            }
        }
    }
}

/// A new socket keeps the rule, and holds every frame.
pub proof fn initial_is_exclusive(frame_count: nat)
    requires
        frame_count <= usize::MAX,
    ensures
        FramePools::initial(frame_count).exclusive(),
        forall|frame: usize| #[trigger]
            FramePools::initial(frame_count).is_rx(frame)
                <==> FramePools::initial(frame_count).rx_held.contains(frame),
        forall|frame: usize| #[trigger]
            FramePools::initial(frame_count).is_tx(frame)
                <==> FramePools::initial(frame_count).tx_free.contains(frame),
{
    let pools = FramePools::initial(frame_count);
    assert forall|frame: usize| #[trigger] pools.is_rx(frame) implies pools.rx_held.contains(
        frame,
    ) by {
        assert(pools.rx_held[frame as int] == frame);
    }
    assert forall|frame: usize| #[trigger] pools.is_tx(frame) implies pools.tx_free.contains(
        frame,
    ) by {
        assert(pools.tx_free[frame - frame_count / 2] == frame);
    }
}

/// A new socket holds the frames in order: the first half for receiving, the rest
/// for sending, and none with the kernel.
pub proof fn initial_order(frame_count: nat)
    requires
        frame_count <= usize::MAX,
    ensures
        ({
            let pools = FramePools::initial(frame_count);
            &&& pools.frame_count == frame_count
            &&& pools.rx_held.len() == frame_count / 2
            &&& forall|i: int| 0 <= i < pools.rx_held.len() ==> #[trigger] pools.rx_held[i] == i
            &&& pools.rx_held.len() + pools.tx_free.len() == frame_count
            &&& forall|i: int|
                0 <= i < pools.tx_free.len() ==> #[trigger] pools.tx_free[i] == frame_count / 2 + i
            &&& pools.tx_staged is None
            &&& pools.tx_inflight.len() == 0
        }),
{
}

/// No frame is for both receiving and sending.
pub proof fn sides_are_disjoint(pools: FramePools, frame: usize)
    ensures
        !(pools.is_rx(frame) && pools.is_tx(frame)),
        frame < pools.frame_count <==> pools.is_rx(frame) || pools.is_tx(frame),
        pools.is_rx(frame) <==> frame < pools.frame_count / 2,
{
}

/// Refilling keeps the rule. The FILL ring takes the frames in order, and only
/// frames that were in our hands.
pub proof fn filled_keeps_exclusive(pools: FramePools, accepted: nat)
    requires
        pools.exclusive(),
    ensures
        pools.filled(accepted).exclusive(),
        forall|frame: usize| #[trigger]
            pools.filled(accepted).on_rx_rings(frame) ==> pools.on_rx_rings(frame)
                || pools.rx_held.contains(frame),
        accepted >= pools.rx_held.len() ==> pools.filled(accepted).rx_held.len() == 0,
        accepted < pools.rx_held.len() ==> pools.rx_held == pools.rx_held.take(accepted as int)
            + pools.filled(accepted).rx_held,
{
    let after = pools.filled(accepted);
    assert forall|frame: usize| #[trigger] after.rx_held.contains(frame) implies pools.is_rx(
        frame,
    ) by {
        assert(pools.rx_held.contains(frame));
    }
    if accepted < pools.rx_held.len() {
        assert(pools.rx_held =~= pools.rx_held.take(accepted as int) + after.rx_held);
    }
}

/// The FILL ring takes as many frames as it accepts, from the front, and the rest
/// stays in our hands in the same order. Nothing else changes.
pub proof fn filled_takes_from_the_front(pools: FramePools, accepted: nat)
    ensures
        ({
            let after = pools.filled(accepted);
            let taken = pools.rx_held.len() - after.rx_held.len();
            &&& 0 <= taken <= accepted
            &&& taken < accepted ==> after.rx_held.len() == 0
            &&& forall|i: int|
                0 <= i < after.rx_held.len() ==> #[trigger] after.rx_held[i] == pools.rx_held[taken
                    + i]
            &&& after.frame_count == pools.frame_count
            &&& after.tx_free == pools.tx_free
            &&& after.tx_staged == pools.tx_staged
            &&& after.tx_inflight == pools.tx_inflight
        }),
{
}

/// It does not matter in how many rounds the FILL ring takes the frames.
pub proof fn filled_in_rounds(pools: FramePools, first: nat, second: nat)
    ensures
        pools.filled(first).filled(second) == pools.filled(first + second),
{
    assert(pools.filled(first).filled(second).rx_held =~= pools.filled(first + second).rx_held);
}

/// Once the FILL ring has taken all that a new socket offers it, every RX frame
/// is with the kernel and every TX frame is free.
pub proof fn charging_arms_the_whole_rx_pool(frame_count: nat, accepted: nat)
    requires
        frame_count <= usize::MAX,
        accepted >= frame_count / 2,
    ensures
        ({
            let charged = FramePools::initial(frame_count).filled(accepted);
            &&& charged.rx_held.len() == 0
            &&& forall|frame: usize| #[trigger] charged.is_rx(frame) ==> charged.on_rx_rings(frame)
            &&& forall|frame: usize| #[trigger]
                charged.is_tx(frame) ==> charged.tx_free.contains(frame)
        }),
{
    initial_is_exclusive(frame_count);
    let initial = FramePools::initial(frame_count);
    let charged = initial.filled(accepted);
    assert forall|frame: usize| #[trigger] charged.is_tx(frame) implies charged.tx_free.contains(
        frame,
    ) by {
        assert(initial.is_tx(frame));
    }
}

/// Receiving keeps the rule.
pub proof fn received_keeps_exclusive(pools: FramePools, frames: Seq<usize>)
    requires
        pools.exclusive(),
        pools.may_receive(frames),
    ensures
        pools.received(frames).exclusive(),
{
}

/// After a receive we hold exactly the frames that the RX ring handed over, in that
/// order, so that none is left out when they go back; every other RX frame is with
/// the kernel. Nothing else changes.
pub proof fn received_holds_the_whole_batch(pools: FramePools, frames: Seq<usize>)
    ensures
        ({
            let after = pools.received(frames);
            &&& after.rx_held.len() == frames.len()
            &&& forall|i: int|
                0 <= i < frames.len() ==> #[trigger] after.rx_held[i] == frames[i]
            &&& forall|frame: usize|
                #![trigger after.rx_held.contains(frame)]
                #![trigger frames.contains(frame)]
                after.rx_held.contains(frame) <==> frames.contains(frame)
            &&& forall|frame: usize| #[trigger]
                after.on_rx_rings(frame) <==> frame < pools.frame_count / 2 && !frames.contains(
                    frame,
                )
            &&& after.frame_count == pools.frame_count
            &&& after.tx_free == pools.tx_free
            &&& after.tx_staged == pools.tx_staged
            &&& after.tx_inflight == pools.tx_inflight
        }),
{
}

/// Putting a whole received batch back onto the FILL ring undoes receiving it:
/// between two receive calls all RX frames are with the kernel.
pub proof fn refill_undoes_receive(pools: FramePools, frames: Seq<usize>)
    requires
        pools.rx_held.len() == 0,
    ensures
        pools.received(frames).filled(frames.len()) == pools,
{
    assert(pools.received(frames).filled(frames.len()).rx_held =~= pools.rx_held);
}

/// Taking a frame off the free list keeps the rule, and the frame that is
/// written to is on no ring and no longer free.
pub proof fn staged_keeps_exclusive(pools: FramePools)
    requires
        pools.exclusive(),
        pools.tx_free.len() > 0,
    ensures
        pools.staged().exclusive(),
        !pools.tx_inflight.contains(pools.tx_free.last()),
        !pools.staged().tx_free.contains(pools.tx_free.last()),
{
    let after = pools.staged();
    let last = pools.tx_free.last();
    assert(pools.tx_free.contains(last));
    assert forall|frame: usize| #[trigger] after.tx_free.contains(frame) implies pools.is_tx(frame)
        && frame != last by {
        assert(pools.tx_free.contains(frame));
    }
    assert forall|frame: usize| #[trigger] after.tx_inflight.contains(frame) implies pools.is_tx(
        frame,
    ) && !after.tx_free.contains(frame) by {
        assert(pools.tx_inflight.contains(frame));
        if after.tx_free.contains(frame) {
            assert(pools.tx_free.contains(frame));
        }
    }
}

/// Staging moves one frame, the one that came onto the free list last, and
/// nothing else changes.
pub proof fn staged_moves_one_frame(pools: FramePools)
    requires
        pools.tx_free.len() > 0,
    ensures
        ({
            let after = pools.staged();
            &&& after.tx_staged is Some
            &&& after.tx_free.push(after.tx_staged->0) == pools.tx_free
            &&& after.frame_count == pools.frame_count
            &&& after.rx_held == pools.rx_held
            &&& after.tx_inflight == pools.tx_inflight
        }),
{
    let after = pools.staged();
    assert(after.tx_free.push(after.tx_staged->0) =~= pools.tx_free);
}

/// Sending moves the staged frame to those in flight; failing to send gives it up.
/// Nothing else changes, and nothing at all if no frame is staged.
pub proof fn sent_moves_the_staged_frame(pools: FramePools)
    ensures
        pools.tx_staged matches Some(frame) ==> pools.sent().tx_inflight
            == pools.tx_inflight.push(frame),
        pools.tx_staged is None ==> pools.sent().tx_inflight == pools.tx_inflight,
        pools.sent().tx_staged is None,
        pools.sent().frame_count == pools.frame_count,
        pools.sent().rx_held == pools.rx_held,
        pools.sent().tx_free == pools.tx_free,
        pools.send_failed().tx_inflight == pools.tx_inflight,
        pools.send_failed().tx_staged is None,
        pools.send_failed().frame_count == pools.frame_count,
        pools.send_failed().rx_held == pools.rx_held,
        pools.send_failed().tx_free == pools.tx_free,
{
}

/// Handing the staged frame to the TX ring keeps the rule.
pub proof fn sent_keeps_exclusive(pools: FramePools)
    requires
        pools.exclusive(),
    ensures
        pools.sent().exclusive(),
        pools.sent().tx_tracked() == pools.tx_tracked(),
{
    if let Some(staged) = pools.tx_staged {
        let after = pools.sent();
        assert forall|frame: usize| #[trigger]
            after.tx_inflight.contains(frame) implies pools.is_tx(frame)
            && !after.tx_free.contains(frame) by {
            if frame != staged {
                assert(pools.tx_inflight.contains(frame));
            }
        }
    }
}

/// Failing to hand over the staged frame keeps the rule. That frame is then out
/// of use, and no other.
pub proof fn send_failed_keeps_exclusive(pools: FramePools)
    requires
        pools.exclusive(),
    ensures
        pools.send_failed().exclusive(),
        forall|frame: usize| #[trigger]
            pools.send_failed().stranded(frame) <==> pools.stranded(frame) || pools.tx_staged
                == Some(frame),
{
}

proof fn lemma_completed_one(pools: FramePools, frame: usize)
    requires
        pools.exclusive(),
        pools.tx_inflight.contains(frame) || pools.stranded(frame),
    ensures
        pools.completed_one(frame).exclusive(),
        forall|other: usize| #[trigger]
            pools.completed_one(frame).tx_free.contains(other) <==> pools.tx_free.contains(other)
                || other == frame,
        forall|other: usize| #[trigger]
            pools.completed_one(frame).tx_inflight.contains(other) <==> pools.tx_inflight.contains(
                other,
            ) && other != frame,
{
    let after = pools.completed_one(frame);
    lemma_remove_value(pools.tx_inflight, frame);
    assert forall|other: usize| #[trigger] after.tx_free.contains(other) implies pools.tx_free.contains(
        other,
    ) || other == frame by {}
    assert forall|other: usize| pools.tx_free.contains(other) || other
        == frame implies #[trigger] after.tx_free.contains(other) by {
        if other == frame {
            assert(after.tx_free[pools.tx_free.len() as int] == frame);
        } else {
            let i = choose|i: int| 0 <= i < pools.tx_free.len() && pools.tx_free[i] == other;
            assert(after.tx_free[i] == other);
        }
    }
}

/// Reclaiming keeps the rule, and frees exactly the frames that the kernel is
/// done with: what was free stays free, and what is still in flight stays out
/// of reach.
pub proof fn completed_keeps_exclusive(pools: FramePools, frames: Seq<usize>)
    requires
        pools.exclusive(),
        pools.may_complete(frames),
    ensures
        pools.completed(frames).exclusive(),
        forall|frame: usize| #[trigger]
            pools.completed(frames).tx_free.contains(frame) <==> pools.tx_free.contains(frame)
                || frames.contains(frame),
        forall|frame: usize| #[trigger]
            pools.completed(frames).tx_inflight.contains(frame) <==> pools.tx_inflight.contains(
                frame,
            ) && !frames.contains(frame),
    decreases frames.len(),
{
    if frames.len() > 0 {
        let last = frames.last();
        let rest = frames.drop_last();
        assert(frames.contains(last));
        lemma_completed_one(pools, last);
        let next = pools.completed_one(last);
        assert forall|frame: usize| #[trigger] rest.contains(frame) implies next.tx_inflight.contains(
            frame,
        ) || next.stranded(frame) by {
            assert(frames.contains(frame));
            assert(frame != last);
        }
        completed_keeps_exclusive(next, rest);
        assert forall|frame: usize| #[trigger] frames.contains(frame) implies rest.contains(frame)
            || frame == last by {
            let i = choose|i: int| 0 <= i < frames.len() && frames[i] == frame;
            if i < rest.len() {
                assert(rest[i] == frame);
            }
        }
        assert forall|frame: usize| #[trigger] rest.contains(frame) implies frames.contains(
            frame,
        ) by {}
    }
}

/// Reclaimed frames go onto the free list behind what was there, last one first.
pub proof fn completed_appends_to_free_list(pools: FramePools, frames: Seq<usize>)
    ensures
        pools.completed(frames).tx_free == pools.tx_free + frames.reverse(),
        pools.completed(frames).rx_held == pools.rx_held,
        pools.completed(frames).tx_staged == pools.tx_staged,
        pools.completed(frames).frame_count == pools.frame_count,
    decreases frames.len(),
{
    if frames.len() == 0 {
        assert(pools.tx_free =~= pools.tx_free + frames.reverse());
    } else {
        completed_appends_to_free_list(pools.completed_one(frames.last()), frames.drop_last());
        assert(frames.reverse() =~= seq![frames.last()] + frames.drop_last().reverse());
        assert(pools.tx_free.push(frames.last()) + frames.drop_last().reverse()
            =~= pools.tx_free + frames.reverse());
    }
}

/// Reclaiming takes each completed frame off those in flight once, if it is among
/// them, and leaves all others in flight, whatever the kernel returned.
pub proof fn completed_takes_each_frame_once(pools: FramePools, frames: Seq<usize>, frame: usize)
    ensures
        ({
            let before = pools.tx_inflight.to_multiset().count(frame);
            let done = frames.to_multiset().count(frame);
            let after = pools.completed(frames).tx_inflight.to_multiset().count(frame);
            after == if done < before {
                before - done
            } else {
                0
            }
        }),
    decreases frames.len(),
{
    broadcast use vstd::multiset::group_multiset_axioms;
    broadcast use vstd::seq_lib::group_to_multiset_ensures;

    if frames.len() > 0 {
        let last = frames.last();
        let rest = frames.drop_last();
        let inflight = pools.tx_inflight;
        assert(frames =~= rest.push(last));
        inflight.index_of_first_ensures(last);
        completed_takes_each_frame_once(pools.completed_one(last), rest, frame);
    }
}

/// No TX frame is gained or lost on the way through the rings: taking a frame
/// off the free list, handing it to the TX ring and reclaiming it leave the
/// number of free, staged and in-flight frames as it was.
pub proof fn tx_frames_are_conserved(pools: FramePools, frames: Seq<usize>)
    requires
        pools.exclusive(),
        frames.no_duplicates(),
        forall|frame: usize| #[trigger]
            frames.contains(frame) ==> pools.tx_inflight.contains(frame),
    ensures
        pools.tx_free.len() > 0 && pools.tx_staged is None ==> pools.staged().tx_tracked()
            == pools.tx_tracked(),
        pools.sent().tx_tracked() == pools.tx_tracked(),
        pools.completed(frames).tx_tracked() == pools.tx_tracked(),
    decreases frames.len(),
{
    if frames.len() > 0 {
        let last = frames.last();
        let rest = frames.drop_last();
        assert(frames.contains(last));
        lemma_completed_one(pools, last);
        lemma_remove_value(pools.tx_inflight, last);
        let next = pools.completed_one(last);
        assert forall|frame: usize| #[trigger] rest.contains(frame) implies next.tx_inflight.contains(
            frame,
        ) by {
            assert(frames.contains(frame));
            assert(frame != last);
        }
        tx_frames_are_conserved(next, rest);
    }
}

/// The completion of a send undoes it: the frame is back where it was taken from.
pub proof fn completion_undoes_send(pools: FramePools)
    requires
        pools.exclusive(),
        pools.tx_free.len() > 0,
        pools.tx_staged is None,
    ensures
        pools.staged().sent().completed(seq![pools.tx_free.last()]) == pools,
{
    let frame = pools.tx_free.last();
    let sent = pools.staged().sent();
    let done = seq![frame];
    assert(pools.tx_free.contains(frame));
    assert(done.drop_last() =~= Seq::empty());
    reveal_with_fuel(FramePools::completed, 2);
    assert(sent.completed(done) == sent.completed_one(frame));
    sent.tx_inflight.index_of_first_ensures(frame);
    assert(sent.tx_inflight.last() == frame);
    assert(sent.tx_inflight.contains(frame));
    let at = sent.tx_inflight.index_of_first(frame)->0;
    if at < pools.tx_inflight.len() {
        assert(pools.tx_inflight[at] == frame);
        assert(pools.tx_inflight.contains(frame));
    }
    assert(sent.tx_inflight.remove_value(frame) =~= pools.tx_inflight);
    assert(sent.tx_free.push(frame) =~= pools.tx_free);
}

/// The rule counts places: a frame is in our hands for receiving, on the free list,
/// staged or in flight at most once in all, and only on its own side.
pub proof fn exclusive_means_one_place(pools: FramePools, frame: usize)
    requires
        pools.exclusive(),
    ensures
        pools.rx_held.to_multiset().count(frame) + pools.tx_free.to_multiset().count(frame)
            + pools.tx_inflight.to_multiset().count(frame) + (if pools.tx_staged == Some(frame) {
            1nat
        } else {
            0nat
        }) <= 1,
        pools.rx_held.contains(frame) ==> frame < pools.frame_count / 2,
        pools.tx_free.contains(frame) || pools.tx_inflight.contains(frame) || pools.tx_staged
            == Some(frame) ==> pools.frame_count / 2 <= frame < pools.frame_count,
{
    broadcast use vstd::seq_lib::group_to_multiset_ensures;

    pools.rx_held.lemma_multiset_has_no_duplicates();
    pools.tx_free.lemma_multiset_has_no_duplicates();
    pools.tx_inflight.lemma_multiset_has_no_duplicates();
}

/// Whatever happens to a socket, and in whatever order, the rule holds, as long
/// as the kernel hands back only what it was given. No frame changes sides.
pub proof fn every_history_is_exclusive(frame_count: nat, steps: Seq<Step>)
    requires
        frame_count <= usize::MAX,
        FramePools::initial(frame_count).permits_all(steps),
    ensures
        FramePools::initial(frame_count).after_all(steps).exclusive(),
        FramePools::initial(frame_count).after_all(steps).frame_count == frame_count,
    decreases steps.len(),
{
    let initial = FramePools::initial(frame_count);
    if steps.len() == 0 {
        initial_is_exclusive(frame_count);
    } else {
        every_history_is_exclusive(frame_count, steps.drop_last());
        let before = initial.after_all(steps.drop_last());
        match steps.last() {
            Step::Filled(accepted) => filled_keeps_exclusive(before, accepted),
            Step::Received(frames) => received_keeps_exclusive(before, frames),
            Step::Staged => staged_keeps_exclusive(before),
            Step::Sent => sent_keeps_exclusive(before),
            Step::SendFailed => send_failed_keeps_exclusive(before),
            Step::Completed(frames) => {
                completed_keeps_exclusive(before, frames);
                completed_appends_to_free_list(before, frames);
            },
        }
    }
}

/// There are never more free, staged and in-flight frames than TX frames.
pub proof fn tx_tracked_is_bounded(pools: FramePools)
    requires
        pools.exclusive(),
    ensures
        pools.tx_tracked() <= pools.frame_count - pools.frame_count / 2,
        pools.tx_free.len() + pools.tx_inflight.len() <= pools.frame_count - pools.frame_count / 2,
{
    let staged = match pools.tx_staged {
        Some(frame) => seq![frame],
        None => Seq::<usize>::empty(),
    };
    let all = pools.tx_free + pools.tx_inflight + staged;
    assert forall|i: int, j: int| 0 <= i < j < all.len() implies all[i] != all[j] by {
        let free = pools.tx_free.len();
        let out = free + pools.tx_inflight.len();
        if i < free {
            assert(pools.tx_free.contains(all[i]));
        } else if i < out {
            assert(pools.tx_inflight.contains(all[i]));
        }
        if free <= j < out {
            assert(pools.tx_inflight.contains(all[j]));
        }
    }
    let numbers = all.map_values(|frame: usize| frame as int);
    let range = set_int_range((pools.frame_count / 2) as int, pools.frame_count as int);
    assert(numbers.no_duplicates());
    numbers.unique_seq_to_set();
    lemma_int_range((pools.frame_count / 2) as int, pools.frame_count as int);
    assert forall|n: int| #[trigger] numbers.to_set().contains(n) implies range.contains(n) by {
        let i = choose|i: int| 0 <= i < numbers.len() && numbers[i] == n;
        if i < pools.tx_free.len() {
            assert(pools.tx_free.contains(all[i]));
        } else if i < pools.tx_free.len() + pools.tx_inflight.len() {
            assert(pools.tx_inflight.contains(all[i]));
        }
    }
    lemma_len_subset(numbers.to_set(), range);
}

} // verus!
