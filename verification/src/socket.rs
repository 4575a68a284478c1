//! The bookkeeping of an AF_XDP socket: [`XdpSocket`].
//!
//! Talking to the kernel takes system calls and shared memory; deciding what to
//! say does not. [`XdpSocket`] makes the decisions: which frames go onto which
//! ring, whether a datagram can be sent and in which frame, what identification
//! it carries, and what comes back from the kernel means for the frame pools.
//! Its driver performs each ring operation and reports the outcome.

use vstd::arithmetic::div_mod::{
    lemma_fundamental_div_mod, lemma_fundamental_div_mod_converse, lemma_mod_multiples_basic,
};
use vstd::arithmetic::power2::{is_pow2, lemma2_to64, lemma_pow2_pos, lemma_pow2_unfold, pow2};
use vstd::prelude::*;

use crate::config::{PoolSplit, XdpConfig};
use crate::error::XdpError;
use crate::packet::{datagram_of, frame_error, UdpFrame, HDR_OVERHEAD};
use crate::pools::{completed_appends_to_free_list, FramePools};

verus! {

/// The IPv4 identification that comes `n` sends after `id`.
pub open spec fn ip_id_after(id: u16, n: nat) -> u16 {
    ((id + n) % 0x1_0000) as u16
}

/// `frame` with the identification `ip_id`.
pub open spec fn stamped<'a>(frame: UdpFrame<'a>, ip_id: u16) -> UdpFrame<'a> {
    UdpFrame { ip_id, ..frame }
}

/// The frame numbers that belong to the UMEM addresses `addrs`.
pub open spec fn frames_at(addrs: Seq<usize>, frame_size: u32) -> Seq<usize> {
    Seq::new(addrs.len(), |i: int| (addrs[i] as int / frame_size as int) as usize)
}

/// The number of frames to ask the UMEM for. It holds 32 bits of the configured
/// count and must not be zero.
pub fn umem_frames(cfg: &XdpConfig) -> (frames: Result<u32, XdpError>)
    ensures
        match frames {
            Ok(frames) => frames == cfg.frame_count as int % 0x1_0000_0000 && frames != 0,
            Err(error) => {
                &&& cfg.frame_count as int % 0x1_0000_0000 == 0
                &&& error matches XdpError::Transport(reason) && reason@
                    == "frame_count must be non-zero"@
            },
        },
{
    let frames: u32 = (cfg.frame_count as u64 % 0x1_0000_0000) as u32;
    if frames == 0 {
        Err(XdpError::Transport("frame_count must be non-zero".to_owned()))
    } else {
        Ok(frames)
    }
}

/// The bookkeeping of a bound AF_XDP socket on one (interface, queue) pair.
pub struct XdpSocket {
    cfg: XdpConfig,
    /// The last batch of RX frames that came into our hands.
    rx_batch: Vec<usize>,
    /// How many of `rx_batch`, from the front, the FILL ring has taken.
    rx_returned: usize,
    /// Free TX frames available for sending.
    tx_free: Vec<usize>,
    /// The TX frame being written and handed to the TX ring.
    tx_staged: Option<usize>,
    /// TX frames handed to the kernel and not yet completed.
    tx_inflight: Vec<usize>,
    /// Per-socket IPv4 identification counter (avoids RNG on the hot path).
    ip_id: u16,
}

impl XdpSocket {
    /// The configuration that the socket was bound with.
    pub closed spec fn spec_config(&self) -> XdpConfig {
        self.cfg
    }

    /// Where the frames of the socket are.
    pub closed spec fn pools(&self) -> FramePools {
        FramePools {
            frame_count: self.cfg.frame_count as nat,
            rx_held: self.rx_batch@.skip(self.rx_returned as int),
            tx_free: self.tx_free@,
            tx_staged: self.tx_staged,
            tx_inflight: self.tx_inflight@,
        }
    }

    /// The last batch of RX frames that came into our hands, with those that the
    /// FILL ring has taken since.
    pub closed spec fn last_batch(&self) -> Seq<usize> {
        self.rx_batch@
    }

    /// The IPv4 identification of the next datagram.
    pub closed spec fn spec_ip_id(&self) -> u16 {
        self.ip_id
    }

    /// The socket's configuration is valid, its frames can be counted in 32 bits,
    /// and no more of a batch was returned than it held.
    pub closed spec fn well_formed(&self) -> bool {
        &&& self.cfg.config_error() is None
        &&& self.cfg.frame_count <= u32::MAX
        &&& self.rx_returned <= self.rx_batch@.len()
    }

    /// Bind a socket's bookkeeping according to `cfg`. Every frame starts in our
    /// hands: the first half is ready for the FILL ring, the second half is free
    /// for sending.
    pub fn bind(cfg: XdpConfig) -> (socket: Result<Self, XdpError>)
        ensures
            match socket {
                Ok(socket) => {
                    &&& cfg.config_error() is None
                    &&& cfg.frame_count <= u32::MAX
                    &&& socket.well_formed()
                    &&& socket.spec_config() == cfg
                    &&& socket.pools() == FramePools::initial(cfg.frame_count as nat)
                    &&& socket.last_batch() == socket.pools().rx_held
                    &&& socket.spec_ip_id() == 0
                },
                Err(XdpError::Config(error)) => cfg.config_error() == Some(error),
                Err(XdpError::Transport(reason)) => {
                    &&& cfg.config_error() is None
                    &&& cfg.frame_count > u32::MAX
                    &&& reason@ == "frame_count must be non-zero"@
                },
                Err(_) => false,
            },
    {
        let split: PoolSplit = match cfg.validate() {
            Ok(split) => split,
            Err(error) => {
                return Err(XdpError::from(error));
            },
        };
        proof {
            lemma_large_power_of_two(cfg.frame_count as int);
        }
        match umem_frames(&cfg) {
            Ok(_) => {},
            Err(error) => {
                return Err(error);
            },
        }
        let rx_batch: Vec<usize> = frame_range(0, split.rx_frames);
        let tx_free: Vec<usize> = frame_range(split.rx_frames, cfg.frame_count);
        let socket = XdpSocket {
            cfg,
            rx_batch,
            rx_returned: 0,
            tx_free,
            tx_staged: None,
            tx_inflight: Vec::with_capacity(split.tx_frames),
            ip_id: 0,
        };
        proof {
            let initial = FramePools::initial(socket.cfg.frame_count as nat);
            assert(socket.pools().rx_held =~= initial.rx_held);
            assert(socket.pools().tx_free =~= initial.tx_free);
            assert(socket.pools().tx_inflight =~= initial.tx_inflight);
            assert(socket.last_batch() =~= initial.rx_held);
        }
        Ok(socket)
    }

    /// The configuration that the socket was bound with.
    pub fn config(&self) -> (cfg: &XdpConfig)
        ensures
            *cfg == self.spec_config(),
    {
        &self.cfg
    }

    /// How many frames to take from the RX ring at most in one receive call. The
    /// RX pool holds at least as many.
    pub fn recv_limit(&self) -> (limit: usize)
        requires
            self.well_formed(),
        ensures
            limit == self.spec_config().rx_batch_size,
            limit <= self.spec_config().frame_count / 2,
    {
        self.cfg.rx_batch_size
    }

    /// Take note of a batch of frames that came from the RX ring, given by their
    /// UMEM addresses. They are in our hands until the FILL ring has taken them
    /// back, as it must have taken those of the batch before. Returns the number
    /// of frames.
    pub fn recv_batch(&mut self, addrs: &[usize]) -> (received: usize)
        requires
            old(self).well_formed(),
            old(self).pools().rx_held.len() == 0,
        ensures
            received == addrs@.len(),
            final(self).well_formed(),
            final(self).pools() == old(self).pools().received(
                frames_at(addrs@, old(self).spec_config().frame_size),
            ),
            final(self).last_batch() == final(self).pools().rx_held,
            final(self).spec_config() == old(self).spec_config(),
            final(self).spec_ip_id() == old(self).spec_ip_id(),
    {
        let ghost frames = frames_at(addrs@, self.cfg.frame_size);
        self.rx_batch.clear();
        self.rx_returned = 0;
        let mut i: usize = 0;
        while i < addrs.len()
            invariant
                i <= addrs@.len(),
                frames == frames_at(addrs@, self.cfg.frame_size),
                self.well_formed(),
                self.cfg == old(self).cfg,
                self.rx_batch@ == frames.take(i as int),
                self.rx_returned == 0,
                self.tx_free == old(self).tx_free,
                self.tx_staged == old(self).tx_staged,
                self.tx_inflight == old(self).tx_inflight,
                self.ip_id == old(self).ip_id,
            decreases addrs@.len() - i,
        {
            let frame: usize = addrs[i] / self.cfg.frame_size as usize;
            self.rx_batch.push(frame);
            i = i + 1;
            assert(self.rx_batch@ =~= frames.take(i as int));
        }
        assert(self.pools().rx_held =~= frames);
        assert(self.rx_batch@ =~= frames);
        addrs.len()
    }

    /// The part of the last batch that is still to go onto the FILL ring, as a
    /// range of positions in that batch. It is empty once all are returned.
    pub fn to_fill(&self) -> (range: (usize, usize))
        requires
            self.well_formed(),
        ensures
            range.0 <= range.1,
            range.1 == self.last_batch().len(),
            self.pools().rx_held == self.last_batch().subrange(range.0 as int, range.1 as int),
    {
        assert(self.pools().rx_held =~= self.rx_batch@.subrange(
            self.rx_returned as int,
            self.rx_batch@.len() as int,
        ));
        (self.rx_returned, self.rx_batch.len())
    }

    /// Take note that the FILL ring took the next `accepted` frames of the batch.
    pub fn filled(&mut self, accepted: usize)
        requires
            old(self).well_formed(),
        ensures
            final(self).well_formed(),
            final(self).pools() == old(self).pools().filled(accepted as nat),
            final(self).last_batch() == old(self).last_batch(),
            final(self).spec_config() == old(self).spec_config(),
            final(self).spec_ip_id() == old(self).spec_ip_id(),
    {
        let held: usize = self.rx_batch.len() - self.rx_returned;
        if accepted < held {
            self.rx_returned = self.rx_returned + accepted;
        } else {
            self.rx_returned = self.rx_batch.len();
        }
        assert(self.pools().rx_held =~= old(self).pools().filled(accepted as nat).rx_held);
    }

    /// Whether a payload of this many bytes can be sent in one frame.
    pub fn check_payload(&self, payload: usize) -> (answer: Result<(), XdpError>)
        requires
            self.well_formed(),
        ensures
            match answer {
                Ok(()) => payload <= self.spec_config().frame_size - HDR_OVERHEAD,
                Err(XdpError::PayloadTooLarge { payload: rejected, capacity }) => {
                    &&& payload > capacity
                    &&& rejected == payload
                    &&& capacity == self.spec_config().frame_size - HDR_OVERHEAD
                },
                Err(_) => false,
            },
    {
        let capacity: usize = self.cfg.max_udp_payload();
        if payload > capacity {
            Err(XdpError::PayloadTooLarge { payload, capacity })
        } else {
            Ok(())
        }
    }

    /// Take a TX frame off the free list for the datagram `frame`. Returns the
    /// number of the UMEM frame to write to, and the datagram with the socket's
    /// next identification. Fails with [`XdpError::NoFreeFrames`] if the TX pool
    /// is exhausted — reclaim completions and retry, or size `frame_count` higher.
    pub fn stage_send<'a>(&mut self, frame: &UdpFrame<'a>) -> (staged: Result<
        (usize, UdpFrame<'a>),
        XdpError,
    >)
        requires
            old(self).well_formed(),
            old(self).pools().tx_staged is None,
        ensures
            final(self).well_formed(),
            final(self).last_batch() == old(self).last_batch(),
            final(self).spec_config() == old(self).spec_config(),
            match staged {
                Ok((slot, spec)) => {
                    &&& old(self).pools().tx_free.len() > 0
                    &&& slot == old(self).pools().tx_free.last()
                    &&& spec == stamped(*frame, old(self).spec_ip_id())
                    &&& final(self).pools() == old(self).pools().staged()
                    &&& final(self).spec_ip_id() == ip_id_after(old(self).spec_ip_id(), 1)
                },
                Err(error) => {
                    &&& old(self).pools().tx_free.len() == 0
                    &&& error is NoFreeFrames
                    &&& final(self).pools() == old(self).pools()
                    &&& final(self).spec_ip_id() == old(self).spec_ip_id()
                },
            },
    {
        match self.tx_free.pop() {
            None => Err(XdpError::NoFreeFrames),
            Some(slot) => {
                self.tx_staged = Some(slot);
                let ip_id: u16 = self.next_ip_id();
                let spec = UdpFrame {
                    dst_mac: frame.dst_mac,
                    src_mac: frame.src_mac,
                    src_ip: frame.src_ip,
                    dst_ip: frame.dst_ip,
                    src_port: frame.src_port,
                    dst_port: frame.dst_port,
                    ttl: frame.ttl,
                    ip_id,
                    payload: frame.payload,
                };
                assert(self.pools().tx_free =~= old(self).pools().tx_free.drop_last());
                Ok((slot, spec))
            },
        }
    }

    /// Begin to send the datagram `frame`, whose payload passed
    /// [`check_payload`](Self::check_payload). The frames at the UMEM addresses
    /// `completed`, which the COMPLETION ring returned, are reclaimed first, so
    /// that they can serve this datagram already: [`XdpError::NoFreeFrames`] comes
    /// only if nothing was free and nothing completed.
    pub fn begin_send<'a>(&mut self, frame: &UdpFrame<'a>, completed: &[usize]) -> (begun: Result<
        (usize, UdpFrame<'a>),
        XdpError,
    >)
        requires
            old(self).well_formed(),
            old(self).pools().tx_staged is None,
            frame.payload@.len() <= old(self).spec_config().frame_size - HDR_OVERHEAD,
        ensures
            final(self).well_formed(),
            final(self).last_batch() == old(self).last_batch(),
            final(self).spec_config() == old(self).spec_config(),
            begun is Err <==> old(self).pools().tx_free.len() + completed@.len() == 0,
            ({
                let reclaimed = old(self).pools().completed(
                    frames_at(completed@, old(self).spec_config().frame_size),
                );
                match begun {
                    Ok((slot, spec)) => {
                        &&& slot == reclaimed.tx_free.last()
                        &&& spec == stamped(*frame, old(self).spec_ip_id())
                        &&& final(self).pools() == reclaimed.staged()
                        &&& final(self).spec_ip_id() == ip_id_after(old(self).spec_ip_id(), 1)
                    },
                    Err(error) => {
                        &&& error is NoFreeFrames
                        &&& final(self).pools() == old(self).pools()
                        &&& final(self).spec_ip_id() == old(self).spec_ip_id()
                    },
                }
            }),
    {
        proof {
            completed_appends_to_free_list(
                self.pools(),
                frames_at(completed@, self.cfg.frame_size),
            );
        }
        let _ = self.reclaim_completions(completed);
        self.stage_send(frame)
    }

    /// Take note of how many frames the TX ring took when it was offered the
    /// staged one. Returns whether the send is done: the TX ring took the frame,
    /// which is then in flight. Otherwise it stays staged, to be offered again.
    pub fn send_accepted(&mut self, accepted: usize) -> (done: bool)
        requires
            old(self).well_formed(),
        ensures
            done == (accepted > 0),
            final(self).well_formed(),
            final(self).pools() == if done {
                old(self).pools().sent()
            } else {
                old(self).pools()
            },
            final(self).last_batch() == old(self).last_batch(),
            final(self).spec_config() == old(self).spec_config(),
            final(self).spec_ip_id() == old(self).spec_ip_id(),
    {
        if accepted == 0 {
            return false;
        }
        if let Some(slot) = self.tx_staged {
            self.tx_inflight.push(slot);
            self.tx_staged = None;
        }
        true
    }

    /// Take note that the TX ring failed with `reason` when it was offered the
    /// staged frame. The frame may be with the kernel, so it is not reused until
    /// the COMPLETION ring returns it.
    pub fn send_failed(&mut self, reason: String) -> (error: XdpError)
        requires
            old(self).well_formed(),
        ensures
            error == XdpError::Transport(reason),
            final(self).well_formed(),
            final(self).pools() == old(self).pools().send_failed(),
            final(self).last_batch() == old(self).last_batch(),
            final(self).spec_config() == old(self).spec_config(),
            final(self).spec_ip_id() == old(self).spec_ip_id(),
    {
        self.tx_staged = None;
        XdpError::Transport(reason)
    }

    /// How many completions to take from the COMPLETION ring at most: the number
    /// of frames in flight. With none in flight the ring need not be asked.
    pub fn completion_room(&self) -> (room: usize)
        ensures
            room == self.pools().tx_inflight.len(),
    {
        self.tx_inflight.len()
    }

    /// Move completed TX frames, given by the UMEM addresses that the COMPLETION
    /// ring returned, back onto the free list. Returns the number of frames.
    pub fn reclaim_completions(&mut self, addrs: &[usize]) -> (reclaimed: usize)
        requires
            old(self).well_formed(),
        ensures
            reclaimed == addrs@.len(),
            final(self).well_formed(),
            final(self).pools() == old(self).pools().completed(
                frames_at(addrs@, old(self).spec_config().frame_size),
            ),
            final(self).last_batch() == old(self).last_batch(),
            final(self).spec_config() == old(self).spec_config(),
            final(self).spec_ip_id() == old(self).spec_ip_id(),
    {
        let ghost frames = frames_at(addrs@, self.cfg.frame_size);
        let mut left: usize = addrs.len();
        assert(frames.take(left as int) =~= frames);
        while left > 0
            invariant
                left <= addrs@.len(),
                frames == frames_at(addrs@, self.cfg.frame_size),
                self.well_formed(),
                self.cfg == old(self).cfg,
                self.rx_batch == old(self).rx_batch,
                self.rx_returned == old(self).rx_returned,
                self.ip_id == old(self).ip_id,
                self.pools().completed(frames.take(left as int)) == old(self).pools().completed(
                    frames,
                ),
            decreases left,
        {
            let ghost before = self.pools();
            left = left - 1;
            let frame: usize = addrs[left] / self.cfg.frame_size as usize;
            self.tx_free.push(frame);
            remove_frame(&mut self.tx_inflight, frame);
            proof {
                let done = frames.take(left + 1);
                assert(done.last() == frame);
                assert(done.drop_last() =~= frames.take(left as int));
                assert(self.pools() == before.completed_one(frame));
            }
        }
        assert(frames.take(0) =~= Seq::empty());
        addrs.len()
    }

    /// Number of TX frames currently available to send.
    pub fn free_tx_frames(&self) -> (free: usize)
        ensures
            free == self.pools().tx_free.len(),
    {
        self.tx_free.len()
    }

    /// The identification for the datagram at hand; the next one gets the next.
    pub fn next_ip_id(&mut self) -> (id: u16)
        ensures
            id == old(self).spec_ip_id(),
            final(self).spec_ip_id() == ip_id_after(id, 1),
            final(self).well_formed() == old(self).well_formed(),
            final(self).pools() == old(self).pools(),
            final(self).last_batch() == old(self).last_batch(),
            final(self).spec_config() == old(self).spec_config(),
    {
        let id: u16 = self.ip_id;
        self.ip_id = self.ip_id.wrapping_add(1);
        id
    }
}

/// Remove the first occurrence of `frame`, if there is one.
fn remove_frame(frames: &mut Vec<usize>, frame: usize)
    ensures
        final(frames)@ == old(frames)@.remove_value(frame),
{
    let ghost before = frames@;
    let mut i: usize = 0;
    while i < frames.len()
        invariant
            i <= frames@.len(),
            before == old(frames)@,
            frames@ == before,
            forall|j: int| 0 <= j < i ==> before[j] != frame,
        decreases frames@.len() - i,
    {
        if frames[i] == frame {
            proof {
                assert(before[i as int] == frame);
                assert(before.contains(frame));
                before.index_of_first_ensures(frame);
                let at = before.index_of_first(frame)->0;
                assert(at == i);
            }
            let _ = frames.remove(i);
            return ;
        }
        i = i + 1;
    }
    proof {
        before.index_of_first_ensures(frame);
    }
}

/// The frame numbers from `start` up to, not including, `end`.
fn frame_range(start: usize, end: usize) -> (frames: Vec<usize>)
    requires
        start <= end,
    ensures
        frames@ == Seq::new((end - start) as nat, |i: int| (start + i) as usize),
{
    let mut frames: Vec<usize> = Vec::with_capacity(end - start);
    let mut next: usize = start;
    while next < end
        invariant
            start <= next <= end,
            frames@ == Seq::new((next - start) as nat, |i: int| (start + i) as usize),
        decreases end - next,
    {
        frames.push(next);
        next = next + 1;
        assert(frames@ =~= Seq::new((next - start) as nat, |i: int| (start + i) as usize));
    }
    frames
}

/// The configuration of a socket is always valid, and its pools are made of the
/// frames that the configuration counts.
pub proof fn socket_fits_its_config(socket: XdpSocket)
    requires
        socket.well_formed(),
    ensures
        socket.spec_config().config_error() is None,
        socket.pools().frame_count == socket.spec_config().frame_count,
        socket.pools().frame_count <= u32::MAX,
{
}

/// An address inside frame `frame` belongs to that frame.
pub proof fn address_names_its_frame(frame: usize, offset: int, frame_size: u32, addr: usize)
    requires
        0 <= offset < frame_size,
        addr == frame * frame_size + offset,
    ensures
        frames_at(seq![addr], frame_size) == seq![frame],
{
    lemma_fundamental_div_mod_converse(
        addr as int,
        frame_size as int,
        frame as int,
        offset,
    );
    assert(frames_at(seq![addr], frame_size) =~= seq![frame]);
}

/// Each address of a batch names the frame that it lies in, whatever the length of
/// the batch and wherever in the frame the address points.
pub proof fn addresses_name_their_frames(addrs: Seq<usize>, frame_size: u32)
    requires
        frame_size > 0,
    ensures
        frames_at(addrs, frame_size).len() == addrs.len(),
        forall|i: int|
            #![trigger frames_at(addrs, frame_size)[i]]
            0 <= i < addrs.len() ==> frames_at(addrs, frame_size)[i] * frame_size <= addrs[i]
                < frames_at(addrs, frame_size)[i] * frame_size + frame_size,
        forall|i: int, frame: usize, offset: int|
            #![trigger frames_at(addrs, frame_size)[i], frame * frame_size + offset]
            0 <= i < addrs.len() && 0 <= offset < frame_size && addrs[i] == frame * frame_size
                + offset ==> frames_at(addrs, frame_size)[i] == frame,
{
    let size = frame_size as int;
    assert forall|i: int|
        #![trigger frames_at(addrs, frame_size)[i]]
        0 <= i < addrs.len() implies frames_at(addrs, frame_size)[i] * frame_size <= addrs[i]
        < frames_at(addrs, frame_size)[i] * frame_size + frame_size by {
        let addr = addrs[i] as int;
        lemma_fundamental_div_mod(addr, size);
        assert(0 <= addr / size <= addr) by (nonlinear_arith)
            requires
                size > 0,
                addr >= 0,
        ;
        assert((addr / size) * size == size * (addr / size)) by (nonlinear_arith);
    }
    assert forall|i: int, frame: usize, offset: int|
        #![trigger frames_at(addrs, frame_size)[i], frame * frame_size + offset]
        0 <= i < addrs.len() && 0 <= offset < frame_size && addrs[i] == frame * frame_size
            + offset implies frames_at(addrs, frame_size)[i] == frame by {
        lemma_fundamental_div_mod_converse(addrs[i] as int, size, frame as int, offset);
    }
}

/// The identification that comes next is one more, and zero after 0xffff; coming
/// `n` after another is counting on `n` times.
pub proof fn ip_ids_count_modulo_65536(id: u16, n: nat)
    ensures
        ip_id_after(id, 0) == id,
        ip_id_after(id, 1) == if id == 0xffff {
            0
        } else {
            id + 1
        },
        ip_id_after(id, n + 1) == ip_id_after(ip_id_after(id, n), 1),
        ip_id_after(id, n) == (id + n) % 0x1_0000,
{
}

/// Stamping sets the identification and touches nothing else.
pub proof fn stamping_touches_only_the_id<'a>(frame: UdpFrame<'a>, ip_id: u16)
    ensures
        stamped(frame, ip_id).ip_id == ip_id,
        stamped(frame, ip_id).dst_mac == frame.dst_mac,
        stamped(frame, ip_id).src_mac == frame.src_mac,
        stamped(frame, ip_id).src_ip == frame.src_ip,
        stamped(frame, ip_id).dst_ip == frame.dst_ip,
        stamped(frame, ip_id).src_port == frame.src_port,
        stamped(frame, ip_id).dst_port == frame.dst_port,
        stamped(frame, ip_id).ttl == frame.ttl,
        stamped(frame, ip_id).payload == frame.payload,
{
}

/// The identifications of 65536 datagrams in a row all differ.
pub proof fn ip_ids_differ(id: u16, m: nat, n: nat)
    requires
        m < n < m + 0x1_0000,
    ensures
        ip_id_after(id, m) != ip_id_after(id, n),
        ip_id_after(ip_id_after(id, m), 1) == ip_id_after(id, m + 1),
{
}

/// The datagrams of a socket count up: the `i`-th of those staged in a row carries
/// the identification that comes `i` after the first one's, the counter ends as
/// many further as datagrams were staged, and no two within 65536 of each other
/// carry the same.
///
/// `before[i]` and `after[i]` are the socket before and after it staged
/// `frames[i]` as `staged[i]`. What happens between two stagings leaves the
/// counter alone.
pub proof fn staged_ids_count_up<'a>(
    before: Seq<XdpSocket>,
    after: Seq<XdpSocket>,
    frames: Seq<UdpFrame<'a>>,
    staged: Seq<UdpFrame<'a>>,
)
    requires
        before.len() == frames.len(),
        after.len() == frames.len(),
        staged.len() == frames.len(),
        forall|i: int|
            #![trigger staged[i]]
            0 <= i < staged.len() ==> {
                &&& staged[i] == stamped(frames[i], before[i].spec_ip_id())
                &&& after[i].spec_ip_id() == ip_id_after(before[i].spec_ip_id(), 1)
            },
        forall|i: int|
            0 < i < before.len() ==> (#[trigger] before[i]).spec_ip_id() == after[i
                - 1].spec_ip_id(),
    ensures
        forall|i: int|
            0 <= i < staged.len() ==> #[trigger] staged[i] == stamped(
                frames[i],
                ip_id_after(before[0].spec_ip_id(), i as nat),
            ),
        after.len() > 0 ==> after.last().spec_ip_id() == ip_id_after(
            before[0].spec_ip_id(),
            after.len(),
        ),
        forall|i: int, j: int|
            0 <= i < j < staged.len() && j - i < 0x1_0000 ==> (#[trigger] staged[i]).ip_id != (
            #[trigger] staged[j]).ip_id,
    decreases staged.len(),
{
    if staged.len() > 0 {
        let last = staged.len() - 1;
        assert(staged[last] == stamped(frames[last], before[last].spec_ip_id()));
        if last > 0 {
            staged_ids_count_up(
                before.drop_last(),
                after.drop_last(),
                frames.drop_last(),
                staged.drop_last(),
            );
            assert(before[last].spec_ip_id() == after.drop_last().last().spec_ip_id());
        }
        assert forall|i: int| 0 <= i < staged.len() implies #[trigger] staged[i] == stamped(
            frames[i],
            ip_id_after(before[0].spec_ip_id(), i as nat),
        ) by {
            if i < last {
                assert(staged[i] == staged.drop_last()[i]);
            }
        }
    }
}

/// A datagram whose payload passed the check of a socket with a valid
/// configuration fits in one UMEM frame, headers included, and parses back to
/// itself, identification and all.
pub proof fn accepted_payload_fits<'a>(cfg: XdpConfig, frame: UdpFrame<'a>, ip_id: u16)
    requires
        cfg.config_error() is None,
        frame.payload@.len() <= cfg.frame_size - HDR_OVERHEAD,
    ensures
        stamped(frame, ip_id).spec_encoded_len() <= cfg.frame_size,
        stamped(frame, ip_id).encodable(),
        frame_error(stamped(frame, ip_id).encoding()) is None,
        datagram_of(stamped(frame, ip_id).encoding()) == frame.datagram(),
{
    let spec = stamped(frame, ip_id);
    spec.parse_undoes_encode(Seq::empty());
    assert(spec.encoding() + Seq::empty() =~= spec.encoding());
}

/// A power of two that does not fit in 32 bits has nothing in its low 32 bits.
proof fn lemma_large_power_of_two(n: int)
    requires
        is_pow2(n),
    ensures
        n > u32::MAX <==> n % 0x1_0000_0000 == 0,
{
    reveal(is_pow2);
    lemma2_to64();
    lemma_multiple_of_smaller_power(n, 32);
}

proof fn lemma_multiple_of_smaller_power(n: int, k: nat)
    requires
        is_pow2(n),
    ensures
        n >= pow2(k) ==> n % pow2(k) as int == 0,
    decreases k,
{
    reveal(is_pow2);
    lemma_pow2_pos(k);
    if k == 0 {
        lemma2_to64();
    } else if n >= pow2(k) {
        let half = pow2((k - 1) as nat) as int;
        let q = (n / 2) / half;
        lemma_pow2_unfold(k);
        lemma_pow2_pos((k - 1) as nat);
        lemma_multiple_of_smaller_power(n / 2, (k - 1) as nat);
        lemma_fundamental_div_mod(n / 2, half);
        assert(n == q * (2 * half)) by (nonlinear_arith)
            requires
                n == 2 * (n / 2),
                n / 2 == half * q,
        ;
        lemma_mod_multiples_basic(q, 2 * half);
    }
}

} // verus!
