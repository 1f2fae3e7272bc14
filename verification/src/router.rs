//! Relay-side message routing: N viewer connections bridged to the single
//! authority connection, through bounded FIFO queues.

use vstd::prelude::*;

verus! {

/// One frame crossing the relay: status text, raw bytes, or a close.
#[derive(Debug)]
pub enum Frame {
    Text(String),
    Binary(Vec<u8>),
    Close,
}

/// Spec-level image of a [`Frame`].
pub enum FrameView {
    Text(Seq<char>),
    Binary(Seq<u8>),
    Close,
}

impl View for Frame {
    type V = FrameView;

    open spec fn view(&self) -> FrameView {
        match self {
            Frame::Text(t) => FrameView::Text(t@),
            Frame::Binary(b) => FrameView::Binary(b@),
            Frame::Close => FrameView::Close,
        }
    }
}

/// A copy of a byte buffer.
fn clone_bytes(v: &Vec<u8>) -> (r: Vec<u8>)
    ensures
        r@ == v@,
{
    let mut r: Vec<u8> = Vec::new();
    let mut i: usize = 0;
    while i < v.len()
        invariant
            0 <= i <= v@.len(),
            r@ =~= v@.take(i as int),
        decreases v@.len() - i,
    {
        r.push(v[i]);
        proof {
            assert(v@.take(i as int).push(v@[i as int]) =~= v@.take(i as int + 1));
        }
        i = i + 1;
    }
    proof {
        assert(v@.take(v@.len() as int) =~= v@);
    }
    r
}

impl Clone for Frame {
    fn clone(&self) -> (f: Self)
        ensures
            f@ == self@,
    {
        match self {
            Frame::Text(t) => Frame::Text(t.clone()),
            Frame::Binary(b) => Frame::Binary(clone_bytes(b)),
            Frame::Close => Frame::Close,
        }
    }
}

/// What pushing onto a bounded queue leaves behind: control-change data is
/// real time, so when the queue is full the newest frame is dropped rather
/// than blocking or displacing older ones.
pub open spec fn queue_push(q: Seq<FrameView>, capacity: int, f: FrameView) -> Seq<FrameView> {
    if q.len() < capacity {
        q.push(f)
    } else {
        q
    }
}

/// A bounded FIFO queue of frames. Frames leave in the order they entered;
/// a frame pushed while the queue is full is dropped (drop-newest policy).
pub struct BoundedQueue {
    frames: Vec<Frame>,
    capacity: usize,
}

impl View for BoundedQueue {
    type V = Seq<FrameView>;

    closed spec fn view(&self) -> Seq<FrameView> {
        self.frames@.map_values(|f: Frame| f@)
    }
}

impl BoundedQueue {
    /// The configured bound.
    pub closed spec fn capacity_spec(&self) -> int {
        self.capacity as int
    }

    /// The queue never holds more frames than its bound.
    pub open spec fn wf(&self) -> bool {
        self@.len() <= self.capacity_spec()
    }

    /// An empty queue holding at most `capacity` frames.
    pub fn new(capacity: usize) -> (q: Self)
        ensures
            q.wf(),
            q@ == Seq::<FrameView>::empty(),
            q.capacity_spec() == capacity as int,
    {
        let q = BoundedQueue { frames: Vec::new(), capacity };
        proof {
            assert(q@ =~= Seq::<FrameView>::empty());
        }
        q
    }

    /// How many frames are waiting.
    pub fn len(&self) -> (n: usize)
        ensures
            n as int == self@.len(),
    {
        self.frames.len()
    }

    /// Accepts a frame at the back, unless the queue is full: then the frame
    /// is dropped and `false` comes back.
    pub fn push(&mut self, f: Frame) -> (accepted: bool)
        requires
            old(self).wf(),
        ensures
            final(self).wf(),
            final(self).capacity_spec() == old(self).capacity_spec(),
            final(self)@ == queue_push(old(self)@, old(self).capacity_spec(), f@),
            accepted == (old(self)@.len() < old(self).capacity_spec()),
    {
        if self.frames.len() < self.capacity {
            let ghost prev = self.frames@;
            self.frames.push(f);
            proof {
                assert(self@ =~= prev.map_values(|fr: Frame| fr@).push(f@));
            }
            true
        } else {
            false
        }
    }

    /// Hands out the oldest waiting frame, if any.
    pub fn pop(&mut self) -> (r: Option<Frame>)
        requires
            old(self).wf(),
        ensures
            final(self).wf(),
            final(self).capacity_spec() == old(self).capacity_spec(),
            match r {
                Some(f) => old(self)@.len() > 0 && f@ == old(self)@[0] && final(self)@ == old(
                    self,
                )@.drop_first(),
                None => old(self)@.len() == 0 && final(self)@ == old(self)@,
            },
    {
        if self.frames.len() == 0 {
            None
        } else {
            let ghost prev = self.frames@;
            let f = self.frames.remove(0);
            proof {
                prev.remove_ensures(0);
                assert(self@ =~= prev.map_values(|fr: Frame| fr@).drop_first());
            }
            Some(f)
        }
    }
}

/// Bridges any number of viewer connections to the one authority
/// connection: viewer frames fan in to the authority only while a session is
/// active, authority frames fan out to every viewer.
pub struct MessageRouter {
    bridge: BoundedQueue,
    viewers: Vec<BoundedQueue>,
    capacity: usize,
}

impl MessageRouter {
    /// Frames waiting for the authority, oldest first.
    pub closed spec fn bridge_view(&self) -> Seq<FrameView> {
        self.bridge@
    }

    /// Frames waiting for each viewer, oldest first.
    pub closed spec fn viewers_view(&self) -> Seq<Seq<FrameView>> {
        self.viewers@.map_values(|q: BoundedQueue| q@)
    }

    /// The bound every queue was made with.
    pub closed spec fn capacity_spec(&self) -> int {
        self.capacity as int
    }

    /// Every queue respects the shared bound.
    pub closed spec fn wf(&self) -> bool {
        &&& self.bridge.wf()
        &&& self.bridge.capacity_spec() == self.capacity as int
        &&& forall|i: int|
            0 <= i < self.viewers@.len() ==> (#[trigger] self.viewers@[i]).wf()
                && self.viewers@[i].capacity_spec() == self.capacity as int
    }

    /// A router with no viewers yet, every queue bounded by `capacity`.
    pub fn new(capacity: usize) -> (r: Self)
        ensures
            r.wf(),
            r.bridge_view() == Seq::<FrameView>::empty(),
            r.viewers_view() == Seq::<Seq<FrameView>>::empty(),
            r.capacity_spec() == capacity as int,
    {
        let r = MessageRouter {
            bridge: BoundedQueue::new(capacity),
            viewers: Vec::new(),
            capacity,
        };
        proof {
            assert(r.viewers_view() =~= Seq::<Seq<FrameView>>::empty());
        }
        r
    }

    /// Registers one more viewer connection and hands back its slot.
    pub fn add_viewer(&mut self) -> (id: usize)
        requires
            old(self).wf(),
        ensures
            final(self).wf(),
            final(self).capacity_spec() == old(self).capacity_spec(),
            final(self).bridge_view() == old(self).bridge_view(),
            id as int == old(self).viewers_view().len(),
            final(self).viewers_view() == old(self).viewers_view().push(
                Seq::<FrameView>::empty(),
            ),
    {
        let id = self.viewers.len();
        let ghost prev = self.viewers@;
        self.viewers.push(BoundedQueue::new(self.capacity));
        proof {
            assert(self.viewers_view() =~= prev.map_values(|q: BoundedQueue| q@).push(
                Seq::<FrameView>::empty(),
            ));
        }
        id
    }

    /// A frame arriving from a viewer. It is forwarded towards the authority
    /// exactly when a session is active; otherwise it is silently dropped,
    /// on purpose: relay delivery is best effort, and no error is surfaced
    /// to the viewer. A forwarded frame can still be dropped by a full
    /// bridge queue.
    pub fn forward_viewer_frame(&mut self, active: bool, frame: Frame) -> (accepted: bool)
        requires
            old(self).wf(),
        ensures
            final(self).wf(),
            final(self).capacity_spec() == old(self).capacity_spec(),
            final(self).viewers_view() == old(self).viewers_view(),
            active ==> final(self).bridge_view() == queue_push(
                old(self).bridge_view(),
                old(self).capacity_spec(),
                frame@,
            ) && accepted == (old(self).bridge_view().len() < old(self).capacity_spec()),
            !active ==> final(self).bridge_view() == old(self).bridge_view() && !accepted,
    {
        if active {
            self.bridge.push(frame)
        } else {
            false
        }
    }

    /// The oldest viewer frame waiting for the authority, if any.
    pub fn next_for_authority(&mut self) -> (r: Option<Frame>)
        requires
            old(self).wf(),
        ensures
            final(self).wf(),
            final(self).capacity_spec() == old(self).capacity_spec(),
            final(self).viewers_view() == old(self).viewers_view(),
            match r {
                Some(f) => old(self).bridge_view().len() > 0 && f@ == old(self).bridge_view()[0]
                    && final(self).bridge_view() == old(self).bridge_view().drop_first(),
                None => old(self).bridge_view().len() == 0 && final(self).bridge_view() == old(
                    self,
                ).bridge_view(),
            },
    {
        self.bridge.pop()
    }

    /// The oldest broadcast frame waiting for one viewer, if any; a slot
    /// that was never handed out holds nothing.
    pub fn next_for_viewer(&mut self, id: usize) -> (r: Option<Frame>)
        requires
            old(self).wf(),
        ensures
            final(self).wf(),
            final(self).capacity_spec() == old(self).capacity_spec(),
            final(self).bridge_view() == old(self).bridge_view(),
            final(self).viewers_view().len() == old(self).viewers_view().len(),
            forall|j: int|
                0 <= j < old(self).viewers_view().len() && j != id as int
                    ==> final(self).viewers_view()[j] == #[trigger] old(self).viewers_view()[j],
            (id as int) >= old(self).viewers_view().len() ==> (r is None
                && final(self).viewers_view() == old(self).viewers_view()),
            (id as int) < old(self).viewers_view().len() ==> (match r {
                Some(f) => old(self).viewers_view()[id as int].len() > 0 && f@ == old(
                    self,
                ).viewers_view()[id as int][0] && final(self).viewers_view()[id as int] == old(
                    self,
                ).viewers_view()[id as int].drop_first(),
                None => old(self).viewers_view()[id as int].len() == 0
                    && final(self).viewers_view() == old(self).viewers_view(),
            }),
    {
        if id >= self.viewers.len() {
            return None;
        }
        let ghost prev = self.viewers@;
        let mut q = self.viewers.remove(id);
        let r = q.pop();
        let ghost qnew = q;
        self.viewers.insert(id, q);
        proof {
            prev.remove_ensures(id as int);
            prev.remove(id as int).insert_ensures(id as int, qnew);
            assert forall|j: int| 0 <= j < self.viewers@.len() implies self.viewers@[j] == (
            if j == id as int {
                qnew
            } else {
                prev[j]
            }) by {
                let mid = prev.remove(id as int);
                if j < id as int {
                    assert(self.viewers@[j] == mid[j]);
                    assert(mid[j] == prev[j]);
                } else if j > id as int {
                    assert(self.viewers@[j] == mid[j - 1]);
                    assert(mid[j - 1] == prev[j]);
                }
            }
            if r is None {
                assert(self.viewers_view() =~= prev.map_values(|qq: BoundedQueue| qq@));
            }
        }
        r
    }

    /// A frame emitted by the authority: a copy goes to every currently
    /// registered viewer, in slot order (a full viewer queue drops its
    /// copy). The authority-bound bridge is untouched.
    pub fn broadcast(&mut self, frame: &Frame)
        requires
            old(self).wf(),
        ensures
            final(self).wf(),
            final(self).capacity_spec() == old(self).capacity_spec(),
            final(self).bridge_view() == old(self).bridge_view(),
            final(self).viewers_view().len() == old(self).viewers_view().len(),
            forall|i: int|
                0 <= i < old(self).viewers_view().len() ==> final(self).viewers_view()[i]
                    == queue_push(
                    #[trigger] old(self).viewers_view()[i],
                    old(self).capacity_spec(),
                    frame@,
                ),
    {
        let n = self.viewers.len();
        let mut i: usize = 0;
        while i < n
            invariant
                0 <= i <= n,
                n as int == self.viewers@.len(),
                self.wf(),
                self.capacity == old(self).capacity,
                self.bridge_view() == old(self).bridge_view(),
                self.viewers@.len() == old(self).viewers@.len(),
                forall|j: int|
                    0 <= j < i ==> self.viewers_view()[j] == queue_push(
                        #[trigger] old(self).viewers_view()[j],
                        old(self).capacity_spec(),
                        frame@,
                    ),
                forall|j: int|
                    i <= j < n ==> #[trigger] self.viewers@[j] == old(self).viewers@[j],
            decreases n - i,
        {
            let f = frame.clone();
            let ghost prev = self.viewers@;
            let mut q = self.viewers.remove(i);
            let _accepted = q.push(f);
            let ghost qnew = q;
            self.viewers.insert(i, q);
            proof {
                prev.remove_ensures(i as int);
                prev.remove(i as int).insert_ensures(i as int, qnew);
                assert forall|j: int| 0 <= j < self.viewers@.len() implies self.viewers@[j] == (
                if j == i as int {
                    qnew
                } else {
                    prev[j]
                }) by {
                    let mid = prev.remove(i as int);
                    if j < i as int {
                        assert(self.viewers@[j] == mid[j]);
                        assert(mid[j] == prev[j]);
                    } else if j > i as int {
                        assert(self.viewers@[j] == mid[j - 1]);
                        assert(mid[j - 1] == prev[j]);
                    }
                }
                assert(self.viewers_view()[i as int] == qnew@);
                assert(old(self).viewers@[i as int]@ == old(self).viewers_view()[i as int]);
            }
            i = i + 1;
        }
        proof {
            assert forall|j: int|
                0 <= j < old(self).viewers_view().len() implies final(self).viewers_view()[j]
                == queue_push(
                #[trigger] old(self).viewers_view()[j],
                old(self).capacity_spec(),
                frame@,
            ) by {}
        }
    }
}

} // verus!
