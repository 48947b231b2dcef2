//! Frame buffers of the RF stack.
//!
//! A [`Frame`] is one contiguous buffer of [`MAX_FRAME`] bytes holding a
//! window `[start, end)`: layers going down prepend headers below `start` and
//! append trailers after `end`; layers going up strip them again. A
//! [`FramePool`] hands out a fixed number of frames by index.

use vstd::prelude::*;
use crate::comms::error::CommsError;

verus! {

/// Total frame buffer size (a LoRaWAN PHYPayload is at most 256 bytes).
pub const MAX_FRAME: usize = 256;

/// Headroom reserved below a freshly written payload for layer headers.
pub const FRAME_HEADROOM: usize = 32;

/// Number of frames kept in a [`FramePool`].
pub const FRAME_POOL_SIZE: usize = 8;

/// One in-flight RF frame: a fixed buffer and the window of valid bytes.
#[derive(Clone, Debug)]
pub struct Frame {
    buf: Vec<u8>,
    start: usize,
    end: usize,
}

impl View for Frame {
    type V = Seq<u8>;

    /// The valid bytes `buf[start..end]`.
    closed spec fn view(&self) -> Seq<u8> {
        self.buf@.subrange(self.start as int, self.end as int)
    }
}

impl Frame {
    /// Well-formedness: a full buffer and an ordered window inside it.
    pub closed spec fn wf(&self) -> bool {
        &&& self.buf@.len() == MAX_FRAME
        &&& self.start <= self.end <= MAX_FRAME
    }

    /// The whole backing buffer.
    pub closed spec fn bytes(&self) -> Seq<u8> {
        self.buf@
    }

    /// Position of the first valid byte.
    pub closed spec fn head(&self) -> int {
        self.start as int
    }

    /// Position one past the last valid byte.
    pub closed spec fn tail(&self) -> int {
        self.end as int
    }

    /// Facts every well-formed frame satisfies.
    pub proof fn lemma_wf(&self)
        requires
            self.wf(),
        ensures
            self.bytes().len() == MAX_FRAME,
            0 <= self.head() <= self.tail() <= MAX_FRAME,
            self@ == self.bytes().subrange(self.head(), self.tail()),
            self@.len() == self.tail() - self.head(),
    {
    }

    /// The window is the slice `[head, tail)` of the buffer.
    pub proof fn lemma_view(&self)
        ensures
            self@ == self.bytes().subrange(self.head(), self.tail()),
            self.head() >= 0,
            self.tail() >= 0,
    {
    }

    /// A full buffer with an ordered window is well-formed.
    pub proof fn lemma_wf_intro(&self)
        requires
            self.bytes().len() == MAX_FRAME,
            self.head() <= self.tail() <= MAX_FRAME,
        ensures
            self.wf(),
    {
    }

    /// A new transmit frame: empty window at [`FRAME_HEADROOM`].
    pub fn new() -> (f: Frame)
        ensures
            f.wf(),
            f.head() == FRAME_HEADROOM,
            f.tail() == FRAME_HEADROOM,
            f@ == Seq::<u8>::empty(),
            f.bytes() == Seq::new(MAX_FRAME as nat, |i: int| 0u8),
    {
        let buf: Vec<u8> = vec![0u8; MAX_FRAME];
        let f = Frame { buf, start: FRAME_HEADROOM, end: FRAME_HEADROOM };
        assert(f.bytes() =~= Seq::new(MAX_FRAME as nat, |i: int| 0u8));
        assert(f@ =~= Seq::<u8>::empty());
        f
    }

    /// Writes an application payload at [`FRAME_HEADROOM`], replacing the
    /// window; fails when it does not fit above the headroom.
    pub fn write_payload(&mut self, data: &[u8]) -> (r: Result<(), CommsError>)
        requires
            old(self).wf(),
        ensures
            final(self).wf(),
            data@.len() > MAX_FRAME - FRAME_HEADROOM ==> r == Err::<(), CommsError>(
                CommsError::BufferTooSmall,
            ) && *final(self) == *old(self),
            data@.len() <= MAX_FRAME - FRAME_HEADROOM ==> {
                &&& r is Ok
                &&& final(self).head() == FRAME_HEADROOM
                &&& final(self)@ == data@
                &&& forall|i: int|
                    0 <= i < MAX_FRAME && !(FRAME_HEADROOM <= i < FRAME_HEADROOM + data@.len())
                        ==> #[trigger] final(self).bytes()[i] == old(self).bytes()[i]
            },
    {
        if data.len() > MAX_FRAME - FRAME_HEADROOM {
            return Err(CommsError::BufferTooSmall);
        }
        let n = data.len();
        let mut i: usize = 0;
        while i < n
            invariant
                n == data@.len(),
                n <= MAX_FRAME - FRAME_HEADROOM,
                i <= n,
                self.buf@.len() == MAX_FRAME,
                self.start == old(self).start,
                self.end == old(self).end,
                forall|k: int| 0 <= k < i ==> #[trigger] self.buf@[FRAME_HEADROOM + k] == data@[k],
                forall|k: int|
                    0 <= k < MAX_FRAME && !(FRAME_HEADROOM <= k < FRAME_HEADROOM + i)
                        ==> #[trigger] self.buf@[k] == old(self).buf@[k],
            decreases n - i,
        {
            self.buf.set(FRAME_HEADROOM + i, data[i]);
            i = i + 1;
        }
        self.start = FRAME_HEADROOM;
        self.end = FRAME_HEADROOM + n;
        assert(self@ =~= data@) by {
            assert forall|k: int| 0 <= k < n implies self@[k] == data@[k] by {
                assert(self.buf@[FRAME_HEADROOM + k] == data@[k]);
            }
        }
        Ok(())
    }

    /// Prepends header bytes below the window (a layer going down); fails
    /// when the headroom is smaller than the header.
    pub fn prepend_header(&mut self, header: &[u8]) -> (r: Result<(), CommsError>)
        requires
            old(self).wf(),
        ensures
            final(self).wf(),
            old(self).head() < header@.len() ==> r == Err::<(), CommsError>(
                CommsError::BufferTooSmall,
            ) && *final(self) == *old(self),
            old(self).head() >= header@.len() ==> {
                &&& r is Ok
                &&& final(self).head() == old(self).head() - header@.len()
                &&& final(self).tail() == old(self).tail()
                &&& final(self)@ == header@ + old(self)@
                &&& forall|i: int|
                    0 <= i < MAX_FRAME && !(final(self).head() <= i < old(self).head())
                        ==> #[trigger] final(self).bytes()[i] == old(self).bytes()[i]
            },
    {
        let n = header.len();
        if self.start < n {
            return Err(CommsError::BufferTooSmall);
        }
        let s = self.start - n;
        let mut i: usize = 0;
        while i < n
            invariant
                n == header@.len(),
                s + n == old(self).start,
                old(self).wf(),
                i <= n,
                self.buf@.len() == MAX_FRAME,
                self.start == old(self).start,
                self.end == old(self).end,
                forall|k: int| 0 <= k < i ==> #[trigger] self.buf@[s + k] == header@[k],
                forall|k: int|
                    0 <= k < MAX_FRAME && !(s <= k < s + i) ==> #[trigger] self.buf@[k]
                        == old(self).buf@[k],
            decreases n - i,
        {
            self.buf.set(s + i, header[i]);
            i = i + 1;
        }
        self.start = s;
        assert(self@ =~= header@ + old(self)@) by {
            assert forall|k: int| 0 <= k < self@.len() implies self@[k] == (header@ + old(
                self,
            )@)[k] by {
                if k < n {
                    assert(self.buf@[s + k] == header@[k]);
                } else {
                    assert(self.buf@[s + k] == old(self).buf@[s + k]);
                }
            }
        }
        Ok(())
    }

    /// Appends trailer bytes after the window (e.g. a MIC); fails when they
    /// do not fit in the buffer.
    pub fn append_trailer(&mut self, trailer: &[u8]) -> (r: Result<(), CommsError>)
        requires
            old(self).wf(),
        ensures
            final(self).wf(),
            old(self).tail() + trailer@.len() > MAX_FRAME ==> r == Err::<(), CommsError>(
                CommsError::BufferTooSmall,
            ) && *final(self) == *old(self),
            old(self).tail() + trailer@.len() <= MAX_FRAME ==> {
                &&& r is Ok
                &&& final(self).head() == old(self).head()
                &&& final(self).tail() == old(self).tail() + trailer@.len()
                &&& final(self)@ == old(self)@ + trailer@
                &&& forall|i: int|
                    0 <= i < MAX_FRAME && !(old(self).tail() <= i < final(self).tail())
                        ==> #[trigger] final(self).bytes()[i] == old(self).bytes()[i]
            },
    {
        let n = trailer.len();
        if n > MAX_FRAME - self.end {
            return Err(CommsError::BufferTooSmall);
        }
        let e = self.end;
        let mut i: usize = 0;
        while i < n
            invariant
                n == trailer@.len(),
                e == old(self).end,
                e + n <= MAX_FRAME,
                old(self).wf(),
                i <= n,
                self.buf@.len() == MAX_FRAME,
                self.start == old(self).start,
                self.end == old(self).end,
                forall|k: int| 0 <= k < i ==> #[trigger] self.buf@[e + k] == trailer@[k],
                forall|k: int|
                    0 <= k < MAX_FRAME && !(e <= k < e + i) ==> #[trigger] self.buf@[k]
                        == old(self).buf@[k],
            decreases n - i,
        {
            self.buf.set(e + i, trailer[i]);
            i = i + 1;
        }
        self.end = e + n;
        assert(self@ =~= old(self)@ + trailer@) by {
            assert forall|k: int| 0 <= k < self@.len() implies self@[k] == (old(self)@
                + trailer@)[k] by {
                if k < old(self)@.len() {
                    assert(self.buf@[self.start + k] == old(self).buf@[self.start + k]);
                } else {
                    assert(self.buf@[e + (k - old(self)@.len())] == trailer@[k
                        - old(self)@.len()]);
                }
            }
        }
        Ok(())
    }

    /// Strips `n` header bytes from the front of the window (a layer going
    /// up) and returns them; fails when the window is shorter than `n`.
    pub fn strip_header(&mut self, n: usize) -> (r: Result<Vec<u8>, CommsError>)
        requires
            old(self).wf(),
        ensures
            final(self).wf(),
            final(self).bytes() == old(self).bytes(),
            final(self).tail() == old(self).tail(),
            old(self)@.len() < n ==> r == Err::<Vec<u8>, CommsError>(CommsError::MacError)
                && *final(self) == *old(self),
            old(self)@.len() >= n ==> r is Ok && r->Ok_0@ == old(self)@.subrange(0, n as int)
                && final(self)@ == old(self)@.subrange(n as int, old(self)@.len() as int)
                && final(self).head() == old(self).head() + n,
    {
        if self.end - self.start < n {
            return Err(CommsError::MacError);
        }
        let s = self.start;
        let out = self.copy_range(s, s + n);
        self.start = s + n;
        assert(self@ =~= old(self)@.subrange(n as int, old(self)@.len() as int));
        assert(out@ =~= old(self)@.subrange(0, n as int));
        Ok(out)
    }

    /// Trims `n` trailer bytes from the end of the window (e.g. a MIC after
    /// verification) and returns them; fails when the window is shorter.
    pub fn trim_trailer(&mut self, n: usize) -> (r: Result<Vec<u8>, CommsError>)
        requires
            old(self).wf(),
        ensures
            final(self).wf(),
            final(self).bytes() == old(self).bytes(),
            final(self).head() == old(self).head(),
            old(self)@.len() < n ==> r == Err::<Vec<u8>, CommsError>(CommsError::MacError)
                && *final(self) == *old(self),
            old(self)@.len() >= n ==> r is Ok && r->Ok_0@ == old(self)@.subrange(
                old(self)@.len() - n,
                old(self)@.len() as int,
            ) && final(self)@ == old(self)@.subrange(0, old(self)@.len() - n)
                && final(self).tail() == old(self).tail() - n,
    {
        if self.end - self.start < n {
            return Err(CommsError::MacError);
        }
        let e = self.end - n;
        let out = self.copy_range(e, e + n);
        self.end = e;
        assert(self@ =~= old(self)@.subrange(0, old(self)@.len() - n));
        assert(out@ =~= old(self)@.subrange(old(self)@.len() - n, old(self)@.len() as int));
        Ok(out)
    }

    /// Copies `buf[a..b]` into a new vector.
    fn copy_range(&self, a: usize, b: usize) -> (v: Vec<u8>)
        requires
            self.wf(),
            a <= b <= MAX_FRAME,
        ensures
            v@ == self.bytes().subrange(a as int, b as int),
    {
        let mut v: Vec<u8> = Vec::new();
        let mut i = a;
        while i < b
            invariant
                self.wf(),
                a <= i <= b <= MAX_FRAME,
                v@ == self.bytes().subrange(a as int, i as int),
            decreases b - i,
        {
            v.push(self.buf[i]);
            i = i + 1;
            assert(v@ =~= self.bytes().subrange(a as int, i as int));
        }
        v
    }

    /// The valid bytes `buf[start..end]`.
    pub fn payload(&self) -> (p: &[u8])
        requires
            self.wf(),
        ensures
            p@ == self@,
    {
        vstd::slice::slice_subrange(self.buf.as_slice(), self.start, self.end)
    }

    /// Mutable access to the valid bytes; the window itself stays put.
    pub fn payload_mut(&mut self) -> (p: &mut [u8])
        requires
            old(self).wf(),
        ensures
            p@ == old(self)@,
            final(self).head() == old(self).head(),
            final(self).tail() == old(self).tail(),
            final(self).bytes() == old(self).bytes().subrange(0, old(self).head()) + final(p)@
                + old(self).bytes().subrange(old(self).tail(), MAX_FRAME as int),
    {
        let s = self.start;
        let e = self.end;
        let all = self.buf.as_mut_slice();
        let (_below, rest) = all.split_at_mut(s);
        let (window, _above) = rest.split_at_mut(e - s);
        window
    }

    /// Number of valid bytes.
    pub fn len(&self) -> (n: usize)
        requires
            self.wf(),
        ensures
            n == self@.len(),
    {
        self.end - self.start
    }

    /// Whether the window is empty.
    pub fn is_empty(&self) -> (b: bool)
        requires
            self.wf(),
        ensures
            b == (self@.len() == 0),
    {
        self.start == self.end
    }

    /// The bytes handed to the radio for transmission (the valid window).
    pub fn phy_bytes(&self) -> (p: &[u8])
        requires
            self.wf(),
        ensures
            p@ == self@,
    {
        self.payload()
    }

    /// The whole backing buffer, for the radio to write a received frame
    /// into; [`Frame::set_received_len`] must follow before layers read it.
    pub fn raw_buf_for_dma(&mut self) -> (b: &mut [u8])
        requires
            old(self).wf(),
        ensures
            b@ == old(self).bytes(),
            final(self).bytes() == final(b)@,
            final(self).head() == old(self).head(),
            final(self).tail() == old(self).tail(),
    {
        self.buf.as_mut_slice()
    }

    /// Marks the first `n` bytes (at most [`MAX_FRAME`]) as a received frame.
    pub fn set_received_len(&mut self, n: usize)
        requires
            old(self).wf(),
        ensures
            final(self).wf(),
            final(self).bytes() == old(self).bytes(),
            final(self).head() == 0,
            final(self).tail() == (if n < MAX_FRAME { n } else { MAX_FRAME }),
    {
        self.start = 0;
        self.end = if n < MAX_FRAME { n } else { MAX_FRAME };
    }

    /// A frame whose window holds exactly `data` starting at position 0, as
    /// the radio delivers a received frame.
    pub fn from_received(data: &[u8]) -> (f: Frame)
        requires
            data@.len() <= MAX_FRAME,
        ensures
            f.wf(),
            f.head() == 0,
            f@ == data@,
    {
        let mut f = Frame::new();
        let n = data.len();
        let mut i: usize = 0;
        while i < n
            invariant
                n == data@.len() <= MAX_FRAME,
                i <= n,
                f.wf(),
                forall|k: int| 0 <= k < i ==> #[trigger] f.buf@[k] == data@[k],
            decreases n - i,
        {
            f.buf.set(i, data[i]);
            i = i + 1;
        }
        f.start = 0;
        f.end = n;
        assert(f@ =~= data@);
        f
    }
}

/// Law: a received frame holds exactly what the radio wrote: once its
/// backing buffer starts with `data` (written through
/// [`Frame::raw_buf_for_dma`]) and its window is marked as the first
/// `data.len()` bytes ([`Frame::set_received_len`]), in either order, the
/// window is `data`.
pub proof fn lemma_received_window(f: Frame, data: Seq<u8>)
    requires
        f.wf(),
        data.len() <= MAX_FRAME,
        f.head() == 0,
        f.tail() == data.len(),
        f.bytes().subrange(0, data.len() as int) == data,
    ensures
        f@ == data,
{
    f.lemma_wf();
}

/// Law: stripping as many bytes as were prepended gives back the header
/// and the window it was prepended to.
pub proof fn lemma_prepend_strip(header: Seq<u8>, window: Seq<u8>)
    ensures
        (header + window).subrange(0, header.len() as int) == header,
        (header + window).subrange(header.len() as int, (header + window).len() as int) == window,
{
    assert((header + window).subrange(0, header.len() as int) =~= header);
    assert((header + window).subrange(header.len() as int, (header + window).len() as int) =~= window);
}

/// Law: trimming as many bytes as were appended gives back the trailer and
/// the window it was appended to.
pub proof fn lemma_append_trim(window: Seq<u8>, trailer: Seq<u8>)
    ensures
        (window + trailer).subrange((window + trailer).len() - trailer.len(), (window + trailer).len() as int) == trailer,
        (window + trailer).subrange(0, (window + trailer).len() - trailer.len()) == window,
{
    assert((window + trailer).subrange((window + trailer).len() - trailer.len(), (window + trailer).len() as int) =~= trailer);
    assert((window + trailer).subrange(0, (window + trailer).len() - trailer.len()) =~= window);
}

/// Law: a frame taken from the pool and freed again leaves the free slots
/// as they were.
pub proof fn lemma_alloc_free_restores(free: Set<u8>, i: u8)
    requires
        free.contains(i),
    ensures
        free.remove(i).insert(i) == free,
{
    assert(free.remove(i).insert(i) =~= free);
}

/// Index of a frame in a [`FramePool`].
#[derive(Clone, Copy, Debug, PartialEq, Eq, Structural)]
pub struct FrameIdx(u8);

impl View for FrameIdx {
    type V = u8;

    closed spec fn view(&self) -> u8 {
        self.0
    }
}

impl FrameIdx {
    /// The slot number.
    pub fn index(&self) -> (i: usize)
        ensures
            i == self@,
    {
        self.0 as usize
    }
}

/// Whether bit `i` of a free mask is set.
pub open spec fn mask_bit(mask: u8, i: u8) -> bool {
    (mask >> i) & 1u8 == 1u8
}

proof fn lemma_clear_bit(m: u8, b: u8, i: u8)
    requires
        b < 8,
        i < 8,
    ensures
        mask_bit(m & !(1u8 << b), i) == (i != b && mask_bit(m, i)),
{
    assert(mask_bit(m & !(1u8 << b), i) == (i != b && mask_bit(m, i))) by (bit_vector)
        requires
            b < 8,
            i < 8,
    ;
}

proof fn lemma_set_bit(m: u8, b: u8, i: u8)
    requires
        b < 8,
        i < 8,
    ensures
        mask_bit(m | (1u8 << b), i) == (i == b || mask_bit(m, i)),
{
    assert(mask_bit(m | (1u8 << b), i) == (i == b || mask_bit(m, i))) by (bit_vector)
        requires
            b < 8,
            i < 8,
    ;
}

/// A fixed pool of [`FRAME_POOL_SIZE`] frames handed out by index.
pub struct FramePool {
    frames: Vec<Frame>,
    free_mask: u8,
}

impl FramePool {
    /// Well-formedness: the full number of well-formed frames.
    pub closed spec fn wf(&self) -> bool {
        &&& self.frames@.len() == FRAME_POOL_SIZE
        &&& forall|i: int| 0 <= i < FRAME_POOL_SIZE ==> #[trigger] self.frames@[i].wf()
    }

    /// Slots that are free.
    pub closed spec fn free_set(&self) -> Set<u8> {
        Set::new(|i: u8| i < FRAME_POOL_SIZE && mask_bit(self.free_mask, i))
    }

    /// The frames, by slot.
    pub closed spec fn frames(&self) -> Seq<Frame> {
        self.frames@
    }

    /// A pool with every slot free.
    pub fn new() -> (p: FramePool)
        ensures
            p.wf(),
            p.free_set() == Set::new(|i: u8| i < FRAME_POOL_SIZE),
    {
        let mut frames: Vec<Frame> = Vec::new();
        let mut k: usize = 0;
        while k < FRAME_POOL_SIZE
            invariant
                k <= FRAME_POOL_SIZE,
                frames@.len() == k,
                forall|i: int| 0 <= i < k ==> #[trigger] frames@[i].wf(),
            decreases FRAME_POOL_SIZE - k,
        {
            frames.push(Frame::new());
            k = k + 1;
        }
        let p = FramePool { frames, free_mask: 0xFF };
        assert forall|i: u8| i < 8 implies #[trigger] mask_bit(0xFFu8, i) by {
            assert(i < 8 ==> mask_bit(0xFFu8, i)) by (bit_vector);
        }
        assert(p.free_set() =~= Set::new(|i: u8| i < FRAME_POOL_SIZE));
        p
    }

    /// Takes the lowest free slot out of the pool; `None` when every slot is
    /// taken.
    pub fn alloc_frame(&mut self) -> (r: Option<FrameIdx>)
        requires
            old(self).wf(),
        ensures
            final(self).wf(),
            final(self).frames() == old(self).frames(),
            old(self).free_set().is_empty() ==> r is None && final(self).free_set() == old(
                self,
            ).free_set(),
            !old(self).free_set().is_empty() ==> r is Some && {
                let i = r->Some_0@;
                &&& i < FRAME_POOL_SIZE
                &&& old(self).free_set().contains(i)
                &&& forall|j: u8| j < i ==> !old(self).free_set().contains(j)
                &&& final(self).free_set() == old(self).free_set().remove(i)
            },
    {
        let mask = self.free_mask;
        let mut i: u8 = 0;
        while i < 8
            invariant
                *self == *old(self),
                old(self).wf(),
                mask == self.free_mask,
                i <= 8,
                forall|j: u8| j < i ==> !#[trigger] mask_bit(mask, j),
            decreases 8 - i,
        {
            if (mask >> i) & 1u8 == 1u8 {
                let new_mask = mask & !(1u8 << i);
                proof {
                    assert forall|j: u8| #![trigger mask_bit(new_mask, j)] j < 8 implies mask_bit(
                        new_mask,
                        j,
                    ) == (j != i && mask_bit(mask, j)) by {
                        lemma_clear_bit(mask, i, j);
                    }
                }
                self.free_mask = new_mask;
                assert(self.free_set() =~= old(self).free_set().remove(i));
                assert(old(self).free_set().contains(i));
                return Some(FrameIdx(i));
            }
            i = i + 1;
        }
        proof {
            assert(old(self).free_set() =~= Set::<u8>::empty());
        }
        None
    }

    /// Returns a slot to the pool.
    pub fn free(&mut self, idx: FrameIdx)
        requires
            old(self).wf(),
            idx@ < FRAME_POOL_SIZE,
        ensures
            final(self).wf(),
            final(self).frames() == old(self).frames(),
            final(self).free_set() == old(self).free_set().insert(idx@),
    {
        let b = idx.0;
        let new_mask = self.free_mask | (1u8 << b);
        proof {
            assert forall|j: u8| #![trigger mask_bit(new_mask, j)] j < 8 implies mask_bit(
                new_mask,
                j,
            ) == (j == b || mask_bit(self.free_mask, j)) by {
                lemma_set_bit(self.free_mask, b, j);
            }
        }
        self.free_mask = new_mask;
        assert(self.free_set() =~= old(self).free_set().insert(idx@));
    }

    /// The frame in a slot.
    pub fn get(&self, idx: FrameIdx) -> (f: &Frame)
        requires
            self.wf(),
            idx@ < FRAME_POOL_SIZE,
        ensures
            *f == self.frames()[idx@ as int],
            f.wf(),
    {
        &self.frames[idx.0 as usize]
    }

    /// Mutable access to the frame in a slot.
    pub fn get_mut(&mut self, idx: FrameIdx) -> (f: &mut Frame)
        requires
            old(self).wf(),
            idx@ < FRAME_POOL_SIZE,
        ensures
            *f == old(self).frames()[idx@ as int],
            final(self).frames() == old(self).frames().update(idx@ as int, *final(f)),
            final(self).free_set() == old(self).free_set(),
    {
        &mut self.frames[idx.0 as usize]
    }
}

} // verus!
