//! An arena model of the device buffer pool: buffers are addressed by
//! handle (index), each with a reference count.  A buffer may be
//! overwritten in place only while exactly one live tensor refers to it,
//! which the `can_mut` capability query reports.
use vstd::prelude::*;

verus! {

/// The pool of device buffers.  A handle is an index into `bufs`;
/// `refs[h]` counts the live tensor references to buffer `h`.
pub struct BufferStore {
    pub bufs: Vec<Vec<u32>>,
    pub refs: Vec<u64>,
}

impl BufferStore {
    /// One reference count per buffer.
    pub open spec fn wf(self) -> bool {
        self.refs@.len() == self.bufs@.len()
    }

    /// The contents of buffer `h`.
    pub open spec fn buf(self, h: int) -> Seq<u32> {
        self.bufs@[h]@
    }

    /// Exclusive mutation is allowed exactly while one reference is live.
    pub open spec fn can_mut_spec(self, h: int) -> bool {
        self.refs@[h] == 1
    }

    pub fn new() -> (s: Self)
        ensures
            s.wf(),
            s.bufs@.len() == 0,
    {
        BufferStore { bufs: Vec::new(), refs: Vec::new() }
    }

    /// Allocate a buffer holding `data`; the new handle starts with one
    /// reference.
    pub fn create(&mut self, data: Vec<u32>) -> (h: usize)
        requires
            old(self).wf(),
        ensures
            final(self).wf(),
            h == old(self).bufs@.len(),
            final(self).bufs@ == old(self).bufs@.push(data),
            final(self).refs@ == old(self).refs@.push(1u64),
    {
        let h = self.bufs.len();
        self.bufs.push(data);
        self.refs.push(1u64);
        h
    }

    /// Allocate a zero-initialised buffer of `len` elements.
    pub fn empty(&mut self, len: usize) -> (h: usize)
        requires
            old(self).wf(),
        ensures
            final(self).wf(),
            h == old(self).bufs@.len(),
            final(self).bufs@.len() == old(self).bufs@.len() + 1,
            forall|i: int|
                0 <= i < old(self).bufs@.len() ==> final(self).buf(i) == old(self).buf(i),
            final(self).buf(h as int) == Seq::new(len as nat, |i: int| 0u32),
            final(self).refs@ == old(self).refs@.push(1u64),
    {
        let mut data: Vec<u32> = Vec::new();
        let mut i: usize = 0;
        while i < len
            invariant
                i <= len,
                data@ =~= Seq::new(i as nat, |k: int| 0u32),
            decreases len - i,
        {
            data.push(0u32);
            i = i + 1;
        }
        assert(data@ =~= Seq::new(len as nat, |k: int| 0u32));
        let h = self.create(data);
        h
    }

    /// Read back the contents of buffer `h` as host-visible values.
    pub fn read_one(&self, h: usize) -> (r: Vec<u32>)
        requires
            self.wf(),
            h < self.bufs@.len(),
        ensures
            r@ == self.buf(h as int),
    {
        let src = &self.bufs[h];
        let n = src.len();
        let mut out: Vec<u32> = Vec::new();
        let mut i: usize = 0;
        while i < n
            invariant
                i <= n,
                n == src@.len(),
                out@ =~= src@.subrange(0, i as int),
            decreases n - i,
        {
            out.push(src[i]);
            i = i + 1;
        }
        assert(out@ =~= src@);
        out
    }

    /// Capability query: may buffer `h` be overwritten in place?
    pub fn can_mut(&self, h: usize) -> (r: bool)
        requires
            self.wf(),
            h < self.bufs@.len(),
        ensures
            r == self.can_mut_spec(h as int),
    {
        self.refs[h] == 1
    }

    /// Record one more live reference to buffer `h` (a tensor was cloned).
    pub fn retain(&mut self, h: usize)
        requires
            old(self).wf(),
            h < old(self).bufs@.len(),
            old(self).refs@[h as int] < u64::MAX,
        ensures
            final(self).wf(),
            final(self).bufs@ == old(self).bufs@,
            final(self).refs@ == old(self).refs@.update(h as int, (old(self).refs@[h as int]
                + 1) as u64),
    {
        let c = self.refs[h];
        let mut refs2: Vec<u64> = Vec::new();
        let n = self.refs.len();
        let mut i: usize = 0;
        while i < n
            invariant
                i <= n,
                n == old(self).refs@.len(),
                self.refs@ == old(self).refs@,
                self.bufs@ == old(self).bufs@,
                c == old(self).refs@[h as int],
                c < u64::MAX,
                h < n,
                refs2@.len() == i,
                forall|k: int| 0 <= k < i && k != h ==> refs2@[k] == old(self).refs@[k],
                h < i ==> refs2@[h as int] == (c + 1) as u64,
            decreases n - i,
        {
            if i == h {
                refs2.push(c + 1);
            } else {
                refs2.push(self.refs[i]);
            }
            i = i + 1;
        }
        assert(refs2@ =~= old(self).refs@.update(h as int, (c + 1) as u64));
        self.refs = refs2;
    }

    /// Record that one live reference to buffer `h` was dropped.
    pub fn release(&mut self, h: usize)
        requires
            old(self).wf(),
            h < old(self).bufs@.len(),
            old(self).refs@[h as int] >= 1,
        ensures
            final(self).wf(),
            final(self).bufs@ == old(self).bufs@,
            final(self).refs@ == old(self).refs@.update(h as int, (old(self).refs@[h as int]
                - 1) as u64),
    {
        let c = self.refs[h];
        let mut refs2: Vec<u64> = Vec::new();
        let n = self.refs.len();
        let mut i: usize = 0;
        while i < n
            invariant
                i <= n,
                n == old(self).refs@.len(),
                self.refs@ == old(self).refs@,
                self.bufs@ == old(self).bufs@,
                c == old(self).refs@[h as int],
                c >= 1,
                h < n,
                refs2@.len() == i,
                forall|k: int| 0 <= k < i && k != h ==> refs2@[k] == old(self).refs@[k],
                h < i ==> refs2@[h as int] == (c - 1) as u64,
            decreases n - i,
        {
            if i == h {
                refs2.push(c - 1);
            } else {
                refs2.push(self.refs[i]);
            }
            i = i + 1;
        }
        assert(refs2@ =~= old(self).refs@.update(h as int, (c - 1) as u64));
        self.refs = refs2;
    }
}

}
