//! A growable binary-safe byte buffer.
//!
//! The header records the length, the capacity and a type code that names the
//! narrowest integer width able to hold the length when the buffer was last
//! (re)allocated. The payload lives in a block from the allocator adapter, whose
//! usable size becomes the capacity.

use vstd::prelude::*;
use vstd::utf8::valid_utf8;
use vstd::string::StringSliceAdditionalSpecFns;
use std::cmp::Ordering;
use crate::z_malloc::{zero_from, z_malloc_usable, z_realloc_usable, z_try_malloc_usable};

verus! {

pub const SDS_TYPE_8: u8 = 1;
pub const SDS_TYPE_16: u8 = 2;
pub const SDS_TYPE_32: u8 = 3;
pub const SDS_TYPE_64: u8 = 4;

/// Below this length growth doubles; from it on growth adds this much slack.
pub const SDS_MAX_PRE_ALLOC: usize = 1024 * 1024;

/// `t` is one of the four header type codes.
pub open spec fn valid_type(t: u8) -> bool {
    SDS_TYPE_8 <= t <= SDS_TYPE_64
}

/// The largest length or capacity that a header of type `t` can record.
pub open spec fn type_max(t: u8) -> nat {
    if t == SDS_TYPE_8 {
        0xff
    } else if t == SDS_TYPE_16 {
        0xffff
    } else if t == SDS_TYPE_32 {
        0xffff_ffff
    } else {
        usize::MAX as nat
    }
}

/// The narrowest header type able to record a length of `n`.
pub open spec fn req_type(n: nat) -> u8 {
    if n < 0x100 {
        SDS_TYPE_8
    } else if n < 0x1_0000 {
        SDS_TYPE_16
    } else if n < 0x1_0000_0000 {
        SDS_TYPE_32
    } else {
        SDS_TYPE_64
    }
}

/// The capacity a growth by `inc` asks for when the live length is `len`.
pub open spec fn grown_len(len: nat, inc: nat) -> nat {
    if len + inc < SDS_MAX_PRE_ALLOC {
        (2 * (len + inc)) as nat
    } else {
        (len + inc + SDS_MAX_PRE_ALLOC) as nat
    }
}

/// What appending `t` to `before` leaves in `after`: the bytes follow the old
/// ones; the header type never narrows; with room enough capacity and type
/// stay, else the capacity reaches the grown size of the policy and the
/// buffer owns fresh storage.
pub open spec fn appended(before: &Sds, after: &Sds, t: Seq<u8>) -> bool {
    &&& after@ == before@ + t
    &&& after.spec_type() >= before.spec_type()
    &&& t.len() > 0 ==> !after.spec_shared()
    &&& before.spec_alloc() >= before@.len() + t.len() ==> {
        &&& after.spec_alloc() == before.spec_alloc()
        &&& after.spec_type() == before.spec_type()
        &&& after.spec_shared() == before.spec_shared()
    }
    &&& before.spec_alloc() < before@.len() + t.len() ==> {
        &&& after.spec_type() == req_type(grown_len(before@.len(), t.len()))
        &&& after.spec_alloc() >= grown_len(before@.len(), t.len())
    }
}

/// Three-way lexicographic comparison of `a` and `b`, starting at index `i`.
pub open spec fn cmp_from(a: Seq<u8>, b: Seq<u8>, i: nat) -> Ordering
    decreases a.len() - i,
{
    if i >= a.len() {
        if i >= b.len() {
            Ordering::Equal
        } else {
            Ordering::Less
        }
    } else if i >= b.len() {
        Ordering::Greater
    } else if a[i as int] < b[i as int] {
        Ordering::Less
    } else if a[i as int] > b[i as int] {
        Ordering::Greater
    } else {
        cmp_from(a, b, i + 1)
    }
}

/// Byte-wise lexicographic order of two byte strings.
pub open spec fn lex_cmp(a: Seq<u8>, b: Seq<u8>) -> Ordering {
    cmp_from(a, b, 0)
}

proof fn lemma_type_max_monotone(n: nat)
    ensures
        valid_type(req_type(n)),
        n <= type_max(req_type(n)) || req_type(n) == SDS_TYPE_64,
        type_max(SDS_TYPE_64) == usize::MAX,
{
}

/// Returns the narrowest header type whose fields can hold `string_size`.
pub fn sds_req_type(string_size: usize) -> (r: u8)
    ensures
        r == req_type(string_size as nat),
        valid_type(r),
        string_size <= type_max(r),
{
    if string_size < 0x100 {
        SDS_TYPE_8
    } else if string_size < 0x1_0000 {
        SDS_TYPE_16
    } else if (string_size as u64) < 0x1_0000_0000u64 {
        SDS_TYPE_32
    } else {
        SDS_TYPE_64
    }
}

/// Returns the largest value the fields of a header of type `sds_type` hold.
pub fn sds_type_max_size(sds_type: u8) -> (r: usize)
    requires
        valid_type(sds_type),
    ensures
        r == type_max(sds_type),
{
    if sds_type == SDS_TYPE_8 {
        0xff
    } else if sds_type == SDS_TYPE_16 {
        0xffff
    } else if sds_type == SDS_TYPE_32 {
        0xffff_ffffu32 as usize
    } else {
        usize::MAX
    }
}

/// The header of a buffer: live length, capacity and type code.
#[derive(Debug)]
pub struct SdsHdr {
    pub len: usize,
    pub alloc: usize,
    pub flags: u8,
}

impl SdsHdr {
    /// The type code is valid and both fields fit its width.
    pub open spec fn wf(&self) -> bool {
        &&& valid_type(self.flags)
        &&& self.len <= type_max(self.flags)
        &&& self.alloc <= type_max(self.flags)
    }

    pub fn sds_len(&self) -> (r: usize)
        ensures
            r == self.len,
    {
        self.len
    }

    pub fn sds_alloc(&self) -> (r: usize)
        ensures
            r == self.alloc,
    {
        self.alloc
    }

    /// Room left past the live bytes.
    pub fn sds_avail(&self) -> (r: usize)
        requires
            self.len <= self.alloc,
        ensures
            r == self.alloc - self.len,
    {
        self.alloc - self.len
    }

    /// Sets the length field, which must fit the header's width.
    pub fn set_len_uncheck(&mut self, new_len: usize)
        requires
            old(self).wf(),
            new_len <= type_max(old(self).flags),
        ensures
            *final(self) == (SdsHdr { len: new_len, ..*old(self) }),
            final(self).wf(),
    {
        self.len = new_len;
    }

    /// Adds `inc` to the length field, whose sum must fit the header's width.
    pub fn inc_len_uncheck(&mut self, inc: usize)
        requires
            old(self).wf(),
            old(self).len + inc <= type_max(old(self).flags),
        ensures
            *final(self) == (SdsHdr { len: (old(self).len + inc) as usize, ..*old(self) }),
            final(self).wf(),
    {
        self.len = self.len + inc;
    }

    /// Sets the capacity field, which must fit the header's width.
    pub fn set_alloc_uncheck(&mut self, alloc: usize)
        requires
            old(self).wf(),
            alloc <= type_max(old(self).flags),
        ensures
            *final(self) == (SdsHdr { alloc, ..*old(self) }),
            final(self).wf(),
    {
        self.alloc = alloc;
    }
}

/// Relies on `std::str::from_utf8`: it accepts exactly the valid UTF-8 byte
/// strings and then views the same bytes as text.
#[verifier::external_body]
fn utf8_view(bytes: &[u8]) -> (r: Option<&str>)
    ensures
        r is Some <==> valid_utf8(bytes@),
        r matches Some(s) ==> s.spec_bytes() == bytes@,
{
    match std::str::from_utf8(bytes) {
        Ok(s) => Some(s),
        Err(_) => None,
    }
}

/// Writes `src` into `dst` from index `at` on.
fn copy_into(dst: &mut Vec<u8>, at: usize, src: &[u8])
    requires
        at + src@.len() <= old(dst)@.len(),
    ensures
        final(dst)@ == old(dst)@.subrange(0, at as int) + src@ + old(dst)@.subrange(
            at + src@.len(),
            old(dst)@.len() as int,
        ),
{
    let n = src.len();
    let total = dst.len();
    let mut i: usize = 0;
    while i < n
        invariant
            n == src@.len(),
            i <= n,
            at + n <= total,
            total == old(dst)@.len(),
            dst@.len() == old(dst)@.len(),
            forall|k: int| 0 <= k < at ==> dst@[k] == old(dst)@[k],
            forall|k: int| 0 <= k < i ==> dst@[at + k] == src@[k],
            forall|k: int| at + i <= k < dst@.len() ==> dst@[k] == old(dst)@[k],
        decreases n - i,
    {
        dst.set(at + i, src[i]);
        i = i + 1;
    }
    assert(dst@ =~= old(dst)@.subrange(0, at as int) + src@ + old(dst)@.subrange(
        at + src@.len(),
        old(dst)@.len() as int,
    ));
}

/// A growable byte buffer.
#[derive(Debug)]
pub struct Sds {
    hdr: SdsHdr,
    buf: Vec<u8>,
    shared: bool,
}

impl View for Sds {
    type V = Seq<u8>;

    /// The live bytes.
    closed spec fn view(&self) -> Seq<u8> {
        self.buf@.subrange(0, self.hdr.len as int)
    }
}

impl Sds {
    #[verifier::type_invariant]
    spec fn inv(self) -> bool {
        &&& self.hdr.wf()
        &&& self.hdr.len <= self.hdr.alloc
        &&& self.hdr.len <= isize::MAX
        &&& self.hdr.alloc <= self.buf@.len()
        &&& self.hdr.flags <= req_type(self.hdr.alloc as nat)
        &&& self.shared ==> {
            &&& self.hdr.alloc == 0
            &&& self.hdr.flags == SDS_TYPE_8
            &&& self.buf@.len() == 0
        }
    }

    /// The capacity recorded in the header.
    pub closed spec fn spec_alloc(&self) -> nat {
        self.hdr.alloc as nat
    }

    /// The header's type code.
    pub closed spec fn spec_type(&self) -> u8 {
        self.hdr.flags
    }

    /// This value is the shared empty buffer, which owns no storage.
    pub closed spec fn spec_shared(&self) -> bool {
        self.shared
    }

    /// The shared empty buffer: no bytes, no capacity, the narrowest header.
    pub fn empty() -> (r: Sds)
        ensures
            r@ == Seq::<u8>::empty(),
            r.spec_alloc() == 0,
            r.spec_type() == SDS_TYPE_8,
            r.spec_shared(),
    {
        let hdr = SdsHdr { len: 0, alloc: 0, flags: SDS_TYPE_8 };
        let r = Sds { hdr, buf: Vec::new(), shared: true };
        assert(r@ =~= Seq::<u8>::empty());
        r
    }

    /// A buffer holding a copy of `init`; with `try_malloc`, `None` when the
    /// memory cannot be had.
    fn from_bytes(init: &[u8], try_malloc: bool) -> (r: Option<Sds>)
        requires
            init@.len() <= isize::MAX,
        ensures
            !try_malloc ==> r is Some,
            init@.len() == 0 ==> r is Some,
            r matches Some(s) ==> {
                &&& s@ == init@
                &&& s.spec_alloc() >= init@.len()
                &&& s.spec_type() == req_type(init@.len())
                &&& s.spec_shared() <==> init@.len() == 0
                &&& init@.len() == 0 ==> s.spec_alloc() == 0
            },
    {
        let init_len = init.len();
        if init_len == 0 {
            return Some(Sds::empty());
        }
        let sds_type = sds_req_type(init_len);
        let (mut block, usable) = if try_malloc {
            z_try_malloc_usable(init_len)
        } else {
            z_malloc_usable(init_len)
        };
        if usable < init_len {
            return None;
        }
        let max = sds_type_max_size(sds_type);
        let alloc = if usable > max { max } else { usable };
        copy_into(&mut block, 0, init);
        let s = Sds { hdr: SdsHdr { len: init_len, alloc, flags: sds_type }, buf: block, shared: false };
        assert(s@ =~= init@);
        Some(s)
    }

    /// A buffer holding a copy of `init`.
    pub fn from_slice(init: &[u8]) -> (r: Sds)
        requires
            init@.len() <= isize::MAX,
        ensures
            r@ == init@,
            r.spec_alloc() >= init@.len(),
            r.spec_type() == req_type(init@.len()),
            r.spec_shared() <==> init@.len() == 0,
            init@.len() == 0 ==> r.spec_alloc() == 0,
    {
        match Self::from_bytes(init, false) {
            Some(s) => s,
            None => Sds::empty(),
        }
    }

    /// A buffer holding a copy of `init`, or `None` when the memory for it
    /// cannot be had. An empty `init` always succeeds.
    pub fn try_from_slice(init: &[u8]) -> (r: Option<Sds>)
        requires
            init@.len() <= isize::MAX,
        ensures
            init@.len() == 0 ==> r is Some,
            r matches Some(s) ==> {
                &&& s@ == init@
                &&& s.spec_alloc() >= init@.len()
                &&& s.spec_type() == req_type(init@.len())
                &&& s.spec_shared() <==> init@.len() == 0
                &&& init@.len() == 0 ==> s.spec_alloc() == 0
            },
    {
        Self::from_bytes(init, true)
    }

    /// A buffer holding the bytes of `init`.
    pub fn from_str(init: &str) -> (r: Sds)
        requires
            init.spec_bytes().len() <= isize::MAX,
        ensures
            r@ == init.spec_bytes(),
            r.spec_alloc() >= init.spec_bytes().len(),
            r.spec_type() == req_type(init.spec_bytes().len()),
            r.spec_shared() <==> init.spec_bytes().len() == 0,
            init.spec_bytes().len() == 0 ==> r.spec_alloc() == 0,
    {
        Self::from_slice(init.as_bytes())
    }

    /// The live bytes.
    pub fn as_slice(&self) -> (r: &[u8])
        ensures
            r@ == self@,
    {
        proof {
            use_type_invariant(self);
        }
        let len = self.hdr.len;
        &self.buf.as_slice()[0..len]
    }

    /// The live bytes as text; empty text when they are not valid UTF-8.
    pub fn as_str_uncheck(&self) -> (r: &str)
        ensures
            valid_utf8(self@) ==> r.spec_bytes() == self@,
            !valid_utf8(self@) ==> r.spec_bytes().len() == 0,
    {
        match utf8_view(self.as_slice()) {
            Some(s) => s,
            None => {
                proof {
                    reveal_strlit("");
                }
                ""
            },
        }
    }

    /// Number of live bytes.
    pub fn len(&self) -> (r: usize)
        ensures
            r == self@.len(),
            r <= isize::MAX,
    {
        proof {
            use_type_invariant(self);
        }
        self.hdr.sds_len()
    }

    /// Capacity: the bytes the buffer holds without growing.
    pub fn capacity(&self) -> (r: usize)
        ensures
            r == self.spec_alloc(),
            r >= self@.len(),
            r <= type_max(self.spec_type()),
            valid_type(self.spec_type()),
            self.spec_shared() ==> r == 0,
    {
        proof {
            use_type_invariant(self);
        }
        self.hdr.sds_alloc()
    }

    /// Room left past the live bytes.
    fn avail(&self) -> (r: usize)
        ensures
            r == self.spec_alloc() - self@.len(),
    {
        proof {
            use_type_invariant(self);
        }
        self.hdr.sds_avail()
    }

    /// The header's type code.
    pub fn type_code(&self) -> (r: u8)
        ensures
            r == self.spec_type(),
    {
        self.hdr.flags
    }

    pub fn is_empty(&self) -> (r: bool)
        ensures
            r <==> self@.len() == 0,
    {
        self.len() == 0
    }

    /// Whether this value is the shared empty buffer.
    pub fn is_global_empty(&self) -> (r: bool)
        ensures
            r == self.spec_shared(),
    {
        self.shared
    }

    /// Empties the buffer in O(1), keeping its capacity and header type.
    pub fn clear(&mut self)
        ensures
            final(self)@ == Seq::<u8>::empty(),
            final(self).spec_alloc() == old(self).spec_alloc(),
            final(self).spec_type() == old(self).spec_type(),
            final(self).spec_shared() == old(self).spec_shared(),
    {
        proof {
            use_type_invariant(&*self);
        }
        self.hdr.len = 0;
        assert(self@ =~= Seq::<u8>::empty());
    }

    /// Makes room for `inc_len` more bytes past the live ones, growing by the
    /// preallocation policy when the room left is too small.
    fn make_room_for(&mut self, inc_len: usize)
        requires
            old(self)@.len() + inc_len + SDS_MAX_PRE_ALLOC <= isize::MAX,
        ensures
            final(self)@ == old(self)@,
            final(self).spec_alloc() >= final(self)@.len() + inc_len,
            final(self).spec_type() >= old(self).spec_type(),
            old(self).spec_alloc() >= old(self)@.len() + inc_len ==> *final(self) == *old(self),
            old(self).spec_alloc() < old(self)@.len() + inc_len ==> {
                &&& !final(self).spec_shared()
                &&& final(self).spec_type() == req_type(grown_len(old(self)@.len(), inc_len as nat))
                &&& final(self).spec_alloc() >= grown_len(old(self)@.len(), inc_len as nat)
            },
    {
        proof {
            use_type_invariant(&*self);
        }
        let avail = self.avail();
        if avail >= inc_len {
            return;
        }
        let len = self.hdr.len;
        let mut new_len = len + inc_len;
        if new_len < SDS_MAX_PRE_ALLOC {
            new_len = new_len * 2;
        } else {
            new_len = new_len + SDS_MAX_PRE_ALLOC;
        }
        let old_type = self.hdr.flags;
        let new_type = sds_req_type(new_len);
        let max = sds_type_max_size(new_type);
        proof {
            lemma_type_max_monotone(new_len as nat);
        }

        let mut old = Sds::empty();
        std::mem::swap(self, &mut old);
        proof {
            use_type_invariant(&old);
        }
        let ghost old_view = old@;
        let Sds { hdr: _, buf, shared } = old;
        let (block, usable) = if old_type == new_type && !shared {
            let (block, usable) = z_realloc_usable(buf, new_len);
            assert(block@.subrange(0, len as int) =~= old_view);
            (block, usable)
        } else {
            let (mut block, usable) = z_malloc_usable(new_len);
            copy_into(&mut block, 0, &buf.as_slice()[0..len]);
            assert(block@.subrange(0, len as int) =~= old_view);
            (block, usable)
        };
        let alloc = if usable > max { max } else { usable };
        *self = Sds { hdr: SdsHdr { len, alloc, flags: new_type }, buf: block, shared: false };
    }

    /// Appends the bytes of `t`.
    pub fn push_slice(&mut self, t: &[u8]) -> (r: &mut Self)
        requires
            old(self)@.len() + t@.len() + SDS_MAX_PRE_ALLOC <= isize::MAX,
        ensures
            *final(r) == *final(self),
            appended(old(self), r, t@),
    {
        self.push_bytes(t);
        self
    }

    /// Appends the bytes of `t`.
    pub fn push_str(&mut self, t: &str) -> (r: &mut Self)
        requires
            old(self)@.len() + t.spec_bytes().len() + SDS_MAX_PRE_ALLOC <= isize::MAX,
        ensures
            *final(r) == *final(self),
            appended(old(self), r, t.spec_bytes()),
    {
        self.push_bytes(t.as_bytes());
        self
    }

    /// Appends the byte `c`.
    pub fn push_u8(&mut self, c: u8) -> (r: &mut Self)
        requires
            old(self)@.len() + 1 + SDS_MAX_PRE_ALLOC <= isize::MAX,
        ensures
            *final(r) == *final(self),
            appended(old(self), r, seq![c]),
            r@ == old(self)@.push(c),
    {
        let one = [c];
        proof {
            assert(one@ =~= seq![c]);
        }
        self.push_bytes(one.as_slice());
        assert(seq![c] =~= Seq::<u8>::empty().push(c));
        assert(old(self)@ + seq![c] =~= old(self)@.push(c));
        self
    }

    /// Appends the live bytes of `t`.
    pub fn push(&mut self, t: &Sds)
        requires
            old(self)@.len() + t@.len() + SDS_MAX_PRE_ALLOC <= isize::MAX,
        ensures
            appended(old(self), final(self), t@),
    {
        self.push_bytes(t.as_slice());
    }

    fn push_bytes(&mut self, t: &[u8])
        requires
            old(self)@.len() + t@.len() + SDS_MAX_PRE_ALLOC <= isize::MAX,
        ensures
            appended(old(self), final(self), t@),
    {
        proof {
            use_type_invariant(&*self);
        }
        let n = t.len();
        if n == 0 {
            assert(old(self)@ + t@ =~= old(self)@);
            return;
        }
        self.make_room_for(n);
        proof {
            use_type_invariant(&*self);
        }
        let mut grown = Sds::empty();
        std::mem::swap(self, &mut grown);
        proof {
            use_type_invariant(&grown);
        }
        let ghost before = grown@;
        let Sds { hdr, mut buf, shared } = grown;
        copy_into(&mut buf, hdr.len, t);
        *self = Sds { hdr: SdsHdr { len: hdr.len + n, ..hdr }, buf, shared };
        assert(self@ =~= before + t@);
    }
}

impl Clone for Sds {
    /// A copy of the live bytes in a block sized for exactly those bytes.
    fn clone(&self) -> (r: Self)
        ensures
            r@ == self@,
            r.spec_type() == req_type(self@.len()),
            r.spec_shared() <==> self@.len() == 0,
    {
        proof {
            use_type_invariant(self);
        }
        Sds::from_slice(self.as_slice())
    }
}

impl PartialEq for Sds {
    /// Byte-wise equality of the live bytes; capacity and header type do not count.
    fn eq(&self, other: &Sds) -> (r: bool)
        ensures
            r <==> self@ == other@,
    {
        let a = self.as_slice();
        let b = other.as_slice();
        if a.len() != b.len() {
            return false;
        }
        let mut i: usize = 0;
        while i < a.len()
            invariant
                a@ == self@,
                b@ == other@,
                a@.len() == b@.len(),
                i <= a@.len(),
                forall|k: int| 0 <= k < i ==> a@[k] == b@[k],
            decreases a@.len() - i,
        {
            if a[i] != b[i] {
                return false;
            }
            i = i + 1;
        }
        assert(a@ =~= b@);
        true
    }
}

impl vstd::std_specs::cmp::PartialEqSpecImpl for Sds {
    open spec fn obeys_eq_spec() -> bool {
        true
    }

    open spec fn eq_spec(&self, other: &Sds) -> bool {
        self@ == other@
    }
}

impl Eq for Sds {
}

impl PartialOrd for Sds {
    /// Byte-wise lexicographic order of the live bytes.
    fn partial_cmp(&self, other: &Sds) -> (r: Option<Ordering>)
        ensures
            r == Some(lex_cmp(self@, other@)),
    {
        let a = self.as_slice();
        let b = other.as_slice();
        let mut i: usize = 0;
        while i < a.len() && i < b.len()
            invariant
                a@ == self@,
                b@ == other@,
                i <= a@.len(),
                i <= b@.len(),
                cmp_from(a@, b@, 0) == cmp_from(a@, b@, i as nat),
            decreases a@.len() - i,
        {
            if a[i] < b[i] {
                return Some(Ordering::Less);
            }
            if a[i] > b[i] {
                return Some(Ordering::Greater);
            }
            i = i + 1;
        }
        if i < a.len() {
            Some(Ordering::Greater)
        } else if i < b.len() {
            Some(Ordering::Less)
        } else {
            Some(Ordering::Equal)
        }
    }
}

impl vstd::std_specs::cmp::PartialOrdSpecImpl for Sds {
    open spec fn obeys_partial_cmp_spec() -> bool {
        true
    }

    open spec fn partial_cmp_spec(&self, other: &Sds) -> Option<Ordering> {
        Some(lex_cmp(self@, other@))
    }
}

} // verus!
