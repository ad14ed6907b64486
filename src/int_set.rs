//! A set of signed integers kept as a sorted array at the narrowest element
//! width (16, 32 or 64 bits) that holds every member. The width only widens.

use vstd::prelude::*;

verus! {


/// Element width of an integer set.
#[allow(non_camel_case_types)]
#[derive(Clone, Copy, Debug, PartialEq, Eq, Structural)]
pub enum Encoding {
    INT16,
    INT32,
    INT64,
}

impl Encoding {
    /// Bytes per element.
    pub open spec fn width(self) -> nat {
        match self {
            Encoding::INT16 => 2,
            Encoding::INT32 => 4,
            Encoding::INT64 => 8,
        }
    }

    /// Returns the narrowest encoding that holds `v`.
    pub fn value_encoding(v: i64) -> (r: Encoding)
        ensures
            r == encoding_of(v),
    {
        if v < i32::MIN as i64 || v > i32::MAX as i64 {
            Encoding::INT64
        } else if v < i16::MIN as i64 || v > i16::MAX as i64 {
            Encoding::INT32
        } else {
            Encoding::INT16
        }
    }

    /// Bytes per element.
    pub fn byte_size(self) -> (r: usize)
        ensures
            r == self.width(),
    {
        match self {
            Encoding::INT16 => 2,
            Encoding::INT32 => 4,
            Encoding::INT64 => 8,
        }
    }
}

/// The narrowest encoding that holds `v`.
pub open spec fn encoding_of(v: i64) -> Encoding {
    if v < i32::MIN || v > i32::MAX {
        Encoding::INT64
    } else if v < i16::MIN || v > i16::MAX {
        Encoding::INT32
    } else {
        Encoding::INT16
    }
}

/// The most members a set holds at encoding `e`, whose bytes must fit in
/// 65535 bytes.
pub open spec fn max_members(e: Encoding) -> nat {
    match e {
        Encoding::INT16 => 32767,
        Encoding::INT32 => 16383,
        Encoding::INT64 => 8191,
    }
}

/// The wider of two encodings.
pub open spec fn wider(a: Encoding, b: Encoding) -> Encoding {
    if a.width() >= b.width() {
        a
    } else {
        b
    }
}

/// Strictly ascending.
pub open spec fn sorted(s: Seq<i64>) -> bool {
    forall|i: int, j: int| 0 <= i < j < s.len() ==> s[i] < s[j]
}

/// The members at their current width.
enum Contents {
    Int16(Vec<i16>),
    Int32(Vec<i32>),
    Int64(Vec<i64>),
}

spec fn contents_view(c: Contents) -> Seq<i64> {
    match c {
        Contents::Int16(v) => v@.map_values(|x: i16| x as i64),
        Contents::Int32(v) => v@.map_values(|x: i32| x as i64),
        Contents::Int64(v) => v@,
    }
}

spec fn contents_encoding(c: Contents) -> Encoding {
    match c {
        Contents::Int16(_) => Encoding::INT16,
        Contents::Int32(_) => Encoding::INT32,
        Contents::Int64(_) => Encoding::INT64,
    }
}

/// Every value of `s` is held by encoding `e`.
spec fn all_fit(s: Seq<i64>, e: Encoding) -> bool {
    forall|i: int| 0 <= i < s.len() ==> #[trigger] encoding_of(s[i]).width() <= e.width()
}

proof fn lemma_contents_fit(c: Contents)
    ensures
        all_fit(contents_view(c), contents_encoding(c)),
{
}

/// A sorted set of integers at an adaptive element width.
pub struct IntSet {
    contents: Contents,
    shared: bool,
}

impl View for IntSet {
    type V = Seq<i64>;

    /// The members in ascending order.
    closed spec fn view(&self) -> Seq<i64> {
        contents_view(self.contents)
    }
}

impl IntSet {
    #[verifier::type_invariant]
    spec fn inv(self) -> bool {
        &&& sorted(contents_view(self.contents))
        &&& contents_view(self.contents).len() <= max_members(contents_encoding(self.contents))
        &&& self.shared ==> {
            &&& contents_view(self.contents).len() == 0
            &&& contents_encoding(self.contents) == Encoding::INT16
        }
    }

    /// The current element width.
    pub closed spec fn spec_encoding(&self) -> Encoding {
        contents_encoding(self.contents)
    }

    /// This value is the shared empty set, which owns no storage.
    pub closed spec fn spec_shared(&self) -> bool {
        self.shared
    }

    /// The shared empty set, at the narrowest width.
    pub fn new() -> (r: IntSet)
        ensures
            r@ == Seq::<i64>::empty(),
            r.spec_encoding() == Encoding::INT16,
            r.spec_shared(),
    {
        let r = IntSet { contents: Contents::Int16(Vec::new()), shared: true };
        assert(r@ =~= Seq::<i64>::empty());
        r
    }

    /// Whether this value is the shared empty set.
    pub fn is_global_empty(&self) -> (r: bool)
        ensures
            r == self.spec_shared(),
    {
        self.shared
    }

    /// The current element width.
    pub fn encoding(&self) -> (r: Encoding)
        ensures
            r == self.spec_encoding(),
    {
        match &self.contents {
            Contents::Int16(_) => Encoding::INT16,
            Contents::Int32(_) => Encoding::INT32,
            Contents::Int64(_) => Encoding::INT64,
        }
    }

    /// Number of members, with the facts every set keeps.
    fn len_usize(&self) -> (r: usize)
        ensures
            r == self@.len(),
            sorted(self@),
            all_fit(self@, self.spec_encoding()),
            self@.len() <= max_members(self.spec_encoding()),
    {
        proof {
            use_type_invariant(self);
            lemma_contents_fit(self.contents);
        }
        match &self.contents {
            Contents::Int16(v) => v.len(),
            Contents::Int32(v) => v.len(),
            Contents::Int64(v) => v.len(),
        }
    }

    /// The member at position `index`, read at the current width.
    fn get_with_encoded(&self, index: usize) -> (r: i64)
        requires
            index < self@.len(),
        ensures
            r == self@[index as int],
    {
        match &self.contents {
            Contents::Int16(v) => v[index] as i64,
            Contents::Int32(v) => v[index] as i64,
            Contents::Int64(v) => v[index],
        }
    }

    /// Binary search: whether `value` is a member, and its position, or the
    /// position where it would be inserted.
    fn search(&self, value: i64) -> (r: (bool, usize))
        ensures
            r.0 <==> self@.contains(value),
            r.1 <= self@.len(),
            r.0 ==> r.1 < self@.len() && self@[r.1 as int] == value,
            !r.0 ==> forall|i: int| 0 <= i < r.1 ==> self@[i] < value,
            !r.0 ==> forall|i: int| r.1 <= i < self@.len() ==> self@[i] > value,
    {
        let len = self.len_usize();
        if len == 0 {
            return (false, 0);
        }
        if value > self.get_with_encoded(len - 1) {
            assert forall|i: int| 0 <= i < len implies self@[i] < value by {
                if i < len - 1 {
                    assert(self@[i] < self@[len - 1]);
                }
            }
            return (false, len);
        }
        if value < self.get_with_encoded(0) {
            assert forall|i: int| 0 <= i < len implies self@[i] > value by {
                if i > 0 {
                    assert(self@[0] < self@[i]);
                }
            }
            return (false, 0);
        }
        let mut lo: usize = 0;
        let mut hi: usize = len;
        while lo < hi
            invariant
                len == self@.len(),
                sorted(self@),
                lo <= hi <= len,
                forall|i: int| 0 <= i < lo ==> self@[i] < value,
                forall|i: int| hi <= i < len ==> self@[i] > value,
            decreases hi - lo,
        {
            let mid = lo + (hi - lo) / 2;
            let m = self.get_with_encoded(mid);
            if value > m {
                assert forall|i: int| 0 <= i < mid + 1 implies self@[i] < value by {
                    if i < mid {
                        assert(self@[i] < self@[mid as int]);
                    }
                }
                lo = mid + 1;
            } else if value < m {
                assert forall|i: int| mid <= i < len implies self@[i] > value by {
                    if i > mid {
                        assert(self@[mid as int] < self@[i]);
                    }
                }
                hi = mid;
            } else {
                return (true, mid);
            }
        }
        (false, lo)
    }

    /// Number of members.
    pub fn len(&self) -> (r: u16)
        ensures
            r == self@.len(),
    {
        self.len_usize() as u16
    }

    /// Whether `value` is a member.
    pub fn contain(&self, value: i64) -> (r: bool)
        ensures
            r <==> self@.contains(value),
    {
        let len = self.len_usize();
        let value_enc = Encoding::value_encoding(value);
        if value_enc.byte_size() > self.encoding().byte_size() {
            assert(!self@.contains(value)) by {
                if self@.contains(value) {
                    let i = choose|i: int| 0 <= i < self@.len() && self@[i] == value;
                    assert(encoding_of(self@[i]).width() <= self.spec_encoding().width());
                }
            }
            return false;
        }
        let (exist, _) = self.search(value);
        exist
    }

    /// The member at position `index`, or `None` when `index` is out of range.
    pub fn get(&self, index: isize) -> (r: Option<i64>)
        ensures
            0 <= index < self@.len() ==> r == Some(self@[index as int]),
            !(0 <= index < self@.len()) ==> r is None,
    {
        let len = self.len_usize();
        if index >= 0 && (index as usize) < len {
            Some(self.get_with_encoded(index as usize))
        } else {
            None
        }
    }

    /// A member: the first one, or `None` when the set is empty.
    pub fn random(&self) -> (r: Option<i64>)
        ensures
            self@.len() > 0 ==> r == Some(self@[0]),
            self@.len() == 0 ==> r is None,
    {
        self.get(0)
    }
    /// Widens to `value_enc` and adds `value`, which that width needs: it lies
    /// below every member when negative and above every member otherwise.
    fn upgrade_and_add(&mut self, value: i64, value_enc: Encoding)
        requires
            value_enc == encoding_of(value),
            value_enc.width() > old(self).spec_encoding().width(),
            old(self)@.len() < max_members(value_enc),
        ensures
            value < 0 ==> final(self)@ == seq![value] + old(self)@,
            value >= 0 ==> final(self)@ == old(self)@.push(value),
            final(self).spec_encoding() == value_enc,
            !final(self).spec_shared(),
    {
        let n = self.len_usize();
        let prepend = value < 0;
        let off: usize = if prepend { 1 } else { 0 };
        let slot: usize = if prepend { 0 } else { n };
        let ghost old_view = self@;
        let contents = if value_enc.byte_size() == 4 {
            proof {
                assert(self.spec_encoding() == Encoding::INT16);
            }
            let mut to: Vec<i32> = vec![0i32; n + 1];
            let mut i: usize = n;
            while i > 0
                invariant
                    n == old_view.len(),
                    old_view == self@,
                    all_fit(old_view, Encoding::INT16),
                    i <= n,
                    off <= 1,
                    to@.len() == n + 1,
                    forall|k: int| i <= k < n ==> to@[k + off] as i64 == old_view[k],
                decreases i,
            {
                i = i - 1;
                let v = self.get_with_encoded(i);
                assert(encoding_of(old_view[i as int]).width() <= 2);
                to.set(i + off, v as i32);
            }
            to.set(slot, value as i32);
            let c = Contents::Int32(to);
            proof {
                if prepend {
                    assert(contents_view(c) =~= seq![value] + old_view);
                } else {
                    assert(contents_view(c) =~= old_view.push(value));
                }
            }
            c
        } else {
            let mut to: Vec<i64> = vec![0i64; n + 1];
            let mut i: usize = n;
            while i > 0
                invariant
                    n == old_view.len(),
                    old_view == self@,
                    i <= n,
                    off <= 1,
                    to@.len() == n + 1,
                    forall|k: int| i <= k < n ==> to@[k + off] == old_view[k],
                decreases i,
            {
                i = i - 1;
                let v = self.get_with_encoded(i);
                to.set(i + off, v);
            }
            to.set(slot, value);
            let c = Contents::Int64(to);
            proof {
                if prepend {
                    assert(contents_view(c) =~= seq![value] + old_view);
                } else {
                    assert(contents_view(c) =~= old_view.push(value));
                }
            }
            c
        };
        proof {
            let cur = self.spec_encoding();
            assert forall|k: int| 0 <= k < n implies (prepend ==> value < old_view[k]) && (!prepend
                ==> value > old_view[k]) by {
                assert(encoding_of(old_view[k]).width() <= cur.width());
            }
            let nv = contents_view(contents);
            assert forall|i: int, j: int| 0 <= i < j < nv.len() implies nv[i] < nv[j] by {
                if prepend {
                    if i > 0 {
                        assert(nv[i] == old_view[i - 1] && nv[j] == old_view[j - 1]);
                    }
                } else {
                    if j < n {
                        assert(nv[i] == old_view[i] && nv[j] == old_view[j]);
                    }
                }
            }
        }
        *self = IntSet { contents, shared: false };
    }

    /// Adds `value`; `false` when it is already a member. A value that needs a
    /// wider element width widens the whole set first.
    pub fn insert(&mut self, value: i64) -> (r: bool)
        requires
            !old(self)@.contains(value) ==> old(self)@.len() < max_members(
                wider(old(self).spec_encoding(), encoding_of(value)),
            ),
        ensures
            r == !old(self)@.contains(value),
            forall|x: i64| final(self)@.contains(x) <==> (old(self)@.contains(x) || x == value),
            final(self)@.len() == old(self)@.len() + if r { 1int } else { 0int },
            sorted(final(self)@),
            final(self).spec_encoding() == wider(old(self).spec_encoding(), encoding_of(value)),
            final(self).spec_encoding().width() >= old(self).spec_encoding().width(),
            r ==> !final(self).spec_shared(),
            !r ==> *final(self) == *old(self),
    {
        let n = self.len_usize();
        let value_enc = Encoding::value_encoding(value);
        let cur = self.encoding();
        if value_enc.byte_size() > cur.byte_size() {
            assert(!self@.contains(value)) by {
                if self@.contains(value) {
                    let i = choose|i: int| 0 <= i < self@.len() && self@[i] == value;
                    assert(encoding_of(self@[i]).width() <= self.spec_encoding().width());
                }
            }
            self.upgrade_and_add(value, value_enc);
            proof {
                let nv = self@;
                if value < 0 {
                    assert forall|x: i64| nv.contains(x) implies (old(self)@.contains(x) || x == value) by {
                        let i = choose|i: int| 0 <= i < nv.len() && nv[i] == x;
                        if i > 0 {
                            assert(old(self)@[i - 1] == x);
                        }
                    }
                    assert forall|x: i64| old(self)@.contains(x) implies nv.contains(x) by {
                        let i = choose|i: int| 0 <= i < old(self)@.len() && old(self)@[i] == x;
                        assert(nv[i + 1] == x);
                    }
                    assert(nv[0] == value);
                } else {
                    assert forall|x: i64| nv.contains(x) implies (old(self)@.contains(x) || x == value) by {
                        let i = choose|i: int| 0 <= i < nv.len() && nv[i] == x;
                        if i < n {
                            assert(old(self)@[i] == x);
                        }
                    }
                    assert forall|x: i64| old(self)@.contains(x) implies nv.contains(x) by {
                        let i = choose|i: int| 0 <= i < old(self)@.len() && old(self)@[i] == x;
                        assert(nv[i] == x);
                    }
                    assert(nv[n as int] == value);
                }
            }
            return true;
        }
        let (exist, pos) = self.search(value);
        if exist {
            return false;
        }
        let mut taken = IntSet::new();
        std::mem::swap(self, &mut taken);
        proof {
            use_type_invariant(&taken);
        }
        let ghost old_view = taken@;
        let IntSet { contents, shared: _ } = taken;
        let contents = match contents {
            Contents::Int16(mut v) => {
                v.insert(pos, value as i16);
                Contents::Int16(v)
            },
            Contents::Int32(mut v) => {
                v.insert(pos, value as i32);
                Contents::Int32(v)
            },
            Contents::Int64(mut v) => {
                v.insert(pos, value);
                Contents::Int64(v)
            },
        };
        proof {
            let nv = contents_view(contents);
            assert(nv =~= old_view.insert(pos as int, value));
            assert forall|i: int, j: int| 0 <= i < j < nv.len() implies nv[i] < nv[j] by {
                if j < pos {
                } else if j == pos {
                } else if i < pos {
                    assert(nv[j] == old_view[j - 1]);
                } else if i == pos {
                    assert(nv[j] == old_view[j - 1]);
                } else {
                    assert(nv[i] == old_view[i - 1] && nv[j] == old_view[j - 1]);
                }
            }
            assert forall|x: i64| nv.contains(x) implies (old_view.contains(x) || x == value) by {
                let i = choose|i: int| 0 <= i < nv.len() && nv[i] == x;
                if i < pos {
                    assert(old_view[i] == x);
                } else if i > pos {
                    assert(old_view[i - 1] == x);
                }
            }
            assert forall|x: i64| old_view.contains(x) implies nv.contains(x) by {
                let i = choose|i: int| 0 <= i < old_view.len() && old_view[i] == x;
                if i < pos {
                    assert(nv[i] == x);
                } else {
                    assert(nv[i + 1] == x);
                }
            }
            assert(nv[pos as int] == value);
        }
        *self = IntSet { contents, shared: false };
        true
    }

    /// Removes `value`; `false` when it is not a member. The element width
    /// stays as it is.
    pub fn remove(&mut self, value: i64) -> (r: bool)
        ensures
            r == old(self)@.contains(value),
            forall|x: i64| final(self)@.contains(x) <==> (old(self)@.contains(x) && x != value),
            final(self)@.len() == old(self)@.len() - if r { 1int } else { 0int },
            sorted(final(self)@),
            final(self).spec_encoding() == old(self).spec_encoding(),
            !r ==> *final(self) == *old(self),
    {
        let n = self.len_usize();
        let value_enc = Encoding::value_encoding(value);
        if value_enc.byte_size() > self.encoding().byte_size() {
            assert(!self@.contains(value)) by {
                if self@.contains(value) {
                    let i = choose|i: int| 0 <= i < self@.len() && self@[i] == value;
                    assert(encoding_of(self@[i]).width() <= self.spec_encoding().width());
                }
            }
            return false;
        }
        let (exist, pos) = self.search(value);
        if !exist {
            return false;
        }
        let mut taken = IntSet::new();
        std::mem::swap(self, &mut taken);
        proof {
            use_type_invariant(&taken);
        }
        let ghost old_view = taken@;
        let IntSet { contents, shared } = taken;
        let contents = match contents {
            Contents::Int16(mut v) => {
                v.remove(pos);
                Contents::Int16(v)
            },
            Contents::Int32(mut v) => {
                v.remove(pos);
                Contents::Int32(v)
            },
            Contents::Int64(mut v) => {
                v.remove(pos);
                Contents::Int64(v)
            },
        };
        proof {
            let nv = contents_view(contents);
            assert(nv =~= old_view.remove(pos as int));
            assert forall|i: int, j: int| 0 <= i < j < nv.len() implies nv[i] < nv[j] by {
                if j < pos {
                } else if i < pos {
                    assert(nv[j] == old_view[j + 1]);
                } else {
                    assert(nv[i] == old_view[i + 1] && nv[j] == old_view[j + 1]);
                }
            }
            assert forall|x: i64| nv.contains(x) implies (old_view.contains(x) && x != value) by {
                let i = choose|i: int| 0 <= i < nv.len() && nv[i] == x;
                if i < pos {
                    assert(old_view[i] == x);
                    assert(old_view[i] < old_view[pos as int]);
                } else {
                    assert(old_view[i + 1] == x);
                    assert(old_view[i + 1] > old_view[pos as int]);
                }
            }
            assert forall|x: i64| old_view.contains(x) && x != value implies nv.contains(x) by {
                let i = choose|i: int| 0 <= i < old_view.len() && old_view[i] == x;
                if i < pos {
                    assert(nv[i] == x);
                } else {
                    assert(i != pos);
                    assert(nv[i - 1] == x);
                }
            }
        }
        *self = IntSet { contents, shared };
        true
    }
}

impl Clone for IntSet {
    /// A set with the same members at the same width, in storage of its own.
    fn clone(&self) -> (r: Self)
        ensures
            r@ == self@,
            r.spec_encoding() == self.spec_encoding(),
            r.spec_shared() == self.spec_shared(),
    {
        proof {
            use_type_invariant(self);
        }
        let contents = match &self.contents {
            Contents::Int16(v) => {
                let c = v.clone();
                assert(c@ =~= v@);
                Contents::Int16(c)
            },
            Contents::Int32(v) => {
                let c = v.clone();
                assert(c@ =~= v@);
                Contents::Int32(c)
            },
            Contents::Int64(v) => {
                let c = v.clone();
                assert(c@ =~= v@);
                Contents::Int64(c)
            },
        };
        IntSet { contents, shared: self.shared }
    }
}

} // verus!
