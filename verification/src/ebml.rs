//! Builder for the tag/length/value binary encoding that underlies the
//! container format: variable-length integers, big-endian fixed-width
//! integers, raw bytes and size-prefixed payloads.

use vstd::prelude::*;

verus! {

/// The big-endian representation of `v` in exactly `n` bytes (the low `n`
/// bytes of `v` when it does not fit).
pub open spec fn be_bytes(v: nat, n: nat) -> Seq<u8>
    decreases n,
{
    if n == 0 {
        Seq::empty()
    } else {
        be_bytes(v / 256, (n - 1) as nat).push((v % 256) as u8)
    }
}

/// `2^(7w)`: the number of values that `w` bytes of a variable-length
/// integer can carry, and the marker bit's value in a `w`-byte encoding.
pub open spec fn vint_limit(w: nat) -> nat
    decreases w,
{
    if w == 0 {
        1
    } else {
        128 * vint_limit((w - 1) as nat)
    }
}

/// The number of values that the widest variable-length integer, of eight
/// bytes, can carry: `2^56`, less one where the all-ones pattern is kept
/// free.
pub open spec fn vint_capacity(disallow_all_ones: bool) -> int {
    if disallow_all_ones {
        0xFF_FFFF_FFFF_FFFF
    } else {
        0x100_0000_0000_0000
    }
}

/// Whether `val` can be written as a variable-length integer of `w` bytes.
/// With `disallow_all_ones` the pattern of all one bits is kept free.
pub open spec fn vint_fits(val: u64, w: nat, disallow_all_ones: bool) -> bool {
    val < vint_limit(w) - (if disallow_all_ones { 1int } else { 0int })
}

/// The first width from `w` upwards (at most 8) in which `val` fits.
pub open spec fn vint_width_from(val: u64, w: nat, disallow_all_ones: bool) -> nat
    decreases 8 - w,
{
    if w >= 8 || vint_fits(val, w, disallow_all_ones) {
        w
    } else {
        vint_width_from(val, w + 1, disallow_all_ones)
    }
}

/// The number of bytes that the variable-length encoding of `val` takes.
pub open spec fn vint_width(val: u64, disallow_all_ones: bool) -> nat {
    vint_width_from(val, 1, disallow_all_ones)
}

/// The variable-length encoding of `val`: the value with a marker bit set
/// just above its `7w` payload bits, big-endian in `w` bytes, where `w` is
/// the smallest width that fits.
pub open spec fn vint_bytes(val: u64, disallow_all_ones: bool) -> Seq<u8> {
    let w = vint_width(val, disallow_all_ones);
    be_bytes(val as nat + vint_limit(w), w)
}

/// The encoding of an element size: a variable-length integer that never
/// uses the all-ones pattern.
pub open spec fn size_bytes(val: u64) -> Seq<u8> {
    vint_bytes(val, true)
}

/// The bytes of all `children`, one after the other.
pub open spec fn concat_all(children: Seq<Seq<u8>>) -> Seq<u8>
    decreases children.len(),
{
    if children.len() == 0 {
        Seq::empty()
    } else {
        concat_all(children.drop_last()) + children.last()
    }
}

/// The contents of each of `children`.
pub open spec fn child_views(children: Seq<&EbmlBuilder>) -> Seq<Seq<u8>> {
    Seq::new(children.len(), |i: int| children[i]@)
}

/// An append-only byte sequence with the container format's writers.
#[derive(Debug, Clone)]
pub struct EbmlBuilder {
    data: Vec<u8>,
}

impl View for EbmlBuilder {
    type V = Seq<u8>;

    closed spec fn view(&self) -> Seq<u8> {
        self.data@
    }
}

impl EbmlBuilder {
    /// An empty builder.
    pub fn new() -> (r: Self)
        ensures
            r@ == Seq::<u8>::empty(),
    {
        EbmlBuilder { data: Vec::with_capacity(4096) }
    }

    /// An empty builder with room for `capacity` bytes.
    pub fn with_capacity(capacity: usize) -> (r: Self)
        ensures
            r@ == Seq::<u8>::empty(),
    {
        EbmlBuilder { data: Vec::with_capacity(capacity) }
    }

    /// Appends the `n` low bytes of `v`, most significant first.
    fn push_be(&mut self, v: u64, n: u8)
        ensures
            final(self)@ == old(self)@ + be_bytes(v as nat, n as nat),
        decreases n,
    {
        if n > 0 {
            self.push_be(v / 256, n - 1);
            self.data.push((v % 256) as u8);
        }
    }

    /// Appends `val` as a variable-length integer: the smallest width of 1
    /// to 8 bytes in which it fits, the width marked by the position of the
    /// first set bit of the first byte.
    pub fn vint(&mut self, val: u64, disallow_all_ones: bool) -> (r: &mut Self)
        requires
            val < vint_capacity(disallow_all_ones),
        ensures
            r@ == old(self)@ + vint_bytes(val, disallow_all_ones),
            *final(self) == *final(r),
    {
        let shift: u64 = if disallow_all_ones { 1 } else { 0 };
        let mut width: u8 = 1;
        let mut limit: u64 = 128;
        proof {
            lemma_vint_limit_values();
        }
        while width < 8 && val >= limit - shift
            invariant
                1 <= width <= 8,
                limit == vint_limit(width as nat),
                128 <= limit <= 0x100_0000_0000_0000,
                shift == (if disallow_all_ones { 1int } else { 0int }),
                vint_width(val, disallow_all_ones) == vint_width_from(
                    val,
                    width as nat,
                    disallow_all_ones,
                ),
            decreases 8 - width,
        {
            proof {
                lemma_vint_limit_values();
            }
            width = width + 1;
            limit = limit * 128;
        }
        proof {
            lemma_vint_limit_values();
        }
        self.push_be(val + limit, width);
        self
    }

    /// Appends `val` as an element size.
    pub fn size(&mut self, val: u64) -> (r: &mut Self)
        requires
            val < vint_capacity(true),
        ensures
            r@ == old(self)@ + size_bytes(val),
            *final(self) == *final(r),
    {
        self.vint(val, true)
    }

    /// Appends one byte.
    pub fn u1(&mut self, val: u8) -> (r: &mut Self)
        ensures
            r@ == old(self)@.push(val),
            *final(self) == *final(r),
    {
        self.data.push(val);
        self
    }

    /// Appends `val` in two bytes, big-endian.
    pub fn u2(&mut self, val: u16) -> (r: &mut Self)
        ensures
            r@ == old(self)@ + be_bytes(val as nat, 2),
            *final(self) == *final(r),
    {
        self.push_be(val as u64, 2);
        self
    }

    /// Appends `val` in four bytes, big-endian.
    pub fn u4(&mut self, val: u32) -> (r: &mut Self)
        ensures
            r@ == old(self)@ + be_bytes(val as nat, 4),
            *final(self) == *final(r),
    {
        self.push_be(val as u64, 4);
        self
    }

    /// Appends `val` in eight bytes, big-endian.
    pub fn u8(&mut self, val: u64) -> (r: &mut Self)
        ensures
            r@ == old(self)@ + be_bytes(val as nat, 8),
            *final(self) == *final(r),
    {
        self.push_be(val, 8);
        self
    }

    /// Appends a single-precision number, given by its bit pattern, in four
    /// bytes, big-endian.
    pub fn f4(&mut self, bits: u32) -> (r: &mut Self)
        ensures
            r@ == old(self)@ + be_bytes(bits as nat, 4),
            *final(self) == *final(r),
    {
        self.u4(bits)
    }

    /// Appends a double-precision number, given by its bit pattern, in eight
    /// bytes, big-endian.
    pub fn f8(&mut self, bits: u64) -> (r: &mut Self)
        ensures
            r@ == old(self)@ + be_bytes(bits as nat, 8),
            *final(self) == *final(r),
    {
        self.u8(bits)
    }

    /// Appends `data` as it is.
    pub fn bytes(&mut self, data: &[u8]) -> (r: &mut Self)
        ensures
            r@ == old(self)@ + data@,
            *final(self) == *final(r),
    {
        let mut i: usize = 0;
        while i < data.len()
            invariant
                0 <= i <= data@.len(),
                self@ == old(self)@ + data@.subrange(0, i as int),
            decreases data@.len() - i,
        {
            self.data.push(data[i]);
            i = i + 1;
        }
        self
    }

    /// Appends the size of `payload`, then its bytes: one nested element.
    pub fn payload(&mut self, payload: &EbmlBuilder) -> (r: &mut Self)
        requires
            payload@.len() < vint_capacity(true),
        ensures
            r@ == old(self)@ + size_bytes(payload@.len() as u64) + payload@,
            *final(self) == *final(r),
    {
        self.size(payload.len() as u64);
        self.bytes(payload.as_slice());
        self
    }

    /// Appends the summed size of `children`, then the bytes of each in
    /// turn: one element with several nested children.
    pub fn payload_multiple(&mut self, children: &[&EbmlBuilder]) -> (r: &mut Self)
        requires
            concat_all(child_views(children@)).len() < vint_capacity(true),
        ensures
            r@ == old(self)@ + size_bytes(concat_all(child_views(children@)).len() as u64)
                + concat_all(child_views(children@)),
            *final(self) == *final(r),
    {
        let ghost views = child_views(children@);
        let mut total: u64 = 0;
        let mut i: usize = 0;
        proof {
            lemma_vint_limit_values();
        }
        while i < children.len()
            invariant
                0 <= i <= children@.len(),
                views == child_views(children@),
                concat_all(views).len() < 0x100_0000_0000_0000,
                total == concat_all(views.subrange(0, i as int)).len(),
            decreases children@.len() - i,
        {
            proof {
                let pre = views.subrange(0, i as int + 1);
                lemma_concat_all_prefix(views, i as int + 1);
                assert(pre.drop_last() =~= views.subrange(0, i as int));
                assert(pre.last() == children@[i as int]@);
                assert(concat_all(pre) == concat_all(pre.drop_last()) + pre.last());
            }
            total = total + children[i].len() as u64;
            i = i + 1;
        }
        proof {
            assert(views.subrange(0, i as int) =~= views);
        }
        self.size(total);
        let mut j: usize = 0;
        while j < children.len()
            invariant
                0 <= j <= children@.len(),
                views == child_views(children@),
                concat_all(views).len() < 0x100_0000_0000_0000,
                self@ == old(self)@ + size_bytes(concat_all(views).len() as u64) + concat_all(
                    views.subrange(0, j as int),
                ),
            decreases children@.len() - j,
        {
            proof {
                let pre = views.subrange(0, j as int + 1);
                assert(pre.drop_last() =~= views.subrange(0, j as int));
                assert(pre.last() == children@[j as int]@);
                assert(concat_all(pre) == concat_all(pre.drop_last()) + pre.last());
            }
            self.bytes(children[j].as_slice());
            j = j + 1;
        }
        proof {
            assert(views.subrange(0, j as int) =~= views);
        }
        self
    }

    /// The number of bytes written so far.
    pub fn len(&self) -> (n: usize)
        ensures
            n == self@.len(),
    {
        self.data.len()
    }

    /// Whether nothing has been written.
    pub fn is_empty(&self) -> (b: bool)
        ensures
            b == (self@.len() == 0),
    {
        self.data.len() == 0
    }

    /// The bytes written so far.
    pub fn as_slice(&self) -> (s: &[u8])
        ensures
            s@ == self@,
    {
        self.data.as_slice()
    }

    /// Gives up the builder for its bytes.
    pub fn build(self) -> (v: Vec<u8>)
        ensures
            v@ == self@,
    {
        self.data
    }

    /// Empties the builder.
    pub fn clear(&mut self)
        ensures
            final(self)@ == Seq::<u8>::empty(),
    {
        self.data.clear();
    }
}

impl Default for EbmlBuilder {
    fn default() -> (r: Self)
        ensures
            r@ == Seq::<u8>::empty(),
    {
        EbmlBuilder::new()
    }
}

/// A prefix of a list of children is no longer, concatenated, than the list.
pub proof fn lemma_concat_all_prefix(children: Seq<Seq<u8>>, n: int)
    requires
        0 <= n <= children.len(),
    ensures
        concat_all(children.subrange(0, n)).len() <= concat_all(children).len(),
    decreases children.len(),
{
    if n < children.len() {
        lemma_concat_all_prefix(children.drop_last(), n);
        assert(children.drop_last().subrange(0, n) =~= children.subrange(0, n));
    } else {
        assert(children.subrange(0, n) =~= children);
    }
}

/// A big-endian representation has as many bytes as were asked for.
pub proof fn lemma_be_bytes_len(v: nat, n: nat)
    ensures
        be_bytes(v, n).len() == n,
    decreases n,
{
    if n > 0 {
        lemma_be_bytes_len(v / 256, (n - 1) as nat);
    }
}

/// From any start between 1 and 8, the search for a width ends between the
/// start and 8, at a width in which the value fits if it fits in 8 bytes,
/// and passes over no width in which it fits.
pub proof fn lemma_vint_width_from(val: u64, w: nat, disallow_all_ones: bool)
    requires
        1 <= w <= 8,
    ensures
        w <= vint_width_from(val, w, disallow_all_ones) <= 8,
        vint_fits(val, 8, disallow_all_ones) ==> vint_fits(
            val,
            vint_width_from(val, w, disallow_all_ones),
            disallow_all_ones,
        ),
        forall|k: nat|
            w <= k < vint_width_from(val, w, disallow_all_ones) ==> !vint_fits(
                val,
                k,
                disallow_all_ones,
            ),
    decreases 8 - w,
{
    if w < 8 && !vint_fits(val, w, disallow_all_ones) {
        lemma_vint_width_from(val, w + 1, disallow_all_ones);
    }
}

/// The variable-length encoding of a value that fits in eight bytes takes
/// the smallest width, from 1 to 8, in which the value fits, and has that
/// many bytes.
pub proof fn lemma_vint_width_minimal(val: u64, disallow_all_ones: bool)
    requires
        val < vint_capacity(disallow_all_ones),
    ensures
        1 <= vint_width(val, disallow_all_ones) <= 8,
        vint_fits(val, vint_width(val, disallow_all_ones), disallow_all_ones),
        forall|k: nat|
            1 <= k < vint_width(val, disallow_all_ones) ==> !vint_fits(val, k, disallow_all_ones),
        vint_bytes(val, disallow_all_ones).len() == vint_width(val, disallow_all_ones),
{
    lemma_vint_limit_values();
    lemma_vint_width_from(val, 1, disallow_all_ones);
    let w = vint_width(val, disallow_all_ones);
    lemma_be_bytes_len(val as nat + vint_limit(w), w);
}

/// The limits of the eight widths, as numbers.
pub proof fn lemma_vint_limit_values()
    ensures
        vint_limit(0) == 1,
        vint_limit(1) == 0x80,
        vint_limit(2) == 0x4000,
        vint_limit(3) == 0x20_0000,
        vint_limit(4) == 0x1000_0000,
        vint_limit(5) == 0x8_0000_0000,
        vint_limit(6) == 0x400_0000_0000,
        vint_limit(7) == 0x2_0000_0000_0000,
        vint_limit(8) == 0x100_0000_0000_0000,
{
    reveal_with_fuel(vint_limit, 9);
}

} // verus!
