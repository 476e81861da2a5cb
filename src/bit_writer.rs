//! Bit-level writer: packs bits, most significant requested bit first, into
//! bytes that it hands to a byte sink.
use vstd::prelude::*;

verus! {

/// Number of bits in a byte of the sink.
pub const BIT_COUNT_LIMIT: u8 = 8;

/// The `n` low-order bits of `v`, the most significant of them first.
pub open spec fn bits_of(v: u128, n: nat) -> Seq<bool> {
    Seq::new(n, |j: int| (v >> ((n - 1 - j) as u128)) & 1 == 1)
}

/// The eight bits of a byte, the most significant first.
pub open spec fn byte_bits(b: u8) -> Seq<bool> {
    Seq::new(8, |j: int| (b >> ((7 - j) as u8)) & 1 == 1)
}

/// The bits of a byte sequence, byte after byte.
pub open spec fn bytes_bits(s: Seq<u8>) -> Seq<bool>
    decreases s.len(),
{
    if s.len() == 0 {
        Seq::empty()
    } else {
        bytes_bits(s.drop_last()) + byte_bits(s.last())
    }
}

/// `n` zero bits.
pub open spec fn zeros(n: nat) -> Seq<bool> {
    Seq::new(n, |j: int| false)
}

/// Number of zero bits that complete `len` bits to a whole number of bytes.
pub open spec fn pad_len(len: nat) -> nat {
    ((8 - len % 8) % 8) as nat
}

/// Accumulates bits into bytes; each completed byte goes to `out`, the sink.
pub struct BitWriter {
    out: Vec<u8>,
    buffer: u8,
    bit_count: u8,
}

impl BitWriter {
    /// The pending bits sit in the high bits of `buffer`; the rest are zero.
    pub closed spec fn wf(&self) -> bool {
        &&& self.bit_count < BIT_COUNT_LIMIT
        &&& self.buffer & (0xffu8 >> self.bit_count) == 0
    }

    /// Bytes in the sink that have not been taken out yet.
    pub closed spec fn bytes(&self) -> Seq<u8> {
        self.out@
    }

    /// Bits of a byte that is not complete yet.
    pub closed spec fn pending(&self) -> Seq<bool> {
        byte_bits(self.buffer).take(self.bit_count as int)
    }

    /// Every bit written since the sink was last emptied, in order.
    pub open spec fn bits(&self) -> Seq<bool> {
        bytes_bits(self.bytes()) + self.pending()
    }

    pub fn new() -> (r: Self)
        ensures
            r.wf(),
            r.bytes() == Seq::<u8>::empty(),
            r.pending() == Seq::<bool>::empty(),
    {
        let r = Self { out: Vec::new(), buffer: 0, bit_count: 0 };
        proof {
            lemma_empty_byte_wf(r.bit_count);
        }
        assert(r.pending() =~= Seq::<bool>::empty());
        r
    }

    /// Moves the accumulated byte to the sink and starts a new one.
    fn flush_to_writer(&mut self)
        ensures
            final(self).bytes() == old(self).bytes().push(old(self).buffer),
            final(self).buffer == 0,
            final(self).bit_count == 0,
    {
        self.out.push(self.buffer);
        self.buffer = 0;
        self.bit_count = 0;
    }

    /// Appends the `num_bits` low-order bits of `value`, the most significant
    /// first; each completed byte goes to the sink at once.
    pub fn write_bits(&mut self, value: u128, num_bits: u8)
        requires
            old(self).wf(),
            num_bits <= 128,
        ensures
            final(self).wf(),
            final(self).bits() == old(self).bits() + bits_of(value, num_bits as nat),
            final(self).pending().len() == final(self).bits().len() % 8,
            final(self).bytes().len() >= old(self).bytes().len(),
            final(self).bytes().subrange(0, old(self).bytes().len() as int) == old(self).bytes(),
    {
        let ghost start = self.bits();
        let ghost old_bytes = self.bytes();
        let ghost all = bits_of(value, num_bits as nat);
        let mut i: u8 = num_bits;
        proof {
            assert(all.take(0) =~= Seq::<bool>::empty());
            assert(start + all.take(0) =~= start);
        }
        while i > 0
            invariant
                self.wf(),
                i <= num_bits <= 128,
                all == bits_of(value, num_bits as nat),
                self.bits() == start + all.take(num_bits - i),
                self.bytes().len() >= old_bytes.len(),
                self.bytes().subrange(0, old_bytes.len() as int) == old_bytes,
            decreases i,
        {
            i = i - 1;
            let is_bit_set = (value >> i) & 1 == 1;
            let ghost before = self.bits();
            let ghost pend = self.pending();
            let ghost buf = self.buffer;
            let bc = self.bit_count;
            if is_bit_set {
                self.buffer = self.buffer | (1u8 << (BIT_COUNT_LIMIT - 1 - bc));
            }
            self.bit_count = bc + 1;
            let nb = self.buffer;
            proof {
                lemma_set_bit(buf, bc, is_bit_set, nb);
                assert(byte_bits(nb).take(bc + 1) =~= pend.push(is_bit_set));
                assert(all[num_bits - 1 - i] == is_bit_set);
                assert(all.take(num_bits - i) =~= all.take(num_bits - i - 1).push(is_bit_set));
            }
            if self.bit_count == BIT_COUNT_LIMIT {
                let ghost bytes_before = self.bytes();
                self.flush_to_writer();
                proof {
                    lemma_bytes_bits_push(bytes_before, nb);
                    assert(byte_bits(nb).take(8) =~= byte_bits(nb));
                    assert(self.pending() =~= Seq::<bool>::empty());
                    lemma_empty_byte_wf(self.bit_count);
                }
            }
            proof {
                assert(self.bits() =~= before.push(is_bit_set));
                assert(self.bytes().subrange(0, old_bytes.len() as int) =~= old_bytes);
            }
        }
        proof {
            lemma_pending_len(self);
        }
    }

    /// Pads the pending bits with zeros to a whole byte and moves that byte to the sink.
    pub fn flush_all(&mut self)
        requires
            old(self).wf(),
        ensures
            final(self).wf(),
            final(self).pending() == Seq::<bool>::empty(),
            bytes_bits(final(self).bytes()) == old(self).bits() + zeros(
                pad_len(old(self).bits().len()),
            ),
    {
        let ghost bytes_before = self.bytes();
        let ghost buf = self.buffer;
        let ghost bc = self.bit_count;
        proof {
            lemma_bytes_bits_len(bytes_before);
            assert((bytes_before.len() * 8 + bc) % 8 == bc as int) by (nonlinear_arith)
                requires
                    bc < 8,
            ;
        }
        if self.bit_count > 0 {
            self.flush_to_writer();
            proof {
                lemma_bytes_bits_push(bytes_before, buf);
                lemma_pad_bits(buf, bc);
                assert(byte_bits(buf) =~= byte_bits(buf).take(bc as int) + zeros(
                    (8 - bc) as nat,
                ));
            }
        } else {
            assert(byte_bits(buf).take(0) =~= Seq::<bool>::empty());
        }
        proof {
            assert(self.pending() =~= Seq::<bool>::empty());
            lemma_empty_byte_wf(self.bit_count);
            assert(bytes_bits(self.bytes()) =~= old(self).bits() + zeros(
                pad_len(old(self).bits().len()),
            ));
        }
    }

    /// Hands out the bytes that the sink holds and empties it; pending bits stay.
    pub fn take_bytes(&mut self) -> (r: Vec<u8>)
        requires
            old(self).wf(),
        ensures
            final(self).wf(),
            r@ == old(self).bytes(),
            final(self).bytes() == Seq::<u8>::empty(),
            final(self).pending() == old(self).pending(),
            final(self).pending().len() == final(self).bits().len() % 8,
    {
        proof {
            lemma_pending_len(self);
        }
        let mut r: Vec<u8> = Vec::new();
        std::mem::swap(&mut r, &mut self.out);
        r
    }
}

/// The pending bits are what is left of the bits after whole bytes.
proof fn lemma_pending_len(w: &BitWriter)
    requires
        w.wf(),
    ensures
        w.pending().len() == w.bits().len() % 8,
        w.pending().len() < 8,
{
    lemma_bytes_bits_len(w.bytes());
    let n = w.bytes().len();
    let bc = w.bit_count as int;
    assert((8 * n + bc) % 8 == bc) by (nonlinear_arith)
        requires
            0 <= bc < 8,
    ;
}

/// A zero byte has no pending bits.
proof fn lemma_empty_byte_wf(bc: u8)
    ensures
        0u8 & (0xffu8 >> bc) == 0,
{
    assert(0u8 & (0xffu8 >> bc) == 0) by (bit_vector);
}

/// Setting (or not) bit `7 - bc` of a byte whose bits below it are zero adds
/// one pending bit and keeps the others.
proof fn lemma_set_bit(buf: u8, bc: u8, set: bool, nb: u8)
    requires
        bc < 8,
        buf & (0xffu8 >> bc) == 0,
        nb == (if set {
            buf | (1u8 << (7 - bc) as u8)
        } else {
            buf
        }),
    ensures
        nb & (0xffu8 >> (bc + 1) as u8) == 0,
        forall|j: int| 0 <= j < bc ==> #[trigger] byte_bits(nb)[j] == byte_bits(buf)[j],
        byte_bits(nb)[bc as int] == set,
{
    assert(nb & (0xffu8 >> (bc + 1) as u8) == 0) by (bit_vector)
        requires
            bc < 8,
            buf & (0xffu8 >> bc) == 0,
            nb == (if set {
                buf | (1u8 << (7 - bc) as u8)
            } else {
                buf
            }),
    ;
    assert forall|j: int| 0 <= j < bc implies #[trigger] byte_bits(nb)[j] == byte_bits(buf)[j] by {
        let jj = j as u8;
        assert((nb >> (7 - jj) as u8) & 1 == (buf >> (7 - jj) as u8) & 1) by (bit_vector)
            requires
                jj < bc < 8,
                nb == (if set {
                    buf | (1u8 << (7 - bc) as u8)
                } else {
                    buf
                }),
        ;
    }
    assert(((nb >> (7 - bc) as u8) & 1 == 1) == set) by (bit_vector)
        requires
            bc < 8,
            buf & (0xffu8 >> bc) == 0,
            nb == (if set {
                buf | (1u8 << (7 - bc) as u8)
            } else {
                buf
            }),
    ;
}

/// The bits of a byte below its `bc` pending ones are zero.
proof fn lemma_pad_bits(buf: u8, bc: u8)
    requires
        bc < 8,
        buf & (0xffu8 >> bc) == 0,
    ensures
        forall|j: int| bc <= j < 8 ==> !(#[trigger] byte_bits(buf)[j]),
{
    assert forall|j: int| bc <= j < 8 implies !(#[trigger] byte_bits(buf)[j]) by {
        let jj = j as u8;
        assert((buf >> (7 - jj) as u8) & 1 == 0) by (bit_vector)
            requires
                bc <= jj < 8,
                buf & (0xffu8 >> bc) == 0,
        ;
    }
}

proof fn lemma_bytes_bits_push(s: Seq<u8>, b: u8)
    ensures
        bytes_bits(s.push(b)) == bytes_bits(s) + byte_bits(b),
{
    assert(s.push(b).drop_last() =~= s);
}

/// Each byte gives eight bits.
pub proof fn lemma_bytes_bits_len(s: Seq<u8>)
    ensures
        bytes_bits(s).len() == 8 * s.len(),
    decreases s.len(),
{
    if s.len() > 0 {
        lemma_bytes_bits_len(s.drop_last());
    }
}

proof fn lemma_byte_bits_injective(a: u8, b: u8)
    requires
        byte_bits(a) == byte_bits(b),
    ensures
        a == b,
{
    assert(byte_bits(a)[0] == byte_bits(b)[0]);
    assert(byte_bits(a)[0] == ((a >> 7u8) & 1 == 1));
    assert(byte_bits(b)[0] == ((b >> 7u8) & 1 == 1));
    assert(byte_bits(a)[1] == byte_bits(b)[1]);
    assert(byte_bits(a)[1] == ((a >> 6u8) & 1 == 1));
    assert(byte_bits(b)[1] == ((b >> 6u8) & 1 == 1));
    assert(byte_bits(a)[2] == byte_bits(b)[2]);
    assert(byte_bits(a)[2] == ((a >> 5u8) & 1 == 1));
    assert(byte_bits(b)[2] == ((b >> 5u8) & 1 == 1));
    assert(byte_bits(a)[3] == byte_bits(b)[3]);
    assert(byte_bits(a)[3] == ((a >> 4u8) & 1 == 1));
    assert(byte_bits(b)[3] == ((b >> 4u8) & 1 == 1));
    assert(byte_bits(a)[4] == byte_bits(b)[4]);
    assert(byte_bits(a)[4] == ((a >> 3u8) & 1 == 1));
    assert(byte_bits(b)[4] == ((b >> 3u8) & 1 == 1));
    assert(byte_bits(a)[5] == byte_bits(b)[5]);
    assert(byte_bits(a)[5] == ((a >> 2u8) & 1 == 1));
    assert(byte_bits(b)[5] == ((b >> 2u8) & 1 == 1));
    assert(byte_bits(a)[6] == byte_bits(b)[6]);
    assert(byte_bits(a)[6] == ((a >> 1u8) & 1 == 1));
    assert(byte_bits(b)[6] == ((b >> 1u8) & 1 == 1));
    assert(byte_bits(a)[7] == byte_bits(b)[7]);
    assert(byte_bits(a)[7] == ((a >> 0u8) & 1 == 1));
    assert(byte_bits(b)[7] == ((b >> 0u8) & 1 == 1));
    assert(a == b) by (bit_vector)
        requires
            ((a >> 7u8) & 1 == 1) == ((b >> 7u8) & 1 == 1),
            ((a >> 6u8) & 1 == 1) == ((b >> 6u8) & 1 == 1),
            ((a >> 5u8) & 1 == 1) == ((b >> 5u8) & 1 == 1),
            ((a >> 4u8) & 1 == 1) == ((b >> 4u8) & 1 == 1),
            ((a >> 3u8) & 1 == 1) == ((b >> 3u8) & 1 == 1),
            ((a >> 2u8) & 1 == 1) == ((b >> 2u8) & 1 == 1),
            ((a >> 1u8) & 1 == 1) == ((b >> 1u8) & 1 == 1),
            ((a >> 0u8) & 1 == 1) == ((b >> 0u8) & 1 == 1),
    ;
}

/// The bits of a byte sequence determine it.
pub proof fn lemma_bytes_bits_injective(s: Seq<u8>, t: Seq<u8>)
    requires
        bytes_bits(s) == bytes_bits(t),
    ensures
        s == t,
    decreases s.len(),
{
    lemma_bytes_bits_len(s);
    lemma_bytes_bits_len(t);
    if s.len() > 0 {
        let a = bytes_bits(s.drop_last());
        let b = bytes_bits(t.drop_last());
        lemma_bytes_bits_len(s.drop_last());
        lemma_bytes_bits_len(t.drop_last());
        assert(a =~= bytes_bits(s).take(a.len() as int));
        assert(b =~= bytes_bits(t).take(b.len() as int));
        assert(byte_bits(s.last()) =~= bytes_bits(s).skip(a.len() as int));
        assert(byte_bits(t.last()) =~= bytes_bits(t).skip(b.len() as int));
        lemma_bytes_bits_injective(s.drop_last(), t.drop_last());
        lemma_byte_bits_injective(s.last(), t.last());
        assert(s =~= s.drop_last().push(s.last()));
        assert(t =~= t.drop_last().push(t.last()));
    } else {
        assert(s =~= t);
    }
}

/// Splitting a write: the `c1 + c2` low bits of `v` are the `c1` low bits of
/// `v >> c2` followed by the `c2` low bits of `v`.
pub proof fn lemma_bits_of_split(v: u128, c1: nat, c2: nat)
    requires
        c1 + c2 <= 128,
    ensures
        bits_of(v, c1 + c2) == bits_of(v >> (c2 as u128), c1) + bits_of(v, c2),
{
    let n = c1 + c2;
    assert forall|j: int| 0 <= j < c1 implies #[trigger] bits_of(v, n)[j] == bits_of(
        v >> (c2 as u128),
        c1,
    )[j] by {
        let a = (c1 - 1 - j) as u128;
        let s = c2 as u128;
        assert((v >> (a + s)) & 1 == ((v >> s) >> a) & 1) by (bit_vector)
            requires
                a + s < 128,
        ;
        assert((n - 1 - j) as u128 == a + s);
    }
    assert(bits_of(v, n) =~= bits_of(v >> (c2 as u128), c1) + bits_of(v, c2));
}

/// Writing `c1 + c2` bits in one call or in two calls, the high `c1` bits first,
/// gives the same bytes once flushed: whatever came before, any two sinks that
/// hold the flushed bits of the two ways hold the same bytes.
pub proof fn lemma_split_write_same_bytes(
    prior: Seq<bool>,
    v: u128,
    c1: nat,
    c2: nat,
    one_call: Seq<u8>,
    two_calls: Seq<u8>,
)
    requires
        c1 + c2 <= 128,
        bytes_bits(one_call) == (prior + bits_of(v, c1 + c2)) + zeros(
            pad_len((prior + bits_of(v, c1 + c2)).len()),
        ),
        bytes_bits(two_calls) == (prior + bits_of(v >> (c2 as u128), c1) + bits_of(v, c2))
            + zeros(pad_len((prior + bits_of(v >> (c2 as u128), c1) + bits_of(v, c2)).len())),
    ensures
        one_call == two_calls,
{
    lemma_bits_of_split(v, c1, c2);
    assert(prior + bits_of(v, c1 + c2) =~= prior + bits_of(v >> (c2 as u128), c1) + bits_of(
        v,
        c2,
    ));
    lemma_bytes_bits_injective(one_call, two_calls);
}

} // verus!
