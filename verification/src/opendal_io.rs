//! The reader an object's bytes are searched through.
use vstd::prelude::*;

verus! {

/// A full-buffer reader over bytes already fetched from the object store.
pub struct BufReader {
    data: Vec<u8>,
    pos: usize,
}

impl BufReader {
    #[verifier::type_invariant]
    spec fn position_in_bounds(self) -> bool {
        self.pos <= self.data.len()
    }

    /// The bytes the reader was made with.
    pub closed spec fn data(&self) -> Seq<u8> {
        self.data@
    }

    /// How many bytes have been handed out so far.
    pub closed spec fn position(&self) -> nat {
        self.pos as nat
    }

    /// The bytes that later reads will hand out, in order.
    pub open spec fn remaining(&self) -> Seq<u8> {
        self.data().skip(self.position() as int)
    }

    /// Makes a reader positioned at the first byte of `data`.
    pub fn new(data: Vec<u8>) -> (r: Self)
        ensures
            r.data() == data@,
            r.position() == 0,
    {
        BufReader { data, pos: 0 }
    }

    /// Copies the next `min(buf.len(), remaining)` bytes into the front of
    /// `buf`, leaves the rest of `buf` as it was, and returns how many bytes
    /// were copied; 0 once everything has been read.
    pub fn read_into(&mut self, buf: &mut [u8]) -> (n: usize)
        ensures
            n as int == if old(buf)@.len() <= old(self).remaining().len() {
                old(buf)@.len() as int
            } else {
                old(self).remaining().len() as int
            },
            final(buf)@ == old(self).remaining().take(n as int) + old(buf)@.skip(n as int),
            final(self).data() == old(self).data(),
            final(self).position() == old(self).position() + n,
            final(self).position() <= final(self).data().len(),
            final(buf)@.take(n as int) + final(self).remaining() == old(self).remaining(),
            n == read_size(old(self).data().len(), old(buf)@.len(), old(self).position()),
            read_step(*old(self), old(buf)@.len(), final(buf)@.take(n as int), *final(self)),
    {
        proof {
            use_type_invariant(&*self);
        }
        let remaining = self.data.len() - self.pos;
        let to_read = if buf.len() <= remaining {
            buf.len()
        } else {
            remaining
        };
        let ghost start = self.pos as int;
        let ghost before = buf@;
        let mut i: usize = 0;
        while i < to_read
            invariant
                0 <= i <= to_read,
                to_read <= buf@.len(),
                buf@.len() == before.len(),
                start == self.pos,
                start + to_read <= self.data@.len(),
                self.pos + to_read <= self.data.len(),
                forall|k: int| 0 <= k < i ==> buf@[k] == self.data@[start + k],
                forall|k: int| i <= k < buf@.len() ==> buf@[k] == before[k],
            decreases to_read - i,
        {
            buf[i] = self.data[self.pos + i];
            i = i + 1;
        }
        self.pos = self.pos + to_read;
        proof {
            assert(buf@ =~= self.data@.skip(start).take(to_read as int) + before.skip(
                to_read as int,
            ));
            assert(buf@.take(to_read as int) + self.data@.skip(start + to_read) =~= self.data@.skip(
                start,
            ));
        }
        to_read
    }
}

/// How many bytes a read with a buffer of `l` bytes hands out when `p` of
/// `d` bytes have been handed out.
pub open spec fn read_size(d: nat, l: nat, p: nat) -> nat {
    if p >= d {
        0
    } else if l <= d - p {
        l
    } else {
        (d - p) as nat
    }
}

/// Where a reader over `d` bytes stands after `k` reads with buffers of `l`
/// bytes.
pub open spec fn position_after_reads(d: nat, l: nat, k: nat) -> nat
    decreases k,
{
    if k == 0 {
        0
    } else {
        let p = position_after_reads(d, l, (k - 1) as nat);
        p + read_size(d, l, p)
    }
}

/// What one read does: with a buffer of `len` bytes, `before` hands out
/// `handed`, the next `read_size` bytes of what remains, and becomes `after`,
/// over the same bytes and that much further on.
pub open spec fn read_step(before: BufReader, len: nat, handed: Seq<u8>, after: BufReader) -> bool {
    &&& after.data() == before.data()
    &&& handed.len() == read_size(before.data().len(), len, before.position())
    &&& after.position() == before.position() + handed.len()
    &&& handed + after.remaining() == before.remaining()
}

/// Reads that each hand out the next bytes of what remains, the last of them
/// handing out nothing into a non-empty buffer, hand out together everything
/// that remained before the first.
proof fn lemma_reads_hand_out_remaining(readers: Seq<BufReader>, lens: Seq<nat>, handed: Seq<Seq<u8>>)
    requires
        handed.len() > 0,
        readers.len() == handed.len() + 1,
        lens.len() == handed.len(),
        forall|i: int|
            0 <= i < handed.len() ==> read_step(readers[i], lens[i], #[trigger] handed[i], readers[i + 1]),
        lens.last() > 0,
        handed.last().len() == 0,
        readers[0].position() <= readers[0].data().len(),
    ensures
        handed.flatten() == readers[0].remaining(),
    decreases handed.len(),
{
    let r0 = readers[0];
    assert(read_step(readers[0], lens[0], handed[0], readers[1]));
    if handed.len() == 1 {
        assert(read_size(r0.data().len(), lens[0], r0.position()) == 0);
        assert(r0.position() == r0.data().len());
        assert(r0.remaining() =~= Seq::<u8>::empty());
        assert(handed.drop_first() =~= Seq::<Seq<u8>>::empty());
        assert(handed.flatten() == handed[0] + handed.drop_first().flatten());
        assert(handed.flatten() =~= Seq::<u8>::empty());
    } else {
        let rr = readers.drop_first();
        let rl = lens.drop_first();
        let rh = handed.drop_first();
        assert forall|i: int| 0 <= i < rh.len() implies read_step(rr[i], rl[i], #[trigger] rh[i], rr[i + 1]) by {
            assert(rr[i] == readers[i + 1] && rl[i] == lens[i + 1] && rh[i] == handed[i + 1]);
            assert(rr[i + 1] == readers[i + 2]);
        }
        assert(rl.last() == lens.last() && rh.last() == handed.last());
        assert(readers[1].position() <= readers[1].data().len());
        lemma_reads_hand_out_remaining(rr, rl, rh);
        assert(handed.flatten() == handed[0] + rh.flatten());
    }
}

/// Every byte is read exactly once, in order: reading a fresh reader with
/// buffers of any non-empty sizes until a read hands out nothing, the bytes
/// handed out, concatenated, are the reader's bytes.
pub proof fn law_reads_hand_out_everything_in_order(
    readers: Seq<BufReader>,
    lens: Seq<nat>,
    handed: Seq<Seq<u8>>,
)
    requires
        handed.len() > 0,
        readers.len() == handed.len() + 1,
        lens.len() == handed.len(),
        readers[0].position() == 0,
        forall|i: int|
            0 <= i < handed.len() ==> read_step(readers[i], lens[i], #[trigger] handed[i], readers[i + 1]),
        forall|i: int| 0 <= i < lens.len() ==> #[trigger] lens[i] > 0,
        handed.last().len() == 0,
    ensures
        handed.flatten() == readers[0].data(),
{
    assert(lens[lens.len() - 1] > 0);
    lemma_reads_hand_out_remaining(readers, lens, handed);
    assert(readers[0].remaining() =~= readers[0].data());
}

proof fn lemma_ceil_div(d: nat, l: nat, k: nat)
    requires
        l > 0,
    ensures
        (k * l < d) <==> (k < (d + l - 1) / (l as int)),
{
    let q = (d + l - 1) / (l as int);
    let r = (d + l - 1) % (l as int);
    vstd::arithmetic::div_mod::lemma_fundamental_div_mod((d + l - 1) as int, l as int);
    assert(d + l - 1 == l * q + r && 0 <= r < l);
    if k * l < d {
        assert(k < q) by (nonlinear_arith)
            requires
                k * l < d,
                d + l - 1 == l * q + r,
                0 <= r < l,
                l > 0,
        ;
    } else {
        assert(k >= q) by (nonlinear_arith)
            requires
                k * l >= d,
                d + l - 1 == l * q + r,
                0 <= r < l,
                l > 0,
        ;
    }
}

/// Reading a reader over `d` bytes with buffers of `l > 0` bytes: after `k`
/// reads it stands at `min(k * l, d)`; read `k` hands out bytes exactly when
/// `k < ceil(d / l)`, a full buffer while a full buffer remains, and nothing
/// from read `ceil(d / l)` on.
pub proof fn lemma_read_count(d: nat, l: nat, k: nat)
    requires
        l > 0,
    ensures
        position_after_reads(d, l, k) == if k * l <= d {
            k * l
        } else {
            d
        },
        read_size(d, l, position_after_reads(d, l, k)) > 0 <==> k < (d + l - 1) / (l as int),
        (k + 1) * l <= d ==> read_size(d, l, position_after_reads(d, l, k)) == l,
    decreases k,
{
    if k > 0 {
        let km = (k - 1) as nat;
        lemma_read_count(d, l, km);
        assert(k * l == km * l + l) by (nonlinear_arith)
            requires
                k == km + 1,
        ;
        let p = position_after_reads(d, l, km);
        assert(position_after_reads(d, l, k) == p + read_size(d, l, p));
        assert(km * l >= 0) by (nonlinear_arith);
    } else {
        assert(k * l == 0) by (nonlinear_arith)
            requires
                k == 0,
        ;
    }
    assert((k + 1) * l == k * l + l) by (nonlinear_arith);
    lemma_ceil_div(d, l, k);
}

/// Where reads with buffers of `l` bytes leave a fresh reader.
proof fn lemma_fixed_reads_position(readers: Seq<BufReader>, l: nat, handed: Seq<Seq<u8>>, k: int)
    requires
        readers.len() == handed.len() + 1,
        readers[0].position() == 0,
        forall|i: int| 0 <= i < handed.len() ==> read_step(readers[i], l, #[trigger] handed[i], readers[i + 1]),
        0 <= k < readers.len(),
    ensures
        readers[k].data() == readers[0].data(),
        readers[k].position() == position_after_reads(readers[0].data().len(), l, k as nat),
    decreases k,
{
    if k > 0 {
        lemma_fixed_reads_position(readers, l, handed, k - 1);
        assert(read_step(readers[k - 1], l, handed[k - 1], readers[k]));
    }
}

/// Reading a fresh reader over `d` bytes with buffers of one size `l > 0`:
/// read `k` hands out bytes exactly when `k < ceil(d / l)`, a full buffer
/// while a full buffer remains, so that `ceil(d / l)` reads hand out bytes
/// and the one after them hands out nothing.
pub proof fn law_fixed_size_read_count(readers: Seq<BufReader>, l: nat, handed: Seq<Seq<u8>>)
    requires
        l > 0,
        readers.len() == handed.len() + 1,
        readers[0].position() == 0,
        forall|i: int| 0 <= i < handed.len() ==> read_step(readers[i], l, #[trigger] handed[i], readers[i + 1]),
    ensures
        forall|k: int|
            0 <= k < handed.len() ==> ((#[trigger] handed[k]).len() > 0 <==> k < (readers[0].data().len() + l
                - 1) / (l as int)),
        forall|k: int|
            0 <= k < handed.len() && (k + 1) * l <= readers[0].data().len() ==> (#[trigger] handed[k]).len()
                == l,
{
    let d = readers[0].data().len();
    assert forall|k: int| 0 <= k < handed.len() implies ((#[trigger] handed[k]).len() > 0 <==> k < (d + l
        - 1) / (l as int)) && ((k + 1) * l <= d ==> handed[k].len() == l) by {
        lemma_fixed_reads_position(readers, l, handed, k);
        lemma_read_count(d, l, k as nat);
        assert(read_step(readers[k], l, handed[k], readers[k + 1]));
    }
}

/// `std::io::Error`, carried opaquely in the `Result` of `std::io::Read::read`.
#[verifier::external_type_specification]
#[verifier::external_body]
pub struct IoErrorDecl(std::io::Error);

/// The searcher reads through this impl; it never fails.
impl std::io::Read for BufReader {
    fn read(&mut self, buf: &mut [u8]) -> (r: std::io::Result<usize>)
        ensures
            r matches Ok(n) && {
                &&& n as int == if old(buf)@.len() <= old(self).remaining().len() {
                    old(buf)@.len() as int
                } else {
                    old(self).remaining().len() as int
                }
                &&& final(buf)@ == old(self).remaining().take(n as int) + old(buf)@.skip(n as int)
                &&& final(self).data() == old(self).data()
                &&& final(self).position() == old(self).position() + n
                &&& read_step(*old(self), old(buf)@.len(), final(buf)@.take(n as int), *final(self))
            },
    {
        Ok(self.read_into(buf))
    }
}

} // verus!
