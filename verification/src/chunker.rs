//! Cuts the input stream into numbered blocks of one size.
//!
//! The caller reads the input and hands each piece it has read to
//! [`Chunker::feed`]; an empty piece stands for the end of the input. The
//! chunker gathers the pieces into blocks and numbers the blocks from 1.

use crate::part::Block;
use vstd::arithmetic::div_mod::lemma_fundamental_div_mod_converse;
use vstd::prelude::*;

verus! {

/// How many blocks an input of `len` bytes is cut into.
pub open spec fn block_count(len: nat, block_size: nat) -> nat
    recommends
        block_size > 0,
{
    if len % block_size == 0 {
        len / block_size
    } else {
        len / block_size + 1
    }
}

/// The length of block `index` of an input of `len` bytes, the first block
/// having index 0.
pub open spec fn block_len(len: nat, block_size: nat, index: nat) -> nat {
    if (index + 1) * block_size <= len {
        block_size
    } else {
        (len - index * block_size) as nat
    }
}

/// The bytes of block `index` of `data`, the first block having index 0.
pub open spec fn block_at(data: Seq<u8>, block_size: nat, index: nat) -> Seq<u8> {
    data.subrange(
        (index * block_size) as int,
        (index * block_size + block_len(data.len(), block_size, index)) as int,
    )
}

/// What a chunker is, as far as its behaviour goes.
pub struct ChunkerView {
    /// The size of every block but the last.
    pub block_size: nat,
    /// How many blocks have been handed out.
    pub emitted: nat,
    /// The bytes read that belong to the block being gathered.
    pub pending: Seq<u8>,
    /// Every byte read so far, in order.
    pub consumed: Seq<u8>,
    /// Whether the end of the input has been seen, or the part numbers ran out.
    pub finished: bool,
    /// Whether the part numbers ran out.
    pub overflowed: bool,
}

/// What `feed` answers, with a block given by its number and its bytes.
pub enum ChunkStepView {
    NeedMore,
    Emit { part_number: int, payload: Seq<u8> },
    EndOfStream,
    TooManyParts,
}

/// What `feed` answers.
#[derive(Debug, PartialEq, Eq)]
pub enum ChunkStep {
    /// The block is not full: read again, at most `wanted()` bytes.
    NeedMore,
    /// A block is ready to be sent.
    Emit(Block),
    /// The input has ended and its last block has been handed out before.
    EndOfStream,
    /// Another block is there, but its number would exceed `i32::MAX`.
    TooManyParts,
}

/// The answer, with its block given by its number and its bytes.
pub open spec fn step_view(step: ChunkStep) -> ChunkStepView {
    match step {
        ChunkStep::NeedMore => ChunkStepView::NeedMore,
        ChunkStep::Emit(block) => ChunkStepView::Emit {
            part_number: block.part_number as int,
            payload: block.payload@,
        },
        ChunkStep::EndOfStream => ChunkStepView::EndOfStream,
        ChunkStep::TooManyParts => ChunkStepView::TooManyParts,
    }
}

/// The states that a chunker can be in.
pub open spec fn chunker_wf(c: ChunkerView) -> bool {
    &&& c.block_size > 0
    &&& c.emitted <= i32::MAX
    &&& c.pending.len() < c.block_size
    &&& c.overflowed ==> c.finished
    &&& c.finished ==> c.pending.len() == 0
    &&& c.finished && !c.overflowed ==> c.emitted == block_count(c.consumed.len(), c.block_size)
    &&& !c.finished ==> {
        &&& c.consumed.len() == c.emitted * c.block_size + c.pending.len()
        &&& c.pending == c.consumed.skip((c.emitted * c.block_size) as int)
    }
}

/// Hands out the pending bytes as the next block, if a number is left for it.
pub open spec fn emitted_pending(c: ChunkerView) -> (ChunkerView, ChunkStepView) {
    if c.emitted >= i32::MAX {
        (
            ChunkerView { pending: Seq::empty(), finished: true, overflowed: true, ..c },
            ChunkStepView::TooManyParts,
        )
    } else {
        (
            ChunkerView { pending: Seq::empty(), emitted: c.emitted + 1, ..c },
            ChunkStepView::Emit { part_number: (c.emitted + 1) as int, payload: c.pending },
        )
    }
}

/// The chunker after it was fed `data`, and its answer. An empty `data` is the
/// end of the input.
pub open spec fn fed(c: ChunkerView, data: Seq<u8>) -> (ChunkerView, ChunkStepView) {
    if c.finished {
        (
            c,
            if c.overflowed {
                ChunkStepView::TooManyParts
            } else {
                ChunkStepView::EndOfStream
            },
        )
    } else if data.len() == 0 {
        if c.pending.len() == 0 {
            (ChunkerView { finished: true, ..c }, ChunkStepView::EndOfStream)
        } else {
            emitted_pending(ChunkerView { finished: true, ..c })
        }
    } else {
        let grown = ChunkerView { pending: c.pending + data, consumed: c.consumed + data, ..c };
        if grown.pending.len() >= c.block_size {
            emitted_pending(grown)
        } else {
            (grown, ChunkStepView::NeedMore)
        }
    }
}

/// Whether `data` is something that a read into the rest of the block can
/// have returned.
pub open spec fn fits(c: ChunkerView, data: Seq<u8>) -> bool {
    c.pending.len() + data.len() <= c.block_size
}

/// One call of `feed` keeps the chunker in order, adds what was read to what
/// was consumed, and hands out nothing but the next block of the input under
/// the next number. Once the input has ended, the number of blocks handed out
/// is the number of blocks of the input.
pub proof fn lemma_fed(c: ChunkerView, data: Seq<u8>)
    requires
        chunker_wf(c),
        fits(c, data),
    ensures
        chunker_wf(fed(c, data).0),
        fed(c, data).0.block_size == c.block_size,
        fed(c, data).0.consumed == if c.finished {
            c.consumed
        } else {
            c.consumed + data
        },
        match fed(c, data).1 {
            ChunkStepView::Emit { part_number, payload } => {
                &&& part_number == c.emitted + 1
                &&& fed(c, data).0.emitted == c.emitted + 1
                &&& payload.len() > 0
                &&& payload == block_at(fed(c, data).0.consumed, c.block_size, c.emitted)
            },
            _ => fed(c, data).0.emitted == c.emitted,
        },
{
    let b = c.block_size;
    let e = c.emitted;
    let next = fed(c, data).0;
    if !c.finished {
        let len = next.consumed.len();
        assert((e + 1) * b == e * b + b) by (nonlinear_arith);
        if data.len() == 0 {
            assert(next.consumed =~= c.consumed);
            lemma_fundamental_div_mod_converse(len as int, b as int, e as int, c.pending.len() as int);
            if c.pending.len() > 0 && e < i32::MAX {
                assert(c.pending =~= block_at(next.consumed, b, e));
            }
        } else {
            let grown = c.pending + data;
            assert(grown =~= (c.consumed + data).skip((e * b) as int));
            if grown.len() >= b {
                if e < i32::MAX {
                    assert(grown =~= block_at(next.consumed, b, e));
                    assert(next.pending =~= next.consumed.skip(((e + 1) * b) as int));
                }
            }
        }
    }
}

/// A block that is complete in a prefix of the input is the same block in the
/// whole input.
pub proof fn lemma_block_stable(data: Seq<u8>, more: Seq<u8>, block_size: nat, index: nat)
    requires
        block_size > 0,
        (index + 1) * block_size <= data.len(),
    ensures
        block_at(data + more, block_size, index) == block_at(data, block_size, index),
{
    assert((index + 1) * block_size == index * block_size + block_size) by (nonlinear_arith);
    assert(index * block_size >= 0) by (nonlinear_arith)
        requires
            index >= 0,
            block_size > 0,
    ;
    assert(block_at(data + more, block_size, index) =~= block_at(data, block_size, index));
}

/// Every block of an input has the block size, but the last, which has what is
/// left; the lengths of the blocks add up to the length of the input.
pub proof fn lemma_block_lengths(len: nat, block_size: nat, index: nat)
    requires
        block_size > 0,
        index < block_count(len, block_size),
    ensures
        index + 1 < block_count(len, block_size) ==> block_len(len, block_size, index)
            == block_size,
        index + 1 == block_count(len, block_size) ==> block_len(len, block_size, index) == if len
            % block_size == 0 {
            block_size
        } else {
            len % block_size
        },
        0 < block_len(len, block_size, index) <= block_size,
        index * block_size + block_len(len, block_size, index) <= len,
        block_count(len, block_size) * block_size >= len,
        len > 0 ==> (block_count(len, block_size) - 1) * block_size < len,
        len == 0 <==> block_count(len, block_size) == 0,
{
    let q = len / block_size;
    let r = len % block_size;
    vstd::arithmetic::div_mod::lemma_fundamental_div_mod(len as int, block_size as int);
    assert(len == block_size * q + r);
    assert(0 <= r < block_size);
    assert((index + 1) * block_size == index * block_size + block_size) by (nonlinear_arith);
    assert(block_size * q == q * block_size) by (nonlinear_arith);
    assert((q + 1) * block_size == q * block_size + block_size) by (nonlinear_arith);
    if index + 1 <= q {
        assert((index + 1) * block_size <= q * block_size) by (nonlinear_arith)
            requires
                index + 1 <= q,
                block_size > 0,
        ;
    } else {
        assert(index * block_size >= q * block_size) by (nonlinear_arith)
            requires
                index >= q,
                block_size > 0,
        ;
    }
    if q >= 1 {
        assert((q - 1) * block_size == q * block_size - block_size) by (nonlinear_arith);
    }
}

/// Block `index` of an input has the length that `block_len` gives.
pub proof fn lemma_block_at_len(data: Seq<u8>, block_size: nat, index: nat)
    requires
        block_size > 0,
        index < block_count(data.len(), block_size),
    ensures
        block_at(data, block_size, index).len() == block_len(data.len(), block_size, index),
{
    lemma_block_lengths(data.len(), block_size, index);
    assert(index * block_size >= 0) by (nonlinear_arith)
        requires
            index >= 0,
            block_size > 0,
    ;
}

/// A chunker at the start of the input.
pub open spec fn fresh(block_size: nat) -> ChunkerView {
    ChunkerView {
        block_size,
        emitted: 0,
        pending: Seq::empty(),
        consumed: Seq::empty(),
        finished: false,
        overflowed: false,
    }
}

/// The chunker after it was fed each of `reads` in turn.
pub open spec fn fed_all(c: ChunkerView, reads: Seq<Seq<u8>>) -> ChunkerView
    decreases reads.len(),
{
    if reads.len() == 0 {
        c
    } else {
        fed(fed_all(c, reads.drop_last()), reads.last()).0
    }
}

/// The blocks that were handed out while `c` was fed each of `reads` in turn,
/// each with its number.
pub open spec fn blocks_of(c: ChunkerView, reads: Seq<Seq<u8>>) -> Seq<(int, Seq<u8>)>
    decreases reads.len(),
{
    if reads.len() == 0 {
        Seq::empty()
    } else {
        let before = blocks_of(c, reads.drop_last());
        match fed(fed_all(c, reads.drop_last()), reads.last()).1 {
            ChunkStepView::Emit { part_number, payload } => before.push((part_number, payload)),
            _ => before,
        }
    }
}

/// Whether each of `reads` is something that a read into the rest of the block
/// can have returned at its turn.
pub open spec fn admissible(c: ChunkerView, reads: Seq<Seq<u8>>) -> bool
    decreases reads.len(),
{
    reads.len() == 0 || (admissible(c, reads.drop_last()) && fits(
        fed_all(c, reads.drop_last()),
        reads.last(),
    ))
}

/// However the input arrives, in reads of whatever lengths, the blocks handed
/// out are numbered 1, 2, 3 and so on without a gap, block number `k + 1` holds
/// block `k` of what was read, and once the input has ended their number is the
/// number of blocks of the input.
pub proof fn lemma_chunking(block_size: nat, reads: Seq<Seq<u8>>)
    requires
        block_size > 0,
        admissible(fresh(block_size), reads),
    ensures
        chunker_wf(fed_all(fresh(block_size), reads)),
        fed_all(fresh(block_size), reads).block_size == block_size,
        blocks_of(fresh(block_size), reads).len() == fed_all(fresh(block_size), reads).emitted,
        forall|k: int|
            0 <= k < blocks_of(fresh(block_size), reads).len() ==> {
                &&& (#[trigger] blocks_of(fresh(block_size), reads)[k]).0 == k + 1
                &&& blocks_of(fresh(block_size), reads)[k].1 == block_at(
                    fed_all(fresh(block_size), reads).consumed,
                    block_size,
                    k as nat,
                )
            },
        fed_all(fresh(block_size), reads).finished && !fed_all(
            fresh(block_size),
            reads,
        ).overflowed ==> blocks_of(fresh(block_size), reads).len() == block_count(
            fed_all(fresh(block_size), reads).consumed.len(),
            block_size,
        ),
        forall|k: int|
            0 <= k < blocks_of(fresh(block_size), reads).len() ==> (#[trigger] blocks_of(
                fresh(block_size),
                reads,
            )[k]).1.len() == block_len(
                fed_all(fresh(block_size), reads).consumed.len(),
                block_size,
                k as nat,
            ),
    decreases reads.len(),
{
    let start = fresh(block_size);
    if reads.len() == 0 {
        assert(start.pending =~= start.consumed.skip(0));
    } else {
        let earlier = reads.drop_last();
        let data = reads.last();
        lemma_chunking(block_size, earlier);
        let prev = fed_all(start, earlier);
        let end = fed_all(start, reads);
        let before = blocks_of(start, earlier);
        let blocks = blocks_of(start, reads);
        lemma_fed(prev, data);
        assert forall|k: int| 0 <= k < blocks.len() implies (#[trigger] blocks[k]).1.len()
            == block_len(end.consumed.len(), block_size, k as nat) by {
            if k < before.len() {
                assert(blocks[k] == before[k]);
                if !prev.finished {
                    assert((k + 1) * block_size <= prev.emitted * block_size) by (nonlinear_arith)
                        requires
                            k + 1 <= prev.emitted,
                            block_size > 0,
                    ;
                }
            } else {
                assert(k * block_size >= 0) by (nonlinear_arith)
                    requires
                        k >= 0,
                        block_size > 0,
                ;
                assert((k + 1) * block_size == k * block_size + block_size) by (nonlinear_arith);
            }
        }
        assert forall|k: int| 0 <= k < blocks.len() implies {
            &&& (#[trigger] blocks[k]).0 == k + 1
            &&& blocks[k].1 == block_at(end.consumed, block_size, k as nat)
        } by {
            if k < before.len() {
                assert(blocks[k] == before[k]);
                if !prev.finished {
                    assert((k + 1) * block_size <= prev.emitted * block_size) by (nonlinear_arith)
                        requires
                            k + 1 <= prev.emitted,
                            block_size > 0,
                    ;
                    lemma_block_stable(prev.consumed, data, block_size, k as nat);
                }
            }
        }
    }
}

/// The bytes of the blocks, one block after the other.
pub open spec fn joined(blocks: Seq<(int, Seq<u8>)>) -> Seq<u8>
    decreases blocks.len(),
{
    if blocks.len() == 0 {
        Seq::empty()
    } else {
        joined(blocks.drop_last()) + blocks.last().1
    }
}

/// However the input arrives, the blocks handed out, put one after the other
/// and followed by the bytes of the block being gathered, are the bytes read,
/// as long as the part numbers last. So once the input has ended, the blocks
/// in the order of their numbers are the input, byte for byte.
pub proof fn lemma_blocks_join(block_size: nat, reads: Seq<Seq<u8>>)
    requires
        block_size > 0,
        admissible(fresh(block_size), reads),
    ensures
        !fed_all(fresh(block_size), reads).overflowed ==> joined(
            blocks_of(fresh(block_size), reads),
        ) + fed_all(fresh(block_size), reads).pending == fed_all(fresh(block_size), reads).consumed,
        fed_all(fresh(block_size), reads).finished && !fed_all(
            fresh(block_size),
            reads,
        ).overflowed ==> joined(blocks_of(fresh(block_size), reads)) == fed_all(
            fresh(block_size),
            reads,
        ).consumed,
    decreases reads.len(),
{
    let start = fresh(block_size);
    if reads.len() == 0 {
        assert(joined(blocks_of(start, reads)) + start.pending =~= start.consumed);
    } else {
        let earlier = reads.drop_last();
        let data = reads.last();
        lemma_blocks_join(block_size, earlier);
        lemma_chunking(block_size, earlier);
        let prev = fed_all(start, earlier);
        let end = fed_all(start, reads);
        let before = blocks_of(start, earlier);
        let blocks = blocks_of(start, reads);
        lemma_fed(prev, data);
        if !end.overflowed {
            match fed(prev, data).1 {
                ChunkStepView::Emit { part_number, payload } => {
                    assert(blocks.drop_last() =~= before);
                    assert(joined(blocks) == joined(before) + payload);
                    if data.len() == 0 {
                        assert(joined(before) + payload + end.pending =~= joined(before)
                            + prev.pending);
                    } else {
                        assert(joined(before) + payload + end.pending =~= (joined(before)
                            + prev.pending) + data);
                    }
                },
                _ => {
                    if !prev.finished && data.len() > 0 {
                        assert(joined(before) + (prev.pending + data) =~= (joined(before)
                            + prev.pending) + data);
                    }
                },
            }
            assert(joined(blocks) + end.pending == end.consumed);
        }
        if end.finished && !end.overflowed {
            assert(joined(blocks) + end.pending =~= joined(blocks));
        }
    }
}

/// Gathers what is read from the input into blocks.
pub struct Chunker {
    block_size: usize,
    buffer: Vec<u8>,
    emitted: u32,
    finished: bool,
    overflowed: bool,
    consumed: Ghost<Seq<u8>>,
}

impl View for Chunker {
    type V = ChunkerView;

    closed spec fn view(&self) -> ChunkerView {
        ChunkerView {
            block_size: self.block_size as nat,
            emitted: self.emitted as nat,
            pending: self.buffer@,
            consumed: self.consumed@,
            finished: self.finished,
            overflowed: self.overflowed,
        }
    }
}

impl Chunker {
    /// The chunker is in one of the states that a chunker can be in.
    pub open spec fn wf(&self) -> bool {
        chunker_wf(self@)
    }

    /// A chunker at the start of the input.
    pub fn new(block_size: usize) -> (c: Chunker)
        requires
            block_size > 0,
        ensures
            c.wf(),
            c@ == (ChunkerView {
                block_size: block_size as nat,
                emitted: 0,
                pending: Seq::empty(),
                consumed: Seq::empty(),
                finished: false,
                overflowed: false,
            }),
    {
        let c = Chunker {
            block_size,
            buffer: Vec::new(),
            emitted: 0,
            finished: false,
            overflowed: false,
            consumed: Ghost(Seq::empty()),
        };
        assert(c@.emitted * c@.block_size == 0) by (nonlinear_arith)
            requires
                c@.emitted == 0,
        ;
        assert(c@.pending =~= c@.consumed.skip(0));
        c
    }

    /// How many bytes the block being gathered still lacks: the most that the
    /// next read may return.
    pub fn wanted(&self) -> (n: usize)
        requires
            self.wf(),
        ensures
            n == self@.block_size - self@.pending.len(),
            n > 0,
    {
        self.block_size - self.buffer.len()
    }

    /// How many bytes of the next block have been gathered.
    pub fn gathered(&self) -> (n: usize)
        ensures
            n == self@.pending.len(),
    {
        self.buffer.len()
    }

    /// Whether the chunker has handed out its last block.
    pub fn finished(&self) -> (b: bool)
        ensures
            b == self@.finished,
    {
        self.finished
    }

    /// How many blocks have been handed out.
    pub fn emitted(&self) -> (n: i32)
        requires
            self.wf(),
        ensures
            n == self@.emitted,
    {
        self.emitted as i32
    }

    /// Hands out the bytes gathered as the next block.
    fn emit(&mut self) -> (step: ChunkStep)
        requires
            old(self)@.emitted <= i32::MAX,
        ensures
            final(self)@ == emitted_pending(old(self)@).0,
            step_view(step) == emitted_pending(old(self)@).1,
    {
        let mut payload: Vec<u8> = Vec::new();
        core::mem::swap(&mut self.buffer, &mut payload);
        if self.emitted >= i32::MAX as u32 {
            self.finished = true;
            self.overflowed = true;
            ChunkStep::TooManyParts
        } else {
            self.emitted = self.emitted + 1;
            ChunkStep::Emit(Block { part_number: self.emitted as i32, payload })
        }
    }

    /// Takes what one read returned; an empty `data` is the end of the input.
    /// Answers with the block that `data` has completed, if any: a block is
    /// complete when it has the block size, or when the input ends after it
    /// has begun. A read that leaves the block short is no end of the input.
    pub fn feed(&mut self, data: &[u8]) -> (step: ChunkStep)
        requires
            old(self).wf(),
            fits(old(self)@, data@),
        ensures
            final(self).wf(),
            final(self)@ == fed(old(self)@, data@).0,
            step_view(step) == fed(old(self)@, data@).1,
    {
        proof {
            lemma_fed(self@, data@);
        }
        if self.finished {
            return if self.overflowed {
                ChunkStep::TooManyParts
            } else {
                ChunkStep::EndOfStream
            };
        }
        if data.len() == 0 {
            self.finished = true;
            if self.buffer.len() == 0 {
                return ChunkStep::EndOfStream;
            }
            return self.emit();
        }
        self.buffer.extend_from_slice(data);
        self.consumed = Ghost(self.consumed@ + data@);
        assert(self.buffer@ =~= old(self).buffer@ + data@);
        if self.buffer.len() >= self.block_size {
            self.emit()
        } else {
            ChunkStep::NeedMore
        }
    }
}

} // verus!
