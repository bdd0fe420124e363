//! The reconstruction context and its three-message protocol.
//!
//! A [`WorkerContext`] owns, per component slot, an accumulating plane
//! buffer, a write cursor, and the component's descriptor and quantization
//! table.  The upstream decoder begins a component's plane, appends one MCU
//! row's worth of coefficient blocks at a time in top-to-bottom order, and
//! finally extracts the finished plane.

use std::rc::Rc;

use vstd::prelude::*;

use crate::component::{blocks_per_row, plane_len, Component, MAX_COMPONENTS};
use crate::idct::{block_write, dequantize_and_idct_block, idct_sample, in_block_rect};

verus! {

/// Everything a slot needs to start accumulating one component's plane.
pub struct RowData {
    /// The component's slot, below [`MAX_COMPONENTS`].
    pub index: usize,
    /// The component's block geometry.
    pub component: Component,
    /// The component's quantization table, shared read-only with the
    /// upstream decoder and possibly with other components.
    pub quantization_table: Rc<[u16; 64]>,
}

/// The three operations of the reconstruction protocol.
pub enum WorkerMsg {
    /// Begin a component's plane.
    Start(RowData),
    /// Append one MCU row's worth of coefficient blocks to a slot.
    AppendRow((usize, Vec<i16>)),
    /// Extract a slot's accumulated plane, leaving the carried buffer in
    /// its place.
    GetResult((usize, Vec<u8>)),
}

/// Byte `rel` of the row-stripe that one append writes: the stripe is laid
/// out row-major with stride `width * 8`, and the block holding the byte is
/// block `row / 8 * width + col / 8` of the appended coefficients.
pub open spec fn stripe_sample(data: Seq<i16>, table: Seq<u16>, width: int, rel: int) -> u8 {
    let stride = width * 8;
    let row = rel / stride;
    let col = rel % stride;
    let b = (row / 8) * width + col / 8;
    idct_sample(data.subrange(64 * b, 64 * b + 64), table, col % 8, row % 8)
}

/// The plane after one append: bytes `[off, off + data.len())` hold the
/// row-stripe's samples, every other byte is unchanged.
pub open spec fn stripe_write(
    plane: Seq<u8>,
    off: int,
    data: Seq<i16>,
    table: Seq<u16>,
    width: int,
) -> Seq<u8> {
    Seq::new(
        plane.len(),
        |j: int|
            if off <= j < off + data.len() {
                stripe_sample(data, table, width, j - off)
            } else {
                plane[j]
            },
    )
}

/// The coefficient block of an MCU row that covers byte `rel` of the
/// row-stripe: the stripe is `width * 8` samples wide, and its blocks are
/// laid out row-major in rows of `width`.
pub open spec fn stripe_block_of(rel: int, width: int) -> int {
    let stride = width * 8;
    ((rel / stride) / 8) * width + (rel % stride) / 8
}

/// The stripe byte where block `i`'s 8x8 rectangle begins.
pub open spec fn block_origin(i: int, width: int) -> int {
    (i / width) * 8 * (width * 8) + (i % width) * 8
}

/// Cell `(rr, cc)` of block `i` lies at stripe byte
/// `block_origin(i, width) + rr * stride + cc`, inside the stripe, and the
/// stripe's row-major decomposition of that byte gives back `i`, `rr` and
/// `cc`.
proof fn lemma_block_cell_position(width: int, vsf: int, i: int, rr: int, cc: int)
    requires
        1 <= width,
        0 <= vsf,
        0 <= i < width * vsf,
        0 <= rr < 8,
        0 <= cc < 8,
    ensures
        ({
            let stride = width * 8;
            let rel = block_origin(i, width) + rr * stride + cc;
            &&& 0 <= rel < 64 * (width * vsf)
            &&& rel / stride == (i / width) * 8 + rr
            &&& rel % stride == (i % width) * 8 + cc
            &&& (rel / stride) / 8 == i / width
            &&& (rel / stride) % 8 == rr
            &&& (rel % stride) / 8 == i % width
            &&& (rel % stride) % 8 == cc
            &&& stripe_block_of(rel, width) == i
        }),
{
    let stride = width * 8;
    let yb = i / width;
    let xb = i % width;
    let rel = block_origin(i, width) + rr * stride + cc;
    vstd::arithmetic::div_mod::lemma_fundamental_div_mod(i, width);
    vstd::arithmetic::div_mod::lemma_mod_bound(i, width);
    assert(0 <= yb < vsf) by (nonlinear_arith)
        requires
            i == width * yb + xb,
            0 <= xb < width,
            0 <= i < width * vsf,
            1 <= width,
    ;
    assert(rel == (yb * 8 + rr) * stride + (xb * 8 + cc)) by (nonlinear_arith)
        requires
            stride == width * 8,
            rel == yb * 8 * stride + xb * 8 + rr * stride + cc,
    ;
    assert(0 <= xb * 8 + cc < stride) by (nonlinear_arith)
        requires
            0 <= xb < width,
            0 <= cc < 8,
            stride == width * 8,
    ;
    vstd::arithmetic::div_mod::lemma_fundamental_div_mod_converse(
        rel,
        stride,
        yb * 8 + rr,
        xb * 8 + cc,
    );
    vstd::arithmetic::div_mod::lemma_fundamental_div_mod_converse(yb * 8 + rr, 8, yb, rr);
    vstd::arithmetic::div_mod::lemma_fundamental_div_mod_converse(xb * 8 + cc, 8, xb, cc);
    assert(0 <= rel < 64 * (width * vsf)) by (nonlinear_arith)
        requires
            rel == (yb * 8 + rr) * stride + (xb * 8 + cc),
            stride == width * 8,
            0 <= yb < vsf,
            0 <= rr < 8,
            0 <= xb * 8 + cc < stride,
    ;
    assert(stripe_block_of(rel, width) == yb * width + xb);
    assert(yb * width + xb == i) by (nonlinear_arith)
        requires
            i == width * yb + xb,
    ;
}

/// Every byte of the row-stripe belongs to exactly one coefficient block:
/// decomposing stripe byte `rel` row-major gives a block index inside the
/// MCU row and a cell inside that block's 8x8 rectangle, and `rel` is that
/// cell's position.
proof fn lemma_stripe_byte_block(width: int, vsf: int, rel: int)
    requires
        1 <= width,
        0 <= vsf,
        0 <= rel < 64 * (width * vsf),
    ensures
        ({
            let stride = width * 8;
            let row = rel / stride;
            let col = rel % stride;
            let b = stripe_block_of(rel, width);
            &&& 0 <= b < width * vsf
            &&& 0 <= row % 8 < 8
            &&& 0 <= col % 8 < 8
            &&& 0 <= col < stride
            &&& 0 <= row < 8 * vsf
            &&& b / width == row / 8
            &&& b % width == col / 8
            &&& rel == block_origin(b, width) + (row % 8) * stride + (col % 8)
        }),
{
    let stride = width * 8;
    let row = rel / stride;
    let col = rel % stride;
    vstd::arithmetic::div_mod::lemma_fundamental_div_mod(rel, stride);
    vstd::arithmetic::div_mod::lemma_mod_bound(rel, stride);
    assert(0 <= row < 8 * vsf) by (nonlinear_arith)
        requires
            rel == stride * row + col,
            0 <= col < stride,
            0 <= rel < 64 * (width * vsf),
            stride == width * 8,
            1 <= width,
    ;
    let yb = row / 8;
    let rr = row % 8;
    let xb = col / 8;
    let cc = col % 8;
    vstd::arithmetic::div_mod::lemma_fundamental_div_mod(row, 8);
    vstd::arithmetic::div_mod::lemma_mod_bound(row, 8);
    vstd::arithmetic::div_mod::lemma_fundamental_div_mod(col, 8);
    vstd::arithmetic::div_mod::lemma_mod_bound(col, 8);
    assert(0 <= yb < vsf) by (nonlinear_arith)
        requires
            row == 8 * yb + rr,
            0 <= rr < 8,
            0 <= row < 8 * vsf,
    ;
    assert(0 <= xb < width) by (nonlinear_arith)
        requires
            col == 8 * xb + cc,
            0 <= cc < 8,
            0 <= col < width * 8,
    ;
    let b = yb * width + xb;
    assert(0 <= b < width * vsf) by (nonlinear_arith)
        requires
            b == yb * width + xb,
            0 <= yb < vsf,
            0 <= xb < width,
    ;
    vstd::arithmetic::div_mod::lemma_fundamental_div_mod_converse(b, width, yb, xb);
    assert(rel == block_origin(b, width) + rr * stride + cc) by (nonlinear_arith)
        requires
            rel == stride * row + col,
            row == 8 * yb + rr,
            col == 8 * xb + cc,
            stride == width * 8,
            block_origin(b, width) == (b / width) * 8 * (width * 8) + (b % width) * 8,
            b / width == yb,
            b % width == xb,
    ;
}

/// The plane while an MCU row is being appended: the cells of the first
/// `n` coefficient blocks hold their samples already, every other byte is
/// unchanged.
spec fn stripe_write_partial(
    plane: Seq<u8>,
    off: int,
    data: Seq<i16>,
    table: Seq<u16>,
    width: int,
    n: int,
) -> Seq<u8> {
    Seq::new(
        plane.len(),
        |j: int|
            if off <= j < off + data.len() && stripe_block_of(j - off, width) < n {
                stripe_sample(data, table, width, j - off)
            } else {
                plane[j]
            },
    )
}

/// Owns all per-component accumulation state and executes the three
/// protocol operations.
pub struct WorkerContext {
    offsets: [usize; MAX_COMPONENTS],
    results: Vec<Vec<u8>>,
    components: Vec<Option<Component>>,
    quantization_tables: Vec<Option<Rc<[u16; 64]>>>,
}

impl WorkerContext {
    /// The slot vectors always span exactly [`MAX_COMPONENTS`] slots.
    pub closed spec fn wf(self) -> bool {
        &&& self.results@.len() == MAX_COMPONENTS
        &&& self.components@.len() == MAX_COMPONENTS
        &&& self.quantization_tables@.len() == MAX_COMPONENTS
    }

    /// Slot `i`'s write cursor: the byte offset where the next appended
    /// row-stripe begins.
    pub closed spec fn slot_offset(self, i: int) -> int {
        self.offsets@[i] as int
    }

    /// Slot `i`'s accumulating (or leftover) plane buffer.
    pub closed spec fn plane(self, i: int) -> Seq<u8> {
        self.results@[i]@
    }

    /// Slot `i`'s component descriptor, set at start.
    pub closed spec fn slot_component(self, i: int) -> Option<Component> {
        self.components@[i]
    }

    /// Slot `i`'s quantization table, set at start.
    pub closed spec fn slot_table(self, i: int) -> Option<Seq<u16>> {
        match self.quantization_tables@[i] {
            Some(t) => Some(t@),
            None => None,
        }
    }

    /// A slot that has been started holds a descriptor and a table.
    pub open spec fn started(self, i: int) -> bool {
        &&& self.slot_component(i) is Some
        &&& self.slot_table(i) is Some
    }

    /// Every row-stripe of the plane has been appended once the cursor has
    /// reached the plane's full length.
    pub open spec fn fully_covered(self, i: int) -> bool {
        &&& self.slot_component(i) is Some
        &&& self.slot_offset(i) == plane_len(self.slot_component(i)->0)
    }

    /// Creates a context with every slot empty: no descriptor, no table,
    /// an empty buffer and a cursor at zero.
    pub fn new() -> (ctx: WorkerContext)
        ensures
            ctx.wf(),
            forall|i: int| 0 <= i < MAX_COMPONENTS ==> #[trigger] ctx.slot_offset(i) == 0,
            forall|i: int| 0 <= i < MAX_COMPONENTS ==> #[trigger] ctx.plane(i).len() == 0,
            forall|i: int| 0 <= i < MAX_COMPONENTS ==> #[trigger] ctx.slot_component(i) is None,
            forall|i: int| 0 <= i < MAX_COMPONENTS ==> #[trigger] ctx.slot_table(i) is None,
    {
        let mut results: Vec<Vec<u8>> = Vec::new();
        let mut components: Vec<Option<Component>> = Vec::new();
        let mut quantization_tables: Vec<Option<Rc<[u16; 64]>>> = Vec::new();
        let mut i: usize = 0;
        while i < MAX_COMPONENTS
            invariant
                i <= MAX_COMPONENTS,
                results@.len() == i,
                components@.len() == i,
                quantization_tables@.len() == i,
                forall|k: int| 0 <= k < i ==> #[trigger] results@[k]@.len() == 0,
                forall|k: int| 0 <= k < i ==> #[trigger] components@[k] is None,
                forall|k: int| 0 <= k < i ==> #[trigger] quantization_tables@[k] is None,
            decreases MAX_COMPONENTS - i,
        {
            results.push(Vec::new());
            components.push(None);
            quantization_tables.push(None);
            i = i + 1;
        }
        WorkerContext { offsets: [0, 0, 0, 0], results, components, quantization_tables }
    }

    /// Begins slot `data.index`'s plane: resets the cursor, zero-fills the
    /// buffer to the plane's exact length, and stores the descriptor and
    /// the quantization table.
    ///
    /// A slot must be empty when it is begun: beginning a slot that still
    /// holds unextracted data is a caller defect, and the contract refuses
    /// it rather than silently corrupting the held plane.
    pub fn start(&mut self, data: RowData)
        requires
            old(self).wf(),
            data.index < MAX_COMPONENTS,
            old(self).plane(data.index as int).len() == 0,
            plane_len(data.component) <= usize::MAX,
        ensures
            final(self).wf(),
            final(self).slot_offset(data.index as int) == 0,
            final(self).plane(data.index as int).len() == plane_len(data.component),
            final(self).plane(data.index as int).len() == (data.component.block_size.width * 8) * (
            data.component.block_size.height * 8),
            forall|j: int|
                0 <= j < plane_len(data.component) ==> final(self).plane(data.index as int)[j]
                    == 0,
            final(self).slot_component(data.index as int) == Some(data.component),
            final(self).slot_table(data.index as int) == Some(data.quantization_table@),
            forall|i: int|
                0 <= i < MAX_COMPONENTS && i != data.index ==> #[trigger] final(self).slot_offset(i)
                    == old(self).slot_offset(i),
            forall|i: int|
                0 <= i < MAX_COMPONENTS && i != data.index ==> #[trigger] final(self).plane(i)
                    == old(self).plane(i),
            forall|i: int|
                0 <= i < MAX_COMPONENTS && i != data.index ==> #[trigger] final(self).slot_component(
                    i,
                ) == old(self).slot_component(i),
            forall|i: int|
                0 <= i < MAX_COMPONENTS && i != data.index ==> #[trigger] final(self).slot_table(i)
                    == old(self).slot_table(i),
    {
        let index = data.index;
        let w = data.component.block_size.width as usize;
        let h = data.component.block_size.height as usize;
        proof {
            assert((w * h) * 64 == plane_len(data.component)) by (nonlinear_arith)
                requires
                    w == data.component.block_size.width,
                    h == data.component.block_size.height,
            ;
            assert((w * h) * 64 == (data.component.block_size.width * 8) * (
            data.component.block_size.height * 8)) by (nonlinear_arith)
                requires
                    w == data.component.block_size.width,
                    h == data.component.block_size.height,
            ;
        }
        let n: usize = (w * h) * 64;
        self.offsets[index] = 0;
        let mut buf: Vec<u8> = Vec::new();
        while buf.len() < n
            invariant
                buf@.len() <= n,
                forall|j: int| 0 <= j < buf@.len() ==> buf@[j] == 0,
            decreases n - buf@.len(),
        {
            buf.push(0u8);
        }
        self.results[index] = buf;
        self.components[index] = Some(data.component);
        self.quantization_tables[index] = Some(data.quantization_table);
    }

    /// Converts one MCU row's worth of coefficient blocks to samples and
    /// accumulates them into slot `index`'s plane at the write cursor,
    /// then advances the cursor by the stripe's sample count.
    ///
    /// Block `i` of the row lands `(i % width) * 8` samples across and
    /// `(i / width) * 8` rows below the cursor.  Rows must be appended in
    /// top-to-bottom order: the cursor alone decides where a stripe lands.
    pub fn append_row(&mut self, index: usize, data: Vec<i16>)
        requires
            old(self).wf(),
            index < MAX_COMPONENTS,
            old(self).started(index as int),
            data@.len() == 64 * blocks_per_row(old(self).slot_component(index as int)->0),
            old(self).slot_offset(index as int) + data@.len() <= old(self).plane(
                index as int,
            ).len(),
        ensures
            final(self).wf(),
            final(self).slot_offset(index as int) == old(self).slot_offset(index as int)
                + data@.len(),
            final(self).plane(index as int) == stripe_write(
                old(self).plane(index as int),
                old(self).slot_offset(index as int),
                data@,
                old(self).slot_table(index as int)->0,
                old(self).slot_component(index as int)->0.block_size.width as int,
            ),
            forall|i: int|
                0 <= i < MAX_COMPONENTS ==> #[trigger] final(self).slot_component(i) == old(
                    self,
                ).slot_component(i),
            forall|i: int|
                0 <= i < MAX_COMPONENTS ==> #[trigger] final(self).slot_table(i) == old(
                    self,
                ).slot_table(i),
            forall|i: int|
                0 <= i < MAX_COMPONENTS && i != index ==> #[trigger] final(self).slot_offset(i)
                    == old(self).slot_offset(i),
            forall|i: int|
                0 <= i < MAX_COMPONENTS && i != index ==> #[trigger] final(self).plane(i) == old(
                    self,
                ).plane(i),
    {
        let copt: Option<Component> = self.components[index];
        let component: Component = copt.unwrap();
        let wb: usize = component.block_size.width as usize;
        let vsf: usize = component.vertical_sampling_factor as usize;
        proof {
            assert(wb * vsf <= 0xffff * 0xff) by (nonlinear_arith)
                requires
                    wb <= 0xffff,
                    vsf <= 0xff,
            ;
        }
        let block_count: usize = wb * vsf;
        let ls: usize = wb * 8;
        let base_off: usize = self.offsets[index];
        let dlen: usize = data.len();
        let plen: usize = self.results[index].len();
        let qt: &Rc<[u16; 64]> = self.quantization_tables[index].as_ref().unwrap();
        let table: &[u16; 64] = &**qt;
        let ghost pre_plane: Seq<u8> = self.results@[index as int]@;
        let ghost ta: Seq<u16> = table@;
        let ghost wd: int = wb as int;
        let ghost vs: int = vsf as int;
        let ghost base: int = base_off as int;
        let ghost dat: Seq<i16> = data@;
        proof {
            assert forall|j: int| 0 <= j < pre_plane.len() implies pre_plane[j]
                == stripe_write_partial(pre_plane, base, dat, ta, wd, 0)[j] by {
                if base <= j < base + dat.len() {
                    assert(0 < 64 * (wd * vs));
                    assert(1 <= wd) by (nonlinear_arith)
                        requires
                            0 < wd * vs,
                            0 <= wd,
                            0 <= vs,
                    ;
                    lemma_stripe_byte_block(wd, vs, j - base);
                }
            }
            assert(pre_plane =~= stripe_write_partial(pre_plane, base, dat, ta, wd, 0));
        }
        let mut i: usize = 0;
        while i < block_count
            invariant
                self.wf(),
                i <= block_count,
                index < MAX_COMPONENTS,
                self.offsets@ == old(self).offsets@,
                self.components@ == old(self).components@,
                self.quantization_tables@ == old(self).quantization_tables@,
                forall|k: int|
                    0 <= k < MAX_COMPONENTS && k != index ==> #[trigger] self.results@[k] == old(
                        self,
                    ).results@[k],
                self.results@[index as int]@.len() == pre_plane.len(),
                self.results@[index as int]@ == stripe_write_partial(
                    pre_plane,
                    base,
                    dat,
                    ta,
                    wd,
                    i as int,
                ),
                pre_plane == old(self).plane(index as int),
                wd == wb as int,
                vs == vsf as int,
                base == base_off as int,
                dat == data@,
                ta == table@,
                ta == old(self).slot_table(index as int)->0,
                wb == old(self).slot_component(index as int)->0.block_size.width,
                block_count == wb * vsf,
                ls == wb * 8,
                dat.len() == 64 * (wd * vs),
                dlen == dat.len(),
                base + dat.len() <= pre_plane.len(),
                plen == pre_plane.len(),
                base_off == old(self).slot_offset(index as int),
            decreases block_count - i,
        {
            proof {
                assert(1 <= wb) by (nonlinear_arith)
                    requires
                        i < wb * vsf,
                ;
                lemma_block_cell_position(wd, vs, i as int, 0, 0);
                lemma_block_cell_position(wd, vs, i as int, 7, 7);
            }
            let xb: usize = i % wb;
            let yb: usize = i / wb;
            let x8: usize = xb * 8;
            let y8: usize = yb * 8;
            proof {
                assert(y8 * ls + x8 == block_origin(i as int, wd));
                assert(block_origin(i as int, wd) + 7 * (wd * 8) + 7 < 64 * (wd * vs));
            }
            let block: &[i16] = vstd::slice::slice_subrange(data.as_slice(), i * 64, i * 64 + 64);
            let block_offset: usize = base_off + y8 * ls + x8;
            dequantize_and_idct_block(block, table, ls, block_offset, &mut self.results[index]);
            proof {
                let stride = wd * 8;
                let offi = base + block_origin(i as int, wd);
                let blk = dat.subrange(64 * (i as int), 64 * (i as int) + 64);
                let prev = stripe_write_partial(pre_plane, base, dat, ta, wd, i as int);
                let next = stripe_write_partial(pre_plane, base, dat, ta, wd, i as int + 1);
                let cur = self.results@[index as int]@;
                assert(cur == block_write(prev, blk, ta, offi, stride));
                assert forall|j: int| 0 <= j < pre_plane.len() implies cur[j] == next[j] by {
                    if in_block_rect(j, offi, stride) {
                        let d = j - offi;
                        vstd::arithmetic::div_mod::lemma_fundamental_div_mod(d, stride);
                        vstd::arithmetic::div_mod::lemma_mod_bound(d, stride);
                        let rloc = d / stride;
                        let cloc = d % stride;
                        vstd::arithmetic::mul::lemma_mul_is_commutative(stride, rloc);
                        lemma_block_cell_position(wd, vs, i as int, rloc, cloc);
                        assert(j - base == block_origin(i as int, wd) + rloc * stride + cloc);
                    } else {
                        if base <= j < base + dat.len() && stripe_block_of(j - base, wd) == i {
                            lemma_stripe_byte_block(wd, vs, j - base);
                            let rel = j - base;
                            let row = rel / stride;
                            let col = rel % stride;
                            assert(j - offi == (row % 8) * stride + (col % 8));
                            assert((row % 8) * stride >= 0) by (nonlinear_arith)
                                requires
                                    row % 8 >= 0,
                                    stride >= 0,
                            ;
                            vstd::arithmetic::div_mod::lemma_fundamental_div_mod_converse(
                                j - offi,
                                stride,
                                row % 8,
                                col % 8,
                            );
                            assert(in_block_rect(j, offi, stride));
                            assert(false);
                        }
                    }
                }
                assert(cur =~= next);
            }
            i = i + 1;
        }
        proof {
            let finished = stripe_write_partial(pre_plane, base, dat, ta, wd, block_count as int);
            let target = stripe_write(pre_plane, base, dat, ta, wd);
            assert forall|j: int| 0 <= j < pre_plane.len() implies finished[j] == target[j] by {
                if base <= j < base + dat.len() {
                    assert(0 < 64 * (wd * vs));
                    assert(1 <= wd) by (nonlinear_arith)
                        requires
                            0 < wd * vs,
                            0 <= wd,
                            0 <= vs,
                    ;
                    lemma_stripe_byte_block(wd, vs, j - base);
                }
            }
            assert(finished =~= target);
        }
        self.offsets[index] = base_off + dlen;
    }

    /// Exchanges slot `index`'s plane buffer with `result` in constant
    /// time, without copying: `result` receives the accumulated plane —
    /// complete, or partial if rows are still outstanding — and the slot
    /// keeps whatever buffer `result` carried in, typically an empty one,
    /// which also resets the slot for a subsequent start.
    pub fn get_result(&mut self, index: usize, result: &mut Vec<u8>)
        requires
            old(self).wf(),
            index < MAX_COMPONENTS,
        ensures
            final(self).wf(),
            final(result)@ == old(self).plane(index as int),
            final(self).plane(index as int) == old(result)@,
            forall|i: int|
                0 <= i < MAX_COMPONENTS ==> #[trigger] final(self).slot_offset(i) == old(
                    self,
                ).slot_offset(i),
            forall|i: int|
                0 <= i < MAX_COMPONENTS ==> #[trigger] final(self).slot_component(i) == old(
                    self,
                ).slot_component(i),
            forall|i: int|
                0 <= i < MAX_COMPONENTS ==> #[trigger] final(self).slot_table(i) == old(
                    self,
                ).slot_table(i),
            forall|i: int|
                0 <= i < MAX_COMPONENTS && i != index ==> #[trigger] final(self).plane(i) == old(
                    self,
                ).plane(i),
    {
        core::mem::swap(&mut self.results[index], result);
    }
}

/// What one successfully executed protocol operation does to the context:
/// the conjunction of the respective operation's postconditions, relating
/// the context before and after, the message, and the extracted plane if
/// any.
pub open spec fn message_effect(
    pre: WorkerContext,
    post: WorkerContext,
    message: WorkerMsg,
    out: Option<Vec<u8>>,
) -> bool {
    match message {
        WorkerMsg::Start(data) => {
            &&& out is None
            &&& post.slot_offset(data.index as int) == 0
            &&& post.plane(data.index as int).len() == plane_len(data.component)
            &&& forall|j: int|
                0 <= j < plane_len(data.component) ==> post.plane(data.index as int)[j] == 0
            &&& post.slot_component(data.index as int) == Some(data.component)
            &&& post.slot_table(data.index as int) == Some(data.quantization_table@)
            &&& forall|i: int|
                0 <= i < MAX_COMPONENTS && i != data.index ==> #[trigger] post.slot_offset(i)
                    == pre.slot_offset(i)
            &&& forall|i: int|
                0 <= i < MAX_COMPONENTS && i != data.index ==> #[trigger] post.plane(i)
                    == pre.plane(i)
            &&& forall|i: int|
                0 <= i < MAX_COMPONENTS && i != data.index ==> #[trigger] post.slot_component(i)
                    == pre.slot_component(i)
            &&& forall|i: int|
                0 <= i < MAX_COMPONENTS && i != data.index ==> #[trigger] post.slot_table(i)
                    == pre.slot_table(i)
        },
        WorkerMsg::AppendRow((index, data)) => {
            &&& out is None
            &&& post.slot_offset(index as int) == pre.slot_offset(index as int) + data@.len()
            &&& post.plane(index as int) == stripe_write(
                pre.plane(index as int),
                pre.slot_offset(index as int),
                data@,
                pre.slot_table(index as int)->0,
                pre.slot_component(index as int)->0.block_size.width as int,
            )
            &&& forall|i: int|
                0 <= i < MAX_COMPONENTS ==> #[trigger] post.slot_component(i)
                    == pre.slot_component(i)
            &&& forall|i: int|
                0 <= i < MAX_COMPONENTS ==> #[trigger] post.slot_table(i) == pre.slot_table(i)
            &&& forall|i: int|
                0 <= i < MAX_COMPONENTS && i != index ==> #[trigger] post.slot_offset(i)
                    == pre.slot_offset(i)
            &&& forall|i: int|
                0 <= i < MAX_COMPONENTS && i != index ==> #[trigger] post.plane(i) == pre.plane(i)
        },
        WorkerMsg::GetResult((index, dest)) => {
            &&& out is Some
            &&& out->0@ == pre.plane(index as int)
            &&& post.plane(index as int) == dest@
            &&& forall|i: int|
                0 <= i < MAX_COMPONENTS ==> #[trigger] post.slot_offset(i) == pre.slot_offset(i)
            &&& forall|i: int|
                0 <= i < MAX_COMPONENTS ==> #[trigger] post.slot_component(i)
                    == pre.slot_component(i)
            &&& forall|i: int|
                0 <= i < MAX_COMPONENTS ==> #[trigger] post.slot_table(i) == pre.slot_table(i)
            &&& forall|i: int|
                0 <= i < MAX_COMPONENTS && i != index ==> #[trigger] post.plane(i) == pre.plane(i)
        },
    }
}

/// The protocol precondition of one operation: what the caller owes before
/// the message may be executed.
pub open spec fn message_ok(pre: WorkerContext, message: WorkerMsg) -> bool {
    match message {
        WorkerMsg::Start(data) => {
            &&& data.index < MAX_COMPONENTS
            &&& pre.plane(data.index as int).len() == 0
            &&& plane_len(data.component) <= usize::MAX
        },
        WorkerMsg::AppendRow((index, data)) => {
            &&& index < MAX_COMPONENTS
            &&& pre.started(index as int)
            &&& data@.len() == 64 * blocks_per_row(pre.slot_component(index as int)->0)
            &&& pre.slot_offset(index as int) + data@.len() <= pre.plane(index as int).len()
        },
        WorkerMsg::GetResult((index, _dest)) => index < MAX_COMPONENTS,
    }
}

/// Why [`WorkerContext::try_process_message`] refused an operation.
#[derive(Clone, Copy, Debug, PartialEq, Eq, Structural)]
pub enum ProtocolError {
    /// The slot index is at or above [`MAX_COMPONENTS`].
    SlotOutOfRange,
    /// `Start` was sent to a slot whose buffer still holds unextracted
    /// data.
    SlotNotEmpty,
    /// The descriptor's plane length does not fit in memory.
    PlaneTooLarge,
    /// `AppendRow` was sent to a slot that holds no descriptor or table.
    SlotNotStarted,
    /// The appended coefficients are not exactly one MCU row's worth.
    WrongRowLength,
    /// The appended row-stripe would run past the end of the plane buffer.
    RowOverflowsPlane,
}

impl WorkerContext {
    /// Executes one protocol operation.  `Start` and `AppendRow` return
    /// `None`; `GetResult` returns the extracted plane, the slot keeping
    /// the buffer the message carried in exchange.
    pub fn process_message(&mut self, message: WorkerMsg) -> (out: Option<Vec<u8>>)
        requires
            old(self).wf(),
            message_ok(*old(self), message),
        ensures
            final(self).wf(),
            message_effect(*old(self), *final(self), message, out),
    {
        match message {
            WorkerMsg::Start(data) => {
                self.start(data);
                None
            },
            WorkerMsg::AppendRow((index, data)) => {
                self.append_row(index, data);
                None
            },
            WorkerMsg::GetResult((index, mut dest)) => {
                self.get_result(index, &mut dest);
                Some(dest)
            },
        }
    }

    /// The checked dispatcher: tests a message's protocol preconditions at
    /// runtime and executes it only when they hold, reporting the caller
    /// defect otherwise and leaving the context untouched.  This is the
    /// protocol's fail-fast discipline for callers whose own discipline is
    /// not verified: a double start or a mismatched row length is refused,
    /// never silently written at a wrong offset.
    pub fn try_process_message(&mut self, message: WorkerMsg) -> (out: Result<
        Option<Vec<u8>>,
        ProtocolError,
    >)
        requires
            old(self).wf(),
        ensures
            final(self).wf(),
            message_ok(*old(self), message) ==> out is Ok && message_effect(
                *old(self),
                *final(self),
                message,
                out->Ok_0,
            ),
            !message_ok(*old(self), message) ==> out is Err && *final(self) == *old(self),
            out matches Err(e) ==> match message {
                WorkerMsg::Start(data) => {
                    if data.index >= MAX_COMPONENTS {
                        e == ProtocolError::SlotOutOfRange
                    } else if old(self).plane(data.index as int).len() != 0 {
                        e == ProtocolError::SlotNotEmpty
                    } else {
                        e == ProtocolError::PlaneTooLarge
                    }
                },
                WorkerMsg::AppendRow((index, data)) => {
                    if index >= MAX_COMPONENTS {
                        e == ProtocolError::SlotOutOfRange
                    } else if !old(self).started(index as int) {
                        e == ProtocolError::SlotNotStarted
                    } else if data@.len() != 64 * blocks_per_row(
                        old(self).slot_component(index as int)->0,
                    ) {
                        e == ProtocolError::WrongRowLength
                    } else {
                        e == ProtocolError::RowOverflowsPlane
                    }
                },
                WorkerMsg::GetResult(_) => e == ProtocolError::SlotOutOfRange,
            },
    {
        match message {
            WorkerMsg::Start(data) => {
                if data.index >= MAX_COMPONENTS {
                    Err(ProtocolError::SlotOutOfRange)
                } else if self.results[data.index].len() != 0 {
                    Err(ProtocolError::SlotNotEmpty)
                } else {
                    let w: u64 = data.component.block_size.width as u64;
                    let h: u64 = data.component.block_size.height as u64;
                    proof {
                        assert(w * h <= 0xffff * 0xffff) by (nonlinear_arith)
                            requires
                                w <= 0xffff,
                                h <= 0xffff,
                        ;
                    }
                    let need: u64 = (w * h) * 64;
                    if need > usize::MAX as u64 {
                        Err(ProtocolError::PlaneTooLarge)
                    } else {
                        self.start(data);
                        Ok(None)
                    }
                }
            },
            WorkerMsg::AppendRow((index, data)) => {
                if index >= MAX_COMPONENTS {
                    Err(ProtocolError::SlotOutOfRange)
                } else if self.components[index].is_none()
                    || self.quantization_tables[index].is_none() {
                    Err(ProtocolError::SlotNotStarted)
                } else {
                    let component: Component = self.components[index].unwrap();
                    let w: u64 = component.block_size.width as u64;
                    let v: u64 = component.vertical_sampling_factor as u64;
                    proof {
                        assert(w * v <= 0xffff * 0xff) by (nonlinear_arith)
                            requires
                                w <= 0xffff,
                                v <= 0xff,
                        ;
                    }
                    let bp: u64 = w * v;
                    let expected: u64 = 64 * bp;
                    if data.len() as u64 != expected {
                        Err(ProtocolError::WrongRowLength)
                    } else {
                        let off: usize = self.offsets[index];
                        let plen: usize = self.results[index].len();
                        if off > plen || data.len() > plen - off {
                            Err(ProtocolError::RowOverflowsPlane)
                        } else {
                            self.append_row(index, data);
                            Ok(None)
                        }
                    }
                }
            },
            WorkerMsg::GetResult((index, mut dest)) => {
                if index >= MAX_COMPONENTS {
                    Err(ProtocolError::SlotOutOfRange)
                } else {
                    self.get_result(index, &mut dest);
                    Ok(Some(dest))
                }
            },
        }
    }
}

/// An append leaves every byte outside `[off, off + data.len())` of the
/// plane unchanged: in particular, a still-zero region beyond the advanced
/// cursor keeps its initial value, so a plane extracted before full
/// coverage holds zero in the uncovered tail.
pub proof fn lemma_stripe_write_frame(
    plane: Seq<u8>,
    off: int,
    data: Seq<i16>,
    table: Seq<u16>,
    width: int,
    j: int,
)
    requires
        0 <= j < plane.len(),
        !(off <= j < off + data.len()),
    ensures
        stripe_write(plane, off, data, table, width)[j] == plane[j],
{
}

/// Begin zero-fills the plane and rows arrive cursor-first, so every byte
/// at or beyond the cursor still holds its initial zero; one append keeps
/// it that way beyond the advanced cursor.  A plane extracted before full
/// coverage therefore holds zero throughout its uncovered tail.
pub proof fn lemma_uncovered_tail_stays_zero(
    plane: Seq<u8>,
    off: int,
    data: Seq<i16>,
    table: Seq<u16>,
    width: int,
)
    requires
        0 <= off,
        off + data.len() <= plane.len(),
        forall|j: int| off <= j < plane.len() ==> plane[j] == 0,
    ensures
        forall|j: int|
            off + data.len() <= j < plane.len() ==> stripe_write(plane, off, data, table, width)[j]
                == 0,
{
}

/// The bytes one append writes depend only on the coefficients, the
/// quantization table and the block-grid width — not on the slot, the
/// plane's prior contents or the cursor position: two components sharing
/// one quantization table and given identical coefficient input observe
/// identical samples at identical stripe positions.
pub proof fn lemma_append_deterministic(
    p1: Seq<u8>,
    o1: int,
    p2: Seq<u8>,
    o2: int,
    data: Seq<i16>,
    table: Seq<u16>,
    width: int,
    j1: int,
    j2: int,
)
    requires
        0 <= j1 < p1.len(),
        0 <= j2 < p2.len(),
        o1 <= j1 < o1 + data.len(),
        o2 <= j2 < o2 + data.len(),
        j1 - o1 == j2 - o2,
    ensures
        stripe_write(p1, o1, data, table, width)[j1] == stripe_write(p2, o2, data, table, width)[j2],
{
}

/// With the cursor at a whole number of stripe rows, the byte range one
/// append writes is exactly the row-stripe's rectangle: all columns of the
/// `vsf * 8` plane rows starting at row `off / stride`.
pub proof fn lemma_append_region_is_row_stripe(off: int, stride: int, vsf: int, j: int)
    requires
        8 <= stride,
        0 <= off,
        off % stride == 0,
        0 <= vsf,
        0 <= j,
    ensures
        (off <= j < off + (vsf * 8) * stride) <==> (off / stride <= j / stride < off / stride + vsf
            * 8),
{
    let q = off / stride;
    let n = vsf * 8;
    vstd::arithmetic::div_mod::lemma_fundamental_div_mod(off, stride);
    vstd::arithmetic::div_mod::lemma_fundamental_div_mod(j, stride);
    vstd::arithmetic::div_mod::lemma_mod_bound(j, stride);
    assert((off <= j < off + n * stride) <==> (q <= j / stride < q + n)) by (nonlinear_arith)
        requires
            off == stride * q + off % stride,
            off % stride == 0,
            j == stride * (j / stride) + j % stride,
            0 <= j % stride < stride,
            8 <= stride,
            0 <= n,
    ;
}

} // verus!
