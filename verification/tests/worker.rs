use std::rc::Rc;

use recon::component::{Component, Dimensions};
use recon::sync_worker::{ProtocolError, RowData, WorkerContext, WorkerMsg};

fn component(width: u16, height: u16, vsf: u8) -> Component {
    Component {
        block_size: Dimensions { width, height },
        vertical_sampling_factor: vsf,
    }
}

fn unit_table() -> Rc<[u16; 64]> {
    Rc::new([1u16; 64])
}

fn start(ctx: &mut WorkerContext, index: usize, c: Component, table: Rc<[u16; 64]>) {
    let out = ctx.process_message(WorkerMsg::Start(RowData {
        index,
        component: c,
        quantization_table: table,
    }));
    assert!(out.is_none());
}

fn append(ctx: &mut WorkerContext, index: usize, data: Vec<i16>) {
    let out = ctx.process_message(WorkerMsg::AppendRow((index, data)));
    assert!(out.is_none());
}

fn extract(ctx: &mut WorkerContext, index: usize) -> Vec<u8> {
    ctx.process_message(WorkerMsg::GetResult((index, Vec::new())))
        .expect("extract returns the plane")
}

/// One coefficient block with only the DC coefficient set.
fn dc_block(dc: i16) -> Vec<i16> {
    let mut block = vec![0i16; 64];
    block[0] = dc;
    block
}

// A DC-only block with DC coefficient d against a unit table yields the
// constant sample clamp(floor((362 * 362 * d + 524288) / 1048576) + 128):
// d = 8 gives 129, d = -8 gives 127, d = 16 gives 130, d = -16 gives 126,
// and d = 0 gives 128.

#[test]
fn begin_zero_fills_plane() {
    let mut ctx = WorkerContext::new();
    start(&mut ctx, 0, component(2, 1, 1), unit_table());
    let plane = extract(&mut ctx, 0);
    assert_eq!(plane.len(), 128);
    assert!(plane.iter().all(|&b| b == 0));
}

#[test]
fn begin_sizes_plane_to_grid() {
    let mut ctx = WorkerContext::new();
    start(&mut ctx, 1, component(3, 2, 1), unit_table());
    let plane = extract(&mut ctx, 1);
    assert_eq!(plane.len(), 3 * 8 * 2 * 8);
}

#[test]
fn two_blocks_one_row() {
    // block_grid = {width: 2, height: 1}, vertical_sampling_factor = 1:
    // block_count = 2, line_stride = 16, plane = 128 bytes.  One append of
    // 128 coefficients writes block 0 at (0, 0) and block 1 at (8, 0).
    let mut ctx = WorkerContext::new();
    start(&mut ctx, 0, component(2, 1, 1), unit_table());
    let mut data = dc_block(8);
    data.extend_from_slice(&dc_block(-8));
    append(&mut ctx, 0, data);
    let plane = extract(&mut ctx, 0);
    assert_eq!(plane.len(), 128);
    for row in 0..8 {
        for col in 0..16 {
            let expected = if col < 8 { 129 } else { 127 };
            assert_eq!(plane[row * 16 + col], expected, "row {row} col {col}");
        }
    }
    // A second extract without a new begin returns an empty buffer.
    let empty = extract(&mut ctx, 0);
    assert!(empty.is_empty());
}

#[test]
fn vertical_sampling_two_block_rows_per_append() {
    // width 1, vertical sampling factor 2: one append carries two block
    // rows, block 0 landing at rows 0..8 and block 1 at rows 8..16.
    let mut ctx = WorkerContext::new();
    start(&mut ctx, 0, component(1, 2, 2), unit_table());
    let mut data = dc_block(8);
    data.extend_from_slice(&dc_block(-8));
    append(&mut ctx, 0, data);
    let plane = extract(&mut ctx, 0);
    assert_eq!(plane.len(), 128);
    assert!(plane[..64].iter().all(|&b| b == 129));
    assert!(plane[64..].iter().all(|&b| b == 127));
}

#[test]
fn rows_accumulate_top_to_bottom() {
    // Four appends cover a 2x4-block plane top to bottom.
    let mut ctx = WorkerContext::new();
    start(&mut ctx, 2, component(2, 4, 1), unit_table());
    let dcs = [8i16, -8, 16, -16];
    let samples = [129u8, 127, 130, 126];
    for dc in dcs {
        let mut data = dc_block(dc);
        data.extend_from_slice(&dc_block(dc));
        append(&mut ctx, 2, data);
    }
    let plane = extract(&mut ctx, 2);
    assert_eq!(plane.len(), 2 * 8 * 4 * 8);
    for stripe in 0..4 {
        let bytes = &plane[stripe * 128..(stripe + 1) * 128];
        assert!(bytes.iter().all(|&b| b == samples[stripe]));
    }
}

#[test]
fn partial_coverage_leaves_tail_zero() {
    let mut ctx = WorkerContext::new();
    start(&mut ctx, 0, component(1, 2, 1), unit_table());
    append(&mut ctx, 0, dc_block(8));
    let plane = extract(&mut ctx, 0);
    assert_eq!(plane.len(), 128);
    assert!(plane[..64].iter().all(|&b| b == 129));
    assert!(plane[64..].iter().all(|&b| b == 0));
}

#[test]
fn extract_is_a_true_swap() {
    let mut ctx = WorkerContext::new();
    start(&mut ctx, 0, component(1, 1, 1), unit_table());
    append(&mut ctx, 0, dc_block(8));
    let mut dest = vec![7u8, 7, 7];
    ctx.get_result(0, &mut dest);
    assert_eq!(dest.len(), 64);
    assert!(dest.iter().all(|&b| b == 129));
    // The slot now holds the buffer that was handed in.
    let leftover = extract(&mut ctx, 0);
    assert_eq!(leftover, vec![7u8, 7, 7]);
}

#[test]
fn shared_table_gives_identical_results() {
    // Two components share one quantization table; identical coefficient
    // input yields identical planes.
    let table = Rc::new([3u16; 64]);
    let mut ctx = WorkerContext::new();
    start(&mut ctx, 0, component(2, 1, 1), Rc::clone(&table));
    start(&mut ctx, 1, component(2, 1, 1), Rc::clone(&table));
    let mut data = dc_block(5);
    data.extend_from_slice(&dc_block(-5));
    append(&mut ctx, 0, data.clone());
    append(&mut ctx, 1, data);
    let plane0 = extract(&mut ctx, 0);
    let plane1 = extract(&mut ctx, 1);
    assert_eq!(plane0, plane1);
}

#[test]
fn quantization_table_scales_coefficients() {
    // DC 4 against a table whose DC step is 2 equals DC 8 against a unit
    // table.
    let mut table = [1u16; 64];
    table[0] = 2;
    let mut ctx = WorkerContext::new();
    start(&mut ctx, 0, component(1, 1, 1), Rc::new(table));
    append(&mut ctx, 0, dc_block(4));
    let plane = extract(&mut ctx, 0);
    assert!(plane.iter().all(|&b| b == 129));
}

#[test]
fn first_ac_coefficient_shapes_row() {
    // A single horizontal-frequency coefficient gives each row the same
    // cosine-shaped profile.
    let mut ctx = WorkerContext::new();
    start(&mut ctx, 0, component(1, 1, 1), unit_table());
    let mut data = vec![0i16; 64];
    data[1] = 100;
    append(&mut ctx, 0, data);
    let plane = extract(&mut ctx, 0);
    let expected = [145u8, 143, 138, 131, 125, 118, 113, 111];
    for row in 0..8 {
        assert_eq!(&plane[row * 8..row * 8 + 8], &expected, "row {row}");
    }
}

#[test]
fn slots_are_independent() {
    let mut ctx = WorkerContext::new();
    start(&mut ctx, 0, component(1, 1, 1), unit_table());
    start(&mut ctx, 3, component(1, 1, 1), unit_table());
    append(&mut ctx, 0, dc_block(8));
    append(&mut ctx, 3, dc_block(-8));
    let plane3 = extract(&mut ctx, 3);
    let plane0 = extract(&mut ctx, 0);
    assert!(plane0.iter().all(|&b| b == 129));
    assert!(plane3.iter().all(|&b| b == 127));
}

#[test]
fn double_begin_is_refused() {
    let mut ctx = WorkerContext::new();
    start(&mut ctx, 0, component(2, 1, 1), unit_table());
    let second = ctx.try_process_message(WorkerMsg::Start(RowData {
        index: 0,
        component: component(2, 1, 1),
        quantization_table: unit_table(),
    }));
    assert_eq!(second, Err(ProtocolError::SlotNotEmpty));
    // The slot is untouched: its plane still has the begun length.
    let plane = extract(&mut ctx, 0);
    assert_eq!(plane.len(), 128);
    assert!(plane.iter().all(|&b| b == 0));
}

#[test]
fn begin_after_extract_is_accepted() {
    let mut ctx = WorkerContext::new();
    start(&mut ctx, 0, component(2, 1, 1), unit_table());
    let _ = extract(&mut ctx, 0);
    let again = ctx.try_process_message(WorkerMsg::Start(RowData {
        index: 0,
        component: component(1, 1, 1),
        quantization_table: unit_table(),
    }));
    assert_eq!(again, Ok(None));
    let plane = extract(&mut ctx, 0);
    assert_eq!(plane.len(), 64);
}

#[test]
fn slot_out_of_range_is_refused() {
    let mut ctx = WorkerContext::new();
    let out = ctx.try_process_message(WorkerMsg::GetResult((4, Vec::new())));
    assert_eq!(out, Err(ProtocolError::SlotOutOfRange));
    let out = ctx.try_process_message(WorkerMsg::AppendRow((7, dc_block(1))));
    assert_eq!(out, Err(ProtocolError::SlotOutOfRange));
}

#[test]
fn append_before_begin_is_refused() {
    let mut ctx = WorkerContext::new();
    let out = ctx.try_process_message(WorkerMsg::AppendRow((0, dc_block(1))));
    assert_eq!(out, Err(ProtocolError::SlotNotStarted));
}

#[test]
fn wrong_row_length_is_refused() {
    let mut ctx = WorkerContext::new();
    start(&mut ctx, 0, component(2, 1, 1), unit_table());
    let out = ctx.try_process_message(WorkerMsg::AppendRow((0, dc_block(1))));
    assert_eq!(out, Err(ProtocolError::WrongRowLength));
}

#[test]
fn append_past_full_coverage_is_refused() {
    let mut ctx = WorkerContext::new();
    start(&mut ctx, 0, component(2, 1, 1), unit_table());
    let mut data = dc_block(8);
    data.extend_from_slice(&dc_block(8));
    let ok = ctx.try_process_message(WorkerMsg::AppendRow((0, data.clone())));
    assert_eq!(ok, Ok(None));
    let over = ctx.try_process_message(WorkerMsg::AppendRow((0, data)));
    assert_eq!(over, Err(ProtocolError::RowOverflowsPlane));
}

#[test]
fn checked_extract_returns_plane() {
    let mut ctx = WorkerContext::new();
    start(&mut ctx, 0, component(1, 1, 1), unit_table());
    let out = ctx.try_process_message(WorkerMsg::GetResult((0, Vec::new())));
    match out {
        Ok(Some(plane)) => assert_eq!(plane.len(), 64),
        other => panic!("expected a plane, got {other:?}"),
    }
}
