use openvaf::entities::{Block, Inst};
use openvaf::layout::Layout;

/// Blocks b0, b1, b2 in order; b0 holds i0 i1 i2, b1 holds i3.
fn sample() -> Layout {
    let mut l = Layout::new();
    let b0 = l.append_new_block();
    let b1 = l.append_new_block();
    let b2 = l.append_new_block();
    l.append_inst_to_block(Inst(0), b0);
    l.append_inst_to_block(Inst(1), b0);
    l.append_inst_to_block(Inst(2), b0);
    l.append_inst_to_block(Inst(3), b1);
    assert_eq!(b2, Block(2));
    l
}

#[test]
fn blocks_and_insts() {
    let l = sample();
    assert_eq!(l.num_blocks(), 3);
    assert_eq!(l.blocks(), vec![Block(0), Block(1), Block(2)]);
    assert_eq!(l.entry_block(), Some(Block(0)));
    assert_eq!(l.last_block(), Some(Block(2)));
    assert_eq!(l.next_block(Block(0)), Some(Block(1)));
    assert_eq!(l.prev_block(Block(0)), None);
    assert_eq!(l.block_insts(Block(0)), vec![Inst(0), Inst(1), Inst(2)]);
    assert_eq!(l.first_inst(Block(0)), Some(Inst(0)));
    assert_eq!(l.last_inst(Block(0)), Some(Inst(2)));
    assert_eq!(l.block_terminator(Block(1)), Some(Inst(3)));
    assert_eq!(l.block_terminator(Block(2)), None);
    assert_eq!(l.inst_block(Inst(3)), Some(Block(1)));
    assert_eq!(l.inst_block(Inst(9)), None);
    assert_eq!(l.next_inst(Inst(0)), Some(Inst(1)));
    assert_eq!(l.prev_inst(Inst(0)), None);
    assert!(l.is_block_inserted(Block(2)));
}

#[test]
fn insert_and_remove_insts() {
    let mut l = sample();
    l.prepend_inst(Inst(4), Inst(1));
    assert_eq!(l.block_insts(Block(0)), vec![Inst(0), Inst(4), Inst(1), Inst(2)]);
    l.append_inst(Inst(5), Inst(2));
    assert_eq!(l.block_insts(Block(0)), vec![Inst(0), Inst(4), Inst(1), Inst(2), Inst(5)]);
    l.remove_inst(Inst(1));
    assert_eq!(l.block_insts(Block(0)), vec![Inst(0), Inst(4), Inst(2), Inst(5)]);
    assert_eq!(l.inst_block(Inst(1)), None);
    // an instruction appended and removed again leaves the block as it was
    let before = l.block_insts(Block(1));
    l.append_inst_to_block(Inst(6), Block(1));
    l.remove_inst(Inst(6));
    assert_eq!(l.block_insts(Block(1)), before);
}

#[test]
fn insert_and_remove_blocks() {
    let mut l = sample();
    let b3 = l.make_block();
    assert!(!l.is_block_inserted(b3));
    l.insert_block(b3, Block(1));
    assert_eq!(l.blocks(), vec![Block(0), b3, Block(1), Block(2)]);
    l.remove_empty_block(b3);
    assert_eq!(l.blocks(), vec![Block(0), Block(1), Block(2)]);
    l.insert_block_after(b3, Block(2));
    assert_eq!(l.blocks(), vec![Block(0), Block(1), Block(2), b3]);
    assert_eq!(l.last_block(), Some(b3));
    l.clear_and_remove_block(Block(1));
    assert_eq!(l.blocks(), vec![Block(0), Block(2), b3]);
    assert_eq!(l.inst_block(Inst(3)), None);
}

#[test]
fn split_and_merge() {
    let mut l = sample();
    let b3 = l.make_block();
    l.split_block(b3, Inst(1));
    assert_eq!(l.blocks(), vec![Block(0), b3, Block(1), Block(2)]);
    assert_eq!(l.block_insts(Block(0)), vec![Inst(0)]);
    assert_eq!(l.block_insts(b3), vec![Inst(1), Inst(2)]);
    assert_eq!(l.inst_block(Inst(2)), Some(b3));
    // merging drops the terminator of the first block
    l.merge_blocks(Block(0), b3);
    assert_eq!(l.blocks(), vec![Block(0), Block(1), Block(2)]);
    assert_eq!(l.block_insts(Block(0)), vec![Inst(1), Inst(2)]);
}

#[test]
fn clear_block_and_layout() {
    let mut l = sample();
    l.clear_block(Block(0));
    assert!(l.block_insts(Block(0)).is_empty());
    assert_eq!(l.inst_block(Inst(0)), None);
    assert!(l.is_block_inserted(Block(0)));
    l.clear();
    assert_eq!(l.num_blocks(), 0);
    assert_eq!(l.entry_block(), None);
    l.make_blocks(4);
    assert_eq!(l.num_blocks(), 4);
    assert!(l.blocks().is_empty());
}

#[test]
fn cursors_walk_both_ends() {
    let mut layout = Layout::new();
    let b0 = layout.append_new_block();
    let b1 = layout.append_new_block();
    let b2 = layout.append_new_block();
    let mut c = layout.block_cursor();
    assert_eq!(c.next(&layout), Some(b0));
    assert_eq!(c.next_back(&layout), Some(b2));
    assert_eq!(c.next(&layout), Some(b1));
    assert_eq!(c.next(&layout), None);
    assert_eq!(c.next_back(&layout), None);
    layout.append_inst_to_block(Inst(0), b1);
    layout.append_inst_to_block(Inst(1), b1);
    layout.append_inst_to_block(Inst(2), b1);
    let mut ic = layout.block_inst_cursor(b1);
    assert_eq!(ic.next_back(&layout), Some(Inst(2)));
    assert_eq!(ic.next(&layout), Some(Inst(0)));
    assert_eq!(ic.next_back(&layout), Some(Inst(1)));
    assert_eq!(ic.next(&layout), None);
    let mut empty = layout.block_inst_cursor(b0);
    assert_eq!(empty.next(&layout), None);
}

#[test]
fn remove_the_only_block() {
    let mut l = Layout::new();
    let b = l.append_new_block();
    l.remove_empty_block(b);
    assert_eq!(l.entry_block(), None);
    assert_eq!(l.last_block(), None);
    assert!(!l.is_block_inserted(b));
    assert!(l.blocks().is_empty());
}
