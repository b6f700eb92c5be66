use tlsf_allocator::bits::{alignto, my_log2, my_lowbit};
use tlsf_allocator::block::BlockHeader;
use tlsf_allocator::page::{get_queue_id, get_segment, get_upper_size, Page, HUGE_QUEUE};
use tlsf_allocator::size_class::{get_block_begin_size, get_fl_and_sl, get_up_size};

#[test]
fn small_sizes_step_by_eight_bytes() {
    assert_eq!(get_fl_and_sl(0), (0, 0));
    assert_eq!(get_fl_and_sl(100), (0, 12));
    assert_eq!(get_fl_and_sl(255), (0, 31));
}

#[test]
fn large_sizes_split_each_power_of_two() {
    assert_eq!(get_fl_and_sl(256), (1, 0));
    assert_eq!(get_fl_and_sl(1000), (2, 30));
    assert_eq!(get_fl_and_sl(4096), (5, 0));
    assert_eq!(get_fl_and_sl(6144), (5, 16));
}

#[test]
fn class_starts_invert_the_mapping() {
    assert_eq!(get_block_begin_size(0, 12), 96);
    assert_eq!(get_block_begin_size(2, 30), 992);
    assert_eq!(get_block_begin_size(5, 16), 6144);
    assert_eq!(get_block_begin_size(28, 0), 1u64 << 35);
}

#[test]
fn rounding_up_reaches_a_class_start() {
    assert_eq!(get_up_size(992), 992);
    assert_eq!(get_up_size(1000), 1008);
    assert_eq!(get_up_size(255), 256);
    assert_eq!(get_up_size(100), 104);
}

#[test]
fn bit_helpers() {
    assert_eq!(my_lowbit(12), 4);
    assert_eq!(my_lowbit(0), 0);
    assert_eq!(my_lowbit(64), 64);
    assert_eq!(my_log2(1), 0);
    assert_eq!(my_log2(1000), 9);
    assert_eq!(my_log2(usize::MAX), 63);
    assert_eq!(alignto(13, 8), 16);
    assert_eq!(alignto(16, 8), 16);
    assert_eq!(alignto(1, 4096), 4096);
}

#[test]
fn size_word_keeps_flags_apart() {
    let mut h = BlockHeader::new(None, 64, true, false);
    assert_eq!(h.get_size(), 64);
    assert!(h.get_now_free());
    assert!(!h.get_prev_free());
    h.set_used();
    h.set_prev_free_flag(true);
    assert_eq!(h.get_size(), 64);
    assert!(!h.get_now_free());
    assert!(h.get_prev_free());
    h.set_size(128);
    assert_eq!(h.get_size(), 128);
    assert!(h.get_prev_free());
    assert!(!h.is_null());
    assert!(BlockHeader::new(None, 0, false, true).is_null());
}

#[test]
fn queue_ids() {
    assert_eq!(get_queue_id(1), 0);
    assert_eq!(get_queue_id(56), 6);
    assert_eq!(get_queue_id(64), 7);
    assert_eq!(get_queue_id(100), 9);
    assert_eq!(get_queue_id(4 * 1024 * 1024), HUGE_QUEUE);
}

#[test]
fn upper_sizes() {
    assert_eq!(get_upper_size(10), 16);
    assert_eq!(get_upper_size(64), 64);
    assert_eq!(get_upper_size(100), 112);
    assert_eq!(get_upper_size(1000), 1024);
}

#[test]
fn segment_of_an_address() {
    assert_eq!(get_segment(0x40_1234).addr, 0x40_0000);
    assert_eq!(get_segment(0x80_0000).addr, 0x80_0000);
}

#[test]
fn page_hands_out_freed_blocks_first() {
    let mut p = Page {
        block_size: 0,
        free_list: Vec::new(),
        end_addr: 0,
        capacity: 0,
        prev_page: 7,
        next_page: 9,
    };
    p.init(32, 0x1000, 0x1060);
    assert_eq!(p.prev_page, 0);
    assert_eq!(p.get_block(), 0x1000);
    assert_eq!(p.get_block(), 0x1020);
    assert!(!p.is_full());
    assert_eq!(p.get_block(), 0x1040);
    assert!(p.is_full());
    assert_eq!(p.get_block(), 0);
    p.push_front(0x1020);
    p.push_front(0x1000);
    assert!(!p.is_full());
    assert_eq!(p.get_block(), 0x1000);
    p.pop_front();
    assert!(p.is_full());
}

#[test]
fn upper_size_reaches_half_the_address_space() {
    assert_eq!(get_upper_size(usize::MAX / 2), 1usize << 63);
    assert_eq!(get_upper_size(0), 0);
}
