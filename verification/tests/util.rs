use rsync_rs::log::LogLevel;
use rsync_rs::protocol::constants::{BLOCK_SIZE, ITEM_DELETED, ITEM_IS_NEW, ITEM_REPORT_SIZE, ITEM_REPORT_TIME, ITEM_TRANSFER, MAX_BLOCK_SIZE};
use rsync_rs::protocol::types::{FilterRule, FilterRuleList};
use rsync_rs::util::{big_num, block_len_for_file, comma_dnum, human_num, human_num_level, iflags_to_str, remainder_for_file, same_file, sum_count_for_file, HumanNum};

fn shown(h: HumanNum) -> String {
    match h {
        HumanNum::Plain(s) => s,
        HumanNum::Scaled { magnitude, base, negative } => {
            let units = ['K', 'M', 'G', 'T', 'P'];
            let mut value = magnitude as f64 / base as f64;
            let mut i = 0;
            while value >= base as f64 && i + 1 < units.len() {
                value /= base as f64;
                i += 1;
            }
            format!("{}{:.2}{}", if negative { "-" } else { "" }, value, units[i])
        }
    }
}

#[test]
fn block_len_min() {
    assert_eq!(block_len_for_file(0), BLOCK_SIZE as i32);
    assert_eq!(block_len_for_file(100), BLOCK_SIZE as i32);
    assert_eq!(block_len_for_file(7_000_000), BLOCK_SIZE as i32); // 7M/10000=700
}

#[test]
fn block_len_scales() {
    assert_eq!(block_len_for_file(100_000_000), 10_000);
}

#[test]
fn block_len_capped() {
    assert_eq!(block_len_for_file(i64::MAX), MAX_BLOCK_SIZE);
}

#[test]
fn sum_count_and_remainder() {
    let size = 1_000i64;
    let blen = 700i32;
    assert_eq!(sum_count_for_file(size, blen), 2);
    assert_eq!(remainder_for_file(size, blen), 300);
}

#[test]
fn human_num_small() {
    assert_eq!(human_num(0), "0");
    assert_eq!(human_num(999), "999");
    assert_eq!(human_num(1000), "1,000");
    assert_eq!(human_num(1023), "1,023");
}

#[test]
fn big_num_commas() {
    assert_eq!(big_num(0), "0");
    assert_eq!(big_num(1234), "1,234");
    assert_eq!(big_num(1234567), "1,234,567");
    assert_eq!(big_num(-1234), "-1,234");
    assert_eq!(big_num(100), "100");
    assert_eq!(big_num(1000000), "1,000,000");
}

#[test]
fn human_num_with_units() {
    assert_eq!(shown(human_num_level(1024, 2)), "1.00K");
    assert_eq!(shown(human_num_level(1024 * 1024, 2)), "1.00M");
}

#[test]
fn comma_dnum_format() {
    assert_eq!(comma_dnum(&format!("{:.2}", 1234.5)), "1,234.50");
    assert_eq!(comma_dnum(&format!("{:.2}", 0.5)), "0.50");
}

#[test]
fn iflags_new_regular_file() {
    let s = iflags_to_str(ITEM_IS_NEW | ITEM_TRANSFER, 0o100644, false);
    assert_eq!(s, ">f+++++++++");
}

#[test]
fn iflags_updated_size_time() {
    let s = iflags_to_str(
        ITEM_TRANSFER | ITEM_REPORT_SIZE | ITEM_REPORT_TIME,
        0o100644, false);
    assert_eq!(s, ">f.st......");
}

#[test]
fn iflags_deleted_short_form() {
    let s = iflags_to_str(ITEM_DELETED, 0o100644, false);
    assert_eq!(s, "*deleting  ");
}

#[test]
fn iflags_no_change_collapses_to_spaces() {
    let s = iflags_to_str(0, 0o100644, false);
    assert_eq!(s, ".f         ");
}

#[test]
fn iflags_sender_uses_left_arrow() {
    let s = iflags_to_str(ITEM_IS_NEW | ITEM_TRANSFER, 0o100644, true);
    assert_eq!(s, "<f+++++++++");
}

#[test]
fn iflags_directory_kind() {
    let s = iflags_to_str(ITEM_IS_NEW | ITEM_TRANSFER, 0o040755, false);
    assert_eq!(s, ">d+++++++++");
}

#[test]
fn iflags_symlink_kind_and_no_size_slot() {
    let s = iflags_to_str(
        ITEM_TRANSFER | ITEM_REPORT_SIZE | ITEM_REPORT_TIME,
        0o120777, false);
    assert_eq!(s, ">L..t......");
}

#[test]
fn a_file_is_known_by_device_and_inode() {
    assert!(same_file(1, 2, 1, 2));
    assert!(!same_file(1, 2, 1, 3));
    assert!(!same_file(1, 2, 3, 2));
}

#[test]
fn small_numbers_are_not_scaled() {
    assert_eq!(shown(human_num_level(1023, 2)), "1,023");
    assert_eq!(shown(human_num_level(999, 1)), "999");
    assert_eq!(shown(human_num_level(-1500, 1)), "-1.50K");
    assert_eq!(shown(human_num_level(i64::MIN, 0)), "-9,223,372,036,854,775,808");
}

#[test]
fn graver_levels_come_first() {
    assert!(LogLevel::Error < LogLevel::Warning);
    assert!(LogLevel::Info < LogLevel::Debug);
    assert_eq!(LogLevel::Warning.max(LogLevel::Info), LogLevel::Info);
}

#[test]
fn rule_lists_are_copied_whole() {
    let mut inner = FilterRuleList::default();
    assert!(inner.rules.is_empty() && inner.debug_type.is_empty());
    inner.rules.push(FilterRule::new("a/b".to_string(), 3));
    let mut rule = FilterRule::new("m".to_string(), 0);
    rule.mergelist = Some(Box::new(inner));
    let mut outer = FilterRuleList::new("outer".to_string());
    outer.rules.push(rule);
    let copy = outer.clone();
    assert_eq!(copy.debug_type, "outer");
    let merged = copy.rules[0].mergelist.as_ref().unwrap();
    assert_eq!((merged.rules[0].pattern.as_str(), merged.rules[0].slash_cnt), ("a/b", 1));
}
