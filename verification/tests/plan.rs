use obsidian_vault_grouper::plan::{
    oversize_warning, oversize_warnings, pack_estimate, plan_within_capacity,
};
use obsidian_vault_grouper::{
    plan_packs, MdFile, PackPlan, PACK_BASE_OVERHEAD, PER_FILE_OVERHEAD,
};
use std::path::PathBuf;

fn sized(rel: &str, size: u64) -> MdFile {
    MdFile { abs: PathBuf::from(rel), rel_unix: rel.to_string(), size, mtime: 0 }
}

fn of_sizes(sizes: &[u64]) -> Vec<MdFile> {
    sizes.iter().map(|&s| sized("f.md", s)).collect()
}

#[test]
fn overheads() {
    assert_eq!(PER_FILE_OVERHEAD, 256);
    assert_eq!(PACK_BASE_OVERHEAD, 512);
}

#[test]
fn no_files_need_no_packs() {
    assert!(plan_packs(&[], 1000).boundaries.is_empty());
}

#[test]
fn packs_are_filled_in_order() {
    let files = of_sizes(&[500, 476, 1, 1233, 0]);
    assert_eq!(plan_packs(&files, 2000).boundaries, vec![(0, 2), (2, 3), (3, 4), (4, 5)]);
}

#[test]
fn a_file_that_fills_the_capacity_exactly_is_not_oversized() {
    let files = of_sizes(&[1232, 0]);
    assert_eq!(plan_packs(&files, 2000).boundaries, vec![(0, 1), (1, 2)]);
    assert!(oversize_warnings(&files, 2000, false).is_empty());
}

#[test]
fn oversized_files_stand_alone() {
    let files = of_sizes(&[0, 5000, 6000, 0, 0]);
    assert_eq!(plan_packs(&files, 2000).boundaries, vec![(0, 1), (1, 2), (2, 3), (3, 5)]);
}

#[test]
fn without_capacity_every_file_stands_alone() {
    let files = of_sizes(&[0, 0, 0]);
    assert_eq!(plan_packs(&files, 0).boundaries, vec![(0, 1), (1, 2), (2, 3)]);
}

#[test]
fn sizes_saturate() {
    let files = of_sizes(&[u64::MAX, u64::MAX, 1]);
    assert_eq!(plan_packs(&files, u64::MAX).boundaries, vec![(0, 3)]);
    assert_eq!(plan_packs(&files, u64::MAX - 1).boundaries, vec![(0, 1), (1, 2), (2, 3)]);
    assert_eq!(pack_estimate(&files, 0, 3), u64::MAX);
}

#[test]
fn every_file_is_in_one_pack() {
    let files = of_sizes(&[900, 10, 3000, 7, 7, 7, 1200, 0]);
    let plan = plan_packs(&files, 2000);
    let mut next = 0;
    for &(start, end) in &plan.boundaries {
        assert_eq!(start, next);
        assert!(start < end);
        next = end;
    }
    assert_eq!(next, files.len());
    assert!(plan_within_capacity(&files, &plan, 2000));
}

#[test]
fn no_plan_has_fewer_packs() {
    let files = of_sizes(&[500, 476, 1, 475]);
    let plan = plan_packs(&files, 2000);
    assert_eq!(plan.boundaries, vec![(0, 2), (2, 4)]);
    let other = PackPlan { boundaries: vec![(0, 1), (1, 3), (3, 4)] };
    assert!(plan_within_capacity(&files, &other, 2000));
    assert!(plan.boundaries.len() <= other.boundaries.len());
}

#[test]
fn estimates_add_up() {
    let files = of_sizes(&[500, 476, 1]);
    assert_eq!(pack_estimate(&files, 0, 2), 2000);
    assert_eq!(pack_estimate(&files, 0, 3), 2257);
    assert_eq!(pack_estimate(&files, 1, 1), 512);
}

#[test]
fn plans_are_held_to_the_capacity() {
    let files = of_sizes(&[500, 476, 1, 9000]);
    let within = PackPlan { boundaries: vec![(0, 2), (2, 3), (3, 4)] };
    assert!(plan_within_capacity(&files, &within, 2000));
    let over = PackPlan { boundaries: vec![(0, 3), (3, 4)] };
    assert!(!plan_within_capacity(&files, &over, 2000));
    let empty = PackPlan { boundaries: vec![(0, 0)] };
    assert!(!plan_within_capacity(&files, &empty, 511));
    assert!(plan_within_capacity(&files, &empty, 512));
}

#[test]
fn oversized_files_are_warned_of() {
    let files = vec![sized("small.md", 1), sized("big.md", 1233), sized("huge.md", u64::MAX)];
    let warnings = oversize_warnings(&files, 2000, false);
    assert_eq!(
        warnings,
        vec![
            "Warning: File 'big.md' (2001 bytes total, including 768 bytes overhead) exceeds capacity (2000 bytes). Placed in dedicated pack.",
            "Warning: File 'huge.md' (18446744073709551615 bytes total, including 768 bytes overhead) exceeds capacity (2000 bytes). Placed in dedicated pack.",
        ]
    );
    assert_eq!(oversize_warning(&files[1], 2000), warnings[0]);
    assert!(oversize_warnings(&files, 2000, true).is_empty());
}
