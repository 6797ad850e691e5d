use obsidian_vault_grouper::naming::{
    first_pack_num, is_pack_name, manifest_name, pack_file_name, pack_index, pack_jobs,
    pack_prefix,
};
use obsidian_vault_grouper::{
    clean_existing_pack_outputs, find_highest_pack_index, PackOptions, PackPlan,
};
use std::path::Path;

fn options(resume: bool) -> PackOptions<'static> {
    PackOptions {
        vault_name: "vault",
        out_dir: Path::new("out"),
        resume,
        write_manifest: true,
        available_bytes: 1000,
        quiet: true,
    }
}

fn owned(names: &[&str]) -> Vec<String> {
    names.iter().map(|n| n.to_string()).collect()
}

#[test]
fn names_are_made_from_the_vault_name() {
    assert_eq!(pack_prefix("vault"), "vault_pack_");
    assert_eq!(manifest_name("vault"), "vault_manifest.md");
    assert_eq!(pack_file_name("vault_pack_", 7), "vault_pack_0007.md");
    assert_eq!(pack_file_name("vault_pack_", 0), "vault_pack_0000.md");
    assert_eq!(pack_file_name("vault_pack_", 12345), "vault_pack_12345.md");
}

#[test]
fn names_show_numbers() {
    let p = "vault_pack_";
    assert_eq!(pack_index("vault_pack_0012.md", p), Some(12));
    assert_eq!(pack_index("vault_pack_+5.md", p), Some(5));
    assert_eq!(pack_index("vault_pack_18446744073709551615.md", p), Some(usize::MAX));
    assert_eq!(pack_index("vault_pack_18446744073709551616.md", p), None);
    assert_eq!(pack_index("vault_pack_.md", p), None);
    assert_eq!(pack_index("vault_pack_+.md", p), None);
    assert_eq!(pack_index("vault_pack_++1.md", p), None);
    assert_eq!(pack_index("vault_pack_-1.md", p), None);
    assert_eq!(pack_index("vault_pack_1a.md", p), None);
    assert_eq!(pack_index("vault_pack_\u{663}.md", p), None);
    assert_eq!(pack_index("vault_pack_1.txt", p), None);
    assert_eq!(pack_index("other_pack_1.md", p), None);
    assert_eq!(pack_index("", p), None);
    for num in [0, 1, 9999, 10000, usize::MAX] {
        assert_eq!(pack_index(&pack_file_name(p, num), p), Some(num));
    }
}

#[test]
fn highest_number_is_found() {
    let names = owned(&[
        "vault_pack_0003.md",
        "vault_manifest.md",
        "vault_pack_0011.md",
        "vault_pack_notes.md",
        "other_pack_0099.md",
        "vault_pack_0004.md",
    ]);
    assert_eq!(find_highest_pack_index(&names, "vault_pack_"), 11);
    assert_eq!(find_highest_pack_index(&names, "third_pack_"), 0);
    assert_eq!(find_highest_pack_index(&[], "vault_pack_"), 0);
}

#[test]
fn resumed_runs_number_on() {
    assert_eq!(first_pack_num(&options(true), 11), 12);
    assert_eq!(first_pack_num(&options(true), 0), 1);
    assert_eq!(first_pack_num(&options(false), 11), 1);
}

#[test]
fn resumed_runs_overwrite_nothing() {
    let names = owned(&["vault_pack_0001.md", "vault_pack_0002.md"]);
    let opts = options(true);
    let first = first_pack_num(&opts, find_highest_pack_index(&names, "vault_pack_"));
    let plan = PackPlan { boundaries: vec![(0, 1), (1, 2)] };
    let written: Vec<String> =
        pack_jobs(&plan, &opts, first).into_iter().map(|j| j.file_name).collect();
    assert_eq!(written, owned(&["vault_pack_0003.md", "vault_pack_0004.md"]));
    assert!(written.iter().all(|w| !names.contains(w)));
}

#[test]
fn jobs_follow_the_plan() {
    let plan = PackPlan { boundaries: vec![(0, 3), (3, 4)] };
    let jobs = pack_jobs(&plan, &options(false), 1);
    assert_eq!(jobs.len(), 2);
    assert_eq!(
        (jobs[1].file_name.as_str(), jobs[1].pack_num, jobs[1].start, jobs[1].end),
        ("vault_pack_0002.md", 2, 3, 4)
    );
    assert_eq!((jobs[0].pack_num, jobs[0].start, jobs[0].end), (1, 0, 3));
}

#[test]
fn pack_names_begin_and_end_alike() {
    assert!(is_pack_name("vault_pack_0001.md", "vault_pack_"));
    assert!(is_pack_name("vault_pack_notes.md", "vault_pack_"));
    assert!(!is_pack_name("vault_pack_0001.txt", "vault_pack_"));
    assert!(!is_pack_name("my_vault_pack_0001.md", "vault_pack_"));
    assert!(!is_pack_name("vault_manifest.md", "vault_pack_"));
    assert!(is_pack_name("x.md", "x.md"));
}

#[test]
fn stale_outputs_are_told_apart() {
    let names = owned(&[
        "vault_pack_0002.md",
        ".vault_grouper.lock",
        "vault_manifest.md",
        "notes.md",
        "vault_pack_old.md",
        "my_vault_manifest.md",
        "vault_pack_0001.txt",
    ]);
    assert_eq!(
        clean_existing_pack_outputs(&names, "vault_pack_", "vault_manifest.md"),
        owned(&["vault_pack_0002.md", "vault_manifest.md", "vault_pack_old.md"])
    );
}

#[test]
fn what_a_run_writes_is_stale_to_the_next() {
    let plan = PackPlan { boundaries: vec![(0, 1), (1, 2)] };
    let mut names: Vec<String> =
        pack_jobs(&plan, &options(false), 1).into_iter().map(|j| j.file_name).collect();
    names.push(manifest_name("vault"));
    let stale = clean_existing_pack_outputs(&names, &pack_prefix("vault"), &manifest_name("vault"));
    assert_eq!(stale, names);
}
