use obsidian_vault_grouper::document::render_pack;
use obsidian_vault_grouper::naming::pack_jobs;
use obsidian_vault_grouper::plan::pack_estimate;
use obsidian_vault_grouper::timestamp::MIN_SECOND;
use obsidian_vault_grouper::{format_unix_timestamp, plan_packs, MdFile, PackOptions};
use std::path::{Path, PathBuf};

fn file(rel: &str, size: u64) -> MdFile {
    MdFile { abs: PathBuf::new(), rel_unix: rel.to_string(), size, mtime: MIN_SECOND }
}

fn options(vault_name: &str) -> PackOptions<'_> {
    PackOptions {
        vault_name,
        out_dir: Path::new("out"),
        resume: false,
        write_manifest: true,
        available_bytes: 1100,
        quiet: true,
    }
}

fn contents_of(files: &[MdFile]) -> Vec<Option<Vec<u8>>> {
    files.iter().map(|f| Some(vec![b'x'; f.size as usize])).collect()
}

#[test]
fn longest_names_stay_within_the_estimate() {
    let vault_name = "v".repeat(402);
    let opts = options(&vault_name);
    let files = vec![file(&"p".repeat(90), 10), file(&"\u{e9}".repeat(45), 0)];
    let plan = plan_packs(&files, u64::MAX);
    let jobs = pack_jobs(&plan, &opts, usize::MAX);
    let generation = format_unix_timestamp(MIN_SECOND);
    let document = render_pack(&opts, &jobs[0], &generation, &files, &contents_of(&files));
    let estimate = pack_estimate(&files, 0, 2);
    assert_eq!(estimate, 512 + 266 + 256);
    assert!(document.len() as u64 <= estimate);
    assert_eq!(document.len() as u64, estimate - 2);
}

#[test]
fn documents_stay_within_the_capacity() {
    let opts = options("vault");
    let files: Vec<MdFile> = [40, 300, 5, 0, 7, 900, 60].iter().map(|&s| file("n/f.md", s)).collect();
    let plan = plan_packs(&files, opts.available_bytes);
    let generation = format_unix_timestamp(0);
    for job in pack_jobs(&plan, &opts, 1) {
        let contents = contents_of(&files[job.start..job.end]);
        let document = render_pack(&opts, &job, &generation, &files, &contents);
        assert!(document.len() as u64 <= 1100 || job.end - job.start == 1);
    }
}
