use std::collections::HashSet;

use batch_transcode::candidate::select_candidates;
use batch_transcode::candidate::Entry;
use batch_transcode::naming::thumbnail_output_path;
use batch_transcode::naming::transcode_output_path;
use batch_transcode::plan::plan_for;
use batch_transcode::plan::InputSpec;
use batch_transcode::plan::Step;

/// Simulates one full run over `entries` against the set of existing
/// paths, applying each planned step to the set, and returns the log
/// lines the run would print.
fn run_once(existing: &mut HashSet<String>, entries: &[Entry], cfg: &InputSpec) -> Vec<String> {
    let mut log: Vec<String> = Vec::new();
    let owned: Vec<Entry> = entries
        .iter()
        .map(|e| Entry { path: e.path.clone(), is_file: e.is_file })
        .collect();
    for path in select_candidates(&owned, &cfg.extension) {
        let thumb = thumbnail_output_path(&path);
        let out = transcode_output_path(&path);
        let thumb_exists = existing.contains(&thumb);
        let out_exists = existing.contains(&out);
        for step in plan_for(cfg, thumb_exists, out_exists) {
            match step {
                Step::LogCreatingThumbnail => log.push(format!("Creating thumbnail: {}", path)),
                Step::CreateThumbnail => {
                    existing.insert(thumb.clone());
                }
                Step::LogSkipping => log.push(format!("Skipping: {}", path)),
                Step::LogProcessing => log.push(format!("Processing: {}", path)),
                Step::Transcode => {
                    existing.insert(out.clone());
                }
                Step::DeleteSource => {
                    existing.remove(&path);
                }
            }
        }
    }
    log
}

fn entry(path: &str) -> Entry {
    Entry { path: path.to_string(), is_file: true }
}

#[test]
fn second_run_logs_every_candidate_as_skipped() {
    let entries = vec![entry("a/x.mp4"), entry("a/b/y.mp4"), entry("a/z.mkv")];
    let cfg = InputSpec {
        input: "a".to_string(),
        extension: "mp4".to_string(),
        delete: false,
        use_gpu: false,
        thumbnail: true,
    };
    let mut existing: HashSet<String> =
        entries.iter().map(|e| e.path.clone()).collect();

    let first = run_once(&mut existing, &entries, &cfg);
    assert_eq!(
        first,
        vec![
            "Creating thumbnail: a/x.mp4",
            "Processing: a/x.mp4",
            "Creating thumbnail: a/b/y.mp4",
            "Processing: a/b/y.mp4",
        ]
    );
    assert!(existing.contains("a/x.compressed.mp4"));
    assert!(existing.contains("a/x.thumbnail.jpg"));
    assert!(existing.contains("a/b/y.compressed.mp4"));
    assert!(!existing.contains("a/z.compressed.mp4"));

    let second = run_once(&mut existing, &entries, &cfg);
    assert_eq!(second, vec!["Skipping: a/x.mp4", "Skipping: a/b/y.mp4"]);
}

#[test]
fn deleting_run_leaves_no_candidate_behind() {
    let entries = vec![entry("clips/v.mp4")];
    let cfg = InputSpec {
        input: "clips".to_string(),
        extension: "mp4".to_string(),
        delete: true,
        use_gpu: false,
        thumbnail: false,
    };
    let mut existing: HashSet<String> =
        entries.iter().map(|e| e.path.clone()).collect();

    let first = run_once(&mut existing, &entries, &cfg);
    assert_eq!(first, vec!["Processing: clips/v.mp4"]);
    assert!(!existing.contains("clips/v.mp4"));
    assert!(existing.contains("clips/v.compressed.mp4"));

    // A fresh walk of the changed tree: only the output remains, and the
    // suffix rule keeps it from ever becoming a candidate itself.
    let mut remaining: Vec<Entry> = existing.iter().map(|p| entry(p)).collect();
    remaining.sort_by(|a, b| a.path.cmp(&b.path));
    let second = run_once(&mut existing, &remaining, &cfg);
    assert!(second.is_empty());
}

#[test]
fn skipped_source_survives_a_deleting_run() {
    let entries = vec![entry("v.mp4")];
    let cfg = InputSpec {
        input: ".".to_string(),
        extension: "mp4".to_string(),
        delete: true,
        use_gpu: false,
        thumbnail: false,
    };
    let mut existing: HashSet<String> = HashSet::new();
    existing.insert("v.mp4".to_string());
    existing.insert("v.compressed.mp4".to_string());

    let log = run_once(&mut existing, &entries, &cfg);
    assert_eq!(log, vec!["Skipping: v.mp4"]);
    assert!(existing.contains("v.mp4"));
}
