use batch_transcode::plan::plan_for;
use batch_transcode::plan::InputSpec;
use batch_transcode::plan::Step;

fn cfg(delete: bool, thumbnail: bool) -> InputSpec {
    InputSpec {
        input: "videos".to_string(),
        extension: "mp4".to_string(),
        delete,
        use_gpu: false,
        thumbnail,
    }
}

#[test]
fn fresh_transcode_without_delete() {
    let steps = plan_for(&cfg(false, false), false, false);
    assert_eq!(steps, vec![Step::LogProcessing, Step::Transcode]);
}

#[test]
fn fresh_transcode_with_delete_removes_source_after_encoder() {
    let steps = plan_for(&cfg(true, false), false, false);
    assert_eq!(steps, vec![Step::LogProcessing, Step::Transcode, Step::DeleteSource]);
    let transcode_at = steps.iter().position(|s| *s == Step::Transcode).unwrap();
    let delete_at = steps.iter().position(|s| *s == Step::DeleteSource).unwrap();
    assert!(transcode_at < delete_at);
}

#[test]
fn existing_output_is_skipped_and_source_kept_even_with_delete() {
    let steps = plan_for(&cfg(true, false), false, true);
    assert_eq!(steps, vec![Step::LogSkipping]);
    assert!(!steps.contains(&Step::DeleteSource));
    assert!(!steps.contains(&Step::Transcode));
}

#[test]
fn missing_thumbnail_is_created_first() {
    let steps = plan_for(&cfg(false, true), false, false);
    assert_eq!(
        steps,
        vec![
            Step::LogCreatingThumbnail,
            Step::CreateThumbnail,
            Step::LogProcessing,
            Step::Transcode
        ]
    );
}

#[test]
fn existing_thumbnail_is_left_alone() {
    let steps = plan_for(&cfg(false, true), true, false);
    assert_eq!(steps, vec![Step::LogProcessing, Step::Transcode]);
}

#[test]
fn thumbnail_is_still_created_on_the_skip_path() {
    let steps = plan_for(&cfg(true, true), false, true);
    assert_eq!(
        steps,
        vec![Step::LogCreatingThumbnail, Step::CreateThumbnail, Step::LogSkipping]
    );
    assert!(!steps.contains(&Step::DeleteSource));
}

#[test]
fn second_visit_plans_only_the_skip() {
    // First visit: fresh transcode with thumbnail and delete. Afterwards
    // both derived outputs exist, so a second visit is a bare skip.
    let first = plan_for(&cfg(true, true), false, false);
    assert!(first.contains(&Step::CreateThumbnail));
    assert!(first.contains(&Step::Transcode));
    let second = plan_for(&cfg(true, true), true, true);
    assert_eq!(second, vec![Step::LogSkipping]);
}

#[test]
fn the_default_filter_is_mp4() {
    assert_eq!(batch_transcode::plan::default_extension(), "mp4");
}
