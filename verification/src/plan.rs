//! Per-candidate skip/process decision. For one candidate the tool takes a
//! fixed, ordered sequence of steps: optionally create a missing thumbnail,
//! then either skip (the derived transcode output already exists) or
//! transcode and, when asked to, delete the source. The decision is a pure
//! function of the run's options and the two existence checks; the steps
//! are handed back in the order the surrounding binary must take them.

use vstd::prelude::*;
use vstd::string::StringExecFns;

use crate::candidate::lemma_output_is_no_candidate;
use crate::candidate::spec_has_output_suffix;
use crate::naming::lemma_derived_path_differs;
use crate::naming::thumbnail_path;
use crate::naming::transcode_path;

verus! {

/// The extension filter a run falls back to when none was given.
pub fn default_extension() -> (r: String)
    ensures
        r@ == "mp4"@,
{
    String::from_str("mp4")
}

/// The options one run of the tool was started with.
pub struct InputSpec {
    /// Root directory the walk starts from.
    pub input: String,
    /// Source extension filter, compared against lowercased extensions.
    pub extension: String,
    /// Remove the source file after a fresh transcode.
    pub delete: bool,
    /// Select the hardware-accelerated video codec.
    pub use_gpu: bool,
    /// Also produce a still-frame thumbnail per source.
    pub thumbnail: bool,
}

/// One step the binary takes for one candidate, in order.
#[derive(Clone, Copy, PartialEq, Eq, Structural, Debug)]
pub enum Step {
    /// Announce that a thumbnail is about to be created.
    LogCreatingThumbnail,
    /// Invoke the encoder to extract the thumbnail frame.
    CreateThumbnail,
    /// Announce that the candidate is skipped.
    LogSkipping,
    /// Announce that the candidate is about to be transcoded.
    LogProcessing,
    /// Invoke the encoder to produce the transcode output.
    Transcode,
    /// Remove the source file.
    DeleteSource,
}

/// The ordered steps for one candidate, from the run's options and the two
/// existence checks. A missing thumbnail is created first when asked for;
/// an existing transcode output makes the candidate a skip, and a skipped
/// source is never deleted; a fresh transcode is followed by the deletion
/// of the source only when deletion was requested.
pub open spec fn plan(
    thumbnail: bool,
    delete: bool,
    thumb_exists: bool,
    out_exists: bool,
) -> Seq<Step> {
    (if thumbnail && !thumb_exists {
        seq![Step::LogCreatingThumbnail, Step::CreateThumbnail]
    } else {
        Seq::empty()
    }) + (if out_exists {
        seq![Step::LogSkipping]
    } else if delete {
        seq![Step::LogProcessing, Step::Transcode, Step::DeleteSource]
    } else {
        seq![Step::LogProcessing, Step::Transcode]
    })
}

/// The ordered steps for one candidate under the options `cfg`.
pub fn plan_for(cfg: &InputSpec, thumb_exists: bool, out_exists: bool) -> (r: Vec<Step>)
    ensures
        r@ == plan(cfg.thumbnail, cfg.delete, thumb_exists, out_exists),
{
    let mut r: Vec<Step> = Vec::new();
    if cfg.thumbnail && !thumb_exists {
        r.push(Step::LogCreatingThumbnail);
        r.push(Step::CreateThumbnail);
    }
    if out_exists {
        r.push(Step::LogSkipping);
    } else {
        r.push(Step::LogProcessing);
        r.push(Step::Transcode);
        if cfg.delete {
            r.push(Step::DeleteSource);
        }
    }
    proof {
        assert(r@ =~= plan(cfg.thumbnail, cfg.delete, thumb_exists, out_exists));
    }
    r
}

/// Model of the filesystem as the set of existing paths: the effect of one
/// step taken for the candidate `source`. Creating an output makes its
/// derived path exist; deleting removes the source; logging changes
/// nothing. The encoder is taken to produce its output file; its own
/// success is never inspected by the tool.
pub open spec fn apply_step(fs: Set<Seq<char>>, source: Seq<char>, step: Step) -> Set<Seq<char>> {
    match step {
        Step::CreateThumbnail => fs.insert(thumbnail_path(source)),
        Step::Transcode => fs.insert(transcode_path(source)),
        Step::DeleteSource => fs.remove(source),
        _ => fs,
    }
}

/// The filesystem after taking `steps` for `source`, in order.
pub open spec fn apply_steps(fs: Set<Seq<char>>, source: Seq<char>, steps: Seq<Step>) -> Set<
    Seq<char>,
>
    decreases steps.len(),
{
    if steps.len() == 0 {
        fs
    } else {
        apply_steps(apply_step(fs, source, steps[0]), source, steps.drop_first())
    }
}

/// The filesystem after one full visit of the candidate `source`: the
/// steps are planned from what exists now, then taken in order.
pub open spec fn run_candidate(
    fs: Set<Seq<char>>,
    thumbnail: bool,
    delete: bool,
    source: Seq<char>,
) -> Set<Seq<char>> {
    apply_steps(
        fs,
        source,
        plan(
            thumbnail,
            delete,
            fs.contains(thumbnail_path(source)),
            fs.contains(transcode_path(source)),
        ),
    )
}

proof fn lemma_apply_steps_keeps(
    fs: Set<Seq<char>>,
    source: Seq<char>,
    steps: Seq<Step>,
    p: Seq<char>,
)
    requires
        fs.contains(p),
        p != source,
    ensures
        apply_steps(fs, source, steps).contains(p),
    decreases steps.len(),
{
    if steps.len() > 0 {
        let fs1 = apply_step(fs, source, steps[0]);
        assert(fs1.contains(p));
        lemma_apply_steps_keeps(fs1, source, steps.drop_first(), p);
    }
}

proof fn lemma_apply_steps_establishes(
    fs: Set<Seq<char>>,
    source: Seq<char>,
    steps: Seq<Step>,
    i: int,
    p: Seq<char>,
)
    requires
        0 <= i < steps.len(),
        (steps[i] == Step::Transcode && p == transcode_path(source)) || (steps[i]
            == Step::CreateThumbnail && p == thumbnail_path(source)),
        p != source,
    ensures
        apply_steps(fs, source, steps).contains(p),
    decreases steps.len(),
{
    let fs1 = apply_step(fs, source, steps[0]);
    if i == 0 {
        assert(fs1.contains(p));
        lemma_apply_steps_keeps(fs1, source, steps.drop_first(), p);
    } else {
        assert(steps.drop_first()[i - 1] == steps[i]);
        lemma_apply_steps_establishes(fs1, source, steps.drop_first(), i - 1, p);
    }
}

proof fn lemma_no_delete_keeps_source(fs: Set<Seq<char>>, source: Seq<char>, steps: Seq<Step>)
    requires
        forall|i: int| 0 <= i < steps.len() ==> steps[i] != Step::DeleteSource,
        transcode_path(source) != source,
        thumbnail_path(source) != source,
    ensures
        apply_steps(fs, source, steps).contains(source) == fs.contains(source),
    decreases steps.len(),
{
    if steps.len() > 0 {
        let fs1 = apply_step(fs, source, steps[0]);
        assert(fs1.contains(source) == fs.contains(source));
        assert(forall|i: int|
            0 <= i < steps.drop_first().len() ==> steps.drop_first()[i] != Step::DeleteSource);
        lemma_no_delete_keeps_source(fs1, source, steps.drop_first());
    }
}

/// Neither derived output path ever equals the source path itself.
pub proof fn lemma_outputs_differ_from_source(source: Seq<char>)
    ensures
        transcode_path(source) != source,
        thumbnail_path(source) != source,
{
    reveal_strlit(".compressed.mp4");
    reveal_strlit(".thumbnail.jpg");
    assert(".compressed.mp4"@[11] == '.');
    assert(exists|i: int|
        1 <= i < ".compressed.mp4"@.len() && ".compressed.mp4"@[i] == '.') by {
        assert(".compressed.mp4"@[11] == '.');
    }
    lemma_derived_path_differs(source, ".compressed.mp4"@);
    assert(".thumbnail.jpg"@[10] == '.');
    assert(exists|i: int| 1 <= i < ".thumbnail.jpg"@.len() && ".thumbnail.jpg"@[i] == '.') by {
        assert(".thumbnail.jpg"@[10] == '.');
    }
    lemma_derived_path_differs(source, ".thumbnail.jpg"@);
}

/// When the derived transcode output already exists, the visit neither
/// transcodes nor deletes: the plan holds no such step, and the source is
/// exactly as present afterwards as before.
pub proof fn lemma_skip_leaves_source(
    fs: Set<Seq<char>>,
    thumbnail: bool,
    delete: bool,
    source: Seq<char>,
)
    requires
        fs.contains(transcode_path(source)),
    ensures
        forall|i: int|
            0 <= i < plan(
                thumbnail,
                delete,
                fs.contains(thumbnail_path(source)),
                true,
            ).len() ==> plan(thumbnail, delete, fs.contains(thumbnail_path(source)), true)[i]
                != Step::DeleteSource && plan(
                thumbnail,
                delete,
                fs.contains(thumbnail_path(source)),
                true,
            )[i] != Step::Transcode,
        run_candidate(fs, thumbnail, delete, source).contains(source) == fs.contains(source),
{
    lemma_outputs_differ_from_source(source);
    let te = fs.contains(thumbnail_path(source));
    let steps = plan(thumbnail, delete, te, true);
    lemma_no_delete_keeps_source(fs, source, steps);
}

/// A source file is deleted only after the encoder invocation for it has
/// returned: wherever the plan holds a deletion, a transcode step stands
/// strictly before it.
pub proof fn lemma_delete_only_after_transcode(
    thumbnail: bool,
    delete: bool,
    thumb_exists: bool,
    out_exists: bool,
)
    ensures
        forall|i: int|
            0 <= i < plan(thumbnail, delete, thumb_exists, out_exists).len() && plan(
                thumbnail,
                delete,
                thumb_exists,
                out_exists,
            )[i] == Step::DeleteSource ==> exists|j: int|
                0 <= j < i && plan(thumbnail, delete, thumb_exists, out_exists)[j]
                    == Step::Transcode,
{
    let steps = plan(thumbnail, delete, thumb_exists, out_exists);
    assert forall|i: int|
        0 <= i < steps.len() && steps[i] == Step::DeleteSource implies exists|j: int|
        0 <= j < i && steps[j] == Step::Transcode by {
        let plen: int = if thumbnail && !thumb_exists {
            2
        } else {
            0
        };
        assert(!out_exists && delete);
        assert(i == plen + 2);
        assert(steps[plen + 1] == Step::Transcode);
    }
}

/// One visit of a candidate leaves its derived transcode output existing:
/// either it already existed, or the visit just produced it, and nothing
/// later in the visit takes it away again.
pub proof fn lemma_visit_establishes_output(
    fs: Set<Seq<char>>,
    thumbnail: bool,
    delete: bool,
    source: Seq<char>,
)
    ensures
        run_candidate(fs, thumbnail, delete, source).contains(transcode_path(source)),
{
    lemma_outputs_differ_from_source(source);
    let tpath = transcode_path(source);
    let te = fs.contains(thumbnail_path(source));
    let oe = fs.contains(tpath);
    let steps = plan(thumbnail, delete, te, oe);
    if oe {
        lemma_apply_steps_keeps(fs, source, steps, tpath);
    } else {
        let ti: int = if thumbnail && !te {
            3
        } else {
            1
        };
        assert(steps[ti] == Step::Transcode);
        lemma_apply_steps_establishes(fs, source, steps, ti, tpath);
    }
}

/// Idempotence of one visit: after a candidate has been visited once, a
/// second visit plans nothing but the skip announcement — every derived
/// output it would check for already exists.
pub proof fn lemma_second_visit_skips(
    fs: Set<Seq<char>>,
    thumbnail: bool,
    delete: bool,
    source: Seq<char>,
)
    ensures
        ({
            let fs1 = run_candidate(fs, thumbnail, delete, source);
            plan(
                thumbnail,
                delete,
                fs1.contains(thumbnail_path(source)),
                fs1.contains(transcode_path(source)),
            ) == seq![Step::LogSkipping]
        }),
{
    lemma_outputs_differ_from_source(source);
    let tpath = transcode_path(source);
    let thpath = thumbnail_path(source);
    let te = fs.contains(thpath);
    let oe = fs.contains(tpath);
    let steps = plan(thumbnail, delete, te, oe);
    let fs1 = apply_steps(fs, source, steps);
    lemma_visit_establishes_output(fs, thumbnail, delete, source);
    assert(fs1.contains(tpath));
    if thumbnail {
        if te {
            lemma_apply_steps_keeps(fs, source, steps, thpath);
        } else {
            assert(steps[1] == Step::CreateThumbnail);
            lemma_apply_steps_establishes(fs, source, steps, 1, thpath);
        }
        assert(fs1.contains(thpath));
    }
    assert(plan(thumbnail, delete, fs1.contains(thpath), fs1.contains(tpath)) =~= seq![
        Step::LogSkipping,
    ]);
}

/// The filesystem after one whole run: the candidates are visited in
/// order, each visit planned from what exists at its turn.
pub open spec fn run_all(
    fs: Set<Seq<char>>,
    thumbnail: bool,
    delete: bool,
    sources: Seq<Seq<char>>,
) -> Set<Seq<char>>
    decreases sources.len(),
{
    if sources.len() == 0 {
        fs
    } else {
        run_all(run_candidate(fs, thumbnail, delete, sources[0]), thumbnail, delete, sources.drop_first())
    }
}

proof fn lemma_run_all_keeps(
    fs: Set<Seq<char>>,
    thumbnail: bool,
    delete: bool,
    sources: Seq<Seq<char>>,
    p: Seq<char>,
)
    requires
        fs.contains(p),
        forall|i: int| 0 <= i < sources.len() ==> sources[i] != p,
    ensures
        run_all(fs, thumbnail, delete, sources).contains(p),
    decreases sources.len(),
{
    if sources.len() > 0 {
        let s0 = sources[0];
        let steps = plan(
            thumbnail,
            delete,
            fs.contains(thumbnail_path(s0)),
            fs.contains(transcode_path(s0)),
        );
        lemma_apply_steps_keeps(fs, s0, steps, p);
        let fs1 = run_candidate(fs, thumbnail, delete, s0);
        assert(forall|i: int|
            0 <= i < sources.drop_first().len() ==> sources.drop_first()[i] != p);
        lemma_run_all_keeps(fs1, thumbnail, delete, sources.drop_first(), p);
    }
}

/// After one run over candidates that do not themselves carry the
/// reserved output suffix, the derived transcode output of every one of
/// them exists: later visits never remove what an earlier visit produced,
/// because a deletion only ever removes a candidate, and no candidate is a
/// derived output.
pub proof fn lemma_run_establishes_all_outputs(
    fs: Set<Seq<char>>,
    thumbnail: bool,
    delete: bool,
    sources: Seq<Seq<char>>,
)
    requires
        forall|i: int| 0 <= i < sources.len() ==> !spec_has_output_suffix(sources[i]),
    ensures
        forall|i: int|
            0 <= i < sources.len() ==> run_all(fs, thumbnail, delete, sources).contains(
                transcode_path(sources[i]),
            ),
    decreases sources.len(),
{
    if sources.len() > 0 {
        let s0 = sources[0];
        let tp0 = transcode_path(s0);
        let fs1 = run_candidate(fs, thumbnail, delete, s0);
        let rest = sources.drop_first();
        lemma_visit_establishes_output(fs, thumbnail, delete, s0);
        lemma_output_is_no_candidate(s0, true, Seq::empty());
        assert forall|i: int| 0 <= i < rest.len() implies rest[i] != tp0 by {
            assert(rest[i] == sources[i + 1]);
        }
        lemma_run_all_keeps(fs1, thumbnail, delete, rest, tp0);
        lemma_run_establishes_all_outputs(fs1, thumbnail, delete, rest);
        assert forall|i: int|
            0 <= i < sources.len() implies run_all(fs, thumbnail, delete, sources).contains(
            transcode_path(sources[i]),
        ) by {
            if i > 0 {
                assert(rest[i - 1] == sources[i]);
            }
        }
    }
}

/// Idempotence of a whole run: visit the same candidates once more, and at
/// every one of them the derived transcode output already exists, so every
/// visit of the second run ends in the skip announcement and holds neither
/// a transcode nor a deletion.
pub proof fn lemma_second_run_skips_all(
    fs: Set<Seq<char>>,
    thumbnail: bool,
    delete: bool,
    sources: Seq<Seq<char>>,
)
    requires
        forall|i: int| 0 <= i < sources.len() ==> !spec_has_output_suffix(sources[i]),
    ensures
        forall|i: int| #![trigger sources[i]]
            0 <= i < sources.len() ==> ({
                let fs1 = run_all(fs, thumbnail, delete, sources);
                let fsi = run_all(fs1, thumbnail, delete, sources.take(i));
                let p = plan(
                    thumbnail,
                    delete,
                    fsi.contains(thumbnail_path(sources[i])),
                    fsi.contains(transcode_path(sources[i])),
                );
                &&& p.last() == Step::LogSkipping
                &&& !p.contains(Step::Transcode)
                &&& !p.contains(Step::DeleteSource)
            }),
{
    lemma_run_establishes_all_outputs(fs, thumbnail, delete, sources);
    let fs1 = run_all(fs, thumbnail, delete, sources);
    assert forall|i: int| #![trigger sources[i]] 0 <= i < sources.len() implies ({
        let fsi = run_all(fs1, thumbnail, delete, sources.take(i));
        let p = plan(
            thumbnail,
            delete,
            fsi.contains(thumbnail_path(sources[i])),
            fsi.contains(transcode_path(sources[i])),
        );
        &&& p.last() == Step::LogSkipping
        &&& !p.contains(Step::Transcode)
        &&& !p.contains(Step::DeleteSource)
    }) by {
        let tpi = transcode_path(sources[i]);
        lemma_output_is_no_candidate(sources[i], true, Seq::empty());
        assert forall|j: int| 0 <= j < sources.take(i).len() implies sources.take(i)[j] != tpi by {
            assert(sources.take(i)[j] == sources[j]);
        }
        lemma_run_all_keeps(fs1, thumbnail, delete, sources.take(i), tpi);
        let fsi = run_all(fs1, thumbnail, delete, sources.take(i));
        let p = plan(
            thumbnail,
            delete,
            fsi.contains(thumbnail_path(sources[i])),
            fsi.contains(transcode_path(sources[i])),
        );
        assert(p.last() == Step::LogSkipping);
        assert forall|k: int| 0 <= k < p.len() implies p[k] != Step::Transcode && p[k]
            != Step::DeleteSource by {
            if thumbnail && !fsi.contains(thumbnail_path(sources[i])) {
                assert(p =~= seq![
                    Step::LogCreatingThumbnail,
                    Step::CreateThumbnail,
                    Step::LogSkipping,
                ]);
            } else {
                assert(p =~= seq![Step::LogSkipping]);
            }
        }
    }
}

} // verus!
