use batch_transcode::encoder::encoder_program;
use batch_transcode::encoder::thumbnail_command_args;
use batch_transcode::encoder::transcode_command_args;

#[test]
fn encoder_is_invoked_by_name() {
    assert_eq!(encoder_program(), "ffmpeg");
}

#[test]
fn transcode_arguments_software_codec() {
    let args = transcode_command_args("in.mov", "in.compressed.mp4", false);
    assert_eq!(
        args,
        vec![
            "-hide_banner",
            "-i",
            "in.mov",
            "-c:v",
            "libx264",
            "-preset",
            "slow",
            "-crf",
            "24",
            "-profile:v",
            "high",
            "-c:a",
            "aac",
            "-b:a",
            "128k",
            "in.compressed.mp4",
        ]
    );
}

#[test]
fn transcode_arguments_hardware_codec() {
    let args = transcode_command_args("a/b.mp4", "a/b.compressed.mp4", true);
    assert_eq!(args[4], "h264_nvenc");
    assert_eq!(args.len(), 16);
    assert_eq!(args[2], "a/b.mp4");
    assert_eq!(args[15], "a/b.compressed.mp4");
}

#[test]
fn thumbnail_arguments() {
    let args = thumbnail_command_args("clip.mov", "clip.thumbnail.jpg");
    assert_eq!(
        args,
        vec![
            "-i",
            "clip.mov",
            "-vf",
            "thumbnail,scale=1280:720",
            "-frames:v",
            "1",
            "clip.thumbnail.jpg",
        ]
    );
}
