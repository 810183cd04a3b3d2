//! Command-line parsing.

use image_streamer::cli::{CliError, Operation, Opts};

fn args(list: &[&str]) -> Vec<String> {
    list.iter().map(|s| s.to_string()).collect()
}

#[test]
fn test_capture_basic() {
    assert_eq!(
        Opts::from_iter(&args(&["prog", "--images-dir", "imgdir", "capture"])).unwrap(),
        Opts {
            images_dir: String::from("imgdir"),
            shard_fds: vec![],
            ext_file_fds: vec![],
            progress_fd: None,
            operation: Operation::Capture,
        }
    )
}

#[test]
fn test_extract_basic() {
    assert_eq!(
        Opts::from_iter(&args(&["prog", "-D", "imgdir", "extract"])).unwrap(),
        Opts {
            images_dir: String::from("imgdir"),
            shard_fds: vec![],
            ext_file_fds: vec![],
            progress_fd: None,
            operation: Operation::Extract { serve: false },
        }
    )
}

#[test]
fn test_extract_serve() {
    assert_eq!(
        Opts::from_iter(&args(&["prog", "-D", "imgdir", "extract", "--serve"])).unwrap(),
        Opts {
            images_dir: String::from("imgdir"),
            shard_fds: vec![],
            ext_file_fds: vec![],
            progress_fd: None,
            operation: Operation::Extract { serve: true },
        }
    )
}

#[test]
fn test_shards_fds() {
    assert_eq!(
        Opts::from_iter(&args(&["prog", "--images-dir", "imgdir", "--shard-fds", "1,2,3", "capture"]))
            .unwrap(),
        Opts {
            images_dir: String::from("imgdir"),
            shard_fds: vec![1, 2, 3],
            ext_file_fds: vec![],
            progress_fd: None,
            operation: Operation::Capture,
        }
    )
}

#[test]
fn test_ext_files() {
    assert_eq!(
        Opts::from_iter(&args(&[
            "prog",
            "--images-dir",
            "imgdir",
            "--ext-file-fds",
            "file1:1,file2:2",
            "capture"
        ]))
        .unwrap(),
        Opts {
            images_dir: String::from("imgdir"),
            shard_fds: vec![],
            ext_file_fds: vec![(String::from("file1"), 1), (String::from("file2"), 2)],
            progress_fd: None,
            operation: Operation::Capture,
        }
    )
}

#[test]
fn test_progess_fd() {
    assert_eq!(
        Opts::from_iter(&args(&["prog", "--images-dir", "imgdir", "--progress-fd", "3", "capture"]))
            .unwrap(),
        Opts {
            images_dir: String::from("imgdir"),
            shard_fds: vec![],
            ext_file_fds: vec![],
            progress_fd: Some(3),
            operation: Operation::Capture,
        }
    )
}

#[test]
fn test_missing_images_dir() {
    assert_eq!(
        Opts::from_iter(&args(&["prog", "capture"])),
        Err(CliError::MissingImagesDir)
    );
}

#[test]
fn test_missing_operation() {
    assert_eq!(
        Opts::from_iter(&args(&["prog", "--images-dir", "imgdir"])),
        Err(CliError::MissingOperation)
    );
}

#[test]
fn test_unknown_option() {
    assert_eq!(
        Opts::from_iter(&args(&["prog", "--images-dir", "imgdir", "--unknown-option", "capture"])),
        Err(CliError::UnknownArgument)
    );
}

#[test]
fn test_invalid_shard_fds_rejected() {
    assert_eq!(
        Opts::from_iter(&args(&["prog", "--images-dir", "imgdir", "--shard-fds", "abc", "capture"])),
        Err(CliError::InvalidInteger)
    );
}

#[test]
fn test_invalid_progress_fd_rejected() {
    assert_eq!(
        Opts::from_iter(&args(&["prog", "--images-dir", "imgdir", "--progress-fd", "abc", "capture"])),
        Err(CliError::InvalidInteger)
    );
}

#[test]
fn test_invalid_ext_file_fds_rejected() {
    assert_eq!(
        Opts::from_iter(&args(&[
            "prog",
            "--images-dir",
            "imgdir",
            "--ext-file-fds",
            "invalid_format",
            "capture"
        ])),
        Err(CliError::InvalidExtFd)
    );
}

#[test]
fn test_argument_after_capture_rejected() {
    assert_eq!(
        Opts::from_iter(&args(&["prog", "--images-dir", "imgdir", "capture", "extra"])),
        Err(CliError::UnexpectedArgument)
    );
}

#[test]
fn test_option_without_value_rejected() {
    assert_eq!(
        Opts::from_iter(&args(&["prog", "--images-dir"])),
        Err(CliError::MissingValue)
    );
}

#[test]
fn test_negative_fd_parses() {
    assert_eq!(
        Opts::from_iter(&args(&["prog", "-D", "d", "--progress-fd", "-1", "capture"]))
            .unwrap()
            .progress_fd,
        Some(-1)
    );
}
