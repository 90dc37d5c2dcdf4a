use image_duplicate::{run, Args, Plan, RunError, Update, DB_FILE_NAME, DEFAULT_THRESHOLD};

fn args() -> Args {
    Args {
        path: String::from("/pictures"),
        db: None,
        recursive: false,
        rebuild: false,
        no_dump: false,
        no_update: false,
        threshold: DEFAULT_THRESHOLD,
    }
}

#[test]
fn constants_of_a_run() {
    assert_eq!(DB_FILE_NAME, ".image_hash.db");
    assert_eq!(DEFAULT_THRESHOLD, 9);
}

#[test]
fn run_needs_a_directory() {
    match run(&args(), false, true) {
        Err(RunError::DirectoryNotFound(path)) => assert_eq!(path, "/pictures"),
        Ok(plan) => panic!("planned {:?}", plan),
    }
}

#[test]
fn run_reads_the_file_that_exists() {
    let plan = run(&args(), true, true).unwrap();
    assert_eq!(plan, Plan { load: true, update: Update::Flat, dump: true, threshold: 9 });
}

#[test]
fn run_starts_empty_without_a_file() {
    let plan = run(&args(), true, false).unwrap();
    assert_eq!(plan, Plan { load: false, update: Update::Flat, dump: true, threshold: 9 });
}

#[test]
fn run_rebuild_ignores_the_file() {
    let mut a = args();
    a.rebuild = true;
    a.recursive = true;
    a.threshold = 12;
    let plan = run(&a, true, true).unwrap();
    assert_eq!(plan, Plan { load: false, update: Update::Recursive, dump: true, threshold: 12 });
}

#[test]
fn run_can_skip_update_and_dump() {
    let mut a = args();
    a.no_update = true;
    a.no_dump = true;
    a.recursive = true;
    let plan = run(&a, true, true).unwrap();
    assert_eq!(plan, Plan { load: true, update: Update::Skip, dump: false, threshold: 9 });
}
