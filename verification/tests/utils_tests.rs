use rpkg_rs::utils::{normalize_path, PathPart};

#[test]
fn normalize_path_takes_out_dots() {
    use_parts(
        &[PathPart::RootDir, PathPart::Normal, PathPart::CurDir, PathPart::Normal],
        &[0, 1, 3],
    );
    // `..` takes the name before it along.
    use_parts(
        &[PathPart::Normal, PathPart::Normal, PathPart::ParentDir, PathPart::Normal],
        &[0, 3],
    );
    // Nothing lies above the root, a prefix or nothing at all.
    use_parts(&[PathPart::RootDir, PathPart::ParentDir, PathPart::Normal], &[0, 2]);
    use_parts(&[PathPart::Prefix, PathPart::ParentDir], &[0]);
    use_parts(&[PathPart::ParentDir, PathPart::ParentDir, PathPart::Normal], &[2]);
    use_parts(
        &[
            PathPart::Prefix,
            PathPart::RootDir,
            PathPart::Normal,
            PathPart::Normal,
            PathPart::ParentDir,
            PathPart::ParentDir,
            PathPart::ParentDir,
            PathPart::Normal,
        ],
        &[0, 1, 7],
    );
    use_parts(&[], &[]);
}

fn use_parts(parts: &[PathPart], stay: &[usize]) {
    assert_eq!(normalize_path(&parts.to_vec()), stay.to_vec());
}
