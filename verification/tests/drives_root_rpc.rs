use virtualfs::drives_root_rpc::{drive_rows, Drive, DrivesRootRpc};
use virtualfs::rpc::AppError;

fn drive(path: &str, is_mounted: bool) -> Drive {
    Drive { path: path.to_string(), is_mounted }
}

#[test]
fn drives_root_reports_itself_as_the_root_filesystem() {
    assert!(DrivesRootRpc::new().is_root_fs());
}

#[test]
fn every_path_gets_the_home_icon() {
    let rpc = DrivesRootRpc::new();
    assert!(rpc.get_icon("/").ends_with("/home.svg"));
    assert!(rpc.get_icon("/media/usb").ends_with("/home.svg"));
    assert_eq!(rpc.get_icon("/"), rpc.get_icon("C:\\"));
}

#[test]
fn creating_a_directory_in_the_drives_root_is_rejected() {
    let err = DrivesRootRpc::new().create_directory("/", "new", None).unwrap_err();
    assert_eq!(err.message(), "Cannot create directory in drives root");
}

#[test]
fn renaming_in_the_drives_root_is_rejected() {
    let err = DrivesRootRpc::new().rename_entry("/media/usb", "/media/stick").unwrap_err();
    assert_eq!(err.message(), "Cannot rename in drives root");
}

#[test]
fn deleting_in_the_drives_root_is_rejected() {
    let err = DrivesRootRpc::new().delete_entries(&["/media/usb".to_string()]).unwrap_err();
    assert_eq!(err.message(), "Cannot delete in drives root");
}

#[test]
fn deleting_an_empty_batch_is_still_rejected() {
    assert!(DrivesRootRpc::new().delete_entries(&[]).is_err());
}

#[test]
fn the_root_directory_comes_first_and_once_and_only_mounted_drives_follow() {
    let drives = [drive("/home", true), drive("/", true), drive("/dev/sdb", false), drive("/mnt", true)];
    let rows = drive_rows(&drives, false);
    let names: Vec<&str> = rows.iter().map(|r| r.name.as_str()).collect();
    assert_eq!(names, vec!["/", "/home", "/mnt"]);
    assert!(rows.iter().all(|r| r.is_dir && r.size == 0 && r.permissions.is_none()));
}

#[test]
fn drives_with_roots_of_their_own_are_all_shown() {
    let drives = [drive("C:\\", true), drive("D:\\", false)];
    let rows = drive_rows(&drives, true);
    let names: Vec<&str> = rows.iter().map(|r| r.name.as_str()).collect();
    assert_eq!(names, vec!["C:\\", "D:\\"]);
}

#[test]
fn a_task_that_did_not_find_the_drives_is_told_of() {
    let rpc = DrivesRootRpc::new();
    assert_eq!(
        rpc.list_dir(Err("cancelled".to_string()), false).unwrap_err(),
        AppError::Other("cancelled".to_string())
    );
    assert_eq!(rpc.list_dir(Ok(Vec::new()), false).unwrap().len(), 1);
}
