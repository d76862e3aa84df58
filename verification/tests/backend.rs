use nyancache::backend::local::LocalBackend;
use nyancache::backend::s3;
use nyancache::backend::{directory, place_of, StoreAction};
use nyancache::error::Error;

#[test]
fn place_is_directory_slash_key() {
    assert_eq!(place_of("data", "x.nar.xz"), "data/x.nar.xz");
    assert_eq!(place_of("", "x"), "x");
    assert_eq!(place_of("a/b", ""), "a/b/");
    assert_eq!(place_of("a/", "x"), "a/x");
    assert_eq!(place_of("/", "x"), "/x");
}

#[test]
fn directory_is_what_stands_before_the_last_slash() {
    assert_eq!(directory("data/x.nar.xz"), "data");
    assert_eq!(directory("/srv/cache/data/a/b.nar"), "/srv/cache/data/a");
    assert_eq!(directory("x.nar.xz"), "");
    assert_eq!(directory("data/"), "data");
    assert_eq!(directory("/x"), "");
    assert_eq!(directory(""), "");
}

#[test]
fn local_backend_places() {
    let backend = LocalBackend::new("/srv/tmp".to_string(), "/srv/data".to_string());
    assert_eq!(backend.write_path("x.nar.xz"), "/srv/tmp/x.nar.xz");
    assert_eq!(backend.read_path("x.nar.xz"), "/srv/data/x.nar.xz");
    assert_ne!(backend.write_path("x.nar.xz"), backend.read_path("x.nar.xz"));
}

#[test]
fn local_backend_in_a_directory() {
    let backend = LocalBackend::in_dir("/srv/cache");
    assert_eq!(backend.write_path("k"), "/srv/cache/tmp/k");
    assert_eq!(backend.read_path("k"), "/srv/cache/data/k");
}

#[test]
fn local_backend_makes_the_directory_before_it_writes() {
    let backend = LocalBackend::new("tmp".to_string(), "data".to_string());
    let plan = backend.write_plan("a/x.nar.xz");
    assert_eq!(plan.len(), 1);
    assert!(matches!(&plan[0], StoreAction::CreateDirAll(dir) if dir == "tmp/a"));
}

#[test]
fn local_backend_promotes_by_renaming() {
    let backend = LocalBackend::new("tmp".to_string(), "data".to_string());
    let plan = backend.promote_plan("x.nar.xz").unwrap();
    assert_eq!(plan.len(), 2);
    assert!(matches!(&plan[0], StoreAction::CreateDirAll(dir) if dir == "data"));
    assert!(matches!(
        &plan[1],
        StoreAction::Rename { from, to } if from == "tmp/x.nar.xz" && to == "data/x.nar.xz"
    ));
}

#[test]
fn local_backend_refuses_absolute_keys() {
    let backend = LocalBackend::new("tmp".to_string(), "data".to_string());
    assert_eq!(backend.promote_plan("/etc/x").unwrap_err(), Error::Upload);
    assert!(backend.promote_plan("").is_ok());
}

#[test]
fn bucket_places() {
    assert_eq!(s3::write_path("x.nar.xz"), "tmp/x.nar.xz");
    assert_eq!(s3::read_path("x.nar.xz"), "data/x.nar.xz");
}

#[test]
fn bucket_promotes_by_copy_then_delete() {
    let plan = s3::promote_plan("x.nar.xz").unwrap();
    assert_eq!(plan.len(), 2);
    assert!(matches!(
        &plan[0],
        StoreAction::Copy { from, to } if from == "tmp/x.nar.xz" && to == "data/x.nar.xz"
    ));
    assert!(matches!(&plan[1], StoreAction::Delete(path) if path == "tmp/x.nar.xz"));
}

#[test]
fn bucket_refuses_absolute_keys() {
    assert_eq!(s3::promote_plan("/x.nar.xz").unwrap_err(), Error::Upload);
    assert!(s3::promote_plan("").is_ok());
}
