use dphoto::diff::{get_files_not_resized, WorkEntry};
use dphoto::dirs::{dir_exists_or_create, verify_directories_exist, ConfigError, DirAction, DirState};
use dphoto::enumerate::{get_all_files, is_image_file};
use dphoto::path::ImgPath;
use dphoto::resolve::{get_destination_path, get_resize_options, AppConfig, ImageSize, PathError, ResizeOptions};

fn p(s: &str) -> ImgPath {
    ImgPath::parse(s)
}

fn text(path: &ImgPath) -> String {
    path.to_path_string()
}

fn config() -> AppConfig {
    AppConfig { original_photos_dir: p("/orig"), resized_photos_dir: p("/resized") }
}

fn opt(name: &str) -> ResizeOptions {
    ResizeOptions { name: name.to_string(), width: 100, height: 100 }
}

fn dests(w: &[WorkEntry]) -> Vec<String> {
    w.iter().flat_map(|e| e.jobs.iter().map(|j| text(&j.destination))).collect()
}

#[test]
fn path_resolution_example() {
    let d = get_destination_path(&config(), &p("/orig/2020/beach.jpg"), &opt("thumb")).unwrap();
    assert_eq!(text(&d), "/resized/2020/beach-thumb.jpg");
}

#[test]
fn resolution_at_source_root() {
    let d = get_destination_path(&config(), &p("/orig/a.JPEG"), &opt("medium")).unwrap();
    assert_eq!(text(&d), "/resized/a-medium.JPEG");
}

#[test]
fn resolution_keeps_nested_dirs_and_last_dot() {
    let d = get_destination_path(&config(), &p("/orig/x/y/z/my.photo.jpg"), &opt("s")).unwrap();
    assert_eq!(text(&d), "/resized/x/y/z/my.photo-s.jpg");
}

#[test]
fn resolution_of_path_under_derivative_root() {
    let d = get_destination_path(&config(), &p("/resized/2020/beach-thumb.jpg"), &opt("thumb")).unwrap();
    assert_eq!(text(&d), "/resized/2020/beach-thumb-thumb.jpg");
}

#[test]
fn prefix_mismatch_failure() {
    let r = get_destination_path(&config(), &p("/etc/passwd"), &opt("thumb"));
    assert_eq!(r.err(), Some(PathError::PrefixMismatch));
    let r = get_destination_path(&config(), &p("orig/a.jpg"), &opt("thumb"));
    assert_eq!(r.err(), Some(PathError::PrefixMismatch));
}

#[test]
fn missing_file_name() {
    assert_eq!(get_destination_path(&config(), &p("/"), &opt("t")).err(), Some(PathError::MissingFileName));
    assert_eq!(get_destination_path(&config(), &p("/orig/.."), &opt("t")).err(), Some(PathError::MissingFileName));
}

#[test]
fn missing_extension() {
    assert_eq!(get_destination_path(&config(), &p("/orig/a"), &opt("t")).err(), Some(PathError::MissingExtension));
    assert_eq!(get_destination_path(&config(), &p("/orig/.hidden"), &opt("t")).err(), Some(PathError::MissingExtension));
}

#[test]
fn parse_and_render() {
    assert_eq!(text(&p("/a//b/./c/")), "/a/b/c");
    assert_eq!(text(&p("a/b")), "a/b");
    assert_eq!(text(&p("")), "");
    assert_eq!(text(&p("/")), "/");
    assert!(p("/a/b").same_as(&p("/a/./b/")));
    assert!(!p("/a/b").same_as(&p("a/b")));
    assert_eq!(p("/a/b").strip_prefix(&p("/a")), Some(vec!["b".to_string()]));
    assert_eq!(p("/ab/c").strip_prefix(&p("/a")), None);
}

#[test]
fn extension_filtering() {
    assert!(!is_image_file(&p("/x/a.png")));
    assert!(!is_image_file(&p("/x/a")));
    assert!(is_image_file(&p("/x/a.JPG")));
    assert!(is_image_file(&p("/x/b.jPeG")));
    assert!(!is_image_file(&p("/x/.jpg")));
    let files = get_all_files(vec![p("/x/a.png"), p("/x/a"), p("/x/a.JPG")]);
    let names: Vec<String> = files.iter().map(text).collect();
    assert_eq!(names, vec!["/x/a.JPG".to_string()]);
}

#[test]
fn enumeration_is_sorted() {
    let files = get_all_files(vec![p("/o/b/z.jpg"), p("/o/a.jpeg"), p("/o/b.jpg"), p("/o/B.jpg"), p("/o/b/a.jpg")]);
    let names: Vec<String> = files.iter().map(text).collect();
    assert_eq!(names, vec!["/o/B.jpg", "/o/a.jpeg", "/o/b.jpg", "/o/b/a.jpg", "/o/b/z.jpg"]);
}

#[test]
fn enumeration_of_nothing_is_empty() {
    assert!(get_all_files(Vec::new()).is_empty());
}

#[test]
fn missing_root_gives_every_job() {
    let sources = get_all_files(vec![p("/orig/2020/beach.jpg"), p("/orig/a.jpg")]);
    let w = get_files_not_resized(&config(), sources, Vec::new(), vec![opt("thumb"), opt("large")]).unwrap();
    assert_eq!(w.len(), 2);
    assert_eq!(text(&w[0].source), "/orig/2020/beach.jpg");
    assert_eq!(
        dests(&w),
        vec![
            "/resized/2020/beach-thumb.jpg",
            "/resized/2020/beach-large.jpg",
            "/resized/a-thumb.jpg",
            "/resized/a-large.jpg"
        ]
    );
    assert_eq!(w[1].jobs[1].options.name, "large");
    assert_eq!(text(&w[1].jobs[1].source), "/orig/a.jpg");
}

#[test]
fn existing_derivatives_are_skipped() {
    let sources = vec![p("/orig/a.jpg"), p("/orig/b.jpg")];
    let resized = vec![p("/resized/a-thumb.jpg"), p("/resized/b-thumb.jpg"), p("/resized/b-large.jpg")];
    let w = get_files_not_resized(&config(), sources, resized, vec![opt("thumb"), opt("large")]).unwrap();
    assert_eq!(w.len(), 2);
    assert_eq!(dests(&w), vec!["/resized/a-large.jpg"]);
    assert!(w[1].jobs.is_empty());
}

#[test]
fn fixpoint_after_running_all_jobs() {
    let sources = vec![p("/orig/x/1.jpg"), p("/orig/2.jpeg"), p("/orig/y/z/3.JPG")];
    let opts = || vec![opt("thumb"), opt("medium")];
    let first = get_files_not_resized(&config(), sources.clone(), vec![p("/resized/2-thumb.jpeg")], opts()).unwrap();
    let mut after = vec![p("/resized/2-thumb.jpeg")];
    for e in &first {
        for j in &e.jobs {
            after.push(j.destination.duplicate());
        }
    }
    let again = get_files_not_resized(&config(), sources, after, opts()).unwrap();
    assert_eq!(again.len(), 3);
    assert!(again.iter().all(|e| e.jobs.is_empty()));
}

#[test]
fn repeated_derivation_is_stable() {
    let run = || {
        let w = get_files_not_resized(&config(), vec![p("/orig/a.jpg"), p("/orig/c/b.jpg")], vec![p("/resized/c/b-s.jpg")], vec![opt("s"), opt("m")]).unwrap();
        dests(&w)
    };
    assert_eq!(run(), run());
    assert_eq!(run(), vec!["/resized/a-s.jpg", "/resized/a-m.jpg", "/resized/c/b-m.jpg"]);
}

#[test]
fn duplicate_source_gets_one_entry() {
    let w = get_files_not_resized(&config(), vec![p("/orig/a.jpg"), p("/orig/a.jpg")], Vec::new(), vec![opt("s")]).unwrap();
    assert_eq!(w.len(), 1);
    assert_eq!(dests(&w), vec!["/resized/a-s.jpg"]);
}

#[test]
fn no_variants_gives_empty_entries() {
    let w = get_files_not_resized(&config(), vec![p("/orig/a.jpg")], Vec::new(), Vec::new()).unwrap();
    assert_eq!(w.len(), 1);
    assert!(w[0].jobs.is_empty());
}

#[test]
fn path_error_aborts_derivation() {
    let r = get_files_not_resized(&config(), vec![p("/orig/a.jpg"), p("/elsewhere/b.jpg"), p("/orig/c")], Vec::new(), vec![opt("s")]);
    assert_eq!(r.err(), Some(PathError::PrefixMismatch));
    let r = get_files_not_resized(&config(), vec![p("/orig/c"), p("/elsewhere/b.jpg")], Vec::new(), vec![opt("s")]);
    assert_eq!(r.err(), Some(PathError::MissingExtension));
}

#[test]
fn resize_options_from_sizes() {
    let o = get_resize_options(vec![
        ImageSize { name: "thumb".to_string(), width: 200, height: 150 },
        ImageSize { name: "large".to_string(), width: 1920, height: 1080 },
    ]);
    assert_eq!(o.len(), 2);
    assert_eq!(o[0].name, "thumb");
    assert_eq!((o[1].width, o[1].height), (1920, 1080));
    let c = o[1].duplicate();
    assert_eq!(c.name, "large");
}

#[test]
fn directory_checks() {
    assert_eq!(dir_exists_or_create(DirState::Directory), Some(DirAction::Keep));
    assert_eq!(dir_exists_or_create(DirState::Missing), Some(DirAction::Create));
    assert_eq!(dir_exists_or_create(DirState::File), None);
    assert_eq!(
        verify_directories_exist(vec![DirState::Missing, DirState::Directory, DirState::Missing]),
        Ok(vec![0, 2])
    );
    assert_eq!(
        verify_directories_exist(vec![DirState::Missing, DirState::File, DirState::File]),
        Err(ConfigError::NotADirectory(1))
    );
    assert_eq!(verify_directories_exist(Vec::new()), Ok(Vec::new()));
}
