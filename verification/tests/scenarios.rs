//! Whole-command scenarios played on the library: the synchronization
//! steps are driven over a simulated disk.

use git_overlay::base_repository::BaseRepository;
use git_overlay::directory_config::DirectoryConfig;
use git_overlay::exclude::ExcludeFile;
use git_overlay::matcher::WalkEntry;
use git_overlay::overlay_directory::OverlayDirectory;
use git_overlay::repo_config::RepositoryConfiguration;
use git_overlay::sync::{SyncEvent, SyncPhase, SyncRequest};
use git_overlay::sync_decision::{ForceSide, LinkAction, PairState};

const ROOT: &str = "/work/repo";
const OVERLAY: &str = "/work/overlay";

fn strings(items: &[&str]) -> Vec<String> {
    items.iter().map(|s| s.to_string()).collect()
}

/// Files of the repository and of the overlay directory, by relative path,
/// with which pairs are one file and which have equal contents.
struct Disk {
    repo: Vec<String>,
    overlay: Vec<String>,
    linked: Vec<String>,
    same_content: Vec<String>,
    performed: Vec<(String, LinkAction)>,
    removed: Vec<String>,
    exclude_text: Option<String>,
}

impl Disk {
    fn new(repo: &[&str], overlay: &[&str]) -> Disk {
        Disk {
            repo: strings(repo),
            overlay: strings(overlay),
            linked: vec![],
            same_content: vec![],
            performed: vec![],
            removed: vec![],
            exclude_text: None,
        }
    }

    fn walk(root: &str, rels: &[String]) -> Vec<WalkEntry> {
        let mut out = vec![WalkEntry { path: root.to_string(), is_dir: true }];
        for rel in rels {
            out.push(WalkEntry { path: format!("{root}/{rel}"), is_dir: false });
        }
        out
    }

    fn state(&self, rel: &String) -> PairState {
        PairState {
            repo_exists: self.repo.contains(rel),
            overlay_exists: self.overlay.contains(rel),
            same_file: self.linked.contains(rel),
            same_content: self.linked.contains(rel) || self.same_content.contains(rel),
        }
    }

    fn perform(&mut self, rel: &String, action: LinkAction) {
        self.performed.push((rel.clone(), action));
        match action {
            LinkAction::MoveToOverlay => {
                self.overlay.push(rel.clone());
                self.linked.push(rel.clone());
            }
            LinkAction::LinkIntoRepo => {
                self.repo.push(rel.clone());
                self.linked.push(rel.clone());
            }
            LinkAction::ReplaceRepoWithLink | LinkAction::ReplaceOverlayWithLink => {
                self.linked.push(rel.clone());
            }
            LinkAction::Keep | LinkAction::Conflict | LinkAction::Skip => {}
        }
    }

    fn remove(&mut self, rel: &String) {
        self.removed.push(rel.clone());
        self.overlay.retain(|r| r != rel);
        self.linked.retain(|r| r != rel);
    }
}

/// Runs the steps from `phase` on `event` until they finish or stop.
fn drive(
    repo: &mut BaseRepository,
    disk: &mut Disk,
    mut phase: SyncPhase,
    mut event: SyncEvent,
    force: Option<ForceSide>,
) -> Result<(), String> {
    loop {
        let (next, request) = repo.sync_step(phase, event, force);
        phase = next;
        event = match request {
            SyncRequest::WalkRepository => SyncEvent::Walked(Disk::walk(ROOT, &disk.repo)),
            SyncRequest::WalkOverlay => SyncEvent::Walked(Disk::walk(OVERLAY, &disk.overlay)),
            SyncRequest::Probe(rels) => SyncEvent::Probed(rels.iter().map(|r| disk.state(r)).collect()),
            SyncRequest::Perform(rels, actions) => {
                for (rel, action) in rels.iter().zip(actions) {
                    disk.perform(rel, action);
                }
                SyncEvent::Done
            }
            SyncRequest::RemoveFromOverlay(rels) => {
                for rel in &rels {
                    disk.remove(rel);
                }
                SyncEvent::Done
            }
            SyncRequest::WriteExclude(text) => {
                disk.exclude_text = Some(text);
                SyncEvent::Done
            }
            SyncRequest::SaveOverlayConfig | SyncRequest::SaveConfig => SyncEvent::Done,
            SyncRequest::Finish => return Ok(()),
            SyncRequest::Stop(message) => return Err(message),
        };
    }
}

fn sync(repo: &mut BaseRepository, disk: &mut Disk) -> Result<(), String> {
    drive(repo, disk, SyncPhase::Begin, SyncEvent::Start, None)
}

fn add(repo: &mut BaseRepository, disk: &mut Disk, patterns: &[&str]) -> Result<(), String> {
    let unique = repo.add_patterns(&strings(patterns))?;
    repo.mark_overlay_saved();
    let first = SyncEvent::Walked(Disk::walk(ROOT, &disk.repo));
    drive(repo, disk, SyncPhase::AwaitAddWalk { patterns: unique }, first, None)
}

fn remove(repo: &mut BaseRepository, disk: &mut Disk, patterns: &[&str]) -> Result<(), String> {
    repo.remove_patterns(&strings(patterns))?;
    repo.mark_overlay_saved();
    let first = SyncEvent::Walked(Disk::walk(ROOT, &disk.repo));
    drive(repo, disk, SyncPhase::AwaitRemoveWalk, first, None)
}

/// A repository that was never initialized.
fn fresh_repo() -> BaseRepository {
    BaseRepository::new(
        ROOT.to_string(),
        ExcludeFile::load(ROOT, ""),
        RepositoryConfiguration::load(ROOT, None),
        OverlayDirectory::new(ROOT.to_string(), DirectoryConfig::load(ROOT, None)),
    )
}

/// `init` of a fresh repository pointing at the overlay directory, with the
/// configuration and the exclude file written out.
fn initialized_repo() -> BaseRepository {
    let mut repo = fresh_repo();
    repo.init(OVERLAY).expect("init of a fresh repository succeeds");
    repo.mark_config_saved();
    let overlay = OverlayDirectory::new(repo.overlay_location(), DirectoryConfig::load(OVERLAY, None));
    repo.set_overlay(overlay);
    repo
}

#[test]
fn init_records_overlay_path_in_new_repo() {
    let mut repo = fresh_repo();
    assert!(!repo.is_initialized());
    assert!(repo.init(OVERLAY).is_ok());
    assert_eq!(repo.config().overlay_directory(), OVERLAY);
    repo.mark_config_saved();
    assert!(repo.is_initialized());
    assert_eq!(
        RepositoryConfiguration::path(repo.root()),
        "/work/repo/.git/overlay.yml"
    );
    assert_eq!(repo.exclude().path(), "/work/repo/.git/info/exclude");
    assert_eq!(
        repo.exclude().save(),
        "# >>> managed by git-overlay\n# <<< managed by git-overlay\n"
    );
    // A second `init` is refused.
    assert_eq!(
        repo.init("/elsewhere").unwrap_err(),
        "repository /work/repo is already initialized with overlay path /work/overlay"
    );
    assert_eq!(repo.config().overlay_directory(), OVERLAY);
}

#[test]
fn info_lists_exclude_patterns_and_tracked_files() {
    let mut repo = initialized_repo();
    let mut disk = Disk::new(&["hello.txt"], &[]);
    add(&mut repo, &mut disk, &["hello.txt"]).unwrap();
    assert_eq!(disk.performed, vec![("hello.txt".to_string(), LinkAction::MoveToOverlay)]);
    assert!(disk.overlay.contains(&"hello.txt".to_string()));

    let text = repo.info_text();
    assert!(text.contains("hello.txt"), "info did not list the pattern/file");
    assert!(text.contains("exclude patterns"), "info should report exclude patterns");
    assert!(text.contains("tracked files"), "info should report tracked files");
    assert_eq!(
        text,
        "repository: /work/repo\n\
         exclude patterns (1):\n  hello.txt\n\
         tracked files (1):\n  hello.txt\n\
         ignore patterns (1):\n  hello.txt\n"
    );
}

#[test]
fn info_lists_files_managed_by_sync() {
    let mut repo = initialized_repo();
    let mut disk = Disk::new(&["hello.txt", ".hello.txt"], &["hello.txt", ".hello.txt"]);
    disk.same_content = strings(&["hello.txt", ".hello.txt"]);
    sync(&mut repo, &mut disk).unwrap();
    assert_eq!(
        disk.performed,
        vec![
            ("hello.txt".to_string(), LinkAction::ReplaceRepoWithLink),
            (".hello.txt".to_string(), LinkAction::ReplaceRepoWithLink),
        ]
    );
    let info = repo.info();
    assert!(info.tracked_files.contains(&"hello.txt".to_string()));
    assert!(info.tracked_files.contains(&".hello.txt".to_string()));
    assert_eq!(info.exclude_patterns, strings(&["hello.txt", ".hello.txt"]));
    assert!(repo.config().exists_on_disk());
    assert_eq!(disk.exclude_text, Some(repo.exclude().save()));
}

#[test]
fn info_on_uninitialized_repo_only_reports_not_initialized() {
    let repo = fresh_repo();
    let text = repo.info_text();
    assert!(text.contains("not initialized"), "info should report the repository is not initialized");
    assert!(!text.contains("tracked files"));
    assert!(!text.contains("exclude patterns"));
    assert_eq!(text, "repository /work/repo is not initialized; run init first\n");
}

#[test]
fn info_json_prints_valid_json() {
    let mut repo = initialized_repo();
    let mut disk = Disk::new(&["hello.txt"], &[]);
    add(&mut repo, &mut disk, &["hello.txt"]).unwrap();
    let info = repo.info();
    assert_eq!(info.path, ROOT);
    assert!(info.initialized);
    assert_eq!(info.exclude_patterns, strings(&["hello.txt"]));
    assert_eq!(info.tracked_files, strings(&["hello.txt"]));
    assert_eq!(info.ignore_patterns, strings(&["hello.txt"]));

    let mut obj = serde_json::Map::new();
    obj.insert("path".to_string(), serde_json::Value::String(info.path.clone()));
    obj.insert("initialized".to_string(), serde_json::Value::Bool(info.initialized));
    let list = |v: &Vec<String>| {
        serde_json::Value::Array(v.iter().map(|s| serde_json::Value::String(s.clone())).collect())
    };
    obj.insert("exclude_patterns".to_string(), list(&info.exclude_patterns));
    obj.insert("tracked_files".to_string(), list(&info.tracked_files));
    obj.insert("ignore_patterns".to_string(), list(&info.ignore_patterns));
    let text = serde_json::to_string_pretty(&serde_json::Value::Object(obj)).unwrap();
    let value: serde_json::Value = serde_json::from_str(&text).unwrap();
    let parsed = value.as_object().unwrap();
    for key in ["path", "initialized", "exclude_patterns", "tracked_files", "ignore_patterns"] {
        assert!(parsed.contains_key(key), "json info should report {key}");
    }
}

#[test]
fn info_json_on_uninitialized_repo_prints_initialized_false() {
    let repo = fresh_repo();
    let info = repo.info();
    assert!(!info.initialized);
    assert_eq!(info.path, ROOT);
    assert!(info.exclude_patterns.is_empty());
    assert!(info.tracked_files.is_empty());
    assert!(info.ignore_patterns.is_empty());
}

#[test]
fn remove_keeps_file_in_repo_but_removes_from_overlay() {
    let mut repo = initialized_repo();
    let mut disk = Disk::new(&[], &["foo.txt", "bar.txt"]);
    sync(&mut repo, &mut disk).unwrap();
    assert!(disk.repo.contains(&"foo.txt".to_string()));
    assert!(disk.repo.contains(&"bar.txt".to_string()));
    assert_eq!(repo.tracked_files(), &strings(&["foo.txt", "bar.txt"]));

    remove(&mut repo, &mut disk, &["foo.txt"]).unwrap();
    assert!(disk.repo.contains(&"foo.txt".to_string()), "`foo.txt` should stay in the repository");
    assert!(!disk.overlay.contains(&"foo.txt".to_string()), "`foo.txt` should leave the overlay");
    assert!(disk.overlay.contains(&"bar.txt".to_string()), "`bar.txt` should stay in the overlay");
    assert_eq!(repo.tracked_files(), &strings(&["bar.txt"]));
    assert_eq!(repo.list_patterns(), &strings(&["bar.txt"]));
    assert_eq!(repo.overlay().list_patterns(), &strings(&["bar.txt"]));
}

#[test]
fn remove_one_of_overlapping_patterns_keeps_file_managed() {
    let mut repo = initialized_repo();
    let mut disk = Disk::new(&["foo.txt"], &[]);
    add(&mut repo, &mut disk, &["foo.txt", "*.txt"]).unwrap();
    assert!(disk.overlay.contains(&"foo.txt".to_string()));
    assert_eq!(repo.tracked_files(), &strings(&["foo.txt"]));

    remove(&mut repo, &mut disk, &["foo.txt"]).unwrap();
    assert!(disk.removed.is_empty(), "`*.txt` still matches `foo.txt`");
    assert!(disk.repo.contains(&"foo.txt".to_string()));
    assert!(disk.overlay.contains(&"foo.txt".to_string()));
    assert_eq!(repo.tracked_files(), &strings(&["foo.txt"]));
    assert_eq!(repo.list_patterns(), &strings(&["*.txt"]));
}

#[test]
fn sync_with_file_in_both_repo_and_overlay_keeps_both() {
    let mut repo = initialized_repo();
    let mut disk = Disk::new(&["foo.txt"], &["foo.txt"]);
    sync(&mut repo, &mut disk).unwrap();
    assert_eq!(disk.performed, vec![("foo.txt".to_string(), LinkAction::Conflict)]);
    // The file is ignored by git, but not managed.
    assert_eq!(repo.list_patterns(), &strings(&["foo.txt"]));
    assert!(repo.tracked_files().is_empty());
}

#[test]
fn repeated_syncs_keep_both_differing_copies() {
    let mut repo = initialized_repo();
    let mut disk = Disk::new(&["foo.txt"], &["foo.txt"]);
    for _ in 0..3 {
        sync(&mut repo, &mut disk).unwrap();
    }
    assert!(disk.performed.iter().all(|(p, a)| p == "foo.txt" && *a == LinkAction::Conflict));
    assert!(!disk.performed.is_empty());
    assert!(disk.removed.is_empty());
    assert!(disk.repo.contains(&"foo.txt".to_string()));
    assert!(disk.overlay.contains(&"foo.txt".to_string()));
    assert!(repo.tracked_files().is_empty());
}

#[test]
fn sync_force_overlay_keeps_overlay_copy_when_conflict() {
    let mut repo = initialized_repo();
    let mut disk = Disk::new(&["foo.txt"], &["foo.txt"]);
    drive(&mut repo, &mut disk, SyncPhase::Begin, SyncEvent::Start, ForceSide::from_name("overlay"))
        .unwrap();
    assert_eq!(disk.performed, vec![("foo.txt".to_string(), LinkAction::ReplaceRepoWithLink)]);
    assert_eq!(repo.tracked_files(), &strings(&["foo.txt"]));
}

#[test]
fn sync_after_deleting_repo_file_removes_it_from_overlay() {
    let mut repo = initialized_repo();
    let mut disk = Disk::new(&[], &["hello.txt"]);
    sync(&mut repo, &mut disk).unwrap();
    assert!(disk.repo.contains(&"hello.txt".to_string()));
    assert_eq!(repo.tracked_files(), &strings(&["hello.txt"]));

    disk.repo.clear();
    disk.linked.clear();
    sync(&mut repo, &mut disk).unwrap();
    assert_eq!(disk.removed, strings(&["hello.txt"]));
    assert!(!disk.overlay.contains(&"hello.txt".to_string()));
    assert!(repo.tracked_files().is_empty());
    assert!(repo.overlay().list_patterns().is_empty(), "the overlay config no longer names it");
}

#[test]
fn sync_of_uninitialized_repo_stops() {
    let mut repo = fresh_repo();
    let mut disk = Disk::new(&["a"], &[]);
    assert_eq!(
        sync(&mut repo, &mut disk).unwrap_err(),
        "repository /work/repo is not initialized; run init first"
    );
}

#[test]
fn failed_work_stops_synchronization() {
    let mut repo = initialized_repo();
    let (phase, request) =
        repo.sync_step(SyncPhase::AwaitRepoWalk, SyncEvent::Failed("disk on fire".to_string()), None);
    assert!(matches!(phase, SyncPhase::Finished));
    assert!(matches!(request, SyncRequest::Stop(ref m) if m == "disk on fire"));
    let (_, request) = repo.sync_step(SyncPhase::Begin, SyncEvent::Done, None);
    assert!(matches!(request, SyncRequest::Stop(ref m) if m == "unexpected event during synchronization"));
    let (_, request) = repo.sync_step(
        SyncPhase::AwaitRepoProbe { snapshot: vec![], excluded: vec![], candidates: strings(&["a"]) },
        SyncEvent::Probed(vec![]),
        None,
    );
    assert!(matches!(request, SyncRequest::Stop(ref m) if m == "probe results do not match the files asked about"));
}

#[test]
fn ignore_patterns_go_outside_the_managed_region() {
    let mut repo = initialized_repo();
    repo.add_ignores(&strings(&["foo.txt"])).unwrap();
    let content = repo.exclude().save();
    assert_eq!(
        content,
        "# >>> managed by git-overlay\n# <<< managed by git-overlay\nfoo.txt\n"
    );
    assert_eq!(repo.list_ignore_patterns(), &strings(&["foo.txt"]));
    repo.add_ignores(&strings(&["foo.txt"])).unwrap();
    assert_eq!(repo.exclude().save(), content);
    assert_eq!(repo.list_ignore_patterns(), &strings(&["foo.txt"]));

    repo.remove_ignores(&strings(&["foo.txt"])).unwrap();
    assert_eq!(
        repo.exclude().save(),
        "# >>> managed by git-overlay\n# <<< managed by git-overlay\n"
    );
    assert!(repo.list_ignore_patterns().is_empty());
}

#[test]
fn personal_ignores_stay_out_of_synchronization() {
    let mut repo = initialized_repo();
    repo.add_ignores(&strings(&[".venv"])).unwrap();
    let mut disk = Disk::new(&[".venv/bin/python"], &["a.txt", ".venv/lib/x"]);
    sync(&mut repo, &mut disk).unwrap();
    // The personal ignore is not folded into the managed region, and files
    // under it are neither moved nor pinned.
    assert_eq!(repo.list_patterns(), &strings(&["a.txt"]));
    assert_eq!(repo.overlay().list_patterns(), &strings(&[".venv", "a.txt"]));
    assert!(!disk.performed.iter().any(|(r, _)| r == ".venv/bin/python"));
}

#[test]
fn commands_on_uninitialized_repo_fail() {
    let mut repo = fresh_repo();
    let msg = "repository /work/repo is not initialized; run init first";
    assert_eq!(repo.ensure_initialized().unwrap_err(), msg);
    assert_eq!(repo.add_patterns(&strings(&["a"])).unwrap_err(), msg);
    assert!(repo.remove_patterns(&strings(&["a"])).is_err());
    assert!(repo.clear_patterns().is_err());
    assert!(repo.add_ignores(&strings(&["a"])).is_err());
    assert!(repo.remove_ignores(&strings(&["a"])).is_err());
    assert!(repo.list_patterns().is_empty());
}

#[test]
fn add_patterns_skips_known_and_repeated_patterns() {
    let mut repo = initialized_repo();
    let first = repo.add_patterns(&strings(&["a", "b", "a"])).unwrap();
    assert_eq!(first, strings(&["a", "b"]));
    let second = repo.add_patterns(&strings(&["b", "c"])).unwrap();
    assert_eq!(second, strings(&["c"]));
    assert_eq!(repo.list_patterns(), &strings(&["a", "b", "c"]));
    assert_eq!(repo.overlay().list_patterns(), &strings(&["a", "b", "c"]));
    repo.clear_patterns().unwrap();
    assert!(repo.list_patterns().is_empty());
}

#[test]
fn folding_overlay_patterns_twice_adds_nothing() {
    let mut repo = BaseRepository::new(
        ROOT.to_string(),
        ExcludeFile::load(ROOT, "# >>> managed by git-overlay\nb\n# <<< managed by git-overlay\nx\n"),
        RepositoryConfiguration::load(ROOT, Some((OVERLAY.to_string(), vec![]))),
        OverlayDirectory::new(
            OVERLAY.to_string(),
            DirectoryConfig::load(OVERLAY, Some((vec![], strings(&["a", "b", "x", "c"])))),
        ),
    );
    repo.sync_overlay_patterns();
    assert_eq!(repo.list_patterns(), &strings(&["b", "a", "c"]));
    let once = repo.exclude().save();
    assert_eq!(
        once,
        "# >>> managed by git-overlay\nb\na\nc\n# <<< managed by git-overlay\nx\n"
    );
    repo.sync_overlay_patterns();
    assert_eq!(repo.exclude().save(), once);
}
