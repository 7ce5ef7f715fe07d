use duralade::disk_fetch::{not_found_message, select_module_files, stem_matches, DiskFetcher};
use duralade::model::assoc::assoc_position;
use duralade::project::{module_file_segments, module_path_of, record_module, ProjectConfig, IMPLICIT_ROOT};

fn chars(s: &str) -> Vec<char> {
    s.chars().collect()
}

fn text(c: &[char]) -> String {
    c.iter().collect()
}

fn config(source_root: Option<&str>, tests_root: Option<&str>) -> ProjectConfig {
    ProjectConfig {
        name: "app".to_string(),
        source_root: source_root.map(|s| s.to_string()),
        tests_root: tests_root.map(|s| s.to_string()),
        allow_builtin: false,
        stdlib_prelude: true,
    }
}

#[test]
fn effective_roots_default_to_src_and_test() {
    let c = config(None, None);
    assert_eq!(c.effective_source_root(), "src");
    assert_eq!(c.effective_test_root(), "test");
    let d = config(Some("lib"), Some("spec"));
    assert_eq!(d.effective_source_root(), "lib");
    assert_eq!(d.effective_test_root(), "spec");
}

#[test]
fn implicit_project_reads_its_own_directory() {
    let c = ProjectConfig::implicit();
    assert_eq!(c.name, IMPLICIT_ROOT);
    assert_eq!(c.effective_source_root(), ".");
    assert_eq!(c.effective_test_root(), "test");
    assert!(c.stdlib_prelude);
    assert!(!c.allow_builtin);
}

#[test]
fn root_settings_cover_project_and_tests() {
    let mut c = config(None, None);
    c.stdlib_prelude = false;
    let rs = c.root_settings();
    assert_eq!(rs.len(), 2);
    let i = assoc_position(&rs, &chars("app")).unwrap();
    assert!(!rs[i].1.stdlib_prelude);
    assert!(assoc_position(&rs, &chars("test")).is_some());

    let mut t = config(None, None);
    t.name = "test".to_string();
    assert_eq!(t.root_settings().len(), 1);
}

#[test]
fn file_segments_take_stem_up_to_first_dot() {
    let dirs = vec![chars("admin")];
    let segs = module_file_segments(&dirs, &chars("roles"));
    assert_eq!(segs, vec![chars("admin"), chars("roles")]);
    let multi = module_file_segments(&vec![], &chars("user.types"));
    assert_eq!(multi, vec![chars("user")]);
}

#[test]
fn modules_are_recorded_once_in_order_met() {
    let mut seen = Vec::new();
    let mut modules = Vec::new();
    assert!(record_module(&mut seen, &mut modules, &chars("app"), vec![chars("user")]));
    assert!(record_module(&mut seen, &mut modules, &chars("app"), vec![chars("admin"), chars("roles")]));
    assert!(!record_module(&mut seen, &mut modules, &chars("app"), vec![chars("user")]));
    let names: Vec<String> = modules.iter().map(|m| text(m)).collect();
    assert_eq!(names, vec!["app.user".to_string(), "app.admin.roles".to_string()]);
    assert_eq!(text(&module_path_of(&chars("app"), &vec![])), "app");
}

#[test]
fn fetcher_locates_module_files() {
    let mut f = DiskFetcher::new();
    f.add_root(&chars("app"), chars("/p/src"));
    f.add_root(&chars("duralade"), chars("/std"));
    f.add_root(&chars("app"), chars("/p/lib"));
    f.set_allow_builtin(&chars("duralade"));
    f.set_allow_builtin(&chars("duralade"));
    assert_eq!(f.builtin_roots.len(), 1);

    let plan = f.locate(&chars("app.admin.roles")).ok().unwrap();
    assert_eq!(text(&plan.base), "/p/lib");
    assert_eq!(plan.dirs, vec![chars("admin")]);
    assert_eq!(text(&plan.module_name), "roles");
    assert!(!plan.allow_builtin);

    let std_plan = f.locate(&chars("duralade.str")).ok().unwrap();
    assert!(std_plan.allow_builtin);
    assert!(std_plan.dirs.is_empty());
}

#[test]
fn fetcher_reports_unknown_root_and_empty_path() {
    let mut f = DiskFetcher::new();
    f.add_root(&chars("app"), chars("/p/src"));
    let e = f.locate(&chars("other.x")).err().unwrap();
    assert_eq!(text(&e.message), "unknown project root: 'other'");
    let e2 = f.locate(&chars("app")).err().unwrap();
    assert_eq!(text(&e2.message), "empty module path");
}

#[test]
fn stems_of_a_module() {
    assert!(stem_matches(&chars("error"), &chars("error")));
    assert!(stem_matches(&chars("error.types"), &chars("error")));
    assert!(!stem_matches(&chars("errors"), &chars("error")));
    assert!(!stem_matches(&chars("err"), &chars("error")));
}

#[test]
fn not_found_message_names_where_it_looked() {
    let m = not_found_message(&vec![chars("admin"), chars("roles")], &chars("/p/src/admin"), &chars("roles"), &chars("/p/src"));
    assert_eq!(text(&m), "module not found: 'admin.roles' (looked for /p/src/admin/roles.dl in /p/src)");
}

#[test]
fn module_files_are_picked_from_the_listing() {
    let c = |s: &str| -> Vec<char> { s.chars().collect() };
    let stems = vec![Some(c("error")), None, Some(c("error.types")), Some(c("errors")), Some(c("other"))];
    assert_eq!(select_module_files(&stems, &c("error")), vec![0, 2]);
    assert!(select_module_files(&stems, &c("missing")).is_empty());
}

#[test]
fn file_paths_become_module_segments() {
    use_file_segments();
}

fn use_file_segments() {
    let c = |s: &str| -> Vec<char> { s.chars().collect() };
    let v = |xs: &[&str]| -> Vec<Vec<char>> { xs.iter().map(|x| c(x)).collect() };
    let base = v(&["base"]);
    let roles = c("roles");
    assert_eq!(duralade::project::file_to_module_segments(&base, &v(&["base", "admin"]), Some(&roles)), Some(v(&["admin", "roles"])));
    let user = c("user.types");
    assert_eq!(duralade::project::file_to_module_segments(&base, &v(&["base"]), Some(&user)), Some(v(&["user"])));
    let x = c("x");
    assert_eq!(duralade::project::file_to_module_segments(&base, &v(&["other"]), Some(&x)), None);
    assert_eq!(duralade::project::file_to_module_segments(&base, &v(&["base"]), None), None);
}
