use vml::cli::{
    args_without_host, cloud_init_enabled, create_exists_action, effective_fold, is_affirmative,
    list_names, parse_user_at_name, set_specifications, ssh_wait_done, CreateExistsAction,
    SelectionArgs,
};
use vml::vms::{expand_specs, resolve_spec, VmSpec, VmsCreator, WithPid};
use vml::Error;

fn spec(name: &str, parent: Option<&str>, tags: &[&str]) -> VmSpec {
    VmSpec {
        name: name.to_string(),
        folded_name: name.to_string(),
        parent: parent.map(|s| s.to_string()),
        tags: tags.iter().map(|s| s.to_string()).collect(),
        image: None,
        memory: None,
        nproc: None,
        ssh_user: None,
        cloud_init: None,
    }
}

fn names_of(vms: &[vml::vms::Vm]) -> Vec<&str> {
    vms.iter().map(|v| v.name.as_str()).collect()
}

#[test]
fn error_mode_fails_on_a_stopped_vm() {
    // vmA is running, vmB is not: the whole call fails before anything runs
    let specs = vec![spec("vmA", None, &[]), spec("vmB", None, &[])];
    let pids = vec![("vmA".to_string(), 4242u64)];
    let mut vmc = VmsCreator::new();
    vmc.all();
    vmc.with_pid(WithPid::Error);
    let r = vmc.create(&specs, &pids);
    assert!(matches!(r, Err(Error::NotRunning(n)) if n == "vmB"));
}

#[test]
fn filter_mode_keeps_exactly_the_running_vms() {
    let specs = vec![spec("vmA", None, &[]), spec("vmB", None, &[])];
    let pids = vec![("vmA".to_string(), 4242u64)];
    let mut vmc = VmsCreator::new();
    vmc.all();
    vmc.with_pid(WithPid::Filter);
    let vms = vmc.create(&specs, &pids).unwrap();
    assert_eq!(names_of(&vms), vec!["vmA"]);
    assert_eq!(vms[0].pid, Some(4242));
}

#[test]
fn without_mode_never_probes() {
    let specs = vec![spec("vmA", None, &[])];
    let pids = vec![("vmA".to_string(), 4242u64)];
    let mut vmc = VmsCreator::new();
    vmc.all();
    vmc.with_pid(WithPid::Without);
    let vms = vmc.create(&specs, &pids).unwrap();
    assert_eq!(vms[0].pid, None);
}

#[test]
fn option_mode_annotates_without_filtering() {
    let specs = vec![spec("vmA", None, &[]), spec("vmB", None, &[])];
    let pids = vec![("vmA".to_string(), 7u64)];
    let mut vmc = VmsCreator::new();
    vmc.all();
    vmc.with_pid(WithPid::Option);
    let vms = vmc.create(&specs, &pids).unwrap();
    assert_eq!(names_of(&vms), vec!["vmA", "vmB"]);
    assert_eq!(vms[0].pid, Some(7));
    assert_eq!(vms[1].pid, None);
}

#[test]
fn explicit_names_narrow_before_all() {
    let specs = vec![spec("a", None, &[]), spec("b", None, &[]), spec("c", None, &[])];
    let mut vmc = VmsCreator::new();
    vmc.all();
    vmc.name("b");
    let vms = vmc.create(&specs, &Vec::new()).unwrap();
    assert_eq!(names_of(&vms), vec!["b"]);
}

#[test]
fn no_names_and_no_all_selects_nothing() {
    let specs = vec![spec("a", None, &[])];
    let vmc = VmsCreator::new();
    let vms = vmc.create(&specs, &Vec::new()).unwrap();
    assert!(vms.is_empty());
}

#[test]
fn parent_and_tag_filters_are_anded() {
    let specs = vec![
        spec("base", None, &[]),
        spec("db1", Some("base"), &["db", "prod"]),
        spec("lone", None, &["prod"]),
        spec("web1", Some("base"), &["web", "prod"]),
        spec("web2", Some("base"), &["web"]),
    ];
    let mut vmc = VmsCreator::new();
    vmc.all();
    vmc.parents(&vec!["base".to_string()]);
    vmc.tags(&vec!["prod".to_string()]);
    let vms = vmc.create(&specs, &Vec::new()).unwrap();
    assert_eq!(names_of(&vms), vec!["db1", "web1"]);
}

#[test]
fn cascade_inherits_unset_fields() {
    let mut base = spec("base", None, &["common"]);
    base.memory = Some(2048);
    base.nproc = Some(4);
    base.ssh_user = Some("admin".to_string());
    let mut child = spec("child", Some("base"), &[]);
    child.nproc = Some(8);
    let specs = vec![base, child];
    let mut vmc = VmsCreator::new();
    vmc.name("child");
    let vms = vmc.create(&specs, &Vec::new()).unwrap();
    assert_eq!(vms.len(), 1);
    let vm = &vms[0];
    assert_eq!(vm.name, "child");
    assert_eq!(vm.memory, Some(2048), "unset memory inherits");
    assert_eq!(vm.nproc, Some(8), "set nproc overrides");
    assert_eq!(vm.ssh_user.as_deref(), Some("admin"));
    assert_eq!(vm.tags, vec!["common".to_string()], "empty tag list inherits");
}

#[test]
fn minimal_config_skips_the_cascade() {
    let mut base = spec("base", None, &[]);
    base.memory = Some(2048);
    let child = spec("child", Some("base"), &[]);
    let specs = vec![base, child];
    let mut vmc = VmsCreator::new();
    vmc.name("child");
    vmc.minimal_vm_config();
    let vms = vmc.create(&specs, &Vec::new()).unwrap();
    assert_eq!(vms[0].memory, None);
}

#[test]
fn cyclic_parent_chain_is_rejected() {
    let specs = vec![spec("a", Some("b"), &[]), spec("b", Some("a"), &[])];
    let mut vmc = VmsCreator::new();
    vmc.name("a");
    let r = vmc.create(&specs, &Vec::new());
    assert!(matches!(r, Err(Error::CyclicParent(_))));
}

#[test]
fn missing_parent_is_rejected() {
    let specs = vec![spec("a", Some("ghost"), &[])];
    let mut vmc = VmsCreator::new();
    vmc.name("a");
    let r = vmc.create(&specs, &Vec::new());
    assert!(matches!(r, Err(Error::UnknownParent(p)) if p == "ghost"));
}

#[test]
fn resolve_spec_walks_a_three_level_chain() {
    let mut root = spec("root", None, &[]);
    root.memory = Some(1024);
    root.cloud_init = Some(true);
    let mut mid = spec("mid", Some("root"), &[]);
    mid.memory = Some(2048);
    let leaf = spec("leaf", Some("mid"), &[]);
    let specs = vec![root, mid, leaf];
    let eff = resolve_spec(&specs, 2).unwrap();
    assert_eq!(eff.name, "leaf");
    assert_eq!(eff.memory, Some(2048), "nearest ancestor wins");
    assert_eq!(eff.cloud_init, Some(true));
}

#[test]
fn image_template_renders_against_the_vm_name() {
    let mut s = spec("web", None, &[]);
    s.image = Some("disk-{{name}}.qcow2".to_string());
    let specs = vec![s];
    let mut vmc = VmsCreator::new();
    vmc.all();
    let vms = vmc.create(&specs, &Vec::new()).unwrap();
    assert_eq!(vms[0].image.as_deref(), Some("disk-web.qcow2"));
}

#[test]
fn unresolvable_image_template_fails_the_whole_call() {
    let mut s = spec("web", None, &[]);
    s.image = Some("disk-{{no_such_var}}.qcow2".to_string());
    let specs = vec![s, spec("other", None, &[])];
    let mut vmc = VmsCreator::new();
    vmc.all();
    let r = vmc.create(&specs, &Vec::new());
    assert!(matches!(r, Err(Error::Render(n)) if n == "web"));
}

#[test]
fn error_on_empty_demands_a_result() {
    let specs = vec![spec("a", None, &[])];
    let mut vmc = VmsCreator::new();
    vmc.name("nope");
    vmc.error_on_empty();
    let r = vmc.create(&specs, &Vec::new());
    assert!(matches!(r, Err(Error::NoMatchingVm)));
}

#[test]
fn vm_config_override_wins_over_resolved_fields() {
    let mut s = spec("a", None, &[]);
    s.memory = Some(1024);
    let specs = vec![s];
    let mut over = spec("ignored-name", None, &[]);
    over.memory = Some(4096);
    let mut vmc = VmsCreator::new();
    vmc.all();
    vmc.vm_config(over);
    let vms = vmc.create(&specs, &Vec::new()).unwrap();
    assert_eq!(vms[0].name, "a", "the override never renames");
    assert_eq!(vms[0].memory, Some(4096));
}

#[test]
fn builder_accumulates_names() {
    let specs = vec![spec("a", None, &[]), spec("b", None, &[]), spec("c", None, &[])];
    let mut vmc = VmsCreator::new();
    vmc.names(&vec!["a".to_string(), "c".to_string()]);
    assert!(!vmc.is_all());
    let vms = vmc.create(&specs, &Vec::new()).unwrap();
    assert_eq!(names_of(&vms), vec!["a", "c"]);
}

#[test]
fn parse_user_at_name_splits_at_the_first_at() {
    assert_eq!(parse_user_at_name("alice@vm1"), (Some("alice"), "vm1"));
    assert_eq!(parse_user_at_name("vm1"), (None, "vm1"));
    assert_eq!(parse_user_at_name("a@b@c"), (Some("a"), "b@c"));
    assert_eq!(parse_user_at_name("@vm"), (Some(""), "vm"));
}

#[test]
fn args_without_host_drops_the_first_flag_and_value() {
    let args: Vec<String> =
        ["vml", "--host", "h1", "ssh", "--host"].iter().map(|s| s.to_string()).collect();
    assert_eq!(args_without_host(&args), vec!["vml", "ssh", "--host"]);

    let args2: Vec<String> = ["vml", "-H"].iter().map(|s| s.to_string()).collect();
    assert_eq!(args_without_host(&args2), vec!["vml"]);

    let args3: Vec<String> = ["vml", "list"].iter().map(|s| s.to_string()).collect();
    assert_eq!(args_without_host(&args3), vec!["vml", "list"]);
}

#[test]
fn list_names_folds_and_sorts() {
    let vms = vec![
        ("node1".to_string(), "node{n}".to_string()),
        ("node2".to_string(), "node{n}".to_string()),
        ("alone".to_string(), "alone".to_string()),
    ];
    assert_eq!(list_names(&vms, true), vec!["alone", "node{n}"]);
    assert_eq!(list_names(&vms, false), vec!["alone", "node1", "node2"]);
}

#[test]
fn listing_flag_logic() {
    // with folding configured on, only an explicit unfold turns it off
    assert!(effective_fold(true, false, false));
    assert!(!effective_fold(true, false, true));
    assert!(effective_fold(true, true, true));
    // with folding configured off, only an explicit fold turns it on
    assert!(!effective_fold(false, false, false));
    assert!(effective_fold(false, true, false));
    assert!(!effective_fold(false, true, true));
}

#[test]
fn cloud_init_flag_logic() {
    assert!(cloud_init_enabled(true, false, false));
    assert!(!cloud_init_enabled(true, true, false));
    assert!(cloud_init_enabled(false, false, true));
    assert!(cloud_init_enabled(true, true, true));
    assert!(!cloud_init_enabled(false, false, false));
}

#[test]
fn create_exists_action_precedence() {
    let d = CreateExistsAction::Replace;
    assert_eq!(create_exists_action(true, true, true, d), CreateExistsAction::Fail);
    assert_eq!(create_exists_action(false, true, true, d), CreateExistsAction::Ignore);
    assert_eq!(create_exists_action(false, false, true, d), CreateExistsAction::Replace);
    assert_eq!(create_exists_action(false, false, false, CreateExistsAction::Fail), CreateExistsAction::Fail);
}

#[test]
fn ssh_wait_loop_exit() {
    assert!(ssh_wait_done(Some(0), 5));
    assert!(!ssh_wait_done(Some(1), 5));
    assert!(!ssh_wait_done(None, 5));
    assert!(ssh_wait_done(None, 0));
}

#[test]
fn set_specifications_feeds_the_builder() {
    let specs = vec![
        spec("base", None, &[]),
        spec("vm1", Some("base"), &[]),
        spec("vm2", Some("base"), &[]),
        spec("vm3", Some("base"), &[]),
    ];
    let pids = vec![("vm1".to_string(), 11u64), ("vm3".to_string(), 33u64)];
    let mut vmc = VmsCreator::new();
    let args = SelectionArgs {
        name: Some("alice@vm1".to_string()),
        names: vec!["vm2".to_string()],
        parents: vec!["base".to_string()],
        tags: Vec::new(),
        running: true,
    };
    set_specifications(&mut vmc, &args);
    // the positional argument lost its user part, vm2 joined the set, and
    // asking for running VMs switched the mode to Filter
    let vms = vmc.create(&specs, &pids).unwrap();
    assert_eq!(names_of(&vms), vec!["vm1"]);
}

#[test]
fn pattern_names_fan_out_and_fold_back() {
    // one declared spec fans out into two concrete VMs
    let declared = vec![spec("web1,web2", None, &["www"]), spec("db", None, &[])];
    let concrete = expand_specs(&declared);
    let names: Vec<&str> = concrete.iter().map(|s| s.name.as_str()).collect();
    assert_eq!(names, vec!["web1", "web2", "db"]);
    assert_eq!(concrete[0].folded_name, "web1,web2");
    assert_eq!(concrete[1].folded_name, "web1,web2");
    assert_eq!(concrete[0].tags, vec!["www".to_string()]);
    assert_eq!(concrete[2].folded_name, "db");

    // a listing folds the fan-out back to the declared pattern
    let pairs: Vec<(String, String)> =
        concrete.iter().map(|s| (s.name.clone(), s.folded_name.clone())).collect();
    assert_eq!(list_names(&pairs, true), vec!["db", "web1,web2"]);
    assert_eq!(list_names(&pairs, false), vec!["db", "web1", "web2"]);
}

#[test]
fn plain_names_expand_to_themselves() {
    let declared = vec![spec("alone", None, &[])];
    let concrete = expand_specs(&declared);
    assert_eq!(concrete.len(), 1);
    assert_eq!(concrete[0].name, "alone");
    assert_eq!(concrete[0].folded_name, "alone");
}

#[test]
fn affirmative_answers() {
    assert!(is_affirmative("y"));
    assert!(is_affirmative("Y"));
    assert!(is_affirmative("yes"));
    assert!(is_affirmative("YeS"));
    assert!(is_affirmative("yes\n"));
    assert!(is_affirmative("y \t"));
    assert!(is_affirmative("yes\u{000B}"));
    assert!(is_affirmative("y\u{00A0}"));
    assert!(is_affirmative("yes\u{2028}"));
    assert!(!is_affirmative("no"));
    assert!(!is_affirmative(""));
    assert!(!is_affirmative("yess"));
    assert!(!is_affirmative("y es"));
}

#[test]
fn ssh_user_template_renders_against_the_vm_name() {
    let mut s = spec("web", None, &[]);
    s.ssh_user = Some("admin-{{name}}".to_string());
    let specs = vec![s];
    let mut vmc = VmsCreator::new();
    vmc.all();
    let vms = vmc.create(&specs, &Vec::new()).unwrap();
    assert_eq!(vms[0].ssh_user.as_deref(), Some("admin-web"));
}

#[test]
fn unresolvable_ssh_user_template_fails_the_whole_call() {
    let mut s = spec("web", None, &[]);
    s.ssh_user = Some("{{missing}}".to_string());
    let specs = vec![s];
    let mut vmc = VmsCreator::new();
    vmc.all();
    let r = vmc.create(&specs, &Vec::new());
    assert!(matches!(r, Err(Error::Render(n)) if n == "web"));
}
