use msh::context::{
    register_paths, unregister_paths, Context, MshConfig, PathResolution,
};

#[test]
fn register_same_canonical_path_twice() {
    // The driver canonicalizes before calling in, so a path given relatively
    // and then absolutely arrives here as the same canonical string.
    let mut ctx = Context::new();
    assert_eq!(ctx.register("/srv/data"), true);
    assert_eq!(ctx.dir_count(), 1);
    assert_eq!(ctx.register("/srv/data"), false);
    assert_eq!(ctx.dir_count(), 1);
}

#[test]
fn unregister_present_and_absent() {
    let mut ctx = Context::new();
    ctx.register("/a");
    ctx.register("/b");
    assert_eq!(ctx.unregister("/a"), true);
    assert_eq!(ctx.dir_count(), 1);
    assert_eq!(ctx.unregister("/a"), false);
    assert_eq!(ctx.dir_count(), 1);
}

#[test]
fn clear_registry_empties() {
    let mut ctx = Context::new();
    ctx.register("/a");
    ctx.register("/b");
    ctx.clear_registry();
    assert_eq!(ctx.dir_count(), 0);
}

#[test]
fn empty_registry_targets_current_dir_once() {
    let ctx = Context::new();
    let targets = ctx.execution_targets("/cwd");
    assert_eq!(targets, vec!["/cwd".to_string()]);
    // the fallback target is never persisted
    assert_eq!(ctx.dir_count(), 0);
}

#[test]
fn populated_registry_targets_every_entry() {
    let mut ctx = Context::new();
    ctx.register("/a");
    ctx.register("/b");
    ctx.register("/c");
    let targets = ctx.execution_targets("/cwd");
    assert_eq!(targets.len(), 3);
    assert!(targets.contains(&"/a".to_string()));
    assert!(targets.contains(&"/b".to_string()));
    assert!(targets.contains(&"/c".to_string()));
    assert!(!targets.contains(&"/cwd".to_string()));
}

#[test]
fn buffer_push_and_take() {
    let mut ctx = Context::new();
    assert!(!ctx.has_buffer());
    ctx.push_buffer("ab");
    assert!(ctx.has_buffer());
    ctx.push_buffer("cd");
    let full = ctx.take_buffer("ef");
    assert_eq!(full, "abcdef");
    assert!(!ctx.has_buffer());
}

#[test]
fn register_paths_reports_each_path() {
    let mut ctx = Context::new();
    let items = vec![
        PathResolution {
            given: "data".to_string(),
            outcome: Ok("/srv/data".to_string()),
        },
        PathResolution {
            given: "/srv/data/".to_string(),
            outcome: Ok("/srv/data".to_string()),
        },
        PathResolution {
            given: "gone".to_string(),
            outcome: Err("No such file or directory".to_string()),
        },
    ];
    let msgs = register_paths(&mut ctx, &items);
    assert_eq!(
        msgs,
        vec![
            "Registered new path: /srv/data".to_string(),
            "Already Registered: /srv/data".to_string(),
            "Cannot register path gone: No such file or directory".to_string(),
        ]
    );
    assert_eq!(ctx.dir_count(), 1);
}

#[test]
fn unregister_paths_reports_each_path() {
    let mut ctx = Context::new();
    ctx.register("/a");
    let items = vec![
        PathResolution {
            given: "/a".to_string(),
            outcome: Ok("/a".to_string()),
        },
        PathResolution {
            given: "/b".to_string(),
            outcome: Ok("/b".to_string()),
        },
        PathResolution {
            given: "bad".to_string(),
            outcome: Err("No such file or directory".to_string()),
        },
    ];
    let msgs = unregister_paths(&mut ctx, &items);
    assert_eq!(
        msgs,
        vec![
            "Removed path from registry: /a".to_string(),
            "Path not registered, cannot remove: /b".to_string(),
            "Cannot unregister path bad: No such file or directory".to_string(),
        ]
    );
    assert_eq!(ctx.dir_count(), 0);
}

#[test]
fn dump_lists_directories_in_order() {
    let mut ctx = Context::new();
    ctx.register("/a");
    ctx.register("/b");
    assert_eq!(ctx.dump_string(), "Registered directories:\n/a\n/b\n");
}

#[test]
fn config_keeps_preload_dirs() {
    let cfg = MshConfig::new(vec!["/x".to_string(), "/y".to_string()]);
    assert_eq!(cfg.dirs(), &vec!["/x".to_string(), "/y".to_string()]);
}
