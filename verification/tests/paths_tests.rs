use tui_runtime::paths::{path_join, Id, Mapping, Paths};

fn sample() -> Paths {
    Paths::new(
        Id::new("test", "1.0", "2"),
        String::from("/var/cache/boulder"),
        String::from("/mason"),
        String::from("/home/user/recipes/test"),
    )
}

#[test]
fn id_text_joins_parts_with_dashes() {
    let id = Id::new("nano", "7.2", "1");
    assert_eq!(id.as_text(), "nano-7.2-1");
}

#[test]
fn path_join_inserts_separator() {
    assert_eq!(path_join("/a/b", "c"), "/a/b/c");
    assert_eq!(path_join("/a/b/", "c"), "/a/b/c");
    assert_eq!(path_join("", "c"), "c");
    assert_eq!(path_join("/a", "/abs"), "/abs");
}

#[test]
fn rootfs_lives_under_root_by_id() {
    let mapping = sample().rootfs();
    assert_eq!(mapping.host, "/var/cache/boulder/root/test-1.0-2");
    assert_eq!(mapping.guest, "/");
}

#[test]
fn artefacts_and_build_are_keyed_by_id() {
    let paths = sample();
    let artefacts = paths.artefacts();
    assert_eq!(artefacts.host, "/var/cache/boulder/artefacts/test-1.0-2");
    assert_eq!(artefacts.guest, "/mason/artefacts");
    let build = paths.build();
    assert_eq!(build.host, "/var/cache/boulder/build/test-1.0-2");
    assert_eq!(build.guest, "/mason/build");
}

#[test]
fn shared_caches_are_not_keyed_by_id() {
    let paths = sample();
    let ccache = paths.ccache();
    assert_eq!(ccache.host, "/var/cache/boulder/ccache");
    assert_eq!(ccache.guest, "/mason/ccache");
    let upstreams = paths.upstreams();
    assert_eq!(upstreams.host, "/var/cache/boulder/upstreams");
    assert_eq!(upstreams.guest, "/mason/sourcedir");
}

#[test]
fn recipe_and_install_mappings() {
    let paths = sample();
    let recipe = paths.recipe();
    assert_eq!(recipe.host, "/home/user/recipes/test");
    assert_eq!(recipe.guest, "/mason/recipe");
    let install = paths.install();
    assert_eq!(install.host, "");
    assert_eq!(install.guest, "/mason/install");
}

#[test]
fn guest_host_path_rebases_guest_under_rootfs() {
    let paths = sample();
    let build = paths.build();
    assert_eq!(
        paths.guest_host_path(&build),
        "/var/cache/boulder/root/test-1.0-2/mason/build"
    );
    let relative = Mapping { host: String::new(), guest: String::from("already/relative") };
    assert_eq!(
        paths.guest_host_path(&relative),
        "/var/cache/boulder/root/test-1.0-2/already/relative"
    );
}
