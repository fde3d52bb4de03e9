use std::collections::{BTreeMap, VecDeque};

use pitty::facts::{entry_of, link_of, reach_of, EntryKind, Facts, Query, RawLink, Reach};
use pitty::mask::mask_secrets;
use pitty::path::Platform::{Unix, Windows};
use pitty::path::{is_within, lexical_normalize, relative_components, Component, Prefix};
use pitty::rawpath::{join_path, parse_path, render_path, show_path};
use pitty::resolve::{dangling_link_destination, SnapshotAccess};
use pitty::safepath::{directory_traversability, traversability, OsError, Traversability};
use pitty::scenario::{Scenario, Variable, WorkspaceSpec};
use pitty::string_map::StringMap;
use pitty::workspace::{
    site_for, Site, SiteRequest, SnapshotTarget, UnresolvablePath, Workspace,
};
use pitty::error::PittyError;

// ---------------------------------------------------------------------------
// A filesystem in memory
// ---------------------------------------------------------------------------

#[derive(Clone)]
enum Node {
    Dir { search: bool },
    File,
    Link(String),
}

/// How many links the simulated kernel follows.
const MAX_SYMLINKS: usize = 40;

struct Disk {
    nodes: BTreeMap<String, (Node, u64)>,
    next: u64,
    here: String,
}

impl Disk {
    fn new() -> Disk {
        let mut nodes = BTreeMap::new();
        nodes.insert(String::new(), (Node::Dir { search: true }, 1));
        Disk { nodes, next: 2, here: "/".to_string() }
    }

    fn put(&mut self, path: &str, node: Node) {
        self.nodes.insert(path.to_string(), (node, self.next));
        self.next += 1;
    }

    fn dir(&mut self, path: &str) {
        let mut at = String::new();
        for name in path.split('/').filter(|n| !n.is_empty()) {
            at = format!("{at}/{name}");
            if !self.nodes.contains_key(&at) {
                self.put(&at.clone(), Node::Dir { search: true });
            }
        }
    }

    fn file(&mut self, path: &str) {
        self.put(path, Node::File);
    }

    fn link(&mut self, target: &str, path: &str) {
        self.put(path, Node::Link(target.to_string()));
    }

    fn remove(&mut self, path: &str) {
        let below = format!("{path}/");
        self.nodes.retain(|p, _| p != path && !p.starts_with(&below));
    }

    /// Where the kernel ends up.
    fn walk(&self, path: &str, follow_last: bool) -> Result<String, OsError> {
        if path.is_empty() {
            return Err(OsError::NotFound);
        }
        let whole = if path.starts_with('/') {
            path.to_string()
        } else {
            format!("{}/{path}", self.here)
        };
        let mut queue: VecDeque<String> = whole
            .split('/')
            .filter(|n| !n.is_empty())
            .map(str::to_string)
            .collect();
        let mut at = String::new();
        let mut hops = 0;
        while let Some(name) = queue.pop_front() {
            match &self.nodes[&at].0 {
                Node::Dir { search: true } => {}
                Node::Dir { search: false } => return Err(OsError::Other),
                _ => return Err(OsError::NotDirectory),
            }
            if name == "." {
                continue;
            }
            if name == ".." {
                at = match at.rfind('/') {
                    Some(cut) => at[..cut].to_string(),
                    None => String::new(),
                };
                continue;
            }
            let next = format!("{at}/{name}");
            match self.nodes.get(&next) {
                None => return Err(OsError::NotFound),
                Some((Node::Link(target), _)) if follow_last || !queue.is_empty() => {
                    hops += 1;
                    if hops > MAX_SYMLINKS {
                        return Err(OsError::Loop);
                    }
                    if target.starts_with('/') {
                        at = String::new();
                    }
                    for piece in target.split('/').rev().filter(|n| !n.is_empty()) {
                        queue.push_front(piece.to_string());
                    }
                }
                Some(_) => at = next,
            }
        }
        Ok(at)
    }

    fn canonical(&self, path: &str) -> Option<Vec<u8>> {
        let at = self.walk(path, true).ok()?;
        Some(if at.is_empty() { b"/".to_vec() } else { at.into_bytes() })
    }

    fn inode(&self, path: &str) -> Option<(u64, u64)> {
        let at = self.walk(path, true).ok()?;
        Some((9, self.nodes[&at].1))
    }

    fn answer(&self, facts: Facts, query: Query, anchor: Option<(u64, u64)>) -> Facts {
        let text = |path: &[Component]| String::from_utf8(render_path(path, Unix)).unwrap();
        match query {
            Query::Anchor => facts.learn_anchor(anchor),
            Query::Identity(path) => {
                let inode = self.inode(&text(&path));
                facts.learn_identity(path, inode)
            }
            Query::Traverse(path) => {
                let entered = self.walk(&format!("{}/.", text(&path)), true).map(|_| ());
                facts.learn_traverse(path, traversability(entered))
            }
            Query::Canonical(path) => {
                let found = self.canonical(&text(&path));
                facts.learn_canonical(path, found)
            }
            Query::Entry(path) => {
                let seen = self
                    .walk(&text(&path), false)
                    .map(|at| matches!(self.nodes[&at].0, Node::Link(_)));
                facts.learn_entry(path, entry_of(seen))
            }
            Query::Reach(path) => {
                let reached = self.walk(&text(&path), true).map(|_| ());
                facts.learn_reach(path, reach_of(reached))
            }
            Query::Link(path) => {
                let read = match self.walk(&text(&path), false) {
                    Ok(at) => match &self.nodes[&at].0 {
                        Node::Link(target) => Ok(target.clone().into_bytes()),
                        _ => Err(OsError::Invalid),
                    },
                    Err(error) => Err(error),
                };
                facts.learn_link(path, link_of(read))
            }
        }
    }
}

fn scenario() -> Scenario {
    Scenario {
        name: "s".to_string(),
        workspace: WorkspaceSpec { temp: false, cwd: ".".to_string() },
        variables: Vec::new(),
        env: Vec::new(),
        steps: Vec::new(),
    }
}

/// A workspace with the directory that was held open for it.
struct Held {
    space: Workspace,
    anchor: Option<(u64, u64)>,
}

fn workspace_at(disk: &Disk, cwd: &str) -> Held {
    let anchor = disk.inode(cwd);
    let site = Site::Directory {
        cwd: cwd.as_bytes().to_vec(),
        canonical: disk.canonical(cwd),
        opened: Ok(anchor),
    };
    let space = Workspace::prepare(&scenario(), StringMap::new(), site, Unix).unwrap();
    Held { space, anchor }
}

fn resolve(
    disk: &Disk,
    ws: &Held,
    rel: &str,
    access: SnapshotAccess,
) -> Result<Result<SnapshotTarget, UnresolvablePath>, PittyError> {
    let mut facts = Facts::new(Unix);
    loop {
        match ws.space.resolve_write_path(&facts, rel, access) {
            Ok(found) => return found,
            Err(query) => facts = disk.answer(facts, query, ws.anchor),
        }
    }
}

fn resolve_ok(disk: &Disk, ws: &Held, rel: &str) -> SnapshotTarget {
    match resolve(disk, ws, rel, SnapshotAccess::Record) {
        Ok(Ok(target)) => target,
        Ok(Err(e)) => panic!("'{rel}' must resolve: {}", e.into_message()),
        Err(e) => panic!("'{rel}' must resolve: {e:?}"),
    }
}

fn resolve_refused(disk: &Disk, ws: &Held, rel: &str) -> (u8, String) {
    match resolve(disk, ws, rel, SnapshotAccess::Record) {
        Err(e) => (e.exit_code(), e.message().to_string()),
        Ok(Err(path)) => (1, path.into_message()),
        Ok(Ok(target)) => panic!("'{rel}' must be refused, got {:?}", names(&target)),
    }
}

fn names(target: &SnapshotTarget) -> Vec<String> {
    text_list(target.components())
}

fn text_list(list: &[Vec<u8>]) -> Vec<String> {
    list.iter()
        .map(|n| String::from_utf8(n.clone()).unwrap())
        .collect()
}

fn traversed(target: &SnapshotTarget) -> Vec<Vec<String>> {
    target.traversed_dirs().iter().map(|d| text_list(d)).collect()
}

fn safe_path(target: &SnapshotTarget) -> String {
    String::from_utf8(target.safe_path()).unwrap()
}

fn display_path(target: &SnapshotTarget) -> String {
    String::from_utf8(target.display_path().to_vec()).unwrap()
}

// ---------------------------------------------------------------------------
// Expansion and preparation
// ---------------------------------------------------------------------------

fn string_map(pairs: &[(&str, &str)]) -> StringMap {
    let mut map = StringMap::new();
    for (k, v) in pairs {
        map = map.with(k.to_string(), v.to_string());
    }
    map
}

fn here() -> Site {
    Site::Directory {
        cwd: b".".to_vec(),
        canonical: Some(b"/t".to_vec()),
        opened: Ok(Some((1, 2))),
    }
}

fn plain(value: &str) -> Variable {
    Variable { value: value.to_string(), secret: false }
}

fn workspace_with_vars(vars: &[(&str, &str)], parent_env: &[(&str, &str)]) -> Workspace {
    let mut s = scenario();
    s.variables = vars
        .iter()
        .map(|(k, v)| (k.to_string(), plain(v)))
        .collect();
    Workspace::prepare(&s, string_map(parent_env), here(), Unix).unwrap()
}

fn env_of(pairs: &[(&str, &str)]) -> Vec<(String, String)> {
    pairs
        .iter()
        .map(|(k, v)| (k.to_string(), v.to_string()))
        .collect()
}

#[test]
fn expands_known_variable() {
    let ws = workspace_with_vars(&[("user", "alice")], &[]);
    assert_eq!(ws.expand("hello ${user}!"), "hello alice!");
}

#[test]
fn leaves_unknown_variable_literal() {
    let ws = workspace_with_vars(&[], &[]);
    assert_eq!(ws.expand("value=${missing}"), "value=${missing}");
}

#[test]
fn expands_from_parent_env_when_not_a_scenario_variable() {
    let ws = workspace_with_vars(&[], &[("PITTY_BIN", "/abs/pitty")]);
    assert_eq!(ws.expand("${PITTY_BIN} run x"), "/abs/pitty run x");
}

#[test]
fn scenario_variable_takes_precedence_over_parent_env() {
    let ws = workspace_with_vars(&[("X", "from-var")], &[("X", "from-env")]);
    assert_eq!(ws.expand("${X}"), "from-var");
}

#[test]
fn unknown_in_both_variables_and_env_stays_literal() {
    let ws = workspace_with_vars(&[("a", "1")], &[("b", "2")]);
    assert_eq!(ws.expand("${c}"), "${c}");
}

#[test]
fn expansion_is_single_pass_not_recursive() {
    let ws = workspace_with_vars(&[("command", "run ${other}"), ("other", "INNER")], &[]);
    assert_eq!(ws.expand("${command}"), "run ${other}");
}

#[test]
fn double_dollar_is_literal_dollar() {
    let ws = workspace_with_vars(&[("x", "1")], &[]);
    assert_eq!(ws.expand("cost is $$5 not ${x}"), "cost is $5 not 1");
}

#[test]
fn expand_leaves_unclosed_placeholder_verbatim() {
    let ws = workspace_with_vars(&[("x", "1")], &[]);
    assert_eq!(ws.expand("value=${x and ${"), "value=${x and ${");
}

#[test]
fn expand_empty_name_placeholder_is_unknown_variable() {
    let ws = workspace_with_vars(&[("x", "1")], &[]);
    assert_eq!(ws.expand("a${}b"), "a${}b");
}

#[test]
fn expand_handles_multibyte_text() {
    let ws = workspace_with_vars(&[("name", "世界")], &[]);
    assert_eq!(ws.expand("こんにちは ${name}"), "こんにちは 世界");
}

#[test]
fn a_lone_dollar_is_copied() {
    let ws = workspace_with_vars(&[("x", "1")], &[]);
    assert_eq!(ws.expand("$x $"), "$x $");
    assert_eq!(ws.expand("$$${x}"), "$1");
    assert_eq!(ws.expand("$${x}"), "${x}");
}

#[test]
fn prepare_expands_variables_in_scenario_level_env() {
    let mut s = scenario();
    s.variables = vec![("who".to_string(), plain("alice"))];
    s.env = env_of(&[("SCENARIO_LEVEL", "hi-${who}")]);
    let ws = Workspace::prepare(&s, StringMap::new(), here(), Unix).unwrap();
    assert_eq!(ws.env(), env_of(&[("SCENARIO_LEVEL", "hi-alice")]));
}

#[test]
fn prepare_leaves_unknown_variable_in_env_literal() {
    let mut s = scenario();
    s.env = env_of(&[("V", "x-${missing}")]);
    let ws = Workspace::prepare(&s, StringMap::new(), here(), Unix).unwrap();
    assert_eq!(ws.env(), env_of(&[("V", "x-${missing}")]));
}

#[test]
fn prepare_expands_env_from_parent_env_fallback() {
    let key = "PITTY_TEST_SCENARIO_ENV_FALLBACK";
    let mut s = scenario();
    s.env = env_of(&[("V", &format!("v=${{{key}}}"))]);
    let ws = Workspace::prepare(&s, string_map(&[(key, "from-parent")]), here(), Unix).unwrap();
    assert_eq!(ws.env(), env_of(&[("V", "v=from-parent")]));
}

#[test]
fn prepare_does_not_expand_env_values_against_each_other() {
    let mut s = scenario();
    s.env = env_of(&[("A", "base"), ("B", "${A}/sub")]);
    let ws = Workspace::prepare(&s, StringMap::new(), here(), Unix).unwrap();
    assert_eq!(ws.env(), env_of(&[("A", "base"), ("B", "${A}/sub")]));
}

#[test]
fn prepare_expands_env_in_a_single_non_recursive_pass() {
    let mut s = scenario();
    s.variables = vec![
        ("outer".to_string(), plain("run ${inner}")),
        ("inner".to_string(), plain("INNER")),
    ];
    s.env = env_of(&[("V", "${outer}")]);
    let ws = Workspace::prepare(&s, StringMap::new(), here(), Unix).unwrap();
    assert_eq!(ws.env(), env_of(&[("V", "run ${inner}")]));
}

#[test]
fn prepare_expands_secret_variable_into_env_and_keeps_it_masked() {
    let mut s = scenario();
    s.variables = vec![(
        "token".to_string(),
        Variable { value: "top-secret".to_string(), secret: true },
    )];
    s.env = env_of(&[("TOKEN", "Bearer ${token}")]);
    let ws = Workspace::prepare(&s, StringMap::new(), here(), Unix).unwrap();
    assert_eq!(ws.env(), env_of(&[("TOKEN", "Bearer top-secret")]));
    assert_eq!(
        mask_secrets("TOKEN=Bearer top-secret", ws.secrets()),
        "TOKEN=Bearer ***"
    );
}

#[test]
fn prepare_registers_secret_values() {
    let mut s = scenario();
    s.variables = vec![
        ("plain".to_string(), plain("visible")),
        (
            "token".to_string(),
            Variable { value: "top-secret".to_string(), secret: true },
        ),
        (
            "blank".to_string(),
            Variable { value: String::new(), secret: true },
        ),
    ];
    let ws = Workspace::prepare(&s, StringMap::new(), here(), Unix).unwrap();
    assert_eq!(ws.secrets(), &["top-secret".to_string()]);
}

#[test]
fn parent_env_values_are_never_registered_as_secrets() {
    let key = "PITTY_TEST_PARENT_ENV_SECRET";
    let env = string_map(&[(key, "ambient-would-be-secret")]);
    let ws = Workspace::prepare(&scenario(), env, here(), Unix).unwrap();
    assert_eq!(ws.expand(&format!("${{{key}}}")), "ambient-would-be-secret");
    assert!(ws.secrets().is_empty());
    assert!(!ws.secrets().iter().any(|s| s == "ambient-would-be-secret"));
}

#[test]
fn prepare_reports_a_temp_directory_that_failed() {
    let made = Workspace::prepare(
        &scenario(),
        StringMap::new(),
        Site::TempFailed("disk full".to_string()),
        Unix,
    )
    .unwrap_err();
    assert_eq!(
        made,
        PittyError::Process("failed to create temp workspace: disk full".to_string())
    );
    let mode = Workspace::prepare(
        &scenario(),
        StringMap::new(),
        Site::ModeFailed("denied".to_string()),
        Unix,
    )
    .unwrap_err();
    assert_eq!(
        mode,
        PittyError::Process("failed to set temp dir mode: denied".to_string())
    );
}

#[test]
fn a_scenario_says_which_directory_it_needs() {
    let mut s = scenario();
    s.workspace.cwd = "sub".to_string();
    assert_eq!(site_for(&s, b"/base", Unix), SiteRequest::At(b"/base/sub".to_vec()));
    s.workspace.cwd = "/abs".to_string();
    assert_eq!(site_for(&s, b"/base", Unix), SiteRequest::At(b"/abs".to_vec()));
    s.workspace.temp = true;
    assert_eq!(site_for(&s, b"/base", Unix), SiteRequest::Temp { mode: 0o700 });
}

#[test]
fn a_normal_workspace_still_prepares() {
    let ws = Workspace::prepare(&scenario(), StringMap::new(), here(), Unix).unwrap();
    assert_eq!(ws.cwd(), b".");
    assert_eq!(ws.resolve_path("a/b"), b"./a/b");
    assert_eq!(ws.resolve_path("/a"), b"/a");
    let extra = env_of(&[("B", "2")]);
    assert_eq!(ws.spawn_env(&extra), env_of(&[("B", "2")]));
}

// ---------------------------------------------------------------------------
// Masking
// ---------------------------------------------------------------------------

#[test]
fn mask_secrets_replaces_all_occurrences() {
    let masked = mask_secrets("token=abc123 retry token=abc123", &["abc123".to_string()]);
    assert_eq!(masked, "token=*** retry token=***");
}

#[test]
fn mask_secrets_ignores_empty_secret() {
    let masked = mask_secrets("unchanged", &["".to_string()]);
    assert_eq!(masked, "unchanged");
}

#[test]
fn mask_secrets_prefers_longest_overlapping_secret() {
    let masked = mask_secrets(
        "value=supersecret-key end",
        &["super".to_string(), "supersecret-key".to_string()],
    );
    assert_eq!(masked, "value=*** end");
}

#[test]
fn mask_secrets_preserves_multibyte_context() {
    let masked = mask_secrets("鍵=tok値", &["tok".to_string()]);
    assert_eq!(masked, "鍵=***値");
}

#[test]
fn masking_reads_from_left_to_right() {
    let secrets = ["ab".to_string(), "bc".to_string()];
    assert_eq!(mask_secrets("abc", &secrets), "***c");
    let masked = mask_secrets("aabcbcb", &secrets);
    assert_eq!(masked, "a***c***b");
    assert_eq!(mask_secrets(&masked, &secrets), masked);
    let turned = ["bc".to_string(), "ab".to_string()];
    assert_eq!(mask_secrets("aabcbcb", &turned), masked);
    // A secret made of what masking writes cannot vanish.
    assert_eq!(mask_secrets("*", &["*".to_string()]), "***");
}

// ---------------------------------------------------------------------------
// Snapshot paths
// ---------------------------------------------------------------------------

#[test]
fn resolve_write_path_allows_workspace_subdirectory() {
    let mut disk = Disk::new();
    disk.dir("/t");
    let ws = workspace_at(&disk, "/t");
    let resolved = resolve_ok(&disk, &ws, "__snapshots__/x.snap");
    assert!(display_path(&resolved).starts_with("/t"));
    assert_eq!(names(&resolved), vec!["__snapshots__", "x.snap"]);
}

#[test]
fn resolve_write_path_rejects_parent_traversal() {
    let mut disk = Disk::new();
    disk.dir("/a/b/c/w");
    let ws = workspace_at(&disk, "/a/b/c/w");
    let err = resolve_refused(&disk, &ws, "../../../tmp/escape.snap");
    assert_eq!(err.0, 2);
    assert_eq!(
        err.1,
        "snapshot path '../../../tmp/escape.snap' escapes the workspace; snapshot writes are confined to the workspace directory"
    );
}

#[test]
fn resolve_write_path_rejects_symlink_escape() {
    let mut disk = Disk::new();
    disk.dir("/t");
    disk.dir("/outside");
    disk.link("/outside", "/t/out");
    let ws = workspace_at(&disk, "/t");
    assert_eq!(resolve_refused(&disk, &ws, "out/escape.snap").0, 2);
}

#[test]
fn resolve_write_path_rejects_dangling_symlink_final_component() {
    let mut disk = Disk::new();
    disk.dir("/t");
    disk.dir("/outside");
    disk.link("/outside/PWNED.txt", "/t/x.snap");
    let ws = workspace_at(&disk, "/t");
    let err = resolve_refused(&disk, &ws, "x.snap");
    assert_eq!(err.0, 2);
    assert_eq!(
        err.1,
        "snapshot path 'x.snap' passes through a symlink; snapshot writes must not follow symlinks"
    );
}

#[test]
fn resolve_write_path_rejects_dangling_symlink_directory_component() {
    let mut disk = Disk::new();
    disk.dir("/t");
    disk.dir("/outside");
    disk.link("/outside/not-created-yet", "/t/out");
    let ws = workspace_at(&disk, "/t");
    assert_eq!(resolve_refused(&disk, &ws, "out/x.snap").0, 2);
}

#[test]
fn resolve_write_path_allows_a_symlink_that_resolves_inside_the_workspace() {
    let mut disk = Disk::new();
    disk.dir("/t/real");
    disk.link("real", "/t/snapshots");
    let ws = workspace_at(&disk, "/t");
    resolve_ok(&disk, &ws, "snapshots/out.snap");
}

#[test]
fn a_resolvable_link_is_recorded_by_its_canonical_components() {
    let mut disk = Disk::new();
    disk.dir("/t/real");
    disk.link("real", "/t/snapshots");
    let ws = workspace_at(&disk, "/t");
    let resolved = resolve_ok(&disk, &ws, "snapshots/out.snap");
    assert_eq!(
        names(&resolved),
        vec!["real".to_string(), "out.snap".to_string()],
        "the recorder must walk the link's target, never the link's name"
    );
}

#[test]
fn a_dangling_link_pointing_inside_the_workspace_is_allowed() {
    let mut disk = Disk::new();
    disk.dir("/t/real");
    disk.link("real/out.snap", "/t/out.snap");
    let ws = workspace_at(&disk, "/t");
    assert_eq!(names(&resolve_ok(&disk, &ws, "out.snap")), vec!["real", "out.snap"]);
}

#[test]
fn a_dangling_link_with_an_absolute_inside_target_is_allowed() {
    let mut disk = Disk::new();
    disk.dir("/t/real");
    disk.link("/t/real/out.snap", "/t/out.snap");
    let ws = workspace_at(&disk, "/t");
    assert_eq!(names(&resolve_ok(&disk, &ws, "out.snap")), vec!["real", "out.snap"]);
}

#[test]
fn a_dangling_chain_of_links_is_judged_on_its_final_destination() {
    let mut disk = Disk::new();
    disk.dir("/t/real");
    disk.link("real/out.snap", "/t/mid.snap");
    disk.link("mid.snap", "/t/chain.snap");
    let ws = workspace_at(&disk, "/t");
    assert_eq!(names(&resolve_ok(&disk, &ws, "chain.snap")), vec!["real", "out.snap"]);
}

#[test]
fn a_dangling_link_pointing_outside_the_workspace_is_refused() {
    let mut disk = Disk::new();
    disk.dir("/r/w");
    disk.dir("/r/outside");
    disk.link("../outside/PWNED", "/r/w/out.snap");
    let ws = workspace_at(&disk, "/r/w");
    assert_eq!(resolve_refused(&disk, &ws, "out.snap").0, 2);
}

#[test]
fn a_dangling_chain_that_leaves_the_workspace_is_refused() {
    let mut disk = Disk::new();
    disk.dir("/r/w");
    disk.dir("/r/outside");
    disk.link("../outside/PWNED", "/r/w/mid.snap");
    disk.link("mid.snap", "/r/w/chain.snap");
    let ws = workspace_at(&disk, "/r/w");
    assert_eq!(resolve_refused(&disk, &ws, "chain.snap").0, 2);
}

#[test]
fn an_intermediate_dangling_link_keeps_the_components_after_it() {
    let mut disk = Disk::new();
    disk.dir("/t");
    disk.link("missing-dir", "/t/link");
    let ws = workspace_at(&disk, "/t");
    let resolved = resolve_ok(&disk, &ws, "link/out.snap");
    assert_eq!(
        names(&resolved),
        vec!["missing-dir".to_string(), "out.snap".to_string()],
        "the tail after the link must be preserved, not dropped"
    );
}

#[test]
fn a_tail_that_escapes_only_after_the_link_resolves_is_refused() {
    let mut disk = Disk::new();
    disk.dir("/r/w/deep");
    disk.dir("/r/outside");
    disk.link("../../outside/gone", "/r/w/deep/link");
    let ws = workspace_at(&disk, "/r/w");
    assert_eq!(resolve_refused(&disk, &ws, "deep/link/../../out.snap").0, 1);
}

#[test]
fn a_tail_that_returns_inside_from_an_outward_destination_is_allowed() {
    let mut disk = Disk::new();
    disk.dir("/r/w");
    disk.dir("/r/outside");
    disk.link("../outside", "/r/w/link");
    let ws = workspace_at(&disk, "/r/w");
    let resolved = resolve_ok(&disk, &ws, "link/../w/out.snap");
    assert!(safe_path(&resolved).starts_with("/r/w"));
}

#[test]
fn a_tail_climbing_over_a_missing_component_cannot_reach_a_real_file() {
    let mut disk = Disk::new();
    disk.dir("/t");
    disk.file("/t/victim.snap");
    disk.link("missing", "/t/link");
    let ws = workspace_at(&disk, "/t");
    assert_eq!(resolve_refused(&disk, &ws, "link/../victim.snap").0, 1);
}

#[test]
fn a_cancelled_component_is_attempted_rather_than_assumed_creatable() {
    let mut disk = Disk::new();
    disk.dir("/t");
    disk.file("/t/victim.snap");
    let ws = workspace_at(&disk, "/t");
    let target = resolve_ok(&disk, &ws, "missing/../victim.snap");
    assert!(safe_path(&target).ends_with("victim.snap"));
    assert_eq!(
        traversed(&target),
        vec![vec!["missing".to_string()]],
        "the cancelled component must be handed to the recorder to attempt"
    );
}

#[test]
fn a_cancelled_component_is_collected_for_a_relative_workspace_too() {
    let mut disk = Disk::new();
    disk.dir("/t");
    disk.file("/t/victim.snap");
    disk.here = "/t".to_string();
    let ws = workspace_at(&disk, ".");
    let target = resolve_ok(&disk, &ws, "missing/../victim.snap");
    assert_eq!(traversed(&target), vec![vec!["missing".to_string()]]);
}

#[test]
fn a_cancelled_component_that_is_a_symlinked_directory_still_records() {
    let mut disk = Disk::new();
    disk.dir("/t/d");
    disk.link("d", "/t/dl");
    let ws = workspace_at(&disk, "/t");
    let target = resolve_ok(&disk, &ws, "dl/../out.snap");
    assert_eq!(safe_path(&target), "/t/out.snap");
}

#[test]
fn cancelled_components_survive_a_symlinked_workspace_and_an_absolute_file() {
    let mut disk = Disk::new();
    disk.dir("/b/real");
    disk.file("/b/real/victim.snap");
    disk.link("/b/real", "/b/w");
    let ws = workspace_at(&disk, "/b/w");
    let target = resolve_ok(&disk, &ws, "/b/w/missing/../victim.snap");
    assert_eq!(traversed(&target), vec![vec!["missing".to_string()]]);
}

#[test]
fn a_cancelled_component_is_never_silently_dropped_in_any_representation() {
    let mut disk = Disk::new();
    disk.dir("/b/real");
    disk.link("/b/real", "/b/w");
    let expected = vec![vec!["missing".to_string()]];
    for (label, cwd, file) in [
        ("plain root", "/b/real", "missing/../out.snap"),
        ("symlinked workspace", "/b/w", "missing/../out.snap"),
        (
            "symlinked workspace, absolute file",
            "/b/w",
            "/b/w/missing/../out.snap",
        ),
        (
            "symlinked workspace, dotted file",
            "/b/w",
            "./missing/.././missing/../out.snap",
        ),
    ] {
        let ws = workspace_at(&disk, cwd);
        let target = resolve_ok(&disk, &ws, file);
        assert_eq!(traversed(&target), expected, "{label}");
    }
}

#[test]
fn a_workspace_recreated_under_the_same_name_is_refused() {
    let mut disk = Disk::new();
    disk.dir("/b/w");
    let ws = workspace_at(&disk, "/b/w");
    disk.remove("/b/w");
    disk.dir("/b/w");
    disk.file("/b/w/planted.snap");
    let err = resolve(&disk, &ws, "out.snap", SnapshotAccess::Record).unwrap_err();
    assert_eq!(err.exit_code(), 2);
    assert_eq!(
        err.message(),
        "the workspace directory /b/w is no longer the directory this run started in, so snapshot path 'out.snap' is refused; a snapshot is written only to the workspace captured before the scenario ran"
    );
}

#[test]
fn a_workspace_that_is_gone_is_refused() {
    let mut disk = Disk::new();
    disk.dir("/b/w");
    let mut ws = workspace_at(&disk, "/b/w");
    disk.remove("/b/w");
    let gone = resolve(&disk, &ws, "out.snap", SnapshotAccess::Record).unwrap_err();
    assert_eq!(
        gone,
        PittyError::Scenario(
            "the workspace directory /b/w no longer exists, so snapshot path 'out.snap' cannot be resolved against the directory this run started in".to_string()
        )
    );
    ws.anchor = Some((0, 0));
    let drifted = resolve(&disk, &ws, "out.snap", SnapshotAccess::Record).unwrap_err();
    assert_eq!(
        drifted,
        PittyError::Process(
            "the workspace descriptor for snapshot path 'out.snap' no longer reports the directory it was opened on".to_string()
        )
    );
    ws.anchor = None;
    let silent = resolve(&disk, &ws, "out.snap", SnapshotAccess::Record).unwrap_err();
    assert_eq!(
        silent,
        PittyError::Process(
            "cannot confirm the workspace directory for snapshot path 'out.snap'".to_string()
        )
    );
}

#[test]
fn cancellations_after_re_entering_the_workspace_are_still_recorded() {
    let mut disk = Disk::new();
    disk.dir("/b/w");
    disk.dir("/b/outside");
    disk.file("/b/w/victim.snap");
    let ws = workspace_at(&disk, "/b/w");
    let target = resolve_ok(&disk, &ws, "../outside/new/../../w/inside/../victim.snap");
    assert!(
        traversed(&target).contains(&vec!["inside".to_string()]),
        "got {:?}",
        traversed(&target)
    );
}

#[test]
fn a_climb_after_a_symlink_uses_the_kernels_position_not_the_lexical_one() {
    let mut disk = Disk::new();
    disk.dir("/t/real/subdir");
    disk.dir("/t/missing");
    disk.link("real/subdir", "/t/link");
    disk.file("/t/real/victim.snap");
    assert!(disk.walk("/t/link/../missing/../victim.snap", true).is_err());
    let ws = workspace_at(&disk, "/t");
    match resolve(
        &disk,
        &ws,
        "link/../missing/../victim.snap",
        SnapshotAccess::Verify,
    ) {
        Ok(Err(_)) => {}
        other => panic!("expected a failed assertion: {other:?}"),
    }
}

#[test]
fn a_recording_climb_is_judged_at_the_kernels_position_too() {
    // `blocker` is a directory beside the link and a file where the link leads.
    let mut disk = Disk::new();
    disk.dir("/t/real/subdir");
    disk.dir("/t/blocker");
    disk.file("/t/real/blocker");
    disk.file("/t/victim.snap");
    disk.link("real/subdir", "/t/link");
    let ws = workspace_at(&disk, "/t");
    let err = resolve_refused(&disk, &ws, "link/../blocker/../victim.snap");
    assert_eq!(err.0, 1);
}

#[test]
fn resolution_after_a_workspace_swap_uses_the_pre_spawn_directory() {
    let mut disk = Disk::new();
    disk.dir("/b/real");
    disk.dir("/b/decoy");
    disk.link("/b/real", "/b/w");
    let ws = workspace_at(&disk, "/b/w");
    disk.remove("/b/w");
    disk.link("/b/decoy", "/b/w");
    match resolve(&disk, &ws, "out.snap", SnapshotAccess::Record) {
        Ok(Ok(target)) => assert!(safe_path(&target).starts_with("/b/real")),
        Err(e) => assert_eq!(e.exit_code(), 2),
        Ok(Err(_)) => {}
    }
}

#[test]
fn a_missing_component_climb_cannot_satisfy_a_verifying_assertion() {
    let mut disk = Disk::new();
    disk.dir("/t");
    disk.file("/t/victim.snap");
    let ws = workspace_at(&disk, "/t");
    match resolve(&disk, &ws, "missing/../victim.snap", SnapshotAccess::Verify) {
        Ok(Err(path)) => assert_eq!(
            path.into_message(),
            "cannot write snapshot missing/../victim.snap: '..' climbs through a component that is not a resolvable directory"
        ),
        other => panic!("expected a failed assertion: {other:?}"),
    }
    resolve_ok(&disk, &ws, "missing/../victim.snap");
}

#[test]
fn a_climb_through_an_unsearchable_directory_cannot_reach_a_real_file() {
    let mut disk = Disk::new();
    disk.dir("/t");
    disk.file("/t/victim.snap");
    disk.put("/t/locked", Node::Dir { search: false });
    let ws = workspace_at(&disk, "/t");
    assert_eq!(resolve_refused(&disk, &ws, "locked/../victim.snap").0, 1);
}

#[test]
fn a_chain_that_would_exhaust_the_visited_set_is_refused_not_truncated() {
    let mut disk = Disk::new();
    disk.dir("/t/d");
    disk.link("../d/b.snap", "/t/d/a.snap");
    disk.link("../d/a.snap", "/t/d/b.snap");
    let link = parse_path(b"/t/d/a.snap", Unix);
    let mut facts = Facts::new(Unix);
    let end = loop {
        match dangling_link_destination(&facts, &link) {
            Ok(end) => break end,
            Err(query) => facts = disk.answer(facts, query, None),
        }
    };
    assert_eq!(
        end, None,
        "a walk that cannot finish must refuse, never hand back a partial location"
    );
}

#[test]
fn a_cycle_the_kernel_cannot_see_is_caught_by_the_visited_set() {
    let mut disk = Disk::new();
    disk.dir("/t/d");
    disk.link("../d/b.snap", "/t/d/a.snap");
    disk.link("../d/a.snap", "/t/d/b.snap");
    let ws = workspace_at(&disk, "/t");
    assert_eq!(resolve_refused(&disk, &ws, "d/a.snap").0, 1);
}

#[test]
fn a_tail_climbing_over_an_existing_component_is_still_allowed() {
    let mut disk = Disk::new();
    disk.dir("/t/realdir");
    disk.link("realdir", "/t/link");
    let ws = workspace_at(&disk, "/t");
    let resolved = resolve_ok(&disk, &ws, "link/../out.snap");
    assert_eq!(safe_path(&resolved), "/t/out.snap");
}

#[test]
fn a_tail_climbing_over_a_non_directory_cannot_reach_a_real_file() {
    let mut disk = Disk::new();
    disk.dir("/t");
    disk.file("/t/blocker");
    disk.file("/t/victim.snap");
    disk.link("blocker/../victim.snap", "/t/out.snap");
    let ws = workspace_at(&disk, "/t");
    assert_eq!(resolve_refused(&disk, &ws, "out.snap").0, 1);
}

#[test]
fn a_direct_file_value_climbing_over_a_non_directory_is_refused() {
    let mut disk = Disk::new();
    disk.dir("/t");
    disk.file("/t/blocker");
    disk.file("/t/victim.snap");
    let ws = workspace_at(&disk, "/t");
    let err = resolve_refused(&disk, &ws, "blocker/../victim.snap");
    assert_eq!(err.0, 1);
    assert!(err.1.contains("cannot write snapshot"), "{}", err.1);
}

/// A chain of `n` directory links from `d0` to `real`.
fn directory_chain(disk: &mut Disk, root: &str, n: usize) {
    disk.dir(&format!("{root}/real"));
    disk.link("real", &format!("{root}/d{n}"));
    for i in (0..n).rev() {
        disk.link(&format!("d{}", i + 1), &format!("{root}/d{i}"));
    }
}

#[test]
fn a_chain_the_kernel_refuses_with_eloop_is_not_resolved_by_hand() {
    let mut disk = Disk::new();
    directory_chain(&mut disk, "/t", 39);
    disk.file("/t/victim.snap");
    disk.link("../victim.snap", "/t/real/final");
    disk.link("d0/final", "/t/out.snap");
    assert_eq!(disk.walk("/t/out.snap", true), Err(OsError::Loop));
    let ws = workspace_at(&disk, "/t");
    assert_eq!(resolve_refused(&disk, &ws, "out.snap").0, 1);
}

#[test]
fn a_directory_symlink_chain_the_kernel_accepts_still_resolves() {
    let mut disk = Disk::new();
    directory_chain(&mut disk, "/t", 10);
    let ws = workspace_at(&disk, "/t");
    assert_eq!(names(&resolve_ok(&disk, &ws, "d0/out.snap")), vec!["real", "out.snap"]);
}

/// A chain of `n` file links from `hop_0` to a file that is not there.
fn dangling_chain(disk: &mut Disk, root: &str, n: usize) {
    disk.dir(&format!("{root}/real"));
    disk.link("real/out.snap", &format!("{root}/hop_{}", n - 1));
    for i in (0..n - 1).rev() {
        disk.link(&format!("hop_{}", i + 1), &format!("{root}/hop_{i}"));
    }
}

#[test]
fn a_dangling_chain_longer_than_sixteen_hops_still_resolves() {
    let mut disk = Disk::new();
    dangling_chain(&mut disk, "/t", 17);
    let ws = workspace_at(&disk, "/t");
    resolve_ok(&disk, &ws, "hop_0");
}

#[test]
fn no_bound_of_pittys_own_caps_a_dangling_chain_the_kernel_accepts() {
    let mut disk = Disk::new();
    dangling_chain(&mut disk, "/t", 32);
    let ws = workspace_at(&disk, "/t");
    let resolved = resolve_ok(&disk, &ws, "hop_0");
    assert!(safe_path(&resolved).ends_with("real/out.snap"));
}

#[test]
fn a_symlink_loop_is_refused_rather_than_spun_on() {
    let mut disk = Disk::new();
    disk.dir("/t");
    disk.link("loopb.snap", "/t/loopa.snap");
    disk.link("loopa.snap", "/t/loopb.snap");
    let ws = workspace_at(&disk, "/t");
    assert_eq!(resolve_refused(&disk, &ws, "loopa.snap").0, 1);
}

#[test]
fn resolve_write_path_still_rejects_a_symlink_that_leaves_the_workspace() {
    let mut disk = Disk::new();
    disk.dir("/t");
    disk.dir("/outside");
    disk.link("/outside", "/t/snapshots");
    let ws = workspace_at(&disk, "/t");
    assert_eq!(resolve_refused(&disk, &ws, "snapshots/out.snap").0, 2);
}

#[test]
fn resolve_write_path_allows_plain_not_yet_created_file() {
    let mut disk = Disk::new();
    disk.dir("/t");
    let ws = workspace_at(&disk, "/t");
    let resolved = resolve_ok(&disk, &ws, "__snapshots__/new/out.snap");
    assert!(display_path(&resolved).starts_with("/t"));
}

#[test]
fn the_safe_path_never_steps_outside_the_workspace() {
    let mut disk = Disk::new();
    disk.dir("/r/w");
    let ws = workspace_at(&disk, "/r/w");
    let resolved = resolve_ok(&disk, &ws, "../outside/new/../../w/out.snap");
    let safe = safe_path(&resolved);
    assert_eq!(safe, "/r/w/out.snap");
    assert_ne!(display_path(&resolved), safe);
    assert_eq!(display_path(&resolved), "/r/w/../outside/new/../../w/out.snap");
}

#[test]
fn resolved_components_never_step_outside_the_workspace() {
    let mut disk = Disk::new();
    disk.dir("/r/w");
    let ws = workspace_at(&disk, "/r/w");
    let resolved = resolve_ok(&disk, &ws, "../new-private-dir/../w/out.snap");
    assert!(display_path(&resolved).starts_with("/r/w"));
    assert_eq!(
        names(&resolved),
        vec!["out.snap".to_string()],
        "the recorder must receive the normalized in-workspace sequence"
    );
    assert!(traversed(&resolved).is_empty());
}

#[test]
fn an_absolute_in_workspace_path_still_gets_the_protected_traversal() {
    let mut disk = Disk::new();
    disk.dir("/t");
    let ws = workspace_at(&disk, "/t");
    let resolved = resolve_ok(&disk, &ws, "/t/__snapshots__/out.snap");
    assert!(display_path(&resolved).starts_with("/t"));
    assert_eq!(
        names(&resolved),
        vec!["__snapshots__".to_string(), "out.snap".to_string()],
        "an absolute in-workspace path must reduce to relative components"
    );
}

#[test]
fn an_absolute_out_of_workspace_path_is_refused() {
    let mut disk = Disk::new();
    disk.dir("/t");
    disk.dir("/outside");
    let ws = workspace_at(&disk, "/t");
    let err = resolve(&disk, &ws, "/outside/escape.snap", SnapshotAccess::Record).unwrap_err();
    assert_eq!(err.exit_code(), 2);
}

#[test]
fn a_snapshot_on_an_uncapturable_workspace_fails_closed() {
    let mut disk = Disk::new();
    disk.dir("/t");
    let site = Site::Directory {
        cwd: b"/t".to_vec(),
        canonical: disk.canonical("/t"),
        opened: Err("Permission denied (os error 13)".to_string()),
    };
    let space = Workspace::prepare(&scenario(), StringMap::new(), site, Unix).unwrap();
    let ws = Held { space, anchor: None };
    let err = resolve_refused(&disk, &ws, "out.snap");
    assert_eq!(err.0, 3);
    assert!(
        err.1.contains("snapshot containment"),
        "the error must say why the directory had to be opened: {}",
        err.1
    );
    assert_eq!(
        err.1,
        "cannot open workspace directory /t for snapshot containment: Permission denied (os error 13)"
    );
}

#[test]
fn resolve_write_path_refuses_the_workspace_directory_itself() {
    let mut disk = Disk::new();
    disk.dir("/t");
    let ws = workspace_at(&disk, "/t");
    let err = resolve_refused(&disk, &ws, "sub/..");
    assert_eq!(err.0, 2);
    assert_eq!(
        err.1,
        "snapshot path 'sub/..' names the workspace directory itself, not a file to record"
    );
}

#[test]
fn reading_and_recording_name_the_same_file() {
    let mut disk = Disk::new();
    disk.dir("/t/real/sub");
    disk.link("real/sub", "/t/link");
    disk.link("gone.snap", "/t/dangling.snap");
    let ws = workspace_at(&disk, "/t");
    for rel in ["a.snap", "link/../x.snap", "dangling.snap", "new/x.snap"] {
        let written = resolve_ok(&disk, &ws, rel);
        match resolve(&disk, &ws, rel, SnapshotAccess::Verify) {
            Ok(Ok(read)) => {
                assert_eq!(read.components(), written.components(), "{rel}");
                assert!(read.traversed_dirs().is_empty());
            }
            other => panic!("{rel}: {other:?}"),
        }
    }
}

// ---------------------------------------------------------------------------
// Paths
// ---------------------------------------------------------------------------

#[test]
fn lexical_normalize_preserves_windows_drive_prefix() {
    let path = parse_path(br"C:\work\pitty\..\snapshots\out.snap", Windows);
    assert_eq!(
        lexical_normalize(&path, Windows),
        parse_path(br"C:\work\snapshots\out.snap", Windows)
    );
}

#[test]
fn lexical_normalize_preserves_windows_unc_prefix() {
    let path = parse_path(br"\\server\share\pitty\..\snapshots\out.snap", Windows);
    assert_eq!(
        lexical_normalize(&path, Windows),
        parse_path(br"\\server\share\snapshots\out.snap", Windows)
    );
}

#[test]
fn windows_paths_are_read_by_both_separators() {
    let climb = vec![Component::ParentDir, normal("x")];
    assert_eq!(parse_path(br"..\x", Windows), climb);
    assert_eq!(parse_path(b"../x", Windows), climb);
    assert_eq!(parse_path(br"..\x", Unix), vec![normal(r"..\x")]);
    assert_eq!(
        parse_path(br"c:\a//b\.\..\", Windows),
        vec![
            Component::Prefix(Prefix::Disk(b'C')),
            Component::RootDir,
            normal("a"),
            normal("b"),
            Component::ParentDir
        ]
    );
    assert_eq!(
        parse_path(b"C:x", Windows),
        vec![Component::Prefix(Prefix::Disk(b'C')), normal("x")]
    );
    assert_eq!(parse_path(br".\x", Windows), vec![Component::CurDir, normal("x")]);
}

#[test]
fn every_windows_prefix_is_told_from_the_others() {
    let prefix = |raw: &[u8]| match parse_path(raw, Windows).into_iter().next() {
        Some(Component::Prefix(prefix)) => Some(prefix),
        _ => None,
    };
    let bytes = |text: &str| text.as_bytes().to_vec();
    assert_eq!(prefix(br"\\?\c:\x"), Some(Prefix::VerbatimDisk(b'C')));
    assert_eq!(
        prefix(br"\\?\UNC\server\share\x"),
        Some(Prefix::VerbatimUnc(bytes("server"), bytes("share")))
    );
    assert_eq!(prefix(br"\\?\pictures\x"), Some(Prefix::Verbatim(bytes("pictures"))));
    assert_eq!(prefix(br"\\.\COM42"), Some(Prefix::DeviceNs(bytes("COM42"))));
    assert_eq!(
        prefix(b"//server/share/x"),
        Some(Prefix::Unc(bytes("server"), bytes("share")))
    );
    assert_eq!(prefix(br"\\server"), None);
    assert_eq!(
        parse_path(br"\\server\share", Windows),
        vec![
            Component::Prefix(Prefix::Unc(bytes("server"), bytes("share"))),
            Component::RootDir
        ]
    );
    assert_eq!(
        parse_path(br"\\?\C:\a/b\.", Windows)[2..],
        [normal("a/b"), Component::CurDir]
    );
}

#[test]
fn windows_paths_join_by_prefix_and_root() {
    let join = |base: &str, rel: &str| {
        String::from_utf8(join_path(base.as_bytes(), rel.as_bytes(), Windows)).unwrap()
    };
    assert_eq!(join(r"C:\a", "b"), r"C:\a\b");
    assert_eq!(join(r"C:\a/", "b"), r"C:\a/b");
    assert_eq!(join("C:", "b"), "C:b");
    assert_eq!(join(r"C:\a", r"\b"), r"C:\b");
    assert_eq!(join(r"C:\a", r"D:b"), "D:b");
    assert_eq!(join(r"C:\a", ""), "C:\\a\\");
    assert_eq!(join(r"\\?\C:\a\b", r"..\.\c/d"), r"\\?\C:\a\c\d");
    assert_eq!(join(r"\\?\C:\", r"..\c"), r"\\?\C:\c");
    assert_eq!(join(r"\\?\C:\a", r"\c"), r"\\?\C:\c");
}

#[test]
fn windows_paths_are_written_as_they_are_read() {
    for raw in [
        &br"C:\a\b"[..],
        br"\\server\share\x",
        br"\\?\D:\x\y",
        br"\\?\UNC\server\share\x",
        br"C:x",
        br"..\x",
    ] {
        assert_eq!(render_path(&parse_path(raw, Windows), Windows), raw);
    }
}

/// Resolve a snapshot in the workspace `C:\w`, where `C:\w\l` is a link to a missing
/// file if a target is given.
fn settle_on_windows(
    rel: &str,
    target: Option<&[u8]>,
) -> Result<Result<SnapshotTarget, UnresolvablePath>, PittyError> {
    let site = Site::Directory {
        cwd: br"C:\w".to_vec(),
        canonical: Some(br"\\?\C:\w".to_vec()),
        opened: Ok(None),
    };
    let space = Workspace::prepare(&scenario(), StringMap::new(), site, Windows).unwrap();
    let place = |raw: &[u8]| match raw {
        br"C:\w" | br"\\?\C:\w" => Some(br"\\?\C:\w".to_vec()),
        br"C:\" | br"C:\w\.." | br"\\?\C:\" => Some(br"\\?\C:\".to_vec()),
        _ => None,
    };
    let mut facts = Facts::new(Windows);
    loop {
        facts = match space.resolve_write_path(&facts, rel, SnapshotAccess::Record) {
            Ok(found) => return found,
            Err(Query::Canonical(path)) => {
                let raw = render_path(&path, Windows);
                facts.learn_canonical(path, place(&raw))
            }
            Err(Query::Traverse(path)) => {
                let raw = render_path(&path, Windows);
                let seen = place(&raw).map(|_| true).ok_or(OsError::NotFound);
                facts.learn_traverse(path, directory_traversability(seen))
            }
            Err(Query::Entry(path)) => {
                let link = target.is_some() && render_path(&path, Windows).ends_with(br"\w\l");
                facts.learn_entry(path, if link { EntryKind::Link } else { EntryKind::Missing })
            }
            Err(Query::Reach(path)) => facts.learn_reach(path, Reach::Missing),
            Err(Query::Link(path)) => {
                let link = render_path(&path, Windows).ends_with(br"\w\l");
                facts.learn_link(
                    path,
                    match target {
                        Some(t) if link => RawLink::Target(t.to_vec()),
                        _ => RawLink::End,
                    },
                )
            }
            Err(other) => panic!("{other:?}"),
        };
    }
}

fn refused_on_windows(rel: &str, target: Option<&[u8]>) -> String {
    match settle_on_windows(rel, target) {
        Err(PittyError::Scenario(message)) => message,
        other => panic!("{other:?}"),
    }
}

fn escapes_on_windows(rel: &str) -> bool {
    refused_on_windows(rel, None).contains("escapes the workspace")
}

#[test]
fn a_windows_climb_out_of_the_workspace_is_refused() {
    assert!(escapes_on_windows(r"..\x.snap"));
    let target = settle_on_windows(r"sub/x.snap", None).unwrap().unwrap();
    assert_eq!(target.safe_path(), br"\\?\C:\w\sub\x.snap");
    assert_eq!(names(&target), vec!["sub", "x.snap"]);
    assert_eq!(target.display_path(), br"C:\w\sub/x.snap");
}

#[test]
fn a_windows_name_that_begins_with_a_drive_leaves_the_workspace() {
    assert!(escapes_on_windows("a/D:"));
    assert!(escapes_on_windows("a/D:x.snap"));
    assert!(escapes_on_windows(r"a\c:\x.snap"));
    let target = settle_on_windows("a/DD:x.snap", None).unwrap().unwrap();
    assert_eq!(target.safe_path(), br"\\?\C:\w\a\DD:x.snap");
}

#[test]
fn a_windows_link_is_split_where_its_names_hold_a_slash() {
    let target = settle_on_windows("l", Some(br"\\?\C:\w\a/b.snap")).unwrap().unwrap();
    assert_eq!(target.safe_path(), br"\\?\C:\w\a\b.snap");
    assert_eq!(names(&target), vec!["a", "b.snap"]);
    assert!(refused_on_windows("l", Some(br"\\?\C:\w\a/../../x.snap")).contains("passes through a symlink"));
    assert!(refused_on_windows("l", Some(br"\\?\C:\w\D:")).contains("passes through a symlink"));
}

#[test]
fn a_windows_workspace_that_does_not_exist_yet_still_confines() {
    let site = Site::Directory { cwd: br"..\w".to_vec(), canonical: None, opened: Ok(None) };
    let space = Workspace::prepare(&scenario(), StringMap::new(), site, Windows).unwrap();
    let settle = |rel: &str| {
        let mut facts = Facts::new(Windows);
        loop {
            facts = match space.resolve_write_path(&facts, rel, SnapshotAccess::Record) {
                Ok(found) => return found,
                Err(Query::Canonical(path)) => facts.learn_canonical(path, None),
                Err(Query::Traverse(path)) => facts.learn_traverse(path, Traversability::Absent),
                Err(Query::Entry(path)) => facts.learn_entry(path, EntryKind::Missing),
                Err(Query::Reach(path)) => facts.learn_reach(path, Reach::Missing),
                Err(other) => panic!("{other:?}"),
            };
        }
    };
    let target = settle("a/b.snap").unwrap().unwrap();
    assert_eq!(target.safe_path(), br"..\w\a\b.snap");
    assert_eq!(parse_path(&target.safe_path(), Windows)[..2], *target.root());
    assert!(settle("../x.snap").is_err());
    assert!(settle("D:x.snap").is_err());
}

#[test]
fn windows_normalization_appends_names_as_paths() {
    let settled = |raw: &[u8]| render_path(&lexical_normalize(&parse_path(raw, Windows), Windows), Windows);
    assert_eq!(settled(br"C:\w\a\D:"), b"D:");
    assert_eq!(settled(br"\\?\C:\w\a/../b"), br"\\?\C:\w\b");
    let root = parse_path(br"\\?\C:\w", Windows);
    let odd = parse_path(br"\\?\C:\w\a/b", Windows);
    assert_eq!(relative_components(&root, &odd, Windows), None);
}

#[test]
fn an_unpaired_surrogate_is_shown_as_one_mark() {
    let raw = b"C:\\a\xED\xA0\xBDb\xED\x9F\xBFc";
    assert_eq!(show_path(raw, Windows), "C:\\a\u{FFFD}b\u{D7FF}c");
    assert_eq!(show_path(b"/a\xED\xA0\xBDb", Unix), "/a\u{FFFD}\u{FFFD}\u{FFFD}b");
    assert_eq!(show_path("/\u{E9}".as_bytes(), Windows), "/\u{E9}");
}

#[test]
fn without_a_probe_a_directory_is_told_by_its_metadata() {
    assert_eq!(directory_traversability(Ok(true)), Traversability::Traversable);
    assert_eq!(directory_traversability(Ok(false)), Traversability::Refused);
    assert_eq!(
        directory_traversability(Err(OsError::Other)),
        Traversability::Absent
    );
}

fn normal(name: &str) -> Component {
    Component::Normal(name.as_bytes().to_vec())
}

#[test]
fn normalization_keeps_what_climbs_above_the_start() {
    let text = |raw: &[u8]| String::from_utf8(render_path(&lexical_normalize(&parse_path(raw, Unix), Unix), Unix)).unwrap();
    assert_eq!(text(b"a/./b/../c"), "a/c");
    assert_eq!(text(b"../../x"), "../../x");
    assert_eq!(text(b"a/../../x"), "../x");
    assert_eq!(text(b"/../x"), "/../x");
    assert_eq!(text(b"./a/.."), "");
}

#[test]
fn paths_are_read_by_their_separators() {
    assert_eq!(
        parse_path(b"//a/./b//../c/", Unix),
        vec![
            Component::RootDir,
            normal("a"),
            normal("b"),
            Component::ParentDir,
            normal("c")
        ]
    );
    assert_eq!(parse_path(b"./a/.", Unix), vec![Component::CurDir, normal("a")]);
    assert_eq!(parse_path(b"", Unix), vec![]);
    assert_eq!(parse_path(b"...", Unix), vec![normal("...")]);
    for raw in [&b"/a/b"[..], b"../x", b"./x", b"/", b"\xff/y"] {
        assert_eq!(render_path(&parse_path(raw, Unix), Unix), raw);
    }
}

#[test]
fn joining_replaces_by_an_absolute_path_only() {
    assert_eq!(join_path(b"/a", b"b/c", Unix), b"/a/b/c");
    assert_eq!(join_path(b"/a/", b"b", Unix), b"/a/b");
    assert_eq!(join_path(b"/a", b"/b", Unix), b"/b");
    assert_eq!(join_path(b"", b"b", Unix), b"b");
    assert_eq!(join_path(b"a", b"", Unix), b"a/");
}

#[test]
fn containment_is_by_whole_components() {
    let root = parse_path(b"/r/w", Unix);
    assert!(is_within(&parse_path(b"/r/w", Unix), &root));
    assert!(is_within(&parse_path(b"/r/w/x", Unix), &root));
    assert!(!is_within(&parse_path(b"/r/wx", Unix), &root));
    assert_eq!(
        relative_components(&root, &parse_path(b"/r/w/a/b", Unix), Unix),
        Some(vec![b"a".to_vec(), b"b".to_vec()])
    );
    assert_eq!(relative_components(&root, &parse_path(b"/r/w/a/../b", Unix), Unix), None);
    assert_eq!(relative_components(&root, &parse_path(b"/r/x", Unix), Unix), None);
}

#[test]
fn a_target_for_a_test_is_split_as_it_stands() {
    let target = SnapshotTarget::for_test(b"/r", b"a/../b.snap", Unix);
    assert_eq!(names(&target), vec!["a", "..", "b.snap"]);
    assert_eq!(display_path(&target), "/r/a/../b.snap");
    assert_eq!(target.root(), parse_path(b"/r", Unix));
    assert!(target.traversed_dirs().is_empty());
}

#[test]
fn string_maps_list_their_entries_in_order() {
    let one = string_map(&[("b", "2"), ("a", "1"), ("b", "3"), ("", "0")]);
    let other = string_map(&[("", "0"), ("a", "1"), ("b", "3")]);
    assert_eq!(one.len(), 3);
    for i in 0..3 {
        assert_eq!(one.key(i), other.key(i));
        assert_eq!(one.value(i), other.value(i));
    }
    assert_eq!(one.get("b"), Some("3"));
    assert_eq!(one.get("c"), None);
}

#[test]
fn answers_are_read_for_what_they_decide() {
    assert_eq!(entry_of(Ok(true)), EntryKind::Link);
    assert_eq!(entry_of(Ok(false)), EntryKind::Plain);
    assert_eq!(entry_of(Err(OsError::Other)), EntryKind::Missing);
    assert_eq!(reach_of(Ok(())), Reach::Reached);
    assert_eq!(reach_of(Err(OsError::NotFound)), Reach::Missing);
    assert_eq!(reach_of(Err(OsError::Loop)), Reach::Refused);
    assert_eq!(link_of(Ok(b"x".to_vec())), RawLink::Target(b"x".to_vec()));
    assert_eq!(link_of(Err(OsError::Invalid)), RawLink::End);
    assert_eq!(link_of(Err(OsError::NotFound)), RawLink::End);
    assert_eq!(link_of(Err(OsError::Loop)), RawLink::Refused);
}

#[test]
fn the_first_answer_to_a_question_stays() {
    let path = || parse_path(b"/a", Unix);
    let facts = Facts::new(Unix)
        .learn_entry(path(), EntryKind::Link)
        .learn_entry(path(), EntryKind::Plain);
    assert_eq!(facts.entry(&path()), Some(EntryKind::Link));
    assert_eq!(facts.reach(&path()), None);
    assert_eq!(facts.anchor(), None);
    assert_eq!(facts.learn_anchor(None).anchor(), Some(None));
}

#[test]
fn a_missing_component_beneath_a_symlinked_workspace_still_records() {
    let mut disk = Disk::new();
    disk.dir("/base/real");
    disk.link("/base/real", "/base/w");
    let ws = workspace_at(&disk, "/base/w");
    let target = resolve_ok(&disk, &ws, "missing/../out.snap");
    assert_eq!(safe_path(&target), "/base/real/out.snap");
    assert_eq!(traversed(&target), vec![vec!["missing".to_string()]]);
}

#[test]
fn recording_through_a_cancelled_component_still_works_on_a_writable_tree() {
    let mut disk = Disk::new();
    disk.dir("/w");
    disk.file("/w/victim.snap");
    let ws = workspace_at(&disk, "/w");
    let target = resolve_ok(&disk, &ws, "missing/../victim.snap");
    assert_eq!(safe_path(&target), "/w/victim.snap");
    assert_eq!(traversed(&target), vec![vec!["missing".to_string()]]);
}

#[test]
fn a_safe_path_reads_back_as_root_and_names() {
    let mut disk = Disk::new();
    disk.dir("/w/sub");
    let ws = workspace_at(&disk, "/w");
    let target = resolve_ok(&disk, &ws, "sub/./new/../../sub/x/out.snap");
    assert_eq!(safe_path(&target), "/w/sub/x/out.snap");
    let path = parse_path(&target.safe_path(), Unix);
    assert!(is_within(&path, target.root()));
    assert_eq!(
        relative_components(target.root(), &path, Unix).map(|n| text_list(&n)),
        Some(names(&target))
    );
}

#[test]
fn a_climb_anywhere_after_a_barred_component_is_refused() {
    let mut disk = Disk::new();
    disk.dir("/w/deep");
    disk.file("/w/blocker");
    let ws = workspace_at(&disk, "/w");
    for rel in ["blocker/../out.snap", "blocker/a/b/../out.snap", "deep/../blocker/./x/../../out.snap"] {
        assert_eq!(
            resolve_refused(&disk, &ws, rel),
            (
                1,
                format!(
                    "cannot write snapshot {rel}: '..' climbs through a component that is not a resolvable directory"
                )
            )
        );
    }
}

#[test]
fn a_secret_within_stars_is_removed_unless_the_mask_spells_it() {
    let mask = |text: &str, list: &[&str]| {
        let secrets: Vec<String> = list.iter().map(|s| s.to_string()).collect();
        mask_secrets(text, &secrets)
    };
    assert_eq!(mask("xa*by", &["a*b"]), "x***y");
    assert_eq!(mask("aXb a*b", &["X", "a*b"]), "a***b ***");
    // A secret that the mask itself can spell comes back.
    assert_eq!(mask("aXb", &["X", "a***b"]), "a***b");
    assert_eq!(mask("*", &["*"]), "***");
}
