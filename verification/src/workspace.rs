//! Workspace setup: working directory, environment, `${name}` expansion, secret
//! registration, and the confinement of snapshot paths.
use vstd::prelude::*;
use vstd::slice::*;
use vstd::string::*;
use vstd::utf8::*;

use crate::error::{ErrorView, PittyError};
use crate::expand::{expand_with, expanded, Names};
use crate::facts::{DirIdentity, Facts, Query, QueryView, World};
use crate::path::{
    all_entries, begins_with, copy_path, entry_name, is_within, lemma_relative_names_are_entries,
    lexical_normalize, name_list, normalized, part_bytes, parts, plain_name, relative_components,
    relative_names, Component, Part, Platform,
};
use crate::rawpath::{
    head_len, join_path, joined, lemma_parsed_is_unix_path, lemma_render_reads_back,
    lemma_windows_render_reads_back, parse_path, parsed, render_path, rendered, show_path, shown,
    unix_path, volume_path, windows_name, windows_path, windows_route, windows_step,
};
use crate::resolve::{
    anchor_asks, anchor_in_root_representation, anchored, below, cancelled, cancelled_directories,
    climb_asks, climbs_through, climbs_through_existing_non_directory,
    climbs_through_missing_component, dangling_asks, dangling_from, dangling_link_target, landing,
    lemma_cancelled_are_proper, lemma_record_is_laxer, name_lists, proper_places, resolve_existing_ancestor, DanglingLink,
    DanglingView, SnapshotAccess,
};
use crate::safepath::PRIVATE_DIR_MODE;
use crate::scenario::{Scenario, Variable};
use crate::string_map::{pair_list, pair_value, Pairs, StringMap};
use crate::text::{between, texts};

verus! {

/// Whether the workspace directory could be opened before anything was spawned.
#[derive(Debug, PartialEq, Eq)]
pub enum Capture {
    /// It is held open. The numbers are those that the descriptor reported then,
    /// where it reported any.
    Held(Option<DirIdentity>),
    /// It could not be opened; the message says why.
    Failed(String),
}

/// The mathematical value of a [`Capture`].
pub ghost enum CaptureView {
    Held(Option<DirIdentity>),
    Failed(Seq<char>),
}

impl View for Capture {
    type V = CaptureView;

    open spec fn view(&self) -> CaptureView {
        match *self {
            Capture::Held(identity) => CaptureView::Held(identity),
            Capture::Failed(message) => CaptureView::Failed(message@),
        }
    }
}

/// Which directory a workspace needs.
#[derive(Debug, PartialEq, Eq)]
pub enum SiteRequest {
    /// A fresh temporary directory with this mode, on a platform that has modes.
    Temp { mode: u32 },
    /// The directory at this path.
    At(Vec<u8>),
}

/// The directory that a workspace got.
#[derive(Debug, PartialEq, Eq)]
pub enum Site {
    /// A directory: its path, the canonical form of the path where it exists, and
    /// what opening it gave (the error text where it failed). On a platform that
    /// cannot hold a directory open nothing is opened, and nothing fails.
    Directory { cwd: Vec<u8>, canonical: Option<Vec<u8>>, opened: Result<Option<DirIdentity>, String> },
    /// No temporary directory could be made; the error text.
    TempFailed(String),
    /// The temporary directory could not be made private; the error text.
    ModeFailed(String),
}

/// A prepared workspace for a scenario run.
#[derive(Debug)]
pub struct Workspace {
    platform: Platform,
    cwd: Vec<u8>,
    canonical_cwd: Vec<Component>,
    capture: Capture,
    variables: StringMap,
    parent_env: StringMap,
    env: Vec<(String, String)>,
    secrets: Vec<String>,
}

/// The mathematical value of a [`Workspace`].
pub ghost struct WorkspaceView {
    /// The platform whose rules its paths follow.
    pub platform: Platform,
    /// The bytes of the directory that commands run in.
    pub cwd: Seq<u8>,
    /// That directory as it was before anything was spawned.
    pub root: Seq<Part>,
    /// Whether it is held open.
    pub capture: CaptureView,
    /// What scenario variables stand for.
    pub variables: Names,
    /// The environment that names fall back to.
    pub parent_env: Names,
    /// The environment of spawned processes.
    pub env: Pairs,
    /// The values to mask.
    pub secrets: Seq<Seq<char>>,
}

impl View for Workspace {
    type V = WorkspaceView;

    closed spec fn view(&self) -> WorkspaceView {
        WorkspaceView {
            platform: self.platform,
            cwd: self.cwd@,
            root: parts(self.canonical_cwd@),
            capture: self.capture@,
            variables: self.variables.map(),
            parent_env: self.parent_env.map(),
            env: pair_list(self.env@),
            secrets: texts(self.secrets@),
        }
    }
}

/// What a list of variable declarations says each name stands for; a later
/// declaration of a name wins.
pub open spec fn variable_names(list: Seq<(String, Variable)>) -> Names
    decreases list.len(),
{
    if list.len() == 0 {
        Map::empty()
    } else {
        variable_names(list.drop_last()).insert(list.last().0@, list.last().1.value@)
    }
}

/// The values that a list of variable declarations asks to mask: those declared
/// secret that are not empty.
pub open spec fn declared_secrets(list: Seq<(String, Variable)>) -> Seq<Seq<char>>
    decreases list.len(),
{
    if list.len() == 0 {
        Seq::empty()
    } else {
        let front = declared_secrets(list.drop_last());
        let last = list.last().1;
        if last.secret && last.value@.len() > 0 {
            front.push(last.value@)
        } else {
            front
        }
    }
}

/// A list of entries with every value expanded.
pub open spec fn expanded_pairs(variables: Names, fallback: Names, list: Pairs) -> Pairs {
    Seq::new(list.len(), |i: int| (list[i].0, expanded(variables, fallback, list[i].1)))
}

/// The message kept where the workspace directory could not be opened.
pub open spec fn capture_message(cwd: Seq<u8>, error: Seq<char>, platform: Platform) -> Seq<char> {
    "cannot open workspace directory "@ + shown(cwd, platform) + " for snapshot containment: "@ + error
}

/// The root that containment is judged against: the canonical form of the
/// directory, or its path resolved by name where it does not exist yet.
pub open spec fn root_of(cwd: Seq<u8>, canonical: Option<Vec<u8>>, platform: Platform) -> Seq<Part> {
    match canonical {
        Some(raw) => parsed(raw@, platform),
        None => normalized(parsed(cwd, platform), platform),
    }
}

/// The root that containment is judged against.
pub fn canonical_root(cwd: &[u8], canonical: &Option<Vec<u8>>, platform: Platform) -> (r: Vec<Component>)
    ensures
        parts(r@) == root_of(cwd@, *canonical, platform),
{
    match canonical {
        Some(raw) => parse_path(raw.as_slice(), platform),
        None => lexical_normalize(parse_path(cwd, platform).as_slice(), platform),
    }
}

/// The workspace that a scenario gets at a directory.
pub open spec fn prepared(
    scenario: Scenario,
    parent_env: Names,
    cwd: Seq<u8>,
    canonical: Option<Vec<u8>>,
    opened: Result<Option<DirIdentity>, String>,
    platform: Platform,
) -> WorkspaceView {
    let variables = variable_names(scenario.variables@);
    WorkspaceView {
        platform,
        cwd,
        root: root_of(cwd, canonical, platform),
        capture: match opened {
            Ok(identity) => CaptureView::Held(identity),
            Err(error) => CaptureView::Failed(capture_message(cwd, error@, platform)),
        },
        variables,
        parent_env,
        env: expanded_pairs(variables, parent_env, pair_list(scenario.env@)),
        secrets: declared_secrets(scenario.variables@),
    }
}

/// The directory that the workspace of `scenario` needs, for a scenario file in
/// `base_dir`.
pub fn site_for(scenario: &Scenario, base_dir: &[u8], platform: Platform) -> (r: SiteRequest)
    ensures
        scenario.workspace.temp ==> (r matches SiteRequest::Temp { mode } && mode == PRIVATE_DIR_MODE),
        !scenario.workspace.temp ==> (r matches SiteRequest::At(path) && path@ == joined(
            base_dir@,
            encode_utf8(scenario.workspace.cwd@),
            platform,
        )),
{
    if scenario.workspace.temp {
        SiteRequest::Temp { mode: PRIVATE_DIR_MODE }
    } else {
        SiteRequest::At(join_path(base_dir, scenario.workspace.cwd.as_str().as_bytes(), platform))
    }
}

/// Why there is no workspace, where there is none.
pub open spec fn site_fault(site: Site) -> Option<Seq<char>> {
    match site {
        Site::Directory { .. } => None,
        Site::TempFailed(error) => Some("failed to create temp workspace: "@ + error@),
        Site::ModeFailed(error) => Some("failed to set temp dir mode: "@ + error@),
    }
}

fn collect_variables(list: &Vec<(String, Variable)>) -> (r: (StringMap, Vec<String>))
    ensures
        r.0.map() == variable_names(list@),
        texts(r.1@) == declared_secrets(list@),
{
    let mut variables = StringMap::new();
    let mut secrets: Vec<String> = Vec::new();
    let mut i: usize = 0;
    assert(list@.take(0) =~= Seq::<(String, Variable)>::empty());
    assert(texts(secrets@) =~= Seq::<Seq<char>>::empty());
    while i < list.len()
        invariant
            i <= list@.len(),
            variables.map() == variable_names(list@.take(i as int)),
            texts(secrets@) == declared_secrets(list@.take(i as int)),
        decreases list@.len() - i,
    {
        assert(list@.take(i + 1).drop_last() =~= list@.take(i as int));
        assert(list@.take(i + 1).last() == list@[i as int]);
        let value = &list[i].1.value;
        variables = variables.with(list[i].0.clone(), value.clone());
        if list[i].1.secret && !value.as_str().is_empty() {
            let ghost before = secrets@;
            secrets.push(value.clone());
            assert(texts(secrets@) =~= texts(before).push(value@));
        }
        i = i + 1;
    }
    assert(list@.take(list@.len() as int) =~= list@);
    (variables, secrets)
}

/// The entries of `list` with every value expanded.
pub fn expand_pairs(variables: &StringMap, fallback: &StringMap, list: &Vec<(String, String)>) -> (r: Vec<
    (String, String),
>)
    ensures
        pair_list(r@) == expanded_pairs(variables.map(), fallback.map(), pair_list(list@)),
{
    let mut out: Vec<(String, String)> = Vec::new();
    let mut i: usize = 0;
    let ghost want = expanded_pairs(variables.map(), fallback.map(), pair_list(list@));
    while i < list.len()
        invariant
            i <= list@.len(),
            want == expanded_pairs(variables.map(), fallback.map(), pair_list(list@)),
            pair_list(out@) =~= want.take(i as int),
        decreases list@.len() - i,
    {
        let value = expand_with(variables, fallback, list[i].1.as_str());
        let ghost before = out@;
        out.push((list[i].0.clone(), value));
        assert(pair_list(out@) =~= pair_list(before).push(want[i as int]));
        i = i + 1;
    }
    assert(want.take(want.len() as int) =~= want);
    out
}

impl Workspace {
    /// Prepare the workspace of `scenario` at the directory that it got, with the
    /// environment as it was captured.
    ///
    /// A directory that could not be opened is no fault yet: a run without
    /// snapshots never needs it open.
    pub fn prepare(
        scenario: &Scenario,
        parent_env: StringMap,
        site: Site,
        platform: Platform,
    ) -> (r: Result<Workspace, PittyError>)
        ensures
            match site_fault(site) {
                Some(message) => r matches Err(e) && e@ == ErrorView::Process(message),
                None => r is Ok,
            },
            match site {
                Site::Directory { cwd, canonical, opened } => r matches Ok(w) && w@ == prepared(
                    *scenario,
                    parent_env.map(),
                    cwd@,
                    canonical,
                    opened,
                    platform,
                ),
                Site::TempFailed(error) => r matches Err(e) && e@ == ErrorView::Process(
                    "failed to create temp workspace: "@ + error@,
                ),
                Site::ModeFailed(error) => r matches Err(e) && e@ == ErrorView::Process(
                    "failed to set temp dir mode: "@ + error@,
                ),
            },
    {
        match site {
            Site::TempFailed(error) => {
                let mut message = "failed to create temp workspace: ".to_owned();
                message.append(error.as_str());
                Err(PittyError::Process(message))
            },
            Site::ModeFailed(error) => {
                let mut message = "failed to set temp dir mode: ".to_owned();
                message.append(error.as_str());
                Err(PittyError::Process(message))
            },
            Site::Directory { cwd, canonical, opened } => {
                let (variables, secrets) = collect_variables(&scenario.variables);
                let env = expand_pairs(&variables, &parent_env, &scenario.env);
                let canonical_cwd = canonical_root(cwd.as_slice(), &canonical, platform);
                let capture = match opened {
                    Ok(identity) => Capture::Held(identity),
                    Err(error) => {
                        let path = show_path(cwd.as_slice(), platform);
                        let mut message = between(
                            "cannot open workspace directory ",
                            path.as_str(),
                            " for snapshot containment: ",
                        );
                        message.append(error.as_str());
                        Capture::Failed(message)
                    },
                };
                Ok(
                    Workspace {
                        platform,
                        cwd,
                        canonical_cwd,
                        capture,
                        variables,
                        parent_env,
                        env,
                        secrets,
                    },
                )
            },
        }
    }

    /// The platform whose rules its paths follow.
    pub fn platform(&self) -> (r: Platform)
        ensures
            r == self@.platform,
    {
        self.platform
    }

    /// The directory commands run in.
    pub fn cwd(&self) -> (r: &[u8])
        ensures
            r@ == self@.cwd,
    {
        self.cwd.as_slice()
    }

    /// The resolved environment for spawned processes.
    pub fn env(&self) -> (r: &[(String, String)])
        ensures
            pair_list(r@) == self@.env,
    {
        self.env.as_slice()
    }

    /// The registered secret values.
    pub fn secrets(&self) -> (r: &[String])
        ensures
            texts(r@) == self@.secrets,
    {
        self.secrets.as_slice()
    }

    /// Resolve a path that the scenario expresses relative to the workspace.
    ///
    /// Read targets may lie anywhere that the user could already read, so nothing
    /// is confined here.
    pub fn resolve_path(&self, rel: &str) -> (r: Vec<u8>)
        ensures
            r@ == joined(self@.cwd, encode_utf8(rel@), self@.platform),
    {
        join_path(self.cwd.as_slice(), rel.as_bytes(), self.platform)
    }

    /// Expand the `${name}` placeholders of `input`.
    pub fn expand(&self, input: &str) -> (r: String)
        ensures
            r@ == expanded(self@.variables, self@.parent_env, input@),
    {
        expand_with(&self.variables, &self.parent_env, input)
    }

    /// The environment of one spawned process: the scenario's, followed by the
    /// entries of `extra` with their values expanded.
    pub fn spawn_env(&self, extra: &Vec<(String, String)>) -> (r: Vec<(String, String)>)
        ensures
            pair_list(r@) == self@.env + expanded_pairs(
                self@.variables,
                self@.parent_env,
                pair_list(extra@),
            ),
    {
        let mut out: Vec<(String, String)> = Vec::new();
        let mut i: usize = 0;
        while i < self.env.len()
            invariant
                i <= self.env@.len(),
                pair_list(out@) =~= pair_list(self.env@).take(i as int),
            decreases self.env@.len() - i,
        {
            let ghost before = out@;
            out.push((self.env[i].0.clone(), self.env[i].1.clone()));
            assert(pair_list(out@) =~= pair_list(before).push(pair_value(self.env@[i as int])));
            i = i + 1;
        }
        let mut more = expand_pairs(&self.variables, &self.parent_env, extra);
        let ghost added = more@;
        let ghost front = out@;
        out.append(&mut more);
        assert(pair_list(out@) =~= pair_list(front) + pair_list(added));
        assert(pair_list(front) =~= pair_list(self.env@));
        out
    }
}

// ---------------------------------------------------------------------------
// Snapshot paths
// ---------------------------------------------------------------------------

/// Why a write path could not be resolved to a location on disk.
///
/// It is a failed expectation and not a fault: the path is one that the
/// filesystem refuses, while the scenario itself is sound.
#[derive(Debug, PartialEq, Eq)]
pub struct UnresolvablePath {
    message: String,
}

impl UnresolvablePath {
    /// The reason.
    pub closed spec fn reason(&self) -> Seq<char> {
        self.message@
    }

    /// The reason, phrased for a snapshot expectation's failure message.
    pub fn into_message(self) -> (r: String)
        ensures
            r@ == self.reason(),
    {
        self.message
    }
}

/// A validated destination for a snapshot.
///
/// The names lead from the workspace root to the file. They are the path as
/// containment validated it, so walking them cannot leave the root.
#[derive(Debug, PartialEq, Eq)]
pub struct SnapshotTarget {
    platform: Platform,
    display: Vec<u8>,
    root: Vec<Component>,
    components: Vec<Vec<u8>>,
    traversed_dirs: Vec<Vec<Vec<u8>>>,
}

/// The mathematical value of a [`SnapshotTarget`].
pub ghost struct TargetView {
    /// The platform whose rules its paths follow.
    pub platform: Platform,
    /// The path as written, for messages only.
    pub display: Seq<u8>,
    /// The workspace root.
    pub root: Seq<Part>,
    /// The names that lead from the root to the file.
    pub components: Seq<Seq<u8>>,
    /// The directories that the path names but a `..` cancels.
    pub traversed_dirs: Seq<Seq<Seq<u8>>>,
}

impl View for SnapshotTarget {
    type V = TargetView;

    closed spec fn view(&self) -> TargetView {
        TargetView {
            platform: self.platform,
            display: self.display@,
            root: parts(self.root@),
            components: name_list(self.components@),
            traversed_dirs: name_lists(self.traversed_dirs@),
        }
    }
}

/// A list of names as path components.
pub open spec fn normals(names: Seq<Seq<u8>>) -> Seq<Part> {
    Seq::new(names.len(), |i: int| Part::Normal(names[i]))
}

impl SnapshotTarget {
    /// The full path as written, for messages only. Never open this.
    pub fn display_path(&self) -> (r: &[u8])
        ensures
            r@ == self@.display,
    {
        self.display.as_slice()
    }

    /// The workspace root that the components are relative to.
    pub fn root(&self) -> (r: &[Component])
        ensures
            parts(r@) == self@.root,
    {
        self.root.as_slice()
    }

    /// The validated sequence of names to walk.
    pub fn components(&self) -> (r: &[Vec<u8>])
        ensures
            name_list(r@) == self@.components,
    {
        self.components.as_slice()
    }

    /// The directories that the path names but a `..` cancels. A recording run
    /// attempts to create each of them before it writes.
    pub fn traversed_dirs(&self) -> (r: &[Vec<Vec<u8>>])
        ensures
            name_lists(r@) == self@.traversed_dirs,
    {
        self.traversed_dirs.as_slice()
    }

    /// The destination as containment validated it: the root followed by the names.
    pub fn safe_path(&self) -> (r: Vec<u8>)
        ensures
            r@ == rendered(self@.root + normals(self@.components), self@.platform),
    {
        let mut path = copy_path(self.root.as_slice());
        let mut i: usize = 0;
        let ghost want = self@.root + normals(self@.components);
        while i < self.components.len()
            invariant
                i <= self.components@.len(),
                want == self@.root + normals(self@.components),
                parts(path@) =~= want.take(self@.root.len() + i),
            decreases self.components@.len() - i,
        {
            let ghost before = path@;
            path.push(Component::Normal(slice_to_vec(self.components[i].as_slice())));
            assert(parts(path@) =~= parts(before).push(Part::Normal(self.components@[i as int]@)));
            i = i + 1;
        }
        assert(want.take(want.len() as int) =~= want);
        render_path(path.as_slice(), self.platform)
    }

    /// A target for `rel` under `root`, split into its components as they stand.
    pub fn for_test(root: &[u8], rel: &[u8], platform: Platform) -> (r: SnapshotTarget)
        ensures
            r@.platform == platform,
            r@.display == joined(root@, rel@, platform),
            r@.root == parsed(root@, platform),
            r@.components == Seq::new(
                parsed(rel@, platform).len(),
                |i: int| part_bytes(parsed(rel@, platform)[i], platform),
            ),
            r@.traversed_dirs.len() == 0,
    {
        let split = parse_path(rel, platform);
        let mut components: Vec<Vec<u8>> = Vec::new();
        let mut i: usize = 0;
        let ghost want = Seq::new(
            parsed(rel@, platform).len(),
            |i: int| part_bytes(parsed(rel@, platform)[i], platform),
        );
        while i < split.len()
            invariant
                i <= split@.len(),
                parts(split@) == parsed(rel@, platform),
                want == Seq::new(
                    parsed(rel@, platform).len(),
                    |i: int| part_bytes(parsed(rel@, platform)[i], platform),
                ),
                name_list(components@) =~= want.take(i as int),
            decreases split@.len() - i,
        {
            let ghost before = components@;
            let bytes = split[i].bytes(platform);
            assert(parts(split@)[i as int] == split@[i as int]@);
            components.push(bytes);
            assert(name_list(components@) =~= name_list(before).push(want[i as int]));
            i = i + 1;
        }
        assert(parts(split@).len() == split@.len());
        assert(want.take(want.len() as int) =~= want);
        SnapshotTarget {
            platform,
            display: join_path(root, rel, platform),
            root: parse_path(root, platform),
            components,
            traversed_dirs: Vec::new(),
        }
    }
}

/// The message for a path that leaves the workspace.
pub open spec fn escape_message(rel: Seq<char>) -> Seq<char> {
    "snapshot path '"@ + rel
        + "' escapes the workspace; snapshot writes are confined to the workspace directory"@
}

/// The message for a path that is the workspace itself.
pub open spec fn directory_message(rel: Seq<char>) -> Seq<char> {
    "snapshot path '"@ + rel
        + "' names the workspace directory itself, not a file to record"@
}

/// The message for a dangling link that leaves the workspace.
pub open spec fn symlink_message(rel: Seq<char>) -> Seq<char> {
    "snapshot path '"@ + rel
        + "' passes through a symlink; snapshot writes must not follow symlinks"@
}

/// The message for a `..` that leaves what the kernel could not enter.
pub open spec fn climb_message(rel: Seq<char>) -> Seq<char> {
    "cannot write snapshot "@ + rel
        + ": '..' climbs through a component that is not a resolvable directory"@
}

/// The message for a chain of links without an end.
pub open spec fn chain_message(rel: Seq<char>) -> Seq<char> {
    "cannot write snapshot "@ + rel
        + ": the symlink chain does not resolve (a cycle, or more levels of symbolic links than the platform resolves)"@
}

/// The message where the descriptor reports no identity.
pub open spec fn unconfirmed_message(rel: Seq<char>) -> Seq<char> {
    "cannot confirm the workspace directory for snapshot path '"@ + rel + "'"@
}

/// The message where the descriptor reports another directory.
pub open spec fn drifted_message(rel: Seq<char>) -> Seq<char> {
    "the workspace descriptor for snapshot path '"@ + rel
        + "' no longer reports the directory it was opened on"@
}

/// The message where the workspace directory is gone.
pub open spec fn vanished_message(root: Seq<u8>, rel: Seq<char>, platform: Platform) -> Seq<char> {
    "the workspace directory "@ + shown(root, platform) + " no longer exists, so snapshot path '"@
        + rel + "' cannot be resolved against the directory this run started in"@
}

/// The message where another directory took the workspace's name.
pub open spec fn replaced_message(root: Seq<u8>, rel: Seq<char>, platform: Platform) -> Seq<char> {
    "the workspace directory "@ + shown(root, platform)
        + " is no longer the directory this run started in, so snapshot path '"@ + rel
        + "' is refused; a snapshot is written only to the workspace captured before the scenario ran"@
}

/// What is wrong with the workspace root, if anything: its name must still denote
/// the directory that is held open.
pub open spec fn root_fault(world: World, space: WorkspaceView, rel: Seq<char>) -> Option<ErrorView> {
    match space.capture {
        CaptureView::Held(Some(captured)) => match world.anchor {
            None => Some(ErrorView::Process(unconfirmed_message(rel))),
            Some(live) => if live != captured {
                Some(ErrorView::Process(drifted_message(rel)))
            } else {
                match (world.identity)(space.root) {
                    None => Some(ErrorView::Scenario(vanished_message(rendered(space.root, space.platform), rel, space.platform))),
                    Some(named) => if named != live {
                        Some(ErrorView::Scenario(replaced_message(rendered(space.root, space.platform), rel, space.platform)))
                    } else {
                        None
                    },
                }
            },
        },
        _ => None,
    }
}

/// What becomes of a snapshot path.
pub ghost enum Resolution {
    /// The run stops with this fault.
    Fault(ErrorView),
    /// The expectation fails with this message.
    Unresolvable(Seq<char>),
    /// The snapshot is this file.
    Target(TargetView),
}

/// What becomes of a snapshot path that lands at `place`.
pub open spec fn settled(
    world: World,
    space: WorkspaceView,
    rel: Seq<char>,
    access: SnapshotAccess,
    place: Seq<Part>,
) -> Resolution {
    let raw = joined(space.cwd, encode_utf8(rel), space.platform);
    match relative_names(space.root, place, space.platform) {
        None => Resolution::Fault(ErrorView::Scenario(escape_message(rel))),
        Some(names) => if names.len() == 0 {
            Resolution::Fault(ErrorView::Scenario(directory_message(rel)))
        } else {
            match space.capture {
                CaptureView::Failed(message) => Resolution::Fault(ErrorView::Process(message)),
                CaptureView::Held(_) => Resolution::Target(
                    TargetView {
                        platform: space.platform,
                        display: raw,
                        root: space.root,
                        components: names,
                        traversed_dirs: if access is Record {
                            cancelled(
                                space.root,
                                anchored(world, parsed(raw, space.platform)),
                                space.platform,
                            )
                        } else {
                            Seq::empty()
                        },
                    },
                ),
            }
        },
    }
}

/// What becomes of a snapshot path.
///
/// In order: the workspace must still be the one held open; a `..` must not leave
/// what the kernel could not enter; the path must land in the workspace; a
/// dangling link on it is judged by where it leads.
pub open spec fn resolution(
    world: World,
    space: WorkspaceView,
    rel: Seq<char>,
    access: SnapshotAccess,
) -> Resolution {
    let candidate = parsed(joined(space.cwd, encode_utf8(rel), space.platform), space.platform);
    let place = landing(world, candidate);
    let walked = parsed(space.cwd, space.platform);
    match root_fault(world, space, rel) {
        Some(fault) => Resolution::Fault(fault),
        None => if climbs_through(world, access, candidate) {
            Resolution::Unresolvable(climb_message(rel))
        } else if !begins_with(place, space.root) {
            Resolution::Fault(ErrorView::Scenario(escape_message(rel)))
        } else {
            match dangling_from(world, space.root, walked, below(walked, candidate)) {
                DanglingView::Refused => Resolution::Fault(
                    ErrorView::Scenario(symlink_message(rel)),
                ),
                DanglingView::UnresolvableChain => Resolution::Unresolvable(chain_message(rel)),
                DanglingView::UnresolvableClimb => Resolution::Unresolvable(climb_message(rel)),
                DanglingView::Absent => settled(world, space, rel, access, place),
                DanglingView::ResolvesInside(inside) => settled(world, space, rel, access, inside),
            }
        },
    }
}

/// Whether judging the workspace root takes the answer to `query`.
pub open spec fn root_asks(world: World, space: WorkspaceView, query: QueryView) -> bool {
    space.capture matches CaptureView::Held(Some(captured)) && (query is Anchor || (world.anchor == Some(
        captured,
    ) && query == QueryView::Identity(space.root)))
}

/// Whether settling on `place` takes the answer to `query`.
pub open spec fn settle_asks(
    world: World,
    space: WorkspaceView,
    rel: Seq<char>,
    access: SnapshotAccess,
    place: Seq<Part>,
    query: QueryView,
) -> bool {
    let candidate = parsed(joined(space.cwd, encode_utf8(rel), space.platform), space.platform);
    &&& relative_names(space.root, place, space.platform) matches Some(names) && names.len() > 0
    &&& space.capture is Held
    &&& access is Record
    &&& anchor_asks(world, candidate, candidate.len(), query)
}

/// Whether resolving a snapshot path takes the answer to `query`.
pub open spec fn resolution_asks(
    world: World,
    space: WorkspaceView,
    rel: Seq<char>,
    access: SnapshotAccess,
    query: QueryView,
) -> bool {
    let candidate = parsed(joined(space.cwd, encode_utf8(rel), space.platform), space.platform);
    let place = landing(world, candidate);
    let walked = parsed(space.cwd, space.platform);
    let tail = below(walked, candidate);
    ||| root_asks(world, space, query)
    ||| root_fault(world, space, rel) is None && {
        ||| climb_asks(world, access, candidate, Seq::empty(), false, query)
        ||| !climbs_through(world, access, candidate) && {
            ||| anchor_asks(world, candidate, candidate.len(), query)
            ||| begins_with(place, space.root) && {
                ||| dangling_asks(world, walked, tail, query)
                ||| match dangling_from(world, space.root, walked, tail) {
                    DanglingView::Absent => settle_asks(world, space, rel, access, place, query),
                    DanglingView::ResolvesInside(inside) => settle_asks(
                        world,
                        space,
                        rel,
                        access,
                        inside,
                        query,
                    ),
                    _ => false,
                }
            }
        }
    }
}

/// Whether a target stays below its root: it is reached by one or more names of
/// entries, and so is every directory that it has created on the way.
pub open spec fn confined(target: TargetView) -> bool {
    &&& target.components.len() > 0
    &&& all_entries(target.components, target.platform)
    &&& proper_places(target.traversed_dirs, target.platform)
}

/// What [`Workspace::resolve_write_path`] found, as a [`Resolution`].
pub open spec fn resolution_of(found: Result<Result<SnapshotTarget, UnresolvablePath>, PittyError>) -> Resolution {
    match found {
        Err(fault) => Resolution::Fault(fault@),
        Ok(Err(path)) => Resolution::Unresolvable(path.reason()),
        Ok(Ok(target)) => Resolution::Target(target@),
    }
}

impl Workspace {
    fn validated_root(&self, facts: &Facts, rel: &str) -> (r: Result<Option<PittyError>, Query>)
        ensures
            match r {
                Ok(None) => forall|w: World| #[trigger]
                    facts.holds_in(w) ==> root_fault(w, self@, rel@) is None,
                Ok(Some(fault)) => forall|w: World| #[trigger]
                    facts.holds_in(w) ==> root_fault(w, self@, rel@) == Some(fault@),
                Err(query) => !facts.knows(query@) && forall|w: World| #[trigger]
                    facts.holds_in(w) ==> root_asks(w, self@, query@),
            },
    {
        let captured = match &self.capture {
            Capture::Held(Some(captured)) => *captured,
            _ => {
                return Ok(None);
            },
        };
        let live = match facts.anchor() {
            None => {
                return Err(Query::Anchor);
            },
            Some(None) => {
                return Ok(
                    Some(
                        PittyError::Process(
                            between(
                                "cannot confirm the workspace directory for snapshot path '",
                                rel,
                                "'",
                            ),
                        ),
                    ),
                );
            },
            Some(Some(live)) => live,
        };
        if live.0 != captured.0 || live.1 != captured.1 {
            return Ok(
                Some(
                    PittyError::Process(
                        between(
                            "the workspace descriptor for snapshot path '",
                            rel,
                            "' no longer reports the directory it was opened on",
                        ),
                    ),
                ),
            );
        }
        let named = match facts.identity(self.canonical_cwd.as_slice()) {
            None => {
                return Err(Query::Identity(copy_path(self.canonical_cwd.as_slice())));
            },
            Some(named) => named,
        };
        let shown_root = show_path(
            render_path(self.canonical_cwd.as_slice(), self.platform).as_slice(),
            self.platform,
        );
        match named {
            None => {
                let mut message = between(
                    "the workspace directory ",
                    shown_root.as_str(),
                    " no longer exists, so snapshot path '",
                );
                message.append(rel);
                message.append("' cannot be resolved against the directory this run started in");
                Ok(Some(PittyError::Scenario(message)))
            },
            Some(named) => if named.0 != live.0 || named.1 != live.1 {
                let mut message = between(
                    "the workspace directory ",
                    shown_root.as_str(),
                    " is no longer the directory this run started in, so snapshot path '",
                );
                message.append(rel);
                message.append(
                    "' is refused; a snapshot is written only to the workspace captured before the scenario ran",
                );
                Ok(Some(PittyError::Scenario(message)))
            } else {
                Ok(None)
            },
        }
    }

    fn settle(&self, facts: &Facts, rel: &str, access: SnapshotAccess, place: &[Component]) -> (r: Result<
        Result<Result<SnapshotTarget, UnresolvablePath>, PittyError>,
        Query,
    >)
        ensures
            r matches Ok(Ok(Ok(target))) ==> confined(target@),
            match r {
                Ok(found) => forall|w: World| #[trigger]
                    facts.holds_in(w) ==> resolution_of(found) == settled(
                        w,
                        self@,
                        rel@,
                        access,
                        parts(place@),
                    ),
                Err(query) => !facts.knows(query@) && forall|w: World| #[trigger]
                    facts.holds_in(w) ==> settle_asks(
                        w,
                        self@,
                        rel@,
                        access,
                        parts(place@),
                        query@,
                    ),
            },
    {
        let components = match relative_components(
            self.canonical_cwd.as_slice(),
            place,
            self.platform,
        ) {
            None => {
                return Ok(Err(escape_error(rel)));
            },
            Some(components) => components,
        };
        assert(name_list(components@).len() == components@.len());
        proof {
            lemma_relative_names_are_entries(
                parts(self.canonical_cwd@),
                parts(place@),
                self.platform,
            );
        }
        if components.len() == 0 {
            return Ok(
                Err(
                    PittyError::Scenario(
                        between(
                            "snapshot path '",
                            rel,
                            "' names the workspace directory itself, not a file to record",
                        ),
                    ),
                ),
            );
        }
        match &self.capture {
            Capture::Failed(message) => {
                return Ok(Err(PittyError::Process(message.clone())));
            },
            Capture::Held(_) => {},
        }
        let display = self.resolve_path(rel);
        let traversed_dirs = match access {
            SnapshotAccess::Record => {
                let candidate = parse_path(display.as_slice(), self.platform);
                match anchor_in_root_representation(facts, candidate.as_slice()) {
                    Err(query) => {
                        return Err(query);
                    },
                    Ok(path) => cancelled_directories(
                        self.canonical_cwd.as_slice(),
                        path.as_slice(),
                        self.platform,
                    ),
                }
            },
            SnapshotAccess::Verify => {
                let none: Vec<Vec<Vec<u8>>> = Vec::new();
                assert(name_lists(none@) =~= Seq::<Seq<Seq<u8>>>::empty());
                none
            },
        };
        Ok(
            Ok(
                Ok(
                    SnapshotTarget {
                        platform: self.platform,
                        display,
                        root: copy_path(self.canonical_cwd.as_slice()),
                        components,
                        traversed_dirs,
                    },
                ),
            ),
        )
    }

    /// Resolve a snapshot path, confined to the workspace directory, or name the
    /// next question for the kernel.
    ///
    /// A question is asked only where its answer is not known and the resolution
    /// takes it, so once all of those are known there is a result.
    ///
    /// An `Err` found is a fault of the scenario or of the environment, which stops
    /// the run. An `Ok(Err(_))` is a path that the filesystem refuses, which is a
    /// failed expectation.
    pub fn resolve_write_path(&self, facts: &Facts, rel: &str, access: SnapshotAccess) -> (r: Result<
        Result<Result<SnapshotTarget, UnresolvablePath>, PittyError>,
        Query,
    >)
        ensures
            r matches Ok(Ok(Ok(target))) ==> confined(target@),
            match r {
                Ok(found) => forall|w: World| #[trigger]
                    facts.holds_in(w) ==> resolution_of(found) == resolution(w, self@, rel@, access),
                Err(query) => !facts.knows(query@) && forall|w: World| #[trigger]
                    facts.holds_in(w) ==> resolution_asks(w, self@, rel@, access, query@),
            },
    {
        match self.validated_root(facts, rel) {
            Err(query) => {
                return Err(query);
            },
            Ok(Some(fault)) => {
                return Ok(Err(fault));
            },
            Ok(None) => {},
        }
        let candidate = parse_path(self.resolve_path(rel).as_slice(), self.platform);
        let climbs = match access {
            SnapshotAccess::Record => climbs_through_existing_non_directory(
                facts,
                candidate.as_slice(),
            ),
            SnapshotAccess::Verify => climbs_through_missing_component(facts, candidate.as_slice()),
        };
        match climbs {
            Err(query) => {
                return Err(query);
            },
            Ok(true) => {
                return Ok(Ok(Err(unresolvable_climb(rel))));
            },
            Ok(false) => {},
        }
        let place = match resolve_existing_ancestor(facts, candidate.as_slice()) {
            Err(query) => {
                return Err(query);
            },
            Ok(place) => place,
        };
        if !is_within(place.as_slice(), self.canonical_cwd.as_slice()) {
            return Ok(Err(escape_error(rel)));
        }
        let walked = parse_path(self.cwd.as_slice(), self.platform);
        match dangling_link_target(
            facts,
            walked.as_slice(),
            self.canonical_cwd.as_slice(),
            candidate.as_slice(),
        ) {
            Err(query) => Err(query),
            Ok(DanglingLink::Absent) => self.settle(facts, rel, access, place.as_slice()),
            Ok(DanglingLink::ResolvesInside(inside)) => self.settle(
                facts,
                rel,
                access,
                inside.as_slice(),
            ),
            Ok(DanglingLink::Refused) => Ok(Err(symlink_tail_error(rel))),
            Ok(DanglingLink::UnresolvableChain) => Ok(Ok(Err(unresolvable_chain(rel)))),
            Ok(DanglingLink::UnresolvableClimb) => Ok(Ok(Err(unresolvable_climb(rel)))),
        }
    }
}

fn escape_error(rel: &str) -> (r: PittyError)
    ensures
        r@ == ErrorView::Scenario(escape_message(rel@)),
{
    PittyError::Scenario(
        between(
            "snapshot path '",
            rel,
            "' escapes the workspace; snapshot writes are confined to the workspace directory",
        ),
    )
}

fn symlink_tail_error(rel: &str) -> (r: PittyError)
    ensures
        r@ == ErrorView::Scenario(symlink_message(rel@)),
{
    PittyError::Scenario(
        between(
            "snapshot path '",
            rel,
            "' passes through a symlink; snapshot writes must not follow symlinks",
        ),
    )
}

fn unresolvable_climb(rel: &str) -> (r: UnresolvablePath)
    ensures
        r.reason() == climb_message(rel@),
{
    UnresolvablePath {
        message: between(
            "cannot write snapshot ",
            rel,
            ": '..' climbs through a component that is not a resolvable directory",
        ),
    }
}

fn unresolvable_chain(rel: &str) -> (r: UnresolvablePath)
    ensures
        r.reason() == chain_message(rel@),
{
    UnresolvablePath {
        message: between(
            "cannot write snapshot ",
            rel,
            ": the symlink chain does not resolve (a cycle, or more levels of symbolic links than the platform resolves)",
        ),
    }
}

/// Without the directory held open, no snapshot path resolves.
pub proof fn lemma_uncaptured_never_resolves(
    world: World,
    space: WorkspaceView,
    rel: Seq<char>,
    access: SnapshotAccess,
)
    requires
        space.capture is Failed,
    ensures
        !(resolution(world, space, rel, access) is Target),
{
}

/// Where the workspace's name no longer denotes the directory held open, no
/// snapshot path resolves.
pub proof fn lemma_replaced_workspace_is_refused(
    world: World,
    space: WorkspaceView,
    rel: Seq<char>,
    access: SnapshotAccess,
)
    requires
        space.capture matches CaptureView::Held(Some(captured)) && (world.identity)(space.root) != Some(
            captured,
        ),
    ensures
        resolution(world, space, rel, access) is Fault,
{
}

/// A path that lands outside of the workspace is the scenario's own fault, unless
/// the kernel already refuses it.
pub proof fn lemma_escape_is_scenario_fault(
    world: World,
    space: WorkspaceView,
    rel: Seq<char>,
    access: SnapshotAccess,
)
    requires
        root_fault(world, space, rel) is None,
        ({
            let candidate = parsed(joined(space.cwd, encode_utf8(rel), space.platform), space.platform);
            !climbs_through(world, access, candidate) && !begins_with(
                landing(world, candidate),
                space.root,
            )
        }),
    ensures
        resolution(world, space, rel, access) == Resolution::Fault(
            ErrorView::Scenario(escape_message(rel)),
        ),
{
}

/// A verifying run has nothing created.
pub proof fn lemma_verify_creates_nothing(world: World, space: WorkspaceView, rel: Seq<char>)
    ensures
        resolution(world, space, rel, SnapshotAccess::Verify) matches Resolution::Target(target)
            ==> target.traversed_dirs.len() == 0,
{
}

/// Whatever file a verifying run compares with, a recording run writes that same
/// file.
pub proof fn lemma_both_halves_name_one_file(world: World, space: WorkspaceView, rel: Seq<char>)
    ensures
        resolution(world, space, rel, SnapshotAccess::Verify) matches Resolution::Target(read)
            ==> (resolution(world, space, rel, SnapshotAccess::Record) matches Resolution::Target(
            written,
        ) && written.components == read.components && written.root == read.root),
{
    let candidate = parsed(joined(space.cwd, encode_utf8(rel), space.platform), space.platform);
    if !climbs_through(world, SnapshotAccess::Verify, candidate) {
        lemma_record_is_laxer(world, candidate, Seq::empty());
    }
}

/// On Unix, the path that is rebuilt from a target's names denotes a place below its
/// root: the root, followed by these names and nothing else.
pub proof fn lemma_safe_path_stays_below(target: TargetView)
    requires
        confined(target),
        target.platform is Unix,
        unix_path(target.root),
    ensures
        parsed(
            rendered(target.root + normals(target.components), target.platform),
            target.platform,
        ) == target.root + normals(target.components),
        begins_with(target.root + normals(target.components), target.root),
{
    let path = target.root + normals(target.components);
    let n = target.root.len() as int;
    assert(path.take(n) =~= target.root);
    assert(unix_path(path)) by {
        assert forall|i: int| 0 <= i < path.len() implies ((#[trigger] path[i]) matches Part::Normal(name)
            ==> plain_name(name, Platform::Unix)) by {
            if i < n {
                assert(path[i] == target.root[i]);
            } else {
                assert(path[i] == Part::Normal(target.components[i - n]));
                assert(entry_name(target.components[i - n], Platform::Unix));
            }
        }
        assert forall|i: int| 0 <= i < path.len() implies !((#[trigger] path[i]) is Prefix) by {
            if i < n {
                assert(path[i] == target.root[i]);
            } else {
                assert(path[i] == Part::Normal(target.components[i - n]));
            }
        }
        assert forall|i: int| 0 < i < path.len() implies !((#[trigger] path[i]) is RootDir || path[i] is CurDir) by {
            if i < n {
                assert(path[i] == target.root[i]);
            } else {
                assert(path[i] == Part::Normal(target.components[i - n]));
            }
        }
    }
    lemma_render_reads_back(path);
}

/// On Windows too the path that is rebuilt from a target's names denotes a place below
/// its root.
pub proof fn lemma_windows_safe_path_stays_below(target: TargetView)
    requires
        confined(target),
        target.platform is Windows,
        windows_path(target.root),
    ensures
        parsed(
            rendered(target.root + normals(target.components), target.platform),
            target.platform,
        ) == target.root + normals(target.components),
        begins_with(target.root + normals(target.components), target.root),
{
    let path = target.root + normals(target.components);
    let n = target.root.len() as int;
    assert(path.take(n) =~= target.root);
    assert forall|i: int| n <= i < path.len() implies ((#[trigger] path[i]) matches Part::Normal(name)
        && windows_name(name)) by {
        assert(path[i] == Part::Normal(target.components[i - n]));
        assert(entry_name(target.components[i - n], Platform::Windows));
    }
    assert(forall|i: int| 0 <= i < n ==> #[trigger] path[i] == target.root[i]);
    if volume_path(target.root) {
        assert(volume_path(path));
    } else {
        assert(path[n] is Normal);
        assert(head_len(path) == head_len(target.root));
        assert forall|i: int| head_len(path) <= i < path.len() implies windows_step(#[trigger] path[i]) by {
            if i < n {
                assert(windows_step(target.root[i]));
            }
        }
        assert(windows_route(path));
    }
    lemma_windows_render_reads_back(path);
}

/// On Unix the root of a workspace is always a path that bytes denote.
pub proof fn lemma_unix_root_is_sound(cwd: Seq<u8>, canonical: Option<Vec<u8>>)
    ensures
        unix_path(root_of(cwd, canonical, Platform::Unix)),
{
    match canonical {
        Some(raw) => {
            lemma_parsed_is_unix_path(raw@);
        },
        None => {
            lemma_parsed_is_unix_path(cwd);
            lemma_normalized_unix_path(parsed(cwd, Platform::Unix));
        },
    }
}

proof fn lemma_normalized_unix_path(path: Seq<Part>)
    requires
        unix_path(path),
    ensures
        unix_path(normalized(path, Platform::Unix)),
    decreases path.len(),
{
    if path.len() > 0 {
        let front = path.drop_last();
        assert(forall|i: int| 0 <= i < front.len() ==> #[trigger] front[i] == path[i]);
        assert(unix_path(front));
        lemma_normalized_unix_path(front);
        assert(path[path.len() - 1] == path.last());
        let done = normalized(front, Platform::Unix);
        let out = normalized(path, Platform::Unix);
        if path.last() is RootDir {
            assert(front.len() == 0);
            assert(done =~= Seq::<Part>::empty());
        }
        assert(forall|i: int| 0 <= i < out.len() && i < done.len() && out.len() > 1 ==> #[trigger] out[i] == done[i]);
    }
}

/// Every target that resolution gives stays below its root: the path rebuilt from its
/// names denotes the root followed by them. The root is one that bytes denote, as on
/// Unix any is.
pub proof fn lemma_every_target_stays_below(
    world: World,
    space: WorkspaceView,
    rel: Seq<char>,
    access: SnapshotAccess,
)
    requires
        space.platform is Unix ==> unix_path(space.root),
        space.platform is Windows ==> windows_path(space.root),
    ensures
        resolution(world, space, rel, access) matches Resolution::Target(target) ==> {
            let safe = parsed(
                rendered(target.root + normals(target.components), target.platform),
                target.platform,
            );
            &&& confined(target)
            &&& target.root == space.root
            &&& safe == target.root + normals(target.components)
            &&& begins_with(safe, target.root)
        },
{
    if let Resolution::Target(target) = resolution(world, space, rel, access) {
        let candidate = parsed(
            joined(space.cwd, encode_utf8(rel), space.platform),
            space.platform,
        );
        let walked = parsed(space.cwd, space.platform);
        lemma_relative_names_are_entries(space.root, landing(world, candidate), space.platform);
        if let DanglingView::ResolvesInside(inside) = dangling_from(
            world,
            space.root,
            walked,
            below(walked, candidate),
        ) {
            lemma_relative_names_are_entries(space.root, inside, space.platform);
        }
        lemma_cancelled_are_proper(space.root, anchored(world, candidate), space.platform);
        assert(confined(target));
        if space.platform is Unix {
            lemma_safe_path_stays_below(target);
        } else {
            lemma_windows_safe_path_stays_below(target);
        }
    }
}

/// Only declared secrets are registered, and no empty one among them.
pub proof fn lemma_secrets_are_declared(list: Seq<(String, Variable)>, value: Seq<char>)
    ensures
        declared_secrets(list).contains(value) == (value.len() > 0 && exists|i: int|
            0 <= i < list.len() && (#[trigger] list[i]).1.secret && list[i].1.value@ == value),
    decreases list.len(),
{
    if list.len() > 0 {
        let front = list.drop_last();
        let last = list.last();
        lemma_secrets_are_declared(front, value);
        let all = declared_secrets(list);
        let some = declared_secrets(front);
        if all.contains(value) {
            let k = choose|k: int| 0 <= k < all.len() && all[k] == value;
            if k < some.len() {
                assert(some[k] == value);
                let i = choose|i: int|
                    0 <= i < front.len() && (#[trigger] front[i]).1.secret && front[i].1.value@ == value;
                assert(list[i] == front[i]);
            } else {
                assert(list[list.len() - 1] == last);
            }
        }
        if value.len() > 0 && exists|i: int|
            0 <= i < list.len() && (#[trigger] list[i]).1.secret && list[i].1.value@ == value {
            let i = choose|i: int|
                0 <= i < list.len() && (#[trigger] list[i]).1.secret && list[i].1.value@ == value;
            if i < front.len() {
                assert(front[i] == list[i]);
                let k = choose|k: int| 0 <= k < some.len() && some[k] == value;
                assert(all[k] == value);
            } else {
                assert(all[all.len() - 1] == value);
            }
        }
    }
}

/// A name has a value if and only if some variable is declared under it, and the last
/// declaration counts.
pub proof fn lemma_last_declaration_counts(list: Seq<(String, Variable)>, name: Seq<char>, i: int)
    ensures
        variable_names(list).contains_key(name) == (exists|j: int|
            0 <= j < list.len() && (#[trigger] list[j]).0@ == name),
        0 <= i < list.len() && list[i].0@ == name && (forall|j: int|
            i < j < list.len() ==> (#[trigger] list[j]).0@ != name) ==> variable_names(list)[name]
            == list[i].1.value@,
    decreases list.len(),
{
    if list.len() > 0 {
        let front = list.drop_last();
        let n = list.len() - 1;
        lemma_last_declaration_counts(front, name, i);
        assert(list.last() == list[n]);
        if exists|j: int| 0 <= j < front.len() && (#[trigger] front[j]).0@ == name {
            let j = choose|j: int| 0 <= j < front.len() && (#[trigger] front[j]).0@ == name;
            assert(list[j].0@ == name);
        }
        if exists|j: int| 0 <= j < list.len() && (#[trigger] list[j]).0@ == name {
            let j = choose|j: int| 0 <= j < list.len() && (#[trigger] list[j]).0@ == name;
            if j < n {
                assert(front[j].0@ == name);
            }
        }
        if 0 <= i < n && list[i].0@ == name && (forall|j: int|
            i < j < list.len() ==> (#[trigger] list[j]).0@ != name) {
            assert(front[i] == list[i]);
            assert(list[n].0@ != name);
            assert forall|j: int| i < j < front.len() implies (#[trigger] front[j]).0@ != name by {
                assert(list[j] == front[j]);
            }
        }
    }
}

/// A prepared workspace has what the scenario says: each name of the environment as it is
/// written, in order, with its value expanded by the declared variables first and the
/// environment of this process second; every other setting as it was given.
pub proof fn lemma_prepared_as_the_scenario_says(
    scenario: Scenario,
    parent_env: Names,
    cwd: Seq<u8>,
    canonical: Option<Vec<u8>>,
    opened: Result<Option<DirIdentity>, String>,
    platform: Platform,
    i: int,
)
    ensures
        ({
            let space = prepared(scenario, parent_env, cwd, canonical, opened, platform);
            let variables = variable_names(scenario.variables@);
            &&& space.platform == platform
            &&& space.cwd == cwd
            &&& space.variables == variables
            &&& space.parent_env == parent_env
            &&& space.secrets == declared_secrets(scenario.variables@)
            &&& space.env.len() == scenario.env@.len()
            &&& 0 <= i < scenario.env@.len() ==> space.env[i] == (
                scenario.env@[i].0@,
                expanded(variables, parent_env, scenario.env@[i].1@),
            )
            &&& canonical matches Some(raw) ==> space.root == parsed(raw@, platform)
            &&& canonical is None ==> space.root == normalized(parsed(cwd, platform), platform)
            &&& opened matches Ok(identity) ==> space.capture == CaptureView::Held(identity)
            &&& opened matches Err(error) ==> space.capture == CaptureView::Failed(
                "cannot open workspace directory "@ + shown(cwd, platform)
                    + " for snapshot containment: "@ + error@,
            )
        }),
{
}

/// Entries of an environment keep their names and their order, and each value is expanded.
pub proof fn lemma_pairs_are_expanded(variables: Names, fallback: Names, list: Pairs, i: int)
    ensures
        expanded_pairs(variables, fallback, list).len() == list.len(),
        0 <= i < list.len() ==> expanded_pairs(variables, fallback, list)[i] == (
            list[i].0,
            expanded(variables, fallback, list[i].1),
        ),
{
}

/// When the workspace root is refused, and in which words. Where a directory is held open
/// with known numbers, its descriptor must still report them, and its name must still
/// denote it; where none are known there is nothing to compare.
pub proof fn lemma_root_is_compared_with_the_one_held(
    world: World,
    space: WorkspaceView,
    rel: Seq<char>,
    captured: DirIdentity,
)
    ensures
        space.capture == CaptureView::Held(None) ==> root_fault(world, space, rel) is None,
        space.capture is Failed ==> root_fault(world, space, rel) is None,
        space.capture == CaptureView::Held(Some(captured)) ==> {
            let fault = root_fault(world, space, rel);
            let root = shown(rendered(space.root, space.platform), space.platform);
            &&& fault is None == (world.anchor == Some(captured) && (world.identity)(space.root) == Some(
                captured,
            ))
            &&& world.anchor is None ==> fault == Some(
                ErrorView::Process(
                    "cannot confirm the workspace directory for snapshot path '"@ + rel + "'"@,
                ),
            )
            &&& world.anchor matches Some(live) ==> (live != captured ==> fault == Some(
                ErrorView::Process(
                    "the workspace descriptor for snapshot path '"@ + rel
                        + "' no longer reports the directory it was opened on"@,
                ),
            ))
            &&& world.anchor == Some(captured) && (world.identity)(space.root) is None ==> fault == Some(
                ErrorView::Scenario(
                    "the workspace directory "@ + root + " no longer exists, so snapshot path '"@ + rel
                        + "' cannot be resolved against the directory this run started in"@,
                ),
            )
            &&& world.anchor == Some(captured) ==> ((world.identity)(space.root) matches Some(named) ==> (
            named != captured ==> fault == Some(
                ErrorView::Scenario(
                    "the workspace directory "@ + root
                        + " is no longer the directory this run started in, so snapshot path '"@ + rel
                        + "' is refused; a snapshot is written only to the workspace captured before the scenario ran"@,
                ),
            )))
        },
{
}

/// A workspace is prepared for every directory, also one that could not be opened or does
/// not exist yet; only a temporary one that could not be made, or not made private, is
/// answered with the reason.
pub proof fn lemma_only_a_temporary_site_can_fail(
    cwd: Vec<u8>,
    canonical: Option<Vec<u8>>,
    opened: Result<Option<DirIdentity>, String>,
    error: String,
)
    ensures
        site_fault(Site::Directory { cwd, canonical, opened }) is None,
        site_fault(Site::TempFailed(error)) == Some("failed to create temp workspace: "@ + error@),
        site_fault(Site::ModeFailed(error)) == Some("failed to set temp dir mode: "@ + error@),
{
}

/// Judging the root asks for nothing where no identity was noted; otherwise it asks for
/// the identity of the directory held open, and for that at the root's path only while
/// the first is the one that was noted.
pub proof fn lemma_root_asks_for_two_identities(world: World, space: WorkspaceView, query: QueryView)
    ensures
        root_asks(world, space, query) ==> query is Anchor || query == QueryView::Identity(space.root),
        !(space.capture matches CaptureView::Held(Some(_))) ==> !root_asks(world, space, query),
        space.capture matches CaptureView::Held(Some(captured)) ==> (root_asks(
            world,
            space,
            QueryView::Anchor,
        ) && root_asks(world, space, QueryView::Identity(space.root)) == (world.anchor == Some(captured))),
{
}

/// Settling on a place asks again only for what the way of a recorded path crosses: a path
/// that is only compared, the workspace directory itself, a place outside it and a
/// workspace that could not be opened are settled without asking.
pub proof fn lemma_settling_asks_for_a_recorded_path_only(
    world: World,
    space: WorkspaceView,
    rel: Seq<char>,
    access: SnapshotAccess,
    place: Seq<Part>,
    query: QueryView,
)
    ensures
        ({
            let candidate = parsed(
                joined(space.cwd, encode_utf8(rel), space.platform),
                space.platform,
            );
            let found = settled(world, space, rel, access, place);
            settle_asks(world, space, rel, access, place, query) == (found is Target && access
                is Record && anchor_asks(world, candidate, candidate.len(), query))
        }),
{
}

/// A refused path asks for nothing beyond what refused it. A root that was replaced ends
/// the questions at the root; a `..` that climbs out of what is no directory ends them
/// before the place is looked for; a place outside the workspace ends them before its
/// links are judged; and a path that gets as far asks for its links and nothing more.
pub proof fn lemma_refusal_ends_the_questions(
    world: World,
    space: WorkspaceView,
    rel: Seq<char>,
    access: SnapshotAccess,
    query: QueryView,
)
    ensures
        ({
            let candidate = parsed(
                joined(space.cwd, encode_utf8(rel), space.platform),
                space.platform,
            );
            let walked = parsed(space.cwd, space.platform);
            let asks = resolution_asks(world, space, rel, access, query);
            let root = root_asks(world, space, query);
            let climb = climb_asks(world, access, candidate, Seq::empty(), false, query);
            let way = anchor_asks(world, candidate, candidate.len(), query);
            let links = dangling_asks(world, walked, below(walked, candidate), query);
            let sound = root_fault(world, space, rel) is None;
            let climbing = climbs_through(world, access, candidate);
            let inside = begins_with(landing(world, candidate), space.root);
            &&& !sound ==> asks == root
            &&& sound && climbing ==> asks == (root || climb)
            &&& sound && !climbing && !inside ==> asks == (root || climb || way)
            &&& sound && !climbing && inside ==> asks == (root || climb || way || links)
        }),
{
}

} // verus!
