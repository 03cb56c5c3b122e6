//! The traversal and dispatch engine: which unit a file goes to, when a file is
//! already up to date, how output paths mirror input paths, and the build session
//! that walks a tree one directory at a time.
use vstd::prelude::*;
use crate::config::{quiet_in, Config};
use crate::text::{ends_with, has_suffix};

verus! {

/// The unit that handles a file.
#[derive(PartialEq, Eq, Structural, Clone, Copy, Debug)]
pub enum FileKind {
    /// Script sources, sent through the script unit.
    Script,
    /// Markup documents, sent through the markup unit.
    Markup,
    /// Everything else, copied byte for byte.
    Generic,
}

/// The unit for a file name: `.js` is script, `.html` is markup, any other
/// suffix (or none) is copied. The test is exact and case-sensitive.
pub open spec fn kind_of(name: Seq<char>) -> FileKind {
    if has_suffix(name, ".js"@) {
        FileKind::Script
    } else if has_suffix(name, ".html"@) {
        FileKind::Markup
    } else {
        FileKind::Generic
    }
}

/// Classifies a file by the suffix of its name.
pub fn classify(name: &str) -> (r: FileKind)
    ensures
        r == kind_of(name@),
{
    if ends_with(name, ".js") {
        FileKind::Script
    } else if ends_with(name, ".html") {
        FileKind::Markup
    } else {
        FileKind::Generic
    }
}

/// A file is up to date only when its output exists and was modified strictly
/// later than its input; equal times are rebuilt.
pub open spec fn up_to_date(input_modified: i128, output_modified: Option<i128>) -> bool {
    match output_modified {
        Some(t) => t > input_modified,
        None => false,
    }
}

/// Executable form of [`up_to_date`].
pub fn is_up_to_date(input_modified: i128, output_modified: Option<i128>) -> (r: bool)
    ensures
        r == up_to_date(input_modified, output_modified),
{
    match output_modified {
        Some(t) => t > input_modified,
        None => false,
    }
}

/// The unit of a file depends on the last five characters of its path alone:
/// two paths that end in the same name of five characters or more are handled alike.
pub proof fn lemma_kind_by_suffix(p: Seq<char>, q: Seq<char>, name: Seq<char>)
    requires
        name.len() >= 5,
    ensures
        kind_of(p + name) == kind_of(q + name),
        kind_of(p + name) == kind_of(name),
{
    reveal_strlit(".js");
    reveal_strlit(".html");
    lemma_suffix_within(p, name, ".js"@);
    lemma_suffix_within(q, name, ".js"@);
    lemma_suffix_within(p, name, ".html"@);
    lemma_suffix_within(q, name, ".html"@);
}

proof fn lemma_suffix_within(p: Seq<char>, name: Seq<char>, suffix: Seq<char>)
    requires
        suffix.len() <= name.len(),
    ensures
        has_suffix(p + name, suffix) == has_suffix(name, suffix),
{
    let s = p + name;
    assert(s.subrange(s.len() - suffix.len(), s.len() as int) =~= name.subrange(
        name.len() - suffix.len(),
        name.len() as int,
    ));
}

/// The staleness boundary: equal modification times are rebuilt, and an output
/// strictly newer than its input is skipped.
pub proof fn lemma_staleness_boundary(input_modified: i128, output_modified: i128)
    ensures
        !up_to_date(input_modified, Some(input_modified)),
        up_to_date(input_modified, Some(output_modified)) == (output_modified > input_modified),
        !up_to_date(input_modified, None),
{
}

/// `name` inside the directory `dir`.
pub open spec fn join(dir: Seq<char>, name: Seq<char>) -> Seq<char> {
    dir + "/"@ + name
}

/// Builds the path of `name` inside `dir`.
pub fn join_path(dir: &str, name: &str) -> (r: String)
    ensures
        r@ == join(dir@, name@),
{
    let mut r = String::from_str(dir);
    r.append("/");
    r.append(name);
    r
}

/// The output path that mirrors `path`, a path under `input_root`.
pub open spec fn mirror(input_root: Seq<char>, output_root: Seq<char>, path: Seq<char>) -> Seq<char> {
    output_root + path.subrange(input_root.len() as int, path.len() as int)
}

/// Mirroring commutes with descending: the output of an entry of a directory is
/// that entry inside the directory's output. So the output tree repeats the input
/// tree's structure level by level, from the roots down.
pub proof fn lemma_mirror_child(
    input_root: Seq<char>,
    output_root: Seq<char>,
    relative: Seq<char>,
    name: Seq<char>,
)
    ensures
        mirror(input_root, output_root, input_root + relative) == output_root + relative,
        mirror(input_root, output_root, join(input_root + relative, name)) == join(
            mirror(input_root, output_root, input_root + relative),
            name,
        ),
        join(input_root + relative, name) == input_root + join(relative, name),
        join(output_root + relative, name) == output_root + join(relative, name),
{
    let p = input_root + relative;
    assert(p.subrange(input_root.len() as int, p.len() as int) =~= relative);
    let c = join(p, name);
    assert(c.subrange(input_root.len() as int, c.len() as int) =~= join(relative, name));
    assert(join(input_root + relative, name) =~= input_root + join(relative, name));
    assert(join(output_root + relative, name) =~= output_root + join(relative, name));
}

/// Distinct directories under the input root have distinct output directories:
/// each input directory has exactly one counterpart.
pub proof fn lemma_mirror_injective(
    input_root: Seq<char>,
    output_root: Seq<char>,
    a: Seq<char>,
    b: Seq<char>,
)
    requires
        mirror(input_root, output_root, input_root + a) == mirror(
            input_root,
            output_root,
            input_root + b,
        ),
    ensures
        a == b,
{
    lemma_mirror_child(input_root, output_root, a, Seq::empty());
    lemma_mirror_child(input_root, output_root, b, Seq::empty());
    let x = output_root + a;
    let y = output_root + b;
    assert(x.subrange(output_root.len() as int, x.len() as int) =~= a);
    assert(y.subrange(output_root.len() as int, y.len() as int) =~= b);
}


/// A directory to visit: its input path, its output path, and its path relative
/// to the roots (empty for the roots themselves).
pub struct DirNode {
    pub input: String,
    pub output: String,
    pub relative: String,
}

/// `n` pairs the input and output directories at the same place under the roots.
pub open spec fn node_under(n: DirNode, input_root: Seq<char>, output_root: Seq<char>) -> bool {
    n.input@ == input_root + n.relative@ && n.output@ == output_root + n.relative@
}

/// The node of the roots themselves.
pub open spec fn is_root(n: DirNode) -> bool {
    n.relative@.len() == 0
}

/// What a listing says of one entry of a directory.
pub enum EntryKind {
    Directory,
    /// A regular file, with its modification time and that of its output, if the
    /// output exists (any one clock; nanoseconds since the Unix epoch in practice).
    File { input_modified: i128, output_modified: Option<i128> },
    /// An entry that could not be read or typed.
    Unreadable,
}

/// One entry of a directory listing.
pub struct Entry {
    pub name: String,
    pub kind: EntryKind,
}

/// The result of listing a directory.
pub enum Listing {
    /// The directory does not exist.
    Missing,
    /// It exists, but its entries could not be listed.
    Unreadable,
    Entries(Vec<Entry>),
}

/// The work for one entry of a directory.
pub enum Action {
    /// The output is newer than the input: nothing is done.
    Skip { input: String, output: String },
    /// Send the input through the given unit, writing the output.
    Run { unit: FileKind, input: String, output: String },
    /// Create the output directory of a subdirectory, with its missing ancestors,
    /// then hand the result to [`Build::dir_made`].
    Descend(DirNode),
    /// The entry at this position could not be read; it is reported and passed over.
    Unreadable(usize),
}

/// What the engine decides on a listed directory.
pub enum Visit {
    /// The directory does not exist: the whole run ends.
    Fatal,
    /// The directory cannot be listed: it is reported and its subtree left out.
    Abandoned,
    /// Log the entry into the directory where `announce` holds, create its output
    /// directory first where `create_output` holds (the roots), then do one action
    /// per entry, in the listing's order.
    Work { announce: bool, create_output: bool, actions: Vec<Action> },
}

/// What to report once a unit has run on a file.
pub enum FileReport {
    /// Success in quiet mode.
    Silent,
    /// Success, logged as `Compiled input -> output`.
    Compiled { input: String, output: String },
    /// Failure, reported with the input path and the unit's reason.
    Failed { input: String, reason: String },
}

/// Counts of outcomes over a run.
#[derive(PartialEq, Eq, Structural, Clone, Copy, Debug)]
pub struct Tally {
    pub skipped: u64,
    pub succeeded: u64,
    pub failed: u64,
    pub dirs_failed: u64,
}

/// `x` raised by `n`, held at the largest `u64`.
pub open spec fn bumped(x: u64, n: nat) -> u64 {
    if x + n <= u64::MAX {
        (x + n) as u64
    } else {
        u64::MAX
    }
}

fn bump(x: u64) -> (r: u64)
    ensures
        r == bumped(x, 1),
{
    if x < u64::MAX {
        x + 1
    } else {
        x
    }
}

/// The action that an entry, at position `idx` of the listing of `node`, calls for.
pub open spec fn action_for(a: Action, node: DirNode, e: Entry, idx: int) -> bool {
    let input = join(node.input@, e.name@);
    let output = join(node.output@, e.name@);
    match e.kind {
        EntryKind::Directory => match a {
            Action::Descend(c) => c.input@ == input && c.output@ == output && c.relative@
                == join(node.relative@, e.name@),
            _ => false,
        },
        EntryKind::File { input_modified, output_modified } => if up_to_date(
            input_modified,
            output_modified,
        ) {
            match a {
                Action::Skip { input: i, output: o } => i@ == input && o@ == output,
                _ => false,
            }
        } else {
            match a {
                Action::Run { unit, input: i, output: o } => unit == kind_of(e.name@) && i@
                    == input && o@ == output,
                _ => false,
            }
        },
        EntryKind::Unreadable => match a {
            Action::Unreadable(k) => k == idx,
            _ => false,
        },
    }
}

/// The subdirectory that a mirrored directory hands out is mirrored in turn, at
/// the same relative path under both roots: descending keeps the output tree
/// isomorphic to the input tree.
pub proof fn lemma_descend_mirrored(
    input_root: Seq<char>,
    output_root: Seq<char>,
    node: DirNode,
    e: Entry,
    a: Action,
    k: int,
)
    requires
        node_under(node, input_root, output_root),
        e.kind is Directory,
        action_for(a, node, e, k),
    ensures
        a is Descend,
        node_under(a->Descend_0, input_root, output_root),
        a->Descend_0.output@ == mirror(input_root, output_root, a->Descend_0.input@),
{
    lemma_mirror_child(input_root, output_root, node.relative@, e.name@);
    let c = a->Descend_0;
    lemma_mirror_child(input_root, output_root, c.relative@, Seq::empty());
}

/// A directory whose files all have outputs newer than their inputs, as a
/// complete run leaves them, calls for no unit at all: a second run on an
/// unchanged tree compiles and copies nothing.
pub proof fn lemma_rebuild_runs_nothing(node: DirNode, es: Seq<Entry>, actions: Seq<Action>)
    requires
        actions.len() == es.len(),
        forall|k: int| 0 <= k < es.len() ==> action_for(#[trigger] actions[k], node, es[k], k),
        forall|k: int|
            0 <= k < es.len() ==> match #[trigger] es[k].kind {
                EntryKind::File { input_modified, output_modified } => up_to_date(
                    input_modified,
                    output_modified,
                ),
                _ => true,
            },
    ensures
        forall|k: int| 0 <= k < actions.len() ==> !(#[trigger] actions[k] is Run),
{
    assert forall|k: int| 0 <= k < actions.len() implies !(#[trigger] actions[k] is Run) by {
        assert(action_for(actions[k], node, es[k], k));
        match es[k].kind {
            EntryKind::File { input_modified, output_modified } => {},
            _ => {},
        }
    }
}

/// The number of entries that are up-to-date files.
pub open spec fn skipped_in(es: Seq<Entry>) -> nat
    decreases es.len(),
{
    if es.len() == 0 {
        0
    } else {
        skipped_in(es.drop_last()) + match es.last().kind {
            EntryKind::File { input_modified, output_modified } => if up_to_date(
                input_modified,
                output_modified,
            ) {
                1nat
            } else {
                0nat
            },
            _ => 0nat,
        }
    }
}

/// The number of entries that could not be read.
pub open spec fn unreadable_in(es: Seq<Entry>) -> nat
    decreases es.len(),
{
    if es.len() == 0 {
        0
    } else {
        unreadable_in(es.drop_last()) + match es.last().kind {
            EntryKind::Unreadable => 1nat,
            _ => 0nat,
        }
    }
}

/// The state of a build as contracts see it.
pub struct BuildView {
    pub input_root: Seq<char>,
    pub output_root: Seq<char>,
    pub quiet: bool,
    /// Directories whose output exists and whose entries are still to be done;
    /// the last one is visited next.
    pub pending: Seq<DirNode>,
    pub tally: Tally,
    pub fatal: bool,
}

/// One run of the engine over a tree: the caller lists directories, performs the
/// actions, and hands the results back; the build decides everything else.
pub struct Build {
    input_root: String,
    output_root: String,
    quiet: bool,
    pending: Vec<DirNode>,
    tally: Tally,
    fatal: bool,
}

impl View for Build {
    type V = BuildView;

    closed spec fn view(&self) -> BuildView {
        BuildView {
            input_root: self.input_root@,
            output_root: self.output_root@,
            quiet: self.quiet,
            pending: self.pending@,
            tally: self.tally,
            fatal: self.fatal,
        }
    }
}

/// Starts a build that mirrors `input_dir` into `output_dir`. Nothing is touched
/// yet: the first directory to visit is the input root.
pub fn compile(input_dir: &str, output_dir: &str, config_map: &Config) -> (r: Build)
    ensures
        r.wf(),
        r@.input_root == input_dir@,
        r@.output_root == output_dir@,
        r@.quiet == quiet_in(config_map@),
        r@.pending.len() == 1,
        r@.pending[0].input@ == input_dir@,
        r@.pending[0].output@ == output_dir@,
        is_root(r@.pending[0]),
        r@.tally == (Tally { skipped: 0, succeeded: 0, failed: 0, dirs_failed: 0 }),
        !r@.fatal,
{
    let root = DirNode {
        input: String::from_str(input_dir),
        output: String::from_str(output_dir),
        relative: String::new(),
    };
    assert(root.input@ =~= input_dir@ + root.relative@);
    assert(root.output@ =~= output_dir@ + root.relative@);
    let mut pending: Vec<DirNode> = Vec::new();
    pending.push(root);
    Build {
        input_root: String::from_str(input_dir),
        output_root: String::from_str(output_dir),
        quiet: config_map.is_quiet(),
        pending,
        tally: Tally { skipped: 0, succeeded: 0, failed: 0, dirs_failed: 0 },
        fatal: false,
    }
}

impl Build {
    /// Every pending directory is mirrored, and nothing is pending after a fatal error.
    pub open spec fn wf(&self) -> bool {
        &&& forall|i: int|
            0 <= i < self@.pending.len() ==> #[trigger] node_under(
                self@.pending[i],
                self@.input_root,
                self@.output_root,
            )
        &&& self@.fatal ==> self@.pending.len() == 0
    }

    /// The counts so far.
    pub fn tally(&self) -> (r: Tally)
        ensures
            r == self@.tally,
    {
        self.tally
    }

    /// Whether the run has ended on a fatal error.
    pub fn is_fatal(&self) -> (r: bool)
        ensures
            r == self@.fatal,
    {
        self.fatal
    }

    /// Whether the run went through with no failure of any kind.
    pub fn is_clean(&self) -> (r: bool)
        ensures
            r == (!self@.fatal && self@.tally.failed == 0 && self@.tally.dirs_failed == 0),
    {
        !self.fatal && self.tally.failed == 0 && self.tally.dirs_failed == 0
    }

    /// Takes the next directory to visit, depth first.
    pub fn next_dir(&mut self) -> (r: Option<DirNode>)
        requires
            old(self).wf(),
        ensures
            final(self).wf(),
            old(self)@.pending.len() == 0 ==> r.is_none() && final(self)@ == old(self)@,
            old(self)@.pending.len() > 0 ==> r == Some(old(self)@.pending.last())
                && final(self)@ == (BuildView {
                pending: old(self)@.pending.drop_last(),
                ..old(self)@
            }),
            r.is_some() ==> node_under(r.unwrap(), final(self)@.input_root, final(self)@.output_root),
    {
        let r = self.pending.pop();
        proof {
            if r.is_some() {
                assert(node_under(old(self)@.pending[old(self)@.pending.len() - 1], self@.input_root, self@.output_root));
            }
        }
        r
    }

    /// Decides what to do with a listed directory. A directory that does not exist
    /// ends the run; one that cannot be listed is counted and left out; otherwise
    /// each entry gets its action, and up-to-date files and unreadable entries are
    /// counted at once.
    pub fn visit(&mut self, node: &DirNode, listing: Listing) -> (r: Visit)
        requires
            old(self).wf(),
            node_under(*node, old(self)@.input_root, old(self)@.output_root),
        ensures
            final(self).wf(),
            final(self)@.input_root == old(self)@.input_root,
            final(self)@.output_root == old(self)@.output_root,
            final(self)@.quiet == old(self)@.quiet,
            match listing {
                Listing::Missing => r is Fatal && final(self)@.fatal && final(self)@.pending.len()
                    == 0 && final(self)@.tally == old(self)@.tally,
                Listing::Unreadable => r is Abandoned && final(self)@.pending == old(self)@.pending
                    && final(self)@.fatal == old(self)@.fatal && final(self)@.tally == (Tally {
                    dirs_failed: bumped(old(self)@.tally.dirs_failed, 1),
                    ..old(self)@.tally
                }),
                Listing::Entries(es) => match r {
                    Visit::Work { announce, create_output, actions } => {
                        &&& announce == !old(self)@.quiet
                        &&& create_output == is_root(*node)
                        &&& actions@.len() == es@.len()
                        &&& forall|k: int|
                            0 <= k < es@.len() ==> action_for(
                                #[trigger] actions@[k],
                                *node,
                                es@[k],
                                k,
                            )
                        &&& final(self)@.pending == old(self)@.pending
                        &&& final(self)@.fatal == old(self)@.fatal
                        &&& final(self)@.tally == (Tally {
                            skipped: bumped(old(self)@.tally.skipped, skipped_in(es@)),
                            failed: bumped(old(self)@.tally.failed, unreadable_in(es@)),
                            ..old(self)@.tally
                        })
                    },
                    _ => false,
                },
            },
    {
        match listing {
            Listing::Missing => {
                self.fatal = true;
                self.pending = Vec::new();
                assert(self@.pending.len() == 0);
                Visit::Fatal
            },
            Listing::Unreadable => {
                self.tally.dirs_failed = bump(self.tally.dirs_failed);
                assert(self@.pending == old(self)@.pending);
                Visit::Abandoned
            },
            Listing::Entries(es) => {
                let t0 = self.tally;
                let mut skipped = t0.skipped;
                let mut failed = t0.failed;
                let mut actions: Vec<Action> = Vec::new();
                let mut k: usize = 0;
                while k < es.len()
                    invariant
                        self@ == old(self)@,
                        skipped == bumped(t0.skipped, skipped_in(es@.take(k as int))),
                        failed == bumped(t0.failed, unreadable_in(es@.take(k as int))),
                        t0 == old(self)@.tally,
                        k <= es@.len(),
                        actions@.len() == k,
                        forall|j: int| 0 <= j < k ==> action_for(#[trigger] actions@[j], *node, es@[j], j),
                    decreases es@.len() - k,
                {
                    let e = &es[k];
                    assert(es@.take(k + 1).drop_last() =~= es@.take(k as int));
                    let a = match &e.kind {
                        EntryKind::Directory => Action::Descend(
                            DirNode {
                                input: join_path(&node.input, &e.name),
                                output: join_path(&node.output, &e.name),
                                relative: join_path(&node.relative, &e.name),
                            },
                        ),
                        EntryKind::File { input_modified, output_modified } => {
                            let input = join_path(&node.input, &e.name);
                            let output = join_path(&node.output, &e.name);
                            if is_up_to_date(*input_modified, *output_modified) {
                                skipped = bump(skipped);
                                Action::Skip { input, output }
                            } else {
                                Action::Run { unit: classify(&e.name), input, output }
                            }
                        },
                        EntryKind::Unreadable => {
                            failed = bump(failed);
                            Action::Unreadable(k)
                        },
                    };
                    actions.push(a);
                    k = k + 1;
                }
                assert(es@.take(es@.len() as int) =~= es@);
                self.tally = Tally { skipped, failed, ..t0 };
                assert(self@.pending == old(self)@.pending);
                Visit::Work { announce: !self.quiet, create_output: node.relative.as_str().is_empty(), actions }
            },
        }
    }

    /// Takes the result of creating the output directory of `node`. A created
    /// subdirectory becomes pending; one that could not be created is counted and
    /// its subtree left out. Failing to create the output root ends the run.
    pub fn dir_made(&mut self, node: DirNode, ok: bool)
        requires
            old(self).wf(),
            node_under(node, old(self)@.input_root, old(self)@.output_root),
        ensures
            final(self).wf(),
            ok && old(self)@.fatal ==> final(self)@ == old(self)@,
            ok && !is_root(node) && !old(self)@.fatal ==> final(self)@ == (BuildView {
                pending: old(self)@.pending.push(node),
                ..old(self)@
            }),
            ok && is_root(node) ==> final(self)@ == old(self)@,
            !ok ==> final(self)@.tally == (Tally {
                dirs_failed: bumped(old(self)@.tally.dirs_failed, 1),
                ..old(self)@.tally
            }),
            !ok && is_root(node) ==> final(self)@.fatal && final(self)@.pending.len() == 0,
            !ok && !is_root(node) ==> final(self)@.pending == old(self)@.pending
                && final(self)@.fatal == old(self)@.fatal,
            final(self)@.input_root == old(self)@.input_root,
            final(self)@.output_root == old(self)@.output_root,
            final(self)@.quiet == old(self)@.quiet,
    {
        let root = node.relative.as_str().is_empty();
        if ok {
            if !root && !self.fatal {
                self.pending.push(node);
            }
        } else {
            self.tally.dirs_failed = bump(self.tally.dirs_failed);
            if root {
                self.fatal = true;
                self.pending = Vec::new();
            }
        }
    }

    /// Takes the result of a unit on one file, counts it, and says what to report.
    pub fn finished(&mut self, input: String, output: String, result: Result<(), String>) -> (r:
        FileReport)
        requires
            old(self).wf(),
        ensures
            final(self).wf(),
            final(self)@ == (BuildView { tally: final(self)@.tally, ..old(self)@ }),
            match result {
                Ok(_) => {
                    &&& final(self)@.tally == (Tally {
                        succeeded: bumped(old(self)@.tally.succeeded, 1),
                        ..old(self)@.tally
                    })
                    &&& if old(self)@.quiet {
                        r is Silent
                    } else {
                        r == (FileReport::Compiled { input, output })
                    }
                },
                Err(reason) => {
                    &&& final(self)@.tally == (Tally {
                        failed: bumped(old(self)@.tally.failed, 1),
                        ..old(self)@.tally
                    })
                    &&& r == (FileReport::Failed { input, reason })
                },
            },
    {
        match result {
            Ok(_) => {
                self.tally.succeeded = bump(self.tally.succeeded);
                if self.quiet {
                    FileReport::Silent
                } else {
                    FileReport::Compiled { input, output }
                }
            },
            Err(reason) => {
                self.tally.failed = bump(self.tally.failed);
                FileReport::Failed { input, reason }
            },
        }
    }
}

} // verus!
