//! Building the file system from the transcript of a shell session.
//!
//! A transcript is a sequence of lines. A line that starts with `$` is a
//! command: `$ cd <target>` changes the current directory and `$ ls`
//! announces a listing. The lines that follow `$ ls`, up to the next
//! command, say what the current directory holds: `dir <name>` or
//! `<size> <name>`.

use std::vec::IntoIter;
use vstd::prelude::*;
use vstd::std_specs::iter::IteratorSpec;
use crate::forest::{
    attach, can_attach, exact, grow, is_dir_at, linked, name_free, named_child, node_linked, reaches,
    root_of, Forest,
};
use crate::forest_lemmas::{
    lemma_attach_exact, lemma_attach_linked, lemma_fresh_can_attach, lemma_grow_exact, lemma_grow_linked,
    lemma_named_child_is_child,
};
use crate::fsobject::{ids, FSDir, FSFile, FSObject, FileSystem};
use crate::putback_iter::PutBack;
use crate::transcript::{
    fields, is_word, lemma_fields_are_words, parse_size, read_size, split_fields, texts,
};

verus! {

/// Why a transcript cannot be followed.
#[derive(Clone, Copy, Debug, PartialEq, Eq, Structural)]
pub enum BuildError {
    /// A line has no fields, or not as many as its kind has.
    MalformedLine,
    /// A command is neither `cd` nor `ls`, or a line that is no command
    /// stands where no listing is under way.
    UnknownCommand,
    /// What stands for a size in a listing is no number, or one too large.
    InvalidSize,
    /// The sizes under one root add up to more than `usize` holds.
    SizeOverflow,
}

/// How far a transcript has been followed.
#[verifier::ext_equal]
pub struct BuildState {
    /// The file system as built so far.
    pub fs: Forest,
    /// The directories from the root down to the current one.
    pub path: Seq<int>,
    /// Whether a listing of the current directory is under way.
    pub listing: bool,
}

/// The field that marks a command.
pub open spec fn prompt() -> Seq<char> {
    seq!['$']
}

/// The command that changes the current directory.
pub open spec fn cd_word() -> Seq<char> {
    seq!['c', 'd']
}

/// The command that announces a listing.
pub open spec fn ls_word() -> Seq<char> {
    seq!['l', 's']
}

/// The field that marks a directory in a listing.
pub open spec fn dir_word() -> Seq<char> {
    seq!['d', 'i', 'r']
}

/// The target of `cd` that stands for the parent directory.
pub open spec fn up_word() -> Seq<char> {
    seq!['.', '.']
}

/// The name of the root, and the target of `cd` that stands for it.
pub open spec fn root_word() -> Seq<char> {
    seq!['/']
}

/// The state before the first line: the root alone, and current.
pub open spec fn start() -> BuildState {
    BuildState { fs: grow(Seq::empty(), root_word(), true, 0), path: seq![0int], listing: false }
}

/// The current directory.
pub open spec fn current(s: BuildState) -> int {
    s.path.last()
}

/// The state is sound: the links of the file system are consistent, and the
/// path leads from a root, directory by directory, to the current
/// directory.
pub open spec fn state_ok(s: BuildState) -> bool {
    &&& linked(s.fs)
    &&& s.path.len() > 0
    &&& is_dir_at(s.fs, s.path[0])
    &&& s.fs[s.path[0]].parent is None
    &&& forall|k: int|
        0 < k < s.path.len() ==> is_dir_at(s.fs, #[trigger] s.path[k]) && s.fs[s.path[k]].parent == Some(
            s.path[k - 1],
        )
}

/// The file system with a new entry attached to the current directory.
pub open spec fn with_entry(s: BuildState, name: Seq<char>, is_dir: bool, size: nat) -> Forest {
    attach(grow(s.fs, name, is_dir, size), current(s), s.fs.len() as int)
}

/// `cd <target>` would put a new directory in the place of a file: the
/// target is a name, and the current directory has a file of that name.
pub open spec fn cd_replaces(s: BuildState, target: Seq<char>) -> bool {
    &&& target != up_word()
    &&& target != root_word()
    &&& named_child(s.fs, current(s), target) matches Some(x) && !s.fs[x].is_dir
}

/// What `cd <target>` does. `..` leaves the current directory for its
/// parent, unless it is the root; `/` returns to the root; any other name
/// enters the child directory of that name. If the current directory has
/// no such child directory, an empty one is created and attached to it; a
/// file of that name loses its place to the new directory.
pub open spec fn change_dir(s: BuildState, target: Seq<char>) -> BuildState {
    if target == up_word() {
        BuildState {
            fs: s.fs,
            path: if s.path.len() > 1 {
                s.path.drop_last()
            } else {
                s.path
            },
            listing: false,
        }
    } else if target == root_word() {
        BuildState { fs: s.fs, path: s.path.take(1), listing: false }
    } else if named_child(s.fs, current(s), target) matches Some(x) && s.fs[x].is_dir {
        BuildState { fs: s.fs, path: s.path.push(named_child(s.fs, current(s), target)->0), listing: false }
    } else {
        BuildState { fs: with_entry(s, target, true, 0), path: s.path.push(s.fs.len() as int), listing: false }
    }
}

/// What a command does.
pub open spec fn command(s: BuildState, toks: Seq<Seq<char>>) -> Result<BuildState, BuildError> {
    if toks.len() < 2 {
        Err(BuildError::MalformedLine)
    } else if toks[1] == cd_word() {
        if toks.len() == 3 {
            Ok(change_dir(s, toks[2]))
        } else {
            Err(BuildError::MalformedLine)
        }
    } else if toks[1] == ls_word() {
        if toks.len() == 2 {
            Ok(BuildState { fs: s.fs, path: s.path, listing: true })
        } else {
            Err(BuildError::MalformedLine)
        }
    } else {
        Err(BuildError::UnknownCommand)
    }
}

/// What a line of a listing does: it adds the directory or file that it
/// names to the current directory, unless a child of that name is there
/// already.
pub open spec fn list_entry(s: BuildState, toks: Seq<Seq<char>>) -> Result<BuildState, BuildError> {
    if toks.len() != 2 {
        Err(BuildError::MalformedLine)
    } else if toks[0] == dir_word() {
        if named_child(s.fs, current(s), toks[1]) is Some {
            Ok(s)
        } else {
            Ok(BuildState { fs: with_entry(s, toks[1], true, 0), path: s.path, listing: true })
        }
    } else {
        match parse_size(toks[0]) {
            None => Err(BuildError::InvalidSize),
            Some(size) => if size > usize::MAX {
                Err(BuildError::InvalidSize)
            } else if named_child(s.fs, current(s), toks[1]) is Some {
                Ok(s)
            } else if s.fs[s.path[0]].size + size > usize::MAX {
                Err(BuildError::SizeOverflow)
            } else {
                Ok(BuildState { fs: with_entry(s, toks[1], false, size), path: s.path, listing: true })
            },
        }
    }
}

/// The line with the fields `toks` would put a new directory in the place
/// of a file.
pub open spec fn replaces(s: BuildState, toks: Seq<Seq<char>>) -> bool {
    toks.len() == 3 && toks[0] == prompt() && toks[1] == cd_word() && cd_replaces(s, toks[2])
}

/// What one line does, given its fields.
pub open spec fn step(s: BuildState, toks: Seq<Seq<char>>) -> Result<BuildState, BuildError> {
    if toks.len() == 0 {
        Err(BuildError::MalformedLine)
    } else if toks[0] == prompt() {
        command(s, toks)
    } else if s.listing {
        list_entry(s, toks)
    } else {
        Err(BuildError::UnknownCommand)
    }
}

/// What a sequence of lines does, line by line, up to the first line that
/// cannot be followed.
pub open spec fn run(s: BuildState, lines: Seq<Seq<char>>) -> Result<BuildState, BuildError>
    decreases lines.len(),
{
    if lines.len() == 0 {
        Ok(s)
    } else {
        match step(s, fields(lines[0])) {
            Ok(next) => run(next, lines.drop_first()),
            Err(e) => Err(e),
        }
    }
}

/// None of the lines, followed from state `s`, puts a new directory in the
/// place of a file.
pub open spec fn replaces_nothing(s: BuildState, lines: Seq<Seq<char>>) -> bool
    decreases lines.len(),
{
    if lines.len() == 0 {
        true
    } else {
        &&& !replaces(s, fields(lines[0]))
        &&& step(s, fields(lines[0])) matches Ok(next) ==> replaces_nothing(next, lines.drop_first())
    }
}

/// The file system that a transcript describes.
pub open spec fn built(lines: Seq<Seq<char>>) -> Result<Forest, BuildError> {
    match run(start(), lines) {
        Ok(s) => Ok(s.fs),
        Err(e) => Err(e),
    }
}

/// The state before the first line is sound.
pub proof fn lemma_start_ok()
    ensures
        state_ok(start()),
{
    let none: Forest = Seq::empty();
    lemma_grow_exact(none, root_word(), true, 0);
}

/// The file system before the first line is exact.
pub proof fn lemma_start_exact()
    ensures
        exact(start().fs),
{
    let none: Forest = Seq::empty();
    lemma_grow_exact(none, root_word(), true, 0);
}

/// Every directory on the path has the first one as its root.
pub proof fn lemma_path_root(s: BuildState, k: int)
    requires
        state_ok(s),
        0 <= k < s.path.len(),
    ensures
        root_of(s.fs, s.path[k]) == s.path[0],
        reaches(s.fs, s.path[k], s.path[0]),
    decreases k,
{
    if k > 0 {
        assert(node_linked(s.fs, s.path[k]));
        lemma_path_root(s, k - 1);
    }
}

/// A new entry can be attached to the current directory, and the state
/// stays sound, whether the new entry becomes current or not. Where its
/// name is free, an exact file system stays exact.
pub proof fn lemma_with_entry(s: BuildState, name: Seq<char>, is_dir: bool, size: nat)
    requires
        state_ok(s),
        is_dir ==> size == 0 && name.len() > 0,
    ensures
        linked(grow(s.fs, name, is_dir, size)),
        exact(s.fs) ==> exact(grow(s.fs, name, is_dir, size)),
        exact(s.fs) && named_child(s.fs, current(s), name) is None ==> exact(with_entry(s, name, is_dir, size)),
        can_attach(grow(s.fs, name, is_dir, size), current(s), s.fs.len() as int),
        root_of(grow(s.fs, name, is_dir, size), current(s)) == s.path[0],
        state_ok(BuildState { fs: with_entry(s, name, is_dir, size), path: s.path, listing: s.listing }),
        is_dir ==> state_ok(
            BuildState {
                fs: with_entry(s, name, is_dir, size),
                path: s.path.push(s.fs.len() as int),
                listing: s.listing,
            },
        ),
{
    let m = s.fs;
    let n = m.len() as int;
    let cur = current(s);
    let m1 = grow(m, name, is_dir, size);
    let m2 = with_entry(s, name, is_dir, size);
    let s1 = BuildState { fs: m1, path: s.path, listing: s.listing };
    lemma_grow_linked(m, name, is_dir, size);
    assert(state_ok(s1));
    lemma_path_root(s1, s.path.len() - 1);
    assert(is_dir_at(m, cur));
    lemma_fresh_can_attach(m, cur, name, is_dir, size);
    lemma_attach_linked(m1, cur, n);
    let s2 = BuildState { fs: m2, path: s.path, listing: s.listing };
    assert(state_ok(s2));
    if exact(m) {
        lemma_grow_exact(m, name, is_dir, size);
        if named_child(m, cur, name) is None {
            assert(name_free(m1, m1[cur].children, name)) by {
                assert(node_linked(m, cur));
            }
            lemma_attach_exact(m1, cur, n);
        }
    }
}

/// `cd` leaves a sound state sound, and the root what it was. Unless it
/// puts a new directory in the place of a file, it leaves an exact file
/// system exact.
pub proof fn lemma_change_dir_ok(s: BuildState, target: Seq<char>)
    requires
        state_ok(s),
        target.len() > 0,
    ensures
        state_ok(change_dir(s, target)),
        change_dir(s, target).path[0] == s.path[0],
        exact(s.fs) && !cd_replaces(s, target) ==> exact(change_dir(s, target).fs),
{
    if target != up_word() && target != root_word() {
        if named_child(s.fs, current(s), target) is Some {
            lemma_current_is_dir(s);
            lemma_named_child_is_child(s.fs, current(s), target);
        }
        lemma_with_entry(s, target, true, 0);
    }
}

/// A line of a listing leaves a sound state sound, the path what it was,
/// and an exact file system exact.
pub proof fn lemma_list_entry_ok(s: BuildState, toks: Seq<Seq<char>>)
    requires
        state_ok(s),
        forall|i: int| 0 <= i < toks.len() ==> is_word(#[trigger] toks[i]),
        list_entry(s, toks) is Ok,
    ensures
        state_ok(list_entry(s, toks)->Ok_0),
        list_entry(s, toks)->Ok_0.path == s.path,
        exact(s.fs) ==> exact(list_entry(s, toks)->Ok_0.fs),
{
    let cur = current(s);
    if named_child(s.fs, cur, toks[1]) is None {
        if toks[0] == dir_word() {
            lemma_with_entry(s, toks[1], true, 0);
        } else {
            lemma_with_entry(s, toks[1], false, parse_size(toks[0])->0);
        }
    }
}

/// The current directory of a sound state is a directory.
pub proof fn lemma_current_is_dir(s: BuildState)
    requires
        state_ok(s),
    ensures
        is_dir_at(s.fs, current(s)),
{
}

/// A line whose fields are words leaves a sound state sound, and the root
/// what it was. Unless it puts a new directory in the place of a file, it
/// leaves an exact file system exact.
pub proof fn lemma_step_ok(s: BuildState, toks: Seq<Seq<char>>)
    requires
        state_ok(s),
        forall|i: int| 0 <= i < toks.len() ==> is_word(#[trigger] toks[i]),
        step(s, toks) is Ok,
    ensures
        state_ok(step(s, toks)->Ok_0),
        step(s, toks)->Ok_0.path[0] == s.path[0],
        exact(s.fs) && !replaces(s, toks) ==> exact(step(s, toks)->Ok_0.fs),
{
    if toks[0] == prompt() {
        if toks[1] == cd_word() {
            lemma_change_dir_ok(s, toks[2]);
        }
    } else {
        lemma_list_entry_ok(s, toks);
    }
}

/// Following a transcript from a sound state leads to a sound state with
/// the same root, whatever the lines are. Unless one of them puts a new
/// directory in the place of a file, an exact file system stays exact.
pub proof fn lemma_run_ok(s: BuildState, lines: Seq<Seq<char>>)
    requires
        state_ok(s),
        run(s, lines) is Ok,
    ensures
        state_ok(run(s, lines)->Ok_0),
        run(s, lines)->Ok_0.path[0] == s.path[0],
        exact(s.fs) && replaces_nothing(s, lines) ==> exact(run(s, lines)->Ok_0.fs),
    decreases lines.len(),
{
    if lines.len() > 0 {
        lemma_fields_are_words(lines[0]);
        lemma_step_ok(s, fields(lines[0]));
        lemma_run_ok(step(s, fields(lines[0]))->Ok_0, lines.drop_first());
    }
}

/// The state that the file system `fs` and the stack of directories
/// `stack` stand for.
pub open spec fn snapshot(fs: &FileSystem, stack: Seq<FSDir>, listing: bool) -> BuildState {
    BuildState { fs: fs@, path: ids(stack), listing }
}

/// The fields `toks` are those of a command.
pub open spec fn is_command(toks: Seq<Seq<char>>) -> bool {
    toks.len() > 0 && toks[0] == prompt()
}

/// Whether `part` reads `word`.
fn says(part: &String, word: &str) -> (same: bool)
    ensures
        same == (part@ == word@),
{
    let other = String::from_str(word);
    *part == other
}

/// Creates a directory called `name` in the current directory, in place
/// of a child of that name if there is one.
fn make_dir(fs: &mut FileSystem, stack: &Vec<FSDir>, name: &String) -> (dir: FSDir)
    requires
        old(fs).ranked(),
        state_ok(snapshot(old(fs), stack@, false)),
        name@.len() > 0,
    ensures
        final(fs).ranked(),
        final(fs)@ == with_entry(snapshot(old(fs), stack@, false), name@, true, 0),
        dir@ == old(fs)@.len(),
{
    let ghost s = snapshot(fs, stack@, false);
    let cur = stack[stack.len() - 1];
    proof {
        lemma_with_entry(s, name@, true, 0);
        lemma_current_is_dir(s);
    }
    let dir = FSDir::new(fs, name.clone());
    cur.add_dir(fs, dir);
    dir
}

/// Creates a file called `name` of the given size in the current
/// directory, in place of a child of that name if there is one.
fn make_file(fs: &mut FileSystem, stack: &Vec<FSDir>, name: &String, size: usize)
    requires
        old(fs).ranked(),
        state_ok(snapshot(old(fs), stack@, false)),
        old(fs)@[stack@[0]@].size + size <= usize::MAX,
    ensures
        final(fs).ranked(),
        final(fs)@ == with_entry(snapshot(old(fs), stack@, false), name@, false, size as nat),
{
    let ghost s = snapshot(fs, stack@, false);
    let cur = stack[stack.len() - 1];
    proof {
        lemma_with_entry(s, name@, false, size as nat);
        lemma_current_is_dir(s);
    }
    let file = FSFile::new(fs, name.clone(), size);
    cur.add_file(fs, file);
}

/// Follows `cd <target>`.
fn enter(fs: &mut FileSystem, stack: &mut Vec<FSDir>, target: &String)
    requires
        old(fs).ranked(),
        state_ok(snapshot(old(fs), old(stack)@, false)),
        target@.len() > 0,
    ensures
        final(fs).ranked(),
        snapshot(final(fs), final(stack)@, false) == change_dir(snapshot(old(fs), old(stack)@, false), target@),
        state_ok(snapshot(final(fs), final(stack)@, false)),
        final(stack)@[0] == old(stack)@[0],
{
    let ghost s = snapshot(fs, stack@, false);
    proof {
        reveal_strlit("..");
        reveal_strlit("/");
        assert(".."@ =~= up_word());
        assert("/"@ =~= root_word());
        lemma_current_is_dir(s);
        lemma_change_dir_ok(s, target@);
    }
    if says(target, "..") {
        if stack.len() > 1 {
            stack.pop();
        }
    } else if says(target, "/") {
        stack.truncate(1);
    } else {
        let cur = stack[stack.len() - 1];
        let dir = match cur.get_dir(fs, target.as_str()) {
            Some(dir) => dir,
            None => make_dir(fs, stack, target),
        };
        stack.push(dir);
    }
    proof {
        assert(ids(stack@) =~= change_dir(s, target@).path);
        assert(snapshot(fs, stack@, false) =~~= change_dir(s, target@));
    }
}

/// Follows one line of a listing, given its fields.
fn record(fs: &mut FileSystem, stack: &Vec<FSDir>, parts: &Vec<String>) -> (done: Result<(), BuildError>)
    requires
        old(fs).ranked(),
        state_ok(snapshot(old(fs), stack@, true)),
        forall|i: int| 0 <= i < parts@.len() ==> is_word(#[trigger] texts(parts@)[i]),
    ensures
        match done {
            Ok(()) => {
                &&& final(fs).ranked()
                &&& list_entry(snapshot(old(fs), stack@, true), texts(parts@)) == Ok::<
                    BuildState,
                    BuildError,
                >(snapshot(final(fs), stack@, true))
                &&& state_ok(snapshot(final(fs), stack@, true))
            },
            Err(e) => list_entry(snapshot(old(fs), stack@, true), texts(parts@)) == Err::<
                BuildState,
                BuildError,
            >(e),
        },
{
    let ghost s = snapshot(fs, stack@, true);
    let ghost toks = texts(parts@);
    proof {
        reveal_strlit("dir");
        assert("dir"@ =~= dir_word());
        lemma_current_is_dir(s);
    }
    if parts.len() != 2 {
        return Err(BuildError::MalformedLine);
    }
    let cur = stack[stack.len() - 1];
    let name = &parts[1];
    if says(&parts[0], "dir") {
        if !cur.contains(fs, name.as_str()) {
            make_dir(fs, stack, name);
        }
        proof {
            lemma_list_entry_ok(s, toks);
        }
        Ok(())
    } else {
        match read_size(parts[0].as_str()) {
            None => Err(BuildError::InvalidSize),
            Some(size) => {
                if !cur.contains(fs, name.as_str()) {
                    let root = stack[0];
                    if root.size(fs) > usize::MAX - size {
                        return Err(BuildError::SizeOverflow);
                    }
                    make_file(fs, stack, name, size);
                }
                proof {
                    lemma_list_entry_ok(s, toks);
                }
                Ok(())
            },
        }
    }
}

/// Follows the lines of a listing. The command that ends the listing is
/// put back, so that the next line handed out is that command.
#[verifier::loop_isolation(false)]
fn read_listing(
    fs: &mut FileSystem,
    stack: &Vec<FSDir>,
    input: &mut PutBack<IntoIter<String>, String>,
    Ghost(total): Ghost<Seq<String>>,
    Ghost(from): Ghost<int>,
) -> (done: (Result<(), BuildError>, Ghost<int>))
    requires
        old(fs).ranked(),
        state_ok(snapshot(old(fs), stack@, true)),
        0 <= from <= total.len(),
        old(input).pending().len() == 0,
        old(input).source().remaining() == total.skip(from),
    ensures
        match done.0 {
            Ok(()) => {
                &&& final(fs).ranked()
                &&& state_ok(snapshot(final(fs), stack@, true))
                &&& from <= done.1@ <= total.len()
                &&& final(input).pending().len() <= 1
                &&& final(input).pending() + final(input).source().remaining() == total.skip(done.1@)
                &&& done.1@ == total.len() || is_command(fields(total[done.1@]@))
                &&& run(snapshot(old(fs), stack@, true), texts(total).skip(from)) == run(
                    snapshot(final(fs), stack@, true),
                    texts(total).skip(done.1@),
                )
            },
            Err(e) => run(snapshot(old(fs), stack@, true), texts(total).skip(from)) == Err::<
                BuildState,
                BuildError,
            >(e),
        },
{
    let ghost goal = run(snapshot(fs, stack@, true), texts(total).skip(from));
    let ghost mut at: int = from;
    proof {
        reveal_strlit("$");
    }
    loop
        invariant
            fs.ranked(),
            state_ok(snapshot(fs, stack@, true)),
            from <= at <= total.len(),
            input.pending().len() == 0,
            input.source().remaining() == total.skip(at),
            run(snapshot(fs, stack@, true), texts(total).skip(at)) == goal,
            "$"@ == prompt(),
        decreases total.len() - at,
    {
        let ghost rest = texts(total).skip(at);
        let line = match input.next() {
            Some(line) => line,
            None => {
                return (Ok(()), Ghost(at));
            },
        };
        let parts = split_fields(line.as_str());
        proof {
            assert(rest.drop_first() =~= texts(total).skip(at + 1));
            lemma_fields_are_words(line@);
        }
        if parts.len() == 0 {
            return (Err(BuildError::MalformedLine), Ghost(at));
        }
        if says(&parts[0], "$") {
            input.put_back(line);
            return (Ok(()), Ghost(at));
        }
        match record(fs, stack, &parts) {
            Ok(()) => {
                proof {
                    at = at + 1;
                }
            },
            Err(e) => {
                return (Err(e), Ghost(at));
            },
        }
    }
}

/// Builds the file system that the transcript `lines` describes, and
/// returns it with its root, or says why the first line that cannot be
/// followed cannot. The file system is exact unless a `cd` put a new
/// directory in the place of a file.
#[verifier::loop_isolation(false)]
pub fn build_fs(lines: Vec<String>) -> (done: Result<(FileSystem, FSDir), BuildError>)
    ensures
        match done {
            Ok((fs, root)) => {
                &&& fs.wf()
                &&& replaces_nothing(start(), texts(lines@)) ==> fs.exact()
                &&& root.valid_in(&fs)
                &&& root@ == 0
                &&& fs@[0].parent is None
                &&& built(texts(lines@)) == Ok::<Forest, BuildError>(fs@)
            },
            Err(e) => built(texts(lines@)) == Err::<Forest, BuildError>(e),
        },
{
    let ghost total = lines@;
    let ghost goal = run(start(), texts(total));
    proof {
        reveal_strlit("/");
    }
    let mut fs = FileSystem::new();
    let root = FSDir::new(&mut fs, String::from_str("/"));
    let mut stack: Vec<FSDir> = Vec::new();
    stack.push(root);
    let mut input = PutBack::new(lines.into_iter());
    let ghost mut at: int = 0;
    let ghost mut listing = false;
    proof {
        reveal_strlit("$");
        reveal_strlit("cd");
        reveal_strlit("ls");
        lemma_start_ok();
        assert(snapshot(&fs, stack@, false) =~~= start());
        assert(texts(total).skip(0) =~= texts(total));
    }
    loop
        invariant
            fs.ranked(),
            state_ok(snapshot(&fs, stack@, listing)),
            stack@[0] == root,
            root@ == 0,
            0 <= at <= total.len(),
            input.pending().len() <= 1,
            input.pending() + input.source().remaining() == total.skip(at),
            run(snapshot(&fs, stack@, listing), texts(total).skip(at)) == goal,
            listing ==> at == total.len() || is_command(fields(total[at]@)),
            "$"@ == prompt(),
            "cd"@ == cd_word(),
            "ls"@ == ls_word(),
        decreases total.len() - at,
    {
        let ghost rest = texts(total).skip(at);
        let ghost ahead = input.pending() + input.source().remaining();
        let line = match input.next() {
            Some(line) => line,
            None => {
                proof {
                    lemma_start_exact();
                    lemma_run_ok(start(), texts(total));
                }
                return Ok((fs, root));
            },
        };
        let parts = split_fields(line.as_str());
        proof {
            assert(line == ahead[0]);
            assert(input.pending() + input.source().remaining() =~= ahead.drop_first());
            assert(rest.drop_first() =~= texts(total).skip(at + 1));
            assert(total.skip(at).drop_first() =~= total.skip(at + 1));
            lemma_fields_are_words(line@);
        }
        if parts.len() == 0 {
            return Err(BuildError::MalformedLine);
        }
        if !says(&parts[0], "$") {
            return Err(BuildError::UnknownCommand);
        }
        if parts.len() < 2 {
            return Err(BuildError::MalformedLine);
        }
        if says(&parts[1], "cd") {
            if parts.len() != 3 {
                return Err(BuildError::MalformedLine);
            }
            enter(&mut fs, &mut stack, &parts[2]);
            proof {
                at = at + 1;
                listing = false;
            }
        } else if says(&parts[1], "ls") {
            if parts.len() != 2 {
                return Err(BuildError::MalformedLine);
            }
            proof {
                at = at + 1;
                listing = true;
            }
            let (listed, left) = read_listing(&mut fs, &stack, &mut input, Ghost(total), Ghost(at));
            match listed {
                Ok(()) => {
                    proof {
                        at = left@;
                    }
                },
                Err(e) => {
                    return Err(e);
                },
            }
        } else {
            return Err(BuildError::UnknownCommand);
        }
    }
}

} // verus!
