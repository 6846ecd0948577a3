//! The Raft state that has to survive a crash, and its file.

use crate::bytes::{le_bytes, lemma_le_bytes_injective, lemma_le_bytes_len};
use vstd::prelude::*;
use vstd::utf8::{encode_utf8, encode_utf8_decode_utf8};

verus! {

/// The Raft state that has to survive a crash.
///
/// `current_term` and `voted_for` are what stop a restarted node from voting
/// twice in one term (which can elect two leaders in the same term).
/// `commit_index` is a lower-bound hint: committed entries are never truncated,
/// so replaying up to it on boot is always safe and saves a node that restarts
/// alone from serving empty reads.
#[derive(Debug, Clone, PartialEq)]
pub struct RaftState {
    pub current_term: u64,
    pub voted_for: Option<String>,
    pub commit_index: u64,
}

#[verifier::ext_equal]
pub struct RaftStateView {
    pub current_term: u64,
    pub voted_for: Option<Seq<char>>,
    pub commit_index: u64,
}

/// A text that may be missing, as a mathematical value.
pub open spec fn text_view(text: Option<String>) -> Option<Seq<char>> {
    match text {
        Some(t) => Some(t@),
        None => None,
    }
}

impl View for RaftState {
    type V = RaftStateView;

    open spec fn view(&self) -> RaftStateView {
        RaftStateView {
            current_term: self.current_term,
            voted_for: text_view(self.voted_for),
            commit_index: self.commit_index,
        }
    }
}

/// The state of a node that has never voted.
pub open spec fn fresh_state() -> RaftStateView {
    RaftStateView { current_term: 0, voted_for: None, commit_index: 0 }
}

impl Default for RaftState {
    fn default() -> (state: Self)
        ensures
            state@ == fresh_state(),
    {
        RaftState { current_term: 0, voted_for: None, commit_index: 0 }
    }
}

/// The bytes of an optional text: a tag, then the length and the UTF-8 bytes.
pub open spec fn text_bytes(text: Option<Seq<char>>) -> Seq<u8> {
    match text {
        None => seq![0u8],
        Some(t) => seq![1u8] + le_bytes(encode_utf8(t).len() as u64) + encode_utf8(t),
    }
}

/// The bytes that stand for a state in the state file.
pub open spec fn state_bytes(state: RaftStateView) -> Seq<u8> {
    le_bytes(state.current_term) + text_bytes(state.voted_for) + le_bytes(state.commit_index)
}

/// Whether `bytes` starts with the bytes of `state`.
pub open spec fn starts_with_state(bytes: Seq<u8>, state: RaftStateView) -> bool {
    state_bytes(state).is_prefix_of(bytes)
}

/// Whether `bytes` starts with the bytes of no state at all.
pub open spec fn holds_no_state(bytes: Seq<u8>) -> bool {
    forall|state: RaftStateView| !#[trigger] starts_with_state(bytes, state)
}

/// The bytes of a file, if there is one, as a mathematical value.
pub open spec fn bytes_view(contents: Option<&[u8]>) -> Option<Seq<u8>> {
    match contents {
        Some(bytes) => Some(bytes@),
        None => None,
    }
}

/// Whether a state file with these contents opens as `state`: as the state it starts
/// with, or as a fresh one if there is no file.
pub open spec fn opens_as(contents: Option<Seq<u8>>, state: RaftStateView) -> bool {
    match contents {
        Some(bytes) => starts_with_state(bytes, state),
        None => state == fresh_state(),
    }
}

/// Whether there is a state file, but with no state in it.
pub open spec fn is_unreadable(contents: Option<Seq<u8>>) -> bool {
    contents matches Some(bytes) && holds_no_state(bytes)
}

#[verifier::external_type_specification]
#[verifier::external_body]
pub struct ExBincodeErrorKind(bincode::ErrorKind);

/// `bincode::serialize` on `(current_term, voted_for, commit_index)`. With the
/// configuration that the function fixes, integers take eight little-endian
/// bytes, an option is a tag byte and then its value, a string is its length as
/// such an integer and then its UTF-8 bytes, and a tuple adds nothing of its
/// own; there is no size limit, so none of these can fail.
#[verifier::external_body]
fn serialize_state(
    current_term: u64,
    voted_for: &Option<String>,
    commit_index: u64,
) -> (encoded: Result<Vec<u8>, Box<bincode::ErrorKind>>)
    ensures
        encoded is Ok,
        encoded->Ok_0@ == state_bytes(
            (RaftStateView { current_term, voted_for: text_view(*voted_for), commit_index }),
        ),
{
    bincode::serialize(&(current_term, voted_for, commit_index))
}

/// `bincode::deserialize` into `(current_term, voted_for, commit_index)`, the
/// reverse of [`serialize_state`]. It reads the three values from the front of
/// `bytes` and ignores what follows them; it fails exactly where no values are
/// encoded there: too few bytes, a tag other than 0 and 1, or a string that is
/// not UTF-8.
#[verifier::external_body]
fn deserialize_state(bytes: &[u8]) -> (decoded: Result<
    (u64, Option<String>, u64),
    Box<bincode::ErrorKind>,
>)
    ensures
        match decoded {
            Ok((current_term, voted_for, commit_index)) => starts_with_state(
                bytes@,
                (RaftStateView { current_term, voted_for: text_view(voted_for), commit_index }),
            ),
            Err(_) => holds_no_state(bytes@),
        },
{
    bincode::deserialize(bytes)
}

/// The state file cannot be used.
#[derive(Debug)]
pub enum StateError {
    /// The file is there, but holds no state.
    Unreadable(Box<bincode::ErrorKind>),
    /// The state could not be encoded.
    Unserializable(Box<bincode::ErrorKind>),
}

/// No character of `name` means anything to a file system.
pub open spec fn plain_name(name: Seq<char>) -> bool {
    forall|i: int| 0 <= i < name.len() ==> name[i] != '/' && name[i] != '\\' && name[i] != ':'
}

/// `dir` is empty, or a run of directory names that ends in a slash.
pub open spec fn plain_dir(dir: Seq<char>) -> bool {
    &&& forall|i: int| 0 <= i < dir.len() ==> dir[i] != '\\' && dir[i] != ':'
    &&& forall|i: int, j: int|
        0 <= i < dir.len() && j == i + 1 && j < dir.len() ==> !(dir[i] == '/' && dir[j] == '/')
    &&& dir.len() > 0 ==> dir.last() == '/'
}

/// `path` is a file `stem` in `dir`, with the extension `extension` if it has
/// one.
pub open spec fn names_file(
    path: Seq<char>,
    dir: Seq<char>,
    stem: Seq<char>,
    extension: Option<Seq<char>>,
) -> bool {
    &&& plain_dir(dir)
    &&& plain_name(stem)
    &&& stem.len() > 0
    &&& stem != "."@
    &&& match extension {
        Some(e) => {
            &&& plain_name(e)
            &&& e.len() > 0
            &&& !e.contains('.')
            &&& path == dir + stem + "."@ + e
        },
        None => {
            // A leading dot is part of the name, not of an extension.
            &&& forall|i: int| 1 <= i < stem.len() ==> stem[i] != '.'
            &&& path == dir + stem
        },
    }
}

/// `std::path::Path::with_extension`: the path with the extension of its file
/// name replaced, or added if it has none. What it does is stated for plain
/// file names in plain directories; how it reads other paths depends on the
/// operating system and is left unsaid. An extension with a path separator in
/// it is not accepted.
#[verifier::external_body]
fn with_extension(path: &str, extension: &str) -> (changed: String)
    requires
        plain_name(extension@),
        extension@.len() > 0,
    ensures
        forall|dir: Seq<char>, stem: Seq<char>, old_extension: Option<Seq<char>>| #[trigger]
            names_file(path@, dir, stem, old_extension) ==> changed@ == dir + stem + "."@
                + extension@,
{
    std::path::Path::new(path).with_extension(extension).to_string_lossy().into_owned()
}

/// One step of writing the state file. The steps are performed in order, and
/// each only once the one before it is complete.
#[derive(Debug, Clone, PartialEq)]
pub enum SaveStep {
    /// Create or empty the file at `path`, write `bytes` to it and flush it.
    WriteFile { path: String, bytes: Vec<u8> },
    /// Rename `from` to `to`, replacing what is there.
    Rename { from: String, to: String },
    /// Flush the directory that holds `path`, and with it the rename: without
    /// that, a power loss can leave the directory entry pointing at the old file.
    SyncDirOf { path: String },
}

pub enum SaveStepView {
    WriteFile { path: Seq<char>, bytes: Seq<u8> },
    Rename { from: Seq<char>, to: Seq<char> },
    SyncDirOf { path: Seq<char> },
}

impl View for SaveStep {
    type V = SaveStepView;

    open spec fn view(&self) -> SaveStepView {
        match *self {
            SaveStep::WriteFile { path, bytes } => SaveStepView::WriteFile {
                path: path@,
                bytes: bytes@,
            },
            SaveStep::Rename { from, to } => SaveStepView::Rename { from: from@, to: to@ },
            SaveStep::SyncDirOf { path } => SaveStepView::SyncDirOf { path: path@ },
        }
    }
}

/// The steps as mathematical values.
pub open spec fn steps_view(steps: Seq<SaveStep>) -> Seq<SaveStepView> {
    steps.map_values(|step: SaveStep| step@)
}

/// Writing a state by way of a temporary file.
pub open spec fn save_steps(
    path: Seq<char>,
    tmp_path: Seq<char>,
    state: RaftStateView,
) -> Seq<SaveStepView> {
    seq![
        SaveStepView::WriteFile { path: tmp_path, bytes: state_bytes(state) },
        SaveStepView::Rename { from: tmp_path, to: path },
        SaveStepView::SyncDirOf { path },
    ]
}

/// Crash-safe storage for [`RaftState`], written by write-temp-then-rename so a
/// torn state file is never observable.
pub struct RaftStateStore {
    path: String,
    tmp_path: String,
}

impl RaftStateStore {
    pub closed spec fn spec_path(&self) -> Seq<char> {
        self.path@
    }

    pub closed spec fn spec_tmp_path(&self) -> Seq<char> {
        self.tmp_path@
    }

    /// Opens the state file at `path`, which holds `contents` (`None` if there is
    /// no such file), returning the persisted state or a fresh default if the
    /// node has never voted.
    pub fn open(path: String, contents: Option<&[u8]>) -> (opened: Result<
        (RaftStateStore, RaftState),
        StateError,
    >)
        ensures
            match opened {
                Ok((store, state)) => {
                    &&& store.spec_path() == path@
                    &&& forall|dir: Seq<char>, stem: Seq<char>, extension: Option<Seq<char>>|
                        #[trigger] names_file(path@, dir, stem, extension) ==> store.spec_tmp_path()
                            == dir + stem + ".tmp"@
                    &&& opens_as(bytes_view(contents), state@)
                },
                Err(e) => {
                    &&& e is Unreadable
                    &&& is_unreadable(bytes_view(contents))
                },
            },
    {
        proof {
            reveal_strlit("tmp");
            reveal_strlit(".");
            reveal_strlit(".tmp");
            assert(".tmp"@ =~= "."@ + "tmp"@);
        }
        let tmp_path = with_extension(path.as_str(), "tmp");
        proof {
            assert forall|dir: Seq<char>, stem: Seq<char>, extension: Option<Seq<char>>| #[trigger]
                names_file(path@, dir, stem, extension) implies tmp_path@ == dir + stem
                + ".tmp"@ by {
                assert(dir + stem + ".tmp"@ =~= dir + stem + "."@ + "tmp"@);
            }
        }
        let store = RaftStateStore { path, tmp_path };
        match contents {
            None => Ok((store, RaftState::default())),
            Some(bytes) => match deserialize_state(bytes) {
                Ok((current_term, voted_for, commit_index)) => Ok(
                    (store, RaftState { current_term, voted_for, commit_index }),
                ),
                Err(e) => Err(StateError::Unreadable(e)),
            },
        }
    }

    /// The steps that persist `state` durably. They must be complete *before*
    /// the node acts on the change: before answering a vote request, and before
    /// sending one.
    pub fn save(&self, state: &RaftState) -> (steps: Result<Vec<SaveStep>, StateError>)
        ensures
            steps is Ok,
            steps_view(steps->Ok_0@) == save_steps(self.spec_path(), self.spec_tmp_path(), state@),
    {
        let bytes = match serialize_state(state.current_term, &state.voted_for, state.commit_index) {
            Ok(bytes) => bytes,
            Err(e) => {
                return Err(StateError::Unserializable(e));
            },
        };
        let mut steps: Vec<SaveStep> = Vec::new();
        steps.push(SaveStep::WriteFile { path: self.tmp_path.clone(), bytes });
        steps.push(SaveStep::Rename { from: self.tmp_path.clone(), to: self.path.clone() });
        steps.push(SaveStep::SyncDirOf { path: self.path.clone() });
        assert(steps_view(steps@) =~= save_steps(self.spec_path(), self.spec_tmp_path(), state@));
        Ok(steps)
    }

    pub fn path(&self) -> (path: &str)
        ensures
            path@ == self.spec_path(),
    {
        self.path.as_str()
    }

    /// Where the state is written before it replaces the file at
    /// [`RaftStateStore::path`].
    pub fn tmp_path(&self) -> (path: &str)
        ensures
            path@ == self.spec_tmp_path(),
    {
        self.tmp_path.as_str()
    }
}

/// No two states have encodings of which one bytes sequence starts with both.
proof fn lemma_one_state(bytes: Seq<u8>, a: RaftStateView, b: RaftStateView)
    requires
        bytes.len() <= u64::MAX,
        starts_with_state(bytes, a),
        starts_with_state(bytes, b),
    ensures
        a == b,
{
    let (sa, sb) = (state_bytes(a), state_bytes(b));
    lemma_le_bytes_len(a.current_term);
    lemma_le_bytes_len(b.current_term);
    lemma_le_bytes_len(a.commit_index);
    lemma_le_bytes_len(b.commit_index);
    assert(le_bytes(a.current_term) =~= bytes.subrange(0, 8)) by {
        assert(sa.subrange(0, 8) =~= le_bytes(a.current_term));
        assert(sa.subrange(0, 8) =~= bytes.subrange(0, 8));
    }
    assert(le_bytes(b.current_term) =~= bytes.subrange(0, 8)) by {
        assert(sb.subrange(0, 8) =~= le_bytes(b.current_term));
        assert(sb.subrange(0, 8) =~= bytes.subrange(0, 8));
    }
    lemma_le_bytes_injective(a.current_term, b.current_term);
    assert(bytes[8] == text_bytes(a.voted_for)[0]) by {
        assert(sa[8] == text_bytes(a.voted_for)[0]);
    }
    assert(bytes[8] == text_bytes(b.voted_for)[0]) by {
        assert(sb[8] == text_bytes(b.voted_for)[0]);
    }
    if a.voted_for is Some {
        lemma_one_text(bytes, a);
        lemma_one_text(bytes, b);
        let (ta, tb) = (a.voted_for->0, b.voted_for->0);
        let (na, nb) = (encode_utf8(ta).len(), encode_utf8(tb).len());
        assert(na <= sa.len() && nb <= sb.len());
        lemma_le_bytes_injective(na as u64, nb as u64);
        assert(encode_utf8(ta) == encode_utf8(tb));
        encode_utf8_decode_utf8(ta);
        encode_utf8_decode_utf8(tb);
    }
    let tail = 8 + text_bytes(a.voted_for).len() as int;
    assert(le_bytes(a.commit_index) =~= bytes.subrange(tail, tail + 8)) by {
        assert(sa.subrange(tail, tail + 8) =~= le_bytes(a.commit_index));
        assert(sa.subrange(tail, tail + 8) =~= bytes.subrange(tail, tail + 8));
    }
    assert(le_bytes(b.commit_index) =~= bytes.subrange(tail, tail + 8)) by {
        assert(sb.subrange(tail, tail + 8) =~= le_bytes(b.commit_index));
        assert(sb.subrange(tail, tail + 8) =~= bytes.subrange(tail, tail + 8));
    }
    lemma_le_bytes_injective(a.commit_index, b.commit_index);
}

/// Where the text of an encoded state lies.
proof fn lemma_one_text(bytes: Seq<u8>, a: RaftStateView)
    requires
        starts_with_state(bytes, a),
        a.voted_for is Some,
    ensures
        ({
            let t = encode_utf8(a.voted_for->0);
            &&& 17 + t.len() <= bytes.len()
            &&& bytes.subrange(9, 17) == le_bytes(t.len() as u64)
            &&& bytes.subrange(17, 17 + t.len() as int) == t
        }),
{
    let t = encode_utf8(a.voted_for->0);
    let sa = state_bytes(a);
    lemma_le_bytes_len(a.current_term);
    lemma_le_bytes_len(t.len() as u64);
    assert(sa.subrange(9, 17) =~= le_bytes(t.len() as u64));
    assert(sa.subrange(17, 17 + t.len() as int) =~= t);
    assert(sa.subrange(9, 17) =~= bytes.subrange(9, 17));
    assert(sa.subrange(17, 17 + t.len() as int) =~= bytes.subrange(17, 17 + t.len() as int));
}

/// A state that was saved is the state that is read back: a file that holds the
/// bytes of `saved` opens as `saved` and as nothing else. So the term and the
/// vote of a node that restarts are those it had persisted.
pub proof fn law_saved_state_is_read_back(saved: RaftStateView, opened: RaftStateView)
    requires
        state_bytes(saved).len() <= u64::MAX,
    ensures
        starts_with_state(state_bytes(saved), saved),
        starts_with_state(state_bytes(saved), opened) ==> opened == saved,
{
    if starts_with_state(state_bytes(saved), opened) {
        lemma_one_state(state_bytes(saved), saved, opened);
    }
}

/// A node without a state file starts in term zero, without a vote and with nothing
/// committed. A file that holds a saved state, and whatever follows it, is readable, and
/// one that holds just that opens as that state only.
pub proof fn law_state_file_is_opened_as_saved(
    saved: RaftStateView,
    rest: Seq<u8>,
    opened: RaftStateView,
)
    requires
        state_bytes(saved).len() <= u64::MAX,
    ensures
        opens_as(None, opened) <==> opened.current_term == 0 && opened.voted_for is None
            && opened.commit_index == 0,
        !is_unreadable(None),
        !is_unreadable(Some(state_bytes(saved) + rest)),
        opens_as(Some(state_bytes(saved) + rest), saved),
        opens_as(Some(state_bytes(saved)), opened) <==> opened.current_term == saved.current_term
            && opened.voted_for == saved.voted_for && opened.commit_index == saved.commit_index,
        forall|bytes: Seq<u8>| #[trigger]
            opens_as(Some(bytes), opened) ==> bytes.take(state_bytes(opened).len() as int)
                == state_bytes(opened),
{
    law_saved_state_is_read_back(saved, opened);
    assert(starts_with_state(state_bytes(saved) + rest, saved));
    assert forall|bytes: Seq<u8>| #[trigger] opens_as(Some(bytes), opened) implies bytes.take(
        state_bytes(opened).len() as int,
    ) == state_bytes(opened) by {
        assert(bytes.take(state_bytes(opened).len() as int) =~= state_bytes(opened));
    }
}

/// A state is its term, its vote and its commit index, in this order: the numbers take
/// eight bytes each, and a vote a tag, its length in eight bytes and its text.
pub proof fn law_state_file_has_three_parts(state: RaftStateView)
    ensures
        state_bytes(state).take(8) == le_bytes(state.current_term),
        state.voted_for is None ==> {
            &&& state_bytes(state).len() == 17
            &&& state_bytes(state)[8] == 0
            &&& state_bytes(state).skip(9) == le_bytes(state.commit_index)
        },
        state.voted_for matches Some(name) ==> {
            let text = encode_utf8(name);
            &&& state_bytes(state).len() == 25 + text.len()
            &&& state_bytes(state)[8] == 1
            &&& state_bytes(state).subrange(9, 17) == le_bytes(text.len() as u64)
            &&& state_bytes(state).subrange(17, 17 + text.len() as int) == text
            &&& state_bytes(state).skip(17 + text.len() as int) == le_bytes(state.commit_index)
        },
{
    let bytes = state_bytes(state);
    lemma_le_bytes_len(state.current_term);
    lemma_le_bytes_len(state.commit_index);
    assert(bytes.take(8) =~= le_bytes(state.current_term));
    match state.voted_for {
        None => {
            assert(bytes.skip(9) =~= le_bytes(state.commit_index));
        },
        Some(name) => {
            let text = encode_utf8(name);
            lemma_le_bytes_len(text.len() as u64);
            assert(bytes.subrange(9, 17) =~= le_bytes(text.len() as u64));
            assert(bytes.subrange(17, 17 + text.len() as int) =~= text);
            assert(bytes.skip(17 + text.len() as int) =~= le_bytes(state.commit_index));
        },
    }
}

/// A file system while it is being changed: what a power loss is sure to leave,
/// and what the running system shows. They differ between a rename and the
/// flush of its directory.
pub struct Disk {
    pub durable: Map<Seq<char>, Seq<u8>>,
    pub visible: Map<Seq<char>, Seq<u8>>,
}

/// What the file at `path` holds, if there is one.
pub open spec fn held(files: Map<Seq<char>, Seq<u8>>, path: Seq<char>) -> Option<Seq<u8>> {
    if files.contains_key(path) {
        Some(files[path])
    } else {
        None
    }
}

/// The file system after a complete step.
pub open spec fn after_step(disk: Disk, step: SaveStepView) -> Disk {
    match step {
        SaveStepView::WriteFile { path, bytes } => Disk {
            durable: disk.durable.insert(path, bytes),
            visible: disk.visible.insert(path, bytes),
        },
        SaveStepView::Rename { from, to } => Disk {
            durable: disk.durable,
            visible: disk.visible.remove(from).insert(to, disk.visible[from]),
        },
        SaveStepView::SyncDirOf { .. } => Disk { durable: disk.visible, visible: disk.visible },
    }
}

/// The file system after the first `n` steps.
pub open spec fn after_steps(disk: Disk, steps: Seq<SaveStepView>, n: nat) -> Disk
    decreases n,
{
    if n == 0 {
        disk
    } else {
        after_step(after_steps(disk, steps, (n - 1) as nat), steps[n - 1])
    }
}

/// Whether a crash before the step that follows `disk` is complete can leave
/// `files`. A file that is being written can then hold anything; a rename that
/// was not flushed may or may not have happened.
pub open spec fn crash_can_leave(
    disk: Disk,
    step: SaveStepView,
    files: Map<Seq<char>, Seq<u8>>,
) -> bool {
    match step {
        SaveStepView::WriteFile { path, .. } => forall|other: Seq<char>|
            other != path ==> #[trigger] held(files, other) == held(disk.durable, other) || held(
                files,
                other,
            ) == held(disk.visible, other),
        _ => files == disk.durable || files == disk.visible || files == after_step(
            disk,
            step,
        ).visible,
    }
}

/// A torn state file is never observable: wherever a crash interrupts a save,
/// the state file holds what it held before, or the new state in full.
///
/// The temporary file must be another file, which it is unless the state file
/// is itself named like a temporary one.
pub proof fn law_save_is_atomic(
    files: Map<Seq<char>, Seq<u8>>,
    path: Seq<char>,
    tmp_path: Seq<char>,
    state: RaftStateView,
    done: nat,
    left: Map<Seq<char>, Seq<u8>>,
)
    requires
        tmp_path != path,
        done < 3,
        crash_can_leave(
            after_steps(
                (Disk { durable: files, visible: files }),
                save_steps(path, tmp_path, state),
                done,
            ),
            save_steps(path, tmp_path, state)[done as int],
            left,
        ),
    ensures
        held(left, path) == held(files, path) || held(left, path) == Some(state_bytes(state)),
{
    reveal_with_fuel(after_steps, 4);
}

/// A save touches no other file than the state file and the temporary one, and leaves no
/// temporary file behind.
pub proof fn law_save_touches_its_own_files(
    files: Map<Seq<char>, Seq<u8>>,
    path: Seq<char>,
    tmp_path: Seq<char>,
    state: RaftStateView,
    other: Seq<char>,
)
    requires
        tmp_path != path,
        other != path,
    ensures
        ({
            let after = after_steps(
                (Disk { durable: files, visible: files }),
                save_steps(path, tmp_path, state),
                save_steps(path, tmp_path, state).len(),
            );
            &&& other != tmp_path ==> held(after.durable, other) == held(files, other)
            &&& held(after.durable, tmp_path) is None
        }),
{
    reveal_with_fuel(after_steps, 4);
}

/// A save that ran to the end is on disk.
pub proof fn law_save_is_durable(
    files: Map<Seq<char>, Seq<u8>>,
    path: Seq<char>,
    tmp_path: Seq<char>,
    state: RaftStateView,
)
    ensures
        held(
            after_steps(
                (Disk { durable: files, visible: files }),
                save_steps(path, tmp_path, state),
                3,
            ).durable,
            path,
        ) == Some(state_bytes(state)),
{
    reveal_with_fuel(after_steps, 4);
}

} // verus!
