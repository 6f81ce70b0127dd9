//! Source positions, source files, and the projects that own a path.
use crate::fx::{
    contains_name, insert_name, names_in, no_names, no_numbers, number_of, numbers_in, set_number,
};
use crate::paths::{
    absolute, components, components_of, extension, extension_of, is_absolute, is_below, normal,
    normalize, strip_path_prefix,
};
use crate::text::{
    byte_len, chars_of, lemma_byte_len_grows, lemma_pieces_nonempty, pieces, same, texts, width,
    width_of,
};
use crate::types::Project;
use rustc_hash::{FxHashMap, FxHashSet};
use vstd::prelude::*;

verus! {

/// Whether an extension is that of a source file: `ts`, `tsx`, `js` or `jsx`.
pub open spec fn is_source_extension(extension: Seq<char>) -> bool {
    extension == "ts"@ || extension == "tsx"@ || extension == "js"@ || extension == "jsx"@
}

/// Whether a path is that of a source file.
pub open spec fn is_source_path(path: Seq<char>) -> bool {
    match extension(path) {
        Some(text) => is_source_extension(text),
        None => false,
    }
}

/// Check if a file is a source file (TypeScript/JavaScript)
/// These are files that can be parsed by the Oxc parser
pub fn is_source_file(path: &str) -> (r: bool)
    ensures
        r == is_source_path(path@),
{
    match extension_of(path) {
        Some(text) => same(text.as_str(), "ts") || same(text.as_str(), "tsx") || same(
            text.as_str(),
            "js",
        ) || same(text.as_str(), "jsx"),
        None => false,
    }
}

/// The bytes of the first `count` lines that a line feed ends, with the line
/// feeds.
pub open spec fn ended_bytes(lines: Seq<Seq<char>>, count: nat) -> nat
    decreases count,
{
    if count == 0 {
        0
    } else {
        ended_bytes(lines, (count - 1) as nat) + byte_len(lines[count - 1]) + 1
    }
}

/// The bytes that the first `count` lines of a text take: each line, up to and
/// with the line feed that ends it. The text's last line may lack its end, and
/// counts as if it had one.
pub open spec fn bytes_of_lines(text: Seq<char>, count: nat) -> nat {
    let all = pieces(text, '\n');
    if count < all.len() {
        ended_bytes(all, count)
    } else {
        ended_bytes(all, (all.len() - 1) as nat) + if all.last().len() == 0 {
            0
        } else {
            byte_len(all.last()) + 1
        }
    }
}

/// The byte offset at which a line begins; lines are counted from 1.
pub open spec fn line_offset(text: Seq<char>, line: nat) -> nat {
    if line == 0 {
        0
    } else {
        bytes_of_lines(text, (line - 1) as nat)
    }
}

/// The bytes of ended lines depend on these lines alone.
proof fn lemma_ended_bytes(a: Seq<Seq<char>>, b: Seq<Seq<char>>, count: nat)
    requires
        forall|i: int| 0 <= i < count ==> a[i] == b[i],
    ensures
        ended_bytes(a, count) == ended_bytes(b, count),
    decreases count,
{
    if count > 0 {
        lemma_ended_bytes(a, b, (count - 1) as nat);
    }
}

/// The bytes that the first `count` lines of a text take.
fn count_line_bytes(source: &str, count: usize) -> (r: usize)
    requires
        byte_len(source@) < usize::MAX,
    ensures
        r == bytes_of_lines(source@, count as nat),
{
    if count == 0 {
        proof {
            lemma_pieces_nonempty(source@, '\n');
        }
        return 0;
    }
    let chars: Vec<char> = chars_of(source);
    let mut sum: usize = 0;
    let mut done: usize = 0;
    let mut current: usize = 0;
    let mut i: usize = 0;
    proof {
        assert(pieces(source@.take(0), '\n') =~= seq![Seq::<char>::empty()]);
    }
    while i < chars.len()
        invariant
            chars@ == source@,
            byte_len(source@) < usize::MAX,
            i <= chars@.len(),
            done < count,
            ({
                let all = pieces(source@.take(i as int), '\n');
                &&& all.len() == done + 1
                &&& sum == ended_bytes(all, done as nat)
                &&& current == byte_len(all.last())
                &&& sum + current <= byte_len(source@.take(i as int))
            }),
        decreases chars@.len() - i,
    {
        let c: char = chars[i];
        let ghost before = pieces(source@.take(i as int), '\n');
        let ghost after = pieces(source@.take(i + 1), '\n');
        proof {
            assert(source@.take(i + 1).drop_last() =~= source@.take(i as int));
            assert(source@.take(i + 1).last() == c);
            lemma_byte_len_grows(source@, i + 1, source@.len() as int);
            assert(source@.take(source@.len() as int) =~= source@);
            assert(byte_len(source@.take(i + 1)) == byte_len(source@.take(i as int)) + width(c));
        }
        let step: usize = width_of(c);
        if c == '\n' {
            proof {
                assert(after =~= before.push(Seq::empty()));
                lemma_ended_bytes(before, after, done as nat);
                assert(after[done as int] == before.last());
            }
            sum = sum + current + 1;
            done = done + 1;
            current = 0;
            if done == count {
                proof {
                    lemma_pieces_prefix(source@, i + 1, done as nat);
                }
                return sum;
            }
        } else {
            proof {
                assert(after =~= before.drop_last().push(before.last().push(c)));
                lemma_ended_bytes(before, after, done as nat);
                assert(before.last().push(c).drop_last() =~= before.last());
            }
            current = current + step;
        }
        i = i + 1;
    }
    proof {
        assert(source@.take(source@.len() as int) =~= source@);
        let all = pieces(source@, '\n');
        assert(all.last().len() == 0 ==> all.last() =~= Seq::<char>::empty());
        if current == 0 && all.last().len() > 0 {
            assert(byte_len(all.last()) >= 1);
        }
    }
    if current == 0 {
        sum
    } else {
        sum + current + 1
    }
}

/// Lines that have ended in a beginning of a text are its lines.
proof fn lemma_pieces_prefix(text: Seq<char>, at: int, count: nat)
    requires
        0 <= at <= text.len(),
        count < pieces(text.take(at), '\n').len(),
    ensures
        count < pieces(text, '\n').len(),
        ended_bytes(pieces(text, '\n'), count) == ended_bytes(pieces(text.take(at), '\n'), count),
    decreases text.len() - at,
{
    if at == text.len() {
        assert(text.take(at) =~= text);
    } else {
        let before = pieces(text.take(at), '\n');
        let after = pieces(text.take(at + 1), '\n');
        assert(text.take(at + 1).drop_last() =~= text.take(at));
        lemma_pieces_nonempty(text.take(at), '\n');
        assert(after.len() >= before.len());
        assert forall|i: int| 0 <= i < count implies before[i] == after[i] by {}
        lemma_ended_bytes(before, after, count);
        lemma_pieces_prefix(text, at + 1, count);
    }
}

/// Convert line number to byte offset in source text
/// Line numbers are 1-indexed, returns 0-indexed byte offset
pub fn line_to_offset(source: &str, line: usize) -> (r: Option<usize>)
    requires
        byte_len(source@) < usize::MAX,
    ensures
        r is Some,
        r->0 == line_offset(source@, line as nat),
{
    if line == 0 {
        return Some(0);
    }
    Some(count_line_bytes(source, line - 1))
}

/// How many characters from position `from` on begin before byte `offset`,
/// counted from the start of the text.
pub open spec fn reached(text: Seq<char>, offset: nat, from: int) -> int
    decreases text.len() - from,
{
    if from >= text.len() || byte_len(text.take(from)) >= offset {
        from
    } else {
        reached(text, offset, from + 1)
    }
}

/// How many lines have ended in a text.
pub open spec fn line_feeds(text: Seq<char>) -> nat
    decreases text.len(),
{
    if text.len() == 0 {
        0
    } else if text.last() == '\n' {
        line_feeds(text.drop_last()) + 1
    } else {
        line_feeds(text.drop_last())
    }
}

/// How many characters stand behind the last line feed of a text.
pub open spec fn tail_len(text: Seq<char>) -> nat
    decreases text.len(),
{
    if text.len() == 0 || text.last() == '\n' {
        0
    } else {
        tail_len(text.drop_last()) + 1
    }
}

/// The line and the column, both counted from 1, of a byte offset: those behind
/// the characters that begin before it.
pub open spec fn line_col(text: Seq<char>, offset: nat) -> (nat, nat) {
    let before = text.take(reached(text, offset, 0));
    (line_feeds(before) + 1, tail_len(before) + 1)
}

/// Lines and columns are no more than characters.
proof fn lemma_line_col_bounds(text: Seq<char>)
    ensures
        line_feeds(text) + tail_len(text) <= text.len(),
    decreases text.len(),
{
    if text.len() > 0 {
        lemma_line_col_bounds(text.drop_last());
    }
}

/// Convert byte offset to line and column
/// Returns (line, column) both 1-indexed
pub fn offset_to_line_col(source: &str, offset: usize) -> (r: (usize, usize))
    requires
        byte_len(source@) < usize::MAX,
    ensures
        r.0 == line_col(source@, offset as nat).0,
        r.1 == line_col(source@, offset as nat).1,
{
    let chars: Vec<char> = chars_of(source);
    let mut line: usize = 1;
    let mut col: usize = 1;
    let mut current: usize = 0;
    let mut i: usize = 0;
    proof {
        assert(source@.take(source@.len() as int) =~= source@);
        lemma_byte_len_grows(source@, 0, source@.len() as int);
    }
    while i < chars.len() && current < offset
        invariant
            chars@ == source@,
            byte_len(source@) < usize::MAX,
            chars@.len() <= byte_len(source@),
            i <= chars@.len(),
            current == byte_len(source@.take(i as int)),
            reached(source@, offset as nat, 0) == reached(source@, offset as nat, i as int),
            line == line_feeds(source@.take(i as int)) + 1,
            col == tail_len(source@.take(i as int)) + 1,
        decreases chars@.len() - i,
    {
        let c: char = chars[i];
        proof {
            let next = source@.take(i + 1);
            assert(next.drop_last() =~= source@.take(i as int));
            assert(next.last() == c);
            lemma_byte_len_grows(source@, i + 1, source@.len() as int);
            assert(source@.take(source@.len() as int) =~= source@);
            lemma_line_col_bounds(source@.take(i as int));
        }
        if c == '\n' {
            line = line + 1;
            col = 1;
        } else {
            col = col + 1;
        }
        current = current + width_of(c);
        i = i + 1;
    }
    (line, col)
}

/// A text has one piece more than it has line feeds.
pub proof fn lemma_piece_count(text: Seq<char>)
    ensures
        pieces(text, '\n').len() == line_feeds(text) + 1,
        pieces(text, '\n').last().len() == tail_len(text),
    decreases text.len(),
{
    if text.len() > 0 {
        lemma_piece_count(text.drop_last());
    }
}

/// Behind the last line of a text, every line has the same offset.
pub proof fn lemma_far_lines(text: Seq<char>, line: nat)
    requires
        byte_len(text) < usize::MAX,
        line >= usize::MAX,
    ensures
        line_offset(text, line + 1) == line_offset(text, line),
{
    lemma_piece_count(text);
    lemma_line_col_bounds(text);
    lemma_byte_len_grows(text, 0, text.len() as int);
    assert(text.take(text.len() as int) =~= text);
}

/// The lines of a text take all its bytes.
pub proof fn lemma_all_bytes(text: Seq<char>)
    ensures
        ended_bytes(pieces(text, '\n'), line_feeds(text)) + byte_len(pieces(text, '\n').last())
            == byte_len(text),
    decreases text.len(),
{
    lemma_piece_count(text);
    if text.len() > 0 {
        let shorter = text.drop_last();
        lemma_all_bytes(shorter);
        lemma_piece_count(shorter);
        let before = pieces(shorter, '\n');
        let after = pieces(text, '\n');
        lemma_ended_bytes(before, after, line_feeds(shorter));
        if text.last() == '\n' {
            assert(after[line_feeds(shorter) as int] == before.last());
            assert(after.last() =~= Seq::<char>::empty());
        } else {
            assert(before.last().push(text.last()).drop_last() =~= before.last());
        }
    }
}

/// The start of a line: the characters before it hold as many line feeds as
/// there are lines before it, end with one of them, and take as many bytes as
/// the line's offset says.
proof fn lemma_line_start(text: Seq<char>, line: nat) -> (at: int)
    requires
        1 <= line <= line_feeds(text) + 1,
    ensures
        0 <= at <= text.len(),
        line_feeds(text.take(at)) == line - 1,
        tail_len(text.take(at)) == 0,
        byte_len(text.take(at)) == line_offset(text, line),
    decreases text.len(),
{
    lemma_piece_count(text);
    if text.len() == 0 {
        assert(text.take(0) =~= text);
        0
    } else {
        let shorter = text.drop_last();
        if line <= line_feeds(shorter) + 1 {
            let at = lemma_line_start(shorter, line);
            assert(shorter.take(at) =~= text.take(at));
            lemma_piece_count(shorter);
            assert(text.take(text.len() - 1) =~= shorter);
            lemma_pieces_prefix(text, text.len() - 1, (line - 1) as nat);
            at
        } else {
            lemma_all_bytes(text);
            assert(text.take(text.len() as int) =~= text);
            assert(pieces(text, '\n').last() =~= Seq::<char>::empty());
            text.len() as int
        }
    }
}

/// The characters that begin before the end of a beginning of a text are that
/// beginning.
pub proof fn lemma_reached(text: Seq<char>, at: int, from: int)
    requires
        0 <= from <= at <= text.len(),
    ensures
        reached(text, byte_len(text.take(at)), from) == at,
    decreases at - from,
{
    lemma_byte_len_grows(text, from, at);
    if from < at {
        lemma_reached(text, at, from + 1);
    }
}

/// The line and column of a character are no more than the characters before it,
/// and one.
pub proof fn lemma_place_bounds(text: Seq<char>, at: int)
    requires
        0 <= at <= text.len(),
    ensures
        line_col(text, byte_len(text.take(at))).0 <= at + 1,
        line_col(text, byte_len(text.take(at))).1 <= at + 1,
        at <= byte_len(text),
{
    lemma_reached(text, at, 0);
    lemma_line_col_bounds(text.take(at));
    lemma_byte_len_grows(text, 0, text.len() as int);
    assert(text.take(text.len() as int) =~= text);
}

/// The offset of a line leads back to that line, at its first column.
pub proof fn law_line_round_trip(text: Seq<char>, line: nat)
    requires
        1 <= line <= line_feeds(text) + 1,
    ensures
        line_col(text, line_offset(text, line)) == (line, 1nat),
{
    let at = lemma_line_start(text, line);
    lemma_reached(text, at, 0);
}

/// The characters of a line that stand before position `at` of a text, on the
/// line that this position is on.
pub open spec fn line_head(text: Seq<char>, at: int) -> Seq<char> {
    pieces(text.take(at), '\n').last()
}

/// The line and column of an offset lead back to it: the offset of the line, and
/// the bytes of the characters before the column, make the offset again. It is
/// the offset of a character, or of the end of the text.
pub proof fn law_offset_round_trip(text: Seq<char>, at: int)
    requires
        0 <= at <= text.len(),
    ensures
        ({
            let offset = byte_len(text.take(at));
            let (line, col) = line_col(text, offset);
            &&& line_head(text, at).len() == col - 1
            &&& line_offset(text, line) + byte_len(line_head(text, at)) == offset
        }),
{
    let head = text.take(at);
    lemma_reached(text, at, 0);
    lemma_piece_count(head);
    lemma_all_bytes(head);
    lemma_pieces_prefix(text, at, line_feeds(head));
}

/// The files that a project's tsconfig leaves out.
pub struct TsconfigExcludes {
    files: FxHashSet<String>,
}

/// The normal texts of a list of paths.
pub open spec fn normal_texts(files: Seq<String>) -> Seq<Seq<char>> {
    files.map_values(|file: String| normal(file@))
}

impl View for TsconfigExcludes {
    type V = Set<Seq<char>>;

    /// The normal texts of the files.
    closed spec fn view(&self) -> Set<Seq<char>> {
        names_in(&self.files)
    }
}

impl TsconfigExcludes {
    /// The excludes that leave out the given files.
    pub fn new(files: &Vec<String>) -> (r: TsconfigExcludes)
        ensures
            r@ == normal_texts(files@).to_set(),
    {
        let mut set: FxHashSet<String> = no_names();
        let ghost all = normal_texts(files@);
        let mut i: usize = 0;
        proof {
            assert(all.take(0).to_set() =~= Set::<Seq<char>>::empty());
        }
        while i < files.len()
            invariant
                all == normal_texts(files@),
                i <= files@.len(),
                names_in(&set) == all.take(i as int).to_set(),
            decreases files@.len() - i,
        {
            let text: String = normalize(files[i].as_str());
            proof {
                assert(all.take(i + 1) =~= all.take(i as int).push(text@));
                lemma_set_push(all.take(i as int), text@);
            }
            insert_name(&mut set, text);
            i = i + 1;
        }
        proof {
            assert(all.take(all.len() as int) =~= all);
        }
        TsconfigExcludes { files: set }
    }

    /// Whether the tsconfig leaves the file out.
    pub fn is_excluded(&self, file_path: &str) -> (r: bool)
        ensures
            r == self@.contains(normal(file_path@)),
    {
        let text: String = normalize(file_path);
        contains_name(&self.files, text.as_str())
    }
}

/// A root, by its components, and the names of all projects that have it.
struct Group {
    root: Vec<String>,
    names: Vec<String>,
}

/// What a root's group stands for.
#[verifier::ext_equal]
pub struct GroupView {
    pub root: Seq<Seq<char>>,
    pub names: Seq<Seq<char>>,
}

impl View for Group {
    type V = GroupView;

    closed spec fn view(&self) -> GroupView {
        GroupView { root: texts(self.root@), names: texts(self.names@) }
    }
}

/// What a list of groups stands for.
spec fn group_views(groups: Seq<Group>) -> Seq<GroupView> {
    groups.map_values(|group: Group| group@)
}

/// The components of a project root as the workspace sees it: below the working
/// directory, where an absolute root is.
pub open spec fn root_components(root: Seq<char>, cwd: Seq<char>) -> Seq<Seq<char>> {
    if absolute(root) && is_below(root, cwd) {
        components(root).skip(components(cwd).len() as int)
    } else {
        components(root)
    }
}

/// The groups with one name more: in the group of its root, or in a new one.
pub open spec fn with_name(groups: Seq<GroupView>, root: Seq<Seq<char>>, name: Seq<char>) -> Seq<
    GroupView,
>
    decreases groups.len(),
{
    if groups.len() == 0 {
        seq![GroupView { root, names: seq![name] }]
    } else if groups[0].root == root {
        seq![GroupView { root, names: groups[0].names.push(name) }] + groups.skip(1)
    } else {
        seq![groups[0]] + with_name(groups.skip(1), root, name)
    }
}

/// The source roots of a list of projects, each with the names that share it.
pub open spec fn source_groups(projects: Seq<Project>, cwd: Seq<char>) -> Seq<GroupView>
    decreases projects.len(),
{
    if projects.len() == 0 {
        Seq::empty()
    } else {
        let last = projects.last();
        with_name(
            source_groups(projects.drop_last(), cwd),
            root_components(last.source_root@, cwd),
            last.name@,
        )
    }
}

/// Whether a project is also found by its root: the root is not the source root,
/// and not the workspace itself.
pub open spec fn has_own_root(project: Project, cwd: Seq<char>) -> bool {
    let root = root_components(project.root@, cwd);
    root != root_components(project.source_root@, cwd) && root.len() > 0 && root != seq![seq!['.']]
}

/// The roots of the projects that are also found by it.
pub open spec fn root_groups(projects: Seq<Project>, cwd: Seq<char>) -> Seq<GroupView>
    decreases projects.len(),
{
    if projects.len() == 0 {
        Seq::empty()
    } else {
        let last = projects.last();
        let before = root_groups(projects.drop_last(), cwd);
        if has_own_root(last, cwd) {
            with_name(before, root_components(last.root@, cwd), last.name@)
        } else {
            before
        }
    }
}

/// What the tsconfig of the last project of a name leaves out, among the
/// projects that have a tsconfig that could be read.
pub open spec fn project_excludes(
    projects: Seq<Project>,
    excludes: Seq<Option<TsconfigExcludes>>,
) -> Map<Seq<char>, Set<Seq<char>>>
    decreases projects.len(),
{
    if projects.len() == 0 {
        Map::empty()
    } else {
        let last = projects.last();
        let before = project_excludes(projects.drop_last(), excludes.drop_last());
        match excludes.last() {
            Some(files) => if last.ts_config is Some {
                before.insert(last.name@, files@)
            } else {
                before
            },
            None => before,
        }
    }
}

/// Pre-built index from sourceRoot (and project root) to project names for
/// O(unique_roots) lookups instead of O(total_projects) on every call.
///
/// Also holds per-project tsconfig excludes so that files excluded by a
/// project's tsconfig (e.g. `*.stories.tsx`, `*.spec.ts`) don't count toward
/// marking that project as affected.
pub struct ProjectIndex {
    /// Each entry is a unique sourceRoot paired with all project names that share it.
    entries: Vec<Group>,
    /// Each entry is a unique project root paired with all project names that share it.
    /// Used as a fallback when a file is inside a project's root but outside its sourceRoot
    /// (e.g. config files like project.json, jest.config.js, tsconfig.json).
    root_entries: Vec<Group>,
    /// What each tsconfig leaves out.
    excludes: Vec<Option<TsconfigExcludes>>,
    /// The number of its tsconfig in `excludes`, per project name.
    exclude_numbers: FxHashMap<String, usize>,
}

/// What a [`ProjectIndex`] stands for.
#[verifier::ext_equal]
pub struct IndexView {
    /// The source roots.
    pub entries: Seq<GroupView>,
    /// The roots that are not source roots.
    pub root_entries: Seq<GroupView>,
    /// The normal texts of the files that a project's tsconfig leaves out.
    pub excludes: Map<Seq<char>, Set<Seq<char>>>,
}

/// The files in the excludes with a given number, where there are any.
pub open spec fn excluded_files(excludes: Seq<Option<TsconfigExcludes>>, number: usize) -> Set<
    Seq<char>,
> {
    if number < excludes.len() {
        match excludes[number as int] {
            Some(files) => files@,
            None => Set::empty(),
        }
    } else {
        Set::empty()
    }
}

impl View for ProjectIndex {
    type V = IndexView;

    closed spec fn view(&self) -> IndexView {
        IndexView {
            entries: group_views(self.entries@),
            root_entries: group_views(self.root_entries@),
            excludes: numbers_in(&self.exclude_numbers).map_values(
                |number: usize| excluded_files(self.excludes@, number),
            ),
        }
    }
}

/// The names of the groups whose root a path is below.
pub open spec fn names_above(groups: Seq<GroupView>, path: Seq<Seq<char>>) -> Seq<Seq<char>>
    decreases groups.len(),
{
    if groups.len() == 0 {
        Seq::empty()
    } else {
        let before = names_above(groups.drop_last(), path);
        if groups.last().root.is_prefix_of(path) {
            before + groups.last().names
        } else {
            before
        }
    }
}

impl IndexView {
    /// Whether a project's tsconfig leaves a file out.
    pub open spec fn excludes_file(self, name: Seq<char>, path: Seq<char>) -> bool {
        self.excludes.dom().contains(name) && self.excludes[name].contains(normal(path))
    }

    /// The names whose tsconfig keeps a file; all of them where excludes do not
    /// count.
    pub open spec fn kept(
        self,
        names: Seq<Seq<char>>,
        path: Seq<char>,
        skip_excludes: bool,
    ) -> Seq<Seq<char>>
        decreases names.len(),
    {
        if names.len() == 0 {
            Seq::empty()
        } else {
            let before = self.kept(names.drop_last(), path, skip_excludes);
            if skip_excludes || !self.excludes_file(names.last(), path) {
                before.push(names.last())
            } else {
                before
            }
        }
    }

    /// The projects that own a file: those whose source root it is below and
    /// whose tsconfig keeps it, then those whose root it is below and that were
    /// not found by their source root.
    pub open spec fn owners(self, path: Seq<char>, skip_excludes: bool) -> Seq<Seq<char>> {
        let found = names_above(self.entries, components(path));
        self.kept(found, path, skip_excludes) + without(
            names_above(self.root_entries, components(path)),
            found.to_set(),
        )
    }
}

/// The names that are not in a set.
pub open spec fn without(names: Seq<Seq<char>>, taken: Set<Seq<char>>) -> Seq<Seq<char>>
    decreases names.len(),
{
    if names.len() == 0 {
        Seq::empty()
    } else {
        let before = without(names.drop_last(), taken);
        if taken.contains(names.last()) {
            before
        } else {
            before.push(names.last())
        }
    }
}

/// A name stays behind a group that is not its own.
proof fn lemma_with_name_at(groups: Seq<GroupView>, root: Seq<Seq<char>>, name: Seq<char>, at: int)
    requires
        0 <= at <= groups.len(),
        forall|k: int| 0 <= k < at ==> (#[trigger] groups[k]).root != root,
        at < groups.len() ==> groups[at].root == root,
    ensures
        with_name(groups, root, name) == if at < groups.len() {
            groups.update(at, GroupView { root, names: groups[at].names.push(name) })
        } else {
            groups.push(GroupView { root, names: seq![name] })
        },
    decreases at,
{
    if at == 0 {
        if groups.len() > 0 {
            assert(with_name(groups, root, name) =~= groups.update(
                0,
                GroupView { root, names: groups[0].names.push(name) },
            ));
        } else {
            assert(with_name(groups, root, name) =~= groups.push(
                GroupView { root, names: seq![name] },
            ));
        }
    } else {
        let rest = groups.skip(1);
        assert(groups[0].root != root);
        assert forall|k: int| 0 <= k < at - 1 implies (#[trigger] rest[k]).root != root by {
            assert(rest[k] == groups[k + 1]);
        }
        lemma_with_name_at(rest, root, name, at - 1);
        if at < groups.len() {
            assert(with_name(groups, root, name) =~= groups.update(
                at,
                GroupView { root, names: groups[at].names.push(name) },
            ));
        } else {
            assert(with_name(groups, root, name) =~= groups.push(
                GroupView { root, names: seq![name] },
            ));
        }
    }
}

/// Whether two lists hold the same texts.
fn same_texts(a: &Vec<String>, b: &Vec<String>) -> (r: bool)
    ensures
        r == (texts(a@) == texts(b@)),
{
    proof {
        assert(texts(a@).len() == a@.len());
        assert(texts(b@).len() == b@.len());
    }
    if a.len() != b.len() {
        return false;
    }
    let mut i: usize = 0;
    while i < a.len()
        invariant
            a@.len() == b@.len(),
            i <= a@.len(),
            forall|k: int| 0 <= k < i ==> a@[k]@ == b@[k]@,
        decreases a@.len() - i,
    {
        if !same(a[i].as_str(), b[i].as_str()) {
            proof {
                assert(texts(a@)[i as int] == a@[i as int]@);
                assert(texts(b@)[i as int] == b@[i as int]@);
            }
            return false;
        }
        i = i + 1;
    }
    proof {
        assert(texts(a@) =~= texts(b@));
    }
    true
}

/// Puts one name more into the group of its root.
fn add_name(groups: &mut Vec<Group>, root: Vec<String>, name: String)
    ensures
        group_views(final(groups)@) == with_name(group_views(old(groups)@), texts(root@), name@),
{
    let ghost views = group_views(groups@);
    let ghost key = texts(root@);
    let mut i: usize = 0;
    while i < groups.len() && !same_texts(&groups[i].root, &root)
        invariant
            views == group_views(groups@),
            key == texts(root@),
            i <= groups@.len(),
            forall|k: int| 0 <= k < i ==> (#[trigger] views[k]).root != key,
        decreases groups@.len() - i,
    {
        proof {
            assert(views[i as int] == groups@[i as int]@);
        }
        i = i + 1;
    }
    proof {
        assert(views.len() == groups@.len());
        assert(i < groups@.len() ==> views[i as int] == groups@[i as int]@);
        lemma_with_name_at(views, key, name@, i as int);
    }
    if i < groups.len() {
        let ghost group = groups@[i as int];
        groups[i].names.push(name);
        proof {
            assert(groups@[i as int].root == group.root);
            assert(texts(groups@[i as int].names@) =~= texts(group.names@).push(name@));
            assert(group_views(groups@) =~= views.update(
                i as int,
                GroupView { root: key, names: views[i as int].names.push(name@) },
            ));
        }
    } else {
        let mut names: Vec<String> = Vec::new();
        names.push(name);
        proof {
            assert(texts(names@) =~= seq![name@]);
        }
        groups.push(Group { root, names });
        proof {
            assert(group_views(groups@) =~= views.push(
                GroupView { root: key, names: seq![name@] },
            ));
        }
    }
}

/// The components of a project root as the workspace sees it.
fn normalize_project_root(root: &str, cwd: &str) -> (r: Vec<String>)
    ensures
        texts(r@) == root_components(root@, cwd@),
{
    if is_absolute(root) {
        if let Some(rest) = strip_path_prefix(root, cwd) {
            return components_of(rest.as_str());
        }
    }
    components_of(root)
}

/// Whether a list of components is that of the workspace itself.
fn is_workspace_root(root: &Vec<String>) -> (r: bool)
    ensures
        r == (texts(root@).len() == 0 || texts(root@) == seq![seq!['.']]),
{
    proof {
        reveal_strlit(".");
        assert("."@ =~= seq!['.']);
        assert(texts(root@).len() == root@.len());
        if root@.len() == 1 {
            assert(texts(root@)[0] == root@[0]@);
            assert(root@[0]@ == seq!['.'] ==> texts(root@) =~= seq![seq!['.']]);
        }
    }
    root.len() == 0 || (root.len() == 1 && same(root[0].as_str(), "."))
}

impl ProjectIndex {
    /// Build the index from a list of projects and, for each of them, what its
    /// tsconfig leaves out, where it has one that could be read.
    pub fn new(
        projects: &Vec<Project>,
        cwd: &str,
        excludes: Vec<Option<TsconfigExcludes>>,
    ) -> (r: ProjectIndex)
        requires
            excludes@.len() == projects@.len(),
        ensures
            r@ == index_of(projects@, cwd@, excludes@),
    {
        let mut entries: Vec<Group> = Vec::new();
        let mut root_entries: Vec<Group> = Vec::new();
        let mut numbers: FxHashMap<String, usize> = no_numbers();
        let ghost file_sets = |number: usize| excluded_files(excludes@, number);
        let mut i: usize = 0;
        proof {
            assert(group_views(entries@) =~= Seq::<GroupView>::empty());
            assert(numbers_in(&numbers).map_values(file_sets) =~= Map::empty());
        }
        while i < projects.len()
            invariant
                excludes@.len() == projects@.len(),
                i <= projects@.len(),
                file_sets == (|number: usize| excluded_files(excludes@, number)),
                group_views(entries@) == source_groups(projects@.take(i as int), cwd@),
                group_views(root_entries@) == root_groups(projects@.take(i as int), cwd@),
                numbers_in(&numbers).map_values(file_sets) == project_excludes(
                    projects@.take(i as int),
                    excludes@.take(i as int),
                ),
            decreases projects@.len() - i,
        {
            let project: &Project = &projects[i];
            proof {
                let longer = projects@.take(i + 1);
                assert(longer.drop_last() =~= projects@.take(i as int));
                assert(longer.last() == *project);
                let more = excludes@.take(i + 1);
                assert(more.drop_last() =~= excludes@.take(i as int));
                assert(more.last() == excludes@[i as int]);
            }
            let source_root: Vec<String> = normalize_project_root(project.source_root.as_str(), cwd);
            let project_root: Vec<String> = normalize_project_root(project.root.as_str(), cwd);
            if !same_texts(&project_root, &source_root) && !is_workspace_root(&project_root) {
                add_name(&mut root_entries, project_root, project.name.clone());
            }
            add_name(&mut entries, source_root, project.name.clone());
            if project.ts_config.is_some() && excludes[i].is_some() {
                let ghost before = numbers_in(&numbers);
                set_number(&mut numbers, project.name.clone(), i);
                proof {
                    assert(numbers_in(&numbers).map_values(file_sets) =~= before.map_values(
                        file_sets,
                    ).insert(project.name@, excluded_files(excludes@, i)));
                }
            }
            i = i + 1;
        }
        proof {
            assert(projects@.take(projects@.len() as int) =~= projects@);
            assert(excludes@.take(excludes@.len() as int) =~= excludes@);
        }
        ProjectIndex { entries, root_entries, excludes, exclude_numbers: numbers }
    }

    /// Find ALL project names whose sourceRoot (or root) is a prefix of `file_path`,
    /// excluding projects whose tsconfig excludes the file.
    ///
    /// Checks sourceRoot entries first (with tsconfig exclude filtering), then falls
    /// back to root entries for files that live inside a project's root but outside its
    /// sourceRoot (e.g. config files like project.json, jest.config.js).
    pub fn get_package_names_by_path(&self, file_path: &str) -> (r: Vec<String>)
        ensures
            texts(r@) == self@.owners(file_path@, false),
    {
        self.resolve_packages(file_path, false)
    }

    /// Like `get_package_names_by_path` but skips tsconfig exclude filtering.
    ///
    /// Use for **direct changes**: a file that was modified in the diff always
    /// belongs to its project regardless of whether tsconfig compiles it (spec
    /// files, stories, config files all count). The filtered variant should
    /// only be used for reference traversal where cascade through excluded
    /// files is undesirable.
    pub fn get_owning_packages_by_path(&self, file_path: &str) -> (r: Vec<String>)
        ensures
            texts(r@) == self@.owners(file_path@, true),
    {
        self.resolve_packages(file_path, true)
    }

    /// Whether a project's tsconfig leaves a file out.
    fn leaves_out(&self, name: &str, file_path: &str) -> (r: bool)
        ensures
            r == self@.excludes_file(name@, file_path@),
    {
        match number_of(&self.exclude_numbers, name) {
            Some(number) => if number < self.excludes.len() {
                match &self.excludes[number] {
                    Some(files) => files.is_excluded(file_path),
                    None => false,
                }
            } else {
                false
            },
            None => false,
        }
    }

    /// The projects that own a file.
    fn resolve_packages(&self, file_path: &str, skip_excludes: bool) -> (r: Vec<String>)
        ensures
            texts(r@) == self@.owners(file_path@, skip_excludes),
    {
        let path: Vec<String> = components_of(file_path);
        let found: Vec<String> = names_on_path(&self.entries, &path);
        let by_root: Vec<String> = names_on_path(&self.root_entries, &path);
        let ghost mine = texts(found@);
        let ghost others = texts(by_root@);
        let mut r: Vec<String> = Vec::new();
        let mut seen: FxHashSet<String> = no_names();
        let mut i: usize = 0;
        proof {
            assert(texts(r@) =~= Seq::<Seq<char>>::empty());
            assert(mine.take(0).to_set() =~= Set::<Seq<char>>::empty());
        }
        while i < found.len()
            invariant
                mine == texts(found@),
                i <= found@.len(),
                texts(r@) == self@.kept(mine.take(i as int), file_path@, skip_excludes),
                names_in(&seen) == mine.take(i as int).to_set(),
            decreases found@.len() - i,
        {
            let ghost before = r@;
            proof {
                assert(mine.take(i + 1).drop_last() =~= mine.take(i as int));
                assert(mine.take(i + 1).last() == found@[i as int]@);
                assert(mine.take(i + 1) =~= mine.take(i as int).push(found@[i as int]@));
                lemma_set_push(mine.take(i as int), found@[i as int]@);
            }
            insert_name(&mut seen, found[i].clone());
            if skip_excludes || !self.leaves_out(found[i].as_str(), file_path) {
                r.push(found[i].clone());
                proof {
                    assert(texts(r@) =~= texts(before).push(found@[i as int]@));
                }
            }
            i = i + 1;
        }
        proof {
            assert(mine.take(mine.len() as int) =~= mine);
        }
        let ghost kept = texts(r@);
        let mut j: usize = 0;
        proof {
            assert(kept + without(others.take(0), mine.to_set()) =~= kept);
        }
        while j < by_root.len()
            invariant
                others == texts(by_root@),
                j <= by_root@.len(),
                names_in(&seen) == mine.to_set(),
                texts(r@) == kept + without(others.take(j as int), mine.to_set()),
            decreases by_root@.len() - j,
        {
            let ghost before = r@;
            proof {
                assert(others.take(j + 1).drop_last() =~= others.take(j as int));
                assert(others.take(j + 1).last() == by_root@[j as int]@);
            }
            if !contains_name(&seen, by_root[j].as_str()) {
                r.push(by_root[j].clone());
                proof {
                    assert(texts(r@) =~= texts(before).push(by_root@[j as int]@));
                    assert(texts(r@) =~= kept + without(others.take(j + 1), mine.to_set()));
                }
            }
            j = j + 1;
        }
        proof {
            assert(others.take(others.len() as int) =~= others);
        }
        r
    }
}

/// One more item makes the set of items one larger.
pub proof fn lemma_set_push(items: Seq<Seq<char>>, item: Seq<char>)
    ensures
        items.push(item).to_set() == items.to_set().insert(item),
{
    let longer = items.push(item);
    assert forall|x: Seq<char>| longer.to_set().contains(x) == items.to_set().insert(
        item,
    ).contains(x) by {
        if items.contains(x) {
            let k = choose|k: int| 0 <= k < items.len() && items[k] == x;
            assert(longer[k] == x);
        }
        if longer.contains(x) {
            let k = choose|k: int| 0 <= k < longer.len() && longer[k] == x;
            if k < items.len() {
                assert(items[k] == x);
            }
        }
        assert(longer[items.len() as int] == item);
    }
    assert(longer.to_set() =~= items.to_set().insert(item));
}

/// Whether a path's components begin with those of a root.
fn is_root_of(root: &Vec<String>, path: &Vec<String>) -> (r: bool)
    ensures
        r == texts(root@).is_prefix_of(texts(path@)),
{
    let ghost a = texts(root@);
    let ghost b = texts(path@);
    if root.len() > path.len() {
        return false;
    }
    let mut i: usize = 0;
    while i < root.len()
        invariant
            a == texts(root@),
            b == texts(path@),
            root@.len() <= path@.len(),
            i <= root@.len(),
            forall|k: int| 0 <= k < i ==> a[k] == b[k],
        decreases root@.len() - i,
    {
        if !same(root[i].as_str(), path[i].as_str()) {
            proof {
                assert(b.subrange(0, a.len() as int)[i as int] == b[i as int]);
                assert(a[i as int] == root@[i as int]@);
            }
            return false;
        }
        i = i + 1;
    }
    proof {
        assert(a =~= b.subrange(0, a.len() as int));
    }
    true
}

/// The names of the groups whose root a path is below.
fn names_on_path(groups: &Vec<Group>, path: &Vec<String>) -> (r: Vec<String>)
    ensures
        texts(r@) == names_above(group_views(groups@), texts(path@)),
{
    let ghost views = group_views(groups@);
    let ghost wanted = texts(path@);
    let mut r: Vec<String> = Vec::new();
    let mut i: usize = 0;
    proof {
        assert(texts(r@) =~= names_above(views.take(0), wanted));
    }
    while i < groups.len()
        invariant
            views == group_views(groups@),
            wanted == texts(path@),
            i <= groups@.len(),
            texts(r@) == names_above(views.take(i as int), wanted),
        decreases groups@.len() - i,
    {
        let ghost before = texts(r@);
        let ghost group = groups@[i as int];
        proof {
            assert(views.take(i + 1).drop_last() =~= views.take(i as int));
            assert(views.take(i + 1).last() == group@);
        }
        if is_root_of(&groups[i].root, path) {
            let mut j: usize = 0;
            proof {
                assert(before + texts(group.names@).take(0) =~= before);
            }
            while j < groups[i].names.len()
                invariant
                    i < groups@.len(),
                    group == groups@[i as int],
                    j <= group.names@.len(),
                    texts(r@) == before + texts(group.names@).take(j as int),
                decreases group.names@.len() - j,
            {
                let ghost current = r@;
                r.push(groups[i].names[j].clone());
                proof {
                    assert(texts(r@) =~= texts(current).push(group.names@[j as int]@));
                    assert(texts(r@) =~= before + texts(group.names@).take(j + 1));
                }
                j = j + 1;
            }
            proof {
                assert(texts(group.names@).take(group.names@.len() as int) =~= texts(group.names@));
            }
        }
        i = i + 1;
    }
    proof {
        assert(views.take(views.len() as int) =~= views);
    }
    r
}

/// Whether a group of the given root holds a name.
pub open spec fn in_group(group: GroupView, root: Seq<Seq<char>>, name: Seq<char>) -> bool {
    group.root == root && group.names.contains(name)
}

/// Whether one of the groups is of the given root and holds a name.
pub open spec fn is_listed(groups: Seq<GroupView>, root: Seq<Seq<char>>, name: Seq<char>) -> bool {
    exists|g: int| 0 <= g < groups.len() && in_group(#[trigger] groups[g], root, name)
}

/// A name more lists that name under its root, and nothing else.
proof fn lemma_with_name_listed(
    groups: Seq<GroupView>,
    root: Seq<Seq<char>>,
    name: Seq<char>,
    r: Seq<Seq<char>>,
    n: Seq<char>,
)
    ensures
        is_listed(with_name(groups, root, name), r, n) == (is_listed(groups, r, n) || (r == root && n
            == name)),
    decreases groups.len(),
{
    let after = with_name(groups, root, name);
    if groups.len() == 0 {
        assert(after[0].names =~= seq![name]);
        assert(seq![name][0] == name);
        if r == root && n == name {
            assert(in_group(after[0], r, n));
        }
    } else if groups[0].root == root {
        let names = groups[0].names;
        assert(after[0].names == names.push(name));
        assert forall|g: int| 1 <= g < groups.len() implies after[g] == groups[g] by {}
        if is_listed(groups, r, n) {
            let g = choose|g: int| 0 <= g < groups.len() && in_group(#[trigger] groups[g], r, n);
            if g == 0 {
                let k = choose|k: int| 0 <= k < names.len() && names[k] == n;
                assert(names.push(name)[k] == n);
                assert(in_group(after[0], r, n));
            } else {
                assert(in_group(after[g], r, n));
            }
        }
        if r == root && n == name {
            assert(names.push(name)[names.len() as int] == name);
            assert(in_group(after[0], r, n));
        }
        if is_listed(after, r, n) {
            let g = choose|g: int| 0 <= g < after.len() && in_group(#[trigger] after[g], r, n);
            if g == 0 {
                let k = choose|k: int| 0 <= k < after[0].names.len() && after[0].names[k] == n;
                if k < names.len() {
                    assert(names[k] == n);
                    assert(in_group(groups[0], r, n));
                }
            } else {
                assert(in_group(groups[g], r, n));
            }
        }
    } else {
        let rest = groups.skip(1);
        lemma_with_name_listed(rest, root, name, r, n);
        let tail = with_name(rest, root, name);
        assert(after =~= seq![groups[0]] + tail);
        if is_listed(groups, r, n) {
            let g = choose|g: int| 0 <= g < groups.len() && in_group(#[trigger] groups[g], r, n);
            if g == 0 {
                assert(in_group(after[0], r, n));
            } else {
                assert(in_group(rest[g - 1], r, n));
            }
        }
        if is_listed(tail, r, n) {
            let g = choose|g: int| 0 <= g < tail.len() && in_group(#[trigger] tail[g], r, n);
            assert(in_group(after[g + 1], r, n));
        }
        if is_listed(after, r, n) {
            let g = choose|g: int| 0 <= g < after.len() && in_group(#[trigger] after[g], r, n);
            if g == 0 {
                assert(in_group(groups[0], r, n));
            } else {
                assert(in_group(tail[g - 1], r, n));
            }
        }
        if is_listed(rest, r, n) {
            let g = choose|g: int| 0 <= g < rest.len() && in_group(#[trigger] rest[g], r, n);
            assert(in_group(groups[g + 1], r, n));
        }
    }
}

/// Whether a project of the given name has a source root.
pub open spec fn has_source_root(
    project: Project,
    cwd: Seq<char>,
    root: Seq<Seq<char>>,
    name: Seq<char>,
) -> bool {
    project.name@ == name && root_components(project.source_root@, cwd) == root
}

/// Whether a project of the given name is also found by a root.
pub open spec fn has_other_root(
    project: Project,
    cwd: Seq<char>,
    root: Seq<Seq<char>>,
    name: Seq<char>,
) -> bool {
    project.name@ == name && has_own_root(project, cwd) && root_components(project.root@, cwd)
        == root
}

/// A source root is listed with a name exactly where a project has both.
proof fn lemma_source_listed(
    projects: Seq<Project>,
    cwd: Seq<char>,
    root: Seq<Seq<char>>,
    name: Seq<char>,
)
    ensures
        is_listed(source_groups(projects, cwd), root, name) == exists|i: int|
            0 <= i < projects.len() && has_source_root(#[trigger] projects[i], cwd, root, name),
    decreases projects.len(),
{
    if projects.len() > 0 {
        let before = projects.drop_last();
        let last = projects.last();
        lemma_source_listed(before, cwd, root, name);
        lemma_with_name_listed(
            source_groups(before, cwd),
            root_components(last.source_root@, cwd),
            last.name@,
            root,
            name,
        );
        assert(projects[projects.len() - 1] == last);
        assert forall|i: int| 0 <= i < before.len() implies before[i] == projects[i] by {}
        if exists|i: int|
            0 <= i < before.len() && has_source_root(#[trigger] before[i], cwd, root, name) {
            let i = choose|i: int|
                0 <= i < before.len() && has_source_root(#[trigger] before[i], cwd, root, name);
            assert(has_source_root(projects[i], cwd, root, name));
        }
    }
}

/// A root is listed with a name exactly where a project is found by it.
proof fn lemma_root_listed(
    projects: Seq<Project>,
    cwd: Seq<char>,
    root: Seq<Seq<char>>,
    name: Seq<char>,
)
    ensures
        is_listed(root_groups(projects, cwd), root, name) == exists|i: int|
            0 <= i < projects.len() && has_other_root(#[trigger] projects[i], cwd, root, name),
    decreases projects.len(),
{
    if projects.len() > 0 {
        let before = projects.drop_last();
        let last = projects.last();
        lemma_root_listed(before, cwd, root, name);
        lemma_with_name_listed(
            root_groups(before, cwd),
            root_components(last.root@, cwd),
            last.name@,
            root,
            name,
        );
        assert(projects[projects.len() - 1] == last);
        assert forall|i: int| 0 <= i < before.len() implies before[i] == projects[i] by {}
        if exists|i: int|
            0 <= i < before.len() && has_other_root(#[trigger] before[i], cwd, root, name) {
            let i = choose|i: int|
                0 <= i < before.len() && has_other_root(#[trigger] before[i], cwd, root, name);
            assert(has_other_root(projects[i], cwd, root, name));
        }
    }
}

/// A name stands above a path exactly where it is listed under a root that the
/// path is below.
proof fn lemma_names_above(groups: Seq<GroupView>, path: Seq<Seq<char>>, name: Seq<char>)
    ensures
        names_above(groups, path).contains(name) == exists|g: int|
            0 <= g < groups.len() && (#[trigger] groups[g]).root.is_prefix_of(path)
                && groups[g].names.contains(name),
    decreases groups.len(),
{
    if groups.len() > 0 {
        let shorter = groups.drop_last();
        lemma_names_above(shorter, path, name);
        let before = names_above(shorter, path);
        let all = names_above(groups, path);
        let last = groups.last();
        assert(groups[groups.len() - 1] == last);
        assert forall|g: int| 0 <= g < shorter.len() implies shorter[g] == groups[g] by {}
        if before.contains(name) {
            let g = choose|g: int|
                0 <= g < shorter.len() && (#[trigger] shorter[g]).root.is_prefix_of(path)
                    && shorter[g].names.contains(name);
            assert(groups[g].root.is_prefix_of(path));
            let k = choose|k: int| 0 <= k < before.len() && before[k] == name;
            assert(all[k] == name);
        }
        if last.root.is_prefix_of(path) && last.names.contains(name) {
            let k = choose|k: int| 0 <= k < last.names.len() && last.names[k] == name;
            assert(all[before.len() + k] == name);
        }
        if all.contains(name) {
            let k = choose|k: int| 0 <= k < all.len() && all[k] == name;
            if k < before.len() {
                assert(before[k] == name);
            } else {
                assert(last.names[k - before.len()] == name);
            }
        }
    }
}

/// What is kept of names is among them, and all of them where excludes do not
/// count.
proof fn lemma_kept(index: IndexView, names: Seq<Seq<char>>, path: Seq<char>, skip: bool)
    ensures
        skip ==> index.kept(names, path, skip) == names,
        forall|name: Seq<char>| #[trigger]
            index.kept(names, path, skip).contains(name) == (names.contains(name) && (skip
                || !index.excludes_file(name, path))),
    decreases names.len(),
{
    if names.len() > 0 {
        let shorter = names.drop_last();
        let last = names.last();
        lemma_kept(index, shorter, path, skip);
        assert(names =~= shorter.push(last));
        let before = index.kept(shorter, path, skip);
        let all = index.kept(names, path, skip);
        assert forall|name: Seq<char>| #[trigger] all.contains(name) == (names.contains(name) && (
        skip || !index.excludes_file(name, path))) by {
            lemma_set_push(shorter, last);
            lemma_set_push(before, last);
            assert(names.contains(name) == names.to_set().contains(name));
            assert(all.contains(name) == all.to_set().contains(name));
            assert(before.contains(name) == before.to_set().contains(name));
            assert(shorter.contains(name) == shorter.to_set().contains(name));
        }
    }
}

/// What is left of names without a set: those that are not in it.
proof fn lemma_without(names: Seq<Seq<char>>, taken: Set<Seq<char>>)
    ensures
        forall|name: Seq<char>| #[trigger]
            without(names, taken).contains(name) == (names.contains(name) && !taken.contains(name)),
    decreases names.len(),
{
    if names.len() > 0 {
        let shorter = names.drop_last();
        let last = names.last();
        lemma_without(shorter, taken);
        assert(names =~= shorter.push(last));
        let before = without(shorter, taken);
        let all = without(names, taken);
        assert forall|name: Seq<char>| #[trigger] all.contains(name) == (names.contains(name)
            && !taken.contains(name)) by {
            lemma_set_push(shorter, last);
            lemma_set_push(before, last);
            assert(names.contains(name) == names.to_set().contains(name));
            assert(all.contains(name) == all.to_set().contains(name));
            assert(before.contains(name) == before.to_set().contains(name));
            assert(shorter.contains(name) == shorter.to_set().contains(name));
        }
    }
}

/// The index of a list of projects.
pub open spec fn index_of(
    projects: Seq<Project>,
    cwd: Seq<char>,
    excludes: Seq<Option<TsconfigExcludes>>,
) -> IndexView {
    IndexView {
        entries: source_groups(projects, cwd),
        root_entries: root_groups(projects, cwd),
        excludes: project_excludes(projects, excludes),
    }
}

/// Whether a file lies below a project's source root.
pub open spec fn below_source_root(project: Project, cwd: Seq<char>, path: Seq<char>) -> bool {
    root_components(project.source_root@, cwd).is_prefix_of(components(path))
}

/// Whether a file lies below a project's root, where the project is also found
/// by its root.
pub open spec fn below_own_root(project: Project, cwd: Seq<char>, path: Seq<char>) -> bool {
    has_own_root(project, cwd) && root_components(project.root@, cwd).is_prefix_of(components(path))
}

/// Whether a project of the given name has a file below its source root.
pub open spec fn sources_hold(
    projects: Seq<Project>,
    cwd: Seq<char>,
    path: Seq<char>,
    name: Seq<char>,
) -> bool {
    exists|i: int|
        0 <= i < projects.len() && (#[trigger] projects[i]).name@ == name && below_source_root(
            projects[i],
            cwd,
            path,
        )
}

/// Whether a project of the given name has a file below a root that is not its
/// source root.
pub open spec fn roots_hold(
    projects: Seq<Project>,
    cwd: Seq<char>,
    path: Seq<char>,
    name: Seq<char>,
) -> bool {
    exists|i: int|
        0 <= i < projects.len() && (#[trigger] projects[i]).name@ == name && below_own_root(
            projects[i],
            cwd,
            path,
        )
}

/// A project owns a changed file exactly where the file lies below its source
/// root or below its own root. A reference in the file counts for it unless its
/// tsconfig leaves the file out; the tsconfig has no say in files that lie only
/// below the root.
pub proof fn law_ownership(
    projects: Seq<Project>,
    cwd: Seq<char>,
    excludes: Seq<Option<TsconfigExcludes>>,
    path: Seq<char>,
    name: Seq<char>,
)
    requires
        excludes.len() == projects.len(),
    ensures
        index_of(projects, cwd, excludes).owners(path, true).contains(name) == (sources_hold(
            projects,
            cwd,
            path,
            name,
        ) || roots_hold(projects, cwd, path, name)),
        index_of(projects, cwd, excludes).owners(path, false).contains(name) == (if sources_hold(
            projects,
            cwd,
            path,
            name,
        ) {
            !index_of(projects, cwd, excludes).excludes_file(name, path)
        } else {
            roots_hold(projects, cwd, path, name)
        }),
{
    let index = index_of(projects, cwd, excludes);
    let list = components(path);
    let found = names_above(index.entries, list);
    let others = names_above(index.root_entries, list);
    lemma_names_above(index.entries, list, name);
    lemma_names_above(index.root_entries, list, name);
    assert(found.contains(name) == sources_hold(projects, cwd, path, name)) by {
        if found.contains(name) {
            let g = choose|g: int|
                0 <= g < index.entries.len() && (#[trigger] index.entries[g]).root.is_prefix_of(list)
                    && index.entries[g].names.contains(name);
            assert(in_group(index.entries[g], index.entries[g].root, name));
            lemma_source_listed(projects, cwd, index.entries[g].root, name);
            let i = choose|i: int|
                0 <= i < projects.len() && has_source_root(
                    #[trigger] projects[i],
                    cwd,
                    index.entries[g].root,
                    name,
                );
            assert(below_source_root(projects[i], cwd, path));
        }
        if sources_hold(projects, cwd, path, name) {
            let i = choose|i: int|
                0 <= i < projects.len() && (#[trigger] projects[i]).name@ == name
                    && below_source_root(projects[i], cwd, path);
            let root = root_components(projects[i].source_root@, cwd);
            assert(has_source_root(projects[i], cwd, root, name));
            lemma_source_listed(projects, cwd, root, name);
            let g = choose|g: int|
                0 <= g < index.entries.len() && in_group(#[trigger] index.entries[g], root, name);
            assert(index.entries[g].root.is_prefix_of(list));
        }
    }
    assert(others.contains(name) == roots_hold(projects, cwd, path, name)) by {
        if others.contains(name) {
            let g = choose|g: int|
                0 <= g < index.root_entries.len() && (
                #[trigger] index.root_entries[g]).root.is_prefix_of(list)
                    && index.root_entries[g].names.contains(name);
            assert(in_group(index.root_entries[g], index.root_entries[g].root, name));
            lemma_root_listed(projects, cwd, index.root_entries[g].root, name);
            let i = choose|i: int|
                0 <= i < projects.len() && has_other_root(
                    #[trigger] projects[i],
                    cwd,
                    index.root_entries[g].root,
                    name,
                );
            assert(below_own_root(projects[i], cwd, path));
        }
        if roots_hold(projects, cwd, path, name) {
            let i = choose|i: int|
                0 <= i < projects.len() && (#[trigger] projects[i]).name@ == name
                    && below_own_root(projects[i], cwd, path);
            let root = root_components(projects[i].root@, cwd);
            assert(has_other_root(projects[i], cwd, root, name));
            lemma_root_listed(projects, cwd, root, name);
            let g = choose|g: int|
                0 <= g < index.root_entries.len() && in_group(
                    #[trigger] index.root_entries[g],
                    root,
                    name,
                );
            assert(index.root_entries[g].root.is_prefix_of(list));
        }
    }
    assert forall|skip: bool| #[trigger]
        index.owners(path, skip).contains(name) == ((found.contains(name) && (skip
            || !index.excludes_file(name, path))) || (others.contains(name) && !found.contains(
            name,
        ))) by {
        lemma_kept(index, found, path, skip);
        lemma_without(others, found.to_set());
        let a = index.kept(found, path, skip);
        let b = without(others, found.to_set());
        assert(found.to_set().contains(name) == found.contains(name));
        assert(index.owners(path, skip) == a + b);
        if a.contains(name) {
            let k = choose|k: int| 0 <= k < a.len() && a[k] == name;
            assert((a + b)[k] == name);
        }
        if b.contains(name) {
            let k = choose|k: int| 0 <= k < b.len() && b[k] == name;
            assert((a + b)[a.len() + k] == name);
        }
        if (a + b).contains(name) {
            let k = choose|k: int| 0 <= k < (a + b).len() && (a + b)[k] == name;
            if k < a.len() {
                assert(a[k] == name);
            } else {
                assert(b[k - a.len()] == name);
            }
        }
    }
    assert(index.owners(path, true).contains(name) == (found.contains(name) || others.contains(
        name,
    )));
}

/// Leaving out names of a list that goes on in another.
proof fn lemma_without_joined(a: Seq<Seq<char>>, b: Seq<Seq<char>>, taken: Set<Seq<char>>)
    ensures
        without(a + b, taken) == without(a, taken) + without(b, taken),
    decreases b.len(),
{
    if b.len() == 0 {
        assert(a + b =~= a);
        assert(without(a, taken) + without(b, taken) =~= without(a, taken));
    } else {
        lemma_without_joined(a, b.drop_last(), taken);
        assert((a + b).drop_last() =~= a + b.drop_last());
        assert(without(a + b, taken) =~= without(a, taken) + without(b, taken));
    }
}

/// Leaving out names that were left out already changes nothing.
proof fn lemma_without_again(names: Seq<Seq<char>>, first: Set<Seq<char>>, again: Set<Seq<char>>)
    requires
        again.subset_of(first),
    ensures
        without(without(names, first), again) == without(names, first),
    decreases names.len(),
{
    if names.len() > 0 {
        lemma_without_again(names.drop_last(), first, again);
        let before = without(names.drop_last(), first);
        if !first.contains(names.last()) {
            assert(before.push(names.last()).drop_last() =~= before);
        }
    }
}

impl IndexView {
    /// The projects that a file would count for by their source root, and whose
    /// tsconfig leaves it out.
    pub open spec fn left_out(self, path: Seq<char>) -> Set<Seq<char>> {
        Set::new(
            |name: Seq<char>|
                names_above(self.entries, components(path)).contains(name) && self.excludes_file(
                    name,
                    path,
                ),
        )
    }

    /// What a tsconfig keeps of some of the projects found by their source root.
    proof fn lemma_kept_is_without(self, path: Seq<char>, names: Seq<Seq<char>>)
        requires
            forall|name: Seq<char>| #[trigger]
                names.contains(name) ==> names_above(self.entries, components(path)).contains(name),
        ensures
            self.kept(names, path, true) == names,
            self.kept(names, path, false) == without(names, self.left_out(path)),
        decreases names.len(),
    {
        if names.len() > 0 {
            let shorter = names.drop_last();
            assert forall|name: Seq<char>| #[trigger] shorter.contains(name) implies names_above(
                self.entries,
                components(path),
            ).contains(name) by {
                let k = choose|k: int| 0 <= k < shorter.len() && shorter[k] == name;
                assert(names[k] == name);
                assert(names.contains(name));
            }
            self.lemma_kept_is_without(path, shorter);
            assert(names.contains(names[names.len() - 1]));
            assert(names =~= shorter.push(names.last()));
        }
    }

    /// A file counts, by the references in it, for the projects that own it, in
    /// their order, but for exactly those whose tsconfig leaves it out.
    pub proof fn law_references_count_for_owners(self, path: Seq<char>)
        ensures
            self.owners(path, false) == without(self.owners(path, true), self.left_out(path)),
    {
        let found = names_above(self.entries, components(path));
        let others = without(names_above(self.root_entries, components(path)), found.to_set());
        self.lemma_kept_is_without(path, found);
        lemma_without_joined(found, others, self.left_out(path));
        assert(self.left_out(path).subset_of(found.to_set()));
        lemma_without_again(
            names_above(self.root_entries, components(path)),
            found.to_set(),
            self.left_out(path),
        );
    }
}

} // verus!
