use vstd::prelude::*;
use crate::filetype::{no_rules, FileType};
use crate::highlighting::{line_carry, line_classes};
use crate::position::{Position, SearchDirection};
use vstd::string::*;
use crate::row::{
    width_before, lemma_index_at_column_unique,
    chars_of, column_of, encode_chars, first_match_from, index_at_column, line_find, matches_at, Row,
};
use vstd::utf8::{decode_utf8, encode_utf8, encode_utf8_decode_utf8};

verus! {

/// Edits closer together than this many milliseconds form one undo step.
pub const BATCH_MILLIS: u64 = 1000;

/// std's `Instant`, held opaque: the origin of a document's edit clock.
#[verifier::external_type_specification]
#[verifier::external_body]
pub struct ExInstant(std::time::Instant);

/// Relies on std::time::Instant::now: a reading of the monotonic clock,
/// kept as the origin of the edit timestamps.
#[verifier::external_body]
fn clock_start() -> (r: std::time::Instant) {
    std::time::Instant::now()
}

/// Relies on std::time::Instant::elapsed: the milliseconds since `start`.
#[verifier::external_body]
fn millis_since(start: &std::time::Instant) -> (r: u64) {
    start.elapsed().as_millis() as u64
}

/// The characters of each line.
pub open spec fn rows_view(v: Seq<Row>) -> Seq<Seq<char>> {
    v.map_values(|r: Row| r@)
}

/// A snapshot kept by the history: the lines and a cursor position.
pub struct EditorState {
    rows: Vec<Row>,
    cursor_position: Position,
}

impl EditorState {
    pub closed spec fn lines(&self) -> Seq<Seq<char>> {
        rows_view(self.rows@)
    }

    pub closed spec fn cursor(&self) -> Position {
        self.cursor_position
    }
}

/// A deep copy of a sequence of lines.
fn copy_rows(v: &Vec<Row>) -> (r: Vec<Row>)
    ensures
        r@.len() == v@.len(),
        forall|i: int|
            0 <= i < v@.len() ==> (#[trigger] r@[i])@ == v@[i]@ && r@[i].classes()
                == v@[i].classes() && r@[i].highlighted() == v@[i].highlighted(),
        rows_view(r@) == rows_view(v@),
{
    let mut out: Vec<Row> = Vec::new();
    let mut i: usize = 0;
    while i < v.len()
        invariant
            i <= v@.len(),
            out@.len() == i,
            forall|j: int|
                0 <= j < i ==> (#[trigger] out@[j])@ == v@[j]@ && out@[j].classes()
                    == v@[j].classes() && out@[j].highlighted() == v@[j].highlighted(),
        decreases v@.len() - i,
    {
        out.push(v[i].duplicate());
        i += 1;
    }
    assert(rows_view(out@) =~= rows_view(v@));
    out
}

/// Whether an edit at time `now` opens a new history entry: there is no
/// earlier edit, or more than the window has passed since the one that
/// opened the current entry.
pub open spec fn opens_entry(last: Option<u64>, now: u64) -> bool {
    match last {
        None => true,
        Some(t) => now > t && now - t > BATCH_MILLIS,
    }
}

/// The history, its index and its timestamp after an edit at time `now`
/// that left the lines and cursor `snap`: a new entry after the current one
/// (dropping any redo branch), or, within the window, the current entry
/// overwritten.
pub open spec fn recorded(
    h: Seq<(Seq<Seq<char>>, Position)>,
    idx: int,
    last: Option<u64>,
    snap: (Seq<Seq<char>>, Position),
    now: u64,
) -> (Seq<(Seq<Seq<char>>, Position)>, int, Option<u64>) {
    if opens_entry(last, now) {
        (h.subrange(0, idx + 1).push(snap), idx + 1, Some(now))
    } else {
        (h.update(idx, snap), idx, last)
    }
}

/// The lines after inserting `c` at `at`: a newline splits the line at the
/// cursor (or adds an empty line at the end); another character goes into
/// the line, or into a new last line when `at.y` is the line count. A line
/// index past that changes nothing.
pub open spec fn inserted(ls: Seq<Seq<char>>, at: Position, c: char) -> Seq<Seq<char>> {
    let y = at.y as int;
    if y > ls.len() {
        ls
    } else if c == '\n' {
        if y == ls.len() {
            ls.push(seq![])
        } else {
            let k = index_at_column(ls[y], at.x as int) as int;
            ls.update(y, ls[y].subrange(0, k)).insert(y + 1, ls[y].subrange(k, ls[y].len() as int))
        }
    } else if y == ls.len() {
        ls.push(seq![c])
    } else {
        ls.update(y, ls[y].insert(index_at_column(ls[y], at.x as int) as int, c))
    }
}

/// The lines after a delete at `at`: at the end of a line that has a
/// successor the two lines are joined; otherwise the character under the
/// cursor goes. A line index past the end changes nothing.
pub open spec fn deleted(ls: Seq<Seq<char>>, at: Position) -> Seq<Seq<char>> {
    let y = at.y as int;
    if y >= ls.len() {
        ls
    } else {
        let k = index_at_column(ls[y], at.x as int) as int;
        if k == ls[y].len() && y + 1 < ls.len() {
            ls.update(y, ls[y] + ls[y + 1]).remove(y + 1)
        } else if k < ls[y].len() {
            ls.update(y, ls[y].remove(k))
        } else {
            ls
        }
    }
}

/// Forward search from line `y`, character `k`: the first line at or
/// after `y` with a match, from `k` on that line and from its start on later
/// lines. Gives the line and the character index.
pub open spec fn find_forward(ls: Seq<Seq<char>>, q: Seq<char>, y: int, k: int) -> Option<
    (int, int),
>
    decreases ls.len() - y,
{
    if y < 0 || y >= ls.len() {
        None
    } else {
        match line_find(ls[y], q, k, SearchDirection::Forward) {
            Some(i) => Some((y, i as int)),
            None => find_forward(ls, q, y + 1, 0),
        }
    }
}

/// Backward search from line `y`, character `k`: line `y` up to `k`, then
/// each earlier line from its end, down to the first line.
pub open spec fn find_backward(ls: Seq<Seq<char>>, q: Seq<char>, y: int, k: int) -> Option<
    (int, int),
>
    decreases y,
{
    if y < 0 || y >= ls.len() {
        None
    } else {
        match line_find(ls[y], q, k, SearchDirection::Backward) {
            Some(i) => Some((y, i as int)),
            None => if y == 0 {
                None
            } else {
                find_backward(ls, q, y - 1, ls[y - 1].len() as int)
            },
        }
    }
}

/// Where a search for `q` from `at` lands, as a line and a display column;
/// the search does not wrap past either end of the document.
pub open spec fn search(ls: Seq<Seq<char>>, q: Seq<char>, at: Position, dir: SearchDirection) -> Option<
    Position,
> {
    let y = at.y as int;
    if y >= ls.len() {
        None
    } else {
        let k = index_at_column(ls[y], at.x as int) as int;
        let found = if dir == SearchDirection::Forward {
            find_forward(ls, q, y, k)
        } else {
            find_backward(ls, q, y, k)
        };
        match found {
            Some((fy, i)) => Some(Position { x: column_of(ls[fy], i), y: fy as usize }),
            None => None,
        }
    }
}

/// Whether line `k` starts inside a block comment, given the lines before.
pub open spec fn carry_into(o: crate::filetype::HighlightingOptions, ls: Seq<Seq<char>>, k: int) -> bool
    decreases k,
{
    if k <= 0 {
        false
    } else {
        line_carry(o, ls[k - 1], carry_into(o, ls, k - 1))
    }
}

/// The number of lines that `highlight` brings up to date.
pub open spec fn highlight_bound(len: int, until: Option<usize>) -> int {
    match until {
        Some(u) => if u + 1 < len {
            u + 1
        } else {
            len
        },
        None => len,
    }
}

pub open spec fn string_view(w: Option<String>) -> Option<Seq<char>> {
    match w {
        Some(s) => Some(s@),
        None => None,
    }
}

/// Drops one carriage return at the end of a line.
pub open spec fn strip_cr(l: Seq<char>) -> Seq<char> {
    if l.len() > 0 && l.last() == '\r' {
        l.drop_last()
    } else {
        l
    }
}

/// The lines of `t[start..]`, scanning from `i`: each newline (with a
/// carriage return before it) ends a line; text after the last newline is
/// a last line; nothing after it adds no empty line.
pub open spec fn lines_from(t: Seq<char>, start: int, i: int) -> Seq<Seq<char>>
    decreases t.len() - i,
{
    if i < 0 || i >= t.len() {
        if 0 <= start < t.len() {
            seq![t.subrange(start, t.len() as int)]
        } else {
            seq![]
        }
    } else if t[i] == '\n' {
        seq![strip_cr(t.subrange(start, i))] + lines_from(t, i + 1, i + 1)
    } else {
        lines_from(t, start, i + 1)
    }
}

/// The lines of a stored text.
pub open spec fn split_lines(t: Seq<char>) -> Seq<Seq<char>> {
    lines_from(t, 0, 0)
}

/// The stored text of some lines: each followed by a newline.
pub open spec fn joined(ls: Seq<Seq<char>>) -> Seq<char>
    decreases ls.len(),
{
    if ls.len() == 0 {
        seq![]
    } else {
        ls[0].push('\n') + joined(ls.drop_first())
    }
}

/// The characters `t[a..b]`.
fn chars_between(t: &Vec<char>, a: usize, b: usize) -> (r: Vec<char>)
    requires
        a <= b <= t@.len(),
    ensures
        r@ == t@.subrange(a as int, b as int),
{
    let mut out: Vec<char> = Vec::new();
    let mut i: usize = a;
    while i < b
        invariant
            a <= i <= b <= t@.len(),
            out@ == t@.subrange(a as int, i as int),
        decreases b - i,
    {
        out.push(t[i]);
        i += 1;
        assert(out@ =~= t@.subrange(a as int, i as int));
    }
    out
}

/// The text of a concatenation of lines is the concatenation of texts.
pub proof fn lemma_joined_concat(a: Seq<Seq<char>>, b: Seq<Seq<char>>)
    ensures
        joined(a + b) == joined(a) + joined(b),
    decreases a.len(),
{
    if a.len() == 0 {
        assert(a + b =~= b);
        assert(joined(a) + joined(b) =~= joined(b));
    } else {
        assert((a + b).drop_first() =~= a.drop_first() + b);
        lemma_joined_concat(a.drop_first(), b);
        assert(joined(a + b) =~= joined(a) + joined(b));
    }
}

/// The text of one line is the line and a newline.
pub proof fn lemma_joined_one(l: Seq<char>)
    ensures
        joined(seq![l]) == l.push('\n'),
{
    assert(seq![l].drop_first() =~= Seq::<Seq<char>>::empty());
    assert(joined(Seq::<Seq<char>>::empty()) == Seq::<char>::empty());
    assert(joined(seq![l]) == seq![l][0].push('\n') + joined(seq![l].drop_first()));
    assert(l.push('\n') + Seq::<char>::empty() =~= l.push('\n'));
}

/// After an edit of line `y`: the lines before `y - 1` are as they were,
/// and from line `y - 1` on every line's classes are marked stale.
pub open spec fn stale_from(before: Seq<Row>, after: Seq<Row>, y: int) -> bool {
    &&& forall|k: int| 0 <= k && k + 1 < y && k < before.len() ==> #[trigger] after[k] == before[k]
    &&& forall|k: int| 0 <= k < after.len() && k + 1 >= y ==> !(#[trigger] after[k]).highlighted()
}

/// An open text: its lines, its file, whether it has unsaved changes, its
/// kind, and its undo history.
pub struct Document {
    rows: Vec<Row>,
    pub file_name: Option<String>,
    dirty: bool,
    file_type: FileType,
    history: Vec<EditorState>,
    history_index: usize,
    last_edit_time: Option<u64>,
    clock: std::time::Instant,
}

impl Document {
    pub closed spec fn rows(&self) -> Seq<Row> {
        self.rows@
    }

    /// The characters of each line.
    pub closed spec fn lines(&self) -> Seq<Seq<char>> {
        rows_view(self.rows@)
    }

    /// The file that the document is saved to, if any.
    pub closed spec fn file(&self) -> Option<String> {
        self.file_name
    }

    pub closed spec fn dirty(&self) -> bool {
        self.dirty
    }

    pub closed spec fn kind(&self) -> FileType {
        self.file_type
    }

    /// The snapshots, oldest first.
    pub closed spec fn history(&self) -> Seq<(Seq<Seq<char>>, Position)> {
        self.history@.map_values(|e: EditorState| (e.lines(), e.cursor()))
    }

    /// The snapshot that undo and redo move from.
    pub closed spec fn index(&self) -> int {
        self.history_index as int
    }

    /// When the current history entry was opened; none after undo or redo.
    pub closed spec fn last_edit(&self) -> Option<u64> {
        self.last_edit_time
    }

    /// The index points into the history, whose entry there holds the
    /// current lines; the first entry is only ever reached by undo, never
    /// overwritten by an edit.
    pub open spec fn wf(&self) -> bool {
        &&& 0 <= self.index() < self.history().len()
        &&& self.lines() == self.history()[self.index()].0
        &&& self.last_edit() is Some ==> self.index() > 0
    }

    /// An empty document with no file.
    pub fn default() -> (r: Document)
        ensures
            r.wf(),
            r.lines() == Seq::<Seq<char>>::empty(),
            r.file() is None,
            !r.dirty(),
            r.kind().name@ == "No filetype"@,
            no_rules(r.kind().options()),
            r.history() == seq![(Seq::<Seq<char>>::empty(), Position { x: 0, y: 0 })],
            r.index() == 0,
            r.last_edit() is None,
    {
        let r = Document {
            rows: Vec::new(),
            file_name: None,
            dirty: false,
            file_type: FileType::default(),
            history: vec![EditorState { rows: Vec::new(), cursor_position: Position::origin() }],
            history_index: 0,
            last_edit_time: None,
            clock: clock_start(),
        };
        assert(r.lines() =~= Seq::<Seq<char>>::empty());
        assert(r.history()[0].0 =~= Seq::<Seq<char>>::empty());
        assert(r.history() =~= seq![(Seq::<Seq<char>>::empty(), Position { x: 0, y: 0 })]);
        r
    }

    /// The display name of the document's kind.
    pub fn file_type(&self) -> (r: String)
        ensures
            r@ == self.kind().name@,
    {
        self.file_type.name()
    }

    /// The line at `index`, if there is one.
    pub fn row(&self, index: usize) -> (r: Option<&Row>)
        ensures
            index < self.lines().len() ==> r == Some(&self.rows()[index as int]),
            r matches Some(row) ==> row@ == self.lines()[index as int],
            index >= self.lines().len() ==> r is None,
    {
        if index < self.rows.len() {
            Some(&self.rows[index])
        } else {
            None
        }
    }

    pub fn is_empty(&self) -> (r: bool)
        ensures
            r == (self.lines().len() == 0),
    {
        self.rows.len() == 0
    }

    /// Number of lines.
    pub fn len(&self) -> (r: usize)
        ensures
            r == self.lines().len(),
    {
        self.rows.len()
    }

    /// The file that the document is saved to, if any.
    pub fn get_file_name(&self) -> (r: &Option<String>)
        ensures
            *r == self.file(),
    {
        &self.file_name
    }

    /// Sets the file that the document is saved to; nothing else changes.
    pub fn set_file_name(&mut self, name: String)
        ensures
            final(self).file() == Some(name),
            final(self).rows() == old(self).rows(),
            final(self).lines() == old(self).lines(),
            final(self).history() == old(self).history(),
            final(self).index() == old(self).index(),
            final(self).last_edit() == old(self).last_edit(),
            final(self).dirty() == old(self).dirty(),
            final(self).kind() == old(self).kind(),
    {
        self.file_name = Some(name);
    }

    /// Whether there are changes not yet saved.
    pub fn is_dirty(&self) -> (r: bool)
        ensures
            r == self.dirty(),
    {
        self.dirty
    }

    /// Decides whether an edit at `now` opens a new history entry, and
    /// stamps `now` when it does.
    fn should_create_new_state(&mut self, now: u64) -> (r: bool)
        ensures
            r == opens_entry(old(self).last_edit_time, now),
            final(self).last_edit_time == (if r {
                Some(now)
            } else {
                old(self).last_edit_time
            }),
            final(self).rows == old(self).rows,
            final(self).history == old(self).history,
            final(self).history_index == old(self).history_index,
            final(self).dirty == old(self).dirty,
            final(self).file_name == old(self).file_name,
            final(self).file_type == old(self).file_type,
    {
        match self.last_edit_time {
            Some(last) => {
                if now > last && now - last > BATCH_MILLIS {
                    self.last_edit_time = Some(now);
                    true
                } else {
                    false
                }
            },
            None => {
                self.last_edit_time = Some(now);
                true
            },
        }
    }

    /// Records the lines and `cursor` that an edit made at time `now` left.
    fn save_state(&mut self, cursor: &Position, now: u64)
        requires
            old(self).history_index < old(self).history@.len(),
            old(self).last_edit_time is Some ==> old(self).history_index > 0,
        ensures
            final(self).wf(),
            (final(self).history(), final(self).index(), final(self).last_edit()) == recorded(
                old(self).history(),
                old(self).index(),
                old(self).last_edit(),
                (old(self).lines(), *cursor),
                now,
            ),
            final(self).rows == old(self).rows,
            final(self).dirty == old(self).dirty,
            final(self).file_name == old(self).file_name,
            final(self).file_type == old(self).file_type,
    {
        let snapshot = EditorState { rows: copy_rows(&self.rows), cursor_position: *cursor };
        let ghost snap = (old(self).lines(), *cursor);
        assert((snapshot.lines(), snapshot.cursor()) == snap);
        let n = self.history.len();
        if self.should_create_new_state(now) {
            assert(self.history_index < n);
            self.history.truncate(self.history_index + 1);
            self.history.push(snapshot);
            self.history_index = self.history.len() - 1;
            assert(self.history() =~= old(self).history().subrange(0, old(self).index() + 1).push(
                snap,
            ));
        } else {
            self.history.set(self.history_index, snapshot);
            assert(self.history() =~= old(self).history().update(old(self).index(), snap));
        }
    }

    /// Marks stale the classes of line `start - 1` and of every line after
    /// it.
    fn unhighlight_rows(&mut self, start: usize)
        ensures
            final(self).rows@.len() == old(self).rows@.len(),
            forall|k: int|
                0 <= k < old(self).rows@.len() ==> (#[trigger] final(self).rows@[k])@ == old(
                    self,
                ).rows@[k]@ && (k + 1 < start ==> final(self).rows@[k] == old(self).rows@[k]) && (k
                    + 1 >= start ==> !final(self).rows@[k].highlighted()),
            final(self).lines() == old(self).lines(),
            final(self).history == old(self).history,
            final(self).history_index == old(self).history_index,
            final(self).last_edit_time == old(self).last_edit_time,
            final(self).dirty == old(self).dirty,
            final(self).file_name == old(self).file_name,
            final(self).file_type == old(self).file_type,
    {
        let mut k: usize = if start > 0 {
            start - 1
        } else {
            0
        };
        while k < self.rows.len()
            invariant
                k + 1 >= start,
                self.rows@.len() == old(self).rows@.len(),
                forall|j: int|
                    0 <= j < old(self).rows@.len() ==> (#[trigger] self.rows@[j])@ == old(
                        self,
                    ).rows@[j]@ && ((j + 1 < start || j >= k) ==> self.rows@[j] == old(
                        self,
                    ).rows@[j]) && (j + 1 >= start && j < k ==> !self.rows@[j].highlighted()),
                self.history == old(self).history,
                self.history_index == old(self).history_index,
                self.last_edit_time == old(self).last_edit_time,
                self.dirty == old(self).dirty,
                self.file_name == old(self).file_name,
                self.file_type == old(self).file_type,
            decreases self.rows@.len() - k,
        {
            let mut row = Row::default();
            self.rows.set_and_swap(k, &mut row);
            row.unhighlight();
            self.rows.set_and_swap(k, &mut row);
            k += 1;
        }
        assert(self.lines() =~= old(self).lines());
    }

    /// Splits line `at.y` at the cursor, or adds an empty last line.
    fn insert_newline(&mut self, at: &Position)
        requires
            at.y <= old(self).rows@.len(),
        ensures
            final(self).lines() == inserted(old(self).lines(), *at, '\n'),
            forall|k: int| 0 <= k < at.y ==> #[trigger] final(self).rows@[k] == old(self).rows@[k],
            final(self).history == old(self).history,
            final(self).history_index == old(self).history_index,
            final(self).last_edit_time == old(self).last_edit_time,
            final(self).dirty == old(self).dirty,
            final(self).file_name == old(self).file_name,
            final(self).file_type == old(self).file_type,
    {
        let ghost ls = old(self).lines();
        if at.y == self.rows.len() {
            self.rows.push(Row::default());
            assert(self.lines() =~= ls.push(seq![]));
            return;
        }
        let mut row = Row::default();
        self.rows.set_and_swap(at.y, &mut row);
        let k = row.char_index_at(at.x);
        let tail = row.split(k);
        self.rows.set_and_swap(at.y, &mut row);
        self.rows.insert(at.y + 1, tail);
        let ghost y = at.y as int;
        assert(self.lines() =~= ls.update(y, ls[y].subrange(0, k as int)).insert(
            y + 1,
            ls[y].subrange(k as int, ls[y].len() as int),
        ));
    }

    /// Inserts `c` at `at`, as an edit made at time `now` (milliseconds on
    /// the document's clock). The history then holds the new lines with
    /// `at`. A line index past the line count changes nothing.
    pub fn insert_at_time(&mut self, at: &Position, c: char, now: u64)
        requires
            old(self).wf(),
            at.y < old(self).lines().len() ==> at.x <= width_before(
                old(self).lines()[at.y as int],
                old(self).lines()[at.y as int].len() as int,
            ),
        ensures
            final(self).wf(),
            at.y > old(self).lines().len() ==> *final(self) == *old(self),
            at.y <= old(self).lines().len() ==> {
                &&& final(self).lines() == inserted(old(self).lines(), *at, c)
                &&& (final(self).history(), final(self).index(), final(self).last_edit())
                    == recorded(
                    old(self).history(),
                    old(self).index(),
                    old(self).last_edit(),
                    (final(self).lines(), *at),
                    now,
                )
                &&& final(self).dirty()
                &&& final(self).kind() == old(self).kind()
                &&& final(self).file() == old(self).file()
                &&& stale_from(old(self).rows(), final(self).rows(), at.y as int)
            },
    {
        if at.y > self.rows.len() {
            return;
        }
        let ghost ls = old(self).lines();
        let ghost y = at.y as int;
        self.dirty = true;
        if c == '\n' {
            self.insert_newline(at);
        } else if at.y == self.rows.len() {
            let mut row = Row::default();
            row.insert(0, c);
            self.rows.push(row);
            assert(row@ =~= seq![c]);
            assert(self.lines() =~= ls.push(seq![c]));
        } else {
            let mut row = Row::default();
            self.rows.set_and_swap(at.y, &mut row);
            let k = row.char_index_at(at.x);
            row.insert(k, c);
            self.rows.set_and_swap(at.y, &mut row);
            assert(self.lines() =~= ls.update(y, ls[y].insert(k as int, c)));
        }
        assert(forall|k: int| 0 <= k < y ==> #[trigger] self.rows@[k] == old(self).rows@[k]);
        assert(self.lines().len() == self.rows@.len());
        assert(old(self).lines().len() == old(self).rows@.len());
        assert(y <= self.rows@.len());
        let ghost edited = self.rows@;
        self.unhighlight_rows(at.y);
        assert(forall|k: int| 0 <= k && k + 1 < y && k < edited.len() ==> #[trigger] self.rows@[k] == edited[k]);
        self.save_state(at, now);
        assert(stale_from(old(self).rows(), self.rows(), y));
    }

    /// Inserts `c` at `at` (see `insert_at_time`), stamped with the clock.
    pub fn insert(&mut self, at: &Position, c: char)
        requires
            old(self).wf(),
            at.y < old(self).lines().len() ==> at.x <= width_before(
                old(self).lines()[at.y as int],
                old(self).lines()[at.y as int].len() as int,
            ),
        ensures
            final(self).wf(),
            at.y > old(self).lines().len() ==> *final(self) == *old(self),
            at.y <= old(self).lines().len() ==> {
                &&& final(self).lines() == inserted(old(self).lines(), *at, c)
                &&& exists|now: u64|
                    (final(self).history(), final(self).index(), final(self).last_edit())
                        == #[trigger] recorded(
                        old(self).history(),
                        old(self).index(),
                        old(self).last_edit(),
                        (final(self).lines(), *at),
                        now,
                    )
                &&& final(self).dirty()
                &&& final(self).kind() == old(self).kind()
                &&& final(self).file() == old(self).file()
                &&& stale_from(old(self).rows(), final(self).rows(), at.y as int)
            },
    {
        let now = millis_since(&self.clock);
        self.insert_at_time(at, c, now);
    }

    /// Deletes at `at` (joining with the next line at a line's end), as an
    /// edit made at time `now`. Returns false, changing nothing, when `at.y`
    /// is past the last line.
    pub fn delete_at_time(&mut self, at: &Position, now: u64) -> (r: bool)
        requires
            old(self).wf(),
            at.y < old(self).lines().len() ==> at.x <= width_before(
                old(self).lines()[at.y as int],
                old(self).lines()[at.y as int].len() as int,
            ),
        ensures
            final(self).wf(),
            r == (at.y < old(self).lines().len()),
            !r ==> *final(self) == *old(self),
            r ==> {
                &&& final(self).lines() == deleted(old(self).lines(), *at)
                &&& (final(self).history(), final(self).index(), final(self).last_edit())
                    == recorded(
                    old(self).history(),
                    old(self).index(),
                    old(self).last_edit(),
                    (final(self).lines(), *at),
                    now,
                )
                &&& final(self).dirty()
                &&& final(self).kind() == old(self).kind()
                &&& final(self).file() == old(self).file()
                &&& stale_from(old(self).rows(), final(self).rows(), at.y as int)
            },
    {
        let len = self.rows.len();
        if at.y >= len {
            return false;
        }
        let ghost ls = old(self).lines();
        let ghost y = at.y as int;
        self.dirty = true;
        let k = self.rows[at.y].char_index_at(at.x);
        let n = self.rows[at.y].len();
        if k == n && at.y < len - 1 {
            let next = self.rows.remove(at.y + 1);
            let mut row = Row::default();
            self.rows.set_and_swap(at.y, &mut row);
            row.append(&next);
            self.rows.set_and_swap(at.y, &mut row);
            assert(self.lines() =~= ls.update(y, ls[y] + ls[y + 1]).remove(y + 1));
        } else if k < n {
            let mut row = Row::default();
            self.rows.set_and_swap(at.y, &mut row);
            row.delete(k);
            self.rows.set_and_swap(at.y, &mut row);
            assert(self.lines() =~= ls.update(y, ls[y].remove(k as int)));
        } else {
            assert(self.lines() =~= ls);
        }
        assert(forall|k: int| 0 <= k < y ==> #[trigger] self.rows@[k] == old(self).rows@[k]);
        assert(self.lines().len() == self.rows@.len());
        assert(old(self).lines().len() == old(self).rows@.len());
        assert(y <= self.rows@.len());
        let ghost edited = self.rows@;
        self.unhighlight_rows(at.y);
        assert(forall|k: int| 0 <= k && k + 1 < y && k < edited.len() ==> #[trigger] self.rows@[k] == edited[k]);
        self.save_state(at, now);
        assert(stale_from(old(self).rows(), self.rows(), y));
        true
    }

    /// Deletes at `at` (see `delete_at_time`), stamped with the clock.
    pub fn delete(&mut self, at: &Position) -> (r: bool)
        requires
            old(self).wf(),
            at.y < old(self).lines().len() ==> at.x <= width_before(
                old(self).lines()[at.y as int],
                old(self).lines()[at.y as int].len() as int,
            ),
        ensures
            final(self).wf(),
            r == (at.y < old(self).lines().len()),
            !r ==> *final(self) == *old(self),
            r ==> {
                &&& final(self).lines() == deleted(old(self).lines(), *at)
                &&& exists|now: u64|
                    (final(self).history(), final(self).index(), final(self).last_edit())
                        == #[trigger] recorded(
                        old(self).history(),
                        old(self).index(),
                        old(self).last_edit(),
                        (final(self).lines(), *at),
                        now,
                    )
                &&& final(self).dirty()
                &&& final(self).kind() == old(self).kind()
                &&& final(self).file() == old(self).file()
                &&& stale_from(old(self).rows(), final(self).rows(), at.y as int)
            },
    {
        let now = millis_since(&self.clock);
        self.delete_at_time(at, now)
    }

    /// Searches for `query` from `at`: forward to the last line, or
    /// backward to the first; never wraps around.
    pub fn find(&self, query: &str, at: &Position, direction: SearchDirection) -> (r: Option<
        Position,
    >)
        ensures
            r == search(self.lines(), query@, *at, direction),
    {
        let q = chars_of(query);
        let len = self.rows.len();
        if at.y >= len {
            return None;
        }
        let ghost ls = self.lines();
        let mut y: usize = at.y;
        let mut k: usize = self.rows[y].char_index_at(at.x);
        if direction == SearchDirection::Forward {
            while y < len
                invariant
                    len == ls.len(),
                    ls == self.lines(),
                    q@ == query@,
                    at.y < len,
                    y <= len,
                    y >= at.y,
                    search(ls, query@, *at, direction) == match find_forward(ls, q@, y as int, k as int) {
                        Some((fy, i)) => Some(Position { x: column_of(ls[fy], i), y: fy as usize }),
                        None => None,
                    },
                decreases len - y,
            {
                match self.rows[y].find(&q, k, SearchDirection::Forward) {
                    Some(i) => {
                        return Some(Position { x: self.rows[y].width_to(i), y });
                    },
                    None => {},
                }
                y += 1;
                k = 0;
            }
            None
        } else {
            loop
                invariant
                    len == ls.len(),
                    ls == self.lines(),
                    q@ == query@,
                    y < len,
                    search(ls, query@, *at, direction) == match find_backward(ls, q@, y as int, k as int) {
                        Some((fy, i)) => Some(Position { x: column_of(ls[fy], i), y: fy as usize }),
                        None => None,
                    },
                decreases y,
            {
                match self.rows[y].find(&q, k, SearchDirection::Backward) {
                    Some(i) => {
                        return Some(Position { x: self.rows[y].width_to(i), y });
                    },
                    None => {},
                }
                if y == 0 {
                    return None;
                }
                y -= 1;
                k = self.rows[y].len();
            }
        }
    }

    /// Recomputes the classes of the lines up to `until + 1` (or all when
    /// `until` is none or past the end), carrying the open block comment
    /// state from each line to the next and marking `word`.
    pub fn highlight(&mut self, word: &Option<String>, until: Option<usize>)
        requires
            old(self).wf(),
        ensures
            final(self).wf(),
            final(self).lines() == old(self).lines(),
            final(self).rows().len() == old(self).rows().len(),
            forall|k: int|
                0 <= k < highlight_bound(old(self).lines().len() as int, until) ==> {
                    &&& (#[trigger] final(self).rows()[k]).highlighted()
                    &&& final(self).rows()[k].classes() == line_classes(
                        old(self).kind().options(),
                        old(self).lines()[k],
                        string_view(*word),
                        carry_into(old(self).kind().options(), old(self).lines(), k),
                    )
                },
            forall|k: int|
                highlight_bound(old(self).lines().len() as int, until) <= k < old(
                    self,
                ).rows().len() ==> #[trigger] final(self).rows()[k] == old(self).rows()[k],
            final(self).history() == old(self).history(),
            final(self).index() == old(self).index(),
            final(self).last_edit() == old(self).last_edit(),
            final(self).dirty() == old(self).dirty(),
            final(self).kind() == old(self).kind(),
            final(self).file() == old(self).file(),
    {
        let w: Option<Vec<char>> = match word {
            Some(s) => Some(chars_of(s.as_str())),
            None => None,
        };
        assert(crate::highlighting::word_view(w) == string_view(*word));
        let len = self.rows.len();
        let bound = match until {
            Some(u) => if u < len && u + 1 < len {
                u + 1
            } else {
                len
            },
            None => len,
        };
        let ghost ls = old(self).lines();
        let ghost o = old(self).kind().options();
        let mut carry = false;
        let mut k: usize = 0;
        while k < bound
            invariant
                bound == highlight_bound(ls.len() as int, until),
                bound <= len,
                len == ls.len(),
                self.rows@.len() == len,
                self.lines() == ls,
                o == self.file_type.options(),
                carry == carry_into(o, ls, k as int),
                k <= bound,
                forall|j: int|
                    0 <= j < k ==> {
                        &&& (#[trigger] self.rows@[j]).highlighted()
                        &&& self.rows@[j].classes() == line_classes(
                            o,
                            ls[j],
                            string_view(*word),
                            carry_into(o, ls, j),
                        )
                    },
                forall|j: int| k <= j < len ==> #[trigger] self.rows@[j] == old(self).rows@[j],
                self.history == old(self).history,
                self.history_index == old(self).history_index,
                self.last_edit_time == old(self).last_edit_time,
                self.dirty == old(self).dirty,
                self.file_name == old(self).file_name,
                self.file_type == old(self).file_type,
                crate::highlighting::word_view(w) == string_view(*word),
            decreases bound - k,
        {
            let mut row = Row::default();
            self.rows.set_and_swap(k, &mut row);
            assert(row@ == ls[k as int]);
            carry = row.highlight(&self.file_type.hl_opts, &w, carry);
            self.rows.set_and_swap(k, &mut row);
            k += 1;
            assert(self.lines() =~= ls);
        }
    }

    /// A document for the file `file_name` whose stored text is
    /// `contents`: one line per line of the text, not dirty, with a history
    /// that holds those lines as its first entry.
    pub fn from_contents(file_name: &str, contents: &str) -> (r: Document)
        ensures
            r.wf(),
            r.lines() == split_lines(contents@),
            r.file() matches Some(n) && n@ == file_name@,
            !r.dirty(),
            r.kind().kind_of(file_name@),
            r.history() == seq![(split_lines(contents@), Position { x: 0, y: 0 })],
            r.index() == 0,
            r.last_edit() is None,
    {
        let t = chars_of(contents);
        let n = t.len();
        let mut rows: Vec<Row> = Vec::new();
        let mut start: usize = 0;
        let mut i: usize = 0;
        while i < n
            invariant
                n == t@.len(),
                t@ == contents@,
                start <= i <= n,
                split_lines(t@) == rows_view(rows@) + lines_from(t@, start as int, i as int),
            decreases n - i,
        {
            if t[i] == '\n' {
                let line = if i > start && t[i - 1] == '\r' {
                    chars_between(&t, start, i - 1)
                } else {
                    chars_between(&t, start, i)
                };
                assert(line@ =~= strip_cr(t@.subrange(start as int, i as int)));
                let ghost before = rows_view(rows@);
                rows.push(Row::from_chars(line));
                assert(rows_view(rows@) =~= before.push(line@));
                assert(before + lines_from(t@, start as int, i as int) =~= rows_view(rows@)
                    + lines_from(t@, i + 1, i + 1));
                start = i + 1;
            }
            i += 1;
        }
        if start < n {
            let line = chars_between(&t, start, n);
            let ghost before = rows_view(rows@);
            rows.push(Row::from_chars(line));
            assert(rows_view(rows@) =~= before + lines_from(t@, start as int, n as int));
        } else {
            assert(rows_view(rows@) =~= rows_view(rows@) + lines_from(t@, start as int, n as int));
        }
        let first = EditorState { rows: copy_rows(&rows), cursor_position: Position::origin() };
        let r = Document {
            rows,
            file_name: Some(String::from_str(file_name)),
            dirty: false,
            file_type: FileType::from(file_name),
            history: vec![first],
            history_index: 0,
            last_edit_time: None,
            clock: clock_start(),
        };
        assert(r.history() =~= seq![(split_lines(contents@), Position { x: 0, y: 0 })]);
        r
    }

    /// The bytes that saving writes: every line in UTF-8, each followed by
    /// a newline, the last one included.
    pub fn serialize(&self) -> (r: Vec<u8>)
        ensures
            r@ == encode_utf8(joined(self.lines())),
    {
        let ghost ls = self.lines();
        let mut text: Vec<char> = Vec::new();
        let mut i: usize = 0;
        while i < self.rows.len()
            invariant
                ls == self.lines(),
                i <= ls.len(),
                text@ == joined(ls.subrange(0, i as int)),
            decreases ls.len() - i,
        {
            let row = &self.rows[i];
            let chars = row.chars();
            let mut k: usize = 0;
            let ghost base = text@;
            while k < chars.len()
                invariant
                    chars@ == ls[i as int],
                    k <= chars@.len(),
                    text@ == base + chars@.subrange(0, k as int),
                decreases chars@.len() - k,
            {
                text.push(chars[k]);
                k += 1;
                assert(text@ =~= base + chars@.subrange(0, k as int));
            }
            text.push('\n');
            proof {
                lemma_joined_concat(ls.subrange(0, i as int), seq![ls[i as int]]);
                lemma_joined_one(ls[i as int]);
                assert(ls.subrange(0, i + 1) =~= ls.subrange(0, i as int) + seq![ls[i as int]]);
                assert(text@ =~= joined(ls.subrange(0, i + 1)));
            }
            i += 1;
        }
        assert(ls.subrange(0, ls.len() as int) =~= ls);
        let mut out: Vec<u8> = Vec::new();
        encode_chars(&text, &mut out);
        assert(out@ =~= encode_utf8(joined(ls)));
        out
    }

    /// After a successful write: for a document with a file, takes the kind
    /// from the file's name again and clears the dirty flag. Without a file
    /// nothing changes.
    pub fn mark_saved(&mut self)
        ensures
            final(self).lines() == old(self).lines(),
            final(self).history() == old(self).history(),
            final(self).index() == old(self).index(),
            final(self).last_edit() == old(self).last_edit(),
            final(self).file() == old(self).file(),
            old(self).wf() ==> final(self).wf(),
            old(self).file() matches Some(n) ==> !final(self).dirty() && final(self).kind().kind_of(n@),
            old(self).file() is None ==> *final(self) == *old(self),
    {
        match &self.file_name {
            Some(name) => {
                self.file_type = FileType::from(name.as_str());
                self.dirty = false;
            },
            None => {},
        }
    }

    /// Steps back one history entry and restores its lines; returns the
    /// cursor stored with it. At the first entry nothing changes.
    pub fn undo(&mut self) -> (r: Option<Position>)
        requires
            old(self).wf(),
        ensures
            final(self).wf(),
            old(self).index() == 0 ==> r is None && *final(self) == *old(self),
            old(self).index() > 0 ==> {
                &&& r == Some(old(self).history()[old(self).index() - 1].1)
                &&& final(self).index() == old(self).index() - 1
                &&& final(self).lines() == old(self).history()[old(self).index() - 1].0
                &&& final(self).history() == old(self).history()
                &&& final(self).last_edit() is None
                &&& final(self).dirty() == old(self).dirty()
                &&& final(self).kind() == old(self).kind()
                &&& final(self).file() == old(self).file()
            },
    {
        if self.history_index > 0 {
            self.history_index -= 1;
            let state = &self.history[self.history_index];
            let rows = copy_rows(&state.rows);
            let position = state.cursor_position;
            self.rows = rows;
            self.last_edit_time = None;
            Some(position)
        } else {
            None
        }
    }

    /// Steps forward one history entry and restores its lines; returns the
    /// cursor stored with it. At the last entry nothing changes.
    pub fn redo(&mut self) -> (r: Option<Position>)
        requires
            old(self).wf(),
        ensures
            final(self).wf(),
            old(self).index() + 1 >= old(self).history().len() ==> r is None && *final(self)
                == *old(self),
            old(self).index() + 1 < old(self).history().len() ==> {
                &&& r == Some(old(self).history()[old(self).index() + 1].1)
                &&& final(self).index() == old(self).index() + 1
                &&& final(self).lines() == old(self).history()[old(self).index() + 1].0
                &&& final(self).history() == old(self).history()
                &&& final(self).last_edit() is None
                &&& final(self).dirty() == old(self).dirty()
                &&& final(self).kind() == old(self).kind()
                &&& final(self).file() == old(self).file()
            },
    {
        if self.history_index < self.history.len() - 1 {
            self.history_index += 1;
            let state = &self.history[self.history_index];
            let rows = copy_rows(&state.rows);
            let position = state.cursor_position;
            self.rows = rows;
            self.last_edit_time = None;
            Some(position)
        } else {
            None
        }
    }
}

/// Scanning past characters that are not newlines does not change the lines
/// found.
proof fn lemma_lines_from_skip(t: Seq<char>, start: int, i: int, j: int)
    requires
        0 <= i <= j <= t.len(),
        forall|k: int| i <= k < j ==> t[k] != '\n',
    ensures
        lines_from(t, start, i) == lines_from(t, start, j),
    decreases j - i,
{
    if i < j {
        lemma_lines_from_skip(t, start, i + 1, j);
    }
}

/// A line that can be written and read back unchanged: no newline in it,
/// and no carriage return at its end.
pub open spec fn storable(l: Seq<char>) -> bool {
    (forall|k: int| 0 <= k < l.len() ==> l[k] != '\n') && !(l.len() > 0 && l.last() == '\r')
}

proof fn lemma_lines_of_joined(ls: Seq<Seq<char>>, m: int)
    requires
        0 <= m <= ls.len(),
        forall|k: int| 0 <= k < ls.len() ==> storable(#[trigger] ls[k]),
    ensures
        lines_from(
            joined(ls),
            joined(ls.subrange(0, m)).len() as int,
            joined(ls.subrange(0, m)).len() as int,
        ) == ls.subrange(m, ls.len() as int),
    decreases ls.len() - m,
{
    let t = joined(ls);
    let p = joined(ls.subrange(0, m)).len() as int;
    assert(ls =~= ls.subrange(0, m) + ls.subrange(m, ls.len() as int));
    lemma_joined_concat(ls.subrange(0, m), ls.subrange(m, ls.len() as int));
    if m == ls.len() {
        assert(ls.subrange(m, ls.len() as int) =~= Seq::<Seq<char>>::empty());
        assert(t.len() == p);
    } else {
        let l = ls[m];
        let rest = ls.subrange(m + 1, ls.len() as int);
        assert(ls.subrange(m, ls.len() as int).drop_first() =~= rest);
        assert(storable(l));
        let b = joined(ls.subrange(m, ls.len() as int));
        assert(b == l.push('\n') + joined(rest));
        assert forall|k: int| p <= k < p + l.len() implies t[k] != '\n' by {
            assert(t[k] == b[k - p]);
            assert(b[k - p] == l[k - p]);
        }
        assert(t[p + l.len()] == b[l.len() as int]);
        lemma_lines_from_skip(t, p, p, p + l.len());
        assert(t.subrange(p, p + l.len()) =~= l);
        lemma_joined_concat(ls.subrange(0, m), seq![l]);
        lemma_joined_one(l);
        assert(ls.subrange(0, m + 1) =~= ls.subrange(0, m) + seq![l]);
        lemma_lines_of_joined(ls, m + 1);
        assert(ls.subrange(m, ls.len() as int) =~= seq![l] + rest);
    }
}

/// Saving and opening again gives back every line of a document whose
/// lines hold no newline and do not end in a carriage return (as every line
/// read from a text that ends with a newline and has no carriage returns):
/// the bytes decode to the text, and the text splits into the same lines.
pub proof fn lemma_save_then_reopen(ls: Seq<Seq<char>>)
    requires
        forall|k: int| 0 <= k < ls.len() ==> storable(#[trigger] ls[k]),
    ensures
        decode_utf8(encode_utf8(joined(ls))) == joined(ls),
        split_lines(joined(ls)) == ls,
{
    encode_utf8_decode_utf8(joined(ls));
    lemma_lines_of_joined(ls, 0);
    assert(ls.subrange(0, 0) =~= Seq::<Seq<char>>::empty());
    assert(ls.subrange(0, ls.len() as int) =~= ls);
}

proof fn lemma_lines_from_storable(t: Seq<char>, start: int, i: int)
    requires
        0 <= start <= i <= t.len(),
        forall|k: int| start <= k < i ==> t[k] != '\n',
        forall|k: int| 0 <= k < t.len() ==> t[k] != '\r',
    ensures
        forall|k: int|
            0 <= k < lines_from(t, start, i).len() ==> storable(
                #[trigger] lines_from(t, start, i)[k],
            ),
    decreases t.len() - i,
{
    if i >= t.len() {
        if start < t.len() {
            let l = t.subrange(start, t.len() as int);
            assert(storable(l));
            assert(lines_from(t, start, i) == seq![l]);
            assert(seq![l][0] == l);
        } else {
            assert(lines_from(t, start, i).len() == 0);
        }
    } else if t[i] == '\n' {
        let l = t.subrange(start, i);
        assert(strip_cr(l) == l);
        assert(storable(l));
        lemma_lines_from_storable(t, i + 1, i + 1);
        let rest = lines_from(t, i + 1, i + 1);
        assert forall|k: int| 0 <= k < lines_from(t, start, i).len() implies storable(
            #[trigger] lines_from(t, start, i)[k],
        ) by {
            assert(lines_from(t, start, i) == seq![strip_cr(l)] + rest);
            if k > 0 {
                assert(lines_from(t, start, i)[k] == rest[k - 1]);
            } else {
                assert(lines_from(t, start, i)[k] == l);
            }
        }
    } else {
        lemma_lines_from_storable(t, start, i + 1);
        assert(lines_from(t, start, i) == lines_from(t, start, i + 1));
    }
}

/// Opening a text with no carriage return, saving it and opening the
/// result again gives the same lines, whether or not the text ended with a
/// newline; the saved text always ends with one.
pub proof fn lemma_reopen_saved_text(t: Seq<char>)
    requires
        forall|k: int| 0 <= k < t.len() ==> t[k] != '\r',
    ensures
        split_lines(joined(split_lines(t))) == split_lines(t),
        decode_utf8(encode_utf8(joined(split_lines(t)))) == joined(split_lines(t)),
        split_lines(t).len() > 0 ==> joined(split_lines(t)).last() == '\n',
{
    lemma_lines_from_storable(t, 0, 0);
    lemma_save_then_reopen(split_lines(t));
    let ls = split_lines(t);
    if ls.len() > 0 {
        let m = (ls.len() - 1) as int;
        assert(ls =~= ls.subrange(0, m) + seq![ls[m]]);
        lemma_joined_concat(ls.subrange(0, m), seq![ls[m]]);
        lemma_joined_one(ls[m]);
    }
}

proof fn lemma_joined_lines_from(t: Seq<char>, start: int, i: int)
    requires
        0 <= start <= i <= t.len(),
        t.len() > 0 && t.last() == '\n',
        forall|k: int| start <= k < i ==> t[k] != '\n',
        forall|k: int| 0 <= k < t.len() ==> t[k] != '\r',
    ensures
        joined(lines_from(t, start, i)) == t.subrange(start, t.len() as int),
    decreases t.len() - i,
{
    if i >= t.len() {
        if start < t.len() {
            assert(t[t.len() - 1] != '\n');
        }
        assert(lines_from(t, start, i) == Seq::<Seq<char>>::empty());
        assert(t.subrange(start, t.len() as int) =~= Seq::<char>::empty());
    } else if t[i] == '\n' {
        let l = t.subrange(start, i);
        assert(strip_cr(l) == l);
        let rest = lines_from(t, i + 1, i + 1);
        lemma_joined_lines_from(t, i + 1, i + 1);
        assert(lines_from(t, start, i) == seq![l] + rest);
        assert((seq![l] + rest).drop_first() =~= rest);
        assert(joined(seq![l] + rest) == l.push('\n') + joined(rest));
        assert(l.push('\n') + t.subrange(i + 1, t.len() as int) =~= t.subrange(
            start,
            t.len() as int,
        ));
    } else {
        lemma_joined_lines_from(t, start, i + 1);
        assert(lines_from(t, start, i) == lines_from(t, start, i + 1));
    }
}

/// Saving what was opened from a text that ends with a newline and has no
/// carriage return writes back exactly that text.
pub proof fn lemma_save_is_byte_exact(t: Seq<char>)
    requires
        t.len() > 0 && t.last() == '\n',
        forall|k: int| 0 <= k < t.len() ==> t[k] != '\r',
    ensures
        joined(split_lines(t)) == t,
        encode_utf8(joined(split_lines(t))) == encode_utf8(t),
{
    lemma_joined_lines_from(t, 0, 0);
    assert(t.subrange(0, t.len() as int) =~= t);
}

/// A delete at the end of a line that has a successor joins the two lines:
/// the document loses one line, and the lines after move up.
pub proof fn lemma_delete_joins_lines(ls: Seq<Seq<char>>, at: Position)
    requires
        at.y + 1 < ls.len(),
        at.x == width_before(ls[at.y as int], ls[at.y as int].len() as int),
    ensures
        deleted(ls, at).len() == ls.len() - 1,
        deleted(ls, at)[at.y as int] == ls[at.y as int] + ls[at.y + 1],
        forall|j: int| 0 <= j < at.y ==> deleted(ls, at)[j] == ls[j],
        forall|j: int| at.y < j < ls.len() - 1 ==> deleted(ls, at)[j] == ls[j + 1],
{
    let l = ls[at.y as int];
    lemma_index_at_column_unique(l, at.x as int, l.len() as int);
}

proof fn lemma_first_match_from_at_least(s: Seq<char>, q: Seq<char>, i: int)
    ensures
        first_match_from(s, q, i) matches Some(j) ==> j >= i,
    decreases s.len() + 1 - i,
{
    if !(i < 0 || i + q.len() > s.len()) && !matches_at(s, q, i) {
        lemma_first_match_from_at_least(s, q, i + 1);
    }
}

/// A forward search never lands before where it started, and finds nothing
/// when no line from the start on holds the query past the start: it does
/// not wrap around to the top.
pub proof fn lemma_forward_search_never_wraps(ls: Seq<Seq<char>>, q: Seq<char>, y: int, k: int)
    requires
        0 <= k,
    ensures
        find_forward(ls, q, y, k) matches Some((fy, i)) ==> fy > y || (fy == y && i >= k),
        (0 <= y < ls.len() && line_find(ls[y], q, k, SearchDirection::Forward) is None
            && forall|j: int|
            y < j < ls.len() ==> (#[trigger] line_find(ls[j], q, 0, SearchDirection::Forward))
                is None) ==> find_forward(ls, q, y, k) is None,
    decreases ls.len() - y,
{
    if 0 <= y < ls.len() {
        if q.len() != 0 && k <= ls[y].len() {
            lemma_first_match_from_at_least(ls[y], q, k);
        }
        lemma_forward_search_never_wraps(ls, q, y + 1, 0);
    }
}

/// Two edits, the second within the window of the first (which opens an
/// entry), make one undo step: the history gains one entry, and the entry
/// that undo then restores holds the lines from before the first edit.
pub proof fn lemma_edits_in_window_coalesce(
    d0: Document,
    d1: Document,
    d2: Document,
    c1: Position,
    t1: u64,
    c2: Position,
    t2: u64,
)
    requires
        d0.wf(),
        opens_entry(d0.last_edit(), t1),
        (d1.history(), d1.index(), d1.last_edit()) == recorded(
            d0.history(),
            d0.index(),
            d0.last_edit(),
            (d1.lines(), c1),
            t1,
        ),
        (d2.history(), d2.index(), d2.last_edit()) == recorded(
            d1.history(),
            d1.index(),
            d1.last_edit(),
            (d2.lines(), c2),
            t2,
        ),
        t2 <= t1 + BATCH_MILLIS,
    ensures
        d2.history().len() == d0.index() + 2,
        d2.index() == d0.index() + 1,
        d2.history()[d2.index() - 1].0 == d0.lines(),
        d2.history()[d2.index()].0 == d2.lines(),
{
}

/// Two edits more than the window apart make two undo steps: the first
/// undo restores the lines between the edits, the second those from before
/// the first edit.
pub proof fn lemma_edits_apart_separate(
    d0: Document,
    d1: Document,
    d2: Document,
    c1: Position,
    t1: u64,
    c2: Position,
    t2: u64,
)
    requires
        d0.wf(),
        (d1.history(), d1.index(), d1.last_edit()) == recorded(
            d0.history(),
            d0.index(),
            d0.last_edit(),
            (d1.lines(), c1),
            t1,
        ),
        (d2.history(), d2.index(), d2.last_edit()) == recorded(
            d1.history(),
            d1.index(),
            d1.last_edit(),
            (d2.lines(), c2),
            t2,
        ),
        opens_entry(d0.last_edit(), t1),
        t2 > t1 + BATCH_MILLIS,
    ensures
        d2.index() == d0.index() + 2,
        d2.history()[d2.index() - 1].0 == d1.lines(),
        d2.history()[d2.index() - 2].0 == d0.lines(),
{
}

/// Redo right after an undo restores the lines from before the undo.
pub proof fn lemma_redo_after_undo(d0: Document, d1: Document, d2: Document)
    requires
        d0.wf(),
        d0.index() > 0,
        d1.index() == d0.index() - 1,
        d1.history() == d0.history(),
        d1.lines() == d0.history()[d0.index() - 1].0,
        d1.index() + 1 < d1.history().len(),
        d2.lines() == d1.history()[d1.index() + 1].0,
    ensures
        d2.lines() == d0.lines(),
{
}

/// An edit right after an undo drops the redo branch: the index is then at
/// the last entry, where redo gives nothing.
pub proof fn lemma_edit_after_undo_drops_redo(d1: Document, d2: Document, c: Position, t: u64)
    requires
        d1.wf(),
        d1.last_edit() is None,
        (d2.history(), d2.index(), d2.last_edit()) == recorded(
            d1.history(),
            d1.index(),
            d1.last_edit(),
            (d2.lines(), c),
            t,
        ),
    ensures
        d2.index() + 1 >= d2.history().len(),
{
}

} // verus!
