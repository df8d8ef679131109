use vstd::prelude::*;
use vstd::utf8::*;
use vstd::string::*;
use crate::filetype::HighlightingOptions;
use crate::highlighting::{
    classify, lemma_scan_len, line_carry, line_classes, mark_matches, overlay, start_mode, word_view,
    HighlightType,
};
use crate::position::SearchDirection;

verus! {

/// Whether `c` is drawn two columns wide (East Asian wide and fullwidth
/// forms, and the wide emoji blocks).
pub open spec fn is_wide(c: char) -> bool {
    let v = c as u32;
    (0x1100 <= v && v <= 0x115F) || (0x2E80 <= v && v <= 0x303E) || (0x3041 <= v && v <= 0x33FF)
        || (0x3400 <= v && v <= 0x4DBF) || (0x4E00 <= v && v <= 0x9FFF) || (0xA000 <= v && v
        <= 0xA4CF) || (0xAC00 <= v && v <= 0xD7A3) || (0xF900 <= v && v <= 0xFAFF) || (0xFE30
        <= v && v <= 0xFE4F) || (0xFF00 <= v && v <= 0xFF60) || (0xFFE0 <= v && v <= 0xFFE6) || (
    0x1F300 <= v && v <= 0x1F64F) || (0x1F900 <= v && v <= 0x1F9FF) || (0x20000 <= v && v
        <= 0x3FFFD)
}

/// Display width of one character: 2 for a wide glyph, 1 otherwise.
pub open spec fn glyph_width(c: char) -> nat {
    if is_wide(c) {
        2
    } else {
        1
    }
}

/// Display column at which character `i` starts: the widths of the
/// characters before it.
pub open spec fn width_before(s: Seq<char>, i: int) -> nat
    decreases i,
{
    if i <= 0 {
        0
    } else {
        width_before(s, i - 1) + glyph_width(s[i - 1])
    }
}

/// `width_before` as a machine column: it saturates at `usize::MAX`.
pub open spec fn column_of(s: Seq<char>, i: int) -> usize {
    if width_before(s, i) <= usize::MAX {
        width_before(s, i) as usize
    } else {
        usize::MAX
    }
}

/// The character index that holds display column `col`: the length of the
/// longest prefix of `s` that fits in `col` columns. A column inside a wide
/// glyph gives that glyph's index; a column past the end gives the length.
pub open spec fn index_at_column(s: Seq<char>, col: int) -> nat
    decreases s.len(),
{
    if s.len() == 0 {
        0
    } else if width_before(s, s.len() as int) <= col {
        s.len()
    } else {
        index_at_column(s.drop_last(), col)
    }
}

/// The characters whose whole span of columns lies in `[start, end)`,
/// among the first `i`.
pub open spec fn rendered(s: Seq<char>, start: int, end: int, i: int) -> Seq<char>
    decreases i,
{
    if i <= 0 {
        seq![]
    } else if start <= width_before(s, i - 1) && width_before(s, i) <= end {
        rendered(s, start, end, i - 1).push(s[i - 1])
    } else {
        rendered(s, start, end, i - 1)
    }
}

/// `q` occurs in `s` starting at index `i`.
pub open spec fn matches_at(s: Seq<char>, q: Seq<char>, i: int) -> bool {
    0 <= i && i + q.len() <= s.len() && s.subrange(i, i + q.len()) == q
}

/// The first occurrence of `q` in `s` that starts at or after `i`.
pub open spec fn first_match_from(s: Seq<char>, q: Seq<char>, i: int) -> Option<nat>
    decreases s.len() + 1 - i,
{
    if i < 0 || i + q.len() > s.len() {
        None
    } else if matches_at(s, q, i) {
        Some(i as nat)
    } else {
        first_match_from(s, q, i + 1)
    }
}

/// The last occurrence of `q` in `s` that ends at or before `i`.
pub open spec fn last_match_before(s: Seq<char>, q: Seq<char>, i: int) -> Option<nat>
    decreases i + 1,
{
    if i < q.len() || i > s.len() {
        None
    } else if matches_at(s, q, i - q.len()) {
        Some((i - q.len()) as nat)
    } else {
        last_match_before(s, q, i - 1)
    }
}

/// Search of one line: forward for the first occurrence at or after `at`,
/// backward for the last one that ends at or before `at`. An empty query, or
/// a start past the end, finds nothing.
pub open spec fn line_find(s: Seq<char>, q: Seq<char>, at: int, dir: SearchDirection) -> Option<
    nat,
> {
    if q.len() == 0 || at > s.len() {
        None
    } else if dir == SearchDirection::Forward {
        first_match_from(s, q, at)
    } else {
        last_match_before(s, q, at)
    }
}

/// A match that `line_find` reports lies inside the line.
pub proof fn lemma_line_find_bound(s: Seq<char>, q: Seq<char>, at: int, dir: SearchDirection)
    ensures
        line_find(s, q, at, dir) matches Some(i) ==> i + q.len() <= s.len(),
{
    if q.len() > 0 && at <= s.len() {
        if dir == SearchDirection::Forward {
            lemma_first_match_bound(s, q, at);
        } else {
            lemma_last_match_bound(s, q, at);
        }
    }
}

/// A forward match found lies inside the line.
pub proof fn lemma_first_match_bound(s: Seq<char>, q: Seq<char>, i: int)
    ensures
        first_match_from(s, q, i) matches Some(j) ==> j + q.len() <= s.len(),
    decreases s.len() + 1 - i,
{
    if !(i < 0 || i + q.len() > s.len()) && !matches_at(s, q, i) {
        lemma_first_match_bound(s, q, i + 1);
    }
}

proof fn lemma_last_match_bound(s: Seq<char>, q: Seq<char>, i: int)
    ensures
        last_match_before(s, q, i) matches Some(j) ==> j + q.len() <= s.len(),
    decreases i + 1,
{
    if !(i < q.len() || i > s.len()) && !matches_at(s, q, i - q.len()) {
        lemma_last_match_bound(s, q, i - 1);
    }
}

/// The UTF-8 encoding of a line's characters, with no terminator.
pub open spec fn line_bytes(s: Seq<char>) -> Seq<u8> {
    encode_utf8(s)
}

/// The column after character `i` is its column plus its width.
pub proof fn lemma_width_step(s: Seq<char>, i: int)
    requires
        0 <= i,
    ensures
        width_before(s, i + 1) == width_before(s, i) + glyph_width(s[i]),
{
}

/// Columns grow by at least one per character.
pub proof fn lemma_width_grows(s: Seq<char>, i: int, j: int)
    requires
        0 <= i <= j,
    ensures
        width_before(s, i) + (j - i) <= width_before(s, j),
    decreases j - i,
{
    if i < j {
        lemma_width_grows(s, i, j - 1);
    }
}

/// Two sequences that agree before `i` have the same column at `i`.
pub proof fn lemma_width_same_prefix(s: Seq<char>, t: Seq<char>, i: int)
    requires
        0 <= i <= s.len(),
        i <= t.len(),
        forall|k: int| 0 <= k < i ==> s[k] == t[k],
    ensures
        width_before(s, i) == width_before(t, i),
    decreases i,
{
    if i > 0 {
        lemma_width_same_prefix(s, t, i - 1);
    }
}

/// `index_at_column` is the one index whose span holds the column.
pub proof fn lemma_index_at_column_unique(s: Seq<char>, col: int, r: int)
    requires
        0 <= r <= s.len(),
        width_before(s, r) <= col,
        r == s.len() || col < width_before(s, r + 1),
    ensures
        index_at_column(s, col) == r,
    decreases s.len(),
{
    if s.len() > 0 {
        if width_before(s, s.len() as int) <= col {
            if r < s.len() {
                lemma_width_grows(s, r + 1, s.len() as int);
            }
        } else {
            if r == s.len() {
            } else {
                let t = s.drop_last();
                lemma_width_same_prefix(s, t, r);
                if r < t.len() {
                    lemma_width_same_prefix(s, t, r + 1);
                }
                lemma_index_at_column_unique(t, col, r);
            }
        }
    }
}

/// Without wide glyphs, the column of index `i` leads back to `i`.
pub proof fn lemma_index_at_width_narrow(s: Seq<char>, i: int)
    requires
        0 <= i <= s.len(),
        forall|k: int| 0 <= k < s.len() ==> !is_wide(#[trigger] s[k]),
    ensures
        index_at_column(s, width_before(s, i) as int) == i,
{
    if i < s.len() {
        lemma_width_step(s, i);
    }
    lemma_index_at_column_unique(s, width_before(s, i) as int, i);
}

/// Every column strictly inside a wide glyph at `k` resolves to `k`.
pub proof fn lemma_index_inside_wide(s: Seq<char>, k: int, col: int)
    requires
        0 <= k < s.len(),
        is_wide(s[k]),
        width_before(s, k) < col < width_before(s, k + 1),
    ensures
        index_at_column(s, col) == k,
{
    lemma_index_at_column_unique(s, col, k);
}

/// Splitting a line at any index and appending the tail again gives the
/// line back.
pub proof fn lemma_split_append(s: Seq<char>, at: int)
    requires
        0 <= at <= s.len(),
    ensures
        s.subrange(0, at) + s.subrange(at, s.len() as int) == s,
{
    assert(s.subrange(0, at) + s.subrange(at, s.len() as int) =~= s);
}

/// Encoding a concatenation concatenates the encodings.
pub proof fn lemma_encode_concat(a: Seq<char>, b: Seq<char>)
    ensures
        encode_utf8(a + b) == encode_utf8(a) + encode_utf8(b),
    decreases a.len(),
{
    if a.len() == 0 {
        assert(a + b =~= b);
    } else {
        assert((a + b).drop_first() =~= a.drop_first() + b);
        lemma_encode_concat(a.drop_first(), b);
    }
}

/// The encoding of one character is its scalar's encoding.
pub proof fn lemma_encode_one(c: char)
    ensures
        encode_utf8(seq![c]) == encode_scalar(c as u32),
{
    assert(seq![c].drop_first() =~= Seq::<char>::empty());
    assert(encode_utf8(Seq::<char>::empty()) =~= Seq::<u8>::empty());
    assert(encode_scalar(c as u32) + Seq::<u8>::empty() =~= encode_scalar(c as u32));
}

/// The display width of `c`.
pub fn char_width(c: char) -> (r: usize)
    ensures
        r == glyph_width(c),
{
    let v = c as u32;
    if (0x1100 <= v && v <= 0x115F) || (0x2E80 <= v && v <= 0x303E) || (0x3041 <= v && v
        <= 0x33FF) || (0x3400 <= v && v <= 0x4DBF) || (0x4E00 <= v && v <= 0x9FFF) || (0xA000
        <= v && v <= 0xA4CF) || (0xAC00 <= v && v <= 0xD7A3) || (0xF900 <= v && v <= 0xFAFF) || (
    0xFE30 <= v && v <= 0xFE4F) || (0xFF00 <= v && v <= 0xFF60) || (0xFFE0 <= v && v <= 0xFFE6)
        || (0x1F300 <= v && v <= 0x1F64F) || (0x1F900 <= v && v <= 0x1F9FF) || (0x20000 <= v && v
        <= 0x3FFFD) {
        2
    } else {
        1
    }
}

/// The UTF-8 encoding of one character.
fn encode_char(c: char, out: &mut Vec<u8>)
    ensures
        final(out)@ == old(out)@ + encode_scalar(c as u32),
{
    let v = c as u32;
    if v <= 0x7F {
        out.push((v & 0x7F) as u8);
    } else if v <= 0x7FF {
        out.push(0xC0 | ((v >> 6) & 0x1F) as u8);
        out.push(0x80 | (v & 0x3F) as u8);
    } else if v <= 0xFFFF {
        out.push(0xE0 | ((v >> 12) & 0x0F) as u8);
        out.push(0x80 | ((v >> 6) & 0x3F) as u8);
        out.push(0x80 | (v & 0x3F) as u8);
    } else {
        out.push(0xF0 | ((v >> 18) & 0x7) as u8);
        out.push(0x80 | ((v >> 12) & 0x3F) as u8);
        out.push(0x80 | ((v >> 6) & 0x3F) as u8);
        out.push(0x80 | (v & 0x3F) as u8);
    }
    assert(final(out)@ =~= old(out)@ + encode_scalar(c as u32));
}

/// Appends the UTF-8 encoding of `s` to `out`.
pub fn encode_chars(s: &Vec<char>, out: &mut Vec<u8>)
    ensures
        final(out)@ == old(out)@ + encode_utf8(s@),
{
    let mut i: usize = 0;
    while i < s.len()
        invariant
            i <= s@.len(),
            out@ == old(out)@ + encode_utf8(s@.subrange(0, i as int)),
        decreases s@.len() - i,
    {
        encode_char(s[i], out);
        proof {
            lemma_encode_concat(s@.subrange(0, i as int), seq![s@[i as int]]);
            assert(s@.subrange(0, i + 1) =~= s@.subrange(0, i as int) + seq![s@[i as int]]);
            lemma_encode_one(s@[i as int]);
            assert(out@ =~= old(out)@ + encode_utf8(s@.subrange(0, i + 1)));
        }
        i += 1;
    }
    assert(s@.subrange(0, s@.len() as int) =~= s@);
}

/// Whether `q` occurs in `s` at index `i`.
pub(crate) fn match_here(s: &Vec<char>, q: &Vec<char>, i: usize) -> (r: bool)
    requires
        i + q@.len() <= s@.len(),
    ensures
        r == matches_at(s@, q@, i as int),
{
    let n = s.len();
    let mut k: usize = 0;
    while k < q.len()
        invariant
            n == s@.len(),
            i + q@.len() <= s@.len(),
            k <= q@.len(),
            forall|j: int| 0 <= j < k ==> s@[i + j] == q@[j],
        decreases q@.len() - k,
    {
        if s[i + k] != q[k] {
            assert(s@.subrange(i as int, i + q@.len())[k as int] != q@[k as int]);
            return false;
        }
        k += 1;
    }
    assert(s@.subrange(i as int, i + q@.len()) =~= q@);
    true
}

/// The characters of `s`, one by one.
pub fn chars_of(s: &str) -> (r: Vec<char>)
    ensures
        r@ == s@,
{
    let n = s.unicode_len();
    let mut chars: Vec<char> = Vec::new();
    let mut i: usize = 0;
    while i < n
        invariant
            n == s@.len(),
            i <= n,
            chars@ == s@.subrange(0, i as int),
        decreases n - i,
    {
        chars.push(s.get_char(i));
        i += 1;
        assert(chars@ =~= s@.subrange(0, i as int));
    }
    assert(s@.subrange(0, n as int) =~= s@);
    chars
}

/// One line of text: its characters, and the class of each character as
/// last computed by the highlighter.
pub struct Row {
    chars: Vec<char>,
    highlighting: Vec<HighlightType>,
    is_highlighted: bool,
}

impl View for Row {
    type V = Seq<char>;

    closed spec fn view(&self) -> Seq<char> {
        self.chars@
    }
}

impl Row {
    /// The class of each character, as last computed.
    pub closed spec fn classes(&self) -> Seq<HighlightType> {
        self.highlighting@
    }

    /// False when the classes are stale and must be computed again.
    pub closed spec fn highlighted(&self) -> bool {
        self.is_highlighted
    }

    pub fn is_highlighted(&self) -> (r: bool)
        ensures
            r == self.highlighted(),
    {
        self.is_highlighted
    }

    /// Marks the classes stale.
    pub fn unhighlight(&mut self)
        ensures
            final(self)@ == old(self)@,
            final(self).classes() == old(self).classes(),
            !final(self).highlighted(),
    {
        self.is_highlighted = false;
    }

    /// An empty line.
    pub fn default() -> (r: Row)
        ensures
            r@ == Seq::<char>::empty(),
            r.classes() == Seq::<HighlightType>::empty(),
            !r.highlighted(),
    {
        Row { chars: Vec::new(), highlighting: Vec::new(), is_highlighted: false }
    }

    /// A line holding the characters of `s`.
    pub fn from(s: &str) -> (r: Row)
        ensures
            r@ == s@,
            !r.highlighted(),
    {
        Row { chars: chars_of(s), highlighting: Vec::new(), is_highlighted: false }
    }

    /// A line holding `chars`.
    pub fn from_chars(chars: Vec<char>) -> (r: Row)
        ensures
            r@ == chars@,
            !r.highlighted(),
    {
        Row { chars, highlighting: Vec::new(), is_highlighted: false }
    }

    /// A deep copy: same characters, classes and flag.
    pub fn duplicate(&self) -> (r: Row)
        ensures
            r@ == self@,
            r.classes() == self.classes(),
            r.highlighted() == self.highlighted(),
    {
        let mut chars: Vec<char> = Vec::new();
        let mut i: usize = 0;
        while i < self.chars.len()
            invariant
                i <= self.chars@.len(),
                chars@ == self.chars@.subrange(0, i as int),
            decreases self.chars@.len() - i,
        {
            chars.push(self.chars[i]);
            i += 1;
            assert(chars@ =~= self.chars@.subrange(0, i as int));
        }
        let mut classes: Vec<HighlightType> = Vec::new();
        let mut j: usize = 0;
        while j < self.highlighting.len()
            invariant
                j <= self.highlighting@.len(),
                classes@ == self.highlighting@.subrange(0, j as int),
            decreases self.highlighting@.len() - j,
        {
            classes.push(self.highlighting[j]);
            j += 1;
            assert(classes@ =~= self.highlighting@.subrange(0, j as int));
        }
        assert(chars@ =~= self.chars@);
        assert(classes@ =~= self.highlighting@);
        Row { chars, highlighting: classes, is_highlighted: self.is_highlighted }
    }

    /// Number of characters.
    pub fn len(&self) -> (r: usize)
        ensures
            r == self@.len(),
    {
        self.chars.len()
    }

    pub fn is_empty(&self) -> (r: bool)
        ensures
            r == (self@.len() == 0),
    {
        self.chars.len() == 0
    }

    /// The character at index `i`, if there is one.
    pub fn get_char(&self, i: usize) -> (r: Option<char>)
        ensures
            i < self@.len() ==> r == Some(self@[i as int]),
            i >= self@.len() ==> r is None,
    {
        if i < self.chars.len() {
            Some(self.chars[i])
        } else {
            None
        }
    }

    /// The characters of the line.
    pub fn chars(&self) -> (r: &Vec<char>)
        ensures
            r@ == self@,
    {
        &self.chars
    }

    /// The class of each character, as last computed.
    pub fn highlighting(&self) -> (r: &Vec<HighlightType>)
        ensures
            r@ == self.classes(),
    {
        &self.highlighting
    }

    /// The display width of `c`.
    pub fn get_char_width(&self, c: char) -> (r: usize)
        ensures
            r == glyph_width(c),
    {
        char_width(c)
    }

    /// Display column at which character `i` starts.
    pub fn width_to(&self, i: usize) -> (r: usize)
        requires
            i <= self@.len(),
        ensures
            r == column_of(self@, i as int),
    {
        let mut acc: usize = 0;
        let mut k: usize = 0;
        while k < i
            invariant
                k <= i <= self@.len(),
                acc == column_of(self@, k as int),
            decreases i - k,
        {
            let w = char_width(self.chars[k]);
            proof {
                lemma_width_step(self@, k as int);
            }
            acc = acc.saturating_add(w);
            k += 1;
        }
        acc
    }

    /// The index of the character that covers display column `col`; the
    /// length of the line for a column past its end.
    pub fn char_index_at(&self, col: usize) -> (r: usize)
        ensures
            r == index_at_column(self@, col as int),
            r <= self@.len(),
    {
        let mut i: usize = 0;
        let mut remaining: usize = col;
        while i < self.chars.len() && char_width(self.chars[i]) <= remaining
            invariant
                i <= self@.len(),
                remaining == col - width_before(self@, i as int),
            decreases self@.len() - i,
        {
            proof {
                lemma_width_step(self@, i as int);
            }
            remaining = remaining - char_width(self.chars[i]);
            i += 1;
        }
        proof {
            if i < self@.len() {
                lemma_width_step(self@, i as int);
            }
            lemma_index_at_column_unique(self@, col as int, i as int);
        }
        i
    }

    /// The characters whose columns all lie in `[start, end)`.
    pub fn render(&self, start: usize, end: usize) -> (r: Vec<char>)
        ensures
            r@ == rendered(self@, start as int, end as int, self@.len() as int),
    {
        let mut out: Vec<char> = Vec::new();
        let mut acc: usize = 0;
        let mut i: usize = 0;
        while i < self.chars.len()
            invariant
                i <= self@.len(),
                acc == column_of(self@, i as int),
                out@ == rendered(self@, start as int, end as int, i as int),
            decreases self@.len() - i,
        {
            let c = self.chars[i];
            let w = char_width(c);
            proof {
                lemma_width_step(self@, i as int);
            }
            let keep = match acc.checked_add(w) {
                Some(n) => start <= acc && n <= end,
                None => false,
            };
            if keep {
                out.push(c);
            }
            acc = acc.saturating_add(w);
            i += 1;
        }
        out
    }

    /// Inserts `c` before index `at`.
    pub fn insert(&mut self, at: usize, c: char)
        requires
            at <= old(self)@.len(),
        ensures
            final(self)@ == old(self)@.insert(at as int, c),
            !final(self).highlighted(),
    {
        self.chars.insert(at, c);
        self.is_highlighted = false;
    }

    /// Removes the character at index `at`.
    pub fn delete(&mut self, at: usize)
        requires
            at < old(self)@.len(),
        ensures
            final(self)@ == old(self)@.remove(at as int),
            !final(self).highlighted(),
    {
        self.chars.remove(at);
        self.is_highlighted = false;
    }

    /// Keeps `[0, at)` and returns a new line holding `[at, len)`.
    pub fn split(&mut self, at: usize) -> (r: Row)
        requires
            at <= old(self)@.len(),
        ensures
            final(self)@ == old(self)@.subrange(0, at as int),
            r@ == old(self)@.subrange(at as int, old(self)@.len() as int),
            !final(self).highlighted(),
            !r.highlighted(),
    {
        let tail = self.chars.split_off(at);
        self.is_highlighted = false;
        Row::from_chars(tail)
    }

    /// Adds the characters of `other` at the end.
    pub fn append(&mut self, other: &Row)
        ensures
            final(self)@ == old(self)@ + other@,
            !final(self).highlighted(),
    {
        let mut i: usize = 0;
        while i < other.chars.len()
            invariant
                i <= other@.len(),
                self.chars@ == old(self)@ + other@.subrange(0, i as int),
            decreases other@.len() - i,
        {
            self.chars.push(other.chars[i]);
            i += 1;
            assert(self.chars@ =~= old(self)@ + other@.subrange(0, i as int));
        }
        assert(other@.subrange(0, other@.len() as int) =~= other@);
        self.is_highlighted = false;
    }

    /// The UTF-8 encoding of the line, without a terminator.
    pub fn as_bytes(&self) -> (r: Vec<u8>)
        ensures
            r@ == line_bytes(self@),
    {
        let mut out: Vec<u8> = Vec::new();
        encode_chars(&self.chars, &mut out);
        assert(out@ =~= line_bytes(self@));
        out
    }

    /// Computes the class of every character, starting inside a block
    /// comment when `start_with_comment` holds, and marks each occurrence of
    /// `word`. Returns whether the line ends inside a block comment.
    pub fn highlight(
        &mut self,
        opts: &HighlightingOptions,
        word: &Option<Vec<char>>,
        start_with_comment: bool,
    ) -> (r: bool)
        ensures
            final(self)@ == old(self)@,
            final(self).highlighted(),
            final(self).classes() == line_classes(
                *opts,
                old(self)@,
                word_view(*word),
                start_with_comment,
            ),
            r == line_carry(*opts, old(self)@, start_with_comment),
    {
        let (mut classes, carry) = classify(opts, &self.chars, start_with_comment);
        proof {
            lemma_scan_len(*opts, self@, 0, start_mode(start_with_comment));
        }
        match word {
            Some(w) => {
                mark_matches(&mut classes, &self.chars, w);
            },
            None => {
                assert(classes@ =~= overlay(classes@, self@, None));
            },
        }
        self.highlighting = classes;
        self.is_highlighted = true;
        carry
    }

    /// Search for `query` from character index `at`: forward for the first
    /// occurrence at or after `at`, backward for the last one that ends at or
    /// before `at`.
    pub fn find(&self, query: &Vec<char>, at: usize, direction: SearchDirection) -> (r: Option<
        usize,
    >)
        ensures
            r matches Some(i) ==> line_find(self@, query@, at as int, direction) == Some(i as nat),
            r is None <==> line_find(self@, query@, at as int, direction) is None,
            r matches Some(i) ==> i + query@.len() <= self@.len(),
    {
        proof {
            lemma_line_find_bound(self@, query@, at as int, direction);
        }
        let len = self.chars.len();
        let qlen = query.len();
        if qlen == 0 || at > len || qlen > len {
            proof {
                if qlen > len && at <= len && qlen > 0 {
                    if direction == SearchDirection::Forward {
                        assert(first_match_from(self@, query@, at as int) is None);
                    } else {
                        assert(last_match_before(self@, query@, at as int) is None);
                    }
                }
            }
            return None;
        }
        if direction == SearchDirection::Forward {
            let mut i: usize = at;
            while i <= len - qlen
                invariant
                    qlen == query@.len(),
                    len == self@.len(),
                    0 < qlen <= len,
                    at <= i,
                    line_find(self@, query@, at as int, direction) == first_match_from(
                        self@,
                        query@,
                        i as int,
                    ),
                    direction == SearchDirection::Forward,
                decreases len - i,
            {
                if match_here(&self.chars, query, i) {
                    return Some(i);
                }
                i += 1;
            }
            None
        } else {
            let mut i: usize = at;
            while i >= qlen
                invariant
                    qlen == query@.len(),
                    len == self@.len(),
                    0 < qlen <= len,
                    i <= at <= len,
                    line_find(self@, query@, at as int, direction) == last_match_before(
                        self@,
                        query@,
                        i as int,
                    ),
                decreases i,
            {
                if match_here(&self.chars, query, i - qlen) {
                    return Some(i - qlen);
                }
                i -= 1;
            }
            None
        }
    }
}

} // verus!
