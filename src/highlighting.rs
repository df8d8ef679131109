use vstd::prelude::*;
use crate::filetype::HighlightingOptions;
use crate::row::{matches_at, match_here};

verus! {

/// The class that the highlighter gives a character.
#[derive(PartialEq, Eq, Structural, Copy, Clone, Debug)]
pub enum HighlightType {
    Plain,
    Number,
    Match,
    StringLiteral,
    Comment,
    MultilineComment,
    PrimaryKeywords,
    SecondaryKeywords,
}

/// Where the scanner stands: in code, inside a block comment, or inside a
/// string literal.
#[derive(PartialEq, Eq, Structural, Copy, Clone, Debug)]
pub enum ScanMode {
    Code,
    Block,
    Quoted,
}

pub open spec fn is_separator(c: char) -> bool {
    !(('a' <= c && c <= 'z') || ('A' <= c && c <= 'Z') || ('0' <= c && c <= '9') || c == '_')
}

pub open spec fn is_digit(c: char) -> bool {
    '0' <= c && c <= '9'
}

/// Index `i` begins a word: it is the first index or follows a separator.
pub open spec fn at_word_start(s: Seq<char>, i: int) -> bool {
    i == 0 || (0 < i <= s.len() && is_separator(s[i - 1]))
}

/// The two characters at `i` are `a` then `b`.
pub open spec fn pair_at(s: Seq<char>, i: int, a: char, b: char) -> bool {
    0 <= i && i + 1 < s.len() && s[i] == a && s[i + 1] == b
}

/// Length of the run of digits and dots that starts at `i`.
pub open spec fn number_run(s: Seq<char>, i: int) -> nat
    decreases s.len() - i,
{
    if 0 <= i < s.len() && (is_digit(s[i]) || s[i] == '.') {
        1 + number_run(s, i + 1)
    } else {
        0
    }
}

/// Keyword `k` stands at `i` as a whole word.
pub open spec fn keyword_fits(s: Seq<char>, i: int, k: Seq<char>) -> bool {
    k.len() > 0 && matches_at(s, k, i) && (i + k.len() == s.len() || is_separator(
        s[i + k.len()],
    ))
}

/// Length of the first keyword, from the `j`-th on, that stands at `i`;
/// 0 when none does.
pub open spec fn keyword_at(kws: Seq<Seq<char>>, s: Seq<char>, i: int, j: int) -> nat
    decreases kws.len() - j,
{
    if j < 0 || j >= kws.len() {
        0
    } else if keyword_fits(s, i, kws[j]) {
        kws[j].len()
    } else {
        keyword_at(kws, s, i, j + 1)
    }
}

pub open spec fn words(v: Seq<Vec<char>>) -> Seq<Seq<char>> {
    v.map_values(|k: Vec<char>| k@)
}

pub open spec fn lead(t: HighlightType, n: nat, rest: (Seq<HighlightType>, bool)) -> (
    Seq<HighlightType>,
    bool,
) {
    (Seq::new(n, |k: int| t) + rest.0, rest.1)
}

/// Classes of the characters of `s` from `i` on, when the scanner stands in
/// mode `m` at `i`; and whether the line ends inside a block comment.
pub open spec fn scan(o: HighlightingOptions, s: Seq<char>, i: int, m: ScanMode) -> (
    Seq<HighlightType>,
    bool,
)
    decreases s.len() - i via scan_decreases
{
    if i < 0 || i >= s.len() {
        (seq![], m == ScanMode::Block)
    } else {
        match m {
            ScanMode::Block => {
                if pair_at(s, i, '*', '/') {
                    lead(HighlightType::MultilineComment, 2, scan(o, s, i + 2, ScanMode::Code))
                } else {
                    lead(HighlightType::MultilineComment, 1, scan(o, s, i + 1, ScanMode::Block))
                }
            },
            ScanMode::Quoted => {
                if s[i] == '\\' && i + 1 < s.len() {
                    lead(HighlightType::StringLiteral, 2, scan(o, s, i + 2, ScanMode::Quoted))
                } else if s[i] == '"' {
                    lead(HighlightType::StringLiteral, 1, scan(o, s, i + 1, ScanMode::Code))
                } else {
                    lead(HighlightType::StringLiteral, 1, scan(o, s, i + 1, ScanMode::Quoted))
                }
            },
            ScanMode::Code => {
                if o.multiline_comments && pair_at(s, i, '/', '*') {
                    lead(HighlightType::MultilineComment, 2, scan(o, s, i + 2, ScanMode::Block))
                } else if o.comments && pair_at(s, i, '/', '/') {
                    (Seq::new((s.len() - i) as nat, |k: int| HighlightType::Comment), false)
                } else if o.strings && s[i] == '"' {
                    lead(HighlightType::StringLiteral, 1, scan(o, s, i + 1, ScanMode::Quoted))
                } else if o.numbers && is_digit(s[i]) && at_word_start(s, i) {
                    let n = number_run(s, i);
                    lead(HighlightType::Number, n, scan(o, s, i + n, ScanMode::Code))
                } else if at_word_start(s, i) && keyword_at(words(o.primary_keywords@), s, i, 0)
                    > 0 {
                    let n = keyword_at(words(o.primary_keywords@), s, i, 0);
                    lead(HighlightType::PrimaryKeywords, n, scan(o, s, i + n, ScanMode::Code))
                } else if at_word_start(s, i) && keyword_at(
                    words(o.secondary_keywords@),
                    s,
                    i,
                    0,
                ) > 0 {
                    let n = keyword_at(words(o.secondary_keywords@), s, i, 0);
                    lead(HighlightType::SecondaryKeywords, n, scan(o, s, i + n, ScanMode::Code))
                } else {
                    lead(HighlightType::Plain, 1, scan(o, s, i + 1, ScanMode::Code))
                }
            },
        }
    }
}

pub proof fn lemma_number_run_bound(s: Seq<char>, i: int)
    requires
        0 <= i <= s.len(),
    ensures
        i + number_run(s, i) <= s.len(),
        i < s.len() && is_digit(s[i]) ==> number_run(s, i) >= 1,
    decreases s.len() - i,
{
    if i < s.len() && (is_digit(s[i]) || s[i] == '.') {
        lemma_number_run_bound(s, i + 1);
    }
}

pub proof fn lemma_keyword_bound(kws: Seq<Seq<char>>, s: Seq<char>, i: int, j: int)
    ensures
        keyword_at(kws, s, i, j) > 0 ==> i + keyword_at(kws, s, i, j) <= s.len(),
    decreases kws.len() - j,
{
    if 0 <= j < kws.len() && !keyword_fits(s, i, kws[j]) {
        lemma_keyword_bound(kws, s, i, j + 1);
    }
}

/// The scanner gives one class per character.
pub proof fn lemma_scan_len(o: HighlightingOptions, s: Seq<char>, i: int, m: ScanMode)
    requires
        0 <= i <= s.len(),
    ensures
        scan(o, s, i, m).0.len() == s.len() - i,
    decreases s.len() - i,
{
    if i < s.len() {
        lemma_number_run_bound(s, i);
        lemma_keyword_bound(words(o.primary_keywords@), s, i, 0);
        lemma_keyword_bound(words(o.secondary_keywords@), s, i, 0);
        match m {
            ScanMode::Block => {
                if pair_at(s, i, '*', '/') {
                    lemma_scan_len(o, s, i + 2, ScanMode::Code);
                } else {
                    lemma_scan_len(o, s, i + 1, ScanMode::Block);
                }
            },
            ScanMode::Quoted => {
                if s[i] == '\\' && i + 1 < s.len() {
                    lemma_scan_len(o, s, i + 2, ScanMode::Quoted);
                } else if s[i] == '"' {
                    lemma_scan_len(o, s, i + 1, ScanMode::Code);
                } else {
                    lemma_scan_len(o, s, i + 1, ScanMode::Quoted);
                }
            },
            ScanMode::Code => {
                let n1 = number_run(s, i);
                let n2 = keyword_at(words(o.primary_keywords@), s, i, 0);
                let n3 = keyword_at(words(o.secondary_keywords@), s, i, 0);
                if o.multiline_comments && pair_at(s, i, '/', '*') {
                    lemma_scan_len(o, s, i + 2, ScanMode::Block);
                } else if o.comments && pair_at(s, i, '/', '/') {
                } else if o.strings && s[i] == '"' {
                    lemma_scan_len(o, s, i + 1, ScanMode::Quoted);
                } else if o.numbers && is_digit(s[i]) && at_word_start(s, i) {
                    lemma_scan_len(o, s, i + n1, ScanMode::Code);
                } else if at_word_start(s, i) && n2 > 0 {
                    lemma_scan_len(o, s, i + n2, ScanMode::Code);
                } else if at_word_start(s, i) && n3 > 0 {
                    lemma_scan_len(o, s, i + n3, ScanMode::Code);
                } else {
                    lemma_scan_len(o, s, i + 1, ScanMode::Code);
                }
            },
        }
    }
}

#[via_fn]
proof fn scan_decreases(o: HighlightingOptions, s: Seq<char>, i: int, m: ScanMode) {
    if 0 <= i < s.len() {
        lemma_number_run_bound(s, i);
        lemma_keyword_bound(words(o.primary_keywords@), s, i, 0);
        lemma_keyword_bound(words(o.secondary_keywords@), s, i, 0);
    }
}

pub open spec fn start_mode(carry_in: bool) -> ScanMode {
    if carry_in {
        ScanMode::Block
    } else {
        ScanMode::Code
    }
}

/// The occurrence of `w` at `p` spans index `j`.
pub open spec fn covers(s: Seq<char>, w: Seq<char>, p: int, j: int) -> bool {
    p <= j < p + w.len() && matches_at(s, w, p)
}

/// Some occurrence of `w` that starts before `bound` spans index `j`.
pub open spec fn covered(s: Seq<char>, w: Seq<char>, j: int, bound: int) -> bool {
    exists|p: int| 0 <= p < bound && #[trigger] covers(s, w, p, j)
}

/// `base` with every character inside an occurrence of the search word set
/// to `Match`.
pub open spec fn overlay(base: Seq<HighlightType>, s: Seq<char>, w: Option<Seq<char>>) -> Seq<
    HighlightType,
> {
    Seq::new(
        base.len(),
        |j: int|
            if w is Some && w->0.len() > 0 && covered(s, w->0, j, s.len() as int) {
                HighlightType::Match
            } else {
                base[j]
            },
    )
}

pub open spec fn word_view(w: Option<Vec<char>>) -> Option<Seq<char>> {
    match w {
        Some(v) => Some(v@),
        None => None,
    }
}

/// The classes of a whole line that starts inside a block comment when
/// `carry_in` holds, with the search word marked.
pub open spec fn line_classes(
    o: HighlightingOptions,
    s: Seq<char>,
    w: Option<Seq<char>>,
    carry_in: bool,
) -> Seq<HighlightType> {
    overlay(scan(o, s, 0, start_mode(carry_in)).0, s, w)
}

/// Whether a line that starts so ends inside a block comment.
pub open spec fn line_carry(o: HighlightingOptions, s: Seq<char>, carry_in: bool) -> bool {
    scan(o, s, 0, start_mode(carry_in)).1
}

fn is_separator_char(c: char) -> (r: bool)
    ensures
        r == is_separator(c),
{
    !(('a' <= c && c <= 'z') || ('A' <= c && c <= 'Z') || ('0' <= c && c <= '9') || c == '_')
}

fn at_word_start_exec(s: &Vec<char>, i: usize) -> (r: bool)
    requires
        i < s@.len(),
    ensures
        r == at_word_start(s@, i as int),
{
    i == 0 || is_separator_char(s[i - 1])
}

fn pair_at_exec(s: &Vec<char>, i: usize, a: char, b: char) -> (r: bool)
    requires
        i < s@.len(),
    ensures
        r == pair_at(s@, i as int, a, b),
{
    i < s.len() - 1 && s[i] == a && s[i + 1] == b
}

fn number_len(s: &Vec<char>, i: usize) -> (r: usize)
    requires
        i <= s@.len(),
    ensures
        r == number_run(s@, i as int),
        i + r <= s@.len(),
{
    let mut k: usize = i;
    while k < s.len() && (('0' <= s[k] && s[k] <= '9') || s[k] == '.')
        invariant
            i <= k <= s@.len(),
            number_run(s@, i as int) == (k - i) + number_run(s@, k as int),
        decreases s@.len() - k,
    {
        k += 1;
    }
    k - i
}

fn keyword_len(kws: &Vec<Vec<char>>, s: &Vec<char>, i: usize) -> (r: usize)
    requires
        i < s@.len(),
    ensures
        r == keyword_at(words(kws@), s@, i as int, 0),
        i + r <= s@.len(),
{
    let mut j: usize = 0;
    while j < kws.len()
        invariant
            j <= kws@.len(),
            i < s@.len(),
            keyword_at(words(kws@), s@, i as int, 0) == keyword_at(
                words(kws@),
                s@,
                i as int,
                j as int,
            ),
        decreases kws@.len() - j,
    {
        let k = &kws[j];
        let n = k.len();
        assert(words(kws@)[j as int] == k@);
        if n > 0 && n <= s.len() - i && match_here(s, k, i) && (i + n == s.len()
            || is_separator_char(s[i + n])) {
            return n;
        }
        j += 1;
    }
    0
}

fn push_n(out: &mut Vec<HighlightType>, t: HighlightType, n: usize)
    ensures
        final(out)@ == old(out)@ + Seq::new(n as nat, |k: int| t),
{
    let mut k: usize = 0;
    while k < n
        invariant
            k <= n,
            out@ == old(out)@ + Seq::new(k as nat, |x: int| t),
        decreases n - k,
    {
        out.push(t);
        k += 1;
        assert(out@ =~= old(out)@ + Seq::new(k as nat, |x: int| t));
    }
}

/// Classifies every character of `s`, starting inside a block comment when
/// `carry_in` holds; also says whether the line ends inside one.
pub fn classify(o: &HighlightingOptions, s: &Vec<char>, carry_in: bool) -> (r: (
    Vec<HighlightType>,
    bool,
))
    ensures
        r.0@ == scan(*o, s@, 0, start_mode(carry_in)).0,
        r.1 == scan(*o, s@, 0, start_mode(carry_in)).1,
{
    let mut out: Vec<HighlightType> = Vec::new();
    let mut i: usize = 0;
    let mut m = if carry_in {
        ScanMode::Block
    } else {
        ScanMode::Code
    };
    let len = s.len();
    while i < len
        invariant
            len == s@.len(),
            i <= len,
            scan(*o, s@, 0, start_mode(carry_in)).0 == out@ + scan(*o, s@, i as int, m).0,
            scan(*o, s@, 0, start_mode(carry_in)).1 == scan(*o, s@, i as int, m).1,
        decreases len - i,
    {
        let ghost old_out = out@;
        let ghost rest = scan(*o, s@, i as int, m);
        let t: HighlightType;
        let n: usize;
        let next: ScanMode;
        match m {
            ScanMode::Block => {
                if pair_at_exec(s, i, '*', '/') {
                    t = HighlightType::MultilineComment;
                    n = 2;
                    next = ScanMode::Code;
                } else {
                    t = HighlightType::MultilineComment;
                    n = 1;
                    next = ScanMode::Block;
                }
            },
            ScanMode::Quoted => {
                if s[i] == '\\' && i + 1 < len {
                    t = HighlightType::StringLiteral;
                    n = 2;
                    next = ScanMode::Quoted;
                } else if s[i] == '"' {
                    t = HighlightType::StringLiteral;
                    n = 1;
                    next = ScanMode::Code;
                } else {
                    t = HighlightType::StringLiteral;
                    n = 1;
                    next = ScanMode::Quoted;
                }
            },
            ScanMode::Code => {
                if o.multiline_comments && pair_at_exec(s, i, '/', '*') {
                    t = HighlightType::MultilineComment;
                    n = 2;
                    next = ScanMode::Block;
                } else if o.comments && pair_at_exec(s, i, '/', '/') {
                    push_n(&mut out, HighlightType::Comment, len - i);
                    assert(out@ =~= old_out + rest.0);
                    return (out, false);
                } else if o.strings && s[i] == '"' {
                    t = HighlightType::StringLiteral;
                    n = 1;
                    next = ScanMode::Quoted;
                } else if o.numbers && '0' <= s[i] && s[i] <= '9' && at_word_start_exec(s, i) {
                    t = HighlightType::Number;
                    n = number_len(s, i);
                    next = ScanMode::Code;
                } else {
                    let start = at_word_start_exec(s, i);
                    let p = if start {
                        keyword_len(&o.primary_keywords, s, i)
                    } else {
                        0
                    };
                    if start && p > 0 {
                        t = HighlightType::PrimaryKeywords;
                        n = p;
                        next = ScanMode::Code;
                    } else {
                        let q = if start {
                            keyword_len(&o.secondary_keywords, s, i)
                        } else {
                            0
                        };
                        if start && q > 0 {
                            t = HighlightType::SecondaryKeywords;
                            n = q;
                            next = ScanMode::Code;
                        } else {
                            t = HighlightType::Plain;
                            n = 1;
                            next = ScanMode::Code;
                        }
                    }
                }
            },
        }
        assert(rest == lead(t, n as nat, scan(*o, s@, i + n, next)));
        push_n(&mut out, t, n);
        assert(old_out + rest.0 =~= out@ + scan(*o, s@, i + n, next).0);
        i = i + n;
        m = next;
    }
    assert(out@ =~= out@ + scan(*o, s@, i as int, m).0);
    (out, m == ScanMode::Block)
}

/// Sets to `Match` the class of every character inside an occurrence of
/// `w` in `s`.
pub fn mark_matches(classes: &mut Vec<HighlightType>, s: &Vec<char>, w: &Vec<char>)
    requires
        old(classes)@.len() == s@.len(),
    ensures
        final(classes)@ == overlay(old(classes)@, s@, Some(w@)),
{
    let len = s.len();
    let wlen = w.len();
    if wlen == 0 {
        assert(classes@ =~= overlay(old(classes)@, s@, Some(w@)));
        return;
    }
    let mut p: usize = 0;
    while p < len
        invariant
            len == s@.len(),
            wlen == w@.len(),
            wlen > 0,
            p <= len,
            classes@.len() == len,
            forall|j: int|
                0 <= j < len ==> #[trigger] classes@[j] == if covered(s@, w@, j, p as int) {
                    HighlightType::Match
                } else {
                    old(classes)@[j]
                },
        decreases len - p,
    {
        if wlen <= len - p && match_here(s, w, p) {
            let ghost before = classes@;
            let mut k: usize = 0;
            while k < wlen
                invariant
                    len == s@.len(),
                    wlen == w@.len(),
                    p + wlen <= len,
                    k <= wlen,
                    classes@.len() == len,
                    forall|j: int|
                        0 <= j < len ==> #[trigger] classes@[j] == if p <= j < p + k {
                            HighlightType::Match
                        } else {
                            before[j]
                        },
                decreases wlen - k,
            {
                classes.set(p + k, HighlightType::Match);
                k += 1;
            }
            assert forall|j: int| 0 <= j < len implies #[trigger] classes@[j] == if covered(
                s@,
                w@,
                j,
                p + 1,
            ) {
                HighlightType::Match
            } else {
                old(classes)@[j]
            } by {
                if p <= j < p + wlen {
                    assert(covers(s@, w@, p as int, j));
                } else {
                    if covered(s@, w@, j, p + 1) {
                        let q = choose|q: int| 0 <= q < p + 1 && #[trigger] covers(s@, w@, q, j);
                        assert(q != p);
                        assert(covered(s@, w@, j, p as int));
                    }
                }
            }
        } else {
            assert forall|j: int| 0 <= j < len implies #[trigger] classes@[j] == if covered(
                s@,
                w@,
                j,
                p + 1,
            ) {
                HighlightType::Match
            } else {
                old(classes)@[j]
            } by {
                if covered(s@, w@, j, p + 1) {
                    let q = choose|q: int| 0 <= q < p + 1 && #[trigger] covers(s@, w@, q, j);
                    assert(q != p);
                    assert(covered(s@, w@, j, p as int));
                }
            }
        }
        p += 1;
    }
    assert(classes@ =~= overlay(old(classes)@, s@, Some(w@)));
}

} // verus!
