use vstd::prelude::*;
use vstd::string::*;
use crate::row::chars_of;

verus! {

/// The lexical rules that the highlighter applies to a kind of file.
pub struct HighlightingOptions {
    pub numbers: bool,
    pub strings: bool,
    pub comments: bool,
    pub multiline_comments: bool,
    pub primary_keywords: Vec<Vec<char>>,
    pub secondary_keywords: Vec<Vec<char>>,
}

impl HighlightingOptions {
    /// No rules at all: every character stays plain.
    pub fn plain() -> (r: HighlightingOptions)
        ensures
            !r.numbers && !r.strings && !r.comments && !r.multiline_comments,
            r.primary_keywords@.len() == 0,
            r.secondary_keywords@.len() == 0,
    {
        HighlightingOptions {
            numbers: false,
            strings: false,
            comments: false,
            multiline_comments: false,
            primary_keywords: Vec::new(),
            secondary_keywords: Vec::new(),
        }
    }
}

/// The name of `file_name` ends in `.rs`.
pub open spec fn is_rust_name(file_name: Seq<char>) -> bool {
    file_name.len() >= 3 && file_name.subrange(file_name.len() - 3, file_name.len() as int)
        == seq!['.', 'r', 's']
}

/// Every rule of the highlighter is on.
pub open spec fn full_rules(o: HighlightingOptions) -> bool {
    o.numbers && o.strings && o.comments && o.multiline_comments && o.primary_keywords@.len() > 0
        && o.secondary_keywords@.len() > 0
}

/// No rule of the highlighter is on.
pub open spec fn no_rules(o: HighlightingOptions) -> bool {
    !o.numbers && !o.strings && !o.comments && !o.multiline_comments
        && o.primary_keywords@.len() == 0 && o.secondary_keywords@.len() == 0
}

/// The display name of the kind that a file name gives.
pub open spec fn kind_name(file_name: Seq<char>) -> Seq<char> {
    if is_rust_name(file_name) {
        "Rust"@
    } else {
        "No filetype"@
    }
}

/// A kind of file: a display name and the highlighting rules for it.
pub struct FileType {
    pub name: String,
    pub hl_opts: HighlightingOptions,
}

fn word_list(list: &[&str]) -> (r: Vec<Vec<char>>)
    ensures
        r@.len() == list@.len(),
        forall|i: int| 0 <= i < list@.len() ==> (#[trigger] r@[i])@ == list@[i]@,
{
    let mut out: Vec<Vec<char>> = Vec::new();
    let mut i: usize = 0;
    while i < list.len()
        invariant
            i <= list@.len(),
            out@.len() == i,
            forall|j: int| 0 <= j < i ==> (#[trigger] out@[j])@ == list@[j]@,
        decreases list@.len() - i,
    {
        out.push(chars_of(list[i]));
        i += 1;
    }
    out
}

impl FileType {
    /// The kind of a file that has no known extension.
    pub fn default() -> (r: FileType)
        ensures
            r.name@ == "No filetype"@,
            no_rules(r.hl_opts),
    {
        FileType { name: String::from_str("No filetype"), hl_opts: HighlightingOptions::plain() }
    }

    /// This is the kind that `file_name` gives: its name, and either every
    /// highlighting rule (Rust) or none.
    pub open spec fn kind_of(&self, file_name: Seq<char>) -> bool {
        &&& self.name@ == kind_name(file_name)
        &&& is_rust_name(file_name) ==> full_rules(self.hl_opts)
        &&& !is_rust_name(file_name) ==> no_rules(self.hl_opts)
    }

    pub open spec fn options(&self) -> HighlightingOptions {
        self.hl_opts
    }

    /// The kind of file that `file_name` names, by its extension.
    pub fn from(file_name: &str) -> (r: FileType)
        ensures
            r.kind_of(file_name@),
    {
        let n = file_name.unicode_len();
        if n >= 3 && file_name.get_char(n - 3) == '.' && file_name.get_char(n - 2) == 'r'
            && file_name.get_char(n - 1) == 's' {
            assert(file_name@.subrange(n - 3, n as int) =~= seq!['.', 'r', 's']);
            let primary = word_list(
                &[
                    "as",
                    "break",
                    "const",
                    "continue",
                    "crate",
                    "else",
                    "enum",
                    "false",
                    "fn",
                    "for",
                    "if",
                    "impl",
                    "in",
                    "let",
                    "loop",
                    "match",
                    "mod",
                    "move",
                    "mut",
                    "pub",
                    "ref",
                    "return",
                    "self",
                    "Self",
                    "struct",
                    "super",
                    "trait",
                    "true",
                    "type",
                    "use",
                    "where",
                    "while",
                    "dyn",
                    "async",
                    "await",
                ],
            );
            let secondary = word_list(
                &[
                    "bool",
                    "char",
                    "i8",
                    "i16",
                    "i32",
                    "i64",
                    "isize",
                    "u8",
                    "u16",
                    "u32",
                    "u64",
                    "usize",
                    "String",
                    "Vec",
                    "Option",
                ],
            );
            FileType {
                name: String::from_str("Rust"),
                hl_opts: HighlightingOptions {
                    numbers: true,
                    strings: true,
                    comments: true,
                    multiline_comments: true,
                    primary_keywords: primary,
                    secondary_keywords: secondary,
                },
            }
        } else {
            proof {
                if n >= 3 {
                    assert(file_name@.subrange(n - 3, n as int)[0] == file_name@[n - 3]);
                    assert(file_name@.subrange(n - 3, n as int)[1] == file_name@[n - 2]);
                    assert(file_name@.subrange(n - 3, n as int)[2] == file_name@[n - 1]);
                }
            }
            FileType::default()
        }
    }

    /// The display name of this kind.
    pub fn name(&self) -> (r: String)
        ensures
            r@ == self.name@,
    {
        self.name.clone()
    }

    /// The highlighting rules of this kind.
    pub fn highlighting_options(&self) -> (r: &HighlightingOptions)
        ensures
            *r == self.options(),
    {
        &self.hl_opts
    }
}

} // verus!
