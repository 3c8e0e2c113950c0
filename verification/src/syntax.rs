//! Syntax highlighting merged into styled text: the capture names that the highlighter is
//! configured with, their styles, the flattening of a text into one string for the
//! highlighter, and the rebuilding of the text with the highlighted ranges.
//!
//! The highlighting itself is done by tree-sitter-highlight with the grammars of
//! tree-sitter-rust, tree-sitter-c, tree-sitter-cpp, tree-sitter-zig and tree-sitter-odin.

use vstd::prelude::*;
use tree_sitter::Language;
use tree_sitter_highlight::HighlightConfiguration;
use tree_sitter_highlight::HighlightEvent;
use vstd::string::*;
use vstd::utf8::*;
use crate::common_ui::Style;
use crate::common_ui::default_style;
use crate::settings::Palette;
use crate::styled_text::StyledText;
use crate::styled_text::TextModel;
use crate::utf8_text::utf8;
use crate::utf8_text::substr;
use crate::utf8_text::lemma_ascii_boundaries;
use crate::keys::str_eq;

verus! {

broadcast use vstd::utf8::group_utf8_lib;

/// The capture names of the highlights queries. The highlighter reports the `n`-th name it
/// was configured with as highlight `n`, so the order here is the order of `highlight_names`.
#[derive(Copy, Clone, PartialEq, Eq, Structural, Debug)]
pub enum HighlightKind {
    Attribute,
    Boolean,
    Comment,
    CommentDocumentation,
    Constant,
    ConstantBuiltin,
    Constructor,
    Escape,
    Function,
    FunctionBuiltin,
    Keyword,
    Module,
    Number,
    Operator,
    Property,
    PropertyBuiltin,
    Punctuation,
    PunctuationBracket,
    PunctuationDelimiter,
    PunctuationSpecial,
    String,
    StringEscape,
    StringSpecial,
    Tag,
    Type,
    TypeBuiltin,
    Variable,
    VariableBuiltin,
    VariableMember,
    VariableParameter,
    /// Not a kind: the number of kinds.
    Count,
}

/// Every kind, in order.
pub open spec fn all_kinds() -> Seq<HighlightKind> {
    seq![
        HighlightKind::Attribute,
        HighlightKind::Boolean,
        HighlightKind::Comment,
        HighlightKind::CommentDocumentation,
        HighlightKind::Constant,
        HighlightKind::ConstantBuiltin,
        HighlightKind::Constructor,
        HighlightKind::Escape,
        HighlightKind::Function,
        HighlightKind::FunctionBuiltin,
        HighlightKind::Keyword,
        HighlightKind::Module,
        HighlightKind::Number,
        HighlightKind::Operator,
        HighlightKind::Property,
        HighlightKind::PropertyBuiltin,
        HighlightKind::Punctuation,
        HighlightKind::PunctuationBracket,
        HighlightKind::PunctuationDelimiter,
        HighlightKind::PunctuationSpecial,
        HighlightKind::String,
        HighlightKind::StringEscape,
        HighlightKind::StringSpecial,
        HighlightKind::Tag,
        HighlightKind::Type,
        HighlightKind::TypeBuiltin,
        HighlightKind::Variable,
        HighlightKind::VariableBuiltin,
        HighlightKind::VariableMember,
        HighlightKind::VariableParameter,
    ]
}

/// The number of kinds.
pub open spec fn num_kinds() -> nat {
    30
}

/// The capture name of a kind.
pub open spec fn kind_name(k: HighlightKind) -> Seq<char> {
    match k {
        HighlightKind::Attribute => "attribute"@,
        HighlightKind::Boolean => "boolean"@,
        HighlightKind::Comment => "comment"@,
        HighlightKind::CommentDocumentation => "comment.documentation"@,
        HighlightKind::Constant => "constant"@,
        HighlightKind::ConstantBuiltin => "constant.builtin"@,
        HighlightKind::Constructor => "constructor"@,
        HighlightKind::Escape => "escape"@,
        HighlightKind::Function => "function"@,
        HighlightKind::FunctionBuiltin => "function.builtin"@,
        HighlightKind::Keyword => "keyword"@,
        HighlightKind::Module => "module"@,
        HighlightKind::Number => "number"@,
        HighlightKind::Operator => "operator"@,
        HighlightKind::Property => "property"@,
        HighlightKind::PropertyBuiltin => "property.builtin"@,
        HighlightKind::Punctuation => "punctuation"@,
        HighlightKind::PunctuationBracket => "punctuation.bracket"@,
        HighlightKind::PunctuationDelimiter => "punctuation.delimiter"@,
        HighlightKind::PunctuationSpecial => "punctuation.special"@,
        HighlightKind::String => "string"@,
        HighlightKind::StringEscape => "string.escape"@,
        HighlightKind::StringSpecial => "string.special"@,
        HighlightKind::Tag => "tag"@,
        HighlightKind::Type => "type"@,
        HighlightKind::TypeBuiltin => "type.builtin"@,
        HighlightKind::Variable => "variable"@,
        HighlightKind::VariableBuiltin => "variable.builtin"@,
        HighlightKind::VariableMember => "variable.member"@,
        HighlightKind::VariableParameter => "variable.parameter"@,
        HighlightKind::Count => Seq::empty(),
    }
}

/// The length of a kind's name, its first character, and its character at index 12 (a space
/// where the name is shorter): no two kinds share these.
spec fn name_signature(k: HighlightKind) -> (int, char, char) {
    match k {
        HighlightKind::Attribute => (9, 'a', ' '),
        HighlightKind::Boolean => (7, 'b', ' '),
        HighlightKind::Comment => (7, 'c', ' '),
        HighlightKind::CommentDocumentation => (21, 'c', 'm'),
        HighlightKind::Constant => (8, 'c', ' '),
        HighlightKind::ConstantBuiltin => (16, 'c', 'l'),
        HighlightKind::Constructor => (11, 'c', ' '),
        HighlightKind::Escape => (6, 'e', ' '),
        HighlightKind::Function => (8, 'f', ' '),
        HighlightKind::FunctionBuiltin => (16, 'f', 'l'),
        HighlightKind::Keyword => (7, 'k', ' '),
        HighlightKind::Module => (6, 'm', ' '),
        HighlightKind::Number => (6, 'n', ' '),
        HighlightKind::Operator => (8, 'o', ' '),
        HighlightKind::Property => (8, 'p', ' '),
        HighlightKind::PropertyBuiltin => (16, 'p', 'l'),
        HighlightKind::Punctuation => (11, 'p', ' '),
        HighlightKind::PunctuationBracket => (19, 'p', 'b'),
        HighlightKind::PunctuationDelimiter => (21, 'p', 'd'),
        HighlightKind::PunctuationSpecial => (19, 'p', 's'),
        HighlightKind::String => (6, 's', ' '),
        HighlightKind::StringEscape => (13, 's', 'e'),
        HighlightKind::StringSpecial => (14, 's', 'a'),
        HighlightKind::Tag => (3, 't', ' '),
        HighlightKind::Type => (4, 't', ' '),
        HighlightKind::TypeBuiltin => (12, 't', ' '),
        HighlightKind::Variable => (8, 'v', ' '),
        HighlightKind::VariableBuiltin => (16, 'v', 'l'),
        HighlightKind::VariableMember => (15, 'v', 'b'),
        HighlightKind::VariableParameter => (18, 'v', 'a'),
        HighlightKind::Count => (0, ' ', ' '),
    }
}

proof fn lemma_name_signature(k: HighlightKind)
    requires
        k != HighlightKind::Count,
    ensures
        kind_name(k).len() == name_signature(k).0,
        kind_name(k)[0] == name_signature(k).1,
        kind_name(k).len() > 12 ==> kind_name(k)[12] == name_signature(k).2,
        kind_name(k).len() <= 12 ==> name_signature(k).2 == ' ',
{
    match k {
        HighlightKind::Attribute => {
            reveal_strlit("attribute");
        },
        HighlightKind::Boolean => {
            reveal_strlit("boolean");
        },
        HighlightKind::Comment => {
            reveal_strlit("comment");
        },
        HighlightKind::CommentDocumentation => {
            reveal_strlit("comment.documentation");
        },
        HighlightKind::Constant => {
            reveal_strlit("constant");
        },
        HighlightKind::ConstantBuiltin => {
            reveal_strlit("constant.builtin");
        },
        HighlightKind::Constructor => {
            reveal_strlit("constructor");
        },
        HighlightKind::Escape => {
            reveal_strlit("escape");
        },
        HighlightKind::Function => {
            reveal_strlit("function");
        },
        HighlightKind::FunctionBuiltin => {
            reveal_strlit("function.builtin");
        },
        HighlightKind::Keyword => {
            reveal_strlit("keyword");
        },
        HighlightKind::Module => {
            reveal_strlit("module");
        },
        HighlightKind::Number => {
            reveal_strlit("number");
        },
        HighlightKind::Operator => {
            reveal_strlit("operator");
        },
        HighlightKind::Property => {
            reveal_strlit("property");
        },
        HighlightKind::PropertyBuiltin => {
            reveal_strlit("property.builtin");
        },
        HighlightKind::Punctuation => {
            reveal_strlit("punctuation");
        },
        HighlightKind::PunctuationBracket => {
            reveal_strlit("punctuation.bracket");
        },
        HighlightKind::PunctuationDelimiter => {
            reveal_strlit("punctuation.delimiter");
        },
        HighlightKind::PunctuationSpecial => {
            reveal_strlit("punctuation.special");
        },
        HighlightKind::String => {
            reveal_strlit("string");
        },
        HighlightKind::StringEscape => {
            reveal_strlit("string.escape");
        },
        HighlightKind::StringSpecial => {
            reveal_strlit("string.special");
        },
        HighlightKind::Tag => {
            reveal_strlit("tag");
        },
        HighlightKind::Type => {
            reveal_strlit("type");
        },
        HighlightKind::TypeBuiltin => {
            reveal_strlit("type.builtin");
        },
        HighlightKind::Variable => {
            reveal_strlit("variable");
        },
        HighlightKind::VariableBuiltin => {
            reveal_strlit("variable.builtin");
        },
        HighlightKind::VariableMember => {
            reveal_strlit("variable.member");
        },
        HighlightKind::VariableParameter => {
            reveal_strlit("variable.parameter");
        },
        HighlightKind::Count => {},
    }
}

/// Different kinds have different names, so the highlighter's `n`-th name stands for exactly
/// one kind.
pub proof fn lemma_kind_names_differ(a: HighlightKind, b: HighlightKind)
    requires
        a != HighlightKind::Count,
        b != HighlightKind::Count,
        a != b,
    ensures
        kind_name(a) != kind_name(b),
{
    lemma_name_signature(a);
    lemma_name_signature(b);
    if kind_name(a) == kind_name(b) {
        assert(name_signature(a) == name_signature(b));
    }
}

impl HighlightKind {
    /// The capture name of the kind.
    pub fn name(self) -> (r: &'static str)
        requires
            self != HighlightKind::Count,
        ensures
            r@ == kind_name(self),
    {
        match self {
            HighlightKind::Attribute => "attribute",
            HighlightKind::Boolean => "boolean",
            HighlightKind::Comment => "comment",
            HighlightKind::CommentDocumentation => "comment.documentation",
            HighlightKind::Constant => "constant",
            HighlightKind::ConstantBuiltin => "constant.builtin",
            HighlightKind::Constructor => "constructor",
            HighlightKind::Escape => "escape",
            HighlightKind::Function => "function",
            HighlightKind::FunctionBuiltin => "function.builtin",
            HighlightKind::Keyword => "keyword",
            HighlightKind::Module => "module",
            HighlightKind::Number => "number",
            HighlightKind::Operator => "operator",
            HighlightKind::Property => "property",
            HighlightKind::PropertyBuiltin => "property.builtin",
            HighlightKind::Punctuation => "punctuation",
            HighlightKind::PunctuationBracket => "punctuation.bracket",
            HighlightKind::PunctuationDelimiter => "punctuation.delimiter",
            HighlightKind::PunctuationSpecial => "punctuation.special",
            HighlightKind::String => "string",
            HighlightKind::StringEscape => "string.escape",
            HighlightKind::StringSpecial => "string.special",
            HighlightKind::Tag => "tag",
            HighlightKind::Type => "type",
            HighlightKind::TypeBuiltin => "type.builtin",
            HighlightKind::Variable => "variable",
            HighlightKind::VariableBuiltin => "variable.builtin",
            HighlightKind::VariableMember => "variable.member",
            HighlightKind::VariableParameter => "variable.parameter",
            HighlightKind::Count => "",
        }
    }

    /// The kind at position `n` of `all_kinds`.
    pub fn from_index(n: usize) -> (r: HighlightKind)
        requires
            n < num_kinds(),
        ensures
            r == all_kinds()[n as int],
    {
        match n {
            0 => HighlightKind::Attribute,
            1 => HighlightKind::Boolean,
            2 => HighlightKind::Comment,
            3 => HighlightKind::CommentDocumentation,
            4 => HighlightKind::Constant,
            5 => HighlightKind::ConstantBuiltin,
            6 => HighlightKind::Constructor,
            7 => HighlightKind::Escape,
            8 => HighlightKind::Function,
            9 => HighlightKind::FunctionBuiltin,
            10 => HighlightKind::Keyword,
            11 => HighlightKind::Module,
            12 => HighlightKind::Number,
            13 => HighlightKind::Operator,
            14 => HighlightKind::Property,
            15 => HighlightKind::PropertyBuiltin,
            16 => HighlightKind::Punctuation,
            17 => HighlightKind::PunctuationBracket,
            18 => HighlightKind::PunctuationDelimiter,
            19 => HighlightKind::PunctuationSpecial,
            20 => HighlightKind::String,
            21 => HighlightKind::StringEscape,
            22 => HighlightKind::StringSpecial,
            23 => HighlightKind::Tag,
            24 => HighlightKind::Type,
            25 => HighlightKind::TypeBuiltin,
            26 => HighlightKind::Variable,
            27 => HighlightKind::VariableBuiltin,
            28 => HighlightKind::VariableMember,
            _ => HighlightKind::VariableParameter,
        }
    }
}

/// The capture names to configure the highlighter with, in the order of `all_kinds`.
pub fn highlight_names() -> (r: Vec<&'static str>)
    ensures
        r@.len() == num_kinds(),
        forall|i: int| 0 <= i < num_kinds() ==> (#[trigger] r@[i])@ == kind_name(all_kinds()[i]),
{
    let mut r: Vec<&'static str> = Vec::new();
    let mut i: usize = 0;
    while i < 30
        invariant
            i <= num_kinds(),
            r@.len() == i,
            forall|j: int| 0 <= j < i ==> (#[trigger] r@[j])@ == kind_name(all_kinds()[j]),
        decreases 30 - i,
    {
        r.push(HighlightKind::from_index(i).name());
        i = i + 1;
    }
    r
}

/// The palette style of highlight `h` (the position of its kind in `all_kinds`); the default
/// style for a number that names no kind.
pub open spec fn highlight_style_spec(h: int, palette: Palette) -> Style {
    if h < 0 || h >= num_kinds() {
        palette.default
    } else {
        match all_kinds()[h] {
            HighlightKind::Attribute => palette.code_attribute,
            HighlightKind::Boolean | HighlightKind::Constant | HighlightKind::ConstantBuiltin => palette.code_constant,
            HighlightKind::Comment | HighlightKind::CommentDocumentation => palette.code_comment,
            HighlightKind::Constructor | HighlightKind::Tag | HighlightKind::Type | HighlightKind::TypeBuiltin => palette.code_type,
            HighlightKind::Escape | HighlightKind::StringEscape | HighlightKind::StringSpecial => palette.code_escape,
            HighlightKind::Function | HighlightKind::FunctionBuiltin => palette.code_function,
            HighlightKind::Keyword => palette.code_keyword,
            HighlightKind::Module => palette.code_module,
            HighlightKind::Number => palette.code_number,
            HighlightKind::Operator => palette.code_operator,
            HighlightKind::Property | HighlightKind::PropertyBuiltin | HighlightKind::VariableMember => palette.code_property,
            HighlightKind::Punctuation | HighlightKind::PunctuationBracket | HighlightKind::PunctuationDelimiter | HighlightKind::PunctuationSpecial => palette.code_punctuation,
            HighlightKind::String => palette.code_string,
            HighlightKind::Variable | HighlightKind::VariableBuiltin => palette.code_variable,
            HighlightKind::VariableParameter => palette.code_parameter,
            HighlightKind::Count => palette.default,
        }
    }
}

/// The palette style of highlight `h` (see `highlight_style_spec`).
pub fn highlight_style(h: usize, palette: &Palette) -> (r: Style)
    ensures
        r == highlight_style_spec(h as int, *palette),
{
    if h >= 30 {
        return palette.default;
    }
    match HighlightKind::from_index(h) {
        HighlightKind::Attribute => palette.code_attribute,
        HighlightKind::Boolean | HighlightKind::Constant | HighlightKind::ConstantBuiltin => palette.code_constant,
        HighlightKind::Comment | HighlightKind::CommentDocumentation => palette.code_comment,
        HighlightKind::Constructor | HighlightKind::Tag | HighlightKind::Type | HighlightKind::TypeBuiltin => palette.code_type,
        HighlightKind::Escape | HighlightKind::StringEscape | HighlightKind::StringSpecial => palette.code_escape,
        HighlightKind::Function | HighlightKind::FunctionBuiltin => palette.code_function,
        HighlightKind::Keyword => palette.code_keyword,
        HighlightKind::Module => palette.code_module,
        HighlightKind::Number => palette.code_number,
        HighlightKind::Operator => palette.code_operator,
        HighlightKind::Property | HighlightKind::PropertyBuiltin | HighlightKind::VariableMember => palette.code_property,
        HighlightKind::Punctuation | HighlightKind::PunctuationBracket | HighlightKind::PunctuationDelimiter | HighlightKind::PunctuationSpecial => palette.code_punctuation,
        HighlightKind::String => palette.code_string,
        HighlightKind::Variable | HighlightKind::VariableBuiltin => palette.code_variable,
        HighlightKind::VariableParameter => palette.code_parameter,
        HighlightKind::Count => palette.default,
    }
}

/// `base` with the foreground color of `syntax` and its style flags added; the background
/// (which marks things like the current statement) stays.
pub open spec fn with_syntax(base: Style, syntax: Style) -> Style {
    Style { fg: syntax.fg, bg: base.bg, modifier: crate::common_ui::Modifier { bits: base.modifier.bits | syntax.modifier.bits } }
}

pub fn style_with_syntax(base: Style, syntax: Style) -> (r: Style)
    ensures
        r == with_syntax(base, syntax),
{
    let mut base = base;
    base.fg = syntax.fg;
    base.modifier.insert(syntax.modifier);
    base
}

/// The languages with a grammar.
#[derive(Copy, Clone, PartialEq, Eq, Structural, Debug)]
pub enum SyntaxLanguage {
    Rust,
    C,
    Cpp,
    Zig,
    Odin,
}

/// ASCII letters in lower case.
pub open spec fn ascii_lower(s: Seq<char>) -> Seq<char> {
    Seq::new(s.len(), |i: int| if 'A' <= s[i] <= 'Z' { ((s[i] as u32) + 32) as char } else { s[i] })
}

/// The language of a file with extension `ext` (in any case).
pub open spec fn language_for_extension_spec(ext: Seq<char>) -> Option<SyntaxLanguage> {
    let e = ascii_lower(ext);
    if e == "rs"@ || e == "bl"@ {
        Some(SyntaxLanguage::Rust)
    } else if e == "c"@ {
        Some(SyntaxLanguage::C)
    } else if e == "cc"@ || e == "cpp"@ || e == "cxx"@ || e == "c++"@ || e == "h"@ || e == "hh"@ || e == "hpp"@ || e == "hxx"@ || e == "h++"@ {
        Some(SyntaxLanguage::Cpp)
    } else if e == "zig"@ {
        Some(SyntaxLanguage::Zig)
    } else if e == "odin"@ {
        Some(SyntaxLanguage::Odin)
    } else {
        None
    }
}

/// The language that an injection named `name` (e.g. a code block in a comment) is in.
pub open spec fn language_for_injection_spec(name: Seq<char>) -> Option<SyntaxLanguage> {
    if name == "rust"@ || name == "rs"@ {
        Some(SyntaxLanguage::Rust)
    } else if name == "c"@ {
        Some(SyntaxLanguage::C)
    } else if name == "cpp"@ || name == "c++"@ || name == "cc"@ || name == "cxx"@ {
        Some(SyntaxLanguage::Cpp)
    } else if name == "zig"@ {
        Some(SyntaxLanguage::Zig)
    } else if name == "odin"@ {
        Some(SyntaxLanguage::Odin)
    } else {
        None
    }
}

/// Whether `s` in ASCII lower case is `t`.
fn eq_ascii_lower(s: &str, t: &str) -> (r: bool)
    ensures
        r == (ascii_lower(s@) == t@),
{
    let n = s.unicode_len();
    if n != t.unicode_len() {
        proof {
            assert(ascii_lower(s@).len() != t@.len());
        }
        return false;
    }
    let mut i: usize = 0;
    while i < n
        invariant
            n == s@.len(),
            n == t@.len(),
            i <= n,
            forall|j: int| 0 <= j < i ==> ascii_lower(s@)[j] == t@[j],
        decreases n - i,
    {
        let c = s.get_char(i);
        let lc = if 'A' <= c && c <= 'Z' { ((c as u32) + 32) as u8 as char } else { c };
        proof {
            if 'A' <= c <= 'Z' {
                assert(((c as u32) + 32) as u8 as char == ((c as u32) + 32) as char);
            }
        }
        if lc != t.get_char(i) {
            proof {
                assert(ascii_lower(s@)[i as int] != t@[i as int]);
            }
            return false;
        }
        i = i + 1;
    }
    proof {
        assert(ascii_lower(s@) =~= t@);
    }
    true
}

/// The language of a file with extension `ext` (see `language_for_extension_spec`).
pub fn language_for_extension(ext: &str) -> (r: Option<SyntaxLanguage>)
    ensures
        r == language_for_extension_spec(ext@),
{
    if eq_ascii_lower(ext, "rs") || eq_ascii_lower(ext, "bl") {
        Some(SyntaxLanguage::Rust)
    } else if eq_ascii_lower(ext, "c") {
        Some(SyntaxLanguage::C)
    } else if eq_ascii_lower(ext, "cc") || eq_ascii_lower(ext, "cpp") || eq_ascii_lower(ext, "cxx") || eq_ascii_lower(ext, "c++")
        || eq_ascii_lower(ext, "h") || eq_ascii_lower(ext, "hh") || eq_ascii_lower(ext, "hpp") || eq_ascii_lower(ext, "hxx")
        || eq_ascii_lower(ext, "h++") {
        Some(SyntaxLanguage::Cpp)
    } else if eq_ascii_lower(ext, "zig") {
        Some(SyntaxLanguage::Zig)
    } else if eq_ascii_lower(ext, "odin") {
        Some(SyntaxLanguage::Odin)
    } else {
        None
    }
}

/// The language of an injection named `name` (see `language_for_injection_spec`).
pub fn language_for_injection(name: &str) -> (r: Option<SyntaxLanguage>)
    ensures
        r == language_for_injection_spec(name@),
{
    if str_eq(name, "rust") || str_eq(name, "rs") {
        Some(SyntaxLanguage::Rust)
    } else if str_eq(name, "c") {
        Some(SyntaxLanguage::C)
    } else if str_eq(name, "cpp") || str_eq(name, "c++") || str_eq(name, "cc") || str_eq(name, "cxx") {
        Some(SyntaxLanguage::Cpp)
    } else if str_eq(name, "zig") {
        Some(SyntaxLanguage::Zig)
    } else if str_eq(name, "odin") {
        Some(SyntaxLanguage::Odin)
    } else {
        None
    }
}

// ---------------------------------------------------------------------------------------------
// Highlighter output.

/// What the highlighter reports, in order: a highlight starts (its number), the innermost
/// highlight ends, or a byte range of the source comes under the highlights started and not
/// ended.
#[derive(Copy, Clone, PartialEq, Eq, Structural, Debug)]
pub enum HighlightStep {
    Start(usize),
    End,
    Source(usize, usize),
}

/// The byte ranges under some highlight, each with the style of the innermost one, for the
/// steps from `i` on with highlights `active` started.
pub open spec fn ranges_from(steps: Seq<HighlightStep>, i: int, active: Seq<usize>, palette: Palette) -> Seq<(usize, usize, Style)>
    decreases steps.len() - i,
{
    if i < 0 || i >= steps.len() {
        Seq::empty()
    } else {
        match steps[i] {
            HighlightStep::Start(h) => ranges_from(steps, i + 1, active.push(h), palette),
            HighlightStep::End => ranges_from(
                steps,
                i + 1,
                if active.len() > 0 { active.drop_last() } else { active },
                palette,
            ),
            HighlightStep::Source(a, b) => if active.len() > 0 {
                seq![(a, b, highlight_style_spec(active.last() as int, palette))] + ranges_from(steps, i + 1, active, palette)
            } else {
                ranges_from(steps, i + 1, active, palette)
            },
        }
    }
}

/// The highlighted ranges of the highlighter's report (see `ranges_from`).
pub fn syntax_ranges(steps: &[HighlightStep], palette: &Palette) -> (r: Vec<(usize, usize, Style)>)
    ensures
        r@ == ranges_from(steps@, 0, Seq::empty(), *palette),
{
    let mut active: Vec<usize> = Vec::new();
    let mut r: Vec<(usize, usize, Style)> = Vec::new();
    let mut i: usize = 0;
    while i < steps.len()
        invariant
            i <= steps@.len(),
            r@ + ranges_from(steps@, i as int, active@, *palette) == ranges_from(steps@, 0, Seq::empty(), *palette),
        decreases steps@.len() - i,
    {
        let ghost r0 = r@;
        match steps[i] {
            HighlightStep::Start(h) => {
                active.push(h);
            },
            HighlightStep::End => {
                active.pop();
            },
            HighlightStep::Source(a, b) => {
                if active.len() > 0 {
                    let h = active[active.len() - 1];
                    r.push((a, b, highlight_style(h, palette)));
                    proof {
                        assert(r@ + ranges_from(steps@, i + 1, active@, *palette) =~= r0 + ranges_from(steps@, i as int, active@, *palette));
                    }
                }
            },
        }
        i = i + 1;
    }
    proof {
        assert(r@ + ranges_from(steps@, i as int, active@, *palette) =~= r@);
    }
    r
}

// ---------------------------------------------------------------------------------------------
// Flattening and rebuilding.

/// `m` with its unclosed span starting at the end of the text, so that the last closed span
/// takes in the bytes after it.
pub open spec fn extend_last_span(m: TextModel) -> TextModel {
    TextModel { spans: m.spans.update(m.spans.len() - 1, (m.bytes.len() as usize, m.spans.last().1)), ..m }
}

/// Appending lines `i` and after of `src` to `buf` as one line, with a `\n` between lines
/// that joins the span before it; `breaks` collects the positions of the `\n`s.
pub open spec fn flatten_from(buf: TextModel, breaks: Seq<usize>, src: TextModel, i: int) -> (TextModel, Seq<usize>)
    decreases src.num_lines() - i,
{
    if i < 0 || i >= src.num_lines() {
        (buf.close_line(), breaks)
    } else {
        let b1 = buf.import_spans(src, src.lines[i] as int, src.lines[i + 1] as int);
        if i + 1 < src.num_lines() {
            let b2 = b1.push_bytes(seq![10u8]);
            let b3 = if b2.num_spans() == 0 { b2.close_span(default_style()) } else { extend_last_span(b2) };
            flatten_from(b3, breaks.push(b1.bytes.len() as usize), src, i + 1)
        } else {
            flatten_from(b1, breaks, src, i + 1)
        }
    }
}

/// The empty text.
pub open spec fn empty_model() -> TextModel {
    TextModel { lines: seq![0usize], spans: seq![(0usize, default_style())], bytes: Seq::empty() }
}

/// `text` as one line, with a `\n` between its lines, and the positions of the `\n`s (see
/// `flatten_from`).
pub fn flatten(text: &StyledText) -> (r: (StyledText, Vec<usize>))
    requires
        text@.wf(),
        2 * text@.bytes.len() + text@.lines.len() <= usize::MAX,
        2 * text@.spans.len() + 2 * text@.lines.len() + 2 <= usize::MAX,
    ensures
        r.0@.wf(),
        (r.0@, r.1@) == flatten_from(empty_model(), Seq::empty(), text@, 0),
{
    let mut buf = StyledText::default();
    let mut line_breaks: Vec<usize> = Vec::new();
    let n = text.num_lines();
    let ghost src = text@;
    let mut i: usize = 0;
    proof {
        assert(buf@ =~= empty_model());
    }
    while i < n
        invariant
            src == text@,
            src.wf(),
            n == src.num_lines(),
            2 * src.bytes.len() + src.lines.len() <= usize::MAX,
            2 * src.spans.len() + 2 * src.lines.len() + 2 <= usize::MAX,
            i <= n,
            buf@.wf(),
            buf@.bytes.len() <= src.spans[src.lines[i as int] as int].0 + i,
            buf@.spans.len() <= 1 + src.lines[i as int] + 2 * i,
            buf@.lines.len() == 1,
            flatten_from(buf@, line_breaks@, src, i as int) == flatten_from(empty_model(), Seq::empty(), src, 0),
        decreases n - i,
    {
        let r = text.get_line(i);
        proof {
            assert(src.lines[i as int] <= src.lines[i + 1]);
            assert(src.lines[i + 1] < src.spans.len());
            assert(src.spans[src.lines[i as int] as int].0 <= src.spans[src.lines[i + 1] as int].0);
            assert(src.spans[src.lines[i + 1] as int].0 <= src.bytes.len());
        }
        buf.import_spans(text, r);
        if i + 1 < n {
            let ghost b1 = buf@;
            line_breaks.push(buf.byte_len());
            proof {
                reveal_strlit("\n");
                assert("\n".spec_bytes() == utf8("\n"@));
                assert(utf8("\n"@) =~= seq![10u8]) by {
                    assert("\n"@ =~= seq!['\n']);
                    assert('\n' as u32 == 10u32);
                    assert((10u32 & 0x7f) as u8 == 10u8) by (bit_vector);
                    assert(seq!['\n'].drop_first() =~= Seq::<char>::empty());
                    reveal_with_fuel(vstd::utf8::encode_utf8, 2);
                }
            }
            buf.push_str("\n");
            if buf.num_spans() == 0 {
                buf.close_span(Style::default());
            } else {
                let last = buf.spans.len() - 1;
                let st = buf.spans[last].1;
                let len = buf.byte_len();
                let ghost b2 = buf@;
                buf.spans.set(last, (len, st));
                proof {
                    is_char_boundary_start_end_of_seq(b2.bytes);
                    assert(buf@ =~= extend_last_span(b2));
                    assert forall|a: int, b: int| 0 <= a <= b < buf@.spans.len() implies #[trigger] buf@.spans[a].0 <= #[trigger] buf@.spans[b].0 by {
                        assert(b2.spans[a].0 <= b2.spans[b].0);
                        assert(b2.spans[b].0 <= b2.bytes.len());
                    }
                }
            }
        }
        i = i + 1;
    }
    let ghost before = buf@;
    buf.close_line();
    proof {
        assert(flatten_from(before, line_breaks@, src, i as int) == (buf@, line_breaks@));
    }
    (buf, line_breaks)
}

/// The first range from `i` on that ends after `pos`.
pub open spec fn skip_ranges(rs: Seq<(usize, usize, Style)>, i: int, pos: int) -> int
    decreases rs.len() - i,
{
    if 0 <= i < rs.len() && rs[i].1 <= pos {
        skip_ranges(rs, i + 1, pos)
    } else {
        i
    }
}

/// The first span entry from `i` on that starts after `pos`.
pub open spec fn skip_spans(sp: Seq<(usize, Style)>, i: int, pos: int) -> int
    decreases sp.len() - i,
{
    if 0 <= i < sp.len() && sp[i].0 <= pos {
        skip_spans(sp, i + 1, pos)
    } else {
        i
    }
}

pub open spec fn min_of(a: int, b: int) -> int {
    if a <= b { a } else { b }
}

/// The end and style of the piece of `buf` that starts at `pos`, in span entry `isp` (the
/// first that starts after `pos`), with range `ir` the first that ends after `pos` and break
/// `ib` the next one: it ends at the first of the end of the span, the break, and the start
/// or end of the range; a piece inside the range gets the range's style over the span's.
pub open spec fn piece_at(
    buf: TextModel,
    rs: Seq<(usize, usize, Style)>,
    brs: Seq<usize>,
    pos: int,
    isp: int,
    ir: int,
    ib: int,
) -> (int, Style) {
    let base = buf.spans[isp].1;
    let e0 = buf.spans[isp].0 as int;
    let e1 = if 0 <= ib < brs.len() { min_of(e0, brs[ib] as int) } else { e0 };
    if 0 <= ir < rs.len() {
        if rs[ir].0 <= pos {
            (min_of(e1, rs[ir].1 as int), with_syntax(base, rs[ir].2))
        } else {
            (min_of(e1, rs[ir].0 as int), base)
        }
    } else {
        (e1, base)
    }
}

/// Rebuilding the text from position `pos` of `buf` on: each break ends a line and is
/// dropped; the bytes between are cut into pieces (see `piece_at`), each a span.
pub open spec fn rebuild_from(
    out: TextModel,
    buf: TextModel,
    rs: Seq<(usize, usize, Style)>,
    brs: Seq<usize>,
    pos: int,
    isp: int,
    ir: int,
    ib: int,
) -> TextModel
    decreases buf.bytes.len() - pos,
{
    if pos < 0 || pos >= buf.bytes.len() {
        out.close_line()
    } else if 0 <= ib < brs.len() && brs[ib] == pos {
        rebuild_from(out.close_line(), buf, rs, brs, pos + 1, isp, ir, ib + 1)
    } else {
        let ir2 = skip_ranges(rs, ir, pos);
        let isp2 = skip_spans(buf.spans, isp, pos);
        let (e, st) = piece_at(buf, rs, brs, pos, isp2, ir2, ib);
        if e <= pos || e > buf.bytes.len() {
            out.close_line()
        } else {
            rebuild_from(out.push_bytes(buf.bytes.subrange(pos, e)).close_span(st), buf, rs, brs, e, isp2, ir2, ib)
        }
    }
}

/// The flattened text `buf` (all of it in closed spans) can be rebuilt with ranges `rs` and
/// breaks `brs`: the breaks increase and are `\n` bytes, and the ends of the ranges that lie
/// inside the text are character boundaries.
pub open spec fn rebuild_ok(buf: TextModel, rs: Seq<(usize, usize, Style)>, brs: Seq<usize>) -> bool {
    &&& buf.wf()
    &&& buf.spans.last().0 == buf.bytes.len()
    &&& buf.bytes.len() + 2 <= usize::MAX
    &&& forall|a: int, b: int| 0 <= a < b < brs.len() ==> brs[a] < brs[b]
    &&& forall|k: int| 0 <= k < brs.len() ==> brs[k] < buf.bytes.len() && buf.bytes[brs[k] as int] == 10u8
    &&& forall|k: int| 0 <= k < rs.len() ==> (rs[k].0 <= buf.bytes.len() ==> is_char_boundary(buf.bytes, rs[k].0 as int))
        && (rs[k].1 <= buf.bytes.len() ==> is_char_boundary(buf.bytes, rs[k].1 as int))
}

/// The text of `buf` split into lines at `line_breaks` (the breaks dropped) and cut into spans
/// with the styles of `syntax_ranges` merged in (see `rebuild_from`).
pub fn rebuild(buf: &StyledText, syntax_ranges: &[(usize, usize, Style)], line_breaks: &[usize]) -> (r: StyledText)
    requires
        rebuild_ok(buf@, syntax_ranges@, line_breaks@),
    ensures
        r@.wf(),
        r@ == rebuild_from(empty_model(), buf@, syntax_ranges@, line_breaks@, 0, 1, 0, 0),
{
    let ghost b = buf@;
    let ghost rs = syntax_ranges@;
    let ghost brs = line_breaks@;
    let mut out = StyledText::default();
    proof {
        assert(out@ =~= empty_model());
        is_char_boundary_start_end_of_seq(b.bytes);
    }
    let total = buf.byte_len();
    let mut pos: usize = 0;
    let mut i_span: usize = 1;
    let mut i_range: usize = 0;
    let mut i_break: usize = 0;
    while pos < total
        invariant
            b == buf@,
            rs == syntax_ranges@,
            brs == line_breaks@,
            rebuild_ok(b, rs, brs),
            total == b.bytes.len(),
            pos <= total,
            out@.wf(),
            out@.spans.len() <= 1 + pos,
            out@.lines.len() <= 1 + pos,
            out@.bytes.len() <= pos,
            1 <= i_span,
            i_span < b.spans.len() || total == 0,
            i_range <= rs.len(),
            i_break <= brs.len(),
            i_break < brs.len() ==> brs[i_break as int] >= pos,
            is_char_boundary(b.bytes, pos as int),
            valid_utf8(b.bytes),
            rebuild_from(out@, b, rs, brs, pos as int, i_span as int, i_range as int, i_break as int)
                == rebuild_from(empty_model(), b, rs, brs, 0, 1, 0, 0),
        decreases total - pos,
    {
        if i_break < line_breaks.len() && line_breaks[i_break] == pos {
            proof {
                lemma_ascii_boundaries(b.bytes, pos as int);
            }
            out.close_line();
            pos = pos + 1;
            i_break = i_break + 1;
            proof {
                if i_break < brs.len() {
                    assert(brs[i_break - 1] < brs[i_break as int]);
                }
            }
            continue;
        }
        let ghost ir0 = i_range as int;
        while i_range < syntax_ranges.len() && syntax_ranges[i_range].1 <= pos
            invariant
                rs == syntax_ranges@,
                ir0 <= i_range <= rs.len(),
                skip_ranges(rs, ir0, pos as int) == skip_ranges(rs, i_range as int, pos as int),
            decreases rs.len() - i_range,
        {
            i_range = i_range + 1;
        }
        let ghost isp0 = i_span as int;
        while buf.spans[i_span].0 <= pos
            invariant
                b == buf@,
                b.wf(),
                b.spans.last().0 == b.bytes.len(),
                pos < b.bytes.len(),
                isp0 <= i_span < b.spans.len(),
                skip_spans(b.spans, isp0, pos as int) == skip_spans(b.spans, i_span as int, pos as int),
            decreases b.spans.len() - i_span,
        {
            proof {
                if i_span + 1 >= b.spans.len() {
                    assert(b.spans[i_span as int] == b.spans.last());
                }
            }
            i_span = i_span + 1;
        }
        let base_style = buf.spans[i_span].1;
        let mut end = buf.spans[i_span].0;
        let mut style = base_style;
        if i_break < line_breaks.len() && line_breaks[i_break] < end {
            end = line_breaks[i_break];
        }
        if i_range < syntax_ranges.len() {
            let (rstart, rend, rstyle) = syntax_ranges[i_range];
            if rstart <= pos {
                if rend < end {
                    end = rend;
                }
                style = style_with_syntax(base_style, rstyle);
            } else {
                if rstart < end {
                    end = rstart;
                }
            }
        }
        proof {
            let (e, st) = piece_at(b, rs, brs, pos as int, i_span as int, i_range as int, i_break as int);
            assert(end == e && style == st);
            assert(end > pos);
            assert(end <= b.spans[i_span as int].0);
            assert(end <= b.bytes.len());
            assert(b.spans[i_span as int].0 <= b.bytes.len());
            if i_break < brs.len() && end == brs[i_break as int] {
                lemma_ascii_boundaries(b.bytes, end as int);
            }
            assert(is_char_boundary(b.bytes, end as int));
        }
        let piece = substr(buf.chars.as_str(), pos, end);
        out.push_str(piece);
        out.close_span(style);
        pos = end;
    }
    let ghost before = out@;
    out.close_line();
    proof {
        assert(rebuild_from(before, b, rs, brs, pos as int, i_span as int, i_range as int, i_break as int) == out@);
    }
    out
}


/// The bytes of `b` from `pos` on, with the line breaks `brs` from index `ib` on left out.
pub open spec fn strip_breaks(b: Seq<u8>, brs: Seq<usize>, pos: int, ib: int) -> Seq<u8>
    decreases b.len() - pos,
{
    if pos < 0 || pos >= b.len() {
        Seq::empty()
    } else if 0 <= ib < brs.len() && brs[ib] == pos {
        strip_breaks(b, brs, pos + 1, ib + 1)
    } else {
        seq![b[pos]] + strip_breaks(b, brs, pos + 1, ib)
    }
}

proof fn lemma_strip_piece(b: Seq<u8>, brs: Seq<usize>, pos: int, e: int, ib: int)
    requires
        0 <= pos <= e <= b.len(),
        0 <= ib,
        ib < brs.len() ==> brs[ib] >= e,
    ensures
        strip_breaks(b, brs, pos, ib) == b.subrange(pos, e) + strip_breaks(b, brs, e, ib),
    decreases e - pos,
{
    if pos < e {
        lemma_strip_piece(b, brs, pos + 1, e, ib);
        assert(b.subrange(pos, e) =~= seq![b[pos]] + b.subrange(pos + 1, e));
    } else {
        assert(b.subrange(pos, e) =~= Seq::<u8>::empty());
    }
}

proof fn lemma_skip_spans(sp: Seq<(usize, Style)>, i: int, pos: int)
    requires
        0 <= i < sp.len(),
        sp.last().0 > pos,
    ensures
        i <= skip_spans(sp, i, pos) < sp.len(),
        sp[skip_spans(sp, i, pos)].0 > pos,
        forall|j: int| i <= j < skip_spans(sp, i, pos) ==> #[trigger] sp[j].0 <= pos,
    decreases sp.len() - i,
{
    if sp[i].0 <= pos {
        if i + 1 >= sp.len() {
            assert(sp[i] == sp.last());
        } else {
            lemma_skip_spans(sp, i + 1, pos);
        }
    }
}

proof fn lemma_skip_ranges(rs: Seq<(usize, usize, Style)>, i: int, pos: int)
    requires
        0 <= i <= rs.len(),
    ensures
        i <= skip_ranges(rs, i, pos) <= rs.len(),
        skip_ranges(rs, i, pos) < rs.len() ==> rs[skip_ranges(rs, i, pos)].1 > pos,
        forall|j: int| i <= j < skip_ranges(rs, i, pos) ==> #[trigger] rs[j].1 <= pos,
    decreases rs.len() - i,
{
    if i < rs.len() && rs[i].1 <= pos {
        lemma_skip_ranges(rs, i + 1, pos);
    }
}

proof fn lemma_rebuild_from_text(
    out: TextModel,
    buf: TextModel,
    rs: Seq<(usize, usize, Style)>,
    brs: Seq<usize>,
    pos: int,
    isp: int,
    ir: int,
    ib: int,
)
    requires
        rebuild_ok(buf, rs, brs),
        0 <= pos <= buf.bytes.len(),
        1 <= isp,
        isp < buf.spans.len() || buf.bytes.len() == 0,
        0 <= ir <= rs.len(),
        0 <= ib <= brs.len(),
        ib < brs.len() ==> brs[ib] >= pos,
    ensures
        rebuild_from(out, buf, rs, brs, pos, isp, ir, ib).bytes == out.bytes + strip_breaks(
            buf.bytes,
            brs,
            pos,
            ib,
        ),
        rebuild_from(out, buf, rs, brs, pos, isp, ir, ib).lines.len() == out.lines.len() + (brs.len()
            - ib) + 1,
    decreases buf.bytes.len() - pos,
{
    let len = buf.bytes.len() as int;
    if pos >= len {
        assert(out.bytes + Seq::<u8>::empty() =~= out.bytes);
        if ib < brs.len() {
            assert(brs[ib] < len);
        }
    } else if 0 <= ib < brs.len() && brs[ib] == pos {
        if ib + 1 < brs.len() {
            assert(brs[ib] < brs[ib + 1]);
        }
        lemma_rebuild_from_text(out.close_line(), buf, rs, brs, pos + 1, isp, ir, ib + 1);
    } else {
        lemma_skip_ranges(rs, ir, pos);
        lemma_skip_spans(buf.spans, isp, pos);
        let ir2 = skip_ranges(rs, ir, pos);
        let isp2 = skip_spans(buf.spans, isp, pos);
        let (e, st) = piece_at(buf, rs, brs, pos, isp2, ir2, ib);
        assert(buf.spans[isp2].0 <= len);
        assert(pos < e <= len);
        let out2 = out.push_bytes(buf.bytes.subrange(pos, e)).close_span(st);
        lemma_strip_piece(buf.bytes, brs, pos, e, ib);
        lemma_rebuild_from_text(out2, buf, rs, brs, e, isp2, ir2, ib);
        assert(out2.bytes == out.bytes + buf.bytes.subrange(pos, e));
        assert(out.bytes + buf.bytes.subrange(pos, e) + strip_breaks(buf.bytes, brs, e, ib) =~= out.bytes
            + strip_breaks(buf.bytes, brs, pos, ib));
    }
}

/// The bytes of the lines of `m` from line `i` on, with a `\n` between lines.
pub open spec fn joined_lines(m: TextModel, i: int) -> Seq<u8>
    decreases m.num_lines() - i,
{
    if i < 0 || i >= m.num_lines() {
        Seq::empty()
    } else if i + 1 < m.num_lines() {
        m.line_bytes(i) + seq![10u8] + joined_lines(m, i + 1)
    } else {
        m.line_bytes(i)
    }
}

/// The positions of the `\n`s of `joined_lines(m, i)` placed at position `p`.
pub open spec fn break_positions(m: TextModel, i: int, p: int) -> Seq<usize>
    decreases m.num_lines() - i,
{
    if i < 0 || i + 1 >= m.num_lines() {
        Seq::empty()
    } else {
        seq![(p + m.line_bytes(i).len()) as usize] + break_positions(m, i + 1, p + m.line_bytes(i).len() + 1)
    }
}

proof fn lemma_break_positions_len(m: TextModel, i: int, p: int)
    requires
        0 <= i < m.num_lines(),
    ensures
        break_positions(m, i, p).len() == m.num_lines() - i - 1,
    decreases m.num_lines() - i,
{
    if i + 1 < m.num_lines() {
        lemma_break_positions_len(m, i + 1, p + m.line_bytes(i).len() + 1);
    }
}

proof fn lemma_flatten_from_text(buf: TextModel, breaks: Seq<usize>, src: TextModel, i: int)
    requires
        0 <= i,
    ensures
        flatten_from(buf, breaks, src, i).0.bytes == buf.bytes + joined_lines(src, i),
        flatten_from(buf, breaks, src, i).1 == breaks + break_positions(src, i, buf.bytes.len() as int),
    decreases src.num_lines() - i,
{
    if i >= src.num_lines() {
        assert(buf.bytes + Seq::<u8>::empty() =~= buf.bytes);
        assert(breaks + Seq::<usize>::empty() =~= breaks);
    } else {
        let b1 = buf.import_spans(src, src.lines[i] as int, src.lines[i + 1] as int);
        let l = src.line_bytes(i);
        assert(b1.bytes == buf.bytes + l);
        if i + 1 < src.num_lines() {
            let b2 = b1.push_bytes(seq![10u8]);
            let b3 = if b2.num_spans() == 0 { b2.close_span(default_style()) } else { extend_last_span(b2) };
            assert(b3.bytes == b2.bytes);
            lemma_flatten_from_text(b3, breaks.push(b1.bytes.len() as usize), src, i + 1);
            assert(buf.bytes + l + seq![10u8] + joined_lines(src, i + 1) =~= buf.bytes + joined_lines(src, i));
            assert(breaks.push(b1.bytes.len() as usize) + break_positions(src, i + 1, b3.bytes.len() as int)
                =~= breaks + break_positions(src, i, buf.bytes.len() as int));
        } else {
            lemma_flatten_from_text(b1, breaks, src, i + 1);
            assert(b1.bytes + Seq::<u8>::empty() =~= buf.bytes + joined_lines(src, i));
            assert(breaks + Seq::<usize>::empty() =~= breaks + break_positions(src, i, buf.bytes.len() as int));
        }
    }
}

/// The bytes of `b` between line break `j - 1` (or the start) and line break `j` (or the end),
/// for line breaks `brs`.
pub open spec fn segment(b: Seq<u8>, brs: Seq<usize>, j: int) -> Seq<u8> {
    let start = if j == 0 { 0 } else { brs[j - 1] + 1 };
    let end = if j < brs.len() { brs[j] as int } else { b.len() as int };
    b.subrange(start, end)
}

/// The index arrays of a text being rebuilt: every span is closed, offsets lie in the text, and
/// line entries name existing span entries.
pub open spec fn rebuild_shape(m: TextModel) -> bool {
    &&& m.spans.len() >= 1
    &&& m.lines.len() >= 1
    &&& m.bytes.len() <= usize::MAX
    &&& m.spans.len() <= m.bytes.len() + 1
    &&& m.spans.last().0 == m.bytes.len()
    &&& forall|x: int| 0 <= x < m.spans.len() ==> #[trigger] m.spans[x].0 <= m.bytes.len()
    &&& forall|x: int, y: int| 0 <= x <= y < m.spans.len() ==> #[trigger] m.spans[x].0 <= #[trigger] m.spans[y].0
    &&& forall|y: int| 0 <= y < m.lines.len() ==> #[trigger] m.lines[y] < m.spans.len()
    &&& forall|x: int, y: int| 0 <= x <= y < m.lines.len() ==> #[trigger] m.lines[x] <= #[trigger] m.lines[y]
}

proof fn lemma_piece_keeps_lines(m: TextModel, x: Seq<u8>, st: Style)
    requires
        rebuild_shape(m),
        x.len() > 0,
        m.bytes.len() + x.len() <= usize::MAX,
    ensures
        rebuild_shape(m.push_bytes(x).close_span(st)),
        m.push_bytes(x).close_span(st).lines == m.lines,
        m.push_bytes(x).close_span(st).bytes == m.bytes + x,
        m.push_bytes(x).close_span(st).spans[m.lines.last() as int] == m.spans[m.lines.last() as int],
        forall|j: int| 0 <= j < m.num_lines() ==> #[trigger] m.push_bytes(x).close_span(st).line_bytes(j) == m.line_bytes(j),
{
    let m2 = m.push_bytes(x).close_span(st);
    assert(m.spans.last().0 != m.bytes.len() + x.len());
    assert(m2.spans == m.spans.push(((m.bytes.len() + x.len()) as usize, st)));
    assert(m.lines.last() == m.lines[m.lines.len() - 1]);
    assert forall|j: int| 0 <= j < m.num_lines() implies #[trigger] m2.line_bytes(j) == m.line_bytes(j) by {
        let a = m.spans[m.lines[j] as int].0 as int;
        let b = m.spans[m.lines[j + 1] as int].0 as int;
        assert(m2.spans[m.lines[j] as int] == m.spans[m.lines[j] as int]);
        assert(m2.spans[m.lines[j + 1] as int] == m.spans[m.lines[j + 1] as int]);
        assert(m.lines[j] <= m.lines[j + 1]);
        assert(a <= b);
        assert(m2.bytes.subrange(a, b) =~= m.bytes.subrange(a, b));
    }
}

proof fn lemma_close_line_shape(m: TextModel)
    requires
        rebuild_shape(m),
    ensures
        rebuild_shape(m.close_line()),
        m.close_line().lines.last() == m.spans.len() - 1,
        forall|j: int| 0 <= j < m.num_lines() ==> #[trigger] m.close_line().line_bytes(j) == m.line_bytes(j),
        m.close_line().line_bytes(m.num_lines()) == m.bytes.subrange(
            m.spans[m.lines.last() as int].0 as int,
            m.bytes.len() as int,
        ),
{
    let r = m.close_line();
    assert(m.lines.last() == m.lines[m.lines.len() - 1]);
    assert(m.spans.last() == m.spans[m.spans.len() - 1]);
    assert forall|x: int, y: int| 0 <= x <= y < r.lines.len() implies #[trigger] r.lines[x] <= #[trigger] r.lines[y] by {
        if y == r.lines.len() - 1 && x < y {
            assert(m.lines[x] < m.spans.len());
        }
    }
    assert forall|j: int| 0 <= j < m.num_lines() implies #[trigger] r.line_bytes(j) == m.line_bytes(j) by {
        assert(r.lines[j] == m.lines[j] && r.lines[j + 1] == m.lines[j + 1]);
    }
}

proof fn lemma_rebuild_from_lines(
    out: TextModel,
    buf: TextModel,
    rs: Seq<(usize, usize, Style)>,
    brs: Seq<usize>,
    pos: int,
    isp: int,
    ir: int,
    ib: int,
)
    requires
        rebuild_ok(buf, rs, brs),
        0 <= pos <= buf.bytes.len(),
        1 <= isp,
        isp < buf.spans.len() || buf.bytes.len() == 0,
        0 <= ir <= rs.len(),
        0 <= ib <= brs.len(),
        ib < brs.len() ==> brs[ib] >= pos,
        ib > 0 ==> brs[ib - 1] + 1 <= pos,
        rebuild_shape(out),
        out.bytes.len() <= pos,
        buf.bytes.len() <= usize::MAX,
        out.num_lines() == ib,
        forall|j: int| 0 <= j < ib ==> #[trigger] out.line_bytes(j) == segment(buf.bytes, brs, j),
        out.bytes.subrange(out.spans[out.lines.last() as int].0 as int, out.bytes.len() as int) == buf.bytes.subrange(
            if ib == 0 { 0 } else { brs[ib - 1] + 1 },
            pos,
        ),
    ensures
        rebuild_from(out, buf, rs, brs, pos, isp, ir, ib).num_lines() == brs.len() + 1,
        forall|j: int| 0 <= j <= brs.len() ==> #[trigger] rebuild_from(out, buf, rs, brs, pos, isp, ir, ib).line_bytes(j)
            == segment(buf.bytes, brs, j),
    decreases buf.bytes.len() - pos,
{
    let len = buf.bytes.len() as int;
    let u = out.spans[out.lines.last() as int].0 as int;
    assert(out.lines.last() == out.lines[out.lines.len() - 1]);
    if pos >= len {
        if ib < brs.len() {
            assert(brs[ib] < len);
        }
        let r = out.close_line();
        lemma_close_line_shape(out);
        assert(ib == brs.len());
        assert(segment(buf.bytes, brs, ib) =~= buf.bytes.subrange(if ib == 0 { 0 } else { brs[ib - 1] + 1 }, pos));
        assert forall|j: int| 0 <= j <= brs.len() implies #[trigger] r.line_bytes(j) == segment(buf.bytes, brs, j) by {
            if j < ib {
                assert(r.line_bytes(j) == out.line_bytes(j));
            }
        }
    } else if 0 <= ib < brs.len() && brs[ib] == pos {
        if ib + 1 < brs.len() {
            assert(brs[ib] < brs[ib + 1]);
        }
        let o2 = out.close_line();
        lemma_close_line_shape(out);
        assert(out.spans[out.spans.len() - 1] == out.spans.last());
        assert(segment(buf.bytes, brs, ib) =~= buf.bytes.subrange(if ib == 0 { 0 } else { brs[ib - 1] + 1 }, pos));
        assert forall|j: int| 0 <= j < ib + 1 implies #[trigger] o2.line_bytes(j) == segment(buf.bytes, brs, j) by {
            if j < ib {
                assert(o2.line_bytes(j) == out.line_bytes(j));
            }
        }
        assert(o2.bytes.subrange(o2.spans[o2.lines.last() as int].0 as int, o2.bytes.len() as int) =~= buf.bytes.subrange(
            brs[ib] + 1,
            pos + 1,
        ));
        lemma_rebuild_from_lines(o2, buf, rs, brs, pos + 1, isp, ir, ib + 1);
    } else {
        lemma_skip_ranges(rs, ir, pos);
        lemma_skip_spans(buf.spans, isp, pos);
        let ir2 = skip_ranges(rs, ir, pos);
        let isp2 = skip_spans(buf.spans, isp, pos);
        let (e, st) = piece_at(buf, rs, brs, pos, isp2, ir2, ib);
        assert(buf.spans[isp2].0 <= len);
        assert(pos < e <= len);
        let x = buf.bytes.subrange(pos, e);
        let o2 = out.push_bytes(x).close_span(st);
        lemma_piece_keeps_lines(out, x, st);
        let start = if ib == 0 { 0 } else { brs[ib - 1] + 1 };
        assert(o2.lines.last() == out.lines.last());
        assert(o2.bytes.subrange(u, o2.bytes.len() as int) =~= out.bytes.subrange(u, out.bytes.len() as int) + x);
        assert(buf.bytes.subrange(start, pos) + x =~= buf.bytes.subrange(start, e));
        lemma_rebuild_from_lines(o2, buf, rs, brs, e, isp2, ir2, ib);
    }
}

proof fn lemma_flat_segments(b: Seq<u8>, brs: Seq<usize>, src: TextModel, i: int, p: int, q: int)
    requires
        b.len() <= usize::MAX,
        0 <= i < src.num_lines(),
        0 <= p <= b.len(),
        0 <= q <= brs.len(),
        b.subrange(p, b.len() as int) == joined_lines(src, i),
        brs.subrange(q, brs.len() as int) == break_positions(src, i, p),
        q == 0 ==> p == 0,
        q > 0 ==> brs[q - 1] + 1 == p,
    ensures
        forall|t: int| 0 <= t < src.num_lines() - i ==> #[trigger] segment(b, brs, q + t) == src.line_bytes(i + t),
    decreases src.num_lines() - i,
{
    let l = src.line_bytes(i);
    let e = p + l.len();
    if i + 1 < src.num_lines() {
        assert(joined_lines(src, i) =~= l + seq![10u8] + joined_lines(src, i + 1));
        assert(e < b.len());
        assert(break_positions(src, i, p).len() > 0);
        assert(q < brs.len());
        assert(brs[q] == brs.subrange(q, brs.len() as int)[0]);
        assert(brs[q] == e);
        assert(segment(b, brs, q) =~= b.subrange(p, b.len() as int).subrange(0, l.len() as int));
        assert(b.subrange(e + 1, b.len() as int) =~= b.subrange(p, b.len() as int).subrange(l.len() + 1 as int, b.len() - p));
        assert(b.subrange(e + 1, b.len() as int) =~= joined_lines(src, i + 1));
        assert(brs.subrange(q + 1, brs.len() as int) =~= brs.subrange(q, brs.len() as int).drop_first());
        assert(brs.subrange(q + 1, brs.len() as int) =~= break_positions(src, i + 1, e + 1));
        lemma_flat_segments(b, brs, src, i + 1, e + 1, q + 1);
        assert forall|t: int| 0 <= t < src.num_lines() - i implies #[trigger] segment(b, brs, q + t) == src.line_bytes(i + t) by {
            if t > 0 {
                assert(segment(b, brs, (q + 1) + (t - 1)) == src.line_bytes((i + 1) + (t - 1)));
            }
        }
    } else {
        assert(joined_lines(src, i) == l);
        assert(b.len() == e);
        assert(brs.subrange(q, brs.len() as int).len() == 0);
        assert(segment(b, brs, q) =~= b.subrange(p, b.len() as int));
    }
}

/// Flattening a text and rebuilding it with syntax ranges (`flatten`, then `rebuild`) keeps
/// every line: the same number of lines, each with the same bytes.
pub proof fn lemma_flatten_rebuild_keeps_lines(src: TextModel, rs: Seq<(usize, usize, Style)>)
    requires
        src.num_lines() >= 1,
        rebuild_ok(
            flatten_from(empty_model(), Seq::empty(), src, 0).0,
            rs,
            flatten_from(empty_model(), Seq::empty(), src, 0).1,
        ),
    ensures
        ({
            let flat = flatten_from(empty_model(), Seq::empty(), src, 0);
            let out = rebuild_from(empty_model(), flat.0, rs, flat.1, 0, 1, 0, 0);
            &&& out.num_lines() == src.num_lines()
            &&& forall|j: int| 0 <= j < src.num_lines() ==> #[trigger] out.line_bytes(j) == src.line_bytes(j)
        }),
{
    let flat = flatten_from(empty_model(), Seq::empty(), src, 0);
    let out = rebuild_from(empty_model(), flat.0, rs, flat.1, 0, 1, 0, 0);
    lemma_flatten_from_text(empty_model(), Seq::empty(), src, 0);
    lemma_break_positions_len(src, 0, 0);
    assert(flat.0.bytes =~= joined_lines(src, 0));
    assert(flat.1 =~= break_positions(src, 0, 0));
    if flat.0.bytes.len() > 0 {
        assert(flat.0.spans[0].0 == 0);
        assert(flat.0.spans.len() >= 2);
    }
    let e = empty_model();
    assert(e.lines.last() == 0usize);
    assert(e.bytes.subrange(0, 0) =~= flat.0.bytes.subrange(0, 0));
    lemma_rebuild_from_lines(e, flat.0, rs, flat.1, 0, 1, 0, 0);
    assert(flat.0.bytes.subrange(0, flat.0.bytes.len() as int) =~= flat.0.bytes);
    assert(flat.1.subrange(0, flat.1.len() as int) =~= flat.1);
    assert(flat.0.bytes.len() <= usize::MAX);
    lemma_flat_segments(flat.0.bytes, flat.1, src, 0, 0, 0);
    assert forall|j: int| 0 <= j < src.num_lines() implies #[trigger] out.line_bytes(j) == src.line_bytes(j) by {
        assert(segment(flat.0.bytes, flat.1, 0 + j) == src.line_bytes(0 + j));
    }
}

/// The ranges are in order and do not overlap, each with its start not after its end.
pub open spec fn ranges_sorted(rs: Seq<(usize, usize, Style)>) -> bool {
    &&& forall|k: int| 0 <= k < rs.len() ==> #[trigger] rs[k].0 <= rs[k].1
    &&& forall|a: int, b: int| 0 <= a < b < rs.len() ==> #[trigger] rs[a].1 <= #[trigger] rs[b].0
}

/// The style of the span of `m` that holds byte `q`.
pub open spec fn span_style_at(m: TextModel, q: int) -> Style {
    m.spans[skip_spans(m.spans, 1, q)].1
}

/// Whether range `k` of `rs` holds byte `q`.
pub open spec fn range_holds(rs: Seq<(usize, usize, Style)>, k: int, q: int) -> bool {
    0 <= k < rs.len() && rs[k].0 <= q < rs[k].1
}

/// The style that byte `q` of the flattened text `buf` gets from ranges `rs`: its span's style,
/// with the syntax style of the range that holds it, if one does.
pub open spec fn highlighted_style_at(buf: TextModel, rs: Seq<(usize, usize, Style)>, q: int) -> Style {
    if exists|k: int| range_holds(rs, k, q) {
        with_syntax(span_style_at(buf, q), rs[choose|k: int| range_holds(rs, k, q)].2)
    } else {
        span_style_at(buf, q)
    }
}

/// The bytes of `m` with the style of the span that holds each.
pub open spec fn styled_bytes(m: TextModel) -> Seq<(u8, Style)> {
    Seq::new(m.bytes.len(), |q: int| (m.bytes[q], span_style_at(m, q)))
}

/// The bytes of `buf` from `pos` on, without the line breaks `brs` from index `ib` on, each
/// with the style that ranges `rs` give it.
pub open spec fn styled_strip(buf: TextModel, rs: Seq<(usize, usize, Style)>, brs: Seq<usize>, pos: int, ib: int) -> Seq<(u8, Style)>
    decreases buf.bytes.len() - pos,
{
    if pos < 0 || pos >= buf.bytes.len() {
        Seq::empty()
    } else if 0 <= ib < brs.len() && brs[ib] == pos {
        styled_strip(buf, rs, brs, pos + 1, ib + 1)
    } else {
        seq![(buf.bytes[pos], highlighted_style_at(buf, rs, pos))] + styled_strip(buf, rs, brs, pos + 1, ib)
    }
}

proof fn lemma_styled_strip_piece(buf: TextModel, rs: Seq<(usize, usize, Style)>, brs: Seq<usize>, pos: int, e: int, ib: int)
    requires
        0 <= pos <= e <= buf.bytes.len(),
        0 <= ib,
        ib < brs.len() ==> brs[ib] >= e,
    ensures
        styled_strip(buf, rs, brs, pos, ib) == Seq::new((e - pos) as nat, |j: int| (buf.bytes[pos + j], highlighted_style_at(buf, rs, pos + j)))
            + styled_strip(buf, rs, brs, e, ib),
    decreases e - pos,
{
    if pos < e {
        lemma_styled_strip_piece(buf, rs, brs, pos + 1, e, ib);
        assert(Seq::new((e - pos) as nat, |j: int| (buf.bytes[pos + j], highlighted_style_at(buf, rs, pos + j))) =~= seq![
            (buf.bytes[pos], highlighted_style_at(buf, rs, pos))] + Seq::new((e - (pos + 1)) as nat, |j: int| (buf.bytes[pos + 1 + j], highlighted_style_at(buf, rs, pos + 1 + j))));
    } else {
        assert(Seq::new((e - pos) as nat, |j: int| (buf.bytes[pos + j], highlighted_style_at(buf, rs, pos + j))) =~= Seq::<(u8, Style)>::empty());
    }
}

proof fn lemma_skip_spans_exact(sp: Seq<(usize, Style)>, i: int, t: int, q: int)
    requires
        0 <= i <= t < sp.len(),
        forall|j: int| i <= j < t ==> #[trigger] sp[j].0 <= q,
        sp[t].0 > q,
    ensures
        skip_spans(sp, i, q) == t,
    decreases t - i,
{
    if i < t {
        lemma_skip_spans_exact(sp, i + 1, t, q);
    }
}

/// A piece that the rebuilding writes, with its style, gives every byte in it the style that
/// the ranges give it.
proof fn lemma_piece_style(buf: TextModel, rs: Seq<(usize, usize, Style)>, brs: Seq<usize>, pos: int, isp: int, ir: int, ib: int, q: int)
    requires
        rebuild_ok(buf, rs, brs),
        ranges_sorted(rs),
        0 <= pos < buf.bytes.len(),
        1 <= isp < buf.spans.len(),
        buf.spans[isp - 1].0 <= pos,
        0 <= ir <= rs.len(),
        forall|k: int| 0 <= k < ir ==> #[trigger] rs[k].1 <= pos,
        ({
            let ir2 = skip_ranges(rs, ir, pos);
            let isp2 = skip_spans(buf.spans, isp, pos);
            pos <= q < piece_at(buf, rs, brs, pos, isp2, ir2, ib).0
        }),
    ensures
        ({
            let ir2 = skip_ranges(rs, ir, pos);
            let isp2 = skip_spans(buf.spans, isp, pos);
            piece_at(buf, rs, brs, pos, isp2, ir2, ib).1 == highlighted_style_at(buf, rs, q)
        }),
{
    lemma_skip_ranges(rs, ir, pos);
    lemma_skip_spans(buf.spans, isp, pos);
    let ir2 = skip_ranges(rs, ir, pos);
    let isp2 = skip_spans(buf.spans, isp, pos);
    let (e, st) = piece_at(buf, rs, brs, pos, isp2, ir2, ib);
    assert forall|j: int| 1 <= j < isp2 implies #[trigger] buf.spans[j].0 <= q by {
        if j < isp {
            assert(buf.spans[j].0 <= buf.spans[isp - 1].0);
        } else {
            assert(buf.spans[j].0 <= pos);
        }
    }
    assert(buf.spans[isp2].0 > q);
    lemma_skip_spans_exact(buf.spans, 1, isp2, q);
    assert(span_style_at(buf, q) == buf.spans[isp2].1);
    assert forall|k: int| range_holds(rs, k, q) implies k == ir2 by {
        if k < ir {
            assert(rs[k].1 <= pos);
        } else if k < ir2 {
            assert(rs[k].1 <= pos);
        } else if k > ir2 {
            assert(rs[ir2].1 <= rs[k].0);
            assert(rs[ir2].0 <= rs[ir2].1);
            if rs[ir2].0 <= pos {
                assert(q < rs[ir2].1);
            } else {
                assert(q < rs[ir2].0);
            }
        }
    }
    if ir2 < rs.len() && rs[ir2].0 <= pos {
        assert(range_holds(rs, ir2, q));
    } else if ir2 < rs.len() {
        assert(!range_holds(rs, ir2, q));
        assert(!exists|k: int| range_holds(rs, k, q));
    } else {
        assert(!exists|k: int| range_holds(rs, k, q));
    }
}

proof fn lemma_styled_bytes_piece(m: TextModel, x: Seq<u8>, st: Style)
    requires
        rebuild_shape(m),
        m.spans[0].0 == 0,
        x.len() > 0,
        m.bytes.len() + x.len() <= usize::MAX,
    ensures
        styled_bytes(m.push_bytes(x).close_span(st)) == styled_bytes(m) + Seq::new(x.len(), |j: int| (x[j], st)),
        m.push_bytes(x).close_span(st).spans[0].0 == 0,
{
    let m2 = m.push_bytes(x).close_span(st);
    let n = m.bytes.len() as int;
    assert(m.spans.last().0 != n + x.len());
    assert(m2.spans == m.spans.push(((n + x.len()) as usize, st)));
    assert forall|q: int| 0 <= q < m2.bytes.len() implies #[trigger] span_style_at(m2, q) == (if q < n { span_style_at(m, q) } else { st }) by {
        if q < n {
            assert(m.spans[m.spans.len() - 1] == m.spans.last());
            lemma_skip_spans(m.spans, 1, q);
            let t = skip_spans(m.spans, 1, q);
            assert forall|j: int| 1 <= j < t implies #[trigger] m2.spans[j].0 <= q by {
                assert(m2.spans[j] == m.spans[j]);
            }
            assert(m2.spans[t] == m.spans[t]);
            lemma_skip_spans_exact(m2.spans, 1, t, q);
        } else {
            let t = m.spans.len() as int;
            assert forall|j: int| 1 <= j < t implies #[trigger] m2.spans[j].0 <= q by {
                assert(m2.spans[j] == m.spans[j]);
                assert(m.spans[j].0 <= n);
            }
            lemma_skip_spans_exact(m2.spans, 1, t, q);
        }
    }
    assert(styled_bytes(m2) =~= styled_bytes(m) + Seq::new(x.len(), |j: int| (x[j], st)));
}

proof fn lemma_rebuild_from_styles(
    out: TextModel,
    buf: TextModel,
    rs: Seq<(usize, usize, Style)>,
    brs: Seq<usize>,
    pos: int,
    isp: int,
    ir: int,
    ib: int,
)
    requires
        rebuild_ok(buf, rs, brs),
        ranges_sorted(rs),
        0 <= pos <= buf.bytes.len(),
        1 <= isp,
        isp < buf.spans.len() || buf.bytes.len() == 0,
        isp < buf.spans.len() ==> buf.spans[isp - 1].0 <= pos,
        0 <= ir <= rs.len(),
        forall|k: int| 0 <= k < ir ==> #[trigger] rs[k].1 <= pos,
        0 <= ib <= brs.len(),
        ib < brs.len() ==> brs[ib] >= pos,
        rebuild_shape(out),
        out.spans[0].0 == 0,
        out.bytes.len() <= pos,
    ensures
        styled_bytes(rebuild_from(out, buf, rs, brs, pos, isp, ir, ib)) == styled_bytes(out) + styled_strip(buf, rs, brs, pos, ib),
    decreases buf.bytes.len() - pos,
{
    let len = buf.bytes.len() as int;
    if pos >= len {
        assert(styled_bytes(out.close_line()) == styled_bytes(out));
        assert(styled_bytes(out) + Seq::<(u8, Style)>::empty() =~= styled_bytes(out));
        if ib < brs.len() {
            assert(brs[ib] < len);
        }
    } else if 0 <= ib < brs.len() && brs[ib] == pos {
        if ib + 1 < brs.len() {
            assert(brs[ib] < brs[ib + 1]);
        }
        let o2 = out.close_line();
        assert(o2.lines.last() == out.spans.len() - 1);
        lemma_close_line_shape(out);
        assert(styled_bytes(o2) == styled_bytes(out));
        lemma_rebuild_from_styles(o2, buf, rs, brs, pos + 1, isp, ir, ib + 1);
    } else {
        lemma_skip_ranges(rs, ir, pos);
        lemma_skip_spans(buf.spans, isp, pos);
        let ir2 = skip_ranges(rs, ir, pos);
        let isp2 = skip_spans(buf.spans, isp, pos);
        let (e, st) = piece_at(buf, rs, brs, pos, isp2, ir2, ib);
        assert(buf.spans[isp2].0 <= len);
        assert(pos < e <= len);
        let x = buf.bytes.subrange(pos, e);
        let o2 = out.push_bytes(x).close_span(st);
        lemma_piece_keeps_lines(out, x, st);
        lemma_styled_bytes_piece(out, x, st);
        lemma_styled_strip_piece(buf, rs, brs, pos, e, ib);
        assert forall|q: int| pos <= q < e implies #[trigger] highlighted_style_at(buf, rs, q) == st by {
            lemma_piece_style(buf, rs, brs, pos, isp, ir, ib, q);
        }
        assert(Seq::new(x.len(), |j: int| (x[j], st)) =~= Seq::new((e - pos) as nat, |j: int| (buf.bytes[pos + j], highlighted_style_at(buf, rs, pos + j))));
        if isp2 > isp {
            assert(buf.spans[isp2 - 1].0 <= pos);
        }
        assert forall|k: int| 0 <= k < ir2 implies #[trigger] rs[k].1 <= e by {
            if k < ir {
                assert(rs[k].1 <= pos);
            } else {
                assert(rs[k].1 <= pos);
            }
        }
        lemma_rebuild_from_styles(o2, buf, rs, brs, e, isp2, ir2, ib);
        assert(styled_bytes(out) + Seq::new(x.len(), |j: int| (x[j], st)) + styled_strip(buf, rs, brs, e, ib) =~= styled_bytes(out)
            + styled_strip(buf, rs, brs, pos, ib));
    }
}

/// Rebuilding a flattened text with ranges that are in order and do not overlap (`rebuild`)
/// gives each byte kept the style of its span, with the syntax style of the range that holds
/// it merged in (foreground color replaced, style flags added, background kept) exactly when a
/// range holds it.
pub proof fn lemma_rebuild_styles(buf: TextModel, rs: Seq<(usize, usize, Style)>, brs: Seq<usize>)
    requires
        rebuild_ok(buf, rs, brs),
        ranges_sorted(rs),
    ensures
        styled_bytes(rebuild_from(empty_model(), buf, rs, brs, 0, 1, 0, 0)) == styled_strip(buf, rs, brs, 0, 0),
{
    if buf.bytes.len() > 0 {
        assert(buf.spans[0].0 == 0);
        assert(buf.spans.len() >= 2);
    }
    let e = empty_model();
    assert(e.lines.last() == 0usize);
    assert(styled_bytes(e) =~= Seq::<(u8, Style)>::empty());
    lemma_rebuild_from_styles(e, buf, rs, brs, 0, 1, 0, 0);
    assert(Seq::<(u8, Style)>::empty() + styled_strip(buf, rs, brs, 0, 0) =~= styled_strip(buf, rs, brs, 0, 0));
}

/// Rebuilding a flattened text with syntax ranges (`rebuild`) keeps all its bytes in order,
/// leaving out only the line breaks, and makes one line more than there are breaks.
pub proof fn lemma_rebuild_keeps_text(buf: TextModel, rs: Seq<(usize, usize, Style)>, brs: Seq<usize>)
    requires
        rebuild_ok(buf, rs, brs),
    ensures
        rebuild_from(empty_model(), buf, rs, brs, 0, 1, 0, 0).bytes == strip_breaks(buf.bytes, brs, 0, 0),
        rebuild_from(empty_model(), buf, rs, brs, 0, 1, 0, 0).num_lines() == brs.len() + 1,
{
    if buf.bytes.len() > 0 {
        assert(buf.spans[0].0 == 0);
        assert(buf.spans.len() >= 2);
    }
    lemma_rebuild_from_text(empty_model(), buf, rs, brs, 0, 1, 0, 0);
    assert(Seq::<u8>::empty() + strip_breaks(buf.bytes, brs, 0, 0) =~= strip_breaks(buf.bytes, brs, 0, 0));
}


// ---------------------------------------------------------------------------------------------
// Running the highlighter.

#[verifier::external_type_specification]
#[verifier::external_body]
pub struct ExHighlightConfiguration(HighlightConfiguration);

/// The `HIGHLIGHTS_QUERY` and `INJECTIONS_QUERY` of tree-sitter-rust. Nothing is stated of
/// them.
#[verifier::external_body]
fn rust_queries() -> (r: (&'static str, &'static str)) {
    (tree_sitter_rust::HIGHLIGHTS_QUERY, tree_sitter_rust::INJECTIONS_QUERY)
}

/// The `HIGHLIGHT_QUERY` of tree-sitter-c. Nothing is stated of it.
#[verifier::external_body]
fn c_query() -> (r: &'static str) {
    tree_sitter_c::HIGHLIGHT_QUERY
}

/// The `HIGHLIGHT_QUERY` of tree-sitter-cpp. Nothing is stated of it.
#[verifier::external_body]
fn cpp_query() -> (r: &'static str) {
    tree_sitter_cpp::HIGHLIGHT_QUERY
}

/// The `HIGHLIGHTS_QUERY` and `INJECTIONS_QUERY` of tree-sitter-zig. Nothing is stated of
/// them.
#[verifier::external_body]
fn zig_queries() -> (r: (&'static str, &'static str)) {
    (tree_sitter_zig::HIGHLIGHTS_QUERY, tree_sitter_zig::INJECTIONS_QUERY)
}

/// The `HIGHLIGHTS_QUERY` and `INJECTIONS_QUERY` of tree-sitter-odin. Nothing is stated of
/// them.
#[verifier::external_body]
fn odin_queries() -> (r: (&'static str, &'static str)) {
    (tree_sitter_odin::HIGHLIGHTS_QUERY, tree_sitter_odin::INJECTIONS_QUERY)
}

/// Whether `HighlightConfiguration::new` accepts the queries `highlights`, `injections` and
/// `locals` for the grammar of `lang`.
pub uninterp spec fn queries_compile(lang: SyntaxLanguage, highlights: Seq<char>, injections: Seq<char>, locals: Seq<char>) -> bool;

/// Calls `HighlightConfiguration::new` of tree-sitter-highlight with the grammar of `lang`
/// (the `LANGUAGE` of its grammar crate), the name `name` and the three queries; `None` where
/// it reports that the queries do not compile. Whether they compile depends on the grammar
/// and the queries alone (the name is only stored), and is given a name, `queries_compile`;
/// the configuration itself is opaque here.
#[verifier::external_body]
fn new_config(lang: SyntaxLanguage, name: &str, highlights: &str, injections: &str, locals: &str) -> (r: Option<HighlightConfiguration>)
    ensures
        r is Some <==> queries_compile(lang, highlights@, injections@, locals@),
{
    let language: Language = match lang {
        SyntaxLanguage::Rust => tree_sitter_rust::LANGUAGE.into(),
        SyntaxLanguage::C => tree_sitter_c::LANGUAGE.into(),
        SyntaxLanguage::Cpp => tree_sitter_cpp::LANGUAGE.into(),
        SyntaxLanguage::Zig => tree_sitter_zig::LANGUAGE.into(),
        SyntaxLanguage::Odin => tree_sitter_odin::LANGUAGE.into(),
    };
    HighlightConfiguration::new(language, name, highlights, injections, locals).ok()
}

/// Calls `HighlightConfiguration::configure`, which makes the highlighter report the capture
/// names that match `names` by their position there. Nothing is stated of the configuration.
#[verifier::external_body]
fn configure(config: &mut HighlightConfiguration, names: &[&str]) {
    config.configure(names)
}

/// The position of `lang` in `SyntaxConfigs`.
pub open spec fn language_index_spec(lang: SyntaxLanguage) -> int {
    match lang {
        SyntaxLanguage::Rust => 0,
        SyntaxLanguage::C => 1,
        SyntaxLanguage::Cpp => 2,
        SyntaxLanguage::Zig => 3,
        SyntaxLanguage::Odin => 4,
    }
}

fn language_index(lang: SyntaxLanguage) -> (r: usize)
    ensures
        r == language_index_spec(lang),
{
    match lang {
        SyntaxLanguage::Rust => 0,
        SyntaxLanguage::C => 1,
        SyntaxLanguage::Cpp => 2,
        SyntaxLanguage::Zig => 3,
        SyntaxLanguage::Odin => 4,
    }
}

/// A highlighting configuration for `lang`, named `name`, with the queries `highlights`,
/// `injections` and `locals`, and configured with the capture names `names`; `None` if the
/// queries do not compile.
fn make_config(lang: SyntaxLanguage, name: &str, highlights: &str, injections: &str, locals: &str, names: &[&str]) -> (r: Option<HighlightConfiguration>)
    ensures
        r is Some <==> queries_compile(lang, highlights@, injections@, locals@),
{
    match new_config(lang, name, highlights, injections, locals) {
        Some(config) => {
            let mut config = config;
            configure(&mut config, names);
            Some(config)
        },
        None => None,
    }
}

/// What a highlighting configuration was made from: the language name, the highlights,
/// injections and locals queries, and the capture names it was configured with.
pub struct ConfigRecipe {
    pub name: Seq<char>,
    pub highlights: Seq<char>,
    pub injections: Seq<char>,
    pub locals: Seq<char>,
    pub capture_names: Seq<Seq<char>>,
}

/// The name of a language, as the highlighter is told it.
pub open spec fn language_name(lang: SyntaxLanguage) -> Seq<char> {
    match lang {
        SyntaxLanguage::Rust => "rust"@,
        SyntaxLanguage::C => "c"@,
        SyntaxLanguage::Cpp => "cpp"@,
        SyntaxLanguage::Zig => "zig"@,
        SyntaxLanguage::Odin => "odin"@,
    }
}

/// The capture names of all kinds, in order (see `highlight_names`).
pub open spec fn capture_names() -> Seq<Seq<char>> {
    Seq::new(num_kinds(), |i: int| kind_name(all_kinds()[i]))
}

/// The highlighting configurations of all languages, made once and shared, with a record of
/// what each was made from.
pub struct SyntaxConfigs {
    configs: Vec<Option<HighlightConfiguration>>,
    recipes: Ghost<Seq<ConfigRecipe>>,
}

impl View for SyntaxConfigs {
    type V = Seq<ConfigRecipe>;

    /// What the configuration of each language was made from, in the order of
    /// `language_index_spec`.
    closed spec fn view(&self) -> Seq<ConfigRecipe> {
        self.recipes@
    }
}

impl SyntaxConfigs {
    /// There is an entry for each language.
    pub closed spec fn wf(&self) -> bool {
        self.configs@.len() == 5 && self.recipes@.len() == 5
    }

    /// The configuration of `lang`, if its queries compiled.
    pub closed spec fn config_of(&self, lang: SyntaxLanguage) -> Option<HighlightConfiguration> {
        self.configs@[language_index_spec(lang)]
    }

    /// What the configuration of `lang` was made from: what was handed to
    /// `HighlightConfiguration::new` and `HighlightConfiguration::configure`.
    pub closed spec fn recipe_of(&self, lang: SyntaxLanguage) -> ConfigRecipe {
        self.recipes@[language_index_spec(lang)]
    }

    /// Makes the configuration of each language from its grammar crate's grammar and queries,
    /// configured with `highlight_names`; a language's configuration is there exactly when
    /// its queries compile. No configuration has a locals query, the C and C++ configurations
    /// have no injections query, and the C++ highlights query is the C one, a newline, and the
    /// C++ one (the C++ query only adds to the C one).
    pub fn new() -> (r: SyntaxConfigs)
        ensures
            r.wf(),
            forall|lang: SyntaxLanguage| #[trigger] r.recipe_of(lang).name == language_name(lang)
                && r.recipe_of(lang).capture_names == capture_names()
                && r.recipe_of(lang).locals == Seq::<char>::empty(),
            forall|lang: SyntaxLanguage| (#[trigger] r.config_of(lang)) is Some <==> queries_compile(
                lang,
                r.recipe_of(lang).highlights,
                r.recipe_of(lang).injections,
                r.recipe_of(lang).locals,
            ),
            r.recipe_of(SyntaxLanguage::C).injections == Seq::<char>::empty(),
            r.recipe_of(SyntaxLanguage::Cpp).injections == Seq::<char>::empty(),
            exists|q: Seq<char>| r.recipe_of(SyntaxLanguage::Cpp).highlights
                == r.recipe_of(SyntaxLanguage::C).highlights + "\n"@ + q,
    {
        let names = highlight_names();
        let ghost cn = names@.map_values(|n: &str| n@);
        proof {
            assert(cn =~= capture_names());
        }
        let mut configs: Vec<Option<HighlightConfiguration>> = Vec::new();
        let (rust_highlights, rust_injections) = rust_queries();
        let c0 = make_config(SyntaxLanguage::Rust, "rust", rust_highlights, rust_injections, "", names.as_slice());
        let c_highlights = c_query();
        let c1 = make_config(SyntaxLanguage::C, "c", c_highlights, "", "", names.as_slice());
        let cpp_own = cpp_query();
        let mut cpp_highlights = c_highlights.to_owned();
        cpp_highlights.append("\n");
        cpp_highlights.append(cpp_own);
        let c2 = make_config(SyntaxLanguage::Cpp, "cpp", cpp_highlights.as_str(), "", "", names.as_slice());
        let (zig_highlights, zig_injections) = zig_queries();
        let c3 = make_config(SyntaxLanguage::Zig, "zig", zig_highlights, zig_injections, "", names.as_slice());
        let (odin_highlights, odin_injections) = odin_queries();
        let c4 = make_config(SyntaxLanguage::Odin, "odin", odin_highlights, odin_injections, "", names.as_slice());
        configs.push(c0);
        configs.push(c1);
        configs.push(c2);
        configs.push(c3);
        configs.push(c4);
        proof {
            reveal_strlit("rust");
            reveal_strlit("c");
            reveal_strlit("cpp");
            reveal_strlit("zig");
            reveal_strlit("odin");
            reveal_strlit("");
            reveal_strlit("\n");
        }
        let ghost recipes = seq![
            ConfigRecipe { name: "rust"@, highlights: rust_highlights@, injections: rust_injections@, locals: ""@, capture_names: cn },
            ConfigRecipe { name: "c"@, highlights: c_highlights@, injections: ""@, locals: ""@, capture_names: cn },
            ConfigRecipe { name: "cpp"@, highlights: cpp_highlights@, injections: ""@, locals: ""@, capture_names: cn },
            ConfigRecipe { name: "zig"@, highlights: zig_highlights@, injections: zig_injections@, locals: ""@, capture_names: cn },
            ConfigRecipe { name: "odin"@, highlights: odin_highlights@, injections: odin_injections@, locals: ""@, capture_names: cn },
        ];
        let r = SyntaxConfigs { configs, recipes: Ghost(recipes) };
        proof {
            assert(r.recipe_of(SyntaxLanguage::Cpp).highlights == r.recipe_of(SyntaxLanguage::C).highlights + "\n"@ + cpp_own@);
            assert(r.configs@[0] == c0 && r.configs@[1] == c1 && r.configs@[2] == c2 && r.configs@[3] == c3 && r.configs@[4] == c4);
        }
        r
    }

    /// The configuration of `lang`.
    pub fn get(&self, lang: SyntaxLanguage) -> (r: Option<&HighlightConfiguration>)
        ensures
            self.wf() ==> match r {
                Some(c) => self.config_of(lang) == Some(*c),
                None => self.config_of(lang) is None,
            },
    {
        let i = language_index(lang);
        if i >= self.configs.len() {
            return None;
        }
        match &self.configs[i] {
            Some(c) => Some(c),
            None => None,
        }
    }

    /// The configuration for an injection named `name` (see `language_for_injection`).
    pub fn for_injection(&self, name: &str) -> (r: Option<&HighlightConfiguration>)
        ensures
            self.wf() ==> match language_for_injection_spec(name@) {
                Some(lang) => match r {
                    Some(c) => self.config_of(lang) == Some(*c),
                    None => self.config_of(lang) is None,
                },
                None => r is None,
            },
    {
        match language_for_injection(name) {
            Some(lang) => self.get(lang),
            None => None,
        }
    }
}

/// What the highlighter reports for `source` in language `lang`, with configurations made
/// from `recipes` (one per language), as steps; `None` if it fails.
pub uninterp spec fn highlighter_steps(lang: SyntaxLanguage, recipes: Seq<ConfigRecipe>, source: Seq<u8>) -> Option<Seq<HighlightStep>>;

/// Runs `Highlighter::highlight` of tree-sitter-highlight on `source` with `config`, the
/// configuration of `lang`, taking the configurations of injected languages from `configs`,
/// and turns each event into a step; `None` where it reports an error. The steps depend on
/// `lang`, `source` and the configurations, which are made by `SyntaxConfigs::new` from the
/// grammar of each language and what `configs` records of them (`configs@`); what the steps
/// are is given a name, `highlighter_steps`.
#[verifier::external_body]
#[allow(unused_variables)]
fn highlight_source(lang: SyntaxLanguage, config: &HighlightConfiguration, configs: &SyntaxConfigs, source: &[u8]) -> (r: Option<Vec<HighlightStep>>)
    requires
        configs.wf(),
        configs.config_of(lang) == Some(*config),
    ensures
        match r {
            Some(v) => highlighter_steps(lang, configs@, source@) == Some(v@),
            None => highlighter_steps(lang, configs@, source@) is None,
        },
{
    let mut highlighter = tree_sitter_highlight::Highlighter::new();
    let events = highlighter.highlight(config, source, None, None, |name| configs.for_injection(name)).ok()?;
    events.map(|e| match e {
        Ok(HighlightEvent::HighlightStart(h)) => Some(HighlightStep::Start(h.0)),
        Ok(HighlightEvent::HighlightEnd) => Some(HighlightStep::End),
        Ok(HighlightEvent::Source { start, end }) => Some(HighlightStep::Source(start, end)),
        Err(_) => None,
    }).collect()
}

/// Whether `rebuild` may be applied to `buf` with ranges `rs` and breaks `brs` (see
/// `rebuild_ok`).
pub fn can_rebuild(buf: &StyledText, rs: &[(usize, usize, Style)], brs: &[usize]) -> (r: bool)
    requires
        buf@.wf(),
    ensures
        r == rebuild_ok(buf@, rs@, brs@),
{
    let len = buf.byte_len();
    if buf.spans[buf.spans.len() - 1].0 != len {
        return false;
    }
    if len > usize::MAX - 2 {
        return false;
    }
    let s = buf.chars.as_str();
    let bytes = s.as_bytes();
    let ghost b = buf@;
    let mut k: usize = 0;
    while k < brs.len()
        invariant
            b == buf@,
            bytes@ == b.bytes,
            len == b.bytes.len(),
            k <= brs@.len(),
            forall|x: int, y: int| 0 <= x < y < k ==> brs@[x] < brs@[y],
            forall|x: int| 0 <= x < k ==> brs@[x] < len && b.bytes[brs@[x] as int] == 10u8,
        decreases brs@.len() - k,
    {
        if brs[k] >= len || bytes[brs[k]] != 10u8 {
            return false;
        }
        if k > 0 && brs[k - 1] >= brs[k] {
            return false;
        }
        k = k + 1;
    }
    let mut j: usize = 0;
    while j < rs.len()
        invariant
            b == buf@,
            s.spec_bytes() == b.bytes,
            len == b.bytes.len(),
            j <= rs@.len(),
            forall|x: int| 0 <= x < j ==> (rs@[x].0 <= len ==> is_char_boundary(b.bytes, rs@[x].0 as int))
                && (rs@[x].1 <= len ==> is_char_boundary(b.bytes, rs@[x].1 as int)),
        decreases rs@.len() - j,
    {
        let (a, e, _) = rs[j];
        if a <= len && !s.is_char_boundary(a) {
            return false;
        }
        if e <= len && !s.is_char_boundary(e) {
            return false;
        }
        j = j + 1;
    }
    true
}

/// The text rebuilt from the flattened text `buf` with line breaks `breaks` and the ranges of
/// highlighter steps `steps`, if they give some range and can be used (see `rebuild_ok`).
pub open spec fn highlighted(buf: TextModel, breaks: Seq<usize>, steps: Seq<HighlightStep>, palette: Palette) -> Option<TextModel> {
    let rs = ranges_from(steps, 0, Seq::empty(), palette);
    if rs.len() > 0 && rebuild_ok(buf, rs, breaks) {
        Some(rebuild_from(empty_model(), buf, rs, breaks, 0, 1, 0, 0))
    } else {
        None
    }
}

/// Merges the highlighter's `steps` for the flattened text `buf` (with line breaks `breaks`)
/// into the text (see `highlighted`); `None` where there is nothing to merge or the ranges
/// cannot be used.
pub fn rebuild_highlighted(buf: &StyledText, breaks: &[usize], steps: &[HighlightStep], palette: &Palette) -> (r: Option<StyledText>)
    requires
        buf@.wf(),
    ensures
        match r {
            Some(t) => highlighted(buf@, breaks@, steps@, *palette) == Some(t@) && t@.wf(),
            None => highlighted(buf@, breaks@, steps@, *palette) is None,
        },
{
    let ranges = syntax_ranges(steps, palette);
    if ranges.len() == 0 {
        return None;
    }
    if !can_rebuild(buf, ranges.as_slice(), breaks) {
        return None;
    }
    Some(rebuild(buf, ranges.as_slice(), breaks))
}

/// Position of the last `c` in `s` before `end`; -1 if there is none.
pub open spec fn last_char_before(s: Seq<char>, c: char, end: int) -> int
    decreases end,
{
    if end <= 0 {
        -1
    } else if s[end - 1] == c {
        end - 1
    } else {
        last_char_before(s, c, end - 1)
    }
}

/// The last component of `path` before position `end` that is neither empty nor `.`, taking
/// components to be the pieces between slashes (`Path::components` on Unix: repeated and
/// trailing separators and `.` components are left out).
pub open spec fn last_component(path: Seq<char>, end: int) -> Option<Seq<char>>
    decreases end,
{
    if end <= 0 {
        None
    } else {
        let start = last_char_before(path, '/', end) + 1;
        let piece = path.subrange(start, end);
        if piece.len() > 0 && piece != seq!['.'] {
            Some(piece)
        } else if start <= 0 || start >= end + 1 {
            None
        } else {
            last_component(path, start - 1)
        }
    }
}

/// The file name of `path` (`Path::file_name`): its last component, unless there is none or
/// it is `..`.
pub open spec fn file_name(path: Seq<char>) -> Option<Seq<char>> {
    match last_component(path, path.len() as int) {
        Some(c) => if c == seq!['.', '.'] { None } else { Some(c) },
        None => None,
    }
}

/// The extension of `path` (`Path::extension`): the part of its file name after the last dot;
/// none if there is no file name, no dot in it, or only a dot at its start.
pub open spec fn path_extension(path: Seq<char>) -> Option<Seq<char>> {
    match file_name(path) {
        Some(f) => {
            let d = last_char_before(f, '.', f.len() as int);
            if d <= 0 {
                None
            } else {
                Some(f.subrange(d + 1, f.len() as int))
            }
        },
        None => None,
    }
}

/// Calls `std::path::Path::extension` on `path` and turns the result back into a string
/// slice (which always succeeds for a slice of a string). The contract states what std
/// documents for Unix paths: the extension is the part of the file name (the last component,
/// where components are the pieces between separators, with repeated and trailing separators
/// and `.` components left out, and `..` giving no file name) after its last dot, and there
/// is none when there is no file name, no dot in it, or only a dot at its start.
#[verifier::external_body]
fn file_extension(path: &str) -> (r: Option<&str>)
    ensures
        match r {
            Some(e) => path_extension(path@) == Some(e@),
            None => path_extension(path@) is None,
        },
{
    std::path::Path::new(path).extension().and_then(|e| e.to_str())
}

/// The language of the file at `path`, by its extension.
pub open spec fn language_of_path(path: Seq<char>) -> Option<SyntaxLanguage> {
    match path_extension(path) {
        Some(e) => language_for_extension_spec(e),
        None => None,
    }
}

/// Highlights the syntax of `text`, the contents of the file at `path`, in the language of its
/// extension: the styles of the highlights come from `palette` and replace the foreground color
/// (and add style flags) of the text's own styles, and every line keeps its text. The text
/// stays as it is when it has no lines, when the language is not supported or its queries did
/// not compile, when there is no text, when the highlighter fails or highlights nothing, and
/// when a highlighted range ends inside a character.
pub fn apply_to_text(text: &mut StyledText, path: &str, configs: &SyntaxConfigs, palette: &Palette)
    requires
        old(text)@.wf(),
        configs.wf(),
        2 * old(text)@.bytes.len() + old(text)@.lines.len() <= usize::MAX,
        2 * old(text)@.spans.len() + 2 * old(text)@.lines.len() + 2 <= usize::MAX,
    ensures
        final(text)@.wf(),
        ({
            let flat = flatten_from(empty_model(), Seq::empty(), old(text)@, 0);
            let lang = language_of_path(path@);
            if old(text)@.num_lines() == 0 || lang is None || configs.config_of(lang->0) is None
                || flat.0.bytes.len() == 0 {
                final(text)@ == old(text)@
            } else {
                final(text)@ == match highlighter_steps(lang->0, configs@, flat.0.bytes) {
                    Some(steps) => match highlighted(flat.0, flat.1, steps, *palette) {
                        Some(t) => t,
                        None => old(text)@,
                    },
                    None => old(text)@,
                }
            }
        }),
        final(text)@ == old(text)@ || (final(text)@.num_lines() == old(text)@.num_lines() && forall|j: int|
            0 <= j < old(text)@.num_lines() ==> #[trigger] final(text)@.line_bytes(j) == old(text)@.line_bytes(j)),
{
    if text.num_lines() == 0 {
        return;
    }
    let lang = match file_extension(path) {
        Some(e) => language_for_extension(e),
        None => None,
    };
    let lang = match lang {
        Some(l) => l,
        None => return,
    };
    let config = match configs.get(lang) {
        Some(c) => c,
        None => return,
    };
    let (buf, line_breaks) = flatten(text);
    if buf.byte_len() == 0 {
        return;
    }
    let steps = match highlight_source(lang, config, configs, buf.chars.as_str().as_bytes()) {
        Some(v) => v,
        None => return,
    };
    match rebuild_highlighted(&buf, line_breaks.as_slice(), steps.as_slice(), palette) {
        Some(t) => {
            *text = t;
            proof {
                let flat = flatten_from(empty_model(), Seq::empty(), old(text)@, 0);
                assert(buf@ == flat.0 && line_breaks@ == flat.1);
                assert(highlighted(flat.0, flat.1, steps@, *palette) == Some(text@));
                lemma_flatten_rebuild_keeps_lines(old(text)@, ranges_from(steps@, 0, Seq::empty(), *palette));
            }
        },
        None => {},
    }
}


/// The palette field that colors each highlight kind: strings `code_string`, numbers
/// `code_number`, keywords `code_keyword`, comments `code_comment`, and so on for every kind;
/// an index that names no kind gets the default style.
pub proof fn lemma_highlight_style_fields()
    ensures
        forall|i: int, p: Palette| 0 <= i < num_kinds() && all_kinds()[i] == HighlightKind::Attribute ==> #[trigger] highlight_style_spec(i, p) == p.code_attribute,
        forall|i: int, p: Palette| 0 <= i < num_kinds() && all_kinds()[i] == HighlightKind::Boolean ==> #[trigger] highlight_style_spec(i, p) == p.code_constant,
        forall|i: int, p: Palette| 0 <= i < num_kinds() && all_kinds()[i] == HighlightKind::Constant ==> #[trigger] highlight_style_spec(i, p) == p.code_constant,
        forall|i: int, p: Palette| 0 <= i < num_kinds() && all_kinds()[i] == HighlightKind::ConstantBuiltin ==> #[trigger] highlight_style_spec(i, p) == p.code_constant,
        forall|i: int, p: Palette| 0 <= i < num_kinds() && all_kinds()[i] == HighlightKind::Comment ==> #[trigger] highlight_style_spec(i, p) == p.code_comment,
        forall|i: int, p: Palette| 0 <= i < num_kinds() && all_kinds()[i] == HighlightKind::CommentDocumentation ==> #[trigger] highlight_style_spec(i, p) == p.code_comment,
        forall|i: int, p: Palette| 0 <= i < num_kinds() && all_kinds()[i] == HighlightKind::Constructor ==> #[trigger] highlight_style_spec(i, p) == p.code_type,
        forall|i: int, p: Palette| 0 <= i < num_kinds() && all_kinds()[i] == HighlightKind::Tag ==> #[trigger] highlight_style_spec(i, p) == p.code_type,
        forall|i: int, p: Palette| 0 <= i < num_kinds() && all_kinds()[i] == HighlightKind::Type ==> #[trigger] highlight_style_spec(i, p) == p.code_type,
        forall|i: int, p: Palette| 0 <= i < num_kinds() && all_kinds()[i] == HighlightKind::TypeBuiltin ==> #[trigger] highlight_style_spec(i, p) == p.code_type,
        forall|i: int, p: Palette| 0 <= i < num_kinds() && all_kinds()[i] == HighlightKind::Escape ==> #[trigger] highlight_style_spec(i, p) == p.code_escape,
        forall|i: int, p: Palette| 0 <= i < num_kinds() && all_kinds()[i] == HighlightKind::StringEscape ==> #[trigger] highlight_style_spec(i, p) == p.code_escape,
        forall|i: int, p: Palette| 0 <= i < num_kinds() && all_kinds()[i] == HighlightKind::StringSpecial ==> #[trigger] highlight_style_spec(i, p) == p.code_escape,
        forall|i: int, p: Palette| 0 <= i < num_kinds() && all_kinds()[i] == HighlightKind::Function ==> #[trigger] highlight_style_spec(i, p) == p.code_function,
        forall|i: int, p: Palette| 0 <= i < num_kinds() && all_kinds()[i] == HighlightKind::FunctionBuiltin ==> #[trigger] highlight_style_spec(i, p) == p.code_function,
        forall|i: int, p: Palette| 0 <= i < num_kinds() && all_kinds()[i] == HighlightKind::Keyword ==> #[trigger] highlight_style_spec(i, p) == p.code_keyword,
        forall|i: int, p: Palette| 0 <= i < num_kinds() && all_kinds()[i] == HighlightKind::Module ==> #[trigger] highlight_style_spec(i, p) == p.code_module,
        forall|i: int, p: Palette| 0 <= i < num_kinds() && all_kinds()[i] == HighlightKind::Number ==> #[trigger] highlight_style_spec(i, p) == p.code_number,
        forall|i: int, p: Palette| 0 <= i < num_kinds() && all_kinds()[i] == HighlightKind::Operator ==> #[trigger] highlight_style_spec(i, p) == p.code_operator,
        forall|i: int, p: Palette| 0 <= i < num_kinds() && all_kinds()[i] == HighlightKind::Property ==> #[trigger] highlight_style_spec(i, p) == p.code_property,
        forall|i: int, p: Palette| 0 <= i < num_kinds() && all_kinds()[i] == HighlightKind::PropertyBuiltin ==> #[trigger] highlight_style_spec(i, p) == p.code_property,
        forall|i: int, p: Palette| 0 <= i < num_kinds() && all_kinds()[i] == HighlightKind::VariableMember ==> #[trigger] highlight_style_spec(i, p) == p.code_property,
        forall|i: int, p: Palette| 0 <= i < num_kinds() && all_kinds()[i] == HighlightKind::Punctuation ==> #[trigger] highlight_style_spec(i, p) == p.code_punctuation,
        forall|i: int, p: Palette| 0 <= i < num_kinds() && all_kinds()[i] == HighlightKind::PunctuationBracket ==> #[trigger] highlight_style_spec(i, p) == p.code_punctuation,
        forall|i: int, p: Palette| 0 <= i < num_kinds() && all_kinds()[i] == HighlightKind::PunctuationDelimiter ==> #[trigger] highlight_style_spec(i, p) == p.code_punctuation,
        forall|i: int, p: Palette| 0 <= i < num_kinds() && all_kinds()[i] == HighlightKind::PunctuationSpecial ==> #[trigger] highlight_style_spec(i, p) == p.code_punctuation,
        forall|i: int, p: Palette| 0 <= i < num_kinds() && all_kinds()[i] == HighlightKind::String ==> #[trigger] highlight_style_spec(i, p) == p.code_string,
        forall|i: int, p: Palette| 0 <= i < num_kinds() && all_kinds()[i] == HighlightKind::Variable ==> #[trigger] highlight_style_spec(i, p) == p.code_variable,
        forall|i: int, p: Palette| 0 <= i < num_kinds() && all_kinds()[i] == HighlightKind::VariableBuiltin ==> #[trigger] highlight_style_spec(i, p) == p.code_variable,
        forall|i: int, p: Palette| 0 <= i < num_kinds() && all_kinds()[i] == HighlightKind::VariableParameter ==> #[trigger] highlight_style_spec(i, p) == p.code_parameter,
        forall|i: int, p: Palette| (i < 0 || i >= num_kinds()) ==> #[trigger] highlight_style_spec(i, p) == p.default,
{
}

} // verus!
