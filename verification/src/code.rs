//! Syntax highlighting for code shapes: the grammar selector ([`Language`]),
//! the mapping of Sublime Text scopes to token categories ([`classify`]), the
//! "category → color" [`Palette`], and the per-character coloring of a source
//! text parsed by `syntect`.

use vstd::prelude::*;

use crate::text::{chars_of, string_of};

use syntect::parsing::{ParseState, ScopeStack, ScopeStackOp, SyntaxSet};

verus! {

/// The grammar that code is highlighted with. `PlainText` means no parsing.
#[derive(Copy, Clone, Debug, PartialEq, Eq, Structural)]
pub enum Language {
    PlainText,
    Rust,
    JavaScript,
    Python,
    C,
    Cpp,
    Go,
    Json,
    Html,
    Css,
    Java,
    Bash,
}

impl Default for Language {
    fn default() -> (l: Language)
        ensures
            l == Language::PlainText,
    {
        Language::PlainText
    }
}

/// The `syntect` grammar token of a language; `None` for plain text.
pub open spec fn language_token(l: Language) -> Option<Seq<char>> {
    match l {
        Language::PlainText => None,
        Language::Rust => Some("rust"@),
        Language::JavaScript => Some("js"@),
        Language::Python => Some("python"@),
        Language::C => Some("c"@),
        Language::Cpp => Some("c++"@),
        Language::Go => Some("go"@),
        Language::Json => Some("json"@),
        Language::Html => Some("html"@),
        Language::Css => Some("css"@),
        Language::Java => Some("java"@),
        Language::Bash => Some("sh"@),
    }
}

impl Language {
    /// The `syntect` grammar token (name or extension); `None` for
    /// [`PlainText`](Language::PlainText), which is not parsed.
    pub fn token(self) -> (t: Option<&'static str>)
        ensures
            t is None <==> language_token(self) is None,
            t matches Some(s) ==> language_token(self) == Some(s@),
    {
        match self {
            Language::PlainText => None,
            Language::Rust => Some("rust"),
            Language::JavaScript => Some("js"),
            Language::Python => Some("python"),
            Language::C => Some("c"),
            Language::Cpp => Some("c++"),
            Language::Go => Some("go"),
            Language::Json => Some("json"),
            Language::Html => Some("html"),
            Language::Css => Some("css"),
            Language::Java => Some("java"),
            Language::Bash => Some("sh"),
        }
    }
}

/// The token category a scope maps to. Comments and strings are decided
/// separately, by any scope of the stack.
#[derive(Copy, Clone, Debug, PartialEq, Eq, Structural)]
pub enum Category {
    Keyword,
    Number,
    Function,
    Type,
    Constant,
    Operator,
    Variable,
    Punctuation,
}

/// Whether `p` is a prefix of `s`.
fn starts_with(s: &Vec<char>, p: &str) -> (r: bool)
    ensures
        r == p@.is_prefix_of(s@),
{
    let pc = chars_of(p);
    if pc.len() > s.len() {
        return false;
    }
    let mut i: usize = 0;
    while i < pc.len()
        invariant
            pc@ == p@,
            pc@.len() <= s@.len(),
            0 <= i <= pc@.len(),
            forall|k: int| 0 <= k < i ==> pc@[k] == s@[k],
        decreases pc@.len() - i,
    {
        if pc[i] != s[i] {
            assert(p@[i as int] != s@.subrange(0, p@.len() as int)[i as int]);
            return false;
        }
        i += 1;
    }
    assert(p@ =~= s@.subrange(0, p@.len() as int));
    true
}

/// The category of a scope name, by the first matching prefix.
pub open spec fn classify_spec(s: Seq<char>) -> Option<Category> {
    if "keyword.operator"@.is_prefix_of(s) {
        Some(Category::Operator)
    } else if "keyword"@.is_prefix_of(s) || "storage"@.is_prefix_of(s) {
        Some(Category::Keyword)
    } else if "constant.numeric"@.is_prefix_of(s) {
        Some(Category::Number)
    } else if "constant"@.is_prefix_of(s) {
        Some(Category::Constant)
    } else if "entity.name.function"@.is_prefix_of(s) || "support.function"@.is_prefix_of(s)
        || "variable.function"@.is_prefix_of(s) || "meta.function-call"@.is_prefix_of(s) {
        Some(Category::Function)
    } else if "entity.name.type"@.is_prefix_of(s) || "entity.name.class"@.is_prefix_of(s)
        || "entity.name.struct"@.is_prefix_of(s) || "entity.name.enum"@.is_prefix_of(s)
        || "entity.name.trait"@.is_prefix_of(s) || "entity.name.namespace"@.is_prefix_of(s)
        || "support.type"@.is_prefix_of(s) || "support.class"@.is_prefix_of(s)
        || "entity.other.inherited-class"@.is_prefix_of(s) {
        Some(Category::Type)
    } else if "variable"@.is_prefix_of(s) {
        Some(Category::Variable)
    } else if "punctuation"@.is_prefix_of(s) {
        Some(Category::Punctuation)
    } else {
        None
    }
}

/// Two prefixes that differ at some position cannot both begin `s`.
proof fn lemma_not_both_prefixes(p: Seq<char>, q: Seq<char>, s: Seq<char>, i: int)
    requires
        0 <= i < p.len(),
        i < q.len(),
        p[i] != q[i],
    ensures
        !(p.is_prefix_of(s) && q.is_prefix_of(s)),
{
    if p.is_prefix_of(s) && q.is_prefix_of(s) {
        assert(s.subrange(0, p.len() as int)[i] == s[i]);
        assert(s.subrange(0, q.len() as int)[i] == s[i]);
    }
}

/// Operator scopes (`keyword.operator…`) are operators.
pub proof fn lemma_operator_scopes(s: Seq<char>)
    requires
        "keyword.operator"@.is_prefix_of(s),
    ensures
        classify_spec(s) == Some(Category::Operator),
{
    reveal_strlit("keyword.operator");
}

/// Keyword and storage scopes (`keyword…` other than operators, `storage…` such as `fn`, `let`, `pub`) are keywords.
pub proof fn lemma_keyword_scopes(s: Seq<char>)
    requires
        "keyword"@.is_prefix_of(s) || "storage"@.is_prefix_of(s),
        !"keyword.operator"@.is_prefix_of(s),
    ensures
        classify_spec(s) == Some(Category::Keyword),
{
    reveal_strlit("keyword");
    reveal_strlit("keyword.operator");
    reveal_strlit("storage");
    if "storage"@.is_prefix_of(s) {
        assert("storage"@[0] == 's' && "keyword.operator"@[0] == 'k');
        lemma_not_both_prefixes("storage"@, "keyword.operator"@, s, 0);
    }
}

/// Numeric constants (`constant.numeric…`) are numbers.
pub proof fn lemma_number_scopes(s: Seq<char>)
    requires
        "constant.numeric"@.is_prefix_of(s),
    ensures
        classify_spec(s) == Some(Category::Number),
{
    reveal_strlit("constant.numeric");
    reveal_strlit("keyword");
    reveal_strlit("keyword.operator");
    reveal_strlit("storage");
    if "constant.numeric"@.is_prefix_of(s) {
        assert("constant.numeric"@[0] == 'c' && "keyword.operator"@[0] == 'k');
        lemma_not_both_prefixes("constant.numeric"@, "keyword.operator"@, s, 0);
        assert("constant.numeric"@[0] == 'c' && "keyword"@[0] == 'k');
        lemma_not_both_prefixes("constant.numeric"@, "keyword"@, s, 0);
        assert("constant.numeric"@[0] == 'c' && "storage"@[0] == 's');
        lemma_not_both_prefixes("constant.numeric"@, "storage"@, s, 0);
    }
}

/// Other constants (`constant…`, not numeric) are constants.
pub proof fn lemma_constant_scopes(s: Seq<char>)
    requires
        "constant"@.is_prefix_of(s),
        !"constant.numeric"@.is_prefix_of(s),
    ensures
        classify_spec(s) == Some(Category::Constant),
{
    reveal_strlit("constant");
    reveal_strlit("constant.numeric");
    reveal_strlit("keyword");
    reveal_strlit("keyword.operator");
    reveal_strlit("storage");
    if "constant"@.is_prefix_of(s) {
        assert("constant"@[0] == 'c' && "keyword.operator"@[0] == 'k');
        lemma_not_both_prefixes("constant"@, "keyword.operator"@, s, 0);
        assert("constant"@[0] == 'c' && "keyword"@[0] == 'k');
        lemma_not_both_prefixes("constant"@, "keyword"@, s, 0);
        assert("constant"@[0] == 'c' && "storage"@[0] == 's');
        lemma_not_both_prefixes("constant"@, "storage"@, s, 0);
    }
}

/// Function scopes (definition names, library functions, function variables and calls) are functions.
pub proof fn lemma_function_scopes(s: Seq<char>)
    requires
        "entity.name.function"@.is_prefix_of(s) || "support.function"@.is_prefix_of(s) || "variable.function"@.is_prefix_of(s) || "meta.function-call"@.is_prefix_of(s),
    ensures
        classify_spec(s) == Some(Category::Function),
{
    reveal_strlit("constant");
    reveal_strlit("constant.numeric");
    reveal_strlit("entity.name.function");
    reveal_strlit("keyword");
    reveal_strlit("keyword.operator");
    reveal_strlit("meta.function-call");
    reveal_strlit("storage");
    reveal_strlit("support.function");
    reveal_strlit("variable.function");
    if "entity.name.function"@.is_prefix_of(s) {
        assert("entity.name.function"@[0] == 'e' && "keyword.operator"@[0] == 'k');
        lemma_not_both_prefixes("entity.name.function"@, "keyword.operator"@, s, 0);
        assert("entity.name.function"@[0] == 'e' && "keyword"@[0] == 'k');
        lemma_not_both_prefixes("entity.name.function"@, "keyword"@, s, 0);
        assert("entity.name.function"@[0] == 'e' && "storage"@[0] == 's');
        lemma_not_both_prefixes("entity.name.function"@, "storage"@, s, 0);
        assert("entity.name.function"@[0] == 'e' && "constant.numeric"@[0] == 'c');
        lemma_not_both_prefixes("entity.name.function"@, "constant.numeric"@, s, 0);
        assert("entity.name.function"@[0] == 'e' && "constant"@[0] == 'c');
        lemma_not_both_prefixes("entity.name.function"@, "constant"@, s, 0);
    }
    if "support.function"@.is_prefix_of(s) {
        assert("support.function"@[0] == 's' && "keyword.operator"@[0] == 'k');
        lemma_not_both_prefixes("support.function"@, "keyword.operator"@, s, 0);
        assert("support.function"@[0] == 's' && "keyword"@[0] == 'k');
        lemma_not_both_prefixes("support.function"@, "keyword"@, s, 0);
        assert("support.function"@[1] == 'u' && "storage"@[1] == 't');
        lemma_not_both_prefixes("support.function"@, "storage"@, s, 1);
        assert("support.function"@[0] == 's' && "constant.numeric"@[0] == 'c');
        lemma_not_both_prefixes("support.function"@, "constant.numeric"@, s, 0);
        assert("support.function"@[0] == 's' && "constant"@[0] == 'c');
        lemma_not_both_prefixes("support.function"@, "constant"@, s, 0);
    }
    if "variable.function"@.is_prefix_of(s) {
        assert("variable.function"@[0] == 'v' && "keyword.operator"@[0] == 'k');
        lemma_not_both_prefixes("variable.function"@, "keyword.operator"@, s, 0);
        assert("variable.function"@[0] == 'v' && "keyword"@[0] == 'k');
        lemma_not_both_prefixes("variable.function"@, "keyword"@, s, 0);
        assert("variable.function"@[0] == 'v' && "storage"@[0] == 's');
        lemma_not_both_prefixes("variable.function"@, "storage"@, s, 0);
        assert("variable.function"@[0] == 'v' && "constant.numeric"@[0] == 'c');
        lemma_not_both_prefixes("variable.function"@, "constant.numeric"@, s, 0);
        assert("variable.function"@[0] == 'v' && "constant"@[0] == 'c');
        lemma_not_both_prefixes("variable.function"@, "constant"@, s, 0);
    }
    if "meta.function-call"@.is_prefix_of(s) {
        assert("meta.function-call"@[0] == 'm' && "keyword.operator"@[0] == 'k');
        lemma_not_both_prefixes("meta.function-call"@, "keyword.operator"@, s, 0);
        assert("meta.function-call"@[0] == 'm' && "keyword"@[0] == 'k');
        lemma_not_both_prefixes("meta.function-call"@, "keyword"@, s, 0);
        assert("meta.function-call"@[0] == 'm' && "storage"@[0] == 's');
        lemma_not_both_prefixes("meta.function-call"@, "storage"@, s, 0);
        assert("meta.function-call"@[0] == 'm' && "constant.numeric"@[0] == 'c');
        lemma_not_both_prefixes("meta.function-call"@, "constant.numeric"@, s, 0);
        assert("meta.function-call"@[0] == 'm' && "constant"@[0] == 'c');
        lemma_not_both_prefixes("meta.function-call"@, "constant"@, s, 0);
    }
}

/// Type scopes (type, class, struct, enum, trait and namespace names, library types and classes, inherited classes) are types.
pub proof fn lemma_type_scopes(s: Seq<char>)
    requires
        "entity.name.type"@.is_prefix_of(s) || "entity.name.class"@.is_prefix_of(s) || "entity.name.struct"@.is_prefix_of(s) || "entity.name.enum"@.is_prefix_of(s) || "entity.name.trait"@.is_prefix_of(s) || "entity.name.namespace"@.is_prefix_of(s) || "support.type"@.is_prefix_of(s) || "support.class"@.is_prefix_of(s) || "entity.other.inherited-class"@.is_prefix_of(s),
    ensures
        classify_spec(s) == Some(Category::Type),
{
    reveal_strlit("constant");
    reveal_strlit("constant.numeric");
    reveal_strlit("entity.name.class");
    reveal_strlit("entity.name.enum");
    reveal_strlit("entity.name.function");
    reveal_strlit("entity.name.namespace");
    reveal_strlit("entity.name.struct");
    reveal_strlit("entity.name.trait");
    reveal_strlit("entity.name.type");
    reveal_strlit("entity.other.inherited-class");
    reveal_strlit("keyword");
    reveal_strlit("keyword.operator");
    reveal_strlit("meta.function-call");
    reveal_strlit("storage");
    reveal_strlit("support.class");
    reveal_strlit("support.function");
    reveal_strlit("support.type");
    reveal_strlit("variable.function");
    if "entity.name.type"@.is_prefix_of(s) {
        assert("entity.name.type"@[0] == 'e' && "keyword.operator"@[0] == 'k');
        lemma_not_both_prefixes("entity.name.type"@, "keyword.operator"@, s, 0);
        assert("entity.name.type"@[0] == 'e' && "keyword"@[0] == 'k');
        lemma_not_both_prefixes("entity.name.type"@, "keyword"@, s, 0);
        assert("entity.name.type"@[0] == 'e' && "storage"@[0] == 's');
        lemma_not_both_prefixes("entity.name.type"@, "storage"@, s, 0);
        assert("entity.name.type"@[0] == 'e' && "constant.numeric"@[0] == 'c');
        lemma_not_both_prefixes("entity.name.type"@, "constant.numeric"@, s, 0);
        assert("entity.name.type"@[0] == 'e' && "constant"@[0] == 'c');
        lemma_not_both_prefixes("entity.name.type"@, "constant"@, s, 0);
        assert("entity.name.type"@[12] == 't' && "entity.name.function"@[12] == 'f');
        lemma_not_both_prefixes("entity.name.type"@, "entity.name.function"@, s, 12);
        assert("entity.name.type"@[0] == 'e' && "support.function"@[0] == 's');
        lemma_not_both_prefixes("entity.name.type"@, "support.function"@, s, 0);
        assert("entity.name.type"@[0] == 'e' && "variable.function"@[0] == 'v');
        lemma_not_both_prefixes("entity.name.type"@, "variable.function"@, s, 0);
        assert("entity.name.type"@[0] == 'e' && "meta.function-call"@[0] == 'm');
        lemma_not_both_prefixes("entity.name.type"@, "meta.function-call"@, s, 0);
    }
    if "entity.name.class"@.is_prefix_of(s) {
        assert("entity.name.class"@[0] == 'e' && "keyword.operator"@[0] == 'k');
        lemma_not_both_prefixes("entity.name.class"@, "keyword.operator"@, s, 0);
        assert("entity.name.class"@[0] == 'e' && "keyword"@[0] == 'k');
        lemma_not_both_prefixes("entity.name.class"@, "keyword"@, s, 0);
        assert("entity.name.class"@[0] == 'e' && "storage"@[0] == 's');
        lemma_not_both_prefixes("entity.name.class"@, "storage"@, s, 0);
        assert("entity.name.class"@[0] == 'e' && "constant.numeric"@[0] == 'c');
        lemma_not_both_prefixes("entity.name.class"@, "constant.numeric"@, s, 0);
        assert("entity.name.class"@[0] == 'e' && "constant"@[0] == 'c');
        lemma_not_both_prefixes("entity.name.class"@, "constant"@, s, 0);
        assert("entity.name.class"@[12] == 'c' && "entity.name.function"@[12] == 'f');
        lemma_not_both_prefixes("entity.name.class"@, "entity.name.function"@, s, 12);
        assert("entity.name.class"@[0] == 'e' && "support.function"@[0] == 's');
        lemma_not_both_prefixes("entity.name.class"@, "support.function"@, s, 0);
        assert("entity.name.class"@[0] == 'e' && "variable.function"@[0] == 'v');
        lemma_not_both_prefixes("entity.name.class"@, "variable.function"@, s, 0);
        assert("entity.name.class"@[0] == 'e' && "meta.function-call"@[0] == 'm');
        lemma_not_both_prefixes("entity.name.class"@, "meta.function-call"@, s, 0);
    }
    if "entity.name.struct"@.is_prefix_of(s) {
        assert("entity.name.struct"@[0] == 'e' && "keyword.operator"@[0] == 'k');
        lemma_not_both_prefixes("entity.name.struct"@, "keyword.operator"@, s, 0);
        assert("entity.name.struct"@[0] == 'e' && "keyword"@[0] == 'k');
        lemma_not_both_prefixes("entity.name.struct"@, "keyword"@, s, 0);
        assert("entity.name.struct"@[0] == 'e' && "storage"@[0] == 's');
        lemma_not_both_prefixes("entity.name.struct"@, "storage"@, s, 0);
        assert("entity.name.struct"@[0] == 'e' && "constant.numeric"@[0] == 'c');
        lemma_not_both_prefixes("entity.name.struct"@, "constant.numeric"@, s, 0);
        assert("entity.name.struct"@[0] == 'e' && "constant"@[0] == 'c');
        lemma_not_both_prefixes("entity.name.struct"@, "constant"@, s, 0);
        assert("entity.name.struct"@[12] == 's' && "entity.name.function"@[12] == 'f');
        lemma_not_both_prefixes("entity.name.struct"@, "entity.name.function"@, s, 12);
        assert("entity.name.struct"@[0] == 'e' && "support.function"@[0] == 's');
        lemma_not_both_prefixes("entity.name.struct"@, "support.function"@, s, 0);
        assert("entity.name.struct"@[0] == 'e' && "variable.function"@[0] == 'v');
        lemma_not_both_prefixes("entity.name.struct"@, "variable.function"@, s, 0);
        assert("entity.name.struct"@[0] == 'e' && "meta.function-call"@[0] == 'm');
        lemma_not_both_prefixes("entity.name.struct"@, "meta.function-call"@, s, 0);
    }
    if "entity.name.enum"@.is_prefix_of(s) {
        assert("entity.name.enum"@[0] == 'e' && "keyword.operator"@[0] == 'k');
        lemma_not_both_prefixes("entity.name.enum"@, "keyword.operator"@, s, 0);
        assert("entity.name.enum"@[0] == 'e' && "keyword"@[0] == 'k');
        lemma_not_both_prefixes("entity.name.enum"@, "keyword"@, s, 0);
        assert("entity.name.enum"@[0] == 'e' && "storage"@[0] == 's');
        lemma_not_both_prefixes("entity.name.enum"@, "storage"@, s, 0);
        assert("entity.name.enum"@[0] == 'e' && "constant.numeric"@[0] == 'c');
        lemma_not_both_prefixes("entity.name.enum"@, "constant.numeric"@, s, 0);
        assert("entity.name.enum"@[0] == 'e' && "constant"@[0] == 'c');
        lemma_not_both_prefixes("entity.name.enum"@, "constant"@, s, 0);
        assert("entity.name.enum"@[12] == 'e' && "entity.name.function"@[12] == 'f');
        lemma_not_both_prefixes("entity.name.enum"@, "entity.name.function"@, s, 12);
        assert("entity.name.enum"@[0] == 'e' && "support.function"@[0] == 's');
        lemma_not_both_prefixes("entity.name.enum"@, "support.function"@, s, 0);
        assert("entity.name.enum"@[0] == 'e' && "variable.function"@[0] == 'v');
        lemma_not_both_prefixes("entity.name.enum"@, "variable.function"@, s, 0);
        assert("entity.name.enum"@[0] == 'e' && "meta.function-call"@[0] == 'm');
        lemma_not_both_prefixes("entity.name.enum"@, "meta.function-call"@, s, 0);
    }
    if "entity.name.trait"@.is_prefix_of(s) {
        assert("entity.name.trait"@[0] == 'e' && "keyword.operator"@[0] == 'k');
        lemma_not_both_prefixes("entity.name.trait"@, "keyword.operator"@, s, 0);
        assert("entity.name.trait"@[0] == 'e' && "keyword"@[0] == 'k');
        lemma_not_both_prefixes("entity.name.trait"@, "keyword"@, s, 0);
        assert("entity.name.trait"@[0] == 'e' && "storage"@[0] == 's');
        lemma_not_both_prefixes("entity.name.trait"@, "storage"@, s, 0);
        assert("entity.name.trait"@[0] == 'e' && "constant.numeric"@[0] == 'c');
        lemma_not_both_prefixes("entity.name.trait"@, "constant.numeric"@, s, 0);
        assert("entity.name.trait"@[0] == 'e' && "constant"@[0] == 'c');
        lemma_not_both_prefixes("entity.name.trait"@, "constant"@, s, 0);
        assert("entity.name.trait"@[12] == 't' && "entity.name.function"@[12] == 'f');
        lemma_not_both_prefixes("entity.name.trait"@, "entity.name.function"@, s, 12);
        assert("entity.name.trait"@[0] == 'e' && "support.function"@[0] == 's');
        lemma_not_both_prefixes("entity.name.trait"@, "support.function"@, s, 0);
        assert("entity.name.trait"@[0] == 'e' && "variable.function"@[0] == 'v');
        lemma_not_both_prefixes("entity.name.trait"@, "variable.function"@, s, 0);
        assert("entity.name.trait"@[0] == 'e' && "meta.function-call"@[0] == 'm');
        lemma_not_both_prefixes("entity.name.trait"@, "meta.function-call"@, s, 0);
    }
    if "entity.name.namespace"@.is_prefix_of(s) {
        assert("entity.name.namespace"@[0] == 'e' && "keyword.operator"@[0] == 'k');
        lemma_not_both_prefixes("entity.name.namespace"@, "keyword.operator"@, s, 0);
        assert("entity.name.namespace"@[0] == 'e' && "keyword"@[0] == 'k');
        lemma_not_both_prefixes("entity.name.namespace"@, "keyword"@, s, 0);
        assert("entity.name.namespace"@[0] == 'e' && "storage"@[0] == 's');
        lemma_not_both_prefixes("entity.name.namespace"@, "storage"@, s, 0);
        assert("entity.name.namespace"@[0] == 'e' && "constant.numeric"@[0] == 'c');
        lemma_not_both_prefixes("entity.name.namespace"@, "constant.numeric"@, s, 0);
        assert("entity.name.namespace"@[0] == 'e' && "constant"@[0] == 'c');
        lemma_not_both_prefixes("entity.name.namespace"@, "constant"@, s, 0);
        assert("entity.name.namespace"@[12] == 'n' && "entity.name.function"@[12] == 'f');
        lemma_not_both_prefixes("entity.name.namespace"@, "entity.name.function"@, s, 12);
        assert("entity.name.namespace"@[0] == 'e' && "support.function"@[0] == 's');
        lemma_not_both_prefixes("entity.name.namespace"@, "support.function"@, s, 0);
        assert("entity.name.namespace"@[0] == 'e' && "variable.function"@[0] == 'v');
        lemma_not_both_prefixes("entity.name.namespace"@, "variable.function"@, s, 0);
        assert("entity.name.namespace"@[0] == 'e' && "meta.function-call"@[0] == 'm');
        lemma_not_both_prefixes("entity.name.namespace"@, "meta.function-call"@, s, 0);
    }
    if "support.type"@.is_prefix_of(s) {
        assert("support.type"@[0] == 's' && "keyword.operator"@[0] == 'k');
        lemma_not_both_prefixes("support.type"@, "keyword.operator"@, s, 0);
        assert("support.type"@[0] == 's' && "keyword"@[0] == 'k');
        lemma_not_both_prefixes("support.type"@, "keyword"@, s, 0);
        assert("support.type"@[1] == 'u' && "storage"@[1] == 't');
        lemma_not_both_prefixes("support.type"@, "storage"@, s, 1);
        assert("support.type"@[0] == 's' && "constant.numeric"@[0] == 'c');
        lemma_not_both_prefixes("support.type"@, "constant.numeric"@, s, 0);
        assert("support.type"@[0] == 's' && "constant"@[0] == 'c');
        lemma_not_both_prefixes("support.type"@, "constant"@, s, 0);
        assert("support.type"@[0] == 's' && "entity.name.function"@[0] == 'e');
        lemma_not_both_prefixes("support.type"@, "entity.name.function"@, s, 0);
        assert("support.type"@[8] == 't' && "support.function"@[8] == 'f');
        lemma_not_both_prefixes("support.type"@, "support.function"@, s, 8);
        assert("support.type"@[0] == 's' && "variable.function"@[0] == 'v');
        lemma_not_both_prefixes("support.type"@, "variable.function"@, s, 0);
        assert("support.type"@[0] == 's' && "meta.function-call"@[0] == 'm');
        lemma_not_both_prefixes("support.type"@, "meta.function-call"@, s, 0);
    }
    if "support.class"@.is_prefix_of(s) {
        assert("support.class"@[0] == 's' && "keyword.operator"@[0] == 'k');
        lemma_not_both_prefixes("support.class"@, "keyword.operator"@, s, 0);
        assert("support.class"@[0] == 's' && "keyword"@[0] == 'k');
        lemma_not_both_prefixes("support.class"@, "keyword"@, s, 0);
        assert("support.class"@[1] == 'u' && "storage"@[1] == 't');
        lemma_not_both_prefixes("support.class"@, "storage"@, s, 1);
        assert("support.class"@[0] == 's' && "constant.numeric"@[0] == 'c');
        lemma_not_both_prefixes("support.class"@, "constant.numeric"@, s, 0);
        assert("support.class"@[0] == 's' && "constant"@[0] == 'c');
        lemma_not_both_prefixes("support.class"@, "constant"@, s, 0);
        assert("support.class"@[0] == 's' && "entity.name.function"@[0] == 'e');
        lemma_not_both_prefixes("support.class"@, "entity.name.function"@, s, 0);
        assert("support.class"@[8] == 'c' && "support.function"@[8] == 'f');
        lemma_not_both_prefixes("support.class"@, "support.function"@, s, 8);
        assert("support.class"@[0] == 's' && "variable.function"@[0] == 'v');
        lemma_not_both_prefixes("support.class"@, "variable.function"@, s, 0);
        assert("support.class"@[0] == 's' && "meta.function-call"@[0] == 'm');
        lemma_not_both_prefixes("support.class"@, "meta.function-call"@, s, 0);
    }
    if "entity.other.inherited-class"@.is_prefix_of(s) {
        assert("entity.other.inherited-class"@[0] == 'e' && "keyword.operator"@[0] == 'k');
        lemma_not_both_prefixes("entity.other.inherited-class"@, "keyword.operator"@, s, 0);
        assert("entity.other.inherited-class"@[0] == 'e' && "keyword"@[0] == 'k');
        lemma_not_both_prefixes("entity.other.inherited-class"@, "keyword"@, s, 0);
        assert("entity.other.inherited-class"@[0] == 'e' && "storage"@[0] == 's');
        lemma_not_both_prefixes("entity.other.inherited-class"@, "storage"@, s, 0);
        assert("entity.other.inherited-class"@[0] == 'e' && "constant.numeric"@[0] == 'c');
        lemma_not_both_prefixes("entity.other.inherited-class"@, "constant.numeric"@, s, 0);
        assert("entity.other.inherited-class"@[0] == 'e' && "constant"@[0] == 'c');
        lemma_not_both_prefixes("entity.other.inherited-class"@, "constant"@, s, 0);
        assert("entity.other.inherited-class"@[7] == 'o' && "entity.name.function"@[7] == 'n');
        lemma_not_both_prefixes("entity.other.inherited-class"@, "entity.name.function"@, s, 7);
        assert("entity.other.inherited-class"@[0] == 'e' && "support.function"@[0] == 's');
        lemma_not_both_prefixes("entity.other.inherited-class"@, "support.function"@, s, 0);
        assert("entity.other.inherited-class"@[0] == 'e' && "variable.function"@[0] == 'v');
        lemma_not_both_prefixes("entity.other.inherited-class"@, "variable.function"@, s, 0);
        assert("entity.other.inherited-class"@[0] == 'e' && "meta.function-call"@[0] == 'm');
        lemma_not_both_prefixes("entity.other.inherited-class"@, "meta.function-call"@, s, 0);
    }
}

/// Variable scopes (`variable…`, not function variables) are variables.
pub proof fn lemma_variable_scopes(s: Seq<char>)
    requires
        "variable"@.is_prefix_of(s),
        !"variable.function"@.is_prefix_of(s),
    ensures
        classify_spec(s) == Some(Category::Variable),
{
    reveal_strlit("constant");
    reveal_strlit("constant.numeric");
    reveal_strlit("entity.name.class");
    reveal_strlit("entity.name.enum");
    reveal_strlit("entity.name.function");
    reveal_strlit("entity.name.namespace");
    reveal_strlit("entity.name.struct");
    reveal_strlit("entity.name.trait");
    reveal_strlit("entity.name.type");
    reveal_strlit("entity.other.inherited-class");
    reveal_strlit("keyword");
    reveal_strlit("keyword.operator");
    reveal_strlit("meta.function-call");
    reveal_strlit("storage");
    reveal_strlit("support.class");
    reveal_strlit("support.function");
    reveal_strlit("support.type");
    reveal_strlit("variable");
    reveal_strlit("variable.function");
    if "variable"@.is_prefix_of(s) {
        assert("variable"@[0] == 'v' && "keyword.operator"@[0] == 'k');
        lemma_not_both_prefixes("variable"@, "keyword.operator"@, s, 0);
        assert("variable"@[0] == 'v' && "keyword"@[0] == 'k');
        lemma_not_both_prefixes("variable"@, "keyword"@, s, 0);
        assert("variable"@[0] == 'v' && "storage"@[0] == 's');
        lemma_not_both_prefixes("variable"@, "storage"@, s, 0);
        assert("variable"@[0] == 'v' && "constant.numeric"@[0] == 'c');
        lemma_not_both_prefixes("variable"@, "constant.numeric"@, s, 0);
        assert("variable"@[0] == 'v' && "constant"@[0] == 'c');
        lemma_not_both_prefixes("variable"@, "constant"@, s, 0);
        assert("variable"@[0] == 'v' && "entity.name.function"@[0] == 'e');
        lemma_not_both_prefixes("variable"@, "entity.name.function"@, s, 0);
        assert("variable"@[0] == 'v' && "support.function"@[0] == 's');
        lemma_not_both_prefixes("variable"@, "support.function"@, s, 0);
        assert("variable"@[0] == 'v' && "meta.function-call"@[0] == 'm');
        lemma_not_both_prefixes("variable"@, "meta.function-call"@, s, 0);
        assert("variable"@[0] == 'v' && "entity.name.type"@[0] == 'e');
        lemma_not_both_prefixes("variable"@, "entity.name.type"@, s, 0);
        assert("variable"@[0] == 'v' && "entity.name.class"@[0] == 'e');
        lemma_not_both_prefixes("variable"@, "entity.name.class"@, s, 0);
        assert("variable"@[0] == 'v' && "entity.name.struct"@[0] == 'e');
        lemma_not_both_prefixes("variable"@, "entity.name.struct"@, s, 0);
        assert("variable"@[0] == 'v' && "entity.name.enum"@[0] == 'e');
        lemma_not_both_prefixes("variable"@, "entity.name.enum"@, s, 0);
        assert("variable"@[0] == 'v' && "entity.name.trait"@[0] == 'e');
        lemma_not_both_prefixes("variable"@, "entity.name.trait"@, s, 0);
        assert("variable"@[0] == 'v' && "entity.name.namespace"@[0] == 'e');
        lemma_not_both_prefixes("variable"@, "entity.name.namespace"@, s, 0);
        assert("variable"@[0] == 'v' && "support.type"@[0] == 's');
        lemma_not_both_prefixes("variable"@, "support.type"@, s, 0);
        assert("variable"@[0] == 'v' && "support.class"@[0] == 's');
        lemma_not_both_prefixes("variable"@, "support.class"@, s, 0);
        assert("variable"@[0] == 'v' && "entity.other.inherited-class"@[0] == 'e');
        lemma_not_both_prefixes("variable"@, "entity.other.inherited-class"@, s, 0);
    }
}

/// Punctuation scopes (`punctuation…`) are punctuation.
pub proof fn lemma_punctuation_scopes(s: Seq<char>)
    requires
        "punctuation"@.is_prefix_of(s),
    ensures
        classify_spec(s) == Some(Category::Punctuation),
{
    reveal_strlit("constant");
    reveal_strlit("constant.numeric");
    reveal_strlit("entity.name.class");
    reveal_strlit("entity.name.enum");
    reveal_strlit("entity.name.function");
    reveal_strlit("entity.name.namespace");
    reveal_strlit("entity.name.struct");
    reveal_strlit("entity.name.trait");
    reveal_strlit("entity.name.type");
    reveal_strlit("entity.other.inherited-class");
    reveal_strlit("keyword");
    reveal_strlit("keyword.operator");
    reveal_strlit("meta.function-call");
    reveal_strlit("punctuation");
    reveal_strlit("storage");
    reveal_strlit("support.class");
    reveal_strlit("support.function");
    reveal_strlit("support.type");
    reveal_strlit("variable");
    reveal_strlit("variable.function");
    if "punctuation"@.is_prefix_of(s) {
        assert("punctuation"@[0] == 'p' && "keyword.operator"@[0] == 'k');
        lemma_not_both_prefixes("punctuation"@, "keyword.operator"@, s, 0);
        assert("punctuation"@[0] == 'p' && "keyword"@[0] == 'k');
        lemma_not_both_prefixes("punctuation"@, "keyword"@, s, 0);
        assert("punctuation"@[0] == 'p' && "storage"@[0] == 's');
        lemma_not_both_prefixes("punctuation"@, "storage"@, s, 0);
        assert("punctuation"@[0] == 'p' && "constant.numeric"@[0] == 'c');
        lemma_not_both_prefixes("punctuation"@, "constant.numeric"@, s, 0);
        assert("punctuation"@[0] == 'p' && "constant"@[0] == 'c');
        lemma_not_both_prefixes("punctuation"@, "constant"@, s, 0);
        assert("punctuation"@[0] == 'p' && "entity.name.function"@[0] == 'e');
        lemma_not_both_prefixes("punctuation"@, "entity.name.function"@, s, 0);
        assert("punctuation"@[0] == 'p' && "support.function"@[0] == 's');
        lemma_not_both_prefixes("punctuation"@, "support.function"@, s, 0);
        assert("punctuation"@[0] == 'p' && "variable.function"@[0] == 'v');
        lemma_not_both_prefixes("punctuation"@, "variable.function"@, s, 0);
        assert("punctuation"@[0] == 'p' && "meta.function-call"@[0] == 'm');
        lemma_not_both_prefixes("punctuation"@, "meta.function-call"@, s, 0);
        assert("punctuation"@[0] == 'p' && "entity.name.type"@[0] == 'e');
        lemma_not_both_prefixes("punctuation"@, "entity.name.type"@, s, 0);
        assert("punctuation"@[0] == 'p' && "entity.name.class"@[0] == 'e');
        lemma_not_both_prefixes("punctuation"@, "entity.name.class"@, s, 0);
        assert("punctuation"@[0] == 'p' && "entity.name.struct"@[0] == 'e');
        lemma_not_both_prefixes("punctuation"@, "entity.name.struct"@, s, 0);
        assert("punctuation"@[0] == 'p' && "entity.name.enum"@[0] == 'e');
        lemma_not_both_prefixes("punctuation"@, "entity.name.enum"@, s, 0);
        assert("punctuation"@[0] == 'p' && "entity.name.trait"@[0] == 'e');
        lemma_not_both_prefixes("punctuation"@, "entity.name.trait"@, s, 0);
        assert("punctuation"@[0] == 'p' && "entity.name.namespace"@[0] == 'e');
        lemma_not_both_prefixes("punctuation"@, "entity.name.namespace"@, s, 0);
        assert("punctuation"@[0] == 'p' && "support.type"@[0] == 's');
        lemma_not_both_prefixes("punctuation"@, "support.type"@, s, 0);
        assert("punctuation"@[0] == 'p' && "support.class"@[0] == 's');
        lemma_not_both_prefixes("punctuation"@, "support.class"@, s, 0);
        assert("punctuation"@[0] == 'p' && "entity.other.inherited-class"@[0] == 'e');
        lemma_not_both_prefixes("punctuation"@, "entity.other.inherited-class"@, s, 0);
        assert("punctuation"@[0] == 'p' && "variable"@[0] == 'v');
        lemma_not_both_prefixes("punctuation"@, "variable"@, s, 0);
    }
}

/// A scope name without any of the documented prefixes has no category.
pub proof fn lemma_uncategorized_scopes(s: Seq<char>)
    requires
        !"keyword.operator"@.is_prefix_of(s),
        !"keyword"@.is_prefix_of(s),
        !"storage"@.is_prefix_of(s),
        !"constant.numeric"@.is_prefix_of(s),
        !"constant"@.is_prefix_of(s),
        !"entity.name.function"@.is_prefix_of(s),
        !"support.function"@.is_prefix_of(s),
        !"variable.function"@.is_prefix_of(s),
        !"meta.function-call"@.is_prefix_of(s),
        !"entity.name.type"@.is_prefix_of(s),
        !"entity.name.class"@.is_prefix_of(s),
        !"entity.name.struct"@.is_prefix_of(s),
        !"entity.name.enum"@.is_prefix_of(s),
        !"entity.name.trait"@.is_prefix_of(s),
        !"entity.name.namespace"@.is_prefix_of(s),
        !"support.type"@.is_prefix_of(s),
        !"support.class"@.is_prefix_of(s),
        !"entity.other.inherited-class"@.is_prefix_of(s),
        !"variable"@.is_prefix_of(s),
        !"punctuation"@.is_prefix_of(s),
    ensures
        classify_spec(s) is None,
{
}

/// Maps a Sublime Text scope name (`keyword.control.rust`,
/// `entity.name.function`, …) to a palette category; `None` for a scope
/// without one.
pub fn classify(scope: &str) -> (c: Option<Category>)
    ensures
        c == classify_spec(scope@),
{
    let s = chars_of(scope);
    if starts_with(&s, "keyword.operator") {
        Some(Category::Operator)
    } else if starts_with(&s, "keyword") || starts_with(&s, "storage") {
        // storage.type / storage.modifier are `fn`, `let`, `const`, `pub`…
        Some(Category::Keyword)
    } else if starts_with(&s, "constant.numeric") {
        Some(Category::Number)
    } else if starts_with(&s, "constant") {
        Some(Category::Constant)
    } else if starts_with(&s, "entity.name.function") || starts_with(&s, "support.function")
        || starts_with(&s, "variable.function") || starts_with(&s, "meta.function-call") {
        Some(Category::Function)
    } else if starts_with(&s, "entity.name.type") || starts_with(&s, "entity.name.class")
        || starts_with(&s, "entity.name.struct") || starts_with(&s, "entity.name.enum")
        || starts_with(&s, "entity.name.trait") || starts_with(&s, "entity.name.namespace")
        || starts_with(&s, "support.type") || starts_with(&s, "support.class")
        || starts_with(&s, "entity.other.inherited-class") {
        Some(Category::Type)
    } else if starts_with(&s, "variable") {
        Some(Category::Variable)
    } else if starts_with(&s, "punctuation") {
        Some(Category::Punctuation)
    } else {
        None
    }
}

/// The contents of a [`Palette`]: the base color and each category's color,
/// if set.
pub struct PaletteView<C> {
    pub foreground: C,
    pub keyword: Option<C>,
    pub string: Option<C>,
    pub comment: Option<C>,
    pub number: Option<C>,
    pub function: Option<C>,
    pub type_: Option<C>,
    pub constant: Option<C>,
    pub operator: Option<C>,
    pub variable: Option<C>,
    pub punctuation: Option<C>,
}

/// A highlight palette: "token category → color", assembled by hand.
///
/// The base color goes to every character without a rule; a category that
/// is not set falls back to it, so only the wanted colors need setting. The
/// color type is left open (the renderer uses its floating-point color).
#[derive(Clone, Copy, Debug, PartialEq)]
pub struct Palette<C> {
    foreground: C,
    keyword: Option<C>,
    string: Option<C>,
    comment: Option<C>,
    number: Option<C>,
    function: Option<C>,
    type_: Option<C>,
    constant: Option<C>,
    operator: Option<C>,
    variable: Option<C>,
    punctuation: Option<C>,
}

impl<C> View for Palette<C> {
    type V = PaletteView<C>;

    closed spec fn view(&self) -> PaletteView<C> {
        PaletteView {
            foreground: self.foreground,
            keyword: self.keyword,
            string: self.string,
            comment: self.comment,
            number: self.number,
            function: self.function,
            type_: self.type_,
            constant: self.constant,
            operator: self.operator,
            variable: self.variable,
            punctuation: self.punctuation,
        }
    }
}

/// The color a palette sets for a category, if any.
pub open spec fn category_color_spec<C>(p: PaletteView<C>, c: Category) -> Option<C> {
    match c {
        Category::Keyword => p.keyword,
        Category::Number => p.number,
        Category::Function => p.function,
        Category::Type => p.type_,
        Category::Constant => p.constant,
        Category::Operator => p.operator,
        Category::Variable => p.variable,
        Category::Punctuation => p.punctuation,
    }
}

/// A palette without a single category, string or comment rule.
pub open spec fn is_plain_spec<C>(p: PaletteView<C>) -> bool {
    p.keyword is None && p.string is None && p.comment is None && p.number is None
        && p.function is None && p.type_ is None && p.constant is None && p.operator is None
        && p.variable is None && p.punctuation is None
}

/// Scanning the scopes from index `i` outward-in: the color of the first
/// comment or string scope (its rule, else the base color), if there is one.
pub open spec fn comment_or_string_color<C>(p: PaletteView<C>, scopes: Seq<Seq<char>>, i: int) -> Option<
    C,
>
    decreases scopes.len() - i,
{
    if i < 0 || i >= scopes.len() {
        None
    } else if "comment"@.is_prefix_of(scopes[i]) {
        Some(
            match p.comment {
                Some(c) => c,
                None => p.foreground,
            },
        )
    } else if "string"@.is_prefix_of(scopes[i]) {
        Some(
            match p.string {
                Some(c) => c,
                None => p.foreground,
            },
        )
    } else {
        comment_or_string_color(p, scopes, i + 1)
    }
}

/// Scanning the first `k` scopes from the innermost outward: the color of
/// the first scope whose category the palette sets; the base color if none.
pub open spec fn category_scan_color<C>(p: PaletteView<C>, scopes: Seq<Seq<char>>, k: int) -> C
    decreases k,
{
    if k <= 0 || k > scopes.len() {
        p.foreground
    } else {
        match classify_spec(scopes[k - 1]) {
            Some(cat) => match category_color_spec(p, cat) {
                Some(c) => c,
                None => category_scan_color(p, scopes, k - 1),
            },
            None => category_scan_color(p, scopes, k - 1),
        }
    }
}

/// The color of a token with the scope stack `scopes` (outermost first): a
/// comment or string anywhere in the stack decides; otherwise the innermost
/// scope with a set category; otherwise the base color.
pub open spec fn color_for_spec<C>(p: PaletteView<C>, scopes: Seq<Seq<char>>) -> C {
    match comment_or_string_color(p, scopes, 0) {
        Some(c) => c,
        None => category_scan_color(p, scopes, scopes.len() as int),
    }
}

/// Whether a scope name is a comment or a string scope.
pub open spec fn is_comment_or_string(name: Seq<char>) -> bool {
    "comment"@.is_prefix_of(name) || "string"@.is_prefix_of(name)
}

proof fn lemma_comment_or_string_scan<C>(p: PaletteView<C>, scopes: Seq<Seq<char>>, i: int, k: int)
    requires
        0 <= i <= k,
        forall|j: int| i <= j < k && j < scopes.len() ==> !is_comment_or_string(#[trigger] scopes[j]),
    ensures
        comment_or_string_color(p, scopes, i) == comment_or_string_color(p, scopes, k),
    decreases k - i,
{
    if i < k && i < scopes.len() {
        assert(!is_comment_or_string(scopes[i]));
        lemma_comment_or_string_scan(p, scopes, i + 1, k);
    } else if i < k {
        assert(comment_or_string_color(p, scopes, i) is None);
        lemma_comment_or_string_none_past_end(p, scopes, k);
    }
}

proof fn lemma_comment_or_string_none_past_end<C>(p: PaletteView<C>, scopes: Seq<Seq<char>>, k: int)
    requires
        k >= scopes.len(),
    ensures
        comment_or_string_color(p, scopes, k) is None,
{
}

/// How the color of a token follows from its scope stack (outermost first):
/// the first comment or string scope decides (its rule, else the base
/// color); without one, the innermost scope whose category the palette
/// sets gives its color, a scope without a set color passing the choice to
/// the scopes outside it; and a token outside every scope gets the base
/// color.
pub proof fn lemma_color_for_rules<C>(p: PaletteView<C>, scopes: Seq<Seq<char>>, i: int, name: Seq<char>)
    ensures
        color_for_spec(p, Seq::<Seq<char>>::empty()) == p.foreground,
        0 <= i < scopes.len() && "comment"@.is_prefix_of(scopes[i]) && (forall|j: int|
            0 <= j < i ==> !is_comment_or_string(#[trigger] scopes[j])) ==> color_for_spec(p, scopes) == match p.comment {
            Some(c) => c,
            None => p.foreground,
        },
        0 <= i < scopes.len() && "string"@.is_prefix_of(scopes[i]) && !"comment"@.is_prefix_of(scopes[i]) && (forall|j: int|
            0 <= j < i ==> !is_comment_or_string(#[trigger] scopes[j])) ==> color_for_spec(p, scopes) == match p.string {
            Some(c) => c,
            None => p.foreground,
        },
        (forall|j: int| 0 <= j < scopes.len() ==> !is_comment_or_string(#[trigger] scopes[j])) && !is_comment_or_string(name)
            ==> color_for_spec(p, scopes.push(name)) == match classify_spec(name) {
            Some(cat) => match category_color_spec(p, cat) {
                Some(c) => c,
                None => color_for_spec(p, scopes),
            },
            None => color_for_spec(p, scopes),
        },
{
    lemma_no_scopes_gets_foreground(p);
    if 0 <= i < scopes.len() && (forall|j: int| 0 <= j < i ==> !is_comment_or_string(#[trigger] scopes[j])) {
        lemma_comment_or_string_scan(p, scopes, 0, i);
    }
    if (forall|j: int| 0 <= j < scopes.len() ==> !is_comment_or_string(#[trigger] scopes[j])) && !is_comment_or_string(
        name,
    ) {
        let longer = scopes.push(name);
        assert forall|j: int| 0 <= j < longer.len() && j < longer.len() implies !is_comment_or_string(
            #[trigger] longer[j],
        ) by {
            if j < scopes.len() {
                assert(longer[j] == scopes[j]);
            }
        }
        lemma_comment_or_string_scan(p, longer, 0, longer.len() as int);
        lemma_comment_or_string_scan(p, scopes, 0, scopes.len() as int);
        lemma_comment_or_string_none_past_end(p, longer, longer.len() as int);
        lemma_comment_or_string_none_past_end(p, scopes, scopes.len() as int);
        lemma_category_scan_prefix(p, longer, scopes.len() as int);
        assert(longer[scopes.len() as int] == name);
        assert(longer.take(scopes.len() as int) =~= scopes);
        assert(comment_or_string_color(p, longer, 0) is None);
        assert(comment_or_string_color(p, scopes, 0) is None);
        assert(color_for_spec(p, longer) == category_scan_color(p, longer, longer.len() as int));
        assert(color_for_spec(p, scopes) == category_scan_color(p, scopes, scopes.len() as int));
    }
}

/// Scanning the first `k` scopes of a longer stack is scanning them alone.
proof fn lemma_category_scan_prefix<C>(p: PaletteView<C>, longer: Seq<Seq<char>>, k: int)
    requires
        0 <= k < longer.len(),
    ensures
        category_scan_color(p, longer, k) == category_scan_color(p, longer.take(k), k),
    decreases k,
{
    if k > 0 {
        lemma_category_scan_prefix(p, longer, k - 1);
        lemma_category_scan_take(p, longer, k, k - 1);
        assert(longer.take(k)[k - 1] == longer[k - 1]);
    }
}

proof fn lemma_category_scan_take<C>(p: PaletteView<C>, longer: Seq<Seq<char>>, k: int, m: int)
    requires
        0 <= m <= k <= longer.len(),
    ensures
        category_scan_color(p, longer.take(k), m) == category_scan_color(p, longer, m),
    decreases m,
{
    if m > 0 {
        lemma_category_scan_take(p, longer, k, m - 1);
        assert(longer.take(k)[m - 1] == longer[m - 1]);
    }
}

/// Each category takes its own color of the palette: keywords the keyword
/// color, numbers the number color, and so on.
pub proof fn lemma_category_colors<C>(p: PaletteView<C>)
    ensures
        category_color_spec(p, Category::Keyword) == p.keyword,
        category_color_spec(p, Category::Number) == p.number,
        category_color_spec(p, Category::Function) == p.function,
        category_color_spec(p, Category::Type) == p.type_,
        category_color_spec(p, Category::Constant) == p.constant,
        category_color_spec(p, Category::Operator) == p.operator,
        category_color_spec(p, Category::Variable) == p.variable,
        category_color_spec(p, Category::Punctuation) == p.punctuation,
{
}

/// A token outside every scope gets the base color.
pub proof fn lemma_no_scopes_gets_foreground<C>(p: PaletteView<C>)
    ensures
        color_for_spec(p, Seq::<Seq<char>>::empty()) == p.foreground,
{
    assert(comment_or_string_color(p, Seq::<Seq<char>>::empty(), 0) is None);
    assert(category_scan_color(p, Seq::<Seq<char>>::empty(), 0) == p.foreground);
}

/// The names of a list of scopes.
pub open spec fn scope_names(scopes: Seq<String>) -> Seq<Seq<char>> {
    scopes.map_values(|s: String| s@)
}

impl<C: Copy> Palette<C> {
    /// A palette with base color `foreground` and no rules.
    pub fn new(foreground: C) -> (p: Palette<C>)
        ensures
            p@.foreground == foreground,
            is_plain_spec(p@),
    {
        Palette {
            foreground,
            keyword: None,
            string: None,
            comment: None,
            number: None,
            function: None,
            type_: None,
            constant: None,
            operator: None,
            variable: None,
            punctuation: None,
        }
    }

    /// Keyword color.
    pub fn keyword(self, c: C) -> (p: Palette<C>)
        ensures
            p@ == (PaletteView { keyword: Some(c), ..self@ }),
    {
        Palette { keyword: Some(c), ..self }
    }

    /// String-literal color.
    pub fn string(self, c: C) -> (p: Palette<C>)
        ensures
            p@ == (PaletteView { string: Some(c), ..self@ }),
    {
        Palette { string: Some(c), ..self }
    }

    /// Comment color.
    pub fn comment(self, c: C) -> (p: Palette<C>)
        ensures
            p@ == (PaletteView { comment: Some(c), ..self@ }),
    {
        Palette { comment: Some(c), ..self }
    }

    /// Numeric-literal color.
    pub fn number(self, c: C) -> (p: Palette<C>)
        ensures
            p@ == (PaletteView { number: Some(c), ..self@ }),
    {
        Palette { number: Some(c), ..self }
    }

    /// Function-name color.
    pub fn function(self, c: C) -> (p: Palette<C>)
        ensures
            p@ == (PaletteView { function: Some(c), ..self@ }),
    {
        Palette { function: Some(c), ..self }
    }

    /// Type/class-name color.
    pub fn type_(self, c: C) -> (p: Palette<C>)
        ensures
            p@ == (PaletteView { type_: Some(c), ..self@ }),
    {
        Palette { type_: Some(c), ..self }
    }

    /// Constant color.
    pub fn constant(self, c: C) -> (p: Palette<C>)
        ensures
            p@ == (PaletteView { constant: Some(c), ..self@ }),
    {
        Palette { constant: Some(c), ..self }
    }

    /// Operator color.
    pub fn operator(self, c: C) -> (p: Palette<C>)
        ensures
            p@ == (PaletteView { operator: Some(c), ..self@ }),
    {
        Palette { operator: Some(c), ..self }
    }

    /// Variable-name color.
    pub fn variable(self, c: C) -> (p: Palette<C>)
        ensures
            p@ == (PaletteView { variable: Some(c), ..self@ }),
    {
        Palette { variable: Some(c), ..self }
    }

    /// Punctuation color.
    pub fn punctuation(self, c: C) -> (p: Palette<C>)
        ensures
            p@ == (PaletteView { punctuation: Some(c), ..self@ }),
    {
        Palette { punctuation: Some(c), ..self }
    }

    /// The base color.
    pub fn foreground(&self) -> (c: C)
        ensures
            c == self@.foreground,
    {
        self.foreground
    }

    /// Whether the palette has no rule at all, so that parsing can be skipped.
    pub fn is_plain(&self) -> (r: bool)
        ensures
            r == is_plain_spec(self@),
    {
        self.keyword.is_none() && self.string.is_none() && self.comment.is_none()
            && self.number.is_none() && self.function.is_none() && self.type_.is_none()
            && self.constant.is_none() && self.operator.is_none() && self.variable.is_none()
            && self.punctuation.is_none()
    }

    /// The color set for a category, if any.
    pub fn category_color(&self, category: Category) -> (c: Option<C>)
        ensures
            c == category_color_spec(self@, category),
    {
        match category {
            Category::Keyword => self.keyword,
            Category::Number => self.number,
            Category::Function => self.function,
            Category::Type => self.type_,
            Category::Constant => self.constant,
            Category::Operator => self.operator,
            Category::Variable => self.variable,
            Category::Punctuation => self.punctuation,
        }
    }

    /// The color of a token whose scope stack has the names `scopes`
    /// (outermost first): comments and strings color their whole region;
    /// otherwise the innermost scope with a set category decides, falling back
    /// outward, and finally to the base color.
    pub fn color_for(&self, scopes: &Vec<String>) -> (c: C)
        ensures
            c == color_for_spec(self@, scope_names(scopes@)),
    {
        let ghost names = scope_names(scopes@);
        let mut i: usize = 0;
        while i < scopes.len()
            invariant
                names == scope_names(scopes@),
                0 <= i <= scopes@.len(),
                comment_or_string_color(self@, names, 0) == comment_or_string_color(
                    self@,
                    names,
                    i as int,
                ),
            decreases scopes@.len() - i,
        {
            let s = chars_of(scopes[i].as_str());
            assert(s@ == names[i as int]);
            if starts_with(&s, "comment") {
                return match self.comment {
                    Some(c) => c,
                    None => self.foreground,
                };
            }
            if starts_with(&s, "string") {
                return match self.string {
                    Some(c) => c,
                    None => self.foreground,
                };
            }
            i += 1;
        }
        let mut k: usize = scopes.len();
        while k > 0
            invariant
                names == scope_names(scopes@),
                0 <= k <= scopes@.len(),
                comment_or_string_color(self@, names, 0) is None,
                category_scan_color(self@, names, names.len() as int) == category_scan_color(
                    self@,
                    names,
                    k as int,
                ),
            decreases k,
        {
            assert(names[k - 1] == scopes@[k - 1]@);
            match classify(scopes[k - 1].as_str()) {
                Some(cat) => match self.category_color(cat) {
                    Some(c) => {
                        return c;
                    },
                    None => {},
                },
                None => {},
            }
            k -= 1;
        }
        self.foreground
    }
}

/// One change of a scope stack, as the parser reports it (syntect's
/// `ScopeStackOp`), with a pushed scope given by its dotted name: push a
/// scope, pop `n` scopes, set the top `n` scopes (or all of them) aside,
/// bring the group set aside last back, or nothing.
pub enum ScopeOpModel {
    Push(Seq<char>),
    Pop(usize),
    ClearTop(usize),
    ClearAll,
    Restore,
    Noop,
}

/// A scope stack by names: the scopes, outermost first, and the groups of
/// scopes that clears have set aside, the latest last.
pub struct StackModel {
    pub scopes: Seq<Seq<char>>,
    pub cleared: Seq<Seq<Seq<char>>>,
}

/// The stack at the start of a text: no scopes, nothing set aside.
pub open spec fn empty_stack() -> StackModel {
    StackModel { scopes: Seq::empty(), cleared: Seq::empty() }
}

/// How many of `len` scopes stay when the top `n` are taken off (all go when
/// there are fewer than `n`).
pub open spec fn kept_below(len: nat, n: usize) -> int {
    if n >= len {
        0
    } else {
        len - n
    }
}

/// The stack after one change. Popping or clearing more scopes than the
/// stack holds empties it; restoring with nothing set aside changes nothing.
pub open spec fn apply_op(st: StackModel, op: ScopeOpModel) -> StackModel {
    match op {
        ScopeOpModel::Push(name) => StackModel { scopes: st.scopes.push(name), cleared: st.cleared },
        ScopeOpModel::Pop(n) => StackModel {
            scopes: st.scopes.take(kept_below(st.scopes.len(), n)),
            cleared: st.cleared,
        },
        ScopeOpModel::ClearTop(n) => {
            let keep = kept_below(st.scopes.len(), n);
            StackModel { scopes: st.scopes.take(keep), cleared: st.cleared.push(st.scopes.skip(keep)) }
        },
        ScopeOpModel::ClearAll => StackModel {
            scopes: Seq::empty(),
            cleared: st.cleared.push(st.scopes),
        },
        ScopeOpModel::Restore => if st.cleared.len() == 0 {
            st
        } else {
            StackModel { scopes: st.scopes + st.cleared.last(), cleared: st.cleared.drop_last() }
        },
        ScopeOpModel::Noop => st,
    }
}

/// The stack after a run of changes, in order (their offsets play no part).
pub open spec fn apply_ops(st: StackModel, ops: Seq<(usize, ScopeOpModel)>) -> StackModel
    decreases ops.len(),
{
    if ops.len() == 0 {
        st
    } else {
        apply_op(apply_ops(st, ops.drop_last()), ops.last().1)
    }
}

#[verifier::external_type_specification]
#[verifier::external_body]
pub struct ExScopeStack(ScopeStack);

#[verifier::external_type_specification]
#[verifier::external_body]
pub struct ExScopeStackOp(ScopeStackOp);

/// syntect's scope stack, which coloring walks along a text, with the record
/// of its contents by name (its view).
pub struct ScopeTrack {
    stack: ScopeStack,
    names: Ghost<StackModel>,
}

impl View for ScopeTrack {
    type V = StackModel;

    closed spec fn view(&self) -> StackModel {
        self.names@
    }
}

/// The scope changes the parser reported for one line, each at a byte
/// offset into the line, with their record by name (the view).
pub struct LineOps {
    ops: Vec<(usize, ScopeStackOp)>,
    record: Ghost<Seq<(usize, ScopeOpModel)>>,
}

impl View for LineOps {
    type V = Seq<(usize, ScopeOpModel)>;

    closed spec fn view(&self) -> Seq<(usize, ScopeOpModel)> {
        self.record@
    }
}

impl LineOps {
    /// The record matches the changes: one entry each, at the same offset.
    pub closed spec fn wf(&self) -> bool {
        &&& self.ops@.len() == self.record@.len()
        &&& forall|i: int| 0 <= i < self.ops@.len() ==> #[trigger] self.ops@[i].0 == self.record@[i].0
    }

    /// No changes at all.
    pub fn empty() -> (o: LineOps)
        ensures
            o.wf(),
            o@ == Seq::<(usize, ScopeOpModel)>::empty(),
    {
        LineOps { ops: Vec::new(), record: Ghost(Seq::empty()) }
    }

    /// How many changes there are.
    pub fn len(&self) -> (n: usize)
        requires
            self.wf(),
        ensures
            n == self@.len(),
    {
        self.ops.len()
    }

    /// The byte offset of change `i`.
    pub fn offset(&self, i: usize) -> (b: usize)
        requires
            self.wf(),
            i < self@.len(),
        ensures
            b == self@[i as int].0,
    {
        self.ops[i].0
    }
}

/// `ScopeStack::new`: an empty stack. Claimed: nothing on it, nothing set
/// aside.
#[verifier::external_body]
fn new_scope_stack() -> (s: ScopeTrack)
    ensures
        s@ == empty_stack(),
{
    ScopeTrack { stack: ScopeStack::new(), names: Ghost(empty_stack()) }
}

/// `ScopeStack::apply` of change `i` of a line. Claimed, from the source
/// (`scope.rs`, `apply_with_hook`): the stack changes as [`apply_op`] says
/// of the change's record (a pop or clear of more scopes than the stack
/// holds empties it; a restore with nothing set aside is refused and
/// changes nothing, and that refusal is ignored, as coloring ignores it).
#[verifier::external_body]
fn apply_change(track: &mut ScopeTrack, ops: &LineOps, i: usize)
    requires
        ops.wf(),
        i < ops@.len(),
    ensures
        final(track)@ == apply_op(old(track)@, ops@[i as int].1),
{
    let _ = track.stack.apply(&ops.ops[i].1);
    track.names = Ghost(apply_op(track.names@, ops.record@[i as int].1));
}

/// `ScopeStack::as_slice`, each scope by its name (`Scope::build_string`),
/// outermost first. Claimed: they are the names on the record, as the
/// records of the changes applied give each pushed scope its name.
#[verifier::external_body]
fn stack_names(track: &ScopeTrack) -> (v: Vec<String>)
    ensures
        scope_names(v@) == track@.scopes,
{
    track.stack.as_slice().iter().map(|s| s.build_string()).collect()
}

impl ScopeTrack {
    /// An empty stack.
    pub fn new() -> (s: ScopeTrack)
        ensures
            s@ == empty_stack(),
    {
        new_scope_stack()
    }
}

/// The lines of a text put back together give the text; each line is not
/// empty, holds a `'\n'` only as its last character, and every line but
/// the last ends in one.
pub proof fn lemma_split_lines_partition(s: Seq<char>)
    ensures
        split_lines(s).flatten() == s,
        forall|j: int| 0 <= j < split_lines(s).len() ==> (#[trigger] split_lines(s)[j]).len() > 0,
        forall|j: int| 0 <= j < split_lines(s).len() - 1 ==> (#[trigger] split_lines(s)[j]).last() == '\n',
        forall|j: int, k: int|
            0 <= j < split_lines(s).len() && 0 <= k < split_lines(s)[j].len() - 1 ==> #[trigger] split_lines(s)[j][k]
                != '\n',
{
    lemma_split_lines_shape(s);
    split_lines(s).lemma_flatten_and_flatten_alt_are_equivalent();
}

proof fn lemma_split_lines_shape(s: Seq<char>)
    ensures
        split_lines(s).flatten_alt() == s,
        forall|j: int| 0 <= j < split_lines(s).len() ==> (#[trigger] split_lines(s)[j]).len() > 0,
        forall|j: int| 0 <= j < split_lines(s).len() - 1 ==> (#[trigger] split_lines(s)[j]).last() == '\n',
        forall|j: int, k: int|
            0 <= j < split_lines(s).len() && 0 <= k < split_lines(s)[j].len() - 1 ==> #[trigger] split_lines(s)[j][k]
                != '\n',
    decreases s.len(),
{
    if s.len() == 0 {
        assert(split_lines(s).flatten_alt() =~= Seq::<char>::empty());
    } else {
        let t = s.drop_last();
        let x = s.last();
        lemma_split_lines_shape(t);
        let init = split_lines(t);
        let all = split_lines(s);
        assert(t.push(x) =~= s);
        if init.len() == 0 || init.last().last() == '\n' {
            assert(all == init.push(seq![x]));
            assert(all.drop_last() =~= init);
            assert(all.flatten_alt() == init.flatten_alt() + seq![x]);
            assert forall|j: int| 0 <= j < all.len() - 1 implies (#[trigger] all[j]).last() == '\n' by {
                assert(all[j] == init[j]);
            }
            assert forall|j: int, k: int| 0 <= j < all.len() && 0 <= k < all[j].len() - 1 implies #[trigger] all[j][k]
                != '\n' by {
                if j < init.len() {
                    assert(all[j] == init[j]);
                }
            }
            assert forall|j: int| 0 <= j < all.len() implies (#[trigger] all[j]).len() > 0 by {
                if j < init.len() {
                    assert(all[j] == init[j]);
                }
            }
        } else {
            let head = init.drop_last();
            let l = init.last();
            assert(all == head.push(l.push(x)));
            assert(all.drop_last() =~= head);
            assert(init.drop_last() =~= head);
            assert(init.flatten_alt() == head.flatten_alt() + l);
            assert(all.flatten_alt() == head.flatten_alt() + l.push(x));
            assert(head.flatten_alt() + l.push(x) =~= (head.flatten_alt() + l).push(x));
            assert forall|k: int| 0 <= k < l.len() implies l[k] != '\n' by {
                if k < l.len() - 1 {
                    assert(init[init.len() - 1][k] == l[k]);
                }
            }
            assert forall|j: int| 0 <= j < all.len() - 1 implies (#[trigger] all[j]).last() == '\n' by {
                assert(all[j] == init[j]);
            }
            assert forall|j: int, k: int| 0 <= j < all.len() && 0 <= k < all[j].len() - 1 implies #[trigger] all[j][k]
                != '\n' by {
                if j < all.len() - 1 {
                    assert(all[j] == init[j]);
                } else {
                    assert(all[j] == l.push(x));
                    assert(all[j][k] == l[k]);
                }
            }
            assert forall|j: int| 0 <= j < all.len() implies (#[trigger] all[j]).len() > 0 by {
                if j < all.len() - 1 {
                    assert(all[j] == init[j]);
                }
            }
        }
    }
}

/// The changes applied when the character at byte `b` is colored: every
/// change before that count has an offset of at most `b`, and the next one
/// (if any) lies beyond `b`.
pub proof fn lemma_ops_due_is_first_beyond(ops: Seq<(usize, ScopeOpModel)>, b: int)
    ensures
        ops_due(ops, b) <= ops.len(),
        forall|j: int| 0 <= j < ops_due(ops, b) ==> #[trigger] ops[j].0 <= b,
        ops_due(ops, b) < ops.len() ==> ops[ops_due(ops, b) as int].0 > b,
{
    lemma_due_from_shape(ops, b, 0);
}

proof fn lemma_due_from_shape(ops: Seq<(usize, ScopeOpModel)>, b: int, k: nat)
    requires
        k <= ops.len(),
    ensures
        k <= due_from(ops, b, k) <= ops.len(),
        forall|j: int| k <= j < due_from(ops, b, k) ==> #[trigger] ops[j].0 <= b,
        due_from(ops, b, k) < ops.len() ==> ops[due_from(ops, b, k) as int].0 > b,
    decreases ops.len() - k,
{
    if k < ops.len() && ops[k as int].0 <= b {
        lemma_due_from_shape(ops, b, k + 1);
    }
}

/// A pushed scope is on top: pushing then popping one scope gives the stack
/// back, and clearing the top scopes then restoring them gives it back too.
pub proof fn lemma_scope_stack_undo(st: StackModel, name: Seq<char>, n: usize)
    ensures
        apply_op(st, ScopeOpModel::Push(name)).scopes.last() == name,
        apply_op(apply_op(st, ScopeOpModel::Push(name)), ScopeOpModel::Pop(1)) == st,
        apply_op(apply_op(st, ScopeOpModel::ClearTop(n)), ScopeOpModel::Restore) == st,
        apply_op(apply_op(st, ScopeOpModel::ClearAll), ScopeOpModel::Restore) == st,
        apply_op(st, ScopeOpModel::ClearAll).scopes.len() == 0,
        apply_op(st, ScopeOpModel::Pop(n)).scopes == st.scopes.take(
            if n >= st.scopes.len() { 0 } else { st.scopes.len() - n },
        ),
{
    let pushed = apply_op(st, ScopeOpModel::Push(name));
    assert(pushed.scopes.take(st.scopes.len() as int) =~= st.scopes);
    let cleared = apply_op(st, ScopeOpModel::ClearTop(n));
    let keep = kept_below(st.scopes.len(), n);
    assert(cleared.cleared.drop_last() =~= st.cleared);
    assert(st.scopes.take(keep) + st.scopes.skip(keep) =~= st.scopes);
    let all = apply_op(st, ScopeOpModel::ClearAll);
    assert(all.cleared.drop_last() =~= st.cleared);
    assert(Seq::<Seq<char>>::empty() + st.scopes =~= st.scopes);
}

/// The number of bytes of `c` in UTF-8.
pub open spec fn utf8_len(c: char) -> nat {
    if (c as u32) < 0x80 {
        1
    } else if (c as u32) < 0x800 {
        2
    } else if (c as u32) < 0x10000 {
        3
    } else {
        4
    }
}

/// The byte offset of character `i` of `line` in its UTF-8 encoding.
pub open spec fn byte_offset(line: Seq<char>, i: int) -> nat
    decreases i,
{
    if i <= 0 || i > line.len() {
        0
    } else {
        byte_offset(line, i - 1) + utf8_len(line[i - 1])
    }
}

/// The UTF-8 encoding of two runs of characters is the encoding of the
/// first followed by that of the second.
proof fn lemma_encode_utf8_concat(a: Seq<char>, b: Seq<char>)
    ensures
        vstd::utf8::encode_utf8(a + b) == vstd::utf8::encode_utf8(a) + vstd::utf8::encode_utf8(b),
    decreases a.len(),
{
    if a.len() == 0 {
        assert(a + b =~= b);
        assert(vstd::utf8::encode_utf8(a) =~= Seq::<u8>::empty());
    } else {
        lemma_encode_utf8_concat(a.drop_first(), b);
        assert((a + b).drop_first() =~= a.drop_first() + b);
        assert((a + b)[0] == a[0]);
    }
}

/// [`utf8_len`] is the number of bytes of the character's UTF-8 encoding.
pub proof fn lemma_utf8_len_is_encoding_len(c: char)
    ensures
        utf8_len(c) == vstd::utf8::encode_scalar(c as u32).len(),
{
    vstd::utf8::char_is_scalar(c);
}

/// The byte offset of character `i` of a line is the length of the UTF-8
/// encoding of the characters before it: where `str::char_indices` puts
/// it, and where the parser's offsets into the line's bytes point.
pub proof fn lemma_byte_offset_is_utf8_position(line: Seq<char>, i: int)
    requires
        0 <= i <= line.len(),
    ensures
        byte_offset(line, i) == vstd::utf8::encode_utf8(line.take(i)).len(),
    decreases i,
{
    if i == 0 {
        assert(line.take(0) =~= Seq::<char>::empty());
    } else {
        lemma_byte_offset_is_utf8_position(line, i - 1);
        let c = line[i - 1];
        assert(line.take(i) =~= line.take(i - 1) + seq![c]);
        lemma_encode_utf8_concat(line.take(i - 1), seq![c]);
        assert(seq![c].drop_first() =~= Seq::<char>::empty());
        assert(vstd::utf8::encode_utf8(Seq::<char>::empty()) =~= Seq::<u8>::empty());
        assert(vstd::utf8::encode_utf8(seq![c]) =~= vstd::utf8::encode_scalar(c as u32));
        lemma_utf8_len_is_encoding_len(c);
    }
}

/// From change `k` on, the index of the first change whose offset lies
/// beyond byte `b` (the length when there is none).
pub open spec fn due_from(ops: Seq<(usize, ScopeOpModel)>, b: int, k: nat) -> nat
    decreases ops.len() - k,
{
    if k >= ops.len() {
        ops.len()
    } else if ops[k as int].0 > b {
        k
    } else {
        due_from(ops, b, k + 1)
    }
}

/// How many of a line's changes have been applied when the character at
/// byte `b` is colored: changes are taken in order while their offset is at
/// most `b`.
pub open spec fn ops_due(ops: Seq<(usize, ScopeOpModel)>, b: int) -> nat {
    due_from(ops, b, 0)
}

/// The colors of the characters of one line, starting from the stack `st`:
/// each character gets the palette's color for the stack after the changes
/// due at its byte offset.
pub open spec fn line_colors<C>(
    p: PaletteView<C>,
    st: StackModel,
    ops: Seq<(usize, ScopeOpModel)>,
    line: Seq<char>,
) -> Seq<C> {
    Seq::new(
        line.len(),
        |i: int| color_for_spec(p, apply_ops(st, ops.take(ops_due(ops, byte_offset(line, i) as int) as int)).scopes),
    )
}

proof fn lemma_due_from(ops: Seq<(usize, ScopeOpModel)>, b: int, j: nat, k: nat)
    requires
        j <= k <= ops.len(),
        forall|m: int| j <= m < k ==> ops[m].0 <= b,
        k == ops.len() || ops[k as int].0 > b,
    ensures
        due_from(ops, b, j) == k,
    decreases k - j,
{
    if j < k {
        lemma_due_from(ops, b, j + 1, k);
    }
}

/// The UTF-8 width of a character.
fn utf8_width(c: char) -> (n: u128)
    ensures
        n == utf8_len(c),
{
    let v = c as u32;
    if v < 0x80 {
        1
    } else if v < 0x800 {
        2
    } else if v < 0x10000 {
        3
    } else {
        4
    }
}

/// Colors the characters of one line (with its `'\n'`, if any) from the
/// scope changes the parser reported for it, appending one color per
/// character to `colors`; the stack ends with all the line's changes applied.
pub fn color_line<C: Copy>(
    line: &Vec<char>,
    ops: &LineOps,
    palette: &Palette<C>,
    stack: &mut ScopeTrack,
    colors: &mut Vec<C>,
)
    requires
        ops.wf(),
    ensures
        final(colors)@ == old(colors)@ + line_colors(palette@, old(stack)@, ops@, line@),
        final(stack)@ == apply_ops(old(stack)@, ops@),
{
    let ghost model = ops@;
    let ghost st0 = stack@;
    let ghost c0 = colors@;
    let ghost want = line_colors(palette@, st0, model, line@);
    let mut next: usize = 0;
    let mut offset: u128 = 0;
    let mut i: usize = 0;
    assert(model.take(0) =~= Seq::<(usize, ScopeOpModel)>::empty());
    assert(want.take(0) =~= Seq::<C>::empty());
    while i < line.len()
        invariant
            model == ops@,
            ops.wf(),
            want == line_colors(palette@, st0, model, line@),
            0 <= i <= line@.len(),
            0 <= next <= ops@.len(),
            offset == byte_offset(line@, i as int),
            offset <= 4 * i,
            forall|j: int| 0 <= j < next ==> model[j].0 <= offset,
            stack@ == apply_ops(st0, model.take(next as int)),
            colors@ == c0 + want.take(i as int),
        decreases line@.len() - i,
    {
        // Apply every scope change that starts no later than this character.
        while next < ops.len() && (ops.offset(next) as u128) <= offset
            invariant
                model == ops@,
                ops.wf(),
                0 <= next <= ops@.len(),
                forall|j: int| 0 <= j < next ==> model[j].0 <= offset,
                stack@ == apply_ops(st0, model.take(next as int)),
            decreases ops@.len() - next,
        {
            assert(model.take(next + 1).drop_last() =~= model.take(next as int));
            apply_change(stack, ops, next);
            next += 1;
        }
        proof {
            lemma_due_from(model, offset as int, 0, next as nat);
        }
        let names = stack_names(stack);
        let c = palette.color_for(&names);
        colors.push(c);
        assert(want.take(i + 1) =~= want.take(i as int).push(c));
        offset = offset + utf8_width(line[i]);
        i += 1;
    }
    // Scope changes after the last character of the line.
    while next < ops.len()
        invariant
            model == ops@,
            ops.wf(),
            0 <= next <= ops@.len(),
            stack@ == apply_ops(st0, model.take(next as int)),
        decreases ops@.len() - next,
    {
        assert(model.take(next + 1).drop_last() =~= model.take(next as int));
        apply_change(stack, ops, next);
        next += 1;
    }
    assert(model.take(ops@.len() as int) =~= model);
    assert(want.take(line@.len() as int) =~= want);
}

#[verifier::external_type_specification]
#[verifier::external_body]
pub struct ExSyntaxSet(SyntaxSet);

#[verifier::external_type_specification]
#[verifier::external_body]
pub struct ExParseState(ParseState);

/// The grammars bundled with `syntect` (its default set, for lines that keep
/// their `'\n'`). This is the only set a [`Grammars`] can hold.
pub struct Grammars {
    set: SyntaxSet,
}

/// `SyntaxSet::load_defaults_newlines`: the bundled grammars. Nothing is
/// claimed of the set itself; what parsers built from it report is named by
/// [`syntect_has_grammar`] and [`syntect_line_ops`].
#[verifier::external_body]
fn load_default_syntaxes() -> SyntaxSet {
    SyntaxSet::load_defaults_newlines()
}

impl Grammars {
    /// Loads the bundled grammars (worth doing once per process).
    pub fn builtin() -> Grammars {
        Grammars { set: load_default_syntaxes() }
    }
}

/// Whether the bundled grammars have one for `token`, looked up by file
/// extension, then by name without regard to case.
pub uninterp spec fn syntect_has_grammar(token: Seq<char>) -> bool;

/// What the bundled grammar for `token`, after it has parsed the lines
/// `earlier`, reports for `line`: its scope changes, each at a byte offset
/// into `line`, with pushed scopes by name; `None` for a parse error.
pub uninterp spec fn syntect_line_ops(
    token: Seq<char>,
    earlier: Seq<Seq<char>>,
    line: Seq<char>,
) -> Option<Seq<(usize, ScopeOpModel)>>;

/// A parser over the lines of one text, bound to the grammar set it was
/// built from. Its view is the grammar token and the lines it was fed.
struct LineParser<'a> {
    set: &'a SyntaxSet,
    state: ParseState,
    token: Ghost<Seq<char>>,
    fed: Ghost<Seq<Seq<char>>>,
}

impl<'a> View for LineParser<'a> {
    type V = (Seq<char>, Seq<Seq<char>>);

    closed spec fn view(&self) -> (Seq<char>, Seq<Seq<char>>) {
        (self.token@, self.fed@)
    }
}

/// `SyntaxSet::find_syntax_by_token` on the bundled grammars, then
/// `ParseState::new` on the grammar found. Claimed: a parser comes back
/// exactly when [`syntect_has_grammar`] holds of `token`, for that token and
/// fed nothing yet.
#[verifier::external_body]
fn start_parser<'a>(grammars: &'a Grammars, token: &str) -> (p: Option<LineParser<'a>>)
    ensures
        p is Some <==> syntect_has_grammar(token@),
        p matches Some(q) ==> q@ == (token@, Seq::<Seq<char>>::empty()),
{
    let syntax = grammars.set.find_syntax_by_token(token)?;
    let state = ParseState::new(syntax);
    Some(LineParser { set: &grammars.set, state, token: Ghost(token@), fed: Ghost(Seq::empty()) })
}

/// `ParseState::parse_line` with the set the parser was built from: the
/// scope changes of one line, each at a byte offset into it. Claimed: the
/// parser has then been fed `line` too; the changes come back (`None` for a
/// parse error) exactly when [`syntect_line_ops`] of its token, the lines fed
/// before and `line` is `Some`, and their record is that value, one entry
/// per change at the same offset.
#[verifier::external_body]
fn parse_next_line(parser: &mut LineParser, line: &str) -> (r: Option<LineOps>)
    ensures
        final(parser)@ == (old(parser)@.0, old(parser)@.1.push(line@)),
        r is Some <==> syntect_line_ops(old(parser)@.0, old(parser)@.1, line@) is Some,
        r matches Some(o) ==> o.wf() && syntect_line_ops(old(parser)@.0, old(parser)@.1, line@) == Some(o@),
{
    let ops = parser.state.parse_line(line, parser.set);
    let record = Ghost(line_ops(parser.token@, parser.fed@, line@));
    parser.fed = Ghost(parser.fed@.push(line@));
    Some(LineOps { ops: ops.ok()?, record })
}

/// The lines of a text, each with its `'\n'`; the last one may lack it.
/// Lines are never empty, and an empty text has none.
pub open spec fn split_lines(s: Seq<char>) -> Seq<Seq<char>>
    decreases s.len(),
{
    if s.len() == 0 {
        Seq::empty()
    } else {
        let init = split_lines(s.drop_last());
        if init.len() == 0 || init.last().last() == '\n' {
            init.push(seq![s.last()])
        } else {
            init.drop_last().push(init.last().push(s.last()))
        }
    }
}

/// The changes used for `line`: the parser's, or none where it failed.
pub open spec fn line_ops(token: Seq<char>, earlier: Seq<Seq<char>>, line: Seq<char>) -> Seq<
    (usize, ScopeOpModel),
> {
    match syntect_line_ops(token, earlier, line) {
        Some(ops) => ops,
        None => Seq::empty(),
    }
}

/// The scope stack after coloring `lines` with the grammar for `token`.
pub open spec fn stack_after(token: Seq<char>, lines: Seq<Seq<char>>) -> StackModel
    decreases lines.len(),
{
    if lines.len() == 0 {
        empty_stack()
    } else {
        let earlier = lines.drop_last();
        apply_ops(stack_after(token, earlier), line_ops(token, earlier, lines.last()))
    }
}

/// The colors of the characters of `lines`, parsed one after another with
/// the grammar for `token`; the scope stack carries over from line to line.
pub open spec fn colors_of_lines<C>(p: PaletteView<C>, token: Seq<char>, lines: Seq<Seq<char>>) -> Seq<C>
    decreases lines.len(),
{
    if lines.len() == 0 {
        Seq::empty()
    } else {
        let earlier = lines.drop_last();
        colors_of_lines(p, token, earlier) + line_colors(
            p,
            stack_after(token, earlier),
            line_ops(token, earlier, lines.last()),
            lines.last(),
        )
    }
}

/// Whether a text in `language` is parsed at all: it has a grammar token,
/// the palette has some rule and the bundled grammars know the token.
pub open spec fn is_parsed<C>(language: Language, p: PaletteView<C>) -> bool {
    &&& language_token(language) is Some
    &&& !is_plain_spec(p)
    &&& syntect_has_grammar(language_token(language)->0)
}

/// Every line is finished: not empty, and ends in `'\n'`.
spec fn finished_lines(lines: Seq<Seq<char>>) -> bool {
    forall|j: int| 0 <= j < lines.len() ==> (#[trigger] lines[j]).len() > 0 && lines[j].last() == '\n'
}

proof fn lemma_finished_push(done: Seq<Seq<char>>, line: Seq<char>)
    requires
        finished_lines(done),
        line.len() > 0,
        line.last() == '\n',
    ensures
        finished_lines(done.push(line)),
{
    let all = done.push(line);
    assert forall|j: int| 0 <= j < all.len() implies (#[trigger] all[j]).len() > 0 && all[j].last() == '\n' by {
        if j < done.len() {
            assert(all[j] == done[j]);
        }
    }
}

/// Splitting a text one character longer: the character joins the open
/// line, or starts a line after a finished one.
proof fn lemma_split_lines_push(s: Seq<char>, done: Seq<Seq<char>>, line: Seq<char>, c: char)
    requires
        split_lines(s) == (if line.len() == 0 {
            done
        } else {
            done.push(line)
        }),
        finished_lines(done),
        forall|j: int| 0 <= j < line.len() ==> line[j] != '\n',
    ensures
        split_lines(s.push(c)) == done.push(line.push(c)),
{
    assert(s.push(c).drop_last() =~= s);
    if line.len() == 0 {
        assert(line.push(c) =~= seq![c]);
    } else {
        assert(line[line.len() - 1] != '\n');
        assert(done.push(line).drop_last() =~= done);
    }
}

/// Parses one line, colors its characters and carries the stack over.
fn feed_line<C: Copy>(
    parser: &mut LineParser,
    line: &Vec<char>,
    palette: &Palette<C>,
    stack: &mut ScopeTrack,
    colors: &mut Vec<C>,
)
    ensures
        final(parser)@ == (old(parser)@.0, old(parser)@.1.push(line@)),
        final(colors)@ == old(colors)@ + line_colors(
            palette@,
            old(stack)@,
            line_ops(old(parser)@.0, old(parser)@.1, line@),
            line@,
        ),
        final(stack)@ == apply_ops(old(stack)@, line_ops(old(parser)@.0, old(parser)@.1, line@)),
{
    let text = string_of(line);
    let ops = match parse_next_line(parser, text.as_str()) {
        Some(ops) => ops,
        None => LineOps::empty(),
    };
    assert(ops@ =~= line_ops(old(parser)@.0, old(parser)@.1, line@));
    color_line(line, &ops, palette, stack, colors);
}

/// The color of each character of `text` (one per `char`, `'\n'` included).
/// When the text is parsed (see [`is_parsed`]) it is split into lines that
/// keep their `'\n'`, the lines go through the grammar one after another,
/// and each character gets [`Palette::color_for`] of the scope stack in
/// effect at it. Otherwise every character gets the base color.
pub fn compute_colors<C: Copy>(
    text: &str,
    language: Language,
    palette: &Palette<C>,
    grammars: &Grammars,
) -> (colors: Vec<C>)
    ensures
        colors@.len() == text@.len(),
        is_parsed(language, palette@) ==> colors@ == colors_of_lines(
            palette@,
            language_token(language)->0,
            split_lines(text@),
        ),
        !is_parsed(language, palette@) ==> colors@ == Seq::new(text@.len(), |k: int| palette@.foreground),
{
    let chars = chars_of(text);
    let n = chars.len();
    let foreground = palette.foreground();
    let token = match language.token() {
        Some(t) => {
            if palette.is_plain() {
                return uniform(foreground, n);
            }
            t
        },
        None => {
            return uniform(foreground, n);
        },
    };
    let mut parser = match start_parser(grammars, token) {
        Some(p) => p,
        None => {
            return uniform(foreground, n);
        },
    };
    let ghost tok = token@;
    let ghost p = palette@;
    let mut stack = ScopeTrack::new();
    let mut colors: Vec<C> = Vec::new();
    let mut line: Vec<char> = Vec::new();
    let ghost mut done: Seq<Seq<char>> = Seq::empty();
    let mut i: usize = 0;
    assert(chars@.take(0) =~= Seq::<char>::empty());
    while i < n
        invariant
            n == chars@.len(),
            chars@ == text@,
            p == palette@,
            0 <= i <= n,
            colors@.len() + line@.len() == i,
            parser@ == (tok, done),
            stack@ == stack_after(tok, done),
            colors@ == colors_of_lines(p, tok, done),
            split_lines(chars@.take(i as int)) == (if line@.len() == 0 {
                done
            } else {
                done.push(line@)
            }),
            finished_lines(done),
            forall|j: int| 0 <= j < line@.len() ==> line@[j] != '\n',
        decreases n - i,
    {
        let c = chars[i];
        proof {
            assert(chars@.take(i + 1) =~= chars@.take(i as int).push(c));
            lemma_split_lines_push(chars@.take(i as int), done, line@, c);
        }
        line.push(c);
        if c == '\n' {
            let ghost old_done = done;
            feed_line(&mut parser, &line, palette, &mut stack, &mut colors);
            proof {
                done = done.push(line@);
                assert(done.drop_last() =~= old_done);
                lemma_finished_push(old_done, line@);
            }
            line = Vec::new();
        }
        i += 1;
    }
    if line.len() > 0 {
        let ghost old_done = done;
        feed_line(&mut parser, &line, palette, &mut stack, &mut colors);
        proof {
            done = done.push(line@);
            assert(done.drop_last() =~= old_done);
        }
    }
    assert(chars@.take(n as int) =~= chars@);
    colors
}

/// `n` copies of the base color.
fn uniform<C: Copy>(foreground: C, n: usize) -> (v: Vec<C>)
    ensures
        v@ == Seq::new(n as nat, |k: int| foreground),
{
    let mut v: Vec<C> = Vec::new();
    let mut i: usize = 0;
    while i < n
        invariant
            0 <= i <= n,
            v@ == Seq::new(i as nat, |k: int| foreground),
        decreases n - i,
    {
        v.push(foreground);
        i += 1;
        assert(v@ =~= Seq::new(i as nat, |k: int| foreground));
    }
    v
}

} // verus!
