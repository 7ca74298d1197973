//! Laws of the language profiles: which extensions select a language, and which words open scopes and
//! functions or belong to control flow in it.

use crate::header_laws;
use crate::lex_spec::TokenView;
use crate::scope::ScopeKind;
use crate::scope_spec;
use crate::scope_spec::ProfileView;
use vstd::prelude::*;

verus! {

/// A language family that shares a profile.
pub enum Language {
    C,
    CSharp,
    Java,
    Go,
    Rust,
    Kotlin,
    Swift,
}

/// The language of a file extension: C and C++ for all that are not those of another one.
pub open spec fn language_of(ext: Seq<char>) -> Language {
    if ext == "swift"@ {
        Language::Swift
    } else if ext == "kt"@ || ext == "kts"@ {
        Language::Kotlin
    } else if ext == "rs"@ {
        Language::Rust
    } else if ext == "go"@ {
        Language::Go
    } else if ext == "java"@ {
        Language::Java
    } else if ext == "cs"@ {
        Language::CSharp
    } else {
        Language::C
    }
}

/// The kind of scope that a word introduces in a language.
pub open spec fn kind_of_word(lang: Language, w: Seq<char>) -> Option<ScopeKind> {
    if w == "enum"@ {
        Some(ScopeKind::Enum)
    } else if w == "namespace"@ && (lang is C || lang is CSharp) {
        Some(ScopeKind::Namespace)
    } else if w == "class"@ && (lang is C || lang is CSharp || lang is Java || lang is Kotlin || lang is Swift) {
        Some(ScopeKind::Class)
    } else if w == "struct"@ && (lang is C || lang is CSharp || lang is Go || lang is Rust || lang is Swift) {
        Some(ScopeKind::Struct)
    } else if w == "union"@ && (lang is C || lang is Rust) {
        Some(ScopeKind::Union)
    } else if w == "interface"@ && (lang is C || lang is CSharp || lang is Java || lang is Go || lang is Kotlin) {
        Some(ScopeKind::Interface)
    } else if w == "record"@ && (lang is CSharp) {
        Some(ScopeKind::Class)
    } else if w == "mod"@ && (lang is Rust) {
        Some(ScopeKind::Namespace)
    } else if w == "impl"@ && (lang is Rust) {
        Some(ScopeKind::Class)
    } else if w == "trait"@ && (lang is Rust) {
        Some(ScopeKind::Interface)
    } else if w == "object"@ && (lang is Kotlin) {
        Some(ScopeKind::Class)
    } else if w == "protocol"@ && (lang is Swift) {
        Some(ScopeKind::Interface)
    } else if w == "extension"@ && (lang is Swift) {
        Some(ScopeKind::Class)
    } else {
        None
    }
}

/// The word introduces a function in a language.
pub open spec fn is_fn_word(lang: Language, w: Seq<char>) -> bool {
    ||| w == "func"@ && (lang is Go || lang is Swift)
    ||| w == "fn"@ && lang is Rust
    ||| w == "fun"@ && lang is Kotlin
}

/// The word belongs to control flow in a language.
pub open spec fn is_control_word(lang: Language, w: Seq<char>) -> bool {
    ||| w == "if"@
    ||| w == "else"@
    ||| w == "for"@
    ||| w == "while"@ && !(lang is Go)
    ||| w == "do"@ && !(lang is Go)
    ||| w == "switch"@ && !(lang is Kotlin)
    ||| w == "try"@ && !(lang is Go) && !(lang is Swift)
    ||| w == "catch"@ && !(lang is Go)
    ||| w == "case"@ && (lang is C)
    ||| w == "default"@ && (lang is C)
    ||| w == "__try"@ && (lang is C)
    ||| w == "__except"@ && (lang is C)
    ||| w == "__finally"@ && (lang is C)
    ||| w == "__attribute__"@ && (lang is C)
    ||| w == "__declspec"@ && (lang is C)
    ||| w == "select"@ && (lang is Go)
    ||| w == "when"@ && (lang is Kotlin)
    ||| w == "repeat"@ && (lang is Swift)
    ||| w == "guard"@ && (lang is Swift)
    ||| w == "defer"@ && (lang is Swift)
}

/// The profile has the words of the language.
pub open spec fn fits(lang: Language, p: ProfileView, w: Seq<char>) -> bool {
    &&& header_laws::introduces(p, w) == kind_of_word(lang, w) is Some
    &&& forall|j: int|
        0 <= j < p.scope_keywords.len() && (#[trigger] p.scope_keywords[j]).0 == w ==> Some(
            p.scope_keywords[j].1,
        ) == kind_of_word(lang, w)
    &&& p.fn_keywords.contains(w) == is_fn_word(lang, w)
    &&& p.control_flow.contains(w) == is_control_word(lang, w)
}

proof fn lemma_words_differ()
    ensures
        "enum"@ != "namespace"@,
        "enum"@ != "class"@,
        "enum"@ != "struct"@,
        "enum"@ != "union"@,
        "enum"@ != "interface"@,
        "enum"@ != "record"@,
        "enum"@ != "mod"@,
        "enum"@ != "impl"@,
        "enum"@ != "trait"@,
        "enum"@ != "object"@,
        "enum"@ != "protocol"@,
        "enum"@ != "extension"@,
        "namespace"@ != "class"@,
        "namespace"@ != "struct"@,
        "namespace"@ != "union"@,
        "namespace"@ != "interface"@,
        "namespace"@ != "record"@,
        "namespace"@ != "mod"@,
        "namespace"@ != "impl"@,
        "namespace"@ != "trait"@,
        "namespace"@ != "object"@,
        "namespace"@ != "protocol"@,
        "namespace"@ != "extension"@,
        "class"@ != "struct"@,
        "class"@ != "union"@,
        "class"@ != "interface"@,
        "class"@ != "record"@,
        "class"@ != "mod"@,
        "class"@ != "impl"@,
        "class"@ != "trait"@,
        "class"@ != "object"@,
        "class"@ != "protocol"@,
        "class"@ != "extension"@,
        "struct"@ != "union"@,
        "struct"@ != "interface"@,
        "struct"@ != "record"@,
        "struct"@ != "mod"@,
        "struct"@ != "impl"@,
        "struct"@ != "trait"@,
        "struct"@ != "object"@,
        "struct"@ != "protocol"@,
        "struct"@ != "extension"@,
        "union"@ != "interface"@,
        "union"@ != "record"@,
        "union"@ != "mod"@,
        "union"@ != "impl"@,
        "union"@ != "trait"@,
        "union"@ != "object"@,
        "union"@ != "protocol"@,
        "union"@ != "extension"@,
        "interface"@ != "record"@,
        "interface"@ != "mod"@,
        "interface"@ != "impl"@,
        "interface"@ != "trait"@,
        "interface"@ != "object"@,
        "interface"@ != "protocol"@,
        "interface"@ != "extension"@,
        "record"@ != "mod"@,
        "record"@ != "impl"@,
        "record"@ != "trait"@,
        "record"@ != "object"@,
        "record"@ != "protocol"@,
        "record"@ != "extension"@,
        "mod"@ != "impl"@,
        "mod"@ != "trait"@,
        "mod"@ != "object"@,
        "mod"@ != "protocol"@,
        "mod"@ != "extension"@,
        "impl"@ != "trait"@,
        "impl"@ != "object"@,
        "impl"@ != "protocol"@,
        "impl"@ != "extension"@,
        "trait"@ != "object"@,
        "trait"@ != "protocol"@,
        "trait"@ != "extension"@,
        "object"@ != "protocol"@,
        "object"@ != "extension"@,
        "protocol"@ != "extension"@,
{
    reveal_strlit("enum");
    reveal_strlit("namespace");
    reveal_strlit("class");
    reveal_strlit("struct");
    reveal_strlit("union");
    reveal_strlit("interface");
    reveal_strlit("record");
    reveal_strlit("mod");
    reveal_strlit("impl");
    reveal_strlit("trait");
    reveal_strlit("object");
    reveal_strlit("protocol");
    reveal_strlit("extension");
    assert("enum"@.len() == 4);
    assert("namespace"@.len() == 9);
    assert("class"@.len() == 5);
    assert("struct"@.len() == 6);
    assert("union"@.len() == 5);
    assert("interface"@.len() == 9);
    assert("record"@.len() == 6);
    assert("mod"@.len() == 3);
    assert("impl"@.len() == 4);
    assert("trait"@.len() == 5);
    assert("object"@.len() == 6);
    assert("protocol"@.len() == 8);
    assert("extension"@.len() == 9);
    assert("enum"@[0] == 'e' && "impl"@[0] == 'i');
    assert("namespace"@[0] == 'n' && "interface"@[0] == 'i');
    assert("namespace"@[0] == 'n' && "extension"@[0] == 'e');
    assert("class"@[0] == 'c' && "union"@[0] == 'u');
    assert("class"@[0] == 'c' && "trait"@[0] == 't');
    assert("struct"@[0] == 's' && "record"@[0] == 'r');
    assert("struct"@[0] == 's' && "object"@[0] == 'o');
    assert("union"@[0] == 'u' && "trait"@[0] == 't');
    assert("interface"@[0] == 'i' && "extension"@[0] == 'e');
    assert("record"@[0] == 'r' && "object"@[0] == 'o');
}

proof fn lemma_c_profile(w: Seq<char>)
    ensures
        fits(Language::C, scope_spec::c_profile(), w),
{
    let p = scope_spec::c_profile();
    lemma_words_differ();
    let table = p.scope_keywords;
    let functions = p.fn_keywords;
    let control = p.control_flow;
    assert(table[0].0 == "namespace"@);
    assert(table[1].0 == "class"@);
    assert(table[2].0 == "struct"@);
    assert(table[3].0 == "union"@);
    assert(table[4].0 == "interface"@);
    assert(control[0] == "if"@);
    assert(control[1] == "else"@);
    assert(control[2] == "for"@);
    assert(control[3] == "while"@);
    assert(control[4] == "do"@);
    assert(control[5] == "switch"@);
    assert(control[6] == "try"@);
    assert(control[7] == "catch"@);
    assert(control[8] == "case"@);
    assert(control[9] == "default"@);
    assert(control[10] == "__try"@);
    assert(control[11] == "__except"@);
    assert(control[12] == "__finally"@);
    assert(control[13] == "__attribute__"@);
    assert(control[14] == "__declspec"@);
    assert(table.len() == 5 && functions.len() == 0 && control.len() == 15);
    if control.contains(w) {
        let i = choose|i: int| 0 <= i < control.len() && control[i] == w;
        assert(is_control_word(Language::C, w));
    }
}

proof fn lemma_csharp_profile(w: Seq<char>)
    ensures
        fits(Language::CSharp, scope_spec::csharp_profile(), w),
{
    let p = scope_spec::csharp_profile();
    lemma_words_differ();
    let table = p.scope_keywords;
    let functions = p.fn_keywords;
    let control = p.control_flow;
    assert(table[0].0 == "namespace"@);
    assert(table[1].0 == "class"@);
    assert(table[2].0 == "struct"@);
    assert(table[3].0 == "interface"@);
    assert(table[4].0 == "enum"@);
    assert(table[5].0 == "record"@);
    assert(control[0] == "if"@);
    assert(control[1] == "else"@);
    assert(control[2] == "for"@);
    assert(control[3] == "while"@);
    assert(control[4] == "do"@);
    assert(control[5] == "switch"@);
    assert(control[6] == "try"@);
    assert(control[7] == "catch"@);
    assert(table.len() == 6 && functions.len() == 0 && control.len() == 8);
    if control.contains(w) {
        let i = choose|i: int| 0 <= i < control.len() && control[i] == w;
        assert(is_control_word(Language::CSharp, w));
    }
}

proof fn lemma_java_profile(w: Seq<char>)
    ensures
        fits(Language::Java, scope_spec::java_profile(), w),
{
    let p = scope_spec::java_profile();
    lemma_words_differ();
    let table = p.scope_keywords;
    let functions = p.fn_keywords;
    let control = p.control_flow;
    assert(table[0].0 == "class"@);
    assert(table[1].0 == "interface"@);
    assert(table[2].0 == "enum"@);
    assert(control[0] == "if"@);
    assert(control[1] == "else"@);
    assert(control[2] == "for"@);
    assert(control[3] == "while"@);
    assert(control[4] == "do"@);
    assert(control[5] == "switch"@);
    assert(control[6] == "try"@);
    assert(control[7] == "catch"@);
    assert(table.len() == 3 && functions.len() == 0 && control.len() == 8);
    if control.contains(w) {
        let i = choose|i: int| 0 <= i < control.len() && control[i] == w;
        assert(is_control_word(Language::Java, w));
    }
}

proof fn lemma_go_profile(w: Seq<char>)
    ensures
        fits(Language::Go, scope_spec::go_profile(), w),
{
    let p = scope_spec::go_profile();
    lemma_words_differ();
    let table = p.scope_keywords;
    let functions = p.fn_keywords;
    let control = p.control_flow;
    assert(table[0].0 == "struct"@);
    assert(table[1].0 == "interface"@);
    assert(functions[0] == "func"@);
    assert(control[0] == "if"@);
    assert(control[1] == "else"@);
    assert(control[2] == "for"@);
    assert(control[3] == "switch"@);
    assert(control[4] == "select"@);
    assert(table.len() == 2 && functions.len() == 1 && control.len() == 5);
    if control.contains(w) {
        let i = choose|i: int| 0 <= i < control.len() && control[i] == w;
        assert(is_control_word(Language::Go, w));
    }
}

proof fn lemma_rust_profile(w: Seq<char>)
    ensures
        fits(Language::Rust, scope_spec::rust_profile(), w),
{
    let p = scope_spec::rust_profile();
    lemma_words_differ();
    let table = p.scope_keywords;
    let functions = p.fn_keywords;
    let control = p.control_flow;
    assert(table[0].0 == "mod"@);
    assert(table[1].0 == "impl"@);
    assert(table[2].0 == "trait"@);
    assert(table[3].0 == "struct"@);
    assert(table[4].0 == "enum"@);
    assert(table[5].0 == "union"@);
    assert(functions[0] == "fn"@);
    assert(control[0] == "if"@);
    assert(control[1] == "else"@);
    assert(control[2] == "for"@);
    assert(control[3] == "while"@);
    assert(control[4] == "do"@);
    assert(control[5] == "switch"@);
    assert(control[6] == "try"@);
    assert(control[7] == "catch"@);
    assert(table.len() == 6 && functions.len() == 1 && control.len() == 8);
    if control.contains(w) {
        let i = choose|i: int| 0 <= i < control.len() && control[i] == w;
        assert(is_control_word(Language::Rust, w));
    }
}

proof fn lemma_kotlin_profile(w: Seq<char>)
    ensures
        fits(Language::Kotlin, scope_spec::kotlin_profile(), w),
{
    let p = scope_spec::kotlin_profile();
    lemma_words_differ();
    let table = p.scope_keywords;
    let functions = p.fn_keywords;
    let control = p.control_flow;
    assert(table[0].0 == "class"@);
    assert(table[1].0 == "interface"@);
    assert(table[2].0 == "object"@);
    assert(table[3].0 == "enum"@);
    assert(functions[0] == "fun"@);
    assert(control[0] == "if"@);
    assert(control[1] == "else"@);
    assert(control[2] == "for"@);
    assert(control[3] == "while"@);
    assert(control[4] == "do"@);
    assert(control[5] == "when"@);
    assert(control[6] == "try"@);
    assert(control[7] == "catch"@);
    assert(table.len() == 4 && functions.len() == 1 && control.len() == 8);
    if control.contains(w) {
        let i = choose|i: int| 0 <= i < control.len() && control[i] == w;
        assert(is_control_word(Language::Kotlin, w));
    }
}

proof fn lemma_swift_profile(w: Seq<char>)
    ensures
        fits(Language::Swift, scope_spec::swift_profile(), w),
{
    let p = scope_spec::swift_profile();
    lemma_words_differ();
    let table = p.scope_keywords;
    let functions = p.fn_keywords;
    let control = p.control_flow;
    assert(table[0].0 == "class"@);
    assert(table[1].0 == "struct"@);
    assert(table[2].0 == "enum"@);
    assert(table[3].0 == "protocol"@);
    assert(table[4].0 == "extension"@);
    assert(functions[0] == "func"@);
    assert(control[0] == "if"@);
    assert(control[1] == "else"@);
    assert(control[2] == "for"@);
    assert(control[3] == "while"@);
    assert(control[4] == "repeat"@);
    assert(control[5] == "switch"@);
    assert(control[6] == "guard"@);
    assert(control[7] == "defer"@);
    assert(control[8] == "do"@);
    assert(control[9] == "catch"@);
    assert(table.len() == 5 && functions.len() == 1 && control.len() == 10);
    if control.contains(w) {
        let i = choose|i: int| 0 <= i < control.len() && control[i] == w;
        assert(is_control_word(Language::Swift, w));
    }
}

proof fn lemma_extensions_differ()
    ensures
        "cs"@ != "java"@,
        "cs"@ != "go"@,
        "cs"@ != "rs"@,
        "cs"@ != "kt"@,
        "cs"@ != "kts"@,
        "cs"@ != "swift"@,
        "java"@ != "go"@,
        "java"@ != "rs"@,
        "java"@ != "kt"@,
        "java"@ != "kts"@,
        "java"@ != "swift"@,
        "go"@ != "rs"@,
        "go"@ != "kt"@,
        "go"@ != "kts"@,
        "go"@ != "swift"@,
        "rs"@ != "kt"@,
        "rs"@ != "kts"@,
        "rs"@ != "swift"@,
        "kt"@ != "kts"@,
        "kt"@ != "swift"@,
        "kts"@ != "swift"@,
{
    reveal_strlit("cs");
    assert("cs"@.len() == 2);
    assert("cs"@[0] == 'c');
    reveal_strlit("java");
    assert("java"@.len() == 4);
    assert("java"@[0] == 'j');
    reveal_strlit("go");
    assert("go"@.len() == 2);
    assert("go"@[0] == 'g');
    reveal_strlit("rs");
    assert("rs"@.len() == 2);
    assert("rs"@[0] == 'r');
    reveal_strlit("kt");
    assert("kt"@.len() == 2);
    assert("kt"@[0] == 'k');
    reveal_strlit("kts");
    assert("kts"@.len() == 3);
    assert("kts"@[0] == 'k');
    reveal_strlit("swift");
    assert("swift"@.len() == 5);
    assert("swift"@[0] == 's');
}

/// **Law.** The extension of a file selects the language, and the language decides which words introduce
/// which kinds of scope, which introduce functions, and which are control flow.
pub proof fn law_profile_words(ext: Seq<char>, w: Seq<char>)
    ensures
        fits(language_of(ext), scope_spec::ext_profile(ext), w),
{
    lemma_extensions_differ();
    lemma_c_profile(w);
    lemma_csharp_profile(w);
    lemma_java_profile(w);
    lemma_go_profile(w);
    lemma_rust_profile(w);
    lemma_kotlin_profile(w);
    lemma_swift_profile(w);
}

/// **Law.** In a file of a language, the first word of a header that introduces a scope in that language
/// gives the scope its kind.
pub proof fn law_header_kind(ext: Seq<char>, header: Seq<TokenView>, k: int, w: Seq<char>)
    requires
        header_laws::first_introducing(scope_spec::ext_profile(ext), header, k, w),
    ensures
        Some(scope_spec::classify(scope_spec::ext_profile(ext), header).0) == kind_of_word(
            language_of(ext),
            w,
        ),
{
    let p = scope_spec::ext_profile(ext);
    law_profile_words(ext, w);
    header_laws::law_scope_keyword_gives_kind(p, header, k, w);
    if w != "enum"@ {
        let j = header_laws::lemma_first_entry(p.scope_keywords, w);
    }
}

/// **Law.** Python sources are those with the extension `py`, `pyw` or `pyi`; none of these selects a
/// language with braces of its own.
pub proof fn law_python_extensions(ext: Seq<char>)
    ensures
        scope_spec::is_python_ext(ext) == (ext == "py"@ || ext == "pyw"@ || ext == "pyi"@),
        scope_spec::is_python_ext(ext) ==> language_of(ext) is C,
{
    reveal_strlit("py");
    reveal_strlit("pyw");
    reveal_strlit("pyi");
    lemma_extensions_differ();
    assert("py"@[0] == 'p' && "pyw"@[0] == 'p' && "pyi"@[0] == 'p');
    reveal_strlit("cs");
    assert("cs"@[0] == 'c');
    reveal_strlit("java");
    assert("java"@[0] == 'j');
    reveal_strlit("go");
    assert("go"@[0] == 'g');
    reveal_strlit("rs");
    assert("rs"@[0] == 'r');
    reveal_strlit("kt");
    assert("kt"@[0] == 'k');
    reveal_strlit("kts");
    assert("kts"@[0] == 'k');
    reveal_strlit("swift");
    assert("swift"@[0] == 's');
}

} // verus!
