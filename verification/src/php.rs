//! The structural source mapper: line-oriented recognition of namespace,
//! function and class declarations, parameter token extraction, and the scan
//! that turns a source file into its table of function line-ranges.
//!
//! The model is deliberately not a full grammar: declarations are recognized
//! by fixed patterns (the keyword on a word boundary, then spaces, a name
//! and, for functions, an opening parenthesis), parameters are `$`-prefixed
//! word tokens, and block structure is tracked by counting braces that lie
//! outside quoted strings.

use vstd::prelude::*;
use vstd::string::*;

use crate::error::CompileError;
use crate::util::append_strings;
use crate::util::clone_strings;
use crate::util::contains_char;
use crate::util::contains_str;
use crate::util::count_occurences_not_in_string;
use crate::util::lemma_sum_lens_nonneg;
use crate::util::lemma_trim_len;
use crate::util::spec_contains_str;
use crate::util::spec_has_char;
use crate::util::ends_with_str;
use crate::util::find_sub;
use crate::util::first_pos;
use crate::util::lemma_first_pos;
use crate::util::match_at;
use crate::util::skip_spaces;
use crate::util::skip_word;
use crate::util::spec_count_outside_strings;
use crate::util::spec_ends_with;
use crate::util::spec_find_str;
use crate::util::spec_first_pos;
use crate::util::spec_is_word_char;
use crate::util::spec_lines;
use crate::util::spec_matches_at;
use crate::util::spec_skip_spaces;
use crate::util::spec_skip_word;
use crate::util::spec_starts_with;
use crate::util::spec_trim;
use crate::util::split_lines;
use crate::util::starts_with_str;
use crate::util::strs_view;
use crate::util::sum_lens;
use crate::util::lemma_sum_lens_take;
use crate::util::lemma_lines_sum;
use crate::util::trim_str;
use crate::util::is_word_char;

verus! {

// ---------------------------------------------------------------------------
// the mapping record
// ---------------------------------------------------------------------------

/// Mathematical form of a source mapping.
pub ghost struct MappingModel {
    pub path: Seq<char>,
    pub mapping: Seq<char>,
    pub args: Seq<Seq<char>>,
    pub from: int,
    pub to: int,
}

/// One function's recorded position: the file it lives in, its qualifier
/// (`[$C<Class>]$F<Name>`), its declared parameter tokens, and its 1-based
/// first and last line.
#[derive(Debug, Clone)]
pub struct SourceMapping {
    pub path: String,
    pub mapping: String,
    pub args: Vec<String>,
    pub from: usize,
    pub to: usize,
}

impl View for SourceMapping {
    type V = MappingModel;

    open spec fn view(&self) -> MappingModel {
        (MappingModel {
            path: self.path@,
            mapping: self.mapping@,
            args: strs_view(self.args@),
            from: self.from as int,
            to: self.to as int,
        })
    }
}

/// Views of a sequence of mappings.
pub open spec fn entries_view(v: Seq<SourceMapping>) -> Seq<MappingModel> {
    v.map_values(|m: SourceMapping| m@)
}

// ---------------------------------------------------------------------------
// namespace lines
// ---------------------------------------------------------------------------

pub open spec fn spec_extract_namespace(line: Seq<char>) -> Seq<char> {
    line.subrange(10, line.len() - 1)
}

/// The name on a `namespace <name>;` line: everything between the keyword
/// with its following space (ten characters) and the trailing terminator.
pub fn extract_namespace<'a>(line: &'a str) -> (r: &'a str)
    requires
        line@.len() >= 11,
    ensures
        r@ == spec_extract_namespace(line@),
{
    let l = line.unicode_len();
    line.substring_char(10, l - 1)
}

// ---------------------------------------------------------------------------
// declaration recognition
// ---------------------------------------------------------------------------

/// A function declaration headed at position `i`: the keyword on a word
/// boundary, at least one space, a name of word characters, optional spaces,
/// then `(`.
pub open spec fn spec_fn_decl_at(s: Seq<char>, i: int) -> bool {
    &&& spec_matches_at(s, "function"@, i)
    &&& (i == 0 || !spec_is_word_char(s[i - 1]))
    &&& ({
        let a = spec_skip_spaces(s, i + 8);
        let b = spec_skip_word(s, a);
        let c = spec_skip_spaces(s, b);
        a > i + 8 && b > a && c < s.len() && s[c] == '('
    })
}

pub open spec fn spec_is_fn_decl(s: Seq<char>) -> bool {
    exists|i: int| spec_fn_decl_at(s, i)
}

/// Whether `line` declares a function.
pub fn is_function_decl(line: &str) -> (r: bool)
    ensures
        r == spec_is_fn_decl(line@),
{
    proof {
        reveal_strlit("function");
    }
    let sl = line.unicode_len();
    if sl < 8 {
        proof {
            assert(forall|i: int| !spec_fn_decl_at(line@, i));
        }
        return false;
    }
    let mut i: usize = 0;
    while i <= sl - 8
        invariant
            sl == line@.len(),
            8 <= sl,
            i <= sl - 8 + 1,
            forall|j: int| 0 <= j < i ==> !spec_fn_decl_at(line@, j),
        decreases sl - i,
    {
        proof {
            reveal_strlit("function");
        }
        if match_at(line, "function", i) {
            let boundary = if i == 0 {
                true
            } else {
                !is_word_char(line.get_char(i - 1))
            };
            if boundary {
                let a = skip_spaces(line, i + 8);
                let b = skip_word(line, a);
                let c = skip_spaces(line, b);
                if a > i + 8 && b > a && c < sl && line.get_char(c) == '(' {
                    proof {
                        assert(spec_fn_decl_at(line@, i as int));
                    }
                    return true;
                }
            }
        }
        proof {
            assert(!spec_fn_decl_at(line@, i as int));
        }
        i += 1;
    }
    proof {
        assert(forall|j: int| j + 8 > sl ==> !spec_fn_decl_at(line@, j));
        assert(forall|j: int| j < 0 ==> !spec_fn_decl_at(line@, j));
    }
    false
}

/// A class declaration headed at position `i`: the keyword on a word
/// boundary, at least one space, then a name of word characters.
pub open spec fn spec_class_decl_at(s: Seq<char>, i: int) -> bool {
    &&& spec_matches_at(s, "class"@, i)
    &&& (i == 0 || !spec_is_word_char(s[i - 1]))
    &&& ({
        let a = spec_skip_spaces(s, i + 5);
        let b = spec_skip_word(s, a);
        a > i + 5 && b > a
    })
}

pub open spec fn spec_is_class_decl(s: Seq<char>) -> bool {
    exists|i: int| spec_class_decl_at(s, i)
}

/// Whether `line` declares a class.
pub fn is_class_decl(line: &str) -> (r: bool)
    ensures
        r == spec_is_class_decl(line@),
{
    proof {
        reveal_strlit("class");
    }
    let sl = line.unicode_len();
    if sl < 5 {
        proof {
            assert(forall|i: int| !spec_class_decl_at(line@, i));
        }
        return false;
    }
    let mut i: usize = 0;
    while i <= sl - 5
        invariant
            sl == line@.len(),
            5 <= sl,
            i <= sl - 5 + 1,
            forall|j: int| 0 <= j < i ==> !spec_class_decl_at(line@, j),
        decreases sl - i,
    {
        proof {
            reveal_strlit("class");
        }
        if match_at(line, "class", i) {
            let boundary = if i == 0 {
                true
            } else {
                !is_word_char(line.get_char(i - 1))
            };
            if boundary {
                let a = skip_spaces(line, i + 5);
                let b = skip_word(line, a);
                if a > i + 5 && b > a {
                    proof {
                        assert(spec_class_decl_at(line@, i as int));
                    }
                    return true;
                }
            }
        }
        proof {
            assert(!spec_class_decl_at(line@, i as int));
        }
        i += 1;
    }
    proof {
        assert(forall|j: int| j + 5 > sl ==> !spec_class_decl_at(line@, j));
        assert(forall|j: int| j < 0 ==> !spec_class_decl_at(line@, j));
    }
    false
}

// ---------------------------------------------------------------------------
// name extraction
// ---------------------------------------------------------------------------

/// The function name on a declaration line: the text of the trimmed line
/// between the first `function` keyword plus its following space and the
/// first `(`.  Nothing when the keyword or parenthesis is absent or they
/// stand too close together.
pub open spec fn spec_try_function_name(line: Seq<char>) -> Option<Seq<char>> {
    let t = spec_trim(line);
    let f = spec_find_str(t, "function"@);
    let p = spec_first_pos(t, '(');
    if f >= 0 && p < t.len() && f + 9 <= p {
        Some(t.subrange(f + 9, p))
    } else {
        None
    }
}

pub fn try_function_name(line: &str) -> (r: Option<String>)
    ensures
        match r {
            Some(n) => spec_try_function_name(line@) == Some(n@),
            None => spec_try_function_name(line@) is None,
        },
{
    proof {
        reveal_strlit("function");
    }
    let t = trim_str(line);
    let tl = t.unicode_len();
    let f_opt = find_sub(t, "function");
    match f_opt {
        None => None,
        Some(f) => {
            proof {
                lemma_first_pos(t@, '(');
            }
            let p = first_pos(t, '(');
            if p < tl && p >= 9 && f <= p - 9 {
                Some(t.substring_char(f + 9, p).to_owned())
            } else {
                None
            }
        },
    }
}

/// The function name on a declaration line; the line must hold the keyword
/// and a parenthesis in declaration order.
pub fn extract_function_name<'a>(line: &'a str) -> (r: &'a str)
    requires
        spec_try_function_name(line@) is Some,
    ensures
        Some(r@) == spec_try_function_name(line@),
{
    proof {
        reveal_strlit("function");
    }
    let t = trim_str(line);
    let tl = t.unicode_len();
    let f_opt = find_sub(t, "function");
    match f_opt {
        None => {
            proof {
                assert(false);
            }
            ""
        },
        Some(f) => {
            proof {
                lemma_first_pos(t@, '(');
            }
            let p = first_pos(t, '(');
            if p < tl && p >= 9 && f <= p - 9 {
                t.substring_char(f + 9, p)
            } else {
                proof {
                    assert(false);
                }
                ""
            }
        },
    }
}

// ---------------------------------------------------------------------------
// parameter tokens
// ---------------------------------------------------------------------------

/// The `$`-prefixed word tokens of `s` from position `i` on, scanned left to
/// right without overlap, each token maximal.
pub open spec fn spec_param_tokens_from(s: Seq<char>, i: int) -> Seq<Seq<char>>
    decreases s.len() - i,
    when 0 <= i <= s.len()
{
    if i >= s.len() {
        Seq::empty()
    } else if s[i] == '$' && i + 1 < s.len() && spec_is_word_char(s[i + 1]) {
        let e0 = spec_skip_word(s, i + 1);
        let e1 = if e0 > s.len() {
            s.len() as int
        } else {
            e0
        };
        let e = if e1 < i + 2 {
            i + 2
        } else {
            e1
        };
        seq![s.subrange(i, e)] + spec_param_tokens_from(s, e)
    } else {
        spec_param_tokens_from(s, i + 1)
    }
}

pub open spec fn spec_extract_function_params(line: Seq<char>) -> Seq<Seq<char>> {
    spec_param_tokens_from(spec_trim(line), 0)
}

/// The `$`-prefixed tokens on a declaration line, in order of appearance.
pub fn extract_function_params(line: &str) -> (r: Vec<String>)
    ensures
        strs_view(r@) == spec_extract_function_params(line@),
{
    let t = trim_str(line);
    let tl = t.unicode_len();
    let mut out: Vec<String> = Vec::new();
    let mut i: usize = 0;
    proof {
        assert(strs_view(out@) =~= Seq::<Seq<char>>::empty());
        assert(Seq::<Seq<char>>::empty() + spec_param_tokens_from(t@, 0)
            =~= spec_param_tokens_from(t@, 0));
    }
    while i < tl
        invariant
            i <= tl,
            tl == t@.len(),
            spec_param_tokens_from(t@, 0) == strs_view(out@) + spec_param_tokens_from(
                t@,
                i as int,
            ),
        decreases tl - i,
    {
        let c = t.get_char(i);
        if c == '$' && i + 1 < tl && is_word_char(t.get_char(i + 1)) {
            let e = skip_word(t, i + 2);
            proof {
                assert(spec_skip_word(t@, i + 1) == spec_skip_word(t@, i + 2));
            }
            let tok = t.substring_char(i, e).to_owned();
            proof {
                let a = strs_view(out@);
                let x = t@.subrange(i as int, e as int);
                assert(strs_view(out@.push(tok)) =~= a.push(x));
                assert(a + (seq![x] + spec_param_tokens_from(t@, e as int)) =~= a.push(x)
                    + spec_param_tokens_from(t@, e as int));
            }
            out.push(tok);
            i = e;
        } else {
            i += 1;
        }
    }
    proof {
        assert(strs_view(out@) + Seq::<Seq<char>>::empty() =~= strs_view(out@));
    }
    out
}

// ---------------------------------------------------------------------------
// class names
// ---------------------------------------------------------------------------

/// Where the class name ends on a trimmed declaration line: before
/// `extends`, else before `implements`, else before the opening brace or at
/// the end of the line.
pub open spec fn spec_class_name_end(t: Seq<char>) -> int {
    if spec_find_str(t, "extends"@) >= 0 {
        spec_find_str(t, "extends"@)
    } else if spec_find_str(t, "implements"@) >= 0 {
        spec_find_str(t, "implements"@)
    } else {
        spec_first_pos(t, '{')
    }
}

/// The class name on a declaration line: the trimmed text between the
/// keyword with its following space (six characters) and the name's end.
/// Nothing when the end lies before that.
pub open spec fn spec_try_class_name(line: Seq<char>) -> Option<Seq<char>> {
    let t = spec_trim(line);
    let e = spec_class_name_end(t);
    if 6 <= e && e <= t.len() {
        Some(spec_trim(t.subrange(6, e)))
    } else {
        None
    }
}

pub fn try_class_name(line: &str) -> (r: Option<String>)
    ensures
        match r {
            Some(n) => spec_try_class_name(line@) == Some(n@),
            None => spec_try_class_name(line@) is None,
        },
{
    proof {
        reveal_strlit("extends");
        reveal_strlit("implements");
    }
    let t = trim_str(line);
    let tl = t.unicode_len();
    let ext = find_sub(t, "extends");
    let e: usize = match ext {
        Some(x) => x,
        None => {
            let imp = find_sub(t, "implements");
            match imp {
                Some(x) => x,
                None => {
                    proof {
                        lemma_first_pos(t@, '{');
                    }
                    first_pos(t, '{')
                },
            }
        },
    };
    if e >= 6 {
        Some(trim_str(t.substring_char(6, e)).to_owned())
    } else {
        None
    }
}

/// The class name on a declaration line; the line must leave room for a name
/// after the keyword.
pub fn extract_class_name<'a>(line: &'a str) -> (r: &'a str)
    requires
        spec_try_class_name(line@) is Some,
    ensures
        Some(r@) == spec_try_class_name(line@),
{
    proof {
        reveal_strlit("extends");
        reveal_strlit("implements");
    }
    let t = trim_str(line);
    let tl = t.unicode_len();
    let ext = find_sub(t, "extends");
    let e: usize = match ext {
        Some(x) => x,
        None => {
            let imp = find_sub(t, "implements");
            match imp {
                Some(x) => x,
                None => {
                    proof {
                        lemma_first_pos(t@, '{');
                    }
                    first_pos(t, '{')
                },
            }
        },
    };
    if e >= 6 {
        trim_str(t.substring_char(6, e))
    } else {
        proof {
            assert(false);
        }
        ""
    }
}

// ---------------------------------------------------------------------------
// the structural scan
// ---------------------------------------------------------------------------

/// State of the line-by-line structural scan of one file.
pub ghost struct MapScan {
    pub in_comment: bool,
    pub in_function: bool,
    pub in_params: bool,
    pub pending_start: bool,
    pub in_class: bool,
    pub class_prefix: Seq<char>,
    pub class_depth: int,
    pub fn_mapping: Seq<char>,
    pub fn_args: Seq<Seq<char>>,
    pub fn_depth: int,
    pub fn_start: int,
    pub depth: int,
    pub entries: Seq<MappingModel>,
    pub failed: bool,
}

pub open spec fn map_scan_init() -> MapScan {
    (MapScan {
        in_comment: false,
        in_function: false,
        in_params: false,
        pending_start: false,
        in_class: false,
        class_prefix: Seq::empty(),
        class_depth: 0,
        fn_mapping: Seq::empty(),
        fn_args: Seq::empty(),
        fn_depth: 0,
        fn_start: 0,
        depth: 0,
        entries: Seq::empty(),
        failed: false,
    })
}

/// Position of the first recorded entry with the given qualifier, or the
/// number of entries when none matches.
pub open spec fn spec_entry_pos(entries: Seq<MappingModel>, key: Seq<char>) -> int
    decreases entries.len(),
{
    if entries.len() == 0 {
        0
    } else if entries[0].mapping == key {
        0
    } else {
        1 + spec_entry_pos(entries.drop_first(), key)
    }
}

pub proof fn lemma_entry_pos(entries: Seq<MappingModel>, key: Seq<char>)
    ensures
        0 <= spec_entry_pos(entries, key) <= entries.len(),
        spec_entry_pos(entries, key) < entries.len() ==> entries[spec_entry_pos(
            entries,
            key,
        )].mapping == key,
        forall|j: int| 0 <= j < spec_entry_pos(entries, key) ==> entries[j].mapping != key,
    decreases entries.len(),
{
    if entries.len() > 0 && entries[0].mapping != key {
        lemma_entry_pos(entries.drop_first(), key);
        assert forall|j: int| 0 <= j < spec_entry_pos(entries, key) implies entries[j].mapping
            != key by {
            if j >= 1 {
                assert(entries.drop_first()[j - 1] == entries[j]);
            }
        }
    }
}

/// Records a mapping: a collision on the qualifier silently overwrites the
/// earlier entry, otherwise the mapping is appended.
pub open spec fn spec_upsert(entries: Seq<MappingModel>, m: MappingModel) -> Seq<MappingModel> {
    let p = spec_entry_pos(entries, m.mapping);
    if p < entries.len() {
        entries.update(p, m)
    } else {
        entries.push(m)
    }
}

fn upsert_entry(entries: &mut Vec<SourceMapping>, m: SourceMapping)
    ensures
        entries_view(final(entries)@) == spec_upsert(entries_view(old(entries)@), m@),
{
    proof {
        lemma_entry_pos(entries_view(entries@), m@.mapping);
    }
    let n = entries.len();
    let mut i: usize = 0;
    while i < n
        invariant
            i <= n,
            n == entries@.len(),
            entries@ == old(entries)@,
            forall|j: int| 0 <= j < i ==> entries_view(entries@)[j].mapping != m@.mapping,
        decreases n - i,
    {
        if crate::util::str_eq(entries[i].mapping.as_str(), m.mapping.as_str()) {
            proof {
                let ev = entries_view(entries@);
                let p = spec_entry_pos(ev, m@.mapping);
                lemma_entry_pos(ev, m@.mapping);
                assert(ev[i as int] == entries@[i as int]@);
                assert(ev[i as int].mapping == m@.mapping);
                if p < i as int {
                    assert(ev[p].mapping != m@.mapping);
                }
                assert(p == i as int);
                assert(entries_view(entries@.update(i as int, m)) =~= ev.update(i as int, m@));
            }
            entries.set(i, m);
            return ;
        }
        i += 1;
    }
    proof {
        let ev = entries_view(entries@);
        let p = spec_entry_pos(ev, m@.mapping);
        lemma_entry_pos(ev, m@.mapping);
        assert(p == n as int);
        assert(entries_view(entries@.push(m)) =~= ev.push(m@));
    }
    entries.push(m);
}

/// One line of the structural scan.  `cursor` is the line's 1-based number
/// and `path` the file's identifier recorded into every mapping.
///
/// A trimmed line opening with a line-comment marker is skipped outright; a
/// line holding both block-comment markers is skipped after updating the
/// comment state, and lines inside a block comment are skipped too.  A
/// function declaration (outside any function) records the qualifier, the
/// depth, and the `$`-tokens of the line; its body starts on the same line
/// when the line ends with an opening brace, and otherwise at the next line
/// with a net positive depth change.  A parameter list left open accumulates
/// the `$`-tokens of following lines until one opens or closes with `)`.  A
/// function or class is closed when the brace depth returns to the depth at
/// its start; closing a function records its mapping, a qualifier collision
/// overwriting the earlier record.  A declaration whose name cannot be
/// resolved fails the scan.
pub open spec fn map_scan_step(st: MapScan, line: Seq<char>, cursor: int, path: Seq<char>) -> MapScan {
    if st.failed {
        st
    } else {
        let t = spec_trim(line);
        if spec_starts_with(t, "#"@) || spec_starts_with(t, "//"@) {
            st
        } else {
            let c1 = if spec_starts_with(t, "/*"@) || spec_ends_with(t, "/*"@) {
                true
            } else {
                st.in_comment
            };
            let c2 = if spec_starts_with(t, "*/"@) || spec_ends_with(t, "*/"@) {
                false
            } else {
                c1
            };
            if spec_contains_str(t, "/*"@) && spec_contains_str(t, "*/"@) {
                MapScan { in_comment: c2, ..st }
            } else if c2 {
                MapScan { in_comment: c2, ..st }
            } else {
                let stc = MapScan { in_comment: c2, ..st };
                let fn_hit = !stc.in_function && spec_is_fn_decl(t);
                if fn_hit && spec_try_function_name(t) is None {
                    MapScan { failed: true, ..stc }
                } else {
                    let st1 = if fn_hit {
                        MapScan {
                            fn_mapping: stc.class_prefix + "$F"@
                                + spec_try_function_name(t)->Some_0,
                            fn_depth: stc.depth,
                            fn_args: spec_extract_function_params(t),
                            in_function: if spec_ends_with(t, "{"@) {
                                true
                            } else {
                                stc.in_function
                            },
                            pending_start: if spec_ends_with(t, "{"@) {
                                stc.pending_start
                            } else {
                                true
                            },
                            fn_start: if spec_ends_with(t, "{"@) {
                                cursor
                            } else {
                                stc.fn_start
                            },
                            in_params: spec_has_char(t, '(') && !spec_has_char(t, ')'),
                            ..stc
                        }
                    } else {
                        stc
                    };
                    let class_hit = !st1.in_class && spec_is_class_decl(t);
                    if class_hit && spec_try_class_name(t) is None {
                        MapScan { failed: true, ..st1 }
                    } else {
                        let st2 = if class_hit {
                            MapScan {
                                class_prefix: "$C"@ + spec_try_class_name(t)->Some_0,
                                in_class: true,
                                class_depth: st1.depth,
                                ..st1
                            }
                        } else {
                            st1
                        };
                        let dc = spec_count_outside_strings(t, '{')
                            - spec_count_outside_strings(t, '}');
                        let st3 = if st.in_params && !fn_hit {
                            MapScan {
                                fn_args: st2.fn_args + spec_extract_function_params(t),
                                in_params: !(spec_starts_with(t, ")"@) || spec_ends_with(
                                    t,
                                    ")"@,
                                )),
                                ..st2
                            }
                        } else {
                            st2
                        };
                        let st4 = if st3.pending_start && dc > 0 {
                            MapScan {
                                fn_start: cursor,
                                pending_start: false,
                                in_function: true,
                                ..st3
                            }
                        } else {
                            st3
                        };
                        let st5 = MapScan { depth: st4.depth + dc, ..st4 };
                        let st6 = if st5.in_function && st5.depth <= st5.fn_depth {
                            MapScan {
                                entries: spec_upsert(
                                    st5.entries,
                                    (MappingModel {
                                        path: path,
                                        mapping: st5.fn_mapping,
                                        args: st5.fn_args,
                                        from: st5.fn_start,
                                        to: cursor,
                                    }),
                                ),
                                in_function: false,
                                ..st5
                            }
                        } else {
                            st5
                        };
                        if st6.in_class && st6.depth <= st6.class_depth {
                            MapScan {
                                class_prefix: Seq::empty(),
                                in_class: false,
                                class_depth: 0,
                                ..st6
                            }
                        } else {
                            st6
                        }
                    }
                }
            }
        }
    }
}

pub open spec fn map_scan_from(lines: Seq<Seq<char>>, path: Seq<char>) -> MapScan
    decreases lines.len(),
{
    if lines.len() == 0 {
        map_scan_init()
    } else {
        map_scan_step(
            map_scan_from(lines.drop_last(), path),
            lines.last(),
            lines.len() as int,
            path,
        )
    }
}

pub proof fn lemma_map_scan_failed_persists(lines: Seq<Seq<char>>, path: Seq<char>, i: int)
    requires
        0 <= i <= lines.len(),
        map_scan_from(lines.take(i), path).failed,
    ensures
        map_scan_from(lines, path).failed,
    decreases lines.len() - i,
{
    if i < lines.len() {
        assert(lines.take(i + 1).drop_last() =~= lines.take(i));
        assert(lines.take(i + 1).last() == lines[i]);
        lemma_map_scan_failed_persists(lines, path, i + 1);
    } else {
        assert(lines.take(i) =~= lines);
    }
}

/// The mapping table of one file: the recorded entries of a completed scan,
/// or nothing when the scan failed or a function or class scope was still
/// open at end of file.
pub open spec fn spec_extract_source_mappings(content: Seq<char>, path: Seq<char>) -> Option<
    Seq<MappingModel>,
> {
    let st = map_scan_from(spec_lines(content), path);
    if st.failed || st.in_function || st.in_class {
        None
    } else {
        Some(st.entries)
    }
}

// ---------------------------------------------------------------------------
// the single-function law
// ---------------------------------------------------------------------------

/// A line the scan passes over without structural effect: no line-comment
/// opener, no block-comment marker, and no function or class declaration.
pub open spec fn spec_inert_line(line: Seq<char>) -> bool {
    let t = spec_trim(line);
    &&& !spec_starts_with(t, "#"@)
    &&& !spec_starts_with(t, "//"@)
    &&& !spec_contains_str(t, "/*"@)
    &&& !spec_contains_str(t, "*/"@)
    &&& !spec_is_fn_decl(t)
    &&& !spec_is_class_decl(t)
}

/// A line without braces outside string literals.
pub open spec fn spec_brace_free_line(line: Seq<char>) -> bool {
    let t = spec_trim(line);
    spec_count_outside_strings(t, '{') == 0 && spec_count_outside_strings(t, '}') == 0
}

/// A line whose braces outside string literals balance.
pub open spec fn spec_balanced_line(line: Seq<char>) -> bool {
    let t = spec_trim(line);
    spec_count_outside_strings(t, '{') == spec_count_outside_strings(t, '}')
}

/// A function declaration line that opens its body on the same line: a
/// resolvable name, a complete parameter list, exactly one opening brace
/// outside strings and no closing one, and no comment or class marker.
pub open spec fn spec_plain_decl_line(line: Seq<char>) -> bool {
    let t = spec_trim(line);
    &&& spec_is_fn_decl(t)
    &&& spec_try_function_name(t) is Some
    &&& spec_ends_with(t, "{"@)
    &&& !spec_is_class_decl(t)
    &&& !spec_starts_with(t, "#"@)
    &&& !spec_starts_with(t, "//"@)
    &&& !spec_contains_str(t, "/*"@)
    &&& !spec_contains_str(t, "*/"@)
    &&& spec_count_outside_strings(t, '{') == 1
    &&& spec_count_outside_strings(t, '}') == 0
    &&& spec_has_char(t, '(')
    &&& spec_has_char(t, ')')
}

/// The line closing a function's body: one closing brace outside strings,
/// no opener, and no comment or class marker.
pub open spec fn spec_closing_line(line: Seq<char>) -> bool {
    let t = spec_trim(line);
    &&& !spec_starts_with(t, "#"@)
    &&& !spec_starts_with(t, "//"@)
    &&& !spec_contains_str(t, "/*"@)
    &&& !spec_contains_str(t, "*/"@)
    &&& !spec_is_class_decl(t)
    &&& spec_count_outside_strings(t, '{') == 0
    &&& spec_count_outside_strings(t, '}') == 1
}

/// The scan state while inside the single function of a plain file.
pub open spec fn spec_single_fn_state(lines: Seq<Seq<char>>, path: Seq<char>, d: int) -> MapScan {
    (MapScan {
        in_comment: false,
        in_function: true,
        in_params: false,
        pending_start: false,
        in_class: false,
        class_prefix: Seq::empty(),
        class_depth: 0,
        fn_mapping: "$F"@ + (spec_try_function_name(spec_trim(lines[d]))->Some_0),
        fn_args: spec_extract_function_params(spec_trim(lines[d])),
        fn_depth: 0,
        fn_start: d + 1,
        depth: 1,
        entries: Seq::empty(),
        failed: false,
    })
}

proof fn lemma_inert_comment_markers(t: Seq<char>)
    requires
        !spec_contains_str(t, "/*"@),
        !spec_contains_str(t, "*/"@),
    ensures
        !spec_starts_with(t, "/*"@),
        !spec_ends_with(t, "/*"@),
        !spec_starts_with(t, "*/"@),
        !spec_ends_with(t, "*/"@),
{
    if spec_starts_with(t, "/*"@) {
        assert(spec_matches_at(t, "/*"@, 0));
    }
    if spec_ends_with(t, "/*"@) {
        assert(spec_matches_at(t, "/*"@, t.len() - "/*"@.len()));
    }
    if spec_starts_with(t, "*/"@) {
        assert(spec_matches_at(t, "*/"@, 0));
    }
    if spec_ends_with(t, "*/"@) {
        assert(spec_matches_at(t, "*/"@, t.len() - "*/"@.len()));
    }
}

proof fn lemma_single_fn_prelude(lines: Seq<Seq<char>>, path: Seq<char>, d: int, k: int)
    requires
        0 <= k <= d <= lines.len(),
        forall|i: int|
            0 <= i < d ==> spec_inert_line(#[trigger] lines[i]) && spec_brace_free_line(lines[i]),
    ensures
        map_scan_from(lines.take(k), path) == map_scan_init(),
    decreases k,
{
    if k > 0 {
        lemma_single_fn_prelude(lines, path, d, k - 1);
        assert(lines.take(k).drop_last() =~= lines.take(k - 1));
        assert(lines.take(k).last() == lines[k - 1]);
        let t = spec_trim(lines[k - 1]);
        lemma_inert_comment_markers(t);
        assert(map_scan_step(map_scan_init(), lines[k - 1], k, path) == map_scan_init());
    } else {
        assert(lines.take(0) =~= Seq::<Seq<char>>::empty());
    }
}

proof fn lemma_single_fn_body(lines: Seq<Seq<char>>, path: Seq<char>, d: int, k: int)
    requires
        0 <= d < lines.len(),
        d + 1 <= k <= lines.len(),
        forall|i: int|
            0 <= i < d ==> spec_inert_line(#[trigger] lines[i]) && spec_brace_free_line(lines[i]),
        spec_plain_decl_line(lines[d]),
        forall|i: int|
            d < i < k ==> spec_inert_line(#[trigger] lines[i]) && spec_balanced_line(lines[i]),
    ensures
        map_scan_from(lines.take(k), path) == spec_single_fn_state(lines, path, d),
    decreases k,
{
    if k == d + 1 {
        lemma_single_fn_prelude(lines, path, d, d);
        assert(lines.take(k).drop_last() =~= lines.take(d));
        assert(lines.take(k).last() == lines[d]);
        let t = spec_trim(lines[d]);
        lemma_inert_comment_markers(t);
        assert(Seq::<char>::empty() + "$F"@ =~= "$F"@);
        assert(map_scan_step(map_scan_init(), lines[d], d + 1, path) == spec_single_fn_state(
            lines,
            path,
            d,
        ));
    } else {
        lemma_single_fn_body(lines, path, d, k - 1);
        assert(lines.take(k).drop_last() =~= lines.take(k - 1));
        assert(lines.take(k).last() == lines[k - 1]);
        let t = spec_trim(lines[k - 1]);
        lemma_inert_comment_markers(t);
        assert(map_scan_step(spec_single_fn_state(lines, path, d), lines[k - 1], k, path)
            == spec_single_fn_state(lines, path, d));
    }
}

/// A file holding exactly one function and no classes — inert prelude
/// lines without braces, one declaration line opening the body, body lines
/// whose braces outside strings balance, and the closing line — scans to
/// exactly one mapping, running from the declaration line to the line of
/// the function's closing brace.
pub proof fn lemma_single_function_file(lines: Seq<Seq<char>>, path: Seq<char>, d: int)
    requires
        0 <= d,
        d + 2 <= lines.len(),
        forall|i: int|
            0 <= i < d ==> spec_inert_line(#[trigger] lines[i]) && spec_brace_free_line(lines[i]),
        spec_plain_decl_line(lines[d]),
        forall|i: int|
            d < i < lines.len() - 1 ==> spec_inert_line(#[trigger] lines[i])
                && spec_balanced_line(lines[i]),
        spec_closing_line(lines[lines.len() - 1]),
    ensures
        ({
            let st = map_scan_from(lines, path);
            &&& !st.failed
            &&& !st.in_function
            &&& !st.in_class
            &&& st.entries =~= seq![
                (MappingModel {
                    path: path,
                    mapping: "$F"@ + (spec_try_function_name(spec_trim(lines[d]))->Some_0),
                    args: spec_extract_function_params(spec_trim(lines[d])),
                    from: d + 1,
                    to: lines.len() as int,
                }),
            ]
        }),
{
    lemma_single_fn_body(lines, path, d, lines.len() - 1);
    assert(lines.take(lines.len() as int) =~= lines);
    assert(lines.take(lines.len() as int).drop_last() =~= lines.take(lines.len() - 1));
    let closer = lines[lines.len() - 1];
    let t = spec_trim(closer);
    lemma_inert_comment_markers(t);
    let mid = spec_single_fn_state(lines, path, d);
    let entry = (MappingModel {
        path: path,
        mapping: mid.fn_mapping,
        args: mid.fn_args,
        from: d + 1,
        to: lines.len() as int,
    });
    assert(spec_entry_pos(Seq::<MappingModel>::empty(), entry.mapping) == 0);
    assert(spec_upsert(Seq::<MappingModel>::empty(), entry) =~= seq![entry]);
    assert(map_scan_from(lines, path) == map_scan_step(mid, closer, lines.len() as int, path));
}


/// Scans `php_content` line by line and returns the recorded source
/// mappings of the file known as `path`.  Fails when a function or class
/// scope is unterminated at end of file or a matched declaration's name
/// cannot be resolved.
pub fn extract_source_mappings(php_content: &str, path: &str) -> (r: Result<
    Vec<SourceMapping>,
    CompileError,
>)
    ensures
        match r {
            Ok(v) => spec_extract_source_mappings(php_content@, path@) == Some(
                entries_view(v@),
            ),
            Err(e) => spec_extract_source_mappings(php_content@, path@) is None && e
                is StructuralParse,
        },
{
    let lines = split_lines(php_content);
    let ghost lv = strs_view(lines@);
    let n = lines.len();
    let total = php_content.unicode_len();
    proof {
        lemma_lines_sum(php_content@);
    }
    let mut in_comment: bool = false;
    let mut in_function: bool = false;
    let mut in_params: bool = false;
    let mut pending_start: bool = false;
    let mut in_class: bool = false;
    let mut class_prefix: String = String::new();
    let mut class_depth: i128 = 0;
    let mut fn_mapping: String = String::new();
    let mut fn_args: Vec<String> = Vec::new();
    let mut fn_depth: i128 = 0;
    let mut fn_start: usize = 0;
    let mut depth: i128 = 0;
    let mut entries: Vec<SourceMapping> = Vec::new();
    let mut idx: usize = 0;
    proof {
        assert(lv.take(0) =~= Seq::<Seq<char>>::empty());
        assert(strs_view(fn_args@) =~= Seq::<Seq<char>>::empty());
        assert(entries_view(entries@) =~= Seq::<MappingModel>::empty());
    }
    while idx < n
        invariant
            idx <= n,
            n == lv.len(),
            lv == strs_view(lines@),
            lv == spec_lines(php_content@),
            sum_lens(lv) <= php_content@.len(),
            total as nat == php_content@.len(),
            ({
                let st = map_scan_from(lv.take(idx as int), path@);
                &&& !st.failed
                &&& st.in_comment == in_comment
                &&& st.in_function == in_function
                &&& st.in_params == in_params
                &&& st.pending_start == pending_start
                &&& st.in_class == in_class
                &&& st.class_prefix == class_prefix@
                &&& st.class_depth == class_depth as int
                &&& st.fn_mapping == fn_mapping@
                &&& st.fn_args == strs_view(fn_args@)
                &&& st.fn_depth == fn_depth as int
                &&& st.fn_start == fn_start as int
                &&& st.depth == depth as int
                &&& st.entries == entries_view(entries@)
            }),
            fn_start <= idx,
            -sum_lens(lv.take(idx as int)) <= depth as int <= sum_lens(lv.take(idx as int)),
            -sum_lens(lv.take(idx as int)) <= fn_depth as int <= sum_lens(
                lv.take(idx as int),
            ),
            -sum_lens(lv.take(idx as int)) <= class_depth as int <= sum_lens(
                lv.take(idx as int),
            ),
        decreases n - idx,
    {
        proof {
            lemma_sum_lens_take(lv, idx as int);
            lemma_sum_lens_nonneg(lv.take(idx as int));
            lemma_sum_lens_take(lv, idx + 1);
            lemma_sum_lens_nonneg(lv.take(idx + 1));
            assert(lv.take(idx + 1).drop_last() =~= lv.take(idx as int));
            assert(lv.take(idx + 1).last() == lv[idx as int]);
            assert(sum_lens(lv.take(idx + 1)) == sum_lens(lv.take(idx as int))
                + lv[idx as int].len());
        }
        let ghost st0 = map_scan_from(lv.take(idx as int), path@);
        let ghost stn = map_scan_from(lv.take(idx + 1), path@);
        proof {
            assert(stn == map_scan_step(st0, lv[idx as int], idx + 1, path@));
        }
        let line = &lines[idx];
        proof {
            assert(lv[idx as int] == line@);
        }
        let t = trim_str(line.as_str());
        proof {
            lemma_trim_len(line@);
        }
        let entry_in_params = in_params;
        if starts_with_str(t, "#") || starts_with_str(t, "//") {
            idx += 1;
            continue;
        }
        if starts_with_str(t, "/*") || ends_with_str(t, "/*") {
            in_comment = true;
        }
        if starts_with_str(t, "*/") || ends_with_str(t, "*/") {
            in_comment = false;
        }
        if contains_str(t, "/*") && contains_str(t, "*/") {
            idx += 1;
            continue;
        }
        if in_comment {
            idx += 1;
            continue;
        }
        let fn_hit = !in_function && is_function_decl(t);
        if fn_hit {
            let name = try_function_name(t);
            match name {
                None => {
                    proof {
                        assert(stn.failed);
                        lemma_map_scan_failed_persists(lv, path@, idx + 1);
                    }
                    return Err(CompileError::StructuralParse(t.to_owned()));
                },
                Some(nm) => {
                    let mut q = class_prefix.clone();
                    q.append("$F");
                    q.append(nm.as_str());
                    fn_mapping = q;
                    fn_depth = depth;
                    fn_args = extract_function_params(t);
                    if ends_with_str(t, "{") {
                        in_function = true;
                        fn_start = idx + 1;
                    } else {
                        pending_start = true;
                    }
                    in_params = contains_char(t, '(') && !contains_char(t, ')');
                },
            }
        }
        let class_hit = !in_class && is_class_decl(t);
        if class_hit {
            let cname = try_class_name(t);
            match cname {
                None => {
                    proof {
                        assert(stn.failed);
                        lemma_map_scan_failed_persists(lv, path@, idx + 1);
                    }
                    return Err(CompileError::StructuralParse(t.to_owned()));
                },
                Some(nm) => {
                    let mut p = "$C".to_owned();
                    p.append(nm.as_str());
                    class_prefix = p;
                    in_class = true;
                    class_depth = depth;
                },
            }
        }
        let opens = count_occurences_not_in_string(t, '{');
        let closes = count_occurences_not_in_string(t, '}');
        let dc: i128 = opens as i128 - closes as i128;
        if entry_in_params && !fn_hit {
            let extra = extract_function_params(t);
            let ghost args_before = fn_args@;
            proof {
                assert(strs_view(args_before + extra@) =~= strs_view(args_before) + strs_view(
                    extra@,
                ));
            }
            append_strings(&mut fn_args, extra);
            in_params = !(starts_with_str(t, ")") || ends_with_str(t, ")"));
        }
        if pending_start && dc > 0 {
            fn_start = idx + 1;
            pending_start = false;
            in_function = true;
        }
        depth = depth + dc;
        if in_function && depth <= fn_depth {
            let m = SourceMapping {
                path: path.to_owned(),
                mapping: fn_mapping.clone(),
                args: clone_strings(&fn_args),
                from: fn_start,
                to: idx + 1,
            };
            upsert_entry(&mut entries, m);
            in_function = false;
        }
        if in_class && depth <= class_depth {
            class_prefix = String::new();
            in_class = false;
            class_depth = 0;
        }
        idx += 1;
    }
    proof {
        assert(lv.take(n as int) =~= lv);
    }
    if in_function || in_class {
        return Err(CompileError::StructuralParse(fn_mapping));
    }
    Ok(entries)
}

} // verus!
