//! The splice engine: applies sorted mixins to in-memory file text as
//! precise character splices, keeps the position map consistent after every
//! edit, and then adds the cross-file audit comments, `use` statements and
//! `require` statements.

use vstd::prelude::*;
use vstd::string::*;

use crate::config::Config;
use crate::error::CompileError;
use crate::interpreter::mixins_view;
use crate::mixin::args_view;
use crate::mixin::KindModel;
use crate::mixin::MixinTypes;
use crate::mixin::Mixin;
use crate::mixin::MixinModel;
use crate::php::MappingModel;
use crate::php::SourceMapping;
use crate::php::entries_view;
use crate::util::clone_strings;
use crate::util::count_newlines;
use crate::util::ends_with_str;
use crate::util::spec_ends_with;
use crate::util::lemma_count_concat;
use crate::util::lemma_line_end_at_newline;
use crate::util::lemma_count_no_newline;
use crate::util::lemma_insert_line_structure;
use crate::util::lemma_slice_line_structure;
use crate::util::spec_has_char;
use crate::util::spec_lines;
use crate::util::rfind_char;
use crate::util::spec_line_start;
use crate::util::spec_newline_count;
use crate::util::get_index_of_line;
use crate::util::splice_text;
use crate::util::str_eq;
use crate::util::strs_view;

verus! {

// ---------------------------------------------------------------------------
// the file table
// ---------------------------------------------------------------------------

/// Mathematical form of a file table entry.
pub ghost struct FileModel {
    pub path: Seq<char>,
    pub text: Seq<char>,
}

/// One target file: its relative path and its live text.
#[derive(Debug, Clone)]
pub struct FileEntry {
    pub path: String,
    pub text: String,
}

impl View for FileEntry {
    type V = FileModel;

    open spec fn view(&self) -> FileModel {
        (FileModel { path: self.path@, text: self.text@ })
    }
}

/// Views of a file table.
pub open spec fn files_view(v: Seq<FileEntry>) -> Seq<FileModel> {
    v.map_values(|f: FileEntry| f@)
}

/// Position of the first file with the given path, or the table's length
/// when none matches.
pub open spec fn spec_file_pos(files: Seq<FileModel>, path: Seq<char>) -> int
    decreases files.len(),
{
    if files.len() == 0 {
        0
    } else if files[0].path == path {
        0
    } else {
        1 + spec_file_pos(files.drop_first(), path)
    }
}

pub proof fn lemma_file_pos(files: Seq<FileModel>, path: Seq<char>)
    ensures
        0 <= spec_file_pos(files, path) <= files.len(),
        spec_file_pos(files, path) < files.len() ==> files[spec_file_pos(files, path)].path
            == path,
        forall|j: int| 0 <= j < spec_file_pos(files, path) ==> files[j].path != path,
    decreases files.len(),
{
    if files.len() > 0 && files[0].path != path {
        lemma_file_pos(files.drop_first(), path);
        assert forall|j: int| 0 <= j < spec_file_pos(files, path) implies files[j].path != path by {
            if j >= 1 {
                assert(files.drop_first()[j - 1] == files[j]);
            }
        }
    }
}

fn find_file(files: &Vec<FileEntry>, path: &str) -> (r: Option<usize>)
    ensures
        match r {
            Some(i) => i as int == spec_file_pos(files_view(files@), path@) && i < files@.len(),
            None => spec_file_pos(files_view(files@), path@) >= files@.len(),
        },
{
    proof {
        lemma_file_pos(files_view(files@), path@);
    }
    let n = files.len();
    let mut i: usize = 0;
    while i < n
        invariant
            i <= n,
            n == files@.len(),
            forall|j: int| 0 <= j < i ==> files_view(files@)[j].path != path@,
        decreases n - i,
    {
        if str_eq(files[i].path.as_str(), path) {
            proof {
                let fv = files_view(files@);
                let p = spec_file_pos(fv, path@);
                lemma_file_pos(fv, path@);
                assert(fv[i as int] == files@[i as int]@);
                if p < i as int {
                    assert(fv[p].path != path@);
                }
                assert(p == i as int);
            }
            return Some(i);
        }
        i += 1;
    }
    None
}

/// Position of the first mapping for the given file and qualifier, or the
/// table's length when none matches.
pub open spec fn spec_map_pos(maps: Seq<MappingModel>, path: Seq<char>, qualifier: Seq<char>) -> int
    decreases maps.len(),
{
    if maps.len() == 0 {
        0
    } else if maps[0].path == path && maps[0].mapping == qualifier {
        0
    } else {
        1 + spec_map_pos(maps.drop_first(), path, qualifier)
    }
}

pub proof fn lemma_map_pos(maps: Seq<MappingModel>, path: Seq<char>, qualifier: Seq<char>)
    ensures
        0 <= spec_map_pos(maps, path, qualifier) <= maps.len(),
        spec_map_pos(maps, path, qualifier) < maps.len() ==> maps[spec_map_pos(
            maps,
            path,
            qualifier,
        )].path == path && maps[spec_map_pos(maps, path, qualifier)].mapping == qualifier,
        forall|j: int|
            0 <= j < spec_map_pos(maps, path, qualifier) ==> !(maps[j].path == path
                && maps[j].mapping == qualifier),
    decreases maps.len(),
{
    if maps.len() > 0 && !(maps[0].path == path && maps[0].mapping == qualifier) {
        lemma_map_pos(maps.drop_first(), path, qualifier);
        assert forall|j: int| 0 <= j < spec_map_pos(maps, path, qualifier) implies !(maps[j].path
            == path && maps[j].mapping == qualifier) by {
            if j >= 1 {
                assert(maps.drop_first()[j - 1] == maps[j]);
            }
        }
    }
}

fn find_mapping(maps: &Vec<SourceMapping>, path: &str, qualifier: &str) -> (r: Option<usize>)
    ensures
        match r {
            Some(i) => i as int == spec_map_pos(entries_view(maps@), path@, qualifier@) && i
                < maps@.len(),
            None => spec_map_pos(entries_view(maps@), path@, qualifier@) >= maps@.len(),
        },
{
    proof {
        lemma_map_pos(entries_view(maps@), path@, qualifier@);
    }
    let n = maps.len();
    let mut i: usize = 0;
    while i < n
        invariant
            i <= n,
            n == maps@.len(),
            forall|j: int|
                0 <= j < i ==> !(entries_view(maps@)[j].path == path@ && entries_view(
                    maps@,
                )[j].mapping == qualifier@),
        decreases n - i,
    {
        if str_eq(maps[i].path.as_str(), path) && str_eq(maps[i].mapping.as_str(), qualifier) {
            proof {
                let mv = entries_view(maps@);
                let p = spec_map_pos(mv, path@, qualifier@);
                lemma_map_pos(mv, path@, qualifier@);
                assert(mv[i as int] == maps@[i as int]@);
                if p < i as int {
                    assert(!(mv[p].path == path@ && mv[p].mapping == qualifier@));
                }
                assert(p == i as int);
            }
            return Some(i);
        }
        i += 1;
    }
    None
}

// ---------------------------------------------------------------------------
// locator handling
// ---------------------------------------------------------------------------

/// Position of the last `c` in `s`, or `-1` when it never occurs.
pub open spec fn spec_rfind(s: Seq<char>, c: char) -> int
    decreases s.len(),
{
    if s.len() == 0 {
        -1
    } else if s.last() == c {
        s.len() - 1
    } else {
        spec_rfind(s.drop_last(), c)
    }
}

pub proof fn lemma_rfind(s: Seq<char>, c: char)
    ensures
        -1 <= spec_rfind(s, c) < s.len(),
        spec_rfind(s, c) >= 0 ==> s[spec_rfind(s, c)] == c,
        forall|j: int| spec_rfind(s, c) < j < s.len() ==> s[j] != c,
    decreases s.len(),
{
    if s.len() > 0 && s.last() != c {
        lemma_rfind(s.drop_last(), c);
        assert forall|j: int| spec_rfind(s, c) < j < s.len() implies s[j] != c by {
            if j < s.len() - 1 {
                assert(s.drop_last()[j] == s[j]);
            }
        }
    }
}

/// Last occurrence of `c` pinned to the recursive position spec.
fn rfind_pin(s: &str, c: char) -> (r: Option<usize>)
    ensures
        match r {
            Some(i) => i as int == spec_rfind(s@, c),
            None => spec_rfind(s@, c) < 0,
        },
{
    proof {
        lemma_rfind(s@, c);
    }
    let found = rfind_char(s, c);
    match found {
        Some(i) => {
            proof {
                let p = spec_rfind(s@, c);
                if p < i as int {
                    assert(s@[i as int] != c);
                } else if (i as int) < p {
                    assert(s@[p] != c);
                }
            }
            Some(i)
        },
        None => {
            proof {
                let p = spec_rfind(s@, c);
                if p >= 0 {
                    assert(s@[p] == c);
                }
            }
            None
        },
    }
}

/// The file part of a target locator: everything before the last path
/// separator.
pub fn extract_src_map_from_target<'a>(target: &'a str) -> (r: &'a str)
    requires
        spec_rfind(target@, '/') >= 0,
    ensures
        r@ == target@.take(spec_rfind(target@, '/')),
{
    proof {
        lemma_rfind(target@, '/');
    }
    let found = rfind_pin(target, '/');
    match found {
        Some(i) => target.substring_char(0, i),
        None => {
            proof {
                assert(false);
            }
            ""
        },
    }
}

/// The `$`-tagged components of a qualifier, keeping the class and function
/// tags; nothing when the text is not a chain of `$<kind><name>` groups.
pub open spec fn spec_target_tags(tag: Seq<char>) -> Option<Seq<Seq<char>>>
    decreases tag.len(),
{
    if tag.len() == 0 {
        Some(Seq::empty())
    } else if tag[0] != '$' || tag.len() < 2 {
        None
    } else {
        let untagged = tag.skip(2);
        let nt0 = crate::util::spec_first_pos(untagged, '$');
        let nt1 = if nt0 < 0 {
            0
        } else {
            nt0
        };
        let nt = if nt1 > untagged.len() {
            untagged.len() as int
        } else {
            nt1
        };
        let cur = tag.take(2) + untagged.take(nt);
        match spec_target_tags(untagged.skip(nt)) {
            None => None,
            Some(rest) => {
                if tag.take(2) == "$F"@ || tag.take(2) == "$C"@ {
                    Some(seq![cur] + rest)
                } else {
                    Some(rest)
                }
            },
        }
    }
}

/// Splits a qualifier such as `$CUser$FgetName` into its class and function
/// tags, in order; nothing when the text is malformed.
pub fn extract_target_mapping(tag: &str) -> (r: Option<Vec<String>>)
    ensures
        match r {
            Some(v) => spec_target_tags(tag@) == Some(strs_view(v@)),
            None => spec_target_tags(tag@) is None,
        },
{
    let sl = tag.unicode_len();
    let mut out: Vec<String> = Vec::new();
    let mut off: usize = 0;
    proof {
        assert(strs_view(out@) =~= Seq::<Seq<char>>::empty());
        assert(tag@.skip(0) =~= tag@);
    }
    while off < sl
        invariant
            off <= sl,
            sl == tag@.len(),
            match spec_target_tags(tag@.skip(off as int)) {
                Some(rest) => spec_target_tags(tag@) == Some(strs_view(out@) + rest),
                None => spec_target_tags(tag@) is None,
            },
        decreases sl - off,
    {
        let ghost tail = tag@.skip(off as int);
        if tag.get_char(off) != '$' || sl - off < 2 {
            proof {
                assert(tail[0] == tag@[off as int]);
            }
            return None;
        }
        let rest_str = tag.substring_char(off + 2, sl);
        proof {
            assert(rest_str@ =~= tail.skip(2));
            crate::util::lemma_first_pos(rest_str@, '$');
        }
        let nt = crate::util::first_pos(rest_str, '$');
        let cur = tag.substring_char(off, off + 2 + nt).to_owned();
        proof {
            assert(cur@ =~= tail.take(2) + tail.skip(2).take(nt as int));
            assert(tail.skip(2).skip(nt as int) =~= tag@.skip(off + 2 + nt));
        }
        proof {
            reveal_strlit("$F");
            reveal_strlit("$C");
            assert(tail.take(2) =~= tag@.subrange(off as int, off + 2));
        }
        let is_f = crate::util::match_at(tag, "$F", off);
        let is_c = crate::util::match_at(tag, "$C", off);
        if is_f || is_c {
            proof {
                assert(strs_view(out@.push(cur)) =~= strs_view(out@).push(cur@));
                assert(forall|r2: Seq<Seq<char>>|
                    strs_view(out@) + (seq![cur@] + r2) =~= strs_view(out@).push(cur@) + r2);
            }
            out.push(cur);
        }
        off = off + 2 + nt;
    }
    proof {
        assert(tag@.skip(sl as int) =~= Seq::<char>::empty());
    }
    Some(out)
}

// ---------------------------------------------------------------------------
// the injected call statement
// ---------------------------------------------------------------------------

/// `args` joined by `sep`.
pub open spec fn spec_join(args: Seq<Seq<char>>, sep: Seq<char>) -> Seq<char>
    decreases args.len(),
{
    if args.len() == 0 {
        Seq::empty()
    } else if args.len() == 1 {
        args[0]
    } else {
        spec_join(args.drop_last(), sep) + sep + args.last()
    }
}

fn join_strings(args: &Vec<String>, sep: &str) -> (r: String)
    ensures
        r@ == spec_join(strs_view(args@), sep@),
{
    let n = args.len();
    let mut out = String::new();
    let mut i: usize = 0;
    proof {
        assert(strs_view(args@.take(0)) =~= Seq::<Seq<char>>::empty());
    }
    while i < n
        invariant
            i <= n,
            n == args@.len(),
            out@ == spec_join(strs_view(args@.take(i as int)), sep@),
        decreases n - i,
    {
        proof {
            let pv = strs_view(args@.take(i as int));
            let nv = strs_view(args@.take(i + 1));
            assert(args@.take(i + 1).drop_last() =~= args@.take(i as int));
            assert(nv.drop_last() =~= pv);
            assert(nv.last() == args@[i as int]@);
            assert(nv.len() == i + 1);
        }
        if i > 0 {
            out.append(sep);
        }
        out.append(args[i].as_str());
        proof {
            if i == 0 {
                assert(strs_view(args@.take(1))[0] == args@[0]@);
            }
        }
        i += 1;
    }
    proof {
        assert(args@.take(n as int) =~= args@);
    }
    out
}

/// The statement spliced into a target: a newline, a call of the mixin's
/// function with its captured arguments, and a trailer comment recording the
/// donor path.
pub open spec fn spec_mixin_call_string(m: MixinModel) -> Seq<char> {
    "\n"@ + m.name + "("@ + spec_join(m.args, ", "@) + "); #mixin call "@ + m.name + " from "@
        + m.path
}

pub fn create_mixin_call_string(mixin: &Mixin) -> (r: String)
    ensures
        r@ == spec_mixin_call_string(mixin@),
        r@.len() >= 1,
        r@[0] == '\n',
{
    proof {
        reveal_strlit("\n");
    }
    let mut s = "\n".to_owned();
    s.append(mixin.name.as_str());
    s.append("(");
    let joined = join_strings(&mixin.args, ", ");
    s.append(joined.as_str());
    s.append("); #mixin call ");
    s.append(mixin.name.as_str());
    s.append(" from ");
    s.append(mixin.path.as_str());
    s
}

// ---------------------------------------------------------------------------
// shifting the position map
// ---------------------------------------------------------------------------

/// A coordinate strictly beyond the edit point moves by the edit's net line
/// delta; others stay.
pub open spec fn spec_shift(x: int, start: int, amount: int) -> int {
    if x > start {
        x + amount
    } else {
        x
    }
}

/// The position map after an edit in `file` at line `start` with net delta
/// `amount`: both coordinates of every mapping of that file are shifted.
pub open spec fn spec_move_mappings(
    maps: Seq<MappingModel>,
    file: Seq<char>,
    start: int,
    amount: int,
) -> Seq<MappingModel> {
    maps.map_values(
        |m: MappingModel|
            if m.path == file {
                MappingModel {
                    from: spec_shift(m.from, start, amount),
                    to: spec_shift(m.to, start, amount),
                    ..m
                }
            } else {
                m
            },
    )
}

/// Every shifted coordinate stays representable.
pub open spec fn spec_move_ok(
    maps: Seq<MappingModel>,
    file: Seq<char>,
    start: int,
    amount: int,
) -> bool {
    forall|i: int|
        0 <= i < maps.len() && maps[i].path == file ==> 0 <= spec_shift(
            #[trigger] maps[i].from,
            start,
            amount,
        ) <= usize::MAX && 0 <= spec_shift(maps[i].to, start, amount) <= usize::MAX
}

/// Shifts every mapping of `file_name` whose coordinates lie beyond
/// `start_index` by `move_amount`.  Fails, leaving the table unchanged, when
/// a shifted coordinate would not be representable.
pub fn move_mappings(
    source_mapping: &mut Vec<SourceMapping>,
    file_name: &str,
    start_index: usize,
    move_amount: i128,
) -> (r: Result<(), CompileError>)
    requires
        -(usize::MAX as i128) - 1 <= move_amount <= usize::MAX as i128 + 1,
    ensures
        match r {
            Ok(_) => spec_move_ok(
                entries_view(old(source_mapping)@),
                file_name@,
                start_index as int,
                move_amount as int,
            ) && entries_view(final(source_mapping)@) == spec_move_mappings(
                entries_view(old(source_mapping)@),
                file_name@,
                start_index as int,
                move_amount as int,
            ),
            Err(e) => !spec_move_ok(
                entries_view(old(source_mapping)@),
                file_name@,
                start_index as int,
                move_amount as int,
            ) && e is LineOutOfRange && final(source_mapping)@ == old(source_mapping)@,
        },
{
    let n = source_mapping.len();
    let mut i: usize = 0;
    // first pass: check that every shift is representable
    while i < n
        invariant
            i <= n,
            n == source_mapping@.len(),
            source_mapping@ == old(source_mapping)@,
            -(usize::MAX as i128) - 1 <= move_amount <= usize::MAX as i128 + 1,
            forall|j: int|
                0 <= j < i && entries_view(source_mapping@)[j].path == file_name@ ==> 0
                    <= spec_shift(
                    #[trigger] entries_view(source_mapping@)[j].from,
                    start_index as int,
                    move_amount as int,
                ) <= usize::MAX && 0 <= spec_shift(
                    entries_view(source_mapping@)[j].to,
                    start_index as int,
                    move_amount as int,
                ) <= usize::MAX,
        decreases n - i,
    {
        let e = &source_mapping[i];
        proof {
            assert(entries_view(source_mapping@)[i as int] == source_mapping@[i as int]@);
        }
        if str_eq(e.path.as_str(), file_name) {
            let sf = shift_coord(e.from, start_index, move_amount);
            let st = shift_coord(e.to, start_index, move_amount);
            if sf.is_none() || st.is_none() {
                proof {
                    let ev = entries_view(source_mapping@);
                    assert(ev[i as int].path == file_name@ && !(0 <= spec_shift(
                        ev[i as int].from,
                        start_index as int,
                        move_amount as int,
                    ) <= usize::MAX && 0 <= spec_shift(
                        ev[i as int].to,
                        start_index as int,
                        move_amount as int,
                    ) <= usize::MAX));
                }
                return Err(CompileError::LineOutOfRange(e.mapping.clone()));
            }
        }
        i += 1;
    }
    // second pass: apply
    let ghost orig = source_mapping@;
    let ghost target = spec_move_mappings(
        entries_view(orig),
        file_name@,
        start_index as int,
        move_amount as int,
    );
    let mut out: Vec<SourceMapping> = Vec::new();
    let mut i: usize = 0;
    proof {
        assert(entries_view(out@) =~= target.take(0));
    }
    while i < n
        invariant
            i <= n,
            n == orig.len(),
            source_mapping@ == orig,
            -(usize::MAX as i128) - 1 <= move_amount <= usize::MAX as i128 + 1,
            spec_move_ok(entries_view(orig), file_name@, start_index as int, move_amount as int),
            target == spec_move_mappings(
                entries_view(orig),
                file_name@,
                start_index as int,
                move_amount as int,
            ),
            entries_view(out@) == target.take(i as int),
        decreases n - i,
    {
        proof {
            assert(entries_view(orig)[i as int] == orig[i as int]@);
        }
        let e = &source_mapping[i];
        let ne: SourceMapping;
        if str_eq(e.path.as_str(), file_name) {
            proof {
                let ov = entries_view(orig);
                assert(ov[i as int].path == file_name@);
                assert(0 <= spec_shift(ov[i as int].from, start_index as int, move_amount as int)
                    <= usize::MAX && 0 <= spec_shift(
                    ov[i as int].to,
                    start_index as int,
                    move_amount as int,
                ) <= usize::MAX);
            }
            let sf = shift_coord(e.from, start_index, move_amount);
            let st = shift_coord(e.to, start_index, move_amount);
            match (sf, st) {
                (Some(nf), Some(nt)) => {
                    ne = SourceMapping {
                        path: e.path.clone(),
                        mapping: e.mapping.clone(),
                        args: clone_strings(&e.args),
                        from: nf,
                        to: nt,
                    };
                },
                _ => {
                    proof {
                        assert(false);
                    }
                    ne = SourceMapping {
                        path: String::new(),
                        mapping: String::new(),
                        args: Vec::new(),
                        from: 0,
                        to: 0,
                    };
                },
            }
        } else {
            ne = SourceMapping {
                path: e.path.clone(),
                mapping: e.mapping.clone(),
                args: clone_strings(&e.args),
                from: e.from,
                to: e.to,
            };
        }
        proof {
            assert(ne@ == target[i as int]);
            assert(entries_view(out@.push(ne)) =~= entries_view(out@).push(ne@));
            assert(target.take(i + 1) =~= target.take(i as int).push(target[i as int]));
        }
        out.push(ne);
        i += 1;
    }
    proof {
        assert(target.take(n as int) =~= target);
    }
    *source_mapping = out;
    Ok(())
}

// ---------------------------------------------------------------------------
// the splice model
// ---------------------------------------------------------------------------

/// Mathematical form of an applied mixin's record.
pub ghost struct InjectionModel {
    pub donor: Seq<char>,
    pub target_file: Seq<char>,
    pub namespace: Seq<char>,
    pub name: Seq<char>,
}

/// One applied mixin's record, driving the later import pass.
#[derive(Debug, Clone)]
pub struct Injection {
    pub donor: String,
    pub target_file: String,
    pub namespace: String,
    pub name: String,
}

impl View for Injection {
    type V = InjectionModel;

    open spec fn view(&self) -> InjectionModel {
        (InjectionModel {
            donor: self.donor@,
            target_file: self.target_file@,
            namespace: self.namespace@,
            name: self.name@,
        })
    }
}

pub open spec fn injs_view(v: Seq<Injection>) -> Seq<InjectionModel> {
    v.map_values(|x: Injection| x@)
}

/// The engine's working state: the live file texts, the position map, and
/// the records of the mixins applied so far.
pub ghost struct SpliceState {
    pub files: Seq<FileModel>,
    pub maps: Seq<MappingModel>,
    pub injections: Seq<InjectionModel>,
}

pub ghost enum SpliceOutcome {
    Continue { st: SpliceState },
    Unresolved,
    OutOfRange,
}

/// A 1-based line number that lies inside the text, with its successor
/// index representable.
pub open spec fn spec_line_ok(text: Seq<char>, n: int) -> bool {
    1 <= n && n <= spec_newline_count(text) + 1 && n + 1 <= usize::MAX
}

/// Splices the statement in as a new line directly after line `n` of the
/// target file, and shifts every later coordinate of that file's mappings
/// one line down.  When line `n` is terminated, the call text (closed by a
/// newline) lands at the start of line `n + 1`; after the final,
/// unterminated line the statement (opened by a newline) is appended.
pub open spec fn spec_apply_line_insert(
    st: SpliceState,
    fi: int,
    fpath: Seq<char>,
    n: int,
    stmt: Seq<char>,
) -> SpliceOutcome {
    let text = st.files[fi].text;
    if !spec_line_ok(text, n) {
        SpliceOutcome::OutOfRange
    } else if !spec_move_ok(st.maps, fpath, n, 1) {
        SpliceOutcome::OutOfRange
    } else {
        let ntext = if n <= spec_newline_count(text) {
            let p = spec_line_start(text, n + 1);
            text.take(p) + stmt.skip(1) + "\n"@ + text.skip(p)
        } else {
            text + stmt
        };
        SpliceOutcome::Continue {
            st: SpliceState {
                files: st.files.update(fi, (FileModel { path: st.files[fi].path, text: ntext })),
                maps: spec_move_mappings(st.maps, fpath, n, 1),
                injections: st.injections,
            },
        }
    }
}

/// Removes lines `a` through `b` of the target file, inserts the call
/// statement (closed by a newline) at the range's start, and shifts every
/// coordinate beyond `b` by the net line delta `a - b`.
pub open spec fn spec_apply_slice(
    st: SpliceState,
    fi: int,
    fpath: Seq<char>,
    a: int,
    b: int,
    stmt: Seq<char>,
) -> SpliceOutcome {
    let text = st.files[fi].text;
    if !(spec_line_ok(text, a) && spec_line_ok(text, b) && a <= b) {
        SpliceOutcome::OutOfRange
    } else {
        let p1 = spec_line_start(text, a);
        let p2 = if b <= spec_newline_count(text) {
            spec_line_start(text, b + 1)
        } else {
            text.len() as int
        };
        if p1 > p2 {
            SpliceOutcome::OutOfRange
        } else if !spec_move_ok(st.maps, fpath, b, a - b) {
            SpliceOutcome::OutOfRange
        } else {
            let body = stmt.skip(1) + "\n"@;
            let ntext = text.take(p1) + body + text.skip(p2);
            SpliceOutcome::Continue {
                st: SpliceState {
                    files: st.files.update(
                        fi,
                        (FileModel { path: st.files[fi].path, text: ntext }),
                    ),
                    maps: spec_move_mappings(st.maps, fpath, b, a - b),
                    injections: st.injections,
                },
            }
        }
    }
}

/// One mixin of the sorted list.  Whole-file targets and unrecognized
/// directives are skipped.  The locator splits at its last path separator
/// into the target file and the qualifier; an unmatched locator is fatal,
/// as is an insertion or removal line outside the file.  Only an applied
/// mixin is recorded for the import pass: search-anchored kinds resolve
/// their target but are neither applied nor recorded.
pub open spec fn spec_apply_mixin(st: SpliceState, m: MixinModel) -> SpliceOutcome {
    if spec_ends_with(m.target, ".php"@) || m.at is Absent {
        SpliceOutcome::Continue { st }
    } else {
        let d = spec_rfind(m.target, '/');
        if d < 0 {
            SpliceOutcome::Unresolved
        } else {
            let fpath = m.target.take(d);
            let qual = m.target.skip(d + 1);
            let mi = spec_map_pos(st.maps, fpath, qual);
            if mi >= st.maps.len() {
                SpliceOutcome::Unresolved
            } else {
                let fi = spec_file_pos(st.files, fpath);
                if fi >= st.files.len() {
                    SpliceOutcome::Unresolved
                } else {
                    let st1 = SpliceState {
                        injections: st.injections.push(
                            (InjectionModel {
                                donor: m.path,
                                target_file: fpath,
                                namespace: m.namespace,
                                name: m.name,
                            }),
                        ),
                        ..st
                    };
                    let sm = st.maps[mi];
                    let stmt = spec_mixin_call_string(m);
                    match m.at {
                        KindModel::Head { offset } => spec_apply_line_insert(
                            st1,
                            fi,
                            fpath,
                            sm.from + offset,
                            stmt,
                        ),
                        KindModel::Tail { offset } => spec_apply_line_insert(
                            st1,
                            fi,
                            fpath,
                            sm.to - offset - 1,
                            stmt,
                        ),
                        KindModel::Slice { from, to } => spec_apply_slice(
                            st1,
                            fi,
                            fpath,
                            sm.from + from,
                            sm.from + to,
                            stmt,
                        ),
                        _ => SpliceOutcome::Continue { st },
                    }
                }
            }
        }
    }
}

/// The boundary-edit law at the line level: a successful insertion after
/// line `n` yields a file whose lines are the original's first `n` lines,
/// then the call line (the statement without its leading newline), then
/// the remaining original lines, in order.  For a `Head` edit `n` is the
/// declaration line plus the offset, so with offset zero the call becomes
/// the body's first statement; for a `Tail` edit `n` is the line before
/// `to - offset`, so with offset zero the call lands immediately before
/// the function's closing line.
pub proof fn lemma_apply_line_insert_lines(
    st: SpliceState,
    fi: int,
    fpath: Seq<char>,
    n: int,
    stmt: Seq<char>,
)
    requires
        0 <= fi < st.files.len(),
        1 <= n <= spec_newline_count(st.files[fi].text),
        stmt.len() >= 1,
        !spec_has_char(stmt.skip(1), '\n'),
        spec_apply_line_insert(st, fi, fpath, n, stmt) is Continue,
    ensures
        spec_apply_line_insert(st, fi, fpath, n, stmt) matches SpliceOutcome::Continue {
            st: st2 } && spec_lines(st2.files[fi].text) == spec_lines(st.files[fi].text).take(n)
            + seq![stmt.skip(1)] + spec_lines(st.files[fi].text).skip(n),
{
    let text = st.files[fi].text;
    let body = stmt.skip(1);
    lemma_insert_line_structure(text, n, body);
    let p = spec_line_start(text, n + 1);
    reveal_strlit("\n");
    assert("\n"@ =~= seq!['\n']);
    assert(text.take(p) + body + "\n"@ + text.skip(p) =~= text.take(p) + body + seq!['\n']
        + text.skip(p));
}

/// The stable-order law for two boundary edits at the same anchor: after a
/// second successful insertion after the same line `n`, the later call
/// stands directly after line `n` and the earlier call right behind it —
/// both calls present, each ahead of every original body line, their order
/// the fixed consequence of applying the stably sorted list.
pub proof fn lemma_two_inserts_lines(
    st: SpliceState,
    fi: int,
    fpath: Seq<char>,
    n: int,
    stmt1: Seq<char>,
    stmt2: Seq<char>,
)
    requires
        0 <= fi < st.files.len(),
        1 <= n <= spec_newline_count(st.files[fi].text),
        stmt1.len() >= 1,
        !spec_has_char(stmt1.skip(1), '\n'),
        stmt2.len() >= 1,
        !spec_has_char(stmt2.skip(1), '\n'),
        spec_apply_line_insert(st, fi, fpath, n, stmt1) matches SpliceOutcome::Continue {
            st: st2 } && spec_apply_line_insert(st2, fi, fpath, n, stmt2) is Continue,
    ensures
        spec_apply_line_insert(st, fi, fpath, n, stmt1) matches SpliceOutcome::Continue {
            st: st2 } && (spec_apply_line_insert(st2, fi, fpath, n, stmt2)
            matches SpliceOutcome::Continue { st: st3 } && spec_lines(st3.files[fi].text)
            == spec_lines(st.files[fi].text).take(n) + seq![stmt2.skip(1)]
            + seq![stmt1.skip(1)] + spec_lines(st.files[fi].text).skip(n)),
{
    let text1 = st.files[fi].text;
    lemma_apply_line_insert_lines(st, fi, fpath, n, stmt1);
    let out1 = spec_apply_line_insert(st, fi, fpath, n, stmt1);
    match out1 {
        SpliceOutcome::Continue { st: st2 } => {
            assert(st2.files.len() == st.files.len());
            let text2 = st2.files[fi].text;
            let p = spec_line_start(text1, n + 1);
            // the first insertion adds exactly one newline
            assert(spec_newline_count(text2) == spec_newline_count(text1) + 1) by {
                lemma_line_end_at_newline(text1, n as nat);
                reveal_strlit("\n");
                assert("\n"@ =~= seq!['\n']);
                lemma_count_no_newline(stmt1.skip(1));
                assert(spec_newline_count(seq!['\n']) == 1) by {
                    assert(seq!['\n'].drop_last() =~= Seq::<char>::empty());
                    assert(spec_newline_count(Seq::<char>::empty()) == 0);
                }
                lemma_count_concat(text1.take(p), stmt1.skip(1));
                lemma_count_concat(text1.take(p) + stmt1.skip(1), seq!['\n']);
                lemma_count_concat(
                    text1.take(p) + stmt1.skip(1) + seq!['\n'],
                    text1.skip(p),
                );
                lemma_count_concat(text1.take(p), text1.skip(p));
                assert(text1.take(p) + text1.skip(p) =~= text1);
                assert(text2 =~= text1.take(p) + stmt1.skip(1) + seq!['\n'] + text1.skip(p));
            }
            lemma_apply_line_insert_lines(st2, fi, fpath, n, stmt2);
            let lines1 = spec_lines(text1);
            let mid = lines1.take(n) + seq![stmt1.skip(1)] + lines1.skip(n);
            // the first n lines survive the first insertion unchanged
            assert(lines1.len() >= n) by {
                crate::util::lemma_lines_len(text1);
            }
            assert(mid.take(n) =~= lines1.take(n));
            assert(mid.skip(n) =~= seq![stmt1.skip(1)] + lines1.skip(n));
            let out2 = spec_apply_line_insert(st2, fi, fpath, n, stmt2);
            match out2 {
                SpliceOutcome::Continue { st: st3 } => {
                    assert(spec_lines(st3.files[fi].text) =~= lines1.take(n) + seq![stmt2.skip(
                        1,
                    )] + seq![stmt1.skip(1)] + lines1.skip(n));
                },
                _ => {
                },
            }
        },
        _ => {
        },
    }
}

/// The range-edit law at the line level: a successful slice of lines `a`
/// through `b` yields a file whose lines are the original's first `a - 1`
/// lines, then the call line (the statement without its leading newline),
/// then the original lines after `b`, in order: exactly the range is
/// removed, and every line outside it survives unchanged.
pub proof fn lemma_apply_slice_lines(
    st: SpliceState,
    fi: int,
    fpath: Seq<char>,
    a: int,
    b: int,
    stmt: Seq<char>,
)
    requires
        0 <= fi < st.files.len(),
        1 <= a <= b <= spec_newline_count(st.files[fi].text),
        stmt.len() >= 1,
        !spec_has_char(stmt.skip(1), '\n'),
        spec_apply_slice(st, fi, fpath, a, b, stmt) is Continue,
    ensures
        spec_apply_slice(st, fi, fpath, a, b, stmt) matches SpliceOutcome::Continue { st: st2 }
            && spec_lines(st2.files[fi].text) == spec_lines(st.files[fi].text).take(a - 1)
            + seq![stmt.skip(1)] + spec_lines(st.files[fi].text).skip(b),
{
    let text = st.files[fi].text;
    let body = stmt.skip(1);
    lemma_slice_line_structure(text, a, b, body);
    reveal_strlit("\n");
    assert("\n"@ =~= seq!['\n']);
    let p1 = spec_line_start(text, a);
    let p2 = spec_line_start(text, b + 1);
    assert(text.take(p1) + (body + "\n"@) + text.skip(p2) =~= text.take(p1) + body
        + seq!['\n'] + text.skip(p2));
}

pub open spec fn spec_apply_all(st: SpliceState, ms: Seq<MixinModel>) -> SpliceOutcome
    decreases ms.len(),
{
    if ms.len() == 0 {
        SpliceOutcome::Continue { st }
    } else {
        match spec_apply_all(st, ms.drop_last()) {
            SpliceOutcome::Continue { st: st2 } => spec_apply_mixin(st2, ms.last()),
            SpliceOutcome::Unresolved => SpliceOutcome::Unresolved,
            SpliceOutcome::OutOfRange => SpliceOutcome::OutOfRange,
        }
    }
}

pub proof fn lemma_apply_fail_persists(st: SpliceState, ms: Seq<MixinModel>, i: int)
    requires
        0 <= i <= ms.len(),
        !(spec_apply_all(st, ms.take(i)) is Continue),
    ensures
        spec_apply_all(st, ms) == spec_apply_all(st, ms.take(i)),
    decreases ms.len() - i,
{
    if i < ms.len() {
        assert(ms.take(i + 1).drop_last() =~= ms.take(i));
        assert(ms.take(i + 1).last() == ms[i]);
        lemma_apply_fail_persists(st, ms, i + 1);
    } else {
        assert(ms.take(i) =~= ms);
    }
}

// ---------------------------------------------------------------------------
// the import pass
// ---------------------------------------------------------------------------

/// The distinct `(consumer file, donor file)` pairs of the applied mixins,
/// in order of first appearance.
pub open spec fn spec_pairs_dedup(inj: Seq<InjectionModel>) -> Seq<(Seq<char>, Seq<char>)>
    decreases inj.len(),
{
    if inj.len() == 0 {
        Seq::empty()
    } else {
        let r = spec_pairs_dedup(inj.drop_last());
        let p = (inj.last().target_file, inj.last().donor);
        if r.contains(p) {
            r
        } else {
            r.push(p)
        }
    }
}

/// Import-pass determinism, part one: the deduplicated pair list never
/// repeats a `(consumer file, donor file)` pair, so the `require` pass emits
/// at most one statement per pair, while the `use` pass emits one mapping
/// comment and one `use` statement per applied mixin by construction.
pub proof fn lemma_pairs_dedup_distinct(inj: Seq<InjectionModel>)
    ensures
        forall|i: int, j: int|
            0 <= i < j < spec_pairs_dedup(inj).len() ==> spec_pairs_dedup(inj)[i]
                != spec_pairs_dedup(inj)[j],
    decreases inj.len(),
{
    if inj.len() > 0 {
        lemma_pairs_dedup_distinct(inj.drop_last());
        let r = spec_pairs_dedup(inj.drop_last());
        let p = (inj.last().target_file, inj.last().donor);
        if !r.contains(p) {
            assert forall|i: int, j: int|
                0 <= i < j < spec_pairs_dedup(inj).len() implies spec_pairs_dedup(inj)[i]
                != spec_pairs_dedup(inj)[j] by {
                if j == r.len() {
                    if r[i] == p {
                        assert(r.contains(p));
                    }
                }
            }
        }
    }
}

/// Import-pass determinism, part two: a pair stands in the deduplicated
/// list exactly when some applied mixin carried that consumer and donor, so
/// every such pair gets its `require` statement.
pub proof fn lemma_pairs_dedup_complete(inj: Seq<InjectionModel>, p: (Seq<char>, Seq<char>))
    ensures
        spec_pairs_dedup(inj).contains(p) <==> exists|k: int|
            0 <= k < inj.len() && #[trigger] inj[k].target_file == p.0 && inj[k].donor == p.1,
    decreases inj.len(),
{
    if inj.len() > 0 {
        lemma_pairs_dedup_complete(inj.drop_last(), p);
        let r = spec_pairs_dedup(inj.drop_last());
        let q = (inj.last().target_file, inj.last().donor);
        if spec_pairs_dedup(inj).contains(p) {
            if r.contains(q) || p != q {
                // the witness lies in the shorter list
                if p != q {
                    let w = choose|w: int|
                        0 <= w < spec_pairs_dedup(inj).len() && spec_pairs_dedup(inj)[w] == p;
                    if w < r.len() {
                        assert(r[w] == p);
                        assert(r.contains(p));
                    }
                }
                if r.contains(p) {
                    let k = choose|k: int|
                        0 <= k < inj.drop_last().len() && #[trigger] inj.drop_last()[
                            k].target_file == p.0 && inj.drop_last()[k].donor == p.1;
                    assert(inj[k] == inj.drop_last()[k]);
                }
            }
            if p == q {
                assert(inj[inj.len() - 1].target_file == p.0 && inj[inj.len() - 1].donor == p.1);
            }
        }
        if exists|k: int|
            0 <= k < inj.len() && #[trigger] inj[k].target_file == p.0 && inj[k].donor == p.1 {
            let k = choose|k: int|
                0 <= k < inj.len() && #[trigger] inj[k].target_file == p.0 && inj[k].donor == p.1;
            if k < inj.len() - 1 {
                assert(inj.drop_last()[k] == inj[k]);
                assert(r.contains(p));
                if !r.contains(q) {
                    let w = choose|w: int| 0 <= w < r.len() && r[w] == p;
                    assert(spec_pairs_dedup(inj)[w] == p);
                    assert(spec_pairs_dedup(inj).contains(p));
                }
            } else {
                // the last record itself carries the pair
                if r.contains(q) {
                    assert(p == q);
                    assert(spec_pairs_dedup(inj) == r);
                } else {
                    assert(spec_pairs_dedup(inj)[spec_pairs_dedup(inj).len() - 1] == q);
                    assert(spec_pairs_dedup(inj).contains(q));
                    assert(p == q);
                }
            }
        }
    }
}

pub open spec fn spec_namespaced(ns: Seq<char>, name: Seq<char>) -> Seq<char> {
    ns + "\\"@ + name
}

/// The `require`-equivalent statement for one donor file, optionally
/// prefixed by the document-root expression.
pub open spec fn spec_require_stmt(donor: Seq<char>, use_document_root: bool) -> Seq<char> {
    "\nrequire_once "@ + (if use_document_root {
        "$_SERVER['DOCUMENT_ROOT'] . "@
    } else {
        Seq::<char>::empty()
    }) + "\"/"@ + donor + "\";\n"@
}

/// The mapping comment and `use`-equivalent statement for one applied
/// mixin, in that textual order.
pub open spec fn spec_use_block(inj: InjectionModel) -> Seq<char> {
    "\n#mixin "@ + spec_namespaced(inj.namespace, inj.name) + " from "@ + inj.donor + "\n"@
        + "use function "@ + spec_namespaced(inj.namespace, inj.name) + ";\n"@
}

/// Inserts `blob` immediately after a file's five-character opening marker.
/// Every later insertion at the same offset pushes earlier insertions
/// deeper, so accumulated blobs read in reverse insertion order.  Nothing
/// when the file is missing or too short to carry the marker.
pub open spec fn spec_insert_after_marker(
    files: Seq<FileModel>,
    fpath: Seq<char>,
    blob: Seq<char>,
) -> Option<Seq<FileModel>> {
    let fi = spec_file_pos(files, fpath);
    if fi >= files.len() {
        None
    } else {
        let text = files[fi].text;
        if text.len() < 5 {
            None
        } else {
            Some(
                files.update(
                    fi,
                    (FileModel { path: files[fi].path, text: text.take(5) + blob + text.skip(5) }),
                ),
            )
        }
    }
}

/// One `require` statement per distinct pair, inserted in first-appearance
/// order after the `use` pass, so the `require` lines end up closest to the
/// marker.
pub open spec fn spec_require_pass(
    files: Seq<FileModel>,
    pairs: Seq<(Seq<char>, Seq<char>)>,
    use_document_root: bool,
) -> Option<Seq<FileModel>>
    decreases pairs.len(),
{
    if pairs.len() == 0 {
        Some(files)
    } else {
        match spec_require_pass(files, pairs.drop_last(), use_document_root) {
            None => None,
            Some(fs) => spec_insert_after_marker(
                fs,
                pairs.last().0,
                spec_require_stmt(pairs.last().1, use_document_root),
            ),
        }
    }
}

/// One mapping comment and `use` statement per applied mixin, inserted in
/// application order.
pub open spec fn spec_use_pass(files: Seq<FileModel>, inj: Seq<InjectionModel>) -> Option<
    Seq<FileModel>,
>
    decreases inj.len(),
{
    if inj.len() == 0 {
        Some(files)
    } else {
        match spec_use_pass(files, inj.drop_last()) {
            None => None,
            Some(fs) => spec_insert_after_marker(
                fs,
                inj.last().target_file,
                spec_use_block(inj.last()),
            ),
        }
    }
}

pub proof fn lemma_require_pass_fail_persists(
    files: Seq<FileModel>,
    pairs: Seq<(Seq<char>, Seq<char>)>,
    use_document_root: bool,
    i: int,
)
    requires
        0 <= i <= pairs.len(),
        spec_require_pass(files, pairs.take(i), use_document_root) is None,
    ensures
        spec_require_pass(files, pairs, use_document_root) is None,
    decreases pairs.len() - i,
{
    if i < pairs.len() {
        assert(pairs.take(i + 1).drop_last() =~= pairs.take(i));
        lemma_require_pass_fail_persists(files, pairs, use_document_root, i + 1);
    } else {
        assert(pairs.take(i) =~= pairs);
    }
}

pub proof fn lemma_use_pass_fail_persists(
    files: Seq<FileModel>,
    inj: Seq<InjectionModel>,
    i: int,
)
    requires
        0 <= i <= inj.len(),
        spec_use_pass(files, inj.take(i)) is None,
    ensures
        spec_use_pass(files, inj) is None,
    decreases inj.len() - i,
{
    if i < inj.len() {
        assert(inj.take(i + 1).drop_last() =~= inj.take(i));
        lemma_use_pass_fail_persists(files, inj, i + 1);
    } else {
        assert(inj.take(i) =~= inj);
    }
}

/// What one whole compilation produces: the final file texts, the final
/// position map, and the counts of applied mixins and of files, or the
/// reason it aborted.
pub ghost enum CompileModel {
    Done {
        files: Seq<FileModel>,
        maps: Seq<MappingModel>,
        mixin_count: int,
        file_count: int,
    },
    Unresolved,
    OutOfRange,
}

/// The whole compilation: the mixins applied in order over the file and
/// mapping tables, then the per-mixin `use` pass and finally the `require`
/// pass, whose statements, inserted last, sit closest to each file's
/// opening marker.
pub open spec fn spec_compile(
    use_document_root: bool,
    mixins: Seq<MixinModel>,
    files: Seq<FileModel>,
    maps: Seq<MappingModel>,
) -> CompileModel {
    let init = SpliceState { files: files, maps: maps, injections: Seq::empty() };
    match spec_apply_all(init, mixins) {
        SpliceOutcome::Unresolved => CompileModel::Unresolved,
        SpliceOutcome::OutOfRange => CompileModel::OutOfRange,
        SpliceOutcome::Continue { st } => {
            match spec_use_pass(st.files, st.injections) {
                None => CompileModel::Unresolved,
                Some(f2) => match spec_require_pass(
                    f2,
                    spec_pairs_dedup(st.injections),
                    use_document_root,
                ) {
                    None => CompileModel::Unresolved,
                    Some(f3) => CompileModel::Done {
                        files: f3,
                        maps: st.maps,
                        mixin_count: st.injections.len() as int,
                        file_count: files.len() as int,
                    },
                },
            }
        },
    }
}

/// Replaces the text of the file at position `fi`, keeping its path.
fn replace_file_text(files: &mut Vec<FileEntry>, fi: usize, ntext: String)
    requires
        fi < old(files)@.len(),
    ensures
        files_view(final(files)@) == files_view(old(files)@).update(
            fi as int,
            (FileModel { path: old(files)@[fi as int]@.path, text: ntext@ }),
        ),
{
    let n = files.len();
    let ghost target = files_view(files@).update(
        fi as int,
        (FileModel { path: files@[fi as int]@.path, text: ntext@ }),
    );
    let mut out: Vec<FileEntry> = Vec::new();
    let mut i: usize = 0;
    proof {
        assert(files_view(out@) =~= target.take(0));
    }
    while i < n
        invariant
            i <= n,
            fi < n,
            n == files@.len(),
            files@ == old(files)@,
            ntext@ == ntext@,
            target == files_view(files@).update(
                fi as int,
                (FileModel { path: files@[fi as int]@.path, text: ntext@ }),
            ),
            files_view(out@) == target.take(i as int),
        decreases n - i,
    {
        let e: FileEntry;
        if i == fi {
            e = FileEntry { path: files[i].path.clone(), text: ntext.clone() };
        } else {
            e = FileEntry { path: files[i].path.clone(), text: files[i].text.clone() };
        }
        proof {
            assert(files_view(files@)[i as int] == files@[i as int]@);
            assert(e@ == target[i as int]);
            assert(files_view(out@.push(e)) =~= files_view(out@).push(e@));
            assert(target.take(i + 1) =~= target.take(i as int).push(target[i as int]));
        }
        out.push(e);
        i += 1;
    }
    proof {
        assert(target.take(n as int) =~= target);
    }
    *files = out;
}

/// Applies the sorted mixin list to the file table, keeping the position
/// map consistent after every edit, then adds, after each touched file's
/// opening marker, the per-mixin mapping comments and `use` statements and
/// finally the `require` statements, which, inserted last, sit closest to
/// the marker.  Returns how many mixins were applied and how many files
/// the table holds.  Any unresolved locator, missing file or out-of-range
/// line aborts the run; on failure the tables may hold a partially edited
/// state and are not to be used, so no output is written for the run.
pub fn compile(
    config: &Config,
    mixins: &Vec<Mixin>,
    files: &mut Vec<FileEntry>,
    source_mappings: &mut Vec<SourceMapping>,
) -> (r: Result<(usize, usize), CompileError>)
    ensures
        match r {
            Ok(counts) => spec_compile(
                config.use_document_root,
                mixins_view(mixins@),
                files_view(old(files)@),
                entries_view(old(source_mappings)@),
            ) matches CompileModel::Done { files: f3, maps: m3, mixin_count: mc, file_count: fc }
                && files_view(final(files)@) == f3 && entries_view(final(source_mappings)@) == m3
                && counts.0 as int == mc && counts.1 as int == fc,
            Err(e) => ({
                let out = spec_compile(
                    config.use_document_root,
                    mixins_view(mixins@),
                    files_view(old(files)@),
                    entries_view(old(source_mappings)@),
                );
                (out is Unresolved && e is UnresolvedTarget) || (out is OutOfRange && e
                    is LineOutOfRange)
            }),
        },
{
    let ghost init = SpliceState {
        files: files_view(files@),
        maps: entries_view(source_mappings@),
        injections: Seq::empty(),
    };
    let ghost all = mixins_view(mixins@);
    let file_count = files.len();
    let mut injections: Vec<Injection> = Vec::new();
    let n = mixins.len();
    let mut i: usize = 0;
    proof {
        assert(all.take(0) =~= Seq::<MixinModel>::empty());
        assert(injs_view(injections@) =~= Seq::<InjectionModel>::empty());
    }
    while i < n
        invariant
            i <= n,
            n == mixins@.len(),
            all == mixins_view(mixins@),
            init == (SpliceState {
                files: files_view(old(files)@),
                maps: entries_view(old(source_mappings)@),
                injections: Seq::<InjectionModel>::empty(),
            }),
            file_count == old(files)@.len(),
            spec_apply_all(init, all.take(i as int)) == (SpliceOutcome::Continue {
                st: SpliceState {
                    files: files_view(files@),
                    maps: entries_view(source_mappings@),
                    injections: injs_view(injections@),
                },
            }),
        decreases n - i,
    {
        proof {
            assert(all.take(i + 1).drop_last() =~= all.take(i as int));
            assert(all.take(i + 1).last() == mixins@[i as int]@);
        }
        let ghost stc = SpliceState {
            files: files_view(files@),
            maps: entries_view(source_mappings@),
            injections: injs_view(injections@),
        };
        let ghost stn = spec_apply_all(init, all.take(i + 1));
        proof {
            assert(stn == spec_apply_mixin(stc, mixins@[i as int]@));
        }
        let m = &mixins[i];
        if ends_with_str(m.target.as_str(), ".php") || m.at.is_absent() {
            i += 1;
            continue;
        }
        proof {
            lemma_rfind(m.target@, '/');
        }
        let divider = rfind_pin(m.target.as_str(), '/');
        let d: usize = match divider {
            None => {
                proof {
                    lemma_apply_fail_persists(init, all, i + 1);
                }
                return Err(CompileError::UnresolvedTarget(m.target.clone()));
            },
            Some(d) => d,
        };
        let tlen = m.target.as_str().unicode_len();
        let fpath = m.target.as_str().substring_char(0, d).to_owned();
        proof {
            assert(fpath@ =~= m.target@.take(d as int));
        }
        let qual = m.target.as_str().substring_char(d + 1, tlen).to_owned();
        proof {
            assert(qual@ =~= m.target@.skip(d + 1));
        }
        let mi: usize = match find_mapping(source_mappings, fpath.as_str(), qual.as_str()) {
            None => {
                proof {
                    lemma_apply_fail_persists(init, all, i + 1);
                }
                return Err(CompileError::UnresolvedTarget(m.target.clone()));
            },
            Some(x) => x,
        };
        let fi: usize = match find_file(files, fpath.as_str()) {
            None => {
                proof {
                    lemma_apply_fail_persists(init, all, i + 1);
                }
                return Err(CompileError::UnresolvedTarget(m.target.clone()));
            },
            Some(x) => x,
        };
        let sm_from = source_mappings[mi].from;
        let sm_to = source_mappings[mi].to;
        proof {
            assert(entries_view(source_mappings@)[mi as int] == source_mappings@[mi as int]@);
            assert(files_view(files@)[fi as int] == files@[fi as int]@);
        }
        match &m.at {
            MixinTypes::Head(h) => {
                record_injection(&mut injections, m, &fpath);
                let n128: i128 = sm_from as i128 + h.offset as i128;
                let ok = apply_line_insert(files, source_mappings, fi, &fpath, n128, m);
                match ok {
                    Err(e) => {
                        proof {
                            lemma_apply_fail_persists(init, all, i + 1);
                        }
                        return Err(e);
                    },
                    Ok(_) => {},
                }
            },
            MixinTypes::Tail(tl) => {
                record_injection(&mut injections, m, &fpath);
                let n128: i128 = sm_to as i128 - tl.offset as i128 - 1;
                let ok = apply_line_insert(files, source_mappings, fi, &fpath, n128, m);
                match ok {
                    Err(e) => {
                        proof {
                            lemma_apply_fail_persists(init, all, i + 1);
                        }
                        return Err(e);
                    },
                    Ok(_) => {},
                }
            },
            MixinTypes::Slice(sl) => {
                record_injection(&mut injections, m, &fpath);
                let a128: i128 = sm_from as i128 + sl.from as i128;
                let b128: i128 = sm_from as i128 + sl.to as i128;
                let ok = apply_slice(files, source_mappings, fi, &fpath, a128, b128, m);
                match ok {
                    Err(e) => {
                        proof {
                            lemma_apply_fail_persists(init, all, i + 1);
                        }
                        return Err(e);
                    },
                    Ok(_) => {},
                }
            },
            _ => {},
        }
        i += 1;
    }
    proof {
        assert(all.take(n as int) =~= all);
    }
    let ghost stf = SpliceState {
        files: files_view(files@),
        maps: entries_view(source_mappings@),
        injections: injs_view(injections@),
    };
    // one require statement per distinct (consumer, donor) pair
    let mut pairs: Vec<(String, String)> = Vec::new();
    let in_n = injections.len();
    let mut i: usize = 0;
    proof {
        assert(injs_view(injections@).take(0) =~= Seq::<InjectionModel>::empty());
        assert(args_view(pairs@) =~= Seq::<(Seq<char>, Seq<char>)>::empty());
    }
    while i < in_n
        invariant
            i <= in_n,
            in_n == injections@.len(),
            args_view(pairs@) == spec_pairs_dedup(injs_view(injections@).take(i as int)),
        decreases in_n - i,
    {
        proof {
            assert(injs_view(injections@).take(i + 1).drop_last() =~= injs_view(
                injections@,
            ).take(i as int));
            assert(injs_view(injections@).take(i + 1).last() == injections@[i as int]@);
        }
        let tf = &injections[i].target_file;
        let dn = &injections[i].donor;
        let pn = pairs.len();
        let mut j: usize = 0;
        let mut found: bool = false;
        while j < pn
            invariant
                j <= pn,
                pn == pairs@.len(),
                i < in_n,
                in_n == injections@.len(),
                tf@ == injections@[i as int]@.target_file,
                dn@ == injections@[i as int]@.donor,
                args_view(pairs@) == spec_pairs_dedup(injs_view(injections@).take(i as int)),
                !found ==> forall|k: int|
                    0 <= k < j ==> args_view(pairs@)[k] != (tf@, dn@),
                found ==> exists|k: int|
                    0 <= k < pairs@.len() && args_view(pairs@)[k] == (tf@, dn@),
            decreases pn - j,
        {
            if !found && str_eq(pairs[j].0.as_str(), tf.as_str()) && str_eq(
                pairs[j].1.as_str(),
                dn.as_str(),
            ) {
                proof {
                    assert(args_view(pairs@)[j as int] == (pairs@[j as int].0@, pairs@[
                        j as int].1@));
                }
                found = true;
            }
            j += 1;
        }
        if !found {
            let np = (tf.clone(), dn.clone());
            proof {
                assert(!spec_pairs_dedup(injs_view(injections@).take(i as int)).contains(
                    (tf@, dn@),
                ));
                assert(args_view(pairs@.push(np)) =~= args_view(pairs@).push((tf@, dn@)));
            }
            pairs.push(np);
        } else {
            proof {
                assert(spec_pairs_dedup(injs_view(injections@).take(i as int)).contains(
                    (tf@, dn@),
                ));
            }
        }
        i += 1;
    }
    proof {
        assert(injs_view(injections@).take(in_n as int) =~= injs_view(injections@));
    }
    // use pass: a mapping comment and a use statement per applied mixin
    let mut i: usize = 0;
    proof {
        assert(stf.injections.take(0) =~= Seq::<InjectionModel>::empty());
    }
    while i < in_n
        invariant
            i <= in_n,
            in_n == injections@.len(),
            all == mixins_view(mixins@),
            init == (SpliceState {
                files: files_view(old(files)@),
                maps: entries_view(old(source_mappings)@),
                injections: Seq::<InjectionModel>::empty(),
            }),
            file_count == old(files)@.len(),
            stf.injections == injs_view(injections@),
            spec_apply_all(init, all) == (SpliceOutcome::Continue { st: stf }),
            args_view(pairs@) == spec_pairs_dedup(stf.injections),
            entries_view(source_mappings@) == stf.maps,
            spec_use_pass(stf.files, stf.injections.take(i as int)) == Some(files_view(files@)),
        decreases in_n - i,
    {
        proof {
            assert(stf.injections.take(i + 1).drop_last() =~= stf.injections.take(i as int));
            assert(stf.injections.take(i + 1).last() == injections@[i as int]@);
        }
        let inj = &injections[i];
        let fi: usize = match find_file(files, inj.target_file.as_str()) {
            None => {
                proof {
                    lemma_use_pass_fail_persists(stf.files, stf.injections, i + 1);
                }
                return Err(CompileError::UnresolvedTarget(inj.target_file.clone()));
            },
            Some(x) => x,
        };
        proof {
            assert(files_view(files@)[fi as int] == files@[fi as int]@);
        }
        let flen = files[fi].text.as_str().unicode_len();
        if flen < 5 {
            proof {
                lemma_use_pass_fail_persists(stf.files, stf.injections, i + 1);
            }
            return Err(CompileError::UnresolvedTarget(inj.target_file.clone()));
        }
        let mut ub = "\n#mixin ".to_owned();
        ub.append(inj.namespace.as_str());
        ub.append("\\");
        ub.append(inj.name.as_str());
        ub.append(" from ");
        ub.append(inj.donor.as_str());
        ub.append("\n");
        ub.append("use function ");
        ub.append(inj.namespace.as_str());
        ub.append("\\");
        ub.append(inj.name.as_str());
        ub.append(";\n");
        proof {
            assert(ub@ =~= spec_use_block(injections@[i as int]@));
        }
        let ntext = splice_text(&files[fi].text, 5, 5, ub.as_str());
        replace_file_text(files, fi, ntext);
        i += 1;
    }
    proof {
        assert(stf.injections.take(in_n as int) =~= stf.injections);
    }
    let ghost f2 = files_view(files@);
    // require pass: inserted last, the require lines sit closest to the marker
    let pr_n = pairs.len();
    let mut i: usize = 0;
    proof {
        assert(args_view(pairs@).take(0) =~= Seq::<(Seq<char>, Seq<char>)>::empty());
    }
    while i < pr_n
        invariant
            i <= pr_n,
            pr_n == pairs@.len(),
            all == mixins_view(mixins@),
            init == (SpliceState {
                files: files_view(old(files)@),
                maps: entries_view(old(source_mappings)@),
                injections: Seq::<InjectionModel>::empty(),
            }),
            file_count == old(files)@.len(),
            in_n == injections@.len(),
            stf.injections == injs_view(injections@),
            spec_apply_all(init, all) == (SpliceOutcome::Continue { st: stf }),
            args_view(pairs@) == spec_pairs_dedup(stf.injections),
            entries_view(source_mappings@) == stf.maps,
            spec_use_pass(stf.files, stf.injections) == Some(f2),
            spec_require_pass(
                f2,
                args_view(pairs@).take(i as int),
                config.use_document_root,
            ) == Some(files_view(files@)),
        decreases pr_n - i,
    {
        proof {
            assert(args_view(pairs@).take(i + 1).drop_last() =~= args_view(pairs@).take(
                i as int,
            ));
            assert(args_view(pairs@).take(i + 1).last() == (pairs@[i as int].0@, pairs@[
                i as int].1@));
        }
        let tf = &pairs[i].0;
        let dn = &pairs[i].1;
        let fi: usize = match find_file(files, tf.as_str()) {
            None => {
                proof {
                    lemma_require_pass_fail_persists(
                        f2,
                        args_view(pairs@),
                        config.use_document_root,
                        i + 1,
                    );
                }
                return Err(CompileError::UnresolvedTarget(tf.clone()));
            },
            Some(x) => x,
        };
        proof {
            assert(files_view(files@)[fi as int] == files@[fi as int]@);
        }
        let flen = files[fi].text.as_str().unicode_len();
        if flen < 5 {
            proof {
                lemma_require_pass_fail_persists(
                    f2,
                    args_view(pairs@),
                    config.use_document_root,
                    i + 1,
                );
            }
            return Err(CompileError::UnresolvedTarget(tf.clone()));
        }
        let mut rs = "\nrequire_once ".to_owned();
        if config.use_document_root {
            rs.append("$_SERVER['DOCUMENT_ROOT'] . ");
        } else {
            proof {
                assert("\nrequire_once "@ + Seq::<char>::empty() =~= "\nrequire_once "@);
            }
        }
        rs.append("\"/");
        rs.append(dn.as_str());
        rs.append("\";\n");
        proof {
            assert(rs@ =~= spec_require_stmt(dn@, config.use_document_root));
        }
        let ntext = splice_text(&files[fi].text, 5, 5, rs.as_str());
        replace_file_text(files, fi, ntext);
        i += 1;
    }
    proof {
        assert(args_view(pairs@).take(pr_n as int) =~= args_view(pairs@));
    }
    let mixin_count = injections.len();
    Ok((mixin_count, file_count))
}

/// Appends the applied mixin's record for the import pass.
fn record_injection(injections: &mut Vec<Injection>, m: &Mixin, fpath: &String)
    ensures
        injs_view(final(injections)@) == injs_view(old(injections)@).push(
            (InjectionModel {
                donor: m@.path,
                target_file: fpath@,
                namespace: m@.namespace,
                name: m@.name,
            }),
        ),
{
    let inj = Injection {
        donor: m.path.clone(),
        target_file: fpath.clone(),
        namespace: m.namespace.clone(),
        name: m.name.clone(),
    };
    proof {
        assert(injs_view(injections@.push(inj)) =~= injs_view(injections@).push(inj@));
    }
    injections.push(inj);
}

/// Splices the mixin's call statement in as a new line directly after line
/// `n128` of the file at position `fi`, shifting later mapping coordinates
/// of that file one line down; fails when the line or a shifted coordinate
/// is out of range.
fn apply_line_insert(
    files: &mut Vec<FileEntry>,
    source_mappings: &mut Vec<SourceMapping>,
    fi: usize,
    fpath: &String,
    n128: i128,
    m: &Mixin,
) -> (r: Result<(), CompileError>)
    requires
        fi < old(files)@.len(),
        -0x1_0000_0000_0000_0000_0000i128 <= n128 <= 0x1_0000_0000_0000_0000_0000i128,
    ensures
        match r {
            Ok(_) => spec_apply_line_insert(
                (SpliceState {
                    files: files_view(old(files)@),
                    maps: entries_view(old(source_mappings)@),
                    injections: Seq::empty(),
                }),
                fi as int,
                fpath@,
                n128 as int,
                spec_mixin_call_string(m@),
            ) == (SpliceOutcome::Continue {
                st: SpliceState {
                    files: files_view(final(files)@),
                    maps: entries_view(final(source_mappings)@),
                    injections: Seq::<InjectionModel>::empty(),
                },
            }),
            Err(e) => spec_apply_line_insert(
                (SpliceState {
                    files: files_view(old(files)@),
                    maps: entries_view(old(source_mappings)@),
                    injections: Seq::empty(),
                }),
                fi as int,
                fpath@,
                n128 as int,
                spec_mixin_call_string(m@),
            ) is OutOfRange && e is LineOutOfRange,
        },
{
    proof {
        assert(files_view(files@)[fi as int] == files@[fi as int]@);
    }
    let cnt = count_newlines(files[fi].text.as_str());
    if !(1 <= n128 && n128 - 1 <= cnt as i128 && n128 + 1 <= usize::MAX as i128) {
        return Err(CompileError::LineOutOfRange(m.target.clone()));
    }
    let nu: usize = n128 as usize;
    let stmt = create_mixin_call_string(m);
    let mv = move_mappings(source_mappings, fpath.as_str(), nu, 1);
    match mv {
        Err(e) => {
            return Err(e);
        },
        Ok(_) => {},
    }
    let slen = stmt.as_str().unicode_len();
    let ntext: String;
    if nu <= cnt {
        // the call text, closed by a newline, at the start of the next line
        let p = get_index_of_line(files[fi].text.as_str(), nu + 1);
        let mut ins = stmt.as_str().substring_char(1, slen).to_owned();
        ins.append("\n");
        proof {
            assert(ins@ =~= spec_mixin_call_string(m@).skip(1) + "\n"@);
        }
        ntext = splice_text(&files[fi].text, p, p, ins.as_str());
        proof {
            let text = files@[fi as int].text@;
            assert(ntext@ =~= text.take(p as int) + spec_mixin_call_string(m@).skip(1) + "\n"@
                + text.skip(p as int));
        }
    } else {
        // after the final, unterminated line the statement is appended
        let tlen = files[fi].text.as_str().unicode_len();
        ntext = splice_text(&files[fi].text, tlen, tlen, stmt.as_str());
        proof {
            assert(ntext@ =~= files@[fi as int].text@ + spec_mixin_call_string(m@));
        }
    }
    replace_file_text(files, fi, ntext);
    Ok(())
}

/// Removes lines `a128` through `b128` of the file at position `fi`,
/// inserts the mixin's call statement at the range's start, and shifts
/// later mapping coordinates by the net line delta; fails when the range or
/// a shifted coordinate is out of range.
fn apply_slice(
    files: &mut Vec<FileEntry>,
    source_mappings: &mut Vec<SourceMapping>,
    fi: usize,
    fpath: &String,
    a128: i128,
    b128: i128,
    m: &Mixin,
) -> (r: Result<(), CompileError>)
    requires
        fi < old(files)@.len(),
        -0x1_0000_0000_0000_0000_0000i128 <= a128 <= 0x1_0000_0000_0000_0000_0000i128,
        -0x1_0000_0000_0000_0000_0000i128 <= b128 <= 0x1_0000_0000_0000_0000_0000i128,
    ensures
        match r {
            Ok(_) => spec_apply_slice(
                (SpliceState {
                    files: files_view(old(files)@),
                    maps: entries_view(old(source_mappings)@),
                    injections: Seq::empty(),
                }),
                fi as int,
                fpath@,
                a128 as int,
                b128 as int,
                spec_mixin_call_string(m@),
            ) == (SpliceOutcome::Continue {
                st: SpliceState {
                    files: files_view(final(files)@),
                    maps: entries_view(final(source_mappings)@),
                    injections: Seq::<InjectionModel>::empty(),
                },
            }),
            Err(e) => spec_apply_slice(
                (SpliceState {
                    files: files_view(old(files)@),
                    maps: entries_view(old(source_mappings)@),
                    injections: Seq::empty(),
                }),
                fi as int,
                fpath@,
                a128 as int,
                b128 as int,
                spec_mixin_call_string(m@),
            ) is OutOfRange && e is LineOutOfRange,
        },
{
    proof {
        assert(files_view(files@)[fi as int] == files@[fi as int]@);
    }
    let cnt = count_newlines(files[fi].text.as_str());
    let line_a_ok = 1 <= a128 && a128 - 1 <= cnt as i128 && a128 + 1 <= usize::MAX as i128;
    let line_b_ok = 1 <= b128 && b128 - 1 <= cnt as i128 && b128 + 1 <= usize::MAX as i128;
    if !(line_a_ok && line_b_ok && a128 <= b128) {
        return Err(CompileError::LineOutOfRange(m.target.clone()));
    }
    let a: usize = a128 as usize;
    let b: usize = b128 as usize;
    let tlen = files[fi].text.as_str().unicode_len();
    let p1 = get_index_of_line(files[fi].text.as_str(), a);
    let p2: usize = if b <= cnt {
        get_index_of_line(files[fi].text.as_str(), b + 1)
    } else {
        tlen
    };
    if p1 > p2 {
        return Err(CompileError::LineOutOfRange(m.target.clone()));
    }
    let mv = move_mappings(
        source_mappings,
        fpath.as_str(),
        b,
        a128 - b128,
    );
    match mv {
        Err(e) => {
            return Err(e);
        },
        Ok(_) => {},
    }
    let stmt = create_mixin_call_string(m);
    let slen = stmt.as_str().unicode_len();
    let mut body = stmt.as_str().substring_char(1, slen).to_owned();
    body.append("\n");
    proof {
        assert(body@ =~= spec_mixin_call_string(m@).skip(1) + "\n"@);
    }
    let ntext = splice_text(&files[fi].text, p1, p2, body.as_str());
    replace_file_text(files, fi, ntext);
    Ok(())
}

/// The shifted coordinate, when it stays representable.
fn shift_coord(x: usize, start: usize, amount: i128) -> (r: Option<usize>)
    requires
        -(usize::MAX as i128) - 1 <= amount <= usize::MAX as i128 + 1,
    ensures
        match r {
            Some(v) => v as int == spec_shift(x as int, start as int, amount as int) && 0
                <= spec_shift(x as int, start as int, amount as int) <= usize::MAX,
            None => !(0 <= spec_shift(x as int, start as int, amount as int) <= usize::MAX),
        },
{
    if x <= start {
        return Some(x);
    }
    let nx: i128 = x as i128 + amount;
    if nx < 0 || nx > usize::MAX as i128 {
        return None;
    }
    Some(nx as usize)
}

} // verus!
