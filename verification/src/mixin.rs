//! The edit request model: the closed set of edit kinds, the quote-aware
//! parser for a directive's `key=value` argument list, and the `Mixin`
//! record that carries one edit from the interpreter to the splice engine.

use vstd::prelude::*;
use vstd::string::*;

use crate::util::first_pos;
use crate::util::lemma_first_pos;
use crate::util::spec_first_pos;
use crate::util::str_eq;
use crate::util::strs_view;

verus! {

// ---------------------------------------------------------------------------
// decimal integer parsing
// ---------------------------------------------------------------------------

pub open spec fn spec_is_digit(c: char) -> bool {
    48 <= c as int && c as int <= 57
}

/// Value of a digit string, most significant digit first.
pub open spec fn spec_digits_val(s: Seq<char>) -> int
    decreases s.len(),
{
    if s.len() == 0 {
        0
    } else {
        spec_digits_val(s.drop_last()) * 10 + (s.last() as int - 48)
    }
}

pub open spec fn spec_all_digits(s: Seq<char>) -> bool {
    forall|i: int| 0 <= i < s.len() ==> spec_is_digit(s[i])
}

pub open spec fn spec_sign_negative(s: Seq<char>) -> bool {
    s.len() > 0 && s[0] == '-'
}

pub open spec fn spec_digits_part(s: Seq<char>) -> Seq<char> {
    if s.len() > 0 && (s[0] == '+' || s[0] == '-') {
        s.drop_first()
    } else {
        s
    }
}

/// The value denoted by an optionally signed decimal numeral, or nothing when
/// the text is not such a numeral or its value does not fit in 32 bits.
pub open spec fn spec_parse_i32(s: Seq<char>) -> Option<int> {
    let ds = spec_digits_part(s);
    if ds.len() == 0 || !spec_all_digits(ds) {
        None
    } else {
        let v = if spec_sign_negative(s) {
            -spec_digits_val(ds)
        } else {
            spec_digits_val(ds)
        };
        if -0x8000_0000 <= v && v <= 0x7fff_ffff {
            Some(v)
        } else {
            None
        }
    }
}

pub proof fn lemma_digits_val_nonneg(s: Seq<char>)
    requires
        spec_all_digits(s),
    ensures
        spec_digits_val(s) >= 0,
    decreases s.len(),
{
    if s.len() > 0 {
        assert(spec_all_digits(s.drop_last()));
        lemma_digits_val_nonneg(s.drop_last());
    }
}

pub fn parse_i32(s: &str) -> (r: Option<i32>)
    ensures
        match r {
            Some(v) => spec_parse_i32(s@) == Some(v as int),
            None => spec_parse_i32(s@) is None,
        },
{
    let sl = s.unicode_len();
    if sl == 0 {
        return None;
    }
    let c0 = s.get_char(0);
    let neg = c0 == '-';
    let mut i: usize = if c0 == '-' || c0 == '+' {
        1
    } else {
        0
    };
    let ghost start: int = i as int;
    proof {
        if start == 1 {
            assert(s@.drop_first() =~= s@.subrange(1, sl as int));
        }
        assert(spec_digits_part(s@) =~= s@.subrange(start, sl as int));
    }
    if i == sl {
        return None;
    }
    let mut val: i64 = 0;
    let mut over: bool = false;
    proof {
        assert(s@.subrange(start, start) =~= Seq::<char>::empty());
    }
    while i < sl
        invariant
            start <= i as int <= sl,
            sl == s@.len(),
            0 <= start <= 1,
            neg ==> (start == 1 && s@[0] == '-'),
            !neg && start == 1 ==> s@[0] == '+',
            spec_all_digits(s@.subrange(start, i as int)),
            !over ==> 0 <= val && val == spec_digits_val(s@.subrange(start, i as int)) && val
                <= 0x8000_0000i64,
            over ==> spec_digits_val(s@.subrange(start, i as int)) > 0x8000_0000,
            spec_digits_part(s@) == s@.subrange(start, sl as int),
        decreases sl - i,
    {
        let c = s.get_char(i);
        let u = c as u32;
        proof {
            assert(s@.subrange(start, i + 1).drop_last() =~= s@.subrange(start, i as int));
            assert(s@.subrange(start, i + 1).last() == s@[i as int]);
        }
        if u < 48 || u > 57 {
            proof {
                assert(s@.subrange(start, sl as int)[i as int - start] == s@[i as int]);
                assert(!spec_is_digit(s@[i as int]));
            }
            return None;
        }
        let d: i64 = (u - 48) as i64;
        if !over {
            val = val * 10 + d;
            if val > 0x8000_0000i64 {
                over = true;
            }
        } else {
            proof {
                lemma_digits_val_nonneg(s@.subrange(start, i as int));
            }
        }
        i += 1;
    }
    proof {
        assert(s@.subrange(start, sl as int) == spec_digits_part(s@));
    }
    if over {
        return None;
    }
    if neg {
        proof {
            assert(spec_sign_negative(s@));
        }
        Some((-val) as i32)
    } else {
        if val > 0x7fff_ffffi64 {
            return None;
        }
        Some(val as i32)
    }
}

// ---------------------------------------------------------------------------
// directive argument lists
// ---------------------------------------------------------------------------

/// Views of a sequence of owned key/value pairs.
pub open spec fn args_view(v: Seq<(String, String)>) -> Seq<(Seq<char>, Seq<char>)> {
    v.map_values(|p: (String, String)| (p.0@, p.1@))
}

/// The parsed `key=value` pairs of one directive, in the order written.
pub struct MixinArgs {
    pub entries: Vec<(String, String)>,
}

impl View for MixinArgs {
    type V = Seq<(Seq<char>, Seq<char>)>;

    open spec fn view(&self) -> Seq<(Seq<char>, Seq<char>)> {
        args_view(self.entries@)
    }
}

/// Value bound to `key`; when a key was written twice the later pair wins.
pub open spec fn spec_arg_get(pairs: Seq<(Seq<char>, Seq<char>)>, key: Seq<char>) -> Option<
    Seq<char>,
>
    decreases pairs.len(),
{
    if pairs.len() == 0 {
        None
    } else if pairs.last().0 == key {
        Some(pairs.last().1)
    } else {
        spec_arg_get(pairs.drop_last(), key)
    }
}

impl MixinArgs {
    pub fn get(&self, key: &str) -> (r: Option<String>)
        ensures
            match r {
                Some(v) => spec_arg_get(self@, key@) == Some(v@),
                None => spec_arg_get(self@, key@) is None,
            },
    {
        let n = self.entries.len();
        let mut i: usize = n;
        proof {
            assert(self.entries@.take(n as int) =~= self.entries@);
        }
        while i > 0
            invariant
                i <= n,
                n == self.entries@.len(),
                spec_arg_get(self@, key@) == spec_arg_get(
                    args_view(self.entries@.take(i as int)),
                    key@,
                ),
            decreases i,
        {
            i -= 1;
            proof {
                let prefix = args_view(self.entries@.take(i + 1));
                assert(prefix.last() == (self.entries@[i as int].0@, self.entries@[i as int].1@));
                assert(prefix.drop_last() =~= args_view(self.entries@.take(i as int)));
            }
            let pair = &self.entries[i];
            if str_eq(pair.0.as_str(), key) {
                return Some(pair.1.clone());
            }
        }
        proof {
            assert(args_view(self.entries@.take(0)) =~= Seq::<(Seq<char>, Seq<char>)>::empty());
        }
        None
    }
}

/// Splits an accumulated `key=value` buffer at its first `=`; the value runs
/// to the next `=` or the end of the buffer.  Nothing when the buffer holds
/// no `=` at all.
pub open spec fn spec_split_pair(buf: Seq<char>) -> Option<(Seq<char>, Seq<char>)> {
    let p = spec_first_pos(buf, '=');
    if p >= buf.len() {
        None
    } else {
        let key = buf.take(p);
        let rest = buf.skip(p + 1);
        let q = spec_first_pos(rest, '=');
        Some((key, rest.take(q)))
    }
}

fn split_pair(buf: &str) -> (r: Option<(String, String)>)
    ensures
        match r {
            Some(kv) => spec_split_pair(buf@) == Some((kv.0@, kv.1@)),
            None => spec_split_pair(buf@) is None,
        },
{
    proof {
        lemma_first_pos(buf@, '=');
    }
    let bl = buf.unicode_len();
    let p = first_pos(buf, '=');
    if p >= bl {
        return None;
    }
    let key = buf.substring_char(0, p).to_owned();
    let rest = buf.substring_char(p + 1, bl);
    proof {
        assert(rest@ =~= buf@.skip(p + 1));
        lemma_first_pos(rest@, '=');
    }
    let q = first_pos(rest, '=');
    let value = rest.substring_char(0, q).to_owned();
    Some((key, value))
}

/// State of the quote-aware scan over a directive's character stream.
pub ghost struct ArgScan {
    pub in_args: bool,
    pub in_string: bool,
    pub buf: Seq<char>,
    pub pairs: Seq<(Seq<char>, Seq<char>)>,
    pub failed: bool,
}

pub open spec fn arg_scan_init() -> ArgScan {
    (ArgScan {
        in_args: false,
        in_string: false,
        buf: Seq::empty(),
        pairs: Seq::empty(),
        failed: false,
    })
}

/// One character of the argument scan.  Outside the parenthesized list every
/// character is skipped; inside it, characters accumulate into a buffer that
/// is split into a pair at each top-level `,` or `)`; quotes toggle string
/// state, and separators inside a string are ordinary characters.
pub open spec fn arg_scan_step(st: ArgScan, c: char) -> ArgScan {
    if st.failed {
        st
    } else {
        let entered = st.in_args || c == '(';
        if !entered {
            st
        } else {
            let in_str = if c == '"' {
                !st.in_string
            } else {
                st.in_string
            };
            let buf = if in_str || (c != ' ' && c != '(' && c != ')' && c != ',') {
                st.buf.push(c)
            } else {
                st.buf
            };
            if !in_str && (c == ',' || c == ')') {
                match spec_split_pair(buf) {
                    None => (ArgScan {
                        in_args: entered,
                        in_string: in_str,
                        buf: buf,
                        pairs: st.pairs,
                        failed: true,
                    }),
                    Some(kv) => (ArgScan {
                        in_args: c != ')',
                        in_string: in_str,
                        buf: Seq::empty(),
                        pairs: st.pairs.push(kv),
                        failed: false,
                    }),
                }
            } else {
                (ArgScan { in_args: entered, in_string: in_str, buf: buf, pairs: st.pairs, failed: false })
            }
        }
    }
}

pub open spec fn arg_scan_from(s: Seq<char>) -> ArgScan
    decreases s.len(),
{
    if s.len() == 0 {
        arg_scan_init()
    } else {
        arg_scan_step(arg_scan_from(s.drop_last()), s.last())
    }
}

/// The pairs of a well-formed argument list; nothing when a quote or
/// parenthesis is left open or a buffer held no `=`.
pub open spec fn spec_extract_arguments(s: Seq<char>) -> Option<Seq<(Seq<char>, Seq<char>)>> {
    let st = arg_scan_from(s);
    if st.failed || st.in_string || st.in_args {
        None
    } else {
        Some(st.pairs)
    }
}

pub proof fn lemma_arg_scan_failed_persists(s: Seq<char>, i: int)
    requires
        0 <= i <= s.len(),
        arg_scan_from(s.take(i)).failed,
    ensures
        arg_scan_from(s).failed,
    decreases s.len() - i,
{
    if i < s.len() {
        assert(s.take(i + 1).drop_last() =~= s.take(i));
        assert(s.take(i + 1).last() == s[i]);
        lemma_arg_scan_failed_persists(s, i + 1);
    } else {
        assert(s.take(i) =~= s);
    }
}

// ---------------------------------------------------------------------------
// edit kinds
// ---------------------------------------------------------------------------

/// Mathematical form of an edit kind.
pub ghost enum KindModel {
    Absent,
    Head { offset: int },
    Slice { from: int, to: int },
    Prepend { search: Seq<char>, offset: int },
    Replace { search: Seq<char>, offset: int },
    Append { search: Seq<char>, offset: int },
    Tail { offset: int },
}

impl KindModel {
    /// Application order: range edits first, search-anchored edits next,
    /// boundary edits last; unrecognized directives sort after everything
    /// and are filtered out before application.
    pub open spec fn rank(self) -> int {
        match self {
            KindModel::Slice { .. } => 0,
            KindModel::Prepend { .. } => 1,
            KindModel::Replace { .. } => 1,
            KindModel::Append { .. } => 1,
            KindModel::Head { .. } => 2,
            KindModel::Tail { .. } => 2,
            KindModel::Absent => 3,
        }
    }
}

#[derive(Debug, Clone, PartialEq, Eq)]
pub struct MixinNone;

#[derive(Debug, Clone, PartialEq, Eq)]
pub struct MixinHead {
    pub offset: i32,
}

#[derive(Debug, Clone, PartialEq, Eq)]
pub struct MixinSlice {
    pub from: i32,
    pub to: i32,
}

#[derive(Debug, Clone, PartialEq, Eq)]
pub struct MixinPrepend {
    pub search: String,
    pub offset: i32,
}

#[derive(Debug, Clone, PartialEq, Eq)]
pub struct MixinReplace {
    pub search: String,
    pub offset: i32,
}

#[derive(Debug, Clone, PartialEq, Eq)]
pub struct MixinAppend {
    pub search: String,
    pub offset: i32,
}

#[derive(Debug, Clone, PartialEq, Eq)]
pub struct MixinTail {
    pub offset: i32,
}

/// The closed set of edit variants.  `Absent` denotes "no recognized
/// directive" and is filtered out before application.
#[derive(Debug, Clone)]
pub enum MixinTypes {
    Absent,
    Head(MixinHead),
    Slice(MixinSlice),
    Prepend(MixinPrepend),
    Replace(MixinReplace),
    Append(MixinAppend),
    Tail(MixinTail),
}

impl View for MixinTypes {
    type V = KindModel;

    open spec fn view(&self) -> KindModel {
        match self {
            MixinTypes::Absent => KindModel::Absent,
            MixinTypes::Head(x) => (KindModel::Head { offset: x.offset as int }),
            MixinTypes::Slice(x) => (KindModel::Slice { from: x.from as int, to: x.to as int }),
            MixinTypes::Prepend(x) => (KindModel::Prepend {
                search: x.search@,
                offset: x.offset as int,
            }),
            MixinTypes::Replace(x) => (KindModel::Replace {
                search: x.search@,
                offset: x.offset as int,
            }),
            MixinTypes::Append(x) => (KindModel::Append {
                search: x.search@,
                offset: x.offset as int,
            }),
            MixinTypes::Tail(x) => (KindModel::Tail { offset: x.offset as int }),
        }
    }
}

impl MixinTypes {
    pub fn rank(&self) -> (r: u8)
        ensures
            r as int == self@.rank(),
    {
        match self {
            MixinTypes::Slice(_) => 0,
            MixinTypes::Prepend(_) => 1,
            MixinTypes::Replace(_) => 1,
            MixinTypes::Append(_) => 1,
            MixinTypes::Head(_) => 2,
            MixinTypes::Tail(_) => 2,
            MixinTypes::Absent => 3,
        }
    }

    pub fn is_absent(&self) -> (r: bool)
        ensures
            r == (self@ is Absent),
    {
        match self {
            MixinTypes::Absent => true,
            _ => false,
        }
    }
}

/// The `offset` parameter of a directive: absent means zero, unparseable
/// means the directive is malformed.
pub open spec fn spec_offset_val(args: Seq<(Seq<char>, Seq<char>)>) -> Option<int> {
    match spec_arg_get(args, "offset"@) {
        None => Some(0int),
        Some(v) => spec_parse_i32(v),
    }
}

/// The `from` and `to` parameters of a range directive; both are required.
pub open spec fn spec_slice_vals(args: Seq<(Seq<char>, Seq<char>)>) -> Option<(int, int)> {
    match spec_arg_get(args, "from"@) {
        None => None,
        Some(f) => match spec_parse_i32(f) {
            None => None,
            Some(fv) => match spec_arg_get(args, "to"@) {
                None => None,
                Some(t) => match spec_parse_i32(t) {
                    None => None,
                    Some(tv) => Some((fv, tv)),
                },
            },
        },
    }
}

fn get_offset_val(args: &MixinArgs) -> (r: Option<i32>)
    ensures
        match r {
            Some(v) => spec_offset_val(args@) == Some(v as int),
            None => spec_offset_val(args@) is None,
        },
{
    let v = args.get("offset");
    match v {
        None => Some(0),
        Some(txt) => parse_i32(txt.as_str()),
    }
}

/// An edit kind fills its parameters from a directive's argument list; each
/// implementor states exactly which arguments it reads and what a successful
/// fill leaves in its fields.
pub trait MixinType: Sized {
    spec fn filled(old_self: Self, new_self: Self, args: Seq<(Seq<char>, Seq<char>)>, ok: bool) -> bool;

    fn fill_params(&mut self, args: &MixinArgs) -> (ok: bool)
        ensures
            Self::filled(*old(self), *final(self), args@, ok),
    ;
}

impl MixinType for MixinNone {
    open spec fn filled(old_self: Self, new_self: Self, args: Seq<(Seq<char>, Seq<char>)>, ok: bool) -> bool {
        ok
    }

    fn fill_params(&mut self, args: &MixinArgs) -> (ok: bool) {
        true
    }
}

impl MixinType for MixinHead {
    open spec fn filled(old_self: Self, new_self: Self, args: Seq<(Seq<char>, Seq<char>)>, ok: bool) -> bool {
        match spec_offset_val(args) {
            Some(o) => ok && new_self.offset as int == o,
            None => !ok,
        }
    }

    fn fill_params(&mut self, args: &MixinArgs) -> (ok: bool) {
        let v = get_offset_val(args);
        match v {
            Some(x) => {
                self.offset = x;
                true
            },
            None => false,
        }
    }
}

impl MixinType for MixinTail {
    open spec fn filled(old_self: Self, new_self: Self, args: Seq<(Seq<char>, Seq<char>)>, ok: bool) -> bool {
        match spec_offset_val(args) {
            Some(o) => ok && new_self.offset as int == o,
            None => !ok,
        }
    }

    fn fill_params(&mut self, args: &MixinArgs) -> (ok: bool) {
        let v = get_offset_val(args);
        match v {
            Some(x) => {
                self.offset = x;
                true
            },
            None => false,
        }
    }
}

impl MixinType for MixinSlice {
    open spec fn filled(old_self: Self, new_self: Self, args: Seq<(Seq<char>, Seq<char>)>, ok: bool) -> bool {
        match spec_slice_vals(args) {
            Some(ft) => ok && new_self.from as int == ft.0 && new_self.to as int == ft.1,
            None => !ok,
        }
    }

    fn fill_params(&mut self, args: &MixinArgs) -> (ok: bool) {
        let f = args.get("from");
        match f {
            None => false,
            Some(ftxt) => {
                let fv = parse_i32(ftxt.as_str());
                match fv {
                    None => false,
                    Some(fx) => {
                        let t = args.get("to");
                        match t {
                            None => false,
                            Some(ttxt) => {
                                let tv = parse_i32(ttxt.as_str());
                                match tv {
                                    None => false,
                                    Some(tx) => {
                                        self.from = fx;
                                        self.to = tx;
                                        true
                                    },
                                }
                            },
                        }
                    },
                }
            },
        }
    }
}

impl MixinType for MixinPrepend {
    open spec fn filled(old_self: Self, new_self: Self, args: Seq<(Seq<char>, Seq<char>)>, ok: bool) -> bool {
        match spec_arg_get(args, "search"@) {
            None => !ok,
            Some(sv) => match spec_offset_val(args) {
                None => !ok,
                Some(o) => ok && new_self.search@ == sv && new_self.offset as int == o,
            },
        }
    }

    fn fill_params(&mut self, args: &MixinArgs) -> (ok: bool) {
        let s = args.get("search");
        match s {
            None => false,
            Some(sv) => {
                let v = get_offset_val(args);
                match v {
                    None => false,
                    Some(x) => {
                        self.search = sv;
                        self.offset = x;
                        true
                    },
                }
            },
        }
    }
}

impl MixinType for MixinReplace {
    open spec fn filled(old_self: Self, new_self: Self, args: Seq<(Seq<char>, Seq<char>)>, ok: bool) -> bool {
        match spec_arg_get(args, "search"@) {
            None => !ok,
            Some(sv) => match spec_offset_val(args) {
                None => !ok,
                Some(o) => ok && new_self.search@ == sv && new_self.offset as int == o,
            },
        }
    }

    fn fill_params(&mut self, args: &MixinArgs) -> (ok: bool) {
        let s = args.get("search");
        match s {
            None => false,
            Some(sv) => {
                let v = get_offset_val(args);
                match v {
                    None => false,
                    Some(x) => {
                        self.search = sv;
                        self.offset = x;
                        true
                    },
                }
            },
        }
    }
}

impl MixinType for MixinAppend {
    open spec fn filled(old_self: Self, new_self: Self, args: Seq<(Seq<char>, Seq<char>)>, ok: bool) -> bool {
        match spec_arg_get(args, "search"@) {
            None => !ok,
            Some(sv) => match spec_offset_val(args) {
                None => !ok,
                Some(o) => ok && new_self.search@ == sv && new_self.offset as int == o,
            },
        }
    }

    fn fill_params(&mut self, args: &MixinArgs) -> (ok: bool) {
        let s = args.get("search");
        match s {
            None => false,
            Some(sv) => {
                let v = get_offset_val(args);
                match v {
                    None => false,
                    Some(x) => {
                        self.search = sv;
                        self.offset = x;
                        true
                    },
                }
            },
        }
    }
}

/// The kind denoted by an `at` value together with its parameters; nothing
/// when a required parameter is missing or unparseable, `Absent` when the
/// `at` value itself is unrecognized.
pub open spec fn spec_kind_of(at: Seq<char>, args: Seq<(Seq<char>, Seq<char>)>) -> Option<
    KindModel,
> {
    if at == "HEAD"@ {
        match spec_offset_val(args) {
            Some(o) => Some(KindModel::Head { offset: o }),
            None => None,
        }
    } else if at == "SLICE"@ {
        match spec_slice_vals(args) {
            Some(ft) => Some(KindModel::Slice { from: ft.0, to: ft.1 }),
            None => None,
        }
    } else if at == "PREPEND"@ {
        match spec_arg_get(args, "search"@) {
            None => None,
            Some(sv) => match spec_offset_val(args) {
                None => None,
                Some(o) => Some(KindModel::Prepend { search: sv, offset: o }),
            },
        }
    } else if at == "REPLACE"@ {
        match spec_arg_get(args, "search"@) {
            None => None,
            Some(sv) => match spec_offset_val(args) {
                None => None,
                Some(o) => Some(KindModel::Replace { search: sv, offset: o }),
            },
        }
    } else if at == "APPEND"@ {
        match spec_arg_get(args, "search"@) {
            None => None,
            Some(sv) => match spec_offset_val(args) {
                None => None,
                Some(o) => Some(KindModel::Append { search: sv, offset: o }),
            },
        }
    } else if at == "TAIL"@ {
        match spec_offset_val(args) {
            Some(o) => Some(KindModel::Tail { offset: o }),
            None => None,
        }
    } else {
        Some(KindModel::Absent)
    }
}

impl MixinTypes {
    /// Resolves an `at` value to its edit kind with parameters filled from
    /// the argument list; nothing when a required parameter is missing or
    /// malformed.
    pub fn get(at: &str, args: &MixinArgs) -> (r: Option<MixinTypes>)
        ensures
            match r {
                Some(k) => spec_kind_of(at@, args@) == Some(k@),
                None => spec_kind_of(at@, args@) is None,
            },
    {
        if str_eq(at, "HEAD") {
            let mut m = MixinHead { offset: 0 };
            if m.fill_params(args) {
                Some(MixinTypes::Head(m))
            } else {
                None
            }
        } else if str_eq(at, "SLICE") {
            let mut m = MixinSlice { from: 0, to: 0 };
            if m.fill_params(args) {
                Some(MixinTypes::Slice(m))
            } else {
                None
            }
        } else if str_eq(at, "PREPEND") {
            let mut m = MixinPrepend { search: String::new(), offset: 0 };
            if m.fill_params(args) {
                Some(MixinTypes::Prepend(m))
            } else {
                None
            }
        } else if str_eq(at, "REPLACE") {
            let mut m = MixinReplace { search: String::new(), offset: 0 };
            if m.fill_params(args) {
                Some(MixinTypes::Replace(m))
            } else {
                None
            }
        } else if str_eq(at, "APPEND") {
            let mut m = MixinAppend { search: String::new(), offset: 0 };
            if m.fill_params(args) {
                Some(MixinTypes::Append(m))
            } else {
                None
            }
        } else if str_eq(at, "TAIL") {
            let mut m = MixinTail { offset: 0 };
            if m.fill_params(args) {
                Some(MixinTypes::Tail(m))
            } else {
                None
            }
        } else {
            Some(MixinTypes::Absent)
        }
    }
}

// ---------------------------------------------------------------------------
// the mixin record
// ---------------------------------------------------------------------------

/// Mathematical form of a mixin.
pub ghost struct MixinModel {
    pub name: Seq<char>,
    pub namespace: Seq<char>,
    pub at: KindModel,
    pub args: Seq<Seq<char>>,
    pub target: Seq<char>,
    pub path: Seq<char>,
}

/// One structured edit request: a donor function (`name`, `namespace`,
/// `args`, `path`) and where and how to splice a call to it (`target`, `at`).
#[derive(Debug, Clone)]
pub struct Mixin {
    pub name: String,
    pub namespace: String,
    pub at: MixinTypes,
    pub args: Vec<String>,
    pub target: String,
    pub path: String,
}

impl View for Mixin {
    type V = MixinModel;

    open spec fn view(&self) -> MixinModel {
        (MixinModel {
            name: self.name@,
            namespace: self.namespace@,
            at: self.at@,
            args: strs_view(self.args@),
            target: self.target@,
            path: self.path@,
        })
    }
}

pub open spec fn spec_empty_mixin() -> MixinModel {
    (MixinModel {
        name: Seq::empty(),
        namespace: Seq::empty(),
        at: KindModel::Absent,
        args: Seq::empty(),
        target: Seq::empty(),
        path: Seq::empty(),
    })
}

pub open spec fn spec_strip_quotes(s: Seq<char>) -> Seq<char> {
    s.filter(|c: char| c != '"')
}

/// `s` with every double-quote character removed.
pub fn strip_quotes(s: &str) -> (r: String)
    ensures
        r@ == spec_strip_quotes(s@),
{
    let sl = s.unicode_len();
    let mut r = String::new();
    let mut i: usize = 0;
    proof {
        reveal_with_fuel(Seq::filter, 2);
        assert(s@.take(0) =~= Seq::<char>::empty());
        assert(Seq::<char>::empty().filter(|c: char| c != '"') =~= Seq::<char>::empty());
    }
    while i < sl
        invariant
            i <= sl,
            sl == s@.len(),
            r@ == s@.take(i as int).filter(|c: char| c != '"'),
        decreases sl - i,
    {
        let c = s.get_char(i);
        proof {
            reveal_with_fuel(Seq::filter, 2);
            let pred = |x: char| x != '"';
            assert(s@.take(i + 1) =~= s@.take(i as int) + seq![s@[i as int]]);
            Seq::<char>::filter_distributes_over_add(s@.take(i as int), seq![s@[i as int]], pred);
            assert(seq![s@[i as int]].drop_last() =~= Seq::<char>::empty());
            if c != '"' {
                assert(seq![s@[i as int]].filter(pred) =~= seq![s@[i as int]]);
            } else {
                assert(seq![s@[i as int]].filter(pred) =~= Seq::<char>::empty());
            }
        }
        if c != '"' {
            r.push(c);
            proof {
                assert(s@.take(i as int).filter(|x: char| x != '"') + seq![s@[i as int]] =~= s@
                    .take(i as int).filter(|x: char| x != '"').push(s@[i as int]));
            }
        } else {
            proof {
                assert(s@.take(i as int).filter(|x: char| x != '"') + Seq::<char>::empty() =~= s@
                    .take(i as int).filter(|x: char| x != '"'));
            }
        }
        i += 1;
    }
    proof {
        assert(s@.take(sl as int) =~= s@);
    }
    r
}

/// What a directive line denotes: a blank mixin carrying only the resolved
/// edit kind and the quote-stripped target locator.  Nothing when the
/// argument list is unbalanced, `at` or `target` is missing, or a kind
/// parameter is malformed.
pub open spec fn spec_extract_type(line: Seq<char>) -> Option<MixinModel> {
    match spec_extract_arguments(line) {
        None => None,
        Some(pairs) => match spec_arg_get(pairs, "at"@) {
            None => None,
            Some(atv) => match spec_arg_get(pairs, "target"@) {
                None => None,
                Some(tv) => match spec_kind_of(spec_strip_quotes(atv), pairs) {
                    None => None,
                    Some(k) => Some(
                        (MixinModel {
                            name: Seq::empty(),
                            namespace: Seq::empty(),
                            at: k,
                            args: Seq::empty(),
                            target: spec_strip_quotes(tv),
                            path: Seq::empty(),
                        }),
                    ),
                },
            },
        },
    }
}

impl Mixin {
    /// A mixin with empty fields and no edit kind.
    pub fn new() -> (r: Self)
        ensures
            r@ == spec_empty_mixin(),
    {
        let r = Mixin {
            name: String::new(),
            namespace: String::new(),
            at: MixinTypes::Absent,
            args: Vec::new(),
            target: String::new(),
            path: String::new(),
        };
        proof {
            assert(strs_view(r.args@) =~= Seq::<Seq<char>>::empty());
        }
        r
    }

    /// Parses the parenthesized `key=value` list of a directive line.
    /// Nothing when a quote or parenthesis is left open or a pair lacks `=`.
    pub fn extract_arguments(feed: &str) -> (r: Option<MixinArgs>)
        ensures
            match r {
                Some(a) => spec_extract_arguments(feed@) == Some(a@),
                None => spec_extract_arguments(feed@) is None,
            },
    {
        let sl = feed.unicode_len();
        let mut in_args: bool = false;
        let mut in_string: bool = false;
        let mut buf = String::new();
        let mut entries: Vec<(String, String)> = Vec::new();
        let mut i: usize = 0;
        proof {
            assert(feed@.take(0) =~= Seq::<char>::empty());
            assert(args_view(entries@) =~= Seq::<(Seq<char>, Seq<char>)>::empty());
        }
        while i < sl
            invariant
                i <= sl,
                sl == feed@.len(),
                !arg_scan_from(feed@.take(i as int)).failed,
                arg_scan_from(feed@.take(i as int)).in_args == in_args,
                arg_scan_from(feed@.take(i as int)).in_string == in_string,
                arg_scan_from(feed@.take(i as int)).buf == buf@,
                arg_scan_from(feed@.take(i as int)).pairs == args_view(entries@),
            decreases sl - i,
        {
            let c = feed.get_char(i);
            proof {
                assert(feed@.take(i + 1).drop_last() =~= feed@.take(i as int));
                assert(feed@.take(i + 1).last() == feed@[i as int]);
            }
            if c == '(' {
                in_args = true;
            }
            if in_args {
                if c == '"' {
                    in_string = !in_string;
                }
                if in_string || (c != ' ' && c != '(' && c != ')' && c != ',') {
                    buf.push(c);
                }
                if !in_string && (c == ',' || c == ')') {
                    let pair = split_pair(buf.as_str());
                    match pair {
                        None => {
                            proof {
                                lemma_arg_scan_failed_persists(feed@, i + 1);
                            }
                            return None;
                        },
                        Some(kv) => {
                            proof {
                                let prev = entries@;
                                assert(args_view(prev.push((kv.0, kv.1))) =~= args_view(
                                    prev,
                                ).push((kv.0@, kv.1@)));
                            }
                            entries.push(kv);
                            buf = String::new();
                            if c == ')' {
                                in_args = false;
                            }
                        },
                    }
                }
            }
            i += 1;
        }
        proof {
            assert(feed@.take(sl as int) =~= feed@);
        }
        if in_string || in_args {
            return None;
        }
        Some(MixinArgs { entries })
    }

    /// Turns one directive line into a mixin carrying its edit kind and
    /// target locator.  Nothing when the line is malformed.
    pub fn extract_type(line: &str) -> (r: Option<Mixin>)
        ensures
            match r {
                Some(m) => spec_extract_type(line@) == Some(m@),
                None => spec_extract_type(line@) is None,
            },
    {
        let args = Self::extract_arguments(line);
        match args {
            None => None,
            Some(a) => {
                let atv = a.get("at");
                match atv {
                    None => None,
                    Some(atv) => {
                        let tv = a.get("target");
                        match tv {
                            None => None,
                            Some(tv) => {
                                let at_clean = strip_quotes(atv.as_str());
                                let kind = MixinTypes::get(at_clean.as_str(), &a);
                                match kind {
                                    None => None,
                                    Some(k) => {
                                        let mut m = Mixin::new();
                                        m.at = k;
                                        m.target = strip_quotes(tv.as_str());
                                        Some(m)
                                    },
                                }
                            },
                        }
                    },
                }
            },
        }
    }
}

/// A fresh mixin equal in every field to `m`.
pub fn dup_mixin(m: &Mixin) -> (r: Mixin)
    ensures
        r@ == m@,
{
    let r = Mixin {
        name: m.name.clone(),
        namespace: m.namespace.clone(),
        at: dup_kind(&m.at),
        args: crate::util::clone_strings(&m.args),
        target: m.target.clone(),
        path: m.path.clone(),
    };
    r
}

pub(crate) fn dup_kind(k: &MixinTypes) -> (r: MixinTypes)
    ensures
        r@ == k@,
{
    match k {
        MixinTypes::Absent => MixinTypes::Absent,
        MixinTypes::Head(x) => MixinTypes::Head(MixinHead { offset: x.offset }),
        MixinTypes::Slice(x) => MixinTypes::Slice(MixinSlice { from: x.from, to: x.to }),
        MixinTypes::Prepend(x) => MixinTypes::Prepend(
            MixinPrepend { search: x.search.clone(), offset: x.offset },
        ),
        MixinTypes::Replace(x) => MixinTypes::Replace(
            MixinReplace { search: x.search.clone(), offset: x.offset },
        ),
        MixinTypes::Append(x) => MixinTypes::Append(
            MixinAppend { search: x.search.clone(), offset: x.offset },
        ),
        MixinTypes::Tail(x) => MixinTypes::Tail(MixinTail { offset: x.offset }),
    }
}

} // verus!
