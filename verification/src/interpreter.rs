//! The directive interpreter: scans injection-unit files for `#@Inject`
//! directives, attaches each pending directive to the next function
//! declaration, and keeps the accumulated mixins sorted in application
//! order.

use vstd::prelude::*;
use vstd::string::*;
use vstd::seq_lib::*;

use crate::error::CompileError;
use crate::mixin::dup_kind;
use crate::mixin::dup_mixin;
use crate::mixin::spec_empty_mixin;
use crate::mixin::spec_extract_type;
use crate::mixin::Mixin;
use crate::mixin::MixinModel;
use crate::php::spec_extract_function_params;
use crate::php::spec_extract_namespace;
use crate::php::spec_try_function_name;
use crate::php::extract_function_params;
use crate::php::extract_namespace;
use crate::php::try_function_name;
use crate::util::spec_lines;
use crate::util::spec_starts_with;
use crate::util::split_lines;
use crate::util::starts_with_str;
use crate::util::strs_view;

verus! {

/// Views of a sequence of mixins.
pub open spec fn mixins_view(s: Seq<Mixin>) -> Seq<MixinModel> {
    s.map_values(|m: Mixin| m@)
}

// ---------------------------------------------------------------------------
// application order
// ---------------------------------------------------------------------------

/// The mixins of `s` whose edit kind has the given rank, in their original
/// order.
pub open spec fn rank_filter(s: Seq<MixinModel>, k: int) -> Seq<MixinModel> {
    s.filter(|m: MixinModel| m.at.rank() == k)
}

/// The application order of a mixin list: range edits first, then
/// search-anchored edits, then boundary edits, then unrecognized directives;
/// mixins of equal rank keep their discovery order.
pub open spec fn spec_sort_mixins(s: Seq<MixinModel>) -> Seq<MixinModel> {
    rank_filter(s, 0) + rank_filter(s, 1) + rank_filter(s, 2) + rank_filter(s, 3)
}

/// Sorting keeps, for each rank, exactly the mixins of that rank in their
/// original relative order: the stable-sort tie-breaking rule.
pub proof fn lemma_sort_mixins_stable(s: Seq<MixinModel>, k: int)
    requires
        0 <= k <= 3,
    ensures
        rank_filter(spec_sort_mixins(s), k) == rank_filter(s, k),
{
    lemma_rank_filter_add(rank_filter(s, 0), rank_filter(s, 1) + rank_filter(s, 2)
        + rank_filter(s, 3), k);
    lemma_rank_filter_add(rank_filter(s, 1), rank_filter(s, 2) + rank_filter(s, 3), k);
    lemma_rank_filter_add(rank_filter(s, 2), rank_filter(s, 3), k);
    lemma_rank_filter_of_filter(s, 0, k);
    lemma_rank_filter_of_filter(s, 1, k);
    lemma_rank_filter_of_filter(s, 2, k);
    lemma_rank_filter_of_filter(s, 3, k);
    if k == 0 {
        assert(rank_filter(spec_sort_mixins(s), k) =~= rank_filter(s, k));
    } else if k == 1 {
        assert(rank_filter(spec_sort_mixins(s), k) =~= rank_filter(s, k));
    } else if k == 2 {
        assert(rank_filter(spec_sort_mixins(s), k) =~= rank_filter(s, k));
    } else {
        assert(rank_filter(spec_sort_mixins(s), k) =~= rank_filter(s, k));
    }
}

proof fn lemma_rank_filter_add(a: Seq<MixinModel>, b: Seq<MixinModel>, k: int)
    ensures
        rank_filter(a + b, k) == rank_filter(a, k) + rank_filter(b, k),
{
    Seq::<MixinModel>::filter_distributes_over_add(a, b, |m: MixinModel| m.at.rank() == k);
}

proof fn lemma_rank_filter_of_filter(s: Seq<MixinModel>, j: int, k: int)
    ensures
        j == k ==> rank_filter(rank_filter(s, j), k) == rank_filter(s, j),
        j != k ==> rank_filter(rank_filter(s, j), k) == Seq::<MixinModel>::empty(),
    decreases s.len(),
{
    reveal_with_fuel(Seq::filter, 2);
    if s.len() == 0 {
        assert(rank_filter(s, j) =~= Seq::<MixinModel>::empty());
    } else {
        lemma_rank_filter_of_filter(s.drop_last(), j, k);
        let x = s.last();
        lemma_rank_filter_add(rank_filter(s.drop_last(), j), rank_filter(seq![x], j), k);
        assert(rank_filter(s, j) =~= rank_filter(s.drop_last(), j) + rank_filter(seq![x], j))
            by {
            assert(s =~= s.drop_last() + seq![x]);
            lemma_rank_filter_add(s.drop_last(), seq![x], j);
        }
        assert(seq![x].drop_last() =~= Seq::<MixinModel>::empty());
        if x.at.rank() == j {
            assert(rank_filter(seq![x], j) =~= seq![x]);
            if j == k {
                assert(rank_filter(seq![x], k) =~= seq![x]);
            } else {
                assert(rank_filter(seq![x], k) =~= Seq::<MixinModel>::empty());
            }
        } else {
            assert(rank_filter(seq![x], j) =~= Seq::<MixinModel>::empty());
            assert(rank_filter(Seq::<MixinModel>::empty(), k) =~= Seq::<MixinModel>::empty());
        }
        if j == k {
            assert(rank_filter(rank_filter(s, j), k) =~= rank_filter(s, j));
        } else {
            assert(rank_filter(rank_filter(s, j), k) =~= Seq::<MixinModel>::empty());
        }
    }
}

/// The sorted list is ordered by rank: every range edit precedes every
/// search-anchored edit, which precedes every boundary edit.
pub proof fn lemma_sort_mixins_sorted(s: Seq<MixinModel>, i: int, j: int)
    requires
        0 <= i <= j < spec_sort_mixins(s).len(),
    ensures
        spec_sort_mixins(s)[i].at.rank() <= spec_sort_mixins(s)[j].at.rank(),
{
    broadcast use vstd::seq::Seq::lemma_filter_pred;

    let f0 = rank_filter(s, 0);
    let f1 = rank_filter(s, 1);
    let f2 = rank_filter(s, 2);
    let f3 = rank_filter(s, 3);
    assert(forall|x: int| 0 <= x < f0.len() ==> #[trigger] f0[x].at.rank() == 0);
    assert(forall|x: int| 0 <= x < f1.len() ==> #[trigger] f1[x].at.rank() == 1);
    assert(forall|x: int| 0 <= x < f2.len() ==> #[trigger] f2[x].at.rank() == 2);
    assert(forall|x: int| 0 <= x < f3.len() ==> #[trigger] f3[x].at.rank() == 3);
}

/// A fresh mixin list holding the mixins of `v` in application order.
pub fn sort_mixins(v: &Vec<Mixin>) -> (r: Vec<Mixin>)
    ensures
        mixins_view(r@) == spec_sort_mixins(mixins_view(v@)),
{
    let n = v.len();
    let mut out: Vec<Mixin> = Vec::new();
    let ghost full = mixins_view(v@);
    proof {
        reveal_with_fuel(Seq::filter, 2);
        assert(mixins_view(out@) =~= Seq::<MixinModel>::empty());
    }
    let mut k: u8 = 0;
    while k < 4
        invariant
            k <= 4,
            n == v@.len(),
            full == mixins_view(v@),
            mixins_view(out@) == prefix_filters(full, k as int),
        decreases 4 - k,
    {
        let mut i: usize = 0;
        proof {
            assert(mixins_view(v@.take(0)) =~= Seq::<MixinModel>::empty());
            assert(rank_filter(Seq::<MixinModel>::empty(), k as int)
                =~= Seq::<MixinModel>::empty()) by {
                reveal_with_fuel(Seq::filter, 2);
            }
            assert(prefix_filters(full, k as int) + Seq::<MixinModel>::empty()
                =~= prefix_filters(full, k as int));
        }
        while i < n
            invariant
                i <= n,
                k < 4,
                n == v@.len(),
                full == mixins_view(v@),
                mixins_view(out@) == prefix_filters(full, k as int) + rank_filter(
                    mixins_view(v@.take(i as int)),
                    k as int,
                ),
            decreases n - i,
        {
            proof {
                reveal_with_fuel(Seq::filter, 2);
                let pv = mixins_view(v@.take(i as int));
                let nv = mixins_view(v@.take(i + 1));
                assert(v@.take(i + 1).drop_last() =~= v@.take(i as int));
                assert(nv.drop_last() =~= pv);
                assert(nv.last() == v@[i as int]@);
            }
            let m = &v[i];
            if m.at.rank() == k {
                let d = dup_mixin(m);
                out.push(d);
                proof {
                    assert(mixins_view(out@) =~= (prefix_filters(full, k as int) + rank_filter(
                        mixins_view(v@.take(i as int)),
                        k as int,
                    )).push(v@[i as int]@));
                    assert(rank_filter(mixins_view(v@.take(i + 1)), k as int) =~= rank_filter(
                        mixins_view(v@.take(i as int)),
                        k as int,
                    ).push(v@[i as int]@));
                    assert((prefix_filters(full, k as int) + rank_filter(
                        mixins_view(v@.take(i as int)),
                        k as int,
                    ).push(v@[i as int]@)) =~= (prefix_filters(full, k as int) + rank_filter(
                        mixins_view(v@.take(i as int)),
                        k as int,
                    )).push(v@[i as int]@));
                }
            }
            i += 1;
        }
        proof {
            assert(v@.take(n as int) =~= v@);
        }
        k += 1;
    }
    proof {
        reveal_with_fuel(prefix_filters, 5);
        assert(prefix_filters(full, 4) =~= spec_sort_mixins(full));
    }
    out
}

/// The concatenation of the rank groups below `k`.
pub open spec fn prefix_filters(s: Seq<MixinModel>, k: int) -> Seq<MixinModel>
    decreases k when k >= 0
{
    if k <= 0 {
        Seq::empty()
    } else {
        prefix_filters(s, k - 1) + rank_filter(s, k - 1)
    }
}

// ---------------------------------------------------------------------------
// the interpreter
// ---------------------------------------------------------------------------

/// State of the directive scan over one injection unit.
pub ghost struct InterpScan {
    pub namespace: Seq<char>,
    pub pending: MixinModel,
    pub out: Seq<MixinModel>,
    pub failed: bool,
}

pub open spec fn interp_init() -> InterpScan {
    (InterpScan {
        namespace: Seq::empty(),
        pending: spec_empty_mixin(),
        out: Seq::empty(),
        failed: false,
    })
}

/// One line of the directive scan.  A namespace line updates the current
/// namespace; while a directive is pending, the next `function` line
/// finalizes it into a mixin carrying the donor's name, parameters,
/// namespace and path; a directive line parses into a new pending directive
/// and requires a namespace to be known already.
pub open spec fn interp_step(st: InterpScan, line: Seq<char>, path: Seq<char>) -> InterpScan {
    if st.failed {
        st
    } else if spec_starts_with(line, "namespace"@) && line.len() < 11 {
        InterpScan { failed: true, ..st }
    } else {
        let st0 = if spec_starts_with(line, "namespace"@) {
            InterpScan { namespace: spec_extract_namespace(line), ..st }
        } else {
            st
        };
        let finalize = !(st0.pending.at is Absent) && spec_starts_with(line, "function"@);
        if finalize && spec_try_function_name(line) is None {
            InterpScan { failed: true, ..st0 }
        } else {
            let st1 = if finalize {
                InterpScan {
                    pending: spec_empty_mixin(),
                    out: st0.out.push(
                        (MixinModel {
                            name: spec_try_function_name(line)->Some_0,
                            namespace: st0.namespace,
                            at: st0.pending.at,
                            args: spec_extract_function_params(line),
                            target: st0.pending.target,
                            path: path,
                        }),
                    ),
                    ..st0
                }
            } else {
                st0
            };
            if !spec_starts_with(line, "#@Inject"@) {
                st1
            } else if st1.namespace.len() == 0 {
                InterpScan { failed: true, ..st1 }
            } else {
                match spec_extract_type(line) {
                    None => (InterpScan { failed: true, ..st1 }),
                    Some(m) => (InterpScan { pending: m, ..st1 }),
                }
            }
        }
    }
}

pub open spec fn interp_from(lines: Seq<Seq<char>>, path: Seq<char>) -> InterpScan
    decreases lines.len(),
{
    if lines.len() == 0 {
        interp_init()
    } else {
        interp_step(interp_from(lines.drop_last(), path), lines.last(), path)
    }
}

pub proof fn lemma_interp_failed_persists(lines: Seq<Seq<char>>, path: Seq<char>, i: int)
    requires
        0 <= i <= lines.len(),
        interp_from(lines.take(i), path).failed,
    ensures
        interp_from(lines, path).failed,
    decreases lines.len() - i,
{
    if i < lines.len() {
        assert(lines.take(i + 1).drop_last() =~= lines.take(i));
        assert(lines.take(i + 1).last() == lines[i]);
        lemma_interp_failed_persists(lines, path, i + 1);
    } else {
        assert(lines.take(i) =~= lines);
    }
}

/// The mixins declared by one injection unit, in discovery order; nothing
/// when a directive is malformed or lacks a preceding namespace.
pub open spec fn spec_interpret(contents: Seq<char>, path: Seq<char>) -> Option<Seq<MixinModel>> {
    let st = interp_from(spec_lines(contents), path);
    if st.failed {
        None
    } else {
        Some(st.out)
    }
}

/// Accumulates the mixins of the injection units it is shown, kept sorted
/// in application order.
pub struct Interpreter {
    pub mixins: Vec<Mixin>,
}

impl Default for Interpreter {
    fn default() -> (r: Interpreter)
        ensures
            r.mixins@.len() == 0,
    {
        Interpreter { mixins: Vec::new() }
    }
}

impl Interpreter {
    /// Scans one injection unit and merges its mixins into the accumulated,
    /// sorted list.  On failure the interpreter is left unchanged.
    pub fn interpret(&mut self, contents: &str, path: &str) -> (r: Result<(), CompileError>)
        ensures
            match r {
                Ok(_) => spec_interpret(contents@, path@) is Some && mixins_view(
                    final(self).mixins@,
                ) == spec_sort_mixins(
                    mixins_view(old(self).mixins@) + spec_interpret(contents@, path@)->Some_0,
                ),
                Err(e) => spec_interpret(contents@, path@) is None && e is DirectiveSyntax
                    && *final(self) == *old(self),
            },
    {
        let lines = split_lines(contents);
        let ghost lv = strs_view(lines@);
        let n = lines.len();
        let mut namespace: String = String::new();
        let mut pending: Mixin = Mixin::new();
        let mut collected: Vec<Mixin> = Vec::new();
        let mut idx: usize = 0;
        proof {
            assert(lv.take(0) =~= Seq::<Seq<char>>::empty());
            assert(mixins_view(collected@) =~= Seq::<MixinModel>::empty());
        }
        while idx < n
            invariant
                idx <= n,
                n == lv.len(),
                lv == strs_view(lines@),
                lv == spec_lines(contents@),
                ({
                    let st = interp_from(lv.take(idx as int), path@);
                    &&& !st.failed
                    &&& st.namespace == namespace@
                    &&& st.pending == pending@
                    &&& st.out == mixins_view(collected@)
                }),
            decreases n - idx,
        {
            proof {
                assert(lv.take(idx + 1).drop_last() =~= lv.take(idx as int));
                assert(lv.take(idx + 1).last() == lv[idx as int]);
            }
            let ghost st0 = interp_from(lv.take(idx as int), path@);
            let ghost stn = interp_from(lv.take(idx + 1), path@);
            proof {
                assert(stn == interp_step(st0, lv[idx as int], path@));
            }
            let line = &lines[idx];
            proof {
                assert(lv[idx as int] == line@);
            }
            let ls = line.as_str();
            if starts_with_str(ls, "namespace") {
                if ls.unicode_len() < 11 {
                    proof {
                        assert(stn.failed);
                        lemma_interp_failed_persists(lv, path@, idx + 1);
                    }
                    return Err(CompileError::DirectiveSyntax(ls.to_owned()));
                }
                namespace = extract_namespace(ls).to_owned();
            }
            let finalize = !pending.at.is_absent() && starts_with_str(ls, "function");
            if finalize {
                let name = try_function_name(ls);
                match name {
                    None => {
                        proof {
                            assert(stn.failed);
                            lemma_interp_failed_persists(lv, path@, idx + 1);
                        }
                        return Err(CompileError::DirectiveSyntax(ls.to_owned()));
                    },
                    Some(nm) => {
                        let m = Mixin {
                            name: nm,
                            namespace: namespace.clone(),
                            at: dup_kind(&pending.at),
                            args: extract_function_params(ls),
                            target: pending.target.clone(),
                            path: path.to_owned(),
                        };
                        proof {
                            assert(mixins_view(collected@.push(m)) =~= mixins_view(
                                collected@,
                            ).push(m@));
                        }
                        collected.push(m);
                        pending = Mixin::new();
                    },
                }
            }
            if starts_with_str(ls, "#@Inject") {
                if namespace.as_str().unicode_len() == 0 {
                    proof {
                        assert(stn.failed);
                        lemma_interp_failed_persists(lv, path@, idx + 1);
                    }
                    return Err(CompileError::DirectiveSyntax(ls.to_owned()));
                }
                let parsed = Mixin::extract_type(ls);
                match parsed {
                    None => {
                        proof {
                            assert(stn.failed);
                            lemma_interp_failed_persists(lv, path@, idx + 1);
                        }
                        return Err(CompileError::DirectiveSyntax(ls.to_owned()));
                    },
                    Some(m) => {
                        pending = m;
                    },
                }
            }
            idx += 1;
        }
        proof {
            assert(lv.take(n as int) =~= lv);
        }
        // merge and sort
        let cn = collected.len();
        let ghost before = self.mixins@;
        let mut i: usize = 0;
        proof {
            assert(mixins_view(before) + mixins_view(collected@.take(0)) =~= mixins_view(
                before,
            ));
            assert(mixins_view(collected@.take(0)) =~= Seq::<MixinModel>::empty());
        }
        while i < cn
            invariant
                i <= cn,
                cn == collected@.len(),
                mixins_view(self.mixins@) == mixins_view(before) + mixins_view(
                    collected@.take(i as int),
                ),
            decreases cn - i,
        {
            let d = dup_mixin(&collected[i]);
            proof {
                assert(collected@.take(i + 1).drop_last() =~= collected@.take(i as int));
                assert(mixins_view(self.mixins@.push(d)) =~= mixins_view(self.mixins@).push(
                    d@,
                ));
                assert(mixins_view(collected@.take(i + 1)) =~= mixins_view(
                    collected@.take(i as int),
                ).push(collected@[i as int]@));
                assert((mixins_view(before) + mixins_view(collected@.take(i as int))).push(
                    collected@[i as int]@,
                ) =~= mixins_view(before) + mixins_view(collected@.take(i + 1)));
            }
            self.mixins.push(d);
            i += 1;
        }
        proof {
            assert(collected@.take(cn as int) =~= collected@);
        }
        let sorted = sort_mixins(&self.mixins);
        self.mixins = sorted;
        Ok(())
    }
}

} // verus!
