//! Recursive source assembly: reads files from an in-memory table, splices
//! inclusion targets depth-first in the order their directives appear, replaces
//! the page-break and table-of-contents directives, passes fenced code blocks
//! through verbatim, and rejects revisited paths and sandbox escapes.
//!
//! The meaning of resolution is `resolve_spec`, a pre-order expansion of the
//! inclusion graph. The executable `preprocess_markdown` is proved to return
//! exactly that expansion; its recursion is bounded by the number of table
//! paths not yet visited, so resolution terminates on every input.

use vstd::prelude::*;

use crate::bytes::{lines_of, split_lines, views, contains_bytes, bytes_eq, push_all};
use crate::directive::{
    Directive, classify_line, fence_line, is_fence_line, splice_target, page_break_html,
    page_break_html_vec, toc_placeholder, toc_placeholder_vec,
};
use crate::error::{AppError, ErrView};
use crate::path::{normalize_spec, normalize_path, child_path_spec, child_path, child_segs_spec, join_segs};

verus! {

/// One source file: its root-relative path and its contents.
pub struct FileEntry {
    pub path: Vec<u8>,
    pub content: Vec<u8>,
}

/// The mathematical image of a file table.
pub open spec fn table_view(t: Seq<FileEntry>) -> Seq<(Seq<u8>, Seq<u8>)> {
    t.map_values(|e: FileEntry| (e.path@, e.content@))
}

/// The paths the table holds.
pub open spec fn table_keys(t: Seq<(Seq<u8>, Seq<u8>)>) -> Set<Seq<u8>> {
    t.map_values(|e: (Seq<u8>, Seq<u8>)| e.0).to_set()
}

/// The contents of the first entry named `p`, if any.
pub open spec fn lookup_spec(t: Seq<(Seq<u8>, Seq<u8>)>, p: Seq<u8>) -> Option<Seq<u8>>
    decreases t.len(),
{
    if t.len() == 0 {
        None
    } else if t[0].0 == p {
        Some(t[0].1)
    } else {
        lookup_spec(t.drop_first(), p)
    }
}

/// How many table paths are not yet in `visited`.
pub open spec fn unvisited(t: Seq<(Seq<u8>, Seq<u8>)>, visited: Set<Seq<u8>>) -> nat {
    table_keys(t).difference(visited).len()
}

/// The newline appended after every emitted piece.
pub open spec fn nl() -> Seq<u8> {
    seq![10u8]
}

/// What resolving one file yields: the assembled output or the first error,
/// and the visited set as it stands afterwards.
pub open spec fn combine(
    prefix: Seq<u8>,
    pr: (Result<Seq<u8>, ErrView>, Set<Seq<u8>>),
) -> (Result<Seq<u8>, ErrView>, Set<Seq<u8>>) {
    match pr.0 {
        Ok(rest) => (Ok(prefix + rest), pr.1),
        Err(e) => (Err(e), pr.1),
    }
}

/// Fuel-bounded resolution of the file at `p`. `None` means the fuel ran out;
/// `lemma_resolve_fuel_enough` shows that enough fuel always exists, and
/// `resolve_spec` below fixes one sufficient amount.
pub open spec fn resolve_fuel(
    t: Seq<(Seq<u8>, Seq<u8>)>,
    p: Seq<u8>,
    visited: Set<Seq<u8>>,
    fuel: nat,
) -> Option<(Result<Seq<u8>, ErrView>, Set<Seq<u8>>)>
    decreases fuel, 0nat, 0nat,
{
    if fuel == 0 {
        None
    } else {
        let np = normalize_spec(p);
        if visited.contains(np) {
            Some((Err(ErrView::CircularDependency(np)), visited))
        } else {
            let v1 = visited.insert(np);
            match lookup_spec(t, np) {
                None => Some((Err(ErrView::SourceNotFound(np)), v1)),
                Some(content) => process_fuel(
                    t,
                    np,
                    lines_of(content),
                    false,
                    v1,
                    (fuel - 1) as nat,
                ),
            }
        }
    }
}

/// Fuel-bounded processing of the remaining lines of the file at `cur`.
pub open spec fn process_fuel(
    t: Seq<(Seq<u8>, Seq<u8>)>,
    cur: Seq<u8>,
    ls: Seq<Seq<u8>>,
    fence: bool,
    visited: Set<Seq<u8>>,
    fuel: nat,
) -> Option<(Result<Seq<u8>, ErrView>, Set<Seq<u8>>)>
    decreases fuel, ls.len(), 1nat,
{
    if ls.len() == 0 {
        Some((Ok(Seq::empty()), visited))
    } else {
        let line = ls[0];
        let fence2 = if is_fence_line(line) {
            !fence
        } else {
            fence
        };
        if fence2 {
            match process_fuel(t, cur, ls.drop_first(), fence2, visited, fuel) {
                None => None,
                Some(pr) => Some(combine(line + nl(), pr)),
            }
        } else {
            match splice_target(line) {
                Some(rel) => match child_path_spec(cur, rel) {
                    None => Some(
                        (
                            Err(
                                ErrView::UnauthorizedAccess(
                                    join_segs(child_segs_spec(cur, rel)),
                                ),
                            ),
                            visited,
                        ),
                    ),
                    Some(cp) => if fuel == 0 {
                        None
                    } else {
                        match resolve_fuel(t, cp, visited, (fuel - 1) as nat) {
                            None => None,
                            Some((Err(e), v2)) => Some((Err(e), v2)),
                            Some((Ok(sub), v2)) => match process_fuel(
                                t,
                                cur,
                                ls.drop_first(),
                                fence2,
                                v2,
                                fuel,
                            ) {
                                None => None,
                                Some(pr) => Some(combine(sub + nl(), pr)),
                            },
                        }
                    },
                },
                None => {
                    let piece = if trimmed_is_newpage(line) {
                        page_break_html()
                    } else if trimmed_is_toc(line) {
                        toc_placeholder()
                    } else {
                        line
                    };
                    match process_fuel(t, cur, ls.drop_first(), fence2, visited, fuel) {
                        None => None,
                        Some(pr) => Some(combine(piece + nl(), pr)),
                    }
                },
            }
        }
    }
}

/// True when the trimmed line is the page-break directive.
pub open spec fn trimmed_is_newpage(line: Seq<u8>) -> bool {
    crate::bytes::trim_spec(line) == crate::directive::newpage_marker()
}

/// True when the trimmed line is the table-of-contents directive.
pub open spec fn trimmed_is_toc(line: Seq<u8>) -> bool {
    crate::bytes::trim_spec(line) == crate::directive::toc_marker()
}

/// Fuel that always suffices to resolve one file.
pub open spec fn enough_r(t: Seq<(Seq<u8>, Seq<u8>)>, visited: Set<Seq<u8>>) -> nat {
    2 * unvisited(t, visited) + 1
}

/// Fuel that always suffices to process the lines of an already-read file.
pub open spec fn enough_p(t: Seq<(Seq<u8>, Seq<u8>)>, visited: Set<Seq<u8>>) -> nat {
    2 * unvisited(t, visited) + 2
}

/// What resolving the file at `p` yields, and the visited paths afterwards.
pub open spec fn resolve_spec(
    t: Seq<(Seq<u8>, Seq<u8>)>,
    p: Seq<u8>,
    visited: Set<Seq<u8>>,
) -> (Result<Seq<u8>, ErrView>, Set<Seq<u8>>) {
    resolve_fuel(t, p, visited, enough_r(t, visited)).unwrap()
}

/// What processing the remaining lines of `cur` yields.
pub open spec fn process_spec(
    t: Seq<(Seq<u8>, Seq<u8>)>,
    cur: Seq<u8>,
    ls: Seq<Seq<u8>>,
    fence: bool,
    visited: Set<Seq<u8>>,
) -> (Result<Seq<u8>, ErrView>, Set<Seq<u8>>) {
    process_fuel(t, cur, ls, fence, visited, enough_p(t, visited)).unwrap()
}

proof fn lemma_lookup_some_in_keys(t: Seq<(Seq<u8>, Seq<u8>)>, p: Seq<u8>)
    requires
        lookup_spec(t, p) is Some,
    ensures
        table_keys(t).contains(p),
    decreases t.len(),
{
    broadcast use vstd::seq_lib::group_seq_lib_default;

    if t.len() > 0 {
        if t[0].0 == p {
            assert(t.map_values(|e: (Seq<u8>, Seq<u8>)| e.0)[0] == p);
        } else {
            lemma_lookup_some_in_keys(t.drop_first(), p);
            let f = |e: (Seq<u8>, Seq<u8>)| e.0;
            assert(t.drop_first().map_values(f) =~= t.map_values(f).drop_first());
            let q = choose|i: int|
                0 <= i < t.drop_first().map_values(f).len() && t.drop_first().map_values(f)[i]
                    == p;
            assert(t.map_values(f)[q + 1] == p);
        }
    }
}

proof fn lemma_keys_finite(t: Seq<(Seq<u8>, Seq<u8>)>)
    ensures
        table_keys(t).finite(),
{
    broadcast use vstd::seq_lib::seq_to_set_is_finite;

}

/// Growing the visited set cannot grow the unvisited count.
proof fn lemma_unvisited_subset(t: Seq<(Seq<u8>, Seq<u8>)>, v1: Set<Seq<u8>>, v2: Set<Seq<u8>>)
    requires
        v1.subset_of(v2),
    ensures
        unvisited(t, v2) <= unvisited(t, v1),
{
    lemma_keys_finite(t);
    let k = table_keys(t);
    vstd::set_lib::lemma_set_subset_finite(k, k.difference(v1));
    vstd::set_lib::lemma_len_subset(k.difference(v2), k.difference(v1));
}

/// Visiting a table path lowers the unvisited count by one.
proof fn lemma_unvisited_insert(t: Seq<(Seq<u8>, Seq<u8>)>, v: Set<Seq<u8>>, p: Seq<u8>)
    requires
        table_keys(t).contains(p),
        !v.contains(p),
    ensures
        unvisited(t, v.insert(p)) == unvisited(t, v) - 1,
{
    lemma_keys_finite(t);
    let k = table_keys(t);
    vstd::set_lib::lemma_set_subset_finite(k, k.difference(v));
    assert(k.difference(v.insert(p)) =~= k.difference(v).remove(p));
    assert(k.difference(v).contains(p));
}

/// More fuel never changes an answer that was already reached.
proof fn lemma_resolve_fuel_mono(
    t: Seq<(Seq<u8>, Seq<u8>)>,
    p: Seq<u8>,
    v: Set<Seq<u8>>,
    fuel1: nat,
    fuel2: nat,
)
    requires
        resolve_fuel(t, p, v, fuel2) is Some,
        fuel1 >= fuel2,
    ensures
        resolve_fuel(t, p, v, fuel1) == resolve_fuel(t, p, v, fuel2),
    decreases fuel2, 0nat, 0nat,
{
    let np = normalize_spec(p);
    if !v.contains(np) {
        match lookup_spec(t, np) {
            None => {},
            Some(content) => {
                lemma_process_fuel_mono(
                    t,
                    np,
                    lines_of(content),
                    false,
                    v.insert(np),
                    (fuel1 - 1) as nat,
                    (fuel2 - 1) as nat,
                );
            },
        }
    }
}

/// More fuel never changes an answer that was already reached.
proof fn lemma_process_fuel_mono(
    t: Seq<(Seq<u8>, Seq<u8>)>,
    cur: Seq<u8>,
    ls: Seq<Seq<u8>>,
    fence: bool,
    v: Set<Seq<u8>>,
    fuel1: nat,
    fuel2: nat,
)
    requires
        process_fuel(t, cur, ls, fence, v, fuel2) is Some,
        fuel1 >= fuel2,
    ensures
        process_fuel(t, cur, ls, fence, v, fuel1) == process_fuel(t, cur, ls, fence, v, fuel2),
    decreases fuel2, ls.len(), 1nat,
{
    if ls.len() == 0 {
    } else {
        let line = ls[0];
        let fence2 = if is_fence_line(line) {
            !fence
        } else {
            fence
        };
        if fence2 {
            lemma_process_fuel_mono(t, cur, ls.drop_first(), fence2, v, fuel1, fuel2);
        } else {
            match splice_target(line) {
                Some(rel) => match child_path_spec(cur, rel) {
                    None => {},
                    Some(cp) => {
                        lemma_resolve_fuel_mono(t, cp, v, (fuel1 - 1) as nat, (fuel2 - 1) as nat);
                        match resolve_fuel(t, cp, v, (fuel2 - 1) as nat) {
                            Some((Ok(sub), v2)) => {
                                lemma_process_fuel_mono(
                                    t,
                                    cur,
                                    ls.drop_first(),
                                    fence2,
                                    v2,
                                    fuel1,
                                    fuel2,
                                );
                            },
                            _ => {},
                        }
                    },
                },
                None => {
                    lemma_process_fuel_mono(t, cur, ls.drop_first(), fence2, v, fuel1, fuel2);
                },
            }
        }
    }
}

/// With fuel `enough_r`, resolution reaches an answer, and the visited set
/// only grows.
proof fn lemma_resolve_fuel_enough(
    t: Seq<(Seq<u8>, Seq<u8>)>,
    p: Seq<u8>,
    v: Set<Seq<u8>>,
    fuel: nat,
)
    requires
        v.finite(),
        fuel >= enough_r(t, v),
    ensures
        resolve_fuel(t, p, v, fuel) is Some,
        v.subset_of(resolve_fuel(t, p, v, fuel).unwrap().1),
        resolve_fuel(t, p, v, fuel).unwrap().1.finite(),
    decreases unvisited(t, v), 0nat, 0nat,
{
    let np = normalize_spec(p);
    if v.contains(np) {
    } else {
        let v1 = v.insert(np);
        match lookup_spec(t, np) {
            None => {},
            Some(content) => {
                lemma_lookup_some_in_keys(t, np);
                lemma_unvisited_insert(t, v, np);
                lemma_process_fuel_enough(
                    t,
                    np,
                    lines_of(content),
                    false,
                    v1,
                    (fuel - 1) as nat,
                );
            },
        }
    }
}

/// With fuel `enough_p`, line processing reaches an answer, and the visited
/// set only grows.
proof fn lemma_process_fuel_enough(
    t: Seq<(Seq<u8>, Seq<u8>)>,
    cur: Seq<u8>,
    ls: Seq<Seq<u8>>,
    fence: bool,
    v: Set<Seq<u8>>,
    fuel: nat,
)
    requires
        v.finite(),
        fuel >= enough_p(t, v),
    ensures
        process_fuel(t, cur, ls, fence, v, fuel) is Some,
        v.subset_of(process_fuel(t, cur, ls, fence, v, fuel).unwrap().1),
        process_fuel(t, cur, ls, fence, v, fuel).unwrap().1.finite(),
    decreases unvisited(t, v), ls.len(), 1nat,
{
    if ls.len() == 0 {
    } else {
        let line = ls[0];
        let fence2 = if is_fence_line(line) {
            !fence
        } else {
            fence
        };
        if fence2 {
            lemma_process_fuel_enough(t, cur, ls.drop_first(), fence2, v, fuel);
        } else {
            match splice_target(line) {
                Some(rel) => match child_path_spec(cur, rel) {
                    None => {},
                    Some(cp) => {
                        lemma_resolve_fuel_enough(t, cp, v, (fuel - 1) as nat);
                        match resolve_fuel(t, cp, v, (fuel - 1) as nat) {
                            Some((Ok(sub), v2)) => {
                                lemma_unvisited_subset(t, v, v2);
                                lemma_process_fuel_enough(
                                    t,
                                    cur,
                                    ls.drop_first(),
                                    fence2,
                                    v2,
                                    fuel,
                                );
                            },
                            _ => {},
                        }
                    },
                },
                None => {
                    lemma_process_fuel_enough(t, cur, ls.drop_first(), fence2, v, fuel);
                },
            }
        }
    }
}

/// One unfolding step of `resolve_spec`, stated over `process_spec`.
pub proof fn lemma_resolve_unfold(t: Seq<(Seq<u8>, Seq<u8>)>, p: Seq<u8>, v: Set<Seq<u8>>)
    requires
        v.finite(),
    ensures
        resolve_spec(t, p, v) == ({
            let np = normalize_spec(p);
            if v.contains(np) {
                (Err::<Seq<u8>, ErrView>(ErrView::CircularDependency(np)), v)
            } else {
                match lookup_spec(t, np) {
                    None => (Err(ErrView::SourceNotFound(np)), v.insert(np)),
                    Some(content) => process_spec(t, np, lines_of(content), false, v.insert(np)),
                }
            }
        }),
{
    let np = normalize_spec(p);
    if !v.contains(np) {
        match lookup_spec(t, np) {
            None => {},
            Some(content) => {
                let v1 = v.insert(np);
                lemma_lookup_some_in_keys(t, np);
                lemma_unvisited_insert(t, v, np);
                assert((enough_r(t, v) - 1) as nat == enough_p(t, v1));
            },
        }
    }
}

/// One unfolding step of `process_spec` on a non-empty line list.
pub proof fn lemma_process_unfold(
    t: Seq<(Seq<u8>, Seq<u8>)>,
    cur: Seq<u8>,
    ls: Seq<Seq<u8>>,
    fence: bool,
    v: Set<Seq<u8>>,
)
    requires
        v.finite(),
        ls.len() > 0,
    ensures
        process_spec(t, cur, ls, fence, v) == ({
            let line = ls[0];
            let fence2 = if is_fence_line(line) {
                !fence
            } else {
                fence
            };
            if fence2 {
                combine(line + nl(), process_spec(t, cur, ls.drop_first(), fence2, v))
            } else {
                match splice_target(line) {
                    Some(rel) => match child_path_spec(cur, rel) {
                        None => (
                            Err(ErrView::UnauthorizedAccess(join_segs(child_segs_spec(cur, rel)))),
                            v,
                        ),
                        Some(cp) => match resolve_spec(t, cp, v) {
                            (Err(e), v2) => (Err(e), v2),
                            (Ok(sub), v2) => combine(
                                sub + nl(),
                                process_spec(t, cur, ls.drop_first(), fence2, v2),
                            ),
                        },
                    },
                    None => {
                        let piece = if trimmed_is_newpage(line) {
                            page_break_html()
                        } else if trimmed_is_toc(line) {
                            toc_placeholder()
                        } else {
                            line
                        };
                        combine(piece + nl(), process_spec(t, cur, ls.drop_first(), fence2, v))
                    },
                }
            }
        }),
{
    let fp = enough_p(t, v);
    let line = ls[0];
    let fence2 = if is_fence_line(line) {
        !fence
    } else {
        fence
    };
    if fence2 {
        lemma_process_fuel_enough(t, cur, ls.drop_first(), fence2, v, fp);
    } else {
        match splice_target(line) {
            Some(rel) => match child_path_spec(cur, rel) {
                None => {},
                Some(cp) => {
                    assert((fp - 1) as nat == enough_r(t, v));
                    lemma_resolve_fuel_enough(t, cp, v, (fp - 1) as nat);
                    match resolve_fuel(t, cp, v, (fp - 1) as nat) {
                        Some((Ok(sub), v2)) => {
                            lemma_unvisited_subset(t, v, v2);
                            lemma_process_fuel_enough(t, cur, ls.drop_first(), fence2, v2, fp);
                            lemma_process_fuel_enough(
                                t,
                                cur,
                                ls.drop_first(),
                                fence2,
                                v2,
                                enough_p(t, v2),
                            );
                            lemma_process_fuel_mono(
                                t,
                                cur,
                                ls.drop_first(),
                                fence2,
                                v2,
                                fp,
                                enough_p(t, v2),
                            );
                        },
                        _ => {},
                    }
                },
            },
            None => {
                lemma_process_fuel_enough(t, cur, ls.drop_first(), fence2, v, fp);
            },
        }
    }
}

proof fn lemma_lookup_at(tv: Seq<(Seq<u8>, Seq<u8>)>, p: Seq<u8>, i: int)
    requires
        0 <= i < tv.len(),
        tv[i].0 == p,
        forall|j: int| 0 <= j < i ==> (#[trigger] tv[j]).0 != p,
    ensures
        lookup_spec(tv, p) == Some(tv[i].1),
    decreases i,
{
    if i > 0 {
        lemma_lookup_at(tv.drop_first(), p, i - 1);
    }
}

proof fn lemma_lookup_none(tv: Seq<(Seq<u8>, Seq<u8>)>, p: Seq<u8>)
    requires
        forall|j: int| 0 <= j < tv.len() ==> (#[trigger] tv[j]).0 != p,
    ensures
        lookup_spec(tv, p) is None,
    decreases tv.len(),
{
    if tv.len() > 0 {
        lemma_lookup_none(tv.drop_first(), p);
    }
}

/// The contents of the first table entry named `p`, if any.
fn lookup(files: &Vec<FileEntry>, p: &Vec<u8>) -> (r: Option<Vec<u8>>)
    ensures
        match r {
            Some(c) => lookup_spec(table_view(files@), p@) == Some(c@),
            None => lookup_spec(table_view(files@), p@) is None,
        },
{
    let ghost tv = table_view(files@);
    let mut i: usize = 0;
    while i < files.len()
        invariant
            0 <= i <= files@.len(),
            tv == table_view(files@),
            forall|j: int| 0 <= j < i ==> (#[trigger] tv[j]).0 != p@,
        decreases files@.len() - i,
    {
        proof {
            assert(tv[i as int] == (files@[i as int].path@, files@[i as int].content@));
        }
        if bytes_eq(&files[i].path, p) {
            let c = vstd::slice::slice_to_vec(files[i].content.as_slice());
            proof {
                lemma_lookup_at(tv, p@, i as int);
            }
            return Some(c);
        }
        i = i + 1;
    }
    proof {
        lemma_lookup_none(tv, p@);
    }
    None
}

proof fn lemma_combine_assoc(
    p1: Seq<u8>,
    p2: Seq<u8>,
    pr: (Result<Seq<u8>, ErrView>, Set<Seq<u8>>),
)
    ensures
        combine(p1, combine(p2, pr)) == combine(p1 + p2, pr),
{
    match pr.0 {
        Ok(rest) => {
            assert(p1 + (p2 + rest) =~= (p1 + p2) + rest);
        },
        Err(_) => {},
    }
}

/// Reads the file at `path` from the table and assembles the document: splice
/// directives expand depth-first in source order inside the sandbox, page
/// break and table-of-contents directives become their markers, fenced code
/// passes through verbatim, and a revisited path, a missing file or a sandbox
/// escape aborts with the matching error. The result and the final visited
/// set are exactly those of `resolve_spec`.
#[verifier::loop_isolation(false)]
pub fn preprocess_markdown(
    files: &Vec<FileEntry>,
    path: &Vec<u8>,
    visited: &mut Vec<Vec<u8>>,
) -> (r: Result<Vec<u8>, AppError>)
    ensures
        ({
            let sr = resolve_spec(table_view(files@), path@, views(old(visited)@).to_set());
            views(final(visited)@).to_set() == sr.1 && (match r {
                Ok(out) => sr.0 == Ok::<Seq<u8>, ErrView>(out@),
                Err(e) => sr.0 == Err::<Seq<u8>, ErrView>(e@),
            })
        }),
    decreases unvisited(table_view(files@), views(visited@).to_set()),
{
    broadcast use vstd::seq_lib::seq_to_set_is_finite;
    broadcast use vstd::seq_lib::group_seq_lib_default;

    let ghost t = table_view(files@);
    let ghost v0 = views(old(visited)@).to_set();
    proof {
        lemma_resolve_unfold(t, path@, v0);
    }
    let np = normalize_path(path);
    if contains_bytes(visited, &np) {
        proof {
            assert(v0.contains(np@));
        }
        return Err(AppError::CircularDependency(np));
    }
    proof {
        assert(!v0.contains(np@));
    }
    let np_key = vstd::slice::slice_to_vec(np.as_slice());
    visited.push(np_key);
    let ghost v1 = v0.insert(np@);
    proof {
        let s0 = views(old(visited)@);
        let s1 = views(visited@);
        assert(s1 =~= s0.push(np@));
        assert forall|y: Seq<u8>| s1.to_set().contains(y) <==> v1.contains(y) by {
            if s1.contains(y) {
                let i = choose|i: int| 0 <= i < s1.len() && s1[i] == y;
                if i < s0.len() {
                    assert(s0[i] == y);
                } else {
                    assert(y == np@);
                }
            }
            if v1.contains(y) {
                if v0.contains(y) {
                    let i = choose|i: int| 0 <= i < s0.len() && s0[i] == y;
                    assert(s1[i] == y);
                } else {
                    assert(s1[s1.len() - 1] == y);
                }
            }
        }
        assert(s1.to_set() =~= v1);
    }
    let content = match lookup(files, &np) {
        None => {
            return Err(AppError::SourceNotFound(np));
        },
        Some(c) => c,
    };
    let lines = split_lines(&content);
    let ghost ll = lines_of(content@);
    let ghost target = process_spec(t, np@, ll, false, v1);
    proof {
        lemma_lookup_some_in_keys(t, np@);
        lemma_unvisited_insert(t, v0, np@);
        assert(resolve_spec(t, path@, v0) == target);
    }
    let mut out: Vec<u8> = Vec::new();
    let mut fence = false;
    let mut i: usize = 0;
    proof {
        assert(ll.skip(0) =~= ll);
        let pr = process_spec(t, np@, ll, false, v1);
        match pr.0 {
            Ok(rest) => {
                assert(Seq::<u8>::empty() + rest =~= rest);
            },
            Err(_) => {},
        }
        assert(combine(Seq::<u8>::empty(), pr) == pr);
    }
    while i < lines.len()
        invariant
            0 <= i <= lines@.len(),
            t == table_view(files@),
            views(lines@) == ll,
            target == process_spec(t, np@, ll, false, v1),
            target == combine(
                out@,
                process_spec(t, np@, ll.skip(i as int), fence, views(visited@).to_set()),
            ),
            views(visited@).to_set().finite(),
            v1.subset_of(views(visited@).to_set()),
            table_keys(t).contains(np@),
            !v0.contains(np@),
            v1 == v0.insert(np@),
            unvisited(t, v1) == unvisited(t, v0) - 1,
        decreases lines@.len() - i,
    {
        let ghost vcur = views(visited@).to_set();
        let ghost rest = ll.skip(i as int);
        let ghost fence0 = fence;
        proof {
            assert(rest[0] == ll[i as int]);
            assert(rest.drop_first() =~= ll.skip(i + 1));
            lemma_process_unfold(t, np@, rest, fence0, vcur);
        }
        let line = &lines[i];
        proof {
            assert(line@ == rest[0]);
        }
        if fence_line(line) {
            fence = !fence;
        }
        if fence {
            let ghost pre_out = out@;
            push_all(&mut out, line);
            out.push(10u8);
            proof {
                assert(out@ =~= pre_out + (line@ + nl()));
                lemma_combine_assoc(pre_out, line@ + nl(), process_spec(t, np@, ll.skip(i + 1), fence, vcur));
            }
        } else {
            match classify_line(line) {
                Directive::Splice(rel) => {
                    match child_path(&np, &rel) {
                        Err(bad) => {
                            proof {
                                assert(process_spec(t, np@, rest, fence0, vcur) == (
                                    Err::<Seq<u8>, ErrView>(
                                        ErrView::UnauthorizedAccess(bad@),
                                    ),
                                    vcur,
                                ));
                            }
                            return Err(AppError::UnauthorizedAccess(bad));
                        },
                        Ok(cp) => {
                            proof {
                                lemma_unvisited_subset(t, v1, vcur);
                                assert(unvisited(t, vcur) < unvisited(t, v0));
                            }
                            let sub = match preprocess_markdown(files, &cp, visited) {
                                Err(e) => {
                                    return Err(e);
                                },
                                Ok(s) => s,
                            };
                            let ghost v2 = views(visited@).to_set();
                            let ghost pre_out = out@;
                            push_all(&mut out, &sub);
                            out.push(10u8);
                            proof {
                                assert(out@ =~= pre_out + (sub@ + nl()));
                                lemma_combine_assoc(
                                    pre_out,
                                    sub@ + nl(),
                                    process_spec(t, np@, ll.skip(i + 1), fence, v2),
                                );
                                lemma_resolve_fuel_enough(t, cp@, vcur, enough_r(t, vcur));
                                lemma_unvisited_subset(t, vcur, v2);
                            }
                        },
                    }
                },
                Directive::PageBreak => {
                    let pb = page_break_html_vec();
                    let ghost pre_out = out@;
                    push_all(&mut out, &pb);
                    out.push(10u8);
                    proof {
                        assert(out@ =~= pre_out + (page_break_html() + nl()));
                        lemma_combine_assoc(
                            pre_out,
                            page_break_html() + nl(),
                            process_spec(t, np@, ll.skip(i + 1), fence, vcur),
                        );
                    }
                },
                Directive::TocMark => {
                    let tp = toc_placeholder_vec();
                    let ghost pre_out = out@;
                    push_all(&mut out, &tp);
                    out.push(10u8);
                    proof {
                        assert(out@ =~= pre_out + (toc_placeholder() + nl()));
                        lemma_combine_assoc(
                            pre_out,
                            toc_placeholder() + nl(),
                            process_spec(t, np@, ll.skip(i + 1), fence, vcur),
                        );
                    }
                },
                Directive::Plain => {
                    let ghost pre_out = out@;
                    push_all(&mut out, line);
                    out.push(10u8);
                    proof {
                        assert(out@ =~= pre_out + (line@ + nl()));
                        lemma_combine_assoc(
                            pre_out,
                            line@ + nl(),
                            process_spec(t, np@, ll.skip(i + 1), fence, vcur),
                        );
                    }
                },
            }
        }
        i = i + 1;
    }
    proof {
        assert(ll.skip(ll.len() as int) =~= Seq::<Seq<u8>>::empty());
        let fin = views(visited@).to_set();
        assert(process_spec(t, np@, ll.skip(ll.len() as int), fence, fin) == (
            Ok::<Seq<u8>, ErrView>(Seq::<u8>::empty()),
            fin,
        ));
        assert(out@ + Seq::<u8>::empty() =~= out@);
    }
    Ok(out)
}


/// A path that this build has already visited is rejected as a circular
/// dependency the moment it is named again: a back edge of the inclusion
/// graph aborts resolution at once, before any further recursion, and leaves
/// the visited set as it was.
pub proof fn lemma_revisit_rejected(t: Seq<(Seq<u8>, Seq<u8>)>, p: Seq<u8>, v: Set<Seq<u8>>)
    requires
        v.finite(),
        v.contains(normalize_spec(p)),
    ensures
        resolve_spec(t, p, v) == (
            Err::<Seq<u8>, ErrView>(ErrView::CircularDependency(normalize_spec(p))),
            v,
        ),
{
    lemma_resolve_unfold(t, p, v);
}

/// A resolution that succeeds was no revisit: its start path was not in the
/// visited set before, and is in it afterwards, together with everything that
/// was there already. Threading one visited set through a build therefore
/// lets every file be expanded at most once.
pub proof fn lemma_ok_visits(t: Seq<(Seq<u8>, Seq<u8>)>, p: Seq<u8>, v: Set<Seq<u8>>)
    requires
        v.finite(),
        resolve_spec(t, p, v).0 is Ok,
    ensures
        !v.contains(normalize_spec(p)),
        resolve_spec(t, p, v).1.contains(normalize_spec(p)),
        v.subset_of(resolve_spec(t, p, v).1),
{
    lemma_resolve_unfold(t, p, v);
    let np = normalize_spec(p);
    match lookup_spec(t, np) {
        None => {},
        Some(content) => {
            lemma_lookup_some_in_keys(t, np);
            lemma_unvisited_insert(t, v, np);
            lemma_process_fuel_enough(
                t,
                np,
                lines_of(content),
                false,
                v.insert(np),
                enough_p(t, v.insert(np)),
            );
        },
    }
}

/// Inside a fenced code block every line passes through verbatim, directives
/// included: the line contributes itself and a newline, with no substitution,
/// and the block state carries on.
pub proof fn lemma_fence_verbatim(
    t: Seq<(Seq<u8>, Seq<u8>)>,
    cur: Seq<u8>,
    ls: Seq<Seq<u8>>,
    fence: bool,
    v: Set<Seq<u8>>,
)
    requires
        v.finite(),
        ls.len() > 0,
        if is_fence_line(ls[0]) {
            !fence
        } else {
            fence
        },
    ensures
        process_spec(t, cur, ls, fence, v) == combine(
            ls[0] + nl(),
            process_spec(t, cur, ls.drop_first(), true, v),
        ),
{
    lemma_process_unfold(t, cur, ls, fence, v);
}

/// Outside a fence the page-break and table-of-contents directives are
/// substituted: the line contributes its marker element, never its own text.
pub proof fn lemma_directive_substituted(
    t: Seq<(Seq<u8>, Seq<u8>)>,
    cur: Seq<u8>,
    ls: Seq<Seq<u8>>,
    fence: bool,
    v: Set<Seq<u8>>,
)
    requires
        v.finite(),
        ls.len() > 0,
        !(if is_fence_line(ls[0]) {
            !fence
        } else {
            fence
        }),
        trimmed_is_newpage(ls[0]) || trimmed_is_toc(ls[0]),
    ensures
        process_spec(t, cur, ls, fence, v) == combine(
            (if trimmed_is_newpage(ls[0]) {
                page_break_html()
            } else {
                toc_placeholder()
            }) + nl(),
            process_spec(t, cur, ls.drop_first(), false, v),
        ),
{
    lemma_process_unfold(t, cur, ls, fence, v);
    assert(splice_target(ls[0]) is None) by {
        crate::bytes::lemma_find_from_spec(ls[0], seq![41u8], 0);
    }
}


/// The sandbox-approved splice targets that processing these lines would
/// try to read, in order, with fence state tracked exactly as processing
/// tracks it.
pub open spec fn splice_targets(cur: Seq<u8>, ls: Seq<Seq<u8>>, fence: bool) -> Seq<Seq<u8>>
    decreases ls.len(),
{
    if ls.len() == 0 {
        Seq::empty()
    } else {
        let line = ls[0];
        let fence2 = if is_fence_line(line) {
            !fence
        } else {
            fence
        };
        let rest = splice_targets(cur, ls.drop_first(), fence2);
        if fence2 {
            rest
        } else {
            match splice_target(line) {
                Some(rel) => match child_path_spec(cur, rel) {
                    Some(cp) => seq![cp] + rest,
                    None => rest,
                },
                None => rest,
            }
        }
    }
}

/// The splice targets of the file at the normalized path `q`.
pub open spec fn splice_targets_of(t: Seq<(Seq<u8>, Seq<u8>)>, q: Seq<u8>) -> Seq<Seq<u8>> {
    match lookup_spec(t, q) {
        Some(content) => splice_targets(q, lines_of(content), false),
        None => Seq::empty(),
    }
}

/// One edge of the inclusion graph: the file at `a` names a sandbox-approved
/// target whose normalized path is `b`.
pub open spec fn is_edge(t: Seq<(Seq<u8>, Seq<u8>)>, a: Seq<u8>, b: Seq<u8>) -> bool {
    exists|j: int|
        0 <= j < splice_targets_of(t, a).len() && normalize_spec(
            #[trigger] splice_targets_of(t, a)[j],
        ) == b
}

/// In a run that ends well, every splice target of the processed lines was
/// itself resolved, successfully, from some visited set at least as large.
proof fn lemma_process_children_ok(
    t: Seq<(Seq<u8>, Seq<u8>)>,
    cur: Seq<u8>,
    ls: Seq<Seq<u8>>,
    fence: bool,
    w: Set<Seq<u8>>,
)
    requires
        w.finite(),
        process_spec(t, cur, ls, fence, w).0 is Ok,
    ensures
        forall|j: int|
            0 <= j < splice_targets(cur, ls, fence).len() ==> exists|vm: Set<Seq<u8>>|
                vm.finite() && w.subset_of(vm) && resolve_spec(
                    t,
                    #[trigger] splice_targets(cur, ls, fence)[j],
                    vm,
                ).0 is Ok,
    decreases ls.len(),
{
    if ls.len() == 0 {
    } else {
        lemma_process_unfold(t, cur, ls, fence, w);
        let line = ls[0];
        let fence2 = if is_fence_line(line) {
            !fence
        } else {
            fence
        };
        let targets = splice_targets(cur, ls, fence);
        let rest = ls.drop_first();
        if fence2 {
            lemma_process_children_ok(t, cur, rest, fence2, w);
            assert(targets == splice_targets(cur, rest, fence2));
            assert forall|j: int| 0 <= j < targets.len() implies exists|vm: Set<Seq<u8>>|
                vm.finite() && w.subset_of(vm) && resolve_spec(t, #[trigger] targets[j], vm).0 is Ok by {
                assert(targets[j] == splice_targets(cur, rest, fence2)[j]);
            }
        } else {
            match splice_target(line) {
                Some(rel) => {
                    match child_path_spec(cur, rel) {
                        None => {
                            assert(false);
                        },
                        Some(cp) => {
                            match resolve_spec(t, cp, w) {
                                (Err(_), _) => {
                                    assert(false);
                                },
                                (Ok(_), v2) => {
                                    lemma_ok_visits(t, cp, w);
                                    lemma_resolve_fuel_enough(t, cp, w, enough_r(t, w));
                                    lemma_process_children_ok(t, cur, rest, fence2, v2);
                                    let rest_targets = splice_targets(cur, rest, fence2);
                                    assert(targets == seq![cp] + rest_targets);
                                    assert forall|j: int| 0 <= j < targets.len() implies exists|
                                        vm: Set<Seq<u8>>,
                                    |
                                        vm.finite() && w.subset_of(vm) && resolve_spec(
                                            t,
                                            #[trigger] targets[j],
                                            vm,
                                        ).0 is Ok by {
                                        if j == 0 {
                                            assert(targets[0] == cp);
                                            assert(w.finite() && w.subset_of(w) && resolve_spec(
                                                t,
                                                cp,
                                                w,
                                            ).0 is Ok);
                                        } else {
                                            assert(targets[j] == rest_targets[j - 1]);
                                            let vm = choose|vm: Set<Seq<u8>>|
                                                vm.finite() && v2.subset_of(vm) && resolve_spec(
                                                    t,
                                                    rest_targets[j - 1],
                                                    vm,
                                                ).0 is Ok;
                                            assert(w.subset_of(vm));
                                        }
                                    }
                                },
                            }
                        },
                    }
                },
                None => {
                    lemma_process_children_ok(t, cur, rest, fence2, w);
                    assert(targets == splice_targets(cur, rest, fence2));
                    assert forall|j: int| 0 <= j < targets.len() implies exists|vm: Set<Seq<u8>>|
                        vm.finite() && w.subset_of(vm) && resolve_spec(t, #[trigger] targets[j], vm).0 is Ok by {
                        assert(targets[j] == splice_targets(cur, rest, fence2)[j]);
                    }
                },
            }
        }
    }
}

/// In a run that ends well, every splice target of the resolved file was
/// itself resolved, successfully, from a visited set that already held the
/// file's own path.
proof fn lemma_resolve_children_ok(t: Seq<(Seq<u8>, Seq<u8>)>, p: Seq<u8>, v: Set<Seq<u8>>)
    requires
        v.finite(),
        resolve_spec(t, p, v).0 is Ok,
    ensures
        forall|j: int|
            0 <= j < splice_targets_of(t, normalize_spec(p)).len() ==> exists|vm: Set<Seq<u8>>|
                vm.finite() && v.insert(normalize_spec(p)).subset_of(vm) && resolve_spec(
                    t,
                    #[trigger] splice_targets_of(t, normalize_spec(p))[j],
                    vm,
                ).0 is Ok,
{
    lemma_resolve_unfold(t, p, v);
    let np = normalize_spec(p);
    match lookup_spec(t, np) {
        None => {},
        Some(content) => {
            let v1 = v.insert(np);
            lemma_process_children_ok(t, np, lines_of(content), false, v1);
        },
    }
}

/// Chases a cycle of the inclusion graph through a supposedly successful
/// resolution until it meets its own starting point again, which no
/// successful resolution survives.
proof fn lemma_cycle_chase(
    t: Seq<(Seq<u8>, Seq<u8>)>,
    qs: Seq<Seq<u8>>,
    n: int,
    pn: Seq<u8>,
    vn: Set<Seq<u8>>,
)
    requires
        1 <= n <= qs.len(),
        forall|i: int| 0 <= i < qs.len() - 1 ==> is_edge(t, #[trigger] qs[i], qs[i + 1]),
        is_edge(t, qs.last(), qs[0]),
        vn.finite(),
        vn.contains(qs[0]),
        normalize_spec(pn) == (if n == qs.len() {
            qs[0]
        } else {
            qs[n]
        }),
    ensures
        !(resolve_spec(t, pn, vn).0 is Ok),
    decreases qs.len() - n,
{
    if resolve_spec(t, pn, vn).0 is Ok {
        if n == qs.len() {
            lemma_revisit_rejected(t, pn, vn);
        } else {
            let node = qs[n];
            let next = if n + 1 == qs.len() {
                qs[0]
            } else {
                qs[n + 1]
            };
            assert(is_edge(t, node, next)) by {
                if n + 1 == qs.len() {
                    assert(qs.last() == qs[n]);
                }
            }
            let j = choose|j: int|
                0 <= j < splice_targets_of(t, node).len() && normalize_spec(
                    #[trigger] splice_targets_of(t, node)[j],
                ) == next;
            lemma_resolve_children_ok(t, pn, vn);
            let cp = splice_targets_of(t, node)[j];
            let vm = choose|vm: Set<Seq<u8>>|
                vm.finite() && vn.insert(node).subset_of(vm) && resolve_spec(t, cp, vm).0 is Ok;
            lemma_cycle_chase(t, qs, n + 1, cp, vm);
        }
    }
}

/// No resolution succeeds across a cyclic inclusion graph: when the files of
/// the table link up into a cycle of splice directives and resolution starts
/// at one of them, it never returns an assembled document -- it stops with an
/// error, the back edge itself with `CircularDependency`.
pub proof fn lemma_cycle_never_ok(
    t: Seq<(Seq<u8>, Seq<u8>)>,
    qs: Seq<Seq<u8>>,
    p: Seq<u8>,
    v: Set<Seq<u8>>,
)
    requires
        v.finite(),
        qs.len() >= 1,
        forall|i: int| 0 <= i < qs.len() - 1 ==> is_edge(t, #[trigger] qs[i], qs[i + 1]),
        is_edge(t, qs.last(), qs[0]),
        normalize_spec(p) == qs[0],
    ensures
        !(resolve_spec(t, p, v).0 is Ok),
{
    if resolve_spec(t, p, v).0 is Ok {
        lemma_ok_visits(t, p, v);
        let next = if qs.len() == 1 {
            qs[0]
        } else {
            qs[1]
        };
        assert(is_edge(t, qs[0], next)) by {
            if qs.len() == 1 {
                assert(qs.last() == qs[0]);
            }
        }
        let j = choose|j: int|
            0 <= j < splice_targets_of(t, qs[0]).len() && normalize_spec(
                #[trigger] splice_targets_of(t, qs[0])[j],
            ) == next;
        lemma_resolve_children_ok(t, p, v);
        let cp = splice_targets_of(t, qs[0])[j];
        let vm = choose|vm: Set<Seq<u8>>|
            vm.finite() && v.insert(qs[0]).subset_of(vm) && resolve_spec(t, cp, vm).0 is Ok;
        lemma_cycle_chase(t, qs, 1, cp, vm);
    }
}


/// No resolution succeeds when a cycle of splice directives is merely
/// reachable from the start file: following the route of splice edges from
/// the start into the cycle, a successful resolution would have to expand
/// every file on the way and then revisit the cycle's entry, which no
/// successful resolution survives.
pub proof fn lemma_reachable_cycle_never_ok(
    t: Seq<(Seq<u8>, Seq<u8>)>,
    route: Seq<Seq<u8>>,
    qs: Seq<Seq<u8>>,
    p: Seq<u8>,
    v: Set<Seq<u8>>,
)
    requires
        v.finite(),
        route.len() >= 1,
        normalize_spec(p) == route[0],
        forall|i: int| 0 <= i < route.len() - 1 ==> is_edge(t, #[trigger] route[i], route[i + 1]),
        route.last() == qs[0],
        qs.len() >= 1,
        forall|i: int| 0 <= i < qs.len() - 1 ==> is_edge(t, #[trigger] qs[i], qs[i + 1]),
        is_edge(t, qs.last(), qs[0]),
    ensures
        !(resolve_spec(t, p, v).0 is Ok),
    decreases route.len(),
{
    if route.len() == 1 {
        lemma_cycle_never_ok(t, qs, p, v);
    } else if resolve_spec(t, p, v).0 is Ok {
        assert(is_edge(t, route[0], route[1]));
        let j = choose|j: int|
            0 <= j < splice_targets_of(t, route[0]).len() && normalize_spec(
                #[trigger] splice_targets_of(t, route[0])[j],
            ) == route[1];
        lemma_resolve_children_ok(t, p, v);
        let cp = splice_targets_of(t, route[0])[j];
        let vm = choose|vm: Set<Seq<u8>>|
            vm.finite() && v.insert(route[0]).subset_of(vm) && resolve_spec(t, cp, vm).0 is Ok;
        let route2 = route.drop_first();
        assert(normalize_spec(cp) == route2[0]);
        assert(route2.last() == route.last());
        assert forall|i: int| 0 <= i < route2.len() - 1 implies is_edge(
            t,
            #[trigger] route2[i],
            route2[i + 1],
        ) by {
            assert(route2[i] == route[i + 1]);
            assert(route2[i + 1] == route[i + 2]);
        }
        lemma_reachable_cycle_never_ok(t, route2, qs, cp, vm);
    }
}

} // verus!
