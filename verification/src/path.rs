//! The path sandbox: lexical normalization of `/`-separated paths relative to
//! the project root, and the check that a path stays below that root.
//!
//! Normalization is purely lexical: `.` and empty segments vanish, `..` removes
//! the segment before it, and leading `..` segments survive. A path escapes the
//! sandbox exactly when it is absolute or when its normalized form still starts
//! with a `..` segment, so an escape is detected even when the target does not
//! exist on disk.

use vstd::prelude::*;

use crate::bytes::{split_spec, split_bytes, views, bytes_eq, push_all};

verus! {

pub open spec fn slash() -> u8 {
    '/' as u8
}

pub open spec fn dot_seg() -> Seq<u8> {
    seq!['.' as u8]
}

pub open spec fn dotdot_seg() -> Seq<u8> {
    seq!['.' as u8, '.' as u8]
}

/// The segments of `p`, split at `/`.
pub open spec fn segments_of(p: Seq<u8>) -> Seq<Seq<u8>> {
    split_spec(p, slash())
}

/// Lexical cleaning of a segment list, folded left over an accumulator:
/// empty and `.` segments vanish, `..` removes the previous real segment and
/// otherwise stays, any other segment is kept.
pub open spec fn clean_segs(acc: Seq<Seq<u8>>, segs: Seq<Seq<u8>>) -> Seq<Seq<u8>>
    decreases segs.len(),
{
    if segs.len() == 0 {
        acc
    } else {
        let sg = segs[0];
        let rest = segs.drop_first();
        if sg.len() == 0 || sg == dot_seg() {
            clean_segs(acc, rest)
        } else if sg == dotdot_seg() {
            if acc.len() > 0 && acc.last() != dotdot_seg() {
                clean_segs(acc.drop_last(), rest)
            } else {
                clean_segs(acc.push(sg), rest)
            }
        } else {
            clean_segs(acc.push(sg), rest)
        }
    }
}

/// Segments joined with `/` between them.
pub open spec fn join_segs(segs: Seq<Seq<u8>>) -> Seq<u8>
    decreases segs.len(),
{
    if segs.len() == 0 {
        Seq::empty()
    } else if segs.len() == 1 {
        segs[0]
    } else {
        segs[0] + seq![slash()] + join_segs(segs.drop_first())
    }
}

/// The normalized form of `p`: its cleaned segments joined with `/`.
pub open spec fn normalize_spec(p: Seq<u8>) -> Seq<u8> {
    join_segs(clean_segs(Seq::empty(), segments_of(p)))
}

/// The directory part of `p`: its segments without the last one.
pub open spec fn parent_segs_of(p: Seq<u8>) -> Seq<Seq<u8>> {
    segments_of(p).drop_last()
}

/// The path of an inclusion target named `rel` in the file `cur`, before any
/// sandbox decision: the segments of `cur`'s directory followed by `rel`'s own.
pub open spec fn child_segs_spec(cur: Seq<u8>, rel: Seq<u8>) -> Seq<Seq<u8>> {
    if rel.len() > 0 && rel[0] == slash() {
        segments_of(rel)
    } else {
        parent_segs_of(cur) + segments_of(rel)
    }
}

/// The normalized root-relative path of the target `rel` named in the file
/// `cur`, or nothing when it escapes the sandbox.
pub open spec fn child_path_spec(cur: Seq<u8>, rel: Seq<u8>) -> Option<Seq<u8>> {
    let cleaned = clean_segs(Seq::empty(), child_segs_spec(cur, rel));
    if (rel.len() > 0 && rel[0] == slash()) || (cleaned.len() > 0 && cleaned[0] == dotdot_seg()) {
        None
    } else {
        Some(join_segs(cleaned))
    }
}

fn dot_vec() -> (r: Vec<u8>)
    ensures
        r@ == dot_seg(),
{
    let mut v: Vec<u8> = Vec::new();
    v.push('.' as u8);
    proof {
        assert(v@ =~= dot_seg());
    }
    v
}

fn dotdot_vec() -> (r: Vec<u8>)
    ensures
        r@ == dotdot_seg(),
{
    let mut v: Vec<u8> = Vec::new();
    v.push('.' as u8);
    v.push('.' as u8);
    proof {
        assert(v@ =~= dotdot_seg());
    }
    v
}

/// Runs the cleaning fold over `segs`, starting from the stack `acc`.
fn clean_onto(acc: Vec<Vec<u8>>, segs: &Vec<Vec<u8>>, from: usize) -> (r: Vec<Vec<u8>>)
    requires
        from <= segs@.len(),
    ensures
        views(r@) == clean_segs(views(acc@), views(segs@).skip(from as int)),
{
    let dot = dot_vec();
    let dotdot = dotdot_vec();
    let ghost acc0 = views(acc@);
    let mut stack = acc;
    let mut i: usize = from;
    while i < segs.len()
        invariant
            from <= i <= segs@.len(),
            dot@ == dot_seg(),
            dotdot@ == dotdot_seg(),
            clean_segs(views(stack@), views(segs@).skip(i as int)) == clean_segs(
                acc0,
                views(segs@).skip(from as int),
            ),
        decreases segs@.len() - i,
    {
        let ghost pre_stack = stack@;
        let ghost suffix = views(segs@).skip(i as int);
        proof {
            assert(suffix[0] == views(segs@)[i as int]);
            assert(suffix.drop_first() =~= views(segs@).skip(i + 1));
        }
        let sg = &segs[i];
        if sg.len() == 0 || bytes_eq(sg, &dot) {
        } else if bytes_eq(sg, &dotdot) {
            let do_pop = if stack.len() > 0 {
                !bytes_eq(&stack[stack.len() - 1], &dotdot)
            } else {
                false
            };
            if do_pop {
                proof {
                    assert(views(pre_stack).last() == views(pre_stack)[pre_stack.len() - 1]);
                }
                let _ = stack.pop();
                proof {
                    assert(views(stack@) =~= views(pre_stack).drop_last());
                }
            } else {
                let owned = vstd::slice::slice_to_vec(sg.as_slice());
                stack.push(owned);
                proof {
                    assert(views(stack@) =~= views(pre_stack).push(suffix[0]));
                }
            }
        } else {
            let owned = vstd::slice::slice_to_vec(sg.as_slice());
            stack.push(owned);
            proof {
                assert(views(stack@) =~= views(pre_stack).push(suffix[0]));
            }
        }
        i = i + 1;
    }
    proof {
        assert(views(segs@).skip(segs@.len() as int) =~= Seq::<Seq<u8>>::empty());
    }
    stack
}

/// Joins segments with `/`.
fn join_vec(segs: &Vec<Vec<u8>>) -> (r: Vec<u8>)
    ensures
        r@ == join_segs(views(segs@)),
{
    let mut out: Vec<u8> = Vec::new();
    if segs.len() == 0 {
        proof {
            assert(out@ =~= join_segs(views(segs@)));
        }
        return out;
    }
    proof {
        lemma_join_rest_eq(views(segs@));
    }
    let mut i: usize = 0;
    while i < segs.len()
        invariant
            0 <= i <= segs@.len(),
            segs@.len() > 0,
            join_segs(views(segs@)) == out@ + join_rest(views(segs@), i as int),
        decreases segs@.len() - i,
    {
        let ghost pre = out@;
        if i > 0 {
            out.push('/' as u8);
        }
        push_all(&mut out, &segs[i]);
        proof {
            let vs = views(segs@);
            if i == 0 {
                assert(out@ =~= pre + vs[0]);
                lemma_join_rest_step(vs, 0);
            } else {
                assert(out@ =~= pre + (seq![slash()] + vs[i as int]));
                lemma_join_rest_step(vs, i as int);
            }
        }
        i = i + 1;
    }
    proof {
        assert(join_rest(views(segs@), segs@.len() as int) =~= Seq::<u8>::empty());
    }
    out
}

/// What remains of the join after the first `i` segments have been written.
spec fn join_rest(segs: Seq<Seq<u8>>, i: int) -> Seq<u8>
    decreases segs.len() - i + 1,
{
    if i < 0 || i >= segs.len() {
        Seq::empty()
    } else if i == 0 {
        segs[0] + join_rest(segs, 1)
    } else {
        seq![slash()] + segs[i] + join_rest(segs, i + 1)
    }
}

proof fn lemma_join_rest_step(segs: Seq<Seq<u8>>, i: int)
    requires
        0 <= i < segs.len(),
    ensures
        i == 0 ==> join_rest(segs, 0) == segs[0] + join_rest(segs, 1),
        i > 0 ==> join_rest(segs, i) == (seq![slash()] + segs[i]) + join_rest(segs, i + 1),
{
    if i > 0 {
        assert((seq![slash()] + segs[i]) + join_rest(segs, i + 1) =~= seq![slash()] + segs[i]
            + join_rest(segs, i + 1));
    }
}

/// `join_segs` equals the incremental form used by `join_vec`.
proof fn lemma_join_rest_eq(segs: Seq<Seq<u8>>)
    ensures
        segs.len() > 0 ==> join_segs(segs) == join_rest(segs, 0),
    decreases segs.len(),
{
    if segs.len() == 1 {
        assert(join_rest(segs, 1) =~= Seq::<u8>::empty());
        assert(join_segs(segs) =~= segs[0] + join_rest(segs, 1));
    } else if segs.len() > 1 {
        let rest = segs.drop_first();
        lemma_join_rest_eq(rest);
        lemma_join_rest_shift(segs, 1);
        assert(join_segs(segs) == segs[0] + seq![slash()] + join_segs(rest));
        assert(segs[0] + seq![slash()] + join_rest(rest, 0) =~= segs[0] + (seq![slash()]
            + rest[0] + join_rest(rest, 1)));
        assert(join_segs(segs) =~= segs[0] + join_rest(segs, 1));
    }
}

/// `join_rest` over a dropped head lines up with `join_rest` over the whole.
proof fn lemma_join_rest_shift(segs: Seq<Seq<u8>>, i: int)
    requires
        1 <= i <= segs.len(),
    ensures
        join_rest(segs, i) == if i < segs.len() {
            seq![slash()] + segs.drop_first()[i - 1] + join_rest(segs.drop_first(), i)
        } else {
            Seq::<u8>::empty()
        },
    decreases segs.len() - i + 1,
{
    if i < segs.len() {
        lemma_join_rest_shift(segs, i + 1);
        let rest = segs.drop_first();
        if i + 1 < segs.len() {
            assert(join_rest(rest, i) == seq![slash()] + rest[i] + join_rest(rest, i + 1));
        } else {
            assert(join_rest(rest, i) =~= Seq::<u8>::empty());
        }
    }
}

/// The normalized form of `p`.
pub fn normalize_path(p: &Vec<u8>) -> (r: Vec<u8>)
    ensures
        r@ == normalize_spec(p@),
{
    let segs = split_bytes(p, '/' as u8);
    let start: Vec<Vec<u8>> = Vec::new();
    let ghost start_view = views(start@);
    let cleaned = clean_onto(start, &segs, 0);
    proof {
        assert(start_view =~= Seq::<Seq<u8>>::empty());
        assert(views(segs@).skip(0) =~= views(segs@));
    }
    join_vec(&cleaned)
}

/// Resolves the inclusion target `rel` named in the file at normalized path
/// `cur` against the sandbox root. `Ok` holds the normalized root-relative
/// path; `Err` holds the offending joined path, for the escape report.
pub fn child_path(cur: &Vec<u8>, rel: &Vec<u8>) -> (r: Result<Vec<u8>, Vec<u8>>)
    ensures
        match r {
            Ok(p) => child_path_spec(cur@, rel@) == Some(p@),
            Err(e) => child_path_spec(cur@, rel@) is None && e@ == join_segs(
                child_segs_spec(cur@, rel@),
            ),
        },
{
    let abs = rel.len() > 0 && rel[0] == '/' as u8;
    let mut segs: Vec<Vec<u8>>;
    if abs {
        segs = split_bytes(rel, '/' as u8);
    } else {
        segs = split_bytes(cur, '/' as u8);
        let _ = segs.pop();
        let mut rel_segs = split_bytes(rel, '/' as u8);
        let ghost head = views(segs@);
        segs.append(&mut rel_segs);
        proof {
            assert(views(segs@) =~= head + segments_of(rel@));
            assert(head =~= parent_segs_of(cur@));
        }
    }
    proof {
        assert(views(segs@) == child_segs_spec(cur@, rel@));
    }
    let start: Vec<Vec<u8>> = Vec::new();
    let ghost start_view = views(start@);
    let cleaned = clean_onto(start, &segs, 0);
    proof {
        assert(start_view =~= Seq::<Seq<u8>>::empty());
        assert(views(segs@).skip(0) =~= views(segs@));
    }
    let dotdot = dotdot_vec();
    let escapes = abs || (cleaned.len() > 0 && bytes_eq(&cleaned[0], &dotdot));
    if escapes {
        proof {
            if cleaned.len() > 0 {
                assert(views(cleaned@)[0] == cleaned@[0]@);
            }
        }
        Err(join_vec(&segs))
    } else {
        Ok(join_vec(&cleaned))
    }
}


/// The sandbox decision, in one sentence: an inclusion target is refused
/// exactly when it is absolute or when, after lexical cleaning against its
/// including file's directory, its path still begins with a
/// parent-directory segment -- that is, exactly when it falls outside the
/// project root, whether or not the target exists.
pub proof fn lemma_sandbox_decision(cur: Seq<u8>, rel: Seq<u8>)
    ensures
        child_path_spec(cur, rel) is None <==> ((rel.len() > 0 && rel[0] == slash()) || ({
            let cleaned = clean_segs(Seq::empty(), child_segs_spec(cur, rel));
            cleaned.len() > 0 && cleaned[0] == dotdot_seg()
        })),
{
}

} // verus!
