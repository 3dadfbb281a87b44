//! Byte-sequence utilities shared by the whole library: whitespace trimming,
//! prefix tests, substring search and replacement, all specified over `Seq<u8>`.

use vstd::prelude::*;

verus! {

/// ASCII whitespace, the characters `str::trim` removes from ASCII text.
pub open spec fn is_space(b: u8) -> bool {
    b == 32 || (9 <= b && b <= 13)
}

/// How many whitespace bytes `s` starts with.
pub open spec fn leading_spaces(s: Seq<u8>) -> nat
    decreases s.len(),
{
    if s.len() == 0 || !is_space(s[0]) {
        0
    } else {
        1 + leading_spaces(s.drop_first())
    }
}

/// How many whitespace bytes `s` ends with.
pub open spec fn trailing_spaces(s: Seq<u8>) -> nat
    decreases s.len(),
{
    if s.len() == 0 || !is_space(s.last()) {
        0
    } else {
        1 + trailing_spaces(s.drop_last())
    }
}

/// `s` without leading and trailing ASCII whitespace. Trimming is
/// deliberately ASCII-only: the directives this library recognizes are pure
/// ASCII, and a line padded with any other whitespace stays plain text.
pub open spec fn trim_spec(s: Seq<u8>) -> Seq<u8> {
    if leading_spaces(s) == s.len() {
        Seq::empty()
    } else {
        s.subrange(leading_spaces(s) as int, s.len() - trailing_spaces(s))
    }
}

proof fn lemma_leading_spaces_bound(s: Seq<u8>)
    ensures
        leading_spaces(s) <= s.len(),
        forall|i: int| 0 <= i < leading_spaces(s) ==> is_space(#[trigger] s[i]),
        leading_spaces(s) < s.len() ==> !is_space(s[leading_spaces(s) as int]),
    decreases s.len(),
{
    if s.len() == 0 || !is_space(s[0]) {
    } else {
        lemma_leading_spaces_bound(s.drop_first());
        assert forall|i: int| 0 <= i < leading_spaces(s) implies is_space(#[trigger] s[i]) by {
            if i > 0 {
                assert(s.drop_first()[i - 1] == s[i]);
            }
        }
    }
}

proof fn lemma_trailing_spaces_bound(s: Seq<u8>)
    ensures
        trailing_spaces(s) <= s.len(),
        forall|i: int| s.len() - trailing_spaces(s) <= i < s.len() ==> is_space(#[trigger] s[i]),
        trailing_spaces(s) < s.len() ==> !is_space(s[s.len() - trailing_spaces(s) - 1]),
    decreases s.len(),
{
    if s.len() == 0 || !is_space(s.last()) {
    } else {
        lemma_trailing_spaces_bound(s.drop_last());
        assert forall|i: int| s.len() - trailing_spaces(s) <= i < s.len() implies is_space(
            #[trigger] s[i],
        ) by {
            if i < s.len() - 1 {
                assert(s.drop_last()[i] == s[i]);
            }
        }
    }
}

/// A prefix of whitespace can be counted from any index on.
proof fn lemma_leading_spaces_is_least(s: Seq<u8>, n: int)
    requires
        0 <= n <= s.len(),
        forall|i: int| 0 <= i < n ==> is_space(#[trigger] s[i]),
        n < s.len() ==> !is_space(s[n]),
    ensures
        leading_spaces(s) == n,
    decreases s.len(),
{
    if s.len() == 0 {
    } else if !is_space(s[0]) {
    } else {
        assert(n >= 1);
        assert forall|i: int| 0 <= i < n - 1 implies is_space(#[trigger] s.drop_first()[i]) by {
            assert(s.drop_first()[i] == s[i + 1]);
        }
        if n - 1 < s.drop_first().len() {
            assert(s.drop_first()[n - 1] == s[n]);
        }
        lemma_leading_spaces_is_least(s.drop_first(), n - 1);
    }
}

proof fn lemma_trailing_spaces_is_least(s: Seq<u8>, n: int)
    requires
        0 <= n <= s.len(),
        forall|i: int| s.len() - n <= i < s.len() ==> is_space(#[trigger] s[i]),
        n < s.len() ==> !is_space(s[s.len() - n - 1]),
    ensures
        trailing_spaces(s) == n,
    decreases s.len(),
{
    if s.len() == 0 {
    } else if !is_space(s.last()) {
    } else {
        assert(n >= 1);
        assert forall|i: int| s.drop_last().len() - (n - 1) <= i < s.drop_last().len() implies is_space(
            #[trigger] s.drop_last()[i],
        ) by {
            assert(s.drop_last()[i] == s[i]);
        }
        if n - 1 < s.drop_last().len() {
            assert(s.drop_last()[s.drop_last().len() - (n - 1) - 1] == s[s.len() - n - 1]);
        }
        lemma_trailing_spaces_is_least(s.drop_last(), n - 1);
    }
}

/// `s` with leading and trailing ASCII whitespace removed.
pub fn trimmed(s: &Vec<u8>) -> (r: Vec<u8>)
    ensures
        r@ == trim_spec(s@),
{
    let n = s.len();
    let mut lo: usize = 0;
    while lo < n && (s[lo] == 32 || (9 <= s[lo] && s[lo] <= 13))
        invariant
            0 <= lo <= n,
            n == s@.len(),
            forall|i: int| 0 <= i < lo ==> is_space(#[trigger] s@[i]),
        decreases n - lo,
    {
        lo = lo + 1;
    }
    proof {
        lemma_leading_spaces_is_least(s@, lo as int);
    }
    if lo == n {
        proof {
            assert(trim_spec(s@) =~= Seq::<u8>::empty());
        }
        return Vec::new();
    }
    let mut hi: usize = n;
    while hi > 0 && (s[hi - 1] == 32 || (9 <= s[hi - 1] && s[hi - 1] <= 13))
        invariant
            0 <= hi <= n,
            n == s@.len(),
            forall|i: int| hi <= i < n ==> is_space(#[trigger] s@[i]),
        decreases hi,
    {
        hi = hi - 1;
    }
    proof {
        lemma_trailing_spaces_is_least(s@, n - hi);
        lemma_leading_spaces_bound(s@);
        assert(!is_space(s@[lo as int]));
        assert(hi > lo);
    }
    let r = vstd::slice::slice_to_vec(&s.as_slice()[lo..hi]);
    proof {
        assert(r@ =~= trim_spec(s@));
    }
    r
}

/// True when `p` is a prefix of `s`.
pub fn starts_with(s: &Vec<u8>, p: &Vec<u8>) -> (r: bool)
    ensures
        r <==> p@.is_prefix_of(s@),
{
    if p.len() > s.len() {
        return false;
    }
    let mut i: usize = 0;
    while i < p.len()
        invariant
            0 <= i <= p@.len(),
            p@.len() <= s@.len(),
            forall|j: int| 0 <= j < i ==> s@[j] == p@[j],
        decreases p@.len() - i,
    {
        if s[i] != p[i] {
            assert(!p@.is_prefix_of(s@)) by {
                assert(p@[i as int] != s@.subrange(0, p@.len() as int)[i as int]);
            }
            return false;
        }
        i = i + 1;
    }
    assert(p@ =~= s@.subrange(0, p@.len() as int));
    true
}

/// True when the two vectors hold the same bytes.
pub fn bytes_eq(a: &Vec<u8>, b: &Vec<u8>) -> (r: bool)
    ensures
        r <==> a@ == b@,
{
    if a.len() != b.len() {
        return false;
    }
    let mut i: usize = 0;
    while i < a.len()
        invariant
            0 <= i <= a@.len(),
            a@.len() == b@.len(),
            forall|j: int| 0 <= j < i ==> a@[j] == b@[j],
        decreases a@.len() - i,
    {
        if a[i] != b[i] {
            return false;
        }
        i = i + 1;
    }
    proof {
        assert(a@ =~= b@);
    }
    true
}

/// True when `pat` occurs in `s` starting at index `i`.
pub open spec fn match_at(s: Seq<u8>, pat: Seq<u8>, i: int) -> bool {
    0 <= i && i + pat.len() <= s.len() && s.subrange(i, i + pat.len()) == pat
}

/// The least index `>= i` at which `pat` occurs in `s`, if any.
pub open spec fn find_from(s: Seq<u8>, pat: Seq<u8>, i: int) -> Option<int>
    decreases s.len() - i + 1,
{
    if i < 0 || i + pat.len() > s.len() {
        None
    } else if match_at(s, pat, i) {
        Some(i)
    } else {
        find_from(s, pat, i + 1)
    }
}

pub proof fn lemma_find_from_spec(s: Seq<u8>, pat: Seq<u8>, i: int)
    requires
        0 <= i,
    ensures
        match find_from(s, pat, i) {
            Some(j) => match_at(s, pat, j) && i <= j && forall|k: int|
                i <= k < j ==> !match_at(s, pat, k),
            None => forall|k: int| i <= k ==> !match_at(s, pat, k),
        },
    decreases s.len() - i + 1,
{
    if i + pat.len() > s.len() {
    } else if match_at(s, pat, i) {
    } else {
        lemma_find_from_spec(s, pat, i + 1);
    }
}

/// Whether `pat` occurs anywhere in `s`.
pub open spec fn contains_sub(s: Seq<u8>, pat: Seq<u8>) -> bool {
    find_from(s, pat, 0) is Some
}

fn match_at_exec(s: &Vec<u8>, pat: &Vec<u8>, i: usize) -> (r: bool)
    requires
        i <= s@.len(),
    ensures
        r <==> match_at(s@, pat@, i as int),
{
    if pat.len() > s.len() - i {
        return false;
    }
    let mut j: usize = 0;
    while j < pat.len()
        invariant
            0 <= j <= pat@.len(),
            i + pat@.len() <= s@.len(),
            s@.len() <= usize::MAX,
            forall|k: int| 0 <= k < j ==> s@[i + k] == pat@[k],
        decreases pat@.len() - j,
    {
        if s[i + j] != pat[j] {
            assert(!match_at(s@, pat@, i as int)) by {
                assert(s@.subrange(i as int, i + pat@.len())[j as int] == s@[i + j]);
            }
            return false;
        }
        j = j + 1;
    }
    proof {
        assert(s@.subrange(i as int, i + pat@.len()) =~= pat@);
    }
    true
}

/// The least index `>= from` at which `pat` occurs in `s`, if any.
pub fn find_sub(s: &Vec<u8>, pat: &Vec<u8>, from: usize) -> (r: Option<usize>)
    requires
        from <= s@.len(),
        pat@.len() > 0,
    ensures
        match r {
            Some(j) => Some(j as int) == find_from(s@, pat@, from as int),
            None => find_from(s@, pat@, from as int) is None,
        },
{
    if pat.len() > s.len() || from > s.len() - pat.len() {
        proof {
            lemma_find_from_none(s@, pat@, from as int);
        }
        return None;
    }
    let last = s.len() - pat.len();
    let mut i: usize = from;
    while i <= last
        invariant
            from <= i,
            i <= last + 1,
            last == s@.len() - pat@.len(),
            0 < pat@.len() <= s@.len(),
            s@.len() <= usize::MAX,
            forall|k: int| from <= k < i ==> !match_at(s@, pat@, k),
        decreases last + 1 - i,
    {
        if match_at_exec(s, pat, i) {
            proof {
                lemma_find_from_unroll(s@, pat@, from as int, i as int);
            }
            return Some(i);
        }
        i = i + 1;
    }
    proof {
        lemma_find_from_none(s@, pat@, from as int);
    }
    None
}

proof fn lemma_find_from_unroll(s: Seq<u8>, pat: Seq<u8>, from: int, j: int)
    requires
        0 <= from <= j,
        match_at(s, pat, j),
        forall|k: int| from <= k < j ==> !match_at(s, pat, k),
    ensures
        find_from(s, pat, from) == Some(j),
    decreases j - from,
{
    if from < j {
        lemma_find_from_unroll(s, pat, from + 1, j);
    }
}

proof fn lemma_find_from_none(s: Seq<u8>, pat: Seq<u8>, from: int)
    requires
        0 <= from,
        forall|k: int| from <= k && k + pat.len() <= s.len() ==> !match_at(s, pat, k),
    ensures
        find_from(s, pat, from) is None,
    decreases s.len() - from + 1,
{
    if from + pat.len() <= s.len() {
        lemma_find_from_none(s, pat, from + 1);
    }
}

/// `s` with every occurrence of `pat` replaced by `rep`, scanning left to right
/// without rescanning replaced text.
pub open spec fn replace_all_spec(s: Seq<u8>, pat: Seq<u8>, rep: Seq<u8>) -> Seq<u8>
    decreases s.len(),
    via replace_all_spec_dec
{
    if pat.len() == 0 {
        s
    } else {
        match find_from(s, pat, 0) {
            None => s,
            Some(i) => s.take(i) + rep + replace_all_spec(
                s.skip(i + pat.len()),
                pat,
                rep,
            ),
        }
    }
}

#[via_fn]
proof fn replace_all_spec_dec(s: Seq<u8>, pat: Seq<u8>, rep: Seq<u8>) {
    if pat.len() > 0 {
        match find_from(s, pat, 0) {
            None => {},
            Some(i) => {
                lemma_find_from_le(s, pat, 0, i);
            },
        }
    }
}

proof fn lemma_find_from_le(s: Seq<u8>, pat: Seq<u8>, i: int, j: int)
    requires
        0 <= i,
        find_from(s, pat, i) == Some(j),
    ensures
        i <= j,
        j + pat.len() <= s.len(),
    decreases s.len() - i + 1,
{
    if i + pat.len() > s.len() {
    } else if match_at(s, pat, i) {
    } else {
        lemma_find_from_le(s, pat, i + 1, j);
    }
}

/// `s` with every occurrence of `pat` replaced by `rep`.
pub fn replace_all(s: &Vec<u8>, pat: &Vec<u8>, rep: &Vec<u8>) -> (r: Vec<u8>)
    requires
        pat@.len() > 0,
    ensures
        r@ == replace_all_spec(s@, pat@, rep@),
{
    let mut out: Vec<u8> = Vec::new();
    let mut rest: Vec<u8> = s.clone();
    loop
        invariant
            pat@.len() > 0,
            replace_all_spec(s@, pat@, rep@) == out@ + replace_all_spec(rest@, pat@, rep@),
        ensures
            out@ == replace_all_spec(s@, pat@, rep@),
        decreases rest@.len(),
    {
        match find_sub(&rest, pat, 0) {
            None => {
                let ghost old_out = out@;
                let ghost old_rest = rest@;
                out.append(&mut rest);
                proof {
                    assert(out@ == old_out + old_rest);
                }
                break;
            },
            Some(i) => {
                let rest_len = rest.len();
                proof {
                    lemma_find_from_le(rest@, pat@, 0, i as int);
                    assert(i + pat@.len() <= rest_len);
                }
                let ghost old_out = out@;
                let ghost old_rest = rest@;
                out.extend_from_slice(&rest.as_slice()[0..i]);
                out.extend_from_slice(rep.as_slice());
                let tail_start = i + pat.len();
                rest = vstd::slice::slice_to_vec(&rest.as_slice()[tail_start..rest_len]);
                proof {
                    assert(out@ =~= old_out + old_rest.take(i as int) + rep@);
                    assert(rest@ =~= old_rest.skip(i + pat@.len()));
                    assert(replace_all_spec(old_rest, pat@, rep@) == old_rest.take(i as int)
                        + rep@ + replace_all_spec(rest@, pat@, rep@));
                    assert(out@ + replace_all_spec(rest@, pat@, rep@) == old_out
                        + replace_all_spec(old_rest, pat@, rep@)) by {
                        assert(old_out + (old_rest.take(i as int) + rep@ + replace_all_spec(
                            rest@,
                            pat@,
                            rep@,
                        )) =~= (old_out + old_rest.take(i as int) + rep@) + replace_all_spec(
                            rest@,
                            pat@,
                            rep@,
                        ));
                    }
                }
            },
        }
    }
    out
}

/// Appends all of `src` to `dst`.
pub fn push_all(dst: &mut Vec<u8>, src: &Vec<u8>)
    ensures
        final(dst)@ == old(dst)@ + src@,
{
    dst.extend_from_slice(src.as_slice());
}

/// The views of a sequence of byte vectors.
pub open spec fn views(v: Seq<Vec<u8>>) -> Seq<Seq<u8>> {
    v.map_values(|x: Vec<u8>| x@)
}

/// True when some element of `v` holds the bytes `x`.
pub fn contains_bytes(v: &Vec<Vec<u8>>, x: &Vec<u8>) -> (r: bool)
    ensures
        r <==> views(v@).contains(x@),
{
    let mut i: usize = 0;
    while i < v.len()
        invariant
            0 <= i <= v@.len(),
            forall|j: int| 0 <= j < i ==> views(v@)[j] != x@,
        decreases v@.len() - i,
    {
        if bytes_eq(&v[i], x) {
            assert(views(v@)[i as int] == x@);
            return true;
        }
        i = i + 1;
    }
    false
}

/// `s` split at every occurrence of the byte `sep`; never empty, and a trailing
/// separator yields a trailing empty piece.
pub open spec fn split_spec(s: Seq<u8>, sep: u8) -> Seq<Seq<u8>>
    decreases s.len(),
    via split_spec_dec
{
    match find_from(s, seq![sep], 0) {
        None => seq![s],
        Some(i) => seq![s.take(i)] + split_spec(s.skip(i + 1), sep),
    }
}

#[via_fn]
proof fn split_spec_dec(s: Seq<u8>, sep: u8) {
    match find_from(s, seq![sep], 0) {
        None => {},
        Some(i) => {
            lemma_find_from_le(s, seq![sep], 0, i);
        },
    }
}

/// Matching at an offset in `s` is matching at the shifted offset in `s.skip(pos)`.
proof fn lemma_match_at_skip(s: Seq<u8>, pat: Seq<u8>, pos: int, k: int)
    requires
        0 <= pos <= s.len(),
        0 <= k,
    ensures
        match_at(s, pat, pos + k) <==> match_at(s.skip(pos), pat, k),
{
    if k + pat.len() <= s.skip(pos).len() {
        assert(s.skip(pos).subrange(k, k + pat.len()) =~= s.subrange(
            pos + k,
            pos + k + pat.len(),
        ));
    }
}

/// Searching from `pos` is searching the suffix that starts there.
pub proof fn lemma_find_skip(s: Seq<u8>, pat: Seq<u8>, pos: int)
    requires
        0 <= pos <= s.len(),
    ensures
        find_from(s, pat, pos) == match find_from(s.skip(pos), pat, 0) {
            None => None::<int>,
            Some(j) => Some(j + pos),
        },
{
    lemma_find_from_spec(s.skip(pos), pat, 0);
    match find_from(s.skip(pos), pat, 0) {
        None => {
            assert forall|k: int| pos <= k && k + pat.len() <= s.len() implies !match_at(
                s,
                pat,
                k,
            ) by {
                lemma_match_at_skip(s, pat, pos, k - pos);
            }
            lemma_find_from_none(s, pat, pos);
        },
        Some(j) => {
            lemma_match_at_skip(s, pat, pos, j);
            assert forall|k: int| pos <= k < pos + j implies !match_at(s, pat, k) by {
                lemma_match_at_skip(s, pat, pos, k - pos);
            }
            lemma_find_from_unroll(s, pat, pos, pos + j);
        },
    }
}

/// `s` split at every occurrence of `sep`.
pub fn split_bytes(s: &Vec<u8>, sep: u8) -> (r: Vec<Vec<u8>>)
    ensures
        views(r@) == split_spec(s@, sep),
{
    let mut segs: Vec<Vec<u8>> = Vec::new();
    let mut pos: usize = 0;
    let mut sep_pat: Vec<u8> = Vec::new();
    sep_pat.push(sep);
    assert(sep_pat@ =~= seq![sep]);
    let total = s.len();
    proof {
        assert(s@.len() == total);
        assert(s@.skip(0) =~= s@);
        assert(views(segs@) + split_spec(s@, sep) =~= split_spec(s@, sep));
    }
    loop
        invariant_except_break
            0 <= pos <= s@.len(),
            sep_pat@ == seq![sep],
            s@.len() <= usize::MAX,
            split_spec(s@, sep) == views(segs@) + split_spec(s@.skip(pos as int), sep),
        ensures
            views(segs@) == split_spec(s@, sep),
        decreases s@.len() - pos,
    {
        let slen = s.len();
        match find_sub(s, &sep_pat, pos) {
            None => {
                let ghost old_segs = segs@;
                let piece = vstd::slice::slice_to_vec(&s.as_slice()[pos..slen]);
                segs.push(piece);
                proof {
                    lemma_find_skip(s@, sep_pat@, pos as int);
                    assert(split_spec(s@.skip(pos as int), sep) =~= seq![s@.skip(pos as int)]);
                    assert(views(segs@) =~= views(old_segs) + seq![s@.skip(pos as int)]);
                }
                break;
            },
            Some(i) => {
                proof {
                    lemma_find_from_le(s@, sep_pat@, pos as int, i as int);
                    lemma_find_from_spec(s@, sep_pat@, pos as int);
                    lemma_find_skip(s@, sep_pat@, pos as int);
                }
                let ghost old_segs = segs@;
                let ghost old_pos = pos as int;
                let piece = vstd::slice::slice_to_vec(&s.as_slice()[pos..i]);
                segs.push(piece);
                pos = i + 1;
                proof {
                    let suffix = s@.skip(old_pos);
                    assert(split_spec(suffix, sep) == seq![suffix.take(i - old_pos)]
                        + split_spec(suffix.skip(i - old_pos + 1), sep));
                    assert(suffix.take(i - old_pos) =~= s@.subrange(old_pos, i as int));
                    assert(suffix.skip(i - old_pos + 1) =~= s@.skip(pos as int));
                    assert(views(segs@) =~= views(old_segs) + seq![s@.subrange(old_pos, i as int)]);
                    assert(views(segs@) + split_spec(s@.skip(pos as int), sep) =~= views(old_segs)
                        + split_spec(suffix, sep));
                }
            },
        }
    }
    segs
}

/// The UTF-8 encoding of a text.
pub uninterp spec fn utf8_of(s: Seq<char>) -> Seq<u8>;

/// Relies on str::as_bytes: the UTF-8 bytes of the text, which depend on its
/// characters alone; an empty text has no bytes.
#[verifier::external_body]
pub(crate) fn str_bytes(s: &str) -> (r: Vec<u8>)
    ensures
        r@ == utf8_of(s@),
        s@.len() == 0 ==> r@.len() == 0,
{
    s.as_bytes().to_vec()
}

/// The decimal digits of `n`.
pub open spec fn dec_digits(n: nat) -> Seq<u8>
    decreases n,
{
    if n < 10 {
        seq![(48 + n) as u8]
    } else {
        dec_digits(n / 10) + seq![(48 + n % 10) as u8]
    }
}

/// Appends the decimal form of `n` to `out`.
pub fn push_u8_decimal(out: &mut Vec<u8>, n: u8)
    ensures
        final(out)@ == old(out)@ + dec_digits(n as nat),
{
    let ghost pre = out@;
    if n >= 100 {
        out.push(48 + n / 100);
        out.push(48 + (n / 10) % 10);
        out.push(48 + n % 10);
        proof {
            assert((n as nat) / 10 / 10 == (n as nat) / 100) by (nonlinear_arith);
            assert((n as nat) / 10 >= 10);
            assert((n as nat) / 10 < 100) by (nonlinear_arith);
            assert(dec_digits((n as nat) / 10) == dec_digits((n as nat) / 100) + seq![
                (48 + ((n as nat) / 10) % 10) as u8,
            ]);
            assert(dec_digits((n as nat) / 100) =~= seq![(48 + (n as nat) / 100) as u8]);
            assert(out@ =~= pre + dec_digits(n as nat));
        }
    } else if n >= 10 {
        out.push(48 + n / 10);
        out.push(48 + n % 10);
        proof {
            assert(dec_digits((n as nat) / 10) =~= seq![(48 + (n as nat) / 10) as u8]);
            assert(out@ =~= pre + dec_digits(n as nat));
        }
    } else {
        out.push(48 + n);
        proof {
            assert(out@ =~= pre + dec_digits(n as nat));
        }
    }
}

/// A line without its trailing carriage return, if it has one.
pub open spec fn strip_cr(line: Seq<u8>) -> Seq<u8> {
    if line.len() > 0 && line.last() == 13u8 {
        line.drop_last()
    } else {
        line
    }
}

/// The lines of `s`: split at every newline, a trailing carriage return
/// removed from each newline-terminated piece, and no final empty line for
/// text that ends in a newline. A final piece without a newline keeps any
/// carriage return it ends in.
pub open spec fn lines_of(s: Seq<u8>) -> Seq<Seq<u8>> {
    let raw = split_spec(s, 10u8);
    let head = raw.drop_last().map_values(|l: Seq<u8>| strip_cr(l));
    if raw.last().len() == 0 {
        head
    } else {
        head.push(raw.last())
    }
}

/// The lines of `s`.
pub fn split_lines(s: &Vec<u8>) -> (r: Vec<Vec<u8>>)
    ensures
        views(r@) == lines_of(s@),
{
    let mut raw = split_bytes(s, 10u8);
    let ghost rv = views(raw@);
    proof {
        assert(rv.len() > 0);
    }
    let last_piece = raw.pop().unwrap();
    let ghost head = views(raw@);
    proof {
        assert(head =~= rv.drop_last());
        assert(last_piece@ == rv.last());
    }
    let mut out: Vec<Vec<u8>> = Vec::new();
    let mut i: usize = 0;
    while i < raw.len()
        invariant
            0 <= i <= raw@.len(),
            head == views(raw@),
            views(out@) =~= head.take(i as int).map_values(|l: Seq<u8>| strip_cr(l)),
        decreases raw@.len() - i,
    {
        let ghost pre = views(out@);
        let mut line = vstd::slice::slice_to_vec(raw[i].as_slice());
        if line.len() > 0 && line[line.len() - 1] == 13u8 {
            let _ = line.pop();
        }
        proof {
            assert(line@ == strip_cr(head[i as int]));
        }
        out.push(line);
        proof {
            assert(views(out@) =~= pre.push(strip_cr(head[i as int])));
            assert(head.take(i + 1).map_values(|l: Seq<u8>| strip_cr(l)) =~= head.take(
                i as int,
            ).map_values(|l: Seq<u8>| strip_cr(l)).push(strip_cr(head[i as int])));
        }
        i = i + 1;
    }
    proof {
        assert(head.take(head.len() as int) =~= head);
    }
    if last_piece.len() > 0 {
        let ghost pre = views(out@);
        out.push(last_piece);
        proof {
            assert(views(out@) =~= pre.push(rv.last()));
        }
    }
    out
}

} // verus!
