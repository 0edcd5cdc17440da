//! Literal, case-sensitive substring replacement over byte strings.
//!
//! The substitution scans the text once, left to right, and replaces every
//! non-overlapping occurrence of a pattern by a replacement string.

use vstd::prelude::*;

verus! {

/// True when `pat` occurs in `s` starting at index `i`.
pub open spec fn match_at(s: Seq<u8>, pat: Seq<u8>, i: int) -> bool {
    0 <= i && i + pat.len() <= s.len() && s.subrange(i, i + pat.len()) == pat
}

/// Number of occurrences of `pat` in `s` that a greedy left-to-right scan
/// for non-overlapping occurrences finds.
pub open spec fn occurrences(s: Seq<u8>, pat: Seq<u8>) -> nat
    decreases s.len(),
{
    if pat.len() == 0 || s.len() < pat.len() {
        0
    } else if s.take(pat.len() as int) == pat {
        1 + occurrences(s.skip(pat.len() as int), pat)
    } else {
        occurrences(s.skip(1), pat)
    }
}

/// The text that results from replacing every non-overlapping occurrence of
/// `pat` in `s` by `rep`, scanning left to right.
pub open spec fn replaced(s: Seq<u8>, pat: Seq<u8>, rep: Seq<u8>) -> Seq<u8>
    decreases s.len(),
{
    if pat.len() == 0 || s.len() < pat.len() {
        s
    } else if s.take(pat.len() as int) == pat {
        rep + replaced(s.skip(pat.len() as int), pat, rep)
    } else {
        seq![s[0]] + replaced(s.skip(1), pat, rep)
    }
}

/// Compares `pat` against the bytes of `s` starting at index `i`.
fn matches_at(s: &Vec<u8>, pat: &Vec<u8>, i: usize) -> (r: bool)
    requires
        i + pat@.len() <= s@.len(),
    ensures
        r == (s@.subrange(i as int, i + pat@.len()) == pat@),
{
    let n = s.len();
    let mut j: usize = 0;
    while j < pat.len()
        invariant
            n == s@.len(),
            i + pat@.len() <= s@.len(),
            0 <= j <= pat@.len(),
            forall|k: int| 0 <= k < j ==> s@[i + k] == pat@[k],
        decreases pat@.len() - j,
    {
        if s[i + j] != pat[j] {
            proof {
                assert(s@.subrange(i as int, i + pat@.len())[j as int] != pat@[j as int]);
            }
            return false;
        }
        j += 1;
    }
    proof {
        assert(s@.subrange(i as int, i + pat@.len()) =~= pat@);
    }
    true
}

/// Replaces every non-overlapping occurrence of `pat` in `s` by `rep`,
/// scanning left to right; the rest of the text is kept byte for byte.
pub fn replace_all(s: &Vec<u8>, pat: &Vec<u8>, rep: &Vec<u8>) -> (r: Vec<u8>)
    requires
        pat@.len() > 0,
    ensures
        r@ == replaced(s@, pat@, rep@),
{
    let mut out: Vec<u8> = Vec::new();
    let mut i: usize = 0;
    proof {
        assert(s@.skip(0) =~= s@);
        assert(Seq::<u8>::empty() + replaced(s@, pat@, rep@) =~= replaced(s@, pat@, rep@));
    }
    while i < s.len()
        invariant
            i <= s@.len(),
            pat@.len() > 0,
            out@ + replaced(s@.skip(i as int), pat@, rep@) == replaced(s@, pat@, rep@),
        decreases s@.len() - i,
    {
        let ghost rest = s@.skip(i as int);
        if s.len() - i >= pat.len() && matches_at(s, pat, i) {
            proof {
                assert(rest.take(pat@.len() as int) =~= s@.subrange(i as int, i + pat@.len()));
                assert(rest.skip(pat@.len() as int) =~= s@.skip(i + pat@.len()));
                assert(replaced(rest, pat@, rep@) == rep@ + replaced(
                    s@.skip(i + pat@.len()),
                    pat@,
                    rep@,
                ));
            }
            let ghost out_before = out@;
            let mut j: usize = 0;
            while j < rep.len()
                invariant
                    0 <= j <= rep@.len(),
                    out@ == out_before + rep@.take(j as int),
                decreases rep@.len() - j,
            {
                let b = rep[j];
                out.push(b);
                proof {
                    assert(out_before + rep@.take(j as int) + seq![rep@[j as int]]
                        =~= out_before + rep@.take(j + 1));
                }
                j += 1;
            }
            proof {
                assert(out@ =~= out_before + rep@);
                assert(out_before + rep@ + replaced(s@.skip(i + pat@.len()), pat@, rep@)
                    =~= out_before + (rep@ + replaced(s@.skip(i + pat@.len()), pat@, rep@)));
            }
            i += pat.len();
        } else {
            proof {
                assert(rest.len() > 0);
                assert(rest[0] == s@[i as int]);
                assert(rest.skip(1) =~= s@.skip(i + 1));
                if rest.len() >= pat@.len() {
                    assert(rest.take(pat@.len() as int) =~= s@.subrange(i as int, i + pat@.len()));
                    assert(replaced(rest, pat@, rep@) == seq![rest[0]] + replaced(
                        rest.skip(1),
                        pat@,
                        rep@,
                    ));
                } else {
                    assert(replaced(rest, pat@, rep@) == rest);
                    assert(rest.skip(1).len() < pat@.len());
                    assert(replaced(rest.skip(1), pat@, rep@) == rest.skip(1));
                    assert(rest =~= seq![rest[0]] + rest.skip(1));
                }
                assert(replaced(rest, pat@, rep@) == seq![s@[i as int]] + replaced(
                    s@.skip(i + 1),
                    pat@,
                    rep@,
                ));
            }
            let ghost out_before = out@;
            let b = s[i];
            out.push(b);
            proof {
                assert(out_before + seq![s@[i as int]] + replaced(s@.skip(i + 1), pat@, rep@)
                    =~= out_before + (seq![s@[i as int]] + replaced(s@.skip(i + 1), pat@, rep@)));
            }
            i += 1;
        }
    }
    proof {
        assert(s@.skip(i as int) =~= Seq::<u8>::empty());
        assert(replaced(s@.skip(i as int), pat@, rep@) == Seq::<u8>::empty());
        assert(out@ + Seq::<u8>::empty() =~= out@);
    }
    out
}

/// Tests whether `s` ends in `suffix`.
pub fn ends_with(s: &Vec<u8>, suffix: &Vec<u8>) -> (r: bool)
    ensures
        r == suffix@.is_suffix_of(s@),
{
    let n = s.len();
    if suffix.len() > n {
        return false;
    }
    let off = n - suffix.len();
    let mut j: usize = 0;
    while j < suffix.len()
        invariant
            n == s@.len(),
            suffix@.len() <= n,
            off == n - suffix@.len(),
            0 <= j <= suffix@.len(),
            forall|k: int| 0 <= k < j ==> s@[off + k] == suffix@[k],
        decreases suffix@.len() - j,
    {
        if s[off + j] != suffix[j] {
            proof {
                assert(s@.subrange(off as int, s@.len() as int)[j as int] != suffix@[j as int]);
            }
            return false;
        }
        j += 1;
    }
    proof {
        assert(suffix@ =~= s@.subrange(off as int, s@.len() as int));
    }
    true
}

/// Copies the bytes of `s` from `from` (inclusive) to `to` (exclusive).
pub fn sub_bytes(s: &Vec<u8>, from: usize, to: usize) -> (r: Vec<u8>)
    requires
        from <= to <= s@.len(),
    ensures
        r@ == s@.subrange(from as int, to as int),
{
    let mut out: Vec<u8> = Vec::new();
    let mut j: usize = from;
    proof {
        assert(out@ =~= s@.subrange(from as int, from as int));
    }
    while j < to
        invariant
            from <= j <= to <= s@.len(),
            out@ == s@.subrange(from as int, j as int),
        decreases to - j,
    {
        let b = s[j];
        out.push(b);
        proof {
            assert(s@.subrange(from as int, j as int) + seq![s@[j as int]]
                =~= s@.subrange(from as int, j + 1));
        }
        j += 1;
    }
    out
}

/// Appends the bytes of `src` to `dst`.
pub fn append_bytes(dst: &mut Vec<u8>, src: &Vec<u8>)
    ensures
        final(dst)@ == old(dst)@ + src@,
{
    let mut j: usize = 0;
    proof {
        assert(dst@ =~= old(dst)@ + src@.take(0));
    }
    while j < src.len()
        invariant
            0 <= j <= src@.len(),
            dst@ == old(dst)@ + src@.take(j as int),
        decreases src@.len() - j,
    {
        let b = src[j];
        dst.push(b);
        proof {
            assert(old(dst)@ + src@.take(j as int) + seq![src@[j as int]]
                =~= old(dst)@ + src@.take(j + 1));
        }
        j += 1;
    }
    proof {
        assert(old(dst)@ + src@.take(src@.len() as int) =~= old(dst)@ + src@);
    }
}

/// Law: a text with no occurrence of the pattern is unchanged by the
/// substitution.
pub proof fn lemma_no_occurrence_unchanged(s: Seq<u8>, pat: Seq<u8>, rep: Seq<u8>)
    requires
        occurrences(s, pat) == 0,
    ensures
        replaced(s, pat, rep) == s,
    decreases s.len(),
{
    if pat.len() == 0 || s.len() < pat.len() {
    } else if s.take(pat.len() as int) == pat {
        assert(occurrences(s, pat) >= 1);
    } else {
        lemma_no_occurrence_unchanged(s.skip(1), pat, rep);
        assert(replaced(s, pat, rep) =~= s);
    }
}

/// Law: substituting a second time changes nothing, provided the pattern did
/// not reappear after the first substitution.
pub proof fn lemma_replace_idempotent(s: Seq<u8>, pat: Seq<u8>, rep: Seq<u8>)
    requires
        occurrences(replaced(s, pat, rep), pat) == 0,
    ensures
        replaced(replaced(s, pat, rep), pat, rep) == replaced(s, pat, rep),
{
    lemma_no_occurrence_unchanged(replaced(s, pat, rep), pat, rep);
}

/// An occurrence in a tail of `s` is an occurrence in `s`, shifted.
proof fn lemma_match_at_shift(s: Seq<u8>, pat: Seq<u8>, k: int, i: int)
    requires
        0 <= k <= s.len(),
        0 <= i,
    ensures
        match_at(s.skip(k), pat, i) <==> match_at(s, pat, i + k),
{
    if match_at(s.skip(k), pat, i) {
        assert(s.skip(k).subrange(i, i + pat.len()) =~= s.subrange(i + k, i + k + pat.len()));
    }
    if match_at(s, pat, i + k) {
        assert(s.subrange(i + k, i + k + pat.len()) =~= s.skip(k).subrange(i, i + pat.len()));
    }
}

/// The greedy scan finds no occurrence exactly when there is none.
pub proof fn lemma_occurrences_zero_iff_no_match(s: Seq<u8>, pat: Seq<u8>)
    requires
        pat.len() > 0,
    ensures
        occurrences(s, pat) == 0 <==> (forall|i: int| !match_at(s, pat, i)),
    decreases s.len(),
{
    let p = pat.len() as int;
    if s.len() < p {
        assert(forall|i: int| !match_at(s, pat, i));
    } else if s.take(p) == pat {
        assert(s.subrange(0, p) =~= s.take(p));
        assert(match_at(s, pat, 0));
        assert(occurrences(s, pat) >= 1);
    } else {
        lemma_occurrences_zero_iff_no_match(s.skip(1), pat);
        assert(occurrences(s, pat) == occurrences(s.skip(1), pat));
        assert((forall|j: int| !match_at(s.skip(1), pat, j)) ==> (forall|i: int|
            !match_at(s, pat, i))) by {
            if forall|j: int| !match_at(s.skip(1), pat, j) {
                assert forall|i: int| !match_at(s, pat, i) by {
                    if match_at(s, pat, i) {
                        if i == 0 {
                            assert(s.subrange(0, p) =~= s.take(p));
                        } else {
                            lemma_match_at_shift(s, pat, 1, i - 1);
                            assert(match_at(s.skip(1), pat, i - 1));
                        }
                    }
                }
            }
        }
        assert((forall|i: int| !match_at(s, pat, i)) ==> (forall|j: int|
            !match_at(s.skip(1), pat, j))) by {
            if forall|i: int| !match_at(s, pat, i) {
                assert forall|j: int| !match_at(s.skip(1), pat, j) by {
                    if match_at(s.skip(1), pat, j) {
                        lemma_match_at_shift(s, pat, 1, j);
                        assert(match_at(s, pat, j + 1));
                    }
                }
            }
        }
    }
}

/// A strict tail of the pattern that stands at the front of a substituted
/// text already stood at the front of the original text: the replacement
/// string cannot supply its first byte, since no strict tail of the pattern
/// begins with the replacement's first byte.
proof fn lemma_pattern_tail_prefix(s: Seq<u8>, pat: Seq<u8>, rep: Seq<u8>, j: int)
    requires
        pat.len() > 0,
        rep.len() >= pat.len(),
        forall|k: int| 1 <= k < pat.len() ==> pat[k] != rep[0],
        1 <= j < pat.len(),
        pat.skip(j).is_prefix_of(replaced(s, pat, rep)),
    ensures
        pat.skip(j).is_prefix_of(s),
    decreases s.len(),
{
    let p = pat.len() as int;
    let result = replaced(s, pat, rep);
    let tail = pat.skip(j);
    if s.len() < p {
    } else if s.take(p) == pat {
        assert(tail[0] == result.subrange(0, tail.len() as int)[0]);
        assert(result[0] == rep[0]);
        assert(pat[j] == rep[0]);
    } else {
        let r = replaced(s.skip(1), pat, rep);
        assert(tail[0] == result.subrange(0, tail.len() as int)[0]);
        assert(pat[j] == s[0]);
        if j + 1 == p {
            assert(tail =~= s.subrange(0, 1));
        } else {
            assert(result == seq![s[0]] + r);
            assert(pat.skip(j + 1).is_prefix_of(r)) by {
                assert forall|k: int| 0 <= k < p - j - 1 implies #[trigger] pat.skip(j + 1)[k]
                    == r[k] by {
                    assert(pat.skip(j + 1)[k] == tail[1 + k]);
                    assert(tail[1 + k] == result.subrange(0, p - j)[1 + k]);
                    assert(result[1 + k] == r[k]);
                }
                assert(pat.skip(j + 1) =~= r.subrange(0, p - j - 1));
            }
            lemma_pattern_tail_prefix(s.skip(1), pat, rep, j + 1);
            assert forall|k: int| 1 <= k < p - j implies #[trigger] tail[k] == s[k] by {
                assert(tail[k] == pat[j + k]);
                assert(pat[j + k] == pat.skip(j + 1)[k - 1]);
                assert(pat.skip(j + 1)[k - 1] == s.skip(1).subrange(0, p - j - 1)[k - 1]);
                assert(s.skip(1).subrange(0, p - j - 1)[k - 1] == s[k]);
            }
            assert(tail[0] == s[0]);
            assert(tail =~= s.subrange(0, p - j));
        }
    }
}

/// Law: after the substitution the pattern occurs nowhere in the text,
/// provided the replacement string cannot rebuild it: the replacement is at
/// least as long as the pattern without beginning with it, the pattern's
/// first byte occurs in the replacement at most as its first byte, and no
/// strict tail of the pattern begins with the replacement's first byte.
pub proof fn lemma_replaced_free_of_pattern(s: Seq<u8>, pat: Seq<u8>, rep: Seq<u8>)
    requires
        pat.len() > 0,
        rep.len() >= pat.len(),
        rep.take(pat.len() as int) != pat,
        forall|i: int| 1 <= i < rep.len() ==> rep[i] != pat[0],
        forall|k: int| 1 <= k < pat.len() ==> pat[k] != rep[0],
    ensures
        forall|i: int| !match_at(replaced(s, pat, rep), pat, i),
        occurrences(replaced(s, pat, rep), pat) == 0,
    decreases s.len(),
{
    let p = pat.len() as int;
    let result = replaced(s, pat, rep);
    if s.len() < p {
        assert(forall|i: int| !match_at(result, pat, i));
    } else if s.take(p) == pat {
        let r = replaced(s.skip(p), pat, rep);
        lemma_replaced_free_of_pattern(s.skip(p), pat, rep);
        assert forall|i: int| !match_at(result, pat, i) by {
            if match_at(result, pat, i) {
                if i == 0 {
                    assert(result.subrange(0, p) =~= rep.take(p));
                } else if i < rep.len() {
                    assert(result.subrange(i, i + p)[0] == result[i]);
                    assert(rep[i] == pat[0]);
                } else {
                    assert(result.skip(rep.len() as int) =~= r);
                    lemma_match_at_shift(result, pat, rep.len() as int, i - rep.len());
                    assert(match_at(r, pat, i - rep.len()));
                }
            }
        }
    } else {
        let r = replaced(s.skip(1), pat, rep);
        lemma_replaced_free_of_pattern(s.skip(1), pat, rep);
        assert forall|i: int| !match_at(result, pat, i) by {
            if match_at(result, pat, i) {
                if i == 0 {
                    assert(result.subrange(0, p)[0] == result[0]);
                    assert(pat[0] == s[0]);
                    if p == 1 {
                        assert(s.take(1) =~= pat);
                    } else {
                        assert(pat.skip(1).is_prefix_of(r)) by {
                            assert(pat.skip(1) =~= r.subrange(0, p - 1));
                        }
                        lemma_pattern_tail_prefix(s.skip(1), pat, rep, 1);
                        assert forall|k: int| 1 <= k < p implies #[trigger] s[k] == pat[k] by {
                            assert(pat[k] == pat.skip(1)[k - 1]);
                            assert(pat.skip(1)[k - 1] == s.skip(1).subrange(0, p - 1)[k - 1]);
                            assert(s.skip(1).subrange(0, p - 1)[k - 1] == s[k]);
                        }
                        assert(s.take(p) =~= pat);
                    }
                } else {
                    assert(result.skip(1) =~= r);
                    lemma_match_at_shift(result, pat, 1, i - 1);
                    assert(match_at(r, pat, i - 1));
                }
            }
        }
    }
    lemma_occurrences_zero_iff_no_match(result, pat);
}

/// No occurrence of `pat` can start anywhere in a text that is free of the
/// first byte of `pat`.
proof fn lemma_occurrences_zero_first_byte_absent(s: Seq<u8>, pat: Seq<u8>)
    requires
        pat.len() > 0,
        forall|i: int| 0 <= i < s.len() ==> s[i] != pat[0],
    ensures
        occurrences(s, pat) == 0,
    decreases s.len(),
{
    let p = pat.len() as int;
    if s.len() < p {
    } else if s.take(p) == pat {
        assert(s.take(p)[0] == s[0]);
    } else {
        lemma_occurrences_zero_first_byte_absent(s.skip(1), pat);
    }
}

/// The replacement's first byte occurs in the text only where a greedily
/// found occurrence of the pattern starts, so that the substitution can
/// neither leave such a byte behind nor find one already there.
pub open spec fn no_stray_first_byte(s: Seq<u8>, pat: Seq<u8>, rep: Seq<u8>) -> bool
    decreases s.len(),
{
    if pat.len() == 0 || s.len() < pat.len() {
        forall|i: int| 0 <= i < s.len() ==> s[i] != rep[0]
    } else if s.take(pat.len() as int) == pat {
        no_stray_first_byte(s.skip(pat.len() as int), pat, rep)
    } else {
        s[0] != rep[0] && no_stray_first_byte(s.skip(1), pat, rep)
    }
}

/// A text entirely free of the replacement's first byte has no stray one.
pub proof fn lemma_no_stray_when_first_byte_absent(s: Seq<u8>, pat: Seq<u8>, rep: Seq<u8>)
    requires
        forall|i: int| 0 <= i < s.len() ==> s[i] != rep[0],
    ensures
        no_stray_first_byte(s, pat, rep),
    decreases s.len(),
{
    let p = pat.len() as int;
    if pat.len() == 0 || s.len() < p {
    } else if s.take(p) == pat {
        assert forall|i: int| 0 <= i < s.skip(p).len() implies s.skip(p)[i] != rep[0] by {
            assert(s.skip(p)[i] == s[i + p]);
        }
        lemma_no_stray_when_first_byte_absent(s.skip(p), pat, rep);
    } else {
        assert forall|i: int| 0 <= i < s.skip(1).len() implies s.skip(1)[i] != rep[0] by {
            assert(s.skip(1)[i] == s[i + 1]);
        }
        lemma_no_stray_when_first_byte_absent(s.skip(1), pat, rep);
    }
}

/// Law: the substitution inserts the replacement string exactly once per
/// occurrence of the pattern: the substituted text holds as many occurrences
/// of the replacement as the original held of the pattern, provided the
/// replacement's first byte stood nowhere in the text but at the pattern's
/// occurrences.
pub proof fn lemma_replaced_occurrences_of_replacement(s: Seq<u8>, pat: Seq<u8>, rep: Seq<u8>)
    requires
        pat.len() > 0,
        rep.len() > 0,
        no_stray_first_byte(s, pat, rep),
    ensures
        occurrences(replaced(s, pat, rep), rep) == occurrences(s, pat),
    decreases s.len(),
{
    let p = pat.len() as int;
    let q = rep.len() as int;
    let result = replaced(s, pat, rep);
    if s.len() < p {
        lemma_occurrences_zero_first_byte_absent(s, rep);
    } else if s.take(p) == pat {
        let r = replaced(s.skip(p), pat, rep);
        lemma_replaced_occurrences_of_replacement(s.skip(p), pat, rep);
        assert(result.take(q) =~= rep);
        assert(result.skip(q) =~= r);
        assert(occurrences(result, rep) == 1 + occurrences(r, rep));
    } else {
        let r = replaced(s.skip(1), pat, rep);
        lemma_replaced_occurrences_of_replacement(s.skip(1), pat, rep);
        assert(result[0] == s[0]);
        if result.len() < q {
            assert(occurrences(result, rep) == 0);
            assert(occurrences(r, rep) == 0);
        } else {
            assert(result.take(q)[0] == s[0]);
            assert(result.take(q) != rep);
            assert(result.skip(1) =~= r);
            assert(occurrences(result, rep) == occurrences(r, rep));
        }
    }
}

/// Law: replacement completeness. A text that held `n` occurrences of the
/// pattern holds, after the substitution, none of the pattern and exactly
/// `n` of the replacement. The provisos keep either string from arising by
/// accident: the replacement is at least as long as the pattern without
/// beginning with it, the pattern's first byte occurs in the replacement at
/// most as its first byte, no strict tail of the pattern begins with the
/// replacement's first byte, and the replacement's first byte stood nowhere
/// in the text but at the pattern's occurrences.
pub proof fn lemma_replacement_complete(s: Seq<u8>, pat: Seq<u8>, rep: Seq<u8>, n: nat)
    requires
        occurrences(s, pat) == n,
        pat.len() > 0,
        rep.len() >= pat.len(),
        rep.take(pat.len() as int) != pat,
        forall|i: int| 1 <= i < rep.len() ==> rep[i] != pat[0],
        forall|k: int| 1 <= k < pat.len() ==> pat[k] != rep[0],
        no_stray_first_byte(s, pat, rep),
    ensures
        occurrences(replaced(s, pat, rep), pat) == 0,
        occurrences(replaced(s, pat, rep), rep) == n,
{
    lemma_replaced_free_of_pattern(s, pat, rep);
    lemma_replaced_occurrences_of_replacement(s, pat, rep);
}

} // verus!
