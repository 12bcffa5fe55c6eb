//! Ordering of source files: the file-name helper and the case-insensitive
//! lexical sort applied to a directory's paths before they are decoded.

use vstd::prelude::*;
use vstd::string::StrSliceExecFns;

verus! {

/// The characters after the last `/` of a path; the whole path when it has
/// none, and empty when it ends in `/`.
pub open spec fn filename_spec(s: Seq<char>) -> Seq<char>
    decreases s.len(),
{
    if s.len() == 0 {
        s
    } else if s.last() == '/' {
        Seq::empty()
    } else {
        filename_spec(s.drop_last()).push(s.last())
    }
}

proof fn lemma_filename_suffix(s: Seq<char>, cut: int)
    requires
        0 <= cut <= s.len(),
        forall|j: int| cut <= j < s.len() ==> s[j] != '/',
        cut == 0 || s[cut - 1] == '/',
    ensures
        filename_spec(s) == s.skip(cut),
    decreases s.len(),
{
    if s.len() == 0 {
        assert(s.skip(cut) =~= s);
    } else if cut == s.len() {
        assert(s.last() == '/');
        assert(s.skip(cut) =~= Seq::<char>::empty());
    } else {
        assert(s.last() != '/');
        lemma_filename_suffix(s.drop_last(), cut);
        assert(s.skip(cut) =~= s.drop_last().skip(cut).push(s.last()));
    }
}

/// The file name of a full path: everything after the last `/`, or the path
/// itself when it holds no `/`.
pub fn filename(full_path: &str) -> (r: String)
    ensures
        r@ == filename_spec(full_path@),
{
    let n: usize = full_path.unicode_len();
    let mut cut: usize = n;
    let mut found: bool = false;
    while !found && cut > 0
        invariant
            0 <= cut <= n,
            n == full_path@.len(),
            forall|j: int| cut <= j < n ==> full_path@[j] != '/',
            found ==> cut >= 1 && full_path@[cut - 1] == '/',
        decreases (if found {
            0int
        } else {
            cut + 1
        }),
    {
        if full_path.get_char(cut - 1) == '/' {
            found = true;
        } else {
            cut = cut - 1;
        }
    }
    proof {
        lemma_filename_suffix(full_path@, cut as int);
    }
    let tail = full_path.substring_char(cut, n);
    tail.to_owned()
}

/// The lowercase form of a string, as `str::to_lowercase` computes it; it
/// depends on the characters alone.
pub uninterp spec fn lower_of(s: Seq<char>) -> Seq<char>;

/// Relies on `str::to_lowercase`: the Unicode lowercase mapping of the
/// string, a function of its characters alone.
#[verifier::external_body]
fn to_lower(s: &str) -> (r: String)
    ensures
        r@ == lower_of(s@),
{
    s.to_lowercase()
}

/// Lexicographic order on character sequences by code point: `a` is empty,
/// or its first character is smaller, or the firsts agree and the rest
/// compare the same way.
pub open spec fn lex_leq(a: Seq<char>, b: Seq<char>) -> bool
    decreases a.len(),
{
    if a.len() == 0 {
        true
    } else if b.len() == 0 {
        false
    } else if (a[0] as u32) < (b[0] as u32) {
        true
    } else if (a[0] as u32) == (b[0] as u32) {
        lex_leq(a.skip(1), b.skip(1))
    } else {
        false
    }
}

/// `lex_leq` is total: of any two sequences, one is below the other.
pub proof fn lemma_lex_leq_total(a: Seq<char>, b: Seq<char>)
    ensures
        lex_leq(a, b) || lex_leq(b, a),
    decreases a.len(),
{
    if a.len() > 0 && b.len() > 0 && (a[0] as u32) == (b[0] as u32) {
        lemma_lex_leq_total(a.skip(1), b.skip(1));
    }
}

/// `lex_leq` is transitive.
pub proof fn lemma_lex_leq_trans(a: Seq<char>, b: Seq<char>, c: Seq<char>)
    requires
        lex_leq(a, b),
        lex_leq(b, c),
    ensures
        lex_leq(a, c),
    decreases a.len(),
{
    if a.len() > 0 && b.len() > 0 && c.len() > 0 {
        if (a[0] as u32) == (b[0] as u32) && (b[0] as u32) == (c[0] as u32) {
            lemma_lex_leq_trans(a.skip(1), b.skip(1), c.skip(1));
        }
    }
}

/// Compares two strings lexicographically by code point.
pub fn lex_leq_exec(a: &str, b: &str) -> (r: bool)
    ensures
        r == lex_leq(a@, b@),
{
    let an: usize = a.unicode_len();
    let bn: usize = b.unicode_len();
    let m: usize = if an <= bn {
        an
    } else {
        bn
    };
    let mut i: usize = 0;
    proof {
        assert(a@.skip(0) =~= a@);
        assert(b@.skip(0) =~= b@);
    }
    while i < m
        invariant
            0 <= i <= m,
            m <= an,
            m <= bn,
            an == a@.len(),
            bn == b@.len(),
            an <= bn ==> m == an,
            an > bn ==> m == bn,
            lex_leq(a@, b@) == lex_leq(a@.skip(i as int), b@.skip(i as int)),
        decreases m - i,
    {
        let ca: u32 = a.get_char(i) as u32;
        let cb: u32 = b.get_char(i) as u32;
        proof {
            let sa = a@.skip(i as int);
            let sb = b@.skip(i as int);
            assert(sa[0] == a@[i as int]);
            assert(sb[0] == b@[i as int]);
            assert(sa.skip(1) =~= a@.skip(i + 1));
            assert(sb.skip(1) =~= b@.skip(i + 1));
        }
        if ca < cb {
            return true;
        }
        if ca > cb {
            return false;
        }
        i = i + 1;
    }
    proof {
        if an <= bn {
            assert(a@.skip(i as int).len() == 0);
        } else {
            assert(b@.skip(i as int).len() == 0);
            assert(a@.skip(i as int).len() > 0);
        }
    }
    an <= bn
}

/// Case-insensitive lexical order on strings: lexicographic comparison of
/// their lowercase forms.
pub open spec fn ci_leq(a: Seq<char>, b: Seq<char>) -> bool {
    lex_leq(lower_of(a), lower_of(b))
}

/// A list of paths in ascending case-insensitive lexical order.
pub open spec fn sorted_ci(files: Seq<String>) -> bool {
    forall|i: int, j: int| 0 <= i < j < files.len() ==> #[trigger] ci_leq(files[i]@, files[j]@)
}

/// The views of a list of strings.
pub open spec fn views_of(files: Seq<String>) -> Seq<Seq<char>> {
    files.map_values(|s: String| s@)
}

proof fn lemma_insert_multiset(s: Seq<Seq<char>>, p: int, x: Seq<char>)
    requires
        0 <= p <= s.len(),
    ensures
        s.insert(p, x).to_multiset() =~= s.to_multiset().insert(x),
{
    broadcast use vstd::seq_lib::group_to_multiset_ensures;

    let a = s.subrange(0, p);
    let b = s.subrange(p, s.len() as int);
    vstd::seq_lib::lemma_multiset_commutative(a.push(x), b);
    vstd::seq_lib::lemma_multiset_commutative(a, b);
    assert(s =~= a + b);
    assert(a.push(x).to_multiset() =~= a.to_multiset().insert(x));
}

/// The first position whose entry does not come at or below `x` in
/// case-insensitive order; `x` belongs right before it.
fn find_insert_pos(out: &Vec<String>, x: &String) -> (p: usize)
    ensures
        p <= out@.len(),
        forall|k: int| 0 <= k < p ==> #[trigger] ci_leq(out@[k]@, x@),
        p < out@.len() ==> !ci_leq(out@[p as int]@, x@),
{
    let xl = to_lower(x.as_str());
    let mut p: usize = 0;
    let mut stop: bool = false;
    while !stop && p < out.len()
        invariant
            0 <= p <= out@.len(),
            xl@ == lower_of(x@),
            forall|k: int| 0 <= k < p ==> #[trigger] ci_leq(out@[k]@, x@),
            stop ==> p < out@.len() && !ci_leq(out@[p as int]@, x@),
        decreases (if stop {
            0int
        } else {
            out@.len() - p + 1
        }),
    {
        let ol = to_lower(out[p].as_str());
        if lex_leq_exec(ol.as_str(), xl.as_str()) {
            p = p + 1;
        } else {
            stop = true;
        }
    }
    p
}

/// Sorts a list of paths ascending by case-insensitive lexical comparison
/// of the full path: the result is a permutation of the input (as strings)
/// and is sorted under that order.
pub fn sort_files_ci(files: &Vec<String>) -> (r: Vec<String>)
    ensures
        sorted_ci(r@),
        views_of(r@).to_multiset() == views_of(files@).to_multiset(),
{
    broadcast use vstd::seq_lib::group_to_multiset_ensures;

    let mut out: Vec<String> = Vec::new();
    let mut idx: usize = 0;
    proof {
        assert(views_of(out@) =~= Seq::<Seq<char>>::empty());
        assert(views_of(files@.take(0)) =~= Seq::<Seq<char>>::empty());
    }
    while idx < files.len()
        invariant
            0 <= idx <= files@.len(),
            sorted_ci(out@),
            views_of(out@).to_multiset() == views_of(files@.take(idx as int)).to_multiset(),
        decreases files@.len() - idx,
    {
        let x = files[idx].clone();
        assert(x@ == files@[idx as int]@);
        let p = find_insert_pos(&out, &x);
        let ghost old_out = out@;
        out.insert(p, x);
        proof {
            let pi = p as int;
            assert(out@ == old_out.insert(pi, x));
            // Order is kept: everything before the insertion point was at or
            // below `x`, everything from it on is above `x` by totality.
            if pi < old_out.len() {
                lemma_lex_leq_total(lower_of(old_out[pi]@), lower_of(x@));
            }
            assert forall|i: int, j: int|
                0 <= i < j < out@.len() implies #[trigger] ci_leq(out@[i]@, out@[j]@) by {
                assert(forall|k: int| 0 <= k < pi ==> #[trigger] out@[k] == old_out[k]);
                assert(forall|k: int| pi < k < out@.len() ==> #[trigger] out@[k] == old_out[k - 1]);
                assert(out@[pi] == x);
                if i < pi && j == pi {
                    assert(ci_leq(old_out[i]@, x@));
                } else if i == pi && j > pi {
                    if j - 1 > pi {
                        assert(ci_leq(old_out[pi]@, old_out[j - 1]@));
                        lemma_lex_leq_trans(
                            lower_of(x@),
                            lower_of(old_out[pi]@),
                            lower_of(old_out[j - 1]@),
                        );
                    }
                } else if i < pi && j > pi {
                    assert(ci_leq(old_out[i]@, old_out[j - 1]@));
                } else if i > pi && j > pi {
                    assert(ci_leq(old_out[i - 1]@, old_out[j - 1]@));
                } else if i < pi && j < pi {
                    assert(ci_leq(old_out[i]@, old_out[j]@));
                }
            }
            // The multiset of views gains exactly the view of `x`.
            broadcast use vstd::seq_lib::group_to_multiset_ensures;

            assert(views_of(out@) =~= views_of(old_out).insert(pi, x@));
            lemma_insert_multiset(views_of(old_out), pi, x@);
            let vtake = views_of(files@.take(idx as int));
            assert(vtake.push(x@).to_multiset() =~= vtake.to_multiset().insert(x@));
            assert(views_of(files@.take(idx + 1)) =~= vtake.push(x@));
            assert(views_of(out@).to_multiset() =~= views_of(files@.take(idx + 1)).to_multiset());
        }
        idx = idx + 1;
    }
    proof {
        assert(files@.take(files@.len() as int) =~= files@);
    }
    out
}

} // verus!
