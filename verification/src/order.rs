//! Listing order: case-insensitive collation of names, and the sorts the
//! directory listings use.
use vstd::prelude::*;
use crate::chars::str_to_chars;
use crate::pak::FileInfo;

verus! {

/// What `str::to_lowercase` makes of a string; a function of the
/// characters alone.
pub uninterp spec fn lower_of(s: Seq<char>) -> Seq<char>;

/// Relies on `str::to_lowercase`: Unicode lowercasing, depending on the
/// characters alone.
#[verifier::external_body]
fn to_lowercase_string(s: &str) -> (r: String)
    ensures
        r@ == lower_of(s@),
{
    s.to_lowercase()
}

/// Lexicographic order on character sequences by code point, a prefix
/// ordering before anything it prefixes.
pub open spec fn spec_lex_le(a: Seq<char>, b: Seq<char>) -> bool
    decreases a.len(),
{
    if a.len() == 0 {
        true
    } else if b.len() == 0 {
        false
    } else if (a[0] as u32) < (b[0] as u32) {
        true
    } else if (a[0] as u32) > (b[0] as u32) {
        false
    } else {
        spec_lex_le(a.skip(1), b.skip(1))
    }
}

/// The case-insensitive listing order: lexicographic on the lowercased
/// names.
pub open spec fn spec_ci_le(a: Seq<char>, b: Seq<char>) -> bool {
    spec_lex_le(lower_of(a), lower_of(b))
}

/// The lexicographic order is total.
pub proof fn lemma_lex_total(a: Seq<char>, b: Seq<char>)
    ensures
        spec_lex_le(a, b) || spec_lex_le(b, a),
    decreases a.len(),
{
    if a.len() == 0 || b.len() == 0 {
    } else if (a[0] as u32) == (b[0] as u32) {
        lemma_lex_total(a.skip(1), b.skip(1));
    }
}

/// The lexicographic order is transitive.
pub proof fn lemma_lex_trans(a: Seq<char>, b: Seq<char>, c: Seq<char>)
    requires
        spec_lex_le(a, b),
        spec_lex_le(b, c),
    ensures
        spec_lex_le(a, c),
    decreases a.len(),
{
    if a.len() == 0 {
    } else {
        if (a[0] as u32) == (b[0] as u32) && (b[0] as u32) == (c[0] as u32) {
            lemma_lex_trans(a.skip(1), b.skip(1), c.skip(1));
        }
    }
}

/// Equal leading characters leave the comparison to the rest.
proof fn lemma_lex_skip_eq(a: Seq<char>, b: Seq<char>)
    requires
        a.len() > 0,
        b.len() > 0,
        a[0] == b[0],
    ensures
        spec_lex_le(a, b) == spec_lex_le(a.skip(1), b.skip(1)),
{
}

/// Compare two strings in the lexicographic order, by code point.
fn lex_le_str(a: &str, b: &str) -> (r: bool)
    ensures
        r == spec_lex_le(a@, b@),
{
    let av = str_to_chars(a);
    let bv = str_to_chars(b);
    proof {
        assert(a@.skip(0) =~= a@);
        assert(b@.skip(0) =~= b@);
    }
    let mut i: usize = 0;
    while i < av.len() && i < bv.len()
        invariant
            av@ == a@,
            bv@ == b@,
            i <= a@.len(),
            i <= b@.len(),
            spec_lex_le(a@, b@) == spec_lex_le(a@.skip(i as int), b@.skip(i as int)),
        decreases a@.len() - i,
    {
        let ca = av[i];
        let cb = bv[i];
        let ghost ra = a@.skip(i as int);
        let ghost rb = b@.skip(i as int);
        proof {
            assert(ra[0] == a@[i as int]);
            assert(rb[0] == b@[i as int]);
        }
        if (ca as u32) < (cb as u32) {
            return true;
        }
        if (ca as u32) > (cb as u32) {
            return false;
        }
        proof {
            assert(ca as u32 == cb as u32);
            vstd::utf8::char_u32_cast(ca, ca as u32);
            vstd::utf8::char_u32_cast(cb, cb as u32);
            assert(ca == cb);
            lemma_lex_skip_eq(ra, rb);
            assert(ra.skip(1) =~= a@.skip(i + 1 as int));
            assert(rb.skip(1) =~= b@.skip(i + 1 as int));
        }
        i = i + 1;
    }
    proof {
        if i >= a@.len() {
            assert(a@.skip(i as int).len() == 0);
        } else {
            assert(b@.skip(i as int).len() == 0);
            assert(a@.skip(i as int).len() > 0);
        }
    }
    i >= av.len()
}

/// Compare two names in the case-insensitive listing order.
pub fn ci_le_str(a: &str, b: &str) -> (r: bool)
    ensures
        r == spec_ci_le(a@, b@),
{
    let la = to_lowercase_string(a);
    let lb = to_lowercase_string(b);
    lex_le_str(la.as_str(), lb.as_str())
}

/// Inserting anywhere adds one occurrence to a sequence's multiset.
pub proof fn lemma_insert_to_multiset<A>(s: Seq<A>, i: int, a: A)
    requires
        0 <= i <= s.len(),
    ensures
        s.insert(i, a).to_multiset() == s.to_multiset().insert(a),
{
    broadcast use vstd::seq_lib::group_to_multiset_ensures;

    let t = s.insert(i, a);
    assert(t.remove(i) =~= s);
    assert(t[i] == a);
    assert(t.remove(i).to_multiset() =~= t.to_multiset().remove(a));
    assert(t.contains(a)) by {
        assert(t[i] == a);
    }
    assert(t.to_multiset().count(a) > 0);
    assert(t.to_multiset().remove(a).insert(a) =~= t.to_multiset());
    assert(s.to_multiset().insert(a) =~= t.to_multiset());
}

/// Whether a name list stands in the case-insensitive listing order.
pub open spec fn sorted_ci(s: Seq<Seq<char>>) -> bool {
    forall|i: int, j: int| 0 <= i < j < s.len() ==> spec_ci_le(#[trigger] s[i], #[trigger] s[j])
}

/// Sort names into the case-insensitive listing order, keeping exactly the
/// given occurrences.
pub fn sort_strings_ci(input: Vec<String>) -> (r: Vec<String>)
    ensures
        r@.map_values(|s: String| s@).to_multiset() == input@.map_values(
            |s: String| s@,
        ).to_multiset(),
        sorted_ci(r@.map_values(|s: String| s@)),
{
    let ghost iviews = input@.map_values(|s: String| s@);
    let mut r: Vec<String> = Vec::new();
    let mut k: usize = 0;
    proof {
        broadcast use vstd::seq_lib::group_to_multiset_ensures;

        assert(r@.map_values(|s: String| s@) =~= Seq::<Seq<char>>::empty());
        assert(iviews.take(0) =~= Seq::<Seq<char>>::empty());
    }
    while k < input.len()
        invariant
            iviews == input@.map_values(|s: String| s@),
            k <= input@.len(),
            r@.map_values(|s: String| s@).to_multiset() == iviews.take(k as int).to_multiset(),
            sorted_ci(r@.map_values(|s: String| s@)),
        decreases input@.len() - k,
    {
        let x = input[k].clone();
        let ghost xv = x@;
        let ghost rviews = r@.map_values(|s: String| s@);
        let mut pos: usize = 0;
        while pos < r.len() && ci_le_str(r[pos].as_str(), x.as_str())
            invariant
                rviews == r@.map_values(|s: String| s@),
                xv == x@,
                pos <= r@.len(),
                forall|j: int| 0 <= j < pos ==> spec_ci_le(#[trigger] rviews[j], xv),
            decreases r@.len() - pos,
        {
            pos = pos + 1;
        }
        proof {
            assert(pos < r@.len() ==> !spec_ci_le(rviews[pos as int], xv));
        }
        r.insert(pos, x);
        proof {
            broadcast use vstd::seq_lib::group_to_multiset_ensures;

            let nviews = r@.map_values(|s: String| s@);
            assert(nviews =~= rviews.insert(pos as int, xv));
            lemma_insert_to_multiset(rviews, pos as int, xv);
            assert(iviews.take(k + 1 as int) =~= iviews.take(k as int).push(iviews[k as int]));
            assert(iviews[k as int] == xv);
            assert(nviews.to_multiset() =~= iviews.take(k + 1 as int).to_multiset());
            assert forall|i: int, j: int|
                0 <= i < j < nviews.len() implies spec_ci_le(
                #[trigger] nviews[i],
                #[trigger] nviews[j],
            ) by {
                lemma_sorted_after_insert(rviews, pos as int, xv, i, j);
            }
        }
        k = k + 1;
    }
    proof {
        assert(iviews.take(iviews.len() as int) =~= iviews);
    }
    r
}

/// Whether a name list stands in plain lexicographic order.
pub open spec fn sorted_lex(s: Seq<Seq<char>>) -> bool {
    forall|i: int, j: int| 0 <= i < j < s.len() ==> spec_lex_le(#[trigger] s[i], #[trigger] s[j])
}

/// Sort names into plain lexicographic order, keeping exactly the given
/// occurrences.
pub fn sort_strings_lex(input: Vec<String>) -> (r: Vec<String>)
    ensures
        r@.map_values(|s: String| s@).to_multiset() == input@.map_values(
            |s: String| s@,
        ).to_multiset(),
        sorted_lex(r@.map_values(|s: String| s@)),
{
    let ghost iviews = input@.map_values(|s: String| s@);
    let mut r: Vec<String> = Vec::new();
    let mut k: usize = 0;
    proof {
        broadcast use vstd::seq_lib::group_to_multiset_ensures;

        assert(r@.map_values(|s: String| s@) =~= Seq::<Seq<char>>::empty());
        assert(iviews.take(0) =~= Seq::<Seq<char>>::empty());
    }
    while k < input.len()
        invariant
            iviews == input@.map_values(|s: String| s@),
            k <= input@.len(),
            r@.map_values(|s: String| s@).to_multiset() == iviews.take(k as int).to_multiset(),
            sorted_lex(r@.map_values(|s: String| s@)),
        decreases input@.len() - k,
    {
        let x = input[k].clone();
        let ghost xv = x@;
        let ghost rviews = r@.map_values(|s: String| s@);
        let mut pos: usize = 0;
        while pos < r.len() && lex_le_str(r[pos].as_str(), x.as_str())
            invariant
                rviews == r@.map_values(|s: String| s@),
                xv == x@,
                pos <= r@.len(),
                forall|j: int| 0 <= j < pos ==> spec_lex_le(#[trigger] rviews[j], xv),
            decreases r@.len() - pos,
        {
            pos = pos + 1;
        }
        r.insert(pos, x);
        proof {
            broadcast use vstd::seq_lib::group_to_multiset_ensures;

            let nviews = r@.map_values(|s: String| s@);
            assert(nviews =~= rviews.insert(pos as int, xv));
            lemma_insert_to_multiset(rviews, pos as int, xv);
            assert(iviews.take(k + 1 as int) =~= iviews.take(k as int).push(iviews[k as int]));
            assert(iviews[k as int] == xv);
            assert(nviews.to_multiset() =~= iviews.take(k + 1 as int).to_multiset());
            assert forall|i: int, j: int|
                0 <= i < j < nviews.len() implies spec_lex_le(
                #[trigger] nviews[i],
                #[trigger] nviews[j],
            ) by {
                lemma_sorted_after_insert_lex(rviews, pos as int, xv, i, j);
            }
        }
        k = k + 1;
    }
    proof {
        assert(iviews.take(iviews.len() as int) =~= iviews);
    }
    r
}

/// Whether a record list stands in the listing order: case-insensitive by
/// final name component.
pub open spec fn sorted_files_ci(s: Seq<crate::pak::EntryChars>) -> bool {
    forall|i: int, j: int|
        0 <= i < j < s.len() ==> spec_ci_le(
            crate::paths::spec_basename(#[trigger] s[i].name),
            crate::paths::spec_basename(#[trigger] s[j].name),
        )
}

/// Sort records into the listing order, keeping exactly the given
/// occurrences.
pub fn sort_files_ci(input: Vec<FileInfo>) -> (r: Vec<FileInfo>)
    ensures
        r@.map_values(|f: FileInfo| f@).to_multiset() == input@.map_values(
            |f: FileInfo| f@,
        ).to_multiset(),
        sorted_files_ci(r@.map_values(|f: FileInfo| f@)),
{
    let ghost iviews = input@.map_values(|f: FileInfo| f@);
    let mut r: Vec<FileInfo> = Vec::new();
    let mut k: usize = 0;
    proof {
        broadcast use vstd::seq_lib::group_to_multiset_ensures;

        assert(r@.map_values(|f: FileInfo| f@) =~= Seq::<crate::pak::EntryChars>::empty());
        assert(iviews.take(0) =~= Seq::<crate::pak::EntryChars>::empty());
    }
    while k < input.len()
        invariant
            iviews == input@.map_values(|f: FileInfo| f@),
            k <= input@.len(),
            r@.map_values(|f: FileInfo| f@).to_multiset() == iviews.take(k as int).to_multiset(),
            sorted_files_ci(r@.map_values(|f: FileInfo| f@)),
        decreases input@.len() - k,
    {
        let x = input[k].duplicate();
        let xkey = crate::paths::basename_str(x.file_name.as_str());
        let ghost xv = x@;
        let ghost rviews = r@.map_values(|f: FileInfo| f@);
        let mut pos: usize = 0;
        loop
            invariant
                rviews == r@.map_values(|f: FileInfo| f@),
                xv == x@,
                xkey@ == crate::paths::spec_basename(xv.name),
                pos <= r@.len(),
                forall|j: int|
                    0 <= j < pos ==> spec_ci_le(
                        crate::paths::spec_basename((#[trigger] rviews[j]).name),
                        crate::paths::spec_basename(xv.name),
                    ),
            ensures
                pos <= r@.len(),
                forall|j: int|
                    0 <= j < pos ==> spec_ci_le(
                        crate::paths::spec_basename((#[trigger] rviews[j]).name),
                        crate::paths::spec_basename(xv.name),
                    ),
                pos < r@.len() ==> !spec_ci_le(
                    crate::paths::spec_basename(rviews[pos as int].name),
                    crate::paths::spec_basename(xv.name),
                ),
            decreases r@.len() - pos,
        {
            if pos >= r.len() {
                break;
            }
            let rkey = crate::paths::basename_str(r[pos].file_name.as_str());
            if !ci_le_str(rkey.as_str(), xkey.as_str()) {
                break;
            }
            pos = pos + 1;
        }
        r.insert(pos, x);
        proof {
            broadcast use vstd::seq_lib::group_to_multiset_ensures;

            let nviews = r@.map_values(|f: FileInfo| f@);
            assert(nviews =~= rviews.insert(pos as int, xv));
            crate::order::lemma_insert_to_multiset(rviews, pos as int, xv);
            assert(iviews.take(k + 1 as int) =~= iviews.take(k as int).push(iviews[k as int]));
            assert(iviews[k as int] == xv);
            assert(nviews.to_multiset() =~= iviews.take(k + 1 as int).to_multiset());
            let keys = rviews.map_values(|e: crate::pak::EntryChars| crate::paths::spec_basename(e.name));
            assert forall|i: int, j: int|
                0 <= i < j < nviews.len() implies spec_ci_le(
                crate::paths::spec_basename((#[trigger] nviews[i]).name),
                crate::paths::spec_basename((#[trigger] nviews[j]).name),
            ) by {
                assert(keys.insert(pos as int, crate::paths::spec_basename(xv.name)) =~= nviews.map_values(
                    |e: crate::pak::EntryChars| crate::paths::spec_basename(e.name),
                ));
                lemma_sorted_after_insert(
                    keys,
                    pos as int,
                    crate::paths::spec_basename(xv.name),
                    i,
                    j,
                );
                assert(nviews.map_values(|e: crate::pak::EntryChars| crate::paths::spec_basename(e.name))[i]
                    == crate::paths::spec_basename(nviews[i].name));
                assert(nviews.map_values(|e: crate::pak::EntryChars| crate::paths::spec_basename(e.name))[j]
                    == crate::paths::spec_basename(nviews[j].name));
            }
        }
        k = k + 1;
    }
    proof {
        assert(iviews.take(iviews.len() as int) =~= iviews);
    }
    r
}

/// After inserting a name in plain lexicographic order at the first place
/// whose occupant does not sit at or before it, any two positions are
/// still in order.
proof fn lemma_sorted_after_insert_lex(s: Seq<Seq<char>>, pos: int, x: Seq<char>, i: int, j: int)
    requires
        0 <= pos <= s.len(),
        sorted_lex(s),
        forall|t: int| 0 <= t < pos ==> spec_lex_le(#[trigger] s[t], x),
        pos < s.len() ==> !spec_lex_le(s[pos], x),
        0 <= i < j < s.insert(pos, x).len(),
    ensures
        spec_lex_le(s.insert(pos, x)[i], s.insert(pos, x)[j]),
{
    let t = s.insert(pos, x);
    if pos < s.len() {
        lemma_lex_total(s[pos], x);
    }
    assert forall|u: int| pos <= u < s.len() implies spec_lex_le(x, #[trigger] s[u]) by {
        if pos < s.len() {
            assert(spec_lex_le(x, s[pos]));
            if u > pos {
                assert(spec_lex_le(s[pos], s[u]));
                lemma_lex_trans(x, s[pos], s[u]);
            }
        }
    }
    if i < pos {
        assert(t[i] == s[i]);
        if j < pos {
            assert(t[j] == s[j]);
        } else if j == pos {
            assert(t[j] == x);
            assert(spec_lex_le(s[i], x));
        } else {
            assert(t[j] == s[j - 1]);
            assert(spec_lex_le(s[i], s[j - 1]));
        }
    } else if i == pos {
        assert(t[i] == x);
        assert(t[j] == s[j - 1]);
        assert(spec_lex_le(x, s[j - 1]));
    } else {
        assert(t[i] == s[i - 1]);
        assert(t[j] == s[j - 1]);
        assert(spec_lex_le(s[i - 1], s[j - 1]));
    }
}

/// After inserting a name at the first place whose occupant does not sit
/// at or before it, any two positions are still in order.
proof fn lemma_sorted_after_insert(s: Seq<Seq<char>>, pos: int, x: Seq<char>, i: int, j: int)
    requires
        0 <= pos <= s.len(),
        sorted_ci(s),
        forall|t: int| 0 <= t < pos ==> spec_ci_le(#[trigger] s[t], x),
        pos < s.len() ==> !spec_ci_le(s[pos], x),
        0 <= i < j < s.insert(pos, x).len(),
    ensures
        spec_ci_le(s.insert(pos, x)[i], s.insert(pos, x)[j]),
{
    let t = s.insert(pos, x);
    if pos < s.len() {
        lemma_lex_total(lower_of(s[pos]), lower_of(x));
    }
    assert forall|u: int| pos <= u < s.len() implies spec_ci_le(x, #[trigger] s[u]) by {
        if pos < s.len() {
            assert(spec_ci_le(x, s[pos]));
            if u > pos {
                assert(spec_ci_le(s[pos], s[u]));
                lemma_lex_trans(lower_of(x), lower_of(s[pos]), lower_of(s[u]));
            }
        }
    }
    if i < pos {
        assert(t[i] == s[i]);
        if j < pos {
            assert(t[j] == s[j]);
        } else if j == pos {
            assert(t[j] == x);
            assert(spec_ci_le(s[i], x));
        } else {
            assert(t[j] == s[j - 1]);
            if j - 1 < pos {
            } else {
                assert(spec_ci_le(s[i], s[j - 1]));
            }
        }
    } else if i == pos {
        assert(t[i] == x);
        assert(t[j] == s[j - 1]);
        assert(spec_ci_le(x, s[j - 1]));
    } else {
        assert(t[i] == s[i - 1]);
        assert(t[j] == s[j - 1]);
        assert(spec_ci_le(s[i - 1], s[j - 1]));
    }
}

} // verus!
