//! The browse session: a current directory over the archive's flat names,
//! navigation, listing, and searching.
use vstd::prelude::*;
use vstd::string::StrSliceExecFns;
use vstd::string::StringExecFns;
use crate::chars::{chars_to_string, slice_chars, str_to_chars};
use crate::errors::InputError;
use crate::glob::{find_char_from, spec_find_char};
use crate::pak::{EntryChars, FileInfo};
use crate::paths::{
    is_canonical_path, is_valid_segment, join_abs_chars, lemma_join_canonical,
    lemma_resolve_canonical, spec_apply_segments, spec_join_abs, spec_join_parts,
    spec_path_segments, spec_resolve, spec_split, split_chars,
};

verus! {

/// A name with its slashes turned into the entries' backslashes.
pub open spec fn spec_backslashed(s: Seq<char>) -> Seq<char> {
    s.map_values(
        |c: char|
            if c == '/' {
                '\\'
            } else {
                c
            },
    )
}

/// Turn slashes into backslashes, executed.
pub fn backslashed_chars(v: &[char]) -> (r: Vec<char>)
    ensures
        r@ == spec_backslashed(v@),
{
    let mut r: Vec<char> = Vec::new();
    let n = v.len();
    let mut i: usize = 0;
    while i < n
        invariant
            n == v@.len(),
            i <= n,
            r@ == spec_backslashed(v@.take(i as int)),
        decreases n - i,
    {
        let c = v[i];
        if c == '/' {
            r.push('\\');
        } else {
            r.push(c);
        }
        assert(r@ =~= spec_backslashed(v@.take(i + 1 as int)));
        i = i + 1;
    }
    proof {
        assert(v@.take(n as int) =~= v@);
    }
    r
}

/// The entry-name prefix a resolved path stands for: nothing for the
/// root, else the path without its leading slash, separators turned into
/// the entries' backslashes.
pub open spec fn spec_prefix_of(resolved: Seq<char>) -> Seq<char> {
    if resolved == seq!['/'] {
        Seq::<char>::empty()
    } else {
        spec_backslashed(resolved.skip(1))
    }
}

/// Whether an entry name lies below the directory named by `prefix`: the
/// root holds every entry; any other directory exactly those whose names
/// continue past the prefix with a separator.
pub open spec fn is_under(n: Seq<char>, prefix: Seq<char>) -> bool {
    prefix.len() == 0 || (n.len() > prefix.len() && n.take(prefix.len() as int) == prefix
        && n[prefix.len() as int] == '\\')
}

/// What is left of an entry name once the directory prefix and its
/// separator are taken off.
pub open spec fn spec_rem(n: Seq<char>, prefix: Seq<char>) -> Seq<char> {
    if prefix.len() == 0 {
        n
    } else {
        n.skip(prefix.len() as int + 1)
    }
}

/// The entry contributes a subdirectory to the listing of `prefix`: its
/// remainder runs past a further separator. At the root the first piece
/// may be empty; anywhere else it must name something.
pub open spec fn is_dir_child(n: Seq<char>, prefix: Seq<char>) -> bool {
    is_under(n, prefix) && match spec_find_char(spec_rem(n, prefix), '\\') {
        Some(i) => prefix.len() == 0 || i > 0,
        None => false,
    }
}

/// The subdirectory name the entry contributes: its remainder up to the
/// next separator.
pub open spec fn spec_dir_child_name(n: Seq<char>, prefix: Seq<char>) -> Seq<char> {
    spec_rem(n, prefix).take(spec_find_char(spec_rem(n, prefix), '\\')->0)
}

/// The entry is a file of the directory itself: no separator remains. At
/// the root even an empty remainder counts, as the listing keeps every
/// separator-free name there.
pub open spec fn is_file_child(n: Seq<char>, prefix: Seq<char>) -> bool {
    is_under(n, prefix) && spec_find_char(spec_rem(n, prefix), '\\') is None && (prefix.len() == 0
        || spec_rem(n, prefix).len() > 0)
}

/// The directory's own files, in table order.
pub open spec fn spec_file_children(files: Seq<EntryChars>, prefix: Seq<char>) -> Seq<EntryChars> {
    files.filter(|e: EntryChars| is_file_child(e.name, prefix))
}

/// One more record extends the file listing exactly when it is a file of
/// the directory.
proof fn lemma_file_children_take_step(files: Seq<EntryChars>, prefix: Seq<char>, i: int)
    requires
        0 <= i < files.len(),
    ensures
        spec_file_children(files.take(i + 1), prefix) == if is_file_child(files[i].name, prefix) {
            spec_file_children(files.take(i), prefix).push(files[i])
        } else {
            spec_file_children(files.take(i), prefix)
        },
{
    reveal(Seq::filter);
    let t = files.take(i + 1);
    assert(t.len() == i + 1);
    assert(t.drop_last() =~= files.take(i));
    assert(t.last() == files[i]);
}

/// What a directory listing promises of its subdirectory names: each
/// comes from some entry, every contributing entry is represented, no
/// name repeats, and the names stand in the case-insensitive order.
pub open spec fn dirs_listing_ok(
    files: Seq<EntryChars>,
    prefix: Seq<char>,
    dirs: Seq<Seq<char>>,
) -> bool {
    &&& forall|k: int|
        0 <= k < dirs.len() ==> exists|i: int|
            0 <= i < files.len() && is_dir_child(#[trigger] files[i].name, prefix)
                && spec_dir_child_name(files[i].name, prefix) == #[trigger] dirs[k]
    &&& forall|i: int|
        0 <= i < files.len() && is_dir_child(#[trigger] files[i].name, prefix) ==> dirs.contains(
            spec_dir_child_name(files[i].name, prefix),
        )
    &&& forall|k: int, l: int| 0 <= k < l < dirs.len() ==> #[trigger] dirs[k] != #[trigger] dirs[l]
    &&& crate::order::sorted_ci(dirs)
}

/// What a directory listing promises of its files: exactly the entries
/// that are files of the directory, in the case-insensitive order of
/// their final name components.
pub open spec fn files_listing_ok(
    files: Seq<EntryChars>,
    prefix: Seq<char>,
    out: Seq<EntryChars>,
) -> bool {
    &&& out.to_multiset() == spec_file_children(files, prefix).to_multiset()
    &&& crate::order::sorted_files_ci(out)
}

/// The subdirectory names of a listing as the walk builds them: one pass
/// over the records, each contributed name kept once, in the order first
/// met.
pub open spec fn spec_dir_names_seq(files: Seq<EntryChars>, prefix: Seq<char>) -> Seq<Seq<char>>
    decreases files.len(),
{
    if files.len() == 0 {
        Seq::<Seq<char>>::empty()
    } else {
        let prev = spec_dir_names_seq(files.drop_last(), prefix);
        let e = files.last();
        if is_dir_child(e.name, prefix) && !prev.contains(spec_dir_child_name(e.name, prefix)) {
            prev.push(spec_dir_child_name(e.name, prefix))
        } else {
            prev
        }
    }
}

/// One more record extends the name walk exactly when it contributes a
/// name not yet met.
proof fn lemma_dir_names_take_step(files: Seq<EntryChars>, prefix: Seq<char>, i: int)
    requires
        0 <= i < files.len(),
    ensures
        spec_dir_names_seq(files.take(i + 1), prefix) == ({
            let prev = spec_dir_names_seq(files.take(i), prefix);
            if is_dir_child(files[i].name, prefix) && !prev.contains(
                spec_dir_child_name(files[i].name, prefix),
            ) {
                prev.push(spec_dir_child_name(files[i].name, prefix))
            } else {
                prev
            }
        }),
{
    let t = files.take(i + 1);
    assert(t.len() == i + 1);
    assert(t.drop_last() =~= files.take(i));
    assert(t.last() == files[i]);
}

/// What the name walk guarantees: every kept name comes from some record,
/// every contributing record's name is kept, and no name repeats.
proof fn lemma_dir_names_props(files: Seq<EntryChars>, prefix: Seq<char>)
    ensures
        forall|k: int|
            0 <= k < spec_dir_names_seq(files, prefix).len() ==> exists|t: int|
                0 <= t < files.len() && is_dir_child(#[trigger] files[t].name, prefix)
                    && spec_dir_child_name(files[t].name, prefix) == #[trigger] spec_dir_names_seq(
                    files,
                    prefix,
                )[k],
        forall|t: int|
            0 <= t < files.len() && is_dir_child(#[trigger] files[t].name, prefix)
                ==> spec_dir_names_seq(files, prefix).contains(
                spec_dir_child_name(files[t].name, prefix),
            ),
        spec_dir_names_seq(files, prefix).no_duplicates(),
    decreases files.len(),
{
    let d = spec_dir_names_seq(files, prefix);
    if files.len() == 0 {
    } else {
        let fp = files.drop_last();
        let prev = spec_dir_names_seq(fp, prefix);
        let e = files.last();
        lemma_dir_names_props(fp, prefix);
        assert forall|k: int| 0 <= k < d.len() implies exists|t: int|
            0 <= t < files.len() && is_dir_child(#[trigger] files[t].name, prefix)
                && spec_dir_child_name(files[t].name, prefix) == #[trigger] d[k] by {
            if k < prev.len() {
                assert(d[k] == prev[k]);
                let t = choose|t: int|
                    0 <= t < fp.len() && is_dir_child(#[trigger] fp[t].name, prefix)
                        && spec_dir_child_name(fp[t].name, prefix) == prev[k];
                assert(fp[t] == files[t]);
                assert(0 <= t < files.len() && is_dir_child(files[t].name, prefix)
                    && spec_dir_child_name(files[t].name, prefix) == d[k]);
            } else {
                let t = files.len() - 1;
                assert(files[t] == e);
                assert(0 <= t < files.len() && is_dir_child(files[t].name, prefix)
                    && spec_dir_child_name(files[t].name, prefix) == d[k]);
            }
        }
        assert forall|t: int|
            0 <= t < files.len() && is_dir_child(#[trigger] files[t].name, prefix) implies d
            .contains(spec_dir_child_name(files[t].name, prefix)) by {
            let name = spec_dir_child_name(files[t].name, prefix);
            if t < files.len() - 1 {
                assert(fp[t] == files[t]);
                assert(prev.contains(name));
                let k = choose|k: int| 0 <= k < prev.len() && prev[k] == name;
                assert(d[k] == prev[k]);
                assert(d.contains(name));
            } else {
                if prev.contains(name) {
                    let k = choose|k: int| 0 <= k < prev.len() && prev[k] == name;
                    assert(d[k] == prev[k]);
                    assert(d.contains(name));
                } else {
                    assert(d == prev.push(name));
                    assert(d[d.len() - 1] == name);
                    assert(d.contains(name));
                }
            }
        }
        if is_dir_child(e.name, prefix) && !prev.contains(spec_dir_child_name(e.name, prefix)) {
            let name = spec_dir_child_name(e.name, prefix);
            assert forall|k: int, l: int| 0 <= k < l < d.len() implies d[k] != d[l] by {
                if l < prev.len() {
                    assert(d[k] == prev[k] && d[l] == prev[l]);
                } else {
                    assert(d[k] == prev[k] && d[l] == name);
                    assert(prev.contains(prev[k]));
                }
            }
            assert(d.no_duplicates());
        } else {
            assert(d == prev);
        }
    }
}

/// Sorting the finished name walk yields the promised listing.
proof fn lemma_dirs_listing_from_sort(
    fviews: Seq<EntryChars>,
    pfx: Seq<char>,
    d0: Seq<Seq<char>>,
    d1: Seq<Seq<char>>,
)
    requires
        d0 == spec_dir_names_seq(fviews, pfx),
        d1.to_multiset() == d0.to_multiset(),
        crate::order::sorted_ci(d1),
    ensures
        dirs_listing_ok(fviews, pfx, d1),
{
    broadcast use vstd::seq_lib::group_to_multiset_ensures;

    lemma_dir_names_props(fviews, pfx);
    assert forall|k: int| 0 <= k < d1.len() implies exists|t: int|
        0 <= t < fviews.len() && is_dir_child(#[trigger] fviews[t].name, pfx)
            && spec_dir_child_name(fviews[t].name, pfx) == #[trigger] d1[k] by {
        assert(d1.contains(d1[k]));
        assert(d1.to_multiset().count(d1[k]) > 0);
        assert(d0.contains(d1[k]));
        let k0 = choose|k0: int| 0 <= k0 < d0.len() && d0[k0] == d1[k];
        let t = choose|t: int|
            0 <= t < fviews.len() && is_dir_child(#[trigger] fviews[t].name, pfx)
                && spec_dir_child_name(fviews[t].name, pfx) == d0[k0];
        assert(0 <= t < fviews.len() && is_dir_child(fviews[t].name, pfx) && spec_dir_child_name(
            fviews[t].name,
            pfx,
        ) == d1[k]);
    }
    assert forall|t: int|
        0 <= t < fviews.len() && is_dir_child(#[trigger] fviews[t].name, pfx) implies d1.contains(
        spec_dir_child_name(fviews[t].name, pfx),
    ) by {
        let name = spec_dir_child_name(fviews[t].name, pfx);
        assert(d0.contains(name));
        assert(d0.to_multiset().count(name) > 0);
        assert(d1.to_multiset().count(name) > 0);
    }
    d0.lemma_multiset_has_no_duplicates();
    assert forall|x: Seq<char>| d1.to_multiset().contains(x) implies d1.to_multiset().count(x)
        == 1 by {
        assert(d0.to_multiset().contains(x));
    }
    d1.lemma_multiset_has_no_duplicates_conv();
    assert(d1.no_duplicates());
    assert forall|k: int, l: int| 0 <= k < l < d1.len() implies #[trigger] d1[k]
        != #[trigger] d1[l] by {}
}

/// One more record extends a filtered listing exactly when the predicate
/// holds of it.
proof fn lemma_filter_take_step(files: Seq<EntryChars>, pred: spec_fn(EntryChars) -> bool, i: int)
    requires
        0 <= i < files.len(),
    ensures
        files.take(i + 1).filter(pred) == if pred(files[i]) {
            files.take(i).filter(pred).push(files[i])
        } else {
            files.take(i).filter(pred)
        },
{
    reveal(Seq::filter);
    let t = files.take(i + 1);
    assert(t.len() == i + 1);
    assert(t.drop_last() =~= files.take(i));
    assert(t.last() == files[i]);
}

/// An entry name at or below the directory: equal to it, or continuing it
/// past a separator; the root covers everything.
pub open spec fn is_under_or_equal(n: Seq<char>, prefix: Seq<char>) -> bool {
    prefix.len() == 0 || (n.len() >= prefix.len() && n.take(prefix.len() as int) == prefix && (
    n.len() == prefix.len() || n[prefix.len() as int] == '\\'))
}

/// The part of an entry name relative to the directory: the prefix, and
/// one following separator if present, taken off.
pub open spec fn spec_rel_loose(n: Seq<char>, prefix: Seq<char>) -> Seq<char> {
    if prefix.len() == 0 {
        n
    } else {
        let r0 = n.skip(prefix.len() as int);
        if r0.len() > 0 && r0[0] == '\\' {
            r0.skip(1)
        } else {
            r0
        }
    }
}

/// The name search hits a file: the entry lies at or below the directory
/// and its final name component reads as the searched name.
pub open spec fn is_name_match(n: Seq<char>, prefix: Seq<char>, fname: Seq<char>) -> bool {
    is_under_or_equal(n, prefix) && crate::paths::spec_basename(spec_rel_loose(n, prefix)) == fname
}

/// The full virtual directory path whose piece `idx` of a relative name
/// matched the searched name.
pub open spec fn spec_found_dir_name(prefix: Seq<char>, parts: Seq<Seq<char>>, idx: int) -> Seq<
    char,
> {
    if prefix.len() == 0 {
        crate::paths::spec_join_sep(parts.take(idx + 1), '\\')
    } else {
        prefix + seq!['\\'] + crate::paths::spec_join_sep(parts.take(idx + 1), '\\')
    }
}

/// Directory hits contributed by the first `upto` pieces of one relative
/// name, each new hit appended to the accumulator once.
pub open spec fn spec_accum_entry_dirs(
    acc: Seq<Seq<char>>,
    parts: Seq<Seq<char>>,
    upto: int,
    fname: Seq<char>,
    prefix: Seq<char>,
) -> Seq<Seq<char>>
    decreases upto,
{
    if upto <= 0 {
        acc
    } else {
        let prev = spec_accum_entry_dirs(acc, parts, upto - 1, fname, prefix);
        if parts[upto - 1] == fname {
            let d = spec_found_dir_name(prefix, parts, upto - 1);
            if prev.contains(d) {
                prev
            } else {
                prev.push(d)
            }
        } else {
            prev
        }
    }
}

/// All directory hits of the name search, across the records in table
/// order, each kept once in the order first met.
pub open spec fn spec_name_dirs(files: Seq<EntryChars>, prefix: Seq<char>, fname: Seq<char>) -> Seq<
    Seq<char>,
>
    decreases files.len(),
{
    if files.len() == 0 {
        Seq::<Seq<char>>::empty()
    } else {
        let prev = spec_name_dirs(files.drop_last(), prefix, fname);
        let e = files.last();
        if is_under_or_equal(e.name, prefix) {
            let parts = spec_split(spec_rel_loose(e.name, prefix), '\\');
            spec_accum_entry_dirs(prev, parts, parts.len() as int, fname, prefix)
        } else {
            prev
        }
    }
}

/// One more record extends the directory hits by its own pieces' hits.
proof fn lemma_name_dirs_take_step(
    files: Seq<EntryChars>,
    prefix: Seq<char>,
    fname: Seq<char>,
    i: int,
)
    requires
        0 <= i < files.len(),
    ensures
        spec_name_dirs(files.take(i + 1), prefix, fname) == ({
            let prev = spec_name_dirs(files.take(i), prefix, fname);
            if is_under_or_equal(files[i].name, prefix) {
                let parts = spec_split(spec_rel_loose(files[i].name, prefix), '\\');
                spec_accum_entry_dirs(prev, parts, parts.len() as int, fname, prefix)
            } else {
                prev
            }
        }),
{
    let t = files.take(i + 1);
    assert(t.len() == i + 1);
    assert(t.drop_last() =~= files.take(i));
    assert(t.last() == files[i]);
}

/// The accumulator keeps its names distinct as pieces are folded in.
proof fn lemma_accum_nodup(
    acc: Seq<Seq<char>>,
    parts: Seq<Seq<char>>,
    upto: int,
    fname: Seq<char>,
    prefix: Seq<char>,
)
    requires
        acc.no_duplicates(),
    ensures
        spec_accum_entry_dirs(acc, parts, upto, fname, prefix).no_duplicates(),
    decreases upto,
{
    if upto <= 0 {
    } else {
        lemma_accum_nodup(acc, parts, upto - 1, fname, prefix);
        let prev = spec_accum_entry_dirs(acc, parts, upto - 1, fname, prefix);
        if parts[upto - 1] == fname {
            let d = spec_found_dir_name(prefix, parts, upto - 1);
            if !prev.contains(d) {
                let nd = prev.push(d);
                assert forall|k: int, l: int|
                    0 <= k < nd.len() && 0 <= l < nd.len() && k != l implies nd[k] != nd[l] by {
                    if k < prev.len() && l < prev.len() {
                        assert(nd[k] == prev[k] && nd[l] == prev[l]);
                    } else if k < prev.len() {
                        assert(nd[k] == prev[k] && nd[l] == d);
                        assert(prev.contains(prev[k]));
                    } else {
                        assert(nd[k] == d && nd[l] == prev[l]);
                        assert(prev.contains(prev[l]));
                    }
                }
                assert(nd.no_duplicates());
            }
        }
    }
}

/// The directory hits of a search never repeat a name.
proof fn lemma_name_dirs_nodup(files: Seq<EntryChars>, prefix: Seq<char>, fname: Seq<char>)
    ensures
        spec_name_dirs(files, prefix, fname).no_duplicates(),
    decreases files.len(),
{
    if files.len() == 0 {
        assert(Seq::<Seq<char>>::empty().no_duplicates());
    } else {
        lemma_name_dirs_nodup(files.drop_last(), prefix, fname);
        let prev = spec_name_dirs(files.drop_last(), prefix, fname);
        let e = files.last();
        if is_under_or_equal(e.name, prefix) {
            let parts = spec_split(spec_rel_loose(e.name, prefix), '\\');
            lemma_accum_nodup(prev, parts, parts.len() as int, fname, prefix);
        }
    }
}

/// Do two character slices read the same?
fn eq_chars(a: &[char], b: &[char]) -> (r: bool)
    ensures
        r == (a@ == b@),
{
    if a.len() != b.len() {
        proof {
            assert(a@ != b@) by {
                if a@ == b@ {
                    assert(a@.len() == b@.len());
                }
            }
        }
        return false;
    }
    let n = a.len();
    let mut k: usize = 0;
    while k < n
        invariant
            n == a@.len() == b@.len(),
            k <= n,
            forall|j: int| 0 <= j < k ==> a@[j] == b@[j],
        decreases n - k,
    {
        if a[k] != b[k] {
            proof {
                assert(a@ != b@) by {
                    if a@ == b@ {
                        assert(a@[k as int] == b@[k as int]);
                    }
                }
            }
            return false;
        }
        k = k + 1;
    }
    proof {
        assert(a@ =~= b@);
    }
    true
}

/// Does some name of the list read the same as `s`?
fn contains_string(v: &Vec<String>, s: &String) -> (r: bool)
    ensures
        r == exists|k: int| 0 <= k < v@.len() && (#[trigger] v@[k])@ == s@,
{
    let mut k: usize = 0;
    while k < v.len()
        invariant
            k <= v@.len(),
            forall|j: int| 0 <= j < k ==> (#[trigger] v@[j])@ != s@,
        decreases v@.len() - k,
    {
        if s.eq(&v[k]) {
            return true;
        }
        k = k + 1;
    }
    false
}

/// Does the name continue the given prefix character for character?
fn has_prefix(n: &Vec<char>, prefix: &Vec<char>) -> (r: bool)
    ensures
        r == (n@.len() >= prefix@.len() && n@.take(prefix@.len() as int) == prefix@),
{
    if n.len() < prefix.len() {
        return false;
    }
    let m = prefix.len();
    let mut k: usize = 0;
    while k < m
        invariant
            m == prefix@.len() <= n@.len(),
            k <= m,
            forall|j: int| 0 <= j < k ==> n@[j] == prefix@[j],
        decreases m - k,
    {
        if n[k] != prefix[k] {
            proof {
                assert(n@.take(m as int)[k as int] != prefix@[k as int]);
            }
            return false;
        }
        k = k + 1;
    }
    proof {
        assert(n@.take(m as int) =~= prefix@);
    }
    true
}

/// The browse session: the archive's records and the current virtual
/// directory, always a canonical absolute path.
pub struct PakFileSystem {
    /// The archive's records, in table order.
    pub files: Vec<FileInfo>,
    /// The current virtual directory.
    pub current_path: String,
}

impl PakFileSystem {
    /// The session's invariant: the current path is canonical.
    pub open spec fn wf(&self) -> bool {
        is_canonical_path(self.current_path@)
    }

    /// A session over the given records, starting at the root.
    pub fn new(files: Vec<FileInfo>) -> (r: Self)
        ensures
            r.files == files,
            r.current_path@ == seq!['/'],
            r.wf(),
    {
        let root: String = String::from_str("/");
        proof {
            reveal_strlit("/");
            assert(root@ =~= seq!['/']);
            lemma_join_canonical(Seq::<Seq<char>>::empty());
            assert(spec_join_abs(Seq::<Seq<char>>::empty()) =~= seq!['/']);
        }
        PakFileSystem { files, current_path: root }
    }

    /// Walk navigation pieces over a directory stack: empty and `.` pieces
    /// are dropped, `..` pops unless already at the root, the rest descend.
    fn apply_parts(stack: Vec<Vec<char>>, parts: &Vec<Vec<char>>) -> (r: Vec<Vec<char>>)
        ensures
            r@.map_values(|x: Vec<char>| x@) == spec_apply_segments(
                stack@.map_values(|x: Vec<char>| x@),
                parts@.map_values(|x: Vec<char>| x@),
            ),
    {
        let ghost base0 = stack@.map_values(|x: Vec<char>| x@);
        let ghost segs = parts@.map_values(|x: Vec<char>| x@);
        let mut stack = stack;
        let mut k: usize = 0;
        proof {
            assert(segs.skip(0) =~= segs);
        }
        while k < parts.len()
            invariant
                segs == parts@.map_values(|x: Vec<char>| x@),
                k <= segs.len(),
                spec_apply_segments(base0, segs) == spec_apply_segments(
                    stack@.map_values(|x: Vec<char>| x@),
                    segs.skip(k as int),
                ),
            decreases segs.len() - k,
        {
            let part = &parts[k];
            let ghost pv = segs[k as int];
            let ghost sviews = stack@.map_values(|x: Vec<char>| x@);
            let ghost rest = segs.skip(k as int);
            proof {
                assert(rest[0] == pv);
                assert(rest.skip(1) =~= segs.skip(k + 1 as int));
            }
            if part.len() == 0 {
                proof {
                    assert(pv.len() == 0);
                }
            } else if part.len() == 1 && part[0] == '.' {
                proof {
                    assert(pv =~= seq!['.']);
                }
            } else if part.len() == 2 && part[0] == '.' && part[1] == '.' {
                proof {
                    assert(pv =~= seq!['.', '.']);
                    assert(pv.len() != 0 && pv != seq!['.']);
                }
                if stack.len() > 0 {
                    let ghost old_views = stack@.map_values(|x: Vec<char>| x@);
                    let _ = stack.pop();
                    proof {
                        assert(stack@.map_values(|x: Vec<char>| x@) =~= old_views.drop_last());
                    }
                } else {
                    proof {
                        assert(sviews.len() == 0);
                    }
                }
            } else {
                proof {
                    assert(pv.len() > 0);
                    assert(pv != seq!['.']) by {
                        if pv =~= seq!['.'] {
                            assert(part@.len() == 1 && part@[0] == '.');
                        }
                    }
                    assert(pv != seq!['.', '.']) by {
                        if pv =~= seq!['.', '.'] {
                            assert(part@.len() == 2 && part@[0] == '.' && part@[1] == '.');
                        }
                    }
                }
                let copy = slice_chars(part.as_slice(), 0, part.len());
                proof {
                    assert(copy@ =~= pv);
                }
                let ghost old_views = stack@.map_values(|x: Vec<char>| x@);
                stack.push(copy);
                proof {
                    assert(stack@.map_values(|x: Vec<char>| x@) =~= old_views.push(pv));
                }
            }
            k = k + 1;
        }
        proof {
            assert(segs.skip(segs.len() as int) =~= Seq::<Seq<char>>::empty());
        }
        stack
    }

    /// The directory stack an input resolves to, against the current path.
    fn resolve_segments(&self, path_chars: &Vec<char>) -> (r: Vec<Vec<char>>)
        requires
            self.wf(),
            path_chars@.len() > 0,
        ensures
            r@.map_values(|x: Vec<char>| x@) == spec_apply_segments(
                if path_chars@[0] == '/' {
                    Seq::<Seq<char>>::empty()
                } else {
                    spec_path_segments(self.current_path@)
                },
                spec_split(path_chars@, '/'),
            ),
    {
        let mut base: Vec<Vec<char>> = Vec::new();
        proof {
            assert(base@.map_values(|x: Vec<char>| x@) =~= Seq::<Seq<char>>::empty());
        }
        if path_chars[0] != '/' {
            let cc = str_to_chars(self.current_path.as_str());
            if cc.len() > 1 {
                let tail = slice_chars(cc.as_slice(), 1, cc.len());
                proof {
                    assert(tail@ =~= self.current_path@.skip(1));
                    assert(self.current_path@ != seq!['/']) by {
                        assert(self.current_path@.len() > 1);
                    }
                }
                base = split_chars(tail.as_slice(), '/');
            } else {
                proof {
                    assert(self.current_path@.len() == 1);
                    assert(self.current_path@[0] == '/');
                    assert(self.current_path@ =~= seq!['/']);
                    assert(spec_path_segments(self.current_path@) =~= Seq::<Seq<char>>::empty());
                }
            }
        }
        let parts = split_chars(path_chars.as_slice(), '/');
        Self::apply_parts(base, &parts)
    }

    /// Resolve a navigation input into a canonical absolute virtual path:
    /// empty input names the current directory, a leading `/` makes the
    /// input absolute, `.` and `..` step as usual, and stepping above the
    /// root quietly stays at the root.
    pub fn resolve_path(&self, path: &str) -> (r: String)
        requires
            self.wf(),
        ensures
            r@ == spec_resolve(self.current_path@, path@),
            is_canonical_path(r@),
    {
        proof {
            lemma_resolve_canonical(self.current_path@, path@);
        }
        let pv = str_to_chars(path);
        if pv.len() == 0 {
            return self.current_path.clone();
        }
        let stack = self.resolve_segments(&pv);
        let joined = join_abs_chars(&stack);
        chars_to_string(&joined)
    }

    /// The character form of the entry-name prefix a resolved path names.
    fn prefix_chars(resolved: &String) -> (r: Vec<char>)
        requires
            is_canonical_path(resolved@),
        ensures
            r@ == spec_prefix_of(resolved@),
    {
        let rv = str_to_chars(resolved.as_str());
        if rv.len() == 1 {
            proof {
                assert(resolved@ =~= seq!['/']);
            }
            Vec::new()
        } else {
            proof {
                assert(resolved@ != seq!['/']) by {
                    assert(resolved@.len() != 1);
                }
            }
            let tail = slice_chars(rv.as_slice(), 1, rv.len());
            proof {
                assert(tail@ =~= resolved@.skip(1));
            }
            backslashed_chars(tail.as_slice())
        }
    }

    /// List the immediate children of a path: its subdirectory names, each
    /// once, in case-insensitive alphabetical order, and its own files in
    /// case-insensitive alphabetical order of their final name components.
    pub fn get_entries_at_path(&self, target_path: &str) -> (r: (Vec<String>, Vec<FileInfo>))
        requires
            self.wf(),
        ensures
            ({
                let prefix = spec_prefix_of(spec_resolve(self.current_path@, target_path@));
                let fviews = self.files@.map_values(|f: FileInfo| f@);
                dirs_listing_ok(fviews, prefix, r.0@.map_values(|s: String| s@))
                    && files_listing_ok(fviews, prefix, r.1@.map_values(|f: FileInfo| f@))
            }),
    {
        let resolved = self.resolve_path(target_path);
        let prefix = Self::prefix_chars(&resolved);
        let ghost pfx = prefix@;
        let ghost fviews = self.files@.map_values(|f: FileInfo| f@);
        let plen = prefix.len();

        let mut dirs: Vec<String> = Vec::new();
        let mut files_out: Vec<FileInfo> = Vec::new();
        let mut i: usize = 0;
        proof {
            assert(fviews.take(0) =~= Seq::<EntryChars>::empty());
            reveal(Seq::filter);
            assert(spec_file_children(fviews.take(0), pfx) =~= Seq::<EntryChars>::empty());
            assert(files_out@.map_values(|f: FileInfo| f@) =~= Seq::<EntryChars>::empty());
            assert(dirs@.map_values(|s: String| s@) =~= Seq::<Seq<char>>::empty());
            assert(spec_dir_names_seq(fviews.take(0), pfx) =~= Seq::<Seq<char>>::empty());
        }
        while i < self.files.len()
            invariant
                pfx == prefix@,
                plen == pfx.len(),
                fviews == self.files@.map_values(|f: FileInfo| f@),
                i <= fviews.len(),
                files_out@.map_values(|f: FileInfo| f@) == spec_file_children(
                    fviews.take(i as int),
                    pfx,
                ),
                dirs@.map_values(|s: String| s@) == spec_dir_names_seq(
                    fviews.take(i as int),
                    pfx,
                ),
            decreases fviews.len() - i,
        {
            let f = &self.files[i];
            let nv = str_to_chars(f.file_name.as_str());
            let ghost n = fviews[i as int].name;
            proof {
                assert(n == f.file_name@);
                assert(nv@ == n);
            }
            let under: bool;
            let rem_start: usize;
            if plen == 0 {
                under = true;
                rem_start = 0;
            } else if nv.len() > plen && has_prefix(&nv, &prefix) {
                if nv[plen] == '\\' {
                    under = true;
                    rem_start = plen + 1;
                } else {
                    under = false;
                    rem_start = 0;
                }
            } else {
                under = false;
                rem_start = 0;
            }
            proof {
                assert(under == is_under(n, pfx));
                if under {
                    assert(n.skip(rem_start as int) =~= spec_rem(n, pfx));
                }
            }
            if under {
                let ghost rem = spec_rem(n, pfx);
                match find_char_from(nv.as_slice(), rem_start, '\\') {
                    Some(idx) => {
                        let ghost rel = idx - rem_start as int;
                        proof {
                            assert(spec_find_char(rem, '\\') == Some(rel));
                            crate::glob::lemma_find_char(rem, '\\');
                            assert(0 <= rel < rem.len());
                            assert(rem.len() + rem_start == nv@.len());
                            assert(!is_file_child(n, pfx));
                        }
                        if plen == 0 || idx > rem_start {
                            proof {
                                assert(is_dir_child(n, pfx));
                            }
                            let dname_v = slice_chars(nv.as_slice(), rem_start, idx);
                            proof {
                                assert(dname_v@ =~= rem.take(rel));
                                assert(dname_v@ == spec_dir_child_name(n, pfx));
                            }
                            let dname = chars_to_string(&dname_v);
                            Self::record_dir_name(
                                &mut dirs,
                                dname,
                                Ghost(fviews),
                                Ghost(pfx),
                                Ghost(i as int),
                            );
                        } else {
                            proof {
                                assert(!is_dir_child(n, pfx));
                            }
                        }
                    },
                    None => {
                        proof {
                            assert(spec_find_char(rem, '\\') is None);
                            assert(!is_dir_child(n, pfx));
                        }
                        if plen == 0 || nv.len() > rem_start {
                            proof {
                                assert(is_file_child(n, pfx));
                            }
                            files_out.push(f.duplicate());
                        } else {
                            proof {
                                assert(!is_file_child(n, pfx));
                            }
                        }
                    },
                }
            } else {
                proof {
                    assert(!is_dir_child(n, pfx));
                    assert(!is_file_child(n, pfx));
                }
            }
            proof {
                lemma_file_children_take_step(fviews, pfx, i as int);
                lemma_dir_names_take_step(fviews, pfx, i as int);
                assert(fviews.take(i + 1 as int) =~= fviews.take(i as int).push(
                    fviews[i as int],
                ));
            }
            i = i + 1;
        }
        proof {
            assert(fviews.take(fviews.len() as int) =~= fviews);
        }
        let ghost dirs_before = dirs@.map_values(|s: String| s@);
        let ghost files_before = files_out@.map_values(|f: FileInfo| f@);
        let dirs_sorted = crate::order::sort_strings_ci(dirs);
        let files_sorted = crate::order::sort_files_ci(files_out);
        proof {
            lemma_dirs_listing_from_sort(
                fviews,
                pfx,
                dirs_before,
                dirs_sorted@.map_values(|s: String| s@),
            );
        }
        (dirs_sorted, files_sorted)
    }

    /// Fold one subdirectory name into the listing built so far: add it
    /// unless a listing entry already reads the same.
    fn record_dir_name(
        dirs: &mut Vec<String>,
        dname: String,
        Ghost(fviews): Ghost<Seq<EntryChars>>,
        Ghost(pfx): Ghost<Seq<char>>,
        Ghost(i): Ghost<int>,
    )
        requires
            0 <= i < fviews.len(),
            is_dir_child(fviews[i].name, pfx),
            dname@ == spec_dir_child_name(fviews[i].name, pfx),
            old(dirs)@.map_values(|s: String| s@) == spec_dir_names_seq(fviews.take(i), pfx),
        ensures
            final(dirs)@.map_values(|s: String| s@) == spec_dir_names_seq(
                fviews.take(i + 1),
                pfx,
            ),
    {
        proof {
            lemma_dir_names_take_step(fviews, pfx, i);
        }
        let ghost prev = dirs@.map_values(|s: String| s@);
        if !contains_string(dirs, &dname) {
            proof {
                assert(!prev.contains(dname@)) by {
                    if prev.contains(dname@) {
                        let k = choose|k: int| 0 <= k < prev.len() && prev[k] == dname@;
                        assert(dirs@[k]@ == dname@);
                    }
                }
            }
            let ghost old_dirs = dirs@;
            dirs.push(dname);
            proof {
                assert(dirs@.map_values(|s: String| s@) =~= prev.push(
                    spec_dir_child_name(fviews[i].name, pfx),
                ));
            }
        } else {
            proof {
                let k = choose|k: int| 0 <= k < dirs@.len() && (#[trigger] dirs@[k])@ == dname@;
                assert(prev[k] == dname@);
                assert(prev.contains(dname@));
            }
        }
    }

    /// List the immediate children of the current directory.
    pub fn get_current_entries(&self) -> (r: (Vec<String>, Vec<FileInfo>))
        requires
            self.wf(),
        ensures
            ({
                let prefix = spec_prefix_of(self.current_path@);
                let fviews = self.files@.map_values(|f: FileInfo| f@);
                dirs_listing_ok(fviews, prefix, r.0@.map_values(|s: String| s@))
                    && files_listing_ok(fviews, prefix, r.1@.map_values(|f: FileInfo| f@))
            }),
    {
        let r = self.get_entries_at_path("");
        proof {
            reveal_strlit("");
            assert(""@.len() == 0);
            assert(spec_resolve(self.current_path@, ""@) == self.current_path@);
        }
        r
    }

    /// Change the current directory: resolve the target, then commit it
    /// only when it is the root or its final segment is listed among the
    /// subdirectories of its parent; a target no entry lives under is
    /// refused and the session stays where it was. Resolution alone is
    /// syntactic; this existence check is what makes `cd` fail on paths
    /// the archive does not hold.
    pub fn change_directory(&mut self, path: &str) -> (r: Result<(), InputError>)
        requires
            old(self).wf(),
        ensures
            final(self).files == old(self).files,
            final(self).wf(),
            ({
                let target = spec_resolve(old(self).current_path@, path@);
                let tsegs = spec_path_segments(target);
                let parent = spec_join_abs(tsegs.drop_last());
                let pfx = spec_prefix_of(parent);
                let fviews = old(self).files@.map_values(|f: FileInfo| f@);
                if target == seq!['/'] {
                    r is Ok && final(self).current_path@ == target
                } else if exists|t: int|
                    0 <= t < fviews.len() && is_dir_child(#[trigger] fviews[t].name, pfx)
                        && spec_dir_child_name(fviews[t].name, pfx) == tsegs.last() {
                    r is Ok && final(self).current_path@ == target
                } else {
                    r matches Err(e) && e == InputError::NotFound && final(self).current_path@
                        == old(self).current_path@
                }
            }),
    {
        let target = self.resolve_path(path);
        let tv = str_to_chars(target.as_str());
        let ghost tgt = target@;
        let ghost tsegs = spec_path_segments(tgt);
        if tv.len() == 1 {
            proof {
                assert(tgt =~= seq!['/']);
            }
            self.current_path = target;
            return Ok(());
        }
        proof {
            assert(tgt != seq!['/']) by {
                assert(tgt.len() != 1);
            }
            assert(tsegs.len() > 0) by {
                if tsegs.len() == 0 {
                    assert(tgt == spec_join_abs(tsegs));
                    assert(tgt == seq!['/']);
                }
            }
            crate::paths::lemma_join_parts_snoc(tsegs.drop_last(), tsegs.last());
            assert(tsegs.drop_last().push(tsegs.last()) =~= tsegs);
            assert(tgt == spec_join_parts(tsegs.drop_last()) + seq!['/'] + tsegs.last());
        }
        let ghost dl = tsegs.drop_last();
        let ghost last = tsegs.last();
        let ghost pos = spec_join_parts(dl).len() as int;
        proof {
            assert(tgt[pos] == '/');
            assert(is_valid_segment(last)) by {
                assert(tsegs[tsegs.len() - 1] == last);
            }
            assert forall|j: int| pos < j < tgt.len() implies tgt[j] != '/' by {
                assert(tgt[j] == last[j - pos - 1]);
            }
            crate::paths::lemma_rfind_char_is(tgt, '/', pos);
        }
        let found = crate::paths::rfind_char(tv.as_slice(), '/');
        let p = match found {
            Some(p) => p,
            None => {
                proof {
                    assert(false);
                }
                0
            },
        };
        let parent: String = if p == 0 {
            let s = String::from_str("/");
            proof {
                reveal_strlit("/");
                assert(s@ =~= seq!['/']);
                assert(dl.len() == 0) by {
                    if dl.len() > 0 {
                        assert(spec_join_parts(dl).len() >= 1 + dl[0].len());
                        assert(is_valid_segment(dl[0])) by {
                            assert(tsegs[0] == dl[0]);
                        }
                    }
                }
                assert(s@ == spec_join_abs(dl));
            }
            s
        } else {
            let pc = slice_chars(tv.as_slice(), 0, p);
            proof {
                assert(pc@ =~= tgt.take(pos));
                assert(tgt.take(pos) =~= spec_join_parts(dl));
                assert(dl.len() > 0) by {
                    if dl.len() == 0 {
                        assert(spec_join_parts(dl).len() == 0);
                    }
                }
            }
            chars_to_string(&pc)
        };
        let dv = slice_chars(tv.as_slice(), p + 1, tv.len());
        proof {
            assert(dv@ =~= tgt.skip(pos + 1));
            assert(tgt.skip(pos + 1) =~= last);
        }
        let dname = chars_to_string(&dv);
        proof {
            assert(parent@ == spec_join_abs(dl));
            assert forall|i: int| 0 <= i < dl.len() implies is_valid_segment(
                #[trigger] dl[i],
            ) by {
                assert(tsegs[i] == dl[i]);
            }
            lemma_join_canonical(dl);
            crate::paths::lemma_resolve_absolute(self.current_path@, parent@);
        }
        let listing = self.get_entries_at_path(parent.as_str());
        let dirs = listing.0;
        let ghost pfx = spec_prefix_of(parent@);
        let ghost fviews = self.files@.map_values(|f: FileInfo| f@);
        let ghost d1 = dirs@.map_values(|s: String| s@);
        if contains_string(&dirs, &dname) {
            proof {
                let k = choose|k: int| 0 <= k < dirs@.len() && (#[trigger] dirs@[k])@ == dname@;
                assert(d1[k] == dname@);
                assert(exists|t: int|
                    0 <= t < fviews.len() && is_dir_child(#[trigger] fviews[t].name, pfx)
                        && spec_dir_child_name(fviews[t].name, pfx) == last);
            }
            self.current_path = target;
            Ok(())
        } else {
            proof {
                if exists|t: int|
                    0 <= t < fviews.len() && is_dir_child(#[trigger] fviews[t].name, pfx)
                        && spec_dir_child_name(fviews[t].name, pfx) == last {
                    let t = choose|t: int|
                        0 <= t < fviews.len() && is_dir_child(#[trigger] fviews[t].name, pfx)
                            && spec_dir_child_name(fviews[t].name, pfx) == last;
                    assert(d1.contains(spec_dir_child_name(fviews[t].name, pfx)));
                    let k = choose|k: int| 0 <= k < d1.len() && d1[k] == last;
                    assert(dirs@[k]@ == dname@);
                    assert(false);
                }
            }
            Err(InputError::NotFound)
        }
    }

    /// Every file at or below a path, in table order, subdirectories
    /// included.
    pub fn find_all_files_in_path(&self, base_path: &str) -> (r: Vec<FileInfo>)
        requires
            self.wf(),
        ensures
            ({
                let prefix = spec_prefix_of(spec_resolve(self.current_path@, base_path@));
                r@.map_values(|f: FileInfo| f@) == self.files@.map_values(
                    |f: FileInfo| f@,
                ).filter(|e: EntryChars| is_under_or_equal(e.name, prefix))
            }),
    {
        let resolved = self.resolve_path(base_path);
        let prefix = Self::prefix_chars(&resolved);
        let ghost pfx = prefix@;
        let ghost fviews = self.files@.map_values(|f: FileInfo| f@);
        let ghost pred = |e: EntryChars| is_under_or_equal(e.name, pfx);
        let plen = prefix.len();
        let mut out: Vec<FileInfo> = Vec::new();
        let mut i: usize = 0;
        proof {
            reveal(Seq::filter);
            assert(fviews.take(0) =~= Seq::<EntryChars>::empty());
            assert(fviews.take(0).filter(pred) =~= Seq::<EntryChars>::empty());
            assert(out@.map_values(|f: FileInfo| f@) =~= Seq::<EntryChars>::empty());
        }
        while i < self.files.len()
            invariant
                pfx == prefix@,
                plen == pfx.len(),
                fviews == self.files@.map_values(|f: FileInfo| f@),
                pred == (|e: EntryChars| is_under_or_equal(e.name, pfx)),
                i <= fviews.len(),
                out@.map_values(|f: FileInfo| f@) == fviews.take(i as int).filter(pred),
            decreases fviews.len() - i,
        {
            let f = &self.files[i];
            let nv = str_to_chars(f.file_name.as_str());
            let ghost n = fviews[i as int].name;
            proof {
                assert(nv@ == n);
            }
            let keep: bool;
            if plen == 0 {
                keep = true;
            } else if nv.len() >= plen && has_prefix(&nv, &prefix) {
                keep = nv.len() == plen || nv[plen] == '\\';
            } else {
                keep = false;
            }
            proof {
                assert(keep == is_under_or_equal(n, pfx));
                assert(keep == pred(fviews[i as int]));
            }
            if keep {
                out.push(f.duplicate());
            }
            proof {
                lemma_filter_take_step(fviews, pred, i as int);
            }
            i = i + 1;
        }
        proof {
            assert(fviews.take(fviews.len() as int) =~= fviews);
        }
        out
    }

    /// The wildcard pattern a search input stands for: absolute patterns
    /// lose their leading slash, relative ones are put under the current
    /// path, and all separators become the entries' backslashes.
    pub open spec fn spec_search_pattern(current: Seq<char>, pattern: Seq<char>) -> Seq<char> {
        spec_backslashed(
            if pattern.len() > 0 && pattern[0] == '/' {
                pattern.skip(1)
            } else if current == seq!['/'] {
                pattern
            } else {
                current.skip(1) + seq!['/'] + pattern
            },
        )
    }

    /// Every file whose whole virtual name matches the wildcard pattern,
    /// in table order.
    pub fn find_by_pattern(&self, pattern: &str) -> (r: Vec<FileInfo>)
        requires
            self.wf(),
        ensures
            ({
                let np = Self::spec_search_pattern(self.current_path@, pattern@);
                r@.map_values(|f: FileInfo| f@) == self.files@.map_values(
                    |f: FileInfo| f@,
                ).filter(|e: EntryChars| crate::glob::spec_glob(e.name, np))
            }),
    {
        let pv = str_to_chars(pattern);
        let cc = str_to_chars(self.current_path.as_str());
        let mut search: Vec<char> = Vec::new();
        if pv.len() > 0 && pv[0] == '/' {
            search = slice_chars(pv.as_slice(), 1, pv.len());
            proof {
                assert(search@ =~= pattern@.skip(1));
            }
        } else if cc.len() == 1 {
            proof {
                assert(self.current_path@ =~= seq!['/']);
            }
            search = slice_chars(pv.as_slice(), 0, pv.len());
            proof {
                assert(search@ =~= pattern@);
            }
        } else {
            proof {
                assert(self.current_path@ != seq!['/']) by {
                    assert(self.current_path@.len() != 1);
                }
            }
            search = slice_chars(cc.as_slice(), 1, cc.len());
            search.push('/');
            let ghost before = search@;
            let mut q: usize = 0;
            while q < pv.len()
                invariant
                    pv@ == pattern@,
                    before == self.current_path@.skip(1) + seq!['/'],
                    q <= pv@.len(),
                    search@ == before + pv@.take(q as int),
                decreases pv@.len() - q,
            {
                search.push(pv[q]);
                assert(search@ =~= before + pv@.take(q + 1 as int));
                q = q + 1;
            }
            proof {
                assert(pv@.take(pv@.len() as int) =~= pv@);
                assert(search@ =~= self.current_path@.skip(1) + seq!['/'] + pattern@);
            }
        }
        let np = backslashed_chars(search.as_slice());
        let np_string = chars_to_string(&np);
        proof {
            assert(np@ == Self::spec_search_pattern(self.current_path@, pattern@));
        }
        let ghost npv = np@;
        let ghost fviews = self.files@.map_values(|f: FileInfo| f@);
        let ghost pred = |e: EntryChars| crate::glob::spec_glob(e.name, npv);
        let mut out: Vec<FileInfo> = Vec::new();
        let mut i: usize = 0;
        proof {
            reveal(Seq::filter);
            assert(fviews.take(0) =~= Seq::<EntryChars>::empty());
            assert(fviews.take(0).filter(pred) =~= Seq::<EntryChars>::empty());
            assert(out@.map_values(|f: FileInfo| f@) =~= Seq::<EntryChars>::empty());
        }
        while i < self.files.len()
            invariant
                npv == np_string@,
                fviews == self.files@.map_values(|f: FileInfo| f@),
                pred == (|e: EntryChars| crate::glob::spec_glob(e.name, npv)),
                i <= fviews.len(),
                out@.map_values(|f: FileInfo| f@) == fviews.take(i as int).filter(pred),
            decreases fviews.len() - i,
        {
            let f = &self.files[i];
            if crate::glob::matches_glob_pattern(f.file_name.as_str(), np_string.as_str()) {
                out.push(f.duplicate());
            }
            proof {
                lemma_filter_take_step(fviews, pred, i as int);
            }
            i = i + 1;
        }
        proof {
            assert(fviews.take(fviews.len() as int) =~= fviews);
        }
        out
    }

    /// Search the current directory and everything beneath it for an exact
    /// name: the directories one of whose components reads as the name, in
    /// plain lexicographic order without repeats, and the files whose final
    /// component reads as the name, in table order.
    pub fn find_by_name(&self, filename: &str) -> (r: (Vec<String>, Vec<FileInfo>))
        requires
            self.wf(),
        ensures
            ({
                let prefix = spec_prefix_of(self.current_path@);
                let fviews = self.files@.map_values(|f: FileInfo| f@);
                let d1 = r.0@.map_values(|s: String| s@);
                d1.to_multiset() == spec_name_dirs(fviews, prefix, filename@).to_multiset()
                    && d1.no_duplicates() && crate::order::sorted_lex(d1) && r.1@.map_values(
                    |f: FileInfo| f@,
                ) == fviews.filter(|e: EntryChars| is_name_match(e.name, prefix, filename@))
            }),
    {
        let prefix = Self::prefix_chars(&self.current_path);
        let fchars = str_to_chars(filename);
        let ghost pfx = prefix@;
        let ghost fname = filename@;
        let ghost fviews = self.files@.map_values(|f: FileInfo| f@);
        let ghost pred = |e: EntryChars| is_name_match(e.name, pfx, fname);
        let plen = prefix.len();
        let mut dirs: Vec<String> = Vec::new();
        let mut files_out: Vec<FileInfo> = Vec::new();
        let mut i: usize = 0;
        proof {
            reveal(Seq::filter);
            assert(fviews.take(0) =~= Seq::<EntryChars>::empty());
            assert(fviews.take(0).filter(pred) =~= Seq::<EntryChars>::empty());
            assert(files_out@.map_values(|f: FileInfo| f@) =~= Seq::<EntryChars>::empty());
            assert(dirs@.map_values(|s: String| s@) =~= Seq::<Seq<char>>::empty());
            assert(spec_name_dirs(fviews.take(0), pfx, fname) =~= Seq::<Seq<char>>::empty());
        }
        while i < self.files.len()
            invariant
                pfx == prefix@,
                plen == pfx.len(),
                fname == fchars@,
                fviews == self.files@.map_values(|f: FileInfo| f@),
                pred == (|e: EntryChars| is_name_match(e.name, pfx, fname)),
                i <= fviews.len(),
                files_out@.map_values(|f: FileInfo| f@) == fviews.take(i as int).filter(pred),
                dirs@.map_values(|s: String| s@) == spec_name_dirs(fviews.take(i as int), pfx, fname),
            decreases fviews.len() - i,
        {
            let f = &self.files[i];
            let nv = str_to_chars(f.file_name.as_str());
            let ghost n = fviews[i as int].name;
            proof {
                assert(nv@ == n);
            }
            let in_cur: bool;
            if plen == 0 {
                in_cur = true;
            } else if nv.len() >= plen && has_prefix(&nv, &prefix) {
                in_cur = nv.len() == plen || nv[plen] == '\\';
            } else {
                in_cur = false;
            }
            proof {
                assert(in_cur == is_under_or_equal(n, pfx));
            }
            if in_cur {
                let rel_start: usize = if plen > 0 && nv.len() > plen && nv[plen] == '\\' {
                    plen + 1
                } else {
                    plen
                };
                let rel = slice_chars(nv.as_slice(), rel_start, nv.len());
                proof {
                    assert(rel@ =~= spec_rel_loose(n, pfx));
                }
                // the file hit: the final component reads as the name
                let matched: bool = match crate::paths::rfind_char(rel.as_slice(), '\\') {
                    Some(q) => {
                        proof {
                            crate::paths::lemma_rfind_char(rel@, '\\');
                        }
                        let bn = slice_chars(rel.as_slice(), q + 1, rel.len());
                        proof {
                            assert(bn@ =~= crate::paths::spec_basename(rel@));
                        }
                        eq_chars(bn.as_slice(), fchars.as_slice())
                    },
                    None => {
                        proof {
                            assert(crate::paths::spec_basename(rel@) == rel@);
                        }
                        eq_chars(rel.as_slice(), fchars.as_slice())
                    },
                };
                proof {
                    assert(matched == is_name_match(n, pfx, fname));
                }
                if matched {
                    files_out.push(f.duplicate());
                }
                // the directory hits: every component that reads as the name
                let parts = split_chars(rel.as_slice(), '\\');
                let ghost pviews = parts@.map_values(|x: Vec<char>| x@);
                proof {
                    assert(pviews == spec_split(spec_rel_loose(n, pfx), '\\'));
                }
                let ghost base = spec_name_dirs(fviews.take(i as int), pfx, fname);
                let mut joined: Vec<char> = Vec::new();
                let mut idx: usize = 0;
                while idx < parts.len()
                    invariant
                        pfx == prefix@,
                        plen == pfx.len(),
                        fname == fchars@,
                        pviews == parts@.map_values(|x: Vec<char>| x@),
                        idx <= pviews.len(),
                        idx >= 1 ==> joined@ == crate::paths::spec_join_sep(
                            pviews.take(idx as int),
                            '\\',
                        ),
                        dirs@.map_values(|s: String| s@) == spec_accum_entry_dirs(
                            base,
                            pviews,
                            idx as int,
                            fname,
                            pfx,
                        ),
                    decreases pviews.len() - idx,
                {
                    if idx == 0 {
                        joined = slice_chars(parts[0].as_slice(), 0, parts[0].len());
                        proof {
                            assert(pviews.take(1) =~= seq![pviews[0]]);
                            assert(joined@ =~= crate::paths::spec_join_sep(pviews.take(1), '\\'));
                        }
                    } else {
                        joined.push('\\');
                        let ghost jbefore = joined@;
                        let seg = &parts[idx];
                        let mut w: usize = 0;
                        while w < seg.len()
                            invariant
                                seg@ == pviews[idx as int],
                                idx < pviews.len(),
                                w <= seg@.len(),
                                joined@ == jbefore + seg@.take(w as int),
                            decreases seg@.len() - w,
                        {
                            joined.push(seg[w]);
                            assert(joined@ =~= jbefore + seg@.take(w + 1 as int));
                            w = w + 1;
                        }
                        proof {
                            assert(seg@.take(seg@.len() as int) =~= seg@);
                            crate::paths::lemma_join_sep_snoc(
                                pviews.take(idx as int),
                                pviews[idx as int],
                                '\\',
                            );
                            assert(pviews.take(idx as int).push(pviews[idx as int]) =~= pviews.take(
                                idx + 1 as int,
                            ));
                            assert(joined@ =~= crate::paths::spec_join_sep(
                                pviews.take(idx + 1 as int),
                                '\\',
                            ));
                        }
                    }
                    if eq_chars(parts[idx].as_slice(), fchars.as_slice()) {
                        let mut dc: Vec<char> = Vec::new();
                        if plen > 0 {
                            dc = slice_chars(prefix.as_slice(), 0, prefix.len());
                            dc.push('\\');
                        }
                        let ghost dbefore = dc@;
                        let mut w: usize = 0;
                        while w < joined.len()
                            invariant
                                w <= joined@.len(),
                                dc@ == dbefore + joined@.take(w as int),
                            decreases joined@.len() - w,
                        {
                            dc.push(joined[w]);
                            assert(dc@ =~= dbefore + joined@.take(w + 1 as int));
                            w = w + 1;
                        }
                        proof {
                            assert(joined@.take(joined@.len() as int) =~= joined@);
                            assert(dc@ =~= spec_found_dir_name(pfx, pviews, idx as int));
                        }
                        let dname = chars_to_string(&dc);
                        let ghost before_dirs = dirs@.map_values(|s: String| s@);
                        if !contains_string(&dirs, &dname) {
                            proof {
                                assert(!before_dirs.contains(dname@)) by {
                                    if before_dirs.contains(dname@) {
                                        let k = choose|k: int|
                                            0 <= k < before_dirs.len() && before_dirs[k] == dname@;
                                        assert(dirs@[k]@ == dname@);
                                    }
                                }
                            }
                            dirs.push(dname);
                            proof {
                                assert(dirs@.map_values(|s: String| s@) =~= before_dirs.push(
                                    spec_found_dir_name(pfx, pviews, idx as int),
                                ));
                            }
                        } else {
                            proof {
                                let k = choose|k: int|
                                    0 <= k < dirs@.len() && (#[trigger] dirs@[k])@ == dname@;
                                assert(before_dirs[k] == dname@);
                                assert(before_dirs.contains(dname@));
                            }
                        }
                    }
                    idx = idx + 1;
                }
            } else {
                proof {
                    assert(!pred(fviews[i as int]));
                }
            }
            proof {
                lemma_filter_take_step(fviews, pred, i as int);
                lemma_name_dirs_take_step(fviews, pfx, fname, i as int);
                assert(fviews.take(i + 1 as int) =~= fviews.take(i as int).push(
                    fviews[i as int],
                ));
            }
            i = i + 1;
        }
        proof {
            assert(fviews.take(fviews.len() as int) =~= fviews);
        }
        let ghost d0 = dirs@.map_values(|s: String| s@);
        let dirs_sorted = crate::order::sort_strings_lex(dirs);
        proof {
            broadcast use vstd::seq_lib::group_to_multiset_ensures;

            let d1 = dirs_sorted@.map_values(|s: String| s@);
            lemma_name_dirs_nodup(fviews, pfx, fname);
            d0.lemma_multiset_has_no_duplicates();
            assert forall|x: Seq<char>|
                d1.to_multiset().contains(x) implies d1.to_multiset().count(x) == 1 by {
                assert(d0.to_multiset().contains(x));
            }
            d1.lemma_multiset_has_no_duplicates_conv();
        }
        (dirs_sorted, files_out)
    }

    /// Normalize a slash-delimited path from the root alone, with no
    /// current directory involved: the joined surviving segments, or the
    /// empty string where none survive.
    pub fn normalize_path(&self, path: &str) -> (r: String)
        ensures
            r@ == ({
                let stack = spec_apply_segments(
                    Seq::<Seq<char>>::empty(),
                    spec_split(path@, '/'),
                );
                if stack.len() == 0 {
                    Seq::<char>::empty()
                } else {
                    spec_join_parts(stack)
                }
            }),
    {
        let pv = str_to_chars(path);
        let parts = split_chars(pv.as_slice(), '/');
        let base: Vec<Vec<char>> = Vec::new();
        proof {
            assert(base@.map_values(|x: Vec<char>| x@) =~= Seq::<Seq<char>>::empty());
        }
        let stack = Self::apply_parts(base, &parts);
        if stack.len() == 0 {
            String::new()
        } else {
            let joined = join_abs_chars(&stack);
            chars_to_string(&joined)
        }
    }
}

} // verus!
