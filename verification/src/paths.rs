//! Virtual-path syntax: splitting on separators, canonical absolute paths,
//! and the navigation rules for `.`, `..` and nested segments.
use vstd::prelude::*;
use crate::glob::{spec_find_char, lemma_find_char};

verus! {

/// The pieces of `s` between occurrences of `sep`: always one more piece
/// than there are separators, empty pieces kept.
pub open spec fn spec_split(s: Seq<char>, sep: char) -> Seq<Seq<char>>
    decreases s.len(),
    via spec_split_decreases
{
    match spec_find_char(s, sep) {
        None => seq![s],
        Some(i) => seq![s.take(i)] + spec_split(s.skip(i + 1), sep),
    }
}

#[via_fn]
proof fn spec_split_decreases(s: Seq<char>, sep: char) {
    lemma_find_char(s, sep);
}

/// If `ch` first occurs at `i`, the finder says so.
pub proof fn lemma_find_char_is(s: Seq<char>, ch: char, i: int)
    requires
        0 <= i < s.len(),
        s[i] == ch,
        forall|j: int| 0 <= j < i ==> s[j] != ch,
    ensures
        spec_find_char(s, ch) == Some(i),
{
    lemma_find_char(s, ch);
    match spec_find_char(s, ch) {
        None => {
            assert(false);
        },
        Some(k) => {
            if k < i {
                assert(s[k] != ch);
                assert(false);
            }
            if k > i {
                assert(s[i] != ch);
                assert(false);
            }
        },
    }
}

/// No piece of a split holds the separator it was split on.
pub proof fn lemma_split_no_sep(s: Seq<char>, sep: char)
    ensures
        forall|k: int, j: int|
            0 <= k < spec_split(s, sep).len() && 0 <= j < spec_split(s, sep)[k].len()
                ==> #[trigger] spec_split(s, sep)[k][j] != sep,
    decreases s.len(),
{
    lemma_find_char(s, sep);
    match spec_find_char(s, sep) {
        None => {},
        Some(i) => {
            lemma_split_no_sep(s.skip(i + 1), sep);
            let sp = spec_split(s, sep);
            let rest = spec_split(s.skip(i + 1), sep);
            assert forall|k: int, j: int|
                0 <= k < sp.len() && 0 <= j < sp[k].len() implies #[trigger] sp[k][j] != sep by {
                if k == 0 {
                    assert(sp[0] == s.take(i));
                    assert(s.take(i)[j] == s[j]);
                } else {
                    assert(sp[k] == rest[k - 1]);
                }
            }
        },
    }
}

/// A navigation segment that names a real step: not empty, not `.` or
/// `..`, and free of the separator.
pub open spec fn is_valid_segment(s: Seq<char>) -> bool {
    s.len() > 0 && s != seq!['.'] && s != seq!['.', '.'] && (forall|j: int|
        0 <= j < s.len() ==> s[j] != '/')
}

/// `/`, then each segment prefixed by `/`; used for nonempty stacks.
pub open spec fn spec_join_parts(segs: Seq<Seq<char>>) -> Seq<char>
    decreases segs.len(),
{
    if segs.len() == 0 {
        Seq::<char>::empty()
    } else {
        seq!['/'] + segs[0] + spec_join_parts(segs.skip(1))
    }
}

/// The canonical absolute path with the given segments: `/` when there are
/// none, else every segment prefixed by `/`.
pub open spec fn spec_join_abs(segs: Seq<Seq<char>>) -> Seq<char> {
    if segs.len() == 0 {
        seq!['/']
    } else {
        spec_join_parts(segs)
    }
}

/// The segments of a canonical absolute path.
pub open spec fn spec_path_segments(p: Seq<char>) -> Seq<Seq<char>> {
    if p == seq!['/'] {
        Seq::<Seq<char>>::empty()
    } else {
        spec_split(p.skip(1), '/')
    }
}

/// A canonical absolute path: slash-rooted, no trailing slash except the
/// root itself, no empty and no `.`/`..` segments.
pub open spec fn is_canonical_path(p: Seq<char>) -> bool {
    &&& p.len() >= 1
    &&& p[0] == '/'
    &&& p == spec_join_abs(spec_path_segments(p))
    &&& forall|i: int|
        0 <= i < spec_path_segments(p).len() ==> is_valid_segment(
            #[trigger] spec_path_segments(p)[i],
        )
}

/// Fold the navigation segments over a directory stack: empty and `.`
/// segments change nothing, `..` pops unless the stack is already at the
/// root, anything else descends.
pub open spec fn spec_apply_segments(base: Seq<Seq<char>>, segs: Seq<Seq<char>>) -> Seq<Seq<char>>
    decreases segs.len(),
{
    if segs.len() == 0 {
        base
    } else {
        let first = segs[0];
        let stepped = if first.len() == 0 || first == seq!['.'] {
            base
        } else if first == seq!['.', '.'] {
            if base.len() > 0 {
                base.drop_last()
            } else {
                base
            }
        } else {
            base.push(first)
        };
        spec_apply_segments(stepped, segs.skip(1))
    }
}

/// Resolution of a navigation input against a current path: empty input
/// keeps the current path; an input starting with `/` starts over from the
/// root; anything else walks from the current path's segments.
pub open spec fn spec_resolve(current: Seq<char>, input: Seq<char>) -> Seq<char> {
    if input.len() == 0 {
        current
    } else {
        let base = if input[0] == '/' {
            Seq::<Seq<char>>::empty()
        } else {
            spec_path_segments(current)
        };
        spec_join_abs(spec_apply_segments(base, spec_split(input, '/')))
    }
}

/// Splitting a joined segment list gives the segments back, provided each
/// is a real step (no separators, none empty).
pub proof fn lemma_split_of_join(segs: Seq<Seq<char>>)
    requires
        segs.len() >= 1,
        forall|i: int| 0 <= i < segs.len() ==> is_valid_segment(#[trigger] segs[i]),
    ensures
        spec_split(segs[0] + spec_join_parts(segs.skip(1)), '/') == segs,
    decreases segs.len(),
{
    let s0 = segs[0];
    let tail = spec_join_parts(segs.skip(1));
    let s = s0 + tail;
    if segs.len() == 1 {
        assert(tail =~= Seq::<char>::empty());
        assert(s =~= s0);
        lemma_find_char(s, '/');
        match spec_find_char(s, '/') {
            None => {
                assert(spec_split(s, '/') == seq![s]);
                assert(seq![s] =~= segs);
            },
            Some(i) => {
                assert(s[i] == '/');
                assert(s0[i] != '/');
                assert(false);
            },
        }
    } else {
        let rest = segs.skip(1);
        assert(rest.len() >= 1);
        assert(tail == seq!['/'] + rest[0] + spec_join_parts(rest.skip(1)));
        // the first separator of the joined string closes the first segment
        assert(s[s0.len() as int] == '/');
        assert forall|j: int| 0 <= j < s0.len() implies s[j] != '/' by {
            assert(s[j] == s0[j]);
        }
        lemma_find_char_is(s, '/', s0.len() as int);
        assert(s.take(s0.len() as int) =~= s0);
        assert(s.skip(s0.len() as int + 1) =~= rest[0] + spec_join_parts(rest.skip(1)));
        assert forall|i: int| 0 <= i < rest.len() implies is_valid_segment(#[trigger] rest[i]) by {
            assert(rest[i] == segs[i + 1]);
        }
        lemma_split_of_join(rest);
        assert(spec_split(s, '/') == seq![s0] + spec_split(s.skip(s0.len() as int + 1), '/'));
        assert(seq![s0] + rest =~= segs);
    }
}

/// A joined segment list is a canonical path with exactly those segments.
pub proof fn lemma_join_canonical(segs: Seq<Seq<char>>)
    requires
        forall|i: int| 0 <= i < segs.len() ==> is_valid_segment(#[trigger] segs[i]),
    ensures
        is_canonical_path(spec_join_abs(segs)),
        spec_path_segments(spec_join_abs(segs)) == segs,
{
    let p = spec_join_abs(segs);
    if segs.len() == 0 {
        assert(p =~= seq!['/']);
    } else {
        assert(p == seq!['/'] + segs[0] + spec_join_parts(segs.skip(1)));
        assert(p[0] == '/');
        assert(p.len() >= 1 + segs[0].len());
        assert(segs[0].len() >= 1);
        assert(p.len() >= 2);
        assert(p != seq!['/']);
        assert(p.skip(1) =~= segs[0] + spec_join_parts(segs.skip(1)));
        lemma_split_of_join(segs);
        assert(spec_path_segments(p) == segs);
    }
}

/// Every stack the navigation rules can build out of a valid stack is
/// itself valid: nothing pushes an empty, `.`, `..` or slashed segment.
pub proof fn lemma_apply_segments_valid(base: Seq<Seq<char>>, segs: Seq<Seq<char>>)
    requires
        forall|i: int| 0 <= i < base.len() ==> is_valid_segment(#[trigger] base[i]),
        forall|k: int, j: int|
            0 <= k < segs.len() && 0 <= j < segs[k].len() ==> #[trigger] segs[k][j] != '/',
    ensures
        forall|i: int|
            0 <= i < spec_apply_segments(base, segs).len() ==> is_valid_segment(
                #[trigger] spec_apply_segments(base, segs)[i],
            ),
    decreases segs.len(),
{
    if segs.len() == 0 {
    } else {
        let first = segs[0];
        let stepped = if first.len() == 0 || first == seq!['.'] {
            base
        } else if first == seq!['.', '.'] {
            if base.len() > 0 {
                base.drop_last()
            } else {
                base
            }
        } else {
            base.push(first)
        };
        assert forall|i: int| 0 <= i < stepped.len() implies is_valid_segment(
            #[trigger] stepped[i],
        ) by {
            if first.len() == 0 || first == seq!['.'] {
            } else if first == seq!['.', '.'] {
                assert(stepped[i] == base[i]);
            } else {
                if i < base.len() {
                    assert(stepped[i] == base[i]);
                } else {
                    assert(stepped[i] == first);
                    assert(forall|j: int| 0 <= j < first.len() ==> first[j] != '/');
                }
            }
        }
        let rest = segs.skip(1);
        assert forall|k: int, j: int|
            0 <= k < rest.len() && 0 <= j < rest[k].len() implies #[trigger] rest[k][j]
            != '/' by {
            assert(rest[k] == segs[k + 1]);
        }
        lemma_apply_segments_valid(stepped, rest);
        assert(spec_apply_segments(base, segs) == spec_apply_segments(stepped, rest));
    }
}

/// What resolution returns is always canonical, from any canonical state.
pub proof fn lemma_resolve_canonical(current: Seq<char>, input: Seq<char>)
    requires
        is_canonical_path(current),
    ensures
        is_canonical_path(spec_resolve(current, input)),
{
    if input.len() == 0 {
    } else {
        let base = if input[0] == '/' {
            Seq::<Seq<char>>::empty()
        } else {
            spec_path_segments(current)
        };
        lemma_split_no_sep(input, '/');
        lemma_apply_segments_valid(base, spec_split(input, '/'));
        lemma_join_canonical(spec_apply_segments(base, spec_split(input, '/')));
    }
}

/// Joining grows one segment at a time.
pub proof fn lemma_join_parts_snoc(segs: Seq<Seq<char>>, s: Seq<char>)
    ensures
        spec_join_parts(segs.push(s)) == spec_join_parts(segs) + seq!['/'] + s,
    decreases segs.len(),
{
    if segs.len() == 0 {
        assert(segs.push(s)[0] == s);
        assert(segs.push(s).skip(1) =~= Seq::<Seq<char>>::empty());
        assert(spec_join_parts(segs.push(s)) == seq!['/'] + segs.push(s)[0] + spec_join_parts(
            segs.push(s).skip(1),
        ));
        assert(spec_join_parts(segs.push(s).skip(1)) == Seq::<char>::empty());
        assert(spec_join_parts(segs) == Seq::<char>::empty());
        assert(spec_join_parts(segs.push(s)) =~= spec_join_parts(segs) + seq!['/'] + s);
    } else {
        assert(segs.push(s).skip(1) =~= segs.skip(1).push(s));
        lemma_join_parts_snoc(segs.skip(1), s);
        assert(segs.push(s)[0] == segs[0]);
        assert(segs.push(s).len() > 0);
        assert(spec_join_parts(segs.push(s)) == seq!['/'] + segs.push(s)[0] + spec_join_parts(
            segs.push(s).skip(1),
        ));
        assert(spec_join_parts(segs.push(s)) == seq!['/'] + segs[0] + (spec_join_parts(
            segs.skip(1),
        ) + seq!['/'] + s));
        assert(spec_join_parts(segs) == seq!['/'] + segs[0] + spec_join_parts(segs.skip(1)));
        assert(spec_join_parts(segs.push(s)) =~= spec_join_parts(segs) + seq!['/'] + s);
    }
}

/// Segments that are all real steps are simply appended by the walk.
pub proof fn lemma_apply_plain(base: Seq<Seq<char>>, segs: Seq<Seq<char>>)
    requires
        forall|i: int| 0 <= i < segs.len() ==> is_valid_segment(#[trigger] segs[i]),
    ensures
        spec_apply_segments(base, segs) == base + segs,
    decreases segs.len(),
{
    if segs.len() == 0 {
        assert(base + segs =~= base);
    } else {
        let first = segs[0];
        assert(is_valid_segment(first));
        assert(first.len() > 0 && first != seq!['.'] && first != seq!['.', '.']);
        lemma_apply_plain(base.push(first), segs.skip(1));
        assert(base.push(first) + segs.skip(1) =~= base + segs);
    }
}

/// Resolving a canonical absolute path from any state returns it as it is.
pub proof fn lemma_resolve_absolute(current: Seq<char>, p: Seq<char>)
    requires
        is_canonical_path(p),
    ensures
        spec_resolve(current, p) == p,
{
    if p == seq!['/'] {
        lemma_resolve_root(current);
    } else {
        let segs = spec_path_segments(p);
        assert(segs.len() > 0) by {
            if segs.len() == 0 {
                assert(p == spec_join_abs(segs));
                assert(p == seq!['/']);
            }
        }
        assert(p == spec_join_parts(segs));
        assert(p == seq!['/'] + segs[0] + spec_join_parts(segs.skip(1)));
        assert(p[0] == '/');
        // the split of the input puts one empty piece before the segments
        assert(p.skip(1) =~= segs[0] + spec_join_parts(segs.skip(1)));
        lemma_split_of_join(segs);
        lemma_find_char_is(p, '/', 0);
        assert(p.take(0) =~= Seq::<char>::empty());
        assert(spec_split(p, '/') == seq![Seq::<char>::empty()] + spec_split(p.skip(1), '/'));
        let pieces = spec_split(p, '/');
        assert(pieces == seq![Seq::<char>::empty()] + segs);
        assert(pieces[0].len() == 0);
        assert(spec_apply_segments(Seq::<Seq<char>>::empty(), pieces) == spec_apply_segments(
            Seq::<Seq<char>>::empty(),
            pieces.skip(1),
        ));
        assert(pieces.skip(1) =~= segs);
        lemma_apply_plain(Seq::<Seq<char>>::empty(), segs);
        assert(Seq::<Seq<char>>::empty() + segs =~= segs);
        assert(spec_resolve(current, p) == spec_join_abs(segs));
    }
}

/// Split a character slice on a separator, keeping empty pieces.
pub fn split_chars(v: &[char], sep: char) -> (r: Vec<Vec<char>>)
    ensures
        r@.map_values(|x: Vec<char>| x@) == spec_split(v@, sep),
{
    let n = v.len();
    let mut parts: Vec<Vec<char>> = Vec::new();
    let mut cur: Vec<char> = Vec::new();
    let mut i: usize = 0;
    proof {
        assert(v@.skip(0) =~= v@);
        assert(cur@ + v@.skip(0) =~= v@);
        assert(parts@.map_values(|x: Vec<char>| x@) =~= Seq::<Seq<char>>::empty());
        assert(Seq::<Seq<char>>::empty() + spec_split(v@, sep) =~= spec_split(v@, sep));
    }
    while i < n
        invariant
            n == v@.len(),
            i <= n,
            forall|j: int| 0 <= j < cur@.len() ==> cur@[j] != sep,
            spec_split(v@, sep) == parts@.map_values(|x: Vec<char>| x@) + spec_split(
                cur@ + v@.skip(i as int),
                sep,
            ),
        decreases n - i,
    {
        let c = v[i];
        let ghost s = cur@ + v@.skip(i as int);
        proof {
            assert(s[cur@.len() as int] == v@[i as int]) by {
                assert(v@.skip(i as int)[0] == v@[i as int]);
            }
        }
        if c == sep {
            proof {
                assert forall|j: int| 0 <= j < cur@.len() implies s[j] != sep by {
                    assert(s[j] == cur@[j]);
                }
                lemma_find_char_is(s, sep, cur@.len() as int);
                assert(s.take(cur@.len() as int) =~= cur@);
                assert(s.skip(cur@.len() as int + 1) =~= v@.skip(i + 1 as int));
                assert(spec_split(s, sep) == seq![cur@] + spec_split(v@.skip(i + 1 as int), sep));
            }
            let ghost old_parts = parts@.map_values(|x: Vec<char>| x@);
            let ghost old_cur = cur@;
            parts.push(cur);
            cur = Vec::new();
            proof {
                assert(parts@.map_values(|x: Vec<char>| x@) =~= old_parts.push(old_cur));
                assert(old_parts + (seq![old_cur] + spec_split(v@.skip(i + 1 as int), sep))
                    =~= old_parts.push(old_cur) + spec_split(v@.skip(i + 1 as int), sep));
                assert(cur@ + v@.skip(i + 1 as int) =~= v@.skip(i + 1 as int));
            }
        } else {
            let ghost old_cur = cur@;
            cur.push(c);
            proof {
                assert(cur@ + v@.skip(i + 1 as int) =~= old_cur + v@.skip(i as int));
            }
        }
        i = i + 1;
    }
    proof {
        assert(v@.skip(i as int) =~= Seq::<char>::empty());
        let s = cur@ + v@.skip(i as int);
        assert(s =~= cur@);
        lemma_find_char(cur@, sep);
        match spec_find_char(cur@, sep) {
            None => {},
            Some(k) => {
                assert(cur@[k] != sep);
                assert(false);
            },
        }
        assert(spec_split(cur@, sep) == seq![cur@]);
    }
    let ghost old_parts = parts@.map_values(|x: Vec<char>| x@);
    let ghost old_cur = cur@;
    parts.push(cur);
    proof {
        assert(parts@.map_values(|x: Vec<char>| x@) =~= old_parts.push(old_cur));
        assert(old_parts + seq![old_cur] =~= old_parts.push(old_cur));
    }
    parts
}

/// Join a segment stack into its canonical absolute path.
pub fn join_abs_chars(segs: &Vec<Vec<char>>) -> (r: Vec<char>)
    ensures
        r@ == spec_join_abs(segs@.map_values(|x: Vec<char>| x@)),
{
    let ghost views = segs@.map_values(|x: Vec<char>| x@);
    if segs.len() == 0 {
        let mut out: Vec<char> = Vec::new();
        out.push('/');
        proof {
            assert(out@ =~= seq!['/']);
        }
        return out;
    }
    let mut out: Vec<char> = Vec::new();
    let mut k: usize = 0;
    proof {
        assert(views.take(0) =~= Seq::<Seq<char>>::empty());
    }
    while k < segs.len()
        invariant
            views == segs@.map_values(|x: Vec<char>| x@),
            k <= views.len(),
            out@ == spec_join_parts(views.take(k as int)),
        decreases views.len() - k,
    {
        let ghost old_out = out@;
        out.push('/');
        let mut j: usize = 0;
        let seg = &segs[k];
        while j < seg.len()
            invariant
                views == segs@.map_values(|x: Vec<char>| x@),
                k < views.len(),
                seg@ == views[k as int],
                j <= seg@.len(),
                out@ == old_out + seq!['/'] + seg@.take(j as int),
            decreases seg@.len() - j,
        {
            out.push(seg[j]);
            assert(out@ =~= old_out + seq!['/'] + seg@.take(j + 1 as int));
            j = j + 1;
        }
        proof {
            assert(seg@.take(seg@.len() as int) =~= seg@);
            lemma_join_parts_snoc(views.take(k as int), views[k as int]);
            assert(views.take(k + 1 as int) =~= views.take(k as int).push(views[k as int]));
        }
        k = k + 1;
    }
    proof {
        assert(views.take(views.len() as int) =~= views);
        assert(views.len() > 0);
    }
    out
}

/// Pieces joined with a separator between each pair, none leading.
pub open spec fn spec_join_sep(parts: Seq<Seq<char>>, sep: char) -> Seq<char>
    decreases parts.len(),
{
    if parts.len() == 0 {
        Seq::<char>::empty()
    } else if parts.len() == 1 {
        parts[0]
    } else {
        parts[0] + seq![sep] + spec_join_sep(parts.skip(1), sep)
    }
}

/// Joining with a separator grows one piece at a time.
pub proof fn lemma_join_sep_snoc(parts: Seq<Seq<char>>, p: Seq<char>, sep: char)
    requires
        parts.len() >= 1,
    ensures
        spec_join_sep(parts.push(p), sep) == spec_join_sep(parts, sep) + seq![sep] + p,
    decreases parts.len(),
{
    if parts.len() == 1 {
        assert(parts.push(p)[0] == parts[0]);
        assert(parts.push(p).skip(1) =~= seq![p]);
        assert(spec_join_sep(seq![p], sep) == p);
        assert(spec_join_sep(parts.push(p), sep) == parts[0] + seq![sep] + p);
        assert(spec_join_sep(parts, sep) == parts[0]);
    } else {
        assert(parts.push(p).skip(1) =~= parts.skip(1).push(p));
        lemma_join_sep_snoc(parts.skip(1), p, sep);
        assert(parts.push(p)[0] == parts[0]);
        assert(parts.push(p).len() >= 2);
        assert(spec_join_sep(parts.push(p), sep) == parts[0] + seq![sep] + spec_join_sep(
            parts.push(p).skip(1),
            sep,
        ));
        assert(spec_join_sep(parts.push(p), sep) == parts[0] + seq![sep] + (spec_join_sep(
            parts.skip(1),
            sep,
        ) + seq![sep] + p));
        assert(spec_join_sep(parts, sep) == parts[0] + seq![sep] + spec_join_sep(
            parts.skip(1),
            sep,
        ));
        assert(spec_join_sep(parts.push(p), sep) =~= spec_join_sep(parts, sep) + seq![sep] + p);
    }
}

/// The last index of `ch` in `s`, if any.
pub open spec fn spec_rfind_char(s: Seq<char>, ch: char) -> Option<int>
    decreases s.len(),
{
    if s.len() == 0 {
        None
    } else if s[s.len() - 1] == ch {
        Some(s.len() - 1)
    } else {
        spec_rfind_char(s.drop_last(), ch)
    }
}

/// A found last index holds the character and nothing after it does; when
/// nothing is found the character is absent.
pub proof fn lemma_rfind_char(s: Seq<char>, ch: char)
    ensures
        match spec_rfind_char(s, ch) {
            Some(i) => 0 <= i < s.len() && s[i] == ch && (forall|j: int|
                i < j < s.len() ==> s[j] != ch),
            None => forall|j: int| 0 <= j < s.len() ==> s[j] != ch,
        },
    decreases s.len(),
{
    if s.len() == 0 {
    } else if s[s.len() - 1] == ch {
    } else {
        lemma_rfind_char(s.drop_last(), ch);
        match spec_rfind_char(s.drop_last(), ch) {
            None => {
                assert forall|j: int| 0 <= j < s.len() implies s[j] != ch by {
                    if j < s.len() - 1 {
                        assert(s.drop_last()[j] == s[j]);
                    }
                }
            },
            Some(i) => {
                assert(s.drop_last()[i] == s[i]);
                assert forall|j: int| i < j < s.len() implies s[j] != ch by {
                    if j < s.len() - 1 {
                        assert(s.drop_last()[j] == s[j]);
                    }
                }
            },
        }
    }
}

/// If `ch` last occurs at `i`, the finder says so.
pub proof fn lemma_rfind_char_is(s: Seq<char>, ch: char, i: int)
    requires
        0 <= i < s.len(),
        s[i] == ch,
        forall|j: int| i < j < s.len() ==> s[j] != ch,
    ensures
        spec_rfind_char(s, ch) == Some(i),
{
    lemma_rfind_char(s, ch);
    match spec_rfind_char(s, ch) {
        None => {
            assert(false);
        },
        Some(k) => {
            if k < i {
                assert(s[i] != ch);
                assert(false);
            }
            if k > i {
                assert(s[k] != ch);
                assert(false);
            }
        },
    }
}

/// Find the last occurrence of `ch` in `v`.
pub fn rfind_char(v: &[char], ch: char) -> (r: Option<usize>)
    ensures
        match spec_rfind_char(v@, ch) {
            None => r is None,
            Some(i) => r matches Some(a) && a == i,
        },
{
    proof {
        lemma_rfind_char(v@, ch);
    }
    let mut i: usize = v.len();
    while i > 0
        invariant
            i <= v@.len(),
            forall|j: int| i <= j < v@.len() ==> v@[j] != ch,
        decreases i,
    {
        if v[i - 1] == ch {
            proof {
                lemma_rfind_char_is(v@, ch, i - 1);
            }
            return Some(i - 1);
        }
        i = i - 1;
    }
    proof {
        lemma_rfind_char(v@, ch);
        match spec_rfind_char(v@, ch) {
            None => {},
            Some(k) => {
                assert(v@[k] != ch);
                assert(false);
            },
        }
    }
    None
}

/// The final component of a backslash-delimited name: everything after the
/// last separator, or the whole name when it has none.
pub open spec fn spec_basename(n: Seq<char>) -> Seq<char> {
    match spec_rfind_char(n, '\\') {
        None => n,
        Some(i) => n.skip(i + 1),
    }
}

/// The final component of a name, executed; see `spec_basename`.
pub fn basename_str(s: &str) -> (r: String)
    ensures
        r@ == spec_basename(s@),
{
    let v = crate::chars::str_to_chars(s);
    proof {
        lemma_rfind_char(s@, '\\');
    }
    let mut i: usize = v.len();
    while i > 0
        invariant
            v@ == s@,
            i <= s@.len(),
            forall|j: int| i <= j < s@.len() ==> s@[j] != '\\',
        decreases i,
    {
        if v[i - 1] == '\\' {
            let mut out: Vec<char> = Vec::new();
            let mut j: usize = i;
            while j < v.len()
                invariant
                    v@ == s@,
                    i <= j <= s@.len(),
                    out@ == s@.subrange(i as int, j as int),
                decreases s@.len() - j,
            {
                out.push(v[j]);
                assert(out@ =~= s@.subrange(i as int, j + 1 as int));
                j = j + 1;
            }
            proof {
                lemma_rfind_char(s@, '\\');
                match spec_rfind_char(s@, '\\') {
                    None => {
                        assert(false);
                    },
                    Some(k) => {
                        if k < i - 1 {
                            assert(s@[i - 1] != '\\');
                            assert(false);
                        }
                        if k > i - 1 {
                            assert(s@[k] != '\\');
                            assert(false);
                        }
                        assert(out@ =~= s@.skip(k + 1));
                    },
                }
            }
            return crate::chars::chars_to_string(&out);
        }
        i = i - 1;
    }
    proof {
        lemma_rfind_char(s@, '\\');
        match spec_rfind_char(s@, '\\') {
            None => {},
            Some(k) => {
                assert(s@[k] != '\\');
                assert(false);
            },
        }
    }
    crate::chars::chars_to_string(&v)
}

/// Resolving `/` lands at the root, whatever the current path is.
pub proof fn lemma_resolve_root(current: Seq<char>)
    ensures
        spec_resolve(current, seq!['/']) == seq!['/'],
{
    let input = seq!['/'];
    let e = Seq::<char>::empty();
    let eb = Seq::<Seq<char>>::empty();
    lemma_find_char_is(input, '/', 0);
    assert(input.take(0) =~= e);
    assert(input.skip(1) =~= e);
    lemma_find_char(e, '/');
    assert(spec_find_char(e, '/') is None);
    assert(spec_split(e, '/') == seq![e]);
    let segs = spec_split(input, '/');
    assert(segs =~~= seq![e, e]);
    assert(segs[0] == e && segs[0].len() == 0);
    assert(spec_apply_segments(eb, segs) == spec_apply_segments(eb, segs.skip(1)));
    assert(segs.skip(1) =~~= seq![e]);
    assert(spec_apply_segments(eb, seq![e]) == spec_apply_segments(eb, seq![e].skip(1)));
    assert(seq![e].skip(1) =~~= eb);
    assert(spec_apply_segments(eb, eb) == eb);
    assert(spec_apply_segments(eb, segs) == eb);
    assert(spec_join_abs(eb) == seq!['/']);
    assert(spec_resolve(current, input) == seq!['/']);
}

/// Resolving `..` at the root stays at the root: popping past the root is
/// a quiet no-op, not an error.
pub proof fn lemma_resolve_dotdot_at_root()
    ensures
        spec_resolve(seq!['/'], seq!['.', '.']) == seq!['/'],
{
    let input = seq!['.', '.'];
    lemma_find_char(input, '/');
    match spec_find_char(input, '/') {
        None => {},
        Some(i) => {
            assert(input[i] == '/');
            assert(false);
        },
    }
    assert(spec_split(input, '/') == seq![input]);
    assert(spec_path_segments(seq!['/']) =~= Seq::<Seq<char>>::empty());
    let segs = spec_split(input, '/');
    assert(segs[0] == input);
    assert(spec_apply_segments(Seq::<Seq<char>>::empty(), segs)
        == spec_apply_segments(Seq::<Seq<char>>::empty(), segs.skip(1)));
    assert(segs.skip(1) =~= Seq::<Seq<char>>::empty());
}

} // verus!
