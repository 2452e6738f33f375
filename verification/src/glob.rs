//! The wildcard matcher: `*`, `?`, and bracket character classes, anchored
//! at both ends of the string, with path separators given no special role.
use vstd::prelude::*;
use crate::chars::str_to_chars;

verus! {

/// The first index of `ch` in `s`, if any.
pub open spec fn spec_find_char(s: Seq<char>, ch: char) -> Option<int>
    decreases s.len(),
{
    if s.len() == 0 {
        None
    } else if s[0] == ch {
        Some(0)
    } else {
        match spec_find_char(s.skip(1), ch) {
            None => None,
            Some(i) => Some(i + 1),
        }
    }
}

/// A found index holds the character, nothing before it does, and it lies
/// within the string; when nothing is found the character is absent.
pub proof fn lemma_find_char(s: Seq<char>, ch: char)
    ensures
        match spec_find_char(s, ch) {
            Some(i) => 0 <= i < s.len() && s[i] == ch && (forall|j: int| 0 <= j < i ==> s[j] != ch),
            None => forall|j: int| 0 <= j < s.len() ==> s[j] != ch,
        },
    decreases s.len(),
{
    if s.len() == 0 {
    } else if s[0] == ch {
    } else {
        lemma_find_char(s.skip(1), ch);
        match spec_find_char(s.skip(1), ch) {
            None => {
                assert forall|j: int| 0 <= j < s.len() implies s[j] != ch by {
                    if j > 0 {
                        assert(s.skip(1)[j - 1] == s[j]);
                    }
                }
            },
            Some(i) => {
                assert(s.skip(1)[i] == s[i + 1]);
                assert forall|j: int| 0 <= j < i + 1 implies s[j] != ch by {
                    if j > 0 {
                        assert(s.skip(1)[j - 1] == s[j]);
                    }
                }
            },
        }
    }
}

/// Whether `ch` lies in a bracket class body (the characters between the
/// brackets, any leading `!` already stripped): a three-character run whose
/// middle is `-` is a code-point range, any other character stands for
/// itself.
pub open spec fn spec_class_contains(body: Seq<char>, ch: char) -> bool
    decreases body.len(),
{
    if body.len() == 0 {
        false
    } else if body.len() >= 3 && body[1] == '-' {
        ((body[0] as u32) <= (ch as u32) && (ch as u32) <= (body[2] as u32))
            || spec_class_contains(body.skip(3), ch)
    } else {
        ch == body[0] || spec_class_contains(body.skip(1), ch)
    }
}

/// One character against one bracket class: a leading `!` negates the
/// class, an empty class matches nothing.
pub open spec fn spec_class_matches(class: Seq<char>, ch: char) -> bool {
    if class.len() == 0 {
        false
    } else if class[0] == '!' {
        !spec_class_contains(class.skip(1), ch)
    } else {
        spec_class_contains(class, ch)
    }
}

/// The matching relation of text against pattern, both taken whole:
/// an empty pattern asks for an empty text; an exhausted text asks that
/// only `*` remain; `*` swallows any run of characters; `?` exactly one;
/// a bracket class one character from the class; an unterminated `[` is a
/// literal; any other character stands for itself.
pub open spec fn spec_glob(t: Seq<char>, p: Seq<char>) -> bool
    decreases p.len(), t.len(),
    via spec_glob_decreases
{
    if p.len() == 0 {
        t.len() == 0
    } else if t.len() == 0 {
        forall|i: int| 0 <= i < p.len() ==> p[i] == '*'
    } else if p[0] == '*' {
        exists|k: int| 0 <= k <= t.len() && spec_glob(t.skip(k), p.skip(1))
    } else if p[0] == '?' {
        spec_glob(t.skip(1), p.skip(1))
    } else if p[0] == '[' {
        match spec_find_char(p, ']') {
            Some(e) => spec_class_matches(p.subrange(1, e), t[0]) && spec_glob(
                t.skip(1),
                p.skip(e + 1),
            ),
            None => t[0] == '[' && spec_glob(t.skip(1), p.skip(1)),
        }
    } else {
        t[0] == p[0] && spec_glob(t.skip(1), p.skip(1))
    }
}

#[via_fn]
proof fn spec_glob_decreases(t: Seq<char>, p: Seq<char>) {
    if p.len() > 0 && t.len() > 0 && p[0] == '[' {
        lemma_find_char(p, ']');
    }
}

/// Find the first occurrence of `ch` in `v` at or after `from`.
pub fn find_char_from(v: &[char], from: usize, ch: char) -> (r: Option<usize>)
    requires
        from <= v@.len(),
    ensures
        match spec_find_char(v@.skip(from as int), ch) {
            None => r is None,
            Some(i) => r matches Some(a) && a == from + i,
        },
{
    let n = v.len();
    assert(v@.len() <= usize::MAX);
    let mut i: usize = from;
    while i < v.len()
        invariant
            v@.len() <= usize::MAX,
            from <= i <= v@.len(),
            forall|j: int| from <= j < i ==> v@[j] != ch,
        decreases v@.len() - i,
    {
        if v[i] == ch {
            proof {
                let s = v@.skip(from as int);
                lemma_find_char(s, ch);
                assert(s[i - from] == v@[from + (i - from)]);
                assert(s[i - from] == ch);
                match spec_find_char(s, ch) {
                    None => {
                        assert(false);
                    },
                    Some(k) => {
                        if k < i - from {
                            assert(s[k] == v@[from + k]);
                            assert(v@[from + k] != ch);
                            assert(false);
                        }
                        if k > i - from {
                            assert(s[i - from] != ch);
                            assert(false);
                        }
                    },
                }
            }
            return Some(i);
        }
        i = i + 1;
    }
    proof {
        let s = v@.skip(from as int);
        lemma_find_char(s, ch);
        match spec_find_char(s, ch) {
            None => {},
            Some(k) => {
                assert(s[k] == v@[from + k]);
                assert(false);
            },
        }
    }
    None
}

/// One character against one bracket class, executed; see
/// `spec_class_matches`.
fn matches_char_class(ch: char, char_class: &[char]) -> (r: bool)
    ensures
        r == spec_class_matches(char_class@, ch),
{
    if char_class.len() == 0 {
        return false;
    }
    let negated = char_class[0] == '!';
    let off: usize = if negated {
        1
    } else {
        0
    };
    let ghost body = char_class@.skip(off as int);
    proof {
        assert(body.skip(0) =~= body);
    }
    let mut i: usize = off;
    while i < char_class.len()
        invariant
            char_class@.len() <= usize::MAX,
            char_class@.len() > 0,
            negated == (char_class@[0] == '!'),
            off == if negated {
                1usize
            } else {
                0usize
            },
            off <= i <= char_class@.len(),
            body == char_class@.skip(off as int),
            spec_class_contains(body, ch) == spec_class_contains(body.skip(i - off), ch),
        decreases char_class@.len() - i,
    {
        let ghost rem = body.skip(i - off);
        proof {
            assert forall|j: int| 0 <= j < rem.len() implies rem[j] == char_class@[i + j] by {
                assert(rem[j] == body[i - off + j]);
                assert(body[i - off + j] == char_class@[i + j]);
            }
        }
        if char_class.len() - i > 2 && char_class[i + 1] == '-' {
            let start = char_class[i];
            let end = char_class[i + 2];
            if (ch as u32) >= (start as u32) && (ch as u32) <= (end as u32) {
                proof {
                    assert(rem[0] == start && rem[1] == '-' && rem[2] == end);
                    assert(spec_class_contains(rem, ch));
                    assert(spec_class_contains(body, ch));
                    if !negated {
                        assert(char_class@.skip(0) =~= char_class@);
                    }
                }
                return !negated;
            }
            proof {
                assert(rem[0] == start && rem[1] == '-' && rem[2] == end);
                assert(rem.skip(3) =~= body.skip(i + 3 - off));
            }
            i = i + 3;
        } else {
            if ch == char_class[i] {
                proof {
                    assert(rem[0] == char_class@[i as int]);
                    assert(spec_class_contains(rem, ch));
                    assert(spec_class_contains(body, ch));
                    if !negated {
                        assert(char_class@.skip(0) =~= char_class@);
                    }
                }
                return !negated;
            }
            proof {
                assert(rem[0] == char_class@[i as int]);
                if rem.len() >= 3 && rem[1] == '-' {
                    assert((rem[0] as u32) <= (ch as u32) && (ch as u32) <= (rem[2] as u32)
                        ==> false) by {
                        assert(i + 2 < char_class@.len());
                    }
                }
                assert(rem.skip(1) =~= body.skip(i + 1 - off));
            }
            i = i + 1;
        }
    }
    proof {
        assert(body.skip(i - off).len() == 0);
        assert(!spec_class_contains(body.skip(i - off), ch));
        assert(!spec_class_contains(body, ch));
        if !negated {
            assert(char_class@.skip(0) =~= char_class@);
        }
    }
    negated
}

/// The recursive matcher over character vectors, from a text index and a
/// pattern index; see `spec_glob` for what it decides.
fn glob_match_recursive(text: &[char], v: &[char], t_idx: usize, p_idx: usize) -> (r: bool)
    requires
        t_idx <= text@.len(),
        p_idx <= v@.len(),
    ensures
        r == spec_glob(text@.skip(t_idx as int), v@.skip(p_idx as int)),
    decreases v@.len() - p_idx, text@.len() - t_idx,
{
    let ghost t = text@.skip(t_idx as int);
    let ghost p = v@.skip(p_idx as int);
    proof {
        assert forall|j: int| 0 <= j < t.len() implies t[j] == text@[t_idx + j] by {}
        assert forall|j: int| 0 <= j < p.len() implies p[j] == v@[p_idx + j] by {}
    }

    if p_idx >= v.len() {
        return t_idx >= text.len();
    }
    if t_idx >= text.len() {
        let mut i: usize = p_idx;
        while i < v.len()
            invariant
                v@.len() <= usize::MAX,
                p_idx <= i <= v@.len(),
                t == text@.skip(t_idx as int),
                p == v@.skip(p_idx as int),
                t.len() == 0,
                forall|j: int| p_idx <= j < i ==> v@[j] == '*',
            decreases v@.len() - i,
        {
            if v[i] != '*' {
                proof {
                    assert(p[i - p_idx] == v@[p_idx + (i - p_idx)]);
                    assert(!(forall|j: int| 0 <= j < p.len() ==> p[j] == '*'));
                }
                return false;
            }
            i = i + 1;
        }
        proof {
            assert forall|j: int| 0 <= j < p.len() implies p[j] == '*' by {
                assert(p[j] == v@[p_idx + j]);
            }
        }
        return true;
    }

    let pc = v[p_idx];
    proof {
        assert(p[0] == pc);
        assert(t[0] == text@[t_idx as int]);
    }
    if pc == '*' {
        if glob_match_recursive(text, v, t_idx, p_idx + 1) {
            proof {
                assert(t.skip(0) =~= text@.skip(t_idx as int));
                assert(p.skip(1) =~= v@.skip(p_idx + 1 as int));
            }
            return true;
        }
        proof {
            assert(t.skip(0) =~= t);
            assert(p.skip(1) =~= v@.skip(p_idx + 1 as int));
        }
        let mut i: usize = t_idx;
        while i < text.len()
            invariant
                text@.len() <= usize::MAX,
                v@.len() <= usize::MAX,
                t_idx <= i <= text@.len(),
                t_idx <= text@.len(),
                p_idx < v@.len(),
                t == text@.skip(t_idx as int),
                p == v@.skip(p_idx as int),
                p.len() > 0 && p[0] == '*',
                !spec_glob(t.skip(0), p.skip(1)),
                forall|k: int|
                    1 <= k <= i - t_idx ==> !spec_glob(t.skip(k), #[trigger] p.skip(1)),
            decreases text@.len() - i,
        {
            if glob_match_recursive(text, v, i + 1, p_idx + 1) {
                proof {
                    assert(text@.skip(i + 1 as int) =~= t.skip(i + 1 - t_idx));
                    assert(v@.skip(p_idx + 1 as int) =~= p.skip(1));
                    assert(spec_glob(t.skip(i + 1 - t_idx), p.skip(1)));
                }
                return true;
            }
            proof {
                assert(text@.skip(i + 1 as int) =~= t.skip(i + 1 - t_idx));
                assert(v@.skip(p_idx + 1 as int) =~= p.skip(1));
            }
            i = i + 1;
        }
        proof {
            assert forall|k: int| 0 <= k <= t.len() implies !spec_glob(t.skip(k), p.skip(1)) by {
                if k > 0 {
                    assert(!spec_glob(t.skip(k), p.skip(1)));
                }
            }
        }
        return false;
    }
    if pc == '?' {
        let r = glob_match_recursive(text, v, t_idx + 1, p_idx + 1);
        proof {
            assert(text@.skip(t_idx + 1 as int) =~= t.skip(1));
            assert(v@.skip(p_idx + 1 as int) =~= p.skip(1));
        }
        return r;
    }
    if pc == '[' {
        proof {
            lemma_find_char(p, ']');
        }
        match find_char_from(v, p_idx, ']') {
            Some(e_abs) => {
                let ghost e = e_abs - p_idx;
                proof {
                    assert(spec_find_char(p, ']') == Some::<int>(e));
                    assert(0 <= e < p.len());
                }
                let mut class: Vec<char> = Vec::new();
                let mut j: usize = p_idx + 1;
                while j < e_abs
                    invariant
                        p_idx + 1 <= j <= e_abs,
                        e_abs < v@.len(),
                        class@ == v@.subrange(p_idx + 1 as int, j as int),
                    decreases e_abs - j,
                {
                    class.push(v[j]);
                    assert(class@ =~= v@.subrange(p_idx + 1 as int, j + 1 as int));
                    j = j + 1;
                }
                proof {
                    assert(class@ =~= p.subrange(1, e));
                }
                if matches_char_class(text[t_idx], class.as_slice()) {
                    let r = glob_match_recursive(text, v, t_idx + 1, e_abs + 1);
                    proof {
                        assert(text@.skip(t_idx + 1 as int) =~= t.skip(1));
                        assert(v@.skip(e_abs + 1 as int) =~= p.skip(e + 1));
                    }
                    return r;
                } else {
                    return false;
                }
            },
            None => {
                if text[t_idx] == '[' {
                    let r = glob_match_recursive(text, v, t_idx + 1, p_idx + 1);
                    proof {
                        assert(text@.skip(t_idx + 1 as int) =~= t.skip(1));
                        assert(v@.skip(p_idx + 1 as int) =~= p.skip(1));
                    }
                    return r;
                } else {
                    return false;
                }
            },
        }
    }
    if text[t_idx] == pc {
        let r = glob_match_recursive(text, v, t_idx + 1, p_idx + 1);
        proof {
            assert(text@.skip(t_idx + 1 as int) =~= t.skip(1));
            assert(v@.skip(p_idx + 1 as int) =~= p.skip(1));
        }
        r
    } else {
        false
    }
}

/// Match a whole text against a whole wildcard pattern.
pub fn glob_match(text: &str, pattern: &str) -> (r: bool)
    ensures
        r == spec_glob(text@, pattern@),
{
    let text_chars = str_to_chars(text);
    let pattern_chars = str_to_chars(pattern);
    let r = glob_match_recursive(text_chars.as_slice(), pattern_chars.as_slice(), 0, 0);
    proof {
        assert(text_chars@.skip(0) =~= text@);
        assert(pattern_chars@.skip(0) =~= pattern@);
    }
    r
}

/// Match a virtual path against a wildcard pattern; the pattern is taken
/// as given, with no separator conversion.
pub fn matches_glob_pattern(path: &str, pattern: &str) -> (r: bool)
    ensures
        r == spec_glob(path@, pattern@),
{
    glob_match(path, pattern)
}

} // verus!
