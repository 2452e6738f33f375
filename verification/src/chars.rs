//! Conversions between strings and character vectors, and ASCII facts.
use vstd::prelude::*;
use vstd::string::StrSliceExecFns;

verus! {

/// Every byte is in the seven-bit range.
pub open spec fn is_ascii_byte_seq(s: Seq<u8>) -> bool {
    forall|i: int| 0 <= i < s.len() ==> s[i] < 0x80
}

/// Every character is in the seven-bit range.
pub open spec fn is_ascii_char_seq(s: Seq<char>) -> bool {
    forall|i: int| 0 <= i < s.len() ==> (s[i] as u32) < 0x80
}

/// Seven-bit bytes read as the characters with the same code points.
pub open spec fn bytes_as_chars(s: Seq<u8>) -> Seq<char> {
    s.map_values(|b: u8| b as char)
}

/// Characters written as the bytes with the same code points; meaningful
/// only for seven-bit characters.
pub open spec fn chars_as_bytes(s: Seq<char>) -> Seq<u8> {
    s.map_values(|c: char| (c as u32) as u8)
}

/// Turning seven-bit bytes into characters and back yields the bytes again.
pub proof fn lemma_ascii_bytes_chars_round_trip(s: Seq<u8>)
    requires
        is_ascii_byte_seq(s),
    ensures
        is_ascii_char_seq(bytes_as_chars(s)),
        chars_as_bytes(bytes_as_chars(s)) == s,
{
    assert forall|i: int| 0 <= i < s.len() implies (bytes_as_chars(s)[i] as u32) < 0x80 by {
        assert(bytes_as_chars(s)[i] == s[i] as char);
    }
    assert(chars_as_bytes(bytes_as_chars(s)) =~= s);
}

/// Turning seven-bit characters into bytes and back yields the characters.
pub proof fn lemma_ascii_chars_bytes_round_trip(s: Seq<char>)
    requires
        is_ascii_char_seq(s),
    ensures
        is_ascii_byte_seq(chars_as_bytes(s)),
        bytes_as_chars(chars_as_bytes(s)) == s,
{
    assert forall|i: int| 0 <= i < s.len() implies chars_as_bytes(s)[i] < 0x80 by {
        assert(chars_as_bytes(s)[i] == (s[i] as u32) as u8);
    }
    assert forall|i: int| 0 <= i < s.len() implies bytes_as_chars(chars_as_bytes(s))[i] == s[i] by {
        let c = s[i];
        let u = c as u32;
        let v = u as u8;
        assert(u < 0x80);
        assert(v as u32 == u);
        assert((v as char) as u32 == u);
        vstd::utf8::char_u32_cast(c, u);
        vstd::utf8::char_u32_cast(v as char, u);
        assert(v as char == c);
        assert(bytes_as_chars(chars_as_bytes(s))[i] == v as char);
    }
    assert(bytes_as_chars(chars_as_bytes(s)) =~= s);
}

/// Collect the characters of a string into a vector.
pub fn str_to_chars(s: &str) -> (r: Vec<char>)
    ensures
        r@ == s@,
{
    let n = s.unicode_len();
    let mut r: Vec<char> = Vec::new();
    let mut i: usize = 0;
    while i < n
        invariant
            n == s@.len(),
            i <= n,
            r@ == s@.take(i as int),
        decreases n - i,
    {
        r.push(s.get_char(i));
        assert(r@ =~= s@.take(i + 1 as int));
        i = i + 1;
    }
    assert(s@.take(n as int) =~= s@);
    r
}

/// Copy a stretch of a character slice into a vector of its own.
pub fn slice_chars(v: &[char], from: usize, to: usize) -> (r: Vec<char>)
    requires
        from <= to <= v@.len(),
    ensures
        r@ == v@.subrange(from as int, to as int),
{
    let mut r: Vec<char> = Vec::new();
    let n = v.len();
    let mut i: usize = from;
    while i < to
        invariant
            v@.len() <= usize::MAX,
            from <= i <= to <= v@.len(),
            r@ == v@.subrange(from as int, i as int),
        decreases to - i,
    {
        r.push(v[i]);
        assert(r@ =~= v@.subrange(from as int, i + 1 as int));
        i = i + 1;
    }
    r
}

/// Relies on `String::push`: appends one character to the string.
#[verifier::external_body]
fn push_char(s: &mut String, c: char)
    ensures
        final(s)@ == old(s)@.push(c),
{
    s.push(c)
}

/// Build a string from a vector of characters.
pub fn chars_to_string(v: &Vec<char>) -> (r: String)
    ensures
        r@ == v@,
{
    let mut r = String::new();
    let mut i: usize = 0;
    while i < v.len()
        invariant
            i <= v@.len(),
            r@ == v@.take(i as int),
        decreases v@.len() - i,
    {
        push_char(&mut r, v[i]);
        assert(r@ =~= v@.take(i + 1 as int));
        i = i + 1;
    }
    assert(v@.take(v@.len() as int) =~= v@);
    r
}

} // verus!
