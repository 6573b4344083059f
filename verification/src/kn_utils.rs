use vstd::prelude::*;
use vstd::string::*;

verus! {

/// Whether a character counts as alphabetic for section names.
pub uninterp spec fn char_is_alphabetic(c: char) -> bool;

/// Relies on `char::is_alphabetic` of std: whether `c` has the Unicode
/// `Alphabetic` property.  No control character and no ASCII punctuation
/// character is alphabetic, which covers the four characters that carry
/// meaning in the file format.
#[verifier::external_body]
fn exec_char_is_alphabetic(c: char) -> (r: bool)
    ensures
        r == char_is_alphabetic(c),
        r ==> c != '\t' && c != '\n' && c != '<' && c != '>',
{
    c.is_alphabetic()
}

/// Every character of `s` is alphabetic.
pub open spec fn all_alphabetic(s: Seq<char>) -> bool {
    forall|i: int| 0 <= i < s.len() ==> char_is_alphabetic(s[i])
}

/// Whether every character of `s` is alphabetic.  A `true` answer also
/// guarantees that `s` is free of the characters that structure the file
/// format, since none of them is alphabetic.
pub fn is_alphabetic(s: &str) -> (r: bool)
    ensures
        r == all_alphabetic(s@),
        r ==> !s@.contains('\t') && !s@.contains('\n') && !s@.contains('<') && !s@.contains('>'),
{
    let len = s.unicode_len();
    let mut i: usize = 0;
    while i < len
        invariant
            0 <= i <= len,
            len == s@.len(),
            forall|j: int|
                0 <= j < i ==> char_is_alphabetic(#[trigger] s@[j]) && s@[j] != '\t' && s@[j]
                    != '\n' && s@[j] != '<' && s@[j] != '>',
        decreases len - i,
    {
        let c = s.get_char(i);
        if !exec_char_is_alphabetic(c) {
            assert(!all_alphabetic(s@));
            return false;
        }
        i += 1;
    }
    assert forall|c: char| #[trigger] s@.contains(c) implies c != '\t' && c != '\n' && c != '<'
        && c != '>' by {
        let j = choose|j: int| 0 <= j < s@.len() && s@[j] == c;
    }
    true
}

/// `s` with a newline appended, unless `s` is empty or already ends in one.
pub open spec fn spec_ensure_newline(s: Seq<char>) -> Seq<char> {
    if s.len() > 0 && s[s.len() - 1] != '\n' {
        s.push('\n')
    } else {
        s
    }
}

/// Appends a newline to `line` unless it is empty or already ends in one.
pub fn ensure_newline(line: &str) -> (r: String)
    ensures
        r@ == spec_ensure_newline(line@),
{
    let len = line.unicode_len();
    if len > 0 {
        let c = line.get_char(len - 1);
        if c != '\n' {
            let mut r = String::from_str(line);
            r.append("\n");
            proof {
                reveal_strlit("\n");
                assert(r@ =~= line@.push('\n'));
            }
            return r;
        }
    }
    line.to_owned()
}

/// Whether `s` contains the character `c`.
pub fn str_contains_char(s: &str, c: char) -> (r: bool)
    ensures
        r == s@.contains(c),
{
    let len = s.unicode_len();
    let mut i: usize = 0;
    while i < len
        invariant
            0 <= i <= len,
            len == s@.len(),
            forall|j: int| 0 <= j < i ==> s@[j] != c,
        decreases len - i,
    {
        if s.get_char(i) == c {
            assert(s@.contains(c));
            return true;
        }
        i += 1;
    }
    proof {
        if s@.contains(c) {
            let j = choose|j: int| 0 <= j < s@.len() && s@[j] == c;
        }
    }
    false
}

/// Whether the character sequences of `a` and `b` are equal.
pub fn str_eq(a: &str, b: &str) -> (r: bool)
    ensures
        r == (a@ == b@),
{
    let alen = a.unicode_len();
    let blen = b.unicode_len();
    if alen != blen {
        return false;
    }
    let mut i: usize = 0;
    while i < alen
        invariant
            0 <= i <= alen,
            alen == a@.len(),
            alen == b@.len(),
            forall|j: int| 0 <= j < i ==> a@[j] == b@[j],
        decreases alen - i,
    {
        if a.get_char(i) != b.get_char(i) {
            return false;
        }
        i += 1;
    }
    proof {
        assert(a@ =~= b@);
    }
    true
}

} // verus!
