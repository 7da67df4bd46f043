//! Verified helpers over strings and characters.

use vstd::prelude::*;

verus! {

/// Whether `p` is a prefix of `s`.
pub open spec fn is_prefix_of(p: Seq<char>, s: Seq<char>) -> bool {
    p.len() <= s.len() && s.subrange(0, p.len() as int) == p
}

/// Character-wise string equality.
pub fn str_eq(a: &str, b: &str) -> (r: bool)
    ensures
        r == (a@ == b@),
{
    let an = a.unicode_len();
    let bn = b.unicode_len();
    if an != bn {
        proof {
            assert(a@ != b@);
        }
        return false;
    }
    let mut i: usize = 0;
    while i < an
        invariant
            0 <= i <= an,
            an == a@.len(),
            an == b@.len(),
            forall|j: int| 0 <= j < i ==> a@[j] == b@[j],
        decreases an - i,
    {
        if a.get_char(i) != b.get_char(i) {
            return false;
        }
        i += 1;
    }
    proof {
        assert(a@ =~= b@);
    }
    true
}

/// Whether the characters of `p` open the string `s`.
pub fn str_starts_with(s: &str, p: &str) -> (r: bool)
    ensures
        r == is_prefix_of(p@, s@),
{
    let sn = s.unicode_len();
    let pn = p.unicode_len();
    if pn > sn {
        return false;
    }
    let mut i: usize = 0;
    while i < pn
        invariant
            0 <= i <= pn,
            pn == p@.len(),
            sn == s@.len(),
            pn <= sn,
            forall|j: int| 0 <= j < i ==> s@[j] == p@[j],
        decreases pn - i,
    {
        if s.get_char(i) != p.get_char(i) {
            proof {
                assert(!is_prefix_of(p@, s@)) by {
                    if is_prefix_of(p@, s@) {
                        assert(s@.subrange(0, p@.len() as int)[i as int] == s@[i as int]);
                    }
                }
            }
            return false;
        }
        i += 1;
    }
    proof {
        assert(s@.subrange(0, p@.len() as int) =~= p@);
    }
    true
}

/// Appends one character to a string.
/// Relies on `String::push`: appends the given char to the end of the string.
#[verifier::external_body]
fn push_char(s: &mut String, c: char)
    ensures
        final(s)@ == old(s)@.push(c),
{
    s.push(c);
}

/// Whether a character counts as alphanumeric under Unicode.  The result
/// depends on the character alone.
pub uninterp spec fn is_unicode_alphanumeric(c: char) -> bool;

/// Relies on `char::is_alphanumeric`: derived from the Unicode character
/// categories, and true on ASCII letters and digits, false on other ASCII.
#[verifier::external_body]
fn char_is_alphanumeric(c: char) -> (r: bool)
    ensures
        r == is_unicode_alphanumeric(c),
        ('a' <= c <= 'z' || 'A' <= c <= 'Z' || '0' <= c <= '9') ==> r,
        ((c as int) < 128 && !('a' <= c <= 'z' || 'A' <= c <= 'Z' || '0' <= c <= '9')) ==> !r,
{
    c.is_alphanumeric()
}

/// Whether a character is stripped from the ends of an import path: plain,
/// single or back quotes.
pub open spec fn is_quote(c: char) -> bool {
    c == '"' || c == '\'' || c == '`'
}

/// Whether a character separates the components of an import path.
pub open spec fn is_path_sep(c: char) -> bool {
    c == '/' || c == '\\' || c == '.' || c == ':' || c == ';'
}

/// `s` without leading and trailing quote characters.
pub open spec fn trim_quotes(s: Seq<char>) -> Seq<char>
    decreases s.len(),
{
    if s.len() == 0 {
        s
    } else if is_quote(s[0]) {
        trim_quotes(s.drop_first())
    } else if is_quote(s.last()) {
        trim_quotes(s.drop_last())
    } else {
        s
    }
}

/// The suffix of `s` after the last path separator, or `s` itself if none
/// occurs.
pub open spec fn last_component(s: Seq<char>) -> Seq<char>
    decreases s.len(),
{
    if s.len() == 0 {
        s
    } else if is_path_sep(s.last()) {
        Seq::<char>::empty()
    } else {
        last_component(s.drop_last()).push(s.last())
    }
}

/// The characters of `s` that are alphanumeric or an underscore, in order.
pub open spec fn keep_word_chars(s: Seq<char>) -> Seq<char>
    decreases s.len(),
{
    if s.len() == 0 {
        s
    } else if is_unicode_alphanumeric(s.last()) || s.last() == '_' {
        keep_word_chars(s.drop_last()).push(s.last())
    } else {
        keep_word_chars(s.drop_last())
    }
}

/// A module name read out of an import path: quoting stripped from the ends,
/// reduced to the last path component, and filtered to word characters.
pub open spec fn module_name_of(path: Seq<char>) -> Seq<char> {
    keep_word_chars(last_component(trim_quotes(path)))
}

/// Extracts a plain module name from the raw text of an import path.
#[verifier::rlimit(50)]
pub fn extract_module_name_from_path(path: &str) -> (r: String)
    ensures
        r@ == module_name_of(path@),
{
    let n = path.unicode_len();
    proof {
        assert(path@.subrange(0, n as int) =~= path@);
    }
    // Bounds of the quote-trimmed region.
    let mut lo: usize = 0;
    let mut hi: usize = n;
    while lo < hi && quote_at(path, lo)
        invariant
            0 <= lo <= hi <= n,
            n == path@.len(),
            trim_quotes(path@) == trim_quotes(path@.subrange(lo as int, hi as int)),
        decreases hi - lo,
    {
        proof {
            assert(path@.subrange(lo as int, hi as int).drop_first() =~= path@.subrange(
                lo as int + 1,
                hi as int,
            ));
        }
        lo += 1;
    }
    while lo < hi && quote_at(path, hi - 1)
        invariant
            0 <= lo <= hi <= n,
            n == path@.len(),
            trim_quotes(path@) == trim_quotes(path@.subrange(lo as int, hi as int)),
            lo < hi ==> !is_quote(path@[lo as int]),
        decreases hi - lo,
    {
        proof {
            assert(path@.subrange(lo as int, hi as int).drop_last() =~= path@.subrange(
                lo as int,
                hi as int - 1,
            ));
        }
        hi -= 1;
    }
    proof {
        assert(trim_quotes(path@.subrange(lo as int, hi as int)) == path@.subrange(
            lo as int,
            hi as int,
        ));
    }
    // Start of the last path component inside the trimmed region.
    let mut start: usize = lo;
    let mut i: usize = lo;
    while i < hi
        invariant
            0 <= lo <= start <= i <= hi <= n,
            n == path@.len(),
            last_component(path@.subrange(lo as int, i as int)) == path@.subrange(
                start as int,
                i as int,
            ),
            forall|j: int| start <= j < i ==> !is_path_sep(path@[j]),
        decreases hi - i,
    {
        let c = path.get_char(i);
        proof {
            assert(path@.subrange(lo as int, i as int + 1).drop_last() =~= path@.subrange(
                lo as int,
                i as int,
            ));
            assert(path@.subrange(lo as int, i as int + 1).last() == path@[i as int]);
        }
        if c == '/' || c == '\\' || c == '.' || c == ':' || c == ';' {
            start = i + 1;
            proof {
                assert(last_component(path@.subrange(lo as int, i as int + 1))
                    =~= path@.subrange(start as int, i as int + 1));
            }
        } else {
            proof {
                assert(last_component(path@.subrange(lo as int, i as int + 1))
                    =~= path@.subrange(start as int, i as int).push(path@[i as int]));
                assert(path@.subrange(start as int, i as int).push(path@[i as int])
                    =~= path@.subrange(start as int, i as int + 1));
            }
        }
        i += 1;
    }
    // Filter the component down to word characters.
    let mut out = String::new();
    let mut j: usize = start;
    while j < hi
        invariant
            0 <= start <= j <= hi <= n,
            n == path@.len(),
            out@ == keep_word_chars(path@.subrange(start as int, j as int)),
        decreases hi - j,
    {
        let c = path.get_char(j);
        proof {
            assert(path@.subrange(start as int, j as int + 1).drop_last() =~= path@.subrange(
                start as int,
                j as int,
            ));
            assert(path@.subrange(start as int, j as int + 1).last() == path@[j as int]);
        }
        if char_is_alphanumeric(c) || c == '_' {
            push_char(&mut out, c);
        }
        j += 1;
    }
    out
}

/// Whether the character of `path` at `i` is a quote.
fn quote_at(path: &str, i: usize) -> (r: bool)
    requires
        i < path@.len(),
    ensures
        r == is_quote(path@[i as int]),
{
    let c = path.get_char(i);
    c == '"' || c == '\'' || c == '`'
}

} // verus!
