//! Turning an uploaded file name into a safe one.
use vstd::prelude::*;
use vstd::utf8::*;
use crate::text::{chars_of, push_str_chars, string_of};

verus! {

/// Length in bytes of a text, as the machine counts it.
pub open spec fn name_bytes(s: Seq<char>) -> int {
    (encode_utf8(s).len() as usize) as int
}

/// `out` with `c` added, when that fits `cap` bytes.
pub open spec fn push_fit(out: Seq<char>, c: char, cap: int) -> Seq<char> {
    if name_bytes(out.push(c)) <= cap {
        out.push(c)
    } else {
        out
    }
}

/// The rest of a name, `s`, added to `out`: slashes and backslashes dropped, `..` dropped,
/// every other character kept while it fits `cap` bytes.
pub open spec fn sanitize_from(s: Seq<char>, out: Seq<char>, cap: int) -> Seq<char>
    decreases s.len(),
{
    if s.len() == 0 {
        out
    } else if s[0] == '/' || s[0] == '\\' {
        sanitize_from(s.drop_first(), out, cap)
    } else if s[0] == '.' && s.len() > 1 && s[1] == '.' {
        sanitize_from(s.skip(2), out, cap)
    } else {
        sanitize_from(s.drop_first(), push_fit(out, s[0], cap), cap)
    }
}

/// A safe file name for `s` with room for `cap` bytes: `unnamed` when nothing is left
/// (and that fits).
pub open spec fn sanitized(s: Seq<char>, cap: int) -> Seq<char> {
    let o = sanitize_from(s, seq![], cap);
    if o.len() == 0 && 7 <= cap {
        "unnamed"@
    } else {
        o
    }
}

/// A file name without directories or `..`, fitting `N` bytes.
pub fn sanitize_filename<const N: usize>(input: &str) -> (r: String)
    ensures
        r@ == sanitized(input@, N as int),
{
    let s = chars_of(input);
    let mut out: Vec<char> = Vec::new();
    let mut i: usize = 0;
    assert(s@.skip(0) =~= s@);
    while i < s.len()
        invariant
            i <= s@.len(),
            s@ == input@,
            sanitize_from(s@, seq![], N as int) == sanitize_from(s@.skip(i as int), out@, N as int),
        decreases s@.len() - i,
    {
        let ghost rest = s@.skip(i as int);
        let c = s[i];
        assert(rest[0] == c);
        if c == '/' || c == '\\' {
            assert(rest.drop_first() =~= s@.skip(i + 1));
            i = i + 1;
        } else if c == '.' && i + 1 < s.len() && s[i + 1] == '.' {
            assert(rest[1] == s@[i + 1]);
            assert(rest.skip(2) =~= s@.skip(i + 2));
            i = i + 2;
        } else {
            assert(rest.drop_first() =~= s@.skip(i + 1));
            let mut cand = out.clone();
            cand.push(c);
            assert(cand@ =~= out@.push(c));
            let cs = string_of(cand.as_slice());
            if cs.as_str().len() <= N {
                out = cand;
            }
            i = i + 1;
        }
    }
    assert(s@.skip(i as int) =~= Seq::<char>::empty());
    if out.len() == 0 && 7 <= N {
        let mut u: Vec<char> = Vec::new();
        push_str_chars(&mut u, "unnamed");
        return string_of(u.as_slice());
    }
    string_of(out.as_slice())
}

/// No `/` and no `\\` in `s`.
pub open spec fn no_separator(s: Seq<char>) -> bool {
    forall|k: int| 0 <= k < s.len() ==> s[k] != '/' && s[k] != '\\'
}

proof fn lemma_sanitize_from_clean(s: Seq<char>, out: Seq<char>, cap: int)
    requires
        no_separator(out),
        name_bytes(out) <= cap,
    ensures
        no_separator(sanitize_from(s, out, cap)),
        name_bytes(sanitize_from(s, out, cap)) <= cap,
    decreases s.len(),
{
    if s.len() == 0 {
    } else if s[0] == '/' || s[0] == '\\' {
        lemma_sanitize_from_clean(s.drop_first(), out, cap);
    } else if s[0] == '.' && s.len() > 1 && s[1] == '.' {
        lemma_sanitize_from_clean(s.skip(2), out, cap);
    } else {
        let o2 = push_fit(out, s[0], cap);
        assert(no_separator(o2)) by {
            if name_bytes(out.push(s[0])) <= cap {
                assert forall|k: int| 0 <= k < o2.len() implies o2[k] != '/' && o2[k] != '\\' by {
                    if k < out.len() {
                        assert(o2[k] == out[k]);
                    }
                }
            }
        }
        lemma_sanitize_from_clean(s.drop_first(), o2, cap);
    }
}

/// A sanitized name holds no `/` or `\\` and fits its room.
pub proof fn lemma_sanitized_clean(s: Seq<char>, cap: int)
    requires
        0 <= cap,
    ensures
        no_separator(sanitized(s, cap)),
        name_bytes(sanitized(s, cap)) <= cap,
{
    reveal_strlit("unnamed");
    assert(encode_utf8(Seq::<char>::empty()) =~= Seq::<u8>::empty());
    lemma_sanitize_from_clean(s, seq![], cap);
    let u = "unnamed"@;
    assert(encode_utf8(u).len() == 7) by {
        assert(u.len() == 7);
        crate::text::lemma_encode_utf8_ascii(u);
    }
}

} // verus!
