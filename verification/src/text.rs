//! Character-sequence helpers shared by the parsers and formatters.
//!
//! Text is handled as `Seq<char>` in specifications and as `Vec<char>` in code;
//! every helper here states exactly which part of the standard library's string
//! behaviour it reproduces (`str::trim`, `str::lines`, `str::split`, `parse`, ...).
use vstd::prelude::*;
use vstd::utf8::*;

verus! {

// ---------------------------------------------------------------------------
// Conversions between `str`/`String` and `Vec<char>`
// ---------------------------------------------------------------------------

/// `core::str::from_utf8`: the bytes are decoded exactly when they are valid UTF-8,
/// and then the string's encoding is the input bytes.
#[verifier::external_body]
pub fn str_from_utf8(bytes: &[u8]) -> (r: Option<&str>)
    ensures
        r is Some <==> valid_utf8(bytes@),
        r matches Some(s) ==> encode_utf8(s@) == bytes@,
{
    core::str::from_utf8(bytes).ok()
}

/// `String::push`: appends one character.
#[verifier::external_body]
pub fn string_push(s: &mut String, c: char)
    ensures
        final(s)@ == old(s)@.push(c),
{
    s.push(c);
}

/// The characters of a string slice, in order.
pub fn chars_of(s: &str) -> (v: Vec<char>)
    ensures
        v@ == s@,
{
    let mut v: Vec<char> = Vec::new();
    for c in it: s.chars()
        invariant
            v@ == it.seq().take(it.index() as int),
            it.seq() == s@,
    {
        v.push(c);
    }
    v
}

/// A `String` holding exactly the given characters.
pub fn string_of(cs: &[char]) -> (s: String)
    ensures
        s@ == cs@,
{
    let mut s = String::new();
    let mut i: usize = 0;
    while i < cs.len()
        invariant
            i <= cs@.len(),
            s@ == cs@.take(i as int),
        decreases cs@.len() - i,
    {
        string_push(&mut s, cs[i]);
        assert(cs@.take(i + 1) =~= cs@.take(i as int).push(cs@[i as int]));
        i = i + 1;
    }
    assert(cs@.take(cs@.len() as int) =~= cs@);
    s
}

/// Decodes UTF-8 bytes into characters, or `None` when they are not valid UTF-8.
pub fn decode_chars(bytes: &[u8]) -> (r: Option<Vec<char>>)
    ensures
        r is Some <==> valid_utf8(bytes@),
        r matches Some(v) ==> v@ == decode_utf8(bytes@),
{
    match str_from_utf8(bytes) {
        Some(s) => {
            proof {
                vstd::utf8::encode_utf8_decode_utf8(s@);
            }
            Some(chars_of(s))
        },
        None => None,
    }
}

/// Copies `s[lo..hi]`.
pub fn sub_chars(s: &[char], lo: usize, hi: usize) -> (r: Vec<char>)
    requires
        lo <= hi <= s@.len(),
    ensures
        r@ == s@.subrange(lo as int, hi as int),
{
    let mut r: Vec<char> = Vec::new();
    let mut i = lo;
    while i < hi
        invariant
            lo <= i <= hi,
            hi <= s@.len(),
            r@ == s@.subrange(lo as int, i as int),
        decreases hi - i,
    {
        r.push(s[i]);
        assert(s@.subrange(lo as int, i + 1) =~= s@.subrange(lo as int, i as int).push(s@[i as int]));
        i = i + 1;
    }
    r
}

/// A copy of `s`.
pub fn copy_chars(s: &[char]) -> (r: Vec<char>)
    ensures
        r@ == s@,
{
    let r = sub_chars(s, 0, s.len());
    assert(s@.subrange(0, s@.len() as int) =~= s@);
    r
}

/// Appends all characters of `src` to `dst`.
pub fn push_chars(dst: &mut Vec<char>, src: &[char])
    ensures
        final(dst)@ == old(dst)@ + src@,
{
    let mut i: usize = 0;
    while i < src.len()
        invariant
            i <= src@.len(),
            dst@ == old(dst)@ + src@.take(i as int),
        decreases src@.len() - i,
    {
        dst.push(src[i]);
        assert(src@.take(i + 1) =~= src@.take(i as int).push(src@[i as int]));
        i = i + 1;
    }
    assert(src@.take(src@.len() as int) =~= src@);
}

/// Appends the characters of a string slice to `dst`.
pub fn push_str_chars(dst: &mut Vec<char>, s: &str)
    ensures
        final(dst)@ == old(dst)@ + s@,
{
    let cs = chars_of(s);
    push_chars(dst, cs.as_slice());
}

/// Whether two character slices are equal.
pub fn chars_eq(a: &[char], b: &[char]) -> (r: bool)
    ensures
        r == (a@ == b@),
{
    if a.len() != b.len() {
        return false;
    }
    let mut i: usize = 0;
    while i < a.len()
        invariant
            a@.len() == b@.len(),
            i <= a@.len(),
            forall|k: int| 0 <= k < i ==> a@[k] == b@[k],
        decreases a@.len() - i,
    {
        if a[i] != b[i] {
            return false;
        }
        i = i + 1;
    }
    assert(a@ =~= b@);
    true
}

/// Whether the characters of `a` spell the string slice `b`.
pub fn chars_eq_str(a: &[char], b: &str) -> (r: bool)
    ensures
        r == (a@ == b@),
{
    let bc = chars_of(b);
    chars_eq(a, bc.as_slice())
}

// ---------------------------------------------------------------------------
// Whitespace and trimming (`char::is_whitespace`, `str::trim`)
// ---------------------------------------------------------------------------

/// Unicode `White_Space`, as `char::is_whitespace` defines it.
pub open spec fn is_ws(c: char) -> bool {
    let u = c as u32;
    ||| 0x09 <= u <= 0x0d
    ||| u == 0x20
    ||| u == 0x85
    ||| u == 0xa0
    ||| u == 0x1680
    ||| 0x2000 <= u <= 0x200a
    ||| u == 0x2028
    ||| u == 0x2029
    ||| u == 0x202f
    ||| u == 0x205f
    ||| u == 0x3000
}

/// `char::is_whitespace`.
pub fn is_whitespace(c: char) -> (r: bool)
    ensures
        r == is_ws(c),
{
    let u = c as u32;
    (0x09 <= u && u <= 0x0d) || u == 0x20 || u == 0x85 || u == 0xa0 || u == 0x1680 || (0x2000 <= u
        && u <= 0x200a) || u == 0x2028 || u == 0x2029 || u == 0x202f || u == 0x205f || u == 0x3000
}

/// `str::trim_start`.
pub open spec fn trim_start(s: Seq<char>) -> Seq<char>
    decreases s.len(),
{
    if s.len() > 0 && is_ws(s[0]) {
        trim_start(s.drop_first())
    } else {
        s
    }
}

/// `str::trim_end`.
pub open spec fn trim_end(s: Seq<char>) -> Seq<char>
    decreases s.len(),
{
    if s.len() > 0 && is_ws(s.last()) {
        trim_end(s.drop_last())
    } else {
        s
    }
}

/// `str::trim`.
pub open spec fn trim(s: Seq<char>) -> Seq<char> {
    trim_end(trim_start(s))
}

pub proof fn lemma_trim_start_skip(s: Seq<char>, i: int)
    requires
        0 <= i <= s.len(),
        forall|k: int| 0 <= k < i ==> is_ws(#[trigger] s[k]),
    ensures
        trim_start(s) == trim_start(s.skip(i)),
    decreases i,
{
    if i > 0 {
        assert(s.skip(1) =~= s.drop_first());
        lemma_trim_start_skip(s.drop_first(), i - 1);
        assert(s.drop_first().skip(i - 1) =~= s.skip(i));
    } else {
        assert(s.skip(0) =~= s);
    }
}

proof fn lemma_trim_end_take(s: Seq<char>, j: int)
    requires
        0 <= j <= s.len(),
        forall|k: int| j <= k < s.len() ==> is_ws(#[trigger] s[k]),
    ensures
        trim_end(s) == trim_end(s.take(j)),
    decreases s.len() - j,
{
    if j < s.len() {
        lemma_trim_end_take(s.drop_last(), j);
        assert(s.drop_last().take(j) =~= s.take(j));
    } else {
        assert(s.take(j) =~= s);
    }
}

/// Index of the first non-whitespace character: `s[r..]` is `trim_start(s)`.
pub fn trim_start_index(s: &[char]) -> (r: usize)
    ensures
        r <= s@.len(),
        s@.skip(r as int) == trim_start(s@),
{
    let mut lo: usize = 0;
    while lo < s.len() && is_whitespace(s[lo])
        invariant
            lo <= s@.len(),
            forall|k: int| 0 <= k < lo ==> is_ws(#[trigger] s@[k]),
        decreases s@.len() - lo,
    {
        lo = lo + 1;
    }
    proof {
        lemma_trim_start_skip(s@, lo as int);
        let t = s@.skip(lo as int);
        if t.len() > 0 {
            assert(t[0] == s@[lo as int]);
        }
        assert(trim_start(t) == t);
    }
    lo
}

/// Bounds `(lo, hi)` such that `s[lo..hi]` is `trim(s)`.
pub fn trim_bounds(s: &[char]) -> (r: (usize, usize))
    ensures
        r.0 <= r.1 <= s@.len(),
        s@.subrange(r.0 as int, r.1 as int) == trim(s@),
{
    let mut lo: usize = 0;
    while lo < s.len() && is_whitespace(s[lo])
        invariant
            lo <= s@.len(),
            forall|k: int| 0 <= k < lo ==> is_ws(#[trigger] s@[k]),
        decreases s@.len() - lo,
    {
        lo = lo + 1;
    }
    proof {
        lemma_trim_start_skip(s@, lo as int);
        let t = s@.skip(lo as int);
        if t.len() > 0 {
            assert(t[0] == s@[lo as int]);
        }
        assert(trim_start(t) == t);
    }
    let mut hi: usize = s.len();
    while hi > lo && is_whitespace(s[hi - 1])
        invariant
            lo <= hi <= s@.len(),
            forall|k: int| hi <= k < s@.len() ==> is_ws(#[trigger] s@[k]),
        decreases hi,
    {
        hi = hi - 1;
    }
    proof {
        let t = s@.skip(lo as int);
        assert forall|k: int| (hi - lo) <= k < t.len() implies is_ws(#[trigger] t[k]) by {
            assert(t[k] == s@[k + lo]);
        }
        lemma_trim_end_take(t, hi - lo);
        assert(t.take(hi - lo) =~= s@.subrange(lo as int, hi as int));
        let u = s@.subrange(lo as int, hi as int);
        if u.len() > 0 {
            assert(u.last() == s@[hi - 1]);
        }
        assert(trim_end(u) == u);
    }
    (lo, hi)
}

/// `str::trim`, copied out.
pub fn trim_chars(s: &[char]) -> (r: Vec<char>)
    ensures
        r@ == trim(s@),
{
    let (lo, hi) = trim_bounds(s);
    sub_chars(s, lo, hi)
}

// ---------------------------------------------------------------------------
// Searching and splitting
// ---------------------------------------------------------------------------

/// Index of the first `c` in `s`.
pub open spec fn find_char(s: Seq<char>, c: char) -> Option<int>
    decreases s.len(),
{
    if s.len() == 0 {
        None
    } else if s[0] == c {
        Some(0)
    } else {
        match find_char(s.drop_first(), c) {
            Some(i) => Some(i + 1),
            None => None,
        }
    }
}

pub proof fn lemma_find_char(s: Seq<char>, c: char)
    ensures
        find_char(s, c) is Some ==> 0 <= find_char(s, c)->0 < s.len(),
        find_char(s, c) is Some ==> s[find_char(s, c)->0] == c,
        find_char(s, c) is Some ==> forall|k: int| 0 <= k < find_char(s, c)->0 ==> s[k] != c,
        find_char(s, c) is None ==> forall|k: int| 0 <= k < s.len() ==> s[k] != c,
    decreases s.len(),
{
    if s.len() > 0 {
        lemma_find_char(s.drop_first(), c);
        if s[0] != c {
            assert forall|k: int| 1 <= k < s.len() implies s[k] == s.drop_first()[k - 1] by {}
        }
    }
}

pub proof fn lemma_find_char_from_facts(s: Seq<char>, c: char, i: int)
    requires
        0 <= i <= s.len(),
        forall|k: int| 0 <= k < i ==> s[k] != c,
        i < s.len() ==> s[i] == c,
    ensures
        find_char(s, c) == (if i < s.len() {
            Some(i)
        } else {
            None::<int>
        }),
    decreases i,
{
    lemma_find_char(s, c);
    if i > 0 {
        lemma_find_char_from_facts(s.drop_first(), c, i - 1);
    }
}

/// `s.iter().position(|x| x == c)`.
pub fn find_char_exec(s: &[char], c: char) -> (r: Option<usize>)
    ensures
        r matches Some(i) ==> find_char(s@, c) == Some(i as int),
        r is None ==> find_char(s@, c) is None,
{
    let mut i: usize = 0;
    while i < s.len()
        invariant
            i <= s@.len(),
            forall|k: int| 0 <= k < i ==> s@[k] != c,
        decreases s@.len() - i,
    {
        if s[i] == c {
            proof {
                lemma_find_char_from_facts(s@, c, i as int);
            }
            return Some(i);
        }
        i = i + 1;
    }
    proof {
        lemma_find_char_from_facts(s@, c, i as int);
    }
    None
}

/// Whether `sub` occurs in `s` at position `i`.
pub open spec fn occurs_at(s: Seq<char>, sub: Seq<char>, i: int) -> bool {
    0 <= i && i + sub.len() <= s.len() && s.subrange(i, i + sub.len()) == sub
}

/// The first position, at or after `from`, where `sub` occurs in `s`.
pub open spec fn find_sub_from(s: Seq<char>, sub: Seq<char>, from: int) -> Option<int>
    decreases s.len() + 1 - from,
{
    if from < 0 || from + sub.len() > s.len() {
        None
    } else if occurs_at(s, sub, from) {
        Some(from)
    } else {
        find_sub_from(s, sub, from + 1)
    }
}

/// `str::find` with a string pattern.
pub open spec fn find_sub(s: Seq<char>, sub: Seq<char>) -> Option<int> {
    find_sub_from(s, sub, 0)
}

/// `str::contains` with a string pattern.
pub open spec fn contains_sub(s: Seq<char>, sub: Seq<char>) -> bool {
    find_sub(s, sub) is Some
}

proof fn lemma_find_sub_from_bound(s: Seq<char>, sub: Seq<char>, from: int)
    ensures
        find_sub_from(s, sub, from) is Some ==> from <= find_sub_from(s, sub, from)->0 && occurs_at(
            s,
            sub,
            find_sub_from(s, sub, from)->0,
        ),
    decreases s.len() + 1 - from,
{
    if !(from < 0 || from + sub.len() > s.len()) && !occurs_at(s, sub, from) {
        lemma_find_sub_from_bound(s, sub, from + 1);
    }
}

pub proof fn lemma_find_sub(s: Seq<char>, sub: Seq<char>)
    ensures
        find_sub(s, sub) is Some ==> occurs_at(s, sub, find_sub(s, sub)->0),
{
    lemma_find_sub_from_bound(s, sub, 0);
}

fn occurs_at_exec(s: &[char], sub: &[char], i: usize) -> (r: bool)
    requires
        i + sub@.len() <= s@.len(),
    ensures
        r == occurs_at(s@, sub@, i as int),
{
    let n = s.len();
    let mut k: usize = 0;
    while k < sub.len()
        invariant
            n == s@.len(),
            i + sub@.len() <= s@.len(),
            k <= sub@.len(),
            forall|j: int| 0 <= j < k ==> s@[i + j] == sub@[j],
        decreases sub@.len() - k,
    {
        assert(i + k < s@.len());
        if s[i + k] != sub[k] {
            assert(s@.subrange(i as int, i + sub@.len())[k as int] != sub@[k as int]);
            return false;
        }
        k = k + 1;
    }
    assert(s@.subrange(i as int, i + sub@.len()) =~= sub@);
    true
}

proof fn lemma_find_sub_from_skip(s: Seq<char>, sub: Seq<char>, from: int, i: int)
    requires
        0 <= from <= i,
        forall|j: int| from <= j < i ==> !occurs_at(s, sub, j),
    ensures
        find_sub_from(s, sub, from) == find_sub_from(s, sub, i),
    decreases i - from,
{
    if from < i {
        if from + sub.len() > s.len() {
            lemma_find_sub_from_none(s, sub, i);
        } else {
            lemma_find_sub_from_skip(s, sub, from + 1, i);
        }
    }
}

proof fn lemma_find_sub_from_none(s: Seq<char>, sub: Seq<char>, from: int)
    requires
        from + sub.len() > s.len(),
    ensures
        find_sub_from(s, sub, from) is None,
{
}

/// `str::find` with a string pattern, searching from position `from`.
pub fn find_sub_from_exec(s: &[char], sub: &[char], from: usize) -> (r: Option<usize>)
    ensures
        r matches Some(i) ==> find_sub_from(s@, sub@, from as int) == Some(i as int),
        r is None ==> find_sub_from(s@, sub@, from as int) is None,
{
    if from > s.len() || sub.len() > s.len() - from {
        return None;
    }
    let n = s.len();
    let mut i = from;
    while i <= n - sub.len()
        invariant
            n == s@.len(),
            from <= i,
            sub@.len() <= s@.len(),
            forall|j: int| from <= j < i ==> !occurs_at(s@, sub@, j),
        decreases s@.len() - sub@.len() + 1 - i,
    {
        if occurs_at_exec(s, sub, i) {
            proof {
                lemma_find_sub_from_skip(s@, sub@, from as int, i as int);
            }
            return Some(i);
        }
        if i == n - sub.len() {
            proof {
                lemma_find_sub_from_skip(s@, sub@, from as int, i + 1);
                lemma_find_sub_from_none(s@, sub@, i + 1);
            }
            return None;
        }
        i = i + 1;
    }
    proof {
        lemma_find_sub_from_skip(s@, sub@, from as int, i as int);
        lemma_find_sub_from_none(s@, sub@, i as int);
    }
    None
}

/// The character sequences held by a sequence of vectors.
pub open spec fn seqs_of(v: Seq<Vec<char>>) -> Seq<Seq<char>> {
    Seq::new(v.len(), |i: int| v[i]@)
}

/// `str::split` with a non-empty string separator.
pub open spec fn split_sep(s: Seq<char>, sep: Seq<char>) -> Seq<Seq<char>>
    decreases s.len(),
{
    if sep.len() == 0 {
        seq![s]
    } else {
        match find_sub(s, sep) {
            Some(i) => if 0 <= i && i + sep.len() <= s.len() {
                seq![s.take(i)] + split_sep(s.skip(i + sep.len()), sep)
            } else {
                seq![s]
            },
            None => seq![s],
        }
    }
}

/// `str::split` with a non-empty string separator, copied out.
pub fn split_sep_exec(s: &[char], sep: &[char]) -> (parts: Vec<Vec<char>>)
    requires
        sep@.len() > 0,
    ensures
        seqs_of(parts@) == split_sep(s@, sep@),
    decreases s@.len(),
{
    match find_sub_from_exec(s, sep, 0) {
        Some(i) => {
            proof {
                lemma_find_sub(s@, sep@);
            }
            let n = s.len();
            assert(i + sep@.len() <= n);
            let head = sub_chars(s, 0, i);
            let tail = sub_chars(s, i + sep.len(), s.len());
            let rest = split_sep_exec(tail.as_slice(), sep);
            let mut parts: Vec<Vec<char>> = Vec::new();
            parts.push(head);
            let mut k: usize = 0;
            let ghost rv = seqs_of(rest@);
            while k < rest.len()
                invariant
                    k <= rest@.len(),
                    rv == seqs_of(rest@),
                    seqs_of(parts@) == seq![s@.take(i as int)] + rv.take(k as int),
                decreases rest@.len() - k,
            {
                let ghost before = seqs_of(parts@);
                let item = copy_chars(rest[k].as_slice());
                assert(item@ == rv[k as int]);
                parts.push(item);
                assert(seqs_of(parts@) =~= before.push(rv[k as int]));
                assert(rv.take(k + 1) =~= rv.take(k as int).push(rv[k as int]));
                assert(seqs_of(parts@) =~= seq![s@.take(i as int)] + rv.take(k + 1));
                k = k + 1;
            }
            assert(rv.take(rest@.len() as int) =~= rv);
            assert(tail@ =~= s@.skip(i + sep@.len()));
            assert(s@.subrange(0, i as int) =~= s@.take(i as int));
            parts
        },
        None => {
            let mut parts: Vec<Vec<char>> = Vec::new();
            parts.push(sub_chars(s, 0, s.len()));
            assert(s@.subrange(0, s@.len() as int) =~= s@);
            assert(seqs_of(parts@) =~= seq![s@]);
            parts
        },
    }
}

/// A line with its terminating `\r` removed (used only for lines that ended in `\n`).
pub open spec fn strip_cr(l: Seq<char>) -> Seq<char> {
    if l.len() > 0 && l.last() == '\r' {
        l.drop_last()
    } else {
        l
    }
}

/// `str::lines`: split at `\n`, drop a `\r` before each `\n`, no empty line after a final `\n`.
pub open spec fn lines(s: Seq<char>) -> Seq<Seq<char>>
    decreases s.len(),
{
    if s.len() == 0 {
        seq![]
    } else {
        match find_char(s, '\n') {
            Some(i) => if 0 <= i < s.len() {
                seq![strip_cr(s.take(i))] + lines(s.skip(i + 1))
            } else {
                seq![s]
            },
            None => seq![s],
        }
    }
}

/// `s` holds no `c`.
pub open spec fn no_char(s: Seq<char>, c: char) -> bool {
    forall|k: int| 0 <= k < s.len() ==> s[k] != c
}

/// A string that starts and ends with a non-whitespace character is its own trim.
pub proof fn lemma_trim_id(s: Seq<char>)
    requires
        s.len() > 0 ==> !is_ws(s[0]) && !is_ws(s.last()),
    ensures
        trim(s) == s,
{
    assert(trim_start(s) == s);
}

proof fn lemma_trim_start_suffix(s: Seq<char>)
    ensures
        trim_start(s) == s.skip(s.len() - trim_start(s).len()),
        trim_start(s).len() <= s.len(),
        trim_start(s).len() > 0 ==> !is_ws(trim_start(s)[0]),
    decreases s.len(),
{
    if s.len() > 0 && is_ws(s[0]) {
        lemma_trim_start_suffix(s.drop_first());
        let t = trim_start(s.drop_first());
        assert(s.drop_first().skip(s.drop_first().len() - t.len()) =~= s.skip(s.len() - t.len()));
    } else {
        assert(s.skip(0) =~= s);
    }
}

proof fn lemma_trim_end_prefix(s: Seq<char>)
    ensures
        trim_end(s) == s.take(trim_end(s).len() as int),
        trim_end(s).len() <= s.len(),
        trim_end(s).len() > 0 ==> !is_ws(trim_end(s).last()),
    decreases s.len(),
{
    if s.len() > 0 && is_ws(s.last()) {
        lemma_trim_end_prefix(s.drop_last());
        let t = trim_end(s.drop_last());
        assert(s.drop_last().take(t.len() as int) =~= s.take(t.len() as int));
    } else {
        assert(s.take(s.len() as int) =~= s);
    }
}

/// A trimmed string starts and ends with a non-whitespace character, and holds no
/// character that the string did not hold.
pub proof fn lemma_trim_shape(s: Seq<char>, c: char)
    ensures
        trim(s).len() > 0 ==> !is_ws(trim(s)[0]) && !is_ws(trim(s).last()),
        no_char(s, c) ==> no_char(trim(s), c),
{
    lemma_trim_start_suffix(s);
    let t = trim_start(s);
    lemma_trim_end_prefix(t);
    let u = trim_end(t);
    if u.len() > 0 {
        assert(u[0] == t[0]);
    }
    if no_char(s, c) {
        assert forall|k: int| 0 <= k < u.len() implies u[k] != c by {
            assert(u[k] == t[k]);
            assert(t[k] == s[k + (s.len() - t.len())]);
        }
    }
}

/// The lines of a text hold no line feed.
pub proof fn lemma_lines_no_newline(s: Seq<char>)
    ensures
        forall|i: int| 0 <= i < lines(s).len() ==> no_char(#[trigger] lines(s)[i], '\n'),
    decreases s.len(),
{
    if s.len() > 0 {
        lemma_find_char(s, '\n');
        match find_char(s, '\n') {
            Some(i) => {
                lemma_lines_no_newline(s.skip(i + 1));
                let h = strip_cr(s.take(i));
                assert(no_char(h, '\n')) by {
                    assert forall|k: int| 0 <= k < h.len() implies h[k] != '\n' by {
                        assert(h[k] == s[k]);
                    }
                }
                let rest = lines(s.skip(i + 1));
                assert forall|j: int| 0 <= j < lines(s).len() implies no_char(
                    #[trigger] lines(s)[j],
                    '\n',
                ) by {
                    if j > 0 {
                        assert(lines(s)[j] == rest[j - 1]);
                    }
                }
            },
            None => {},
        }
    }
}

/// Lines of a text that is empty or ends with a line feed, followed by more text.
pub proof fn lemma_lines_concat(a: Seq<char>, b: Seq<char>)
    requires
        a.len() == 0 || a.last() == '\n',
    ensures
        lines(a + b) == lines(a) + lines(b),
    decreases a.len(),
{
    if a.len() == 0 {
        assert(a + b =~= b);
        assert(lines(a) =~= Seq::<Seq<char>>::empty());
        assert(lines(a) + lines(b) =~= lines(b));
    } else {
        lemma_find_char(a, '\n');
        let i = find_char(a, '\n')->0;
        assert(find_char(a, '\n') is Some) by {
            if find_char(a, '\n') is None {
                assert(a[a.len() - 1] != '\n');
            }
        }
        let ab = a + b;
        lemma_find_char_from_facts(ab, '\n', i);
        assert(ab.take(i) =~= a.take(i));
        assert(ab.skip(i + 1) =~= a.skip(i + 1) + b);
        let a2 = a.skip(i + 1);
        if a2.len() > 0 {
            assert(a2.last() == a.last());
        }
        lemma_lines_concat(a2, b);
        assert(lines(ab) == seq![strip_cr(a.take(i))] + lines(a2 + b));
        assert(lines(a) == seq![strip_cr(a.take(i))] + lines(a2));
        assert(lines(ab) =~= lines(a) + lines(b));
    }
}

/// The lines of a single line ended by a line feed.
pub proof fn lemma_lines_line(b: Seq<char>)
    requires
        no_char(b, '\n'),
    ensures
        lines(b + seq!['\n']) == seq![strip_cr(b)],
{
    let s = b + seq!['\n'];
    lemma_find_char_from_facts(s, '\n', b.len() as int);
    assert(s.take(b.len() as int) =~= b);
    let e = s.skip(b.len() as int + 1);
    assert(e =~= Seq::<char>::empty());
    assert(lines(e) =~= Seq::<Seq<char>>::empty());
    assert(lines(s) == seq![strip_cr(b)] + lines(e));
    assert(lines(s) =~= seq![strip_cr(b)]);
}

/// `str::lines`, copied out.
pub fn lines_exec(s: &[char]) -> (ls: Vec<Vec<char>>)
    ensures
        seqs_of(ls@) == lines(s@),
    decreases s@.len(),
{
    if s.len() == 0 {
        let ls: Vec<Vec<char>> = Vec::new();
        assert(seqs_of(ls@) =~= Seq::<Seq<char>>::empty());
        return ls;
    }
    proof {
        lemma_find_char(s@, '\n');
    }
    match find_char_exec(s, '\n') {
        Some(i) => {
            let mut hi = i;
            if hi > 0 && s[hi - 1] == '\r' {
                hi = hi - 1;
            }
            let head = sub_chars(s, 0, hi);
            proof {
                let t = s@.take(i as int);
                if i > 0 && s@[i - 1] == '\r' {
                    assert(t.last() == '\r');
                    assert(head@ =~= t.drop_last());
                } else {
                    assert(head@ =~= t);
                }
            }
            let tail = sub_chars(s, i + 1, s.len());
            let rest = lines_exec(tail.as_slice());
            let mut ls: Vec<Vec<char>> = Vec::new();
            ls.push(head);
            let mut k: usize = 0;
            let ghost rv = seqs_of(rest@);
            let ghost h = strip_cr(s@.take(i as int));
            while k < rest.len()
                invariant
                    k <= rest@.len(),
                    rv == seqs_of(rest@),
                    seqs_of(ls@) == seq![h] + rv.take(k as int),
                decreases rest@.len() - k,
            {
                let ghost before = seqs_of(ls@);
                let item = copy_chars(rest[k].as_slice());
                assert(item@ == rv[k as int]);
                ls.push(item);
                assert(seqs_of(ls@) =~= before.push(rv[k as int]));
                assert(rv.take(k + 1) =~= rv.take(k as int).push(rv[k as int]));
                assert(seqs_of(ls@) =~= seq![h] + rv.take(k + 1));
                k = k + 1;
            }
            assert(rv.take(rest@.len() as int) =~= rv);
            assert(tail@ =~= s@.skip(i + 1));
            ls
        },
        None => {
            let mut ls: Vec<Vec<char>> = Vec::new();
            ls.push(sub_chars(s, 0, s.len()));
            assert(s@.subrange(0, s@.len() as int) =~= s@);
            assert(seqs_of(ls@) =~= seq![s@]);
            ls
        },
    }
}

/// `s.split_once(c)` followed by trimming both halves: a `key = value` line.
pub open spec fn key_value(line: Seq<char>) -> Option<(Seq<char>, Seq<char>)> {
    match find_char(line, '=') {
        Some(p) => Some((trim(line.take(p)), trim(line.skip(p + 1)))),
        None => None,
    }
}

/// Splits a line at its first `=` and trims key and value.
pub fn key_value_exec(line: &[char]) -> (r: Option<(Vec<char>, Vec<char>)>)
    ensures
        r matches Some(kv) ==> key_value(line@) == Some((kv.0@, kv.1@)),
        r is None ==> key_value(line@) is None,
{
    proof {
        lemma_find_char(line@, '=');
    }
    match find_char_exec(line, '=') {
        Some(p) => {
            let n = line.len();
            assert(p < n);
            let k = sub_chars(line, 0, p);
            let v = sub_chars(line, p + 1, line.len());
            assert(k@ =~= line@.take(p as int));
            assert(v@ =~= line@.skip(p + 1));
            Some((trim_chars(k.as_slice()), trim_chars(v.as_slice())))
        },
        None => None,
    }
}

// ---------------------------------------------------------------------------
// Decimal and hexadecimal numbers
// ---------------------------------------------------------------------------

pub open spec fn is_digit(c: char) -> bool {
    '0' <= c <= '9'
}

pub open spec fn digit_value(c: char) -> int {
    (c as u32) - ('0' as u32)
}

pub open spec fn all_digits(s: Seq<char>) -> bool {
    forall|i: int| 0 <= i < s.len() ==> is_digit(#[trigger] s[i])
}

/// The value of a string of decimal digits.
pub open spec fn digits_value(s: Seq<char>) -> int
    decreases s.len(),
{
    if s.len() == 0 {
        0
    } else {
        digits_value(s.drop_last()) * 10 + digit_value(s.last())
    }
}

/// `str::parse` for an unsigned integer type whose largest value is `max`:
/// an optional `+`, then at least one decimal digit, and the value must fit.
pub open spec fn parse_unsigned(s: Seq<char>, max: int) -> Option<int> {
    let d = if s.len() > 0 && s[0] == '+' {
        s.drop_first()
    } else {
        s
    };
    if d.len() > 0 && all_digits(d) && digits_value(d) <= max {
        Some(digits_value(d))
    } else {
        None
    }
}

/// `str::parse::<i32>`: an optional sign, then at least one decimal digit, in range.
pub open spec fn parse_i32(s: Seq<char>) -> Option<int> {
    if s.len() > 0 && s[0] == '-' {
        let d = s.drop_first();
        if d.len() > 0 && all_digits(d) && digits_value(d) <= 0x8000_0000 {
            Some(-digits_value(d))
        } else {
            None
        }
    } else {
        parse_unsigned(s, 0x7fff_ffff)
    }
}

proof fn lemma_digits_value_nonneg(s: Seq<char>)
    requires
        all_digits(s),
    ensures
        digits_value(s) >= 0,
    decreases s.len(),
{
    if s.len() > 0 {
        lemma_digits_value_nonneg(s.drop_last());
    }
}

proof fn lemma_digits_value_mono(s: Seq<char>, i: int)
    requires
        all_digits(s),
        0 <= i <= s.len(),
    ensures
        digits_value(s.take(i)) <= digits_value(s),
    decreases s.len() - i,
{
    if i < s.len() {
        lemma_digits_value_mono(s, i + 1);
        assert(s.take(i + 1).drop_last() =~= s.take(i));
        lemma_digits_value_nonneg(s.take(i));
    } else {
        assert(s.take(i) =~= s);
    }
}

/// Value of the decimal digits `s[lo..]`, or `None` when they are empty, hold a
/// non-digit or exceed `max`.
fn digits_checked(s: &[char], lo: usize, max: u64) -> (r: Option<u64>)
    requires
        lo <= s@.len(),
    ensures
        ({
            let d = s@.skip(lo as int);
            &&& r matches Some(v) ==> d.len() > 0 && all_digits(d) && digits_value(d) <= max && v
                == digits_value(d)
            &&& r is None ==> !(d.len() > 0 && all_digits(d) && digits_value(d) <= max)
        }),
{
    let ghost d = s@.skip(lo as int);
    if lo == s.len() {
        return None;
    }
    let mut acc: u64 = 0;
    let mut i = lo;
    while i < s.len()
        invariant
            lo <= i <= s@.len(),
            d == s@.skip(lo as int),
            all_digits(d.take(i - lo)),
            acc == digits_value(d.take(i - lo)),
            acc <= max,
        decreases s@.len() - i,
    {
        let c = s[i];
        assert(d[i - lo] == c);
        if !('0' <= c && c <= '9') {
            proof {
                assert(!is_digit(d[i - lo]));
            }
            return None;
        }
        let dv: u64 = ((c as u32) - ('0' as u32)) as u64;
        assert(d.take(i - lo + 1).drop_last() =~= d.take(i - lo));
        let next: u128 = (acc as u128) * 10 + (dv as u128);
        if next > max as u128 {
            proof {
                if all_digits(d) {
                    lemma_digits_value_mono(d, i - lo + 1);
                }
            }
            return None;
        }
        acc = next as u64;
        i = i + 1;
    }
    assert(d.take(i - lo) =~= d);
    Some(acc)
}

/// `str::parse` for unsigned integers with largest value `max`.
pub fn parse_unsigned_exec(s: &[char], max: u64) -> (r: Option<u64>)
    ensures
        r matches Some(v) ==> parse_unsigned(s@, max as int) == Some(v as int),
        r is None ==> parse_unsigned(s@, max as int) is None,
{
    let lo: usize = if s.len() > 0 && s[0] == '+' {
        1
    } else {
        0
    };
    assert(lo == 1 ==> s@.skip(1) =~= s@.drop_first());
    assert(lo == 0 ==> s@.skip(0) =~= s@);
    digits_checked(s, lo, max)
}

/// `str::parse::<i32>`.
pub fn parse_i32_exec(s: &[char]) -> (r: Option<i32>)
    ensures
        r matches Some(v) ==> parse_i32(s@) == Some(v as int),
        r is None ==> parse_i32(s@) is None,
{
    if s.len() > 0 && s[0] == '-' {
        assert(s@.skip(1) =~= s@.drop_first());
        match digits_checked(s, 1, 0x8000_0000) {
            Some(v) => {
                let r: i64 = 0i64 - (v as i64);
                Some(r as i32)
            },
            None => None,
        }
    } else {
        match parse_unsigned_exec(s, 0x7fff_ffff) {
            Some(v) => Some(v as i32),
            None => None,
        }
    }
}

pub open spec fn digit_char(d: int) -> char {
    (('0' as u32) + d) as char
}

/// Decimal representation of `n` without leading zeros (`{}` formatting).
pub open spec fn dec_chars(n: nat) -> Seq<char>
    decreases n,
{
    if n < 10 {
        seq![digit_char(n as int)]
    } else {
        dec_chars(n / 10).push(digit_char((n % 10) as int))
    }
}

fn digit_char_exec(d: u64) -> (c: char)
    requires
        d < 16,
    ensures
        d < 10 ==> c == digit_char(d as int),
        d >= 10 ==> c == hex_char(d as int),
{
    let digits: [char; 16] = [
        '0', '1', '2', '3', '4', '5', '6', '7', '8', '9', 'a', 'b', 'c', 'd', 'e', 'f',
    ];
    let c = digits[d as usize];
    assert(c == digits@[d as int]);
    c
}

/// Appends the decimal representation of `n` (`{}` formatting).
pub fn push_decimal(out: &mut Vec<char>, n: u64)
    ensures
        final(out)@ == old(out)@ + dec_chars(n as nat),
    decreases n,
{
    if n >= 10 {
        push_decimal(out, n / 10);
    }
    let c = digit_char_exec(n % 10);
    out.push(c);
    proof {
        if n >= 10 {
            assert(dec_chars(n as nat) == dec_chars((n / 10) as nat).push(digit_char((n % 10) as int)));
        }
    }
}

/// `i32::to_string`.
pub open spec fn i32_chars(v: int) -> Seq<char> {
    if v < 0 {
        seq!['-'] + dec_chars((-v) as nat)
    } else {
        dec_chars(v as nat)
    }
}

/// Appends `v` formatted with `{}`.
pub fn push_i32(out: &mut Vec<char>, v: i32)
    ensures
        final(out)@ == old(out)@ + i32_chars(v as int),
{
    if v < 0 {
        out.push('-');
        let m: u64 = (0i64 - (v as i64)) as u64;
        push_decimal(out, m);
        assert(final(out)@ =~= old(out)@ + i32_chars(v as int)) by {
            assert(old(out)@.push('-') + dec_chars(m as nat) =~= old(out)@ + (seq!['-'] + dec_chars(
                m as nat,
            )));
        }
    } else {
        push_decimal(out, v as u64);
    }
}

/// `dec_chars(n)` is a non-empty string of digits whose value is `n`.
pub proof fn lemma_dec_chars(n: nat)
    ensures
        dec_chars(n).len() > 0,
        all_digits(dec_chars(n)),
        digits_value(dec_chars(n)) == n,
    decreases n,
{
    if n < 10 {
        let s = dec_chars(n);
        assert(s.drop_last() =~= Seq::<char>::empty());
        assert(digits_value(s) == digits_value(s.drop_last()) * 10 + digit_value(s.last()));
    } else {
        lemma_dec_chars(n / 10);
        let s = dec_chars(n);
        let c = digit_char((n % 10) as int);
        assert(s == dec_chars(n / 10).push(c));
        assert(s.drop_last() =~= dec_chars(n / 10));
        assert forall|i: int| 0 <= i < s.len() implies is_digit(#[trigger] s[i]) by {
            if i < s.len() - 1 {
                assert(s[i] == dec_chars(n / 10)[i]);
            }
        }
        assert(digits_value(s) == digits_value(dec_chars(n / 10)) * 10 + digit_value(c));
        assert((n / 10) * 10 + n % 10 == n);
    }
}

/// Reading back `dec_chars(n)` gives `n`.
pub proof fn lemma_parse_unsigned_dec(n: nat, max: int)
    requires
        n <= max,
    ensures
        parse_unsigned(dec_chars(n), max) == Some(n as int),
{
    lemma_dec_chars(n);
    assert(is_digit(dec_chars(n)[0]));
}

/// Reading back `i32_chars(x)` gives `x`.
pub proof fn lemma_parse_i32_chars(x: int)
    requires
        -0x8000_0000 <= x <= 0x7fff_ffff,
    ensures
        parse_i32(i32_chars(x)) == Some(x),
{
    if x < 0 {
        let m = (-x) as nat;
        lemma_dec_chars(m);
        let s = i32_chars(x);
        assert(s[0] == '-');
        assert(s.drop_first() =~= dec_chars(m));
    } else {
        lemma_parse_unsigned_dec(x as nat, 0x7fff_ffff);
        lemma_dec_chars(x as nat);
        assert(is_digit(dec_chars(x as nat)[0]));
    }
}

/// What `parse_unsigned` reads lies between 0 and `max`.
pub proof fn lemma_parse_unsigned_range(s: Seq<char>, max: int)
    requires
        parse_unsigned(s, max) is Some,
    ensures
        0 <= parse_unsigned(s, max)->0 <= max,
{
    let d = if s.len() > 0 && s[0] == '+' {
        s.drop_first()
    } else {
        s
    };
    lemma_digits_value_nonneg(d);
}

/// What `parse_i32` reads fits an `i32`.
pub proof fn lemma_parse_i32_range(s: Seq<char>)
    requires
        parse_i32(s) is Some,
    ensures
        -0x8000_0000 <= parse_i32(s)->0 <= 0x7fff_ffff,
{
    if s.len() > 0 && s[0] == '-' {
        lemma_digits_value_nonneg(s.drop_first());
    } else {
        lemma_parse_unsigned_range(s, 0x7fff_ffff);
    }
}

/// `i32_chars(x)` is a non-empty string of digits, after a `-` for a negative `x`.
pub proof fn lemma_i32_chars(x: int)
    ensures
        i32_chars(x).len() > 0,
        forall|i: int|
            0 <= i < i32_chars(x).len() ==> is_digit(#[trigger] i32_chars(x)[i]) || (i == 0
                && i32_chars(x)[i] == '-'),
        is_digit(i32_chars(x).last()),
{
    if x < 0 {
        let m = (-x) as nat;
        lemma_dec_chars(m);
        let s = i32_chars(x);
        assert forall|i: int| 0 <= i < s.len() implies is_digit(#[trigger] s[i]) || (i == 0 && s[i]
            == '-') by {
            if i > 0 {
                assert(s[i] == dec_chars(m)[i - 1]);
            }
        }
        assert(s.last() == dec_chars(m).last());
    } else {
        lemma_dec_chars(x as nat);
    }
}

/// Lowercase hexadecimal digit.
pub open spec fn hex_char(d: int) -> char {
    if d < 10 {
        digit_char(d)
    } else {
        (('a' as u32) + (d - 10)) as char
    }
}

/// The lowest `width` hexadecimal digits of `v`, zero padded, most significant first.
pub open spec fn hex_fixed(v: nat, width: nat) -> Seq<char>
    decreases width,
{
    if width == 0 {
        seq![]
    } else {
        hex_fixed(v / 16, (width - 1) as nat).push(hex_char((v % 16) as int))
    }
}

pub proof fn lemma_hex_fixed_len(v: nat, width: nat)
    ensures
        hex_fixed(v, width).len() == width,
    decreases width,
{
    if width > 0 {
        lemma_hex_fixed_len(v / 16, (width - 1) as nat);
    }
}

/// UTF-8 takes at most four bytes per character.
pub proof fn lemma_encode_utf8_len(s: Seq<char>)
    ensures
        vstd::utf8::encode_utf8(s).len() <= 4 * s.len(),
    decreases s.len(),
{
    if s.len() > 0 {
        lemma_encode_utf8_len(s.drop_first());
    }
}

/// An ASCII text takes one byte per character.
pub proof fn lemma_encode_utf8_ascii(s: Seq<char>)
    requires
        forall|k: int| 0 <= k < s.len() ==> (#[trigger] s[k] as u32) < 0x80,
    ensures
        encode_utf8(s).len() == s.len(),
    decreases s.len(),
{
    if s.len() > 0 {
        assert forall|k: int| 0 <= k < s.drop_first().len() implies (#[trigger] s.drop_first()[k]
            as u32) < 0x80 by {
            assert(s.drop_first()[k] == s[k + 1]);
        }
        lemma_encode_utf8_ascii(s.drop_first());
        assert((s[0] as u32) < 0x80);
    }
}

/// Appends the lowest `width` hexadecimal digits of `v` (`{:0width$x}` for values that fit).
pub fn push_hex_fixed(out: &mut Vec<char>, v: u64, width: u32)
    ensures
        final(out)@ == old(out)@ + hex_fixed(v as nat, width as nat),
    decreases width,
{
    if width == 0 {
        assert(final(out)@ =~= old(out)@ + hex_fixed(v as nat, 0));
        return;
    }
    push_hex_fixed(out, v / 16, width - 1);
    let c = digit_char_exec(v % 16);
    out.push(c);
    proof {
        let d = (v % 16) as int;
        assert(c == hex_char(d));
        assert(hex_fixed(v as nat, width as nat) == hex_fixed((v / 16) as nat, (width - 1) as nat).push(
            hex_char(d),
        ));
    }
}

} // verus!
