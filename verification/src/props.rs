//! Device properties: a tab-separated definitions file (`name`, `type`, `spec`,
//! `value` per line) parsed into typed properties, validated updates, the file
//! written back, and a JSON listing.
use vstd::prelude::*;
use vstd::utf8::*;
use crate::text::{
    lemma_dec_chars, lemma_find_char_from_facts, lemma_i32_chars, lemma_lines_concat,
    lemma_lines_line, lemma_lines_no_newline, lemma_parse_i32_chars, lemma_parse_i32_range,
    lemma_parse_unsigned_dec, lemma_parse_unsigned_range, lemma_trim_id, lemma_trim_shape,
    no_char, is_digit, strip_cr, chars_eq, chars_eq_str, chars_of, dec_chars, find_char, i32_chars, is_ws, lemma_find_char,
    lines, lines_exec, parse_i32, parse_i32_exec, parse_unsigned, parse_unsigned_exec,
    push_decimal, push_i32, push_str_chars, seqs_of, string_of, sub_chars, trim, trim_chars,
    find_char_exec,
};

verus! {

/// Where the property definitions live.
pub const PROP_DEFS_PATH: &'static str = "/etc/carlinkit/props.tsv";
/// Where changed values are kept.
pub const PROP_VALUES_PATH: &'static str = "/tmp/carlinkit-props.tsv";

/// The type of a property and what it accepts.
#[derive(Clone, Debug, PartialEq, Eq)]
pub enum PropType {
    Enum { values: Vec<String> },
    Bool,
    Int { min: i32, max: i32 },
    String { min_len: usize, max_len: usize },
}

/// One property.
#[derive(Clone, Debug)]
pub struct Prop {
    pub name: String,
    pub ty: PropType,
    pub value: String,
}

/// A property type as a mathematical value.
pub enum PropTypeView {
    Enum(Seq<Seq<char>>),
    Bool,
    Int(int, int),
    Str(nat, nat),
}

/// A property as a mathematical value.
pub struct PropView {
    pub name: Seq<char>,
    pub ty: PropTypeView,
    pub value: Seq<char>,
}

/// The texts of a sequence of strings.
pub open spec fn strings(v: Seq<String>) -> Seq<Seq<char>> {
    Seq::new(v.len(), |i: int| v[i]@)
}

impl View for PropType {
    type V = PropTypeView;

    open spec fn view(&self) -> PropTypeView {
        match self {
            PropType::Enum { values } => PropTypeView::Enum(strings(values@)),
            PropType::Bool => PropTypeView::Bool,
            PropType::Int { min, max } => PropTypeView::Int(*min as int, *max as int),
            PropType::String { min_len, max_len } => PropTypeView::Str(
                *min_len as nat,
                *max_len as nat,
            ),
        }
    }
}

impl View for Prop {
    type V = PropView;

    open spec fn view(&self) -> PropView {
        PropView { name: self.name@, ty: self.ty@, value: self.value@ }
    }
}

/// The views of a sequence of properties.
pub open spec fn props_view(v: Seq<Prop>) -> Seq<PropView> {
    Seq::new(v.len(), |i: int| v[i]@)
}

/// No tab, carriage return or line feed.
pub open spec fn token_ok(s: Seq<char>) -> bool {
    forall|i: int| 0 <= i < s.len() ==> #[trigger] s[i] != '\t' && s[i] != '\r' && s[i] != '\n'
}

/// `validate_token`: a value may not hold a tab, carriage return or line feed.
pub open spec fn token_check(s: Seq<char>) -> Result<(), &'static str> {
    if token_ok(s) {
        Ok(())
    } else {
        Err("value contains forbidden control char")
    }
}

/// What `validate_value` gives for a value of type `ty`: the value as stored, or why it
/// is refused.
pub open spec fn value_check(ty: PropTypeView, v: Seq<char>) -> Result<Seq<char>, &'static str> {
    match ty {
        PropTypeView::Enum(values) => if values.contains(v) {
            Ok(v)
        } else {
            Err("enum value is not allowed")
        },
        PropTypeView::Bool => if v == "true"@ || v == "1"@ {
            Ok("true"@)
        } else if v == "false"@ || v == "0"@ {
            Ok("false"@)
        } else {
            Err("bool accepts only true/false/1/0")
        },
        PropTypeView::Int(min, max) => match parse_i32(v) {
            None => Err("invalid int"),
            Some(x) => if x < min || x > max {
                Err("int out of range")
            } else {
                Ok(i32_chars(x))
            },
        },
        PropTypeView::Str(min_len, max_len) => if !token_ok(v) {
            Err("value contains forbidden control char")
        } else {
            let len = encode_utf8(v).len() as usize;
            if len < min_len || len > max_len {
                Err("string length out of range")
            } else {
                Ok(v)
            }
        },
    }
}

fn token_check_exec(s: &[char]) -> (r: Result<(), &'static str>)
    ensures
        r == token_check(s@),
{
    let mut i: usize = 0;
    while i < s.len()
        invariant
            i <= s@.len(),
            forall|k: int| 0 <= k < i ==> #[trigger] s@[k] != '\t' && s@[k] != '\r' && s@[k] != '\n',
        decreases s@.len() - i,
    {
        let c = s[i];
        if c == '\t' || c == '\r' || c == '\n' {
            assert(!token_ok(s@)) by {
                assert(s@[i as int] == c);
            }
            return Err("value contains forbidden control char");
        }
        i = i + 1;
    }
    Ok(())
}

/// Whether `v` holds a string equal to `s`.
fn contains_chars(v: &Vec<String>, s: &[char]) -> (r: bool)
    ensures
        r == strings(v@).contains(s@),
{
    let mut i: usize = 0;
    while i < v.len()
        invariant
            i <= v@.len(),
            forall|j: int| 0 <= j < i ==> v@[j]@ != s@,
        decreases v@.len() - i,
    {
        if chars_eq_str(s, v[i].as_str()) {
            assert(strings(v@)[i as int] == s@);
            return true;
        }
        i = i + 1;
    }
    assert(!strings(v@).contains(s@));
    false
}

fn validate_value_chars(ty: &PropType, v: &[char]) -> (r: Result<String, &'static str>)
    ensures
        r matches Ok(s) ==> value_check(ty@, v@) == Ok::<Seq<char>, &'static str>(s@),
        r matches Err(e) ==> value_check(ty@, v@) == Err::<Seq<char>, &'static str>(e),
{
    match ty {
        PropType::Enum { values } => {
            if contains_chars(values, v) {
                Ok(string_of(v))
            } else {
                Err("enum value is not allowed")
            }
        },
        PropType::Bool => {
            if chars_eq_str(v, "true") || chars_eq_str(v, "1") {
                Ok("true".to_string())
            } else if chars_eq_str(v, "false") || chars_eq_str(v, "0") {
                Ok("false".to_string())
            } else {
                Err("bool accepts only true/false/1/0")
            }
        },
        PropType::Int { min, max } => {
            match parse_i32_exec(v) {
                None => Err("invalid int"),
                Some(x) => {
                    if x < *min || x > *max {
                        Err("int out of range")
                    } else {
                        let mut out: Vec<char> = Vec::new();
                        push_i32(&mut out, x);
                        assert(out@ =~= i32_chars(x as int));
                        Ok(string_of(out.as_slice()))
                    }
                },
            }
        },
        PropType::String { min_len, max_len } => {
            match token_check_exec(v) {
                Err(e) => Err(e),
                Ok(()) => {
                    let s = string_of(v);
                    let len = s.as_str().len();
                    if len < *min_len || len > *max_len {
                        Err("string length out of range")
                    } else {
                        Ok(s)
                    }
                },
            }
        },
    }
}

/// Checks `value` against `ty` and gives the value as it is stored (`1` → `true`,
/// `+07` → `7`, ...).
pub fn validate_value(ty: &PropType, value: &str) -> (r: Result<String, &'static str>)
    ensures
        r matches Ok(s) ==> value_check(ty@, value@) == Ok::<Seq<char>, &'static str>(s@),
        r matches Err(e) ==> value_check(ty@, value@) == Err::<Seq<char>, &'static str>(e),
{
    let v = chars_of(value);
    validate_value_chars(ty, v.as_slice())
}

/// `str::split(c)`: the pieces of `s` between occurrences of `c`.
pub open spec fn split_char(s: Seq<char>, c: char) -> Seq<Seq<char>>
    decreases s.len(),
{
    match find_char(s, c) {
        Some(i) => if 0 <= i < s.len() {
            seq![s.take(i)] + split_char(s.skip(i + 1), c)
        } else {
            seq![s]
        },
        None => seq![s],
    }
}

proof fn lemma_split_char_step(s: Seq<char>, c: char, i: int)
    requires
        0 <= i <= s.len(),
        forall|k: int| 0 <= k < i ==> s[k] != c,
        i < s.len() ==> s[i] == c,
    ensures
        split_char(s, c) == if i < s.len() {
            seq![s.take(i)] + split_char(s.skip(i + 1), c)
        } else {
            seq![s]
        },
{
    lemma_find_char(s, c);
    if find_char(s, c) is Some {
        let f = find_char(s, c)->0;
        if f < i {
            assert(s[f] != c);
        } else if f > i {
            assert(i < s.len());
            assert(s[i] != c);
        }
    } else {
        if i < s.len() {
            assert(s[i] != c);
        }
    }
}

pub proof fn lemma_split_char_nonempty(s: Seq<char>, c: char)
    ensures
        split_char(s, c).len() >= 1,
    decreases s.len(),
{
    lemma_find_char(s, c);
    if let Some(i) = find_char(s, c) {
        lemma_split_char_nonempty(s.skip(i + 1), c);
    }
}

/// `str::split(c)`, copied out.
pub fn split_char_exec(s: &[char], c: char) -> (parts: Vec<Vec<char>>)
    ensures
        seqs_of(parts@) == split_char(s@, c),
{
    let mut parts: Vec<Vec<char>> = Vec::new();
    let mut start: usize = 0;
    let mut i: usize = 0;
    let ghost whole = s@;
    assert(s@.skip(0) =~= s@);
    assert(seqs_of(parts@) + split_char(s@.skip(0), c) =~= split_char(s@, c));
    while i < s.len()
        invariant
            start <= i <= s@.len(),
            whole == s@,
            forall|k: int| start <= k < i ==> s@[k] != c,
            seqs_of(parts@) + split_char(s@.skip(start as int), c) == split_char(s@, c),
        decreases s@.len() - i,
    {
        if s[i] == c {
            let piece = sub_chars(s, start, i);
            let ghost rest = s@.skip(start as int);
            proof {
                lemma_split_char_step(rest, c, i - start);
                assert(rest.take(i - start) =~= piece@);
                assert(rest.skip(i - start + 1) =~= s@.skip(i + 1));
            }
            let ghost before = seqs_of(parts@);
            parts.push(piece);
            assert(seqs_of(parts@) =~= before.push(piece@));
            assert(seqs_of(parts@) + split_char(s@.skip(i + 1), c) =~= before + (seq![piece@]
                + split_char(s@.skip(i + 1), c)));
            start = i + 1;
        }
        i = i + 1;
    }
    let piece = sub_chars(s, start, s.len());
    proof {
        let rest = s@.skip(start as int);
        lemma_split_char_step(rest, c, rest.len() as int);
        assert(rest =~= piece@);
    }
    let ghost before = seqs_of(parts@);
    parts.push(piece);
    assert(seqs_of(parts@) =~= before + seq![piece@]);
    parts
}

/// The non-empty pieces, in order.
pub open spec fn nonempty_parts(parts: Seq<Seq<char>>) -> Seq<Seq<char>>
    decreases parts.len(),
{
    if parts.len() == 0 {
        seq![]
    } else {
        let rest = nonempty_parts(parts.drop_last());
        if parts.last().len() == 0 {
            rest
        } else {
            rest.push(parts.last())
        }
    }
}

/// `splitn(2, ':')` of a range spec: the text before and after the first `:`.
pub open spec fn range_parts(spec: Seq<char>) -> Option<(Seq<char>, Seq<char>)> {
    match find_char(spec, ':') {
        Some(i) => Some((spec.take(i), spec.skip(i + 1))),
        None => None,
    }
}

/// What `parse_type` gives for a type name and its spec field.
pub open spec fn type_check(ty: Seq<char>, spec: Seq<char>) -> Result<PropTypeView, &'static str> {
    if ty == "enum"@ {
        let parts = split_char(spec, ',');
        if !(forall|i: int| 0 <= i < parts.len() ==> token_ok(#[trigger] parts[i])) {
            Err("value contains forbidden control char")
        } else if nonempty_parts(parts).len() == 0 {
            Err("enum requires at least one value")
        } else {
            Ok(PropTypeView::Enum(nonempty_parts(parts)))
        }
    } else if ty == "bool"@ {
        if spec == "-"@ {
            Ok(PropTypeView::Bool)
        } else {
            Err("bool spec must be '-'")
        }
    } else if ty == "int"@ {
        match range_parts(spec) {
            None => Err("missing range"),
            Some((a, b)) => match (parse_i32(a), parse_i32(b)) {
                (Some(lo), Some(hi)) => if lo > hi {
                    Err("invalid int range")
                } else {
                    Ok(PropTypeView::Int(lo, hi))
                },
                _ => Err("invalid int range"),
            },
        }
    } else if ty == "string"@ {
        match range_parts(spec) {
            None => Err("missing range"),
            Some((a, b)) => match (
                parse_unsigned(a, usize::MAX as int),
                parse_unsigned(b, usize::MAX as int),
            ) {
                (Some(lo), Some(hi)) => if lo > hi {
                    Err("invalid string range")
                } else {
                    Ok(PropTypeView::Str(lo as nat, hi as nat))
                },
                _ => Err("invalid string range"),
            },
        }
    } else {
        Err("unknown type")
    }
}

fn range_parts_exec(spec: &[char]) -> (r: Option<(Vec<char>, Vec<char>)>)
    ensures
        r matches Some(p) ==> range_parts(spec@) == Some((p.0@, p.1@)),
        r is None ==> range_parts(spec@) is None,
{
    proof {
        lemma_find_char(spec@, ':');
    }
    match find_char_exec(spec, ':') {
        Some(i) => {
            let n = spec.len();
            assert(i < n);
            let a = sub_chars(spec, 0, i);
            let b = sub_chars(spec, i + 1, spec.len());
            assert(a@ =~= spec@.take(i as int));
            assert(b@ =~= spec@.skip(i + 1));
            Some((a, b))
        },
        None => None,
    }
}

/// Reads a type name and its spec field.
fn parse_type(ty: &[char], spec: &[char]) -> (r: Result<PropType, &'static str>)
    ensures
        r matches Ok(t) ==> type_check(ty@, spec@) == Ok::<PropTypeView, &'static str>(t@),
        r matches Err(e) ==> type_check(ty@, spec@) == Err::<PropTypeView, &'static str>(e),
{
    if chars_eq_str(ty, "enum") {
        let parts = split_char_exec(spec, ',');
        let ghost ps = seqs_of(parts@);
        let mut values: Vec<String> = Vec::new();
        let mut i: usize = 0;
        while i < parts.len()
            invariant
                i <= parts@.len(),
                ps == seqs_of(parts@),
                ps == split_char(spec@, ','),
                ty@ == "enum"@,
                strings(values@) == nonempty_parts(ps.take(i as int)),
                forall|k: int| 0 <= k < i ==> token_ok(#[trigger] ps[k]),
            decreases parts@.len() - i,
        {
            assert(ps.take(i + 1).drop_last() =~= ps.take(i as int));
            let item = parts[i].as_slice();
            assert(item@ == ps[i as int]);
            if item.len() == 0 {
                i = i + 1;
                continue;
            }
            match token_check_exec(item) {
                Err(e) => {
                    assert(!token_ok(ps[i as int]));
                    return Err(e);
                },
                Ok(()) => {},
            }
            let ghost before = strings(values@);
            values.push(string_of(item));
            assert(strings(values@) =~= before.push(ps[i as int]));
            i = i + 1;
        }
        assert(ps.take(ps.len() as int) =~= ps);
        if values.len() == 0 {
            return Err("enum requires at least one value");
        }
        Ok(PropType::Enum { values })
    } else if chars_eq_str(ty, "bool") {
        if chars_eq_str(spec, "-") {
            Ok(PropType::Bool)
        } else {
            Err("bool spec must be '-'")
        }
    } else if chars_eq_str(ty, "int") {
        match range_parts_exec(spec) {
            None => Err("missing range"),
            Some((a, b)) => {
                match parse_i32_exec(a.as_slice()) {
                    None => Err("invalid int range"),
                    Some(lo) => match parse_i32_exec(b.as_slice()) {
                        None => Err("invalid int range"),
                        Some(hi) => {
                            if lo > hi {
                                Err("invalid int range")
                            } else {
                                Ok(PropType::Int { min: lo, max: hi })
                            }
                        },
                    },
                }
            },
        }
    } else if chars_eq_str(ty, "string") {
        match range_parts_exec(spec) {
            None => Err("missing range"),
            Some((a, b)) => {
                match parse_unsigned_exec(a.as_slice(), usize::MAX as u64) {
                    None => Err("invalid string range"),
                    Some(lo) => match parse_unsigned_exec(b.as_slice(), usize::MAX as u64) {
                        None => Err("invalid string range"),
                        Some(hi) => {
                            if lo > hi {
                                Err("invalid string range")
                            } else {
                                Ok(PropType::String { min_len: lo as usize, max_len: hi as usize })
                            }
                        },
                    },
                }
            },
        }
    } else {
        Err("unknown type")
    }
}

/// `splitn(4, '\t')` of a line: name, type, spec and value, or which of them is missing.
pub open spec fn fields4(line: Seq<char>) -> Result<
    (Seq<char>, Seq<char>, Seq<char>, Seq<char>),
    &'static str,
> {
    match find_char(line, '\t') {
        None => Err("missing type"),
        Some(i) => {
            let r1 = line.skip(i + 1);
            match find_char(r1, '\t') {
                None => Err("missing spec"),
                Some(j) => {
                    let r2 = r1.skip(j + 1);
                    match find_char(r2, '\t') {
                        None => Err("missing value"),
                        Some(k) => Ok((line.take(i), r1.take(j), r2.take(k), r2.skip(k + 1))),
                    }
                },
            }
        },
    }
}

/// What `parse_line` gives for one (trimmed) line of a properties file.
pub open spec fn line_check(line: Seq<char>) -> Result<PropView, &'static str> {
    match fields4(line) {
        Err(e) => Err(e),
        Ok((name, ty, spec, value)) => if name.len() == 0 {
            Err("empty prop name")
        } else if !token_ok(name) {
            Err("value contains forbidden control char")
        } else {
            match type_check(ty, spec) {
                Err(e) => Err(e),
                Ok(t) => match value_check(t, value) {
                    Err(e) => Err(e),
                    Ok(v) => Ok(PropView { name, ty: t, value: v }),
                },
            }
        },
    }
}

/// Splits at the first tab: the text before it and after it.
fn split_tab(s: &[char]) -> (r: Option<(Vec<char>, Vec<char>)>)
    ensures
        r matches Some(p) ==> find_char(s@, '\t') matches Some(i) && p.0@ == s@.take(i) && p.1@
            == s@.skip(i + 1),
        r is None ==> find_char(s@, '\t') is None,
{
    proof {
        lemma_find_char(s@, '\t');
    }
    match find_char_exec(s, '\t') {
        Some(i) => {
            let n = s.len();
            assert(i < n);
            let a = sub_chars(s, 0, i);
            let b = sub_chars(s, i + 1, s.len());
            assert(a@ =~= s@.take(i as int));
            assert(b@ =~= s@.skip(i + 1));
            Some((a, b))
        },
        None => None,
    }
}

/// Reads one line of a properties file: `name`, `type`, `spec` and `value`, tab separated.
fn parse_line(line: &[char]) -> (r: Result<Prop, &'static str>)
    ensures
        r matches Ok(p) ==> line_check(line@) == Ok::<PropView, &'static str>(p@),
        r matches Err(e) ==> line_check(line@) == Err::<PropView, &'static str>(e),
{
    let (name, r1) = match split_tab(line) {
        None => {
            return Err("missing type");
        },
        Some(p) => p,
    };
    let (ty, r2) = match split_tab(r1.as_slice()) {
        None => {
            return Err("missing spec");
        },
        Some(p) => p,
    };
    let (spec, value) = match split_tab(r2.as_slice()) {
        None => {
            return Err("missing value");
        },
        Some(p) => p,
    };
    if name.len() == 0 {
        return Err("empty prop name");
    }
    match token_check_exec(name.as_slice()) {
        Err(e) => {
            return Err(e);
        },
        Ok(()) => {},
    }
    let parsed_type = match parse_type(ty.as_slice(), spec.as_slice()) {
        Err(e) => {
            return Err(e);
        },
        Ok(t) => t,
    };
    let normalized = match validate_value_chars(&parsed_type, value.as_slice()) {
        Err(e) => {
            return Err(e);
        },
        Ok(v) => v,
    };
    Ok(Prop { name: string_of(name.as_slice()), ty: parsed_type, value: normalized })
}

/// Whether a line of a properties file carries no property: blank or a `#` comment.
pub open spec fn skipped_line(t: Seq<char>) -> bool {
    t.len() == 0 || t[0] == '#'
}

/// What `parse_props_file` gives for the lines of a file.
pub open spec fn lines_check(ls: Seq<Seq<char>>) -> Result<Seq<PropView>, &'static str>
    decreases ls.len(),
{
    if ls.len() == 0 {
        Ok(seq![])
    } else {
        match lines_check(ls.drop_last()) {
            Err(e) => Err(e),
            Ok(ps) => {
                let t = trim(ls.last());
                if skipped_line(t) {
                    Ok(ps)
                } else {
                    match line_check(t) {
                        Err(e) => Err(e),
                        Ok(p) => Ok(ps.push(p)),
                    }
                }
            },
        }
    }
}

/// What `parse_props_file` gives for a whole file.
pub open spec fn props_check(input: Seq<char>) -> Result<Seq<PropView>, &'static str> {
    lines_check(lines(input))
}

proof fn lemma_lines_check_err(ls: Seq<Seq<char>>, i: int, e: &'static str)
    requires
        0 <= i <= ls.len(),
        lines_check(ls.take(i)) == Err::<Seq<PropView>, &'static str>(e),
    ensures
        lines_check(ls) == Err::<Seq<PropView>, &'static str>(e),
    decreases ls.len() - i,
{
    if i < ls.len() {
        assert(ls.take(i + 1).drop_last() =~= ls.take(i));
        lemma_lines_check_err(ls, i + 1, e);
    } else {
        assert(ls.take(i) =~= ls);
    }
}

/// Reads a properties file: one property per line, blank lines and `#` comments
/// skipped; the first bad line makes the whole file fail.
pub fn parse_props_file(input: &str) -> (r: Result<Vec<Prop>, &'static str>)
    ensures
        r matches Ok(ps) ==> props_check(input@) == Ok::<Seq<PropView>, &'static str>(
            props_view(ps@),
        ),
        r matches Err(e) ==> props_check(input@) == Err::<Seq<PropView>, &'static str>(e),
{
    let cs = chars_of(input);
    let ls = lines_exec(cs.as_slice());
    let ghost lv = seqs_of(ls@);
    let mut out: Vec<Prop> = Vec::new();
    let mut i: usize = 0;
    assert(lv.take(0) =~= Seq::<Seq<char>>::empty());
    assert(props_view(out@) =~= Seq::<PropView>::empty());
    while i < ls.len()
        invariant
            i <= ls@.len(),
            lv == seqs_of(ls@),
            lv == lines(input@),
            lines_check(lv.take(i as int)) == Ok::<Seq<PropView>, &'static str>(props_view(out@)),
        decreases ls@.len() - i,
    {
        assert(lv.take(i + 1).drop_last() =~= lv.take(i as int));
        assert(lv.take(i + 1).last() == ls@[i as int]@);
        let t = trim_chars(ls[i].as_slice());
        if t.len() == 0 || t[0] == '#' {
            i = i + 1;
            continue;
        }
        match parse_line(t.as_slice()) {
            Err(e) => {
                proof {
                    lemma_lines_check_err(lv, i + 1, e);
                }
                return Err(e);
            },
            Ok(p) => {
                let ghost before = props_view(out@);
                out.push(p);
                assert(props_view(out@) =~= before.push(out@.last()@));
            },
        }
        i = i + 1;
    }
    assert(lv.take(ls@.len() as int) =~= lv);
    Ok(out)
}

/// The pieces joined with `c` between them (`[T]::join`).
pub open spec fn join_with(v: Seq<Seq<char>>, c: char) -> Seq<char>
    decreases v.len(),
{
    if v.len() == 0 {
        seq![]
    } else if v.len() == 1 {
        v[0]
    } else {
        join_with(v.drop_last(), c).push(c) + v.last()
    }
}

/// The type name and spec field written for a type.
pub open spec fn type_fields(t: PropTypeView) -> (Seq<char>, Seq<char>) {
    match t {
        PropTypeView::Enum(values) => ("enum"@, join_with(values, ',')),
        PropTypeView::Bool => ("bool"@, "-"@),
        PropTypeView::Int(min, max) => ("int"@, i32_chars(min) + seq![':'] + i32_chars(max)),
        PropTypeView::Str(min_len, max_len) => (
            "string"@,
            dec_chars(min_len) + seq![':'] + dec_chars(max_len),
        ),
    }
}

/// A property's line without its line feed: name, type, spec and value, tab separated.
pub open spec fn prop_body(p: PropView) -> Seq<char> {
    p.name + seq!['\t'] + type_fields(p.ty).0 + seq!['\t'] + type_fields(p.ty).1 + seq!['\t']
        + p.value
}

/// The line written for a property.
pub open spec fn prop_line(p: PropView) -> Seq<char> {
    prop_body(p) + seq!['\n']
}

/// The lines written for a sequence of properties.
pub open spec fn props_lines(ps: Seq<PropView>) -> Seq<char>
    decreases ps.len(),
{
    if ps.len() == 0 {
        seq![]
    } else {
        props_lines(ps.drop_last()) + prop_line(ps.last())
    }
}

/// The header line of a properties file.
pub open spec fn props_header() -> Seq<char> {
    "# name\ttype\tspec\tvalue\n"@
}

/// A properties file holding `ps`.
pub open spec fn props_text(ps: Seq<PropView>) -> Seq<char> {
    props_header() + props_lines(ps)
}

fn push_joined(out: &mut Vec<char>, values: &Vec<String>, c: char)
    ensures
        final(out)@ == old(out)@ + join_with(strings(values@), c),
{
    let ghost vs = strings(values@);
    let ghost start = out@;
    let mut i: usize = 0;
    assert(vs.take(0) =~= Seq::<Seq<char>>::empty());
    assert(out@ =~= start + join_with(vs.take(0), c));
    while i < values.len()
        invariant
            i <= values@.len(),
            vs == strings(values@),
            out@ == start + join_with(vs.take(i as int), c),
        decreases values@.len() - i,
    {
        let ghost before = out@;
        assert(vs.take(i + 1).drop_last() =~= vs.take(i as int));
        assert(vs.take(i + 1).last() == values@[i as int]@);
        if i > 0 {
            out.push(c);
        }
        push_str_chars(out, values[i].as_str());
        proof {
            if i == 0 {
                assert(vs.take(1) =~= seq![vs[0]]);
                assert(out@ =~= start + join_with(vs.take(1), c));
            } else {
                assert(out@ =~= start + join_with(vs.take(i + 1), c));
            }
        }
        i = i + 1;
    }
    assert(vs.take(values@.len() as int) =~= vs);
}

/// Appends the type name and spec field of a type, tab separated.
fn push_type_fields(out: &mut Vec<char>, ty: &PropType)
    ensures
        final(out)@ == old(out)@ + type_fields(ty@).0 + seq!['\t'] + type_fields(ty@).1,
{
    match ty {
        PropType::Enum { values } => {
            push_str_chars(out, "enum\t");
            push_joined(out, values, ',');
        },
        PropType::Bool => {
            push_str_chars(out, "bool\t-");
        },
        PropType::Int { min, max } => {
            push_str_chars(out, "int\t");
            push_i32(out, *min);
            out.push(':');
            push_i32(out, *max);
        },
        PropType::String { min_len, max_len } => {
            push_str_chars(out, "string\t");
            push_decimal(out, *min_len as u64);
            out.push(':');
            push_decimal(out, *max_len as u64);
        },
    }
    proof {
        reveal_strlit("enum\t");
        reveal_strlit("enum");
        reveal_strlit("bool\t-");
        reveal_strlit("bool");
        reveal_strlit("-");
        reveal_strlit("int\t");
        reveal_strlit("int");
        reveal_strlit("string\t");
        reveal_strlit("string");
    }
    assert(final(out)@ =~= old(out)@ + type_fields(ty@).0 + seq!['\t'] + type_fields(ty@).1);
}

/// Writes a properties file: a header line, then one line per property.
pub fn serialize_props_file(props: &[Prop]) -> (r: String)
    ensures
        r@ == props_text(props_view(props@)),
{
    let ghost pv = props_view(props@);
    let mut out: Vec<char> = Vec::new();
    push_str_chars(&mut out, "# name\ttype\tspec\tvalue\n");
    let mut i: usize = 0;
    assert(pv.take(0) =~= Seq::<PropView>::empty());
    assert(out@ =~= props_header() + props_lines(pv.take(0)));
    while i < props.len()
        invariant
            i <= props@.len(),
            pv == props_view(props@),
            out@ == props_header() + props_lines(pv.take(i as int)),
        decreases props@.len() - i,
    {
        assert(pv.take(i + 1).drop_last() =~= pv.take(i as int));
        assert(pv.take(i + 1).last() == props@[i as int]@);
        let ghost before = out@;
        let p = &props[i];
        push_str_chars(&mut out, p.name.as_str());
        out.push('\t');
        push_type_fields(&mut out, &p.ty);
        out.push('\t');
        push_str_chars(&mut out, p.value.as_str());
        out.push('\n');
        assert(out@ =~= before + prop_line(p@));
        i = i + 1;
    }
    assert(pv.take(props@.len() as int) =~= pv);
    string_of(out.as_slice())
}

/// `char::is_control`: the Unicode `Cc` characters.
pub open spec fn is_control(c: char) -> bool {
    (c as u32) <= 0x1f || (0x7f <= (c as u32) && (c as u32) <= 0x9f)
}

/// How one character is written inside a JSON string.
pub open spec fn json_char(c: char) -> Seq<char> {
    if c == '"' {
        seq!['\\', '"']
    } else if c == '\\' {
        seq!['\\', '\\']
    } else if c == '\n' {
        seq!['\\', 'n']
    } else if c == '\r' {
        seq!['\\', 'r']
    } else if c == '\t' {
        seq!['\\', 't']
    } else if is_control(c) {
        seq!['?']
    } else {
        seq![c]
    }
}

/// A text escaped for a JSON string.
pub open spec fn json_escaped(s: Seq<char>) -> Seq<char>
    decreases s.len(),
{
    if s.len() == 0 {
        seq![]
    } else {
        json_escaped(s.drop_last()) + json_char(s.last())
    }
}

/// Appends `input` escaped for a JSON string.
pub fn push_json_escaped(out: &mut Vec<char>, input: &str)
    ensures
        final(out)@ == old(out)@ + json_escaped(input@),
{
    let cs = chars_of(input);
    let ghost start = out@;
    let mut i: usize = 0;
    assert(cs@.take(0) =~= Seq::<char>::empty());
    assert(out@ =~= start + json_escaped(cs@.take(0)));
    while i < cs.len()
        invariant
            i <= cs@.len(),
            cs@ == input@,
            out@ == start + json_escaped(cs@.take(i as int)),
        decreases cs@.len() - i,
    {
        let ghost before = out@;
        assert(cs@.take(i + 1).drop_last() =~= cs@.take(i as int));
        assert(cs@.take(i + 1).last() == cs@[i as int]);
        let c = cs[i];
        let u = c as u32;
        if c == '"' {
            out.push('\\');
            out.push('"');
        } else if c == '\\' {
            out.push('\\');
            out.push('\\');
        } else if c == '\n' {
            out.push('\\');
            out.push('n');
        } else if c == '\r' {
            out.push('\\');
            out.push('r');
        } else if c == '\t' {
            out.push('\\');
            out.push('t');
        } else if u <= 0x1f || (0x7f <= u && u <= 0x9f) {
            out.push('?');
        } else {
            out.push(c);
        }
        assert(out@ =~= before + json_char(c));
        i = i + 1;
    }
    assert(cs@.take(cs@.len() as int) =~= cs@);
}

/// The JSON strings of `values`, comma separated.
pub open spec fn json_strings(values: Seq<Seq<char>>) -> Seq<char>
    decreases values.len(),
{
    if values.len() == 0 {
        seq![]
    } else if values.len() == 1 {
        seq!['"'] + json_escaped(values[0]) + seq!['"']
    } else {
        json_strings(values.drop_last()) + seq![','] + (seq!['"'] + json_escaped(values.last())
            + seq!['"'])
    }
}

/// The character a JSON escape `\c` stands for; `None` for an escape JSON does not have
/// (or `\u`, which is not read here).
pub open spec fn json_unescape(c: char) -> Option<char> {
    if c == '"' {
        Some('"')
    } else if c == '\\' {
        Some('\\')
    } else if c == '/' {
        Some('/')
    } else if c == 'b' {
        Some('\u{8}')
    } else if c == 'f' {
        Some('\u{c}')
    } else if c == 'n' {
        Some('\n')
    } else if c == 'r' {
        Some('\r')
    } else if c == 't' {
        Some('\t')
    } else {
        None
    }
}

/// Reads a JSON string from just after its opening quote: the text it stands for and what
/// follows its closing quote; `None` when it is not closed, holds a raw control character
/// or an escape that is not read here.
pub open spec fn json_string_body(s: Seq<char>) -> Option<(Seq<char>, Seq<char>)>
    decreases s.len(),
{
    if s.len() == 0 {
        None
    } else if s[0] == '"' {
        Some((Seq::<char>::empty(), s.drop_first()))
    } else if (s[0] as u32) < 0x20 {
        None
    } else if s[0] == '\\' {
        if s.len() < 2 {
            None
        } else {
            match json_unescape(s[1]) {
                None => None,
                Some(c) => match json_string_body(s.skip(2)) {
                    None => None,
                    Some(p) => Some((seq![c] + p.0, p.1)),
                },
            }
        }
    } else {
        match json_string_body(s.drop_first()) {
            None => None,
            Some(p) => Some((seq![s[0]] + p.0, p.1)),
        }
    }
}

proof fn lemma_json_string_body_rest(s: Seq<char>)
    ensures
        json_string_body(s) matches Some(p) ==> p.1.len() < s.len(),
    decreases s.len(),
{
    if s.len() > 0 && s[0] != '"' {
        if s[0] == '\\' && s.len() >= 2 {
            lemma_json_string_body_rest(s.skip(2));
        } else if s.len() > 0 {
            lemma_json_string_body_rest(s.drop_first());
        }
    }
}

/// The strings of a comma-separated list of JSON strings (the inside of a JSON array of
/// strings); `None` when it is not such a list.
pub open spec fn json_string_items(s: Seq<char>) -> Option<Seq<Seq<char>>>
    decreases s.len(),
    via json_string_items_decreases
{
    if s.len() == 0 || s[0] != '"' {
        None
    } else {
        match json_string_body(s.drop_first()) {
            None => None,
            Some(p) => if p.1.len() == 0 {
                Some(seq![p.0])
            } else if p.1[0] == ',' {
                match json_string_items(p.1.drop_first()) {
                    None => None,
                    Some(rest) => Some(seq![p.0] + rest),
                }
            } else {
                None
            },
        }
    }
}

#[via_fn]
proof fn json_string_items_decreases(s: Seq<char>) {
    if s.len() > 0 {
        lemma_json_string_body_rest(s.drop_first());
    }
}

/// The strings of the inside of a JSON array of strings (empty for `[]`).
pub open spec fn json_string_array(s: Seq<char>) -> Option<Seq<Seq<char>>> {
    if s.len() == 0 {
        Some(Seq::<Seq<char>>::empty())
    } else {
        json_string_items(s)
    }
}

/// Whether `c` is written as itself or as a JSON escape (every character but control
/// characters other than newline, carriage return and tab).
pub open spec fn json_keeps(c: char) -> bool {
    !is_control(c) || c == '\n' || c == '\r' || c == '\t'
}

/// A text as a reader of the JSON gets it back: control characters that JSON text cannot
/// carry here come back as `?`.
pub open spec fn json_shown(v: Seq<char>) -> Seq<char> {
    Seq::new(v.len(), |i: int| if json_keeps(v[i]) { v[i] } else { '?' })
}

proof fn lemma_json_escaped_cons(v: Seq<char>)
    requires
        v.len() > 0,
    ensures
        json_escaped(v) == json_char(v[0]) + json_escaped(v.drop_first()),
    decreases v.len(),
{
    if v.len() == 1 {
        assert(v.drop_last() =~= Seq::<char>::empty());
        assert(v.drop_first() =~= Seq::<char>::empty());
        assert(json_escaped(v.drop_first()) =~= Seq::<char>::empty());
        assert(json_escaped(v) =~= json_char(v[0]));
    } else {
        lemma_json_escaped_cons(v.drop_last());
        assert(v.drop_last().drop_first() =~= v.drop_first().drop_last());
        assert(v.drop_first().last() == v.last());
        assert(v.drop_last()[0] == v[0]);
        assert(json_escaped(v) =~= json_char(v[0]) + json_escaped(v.drop_first()));
    }
}

proof fn lemma_json_string_body_escaped(v: Seq<char>, rest: Seq<char>)
    ensures
        json_string_body(json_escaped(v) + seq!['"'] + rest) == Some((json_shown(v), rest)),
    decreases v.len(),
{
    let s = json_escaped(v) + seq!['"'] + rest;
    if v.len() == 0 {
        assert(json_escaped(v) =~= Seq::<char>::empty());
        assert(s =~= seq!['"'] + rest);
        assert(s.drop_first() =~= rest);
        assert(json_shown(v) =~= Seq::<char>::empty());
    } else {
        lemma_json_escaped_cons(v);
        let c = v[0];
        let v1 = v.drop_first();
        let t = json_escaped(v1) + seq!['"'] + rest;
        lemma_json_string_body_escaped(v1, rest);
        assert(s =~= json_char(c) + t);
        if c == '"' || c == '\\' || c == '\n' || c == '\r' || c == '\t' {
            assert(s.skip(2) =~= t);
        } else {
            assert(s.drop_first() =~= t);
        }
        assert(json_shown(v) =~= seq![json_shown(v)[0]] + json_shown(v1));
    }
}

proof fn lemma_json_strings_cons(values: Seq<Seq<char>>)
    requires
        values.len() >= 2,
    ensures
        json_strings(values) == (seq!['"'] + json_escaped(values[0]) + seq!['"']) + seq![','] + json_strings(
            values.drop_first(),
        ),
    decreases values.len(),
{
    let q0 = seq!['"'] + json_escaped(values[0]) + seq!['"'];
    let ql = seq!['"'] + json_escaped(values.last()) + seq!['"'];
    if values.len() == 2 {
        assert(values.drop_last() =~= seq![values[0]]);
        assert(values.drop_first() =~= seq![values[1]]);
        assert(json_strings(values.drop_last()) == q0);
        assert(json_strings(values.drop_first()) == ql);
        assert(json_strings(values) =~= q0 + seq![','] + json_strings(values.drop_first()));
    } else {
        lemma_json_strings_cons(values.drop_last());
        assert(values.drop_last().drop_first() =~= values.drop_first().drop_last());
        assert(values.drop_first().last() == values.last());
        assert(values.drop_last()[0] == values[0]);
        assert(json_strings(values) =~= q0 + seq![','] + json_strings(values.drop_first()));
    }
}

/// **Law: the list of enum values reads back.** The comma-separated JSON strings written
/// for `values` are a well-formed list of JSON strings, and a JSON reader gets back one
/// string for each value, in order: the value itself, or, for a value holding control
/// characters JSON text cannot carry here, the value with those shown as `?`.
pub proof fn lemma_json_strings_read_back(values: Seq<Seq<char>>)
    ensures
        json_string_array(json_strings(values)) matches Some(ws) && ws.len() == values.len() && (
        forall|k: int| 0 <= k < values.len() ==> #[trigger] ws[k] == json_shown(values[k])),
        forall|v: Seq<char>| (forall|i: int| 0 <= i < v.len() ==> json_keeps(#[trigger] v[i])) ==> #[trigger] json_shown(v) == v,
    decreases values.len(),
{
    assert forall|v: Seq<char>| (forall|i: int| 0 <= i < v.len() ==> json_keeps(#[trigger] v[i])) implies #[trigger] json_shown(v) == v by {
        assert(json_shown(v) =~= v);
    }
    if values.len() == 0 {
        assert(json_strings(values) =~= Seq::<char>::empty());
    } else {
        let v0 = values[0];
        let rest = if values.len() == 1 {
            Seq::<char>::empty()
        } else {
            seq![','] + json_strings(values.drop_first())
        };
        if values.len() >= 2 {
            lemma_json_strings_cons(values);
        }
        let s = json_strings(values);
        assert(s =~= seq!['"'] + (json_escaped(v0) + seq!['"'] + rest));
        assert(s.drop_first() =~= json_escaped(v0) + seq!['"'] + rest);
        lemma_json_string_body_escaped(v0, rest);
        if values.len() == 1 {
            assert(json_string_items(s) == Some(seq![json_shown(v0)]));
        } else {
            let tail = values.drop_first();
            lemma_json_strings_read_back(tail);
            assert(rest.drop_first() =~= json_strings(tail));
            let ws1 = json_string_array(json_strings(tail))->Some_0;
            assert(json_strings(tail).len() > 0) by {
                if tail.len() >= 2 {
                    lemma_json_strings_cons(tail);
                }
            }
            assert(json_string_items(s) == Some(seq![json_shown(v0)] + ws1));
            let ws = seq![json_shown(v0)] + ws1;
            assert forall|k: int| 0 <= k < values.len() implies #[trigger] ws[k] == json_shown(values[k]) by {
                if k > 0 {
                    assert(ws[k] == ws1[k - 1]);
                    assert(tail[k - 1] == values[k]);
                }
            }
        }
    }
}

/// The JSON members that describe a type.
pub open spec fn type_json(t: PropTypeView) -> Seq<char> {
    match t {
        PropTypeView::Enum(values) => ",\"type\":\"enum\",\"values\":["@ + json_strings(values)
            + "]"@,
        PropTypeView::Bool => ",\"type\":\"bool\""@,
        PropTypeView::Int(min, max) => ",\"type\":\"int\",\"min\":"@ + i32_chars(min)
            + ",\"max\":"@ + i32_chars(max),
        PropTypeView::Str(min_len, max_len) => ",\"type\":\"string\",\"min_len\":"@
            + dec_chars(min_len) + ",\"max_len\":"@ + dec_chars(max_len),
    }
}

/// The JSON object of one property.
pub open spec fn prop_json(p: PropView) -> Seq<char> {
    "{\"name\":\""@ + json_escaped(p.name) + "\",\"value\":\""@ + json_escaped(p.value)
        + "\""@ + type_json(p.ty) + "}"@
}

/// The JSON objects of a sequence of properties, comma separated.
pub open spec fn props_json_items(ps: Seq<PropView>) -> Seq<char>
    decreases ps.len(),
{
    if ps.len() == 0 {
        seq![]
    } else if ps.len() == 1 {
        prop_json(ps[0])
    } else {
        props_json_items(ps.drop_last()) + seq![','] + prop_json(ps.last())
    }
}

fn push_json_strings(out: &mut Vec<char>, values: &Vec<String>)
    ensures
        final(out)@ == old(out)@ + json_strings(strings(values@)),
{
    let ghost vs = strings(values@);
    let ghost start = out@;
    let mut i: usize = 0;
    assert(vs.take(0) =~= Seq::<Seq<char>>::empty());
    assert(out@ =~= start + json_strings(vs.take(0)));
    while i < values.len()
        invariant
            i <= values@.len(),
            vs == strings(values@),
            out@ == start + json_strings(vs.take(i as int)),
        decreases values@.len() - i,
    {
        let ghost before = out@;
        assert(vs.take(i + 1).drop_last() =~= vs.take(i as int));
        assert(vs.take(i + 1).last() == values@[i as int]@);
        if i > 0 {
            out.push(',');
        }
        out.push('"');
        push_json_escaped(out, values[i].as_str());
        out.push('"');
        proof {
            if i == 0 {
                assert(vs.take(1) =~= seq![vs[0]]);
                assert(out@ =~= start + json_strings(vs.take(1)));
            } else {
                assert(out@ =~= start + json_strings(vs.take(i + 1)));
            }
        }
        i = i + 1;
    }
    assert(vs.take(values@.len() as int) =~= vs);
}

fn push_prop_json(out: &mut Vec<char>, p: &Prop)
    ensures
        final(out)@ == old(out)@ + prop_json(p@),
{
    let ghost start = out@;
    push_str_chars(out, "{\"name\":\"");
    push_json_escaped(out, p.name.as_str());
    push_str_chars(out, "\",\"value\":\"");
    push_json_escaped(out, p.value.as_str());
    push_str_chars(out, "\"");
    let ghost mid = out@;
    match &p.ty {
        PropType::Enum { values } => {
            push_str_chars(out, ",\"type\":\"enum\",\"values\":[");
            push_json_strings(out, values);
            push_str_chars(out, "]");
        },
        PropType::Bool => {
            push_str_chars(out, ",\"type\":\"bool\"");
        },
        PropType::Int { min, max } => {
            push_str_chars(out, ",\"type\":\"int\",\"min\":");
            push_i32(out, *min);
            push_str_chars(out, ",\"max\":");
            push_i32(out, *max);
        },
        PropType::String { min_len, max_len } => {
            push_str_chars(out, ",\"type\":\"string\",\"min_len\":");
            push_decimal(out, *min_len as u64);
            push_str_chars(out, ",\"max_len\":");
            push_decimal(out, *max_len as u64);
        },
    }
    assert(out@ =~= mid + type_json(p.ty@));
    push_str_chars(out, "}");
    assert(out@ =~= start + prop_json(p@));
}

/// Lists the properties as a JSON array of objects with `name`, `value`, `type` and
/// the type's limits.
pub fn props_to_json(props: &[Prop]) -> (r: String)
    ensures
        r@ == seq!['['] + props_json_items(props_view(props@)) + seq![']'],
{
    let ghost pv = props_view(props@);
    let mut out: Vec<char> = Vec::new();
    out.push('[');
    let mut i: usize = 0;
    assert(pv.take(0) =~= Seq::<PropView>::empty());
    assert(out@ =~= seq!['['] + props_json_items(pv.take(0)));
    while i < props.len()
        invariant
            i <= props@.len(),
            pv == props_view(props@),
            out@ == seq!['['] + props_json_items(pv.take(i as int)),
        decreases props@.len() - i,
    {
        let ghost before = out@;
        assert(pv.take(i + 1).drop_last() =~= pv.take(i as int));
        assert(pv.take(i + 1).last() == props@[i as int]@);
        if i > 0 {
            out.push(',');
        }
        push_prop_json(&mut out, &props[i]);
        proof {
            if i == 0 {
                assert(pv.take(1) =~= seq![pv[0]]);
            }
            assert(out@ =~= seq!['['] + props_json_items(pv.take(i + 1)));
        }
        i = i + 1;
    }
    assert(pv.take(props@.len() as int) =~= pv);
    out.push(']');
    string_of(out.as_slice())
}

/// Index of the first property named `name`.
pub open spec fn find_prop(ps: Seq<PropView>, name: Seq<char>) -> Option<int>
    decreases ps.len(),
{
    if ps.len() == 0 {
        None
    } else if ps[0].name == name {
        Some(0)
    } else {
        match find_prop(ps.drop_first(), name) {
            Some(i) => Some(i + 1),
            None => None,
        }
    }
}

proof fn lemma_find_prop(ps: Seq<PropView>, name: Seq<char>, i: int)
    requires
        0 <= i <= ps.len(),
        forall|k: int| 0 <= k < i ==> (#[trigger] ps[k]).name != name,
        i < ps.len() ==> ps[i].name == name,
    ensures
        find_prop(ps, name) == (if i < ps.len() {
            Some(i)
        } else {
            None::<int>
        }),
    decreases i,
{
    if i > 0 {
        assert(ps[0].name != name);
        assert forall|k: int| 0 <= k < i - 1 implies (#[trigger] ps.drop_first()[k]).name != name by {
            assert(ps.drop_first()[k] == ps[k + 1]);
        }
        lemma_find_prop(ps.drop_first(), name, i - 1);
    }
}

fn find_prop_exec(props: &[Prop], name: &[char]) -> (r: Option<usize>)
    ensures
        r matches Some(i) ==> find_prop(props_view(props@), name@) == Some(i as int) && i
            < props@.len(),
        r is None ==> find_prop(props_view(props@), name@) is None,
{
    let ghost pv = props_view(props@);
    let mut i: usize = 0;
    while i < props.len()
        invariant
            i <= props@.len(),
            pv == props_view(props@),
            forall|k: int| 0 <= k < i ==> (#[trigger] pv[k]).name != name@,
        decreases props@.len() - i,
    {
        if chars_eq_str(name, props[i].name.as_str()) {
            proof {
                lemma_find_prop(pv, name@, i as int);
            }
            return Some(i);
        }
        assert(pv[i as int].name == props@[i as int].name@);
        i = i + 1;
    }
    proof {
        lemma_find_prop(pv, name@, i as int);
    }
    None
}

/// Whether two types are the same type with the same limits.
fn same_type(a: &PropType, b: &PropType) -> (r: bool)
    ensures
        r == (a@ == b@),
{
    match (a, b) {
        (PropType::Bool, PropType::Bool) => true,
        (PropType::Int { min: amin, max: amax }, PropType::Int { min: bmin, max: bmax }) => {
            *amin == *bmin && *amax == *bmax
        },
        (
            PropType::String { min_len: amin, max_len: amax },
            PropType::String { min_len: bmin, max_len: bmax },
        ) => *amin == *bmin && *amax == *bmax,
        (PropType::Enum { values: va }, PropType::Enum { values: vb }) => {
            if va.len() != vb.len() {
                assert(strings(va@).len() != strings(vb@).len());
                return false;
            }
            let mut i: usize = 0;
            while i < va.len()
                invariant
                    i <= va@.len(),
                    va@.len() == vb@.len(),
                    a@ == PropTypeView::Enum(strings(va@)),
                    b@ == PropTypeView::Enum(strings(vb@)),
                    forall|k: int| 0 <= k < i ==> va@[k]@ == vb@[k]@,
                decreases va@.len() - i,
            {
                if !(va[i] == vb[i]) {
                    assert(strings(va@)[i as int] != strings(vb@)[i as int]);
                    return false;
                }
                i = i + 1;
            }
            assert(strings(va@) =~= strings(vb@));
            true
        },
        _ => false,
    }
}

/// One stored value applied over the definitions: it replaces the value of the first
/// property of that name when the types agree and the value is valid for it.
pub open spec fn apply_override(ps: Seq<PropView>, o: PropView) -> Seq<PropView> {
    match find_prop(ps, o.name) {
        None => ps,
        Some(i) => if ps[i].ty == o.ty {
            match value_check(ps[i].ty, o.value) {
                Ok(v) => ps.update(i, PropView { name: ps[i].name, ty: ps[i].ty, value: v }),
                Err(_) => ps,
            }
        } else {
            ps
        },
    }
}

/// Stored values applied over the definitions, in order.
pub open spec fn apply_overrides_spec(ps: Seq<PropView>, os: Seq<PropView>) -> Seq<PropView>
    decreases os.len(),
{
    if os.len() == 0 {
        ps
    } else {
        apply_override(apply_overrides_spec(ps, os.drop_last()), os.last())
    }
}

/// Replaces the value of property `t`.
fn set_value(props: &mut Vec<Prop>, t: usize, value: String)
    requires
        t < old(props)@.len(),
    ensures
        final(props)@.len() == old(props)@.len(),
        forall|k: int| 0 <= k < old(props)@.len() && k != t ==> final(props)@[k] == old(props)@[k],
        final(props)@[t as int].name == old(props)@[t as int].name,
        final(props)@[t as int].ty == old(props)@[t as int].ty,
        final(props)@[t as int].value == value,
{
    let mut p = props.remove(t);
    p.value = value;
    props.insert(t, p);
}

/// Applies stored values over the definitions.
pub fn apply_overrides(props: &mut Vec<Prop>, overrides: &[Prop])
    ensures
        props_view(final(props)@) == apply_overrides_spec(props_view(old(props)@), props_view(overrides@)),
{
    let ghost ov = props_view(overrides@);
    let ghost p0 = props_view(props@);
    let mut i: usize = 0;
    assert(ov.take(0) =~= Seq::<PropView>::empty());
    while i < overrides.len()
        invariant
            i <= overrides@.len(),
            ov == props_view(overrides@),
            props_view(props@) == apply_overrides_spec(p0, ov.take(i as int)),
        decreases overrides@.len() - i,
    {
        assert(ov.take(i + 1).drop_last() =~= ov.take(i as int));
        assert(ov.take(i + 1).last() == overrides@[i as int]@);
        let o = &overrides[i];
        let name = chars_of(o.name.as_str());
        match find_prop_exec(props.as_slice(), name.as_slice()) {
            None => {},
            Some(t) => {
                if same_type(&props[t].ty, &o.ty) {
                    let vc = chars_of(o.value.as_str());
                    match validate_value_chars(&props[t].ty, vc.as_slice()) {
                        Ok(normalized) => {
                            let ghost before = props_view(props@);
                            let ghost nv = normalized@;
                            set_value(props, t, normalized);
                            assert(props_view(props@) =~= before.update(
                                t as int,
                                PropView {
                                    name: before[t as int].name,
                                    ty: before[t as int].ty,
                                    value: nv,
                                },
                            ));
                        },
                        Err(_) => {},
                    }
                }
            },
        }
        i = i + 1;
    }
    assert(ov.take(overrides@.len() as int) =~= ov);
}

/// Definitions used when the definitions file cannot be read.
pub const BUILTIN_PROP_DEFS: &'static str = "";

/// The properties a store starts with: the definitions (none when they do not parse),
/// with the stored values applied over them when those parse.
pub open spec fn loaded(defs: Seq<char>, values: Option<Seq<char>>) -> Seq<PropView> {
    let base = match props_check(defs) {
        Ok(ps) => ps,
        Err(_) => seq![],
    };
    match values {
        Some(v) => match props_check(v) {
            Ok(os) => apply_overrides_spec(base, os),
            Err(_) => base,
        },
        None => base,
    }
}

/// A property with its value replaced.
pub open spec fn with_value(p: PropView, v: Seq<char>) -> PropView {
    PropView { name: p.name, ty: p.ty, value: v }
}

/// The properties of the device, and the file where changed values are kept.
pub struct PropStore {
    props: Vec<Prop>,
    persist_path: &'static str,
}

impl View for PropStore {
    type V = Seq<PropView>;

    closed spec fn view(&self) -> Seq<PropView> {
        props_view(self.props@)
    }
}

impl PropStore {
    /// The file where changed values are kept.
    pub closed spec fn spec_persist_path(&self) -> &'static str {
        self.persist_path
    }

    /// Builds the store from the text of the definitions file (`None` when it could not
    /// be read) and of the stored values file (`None` when it could not be read).
    pub fn load(defs_text: Option<&str>, values_text: Option<&str>, persist_path: &'static str) -> (r: Self)
        ensures
            r@ == loaded(
                match defs_text {
                    Some(t) => t@,
                    None => seq![],
                },
                match values_text {
                    Some(t) => Some(t@),
                    None => None,
                },
            ),
            r.spec_persist_path() == persist_path,
    {
        proof {
            reveal_strlit("");
        }
        let defs = match defs_text {
            Some(t) => t,
            None => BUILTIN_PROP_DEFS,
        };
        let mut props = match parse_props_file(defs) {
            Ok(p) => p,
            Err(_) => match parse_props_file(BUILTIN_PROP_DEFS) {
                Ok(p) => p,
                Err(_) => Vec::new(),
            },
        };
        assert(lines(BUILTIN_PROP_DEFS@) =~= Seq::<Seq<char>>::empty());
        assert(props_view(props@) == match props_check(defs@) {
            Ok(ps) => ps,
            Err(_) => Seq::<PropView>::empty(),
        }) by {
            if props_check(defs@) is Err {
                assert(props_view(props@) =~= Seq::<PropView>::empty());
            }
        }
        if let Some(vt) = values_text {
            if let Ok(overrides) = parse_props_file(vt) {
                apply_overrides(&mut props, overrides.as_slice());
            }
        }
        PropStore { props, persist_path }
    }

    /// All properties, in file order.
    pub fn all(&self) -> (r: &[Prop])
        ensures
            props_view(r@) == self@,
    {
        self.props.as_slice()
    }

    /// The value of the first property named `name`.
    pub fn get(&self, name: &str) -> (r: Option<&str>)
        ensures
            match find_prop(self@, name@) {
                Some(i) => r matches Some(v) && v@ == self@[i].value,
                None => r is None,
            },
    {
        let n = chars_of(name);
        match find_prop_exec(self.props.as_slice(), n.as_slice()) {
            Some(i) => Some(self.props[i].value.as_str()),
            None => None,
        }
    }

    /// The file where changed values are kept.
    pub fn persist_path(&self) -> (r: &'static str)
        ensures
            r == self.spec_persist_path(),
    {
        self.persist_path
    }

    /// Validates `value` for the property `name`, stores it in its normalised form and
    /// gives that form back. Fails with `unknown prop`, or with the reason the value is
    /// refused, and then changes nothing.
    pub fn set(&mut self, name: &str, value: &str) -> (r: Result<String, String>)
        ensures
            final(self).spec_persist_path() == old(self).spec_persist_path(),
            match find_prop(old(self)@, name@) {
                None => r matches Err(e) && e@ == "unknown prop"@ && final(self)@ == old(self)@,
                Some(i) => match value_check(old(self)@[i].ty, value@) {
                    Err(m) => r matches Err(e) && e@ == m@ && final(self)@ == old(self)@,
                    Ok(v) => r matches Ok(stored) && stored@ == v && final(self)@
                        == old(self)@.update(i, with_value(old(self)@[i], v)),
                },
            },
    {
        let n = chars_of(name);
        let idx = match find_prop_exec(self.props.as_slice(), n.as_slice()) {
            Some(i) => i,
            None => {
                return Err("unknown prop".to_string());
            },
        };
        let vc = chars_of(value);
        let normalized = match validate_value_chars(&self.props[idx].ty, vc.as_slice()) {
            Ok(v) => v,
            Err(e) => {
                return Err(e.to_string());
            },
        };
        let stored = string_of(chars_of(normalized.as_str()).as_slice());
        let ghost before = self@;
        let ghost nv = normalized@;
        set_value(&mut self.props, idx, normalized);
        assert(self@ =~= before.update(idx as int, with_value(before[idx as int], nv)));
        Ok(stored)
    }

    /// Puts back the value that a change replaced, when saving the change failed.
    pub fn revert(&mut self, name: &str, prev: String)
        ensures
            final(self).spec_persist_path() == old(self).spec_persist_path(),
            match find_prop(old(self)@, name@) {
                None => final(self)@ == old(self)@,
                Some(i) => final(self)@ == old(self)@.update(i, with_value(old(self)@[i], prev@)),
            },
    {
        let n = chars_of(name);
        match find_prop_exec(self.props.as_slice(), n.as_slice()) {
            Some(idx) => {
                let ghost before = self@;
                let ghost pv = prev@;
                set_value(&mut self.props, idx, prev);
                assert(self@ =~= before.update(idx as int, with_value(before[idx as int], pv)));
            },
            None => {},
        }
    }
}

/// The message of a failed save.
pub fn persist_failed(err: &str) -> (r: String)
    ensures
        r@ == "persist failed: "@ + err@,
{
    let mut out: Vec<char> = Vec::new();
    push_str_chars(&mut out, "persist failed: ");
    push_str_chars(&mut out, err);
    string_of(out.as_slice())
}

// ---------------------------------------------------------------------------
// What holds of every property read from a file, and reading back what is written
// ---------------------------------------------------------------------------

/// A type as reading a file can give it: enum values non-empty, without tab, carriage
/// return, line feed or comma; ranges in order and within the machine types.
pub open spec fn type_ok(t: PropTypeView) -> bool {
    match t {
        PropTypeView::Enum(vs) => vs.len() > 0 && forall|i: int|
            0 <= i < vs.len() ==> (#[trigger] vs[i]).len() > 0 && token_ok(vs[i]) && no_char(
                vs[i],
                ',',
            ),
        PropTypeView::Bool => true,
        PropTypeView::Int(min, max) => -0x8000_0000 <= min <= max <= 0x7fff_ffff,
        PropTypeView::Str(min_len, max_len) => min_len <= max_len <= usize::MAX,
    }
}

/// A property as reading a file can give it.
pub open spec fn prop_ok(p: PropView) -> bool {
    &&& p.name.len() > 0
    &&& token_ok(p.name)
    &&& !is_ws(p.name[0])
    &&& p.name[0] != '#'
    &&& type_ok(p.ty)
    &&& p.value.len() > 0
    &&& token_ok(p.value)
    &&& !is_ws(p.value.last())
    &&& value_check(p.ty, p.value) == Ok::<Seq<char>, &'static str>(p.value)
}

/// A value as `validate_value` stores it is accepted again unchanged.
pub proof fn lemma_validate_idempotent(t: PropTypeView, v: Seq<char>, n: Seq<char>)
    requires
        value_check(t, v) == Ok::<Seq<char>, &'static str>(n),
    ensures
        value_check(t, n) == Ok::<Seq<char>, &'static str>(n),
{
    match t {
        PropTypeView::Int(min, max) => {
            let x = parse_i32(v)->0;
            lemma_parse_i32_range(v);
            lemma_parse_i32_chars(x);
        },
        PropTypeView::Bool => {
            reveal_strlit("true");
            reveal_strlit("false");
            reveal_strlit("1");
            reveal_strlit("0");
        },
        _ => {},
    }
}

proof fn lemma_split_char_none(x: Seq<char>, c: char)
    requires
        no_char(x, c),
    ensures
        split_char(x, c) == seq![x],
{
    lemma_split_char_step(x, c, x.len() as int);
}

proof fn lemma_split_char_concat(x: Seq<char>, y: Seq<char>, c: char)
    ensures
        split_char(x + seq![c] + y, c) == split_char(x, c) + split_char(y, c),
    decreases x.len(),
{
    let s = x + seq![c] + y;
    lemma_find_char(x, c);
    match find_char(x, c) {
        Some(i) => {
            lemma_split_char_step(s, c, i);
            lemma_split_char_step(x, c, i);
            assert(s.take(i) =~= x.take(i));
            let x2 = x.skip(i + 1);
            assert(s.skip(i + 1) =~= x2 + seq![c] + y);
            lemma_split_char_concat(x2, y, c);
            assert(split_char(s, c) =~= split_char(x, c) + split_char(y, c));
        },
        None => {
            lemma_split_char_step(s, c, x.len() as int);
            lemma_split_char_none(x, c);
            assert(s.take(x.len() as int) =~= x);
            assert(s.skip(x.len() as int + 1) =~= y);
            assert(split_char(s, c) =~= split_char(x, c) + split_char(y, c));
        },
    }
}

proof fn lemma_split_join(vs: Seq<Seq<char>>, c: char)
    requires
        vs.len() > 0,
        forall|i: int| 0 <= i < vs.len() ==> no_char(#[trigger] vs[i], c),
    ensures
        split_char(join_with(vs, c), c) == vs,
    decreases vs.len(),
{
    if vs.len() == 1 {
        lemma_split_char_none(vs[0], c);
        assert(split_char(join_with(vs, c), c) =~= vs);
    } else {
        let a = join_with(vs.drop_last(), c);
        assert(no_char(vs.last(), c));
        lemma_split_join(vs.drop_last(), c);
        assert(join_with(vs, c) =~= a + seq![c] + vs.last());
        lemma_split_char_concat(a, vs.last(), c);
        lemma_split_char_none(vs.last(), c);
        assert(split_char(join_with(vs, c), c) =~= vs);
    }
}

proof fn lemma_split_pieces(s: Seq<char>, c: char)
    ensures
        forall|i: int| 0 <= i < split_char(s, c).len() ==> no_char(#[trigger] split_char(s, c)[i], c),
    decreases s.len(),
{
    lemma_find_char(s, c);
    match find_char(s, c) {
        Some(i) => {
            lemma_split_pieces(s.skip(i + 1), c);
            let rest = split_char(s.skip(i + 1), c);
            assert forall|j: int| 0 <= j < split_char(s, c).len() implies no_char(
                #[trigger] split_char(s, c)[j],
                c,
            ) by {
                if j > 0 {
                    assert(split_char(s, c)[j] == rest[j - 1]);
                } else {
                    assert(forall|k: int| 0 <= k < i ==> s.take(i)[k] == s[k]);
                }
            }
        },
        None => {},
    }
}

proof fn lemma_nonempty_parts(parts: Seq<Seq<char>>)
    ensures
        forall|j: int|
            0 <= j < nonempty_parts(parts).len() ==> (#[trigger] nonempty_parts(parts)[j]).len() > 0
                && exists|i: int| 0 <= i < parts.len() && parts[i] == nonempty_parts(parts)[j],
        (forall|i: int| 0 <= i < parts.len() ==> (#[trigger] parts[i]).len() > 0) ==> nonempty_parts(
            parts,
        ) == parts,
    decreases parts.len(),
{
    if parts.len() > 0 {
        let d = parts.drop_last();
        lemma_nonempty_parts(d);
        let np = nonempty_parts(parts);
        assert forall|j: int| 0 <= j < np.len() implies (#[trigger] np[j]).len() > 0 && exists|i: int|
            0 <= i < parts.len() && parts[i] == np[j] by {
            if j < nonempty_parts(d).len() {
                assert(np[j] == nonempty_parts(d)[j]);
                let i = choose|i: int| 0 <= i < d.len() && d[i] == nonempty_parts(d)[j];
                assert(parts[i] == d[i]);
            } else {
                assert(np[j] == parts.last());
                assert(parts[parts.len() - 1] == np[j]);
            }
        }
        if forall|i: int| 0 <= i < parts.len() ==> (#[trigger] parts[i]).len() > 0 {
            assert forall|i: int| 0 <= i < d.len() implies (#[trigger] d[i]).len() > 0 by {
                assert(d[i] == parts[i]);
            }
            assert(parts.last().len() > 0);
            assert(np =~= d.push(parts.last()));
            assert(d.push(parts.last()) =~= parts);
        }
    } else {
        assert(nonempty_parts(parts) =~= parts);
    }
}

proof fn lemma_join_no_char(vs: Seq<Seq<char>>, c: char, d: char)
    requires
        c != d,
        forall|i: int| 0 <= i < vs.len() ==> no_char(#[trigger] vs[i], d),
    ensures
        no_char(join_with(vs, c), d),
    decreases vs.len(),
{
    if vs.len() > 1 {
        lemma_join_no_char(vs.drop_last(), c, d);
        let a = join_with(vs.drop_last(), c);
        assert(no_char(vs.last(), d));
        assert(join_with(vs, c) =~= a + seq![c] + vs.last());
        assert forall|k: int| 0 <= k < join_with(vs, c).len() implies join_with(vs, c)[k] != d by {
            if k < a.len() {
                assert(join_with(vs, c)[k] == a[k]);
            } else if k > a.len() {
                assert(join_with(vs, c)[k] == vs.last()[k - a.len() - 1]);
            }
        }
    } else if vs.len() == 1 {
        assert(no_char(vs[0], d));
    }
}

proof fn lemma_token_no_char(s: Seq<char>)
    requires
        token_ok(s),
    ensures
        no_char(s, '\t'),
        no_char(s, '\r'),
        no_char(s, '\n'),
{
    assert forall|k: int| 0 <= k < s.len() implies s[k] != '\t' && s[k] != '\r' && s[k] != '\n' by {
        assert(token_ok(s));
    }
}

/// Splitting `a`, a `c`, then `rest` at its first `c` gives back `a` and `rest`.
proof fn lemma_first_sep(a: Seq<char>, c: char, rest: Seq<char>)
    requires
        no_char(a, c),
    ensures
        find_char(a + seq![c] + rest, c) == Some(a.len() as int),
        (a + seq![c] + rest).take(a.len() as int) == a,
        (a + seq![c] + rest).skip(a.len() as int + 1) == rest,
{
    let s = a + seq![c] + rest;
    assert forall|k: int| 0 <= k < a.len() implies s[k] != c by {
        assert(s[k] == a[k]);
    }
    lemma_find_char_from_facts(s, c, a.len() as int);
    assert(s.take(a.len() as int) =~= a);
    assert(s.skip(a.len() as int + 1) =~= rest);
}

proof fn lemma_digits_no_char(s: Seq<char>, c: char)
    requires
        forall|i: int| 0 <= i < s.len() ==> is_digit(#[trigger] s[i]) || s[i] == '-',
        !('0' <= c <= '9'),
        c != '-',
    ensures
        no_char(s, c),
{
    assert forall|k: int| 0 <= k < s.len() implies s[k] != c by {
        assert(is_digit(s[k]) || s[k] == '-');
    }
}

proof fn lemma_number_no_char(x: int, c: char)
    requires
        !('0' <= c <= '9'),
        c != '-',
    ensures
        no_char(i32_chars(x), c),
        x >= 0 ==> no_char(dec_chars(x as nat), c),
{
    lemma_i32_chars(x);
    lemma_digits_no_char(i32_chars(x), c);
    if x >= 0 {
        lemma_dec_chars(x as nat);
        lemma_digits_no_char(dec_chars(x as nat), c);
    }
}

/// The fields written for a type hold no tab or line feed, and read back as the type.
#[verifier::rlimit(60)]
proof fn lemma_type_fields(t: PropTypeView)
    requires
        type_ok(t),
    ensures
        no_char(type_fields(t).0, '\t'),
        no_char(type_fields(t).1, '\t'),
        no_char(type_fields(t).0, '\n'),
        no_char(type_fields(t).1, '\n'),
        type_check(type_fields(t).0, type_fields(t).1) == Ok::<PropTypeView, &'static str>(t),
{
    reveal_strlit("enum");
    reveal_strlit("bool");
    reveal_strlit("int");
    reveal_strlit("string");
    reveal_strlit("-");
    match t {
        PropTypeView::Enum(vs) => {
            assert forall|i: int| 0 <= i < vs.len() implies no_char(#[trigger] vs[i], '\t')
                && no_char(vs[i], '\n') && no_char(vs[i], ',') by {
                lemma_token_no_char(vs[i]);
            }
            lemma_join_no_char(vs, ',', '\t');
            lemma_join_no_char(vs, ',', '\n');
            lemma_split_join(vs, ',');
            lemma_nonempty_parts(vs);
            let parts = split_char(join_with(vs, ','), ',');
            assert(forall|i: int| 0 <= i < parts.len() ==> token_ok(#[trigger] parts[i]));
            assert(nonempty_parts(parts) == vs);
            assert(type_check(type_fields(t).0, type_fields(t).1) == Ok::<PropTypeView, &'static str>(t));
        },
        PropTypeView::Bool => {
            assert("bool"@[0] != "enum"@[0]);
            assert(type_check(type_fields(t).0, type_fields(t).1) == Ok::<PropTypeView, &'static str>(t));
        },
        PropTypeView::Int(a, b) => {
            let sa = i32_chars(a);
            let sb = i32_chars(b);
            lemma_number_no_char(a, '\t');
            lemma_number_no_char(b, '\t');
            lemma_number_no_char(a, '\n');
            lemma_number_no_char(b, '\n');
            lemma_number_no_char(a, ':');
            let sp = sa + seq![':'] + sb;
            assert(no_char(sp, '\t') && no_char(sp, '\n')) by {
                assert forall|k: int| 0 <= k < sp.len() implies sp[k] != '\t' && sp[k] != '\n' by {
                    if k < sa.len() {
                        assert(sp[k] == sa[k]);
                    } else if k > sa.len() {
                        assert(sp[k] == sb[k - sa.len() - 1]);
                    }
                }
            }
            lemma_first_sep(sa, ':', sb);
            lemma_parse_i32_chars(a);
            lemma_parse_i32_chars(b);
            assert(type_fields(t).1 == sp);
            assert(range_parts(sp) == Some((sa, sb)));
            assert("int"@.len() == 3);
            assert("enum"@.len() == 4);
            assert("bool"@.len() == 4);
            assert(type_check(type_fields(t).0, type_fields(t).1) == Ok::<PropTypeView, &'static str>(t));
        },
        PropTypeView::Str(a, b) => {
            let sa = dec_chars(a);
            let sb = dec_chars(b);
            lemma_number_no_char(a as int, '\t');
            lemma_number_no_char(b as int, '\t');
            lemma_number_no_char(a as int, '\n');
            lemma_number_no_char(b as int, '\n');
            lemma_number_no_char(a as int, ':');
            let sp = sa + seq![':'] + sb;
            assert(no_char(sp, '\t') && no_char(sp, '\n')) by {
                assert forall|k: int| 0 <= k < sp.len() implies sp[k] != '\t' && sp[k] != '\n' by {
                    if k < sa.len() {
                        assert(sp[k] == sa[k]);
                    } else if k > sa.len() {
                        assert(sp[k] == sb[k - sa.len() - 1]);
                    }
                }
            }
            lemma_first_sep(sa, ':', sb);
            lemma_parse_unsigned_dec(a, usize::MAX as int);
            lemma_parse_unsigned_dec(b, usize::MAX as int);
            assert("string"@.len() == 6);
            assert("int"@.len() == 3);
            assert("enum"@.len() == 4);
            assert("bool"@.len() == 4);
            assert(type_fields(t).1 == sp);
            assert(range_parts(sp) == Some((sa, sb)));
            assert(type_check(type_fields(t).0, type_fields(t).1) == Ok::<PropTypeView, &'static str>(t));
        },
    }
}

proof fn lemma_fields4(a: Seq<char>, b: Seq<char>, c: Seq<char>, d: Seq<char>)
    requires
        no_char(a, '\t'),
        no_char(b, '\t'),
        no_char(c, '\t'),
    ensures
        fields4(a + seq!['\t'] + b + seq!['\t'] + c + seq!['\t'] + d) == Ok::<
            (Seq<char>, Seq<char>, Seq<char>, Seq<char>),
            &'static str,
        >((a, b, c, d)),
{
    let r2 = c + seq!['\t'] + d;
    let r1 = b + seq!['\t'] + r2;
    assert(a + seq!['\t'] + b + seq!['\t'] + c + seq!['\t'] + d =~= a + seq!['\t'] + r1);
    lemma_first_sep(a, '\t', r1);
    lemma_first_sep(b, '\t', r2);
    lemma_first_sep(c, '\t', d);
}

proof fn lemma_body_fields(p: PropView)
    requires
        token_ok(p.name),
        type_ok(p.ty),
    ensures
        fields4(prop_body(p)) == Ok::<(Seq<char>, Seq<char>, Seq<char>, Seq<char>), &'static str>(
            (p.name, type_fields(p.ty).0, type_fields(p.ty).1, p.value),
        ),
{
    lemma_token_no_char(p.name);
    lemma_type_fields(p.ty);
    lemma_fields4(p.name, type_fields(p.ty).0, type_fields(p.ty).1, p.value);
}

proof fn lemma_body_no_newline(p: PropView)
    requires
        prop_ok(p),
    ensures
        no_char(prop_body(p), '\n'),
{
    let tn = type_fields(p.ty).0;
    let sp = type_fields(p.ty).1;
    let body = prop_body(p);
    lemma_token_no_char(p.name);
    lemma_token_no_char(p.value);
    lemma_type_fields(p.ty);
    assert forall|k: int| 0 <= k < body.len() implies body[k] != '\n' by {
        let a = p.name.len() as int;
        let b = a + 1 + tn.len();
        let c = b + 1 + sp.len();
        if k < a {
            assert(body[k] == p.name[k]);
        } else if a < k < b {
            assert(body[k] == tn[k - a - 1]);
        } else if b < k < c {
            assert(body[k] == sp[k - b - 1]);
        } else if c < k {
            assert(body[k] == p.value[k - c - 1]);
        }
    }
}

/// The line written for a property reads back as the property.
proof fn lemma_line_roundtrip(p: PropView)
    requires
        prop_ok(p),
    ensures
        no_char(prop_body(p), '\n'),
        prop_body(p).last() != '\r',
        trim(prop_body(p)) == prop_body(p),
        !skipped_line(prop_body(p)),
        line_check(prop_body(p)) == Ok::<PropView, &'static str>(p),
{
    let body = prop_body(p);
    lemma_body_fields(p);
    lemma_body_no_newline(p);
    lemma_type_fields(p.ty);
    assert(body[0] == p.name[0]);
    assert(body.last() == p.value.last());
    lemma_trim_id(body);
}

proof fn lemma_type_check_ok(ty: Seq<char>, spec: Seq<char>)
    requires
        type_check(ty, spec) is Ok,
    ensures
        type_ok(type_check(ty, spec)->Ok_0),
{
    if ty == "enum"@ {
        let parts = split_char(spec, ',');
        let items = nonempty_parts(parts);
        lemma_nonempty_parts(parts);
        lemma_split_pieces(spec, ',');
        assert forall|i: int| 0 <= i < items.len() implies (#[trigger] items[i]).len() > 0
            && token_ok(items[i]) && no_char(items[i], ',') by {
            let k = choose|k: int| 0 <= k < parts.len() && parts[k] == items[i];
            assert(token_ok(parts[k]));
            assert(no_char(parts[k], ','));
        }
    } else if ty == "bool"@ {
    } else if ty == "int"@ {
        let (a, b) = range_parts(spec)->0;
        lemma_parse_i32_range(a);
        lemma_parse_i32_range(b);
    } else if ty == "string"@ {
        let (a, b) = range_parts(spec)->0;
        lemma_parse_unsigned_range(a, usize::MAX as int);
        lemma_parse_unsigned_range(b, usize::MAX as int);
    }
}

proof fn lemma_value_ok(t: PropTypeView, raw: Seq<char>, v: Seq<char>)
    requires
        type_ok(t),
        raw.len() > 0,
        !is_ws(raw.last()),
        value_check(t, raw) == Ok::<Seq<char>, &'static str>(v),
    ensures
        v.len() > 0,
        token_ok(v),
        !is_ws(v.last()),
        value_check(t, v) == Ok::<Seq<char>, &'static str>(v),
{
    lemma_validate_idempotent(t, raw, v);
    match t {
        PropTypeView::Enum(vs) => {
            let k = choose|k: int| 0 <= k < vs.len() && vs[k] == raw;
            assert(token_ok(vs[k]));
        },
        PropTypeView::Bool => {
            reveal_strlit("true");
            reveal_strlit("false");
            reveal_strlit("1");
            reveal_strlit("0");
            assert(v == "true"@ || v == "false"@);
            assert(token_ok(v)) by {
                assert forall|i: int| 0 <= i < v.len() implies #[trigger] v[i] != '\t' && v[i]
                    != '\r' && v[i] != '\n' by {
                    assert(0 <= i < 5);
                }
            }
        },
        PropTypeView::Int(min, max) => {
            let x = parse_i32(raw)->0;
            lemma_i32_chars(x);
            lemma_number_no_char(x, '\t');
            lemma_number_no_char(x, '\r');
            lemma_number_no_char(x, '\n');
            assert(v == i32_chars(x));
            assert(token_ok(v)) by {
                assert forall|i: int| 0 <= i < v.len() implies #[trigger] v[i] != '\t' && v[i]
                    != '\r' && v[i] != '\n' by {
                    assert(no_char(v, '\t') && no_char(v, '\r') && no_char(v, '\n'));
                }
            }
        },
        PropTypeView::Str(_, _) => {},
    }
}

/// Every property read from a trimmed line is as reading a file can give it.
proof fn lemma_line_check_ok(t: Seq<char>)
    requires
        t.len() > 0,
        !is_ws(t[0]),
        !is_ws(t.last()),
        t[0] != '#',
        line_check(t) is Ok,
    ensures
        prop_ok(line_check(t)->Ok_0),
{
    lemma_find_char(t, '\t');
    let i = find_char(t, '\t')->0;
    let r1 = t.skip(i + 1);
    lemma_find_char(r1, '\t');
    let j = find_char(r1, '\t')->0;
    let r2 = r1.skip(j + 1);
    lemma_find_char(r2, '\t');
    let k = find_char(r2, '\t')->0;
    let name = t.take(i);
    let tyf = r1.take(j);
    let spec = r2.take(k);
    let raw = r2.skip(k + 1);
    assert(fields4(t) == Ok::<(Seq<char>, Seq<char>, Seq<char>, Seq<char>), &'static str>(
        (name, tyf, spec, raw),
    ));
    lemma_type_check_ok(tyf, spec);
    let ty = type_check(tyf, spec)->Ok_0;
    let v = value_check(ty, raw)->Ok_0;
    assert(name[0] == t[0]);
    assert(raw.len() > 0) by {
        if raw.len() == 0 {
            assert(r2.len() == k + 1);
            assert(t.last() == r2[k]);
        }
    }
    assert(raw.last() == t.last());
    lemma_value_ok(ty, raw, v);
}

/// Every property of a file that reads without error is as reading a file can give it.
proof fn lemma_lines_check_ok(ls: Seq<Seq<char>>)
    requires
        forall|i: int| 0 <= i < ls.len() ==> no_char(#[trigger] ls[i], '\n'),
        lines_check(ls) is Ok,
    ensures
        forall|j: int|
            0 <= j < lines_check(ls)->Ok_0.len() ==> prop_ok(#[trigger] lines_check(ls)->Ok_0[j]),
    decreases ls.len(),
{
    if ls.len() > 0 {
        let d = ls.drop_last();
        assert forall|i: int| 0 <= i < d.len() implies no_char(#[trigger] d[i], '\n') by {
            assert(d[i] == ls[i]);
        }
        lemma_lines_check_ok(d);
        let ps = lines_check(d)->Ok_0;
        let t = trim(ls.last());
        if !skipped_line(t) {
            lemma_trim_shape(ls.last(), '\n');
            lemma_line_check_ok(t);
            let all = lines_check(ls)->Ok_0;
            assert(all == ps.push(line_check(t)->Ok_0));
            assert forall|j: int| 0 <= j < all.len() implies prop_ok(#[trigger] all[j]) by {
                if j < ps.len() {
                    assert(all[j] == ps[j]);
                }
            }
        }
    }
}

/// The bodies of the lines written for a sequence of properties.
pub open spec fn props_bodies(ps: Seq<PropView>) -> Seq<Seq<char>> {
    Seq::new(ps.len(), |i: int| prop_body(ps[i]))
}

proof fn lemma_props_lines(ps: Seq<PropView>)
    requires
        forall|j: int| 0 <= j < ps.len() ==> prop_ok(#[trigger] ps[j]),
    ensures
        lines(props_lines(ps)) == props_bodies(ps),
        props_lines(ps).len() == 0 || props_lines(ps).last() == '\n',
    decreases ps.len(),
{
    if ps.len() > 0 {
        let d = ps.drop_last();
        assert forall|j: int| 0 <= j < d.len() implies prop_ok(#[trigger] d[j]) by {
            assert(d[j] == ps[j]);
        }
        lemma_props_lines(d);
        let p = ps.last();
        assert(prop_ok(ps[ps.len() - 1]));
        lemma_line_roundtrip(p);
        let body = prop_body(p);
        lemma_lines_concat(props_lines(d), prop_line(p));
        lemma_lines_line(body);
        assert(strip_cr(body) == body);
        assert(props_bodies(ps) =~= props_bodies(d) + seq![body]);
    }
}

proof fn lemma_lines_check_bodies(hb: Seq<char>, ps: Seq<PropView>)
    requires
        skipped_line(trim(hb)),
        forall|j: int| 0 <= j < ps.len() ==> prop_ok(#[trigger] ps[j]),
    ensures
        lines_check(seq![hb] + props_bodies(ps)) == Ok::<Seq<PropView>, &'static str>(ps),
    decreases ps.len(),
{
    let l = seq![hb] + props_bodies(ps);
    if ps.len() == 0 {
        assert(l =~= seq![hb]);
        assert(l.drop_last() =~= Seq::<Seq<char>>::empty());
        assert(ps =~= Seq::<PropView>::empty());
        assert(lines_check(l.drop_last()) == Ok::<Seq<PropView>, &'static str>(seq![]));
        assert(lines_check(l) == Ok::<Seq<PropView>, &'static str>(ps));
    } else {
        let d = ps.drop_last();
        assert forall|j: int| 0 <= j < d.len() implies prop_ok(#[trigger] d[j]) by {
            assert(d[j] == ps[j]);
        }
        lemma_lines_check_bodies(hb, d);
        assert(l.drop_last() =~= seq![hb] + props_bodies(d));
        assert(l.last() == prop_body(ps.last()));
        assert(prop_ok(ps[ps.len() - 1]));
        lemma_line_roundtrip(ps.last());
        assert(d.push(ps.last()) =~= ps);
    }
}

proof fn lemma_header_lines()
    ensures
        props_header().last() == '\n',
        lines(props_header()) == seq![props_header().drop_last()],
        skipped_line(trim(props_header().drop_last())),
{
    reveal_strlit("# name\ttype\tspec\tvalue\n");
    let h = props_header();
    let hb = h.drop_last();
    assert(no_char(hb, '\n')) by {
        assert forall|k: int| 0 <= k < hb.len() implies hb[k] != '\n' by {
            assert(hb[k] == h[k]);
        }
    }
    lemma_lines_line(hb);
    assert(hb + seq!['\n'] =~= h);
    assert(strip_cr(hb) == hb);
    lemma_trim_id(hb);
}

/// Reading back a written properties file: whatever a file read without error gave,
/// writing it out and reading that gives the same properties again.
pub proof fn lemma_props_roundtrip(input: Seq<char>, ps: Seq<PropView>)
    requires
        props_check(input) == Ok::<Seq<PropView>, &'static str>(ps),
    ensures
        props_check(props_text(ps)) == Ok::<Seq<PropView>, &'static str>(ps),
{
    lemma_lines_no_newline(input);
    lemma_lines_check_ok(lines(input));
    assert forall|j: int| 0 <= j < ps.len() implies prop_ok(#[trigger] ps[j]) by {
        assert(ps[j] == lines_check(lines(input))->Ok_0[j]);
    }
    lemma_header_lines();
    lemma_props_lines(ps);
    lemma_lines_concat(props_header(), props_lines(ps));
    lemma_lines_check_bodies(props_header().drop_last(), ps);
}

proof fn lemma_find_prop_facts(ps: Seq<PropView>, name: Seq<char>)
    requires
        find_prop(ps, name) is Some,
    ensures
        0 <= find_prop(ps, name)->0 < ps.len(),
        ps[find_prop(ps, name)->0].name == name,
        forall|k: int| 0 <= k < find_prop(ps, name)->0 ==> (#[trigger] ps[k]).name != name,
    decreases ps.len(),
{
    if ps[0].name != name {
        lemma_find_prop_facts(ps.drop_first(), name);
        assert forall|k: int| 0 <= k < find_prop(ps, name)->0 implies (#[trigger] ps[k]).name
            != name by {
            if k > 0 {
                assert(ps[k] == ps.drop_first()[k - 1]);
            }
        }
    }
}

proof fn lemma_find_prop_same_names(ps: Seq<PropView>, qs: Seq<PropView>, name: Seq<char>)
    requires
        ps.len() == qs.len(),
        forall|k: int| 0 <= k < ps.len() ==> (#[trigger] ps[k]).name == qs[k].name,
    ensures
        find_prop(ps, name) == find_prop(qs, name),
    decreases ps.len(),
{
    if ps.len() > 0 {
        assert forall|k: int| 0 <= k < ps.len() - 1 implies (#[trigger] ps.drop_first()[k]).name
            == qs.drop_first()[k].name by {
            assert(ps.drop_first()[k] == ps[k + 1]);
            assert(qs.drop_first()[k] == qs[k + 1]);
        }
        assert(ps[0].name == qs[0].name);
        lemma_find_prop_same_names(ps.drop_first(), qs.drop_first(), name);
    }
}

proof fn lemma_overrides_shape(ps: Seq<PropView>, os: Seq<PropView>)
    ensures
        apply_overrides_spec(ps, os).len() == ps.len(),
        forall|k: int|
            0 <= k < ps.len() ==> (#[trigger] apply_overrides_spec(ps, os)[k]).name == ps[k].name
                && apply_overrides_spec(ps, os)[k].ty == ps[k].ty,
    decreases os.len(),
{
    if os.len() > 0 {
        lemma_overrides_shape(ps, os.drop_last());
        let r1 = apply_overrides_spec(ps, os.drop_last());
        if find_prop(r1, os.last().name) is Some {
            lemma_find_prop_facts(r1, os.last().name);
        }
        assert forall|k: int| 0 <= k < ps.len() implies (#[trigger] apply_overrides_spec(ps, os)[k]).name
            == ps[k].name && apply_overrides_spec(ps, os)[k].ty == ps[k].ty by {
            assert(r1[k].name == ps[k].name);
        }
    }
}

/// **Law: every stored value is applied.** Whatever the stored values are, each one that
/// names a defined property of the same type, holds a value that type accepts, and is not
/// followed by another stored value of the same name, leaves that property (found under
/// the same name, with the same type) holding its normalised value.
pub proof fn lemma_override_applied(ps: Seq<PropView>, os: Seq<PropView>, k: int)
    requires
        0 <= k < os.len(),
        find_prop(ps, os[k].name) is Some,
        ps[find_prop(ps, os[k].name)->0].ty == os[k].ty,
        value_check(os[k].ty, os[k].value) is Ok,
        forall|j: int| k < j < os.len() ==> (#[trigger] os[j]).name != os[k].name,
    ensures
        ({
            let r = apply_overrides_spec(ps, os);
            let i = find_prop(ps, os[k].name)->0;
            &&& r.len() == ps.len()
            &&& find_prop(r, os[k].name) == Some(i)
            &&& r[i].ty == ps[i].ty
            &&& r[i].value == value_check(os[k].ty, os[k].value)->Ok_0
        }),
    decreases os.len(),
{
    let name = os[k].name;
    let i = find_prop(ps, name)->0;
    lemma_find_prop_facts(ps, name);
    let r1 = apply_overrides_spec(ps, os.drop_last());
    let r = apply_overrides_spec(ps, os);
    lemma_overrides_shape(ps, os.drop_last());
    lemma_overrides_shape(ps, os);
    lemma_find_prop_same_names(ps, r1, name);
    lemma_find_prop_same_names(ps, r, name);
    let o = os.last();
    if k == os.len() - 1 {
        assert(o == os[k]);
        assert(r1[i].ty == o.ty);
    } else {
        let os1 = os.drop_last();
        assert(os1[k] == os[k]);
        assert forall|j: int| k < j < os1.len() implies (#[trigger] os1[j]).name != os1[k].name by {
            assert(os1[j] == os[j]);
        }
        lemma_override_applied(ps, os1, k);
        assert(o.name != name);
        if find_prop(r1, o.name) is Some {
            lemma_find_prop_facts(r1, o.name);
            assert(find_prop(r1, o.name)->0 != i);
        }
    }
}

/// What `set` stores is what `get` reads back, and storing it again changes nothing.
pub proof fn lemma_set_then_get(ps: Seq<PropView>, name: Seq<char>, value: Seq<char>, v: Seq<char>)
    requires
        find_prop(ps, name) is Some,
        value_check(ps[find_prop(ps, name)->0].ty, value) == Ok::<Seq<char>, &'static str>(v),
    ensures
        ({
            let i = find_prop(ps, name)->0;
            let ps2 = ps.update(i, with_value(ps[i], v));
            &&& find_prop(ps2, name) == Some(i)
            &&& ps2[i].value == v
            &&& value_check(ps2[i].ty, v) == Ok::<Seq<char>, &'static str>(v)
            &&& ps2.update(i, with_value(ps2[i], v)) == ps2
        }),
{
    let i = find_prop(ps, name)->0;
    let ps2 = ps.update(i, with_value(ps[i], v));
    lemma_find_prop_facts(ps, name);
    assert forall|k: int| 0 <= k < i implies (#[trigger] ps2[k]).name != name by {
        assert(ps2[k] == ps[k]);
    }
    lemma_find_prop(ps2, name, i);
    lemma_validate_idempotent(ps[i].ty, value, v);
    assert(ps2.update(i, with_value(ps2[i], v)) =~= ps2);
}

/// Every property's value is one its type accepts unchanged.
pub open spec fn values_valid(ps: Seq<PropView>) -> bool {
    forall|i: int|
        0 <= i < ps.len() ==> value_check((#[trigger] ps[i]).ty, ps[i].value) == Ok::<
            Seq<char>,
            &'static str,
        >(ps[i].value)
}

proof fn lemma_checked_values_valid(input: Seq<char>)
    requires
        props_check(input) is Ok,
    ensures
        values_valid(props_check(input)->Ok_0),
{
    lemma_lines_no_newline(input);
    lemma_lines_check_ok(lines(input));
}

proof fn lemma_override_valid(ps: Seq<PropView>, o: PropView)
    requires
        values_valid(ps),
    ensures
        values_valid(apply_override(ps, o)),
{
    if let Some(i) = find_prop(ps, o.name) {
        lemma_find_prop_facts(ps, o.name);
        if ps[i].ty == o.ty {
            if let Ok(v) = value_check(ps[i].ty, o.value) {
                lemma_validate_idempotent(ps[i].ty, o.value, v);
                let ps2 = apply_override(ps, o);
                assert forall|k: int| 0 <= k < ps2.len() implies value_check(
                    (#[trigger] ps2[k]).ty,
                    ps2[k].value,
                ) == Ok::<Seq<char>, &'static str>(ps2[k].value) by {
                    if k != i {
                        assert(ps2[k] == ps[k]);
                    }
                }
            }
        }
    }
}

proof fn lemma_overrides_valid(ps: Seq<PropView>, os: Seq<PropView>)
    requires
        values_valid(ps),
    ensures
        values_valid(apply_overrides_spec(ps, os)),
    decreases os.len(),
{
    if os.len() > 0 {
        lemma_overrides_valid(ps, os.drop_last());
        lemma_override_valid(apply_overrides_spec(ps, os.drop_last()), os.last());
    }
}

/// **Law: the store only holds valid values.** Whatever the definitions and stored values
/// files say, every property the store loads has a value its type accepts unchanged, and
/// a successful `set` keeps it so.
pub proof fn lemma_store_values_valid(defs: Seq<char>, values: Option<Seq<char>>, name: Seq<char>, value: Seq<char>)
    ensures
        values_valid(loaded(defs, values)),
        ({
            let ps = loaded(defs, values);
            match find_prop(ps, name) {
                Some(i) => match value_check(ps[i].ty, value) {
                    Ok(v) => values_valid(ps.update(i, with_value(ps[i], v))),
                    Err(_) => true,
                },
                None => true,
            }
        }),
{
    let base = match props_check(defs) {
        Ok(ps) => ps,
        Err(_) => seq![],
    };
    if props_check(defs) is Ok {
        lemma_checked_values_valid(defs);
    }
    assert(values_valid(base));
    if let Some(v) = values {
        if props_check(v) is Ok {
            lemma_overrides_valid(base, props_check(v)->Ok_0);
        }
    }
    let ps = loaded(defs, values);
    if let Some(i) = find_prop(ps, name) {
        lemma_find_prop_facts(ps, name);
        if let Ok(v) = value_check(ps[i].ty, value) {
            lemma_validate_idempotent(ps[i].ty, value, v);
            let ps2 = ps.update(i, with_value(ps[i], v));
            assert forall|k: int| 0 <= k < ps2.len() implies value_check(
                (#[trigger] ps2[k]).ty,
                ps2[k].value,
            ) == Ok::<Seq<char>, &'static str>(ps2[k].value) by {
                if k != i {
                    assert(ps2[k] == ps[k]);
                }
            }
        }
    }
}

} // verus!
