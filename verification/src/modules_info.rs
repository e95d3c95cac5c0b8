//! The kernel module database: `modules.dep` and `modules.builtin`.
use vstd::prelude::*;
use vstd::utf8::*;

verus! {

/// `String::from_utf8_lossy` of a byte sequence.
pub uninterp spec fn lossy_decode(bytes: Seq<u8>) -> Seq<char>;

/// Decodes bytes as UTF-8, replacing invalid sequences with U+FFFD.
///
/// Trusted: calls `String::from_utf8_lossy`; the contract claims that the result depends on
/// the bytes alone and, as the standard library documents, is their plain decoding when
/// they are valid UTF-8.
#[verifier::external_body]
fn utf8_lossy(bytes: &[u8]) -> (r: String)
    ensures
        r@ == lossy_decode(bytes@),
        valid_utf8(bytes@) ==> r@ == decode_utf8(bytes@),
{
    String::from_utf8_lossy(bytes).into_owned()
}

/// The text that lossy UTF-8 decoding gives for `bytes`: their plain decoding when they
/// are valid UTF-8, and `String::from_utf8_lossy`'s result otherwise.
pub open spec fn lossy_text(bytes: Seq<u8>) -> Seq<char> {
    if valid_utf8(bytes) {
        decode_utf8(bytes)
    } else {
        lossy_decode(bytes)
    }
}

/// The bytes that encode a text decode back to that text.
pub proof fn lemma_lossy_text_plain(text: Seq<char>)
    ensures
        lossy_text(encode_utf8(text)) == text,
{
    encode_utf8_valid_utf8(text);
    encode_utf8_decode_utf8(text);
}

/// The part of `path` after its last `/`.
pub open spec fn after_last_slash(path: Seq<u8>) -> Seq<u8>
    decreases path.len(),
{
    if path.len() == 0 {
        path
    } else if path.last() == 0x2f {
        seq![]
    } else {
        after_last_slash(path.drop_last()).push(path.last())
    }
}

/// Whether `.ko` starts at position `i` of `s`.
pub open spec fn ko_at(s: Seq<u8>, i: int) -> bool {
    0 <= i && i + 3 <= s.len() && s[i] == 0x2e && s[i + 1] == 0x6b && s[i + 2] == 0x6f
}

/// `s` cut before its first `.ko` (`foo.ko`, `foo.ko.xz`, ... all give `foo`).
pub open spec fn before_ko(s: Seq<u8>) -> Seq<u8> {
    if exists|i: int| ko_at(s, i) {
        s.take(choose_first_ko(s))
    } else {
        s
    }
}

/// Position of the first `.ko` in `s`.
pub open spec fn choose_first_ko(s: Seq<u8>) -> int {
    choose|i: int| ko_at(s, i) && forall|j: int| 0 <= j < i ==> !ko_at(s, j)
}

/// The module name of a module path: file name without directory and `.ko…` suffix.
pub open spec fn short_name(path: Seq<u8>) -> Seq<char> {
    lossy_text(before_ko(after_last_slash(path)))
}

/// Splits `s` at every space or tab (`split(|b| b == b' ' || b == b'\t')`).
pub open spec fn split_words(s: Seq<u8>) -> Seq<Seq<u8>>
    decreases s.len(),
{
    if s.len() == 0 {
        seq![seq![]]
    } else {
        let rest = split_words(s.drop_last());
        if s.last() == 0x20 || s.last() == 0x09 {
            rest.push(seq![])
        } else {
            rest.update(rest.len() - 1, rest.last().push(s.last()))
        }
    }
}

/// The dependency names of a `modules.dep` line tail: the short names of its non-empty
/// words, leaving out empty names.
pub open spec fn dep_names(words: Seq<Seq<u8>>) -> Seq<Seq<char>>
    decreases words.len(),
{
    if words.len() == 0 {
        seq![]
    } else {
        let rest = dep_names(words.drop_last());
        let w = words.last();
        if w.len() == 0 || short_name(w).len() == 0 {
            rest
        } else {
            rest.push(short_name(w))
        }
    }
}

/// The views of a sequence of strings.
pub open spec fn strs(v: Seq<String>) -> Seq<Seq<char>> {
    Seq::new(v.len(), |i: int| v[i]@)
}

/// Last binding of `k` in an association list.
pub open spec fn assoc_get<V>(s: Seq<(Seq<char>, V)>, k: Seq<char>) -> Option<V>
    decreases s.len(),
{
    if s.len() == 0 {
        None
    } else if s.last().0 == k {
        Some(s.last().1)
    } else {
        assoc_get(s.drop_last(), k)
    }
}

/// The map an association list stands for.
pub open spec fn assoc_map<V>(s: Seq<(Seq<char>, V)>) -> Map<Seq<char>, V> {
    Map::new(|k: Seq<char>| assoc_get(s, k) is Some, |k: Seq<char>| assoc_get(s, k)->0)
}

proof fn lemma_after_last_slash(path: Seq<u8>, p: int)
    requires
        -1 <= p < path.len(),
        p >= 0 ==> path[p] == 0x2f,
        forall|j: int| p < j < path.len() ==> path[j] != 0x2f,
    ensures
        after_last_slash(path) == path.skip(p + 1),
    decreases path.len(),
{
    if path.len() > 0 {
        if p == path.len() - 1 {
            assert(path.skip(p + 1) =~= Seq::<u8>::empty());
        } else {
            lemma_after_last_slash(path.drop_last(), p);
            assert(path.drop_last().skip(p + 1).push(path.last()) =~= path.skip(p + 1));
        }
    } else {
        assert(path.skip(p + 1) =~= path);
    }
}

fn after_last_slash_exec(path: &[u8]) -> (r: usize)
    ensures
        r <= path@.len(),
        after_last_slash(path@) == path@.skip(r as int),
{
    let mut i = path.len();
    while i > 0
        invariant
            i <= path@.len(),
            forall|j: int| i <= j < path@.len() ==> path@[j] != 0x2f,
        decreases i,
    {
        if path[i - 1] == 0x2f {
            proof {
                lemma_after_last_slash(path@, i - 1);
            }
            return i;
        }
        i = i - 1;
    }
    proof {
        lemma_after_last_slash(path@, -1);
    }
    0
}

fn first_ko(s: &[u8], lo: usize) -> (r: usize)
    requires
        lo <= s@.len(),
    ensures
        lo <= r <= s@.len(),
        before_ko(s@.skip(lo as int)) == s@.subrange(lo as int, r as int),
{
    let ghost t = s@.skip(lo as int);
    let n = s.len();
    let mut i = lo;
    while n - i >= 3
        invariant
            lo <= i <= n,
            n == s@.len(),
            t == s@.skip(lo as int),
            forall|j: int| 0 <= j < i - lo ==> !ko_at(t, j),
        decreases n - i,
    {
        if s[i] == 0x2e && s[i + 1] == 0x6b && s[i + 2] == 0x6f {
            proof {
                let k = (i - lo) as int;
                assert(ko_at(t, k));
                let c = choose_first_ko(t);
                assert(ko_at(t, c) && forall|j: int| 0 <= j < c ==> !ko_at(t, j));
                if c < k {
                    assert(!ko_at(t, c));
                } else if c > k {
                    assert(!ko_at(t, k));
                }
                assert(t.take(k) =~= s@.subrange(lo as int, i as int));
            }
            return i;
        }
        proof {
            assert(!ko_at(t, i - lo));
        }
        i = i + 1;
    }
    proof {
        assert forall|j: int| !ko_at(t, j) by {
            if 0 <= j && j + 3 <= t.len() {
                assert(j < i - lo);
            }
        }
        assert(t =~= s@.subrange(lo as int, n as int));
    }
    n
}

/// The module name of a module path.
pub fn short_name_exec(path: &[u8]) -> (r: String)
    ensures
        r@ == short_name(path@),
{
    let lo = after_last_slash_exec(path);
    let hi = first_ko(path, lo);
    let name = vstd::slice::slice_subrange(path, lo, hi);
    utf8_lossy(name)
}

proof fn lemma_assoc_update<V>(m: Seq<(Seq<char>, V)>, i: int, k: Seq<char>, v: V)
    requires
        0 <= i < m.len(),
        m[i].0 == k,
        forall|j: int| i < j < m.len() ==> m[j].0 != k,
    ensures
        forall|kk: Seq<char>|
            #[trigger] assoc_get(m.update(i, (k, v)), kk) == if kk == k {
                Some(v)
            } else {
                assoc_get(m, kk)
            },
    decreases m.len(),
{
    if i == m.len() - 1 {
        assert(m.update(i, (k, v)).drop_last() =~= m.drop_last());
    } else {
        lemma_assoc_update(m.drop_last(), i, k, v);
        assert(m.update(i, (k, v)).drop_last() =~= m.drop_last().update(i, (k, v)));
        assert forall|kk: Seq<char>|
            #[trigger] assoc_get(m.update(i, (k, v)), kk) == if kk == k {
                Some(v)
            } else {
                assoc_get(m, kk)
            } by {
            assert(assoc_get(m.drop_last().update(i, (k, v)), kk) == if kk == k {
                Some(v)
            } else {
                assoc_get(m.drop_last(), kk)
            });
        }
    }
}

/// Position of the first `:` in a line.
pub open spec fn colon_pos(line: Seq<u8>) -> Option<int> {
    if exists|i: int| 0 <= i < line.len() && line[i] == 0x3a {
        Some(choose|i: int| 0 <= i < line.len() && line[i] == 0x3a && forall|j: int| 0 <= j < i ==> line[j] != 0x3a)
    } else {
        None
    }
}

proof fn lemma_colon_pos(line: Seq<u8>, c: int)
    requires
        0 <= c <= line.len(),
        c < line.len() ==> line[c] == 0x3a,
        forall|j: int| 0 <= j < c ==> line[j] != 0x3a,
    ensures
        colon_pos(line) == if c < line.len() {
            Some(c)
        } else {
            None::<int>
        },
{
    if c < line.len() {
        let d = choose|i: int| 0 <= i < line.len() && line[i] == 0x3a && forall|j: int| 0 <= j < i ==> line[j] != 0x3a;
        assert(0 <= d < line.len() && line[d] == 0x3a && forall|j: int| 0 <= j < d ==> line[j] != 0x3a);
        if d < c {
            assert(line[d] != 0x3a);
        } else if d > c {
            assert(line[c] != 0x3a);
        }
    }
}

fn split_words_exec(s: &[u8]) -> (r: Vec<Vec<u8>>)
    ensures
        Seq::new(r@.len(), |i: int| r@[i]@) == split_words(s@),
{
    let mut words: Vec<Vec<u8>> = Vec::new();
    words.push(Vec::new());
    let mut i: usize = 0;
    assert(s@.take(0) =~= Seq::<u8>::empty());
    assert(Seq::new(words@.len(), |k: int| words@[k]@) =~= split_words(s@.take(0)));
    while i < s.len()
        invariant
            i <= s@.len(),
            words@.len() > 0,
            Seq::new(words@.len(), |k: int| words@[k]@) == split_words(s@.take(i as int)),
        decreases s@.len() - i,
    {
        let ghost before = Seq::new(words@.len(), |k: int| words@[k]@);
        assert(s@.take(i + 1).drop_last() =~= s@.take(i as int));
        assert(s@.take(i + 1).last() == s@[i as int]);
        let b = s[i];
        if b == 0x20 || b == 0x09 {
            words.push(Vec::new());
            assert(Seq::new(words@.len(), |k: int| words@[k]@) =~= before.push(seq![]));
        } else {
            let last = words.len() - 1;
            let mut w = words[last].clone();
            w.push(b);
            words.set(last, w);
            assert(Seq::new(words@.len(), |k: int| words@[k]@) =~= before.update(
                before.len() - 1,
                before.last().push(b),
            ));
        }
        i = i + 1;
    }
    assert(s@.take(s@.len() as int) =~= s@);
    words
}

/// All names in the lists of an association list, in order.
pub open spec fn all_listed(m: Seq<(Seq<char>, Seq<Seq<char>>)>) -> Seq<Seq<char>>
    decreases m.len(),
{
    if m.len() == 0 {
        seq![]
    } else {
        all_listed(m.drop_last()) + m.last().1
    }
}

proof fn lemma_assoc_get_listed(m: Seq<(Seq<char>, Seq<Seq<char>>)>, k: Seq<char>, j: int)
    requires
        assoc_get(m, k) is Some,
        0 <= j < assoc_get(m, k)->0.len(),
    ensures
        all_listed(m).contains(assoc_get(m, k)->0[j]),
    decreases m.len(),
{
    let a = all_listed(m.drop_last());
    if m.last().0 == k {
        assert((a + m.last().1)[a.len() + j] == m.last().1[j]);
    } else {
        lemma_assoc_get_listed(m.drop_last(), k, j);
        let i = choose|i: int| 0 <= i < a.len() && a[i] == assoc_get(m, k)->0[j];
        assert((a + m.last().1)[i] == a[i]);
    }
}

/// Whether `v` holds a string equal to `s`.
pub fn contains_string(v: &Vec<String>, s: &String) -> (r: bool)
    ensures
        r == strs(v@).contains(s@),
{
    let mut i: usize = 0;
    while i < v.len()
        invariant
            i <= v@.len(),
            forall|j: int| 0 <= j < i ==> v@[j]@ != s@,
        decreases v@.len() - i,
    {
        if v[i] == *s {
            assert(strs(v@)[i as int] == s@);
            return true;
        }
        i = i + 1;
    }
    assert(!strs(v@).contains(s@));
    false
}

proof fn lemma_entered_bound(entered: Seq<Seq<char>>, u: Seq<Seq<char>>, x: Seq<char>)
    requires
        entered.no_duplicates(),
        forall|y: Seq<char>| entered.contains(y) ==> u.contains(y),
        u.contains(x),
        !entered.contains(x),
    ensures
        entered.len() < u.len(),
{
    let e2 = entered.push(x);
    assert(e2.no_duplicates()) by {
        assert forall|i: int, j: int| 0 <= i < e2.len() && 0 <= j < e2.len() && i != j implies e2[i] != e2[j] by {
            if i < entered.len() && j < entered.len() {
            } else if i == entered.len() {
                assert(entered.contains(e2[j]) || j == i);
            } else {
                assert(entered.contains(e2[i]) || j == i);
            }
        }
    }
    e2.unique_seq_to_set();
    u.lemma_cardinality_of_set();
    assert(e2.to_set().subset_of(u.to_set())) by {
        assert forall|y: Seq<char>| e2.to_set().contains(y) implies u.to_set().contains(y) by {
            vstd::seq_lib::lemma_seq_contains_after_push(entered, x, y);
        }
    }
    vstd::set_lib::lemma_len_subset(e2.to_set(), u.to_set());
}

/// The names and positions of a walk stack.
pub open spec fn stack_view(st: Seq<(String, usize)>) -> Seq<(Seq<char>, int)> {
    Seq::new(st.len(), |i: int| (st[i].0@, st[i].1 as int))
}

/// Work left on a walk stack: for each entry, its unexamined dependencies plus one.
pub open spec fn stack_work(info: &ModulesInfo, st: Seq<(Seq<char>, int)>) -> nat
    decreases st.len(),
{
    if st.len() == 0 {
        0
    } else {
        stack_work(info, st.drop_last()) + ((info.dep_list(st.last().0).len() - st.last().1) as nat)
            + 1
    }
}

/// Entry `k` of a walk stack is the dependency its predecessor is examining.
spec fn linked(info: &ModulesInfo, st: Seq<(Seq<char>, int)>, k: int) -> bool {
    1 <= st[k - 1].1 && st[k].0 == info.dep_list(st[k - 1].0)[st[k - 1].1 - 1]
}

/// What a depth-first walk has done: the modules entered, the modules done, and the
/// output (the modules done that are not built in, in the order they were finished).
pub struct DfsState {
    pub en: Seq<Seq<char>>,
    pub dn: Seq<Seq<char>>,
    pub out: Seq<Seq<char>>,
}

/// How a depth-first walk ends: with its state, at a dependency loop, or out of fuel (the
/// walk needs no more fuel than there are modules).
pub enum DfsOutcome {
    Done(DfsState),
    Cycle,
    OutOfFuel,
}

/// `m` finished: done and output.
pub open spec fn mark_done(s: DfsState, m: Seq<char>) -> DfsState {
    DfsState { en: s.en, dn: s.dn.push(m), out: s.out.push(m) }
}

/// Visiting the entered module `m`: its dependencies in listed order, then `m` itself.
pub open spec fn dfs_visit(info: &ModulesInfo, m: Seq<char>, s: DfsState, fuel: nat) -> DfsOutcome
    decreases fuel, info.dep_list(m).len() + 1,
{
    match dfs_deps(info, m, 0, s, fuel) {
        DfsOutcome::Done(s1) => DfsOutcome::Done(mark_done(s1, m)),
        o => o,
    }
}

/// The dependencies of `m` from the `j`-th on: one already done is passed over; one entered
/// but not done closes a loop; a built-in one is entered and done at once; any other one is
/// entered and visited.
pub open spec fn dfs_deps(info: &ModulesInfo, m: Seq<char>, j: int, s: DfsState, fuel: nat) -> DfsOutcome
    decreases fuel, info.dep_list(m).len() - j,
{
    let ds = info.dep_list(m);
    if j < 0 || j >= ds.len() {
        DfsOutcome::Done(s)
    } else {
        let d = ds[j];
        if s.dn.contains(d) {
            dfs_deps(info, m, j + 1, s, fuel)
        } else if s.en.contains(d) {
            DfsOutcome::Cycle
        } else if info.builtin_set().contains(d) {
            dfs_deps(info, m, j + 1, DfsState { en: s.en.push(d), dn: s.dn.push(d), out: s.out }, fuel)
        } else if fuel == 0 {
            DfsOutcome::OutOfFuel
        } else {
            match dfs_visit(info, d, DfsState { en: s.en.push(d), dn: s.dn, out: s.out }, (fuel - 1) as nat) {
                DfsOutcome::Done(s2) => dfs_deps(info, m, j + 1, s2, fuel),
                o => o,
            }
        }
    }
}

impl ModulesInfo {
    /// Fuel enough for any walk from `root`.
    pub open spec fn walk_fuel(&self, root: Seq<char>) -> nat {
        self.universe(root).len() + 1
    }
}

/// The depth-first walk from `root`: nothing to load for a built-in module, else `root`
/// visited.
pub open spec fn load_order_outcome(info: &ModulesInfo, root: Seq<char>) -> DfsOutcome {
    if info.builtin_set().contains(root) {
        DfsOutcome::Done(DfsState { en: seq![root], dn: seq![root], out: seq![] })
    } else {
        dfs_visit(info, root, DfsState { en: seq![root], dn: seq![], out: seq![] }, info.walk_fuel(root))
    }
}

/// The rest of a walk held as a stack: the top module's remaining dependencies, then the
/// module itself done, then the module below it, and so on; frame `k` has fuel `fuel - k`.
spec fn resume(info: &ModulesInfo, st: Seq<(Seq<char>, int)>, s: DfsState, fuel: int) -> DfsOutcome
    decreases st.len(),
{
    if st.len() == 0 {
        DfsOutcome::Done(s)
    } else {
        let m = st.last().0;
        let f = fuel - (st.len() - 1);
        match dfs_deps(info, m, st.last().1, s, f as nat) {
            DfsOutcome::Done(s1) => resume(info, st.drop_last(), mark_done(s1, m), fuel),
            o => o,
        }
    }
}

/// The state of the exec walk.
spec fn dfs_state(en: Seq<Seq<char>>, dn: Seq<Seq<char>>, out: Seq<Seq<char>>) -> DfsState {
    DfsState { en, dn, out }
}

/// The state of the depth-first walk from `rt`: the stack of modules being walked (each
/// with the number of its dependencies examined so far), the modules entered, the modules
/// done, and the output so far.
#[verifier::opaque]
spec fn walk_inv(
    info: &ModulesInfo,
    rt: Seq<char>,
    st: Seq<(Seq<char>, int)>,
    en: Seq<Seq<char>>,
    dn: Seq<Seq<char>>,
    out: Seq<Seq<char>>,
) -> bool {
    let b = info.builtin_set();
    &&& st.len() > 0 ==> st[0].0 == rt
    &&& forall|k: int| 0 < k < st.len() ==> #[trigger] linked(info, st, k)
    &&& forall|k: int|
        0 <= k < st.len() ==> 0 <= (#[trigger] st[k]).1 <= info.dep_list(st[k].0).len()
    &&& forall|k: int|
        0 <= k < st.len() ==> !b.contains((#[trigger] st[k]).0) && en.contains(st[k].0)
            && !dn.contains(st[k].0)
    &&& forall|k1: int, k2: int|
        0 <= k1 < k2 < st.len() ==> (#[trigger] st[k1]).0 != (#[trigger] st[k2]).0
    &&& forall|x: Seq<char>|
        en.contains(x) && !dn.contains(x) ==> exists|k: int|
            0 <= k < st.len() && (#[trigger] st[k]).0 == x
    &&& forall|k: int, j: int|
        0 <= k < st.len() && 0 <= j < (#[trigger] st[k]).1 && (k == st.len() - 1 || j < st[k].1
            - 1) ==> dn.contains(#[trigger] info.dep_list(st[k].0)[j])
    &&& forall|x: Seq<char>| dn.contains(x) ==> en.contains(x)
    &&& forall|x: Seq<char>| out.contains(x) <==> dn.contains(x) && !b.contains(x)
    &&& en.no_duplicates()
    &&& forall|x: Seq<char>| en.contains(x) ==> info.universe(rt).contains(x)
    &&& en.contains(rt)
    &&& st.len() == 0 ==> (b.contains(rt) ==> out.len() == 0) && (!b.contains(rt) ==> out.len()
        > 0 && out.last() == rt)
    &&& info.deps_first(out)
}

proof fn lemma_walk_start(info: &ModulesInfo, rt: Seq<char>)
    ensures
        info.builtin_set().contains(rt) ==> walk_inv(
            info,
            rt,
            seq![],
            seq![rt],
            seq![rt],
            seq![],
        ),
        !info.builtin_set().contains(rt) ==> walk_inv(
            info,
            rt,
            seq![(rt, 0int)],
            seq![rt],
            seq![],
            seq![],
        ),
{
    reveal(walk_inv);
    assert(info.universe(rt)[0] == rt);
    let st = seq![(rt, 0int)];
    assert(st[0].0 == rt);
}

/// Facts about the top of the stack.
proof fn lemma_walk_top(
    info: &ModulesInfo,
    rt: Seq<char>,
    st: Seq<(Seq<char>, int)>,
    en: Seq<Seq<char>>,
    dn: Seq<Seq<char>>,
    out: Seq<Seq<char>>,
)
    requires
        walk_inv(info, rt, st, en, dn, out),
        st.len() > 0,
    ensures
        0 <= st.last().1 <= info.dep_list(st.last().0).len(),
        en.len() <= info.universe(rt).len(),
        en.contains(st.last().0),
        !info.builtin_set().contains(st.last().0),
{
    reveal(walk_inv);
    assert(0 <= st[st.len() - 1].1);
    lemma_entered_le(en, info.universe(rt));
}

proof fn lemma_entered_le(entered: Seq<Seq<char>>, u: Seq<Seq<char>>)
    requires
        entered.no_duplicates(),
        forall|y: Seq<char>| entered.contains(y) ==> u.contains(y),
    ensures
        entered.len() <= u.len(),
{
    entered.unique_seq_to_set();
    u.lemma_cardinality_of_set();
    assert(entered.to_set().subset_of(u.to_set()));
    vstd::set_lib::lemma_len_subset(entered.to_set(), u.to_set());
}

/// The top module has all its dependencies examined: it is done and goes to the output.
#[verifier::rlimit(40)]
proof fn lemma_walk_finish(
    info: &ModulesInfo,
    rt: Seq<char>,
    st: Seq<(Seq<char>, int)>,
    en: Seq<Seq<char>>,
    dn: Seq<Seq<char>>,
    out: Seq<Seq<char>>,
)
    requires
        walk_inv(info, rt, st, en, dn, out),
        st.len() > 0,
        st.last().1 == info.dep_list(st.last().0).len(),
    ensures
        walk_inv(info, rt, st.drop_last(), en, dn.push(st.last().0), out.push(st.last().0)),
        stack_work(info, st.drop_last()) < stack_work(info, st),
{
    reveal(walk_inv);
    let b = info.builtin_set();
    let n = st.len();
    let top = n - 1;
    let cv = st[top].0;
    let idx = st[top].1;
    let st2 = st.drop_last();
    let dn2 = dn.push(cv);
    let out2 = out.push(cv);
    assert(!b.contains(cv) && en.contains(cv) && !dn.contains(cv));
    assert forall|x: Seq<char>| dn2.contains(x) <==> dn.contains(x) || x == cv by {
        vstd::seq_lib::lemma_seq_contains_after_push(dn, cv, x);
    }
    assert forall|x: Seq<char>| out2.contains(x) <==> out.contains(x) || x == cv by {
        vstd::seq_lib::lemma_seq_contains_after_push(out, cv, x);
    }
    assert forall|k: int| 0 <= k < st2.len() implies !b.contains((#[trigger] st2[k]).0)
        && en.contains(st2[k].0) && !dn2.contains(st2[k].0) by {
        assert(st[k] == st2[k]);
        assert(st[k].0 != st[top].0);
    }
    assert forall|k1: int, k2: int| 0 <= k1 < k2 < st2.len() implies (#[trigger] st2[k1]).0
        != (#[trigger] st2[k2]).0 by {
        assert(st[k1] == st2[k1] && st[k2] == st2[k2]);
    }
    assert forall|x: Seq<char>| en.contains(x) && !dn2.contains(x) implies exists|k: int|
        0 <= k < st2.len() && (#[trigger] st2[k]).0 == x by {
        let k = choose|k: int| 0 <= k < st.len() && (#[trigger] st[k]).0 == x;
        assert(k != top);
        assert(st2[k] == st[k]);
    }
    assert forall|k: int, j: int|
        0 <= k < st2.len() && 0 <= j < (#[trigger] st2[k]).1 && (k == st2.len() - 1 || j
            < st2[k].1 - 1) implies dn2.contains(#[trigger] info.dep_list(st2[k].0)[j]) by {
        assert(st2[k] == st[k]);
        if j < st[k].1 - 1 {
            assert(dn.contains(info.dep_list(st[k].0)[j]));
        } else {
            assert(k == n - 2 && j == st[k].1 - 1);
            assert(linked(info, st, k + 1));
        }
    }
    assert forall|k: int| 0 < k < st2.len() implies #[trigger] linked(info, st2, k) by {
        assert(st2[k] == st[k] && st2[k - 1] == st[k - 1]);
        assert(linked(info, st, k));
    }
    assert forall|k: int| 0 <= k < st2.len() implies 0 <= (#[trigger] st2[k]).1
        <= info.dep_list(st2[k].0).len() by {
        assert(st2[k] == st[k]);
    }
    if n > 1 {
        assert(st2[0] == st[0]);
    }
    // the output stays a load order
    assert(!out.contains(cv));
    assert(out2.no_duplicates()) by {
        assert forall|i: int, j: int| 0 <= i < out2.len() && 0 <= j < out2.len() && i != j
            implies out2[i] != out2[j] by {
            if i < out.len() && j < out.len() {
                assert(out2[i] == out[i] && out2[j] == out[j]);
            } else if i == out.len() {
                assert(out2[j] == out[j]);
            } else {
                assert(out2[i] == out[i]);
            }
        }
    }
    assert forall|i: int| 0 <= i < out2.len() implies !b.contains(#[trigger] out2[i]) by {
        if i < out.len() {
            assert(out2[i] == out[i]);
        }
    }
    assert forall|i: int, j: int|
        0 <= i < out2.len() && 0 <= j < info.dep_list(out2[i]).len() && !b.contains(
            #[trigger] info.dep_list(out2[i])[j],
        ) implies exists|k: int| 0 <= k < i && #[trigger] out2[k] == info.dep_list(out2[i])[j] by {
        if i == out.len() {
            let d = info.dep_list(cv)[j];
            assert(st[top].1 == idx);
            assert(dn.contains(info.dep_list(st[top].0)[j]));
            assert(out.contains(d));
            let k = choose|k: int| 0 <= k < out.len() && out[k] == d;
            assert(out2[k] == d);
        } else {
            assert(out2[i] == out[i]);
            let k = choose|k: int| 0 <= k < i && #[trigger] out[k] == info.dep_list(out[i])[j];
            assert(out2[k] == out[k]);
        }
    }
    if n == 1 {
        assert(cv == rt);
        assert(out2.last() == rt);
    }
    assert(stack_work(info, st) == stack_work(info, st2) + 1);
}

/// The dependency at `st.last().1` of the top module, and the stack once it is examined.
spec fn next_dep(info: &ModulesInfo, st: Seq<(Seq<char>, int)>) -> Seq<char> {
    info.dep_list(st.last().0)[st.last().1]
}

spec fn stepped(st: Seq<(Seq<char>, int)>) -> Seq<(Seq<char>, int)> {
    st.update(st.len() - 1, (st.last().0, st.last().1 + 1))
}

proof fn lemma_stepped_work(info: &ModulesInfo, st: Seq<(Seq<char>, int)>)
    requires
        st.len() > 0,
        0 <= st.last().1 < info.dep_list(st.last().0).len(),
    ensures
        stack_work(info, stepped(st)) < stack_work(info, st),
        stepped(st).len() == st.len(),
        stepped(st).drop_last() == st.drop_last(),
        stepped(st).last() == (st.last().0, st.last().1 + 1),
{
    let st2 = stepped(st);
    assert(st2.drop_last() =~= st.drop_last());
    assert(st2.last() == (st.last().0, st.last().1 + 1));
}

/// Facts shared by the steps that examine the next dependency of the top module.
proof fn lemma_walk_step_common(
    info: &ModulesInfo,
    rt: Seq<char>,
    st: Seq<(Seq<char>, int)>,
    en: Seq<Seq<char>>,
    dn: Seq<Seq<char>>,
    out: Seq<Seq<char>>,
)
    requires
        walk_inv(info, rt, st, en, dn, out),
        st.len() > 0,
        st.last().1 < info.dep_list(st.last().0).len(),
    ensures
        info.universe(rt).contains(next_dep(info, st)),
        0 <= st.last().1,
{
    reveal(walk_inv);
    let cv = st.last().0;
    let idx = st.last().1;
    assert(0 <= st[st.len() - 1].1);
    let d = next_dep(info, st);
    assert(info.deps_map().dom().contains(cv));
    lemma_assoc_get_listed(info.dep_entries(), cv, idx);
    let a = all_listed(info.dep_entries());
    let i = choose|i: int| 0 <= i < a.len() && a[i] == d;
    assert(info.universe(rt)[i + 1] == d);
}

/// The next dependency is done already: it is passed over.
#[verifier::rlimit(40)]
proof fn lemma_walk_skip(
    info: &ModulesInfo,
    rt: Seq<char>,
    st: Seq<(Seq<char>, int)>,
    en: Seq<Seq<char>>,
    dn: Seq<Seq<char>>,
    out: Seq<Seq<char>>,
)
    requires
        walk_inv(info, rt, st, en, dn, out),
        st.len() > 0,
        st.last().1 < info.dep_list(st.last().0).len(),
        dn.contains(next_dep(info, st)),
    ensures
        walk_inv(info, rt, stepped(st), en, dn, out),
        stack_work(info, stepped(st)) < stack_work(info, st),
{
    lemma_walk_step_common(info, rt, st, en, dn, out);
    lemma_stepped_work(info, st);
    reveal(walk_inv);
    let n = st.len();
    let top = n - 1;
    let st2 = stepped(st);
    assert forall|k: int| 0 <= k < n implies (#[trigger] st2[k]).0 == st[k].0 && (k < top ==> st2[k]
        == st[k]) && (k == top ==> st2[k].1 == st[k].1 + 1) by {
        if k < top {
            assert(st2[k] == st2.drop_last()[k]);
        }
    }
    assert forall|k: int| 0 < k < st2.len() implies #[trigger] linked(info, st2, k) by {
        assert(linked(info, st, k));
    }
    assert forall|k: int| 0 <= k < st2.len() implies 0 <= (#[trigger] st2[k]).1
        <= info.dep_list(st2[k].0).len() by {
        assert(0 <= st[k].1);
    }
    assert forall|k: int| 0 <= k < st2.len() implies !info.builtin_set().contains(
        (#[trigger] st2[k]).0,
    ) && en.contains(st2[k].0) && !dn.contains(st2[k].0) by {
        assert(!info.builtin_set().contains(st[k].0));
    }
    assert forall|k1: int, k2: int| 0 <= k1 < k2 < st2.len() implies (#[trigger] st2[k1]).0
        != (#[trigger] st2[k2]).0 by {
        assert(st[k1].0 != st[k2].0);
    }
    assert forall|x: Seq<char>| en.contains(x) && !dn.contains(x) implies exists|k: int|
        0 <= k < st2.len() && (#[trigger] st2[k]).0 == x by {
        let k = choose|k: int| 0 <= k < st.len() && (#[trigger] st[k]).0 == x;
        assert(st2[k].0 == x);
    }
    assert forall|k: int, j: int|
        0 <= k < st2.len() && 0 <= j < (#[trigger] st2[k]).1 && (k == st2.len() - 1 || j
            < st2[k].1 - 1) implies dn.contains(#[trigger] info.dep_list(st2[k].0)[j]) by {
        if k == top && j == st[top].1 {
        } else {
            assert(0 <= j < st[k].1);
        }
    }
    if top == 0 {
        assert(st2[0].0 == st[0].0);
    } else {
        assert(st2[0] == st[0]);
    }
}

/// The next dependency is on the stack: the walk has come back to a module it is in.
proof fn lemma_walk_cycle(
    info: &ModulesInfo,
    rt: Seq<char>,
    st: Seq<(Seq<char>, int)>,
    en: Seq<Seq<char>>,
    dn: Seq<Seq<char>>,
    out: Seq<Seq<char>>,
)
    requires
        walk_inv(info, rt, st, en, dn, out),
        st.len() > 0,
        st.last().1 < info.dep_list(st.last().0).len(),
        en.contains(next_dep(info, st)),
        !dn.contains(next_dep(info, st)),
    ensures
        info.has_cycle_from(rt),
{
    lemma_walk_step_common(info, rt, st, en, dn, out);
    reveal(walk_inv);
    let n = st.len();
    let d = next_dep(info, st);
    let k = choose|k: int| 0 <= k < st.len() && (#[trigger] st[k]).0 == d;
    let p = Seq::new(n as nat, |i: int| st[i].0).push(d);
    assert(p[0] == st[0].0);
    assert forall|m: int| 0 <= m < p.len() - 1 implies !info.builtin_set().contains(#[trigger] p[m])
        && info.dep_list(p[m]).contains(p[m + 1]) by {
        assert(p[m] == st[m].0);
        assert(0 <= st[m].1 <= info.dep_list(st[m].0).len());
        assert(!info.builtin_set().contains(st[m].0));
        if m < n - 1 {
            assert(linked(info, st, m + 1));
            assert(p[m + 1] == st[m + 1].0);
        } else {
            assert(p[m + 1] == info.dep_list(p[m])[st[m].1]);
        }
    }
    assert(p[k] == p.last());
    assert(info.has_cycle_from(rt));
}

/// The next dependency is new and built in: it is entered and done at once.
#[verifier::rlimit(40)]
proof fn lemma_walk_enter_builtin(
    info: &ModulesInfo,
    rt: Seq<char>,
    st: Seq<(Seq<char>, int)>,
    en: Seq<Seq<char>>,
    dn: Seq<Seq<char>>,
    out: Seq<Seq<char>>,
)
    requires
        walk_inv(info, rt, st, en, dn, out),
        st.len() > 0,
        st.last().1 < info.dep_list(st.last().0).len(),
        !en.contains(next_dep(info, st)),
        info.builtin_set().contains(next_dep(info, st)),
    ensures
        walk_inv(
            info,
            rt,
            stepped(st),
            en.push(next_dep(info, st)),
            dn.push(next_dep(info, st)),
            out,
        ),
        en.len() < info.universe(rt).len(),
{
    lemma_walk_step_common(info, rt, st, en, dn, out);
    lemma_stepped_work(info, st);
    reveal(walk_inv);
    let b = info.builtin_set();
    let n = st.len();
    let top = n - 1;
    let d = next_dep(info, st);
    let st2 = stepped(st);
    let en2 = en.push(d);
    let dn2 = dn.push(d);
    lemma_entered_bound(en, info.universe(rt), d);
    assert forall|x: Seq<char>| en2.contains(x) <==> en.contains(x) || x == d by {
        vstd::seq_lib::lemma_seq_contains_after_push(en, d, x);
    }
    assert forall|x: Seq<char>| dn2.contains(x) <==> dn.contains(x) || x == d by {
        vstd::seq_lib::lemma_seq_contains_after_push(dn, d, x);
    }
    assert(en2.no_duplicates()) by {
        assert forall|i: int, j: int| 0 <= i < en2.len() && 0 <= j < en2.len() && i != j
            implies en2[i] != en2[j] by {
            if i < en.len() && j < en.len() {
                assert(en2[i] == en[i] && en2[j] == en[j]);
            } else if i == en.len() {
                assert(en2[j] == en[j]);
            } else {
                assert(en2[i] == en[i]);
            }
        }
    }
    assert forall|k: int| 0 <= k < n implies (#[trigger] st2[k]).0 == st[k].0 && (k < top ==> st2[k]
        == st[k]) && (k == top ==> st2[k].1 == st[k].1 + 1) by {
        if k < top {
            assert(st2[k] == st2.drop_last()[k]);
        }
    }
    assert forall|k: int| 0 < k < st2.len() implies #[trigger] linked(info, st2, k) by {
        assert(linked(info, st, k));
    }
    assert forall|k: int| 0 <= k < st2.len() implies 0 <= (#[trigger] st2[k]).1
        <= info.dep_list(st2[k].0).len() by {
        assert(0 <= st[k].1);
    }
    assert forall|k: int| 0 <= k < st2.len() implies !b.contains((#[trigger] st2[k]).0)
        && en2.contains(st2[k].0) && !dn2.contains(st2[k].0) by {
        assert(!b.contains(st[k].0) && en.contains(st[k].0));
    }
    assert forall|k1: int, k2: int| 0 <= k1 < k2 < st2.len() implies (#[trigger] st2[k1]).0
        != (#[trigger] st2[k2]).0 by {
        assert(st[k1].0 != st[k2].0);
    }
    assert forall|x: Seq<char>| en2.contains(x) && !dn2.contains(x) implies exists|k: int|
        0 <= k < st2.len() && (#[trigger] st2[k]).0 == x by {
        let k = choose|k: int| 0 <= k < st.len() && (#[trigger] st[k]).0 == x;
        assert(st2[k].0 == x);
    }
    assert forall|k: int, j: int|
        0 <= k < st2.len() && 0 <= j < (#[trigger] st2[k]).1 && (k == st2.len() - 1 || j
            < st2[k].1 - 1) implies dn2.contains(#[trigger] info.dep_list(st2[k].0)[j]) by {
        if k == top && j == st[top].1 {
        } else {
            assert(0 <= j < st[k].1);
            assert(dn.contains(info.dep_list(st[k].0)[j]));
        }
    }
    assert forall|x: Seq<char>| en2.contains(x) implies info.universe(rt).contains(x) by {
        if x != d {
            assert(en.contains(x));
        }
    }
    if top == 0 {
        assert(st2[0].0 == st[0].0);
    } else {
        assert(st2[0] == st[0]);
    }
}

/// The next dependency is new and not built in: it is entered and pushed on the stack.
#[verifier::rlimit(40)]
proof fn lemma_walk_enter(
    info: &ModulesInfo,
    rt: Seq<char>,
    st: Seq<(Seq<char>, int)>,
    en: Seq<Seq<char>>,
    dn: Seq<Seq<char>>,
    out: Seq<Seq<char>>,
)
    requires
        walk_inv(info, rt, st, en, dn, out),
        st.len() > 0,
        st.last().1 < info.dep_list(st.last().0).len(),
        !en.contains(next_dep(info, st)),
        !info.builtin_set().contains(next_dep(info, st)),
    ensures
        walk_inv(
            info,
            rt,
            stepped(st).push((next_dep(info, st), 0int)),
            en.push(next_dep(info, st)),
            dn,
            out,
        ),
        en.len() < info.universe(rt).len(),
{
    lemma_walk_step_common(info, rt, st, en, dn, out);
    lemma_stepped_work(info, st);
    reveal(walk_inv);
    let b = info.builtin_set();
    let n = st.len();
    let top = n - 1;
    let d = next_dep(info, st);
    let st2 = stepped(st);
    let st3 = st2.push((d, 0int));
    let en2 = en.push(d);
    lemma_entered_bound(en, info.universe(rt), d);
    assert forall|x: Seq<char>| en2.contains(x) <==> en.contains(x) || x == d by {
        vstd::seq_lib::lemma_seq_contains_after_push(en, d, x);
    }
    assert(en2.no_duplicates()) by {
        assert forall|i: int, j: int| 0 <= i < en2.len() && 0 <= j < en2.len() && i != j
            implies en2[i] != en2[j] by {
            if i < en.len() && j < en.len() {
                assert(en2[i] == en[i] && en2[j] == en[j]);
            } else if i == en.len() {
                assert(en2[j] == en[j]);
            } else {
                assert(en2[i] == en[i]);
            }
        }
    }
    assert(!dn.contains(d));
    assert forall|k: int| 0 <= k < n implies (#[trigger] st3[k]).0 == st[k].0 && (k < top ==> st3[k]
        == st[k]) && (k == top ==> st3[k].1 == st[k].1 + 1) by {
        assert(st3[k] == st2[k]);
        if k < top {
            assert(st2[k] == st2.drop_last()[k]);
        }
    }
    assert(st3[n as int] == (d, 0int));
    assert forall|k: int| 0 < k < st3.len() implies #[trigger] linked(info, st3, k) by {
        if k < n {
            assert(linked(info, st, k));
        }
    }
    assert forall|k: int| 0 <= k < st3.len() implies 0 <= (#[trigger] st3[k]).1
        <= info.dep_list(st3[k].0).len() by {
        if k < n {
            assert(0 <= st[k].1);
        }
    }
    assert forall|k: int| 0 <= k < st3.len() implies !b.contains((#[trigger] st3[k]).0)
        && en2.contains(st3[k].0) && !dn.contains(st3[k].0) by {
        if k < n {
            assert(!b.contains(st[k].0) && en.contains(st[k].0));
        }
    }
    assert forall|k1: int, k2: int| 0 <= k1 < k2 < st3.len() implies (#[trigger] st3[k1]).0
        != (#[trigger] st3[k2]).0 by {
        if k2 < n {
            assert(st[k1].0 != st[k2].0);
        } else {
            assert(en.contains(st[k1].0));
        }
    }
    assert forall|x: Seq<char>| en2.contains(x) && !dn.contains(x) implies exists|k: int|
        0 <= k < st3.len() && (#[trigger] st3[k]).0 == x by {
        if x == d {
            assert(st3[n as int].0 == x);
        } else {
            let k = choose|k: int| 0 <= k < st.len() && (#[trigger] st[k]).0 == x;
            assert(st3[k].0 == x);
        }
    }
    assert forall|k: int, j: int|
        0 <= k < st3.len() && 0 <= j < (#[trigger] st3[k]).1 && (k == st3.len() - 1 || j
            < st3[k].1 - 1) implies dn.contains(#[trigger] info.dep_list(st3[k].0)[j]) by {
        assert(k < n);
        assert(0 <= j < st[k].1);
        if k == top {
            assert(dn.contains(info.dep_list(st[k].0)[j]));
        } else {
            assert(dn.contains(info.dep_list(st[k].0)[j]));
        }
    }
    assert forall|x: Seq<char>| dn.contains(x) implies en2.contains(x) by {
        assert(en.contains(x));
    }
    assert forall|x: Seq<char>| en2.contains(x) implies info.universe(rt).contains(x) by {
        if x != d {
            assert(en.contains(x));
        }
    }
    if top == 0 {
        assert(st3[0].0 == st[0].0);
    } else {
        assert(st3[0] == st[0]);
    }
}

/// The stack holds distinct entered modules, so no more of them than were entered.
proof fn lemma_stack_len(
    info: &ModulesInfo,
    rt: Seq<char>,
    st: Seq<(Seq<char>, int)>,
    en: Seq<Seq<char>>,
    dn: Seq<Seq<char>>,
    out: Seq<Seq<char>>,
)
    requires
        walk_inv(info, rt, st, en, dn, out),
    ensures
        st.len() <= en.len(),
{
    reveal(walk_inv);
    let names = Seq::new(st.len(), |k: int| st[k].0);
    assert(names.no_duplicates()) by {
        assert forall|i: int, j: int| 0 <= i < names.len() && 0 <= j < names.len() && i != j implies names[i]
            != names[j] by {
            if i < j {
                assert(st[i].0 != st[j].0);
            } else {
                assert(st[j].0 != st[i].0);
            }
        }
    }
    assert forall|y: Seq<char>| names.contains(y) implies en.contains(y) by {
        let k = choose|k: int| 0 <= k < names.len() && names[k] == y;
        assert(en.contains(st[k].0));
    }
    lemma_entered_le(names, en);
}

/// The top module has all its dependencies examined: the rest of the walk goes on below.
proof fn lemma_resume_finish(info: &ModulesInfo, st: Seq<(Seq<char>, int)>, s: DfsState, fuel: int)
    requires
        st.len() > 0,
        st.last().1 >= info.dep_list(st.last().0).len(),
    ensures
        resume(info, st, s, fuel) == resume(info, st.drop_last(), mark_done(s, st.last().0), fuel),
{
}

/// The next dependency is done already: passed over.
proof fn lemma_resume_skip(info: &ModulesInfo, st: Seq<(Seq<char>, int)>, s: DfsState, fuel: int)
    requires
        st.len() > 0,
        0 <= st.last().1 < info.dep_list(st.last().0).len(),
        s.dn.contains(next_dep(info, st)),
    ensures
        resume(info, st, s, fuel) == resume(info, stepped(st), s, fuel),
{
    let st2 = stepped(st);
    assert(st2.drop_last() =~= st.drop_last());
    assert(st2.last() == (st.last().0, st.last().1 + 1));
}

/// The next dependency is entered but not done: the dependencies loop.
proof fn lemma_resume_cycle(info: &ModulesInfo, st: Seq<(Seq<char>, int)>, s: DfsState, fuel: int)
    requires
        st.len() > 0,
        0 <= st.last().1 < info.dep_list(st.last().0).len(),
        !s.dn.contains(next_dep(info, st)),
        s.en.contains(next_dep(info, st)),
    ensures
        resume(info, st, s, fuel) == DfsOutcome::Cycle,
{
}

/// The next dependency is new and built in: entered and done at once.
proof fn lemma_resume_builtin(info: &ModulesInfo, st: Seq<(Seq<char>, int)>, s: DfsState, fuel: int)
    requires
        st.len() > 0,
        0 <= st.last().1 < info.dep_list(st.last().0).len(),
        !s.dn.contains(next_dep(info, st)),
        !s.en.contains(next_dep(info, st)),
        info.builtin_set().contains(next_dep(info, st)),
    ensures
        resume(info, st, s, fuel) == resume(
            info,
            stepped(st),
            DfsState { en: s.en.push(next_dep(info, st)), dn: s.dn.push(next_dep(info, st)), out: s.out },
            fuel,
        ),
{
    let st2 = stepped(st);
    assert(st2.drop_last() =~= st.drop_last());
    assert(st2.last() == (st.last().0, st.last().1 + 1));
}

/// The next dependency is new and not built in: entered and walked on top of the stack.
proof fn lemma_resume_enter(info: &ModulesInfo, st: Seq<(Seq<char>, int)>, s: DfsState, fuel: int)
    requires
        st.len() > 0,
        st.len() <= fuel,
        0 <= st.last().1 < info.dep_list(st.last().0).len(),
        !s.dn.contains(next_dep(info, st)),
        !s.en.contains(next_dep(info, st)),
        !info.builtin_set().contains(next_dep(info, st)),
    ensures
        resume(info, st, s, fuel) == resume(
            info,
            stepped(st).push((next_dep(info, st), 0int)),
            DfsState { en: s.en.push(next_dep(info, st)), dn: s.dn, out: s.out },
            fuel,
        ),
{
    let d = next_dep(info, st);
    let m = st.last().0;
    let j = st.last().1;
    let f = fuel - (st.len() - 1);
    let s1 = DfsState { en: s.en.push(d), dn: s.dn, out: s.out };
    let st2 = stepped(st);
    let st3 = st2.push((d, 0int));
    assert(st2.drop_last() =~= st.drop_last());
    assert(st2.last() == (m, j + 1));
    assert(st3.drop_last() =~= st2);
    assert(st3.last() == (d, 0int));
    assert(f >= 1);
    assert((fuel - (st3.len() - 1)) as nat == (f - 1) as nat);
    let inner = dfs_deps(info, d, 0, s1, (f - 1) as nat);
    assert(dfs_visit(info, d, s1, (f - 1) as nat) == match inner {
        DfsOutcome::Done(x) => DfsOutcome::Done(mark_done(x, d)),
        o => o,
    });
    assert(dfs_deps(info, m, j, s, f as nat) == match dfs_visit(info, d, s1, (f - 1) as nat) {
        DfsOutcome::Done(s2) => dfs_deps(info, m, j + 1, s2, f as nat),
        o => o,
    });
    match inner {
        DfsOutcome::Done(x) => {
            assert(resume(info, st3, s1, fuel) == resume(info, st2, mark_done(x, d), fuel));
        },
        _ => {},
    }
}

/// An empty stack: the output is a load order.
proof fn lemma_walk_end(
    info: &ModulesInfo,
    rt: Seq<char>,
    en: Seq<Seq<char>>,
    dn: Seq<Seq<char>>,
    out: Seq<Seq<char>>,
)
    requires
        walk_inv(info, rt, seq![], en, dn, out),
    ensures
        info.is_load_order(rt, out),
        forall|x: Seq<char>| out.contains(x) ==> en.contains(x),
{
    reveal(walk_inv);
}

/// The module database.
pub struct ModulesInfo {
    deps: Vec<(String, Vec<String>)>,
    builtin: Vec<String>,
    paths: Vec<(String, String)>,
}

impl ModulesInfo {
    /// Dependencies of each module listed in `modules.dep`.
    pub closed spec fn deps_map(&self) -> Map<Seq<char>, Seq<Seq<char>>> {
        assoc_map(Seq::new(self.deps@.len(), |i: int| (self.deps@[i].0@, strs(self.deps@[i].1@))))
    }

    /// Relative path of each module listed in `modules.dep`.
    pub closed spec fn paths_map(&self) -> Map<Seq<char>, Seq<char>> {
        assoc_map(Seq::new(self.paths@.len(), |i: int| (self.paths@[i].0@, self.paths@[i].1@)))
    }

    /// Names of the modules built into the kernel.
    pub closed spec fn builtin_set(&self) -> Set<Seq<char>> {
        strs(self.builtin@).to_set()
    }

    /// The dependency list stored for `name`, if any.
    pub fn deps_of(&self, name: &str) -> (r: Option<&Vec<String>>)
        ensures
            r is Some <==> self.deps_map().dom().contains(name@),
            r matches Some(v) ==> strs(v@) == self.deps_map()[name@],
    {
        let key = name.to_owned();
        let ghost m = Seq::new(self.deps@.len(), |i: int| (self.deps@[i].0@, strs(self.deps@[i].1@)));
        let mut i = self.deps.len();
        assert(m.take(m.len() as int) =~= m);
        while i > 0
            invariant
                i <= self.deps@.len(),
                key@ == name@,
                m == Seq::new(self.deps@.len(), |i: int| (self.deps@[i].0@, strs(self.deps@[i].1@))),
                assoc_get(m, name@) == assoc_get(m.take(i as int), name@),
            decreases i,
        {
            assert(m.take(i as int).drop_last() =~= m.take(i - 1));
            if self.deps[i - 1].0 == key {
                return Some(&self.deps[i - 1].1);
            }
            i = i - 1;
        }
        None
    }

    /// The relative path stored for `name`, if any.
    pub fn resolve_path(&self, name: &str) -> (r: Option<&String>)
        ensures
            r is Some <==> self.paths_map().dom().contains(name@),
            r matches Some(p) ==> p@ == self.paths_map()[name@],
    {
        let key = name.to_owned();
        let ghost m = Seq::new(self.paths@.len(), |i: int| (self.paths@[i].0@, self.paths@[i].1@));
        let mut i = self.paths.len();
        assert(m.take(m.len() as int) =~= m);
        while i > 0
            invariant
                i <= self.paths@.len(),
                key@ == name@,
                m == Seq::new(self.paths@.len(), |i: int| (self.paths@[i].0@, self.paths@[i].1@)),
                assoc_get(m, name@) == assoc_get(m.take(i as int), name@),
            decreases i,
        {
            assert(m.take(i as int).drop_last() =~= m.take(i - 1));
            if self.paths[i - 1].0 == key {
                return Some(&self.paths[i - 1].1);
            }
            i = i - 1;
        }
        None
    }

    /// Whether `name` is built into the kernel.
    pub fn is_builtin(&self, name: &str) -> (r: bool)
        ensures
            r == self.builtin_set().contains(name@),
    {
        let key = name.to_owned();
        let mut i: usize = 0;
        while i < self.builtin.len()
            invariant
                i <= self.builtin@.len(),
                key@ == name@,
                forall|j: int| 0 <= j < i ==> self.builtin@[j]@ != name@,
            decreases self.builtin@.len() - i,
        {
            if self.builtin[i] == key {
                assert(strs(self.builtin@)[i as int] == name@);
                return true;
            }
            i = i + 1;
        }
        assert(!strs(self.builtin@).contains(name@));
        false
    }

    fn set_deps(&mut self, name: String, deps: Vec<String>)
        ensures
            final(self).deps_map() == old(self).deps_map().insert(name@, strs(deps@)),
            final(self).paths_map() == old(self).paths_map(),
            final(self).builtin_set() == old(self).builtin_set(),
    {
        let ghost m0 = Seq::new(self.deps@.len(), |i: int| (self.deps@[i].0@, strs(self.deps@[i].1@)));
        let ghost k = name@;
        let ghost v = strs(deps@);
        let mut i = self.deps.len();
        while i > 0
            invariant
                i <= self.deps@.len(),
                self.deps@ == old(self).deps@,
                self.paths@ == old(self).paths@,
                self.builtin@ == old(self).builtin@,
                name@ == k,
                strs(deps@) == v,
                m0 == Seq::new(self.deps@.len(), |i: int| (self.deps@[i].0@, strs(self.deps@[i].1@))),
                forall|j: int| i <= j < m0.len() ==> m0[j].0 != k,
            decreases i,
        {
            if self.deps[i - 1].0 == name {
                self.deps.set(i - 1, (name, deps));
                proof {
                    let m1 = Seq::new(
                        self.deps@.len(),
                        |i: int| (self.deps@[i].0@, strs(self.deps@[i].1@)),
                    );
                    assert(m1 =~= m0.update(i - 1, (k, v)));
                    lemma_assoc_update(m0, i - 1, k, v);
                    assert(assoc_map(m1) =~= assoc_map(m0).insert(k, v));
                }
                return;
            }
            i = i - 1;
        }
        self.deps.push((name, deps));
        proof {
            let m1 = Seq::new(self.deps@.len(), |i: int| (self.deps@[i].0@, strs(self.deps@[i].1@)));
            assert(m1 =~= m0.push((k, v)));
            assert forall|kk: Seq<char>| assoc_get(m1, kk) == (if kk == k {
                Some(v)
            } else {
                assoc_get(m0, kk)
            }) by {
                assert(m1.drop_last() =~= m0);
            }
            assert(assoc_map(m1) =~= assoc_map(m0).insert(k, v));
        }
    }

    fn set_path(&mut self, name: String, path: String)
        ensures
            final(self).paths_map() == old(self).paths_map().insert(name@, path@),
            final(self).deps_map() == old(self).deps_map(),
            final(self).builtin_set() == old(self).builtin_set(),
    {
        let ghost m0 = Seq::new(self.paths@.len(), |i: int| (self.paths@[i].0@, self.paths@[i].1@));
        let ghost k = name@;
        let ghost v = path@;
        let mut i = self.paths.len();
        while i > 0
            invariant
                i <= self.paths@.len(),
                self.paths@ == old(self).paths@,
                self.deps@ == old(self).deps@,
                self.builtin@ == old(self).builtin@,
                name@ == k,
                path@ == v,
                m0 == Seq::new(self.paths@.len(), |i: int| (self.paths@[i].0@, self.paths@[i].1@)),
                forall|j: int| i <= j < m0.len() ==> m0[j].0 != k,
            decreases i,
        {
            if self.paths[i - 1].0 == name {
                self.paths.set(i - 1, (name, path));
                proof {
                    let m1 = Seq::new(self.paths@.len(), |i: int| (self.paths@[i].0@, self.paths@[i].1@));
                    assert(m1 =~= m0.update(i - 1, (k, v)));
                    lemma_assoc_update(m0, i - 1, k, v);
                    assert(assoc_map(m1) =~= assoc_map(m0).insert(k, v));
                }
                return;
            }
            i = i - 1;
        }
        self.paths.push((name, path));
        proof {
            let m1 = Seq::new(self.paths@.len(), |i: int| (self.paths@[i].0@, self.paths@[i].1@));
            assert(m1 =~= m0.push((k, v)));
            assert forall|kk: Seq<char>| assoc_get(m1, kk) == (if kk == k {
                Some(v)
            } else {
                assoc_get(m0, kk)
            }) by {
                assert(m1.drop_last() =~= m0);
            }
            assert(assoc_map(m1) =~= assoc_map(m0).insert(k, v));
        }
    }

    /// Reads one `modules.dep` line, `path/to/module.ko: dep1.ko dep2.ko`: records the
    /// module's path and its dependency names (lines without `:` are ignored).
    pub fn feed_modules_dep_line(&mut self, line: &[u8])
        ensures
            final(self).builtin_set() == old(self).builtin_set(),
            colon_pos(line@) is None ==> final(self).deps_map() == old(self).deps_map()
                && final(self).paths_map() == old(self).paths_map(),
            colon_pos(line@) matches Some(c) ==> {
                let mod_path = line@.take(c);
                let name = short_name(mod_path);
                &&& final(self).paths_map() == old(self).paths_map().insert(
                    name,
                    lossy_text(mod_path),
                )
                &&& final(self).deps_map() == old(self).deps_map().insert(
                    name,
                    dep_names(split_words(line@.skip(c + 1))),
                )
            },
    {
        let n = line.len();
        let mut c: usize = 0;
        while c < n && line[c] != 0x3a
            invariant
                c <= n,
                n == line@.len(),
                forall|j: int| 0 <= j < c ==> line@[j] != 0x3a,
            decreases n - c,
        {
            c = c + 1;
        }
        proof {
            lemma_colon_pos(line@, c as int);
        }
        if c == n {
            return;
        }
        let mod_path = vstd::slice::slice_subrange(line, 0, c);
        let deps_part = vstd::slice::slice_subrange(line, c + 1, n);
        let name = short_name_exec(mod_path);
        let words = split_words_exec(deps_part);
        let mut deps_vec: Vec<String> = Vec::new();
        let ghost wv = Seq::new(words@.len(), |i: int| words@[i]@);
        let mut i: usize = 0;
        assert(wv.take(0) =~= Seq::<Seq<u8>>::empty());
        while i < words.len()
            invariant
                i <= words@.len(),
                wv == Seq::new(words@.len(), |i: int| words@[i]@),
                strs(deps_vec@) == dep_names(wv.take(i as int)),
            decreases words@.len() - i,
        {
            assert(wv.take(i + 1).drop_last() =~= wv.take(i as int));
            assert(wv.take(i + 1).last() == words@[i as int]@);
            let w = words[i].as_slice();
            if w.len() > 0 {
                let dep_name = short_name_exec(w);
                if !dep_name.as_str().is_empty() {
                    deps_vec.push(dep_name);
                    assert(strs(deps_vec@) =~= dep_names(wv.take(i + 1)));
                }
            }
            i = i + 1;
        }
        assert(wv.take(words@.len() as int) =~= wv);
        let path_str = utf8_lossy(mod_path);
        self.set_path(name.clone(), path_str);
        self.set_deps(name, deps_vec);
    }

    /// Reads one `modules.builtin` line (`kernel/fs/ext4/ext4.ko`): records the module as
    /// built in, unless its name is empty.
    pub fn feed_modules_builtin_line(&mut self, line: &[u8])
        ensures
            final(self).deps_map() == old(self).deps_map(),
            final(self).paths_map() == old(self).paths_map(),
            short_name(line@).len() == 0 ==> final(self).builtin_set() == old(self).builtin_set(),
            short_name(line@).len() > 0 ==> final(self).builtin_set() == old(self).builtin_set().insert(
                short_name(line@),
            ),
    {
        let name = short_name_exec(line);
        if name.as_str().is_empty() {
            return;
        }
        let ghost b0 = strs(self.builtin@);
        self.builtin.push(name);
        assert(strs(self.builtin@) =~= b0.push(short_name(line@)));
        assert forall|x: Seq<char>| #[trigger] strs(self.builtin@).to_set().contains(x) == b0.to_set().insert(
            short_name(line@),
        ).contains(x) by {
            vstd::seq_lib::lemma_seq_contains_after_push(b0, short_name(line@), x);
        }
        assert(strs(self.builtin@).to_set() =~= b0.to_set().insert(short_name(line@)));
    }

    closed spec fn dep_entries(&self) -> Seq<(Seq<char>, Seq<Seq<char>>)> {
        Seq::new(self.deps@.len(), |i: int| (self.deps@[i].0@, strs(self.deps@[i].1@)))
    }

    /// Every name the walk from `root` can meet.
    pub closed spec fn universe(&self, root: Seq<char>) -> Seq<Seq<char>> {
        seq![root] + all_listed(self.dep_entries())
    }

    /// The dependency list of `x` (empty when `modules.dep` does not list it).
    pub open spec fn dep_list(&self, x: Seq<char>) -> Seq<Seq<char>> {
        if self.deps_map().dom().contains(x) {
            self.deps_map()[x]
        } else {
            seq![]
        }
    }

    /// `p` is a walk from `root` through dependencies, passing only modules that are not
    /// built in (the last one may be).
    pub open spec fn is_dep_walk(&self, root: Seq<char>, p: Seq<Seq<char>>) -> bool {
        &&& p.len() >= 1
        &&& p[0] == root
        &&& forall|k: int|
            0 <= k < p.len() - 1 ==> !self.builtin_set().contains(#[trigger] p[k]) && self.dep_list(
                p[k],
            ).contains(p[k + 1])
    }

    /// Loading `root` may need `x`: some walk through dependencies leads from one to the
    /// other.
    pub open spec fn reaches(&self, root: Seq<char>, x: Seq<char>) -> bool {
        exists|p: Seq<Seq<char>>| #[trigger] self.is_dep_walk(root, p) && p.last() == x
    }

    /// `order` lists each module once, no built-in module, and each module after all its
    /// dependencies that are not built in.
    pub open spec fn deps_first(&self, order: Seq<Seq<char>>) -> bool {
        &&& order.no_duplicates()
        &&& forall|i: int| 0 <= i < order.len() ==> !self.builtin_set().contains(#[trigger] order[i])
        &&& forall|i: int, j: int|
            0 <= i < order.len() && 0 <= j < self.dep_list(order[i]).len()
                && !self.builtin_set().contains(#[trigger] self.dep_list(order[i])[j]) ==> exists|
                k: int,
            |
                0 <= k < i && #[trigger] order[k] == self.dep_list(order[i])[j]
    }

    /// `order` is a load order for `root`: dependencies first, and `root` last (nothing at
    /// all when `root` is built in).
    pub open spec fn is_load_order(&self, root: Seq<char>, order: Seq<Seq<char>>) -> bool {
        &&& self.deps_first(order)
        &&& self.builtin_set().contains(root) ==> order.len() == 0
        &&& !self.builtin_set().contains(root) ==> order.len() > 0 && order.last() == root
    }

    /// A walk through dependencies, starting at `root`, over modules that are not built in,
    /// that comes back to a module it already passed.
    pub open spec fn has_cycle_from(&self, root: Seq<char>) -> bool {
        exists|p: Seq<Seq<char>>|
            {
                &&& p.len() >= 2
                &&& p[0] == root
                &&& forall|k: int|
                    0 <= k < p.len() - 1 ==> !self.builtin_set().contains(#[trigger] p[k])
                        && self.dep_list(p[k]).contains(p[k + 1])
                &&& exists|k: int| 0 <= k < p.len() - 1 && p[k] == p.last()
            }
    }

    /// Orders `root` after its dependencies, transitively (depth first, dependencies in
    /// listed order); fails when the dependencies loop.
    pub fn resolve_load_order(&self, root: &str) -> (r: Result<Vec<String>, &'static str>)
        ensures
            match load_order_outcome(self, root@) {
                DfsOutcome::Done(s) => r matches Ok(order) && strs(order@) == s.out,
                _ => r == Err::<Vec<String>, &str>("dependency cycle detected"),
            },
            r matches Ok(order) ==> self.is_load_order(root@, strs(order@)),
            r matches Ok(order) ==> forall|i: int|
                0 <= i < order@.len() ==> self.reaches(root@, #[trigger] strs(order@)[i]),
            r is Err ==> r == Err::<Vec<String>, &str>("dependency cycle detected")
                && self.has_cycle_from(root@),
    {
        let ghost rt = root@;
        let root_s = root.to_owned();
        let mut entered: Vec<String> = Vec::new();
        let mut done: Vec<String> = Vec::new();
        let mut out: Vec<String> = Vec::new();
        let mut stack: Vec<(String, usize)> = Vec::new();
        entered.push(root_s.clone());
        if self.is_builtin(root) {
            done.push(root_s);
        } else {
            stack.push((root_s, 0));
        }
        proof {
            lemma_walk_start(self, rt);
            assert(strs(entered@) =~= seq![rt]);
            assert(self.is_dep_walk(rt, seq![rt]));
            assert forall|x: Seq<char>| strs(entered@).contains(x) implies self.reaches(rt, x) by {
                assert(seq![rt].last() == rt);
            }
            assert(strs(out@) =~= Seq::<Seq<char>>::empty());
            if self.builtin_set().contains(rt) {
                assert(strs(done@) =~= seq![rt]);
                assert(stack_view(stack@) =~= Seq::<(Seq<char>, int)>::empty());
                assert(dfs_state(strs(entered@), strs(done@), strs(out@)) == DfsState {
                    en: seq![rt],
                    dn: seq![rt],
                    out: seq![],
                });
            } else {
                assert(strs(done@) =~= Seq::<Seq<char>>::empty());
                assert(stack_view(stack@) =~= seq![(rt, 0int)]);
                let st0 = seq![(rt, 0int)];
                assert(st0.drop_last() =~= Seq::<(Seq<char>, int)>::empty());
                assert(st0.last() == (rt, 0int));
                let s0 = DfsState { en: seq![rt], dn: seq![], out: seq![] };
                assert(dfs_state(strs(entered@), strs(done@), strs(out@)) == s0);
                let fu = self.walk_fuel(rt);
                assert(((fu as int) - (st0.len() - 1)) as nat == fu);
                match dfs_deps(self, rt, 0, s0, fu) {
                    DfsOutcome::Done(s1) => {
                        assert(resume(self, st0.drop_last(), mark_done(s1, rt), fu as int) == DfsOutcome::Done(
                            mark_done(s1, rt),
                        ));
                    },
                    _ => {},
                }
                assert(resume(self, st0, s0, fu as int) == dfs_visit(self, rt, s0, fu));
            }
        }
        loop
            invariant_except_break
                walk_inv(self, rt, stack_view(stack@), strs(entered@), strs(done@), strs(out@)),
                rt == root@,
                forall|x: Seq<char>| strs(entered@).contains(x) ==> self.reaches(rt, x),
                load_order_outcome(self, rt) == resume(
                    self,
                    stack_view(stack@),
                    dfs_state(strs(entered@), strs(done@), strs(out@)),
                    self.walk_fuel(rt) as int,
                ),
            ensures
                walk_inv(self, rt, stack_view(stack@), strs(entered@), strs(done@), strs(out@)),
                stack@.len() == 0,
                rt == root@,
                forall|x: Seq<char>| strs(entered@).contains(x) ==> self.reaches(rt, x),
                load_order_outcome(self, rt) == resume(
                    self,
                    stack_view(stack@),
                    dfs_state(strs(entered@), strs(done@), strs(out@)),
                    self.walk_fuel(rt) as int,
                ),
            decreases self.universe(rt).len() - entered@.len(), stack_work(self, stack_view(stack@)),
        {
            if stack.len() == 0 {
                break;
            }
            let ghost sv = stack_view(stack@);
            let ghost en = strs(entered@);
            let ghost dn = strs(done@);
            let ghost ov = strs(out@);
            proof {
                lemma_walk_top(self, rt, sv, en, dn, ov);
            }
            let top = stack.len() - 1;
            let cur = stack[top].0.clone();
            let idx = stack[top].1;
            let ghost cv = cur@;
            assert(sv.last() == (cv, idx as int));
            let deps_opt = self.deps_of(cur.as_str());
            let finished = match deps_opt {
                None => true,
                Some(deps) => idx >= deps.len(),
            };
            if finished {
                // every dependency examined: the module is done and goes to the output
                proof {
                    lemma_walk_finish(self, rt, sv, en, dn, ov);
                    lemma_resume_finish(self, sv, dfs_state(en, dn, ov), self.walk_fuel(rt) as int);
                }
                done.push(cur.clone());
                out.push(cur);
                stack.pop();
                proof {
                    assert(strs(done@) =~= dn.push(cv));
                    assert(strs(out@) =~= ov.push(cv));
                    assert(stack_view(stack@) =~= sv.drop_last());
                }
            } else {
                let deps = match deps_opt {
                    Some(d) => d,
                    None => {
                        return Err("dependency cycle detected");
                    },
                };
                let dep = deps[idx].clone();
                let ghost dv = dep@;
                assert(dv == next_dep(self, sv));
                stack.set(top, (cur, idx + 1));
                assert(stack_view(stack@) =~= stepped(sv));
                if contains_string(&done, &dep) {
                    // done already: passed over
                    proof {
                        lemma_walk_skip(self, rt, sv, en, dn, ov);
                        lemma_resume_skip(self, sv, dfs_state(en, dn, ov), self.walk_fuel(rt) as int);
                    }
                } else if contains_string(&entered, &dep) {
                    // being walked: the dependencies loop
                    proof {
                        lemma_walk_cycle(self, rt, sv, en, dn, ov);
                        lemma_resume_cycle(self, sv, dfs_state(en, dn, ov), self.walk_fuel(rt) as int);
                    }
                    return Err("dependency cycle detected");
                } else if self.is_builtin(dep.as_str()) {
                    proof {
                        lemma_walk_enter_builtin(self, rt, sv, en, dn, ov);
                        lemma_resume_builtin(self, sv, dfs_state(en, dn, ov), self.walk_fuel(rt) as int);
                    }
                    entered.push(dep.clone());
                    done.push(dep);
                    proof {
                        assert(strs(entered@) =~= en.push(dv));
                        assert(strs(done@) =~= dn.push(dv));
                        self.lemma_reach_entered(rt, en, sv, dv);
                    }
                } else {
                    proof {
                        lemma_walk_enter(self, rt, sv, en, dn, ov);
                        lemma_stack_len(self, rt, sv, en, dn, ov);
                        lemma_resume_enter(self, sv, dfs_state(en, dn, ov), self.walk_fuel(rt) as int);
                    }
                    entered.push(dep.clone());
                    stack.push((dep, 0));
                    proof {
                        assert(strs(entered@) =~= en.push(dv));
                        self.lemma_reach_entered(rt, en, sv, dv);
                        assert(stack_view(stack@) =~= stepped(sv).push((dv, 0int)));
                    }
                }
            }
        }
        proof {
            assert(stack_view(stack@) =~= Seq::<(Seq<char>, int)>::empty());
            lemma_walk_end(self, rt, strs(entered@), strs(done@), strs(out@));
            assert forall|i: int| 0 <= i < out@.len() implies self.reaches(rt, #[trigger] strs(out@)[i]) by {
                assert(strs(out@).contains(strs(out@)[i]));
            }
        }
        Ok(out)
    }

    /// Entering a dependency of the module on top of the walk keeps every entered module
    /// one that loading `rt` may need.
    proof fn lemma_reach_entered(&self, rt: Seq<char>, en: Seq<Seq<char>>, st: Seq<(Seq<char>, int)>, d: Seq<char>)
        requires
            forall|x: Seq<char>| en.contains(x) ==> self.reaches(rt, x),
            st.len() > 0,
            en.contains(st.last().0),
            !self.builtin_set().contains(st.last().0),
            0 <= st.last().1 < self.dep_list(st.last().0).len(),
            d == self.dep_list(st.last().0)[st.last().1],
        ensures
            forall|x: Seq<char>| en.push(d).contains(x) ==> self.reaches(rt, x),
    {
        let y = st.last().0;
        assert(self.reaches(rt, y));
        let p = choose|p: Seq<Seq<char>>| #[trigger] self.is_dep_walk(rt, p) && p.last() == y;
        let q = p.push(d);
        assert(self.dep_list(y).contains(d));
        assert forall|k: int| 0 <= k < q.len() - 1 implies !self.builtin_set().contains(#[trigger] q[k])
            && self.dep_list(q[k]).contains(q[k + 1]) by {
            if k < p.len() - 1 {
                assert(q[k] == p[k] && q[k + 1] == p[k + 1]);
            } else {
                assert(q[k] == y && q[k + 1] == d);
            }
        }
        assert(self.is_dep_walk(rt, q));
        assert(q.last() == d);
        assert forall|x: Seq<char>| en.push(d).contains(x) implies self.reaches(rt, x) by {
            vstd::seq_lib::lemma_seq_contains_after_push(en, d, x);
        }
    }

    proof fn lemma_path_descends(
        &self,
        order: Seq<Seq<char>>,
        p: Seq<Seq<char>>,
        a: int,
        i: int,
        b: int,
    )
        requires
            self.deps_first(order),
            forall|k: int|
                0 <= k < p.len() - 1 ==> self.dep_list(#[trigger] p[k]).contains(p[k + 1]),
            forall|k: int| 0 <= k < p.len() ==> !self.builtin_set().contains(#[trigger] p[k]),
            0 <= a <= b < p.len(),
            0 <= i < order.len(),
            order[i] == p[a],
        ensures
            exists|i2: int| 0 <= i2 <= i - (b - a) && order[i2] == p[b],
        decreases b - a,
    {
        if a < b {
            let ds = self.dep_list(p[a]);
            assert(ds.contains(p[a + 1]));
            let j = choose|j: int| 0 <= j < ds.len() && ds[j] == p[a + 1];
            assert(!self.builtin_set().contains(p[a + 1]));
            assert(!self.builtin_set().contains(self.dep_list(order[i])[j]));
            let k = choose|k: int| 0 <= k < i && #[trigger] order[k] == self.dep_list(order[i])[j];
            self.lemma_path_descends(order, p, a + 1, k, b);
        } else {
            assert(order[i] == p[b]);
        }
    }

    /// A load order for `root` rules out a cycle reachable from `root`: with
    /// `resolve_load_order`'s contract, the walk fails exactly when the dependencies of
    /// `root` loop.
    pub proof fn lemma_load_order_acyclic(&self, root: Seq<char>, order: Seq<Seq<char>>)
        requires
            self.is_load_order(root, order),
        ensures
            !self.has_cycle_from(root),
    {
        if self.has_cycle_from(root) {
            let p = choose|p: Seq<Seq<char>>|
                {
                    &&& p.len() >= 2
                    &&& p[0] == root
                    &&& forall|k: int|
                        0 <= k < p.len() - 1 ==> !self.builtin_set().contains(#[trigger] p[k])
                            && self.dep_list(p[k]).contains(p[k + 1])
                    &&& exists|k: int| 0 <= k < p.len() - 1 && p[k] == p.last()
                };
            let c = choose|k: int| 0 <= k < p.len() - 1 && p[k] == p.last();
            let n = p.len();
            assert forall|k: int| 0 <= k < p.len() implies !self.builtin_set().contains(
                #[trigger] p[k],
            ) by {
                if k == n - 1 {
                    assert(!self.builtin_set().contains(p[c]));
                }
            }
            assert forall|k: int| 0 <= k < p.len() - 1 implies self.dep_list(
                #[trigger] p[k],
            ).contains(p[k + 1]) by {}
            let top = order.len() - 1;
            self.lemma_path_descends(order, p, 0, top, c);
            let ic = choose|i2: int| 0 <= i2 <= top - c && order[i2] == p[c];
            self.lemma_path_descends(order, p, c, ic, n - 1);
            let il = choose|i2: int| 0 <= i2 <= ic - (n - 1 - c) && order[i2] == p[n - 1];
            assert(order[il] == order[ic] && il != ic);
        }
    }

    /// An empty database.
    pub fn new() -> (r: Self)
        ensures
            r.deps_map() == Map::<Seq<char>, Seq<Seq<char>>>::empty(),
            r.paths_map() == Map::<Seq<char>, Seq<char>>::empty(),
            r.builtin_set() == Set::<Seq<char>>::empty(),
    {
        let r = ModulesInfo { deps: Vec::new(), builtin: Vec::new(), paths: Vec::new() };
        assert(r.deps_map() =~= Map::<Seq<char>, Seq<Seq<char>>>::empty());
        assert(r.paths_map() =~= Map::<Seq<char>, Seq<char>>::empty());
        assert(r.builtin_set() =~= Set::<Seq<char>>::empty());
        r
    }
}

} // verus!
