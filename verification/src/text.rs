use vstd::prelude::*;
use vstd::string::*;

verus! {

/// The characters of `s`, in order.
pub fn chars_of(s: &str) -> (r: Vec<char>)
    ensures
        r@ == s@,
{
    let mut out: Vec<char> = Vec::new();
    for c in it: s.chars()
        invariant
            out@ == it.seq().take(it.index() as int),
            it.seq() == s@,
    {
        out.push(c);
    }
    out
}

/// An owned copy of `s`.
pub fn owned(s: &str) -> (r: String)
    ensures
        r@ == s@,
{
    String::from_str(s)
}

/// The characters `s[from..to]` as an owned string.
pub fn substring(s: &str, from: usize, to: usize) -> (r: String)
    requires
        from <= to <= s@.len(),
    ensures
        r@ == s@.subrange(from as int, to as int),
{
    String::from_str(s.substring_char(from, to))
}

/// Unicode `White_Space`, the set that `char::is_whitespace` tests.
pub open spec fn is_space(c: char) -> bool {
    let n = c as u32;
    (0x9 <= n <= 0xd) || n == 0x20 || n == 0x85 || n == 0xa0 || n == 0x1680 || (0x2000 <= n
        <= 0x200a) || n == 0x2028 || n == 0x2029 || n == 0x202f || n == 0x205f || n == 0x3000
}

pub fn is_space_char(c: char) -> (r: bool)
    ensures
        r == is_space(c),
{
    let n = c as u32;
    (0x9 <= n && n <= 0xd) || n == 0x20 || n == 0x85 || n == 0xa0 || n == 0x1680 || (0x2000 <= n
        && n <= 0x200a) || n == 0x2028 || n == 0x2029 || n == 0x202f || n == 0x205f || n == 0x3000
}

/// `s` without its leading white space.
pub open spec fn trim_start(s: Seq<char>) -> Seq<char>
    decreases s.len(),
{
    if s.len() > 0 && is_space(s[0]) {
        trim_start(s.drop_first())
    } else {
        s
    }
}

/// `s` without its trailing white space.
pub open spec fn trim_end(s: Seq<char>) -> Seq<char>
    decreases s.len(),
{
    if s.len() > 0 && is_space(s.last()) {
        trim_end(s.drop_last())
    } else {
        s
    }
}

/// `s` without leading and trailing white space, as `str::trim` gives it.
pub open spec fn trim(s: Seq<char>) -> Seq<char> {
    trim_end(trim_start(s))
}

/// `trim_start` removes exactly the leading white space: it gives the
/// suffix from `a`, where everything before `a` is white space and the
/// character at `a` (if any) is not.
pub proof fn lemma_trim_start_index(s: Seq<char>) -> (a: int)
    ensures
        0 <= a <= s.len(),
        trim_start(s) == s.subrange(a, s.len() as int),
        forall|m: int| 0 <= m < a ==> is_space(#[trigger] s[m]),
        a < s.len() ==> !is_space(s[a]),
    decreases s.len(),
{
    if s.len() > 0 && is_space(s[0]) {
        let a1 = lemma_trim_start_index(s.drop_first());
        assert(s.drop_first().subrange(a1, s.len() - 1) =~= s.subrange(a1 + 1, s.len() as int));
        assert forall|m: int| 0 <= m < a1 + 1 implies is_space(#[trigger] s[m]) by {
            if m > 0 {
                assert(s[m] == s.drop_first()[m - 1]);
            }
        }
        a1 + 1
    } else {
        assert(s.subrange(0, s.len() as int) =~= s);
        0
    }
}

/// `trim_end` removes exactly the trailing white space: it gives the prefix
/// up to `b`, where everything from `b` on is white space and the character
/// before `b` (if any) is not.
pub proof fn lemma_trim_end_index(s: Seq<char>) -> (b: int)
    ensures
        0 <= b <= s.len(),
        trim_end(s) == s.subrange(0, b),
        forall|m: int| b <= m < s.len() ==> is_space(#[trigger] s[m]),
        b > 0 ==> !is_space(s[b - 1]),
    decreases s.len(),
{
    if s.len() > 0 && is_space(s.last()) {
        let b1 = lemma_trim_end_index(s.drop_last());
        assert(s.drop_last().subrange(0, b1) =~= s.subrange(0, b1));
        assert forall|m: int| b1 <= m < s.len() implies is_space(#[trigger] s[m]) by {
            if m < s.len() - 1 {
                assert(s[m] == s.drop_last()[m]);
            }
        }
        b1
    } else {
        assert(s.subrange(0, s.len() as int) =~= s);
        s.len() as int
    }
}

/// `trim` removes exactly the leading and trailing white space: it gives
/// `s[a..b]`, where `s[..a]` and `s[b..]` are white space and, when it is
/// not empty, it starts and ends with a character that is not.
pub proof fn lemma_trim_bounds(s: Seq<char>) -> (ab: (int, int))
    ensures
        0 <= ab.0 <= ab.1 <= s.len(),
        trim(s) == s.subrange(ab.0, ab.1),
        forall|m: int| 0 <= m < ab.0 ==> is_space(#[trigger] s[m]),
        forall|m: int| ab.1 <= m < s.len() ==> is_space(#[trigger] s[m]),
        ab.0 < ab.1 ==> !is_space(s[ab.0]) && !is_space(s[ab.1 - 1]),
{
    let a = lemma_trim_start_index(s);
    let t = s.subrange(a, s.len() as int);
    let b1 = lemma_trim_end_index(t);
    assert(t.subrange(0, b1) =~= s.subrange(a, a + b1));
    assert forall|m: int| a + b1 <= m < s.len() implies is_space(#[trigger] s[m]) by {
        assert(s[m] == t[m - a]);
    }
    if b1 > 0 {
        assert(s[a + b1 - 1] == t[b1 - 1]);
    }
    (a, a + b1)
}

proof fn lemma_trim_start_skip(s: Seq<char>, i: int)
    requires
        0 <= i <= s.len(),
        forall|j: int| 0 <= j < i ==> is_space(s[j]),
    ensures
        trim_start(s) == trim_start(s.subrange(i, s.len() as int)),
    decreases i,
{
    if i > 0 {
        lemma_trim_start_skip(s.drop_first(), i - 1);
        assert(s.drop_first().subrange(i - 1, s.len() - 1) =~= s.subrange(i, s.len() as int));
    } else {
        assert(s.subrange(0, s.len() as int) =~= s);
    }
}

proof fn lemma_trim_end_take(s: Seq<char>, i: int)
    requires
        0 <= i <= s.len(),
        forall|j: int| i <= j < s.len() ==> is_space(s[j]),
    ensures
        trim_end(s) == trim_end(s.subrange(0, i)),
    decreases s.len() - i,
{
    if i < s.len() {
        lemma_trim_end_take(s.drop_last(), i);
        assert(s.drop_last().subrange(0, i) =~= s.subrange(0, i));
    } else {
        assert(s.subrange(0, i) =~= s);
    }
}

/// `s` with leading and trailing white space removed.
pub fn trim_str(s: &str) -> (r: String)
    ensures
        r@ == trim(s@),
{
    let cs = chars_of(s);
    let n = cs.len();
    let mut lo: usize = 0;
    while lo < n && is_space_char(cs[lo])
        invariant
            lo <= n,
            n == s@.len(),
            cs@ == s@,
            forall|j: int| 0 <= j < lo ==> is_space(s@[j]),
        decreases n - lo,
    {
        lo += 1;
    }
    proof {
        lemma_trim_start_skip(s@, lo as int);
    }
    let ghost rest = s@.subrange(lo as int, n as int);
    assert(lo < n ==> !is_space(rest[0]));
    assert(trim_start(rest) == rest);
    let mut hi: usize = n;
    while hi > lo && is_space_char(cs[hi - 1])
        invariant
            lo <= hi <= n,
            n == s@.len(),
            cs@ == s@,
            forall|j: int| hi <= j < n ==> is_space(s@[j]),
        decreases hi,
    {
        hi -= 1;
    }
    proof {
        lemma_trim_end_take(rest, hi - lo);
        assert(rest.subrange(0, hi - lo) =~= s@.subrange(lo as int, hi as int));
        let t = s@.subrange(lo as int, hi as int);
        assert(t.len() > 0 ==> t.last() == s@[hi - 1]);
    }
    substring(s, lo, hi)
}

/// The pieces of `s` between occurrences of `c`, as `str::split` yields them:
/// always one more piece than there are occurrences.
pub open spec fn split_on(s: Seq<char>, c: char) -> Seq<Seq<char>>
    decreases s.len(),
{
    if s.len() == 0 {
        seq![Seq::<char>::empty()]
    } else {
        let rest = split_on(s.drop_last(), c);
        if s.last() == c {
            rest.push(Seq::empty())
        } else {
            rest.update(rest.len() - 1, rest.last().push(s.last()))
        }
    }
}

pub proof fn lemma_split_on_len(s: Seq<char>, c: char)
    ensures
        split_on(s, c).len() >= 1,
    decreases s.len(),
{
    if s.len() > 0 {
        lemma_split_on_len(s.drop_last(), c);
    }
}

/// The pieces `ps` joined with `c` between each two.
pub open spec fn joined(ps: Seq<Seq<char>>, c: char) -> Seq<char>
    decreases ps.len(),
{
    if ps.len() <= 1 {
        if ps.len() == 1 {
            ps[0]
        } else {
            Seq::empty()
        }
    } else {
        joined(ps.drop_last(), c) + seq![c] + ps.last()
    }
}

/// Splitting on `c` gives pieces without `c` that, joined with `c`, give
/// the text back: the pieces are exactly the runs between occurrences of `c`.
pub proof fn law_split_on_joins_back(s: Seq<char>, c: char)
    ensures
        joined(split_on(s, c), c) == s,
        forall|i: int| 0 <= i < split_on(s, c).len() ==> !(#[trigger] split_on(s, c)[i]).contains(c),
    decreases s.len(),
{
    lemma_split_on_len(s, c);
    if s.len() > 0 {
        let rest = split_on(s.drop_last(), c);
        law_split_on_joins_back(s.drop_last(), c);
        lemma_split_on_len(s.drop_last(), c);
        let ps = split_on(s, c);
        if s.last() == c {
            assert(ps.drop_last() =~= rest);
            assert(joined(ps, c) =~= s.drop_last() + seq![c] + Seq::<char>::empty());
            assert(s.drop_last() + seq![c] =~= s);
            assert forall|i: int| 0 <= i < ps.len() implies !(#[trigger] ps[i]).contains(c) by {
                if i < rest.len() {
                    assert(ps[i] == rest[i]);
                }
            }
        } else {
            let x = s.last();
            let l = rest.last().push(x);
            assert(ps.last() == l);
            if rest.len() == 1 {
                assert(joined(ps, c) == l);
                assert(joined(rest, c) == rest[0]);
            } else {
                assert(ps.drop_last() =~= rest.drop_last());
                assert(joined(ps, c) == joined(rest.drop_last(), c) + seq![c] + l);
                assert(joined(rest, c) == joined(rest.drop_last(), c) + seq![c] + rest.last());
                assert(joined(rest.drop_last(), c) + seq![c] + l =~= (joined(rest.drop_last(), c)
                    + seq![c] + rest.last()).push(x));
            }
            assert(s.drop_last().push(x) =~= s);
            assert forall|i: int| 0 <= i < ps.len() implies !(#[trigger] ps[i]).contains(c) by {
                if i < rest.len() - 1 {
                    assert(ps[i] == rest[i]);
                } else {
                    assert(!rest[rest.len() - 1].contains(c));
                    if l.contains(c) {
                        let m = choose|m: int| 0 <= m < l.len() && l[m] == c;
                        if m < l.len() - 1 {
                            assert(rest.last()[m] == c);
                        }
                    }
                }
            }
        }
    }
}

/// The pieces of `s` between occurrences of `c`.
pub fn split_str(s: &str, c: char) -> (r: Vec<String>)
    ensures
        r@.len() == split_on(s@, c).len(),
        forall|i: int| 0 <= i < r@.len() ==> r@[i]@ == split_on(s@, c)[i],
{
    let cs = chars_of(s);
    let n = cs.len();
    let mut out: Vec<String> = Vec::new();
    let mut start: usize = 0;
    let mut i: usize = 0;
    assert(s@.take(0) =~= Seq::<char>::empty());
    while i < n
        invariant
            start <= i <= n,
            n == s@.len(),
            cs@ == s@,
            split_on(s@.take(i as int), c).len() == out@.len() + 1,
            forall|j: int| 0 <= j < out@.len() ==> out@[j]@ == split_on(s@.take(i as int), c)[j],
            split_on(s@.take(i as int), c).last() == s@.subrange(start as int, i as int),
        decreases n - i,
    {
        let ghost prev = split_on(s@.take(i as int), c);
        assert(s@.take(i + 1).drop_last() =~= s@.take(i as int));
        assert(s@.take(i + 1).last() == s@[i as int]);
        if cs[i] == c {
            let piece = substring(s, start, i);
            out.push(piece);
            start = i + 1;
        } else {
            assert(s@.subrange(start as int, i as int).push(s@[i as int]) =~= s@.subrange(
                start as int,
                i + 1,
            ));
        }
        i += 1;
    }
    assert(s@.take(n as int) =~= s@);
    let last = substring(s, start, n);
    out.push(last);
    out
}

/// `a` comes before `b` in lexicographic order of code points, which is the
/// order of `String`'s `Ord` (byte order of UTF-8).
pub open spec fn lex_lt(a: Seq<char>, b: Seq<char>) -> bool
    decreases a.len(),
{
    if a.len() == 0 {
        b.len() > 0
    } else if b.len() == 0 {
        false
    } else if a[0] != b[0] {
        a[0] < b[0]
    } else {
        lex_lt(a.drop_first(), b.drop_first())
    }
}

pub proof fn lemma_lex_irreflexive(a: Seq<char>)
    ensures
        !lex_lt(a, a),
    decreases a.len(),
{
    if a.len() > 0 {
        lemma_lex_irreflexive(a.drop_first());
    }
}

pub proof fn lemma_lex_transitive(a: Seq<char>, b: Seq<char>, c: Seq<char>)
    requires
        lex_lt(a, b),
        lex_lt(b, c),
    ensures
        lex_lt(a, c),
    decreases a.len(),
{
    if a.len() > 0 && b.len() > 0 && c.len() > 0 && a[0] == b[0] && b[0] == c[0] {
        lemma_lex_transitive(a.drop_first(), b.drop_first(), c.drop_first());
    }
}

pub proof fn lemma_lex_total(a: Seq<char>, b: Seq<char>)
    ensures
        a == b || lex_lt(a, b) || lex_lt(b, a),
    decreases a.len(),
{
    if a.len() > 0 && b.len() > 0 && a[0] == b[0] {
        lemma_lex_total(a.drop_first(), b.drop_first());
        if a.drop_first() == b.drop_first() {
            assert(a =~= seq![a[0]] + a.drop_first());
            assert(b =~= seq![b[0]] + b.drop_first());
        }
    } else if a.len() > 0 && b.len() > 0 {
    } else if a.len() == 0 && b.len() == 0 {
        assert(a =~= b);
    }
}

/// Whether `a` comes before `b` in code-point order.
pub fn lex_less(a: &Vec<char>, b: &Vec<char>) -> (r: bool)
    ensures
        r == lex_lt(a@, b@),
{
    let mut i: usize = 0;
    assert(a@.skip(0) =~= a@);
    assert(b@.skip(0) =~= b@);
    while i < a.len() && i < b.len()
        invariant
            i <= a.len(),
            i <= b.len(),
            forall|j: int| 0 <= j < i ==> a@[j] == b@[j],
            lex_lt(a@, b@) == lex_lt(a@.skip(i as int), b@.skip(i as int)),
        decreases a.len() - i,
    {
        let x = a[i];
        let y = b[i];
        if x != y {
            return x < y;
        }
        assert(a@.skip(i as int).drop_first() =~= a@.skip(i + 1));
        assert(b@.skip(i as int).drop_first() =~= b@.skip(i + 1));
        i += 1;
    }
    i < b.len() && i == a.len()
}

/// The views of a sequence of strings.
pub open spec fn strs(v: Seq<String>) -> Seq<Seq<char>> {
    v.map_values(|s: String| s@)
}

/// Strictly ascending in code-point order (hence without repetition).
pub open spec fn strictly_sorted(s: Seq<Seq<char>>) -> bool {
    forall|i: int, j: int| 0 <= i < j < s.len() ==> lex_lt(s[i], s[j])
}

/// The elements of the finite set `names` in ascending code-point order:
/// the order in which a `BTreeSet<String>` yields them.
pub open spec fn sorted_names(names: Set<Seq<char>>) -> Seq<Seq<char>> {
    choose|s: Seq<Seq<char>>| strictly_sorted(s) && s.to_set() == names
}

/// Two ascending sequences with the same elements are equal.
pub proof fn lemma_sorted_unique(s1: Seq<Seq<char>>, s2: Seq<Seq<char>>)
    requires
        strictly_sorted(s1),
        strictly_sorted(s2),
        s1.to_set() == s2.to_set(),
    ensures
        s1 == s2,
    decreases s1.len(),
{
    if s1.len() == 0 {
        if s2.len() > 0 {
            assert(s2.to_set().contains(s2[0]));
        }
        assert(s1 =~= s2);
    } else if s2.len() == 0 {
        assert(s1.to_set().contains(s1[0]));
    } else {
        assert(s2.to_set().contains(s1[0]));
        let k = choose|k: int| 0 <= k < s2.len() && s2[k] == s1[0];
        assert(s1.to_set().contains(s2[0]));
        let m = choose|m: int| 0 <= m < s1.len() && s1[m] == s2[0];
        if k > 0 && m > 0 {
            lemma_lex_transitive(s2[0], s1[0], s2[0]);
            lemma_lex_irreflexive(s2[0]);
        } else if k > 0 {
            lemma_lex_irreflexive(s1[0]);
        }
        assert(s1[0] == s2[0]);
        let t1 = s1.drop_first();
        let t2 = s2.drop_first();
        assert forall|x: Seq<char>| t1.to_set().contains(x) implies t2.to_set().contains(x) by {
            let i = choose|i: int| 0 <= i < t1.len() && t1[i] == x;
            assert(s1.to_set().contains(x));
            let j = choose|j: int| 0 <= j < s2.len() && s2[j] == x;
            if j == 0 {
                assert(lex_lt(s1[0], s1[i + 1]));
                lemma_lex_irreflexive(x);
            }
            assert(t2[j - 1] == x);
        }
        assert forall|x: Seq<char>| t2.to_set().contains(x) implies t1.to_set().contains(x) by {
            let i = choose|i: int| 0 <= i < t2.len() && t2[i] == x;
            assert(s2.to_set().contains(x));
            let j = choose|j: int| 0 <= j < s1.len() && s1[j] == x;
            if j == 0 {
                assert(lex_lt(s2[0], s2[i + 1]));
                lemma_lex_irreflexive(x);
            }
            assert(t1[j - 1] == x);
        }
        assert(t1.to_set() =~= t2.to_set());
        lemma_sorted_unique(t1, t2);
        assert(s1 =~= seq![s1[0]] + t1);
        assert(s2 =~= seq![s2[0]] + t2);
    }
}

/// An ascending sequence with the elements of `names` is `sorted_names(names)`.
pub proof fn lemma_sorted_names(s: Seq<Seq<char>>)
    requires
        strictly_sorted(s),
    ensures
        sorted_names(s.to_set()) == s,
{
    let c = sorted_names(s.to_set());
    assert(strictly_sorted(c) && c.to_set() == s.to_set());
    lemma_sorted_unique(c, s);
}

/// Insert `x` into the ascending `v` unless it is there already.
fn insert_sorted(v: &mut Vec<String>, cs: &mut Vec<Vec<char>>, x: String)
    requires
        strictly_sorted(strs(old(v)@)),
        old(v)@.len() == old(cs)@.len(),
        forall|i: int| 0 <= i < old(v)@.len() ==> old(cs)@[i]@ == old(v)@[i]@,
    ensures
        strictly_sorted(strs(final(v)@)),
        final(v)@.len() == final(cs)@.len(),
        forall|i: int| 0 <= i < final(v)@.len() ==> final(cs)@[i]@ == final(v)@[i]@,
        strs(final(v)@).to_set() == strs(old(v)@).to_set().insert(x@),
{
    let xc = chars_of(x.as_str());
    let ghost old_s = strs(v@);
    let mut i: usize = 0;
    while i < cs.len() && lex_less(&cs[i], &xc)
        invariant
            i <= cs.len(),
            v@.len() == cs@.len(),
            forall|k: int| 0 <= k < v@.len() ==> cs@[k]@ == v@[k]@,
            old_s == strs(v@),
            xc@ == x@,
            forall|k: int| 0 <= k < i ==> lex_lt(old_s[k], x@),
        decreases cs.len() - i,
    {
        i += 1;
    }
    if i < cs.len() {
        proof {
            lemma_lex_total(old_s[i as int], x@);
        }
        if v[i] == x {
            assert(old_s.to_set().insert(x@) =~= old_s.to_set());
            return;
        }
    }
    proof {
        if i < cs.len() {
            lemma_lex_total(old_s[i as int], x@);
            assert forall|k: int| i <= k < old_s.len() implies lex_lt(x@, old_s[k]) by {
                if k > i {
                    lemma_lex_transitive(x@, old_s[i as int], old_s[k]);
                }
            }
        }
    }
    v.insert(i, x);
    cs.insert(i, xc);
    proof {
        let ns = strs(v@);
        assert(ns =~= old_s.insert(i as int, x@));
        assert forall|a: int, b: int| 0 <= a < b < ns.len() implies lex_lt(ns[a], ns[b]) by {
            if b < i {
            } else if b == i {
            } else if a < i {
                lemma_lex_transitive(ns[a], x@, ns[b]);
            } else if a == i {
            } else {
            }
        }
        assert forall|y: Seq<char>| ns.to_set().contains(y) <==> old_s.to_set().insert(x@).contains(y) by {
            if ns.contains(y) {
                let k = choose|k: int| 0 <= k < ns.len() && ns[k] == y;
                if k < i {
                    assert(old_s[k] == y);
                } else if k > i {
                    assert(old_s[k - 1] == y);
                }
            }
            if old_s.contains(y) {
                let k = choose|k: int| 0 <= k < old_s.len() && old_s[k] == y;
                if k < i {
                    assert(ns[k] == y);
                } else {
                    assert(ns[k + 1] == y);
                }
            }
            if y == x@ {
                assert(ns[i as int] == y);
            }
        }
        assert(ns.to_set() =~= old_s.to_set().insert(x@));
    }
}

/// The distinct elements of `names` in ascending code-point order.
pub fn sort_unique(names: &Vec<String>) -> (r: Vec<String>)
    ensures
        strs(r@) == sorted_names(strs(names@).to_set()),
{
    let mut v: Vec<String> = Vec::new();
    let mut cs: Vec<Vec<char>> = Vec::new();
    let mut i: usize = 0;
    while i < names.len()
        invariant
            i <= names.len(),
            strictly_sorted(strs(v@)),
            v@.len() == cs@.len(),
            forall|k: int| 0 <= k < v@.len() ==> cs@[k]@ == v@[k]@,
            strs(v@).to_set() == strs(names@).take(i as int).to_set(),
        decreases names.len() - i,
    {
        let ghost before = strs(v@).to_set();
        insert_sorted(&mut v, &mut cs, names[i].clone());
        proof {
            let a = strs(names@).take(i as int);
            let y0 = names@[i as int]@;
            assert(strs(names@).take(i + 1) =~= a.push(y0));
            assert forall|y: Seq<char>| #[trigger] a.push(y0).to_set().contains(y) <==> a.to_set().insert(y0).contains(y) by {
                if a.push(y0).contains(y) {
                    let k = choose|k: int| 0 <= k < a.len() + 1 && a.push(y0)[k] == y;
                    if k < a.len() {
                        assert(a[k] == y);
                    }
                }
                if a.contains(y) {
                    let k = choose|k: int| 0 <= k < a.len() && a[k] == y;
                    assert(a.push(y0)[k] == y);
                }
                if y == y0 {
                    assert(a.push(y0)[a.len() as int] == y);
                }
            }
            assert(a.push(y0).to_set() =~= a.to_set().insert(y0));
        }
        i += 1;
    }
    proof {
        assert(strs(names@).take(i as int) =~= strs(names@));
        lemma_sorted_names(strs(v@));
    }
    v
}

/// The characters of the ASCII bytes `bs`.
pub open spec fn ascii_chars(bs: Seq<u8>) -> Seq<char> {
    bs.map_values(|b: u8| b as char)
}

/// Calls `String::from_utf8` on bytes that are all ASCII. Claimed (as std
/// documents for valid UTF-8): the string holds one character per byte.
#[verifier::external_body]
pub(crate) fn ascii_to_string(bytes: Vec<u8>) -> (r: String)
    requires
        forall|i: int| 0 <= i < bytes@.len() ==> bytes@[i] < 0x80,
    ensures
        r@ == ascii_chars(bytes@),
{
    match String::from_utf8(bytes) {
        Ok(s) => s,
        Err(_) => String::new(),
    }
}

/// What `str::to_lowercase` gives for a text.
pub uninterp spec fn lowercase(s: Seq<char>) -> Seq<char>;

/// Calls `str::to_lowercase`. Claimed: the result is the function
/// `lowercase` of the text.
#[verifier::external_body]
pub(crate) fn to_lower(s: &str) -> (r: String)
    ensures
        r@ == lowercase(s@),
{
    s.to_lowercase()
}

/// `s` ends with `suffix`.
pub open spec fn ends_with(s: Seq<char>, suffix: Seq<char>) -> bool {
    s.len() >= suffix.len() && s.subrange(s.len() - suffix.len(), s.len() as int) == suffix
}

/// Whether `s` ends with `suffix`.
pub fn str_ends_with(s: &str, suffix: &str) -> (r: bool)
    ensures
        r == ends_with(s@, suffix@),
{
    let a = chars_of(s);
    let b = chars_of(suffix);
    if a.len() < b.len() {
        return false;
    }
    let off = a.len() - b.len();
    let mut i: usize = 0;
    while i < b.len()
        invariant
            i <= b.len(),
            a@ == s@,
            b@ == suffix@,
            off + b.len() == a.len(),
            forall|k: int| 0 <= k < i ==> s@[off + k] == suffix@[k],
        decreases b.len() - i,
    {
        if a[off + i] != b[i] {
            assert(s@.subrange(off as int, s@.len() as int)[i as int] != suffix@[i as int]);
            return false;
        }
        i += 1;
    }
    assert(s@.subrange(off as int, s@.len() as int) =~= suffix@);
    true
}

} // verus!
