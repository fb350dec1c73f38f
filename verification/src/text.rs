//! Character-level text handling: whitespace, trimming, searching and line
//! splitting, each as a function on `Seq<char>` with an executable
//! counterpart on `&[char]`.

use vstd::prelude::*;
use vstd::slice::slice_subrange;

verus! {

/// `String::push` appends one character to the end of the string.
pub assume_specification[ String::push ](s: &mut String, ch: char)
    ensures
        final(s)@ == old(s)@.push(ch),
;

/// The code points that carry the Unicode `White_Space` property.
pub open spec fn is_whitespace(c: char) -> bool {
    let n: u32 = c as u32;
    ||| (0x09 <= n && n <= 0x0d)
    ||| n == 0x20
    ||| n == 0x85
    ||| n == 0xa0
    ||| n == 0x1680
    ||| (0x2000 <= n && n <= 0x200a)
    ||| n == 0x2028
    ||| n == 0x2029
    ||| n == 0x202f
    ||| n == 0x205f
    ||| n == 0x3000
}

/// `s` without its leading whitespace.
pub open spec fn trim_start(s: Seq<char>) -> Seq<char>
    decreases s.len(),
{
    if s.len() > 0 && is_whitespace(s.first()) {
        trim_start(s.drop_first())
    } else {
        s
    }
}

/// `s` without its trailing whitespace.
pub open spec fn trim_end(s: Seq<char>) -> Seq<char>
    decreases s.len(),
{
    if s.len() > 0 && is_whitespace(s.last()) {
        trim_end(s.drop_last())
    } else {
        s
    }
}

/// `s` without its leading and trailing whitespace.
pub open spec fn trim(s: Seq<char>) -> Seq<char> {
    trim_end(trim_start(s))
}

/// A sequence that neither begins nor ends with whitespace.
pub open spec fn is_trimmed(s: Seq<char>) -> bool {
    s.len() == 0 || (!is_whitespace(s.first()) && !is_whitespace(s.last()))
}

/// The index of the first `c` in `s`, or `s.len()` when `s` holds none.
pub open spec fn find(s: Seq<char>, c: char) -> nat
    decreases s.len(),
{
    if s.len() == 0 || s.first() == c {
        0
    } else {
        1 + find(s.drop_first(), c)
    }
}

/// The index of the last `c` in `s`, or `-1` when `s` holds none.
pub open spec fn rfind(s: Seq<char>, c: char) -> int
    decreases s.len(),
{
    if s.len() == 0 {
        -1
    } else if s.last() == c {
        s.len() - 1
    } else {
        rfind(s.drop_last(), c)
    }
}

/// The lines of `text`: the pieces between line feeds. A line feed ends a
/// line, so a text that ends with one has no empty last line.
pub open spec fn lines(text: Seq<char>) -> Seq<Seq<char>>
    decreases text.len(),
{
    if text.len() == 0 {
        Seq::empty()
    } else {
        let n: nat = find(text, '\n');
        if n < text.len() {
            seq![text.take(n as int)] + lines(text.skip(n as int + 1))
        } else {
            seq![text]
        }
    }
}

/// The character sequences that a sequence of slices stands for.
pub open spec fn slice_views(v: Seq<&[char]>) -> Seq<Seq<char>> {
    v.map_values(|s: &[char]| s@)
}

/// The character sequences that a sequence of strings stands for.
pub open spec fn string_views(v: Seq<String>) -> Seq<Seq<char>> {
    v.map_values(|s: String| s@)
}

/// `find` is the position before which no `c` stands and at which, if it is
/// inside `s`, a `c` stands.
pub proof fn lemma_find(s: Seq<char>, c: char)
    ensures
        find(s, c) <= s.len(),
        forall|i: int| 0 <= i < find(s, c) ==> s[i] != c,
        find(s, c) < s.len() ==> s[find(s, c) as int] == c,
    decreases s.len(),
{
    if s.len() == 0 || s.first() == c {
    } else {
        let t = s.drop_first();
        lemma_find(t, c);
        assert forall|i: int| 0 <= i < find(s, c) implies s[i] != c by {
            if i > 0 {
                assert(s[i] == t[i - 1]);
            }
        }
        assert(find(t, c) < t.len() ==> s[find(s, c) as int] == t[find(t, c) as int]);
    }
}

/// Any position with the two properties of `find` is `find`.
pub proof fn lemma_find_is(s: Seq<char>, c: char, k: int)
    requires
        0 <= k <= s.len(),
        forall|i: int| 0 <= i < k ==> s[i] != c,
        k < s.len() ==> s[k] == c,
    ensures
        find(s, c) == k,
    decreases s.len(),
{
    if s.len() == 0 || s.first() == c {
    } else {
        let t = s.drop_first();
        assert forall|i: int| 0 <= i < k - 1 implies t[i] != c by {
            assert(t[i] == s[i + 1]);
        }
        lemma_find_is(t, c, k - 1);
    }
}

/// A position after which no `c` stands and at which, if it is inside `s`,
/// a `c` stands, is `rfind`.
pub proof fn lemma_rfind_is(s: Seq<char>, c: char, k: int)
    requires
        -1 <= k < s.len(),
        forall|i: int| k < i < s.len() ==> s[i] != c,
        k >= 0 ==> s[k] == c,
    ensures
        rfind(s, c) == k,
    decreases s.len(),
{
    if s.len() == 0 || s.last() == c {
    } else {
        lemma_rfind_is(s.drop_last(), c, k);
    }
}

/// Trimming leaves a trimmed sequence as it is.
pub proof fn lemma_trim_of_trimmed(s: Seq<char>)
    requires
        is_trimmed(s),
    ensures
        trim(s) == s,
{
}

/// Whitespace in front of a sequence does not change what trimming leaves.
pub proof fn lemma_trim_leading(c: char, s: Seq<char>)
    requires
        is_whitespace(c),
    ensures
        trim(seq![c] + s) == trim(s),
{
    assert((seq![c] + s).drop_first() =~= s);
}

/// Whitespace behind a trimmed, non-empty sequence is what trimming removes.
pub proof fn lemma_trim_trailing(s: Seq<char>, c: char)
    requires
        is_whitespace(c),
        is_trimmed(s),
        s.len() > 0,
    ensures
        trim(s + seq![c]) == s,
{
    let t = s + seq![c];
    assert(t.first() == s.first());
    assert(trim_start(t) == t);
    assert(t.drop_last() =~= s);
    assert(trim_end(s) == s);
    assert(trim_end(t) == trim_end(t.drop_last()));
}

/// The first `c` of `a + b` is the first `c` of `a`, or else that of `b`.
pub proof fn lemma_find_concat(a: Seq<char>, b: Seq<char>, c: char)
    ensures
        find(a + b, c) == if find(a, c) < a.len() {
            find(a, c)
        } else {
            a.len() + find(b, c)
        },
{
    lemma_find(a, c);
    lemma_find(b, c);
    let k: int = if find(a, c) < a.len() {
        find(a, c) as int
    } else {
        (a.len() + find(b, c)) as int
    };
    assert forall|i: int| 0 <= i < k implies (a + b)[i] != c by {
        if i < a.len() {
            assert((a + b)[i] == a[i]);
        } else {
            assert((a + b)[i] == b[i - a.len()]);
        }
    }
    if k < (a + b).len() {
        if k < a.len() {
            assert((a + b)[k] == a[k]);
        } else {
            assert((a + b)[k] == b[k - a.len()]);
        }
    }
    lemma_find_is(a + b, c, k);
}

/// A sequence without `c` has its `find` at its end.
pub proof fn lemma_find_absent(s: Seq<char>, c: char)
    requires
        !s.contains(c),
    ensures
        find(s, c) == s.len(),
{
    lemma_find(s, c);
    if find(s, c) < s.len() {
        assert(s.contains(s[find(s, c) as int]));
    }
}

/// One more line written behind a text of whole lines is one more line of
/// the text.
pub proof fn lemma_lines_push(a: Seq<char>, l: Seq<char>)
    requires
        a.len() == 0 || a.last() == '\n',
        !l.contains('\n'),
    ensures
        lines(a + l + seq!['\n']) == lines(a).push(l),
    decreases a.len(),
{
    let tail = l + seq!['\n'];
    let text = a + l + seq!['\n'];
    assert(text =~= a + tail);
    lemma_find_absent(l, '\n');
    lemma_find_concat(l, seq!['\n'], '\n');
    assert(find(tail, '\n') == l.len());
    if a.len() == 0 {
        assert(text =~= tail);
        assert(tail.take(l.len() as int) =~= l);
        assert(tail.skip(l.len() as int + 1) =~= Seq::<char>::empty());
        assert(lines(Seq::<char>::empty()) =~= Seq::<Seq<char>>::empty());
        assert(lines(tail) =~= seq![tail.take(l.len() as int)] + lines(
            tail.skip(l.len() as int + 1),
        ));
        assert(lines(tail) =~= seq![l]);
        assert(lines(a).push(l) =~= seq![l]);
    } else {
        lemma_find(a, '\n');
        let n = find(a, '\n') as int;
        assert(n < a.len());
        lemma_find_concat(a, tail, '\n');
        let rest = a.skip(n + 1);
        assert(text.take(n) =~= a.take(n));
        assert(text.skip(n + 1) =~= rest + l + seq!['\n']);
        if rest.len() > 0 {
            assert(rest.last() == a.last());
        }
        lemma_lines_push(rest, l);
        assert(seq![a.take(n)] + lines(rest).push(l) =~= (seq![a.take(n)] + lines(rest)).push(l));
    }
}

/// No line holds a line feed.
pub proof fn lemma_lines_hold_no_line_feed(text: Seq<char>)
    ensures
        forall|i: int| 0 <= i < lines(text).len() ==> !(#[trigger] lines(text)[i]).contains('\n'),
    decreases text.len(),
{
    if text.len() > 0 {
        lemma_find(text, '\n');
        let n = find(text, '\n') as int;
        if n < text.len() {
            let rest = lines(text.skip(n + 1));
            lemma_lines_hold_no_line_feed(text.skip(n + 1));
            assert forall|i: int| 0 <= i < lines(text).len() implies !(#[trigger] lines(
                text,
            )[i]).contains('\n') by {
                if i > 0 {
                    assert(lines(text)[i] == rest[i - 1]);
                }
            }
        }
    }
}

/// What trimming leaves is trimmed, and is made of characters of the
/// sequence that was trimmed.
pub proof fn lemma_trim(s: Seq<char>)
    ensures
        is_trimmed(trim(s)),
        forall|c: char| trim(s).contains(c) ==> s.contains(c),
{
    lemma_trim_start(s);
    lemma_trim_end(trim_start(s));
}

/// What `trim_start` leaves does not begin with whitespace, and is made of
/// characters of `s`.
proof fn lemma_trim_start(s: Seq<char>)
    ensures
        trim_start(s).len() == 0 || !is_whitespace(trim_start(s).first()),
        forall|c: char| trim_start(s).contains(c) ==> s.contains(c),
    decreases s.len(),
{
    if s.len() > 0 && is_whitespace(s.first()) {
        let t = s.drop_first();
        lemma_trim_start(t);
        assert forall|c: char| trim_start(s).contains(c) implies s.contains(c) by {
            assert(trim_start(t).contains(c));
            assert(t.contains(c));
            let i = choose|i: int| 0 <= i < t.len() && t[i] == c;
            assert(s[i + 1] == c);
        }
    }
}

/// What `trim_end` leaves does not end with whitespace, begins as `s` does,
/// and is made of characters of `s`.
proof fn lemma_trim_end(s: Seq<char>)
    ensures
        trim_end(s).len() == 0 || !is_whitespace(trim_end(s).last()),
        trim_end(s).len() > 0 ==> trim_end(s).first() == s.first(),
        forall|c: char| trim_end(s).contains(c) ==> s.contains(c),
    decreases s.len(),
{
    if s.len() > 0 && is_whitespace(s.last()) {
        let t = s.drop_last();
        lemma_trim_end(t);
        assert forall|c: char| trim_end(s).contains(c) implies s.contains(c) by {
            assert(trim_end(t).contains(c));
            assert(t.contains(c));
            let i = choose|i: int| 0 <= i < t.len() && t[i] == c;
            assert(s[i] == c);
        }
    }
}

/// Whether `c` is whitespace.
pub fn whitespace(c: char) -> (r: bool)
    ensures
        r == is_whitespace(c),
{
    let n: u32 = c as u32;
    (0x09 <= n && n <= 0x0d) || n == 0x20 || n == 0x85 || n == 0xa0 || n == 0x1680 || (0x2000 <= n
        && n <= 0x200a) || n == 0x2028 || n == 0x2029 || n == 0x202f || n == 0x205f || n
        == 0x3000
}

/// The part of `s` between its leading and its trailing whitespace.
pub fn trimmed<'a>(s: &'a [char]) -> (r: &'a [char])
    ensures
        r@ == trim(s@),
{
    let n: usize = s.len();
    let mut a: usize = 0;
    assert(s@.subrange(0, n as int) =~= s@);
    while a < n && whitespace(s[a])
        invariant
            a <= n,
            n == s@.len(),
            trim_start(s@.subrange(a as int, n as int)) == trim_start(s@),
        decreases n - a,
    {
        assert(s@.subrange(a as int, n as int).drop_first() =~= s@.subrange(a + 1, n as int));
        a += 1;
    }
    let mut b: usize = n;
    while b > a && whitespace(s[b - 1])
        invariant
            a <= b <= n,
            n == s@.len(),
            trim_end(s@.subrange(a as int, b as int)) == trim_end(s@.subrange(a as int, n as int)),
        decreases b - a,
    {
        assert(s@.subrange(a as int, b as int).drop_last() =~= s@.subrange(a as int, b - 1));
        b -= 1;
    }
    slice_subrange(s, a, b)
}

/// The index of the first `c` in `s`, or the length of `s`.
pub fn position(s: &[char], c: char) -> (r: usize)
    ensures
        r == find(s@, c),
{
    let mut k: usize = 0;
    while k < s.len() && s[k] != c
        invariant
            k <= s@.len(),
            forall|i: int| 0 <= i < k ==> s@[i] != c,
        decreases s@.len() - k,
    {
        k += 1;
    }
    proof {
        lemma_find_is(s@, c, k as int);
    }
    k
}

/// The index of the last `c` in `s`, if `s` holds one.
pub fn last_position(s: &[char], c: char) -> (r: Option<usize>)
    ensures
        match r {
            Some(k) => rfind(s@, c) == k && k < s@.len(),
            None => rfind(s@, c) == -1,
        },
{
    let mut k: usize = s.len();
    while k > 0 && s[k - 1] != c
        invariant
            k <= s@.len(),
            forall|i: int| k <= i < s@.len() ==> s@[i] != c,
        decreases k,
    {
        k -= 1;
    }
    proof {
        lemma_rfind_is(s@, c, k - 1);
    }
    if k == 0 {
        None
    } else {
        Some(k - 1)
    }
}

/// Whether two slices hold the same characters.
pub fn same_chars(a: &[char], b: &[char]) -> (r: bool)
    ensures
        r == (a@ == b@),
{
    if a.len() != b.len() {
        return false;
    }
    let mut k: usize = 0;
    while k < a.len()
        invariant
            k <= a@.len(),
            a@.len() == b@.len(),
            forall|i: int| 0 <= i < k ==> a@[i] == b@[i],
        decreases a@.len() - k,
    {
        if a[k] != b[k] {
            return false;
        }
        k += 1;
    }
    assert(a@ =~= b@);
    true
}

/// The characters of `text`, one by one.
pub fn chars_of(text: &str) -> (v: Vec<char>)
    ensures
        v@ == text@,
{
    let mut v: Vec<char> = Vec::new();
    let chars = text.chars();
    for c in it: chars
        invariant
            v@ == it.seq().take(it.index() as int),
            it.seq() == text@,
    {
        v.push(c);
    }
    v
}

/// The string made of the characters of `s`.
pub fn string_of(s: &[char]) -> (r: String)
    ensures
        r@ == s@,
{
    let mut r = String::new();
    let mut k: usize = 0;
    while k < s.len()
        invariant
            k <= s@.len(),
            r@ == s@.take(k as int),
        decreases s@.len() - k,
    {
        r.push(s[k]);
        assert(s@.take(k + 1) =~= s@.take(k as int).push(s@[k as int]));
        k += 1;
    }
    assert(s@.take(s@.len() as int) =~= s@);
    r
}

/// The lines of `s`, in order.
pub fn split_lines<'a>(s: &'a [char]) -> (r: Vec<&'a [char]>)
    ensures
        slice_views(r@) == lines(s@),
{
    let n: usize = s.len();
    let mut r: Vec<&'a [char]> = Vec::new();
    let mut pos: usize = 0;
    assert(s@.skip(0) =~= s@);
    while pos < n
        invariant
            pos <= n,
            n == s@.len(),
            slice_views(r@) + lines(s@.skip(pos as int)) == lines(s@),
        decreases n - pos,
    {
        let rest = slice_subrange(s, pos, n);
        let k = position(rest, '\n');
        proof {
            lemma_find(rest@, '\n');
        }
        let line = slice_subrange(rest, 0, k);
        let next: usize = if k < n - pos {
            pos + k + 1
        } else {
            n
        };
        let ghost before = slice_views(r@);
        r.push(line);
        proof {
            assert(rest@ =~= s@.skip(pos as int));
            assert(slice_views(r@) =~= before.push(line@));
            if k < rest@.len() {
                assert(rest@.skip(k + 1) =~= s@.skip(next as int));
            } else {
                assert(line@ =~= rest@);
                assert(lines(s@.skip(next as int)) =~= Seq::<Seq<char>>::empty());
            }
            assert(before.push(line@) + lines(s@.skip(next as int)) =~= before + lines(rest@));
        }
        pos = next;
    }
    assert(slice_views(r@) + lines(s@.skip(n as int)) =~= slice_views(r@));
    r
}

} // verus!
