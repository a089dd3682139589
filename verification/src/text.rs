//! Character-level helpers shared by the rest of the library.

use vstd::prelude::*;

verus! {

/// The characters of `s`, in order.
pub fn chars_of(s: &str) -> (v: Vec<char>)
    ensures
        v@ == s@,
{
    let mut v: Vec<char> = Vec::new();
    for c in it: s.chars()
        invariant
            it.seq() == s@,
            v@ == it.seq().take(it.index() as int),
    {
        v.push(c);
    }
    v
}

/// `String::push`: as its documentation states, the character is appended
/// at the end of the text.
#[verifier::external_body]
pub(crate) fn push_char(s: &mut String, c: char)
    ensures
        final(s)@ == old(s)@.push(c),
{
    s.push(c);
}

/// A `String` holding exactly the characters of `v`.
pub fn string_of(v: &Vec<char>) -> (s: String)
    ensures
        s@ == v@,
{
    let mut s = String::new();
    let mut i: usize = 0;
    while i < v.len()
        invariant
            i <= v.len(),
            s@ == v@.take(i as int),
        decreases v.len() - i,
    {
        push_char(&mut s, v[i]);
        i += 1;
        assert(v@.take(i as int) == v@.take((i - 1) as int).push(v@[i - 1]));
    }
    assert(v@.take(v.len() as int) == v@);
    s
}

} // verus!

verus! {

/// Unicode `White_Space`, the set `char::is_whitespace` answers for.
pub open spec fn is_white_space(c: char) -> bool {
    let u = c as u32;
    ||| 0x09 <= u && u <= 0x0D
    ||| u == 0x20
    ||| u == 0x85
    ||| u == 0xA0
    ||| u == 0x1680
    ||| 0x2000 <= u && u <= 0x200A
    ||| u == 0x2028
    ||| u == 0x2029
    ||| u == 0x202F
    ||| u == 0x205F
    ||| u == 0x3000
}

pub fn white_space(c: char) -> (b: bool)
    ensures
        b == is_white_space(c),
{
    let u = c as u32;
    (0x09 <= u && u <= 0x0D) || u == 0x20 || u == 0x85 || u == 0xA0 || u == 0x1680 || (0x2000
        <= u && u <= 0x200A) || u == 0x2028 || u == 0x2029 || u == 0x202F || u == 0x205F || u
        == 0x3000
}

/// `s` without its leading white space.
pub open spec fn trim_start(s: Seq<char>) -> Seq<char>
    decreases s.len(),
{
    if s.len() > 0 && is_white_space(s[0]) {
        trim_start(s.drop_first())
    } else {
        s
    }
}

/// `s` without its trailing white space.
pub open spec fn trim_end(s: Seq<char>) -> Seq<char>
    decreases s.len(),
{
    if s.len() > 0 && is_white_space(s.last()) {
        trim_end(s.drop_last())
    } else {
        s
    }
}

/// `str::trim`: white space removed at both ends.
pub open spec fn trim(s: Seq<char>) -> Seq<char> {
    trim_end(trim_start(s))
}

/// `v[from..to]` as a new vector.
pub fn slice_chars(v: &Vec<char>, from: usize, to: usize) -> (r: Vec<char>)
    requires
        from <= to <= v.len(),
    ensures
        r@ == v@.subrange(from as int, to as int),
{
    let mut r: Vec<char> = Vec::new();
    let mut k = from;
    while k < to
        invariant
            from <= k <= to <= v.len(),
            r@ == v@.subrange(from as int, k as int),
        decreases to - k,
    {
        r.push(v[k]);
        k += 1;
        assert(r@ =~= v@.subrange(from as int, k as int));
    }
    r
}

proof fn lemma_trim_start_skip(s: Seq<char>, i: int)
    requires
        0 <= i < s.len(),
        is_white_space(s[i]),
    ensures
        trim_start(s.subrange(i, s.len() as int)) == trim_start(s.subrange(i + 1, s.len() as int)),
{
    assert(s.subrange(i, s.len() as int).drop_first() =~= s.subrange(i + 1, s.len() as int));
}

proof fn lemma_trim_end_cut(s: Seq<char>, i: int, j: int)
    requires
        0 <= i < j <= s.len(),
        is_white_space(s[j - 1]),
    ensures
        trim_end(s.subrange(i, j)) == trim_end(s.subrange(i, j - 1)),
{
    assert(s.subrange(i, j).drop_last() =~= s.subrange(i, j - 1));
}

/// Bounds `(i, j)` with `v[i..j]` the trimmed text.
pub fn trim_bounds(v: &Vec<char>) -> (r: (usize, usize))
    ensures
        r.0 <= r.1 <= v.len(),
        v@.subrange(r.0 as int, r.1 as int) == trim(v@),
{
    let n = v.len();
    let mut i: usize = 0;
    assert(v@.subrange(0, n as int) =~= v@);
    while i < n && white_space(v[i])
        invariant
            i <= n == v.len(),
            trim_start(v@) == trim_start(v@.subrange(i as int, n as int)),
        decreases n - i,
    {
        proof {
            lemma_trim_start_skip(v@, i as int);
        }
        i += 1;
    }
    assert(trim_start(v@) == v@.subrange(i as int, n as int));
    let mut j: usize = n;
    while j > i && white_space(v[j - 1])
        invariant
            i <= j <= n == v.len(),
            trim_start(v@) == v@.subrange(i as int, n as int),
            trim(v@) == trim_end(v@.subrange(i as int, j as int)),
        decreases j,
    {
        proof {
            lemma_trim_end_cut(v@, i as int, j as int);
        }
        j -= 1;
    }
    (i, j)
}

/// `str::trim` on a character vector.
pub fn trim_chars(v: &Vec<char>) -> (r: Vec<char>)
    ensures
        r@ == trim(v@),
{
    let (i, j) = trim_bounds(v);
    slice_chars(v, i, j)
}

} // verus!

verus! {

/// `trim_start` keeps a suffix of its input.
pub proof fn lemma_trim_start_suffix(s: Seq<char>)
    ensures
        trim_start(s).len() <= s.len(),
        trim_start(s) == s.subrange(s.len() - trim_start(s).len(), s.len() as int),
    decreases s.len(),
{
    if s.len() > 0 && is_white_space(s[0]) {
        lemma_trim_start_suffix(s.drop_first());
        assert(trim_start(s) =~= s.subrange(s.len() - trim_start(s).len(), s.len() as int));
    } else {
        assert(s.subrange(0, s.len() as int) =~= s);
    }
}

/// `trim_end` keeps a prefix of its input.
pub proof fn lemma_trim_end_prefix(s: Seq<char>)
    ensures
        trim_end(s).len() <= s.len(),
        trim_end(s) == s.take(trim_end(s).len() as int),
    decreases s.len(),
{
    if s.len() > 0 && is_white_space(s.last()) {
        lemma_trim_end_prefix(s.drop_last());
        assert(trim_end(s) =~= s.take(trim_end(s).len() as int));
    } else {
        assert(s.take(s.len() as int) =~= s);
    }
}

/// `trim` keeps a contiguous piece of its input.
pub proof fn lemma_trim_piece(s: Seq<char>)
    ensures
        exists|i: int, j: int| 0 <= i <= j <= s.len() && trim(s) == s.subrange(i, j),
{
    lemma_trim_start_suffix(s);
    let t = trim_start(s);
    lemma_trim_end_prefix(t);
    let i = s.len() - t.len();
    let j = i + trim_end(t).len();
    assert(trim(s) =~= s.subrange(i, j));
}

} // verus!

verus! {

/// The words of `s` (maximal runs without white space) joined by single
/// spaces, as `split_whitespace().collect::<Vec<_>>().join(" ")` builds
/// them; the flag says a gap was seen after the last word.
pub open spec fn collapse_ws(s: Seq<char>) -> (Seq<char>, bool)
    decreases s.len(),
{
    if s.len() == 0 {
        (Seq::empty(), false)
    } else {
        let (out, gap) = collapse_ws(s.drop_last());
        let c = s.last();
        if is_white_space(c) {
            (out, out.len() > 0)
        } else if gap {
            (out.push(' ').push(c), false)
        } else {
            (out.push(c), false)
        }
    }
}

pub open spec fn joined_words(s: Seq<char>) -> Seq<char> {
    collapse_ws(s).0
}

/// `split_whitespace().join(" ")` on a character vector.
pub fn join_words(v: &Vec<char>) -> (r: Vec<char>)
    ensures
        r@ == joined_words(v@),
{
    let mut out: Vec<char> = Vec::new();
    let mut gap = false;
    let mut i: usize = 0;
    while i < v.len()
        invariant
            i <= v.len(),
            (out@, gap) == collapse_ws(v@.take(i as int)),
        decreases v.len() - i,
    {
        let c = v[i];
        assert(v@.take(i + 1).drop_last() =~= v@.take(i as int));
        if white_space(c) {
            gap = out.len() > 0;
        } else {
            if gap {
                out.push(' ');
            }
            out.push(c);
            gap = false;
        }
        i += 1;
    }
    assert(v@.take(v.len() as int) =~= v@);
    out
}

/// `p` occurs in `t` at position `k`.
pub open spec fn occurs_at(t: Seq<char>, p: Seq<char>, k: int) -> bool {
    0 <= k && k + p.len() <= t.len() && t.subrange(k, k + p.len()) == p
}

/// First occurrence of `p` in `t` at or after `k`.
pub open spec fn find_from(t: Seq<char>, p: Seq<char>, k: int) -> Option<int>
    decreases t.len() + 1 - k,
{
    if k < 0 || k + p.len() > t.len() {
        None
    } else if occurs_at(t, p, k) {
        Some(k)
    } else {
        find_from(t, p, k + 1)
    }
}

/// `str::find`: the first occurrence of `p` in `t`.
pub open spec fn find(t: Seq<char>, p: Seq<char>) -> Option<int> {
    find_from(t, p, 0)
}

/// Last occurrence of `p` in `t` at or before `k`.
pub open spec fn rfind_upto(t: Seq<char>, p: Seq<char>, k: int) -> Option<int>
    decreases k + 1,
{
    if k < 0 {
        None
    } else if occurs_at(t, p, k) {
        Some(k)
    } else {
        rfind_upto(t, p, k - 1)
    }
}

/// `str::rfind`: the last occurrence of `p` in `t`.
pub open spec fn rfind(t: Seq<char>, p: Seq<char>) -> Option<int> {
    rfind_upto(t, p, t.len() - p.len())
}

pub fn occurs_at_exec(t: &Vec<char>, p: &Vec<char>, k: usize) -> (b: bool)
    requires
        k + p.len() <= t.len(),
    ensures
        b == occurs_at(t@, p@, k as int),
{
    let mut j: usize = 0;
    while j < p.len()
        invariant
            j <= p.len(),
            k + p.len() <= t.len(),
            forall|m: int| 0 <= m < j ==> t@[k + m] == p@[m],
        decreases p.len() - j,
    {
        if t[k + j] != p[j] {
            assert(t@.subrange(k as int, k + p.len())[j as int] != p@[j as int]);
            return false;
        }
        j += 1;
    }
    assert(t@.subrange(k as int, k + p.len()) =~= p@);
    true
}

pub fn find_chars(t: &Vec<char>, p: &Vec<char>) -> (r: Option<usize>)
    ensures
        match r {
            Some(k) => find(t@, p@) == Some(k as int),
            None => find(t@, p@) is None,
        },
{
    if p.len() > t.len() {
        return None;
    }
    let mut k: usize = 0;
    loop
        invariant
            p.len() <= t.len(),
            k <= t.len() - p.len(),
            find(t@, p@) == find_from(t@, p@, k as int),
        decreases t.len() - p.len() - k,
    {
        if occurs_at_exec(t, p, k) {
            return Some(k);
        }
        if k == t.len() - p.len() {
            assert(find_from(t@, p@, k + 1) is None);
            return None;
        }
        k += 1;
    }
}

pub fn rfind_chars(t: &Vec<char>, p: &Vec<char>) -> (r: Option<usize>)
    ensures
        match r {
            Some(k) => rfind(t@, p@) == Some(k as int),
            None => rfind(t@, p@) is None,
        },
{
    if p.len() > t.len() {
        return None;
    }
    let mut k: usize = t.len() - p.len();
    loop
        invariant
            p.len() <= t.len(),
            k + p.len() <= t.len(),
            rfind(t@, p@) == rfind_upto(t@, p@, k as int),
        decreases k,
    {
        if occurs_at_exec(t, p, k) {
            return Some(k);
        }
        if k == 0 {
            assert(rfind_upto(t@, p@, -1) is None);
            return None;
        }
        k -= 1;
    }
}

/// `a` followed by `b`.
pub fn concat_chars(a: &Vec<char>, b: &Vec<char>) -> (r: Vec<char>)
    ensures
        r@ == a@ + b@,
{
    let mut r = slice_chars(a, 0, a.len());
    assert(a@.subrange(0, a.len() as int) =~= a@);
    let mut k: usize = 0;
    while k < b.len()
        invariant
            k <= b.len(),
            r@ == a@ + b@.take(k as int),
        decreases b.len() - k,
    {
        r.push(b[k]);
        k += 1;
        assert(r@ =~= a@ + b@.take(k as int));
    }
    assert(b@.take(b.len() as int) =~= b@);
    r
}

} // verus!

verus! {

/// A position `find_from` reports is a real occurrence, at or after `k`,
/// and nothing earlier from `k` on matches.
pub proof fn lemma_find_from_occurs(t: Seq<char>, p: Seq<char>, k: int)
    requires
        0 <= k,
    ensures
        find_from(t, p, k) matches Some(j) ==> occurs_at(t, p, j) && k <= j && forall|m: int|
            k <= m < j ==> !occurs_at(t, p, m),
        find_from(t, p, k) is None ==> forall|m: int| k <= m ==> !occurs_at(t, p, m),
    decreases t.len() + 1 - k,
{
    if k + p.len() <= t.len() && !occurs_at(t, p, k) {
        lemma_find_from_occurs(t, p, k + 1);
    }
}

/// A position `rfind_upto` reports is a real occurrence at or before `k`,
/// and nothing later up to `k` matches.
pub proof fn lemma_rfind_upto_occurs(t: Seq<char>, p: Seq<char>, k: int)
    ensures
        rfind_upto(t, p, k) matches Some(j) ==> occurs_at(t, p, j) && j <= k && forall|m: int|
            j < m <= k ==> !occurs_at(t, p, m),
        rfind_upto(t, p, k) is None ==> forall|m: int| m <= k ==> !occurs_at(t, p, m),
    decreases k + 1,
{
    if k >= 0 && !occurs_at(t, p, k) {
        lemma_rfind_upto_occurs(t, p, k - 1);
    }
}

} // verus!

verus! {

/// The decimal digit for `d < 10`.
pub open spec fn digit_char(d: nat) -> char {
    if d == 0 { '0' }
    else if d == 1 { '1' }
    else if d == 2 { '2' }
    else if d == 3 { '3' }
    else if d == 4 { '4' }
    else if d == 5 { '5' }
    else if d == 6 { '6' }
    else if d == 7 { '7' }
    else if d == 8 { '8' }
    else { '9' }
}

/// Decimal digits of `n`, most significant first, no leading zeros.
pub open spec fn digits_of(n: nat) -> Seq<char>
    decreases n,
{
    if n < 10 {
        seq![digit_char(n)]
    } else {
        digits_of(n / 10).push(digit_char(n % 10))
    }
}

/// How `i64::to_string` writes `n`: an optional minus sign, then the digits.
pub open spec fn decimal(n: int) -> Seq<char> {
    if n < 0 {
        seq!['-'] + digits_of((-n) as nat)
    } else {
        digits_of(n as nat)
    }
}

fn digit_exec(d: u64) -> (c: char)
    requires
        d < 10,
    ensures
        c == digit_char(d as nat),
{
    if d == 0 { '0' }
    else if d == 1 { '1' }
    else if d == 2 { '2' }
    else if d == 3 { '3' }
    else if d == 4 { '4' }
    else if d == 5 { '5' }
    else if d == 6 { '6' }
    else if d == 7 { '7' }
    else if d == 8 { '8' }
    else { '9' }
}

/// Appends the decimal digits of `m` to `out`.
fn push_digits(out: &mut Vec<char>, m: u64)
    ensures
        final(out)@ == old(out)@ + digits_of(m as nat),
{
    let mut rev: Vec<char> = Vec::new();
    let mut k = m;
    while k >= 10
        invariant
            digits_of(m as nat) == digits_of(k as nat) + rev@.reverse(),
        decreases k,
    {
        let d = k % 10;
        let c = digit_exec(d);
        proof {
            assert(digits_of(k as nat) == digits_of((k / 10) as nat).push(c));
            assert(rev@.push(c).reverse() =~= seq![c] + rev@.reverse());
            assert(digits_of((k / 10) as nat).push(c) + rev@.reverse() =~= digits_of(
                (k / 10) as nat,
            ) + rev@.push(c).reverse());
        }
        rev.push(c);
        k = k / 10;
    }
    let c = digit_exec(k);
    assert(digits_of(k as nat) == seq![c]);
    rev.push(c);
    assert(rev@.reverse() =~= seq![c] + rev@.drop_last().reverse());
    let ghost start = out@;
    let mut i = rev.len();
    while i > 0
        invariant
            i <= rev.len(),
            out@ == start + rev@.subrange(i as int, rev.len() as int).reverse(),
        decreases i,
    {
        i -= 1;
        out.push(rev[i]);
        assert(rev@.subrange(i as int, rev.len() as int).reverse() =~= rev@.subrange(
            i + 1,
            rev.len() as int,
        ).reverse().push(rev@[i as int]));
    }
    assert(rev@.subrange(0, rev.len() as int) =~= rev@);
}

/// `n.to_string()` for an `i64`, as characters.
pub fn decimal_chars(n: i64) -> (r: Vec<char>)
    ensures
        r@ == decimal(n as int),
{
    let mut out: Vec<char> = Vec::new();
    if n < 0 {
        out.push('-');
        let m: u64 = if n == i64::MIN {
            9223372036854775808u64
        } else {
            (-n) as u64
        };
        push_digits(&mut out, m);
    } else {
        push_digits(&mut out, n as u64);
    }
    out
}

} // verus!

verus! {

/// `p` is a prefix of `s`.
pub open spec fn has_prefix(s: Seq<char>, p: Seq<char>) -> bool {
    p.len() <= s.len() && s.take(p.len() as int) == p
}

/// `str::starts_with` for a string pattern.
pub fn starts_with(s: &str, p: &str) -> (b: bool)
    ensures
        b == has_prefix(s@, p@),
{
    let sv = chars_of(s);
    let pv = chars_of(p);
    if pv.len() > sv.len() {
        return false;
    }
    let mut i: usize = 0;
    while i < pv.len()
        invariant
            i <= pv.len() <= sv.len(),
            sv@ == s@,
            pv@ == p@,
            forall|k: int| 0 <= k < i ==> sv@[k] == pv@[k],
        decreases pv.len() - i,
    {
        if sv[i] != pv[i] {
            assert(s@.take(p@.len() as int)[i as int] != p@[i as int]);
            return false;
        }
        i += 1;
    }
    assert(s@.take(p@.len() as int) =~= p@);
    true
}

/// `a == b` for two strings.
pub fn same_text(a: &str, b: &str) -> (r: bool)
    ensures
        r == (a@ == b@),
{
    let av = chars_of(a);
    let bv = chars_of(b);
    if av.len() != bv.len() {
        return false;
    }
    let mut i: usize = 0;
    while i < av.len()
        invariant
            i <= av.len() == bv.len(),
            av@ == a@,
            bv@ == b@,
            forall|k: int| 0 <= k < i ==> av@[k] == bv@[k],
        decreases av.len() - i,
    {
        if av[i] != bv[i] {
            return false;
        }
        i += 1;
    }
    assert(av@ =~= bv@);
    true
}

} // verus!

verus! {

/// `char::is_ascii_alphanumeric`.
pub open spec fn is_ascii_alnum(c: char) -> bool {
    ('A' <= c && c <= 'Z') || ('a' <= c && c <= 'z') || ('0' <= c && c <= '9')
}

/// The ASCII letters and digits of `s`, in order.
pub open spec fn alnum_only(s: Seq<char>) -> Seq<char>
    decreases s.len(),
{
    if s.len() == 0 {
        s
    } else if is_ascii_alnum(s.last()) {
        alnum_only(s.drop_last()).push(s.last())
    } else {
        alnum_only(s.drop_last())
    }
}

/// Keeps only the ASCII letters and digits of `s`, so that the result
/// cannot break a query string.
pub fn keep_ascii_alnum(s: &str) -> (r: Vec<char>)
    ensures
        r@ == alnum_only(s@),
{
    let v = chars_of(s);
    let mut r: Vec<char> = Vec::new();
    let mut i: usize = 0;
    while i < v.len()
        invariant
            i <= v.len(),
            v@ == s@,
            r@ == alnum_only(v@.take(i as int)),
        decreases v.len() - i,
    {
        let c = v[i];
        proof {
            assert(v@.take(i + 1).drop_last() =~= v@.take(i as int));
        }
        if ('A' <= c && c <= 'Z') || ('a' <= c && c <= 'z') || ('0' <= c && c <= '9') {
            r.push(c);
        }
        i += 1;
    }
    assert(v@.take(v.len() as int) =~= v@);
    r
}

/// The first `n` characters of `s` (all of them when it is shorter).
pub fn take_chars(s: &str, n: usize) -> (r: Vec<char>)
    ensures
        r@ == if s@.len() <= n { s@ } else { s@.take(n as int) },
{
    let v = chars_of(s);
    if v.len() <= n {
        v
    } else {
        let r = slice_chars(&v, 0, n);
        assert(r@ =~= s@.take(n as int));
        r
    }
}

} // verus!
