//! Small executable helpers on character vectors, the library's text
//! representation.

use vstd::prelude::*;

verus! {

/// Character-for-character equality of two character vectors.
pub fn chars_eq(a: &Vec<char>, b: &Vec<char>) -> (r: bool)
    ensures
        r == (a@ == b@),
{
    if a.len() != b.len() {
        assert(a@ != b@);
        return false;
    }
    let mut i: usize = 0;
    while i < a.len()
        invariant
            i <= a.len(),
            a.len() == b.len(),
            forall|j: int| 0 <= j < i ==> a@[j] == b@[j],
        decreases a.len() - i,
    {
        if a[i] != b[i] {
            assert(a@ != b@);
            return false;
        }
        i += 1;
    }
    assert(a@ =~= b@);
    true
}

/// The view of an optional character vector.
pub open spec fn opt_chars_view(o: Option<Vec<char>>) -> Option<Seq<char>> {
    match o {
        Some(v) => Some(v@),
        None => None,
    }
}

/// Equality of two optional character vectors, by contents.
pub fn opt_chars_eq(a: &Option<Vec<char>>, b: &Option<Vec<char>>) -> (r: bool)
    ensures
        r == (opt_chars_view(*a) == opt_chars_view(*b)),
{
    match (a, b) {
        (Some(x), Some(y)) => chars_eq(x, y),
        (None, None) => true,
        _ => false,
    }
}

/// An owned copy of a character vector, equal in contents.
pub fn copy_chars(a: &Vec<char>) -> (r: Vec<char>)
    ensures
        r@ == a@,
{
    let mut r: Vec<char> = Vec::new();
    let mut i: usize = 0;
    while i < a.len()
        invariant
            i <= a.len(),
            r@ == a@.subrange(0, i as int),
        decreases a.len() - i,
    {
        r.push(a[i]);
        i += 1;
        proof {
            assert(r@ =~= a@.subrange(0, i as int));
        }
    }
    proof {
        assert(a@.subrange(0, a.len() as int) =~= a@);
    }
    r
}

/// `t` begins with `p`.
pub open spec fn starts_with(t: Seq<char>, p: Seq<char>) -> bool {
    p.len() <= t.len() && t.subrange(0, p.len() as int) == p
}

/// `t` ends with `p`.
pub open spec fn ends_with(t: Seq<char>, p: Seq<char>) -> bool {
    p.len() <= t.len() && t.subrange(t.len() - p.len(), t.len() as int) == p
}

/// `p` matches `t` at offset `i`.
pub open spec fn sub_at(t: Seq<char>, p: Seq<char>, i: int) -> bool {
    t.subrange(i, i + p.len()) == p
}

/// `p` occurs in `t` as a contiguous run.
pub open spec fn contains_sub(t: Seq<char>, p: Seq<char>) -> bool {
    exists|i: int| 0 <= i <= t.len() - p.len() && #[trigger] sub_at(t, p, i)
}

/// The characters of `a` in positions `[from, to)`, as an owned vector.
pub fn sub_chars(a: &Vec<char>, from: usize, to: usize) -> (r: Vec<char>)
    requires
        from <= to <= a.len(),
    ensures
        r@ == a@.subrange(from as int, to as int),
{
    let mut r: Vec<char> = Vec::new();
    let mut i: usize = from;
    while i < to
        invariant
            from <= i <= to <= a.len(),
            r@ == a@.subrange(from as int, i as int),
        decreases to - i,
    {
        r.push(a[i]);
        i += 1;
        proof {
            assert(r@ =~= a@.subrange(from as int, i as int));
        }
    }
    r
}

/// `p` matches `t` at offset `off`.
pub(crate) fn matches_at(t: &Vec<char>, p: &Vec<char>, off: usize) -> (r: bool)
    requires
        off + p.len() <= t.len(),
    ensures
        r == (t@.subrange(off as int, off + p@.len()) == p@),
{
    let mut i: usize = 0;
    while i < p.len()
        invariant
            0 <= i <= p.len(),
            off + p.len() <= t.len(),
            forall|j: int| 0 <= j < i ==> t@[off + j] == p@[j],
        decreases p.len() - i,
    {
        if t[off + i] != p[i] {
            assert(t@.subrange(off as int, off + p@.len())[i as int] != p@[i as int]);
            return false;
        }
        i += 1;
    }
    proof {
        assert(t@.subrange(off as int, off + p@.len()) =~= p@);
    }
    true
}

/// Whether `t` begins with `p`.
pub fn chars_starts_with(t: &Vec<char>, p: &Vec<char>) -> (r: bool)
    ensures
        r == starts_with(t@, p@),
{
    if p.len() > t.len() {
        return false;
    }
    matches_at(t, p, 0)
}

/// Whether `t` ends with `p`.
pub fn chars_ends_with(t: &Vec<char>, p: &Vec<char>) -> (r: bool)
    ensures
        r == ends_with(t@, p@),
{
    if p.len() > t.len() {
        return false;
    }
    matches_at(t, p, t.len() - p.len())
}

/// Whether `p` occurs in `t` as a contiguous run.
pub fn chars_contains_sub(t: &Vec<char>, p: &Vec<char>) -> (r: bool)
    ensures
        r == contains_sub(t@, p@),
{
    if p.len() > t.len() {
        assert(!contains_sub(t@, p@));
        return false;
    }
    if p.len() == 0 {
        proof {
            assert(t@.subrange(0, 0) =~= p@);
            assert(sub_at(t@, p@, 0));
        }
        return true;
    }
    let mut i: usize = 0;
    while i <= t.len() - p.len()
        invariant
            0 <= i <= t.len() - p.len() + 1,
            0 < p.len() <= t.len(),
            forall|j: int| 0 <= j < i ==> !sub_at(t@, p@, j),
        decreases t.len() - p.len() + 1 - i,
    {
        if matches_at(t, p, i) {
            assert(sub_at(t@, p@, i as int));
            return true;
        }
        proof {
            assert(!sub_at(t@, p@, i as int));
        }
        i += 1;
    }
    assert(!contains_sub(t@, p@));
    false
}

/// A blank character: space, tab, or a line terminator.
pub open spec fn blank_char(c: char) -> bool {
    c == ' ' || c == '\t' || c == '\n' || c == '\r'
}

/// The number of leading blank characters of `s`.
pub open spec fn lead_blanks(s: Seq<char>) -> int
    decreases s.len(),
{
    if s.len() == 0 {
        0
    } else if !blank_char(s[0]) {
        0
    } else {
        1 + lead_blanks(s.drop_first())
    }
}

/// The length of `s` after dropping trailing blank characters.
pub open spec fn trail_end(s: Seq<char>) -> int
    decreases s.len(),
{
    if s.len() == 0 {
        0
    } else if !blank_char(s.last()) {
        s.len() as int
    } else {
        trail_end(s.drop_last())
    }
}

/// `s` without its leading and trailing blank characters; empty when
/// every character is blank.
pub open spec fn trim_spec(s: Seq<char>) -> Seq<char> {
    if lead_blanks(s) >= trail_end(s) {
        Seq::empty()
    } else {
        s.subrange(lead_blanks(s), trail_end(s))
    }
}

/// The shape of a trimmed text: what remains is delimited by
/// non-blank characters.
pub proof fn lemma_trim_shape(s: Seq<char>)
    ensures
        0 <= lead_blanks(s) <= s.len(),
        0 <= trail_end(s) <= s.len(),
        trim_spec(s).len() > 0 ==> !blank_char(trim_spec(s)[0]) && !blank_char(
            trim_spec(s).last(),
        ),
{
    lemma_lead_blanks_shape(s);
    lemma_trail_end_shape(s);
}

proof fn lemma_lead_blanks_shape(s: Seq<char>)
    ensures
        0 <= lead_blanks(s) <= s.len(),
        lead_blanks(s) < s.len() ==> !blank_char(s[lead_blanks(s)]),
    decreases s.len(),
{
    if s.len() > 0 && blank_char(s[0]) {
        lemma_lead_blanks_shape(s.drop_first());
        if lead_blanks(s) < s.len() {
            assert(s.drop_first()[lead_blanks(s) - 1] == s[lead_blanks(s)]);
        }
    }
}

proof fn lemma_trail_end_shape(s: Seq<char>)
    ensures
        0 <= trail_end(s) <= s.len(),
        trail_end(s) > 0 ==> !blank_char(s[trail_end(s) - 1]),
    decreases s.len(),
{
    if s.len() > 0 && blank_char(s.last()) {
        lemma_trail_end_shape(s.drop_last());
        if trail_end(s) > 0 {
            assert(s.drop_last()[trail_end(s) - 1] == s[trail_end(s) - 1]);
        }
    }
}

proof fn lemma_lead_blanks_characterize(s: Seq<char>, k: int)
    requires
        0 <= k <= s.len(),
        forall|j: int| 0 <= j < k ==> blank_char(s[j]),
        k == s.len() || !blank_char(s[k]),
    ensures
        lead_blanks(s) == k,
    decreases k,
{
    if k > 0 {
        assert(blank_char(s[0]));
        let s2 = s.drop_first();
        assert forall|j: int| 0 <= j < k - 1 implies blank_char(s2[j]) by {
            assert(s[j + 1] == s2[j]);
        }
        if k - 1 < s2.len() {
            assert(s2[k - 1] == s[k]);
        }
        lemma_lead_blanks_characterize(s2, k - 1);
    }
}

proof fn lemma_trail_end_characterize(s: Seq<char>, k: int)
    requires
        0 <= k <= s.len(),
        forall|j: int| k <= j < s.len() ==> blank_char(s[j]),
        k == 0 || !blank_char(s[k - 1]),
    ensures
        trail_end(s) == k,
    decreases s.len() - k,
{
    if k < s.len() {
        assert(blank_char(s.last()));
        let s2 = s.drop_last();
        assert forall|j: int| k <= j < s2.len() implies blank_char(s2[j]) by {
            assert(s2[j] == s[j]);
        }
        if k > 0 {
            assert(s2[k - 1] == s[k - 1]);
        }
        lemma_trail_end_characterize(s2, k);
    }
}

/// `v` without its leading and trailing blank characters.
pub fn trim_blanks(v: &Vec<char>) -> (r: Vec<char>)
    ensures
        r@ == trim_spec(v@),
{
    let mut lo: usize = 0;
    while lo < v.len() && (v[lo] == ' ' || v[lo] == '\t' || v[lo] == '\n' || v[lo] == '\r')
        invariant
            0 <= lo <= v@.len(),
            forall|j: int| 0 <= j < lo ==> blank_char(v@[j]),
        decreases v@.len() - lo,
    {
        lo += 1;
    }
    proof {
        lemma_lead_blanks_characterize(v@, lo as int);
    }
    let mut hi: usize = v.len();
    while hi > 0 && (v[hi - 1] == ' ' || v[hi - 1] == '\t' || v[hi - 1] == '\n' || v[hi - 1]
        == '\r')
        invariant
            0 <= hi <= v@.len(),
            forall|j: int| hi <= j < v@.len() ==> blank_char(v@[j]),
        decreases hi,
    {
        hi -= 1;
    }
    proof {
        lemma_trail_end_characterize(v@, hi as int);
    }
    if lo >= hi {
        Vec::new()
    } else {
        sub_chars(v, lo, hi)
    }
}

/// An owned copy of an optional character vector.
pub fn copy_opt_chars(a: &Option<Vec<char>>) -> (r: Option<Vec<char>>)
    ensures
        opt_chars_view(r) == opt_chars_view(*a),
{
    match a {
        Some(v) => Some(copy_chars(v)),
        None => None,
    }
}

} // verus!
