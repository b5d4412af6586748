//! Working-area statistics: partition the lines of each touched file
//! into pure-human, mixed and pure-AI, honouring ignore patterns.
//!
//! A line is mixed when its character attribution names both `human`
//! and at least one AI author; several AI sessions on one line still
//! count as pure AI. Every line of a touched file is classified; an
//! empty line is credited to whoever wrote its terminator.

use vstd::prelude::*;

use crate::attribution::Attribution;
use crate::lines::{line_auth_span, line_count, scan_line_spans, spans_view};
use crate::text::{
    chars_contains_sub, chars_eq, chars_starts_with, chars_ends_with, contains_sub, copy_chars,
    ends_with, starts_with, sub_chars,
};

verus! {

/// The number of occurrences of `c` in `s`.
pub open spec fn count_char(s: Seq<char>, c: char) -> int
    decreases s.len(),
{
    if s.len() == 0 {
        0
    } else {
        count_char(s.drop_last(), c) + if s.last() == c {
            1int
        } else {
            0int
        }
    }
}

/// The index of the first occurrence of `c` in `s` (`s.len()` if none).
pub open spec fn first_idx(s: Seq<char>, c: char) -> int
    decreases s.len(),
{
    if s.len() == 0 {
        0
    } else if s[0] == c {
        0
    } else {
        1 + first_idx(s.drop_first(), c)
    }
}

proof fn lemma_first_idx_characterize(s: Seq<char>, c: char, k: int)
    requires
        0 <= k <= s.len(),
        forall|j: int| 0 <= j < k ==> s[j] != c,
        k == s.len() || s[k] == c,
    ensures
        first_idx(s, c) == k,
    decreases k,
{
    if k == 0 {
    } else {
        assert(s[0] != c);
        let s2 = s.drop_first();
        assert forall|j: int| 0 <= j < k - 1 implies s2[j] != c by {
            assert(s[j + 1] != c);
        }
        if k - 1 < s2.len() {
            assert(s2[k - 1] == s[k]);
        }
        lemma_first_idx_characterize(s2, c, k - 1);
    }
}

proof fn lemma_count_zero(s: Seq<char>, c: char)
    requires
        forall|j: int| 0 <= j < s.len() ==> s[j] != c,
    ensures
        count_char(s, c) == 0,
    decreases s.len(),
{
    if s.len() > 0 {
        lemma_count_zero(s.drop_last(), c);
    }
}

/// Counts the occurrences of `c` in `v`.
fn count_char_in(v: &Vec<char>, c: char) -> (r: usize)
    ensures
        r as int == count_char(v@, c),
        r <= v.len(),
{
    let mut cnt: usize = 0;
    let mut i: usize = 0;
    while i < v.len()
        invariant
            0 <= i <= v.len(),
            cnt <= i,
            cnt as int == count_char(v@.subrange(0, i as int), c),
        decreases v.len() - i,
    {
        proof {
            assert(v@.subrange(0, i + 1).drop_last() =~= v@.subrange(0, i as int));
            assert(v@.subrange(0, i + 1).last() == v@[i as int]);
        }
        if v[i] == c {
            cnt += 1;
        }
        i += 1;
    }
    proof {
        assert(v@.subrange(0, v@.len() as int) =~= v@);
    }
    cnt
}

/// Finds the first occurrence of `c` in `v` (`v.len()` if none).
pub fn find_first(v: &Vec<char>, c: char) -> (r: usize)
    ensures
        r as int == first_idx(v@, c),
        r <= v.len(),
        r < v.len() ==> v@[r as int] == c,
        forall|j: int| 0 <= j < r ==> v@[j] != c,
{
    let mut i: usize = 0;
    while i < v.len() && v[i] != c
        invariant
            0 <= i <= v.len(),
            forall|j: int| 0 <= j < i ==> v@[j] != c,
        decreases v.len() - i,
    {
        i += 1;
    }
    proof {
        lemma_first_idx_characterize(v@, c, i as int);
    }
    i
}

/// A simple glob: a literal pattern matches only itself; one `*` makes
/// a `*suffix`, `prefix*` or `prefix*suffix` pattern; `*middle*`
/// matches any text containing `middle`; anything further matches
/// nothing.
pub open spec fn glob_match_spec(text: Seq<char>, pat: Seq<char>) -> bool {
    let stars = count_char(pat, '*');
    if stars == 0 {
        text == pat
    } else if stars == 1 {
        let k = first_idx(pat, '*');
        let pre = pat.subrange(0, k);
        let suf = pat.subrange(k + 1, pat.len() as int);
        if pre.len() == 0 && suf.len() == 0 {
            true
        } else if pre.len() == 0 {
            ends_with(text, suf)
        } else if suf.len() == 0 {
            starts_with(text, pre)
        } else {
            text.len() >= pre.len() + suf.len() && starts_with(text, pre) && ends_with(text, suf)
        }
    } else if stars == 2 && pat.len() >= 2 && pat[0] == '*' && pat[pat.len() - 1] == '*' {
        contains_sub(text, pat.subrange(1, pat.len() - 1))
    } else {
        false
    }
}

/// Whether `text` matches the glob `pattern`.
pub fn glob_match(text: &Vec<char>, pattern: &Vec<char>) -> (r: bool)
    ensures
        r == glob_match_spec(text@, pattern@),
{
    let stars = count_char_in(pattern, '*');
    if stars == 0 {
        chars_eq(text, pattern)
    } else if stars == 1 {
        let k = find_first(pattern, '*');
        proof {
            if k == pattern.len() {
                lemma_count_zero(pattern@, '*');
                assert(false);
            }
        }
        let pre = sub_chars(pattern, 0, k);
        let suf = sub_chars(pattern, k + 1, pattern.len());
        if pre.len() == 0 && suf.len() == 0 {
            true
        } else if pre.len() == 0 {
            chars_ends_with(text, &suf)
        } else if suf.len() == 0 {
            chars_starts_with(text, &pre)
        } else {
            text.len() >= pre.len() + suf.len() && chars_starts_with(text, &pre)
                && chars_ends_with(text, &suf)
        }
    } else if stars == 2 && pattern.len() >= 2 && pattern[0] == '*' && pattern[pattern.len() - 1]
        == '*' {
        let mid = sub_chars(pattern, 1, pattern.len() - 1);
        chars_contains_sub(text, &mid)
    } else {
        false
    }
}

/// A path is ignored when some pattern occurs in it literally or
/// matches it as a glob.
pub open spec fn ignored_spec(path: Seq<char>, patterns: Seq<Vec<char>>) -> bool {
    exists|k: int|
        0 <= k < patterns.len() && (contains_sub(path, (#[trigger] patterns[k])@)
            || glob_match_spec(path, patterns[k]@))
}

/// Whether `file_path` is ignored under `ignore_patterns`.
pub fn should_ignore_file(file_path: &Vec<char>, ignore_patterns: &Vec<Vec<char>>) -> (r: bool)
    ensures
        r == ignored_spec(file_path@, ignore_patterns@),
{
    let mut k: usize = 0;
    while k < ignore_patterns.len()
        invariant
            0 <= k <= ignore_patterns.len(),
            forall|j: int|
                0 <= j < k ==> !(contains_sub(file_path@, (#[trigger] ignore_patterns@[j])@)
                    || glob_match_spec(file_path@, ignore_patterns@[j]@)),
        decreases ignore_patterns.len() - k,
    {
        if chars_contains_sub(file_path, &ignore_patterns[k]) || glob_match(
            file_path,
            &ignore_patterns[k],
        ) {
            return true;
        }
        k += 1;
    }
    false
}

/// The author identity of the local user.
pub open spec fn human_id() -> Seq<char> {
    seq!['h', 'u', 'm', 'a', 'n']
}

/// The `human` author identity as a character vector.
pub fn human_author() -> (r: Vec<char>)
    ensures
        r@ == human_id(),
{
    let mut r: Vec<char> = Vec::new();
    r.push('h');
    r.push('u');
    r.push('m');
    r.push('a');
    r.push('n');
    proof {
        assert(r@ =~= human_id());
    }
    r
}

/// Interval `a` overlaps the character span `[lo, hi)`.
pub open spec fn overlaps(a: Attribution, lo: int, hi: int) -> bool {
    (a.start as int) < hi && (a.end as int) > lo
}

/// Some human-authored interval touches line `i`.
pub open spec fn line_has_human(s: Seq<char>, attrs: Seq<Attribution>, i: int) -> bool {
    exists|k: int|
        0 <= k < attrs.len() && overlaps(
            #[trigger] attrs[k],
            line_auth_span(s, i).0,
            line_auth_span(s, i).1,
        ) && attrs[k].author@ == human_id()
}

/// Some AI-authored interval touches line `i`.
pub open spec fn line_has_ai(s: Seq<char>, attrs: Seq<Attribution>, i: int) -> bool {
    exists|k: int|
        0 <= k < attrs.len() && overlaps(
            #[trigger] attrs[k],
            line_auth_span(s, i).0,
            line_auth_span(s, i).1,
        ) && attrs[k].author@ != human_id()
}

/// The statistics class of one line.
pub enum LineClass {
    PureHuman,
    Mixed,
    PureAi,
    Untouched,
}

/// The class of line `i` of content `s` under attribution `attrs`.
pub open spec fn line_class(s: Seq<char>, attrs: Seq<Attribution>, i: int) -> LineClass {
    if line_has_human(s, attrs, i) && line_has_ai(s, attrs, i) {
        LineClass::Mixed
    } else if line_has_human(s, attrs, i) {
        LineClass::PureHuman
    } else if line_has_ai(s, attrs, i) {
        LineClass::PureAi
    } else {
        LineClass::Untouched
    }
}

/// The number of lines among the first `n` whose class is `c`.
pub open spec fn count_class(s: Seq<char>, attrs: Seq<Attribution>, n: int, c: LineClass) -> int
    decreases n,
{
    if n <= 0 {
        0
    } else {
        count_class(s, attrs, n - 1, c) + if line_class(s, attrs, n - 1) == c {
            1int
        } else {
            0int
        }
    }
}

/// Line-classification counts for one file.
#[derive(Clone, Copy, Debug, PartialEq, Eq, Structural)]
pub struct FileStats {
    pub pure_human_lines: u32,
    pub mixed_lines: u32,
    pub pure_ai_lines: u32,
    pub total_lines: u32,
}

/// Classifies every line of `content` under `attributions`.
pub fn calculate_file_stats(content: &Vec<char>, attributions: &Vec<Attribution>) -> (fs: FileStats)
    requires
        line_count(content@) <= u32::MAX,
    ensures
        fs.pure_human_lines as int == count_class(
            content@,
            attributions@,
            line_count(content@),
            LineClass::PureHuman,
        ),
        fs.mixed_lines as int == count_class(
            content@,
            attributions@,
            line_count(content@),
            LineClass::Mixed,
        ),
        fs.pure_ai_lines as int == count_class(
            content@,
            attributions@,
            line_count(content@),
            LineClass::PureAi,
        ),
        fs.total_lines as int == fs.pure_human_lines + fs.mixed_lines + fs.pure_ai_lines,
{
    let spans = scan_line_spans(content);
    proof {
        assert(spans@.len() == line_count(content@));
    }
    let human = human_author();
    let mut ph: u32 = 0;
    let mut mx: u32 = 0;
    let mut pa: u32 = 0;
    let mut i: usize = 0;
    while i < spans.len()
        invariant
            0 <= i <= spans.len(),
            spans@.len() == line_count(content@),
            spans@.len() <= u32::MAX,
            spans_view(spans@) == crate::lines::line_spans(content@),
            human@ == human_id(),
            ph + mx + pa <= i,
            ph as int == count_class(content@, attributions@, i as int, LineClass::PureHuman),
            mx as int == count_class(content@, attributions@, i as int, LineClass::Mixed),
            pa as int == count_class(content@, attributions@, i as int, LineClass::PureAi),
        decreases spans.len() - i,
    {
        let (lo, hi) = crate::lines::auth_span(content, &spans, i);
        let mut has_h = false;
        let mut has_a = false;
        let mut k: usize = 0;
        while k < attributions.len()
            invariant
                0 <= k <= attributions.len(),
                human@ == human_id(),
                (lo as int, hi as int) == line_auth_span(content@, i as int),
                has_h == exists|j: int|
                    0 <= j < k && overlaps(#[trigger] attributions@[j], lo as int, hi as int)
                        && attributions@[j].author@ == human_id(),
                has_a == exists|j: int|
                    0 <= j < k && overlaps(#[trigger] attributions@[j], lo as int, hi as int)
                        && attributions@[j].author@ != human_id(),
            decreases attributions.len() - k,
        {
            if attributions[k].start < hi && attributions[k].end > lo {
                if chars_eq(&attributions[k].author, &human) {
                    has_h = true;
                } else {
                    has_a = true;
                }
            }
            k += 1;
        }
        proof {
            assert(has_h == line_has_human(content@, attributions@, i as int));
            assert(has_a == line_has_ai(content@, attributions@, i as int));
        }
        if has_h && has_a {
            mx += 1;
        } else if has_h {
            ph += 1;
        } else if has_a {
            pa += 1;
        }
        i += 1;
    }
    let total = ph + mx + pa;
    FileStats { pure_human_lines: ph, mixed_lines: mx, pure_ai_lines: pa, total_lines: total }
}

/// One touched file of the working area: its path, its current content
/// and its character attribution.
pub struct WorkingFile {
    pub path: Vec<char>,
    pub content: Vec<char>,
    pub attributions: Vec<Attribution>,
}

/// The class-`c` line count of one working file.
pub open spec fn spec_file_class_count(f: WorkingFile, c: LineClass) -> int {
    count_class(f.content@, f.attributions@, line_count(f.content@), c)
}

/// A file takes part in the statistics when it is not ignored and not
/// empty.
pub open spec fn file_included(f: WorkingFile, patterns: Seq<Vec<char>>) -> bool {
    !ignored_spec(f.path@, patterns) && f.content@.len() > 0
}

/// The first `n` files, filtered to those taking part.
pub open spec fn included_model(
    files: Seq<WorkingFile>,
    patterns: Seq<Vec<char>>,
    n: int,
) -> Seq<WorkingFile>
    decreases n,
{
    if n <= 0 {
        Seq::empty()
    } else {
        included_model(files, patterns, n - 1) + if file_included(files[n - 1], patterns) {
            seq![files[n - 1]]
        } else {
            Seq::empty()
        }
    }
}

/// The class-`c` line count summed over a file sequence.
pub open spec fn sum_class(m: Seq<WorkingFile>, c: LineClass) -> int
    decreases m.len(),
{
    if m.len() == 0 {
        0
    } else {
        sum_class(m.drop_last(), c) + spec_file_class_count(m.last(), c)
    }
}

pub proof fn lemma_count_class_nonneg(s: Seq<char>, attrs: Seq<Attribution>, n: int, c: LineClass)
    ensures
        count_class(s, attrs, n, c) >= 0,
    decreases n,
{
    if n > 0 {
        lemma_count_class_nonneg(s, attrs, n - 1, c);
    }
}

proof fn lemma_sum_prefix(files: Seq<WorkingFile>, patterns: Seq<Vec<char>>, n: int, c: LineClass)
    requires
        0 <= n <= files.len(),
    ensures
        sum_class(included_model(files, patterns, n), c) <= sum_class(
            included_model(files, patterns, files.len() as int),
            c,
        ),
    decreases files.len() - n,
{
    if n < files.len() {
        lemma_sum_prefix(files, patterns, n + 1, c);
        let m = included_model(files, patterns, n);
        let m2 = included_model(files, patterns, n + 1);
        if file_included(files[n], patterns) {
            assert(m2 == m + seq![files[n]]);
            assert(m2.drop_last() =~= m);
            assert(m2.last() == files[n]);
            lemma_count_class_nonneg(
                files[n].content@,
                files[n].attributions@,
                line_count(files[n].content@),
                c,
            );
        } else {
            assert(m2 =~= m);
        }
    }
}

/// Aggregated statistics of the uncommitted working area.
pub struct WorkingStats {
    pub files_changed: usize,
    pub pure_human_lines: u32,
    pub mixed_lines: u32,
    pub pure_ai_lines: u32,
    pub total_lines: u32,
    pub by_file: Vec<(Vec<char>, FileStats)>,
}

impl Default for WorkingStats {
    /// The statistics of an empty working area.
    fn default() -> (r: Self)
        ensures
            r.files_changed == 0,
            r.pure_human_lines == 0,
            r.mixed_lines == 0,
            r.pure_ai_lines == 0,
            r.total_lines == 0,
            r.by_file@.len() == 0,
    {
        WorkingStats {
            files_changed: 0,
            pure_human_lines: 0,
            mixed_lines: 0,
            pure_ai_lines: 0,
            total_lines: 0,
            by_file: Vec::new(),
        }
    }
}

/// Aggregates per-file statistics over the touched files of the
/// working area, skipping ignored and empty files.
pub fn calculate_working_stats(
    files: &Vec<WorkingFile>,
    ignore_patterns: &Vec<Vec<char>>,
) -> (r: WorkingStats)
    requires
        forall|k: int|
            0 <= k < files@.len() ==> line_count((#[trigger] files@[k]).content@) <= u32::MAX,
        sum_class(
            included_model(files@, ignore_patterns@, files@.len() as int),
            LineClass::PureHuman,
        ) + sum_class(
            included_model(files@, ignore_patterns@, files@.len() as int),
            LineClass::Mixed,
        ) + sum_class(
            included_model(files@, ignore_patterns@, files@.len() as int),
            LineClass::PureAi,
        ) <= u32::MAX,
    ensures
        ({
            let m = included_model(files@, ignore_patterns@, files@.len() as int);
            &&& r.files_changed as int == m.len()
            &&& r.pure_human_lines as int == sum_class(m, LineClass::PureHuman)
            &&& r.mixed_lines as int == sum_class(m, LineClass::Mixed)
            &&& r.pure_ai_lines as int == sum_class(m, LineClass::PureAi)
            &&& r.total_lines as int == r.pure_human_lines + r.mixed_lines + r.pure_ai_lines
            &&& r.by_file@.len() == m.len()
            &&& forall|i: int|
                0 <= i < m.len() ==> (#[trigger] r.by_file@[i]).0@ == m[i].path@
                    && r.by_file@[i].1.pure_human_lines as int == spec_file_class_count(
                    m[i],
                    LineClass::PureHuman,
                ) && r.by_file@[i].1.mixed_lines as int == spec_file_class_count(
                    m[i],
                    LineClass::Mixed,
                ) && r.by_file@[i].1.pure_ai_lines as int == spec_file_class_count(
                    m[i],
                    LineClass::PureAi,
                ) && r.by_file@[i].1.total_lines as int == r.by_file@[i].1.pure_human_lines
                    + r.by_file@[i].1.mixed_lines + r.by_file@[i].1.pure_ai_lines
        }),
{
    let ghost full = included_model(files@, ignore_patterns@, files@.len() as int);
    let mut ph: u32 = 0;
    let mut mx: u32 = 0;
    let mut pa: u32 = 0;
    let mut files_changed: usize = 0;
    let mut by_file: Vec<(Vec<char>, FileStats)> = Vec::new();
    let mut i: usize = 0;
    while i < files.len()
        invariant
            0 <= i <= files.len(),
            forall|k: int|
                0 <= k < files@.len() ==> line_count((#[trigger] files@[k]).content@) <= u32::MAX,
            sum_class(full, LineClass::PureHuman) + sum_class(full, LineClass::Mixed) + sum_class(
                full,
                LineClass::PureAi,
            ) <= u32::MAX,
            full == included_model(files@, ignore_patterns@, files@.len() as int),
            files_changed <= i,
            ({
                let m = included_model(files@, ignore_patterns@, i as int);
                &&& files_changed as int == m.len()
                &&& ph as int == sum_class(m, LineClass::PureHuman)
                &&& mx as int == sum_class(m, LineClass::Mixed)
                &&& pa as int == sum_class(m, LineClass::PureAi)
                &&& by_file@.len() == m.len()
                &&& forall|j: int|
                    0 <= j < m.len() ==> (#[trigger] by_file@[j]).0@ == m[j].path@
                        && by_file@[j].1.pure_human_lines as int == spec_file_class_count(
                        m[j],
                        LineClass::PureHuman,
                    ) && by_file@[j].1.mixed_lines as int == spec_file_class_count(
                        m[j],
                        LineClass::Mixed,
                    ) && by_file@[j].1.pure_ai_lines as int == spec_file_class_count(
                        m[j],
                        LineClass::PureAi,
                    ) && by_file@[j].1.total_lines as int == by_file@[j].1.pure_human_lines
                        + by_file@[j].1.mixed_lines + by_file@[j].1.pure_ai_lines
            }),
        decreases files.len() - i,
    {
        let ghost m = included_model(files@, ignore_patterns@, i as int);
        let ghost m2 = included_model(files@, ignore_patterns@, i + 1);
        let ignored = should_ignore_file(&files[i].path, ignore_patterns);
        if !ignored && files[i].content.len() > 0 {
            proof {
                assert(file_included(files@[i as int], ignore_patterns@));
                assert(m2 == m + seq![files@[i as int]]);
                assert(m2.drop_last() =~= m);
                assert(m2.last() == files@[i as int]);
                lemma_sum_prefix(files@, ignore_patterns@, i + 1, LineClass::PureHuman);
                lemma_sum_prefix(files@, ignore_patterns@, i + 1, LineClass::Mixed);
                lemma_sum_prefix(files@, ignore_patterns@, i + 1, LineClass::PureAi);
                lemma_count_class_nonneg(
                    files@[i as int].content@,
                    files@[i as int].attributions@,
                    line_count(files@[i as int].content@),
                    LineClass::PureHuman,
                );
                lemma_count_class_nonneg(
                    files@[i as int].content@,
                    files@[i as int].attributions@,
                    line_count(files@[i as int].content@),
                    LineClass::Mixed,
                );
                lemma_count_class_nonneg(
                    files@[i as int].content@,
                    files@[i as int].attributions@,
                    line_count(files@[i as int].content@),
                    LineClass::PureAi,
                );
                lemma_sum_nonneg(m, LineClass::PureHuman);
                lemma_sum_nonneg(m, LineClass::Mixed);
                lemma_sum_nonneg(m, LineClass::PureAi);
            }
            let fs = calculate_file_stats(&files[i].content, &files[i].attributions);
            ph += fs.pure_human_lines;
            mx += fs.mixed_lines;
            pa += fs.pure_ai_lines;
            by_file.push((copy_chars(&files[i].path), fs));
            files_changed += 1;
        } else {
            proof {
                assert(!file_included(files@[i as int], ignore_patterns@));
                assert(m2 =~= m);
            }
        }
        i += 1;
    }
    proof {
        lemma_sum_nonneg(full, LineClass::PureHuman);
        lemma_sum_nonneg(full, LineClass::Mixed);
        lemma_sum_nonneg(full, LineClass::PureAi);
    }
    let total = ph + mx + pa;
    WorkingStats {
        files_changed,
        pure_human_lines: ph,
        mixed_lines: mx,
        pure_ai_lines: pa,
        total_lines: total,
        by_file,
    }
}

proof fn lemma_sum_nonneg(m: Seq<WorkingFile>, c: LineClass)
    ensures
        sum_class(m, c) >= 0,
    decreases m.len(),
{
    if m.len() > 0 {
        lemma_sum_nonneg(m.drop_last(), c);
        lemma_count_class_nonneg(
            m.last().content@,
            m.last().attributions@,
            line_count(m.last().content@),
            c,
        );
    }
}

} // verus!
