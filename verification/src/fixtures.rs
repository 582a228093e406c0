//! Test fixtures: the tree-sitter corpus format and the fixture listings.
use vstd::prelude::*;
use crate::text::{chars_of, join, law_trim_idempotent, lines_of, push_all, split_lines, string_of, trim, trim_range};

verus! {

/// A rule line: at least three characters, all of them `marker`
/// (`"===="` opens and closes a case name, `"----"` ends its source). The
/// markers are ASCII, so three characters are also three bytes.
pub open spec fn is_rule_line(line: Seq<char>, marker: char) -> bool {
    line.len() >= 3 && forall|k: int| 0 <= k < line.len() ==> line[k] == marker
}

/// How many lines at the front of `lines` are not rule lines of `marker`.
pub open spec fn run_len(lines: Seq<Seq<char>>, marker: char) -> nat
    decreases lines.len(),
{
    if lines.len() == 0 || is_rule_line(lines[0], marker) {
        0
    } else {
        1 + run_len(lines.drop_first(), marker)
    }
}

/// `lines` without its first `n` lines (empty when it has no more than `n`).
pub open spec fn drop_lines(lines: Seq<Seq<char>>, n: int) -> Seq<Seq<char>> {
    if n >= lines.len() {
        Seq::<Seq<char>>::empty()
    } else {
        lines.skip(n)
    }
}

/// The `(name, source)` cases of a tree-sitter corpus file given by its lines.
///
/// A case starts at a `=` rule; its name is the lines up to the next `=`
/// rule, joined by spaces and trimmed; its source is the lines after that up
/// to a `-` rule, joined by newlines and trimmed; the expected tree after the
/// `-` rule is skipped up to the next `=` rule. Lines before the first `=`
/// rule are ignored, and a case whose source is empty is dropped.
pub open spec fn corpus_cases(lines: Seq<Seq<char>>) -> Seq<(Seq<char>, Seq<char>)>
    decreases lines.len(),
{
    if lines.len() == 0 {
        Seq::empty()
    } else if !is_rule_line(lines[0], '=') {
        corpus_cases(lines.drop_first())
    } else {
        let a = lines.drop_first();
        let n = run_len(a, '=') as int;
        let b = drop_lines(a, n + 1);
        let m = run_len(b, '-') as int;
        let c = drop_lines(b, m + 1);
        let k = run_len(c, '=') as int;
        let rest = drop_lines(c, k);
        let name = trim(join(a.take(n), seq![' ']));
        let source = trim(join(b.take(m), seq!['\n']));
        let here = if source.len() > 0 {
            seq![(name, source)]
        } else {
            Seq::empty()
        };
        here + corpus_cases(rest)
    }
}


proof fn lemma_run_len_exact(lines: Seq<Seq<char>>, marker: char, r: int)
    requires
        0 <= r <= lines.len(),
        forall|j: int| 0 <= j < r ==> !is_rule_line(#[trigger] lines[j], marker),
        r == lines.len() || is_rule_line(lines[r], marker),
    ensures
        run_len(lines, marker) == r,
    decreases r,
{
    if r > 0 {
        let t = lines.drop_first();
        assert forall|j: int| 0 <= j < r - 1 implies !is_rule_line(#[trigger] t[j], marker) by {
            assert(t[j] == lines[j + 1]);
        }
        lemma_run_len_exact(t, marker, r - 1);
    }
}

proof fn lemma_drop_drop(lines: Seq<Seq<char>>, a: int, b: int)
    requires
        0 <= a,
        0 <= b,
    ensures
        drop_lines(drop_lines(lines, a), b) =~= drop_lines(lines, a + b),
{
}

proof fn lemma_case_step(
    ls: Seq<Seq<char>>,
    s0: int,
    e1: int,
    i1: int,
    e2: int,
    i2: int,
    i3: int,
    name: Seq<char>,
    source: Seq<char>,
)
    requires
        0 <= s0 < ls.len(),
        is_rule_line(ls[s0], '='),
        s0 + 1 <= e1 <= ls.len(),
        run_len(drop_lines(ls, s0 + 1), '=') == e1 - s0 - 1,
        name == join(drop_lines(ls, s0 + 1).take(e1 - s0 - 1), seq![' ']),
        i1 == (if e1 < ls.len() { e1 + 1 } else { ls.len() as int }),
        i1 <= e2 <= ls.len(),
        run_len(drop_lines(ls, i1), '-') == e2 - i1,
        source == join(drop_lines(ls, i1).take(e2 - i1), seq!['\n']),
        i2 == (if e2 < ls.len() { e2 + 1 } else { ls.len() as int }),
        i2 <= i3 <= ls.len(),
        forall|j: int| i2 <= j < i3 ==> !is_rule_line(#[trigger] ls[j], '='),
        i3 == ls.len() || is_rule_line(ls[i3], '='),
    ensures
        corpus_cases(drop_lines(ls, s0)) == (if trim(source).len() > 0 {
            seq![(trim(name), trim(source))]
        } else {
            Seq::<(Seq<char>, Seq<char>)>::empty()
        }) + corpus_cases(drop_lines(ls, i3)),
{
    let d = drop_lines(ls, s0);
    assert(d[0] == ls[s0]);
    let a = d.drop_first();
    assert(a =~= drop_lines(ls, s0 + 1));
    let nn = run_len(a, '=') as int;
    lemma_drop_drop(ls, s0 + 1, nn + 1);
    let b = drop_lines(a, nn + 1);
    assert(b =~= drop_lines(ls, i1));
    let m = run_len(b, '-') as int;
    lemma_drop_drop(ls, i1, m + 1);
    let c = drop_lines(b, m + 1);
    assert(c =~= drop_lines(ls, i2));
    if i2 < ls.len() {
        assert forall|j: int| 0 <= j < i3 - i2 implies !is_rule_line(#[trigger] c[j], '=') by {
            assert(c[j] == ls[i2 + j]);
        }
        if i3 < ls.len() {
            assert(c[i3 - i2] == ls[i3]);
        }
        lemma_run_len_exact(c, '=', i3 - i2);
    }
    let k = run_len(c, '=') as int;
    assert(k == i3 - i2);
    lemma_drop_drop(ls, i2, k);
    assert(drop_lines(c, k) =~= drop_lines(ls, i3));
}

/// Whether `line` is a rule line of `marker`.
fn is_rule(line: &Vec<char>, marker: char) -> (b: bool)
    ensures
        b == is_rule_line(line@, marker),
{
    if line.len() < 3 {
        return false;
    }
    let mut k: usize = 0;
    while k < line.len()
        invariant
            k <= line.len(),
            forall|j: int| 0 <= j < k ==> line@[j] == marker,
        decreases line.len() - k,
    {
        if line[k] != marker {
            return false;
        }
        k += 1;
    }
    true
}

/// Collects the lines from `i` up to the next rule line of `marker`, joined
/// by `sep`; returns them with the index of that rule line (or of the end).
fn collect_run(lines: &Vec<Vec<char>>, start: usize, marker: char, sep: char) -> (r: (Vec<char>, usize))
    requires
        start <= lines.len(),
    ensures
        start <= r.1 <= lines.len(),
        run_len(drop_lines(lines.deep_view(), start as int), marker) == r.1 - start,
        r.0@ == join(drop_lines(lines.deep_view(), start as int).take(r.1 - start), seq![sep]),
{
    let ghost ls = lines.deep_view();
    let mut buf: Vec<char> = Vec::new();
    let mut i = start;
    while i < lines.len() && !is_rule(&lines[i], marker)
        invariant
            start <= i <= lines.len(),
            ls == lines.deep_view(),
            forall|j: int| start <= j < i ==> !is_rule_line(#[trigger] ls[j], marker),
            buf@ == join(ls.subrange(start as int, i as int), seq![sep]),
        decreases lines.len() - i,
    {
        proof {
            assert(lines[i as int].deep_view() =~= lines[i as int]@);
            let next = ls.subrange(start as int, i + 1);
            assert(next.drop_last() =~= ls.subrange(start as int, i as int));
        }
        if i > start {
            buf.push(sep);
        }
        push_all(&mut buf, lines[i].as_slice());
        i += 1;
    }
    proof {
        let d = drop_lines(ls, start as int);
        if (start as int) < ls.len() {
            assert forall|j: int| 0 <= j < i - start implies !is_rule_line(#[trigger] d[j], marker) by {
                assert(d[j] == ls[start + j]);
            }
            if i < ls.len() {
                assert(d[i - start] == ls[i as int]);
                assert(lines[i as int].deep_view() =~= lines[i as int]@);
            }
            lemma_run_len_exact(d, marker, i - start);
            assert(d.take(i - start) =~= ls.subrange(start as int, i as int));
        } else {
            assert(ls.subrange(start as int, i as int) =~= d.take(0));
        }
    }
    (buf, i)
}


/// Splits one tree-sitter corpus file into its `(test name, source)` cases.
pub fn parse_corpus_file(content: &str) -> (cases: Vec<(String, String)>)
    ensures
        cases.deep_view() == corpus_cases(lines_of(content@)),
{
    let chars = chars_of(content);
    let lines = split_lines(&chars);
    let ghost ls = lines.deep_view();
    let n = lines.len();
    let mut cases: Vec<(String, String)> = Vec::new();
    let mut i: usize = 0;
    proof {
        assert(drop_lines(ls, 0) =~= ls);
    }
    while i < n
        invariant
            i <= n == lines.len(),
            ls == lines.deep_view(),
            corpus_cases(ls) == cases.deep_view() + corpus_cases(drop_lines(ls, i as int)),
        decreases n - i,
    {
        let ghost d = drop_lines(ls, i as int);
        let ghost before = cases.deep_view();
        proof {
            assert(d[0] == ls[i as int]);
            assert(lines[i as int].deep_view() =~= lines[i as int]@);
            assert(d.drop_first() =~= drop_lines(ls, i + 1));
        }
        if !is_rule(&lines[i], '=') {
            i += 1;
            continue;
        }
        // a case: its name up to the closing `=` rule, its source up to the
        // `-` rule, then the expected tree up to the next `=` rule
        let s0 = i;
        let (name, e1) = collect_run(&lines, s0 + 1, '=', ' ');
        let i1 = if e1 < n { e1 + 1 } else { n };
        let (source, e2) = collect_run(&lines, i1, '-', '\n');
        let i2 = if e2 < n { e2 + 1 } else { n };
        i = i2;
        while i < n && !is_rule(&lines[i], '=')
            invariant
                i2 <= i <= n == lines.len(),
                ls == lines.deep_view(),
                forall|j: int| i2 <= j < i ==> !is_rule_line(#[trigger] ls[j], '='),
            decreases n - i,
        {
            proof {
                assert(lines[i as int].deep_view() =~= lines[i as int]@);
            }
            i += 1;
        }
        proof {
            if i < n {
                assert(lines[i as int].deep_view() =~= lines[i as int]@);
            }
        }
        let name_text = trim_range(&name, 0, name.len());
        let source_text = trim_range(&source, 0, source.len());
        proof {
            assert(name@.subrange(0, name@.len() as int) =~= name@);
            assert(source@.subrange(0, source@.len() as int) =~= source@);
            lemma_case_step(ls, s0 as int, e1 as int, i1 as int, e2 as int, i2 as int, i as int, name@, source@);
        }
        if source_text.len() > 0 {
            let entry = (string_of(name_text.as_slice()), string_of(source_text.as_slice()));
            cases.push(entry);
            proof {
                assert(cases.deep_view() =~= before + seq![(name_text@, source_text@)]);
            }
        } else {
            proof {
                assert(before + Seq::<(Seq<char>, Seq<char>)>::empty() =~= before);
            }
        }
        proof {
            assert(corpus_cases(ls) =~= cases.deep_view() + corpus_cases(drop_lines(ls, i as int)));
        }
    }
    proof {
        assert(drop_lines(ls, n as int) =~= Seq::<Seq<char>>::empty());
        assert(cases.deep_view() + Seq::<(Seq<char>, Seq<char>)>::empty() =~= cases.deep_view());
    }
    cases
}


/// `a` orders before `b`: the order of `str` and `String`, which compare
/// their UTF-8 bytes lexicographically, the same as comparing code points.
pub open spec fn name_lt(a: Seq<char>, b: Seq<char>) -> bool
    decreases a.len(),
{
    if a.len() == 0 {
        b.len() > 0
    } else if b.len() == 0 {
        false
    } else if a[0] != b[0] {
        (a[0] as u32) < (b[0] as u32)
    } else {
        name_lt(a.drop_first(), b.drop_first())
    }
}

proof fn lemma_name_lt_skip(a: Seq<char>, b: Seq<char>, i: int)
    requires
        0 <= i <= a.len(),
        i <= b.len(),
        a.take(i) == b.take(i),
    ensures
        name_lt(a, b) == name_lt(a.skip(i), b.skip(i)),
    decreases i,
{
    if i > 0 {
        assert(a[0] == a.take(i)[0]);
        assert(b[0] == b.take(i)[0]);
        assert(a.drop_first().take(i - 1) =~= a.take(i).drop_first());
        assert(b.drop_first().take(i - 1) =~= b.take(i).drop_first());
        lemma_name_lt_skip(a.drop_first(), b.drop_first(), i - 1);
        assert(a.drop_first().skip(i - 1) =~= a.skip(i));
        assert(b.drop_first().skip(i - 1) =~= b.skip(i));
    } else {
        assert(a.skip(0) =~= a);
        assert(b.skip(0) =~= b);
    }
}

/// Whether `a` orders before `b` (see [`name_lt`]).
fn chars_lt(a: &Vec<char>, b: &Vec<char>) -> (r: bool)
    ensures
        r == name_lt(a@, b@),
{
    let mut i: usize = 0;
    while i < a.len() && i < b.len() && a[i] == b[i]
        invariant
            i <= a.len(),
            i <= b.len(),
            a@.take(i as int) =~= b@.take(i as int),
        decreases a.len() - i,
    {
        i += 1;
    }
    proof {
        lemma_name_lt_skip(a@, b@, i as int);
    }
    if i == a.len() {
        i < b.len()
    } else if i == b.len() {
        false
    } else {
        (a[i] as u32) < (b[i] as u32)
    }
}

/// `s` with `x` inserted after every element whose name is not greater than
/// the name of `x` (one step of a stable insertion sort).
pub open spec fn insert_by_name(
    s: Seq<(Seq<char>, Seq<char>)>,
    x: (Seq<char>, Seq<char>),
) -> Seq<(Seq<char>, Seq<char>)>
    decreases s.len(),
{
    if s.len() == 0 {
        seq![x]
    } else if name_lt(x.0, s.last().0) {
        insert_by_name(s.drop_last(), x).push(s.last())
    } else {
        s.push(x)
    }
}

/// `s` stably sorted by name (the first component), as `sort_by` on the names orders it.
pub open spec fn sorted_by_name(s: Seq<(Seq<char>, Seq<char>)>) -> Seq<(Seq<char>, Seq<char>)>
    decreases s.len(),
{
    if s.len() == 0 {
        s
    } else {
        insert_by_name(sorted_by_name(s.drop_last()), s.last())
    }
}

proof fn lemma_insert_at(s: Seq<(Seq<char>, Seq<char>)>, x: (Seq<char>, Seq<char>), j: int)
    requires
        0 <= j <= s.len(),
        forall|k: int| j <= k < s.len() ==> name_lt(x.0, (#[trigger] s[k]).0),
        j == 0 || !name_lt(x.0, s[j - 1].0),
    ensures
        insert_by_name(s, x) =~= s.take(j) + seq![x] + s.skip(j),
    decreases s.len(),
{
    if s.len() == 0 {
    } else if name_lt(x.0, s.last().0) {
        assert(j < s.len());
        let t = s.drop_last();
        assert forall|k: int| j <= k < t.len() implies name_lt(x.0, (#[trigger] t[k]).0) by {
            assert(t[k] == s[k]);
        }
        if j > 0 {
            assert(t[j - 1] == s[j - 1]);
        }
        lemma_insert_at(t, x, j);
    } else {
        assert(j == s.len());
    }
}

/// Sorts `(name, content)` pairs by name, keeping the order of equal names.
pub fn sort_by_name(files: &Vec<(String, String)>) -> (out: Vec<(String, String)>)
    ensures
        out.deep_view() == sorted_by_name(files.deep_view()),
{
    let ghost fs = files.deep_view();
    let mut out: Vec<(String, String)> = Vec::new();
    let mut i: usize = 0;
    proof {
        assert(fs.take(0) =~= Seq::<(Seq<char>, Seq<char>)>::empty());
    }
    while i < files.len()
        invariant
            i <= files.len(),
            fs == files.deep_view(),
            out.deep_view() == sorted_by_name(fs.take(i as int)),
        decreases files.len() - i,
    {
        let x = (files[i].0.clone(), files[i].1.clone());
        let ghost xv = (x.0@, x.1@);
        let xc = chars_of(x.0.as_str());
        let ghost sv = out.deep_view();
        let mut j = out.len();
        while j > 0 && chars_lt(&xc, &chars_of(out[j - 1].0.as_str()))
            invariant
                j <= out.len(),
                sv == out.deep_view(),
                xc@ == xv.0,
                forall|k: int| j <= k < sv.len() ==> name_lt(xv.0, (#[trigger] sv[k]).0),
            decreases j,
        {
            j -= 1;
        }
        proof {
            lemma_insert_at(sv, xv, j as int);
            assert(fs.take(i + 1).drop_last() =~= fs.take(i as int));
            assert(fs.take(i + 1).last() == xv);
        }
        out.insert(j, x);
        proof {
            assert(out.deep_view() =~= sv.take(j as int) + seq![xv] + sv.skip(j as int));
        }
        i += 1;
    }
    proof {
        assert(fs.take(i as int) =~= fs);
    }
    out
}


/// Index of the last `'.'` of `name`, or `-1` when it has none.
pub open spec fn last_dot(name: Seq<char>) -> int
    decreases name.len(),
{
    if name.len() == 0 {
        -1
    } else if name.last() == '.' {
        name.len() - 1
    } else {
        last_dot(name.drop_last())
    }
}

/// The extension of a file name, as `Path::extension` gives it: the part
/// after the last `'.'`, except for `".."` and for names whose only `'.'`
/// is their first character (and names without any `'.'`), which have none.
pub open spec fn file_extension(name: Seq<char>) -> Option<Seq<char>> {
    if name == seq!['.', '.'] || last_dot(name) <= 0 {
        None
    } else {
        Some(name.skip(last_dot(name) + 1))
    }
}

/// The stem of a file name that has an extension (`Path::file_stem`): the
/// part before the last `'.'`.
pub open spec fn file_stem(name: Seq<char>) -> Seq<char> {
    if file_extension(name) is Some {
        name.take(last_dot(name))
    } else {
        name
    }
}

proof fn lemma_last_dot_bounds(name: Seq<char>)
    ensures
        -1 <= last_dot(name) < name.len(),
        last_dot(name) >= 0 ==> name[last_dot(name)] == '.',
        forall|k: int| last_dot(name) < k < name.len() ==> name[k] != '.',
    decreases name.len(),
{
    if name.len() > 0 && name.last() != '.' {
        lemma_last_dot_bounds(name.drop_last());
        assert forall|k: int| last_dot(name) < k < name.len() implies name[k] != '.' by {
            if k < name.len() - 1 {
                assert(name[k] == name.drop_last()[k]);
            }
        }
    }
}

/// The name under which a fixture file is known: the stem of `file_name`
/// when its extension is `extension`, and `None` for any other file.
pub fn fixture_stem(file_name: &str, extension: &str) -> (r: Option<String>)
    ensures
        r matches Some(stem) ==> file_extension(file_name@) == Some(extension@)
            && stem@ == file_stem(file_name@),
        r is None ==> file_extension(file_name@) != Some(extension@),
{
    let name = chars_of(file_name);
    let ext = chars_of(extension);
    proof {
        lemma_last_dot_bounds(name@);
    }
    let mut d = name.len();
    while d > 0 && name[d - 1] != '.'
        invariant
            d <= name.len(),
            forall|k: int| d <= k < name.len() ==> name@[k] != '.',
        decreases d,
    {
        d -= 1;
    }
    // `d` is one past the last dot, or 0 when there is none
    proof {
        if d > 0 {
            assert(last_dot(name@) == d - 1) by {
                lemma_last_dot_bounds(name@);
            }
        } else {
            assert(last_dot(name@) == -1) by {
                lemma_last_dot_bounds(name@);
            }
        }
    }
    if name.len() == 2 && name[0] == '.' && name[1] == '.' {
        proof {
            assert(name@ =~= seq!['.', '.']);
        }
        return None;
    }
    proof {
        assert(name@ != seq!['.', '.']) by {
            if name@ == seq!['.', '.'] {
                assert(name@[0] == '.' && name@[1] == '.');
            }
        }
    }
    if d <= 1 {
        return None;
    }
    proof {
        assert(file_extension(name@) == Some(name@.skip(d as int)));
    }
    if name.len() - d != ext.len() {
        proof {
            assert(name@.skip(d as int).len() != ext@.len());
        }
        return None;
    }
    let mut k: usize = 0;
    while k < ext.len()
        invariant
            d + ext.len() == name.len(),
            k <= ext.len(),
            name@ == file_name@,
            ext@ == extension@,
            file_extension(name@) == Some(name@.skip(d as int)),
            forall|j: int| 0 <= j < k ==> name@[d + j] == ext@[j],
        decreases ext.len() - k,
    {
        if name[d + k] != ext[k] {
            proof {
                assert(name@.skip(d as int)[k as int] != ext@[k as int]);
                assert(name@.skip(d as int) != ext@);
            }
            return None;
        }
        k += 1;
    }
    proof {
        assert(name@.skip(d as int) =~= ext@);
    }
    let mut stem: Vec<char> = Vec::new();
    let mut j: usize = 0;
    while j < d - 1
        invariant
            j <= d - 1,
            d <= name.len(),
            stem@ =~= name@.take(j as int),
        decreases d - 1 - j,
    {
        stem.push(name[j]);
        j += 1;
    }
    Some(string_of(stem.as_slice()))
}

/// The gasoline fixtures: the `.kt` files of the fixture directory, given as
/// `(file stem, source)` pairs in any order, ordered by name.
pub fn load_gasoline_fixtures(files: Vec<(String, String)>) -> (fixtures: Vec<(String, String)>)
    ensures
        fixtures.deep_view() == sorted_by_name(files.deep_view()),
{
    sort_by_name(&files)
}

/// The cases of one corpus file, each named `"<file>::<case>"`.
pub open spec fn file_cases(file: (Seq<char>, Seq<char>)) -> Seq<(Seq<char>, Seq<char>)> {
    corpus_cases(lines_of(file.1)).map_values(
        |c: (Seq<char>, Seq<char>)| (file.0 + seq![':', ':'] + c.0, c.1),
    )
}

/// The cases of all the corpus files, file after file.
pub open spec fn all_file_cases(files: Seq<(Seq<char>, Seq<char>)>) -> Seq<(Seq<char>, Seq<char>)>
    decreases files.len(),
{
    if files.len() == 0 {
        Seq::empty()
    } else {
        all_file_cases(files.drop_last()) + file_cases(files.last())
    }
}

/// The corpus fixtures: every case of every `.txt` file of the grammar's
/// corpus directory (given as `(file stem, content)` pairs in any order),
/// files taken in order of name, each case named `"<file>::<case>"`.
pub fn load_corpus_fixtures(files: Vec<(String, String)>) -> (fixtures: Vec<(String, String)>)
    ensures
        fixtures.deep_view() == all_file_cases(sorted_by_name(files.deep_view())),
{
    let sorted = sort_by_name(&files);
    let ghost ss = sorted.deep_view();
    let mut fixtures: Vec<(String, String)> = Vec::new();
    let mut i: usize = 0;
    proof {
        assert(ss.take(0) =~= Seq::<(Seq<char>, Seq<char>)>::empty());
    }
    while i < sorted.len()
        invariant
            i <= sorted.len(),
            ss == sorted.deep_view(),
            fixtures.deep_view() == all_file_cases(ss.take(i as int)),
        decreases sorted.len() - i,
    {
        let file_name = chars_of(sorted[i].0.as_str());
        let cases = parse_corpus_file(sorted[i].1.as_str());
        let ghost fv = ss[i as int];
        let ghost before = fixtures.deep_view();
        let ghost fc = file_cases(fv);
        let mut k: usize = 0;
        while k < cases.len()
            invariant
                k <= cases.len(),
                file_name@ == fv.0,
                cases.deep_view() == corpus_cases(lines_of(fv.1)),
                fc == file_cases(fv),
                fixtures.deep_view() =~= before + fc.take(k as int),
            decreases cases.len() - k,
        {
            let mut name = file_name.clone();
            name.push(':');
            name.push(':');
            let case_name = chars_of(cases[k].0.as_str());
            push_all(&mut name, case_name.as_slice());
            let entry = (string_of(name.as_slice()), cases[k].1.clone());
            let ghost old_fix = fixtures.deep_view();
            proof {
                assert(name@ =~= fv.0 + seq![':', ':'] + cases.deep_view()[k as int].0);
                assert(fc[k as int] == (name@, cases.deep_view()[k as int].1));
                assert(entry.deep_view() == fc[k as int]);
                assert(fc.take(k + 1) =~= fc.take(k as int).push(fc[k as int]));
            }
            fixtures.push(entry);
            proof {
                assert(fixtures.deep_view() =~= old_fix.push(fc[k as int]));
            }
            k += 1;
        }
        proof {
            assert(fc.take(k as int) =~= fc);
            assert(ss.take(i + 1).drop_last() =~= ss.take(i as int));
        }
        i += 1;
    }
    proof {
        assert(ss.take(i as int) =~= ss);
    }
    fixtures
}


proof fn lemma_name_lt_irreflexive(a: Seq<char>)
    ensures
        !name_lt(a, a),
    decreases a.len(),
{
    if a.len() > 0 {
        lemma_name_lt_irreflexive(a.drop_first());
    }
}

proof fn lemma_name_lt_transitive(a: Seq<char>, b: Seq<char>, c: Seq<char>)
    requires
        name_lt(a, b),
        name_lt(b, c),
    ensures
        name_lt(a, c),
    decreases a.len(),
{
    if a.len() > 0 && b.len() > 0 && c.len() > 0 && a[0] == b[0] && b[0] == c[0] {
        lemma_name_lt_transitive(a.drop_first(), b.drop_first(), c.drop_first());
    }
}

proof fn lemma_name_lt_total(a: Seq<char>, b: Seq<char>)
    requires
        a != b,
    ensures
        name_lt(a, b) || name_lt(b, a),
    decreases a.len(),
{
    if a.len() > 0 && b.len() > 0 {
        if a[0] == b[0] {
            if a.drop_first() == b.drop_first() {
                assert(a =~= seq![a[0]] + a.drop_first());
                assert(b =~= seq![b[0]] + b.drop_first());
            }
            lemma_name_lt_total(a.drop_first(), b.drop_first());
        } else {
            vstd::utf8::char_u32_cast(a[0], a[0] as u32);
            vstd::utf8::char_u32_cast(b[0], b[0] as u32);
            assert((a[0] as u32) != (b[0] as u32));
        }
    } else if a.len() == 0 && b.len() == 0 {
        assert(a =~= b);
    }
}

/// Names never decrease along `s`.
pub open spec fn is_sorted_by_name(s: Seq<(Seq<char>, Seq<char>)>) -> bool {
    forall|i: int, j: int| 0 <= i < j < s.len() ==> !name_lt((#[trigger] s[j]).0, (#[trigger] s[i]).0)
}

proof fn lemma_insert_by_name(s: Seq<(Seq<char>, Seq<char>)>, x: (Seq<char>, Seq<char>))
    requires
        is_sorted_by_name(s),
    ensures
        is_sorted_by_name(insert_by_name(s, x)),
        insert_by_name(s, x).to_multiset() == s.to_multiset().insert(x),
        forall|k: int|
            0 <= k < insert_by_name(s, x).len() ==> #[trigger] insert_by_name(s, x)[k] == x || s.contains(
                insert_by_name(s, x)[k],
            ),
    decreases s.len(),
{
    broadcast use vstd::seq_lib::to_multiset_build;

    let r = insert_by_name(s, x);
    if s.len() == 0 {
        assert(s =~= Seq::<(Seq<char>, Seq<char>)>::empty());
        assert(r =~= Seq::<(Seq<char>, Seq<char>)>::empty().push(x));
    } else if name_lt(x.0, s.last().0) {
        let t = s.drop_last();
        let last = s.last();
        assert forall|i: int, j: int| 0 <= i < j < t.len() implies !name_lt(
            (#[trigger] t[j]).0,
            (#[trigger] t[i]).0,
        ) by {
            assert(t[i] == s[i] && t[j] == s[j]);
        }
        lemma_insert_by_name(t, x);
        let u = insert_by_name(t, x);
        assert(r == u.push(last));
        assert(s =~= t.push(last));
        assert forall|i: int, j: int| 0 <= i < j < r.len() implies !name_lt(
            (#[trigger] r[j]).0,
            (#[trigger] r[i]).0,
        ) by {
            if j == r.len() - 1 {
                assert(r[j] == last);
                assert(r[i] == u[i]);
                if u[i] == x {
                    if name_lt(last.0, x.0) {
                        lemma_name_lt_transitive(x.0, last.0, x.0);
                        lemma_name_lt_irreflexive(x.0);
                    }
                } else {
                    assert(t.contains(u[i]));
                    let k = choose|k: int| 0 <= k < t.len() && t[k] == u[i];
                    assert(s[k] == t[k]);
                    assert(s[s.len() - 1] == last);
                }
            } else {
                assert(r[i] == u[i] && r[j] == u[j]);
            }
        }
        assert forall|k: int| 0 <= k < r.len() implies #[trigger] r[k] == x || s.contains(r[k]) by {
            if k == r.len() - 1 {
                assert(s[s.len() - 1] == r[k]);
            } else {
                assert(r[k] == u[k]);
                if u[k] != x {
                    let m = choose|m: int| 0 <= m < t.len() && t[m] == u[k];
                    assert(s[m] == t[m]);
                }
            }
        }
    } else {
        let last = s.last();
        assert(r == s.push(x));
        assert forall|i: int, j: int| 0 <= i < j < r.len() implies !name_lt(
            (#[trigger] r[j]).0,
            (#[trigger] r[i]).0,
        ) by {
            if j == r.len() - 1 {
                assert(r[j] == x);
                assert(r[i] == s[i]);
                if name_lt(x.0, s[i].0) {
                    if i < s.len() - 1 {
                        assert(!name_lt(last.0, s[i].0));
                        if s[i].0 != last.0 {
                            lemma_name_lt_total(s[i].0, last.0);
                            lemma_name_lt_transitive(x.0, s[i].0, last.0);
                        }
                    }
                }
            } else {
                assert(r[i] == s[i] && r[j] == s[j]);
            }
        }
        assert forall|k: int| 0 <= k < r.len() implies #[trigger] r[k] == x || s.contains(r[k]) by {
            if k < s.len() {
                assert(r[k] == s[k]);
            }
        }
    }
}

/// Sorting by name puts the names in order and keeps every entry: the result
/// is a permutation of the input whose names never decrease.
pub proof fn law_sorted_by_name(s: Seq<(Seq<char>, Seq<char>)>)
    ensures
        is_sorted_by_name(sorted_by_name(s)),
        sorted_by_name(s).to_multiset() == s.to_multiset(),
    decreases s.len(),
{
    broadcast use vstd::seq_lib::to_multiset_build;

    if s.len() > 0 {
        law_sorted_by_name(s.drop_last());
        lemma_insert_by_name(sorted_by_name(s.drop_last()), s.last());
        assert(s =~= s.drop_last().push(s.last()));
    }
}


/// Every case of a corpus file has a non-empty source, and both its name and
/// its source are trimmed: no whitespace at either end.
pub proof fn law_corpus_cases_trimmed(lines: Seq<Seq<char>>)
    ensures
        forall|i: int|
            0 <= i < corpus_cases(lines).len() ==> {
                let c = #[trigger] corpus_cases(lines)[i];
                &&& c.1.len() > 0
                &&& trim(c.1) == c.1
                &&& trim(c.0) == c.0
            },
    decreases lines.len(),
{
    if lines.len() == 0 {
    } else if !is_rule_line(lines[0], '=') {
        law_corpus_cases_trimmed(lines.drop_first());
        assert(corpus_cases(lines) == corpus_cases(lines.drop_first()));
    } else {
        let a = lines.drop_first();
        let n = run_len(a, '=') as int;
        let b = drop_lines(a, n + 1);
        let m = run_len(b, '-') as int;
        let c = drop_lines(b, m + 1);
        let k = run_len(c, '=') as int;
        let rest = drop_lines(c, k);
        assert(rest.len() < lines.len());
        let name = join(a.take(n), seq![' ']);
        let source = join(b.take(m), seq!['\n']);
        law_trim_idempotent(name);
        law_trim_idempotent(source);
        law_corpus_cases_trimmed(rest);
        let here = if trim(source).len() > 0 {
            seq![(trim(name), trim(source))]
        } else {
            Seq::<(Seq<char>, Seq<char>)>::empty()
        };
        let all = corpus_cases(lines);
        assert(all == here + corpus_cases(rest));
        assert forall|i: int| 0 <= i < all.len() implies {
            let e = #[trigger] all[i];
            &&& e.1.len() > 0
            &&& trim(e.1) == e.1
            &&& trim(e.0) == e.0
        } by {
            if i >= here.len() {
                assert(all[i] == corpus_cases(rest)[i - here.len()]);
            } else {
                assert(all[i] == (trim(name), trim(source)));
            }
        }
    }
}


/// A file holding one case: an opening `=` rule, the name lines, a closing
/// `=` rule, the source lines and a `-` rule. The case's name is all the name
/// lines joined by spaces and its source all the source lines, blank ones
/// included, joined by newlines, both trimmed; the case is there exactly when
/// that source is not empty.
pub proof fn law_single_case(
    open: Seq<char>,
    names: Seq<Seq<char>>,
    close: Seq<char>,
    source: Seq<Seq<char>>,
    dash: Seq<char>,
)
    requires
        is_rule_line(open, '='),
        is_rule_line(close, '='),
        is_rule_line(dash, '-'),
        forall|i: int| 0 <= i < names.len() ==> !is_rule_line(#[trigger] names[i], '='),
        forall|i: int| 0 <= i < source.len() ==> !is_rule_line(#[trigger] source[i], '-'),
    ensures
        corpus_cases(seq![open] + names + seq![close] + source + seq![dash]) == if trim(
            join(source, seq!['\n']),
        ).len() > 0 {
            seq![(trim(join(names, seq![' '])), trim(join(source, seq!['\n'])))]
        } else {
            Seq::<(Seq<char>, Seq<char>)>::empty()
        },
{
    let lines = seq![open] + names + seq![close] + source + seq![dash];
    let a = lines.drop_first();
    assert(a =~= names + seq![close] + source + seq![dash]);
    assert forall|j: int| 0 <= j < names.len() implies !is_rule_line(#[trigger] a[j], '=') by {
        assert(a[j] == names[j]);
    }
    assert(a[names.len() as int] == close);
    lemma_run_len_exact(a, '=', names.len() as int);
    let n = names.len() as int;
    let b = drop_lines(a, n + 1);
    assert(b =~= source + seq![dash]);
    assert forall|j: int| 0 <= j < source.len() implies !is_rule_line(#[trigger] b[j], '-') by {
        assert(b[j] == source[j]);
    }
    assert(b[source.len() as int] == dash);
    lemma_run_len_exact(b, '-', source.len() as int);
    let m = source.len() as int;
    let c = drop_lines(b, m + 1);
    assert(c =~= Seq::<Seq<char>>::empty());
    assert(run_len(c, '=') == 0);
    assert(drop_lines(c, 0) =~= Seq::<Seq<char>>::empty());
    assert(corpus_cases(Seq::<Seq<char>>::empty()) =~= Seq::<(Seq<char>, Seq<char>)>::empty());
    assert(a.take(n) =~= names);
    assert(b.take(m) =~= source);
    assert(lines[0] == open);
    let here = if trim(join(source, seq!['\n'])).len() > 0 {
        seq![(trim(join(names, seq![' '])), trim(join(source, seq!['\n'])))]
    } else {
        Seq::<(Seq<char>, Seq<char>)>::empty()
    };
    assert(corpus_cases(lines) =~= here + Seq::<(Seq<char>, Seq<char>)>::empty());
}

} // verus!
