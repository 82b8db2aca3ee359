use vstd::prelude::*;

verus! {

/// Appends one character to a string; std's `String::push`.
#[verifier::external_body]
fn push_char(s: &mut String, c: char)
    ensures
        final(s)@ == old(s)@.push(c),
{
    s.push(c);
}

/// The characters of a string slice, in order.
pub fn chars_of(s: &str) -> (v: Vec<char>)
    ensures
        v@ == s@,
{
    let mut v: Vec<char> = Vec::new();
    for c in it: s.chars()
        invariant
            v@ == it.seq().take(it.index() as int),
            it.seq() == s@,
    {
        v.push(c);
    }
    v
}

/// A string made of the given characters.
pub fn string_of(v: &[char]) -> (s: String)
    ensures
        s@ == v@,
{
    let mut s = String::new();
    let mut i: usize = 0;
    while i < v.len()
        invariant
            i <= v@.len(),
            s@ == v@.take(i as int),
        decreases v@.len() - i,
    {
        push_char(&mut s, v[i]);
        assert(v@.take(i as int).push(v@[i as int]) =~= v@.take(i + 1));
        i += 1;
    }
    assert(v@.take(v@.len() as int) =~= v@);
    s
}

} // verus!

verus! {

/// The character sequences held by a vector of character vectors.
pub open spec fn seqs_of(v: Seq<Vec<char>>) -> Seq<Seq<char>> {
    Seq::new(v.len(), |i: int| v[i]@)
}

/// `s` split at every occurrence of `sep`, like `str::split`: always at
/// least one (possibly empty) part.
pub open spec fn split_on(s: Seq<char>, sep: char) -> Seq<Seq<char>>
    decreases s.len(),
{
    if s.len() == 0 {
        seq![Seq::<char>::empty()]
    } else {
        let p = split_on(s.drop_last(), sep);
        if s.last() == sep {
            p.push(Seq::<char>::empty())
        } else {
            p.update(p.len() - 1, p.last().push(s.last()))
        }
    }
}

/// The parts joined with `sep` between consecutive parts.
pub open spec fn join_with(parts: Seq<Seq<char>>, sep: char) -> Seq<char>
    decreases parts.len(),
{
    if parts.len() == 0 {
        Seq::<char>::empty()
    } else if parts.len() == 1 {
        parts[0]
    } else {
        join_with(parts.drop_last(), sep) + seq![sep] + parts.last()
    }
}

pub proof fn lemma_split_on_nonempty(s: Seq<char>, sep: char)
    ensures
        split_on(s, sep).len() >= 1,
    decreases s.len(),
{
    if s.len() > 0 {
        lemma_split_on_nonempty(s.drop_last(), sep);
    }
}

/// Splits a character vector at every `sep`.
pub fn split_chars(s: &Vec<char>, sep: char) -> (parts: Vec<Vec<char>>)
    ensures
        seqs_of(parts@) == split_on(s@, sep),
{
    let mut parts: Vec<Vec<char>> = Vec::new();
    let mut cur: Vec<char> = Vec::new();
    let mut i: usize = 0;
    proof {
        assert(s@.take(0) =~= Seq::<char>::empty());
        assert(seqs_of(parts@).push(cur@) =~= split_on(s@.take(0), sep));
    }
    while i < s.len()
        invariant
            i <= s@.len(),
            seqs_of(parts@).push(cur@) == split_on(s@.take(i as int), sep),
        decreases s@.len() - i,
    {
        let c = s[i];
        let ghost prev = s@.take(i as int);
        assert(s@.take(i + 1).drop_last() =~= prev);
        assert(s@.take(i + 1).last() == c);
        proof {
            lemma_split_on_nonempty(prev, sep);
        }
        if c == sep {
            let done = cur;
            parts.push(done);
            cur = Vec::new();
            assert(seqs_of(parts@).push(cur@) =~= split_on(prev, sep).push(Seq::<char>::empty()));
        } else {
            let ghost old_parts = seqs_of(parts@);
            cur.push(c);
            assert(seqs_of(parts@) =~= old_parts);
            assert(seqs_of(parts@).push(cur@) =~= split_on(prev, sep).update(
                split_on(prev, sep).len() - 1,
                split_on(prev, sep).last().push(c),
            ));
        }
        i += 1;
    }
    assert(s@.take(s@.len() as int) =~= s@);
    parts.push(cur);
    parts
}

/// Joins character vectors with `sep` between consecutive parts.
pub fn join_chars(parts: &Vec<Vec<char>>, sep: char) -> (out: Vec<char>)
    ensures
        out@ == join_with(seqs_of(parts@), sep),
{
    let mut out: Vec<char> = Vec::new();
    let mut i: usize = 0;
    while i < parts.len()
        invariant
            i <= parts@.len(),
            out@ == join_with(seqs_of(parts@).take(i as int), sep),
        decreases parts@.len() - i,
    {
        let ghost before = out@;
        if i > 0 {
            out.push(sep);
        }
        let mut j: usize = 0;
        let part = &parts[i];
        while j < part.len()
            invariant
                j <= part@.len(),
                part == parts@[i as int],
                i < parts@.len(),
                out@ == (if i > 0 { before + seq![sep] } else { before }) + part@.take(j as int),
            decreases part@.len() - j,
        {
            out.push(part[j]);
            assert(part@.take(j + 1) =~= part@.take(j as int).push(part@[j as int]));
            j += 1;
        }
        assert(part@.take(part@.len() as int) =~= part@);
        let ghost t = seqs_of(parts@).take(i + 1);
        assert(t.drop_last() =~= seqs_of(parts@).take(i as int));
        assert(t.last() == part@);
        if i == 0 {
            assert(t.len() == 1);
            assert(before =~= Seq::<char>::empty());
            assert(out@ =~= t[0]);
        }
        i += 1;
    }
    assert(seqs_of(parts@).take(parts@.len() as int) =~= seqs_of(parts@));
    out
}

/// Whether two character vectors hold the same characters.
pub fn chars_eq(a: &Vec<char>, b: &Vec<char>) -> (r: bool)
    ensures
        r == (a@ == b@),
{
    if a.len() != b.len() {
        return false;
    }
    let mut i: usize = 0;
    while i < a.len()
        invariant
            a@.len() == b@.len(),
            i <= a@.len(),
            forall|k: int| 0 <= k < i ==> a@[k] == b@[k],
        decreases a@.len() - i,
    {
        if a[i] != b[i] {
            return false;
        }
        i += 1;
    }
    assert(a@ =~= b@);
    true
}

/// Whether `a` holds exactly the characters of the literal `lit`.
pub open spec fn is_lit(a: Seq<char>, lit: Seq<char>) -> bool {
    a == lit
}

} // verus!

verus! {

/// Rust's `char::is_whitespace`: the Unicode `White_Space` characters.
pub open spec fn spec_is_whitespace(c: char) -> bool {
    ('\u{9}' <= c && c <= '\u{D}') || c == ' ' || c == '\u{85}' || c == '\u{A0}' || c == '\u{1680}'
        || ('\u{2000}' <= c && c <= '\u{200A}') || c == '\u{2028}' || c == '\u{2029}'
        || c == '\u{202F}' || c == '\u{205F}' || c == '\u{3000}'
}

pub fn is_whitespace(c: char) -> (r: bool)
    ensures
        r == spec_is_whitespace(c),
{
    ('\u{9}' <= c && c <= '\u{D}') || c == ' ' || c == '\u{85}' || c == '\u{A0}' || c == '\u{1680}'
        || ('\u{2000}' <= c && c <= '\u{200A}') || c == '\u{2028}' || c == '\u{2029}'
        || c == '\u{202F}' || c == '\u{205F}' || c == '\u{3000}'
}

/// `s` without leading whitespace.
pub open spec fn trim_start(s: Seq<char>) -> Seq<char>
    decreases s.len(),
{
    if s.len() > 0 && spec_is_whitespace(s[0]) { trim_start(s.drop_first()) } else { s }
}

/// `s` without trailing whitespace.
pub open spec fn trim_end(s: Seq<char>) -> Seq<char>
    decreases s.len(),
{
    if s.len() > 0 && spec_is_whitespace(s.last()) { trim_end(s.drop_last()) } else { s }
}

/// `str::trim`: `s` without leading and trailing whitespace.
pub open spec fn spec_trim(s: Seq<char>) -> Seq<char> {
    trim_end(trim_start(s))
}

/// The characters of `s` without leading and trailing whitespace.
pub fn trim_chars(s: &Vec<char>) -> (out: Vec<char>)
    ensures
        out@ == spec_trim(s@),
{
    let mut start: usize = 0;
    assert(s@.skip(0) =~= s@);
    while start < s.len() && is_whitespace(s[start])
        invariant
            start <= s@.len(),
            trim_start(s@) == trim_start(s@.skip(start as int)),
        decreases s@.len() - start,
    {
        assert(s@.skip(start as int).drop_first() =~= s@.skip(start + 1));
        start += 1;
    }
    let mut end = s.len();
    assert(s@.skip(start as int).take(end - start) =~= s@.skip(start as int));
    while end > start && is_whitespace(s[end - 1])
        invariant
            start <= end <= s@.len(),
            trim_end(trim_start(s@)) == trim_end(s@.subrange(start as int, end as int)),
        decreases end,
    {
        assert(s@.subrange(start as int, end as int).drop_last() =~= s@.subrange(start as int, end - 1));
        end -= 1;
    }
    let mut out: Vec<char> = Vec::new();
    let mut j = start;
    while j < end
        invariant
            start <= j <= end,
            end <= s@.len(),
            out@ == s@.subrange(start as int, j as int),
        decreases end - j,
    {
        out.push(s[j]);
        assert(s@.subrange(start as int, j + 1) =~= s@.subrange(start as int, j as int).push(s@[j as int]));
        j += 1;
    }
    out
}


/// The characters of `s` from `from` up to `to`.
pub fn copy_range(s: &Vec<char>, from: usize, to: usize) -> (out: Vec<char>)
    requires
        from <= to <= s@.len(),
    ensures
        out@ == s@.subrange(from as int, to as int),
{
    let mut out = Vec::new();
    let mut j = from;
    while j < to
        invariant
            from <= j <= to,
            to <= s@.len(),
            out@ == s@.subrange(from as int, j as int),
        decreases to - j,
    {
        out.push(s[j]);
        assert(s@.subrange(from as int, j + 1) =~= s@.subrange(from as int, j as int).push(s@[j as int]));
        j += 1;
    }
    out
}

/// Appends the characters of `s` to `out`.
pub fn extend_chars(out: &mut Vec<char>, s: &Vec<char>)
    ensures
        final(out)@ == old(out)@ + s@,
{
    let ghost start = out@;
    let mut j: usize = 0;
    while j < s.len()
        invariant
            j <= s@.len(),
            out@ == start + s@.take(j as int),
        decreases s@.len() - j,
    {
        out.push(s[j]);
        assert(s@.take(j + 1) =~= s@.take(j as int).push(s@[j as int]));
        j += 1;
    }
    assert(s@.take(s@.len() as int) =~= s@);
}

/// `a` followed by `b`.
pub fn concat_chars(a: &Vec<char>, b: &Vec<char>) -> (out: Vec<char>)
    ensures
        out@ == a@ + b@,
{
    let mut out = a.clone();
    assert(out@ == a@);
    extend_chars(&mut out, b);
    out
}


/// The first index at or after `i` where `m` occurs in `s`.
pub open spec fn first_occurrence(s: Seq<char>, m: Seq<char>, i: int) -> Option<int>
    decreases s.len() + 1 - i,
{
    if i < 0 || i + m.len() > s.len() {
        None
    } else if s.subrange(i, i + m.len()) == m {
        Some(i)
    } else {
        first_occurrence(s, m, i + 1)
    }
}

proof fn lemma_first_occurrence_range(s: Seq<char>, m: Seq<char>, i: int)
    requires
        0 <= i,
    ensures
        first_occurrence(s, m, i) matches Some(k) ==> i <= k && k + m.len() <= s.len()
            && s.subrange(k, k + m.len()) == m,
    decreases s.len() + 1 - i,
{
    if i + m.len() <= s.len() && s.subrange(i, i + m.len()) != m {
        lemma_first_occurrence_range(s, m, i + 1);
    }
}

/// Where `m` first occurs in `s`, like `str::find`.
pub fn find_chars(s: &Vec<char>, m: &Vec<char>) -> (r: Option<usize>)
    ensures
        r matches Some(k) ==> first_occurrence(s@, m@, 0) == Some(k as int) && k + m@.len() <= s@.len(),
        r is None ==> first_occurrence(s@, m@, 0) is None,
{
    if m.len() > s.len() {
        return None;
    }
    let n = s.len();
    let last = n - m.len();
    let mut i: usize = 0;
    while i <= last
        invariant
            n == s@.len(),
            last == s@.len() - m@.len(),
            i <= last + 1,
            first_occurrence(s@, m@, 0) == first_occurrence(s@, m@, i as int),
        decreases last + 1 - i,
    {
        let part = copy_range(s, i, i + m.len());
        if chars_eq(&part, m) {
            return Some(i);
        }
        if i == last {
            assert(first_occurrence(s@, m@, i + 1) is None);
            return None;
        }
        i += 1;
    }
    None
}

/// Rust's `{:?}` rendering of a string: quoted, with escapes.
pub uninterp spec fn debug_quoted(s: Seq<char>) -> Seq<char>;

/// The `Debug` rendering of a string (std's `format!("{s:?}")`).
#[verifier::external_body]
pub(crate) fn debug_quote(s: &str) -> (r: String)
    ensures
        r@ == debug_quoted(s@),
{
    format!("{s:?}")
}


/// The first index at or after `i` holding `c`.
pub open spec fn first_index_from(s: Seq<char>, c: char, i: int) -> Option<int>
    decreases s.len() - i,
{
    if i < 0 || i >= s.len() {
        None
    } else if s[i] == c {
        Some(i)
    } else {
        first_index_from(s, c, i + 1)
    }
}

/// The first index holding `c`.
pub open spec fn first_index(s: Seq<char>, c: char) -> Option<int> {
    first_index_from(s, c, 0)
}

/// The last index below `n` holding `c`.
pub open spec fn last_index_before(s: Seq<char>, c: char, n: int) -> Option<int>
    decreases n,
{
    if n <= 0 {
        None
    } else if s[n - 1] == c {
        Some(n - 1)
    } else {
        last_index_before(s, c, n - 1)
    }
}

/// The last index holding `c`.
pub open spec fn last_index(s: Seq<char>, c: char) -> Option<int> {
    last_index_before(s, c, s.len() as int)
}

pub proof fn lemma_first_index_from(s: Seq<char>, c: char, i: int)
    requires
        0 <= i,
    ensures
        first_index_from(s, c, i) matches Some(k) ==> i <= k < s.len() && s[k] == c
            && forall|j: int| i <= j < k ==> s[j] != c,
        first_index_from(s, c, i) is None ==> forall|j: int| i <= j < s.len() ==> s[j] != c,
    decreases s.len() - i,
{
    if i < s.len() && s[i] != c {
        lemma_first_index_from(s, c, i + 1);
    }
}

pub proof fn lemma_last_index_before(s: Seq<char>, c: char, n: int)
    requires
        n <= s.len(),
    ensures
        last_index_before(s, c, n) matches Some(k) ==> 0 <= k < n && s[k] == c
            && forall|j: int| k < j < n ==> s[j] != c,
        last_index_before(s, c, n) is None ==> forall|j: int| 0 <= j < n ==> s[j] != c,
    decreases n,
{
    if n > 0 && s[n - 1] != c {
        lemma_last_index_before(s, c, n - 1);
    }
}

/// Where `c` first occurs in `v`.
pub fn find_char(v: &Vec<char>, c: char) -> (r: Option<usize>)
    ensures
        r matches Some(k) ==> first_index(v@, c) == Some(k as int) && k < v@.len(),
        r is None ==> first_index(v@, c) is None,
{
    let mut i: usize = 0;
    while i < v.len()
        invariant
            i <= v@.len(),
            first_index(v@, c) == first_index_from(v@, c, i as int),
        decreases v@.len() - i,
    {
        if v[i] == c {
            return Some(i);
        }
        i += 1;
    }
    None
}

/// Where `c` last occurs in `v`.
pub fn rfind_char(v: &Vec<char>, c: char) -> (r: Option<usize>)
    ensures
        r matches Some(k) ==> last_index(v@, c) == Some(k as int) && k < v@.len(),
        r is None ==> last_index(v@, c) is None,
{
    let mut n = v.len();
    while n > 0
        invariant
            n <= v@.len(),
            last_index(v@, c) == last_index_before(v@, c, n as int),
        decreases n,
    {
        if v[n - 1] == c {
            return Some(n - 1);
        }
        n -= 1;
    }
    None
}

/// Whether `s` begins with `p`.
pub open spec fn starts_with(s: Seq<char>, p: Seq<char>) -> bool {
    p.len() <= s.len() && s.take(p.len() as int) == p
}

/// Whether `v` begins with the literal `lit`.
pub fn starts_with_str(v: &Vec<char>, lit: &str) -> (r: bool)
    ensures
        r == starts_with(v@, lit@),
{
    let p = chars_of(lit);
    if p.len() > v.len() {
        return false;
    }
    let head = copy_range(v, 0, p.len());
    assert(head@ =~= v@.take(p@.len() as int));
    chars_eq(&head, &p)
}

/// Whether `v` contains the character `c`.
pub fn contains_char(v: &Vec<char>, c: char) -> (r: bool)
    ensures
        r == v@.contains(c),
{
    let mut i: usize = 0;
    while i < v.len()
        invariant
            i <= v@.len(),
            forall|k: int| 0 <= k < i ==> v@[k] != c,
        decreases v@.len() - i,
    {
        if v[i] == c {
            assert(v@[i as int] == c);
            return true;
        }
        i += 1;
    }
    false
}

/// An occurrence of `m` at `t >= i` means the first one from `i` exists.
pub proof fn lemma_first_occurrence_complete(s: Seq<char>, m: Seq<char>, i: int, t: int)
    requires
        0 <= i <= t,
        t + m.len() <= s.len(),
        s.subrange(t, t + m.len()) == m,
    ensures
        first_occurrence(s, m, i) is Some,
    decreases t - i,
{
    if s.subrange(i, i + m.len()) != m {
        lemma_first_occurrence_complete(s, m, i + 1, t);
    }
}

/// `s` without one trailing carriage return.
pub open spec fn strip_cr(s: Seq<char>) -> Seq<char> {
    if s.len() > 0 && s.last() == '\r' { s.drop_last() } else { s }
}

/// `str::lines`: the parts between line feeds, each without a `\r` that
/// ended it before the line feed; a last part that no line feed ended is
/// kept whole, and dropped when empty.
pub open spec fn spec_lines(s: Seq<char>) -> Seq<Seq<char>> {
    let parts = split_on(s, '\n');
    let ended = Seq::new((parts.len() - 1) as nat, |i: int| strip_cr(parts[i]));
    if parts.last().len() == 0 { ended } else { ended.push(parts.last()) }
}

/// The lines of a character vector (see `spec_lines`).
pub fn lines_chars(s: &Vec<char>) -> (out: Vec<Vec<char>>)
    ensures
        seqs_of(out@) == spec_lines(s@),
{
    let parts = split_chars(s, '\n');
    let ghost ps = seqs_of(parts@);
    proof {
        lemma_split_on_nonempty(s@, '\n');
    }
    let n = parts.len();
    let mut out: Vec<Vec<char>> = Vec::new();
    let mut i: usize = 0;
    while i + 1 < n
        invariant
            n == parts@.len(),
            n >= 1,
            i <= n - 1,
            ps == seqs_of(parts@),
            seqs_of(out@) == Seq::new(i as nat, |k: int| strip_cr(ps[k])),
        decreases n - i,
    {
        let part = &parts[i];
        let line = if part.len() > 0 && part[part.len() - 1] == '\r' {
            copy_range(part, 0, part.len() - 1)
        } else {
            copy_range(part, 0, part.len())
        };
        assert(line@ =~= strip_cr(ps[i as int]));
        let ghost before = seqs_of(out@);
        out.push(line);
        assert(seqs_of(out@) =~= before.push(strip_cr(ps[i as int])));
        assert(seqs_of(out@) =~= Seq::new((i + 1) as nat, |k: int| strip_cr(ps[k])));
        i += 1;
    }
    let last = &parts[n - 1];
    assert(ps.last() == last@);
    if last.len() > 0 {
        let ghost before = seqs_of(out@);
        let whole = copy_range(last, 0, last.len());
        assert(whole@ =~= last@);
        out.push(whole);
        assert(seqs_of(out@) =~= before.push(ps.last()));
    }
    assert(seqs_of(out@) =~= spec_lines(s@));
    out
}
} // verus!
