//! Finds the user functions in the source text of a panel file: each is marked by a
//! line `#[no_mangle]`, and its name starts with `UD_`.

use vstd::prelude::*;
use vstd::std_specs::iter::IteratorSpec;

verus! {

broadcast use vstd::string::group_string_axioms;

/// The characters of `s`, in order.
pub fn chars_of(s: &str) -> (v: Vec<char>)
    ensures
        v@ == s@,
{
    let mut it = s.chars();
    let mut v: Vec<char> = Vec::new();
    loop
        invariant
            it.obeys_prophetic_iter_laws(),
            v@ + it.remaining() == s@,
            it.decrease() is Some,
        decreases it.decrease()->0,
    {
        match it.next() {
            Some(c) => {
                v.push(c);
            },
            None => {
                assert(v@ =~= s@);
                return v;
            },
        }
    }
}

/// The index of the first `'\n'` at or after `i`, or the length when there is none.
pub open spec fn next_newline(text: Seq<char>, i: int) -> int
    decreases text.len() - i,
{
    if i >= text.len() {
        text.len() as int
    } else if text[i] == '\n' {
        i
    } else {
        next_newline(text, i + 1)
    }
}

/// A line as `str::lines` yields it: the text up to a line feed, without a
/// carriage return that directly precedes the line feed.
pub open spec fn trim_line(piece: Seq<char>) -> Seq<char> {
    if piece.len() > 0 && piece.last() == '\r' {
        piece.drop_last()
    } else {
        piece
    }
}

/// The lines of `text` from index `start` on, as `str::lines` splits them: at each
/// line feed, with no empty line after a final line feed.
pub open spec fn lines_from(text: Seq<char>, start: int) -> Seq<Seq<char>>
    decreases text.len() - start,
{
    if start < 0 || start >= text.len() {
        Seq::empty()
    } else {
        let e = next_newline(text, start);
        if e < start {
            Seq::empty()
        } else if e >= text.len() {
            seq![text.subrange(start, text.len() as int)]
        } else {
            seq![trim_line(text.subrange(start, e))] + lines_from(text, e + 1)
        }
    }
}

/// The lines of `text`, as `str::lines` splits them.
pub open spec fn lines_of(text: Seq<char>) -> Seq<Seq<char>> {
    lines_from(text, 0)
}

proof fn lemma_next_newline(text: Seq<char>, i: int, j: int)
    requires
        0 <= i <= j <= text.len(),
        forall|k: int| i <= k < j ==> text[k] != '\n',
        j == text.len() || text[j] == '\n',
    ensures
        next_newline(text, i) == j,
    decreases j - i,
{
    if i < j {
        lemma_next_newline(text, i + 1, j);
    }
}

/// The views of a sequence of character vectors.
pub open spec fn views(v: Seq<Vec<char>>) -> Seq<Seq<char>> {
    v.map_values(|l: Vec<char>| l@)
}

/// Splits `text` into lines as `str::lines` does.
pub fn split_lines(text: &Vec<char>) -> (lines: Vec<Vec<char>>)
    ensures
        views(lines@) == lines_of(text@),
{
    let n = text.len();
    let mut lines: Vec<Vec<char>> = Vec::new();
    let mut cur: Vec<char> = Vec::new();
    let mut start: usize = 0;
    let mut i: usize = 0;
    while i < n
        invariant
            n == text@.len(),
            start <= i <= n,
            cur@ == text@.subrange(start as int, i as int),
            forall|k: int| start <= k < i ==> text@[k] != '\n',
            views(lines@) + lines_from(text@, start as int) == lines_of(text@),
        decreases n - i,
    {
        let c = text[i];
        if c == '\n' {
            proof {
                lemma_next_newline(text@, start as int, i as int);
            }
            let ghost piece = cur@;
            let mut line = cur;
            let l = line.len();
            if l > 0 && line[l - 1] == '\r' {
                line.pop();
            }
            assert(line@ == trim_line(piece)) by {
                if l > 0 && piece.last() == '\r' {
                    assert(line@ =~= piece.drop_last());
                }
            }
            let ghost before = lines@;
            let ghost rest = lines_from(text@, i + 1);
            assert(lines_from(text@, start as int) == seq![trim_line(piece)] + rest);
            lines.push(line);
            assert(views(lines@) =~= views(before).push(trim_line(piece)));
            assert(views(lines@) + rest =~= views(before) + (seq![trim_line(piece)] + rest));
            cur = Vec::new();
            start = i + 1;
        } else {
            cur.push(c);
        }
        i = i + 1;
    }
    if start < n {
        proof {
            lemma_next_newline(text@, start as int, n as int);

        }
        let ghost before = lines@;
        let ghost last = cur@;
        lines.push(cur);
        assert(views(lines@) =~= views(before).push(last));
        assert(views(before) + lines_from(text@, start as int) =~= views(before) + seq![last]);
    } else {
        assert(views(lines@) + lines_from(text@, start as int) =~= views(lines@));
    }
    lines
}

/// The line that marks a user function: `#[no_mangle]`.
pub open spec fn marker_line() -> Seq<char> {
    seq!['#', '[', 'n', 'o', '_', 'm', 'a', 'n', 'g', 'l', 'e', ']']
}

/// What a user function's header holds before its name's tail: `fn UD_`.
pub open spec fn fn_pattern() -> Seq<char> {
    seq!['f', 'n', ' ', 'U', 'D', '_']
}

/// What every user function's name starts with: `UD_`.
pub open spec fn name_prefix() -> Seq<char> {
    seq!['U', 'D', '_']
}

/// A line that ends a user function's source: `}`, or `}` and a space.
pub open spec fn is_end_line(line: Seq<char>) -> bool {
    line == seq!['}'] || line == seq!['}', ' ']
}

/// `pat` occurs in `line` as a run of consecutive characters.
pub open spec fn contains_seq(line: Seq<char>, pat: Seq<char>) -> bool {
    exists|i: int| 0 <= i && i + pat.len() <= line.len() && #[trigger] line.subrange(i, i + pat.len()) == pat
}

/// Reading `line` from index `i`, with the first `c` characters of `pat` already
/// met, taking each further character of `pat` where it first appears: the index
/// just after the character that completes `pat`, or -1 when `line` ends first.
pub open spec fn match_end(line: Seq<char>, pat: Seq<char>, i: int, c: int) -> int
    decreases line.len() - i,
{
    if c >= pat.len() {
        i
    } else if i < 0 || i >= line.len() {
        -1
    } else if line[i] == pat[c] {
        match_end(line, pat, i + 1, c + 1)
    } else {
        match_end(line, pat, i + 1, c)
    }
}

/// The characters of `s` before its first `(`.
pub open spec fn take_until_paren(s: Seq<char>) -> Seq<char>
    decreases s.len(),
{
    if s.len() == 0 || s[0] == '(' {
        Seq::empty()
    } else {
        seq![s[0]] + take_until_paren(s.drop_first())
    }
}

/// The name read from the line after a marker: `UD_` followed, when the line holds
/// `fn UD_`, by what comes after those characters (taken where each first appears)
/// up to the first `(`.
pub open spec fn user_fn_name(line: Seq<char>) -> Seq<char> {
    let e = match_end(line, fn_pattern(), 0, 0);
    if contains_seq(line, fn_pattern()) && e >= 0 {
        name_prefix() + take_until_paren(line.subrange(e, line.len() as int))
    } else {
        name_prefix()
    }
}

/// The scanner's state: whether the previous line was a marker, whether lines are
/// being added to the last source, the names found, and their sources.
pub open spec fn scan_start() -> (bool, bool, Seq<Seq<char>>, Seq<Seq<char>>) {
    (false, false, Seq::empty(), Seq::empty())
}

/// One line of the scan. After a marker line a new function begins: its name is
/// read from this line and its source starts empty. While a function is open, each
/// line and a line feed are added to its source, and a line `}` (or `} `) closes it.
/// A marker line opens the next function.
pub open spec fn scan_step(
    st: (bool, bool, Seq<Seq<char>>, Seq<Seq<char>>),
    line: Seq<char>,
) -> (bool, bool, Seq<Seq<char>>, Seq<Seq<char>>) {
    let (primed, eat, names, srcs) = st;
    let names1 = if primed { names.push(user_fn_name(line)) } else { names };
    let srcs1 = if primed { srcs.push(Seq::empty()) } else { srcs };
    let srcs2 = if eat { srcs1.update(srcs1.len() - 1, srcs1.last() + line + seq!['\n']) } else { srcs1 };
    let eat2 = if eat { !is_end_line(line) } else { eat };
    if line == marker_line() {
        (true, true, names1, srcs2)
    } else {
        (false, eat2, names1, srcs2)
    }
}

/// The state after scanning `lines` in order.
pub open spec fn scan_lines(lines: Seq<Seq<char>>) -> (bool, bool, Seq<Seq<char>>, Seq<Seq<char>>)
    decreases lines.len(),
{
    if lines.len() == 0 {
        scan_start()
    } else {
        scan_step(scan_lines(lines.drop_last()), lines.last())
    }
}

/// Whether `a` holds exactly the characters of `b`.
fn same_chars(a: &Vec<char>, b: &[char]) -> (r: bool)
    ensures
        r == (a@ == b@),
{
    if a.len() != b.len() {
        return false;
    }
    let mut i: usize = 0;
    while i < a.len()
        invariant
            a@.len() == b@.len(),
            i <= a@.len(),
            forall|k: int| 0 <= k < i ==> a@[k] == b@[k],
        decreases a@.len() - i,
    {
        if a[i] != b[i] {
            return false;
        }
        i = i + 1;
    }
    assert(a@ =~= b@);
    true
}

/// Whether `pat` occurs in `line` as a run of consecutive characters.
fn contains_chars(line: &Vec<char>, pat: &[char]) -> (r: bool)
    ensures
        r == contains_seq(line@, pat@),
{
    let n = line.len();
    let m = pat.len();
    if m > n {
        return false;
    }
    let mut i: usize = 0;
    while i <= n - m
        invariant
            n == line@.len(),
            m == pat@.len(),
            m <= n,
            i <= n - m + 1,
            forall|k: int| 0 <= k < i ==> #[trigger] line@.subrange(k, k + m) != pat@,
        decreases n - m + 1 - i,
    {
        let mut j: usize = 0;
        let mut same = true;
        while j < m
            invariant
                n == line@.len(),
                m == pat@.len(),
                i + m <= n,
                j <= m,
                same == (forall|k: int| 0 <= k < j ==> line@[i + k] == pat@[k]),
            decreases m - j,
        {
            if line[i + j] != pat[j] {
                same = false;
            }
            j = j + 1;
        }
        if same {
            assert(line@.subrange(i as int, i + m) =~= pat@);
            return true;
        }
        assert(line@.subrange(i as int, i + m) != pat@) by {
            let k = choose|k: int| 0 <= k < m && line@[i + k] != pat@[k];
            assert(line@.subrange(i as int, i + m)[k] != pat@[k]);
        }
        i = i + 1;
    }
    false
}

/// The characters of `s` before its first `(` are its first `k` characters when
/// none of them is `(` and the next one, if any, is.
proof fn lemma_take_until_paren(s: Seq<char>, k: int)
    requires
        0 <= k <= s.len(),
        forall|i: int| 0 <= i < k ==> s[i] != '(',
        k == s.len() || s[k] == '(',
    ensures
        take_until_paren(s) == s.subrange(0, k),
    decreases k,
{
    if k > 0 {
        lemma_take_until_paren(s.drop_first(), k - 1);
        assert(s.subrange(0, k) =~= seq![s[0]] + s.drop_first().subrange(0, k - 1));
    } else {
        assert(s.subrange(0, 0) =~= Seq::<char>::empty());
    }
}

/// Reads the name of a user function from the line after its marker.
fn read_fn_name(line: &Vec<char>) -> (name: Vec<char>)
    ensures
        name@ == user_fn_name(line@),
{
    let pat: [char; 6] = ['f', 'n', ' ', 'U', 'D', '_'];
    assert(pat@ =~= fn_pattern());
    let mut name: Vec<char> = Vec::new();
    name.push('U');
    name.push('D');
    name.push('_');
    assert(name@ =~= name_prefix());
    if !contains_chars(line, pat.as_slice()) {
        return name;
    }
    let ghost e0 = match_end(line@, fn_pattern(), 0, 0);
    let n = line.len();
    let mut cursor: usize = 0;
    let mut good = false;
    let mut j: usize = 0;
    while j < n
        invariant_except_break
            j <= n,
        invariant
            n == line@.len(),
            pat@ == fn_pattern(),
            e0 == match_end(line@, fn_pattern(), 0, 0),
            !good ==> cursor < 6 && e0 == match_end(line@, fn_pattern(), j as int, cursor as int),
            good ==> {
                &&& 0 <= e0 <= j
                &&& name@ == name_prefix() + line@.subrange(e0, j as int)
                &&& forall|k: int| e0 <= k < j ==> line@[k] != '('
            },
            !good ==> name@ == name_prefix(),
        ensures
            !good ==> j == n && cursor < 6 && e0 == match_end(line@, fn_pattern(), j as int, cursor as int),
            good ==> {
                &&& 0 <= e0 <= j <= n
                &&& name@ == name_prefix() + line@.subrange(e0, j as int)
                &&& forall|k: int| e0 <= k < j ==> line@[k] != '('
                &&& (j == n || line@[j as int] == '(')
            },
        decreases n - j,
    {
        let c = line[j];
        if !good {
            if pat[cursor] == c {
                cursor = cursor + 1;
                if cursor == 6 {
                    good = true;
                    assert(match_end(line@, fn_pattern(), j + 1, 6) == j + 1);
                    assert(name@ =~= name_prefix() + line@.subrange(j + 1, j + 1));
                }
            }
        } else {
            if c != '(' {
                name.push(c);
                assert(name@ =~= name_prefix() + line@.subrange(e0, j + 1));
            } else {
                break;
            }
        }
        j = j + 1;
    }
    proof {
        if good {
            let rest = line@.subrange(e0, n as int);
            lemma_take_until_paren(rest, j - e0);
            assert(rest.subrange(0, j - e0) =~= line@.subrange(e0, j as int));
        } else {
            assert(e0 == -1);
        }
    }
    name
}

/// `String::from_iter` over characters: the string made of `chars`, in order.
#[verifier::external_body]
pub(crate) fn string_from_chars(chars: &Vec<char>) -> (s: String)
    ensures
        s@ == chars@,
{
    chars.iter().collect()
}

/// The views of a sequence of strings.
pub open spec fn string_views(v: Seq<String>) -> Seq<Seq<char>> {
    v.map_values(|s: String| s@)
}

/// The strings made of each character vector of `v`.
fn to_strings(v: &Vec<Vec<char>>) -> (r: Vec<String>)
    ensures
        string_views(r@) == views(v@),
{
    let mut r: Vec<String> = Vec::new();
    let mut i: usize = 0;
    while i < v.len()
        invariant
            i <= v@.len(),
            string_views(r@) == views(v@).subrange(0, i as int),
        decreases v@.len() - i,
    {
        let s = string_from_chars(&v[i]);
        let ghost before = r@;
        r.push(s);
        assert(string_views(r@) =~= string_views(before).push(v@[i as int]@));
        assert(views(v@).subrange(0, i + 1) =~= views(v@).subrange(0, i as int).push(v@[i as int]@));
        i = i + 1;
    }
    assert(views(v@).subrange(0, v@.len() as int) =~= views(v@));
    r
}

/// Appends the characters of `src` to `dst`.
fn append_chars(dst: &mut Vec<char>, src: &Vec<char>)
    ensures
        final(dst)@ == old(dst)@ + src@,
{
    let mut i: usize = 0;
    while i < src.len()
        invariant
            i <= src@.len(),
            dst@ == old(dst)@ + src@.subrange(0, i as int),
        decreases src@.len() - i,
    {
        dst.push(src[i]);
        i = i + 1;
        assert(dst@ =~= old(dst)@ + src@.subrange(0, i as int));
    }
    assert(src@.subrange(0, src@.len() as int) =~= src@);
}

/// The user functions of a panel source file: their names and their sources, in
/// the order they appear.
pub fn scan_user_functions(source: &str) -> (r: (Vec<String>, Vec<String>))
    ensures
        string_views(r.0@) == scan_lines(lines_of(source@)).2,
        string_views(r.1@) == scan_lines(lines_of(source@)).3,
        r.0@.len() == r.1@.len(),
        forall|i: int| 0 <= i < r.0@.len() ==> name_prefix().is_prefix_of(#[trigger] r.0@[i]@),
{
    let text = chars_of(source);
    let lines = split_lines(&text);
    let marker: [char; 12] = ['#', '[', 'n', 'o', '_', 'm', 'a', 'n', 'g', 'l', 'e', ']'];
    assert(marker@ =~= marker_line());
    let ghost all = views(lines@);
    let mut primed = false;
    let mut eat = false;
    let mut names: Vec<Vec<char>> = Vec::new();
    let mut srcs: Vec<Vec<char>> = Vec::new();
    let mut k: usize = 0;
    assert(all.subrange(0, 0) =~= Seq::<Seq<char>>::empty());
    while k < lines.len()
        invariant
            all == views(lines@),
            k <= lines@.len(),
            marker@ == marker_line(),
            (primed, eat, views(names@), views(srcs@)) == scan_lines(all.subrange(0, k as int)),
            eat ==> primed || srcs@.len() > 0,
        decreases lines@.len() - k,
    {
        let line = &lines[k];
        assert(all.subrange(0, k + 1).drop_last() =~= all.subrange(0, k as int));
        assert(all.subrange(0, k + 1).last() == line@);
        let ghost st0 = (primed, eat, views(names@), views(srcs@));
        let ghost want = scan_step(st0, line@);
        let ghost names1 = if primed { views(names@).push(user_fn_name(line@)) } else { views(names@) };
        let ghost srcs1 = if primed { views(srcs@).push(Seq::<char>::empty()) } else { views(srcs@) };
        if primed {
            primed = false;
            let nm = read_fn_name(line);
            let ghost nb = names@;
            let ghost sb = srcs@;
            names.push(nm);
            srcs.push(Vec::new());
            assert(views(names@) =~= views(nb).push(nm@));
            assert(views(srcs@) =~= views(sb).push(Seq::<char>::empty()));
        }
        assert(views(names@) == names1);
        assert(views(srcs@) == srcs1);
        let ghost srcs2 = if eat { srcs1.update(srcs1.len() - 1, srcs1.last() + line@ + seq!['\n']) } else { srcs1 };
        let ghost end_line = is_end_line(line@);
        if eat {
            let ghost sb = srcs@;
            let mut last = srcs.pop().unwrap();
            assert(last@ == sb.last()@);
            append_chars(&mut last, line);
            last.push('\n');
            assert(last@ =~= sb.last()@ + line@ + seq!['\n']);
            let ghost lv = last@;
            srcs.push(last);
            assert(views(srcs@) =~= views(sb.drop_last()).push(lv));
            assert(views(sb).last() == sb.last()@);
            assert(views(srcs@) =~= srcs2);
            let is_end = (line.len() == 1 && line[0] == '}') || (line.len() == 2 && line[0] == '}' && line[1] == ' ');
            assert(is_end == end_line) by {
                if line@.len() == 1 && line@[0] == '}' {
                    assert(line@ =~= seq!['}']);
                }
                if line@.len() == 2 && line@[0] == '}' && line@[1] == ' ' {
                    assert(line@ =~= seq!['}', ' ']);
                }
            }
            if is_end {
                eat = false;
            }
        }
        assert(views(srcs@) == srcs2);
        if same_chars(line, marker.as_slice()) {
            primed = true;
            eat = true;
        }
        assert((primed, eat, views(names@), views(srcs@)) == want);
        k = k + 1;
    }
    assert(all.subrange(0, k as int) =~= all);
    proof {
        lemma_scan_shape(all);
    }
    let r0 = to_strings(&names);
    let r1 = to_strings(&srcs);
    assert forall|i: int| 0 <= i < r0@.len() implies name_prefix().is_prefix_of(#[trigger] r0@[i]@) by {
        assert(string_views(r0@)[i] == r0@[i]@);
    }
    (r0, r1)
}

/// Every function the scan finds has one name and one source, every name starts
/// with `UD_`, and a source is open only after a marker or while one exists.
pub proof fn lemma_scan_shape(lines: Seq<Seq<char>>)
    ensures
        scan_lines(lines).2.len() == scan_lines(lines).3.len(),
        forall|i: int| 0 <= i < scan_lines(lines).2.len() ==> name_prefix().is_prefix_of(
            #[trigger] scan_lines(lines).2[i],
        ),
        scan_lines(lines).1 ==> scan_lines(lines).0 || scan_lines(lines).3.len() > 0,
    decreases lines.len(),
{
    if lines.len() > 0 {
        lemma_scan_shape(lines.drop_last());
        let line = lines.last();
        let name = user_fn_name(line);
        let e = match_end(line, fn_pattern(), 0, 0);
        if contains_seq(line, fn_pattern()) && e >= 0 {
            assert(name.subrange(0, 3) =~= name_prefix());
        } else {
            assert(name =~= name_prefix());
        }
        assert(name_prefix().is_prefix_of(name));
    }
}

proof fn lemma_next_newline_bounds(text: Seq<char>, i: int)
    requires
        0 <= i,
    ensures
        i <= next_newline(text, i) || i > text.len(),
        next_newline(text, i) <= text.len() || i > text.len(),
        next_newline(text, i) < text.len() ==> text[next_newline(text, i)] == '\n',
        forall|k: int| i <= k < next_newline(text, i) ==> text[k] != '\n',
    decreases text.len() - i,
{
    if i < text.len() && text[i] != '\n' {
        lemma_next_newline_bounds(text, i + 1);
    }
}

proof fn lemma_next_newline_shift(t: Seq<char>, s: int, i: int)
    requires
        0 <= s <= i <= t.len(),
    ensures
        next_newline(t, i) == next_newline(t.subrange(s, t.len() as int), i - s) + s,
    decreases t.len() - i,
{
    if i < t.len() && t[i] != '\n' {
        lemma_next_newline_shift(t, s, i + 1);
    }
}

/// Splitting from index `i` is splitting what follows index `s` from `i - s`.
proof fn lemma_lines_shift(t: Seq<char>, s: int, i: int)
    requires
        0 <= s <= i <= t.len(),
    ensures
        lines_from(t, i) == lines_from(t.subrange(s, t.len() as int), i - s),
    decreases t.len() - i,
{
    let u = t.subrange(s, t.len() as int);
    if i < t.len() {
        lemma_next_newline_shift(t, s, i);
        lemma_next_newline_bounds(t, i);
        let e = next_newline(t, i);
        if e < t.len() {
            lemma_lines_shift(t, s, e + 1);
            assert(t.subrange(i, e) =~= u.subrange(i - s, e - s));
        } else {
            assert(t.subrange(i, t.len() as int) =~= u.subrange(i - s, u.len() as int));
        }
    }
}

/// An empty text has no lines.
pub proof fn lemma_lines_of_empty()
    ensures
        lines_of(Seq::<char>::empty()) == Seq::<Seq<char>>::empty(),
{
}

/// A nonempty text with no line feed is one line, kept whole (a final carriage
/// return with no line feed after it stays).
pub proof fn lemma_lines_of_last_line(a: Seq<char>)
    requires
        a.len() > 0,
        forall|k: int| 0 <= k < a.len() ==> a[k] != '\n',
    ensures
        lines_of(a) == seq![a],
{
    lemma_next_newline(a, 0, a.len() as int);
    assert(a.subrange(0, a.len() as int) =~= a);
}

/// A line ended by a bare line feed is the line as it stands (when it does not end
/// in a carriage return), and the lines after it are the lines of the rest.
pub proof fn lemma_lines_of_lf(a: Seq<char>, b: Seq<char>)
    requires
        forall|k: int| 0 <= k < a.len() ==> a[k] != '\n',
        a.len() == 0 || a.last() != '\r',
    ensures
        lines_of(a + seq!['\n'] + b) == seq![a] + lines_of(b),
{
    let t = a + seq!['\n'] + b;
    let n = a.len() as int;
    lemma_next_newline(t, 0, n);
    assert(t.subrange(0, n) =~= a);
    lemma_lines_shift(t, n + 1, n + 1);
    assert(t.subrange(n + 1, t.len() as int) =~= b);
}

/// A line ended by a carriage return and a line feed is the line without either,
/// whatever its length, the empty line included, and the lines after it are the
/// lines of the rest.
pub proof fn lemma_lines_of_crlf(a: Seq<char>, b: Seq<char>)
    requires
        forall|k: int| 0 <= k < a.len() ==> a[k] != '\n',
    ensures
        lines_of(a + seq!['\r', '\n'] + b) == seq![a] + lines_of(b),
{
    let t = a + seq!['\r', '\n'] + b;
    let n = a.len() as int;
    lemma_next_newline(t, 0, n + 1);
    assert(t.subrange(0, n + 1) =~= a.push('\r'));
    assert(a.push('\r').drop_last() =~= a);
    lemma_lines_shift(t, n + 2, n + 2);
    assert(t.subrange(n + 2, t.len() as int) =~= b);
}

proof fn lemma_match_skip(line: Seq<char>, pat: Seq<char>, i: int, j: int, c: int)
    requires
        0 <= i <= j <= line.len(),
        0 <= c < pat.len(),
        forall|k: int| i <= k < j ==> line[k] != pat[c],
    ensures
        match_end(line, pat, i, c) == match_end(line, pat, j, c),
    decreases j - i,
{
    if i < j {
        lemma_match_skip(line, pat, i + 1, j, c);
    }
}

proof fn lemma_match_run(line: Seq<char>, pat: Seq<char>, i: int, c: int)
    requires
        0 <= i,
        0 <= c <= pat.len(),
        i + (pat.len() - c) <= line.len(),
        forall|m: int| i <= m < i + (pat.len() - c) ==> #[trigger] line[m] == pat[m - i + c],
    ensures
        match_end(line, pat, i, c) == i + (pat.len() - c),
    decreases pat.len() - c,
{
    if c < pat.len() {
        assert(line[i] == pat[c]);
        lemma_match_run(line, pat, i + 1, c + 1);
    }
}

/// The name read from a header `fn UD_<s>(...`, after anything without an `f`
/// (such as indentation or `pub `), is `UD_` followed by all of `<s>`: only a `(`
/// or the end of the line ends it.
pub proof fn lemma_user_fn_name_of_header(p: Seq<char>, s: Seq<char>, rest: Seq<char>)
    requires
        forall|k: int| 0 <= k < p.len() ==> p[k] != 'f',
        forall|k: int| 0 <= k < s.len() ==> s[k] != '(',
        rest.len() == 0 || rest[0] == '(',
    ensures
        user_fn_name(p + seq!['f', 'n', ' ', 'U', 'D', '_'] + s + rest) == seq!['U', 'D', '_'] + s,
{
    let pat = fn_pattern();
    let line = p + seq!['f', 'n', ' ', 'U', 'D', '_'] + s + rest;
    let n = p.len() as int;
    assert(line.subrange(n, n + 6) =~= pat);
    assert forall|m: int| n <= m < n + 6 implies #[trigger] line[m] == pat[m - n] by {
        assert(line.subrange(n, n + 6)[m - n] == line[m]);
    }
    lemma_match_skip(line, pat, 0, n, 0);
    lemma_match_run(line, pat, n, 0);
    assert(contains_seq(line, pat));
    let tail = line.subrange(n + 6, line.len() as int);
    assert(tail =~= s + rest);
    lemma_take_until_paren(tail, s.len() as int);
    assert(tail.subrange(0, s.len() as int) =~= s);
    assert(name_prefix() =~= seq!['U', 'D', '_']);
}

/// Each line followed by a line feed, in order.
pub open spec fn joined(ls: Seq<Seq<char>>) -> Seq<char>
    decreases ls.len(),
{
    if ls.len() == 0 {
        Seq::empty()
    } else {
        joined(ls.drop_last()) + ls.last() + seq!['\n']
    }
}

proof fn lemma_scan_push(lines: Seq<Seq<char>>, l: Seq<char>)
    ensures
        scan_lines(lines.push(l)) == scan_step(scan_lines(lines), l),
{
    assert(lines.push(l).drop_last() =~= lines);
}

/// Lines that are neither a marker nor a closing line, read while a function is
/// open, are added to its source, each with a line feed, and leave it open.
proof fn lemma_scan_body(pre: Seq<Seq<char>>, body: Seq<Seq<char>>, idx: int)
    requires
        0 <= idx,
        scan_lines(pre).1,
        !scan_lines(pre).0,
        scan_lines(pre).3.len() == idx + 1,
        forall|i: int| 0 <= i < body.len() ==> body[i] != marker_line() && !is_end_line(#[trigger] body[i]),
    ensures
        scan_lines(pre + body).1,
        !scan_lines(pre + body).0,
        scan_lines(pre + body).2 == scan_lines(pre).2,
        scan_lines(pre + body).3 == scan_lines(pre).3.update(idx, scan_lines(pre).3[idx] + joined(body)),
    decreases body.len(),
{
    if body.len() == 0 {
        assert(pre + body =~= pre);
        assert(scan_lines(pre).3[idx] + joined(body) =~= scan_lines(pre).3[idx]);
        assert(scan_lines(pre).3.update(idx, scan_lines(pre).3[idx]) =~= scan_lines(pre).3);
    } else {
        let b0 = body.drop_last();
        let l = body.last();
        assert forall|i: int| 0 <= i < b0.len() implies b0[i] != marker_line() && !is_end_line(#[trigger] b0[i]) by {
            assert(b0[i] == body[i]);
        }
        lemma_scan_body(pre, b0, idx);
        assert(pre + body =~= (pre + b0).push(l));
        lemma_scan_push(pre + b0, l);
        assert(l == body[body.len() - 1]);
        let s = scan_lines(pre);
        let m = scan_lines(pre + b0);
        assert(m.3.len() == idx + 1);
        assert(scan_lines(pre + body).3 =~= s.3.update(idx, s.3[idx] + joined(body))) by {
            assert(joined(body) == joined(b0) + l + seq!['\n']);
            assert(s.3[idx] + joined(b0) + l + seq!['\n'] =~= s.3[idx] + joined(body));
        }
    }
}

/// Once a function's source is closed, the lines that follow change neither its
/// name nor its source.
proof fn lemma_scan_after(pre: Seq<Seq<char>>, post: Seq<Seq<char>>, idx: int)
    requires
        0 <= idx,
        scan_lines(pre).3.len() > idx,
        scan_lines(pre).2.len() > idx,
        scan_lines(pre).1 ==> scan_lines(pre).0 || scan_lines(pre).3.len() > idx + 1,
    ensures
        scan_lines(pre + post).3.len() > idx,
        scan_lines(pre + post).2.len() > idx,
        scan_lines(pre + post).3[idx] == scan_lines(pre).3[idx],
        scan_lines(pre + post).2[idx] == scan_lines(pre).2[idx],
        scan_lines(pre + post).1 ==> scan_lines(pre + post).0 || scan_lines(pre + post).3.len() > idx + 1,
    decreases post.len(),
{
    if post.len() == 0 {
        assert(pre + post =~= pre);
    } else {
        let p0 = post.drop_last();
        let l = post.last();
        lemma_scan_after(pre, p0, idx);
        assert(pre + post =~= (pre + p0).push(l));
        lemma_scan_push(pre + p0, l);
    }
}

/// The marker line, written out.
spec fn marker_chars() -> Seq<char> {
    seq!['#', '[', 'n', 'o', '_', 'm', 'a', 'n', 'g', 'l', 'e', ']']
}

proof fn lemma_scan_open(pre: Seq<Seq<char>>, header: Seq<char>)
    requires
        pre.len() == 0 || pre.last() != marker_chars(),
        header != marker_chars(),
        header != seq!['}'],
        header != seq!['}', ' '],
    ensures
        ({
            let idx = scan_lines(pre).3.len() as int;
            let r = scan_lines(pre + seq![marker_chars(), header]);
            &&& r.1
            &&& !r.0
            &&& r.3.len() == idx + 1
            &&& r.2.len() == idx + 1
            &&& r.3[idx] == header + seq!['\n']
            &&& r.2[idx] == user_fn_name(header)
        }),
{
    assert(marker_chars() =~= marker_line());
    lemma_scan_shape(pre);
    if pre.len() > 0 {
        lemma_scan_push(pre.drop_last(), pre.last());
        assert(pre.drop_last().push(pre.last()) =~= pre);
    }
    let l1 = pre.push(marker_chars());
    lemma_scan_push(pre, marker_chars());
    lemma_scan_push(l1, header);
    assert(pre + seq![marker_chars(), header] =~= l1.push(header));
    assert(Seq::<char>::empty() + header + seq!['\n'] =~= header + seq!['\n']);
}

/// A function's source is its header line and every later line up to and
/// including the first that is exactly `}` or `} `, each followed by a line feed:
/// no other line, an empty one included, ends it, and its name is read from the
/// header. Lines after the closing one leave both alone.
pub proof fn lemma_scan_function_source(
    pre: Seq<Seq<char>>,
    header: Seq<char>,
    body: Seq<Seq<char>>,
    close: Seq<char>,
    post: Seq<Seq<char>>,
)
    requires
        pre.len() == 0 || pre.last() != seq!['#', '[', 'n', 'o', '_', 'm', 'a', 'n', 'g', 'l', 'e', ']'],
        header != seq!['#', '[', 'n', 'o', '_', 'm', 'a', 'n', 'g', 'l', 'e', ']'],
        header != seq!['}'],
        header != seq!['}', ' '],
        forall|i: int| 0 <= i < body.len() ==> {
            &&& #[trigger] body[i] != seq!['#', '[', 'n', 'o', '_', 'm', 'a', 'n', 'g', 'l', 'e', ']']
            &&& body[i] != seq!['}']
            &&& body[i] != seq!['}', ' ']
        },
        close == seq!['}'] || close == seq!['}', ' '],
    ensures
        ({
            let idx = scan_lines(pre).3.len() as int;
            let r = scan_lines(pre + seq![seq!['#', '[', 'n', 'o', '_', 'm', 'a', 'n', 'g', 'l', 'e', ']'], header]
                + body + seq![close] + post);
            &&& idx < r.2.len()
            &&& idx < r.3.len()
            &&& r.2[idx] == user_fn_name(header)
            &&& r.3[idx] == header + seq!['\n'] + joined(body) + close + seq!['\n']
        }),
{
    let m = marker_chars();
    assert(m =~= marker_line());
    let idx = scan_lines(pre).3.len() as int;
    lemma_scan_open(pre, header);
    let l2 = pre + seq![m, header];
    assert forall|i: int| 0 <= i < body.len() implies body[i] != marker_line() && !is_end_line(#[trigger] body[i]) by {}
    lemma_scan_body(l2, body, idx);
    let l3 = l2 + body;
    lemma_scan_push(l3, close);
    let l4 = l3.push(close);
    let s4 = scan_lines(l4);
    assert(s4.3[idx] =~= header + seq!['\n'] + joined(body) + close + seq!['\n']);
    lemma_scan_after(l4, post, idx);
    assert(pre + seq![m, header] + body + seq![close] + post =~= l4 + post);
}

/// A function still open at the end of the file has as its source its header line
/// and every later line, each followed by a line feed.
pub proof fn lemma_scan_function_source_to_end(pre: Seq<Seq<char>>, header: Seq<char>, body: Seq<Seq<char>>)
    requires
        pre.len() == 0 || pre.last() != seq!['#', '[', 'n', 'o', '_', 'm', 'a', 'n', 'g', 'l', 'e', ']'],
        header != seq!['#', '[', 'n', 'o', '_', 'm', 'a', 'n', 'g', 'l', 'e', ']'],
        header != seq!['}'],
        header != seq!['}', ' '],
        forall|i: int| 0 <= i < body.len() ==> {
            &&& #[trigger] body[i] != seq!['#', '[', 'n', 'o', '_', 'm', 'a', 'n', 'g', 'l', 'e', ']']
            &&& body[i] != seq!['}']
            &&& body[i] != seq!['}', ' ']
        },
    ensures
        ({
            let idx = scan_lines(pre).3.len() as int;
            let r = scan_lines(pre + seq![seq!['#', '[', 'n', 'o', '_', 'm', 'a', 'n', 'g', 'l', 'e', ']'], header] + body);
            &&& idx < r.2.len()
            &&& idx < r.3.len()
            &&& r.2[idx] == user_fn_name(header)
            &&& r.3[idx] == header + seq!['\n'] + joined(body)
        }),
{
    let m = marker_chars();
    assert(m =~= marker_line());
    let idx = scan_lines(pre).3.len() as int;
    lemma_scan_open(pre, header);
    let l2 = pre + seq![m, header];
    assert forall|i: int| 0 <= i < body.len() implies body[i] != marker_line() && !is_end_line(#[trigger] body[i]) by {}
    lemma_scan_body(l2, body, idx);
}

/// A line that does not hold `fn UD_` as a run of characters gives the bare
/// prefix `UD_` as the name.
pub proof fn lemma_user_fn_name_without_header(line: Seq<char>)
    requires
        forall|i: int| 0 <= i && i + 6 <= line.len() ==> #[trigger] line.subrange(i, i + 6)
            != seq!['f', 'n', ' ', 'U', 'D', '_'],
    ensures
        user_fn_name(line) == seq!['U', 'D', '_'],
{
    assert(fn_pattern() =~= seq!['f', 'n', ' ', 'U', 'D', '_']);
    assert(name_prefix() =~= seq!['U', 'D', '_']);
    assert(!contains_seq(line, fn_pattern()));
}

/// Lines with no marker line among them hold no user function, and leave the
/// scan closed.
pub proof fn lemma_scan_without_marker(lines: Seq<Seq<char>>)
    requires
        forall|i: int| 0 <= i < lines.len() ==> #[trigger] lines[i]
            != seq!['#', '[', 'n', 'o', '_', 'm', 'a', 'n', 'g', 'l', 'e', ']'],
    ensures
        !scan_lines(lines).0,
        !scan_lines(lines).1,
        scan_lines(lines).2.len() == 0,
        scan_lines(lines).3.len() == 0,
    decreases lines.len(),
{
    assert(marker_chars() =~= marker_line());
    if lines.len() > 0 {
        let l0 = lines.drop_last();
        assert forall|i: int| 0 <= i < l0.len() implies #[trigger] l0[i] != marker_chars() by {
            assert(l0[i] == lines[i]);
        }
        lemma_scan_without_marker(l0);
        assert(lines.last() == lines[lines.len() - 1]);
    }
}

} // verus!
