use vstd::prelude::*;

verus! {

/// The first index at or after `i` where `s` holds the character `c`,
/// or `s.len()` where there is none.
pub open spec fn next_sep(s: Seq<char>, i: int, c: char) -> int
    decreases s.len() - i,
{
    if i >= s.len() {
        s.len() as int
    } else if s[i] == c {
        i
    } else {
        next_sep(s, i + 1, c)
    }
}

/// `next_sep` lies between `i` and the end, and nothing before it is `c`.
pub proof fn lemma_next_sep(s: Seq<char>, i: int, c: char)
    requires
        0 <= i <= s.len(),
    ensures
        i <= next_sep(s, i, c) <= s.len(),
        next_sep(s, i, c) < s.len() ==> s[next_sep(s, i, c)] == c,
        forall|j: int| i <= j < next_sep(s, i, c) ==> s[j] != c,
    decreases s.len() - i,
{
    if i < s.len() && s[i] != c {
        lemma_next_sep(s, i + 1, c);
    }
}

/// Scans `s` from `from` for the character `c`; `n` is the length of `s`.
pub(crate) fn find_sep(s: &str, n: usize, from: usize, c: char) -> (k: usize)
    requires
        n == s@.len(),
        from <= n,
    ensures
        k == next_sep(s@, from as int, c),
{
    let mut j: usize = from;
    while j < n
        invariant
            from <= j <= n,
            n == s@.len(),
            next_sep(s@, j as int, c) == next_sep(s@, from as int, c),
        decreases n - j,
    {
        if s.get_char(j) == c {
            return j;
        }
        j = j + 1;
    }
    j
}

/// The lines of `s`, read from index `i` on: the text between one newline
/// and the next, the text after the last newline included.
pub open spec fn lines_from(s: Seq<char>, i: int) -> Seq<Seq<char>>
    decreases s.len() - i,
{
    if 0 <= i <= s.len() && next_sep(s, i, '\n') < s.len() {
        proof {
            lemma_next_sep(s, i, '\n');
        }
        seq![s.subrange(i, next_sep(s, i, '\n'))] + lines_from(s, next_sep(s, i, '\n') + 1)
    } else {
        seq![s.subrange(i, s.len() as int)]
    }
}

/// The text `s` split at each newline.
pub open spec fn split_lines(s: Seq<char>) -> Seq<Seq<char>> {
    lines_from(s, 0)
}

/// The records of a log: its lines without the first one, the header.
pub open spec fn records(s: Seq<char>) -> Seq<Seq<char>> {
    split_lines(s).drop_first()
}

/// Splits the text of a log at each newline and drops the first line, the
/// header, whatever it holds. A log that ends with a newline gives an empty
/// last record.
pub fn lines_after_header(contents: &str) -> (r: Vec<String>)
    ensures
        r@.map_values(|l: String| l@) == records(contents@),
        r.len() == split_lines(contents@).len() - 1,
{
    let n = contents.unicode_len();
    let mut lines: Vec<String> = Vec::new();
    let mut start: usize = 0;
    loop
        invariant_except_break
            lines@.map_values(|l: String| l@) + lines_from(contents@, start as int)
                == split_lines(contents@),
        invariant
            n == contents@.len(),
            start <= n,
        ensures
            lines@.map_values(|l: String| l@) == split_lines(contents@),
        decreases n - start,
    {
        let k = find_sep(contents, n, start, '\n');
        proof {
            lemma_next_sep(contents@, start as int, '\n');
        }
        let line = String::from_str(contents.substring_char(start, k));
        let ghost before = lines@.map_values(|l: String| l@);
        lines.push(line);
        assert(lines@.map_values(|l: String| l@) =~= before.push(line@));
        if k == n {
            assert(before.push(line@) =~= before + lines_from(contents@, start as int));
            break;
        }
        assert(before.push(line@) + lines_from(contents@, (k + 1) as int) =~= before
            + lines_from(contents@, start as int));
        start = k + 1;
    }
    let ghost all = lines@.map_values(|l: String| l@);
    lines.remove(0);
    assert(lines@.map_values(|l: String| l@) =~= all.drop_first());
    lines
}

} // verus!
