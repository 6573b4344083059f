use vstd::prelude::*;
use vstd::string::*;

verus! {

/// Index of the first occurrence of `c` in `s`, or -1 when `s` does not
/// contain `c`.
pub open spec fn spec_find_char(s: Seq<char>, c: char) -> int
    decreases s.len(),
{
    if s.len() == 0 {
        -1
    } else if s[0] == c {
        0
    } else {
        let r = spec_find_char(s.drop_first(), c);
        if r < 0 {
            -1
        } else {
            r + 1
        }
    }
}

pub proof fn lemma_find_char_props(s: Seq<char>, c: char)
    ensures
        spec_find_char(s, c) >= 0 <==> s.contains(c),
        s.contains(c) ==> {
            let i = spec_find_char(s, c);
            &&& 0 <= i < s.len()
            &&& s[i] == c
            &&& forall|j: int| 0 <= j < i ==> s[j] != c
        },
    decreases s.len(),
{
    if s.len() > 0 && s[0] != c {
        let t = s.drop_first();
        lemma_find_char_props(t, c);
        if t.contains(c) {
            let k = choose|k: int| 0 <= k < t.len() && t[k] == c;
            assert(s[k + 1] == c);
            assert(s.contains(c));
        }
        if s.contains(c) {
            let k = choose|k: int| 0 <= k < s.len() && s[k] == c;
            assert(t[k - 1] == c);
            assert(t.contains(c));
            let i = spec_find_char(s, c);
            assert(i == spec_find_char(t, c) + 1);
            assert forall|j: int| 0 <= j < i implies s[j] != c by {
                if j > 0 {
                    assert(s[j] == t[j - 1]);
                }
            }
        }
    }
}

/// The first occurrence of `c` in `s` is at `i`.
pub proof fn lemma_find_char_at(s: Seq<char>, c: char, i: int)
    requires
        0 <= i < s.len(),
        s[i] == c,
        forall|j: int| 0 <= j < i ==> s[j] != c,
    ensures
        spec_find_char(s, c) == i,
    decreases s.len(),
{
    if i > 0 {
        lemma_find_char_at(s.drop_first(), c, i - 1);
    }
}

/// The lines of `s`: maximal `'\n'`-free stretches, the newline characters
/// themselves dropped.  Text after the last newline forms a final line;
/// nothing ends with an empty line.
pub open spec fn spec_split_lines(s: Seq<char>) -> Seq<Seq<char>>
    decreases s.len(),
{
    if s.len() == 0 {
        Seq::empty()
    } else {
        let i = spec_find_char(s, '\n');
        if 0 <= i < s.len() {
            seq![s.subrange(0, i)] + spec_split_lines(s.subrange(i + 1, s.len() as int))
        } else {
            seq![s]
        }
    }
}

/// The lines joined back into one text, a newline after every line.
pub open spec fn spec_join_lines(lines: Seq<Seq<char>>) -> Seq<char>
    decreases lines.len(),
{
    if lines.len() == 0 {
        Seq::empty()
    } else {
        lines[0].push('\n') + spec_join_lines(lines.drop_first())
    }
}

/// No line produced by `spec_split_lines` contains a newline.
pub proof fn lemma_split_lines_newline_free(s: Seq<char>)
    ensures
        forall|i: int|
            0 <= i < spec_split_lines(s).len() ==> !(#[trigger] spec_split_lines(
                s,
            )[i]).contains('\n'),
    decreases s.len(),
{
    if s.len() > 0 {
        let i = spec_find_char(s, '\n');
        lemma_find_char_props(s, '\n');
        if i < 0 {
            if s.contains('\n') {
                assert(spec_find_char(s, '\n') >= 0);
            }
            assert(!s.contains('\n'));
            assert(spec_split_lines(s) =~= seq![s]);
        } else {
            let head = s.subrange(0, i);
            if head.contains('\n') {
                let k = choose|k: int| 0 <= k < head.len() && head[k] == '\n';
                assert(s[k] == '\n');
            }
            assert(!head.contains('\n'));
            let tail = s.subrange(i + 1, s.len() as int);
            lemma_split_lines_newline_free(tail);
            assert forall|j: int| 0 <= j < spec_split_lines(s).len() implies !(
            #[trigger] spec_split_lines(s)[j]).contains('\n') by {
                if j == 0 {
                    assert(spec_split_lines(s)[0] == head);
                } else {
                    assert(spec_split_lines(s)[j] == spec_split_lines(tail)[j - 1]);
                }
            }
        }
    }
}

/// Splitting the join of newline-free lines gives the lines back.
pub proof fn lemma_split_of_join(lines: Seq<Seq<char>>)
    requires
        forall|i: int| 0 <= i < lines.len() ==> !(#[trigger] lines[i]).contains('\n'),
    ensures
        spec_split_lines(spec_join_lines(lines)) == lines,
    decreases lines.len(),
{
    if lines.len() > 0 {
        let head = lines[0];
        let rest = lines.drop_first();
        let joined = spec_join_lines(lines);
        assert(joined == head.push('\n') + spec_join_lines(rest));
        assert(joined.len() > 0);
        assert forall|j: int| 0 <= j < head.len() implies joined[j] != '\n' by {
            assert(joined[j] == head[j]);
            if head[j] == '\n' {
                assert(head.contains('\n'));
            }
        }
        assert(joined[head.len() as int] == '\n');
        lemma_find_char_at(joined, '\n', head.len() as int);
        assert(joined.subrange(0, head.len() as int) =~= head);
        assert(joined.subrange(head.len() as int + 1, joined.len() as int) =~= spec_join_lines(
            rest,
        ));
        lemma_split_of_join(rest);
        assert(spec_split_lines(joined) =~= lines);
    }
}

/// Joining distributes over concatenation of line sequences.
pub proof fn lemma_join_lines_app(a: Seq<Seq<char>>, b: Seq<Seq<char>>)
    ensures
        spec_join_lines(a + b) == spec_join_lines(a) + spec_join_lines(b),
    decreases a.len(),
{
    if a.len() == 0 {
        assert(a + b =~= b);
        assert(spec_join_lines(a) + spec_join_lines(b) =~= spec_join_lines(b));
    } else {
        assert((a + b).drop_first() =~= a.drop_first() + b);
        lemma_join_lines_app(a.drop_first(), b);
        assert(spec_join_lines(a + b) =~= spec_join_lines(a) + spec_join_lines(b));
    }
}

/// Joining one line more appends that line and a newline.
pub proof fn lemma_join_lines_snoc(lines: Seq<Seq<char>>, j: int)
    requires
        0 <= j < lines.len(),
    ensures
        spec_join_lines(lines.take(j + 1)) == spec_join_lines(lines.take(j)) + lines[j].push('\n'),
{
    let single = seq![lines[j]];
    assert(lines.take(j + 1) =~= lines.take(j) + single);
    lemma_join_lines_app(lines.take(j), single);
    lemma_join_lines_singleton(lines[j]);
}

/// Joining a single line yields that line with a newline after it.
pub proof fn lemma_join_lines_singleton(line: Seq<char>)
    ensures
        spec_join_lines(seq![line]) == line.push('\n'),
{
    let single = seq![line];
    assert(single.len() == 1);
    assert(single[0] == line);
    assert(single.drop_first() =~= Seq::<Seq<char>>::empty());
    assert(spec_join_lines(single) == single[0].push('\n') + spec_join_lines(single.drop_first()));
    assert(spec_join_lines(single.drop_first()) =~= Seq::<char>::empty());
    assert(spec_join_lines(single) =~= line.push('\n'));
}

/// A slice of a sequence free of `c` is free of `c`.
pub proof fn lemma_subrange_keeps_absent(s: Seq<char>, a: int, b: int, c: char)
    requires
        0 <= a <= b <= s.len(),
        !s.contains(c),
    ensures
        !s.subrange(a, b).contains(c),
{
    if s.subrange(a, b).contains(c) {
        let k = choose|k: int| 0 <= k < s.subrange(a, b).len() && s.subrange(a, b)[k] == c;
        assert(s[a + k] == c);
        assert(s.contains(c));
    }
}

/// The views of a vector of strings.
pub open spec fn strs_view(v: Seq<String>) -> Seq<Seq<char>> {
    v.map_values(|s: String| s@)
}

/// Splits `content` into its lines, newline characters dropped.
pub fn split_lines(content: &str) -> (r: Vec<String>)
    ensures
        strs_view(r@) == spec_split_lines(content@),
{
    let len = content.unicode_len();
    let mut r: Vec<String> = Vec::new();
    let mut start: usize = 0;
    let mut i: usize = 0;
    proof {
        assert(content@.subrange(0, len as int) =~= content@);
        assert(strs_view(r@) + spec_split_lines(content@) =~= spec_split_lines(content@));
    }
    while i < len
        invariant
            0 <= start <= i <= len,
            len == content@.len(),
            forall|j: int| start <= j < i ==> content@[j] != '\n',
            spec_split_lines(content@) == strs_view(r@) + spec_split_lines(
                content@.subrange(start as int, len as int),
            ),
        decreases len - i,
    {
        let c = content.get_char(i);
        if c == '\n' {
            let line = content.substring_char(start, i).to_owned();
            proof {
                let tail = content@.subrange(start as int, len as int);
                assert(tail[i - start] == '\n');
                assert forall|j: int| 0 <= j < i - start implies tail[j] != '\n' by {
                    assert(tail[j] == content@[start + j]);
                }
                lemma_find_char_at(tail, '\n', i - start);
                assert(tail.subrange(0, i - start) =~= line@);
                assert(tail.subrange(i - start + 1, tail.len() as int) =~= content@.subrange(
                    i + 1,
                    len as int,
                ));
                assert(strs_view(r@.push(line)) =~= strs_view(r@) + seq![line@]);
                assert(strs_view(r@) + (seq![line@] + spec_split_lines(
                    content@.subrange(i + 1, len as int),
                )) =~= strs_view(r@.push(line)) + spec_split_lines(
                    content@.subrange(i + 1, len as int),
                ));
            }
            r.push(line);
            start = i + 1;
        }
        i += 1;
    }
    if start < len {
        let line = content.substring_char(start, len).to_owned();
        proof {
            let tail = content@.subrange(start as int, len as int);
            assert forall|j: int| 0 <= j < tail.len() implies tail[j] != '\n' by {
                assert(tail[j] == content@[start + j]);
            }
            if tail.contains('\n') {
                let k = choose|k: int| 0 <= k < tail.len() && tail[k] == '\n';
            }
            assert(!tail.contains('\n'));
            lemma_find_char_props(tail, '\n');
            assert(tail =~= line@);
            assert(strs_view(r@.push(line)) =~= strs_view(r@) + seq![line@]);
            assert(strs_view(r@) + seq![tail] =~= strs_view(r@.push(line)));
        }
        r.push(line);
    } else {
        proof {
            assert(content@.subrange(start as int, len as int) =~= Seq::<char>::empty());
            assert(strs_view(r@) + Seq::<Seq<char>>::empty() =~= strs_view(r@));
        }
    }
    r
}

} // verus!
