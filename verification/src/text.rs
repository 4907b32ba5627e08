//! Line- and cell-level text handling: trimming surrounding whitespace,
//! splitting on a delimiter character, and splitting a document into lines.

use vstd::prelude::*;

verus! {

/// Whitespace recognized when a line or a cell is trimmed.
pub open spec fn is_space(c: char) -> bool {
    c == ' ' || c == '\t' || c == '\r' || c == '\n'
}

/// Executable test for [`is_space`].
pub fn is_space_char(c: char) -> (b: bool)
    ensures
        b == is_space(c),
{
    c == ' ' || c == '\t' || c == '\r' || c == '\n'
}

/// The sequence with all leading whitespace removed.
pub open spec fn trim_start_spec(s: Seq<char>) -> Seq<char>
    decreases s.len(),
{
    if s.len() == 0 {
        s
    } else if is_space(s[0]) {
        trim_start_spec(s.drop_first())
    } else {
        s
    }
}

/// The sequence with all trailing whitespace removed.
pub open spec fn trim_end_spec(s: Seq<char>) -> Seq<char>
    decreases s.len(),
{
    if s.len() == 0 {
        s
    } else if is_space(s.last()) {
        trim_end_spec(s.drop_last())
    } else {
        s
    }
}

/// The sequence with leading and trailing whitespace removed.
pub open spec fn trim_spec(s: Seq<char>) -> Seq<char> {
    trim_end_spec(trim_start_spec(s))
}

proof fn lemma_trim_start_subrange(s: Seq<char>, i: int)
    requires
        0 <= i <= s.len(),
        forall|k: int| 0 <= k < i ==> is_space(s[k]),
        i == s.len() || !is_space(s[i]),
    ensures
        trim_start_spec(s) == s.subrange(i, s.len() as int),
    decreases i,
{
    if i == 0 {
        assert(s.subrange(0, s.len() as int) =~= s);
    } else {
        lemma_trim_start_subrange(s.drop_first(), i - 1);
        assert(s.drop_first().subrange(i - 1, s.drop_first().len() as int) =~= s.subrange(
            i,
            s.len() as int,
        ));
    }
}

proof fn lemma_trim_end_subrange(s: Seq<char>, j: int)
    requires
        0 <= j <= s.len(),
        forall|k: int| j <= k < s.len() ==> is_space(s[k]),
        j == 0 || !is_space(s[j - 1]),
    ensures
        trim_end_spec(s) == s.subrange(0, j),
    decreases s.len() - j,
{
    if j == s.len() {
        assert(s.subrange(0, s.len() as int) =~= s);
    } else {
        lemma_trim_end_subrange(s.drop_last(), j);
        assert(s.drop_last().subrange(0, j) =~= s.subrange(0, j));
    }
}

/// Returns the input with leading and trailing whitespace removed.
pub fn trim(s: &str) -> (r: String)
    ensures
        r@ == trim_spec(s@),
{
    let n = s.unicode_len();
    let mut i: usize = 0;
    while i < n && is_space_char(s.get_char(i))
        invariant
            0 <= i <= n,
            n == s@.len(),
            forall|k: int| 0 <= k < i ==> is_space(s@[k]),
        decreases n - i,
    {
        i = i + 1;
    }
    proof {
        lemma_trim_start_subrange(s@, i as int);
    }
    let mut j: usize = n;
    while j > i && is_space_char(s.get_char(j - 1))
        invariant
            i <= j <= n,
            forall|k: int| j <= k < n ==> is_space(s@[k]),
        decreases j,
    {
        j = j - 1;
    }
    proof {
        let t = s@.subrange(i as int, n as int);
        lemma_trim_end_subrange(t, j - i);
        assert(t.subrange(0, j - i) =~= s@.subrange(i as int, j as int));
    }
    s.substring_char(i, j).to_owned()
}

/// The pieces of `s` between occurrences of the delimiter `d`, in order.
/// A sequence with no delimiter is a single piece; each delimiter ends a
/// piece, so `n` delimiters yield `n + 1` (possibly empty) pieces.
pub open spec fn split_at_char(s: Seq<char>, d: char) -> Seq<Seq<char>>
    decreases s.len(),
{
    if s.len() == 0 {
        seq![Seq::<char>::empty()]
    } else if s[0] == d {
        seq![Seq::<char>::empty()].add(split_at_char(s.drop_first(), d))
    } else {
        let r = split_at_char(s.drop_first(), d);
        r.update(0, seq![s[0]].add(r[0]))
    }
}

pub proof fn lemma_split_at_char_len(s: Seq<char>, d: char)
    ensures
        split_at_char(s, d).len() >= 1,
    decreases s.len(),
{
    if s.len() == 0 {
    } else {
        lemma_split_at_char_len(s.drop_first(), d);
    }
}

/// A sequence without the delimiter splits into itself as the one piece.
pub proof fn lemma_split_no_delim(s: Seq<char>, d: char)
    requires
        forall|k: int| 0 <= k < s.len() ==> s[k] != d,
    ensures
        split_at_char(s, d) == seq![s],
    decreases s.len(),
{
    if s.len() == 0 {
        assert(seq![Seq::<char>::empty()] =~~= seq![s]);
    } else {
        lemma_split_no_delim(s.drop_first(), d);
        let r = split_at_char(s.drop_first(), d);
        assert(r.update(0, seq![s[0]].add(r[0])) =~= seq![s]) by {
            assert(seq![s[0]].add(s.drop_first()) =~= s);
        }
    }
}

/// Splitting at the first delimiter: the prefix before it is the first piece,
/// and the rest of the pieces are those of the suffix after it.
pub proof fn lemma_split_first_delim(s: Seq<char>, d: char, i: int)
    requires
        0 <= i < s.len(),
        s[i] == d,
        forall|k: int| 0 <= k < i ==> s[k] != d,
    ensures
        split_at_char(s, d) == seq![s.subrange(0, i)].add(
            split_at_char(s.subrange(i + 1, s.len() as int), d),
        ),
    decreases i,
{
    if i == 0 {
        assert(s.subrange(0, 0) =~= Seq::<char>::empty());
        assert(s.subrange(1, s.len() as int) =~= s.drop_first());
    } else {
        lemma_split_first_delim(s.drop_first(), d, i - 1);
        let rest = s.drop_first();
        assert(rest.subrange(i, rest.len() as int) =~= s.subrange(i + 1, s.len() as int));
        let r = split_at_char(rest, d);
        assert(split_at_char(s, d) == r.update(0, seq![s[0]].add(r[0])));
        assert(r == seq![rest.subrange(0, i - 1)].add(
            split_at_char(s.subrange(i + 1, s.len() as int), d),
        ));
        assert(r[0] == rest.subrange(0, i - 1));
        assert(seq![s[0]].add(rest.subrange(0, i - 1)) =~= s.subrange(0, i));
        assert(r.update(0, seq![s[0]].add(r[0])) =~= seq![s.subrange(0, i)].add(
            split_at_char(s.subrange(i + 1, s.len() as int), d),
        ));
    }
}

/// Splits `s` into the pieces between occurrences of `d`.
pub fn split_char(s: &str, d: char) -> (r: Vec<String>)
    ensures
        r@.map_values(|p: String| p@) == split_at_char(s@, d),
{
    let n = s.unicode_len();
    let mut r: Vec<String> = Vec::new();
    let mut start: usize = 0;
    let mut i: usize = 0;
    proof {
        assert(s@.subrange(0, n as int) =~= s@);
        assert(r@.map_values(|p: String| p@).add(split_at_char(s@, d)) =~= split_at_char(s@, d));
    }
    while i < n
        invariant
            start <= i <= n,
            n == s@.len(),
            forall|k: int| start <= k < i ==> s@[k] != d,
            split_at_char(s@, d) == r@.map_values(|p: String| p@).add(
                split_at_char(s@.subrange(start as int, n as int), d),
            ),
        decreases n - i,
    {
        if s.get_char(i) == d {
            let piece = s.substring_char(start, i).to_owned();
            proof {
                let suffix = s@.subrange(start as int, n as int);
                lemma_split_first_delim(suffix, d, i - start);
                assert(suffix.subrange(0, i - start) =~= s@.subrange(start as int, i as int));
                assert(suffix.subrange(i - start + 1, suffix.len() as int) =~= s@.subrange(
                    i + 1,
                    n as int,
                ));
                assert(r@.push(piece).map_values(|p: String| p@) =~= r@.map_values(
                    |p: String| p@,
                ).add(seq![piece@]));
            }
            r.push(piece);
            start = i + 1;
        }
        i = i + 1;
    }
    let piece = s.substring_char(start, n).to_owned();
    proof {
        lemma_split_no_delim(s@.subrange(start as int, n as int), d);
        assert(r@.push(piece).map_values(|p: String| p@) =~= r@.map_values(|p: String| p@).add(
            seq![piece@],
        ));
    }
    r.push(piece);
    r
}

/// A piece with one trailing carriage return removed.
pub open spec fn strip_last_cr(p: Seq<char>) -> Seq<char> {
    if p.len() > 0 && p.last() == '\r' {
        p.drop_last()
    } else {
        p
    }
}

/// The lines of a document: the pieces between newline characters, each with
/// one trailing carriage return removed, and with no piece after a final
/// newline. The empty document has no lines.
pub open spec fn lines_spec(s: Seq<char>) -> Seq<Seq<char>> {
    if s.len() == 0 {
        Seq::<Seq<char>>::empty()
    } else {
        let ps = split_at_char(s, '\n');
        let kept = if s.last() == '\n' {
            ps.drop_last()
        } else {
            ps
        };
        kept.map_values(|p: Seq<char>| strip_last_cr(p))
    }
}

/// Splits a document into its lines, as [`lines_spec`] describes.
pub fn split_lines(text: &str) -> (r: Vec<String>)
    ensures
        r@.map_values(|p: String| p@) == lines_spec(text@),
{
    let n = text.unicode_len();
    if n == 0 {
        return Vec::new();
    }
    let mut pieces = split_char(text, '\n');
    proof {
        lemma_split_at_char_len(text@, '\n');
        assert(pieces@.len() == pieces@.map_values(|p: String| p@).len());
    }
    if text.get_char(n - 1) == '\n' {
        pieces.pop();
        proof {
            assert(pieces@.map_values(|p: String| p@) =~= split_at_char(
                text@,
                '\n',
            ).drop_last());
        }
    }
    let ghost kept = pieces@.map_values(|p: String| p@);
    let mut out: Vec<String> = Vec::new();
    let mut i: usize = 0;
    while i < pieces.len()
        invariant
            0 <= i <= pieces.len(),
            kept == pieces@.map_values(|p: String| p@),
            out@.len() == i,
            forall|k: int| 0 <= k < i ==> out@[k]@ == strip_last_cr(kept[k]),
        decreases pieces.len() - i,
    {
        let p = &pieces[i];
        let m = p.as_str().unicode_len();
        if m > 0 && p.as_str().get_char(m - 1) == '\r' {
            let stripped = p.as_str().substring_char(0, m - 1).to_owned();
            proof {
                assert(p@.subrange(0, m - 1) =~= p@.drop_last());
            }
            out.push(stripped);
        } else {
            let copy = p.clone();
            out.push(copy);
        }
        i = i + 1;
    }
    proof {
        assert(out@.map_values(|p: String| p@) =~= kept.map_values(
            |p: Seq<char>| strip_last_cr(p),
        ));
    }
    out
}

} // verus!
