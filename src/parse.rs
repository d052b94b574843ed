//! The text import format: one `parent->child,child,...` declaration per line.
use vstd::prelude::*;

use crate::named_lu_tree::{lemma_add_all_grows, NamedLuTree, NamedLuTreeView};

verus! {

/// `s` holds the separator `->` at position `i`.
pub open spec fn sep_at(s: Seq<char>, i: int) -> bool {
    0 <= i && i + 1 < s.len() && s[i] == '-' && s[i + 1] == '>'
}

/// The first position at or after `from` where `s` holds `->`, or -1.
pub open spec fn find_sep(s: Seq<char>, from: int) -> int
    decreases s.len() - from,
{
    if from < 0 || from + 1 >= s.len() {
        -1
    } else if sep_at(s, from) {
        from
    } else {
        find_sep(s, from + 1)
    }
}

/// `s` cut at every `sep`; there is always at least one (possibly empty) piece.
pub open spec fn split_on(s: Seq<char>, sep: char) -> Seq<Seq<char>>
    decreases s.len(),
{
    if s.len() == 0 {
        seq![Seq::empty()]
    } else {
        let init = split_on(s.drop_last(), sep);
        if s.last() == sep {
            init.push(Seq::empty())
        } else {
            init.update(init.len() - 1, init.last().push(s.last()))
        }
    }
}

/// A line read as `(parent, children)`: the parent is the text before the
/// first `->`, the children the comma-separated text between it and the
/// next `->` (or the end). No separator, or nothing after it, gives `None`.
pub open spec fn parse_spec(s: Seq<char>) -> Option<(Seq<char>, Seq<Seq<char>>)> {
    let i = find_sep(s, 0);
    if i < 0 {
        None
    } else {
        let j = find_sep(s, i + 2);
        let end = if j < 0 {
            s.len() as int
        } else {
            j
        };
        if end == i + 2 {
            None
        } else {
            Some((s.subrange(0, i), split_on(s.subrange(i + 2, end), ',')))
        }
    }
}

/// The number of characters in all of `lines`.
pub open spec fn total_chars(lines: Seq<Seq<char>>) -> nat
    decreases lines.len(),
{
    if lines.len() == 0 {
        0
    } else {
        total_chars(lines.drop_last()) + lines.last().len()
    }
}

/// The store `v` after importing `line`: its parent is made to exist and its
/// children are added under it. A line that does not parse changes nothing.
pub open spec fn import_line(v: NamedLuTreeView, line: Seq<char>) -> NamedLuTreeView {
    match parse_spec(line) {
        Some((p, cs)) => v.with_root(p).add_all(p, cs),
        None => v,
    }
}

/// The store `v` after importing each of `lines` in order.
pub open spec fn import_lines(v: NamedLuTreeView, lines: Seq<Seq<char>>) -> NamedLuTreeView
    decreases lines.len(),
{
    if lines.len() == 0 {
        v
    } else {
        import_line(import_lines(v, lines.drop_last()), lines.last())
    }
}

/// `split_on` never yields an empty list.
pub proof fn lemma_split_nonempty(s: Seq<char>, sep: char)
    ensures
        split_on(s, sep).len() >= 1,
        split_on(s, sep).len() <= s.len() + 1,
    decreases s.len(),
{
    if s.len() > 0 {
        lemma_split_nonempty(s.drop_last(), sep);
    }
}

/// `find_sep` gives -1 or a separator position at or after `from`.
pub proof fn lemma_find_sep(s: Seq<char>, from: int)
    requires
        0 <= from,
    ensures
        find_sep(s, from) == -1 || (from <= find_sep(s, from) && sep_at(s, find_sep(s, from))),
    decreases s.len() - from,
{
    if from + 1 < s.len() && !sep_at(s, from) {
        lemma_find_sep(s, from + 1);
    }
}

/// The characters of a prefix of `lines`, one line longer.
pub proof fn lemma_total_chars_prefix(lines: Seq<Seq<char>>, k: int)
    requires
        0 <= k < lines.len(),
    ensures
        total_chars(lines.take(k + 1)) == total_chars(lines.take(k)) + lines[k].len(),
        total_chars(lines.take(k + 1)) <= total_chars(lines),
    decreases lines.len(),
{
    assert(lines.take(k + 1).drop_last() =~= lines.take(k));
    if k + 1 < lines.len() {
        assert(lines.drop_last().take(k + 1) =~= lines.take(k + 1));
        assert(lines.drop_last().take(k) =~= lines.take(k));
        lemma_total_chars_prefix(lines.drop_last(), k);
    } else {
        assert(lines.take(k + 1) =~= lines);
    }
}

/// The first position at or after `from` where `line` holds `->`.
fn find_separator(line: &str, n: usize, from: usize) -> (r: Option<usize>)
    requires
        n == line@.len(),
    ensures
        match r {
            Some(i) => find_sep(line@, from as int) == i as int,
            None => find_sep(line@, from as int) == -1,
        },
{
    let mut k = from;
    while k < n && k + 1 < n
        invariant
            n == line@.len(),
            from <= k,
            find_sep(line@, from as int) == find_sep(line@, k as int),
        decreases n - k,
    {
        if line.get_char(k) == '-' && line.get_char(k + 1) == '>' {
            return Some(k);
        }
        k = k + 1;
    }
    None
}

/// The comma-separated pieces of `s`.
fn split_commas(s: &str) -> (r: Vec<String>)
    ensures
        r@.map_values(|t: String| t@) == split_on(s@, ','),
{
    let n = s.unicode_len();
    let mut done: Vec<String> = Vec::new();
    let mut start: usize = 0;
    let mut i: usize = 0;
    proof {
        assert(s@.take(0) =~= Seq::<char>::empty());
        assert(done@.map_values(|t: String| t@).push(s@.subrange(0, 0)) =~= seq![Seq::<char>::empty()]);
    }
    while i < n
        invariant
            n == s@.len(),
            start <= i <= n,
            done@.map_values(|t: String| t@).push(s@.subrange(start as int, i as int)) == split_on(
                s@.take(i as int),
                ',',
            ),
        decreases n - i,
    {
        let ghost prev = done@;
        let ghost old_start = start;
        proof {
            assert(s@.take(i + 1).drop_last() =~= s@.take(i as int));
            assert(s@.take(i + 1).last() == s@[i as int]);
        }
        if s.get_char(i) == ',' {
            done.push(String::from_str(s.substring_char(start, i)));
            start = i + 1;
            proof {
                assert(done@.map_values(|t: String| t@) =~= prev.map_values(|t: String| t@).push(
                    s@.subrange(old_start as int, i as int),
                ));
                assert(s@.subrange(start as int, i + 1) =~= Seq::<char>::empty());
            }
        } else {
            proof {
                assert(s@.subrange(start as int, i + 1) =~= s@.subrange(start as int, i as int).push(
                    s@[i as int],
                ));
            }
        }
        i = i + 1;
    }
    done.push(String::from_str(s.substring_char(start, n)));
    proof {
        assert(s@.take(n as int) =~= s@);
    }
    done
}

impl NamedLuTree {
    /// Reads one line of the import format as `(parent, children)`;
    /// `None` when the line has no `->` or nothing follows it.
    pub fn parse_line(line: &str) -> (r: Option<(String, Vec<String>)>)
        ensures
            match r {
                Some((p, c)) => parse_spec(line@) == Some((p@, c@.map_values(|t: String| t@))),
                None => parse_spec(line@) is None,
            },
    {
        let n = line.unicode_len();
        let i = match find_separator(line, n, 0) {
            Some(i) => i,
            None => return None,
        };
        proof {
            lemma_find_sep(line@, 0);
        }
        let end = match find_separator(line, n, i + 2) {
            Some(j) => j,
            None => n,
        };
        proof {
            lemma_find_sep(line@, i + 2);
        }
        if end == i + 2 {
            return None;
        }
        let parent = String::from_str(line.substring_char(0, i));
        let children = split_commas(line.substring_char(i + 2, end));
        Some((parent, children))
    }
    /// Builds a tree from lines of the import format, in order. Fails with the
    /// index of the first line that does not parse.
    pub fn from_lines(lines: &Vec<String>) -> (r: Result<NamedLuTree, usize>)
        requires
            total_chars(lines@.map_values(|l: String| l@)) < usize::MAX,
        ensures
            match r {
                Ok(t) => {
                    &&& t.wf()
                    &&& forall|i: int| 0 <= i < lines@.len() ==> #[trigger] parse_spec(lines@[i]@) is Some
                    &&& t@ == import_lines(NamedLuTree::new_view(), lines@.map_values(|l: String| l@))
                },
                Err(k) => {
                    &&& k < lines@.len()
                    &&& parse_spec(lines@[k as int]@) is None
                    &&& forall|i: int| 0 <= i < k ==> #[trigger] parse_spec(lines@[i]@) is Some
                },
            },
    {
        let ghost ls = lines@.map_values(|l: String| l@);
        let mut tree = NamedLuTree::new();
        let ghost v0 = tree@;
        let mut k: usize = 0;
        proof {
            assert(ls.take(0) =~= Seq::<Seq<char>>::empty());
            assert(v0 == NamedLuTree::new_view());
        }
        while k < lines.len()
            invariant
                ls == lines@.map_values(|l: String| l@),
                total_chars(ls) < usize::MAX,
                k <= lines@.len(),
                tree.wf(),
                tree@ == import_lines(v0, ls.take(k as int)),
                tree@.len() <= total_chars(ls.take(k as int)),
                forall|i: int| 0 <= i < k ==> #[trigger] parse_spec(lines@[i]@) is Some,
            decreases lines@.len() - k,
        {
            proof {
                assert(ls.take(k + 1).drop_last() =~= ls.take(k as int));
                assert(ls.take(k + 1).last() == lines@[k as int]@);
                lemma_total_chars_prefix(ls, k as int);
            }
            match NamedLuTree::parse_line(lines[k].as_str()) {
                Some((parent, children)) => {
                    proof {
                        let line = lines@[k as int]@;
                        let i = find_sep(line, 0);
                        let j = find_sep(line, i + 2);
                        lemma_find_sep(line, 0);
                        lemma_find_sep(line, i + 2);
                        let end = if j < 0 { line.len() as int } else { j };
                        lemma_split_nonempty(line.subrange(i + 2, end), ',');
                        assert(children@.map_values(|t: String| t@).len() == children@.len());
                        lemma_add_all_grows(
                            tree@.with_root(parent@),
                            parent@,
                            children@.map_values(|t: String| t@),
                        );
                    }
                    tree.add_with_children(parent, children);
                },
                None => {
                    return Err(k);
                },
            }
            k = k + 1;
        }
        proof {
            assert(ls.take(lines@.len() as int) =~= ls);
        }
        Ok(tree)
    }
}

} // verus!
