use vstd::prelude::*;

use crate::editor::IngredientEntry;
use crate::text::{texts, trim, trimmed};

verus! {

/// The pieces of `s` between line feeds (one piece more than there are line feeds).
pub open spec fn pieces(s: Seq<char>) -> Seq<Seq<char>>
    decreases s.len(),
{
    if s.len() == 0 {
        seq![Seq::empty()]
    } else {
        let p = pieces(s.drop_last());
        if s.last() == '\n' {
            p.push(Seq::empty())
        } else {
            p.update(p.len() - 1, p.last().push(s.last()))
        }
    }
}

/// The lines of `s` that hold something, each without its surrounding white space.
pub open spec fn content_lines(s: Seq<char>) -> Seq<Seq<char>> {
    pieces(s).map_values(|p: Seq<char>| trimmed(p)).filter(|p: Seq<char>| p.len() > 0)
}

/// The position of the first ':' of `s` at or after `i`, or the length of `s`.
pub open spec fn first_colon(s: Seq<char>, i: int) -> int
    decreases s.len() - i,
{
    if i < 0 || i >= s.len() {
        s.len() as int
    } else if s[i] == ':' {
        i
    } else {
        first_colon(s, i + 1)
    }
}

/// A line that starts with "- " holds the notes of the line above.
pub open spec fn is_note(l: Seq<char>) -> bool {
    l.len() >= 2 && l[0] == '-' && l[1] == ' '
}

/// The quantity and name of an ingredient line: around its first ':', or no quantity when
/// it has none.
pub open spec fn line_parts(l: Seq<char>) -> (Seq<char>, Seq<char>) {
    let c = first_colon(l, 0);
    if c < l.len() {
        (trimmed(l.subrange(0, c)), trimmed(l.subrange(c + 1, l.len() as int)))
    } else {
        (Seq::empty(), trimmed(l))
    }
}

/// The ingredients (quantity, name, notes) that a list of content lines describes.
pub open spec fn group_lines(ls: Seq<Seq<char>>) -> Seq<(Seq<char>, Seq<char>, Seq<char>)>
    decreases ls.len(),
{
    if ls.len() == 0 {
        Seq::empty()
    } else if ls.len() >= 2 && is_note(ls[1]) {
        let (q, n) = line_parts(ls[0]);
        seq![(q, n, ls[1].subrange(2, ls[1].len() as int))] + group_lines(ls.subrange(2, ls.len() as int))
    } else {
        let (q, n) = line_parts(ls[0]);
        seq![(q, n, Seq::<char>::empty())] + group_lines(ls.subrange(1, ls.len() as int))
    }
}

/// The (quantity, name, notes) texts of entries.
pub open spec fn entry_parts(es: Seq<IngredientEntry>) -> Seq<(Seq<char>, Seq<char>, Seq<char>)> {
    es.map_values(|e: IngredientEntry| (e.quantity@, e.name@, e.notes_markdown@))
}

/// Splits `s` at line feeds.
pub fn split_pieces(s: &str) -> (r: Vec<String>)
    ensures
        texts(r@) == pieces(s@),
{
    let n = s.unicode_len();
    let mut out: Vec<String> = Vec::new();
    let mut start: usize = 0;
    let mut i: usize = 0;
    proof {
        assert(s@.subrange(0, 0) =~= Seq::<char>::empty());
        assert(texts(out@).push(s@.subrange(0, 0)) =~= seq![Seq::<char>::empty()]);
    }
    while i < n
        invariant
            n == s@.len(),
            start <= i <= n,
            texts(out@).push(s@.subrange(start as int, i as int)) == pieces(s@.subrange(0, i as int)),
        decreases n - i,
    {
        let c = s.get_char(i);
        let ghost prev = texts(out@);
        proof {
            assert(s@.subrange(0, i + 1).drop_last() =~= s@.subrange(0, i as int));
            assert(s@.subrange(0, i + 1).last() == c);
        }
        if c == '\n' {
            let piece = s.substring_char(start, i).to_owned();
            out.push(piece);
            start = i + 1;
            proof {
                assert(texts(out@) =~= prev.push(piece@));
                assert(s@.subrange(start as int, i + 1) =~= Seq::<char>::empty());
            }
        } else {
            proof {
                assert(s@.subrange(start as int, i + 1) =~= s@.subrange(start as int, i as int).push(c));
                assert(prev.push(s@.subrange(start as int, i + 1)) =~= prev.push(
                    s@.subrange(start as int, i as int),
                ).update(prev.len() as int, s@.subrange(start as int, i as int).push(c)));
            }
        }
        i = i + 1;
    }
    let last = s.substring_char(start, n).to_owned();
    let ghost prev = texts(out@);
    out.push(last);
    proof {
        assert(texts(out@) =~= prev.push(last@));
        assert(s@.subrange(0, n as int) =~= s@);
    }
    out
}

/// The lines of `s` that hold something, trimmed.
pub fn content_lines_exec(s: &str) -> (r: Vec<String>)
    ensures
        texts(r@) == content_lines(s@),
{
    let all = split_pieces(s);
    let ghost m = pieces(s@).map_values(|p: Seq<char>| trimmed(p));
    let ghost keep = |p: Seq<char>| p.len() > 0;
    let mut out: Vec<String> = Vec::new();
    let n = all.len();
    let mut i: usize = 0;
    while i < n
        invariant
            n == all@.len(),
            texts(all@) == pieces(s@),
            m == pieces(s@).map_values(|p: Seq<char>| trimmed(p)),
            keep == (|p: Seq<char>| p.len() > 0),
            i <= n,
            texts(out@) == m.subrange(0, i as int).filter(keep),
        decreases n - i,
    {
        proof {
            crate::table::lemma_filter_step(m, i as int, keep);
            assert(m[i as int] == trimmed(all@[i as int]@));
        }
        let t = trim(all[i].as_str());
        if t.unicode_len() > 0 {
            let ghost prev = texts(out@);
            let line = t.to_owned();
            out.push(line);
            proof {
                assert(texts(out@) =~= prev.push(line@));
            }
        }
        i = i + 1;
    }
    proof {
        assert(m.subrange(0, n as int) =~= m);
    }
    out
}

/// The position of the first ':' of `s`, or its length.
fn find_colon(s: &str) -> (r: usize)
    ensures
        r as int == first_colon(s@, 0),
{
    let n = s.unicode_len();
    let mut i: usize = 0;
    while i < n
        invariant
            n == s@.len(),
            i <= n,
            first_colon(s@, 0) == first_colon(s@, i as int),
        decreases n - i,
    {
        if s.get_char(i) == ':' {
            return i;
        }
        i = i + 1;
    }
    n
}

/// The entry that an ingredient line and its notes describe (no ingredient chosen yet).
fn entry_from_line(line: &str, notes: &str) -> (r: IngredientEntry)
    ensures
        r.ingredient_id is None,
        (r.quantity@, r.name@) == line_parts(line@),
        r.notes_markdown@ == notes@,
{
    let c = find_colon(line);
    let n = line.unicode_len();
    if c < n {
        let q = trim(line.substring_char(0, c));
        let name = trim(line.substring_char(c + 1, n));
        IngredientEntry {
            ingredient_id: None,
            name: name.to_owned(),
            quantity: q.to_owned(),
            notes_markdown: notes.to_owned(),
        }
    } else {
        let name = trim(line);
        IngredientEntry {
            ingredient_id: None,
            name: name.to_owned(),
            quantity: String::new(),
            notes_markdown: notes.to_owned(),
        }
    }
}

/// Reads the ingredients text: each line that holds something is "quantity: name" (or
/// just a name), optionally followed by a "- notes" line. No ingredient is chosen yet.
pub fn parse_ingredient_lines(input: &str) -> (r: Vec<IngredientEntry>)
    ensures
        entry_parts(r@) == group_lines(content_lines(input@)),
        forall|i: int| 0 <= i < r@.len() ==> (#[trigger] r@[i]).ingredient_id is None,
{
    let lines = content_lines_exec(input);
    let ghost ls = texts(lines@);
    let n = lines.len();
    let mut out: Vec<IngredientEntry> = Vec::new();
    let mut i: usize = 0;
    proof {
        assert(ls.subrange(0, n as int) =~= ls);
        assert(entry_parts(out@) + group_lines(ls) =~= group_lines(ls));
    }
    while i < n
        invariant
            n == lines@.len(),
            ls == texts(lines@),
            i <= n,
            group_lines(ls) == entry_parts(out@) + group_lines(ls.subrange(i as int, n as int)),
            forall|j: int| 0 <= j < out@.len() ==> (#[trigger] out@[j]).ingredient_id is None,
        decreases n - i,
    {
        let ghost rest = ls.subrange(i as int, n as int);
        let line = lines[i].as_str();
        let mut notes_line = false;
        if i + 1 < n {
            let next = lines[i + 1].as_str();
            notes_line = next.unicode_len() >= 2 && next.get_char(0) == '-' && next.get_char(1) == ' ';
        }
        let ghost prev = entry_parts(out@);
        proof {
            assert(rest[0] == line@);
            if i + 1 < n {
                assert(rest[1] == lines@[i + 1]@);
            }
        }
        if notes_line {
            let next = lines[i + 1].as_str();
            let notes = next.substring_char(2, next.unicode_len());
            let e = entry_from_line(line, notes);
            out.push(e);
            proof {
                assert(entry_parts(out@) =~= prev.push((e.quantity@, e.name@, e.notes_markdown@)));
                assert(rest.subrange(2, rest.len() as int) =~= ls.subrange(i + 2, n as int));
                assert(prev + group_lines(rest) =~= entry_parts(out@) + group_lines(
                    ls.subrange(i + 2, n as int),
                ));
            }
            i = i + 2;
        } else {
            let e = entry_from_line(line, "");
            out.push(e);
            proof {
                reveal_strlit("");
                assert(e.notes_markdown@ =~= Seq::<char>::empty());
                assert(!(rest.len() >= 2 && is_note(rest[1])));
                assert(entry_parts(out@) =~= prev.push((e.quantity@, e.name@, e.notes_markdown@)));
                assert(rest.subrange(1, rest.len() as int) =~= ls.subrange(i + 1, n as int));
                assert(prev + group_lines(rest) =~= entry_parts(out@) + group_lines(
                    ls.subrange(i + 1, n as int),
                ));
            }
            i = i + 1;
        }
    }
    proof {
        assert(ls.subrange(n as int, n as int) =~= Seq::<Seq<char>>::empty());
        assert(entry_parts(out@) + Seq::empty() =~= entry_parts(out@));
    }
    out
}

} // verus!
