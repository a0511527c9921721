use vstd::prelude::*;

use crate::entity::Entity;
use crate::models::Ingredient;
use crate::table::{lemma_filter_step, Table};
use crate::text::{is_space, is_space_exec};

verus! {

/// The words of `s`: its maximal runs of characters that are not white space.
pub open spec fn words(s: Seq<char>) -> Seq<Seq<char>>
    decreases s.len(),
{
    if s.len() == 0 {
        Seq::empty()
    } else {
        let w = words(s.drop_last());
        let c = s.last();
        if is_space(c) {
            w
        } else if s.len() >= 2 && !is_space(s[s.len() - 2]) {
            w.update(w.len() - 1, w.last().push(c))
        } else {
            w.push(seq![c])
        }
    }
}

/// The character code that text matching compares: ASCII letters in lower case.
pub open spec fn fold_code(c: char) -> u32 {
    if 'A' <= c <= 'Z' {
        (c as u32 + 32) as u32
    } else {
        c as u32
    }
}

/// Whether `t` from position `i` on matches pattern `p` from position `j` on, where '%'
/// stands for any run of characters, '_' for any one character, and letters match
/// regardless of ASCII case.
pub open spec fn like_from(t: Seq<char>, p: Seq<char>, i: int, j: int) -> bool
    decreases p.len() - j, t.len() - i,
{
    if j < 0 || i < 0 || j >= p.len() {
        i >= t.len()
    } else if p[j] == '%' {
        like_from(t, p, i, j + 1) || (i < t.len() && like_from(t, p, i + 1, j))
    } else if i >= t.len() {
        false
    } else if p[j] == '_' {
        like_from(t, p, i + 1, j + 1)
    } else {
        fold_code(t[i]) == fold_code(p[j]) && like_from(t, p, i + 1, j + 1)
    }
}

/// `t` matches the pattern `p`.
pub open spec fn like(t: Seq<char>, p: Seq<char>) -> bool {
    like_from(t, p, 0, 0)
}

/// An ingredient name matches a search input when the input has no words, or when the
/// name holds one of them (as the pattern "%word%").
pub open spec fn name_matches(name: Seq<char>, input: Seq<char>) -> bool {
    let ws = words(input);
    ws.len() == 0 || exists|k: int| 0 <= k < ws.len() && like(name, seq!['%'] + #[trigger] ws[k] + seq!['%'])
}

/// The characters of `s`.
fn chars_of(s: &str) -> (r: Vec<char>)
    ensures
        r@ == s@,
{
    let n = s.unicode_len();
    let mut out: Vec<char> = Vec::new();
    let mut i: usize = 0;
    while i < n
        invariant
            n == s@.len(),
            i <= n,
            out@ == s@.subrange(0, i as int),
        decreases n - i,
    {
        out.push(s.get_char(i));
        i = i + 1;
        proof {
            assert(out@ =~= s@.subrange(0, i as int));
        }
    }
    out
}

fn fold_code_exec(c: char) -> (r: u32)
    ensures
        r == fold_code(c),
{
    if 'A' <= c && c <= 'Z' {
        c as u32 + 32
    } else {
        c as u32
    }
}

/// Tests `like_from`.
fn like_exec(t: &Vec<char>, p: &Vec<char>, i: usize, j: usize) -> (r: bool)
    requires
        i <= t@.len(),
        j <= p@.len(),
    ensures
        r == like_from(t@, p@, i as int, j as int),
    decreases p@.len() - j, t@.len() - i,
{
    if j >= p.len() {
        i >= t.len()
    } else if p[j] == '%' {
        like_exec(t, p, i, j + 1) || (i < t.len() && like_exec(t, p, i + 1, j))
    } else if i >= t.len() {
        false
    } else if p[j] == '_' {
        like_exec(t, p, i + 1, j + 1)
    } else {
        fold_code_exec(t[i]) == fold_code_exec(p[j]) && like_exec(t, p, i + 1, j + 1)
    }
}

/// The words of `s`, each as its characters.
pub fn words_exec(s: &str) -> (r: Vec<Vec<char>>)
    ensures
        r@.map_values(|w: Vec<char>| w@) == words(s@),
{
    let cs = chars_of(s);
    let n = cs.len();
    let mut out: Vec<Vec<char>> = Vec::new();
    let mut cur: Vec<char> = Vec::new();
    let mut in_word = false;
    let mut i: usize = 0;
    while i < n
        invariant
            n == cs@.len(),
            cs@ == s@,
            i <= n,
            in_word ==> i > 0 && !is_space(cs@[i - 1]) && cur@.len() > 0,
            !in_word ==> (i == 0 || is_space(cs@[i - 1])) && cur@.len() == 0,
            words(cs@.subrange(0, i as int)) == (if in_word {
                out@.map_values(|w: Vec<char>| w@).push(cur@)
            } else {
                out@.map_values(|w: Vec<char>| w@)
            }),
        decreases n - i,
    {
        let c = cs[i];
        let ghost done = out@.map_values(|w: Vec<char>| w@);
        proof {
            assert(cs@.subrange(0, i + 1).drop_last() =~= cs@.subrange(0, i as int));
            assert(cs@.subrange(0, i + 1).last() == c);
            if i > 0 {
                assert(cs@.subrange(0, i + 1)[i - 1] == cs@[i - 1]);
            }
        }
        if is_space_exec(c) {
            if in_word {
                let w = cur;
                cur = Vec::new();
                out.push(w);
                proof {
                    assert(out@.map_values(|w: Vec<char>| w@) =~= done.push(w@));
                }
                in_word = false;
            }
        } else {
            let ghost before = cur@;
            cur.push(c);
            if in_word {
                proof {
                    assert(done.push(before).update(done.len() as int, before.push(c)) =~= done.push(
                        cur@,
                    ));
                }
            } else {
                proof {
                    assert(before =~= Seq::<char>::empty());
                    assert(cur@ =~= seq![c]);
                }
            }
            in_word = true;
        }
        i = i + 1;
    }
    proof {
        assert(cs@.subrange(0, n as int) =~= cs@);
    }
    if in_word {
        let ghost done = out@.map_values(|w: Vec<char>| w@);
        let w = cur;
        out.push(w);
        proof {
            assert(out@.map_values(|w: Vec<char>| w@) =~= done.push(w@));
        }
    }
    out
}

/// The pattern "%word%".
fn containing_pattern(word: &Vec<char>) -> (r: Vec<char>)
    ensures
        r@ == seq!['%'] + word@ + seq!['%'],
{
    let mut p: Vec<char> = Vec::new();
    p.push('%');
    let n = word.len();
    let mut i: usize = 0;
    while i < n
        invariant
            n == word@.len(),
            i <= n,
            p@ == seq!['%'] + word@.subrange(0, i as int),
        decreases n - i,
    {
        p.push(word[i]);
        i = i + 1;
        proof {
            assert(p@ =~= seq!['%'] + word@.subrange(0, i as int));
        }
    }
    p.push('%');
    proof {
        assert(word@.subrange(0, n as int) =~= word@);
        assert(p@ =~= seq!['%'] + word@ + seq!['%']);
    }
    p
}

/// Whether `name` matches the words `ws` (see `name_matches`).
fn matches_words(name: &str, ws: &Vec<Vec<char>>, patterns: &Vec<Vec<char>>) -> (r: bool)
    requires
        patterns@.len() == ws@.len(),
        forall|k: int|
            0 <= k < ws@.len() ==> (#[trigger] patterns@[k])@ == seq!['%'] + ws@[k]@ + seq!['%'],
    ensures
        r == (ws@.len() == 0 || exists|k: int|
            0 <= k < ws@.len() && like(name@, seq!['%'] + (#[trigger] ws@[k])@ + seq!['%'])),
{
    if ws.len() == 0 {
        return true;
    }
    let t = chars_of(name);
    let n = patterns.len();
    let mut k: usize = 0;
    while k < n
        invariant
            n == patterns@.len(),
            n == ws@.len(),
            t@ == name@,
            forall|m: int|
                0 <= m < ws@.len() ==> (#[trigger] patterns@[m])@ == seq!['%'] + ws@[m]@ + seq!['%'],
            k <= n,
            forall|m: int| 0 <= m < k ==> !like(name@, seq!['%'] + (#[trigger] ws@[m])@ + seq!['%']),
        decreases n - k,
    {
        if like_exec(&t, &patterns[k], 0, 0) {
            return true;
        }
        k = k + 1;
    }
    false
}

impl Ingredient {
    /// The ingredients whose names hold any word of `input` (each word a "%word%" pattern
    /// in which '%' and '_' are wildcards and ASCII case does not matter), in store
    /// order; every ingredient when `input` has no words.
    pub fn find_by_name(input: &str, ingredients: &Table<Ingredient>) -> (r: Vec<Ingredient>)
        ensures
            r@ == ingredients@.filter(|i: Ingredient| name_matches(i.name@, input@)),
    {
        let ws = words_exec(input);
        let ghost wv = ws@.map_values(|w: Vec<char>| w@);
        let mut patterns: Vec<Vec<char>> = Vec::new();
        let mut k: usize = 0;
        while k < ws.len()
            invariant
                k <= ws@.len(),
                patterns@.len() == k,
                forall|m: int|
                    0 <= m < k ==> (#[trigger] patterns@[m])@ == seq!['%'] + ws@[m]@ + seq!['%'],
            decreases ws@.len() - k,
        {
            patterns.push(containing_pattern(&ws[k]));
            k = k + 1;
        }
        let ghost pred = |i: Ingredient| name_matches(i.name@, input@);
        let mut out: Vec<Ingredient> = Vec::new();
        let n = ingredients.count_all();
        let mut i: usize = 0;
        while i < n
            invariant
                n == ingredients@.len(),
                i <= n,
                patterns@.len() == ws@.len(),
                forall|m: int|
                    0 <= m < ws@.len() ==> (#[trigger] patterns@[m])@ == seq!['%'] + ws@[m]@ + seq!['%'],
                wv == ws@.map_values(|w: Vec<char>| w@),
                wv == words(input@),
                pred == (|i: Ingredient| name_matches(i.name@, input@)),
                out@ == ingredients@.subrange(0, i as int).filter(pred),
            decreases n - i,
        {
            proof {
                lemma_filter_step(ingredients@, i as int, pred);
            }
            let row = ingredients.get(i);
            let hit = matches_words(row.name.as_str(), &ws, &patterns);
            proof {
                if hit && ws@.len() > 0 {
                    let k = choose|k: int|
                        0 <= k < ws@.len() && like(row.name@, seq!['%'] + (#[trigger] ws@[k])@ + seq!['%']);
                    assert(wv[k] == ws@[k]@);
                }
                if !hit {
                    assert forall|k: int| 0 <= k < wv.len() implies !like(
                        row.name@,
                        seq!['%'] + #[trigger] wv[k] + seq!['%'],
                    ) by {
                        assert(wv[k] == ws@[k]@);
                    }
                }
                assert(hit == pred(*row));
            }
            if hit {
                out.push(row.copy_row());
            }
            i = i + 1;
        }
        proof {
            assert(ingredients@.subrange(0, n as int) =~= ingredients@);
        }
        out
    }
}

/// The position of the candidate whose name is exactly `name`, if any.
pub fn exact_match(name: &str, candidates: &Vec<Ingredient>) -> (r: Option<usize>)
    ensures
        match r {
            Some(i) => i < candidates@.len() && candidates@[i as int].name@ == name@ && forall|j: int|
                0 <= j < i ==> (#[trigger] candidates@[j]).name@ != name@,
            None => forall|j: int| 0 <= j < candidates@.len() ==> (#[trigger] candidates@[j]).name@ != name@,
        },
{
    let n = candidates.len();
    let mut i: usize = 0;
    while i < n
        invariant
            n == candidates@.len(),
            i <= n,
            forall|j: int| 0 <= j < i ==> (#[trigger] candidates@[j]).name@ != name@,
        decreases n - i,
    {
        if text_eq(candidates[i].name.as_str(), name) {
            return Some(i);
        }
        i = i + 1;
    }
    None
}

/// Whether two texts are equal.
fn text_eq(a: &str, b: &str) -> (r: bool)
    ensures
        r == (a@ == b@),
{
    let n = a.unicode_len();
    if n != b.unicode_len() {
        return false;
    }
    let mut i: usize = 0;
    while i < n
        invariant
            n == a@.len(),
            n == b@.len(),
            i <= n,
            a@.subrange(0, i as int) == b@.subrange(0, i as int),
        decreases n - i,
    {
        if a.get_char(i) != b.get_char(i) {
            return false;
        }
        i = i + 1;
        proof {
            assert(a@.subrange(0, i as int) =~= a@.subrange(0, i - 1).push(a@[i - 1]));
            assert(b@.subrange(0, i as int) =~= b@.subrange(0, i - 1).push(b@[i - 1]));
        }
    }
    proof {
        assert(a@.subrange(0, n as int) =~= a@);
        assert(b@.subrange(0, n as int) =~= b@);
    }
    true
}

} // verus!
