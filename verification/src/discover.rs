//! Which directory entries count as markdown files: non-hidden file names
//! whose extension is one of the recognized markdown extensions.

use vstd::prelude::*;

verus! {

/// A file name is hidden when it starts with a dot.
pub open spec fn hidden_name(name: Seq<char>) -> bool {
    name.len() > 0 && name[0] == '.'
}

/// The recognized markdown extensions: md, markdown, mdown, mkdn, mkd.
pub open spec fn is_md_extension(ext: Seq<char>) -> bool {
    ||| ext == seq!['m', 'd']
    ||| ext == seq!['m', 'a', 'r', 'k', 'd', 'o', 'w', 'n']
    ||| ext == seq!['m', 'd', 'o', 'w', 'n']
    ||| ext == seq!['m', 'k', 'd', 'n']
    ||| ext == seq!['m', 'k', 'd']
}

/// Index of the last dot in a name, or -1 when the name has none.
pub open spec fn last_dot(name: Seq<char>) -> int
    decreases name.len(),
{
    if name.len() == 0 {
        -1
    } else if name[name.len() - 1] == '.' {
        name.len() - 1
    } else {
        last_dot(name.drop_last())
    }
}

/// A name has an extension only when a dot stands after its first character;
/// a name like `.gitignore` or `note` has none.
pub open spec fn markdown_name(name: Seq<char>) -> bool {
    let p = last_dot(name);
    p > 0 && is_md_extension(name.skip(p + 1))
}

proof fn lemma_last_dot_bounds(name: Seq<char>)
    ensures
        -1 <= last_dot(name) < name.len(),
        last_dot(name) >= 0 ==> name[last_dot(name)] == '.',
    decreases name.len(),
{
    if name.len() > 0 && name[name.len() - 1] != '.' {
        lemma_last_dot_bounds(name.drop_last());
    }
}

proof fn lemma_last_dot_at(name: Seq<char>, p: int)
    requires
        0 <= p < name.len(),
        name[p] == '.',
        forall|k: int| p < k < name.len() ==> name[k] != '.',
    ensures
        last_dot(name) == p,
    decreases name.len(),
{
    if p == name.len() - 1 {
    } else {
        assert(name.drop_last()[p] == name[p]);
        assert forall|k: int| p < k < name.drop_last().len() implies name.drop_last()[k] != '.' by {
            assert(name.drop_last()[k] == name[k]);
        }
        lemma_last_dot_at(name.drop_last(), p);
    }
}

/// Whether a file name starts with a dot, which keeps it out of every scan.
pub fn is_file_hidden(name: &String) -> (r: bool)
    ensures
        r == hidden_name(name@),
{
    let n = name.as_str().unicode_len();
    if n == 0 {
        false
    } else {
        name.as_str().get_char(0) == '.'
    }
}

/// Whether a file name carries one of the recognized markdown extensions,
/// matched case-sensitively after the last dot.
pub fn is_file_markdown(name: &String) -> (r: bool)
    ensures
        r == markdown_name(name@),
{
    let n = name.as_str().unicode_len();
    let mut j: usize = n;
    let mut found: bool = false;
    let mut p: usize = 0;
    while j > 0 && !found
        invariant
            0 <= j <= n,
            n == name@.len(),
            !found ==> forall|k: int| j <= k < n ==> name@[k] != '.',
            found ==> {
                &&& j < n
                &&& p == j
                &&& name@[p as int] == '.'
                &&& forall|k: int| p < k < n ==> name@[k] != '.'
            },
        decreases j + (if found { 0int } else { 1int }),
    {
        let c = name.as_str().get_char(j - 1);
        if c == '.' {
            found = true;
            p = j - 1;
            j = j - 1;
        } else {
            j = j - 1;
        }
    }
    proof {
        if found {
            lemma_last_dot_at(name@, p as int);
        } else {
            lemma_last_dot_bounds(name@);
            if last_dot(name@) >= 0 {
                assert(name@[last_dot(name@)] != '.');
            }
        }
    }
    if !found || p == 0 {
        return false;
    }
    let ext = name.as_str().substring_char(p + 1, n);
    proof {
        assert(ext@ =~= name@.skip(p + 1));
    }
    let r = str_eq_chars2(ext, 'm', 'd') || str_eq_chars8(ext) || str_eq_chars5(ext) || str_eq_chars4(
        ext,
    ) || str_eq_chars3(ext);
    r
}

fn str_eq_chars2(s: &str, c0: char, c1: char) -> (r: bool)
    ensures
        r == (s@ == seq![c0, c1]),
{
    let n = s.unicode_len();
    if n != 2 {
        proof {
            assert(s@ != seq![c0, c1]);
        }
        return false;
    }
    let r = s.get_char(0) == c0 && s.get_char(1) == c1;
    proof {
        if r {
            assert(s@ =~= seq![c0, c1]);
        }
    }
    r
}

fn str_eq_chars3(s: &str) -> (r: bool)
    ensures
        r == (s@ == seq!['m', 'k', 'd']),
{
    let n = s.unicode_len();
    if n != 3 {
        proof {
            assert(s@ != seq!['m', 'k', 'd']);
        }
        return false;
    }
    let r = s.get_char(0) == 'm' && s.get_char(1) == 'k' && s.get_char(2) == 'd';
    proof {
        if r {
            assert(s@ =~= seq!['m', 'k', 'd']);
        }
    }
    r
}

fn str_eq_chars4(s: &str) -> (r: bool)
    ensures
        r == (s@ == seq!['m', 'k', 'd', 'n']),
{
    let n = s.unicode_len();
    if n != 4 {
        proof {
            assert(s@ != seq!['m', 'k', 'd', 'n']);
        }
        return false;
    }
    let r = s.get_char(0) == 'm' && s.get_char(1) == 'k' && s.get_char(2) == 'd' && s.get_char(3)
        == 'n';
    proof {
        if r {
            assert(s@ =~= seq!['m', 'k', 'd', 'n']);
        }
    }
    r
}

fn str_eq_chars5(s: &str) -> (r: bool)
    ensures
        r == (s@ == seq!['m', 'd', 'o', 'w', 'n']),
{
    let n = s.unicode_len();
    if n != 5 {
        proof {
            assert(s@ != seq!['m', 'd', 'o', 'w', 'n']);
        }
        return false;
    }
    let r = s.get_char(0) == 'm' && s.get_char(1) == 'd' && s.get_char(2) == 'o' && s.get_char(3)
        == 'w' && s.get_char(4) == 'n';
    proof {
        if r {
            assert(s@ =~= seq!['m', 'd', 'o', 'w', 'n']);
        }
    }
    r
}

fn str_eq_chars8(s: &str) -> (r: bool)
    ensures
        r == (s@ == seq!['m', 'a', 'r', 'k', 'd', 'o', 'w', 'n']),
{
    let n = s.unicode_len();
    if n != 8 {
        proof {
            assert(s@ != seq!['m', 'a', 'r', 'k', 'd', 'o', 'w', 'n']);
        }
        return false;
    }
    let r = s.get_char(0) == 'm' && s.get_char(1) == 'a' && s.get_char(2) == 'r' && s.get_char(3)
        == 'k' && s.get_char(4) == 'd' && s.get_char(5) == 'o' && s.get_char(6) == 'w'
        && s.get_char(7) == 'n';
    proof {
        if r {
            assert(s@ =~= seq!['m', 'a', 'r', 'k', 'd', 'o', 'w', 'n']);
        }
    }
    r
}

} // verus!
