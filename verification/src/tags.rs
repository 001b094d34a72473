//! Tag extraction from a file's first line.
//!
//! A first line declares tags when it starts with a backtick, continues with
//! one or more characters from the allowed class (letters, digits, `#`,
//! space, underscore, hyphen), and closes with a backtick; anything after the
//! closing backtick is ignored. The enclosed content is split on single
//! spaces and every occurrence of the marker character is removed from each
//! token. Empty tokens are kept.

use vstd::prelude::*;

verus! {

/// The characters a tag line may hold between its backticks.
pub open spec fn is_tag_char(c: char) -> bool {
    ||| ('A' as u32) <= (c as u32) && (c as u32) <= ('Z' as u32)
    ||| ('a' as u32) <= (c as u32) && (c as u32) <= ('z' as u32)
    ||| ('0' as u32) <= (c as u32) && (c as u32) <= ('9' as u32)
    ||| c == '#'
    ||| c == ' '
    ||| c == '_'
    ||| c == '-'
}

/// Where the run of tag characters that starts at `i` ends: the first index
/// at or after `i` holding no tag character, or the line's end.
pub open spec fn tag_run_end(line: Seq<char>, i: int) -> int
    decreases line.len() - i,
{
    if i < 0 || i >= line.len() {
        i
    } else if is_tag_char(line[i]) {
        tag_run_end(line, i + 1)
    } else {
        i
    }
}

/// Whether a line has the tag-line shape: a leading backtick, one or more
/// tag characters, and a closing backtick; the rest of the line is free.
pub open spec fn line_matches(line: Seq<char>) -> bool {
    let e = tag_run_end(line, 1);
    line.len() >= 1 && line[0] == '`' && e > 1 && e < line.len() && line[e] == '`'
}

/// The content between the backticks of a matching line.
pub open spec fn tag_content(line: Seq<char>) -> Seq<char> {
    line.subrange(1, tag_run_end(line, 1))
}

/// Splits on single spaces; consecutive spaces yield empty tokens, and the
/// result always holds one more token than the content holds spaces.
pub open spec fn split_spaces(s: Seq<char>) -> Seq<Seq<char>>
    decreases s.len(),
{
    if s.len() == 0 {
        seq![Seq::<char>::empty()]
    } else if s[0] == ' ' {
        seq![Seq::<char>::empty()] + split_spaces(s.skip(1))
    } else {
        let rest = split_spaces(s.skip(1));
        seq![seq![s[0]] + rest[0]] + rest.skip(1)
    }
}

/// A token with every occurrence of a marker character removed.
pub open spec fn strip_marker(t: Seq<char>, marker: Seq<char>) -> Seq<char> {
    t.filter(|c: char| !marker.contains(c))
}

/// Every token of a sequence stripped of the marker.
pub open spec fn strip_all(marker: Seq<char>, ts: Seq<Seq<char>>) -> Seq<Seq<char>> {
    Seq::new(ts.len(), |i: int| strip_marker(ts[i], marker))
}

/// What extraction returns for a first line: the split tokens of a matching
/// line, each stripped of the marker, and nothing for any other line.
pub open spec fn tags_of_line(marker: Seq<char>, line: Seq<char>) -> Seq<Seq<char>> {
    if line_matches(line) {
        strip_all(marker, split_spaces(tag_content(line)))
    } else {
        Seq::empty()
    }
}

proof fn lemma_split_spaces_len(s: Seq<char>)
    ensures
        split_spaces(s).len() >= 1,
    decreases s.len(),
{
    if s.len() > 0 {
        lemma_split_spaces_len(s.skip(1));
    }
}

proof fn lemma_strip_empty(marker: Seq<char>)
    ensures
        strip_marker(Seq::<char>::empty(), marker) == Seq::<char>::empty(),
{
    reveal(Seq::filter);
}

proof fn lemma_strip_push(t: Seq<char>, marker: Seq<char>, c: char)
    ensures
        strip_marker(t.push(c), marker) == if marker.contains(c) {
            strip_marker(t, marker)
        } else {
            strip_marker(t, marker).push(c)
        },
{
    reveal(Seq::filter);
    assert(t.push(c).drop_last() =~= t);
    assert(t.push(c).last() == c);
}

fn tag_char_exec(c: char) -> (r: bool)
    ensures
        r == is_tag_char(c),
{
    (('A' as u32) <= (c as u32) && (c as u32) <= ('Z' as u32)) || (('a' as u32) <= (c as u32) && (c
        as u32) <= ('z' as u32)) || (('0' as u32) <= (c as u32) && (c as u32) <= ('9' as u32)) || c
        == '#' || c == ' ' || c == '_' || c == '-'
}

fn contains_char(s: &String, c: char) -> (r: bool)
    ensures
        r == s@.contains(c),
{
    let n = s.as_str().unicode_len();
    let mut i: usize = 0;
    while i < n
        invariant
            0 <= i <= n,
            n == s@.len(),
            forall|k: int| 0 <= k < i ==> s@[k] != c,
        decreases n - i,
    {
        if s.as_str().get_char(i) == c {
            return true;
        }
        i = i + 1;
    }
    false
}

/// Extracts the tags a first line declares: the tokens of the tag line, each
/// with every occurrence of the marker character removed, in line order and
/// without deduplication; an empty sequence when the line does not match.
pub fn get_tags_from_line(tag_char: &String, line: &String) -> (r: Vec<String>)
    ensures
        r.deep_view() == tags_of_line(tag_char@, line@),
{
    let n = line.as_str().unicode_len();
    if n == 0 || line.as_str().get_char(0) != '`' {
        let r: Vec<String> = Vec::new();
        proof {
            assert(!line_matches(line@));
            assert(r.deep_view() =~= tags_of_line(tag_char@, line@));
        }
        return r;
    }
    let mut i: usize = 1;
    while i < n && tag_char_exec(line.as_str().get_char(i))
        invariant
            1 <= i <= n,
            n == line@.len(),
            line@[0] == '`',
            tag_run_end(line@, 1) == tag_run_end(line@, i as int),
        decreases n - i,
    {
        proof {
            assert(tag_run_end(line@, i as int) == tag_run_end(line@, i + 1));
        }
        i = i + 1;
    }
    proof {
        assert(tag_run_end(line@, i as int) == i);
    }
    if i == 1 || i >= n || line.as_str().get_char(i) != '`' {
        let r: Vec<String> = Vec::new();
        proof {
            assert(!line_matches(line@));
            assert(r.deep_view() =~= tags_of_line(tag_char@, line@));
        }
        return r;
    }
    let content = line.as_str().substring_char(1, i);
    proof {
        assert(line_matches(line@));
        assert(content@ == tag_content(line@));
    }
    let m = content.unicode_len();
    let mut result: Vec<String> = Vec::new();
    let mut cur = String::new();
    let ghost mut done: Seq<Seq<char>> = Seq::empty();
    let ghost mut curraw: Seq<char> = Seq::empty();
    let mut j: usize = 0;
    proof {
        lemma_split_spaces_len(content@);
        lemma_strip_empty(tag_char@);
        assert(content@.skip(0) =~= content@);
        let start = split_spaces(content@.skip(0));
        assert(curraw + start[0] =~= start[0]);
        assert(done + seq![start[0]] + start.skip(1) =~= start);
        assert(result.deep_view() =~= strip_all(tag_char@, done));
    }
    while j < m
        invariant
            0 <= j <= m,
            m == content@.len(),
            cur@ == strip_marker(curraw, tag_char@),
            result.deep_view() == strip_all(tag_char@, done),
            split_spaces(content@) == done + seq![curraw + split_spaces(content@.skip(j as int))[0]]
                + split_spaces(content@.skip(j as int)).skip(1),
        decreases m - j,
    {
        let ghost pre = split_spaces(content@.skip(j as int));
        let ghost post = split_spaces(content@.skip(j + 1));
        proof {
            assert(content@.skip(j as int).skip(1) =~= content@.skip(j + 1));
            assert(content@.skip(j as int)[0] == content@[j as int]);
            lemma_split_spaces_len(content@.skip(j as int));
            lemma_split_spaces_len(content@.skip(j + 1));
        }
        let c = content.get_char(j);
        if c == ' ' {
            proof {
                assert(pre == seq![Seq::<char>::empty()] + post);
                assert(pre[0] == Seq::<char>::empty());
                assert(pre.skip(1) =~= post);
                assert(curraw + pre[0] =~= curraw);
            }
            let ghost olddone = done;
            let ghost oldraw = curraw;
            let ghost olddeep = result.deep_view();
            let ghost oldvec = result@;
            let ghost oldcur = cur@;
            result.push(cur);
            cur = String::new();
            proof {
                done = olddone.push(oldraw);
                curraw = Seq::empty();
                lemma_strip_empty(tag_char@);
                assert(strip_all(tag_char@, olddone).len() == olddone.len());
                assert(olddeep.len() == oldvec.len());
                assert(oldvec.len() == olddone.len());
                assert(result@.len() == oldvec.len() + 1);
                assert(result@.last()@ == oldcur);
                assert forall|k: int| 0 <= k < done.len() implies result.deep_view()[k]
                    == strip_marker(done[k], tag_char@) by {
                    if k < olddone.len() {
                        assert(result@[k] == oldvec[k]);
                        assert(olddeep[k] == strip_marker(olddone[k], tag_char@));
                    } else {
                        assert(result@[k] == result@.last());
                        assert(done[k] == oldraw);
                    }
                }
                assert(result.deep_view() =~= strip_all(tag_char@, done));
                assert(curraw + post[0] =~= post[0]);
                assert(done + seq![post[0]] + post.skip(1) =~= olddone + seq![oldraw] + post);
                assert(olddone + seq![oldraw + pre[0]] + pre.skip(1) == olddone + seq![oldraw]
                    + post);
            }
        } else {
            let piece = content.substring_char(j, j + 1);
            proof {
                assert(piece@ =~= seq![content@[j as int]]);
                assert(pre == seq![seq![content@[j as int]] + post[0]] + post.skip(1));
            }
            let keep = !contains_char(tag_char, c);
            if keep {
                cur.append(piece);
            }
            proof {
                lemma_strip_push(curraw, tag_char@, c);
                let oldraw = curraw;
                curraw = curraw.push(c);
                if keep {
                    assert(cur@ =~= strip_marker(oldraw, tag_char@).push(c));
                }
                assert(pre.skip(1) =~= post.skip(1));
                assert(curraw + post[0] =~= oldraw + pre[0]);
                assert(done + seq![curraw + post[0]] + post.skip(1) == done + seq![oldraw + pre[0]]
                    + pre.skip(1));
            }
        }
        j = j + 1;
    }
    proof {
        assert(content@.skip(m as int) =~= Seq::<char>::empty());
    }
    let ghost olddone = done;
    let ghost oldraw = curraw;
    let ghost olddeep = result.deep_view();
    let ghost oldvec = result@;
    let ghost oldcur = cur@;
    result.push(cur);
    proof {
        done = olddone.push(oldraw);
        assert(strip_all(tag_char@, olddone).len() == olddone.len());
        assert(olddeep.len() == oldvec.len());
        assert(oldvec.len() == olddone.len());
        assert(result@.len() == oldvec.len() + 1);
        assert(result@.last()@ == oldcur);
        assert forall|k: int| 0 <= k < done.len() implies result.deep_view()[k] == strip_marker(
            done[k],
            tag_char@,
        ) by {
            if k < olddone.len() {
                assert(result@[k] == oldvec[k]);
                assert(olddeep[k] == strip_marker(olddone[k], tag_char@));
            } else {
                assert(result@[k] == result@.last());
                assert(done[k] == oldraw);
            }
        }
        assert(result.deep_view() =~= strip_all(tag_char@, done));
        let fin = split_spaces(content@.skip(m as int));
        assert(fin == seq![Seq::<char>::empty()]);
        assert(oldraw + fin[0] =~= oldraw);
        assert(fin.skip(1) =~= Seq::<Seq<char>>::empty());
        assert(olddone + seq![oldraw + fin[0]] + fin.skip(1) =~= done);
        assert(result.deep_view() == tags_of_line(tag_char@, line@));
    }
    result
}

} // verus!
