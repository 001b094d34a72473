//! The two queries over a scanned tree: the sorted, deduplicated list of all
//! tags, and the records of the files that carry one given tag.
//!
//! A scan hands these functions one `ScannedFile` per discovered markdown
//! file: its base name, its full path, and its first line. Everything after
//! that point — extraction, aggregation, sorting, deduplication and relative
//! paths — is computed here.

use vstd::prelude::*;

use crate::order::lemma_lex_transitive;
use crate::order::lemma_lex_trichotomy;
use crate::order::lemma_strictly_sorted_unique;
use crate::order::lex_lt;
use crate::order::str_lt;
use crate::order::strictly_sorted;
use crate::tags::get_tags_from_line;
use crate::tags::tags_of_line;

verus! {

/// One discovered markdown file: base name, full path, and first line.
/// A read failure on an opened file is passed on as an empty first line,
/// which extracts to no tags.
pub struct ScannedFile {
    pub name: String,
    pub path: String,
    pub first_line: String,
}

/// The record a tag query returns: the file's base name, its path relative
/// to the scanned root, and its complete extracted tag sequence.
pub struct File {
    pub name: String,
    pub local_path: String,
    pub tags: Vec<String>,
}

/// The mathematical shape of a `File` record.
pub ghost struct FileView {
    pub name: Seq<char>,
    pub local_path: Seq<char>,
    pub tags: Seq<Seq<char>>,
}

impl View for File {
    type V = FileView;

    open spec fn view(&self) -> FileView {
        FileView { name: self.name@, local_path: self.local_path@, tags: self.tags.deep_view() }
    }
}

/// The views of a sequence of records.
pub open spec fn views_of(v: Seq<File>) -> Seq<FileView> {
    Seq::new(v.len(), |i: int| v[i]@)
}

/// The root is a prefix of the path, character for character.
pub open spec fn rooted_under(root: Seq<char>, path: Seq<char>) -> bool {
    path.len() >= root.len() && path.take(root.len() as int) == root
}

pub open spec fn strip_leading_slashes(p: Seq<char>) -> Seq<char>
    decreases p.len(),
{
    if p.len() > 0 && p[0] == '/' {
        strip_leading_slashes(p.skip(1))
    } else {
        p
    }
}

/// A path relative to the scanned root: the root prefix removed, then any
/// separators that follow it.
pub open spec fn local_path_of(root: Seq<char>, path: Seq<char>) -> Seq<char> {
    strip_leading_slashes(path.skip(root.len() as int))
}

/// The tags one scanned file declares.
pub open spec fn file_tags(marker: Seq<char>, f: ScannedFile) -> Seq<Seq<char>> {
    tags_of_line(marker, f.first_line@)
}

/// Whether one scanned file declares the given tag, by exact equality.
pub open spec fn has_tag(marker: Seq<char>, tag: Seq<char>, f: ScannedFile) -> bool {
    file_tags(marker, f).contains(tag)
}

/// The record emitted for one scanned file.
pub open spec fn record_of(root: Seq<char>, marker: Seq<char>, f: ScannedFile) -> FileView {
    FileView {
        name: f.name@,
        local_path: local_path_of(root, f.path@),
        tags: file_tags(marker, f),
    }
}

/// The records of the files that carry the tag, in scan order, each with its
/// complete tag sequence.
pub open spec fn files_with_tag_spec(
    root: Seq<char>,
    tag: Seq<char>,
    marker: Seq<char>,
    files: Seq<ScannedFile>,
) -> Seq<FileView>
    decreases files.len(),
{
    if files.len() == 0 {
        Seq::empty()
    } else {
        files_with_tag_spec(root, tag, marker, files.drop_last()) + if has_tag(
            marker,
            tag,
            files.last(),
        ) {
            seq![record_of(root, marker, files.last())]
        } else {
            Seq::empty()
        }
    }
}

/// Every extracted tag of every scanned file, concatenated in scan order.
pub open spec fn all_tags_spec(marker: Seq<char>, files: Seq<ScannedFile>) -> Seq<Seq<char>>
    decreases files.len(),
{
    if files.len() == 0 {
        Seq::empty()
    } else {
        all_tags_spec(marker, files.drop_last()) + file_tags(marker, files.last())
    }
}

proof fn lemma_push_contains<A>(s: Seq<A>, x: A, t: A)
    ensures
        s.push(x).contains(t) <==> s.contains(t) || t == x,
{
    if s.push(x).contains(t) {
        let q = choose|q: int| 0 <= q < s.push(x).len() && s.push(x)[q] == t;
        if q < s.len() {
            assert(s[q] == t);
        }
    }
    if s.contains(t) {
        let q = choose|q: int| 0 <= q < s.len() && s[q] == t;
        assert(s.push(x)[q] == t);
    }
    if t == x {
        assert(s.push(x)[s.len() as int] == t);
    }
}

fn contains_string(v: &Vec<String>, t: &String) -> (r: bool)
    ensures
        r == v.deep_view().contains(t@),
{
    let n = v.len();
    let mut i: usize = 0;
    while i < n
        invariant
            0 <= i <= n,
            n == v@.len(),
            forall|k: int| 0 <= k < i ==> v.deep_view()[k] != t@,
        decreases n - i,
    {
        if v[i] == *t {
            proof {
                assert(v.deep_view()[i as int] == t@);
            }
            return true;
        }
        i = i + 1;
    }
    proof {
        if v.deep_view().contains(t@) {
            let k = choose|k: int| 0 <= k < v.deep_view().len() && v.deep_view()[k] == t@;
            assert(v.deep_view()[k] != t@);
        }
    }
    false
}

fn local_path(root: &String, path: &String) -> (r: String)
    requires
        rooted_under(root@, path@),
    ensures
        r@ == local_path_of(root@, path@),
{
    let n = path.as_str().unicode_len();
    let rl = root.as_str().unicode_len();
    let mut i: usize = rl;
    while i < n && path.as_str().get_char(i) == '/'
        invariant
            rl <= i <= n,
            n == path@.len(),
            rl == root@.len(),
            strip_leading_slashes(path@.skip(rl as int)) == strip_leading_slashes(
                path@.skip(i as int),
            ),
        decreases n - i,
    {
        proof {
            assert(path@.skip(i as int)[0] == path@[i as int]);
            assert(path@.skip(i as int).skip(1) =~= path@.skip(i + 1));
        }
        i = i + 1;
    }
    proof {
        assert(strip_leading_slashes(path@.skip(i as int)) == path@.skip(i as int));
    }
    let s = path.as_str().substring_char(i, n);
    proof {
        assert(s@ =~= path@.skip(i as int));
    }
    s.to_owned()
}

/// Lists the files among the scanned ones whose extracted tags contain the
/// given tag, each with its name, its root-relative path, and its complete
/// tag sequence, in scan order. Every scanned path must start with the root.
pub fn get_files_with_tag(
    root_dir: &String,
    tag: &String,
    tag_char: &String,
    files: &Vec<ScannedFile>,
) -> (r: Vec<File>)
    requires
        forall|k: int| 0 <= k < files@.len() ==> rooted_under(root_dir@, (#[trigger] files@[k]).path@),
    ensures
        views_of(r@) == files_with_tag_spec(root_dir@, tag@, tag_char@, files@),
{
    let n = files.len();
    let mut out: Vec<File> = Vec::new();
    let mut idx: usize = 0;
    proof {
        assert(views_of(out@) =~= files_with_tag_spec(
            root_dir@,
            tag@,
            tag_char@,
            files@.take(0),
        ));
    }
    while idx < n
        invariant
            0 <= idx <= n,
            n == files@.len(),
            forall|k: int|
                0 <= k < files@.len() ==> rooted_under(root_dir@, (#[trigger] files@[k]).path@),
            views_of(out@) == files_with_tag_spec(
                root_dir@,
                tag@,
                tag_char@,
                files@.take(idx as int),
            ),
        decreases n - idx,
    {
        let ghost pre = files_with_tag_spec(root_dir@, tag@, tag_char@, files@.take(idx as int));
        proof {
            assert(files@.take(idx + 1).drop_last() =~= files@.take(idx as int));
            assert(files@.take(idx + 1).last() == files@[idx as int]);
        }
        let f = &files[idx];
        let tags = get_tags_from_line(tag_char, &f.first_line);
        let ghost oldout = out@;
        if contains_string(&tags, tag) {
            proof {
                assert(has_tag(tag_char@, tag@, files@[idx as int]));
            }
            let name = f.name.clone();
            let lp = local_path(root_dir, &f.path);
            let rec = File { name, local_path: lp, tags };
            proof {
                assert(rec@ == record_of(root_dir@, tag_char@, files@[idx as int]));
            }
            out.push(rec);
            proof {
                assert(views_of(out@) =~= pre + seq![
                    record_of(root_dir@, tag_char@, files@[idx as int]),
                ]);
            }
        } else {
            proof {
                assert(!has_tag(tag_char@, tag@, files@[idx as int]));
                assert(views_of(out@) =~= pre + Seq::<FileView>::empty());
            }
        }
        idx = idx + 1;
    }
    proof {
        assert(files@.take(n as int) =~= files@);
    }
    out
}

/// Lists every distinct tag found across the scanned files, sorted in strict
/// lexicographic order, so without duplicates: a tag stands in the result
/// exactly when some scanned file's first line declares it.
pub fn get_tags(files: &Vec<ScannedFile>, tag_char: &String) -> (r: Vec<String>)
    ensures
        strictly_sorted(r.deep_view()),
        forall|t: Seq<char>|
            #![trigger r.deep_view().contains(t)]
            #![trigger all_tags_spec(tag_char@, files@).contains(t)]
            r.deep_view().contains(t) <==> all_tags_spec(tag_char@, files@).contains(t),
{
    let n = files.len();
    let mut all: Vec<String> = Vec::new();
    let mut idx: usize = 0;
    proof {
        assert(all.deep_view() =~= all_tags_spec(tag_char@, files@.take(0)));
    }
    while idx < n
        invariant
            0 <= idx <= n,
            n == files@.len(),
            all.deep_view() == all_tags_spec(tag_char@, files@.take(idx as int)),
        decreases n - idx,
    {
        let ghost pre = all.deep_view();
        let ghost preall = all@;
        proof {
            assert(files@.take(idx + 1).drop_last() =~= files@.take(idx as int));
            assert(files@.take(idx + 1).last() == files@[idx as int]);
        }
        let mut tags = get_tags_from_line(tag_char, &files[idx].first_line);
        let ghost tdeep = tags.deep_view();
        let ghost tvec = tags@;
        all.append(&mut tags);
        proof {
            assert(all@ == preall + tvec);
            assert forall|k: int| 0 <= k < all@.len() implies all.deep_view()[k] == (pre + tdeep)[k] by {
                if k < preall.len() {
                    assert(all@[k] == preall[k]);
                    assert(pre[k] == preall[k]@);
                } else {
                    assert(all@[k] == tvec[k - preall.len()]);
                    assert(tdeep[k - preall.len()] == tvec[k - preall.len()]@);
                }
            }
            assert(all.deep_view() =~= pre + tdeep);
        }
        idx = idx + 1;
    }
    proof {
        assert(files@.take(n as int) =~= files@);
    }
    let mut out: Vec<String> = Vec::new();
    let mut k: usize = 0;
    while k < all.len()
        invariant
            0 <= k <= all@.len(),
            strictly_sorted(out.deep_view()),
            forall|t: Seq<char>|
                #![trigger out.deep_view().contains(t)]
                #![trigger all.deep_view().take(k as int).contains(t)]
                out.deep_view().contains(t) <==> all.deep_view().take(k as int).contains(t),
        decreases all@.len() - k,
    {
        let t = all[k].clone();
        proof {
            assert(t@ == all.deep_view()[k as int]);
            assert(all.deep_view().take(k + 1) =~= all.deep_view().take(k as int).push(t@));
            lemma_push_contains(all.deep_view().take(k as int), t@, t@);
        }
        let olen = out.len();
        let mut pos: usize = 0;
        while pos < olen && str_lt(&out[pos], &t)
            invariant
                0 <= pos <= olen,
                olen == out@.len(),
                forall|q: int| 0 <= q < pos ==> lex_lt(out.deep_view()[q], t@),
            decreases olen - pos,
        {
            proof {
                assert(out.deep_view()[pos as int] == out@[pos as int]@);
            }
            pos = pos + 1;
        }
        let mut duplicate = false;
        if pos < olen {
            if out[pos] == t {
                duplicate = true;
                proof {
                    assert(out.deep_view()[pos as int] == t@);
                    assert(out.deep_view().contains(t@));
                }
            }
        }
        let ghost olddeep = out.deep_view();
        let ghost oldvec = out@;
        if !duplicate {
            proof {
                assert forall|q: int| pos <= q < oldvec.len() implies lex_lt(
                    t@,
                    olddeep[q],
                ) by {
                    lemma_lex_trichotomy(olddeep[pos as int], t@);
                    if q > pos {
                        lemma_lex_transitive(t@, olddeep[pos as int], olddeep[q]);
                    }
                }
            }
            out.insert(pos, t);
            proof {
                assert(out@.len() == oldvec.len() + 1);
                assert(out@[pos as int]@ == t@);
                assert forall|q: int| 0 <= q < out@.len() implies out.deep_view()[q] == (if q < pos {
                    olddeep[q]
                } else if q == pos {
                    t@
                } else {
                    olddeep[q - 1]
                }) by {
                    if q < pos {
                        assert(out@[q] == oldvec[q]);
                    } else if q > pos {
                        assert(out@[q] == oldvec[q - 1]);
                    }
                }
                assert forall|i: int, j: int| 0 <= i < j < out.deep_view().len() implies lex_lt(
                    out.deep_view()[i],
                    out.deep_view()[j],
                ) by {
                    if j < pos {
                    } else if i < pos && j == pos {
                    } else if i < pos && j > pos {
                        assert(lex_lt(olddeep[i], t@));
                    } else if i == pos {
                    } else {
                    }
                }
                assert forall|tt: Seq<char>| #![trigger out.deep_view().contains(tt)]
                    out.deep_view().contains(tt) implies (olddeep.contains(tt) || tt == t@) by {
                    let q = choose|q: int|
                        0 <= q < out.deep_view().len() && out.deep_view()[q] == tt;
                    if q < pos {
                        assert(olddeep[q] == tt);
                    } else if q > pos {
                        assert(olddeep[q - 1] == tt);
                    }
                }
                assert forall|tt: Seq<char>| olddeep.contains(tt) implies out.deep_view().contains(
                    tt,
                ) by {
                    let q = choose|q: int| 0 <= q < olddeep.len() && olddeep[q] == tt;
                    if q < pos {
                        assert(out.deep_view()[q] == tt);
                    } else {
                        assert(out.deep_view()[q + 1] == tt);
                    }
                }
                assert(out.deep_view()[pos as int] == t@);
                assert(out.deep_view().contains(t@));
            }
        }
        proof {
            assert forall|tt: Seq<char>|
                #![trigger out.deep_view().contains(tt)]
                #![trigger all.deep_view().take(k + 1).contains(tt)]
                out.deep_view().contains(tt) <==> all.deep_view().take(k + 1).contains(
                    tt,
                ) by {
                lemma_push_contains(all.deep_view().take(k as int), t@, tt);
            }
        }
        k = k + 1;
    }
    proof {
        assert(all.deep_view().take(all@.len() as int) =~= all.deep_view());
    }
    out
}

/// A scan that discovered no files yields no tags: any list that meets the
/// all-tags contract for an empty scan is empty.
pub proof fn lemma_all_tags_empty_scan(marker: Seq<char>, r: Seq<Seq<char>>)
    requires
        forall|t: Seq<char>|
            #[trigger] r.contains(t) <==> all_tags_spec(marker, Seq::empty()).contains(t),
    ensures
        r == Seq::<Seq<char>>::empty(),
{
    if r.len() > 0 {
        assert(r.contains(r[0]));
        let q = choose|q: int|
            0 <= q < all_tags_spec(marker, Seq::empty()).len() && all_tags_spec(
                marker,
                Seq::empty(),
            )[q] == r[0];
        assert(false);
    }
    assert(r =~= Seq::<Seq<char>>::empty());
}

/// Re-running the all-tags query over an unchanged scan returns the same
/// list: the sorted, deduplicated output is determined by the scanned files.
pub proof fn lemma_all_tags_deterministic(
    marker: Seq<char>,
    files: Seq<ScannedFile>,
    r1: Seq<Seq<char>>,
    r2: Seq<Seq<char>>,
)
    requires
        strictly_sorted(r1),
        strictly_sorted(r2),
        forall|t: Seq<char>| #[trigger] r1.contains(t) <==> all_tags_spec(marker, files).contains(t),
        forall|t: Seq<char>| #[trigger] r2.contains(t) <==> all_tags_spec(marker, files).contains(t),
    ensures
        r1 == r2,
{
    assert forall|t: Seq<char>| #[trigger] r1.contains(t) <==> r2.contains(t) by {
        if r1.contains(t) {
            assert(all_tags_spec(marker, files).contains(t));
        }
        if r2.contains(t) {
            assert(all_tags_spec(marker, files).contains(t));
        }
    }
    lemma_strictly_sorted_unique(r1, r2);
}

/// Every file whose extracted tags contain the target tag contributes its
/// record to the tag query's result.
pub proof fn lemma_files_with_tag_complete(
    root: Seq<char>,
    tag: Seq<char>,
    marker: Seq<char>,
    files: Seq<ScannedFile>,
    i: int,
)
    requires
        0 <= i < files.len(),
        has_tag(marker, tag, files[i]),
    ensures
        files_with_tag_spec(root, tag, marker, files).contains(record_of(root, marker, files[i])),
    decreases files.len(),
{
    let prev = files_with_tag_spec(root, tag, marker, files.drop_last());
    let whole = files_with_tag_spec(root, tag, marker, files);
    if i < files.len() - 1 {
        assert(files.drop_last()[i] == files[i]);
        lemma_files_with_tag_complete(root, tag, marker, files.drop_last(), i);
        let q = choose|q: int| 0 <= q < prev.len() && prev[q] == record_of(root, marker, files[i]);
        assert(whole[q] == record_of(root, marker, files[i]));
    } else {
        assert(whole[prev.len() as int] == record_of(root, marker, files.last()));
    }
}

/// Every record the tag query returns comes from a scanned file whose
/// extracted tags contain the target tag, and carries that file's name,
/// root-relative path and complete tag sequence.
pub proof fn lemma_files_with_tag_sound(
    root: Seq<char>,
    tag: Seq<char>,
    marker: Seq<char>,
    files: Seq<ScannedFile>,
    q: int,
)
    requires
        0 <= q < files_with_tag_spec(root, tag, marker, files).len(),
    ensures
        exists|i: int|
            0 <= i < files.len() && files_with_tag_spec(root, tag, marker, files)[q] == record_of(
                root,
                marker,
                #[trigger] files[i],
            ) && has_tag(marker, tag, files[i]),
    decreases files.len(),
{
    let prev = files_with_tag_spec(root, tag, marker, files.drop_last());
    let whole = files_with_tag_spec(root, tag, marker, files);
    if q < prev.len() {
        lemma_files_with_tag_sound(root, tag, marker, files.drop_last(), q);
        let i = choose|i: int|
            0 <= i < files.drop_last().len() && prev[q] == record_of(
                root,
                marker,
                #[trigger] files.drop_last()[i],
            ) && has_tag(marker, tag, files.drop_last()[i]);
        assert(files.drop_last()[i] == files[i]);
        assert(whole[q] == prev[q]);
        assert(0 <= i < files.len() && whole[q] == record_of(root, marker, files[i]) && has_tag(
            marker,
            tag,
            files[i],
        ));
    } else {
        let i = files.len() - 1;
        assert(0 <= i < files.len() && whole[q] == record_of(root, marker, files[i]) && has_tag(
            marker,
            tag,
            files[i],
        ));
    }
}

} // verus!
