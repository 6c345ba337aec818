use vstd::prelude::*;
use vstd::string::StrSliceExecFns;
use vstd::string::StringExecFns;
use vstd::seq_lib::{lemma_multiset_commutative, to_multiset_build, to_multiset_insert};
use vstd::multiset::Multiset;

use crate::pipeline::ErrorKind;
use crate::text::{lemma_lex_lt_irrefl, lemma_lex_lt_trans, lex_lt, str_cmp, Cmp};

verus! {

/// One eligible source document: its path relative to the scan root (with `/`
/// as the separator), the title derived from its file name, and its raw text.
pub struct SourceDocument {
    pub rel_path: String,
    pub title: String,
    pub content: String,
}

/// The documents sharing one parent directory, labeled by a breadcrumb key.
/// The root directory's group carries the reserved label `"Root"`.
pub struct DirectoryGroup {
    pub key: String,
    pub documents: Vec<SourceDocument>,
}

/// The part of `s` after the last occurrence of `c`, or all of `s` if `c`
/// does not occur.
pub open spec fn after_last(s: Seq<char>, c: char) -> Seq<char>
    decreases s.len(),
{
    if s.len() == 0 {
        s
    } else if s.last() == c {
        Seq::empty()
    } else {
        after_last(s.drop_last(), c).push(s.last())
    }
}

/// The parent-directory part of a relative path: everything before the last
/// separator, or empty for a path naming a file directly under the root.
pub open spec fn parent_of(p: Seq<char>) -> Seq<char>
    decreases p.len(),
{
    if p.len() == 0 {
        p
    } else if p.last() == '/' {
        p.drop_last()
    } else {
        parent_of(p.drop_last())
    }
}

/// The file-name part of a relative path.
pub open spec fn file_name_of(p: Seq<char>) -> Seq<char> {
    after_last(p, '/')
}

/// The stem of a file name: the part before the last `.`, except that a name
/// without any `.`, or whose only `.` is its first character, is its own stem.
pub open spec fn stem_of(name: Seq<char>) -> Seq<char> {
    let ext = after_last(name, '.');
    if ext.len() >= name.len() {
        name
    } else if name.len() - ext.len() - 1 == 0 {
        name
    } else {
        name.take(name.len() - ext.len() - 1)
    }
}

/// Whether a path names an eligible document: its file name carries the
/// document extension, by case-sensitive exact match.
pub open spec fn has_md_ext(p: Seq<char>) -> bool {
    let name = file_name_of(p);
    let ext = after_last(name, '.');
    ext.len() < name.len() && name.len() - ext.len() - 1 > 0 && ext == "md"@
}

/// The derived title of a document: its file-name stem, or the fixed fallback
/// for an empty stem.
pub open spec fn title_of(p: Seq<char>) -> Seq<char> {
    let s = stem_of(file_name_of(p));
    if s.len() == 0 {
        "Untitled"@
    } else {
        s
    }
}

/// A breadcrumb label: the directory path with each separator replaced by
/// `" > "`.
pub open spec fn breadcrumb(s: Seq<char>) -> Seq<char>
    decreases s.len(),
{
    if s.len() == 0 {
        s
    } else if s.first() == '/' {
        " > "@ + breadcrumb(s.drop_first())
    } else {
        seq![s.first()] + breadcrumb(s.drop_first())
    }
}

/// The group key of a document: the breadcrumb of its parent directory, or
/// the reserved root label for documents directly under the root.
pub open spec fn group_key_of(p: Seq<char>) -> Seq<char> {
    let par = parent_of(p);
    if par.len() == 0 {
        "Root"@
    } else {
        breadcrumb(par)
    }
}

proof fn lemma_after_last_at(s: Seq<char>, c: char, i: int)
    requires
        0 <= i < s.len(),
        s[i] == c,
        forall|j: int| i < j < s.len() ==> s[j] != c,
    ensures
        after_last(s, c) == s.skip(i + 1),
    decreases s.len(),
{
    if i == s.len() - 1 {
        assert(s.last() == c);
        assert(s.skip(i + 1) =~= Seq::<char>::empty());
    } else {
        assert(s.last() == s[s.len() - 1]);
        assert(s.last() != c);
        let d = s.drop_last();
        assert forall|j: int| i < j < d.len() implies d[j] != c by {
            assert(d[j] == s[j]);
        }
        assert(d[i] == c);
        lemma_after_last_at(d, c, i);
        assert(after_last(s, c) == d.skip(i + 1).push(s.last()));
        assert(d.skip(i + 1).push(s.last()) =~= s.skip(i + 1));
    }
}

proof fn lemma_after_last_none(s: Seq<char>, c: char)
    requires
        forall|j: int| 0 <= j < s.len() ==> s[j] != c,
    ensures
        after_last(s, c) == s,
    decreases s.len(),
{
    if s.len() > 0 {
        assert(s.last() == s[s.len() - 1]);
        assert(s.last() != c);
        let d = s.drop_last();
        assert forall|j: int| 0 <= j < d.len() implies d[j] != c by {
            assert(d[j] == s[j]);
        }
        lemma_after_last_none(d, c);
        assert(d.push(s.last()) =~= s);
    }
}

proof fn lemma_parent_at(p: Seq<char>, i: int)
    requires
        0 <= i < p.len(),
        p[i] == '/',
        forall|j: int| i < j < p.len() ==> p[j] != '/',
    ensures
        parent_of(p) == p.take(i),
    decreases p.len(),
{
    if i == p.len() - 1 {
        assert(p.last() == '/');
        assert(p.drop_last() =~= p.take(i));
    } else {
        assert(p.last() == p[p.len() - 1]);
        assert(p.last() != '/');
        let d = p.drop_last();
        assert forall|j: int| i < j < d.len() implies d[j] != '/' by {
            assert(d[j] == p[j]);
        }
        assert(d[i] == '/');
        lemma_parent_at(d, i);
        assert(d.take(i) =~= p.take(i));
    }
}

proof fn lemma_parent_none(p: Seq<char>)
    requires
        forall|j: int| 0 <= j < p.len() ==> p[j] != '/',
    ensures
        parent_of(p) == Seq::<char>::empty(),
    decreases p.len(),
{
    if p.len() == 0 {
        assert(p =~= Seq::<char>::empty());
    } else {
        assert(p.last() == p[p.len() - 1]);
        assert(p.last() != '/');
        let d = p.drop_last();
        assert forall|j: int| 0 <= j < d.len() implies d[j] != '/' by {
            assert(d[j] == p[j]);
        }
        lemma_parent_none(d);
    }
}

/// Index of the last occurrence of `c` within `s[lo..hi]`, if any.
fn rfind_in(s: &str, lo: usize, hi: usize, c: char) -> (r: Option<usize>)
    requires
        lo <= hi <= s@.len(),
    ensures
        match r {
            Some(i) => lo <= i < hi && s@[i as int] == c && forall|j: int|
                i < j < hi ==> s@[j] != c,
            None => forall|j: int| lo <= j < hi ==> s@[j] != c,
        },
{
    let mut i: usize = hi;
    while i > lo
        invariant
            lo <= i <= hi <= s@.len(),
            forall|j: int| i <= j < hi ==> s@[j] != c,
        decreases i,
    {
        if s.get_char(i - 1) == c {
            return Some(i - 1);
        }
        i = i - 1;
    }
    None
}

/// Derives a document title from its relative path: the file-name stem, with
/// the fixed fallback for an empty stem.
pub fn derive_title(rel_path: &str) -> (r: String)
    ensures
        r@ == title_of(rel_path@),
{
    let ghost p = rel_path@;
    let n = rel_path.unicode_len();
    let ns: usize = match rfind_in(rel_path, 0, n, '/') {
        Some(i) => i + 1,
        None => 0,
    };
    proof {
        if ns > 0 {
            lemma_after_last_at(p, '/', ns - 1);
        } else {
            lemma_after_last_none(p, '/');
            assert(p.skip(0) =~= p);
        }
        assert(file_name_of(p) == p.skip(ns as int));
    }
    let ghost name = file_name_of(p);
    let dot = rfind_in(rel_path, ns, n, '.');
    let (a, b): (usize, usize) = match dot {
        Some(d) => {
            proof {
                assert forall|j: int| (d - ns) < j < name.len() implies name[j] != '.' by {
                    assert(name[j] == p[ns + j]);
                }
                assert(name[(d - ns) as int] == p[d as int]);
                lemma_after_last_at(name, '.', d - ns);
                assert(after_last(name, '.') == name.skip(d - ns + 1));
                assert(after_last(name, '.').len() == n - d - 1);
                assert(name.len() == n - ns);
            }
            if d == ns {
                // the only dot starts the name: the name is its own stem
                proof {
                    assert(stem_of(name) == name);
                }
                (ns, n)
            } else {
                proof {
                    assert(stem_of(name) == name.take(d - ns));
                    assert(name.take(d - ns) =~= p.subrange(ns as int, d as int));
                }
                (ns, d)
            }
        },
        None => {
            proof {
                assert forall|j: int| 0 <= j < name.len() implies name[j] != '.' by {
                    assert(name[j] == p[ns + j]);
                }
                lemma_after_last_none(name, '.');
                assert(stem_of(name) == name);
            }
            (ns, n)
        },
    };
    proof {
        assert(name =~= p.subrange(ns as int, n as int));
        assert(stem_of(name) == p.subrange(a as int, b as int));
    }
    if b > a {
        let t = rel_path.substring_char(a, b);
        String::from_str(t)
    } else {
        proof {
            assert(stem_of(name).len() == 0);
        }
        String::from_str("Untitled")
    }
}

/// Whether a relative path names an eligible document.
pub fn has_markdown_extension(rel_path: &str) -> (r: bool)
    ensures
        r == has_md_ext(rel_path@),
{
    let ghost p = rel_path@;
    let n = rel_path.unicode_len();
    let ns: usize = match rfind_in(rel_path, 0, n, '/') {
        Some(i) => i + 1,
        None => 0,
    };
    proof {
        if ns > 0 {
            lemma_after_last_at(p, '/', ns - 1);
        } else {
            lemma_after_last_none(p, '/');
            assert(p.skip(0) =~= p);
        }
        assert(file_name_of(p) == p.skip(ns as int));
    }
    let ghost name = file_name_of(p);
    let dot = rfind_in(rel_path, ns, n, '.');
    match dot {
        Some(d) => {
            proof {
                assert forall|j: int| (d - ns) < j < name.len() implies name[j] != '.' by {
                    assert(name[j] == p[ns + j]);
                }
                assert(name[(d - ns) as int] == p[d as int]);
                lemma_after_last_at(name, '.', d - ns);
                assert(after_last(name, '.') =~= p.subrange(d + 1, n as int));
            }
            if d > ns && n - d - 1 == 2 {
                let c1 = rel_path.get_char(d + 1);
                let c2 = rel_path.get_char(d + 2);
                let r = c1 == 'm' && c2 == 'd';
                proof {
                    reveal_strlit("md");
                    assert("md"@.len() == 2);
                    let ext = after_last(name, '.');
                    assert(ext.len() == 2);
                    assert(ext[0] == p[d + 1] && ext[1] == p[d + 2]);
                    if c1 == 'm' && c2 == 'd' {
                        assert(ext =~= "md"@);
                    } else {
                        assert(ext != "md"@);
                    }
                }
                r
            } else {
                proof {
                    reveal_strlit("md");
                    let ext = after_last(name, '.');
                    if d == ns {
                        assert(!has_md_ext(p));
                    } else {
                        assert(ext.len() != 2);
                        assert(ext != "md"@);
                    }
                }
                false
            }
        },
        None => {
            proof {
                assert forall|j: int| 0 <= j < name.len() implies name[j] != '.' by {
                    assert(name[j] == p[ns + j]);
                }
                lemma_after_last_none(name, '.');
            }
            false
        },
    }
}

/// Derives a document's group key from its relative path.
pub fn derive_group_key(rel_path: &str) -> (r: String)
    ensures
        r@ == group_key_of(rel_path@),
{
    let ghost p = rel_path@;
    let n = rel_path.unicode_len();
    let sep = rfind_in(rel_path, 0, n, '/');
    match sep {
        None => {
            proof {
                lemma_parent_none(p);
            }
            String::from_str("Root")
        },
        Some(i) => {
            proof {
                lemma_parent_at(p, i as int);
            }
            if i == 0 {
                proof {
                    assert(parent_of(p) =~= p.take(0));
                    assert(parent_of(p).len() == 0);
                }
                String::from_str("Root")
            } else {
                let ghost par = parent_of(p);
                proof {
                    assert(par.len() == i);
                    assert(par.skip(0) =~= par);
                }
                let mut out = String::new();
                let mut j: usize = 0;
                while j < i
                    invariant
                        j <= i <= n,
                        n == p.len(),
                        p == rel_path@,
                        par == parent_of(p),
                        par == p.take(i as int),
                        par.len() == i,
                        breadcrumb(par) == out@ + breadcrumb(par.skip(j as int)),
                    decreases i - j,
                {
                    let c = rel_path.get_char(j);
                    let ghost out0 = out@;
                    proof {
                        assert(par.skip(j as int).len() > 0);
                        assert(par.skip(j as int).first() == par[j as int]);
                        assert(par[j as int] == p[j as int]);
                        assert(par.skip(j as int).drop_first() =~= par.skip(j as int + 1));
                    }
                    if c == '/' {
                        out.append(" > ");
                        proof {
                            assert(breadcrumb(par.skip(j as int)) == " > "@ + breadcrumb(
                                par.skip(j as int + 1),
                            ));
                            assert(out0 + (" > "@ + breadcrumb(par.skip(j as int + 1))) =~= out@
                                + breadcrumb(par.skip(j as int + 1)));
                        }
                    } else {
                        let piece = rel_path.substring_char(j, j + 1);
                        proof {
                            assert(piece@ =~= seq![p[j as int]]);
                        }
                        out.append(piece);
                        proof {
                            assert(breadcrumb(par.skip(j as int)) == seq![par[j as int]]
                                + breadcrumb(par.skip(j as int + 1)));
                            assert(out0 + (seq![par[j as int]] + breadcrumb(
                                par.skip(j as int + 1),
                            )) =~= out@ + breadcrumb(par.skip(j as int + 1)));
                        }
                    }
                    j = j + 1;
                }
                proof {
                    assert(par.skip(i as int).len() == 0);
                    assert(breadcrumb(par.skip(i as int)) =~= Seq::<char>::empty());
                    assert(out@ + breadcrumb(par.skip(i as int)) =~= out@);
                    assert(group_key_of(p) == breadcrumb(par));
                }
                out
            }
        },
    }
}

/// Builds a document with its title derived from the relative path.
pub fn make_document(rel_path: String, content: String) -> (d: SourceDocument)
    ensures
        d.rel_path@ == rel_path@,
        d.content@ == content@,
        d.title@ == title_of(rel_path@),
{
    let title = derive_title(rel_path.as_str());
    SourceDocument { rel_path, title, content }
}

/// The abstract content of a document: path, title and text.
pub open spec fn doc_view(d: SourceDocument) -> (Seq<char>, Seq<char>, Seq<char>) {
    (d.rel_path@, d.title@, d.content@)
}

pub open spec fn docs_views(ds: Seq<SourceDocument>) -> Seq<(Seq<char>, Seq<char>, Seq<char>)> {
    ds.map_values(|d: SourceDocument| doc_view(d))
}

pub open spec fn group_views(g: DirectoryGroup) -> Seq<(Seq<char>, Seq<char>, Seq<char>)> {
    docs_views(g.documents@)
}

/// All documents held by a sequence of groups, in traversal order.
pub open spec fn all_views(gs: Seq<DirectoryGroup>) -> Seq<(Seq<char>, Seq<char>, Seq<char>)>
    decreases gs.len(),
{
    if gs.len() == 0 {
        Seq::empty()
    } else {
        group_views(gs.first()) + all_views(gs.drop_first())
    }
}

/// Well-formed grouping: group keys strictly ascending, every group
/// non-empty, every document standing in the group its own key names, and
/// each group's documents sorted by title ascending.
pub open spec fn groups_wf(gs: Seq<DirectoryGroup>) -> bool {
    &&& forall|i: int, j: int| 0 <= i < j < gs.len() ==> lex_lt(gs[i].key@, gs[j].key@)
    &&& forall|i: int| 0 <= i < gs.len() ==> gs[i].documents@.len() > 0
    &&& forall|i: int, j: int|
        0 <= i < gs.len() && 0 <= j < gs[i].documents@.len() ==> group_key_of(
            gs[i].documents@[j].rel_path@,
        ) == gs[i].key@
    &&& forall|i: int, j: int, k: int|
        0 <= i < gs.len() && 0 <= j < k < gs[i].documents@.len() ==> !lex_lt(
            gs[i].documents@[k].title@,
            gs[i].documents@[j].title@,
        )
}

proof fn lemma_all_views_concat(x: Seq<DirectoryGroup>, y: Seq<DirectoryGroup>)
    ensures
        all_views(x + y) == all_views(x) + all_views(y),
    decreases x.len(),
{
    if x.len() == 0 {
        assert(x + y =~= y);
        assert(all_views(x) =~= Seq::<(Seq<char>, Seq<char>, Seq<char>)>::empty());
        assert(all_views(x) + all_views(y) =~= all_views(y));
    } else {
        assert((x + y).len() > 0);
        assert((x + y).first() == x.first());
        assert((x + y).drop_first() =~= x.drop_first() + y);
        lemma_all_views_concat(x.drop_first(), y);
        assert(all_views(x + y) == group_views(x.first()) + (all_views(x.drop_first())
            + all_views(y)));
        assert(group_views(x.first()) + (all_views(x.drop_first()) + all_views(y)) =~= (group_views(
            x.first(),
        ) + all_views(x.drop_first())) + all_views(y));
    }
}

proof fn lemma_all_views_singleton(g: DirectoryGroup)
    ensures
        all_views(seq![g]) == group_views(g),
{
    assert(seq![g].drop_first() =~= Seq::<DirectoryGroup>::empty());
    assert(all_views(seq![g].drop_first()) =~= Seq::<(Seq<char>, Seq<char>, Seq<char>)>::empty());
    assert(group_views(g) + all_views(seq![g].drop_first()) =~= group_views(g));
}

/// Finds where `key` stands in the key-sorted group sequence: the index of
/// the group with that key, or the place where a new group must be inserted.
fn find_group_slot(groups: &Vec<DirectoryGroup>, key: &str) -> (r: (usize, bool))
    requires
        forall|i: int, j: int|
            0 <= i < j < groups@.len() ==> lex_lt(groups@[i].key@, groups@[j].key@),
    ensures
        r.0 <= groups@.len(),
        forall|x: int| 0 <= x < r.0 ==> lex_lt(groups@[x].key@, key@),
        r.1 ==> r.0 < groups@.len() && groups@[r.0 as int].key@ == key@,
        !r.1 ==> r.0 == groups@.len() || lex_lt(key@, groups@[r.0 as int].key@),
{
    let mut gi: usize = 0;
    while gi < groups.len()
        invariant
            gi <= groups@.len(),
            forall|x: int| 0 <= x < gi ==> lex_lt(groups@[x].key@, key@),
        decreases groups@.len() - gi,
    {
        let c = str_cmp(groups[gi].key.as_str(), key);
        match c {
            Cmp::Lt => {
                gi = gi + 1;
            },
            Cmp::Eq => {
                return (gi, true);
            },
            Cmp::Gt => {
                return (gi, false);
            },
        }
    }
    (gi, false)
}

/// Finds the title-sorted insertion point for a document within a group.
fn find_doc_slot(ds: &Vec<SourceDocument>, title: &str) -> (r: usize)
    ensures
        r <= ds@.len(),
        forall|x: int| 0 <= x < r ==> !lex_lt(title@, ds@[x].title@),
        r < ds@.len() ==> lex_lt(title@, ds@[r as int].title@),
{
    let mut di: usize = 0;
    while di < ds.len()
        invariant
            di <= ds@.len(),
            forall|x: int| 0 <= x < di ==> !lex_lt(title@, ds@[x].title@),
        decreases ds@.len() - di,
    {
        let c = str_cmp(title, ds[di].title.as_str());
        match c {
            Cmp::Lt => {
                return di;
            },
            _ => {
                di = di + 1;
            },
        }
    }
    di
}

/// Groups documents by their derived keys: groups come out key-ascending,
/// documents within a group title-ascending, and the grouping holds exactly
/// the documents handed in. An empty input is the one failure.
#[verifier::rlimit(100)]
pub fn group_documents(docs: Vec<SourceDocument>) -> (r: Result<Vec<DirectoryGroup>, ErrorKind>)
    ensures
        match r {
            Ok(groups) => docs@.len() > 0 && groups_wf(groups@) && all_views(
                groups@,
            ).to_multiset() == docs_views(docs@).to_multiset(),
            Err(e) => docs@.len() == 0 && e == ErrorKind::EmptyInput,
        },
{
    broadcast use vstd::multiset::group_multiset_axioms;

    if docs.len() == 0 {
        return Err(ErrorKind::EmptyInput);
    }
    let ghost orig = docs@;
    let mut rem = docs;
    let mut groups: Vec<DirectoryGroup> = Vec::new();
    let ghost mut k: int = 0;
    proof {
        assert(rem@ =~= orig.skip(0));
        assert(all_views(groups@) =~= Seq::<(Seq<char>, Seq<char>, Seq<char>)>::empty());
        assert(docs_views(orig.take(0)) =~= Seq::<(Seq<char>, Seq<char>, Seq<char>)>::empty());
        assert(all_views(groups@).to_multiset() =~= docs_views(orig.take(0)).to_multiset());
    }
    while rem.len() > 0
        invariant
            0 <= k <= orig.len(),
            rem@ == orig.skip(k),
            groups_wf(groups@),
            all_views(groups@).to_multiset() == docs_views(orig.take(k)).to_multiset(),
        decreases rem@.len(),
    {
        let ghost gs0 = groups@;
        let d = rem.remove(0);
        proof {
            assert(orig.skip(k).len() > 0);
            assert(d == orig.skip(k)[0]);
            assert(orig.skip(k)[0] == orig[k]);
            assert(rem@ =~= orig.skip(k + 1));
        }
        let ghost dv = doc_view(d);
        let key = derive_group_key(d.rel_path.as_str());
        let (gi, key_found) = find_group_slot(&groups, key.as_str());
        if key_found {
            let mut g = groups.remove(gi);
            let ghost ds0 = g.documents@;
            let di = find_doc_slot(&g.documents, d.title.as_str());
            g.documents.insert(di, d);
            let ghost g2 = g;
            groups.insert(gi, g);
            proof {
                assert(g2.documents@ == ds0.insert(di as int, orig[k]));
                assert(g2.key == gs0[gi as int].key);
                // the new grouping is the old one with one group replaced
                assert(groups@ =~= gs0.update(gi as int, g2));
                lemma_group_update_ok(gs0, gi as int, g2, ds0, di as int, orig[k], key@);
            }
        } else {
            let mut ds: Vec<SourceDocument> = Vec::new();
            ds.push(d);
            let g = DirectoryGroup { key, documents: ds };
            let ghost g2 = g;
            groups.insert(gi, g);
            proof {
                assert(g2.documents@ =~= seq![orig[k]]);
                assert(groups@ =~= gs0.insert(gi as int, g2));
                lemma_group_insert_ok(gs0, gi as int, g2, orig[k]);
            }
        }
        proof {
            assert(orig.take(k + 1) =~= orig.take(k).push(orig[k]));
            assert(docs_views(orig.take(k + 1)) =~= docs_views(orig.take(k)).push(dv));
            to_multiset_build(docs_views(orig.take(k)), dv);
            k = k + 1;
        }
    }
    proof {
        assert(orig.skip(k).len() == 0);
        assert(k == orig.len());
        assert(orig.take(k) =~= orig);
    }
    Ok(groups)
}

/// Replacing one group by the same group with one more document, inserted at
/// its title-sorted place, keeps the grouping well formed and adds exactly
/// that document.
proof fn lemma_group_update_ok(
    gs: Seq<DirectoryGroup>,
    gi: int,
    g2: DirectoryGroup,
    ds0: Seq<SourceDocument>,
    di: int,
    d: SourceDocument,
    key: Seq<char>,
)
    requires
        groups_wf(gs),
        0 <= gi < gs.len(),
        0 <= di <= ds0.len(),
        gs[gi].documents@ == ds0,
        g2.key@ == gs[gi].key@,
        g2.documents@ == ds0.insert(di, d),
        key == group_key_of(d.rel_path@),
        key == gs[gi].key@,
        forall|x: int| 0 <= x < di ==> !lex_lt(d.title@, ds0[x].title@),
        di < ds0.len() ==> lex_lt(d.title@, ds0[di].title@),
    ensures
        groups_wf(gs.update(gi, g2)),
        all_views(gs.update(gi, g2)).to_multiset() == all_views(gs).to_multiset().insert(
            doc_view(d),
        ),
{
    broadcast use vstd::multiset::group_multiset_axioms;

    let gs2 = gs.update(gi, g2);
    let ds2 = g2.documents@;
    // well-formedness
    assert(forall|i: int| 0 <= i < gs2.len() && i != gi ==> gs2[i] == gs[i]);
    assert forall|i: int, j: int| 0 <= i < j < gs2.len() implies lex_lt(
        gs2[i].key@,
        gs2[j].key@,
    ) by {
        assert(gs2[i].key@ == gs[i].key@ && gs2[j].key@ == gs[j].key@);
    }
    assert forall|i: int, j: int|
        0 <= i < gs2.len() && 0 <= j < gs2[i].documents@.len() implies group_key_of(
        gs2[i].documents@[j].rel_path@,
    ) == gs2[i].key@ by {
        if i == gi {
            if j < di {
                assert(ds2[j] == ds0[j]);
            } else if j == di {
                assert(ds2[j] == d);
            } else {
                assert(ds2[j] == ds0[j - 1]);
            }
        }
    }
    assert forall|i: int, j: int, k: int|
        0 <= i < gs2.len() && 0 <= j < k < gs2[i].documents@.len() implies !lex_lt(
        gs2[i].documents@[k].title@,
        gs2[i].documents@[j].title@,
    ) by {
        if i == gi {
            if k < di {
                assert(ds2[j] == ds0[j] && ds2[k] == ds0[k]);
            } else if k == di {
                assert(ds2[k] == d && ds2[j] == ds0[j]);
                assert(!lex_lt(d.title@, ds0[j].title@));
            } else {
                assert(ds2[k] == ds0[k - 1]);
                if j < di {
                    assert(ds2[j] == ds0[j]);
                    if di < ds0.len() {
                        if lex_lt(ds0[k - 1].title@, ds0[j].title@) {
                            assert(di <= k - 1);
                            assert(!lex_lt(ds0[k - 1].title@, ds0[di].title@) || di == k - 1);
                        }
                        assert(!lex_lt(ds0[k - 1].title@, ds0[j].title@));
                    }
                } else if j == di {
                    assert(ds2[j] == d);
                    // d.title < ds0[di].title <= ds0[k-1].title
                    if lex_lt(ds0[k - 1].title@, d.title@) {
                        lemma_lex_lt_trans(ds0[k - 1].title@, d.title@, ds0[di].title@);
                        assert(lex_lt(ds0[k - 1].title@, ds0[di].title@));
                        if di == k - 1 {
                            lemma_lex_lt_irrefl(ds0[di].title@);
                        } else {
                            assert(!lex_lt(ds0[k - 1].title@, ds0[di].title@));
                        }
                        assert(false);
                    }
                } else {
                    assert(ds2[j] == ds0[j - 1]);
                }
            }
        }
    }
    // multiset bookkeeping
    assert(gs =~= gs.take(gi) + seq![gs[gi]] + gs.skip(gi + 1));
    assert(gs2 =~= gs.take(gi) + seq![g2] + gs.skip(gi + 1));
    lemma_all_views_concat(gs.take(gi) + seq![gs[gi]], gs.skip(gi + 1));
    lemma_all_views_concat(gs.take(gi), seq![gs[gi]]);
    lemma_all_views_concat(gs.take(gi) + seq![g2], gs.skip(gi + 1));
    lemma_all_views_concat(gs.take(gi), seq![g2]);
    lemma_all_views_singleton(gs[gi]);
    lemma_all_views_singleton(g2);
    let a = all_views(gs.take(gi));
    let b = all_views(gs.skip(gi + 1));
    let gv = group_views(gs[gi]);
    let gv2 = group_views(g2);
    assert(all_views(gs) == (a + gv) + b);
    assert(all_views(gs2) == (a + gv2) + b);
    assert(gv == docs_views(ds0));
    assert(gv2 =~= docs_views(ds0).insert(di, doc_view(d)));
    to_multiset_insert(docs_views(ds0), di, doc_view(d));
    lemma_multiset_commutative(a + gv, b);
    lemma_multiset_commutative(a, gv);
    lemma_multiset_commutative(a + gv2, b);
    lemma_multiset_commutative(a, gv2);
    assert(all_views(gs2).to_multiset() =~= all_views(gs).to_multiset().insert(doc_view(d)));
}

/// Inserting a fresh one-document group at its key-sorted place keeps the
/// grouping well formed and adds exactly that document.
proof fn lemma_group_insert_ok(gs: Seq<DirectoryGroup>, gi: int, g2: DirectoryGroup, d: SourceDocument)
    requires
        groups_wf(gs),
        0 <= gi <= gs.len(),
        g2.documents@ == seq![d],
        g2.key@ == group_key_of(d.rel_path@),
        forall|x: int| 0 <= x < gi ==> lex_lt(gs[x].key@, g2.key@),
        gi < gs.len() ==> lex_lt(g2.key@, gs[gi].key@),
    ensures
        groups_wf(gs.insert(gi, g2)),
        all_views(gs.insert(gi, g2)).to_multiset() == all_views(gs).to_multiset().insert(
            doc_view(d),
        ),
{
    broadcast use vstd::multiset::group_multiset_axioms;

    let gs2 = gs.insert(gi, g2);
    assert forall|i: int, j: int| 0 <= i < j < gs2.len() implies lex_lt(
        gs2[i].key@,
        gs2[j].key@,
    ) by {
        if i < gi && j == gi {
            assert(gs2[i] == gs[i]);
        } else if i == gi && j > gi {
            assert(gs2[j] == gs[j - 1]);
            if gi < gs.len() && j - 1 > gi {
                lemma_lex_lt_trans(g2.key@, gs[gi].key@, gs[j - 1].key@);
            }
        } else if i < gi && j > gi {
            assert(gs2[i] == gs[i] && gs2[j] == gs[j - 1]);
            if j - 1 == i {
                assert(lex_lt(gs[i].key@, g2.key@) && lex_lt(g2.key@, gs[gi].key@));
                lemma_lex_lt_trans(gs[i].key@, g2.key@, gs[gi].key@);
            }
        } else if j < gi {
            assert(gs2[i] == gs[i] && gs2[j] == gs[j]);
        } else if i > gi {
            assert(gs2[i] == gs[i - 1] && gs2[j] == gs[j - 1]);
        }
    }
    assert(g2.documents@.len() == 1);
    assert forall|i: int, j: int|
        0 <= i < gs2.len() && 0 <= j < gs2[i].documents@.len() implies group_key_of(
        gs2[i].documents@[j].rel_path@,
    ) == gs2[i].key@ by {
        if i == gi {
            assert(gs2[i].documents@[0] == d);
        } else if i < gi {
            assert(gs2[i] == gs[i]);
        } else {
            assert(gs2[i] == gs[i - 1]);
        }
    }
    assert forall|i: int, j: int, k: int|
        0 <= i < gs2.len() && 0 <= j < k < gs2[i].documents@.len() implies !lex_lt(
        gs2[i].documents@[k].title@,
        gs2[i].documents@[j].title@,
    ) by {
        if i < gi {
            assert(gs2[i] == gs[i]);
        } else if i > gi {
            assert(gs2[i] == gs[i - 1]);
        }
    }
    // multiset bookkeeping
    assert(gs2 =~= gs.take(gi) + seq![g2] + gs.skip(gi));
    assert(gs =~= gs.take(gi) + gs.skip(gi));
    lemma_all_views_concat(gs.take(gi) + seq![g2], gs.skip(gi));
    lemma_all_views_concat(gs.take(gi), seq![g2]);
    lemma_all_views_concat(gs.take(gi), gs.skip(gi));
    lemma_all_views_singleton(g2);
    let a = all_views(gs.take(gi));
    let b = all_views(gs.skip(gi));
    let gv2 = group_views(g2);
    assert(all_views(gs) == a + b);
    assert(all_views(gs2) == (a + gv2) + b);
    broadcast use vstd::seq_lib::group_to_multiset_ensures;

    assert(gv2 =~= seq![doc_view(d)]);
    assert(gv2 =~= Seq::<(Seq<char>, Seq<char>, Seq<char>)>::empty().push(doc_view(d)));
    to_multiset_build(Seq::<(Seq<char>, Seq<char>, Seq<char>)>::empty(), doc_view(d));
    let emp = Seq::<(Seq<char>, Seq<char>, Seq<char>)>::empty();
    assert(emp.to_multiset() =~= Multiset::<(Seq<char>, Seq<char>, Seq<char>)>::empty()) by {
        assert forall|x: (Seq<char>, Seq<char>, Seq<char>)| emp.to_multiset().count(x) == 0 by {
            if emp.to_multiset().count(x) > 0 {
                assert(emp.contains(x));
            }
        }
    }
    lemma_multiset_commutative(a + gv2, b);
    lemma_multiset_commutative(a, gv2);
    lemma_multiset_commutative(a, b);
    assert(all_views(gs2).to_multiset() =~= all_views(gs).to_multiset().insert(doc_view(d)));
}

} // verus!
