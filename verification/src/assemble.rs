use vstd::prelude::*;
use vstd::string::StringExecFns;

use crate::discover::{DirectoryGroup, SourceDocument};
use crate::normalize::{normalized, preprocess_markdown};
use crate::text::{str_cmp, Cmp};

verus! {

/// The composite text one document contributes: its sub-section heading, its
/// body with headings pushed two levels deeper, and a separator framed by
/// blank lines.
pub open spec fn doc_block(d: SourceDocument) -> Seq<char> {
    "## "@ + d.title@ + "\n\n"@ + normalized(d.content@, true, 2) + "\n\n---\n\n"@
}

pub open spec fn docs_blocks(ds: Seq<SourceDocument>) -> Seq<char>
    decreases ds.len(),
{
    if ds.len() == 0 {
        Seq::empty()
    } else {
        doc_block(ds.first()) + docs_blocks(ds.drop_first())
    }
}

/// The composite text one group contributes: its section heading — omitted
/// for the root group — followed by its documents' blocks in order.
pub open spec fn group_block(g: DirectoryGroup) -> Seq<char> {
    (if g.key@ == "Root"@ {
        Seq::<char>::empty()
    } else {
        "# "@ + g.key@ + "\n\n"@
    }) + docs_blocks(g.documents@)
}

pub open spec fn groups_blocks(gs: Seq<DirectoryGroup>) -> Seq<char>
    decreases gs.len(),
{
    if gs.len() == 0 {
        Seq::empty()
    } else {
        group_block(gs.first()) + groups_blocks(gs.drop_first())
    }
}

/// The whole composite document: the top-level title heading, a blank line,
/// then every group in order.
pub open spec fn combined_of(gs: Seq<DirectoryGroup>, title: Seq<char>) -> Seq<char> {
    "# "@ + title + "\n\n"@ + groups_blocks(gs)
}

/// Concatenates the grouped documents into one composite source text: a
/// level-1 title heading, per-group section headings (omitted for the root
/// group), per-document sub-section headings, each document's normalized body
/// and a horizontal-rule separator.
#[verifier::rlimit(100)]
pub fn create_combined_markdown(files_by_dir: Vec<DirectoryGroup>, title: &str) -> (r: String)
    ensures
        r@ == combined_of(files_by_dir@, title@),
{
    let ghost gs = files_by_dir@;
    let mut out = String::new();
    out.append("# ");
    out.append(title);
    out.append("\n\n");
    proof {
        assert(out@ =~= "# "@ + title@ + "\n\n"@);
        assert(gs.skip(0) =~= gs);
    }
    let mut gi: usize = 0;
    while gi < files_by_dir.len()
        invariant
            gi <= gs.len(),
            gs == files_by_dir@,
            combined_of(gs, title@) == out@ + groups_blocks(gs.skip(gi as int)),
        decreases gs.len() - gi,
    {
        let g = &files_by_dir[gi];
        let ghost out_g = out@;
        let c = str_cmp(g.key.as_str(), "Root");
        let is_root = match c {
            Cmp::Eq => true,
            _ => false,
        };
        if !is_root {
            out.append("# ");
            out.append(g.key.as_str());
            out.append("\n\n");
        }
        let ghost head = if g.key@ == "Root"@ {
            Seq::<char>::empty()
        } else {
            "# "@ + g.key@ + "\n\n"@
        };
        proof {
            assert(out@ =~= out_g + head);
        }
        let ghost out_h = out@;
        let ghost ds = g.documents@;
        proof {
            assert(ds.skip(0) =~= ds);
        }
        let mut di: usize = 0;
        while di < g.documents.len()
            invariant
                di <= ds.len(),
                ds == g.documents@,
                out@ + docs_blocks(ds.skip(di as int)) == out_h + docs_blocks(ds),
            decreases ds.len() - di,
        {
            let d = &g.documents[di];
            let ghost out_d = out@;
            out.append("## ");
            out.append(d.title.as_str());
            out.append("\n\n");
            let body = preprocess_markdown(d.content.as_str());
            out.append(body.as_str());
            out.append("\n\n---\n\n");
            proof {
                assert(ds.skip(di as int).len() > 0);
                assert(ds.skip(di as int).first() == ds[di as int]);
                assert(ds.skip(di as int).drop_first() =~= ds.skip(di as int + 1));
                assert(docs_blocks(ds.skip(di as int)) == doc_block(ds[di as int]) + docs_blocks(
                    ds.skip(di as int + 1),
                ));
                assert(out@ =~= out_d + doc_block(ds[di as int]));
                assert(out_d + (doc_block(ds[di as int]) + docs_blocks(ds.skip(di as int + 1)))
                    =~= out@ + docs_blocks(ds.skip(di as int + 1)));
            }
            di = di + 1;
        }
        proof {
            assert(ds.skip(di as int).len() == 0);
            assert(docs_blocks(ds.skip(di as int)) =~= Seq::<char>::empty());
            assert(out@ =~= out_h + docs_blocks(ds));
            assert(*g == gs[gi as int]);
            assert(group_block(gs[gi as int]) == head + docs_blocks(ds));
            assert(out@ =~= out_g + group_block(gs[gi as int]));
            assert(gs.skip(gi as int).len() > 0);
            assert(gs.skip(gi as int).first() == gs[gi as int]);
            assert(gs.skip(gi as int).drop_first() =~= gs.skip(gi as int + 1));
            assert(groups_blocks(gs.skip(gi as int)) == group_block(gs[gi as int]) + groups_blocks(
                gs.skip(gi as int + 1),
            ));
            assert(out_g + (group_block(gs[gi as int]) + groups_blocks(gs.skip(gi as int + 1)))
                =~= out@ + groups_blocks(gs.skip(gi as int + 1)));
        }
        gi = gi + 1;
    }
    proof {
        assert(gs.skip(gi as int).len() == 0);
        assert(groups_blocks(gs.skip(gi as int)) =~= Seq::<char>::empty());
        assert(out@ + groups_blocks(gs.skip(gi as int)) =~= out@);
    }
    out
}

/// Assembling one and the same grouping with the same title twice yields
/// byte-identical composite text: the composite is a function of its inputs
/// alone.
pub proof fn lemma_assembler_deterministic(
    gs: Seq<DirectoryGroup>,
    title: Seq<char>,
    r1: Seq<char>,
    r2: Seq<char>,
)
    requires
        r1 == combined_of(gs, title),
        r2 == combined_of(gs, title),
    ensures
        r1 == r2,
{
}

} // verus!
