use vstd::prelude::*;
use vstd::string::StrSliceExecFns;
use vstd::string::StringExecFns;

use crate::text::{
    hash_end, hash_run, hashes, lemma_hashes, lemma_hash_run_is, lemma_hash_run_props,
    lemma_nl_pos_is, lemma_nl_pos_props, nl_pos, trim_s, trim_bounds,
};

verus! {

/// A line with a terminating carriage return removed, as happens to the text
/// before a newline when the input uses `"\r\n"` line endings.
pub open spec fn strip_cr(line: Seq<char>) -> Seq<char> {
    if line.len() > 0 && line.last() == '\r' {
        line.drop_last()
    } else {
        line
    }
}

/// A fence delimiter: a line whose trimmed form starts with three backticks.
pub open spec fn is_fence_line(line: Seq<char>) -> bool {
    let t = trim_s(line);
    t.len() >= 3 && t[0] == '`' && t[1] == '`' && t[2] == '`'
}

/// A heading: a line whose trimmed form starts with a `#` character.
pub open spec fn is_heading_line(line: Seq<char>) -> bool {
    let t = trim_s(line);
    t.len() > 0 && t[0] == '#'
}

/// What one emitted line contributes to the output, including its newline.
/// When rewriting, a heading is re-emitted from its trimmed form with the
/// offset added to its run of `#` markers; any other line is copied verbatim.
pub open spec fn line_out(line: Seq<char>, rewrite: bool, offset: nat) -> Seq<char> {
    if rewrite && is_heading_line(line) {
        let t = trim_s(line);
        let k = hash_run(t);
        hashes((k + offset) as nat) + t.skip(k as int) + seq!['\n']
    } else {
        line + seq!['\n']
    }
}

/// The first line of `text`: everything before the first newline, with a
/// terminating carriage return removed. Without any newline, all of `text`.
pub open spec fn first_line(text: Seq<char>) -> Seq<char> {
    let p = nl_pos(text);
    if p >= text.len() {
        text
    } else {
        strip_cr(text.take(p as int))
    }
}

/// What remains of `text` after its first line and that line's newline.
pub open spec fn rest_after_line(text: Seq<char>) -> Seq<char> {
    let p = nl_pos(text);
    if p >= text.len() {
        Seq::empty()
    } else {
        text.skip(p as int + 1)
    }
}

/// The fence-aware normalizer, a pure fold over the lines of `text` with the
/// fence state threaded as an explicit accumulator. Fence delimiter lines
/// toggle the state and are dropped; lines inside a fence are dropped; every
/// other line is emitted through `line_out`.
pub open spec fn normalized_from(
    text: Seq<char>,
    rewrite: bool,
    offset: nat,
    in_fence: bool,
) -> Seq<char>
    decreases text.len(),
{
    if text.len() == 0 {
        Seq::empty()
    } else {
        let line = first_line(text);
        let rest = rest_after_line(text);
        if is_fence_line(line) {
            normalized_from(rest, rewrite, offset, !in_fence)
        } else if in_fence {
            normalized_from(rest, rewrite, offset, in_fence)
        } else {
            line_out(line, rewrite, offset) + normalized_from(rest, rewrite, offset, in_fence)
        }
    }
}

/// The normalizer applied to whole input text, starting outside any fence.
pub open spec fn normalized(text: Seq<char>, rewrite: bool, offset: nat) -> Seq<char> {
    normalized_from(text, rewrite, offset, false)
}

/// The unified line-oriented normalizer: drops fenced regions and their
/// delimiters and, when `rewrite` is set, adds `offset` to the `#` run of
/// every heading found outside a fence.
#[verifier::rlimit(100)]
pub fn normalize_text(text: &str, rewrite: bool, offset: usize) -> (r: String)
    ensures
        r@ == normalized(text@, rewrite, offset as nat),
{
    let ghost whole = text@;
    let n = text.unicode_len();
    let mut out = String::new();
    let mut pos: usize = 0;
    let mut fence = false;
    proof {
        assert(whole.skip(0) =~= whole);
    }
    while pos < n
        invariant
            pos <= n,
            n == whole.len(),
            whole == text@,
            normalized(whole, rewrite, offset as nat) == out@ + normalized_from(
                whole.skip(pos as int),
                rewrite,
                offset as nat,
                fence,
            ),
        decreases n - pos,
    {
        let ghost cur = whole.skip(pos as int);
        let ghost fence0 = fence;
        let ghost out0 = out@;
        // Find the first newline at or after `pos`.
        let mut j: usize = pos;
        while j < n && text.get_char(j) != '\n'
            invariant
                pos <= j <= n,
                n == whole.len(),
                whole == text@,
                forall|k: int| pos <= k < j ==> whole[k] != '\n',
            decreases n - j,
        {
            j = j + 1;
        }
        proof {
            assert forall|i: int| 0 <= i < j - pos implies cur[i] != '\n' by {
                assert(cur[i] == whole[pos + i]);
            }
            if j < n {
                assert(cur[(j - pos) as int] == whole[j as int]);
            }
            lemma_nl_pos_is(cur, (j - pos) as nat);
        }
        // The line is `whole[pos .. line_end]`, a carriage return before the
        // newline excluded.
        let line_end: usize = if j < n && j > pos && text.get_char(j - 1) == '\r' {
            j - 1
        } else {
            j
        };
        let next_pos: usize = if j < n {
            j + 1
        } else {
            n
        };
        let ghost line = whole.subrange(pos as int, line_end as int);
        let ghost rest = rest_after_line(cur);
        proof {
            if j < n {
                assert(cur.take((j - pos) as int) =~= whole.subrange(pos as int, j as int));
                let seg = whole.subrange(pos as int, j as int);
                if j > pos && whole[j as int - 1] == '\r' {
                    assert(seg.len() > 0 && seg.last() == '\r');
                    assert(seg.drop_last() =~= line);
                } else {
                    if seg.len() > 0 {
                        assert(seg.last() == whole[j as int - 1]);
                    }
                    assert(seg =~= line);
                }
                assert(first_line(cur) == line);
                assert(rest =~= whole.skip(next_pos as int));
            } else {
                assert(cur =~= line);
                assert(first_line(cur) == line);
                assert(rest =~= whole.skip(next_pos as int));
            }
        }
        let (a, b) = trim_bounds(text, pos, line_end);
        let ghost t = trim_s(line);
        proof {
            assert(t == whole.subrange(a as int, b as int));
        }
        let fence_line = b - a >= 3 && text.get_char(a) == '`' && text.get_char(a + 1) == '`'
            && text.get_char(a + 2) == '`';
        proof {
            if b - a >= 3 {
                assert(t[0] == whole[a as int]);
                assert(t[1] == whole[a as int + 1]);
                assert(t[2] == whole[a as int + 2]);
            }
            assert(fence_line == is_fence_line(line));
        }
        if fence_line {
            fence = !fence;
            proof {
                assert(normalized_from(cur, rewrite, offset as nat, fence0) == normalized_from(
                    rest,
                    rewrite,
                    offset as nat,
                    fence,
                ));
                assert(rest == whole.skip(next_pos as int));
            }
        } else if fence {
            proof {
                assert(normalized_from(cur, rewrite, offset as nat, fence0) == normalized_from(
                    rest,
                    rewrite,
                    offset as nat,
                    fence,
                ));
                assert(rest == whole.skip(next_pos as int));
            }
        } else {
            let heading = b > a && text.get_char(a) == '#';
            proof {
                if b > a {
                    assert(t[0] == whole[a as int]);
                }
                assert(heading == is_heading_line(line));
            }
            if rewrite && heading {
                let ke = hash_end(text, a, b);
                let ghost k = hash_run(t);
                proof {
                    assert(k == ke - a);
                    reveal_strlit("#");
                    assert("#"@ =~= seq!['#']);
                    assert(hashes(0) =~= Seq::<char>::empty());
                    assert(out@ =~= out0 + hashes(0));
                }
                let mut h: usize = 0;
                while h < offset
                    invariant
                        h <= offset,
                        out@ == out0 + hashes(h as nat),
                        "#"@ == seq!['#'],
                    decreases offset - h,
                {
                    out.append("#");
                    proof {
                        assert(hashes((h + 1) as nat) == hashes(h as nat).push('#'));
                        assert(out@ =~= out0 + hashes((h + 1) as nat));
                    }
                    h = h + 1;
                }
                let mut h2: usize = a;
                while h2 < ke
                    invariant
                        a <= h2 <= ke,
                        out@ == out0 + hashes((offset + (h2 - a)) as nat),
                        "#"@ == seq!['#'],
                    decreases ke - h2,
                {
                    out.append("#");
                    proof {
                        assert(hashes((offset + (h2 - a) + 1) as nat) == hashes(
                            (offset + (h2 - a)) as nat,
                        ).push('#'));
                        assert(out@ =~= out0 + hashes((offset + (h2 - a) + 1) as nat));
                    }
                    h2 = h2 + 1;
                }
                let rem = text.substring_char(ke, b);
                out.append(rem);
                out.append("\n");
                proof {
                    reveal_strlit("\n");
                    assert("\n"@ =~= seq!['\n']);
                    assert(rem@ == whole.subrange(ke as int, b as int));
                    assert(t.skip(k as int) =~= whole.subrange(ke as int, b as int));
                    assert(hashes((k + offset) as nat) == hashes((offset + (ke - a)) as nat));
                    assert(line_out(line, rewrite, offset as nat) =~= hashes(
                        (offset + (ke - a)) as nat,
                    ) + rem@ + seq!['\n']);
                    assert(out@ =~= out0 + line_out(line, rewrite, offset as nat));
                }
            } else {
                let ln = text.substring_char(pos, line_end);
                out.append(ln);
                out.append("\n");
                proof {
                    reveal_strlit("\n");
                    assert("\n"@ =~= seq!['\n']);
                    assert(ln@ == line);
                    assert(line_out(line, rewrite, offset as nat) == line + seq!['\n']);
                    assert(out@ =~= out0 + line_out(line, rewrite, offset as nat));
                }
            }
            proof {
                assert(normalized_from(cur, rewrite, offset as nat, fence0) == line_out(
                    line,
                    rewrite,
                    offset as nat,
                ) + normalized_from(rest, rewrite, offset as nat, fence));
                assert(rest == whole.skip(next_pos as int));
                assert(out0 + (line_out(line, rewrite, offset as nat) + normalized_from(
                    rest,
                    rewrite,
                    offset as nat,
                    fence,
                )) =~= out@ + normalized_from(rest, rewrite, offset as nat, fence));
            }
        }
        pos = next_pos;
    }
    proof {
        assert(whole.skip(pos as int).len() == 0);
        assert(normalized_from(whole.skip(pos as int), rewrite, offset as nat, fence)
            =~= Seq::<char>::empty());
        assert(out@ + normalized_from(whole.skip(pos as int), rewrite, offset as nat, fence)
            =~= out@);
    }
    out
}

/// The lines of `text`, in order.
pub open spec fn split_lines(text: Seq<char>) -> Seq<Seq<char>>
    decreases text.len(),
{
    if text.len() == 0 {
        Seq::empty()
    } else {
        seq![first_line(text)] + split_lines(rest_after_line(text))
    }
}

/// The lines of `text` that lie outside fenced regions, in order, the fence
/// delimiter lines themselves excluded.
pub open spec fn kept_lines(text: Seq<char>, in_fence: bool) -> Seq<Seq<char>>
    decreases text.len(),
{
    if text.len() == 0 {
        Seq::empty()
    } else {
        let line = first_line(text);
        let rest = rest_after_line(text);
        if is_fence_line(line) {
            kept_lines(rest, !in_fence)
        } else if in_fence {
            kept_lines(rest, in_fence)
        } else {
            seq![line] + kept_lines(rest, in_fence)
        }
    }
}

/// Lines joined back into one text, each followed by a newline.
pub open spec fn join_lines(lines: Seq<Seq<char>>) -> Seq<char>
    decreases lines.len(),
{
    if lines.len() == 0 {
        Seq::empty()
    } else {
        lines.first() + seq!['\n'] + join_lines(lines.drop_first())
    }
}

/// The output a sequence of kept lines contributes, each line passing
/// through `line_out`.
pub open spec fn emitted_lines(lines: Seq<Seq<char>>, rewrite: bool, offset: nat) -> Seq<char>
    decreases lines.len(),
{
    if lines.len() == 0 {
        Seq::empty()
    } else {
        line_out(lines.first(), rewrite, offset) + emitted_lines(lines.drop_first(), rewrite, offset)
    }
}

/// The normalizer's output is exactly the lines outside fenced regions, in
/// order, each passed through `line_out`: fenced content and fence delimiter
/// lines never reach the output, and every kept line is changed only as
/// `line_out` says — not at all without rewriting, and only in its heading
/// markers with it.
pub proof fn lemma_normalizer_emits_kept_lines(
    text: Seq<char>,
    rewrite: bool,
    offset: nat,
    in_fence: bool,
)
    ensures
        normalized_from(text, rewrite, offset, in_fence) == emitted_lines(
            kept_lines(text, in_fence),
            rewrite,
            offset,
        ),
    decreases text.len(),
{
    if text.len() == 0 {
    } else {
        let line = first_line(text);
        let rest = rest_after_line(text);
        if is_fence_line(line) {
            lemma_normalizer_emits_kept_lines(rest, rewrite, offset, !in_fence);
        } else if in_fence {
            lemma_normalizer_emits_kept_lines(rest, rewrite, offset, in_fence);
        } else {
            lemma_normalizer_emits_kept_lines(rest, rewrite, offset, in_fence);
            let ks = seq![line] + kept_lines(rest, in_fence);
            assert(ks.first() == line);
            assert(ks.drop_first() =~= kept_lines(rest, in_fence));
        }
    }
}

/// Fenced content is removed and everything else survives verbatim: the
/// non-rewriting normalizer emits exactly the lines outside fenced regions,
/// in order and unchanged, each followed by a newline.
pub proof fn lemma_normalizer_strips_fences(text: Seq<char>, in_fence: bool)
    ensures
        normalized_from(text, false, 0, in_fence) == join_lines(kept_lines(text, in_fence)),
    decreases text.len(),
{
    lemma_normalizer_emits_kept_lines(text, false, 0, in_fence);
    lemma_emitted_verbatim(kept_lines(text, in_fence));
}

/// Without rewriting, `line_out` is the identity up to the appended newline.
proof fn lemma_emitted_verbatim(lines: Seq<Seq<char>>)
    ensures
        emitted_lines(lines, false, 0) == join_lines(lines),
    decreases lines.len(),
{
    if lines.len() > 0 {
        lemma_emitted_verbatim(lines.drop_first());
        assert(line_out(lines.first(), false, 0) == lines.first() + seq!['\n']);
        assert((lines.first() + seq!['\n']) + join_lines(lines.drop_first()) =~= lines.first()
            + seq!['\n'] + join_lines(lines.drop_first()));
    }
}

/// Every line the normalizer keeps is one of the input's own lines, and none
/// of them is a fence delimiter.
pub proof fn lemma_kept_lines_are_input_lines(text: Seq<char>, in_fence: bool)
    ensures
        forall|i: int|
            0 <= i < kept_lines(text, in_fence).len() ==> !is_fence_line(
                kept_lines(text, in_fence)[i],
            ) && split_lines(text).contains(kept_lines(text, in_fence)[i]),
    decreases text.len(),
{
    if text.len() == 0 {
    } else {
        let line = first_line(text);
        let rest = rest_after_line(text);
        let all = split_lines(text);
        assert(all == seq![line] + split_lines(rest));
        if is_fence_line(line) {
            lemma_kept_lines_are_input_lines(rest, !in_fence);
            let ks = kept_lines(rest, !in_fence);
            assert forall|i: int| 0 <= i < ks.len() implies !is_fence_line(ks[i])
                && all.contains(ks[i]) by {
                let idx = choose|idx: int|
                    0 <= idx < split_lines(rest).len() && split_lines(rest)[idx] == ks[i];
                assert(all[idx + 1] == ks[i]);
            }
        } else if in_fence {
            lemma_kept_lines_are_input_lines(rest, in_fence);
            let ks = kept_lines(rest, in_fence);
            assert forall|i: int| 0 <= i < ks.len() implies !is_fence_line(ks[i])
                && all.contains(ks[i]) by {
                let idx = choose|idx: int|
                    0 <= idx < split_lines(rest).len() && split_lines(rest)[idx] == ks[i];
                assert(all[idx + 1] == ks[i]);
            }
        } else {
            lemma_kept_lines_are_input_lines(rest, in_fence);
            let ks = kept_lines(text, in_fence);
            assert(ks == seq![line] + kept_lines(rest, in_fence));
            assert forall|i: int| 0 <= i < ks.len() implies !is_fence_line(ks[i])
                && all.contains(ks[i]) by {
                if i == 0 {
                    assert(ks[0] == line);
                    assert(all[0] == line);
                } else {
                    assert(ks[i] == kept_lines(rest, in_fence)[i - 1]);
                    let idx = choose|idx: int|
                        0 <= idx < split_lines(rest).len() && split_lines(rest)[idx] == ks[i];
                    assert(all[idx + 1] == ks[i]);
                }
            }
        }
    }
}

/// The non-offsetting normalizer is idempotent on carriage-return-free text:
/// its own output normalizes to itself, so the pass the renderer applies
/// changes nothing on text that already went through it. (A line ending in a
/// carriage return is the one exception — the first pass ends it with a
/// newline and the second then strips the carriage return — hence the
/// restriction.)
pub proof fn lemma_nonoffset_idempotent(text: Seq<char>)
    requires
        forall|i: int| 0 <= i < text.len() ==> text[i] != '\r',
    ensures
        normalized(normalized(text, false, 0), false, 0) == normalized(text, false, 0),
{
    lemma_nonoffset_idempotent_from(text, false);
}

proof fn lemma_nonoffset_idempotent_from(text: Seq<char>, in_fence: bool)
    requires
        forall|i: int| 0 <= i < text.len() ==> text[i] != '\r',
    ensures
        normalized_from(normalized_from(text, false, 0, in_fence), false, 0, false)
            == normalized_from(text, false, 0, in_fence),
    decreases text.len(),
{
    if text.len() == 0 {
    } else {
        let line = first_line(text);
        let rest = rest_after_line(text);
        let p = nl_pos(text);
        lemma_nl_pos_props(text);
        assert forall|i: int| 0 <= i < rest.len() implies rest[i] != '\r' by {
            assert(rest[i] == text[p + 1 + i]);
        }
        if p < text.len() {
            assert(text.take(p as int).len() == p);
            if p > 0 {
                assert(text.take(p as int).last() == text[p - 1]);
            }
            assert(line == text.take(p as int));
        }
        assert forall|i: int| 0 <= i < line.len() implies line[i] != '\n' && line[i] != '\r' by {
            if p < text.len() {
                assert(line[i] == text[i]);
            } else {
                assert(line[i] == text[i]);
            }
        }
        if is_fence_line(line) {
            lemma_nonoffset_idempotent_from(rest, !in_fence);
        } else if in_fence {
            lemma_nonoffset_idempotent_from(rest, in_fence);
        } else {
            lemma_nonoffset_idempotent_from(rest, in_fence);
            let tail = normalized_from(rest, false, 0, in_fence);
            let o = normalized_from(text, false, 0, in_fence);
            assert(line_out(line, false, 0) == line + seq!['\n']);
            assert(o == line + seq!['\n'] + tail);
            assert(o.len() == line.len() + 1 + tail.len());
            assert forall|i: int| 0 <= i < line.len() implies o[i] != '\n' by {
                assert(o[i] == line[i]);
            }
            assert(o[line.len() as int] == '\n');
            lemma_nl_pos_is(o, line.len() as nat);
            assert(o.take(line.len() as int) =~= line);
            if line.len() > 0 {
                assert(line.last() != '\r');
            }
            assert(first_line(o) == line);
            assert(rest_after_line(o) =~= tail);
            assert(normalized_from(o, false, 0, false) == line_out(line, false, 0)
                + normalized_from(tail, false, 0, false));
            assert(normalized_from(o, false, 0, false) =~= o);
        }
    }
}

/// A heading line with `k` leading `#` markers, rewritten with offset `o`,
/// comes out with exactly `k + o` leading `#` markers followed by the
/// unchanged remainder of the trimmed heading and the line's newline.
pub proof fn lemma_heading_offset(line: Seq<char>, offset: nat)
    requires
        is_heading_line(line),
    ensures
        ({
            let t = trim_s(line);
            let k = hash_run(t);
            let out = line_out(line, true, offset);
            &&& hash_run(out) == k + offset
            &&& out.skip((k + offset) as int) == t.skip(k as int) + seq!['\n']
        }),
{
    let t = trim_s(line);
    let k = hash_run(t);
    let out = line_out(line, true, offset);
    lemma_hashes((k + offset) as nat);
    lemma_hash_run_props(t);
    let tail = t.skip(k as int) + seq!['\n'];
    assert(out == hashes((k + offset) as nat) + t.skip(k as int) + seq!['\n']);
    assert(out =~= hashes((k + offset) as nat) + tail);
    assert(tail.len() > 0);
    assert(out.len() == k + offset + tail.len());
    assert forall|i: int| 0 <= i < k + offset implies out[i] == '#' by {
        assert(out[i] == hashes((k + offset) as nat)[i]);
    }
    assert(out[(k + offset) as int] == tail[0]);
    if t.len() > k {
        assert(tail[0] == t[k as int]);
        assert(tail[0] != '#');
    } else {
        assert(t.skip(k as int).len() == 0);
        assert(tail[0] == '\n');
    }
    lemma_hash_run_is(out, (k + offset) as nat);
    assert(out.skip((k + offset) as int) =~= tail);
}

/// The offsetting normalizer used for multi-file assembly: fenced regions are
/// stripped and every heading outside a fence is pushed two levels deeper, so
/// that bodies nest under the synthesized title and group headings.
pub fn preprocess_markdown(markdown: &str) -> (r: String)
    ensures
        r@ == normalized(markdown@, true, 2),
{
    normalize_text(markdown, true, 2)
}

/// The non-offsetting normalizer used for single-file rendering: fenced
/// regions are stripped and every other line is kept verbatim at its authored
/// depth.
pub fn preprocess_markdown_single_file(markdown: &str) -> (r: String)
    ensures
        r@ == normalized(markdown@, false, 0),
{
    normalize_text(markdown, false, 0)
}

} // verus!
