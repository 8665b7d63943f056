//! The engine's guarantees, stated and proved over the specification
//! functions that the executable contracts use: lossless round trips,
//! exclusion of regenerated footnote definitions, canonical key order,
//! the blank-line policy, block alternation, and omission of unresolvable
//! keys.

use vstd::prelude::*;

use crate::bib::add_keys;
use crate::bib::batch_accumulate;
use crate::bib::batch_keys;
use crate::bib::sorted_insert;
use crate::bib::sorted_strict;
use crate::block::BlockView;
use crate::block::CommentView;
use crate::block::block_is_comment;
use crate::block::block_key_view;
use crate::block::block_lines;
use crate::block::comment_cite_spec;
use crate::block::footnote_lines;
use crate::block::line_dropped;
use crate::block::needs_blank;
use crate::file::blocks_text;
use crate::file::cite_blocks;
use crate::file::accumulate_keys;
use crate::file::file_keys;
use crate::file::build_comment;
use crate::file::join_lines;
use crate::file::mk_block;
use crate::file::parse;
use crate::file::parse_cont;
use crate::pattern::comment_prefix;
use crate::pattern::has_cite;
use crate::pattern::is_comment_line;
use crate::pattern::is_generic_footnote;
use crate::pattern::lemma_lex_lt_irrefl;
use crate::pattern::lemma_lex_lt_total;
use crate::pattern::lemma_lex_lt_trans;
use crate::pattern::lex_lt;
use crate::pattern::scan_keys;
use crate::pattern::cite_open_at;
use crate::pattern::close_pos;
use crate::pattern::footnote_start;
use crate::pattern::is_cite_footnote;
use crate::pattern::is_space;
use crate::pattern::lemma_close_pos_bound;
use crate::pattern::lemma_close_pos_unique;
use crate::pattern::lemma_ws_len;
use crate::pattern::lemma_ws_len_unique;
use crate::pattern::marker_end;
use crate::pattern::ws_len;
use crate::block::footnote_line;
use crate::block::any_resolvable;
use crate::block::block_cite_spec;

verus! {

// ------------------------- concatenation helpers -------------------------
proof fn lemma_join_concat(a: Seq<Seq<char>>, b: Seq<Seq<char>>)
    ensures
        join_lines(a + b) == join_lines(a) + join_lines(b),
    decreases b.len(),
{
    if b.len() == 0 {
        assert(a + b =~= a);
        assert(join_lines(a) + join_lines(b) =~= join_lines(a));
    } else {
        lemma_join_concat(a, b.drop_last());
        assert((a + b).drop_last() =~= a + b.drop_last());
        assert((a + b).last() == b.last());
        assert(join_lines(a) + (join_lines(b.drop_last()) + b.last() + seq!['\n']) =~= (join_lines(
            a,
        ) + join_lines(b.drop_last())) + b.last() + seq!['\n']);
    }
}

proof fn lemma_blocks_text_concat(a: Seq<BlockView>, b: Seq<BlockView>)
    ensures
        blocks_text(a + b) == blocks_text(a) + blocks_text(b),
    decreases b.len(),
{
    if b.len() == 0 {
        assert(a + b =~= a);
        assert(blocks_text(a) + blocks_text(b) =~= blocks_text(a));
    } else {
        lemma_blocks_text_concat(a, b.drop_last());
        assert((a + b).drop_last() =~= a + b.drop_last());
        assert((a + b).last() == b.last());
        assert(blocks_text(a) + (blocks_text(b.drop_last()) + join_lines(
            block_lines(b.last()),
        )) =~= (blocks_text(a) + blocks_text(b.drop_last())) + join_lines(block_lines(b.last())));
    }
}

proof fn lemma_join_single(l: Seq<char>)
    ensures
        join_lines(seq![l]) == l + seq!['\n'],
{
    let s = seq![l];
    assert(s.drop_last() =~= Seq::<Seq<char>>::empty());
    assert(s.last() == l);
    assert(join_lines(s) == join_lines(s.drop_last()) + l + seq!['\n']);
    assert(join_lines(s) =~= l + seq!['\n']);
}

proof fn lemma_blocks_text_single(b: BlockView)
    ensures
        blocks_text(seq![b]) == join_lines(block_lines(b)),
{
    let s = seq![b];
    assert(s.drop_last() =~= Seq::<BlockView>::empty());
    assert(s.last() == b);
    assert(blocks_text(s) == blocks_text(s.drop_last()) + join_lines(block_lines(b)));
    assert(blocks_text(s) =~= join_lines(block_lines(b)));
}

// ------------------------- parsed comment blocks -------------------------
/// A comment block built from lines none of which is a footnote definition
/// keeps them all.
proof fn lemma_build_comment_nodrop(run: Seq<Seq<char>>)
    requires
        forall|j: int| 0 <= j < run.len() ==> !line_dropped(#[trigger] run[j]),
    ensures
        build_comment(run).lines == run,
    decreases run.len(),
{
    if run.len() > 0 {
        lemma_build_comment_nodrop(run.drop_last());
        assert(!line_dropped(run.last()));
        assert(run.drop_last().push(run.last()) =~= run);
    }
}

/// Key extraction excludes self-generated footnotes: the lines a comment
/// block keeps are exactly the lines of its run that are not citation
/// footnote definitions, so no such definition ever reaches the serialized
/// output of a fresh parse.
pub proof fn lemma_footnote_defs_excluded(run: Seq<Seq<char>>)
    ensures
        build_comment(run).lines == run.filter(|l: Seq<char>| !line_dropped(l)),
        forall|i: int|
            0 <= i < build_comment(run).lines.len() ==> !line_dropped(
                #[trigger] build_comment(run).lines[i],
            ),
    decreases run.len(),
{
    reveal(Seq::filter);
    if run.len() == 0 {
        assert(build_comment(run).lines =~= run.filter(|l: Seq<char>| !line_dropped(l)));
    } else {
        lemma_footnote_defs_excluded(run.drop_last());
    }
}

// ------------------------- ordered key sets -------------------------
/// Inserting into a sorted duplicate-free key sequence keeps it sorted and
/// duplicate-free, and its members are the old members plus the new key.
proof fn lemma_sorted_insert_props(ks: Seq<Seq<char>>, k: Seq<char>)
    requires
        sorted_strict(ks),
    ensures
        sorted_strict(sorted_insert(ks, k)),
        forall|x: Seq<char>|
            #[trigger] sorted_insert(ks, k).contains(x) <==> (ks.contains(x) || x == k),
    decreases ks.len(),
{
    let out = sorted_insert(ks, k);
    if ks.len() == 0 {
        assert(out == seq![k]);
        assert(out[0] == k);
        assert forall|x: Seq<char>| #[trigger] out.contains(x) <==> (ks.contains(x) || x == k) by {
            if x == k {
                assert(out[0] == x);
            }
        }
    } else if lex_lt(ks[0], k) {
        let tail = ks.skip(1);
        assert forall|i: int, j: int| 0 <= i < j < tail.len() implies lex_lt(
            #[trigger] tail[i],
            #[trigger] tail[j],
        ) by {
            assert(tail[i] == ks[i + 1]);
            assert(tail[j] == ks[j + 1]);
        }
        lemma_sorted_insert_props(tail, k);
        let sub = sorted_insert(tail, k);
        assert(out == seq![ks[0]] + sub);
        assert forall|x: Seq<char>| #[trigger] out.contains(x) implies (ks.contains(x) || x
            == k) by {
            let i = choose|i: int| 0 <= i < out.len() && out[i] == x;
            if i == 0 {
                assert(ks[0] == x);
            } else {
                assert(sub[i - 1] == x);
                assert(sub.contains(x));
                if tail.contains(x) {
                    let t = choose|t: int| 0 <= t < tail.len() && tail[t] == x;
                    assert(ks[t + 1] == x);
                }
            }
        }
        assert forall|x: Seq<char>| (ks.contains(x) || x == k) implies #[trigger] out.contains(
            x,
        ) by {
            if ks.contains(x) {
                let i = choose|i: int| 0 <= i < ks.len() && ks[i] == x;
                if i == 0 {
                    assert(out[0] == x);
                } else {
                    assert(tail[i - 1] == x);
                    assert(tail.contains(x));
                    assert(sub.contains(x));
                    let t = choose|t: int| 0 <= t < sub.len() && sub[t] == x;
                    assert(out[t + 1] == x);
                }
            } else {
                assert(sub.contains(x));
                let t = choose|t: int| 0 <= t < sub.len() && sub[t] == x;
                assert(out[t + 1] == x);
            }
        }
        assert forall|i: int, j: int| 0 <= i < j < out.len() implies lex_lt(
            #[trigger] out[i],
            #[trigger] out[j],
        ) by {
            if i == 0 {
                assert(sub[j - 1] == out[j]);
                assert(sub.contains(sub[j - 1]));
                if tail.contains(sub[j - 1]) {
                    let t = choose|t: int| 0 <= t < tail.len() && tail[t] == sub[j - 1];
                    assert(ks[t + 1] == sub[j - 1]);
                }
            } else {
                assert(out[i] == sub[i - 1]);
                assert(out[j] == sub[j - 1]);
            }
        }
    } else if ks[0] == k {
    } else {
        lemma_lex_lt_total(ks[0], k);
        assert(lex_lt(k, ks[0]));
        assert(out == seq![k] + ks);
        assert forall|x: Seq<char>| #[trigger] out.contains(x) implies (ks.contains(x) || x
            == k) by {
            let i = choose|i: int| 0 <= i < out.len() && out[i] == x;
            if i > 0 {
                assert(ks[i - 1] == x);
            }
        }
        assert forall|x: Seq<char>| (ks.contains(x) || x == k) implies #[trigger] out.contains(
            x,
        ) by {
            if x == k {
                assert(out[0] == x);
            } else {
                let i = choose|i: int| 0 <= i < ks.len() && ks[i] == x;
                assert(out[i + 1] == x);
            }
        }
        assert forall|i: int, j: int| 0 <= i < j < out.len() implies lex_lt(
            #[trigger] out[i],
            #[trigger] out[j],
        ) by {
            if i == 0 {
                if j > 1 {
                    lemma_lex_lt_trans(k, ks[0], ks[j - 1]);
                }
            } else {
                assert(out[i] == ks[i - 1]);
                assert(out[j] == ks[j - 1]);
            }
        }
    }
}

/// Adding a batch of keys to a sorted duplicate-free key sequence keeps it
/// sorted and duplicate-free; the members afterwards are the old members
/// plus the batch.
pub proof fn lemma_add_keys_props(ks: Seq<Seq<char>>, new: Seq<Seq<char>>)
    requires
        sorted_strict(ks),
    ensures
        sorted_strict(add_keys(ks, new)),
        forall|x: Seq<char>|
            #[trigger] add_keys(ks, new).contains(x) <==> (ks.contains(x) || new.contains(x)),
    decreases new.len(),
{
    if new.len() == 0 {
        assert(forall|x: Seq<char>| !new.contains(x));
    } else {
        lemma_sorted_insert_props(ks, new[0]);
        lemma_add_keys_props(sorted_insert(ks, new[0]), new.skip(1));
        assert(add_keys(ks, new) == add_keys(sorted_insert(ks, new[0]), new.skip(1)));
        assert forall|x: Seq<char>| #[trigger] add_keys(ks, new).contains(x) <==> (ks.contains(x)
            || new.contains(x)) by {
            if new.skip(1).contains(x) {
                let i = choose|i: int| 0 <= i < new.skip(1).len() && new.skip(1)[i] == x;
                assert(new[i + 1] == x);
            }
            if new.contains(x) {
                let i = choose|i: int| 0 <= i < new.len() && new[i] == x;
                if i == 0 {
                } else {
                    assert(new.skip(1)[i - 1] == x);
                }
            }
        }
    }
}

/// Canonical order: two sorted duplicate-free key sequences with the same
/// members are the same sequence.  With `lemma_add_keys_props` this says a
/// block's key sequence does not depend on the order in which its keys were
/// first seen: footnotes come out in ascending key order regardless.
pub proof fn lemma_key_order_canonical(a: Seq<Seq<char>>, b: Seq<Seq<char>>)
    requires
        sorted_strict(a),
        sorted_strict(b),
        forall|x: Seq<char>| #[trigger] a.contains(x) <==> b.contains(x),
    ensures
        a == b,
    decreases a.len(),
{
    if a.len() == 0 {
        if b.len() > 0 {
            assert(b.contains(b[0]));
            assert(a.contains(b[0]));
        }
        assert(a =~= b);
    } else {
        assert(a.contains(a[0]));
        assert(b.contains(a[0]));
        if b.len() == 0 {
            assert(false);
        }
        assert(b.contains(b[0]));
        assert(a.contains(b[0]));
        let i = choose|i: int| 0 <= i < b.len() && b[i] == a[0];
        let j = choose|j: int| 0 <= j < a.len() && a[j] == b[0];
        if i > 0 {
            assert(lex_lt(b[0], b[i]));
            if j > 0 {
                assert(lex_lt(a[0], a[j]));
                lemma_lex_lt_trans(a[0], a[j], b[i]);
                lemma_lex_lt_irrefl(a[0]);
            } else {
                lemma_lex_lt_irrefl(b[0]);
            }
        }
        assert(a[0] == b[0]);
        let at = a.skip(1);
        let bt = b.skip(1);
        assert forall|x: int, y: int| 0 <= x < y < at.len() implies lex_lt(
            #[trigger] at[x],
            #[trigger] at[y],
        ) by {
            assert(at[x] == a[x + 1]);
            assert(at[y] == a[y + 1]);
        }
        assert forall|x: int, y: int| 0 <= x < y < bt.len() implies lex_lt(
            #[trigger] bt[x],
            #[trigger] bt[y],
        ) by {
            assert(bt[x] == b[x + 1]);
            assert(bt[y] == b[y + 1]);
        }
        assert forall|x: Seq<char>| #[trigger] at.contains(x) <==> bt.contains(x) by {
            if at.contains(x) {
                let p = choose|p: int| 0 <= p < at.len() && at[p] == x;
                assert(a[p + 1] == x);
                assert(a.contains(x));
                assert(b.contains(x));
                let q = choose|q: int| 0 <= q < b.len() && b[q] == x;
                if q == 0 {
                    assert(lex_lt(a[0], a[p + 1]));
                    lemma_lex_lt_irrefl(a[0]);
                }
                assert(bt[q - 1] == x);
            }
            if bt.contains(x) {
                let p = choose|p: int| 0 <= p < bt.len() && bt[p] == x;
                assert(b[p + 1] == x);
                assert(b.contains(x));
                assert(a.contains(x));
                let q = choose|q: int| 0 <= q < a.len() && a[q] == x;
                if q == 0 {
                    assert(lex_lt(b[0], b[p + 1]));
                    lemma_lex_lt_irrefl(b[0]);
                }
                assert(at[q - 1] == x);
            }
        }
        lemma_key_order_canonical(at, bt);
        assert forall|x: int| 0 <= x < a.len() implies a[x] == b[x] by {
            if x > 0 {
                assert(at[x - 1] == a[x]);
                assert(bt[x - 1] == b[x]);
            }
        }
        assert(a =~= b);
    }
}

/// The key sequence of a parsed comment block: strictly sorted, and holding
/// exactly the keys referenced inline on the lines the block keeps.
pub proof fn lemma_build_comment_keys(run: Seq<Seq<char>>)
    ensures
        sorted_strict(build_comment(run).keys),
        forall|x: Seq<char>|
            #[trigger] build_comment(run).keys.contains(x) <==> exists|i: int|
                0 <= i < run.len() && !line_dropped(#[trigger] run[i]) && scan_keys(
                    run[i],
                ).contains(x),
    decreases run.len(),
{
    if run.len() == 0 {
    } else {
        lemma_build_comment_keys(run.drop_last());
        let prev = build_comment(run.drop_last());
        if line_dropped(run.last()) {
            assert forall|x: Seq<char>| #[trigger] build_comment(run).keys.contains(x) implies
                exists|i: int|
                0 <= i < run.len() && !line_dropped(#[trigger] run[i]) && scan_keys(
                    run[i],
                ).contains(x) by {
                let i = choose|i: int|
                    0 <= i < run.drop_last().len() && !line_dropped(#[trigger] run.drop_last()[i])
                        && scan_keys(run.drop_last()[i]).contains(x);
                assert(run[i] == run.drop_last()[i]);
                assert(!line_dropped(run[i]) && scan_keys(run[i]).contains(x));
            }
            assert forall|x: Seq<char>|
                (exists|i: int|
                    0 <= i < run.len() && !line_dropped(#[trigger] run[i]) && scan_keys(
                        run[i],
                    ).contains(x)) implies #[trigger] build_comment(run).keys.contains(x) by {
                let i = choose|i: int|
                    0 <= i < run.len() && !line_dropped(#[trigger] run[i]) && scan_keys(
                        run[i],
                    ).contains(x);
                assert(i < run.len() - 1);
                assert(run.drop_last()[i] == run[i]);
            }
        } else {
            lemma_add_keys_props(prev.keys, scan_keys(run.last()));
            assert forall|x: Seq<char>| #[trigger] build_comment(run).keys.contains(x) implies
                exists|i: int|
                0 <= i < run.len() && !line_dropped(#[trigger] run[i]) && scan_keys(
                    run[i],
                ).contains(x) by {
                if prev.keys.contains(x) {
                    let i = choose|i: int|
                        0 <= i < run.drop_last().len() && !line_dropped(
                            #[trigger] run.drop_last()[i],
                        ) && scan_keys(run.drop_last()[i]).contains(x);
                    assert(run[i] == run.drop_last()[i]);
                    assert(!line_dropped(run[i]) && scan_keys(run[i]).contains(x));
                } else {
                    assert(scan_keys(run.last()).contains(x));
                    assert(run[run.len() - 1] == run.last());
                    assert(!line_dropped(run[run.len() - 1]) && scan_keys(
                        run[run.len() - 1],
                    ).contains(x));
                }
            }
            assert forall|x: Seq<char>|
                (exists|i: int|
                    0 <= i < run.len() && !line_dropped(#[trigger] run[i]) && scan_keys(
                        run[i],
                    ).contains(x)) implies #[trigger] build_comment(run).keys.contains(x) by {
                let i = choose|i: int|
                    0 <= i < run.len() && !line_dropped(#[trigger] run[i]) && scan_keys(
                        run[i],
                    ).contains(x);
                if i < run.len() - 1 {
                    assert(run.drop_last()[i] == run[i]);
                }
            }
        }
    }
}

// ------------------------- round trip -------------------------
proof fn lemma_p1_cont(run: Seq<Seq<char>>, kind: bool, rest: Seq<Seq<char>>)
    requires
        forall|j: int| 0 <= j < run.len() ==> !line_dropped(#[trigger] run[j]),
        forall|j: int| 0 <= j < rest.len() ==> !line_dropped(#[trigger] rest[j]),
    ensures
        blocks_text(parse_cont(run, kind, rest)) == join_lines(run) + join_lines(rest),
    decreases rest.len(), 1int,
{
    if rest.len() == 0 {
        lemma_blocks_text_single(mk_block(run, kind));
        if kind {
            lemma_build_comment_nodrop(run);
        }
        assert(block_lines(mk_block(run, kind)) == run);
        assert(join_lines(run) + join_lines(rest) =~= join_lines(run));
    } else if is_comment_line(rest[0]) == kind {
        let run2 = run.push(rest[0]);
        assert forall|j: int| 0 <= j < run2.len() implies !line_dropped(#[trigger] run2[j]) by {
            if j < run.len() {
                assert(run2[j] == run[j]);
            } else {
                assert(run2[j] == rest[0]);
            }
        }
        assert forall|j: int| 0 <= j < rest.skip(1).len() implies !line_dropped(
            #[trigger] rest.skip(1)[j],
        ) by {
            assert(rest.skip(1)[j] == rest[j + 1]);
        }
        lemma_p1_cont(run2, kind, rest.skip(1));
        assert(run2.drop_last() =~= run);
        assert(join_lines(run2) == join_lines(run) + rest[0] + seq!['\n']);
        lemma_join_concat(seq![rest[0]], rest.skip(1));
        assert(seq![rest[0]] + rest.skip(1) =~= rest);
        lemma_join_single(rest[0]);
        assert((join_lines(run) + rest[0] + seq!['\n']) + join_lines(rest.skip(1)) =~= join_lines(
            run,
        ) + ((rest[0] + seq!['\n']) + join_lines(rest.skip(1))));
    } else {
        lemma_p1_parse(rest);
        lemma_blocks_text_concat(seq![mk_block(run, kind)], parse(rest));
        lemma_blocks_text_single(mk_block(run, kind));
        if kind {
            lemma_build_comment_nodrop(run);
        }
        assert(block_lines(mk_block(run, kind)) == run);
    }
}

proof fn lemma_p1_parse(lines: Seq<Seq<char>>)
    requires
        forall|j: int| 0 <= j < lines.len() ==> !line_dropped(#[trigger] lines[j]),
    ensures
        blocks_text(parse(lines)) == join_lines(lines),
    decreases lines.len(), 0int,
{
    if lines.len() == 0 {
    } else {
        assert forall|j: int| 0 <= j < lines.skip(1).len() implies !line_dropped(
            #[trigger] lines.skip(1)[j],
        ) by {
            assert(lines.skip(1)[j] == lines[j + 1]);
        }
        lemma_p1_cont(seq![lines[0]], is_comment_line(lines[0]), lines.skip(1));
        lemma_join_concat(seq![lines[0]], lines.skip(1));
        assert(seq![lines[0]] + lines.skip(1) =~= lines);
        lemma_join_single(lines[0]);
    }
}

/// Round-trip identity: a file none of whose lines carries an inline
/// citation marker serializes, after parsing, to exactly the text it came
/// from: every line kept, in order, each closed by a line terminator.
pub proof fn lemma_round_trip(lines: Seq<Seq<char>>)
    requires
        forall|i: int| 0 <= i < lines.len() ==> !has_cite(#[trigger] lines[i]),
    ensures
        blocks_text(parse(lines)) == join_lines(lines),
{
    assert forall|j: int| 0 <= j < lines.len() implies !line_dropped(#[trigger] lines[j]) by {
        assert(!has_cite(lines[j]));
    }
    lemma_p1_parse(lines);
}

// ------------------------- block alternation -------------------------
/// How many maximal same-kind runs follow, given the kind of the run in
/// progress.
pub open spec fn maximal_runs_from(kind: bool, rest: Seq<Seq<char>>) -> int
    decreases rest.len(),
{
    if rest.len() == 0 {
        1
    } else if is_comment_line(rest[0]) == kind {
        maximal_runs_from(kind, rest.skip(1))
    } else {
        1 + maximal_runs_from(is_comment_line(rest[0]), rest.skip(1))
    }
}

/// The number of maximal same-kind runs in a sequence of lines.
pub open spec fn maximal_runs(lines: Seq<Seq<char>>) -> int {
    if lines.len() == 0 {
        0
    } else {
        maximal_runs_from(is_comment_line(lines[0]), lines.skip(1))
    }
}

proof fn lemma_alt_cont(run: Seq<Seq<char>>, kind: bool, rest: Seq<Seq<char>>)
    ensures
        parse_cont(run, kind, rest).len() == maximal_runs_from(kind, rest),
        parse_cont(run, kind, rest).len() >= 1,
        block_is_comment(parse_cont(run, kind, rest)[0]) == kind,
        forall|i: int|
            0 <= i && i + 1 < parse_cont(run, kind, rest).len() ==> block_is_comment(
                #[trigger] parse_cont(run, kind, rest)[i],
            ) != block_is_comment(parse_cont(run, kind, rest)[i + 1]),
    decreases rest.len(), 1int,
{
    let out = parse_cont(run, kind, rest);
    if rest.len() == 0 {
    } else if is_comment_line(rest[0]) == kind {
        lemma_alt_cont(run.push(rest[0]), kind, rest.skip(1));
    } else {
        lemma_alt_parse(rest);
        let sub = parse(rest);
        assert(out == seq![mk_block(run, kind)] + sub);
        assert(out[0] == mk_block(run, kind));
        assert forall|i: int| 0 <= i && i + 1 < out.len() implies block_is_comment(
            #[trigger] out[i],
        ) != block_is_comment(out[i + 1]) by {
            if i == 0 {
                assert(out[1] == sub[0]);
            } else {
                assert(out[i] == sub[i - 1]);
                assert(out[i + 1] == sub[i]);
            }
        }
    }
}

proof fn lemma_alt_parse(lines: Seq<Seq<char>>)
    ensures
        parse(lines).len() == maximal_runs(lines),
        lines.len() > 0 ==> parse(lines).len() >= 1 && block_is_comment(parse(lines)[0])
            == is_comment_line(lines[0]),
        forall|i: int|
            0 <= i && i + 1 < parse(lines).len() ==> block_is_comment(#[trigger] parse(lines)[i])
                != block_is_comment(parse(lines)[i + 1]),
    decreases lines.len(), 0int,
{
    if lines.len() == 0 {
    } else {
        lemma_alt_cont(seq![lines[0]], is_comment_line(lines[0]), lines.skip(1));
    }
}

/// Block alternation: parsing never yields two adjacent blocks of the same
/// kind, and the number of blocks equals the number of maximal same-kind
/// runs in the input.
pub proof fn lemma_block_alternation(lines: Seq<Seq<char>>)
    ensures
        parse(lines).len() == maximal_runs(lines),
        forall|i: int|
            0 <= i && i + 1 < parse(lines).len() ==> block_is_comment(#[trigger] parse(lines)[i])
                != block_is_comment(parse(lines)[i + 1]),
{
    lemma_alt_parse(lines);
}

// ------------------------- missing keys -------------------------
/// How many keys of `ks` have rendered text in `m`.
pub open spec fn resolvable_count(ks: Seq<Seq<char>>, m: Map<Seq<char>, Seq<char>>) -> int
    decreases ks.len(),
{
    if ks.len() == 0 {
        0
    } else if m.contains_key(ks[0]) {
        1 + resolvable_count(ks.skip(1), m)
    } else {
        resolvable_count(ks.skip(1), m)
    }
}

/// Missing-key omission: one footnote line is emitted per resolvable key
/// and none for the rest; a block none of whose keys resolves gains no
/// footnote lines at all.
pub proof fn lemma_missing_key_omitted(
    p: Seq<char>,
    ks: Seq<Seq<char>>,
    m: Map<Seq<char>, Seq<char>>,
)
    ensures
        footnote_lines(p, ks, m).len() == resolvable_count(ks, m),
        (forall|i: int| 0 <= i < ks.len() ==> !m.contains_key(#[trigger] ks[i]))
            ==> footnote_lines(p, ks, m) == Seq::<Seq<char>>::empty(),
    decreases ks.len(),
{
    if ks.len() == 0 {
        assert(footnote_lines(p, ks, m) =~= Seq::<Seq<char>>::empty());
    } else {
        lemma_missing_key_omitted(p, ks.skip(1), m);
        if forall|i: int| 0 <= i < ks.len() ==> !m.contains_key(#[trigger] ks[i]) {
            assert(!m.contains_key(ks[0]));
            assert forall|i: int| 0 <= i < ks.skip(1).len() implies !m.contains_key(
                #[trigger] ks.skip(1)[i],
            ) by {
                assert(ks.skip(1)[i] == ks[i + 1]);
            }
        }
    }
}

// ------------------------- blank-line policy -------------------------
/// Blank-line policy: when some key resolves and the block's last line is
/// neither a footnote definition nor already the bare prefix, exactly one
/// blank comment line is inserted before the footnotes; when the last line
/// is already a footnote definition, none is.
pub proof fn lemma_blank_line_policy(cv: CommentView, m: Map<Seq<char>, Seq<char>>)
    requires
        cv.lines.len() > 0,
    ensures
        needs_blank(cv, m) ==> comment_cite_spec(cv, m).lines == cv.lines + seq![
            comment_prefix(cv.lines[0]),
        ] + footnote_lines(comment_prefix(cv.lines[0]), cv.keys, m),
        is_generic_footnote(cv.lines.last()) ==> comment_cite_spec(cv, m).lines == cv.lines
            + footnote_lines(comment_prefix(cv.lines[0]), cv.keys, m),
{
    let p = comment_prefix(cv.lines[0]);
    if needs_blank(cv, m) {
        assert(cv.lines.push(p) =~= cv.lines + seq![p]);
    }
}


/// Every citation footnote definition is also a generic footnote
/// definition: the generic recognizer accepts a superset of the lines the
/// citation recognizer accepts, which is what the blank-line policy relies
/// on.
pub proof fn lemma_cite_footnote_is_generic(s: Seq<char>)
    requires
        is_cite_footnote(s),
    ensures
        is_generic_footnote(s),
{
    let q = footnote_start(s);
    let j = choose|j: int|
        q + 3 <= j && j + 1 < s.len() && #[trigger] s[j] == ']' && s[j + 1] == ':';
    assert(q + 2 <= j && j + 1 < s.len() && s[j] == ']' && s[j + 1] == ':');
}

// ------------------------- footnote line shape -------------------------
/// The shape of a comment marker text: optional whitespace, then `//`,
/// then `/` or `!`, and nothing after.
pub open spec fn prefix_shape(p: Seq<char>) -> bool {
    &&& p.len() >= 3
    &&& ws_len(p) == p.len() - 3
    &&& p[p.len() - 3] == '/'
    &&& p[p.len() - 2] == '/'
    &&& (p[p.len() - 1] == '/' || p[p.len() - 1] == '!')
}

/// The prefix matched on a comment line has that shape.
proof fn lemma_comment_prefix_shape(s: Seq<char>)
    requires
        is_comment_line(s),
    ensures
        prefix_shape(comment_prefix(s)),
        comment_prefix(s).len() == ws_len(s) + 3,
{
    let w = ws_len(s);
    let p = comment_prefix(s);
    lemma_ws_len(s);
    assert(p.len() == w + 3);
    assert forall|j: int| 0 <= j < w implies is_space(#[trigger] p[j]) by {
        assert(p[j] == s[j]);
    }
    assert(p[w] == s[w]);
    lemma_ws_len_unique(p, w);
    assert(p[p.len() - 3] == s[w]);
    assert(p[p.len() - 2] == s[w + 1]);
    assert(p[p.len() - 1] == s[w + 2]);
}

/// Nothing opens an inline citation in text without `[`.
proof fn lemma_scan_no_open(s: Seq<char>)
    requires
        forall|i: int| 0 <= i < s.len() ==> #[trigger] s[i] != '[',
    ensures
        scan_keys(s).len() == 0,
    decreases s.len(),
{
    if s.len() < 4 {
    } else {
        assert(!cite_open_at(s, 0));
        assert forall|i: int| 0 <= i < s.skip(1).len() implies #[trigger] s.skip(1)[i] != '[' by {
            assert(s.skip(1)[i] == s[i + 1]);
        }
        lemma_scan_no_open(s.skip(1));
    }
}

/// A bare comment marker line: it is a comment line, matches no pattern
/// beyond that, and is its own prefix.
proof fn lemma_prefix_line(p: Seq<char>)
    requires
        prefix_shape(p),
    ensures
        is_comment_line(p),
        comment_prefix(p) == p,
        scan_keys(p).len() == 0,
        !line_dropped(p),
        !is_generic_footnote(p),
{
    let w = p.len() - 3;
    assert(ws_len(p) == w);
    assert(is_comment_line(p));
    assert(comment_prefix(p) =~= p);
    lemma_ws_len(p);
    assert forall|i: int| 0 <= i < p.len() implies #[trigger] p[i] != '[' by {
        if i < w {
            assert(is_space(p[i]));
        }
    }
    lemma_scan_no_open(p);
    assert(p.skip(marker_end(p)) =~= Seq::<char>::empty());
    assert(footnote_start(p) == p.len());
}

/// An inline marker that opens somewhere and closes before any line break
/// guarantees at least one key is scanned.
proof fn lemma_scan_finds(s: Seq<char>, i: int)
    requires
        cite_open_at(s, i),
        close_pos(s.skip(i + 3)) >= 0,
    ensures
        scan_keys(s).len() > 0,
    decreases i,
{
    lemma_close_pos_bound(s.skip(i + 3));
    assert(s.len() >= i + 4);
    if i == 0 {
    } else {
        if s.len() >= 4 && cite_open_at(s, 0) && close_pos(s.skip(3)) >= 0 {
        } else {
            let t = s.skip(1);
            assert(cite_open_at(t, i - 1)) by {
                assert(t[i - 1] == s[i]);
                assert(t[i] == s[i + 1]);
                assert(t[i + 1] == s[i + 2]);
            }
            assert(t.skip(i + 2) =~= s.skip(i + 3));
            lemma_scan_finds(t, i - 1);
            assert(scan_keys(s) == scan_keys(t));
        }
    }
}

/// Scanned keys never contain a closing bracket or a line break.
proof fn lemma_scan_keys_chars(s: Seq<char>)
    ensures
        forall|ki: int, c: int|
            0 <= ki < scan_keys(s).len() && 0 <= c < scan_keys(s)[ki].len()
                ==> #[trigger] scan_keys(s)[ki][c] != ']' && scan_keys(s)[ki][c] != '\n',
    decreases s.len(),
{
    if s.len() < 4 {
    } else if cite_open_at(s, 0) && close_pos(s.skip(3)) >= 0 {
        let j = close_pos(s.skip(3));
        lemma_close_pos_bound(s.skip(3));
        lemma_scan_keys_chars(s.skip(4 + j));
        let key = s.subrange(3, 3 + j);
        assert forall|ki: int, c: int|
            0 <= ki < scan_keys(s).len() && 0 <= c < scan_keys(s)[ki].len() implies #[trigger] scan_keys(
            s,
        )[ki][c] != ']' && scan_keys(s)[ki][c] != '\n' by {
            if ki == 0 {
                assert(scan_keys(s)[0] == key);
                assert(key[c] == s.skip(3)[c]);
            } else {
                assert(scan_keys(s)[ki] == scan_keys(s.skip(4 + j))[ki - 1]);
                assert(scan_keys(s)[ki][c] == scan_keys(s.skip(4 + j))[ki - 1][c]);
            }
        }
    } else {
        lemma_scan_keys_chars(s.skip(1));
        assert forall|ki: int, c: int|
            0 <= ki < scan_keys(s).len() && 0 <= c < scan_keys(s)[ki].len() implies #[trigger] scan_keys(
            s,
        )[ki][c] != ']' && scan_keys(s)[ki][c] != '\n' by {
            assert(scan_keys(s)[ki] == scan_keys(s.skip(1))[ki]);
            assert(scan_keys(s)[ki][c] == scan_keys(s.skip(1))[ki][c]);
        }
    }
}

/// A footnote line written by the engine under a well-shaped prefix, for a
/// key without closing bracket or line break, is itself recognized as a
/// citation footnote definition on a comment line: re-parsing drops it.
proof fn lemma_footnote_line_dropped(p: Seq<char>, k: Seq<char>, t: Seq<char>)
    requires
        prefix_shape(p),
        forall|c: int| 0 <= c < k.len() ==> #[trigger] k[c] != ']' && k[c] != '\n',
    ensures
        is_comment_line(footnote_line(p, k, t)),
        line_dropped(footnote_line(p, k, t)),
    decreases p.len(),
{
    reveal_strlit(" [^@");
    reveal_strlit("]: ");
    let lit1 = (" [^@")@;
    let lit2 = ("]: ")@;
    assert(lit1.len() == 4);
    assert(lit2.len() == 3);
    let f = footnote_line(p, k, t);
    let w = p.len() - 3;
    assert(f.len() == p.len() + 4 + k.len() + 3 + t.len());
    lemma_ws_len(p);
    assert forall|j: int| 0 <= j < p.len() implies #[trigger] f[j] == p[j] by {}
    assert forall|j: int| 0 <= j < 4 implies #[trigger] f[p.len() + j] == lit1[j] by {}
    assert forall|j: int| 0 <= j < k.len() implies #[trigger] f[p.len() + 4 + j] == k[j] by {}
    assert forall|j: int| 0 <= j < 3 implies #[trigger] f[p.len() + 4 + k.len() + j] == lit2[j]
        by {}
    // the whitespace run and the marker are those of the prefix
    assert forall|j: int| 0 <= j < w implies is_space(#[trigger] f[j]) by {
        assert(f[j] == p[j]);
    }
    assert(f[w] == p[w]);
    lemma_ws_len_unique(f, w);
    assert(is_comment_line(f));
    // after the marker: one space, then the opening of the definition
    let gap = f.skip(w + 3);
    assert(gap[0] == lit1[0]);
    assert(gap[1] == lit1[1]);
    assert(is_space(lit1[0]));
    assert(!is_space(lit1[1]));
    assert forall|j: int| 0 <= j < 1 implies is_space(#[trigger] gap[j]) by {}
    lemma_ws_len_unique(gap, 1);
    let q = footnote_start(f);
    assert(q == p.len() + 1);
    assert(f[q] == lit1[1]);
    assert(f[q + 1] == lit1[2]);
    assert(f[q + 2] == lit1[3]);
    // the closing of the definition
    let close: int = p.len() + 4 + k.len() as int;
    assert(f[close] == lit2[0]);
    assert(f[close + 1] == lit2[1]);
    assert(q + 3 <= close && close + 1 < f.len() && f[close] == ']' && f[close + 1] == ':');
    assert(is_cite_footnote(f));
    // the line still carries an inline marker, so the scan sees it
    assert(cite_open_at(f, q));
    let rest = f.skip(q + 3);
    assert forall|c: int| 0 <= c < k.len() implies #[trigger] rest[c] != ']' && rest[c] != '\n'
        by {
        assert(rest[c] == f[q + 3 + c]);
        assert(f[p.len() + 4 + c] == k[c]);
    }
    assert(rest[k.len() as int] == f[close]);
    lemma_close_pos_unique(rest, k.len() as int);
    assert(close_pos(rest) == k.len());
    lemma_scan_finds(f, q);
}

/// Every emitted footnote line is a comment line that re-parsing drops.
proof fn lemma_footnote_lines_dropped(p: Seq<char>, ks: Seq<Seq<char>>, m: Map<Seq<char>, Seq<char>>)
    requires
        prefix_shape(p),
        forall|ki: int, c: int|
            0 <= ki < ks.len() && 0 <= c < ks[ki].len() ==> #[trigger] ks[ki][c] != ']'
                && ks[ki][c] != '\n',
    ensures
        forall|i: int|
            0 <= i < footnote_lines(p, ks, m).len() ==> is_comment_line(
                #[trigger] footnote_lines(p, ks, m)[i],
            ) && line_dropped(footnote_lines(p, ks, m)[i]),
    decreases ks.len(),
{
    if ks.len() == 0 {
    } else {
        assert forall|ki: int, c: int|
            0 <= ki < ks.skip(1).len() && 0 <= c < ks.skip(1)[ki].len() implies #[trigger] ks.skip(
            1,
        )[ki][c] != ']' && ks.skip(1)[ki][c] != '\n' by {
            assert(ks.skip(1)[ki] == ks[ki + 1]);
        }
        lemma_footnote_lines_dropped(p, ks.skip(1), m);
        let out = footnote_lines(p, ks, m);
        if m.contains_key(ks[0]) {
            assert(forall|c: int|
                0 <= c < ks[0].len() ==> #[trigger] ks[0][c] != ']' && ks[0][c] != '\n');
            lemma_footnote_line_dropped(p, ks[0], m[ks[0]]);
        }
        assert forall|i: int| 0 <= i < out.len() implies is_comment_line(#[trigger] out[i])
            && line_dropped(out[i]) by {
            if m.contains_key(ks[0]) {
                if i > 0 {
                    assert(out[i] == footnote_lines(p, ks.skip(1), m)[i - 1]);
                }
            } else {
                assert(out[i] == footnote_lines(p, ks.skip(1), m)[i]);
            }
        }
    }
}


// ------------------------- idempotence -------------------------
/// Every line of every block, in document order.
pub open spec fn all_lines(bs: Seq<BlockView>) -> Seq<Seq<char>>
    decreases bs.len(),
{
    if bs.len() == 0 {
        seq![]
    } else {
        block_lines(bs[0]) + all_lines(bs.skip(1))
    }
}

/// The lines written out after parsing and citing the given lines once.
pub open spec fn cited_lines(lines: Seq<Seq<char>>, m: Map<Seq<char>, Seq<char>>) -> Seq<
    Seq<char>,
> {
    all_lines(cite_blocks(parse(lines), m))
}

proof fn lemma_all_lines_concat(a: Seq<BlockView>, b: Seq<BlockView>)
    ensures
        all_lines(a + b) == all_lines(a) + all_lines(b),
    decreases a.len(),
{
    if a.len() == 0 {
        assert(a + b =~= b);
        assert(all_lines(a) + all_lines(b) =~= all_lines(b));
    } else {
        assert((a + b).skip(1) =~= a.skip(1) + b);
        assert((a + b)[0] == a[0]);
        lemma_all_lines_concat(a.skip(1), b);
        assert(block_lines(a[0]) + (all_lines(a.skip(1)) + all_lines(b)) =~= (block_lines(a[0])
            + all_lines(a.skip(1))) + all_lines(b));
    }
}

proof fn lemma_all_lines_single(b: BlockView)
    ensures
        all_lines(seq![b]) == block_lines(b),
{
    assert(seq![b][0] == b);
    assert(seq![b].skip(1) =~= Seq::<BlockView>::empty());
    assert(all_lines(seq![b].skip(1)) =~= Seq::<Seq<char>>::empty());
    assert(all_lines(seq![b]) =~= block_lines(b));
}

proof fn lemma_cite_blocks_concat(a: Seq<BlockView>, b: Seq<BlockView>, m: Map<Seq<char>, Seq<char>>)
    ensures
        cite_blocks(a + b, m) == cite_blocks(a, m) + cite_blocks(b, m),
{
    assert(cite_blocks(a + b, m) =~= cite_blocks(a, m) + cite_blocks(b, m));
}

proof fn lemma_cite_blocks_single(b: BlockView, m: Map<Seq<char>, Seq<char>>)
    ensures
        cite_blocks(seq![b], m) == seq![block_cite_spec(b, m)],
{
    assert(cite_blocks(seq![b], m) =~= seq![block_cite_spec(b, m)]);
}

/// The serialized text is the join of all block lines.
proof fn lemma_blocks_text_join(bs: Seq<BlockView>)
    ensures
        blocks_text(bs) == join_lines(all_lines(bs)),
    decreases bs.len(),
{
    if bs.len() == 0 {
        assert(join_lines(all_lines(bs)) =~= blocks_text(bs));
    } else {
        lemma_blocks_text_join(bs.drop_last());
        assert(bs.drop_last() + seq![bs.last()] =~= bs);
        lemma_all_lines_concat(bs.drop_last(), seq![bs.last()]);
        lemma_all_lines_single(bs.last());
        lemma_join_concat(all_lines(bs.drop_last()), block_lines(bs.last()));
    }
}

/// Re-feeding the lines a comment block kept rebuilds the same block.
proof fn lemma_build_rebuild(run: Seq<Seq<char>>)
    ensures
        build_comment(build_comment(run).lines) == build_comment(run),
    decreases run.len(),
{
    if run.len() == 0 {
        assert(build_comment(run).lines.len() == 0);
    } else {
        lemma_build_rebuild(run.drop_last());
        let prev = build_comment(run.drop_last());
        if line_dropped(run.last()) {
        } else {
            assert(prev.lines.push(run.last()).drop_last() =~= prev.lines);
            assert(prev.lines.push(run.last()).last() == run.last());
        }
    }
}

/// Appending only droppable lines leaves the built block unchanged.
proof fn lemma_build_append_dropped(a: Seq<Seq<char>>, f: Seq<Seq<char>>)
    requires
        forall|j: int| 0 <= j < f.len() ==> line_dropped(#[trigger] f[j]),
    ensures
        build_comment(a + f) == build_comment(a),
    decreases f.len(),
{
    if f.len() == 0 {
        assert(a + f =~= a);
    } else {
        assert((a + f).drop_last() =~= a + f.drop_last());
        assert((a + f).last() == f.last());
        assert(line_dropped(f.last()));
        assert forall|j: int| 0 <= j < f.drop_last().len() implies line_dropped(
            #[trigger] f.drop_last()[j],
        ) by {
            assert(f.drop_last()[j] == f[j]);
        }
        lemma_build_append_dropped(a, f.drop_last());
    }
}

/// A block built from comment lines keeps only comment lines.
proof fn lemma_build_lines_comment(run: Seq<Seq<char>>)
    requires
        forall|j: int| 0 <= j < run.len() ==> is_comment_line(#[trigger] run[j]),
    ensures
        forall|i: int|
            0 <= i < build_comment(run).lines.len() ==> is_comment_line(
                #[trigger] build_comment(run).lines[i],
            ),
    decreases run.len(),
{
    if run.len() > 0 {
        assert forall|j: int| 0 <= j < run.drop_last().len() implies is_comment_line(
            #[trigger] run.drop_last()[j],
        ) by {
            assert(run.drop_last()[j] == run[j]);
        }
        lemma_build_lines_comment(run.drop_last());
        let prev = build_comment(run.drop_last());
        if !line_dropped(run.last()) {
            assert forall|i: int| 0 <= i < build_comment(run).lines.len() implies is_comment_line(
                #[trigger] build_comment(run).lines[i],
            ) by {
                if i < prev.lines.len() {
                    assert(build_comment(run).lines[i] == prev.lines[i]);
                } else {
                    assert(build_comment(run).lines[i] == run.last());
                    assert(run[run.len() - 1] == run.last());
                }
            }
        }
    }
}

/// The keys a block collects never contain a closing bracket or a line
/// break: they came out of the inline-marker scan.
proof fn lemma_build_keys_clean(run: Seq<Seq<char>>)
    ensures
        forall|ki: int, c: int|
            0 <= ki < build_comment(run).keys.len() && 0 <= c < build_comment(run).keys[ki].len()
                ==> #[trigger] build_comment(run).keys[ki][c] != ']' && build_comment(
                run,
            ).keys[ki][c] != '\n',
{
    lemma_build_comment_keys(run);
    assert forall|ki: int, c: int|
        0 <= ki < build_comment(run).keys.len() && 0 <= c < build_comment(run).keys[ki].len()
            implies #[trigger] build_comment(run).keys[ki][c] != ']' && build_comment(
        run,
    ).keys[ki][c] != '\n' by {
        let x = build_comment(run).keys[ki];
        assert(build_comment(run).keys.contains(x));
        let i = choose|i: int|
            0 <= i < run.len() && !line_dropped(#[trigger] run[i]) && scan_keys(run[i]).contains(x);
        lemma_scan_keys_chars(run[i]);
        let pos = choose|pos: int|
            0 <= pos < scan_keys(run[i]).len() && scan_keys(run[i])[pos] == x;
        assert(scan_keys(run[i])[pos][c] != ']' && scan_keys(run[i])[pos][c] != '\n');
    }
}

/// Length of the prefix of `rest` that continues a run of the given kind.
pub open spec fn same_kind_run(kind: bool, rest: Seq<Seq<char>>) -> int
    decreases rest.len(),
{
    if rest.len() == 0 || is_comment_line(rest[0]) != kind {
        0
    } else {
        1 + same_kind_run(kind, rest.skip(1))
    }
}

proof fn lemma_same_kind_run(kind: bool, rest: Seq<Seq<char>>)
    ensures
        0 <= same_kind_run(kind, rest) <= rest.len(),
        forall|j: int|
            0 <= j < same_kind_run(kind, rest) ==> is_comment_line(#[trigger] rest[j]) == kind,
        same_kind_run(kind, rest) < rest.len() ==> is_comment_line(rest[same_kind_run(kind, rest)])
            != kind,
    decreases rest.len(),
{
    if rest.len() == 0 || is_comment_line(rest[0]) != kind {
    } else {
        lemma_same_kind_run(kind, rest.skip(1));
        let e = same_kind_run(kind, rest);
        assert forall|j: int| 0 <= j < e implies is_comment_line(#[trigger] rest[j]) == kind by {
            if j > 0 {
                assert(rest.skip(1)[j - 1] == rest[j]);
            }
        }
        if e < rest.len() {
            assert(rest.skip(1)[e - 1] == rest[e]);
        }
    }
}

proof fn lemma_same_kind_run_unique(kind: bool, rest: Seq<Seq<char>>, e0: int)
    requires
        0 <= e0 <= rest.len(),
        forall|j: int| 0 <= j < e0 ==> is_comment_line(#[trigger] rest[j]) == kind,
        e0 < rest.len() ==> is_comment_line(rest[e0]) != kind,
    ensures
        same_kind_run(kind, rest) == e0,
    decreases rest.len(),
{
    if e0 == 0 {
    } else {
        assert(is_comment_line(rest[0]) == kind);
        assert forall|j: int| 0 <= j < e0 - 1 implies is_comment_line(#[trigger] rest.skip(1)[j])
            == kind by {
            assert(rest.skip(1)[j] == rest[j + 1]);
        }
        if e0 - 1 < rest.skip(1).len() {
            assert(rest.skip(1)[e0 - 1] == rest[e0]);
        }
        lemma_same_kind_run_unique(kind, rest.skip(1), e0 - 1);
    }
}

/// Parsing, one full run at a time: the continuation absorbs the rest of
/// the current run and then parses what follows.
proof fn lemma_parse_cont_run(run: Seq<Seq<char>>, kind: bool, rest: Seq<Seq<char>>)
    ensures
        parse_cont(run, kind, rest) == seq![
            mk_block(run + rest.take(same_kind_run(kind, rest)), kind),
        ] + parse(rest.skip(same_kind_run(kind, rest))),
    decreases rest.len(),
{
    let e = same_kind_run(kind, rest);
    if rest.len() == 0 || is_comment_line(rest[0]) != kind {
        assert(rest.take(0) =~= Seq::<Seq<char>>::empty());
        assert(run + rest.take(0) =~= run);
        assert(rest.skip(0) =~= rest);
        if rest.len() == 0 {
            assert(seq![mk_block(run, kind)] + parse(rest) =~= seq![mk_block(run, kind)]);
        }
    } else {
        lemma_parse_cont_run(run.push(rest[0]), kind, rest.skip(1));
        let e2 = same_kind_run(kind, rest.skip(1));
        lemma_same_kind_run(kind, rest.skip(1));
        assert(e == 1 + e2);
        assert(run.push(rest[0]) + rest.skip(1).take(e2) =~= run + rest.take(e));
        assert(rest.skip(1).skip(e2) =~= rest.skip(e));
    }
}

/// Leading code lines pass through citing unchanged, whatever follows.
proof fn lemma_code_absorb_cont(
    run: Seq<Seq<char>>,
    rest: Seq<Seq<char>>,
    m: Map<Seq<char>, Seq<char>>,
)
    ensures
        all_lines(cite_blocks(parse_cont(run, false, rest), m)) == run + all_lines(
            cite_blocks(parse(rest), m),
        ),
    decreases rest.len(),
{
    if rest.len() == 0 {
        lemma_cite_blocks_single(mk_block(run, false), m);
        lemma_all_lines_single(block_cite_spec(mk_block(run, false), m));
        assert(block_lines(block_cite_spec(mk_block(run, false), m)) == run);
        assert(parse(rest) == Seq::<BlockView>::empty());
        assert(cite_blocks(parse(rest), m) =~= Seq::<BlockView>::empty());
        assert(run + all_lines(cite_blocks(parse(rest), m)) =~= run);
    } else if !is_comment_line(rest[0]) {
        lemma_code_absorb_cont(run.push(rest[0]), rest.skip(1), m);
        lemma_code_absorb_cont(seq![rest[0]], rest.skip(1), m);
        assert(parse(rest) == parse_cont(seq![rest[0]], false, rest.skip(1)));
        assert(run.push(rest[0]) + all_lines(cite_blocks(parse(rest.skip(1)), m)) =~= run + (seq![
            rest[0],
        ] + all_lines(cite_blocks(parse(rest.skip(1)), m))));
    } else {
        lemma_cite_blocks_concat(seq![mk_block(run, false)], parse(rest), m);
        lemma_cite_blocks_single(mk_block(run, false), m);
        lemma_all_lines_concat(
            cite_blocks(seq![mk_block(run, false)], m),
            cite_blocks(parse(rest), m),
        );
        lemma_all_lines_single(block_cite_spec(mk_block(run, false), m));
        assert(block_lines(block_cite_spec(mk_block(run, false), m)) == run);
    }
}

proof fn lemma_code_absorb(c: Seq<Seq<char>>, tt: Seq<Seq<char>>, m: Map<Seq<char>, Seq<char>>)
    requires
        forall|j: int| 0 <= j < c.len() ==> !is_comment_line(#[trigger] c[j]),
    ensures
        cited_lines(c + tt, m) == c + cited_lines(tt, m),
    decreases c.len(),
{
    if c.len() == 0 {
        assert(c + tt =~= tt);
        assert(c + cited_lines(tt, m) =~= cited_lines(tt, m));
    } else {
        assert((c + tt)[0] == c[0]);
        assert((c + tt).skip(1) =~= c.skip(1) + tt);
        lemma_code_absorb_cont(seq![c[0]], c.skip(1) + tt, m);
        assert forall|j: int| 0 <= j < c.skip(1).len() implies !is_comment_line(
            #[trigger] c.skip(1)[j],
        ) by {
            assert(c.skip(1)[j] == c[j + 1]);
        }
        lemma_code_absorb(c.skip(1), tt, m);
        assert(seq![c[0]] + (c.skip(1) + cited_lines(tt, m)) =~= c + cited_lines(tt, m));
    }
}

/// One comment block survives a cite-serialize-reparse-cite cycle: the
/// appended footnote definitions are dropped again, the optional blank
/// line is kept but triggers no second blank, and the same footnotes are
/// emitted again.
proof fn lemma_comment_block_stable(run: Seq<Seq<char>>, m: Map<Seq<char>, Seq<char>>)
    requires
        forall|j: int| 0 <= j < run.len() ==> is_comment_line(#[trigger] run[j]),
    ensures
        forall|i: int|
            0 <= i < comment_cite_spec(build_comment(run), m).lines.len() ==> is_comment_line(
                #[trigger] comment_cite_spec(build_comment(run), m).lines[i],
            ),
        comment_cite_spec(build_comment(run), m).lines.len() == 0 <==> build_comment(
            run,
        ).lines.len() == 0,
        comment_cite_spec(
            build_comment(comment_cite_spec(build_comment(run), m).lines),
            m,
        ).lines == comment_cite_spec(build_comment(run), m).lines,
{
    let cv = build_comment(run);
    let s = comment_cite_spec(cv, m).lines;
    lemma_build_lines_comment(run);
    lemma_build_keys_clean(run);
    if cv.lines.len() == 0 {
        assert(s == cv.lines);
        assert(s.len() == 0);
        assert(build_comment(s).lines.len() == 0);
        assert(comment_cite_spec(build_comment(s), m).lines =~= s);
    } else {
        let p = comment_prefix(cv.lines[0]);
        lemma_comment_prefix_shape(cv.lines[0]);
        lemma_prefix_line(p);
        let nb = needs_blank(cv, m);
        let base = if nb {
            cv.lines.push(p)
        } else {
            cv.lines
        };
        let ff = footnote_lines(p, cv.keys, m);
        assert(s == base + ff);
        lemma_footnote_lines_dropped(p, cv.keys, m);
        lemma_build_append_dropped(base, ff);
        lemma_build_rebuild(run);
        if nb {
            assert(cv.lines.push(p).drop_last() =~= cv.lines);
            assert(cv.lines.push(p).last() == p);
            assert(!line_dropped(p));
            assert(add_keys(cv.keys, scan_keys(p)) == cv.keys);
            assert(build_comment(base) == CommentView { lines: base, keys: cv.keys });
        } else {
            assert(build_comment(base) == cv);
        }
        let cv2 = build_comment(s);
        assert(cv2.lines == base && cv2.keys == cv.keys);
        assert(base.len() > 0);
        assert(base[0] == cv.lines[0]);
        assert(cv2.lines[0] == cv.lines[0]);
        // the second pass never wants another blank line
        if any_resolvable(cv.keys, m) {
            if nb {
                assert(cv2.lines.last() == p);
                assert(!needs_blank(cv2, m));
            } else {
                assert(cv2.lines.last() == cv.lines.last());
                assert(!needs_blank(cv2, m));
            }
        } else {
            assert(!needs_blank(cv2, m));
        }
        assert(comment_cite_spec(cv2, m).lines == base + footnote_lines(p, cv.keys, m));
        // every written line is a comment line
        assert forall|i: int| 0 <= i < s.len() implies is_comment_line(#[trigger] s[i]) by {
            if i < base.len() {
                assert(s[i] == base[i]);
                if nb && i == base.len() - 1 {
                    assert(base[i] == p);
                } else {
                    assert(base[i] == cv.lines[i]);
                }
            } else {
                assert(s[i] == ff[i - base.len()]);
            }
        }
    }
}

/// Idempotence, line by line: citing the lines a first pass wrote changes
/// nothing, so no duplicate footnotes ever accumulate.
proof fn lemma_out_stable(lines: Seq<Seq<char>>, m: Map<Seq<char>, Seq<char>>)
    ensures
        cited_lines(cited_lines(lines, m), m) == cited_lines(lines, m),
    decreases lines.len(),
{
    let out1 = cited_lines(lines, m);
    if lines.len() == 0 {
        assert(parse(lines) == Seq::<BlockView>::empty());
        assert(cite_blocks(parse(lines), m) =~= Seq::<BlockView>::empty());
        assert(out1 =~= Seq::<Seq<char>>::empty());
        assert(cited_lines(out1, m) =~= out1);
    } else {
        let k0 = is_comment_line(lines[0]);
        let tail = lines.skip(1);
        let e = same_kind_run(k0, tail);
        lemma_same_kind_run(k0, tail);
        let run = seq![lines[0]] + tail.take(e);
        let rest = tail.skip(e);
        lemma_parse_cont_run(seq![lines[0]], k0, tail);
        assert(parse(lines) == seq![mk_block(run, k0)] + parse(rest));
        assert forall|j: int| 0 <= j < run.len() implies is_comment_line(#[trigger] run[j])
            == k0 by {
            if j > 0 {
                assert(run[j] == tail.take(e)[j - 1]);
                assert(tail.take(e)[j - 1] == tail[j - 1]);
            }
        }
        assert(rest.len() < lines.len());
        lemma_out_stable(rest, m);
        let tt = cited_lines(rest, m);
        lemma_cite_blocks_concat(seq![mk_block(run, k0)], parse(rest), m);
        lemma_cite_blocks_single(mk_block(run, k0), m);
        lemma_all_lines_concat(
            seq![block_cite_spec(mk_block(run, k0), m)],
            cite_blocks(parse(rest), m),
        );
        lemma_all_lines_single(block_cite_spec(mk_block(run, k0), m));
        let s = block_lines(block_cite_spec(mk_block(run, k0), m));
        assert(out1 == s + tt);
        // what the lines of the rest start with, after citing
        if rest.len() > 0 {
            assert(is_comment_line(rest[0]) != k0) by {
                assert(rest[0] == tail[e]);
            }
            let e2 = same_kind_run(is_comment_line(rest[0]), rest.skip(1));
            lemma_parse_cont_run(seq![rest[0]], is_comment_line(rest[0]), rest.skip(1));
            let run2 = seq![rest[0]] + rest.skip(1).take(e2);
            assert(parse(rest) == seq![mk_block(run2, is_comment_line(rest[0]))] + parse(
                rest.skip(1).skip(e2),
            ));
            lemma_cite_blocks_concat(
                seq![mk_block(run2, is_comment_line(rest[0]))],
                parse(rest.skip(1).skip(e2)),
                m,
            );
            lemma_cite_blocks_single(mk_block(run2, is_comment_line(rest[0])), m);
            lemma_all_lines_concat(
                seq![block_cite_spec(mk_block(run2, is_comment_line(rest[0])), m)],
                cite_blocks(parse(rest.skip(1).skip(e2)), m),
            );
            lemma_all_lines_single(block_cite_spec(mk_block(run2, is_comment_line(rest[0])), m));
        }
        if !k0 {
            assert(s == run);
            assert(out1 == run + tt);
            lemma_code_absorb(run, tt, m);
            assert(cited_lines(out1, m) == run + cited_lines(tt, m));
            assert(cited_lines(out1, m) == out1);
        } else {
            lemma_comment_block_stable(run, m);
            let cv = build_comment(run);
            assert(s == comment_cite_spec(cv, m).lines);
            if s.len() == 0 {
                assert(out1 =~= tt);
                assert(cited_lines(out1, m) == cited_lines(tt, m));
                assert(cited_lines(out1, m) == out1);
            } else {
                // the rest's written lines start with a code line, if any
                if rest.len() > 0 {
                    let first_cited = block_cite_spec(
                        mk_block(seq![rest[0]] + rest.skip(1).take(
                            same_kind_run(is_comment_line(rest[0]), rest.skip(1)),
                        ), is_comment_line(rest[0])),
                        m,
                    );
                    assert(block_lines(first_cited)[0] == rest[0]);
                    assert(tt.len() > 0 ==> tt[0] == block_lines(first_cited)[0]);
                }
                assert(tt.len() == 0 || !is_comment_line(tt[0]));
                // the first pass's comment block re-parses as one comment run
                assert((s + tt).len() > 0);
                assert((s + tt)[0] == s[0]);
                assert(is_comment_line(s[0]));
                assert((s + tt).skip(1) =~= s.skip(1) + tt);
                assert forall|j: int| 0 <= j < s.len() - 1 implies is_comment_line(
                    #[trigger] (s.skip(1) + tt)[j],
                ) == true by {
                    assert((s.skip(1) + tt)[j] == s[j + 1]);
                }
                if s.len() - 1 < (s.skip(1) + tt).len() {
                    assert((s.skip(1) + tt)[s.len() - 1] == tt[0]);
                }
                lemma_same_kind_run_unique(true, s.skip(1) + tt, s.len() - 1);
                lemma_parse_cont_run(seq![s[0]], true, s.skip(1) + tt);
                assert(seq![s[0]] + (s.skip(1) + tt).take(s.len() - 1) =~= s);
                assert((s.skip(1) + tt).skip(s.len() - 1) =~= tt);
                assert(parse(s + tt) == seq![mk_block(s, true)] + parse(tt));
                lemma_cite_blocks_concat(seq![mk_block(s, true)], parse(tt), m);
                lemma_cite_blocks_single(mk_block(s, true), m);
                lemma_all_lines_concat(
                    seq![block_cite_spec(mk_block(s, true), m)],
                    cite_blocks(parse(tt), m),
                );
                lemma_all_lines_single(block_cite_spec(mk_block(s, true), m));
                assert(block_lines(block_cite_spec(mk_block(s, true), m)) == s);
                assert(cited_lines(out1, m) == s + cited_lines(tt, m));
                assert(cited_lines(out1, m) == out1);
            }
        }
    }
}

/// Idempotence: citing with a map, serializing, re-parsing the written
/// lines and citing again with the same map writes the same lines, and so
/// the same text.  No duplicate footnotes accumulate.
pub proof fn lemma_cite_idempotent(lines: Seq<Seq<char>>, m: Map<Seq<char>, Seq<char>>)
    ensures
        cited_lines(cited_lines(lines, m), m) == cited_lines(lines, m),
        blocks_text(cite_blocks(parse(cited_lines(lines, m)), m)) == blocks_text(
            cite_blocks(parse(lines), m),
        ),
{
    lemma_out_stable(lines, m);
    lemma_blocks_text_join(cite_blocks(parse(cited_lines(lines, m)), m));
    lemma_blocks_text_join(cite_blocks(parse(lines), m));
}


// ------------------------- batch consistency -------------------------
proof fn lemma_batch_accumulate_props(acc: Seq<Seq<char>>, ts: Seq<Seq<char>>)
    requires
        sorted_strict(acc),
    ensures
        sorted_strict(batch_accumulate(acc, ts)),
        forall|x: Seq<char>|
            #[trigger] batch_accumulate(acc, ts).contains(x) <==> (acc.contains(x) || exists|i: int|
                0 <= i < ts.len() && scan_keys(#[trigger] ts[i]).contains(x)),
    decreases ts.len(),
{
    if ts.len() == 0 {
    } else {
        lemma_add_keys_props(acc, scan_keys(ts[0]));
        lemma_batch_accumulate_props(add_keys(acc, scan_keys(ts[0])), ts.skip(1));
        assert forall|x: Seq<char>|
            #[trigger] batch_accumulate(acc, ts).contains(x) <==> (acc.contains(x) || exists|i: int|
                0 <= i < ts.len() && scan_keys(#[trigger] ts[i]).contains(x)) by {
            if batch_accumulate(acc, ts).contains(x) {
                if !acc.contains(x) {
                    if scan_keys(ts[0]).contains(x) {
                        assert(scan_keys(ts[0]).contains(x) && 0 < ts.len());
                    } else {
                        let i = choose|i: int|
                            0 <= i < ts.skip(1).len() && scan_keys(
                                #[trigger] ts.skip(1)[i],
                            ).contains(x);
                        assert(ts.skip(1)[i] == ts[i + 1]);
                        assert(scan_keys(ts[i + 1]).contains(x));
                    }
                }
            }
            if exists|i: int| 0 <= i < ts.len() && scan_keys(#[trigger] ts[i]).contains(x) {
                let i = choose|i: int|
                    0 <= i < ts.len() && scan_keys(#[trigger] ts[i]).contains(x);
                if i > 0 {
                    assert(ts.skip(1)[i - 1] == ts[i]);
                    assert(scan_keys(ts.skip(1)[i - 1]).contains(x));
                }
            }
        }
    }
}

/// Global batch consistency: the key set handed to the single renderer
/// call is sorted, duplicate-free, and holds exactly the keys scanned from
/// every text of the batch; each file is then cited from that one map.
pub proof fn lemma_batch_union(ts: Seq<Seq<char>>)
    ensures
        sorted_strict(batch_keys(ts)),
        forall|x: Seq<char>|
            #[trigger] batch_keys(ts).contains(x) <==> exists|i: int|
                0 <= i < ts.len() && scan_keys(#[trigger] ts[i]).contains(x),
{
    lemma_batch_accumulate_props(seq![], ts);
}


proof fn lemma_accumulate_keys_props(acc: Seq<Seq<char>>, bs: Seq<BlockView>)
    requires
        sorted_strict(acc),
    ensures
        sorted_strict(accumulate_keys(acc, bs)),
        forall|x: Seq<char>|
            #[trigger] accumulate_keys(acc, bs).contains(x) <==> (acc.contains(x) || exists|i: int|
                0 <= i < bs.len() && block_key_view(#[trigger] bs[i]) is Some && block_key_view(
                    bs[i],
                )->0.contains(x)),
    decreases bs.len(),
{
    if bs.len() == 0 {
    } else {
        let next = match bs[0] {
            BlockView::Comment(cv) => add_keys(acc, cv.keys),
            BlockView::Code(_) => acc,
        };
        if bs[0] is Comment {
            lemma_add_keys_props(acc, bs[0]->Comment_0.keys);
        }
        lemma_accumulate_keys_props(next, bs.skip(1));
        assert forall|x: Seq<char>|
            #[trigger] accumulate_keys(acc, bs).contains(x) <==> (acc.contains(x) || exists|i: int|
                0 <= i < bs.len() && block_key_view(#[trigger] bs[i]) is Some && block_key_view(
                    bs[i],
                )->0.contains(x)) by {
            if accumulate_keys(acc, bs).contains(x) {
                if !acc.contains(x) && !(bs[0] is Comment && block_key_view(bs[0])->0.contains(
                    x,
                )) {
                    let i = choose|i: int|
                        0 <= i < bs.skip(1).len() && block_key_view(#[trigger] bs.skip(1)[i])
                            is Some && block_key_view(bs.skip(1)[i])->0.contains(x);
                    assert(bs.skip(1)[i] == bs[i + 1]);
                    assert(block_key_view(bs[i + 1]) is Some && block_key_view(
                        bs[i + 1],
                    )->0.contains(x));
                }
            }
            if exists|i: int|
                0 <= i < bs.len() && block_key_view(#[trigger] bs[i]) is Some && block_key_view(
                    bs[i],
                )->0.contains(x) {
                let i = choose|i: int|
                    0 <= i < bs.len() && block_key_view(#[trigger] bs[i]) is Some && block_key_view(
                        bs[i],
                    )->0.contains(x);
                if i > 0 {
                    assert(bs.skip(1)[i - 1] == bs[i]);
                    assert(block_key_view(bs.skip(1)[i - 1]) is Some && block_key_view(
                        bs.skip(1)[i - 1],
                    )->0.contains(x));
                }
            }
        }
    }
}

/// The document's aggregate key set is sorted, duplicate-free, and holds
/// exactly the union of its comment blocks' key sets.
pub proof fn lemma_file_keys_union(bs: Seq<BlockView>)
    ensures
        sorted_strict(file_keys(bs)),
        forall|x: Seq<char>|
            #[trigger] file_keys(bs).contains(x) <==> exists|i: int|
                0 <= i < bs.len() && block_key_view(#[trigger] bs[i]) is Some && block_key_view(
                    bs[i],
                )->0.contains(x),
{
    lemma_accumulate_keys_props(seq![], bs);
}

} // verus!
