//! A parsed source file: an ordered sequence of blocks reconstructed from
//! its lines, with the aggregate set of referenced keys.
//!
//! Parsing is a two-state automaton over the lines: a new block starts
//! exactly where the documentation-comment recognizer flips.  Serializing
//! concatenates every block's lines, each followed by a line terminator;
//! for input without citation markers this reproduces the file exactly.

use vstd::prelude::*;
use vstd::string::StrSliceExecFns;
use vstd::string::StringExecFns;

use crate::bib::CitationMap;
use crate::bib::KeySet;
use crate::bib::add_keys;
use crate::block::Block;
use crate::block::BlockType;
use crate::block::BlockView;
use crate::block::Code;
use crate::block::CodeView;
use crate::block::Comment;
use crate::block::CommentView;
use crate::block::block_cite_spec;
use crate::block::block_insert_spec;
use crate::block::block_lines;
use crate::block::block_wf;
use crate::block::comment_insert_spec;
use crate::block::lemma_cite_preserves_wf;
use crate::pattern::is_comment_line;
use crate::pattern::line_is_comment;

verus! {

/// A comment block as built by feeding the raw lines of one run, in order,
/// into an empty block.
pub open spec fn build_comment(run: Seq<Seq<char>>) -> CommentView
    decreases run.len(),
{
    if run.len() == 0 {
        CommentView { lines: seq![], keys: seq![] }
    } else {
        comment_insert_spec(build_comment(run.drop_last()), run.last())
    }
}

/// The block a finished run becomes: a comment block built line by line,
/// or a code block holding the run exactly.
pub open spec fn mk_block(run: Seq<Seq<char>>, kind: bool) -> BlockView {
    if kind {
        BlockView::Comment(build_comment(run))
    } else {
        BlockView::Code(CodeView { lines: run })
    }
}

/// Parsing, continued: the current run holds the lines consumed so far of
/// one maximal same-kind run, and `rest` is what is still unread.
pub open spec fn parse_cont(run: Seq<Seq<char>>, kind: bool, rest: Seq<Seq<char>>) -> Seq<
    BlockView,
>
    decreases rest.len(), 1int,
{
    if rest.len() == 0 {
        seq![mk_block(run, kind)]
    } else if is_comment_line(rest[0]) == kind {
        parse_cont(run.push(rest[0]), kind, rest.skip(1))
    } else {
        seq![mk_block(run, kind)] + parse(rest)
    }
}

/// The block sequence a file's lines parse into: alternating maximal runs
/// of documentation-comment lines and code lines.
pub open spec fn parse(lines: Seq<Seq<char>>) -> Seq<BlockView>
    decreases lines.len(), 0int,
{
    if lines.len() == 0 {
        seq![]
    } else {
        parse_cont(seq![lines[0]], is_comment_line(lines[0]), lines.skip(1))
    }
}

/// The file's aggregate key set: every comment block's keys, folded in
/// document order into one sorted set.
pub open spec fn accumulate_keys(acc: Seq<Seq<char>>, bs: Seq<BlockView>) -> Seq<Seq<char>>
    decreases bs.len(),
{
    if bs.len() == 0 {
        acc
    } else {
        let next = match bs[0] {
            BlockView::Comment(cv) => add_keys(acc, cv.keys),
            BlockView::Code(_) => acc,
        };
        accumulate_keys(next, bs.skip(1))
    }
}

/// The aggregate key set of a block sequence, starting from nothing.
pub open spec fn file_keys(bs: Seq<BlockView>) -> Seq<Seq<char>> {
    accumulate_keys(seq![], bs)
}

/// Citing a file cites each of its blocks with the one shared map.
pub open spec fn cite_blocks(bs: Seq<BlockView>, m: Map<Seq<char>, Seq<char>>) -> Seq<BlockView> {
    bs.map_values(|bv: BlockView| block_cite_spec(bv, m))
}

/// The text of a sequence of lines: each line followed by a line
/// terminator.
pub open spec fn join_lines(lines: Seq<Seq<char>>) -> Seq<char>
    decreases lines.len(),
{
    if lines.len() == 0 {
        seq![]
    } else {
        join_lines(lines.drop_last()) + lines.last() + seq!['\n']
    }
}

/// The serialized text of a block sequence.
pub open spec fn blocks_text(bs: Seq<BlockView>) -> Seq<char>
    decreases bs.len(),
{
    if bs.len() == 0 {
        seq![]
    } else {
        blocks_text(bs.drop_last()) + join_lines(block_lines(bs.last()))
    }
}

/// The mathematical content of a parsed file.
pub struct FileView {
    pub filename: Seq<char>,
    pub blocks: Seq<BlockView>,
    pub keys: Seq<Seq<char>>,
}

/// A source file split into blocks, ready to be cited and rewritten.
pub struct File {
    filename: String,
    blocks: Vec<Block>,
    keys: KeySet,
}

impl View for File {
    type V = FileView;

    closed spec fn view(&self) -> FileView {
        FileView {
            filename: self.filename@,
            blocks: self.blocks.deep_view(),
            keys: self.keys@,
        }
    }
}

impl File {
    #[verifier::type_invariant]
    spec fn inv(&self) -> bool {
        forall|i: int| 0 <= i < self@.blocks.len() ==> block_wf(#[trigger] self@.blocks[i])
    }

    /// The file's blocks, in document order.
    pub fn blocks(&self) -> (r: &[Block])
        ensures
            r@.len() == self@.blocks.len(),
            forall|i: int| 0 <= i < r@.len() ==> (#[trigger] r@[i])@ == self@.blocks[i],
    {
        self.blocks.as_slice()
    }

    /// The name the file was opened under.
    pub fn filename(&self) -> (r: &String)
        ensures
            r@ == self@.filename,
    {
        &self.filename
    }

    /// The file's aggregate key set, sorted and duplicate-free.
    pub fn keys(&self) -> (r: &KeySet)
        ensures
            r@ == self@.keys,
    {
        &self.keys
    }

    /// Split the given lines into alternating comment and code blocks and
    /// collect every referenced key.  Empty input gives a file with no
    /// blocks and no keys.
    pub fn open_from_lines(lines: Vec<String>, filename: String) -> (f: File)
        ensures
            f@.filename == filename@,
            f@.blocks == parse(lines.deep_view()),
            f@.keys == file_keys(parse(lines.deep_view())),
    {
        let ghost lv = lines.deep_view();
        let n = lines.len();
        if n == 0 {
            let f = File { filename, blocks: Vec::new(), keys: KeySet::new() };
            proof {
                assert(f@.blocks =~= parse(lv));
                assert(f@.keys =~= file_keys(parse(lv)));
            }
            return f;
        }
        let first = lines[0].clone();
        let mut kind = line_is_comment(first.as_str());
        let mut current: Block = if kind {
            Block::Comment(Comment::default())
        } else {
            Block::Code(Code::default())
        };
        let ghost mut run: Seq<Seq<char>> = Seq::empty();
        proof {
            assert(first@ == lv[0]);
        }
        current.insert(first);
        proof {
            run = seq![lv[0]];
            assert(run.drop_last() =~= Seq::<Seq<char>>::empty());
            assert(run.last() == lv[0]);
            assert(Seq::<Seq<char>>::empty().push(lv[0]) =~= seq![lv[0]]);
            assert(build_comment(Seq::<Seq<char>>::empty()) == CommentView {
                lines: seq![],
                keys: seq![],
            });
            assert(current@ == mk_block(run, kind));
        }
        let mut blocks: Vec<Block> = Vec::new();
        let mut i: usize = 1;
        proof {
            assert(blocks.deep_view() =~= Seq::<BlockView>::empty());
            assert(Seq::<BlockView>::empty() + parse_cont(run, kind, lv.skip(1)) =~= parse_cont(
                run,
                kind,
                lv.skip(1),
            ));
        }
        while i < n
            invariant
                1 <= i <= n,
                n == lines.len(),
                lv == lines.deep_view(),
                run.len() > 0,
                current.model() == mk_block(run, kind),
                parse(lv) == blocks.deep_view() + parse_cont(run, kind, lv.skip(i as int)),
                kind ==> forall|j: int| 0 <= j < run.len() ==> is_comment_line(#[trigger] run[j]),
                block_wf(current.model()),
                forall|j: int|
                    0 <= j < blocks.deep_view().len() ==> block_wf(
                        #[trigger] blocks.deep_view()[j],
                    ),
            decreases n - i,
        {
            let line = lines[i].clone();
            let line_comment = line_is_comment(line.as_str());
            let ghost rest = lv.skip(i as int);
            proof {
                assert(rest[0] == lv[i as int]);
                assert(rest.skip(1) =~= lv.skip(i + 1));
            }
            if line_comment != kind {
                let ghost done = blocks.deep_view();
                let ghost finished = current@;
                blocks.push(current);
                current = if line_comment {
                    Block::Comment(Comment::default())
                } else {
                    Block::Code(Code::default())
                };
                proof {
                    assert(blocks.deep_view() =~= done.push(finished));
                    // the finished run ends here; a new one starts at this line
                    assert(parse_cont(run, kind, rest) == seq![mk_block(run, kind)] + parse(rest));
                    assert(parse(rest) == parse_cont(
                        seq![rest[0]],
                        is_comment_line(rest[0]),
                        rest.skip(1),
                    ));
                    assert(done + (seq![mk_block(run, kind)] + parse(rest)) =~= done.push(
                        mk_block(run, kind),
                    ) + parse(rest));
                    run = Seq::empty();
                }
                kind = line_comment;
            }
            let ghost before_run = run;
            let ghost before_model = current.model();
            current.insert(line);
            proof {
                run = run.push(lv[i as int]);
                assert(run.drop_last() =~= before_run);
                if before_run.len() == 0 {
                    assert(build_comment(before_run) == CommentView {
                        lines: seq![],
                        keys: seq![],
                    });
                }
                assert(current.model() == block_insert_spec(before_model, lv[i as int]));
                assert(current.model() == mk_block(run, kind));
                if kind {
                    assert forall|j: int| 0 <= j < run.len() implies is_comment_line(
                        #[trigger] run[j],
                    ) by {
                        if j == run.len() - 1 {
                            assert(run[j] == lv[i as int]);
                        } else {
                            assert(run[j] == before_run[j]);
                        }
                    }
                }
                if before_run.len() > 0 {
                    assert(parse_cont(before_run, kind, rest) == parse_cont(
                        run,
                        kind,
                        rest.skip(1),
                    ));
                } else {
                    assert(parse_cont(seq![rest[0]], kind, rest.skip(1)) == parse_cont(
                        run,
                        kind,
                        rest.skip(1),
                    ));
                }
            }
            i = i + 1;
        }
        let ghost done = blocks.deep_view();
        let ghost finished = current@;
        blocks.push(current);
        proof {
            assert(lv.skip(n as int) =~= Seq::<Seq<char>>::empty());
            assert(blocks.deep_view() =~= done.push(finished));
            assert(parse_cont(run, kind, lv.skip(n as int)) == seq![mk_block(run, kind)]);
            assert(done + seq![mk_block(run, kind)] =~= done.push(mk_block(run, kind)));
            assert(blocks.deep_view() == parse(lv));
        }
        // collect every comment block's keys, in document order
        let ghost bs = blocks.deep_view();
        let mut keys = KeySet::new();
        let bn = blocks.len();
        let mut bi: usize = 0;
        proof {
            assert(bs.skip(0) =~= bs);
            assert(keys@ =~= Seq::<Seq<char>>::empty());
        }
        while bi < bn
            invariant
                bi <= bn,
                bn == blocks.len(),
                bs == blocks.deep_view(),
                accumulate_keys(keys@, bs.skip(bi as int)) == file_keys(bs),
            decreases bn - bi,
        {
            let ghost brest = bs.skip(bi as int);
            proof {
                assert(brest[0] == bs[bi as int]);
                assert(brest.skip(1) =~= bs.skip(bi + 1));
            }
            match &blocks[bi] {
                Block::Comment(c) => {
                    let ks = c.keys();
                    let ghost ksv = ks@;
                    let km = ks.len();
                    let mut u: usize = 0;
                    proof {
                        assert(ksv.skip(0) =~= ksv);
                    }
                    while u < km
                        invariant
                            u <= km,
                            km == ksv.len(),
                            ksv == ks@,
                            accumulate_keys(add_keys(keys@, ksv.skip(u as int)), bs.skip(bi + 1))
                                == file_keys(bs),
                        decreases km - u,
                    {
                        let ghost krest = ksv.skip(u as int);
                        let k = ks.get(u).duplicate();
                        keys.insert(k);
                        proof {
                            assert(krest[0] == ksv[u as int]);
                            assert(krest.skip(1) =~= ksv.skip(u + 1));
                        }
                        u = u + 1;
                    }
                    proof {
                        assert(ksv.skip(km as int) =~= Seq::<Seq<char>>::empty());
                    }
                },
                Block::Code(_) => {},
            }
            bi = bi + 1;
        }
        proof {
            assert(bs.skip(bn as int) =~= Seq::<BlockView>::empty());
        }
        let f = File { filename, blocks, keys };
        f
    }

    /// Cite every block with the one shared citation map; only comment
    /// blocks change, and the aggregate key set is untouched.
    pub fn cite(&mut self, citations: &CitationMap)
        ensures
            final(self)@.blocks == cite_blocks(old(self)@.blocks, citations@),
            final(self)@.filename == old(self)@.filename,
            final(self)@.keys == old(self)@.keys,
    {
        let ghost obs = self.blocks.deep_view();
        let ghost m = citations@;
        proof {
            use_type_invariant(&*self);
            assert forall|j: int| 0 <= j < obs.len() implies block_wf(#[trigger] obs[j]) by {
                assert(obs[j] == self@.blocks[j]);
            }
        }
        let mut blocks: Vec<Block> = Vec::new();
        core::mem::swap(&mut blocks, &mut self.blocks);
        let n = blocks.len();
        let mut i: usize = 0;
        proof {
            assert(blocks.deep_view() == obs);
            assert forall|j: int| 0 <= j < n implies block_wf(#[trigger] blocks.deep_view()[j]) by {
                assert(blocks.deep_view()[j] == obs[j]);
            }
        }
        while i < n
            invariant
                i <= n,
                n == blocks.len(),
                m == citations@,
                obs.len() == n,
                forall|j: int| i <= j < n ==> #[trigger] blocks.deep_view()[j] == obs[j],
                forall|j: int|
                    0 <= j < i ==> #[trigger] blocks.deep_view()[j] == block_cite_spec(obs[j], m),
                forall|j: int| 0 <= j < n ==> block_wf(#[trigger] blocks.deep_view()[j]),
            decreases n - i,
        {
            let ghost before = blocks.deep_view();
            proof {
                assert(blocks.deep_view()[i as int] == obs[i as int]);
                assert(block_wf(blocks.deep_view()[i as int]));
            }
            blocks[i].cite(citations);
            proof {
                assert forall|j: int| 0 <= j < n && j != i implies #[trigger] blocks.deep_view()[j]
                    == before[j] by {
                }
                lemma_cite_preserves_wf(obs[i as int], m);
            }
            i = i + 1;
        }
        self.blocks = blocks;
        proof {
            assert(self.blocks.deep_view() =~= cite_blocks(obs, m));
        }
    }

    /// The file's full serialized text: every block's lines in order, each
    /// line followed by a line terminator.
    pub fn serialize(&self) -> (out: String)
        ensures
            out@ == blocks_text(self@.blocks),
    {
        let ghost bs = self@.blocks;
        let mut out = String::new();
        let n = self.blocks.len();
        let mut i: usize = 0;
        proof {
            assert(bs.take(0) =~= Seq::<BlockView>::empty());
        }
        while i < n
            invariant
                i <= n,
                n == self@.blocks.len(),
                bs == self@.blocks,
                out@ == blocks_text(bs.take(i as int)),
            decreases n - i,
        {
            let b = &self.blocks[i];
            let ghost lines = block_lines(bs[i as int]);
            let m = b.len();
            let mut j: usize = 0;
            proof {
                assert(b.model() == bs[i as int]);
                assert(lines.take(0) =~= Seq::<Seq<char>>::empty());
            }
            while j < m
                invariant
                    j <= m,
                    m == lines.len(),
                    bs == self@.blocks,
                    0 <= i < bs.len(),
                    b.model() == bs[i as int],
                    lines == block_lines(bs[i as int]),
                    out@ == blocks_text(bs.take(i as int)) + join_lines(lines.take(j as int)),
                decreases m - j,
            {
                let l = b.line_at(j);
                out.append(l.as_str());
                out.append("\n");
                proof {
                    reveal_strlit("\n");
                    assert(("\n")@ =~= seq!['\n']);
                    assert(lines.take(j + 1).drop_last() =~= lines.take(j as int));
                    assert(lines.take(j + 1).last() == lines[j as int]);
                }
                j = j + 1;
            }
            proof {
                assert(lines.take(m as int) =~= lines);
                assert(bs.take(i + 1).drop_last() =~= bs.take(i as int));
                assert(bs.take(i + 1).last() == bs[i as int]);
            }
            i = i + 1;
        }
        proof {
            assert(bs.take(n as int) =~= bs);
        }
        out
    }
}

} // verus!
