//! Blocks: maximal runs of same-kind lines, and their behavior while
//! parsing and while citing.
//!
//! A comment block keeps its raw lines and the set of keys referenced in
//! them; while parsing it drops citation footnote definitions written by an
//! earlier run, so that citing is idempotent.  While citing it appends one
//! footnote line per resolvable key, in sorted key order, separated from
//! plain text by one blank comment line.  A code block passes every line
//! through untouched.

use vstd::prelude::*;
use vstd::string::StrSliceExecFns;
use vstd::string::StringExecFns;

use crate::bib::CitationMap;
use crate::bib::KeySet;
use crate::bib::add_keys;
use crate::bib::scan_for_key;
use crate::pattern::comment_prefix;
use crate::pattern::comment_prefix_of;
use crate::pattern::has_cite;
use crate::pattern::is_cite_footnote;
use crate::pattern::is_comment_line;
use crate::pattern::is_generic_footnote;
use crate::pattern::line_is_cite_footnote;
use crate::pattern::line_is_generic_footnote;
use crate::pattern::scan_keys;

verus! {

/// The mathematical content of a comment block: its kept lines and its
/// ordered key set.
pub struct CommentView {
    pub lines: Seq<Seq<char>>,
    pub keys: Seq<Seq<char>>,
}

/// The mathematical content of a code block: its lines, untouched.
pub struct CodeView {
    pub lines: Seq<Seq<char>>,
}

/// The mathematical content of a block of either kind.
pub enum BlockView {
    Comment(CommentView),
    Code(CodeView),
}

/// A line is discarded while parsing iff it carries an inline citation
/// marker and is a citation footnote definition: such lines are derived
/// state written by an earlier run and are regenerated fresh.
pub open spec fn line_dropped(l: Seq<char>) -> bool {
    has_cite(l) && is_cite_footnote(l)
}

/// What inserting one line does to a comment block: a footnote definition
/// is dropped; any other line is appended, and the keys of its inline
/// markers join the block's key set.
pub open spec fn comment_insert_spec(cv: CommentView, l: Seq<char>) -> CommentView {
    if line_dropped(l) {
        cv
    } else {
        CommentView { lines: cv.lines.push(l), keys: add_keys(cv.keys, scan_keys(l)) }
    }
}

/// The footnote line for key `k` rendered as `t`, under the block's
/// comment prefix `p`.
pub open spec fn footnote_line(p: Seq<char>, k: Seq<char>, t: Seq<char>) -> Seq<char> {
    p + " [^@"@ + k + "]: "@ + t
}

/// The footnote lines for the keys of `ks` that resolve in `m`, in the
/// order of `ks`.
pub open spec fn footnote_lines(
    p: Seq<char>,
    ks: Seq<Seq<char>>,
    m: Map<Seq<char>, Seq<char>>,
) -> Seq<Seq<char>>
    decreases ks.len(),
{
    if ks.len() == 0 {
        seq![]
    } else if m.contains_key(ks[0]) {
        seq![footnote_line(p, ks[0], m[ks[0]])] + footnote_lines(p, ks.skip(1), m)
    } else {
        footnote_lines(p, ks.skip(1), m)
    }
}

/// At least one key of `ks` has rendered text in `m`.
pub open spec fn any_resolvable(ks: Seq<Seq<char>>, m: Map<Seq<char>, Seq<char>>) -> bool {
    exists|i: int| 0 <= i < ks.len() && m.contains_key(#[trigger] ks[i])
}

/// A blank comment line is inserted before the footnotes iff some key
/// resolves, the current last line is not already a footnote definition,
/// and it is not already the bare prefix.
pub open spec fn needs_blank(cv: CommentView, m: Map<Seq<char>, Seq<char>>) -> bool {
    let p = comment_prefix(cv.lines[0]);
    &&& any_resolvable(cv.keys, m)
    &&& !is_generic_footnote(cv.lines.last())
    &&& cv.lines.last() != p
}

/// What citing does to a comment block: nothing when the block is empty;
/// otherwise the footnote lines of its resolvable keys are appended, after
/// one blank comment line where the policy asks for it.
pub open spec fn comment_cite_spec(cv: CommentView, m: Map<Seq<char>, Seq<char>>) -> CommentView {
    if cv.lines.len() == 0 {
        cv
    } else {
        let p = comment_prefix(cv.lines[0]);
        let base = if needs_blank(cv, m) {
            cv.lines.push(p)
        } else {
            cv.lines
        };
        CommentView { lines: base + footnote_lines(p, cv.keys, m), keys: cv.keys }
    }
}

/// A non-empty comment block must start with a recognized comment line;
/// the parser only ever builds such blocks.
pub open spec fn comment_wf(cv: CommentView) -> bool {
    cv.lines.len() > 0 ==> is_comment_line(cv.lines[0])
}

/// The lines a block holds.
pub open spec fn block_lines(bv: BlockView) -> Seq<Seq<char>> {
    match bv {
        BlockView::Comment(cv) => cv.lines,
        BlockView::Code(cv) => cv.lines,
    }
}

/// Whether the block is a comment block.
pub open spec fn block_is_comment(bv: BlockView) -> bool {
    bv is Comment
}

/// The key set of a comment block; a code block tracks none.
pub open spec fn block_key_view(bv: BlockView) -> Option<Seq<Seq<char>>> {
    match bv {
        BlockView::Comment(cv) => Some(cv.keys),
        BlockView::Code(_) => None,
    }
}

/// What inserting one line does to a block of either kind.
pub open spec fn block_insert_spec(bv: BlockView, l: Seq<char>) -> BlockView {
    match bv {
        BlockView::Comment(cv) => BlockView::Comment(comment_insert_spec(cv, l)),
        BlockView::Code(cv) => BlockView::Code(CodeView { lines: cv.lines.push(l) }),
    }
}

/// What citing does to a block of either kind: only comment blocks change.
pub open spec fn block_cite_spec(bv: BlockView, m: Map<Seq<char>, Seq<char>>) -> BlockView {
    match bv {
        BlockView::Comment(cv) => BlockView::Comment(comment_cite_spec(cv, m)),
        BlockView::Code(cv) => BlockView::Code(cv),
    }
}

/// Well-formedness of a block: only comment blocks carry a condition.
pub open spec fn block_wf(bv: BlockView) -> bool {
    match bv {
        BlockView::Comment(cv) => comment_wf(cv),
        BlockView::Code(_) => true,
    }
}

/// Citing never breaks well-formedness: an empty comment block stays
/// empty, and a non-empty one keeps its first line.
pub proof fn lemma_cite_preserves_wf(bv: BlockView, m: Map<Seq<char>, Seq<char>>)
    requires
        block_wf(bv),
    ensures
        block_wf(block_cite_spec(bv, m)),
{
    match bv {
        BlockView::Comment(cv) => {
            if cv.lines.len() > 0 {
                let out = comment_cite_spec(cv, m);
                assert(out.lines[0] == cv.lines[0]);
            }
        },
        BlockView::Code(_) => {},
    }
}

/// The shared operations of the two block kinds.
pub trait BlockType {
    /// The block's mathematical content.
    spec fn model(&self) -> BlockView;

    /// How many lines the block currently holds.
    fn len(&self) -> (n: usize)
        ensures
            n == block_lines(self.model()).len(),
    ;

    /// Feed one raw line into the block.
    fn insert(&mut self, line: String)
        ensures
            final(self).model() == block_insert_spec(old(self).model(), line@),
    ;

    /// Append the rendered footnotes of the block's resolvable keys.
    fn cite(&mut self, citations: &CitationMap)
        requires
            block_wf(old(self).model()),
        ensures
            final(self).model() == block_cite_spec(old(self).model(), citations@),
    ;
}

/// A maximal run of documentation-comment lines.
pub struct Comment {
    lines: Vec<String>,
    keys: KeySet,
}

impl View for Comment {
    type V = CommentView;

    closed spec fn view(&self) -> CommentView {
        CommentView { lines: self.lines.deep_view(), keys: self.keys@ }
    }
}

impl DeepView for Comment {
    type V = CommentView;

    open spec fn deep_view(&self) -> CommentView {
        self@
    }
}

impl Default for Comment {
    /// The empty comment block.
    fn default() -> (c: Self)
        ensures
            c@.lines == Seq::<Seq<char>>::empty(),
            c@.keys == Seq::<Seq<char>>::empty(),
    {
        let c = Comment { lines: Vec::new(), keys: KeySet::new() };
        proof {
            assert(c@.lines =~= Seq::<Seq<char>>::empty());
        }
        c
    }
}

impl Comment {
    /// The block's referenced keys, sorted and duplicate-free.
    pub fn keys(&self) -> (ks: &KeySet)
        ensures
            ks@ == self@.keys,
    {
        &self.keys
    }

    /// The block's lines, as kept after parsing.
    pub fn line_at(&self, i: usize) -> (l: &String)
        requires
            i < self@.lines.len(),
        ensures
            l@ == self@.lines[i as int],
    {
        &self.lines[i]
    }
}

impl BlockType for Comment {
    open spec fn model(&self) -> BlockView {
        BlockView::Comment(self@)
    }

    fn len(&self) -> (n: usize) {
        self.lines.len()
    }

    fn insert(&mut self, line: String) {
        let ghost old_lines = self.lines.deep_view();
        let ghost old_keys = self.keys@;
        let found = scan_for_key(line.as_str());
        if found.len() > 0 {
            if line_is_cite_footnote(line.as_str()) {
                return;
            }
            let mut t: usize = 0;
            let n = found.len();
            proof {
                assert(found.deep_view().skip(0) =~= found.deep_view());
            }
            while t < n
                invariant
                    t <= n,
                    n == found.len(),
                    found.deep_view() == scan_keys(line@),
                    add_keys(self.keys@, found.deep_view().skip(t as int)) == add_keys(
                        old_keys,
                        scan_keys(line@),
                    ),
                    self.lines.deep_view() == old_lines,
                decreases n - t,
            {
                let k = found[t].duplicate();
                self.keys.insert(k);
                proof {
                    let rest = found.deep_view().skip(t as int);
                    assert(rest[0] == found.deep_view()[t as int]);
                    assert(rest.skip(1) =~= found.deep_view().skip(t + 1));
                }
                t = t + 1;
            }
            proof {
                assert(found.deep_view().skip(n as int) =~= Seq::<Seq<char>>::empty());
            }
        } else {
            proof {
                assert(add_keys(old_keys, scan_keys(line@)) == old_keys);
            }
        }
        self.lines.push(line);
        proof {
            assert(self.lines.deep_view() =~= old_lines.push(self.lines@.last()@));
        }
    }

    fn cite(&mut self, citations: &CitationMap) {
        if self.lines.len() == 0 {
            return;
        }
        let ghost cv = self@;
        let ghost m = citations@;
        let prefix = comment_prefix_of(self.lines[0].as_str());
        // does any key of this block resolve?
        let kn = self.keys.len();
        let mut resolvable = false;
        let mut t: usize = 0;
        loop
            invariant
                t <= kn,
                kn == self@.keys.len(),
                self == old(self),
                m == citations@,
                !resolvable ==> forall|j: int| 0 <= j < t ==> !m.contains_key(
                    #[trigger] self@.keys[j],
                ),
                resolvable ==> any_resolvable(self@.keys, m),
            ensures
                resolvable == any_resolvable(old(self)@.keys, m),
            decreases kn - t,
        {
            if t == kn {
                break;
            }
            let k = self.keys.get(t);
            if citations.get(k).is_some() {
                resolvable = true;
                break;
            }
            t = t + 1;
        }
        // one blank comment line between the text and the footnotes
        let mut blank = false;
        if resolvable {
            let last = &self.lines[self.lines.len() - 1];
            if !line_is_generic_footnote(last.as_str()) && !(*last == prefix) {
                blank = true;
            }
        }
        proof {
            assert(blank == needs_blank(cv, m));
        }
        if blank {
            self.lines.push(prefix.clone());
            proof {
                assert(self.lines.deep_view() =~= cv.lines.push(comment_prefix(cv.lines[0])));
            }
        }
        let ghost base = self.lines.deep_view();
        // the footnotes, in sorted key order
        let mut t2: usize = 0;
        proof {
            assert(cv.keys.skip(0) =~= cv.keys);
        }
        while t2 < kn
            invariant
                t2 <= kn,
                kn == self@.keys.len(),
                self@.keys == cv.keys,
                m == citations@,
                cv.lines.len() > 0,
                prefix@ == comment_prefix(cv.lines[0]),
                self.lines.deep_view() + footnote_lines(prefix@, cv.keys.skip(t2 as int), m)
                    == base + footnote_lines(prefix@, cv.keys, m),
            decreases kn - t2,
        {
            let ghost before = self.lines.deep_view();
            let ghost rest = cv.keys.skip(t2 as int);
            let k = self.keys.get(t2);
            match citations.get(k) {
                Some(text) => {
                    let mut line = prefix.clone();
                    line.append(" [^@");
                    line.append(k.0.as_str());
                    line.append("]: ");
                    line.append(text.as_str());
                    proof {
                        assert(line@ == footnote_line(prefix@, k@, m[k@]));
                    }
                    self.lines.push(line);
                    proof {
                        assert(self.lines.deep_view() =~= before.push(
                            footnote_line(prefix@, k@, m[k@]),
                        ));
                    }
                },
                None => {},
            }
            proof {
                assert(rest[0] == cv.keys[t2 as int]);
                assert(rest.skip(1) =~= cv.keys.skip(t2 + 1));
            }
            t2 = t2 + 1;
        }
        proof {
            assert(cv.keys.skip(kn as int) =~= Seq::<Seq<char>>::empty());
            assert(self.lines.deep_view() =~= base + footnote_lines(prefix@, cv.keys, m));
        }
    }
}

/// A maximal run of non-comment lines, preserved exactly.
pub struct Code {
    lines: Vec<String>,
}

impl View for Code {
    type V = CodeView;

    closed spec fn view(&self) -> CodeView {
        CodeView { lines: self.lines.deep_view() }
    }
}

impl DeepView for Code {
    type V = CodeView;

    open spec fn deep_view(&self) -> CodeView {
        self@
    }
}

impl Default for Code {
    /// The empty code block.
    fn default() -> (c: Self)
        ensures
            c@.lines == Seq::<Seq<char>>::empty(),
    {
        let c = Code { lines: Vec::new() };
        proof {
            assert(c@.lines =~= Seq::<Seq<char>>::empty());
        }
        c
    }
}

impl Code {
    /// The block's lines.
    pub fn line_at(&self, i: usize) -> (l: &String)
        requires
            i < self@.lines.len(),
        ensures
            l@ == self@.lines[i as int],
    {
        &self.lines[i]
    }

    /// A code block tracks no keys.
    pub fn keys(&self) -> (r: Option<&KeySet>)
        ensures
            r is None,
    {
        None
    }
}

impl BlockType for Code {
    open spec fn model(&self) -> BlockView {
        BlockView::Code(self@)
    }

    fn len(&self) -> (n: usize) {
        self.lines.len()
    }

    fn insert(&mut self, line: String) {
        let ghost old_lines = self.lines.deep_view();
        self.lines.push(line);
        proof {
            assert(self.lines.deep_view() =~= old_lines.push(self.lines@.last()@));
        }
    }

    fn cite(&mut self, citations: &CitationMap) {
    }
}

/// A block of either kind.
pub enum Block {
    Comment(Comment),
    Code(Code),
}

impl View for Block {
    type V = BlockView;

    open spec fn view(&self) -> BlockView {
        match self {
            Block::Comment(c) => BlockView::Comment(c@),
            Block::Code(c) => BlockView::Code(c@),
        }
    }
}

impl DeepView for Block {
    type V = BlockView;

    open spec fn deep_view(&self) -> BlockView {
        self@
    }
}

impl Block {
    /// The block's key set, when it tracks one.
    pub fn keys(&self) -> (r: Option<&KeySet>)
        ensures
            match r {
                Some(ks) => block_key_view(self@) == Some(ks@),
                None => block_key_view(self@) is None,
            },
    {
        match self {
            Block::Comment(c) => Some(c.keys()),
            Block::Code(c) => c.keys(),
        }
    }

    /// The block's line at position `i`.
    pub fn line_at(&self, i: usize) -> (l: &String)
        requires
            i < block_lines(self@).len(),
        ensures
            l@ == block_lines(self@)[i as int],
    {
        match self {
            Block::Comment(c) => c.line_at(i),
            Block::Code(c) => c.line_at(i),
        }
    }
}

impl BlockType for Block {
    open spec fn model(&self) -> BlockView {
        self@
    }

    fn len(&self) -> (n: usize) {
        match self {
            Block::Comment(c) => c.len(),
            Block::Code(c) => c.len(),
        }
    }

    fn insert(&mut self, line: String) {
        match self {
            Block::Comment(c) => c.insert(line),
            Block::Code(c) => c.insert(line),
        }
    }

    fn cite(&mut self, citations: &CitationMap) {
        match self {
            Block::Comment(c) => c.cite(citations),
            Block::Code(c) => c.cite(citations),
        }
    }
}

} // verus!
